//! A buffer of sequenced items that hands them out in sequence-number order and never holds
//! two items with the same sequence number.
use vstd::prelude::*;

verus! {

/// Which half of the `u64` range a sequence number falls in: items whose most significant bit
/// is 1 are kept apart from the others so that ordering works across a numerical wrap.
pub enum Location {
    Heap0,
    Heap1,
}

/// The most significant bit of `sequence` is set.
pub open spec fn high_half(sequence: u64) -> bool {
    sequence >= 0x8000_0000_0000_0000u64
}

impl Location {
    pub fn get(sequence: u64) -> (r: Location)
        ensures
            r is Heap1 <==> high_half(sequence),
    {
        let mask: u64 = 1u64 << 63u64;
        assert(mask == 0x8000_0000_0000_0000u64) by (bit_vector)
            requires mask == 1u64 << 63u64;
        assert((sequence & mask == mask) <==> sequence >= 0x8000_0000_0000_0000u64) by (bit_vector)
            requires mask == 0x8000_0000_0000_0000u64;
        if sequence & mask == mask {
            Location::Heap1
        } else {
            Location::Heap0
        }
    }
}

/// Sequenced items split by the most significant bit of their sequence number; within each
/// half the smallest sequence number is handed out first.
pub struct SequencedMinHeap<T> {
    heap0: Vec<(u64, T)>,
    heap1: Vec<(u64, T)>,
    contents: Ghost<Map<u64, T>>,
}

/// The entries of `v` all lie in the half selected by `high`, have distinct sequence numbers,
/// and are exactly the entries of `m` in that half.
pub open spec fn half_matches<T>(v: Seq<(u64, T)>, m: Map<u64, T>, high: bool) -> bool {
    &&& forall|i: int| 0 <= i < v.len() ==> high_half(#[trigger] v[i].0) == high
    &&& forall|i: int| #![trigger v[i]] 0 <= i < v.len() ==> m.contains_key(v[i].0) && m[v[i].0] == v[i].1
    &&& forall|i: int, j: int| 0 <= i < v.len() && 0 <= j < v.len() && i != j ==> v[i].0 != v[j].0
    &&& forall|k: u64| #[trigger] m.contains_key(k) && high_half(k) == high ==> exists|i: int| 0 <= i < v.len() && v[i].0 == k
}

proof fn lemma_half_entry<T>(v: Seq<(u64, T)>, m: Map<u64, T>, high: bool, i: int)
    requires
        half_matches(v, m, high),
        0 <= i < v.len(),
    ensures
        m.contains_key(v[i].0),
        m[v[i].0] == v[i].1,
{
}

impl<T> SequencedMinHeap<T> {
    /// The items held, by sequence number.
    pub closed spec fn view(&self) -> Map<u64, T> {
        self.contents@
    }

    pub closed spec fn wf(&self) -> bool {
        &&& half_matches(self.heap0@, self.contents@, false)
        &&& half_matches(self.heap1@, self.contents@, true)
        &&& self.contents@.dom().finite()
    }

    /// A well-formed heap holds finitely many items.
    pub proof fn lemma_finite(&self)
        requires
            self.wf(),
        ensures
            self@.dom().finite(),
    {
    }

    pub fn new() -> (r: Self)
        ensures
            r.wf(),
            r@ == Map::<u64, T>::empty(),
    {
        SequencedMinHeap { heap0: Vec::new(), heap1: Vec::new(), contents: Ghost(Map::empty()) }
    }

    fn find_in(v: &Vec<(u64, T)>, sequence: u64) -> (r: Option<usize>)
        ensures
            match r {
                Some(i) => i < v@.len() && v@[i as int].0 == sequence,
                None => forall|i: int| 0 <= i < v@.len() ==> v@[i].0 != sequence,
            },
    {
        let mut i: usize = 0;
        while i < v.len()
            invariant
                i <= v@.len(),
                forall|j: int| 0 <= j < i ==> v@[j].0 != sequence,
            decreases v@.len() - i,
        {
            if v[i].0 == sequence {
                return Some(i);
            }
            i = i + 1;
        }
        None
    }

    /// Whether an item with this sequence number is held.
    pub fn contains_sequence_number(&self, sequence: u64) -> (r: bool)
        requires
            self.wf(),
        ensures
            r == self@.contains_key(sequence),
    {
        match Location::get(sequence) {
            Location::Heap0 => {
                let found = Self::find_in(&self.heap0, sequence);
                proof {
                    if found is None && self.contents@.contains_key(sequence) {
                        let i = choose|i: int| 0 <= i < self.heap0@.len() && self.heap0@[i].0 == sequence;
                    }
                }
                found.is_some()
            },
            Location::Heap1 => {
                let found = Self::find_in(&self.heap1, sequence);
                proof {
                    if found is None && self.contents@.contains_key(sequence) {
                        let i = choose|i: int| 0 <= i < self.heap1@.len() && self.heap1@[i].0 == sequence;
                    }
                }
                found.is_some()
            },
        }
    }

    /// Adds `t` under `sequence` unless an item with that sequence number is already held.
    /// Returns whether it was added.
    pub fn add(&mut self, sequence: u64, t: T) -> (added: bool)
        requires
            old(self).wf(),
        ensures
            final(self).wf(),
            added == !old(self)@.contains_key(sequence),
            final(self)@ == if added { old(self)@.insert(sequence, t) } else { old(self)@ },
    {
        if self.contains_sequence_number(sequence) {
            return false;
        }
        let ghost old_m = self.contents@;
        let ghost new_m = old_m.insert(sequence, t);
        match Location::get(sequence) {
            Location::Heap0 => {
                let ghost old_v = self.heap0@;
                self.heap0.push((sequence, t));
                self.contents = Ghost(new_m);
                proof {
                    assert forall|k: u64| #[trigger] new_m.contains_key(k) && high_half(k) == false
                        implies exists|i: int| 0 <= i < self.heap0@.len() && self.heap0@[i].0 == k by {
                        if k == sequence {
                            assert(self.heap0@[old_v.len() as int].0 == k);
                        } else {
                            let i = choose|i: int| 0 <= i < old_v.len() && old_v[i].0 == k;
                            assert(self.heap0@[i].0 == k);
                        }
                    }
                    assert forall|k: u64| #[trigger] new_m.contains_key(k) && high_half(k) == true
                        implies exists|i: int| 0 <= i < self.heap1@.len() && self.heap1@[i].0 == k by {
                        assert(old_m.contains_key(k));
                        let i = choose|i: int| 0 <= i < old(self).heap1@.len() && old(self).heap1@[i].0 == k;
                        assert(self.heap1@[i].0 == k);
                    }
                }
            },
            Location::Heap1 => {
                let ghost old_v = self.heap1@;
                self.heap1.push((sequence, t));
                self.contents = Ghost(new_m);
                proof {
                    assert forall|k: u64| #[trigger] new_m.contains_key(k) && high_half(k) == true
                        implies exists|i: int| 0 <= i < self.heap1@.len() && self.heap1@[i].0 == k by {
                        if k == sequence {
                            assert(self.heap1@[old_v.len() as int].0 == k);
                        } else {
                            let i = choose|i: int| 0 <= i < old_v.len() && old_v[i].0 == k;
                            assert(self.heap1@[i].0 == k);
                        }
                    }
                    assert forall|k: u64| #[trigger] new_m.contains_key(k) && high_half(k) == false
                        implies exists|i: int| 0 <= i < self.heap0@.len() && self.heap0@[i].0 == k by {
                        assert(old_m.contains_key(k));
                        let i = choose|i: int| 0 <= i < old(self).heap0@.len() && old(self).heap0@[i].0 == k;
                        assert(self.heap0@[i].0 == k);
                    }
                }
            },
        }
        true
    }

    fn index_of_min(v: &Vec<(u64, T)>) -> (r: usize)
        requires
            v@.len() > 0,
        ensures
            r < v@.len(),
            forall|j: int| 0 <= j < v@.len() ==> v@[r as int].0 <= #[trigger] v@[j].0,
    {
        let mut best: usize = 0;
        let mut i: usize = 1;
        while i < v.len()
            invariant
                1 <= i <= v@.len(),
                best < i,
                forall|j: int| 0 <= j < i ==> v@[best as int].0 <= #[trigger] v@[j].0,
            decreases v@.len() - i,
        {
            if v[i].0 < v[best].0 {
                best = i;
            }
            i = i + 1;
        }
        best
    }

    /// The item with sequence number `expected_sequence` is held and no item in the same half
    /// of the range has a smaller sequence number.
    pub open spec fn is_next(&self, expected_sequence: u64) -> bool {
        &&& self@.contains_key(expected_sequence)
        &&& forall|k: u64| #[trigger] self@.contains_key(k) && high_half(k) == high_half(expected_sequence)
            ==> expected_sequence <= k
    }

    /// Takes the item with sequence number `expected_sequence` if it is the smallest one held in
    /// its half of the range.
    pub fn take_if_matching(&mut self, expected_sequence: u64) -> (r: Option<T>)
        requires
            old(self).wf(),
        ensures
            final(self).wf(),
            r is Some <==> old(self).is_next(expected_sequence),
            match r {
                Some(t) => t == old(self)@[expected_sequence]
                    && final(self)@ == old(self)@.remove(expected_sequence),
                None => final(self)@ == old(self)@,
            },
    {
        let ghost old_m = self.contents@;
        let high = Location::get(expected_sequence);
        let is_high = match high { Location::Heap1 => true, Location::Heap0 => false };
        let ghost old_v = if is_high { self.heap1@ } else { self.heap0@ };
        let len = if is_high { self.heap1.len() } else { self.heap0.len() };
        if len == 0 {
            proof {
                if old_m.contains_key(expected_sequence) {
                    let i = choose|i: int| 0 <= i < old_v.len() && old_v[i].0 == expected_sequence;
                }
            }
            return None;
        }
        let m = if is_high { Self::index_of_min(&self.heap1) } else { Self::index_of_min(&self.heap0) };
        let key = if is_high { self.heap1[m].0 } else { self.heap0[m].0 };
        if key != expected_sequence {
            proof {
                if old(self).is_next(expected_sequence) {
                    assert(old_m.contains_key(old_v[m as int].0));
                    let i = choose|i: int| 0 <= i < old_v.len() && old_v[i].0 == expected_sequence;
                    assert(old_v[m as int].0 <= old_v[i].0);
                }
            }
            return None;
        }
        proof {
            assert forall|k: u64| #[trigger] old_m.contains_key(k) && high_half(k) == high_half(expected_sequence)
                implies expected_sequence <= k by {
                let i = choose|i: int| 0 <= i < old_v.len() && old_v[i].0 == k;
                assert(old_v[m as int].0 <= old_v[i].0);
            }
        }
        let entry = if is_high { self.heap1.remove(m) } else { self.heap0.remove(m) };
        let ghost new_m = old_m.remove(expected_sequence);
        self.contents = Ghost(new_m);
        proof {
            assert(half_matches(old_v, old_m, is_high));
            let new_v = old_v.remove(m as int);
            assert forall|k: u64| #[trigger] new_m.contains_key(k) && high_half(k) == is_high
                implies exists|i: int| 0 <= i < new_v.len() && new_v[i].0 == k by {
                let i = choose|i: int| 0 <= i < old_v.len() && old_v[i].0 == k;
                assert(i != m);
                if i < m {
                    assert(new_v[i].0 == k);
                } else {
                    assert(new_v[i - 1].0 == k);
                }
            }
            let other_v = if is_high { self.heap0@ } else { self.heap1@ };
            assert forall|k: u64| #[trigger] new_m.contains_key(k) && high_half(k) == !is_high
                implies exists|i: int| 0 <= i < other_v.len() && other_v[i].0 == k by {
                assert(old_m.contains_key(k));
                let i = choose|i: int| 0 <= i < other_v.len() && other_v[i].0 == k;
            }
            assert forall|i: int| 0 <= i < new_v.len() implies #[trigger] new_m.contains_key(new_v[i].0) && new_m[new_v[i].0] == new_v[i].1 by {
                if i < m {
                    assert(new_v[i] == old_v[i]);
                    assert(0 <= i < old_v.len());
                    assert(old_v[i].0 != old_v[m as int].0);
                    lemma_half_entry(old_v, old_m, is_high, i);
                } else {
                    assert(new_v[i] == old_v[i + 1]);
                    assert(old_v[i + 1].0 != old_v[m as int].0);
                    lemma_half_entry(old_v, old_m, is_high, i + 1);
                }
            }
            assert forall|i: int| 0 <= i < other_v.len() implies #[trigger] new_m.contains_key(other_v[i].0) && new_m[other_v[i].0] == other_v[i].1 by {
                assert(high_half(other_v[i].0) != high_half(expected_sequence));
            }
        }
        Some(entry.1)
    }
}

/// Law: an item added under a sequence number below every other one held in its half of the
/// range is the next to be taken there, and taking it gives it back and leaves the rest.
pub proof fn law_add_then_take<T>(before: SequencedMinHeap<T>, after: SequencedMinHeap<T>, sequence: u64, t: T)
    requires
        !before@.contains_key(sequence),
        after@ == before@.insert(sequence, t),
        forall|k: u64| #[trigger] before@.contains_key(k) && high_half(k) == high_half(sequence) ==> sequence < k,
    ensures
        after.is_next(sequence),
        after@[sequence] == t,
        after@.remove(sequence) == before@,
{
    assert(after@.remove(sequence) =~= before@);
}

} // verus!
