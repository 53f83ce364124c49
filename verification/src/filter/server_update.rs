//! What the server's filter keeps per client in a room: game updates and chats awaiting
//! acknowledgement, and the parts of generation state diffs not yet received.
use vstd::prelude::*;
use std::collections::VecDeque;
use std::sync::Arc;
use crate::common::{GenStateDiff, UDP_MTU_SIZE};
use crate::protocol::{BroadcastChatMessage, GameUpdate, GenStateDiffPart};

verus! {

/// The server's view of a room one client is in.
pub struct ServerRoom {
    pub room_name: String,
    pub game_updates: UnackedQueue<GameUpdate>,
    pub chats: UnackedQueue<ChatMessage>,
    pub latest_gen: usize,
    pub latest_gen_client_has: usize,
    /// Parts of each diff, keyed by its (from, to) generations, not yet acknowledged; a part
    /// becomes `None` once acknowledged. Keys occur once.
    pub unacked_gsd_parts: Vec<((usize, usize), Vec<Option<Arc<GenStateDiffPart>>>)>,
}

/// No key occurs twice among the diff entries.
pub open spec fn distinct_diff_keys<V>(entries: Seq<((usize, usize), V)>) -> bool {
    forall|i: int, j: int| 0 <= i < j < entries.len() ==> #[trigger] entries[i].0 != #[trigger] entries[j].0
}

impl ServerRoom {
    /// Diff keys occur once and no diff has more than `MAX_GSD_PARTS` parts.
    pub open spec fn wf(&self) -> bool {
        &&& distinct_diff_keys(self.unacked_gsd_parts@)
        &&& forall|i: int| 0 <= i < self.unacked_gsd_parts@.len() ==> (#[trigger] self.unacked_gsd_parts@[i]).1@.len() <= MAX_GSD_PARTS
    }

    pub fn new(room_name: String) -> (r: Self)
        ensures
            r.wf(),
            r.room_name == room_name,
            r.game_updates.seq_view().len() == 0 && r.game_updates.current() is None && r.game_updates.last_acked() is None,
            r.chats.seq_view().len() == 0 && r.chats.current() is None && r.chats.last_acked() is None,
            r.latest_gen == 0,
            r.latest_gen_client_has == 0,
            r.unacked_gsd_parts@.len() == 0,
    {
        ServerRoom {
            room_name,
            game_updates: UnackedQueue::new(),
            chats: UnackedQueue::new(),
            latest_gen: 0,
            latest_gen_client_has: 0,
            unacked_gsd_parts: Vec::new(),
        }
    }

    /// Forgets the game's generations and diff parts; updates and chats stay.
    pub fn finish_game(&mut self)
        ensures
            final(self).wf(),
            final(self).latest_gen == 0,
            final(self).latest_gen_client_has == 0,
            final(self).unacked_gsd_parts@.len() == 0,
            final(self).room_name == old(self).room_name,
            final(self).game_updates == old(self).game_updates,
            final(self).chats == old(self).chats,
    {
        self.latest_gen = 0;
        self.latest_gen_client_has = 0;
        self.unacked_gsd_parts.clear();
    }
}

/// A chat message internal to the server: a broadcast message without its sequence number.
#[derive(Debug, Clone, PartialEq, Eq)]
pub struct ChatMessage {
    pub player_name: String,
    pub message: String,
}

impl ChatMessage {
    /// The broadcast form of this message, numbered `chat_seq`.
    pub fn to_bcm(self, chat_seq: u64) -> (r: BroadcastChatMessage)
        ensures
            r == (BroadcastChatMessage {
                chat_seq: Some(chat_seq),
                player_name: self.player_name,
                message: self.message,
            }),
    {
        BroadcastChatMessage { chat_seq: Some(chat_seq), player_name: self.player_name, message: self.message }
    }
}

/// Splitting a diff failed: its compressed form needs more parts than a diff may have.
#[derive(Debug, Clone, PartialEq, Eq)]
pub enum SplitGSDError {
    DiffTooLarge { byte_length: usize, max_bytes: usize, parts: usize },
}

/// Largest pattern part of a diff part: 75% of the MTU, leaving room for the rest.
pub const MAX_GSDP_SIZE: usize = 1080;
/// Most parts a diff may be split into.
pub const MAX_GSD_PARTS: usize = 32;
/// Largest compressed diff that can be sent.
pub const MAX_GSD_BYTES: usize = 34560;

/// The number of `MAX_GSDP_SIZE`-byte chunks (the last possibly shorter) in `n` bytes.
pub open spec fn chunk_count(n: int) -> int {
    (n + MAX_GSDP_SIZE - 1) / (MAX_GSDP_SIZE as int)
}

/// Chunk `i` of `bytes`.
pub open spec fn chunk(bytes: Seq<u8>, i: int) -> Seq<u8> {
    let end = (i + 1) * MAX_GSDP_SIZE;
    bytes.subrange(i * MAX_GSDP_SIZE, if end < bytes.len() { end } else { bytes.len() as int })
}

/// `parts` are the chunks of `compressed` in order, each numbered, all from `gen0` to `gen1`.
pub open spec fn splits_into(gen0: u32, gen1: u32, compressed: Seq<u8>, parts: Seq<Option<Arc<GenStateDiffPart>>>) -> bool {
    &&& parts.len() == chunk_count(compressed.len() as int)
    &&& forall|i: int| 0 <= i < parts.len() ==> (#[trigger] parts[i] matches Some(p) && {
        &&& p.part_number == i
        &&& p.total_parts == parts.len()
        &&& p.gen0 == gen0
        &&& p.gen1 == gen1
        &&& p.pattern_part@ == chunk(compressed, i)
    })
}

/// A name for `lz4_flex::block::compress_prepend_size`: LZ4 block compression of `input`,
/// preceded by the uncompressed length as a little-endian `u32`.
pub uninterp spec fn lz4_compressed(input: Seq<u8>) -> Seq<u8>;

/// Calls `lz4_flex::block::compress_prepend_size`; the result is named by `lz4_compressed`.
#[verifier::external_body]
fn compress_prepend_size(input: &[u8]) -> (r: Vec<u8>)
    ensures
        r@ == lz4_compressed(input@),
{
    lz4_flex::block::compress_prepend_size(input)
}

/// The outcome of splitting `compressed` for the diff from `gen0` to `gen1`: the chunks as
/// parts when there are at most `MAX_GSD_PARTS`, else the error giving the sizes.
pub open spec fn split_outcome(
    gen0: u32,
    gen1: u32,
    compressed: Seq<u8>,
    r: Result<Vec<Option<Arc<GenStateDiffPart>>>, SplitGSDError>,
) -> bool {
    let count = chunk_count(compressed.len() as int);
    match r {
        Ok(parts) => count <= MAX_GSD_PARTS && splits_into(gen0, gen1, compressed, parts@),
        Err(e) => count > MAX_GSD_PARTS && e == (SplitGSDError::DiffTooLarge {
            byte_length: compressed.len() as usize,
            max_bytes: MAX_GSD_BYTES,
            parts: count as usize,
        }),
    }
}

/// Splits the compressed pattern of the diff from `gen0` to `gen1` into parts of at most
/// `MAX_GSDP_SIZE` bytes, in order.
pub fn split_compressed_gen_state_diff(gen0: u32, gen1: u32, compressed: Vec<u8>) -> (r: Result<Vec<Option<Arc<GenStateDiffPart>>>, SplitGSDError>)
    ensures
        split_outcome(gen0, gen1, compressed@, r),
{
    let byte_length = compressed.len();
    let count: usize = byte_length / MAX_GSDP_SIZE + if byte_length % MAX_GSDP_SIZE != 0 { 1 } else { 0 };
    assert(count == chunk_count(byte_length as int)) by (nonlinear_arith)
        requires
            count == byte_length / MAX_GSDP_SIZE + if byte_length % MAX_GSDP_SIZE != 0 { 1int } else { 0int },
            MAX_GSDP_SIZE == 1080;
    if count > MAX_GSD_PARTS {
        return Err(SplitGSDError::DiffTooLarge { byte_length, max_bytes: MAX_GSD_BYTES, parts: count });
    }
    let total_parts = count as u8;
    let mut parts: Vec<Option<Arc<GenStateDiffPart>>> = Vec::new();
    let mut i: usize = 0;
    while i < count
        invariant
            count <= MAX_GSD_PARTS,
            count == chunk_count(byte_length as int),
            byte_length == compressed@.len(),
            total_parts == count,
            i <= count,
            parts@.len() == i,
            forall|k: int| 0 <= k < i ==> (#[trigger] parts@[k] matches Some(p) && {
                &&& p.part_number == k
                &&& p.total_parts == count
                &&& p.gen0 == gen0
                &&& p.gen1 == gen1
                &&& p.pattern_part@ == chunk(compressed@, k)
            }),
        decreases count - i,
    {
        let start = i * MAX_GSDP_SIZE;
        let end = if start + MAX_GSDP_SIZE < byte_length { start + MAX_GSDP_SIZE } else { byte_length };
        assert(start <= byte_length) by (nonlinear_arith)
            requires
                i < count,
                count == chunk_count(byte_length as int),
                start == i * MAX_GSDP_SIZE,
                MAX_GSDP_SIZE == 1080;
        let mut piece: Vec<u8> = Vec::new();
        let mut j: usize = start;
        while j < end
            invariant
                start <= j <= end <= byte_length,
                byte_length == compressed@.len(),
                piece@ == compressed@.subrange(start as int, j as int),
            decreases end - j,
        {
            piece.push(compressed[j]);
            j = j + 1;
            assert(piece@ =~= compressed@.subrange(start as int, j as int));
        }
        proof {
            assert((i + 1) * MAX_GSDP_SIZE == start + MAX_GSDP_SIZE) by (nonlinear_arith)
                requires start == i * MAX_GSDP_SIZE;
            assert(piece@ == chunk(compressed@, i as int));
        }
        let part = GenStateDiffPart { part_number: i as u8, total_parts, gen0, gen1, pattern_part: piece };
        parts.push(Some(Arc::new(part)));
        i = i + 1;
    }
    Ok(parts)
}

/// Compresses the pattern of `diff` and splits it into parts for sending, with the
/// generations truncated to 32 bits; fails when more than `MAX_GSD_PARTS` parts are needed.
pub fn compress_and_split_gen_state_diff(diff: GenStateDiff) -> (r: Result<Vec<Option<Arc<GenStateDiffPart>>>, SplitGSDError>)
    ensures
        split_outcome(diff.gen0 as u32, diff.gen1 as u32, lz4_compressed(vstd::utf8::encode_utf8(diff.pattern@)), r),
{
    let gen0 = diff.gen0 as u32;
    let gen1 = diff.gen1 as u32;
    let compressed_pattern = compress_prepend_size(diff.pattern.as_str().as_bytes());
    split_compressed_gen_state_diff(gen0, gen1, compressed_pattern)
}

/// Items sent and not yet acknowledged, each with its sequence number; front is oldest.
/// Sequence numbers do not wrap.
#[derive(Debug)]
pub struct UnackedQueue<T> {
    current_seq: Option<u64>,
    last_ack_seq: Option<u64>,
    unacked: VecDeque<(u64, T)>,
}

/// The number of leading entries of `s` numbered at most `acked`.
pub open spec fn acked_prefix_len<T>(s: Seq<(u64, T)>, acked: u64) -> nat
    decreases s.len(),
{
    if s.len() == 0 || s[0].0 > acked {
        0
    } else {
        1 + acked_prefix_len(s.drop_first(), acked)
    }
}

proof fn lemma_acked_prefix_len_bound<T>(s: Seq<(u64, T)>, acked: u64)
    ensures
        acked_prefix_len(s, acked) <= s.len(),
        forall|k: int| 0 <= k < acked_prefix_len(s, acked) ==> #[trigger] s[k].0 <= acked,
        acked_prefix_len(s, acked) < s.len() ==> s[acked_prefix_len(s, acked) as int].0 > acked,
    decreases s.len(),
{
    if s.len() > 0 && s[0].0 <= acked {
        lemma_acked_prefix_len_bound(s.drop_first(), acked);
        assert forall|k: int| 0 <= k < acked_prefix_len(s, acked) implies #[trigger] s[k].0 <= acked by {
            if k > 0 {
                assert(s[k] == s.drop_first()[k - 1]);
            }
        }
    }
}

/// The sequence number the next item pushed gets.
pub open spec fn next_seq(current: Option<u64>) -> u64 {
    match current {
        Some(s) => (s + 1) as u64,
        None => 1,
    }
}

/// The last acknowledgement remembered after acknowledging `acked`: the greatest seen.
pub open spec fn merged_ack(last: Option<u64>, acked: u64) -> u64 {
    match last {
        Some(l) => if acked > l { acked } else { l },
        None => acked,
    }
}

impl<T: Clone> UnackedQueue<T> {
    /// The unacknowledged items with their sequence numbers, oldest first.
    pub closed spec fn seq_view(&self) -> Seq<(u64, T)> {
        self.unacked@
    }

    /// Sequence number of the newest item pushed, if any.
    pub closed spec fn current(&self) -> Option<u64> {
        self.current_seq
    }

    /// The greatest acknowledgement received, if any.
    pub closed spec fn last_acked(&self) -> Option<u64> {
        self.last_ack_seq
    }

    pub fn new() -> (r: Self)
        ensures
            r.seq_view().len() == 0,
            r.current() is None,
            r.last_acked() is None,
    {
        UnackedQueue { current_seq: None, last_ack_seq: None, unacked: VecDeque::new() }
    }

    /// Appends `item` with the next sequence number (1 for the first).
    pub fn push(&mut self, item: T)
        requires
            old(self).current() != Some(u64::MAX),
        ensures
            final(self).seq_view() == old(self).seq_view().push((next_seq(old(self).current()), item)),
            final(self).current() == Some(next_seq(old(self).current())),
            final(self).last_acked() == old(self).last_acked(),
    {
        let seq = if let Some(oldseq) = self.current_seq {
            oldseq + 1
        } else {
            1
        };
        self.current_seq = Some(seq);
        self.unacked.push_back((seq, item));
    }

    /// Forgets every item and the numbering.
    pub fn clear(&mut self)
        ensures
            final(self).seq_view().len() == 0,
            final(self).current() is None,
            final(self).last_acked() is None,
    {
        self.current_seq = None;
        self.last_ack_seq = None;
        self.unacked.clear();
    }

    pub fn len(&mut self) -> (r: usize)
        ensures
            r == old(self).seq_view().len(),
            *final(self) == *old(self),
    {
        self.unacked.len()
    }

    pub fn is_empty(&mut self) -> (r: bool)
        ensures
            r == (old(self).seq_view().len() == 0),
            *final(self) == *old(self),
    {
        self.len() == 0
    }

    /// Copies of all unacknowledged items with their sequence numbers, oldest first.
    pub fn get(&self) -> (r: Vec<(u64, T)>)
        ensures
            r@.len() == self.seq_view().len(),
            forall|i: int| 0 <= i < r@.len() ==> #[trigger] r@[i].0 == self.seq_view()[i].0
                && cloned(self.seq_view()[i].1, r@[i].1),
    {
        let mut out: Vec<(u64, T)> = Vec::new();
        let mut i: usize = 0;
        while i < self.unacked.len()
            invariant
                i <= self.unacked@.len(),
                out@.len() == i,
                forall|k: int| 0 <= k < i ==> #[trigger] out@[k].0 == self.unacked@[k].0
                    && cloned(self.unacked@[k].1, out@[k].1),
            decreases self.unacked@.len() - i,
        {
            let entry = &self.unacked[i];
            let item = entry.1.clone();
            out.push((entry.0, item));
            i = i + 1;
        }
        out
    }

    /// Acknowledges the items numbered up to `acked_seq`. Nothing happens without an
    /// acknowledgement, or when it does not raise the greatest one received; otherwise the
    /// leading items numbered at most `acked_seq` are dropped. Returns whether any was.
    pub fn ack(&mut self, acked_seq: Option<u64>) -> (r: bool)
        ensures
            final(self).current() == old(self).current(),
            match acked_seq {
                None => !r && *final(self) == *old(self),
                Some(a) => {
                    let raised = old(self).last_acked() != Some(merged_ack(old(self).last_acked(), a));
                    let n = acked_prefix_len(old(self).seq_view(), a);
                    &&& final(self).last_acked() == Some(merged_ack(old(self).last_acked(), a))
                    &&& final(self).seq_view() == if raised { old(self).seq_view().skip(n as int) } else { old(self).seq_view() }
                    &&& r == (raised && n > 0)
                },
            },
    {
        let acked = match acked_seq {
            Some(a) => a,
            None => {
                return false;
            },
        };
        let prev_last = self.last_ack_seq;
        self.last_ack_seq = match self.last_ack_seq {
            Some(last_acked_seq) => Some(if acked > last_acked_seq { acked } else { last_acked_seq }),
            None => Some(acked),
        };
        if prev_last != self.last_ack_seq {
            let ghost s0 = self.unacked@;
            let mut acked_anything = false;
            let ghost mut popped: int = 0;
            proof {
                lemma_acked_prefix_len_bound(s0, acked);
            }
            loop
                invariant
                    0 <= popped <= acked_prefix_len(s0, acked),
                    acked_prefix_len(s0, acked) <= s0.len(),
                    self.unacked@ == s0.skip(popped),
                    acked_anything == (popped > 0),
                    self.last_ack_seq == Some(merged_ack(prev_last, acked)),
                    self.current_seq == old(self).current_seq,
                    forall|k: int| 0 <= k < acked_prefix_len(s0, acked) ==> #[trigger] s0[k].0 <= acked,
                    acked_prefix_len(s0, acked) < s0.len() ==> s0[acked_prefix_len(s0, acked) as int].0 > acked,
                ensures
                    popped == acked_prefix_len(s0, acked),
                    self.unacked@ == s0.skip(popped),
                    acked_anything == (popped > 0),
                    self.last_ack_seq == Some(merged_ack(prev_last, acked)),
                    self.current_seq == old(self).current_seq,
                decreases s0.len() - popped,
            {
                if self.unacked.len() == 0 {
                    break;
                }
                if acked < self.unacked[0].0 {
                    break;
                }
                let _ = self.unacked.pop_front();
                acked_anything = true;
                proof {
                    assert(s0[popped].0 <= acked);
                    assert(self.unacked@ =~= s0.skip(popped + 1));
                    popped = popped + 1;
                }
            }
            acked_anything
        } else {
            false
        }
    }
}

/// Law: after an acknowledgement that raises the greatest one received, no remaining leading
/// item is numbered at or below it, and nothing else was dropped.
pub proof fn lemma_ack_drops_exactly_acked<T>(s: Seq<(u64, T)>, acked: u64)
    ensures
        ({
            let rest = s.skip(acked_prefix_len(s, acked) as int);
            &&& rest.len() > 0 ==> rest[0].0 > acked
            &&& forall|k: int| 0 <= k < acked_prefix_len(s, acked) ==> #[trigger] s[k].0 <= acked
            &&& s =~= s.take(acked_prefix_len(s, acked) as int) + rest
        }),
{
    lemma_acked_prefix_len_bound(s, acked);
}

/// The pattern parts of `parts` concatenated in order.
pub open spec fn joined_parts(parts: Seq<Option<Arc<GenStateDiffPart>>>) -> Seq<u8>
    decreases parts.len(),
{
    if parts.len() == 0 {
        Seq::empty()
    } else {
        joined_parts(parts.drop_last()) + match parts.last() {
            Some(p) => p.pattern_part@,
            None => Seq::empty(),
        }
    }
}

proof fn lemma_chunks_join(bytes: Seq<u8>, parts: Seq<Option<Arc<GenStateDiffPart>>>, n: int)
    requires
        0 <= n <= parts.len(),
        parts.len() == chunk_count(bytes.len() as int),
        forall|i: int| 0 <= i < parts.len() ==> (#[trigger] parts[i] matches Some(p) && p.pattern_part@ == chunk(bytes, i)),
    ensures
        joined_parts(parts.take(n)) == bytes.take(if n * MAX_GSDP_SIZE < bytes.len() { n * MAX_GSDP_SIZE } else { bytes.len() as int }),
    decreases n,
{
    if n == 0 {
        assert(parts.take(0) =~= Seq::<Option<Arc<GenStateDiffPart>>>::empty());
        assert(bytes.take(0) =~= Seq::<u8>::empty());
    } else {
        lemma_chunks_join(bytes, parts, n - 1);
        assert(parts.take(n).drop_last() =~= parts.take(n - 1));
        assert((n - 1) * MAX_GSDP_SIZE < bytes.len()) by (nonlinear_arith)
            requires
                n <= parts.len(),
                parts.len() == chunk_count(bytes.len() as int),
                MAX_GSDP_SIZE == 1080,
                n >= 1;
        assert(n * MAX_GSDP_SIZE == (n - 1) * MAX_GSDP_SIZE + MAX_GSDP_SIZE) by (nonlinear_arith);
        let lo = (n - 1) * MAX_GSDP_SIZE;
        let hi = if n * MAX_GSDP_SIZE < bytes.len() { n * MAX_GSDP_SIZE } else { bytes.len() as int };
        assert(bytes.take(hi) =~= bytes.take(lo) + bytes.subrange(lo, hi));
    }
}

/// Law: the parts a compressed diff is split into, joined in order, give back the compressed
/// diff (the client's reassembly of all parts undoes the server's split).
pub proof fn law_split_then_join(gen0: u32, gen1: u32, compressed: Seq<u8>, parts: Seq<Option<Arc<GenStateDiffPart>>>)
    requires
        splits_into(gen0, gen1, compressed, parts),
    ensures
        joined_parts(parts) == compressed,
{
    lemma_chunks_join(compressed, parts, parts.len() as int);
    assert(parts.take(parts.len() as int) =~= parts);
    assert(parts.len() * MAX_GSDP_SIZE >= compressed.len()) by (nonlinear_arith)
        requires
            parts.len() == chunk_count(compressed.len() as int),
            MAX_GSDP_SIZE == 1080;
    assert(compressed.take(compressed.len() as int) =~= compressed);
}

/// The sequence numbers of `s` increase from front to back.
pub open spec fn increasing<T>(s: Seq<(u64, T)>) -> bool {
    forall|i: int, j: int| 0 <= i < j < s.len() ==> #[trigger] s[i].0 < #[trigger] s[j].0
}

/// Law: pushing keeps the sequence numbers of a queue increasing when the last item pushed
/// holds the current number; acknowledging keeps them increasing, and after an
/// acknowledgement that raised the greatest one received, every remaining item is numbered
/// above it.
pub proof fn law_unacked_numbers_increase<T>(s: Seq<(u64, T)>, current: Option<u64>, item: T, acked: u64)
    requires
        increasing(s),
        s.len() > 0 ==> current == Some(s.last().0),
        current != Some(u64::MAX),
    ensures
        increasing(s.push((next_seq(current), item))),
        increasing(s.skip(acked_prefix_len(s, acked) as int)),
        forall|i: int| 0 <= i < s.skip(acked_prefix_len(s, acked) as int).len()
            ==> #[trigger] s.skip(acked_prefix_len(s, acked) as int)[i].0 > acked,
{
    let t = s.push((next_seq(current), item));
    assert forall|i: int, j: int| 0 <= i < j < t.len() implies #[trigger] t[i].0 < #[trigger] t[j].0 by {
        if j == s.len() {
            if i < s.len() - 1 {
                assert(s[i].0 < s[s.len() - 1].0);
            }
        }
    }
    lemma_acked_prefix_len_bound(s, acked);
    let n = acked_prefix_len(s, acked) as int;
    let rest = s.skip(n);
    assert forall|i: int, j: int| 0 <= i < j < rest.len() implies #[trigger] rest[i].0 < #[trigger] rest[j].0 by {
        assert(rest[i] == s[n + i] && rest[j] == s[n + j]);
    }
    assert forall|i: int| 0 <= i < rest.len() implies #[trigger] rest[i].0 > acked by {
        assert(rest[i] == s[n + i]);
        if i > 0 {
            assert(s[n].0 < s[n + i].0);
        }
    }
}

/// Whether an item is numbered above `acked`.
pub open spec fn numbered_above<T>(acked: u64) -> spec_fn((u64, T)) -> bool {
    |e: (u64, T)| e.0 > acked
}

/// Where the first `n` items of `s` are numbered at most `acked` and the rest above it, the
/// items numbered above it are the rest.
proof fn lemma_above_is_suffix<T>(s: Seq<(u64, T)>, acked: u64, n: int)
    requires
        0 <= n <= s.len(),
        forall|k: int| 0 <= k < n ==> #[trigger] s[k].0 <= acked,
        forall|k: int| n <= k < s.len() ==> #[trigger] s[k].0 > acked,
    ensures
        s.filter(numbered_above::<T>(acked)) == s.skip(n),
    decreases s.len(),
{
    reveal(Seq::filter);
    if s.len() > 0 {
        let d = s.drop_last();
        assert(s.last() == s[s.len() - 1]);
        if n == s.len() {
            assert forall|k: int| 0 <= k < n - 1 implies #[trigger] d[k].0 <= acked by {
                assert(d[k] == s[k]);
            }
            lemma_above_is_suffix(d, acked, n - 1);
            assert(!numbered_above::<T>(acked)(s.last()));
            assert(s.filter(numbered_above::<T>(acked)) == d.filter(numbered_above::<T>(acked)));
            assert(s.skip(n) =~= d.skip(n - 1));
        } else {
            assert forall|k: int| 0 <= k < n implies #[trigger] d[k].0 <= acked by {
                assert(d[k] == s[k]);
            }
            assert forall|k: int| n <= k < d.len() implies #[trigger] d[k].0 > acked by {
                assert(d[k] == s[k]);
            }
            lemma_above_is_suffix(d, acked, n);
            assert(numbered_above::<T>(acked)(s.last()));
            assert(s.filter(numbered_above::<T>(acked)) == d.filter(numbered_above::<T>(acked)).push(s.last()));
            assert(s.skip(n) =~= d.skip(n).push(s.last()));
        }
    } else {
        assert(s.skip(n) =~= s);
    }
}

/// Law: on a queue whose sequence numbers increase from front to back (as pushing keeps them,
/// see `law_unacked_numbers_increase`), dropping the acknowledged leading items, as an
/// acknowledgement that raises the greatest one received does, leaves exactly the items
/// numbered above the acknowledgement, in their order.
pub proof fn law_ack_keeps_items_above<T>(s: Seq<(u64, T)>, acked: u64)
    requires
        increasing(s),
    ensures
        s.skip(acked_prefix_len(s, acked) as int) == s.filter(numbered_above::<T>(acked)),
{
    lemma_acked_prefix_len_bound(s, acked);
    let n = acked_prefix_len(s, acked) as int;
    assert forall|k: int| n <= k < s.len() implies #[trigger] s[k].0 > acked by {
        if k > n {
            assert(s[n].0 < s[k].0);
        }
    }
    lemma_above_is_suffix(s, acked, n);
}

/// The items and current number of a queue just cleared (or new) after `items` were pushed
/// onto it in order, as `push` states each step.
pub open spec fn pushed_after_clear<T>(items: Seq<T>) -> (Seq<(u64, T)>, Option<u64>)
    decreases items.len(),
{
    if items.len() == 0 {
        (Seq::empty(), None)
    } else {
        let (s, current) = pushed_after_clear(items.drop_last());
        (s.push((next_seq(current), items.last())), Some(next_seq(current)))
    }
}

/// Law: clearing a queue forgets its numbering and its acknowledgements. The items pushed after
/// a `clear` are numbered 1, 2, ... in order, and the first acknowledgement `acked` after it,
/// whatever was acknowledged before, is taken as raised: it drops exactly the items numbered up
/// to `acked` and keeps those above it.
pub proof fn law_clear_restarts<T>(items: Seq<T>, acked: u64)
    requires
        items.len() < u64::MAX,
    ensures
        pushed_after_clear(items).0 == Seq::new(items.len(), |i: int| ((i + 1) as u64, items[i])),
        pushed_after_clear(items).1 == if items.len() == 0 { None } else { Some(items.len() as u64) },
        None::<u64> != Some(merged_ack(None, acked)),
        ({
            let s = pushed_after_clear(items).0;
            s.skip(acked_prefix_len(s, acked) as int) == s.filter(numbered_above::<T>(acked))
        }),
    decreases items.len(),
{
    let s = pushed_after_clear(items).0;
    if items.len() > 0 {
        law_clear_restarts(items.drop_last(), acked);
        assert(s =~= Seq::new(items.len(), |i: int| ((i + 1) as u64, items[i])));
    } else {
        assert(s =~= Seq::new(items.len(), |i: int| ((i + 1) as u64, items[i])));
    }
    assert forall|i: int, j: int| 0 <= i < j < s.len() implies #[trigger] s[i].0 < #[trigger] s[j].0 by {
        assert(s[i].0 == i + 1 && s[j].0 == j + 1);
    }
    law_ack_keeps_items_above(s, acked);
}

} // verus!
