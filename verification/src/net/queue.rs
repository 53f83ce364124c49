//! Reordering queues: items are kept in increasing sequence-number order, across a numerical
//! wrap of the sequence numbers.
use vstd::prelude::*;
use std::collections::VecDeque;
use crate::filter::filter::{far_apart, is_seq_sufficiently_far_away};
use crate::net::model::{packet_is_sequenced, packet_seq, BroadcastChatMessage, Packet};
use crate::time::{gap_nanos, instant_now, nanos_between};

verus! {

/// Capacity the queues are created with; also the length `discard_older_items` trims to.
pub const NETWORK_QUEUE_LENGTH: usize = 600;
/// A packet waiting at least this long (in milliseconds) is due for retransmission.
pub const RETRANSMISSION_THRESHOLD_IN_MS: u128 = 400;
/// A packet retried at least this often is retransmitted again regardless of time.
pub const RETRY_THRESHOLD: usize = 2;
/// A packet retried at least this often is retransmitted aggressively.
pub const RETRY_AGGRESSIVE_THRESHOLD: usize = 5;
/// At most this many packets are selected for retransmission at once.
pub const RETRANSMISSION_COUNT: usize = 32;

/// Things with a sequence number.
pub trait Sequenced {
    /// Whether this item carries a sequence number at all.
    spec fn has_sequence(&self) -> bool;

    /// Its sequence number.
    spec fn seq_of(&self) -> u64;

    fn sequence_number(&self) -> (r: u64)
        requires
            self.has_sequence(),
        ensures
            r == self.seq_of(),
    ;
}

impl Sequenced for Packet {
    open spec fn has_sequence(&self) -> bool {
        packet_is_sequenced(*self)
    }

    open spec fn seq_of(&self) -> u64 {
        packet_seq(*self)
    }

    fn sequence_number(&self) -> (r: u64) {
        Packet::sequence_number(self)
    }
}

impl Sequenced for BroadcastChatMessage {
    open spec fn has_sequence(&self) -> bool {
        true
    }

    open spec fn seq_of(&self) -> u64 {
        self.chat_seq_or_zero()
    }

    fn sequence_number(&self) -> (r: u64) {
        BroadcastChatMessage::sequence_number(self)
    }
}

/// Every item of `q` has a sequence number.
pub open spec fn all_sequenced<T: Sequenced>(q: Seq<T>) -> bool {
    forall|i: int| 0 <= i < q.len() ==> #[trigger] q[i].has_sequence()
}

/// Sequence numbers strictly increase over `q[lo..hi]`.
pub open spec fn sorted_range<T: Sequenced>(q: Seq<T>, lo: int, hi: int) -> bool {
    forall|i: int, j: int| lo <= i < j < hi ==> #[trigger] q[i].seq_of() < #[trigger] q[j].seq_of()
}

/// The first `k` items of `q` are numbered `start`, `start + 1`, ..., `start + k - 1`.
pub open spec fn contiguous_from<T: Sequenced>(q: Seq<T>, start: u64, k: int) -> bool {
    forall|j: int| 0 <= j < k ==> #[trigger] q[j].seq_of() == start + j
}

/// Some item of `q` has sequence number `s`.
pub open spec fn contains_seq<T: Sequenced>(q: Seq<T>, s: u64) -> bool {
    exists|i: int| 0 <= i < q.len() && #[trigger] q[i].seq_of() == s
}

/// The queue is in order. Without a wrap, sequence numbers strictly increase from front to
/// back. With a wrap at `k`, the first `k` items (those numbered before the wrap) and the
/// remaining items (numbered after it) each strictly increase, and every item before the wrap
/// has a larger number than every item after it.
pub open spec fn queue_ordered<T: Sequenced>(q: Seq<T>, wrap: Option<usize>) -> bool {
    match wrap {
        None => sorted_range(q, 0, q.len() as int),
        Some(k) => {
            &&& 0 < k < q.len()
            &&& sorted_range(q, 0, k as int)
            &&& sorted_range(q, k as int, q.len() as int)
            &&& forall|i: int, j: int| 0 <= i < k <= j < q.len() ==> #[trigger] q[i].seq_of() > #[trigger] q[j].seq_of()
        },
    }
}

/// Whether a new sequence number `sequence` would start a wrap of a queue that has not wrapped:
/// it lies more than half the range away from both the oldest and the newest sequence number.
pub open spec fn causes_wrap(wrap: Option<usize>, sequence: u64, oldest: u64, newest: u64) -> bool {
    wrap is None && far_apart(sequence, oldest) && far_apart(sequence, newest)
}

/// The inputs on which `buffer_item` cannot complete: an item numbered below the oldest one and
/// above the newest one of a queue that has not wrapped (which an ordered queue never is), or
/// whose insertion point after a stale wrap index lies past the end of the queue.
pub open spec fn buffer_item_aborts<T: Sequenced>(q: Seq<T>, wrap: Option<usize>, sequence: u64) -> bool {
    let n = q.len();
    let oldest = q[0].seq_of();
    let newest = q[n - 1].seq_of();
    &&& n > 0
    &&& sequence < oldest
    &&& newest != u64::MAX
    &&& !(sequence > newest && wrap is Some)
    &&& sequence != newest
    &&& (sequence < newest ==> (wrap matches Some(k) && k > n))
}

/// In a wrapped queue, whether an item numbered `s` belongs with the items numbered before the
/// wrap: it is at least the oldest one, or it is above the newest one by more than half the range
/// (an older number that arrived late).
pub open spec fn joins_before_wrap<T: Sequenced>(q: Seq<T>, s: u64) -> bool {
    s >= q[0].seq_of() || (s > q[q.len() - 1].seq_of() && far_apart(s, q[q.len() - 1].seq_of()))
}

/// The wrap index after buffering an item numbered `s` into the ordered queue `q` with wrap index
/// `wrap`. A queue that has not wrapped starts to when `s` is far from both ends: the item then
/// goes to the back (the wrap is at its index) when it is below the oldest, else to the front (the
/// wrap follows it). In a wrapped queue the index moves up by one when the item joins the items
/// before the wrap.
pub open spec fn wrap_after<T: Sequenced>(q: Seq<T>, wrap: Option<usize>, s: u64) -> Option<usize> {
    let n = q.len();
    if n == 0 {
        wrap
    } else {
        match wrap {
            None => if causes_wrap(wrap, s, q[0].seq_of(), q[n - 1].seq_of()) {
                if s < q[0].seq_of() { Some(n as usize) } else { Some(1usize) }
            } else {
                None
            },
            Some(k) => if joins_before_wrap(q, s) { Some((k + 1) as usize) } else { Some(k) },
        }
    }
}

/// Where `buffer_item` inserts a new item numbered `s` into the ordered queue `q` with wrap index
/// `wrap`: at index `i`, its sorted place among the items on its side of the wrap (at the back or
/// the front when it starts a wrap).
pub open spec fn placed_at<T: Sequenced>(q: Seq<T>, wrap: Option<usize>, s: u64, i: int) -> bool {
    let n = q.len() as int;
    match wrap {
        None => match wrap_after(q, wrap, s) {
            None => 0 <= i <= n && fits_at(q, 0, n, i, s),
            Some(_) => if s < q[0].seq_of() { i == n } else { i == 0 },
        },
        Some(k) => if joins_before_wrap(q, s) {
            0 <= i <= k && fits_at(q, 0, k as int, i, s)
        } else {
            k <= i <= n && fits_at(q, k as int, n, i, s)
        },
    }
}

/// In an ordered queue the front item is the smallest before the wrap and the back item the
/// largest after it.
proof fn lemma_ordered_bounds<T: Sequenced>(q: Seq<T>, wrap: Option<usize>)
    requires
        queue_ordered(q, wrap),
        q.len() > 0,
    ensures
        wrap is None ==> forall|j: int| 0 <= j < q.len() ==> q[0].seq_of() <= #[trigger] q[j].seq_of() <= q[q.len() - 1].seq_of(),
        wrap matches Some(k) ==> {
            &&& forall|j: int| 0 <= j < k ==> q[0].seq_of() <= #[trigger] q[j].seq_of()
            &&& forall|j: int| k <= j < q.len() ==> #[trigger] q[j].seq_of() <= q[q.len() - 1].seq_of()
            &&& q[0].seq_of() > q[q.len() - 1].seq_of()
        },
{
    match wrap {
        None => {
            assert forall|j: int| 0 <= j < q.len() implies q[0].seq_of() <= #[trigger] q[j].seq_of() <= q[q.len() - 1].seq_of() by {
                if 0 < j {
                    assert(q[0].seq_of() < q[j].seq_of());
                }
                if j < q.len() - 1 {
                    assert(q[j].seq_of() < q[q.len() - 1].seq_of());
                }
            }
        },
        Some(k) => {
            assert forall|j: int| 0 <= j < k implies q[0].seq_of() <= #[trigger] q[j].seq_of() by {
                if 0 < j {
                    assert(q[0].seq_of() < q[j].seq_of());
                }
            }
            assert forall|j: int| k <= j < q.len() implies #[trigger] q[j].seq_of() <= q[q.len() - 1].seq_of() by {
                if j < q.len() - 1 {
                    assert(q[j].seq_of() < q[q.len() - 1].seq_of());
                }
            }
            assert(q[0].seq_of() > q[q.len() - 1].seq_of());
        },
    }
}

/// Every item of `q[lo..hi]` before index `i` is numbered below `s`, every item from `i` on above.
pub open spec fn fits_at<T: Sequenced>(q: Seq<T>, lo: int, hi: int, i: int, s: u64) -> bool {
    &&& forall|j: int| lo <= j < i ==> #[trigger] q[j].seq_of() < s
    &&& forall|j: int| i <= j < hi ==> #[trigger] q[j].seq_of() > s
}

/// An item numbered at or above the oldest one of a wrapped queue that is already present: the
/// one input on which `buffer_item` leaves the queue out of order (it still moves the wrap index).
pub open spec fn duplicate_before_wrap<T: Sequenced>(q: Seq<T>, wrap: Option<usize>, s: u64) -> bool {
    &&& wrap is Some
    &&& q.len() > 0
    &&& s >= q[0].seq_of()
    &&& contains_seq(q, s)
}

proof fn lemma_insert_unwrapped<T: Sequenced>(q: Seq<T>, i: int, x: T)
    requires
        sorted_range(q, 0, q.len() as int),
        0 <= i <= q.len(),
        fits_at(q, 0, q.len() as int, i, x.seq_of()),
    ensures
        queue_ordered(q.insert(i, x), None),
        !contains_seq(q, x.seq_of()),
{
    let r = q.insert(i, x);
    assert forall|a: int, b: int| 0 <= a < b < r.len() implies #[trigger] r[a].seq_of() < #[trigger] r[b].seq_of() by {
        if b < i {
        } else if b == i {
        } else if a < i {
        } else if a == i {
            assert(r[b] == q[b - 1]);
        } else {
            assert(r[a] == q[a - 1]);
            assert(r[b] == q[b - 1]);
        }
    }
    if contains_seq(q, x.seq_of()) {
        let j = choose|j: int| 0 <= j < q.len() && #[trigger] q[j].seq_of() == x.seq_of();
        if j < i {} else {}
    }
}

proof fn lemma_start_wrap_at_back<T: Sequenced>(q: Seq<T>, n: usize, x: T)
    requires
        q.len() == n,
        sorted_range(q, 0, q.len() as int),
        q.len() > 0,
        forall|j: int| 0 <= j < q.len() ==> x.seq_of() < #[trigger] q[j].seq_of(),
    ensures
        queue_ordered(q.insert(q.len() as int, x), Some(n)),
        !contains_seq(q, x.seq_of()),
{
    let r = q.insert(q.len() as int, x);
    assert forall|a: int, b: int| 0 <= a < b < q.len() implies #[trigger] r[a].seq_of() < #[trigger] r[b].seq_of() by {
        assert(r[a] == q[a] && r[b] == q[b]);
    }
    assert forall|a: int, b: int| 0 <= a < q.len() <= b < r.len() implies #[trigger] r[a].seq_of() > #[trigger] r[b].seq_of() by {
        assert(r[a] == q[a]);
        assert(r[b] == x);
    }
    if contains_seq(q, x.seq_of()) {
        let j = choose|j: int| 0 <= j < q.len() && #[trigger] q[j].seq_of() == x.seq_of();
    }
}

proof fn lemma_start_wrap_at_front<T: Sequenced>(q: Seq<T>, x: T)
    requires
        sorted_range(q, 0, q.len() as int),
        q.len() > 0,
        forall|j: int| 0 <= j < q.len() ==> x.seq_of() > #[trigger] q[j].seq_of(),
    ensures
        queue_ordered(q.insert(0, x), Some(1usize)),
        !contains_seq(q, x.seq_of()),
{
    let r = q.insert(0, x);
    assert forall|a: int, b: int| 1 <= a < b < r.len() implies #[trigger] r[a].seq_of() < #[trigger] r[b].seq_of() by {
        assert(r[a] == q[a - 1] && r[b] == q[b - 1]);
    }
    assert forall|a: int, b: int| 0 <= a < 1 <= b < r.len() implies #[trigger] r[a].seq_of() > #[trigger] r[b].seq_of() by {
        assert(r[b] == q[b - 1]);
    }
    if contains_seq(q, x.seq_of()) {
        let j = choose|j: int| 0 <= j < q.len() && #[trigger] q[j].seq_of() == x.seq_of();
    }
}

proof fn lemma_insert_before_wrap<T: Sequenced>(q: Seq<T>, k: usize, i: int, x: T)
    requires
        queue_ordered(q, Some(k)),
        k < usize::MAX,
        0 <= i <= k,
        fits_at(q, 0, k as int, i, x.seq_of()),
        forall|j: int| k <= j < q.len() ==> x.seq_of() > #[trigger] q[j].seq_of(),
    ensures
        queue_ordered(q.insert(i, x), Some((k + 1) as usize)),
        !contains_seq(q, x.seq_of()),
{
    let r = q.insert(i, x);
    let k1 = k + 1;
    assert forall|a: int, b: int| 0 <= a < b < k1 implies #[trigger] r[a].seq_of() < #[trigger] r[b].seq_of() by {
        if b < i {
        } else if b == i {
        } else if a < i {
        } else if a == i {
            assert(r[b] == q[b - 1]);
        } else {
            assert(r[a] == q[a - 1]);
            assert(r[b] == q[b - 1]);
        }
    }
    assert forall|a: int, b: int| k1 <= a < b < r.len() implies #[trigger] r[a].seq_of() < #[trigger] r[b].seq_of() by {
        assert(r[a] == q[a - 1] && r[b] == q[b - 1]);
    }
    assert forall|a: int, b: int| 0 <= a < k1 <= b < r.len() implies #[trigger] r[a].seq_of() > #[trigger] r[b].seq_of() by {
        assert(r[b] == q[b - 1]);
        if a < i {
            assert(r[a] == q[a]);
        } else if a == i {
        } else {
            assert(r[a] == q[a - 1]);
        }
    }
    if contains_seq(q, x.seq_of()) {
        let j = choose|j: int| 0 <= j < q.len() && #[trigger] q[j].seq_of() == x.seq_of();
        if j < i {} else if j < k {} else {}
    }
}

proof fn lemma_insert_after_wrap<T: Sequenced>(q: Seq<T>, k: usize, i: int, x: T)
    requires
        queue_ordered(q, Some(k)),
        k <= i <= q.len(),
        fits_at(q, k as int, q.len() as int, i, x.seq_of()),
        forall|j: int| 0 <= j < k ==> x.seq_of() < #[trigger] q[j].seq_of(),
    ensures
        queue_ordered(q.insert(i, x), Some(k)),
        !contains_seq(q, x.seq_of()),
{
    let r = q.insert(i, x);
    assert forall|a: int, b: int| 0 <= a < b < k implies #[trigger] r[a].seq_of() < #[trigger] r[b].seq_of() by {
        assert(r[a] == q[a] && r[b] == q[b]);
    }
    assert forall|a: int, b: int| k <= a < b < r.len() implies #[trigger] r[a].seq_of() < #[trigger] r[b].seq_of() by {
        if b < i {
        } else if b == i {
        } else if a < i {
        } else if a == i {
            assert(r[b] == q[b - 1]);
        } else {
            assert(r[a] == q[a - 1]);
            assert(r[b] == q[b - 1]);
        }
    }
    assert forall|a: int, b: int| 0 <= a < k <= b < r.len() implies #[trigger] r[a].seq_of() > #[trigger] r[b].seq_of() by {
        assert(r[a] == q[a]);
        if b < i {
        } else if b == i {
        } else {
            assert(r[b] == q[b - 1]);
        }
    }
    if contains_seq(q, x.seq_of()) {
        let j = choose|j: int| 0 <= j < q.len() && #[trigger] q[j].seq_of() == x.seq_of();
        if j < k {} else if j < i {} else {}
    }
}

/// Bookkeeping for one transmission of a queued packet.
pub struct NetAttempt {
    pub time: std::time::Instant,
    pub retries: usize,
}

impl NetAttempt {
    pub fn new() -> (r: Self)
        ensures
            r.retries == 0,
    {
        NetAttempt { time: instant_now(), retries: 0 }
    }

    /// Counts one more retry and restarts the clock.
    pub fn increment_retries(&mut self)
        requires
            old(self).retries < usize::MAX,
        ensures
            final(self).retries == old(self).retries + 1,
    {
        self.retries = self.retries + 1;
        self.time = instant_now();
    }
}

/// A reordering queue: back is newest, front is oldest. `attempts` records one transmission
/// attempt per queued item; `buffer_wrap_index` is the index at which sequence numbers wrapped.
pub struct NetQueue<T> {
    pub queue: VecDeque<T>,
    pub attempts: VecDeque<NetAttempt>,
    pub buffer_wrap_index: Option<usize>,
}

impl<T: Sequenced> NetQueue<T> {
    /// The queue is ordered (see `queue_ordered`) and has one attempt record per item.
    pub open spec fn wf(&self) -> bool {
        &&& queue_ordered(self.queue@, self.buffer_wrap_index)
        &&& self.attempts@.len() == self.queue@.len()
    }

    pub fn new() -> (r: Self)
        ensures
            r.queue@.len() == 0,
            r.attempts@.len() == 0,
            r.buffer_wrap_index is None,
            r.wf(),
    {
        NetQueue {
            queue: VecDeque::with_capacity(NETWORK_QUEUE_LENGTH),
            attempts: VecDeque::with_capacity(NETWORK_QUEUE_LENGTH),
            buffer_wrap_index: None,
        }
    }

    pub fn len(&self) -> (r: usize)
        ensures
            r == self.queue@.len(),
    {
        self.queue.len()
    }

    pub fn as_queue_type(&self) -> (r: &VecDeque<T>)
        ensures
            r@ == self.queue@,
    {
        &self.queue
    }

    pub fn push_back(&mut self, item: T)
        ensures
            final(self).queue@ == old(self).queue@.push(item),
            final(self).attempts@ == old(self).attempts@,
            final(self).buffer_wrap_index == old(self).buffer_wrap_index,
    {
        self.queue.push_back(item);
    }

    pub fn push_front(&mut self, item: T)
        ensures
            final(self).queue@ == seq![item] + old(self).queue@,
            final(self).attempts@ == old(self).attempts@,
            final(self).buffer_wrap_index == old(self).buffer_wrap_index,
    {
        self.queue.push_front(item);
    }

    pub fn insert(&mut self, index: usize, item: T)
        requires
            index <= old(self).queue@.len(),
        ensures
            final(self).queue@ == old(self).queue@.insert(index as int, item),
            final(self).attempts@ == old(self).attempts@,
            final(self).buffer_wrap_index == old(self).buffer_wrap_index,
    {
        self.queue.insert(index, item);
    }

    /// Sequence number of the newest (back) item.
    pub fn newest_seq_num(&self) -> (r: Option<u64>)
        requires
            all_sequenced(self.queue@),
        ensures
            r == if self.queue@.len() == 0 { None } else { Some(self.queue@[self.queue@.len() - 1].seq_of()) },
    {
        let n = self.queue.len();
        if n == 0 {
            None
        } else {
            Some(self.queue[n - 1].sequence_number())
        }
    }

    /// Sequence number of the oldest (front) item.
    pub fn oldest_seq_num(&self) -> (r: Option<u64>)
        requires
            all_sequenced(self.queue@),
        ensures
            r == if self.queue@.len() == 0 { None } else { Some(self.queue@[0].seq_of()) },
    {
        if self.queue.len() == 0 {
            None
        } else {
            Some(self.queue[0].sequence_number())
        }
    }

    pub fn is_seq_sufficiently_far_away(&self, a: u64, b: u64) -> (r: bool)
        ensures
            r == far_apart(a, b),
    {
        is_seq_sufficiently_far_away(a, b)
    }

    /// Whether inserting `sequence` puts a queue that has not wrapped yet into a wrapped state.
    pub fn will_seq_cause_a_wrap(&self, buffer_wrap_index: Option<usize>, sequence: u64, oldest_seq_num: u64, newest_seq_num: u64) -> (r: bool)
        ensures
            r == causes_wrap(buffer_wrap_index, sequence, oldest_seq_num, newest_seq_num),
    {
        if buffer_wrap_index.is_none() {
            self.is_seq_sufficiently_far_away(sequence, oldest_seq_num)
                && self.is_seq_sufficiently_far_away(sequence, newest_seq_num)
        } else {
            false
        }
    }

    /// Empties the queue and forgets any wrap.
    pub fn clear(&mut self)
        ensures
            final(self).queue@.len() == 0,
            final(self).attempts@.len() == 0,
            final(self).buffer_wrap_index is None,
            final(self).wf(),
    {
        self.queue.clear();
        self.attempts.clear();
        self.buffer_wrap_index = None;
    }

    /// Binary search for `sequence` among `queue[lo..hi]`.
    fn search(&self, lo: usize, hi: usize, sequence: u64) -> (r: Result<usize, usize>)
        requires
            lo <= hi <= self.queue@.len(),
            all_sequenced(self.queue@),
        ensures
            match r {
                Ok(i) => lo <= i < hi && self.queue@[i as int].seq_of() == sequence,
                Err(i) => {
                    &&& lo <= i <= hi
                    &&& sorted_range(self.queue@, lo as int, hi as int) ==> {
                        &&& forall|j: int| lo <= j < i ==> #[trigger] self.queue@[j].seq_of() < sequence
                        &&& forall|j: int| i <= j < hi ==> #[trigger] self.queue@[j].seq_of() > sequence
                    }
                },
            },
    {
        let mut left = lo;
        let mut right = hi;
        while left < right
            invariant
                lo <= left <= right <= hi <= self.queue@.len(),
                all_sequenced(self.queue@),
                sorted_range(self.queue@, lo as int, hi as int) ==> {
                    &&& forall|j: int| lo <= j < left ==> #[trigger] self.queue@[j].seq_of() < sequence
                    &&& forall|j: int| right <= j < hi ==> #[trigger] self.queue@[j].seq_of() > sequence
                },
            decreases right - left,
        {
            let mid = left + (right - left) / 2;
            let s = self.queue[mid].sequence_number();
            if s == sequence {
                return Ok(mid);
            } else if s < sequence {
                left = mid + 1;
            } else {
                right = mid;
            }
        }
        Err(left)
    }

    /// Insertion point for `item` in a queue that has not wrapped; `None` when an item with the
    /// same sequence number is present.
    fn find_rx_insertion_index(&self, item: &T) -> (r: Option<usize>)
        requires
            all_sequenced(self.queue@),
            item.has_sequence(),
        ensures
            match r {
                Some(i) => {
                    &&& i <= self.queue@.len()
                    &&& sorted_range(self.queue@, 0, self.queue@.len() as int) ==> {
                        &&& forall|j: int| 0 <= j < i ==> #[trigger] self.queue@[j].seq_of() < item.seq_of()
                        &&& forall|j: int| i <= j < self.queue@.len() ==> #[trigger] self.queue@[j].seq_of() > item.seq_of()
                    }
                },
                None => contains_seq(self.queue@, item.seq_of()),
            },
    {
        let sequence = item.sequence_number();
        match self.search(0, self.queue.len(), sequence) {
            Ok(i) => {
                assert(self.queue@[i as int].seq_of() == sequence);
                None
            },
            Err(i) => Some(i),
        }
    }

    /// Insertion point for `item` among the `end` items starting at index `start`.
    fn find_rx_insertion_index_in_subset(&self, start: usize, end: usize, item: &T) -> (r: Option<usize>)
        requires
            all_sequenced(self.queue@),
            item.has_sequence(),
        ensures
            match r {
                Some(i) => {
                    let hi = if start as int + end as int > self.queue@.len() { self.queue@.len() as int } else { start as int + end as int };
                    &&& if start > self.queue@.len() { i == start } else {
                        &&& start <= i <= hi
                        &&& sorted_range(self.queue@, start as int, hi) ==> {
                            &&& forall|j: int| start <= j < i ==> #[trigger] self.queue@[j].seq_of() < item.seq_of()
                            &&& forall|j: int| i <= j < hi ==> #[trigger] self.queue@[j].seq_of() > item.seq_of()
                        }
                    }
                },
                None => contains_seq(self.queue@, item.seq_of()),
            },
    {
        let n = self.queue.len();
        if start > n {
            return Some(start);
        }
        let hi = if end >= n - start { n } else { start + end };
        let sequence = item.sequence_number();
        match self.search(start, hi, sequence) {
            Ok(i) => {
                assert(self.queue@[i as int].seq_of() == sequence);
                None
            },
            Err(i) => Some(i),
        }
    }

    /// Inserts `item` at `index` with a fresh attempt record; with no index, reports that the
    /// item is already present and leaves the queue alone.
    fn insert_into_rx_queue(&mut self, index: Option<usize>, item: T) -> (exists: bool)
        requires
            index matches Some(i) ==> i <= old(self).queue@.len(),
        ensures
            exists == index is None,
            final(self).buffer_wrap_index == old(self).buffer_wrap_index,
            match index {
                Some(i) => {
                    &&& final(self).queue@ == old(self).queue@.insert(i as int, item)
                    &&& final(self).attempts@.len() == old(self).attempts@.len() + 1
                    &&& final(self).attempts@.drop_last() == old(self).attempts@
                },
                None => final(self).queue@ == old(self).queue@ && final(self).attempts@ == old(self).attempts@,
            },
    {
        if let Some(insertion_index) = index {
            self.queue.insert(insertion_index, item);
            self.attempts.push_back(NetAttempt::new());
            false
        } else {
            true
        }
    }

    /// Buffers `item` so that the queue stays in sequence-number order, handling a numerical wrap
    /// of the sequence numbers (`buffer_wrap_index` marks where it occurs). Returns whether an
    /// item with the same sequence number was already present, in which case the queue is left
    /// as it was. On an ordered queue the item goes to its sorted place on its side of the wrap
    /// (`placed_at`) and the wrap index becomes `wrap_after`.
    #[verifier::rlimit(60)]
    pub fn buffer_item(&mut self, item: T) -> (packet_exists: bool)
        requires
            all_sequenced(old(self).queue@),
            item.has_sequence(),
            !buffer_item_aborts(old(self).queue@, old(self).buffer_wrap_index, item.seq_of()),
            old(self).buffer_wrap_index matches Some(k) ==> k < usize::MAX,
        ensures
            all_sequenced(final(self).queue@),
            packet_exists ==> {
                &&& final(self).queue@ == old(self).queue@
                &&& final(self).attempts@ == old(self).attempts@
                &&& (final(self).buffer_wrap_index == old(self).buffer_wrap_index
                    || (old(self).buffer_wrap_index matches Some(k) && final(self).buffer_wrap_index == Some((k + 1) as usize)))
            },
            !packet_exists ==> {
                &&& exists|i: int| 0 <= i <= old(self).queue@.len() && final(self).queue@ == old(self).queue@.insert(i, item)
                &&& final(self).attempts@.len() == old(self).attempts@.len() + 1
                &&& final(self).attempts@.drop_last() == old(self).attempts@
            },
            old(self).wf() ==> {
                &&& packet_exists == contains_seq(old(self).queue@, item.seq_of())
                &&& final(self).buffer_wrap_index == wrap_after(old(self).queue@, old(self).buffer_wrap_index, item.seq_of())
                &&& !packet_exists ==> exists|i: int| {
                    &&& placed_at(old(self).queue@, old(self).buffer_wrap_index, item.seq_of(), i)
                    &&& final(self).queue@ == old(self).queue@.insert(i, item)
                }
            },
            old(self).wf() && !duplicate_before_wrap(old(self).queue@, old(self).buffer_wrap_index, item.seq_of())
                ==> final(self).wf(),
    {
        let ghost q0 = self.queue@;
        let ghost w0 = self.buffer_wrap_index;
        let ghost wf0 = self.wf();
        let ghost x = item;
        let sequence = item.sequence_number();

        // Empty queue
        let opt_head_seq_num = self.newest_seq_num();
        if opt_head_seq_num.is_none() {
            self.queue.push_back(item);
            self.attempts.push_back(NetAttempt::new());
            proof {
                assert(self.queue@ == q0.insert(0, x));
                assert(all_sequenced(self.queue@));
                if wf0 {
                    lemma_insert_unwrapped(q0, 0, x);
                    assert(placed_at(q0, w0, sequence, 0));
                }
            }
            return false;
        }
        let opt_tail_seq_num = self.oldest_seq_num();
        let newest_seq_num = opt_head_seq_num.unwrap();
        let oldest_seq_num = opt_tail_seq_num.unwrap();
        let n = self.queue.len();
        proof {
            if wf0 {
                lemma_ordered_bounds(q0, w0);
            }
        }

        if sequence < oldest_seq_num {
            if newest_seq_num == u64::MAX {
                if self.will_seq_cause_a_wrap(self.buffer_wrap_index, sequence, oldest_seq_num, newest_seq_num) {
                    self.queue.push_back(item);
                    self.attempts.push_back(NetAttempt::new());
                    self.buffer_wrap_index = Some(self.queue.len() - 1);
                    proof {
                        assert(self.queue@ == q0.insert(n as int, x));
                        assert(all_sequenced(self.queue@));
                        if wf0 {
                            lemma_start_wrap_at_back(q0, n, x);
                            assert(placed_at(q0, w0, sequence, n as int));
                        }
                    }
                    false
                } else {
                    self.queue.push_front(item);
                    self.attempts.push_back(NetAttempt::new());
                    proof {
                        assert(self.queue@ == q0.insert(0, x));
                        assert(all_sequenced(self.queue@));
                        if wf0 {
                            if w0 is Some {
                                // A wrapped ordered queue never ends in u64::MAX.
                                assert(false);
                            }
                            lemma_insert_unwrapped(q0, 0, x);
                            assert(placed_at(q0, w0, sequence, 0));
                        }
                    }
                    false
                }
            } else if sequence > newest_seq_num && self.buffer_wrap_index.is_some() {
                let buffer_wrap_index = self.buffer_wrap_index.unwrap();
                if self.is_seq_sufficiently_far_away(sequence, newest_seq_num) {
                    // An older number that arrived late: it belongs before the wrap.
                    let insertion_index = self.find_rx_insertion_index_in_subset(0, buffer_wrap_index, &item);
                    self.buffer_wrap_index = Some(buffer_wrap_index + 1);
                    let packet_exists = self.insert_into_rx_queue(insertion_index, item);
                    proof {
                        assert(all_sequenced(self.queue@));
                        if wf0 {
                            match insertion_index {
                                Some(i) => {
                                    lemma_insert_before_wrap(q0, buffer_wrap_index, i as int, x);
                                    assert(placed_at(q0, w0, sequence, i as int));
                                },
                                None => {
                                    let j = choose|j: int| 0 <= j < q0.len() && #[trigger] q0[j].seq_of() == sequence;
                                    assert(false);
                                },
                            }
                        }
                    }
                    packet_exists
                } else {
                    // The newest number so far: it goes to the back.
                    self.queue.push_back(item);
                    self.attempts.push_back(NetAttempt::new());
                    proof {
                        assert(self.queue@ == q0.insert(n as int, x));
                        assert(all_sequenced(self.queue@));
                        if wf0 {
                            lemma_insert_after_wrap(q0, buffer_wrap_index, n as int, x);
                            assert(placed_at(q0, w0, sequence, n as int));
                        }
                    }
                    false
                }
            } else if sequence < newest_seq_num {
                // Older than everything, unless it is far enough away to start a wrap.
                let insertion_index: Option<usize>;
                if self.will_seq_cause_a_wrap(self.buffer_wrap_index, sequence, oldest_seq_num, newest_seq_num) {
                    insertion_index = Some(self.queue.len());
                    self.buffer_wrap_index = insertion_index;
                    proof {
                        if wf0 {
                            lemma_start_wrap_at_back(q0, n, x);
                            assert(placed_at(q0, w0, sequence, n as int));
                        }
                    }
                } else if let Some(buffer_wrap_index) = self.buffer_wrap_index {
                    insertion_index = self.find_rx_insertion_index_in_subset(buffer_wrap_index, self.queue.len(), &item);
                    proof {
                        if wf0 && insertion_index is Some {
                            lemma_insert_after_wrap(q0, buffer_wrap_index, insertion_index.unwrap() as int, x);
                            assert(placed_at(q0, w0, sequence, insertion_index.unwrap() as int));
                        }
                    }
                } else {
                    insertion_index = self.find_rx_insertion_index(&item);
                    proof {
                        if wf0 && insertion_index is Some {
                            lemma_insert_unwrapped(q0, insertion_index.unwrap() as int, x);
                            assert(placed_at(q0, w0, sequence, insertion_index.unwrap() as int));
                        }
                    }
                }
                let packet_exists = self.insert_into_rx_queue(insertion_index, item);
                proof {
                    assert(all_sequenced(self.queue@));
                }
                packet_exists
            } else {
                // The requirement leaves only the newest number itself: already present.
                proof {
                    assert(sequence == newest_seq_num);
                    assert(q0[n - 1].seq_of() == sequence);
                }
                true
            }
        } else {
            // Sequence >= oldest_seq_num
            let insertion_index: Option<usize>;
            if sequence < newest_seq_num {
                insertion_index = self.find_rx_insertion_index(&item);
                proof {
                    if wf0 {
                        if w0 is Some {
                            assert(false);
                        }
                        if insertion_index is Some {
                            lemma_insert_unwrapped(q0, insertion_index.unwrap() as int, x);
                            assert(placed_at(q0, w0, sequence, insertion_index.unwrap() as int));
                        }
                    }
                }
            } else {
                if let Some(buffer_wrap_index) = self.buffer_wrap_index {
                    insertion_index = self.find_rx_insertion_index_in_subset(0, buffer_wrap_index, &item);
                    self.buffer_wrap_index = Some(buffer_wrap_index + 1);
                    proof {
                        if wf0 && insertion_index is Some {
                            lemma_insert_before_wrap(q0, buffer_wrap_index, insertion_index.unwrap() as int, x);
                            assert(placed_at(q0, w0, sequence, insertion_index.unwrap() as int));
                        }
                    }
                } else {
                    if self.will_seq_cause_a_wrap(self.buffer_wrap_index, sequence, oldest_seq_num, newest_seq_num) {
                        // Far from both ends and not wrapped yet: it arrived late, so it goes to the front.
                        insertion_index = Some(0);
                        self.buffer_wrap_index = Some(1);
                        proof {
                            if wf0 {
                                lemma_start_wrap_at_front(q0, x);
                                assert(placed_at(q0, w0, sequence, 0));
                            }
                        }
                    } else {
                        insertion_index = self.find_rx_insertion_index(&item);
                        proof {
                            if wf0 && insertion_index is Some {
                                lemma_insert_unwrapped(q0, insertion_index.unwrap() as int, x);
                                assert(placed_at(q0, w0, sequence, insertion_index.unwrap() as int));
                            }
                        }
                    }
                }
            }
            let packet_exists = self.insert_into_rx_queue(insertion_index, item);
            proof {
                assert(all_sequenced(self.queue@));
            }
            packet_exists
        }
    }

    /// Removes the item numbered like `pkt` (located by binary search), together with its
    /// attempt record. The wrap index is left as it is.
    pub fn remove(&mut self, pkt: &T) -> (r: Option<T>)
        requires
            all_sequenced(old(self).queue@),
            pkt.has_sequence(),
        ensures
            final(self).buffer_wrap_index == old(self).buffer_wrap_index,
            match r {
                Some(x) => exists|i: int| {
                    &&& 0 <= i < old(self).queue@.len()
                    &&& #[trigger] old(self).queue@[i].seq_of() == pkt.seq_of()
                    &&& x == old(self).queue@[i]
                    &&& final(self).queue@ == old(self).queue@.remove(i)
                    &&& final(self).attempts@ == if i < old(self).attempts@.len() { old(self).attempts@.remove(i) } else { old(self).attempts@ }
                },
                None => {
                    &&& final(self).queue@ == old(self).queue@
                    &&& final(self).attempts@ == old(self).attempts@
                    &&& sorted_range(old(self).queue@, 0, old(self).queue@.len() as int) ==> !contains_seq(old(self).queue@, pkt.seq_of())
                },
            },
    {
        let sequence = pkt.sequence_number();
        match self.search(0, self.queue.len(), sequence) {
            Err(_) => {
                proof {
                    if sorted_range(self.queue@, 0, self.queue@.len() as int) && contains_seq(self.queue@, sequence) {
                        let j = choose|j: int| 0 <= j < self.queue@.len() && #[trigger] self.queue@[j].seq_of() == sequence;
                    }
                }
                None
            },
            Ok(index) => {
                let removed = self.queue.remove(index);
                let _ = self.attempts.remove(index);
                match removed {
                    Some(x) => Some(x),
                    None => None,
                }
            },
        }
    }

    /// Trims the queue from the front down to `NETWORK_QUEUE_LENGTH` items.
    pub fn discard_older_items(&mut self)
        ensures
            final(self).queue@ == if old(self).queue@.len() >= NETWORK_QUEUE_LENGTH {
                old(self).queue@.skip(old(self).queue@.len() - NETWORK_QUEUE_LENGTH)
            } else {
                old(self).queue@
            },
            final(self).attempts@ == old(self).attempts@,
            final(self).buffer_wrap_index == old(self).buffer_wrap_index,
    {
        let queue_size = self.queue.len();
        if queue_size >= NETWORK_QUEUE_LENGTH {
            let to_drop = queue_size - NETWORK_QUEUE_LENGTH;
            let ghost q0 = self.queue@;
            let mut dropped: usize = 0;
            while dropped < to_drop
                invariant
                    dropped <= to_drop,
                    to_drop == q0.len() - NETWORK_QUEUE_LENGTH,
                    self.queue@ == q0.skip(dropped as int),
                    self.attempts@ == old(self).attempts@,
                    self.buffer_wrap_index == old(self).buffer_wrap_index,
                    q0 == old(self).queue@,
                decreases to_drop - dropped,
            {
                let _ = self.queue.pop_front();
                dropped = dropped + 1;
            }
        }
    }

    /// Whether buffering an item numbered `sequence` would fail (see `buffer_item_aborts`).
    pub fn buffer_would_abort(&self, sequence: u64) -> (r: bool)
        requires
            all_sequenced(self.queue@),
        ensures
            r == buffer_item_aborts(self.queue@, self.buffer_wrap_index, sequence),
    {
        let n = self.queue.len();
        if n == 0 {
            return false;
        }
        let oldest = self.queue[0].sequence_number();
        let newest = self.queue[n - 1].sequence_number();
        if !(sequence < oldest) || newest == u64::MAX {
            return false;
        }
        if sequence > newest && self.buffer_wrap_index.is_some() {
            return false;
        }
        if sequence < newest {
            match self.buffer_wrap_index {
                Some(k) => k > n,
                None => false,
            }
        } else {
            sequence > newest
        }
    }

    /// Number of items at the front of the queue numbered `seq_num`, `seq_num + 1`, ... with no
    /// gap. Since items can arrive out of order, the queue may hold further items after a gap.
    pub fn get_contiguous_packets_count(&self, seq_num: u64) -> (count: usize)
        requires
            all_sequenced(self.queue@),
            forall|j: int| 0 <= j < self.queue@.len() && contiguous_from(self.queue@, seq_num, j)
                && #[trigger] self.queue@[j].seq_of() == seq_num + j ==> self.queue@[j].seq_of() < u64::MAX,
        ensures
            count <= self.queue@.len(),
            contiguous_from(self.queue@, seq_num, count as int),
            count < self.queue@.len() ==> self.queue@[count as int].seq_of() != seq_num + count,
    {
        let mut count: usize = 0;
        let mut next: u64 = seq_num;
        while count < self.queue.len()
            invariant
                count <= self.queue@.len(),
                all_sequenced(self.queue@),
                next == seq_num + count,
                contiguous_from(self.queue@, seq_num, count as int),
                forall|j: int| 0 <= j < self.queue@.len() && contiguous_from(self.queue@, seq_num, j)
                    && #[trigger] self.queue@[j].seq_of() == seq_num + j ==> self.queue@[j].seq_of() < u64::MAX,
            decreases self.queue@.len() - count,
        {
            if self.queue[count].sequence_number() != next {
                return count;
            }
            assert(contiguous_from(self.queue@, seq_num, count + 1));
            next = next + 1;
            count = count + 1;
        }
        count
    }
}

} // verus!

verus! {

/// A queued packet is due for retransmission when it has waited at least
/// `RETRANSMISSION_THRESHOLD_IN_MS` or has been retried at least `RETRY_THRESHOLD` times.
pub open spec fn due_for_retransmit(attempt: NetAttempt, elapsed_ms: u128) -> bool {
    elapsed_ms >= RETRANSMISSION_THRESHOLD_IN_MS
        || attempt.retries >= RETRY_THRESHOLD
        || attempt.retries >= RETRY_AGGRESSIVE_THRESHOLD
}

/// `r` lists, in increasing order, the first (at most `RETRANSMISSION_COUNT`) indices `i` below
/// `n` for which `due(i)` holds.
pub open spec fn first_due_indices(r: Seq<usize>, n: int, due: spec_fn(int) -> bool) -> bool {
    &&& r.len() <= RETRANSMISSION_COUNT
    &&& forall|k: int| 0 <= k < r.len() ==> #[trigger] r[k] < n && due(r[k] as int)
    &&& forall|k1: int, k2: int| 0 <= k1 < k2 < r.len() ==> #[trigger] r[k1] < #[trigger] r[k2]
    &&& forall|i: int| 0 <= i < n && #[trigger] due(i) ==> r.contains(i as usize)
        || (r.len() == RETRANSMISSION_COUNT && i > r[r.len() - 1])
}

/// The whole milliseconds from each attempt's time to the matching clock reading of `nows`.
pub open spec fn millis_since_attempts(nows: Seq<std::time::Instant>, attempts: Seq<NetAttempt>) -> Seq<u128> {
    Seq::new(attempts.len(), |i: int| (nanos_between(nows[i], attempts[i].time) / 1_000_000) as u128)
}

/// `r` is what `retransmit_indices_from_elapsed` selects from `attempts` given these elapsed times.
pub open spec fn retransmit_selection(attempts: Seq<NetAttempt>, elapsed: Seq<u128>, r: Seq<usize>) -> bool {
    &&& elapsed.len() == attempts.len()
    &&& first_due_indices(r, attempts.len() as int, |i: int| due_for_retransmit(attempts[i], elapsed[i]))
}

impl NetQueue<Packet> {
    /// Indices of the attempts due for retransmission, given the milliseconds elapsed since each
    /// attempt: the first `RETRANSMISSION_COUNT` of them, in increasing order.
    pub fn retransmit_indices_from_elapsed(&self, elapsed_ms: &Vec<u128>) -> (r: Vec<usize>)
        requires
            elapsed_ms@.len() == self.attempts@.len(),
        ensures
            first_due_indices(r@, self.attempts@.len() as int,
                |i: int| due_for_retransmit(self.attempts@[i], elapsed_ms@[i])),
    {
        let ghost due = |i: int| due_for_retransmit(self.attempts@[i], elapsed_ms@[i]);
        let n = self.attempts.len();
        let mut r: Vec<usize> = Vec::new();
        let mut i: usize = 0;
        while i < n && r.len() < RETRANSMISSION_COUNT
            invariant
                i <= n,
                n == self.attempts@.len(),
                elapsed_ms@.len() == n,
                r@.len() <= RETRANSMISSION_COUNT,
                due == (|i: int| due_for_retransmit(self.attempts@[i], elapsed_ms@[i])),
                forall|k: int| 0 <= k < r@.len() ==> #[trigger] r@[k] < i && due(r@[k] as int),
                forall|k1: int, k2: int| 0 <= k1 < k2 < r@.len() ==> #[trigger] r@[k1] < #[trigger] r@[k2],
                forall|j: int| 0 <= j < i && #[trigger] due(j) ==> r@.contains(j as usize),
            decreases n - i,
        {
            let a = &self.attempts[i];
            if elapsed_ms[i] >= RETRANSMISSION_THRESHOLD_IN_MS || a.retries >= RETRY_THRESHOLD
                || a.retries >= RETRY_AGGRESSIVE_THRESHOLD {
                let ghost before = r@;
                r.push(i);
                proof {
                    assert(r@[r@.len() - 1] == i);
                    assert forall|j: int| 0 <= j < i + 1 && #[trigger] due(j) implies r@.contains(j as usize) by {
                        if j < i {
                            let k = choose|k: int| 0 <= k < before.len() && before[k] == j as usize;
                            assert(r@[k] == j as usize);
                        } else {
                            assert(r@[r@.len() - 1] == j as usize);
                        }
                    }
                }
            }
            i = i + 1;
        }
        proof {
            assert forall|j: int| 0 <= j < n && #[trigger] due(j) implies r@.contains(j as usize)
                || (r@.len() == RETRANSMISSION_COUNT && j > r@[r@.len() - 1]) by {
                if j >= i {
                    assert(r@.len() == RETRANSMISSION_COUNT);
                    assert(r@[r@.len() - 1] < i);
                }
            }
        }
        r
    }

    /// Indices of the queued packets due for retransmission (see `due_for_retransmit`), reading
    /// the clock once per attempt: at most `RETRANSMISSION_COUNT` of them, in increasing order,
    /// and every attempt retried at least `RETRY_THRESHOLD` times is among them unless the limit
    /// was reached before it. The time an attempt has waited is measured from its `time` to that
    /// attempt's reading of the clock.
    pub fn get_retransmit_indices(&self) -> (r: Vec<usize>)
        ensures
            exists|nows: Seq<std::time::Instant>| nows.len() == self.attempts@.len()
                && #[trigger] retransmit_selection(self.attempts@, millis_since_attempts(nows, self.attempts@), r@),
            exists|elapsed: Seq<u128>| #[trigger] retransmit_selection(self.attempts@, elapsed, r@),
    {
        let n = self.attempts.len();
        let mut elapsed: Vec<u128> = Vec::new();
        let ghost mut nows: Seq<std::time::Instant> = Seq::empty();
        let mut i: usize = 0;
        while i < n
            invariant
                i <= n,
                n == self.attempts@.len(),
                elapsed@.len() == i,
                nows.len() == i,
                forall|j: int| 0 <= j < i ==> #[trigger] elapsed@[j]
                    == (nanos_between(nows[j], self.attempts@[j].time) / 1_000_000) as u128,
            decreases n - i,
        {
            let now = instant_now();
            let ns = gap_nanos(&now, &self.attempts[i].time);
            elapsed.push(ns / 1_000_000);
            proof {
                nows = nows.push(now);
            }
            i = i + 1;
        }
        let r = self.retransmit_indices_from_elapsed(&elapsed);
        proof {
            assert(elapsed@ =~= millis_since_attempts(nows, self.attempts@));
            assert(retransmit_selection(self.attempts@, elapsed@, r@));
        }
        r
    }
}

/// The operations every reordering queue offers.
pub trait NetworkQueue<T: Sequenced> {
    /// The queued items, front (oldest) first.
    spec fn items(&self) -> Seq<T>;

    fn new() -> (r: Self)
        where Self: Sized
        ensures
            r.items().len() == 0,
    ;

    fn len(&self) -> (r: usize)
        ensures
            r == self.items().len(),
    ;

    fn clear(&mut self)
        ensures
            final(self).items().len() == 0,
    ;

    fn discard_older_items(&mut self)
        ensures
            final(self).items() == if old(self).items().len() >= NETWORK_QUEUE_LENGTH {
                old(self).items().skip(old(self).items().len() - NETWORK_QUEUE_LENGTH)
            } else {
                old(self).items()
            },
    ;
}

impl<T: Sequenced> NetworkQueue<T> for NetQueue<T> {
    open spec fn items(&self) -> Seq<T> {
        self.queue@
    }

    fn new() -> (r: Self) {
        NetQueue::<T>::new()
    }

    fn len(&self) -> (r: usize) {
        NetQueue::<T>::len(self)
    }

    fn clear(&mut self) {
        NetQueue::<T>::clear(self)
    }

    fn discard_older_items(&mut self) {
        NetQueue::<T>::discard_older_items(self)
    }
}

} // verus!
