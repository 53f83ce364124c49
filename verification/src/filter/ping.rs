//! Latency measurement of the filter layer: a nonce sent out and echoed back, and a
//! moving-average filter over the measured round trips.
use vstd::prelude::*;
use std::collections::{HashMap, VecDeque};
use std::time::{Duration, Instant};
use crate::time::{checked_sub_millis, duration_from_millis, gap_nanos, instant_now, instant_minus_millis, millis_to_duration, nanos_between};

verus! {

broadcast use vstd::std_specs::hash::group_hash_axioms;

/// Number of samples needed by the latency filter to compute a meaningful average.
pub const LATENCY_FILTER_DEPTH: usize = 4;

/// Identifiers of older pings are forgotten beyond this many.
pub const MAX_INFLIGHT_PINGS: usize = 20;

/// Round-trip measurement token: the receiver echoes the nonce back.
#[derive(Clone, Copy, PartialEq, Eq, Debug, Hash, Structural)]
pub struct PingPong {
    pub nonce: u64,
}

/// Calls `rand::random::<u64>()`. Nothing is claimed about the result: it is random.
#[verifier::external_body]
pub(crate) fn random_nonce() -> (n: u64) {
    rand::random::<u64>()
}

impl PingPong {
    /// A ping with a fresh random nonce.
    pub fn ping() -> PingPong {
        PingPong { nonce: random_nonce() }
    }

    /// The reply to a ping carrying `nonce`.
    pub fn pong(nonce: u64) -> (r: PingPong)
        ensures
            r.nonce == nonce,
    {
        PingPong { nonce }
    }
}

/// Identifier of an in-flight ping. Distinct identifiers in use have distinct keys.
pub trait PingId {
    spec fn key(&self) -> u64;

    fn to_key(&self) -> (k: u64)
        ensures
            k == self.key(),
    ;
}

impl PingId for u64 {
    open spec fn key(&self) -> u64 {
        *self
    }

    fn to_key(&self) -> (k: u64) {
        *self
    }
}

impl PingId for usize {
    open spec fn key(&self) -> u64 {
        *self as u64
    }

    fn to_key(&self) -> (k: u64) {
        *self as u64
    }
}

impl PingId for PingPong {
    open spec fn key(&self) -> u64 {
        self.nonce
    }

    fn to_key(&self) -> (k: u64) {
        self.nonce
    }
}

/// What the reply to the ping with key `key` makes of the latency filter `before`: the round
/// trip from the ping's start to an instant read then (see `round_trip_millis`) is sampled;
/// nothing changes when no start is remembered for the ping, or when the round trip is too
/// long to add to the running sum.
pub open spec fn pong_taken<N: PingId>(before: LatencyFilter<N>, after: LatencyFilter<N>, key: u64) -> bool {
    &&& !before.starts().contains_key(key) ==> after == before
    &&& before.starts().contains_key(key) ==> exists|now: Instant|
        #![trigger round_trip_millis(now, before.starts()[key])]
        if sample_sum(before.samples()) + round_trip_millis(now, before.starts()[key]) <= u64::MAX {
            latency_sampled(before, after, round_trip_millis(now, before.starts()[key]))
        } else {
            after == before
        }
}

/// Sum of a sequence of latencies.
pub open spec fn sample_sum(s: Seq<u64>) -> int
    decreases s.len(),
{
    if s.len() == 0 {
        0
    } else {
        sample_sum(s.drop_last()) + s.last()
    }
}

proof fn lemma_sample_sum_nonneg(s: Seq<u64>)
    ensures
        sample_sum(s) >= 0,
    decreases s.len(),
{
    if s.len() > 0 {
        lemma_sample_sum_nonneg(s.drop_last());
    }
}

proof fn lemma_sample_sum_drop_first(s: Seq<u64>)
    requires
        s.len() > 0,
    ensures
        sample_sum(s) == s[0] + sample_sum(s.drop_first()),
    decreases s.len(),
{
    if s.len() > 1 {
        lemma_sample_sum_drop_first(s.drop_last());
        assert(s.drop_last().drop_first() =~= s.drop_first().drop_last());
    } else {
        assert(s.drop_first() =~= Seq::<u64>::empty());
        assert(s.drop_last() =~= Seq::<u64>::empty());
    }
}

/// A moving-average filter over latencies computed from request/response times. `N` is the
/// type of the identifiers of concurrent in-flight pings.
#[derive(Debug, Clone)]
pub struct LatencyFilter<N> {
    average_latency_ms: Option<u64>,
    running_sum: u64,
    history: VecDeque<u64>,
    start_timestamps: HashMap<u64, Instant>,
    recent_pings: VecDeque<u64>,
    id_type: Option<N>,
}

impl<N: PingId> LatencyFilter<N> {
    /// The latency reported: half the average round trip, once `LATENCY_FILTER_DEPTH` samples
    /// were taken.
    pub closed spec fn average(&self) -> Option<u64> {
        self.average_latency_ms
    }

    /// The round trips currently averaged, oldest first.
    pub closed spec fn samples(&self) -> Seq<u64> {
        self.history@
    }

    /// Keys of the pings whose start is remembered, oldest first.
    pub closed spec fn in_flight(&self) -> Seq<u64> {
        self.recent_pings@
    }

    /// When each remembered ping was started.
    pub closed spec fn starts(&self) -> Map<u64, Instant> {
        self.start_timestamps@
    }

    /// The running sum is the sum of at most `LATENCY_FILTER_DEPTH` samples; the remembered
    /// starts are exactly those of the in-flight pings, of which there are at most
    /// `MAX_INFLIGHT_PINGS`, each once.
    pub closed spec fn wf(&self) -> bool {
        &&& self.history@.len() <= LATENCY_FILTER_DEPTH
        &&& self.running_sum == sample_sum(self.history@)
        &&& self.recent_pings@.len() <= MAX_INFLIGHT_PINGS
        &&& self.recent_pings@.no_duplicates()
        &&& forall|k: u64| #[trigger] self.start_timestamps@.contains_key(k) <==> self.recent_pings@.contains(k)
    }

    pub fn new() -> (r: LatencyFilter<N>)
        ensures
            r.wf(),
            r.average() is None,
            r.samples().len() == 0,
            r.in_flight().len() == 0,
    {
        LatencyFilter {
            average_latency_ms: None,
            running_sum: 0,
            history: VecDeque::with_capacity(LATENCY_FILTER_DEPTH),
            start_timestamps: HashMap::new(),
            recent_pings: VecDeque::new(),
            id_type: None,
        }
    }

    /// Call this when sending a ping identified by `id`: its start is now, and the oldest
    /// pings are forgotten beyond `MAX_INFLIGHT_PINGS`.
    pub fn start(&mut self, id: N)
        requires
            old(self).wf(),
        ensures
            final(self).wf(),
            final(self).in_flight() == pushed_ping(old(self).in_flight(), id.key()),
            final(self).in_flight().contains(id.key()),
            final(self).starts().contains_key(id.key()),
            forall|k: u64| k != id.key() && #[trigger] final(self).starts().contains_key(k)
                ==> final(self).starts()[k] == old(self).starts()[k],
            final(self).samples() == old(self).samples(),
            final(self).average() == old(self).average(),
    {
        let key = id.to_key();
        self.push_recent_pings(key);
        self.start_timestamps.insert(key, instant_now());
        proof {
            assert forall|k: u64| #[trigger] self.start_timestamps@.contains_key(k) <==> self.recent_pings@.contains(k) by {
                if k == key {
                    assert(self.recent_pings@.contains(key));
                }
            }
        }
    }

    /// Remembers `key` as in flight unless it already is; forgets the oldest beyond
    /// `MAX_INFLIGHT_PINGS`.
    fn push_recent_pings(&mut self, key: u64)
        requires
            old(self).wf(),
        ensures
            final(self).recent_pings@ == pushed_ping(old(self).recent_pings@, key),
            final(self).recent_pings@.contains(key),
            final(self).recent_pings@.len() <= MAX_INFLIGHT_PINGS,
            final(self).recent_pings@.no_duplicates(),
            forall|k: u64| k != key ==> (#[trigger] final(self).start_timestamps@.contains_key(k) <==> final(self).recent_pings@.contains(k)),
            forall|k: u64| #[trigger] final(self).start_timestamps@.contains_key(k) ==> final(self).start_timestamps@[k] == old(self).start_timestamps@[k],
            final(self).history == old(self).history,
            final(self).running_sum == old(self).running_sum,
            final(self).average_latency_ms == old(self).average_latency_ms,
    {
        if self.start_timestamps.contains_key(&key) {
            return;
        }
        let ghost r0 = self.recent_pings@;
        let ghost p = r0.push(key);
        self.recent_pings.push_back(key);
        proof {
            assert(self.recent_pings@ == p);
            assert(self.recent_pings@.no_duplicates()) by {
                assert forall|i: int, j: int| 0 <= i < j < self.recent_pings@.len() implies self.recent_pings@[i] != self.recent_pings@[j] by {
                    if j == r0.len() {
                        assert(r0.contains(r0[i]));
                    }
                }
            }
            assert forall|k: u64| k != key implies (#[trigger] self.start_timestamps@.contains_key(k) <==> self.recent_pings@.contains(k)) by {
                if r0.contains(k) {
                    let i = choose|i: int| 0 <= i < r0.len() && r0[i] == k;
                    assert(p[i] == k);
                }
                if p.contains(k) {
                    let i = choose|i: int| 0 <= i < p.len() && p[i] == k;
                    assert(i < r0.len());
                    assert(r0[i] == k);
                }
            }
            assert(self.recent_pings@ =~= p.subrange(p.len() - self.recent_pings@.len(), p.len() as int));
        }
        while self.recent_pings.len() > MAX_INFLIGHT_PINGS
            invariant
                p == r0.push(key),
                self.recent_pings@.len() <= MAX_INFLIGHT_PINGS + 1,
                self.recent_pings@.len() <= p.len(),
                self.recent_pings@.len() == p.len() || self.recent_pings@.len() >= MAX_INFLIGHT_PINGS,
                self.recent_pings@.no_duplicates(),
                self.recent_pings@ == p.subrange(p.len() - self.recent_pings@.len(), p.len() as int),
                forall|k: u64| k != key ==> (#[trigger] self.start_timestamps@.contains_key(k) <==> self.recent_pings@.contains(k)),
                forall|k: u64| #[trigger] self.start_timestamps@.contains_key(k) ==> old(self).start_timestamps@.contains_key(k)
                    && self.start_timestamps@[k] == old(self).start_timestamps@[k],
                self.history == old(self).history,
                self.running_sum == old(self).running_sum,
                self.average_latency_ms == old(self).average_latency_ms,
            decreases self.recent_pings@.len(),
        {
            let ghost r1 = self.recent_pings@;
            let oldest = self.recent_pings.pop_front().unwrap();
            self.start_timestamps.remove(&oldest);
            proof {
                assert(self.recent_pings@ == r1.drop_first());
                assert(r1[0] == oldest);
                assert forall|k: u64| k != key implies (#[trigger] self.start_timestamps@.contains_key(k) <==> self.recent_pings@.contains(k)) by {
                    if k == oldest {
                        assert(!self.recent_pings@.contains(k)) by {
                            if self.recent_pings@.contains(k) {
                                let i = choose|i: int| 0 <= i < self.recent_pings@.len() && self.recent_pings@[i] == k;
                                assert(r1[i + 1] == r1[0]);
                            }
                        }
                    } else {
                        if r1.contains(k) {
                            let i = choose|i: int| 0 <= i < r1.len() && r1[i] == k;
                            assert(i != 0);
                            assert(self.recent_pings@[i - 1] == k);
                        }
                        if self.recent_pings@.contains(k) {
                            let i = choose|i: int| 0 <= i < self.recent_pings@.len() && self.recent_pings@[i] == k;
                            assert(r1[i + 1] == k);
                        }
                    }
                }
                assert(self.recent_pings@ =~= p.subrange(p.len() - self.recent_pings@.len(), p.len() as int));
            }
        }
        proof {
            assert(!r0.contains(key));
            assert(self.recent_pings@ =~= pushed_ping(r0, key));
            assert(self.recent_pings@.contains(key)) by {
                assert(self.recent_pings@[self.recent_pings@.len() - 1] == key);
            }
        }
    }

    pub fn get_millis(&self) -> (r: Option<u64>)
        ensures
            r == self.average(),
    {
        self.average_latency_ms
    }

    pub fn get(&self) -> (r: Option<Duration>)
        ensures
            r == match self.average() {
                Some(ms) => Some(duration_from_millis(ms)),
                None => None,
            },
    {
        match self.get_millis() {
            Some(ms) => Some(millis_to_duration(ms)),
            None => None,
        }
    }

    /// Call this when the reply to the ping `id` arrives. The round trip from its start to an
    /// instant read now, in whole milliseconds (see `round_trip_millis`), is sampled; nothing
    /// changes when no start is remembered for `id`, or when the round trip is too long to add
    /// to the running sum.
    pub fn update(&mut self, id: N)
        requires
            old(self).wf(),
        ensures
            final(self).wf(),
            pong_taken(*old(self), *final(self), id.key()),
    {
        let key = id.to_key();
        let start = self.start_timestamps.get(&key);
        match start {
            None => {},
            Some(start) => {
                let now = instant_now();
                let latency_ms = (gap_nanos(&now, start) / 1_000_000) as u64;
                proof {
                    assert(latency_ms == round_trip_millis(now, old(self).starts()[id.key()]));
                }
                if latency_ms <= u64::MAX - self.running_sum {
                    self.update_with_latency(latency_ms);
                    assert(latency_sampled(*old(self), *self, latency_ms));
                }
            },
        }
    }

    /// Samples a round trip of `latency_ms` milliseconds: the oldest samples are dropped beyond
    /// `LATENCY_FILTER_DEPTH` and, once there are that many, the reported latency is half of
    /// their average (each division rounding down).
    pub fn update_with_latency(&mut self, latency_ms: u64)
        requires
            old(self).wf(),
            sample_sum(old(self).samples()) + latency_ms <= u64::MAX,
        ensures
            final(self).wf(),
            latency_sampled(*old(self), *final(self), latency_ms),
    {
        let ghost h0 = self.history@;
        let ghost p = h0.push(latency_ms);
        self.running_sum = self.running_sum + latency_ms;
        self.history.push_back(latency_ms);
        proof {
            assert(self.history@.drop_last() =~= h0);
            assert(self.history@ =~= p.subrange(p.len() - self.history@.len(), p.len() as int));
        }
        while self.history.len() > LATENCY_FILTER_DEPTH
            invariant
                p == h0.push(latency_ms),
                self.history@.len() <= LATENCY_FILTER_DEPTH + 1,
                self.history@.len() <= p.len(),
                self.history@.len() == p.len() || self.history@.len() >= LATENCY_FILTER_DEPTH,
                self.running_sum == sample_sum(self.history@),
                self.history@ == p.subrange(p.len() - self.history@.len(), p.len() as int),
                self.start_timestamps == old(self).start_timestamps,
                self.recent_pings == old(self).recent_pings,
                self.average_latency_ms == old(self).average_latency_ms,
            decreases self.history@.len(),
        {
            let ghost h1 = self.history@;
            let oldest = self.history.pop_front().unwrap();
            proof {
                lemma_sample_sum_drop_first(h1);
                lemma_sample_sum_nonneg(h1.drop_first());
                assert(self.history@ =~= h1.drop_first());
            }
            self.running_sum = self.running_sum - oldest;
            proof {
                assert(self.history@ =~= p.subrange(p.len() - self.history@.len(), p.len() as int));
            }
        }
        if self.history.len() == LATENCY_FILTER_DEPTH {
            let average_rtt_ms = self.running_sum / (LATENCY_FILTER_DEPTH as u64);
            self.average_latency_ms = Some(average_rtt_ms / 2);
        }
        proof {
            assert(self.history@ =~= last_samples(p));
        }
    }

    /// Moves the start of the ping `id`, if remembered, `ms_in_past` milliseconds before an
    /// instant read now (nothing changes if the clock cannot go back that far).
    pub fn set_start_time(&mut self, id: N, ms_in_past: u64)
        requires
            old(self).wf(),
        ensures
            final(self).wf(),
            final(self).in_flight() == old(self).in_flight(),
            final(self).starts().dom() == old(self).starts().dom(),
            final(self).samples() == old(self).samples(),
            final(self).average() == old(self).average(),
            exists|now: Instant| #![trigger instant_minus_millis(now, ms_in_past)]
                final(self).starts() == match instant_minus_millis(now, ms_in_past) {
                    Some(past) => if old(self).starts().contains_key(id.key()) {
                        old(self).starts().insert(id.key(), past)
                    } else {
                        old(self).starts()
                    },
                    None => old(self).starts(),
                },
    {
        let key = id.to_key();
        let now = instant_now();
        let opt_past_timestamp = checked_sub_millis(&now, ms_in_past);
        if let Some(past_timestamp) = opt_past_timestamp {
            if self.start_timestamps.contains_key(&key) {
                self.start_timestamps.insert(key, past_timestamp);
                proof {
                    assert(self.start_timestamps@.dom() =~= old(self).start_timestamps@.dom());
                }
            }
        }
    }
}

/// The in-flight keys once `key` is started: unchanged if it already is in flight, else
/// appended, keeping the newest `MAX_INFLIGHT_PINGS`.
pub open spec fn pushed_ping(recent: Seq<u64>, key: u64) -> Seq<u64> {
    if recent.contains(key) {
        recent
    } else {
        let pushed = recent.push(key);
        if pushed.len() > MAX_INFLIGHT_PINGS {
            pushed.subrange(pushed.len() - MAX_INFLIGHT_PINGS, pushed.len() as int)
        } else {
            pushed
        }
    }
}

/// The newest `LATENCY_FILTER_DEPTH` of `s`.
pub open spec fn last_samples(s: Seq<u64>) -> Seq<u64> {
    if s.len() > LATENCY_FILTER_DEPTH {
        s.subrange(s.len() - LATENCY_FILTER_DEPTH, s.len() as int)
    } else {
        s
    }
}

/// `after` is `before` once a round trip of `latency` milliseconds was sampled: the newest
/// `LATENCY_FILTER_DEPTH` samples are kept; with that many, the latency reported is half their
/// average, rounded down at each division; with fewer, it is unchanged. Pings in flight and
/// their starts are unchanged.
pub open spec fn latency_sampled<N: PingId>(before: LatencyFilter<N>, after: LatencyFilter<N>, latency: u64) -> bool {
    &&& after.samples() == last_samples(before.samples().push(latency))
    &&& after.average() == if after.samples().len() == LATENCY_FILTER_DEPTH {
        Some(((sample_sum(after.samples()) / (LATENCY_FILTER_DEPTH as int)) / 2) as u64)
    } else {
        before.average()
    }
    &&& after.in_flight() == before.in_flight()
    &&& after.starts() == before.starts()
}

/// The whole milliseconds from `start` to `now`, as a `u64` (keeping the low 64 bits).
pub open spec fn round_trip_millis(now: Instant, start: Instant) -> u64 {
    (nanos_between(now, start) / 1_000_000) as u64
}

/// Law: a well-formed latency filter remembers at most `MAX_INFLIGHT_PINGS` pings, each once,
/// and averages at most `LATENCY_FILTER_DEPTH` samples.
pub proof fn law_latency_filter_bounded<N: PingId>(f: LatencyFilter<N>)
    requires
        f.wf(),
    ensures
        f.in_flight().len() <= MAX_INFLIGHT_PINGS,
        f.in_flight().no_duplicates(),
        f.samples().len() <= LATENCY_FILTER_DEPTH,
        forall|k: u64| #[trigger] f.starts().contains_key(k) <==> f.in_flight().contains(k),
{
}

} // verus!
