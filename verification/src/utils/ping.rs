//! A moving-average filter over round-trip times measured by the client.
use vstd::prelude::*;
use std::collections::VecDeque;
use std::time::Instant;
use crate::time::{checked_sub_millis, gap_nanos, instant_now, nanos_between, MAX_DURATION_MILLIS};

verus! {

/// The whole milliseconds from `earlier` to `later` (zero when `earlier` is the later one).
pub open spec fn millis_between(later: Instant, earlier: Instant) -> u128 {
    (nanos_between(later, earlier) / 1_000_000) as u128
}

/// Number of samples averaged once the filter is populated.
pub const PING_FILTER_DEPTH: usize = 12;

/// Sum of a sequence of latencies.
pub open spec fn latency_sum(s: Seq<u128>) -> int
    decreases s.len(),
{
    if s.len() == 0 {
        0
    } else {
        latency_sum(s.drop_last()) + s.last()
    }
}

proof fn lemma_latency_sum_bound(s: Seq<u128>)
    requires
        forall|i: int| 0 <= i < s.len() ==> #[trigger] s[i] <= MAX_DURATION_MILLIS,
    ensures
        0 <= latency_sum(s) <= s.len() * MAX_DURATION_MILLIS,
    decreases s.len(),
{
    if s.len() > 0 {
        lemma_latency_sum_bound(s.drop_last());
    }
}

proof fn lemma_latency_sum_drop_first(s: Seq<u128>)
    requires
        s.len() > 0,
    ensures
        latency_sum(s) == s[0] + latency_sum(s.drop_first()),
    decreases s.len(),
{
    if s.len() > 1 {
        lemma_latency_sum_drop_first(s.drop_last());
        assert(s.drop_last().drop_first() =~= s.drop_first().drop_last());
    } else {
        assert(s.drop_first() =~= Seq::<u128>::empty());
        assert(s.drop_last() =~= Seq::<u128>::empty());
    }
}

/// Latency filter of the client: averages the last `PING_FILTER_DEPTH` round trips, each
/// measured from a call of `start` to the following call of `update`.
#[derive(Debug)]
pub struct PingFilter {
    pub average_latency_ms: u128,
    running_sum: u128,
    history: VecDeque<u128>,
    start_timestamp: Instant,
    in_progress: bool,
}

impl PingFilter {
    /// The latencies currently averaged, oldest first.
    pub closed spec fn samples(&self) -> Seq<u128> {
        self.history@
    }

    /// The latency currently reported.
    pub closed spec fn average(&self) -> u128 {
        self.average_latency_ms
    }

    /// Whether a measurement was started and not yet completed.
    pub closed spec fn measuring(&self) -> bool {
        self.in_progress
    }

    pub closed spec fn started_at(&self) -> Instant {
        self.start_timestamp
    }

    /// The running sum is the sum of the samples, of which there are at most
    /// `PING_FILTER_DEPTH`, each no longer than a duration can be.
    pub closed spec fn wf(&self) -> bool {
        &&& self.history@.len() <= PING_FILTER_DEPTH
        &&& self.running_sum == latency_sum(self.history@)
        &&& forall|i: int| 0 <= i < self.history@.len() ==> #[trigger] self.history@[i] <= MAX_DURATION_MILLIS
    }

    pub fn new() -> (r: PingFilter)
        ensures
            r.wf(),
            r.average() == 0,
            r.samples().len() == 0,
            !r.measuring(),
    {
        PingFilter {
            average_latency_ms: 0,
            running_sum: 0,
            history: VecDeque::with_capacity(PING_FILTER_DEPTH),
            start_timestamp: instant_now(),
            in_progress: false,
        }
    }

    /// Forgets every sample and any measurement in progress.
    pub fn reset(&mut self)
        ensures
            final(self).wf(),
            final(self).average() == 0,
            final(self).samples().len() == 0,
            !final(self).measuring(),
    {
        self.average_latency_ms = 0;
        self.running_sum = 0;
        self.history.clear();
        self.start_timestamp = instant_now();
        self.in_progress = false;
    }

    /// Starts a measurement now.
    pub fn start(&mut self)
        ensures
            final(self).measuring(),
            final(self).samples() == old(self).samples(),
            final(self).average() == old(self).average(),
            old(self).wf() ==> final(self).wf(),
    {
        self.start_timestamp = instant_now();
        self.in_progress = true;
    }

    /// The latency currently reported.
    pub fn average_latency(&self) -> (r: u128)
        ensures
            r == self.average(),
    {
        self.average_latency_ms
    }

    /// Whether a measurement was started and not yet completed.
    pub fn is_measuring(&self) -> (r: bool)
        ensures
            r == self.measuring(),
    {
        self.in_progress
    }

    /// Completes the measurement in progress with the time elapsed since it started: the whole
    /// milliseconds from the start to a reading of the clock taken now.
    pub fn update(&mut self)
        requires
            old(self).wf(),
            old(self).measuring(),
        ensures
            final(self).wf(),
            !final(self).measuring(),
            exists|now: Instant| #[trigger] sampled(*old(self), *final(self), millis_between(now, old(self).started_at())),
    {
        let now = instant_now();
        let ns = gap_nanos(&now, &self.start_timestamp);
        let latency_ms = ns / 1_000_000;
        assert(latency_ms <= MAX_DURATION_MILLIS);
        self.update_with_latency(latency_ms);
        assert(sampled(*old(self), *self, millis_between(now, old(self).started_at())));
    }

    /// Completes the measurement in progress with a round trip of `latency_ms` milliseconds:
    /// the sample is added and, once more than `PING_FILTER_DEPTH` were taken, the oldest is
    /// dropped and the average of the remaining ones (rounded down) becomes the latency.
    pub fn update_with_latency(&mut self, latency_ms: u128)
        requires
            old(self).wf(),
            old(self).measuring(),
            latency_ms <= MAX_DURATION_MILLIS,
        ensures
            final(self).wf(),
            sampled(*old(self), *final(self), latency_ms),
    {
        proof {
            lemma_latency_sum_bound(self.history@);
            assert(self.history@.len() * MAX_DURATION_MILLIS <= PING_FILTER_DEPTH * MAX_DURATION_MILLIS) by (nonlinear_arith)
                requires self.history@.len() <= PING_FILTER_DEPTH;
        }
        let ghost h0 = self.history@;
        self.running_sum = self.running_sum + latency_ms;
        self.history.push_back(latency_ms);
        proof {
            assert(self.history@.drop_last() =~= h0);
            assert(self.running_sum == latency_sum(self.history@));
        }
        if self.history.len() > PING_FILTER_DEPTH {
            let ghost h1 = self.history@;
            let oldest = self.history.pop_front().unwrap();
            proof {
                lemma_latency_sum_drop_first(h1);
                assert(self.history@ =~= h1.drop_first());
                assert(oldest == h1[0]);
                lemma_latency_sum_bound(h1.drop_first());
            }
            self.running_sum = self.running_sum - oldest;
            self.average_latency_ms = self.running_sum / (PING_FILTER_DEPTH as u128);
        }
        self.in_progress = false;
    }

    /// Marks a measurement as started `ms_in_past` milliseconds ago (from now, if the clock
    /// cannot go back that far).
    pub fn set_start_time(&mut self, ms_in_past: u64)
        ensures
            final(self).measuring(),
            final(self).samples() == old(self).samples(),
            final(self).average() == old(self).average(),
            old(self).wf() ==> final(self).wf(),
    {
        self.in_progress = true;
        let now = instant_now();
        let opt_past_timestamp = checked_sub_millis(&now, ms_in_past);
        if let Some(past_timestamp) = opt_past_timestamp {
            self.start_timestamp = past_timestamp;
        }
    }
}

/// `after` is `before` once a round trip of `latency` milliseconds was recorded: the sample is
/// appended, the oldest dropped when there are more than `PING_FILTER_DEPTH`, and then the
/// average is the floor of the mean of the samples; before that it is unchanged.
pub open spec fn sampled(before: PingFilter, after: PingFilter, latency: u128) -> bool {
    let pushed = before.samples().push(latency);
    &&& !after.measuring()
    &&& after.started_at() == before.started_at()
    &&& if pushed.len() > PING_FILTER_DEPTH {
        &&& after.samples() == pushed.drop_first()
        &&& after.average() == latency_sum(after.samples()) / (PING_FILTER_DEPTH as int)
    } else {
        &&& after.samples() == pushed
        &&& after.average() == before.average()
    }
}

/// Law: a well-formed ping filter averages at most `PING_FILTER_DEPTH` samples, and once it
/// holds that many, each update keeps that many.
pub proof fn law_ping_filter_window(before: PingFilter, after: PingFilter, latency: u128)
    requires
        before.wf(),
        sampled(before, after, latency),
    ensures
        before.samples().len() <= PING_FILTER_DEPTH,
        before.samples().len() == PING_FILTER_DEPTH ==> after.samples().len() == PING_FILTER_DEPTH,
        after.samples().len() <= PING_FILTER_DEPTH,
{
}

} // verus!
