//! The network manager: transmit and receive queues of one peer, with retransmission.
use vstd::prelude::*;
use crate::net::model::{packet_with_ack, BroadcastChatMessage, Packet};
use crate::net::queue::{NetAttempt, NetQueue, RETRY_AGGRESSIVE_THRESHOLD, RETRY_THRESHOLD};
use crate::time::{gap_nanos, instant_now, nanos_between};
use std::time::Instant;

verus! {

/// Seconds of silence after which a peer counts as gone.
pub const TIMEOUT_IN_SECONDS: u64 = 5;

/// More than `TIMEOUT_IN_SECONDS` have passed.
pub open spec fn is_timeout(elapsed_nanos: int) -> bool {
    elapsed_nanos > TIMEOUT_IN_SECONDS * 1_000_000_000
}

/// Whether a peer last heard from `elapsed_nanos` nanoseconds ago has timed out.
pub fn connection_timed_out_after(elapsed_nanos: u128) -> (r: bool)
    ensures
        r == is_timeout(elapsed_nanos as int),
{
    elapsed_nanos > (TIMEOUT_IN_SECONDS as u128) * 1_000_000_000
}

/// Law: a peer last heard from `elapsed_nanos` nanoseconds ago has timed out exactly when more
/// than five seconds (5 000 000 000 ns) of silence have passed; the longer the silence, the
/// more surely it has timed out.
pub proof fn law_timeout_after_five_seconds(elapsed_nanos: int, longer: int)
    requires
        elapsed_nanos <= longer,
    ensures
        is_timeout(elapsed_nanos) <==> elapsed_nanos > 5_000_000_000,
        is_timeout(elapsed_nanos) ==> is_timeout(longer),
{
}

/// Whether a peer last heard from at `last_received` has timed out, by the clock now; the
/// decision is `connection_timed_out_after` on the time elapsed since.
pub fn has_connection_timed_out(last_received: Instant) -> (r: bool)
    ensures
        exists|now: Instant| r == is_timeout(nanos_between(now, last_received) as int),
{
    let now = instant_now();
    connection_timed_out_after(gap_nanos(&now, &last_received))
}

/// Transmission counters, from the perspective of the network layer.
pub struct NetworkStatistics {
    pub tx_packets_failed: u64,
    pub tx_packets_success: u64,
}

impl NetworkStatistics {
    pub fn new() -> (r: Self)
        ensures
            r.tx_packets_failed == 0,
            r.tx_packets_success == 0,
    {
        NetworkStatistics { tx_packets_failed: 0, tx_packets_success: 0 }
    }

    pub fn reset(&mut self)
        ensures
            final(self).tx_packets_failed == 0,
            final(self).tx_packets_success == 0,
    {
        self.tx_packets_failed = 0;
        self.tx_packets_success = 0;
    }
}

/// Number of times `j` occurs in `s`.
pub open spec fn occurrences(s: Seq<usize>, j: int) -> nat
    decreases s.len(),
{
    if s.len() == 0 {
        0
    } else {
        occurrences(s.drop_last(), j) + if s.last() == j { 1nat } else { 0nat }
    }
}

proof fn lemma_occurrences_step(s: Seq<usize>, k: int, j: int)
    requires
        0 <= k < s.len(),
    ensures
        occurrences(s.take(k + 1), j) == occurrences(s.take(k), j) + if s[k] == j { 1nat } else { 0nat },
        occurrences(s.take(k), j) <= k,
    decreases k,
{
    assert(s.take(k + 1).drop_last() =~= s.take(k));
    if k > 0 {
        lemma_occurrences_step(s, k - 1, j);
    } else {
        assert(s.take(0) =~= Seq::<usize>::empty());
    }
}

/// The first `k` indices all lie below `n`.
pub open spec fn all_below(indices: Seq<usize>, n: int, k: int) -> bool {
    forall|m: int| 0 <= m < k ==> #[trigger] indices[m] < n
}

/// Some of the first `k` indices equals `j`.
pub open spec fn among_first(indices: Seq<usize>, k: int, j: int) -> bool {
    exists|m: int| 0 <= m < k && #[trigger] indices[m] == j
}

/// How the transmit queue of a manager looks after retransmitting the packets at the first
/// `steps` of `indices` (the last of them possibly out of range of the packets, stopping the
/// walk): every packet reached carries acknowledgement `ack`, every attempt reached counts its
/// retries as often as it was reached (see `retried`), everything else is as it was.
pub open spec fn retransmitted(
    old_q: Seq<Packet>,
    old_a: Seq<NetAttempt>,
    new_q: Seq<Packet>,
    new_a: Seq<NetAttempt>,
    indices: Seq<usize>,
    packets_reached: int,
    attempts_reached: int,
    ack: Option<u64>,
) -> bool {
    &&& new_q.len() == old_q.len()
    &&& forall|j: int| 0 <= j < old_q.len() ==> #[trigger] new_q[j] == if among_first(indices, packets_reached, j) {
        packet_with_ack(old_q[j], ack)
    } else {
        old_q[j]
    }
    &&& new_a.len() == old_a.len()
    &&& forall|j: int| 0 <= j < old_a.len() ==> #[trigger] new_a[j].retries
        == retried(old_a[j].retries as int, occurrences(indices.take(attempts_reached), j))
}

/// The walk over `indices` stopped after `stop` packets; the attempt at the stopping index (if
/// any) was reached too.
pub open spec fn retransmission_outcome(
    old_q: Seq<Packet>,
    old_a: Seq<NetAttempt>,
    new_q: Seq<Packet>,
    new_a: Seq<NetAttempt>,
    indices: Seq<usize>,
    stop: int,
    ack: Option<u64>,
) -> bool {
    retransmitted(old_q, old_a, new_q, new_a, indices, stop, if stop < indices.len() { stop + 1 } else { stop }, ack)
}

/// Copies sent for the `k`-th of `indices`: as `copies_for` says of its attempt's count raised by
/// one retry, its count then being what the earlier indices left it (see `retried`); one when
/// there is no attempt at that index.
pub open spec fn copies_at(attempts: Seq<NetAttempt>, indices: Seq<usize>, k: int) -> nat {
    let j = indices[k] as int;
    if j < attempts.len() {
        copies_for(retried(attempts[j].retries as int, occurrences(indices.take(k), j)) + 1)
    } else {
        1
    }
}

/// The queue index of each packet sent for the first `k` of `indices`, in the order sent: for
/// each index in turn, `copies_at` copies of it.
pub open spec fn sent_indices(attempts: Seq<NetAttempt>, indices: Seq<usize>, k: int) -> Seq<usize>
    decreases k,
{
    if k <= 0 {
        Seq::empty()
    } else {
        sent_indices(attempts, indices, k - 1) + Seq::new(copies_at(attempts, indices, k - 1), |c: int| indices[k - 1])
    }
}

/// `out` is what retransmitting the packets of `q` at the first `k` of `indices` sends: for each
/// entry of `sent_indices`, in order, a clone of the packet at that index stamped with `ack`,
/// addressed to `addr`.
pub open spec fn sent_as<A>(q: Seq<Packet>, attempts: Seq<NetAttempt>, indices: Seq<usize>, k: int,
    ack: Option<u64>, addr: A, out: Seq<(Packet, A)>) -> bool {
    &&& out.len() == sent_indices(attempts, indices, k).len()
    &&& forall|e: int| #![trigger out[e]] 0 <= e < out.len() ==> out[e].1 == addr
        && cloned(packet_with_ack(q[sent_indices(attempts, indices, k)[e] as int], ack), out[e].0)
}

/// Copies of a packet sent by a retry that brings its attempt's count to `retries`: one, two
/// from `RETRY_THRESHOLD` on, three from `RETRY_AGGRESSIVE_THRESHOLD` on.
pub open spec fn copies_for(retries: int) -> nat {
    if retries >= RETRY_AGGRESSIVE_THRESHOLD {
        3
    } else if retries >= RETRY_THRESHOLD {
        2
    } else {
        1
    }
}

/// The retry count of an attempt counted `r` retries once it is retried `times` more times.
/// Every copy of the packet sent counts as a retry: a retry counts one, and the count so raised
/// decides how many copies go out (see `copies_for`), the extra ones counting too.
pub open spec fn retried(r: int, times: nat) -> int
    decreases times,
{
    if times == 0 {
        r
    } else {
        let p = retried(r, (times - 1) as nat);
        p + copies_for(p + 1)
    }
}

proof fn lemma_retried_bounds(r: int, times: nat)
    ensures
        r + times <= retried(r, times) <= r + 3 * times,
    decreases times,
{
    if times > 0 {
        lemma_retried_bounds(r, (times - 1) as nat);
    }
}

/// The transmit queue and receive queues of one peer. Queues keep the newest item at the back.
/// The receive queue of chat messages is present only when message buffering was asked for.
pub struct NetworkManager {
    pub statistics: NetworkStatistics,
    pub tx_packets: NetQueue<Packet>,
    pub rx_packets: NetQueue<Packet>,
    pub rx_chat_messages: Option<NetQueue<BroadcastChatMessage>>,
}

impl NetworkManager {
    pub fn new() -> (r: Self)
        ensures
            r.statistics.tx_packets_failed == 0,
            r.statistics.tx_packets_success == 0,
            r.tx_packets.queue@.len() == 0 && r.tx_packets.attempts@.len() == 0 && r.tx_packets.buffer_wrap_index is None,
            r.rx_packets.queue@.len() == 0 && r.rx_packets.attempts@.len() == 0 && r.rx_packets.buffer_wrap_index is None,
            r.rx_chat_messages is None,
    {
        NetworkManager {
            statistics: NetworkStatistics::new(),
            tx_packets: NetQueue::<Packet>::new(),
            rx_packets: NetQueue::<Packet>::new(),
            rx_chat_messages: None,
        }
    }

    /// The same manager, now also buffering incoming chat messages in an empty queue.
    pub fn with_message_buffering(self) -> (r: NetworkManager)
        ensures
            r.statistics == self.statistics,
            r.tx_packets == self.tx_packets,
            r.rx_packets == self.rx_packets,
            r.rx_chat_messages matches Some(q) && q.queue@.len() == 0 && q.attempts@.len() == 0
                && q.buffer_wrap_index is None,
    {
        NetworkManager {
            statistics: self.statistics,
            tx_packets: self.tx_packets,
            rx_packets: self.rx_packets,
            rx_chat_messages: Some(NetQueue::<BroadcastChatMessage>::new()),
        }
    }

    /// Zeroes the statistics and empties every queue (the chat queue stays present if it was).
    pub fn reset(&mut self)
        ensures
            final(self).statistics.tx_packets_failed == 0,
            final(self).statistics.tx_packets_success == 0,
            final(self).tx_packets.queue@.len() == 0 && final(self).tx_packets.attempts@.len() == 0
                && final(self).tx_packets.buffer_wrap_index is None,
            final(self).rx_packets.queue@.len() == 0 && final(self).rx_packets.attempts@.len() == 0
                && final(self).rx_packets.buffer_wrap_index is None,
            final(self).rx_chat_messages is Some <==> old(self).rx_chat_messages is Some,
            final(self).rx_chat_messages matches Some(q) ==> q.queue@.len() == 0 && q.attempts@.len() == 0
                && q.buffer_wrap_index is None,
    {
        self.statistics.reset();
        self.tx_packets.clear();
        self.rx_packets.clear();
        match &mut self.rx_chat_messages {
            Some(chat_messages) => {
                chat_messages.clear();
                chat_messages.buffer_wrap_index = None;
            },
            None => {},
        }
    }

    /// Drops the `num_to_remove` oldest transmitted packets with their attempt records; does
    /// nothing when fewer packets are queued.
    pub fn tx_pop_front_with_count(&mut self, num_to_remove: usize)
        ensures
            num_to_remove > old(self).tx_packets.queue@.len() ==> *final(self) == *old(self),
            num_to_remove <= old(self).tx_packets.queue@.len() ==> {
                &&& final(self).tx_packets.queue@ == old(self).tx_packets.queue@.skip(num_to_remove as int)
                &&& final(self).tx_packets.attempts@ == if num_to_remove <= old(self).tx_packets.attempts@.len() {
                    old(self).tx_packets.attempts@.skip(num_to_remove as int)
                } else {
                    Seq::<NetAttempt>::empty()
                }
                &&& final(self).tx_packets.buffer_wrap_index == old(self).tx_packets.buffer_wrap_index
                &&& final(self).rx_packets == old(self).rx_packets
                &&& final(self).rx_chat_messages == old(self).rx_chat_messages
                &&& final(self).statistics == old(self).statistics
            },
    {
        if num_to_remove > self.tx_packets.queue.len() {
            return;
        }
        let ghost q0 = self.tx_packets.queue@;
        let ghost a0 = self.tx_packets.attempts@;
        let mut removed: usize = 0;
        while removed < num_to_remove
            invariant
                removed <= num_to_remove <= q0.len(),
                q0 == old(self).tx_packets.queue@,
                a0 == old(self).tx_packets.attempts@,
                self.tx_packets.queue@ == q0.skip(removed as int),
                self.tx_packets.attempts@ == if removed <= a0.len() { a0.skip(removed as int) } else { Seq::<NetAttempt>::empty() },
                self.tx_packets.buffer_wrap_index == old(self).tx_packets.buffer_wrap_index,
                self.rx_packets == old(self).rx_packets,
                self.rx_chat_messages == old(self).rx_chat_messages,
                self.statistics == old(self).statistics,
            decreases num_to_remove - removed,
        {
            let _ = self.tx_packets.queue.pop_front();
            let _ = self.tx_packets.attempts.pop_front();
            removed = removed + 1;
            proof {
                if removed > a0.len() {
                    assert(self.tx_packets.attempts@ =~= Seq::<NetAttempt>::empty());
                }
            }
        }
    }

    /// Retries the attempt at `index` (if there is one; see `retried`) and returns how many
    /// copies of its packet to send.
    fn count_retry(&mut self, index: usize, indices: &Vec<usize>, k: usize) -> (send_counter: usize)
        requires
            k < indices@.len(),
            indices@[k as int] == index,
            forall|j: int| 0 <= j < old(self).tx_packets.attempts@.len()
                ==> #[trigger] old(self).tx_packets.attempts@[j].retries + 3 < usize::MAX,
        ensures
            final(self).tx_packets.queue@ == old(self).tx_packets.queue@,
            final(self).tx_packets.buffer_wrap_index == old(self).tx_packets.buffer_wrap_index,
            final(self).rx_packets == old(self).rx_packets,
            final(self).rx_chat_messages == old(self).rx_chat_messages,
            final(self).statistics == old(self).statistics,
            final(self).tx_packets.attempts@.len() == old(self).tx_packets.attempts@.len(),
            forall|j: int| 0 <= j < old(self).tx_packets.attempts@.len() ==> #[trigger] final(self).tx_packets.attempts@[j].retries
                == if j == index { old(self).tx_packets.attempts@[j].retries + copies_for(old(self).tx_packets.attempts@[j].retries + 1) }
                    else { old(self).tx_packets.attempts@[j].retries as int },
            send_counter == if index < old(self).tx_packets.attempts@.len() {
                copies_for(old(self).tx_packets.attempts@[index as int].retries + 1)
            } else {
                1
            },
    {
        let mut send_counter: usize = 1;
        if index < self.tx_packets.attempts.len() {
            let ghost a_before = self.tx_packets.attempts@;
            let mut attempt = self.tx_packets.attempts.remove(index).unwrap();
            attempt.increment_retries();
            if attempt.retries >= RETRY_AGGRESSIVE_THRESHOLD {
                send_counter = send_counter + 2;
            } else if attempt.retries >= RETRY_THRESHOLD {
                send_counter = send_counter + 1;
            }
            // Every extra copy counts as a retry too.
            attempt.retries = attempt.retries + (send_counter - 1);
            self.tx_packets.attempts.insert(index, attempt);
            proof {
                assert(self.tx_packets.attempts@ =~= a_before.update(index as int, attempt));
            }
        }
        send_counter
    }

    /// Retransmission of the queued packets at `indices`, in order, each addressed to `addr`.
    /// Every attempt reached is retried (see `retried`); a packet reached is stamped with
    /// `confirmed_ack` and sent as many times as `copies_for` its attempt's raised count says.
    /// The walk stops at the first index with no queued packet.
    pub fn get_expired_tx_packets<A: Copy>(
        &mut self,
        addr: A,
        confirmed_ack: Option<u64>,
        indices: &Vec<usize>,
    ) -> (expired: Vec<(Packet, A)>)
        requires
            forall|j: int| 0 <= j < old(self).tx_packets.attempts@.len()
                ==> #[trigger] old(self).tx_packets.attempts@[j].retries + 3 * indices@.len() < usize::MAX,
            forall|k: int| 0 <= k < indices@.len() && all_below(indices@, old(self).tx_packets.queue@.len() as int, k)
                && #[trigger] indices@[k] < old(self).tx_packets.queue@.len()
                ==> old(self).tx_packets.queue@[indices@[k] as int] is Request
                    || old(self).tx_packets.queue@[indices@[k] as int] is Response,
        ensures
            final(self).rx_packets == old(self).rx_packets,
            final(self).rx_chat_messages == old(self).rx_chat_messages,
            final(self).statistics == old(self).statistics,
            final(self).tx_packets.buffer_wrap_index == old(self).tx_packets.buffer_wrap_index,
            exists|stop: int| {
                &&& 0 <= stop <= indices@.len()
                &&& all_below(indices@, old(self).tx_packets.queue@.len() as int, stop)
                &&& stop < indices@.len() ==> indices@[stop] >= old(self).tx_packets.queue@.len()
                &&& #[trigger] retransmission_outcome(old(self).tx_packets.queue@, old(self).tx_packets.attempts@,
                    final(self).tx_packets.queue@, final(self).tx_packets.attempts@, indices@, stop, confirmed_ack)
                &&& sent_as(old(self).tx_packets.queue@, old(self).tx_packets.attempts@, indices@, stop,
                    confirmed_ack, addr, expired@)
            },
    {
        let ghost q0 = self.tx_packets.queue@;
        let ghost a0 = self.tx_packets.attempts@;
        let qn = self.tx_packets.queue.len();
        let an = self.tx_packets.attempts.len();

        // The walk stops at the first index that has no queued packet.
        let mut stop: usize = 0;
        while stop < indices.len() && indices[stop] < qn
            invariant
                stop <= indices@.len(),
                all_below(indices@, qn as int, stop as int),
            decreases indices@.len() - stop,
        {
            stop = stop + 1;
        }

        let mut expired_packets: Vec<(Packet, A)> = Vec::new();
        let mut k: usize = 0;
        while k < stop
            invariant
                k <= stop <= indices@.len(),
                all_below(indices@, qn as int, stop as int),
                stop < indices@.len() ==> indices@[stop as int] >= qn,
                q0 == old(self).tx_packets.queue@,
                a0 == old(self).tx_packets.attempts@,
                qn == q0.len(),
                an == a0.len(),
                forall|j: int| 0 <= j < a0.len() ==> #[trigger] a0[j].retries + 3 * indices@.len() < usize::MAX,
                forall|m: int| 0 <= m < indices@.len() && all_below(indices@, qn as int, m)
                    && #[trigger] indices@[m] < qn ==> q0[indices@[m] as int] is Request || q0[indices@[m] as int] is Response,
                retransmitted(q0, a0, self.tx_packets.queue@, self.tx_packets.attempts@, indices@, k as int, k as int, confirmed_ack),
                self.rx_packets == old(self).rx_packets,
                self.rx_chat_messages == old(self).rx_chat_messages,
                self.statistics == old(self).statistics,
                self.tx_packets.buffer_wrap_index == old(self).tx_packets.buffer_wrap_index,
                sent_as(q0, a0, indices@, k as int, confirmed_ack, addr, expired_packets@),
            decreases stop - k,
        {
            let index = indices[k];
            let ghost q_before = self.tx_packets.queue@;
            let ghost out_before = expired_packets@;
            proof {
                assert forall|j: int| 0 <= j < an implies occurrences(indices@.take(k + 1), j)
                    == occurrences(indices@.take(k as int), j) + (if indices@[k as int] == j { 1nat } else { 0nat })
                    && occurrences(indices@.take(k as int), j) <= k by {
                    lemma_occurrences_step(indices@, k as int, j);
                }
                assert forall|j: int| 0 <= j < an implies #[trigger] self.tx_packets.attempts@[j].retries + 3 < usize::MAX by {
                    assert(self.tx_packets.attempts@[j].retries == retried(a0[j].retries as int, occurrences(indices@.take(k as int), j)));
                    lemma_retried_bounds(a0[j].retries as int, occurrences(indices@.take(k as int), j));
                }
            }
            let ghost a_before = self.tx_packets.attempts@;
            let send_counter = self.count_retry(index, indices, k);
            proof {
                assert forall|j: int| 0 <= j < an implies #[trigger] self.tx_packets.attempts@[j].retries
                    == retried(a0[j].retries as int, occurrences(indices@.take(k + 1), j)) by {
                    if j == index as int {
                        assert(occurrences(indices@.take(k + 1), j) == occurrences(indices@.take(k as int), j) + 1);
                        assert(retried(a0[j].retries as int, occurrences(indices@.take(k + 1), j))
                            == a_before[j].retries + copies_for(a_before[j].retries + 1));
                    } else {
                        assert(occurrences(indices@.take(k + 1), j) == occurrences(indices@.take(k as int), j));
                    }
                }
                assert(all_below(indices@, qn as int, k as int));
                assert(index < qn);
            }
            let mut pkt = self.tx_packets.queue.remove(index).unwrap();
            proof {
                if among_first(indices@, k as int, index as int) {
                    assert(pkt == packet_with_ack(q0[index as int], confirmed_ack));
                } else {
                    assert(pkt == q0[index as int]);
                }
            }
            pkt.set_response_sequence(confirmed_ack);
            let ghost stamped = pkt;
            proof {
                assert(pkt == packet_with_ack(q0[index as int], confirmed_ack));
                assert(send_counter == copies_at(a0, indices@, k as int));
                assert(sent_as(q0, a0, indices@, k as int, confirmed_ack, addr, out_before));
            }
            let mut c: usize = 0;
            while c < send_counter
                invariant
                    c <= send_counter <= 3,
                    stamped == pkt,
                    expired_packets@.len() == out_before.len() + c,
                    forall|e: int| 0 <= e < out_before.len() ==> #[trigger] expired_packets@[e] == out_before[e],
                    forall|e: int| out_before.len() <= e < expired_packets@.len() ==> #[trigger] expired_packets@[e].1 == addr
                        && cloned(pkt, expired_packets@[e].0),
                decreases send_counter - c,
            {
                expired_packets.push((pkt.clone(), addr));
                c = c + 1;
            }
            self.tx_packets.queue.insert(index, pkt);
            let kk = k;
            k = k + 1;
            proof {
                assert(self.tx_packets.queue@ =~= q_before.update(index as int, pkt));
                assert(among_first(indices@, k as int, index as int));
                assert(indices@[kk as int] == index);
                assert forall|j: int| 0 <= j < q0.len() implies #[trigger] self.tx_packets.queue@[j] == if among_first(indices@, k as int, j) {
                    packet_with_ack(q0[j], confirmed_ack)
                } else {
                    q0[j]
                } by {
                    if j != index {
                        assert(self.tx_packets.queue@[j] == q_before[j]);
                        if among_first(indices@, k as int, j) {
                            let m = choose|m: int| 0 <= m < k as int && #[trigger] indices@[m] == j;
                            assert(m != kk);
                            assert(among_first(indices@, kk as int, j));
                        }
                        if among_first(indices@, kk as int, j) {
                            let m = choose|m: int| 0 <= m < kk as int && #[trigger] indices@[m] == j;
                            assert(among_first(indices@, k as int, j));
                        }
                    } else {
                        assert(among_first(indices@, k as int, j));
                    }
                }
                let src0 = sent_indices(a0, indices@, kk as int);
                let src = sent_indices(a0, indices@, k as int);
                assert(src == src0 + Seq::new(copies_at(a0, indices@, kk as int), |c: int| indices@[kk as int]));
                assert forall|e: int| #![trigger expired_packets@[e]] 0 <= e < expired_packets@.len() implies expired_packets@[e].1 == addr
                    && cloned(packet_with_ack(q0[src[e] as int], confirmed_ack), expired_packets@[e].0) by {
                    if e < out_before.len() {
                        assert(expired_packets@[e] == out_before[e]);
                        assert(src[e] == src0[e]);
                        assert(out_before[e].1 == addr);
                    } else {
                        assert(src[e] == index);
                        assert(expired_packets@[e].1 == addr);
                    }
                }
                assert(expired_packets@.len() == src.len());
                assert(sent_as(q0, a0, indices@, k as int, confirmed_ack, addr, expired_packets@));
            }
        }
        if stop < indices.len() {
            // The attempt at the stopping index is still counted.
            let index = indices[stop];
            let ghost q_before = self.tx_packets.queue@;
            proof {
                assert forall|j: int| 0 <= j < an implies occurrences(indices@.take(stop + 1), j)
                    == occurrences(indices@.take(stop as int), j) + (if indices@[stop as int] == j { 1nat } else { 0nat })
                    && occurrences(indices@.take(stop as int), j) <= stop by {
                    lemma_occurrences_step(indices@, stop as int, j);
                }
                assert forall|j: int| 0 <= j < an implies #[trigger] self.tx_packets.attempts@[j].retries + 3 < usize::MAX by {
                    assert(self.tx_packets.attempts@[j].retries == retried(a0[j].retries as int, occurrences(indices@.take(stop as int), j)));
                    lemma_retried_bounds(a0[j].retries as int, occurrences(indices@.take(stop as int), j));
                }
            }
            let ghost a_before = self.tx_packets.attempts@;
            let _ = self.count_retry(index, indices, stop);
            proof {
                assert forall|j: int| 0 <= j < an implies #[trigger] self.tx_packets.attempts@[j].retries
                    == retried(a0[j].retries as int, occurrences(indices@.take(stop + 1), j)) by {
                    if j == index as int {
                        assert(occurrences(indices@.take(stop + 1), j) == occurrences(indices@.take(stop as int), j) + 1);
                        assert(retried(a0[j].retries as int, occurrences(indices@.take(stop + 1), j))
                            == a_before[j].retries + copies_for(a_before[j].retries + 1));
                    } else {
                        assert(occurrences(indices@.take(stop + 1), j) == occurrences(indices@.take(stop as int), j));
                    }
                }
            }
        }
        proof {
            assert(retransmission_outcome(q0, a0, self.tx_packets.queue@, self.tx_packets.attempts@, indices@, stop as int, confirmed_ack));
        }
        expired_packets
    }
}


/// Retransmitting never lowers a retry count: after a walk over `indices` (see
/// `retransmission_outcome`), every attempt counts at least one and at most three more retries
/// per time it was reached, and an attempt not reached keeps its count.
pub proof fn law_retries_grow(
    old_q: Seq<Packet>,
    old_a: Seq<NetAttempt>,
    new_q: Seq<Packet>,
    new_a: Seq<NetAttempt>,
    indices: Seq<usize>,
    stop: int,
    ack: Option<u64>,
    j: int,
)
    requires
        retransmission_outcome(old_q, old_a, new_q, new_a, indices, stop, ack),
        0 <= j < old_a.len(),
    ensures
        ({
            let times = occurrences(indices.take(if stop < indices.len() { stop + 1 } else { stop }), j);
            &&& old_a[j].retries + times <= new_a[j].retries <= old_a[j].retries + 3 * times
            &&& times == 0 ==> new_a[j].retries == old_a[j].retries
        }),
{
    let times = occurrences(indices.take(if stop < indices.len() { stop + 1 } else { stop }), j);
    assert(new_a[j].retries == retried(old_a[j].retries as int, times));
    lemma_retried_bounds(old_a[j].retries as int, times);
}

} // verus!
