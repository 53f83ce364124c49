//! What the transport layer keeps per endpoint: when it last heard from and sent to it, whether
//! the layer above was told that it went idle or timed out, and the packets waiting to be
//! acknowledged, with their retry bookkeeping.
//!
//! Times are nanoseconds on the transport's own clock, counted from the moment its data was
//! created; every operation that reads the clock has a counterpart that takes the reading as
//! an argument and is specified exactly in terms of it.
use vstd::prelude::*;
use snowflake::ProcessUniqueId;
use std::time::Instant;
use crate::common::Endpoint;
use crate::time::{gap_nanos, instant_now, nanos_between};
use crate::transport::interface::{message_with_tid, same_tid, TransportEndpointDataError, TransportRsp};

verus! {

/// How long an endpoint first heard of through an incoming packet may stay silent, in
/// nanoseconds (five seconds).
pub const NEW_PACKET_ENDPOINT_TIMEOUT_NANOS: u128 = 5_000_000_000;

/// After this many retries of one packet the transport notes it (once).
pub const TRANSPORT_RETRY_COUNT_LOG_THRESHOLD: usize = 10;

/// `a - b`, or zero when `b` is later than `a`: how the clock's differences saturate.
pub open spec fn since(a: u128, b: u128) -> int {
    if a >= b { a - b } else { 0 }
}

/// Retry bookkeeping of one queued packet.
///
/// A transmit interval of zero means that the packet is sent once and never retried; otherwise
/// it is the least time between two transmissions.
#[derive(Clone, Copy, Debug, PartialEq, Eq, Structural)]
pub struct PacketInfo {
    pub transmit_interval: u128,
    pub last_transmit: u128,
    pub retry_count: usize,
    pub retry_logged: bool,
}

impl PacketInfo {
    /// Bookkeeping of a packet first sent at `now`.
    pub fn new(transmit_interval: u128, now: u128) -> (r: Self)
        ensures
            r == (PacketInfo { transmit_interval, last_transmit: now, retry_count: 0, retry_logged: false }),
    {
        PacketInfo { transmit_interval, last_transmit: now, retry_count: 0, retry_logged: false }
    }
}

/// What decides whether an endpoint is still active.
#[derive(Clone, Copy, Debug, PartialEq, Eq, Structural)]
pub struct EndpointMeta {
    pub endpoint_timeout: u128,
    pub last_receive: Option<u128>,
    pub last_send: Option<u128>,
    pub notified_of_timeout: bool,
    pub notified_of_idle: bool,
}

/// The bookkeeping of an endpoint that has seen no traffic yet.
pub open spec fn fresh_meta(timeout: u128) -> EndpointMeta {
    EndpointMeta {
        endpoint_timeout: timeout,
        last_receive: None,
        last_send: None,
        notified_of_timeout: false,
        notified_of_idle: false,
    }
}

impl EndpointMeta {
    pub fn new(timeout: u128) -> (r: Self)
        ensures
            r == fresh_meta(timeout),
    {
        EndpointMeta {
            endpoint_timeout: timeout,
            last_receive: None,
            last_send: None,
            notified_of_timeout: false,
            notified_of_idle: false,
        }
    }
}

/// A queued packet with its transmit identifier and retry bookkeeping.
#[derive(Clone, Debug)]
pub struct PacketContainer<P> {
    pub tid: ProcessUniqueId,
    pub packet: P,
    pub info: PacketInfo,
}

impl<P> PacketContainer<P> {
    pub fn new(tid: ProcessUniqueId, packet: P, info: PacketInfo) -> (r: Self)
        ensures
            r == (PacketContainer { tid, packet, info }),
    {
        PacketContainer { tid, packet, info }
    }
}

/// One endpoint's record: its bookkeeping and its transmit queue, oldest first.
#[derive(Debug)]
pub struct EndpointRecord<P> {
    pub endpoint: Endpoint,
    pub meta: EndpointMeta,
    pub transmit: Vec<PacketContainer<P>>,
}

/// The mathematical content of an `EndpointRecord`.
pub struct EndpointView<P> {
    pub endpoint: Endpoint,
    pub meta: EndpointMeta,
    pub transmit: Seq<PacketContainer<P>>,
}

impl<P> EndpointRecord<P> {
    pub open spec fn view(&self) -> EndpointView<P> {
        EndpointView { endpoint: self.endpoint, meta: self.meta, transmit: self.transmit@ }
    }
}

/// Whether some record in `s` belongs to `e`.
pub open spec fn has_endpoint<P>(s: Seq<EndpointView<P>>, e: Endpoint) -> bool {
    exists|i: int| 0 <= i < s.len() && #[trigger] s[i].endpoint == e
}

/// `s` with `f` applied to the record of `e` (no record belongs to two endpoints).
pub open spec fn update_endpoint<P>(s: Seq<EndpointView<P>>, e: Endpoint, f: spec_fn(EndpointView<P>) -> EndpointView<P>) -> Seq<EndpointView<P>> {
    s.map_values(|r: EndpointView<P>| if r.endpoint == e { f(r) } else { r })
}

/// The record of `e`'s bookkeeping after a packet from it arrived at `now`.
pub open spec fn meta_received(m: EndpointMeta, now: u128) -> EndpointMeta {
    EndpointMeta { last_receive: Some(now), notified_of_idle: false, ..m }
}

/// The record of `e`'s bookkeeping after a packet was sent to it at `now`.
pub open spec fn meta_sent(m: EndpointMeta, now: u128) -> EndpointMeta {
    EndpointMeta { last_send: Some(now), notified_of_idle: false, ..m }
}

/// The records after a packet from `e` arrived at `now`: an endpoint not known yet gets a
/// fresh record, with the timeout for endpoints first heard of this way (and no time of
/// receipt); a known one notes the time and is no longer idle.
pub open spec fn received_at<P>(s: Seq<EndpointView<P>>, e: Endpoint, now: u128) -> Seq<EndpointView<P>> {
    if has_endpoint(s, e) {
        s.map_values(|r: EndpointView<P>|
            if r.endpoint == e { EndpointView { endpoint: r.endpoint, meta: meta_received(r.meta, now), transmit: r.transmit } } else { r })
    } else {
        s.push(EndpointView { endpoint: e, meta: fresh_meta(NEW_PACKET_ENDPOINT_TIMEOUT_NANOS), transmit: Seq::empty() })
    }
}

/// The records after a packet was sent to `e` at `now`.
pub open spec fn sent_at<P>(s: Seq<EndpointView<P>>, e: Endpoint, now: u128) -> Seq<EndpointView<P>> {
    s.map_values(|r: EndpointView<P>|
        if r.endpoint == e { EndpointView { endpoint: r.endpoint, meta: meta_sent(r.meta, now), transmit: r.transmit } } else { r })
}

/// The records after `c` joined the back of `e`'s transmit queue.
pub open spec fn pushed<P>(s: Seq<EndpointView<P>>, e: Endpoint, c: PacketContainer<P>) -> Seq<EndpointView<P>> {
    s.map_values(|r: EndpointView<P>|
        if r.endpoint == e { EndpointView { endpoint: r.endpoint, meta: r.meta, transmit: r.transmit.push(c) } } else { r })
}

/// The records after `e`'s transmit queue was emptied.
pub open spec fn cleared<P>(s: Seq<EndpointView<P>>, e: Endpoint) -> Seq<EndpointView<P>> {
    s.map_values(|r: EndpointView<P>|
        if r.endpoint == e { EndpointView { endpoint: r.endpoint, meta: r.meta, transmit: Seq::empty() } } else { r })
}

/// The records after `e` was marked as told of its timeout.
pub open spec fn timeout_marked<P>(s: Seq<EndpointView<P>>, e: Endpoint) -> Seq<EndpointView<P>> {
    s.map_values(|r: EndpointView<P>|
        if r.endpoint == e { EndpointView { endpoint: r.endpoint, meta: EndpointMeta { notified_of_timeout: true, ..r.meta }, transmit: r.transmit } } else { r })
}

/// The records after `e` was marked as told that it is idle.
pub open spec fn idle_marked<P>(s: Seq<EndpointView<P>>, e: Endpoint) -> Seq<EndpointView<P>> {
    s.map_values(|r: EndpointView<P>|
        if r.endpoint == e { EndpointView { endpoint: r.endpoint, meta: EndpointMeta { notified_of_idle: true, ..r.meta }, transmit: r.transmit } } else { r })
}

/// The record of `e` in `s` (meaningful when there is one).
pub open spec fn record_of<P>(s: Seq<EndpointView<P>>, e: Endpoint) -> EndpointView<P> {
    s[choose|i: int| 0 <= i < s.len() && #[trigger] s[i].endpoint == e]
}

/// The records after the packet at position `j` of `e`'s transmit queue was removed.
pub open spec fn packet_dropped<P>(s: Seq<EndpointView<P>>, e: Endpoint, j: int) -> Seq<EndpointView<P>> {
    s.map_values(|r: EndpointView<P>|
        if r.endpoint == e { EndpointView { endpoint: r.endpoint, meta: r.meta, transmit: r.transmit.remove(j) } } else { r })
}

/// `j` is the first position in `q` of a packet with transmit identifier `tid`.
pub open spec fn first_with_tid<P>(q: Seq<PacketContainer<P>>, tid: ProcessUniqueId, j: int) -> bool {
    &&& 0 <= j < q.len()
    &&& q[j].tid == tid
    &&& forall|k: int| 0 <= k < j ==> q[k].tid != tid
}

/// Whether the layer above is still to be told that the endpoint with this bookkeeping timed
/// out: it was heard from, at least its timeout ago.
pub open spec fn needs_timeout_notice(m: EndpointMeta, now: u128) -> bool {
    &&& !m.notified_of_timeout
    &&& m.last_receive is Some
    &&& since(now, m.last_receive->0) >= m.endpoint_timeout
}

/// Whether the layer above is still to be told that the endpoint with this bookkeeping is
/// idle: at least half its timeout passed since it was last heard from, or since a packet was
/// last sent to it.
pub open spec fn needs_idle_notice(m: EndpointMeta, now: u128) -> bool {
    &&& !m.notified_of_idle
    &&& {
        ||| (m.last_receive is Some && since(now, m.last_receive->0) >= m.endpoint_timeout / 2)
        ||| (m.last_send is Some && since(now, m.last_send->0) >= m.endpoint_timeout / 2)
    }
}

/// The endpoints of `s`, in order, that need a timeout notice at `now`.
pub open spec fn timeout_candidates<P>(s: Seq<EndpointView<P>>, now: u128) -> Seq<Endpoint>
    decreases s.len(),
{
    if s.len() == 0 {
        Seq::empty()
    } else {
        let rest = timeout_candidates(s.drop_last(), now);
        if needs_timeout_notice(s.last().meta, now) { rest.push(s.last().endpoint) } else { rest }
    }
}

/// The endpoints of `s`, in order, that need an idle notice at `now`.
pub open spec fn idle_candidates<P>(s: Seq<EndpointView<P>>, now: u128) -> Seq<Endpoint>
    decreases s.len(),
{
    if s.len() == 0 {
        Seq::empty()
    } else {
        let rest = idle_candidates(s.drop_last(), now);
        if needs_idle_notice(s.last().meta, now) { rest.push(s.last().endpoint) } else { rest }
    }
}

/// Law: an endpoint not yet told idle is among the idle candidates at `now` once at least half
/// its timeout has passed since a packet was last sent to it, or since it was last heard from
/// (either alone suffices); and every candidate is an endpoint not yet told idle for which one
/// of the two is so.
pub proof fn law_idle_candidates<P>(s: Seq<EndpointView<P>>, now: u128, i: int)
    requires
        0 <= i < s.len(),
    ensures
        (s[i].meta.last_send matches Some(t) && t <= now && now - t >= s[i].meta.endpoint_timeout / 2
            ==> (!s[i].meta.notified_of_idle ==> idle_candidates(s, now).contains(s[i].endpoint))),
        (s[i].meta.last_receive matches Some(t) && t <= now && now - t >= s[i].meta.endpoint_timeout / 2
            ==> (!s[i].meta.notified_of_idle ==> idle_candidates(s, now).contains(s[i].endpoint))),
        forall|k: int| #![trigger idle_candidates(s, now)[k]] 0 <= k < idle_candidates(s, now).len() ==> exists|j: int| {
            &&& 0 <= j < s.len()
            &&& (#[trigger] s[j]).endpoint == idle_candidates(s, now)[k]
            &&& !s[j].meta.notified_of_idle
            &&& {
                ||| (s[j].meta.last_send matches Some(t) && since(now, t) >= s[j].meta.endpoint_timeout / 2)
                ||| (s[j].meta.last_receive matches Some(t) && since(now, t) >= s[j].meta.endpoint_timeout / 2)
            }
        },
    decreases s.len(),
{
    let d = s.drop_last();
    let rest = idle_candidates(d, now);
    let c = idle_candidates(s, now);
    if i < s.len() - 1 {
        assert(d[i] == s[i]);
        law_idle_candidates(d, now, i);
        if rest.contains(s[i].endpoint) {
            let k = choose|k: int| 0 <= k < rest.len() && rest[k] == s[i].endpoint;
            assert(c[k] == rest[k]);
        }
    } else {
        if s.len() > 1 {
            law_idle_candidates(d, now, 0);
        }
        if needs_idle_notice(s[i].meta, now) {
            assert(c[c.len() - 1] == s[i].endpoint);
        }
    }
    assert forall|k: int| #![trigger c[k]] 0 <= k < c.len() implies exists|j: int| {
        &&& 0 <= j < s.len()
        &&& (#[trigger] s[j]).endpoint == c[k]
        &&& !s[j].meta.notified_of_idle
        &&& {
            ||| (s[j].meta.last_send matches Some(t) && since(now, t) >= s[j].meta.endpoint_timeout / 2)
            ||| (s[j].meta.last_receive matches Some(t) && since(now, t) >= s[j].meta.endpoint_timeout / 2)
        }
    } by {
        if k < rest.len() {
            assert(c[k] == rest[k]);
            let j = choose|j: int| {
                &&& 0 <= j < d.len()
                &&& (#[trigger] d[j]).endpoint == rest[k]
                &&& !d[j].meta.notified_of_idle
                &&& {
                    ||| (d[j].meta.last_send matches Some(t) && since(now, t) >= d[j].meta.endpoint_timeout / 2)
                    ||| (d[j].meta.last_receive matches Some(t) && since(now, t) >= d[j].meta.endpoint_timeout / 2)
                }
            };
            assert(d[j] == s[j]);
        } else {
            assert(s[s.len() - 1].endpoint == c[k]);
        }
    }
}

/// Whether a packet with this bookkeeping is due for a retry at `now`: it is retried at all,
/// and more than its interval passed since it was last sent.
pub open spec fn retry_due(info: PacketInfo, now: u128) -> bool {
    info.transmit_interval != 0 && since(now, info.last_transmit) > info.transmit_interval
}

/// A packet's bookkeeping after a tick at `now`: a due packet is counted as sent again at
/// `now`, and one past the retry threshold is noted once.
pub open spec fn info_after_tick(info: PacketInfo, now: u128) -> PacketInfo {
    let i1 = if retry_due(info, now) {
        PacketInfo { last_transmit: now, retry_count: (info.retry_count + 1) as usize, ..info }
    } else {
        info
    };
    if i1.retry_count >= TRANSPORT_RETRY_COUNT_LOG_THRESHOLD && !i1.retry_logged {
        PacketInfo { retry_logged: true, ..i1 }
    } else {
        i1
    }
}

pub open spec fn container_after_tick<P>(c: PacketContainer<P>, now: u128) -> PacketContainer<P> {
    PacketContainer { tid: c.tid, packet: c.packet, info: info_after_tick(c.info, now) }
}

/// The records after a tick at `now`.
pub open spec fn ticked<P>(s: Seq<EndpointView<P>>, now: u128) -> Seq<EndpointView<P>> {
    s.map_values(|r: EndpointView<P>| EndpointView {
        endpoint: r.endpoint,
        meta: r.meta,
        transmit: r.transmit.map_values(|c: PacketContainer<P>| container_after_tick(c, now)),
    })
}

/// The packets of queue `q` of endpoint `e` due for a retry at `now`, in order.
pub open spec fn due_in<P>(q: Seq<PacketContainer<P>>, e: Endpoint, now: u128) -> Seq<(P, Endpoint)>
    decreases q.len(),
{
    if q.len() == 0 {
        Seq::empty()
    } else {
        let rest = due_in(q.drop_last(), e, now);
        if retry_due(q.last().info, now) { rest.push((q.last().packet, e)) } else { rest }
    }
}

/// The packets of all endpoints due for a retry at `now`: endpoint by endpoint, each queue
/// oldest first.
pub open spec fn due_packets<P>(s: Seq<EndpointView<P>>, now: u128) -> Seq<(P, Endpoint)>
    decreases s.len(),
{
    if s.len() == 0 {
        Seq::empty()
    } else {
        due_packets(s.drop_last(), now) + due_in(s.last().transmit, s.last().endpoint, now)
    }
}

/// `message` begins with `prefix`.
pub open spec fn starts_with(message: Seq<char>, prefix: Seq<char>) -> bool {
    message.len() >= prefix.len() && message.subrange(0, prefix.len() as int) == prefix
}

/// What noting a send to `e` at `now` does: `new` and `r` from `old`.
pub open spec fn sent_outcome<P>(old: Seq<EndpointView<P>>, new: Seq<EndpointView<P>>, e: Endpoint, now: u128,
    r: Result<(), TransportEndpointDataError>) -> bool {
    if has_endpoint(old, e) {
        r is Ok && new == sent_at(old, e, now)
    } else {
        new == old && match r {
            Err(TransportEndpointDataError::EndpointNotFound { endpoint, message }) =>
                endpoint == e && message@ == "Cannot update last_send"@,
            _ => false,
        }
    }
}

/// What queueing `c` for `e` does.
pub open spec fn push_outcome<P>(old: Seq<EndpointView<P>>, new: Seq<EndpointView<P>>, e: Endpoint, c: PacketContainer<P>,
    r: Result<(), TransportEndpointDataError>) -> bool {
    if has_endpoint(old, e) {
        r is Ok && new == pushed(old, e, c)
    } else {
        new == old && match r {
            Err(TransportEndpointDataError::EndpointNotFound { endpoint, message }) =>
                endpoint == e && starts_with(message@, "Failed to push packet with tid "@),
            _ => false,
        }
    }
}

/// What emptying `e`'s transmit queue does.
pub open spec fn clear_outcome<P>(old: Seq<EndpointView<P>>, new: Seq<EndpointView<P>>, e: Endpoint,
    r: Result<(), TransportEndpointDataError>) -> bool {
    if has_endpoint(old, e) {
        r is Ok && new == cleared(old, e)
    } else {
        new == old && match r {
            Err(TransportEndpointDataError::EndpointNotFound { endpoint, message }) =>
                endpoint == e && message@ == "Failed to clear queue"@,
            _ => false,
        }
    }
}

/// What dropping endpoint `e` does.
pub open spec fn drop_endpoint_outcome<P>(old: Seq<EndpointView<P>>, new: Seq<EndpointView<P>>, e: Endpoint,
    r: Result<(), TransportEndpointDataError>) -> bool {
    if has_endpoint(old, e) {
        r is Ok && exists|i: int| 0 <= i < old.len() && old[i].endpoint == e && new == old.remove(i)
    } else {
        new == old && match r {
            Err(TransportEndpointDataError::EndpointDropFailed { endpoint, message }) =>
                endpoint == e && message@ == "not found in transmit queue, not found in meta queue, "@,
            _ => false,
        }
    }
}

/// What dropping the packet with transmit identifier `tid` from `e`'s queue does.
pub open spec fn drop_packet_outcome<P>(old: Seq<EndpointView<P>>, new: Seq<EndpointView<P>>, e: Endpoint,
    tid: ProcessUniqueId, r: Result<(), TransportEndpointDataError>) -> bool {
    if !has_endpoint(old, e) {
        new == old && match r {
            Err(TransportEndpointDataError::EndpointNotFound { endpoint, message }) =>
                endpoint == e && starts_with(message@, "Failed to drop packet with tid "@),
            _ => false,
        }
    } else {
        let q = record_of(old, e).transmit;
        if exists|j: int| 0 <= j < q.len() && #[trigger] q[j].tid == tid {
            r is Ok && exists|j: int| first_with_tid(q, tid, j) && new == packet_dropped(old, e, j)
        } else {
            new == old && r == Err::<(), TransportEndpointDataError>(TransportEndpointDataError::TransmitIDNotFound { endpoint: e, tid })
        }
    }
}

/// The transport's data for all endpoints, where `P` is the type of what is sent.
pub struct TransportEndpointData<P> {
    pub clock: Instant,
    pub records: Vec<EndpointRecord<P>>,
}

impl<P> TransportEndpointData<P> {
    pub open spec fn view(&self) -> Seq<EndpointView<P>> {
        self.records@.map_values(|r: EndpointRecord<P>| r@)
    }

    /// No two records belong to the same endpoint.
    pub open spec fn wf(&self) -> bool {
        forall|i: int, j: int| 0 <= i < j < self.records@.len()
            ==> #[trigger] self.records@[i].endpoint != #[trigger] self.records@[j].endpoint
    }

    /// Empty data; the transport's clock starts now.
    pub fn new() -> (r: Self)
        ensures
            r.wf(),
            r@.len() == 0,
    {
        TransportEndpointData { clock: instant_now(), records: Vec::new() }
    }

    /// Reads the transport's clock: the nanoseconds from its start (`clock`) to an instant
    /// read now (none if that instant were earlier).
    pub fn now(&self) -> (r: u128)
        ensures
            exists|t: Instant| r == nanos_between(t, self.clock),
    {
        let t = instant_now();
        gap_nanos(&t, &self.clock)
    }

    fn position(&self, endpoint: Endpoint) -> (r: Option<usize>)
        requires
            self.wf(),
        ensures
            match r {
                Some(i) => i < self.records@.len() && self.records@[i as int].endpoint == endpoint
                    && self@[i as int].endpoint == endpoint && has_endpoint(self@, endpoint),
                None => !has_endpoint(self@, endpoint),
            },
    {
        let mut i: usize = 0;
        while i < self.records.len()
            invariant
                i <= self.records@.len(),
                forall|j: int| 0 <= j < i ==> self.records@[j].endpoint != endpoint,
            decreases self.records@.len() - i,
        {
            if self.records[i].endpoint == endpoint {
                proof {
                    assert(self@[i as int] == self.records@[i as int]@);
                }
                return Some(i);
            }
            i = i + 1;
        }
        proof {
            assert forall|j: int| 0 <= j < self@.len() implies #[trigger] self@[j].endpoint != endpoint by {
                assert(self@[j] == self.records@[j]@);
            }
        }
        None
    }

    /// Notes that a packet from `endpoint` arrived at `now`; an endpoint not known yet is
    /// created with the timeout for endpoints first heard of this way.
    pub fn update_last_received_at(&mut self, endpoint: Endpoint, now: u128) -> (r: Result<(), TransportEndpointDataError>)
        requires
            old(self).wf(),
        ensures
            final(self).wf(),
            r is Ok,
            final(self)@ == received_at(old(self)@, endpoint, now),
    {
        match self.position(endpoint) {
            None => {
                let _ = self.new_endpoint(endpoint, NEW_PACKET_ENDPOINT_TIMEOUT_NANOS);
                Ok(())
            },
            Some(i) => {
                let ghost s0 = self.records@;
                self.records[i].meta.last_receive = Some(now);
                self.records[i].meta.notified_of_idle = false;
                proof {
                    lemma_one_changed(s0, self.records@, i as int);
                    let t = received_at(old(self)@, endpoint, now);
                    assert forall|j: int| 0 <= j < self@.len() implies #[trigger] self@[j] == t[j] by {
                        assert(old(self)@[j] == s0[j]@);
                        if j != i {
                            assert(s0[j].endpoint != s0[i as int].endpoint || j == i);
                            if j < i { assert(s0[j].endpoint != s0[i as int].endpoint); }
                            else { assert(s0[i as int].endpoint != s0[j].endpoint); }
                        }
                    }
                    assert(self@ =~= t);
                }
                Ok(())
            },
        }
    }

    /// `update_last_received_at` at the time read from the transport's clock.
    pub fn update_last_received(&mut self, endpoint: Endpoint) -> (r: Result<(), TransportEndpointDataError>)
        requires
            old(self).wf(),
        ensures
            final(self).wf(),
            r is Ok,
            exists|now: u128| final(self)@ == received_at(old(self)@, endpoint, now),
    {
        let now = self.now();
        self.update_last_received_at(endpoint, now)
    }

    /// Notes that a packet was sent to `endpoint` at `now`. Fails when the endpoint is not
    /// known.
    pub fn update_last_sent_at(&mut self, endpoint: Endpoint, now: u128) -> (r: Result<(), TransportEndpointDataError>)
        requires
            old(self).wf(),
        ensures
            final(self).wf(),
            sent_outcome(old(self)@, final(self)@, endpoint, now, r),
    {
        match self.position(endpoint) {
            None => Err(TransportEndpointDataError::EndpointNotFound {
                endpoint,
                message: String::from_str("Cannot update last_send"),
            }),
            Some(i) => {
                let ghost s0 = self.records@;
                self.records[i].meta.last_send = Some(now);
                self.records[i].meta.notified_of_idle = false;
                proof {
                    lemma_one_changed(s0, self.records@, i as int);
                    let t = sent_at(old(self)@, endpoint, now);
                    assert forall|j: int| 0 <= j < self@.len() implies #[trigger] self@[j] == t[j] by {
                        assert(old(self)@[j] == s0[j]@);
                        if j < i { assert(s0[j].endpoint != s0[i as int].endpoint); }
                        if j > i { assert(s0[i as int].endpoint != s0[j].endpoint); }
                    }
                    assert(self@ =~= t);
                }
                Ok(())
            },
        }
    }

    /// `update_last_sent_at` at the time read from the transport's clock.
    pub fn update_last_sent(&mut self, endpoint: Endpoint) -> (r: Result<(), TransportEndpointDataError>)
        requires
            old(self).wf(),
        ensures
            final(self).wf(),
            exists|now: u128| sent_outcome(old(self)@, final(self)@, endpoint, now, r),
    {
        let now = self.now();
        let r = self.update_last_sent_at(endpoint, now);
        proof {
            assert(sent_outcome(old(self)@, self@, endpoint, now, r));
        }
        r
    }

    /// Puts `item`, with transmit identifier `tid`, at the back of `endpoint`'s transmit
    /// queue, as sent at `now` and to be retried every `transmit_interval` nanoseconds (never
    /// when zero). Fails when the endpoint is not known.
    pub fn push_transmit_queue_at(&mut self, endpoint: Endpoint, tid: ProcessUniqueId, item: P, transmit_interval: u128, now: u128)
        -> (r: Result<(), TransportEndpointDataError>)
        requires
            old(self).wf(),
        ensures
            final(self).wf(),
            push_outcome(old(self)@, final(self)@, endpoint,
                PacketContainer { tid, packet: item, info: PacketInfo { transmit_interval, last_transmit: now, retry_count: 0, retry_logged: false } }, r),
    {
        match self.position(endpoint) {
            None => Err(TransportEndpointDataError::EndpointNotFound {
                endpoint,
                message: message_with_tid("Failed to push packet with tid ", &tid),
            }),
            Some(i) => {
                let ghost s0 = self.records@;
                let c = PacketContainer::new(tid, item, PacketInfo::new(transmit_interval, now));
                self.records[i].transmit.push(c);
                proof {
                    lemma_one_changed(s0, self.records@, i as int);
                    let t = pushed(old(self)@, endpoint, c);
                    assert forall|j: int| 0 <= j < self@.len() implies #[trigger] self@[j] == t[j] by {
                        assert(old(self)@[j] == s0[j]@);
                        if j < i { assert(s0[j].endpoint != s0[i as int].endpoint); }
                        if j > i { assert(s0[i as int].endpoint != s0[j].endpoint); }
                    }
                    assert(self@ =~= t);
                }
                Ok(())
            },
        }
    }

    /// Empties `endpoint`'s transmit queue. Fails when the endpoint is not known.
    pub fn clear_queue(&mut self, endpoint: Endpoint) -> (r: Result<(), TransportEndpointDataError>)
        requires
            old(self).wf(),
        ensures
            final(self).wf(),
            clear_outcome(old(self)@, final(self)@, endpoint, r),
    {
        match self.position(endpoint) {
            None => Err(TransportEndpointDataError::EndpointNotFound {
                endpoint,
                message: String::from_str("Failed to clear queue"),
            }),
            Some(i) => {
                let ghost s0 = self.records@;
                self.records[i].transmit.clear();
                proof {
                    lemma_one_changed(s0, self.records@, i as int);
                    let t = cleared(old(self)@, endpoint);
                    assert forall|j: int| 0 <= j < self@.len() implies #[trigger] self@[j] == t[j] by {
                        assert(old(self)@[j] == s0[j]@);
                        if j < i { assert(s0[j].endpoint != s0[i as int].endpoint); }
                        if j > i { assert(s0[i as int].endpoint != s0[j].endpoint); }
                    }
                    assert(self@ =~= t);
                }
                Ok(())
            },
        }
    }

    /// Notes that the layer above was told that `endpoint` timed out. Returns whether a known
    /// endpoint not marked so before was marked.
    pub fn mark_endpoint_as_timeout_notified(&mut self, endpoint: Endpoint) -> (r: bool)
        requires
            old(self).wf(),
        ensures
            final(self).wf(),
            r == (has_endpoint(old(self)@, endpoint) && !record_of(old(self)@, endpoint).meta.notified_of_timeout),
            final(self)@ == if r { timeout_marked(old(self)@, endpoint) } else { old(self)@ },
    {
        match self.position(endpoint) {
            None => false,
            Some(i) => {
                proof { self.lemma_record_of(i as int); }
                if self.records[i].meta.notified_of_timeout {
                    return false;
                }
                let ghost s0 = self.records@;
                self.records[i].meta.notified_of_timeout = true;
                proof {
                    lemma_one_changed(s0, self.records@, i as int);
                    let t = timeout_marked(old(self)@, endpoint);
                    assert forall|j: int| 0 <= j < self@.len() implies #[trigger] self@[j] == t[j] by {
                        assert(old(self)@[j] == s0[j]@);
                        if j < i { assert(s0[j].endpoint != s0[i as int].endpoint); }
                        if j > i { assert(s0[i as int].endpoint != s0[j].endpoint); }
                    }
                    assert(self@ =~= t);
                }
                true
            },
        }
    }

    /// Notes that the layer above was told that `endpoint` is idle. Returns whether a known
    /// endpoint not marked so before was marked.
    pub fn mark_endpoint_as_idle_notified(&mut self, endpoint: Endpoint) -> (r: bool)
        requires
            old(self).wf(),
        ensures
            final(self).wf(),
            r == (has_endpoint(old(self)@, endpoint) && !record_of(old(self)@, endpoint).meta.notified_of_idle),
            final(self)@ == if r { idle_marked(old(self)@, endpoint) } else { old(self)@ },
    {
        match self.position(endpoint) {
            None => false,
            Some(i) => {
                proof { self.lemma_record_of(i as int); }
                if self.records[i].meta.notified_of_idle {
                    return false;
                }
                let ghost s0 = self.records@;
                self.records[i].meta.notified_of_idle = true;
                proof {
                    lemma_one_changed(s0, self.records@, i as int);
                    let t = idle_marked(old(self)@, endpoint);
                    assert forall|j: int| 0 <= j < self@.len() implies #[trigger] self@[j] == t[j] by {
                        assert(old(self)@[j] == s0[j]@);
                        if j < i { assert(s0[j].endpoint != s0[i as int].endpoint); }
                        if j > i { assert(s0[i as int].endpoint != s0[j].endpoint); }
                    }
                    assert(self@ =~= t);
                }
                true
            },
        }
    }

    /// The record at position `i` is the record of its endpoint.
    proof fn lemma_record_of(&self, i: int)
        requires
            self.wf(),
            0 <= i < self.records@.len(),
        ensures
            record_of(self@, self.records@[i].endpoint) == self.records@[i]@,
            self@[i] == self.records@[i]@,
    {
        let e = self.records@[i].endpoint;
        assert(self@[i].endpoint == e);
        let c = choose|j: int| 0 <= j < self@.len() && #[trigger] self@[j].endpoint == e;
        if c != i {
            if c < i { assert(self.records@[c].endpoint != self.records@[i].endpoint); }
            else { assert(self.records@[i].endpoint != self.records@[c].endpoint); }
        }
    }

    /// Removes `endpoint`'s record. Fails when the endpoint is not known.
    pub fn drop_endpoint(&mut self, endpoint: Endpoint) -> (r: Result<(), TransportEndpointDataError>)
        requires
            old(self).wf(),
        ensures
            final(self).wf(),
            drop_endpoint_outcome(old(self)@, final(self)@, endpoint, r),
    {
        match self.position(endpoint) {
            None => Err(TransportEndpointDataError::EndpointDropFailed {
                endpoint,
                message: String::from_str("not found in transmit queue, not found in meta queue, "),
            }),
            Some(i) => {
                let ghost s0 = self.records@;
                let _ = self.records.remove(i);
                proof {
                    assert(self.records@ =~= s0.remove(i as int));
                    assert forall|a: int, b: int| 0 <= a < b < self.records@.len()
                        implies #[trigger] self.records@[a].endpoint != #[trigger] self.records@[b].endpoint by {
                        let a0 = if a < i { a } else { a + 1 };
                        let b0 = if b < i { b } else { b + 1 };
                        assert(s0[a0].endpoint != s0[b0].endpoint);
                    }
                    assert(self@ =~= old(self)@.remove(i as int));
                }
                Ok(())
            },
        }
    }

    /// `push_transmit_queue_at` at the time read from the transport's clock.
    pub fn push_transmit_queue(&mut self, endpoint: Endpoint, tid: ProcessUniqueId, item: P, transmit_interval: u128)
        -> (r: Result<(), TransportEndpointDataError>)
        requires
            old(self).wf(),
        ensures
            final(self).wf(),
            exists|now: u128| push_outcome(old(self)@, final(self)@, endpoint,
                PacketContainer { tid, packet: item, info: PacketInfo { transmit_interval, last_transmit: now, retry_count: 0, retry_logged: false } }, r),
    {
        let now = self.now();
        let r = self.push_transmit_queue_at(endpoint, tid, item, transmit_interval, now);
        proof {
            assert(push_outcome(old(self)@, self@, endpoint,
                PacketContainer { tid, packet: item, info: PacketInfo { transmit_interval, last_transmit: now, retry_count: 0, retry_logged: false } }, r));
        }
        r
    }

    /// Removes the first packet with transmit identifier `tid` from `endpoint`'s transmit
    /// queue, so that it is not sent again (the other end acknowledged it). Fails when the
    /// endpoint is not known, or its queue holds no such packet.
    pub fn drop_packet(&mut self, endpoint: Endpoint, tid: ProcessUniqueId) -> (r: Result<(), TransportEndpointDataError>)
        requires
            old(self).wf(),
        ensures
            final(self).wf(),
            drop_packet_outcome(old(self)@, final(self)@, endpoint, tid, r),
    {
        let i = match self.position(endpoint) {
            None => {
                return Err(TransportEndpointDataError::EndpointNotFound {
                    endpoint,
                    message: message_with_tid("Failed to drop packet with tid ", &tid),
                });
            },
            Some(i) => i,
        };
        proof { self.lemma_record_of(i as int); }
        let ghost q = self.records@[i as int].transmit@;
        let mut j: usize = 0;
        while j < self.records[i].transmit.len()
            invariant
                i < self.records@.len(),
                q == self.records@[i as int].transmit@,
                j <= q.len(),
                forall|k: int| 0 <= k < j ==> q[k].tid != tid,
            ensures
                i < self.records@.len(),
                j <= q.len(),
                forall|k: int| 0 <= k < j ==> q[k].tid != tid,
                j < q.len() ==> q[j as int].tid == tid,
            decreases q.len() - j,
        {
            if same_tid(&self.records[i].transmit[j].tid, &tid) {
                break;
            }
            j = j + 1;
        }
        if j == self.records[i].transmit.len() {
            proof {
                assert(q == record_of(old(self)@, endpoint).transmit);
                assert(!exists|k: int| 0 <= k < q.len() && #[trigger] q[k].tid == tid);
            }
            return Err(TransportEndpointDataError::TransmitIDNotFound { endpoint, tid });
        }
        proof {
            assert(first_with_tid(q, tid, j as int));
        }
        let ghost s0 = self.records@;
        let _ = self.records[i].transmit.remove(j);
        proof {
            lemma_one_changed(s0, self.records@, i as int);
            let t = packet_dropped(old(self)@, endpoint, j as int);
            assert forall|k: int| 0 <= k < self@.len() implies #[trigger] self@[k] == t[k] by {
                assert(old(self)@[k] == s0[k]@);
                if k < i { assert(s0[k].endpoint != s0[i as int].endpoint); }
                if k > i { assert(s0[i as int].endpoint != s0[k].endpoint); }
            }
            assert(self@ =~= t);
            assert(q == record_of(old(self)@, endpoint).transmit);
            assert(q[j as int].tid == tid);
            assert(first_with_tid(q, tid, j as int) && self@ == packet_dropped(old(self)@, endpoint, j as int));
        }
        Ok(())
    }

    /// The endpoints, in order, that timed out at `now` and of which the layer above was not
    /// told yet.
    pub fn timed_out_endpoints_needing_notify_at(&self, now: u128) -> (r: Vec<Endpoint>)
        ensures
            r@ == timeout_candidates(self@, now),
    {
        let mut out: Vec<Endpoint> = Vec::new();
        let mut i: usize = 0;
        while i < self.records.len()
            invariant
                i <= self.records@.len(),
                out@ == timeout_candidates(self@.take(i as int), now),
            decreases self.records@.len() - i,
        {
            proof {
                assert(self@.take(i + 1).drop_last() =~= self@.take(i as int));
                assert(self@[i as int] == self.records@[i as int]@);
            }
            let m = self.records[i].meta;
            let due = !m.notified_of_timeout && match m.last_receive {
                Some(t) => now.saturating_sub(t) >= m.endpoint_timeout,
                None => false,
            };
            if due {
                out.push(self.records[i].endpoint);
            }
            i = i + 1;
        }
        proof {
            assert(self@.take(self@.len() as int) =~= self@);
        }
        out
    }

    /// `timed_out_endpoints_needing_notify_at` at the time read from the transport's clock.
    pub fn timed_out_endpoints_needing_notify(&self) -> (r: Vec<Endpoint>)
        ensures
            exists|now: u128| r@ == timeout_candidates(self@, now),
    {
        let now = self.now();
        let r = self.timed_out_endpoints_needing_notify_at(now);
        proof { assert(r@ == timeout_candidates(self@, now)); }
        r
    }

    /// The endpoints, in order, idle at `now` and of which the layer above was not told yet.
    pub fn idle_endpoints_needing_notify_at(&self, now: u128) -> (r: Vec<Endpoint>)
        ensures
            r@ == idle_candidates(self@, now),
    {
        let mut out: Vec<Endpoint> = Vec::new();
        let mut i: usize = 0;
        while i < self.records.len()
            invariant
                i <= self.records@.len(),
                out@ == idle_candidates(self@.take(i as int), now),
            decreases self.records@.len() - i,
        {
            proof {
                assert(self@.take(i + 1).drop_last() =~= self@.take(i as int));
                assert(self@[i as int] == self.records@[i as int]@);
            }
            let m = self.records[i].meta;
            if !m.notified_of_idle {
                let half = m.endpoint_timeout / 2;
                let by_receive = match m.last_receive {
                    Some(t) => now.saturating_sub(t) >= half,
                    None => false,
                };
                let by_send = match m.last_send {
                    Some(t) => now.saturating_sub(t) >= half,
                    None => false,
                };
                if by_receive || by_send {
                    out.push(self.records[i].endpoint);
                }
            }
            i = i + 1;
        }
        proof {
            assert(self@.take(self@.len() as int) =~= self@);
        }
        out
    }

    /// `idle_endpoints_needing_notify_at` at the time read from the transport's clock.
    pub fn idle_endpoints_needing_notify(&self) -> (r: Vec<Endpoint>)
        ensures
            exists|now: u128| r@ == idle_candidates(self@, now),
    {
        let now = self.now();
        let r = self.idle_endpoints_needing_notify_at(now);
        proof { assert(r@ == idle_candidates(self@, now)); }
        r
    }

    /// Creates the record of a new endpoint whose timeout is `timeout` nanoseconds.
    /// Fails when the endpoint already has one.
    pub fn new_endpoint(&mut self, endpoint: Endpoint, timeout: u128) -> (r: Result<TransportRsp, TransportEndpointDataError>)
        requires
            old(self).wf(),
        ensures
            final(self).wf(),
            has_endpoint(old(self)@, endpoint) ==> {
                &&& r == Err::<TransportRsp, TransportEndpointDataError>(
                        TransportEndpointDataError::EndpointExists { endpoint, entry_found: endpoint })
                &&& final(self)@ == old(self)@
            },
            !has_endpoint(old(self)@, endpoint) ==> {
                &&& r == Ok::<TransportRsp, TransportEndpointDataError>(TransportRsp::Accepted)
                &&& final(self)@ == old(self)@.push(EndpointView { endpoint, meta: fresh_meta(timeout), transmit: Seq::empty() })
            },
    {
        match self.position(endpoint) {
            Some(i) => {
                Err(TransportEndpointDataError::EndpointExists { endpoint, entry_found: self.records[i].endpoint })
            },
            None => {
                let ghost s0 = self.records@;
                let rec = EndpointRecord { endpoint, meta: EndpointMeta::new(timeout), transmit: Vec::new() };
                self.records.push(rec);
                proof {
                    assert forall|a: int, b: int| 0 <= a < b < self.records@.len()
                        implies #[trigger] self.records@[a].endpoint != #[trigger] self.records@[b].endpoint by {
                        if b == s0.len() {
                            assert(old(self)@[a].endpoint == s0[a].endpoint);
                        }
                    }
                    assert(self@ =~= old(self)@.push(EndpointView { endpoint, meta: fresh_meta(timeout), transmit: Seq::empty() }));
                }
                Ok(TransportRsp::Accepted)
            },
        }
    }
}

/// `r` holds, in order, clones of the packets of `d`, each with the same endpoint.
pub open spec fn clones_of<P: Clone>(r: Seq<(P, Endpoint)>, d: Seq<(P, Endpoint)>) -> bool {
    &&& r.len() == d.len()
    &&& forall|k: int| 0 <= k < d.len() ==> #[trigger] r[k].1 == d[k].1 && cloned(d[k].0, r[k].0)
}

impl<P: Clone> TransportEndpointData<P> {
    /// No queued packet's retry count is at its largest value yet.
    pub open spec fn retry_counts_bounded(&self) -> bool {
        forall|i: int, j: int| 0 <= i < self.records@.len() && 0 <= j < self.records@[i].transmit@.len()
            ==> #[trigger] self.records@[i].transmit@[j].info.retry_count < usize::MAX
    }

    /// Whether `retry_counts_bounded` holds.
    pub fn retry_counts_fit(&self) -> (r: bool)
        ensures
            r == self.retry_counts_bounded(),
    {
        let mut i: usize = 0;
        while i < self.records.len()
            invariant
                i <= self.records@.len(),
                forall|a: int, b: int| 0 <= a < i && 0 <= b < self.records@[a].transmit@.len()
                    ==> #[trigger] self.records@[a].transmit@[b].info.retry_count < usize::MAX,
            decreases self.records@.len() - i,
        {
            let mut j: usize = 0;
            while j < self.records[i].transmit.len()
                invariant
                    i < self.records@.len(),
                    j <= self.records@[i as int].transmit@.len(),
                    forall|b: int| 0 <= b < j ==> #[trigger] self.records@[i as int].transmit@[b].info.retry_count < usize::MAX,
                decreases self.records@[i as int].transmit@.len() - j,
            {
                if self.records[i].transmit[j].info.retry_count == usize::MAX {
                    return false;
                }
                j = j + 1;
            }
            assert forall|a: int, b: int| 0 <= a < i + 1 && 0 <= b < self.records@[a].transmit@.len()
                implies #[trigger] self.records@[a].transmit@[b].info.retry_count < usize::MAX by {
                if a == i {
                    assert(self.records@[i as int].transmit@[b].info.retry_count < usize::MAX);
                }
            }
            i = i + 1;
        }
        true
    }

    /// A tick at `now`: every queued packet due for a retry is counted as sent again at `now`
    /// and handed back (a clone, with its endpoint) to be sent; a packet past the retry
    /// threshold is noted once.
    pub fn retriable_packets_at(&mut self, now: u128) -> (r: Vec<(P, Endpoint)>)
        requires
            old(self).wf(),
            old(self).retry_counts_bounded(),
        ensures
            final(self).wf(),
            final(self)@ == ticked(old(self)@, now),
            clones_of(r@, due_packets(old(self)@, now)),
    {
        let ghost s0 = self.records@;
        let ghost v0 = self@;
        let mut out: Vec<(P, Endpoint)> = Vec::new();
        let mut i: usize = 0;
        while i < self.records.len()
            invariant
                v0 == old(self)@,
                v0 == s0.map_values(|r: EndpointRecord<P>| r@),
                forall|a: int, b: int| 0 <= a < b < s0.len() ==> #[trigger] s0[a].endpoint != #[trigger] s0[b].endpoint,
                forall|a: int, b: int| 0 <= a < s0.len() && 0 <= b < s0[a].transmit@.len()
                    ==> #[trigger] s0[a].transmit@[b].info.retry_count < usize::MAX,
                self.records@.len() == s0.len(),
                i <= s0.len(),
                forall|a: int| 0 <= a < s0.len() ==> #[trigger] self.records@[a].endpoint == s0[a].endpoint,
                forall|a: int| 0 <= a < i ==> #[trigger] self@[a] == ticked(v0, now)[a],
                forall|a: int| i <= a < s0.len() ==> #[trigger] self.records@[a] == s0[a],
                clones_of(out@, due_packets(v0.take(i as int), now)),
            decreases s0.len() - i,
        {
            let ghost q0 = s0[i as int].transmit@;
            let ghost d0 = due_packets(v0.take(i as int), now);
            let ghost sb = self.records@;
            let ghost vb = self@;
            let endpoint = self.records[i].endpoint;
            let mut j: usize = 0;
            while j < self.records[i].transmit.len()
                invariant
                    i < s0.len(),
                    q0 == s0[i as int].transmit@,
                    forall|b: int| 0 <= b < q0.len() ==> #[trigger] q0[b].info.retry_count < usize::MAX,
                    endpoint == s0[i as int].endpoint,
                    self.records@.len() == s0.len(),
                    self.records@[i as int].endpoint == s0[i as int].endpoint,
                    self.records@[i as int].meta == s0[i as int].meta,
                    self.records@[i as int].transmit@.len() == q0.len(),
                    forall|a: int| 0 <= a < s0.len() && a != i ==> #[trigger] self.records@[a] == sb[a],
                    j <= q0.len(),
                    forall|b: int| 0 <= b < j ==> #[trigger] self.records@[i as int].transmit@[b] == container_after_tick(q0[b], now),
                    forall|b: int| j <= b < q0.len() ==> #[trigger] self.records@[i as int].transmit@[b] == q0[b],
                    clones_of(out@, d0 + due_in(q0.take(j as int), endpoint, now)),
                decreases q0.len() - j,
            {
                let ghost out0 = out@;
                proof {
                    assert(q0.take(j + 1).drop_last() =~= q0.take(j as int));
                }
                let info = self.records[i].transmit[j].info;
                let mut ni = info;
                if info.transmit_interval != 0 && now.saturating_sub(info.last_transmit) > info.transmit_interval {
                    ni.last_transmit = now;
                    ni.retry_count = info.retry_count + 1;
                    let p = self.records[i].transmit[j].packet.clone();
                    out.push((p, endpoint));
                    proof {
                        let d = d0 + due_in(q0.take(j + 1), endpoint, now);
                        assert(d =~= (d0 + due_in(q0.take(j as int), endpoint, now)).push((q0[j as int].packet, endpoint)));
                        assert forall|k: int| 0 <= k < d.len() implies #[trigger] out@[k].1 == d[k].1 && cloned(d[k].0, out@[k].0) by {
                            if k < out0.len() {
                                assert(out@[k] == out0[k]);
                            }
                        }
                    }
                } else {
                    proof {
                        assert(d0 + due_in(q0.take(j + 1), endpoint, now) =~= d0 + due_in(q0.take(j as int), endpoint, now));
                    }
                }
                if ni.retry_count >= TRANSPORT_RETRY_COUNT_LOG_THRESHOLD && !ni.retry_logged {
                    ni.retry_logged = true;
                }
                let ghost sj = self.records@;
                self.records[i].transmit[j].info = ni;
                proof {
                    assert(self.records@[i as int].transmit@ =~= sj[i as int].transmit@.update(j as int,
                        PacketContainer { tid: q0[j as int].tid, packet: q0[j as int].packet, info: ni }));
                    assert(ni == info_after_tick(q0[j as int].info, now));
                }
                j = j + 1;
            }
            proof {
                assert(q0.take(q0.len() as int) =~= q0);
                assert(v0.take(i + 1).drop_last() =~= v0.take(i as int));
                assert(v0[i as int] == s0[i as int]@);
                assert(v0.take(i + 1).last() == v0[i as int]);
                assert(due_packets(v0.take(i + 1), now) == d0 + due_in(q0, endpoint, now));
                let t = ticked(v0, now);
                assert(self@[i as int].transmit =~= t[i as int].transmit);
                assert(self@[i as int] == t[i as int]);
                assert forall|a: int| 0 <= a < i implies #[trigger] self@[a] == t[a] by {
                    assert(self.records@[a] == sb[a]);
                    assert(vb[a] == sb[a]@);
                    assert(vb[a] == t[a]);
                    assert(self@[a] == sb[a]@);
                }
                assert forall|a: int| i + 1 <= a < s0.len() implies #[trigger] self.records@[a] == s0[a] by {
                    assert(self.records@[a] == sb[a]);
                }
            }
            i = i + 1;
        }
        proof {
            assert(v0.take(v0.len() as int) =~= v0);
            assert(self@ =~= ticked(v0, now));
            assert forall|a: int, b: int| 0 <= a < b < self.records@.len()
                implies #[trigger] self.records@[a].endpoint != #[trigger] self.records@[b].endpoint by {
                assert(s0[a].endpoint != s0[b].endpoint);
            }
        }
        out
    }

    /// `retriable_packets_at` at the time read from the transport's clock.
    pub fn retriable_packets(&mut self) -> (r: Vec<(P, Endpoint)>)
        requires
            old(self).wf(),
            old(self).retry_counts_bounded(),
        ensures
            final(self).wf(),
            exists|now: u128| final(self)@ == ticked(old(self)@, now) && clones_of(r@, due_packets(old(self)@, now)),
    {
        let now = self.now();
        let r = self.retriable_packets_at(now);
        proof {
            assert(self@ == ticked(old(self)@, now) && clones_of(r@, due_packets(old(self)@, now)));
        }
        r
    }
}

/// No two records of `s` belong to the same endpoint.
pub open spec fn distinct_endpoints<P>(s: Seq<EndpointView<P>>) -> bool {
    forall|i: int, j: int| 0 <= i < j < s.len() ==> #[trigger] s[i].endpoint != #[trigger] s[j].endpoint
}

/// An endpoint is among `timeout_candidates(s, now)` only when one of its records needs a
/// timeout notice at `now`.
proof fn lemma_timeout_candidate<P>(s: Seq<EndpointView<P>>, now: u128, e: Endpoint)
    requires
        timeout_candidates(s, now).contains(e),
    ensures
        exists|i: int| 0 <= i < s.len() && #[trigger] s[i].endpoint == e && needs_timeout_notice(s[i].meta, now),
    decreases s.len(),
{
    let rest = timeout_candidates(s.drop_last(), now);
    if rest.contains(e) {
        lemma_timeout_candidate(s.drop_last(), now, e);
        let i = choose|i: int| 0 <= i < s.drop_last().len() && #[trigger] s.drop_last()[i].endpoint == e
            && needs_timeout_notice(s.drop_last()[i].meta, now);
        assert(s[i] == s.drop_last()[i]);
    } else {
        let k = choose|k: int| 0 <= k < timeout_candidates(s, now).len() && timeout_candidates(s, now)[k] == e;
        assert(s[s.len() - 1].endpoint == e);
    }
}

/// Law: an endpoint marked as told of its timeout is not reported as timed out again, at any
/// time, until its record is made anew.
pub proof fn law_timeout_reported_once<P>(s: Seq<EndpointView<P>>, e: Endpoint, now: u128)
    ensures
        !timeout_candidates(timeout_marked(s, e), now).contains(e),
{
    let t = timeout_marked(s, e);
    if timeout_candidates(t, now).contains(e) {
        lemma_timeout_candidate(t, now, e);
        let i = choose|i: int| 0 <= i < t.len() && #[trigger] t[i].endpoint == e && needs_timeout_notice(t[i].meta, now);
        assert(t[i].meta.notified_of_timeout);
    }
}

/// Law: a packet queued for an endpoint and then dropped by its transmit identifier (which
/// no packet in the queue had) leaves the records as they were, and the drop succeeds.
pub proof fn law_drop_undoes_push<P>(s: Seq<EndpointView<P>>, e: Endpoint, c: PacketContainer<P>,
    new: Seq<EndpointView<P>>, r: Result<(), TransportEndpointDataError>)
    requires
        distinct_endpoints(s),
        has_endpoint(s, e),
        forall|k: int| 0 <= k < record_of(s, e).transmit.len() ==> #[trigger] record_of(s, e).transmit[k].tid != c.tid,
        drop_packet_outcome(pushed(s, e, c), new, e, c.tid, r),
    ensures
        r is Ok,
        new == s,
{
    let p = pushed(s, e, c);
    let i = choose|i: int| 0 <= i < s.len() && #[trigger] s[i].endpoint == e;
    assert(p[i].endpoint == e);
    assert(has_endpoint(p, e));
    let ip = choose|k: int| 0 <= k < p.len() && #[trigger] p[k].endpoint == e;
    if ip != i {
        if ip < i { assert(s[ip].endpoint != s[i].endpoint); } else { assert(s[i].endpoint != s[ip].endpoint); }
    }
    let is = choose|k: int| 0 <= k < s.len() && #[trigger] s[k].endpoint == e;
    if is != i {
        if is < i { assert(s[is].endpoint != s[i].endpoint); } else { assert(s[i].endpoint != s[is].endpoint); }
    }
    let q0 = s[i].transmit;
    let q = record_of(p, e).transmit;
    assert(q == q0.push(c));
    assert(q[q0.len() as int].tid == c.tid);
    let j = choose|j: int| first_with_tid(q, c.tid, j) && new == packet_dropped(p, e, j);
    if j < q0.len() {
        assert(q[j] == q0[j]);
        assert(record_of(s, e).transmit[j].tid != c.tid);
    }
    assert(j == q0.len());
    assert forall|k: int| 0 <= k < s.len() implies #[trigger] new[k] == s[k] by {
        if s[k].endpoint == e {
            if k != i {
                if k < i { assert(s[k].endpoint != s[i].endpoint); } else { assert(s[i].endpoint != s[k].endpoint); }
            }
            assert(new[k].transmit =~= s[k].transmit);
        }
    }
    assert(new =~= s);
}

/// Records that differ in at most the `i`-th, which keeps its endpoint, keep the endpoints
/// distinct.
proof fn lemma_one_changed<P>(s0: Seq<EndpointRecord<P>>, s1: Seq<EndpointRecord<P>>, i: int)
    requires
        forall|a: int, b: int| 0 <= a < b < s0.len() ==> #[trigger] s0[a].endpoint != #[trigger] s0[b].endpoint,
        0 <= i < s0.len(),
        s1.len() == s0.len(),
        s1[i].endpoint == s0[i].endpoint,
        forall|j: int| 0 <= j < s0.len() && j != i ==> s1[j] == s0[j],
    ensures
        forall|a: int, b: int| 0 <= a < b < s1.len() ==> #[trigger] s1[a].endpoint != #[trigger] s1[b].endpoint,
{
    assert forall|a: int, b: int| 0 <= a < b < s1.len() implies #[trigger] s1[a].endpoint != #[trigger] s1[b].endpoint by {
        assert(s0[a].endpoint != s0[b].endpoint);
    }
}

} // verus!
