//! The transport layer's decisions: what each command from the filter layer does to the
//! endpoint data and what it is answered, what a packet to send needs before and after it is
//! sent, and what a tick of the transmit timer resends and reports. The socket and the
//! channels are driven by the caller, which performs the sends these functions ask for.
use vstd::prelude::*;
use snowflake::ProcessUniqueId;
use crate::common::Endpoint;
use crate::protocol::Packet;
use crate::time::{duration_as_nanos, duration_to_nanos};
use crate::transport::endpoint::{
    clear_outcome, clones_of, drop_endpoint_outcome, drop_packet_outcome, due_packets, fresh_meta, has_endpoint,
    idle_candidates, idle_marked, push_outcome, sent_at, sent_outcome, ticked, timeout_candidates, timeout_marked,
    EndpointView, PacketContainer, PacketInfo, TransportEndpointData,
};
use crate::transport::interface::{PacketSettings, TransportCmd, TransportEndpointDataError, TransportRsp, UDP_MTU_SIZE};

verus! {

/// Why the transport stops processing commands.
#[derive(Debug, Clone, PartialEq, Eq, Structural)]
pub enum TransportCommandError {
    /// The filter layer asked the transport to shut down.
    ShutdownRequested,
}

/// What a command asks of the caller once its effect on the endpoint data is done.
#[derive(Debug)]
pub enum CommandStep {
    /// Send these responses to the filter layer, in order.
    Respond(Vec<TransportRsp>),
    /// Send these packets to `endpoint` one by one, through `send_packet_check`, the socket
    /// and `send_packet_sent`, and answer one response per packet.
    SendEach { endpoint: Endpoint, packet_infos: Vec<PacketSettings>, packets: Vec<Packet> },
}

/// An endpoint operation's failure as the response the filter layer gets.
pub open spec fn response_of(r: Result<(), TransportEndpointDataError>) -> TransportRsp {
    match r {
        Ok(()) => TransportRsp::Accepted,
        Err(error) => TransportRsp::EndpointError { error },
    }
}

fn respond(r: Result<(), TransportEndpointDataError>) -> (rsp: TransportRsp)
    ensures
        rsp == response_of(r),
{
    match r {
        Ok(()) => TransportRsp::Accepted,
        Err(error) => TransportRsp::EndpointError { error },
    }
}

/// Processes one command of the filter layer on the endpoint data.
///
/// `NewEndpoint`, `DropEndpoint`, `DropPacket` and `CancelTransmitQueue` change the endpoint
/// data as the operation of the same name does and are answered `Accepted`, or the error as
/// an `EndpointError`. `SendPackets` is answered `SendPacketsLengthMismatch` when it holds a
/// different number of packets and settings, and otherwise hands its packets to the caller to
/// send. `Shutdown` stops the transport.
pub fn process_transport_command(endpoints: &mut TransportEndpointData<Packet>, command: TransportCmd)
    -> (r: Result<CommandStep, TransportCommandError>)
    requires
        old(endpoints).wf(),
    ensures
        final(endpoints).wf(),
        match command {
            TransportCmd::NewEndpoint { endpoint, timeout } => {
                &&& if has_endpoint(old(endpoints)@, endpoint) {
                    &&& final(endpoints)@ == old(endpoints)@
                    &&& r matches Ok(CommandStep::Respond(v)) && v@ == seq![TransportRsp::EndpointError {
                        error: TransportEndpointDataError::EndpointExists { endpoint, entry_found: endpoint } }]
                } else {
                    &&& final(endpoints)@ == old(endpoints)@.push(EndpointView {
                        endpoint, meta: fresh_meta(duration_as_nanos(timeout)), transmit: Seq::empty() })
                    &&& r matches Ok(CommandStep::Respond(v)) && v@ == seq![TransportRsp::Accepted]
                }
            },
            TransportCmd::SendPackets { endpoint, packet_infos, packets } => {
                &&& final(endpoints)@ == old(endpoints)@
                &&& if packets@.len() != packet_infos@.len() {
                    r matches Ok(CommandStep::Respond(v)) && v@ == seq![TransportRsp::SendPacketsLengthMismatch]
                } else {
                    r matches Ok(CommandStep::SendEach { endpoint: e, packet_infos: pi, packets: ps })
                        && e == endpoint && pi@ == packet_infos@ && ps@ == packets@
                }
            },
            TransportCmd::DropEndpoint { endpoint } => exists|res: Result<(), TransportEndpointDataError>|
                drop_endpoint_outcome(old(endpoints)@, final(endpoints)@, endpoint, res)
                && (r matches Ok(CommandStep::Respond(v)) && v@ == seq![response_of(res)]),
            TransportCmd::DropPacket { endpoint, tid } => exists|res: Result<(), TransportEndpointDataError>|
                drop_packet_outcome(old(endpoints)@, final(endpoints)@, endpoint, tid, res)
                && (r matches Ok(CommandStep::Respond(v)) && v@ == seq![response_of(res)]),
            TransportCmd::CancelTransmitQueue { endpoint } => exists|res: Result<(), TransportEndpointDataError>|
                clear_outcome(old(endpoints)@, final(endpoints)@, endpoint, res)
                && (r matches Ok(CommandStep::Respond(v)) && v@ == seq![response_of(res)]),
            TransportCmd::Shutdown => {
                &&& final(endpoints)@ == old(endpoints)@
                &&& r == Err::<CommandStep, TransportCommandError>(TransportCommandError::ShutdownRequested)
            },
        },
{
    match command {
        TransportCmd::NewEndpoint { endpoint, timeout } => {
            let ns = duration_to_nanos(&timeout);
            let rsp = match endpoints.new_endpoint(endpoint, ns) {
                Ok(rsp) => rsp,
                Err(error) => TransportRsp::EndpointError { error },
            };
            let mut v = Vec::new();
            v.push(rsp);
            proof { assert(v@ =~= seq![rsp]); }
            Ok(CommandStep::Respond(v))
        },
        TransportCmd::SendPackets { endpoint, packet_infos, packets } => {
            if packets.len() != packet_infos.len() {
                let mut v = Vec::new();
                v.push(TransportRsp::SendPacketsLengthMismatch);
                proof { assert(v@ =~= seq![TransportRsp::SendPacketsLengthMismatch]); }
                return Ok(CommandStep::Respond(v));
            }
            Ok(CommandStep::SendEach { endpoint, packet_infos, packets })
        },
        TransportCmd::DropEndpoint { endpoint } => {
            let res = endpoints.drop_endpoint(endpoint);
            let rsp = respond(res);
            let mut v = Vec::new();
            v.push(rsp);
            proof { assert(v@ =~= seq![response_of(res)]); }
            Ok(CommandStep::Respond(v))
        },
        TransportCmd::DropPacket { endpoint, tid } => {
            let res = endpoints.drop_packet(endpoint, tid);
            let rsp = respond(res);
            let mut v = Vec::new();
            v.push(rsp);
            proof { assert(v@ =~= seq![response_of(res)]); }
            Ok(CommandStep::Respond(v))
        },
        TransportCmd::CancelTransmitQueue { endpoint } => {
            let res = endpoints.clear_queue(endpoint);
            let rsp = respond(res);
            let mut v = Vec::new();
            v.push(rsp);
            proof { assert(v@ =~= seq![response_of(res)]); }
            Ok(CommandStep::Respond(v))
        },
        TransportCmd::Shutdown => Err(TransportCommandError::ShutdownRequested),
    }
}

/// Before a packet of `size` bytes (its encoded size) is sent: one larger than the MTU is not
/// sent and is answered `ExceedsMtu`; otherwise `None`, and the caller sends it.
pub fn send_packet_check(pi: &PacketSettings, size: usize) -> (r: Option<TransportRsp>)
    ensures
        size > UDP_MTU_SIZE ==> r == Some(TransportRsp::ExceedsMtu { tid: pi.tid, size, mtu: UDP_MTU_SIZE }),
        size <= UDP_MTU_SIZE ==> r is None,
{
    if size > UDP_MTU_SIZE {
        Some(TransportRsp::ExceedsMtu { tid: pi.tid, size, mtu: UDP_MTU_SIZE })
    } else {
        None
    }
}

/// What sending `p` to `e` at `now`, with retry interval `interval` nanoseconds and transmit
/// identifier `tid`, does to the endpoint data: the send is noted, and when the endpoint is
/// known the packet is queued for retries. `rsp` is the answer.
pub open spec fn packet_sent_outcome(old: Seq<EndpointView<Packet>>, new: Seq<EndpointView<Packet>>, e: Endpoint,
    tid: ProcessUniqueId, p: Packet, interval: u128, now: u128, rsp: TransportRsp) -> bool {
    exists|mid: Seq<EndpointView<Packet>>, r1: Result<(), TransportEndpointDataError>|
        #[trigger] sent_outcome(old, mid, e, now, r1) && if r1 is Err {
            new == mid && rsp == response_of(r1)
        } else {
            exists|r2: Result<(), TransportEndpointDataError>|
                #[trigger] push_outcome(mid, new, e,
                    PacketContainer { tid, packet: p, info: PacketInfo { transmit_interval: interval, last_transmit: now, retry_count: 0, retry_logged: false } },
                    r2) && rsp == response_of(r2)
        }
}

/// After the packet `p`, checked by `send_packet_check`, was sent to `endpoint` at `now`: the
/// send is noted for the endpoint, and the packet queued for retries at its settings' retry
/// interval. Answered `Accepted`, or the endpoint's error (the endpoint is not known).
pub fn send_packet_sent_at(pi: &PacketSettings, p: Packet, endpoints: &mut TransportEndpointData<Packet>, endpoint: Endpoint, now: u128)
    -> (rsp: TransportRsp)
    requires
        old(endpoints).wf(),
    ensures
        final(endpoints).wf(),
        packet_sent_outcome(old(endpoints)@, final(endpoints)@, endpoint, pi.tid, p, duration_as_nanos(pi.retry_interval), now, rsp),
        rsp is Accepted <==> has_endpoint(old(endpoints)@, endpoint),
{
    let ghost s0 = endpoints@;
    let r1 = endpoints.update_last_sent_at(endpoint, now);
    let ghost mid = endpoints@;
    match r1 {
        Err(error) => {
            proof {
                assert(sent_outcome(s0, mid, endpoint, now, r1));
            }
            TransportRsp::EndpointError { error }
        },
        Ok(()) => {
            let interval = duration_to_nanos(&pi.retry_interval);
            let r2 = endpoints.push_transmit_queue_at(endpoint, pi.tid, p, interval, now);
            proof {
                assert(sent_outcome(s0, mid, endpoint, now, r1));
                assert forall|e: Endpoint| has_endpoint(s0, e) implies has_endpoint(mid, e) by {
                    let i = choose|i: int| 0 <= i < s0.len() && #[trigger] s0[i].endpoint == e;
                    assert(mid[i].endpoint == e);
                }
                assert(push_outcome(mid, endpoints@, endpoint,
                    PacketContainer { tid: pi.tid, packet: p, info: PacketInfo { transmit_interval: interval, last_transmit: now, retry_count: 0, retry_logged: false } },
                    r2));
            }
            respond(r2)
        },
    }
}

/// `send_packet_sent_at` at the time read from the transport's clock.
pub fn send_packet_sent(pi: &PacketSettings, p: Packet, endpoints: &mut TransportEndpointData<Packet>, endpoint: Endpoint)
    -> (rsp: TransportRsp)
    requires
        old(endpoints).wf(),
    ensures
        final(endpoints).wf(),
        exists|now: u128| packet_sent_outcome(old(endpoints)@, final(endpoints)@, endpoint, pi.tid, p,
            duration_as_nanos(pi.retry_interval), now, rsp),
        rsp is Accepted <==> has_endpoint(old(endpoints)@, endpoint),
{
    let now = endpoints.now();
    let rsp = send_packet_sent_at(pi, p, endpoints, endpoint, now);
    proof {
        assert(packet_sent_outcome(old(endpoints)@, endpoints@, endpoint, pi.tid, p, duration_as_nanos(pi.retry_interval), now, rsp));
    }
    rsp
}

/// `s` after each send in `sent`, in order, was noted at `now` (a send to an endpoint not known
/// is not noted).
pub open spec fn sends_noted<P>(s: Seq<EndpointView<P>>, sent: Seq<(P, Endpoint)>, now: u128) -> Seq<EndpointView<P>>
    decreases sent.len(),
{
    if sent.len() == 0 {
        s
    } else {
        let t = sends_noted(s, sent.drop_last(), now);
        let e = sent.last().1;
        if has_endpoint(t, e) { sent_at(t, e, now) } else { t }
    }
}

/// `s` after each endpoint of `es`, in order, was marked as told of its timeout (when known
/// and not marked yet).
pub open spec fn timeouts_noted<P>(s: Seq<EndpointView<P>>, es: Seq<Endpoint>) -> Seq<EndpointView<P>>
    decreases es.len(),
{
    if es.len() == 0 {
        s
    } else {
        let t = timeouts_noted(s, es.drop_last());
        let e = es.last();
        if has_endpoint(t, e) && !crate::transport::endpoint::record_of(t, e).meta.notified_of_timeout {
            timeout_marked(t, e)
        } else {
            t
        }
    }
}

/// `s` after each endpoint of `es`, in order, was marked as told that it is idle (when known
/// and not marked yet).
pub open spec fn idles_noted<P>(s: Seq<EndpointView<P>>, es: Seq<Endpoint>) -> Seq<EndpointView<P>>
    decreases es.len(),
{
    if es.len() == 0 {
        s
    } else {
        let t = idles_noted(s, es.drop_last());
        let e = es.last();
        if has_endpoint(t, e) && !crate::transport::endpoint::record_of(t, e).meta.notified_of_idle {
            idle_marked(t, e)
        } else {
            t
        }
    }
}

/// What a tick of the transmit timer asks the caller to do: resend these packets, then tell
/// the filter layer of these timed-out endpoints, then of these idle ones.
#[derive(Debug)]
pub struct TickActions {
    pub resend: Vec<(Packet, Endpoint)>,
    pub timeouts: Vec<Endpoint>,
    pub idles: Vec<Endpoint>,
}

/// What a tick at `now` does: `a` and the records `new` from `old`.
pub open spec fn tick_outcome(old: Seq<EndpointView<Packet>>, new: Seq<EndpointView<Packet>>, a: TickActions, now: u128) -> bool {
    let s2 = sends_noted(ticked(old, now), a.resend@, now);
    let s3 = timeouts_noted(s2, a.timeouts@);
    &&& clones_of(a.resend@, due_packets(old, now))
    &&& a.timeouts@ == timeout_candidates(s2, now)
    &&& a.idles@ == idle_candidates(s3, now)
    &&& new == idles_noted(s3, a.idles@)
}

/// A tick of the transmit timer at `now`: the packets due for a retry are counted as resent
/// and handed back, each endpoint resent to is noted as sent to, then the endpoints that
/// timed out and have not been reported are reported and marked, then likewise the idle ones.
pub fn transmit_tick_at(endpoints: &mut TransportEndpointData<Packet>, now: u128) -> (a: TickActions)
    requires
        old(endpoints).wf(),
        old(endpoints).retry_counts_bounded(),
    ensures
        final(endpoints).wf(),
        tick_outcome(old(endpoints)@, final(endpoints)@, a, now),
{
    let resend = endpoints.retriable_packets_at(now);
    let ghost s1 = endpoints@;
    let mut k: usize = 0;
    while k < resend.len()
        invariant
            endpoints.wf(),
            k <= resend@.len(),
            endpoints@ == sends_noted(s1, resend@.take(k as int), now),
        decreases resend@.len() - k,
    {
        proof {
            assert(resend@.take(k + 1).drop_last() =~= resend@.take(k as int));
        }
        let e = resend[k].1;
        let _ = endpoints.update_last_sent_at(e, now);
        k = k + 1;
    }
    proof {
        assert(resend@.take(resend@.len() as int) =~= resend@);
    }
    let ghost s2 = endpoints@;
    let timeouts = endpoints.timed_out_endpoints_needing_notify_at(now);
    let mut k: usize = 0;
    while k < timeouts.len()
        invariant
            endpoints.wf(),
            k <= timeouts@.len(),
            endpoints@ == timeouts_noted(s2, timeouts@.take(k as int)),
        decreases timeouts@.len() - k,
    {
        proof {
            assert(timeouts@.take(k + 1).drop_last() =~= timeouts@.take(k as int));
        }
        let _ = endpoints.mark_endpoint_as_timeout_notified(timeouts[k]);
        k = k + 1;
    }
    proof {
        assert(timeouts@.take(timeouts@.len() as int) =~= timeouts@);
    }
    let ghost s3 = endpoints@;
    let idles = endpoints.idle_endpoints_needing_notify_at(now);
    let mut k: usize = 0;
    while k < idles.len()
        invariant
            endpoints.wf(),
            k <= idles@.len(),
            endpoints@ == idles_noted(s3, idles@.take(k as int)),
        decreases idles@.len() - k,
    {
        proof {
            assert(idles@.take(k + 1).drop_last() =~= idles@.take(k as int));
        }
        let _ = endpoints.mark_endpoint_as_idle_notified(idles[k]);
        k = k + 1;
    }
    proof {
        assert(idles@.take(idles@.len() as int) =~= idles@);
    }
    TickActions { resend, timeouts, idles }
}

/// `transmit_tick_at` at the time read from the transport's clock.
pub fn transmit_tick(endpoints: &mut TransportEndpointData<Packet>) -> (a: TickActions)
    requires
        old(endpoints).wf(),
        old(endpoints).retry_counts_bounded(),
    ensures
        final(endpoints).wf(),
        exists|now: u128| tick_outcome(old(endpoints)@, final(endpoints)@, a, now),
{
    let now = endpoints.now();
    let a = transmit_tick_at(endpoints, now);
    proof { assert(tick_outcome(old(endpoints)@, endpoints@, a, now)); }
    a
}

} // verus!
