//! The filter layer's state machine: what it does with each packet from the transport layer
//! and each command from the application layer, and the sequence number bookkeeping it rests
//! on. Instead of sending, it appends the transport commands and application notices it
//! produces to the vectors it is given, in order; the caller sends them.
use vstd::prelude::*;
use snowflake::ProcessUniqueId;
use crate::common::Endpoint;
use crate::filter::client_update::{diff_part_taken, ClientRoom};
use crate::filter::error::FilterError;
use crate::filter::interface::{AuthDecision, ClientAuthFields, FilterCmd, FilterMode, FilterNotice};
use crate::filter::per_endpoint::{
    code_sent, game_updates_acked, gens_acked, next_sequence, sends_once, wadd, sent_once, no_retry_packet_info_vec, FilterEndpointData, OtherEndClient, OtherEndServer,
    PerEndpoint,
};
use crate::filter::ping::{pong_taken, LatencyFilter, PingId, PingPong};
use crate::filter::sortedbuffer::high_half;
use crate::common::GenStateDiff;
use crate::protocol::{GameUpdate, Packet, RequestAction, ResponseCode};
use crate::transport::interface::TransportNotice;
use crate::filter::per_endpoint::{codes_resent, first_deletion, lemma_prefix_trans, passed_on, processed_end, rooms_chain, seq_after, start_index};
use crate::filter::client_update::{latest_chat, new_chats};
use crate::time::{duration_from_millis, millis_to_duration};
use crate::transport::interface::{new_tid, PacketSettings, TransportCmd};

verus! {

/// Half of the range of a `u64` (`u64::MAX / 2`). Two sequence numbers further apart than this
/// are taken to lie on opposite sides of a numerical wrap.
pub const HALFWAYPOINT: u64 = 0x7fff_ffff_ffff_ffff;

/// Distance between `a` and `b` exceeds half of the `u64` range.
pub open spec fn far_apart(a: u64, b: u64) -> bool {
    if a > b {
        a - b > HALFWAYPOINT
    } else {
        b - a > HALFWAYPOINT
    }
}

/// How an incoming sequence number relates to the last one seen.
#[derive(PartialEq, Eq, Debug, Structural)]
pub enum SeqNumAdvancement {
    BrandNew,
    Contiguous,
    OutOfOrder,
    Duplicate,
}

/// The successor of `s` on the wrapping `u64` circle.
pub open spec fn seq_successor(s: u64) -> u64 {
    if s == u64::MAX { 0 } else { (s + 1) as u64 }
}

/// Classification of `pkt_sequence` against `last_seen_sn`: nothing seen yet gives `BrandNew`;
/// the (wrapping) successor gives `Contiguous`; a number at or below the last one seen is a
/// `Duplicate` unless it is more than half the range away (then it lies past a wrap and is
/// `OutOfOrder`); anything else above is `OutOfOrder`.
pub open spec fn spec_seq_num_advancement(pkt_sequence: u64, last_seen_sn: Option<u64>) -> SeqNumAdvancement {
    match last_seen_sn {
        None => SeqNumAdvancement::BrandNew,
        Some(last) => {
            if pkt_sequence == seq_successor(last) {
                SeqNumAdvancement::Contiguous
            } else if pkt_sequence <= last {
                if far_apart(pkt_sequence, last) {
                    SeqNumAdvancement::OutOfOrder
                } else {
                    SeqNumAdvancement::Duplicate
                }
            } else {
                SeqNumAdvancement::OutOfOrder
            }
        },
    }
}

/// Law: the successor (on the wrapping circle) of the last number seen is contiguous, and
/// the last number seen itself is a duplicate.
pub proof fn law_successor_is_contiguous(last: u64)
    ensures
        spec_seq_num_advancement(seq_successor(last), Some(last)) == SeqNumAdvancement::Contiguous,
        spec_seq_num_advancement(last, Some(last)) == SeqNumAdvancement::Duplicate,
{
}

/// Law: a number at most half the range below the last one seen (and not its successor) is a
/// duplicate; one more than half the range below it lies past a wrap and is out of order.
pub proof fn law_earlier_numbers(seq: u64, last: u64)
    requires
        seq <= last,
        seq != seq_successor(last),
    ensures
        last - seq <= HALFWAYPOINT ==> spec_seq_num_advancement(seq, Some(last)) == SeqNumAdvancement::Duplicate,
        last - seq > HALFWAYPOINT ==> spec_seq_num_advancement(seq, Some(last)) == SeqNumAdvancement::OutOfOrder,
{
}

/// Whether `a` and `b` are more than half of the `u64` range apart.
pub fn is_seq_sufficiently_far_away(a: u64, b: u64) -> (r: bool)
    ensures
        r == far_apart(a, b),
{
    if a > b {
        a - b > HALFWAYPOINT
    } else {
        b - a > HALFWAYPOINT
    }
}

/// Decides whether a packet with sequence number `pkt_sequence` can be handed up right away
/// (`Contiguous` or `BrandNew`), must wait for earlier ones (`OutOfOrder`), or was already seen
/// (`Duplicate`), given the last sequence number seen in the same direction.
pub fn determine_seq_num_advancement(pkt_sequence: u64, last_seen_sn: Option<u64>) -> (r: SeqNumAdvancement)
    ensures
        r == spec_seq_num_advancement(pkt_sequence, last_seen_sn),
{
    if let Some(last_sn) = last_seen_sn {
        if pkt_sequence == last_sn.wrapping_add(1) {
            SeqNumAdvancement::Contiguous
        } else if pkt_sequence <= last_sn {
            if is_seq_sufficiently_far_away(pkt_sequence, last_sn) {
                SeqNumAdvancement::OutOfOrder
            } else {
                SeqNumAdvancement::Duplicate
            }
        } else {
            SeqNumAdvancement::OutOfOrder
        }
    } else {
        SeqNumAdvancement::BrandNew
    }
}

/// A request with sequence number `seq` is acknowledged by an acknowledgement of `ack`: either
/// it is at or below `ack`, or it lies above `ack` but past a wrap.
pub open spec fn acked_by(seq: u64, ack: u64) -> bool {
    seq <= ack || (far_apart(seq, ack) && seq >= ack)
}

/// Removes from the front of `unacked` every entry acknowledged by `ack_seq`, stopping at the
/// first entry that is not, and returns the identifiers of the removed entries in order.
pub fn take_tids_to_drop<I>(unacked: &mut std::collections::VecDeque<(u64, I)>, ack_seq: u64) -> (tids: Vec<I>)
    ensures
        tids@.len() <= old(unacked)@.len(),
        forall|i: int| 0 <= i < tids@.len() ==> acked_by(#[trigger] old(unacked)@[i].0, ack_seq),
        forall|i: int| 0 <= i < tids@.len() ==> #[trigger] tids@[i] == old(unacked)@[i].1,
        tids@.len() < old(unacked)@.len() ==> !acked_by(old(unacked)@[tids@.len() as int].0, ack_seq),
        final(unacked)@ == old(unacked)@.skip(tids@.len() as int),
{
    let mut tids_to_drop: Vec<I> = Vec::new();
    let ghost orig = unacked@;
    loop
        invariant
            orig == old(unacked)@,
            tids_to_drop@.len() + unacked@.len() == orig.len(),
            unacked@ == orig.skip(tids_to_drop@.len() as int),
            forall|i: int| 0 <= i < tids_to_drop@.len() ==> acked_by(#[trigger] orig[i].0, ack_seq),
            forall|i: int| 0 <= i < tids_to_drop@.len() ==> #[trigger] tids_to_drop@[i] == orig[i].1,
        ensures
            unacked@ == orig.skip(tids_to_drop@.len() as int),
            tids_to_drop@.len() <= orig.len(),
            forall|i: int| 0 <= i < tids_to_drop@.len() ==> acked_by(#[trigger] orig[i].0, ack_seq),
            forall|i: int| 0 <= i < tids_to_drop@.len() ==> #[trigger] tids_to_drop@[i] == orig[i].1,
            tids_to_drop@.len() < orig.len() ==> !acked_by(orig[tids_to_drop@.len() as int].0, ack_seq),
        decreases unacked@.len(),
    {
        if unacked.len() == 0 {
            return tids_to_drop;
        }
        let seq_at_front = unacked[0].0;
        if seq_at_front <= ack_seq || (is_seq_sufficiently_far_away(seq_at_front, ack_seq) && seq_at_front >= ack_seq) {
            let front = unacked.pop_front();
            match front {
                Some(entry) => {
                    tids_to_drop.push(entry.1);
                },
                None => {},
            }
        } else {
            return tids_to_drop;
        }
    }
}

/// The number of leading entries of `unacked` that `ack` acknowledges (see `acked_by`).
pub open spec fn acked_run<I>(unacked: Seq<(u64, I)>, ack: u64) -> nat
    decreases unacked.len(),
{
    if unacked.len() == 0 || !acked_by(unacked[0].0, ack) {
        0
    } else {
        1 + acked_run(unacked.drop_first(), ack)
    }
}

/// A count `k` of leading acknowledged entries, with the next one (if any) not acknowledged,
/// is `acked_run`.
proof fn lemma_acked_run<I>(unacked: Seq<(u64, I)>, ack: u64, k: int)
    requires
        0 <= k <= unacked.len(),
        forall|i: int| 0 <= i < k ==> acked_by(#[trigger] unacked[i].0, ack),
        k < unacked.len() ==> !acked_by(unacked[k].0, ack),
    ensures
        acked_run(unacked, ack) == k,
    decreases unacked.len(),
{
    if unacked.len() > 0 && k > 0 {
        let d = unacked.drop_first();
        assert(acked_by(unacked[0].0, ack));
        assert forall|i: int| 0 <= i < k - 1 implies acked_by(#[trigger] d[i].0, ack) by {
            assert(d[i] == unacked[i + 1]);
        }
        if k - 1 < d.len() {
            assert(d[k - 1] == unacked[k]);
        }
        lemma_acked_run(d, ack, k - 1);
    }
}

/// What the request acknowledgement `ack` of a response does to the identifiers of the packets
/// sent to a server and not yet acknowledged (`u0` giving `u1`) and to the transport commands
/// (`c0` giving `c1`): without one, nothing; with one, the leading identifiers it acknowledges
/// are dropped, and the transport is told to drop each of those packets, in order.
pub open spec fn request_acks_taken(u0: Seq<(u64, ProcessUniqueId)>, u1: Seq<(u64, ProcessUniqueId)>,
    c0: Seq<TransportCmd>, c1: Seq<TransportCmd>, ack: Option<u64>, endpoint: Endpoint) -> bool {
    match ack {
        None => u1 == u0 && c1 == c0,
        Some(a) => {
            let n = acked_run(u0, a);
            &&& u1 == u0.skip(n as int)
            &&& c1 == c0 + Seq::new(n, |i: int| TransportCmd::DropPacket { endpoint, tid: u0[i].1 })
        },
    }
}

/// Milliseconds between resends of a request.
pub const DEFAULT_RETRY_INTERVAL_MS: u64 = 250;
/// Milliseconds of silence after which an endpoint times out.
pub const DEFAULT_ENDPOINT_TIMEOUT_MS: u64 = 5000;

/// A request to connect that carries no cookie.
pub open spec fn valid_connect(packet: Packet) -> bool {
    packet matches Packet::Request { action: RequestAction::Connect { .. }, cookie: None, .. }
}

/// Whether `packet` is a request to connect without a cookie (a new client).
pub fn is_valid_connect_packet(packet: &Packet) -> (r: bool)
    ensures
        r == valid_connect(*packet),
{
    match packet {
        Packet::Request { action: RequestAction::Connect { .. }, cookie: None, .. } => true,
        _ => false,
    }
}

/// What a new client's connect request tells the application for its authentication: the
/// player's name and client version; `None` for any other packet.
pub fn client_auth_fields_from_connect_packet(packet: &Packet) -> (r: Option<ClientAuthFields>)
    ensures
        match *packet {
            Packet::Request { action: RequestAction::Connect { name, client_version }, cookie: None, .. } => r matches Some(f)
                && f.player_name == name && f.client_version == client_version,
            _ => r is None,
        },
{
    match packet {
        Packet::Request { action: RequestAction::Connect { name, client_version }, cookie: None, .. } => {
            Some(ClientAuthFields { player_name: name.clone(), client_version: client_version.clone() })
        },
        _ => None,
    }
}

/// The filter layer of one process: its mode, its peers, the servers it pings and the
/// clients whose authentication awaits the application.
pub struct Filter {
    pub mode: FilterMode,
    pub per_endpoint: PerEndpoint,
    /// Servers pinged for their status, with their latency filters; endpoints occur once and
    /// need not be peers.
    pub ping_endpoints: Vec<(Endpoint, LatencyFilter<PingPong>)>,
    pub auth_requests: Vec<Endpoint>,
}

impl Filter {
    pub open spec fn wf(&self) -> bool {
        &&& self.per_endpoint.wf()
        &&& forall|i: int, j: int| 0 <= i < j < self.ping_endpoints@.len() ==> #[trigger] self.ping_endpoints@[i].0 != #[trigger] self.ping_endpoints@[j].0
        &&& forall|i: int| 0 <= i < self.ping_endpoints@.len() ==> (#[trigger] self.ping_endpoints@[i]).1.wf()
    }

    /// The endpoints pinged.
    pub open spec fn pinged(&self, e: Endpoint) -> bool {
        exists|i: int| 0 <= i < self.ping_endpoints@.len() && #[trigger] self.ping_endpoints@[i].0 == e
    }

    pub fn new(mode: FilterMode) -> (r: Self)
        ensures
            r.wf(),
            r.mode == mode,
            r.per_endpoint@ == Map::<Endpoint, FilterEndpointData>::empty(),
            r.ping_endpoints@.len() == 0,
            r.auth_requests@.len() == 0,
    {
        Filter { mode, per_endpoint: PerEndpoint::new(), ping_endpoints: Vec::new(), auth_requests: Vec::new() }
    }

    fn ping_index(&self, e: &Endpoint) -> (r: Option<usize>)
        ensures
            match r {
                Some(i) => i < self.ping_endpoints@.len() && self.ping_endpoints@[i as int].0 == *e,
                None => !self.pinged(*e),
            },
    {
        let mut i: usize = 0;
        while i < self.ping_endpoints.len()
            invariant
                i <= self.ping_endpoints@.len(),
                forall|j: int| 0 <= j < i ==> self.ping_endpoints@[j].0 != *e,
            decreases self.ping_endpoints@.len() - i,
        {
            if self.ping_endpoints[i].0 == *e {
                return Some(i);
            }
            i = i + 1;
        }
        None
    }

    /// Tells an unknown client it is not connected (sent once).
    pub fn send_not_connected(&self, endpoint: Endpoint, cmds: &mut Vec<TransportCmd>)
        ensures
            final(cmds)@ == old(cmds)@.push(final(cmds)@.last()),
            not_connected_reply(final(cmds)@.last(), endpoint),
    {
        let mut packets: Vec<Packet> = Vec::new();
        packets.push(Packet::Response {
            code: ResponseCode::NotConnected { error_msg: String::from_str("Unknown client") },
            sequence: 1,
            request_ack: None,
        });
        let ghost c0 = cmds@;
        cmds.push(TransportCmd::SendPackets { endpoint, packet_infos: no_retry_packet_info_vec(1), packets });
        proof {
            reveal_strlit("Unknown client");
            assert(cmds@ =~= c0.push(cmds@.last()));
        }
    }

    /// Answers a status request of `endpoint` (sent once). Only a server has a status.
    pub fn send_server_status(&mut self, endpoint: Endpoint, ping: PingPong, cmds: &mut Vec<TransportCmd>)
        requires
            old(self).mode is Server,
        ensures
            *final(self) == *old(self),
            final(cmds)@.len() == old(cmds)@.len() + 1,
            final(cmds)@.drop_last() == old(cmds)@,
            final(cmds)@.last() matches TransportCmd::SendPackets { endpoint: e, packet_infos, packets }
                && e == endpoint && sent_once(packet_infos@, 1) && packets@.len() == 1
                && packets@[0] == (Packet::Status {
                    pong: ping,
                    server_version: old(self).mode->0.server_version,
                    player_count: old(self).mode->0.player_count,
                    room_count: old(self).mode->0.room_count,
                    server_name: old(self).mode->0.server_name,
                }),
    {
        let packet = match &self.mode {
            FilterMode::Server(status) => status.to_packet(ping),
            FilterMode::Client => Packet::GetStatus { ping },
        };
        let mut packets: Vec<Packet> = Vec::new();
        packets.push(packet);
        let ghost c0 = cmds@;
        cmds.push(TransportCmd::SendPackets { endpoint, packet_infos: no_retry_packet_info_vec(1), packets });
        proof {
            reveal_strlit("Unknown client");
            assert(cmds@ =~= c0.push(cmds@.last()));
        }
    }

    /// Sends a ping to every server pinged, starting their latency measurements.
    pub fn send_pings(&mut self, cmds: &mut Vec<TransportCmd>)
        requires
            old(self).wf(),
        ensures
            final(self).wf(),
            final(self).mode == old(self).mode,
            final(self).per_endpoint == old(self).per_endpoint,
            final(self).auth_requests == old(self).auth_requests,
            final(self).ping_endpoints@.len() == old(self).ping_endpoints@.len(),
            final(cmds)@.len() == old(cmds)@.len() + old(self).ping_endpoints@.len(),
            final(cmds)@.take(old(cmds)@.len() as int) == old(cmds)@,
            forall|i: int| 0 <= i < old(self).ping_endpoints@.len() ==> {
                &&& (#[trigger] final(self).ping_endpoints@[i]).0 == old(self).ping_endpoints@[i].0
                &&& final(cmds)@[old(cmds)@.len() + i] matches TransportCmd::SendPackets { endpoint, packet_infos, packets }
                    && endpoint == old(self).ping_endpoints@[i].0 && sent_once(packet_infos@, 1) && packets@.len() == 1
                    && (packets@[0] matches Packet::GetStatus { ping }
                    && final(self).ping_endpoints@[i].1.in_flight().contains(ping.nonce))
            },
    {
        let ghost c0 = cmds@;
        let ghost p0 = self.ping_endpoints@;
        let mut taken: Vec<(Endpoint, LatencyFilter<PingPong>)> = Vec::new();
        std::mem::swap(&mut taken, &mut self.ping_endpoints);
        let mut done: Vec<(Endpoint, LatencyFilter<PingPong>)> = Vec::new();
        let n = taken.len();
        let mut i: usize = 0;
        proof {
            assert(taken@ =~= p0.skip(0));
            assert(cmds@.take(c0.len() as int) =~= c0);
        }
        while i < n
            invariant
                n == p0.len(),
                i <= n,
                taken@ == p0.skip(i as int),
                done@.len() == i,
                cmds@.len() == c0.len() + i,
                cmds@.take(c0.len() as int) == c0,
                forall|a: int, b: int| 0 <= a < b < p0.len() ==> #[trigger] p0[a].0 != #[trigger] p0[b].0,
                forall|j: int| 0 <= j < p0.len() ==> (#[trigger] p0[j]).1.wf(),
                forall|j: int| 0 <= j < i ==> {
                    &&& (#[trigger] done@[j]).0 == p0[j].0
                    &&& done@[j].1.wf()
                    &&& cmds@[c0.len() + j] matches TransportCmd::SendPackets { endpoint, packet_infos, packets }
                        && endpoint == p0[j].0 && sent_once(packet_infos@, 1) && packets@.len() == 1
                        && (packets@[0] matches Packet::GetStatus { ping } && done@[j].1.in_flight().contains(ping.nonce))
                },
            decreases n - i,
        {
            let (endpoint, mut latency_filter) = taken.remove(0);
            proof {
                assert(p0[i as int] == (endpoint, latency_filter));
                assert(taken@ =~= p0.skip(i + 1));
            }
            let pingpong = PingPong::ping();
            let mut packets: Vec<Packet> = Vec::new();
            packets.push(Packet::GetStatus { ping: pingpong });
            let ghost cb = cmds@;
            cmds.push(TransportCmd::SendPackets { endpoint, packet_infos: no_retry_packet_info_vec(1), packets });
            latency_filter.start(pingpong);
            let ghost db = done@;
            done.push((endpoint, latency_filter));
            proof {
                assert(cmds@.take(c0.len() as int) =~= cb.take(c0.len() as int));
                assert forall|j: int| 0 <= j < i + 1 implies {
                    &&& (#[trigger] done@[j]).0 == p0[j].0
                    &&& done@[j].1.wf()
                    &&& cmds@[c0.len() + j] matches TransportCmd::SendPackets { endpoint, packet_infos, packets }
                        && endpoint == p0[j].0 && sent_once(packet_infos@, 1) && packets@.len() == 1
                        && (packets@[0] matches Packet::GetStatus { ping } && done@[j].1.in_flight().contains(ping.nonce))
                } by {
                    if j < i {
                        assert(done@[j] == db[j]);
                        assert(cmds@[c0.len() + j] == cb[c0.len() + j]);
                    }
                }
            }
            i = i + 1;
        }
        proof {
            assert forall|a: int, b: int| 0 <= a < b < done@.len() implies #[trigger] done@[a].0 != #[trigger] done@[b].0 by {
                assert(p0[a].0 != p0[b].0);
            }
        }
        self.ping_endpoints = done;
    }
}

/// The error for a peer at the other end that is not of the kind expected.
pub open spec fn is_unexpected_data(e: FilterError) -> bool {
    e is UnexpectedData
}

impl Filter {
    /// Takes the record of the client at `endpoint` out (to be put back): an error if there
    /// is none, or if a server is at the other end (then nothing changes).
    fn take_client(&mut self, endpoint: Endpoint, what: &str) -> (r: Result<OtherEndClient, FilterError>)
        requires
            old(self).wf(),
        ensures
            final(self).wf(),
            final(self).mode == old(self).mode,
            final(self).ping_endpoints == old(self).ping_endpoints,
            final(self).auth_requests == old(self).auth_requests,
            match r {
                Ok(c) => old(self).per_endpoint@.contains_key(endpoint)
                    && old(self).per_endpoint@[endpoint] == FilterEndpointData::OtherEndClient(c)
                    && final(self).per_endpoint@ == old(self).per_endpoint@.remove(endpoint) && c.wf(),
                Err(e) => final(self).per_endpoint@ == old(self).per_endpoint@ && if old(self).per_endpoint@.contains_key(endpoint) {
                    old(self).per_endpoint@[endpoint] is OtherEndServer && e is UnexpectedData
                } else {
                    e == FilterError::EndpointNotFound { endpoint }
                },
            },
    {
        match self.per_endpoint.remove(&endpoint) {
            None => Err(FilterError::EndpointNotFound { endpoint }),
            Some(FilterEndpointData::OtherEndClient(c)) => {
                proof {
                    assert(old(self).per_endpoint.wf());
                    let es = old(self).per_endpoint.entries@;
                    let j = choose|j: int| 0 <= j < es.len() && #[trigger] es[j].0 == endpoint;
                    assert(es[j].1.wf());
                }
                Ok(c)
            },
            Some(data) => {
                proof {
                    let es = old(self).per_endpoint.entries@;
                    let j = choose|j: int| 0 <= j < es.len() && #[trigger] es[j].0 == endpoint;
                    assert(es[j].1.wf());
                }
                self.per_endpoint.insert(endpoint, data);
                proof {
                    assert(self.per_endpoint@ =~= old(self).per_endpoint@);
                }
                Err(FilterError::UnexpectedData { mode: self.mode.clone(), invalid_data: what.to_owned() })
            },
        }
    }

    /// Takes the record of the server at `endpoint` out (to be put back): an error if there
    /// is none, or if a client is at the other end (then nothing changes).
    fn take_server(&mut self, endpoint: Endpoint, what: &str) -> (r: Result<OtherEndServer, FilterError>)
        requires
            old(self).wf(),
        ensures
            final(self).wf(),
            final(self).mode == old(self).mode,
            final(self).ping_endpoints == old(self).ping_endpoints,
            final(self).auth_requests == old(self).auth_requests,
            match r {
                Ok(sv) => old(self).per_endpoint@.contains_key(endpoint)
                    && old(self).per_endpoint@[endpoint] == FilterEndpointData::OtherEndServer(sv)
                    && final(self).per_endpoint@ == old(self).per_endpoint@.remove(endpoint) && sv.wf(),
                Err(e) => final(self).per_endpoint@ == old(self).per_endpoint@ && if old(self).per_endpoint@.contains_key(endpoint) {
                    old(self).per_endpoint@[endpoint] is OtherEndClient && e is UnexpectedData
                } else {
                    e == FilterError::EndpointNotFound { endpoint }
                },
            },
    {
        match self.per_endpoint.remove(&endpoint) {
            None => Err(FilterError::EndpointNotFound { endpoint }),
            Some(FilterEndpointData::OtherEndServer(sv)) => {
                proof {
                    let es = old(self).per_endpoint.entries@;
                    let j = choose|j: int| 0 <= j < es.len() && #[trigger] es[j].0 == endpoint;
                    assert(es[j].1.wf());
                }
                Ok(sv)
            },
            Some(data) => {
                proof {
                    let es = old(self).per_endpoint.entries@;
                    let j = choose|j: int| 0 <= j < es.len() && #[trigger] es[j].0 == endpoint;
                    assert(es[j].1.wf());
                }
                self.per_endpoint.insert(endpoint, data);
                proof {
                    assert(self.per_endpoint@ =~= old(self).per_endpoint@);
                }
                Err(FilterError::UnexpectedData { mode: self.mode.clone(), invalid_data: what.to_owned() })
            },
        }
    }

    /// Sends `action` to the server at `endpoint` as the next request, with retry until
    /// acknowledged (its transmit identifier is kept for that). A keep-alive carries the last
    /// response seen (0 if none).
    pub fn send_request_action_to_server(&mut self, endpoint: Endpoint, action: RequestAction, cmds: &mut Vec<TransportCmd>) -> (r: Result<(), FilterError>)
        requires
            old(self).wf(),
        ensures
            final(self).wf(),
            final(self).mode == old(self).mode,
            final(self).ping_endpoints == old(self).ping_endpoints,
            final(self).auth_requests == old(self).auth_requests,
            r is Err ==> final(self).per_endpoint@ == old(self).per_endpoint@ && final(cmds)@ == old(cmds)@,
            (r is Ok) == (old(self).per_endpoint@.contains_key(endpoint) && old(self).per_endpoint@[endpoint] is OtherEndServer),
            r is Ok ==> {
                &&& final(self).per_endpoint@.contains_key(endpoint)
                &&& final(self).per_endpoint@[endpoint] is OtherEndServer
                &&& request_sent(old(self).per_endpoint@[endpoint]->OtherEndServer_0,
                    final(self).per_endpoint@[endpoint]->OtherEndServer_0, old(cmds)@, final(cmds)@, endpoint, action)
                &&& final(self).per_endpoint@ == old(self).per_endpoint@.insert(endpoint, final(self).per_endpoint@[endpoint])
            },
    {
        let ghost action0 = action;
        let mut server = match self.take_server(endpoint, "ResponseCode") {
            Ok(sv) => sv,
            Err(e) => {
                return Err(e);
            },
        };
        let sequence = match server.last_request_sequence_sent {
            Some(sn) => sn.wrapping_add(1),
            None => 1,
        };
        server.last_request_sequence_sent = Some(sequence);
        let response_ack = server.last_response_sequence_seen;
        let action = match action {
            RequestAction::KeepAlive { .. } => RequestAction::KeepAlive {
                latest_response_ack: match response_ack {
                    Some(a) => a,
                    None => 0,
                },
            },
            other => other,
        };
        let cookie = match &server.cookie {
            Some(c) => Some(c.clone()),
            None => None,
        };
        let mut packets: Vec<Packet> = Vec::new();
        packets.push(Packet::Request { action, cookie, sequence, response_ack });
        let tid = new_tid();
        server.unacked_outgoing_packet_tids.push_back((sequence, tid));
        let mut packet_infos: Vec<PacketSettings> = Vec::new();
        packet_infos.push(PacketSettings { tid, retry_interval: millis_to_duration(DEFAULT_RETRY_INTERVAL_MS) });
        let ghost c0 = cmds@;
        cmds.push(TransportCmd::SendPackets { endpoint, packet_infos, packets });
        let ghost mid = self.per_endpoint@;
        self.per_endpoint.insert(endpoint, FilterEndpointData::OtherEndServer(server));
        proof {
            assert(cmds@.drop_last() =~= c0);
            assert(mid == old(self).per_endpoint@.remove(endpoint));
            assert(self.per_endpoint@ =~= old(self).per_endpoint@.insert(endpoint, self.per_endpoint@[endpoint]));
            let sv = old(self).per_endpoint@[endpoint]->OtherEndServer_0;
            let f = self.per_endpoint@[endpoint]->OtherEndServer_0;
            assert(f.unacked_outgoing_packet_tids@.drop_last() =~= sv.unacked_outgoing_packet_tids@);
            assert(request_sent(sv, f, old(cmds)@, cmds@, endpoint, action0));
        }
        Ok(())
    }
}

/// What sending `action` as the next request (see `Filter::send_request_action_to_server`)
/// makes of the record `before` of the server at `endpoint` and of the transport commands
/// `cmds0`: the request is numbered next, acknowledges the last response seen, carries the
/// server's cookie (a keep-alive carries that last response, 0 if none), and is sent once with
/// retry until acknowledged, its transmit identifier being kept for that.
pub open spec fn request_sent(before: OtherEndServer, after: OtherEndServer, cmds0: Seq<TransportCmd>,
    cmds1: Seq<TransportCmd>, endpoint: Endpoint, action: RequestAction) -> bool {
    let seq = next_sequence(before.last_request_sequence_sent);
    let ack = before.last_response_sequence_seen;
    let sent_action = match action {
        RequestAction::KeepAlive { .. } => RequestAction::KeepAlive {
            latest_response_ack: match ack { Some(a) => a, None => 0 },
        },
        _ => action,
    };
    &&& after == (OtherEndServer {
        last_request_sequence_sent: Some(seq),
        unacked_outgoing_packet_tids: after.unacked_outgoing_packet_tids,
        ..before
    })
    &&& after.unacked_outgoing_packet_tids@.drop_last() == before.unacked_outgoing_packet_tids@
    &&& after.unacked_outgoing_packet_tids@.len() == before.unacked_outgoing_packet_tids@.len() + 1
    &&& after.unacked_outgoing_packet_tids@.last().0 == seq
    &&& cmds1.len() == cmds0.len() + 1
    &&& cmds1.drop_last() == cmds0
    &&& cmds1.last() matches TransportCmd::SendPackets { endpoint: e, packet_infos, packets }
        && e == endpoint && packets@.len() == 1 && packet_infos@.len() == 1
        && packet_infos@[0].tid == after.unacked_outgoing_packet_tids@.last().1
        && packet_infos@[0].retry_interval == duration_from_millis(DEFAULT_RETRY_INTERVAL_MS)
        && (packets@[0] matches Packet::Request { sequence, response_ack, cookie, action: a }
            && sequence == seq && response_ack == ack && cookie == before.cookie && a == sent_action)
}

/// `sv` is the record of a server just connected to as `name`: nothing sent or seen yet.
pub open spec fn fresh_server(sv: OtherEndServer, name: String) -> bool {
    &&& sv.player_name@ == name@
    &&& sv.cookie is None
    &&& sv.response_codes@ == Map::<u64, ResponseCode>::empty()
    &&& sv.last_request_sequence_sent is None
    &&& sv.last_response_sequence_seen is None
    &&& sv.unacked_outgoing_packet_tids@.len() == 0
    &&& sv.auto_request_seqs@.len() == 0
    &&& sv.room is None
    &&& sv.game_update_seq is None
    &&& sv.server_ping == (PingPong { nonce: 0 })
}

/// Removes every occurrence of `e` from `v`, keeping the order of the rest.
fn remove_endpoint(v: &mut Vec<Endpoint>, e: Endpoint)
    ensures
        final(v)@ == old(v)@.filter(|x: Endpoint| x != e),
        forall|i: int| 0 <= i < final(v)@.len() ==> #[trigger] final(v)@[i] != e,
{
    let ghost pred = |x: Endpoint| x != e;
    let mut kept: Vec<Endpoint> = Vec::new();
    let mut i: usize = 0;
    proof {
        reveal_with_fuel(Seq::filter, 1);
        assert(old(v)@.take(0) =~= Seq::<Endpoint>::empty());
    }
    while i < v.len()
        invariant
            i <= v@.len(),
            v@ == old(v)@,
            pred == (|x: Endpoint| x != e),
            kept@ == old(v)@.take(i as int).filter(pred),
        decreases v@.len() - i,
    {
        proof {
            reveal_with_fuel(Seq::filter, 1);
            assert(old(v)@.take(i + 1).drop_last() =~= old(v)@.take(i as int));
        }
        if v[i] != e {
            kept.push(v[i]);
        }
        i = i + 1;
    }
    proof {
        assert(old(v)@.take(old(v)@.len() as int) =~= old(v)@);
        broadcast use vstd::seq_lib::group_filter_ensures;
        assert forall|i: int| 0 <= i < kept@.len() implies #[trigger] kept@[i] != e by {
            assert(pred(kept@[i]));
        }
    }
    *v = kept;
}

impl Filter {
    /// Carries out a command of the application:
    /// - a request to a server (a connect creates the server's record and the transport's
    ///   endpoint; other requests need the record);
    /// - a response code to a client;
    /// - chats to clients (checked to be clients; not sent yet); game updates and diffs (not
    ///   sent yet);
    /// - the application's authentication decision for a client: the response code, keeping
    ///   the cookie of a login; the request is no longer outstanding;
    /// - servers to ping (added once each), or none to ping (their transport endpoints
    ///   dropped);
    /// - dropping an endpoint everywhere;
    /// - a shutdown, answered with the shutdown error;
    /// - changes to a server's status (refused for a client).
    #[verifier::loop_isolation(false)]
    pub fn process_filter_command(&mut self, command: FilterCmd, cmds: &mut Vec<TransportCmd>) -> (r: Result<(), FilterError>)
        requires
            old(self).wf(),
        ensures
            final(self).wf(),
            match command {
                FilterCmd::Shutdown { graceful } => r == Err::<(), FilterError>(FilterError::ShutdownRequested { graceful })
                    && *final(self) == *old(self) && final(cmds)@ == old(cmds)@,
                FilterCmd::SendGameUpdates { .. } | FilterCmd::SendGenStateDiff { .. } => r is Ok
                    && *final(self) == *old(self) && final(cmds)@ == old(cmds)@,
                FilterCmd::SendRequestAction { endpoint, action } => {
                    &&& (!old(self).per_endpoint@.contains_key(endpoint) && !(action is Connect)) ==>
                        r == Err::<(), FilterError>(FilterError::EndpointNotFound { endpoint })
                        && *final(self) == *old(self) && final(cmds)@ == old(cmds)@
                    &&& (!old(self).per_endpoint@.contains_key(endpoint) && action is Connect) ==> {
                        &&& r is Ok
                        &&& final(self).per_endpoint@.contains_key(endpoint)
                        &&& final(self).per_endpoint@[endpoint] is OtherEndServer
                        &&& final(self).per_endpoint@ == old(self).per_endpoint@.insert(endpoint, final(self).per_endpoint@[endpoint])
                        &&& exists|sv: OtherEndServer| #[trigger] fresh_server(sv, action->Connect_name)
                            && request_sent(sv, final(self).per_endpoint@[endpoint]->OtherEndServer_0,
                                old(cmds)@.push(TransportCmd::NewEndpoint { endpoint, timeout: duration_from_millis(DEFAULT_ENDPOINT_TIMEOUT_MS) }),
                                final(cmds)@, endpoint, action)
                    }
                    &&& old(self).per_endpoint@.contains_key(endpoint) ==> {
                        &&& (r is Ok) == (old(self).per_endpoint@[endpoint] is OtherEndServer)
                        &&& r is Ok ==> {
                            &&& final(self).per_endpoint@.contains_key(endpoint)
                            &&& final(self).per_endpoint@[endpoint] is OtherEndServer
                            &&& request_sent(old(self).per_endpoint@[endpoint]->OtherEndServer_0,
                                final(self).per_endpoint@[endpoint]->OtherEndServer_0, old(cmds)@, final(cmds)@, endpoint, action)
                            &&& final(self).per_endpoint@ == old(self).per_endpoint@.insert(endpoint, final(self).per_endpoint@[endpoint])
                        }
                        &&& r is Err ==> final(self).per_endpoint@ == old(self).per_endpoint@ && final(cmds)@ == old(cmds)@
                    }
                },
                FilterCmd::SendResponseCode { endpoint, code } => {
                    &&& (r is Ok) == is_client_peer(*old(self), endpoint)
                    &&& r is Ok ==> {
                        &&& final(self).per_endpoint@.contains_key(endpoint)
                        &&& final(self).per_endpoint@[endpoint] is OtherEndClient
                        &&& final(self).per_endpoint@ == old(self).per_endpoint@.insert(endpoint, final(self).per_endpoint@[endpoint])
                        &&& code_sent(old(self).per_endpoint@[endpoint]->OtherEndClient_0,
                            final(self).per_endpoint@[endpoint]->OtherEndClient_0, old(cmds)@, final(cmds)@, code)
                    }
                    &&& r is Err ==> final(self).per_endpoint@ == old(self).per_endpoint@ && final(cmds)@ == old(cmds)@
                },
                FilterCmd::CompleteAuthRequest { endpoint, decision } => {
                    &&& (r is Ok) == is_client_peer(*old(self), endpoint)
                    &&& r is Ok ==> {
                        let c0 = old(self).per_endpoint@[endpoint]->OtherEndClient_0;
                        let code = <ResponseCode as vstd::std_specs::convert::FromSpec<AuthDecision>>::from_spec(decision);
                        let before = match decision {
                            AuthDecision::LoggedIn { cookie, .. } => OtherEndClient { cookie: Some(cookie), ..c0 },
                            _ => c0,
                        };
                        &&& final(self).per_endpoint@.contains_key(endpoint)
                        &&& final(self).per_endpoint@[endpoint] is OtherEndClient
                        &&& final(self).per_endpoint@ == old(self).per_endpoint@.insert(endpoint, final(self).per_endpoint@[endpoint])
                        &&& code_sent(before, final(self).per_endpoint@[endpoint]->OtherEndClient_0, old(cmds)@, final(cmds)@, code)
                        &&& forall|i: int| 0 <= i < final(self).auth_requests@.len() ==> #[trigger] final(self).auth_requests@[i] != endpoint
                    }
                    &&& r is Err ==> final(self).per_endpoint@ == old(self).per_endpoint@ && final(cmds)@ == old(cmds)@
                },
                FilterCmd::SendChats { endpoints, .. } => {
                    &&& (r is Ok) == (forall|i: int| 0 <= i < endpoints@.len() ==> #[trigger] is_client_peer(*old(self), endpoints@[i]))
                    &&& final(self).per_endpoint@ == old(self).per_endpoint@
                    &&& final(cmds)@ == old(cmds)@
                },
                FilterCmd::AddPingEndpoints { endpoints } => r is Ok && final(self).per_endpoint == old(self).per_endpoint
                    && final(cmds)@ == old(cmds)@
                    && (forall|i: int| 0 <= i < endpoints@.len() ==> final(self).pinged(#[trigger] endpoints@[i]))
                    && (forall|e: Endpoint| #[trigger] final(self).pinged(e) ==> old(self).pinged(e) || endpoints@.contains(e)),
                FilterCmd::ClearPingEndpoints => r is Ok && final(self).ping_endpoints@.len() == 0
                    && final(self).per_endpoint == old(self).per_endpoint
                    && final(cmds)@.len() == old(cmds)@.len() + old(self).ping_endpoints@.len()
                    && final(cmds)@.take(old(cmds)@.len() as int) == old(cmds)@
                    && (forall|i: int| 0 <= i < old(self).ping_endpoints@.len() ==> #[trigger] final(cmds)@[old(cmds)@.len() + i]
                        == (TransportCmd::DropEndpoint { endpoint: old(self).ping_endpoints@[i].0 })),
                FilterCmd::DropEndpoint { endpoint } => r is Ok && !final(self).pinged(endpoint)
                    && final(self).per_endpoint@ == old(self).per_endpoint@.remove(endpoint)
                    && (forall|i: int| 0 <= i < final(self).auth_requests@.len() ==> #[trigger] final(self).auth_requests@[i] != endpoint)
                    && final(cmds)@ == old(cmds)@.push(TransportCmd::DropEndpoint { endpoint }),
                FilterCmd::ChangeServerStatus { server_version, player_count, room_count, server_name } => {
                    &&& (r is Err) == (old(self).mode is Client)
                    &&& r is Err ==> *final(self) == *old(self)
                    &&& r is Ok ==> (final(self).mode matches FilterMode::Server(st) && {
                        let o = old(self).mode->Server_0;
                        &&& st.server_version == match server_version { Some(v) => v, None => o.server_version }
                        &&& st.player_count == match player_count { Some(v) => v, None => o.player_count }
                        &&& st.room_count == match room_count { Some(v) => v, None => o.room_count }
                        &&& st.server_name == match server_name { Some(v) => v, None => o.server_name }
                    })
                    &&& final(cmds)@ == old(cmds)@
                },
            },
    {
        match command {
            FilterCmd::SendRequestAction { endpoint, action } => {
                if !self.per_endpoint.contains_key(&endpoint) {
                    match &action {
                        RequestAction::Connect { name, .. } => {
                            self.per_endpoint.insert(endpoint, FilterEndpointData::OtherEndServer(OtherEndServer::new(name.clone())));
                            cmds.push(TransportCmd::NewEndpoint { endpoint, timeout: millis_to_duration(DEFAULT_ENDPOINT_TIMEOUT_MS) });
                        },
                        _ => {
                            return Err(FilterError::EndpointNotFound { endpoint });
                        },
                    }
                }
                let ghost c1 = cmds@;
                let ghost p1 = self.per_endpoint@;
                let r = self.send_request_action_to_server(endpoint, action, cmds);
                proof {
                    if !old(self).per_endpoint@.contains_key(endpoint) {
                        let sv = p1[endpoint]->OtherEndServer_0;
                        assert(fresh_server(sv, action->Connect_name));
                        assert(c1 == old(cmds)@.push(TransportCmd::NewEndpoint { endpoint, timeout: duration_from_millis(DEFAULT_ENDPOINT_TIMEOUT_MS) }));
                        assert(self.per_endpoint@ =~= old(self).per_endpoint@.insert(endpoint, self.per_endpoint@[endpoint]));
                    }
                }
                r
            },
            FilterCmd::SendResponseCode { endpoint, code } => {
                let mut client = match self.take_client(endpoint, "SendResponseCode") {
                    Ok(c) => c,
                    Err(e) => {
                        return Err(e);
                    },
                };
                client.send_response_code(cmds, code);
                self.per_endpoint.insert(endpoint, FilterEndpointData::OtherEndClient(client));
                Ok(())
            },
            FilterCmd::SendChats { endpoints, messages: _ } => {
                let mut i: usize = 0;
                while i < endpoints.len()
                    invariant
                        self.wf(),
                        i <= endpoints@.len(),
                        self.per_endpoint@ == old(self).per_endpoint@,
                        cmds@ == old(cmds)@,
                        forall|k: int| 0 <= k < i ==> #[trigger] is_client_peer(*old(self), endpoints@[k]),
                    decreases endpoints@.len() - i,
                {
                    let client = match self.take_client(endpoints[i], "Chats are not sent to servers") {
                        Ok(c) => c,
                        Err(e) => {
                            proof {
                                assert(!is_client_peer(*old(self), endpoints@[i as int]));
                            }
                            return Err(e);
                        },
                    };
                    self.per_endpoint.insert(endpoints[i], FilterEndpointData::OtherEndClient(client));
                    proof {
                        assert(self.per_endpoint@ =~= old(self).per_endpoint@);
                    }
                    i = i + 1;
                }
                Ok(())
            },
            FilterCmd::SendGameUpdates { .. } => Ok(()),
            FilterCmd::CompleteAuthRequest { endpoint, decision } => {
                let mut client = match self.take_client(endpoint, "CompleteAuthRequest") {
                    Ok(c) => c,
                    Err(e) => {
                        return Err(e);
                    },
                };
                let code = ResponseCode::from(decision);
                match &code {
                    ResponseCode::LoggedIn { cookie, .. } => {
                        client.cookie = Some(cookie.clone());
                    },
                    _ => {},
                }
                client.send_response_code(cmds, code);
                self.per_endpoint.insert(endpoint, FilterEndpointData::OtherEndClient(client));
                remove_endpoint(&mut self.auth_requests, endpoint);
                Ok(())
            },
            FilterCmd::SendGenStateDiff { .. } => Ok(()),
            FilterCmd::AddPingEndpoints { endpoints } => {
                let mut i: usize = 0;
                while i < endpoints.len()
                    invariant
                        self.wf(),
                        i <= endpoints@.len(),
                        self.per_endpoint == old(self).per_endpoint,
                        self.mode == old(self).mode,
                        self.auth_requests == old(self).auth_requests,
                        forall|k: int| 0 <= k < i ==> self.pinged(#[trigger] endpoints@[k]),
                        forall|e: Endpoint| #[trigger] self.pinged(e) ==> old(self).pinged(e) || endpoints@.contains(e),
                    decreases endpoints@.len() - i,
                {
                    let e = endpoints[i];
                    let ghost s0 = *self;
                    if self.ping_index(&e).is_none() {
                        let ghost p0 = self.ping_endpoints@;
                        self.ping_endpoints.push((e, LatencyFilter::new()));
                        proof {
                            assert forall|a: int, b: int| 0 <= a < b < self.ping_endpoints@.len()
                                implies #[trigger] self.ping_endpoints@[a].0 != #[trigger] self.ping_endpoints@[b].0 by {
                                if b < p0.len() {
                                    assert(p0[a].0 != p0[b].0);
                                } else if p0[a].0 == e {
                                    assert(exists|k: int| 0 <= k < p0.len() && #[trigger] p0[k].0 == e);
                                }
                            }
                            assert forall|j: int| 0 <= j < self.ping_endpoints@.len() implies (#[trigger] self.ping_endpoints@[j]).1.wf() by {
                                if j < p0.len() {
                                    assert(self.ping_endpoints@[j] == p0[j]);
                                }
                            }
                            assert forall|k: int| 0 <= k < i + 1 implies self.pinged(#[trigger] endpoints@[k]) by {
                                if k < i {
                                    let w = choose|w: int| 0 <= w < p0.len() && #[trigger] p0[w].0 == endpoints@[k];
                                    assert(self.ping_endpoints@[w].0 == endpoints@[k]);
                                } else {
                                    assert(self.ping_endpoints@[p0.len() as int].0 == e);
                                }
                            }
                            assert forall|x: Endpoint| #[trigger] self.pinged(x) implies old(self).pinged(x) || endpoints@.contains(x) by {
                                let w = choose|w: int| 0 <= w < self.ping_endpoints@.len() && #[trigger] self.ping_endpoints@[w].0 == x;
                                if w < p0.len() {
                                    assert(p0[w].0 == x);
                                    assert(s0.ping_endpoints@[w].0 == x);
                                    assert(s0.pinged(x));
                                } else {
                                    assert(endpoints@[i as int] == x);
                                }
                            }
                        }
                    } else {
                        proof {
                            assert forall|k: int| 0 <= k < i + 1 implies self.pinged(#[trigger] endpoints@[k]) by {
                                if k == i {
                                    let w = choose|w: int| 0 <= w < self.ping_endpoints@.len() && self.ping_endpoints@[w].0 == e;
                                    assert(self.ping_endpoints@[w].0 == e);
                                }
                            }
                        }
                    }
                    i = i + 1;
                }
                Ok(())
            },
            FilterCmd::ClearPingEndpoints => {
                let ghost c0 = cmds@;
                let mut i: usize = 0;
                proof {
                    assert(cmds@.take(c0.len() as int) =~= c0);
                }
                while i < self.ping_endpoints.len()
                    invariant
                        i <= self.ping_endpoints@.len(),
                        *self == *old(self),
                        cmds@.len() == c0.len() + i,
                        cmds@.take(c0.len() as int) == c0,
                        forall|k: int| 0 <= k < i ==> #[trigger] cmds@[c0.len() + k]
                            == (TransportCmd::DropEndpoint { endpoint: self.ping_endpoints@[k].0 }),
                    decreases self.ping_endpoints@.len() - i,
                {
                    let ghost cb = cmds@;
                    cmds.push(TransportCmd::DropEndpoint { endpoint: self.ping_endpoints[i].0 });
                    proof {
                        assert(cmds@.take(c0.len() as int) =~= cb.take(c0.len() as int));
                        assert forall|k: int| 0 <= k < i + 1 implies #[trigger] cmds@[c0.len() + k]
                            == (TransportCmd::DropEndpoint { endpoint: self.ping_endpoints@[k].0 }) by {
                            if k < i {
                                assert(cmds@[c0.len() + k] == cb[c0.len() + k]);
                            }
                        }
                    }
                    i = i + 1;
                }
                self.ping_endpoints.clear();
                Ok(())
            },
            FilterCmd::DropEndpoint { endpoint } => {
                match self.ping_index(&endpoint) {
                    Some(i) => {
                        let ghost p0 = self.ping_endpoints@;
                        let _ = self.ping_endpoints.remove(i);
                        proof {
                            assert(self.ping_endpoints@ =~= p0.remove(i as int));
                            assert forall|a: int, b: int| 0 <= a < b < self.ping_endpoints@.len()
                                implies #[trigger] self.ping_endpoints@[a].0 != #[trigger] self.ping_endpoints@[b].0 by {
                                let a0 = if a < i { a } else { a + 1 };
                                let b0 = if b < i { b } else { b + 1 };
                                assert(p0[a0].0 != p0[b0].0);
                            }
                            assert forall|j: int| 0 <= j < self.ping_endpoints@.len() implies (#[trigger] self.ping_endpoints@[j]).1.wf() by {
                                let j0 = if j < i { j } else { j + 1 };
                                assert(self.ping_endpoints@[j] == p0[j0]);
                            }
                            assert(!self.pinged(endpoint)) by {
                                if self.pinged(endpoint) {
                                    let w = choose|w: int| 0 <= w < self.ping_endpoints@.len() && #[trigger] self.ping_endpoints@[w].0 == endpoint;
                                    let w0 = if w < i { w } else { w + 1 };
                                    if w0 < i {
                                        assert(p0[w0].0 != p0[i as int].0);
                                    } else {
                                        assert(p0[i as int].0 != p0[w0].0);
                                    }
                                }
                            }
                        }
                    },
                    None => {},
                }
                let _ = self.per_endpoint.remove(&endpoint);
                remove_endpoint(&mut self.auth_requests, endpoint);
                cmds.push(TransportCmd::DropEndpoint { endpoint });
                Ok(())
            },
            FilterCmd::Shutdown { graceful } => Err(FilterError::ShutdownRequested { graceful }),
            FilterCmd::ChangeServerStatus { server_version, player_count, room_count, server_name } => {
                match self.mode.server_status_mut() {
                    Some(server_status) => {
                        if let Some(v) = server_version {
                            server_status.server_version = v;
                        }
                        if let Some(c) = player_count {
                            server_status.player_count = c;
                        }
                        if let Some(c) = room_count {
                            server_status.room_count = c;
                        }
                        if let Some(n) = server_name {
                            server_status.server_name = n;
                        }
                        Ok(())
                    },
                    None => Err(FilterError::UnexpectedData {
                        mode: self.mode.clone(),
                        invalid_data: String::from_str("cannot ChangeServerStatus for a client"),
                    }),
                }
            },
        }
    }
}

/// Whether two cookies are the same (by their text).
fn same_cookie(a: &Option<String>, b: &Option<String>) -> (r: bool)
    ensures
        r == match (*a, *b) {
            (Some(x), Some(y)) => x@ == y@,
            (None, None) => true,
            _ => false,
        },
{
    match (a, b) {
        (Some(x), Some(y)) => *x == *y,
        (None, None) => true,
        _ => false,
    }
}

/// The packet is taken from `endpoint` at all: known peers always; otherwise a server takes
/// status requests and new clients' connect requests, a client the replies of servers it
/// pings.
pub open spec fn admitted(f: Filter, endpoint: Endpoint, packet: Packet) -> bool {
    ||| f.per_endpoint@.contains_key(endpoint)
    ||| (f.mode is Server && (packet is GetStatus || valid_connect(packet)))
    ||| (f.mode is Client && f.pinged(endpoint))
}

/// An update from a server can be processed without overflowing its game update count, and
/// without a match offer in the lobby (which is not supported).
pub open spec fn update_supported(f: Filter, endpoint: Endpoint, packet: Packet) -> bool {
    match packet {
        Packet::Update { game_update_seq, game_updates, .. } => match f.per_endpoint@.get(endpoint) {
            Some(FilterEndpointData::OtherEndServer(sv)) => {
                &&& sv.game_update_seq is None || sv.game_update_seq->0 + game_updates@.len() < u64::MAX
                &&& !(sv.room is None && start_index(sv.game_update_seq, game_update_seq, game_updates@.len() as int) is Some
                    && game_updates@.len() == 1 && game_updates@[0] is Match)
            },
            _ => true,
        },
        _ => true,
    }
}

/// `endpoint` is a server that `f` is connected to.
pub open spec fn is_server_peer(f: Filter, endpoint: Endpoint) -> bool {
    f.per_endpoint@.contains_key(endpoint) && f.per_endpoint@[endpoint] is OtherEndServer
}

/// `endpoint` is a client connected to `f`.
pub open spec fn is_client_peer(f: Filter, endpoint: Endpoint) -> bool {
    f.per_endpoint@.contains_key(endpoint) && f.per_endpoint@[endpoint] is OtherEndClient
}

/// `e` is what `f` answers a packet from `endpoint` that needs a peer of the other kind:
/// `UnexpectedData` when the endpoint is known, `EndpointNotFound` otherwise.
pub open spec fn peer_mismatch(f: Filter, endpoint: Endpoint, e: FilterError) -> bool {
    if f.per_endpoint@.contains_key(endpoint) {
        e is UnexpectedData
    } else {
        e == FilterError::EndpointNotFound { endpoint }
    }
}

/// `new` is `f` but for the record of `endpoint`, which is still a peer of the same kind.
pub open spec fn only_peer_changed(f: Filter, new: Filter, endpoint: Endpoint) -> bool {
    &&& new.per_endpoint@.contains_key(endpoint)
    &&& (new.per_endpoint@[endpoint] is OtherEndServer) == (f.per_endpoint@[endpoint] is OtherEndServer)
    &&& (new.per_endpoint@[endpoint] is OtherEndClient) == (f.per_endpoint@[endpoint] is OtherEndClient)
    &&& new.per_endpoint@.remove(endpoint) == f.per_endpoint@.remove(endpoint)
    &&& new.ping_endpoints == f.ping_endpoints
}

/// The record `c` of a client that has just connected from `endpoint` with the request
/// numbered `seq`: as `OtherEndClient::new` makes it (no cookie, nothing buffered, sent or
/// unacknowledged, no room), with `seq` as the last request seen.
pub open spec fn connected_client(c: OtherEndClient, endpoint: Endpoint, seq: u64) -> bool {
    &&& c.endpoint == endpoint
    &&& c.request_actions@ == Map::<u64, RequestAction>::empty()
    &&& c.last_request_sequence_seen == Some(seq)
    &&& c.last_response_sequence_sent is None
    &&& c.unacked_response_codes@.len() == 0
    &&& c.gen_state_packet_ids@.len() == 0
    &&& c.cookie is None
    &&& c.room is None
    &&& c.old_room_game_updates.seq_view().len() == 0
    &&& c.old_room_game_updates.current() is None
    &&& c.old_room_game_updates.last_acked() is None
    &&& c.game_update_packet_ids@.len() == 0
    &&& c.auto_response_seqs@.len() == 0
    &&& c.app_response_seqs@.len() == 0
}

/// What a request leaves alone in the record `c` of its client (giving `after`): everything but
/// the buffered requests, the last request seen, the room, and the response codes that the
/// request acknowledges; with no response code unacknowledged, those stay too.
pub open spec fn request_kept(c: OtherEndClient, after: OtherEndClient) -> bool {
    &&& after == (OtherEndClient {
        last_request_sequence_seen: after.last_request_sequence_seen,
        request_actions: after.request_actions,
        room: after.room,
        unacked_response_codes: after.unacked_response_codes,
        ..c
    })
    &&& c.unacked_response_codes@.len() == 0 ==> after.unacked_response_codes == c.unacked_response_codes
}

/// A request `packet` gets past the cookie check of a client that logged in with `cookie`:
/// a connect request needs none; another needs the same cookie (or none on both sides).
pub open spec fn cookie_admitted(packet: Packet, cookie: Option<String>) -> bool {
    match packet {
        Packet::Request { action, cookie: pc, .. } => action is Connect || match (pc, cookie) {
            (Some(x), Some(y)) => x@ == y@,
            (None, None) => true,
            _ => false,
        },
        _ => true,
    }
}

/// A packet refused for coming from a peer of the wrong kind changes nothing.
pub open spec fn refused_unchanged(f: Filter, new: Filter, cmds0: Seq<TransportCmd>, cmds1: Seq<TransportCmd>,
    notices0: Seq<FilterNotice>, notices1: Seq<FilterNotice>) -> bool {
    &&& new.per_endpoint@ == f.per_endpoint@
    &&& new.ping_endpoints == f.ping_endpoints
    &&& cmds1 == cmds0
    &&& notices1 == notices0
}

/// `cmd` tells `endpoint` once that it is not connected: a response numbered 1, acknowledging
/// nothing, with the message "Unknown client".
pub open spec fn not_connected_reply(cmd: TransportCmd, endpoint: Endpoint) -> bool {
    cmd matches TransportCmd::SendPackets { endpoint: e, packet_infos, packets }
        && e == endpoint && sent_once(packet_infos@, 1) && packets@.len() == 1
        && (packets@[0] matches Packet::Response { code: ResponseCode::NotConnected { error_msg }, sequence, request_ack }
            && error_msg@ == "Unknown client"@ && sequence == 1 && request_ack is None)
}

/// `s` is held in `m` and is the smallest number held in its half of the range: the one item
/// that a request buffer hands out when asked for `s`.
pub open spec fn next_held<T>(m: Map<u64, T>, s: u64) -> bool {
    &&& m.contains_key(s)
    &&& forall|k: u64| #[trigger] m.contains_key(k) && high_half(k) == high_half(s) ==> s <= k
}

/// `m` once the `n` items numbered `start`, `start + 1`, ... (wrapping) are taken out.
pub open spec fn taken_from<T>(m: Map<u64, T>, start: u64, n: nat) -> Map<u64, T>
    decreases n,
{
    if n == 0 {
        m
    } else {
        taken_from(m, start, (n - 1) as nat).remove(wadd(start, (n - 1) as nat))
    }
}

/// Taking the items of `m` in order from `start` hands out exactly `n` of them: each is the
/// next held one when its turn comes, and the one after them is not.
pub open spec fn drains<T>(m: Map<u64, T>, start: u64, n: nat) -> bool {
    &&& forall|i: nat| i < n ==> #[trigger] next_held(taken_from(m, start, i), wadd(start, i))
    &&& !next_held(taken_from(m, start, n), wadd(start, n))
}

proof fn lemma_taken_from_sub<T>(m: Map<u64, T>, start: u64, n: nat, k: u64)
    requires
        taken_from(m, start, n).contains_key(k),
    ensures
        m.contains_key(k),
        taken_from(m, start, n)[k] == m[k],
    decreases n,
{
    if n > 0 {
        lemma_taken_from_sub(m, start, (n - 1) as nat, k);
    }
}

/// What a request `packet` from the client at `endpoint`, with its cookie admitted, does to the
/// client's record `c` (giving `after`) and to the notices `n0` (giving `n1`). A duplicate does
/// nothing. Otherwise the request is buffered (unless its number is already held) and the
/// requests now in order go up to the application, in order, one `NewRequestAction` each:
/// starting from the packet's number when it is brand new or the next one expected, else from
/// the last number seen. The last number seen becomes that of the last request gone up, and a
/// request to leave the room among them forgets the client's room.
pub open spec fn request_taken(c: OtherEndClient, after: OtherEndClient, packet: Packet,
    n0: Seq<FilterNotice>, n1: Seq<FilterNotice>, endpoint: Endpoint) -> bool {
    let seq = packet->Request_sequence;
    let adv = spec_seq_num_advancement(seq, c.last_request_sequence_seen);
    if adv is Duplicate {
        &&& n1 == n0
        &&& after.last_request_sequence_seen == c.last_request_sequence_seen
        &&& after.request_actions@ == c.request_actions@
    } else {
        exists|n: nat| {
            &&& #[trigger] drains(buffered(c, packet), drain_start(c, packet), n)
            &&& n1 == n0 + Seq::new(n, |i: int| FilterNotice::NewRequestAction {
                endpoint,
                action: buffered(c, packet)[wadd(drain_start(c, packet), i as nat)],
            })
            &&& after.last_request_sequence_seen == if n == 0 {
                if adv is OutOfOrder { c.last_request_sequence_seen } else { Some(seq) }
            } else {
                Some(wadd(drain_start(c, packet), (n - 1) as nat))
            }
            &&& after.request_actions@ == taken_from(buffered(c, packet), drain_start(c, packet), n)
            &&& after.room == if exists|i: int| 0 <= i < n
                && (#[trigger] buffered(c, packet)[wadd(drain_start(c, packet), i as nat)]) is LeaveRoom { None } else { c.room }
        }
    }
}

/// What a response `packet` from the server (record `sv`, giving `after`) does to the notices
/// `n0` (giving `n1`), as `request_taken` does for requests: a duplicate does nothing;
/// otherwise the response codes now in order go up, in order, one `NewResponseCode` each, and
/// the last response seen becomes that of the last of them.
pub open spec fn response_taken(sv: OtherEndServer, after: OtherEndServer, packet: Packet,
    n0: Seq<FilterNotice>, n1: Seq<FilterNotice>, endpoint: Endpoint) -> bool {
    let seq = packet->Response_sequence;
    let adv = spec_seq_num_advancement(seq, sv.last_response_sequence_seen);
    let m1 = buffered_codes(sv, packet);
    let start = response_drain_start(sv, packet);
    if adv is Duplicate {
        &&& n1 == n0
        &&& after.last_response_sequence_seen == sv.last_response_sequence_seen
    } else {
        exists|n: nat| {
            &&& #[trigger] drains(buffered_codes(sv, packet), response_drain_start(sv, packet), n)
            &&& n1 == n0 + Seq::new(n, |i: int| FilterNotice::NewResponseCode {
                endpoint,
                code: buffered_codes(sv, packet)[wadd(response_drain_start(sv, packet), i as nat)],
            })
            &&& after.last_response_sequence_seen == if n == 0 {
                if adv is OutOfOrder { sv.last_response_sequence_seen } else { Some(seq) }
            } else {
                Some(wadd(response_drain_start(sv, packet), (n - 1) as nat))
            }
            &&& after.response_codes@ == taken_from(buffered_codes(sv, packet), response_drain_start(sv, packet), n)
        }
    }
}

/// The response codes held for server `sv` once the response `packet` is buffered (unless its
/// number is already held).
pub open spec fn buffered_codes(sv: OtherEndServer, packet: Packet) -> Map<u64, ResponseCode> {
    if sv.response_codes@.contains_key(packet->Response_sequence) {
        sv.response_codes@
    } else {
        sv.response_codes@.insert(packet->Response_sequence, packet->Response_code)
    }
}

/// Where handing response codes of server `sv` up starts once `packet` arrives (see
/// `drain_start`).
pub open spec fn response_drain_start(sv: OtherEndServer, packet: Packet) -> u64 {
    if spec_seq_num_advancement(packet->Response_sequence, sv.last_response_sequence_seen) is OutOfOrder {
        sv.last_response_sequence_seen->0
    } else {
        packet->Response_sequence
    }
}

/// The requests held by client `c` once the request `packet` is buffered (unless its number is
/// already held).
pub open spec fn buffered(c: OtherEndClient, packet: Packet) -> Map<u64, RequestAction> {
    if c.request_actions@.contains_key(packet->Request_sequence) {
        c.request_actions@
    } else {
        c.request_actions@.insert(packet->Request_sequence, packet->Request_action)
    }
}

/// Where handing requests of client `c` up starts once `packet` arrives: at its number when it
/// is brand new or the next one expected, else at the last number seen.
pub open spec fn drain_start(c: OtherEndClient, packet: Packet) -> u64 {
    if spec_seq_num_advancement(packet->Request_sequence, c.last_request_sequence_seen) is OutOfOrder {
        c.last_request_sequence_seen->0
    } else {
        packet->Request_sequence
    }
}

/// The first request of a client, nothing buffered and nothing seen yet, goes up at once, alone,
/// and its number becomes the last one seen.
proof fn lemma_first_request(c: OtherEndClient, after: OtherEndClient, packet: Packet,
    n0: Seq<FilterNotice>, n1: Seq<FilterNotice>, endpoint: Endpoint)
    requires
        packet is Request,
        c.request_actions@ == Map::<u64, RequestAction>::empty(),
        c.last_request_sequence_seen is None,
        request_taken(c, after, packet, n0, n1, endpoint),
    ensures
        n1 == n0.push(FilterNotice::NewRequestAction { endpoint, action: packet->Request_action }),
        after.last_request_sequence_seen == Some(packet->Request_sequence),
        after.request_actions@ == Map::<u64, RequestAction>::empty(),
        !(packet->Request_action is LeaveRoom) ==> after.room == c.room,
{
    let seq = packet->Request_sequence;
    let m1 = buffered(c, packet);
    let start = drain_start(c, packet);
    assert(m1 == Map::<u64, RequestAction>::empty().insert(seq, packet->Request_action));
    assert(start == seq);
    let n = choose|n: nat| {
        &&& #[trigger] drains(buffered(c, packet), drain_start(c, packet), n)
        &&& n1 == n0 + Seq::new(n, |i: int| FilterNotice::NewRequestAction {
            endpoint,
            action: buffered(c, packet)[wadd(drain_start(c, packet), i as nat)],
        })
        &&& after.last_request_sequence_seen == if n == 0 {
            Some(seq)
        } else {
            Some(wadd(drain_start(c, packet), (n - 1) as nat))
        }
        &&& after.request_actions@ == taken_from(buffered(c, packet), drain_start(c, packet), n)
    };
    assert(taken_from(m1, seq, 0) == m1);
    assert(next_held(m1, seq));
    assert(n >= 1);
    if n >= 2 {
        assert(next_held(taken_from(m1, seq, 1), wadd(seq, 1)));
        assert(taken_from(m1, seq, 1) =~= Map::<u64, RequestAction>::empty());
    }
    assert(n == 1);
    assert(n1 =~= n0.push(FilterNotice::NewRequestAction { endpoint, action: packet->Request_action }));
    assert(taken_from(m1, seq, 1) =~= Map::<u64, RequestAction>::empty());
    assert(wadd(seq, 0) == seq);
    if !(packet->Request_action is LeaveRoom) {
        assert(!(exists|i: int| 0 <= i < n && (#[trigger] buffered(c, packet)[wadd(drain_start(c, packet), i as nat)]) is LeaveRoom));
    }
}

/// What a status `packet` from `endpoint` does to a client filter (`before` giving `after`, the
/// notices `n0` giving `n1`): from a server it pings, the reply completes the latency
/// measurement (see `pong_taken`) and goes up with the latency now reported and the server's
/// name, version, room and player counts; from any other peer it is ignored.
pub open spec fn status_taken(before: Filter, after: Filter, packet: Packet, n0: Seq<FilterNotice>,
    n1: Seq<FilterNotice>, endpoint: Endpoint) -> bool {
    if before.pinged(endpoint) {
        exists|i: int| {
            &&& 0 <= i < before.ping_endpoints@.len()
            &&& #[trigger] before.ping_endpoints@[i].0 == endpoint
            &&& after.ping_endpoints@ == before.ping_endpoints@.update(i, (endpoint, after.ping_endpoints@[i].1))
            &&& pong_taken(before.ping_endpoints@[i].1, after.ping_endpoints@[i].1, packet->Status_pong.key())
            &&& n1 == n0.push(n1.last())
            &&& n1.last() matches FilterNotice::PingResult { endpoint: e, latency, server_name, server_version, room_count, player_count }
                && e == endpoint && latency == after.ping_endpoints@[i].1.average()
                && server_name@ == packet->Status_server_name@ && server_version@ == packet->Status_server_version@
                && room_count == packet->Status_room_count && player_count == packet->Status_player_count
        }
    } else {
        n1 == n0 && after.ping_endpoints == before.ping_endpoints
    }
}

/// What an update reply `packet` from `endpoint` does to a server filter (`before` giving
/// `after`, the commands `c0` giving `c1`, the notices `n0` giving `n1`), with outcome `r`: from
/// a peer that is not a client it is refused (see `peer_mismatch`); without the client's cookie
/// it is ignored; otherwise the client's record takes its acknowledgement of game updates (see
/// `game_updates_acked`) and, unless that fails, its report of generations (see `gens_acked`).
pub open spec fn update_reply_taken<S: Fn(&GameUpdate) -> Option<u64>>(before: Filter, after: Filter, packet: Packet,
    c0: Seq<TransportCmd>, c1: Seq<TransportCmd>, n0: Seq<FilterNotice>, n1: Seq<FilterNotice>, endpoint: Endpoint,
    size_of: S, r: Result<(), FilterError>) -> bool {
    if !is_client_peer(before, endpoint) {
        (r matches Err(e) && peer_mismatch(before, endpoint, e)) && refused_unchanged(before, after, c0, c1, n0, n1)
    } else {
        let c = before.per_endpoint@[endpoint]->OtherEndClient_0;
        &&& only_peer_changed(before, after, endpoint)
        &&& !(c.cookie matches Some(k) && k@ == packet->UpdateReply_cookie@) ==> r is Ok
            && after.per_endpoint@ == before.per_endpoint@ && c1 == c0 && n1 == n0
        &&& (c.cookie matches Some(k) && k@ == packet->UpdateReply_cookie@) ==> exists|mid: OtherEndClient, cmid: Seq<TransportCmd>, r1: Result<(), FilterError>| {
            &&& #[trigger] game_updates_acked(c, mid, c0, cmid, packet->UpdateReply_last_game_update_seq, size_of, r1)
            &&& r1 is Err ==> r == r1 && after.per_endpoint@[endpoint] == FilterEndpointData::OtherEndClient(mid) && c1 == cmid && n1 == n0
            &&& r1 is Ok ==> after.per_endpoint@[endpoint] is OtherEndClient && gens_acked(mid, after.per_endpoint@[endpoint]->OtherEndClient_0,
                cmid, c1, n0, n1, packet->UpdateReply_last_full_gen, packet->UpdateReply_partial_gen, r)
        }
    }
}

/// Where the game updates taken start (none are when `start` is none).
pub open spec fn chain_lo(start: Option<int>) -> int {
    match start {
        Some(s) => s,
        None => 0,
    }
}

/// Where the game updates taken from `updates` end (see `processed_end`).
pub open spec fn chain_hi(updates: Seq<GameUpdate>, start: Option<int>) -> int {
    match start {
        Some(s) => processed_end(updates, s),
        None => 0,
    }
}

/// The room `after` of a client in room `before` once it took the update `packet` (its game
/// updates processed from `start` on, when `start` is some): the game record (if any) takes the
/// universe update (see `diff_part_taken`, with `apply`), then the room takes the game updates
/// one by one (see `rooms_chain`); the chats move only the latest chat seen.
pub open spec fn room_after_update<A: Fn(&GenStateDiff, Option<usize>) -> Result<Option<usize>, String>>(
    before: ClientRoom, after: ClientRoom, own: String, packet: Packet, start: Option<int>, apply: A) -> bool {
    exists|r1: ClientRoom, rooms: Seq<ClientRoom>, rs: Seq<Result<(), FilterError>>| {
        &&& #[trigger] rooms_chain(rooms, rs, r1, own, packet->Update_game_updates@, chain_lo(start),
            chain_hi(packet->Update_game_updates@, start))
        &&& r1 == (ClientRoom { game: r1.game, ..before })
        &&& match before.game {
            Some(g0) => r1.game matches Some(g1) && exists|rr: Result<Option<GenStateDiff>, FilterError>|
                #[trigger] diff_part_taken(g0, g1, packet->Update_universe_update, apply, rr) && rr is Ok,
            None => r1.game is None,
        }
        &&& after.player_id == rooms.last().player_id
        &&& after.other_players == rooms.last().other_players
        &&& after.game == rooms.last().game
    }
}

/// Whether an update `packet` from the server (record `sv`) is bound to be refused: game
/// updates to process in the lobby, chats without a number while in a room, or no cookie to
/// reply with.
pub open spec fn update_must_fail(sv: OtherEndServer, packet: Packet) -> bool {
    let updates = packet->Update_game_updates@;
    let start = start_index(sv.game_update_seq, packet->Update_game_update_seq, updates.len() as int);
    let still_in_room = sv.room is Some && !(start matches Some(s) && first_deletion(updates, s) is Some);
    ||| (start is Some && sv.room is None)
    ||| (still_in_room && exists|i: int| 0 <= i < packet->Update_chats@.len() && (#[trigger] packet->Update_chats@[i]).chat_seq is None)
    ||| sv.cookie is None
}

/// Whether an update `packet` from the server (record `sv`) may be refused: when it is bound to
/// be (see `update_must_fail`), or when its universe update may be refused by the game record
/// (see `diff_part_taken`, with `apply`).
pub open spec fn update_may_fail<A: Fn(&GenStateDiff, Option<usize>) -> Result<Option<usize>, String>>(
    sv: OtherEndServer, packet: Packet, apply: A) -> bool {
    ||| update_must_fail(sv, packet)
    ||| (sv.room matches Some(r0) && r0.game matches Some(g0) && exists|g1: crate::filter::client_update::ClientGame,
        rr: Result<Option<GenStateDiff>, FilterError>| #[trigger] diff_part_taken(g0, g1, packet->Update_universe_update, apply, rr) && rr is Err)
}

/// What an update `packet` taken from the server makes of its record `sv` (giving `after`):
/// the server's ping is kept; the game update count advances by the updates processed, and a
/// room deletion among them leaves the room (and forgets the count); in the room, the latest
/// chat seen advances over the update's chats, and the room takes the update (see
/// `room_after_update`).
pub open spec fn update_applied<A: Fn(&GenStateDiff, Option<usize>) -> Result<Option<usize>, String>>(
    sv: OtherEndServer, after: OtherEndServer, packet: Packet, apply: A) -> bool {
    let updates = packet->Update_game_updates@;
    let start = start_index(sv.game_update_seq, packet->Update_game_update_seq, updates.len() as int);
    let left = start matches Some(s) && first_deletion(updates, s) is Some;
    &&& after.server_ping == packet->Update_ping
    &&& after.game_update_seq == match start {
        None => sv.game_update_seq,
        Some(s) => if left { None } else { seq_after(sv.game_update_seq, updates.len() - s) },
    }
    &&& (after.room is Some) == (sv.room is Some && !left)
    &&& after.room matches Some(rm) ==> rm.last_chat_seq == latest_chat(packet->Update_chats@, sv.room->0.last_chat_seq)
    &&& (sv.room is Some && after.room is Some) ==> room_after_update(sv.room->0, after.room->0, sv.player_name, packet, start, apply)
}

/// `new` is `d`, then `g`, then `c`.
pub open spec fn in_three_parts<T>(new: Seq<T>, d: Seq<T>, g: Seq<T>, c: Seq<T>) -> bool {
    new == d + g + c
}

/// The notices an update `packet` from the server (record `sv`) at `endpoint` gives when it is
/// taken: first the generation diff its universe update completes (at most one, in a game),
/// then those of the game updates not yet processed (see `passed_on`), then, if the client is
/// still in a room, one with the chats it had not seen (none when it had seen them all).
pub open spec fn update_notices(sv: OtherEndServer, packet: Packet, new: Seq<FilterNotice>, endpoint: Endpoint) -> bool {
    let updates = packet->Update_game_updates@;
    let chats = packet->Update_chats@;
    let start = start_index(sv.game_update_seq, packet->Update_game_update_seq, updates.len() as int);
    let still_in_room = sv.room is Some && !(start matches Some(s) && first_deletion(updates, s) is Some);
    exists|d: Seq<FilterNotice>, g: Seq<FilterNotice>, c: Seq<FilterNotice>| {
        &&& #[trigger] in_three_parts(new, d, g, c)
        &&& d.len() <= 1
        &&& d.len() == 1 ==> (sv.room matches Some(rm) && rm.game is Some)
            && (d[0] matches FilterNotice::NewGenStateDiff { endpoint: e, .. } && e == endpoint)
        &&& match start {
            None => g.len() == 0,
            Some(s) => exists|idx: Seq<int>| #[trigger] passed_on(g, updates, s, processed_end(updates, s), idx, endpoint),
        }
        &&& if still_in_room {
            let news = new_chats(chats, sv.room->0.last_chat_seq);
            if news.len() == 0 {
                c.len() == 0
            } else {
                &&& c.len() == 1
                &&& c[0] matches FilterNotice::NewChats { endpoint: e, messages } && e == endpoint
                    && messages@.len() == news.len()
                    && forall|k: int| 0 <= k < news.len() ==> cloned(news[k], #[trigger] messages@[k])
            }
        } else {
            c.len() == 0
        }
    }
}

impl Filter {
    /// A request from the client at `endpoint` (see `process_transport_packet` and
    /// `request_taken`).
    #[verifier::loop_isolation(false)]
    #[verifier::rlimit(60)]
    fn process_request(&mut self, endpoint: Endpoint, packet: Packet, cmds: &mut Vec<TransportCmd>, notices: &mut Vec<FilterNotice>) -> (r: Result<(), FilterError>)
        requires
            old(self).wf(),
            packet is Request,
        ensures
            final(self).wf(),
            final(self).mode == old(self).mode,
            final(self).auth_requests == old(self).auth_requests,
            final(notices)@.take(old(notices)@.len() as int) == old(notices)@,
            final(notices)@.len() >= old(notices)@.len(),
            final(cmds)@.take(old(cmds)@.len() as int) == old(cmds)@,
            final(cmds)@.len() >= old(cmds)@.len(),
            (old(self).per_endpoint@.contains_key(endpoint) && old(self).per_endpoint@[endpoint] is OtherEndClient) ==>
                final(self).per_endpoint@.contains_key(endpoint) && final(self).per_endpoint@[endpoint] is OtherEndClient,
            forall|k: int| old(notices)@.len() <= k < final(notices)@.len() ==>
                (#[trigger] final(notices)@[k] matches FilterNotice::NewRequestAction { endpoint: e, .. } && e == endpoint),
            !is_client_peer(*old(self), endpoint) ==> (r matches Err(e) && peer_mismatch(*old(self), endpoint, e))
                && refused_unchanged(*old(self), *final(self), old(cmds)@, final(cmds)@, old(notices)@, final(notices)@),
            is_client_peer(*old(self), endpoint) ==> {
                let c = old(self).per_endpoint@[endpoint]->OtherEndClient_0;
                &&& only_peer_changed(*old(self), *final(self), endpoint)
                &&& codes_resent(c, final(self).per_endpoint@[endpoint]->OtherEndClient_0.unacked_response_codes@,
                    old(cmds)@, final(cmds)@, packet->Request_response_ack)
                &&& !cookie_admitted(packet, c.cookie) ==> (r matches Err(e) && e is Refused) && final(notices)@ == old(notices)@
                &&& cookie_admitted(packet, c.cookie) ==> r is Ok
                    && request_taken(c, final(self).per_endpoint@[endpoint]->OtherEndClient_0, packet,
                        old(notices)@, final(notices)@, endpoint)
                    && request_kept(c, final(self).per_endpoint@[endpoint]->OtherEndClient_0)
            },
    {
        proof {
            assert(notices@.take(old(notices)@.len() as int) =~= old(notices)@);
            assert(cmds@.take(old(cmds)@.len() as int) =~= old(cmds)@);
        }
        let ghost n1 = notices@;
        let ghost pk = packet;
        let (sequence, action, response_ack, cookie) = match packet {
            Packet::Request { sequence, action, response_ack, cookie } => (sequence, action, response_ack, cookie),
            _ => {
                return Ok(());
            },
        };
        let mut client = match self.take_client(endpoint, "RequestAction") {
            Ok(c) => c,
            Err(e) => {
                return Err(e);
            },
        };
        let ghost c0 = client;
        client.resend_and_drop_enqueued_response_codes(cmds, response_ack);
        let ghost c1 = client;
        let ghost cmds_r = cmds@;
        let is_connect = match &action {
            RequestAction::Connect { .. } => true,
            _ => false,
        };
        if !is_connect && !same_cookie(&cookie, &client.cookie) {
            self.per_endpoint.insert(endpoint, FilterEndpointData::OtherEndClient(client));
            proof {
                assert(self.per_endpoint@.remove(endpoint) =~= old(self).per_endpoint@.remove(endpoint));
            }
            return Err(FilterError::Refused { problem: String::from_str("cookie does not match the client's") });
        }
        let adv = determine_seq_num_advancement(sequence, client.last_request_sequence_seen);
        match adv {
            SeqNumAdvancement::Duplicate => {
                self.per_endpoint.insert(endpoint, FilterEndpointData::OtherEndClient(client));
                proof {
                    assert(self.per_endpoint@.remove(endpoint) =~= old(self).per_endpoint@.remove(endpoint));
                }
                return Ok(());
            },
            SeqNumAdvancement::BrandNew | SeqNumAdvancement::Contiguous => {
                client.last_request_sequence_seen = Some(sequence);
            },
            SeqNumAdvancement::OutOfOrder => {},
        }
        let ghost m0 = client.request_actions@;
        let _ = client.request_actions.add(sequence, action);
        let ghost m1 = client.request_actions@;
        proof {
            client.request_actions.lemma_finite();
        }
        let start = match client.last_request_sequence_seen {
            Some(s) => s,
            None => {
                self.per_endpoint.insert(endpoint, FilterEndpointData::OtherEndClient(client));
                return Err(FilterError::InternalError {
                    problem: String::from_str("sequence number should not be None at this point"),
                });
            },
        };
        let mut expected = start;
        let ghost seen0 = client.last_request_sequence_seen;
        let ghost mut taken: nat = 0;
        let ghost nmid = notices@;
        proof {
            assert(notices@ =~= nmid + Seq::new(0, |i: int| FilterNotice::NewRequestAction { endpoint, action: m1[wadd(start, i as nat)] }));
        }
        loop
            invariant
                client.wf(),
                client.request_actions@.dom().finite(),
                expected == wadd(start, taken),
                client.request_actions@ == taken_from(m1, start, taken),
                forall|i: nat| i < taken ==> #[trigger] next_held(taken_from(m1, start, i), wadd(start, i)),
                client.last_request_sequence_seen == if taken == 0 { seen0 } else { Some(wadd(start, (taken - 1) as nat)) },
                notices@ == nmid + Seq::new(taken as nat, |i: int| FilterNotice::NewRequestAction { endpoint, action: m1[wadd(start, i as nat)] }),
                notices@.len() >= n1.len(),
                notices@.take(old(notices)@.len() as int) == old(notices)@,
                forall|k: int| old(notices)@.len() <= k < notices@.len() ==>
                    (#[trigger] notices@[k] matches FilterNotice::NewRequestAction { endpoint: e, .. } && e == endpoint),
                client.endpoint == c0.endpoint,
                client.cookie == c0.cookie,
                cmds@ == cmds_r,
                client == (OtherEndClient {
                    last_request_sequence_seen: client.last_request_sequence_seen,
                    request_actions: client.request_actions,
                    room: client.room,
                    ..c1
                }),
                client.room == if exists|i: int| 0 <= i < taken
                    && (#[trigger] m1[wadd(start, i as nat)]) is LeaveRoom { None } else { c0.room },
            decreases client.request_actions@.len(),
        {
            let ghost nb = notices@;
            let ghost before = client.request_actions@;
            let taken_item = client.request_actions.take_if_matching(expected);
            let request_action = match taken_item {
                Some(ra) => ra,
                None => {
                    break;
                },
            };
            proof {
                assert(before.contains_key(expected));
                assert(client.request_actions@.len() < before.len()) by {
                    before.lemma_remove_key_len(expected);
                }
                lemma_taken_from_sub(m1, start, taken, expected);
                assert(request_action == m1[wadd(start, taken)]);
                assert(next_held(taken_from(m1, start, taken), wadd(start, taken)));
            }
            let ghost room0 = client.room;
            client.process_request_action(&request_action);
            notices.push(FilterNotice::NewRequestAction { endpoint, action: request_action });
            client.last_request_sequence_seen = Some(expected);
            expected = expected.wrapping_add(1);
            proof {
                let t0 = taken;
                taken = taken + 1;
                if request_action is LeaveRoom {
                    assert(m1[wadd(start, t0 as nat)] is LeaveRoom);
                } else {
                    assert(client.room == room0);
                    if exists|i: int| 0 <= i < taken && (#[trigger] m1[wadd(start, i as nat)]) is LeaveRoom {
                        let i = choose|i: int| 0 <= i < taken && (#[trigger] m1[wadd(start, i as nat)]) is LeaveRoom;
                        assert(i < t0);
                    }
                }
                assert(wadd(start, taken) == seq_successor(wadd(start, t0)));
                assert(client.request_actions@ == taken_from(m1, start, taken));
                assert forall|i: nat| i < taken implies #[trigger] next_held(taken_from(m1, start, i), wadd(start, i)) by {
                    if i < t0 {
                    }
                }
                assert(notices@ =~= nmid + Seq::new(taken as nat, |i: int| FilterNotice::NewRequestAction { endpoint, action: m1[wadd(start, i as nat)] }));
                assert(notices@.take(old(notices)@.len() as int) =~= nb.take(old(notices)@.len() as int));
                assert forall|k: int| old(notices)@.len() <= k < notices@.len() implies
                    (#[trigger] notices@[k] matches FilterNotice::NewRequestAction { endpoint: e, .. } && e == endpoint) by {
                    if k < nb.len() {
                        assert(notices@[k] == nb[k]);
                    }
                }
            }
        }
        self.per_endpoint.insert(endpoint, FilterEndpointData::OtherEndClient(client));
        proof {
            assert(self.per_endpoint@.remove(endpoint) =~= old(self).per_endpoint@.remove(endpoint));
            assert(drains(m1, start, taken));
            let cf = self.per_endpoint@[endpoint]->OtherEndClient_0;
            assert(cf == client);
            assert(nmid == old(notices)@);
            assert(pk->Request_sequence == sequence);
            assert(m0 == c0.request_actions@);
            assert(m1 == if m0.contains_key(sequence) { m0 } else { m0.insert(sequence, pk->Request_action) });
            assert(c0.last_request_sequence_seen == old(self).per_endpoint@[endpoint]->OtherEndClient_0.last_request_sequence_seen);
            assert(start == if adv is OutOfOrder { c0.last_request_sequence_seen->0 } else { sequence });
            assert(cf.request_actions@ == taken_from(m1, start, taken));
            assert(notices@ == old(notices)@ + Seq::new(taken as nat, |i: int| FilterNotice::NewRequestAction { endpoint, action: m1[wadd(start, i as nat)] }));
            assert(!(adv is Duplicate));
            assert(cf.last_request_sequence_seen == if taken == 0 {
                if adv is OutOfOrder { c0.last_request_sequence_seen } else { Some(sequence) }
            } else {
                Some(wadd(start, (taken - 1) as nat))
            });
            assert(buffered(c0, pk) == m1);
            assert(drain_start(c0, pk) == start);
            assert(drains(buffered(c0, pk), drain_start(c0, pk), taken));
            assert(request_taken(c0, self.per_endpoint@[endpoint]->OtherEndClient_0, pk, old(notices)@, notices@, endpoint));
            assert(request_kept(c0, cf));
        }
        Ok(())
    }

    /// A response from the server at `endpoint` (see `process_transport_packet`).
    #[verifier::loop_isolation(false)]
    #[verifier::rlimit(40)]
    fn process_response(&mut self, endpoint: Endpoint, packet: Packet, cmds: &mut Vec<TransportCmd>, notices: &mut Vec<FilterNotice>) -> (r: Result<(), FilterError>)
        requires
            old(self).wf(),
            packet is Response,
        ensures
            final(self).wf(),
            final(self).mode == old(self).mode,
            final(self).auth_requests == old(self).auth_requests,
            final(notices)@.take(old(notices)@.len() as int) == old(notices)@,
            final(notices)@.len() >= old(notices)@.len(),
            final(cmds)@.take(old(cmds)@.len() as int) == old(cmds)@,
            final(cmds)@.len() >= old(cmds)@.len(),
            forall|k: int| old(notices)@.len() <= k < final(notices)@.len() ==>
                (#[trigger] final(notices)@[k] matches FilterNotice::NewResponseCode { endpoint: e, .. } && e == endpoint),
            !is_server_peer(*old(self), endpoint) ==> (r matches Err(e) && peer_mismatch(*old(self), endpoint, e))
                && refused_unchanged(*old(self), *final(self), old(cmds)@, final(cmds)@, old(notices)@, final(notices)@),
            is_server_peer(*old(self), endpoint) ==> {
                let sv = old(self).per_endpoint@[endpoint]->OtherEndServer_0;
                let adv = spec_seq_num_advancement(packet->Response_sequence, sv.last_response_sequence_seen);
                &&& r is Ok
                &&& only_peer_changed(*old(self), *final(self), endpoint)
                &&& adv is Duplicate ==> final(self).per_endpoint@ == old(self).per_endpoint@
                    && final(cmds)@ == old(cmds)@ && final(notices)@ == old(notices)@
                &&& response_taken(sv, final(self).per_endpoint@[endpoint]->OtherEndServer_0, packet,
                    old(notices)@, final(notices)@, endpoint)
                &&& forall|k: int| old(cmds)@.len() <= k < final(cmds)@.len() ==>
                    (#[trigger] final(cmds)@[k] matches TransportCmd::DropPacket { endpoint: e, .. } && e == endpoint)
                &&& !(adv is Duplicate) ==> request_acks_taken(sv.unacked_outgoing_packet_tids@,
                    final(self).per_endpoint@[endpoint]->OtherEndServer_0.unacked_outgoing_packet_tids@,
                    old(cmds)@, final(cmds)@, packet->Response_request_ack, endpoint)
            },
    {
        proof {
            assert(notices@.take(old(notices)@.len() as int) =~= old(notices)@);
            assert(cmds@.take(old(cmds)@.len() as int) =~= old(cmds)@);
        }
        let ghost n1 = notices@;
        let ghost pk = packet;
        let (sequence, request_ack, code) = match packet {
            Packet::Response { sequence, request_ack, code } => (sequence, request_ack, code),
            _ => {
                return Ok(());
            },
        };
        let mut server = match self.take_server(endpoint, "ResponseCode") {
            Ok(sv) => sv,
            Err(e) => {
                return Err(e);
            },
        };
        match determine_seq_num_advancement(sequence, server.last_response_sequence_seen) {
            SeqNumAdvancement::Duplicate => {
                self.per_endpoint.insert(endpoint, FilterEndpointData::OtherEndServer(server));
                proof {
                    assert(self.per_endpoint@ =~= old(self).per_endpoint@);
                    assert(self.per_endpoint@.remove(endpoint) =~= old(self).per_endpoint@.remove(endpoint));
                }
                return Ok(());
            },
            SeqNumAdvancement::BrandNew | SeqNumAdvancement::Contiguous => {
                server.last_response_sequence_seen = Some(sequence);
            },
            SeqNumAdvancement::OutOfOrder => {},
        }
        let ghost u0 = server.unacked_outgoing_packet_tids@;
        match request_ack {
            Some(ack) => {
                let tids = take_tids_to_drop(&mut server.unacked_outgoing_packet_tids, ack);
                proof {
                    lemma_acked_run(u0, ack, tids@.len() as int);
                }
                let mut t: usize = 0;
                while t < tids.len()
                    invariant
                        t <= tids@.len(),
                        tids@.len() <= u0.len(),
                        forall|i: int| 0 <= i < tids@.len() ==> #[trigger] tids@[i] == u0[i].1,
                        cmds@ == old(cmds)@ + Seq::new(t as nat, |i: int| TransportCmd::DropPacket { endpoint, tid: u0[i].1 }),
                    decreases tids@.len() - t,
                {
                    let ghost cb = cmds@;
                    cmds.push(TransportCmd::DropPacket { endpoint, tid: tids[t] });
                    proof {
                        assert(cmds@ =~= old(cmds)@ + Seq::new((t + 1) as nat, |i: int| TransportCmd::DropPacket { endpoint, tid: u0[i].1 }));
                    }
                    t = t + 1;
                }
                proof {
                    assert forall|k: int| old(cmds)@.len() <= k < cmds@.len() implies
                        (#[trigger] cmds@[k] matches TransportCmd::DropPacket { endpoint: e, .. } && e == endpoint) by {
                        assert(cmds@[k] == TransportCmd::DropPacket { endpoint, tid: u0[k - old(cmds)@.len()].1 });
                    }
                    assert(cmds@.take(old(cmds)@.len() as int) =~= old(cmds)@);
                }
            },
            None => {},
        }
        let ghost u1 = server.unacked_outgoing_packet_tids@;
        proof {
            assert(request_acks_taken(u0, u1, old(cmds)@, cmds@, request_ack, endpoint));
        }
        let ghost cmds_mid = cmds@;
        let ghost sv0 = old(self).per_endpoint@[endpoint]->OtherEndServer_0;
        let ghost m0 = server.response_codes@;
        let _ = server.response_codes.add(sequence, code);
        let ghost m1 = server.response_codes@;
        proof {
            server.response_codes.lemma_finite();
        }
        let start = match server.last_response_sequence_seen {
            Some(s) => s,
            None => {
                self.per_endpoint.insert(endpoint, FilterEndpointData::OtherEndServer(server));
                return Err(FilterError::InternalError {
                    problem: String::from_str("sequence number should not be None at this point"),
                });
            },
        };
        let mut expected = start;
        let ghost seen0 = server.last_response_sequence_seen;
        let ghost mut taken: nat = 0;
        let ghost nmid = notices@;
        proof {
            assert(notices@ =~= nmid + Seq::new(0, |i: int| FilterNotice::NewResponseCode { endpoint, code: m1[wadd(start, i as nat)] }));
        }
        loop
            invariant
                server.wf(),
                server.response_codes@.dom().finite(),
                expected == wadd(start, taken),
                server.response_codes@ == taken_from(m1, start, taken),
                forall|i: nat| i < taken ==> #[trigger] next_held(taken_from(m1, start, i), wadd(start, i)),
                server.last_response_sequence_seen == if taken == 0 { seen0 } else { Some(wadd(start, (taken - 1) as nat)) },
                notices@ == nmid + Seq::new(taken as nat, |i: int| FilterNotice::NewResponseCode { endpoint, code: m1[wadd(start, i as nat)] }),
                cmds@ == cmds_mid,
                server.unacked_outgoing_packet_tids@ == u1,
                notices@.len() >= n1.len(),
                notices@.take(old(notices)@.len() as int) == old(notices)@,
                forall|k: int| old(notices)@.len() <= k < notices@.len() ==>
                    (#[trigger] notices@[k] matches FilterNotice::NewResponseCode { endpoint: e, .. } && e == endpoint),
            decreases server.response_codes@.len(),
        {
            let ghost nb = notices@;
            let ghost before = server.response_codes@;
            let taken_code = server.response_codes.take_if_matching(expected);
            let response_code = match taken_code {
                Some(rc) => rc,
                None => {
                    break;
                },
            };
            proof {
                assert(before.contains_key(expected));
                assert(server.response_codes@.len() < before.len()) by {
                    before.lemma_remove_key_len(expected);
                }
                lemma_taken_from_sub(m1, start, taken, expected);
                assert(response_code == m1[wadd(start, taken)]);
                assert(next_held(taken_from(m1, start, taken), wadd(start, taken)));
            }
            server.apply_response_code(&response_code);
            notices.push(FilterNotice::NewResponseCode { endpoint, code: response_code });
            server.last_response_sequence_seen = Some(expected);
            expected = expected.wrapping_add(1);
            proof {
                let t0 = taken;
                taken = taken + 1;
                assert(wadd(start, taken) == seq_successor(wadd(start, t0)));
                assert forall|i: nat| i < taken implies #[trigger] next_held(taken_from(m1, start, i), wadd(start, i)) by {
                    if i < t0 {
                    }
                }
                assert(notices@ =~= nmid + Seq::new(taken as nat, |i: int| FilterNotice::NewResponseCode { endpoint, code: m1[wadd(start, i as nat)] }));
                assert(notices@.take(old(notices)@.len() as int) =~= nb.take(old(notices)@.len() as int));
                assert forall|k: int| old(notices)@.len() <= k < notices@.len() implies
                    (#[trigger] notices@[k] matches FilterNotice::NewResponseCode { endpoint: e, .. } && e == endpoint) by {
                    if k < nb.len() {
                        assert(notices@[k] == nb[k]);
                    }
                }
            }
        }
        self.per_endpoint.insert(endpoint, FilterEndpointData::OtherEndServer(server));
        proof {
            assert(self.per_endpoint@.remove(endpoint) =~= old(self).per_endpoint@.remove(endpoint));
            assert(m0 == sv0.response_codes@);
            assert(buffered_codes(sv0, pk) == m1);
            assert(response_drain_start(sv0, pk) == start);
            assert(drains(buffered_codes(sv0, pk), response_drain_start(sv0, pk), taken));
            assert(nmid == old(notices)@);
            assert(response_taken(sv0, self.per_endpoint@[endpoint]->OtherEndServer_0, pk, old(notices)@, notices@, endpoint));
            assert(u0 == sv0.unacked_outgoing_packet_tids@);
            assert(self.per_endpoint@[endpoint]->OtherEndServer_0.unacked_outgoing_packet_tids@ == u1);
        }
        Ok(())
    }

    /// An update from the server at `endpoint` (see `process_transport_packet`).
    #[verifier::loop_isolation(false)]
    #[verifier::rlimit(40)]
    fn process_update<A: Fn(&GenStateDiff, Option<usize>) -> Result<Option<usize>, String>>(
        &mut self,
        endpoint: Endpoint,
        packet: Packet,
        cmds: &mut Vec<TransportCmd>,
        notices: &mut Vec<FilterNotice>,
        apply: &A,
    ) -> (r: Result<(), FilterError>)
        requires
            old(self).wf(),
            packet is Update,
            forall|d: &GenStateDiff, p: Option<usize>| #[trigger] apply.requires((d, p)),
            update_supported(*old(self), endpoint, packet),
        ensures
            final(self).wf(),
            final(self).mode == old(self).mode,
            final(self).auth_requests == old(self).auth_requests,
            final(notices)@.take(old(notices)@.len() as int) == old(notices)@,
            final(notices)@.len() >= old(notices)@.len(),
            final(cmds)@.take(old(cmds)@.len() as int) == old(cmds)@,
            final(cmds)@.len() >= old(cmds)@.len(),
            !is_server_peer(*old(self), endpoint) ==> (r matches Err(e) && peer_mismatch(*old(self), endpoint, e))
                && refused_unchanged(*old(self), *final(self), old(cmds)@, final(cmds)@, old(notices)@, final(notices)@),
            is_server_peer(*old(self), endpoint) ==> only_peer_changed(*old(self), *final(self), endpoint),
            is_server_peer(*old(self), endpoint) && r is Ok
                ==> final(self).per_endpoint@[endpoint]->OtherEndServer_0.server_ping == packet->Update_ping
                    && (final(cmds)@.last() matches TransportCmd::SendPackets { endpoint: e, packets, .. } && e == endpoint
                        && packets@.len() == 1 && (packets@[0] matches Packet::UpdateReply { pong, .. } && pong == packet->Update_ping)),
            is_server_peer(*old(self), endpoint) && r is Ok ==> final(self).per_endpoint@[endpoint] is OtherEndServer
                && update_applied(old(self).per_endpoint@[endpoint]->OtherEndServer_0, final(self).per_endpoint@[endpoint]->OtherEndServer_0, packet, *apply),
            is_server_peer(*old(self), endpoint) && r is Err ==> update_may_fail(old(self).per_endpoint@[endpoint]->OtherEndServer_0, packet, *apply),
            is_server_peer(*old(self), endpoint) && update_must_fail(old(self).per_endpoint@[endpoint]->OtherEndServer_0, packet) ==> r is Err,
            is_server_peer(*old(self), endpoint) && r is Ok ==> update_notices(old(self).per_endpoint@[endpoint]->OtherEndServer_0,
                packet, final(notices)@.skip(old(notices)@.len() as int), endpoint),
    {
        proof {
            assert(notices@.take(old(notices)@.len() as int) =~= old(notices)@);
            assert(cmds@.take(old(cmds)@.len() as int) =~= old(cmds)@);
        }
        let ghost pk = packet;
        let (chats, game_update_seq, game_updates, universe_update, ping) = match packet {
            Packet::Update { chats, game_update_seq, game_updates, universe_update, ping } => (chats, game_update_seq, game_updates, universe_update, ping),
            _ => {
                return Ok(());
            },
        };
        let mut server = match self.take_server(endpoint, "Update") {
            Ok(sv) => sv,
            Err(e) => {
                return Err(e);
            },
        };
        let ghost sv0 = server;
        let ghost mut diff_r: Result<Option<GenStateDiff>, FilterError> = Ok(None);
        let mut failed: Option<FilterError> = None;
        match &mut server.room {
            Some(room) => {
                match &mut room.game {
                    Some(game) => {
                        let res = game.process_genstate_diff_part(universe_update, apply);
                        proof {
                            diff_r = res;
                        }
                        match res {
                            Ok(Some(diff)) => {
                                let ghost nb = notices@;
                                notices.push(FilterNotice::NewGenStateDiff { diff, endpoint });
                                proof {
                                    assert(notices@.take(old(notices)@.len() as int) =~= nb.take(old(notices)@.len() as int));
                                }
                            },
                            Ok(None) => {},
                            Err(e) => {
                                failed = Some(e);
                            },
                        }
                    },
                    None => {},
                }
            },
            None => {},
        }
        if let Some(e) = failed {
            self.per_endpoint.insert(endpoint, FilterEndpointData::OtherEndServer(server));
            proof {
                assert(self.per_endpoint@.remove(endpoint) =~= old(self).per_endpoint@.remove(endpoint));
            }
            return Err(e);
        }
        let ghost n1 = notices@;
        let ghost sv1 = server;
        proof {
            assert(n1.len() <= old(notices)@.len() + 1);
            assert(n1.len() == old(notices)@.len() + 1 ==> (sv0.room matches Some(rm) && rm.game is Some)
                && (n1.last() matches FilterNotice::NewGenStateDiff { endpoint: e, .. } && e == endpoint));
            assert(sv1.game_update_seq == sv0.game_update_seq);
            assert(sv1.room is Some == sv0.room is Some);
            assert(sv1.room is Some ==> sv1.room->0.last_chat_seq == sv0.room->0.last_chat_seq);
        }
        match server.process_game_updates(endpoint, game_update_seq, game_updates.as_slice(), notices) {
            Ok(()) => {},
            Err(e) => {
                self.per_endpoint.insert(endpoint, FilterEndpointData::OtherEndServer(server));
                proof {
                    assert(self.per_endpoint@.remove(endpoint) =~= old(self).per_endpoint@.remove(endpoint));
                }
                return Err(e);
            },
        }
        proof {
            lemma_prefix_trans(old(notices)@, n1, notices@);
        }
        let ghost n2 = notices@;
        let ghost sv2 = server;
        let mut chat_failed: Option<FilterError> = None;
        match &mut server.room {
            Some(room) => {
                match room.process_chats(endpoint, chats.as_slice(), notices) {
                    Ok(()) => {},
                    Err(e) => {
                        chat_failed = Some(e);
                    },
                }
            },
            None => {
                proof {
                    assert(notices@.take(n2.len() as int) =~= n2);
                }
            },
        }
        proof {
            lemma_prefix_trans(old(notices)@, n2, notices@);
        }
        if let Some(e) = chat_failed {
            self.per_endpoint.insert(endpoint, FilterEndpointData::OtherEndServer(server));
            proof {
                assert(self.per_endpoint@.remove(endpoint) =~= old(self).per_endpoint@.remove(endpoint));
            }
            return Err(e);
        }
        proof {
            let new = notices@.skip(old(notices)@.len() as int);
            let d = n1.skip(old(notices)@.len() as int);
            let g = n2.skip(n1.len() as int);
            let c = notices@.skip(n2.len() as int);
            assert(new =~= d + g + c);
            assert(in_three_parts(new, d, g, c));
            if d.len() == 1 {
                assert(d[0] == n1.last());
            }
            let updates = pk->Update_game_updates@;
            let start = start_index(sv0.game_update_seq, pk->Update_game_update_seq, updates.len() as int);
            match start {
                None => {
                    assert(n2 == n1);
                    assert(g.len() == 0);
                },
                Some(st) => {
                    assert(sv1.room is Some);
                    assert(exists|idx: Seq<int>| #[trigger] passed_on(g, updates, st, processed_end(updates, st), idx, endpoint));
                },
            }
            let still_in_room = sv0.room is Some && !(start matches Some(st) && first_deletion(updates, st) is Some);
            assert(still_in_room == sv2.room is Some);
            if still_in_room {
                assert(sv2.room->0.last_chat_seq == sv0.room->0.last_chat_seq);
                let news = new_chats(pk->Update_chats@, sv0.room->0.last_chat_seq);
                if news.len() != 0 {
                    assert(c.len() == 1);
                    assert(c[0] == notices@.last());
                }
            } else {
                assert(notices@ == n2);
                assert(c.len() == 0);
            }
            assert(update_notices(sv0, pk, new, endpoint));
            if sv0.room is Some && sv2.room is Some {
                let r0 = sv0.room->0;
                let r1 = sv1.room->0;
                assert(r1 == (ClientRoom { game: r1.game, ..r0 }));
                match r0.game {
                    Some(g0) => {
                        assert(diff_part_taken(g0, r1.game->0, pk->Update_universe_update, *apply, diff_r));
                    },
                    None => {},
                }
                match start {
                    None => {
                        assert(rooms_chain(seq![r1], Seq::<Result<(), FilterError>>::empty(), r1, sv0.player_name,
                            updates, chain_lo(start), chain_hi(updates, start)));
                    },
                    Some(st) => {
                        let (rooms, rs) = choose|rooms: Seq<ClientRoom>, rs: Seq<Result<(), FilterError>>| {
                            &&& #[trigger] rooms_chain(rooms, rs, r1, sv1.player_name, updates, st, processed_end(updates, st))
                            &&& first_deletion(updates, st) is None ==> sv2.room == Some(rooms.last())
                        };
                        assert(rooms_chain(rooms, rs, r1, sv0.player_name, updates, chain_lo(start), chain_hi(updates, start)));
                    },
                }
            }
        }
        server.server_ping = ping;
        let reply = server.send_update_reply(endpoint, cmds);
        proof {
            if reply is Ok {
                assert(cmds@.take(old(cmds)@.len() as int) =~= cmds@.drop_last());
            }
        }
        self.per_endpoint.insert(endpoint, FilterEndpointData::OtherEndServer(server));
        proof {
            assert(self.per_endpoint@.remove(endpoint) =~= old(self).per_endpoint@.remove(endpoint));
        }
        reply
    }

    /// A status from a server pinged at `endpoint` (see `process_transport_packet`).
    fn process_status(&mut self, endpoint: Endpoint, packet: &Packet, notices: &mut Vec<FilterNotice>) -> (r: Result<(), FilterError>)
        requires
            old(self).wf(),
            packet is Status,
        ensures
            final(self).wf(),
            final(self).mode == old(self).mode,
            final(self).auth_requests == old(self).auth_requests,
            final(self).per_endpoint == old(self).per_endpoint,
            final(notices)@.take(old(notices)@.len() as int) == old(notices)@,
            final(notices)@.len() >= old(notices)@.len(),
            old(self).mode is Server ==> r is Err && r->Err_0 is UnexpectedData,
            old(self).mode is Client ==> r is Ok && status_taken(*old(self), *final(self), *packet, old(notices)@, final(notices)@, endpoint),
    {
        proof {
            assert(notices@.take(old(notices)@.len() as int) =~= old(notices)@);
        }
        let (player_count, pong, room_count, server_name, server_version) = match packet {
            Packet::Status { player_count, pong, room_count, server_name, server_version } => (player_count, pong, room_count, server_name, server_version),
            _ => {
                return Ok(());
            },
        };
        if self.mode.is_server() {
            return Err(FilterError::UnexpectedData { mode: self.mode.clone(), invalid_data: String::from_str("Status") });
        }
        let idx = match self.ping_index(&endpoint) {
            Some(i) => i,
            None => {
                return Ok(());
            },
        };
        let ghost p0 = self.ping_endpoints@;
        let (e, mut latency_filter) = self.ping_endpoints.remove(idx);
        latency_filter.update(*pong);
        let latency = latency_filter.get_millis();
        self.ping_endpoints.insert(idx, (e, latency_filter));
        proof {
            assert(self.ping_endpoints@ =~= p0.update(idx as int, (e, latency_filter)));
            assert forall|a: int, b: int| 0 <= a < b < self.ping_endpoints@.len()
                implies #[trigger] self.ping_endpoints@[a].0 != #[trigger] self.ping_endpoints@[b].0 by {
                assert(p0[a].0 != p0[b].0);
            }
            assert forall|j: int| 0 <= j < self.ping_endpoints@.len() implies (#[trigger] self.ping_endpoints@[j]).1.wf() by {
                if j != idx {
                    assert(self.ping_endpoints@[j] == p0[j]);
                }
            }
        }
        notices.push(FilterNotice::PingResult {
            endpoint,
            latency,
            server_name: server_name.clone(),
            server_version: server_version.clone(),
            room_count: *room_count,
            player_count: *player_count,
        });
        Ok(())
    }

    /// An update reply from the client at `endpoint` (see `process_transport_packet`).
    #[verifier::rlimit(40)]
    fn process_update_reply<S: Fn(&GameUpdate) -> Option<u64>>(
        &mut self,
        endpoint: Endpoint,
        packet: &Packet,
        cmds: &mut Vec<TransportCmd>,
        notices: &mut Vec<FilterNotice>,
        size_of: &S,
    ) -> (r: Result<(), FilterError>)
        requires
            old(self).wf(),
            packet is UpdateReply,
            forall|u: &GameUpdate| #[trigger] size_of.requires((u,)),
        ensures
            final(self).wf(),
            final(self).mode == old(self).mode,
            final(self).auth_requests == old(self).auth_requests,
            final(notices)@.take(old(notices)@.len() as int) == old(notices)@,
            final(notices)@.len() >= old(notices)@.len(),
            final(cmds)@.take(old(cmds)@.len() as int) == old(cmds)@,
            final(cmds)@.len() >= old(cmds)@.len(),
            old(self).mode is Client ==> r is Err && r->Err_0 is UnexpectedData,
            old(self).mode is Server ==> update_reply_taken(*old(self), *final(self), *packet, old(cmds)@, final(cmds)@,
                old(notices)@, final(notices)@, endpoint, *size_of, r),
    {
        proof {
            assert(notices@.take(old(notices)@.len() as int) =~= old(notices)@);
            assert(cmds@.take(old(cmds)@.len() as int) =~= old(cmds)@);
        }
        let (cookie, last_chat_seq, last_game_update_seq, last_full_gen, partial_gen) = match packet {
            Packet::UpdateReply { cookie, last_chat_seq, last_game_update_seq, last_full_gen, partial_gen, pong: _ } => (cookie, last_chat_seq, last_game_update_seq, last_full_gen, partial_gen),
            _ => {
                return Ok(());
            },
        };
        if self.mode.is_client() {
            return Err(FilterError::UnexpectedData { mode: self.mode.clone(), invalid_data: String::from_str("UpdateReply") });
        }
        let mut client = match self.take_client(endpoint, "UpdateReply") {
            Ok(c) => c,
            Err(e) => {
                return Err(e);
            },
        };
        let valid = match &client.cookie {
            Some(c) => *c == *cookie,
            None => false,
        };
        if !valid {
            self.per_endpoint.insert(endpoint, FilterEndpointData::OtherEndClient(client));
            proof {
                assert(self.per_endpoint@ =~= old(self).per_endpoint@);
            }
            return Ok(());
        }
        let ghost c_old = client;
        let _ = client.process_chat_ack(*last_chat_seq);
        let acked = client.process_game_update_ack(cmds, *last_game_update_seq, size_of);
        let ghost mid = client;
        let ghost cmid = cmds@;
        proof {
            assert(game_updates_acked(c_old, mid, old(cmds)@, cmid, packet->UpdateReply_last_game_update_seq, *size_of, acked));
        }
        match acked {
            Ok(()) => {},
            Err(e) => {
                self.per_endpoint.insert(endpoint, FilterEndpointData::OtherEndClient(client));
                proof {
                    assert(self.per_endpoint@.remove(endpoint) =~= old(self).per_endpoint@.remove(endpoint));
                }
                return Err(e);
            },
        }
        let partial = match partial_gen {
            Some(p) => Some(p),
            None => None,
        };
        let gen_ack = client.process_gen_ack(cmds, notices, *last_full_gen, partial);
        self.per_endpoint.insert(endpoint, FilterEndpointData::OtherEndClient(client));
        proof {
            assert(self.per_endpoint@.remove(endpoint) =~= old(self).per_endpoint@.remove(endpoint));
            assert(partial_gen == packet->UpdateReply_partial_gen);
        }
        gen_ack
    }
}

impl Filter {
    /// Handles a packet delivered by the transport layer from `endpoint`.
    ///
    /// A packet from an unknown endpoint is ignored unless admitted (see `admitted`); a server
    /// tells an ignored peer it is not connected, and a new client's connect request creates
    /// the client's record and the transport's endpoint. Then:
    /// - a request (server side) resends and drops the response codes it acknowledges, needs
    ///   the client's cookie (but to connect), is dropped when already seen, and is queued by
    ///   sequence number; the requests now in order go up to the application, in order, and
    ///   the last of them becomes the last request seen (see `request_taken`);
    /// - a response (client side) is dropped when already seen; it drops the requests it
    ///   acknowledges from the transport's queue and is queued by sequence number; the codes
    ///   now in order are applied (see `apply_response_code`) and go up, in order, and the last
    ///   of them becomes the last response seen (see `response_taken`);
    /// - an update (client side) gives its diff part to the game, its game updates and chats
    ///   to the room, keeps the server's ping, and is answered with an update reply;
    /// - a status (client side) from a pinged server completes a latency measurement and goes
    ///   up with the latency;
    /// - a status request (server side) is answered with the status;
    /// - an update reply (server side) with the client's cookie acknowledges chats, game
    ///   updates and generations.
    /// Packets of the wrong side give `UnexpectedData`.
    #[verifier::loop_isolation(false)]
    #[verifier::rlimit(60)]
    pub fn process_transport_packet<S: Fn(&GameUpdate) -> Option<u64>, A: Fn(&GenStateDiff, Option<usize>) -> Result<Option<usize>, String>>(
        &mut self,
        endpoint: Endpoint,
        packet: Packet,
        cmds: &mut Vec<TransportCmd>,
        notices: &mut Vec<FilterNotice>,
        size_of: &S,
        apply: &A,
    ) -> (r: Result<(), FilterError>)
        requires
            old(self).wf(),
            forall|u: &GameUpdate| #[trigger] size_of.requires((u,)),
            forall|d: &GenStateDiff, p: Option<usize>| #[trigger] apply.requires((d, p)),
            update_supported(*old(self), endpoint, packet),
        ensures
            final(self).wf(),
            final(self).mode == old(self).mode,
            final(self).auth_requests == old(self).auth_requests,
            !admitted(*old(self), endpoint, packet) ==> r is Ok && *final(self) == *old(self) && final(notices)@ == old(notices)@
                && if old(self).mode is Server {
                    final(cmds)@ == old(cmds)@.push(final(cmds)@.last()) && not_connected_reply(final(cmds)@.last(), endpoint)
                } else {
                    final(cmds)@ == old(cmds)@
                },
            (old(self).mode is Server && !old(self).per_endpoint@.contains_key(endpoint) && valid_connect(packet)) ==> {
                &&& r is Ok
                &&& final(self).per_endpoint@.contains_key(endpoint)
                &&& final(self).per_endpoint@[endpoint] is OtherEndClient
                &&& final(self).per_endpoint@ == old(self).per_endpoint@.insert(endpoint, final(self).per_endpoint@[endpoint])
                &&& final(notices)@ == old(notices)@.push(FilterNotice::NewRequestAction { endpoint, action: packet->Request_action })
                &&& connected_client(final(self).per_endpoint@[endpoint]->OtherEndClient_0, endpoint, packet->Request_sequence)
                &&& final(cmds)@[old(cmds)@.len() as int] == (TransportCmd::NewEndpoint { endpoint, timeout: duration_from_millis(DEFAULT_ENDPOINT_TIMEOUT_MS) })
            },
            (packet is Update && is_server_peer(*old(self), endpoint)) ==> {
                &&& r is Err ==> update_may_fail(old(self).per_endpoint@[endpoint]->OtherEndServer_0, packet, *apply)
                &&& update_must_fail(old(self).per_endpoint@[endpoint]->OtherEndServer_0, packet) ==> r is Err
            },
            (packet is Update && is_server_peer(*old(self), endpoint) && r is Ok) ==> final(self).per_endpoint@[endpoint] is OtherEndServer
                && update_applied(old(self).per_endpoint@[endpoint]->OtherEndServer_0, final(self).per_endpoint@[endpoint]->OtherEndServer_0, packet, *apply),
            (packet is Update && is_server_peer(*old(self), endpoint) && r is Ok) ==> update_notices(
                old(self).per_endpoint@[endpoint]->OtherEndServer_0, packet, final(notices)@.skip(old(notices)@.len() as int), endpoint),
            (old(self).mode is Client && packet is Status && admitted(*old(self), endpoint, packet)) ==> r is Ok
                && status_taken(*old(self), *final(self), packet, old(notices)@, final(notices)@, endpoint),
            (old(self).mode is Server && packet is UpdateReply && old(self).per_endpoint@.contains_key(endpoint))
                ==> update_reply_taken(*old(self), *final(self), packet, old(cmds)@, final(cmds)@, old(notices)@,
                    final(notices)@, endpoint, *size_of, r),
            (packet is Response && is_server_peer(*old(self), endpoint)) ==> {
                &&& r is Ok
                &&& only_peer_changed(*old(self), *final(self), endpoint)
                &&& response_taken(old(self).per_endpoint@[endpoint]->OtherEndServer_0,
                    final(self).per_endpoint@[endpoint]->OtherEndServer_0, packet, old(notices)@, final(notices)@, endpoint)
                &&& !(spec_seq_num_advancement(packet->Response_sequence,
                    old(self).per_endpoint@[endpoint]->OtherEndServer_0.last_response_sequence_seen) is Duplicate)
                    ==> request_acks_taken(old(self).per_endpoint@[endpoint]->OtherEndServer_0.unacked_outgoing_packet_tids@,
                        final(self).per_endpoint@[endpoint]->OtherEndServer_0.unacked_outgoing_packet_tids@,
                        old(cmds)@, final(cmds)@, packet->Response_request_ack, endpoint)
            },
            (packet is Request && is_client_peer(*old(self), endpoint)) ==> {
                let c = old(self).per_endpoint@[endpoint]->OtherEndClient_0;
                &&& only_peer_changed(*old(self), *final(self), endpoint)
                &&& codes_resent(c, final(self).per_endpoint@[endpoint]->OtherEndClient_0.unacked_response_codes@,
                    old(cmds)@, final(cmds)@, packet->Request_response_ack)
                &&& !cookie_admitted(packet, c.cookie) ==> (r matches Err(e) && e is Refused) && final(notices)@ == old(notices)@
                &&& cookie_admitted(packet, c.cookie) ==> r is Ok
                    && request_taken(c, final(self).per_endpoint@[endpoint]->OtherEndClient_0, packet,
                        old(notices)@, final(notices)@, endpoint)
                    && request_kept(c, final(self).per_endpoint@[endpoint]->OtherEndClient_0)
            },
            (admitted(*old(self), endpoint, packet) && old(self).mode is Client && (packet is GetStatus || packet is UpdateReply))
                ==> r is Err && r->Err_0 is UnexpectedData,
            (admitted(*old(self), endpoint, packet) && old(self).mode is Server && packet is Status)
                ==> r is Err && r->Err_0 is UnexpectedData,
            (old(self).mode is Server && packet is GetStatus) ==> r is Ok && final(notices)@ == old(notices)@
                && final(cmds)@.len() == old(cmds)@.len() + 1 && final(cmds)@.drop_last() == old(cmds)@
                && (final(cmds)@.last() matches TransportCmd::SendPackets { endpoint: e, packets, .. } && e == endpoint
                && packets@.len() == 1 && packets@[0] is Status),
            final(notices)@.take(old(notices)@.len() as int) == old(notices)@,
            packet is Request ==> forall|k: int| old(notices)@.len() <= k < final(notices)@.len() ==>
                (#[trigger] final(notices)@[k] matches FilterNotice::NewRequestAction { endpoint: e, .. } && e == endpoint),
            packet is Response ==> forall|k: int| old(notices)@.len() <= k < final(notices)@.len() ==>
                (#[trigger] final(notices)@[k] matches FilterNotice::NewResponseCode { endpoint: e, .. } && e == endpoint),
    {
        let ghost mut fresh_client: OtherEndClient = arbitrary();
        if !self.per_endpoint.contains_key(&endpoint) {
            let mut ignore = true;
            if self.mode.is_server() {
                match &packet {
                    Packet::GetStatus { .. } => {
                        ignore = false;
                    },
                    _ => {
                        if is_valid_connect_packet(&packet) {
                            ignore = false;
                            let fresh = OtherEndClient::new(endpoint);
                            proof {
                                fresh_client = fresh;
                            }
                            self.per_endpoint.insert(endpoint, FilterEndpointData::OtherEndClient(fresh));
                            cmds.push(TransportCmd::NewEndpoint { endpoint, timeout: millis_to_duration(DEFAULT_ENDPOINT_TIMEOUT_MS) });
                        }
                    },
                }
            } else {
                if self.ping_index(&endpoint).is_some() {
                    ignore = false;
                }
            }
            if ignore {
                if self.mode.is_server() {
                    self.send_not_connected(endpoint, cmds);
                }
                return Ok(());
            }
        }
        let ghost c1 = cmds@;
        let ghost n1 = notices@;
        proof {
            assert(notices@.take(old(notices)@.len() as int) =~= old(notices)@);
        }
        let ghost mid = *self;
        match packet {
            Packet::Request { .. } => {
                let r = self.process_request(endpoint, packet, cmds, notices);
                proof {
                    if old(self).mode is Server && !old(self).per_endpoint@.contains_key(endpoint) && valid_connect(packet) {
                        assert(mid.per_endpoint@[endpoint] == FilterEndpointData::OtherEndClient(fresh_client));
                        assert(is_client_peer(mid, endpoint));
                        lemma_first_request(fresh_client, self.per_endpoint@[endpoint]->OtherEndClient_0, packet,
                            n1, notices@, endpoint);
                        assert(old(self).per_endpoint@ =~= mid.per_endpoint@.remove(endpoint));
                        assert(self.per_endpoint@.remove(endpoint) == mid.per_endpoint@.remove(endpoint));
                        assert(self.per_endpoint@ =~= self.per_endpoint@.remove(endpoint).insert(endpoint, self.per_endpoint@[endpoint]));
                        assert(self.per_endpoint@ =~= old(self).per_endpoint@.insert(endpoint, self.per_endpoint@[endpoint]));
                        assert(notices@[old(notices)@.len() as int] == FilterNotice::NewRequestAction { endpoint, action: packet->Request_action });
                        assert(cmds@[old(cmds)@.len() as int] == c1[old(cmds)@.len() as int]);
                        assert(request_kept(fresh_client, self.per_endpoint@[endpoint]->OtherEndClient_0));
                        assert(connected_client(self.per_endpoint@[endpoint]->OtherEndClient_0, endpoint, packet->Request_sequence));
                    }
                }
                r
            },
            Packet::Response { .. } => self.process_response(endpoint, packet, cmds, notices),
            Packet::Update { .. } => self.process_update(endpoint, packet, cmds, notices, apply),
            Packet::Status { .. } => self.process_status(endpoint, &packet, notices),
            Packet::GetStatus { ping } => {
                if self.mode.is_client() {
                    return Err(FilterError::UnexpectedData { mode: self.mode.clone(), invalid_data: String::from_str("GetStatus") });
                }
                self.send_server_status(endpoint, ping, cmds);
                Ok(())
            },
            Packet::UpdateReply { .. } => self.process_update_reply(endpoint, &packet, cmds, notices, size_of),
        }
    }

    /// Whether `packet` from `endpoint` can be processed (see `update_supported`): the test to
    /// make before `process_transport_packet`.
    pub fn can_process_transport_packet(&self, endpoint: Endpoint, packet: &Packet) -> (r: bool)
        requires
            self.wf(),
        ensures
            r == update_supported(*self, endpoint, *packet),
    {
        match packet {
            Packet::Update { game_update_seq, game_updates, .. } => match self.per_endpoint.get(&endpoint) {
                Some(FilterEndpointData::OtherEndServer(sv)) => {
                    let n = game_updates.len();
                    let fits = match sv.game_update_seq {
                        None => true,
                        Some(s) => (s as u128) + (n as u128) < 0xffff_ffff_ffff_ffffu128,
                    };
                    if !fits {
                        return false;
                    }
                    let starts = match (sv.game_update_seq, *game_update_seq) {
                        (_, None) => false,
                        (None, Some(_)) => true,
                        (Some(s), Some(rcv)) => {
                            if (s as u128) + 1 >= rcv as u128 {
                                (s as u128) + 1 - (rcv as u128) < n as u128
                            } else {
                                false
                            }
                        },
                    };
                    let is_match = n == 1 && matches!(game_updates[0], GameUpdate::Match { .. });
                    !(sv.room.is_none() && starts && is_match)
                },
                _ => true,
            },
            _ => true,
        }
    }

    /// Handles an endpoint notice of the transport layer (a packet delivery is handled by
    /// `process_transport_packet`): a timed-out endpoint is forgotten, the transport told to
    /// drop it and the application told of the timeout; an idle server is sent a keep-alive
    /// (by a client, unless it is only pinged).
    pub fn process_endpoint_notice(&mut self, notice: TransportNotice, cmds: &mut Vec<TransportCmd>, notices: &mut Vec<FilterNotice>) -> (r: Result<(), FilterError>)
        requires
            old(self).wf(),
            !(notice is PacketDelivery),
        ensures
            final(self).wf(),
            match notice {
                TransportNotice::EndpointTimeout { endpoint } => r is Ok
                    && final(self).per_endpoint@ == old(self).per_endpoint@.remove(endpoint)
                    && final(cmds)@ == old(cmds)@.push(TransportCmd::DropEndpoint { endpoint })
                    && final(notices)@ == old(notices)@.push(FilterNotice::EndpointTimeout { endpoint }),
                TransportNotice::EndpointIdle { endpoint } => final(notices)@ == old(notices)@ && if old(self).mode is Client && !old(self).pinged(endpoint) {
                    (r is Ok) == (old(self).per_endpoint@.contains_key(endpoint) && old(self).per_endpoint@[endpoint] is OtherEndServer)
                        && (r is Ok ==> final(cmds)@.len() == old(cmds)@.len() + 1
                        && (final(cmds)@.last() matches TransportCmd::SendPackets { endpoint: e, packets, .. } && e == endpoint
                            && packets@.len() == 1 && packets@[0] matches Packet::Request { action: RequestAction::KeepAlive { .. }, .. }))
                } else {
                    r is Ok && *final(self) == *old(self) && final(cmds)@ == old(cmds)@
                },
                _ => true,
            },
    {
        match notice {
            TransportNotice::EndpointTimeout { endpoint } => {
                let _ = self.per_endpoint.remove(&endpoint);
                cmds.push(TransportCmd::DropEndpoint { endpoint });
                notices.push(FilterNotice::EndpointTimeout { endpoint });
                Ok(())
            },
            TransportNotice::EndpointIdle { endpoint } => {
                if self.mode.is_client() && self.ping_index(&endpoint).is_none() {
                    let action = RequestAction::KeepAlive { latest_response_ack: 0 };
                    self.send_request_action_to_server(endpoint, action, cmds)
                } else {
                    Ok(())
                }
            },
            TransportNotice::PacketDelivery { .. } => Ok(()),
        }
    }
}

} // verus!
