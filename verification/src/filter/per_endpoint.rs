//! What the filter layer keeps for each peer: a client seen from the server, or the server
//! seen from a client. Instead of sending, the methods here append the transport commands
//! and application notices they produce to the vectors they are given, in order.
use vstd::prelude::*;
use std::collections::VecDeque;
use std::sync::Arc;
use snowflake::ProcessUniqueId;
use crate::common::Endpoint;
use crate::filter::filter::seq_successor;
use crate::filter::ping::PingPong;
use crate::filter::server_update::{distinct_diff_keys, ServerRoom, UnackedQueue, MAX_GSD_PARTS};
use crate::filter::sortedbuffer::SequencedMinHeap;
use crate::filter::client_update::{room_step, ClientRoom};
use crate::filter::error::FilterError;
use crate::filter::interface::FilterNotice;
use crate::protocol::{GameUpdate, GenPartInfo, GenStateDiffPart, Packet, RequestAction, ResponseCode, UniUpdate};
use crate::time::{duration_from_millis, millis_to_duration};
use crate::transport::interface::{new_tid, PacketSettings, TransportCmd};

verus! {

/// `s` advanced `k` times on the wrapping `u64` circle.
pub open spec fn wadd(s: u64, k: nat) -> u64
    decreases k,
{
    if k == 0 {
        s
    } else {
        seq_successor(wadd(s, (k - 1) as nat))
    }
}

/// The predecessor of `s` on the wrapping `u64` circle.
pub open spec fn seq_predecessor(s: u64) -> u64 {
    if s == 0 { u64::MAX } else { (s - 1) as u64 }
}

/// `s` moved back `k` times on the wrapping `u64` circle.
pub open spec fn wsub(s: u64, k: nat) -> u64
    decreases k,
{
    if k == 0 {
        s
    } else {
        seq_predecessor(wsub(s, (k - 1) as nat))
    }
}

proof fn lemma_wadd_wsub(s: u64, k: nat)
    ensures
        wadd(wsub(s, k), k) == s,
    decreases k,
{
    if k > 0 {
        lemma_wadd_wsub(s, (k - 1) as nat);
        lemma_wadd_shift(wsub(s, k), (k - 1) as nat);
    }
}

/// Advancing by one more step first is advancing once more.
proof fn lemma_wadd_shift(s: u64, k: nat)
    ensures
        wadd(seq_successor(s), k) == wadd(s, k + 1),
    decreases k,
{
    reveal_with_fuel(wadd, 2);
    if k > 0 {
        lemma_wadd_shift(s, (k - 1) as nat);
    }
}

/// The sequence number that follows `last`, or 1 when there was none.
pub open spec fn next_sequence(last: Option<u64>) -> u64 {
    match last {
        Some(s) => seq_successor(s),
        None => 1,
    }
}

/// `infos` are `n` settings for packets sent once (no retry).
pub open spec fn sent_once(infos: Seq<PacketSettings>, n: int) -> bool {
    &&& infos.len() == n
    &&& forall|i: int| 0 <= i < n ==> (#[trigger] infos[i]).retry_interval == duration_from_millis(0)
}

/// What sending `code` as a new response (see `OtherEndClient::send_response_code`) makes of the
/// client `before` and the transport commands `cmds0`: the code goes out numbered next, then OK
/// answers as many waiting keep-alives as it can.
pub open spec fn code_sent(before: OtherEndClient, after: OtherEndClient, cmds0: Seq<TransportCmd>,
    cmds1: Seq<TransportCmd>, code: ResponseCode) -> bool {
    let seq0 = next_sequence(before.last_response_sequence_sent);
    let k = ok_count(before.auto_response_seqs@.len(), seq0,
        if before.app_response_seqs@.len() > 0 { Some(before.app_response_seqs@.last()) } else { None });
    let u0 = before.unacked_response_codes@;
    &&& k <= before.auto_response_seqs@.len()
    &&& after.last_response_sequence_sent == Some(wadd(seq0, k))
    &&& after.auto_response_seqs@ == before.auto_response_seqs@.take(before.auto_response_seqs@.len() - k)
    &&& room_after_code(before.room, code, after.room)
    &&& after.unacked_response_codes@.len() == u0.len() + 1 + k
    &&& after.unacked_response_codes@.take(u0.len() as int) == u0
    &&& cloned(code, after.unacked_response_codes@[u0.len() as int])
    &&& forall|j: int| 0 <= j < k ==> cloned(ResponseCode::OK, #[trigger] after.unacked_response_codes@[u0.len() + 1 + j])
    &&& cmds1.len() == cmds0.len() + 1 + k
    &&& cmds1.take(cmds0.len() as int) == cmds0
    &&& sends_once(cmds1[cmds0.len() as int], before.endpoint, Packet::Response {
        code,
        sequence: seq0,
        request_ack: before.last_request_sequence_seen,
    })
    &&& forall|j: int| 0 <= j < k ==> sends_once(#[trigger] cmds1[cmds0.len() + 1 + j], before.endpoint, Packet::Response {
        code: ResponseCode::OK,
        sequence: wadd(seq0, (j + 1) as nat),
        request_ack: before.last_request_sequence_seen,
    })
    &&& after == (OtherEndClient {
        last_response_sequence_sent: after.last_response_sequence_sent,
        unacked_response_codes: after.unacked_response_codes,
        auto_response_seqs: after.auto_response_seqs,
        room: after.room,
        ..before
    })
}

/// `cmd` sends to `endpoint`, once, the single packet `packet`.
pub open spec fn sends_once(cmd: TransportCmd, endpoint: Endpoint, packet: Packet) -> bool {
    cmd matches TransportCmd::SendPackets { endpoint: e, packet_infos, packets } && e == endpoint
        && packets@ == seq![packet] && sent_once(packet_infos@, 1)
}

/// Settings for `count` packets sent once, each with a fresh transmit identifier.
pub fn no_retry_packet_info_vec(count: usize) -> (infos: Vec<PacketSettings>)
    ensures
        sent_once(infos@, count as int),
{
    let mut packet_infos: Vec<PacketSettings> = Vec::new();
    let mut i: usize = 0;
    while i < count
        invariant
            i <= count,
            sent_once(packet_infos@, i as int),
        decreases count - i,
    {
        packet_infos.push(PacketSettings { tid: new_tid(), retry_interval: millis_to_duration(0) });
        i = i + 1;
    }
    packet_infos
}

/// The server's record of a connected client.
pub struct OtherEndClient {
    pub endpoint: Endpoint,
    pub request_actions: SequencedMinHeap<RequestAction>,
    pub last_request_sequence_seen: Option<u64>,
    pub last_response_sequence_sent: Option<u64>,
    /// Response codes sent and not yet acknowledged; the back one was numbered
    /// `last_response_sequence_sent`.
    pub unacked_response_codes: VecDeque<ResponseCode>,
    pub gen_state_packet_ids: Vec<ProcessUniqueId>,
    pub cookie: Option<String>,
    pub room: Option<ServerRoom>,
    /// Game updates of a room left behind; while in the lobby, these go out first.
    pub old_room_game_updates: UnackedQueue<GameUpdate>,
    pub game_update_packet_ids: Vec<ProcessUniqueId>,
    /// Response sequence numbers reserved for answering the client's keep-alives with OK.
    pub auto_response_seqs: VecDeque<u64>,
    /// Response sequence numbers reserved for codes the application has yet to give.
    pub app_response_seqs: VecDeque<u64>,
}

/// What the response acknowledgement `ack` of a request from the client `c` does to the
/// response codes sent to it and not yet acknowledged (giving `rest`) and to the transport
/// commands (`c0` giving `c1`): the codes up to the acknowledged one are dropped (none when it
/// names none of them), and the codes still unacknowledged are sent again in one transport
/// command, if there are any.
pub open spec fn codes_resent(c: OtherEndClient, rest: Seq<ResponseCode>, c0: Seq<TransportCmd>,
    c1: Seq<TransportCmd>, ack: Option<u64>) -> bool {
    let u0 = c.unacked_response_codes@;
    let n = u0.len();
    match c.last_response_sequence_sent {
        Some(last) if n > 0 => {
            let first = wsub(last, (n - 1) as nat);
            let found = first_match_from(first, 0, n, ack);
            let kept = match found { Some(i) => u0.skip(i + 1 as int), None => u0 };
            let start = match found { Some(i) => wadd(first, i + 1), None => first };
            &&& rest == kept
            &&& if kept.len() == 0 {
                c1 == c0
            } else {
                &&& c1.len() == c0.len() + 1
                &&& c1.drop_last() == c0
                &&& c1.last() matches TransportCmd::SendPackets { endpoint, packet_infos, packets }
                    && endpoint == c.endpoint && sent_once(packet_infos@, kept.len() as int)
                    && resends(packets@, kept, start, c.last_request_sequence_seen)
            }
        },
        _ => rest == u0 && c1 == c0,
    }
}

impl OtherEndClient {
    pub open spec fn wf(&self) -> bool {
        &&& self.request_actions.wf()
        &&& self.room matches Some(r) ==> r.wf()
    }

    pub fn new(endpoint: Endpoint) -> (r: Self)
        ensures
            r.wf(),
            r.endpoint == endpoint,
            r.request_actions@ == Map::<u64, RequestAction>::empty(),
            r.last_request_sequence_seen is None,
            r.last_response_sequence_sent is None,
            r.unacked_response_codes@.len() == 0,
            r.gen_state_packet_ids@.len() == 0,
            r.cookie is None,
            r.room is None,
            r.old_room_game_updates.seq_view().len() == 0 && r.old_room_game_updates.current() is None
                && r.old_room_game_updates.last_acked() is None,
            r.game_update_packet_ids@.len() == 0,
            r.auto_response_seqs@.len() == 0,
            r.app_response_seqs@.len() == 0,
    {
        OtherEndClient {
            endpoint,
            request_actions: SequencedMinHeap::new(),
            last_request_sequence_seen: None,
            last_response_sequence_sent: None,
            unacked_response_codes: VecDeque::new(),
            gen_state_packet_ids: Vec::new(),
            cookie: None,
            room: None,
            old_room_game_updates: UnackedQueue::new(),
            game_update_packet_ids: Vec::new(),
            auto_response_seqs: VecDeque::new(),
            app_response_seqs: VecDeque::new(),
        }
    }

    /// Keeps the client state the filter needs: leaving a room forgets the room.
    pub fn process_request_action(&mut self, action: &RequestAction)
        ensures
            *action is LeaveRoom ==> final(self).room is None,
            *action is LeaveRoom ==> *final(self) == (OtherEndClient { room: None, ..*old(self) }),
            !(*action is LeaveRoom) ==> *final(self) == *old(self),
    {
        match action {
            RequestAction::LeaveRoom => {
                self.room = None;
            },
            _ => {},
        }
    }

    /// The client joined the room `room_name`: a fresh room record.
    pub fn join_room(&mut self, room_name: &str)
        ensures
            final(self).room matches Some(r) && r.room_name@ == room_name@ && r.latest_gen == 0
                && r.latest_gen_client_has == 0 && r.unacked_gsd_parts@.len() == 0
                && r.game_updates.seq_view().len() == 0 && r.game_updates.current() is None,
            *final(self) == (OtherEndClient { room: final(self).room, ..*old(self) }),
    {
        let room = ServerRoom::new(room_name.to_owned());
        self.room = Some(room);
    }

    /// Records the newest generation of the client's room, if it is in one.
    pub fn set_latest_gen(&mut self, latest_gen: usize)
        ensures
            match old(self).room {
                Some(r) => *final(self) == (OtherEndClient { room: Some(ServerRoom { latest_gen, ..r }), ..*old(self) }),
                None => *final(self) == *old(self),
            },
    {
        match &mut self.room {
            Some(room) => {
                room.latest_gen = latest_gen;
            },
            None => {},
        }
    }

    /// Drops every packet of diff parts sent (their identifiers are forgotten).
    pub fn drop_all_gen_state_diff_packets(&mut self, cmds: &mut Vec<TransportCmd>)
        ensures
            *final(self) == (OtherEndClient { gen_state_packet_ids: final(self).gen_state_packet_ids, ..*old(self) }),
            final(self).gen_state_packet_ids@.len() == 0,
            drops_all(final(cmds)@, old(cmds)@, old(self).endpoint, old(self).gen_state_packet_ids@),
    {
        let ghost ids = self.gen_state_packet_ids@;
        let mut i: usize = 0;
        proof {
            assert(cmds@.take(old(cmds)@.len() as int) =~= old(cmds)@);
        }
        while i < self.gen_state_packet_ids.len()
            invariant
                i <= ids.len(),
                self.gen_state_packet_ids@ == ids,
                *self == *old(self),
                drops_all(cmds@, old(cmds)@, self.endpoint, ids.take(i as int)),
            decreases ids.len() - i,
        {
            let ghost before = cmds@;
            cmds.push(TransportCmd::DropPacket { endpoint: self.endpoint, tid: self.gen_state_packet_ids[i] });
            i = i + 1;
            proof {
                assert(cmds@.take(old(cmds)@.len() as int) =~= before.take(old(cmds)@.len() as int));
                assert forall|j: int| 0 <= j < i implies #[trigger] cmds@[old(cmds)@.len() + j] == (TransportCmd::DropPacket { endpoint: self.endpoint, tid: ids.take(i as int)[j] }) by {
                    if j < i - 1 {
                        assert(cmds@[old(cmds)@.len() + j] == before[old(cmds)@.len() + j]);
                        assert(ids.take(i - 1)[j] == ids.take(i as int)[j]);
                    }
                }
            }
        }
        proof {
            assert(ids.take(ids.len() as int) =~= ids);
        }
        self.gen_state_packet_ids.clear();
    }
}

/// The room of a client after a response code is sent to it: joining a room starts a fresh
/// record of it; other codes leave it.
pub open spec fn room_after_code(room: Option<ServerRoom>, code: ResponseCode, new_room: Option<ServerRoom>) -> bool {
    match code {
        ResponseCode::JoinedRoom { room_name } => new_room matches Some(r) && r.room_name@ == room_name@
            && r.latest_gen == 0 && r.latest_gen_client_has == 0 && r.unacked_gsd_parts@.len() == 0
            && r.game_updates.seq_view().len() == 0 && r.game_updates.current() is None,
        _ => new_room == room,
    }
}

/// The number of keep-alive answers (OK codes) sent right after the code numbered `seq`:
/// one per reserved keep-alive sequence number (`n` of them), stopping before the number
/// awaited from the application (`stop`).
pub open spec fn ok_count(n: nat, seq: u64, stop: Option<u64>) -> nat
    decreases n,
{
    if n == 0 || stop == Some(seq_successor(seq)) {
        0
    } else {
        1 + ok_count((n - 1) as nat, seq_successor(seq), stop)
    }
}

proof fn lemma_ok_count_bound(n: nat, seq: u64, stop: Option<u64>)
    ensures
        ok_count(n, seq, stop) <= n,
    decreases n,
{
    if n > 0 && stop != Some(seq_successor(seq)) {
        lemma_ok_count_bound((n - 1) as nat, seq_successor(seq), stop);
    }
}

/// Index of the first of `n` consecutive numbers from `first` (counting from `j`) that is
/// `acked`, if any.
pub open spec fn first_match_from(first: u64, j: nat, n: nat, acked: Option<u64>) -> Option<nat>
    decreases n - j,
{
    if j >= n {
        None
    } else if acked == Some(wadd(first, j)) {
        Some(j)
    } else {
        first_match_from(first, j + 1, n, acked)
    }
}

proof fn lemma_first_match_from(first: u64, j: nat, n: nat, acked: Option<u64>)
    ensures
        match first_match_from(first, j, n, acked) {
            Some(i) => j <= i < n && acked == Some(wadd(first, i))
                && forall|m: nat| j <= m < i ==> acked != Some(#[trigger] wadd(first, m)),
            None => forall|m: nat| j <= m < n ==> acked != Some(#[trigger] wadd(first, m)),
        },
    decreases n - j,
{
    if j < n && acked != Some(wadd(first, j)) {
        lemma_first_match_from(first, j + 1, n, acked);
    }
}

/// `packets` resend `codes` as responses numbered from `start` with acknowledgement `ack`.
pub open spec fn resends(packets: Seq<Packet>, codes: Seq<ResponseCode>, start: u64, ack: Option<u64>) -> bool {
    &&& packets.len() == codes.len()
    &&& forall|i: int| 0 <= i < codes.len() ==> (#[trigger] packets[i] matches Packet::Response { sequence, request_ack, code }
        && sequence == wadd(start, i as nat) && request_ack == ack && cloned(codes[i], code))
}

impl OtherEndClient {
    /// Sends `code` as the response numbered `sequence` (once), keeping a copy until it is
    /// acknowledged; joining a room starts a fresh record of it.
    pub fn do_send_response_code(&mut self, cmds: &mut Vec<TransportCmd>, code: ResponseCode, sequence: u64)
        ensures
            room_after_code(old(self).room, code, final(self).room),
            final(self).unacked_response_codes@.len() == old(self).unacked_response_codes@.len() + 1,
            final(self).unacked_response_codes@.drop_last() == old(self).unacked_response_codes@,
            cloned(code, final(self).unacked_response_codes@.last()),
            *final(self) == (OtherEndClient {
                room: final(self).room,
                unacked_response_codes: final(self).unacked_response_codes,
                ..*old(self)
            }),
            final(cmds)@.len() == old(cmds)@.len() + 1,
            final(cmds)@.drop_last() == old(cmds)@,
            sends_once(final(cmds)@.last(), old(self).endpoint, Packet::Response {
                code,
                sequence,
                request_ack: old(self).last_request_sequence_seen,
            }),
    {
        match &code {
            ResponseCode::JoinedRoom { room_name } => {
                self.join_room(room_name.as_str());
            },
            _ => {},
        }
        let ghost u0 = self.unacked_response_codes@;
        let copy = code.clone();
        self.unacked_response_codes.push_back(copy);
        proof {
            assert(self.unacked_response_codes@.drop_last() =~= u0);
        }
        let request_ack = self.last_request_sequence_seen;
        let mut packets: Vec<Packet> = Vec::new();
        packets.push(Packet::Response { code, sequence, request_ack });
        let ghost c0 = cmds@;
        cmds.push(TransportCmd::SendPackets { endpoint: self.endpoint, packet_infos: no_retry_packet_info_vec(1), packets });
        proof {
            assert(cmds@.drop_last() =~= c0);
            assert(packets@ =~= seq![Packet::Response { code, sequence, request_ack }]);
        }
    }

    /// Answers a keep-alive: OK as the next response.
    pub fn send_keep_alive_response(&mut self, cmds: &mut Vec<TransportCmd>)
        ensures
            final(self).last_response_sequence_sent == Some(next_sequence(old(self).last_response_sequence_sent)),
            final(self).room == old(self).room,
            final(self).unacked_response_codes@.drop_last() == old(self).unacked_response_codes@,
            final(self).unacked_response_codes@.len() == old(self).unacked_response_codes@.len() + 1,
            cloned(ResponseCode::OK, final(self).unacked_response_codes@.last()),
            *final(self) == (OtherEndClient {
                last_response_sequence_sent: final(self).last_response_sequence_sent,
                unacked_response_codes: final(self).unacked_response_codes,
                ..*old(self)
            }),
            final(cmds)@.len() == old(cmds)@.len() + 1,
            final(cmds)@.drop_last() == old(cmds)@,
            sends_once(final(cmds)@.last(), old(self).endpoint, Packet::Response {
                code: ResponseCode::OK,
                sequence: next_sequence(old(self).last_response_sequence_sent),
                request_ack: old(self).last_request_sequence_seen,
            }),
    {
        let sequence = match self.last_response_sequence_sent {
            Some(sn) => sn.wrapping_add(1),
            None => 1,
        };
        self.last_response_sequence_sent = Some(sequence);
        self.do_send_response_code(cmds, ResponseCode::OK, sequence);
    }

    /// Sends `code` as a new response (not a resend), numbered next; then answers with OK as
    /// many waiting keep-alives as it can, up to the number awaited from the application.
    pub fn send_response_code(&mut self, cmds: &mut Vec<TransportCmd>, code: ResponseCode)
        ensures
            code_sent(*old(self), *final(self), old(cmds)@, final(cmds)@, code),
    {
        let ghost stop = if self.app_response_seqs@.len() > 0 { Some(self.app_response_seqs@.last()) } else { None };
        let ghost u0 = self.unacked_response_codes@;
        let ghost c0 = cmds@;
        let ghost n0 = self.auto_response_seqs@.len();
        let sequence = match self.last_response_sequence_sent {
            Some(sn) => sn.wrapping_add(1),
            None => 1,
        };
        let ghost seq0 = sequence;
        self.last_response_sequence_sent = Some(sequence);
        self.do_send_response_code(cmds, code, sequence);
        let ghost room1 = self.room;
        let ghost mut sent: nat = 0;
        proof {
            lemma_ok_count_bound(n0, seq0, stop);
            assert(self.unacked_response_codes@.take(u0.len() as int) =~= u0);
            assert(cmds@.take(c0.len() as int) =~= c0);
        }
        while self.auto_response_seqs.len() > 0
            invariant
                stop == (if old(self).app_response_seqs@.len() > 0 { Some(old(self).app_response_seqs@.last()) } else { None }),
                n0 == old(self).auto_response_seqs@.len(),
                ok_count(n0, seq0, stop) <= n0,
                sent <= n0,
                ok_count(n0, seq0, stop) == sent + ok_count((n0 - sent) as nat, wadd(seq0, sent), stop),
                self.last_response_sequence_sent == Some(wadd(seq0, sent)),
                self.auto_response_seqs@ == old(self).auto_response_seqs@.take(n0 - sent),
                self.app_response_seqs == old(self).app_response_seqs,
                self.room == room1,
                room_after_code(old(self).room, code, room1),
                self.unacked_response_codes@.len() == u0.len() + 1 + sent,
                self.unacked_response_codes@.take(u0.len() as int) == u0,
                cloned(code, self.unacked_response_codes@[u0.len() as int]),
                forall|j: int| 0 <= j < sent ==> cloned(ResponseCode::OK, #[trigger] self.unacked_response_codes@[u0.len() + 1 + j]),
                cmds@.len() == c0.len() + 1 + sent,
                cmds@.take(c0.len() as int) == c0,
                sends_once(cmds@[c0.len() as int], old(self).endpoint, Packet::Response {
                    code,
                    sequence: seq0,
                    request_ack: old(self).last_request_sequence_seen,
                }),
                forall|j: int| 0 <= j < sent ==> sends_once(#[trigger] cmds@[c0.len() + 1 + j], old(self).endpoint, Packet::Response {
                    code: ResponseCode::OK,
                    sequence: wadd(seq0, (j + 1) as nat),
                    request_ack: old(self).last_request_sequence_seen,
                }),
                *self == (OtherEndClient {
                    last_response_sequence_sent: self.last_response_sequence_sent,
                    unacked_response_codes: self.unacked_response_codes,
                    auto_response_seqs: self.auto_response_seqs,
                    room: self.room,
                    ..*old(self)
                }),
            ensures
                ok_count(n0, seq0, stop) == sent,
                self.last_response_sequence_sent == Some(wadd(seq0, sent)),
                self.auto_response_seqs@ == old(self).auto_response_seqs@.take(n0 - sent),
                self.room == room1,
                self.unacked_response_codes@.len() == u0.len() + 1 + sent,
                self.unacked_response_codes@.take(u0.len() as int) == u0,
                cloned(code, self.unacked_response_codes@[u0.len() as int]),
                forall|j: int| 0 <= j < sent ==> cloned(ResponseCode::OK, #[trigger] self.unacked_response_codes@[u0.len() + 1 + j]),
                cmds@.len() == c0.len() + 1 + sent,
                cmds@.take(c0.len() as int) == c0,
                sends_once(cmds@[c0.len() as int], old(self).endpoint, Packet::Response {
                    code,
                    sequence: seq0,
                    request_ack: old(self).last_request_sequence_seen,
                }),
                forall|j: int| 0 <= j < sent ==> sends_once(#[trigger] cmds@[c0.len() + 1 + j], old(self).endpoint, Packet::Response {
                    code: ResponseCode::OK,
                    sequence: wadd(seq0, (j + 1) as nat),
                    request_ack: old(self).last_request_sequence_seen,
                }),
                *self == (OtherEndClient {
                    last_response_sequence_sent: self.last_response_sequence_sent,
                    unacked_response_codes: self.unacked_response_codes,
                    auto_response_seqs: self.auto_response_seqs,
                    room: self.room,
                    ..*old(self)
                }),
            decreases self.auto_response_seqs@.len(),
        {
            let last = match self.last_response_sequence_sent {
                Some(sn) => sn,
                None => 0,
            };
            let next_seq = last.wrapping_add(1);
            let app_len = self.app_response_seqs.len();
            if app_len > 0 && self.app_response_seqs[app_len - 1] == next_seq {
                proof {
                    assert(stop == Some(seq_successor(wadd(seq0, sent))));
                }
                break;
            }
            self.last_response_sequence_sent = Some(next_seq);
            let _expected_seq = self.auto_response_seqs.pop_back();
            let ghost u1 = self.unacked_response_codes@;
            let ghost c1 = cmds@;
            self.do_send_response_code(cmds, ResponseCode::OK, next_seq);
            proof {
                assert(self.auto_response_seqs@ =~= old(self).auto_response_seqs@.take(n0 - sent - 1));
                assert(wadd(seq0, sent + 1) == next_seq);
                assert(self.unacked_response_codes@.take(u0.len() as int) =~= u1.take(u0.len() as int));
                assert(cmds@.take(c0.len() as int) =~= c1.take(c0.len() as int));
                assert forall|j: int| 0 <= j < sent + 1 implies cloned(ResponseCode::OK, #[trigger] self.unacked_response_codes@[u0.len() + 1 + j]) by {
                    if j < sent {
                        assert(self.unacked_response_codes@[u0.len() + 1 + j] == u1[u0.len() + 1 + j]);
                    }
                }
                assert forall|j: int| 0 <= j < sent + 1 implies sends_once(#[trigger] cmds@[c0.len() + 1 + j], old(self).endpoint, Packet::Response {
                    code: ResponseCode::OK,
                    sequence: wadd(seq0, (j + 1) as nat),
                    request_ack: old(self).last_request_sequence_seen,
                }) by {
                    if j < sent {
                        assert(cmds@[c0.len() + 1 + j] == c1[c0.len() + 1 + j]);
                    }
                }
                assert(self.unacked_response_codes@[u0.len() as int] == u1[u0.len() as int]);
                assert(cmds@[c0.len() as int] == c1[c0.len() as int]);
                sent = sent + 1;
            }
        }
    }
}

impl OtherEndClient {
    /// Drops the response codes acknowledged by `acked_response_seq` and resends the rest.
    /// The codes kept are numbered consecutively up to the last response sent; an
    /// acknowledgement of one of those numbers drops that code and all before it. Whatever
    /// remains is resent once, in one command, with the same numbers.
    pub fn resend_and_drop_enqueued_response_codes(&mut self, cmds: &mut Vec<TransportCmd>, acked_response_seq: Option<u64>)
        ensures
            ({
                let u0 = old(self).unacked_response_codes@;
                let n = u0.len();
                match old(self).last_response_sequence_sent {
                    Some(last) if n > 0 => {
                        let first = wsub(last, (n - 1) as nat);
                        let found = first_match_from(first, 0, n, acked_response_seq);
                        let rest = match found { Some(i) => u0.skip(i + 1 as int), None => u0 };
                        let start = match found { Some(i) => wadd(first, i + 1), None => first };
                        &&& final(self).unacked_response_codes@ == rest
                        &&& *final(self) == (OtherEndClient { unacked_response_codes: final(self).unacked_response_codes, ..*old(self) })
                        &&& if rest.len() == 0 {
                            final(cmds)@ == old(cmds)@
                        } else {
                            &&& final(cmds)@.len() == old(cmds)@.len() + 1
                            &&& final(cmds)@.drop_last() == old(cmds)@
                            &&& final(cmds)@.last() matches TransportCmd::SendPackets { endpoint, packet_infos, packets }
                                && endpoint == old(self).endpoint && sent_once(packet_infos@, rest.len() as int)
                                && resends(packets@, rest, start, old(self).last_request_sequence_seen)
                        }
                    },
                    _ => *final(self) == *old(self) && final(cmds)@ == old(cmds)@,
                }
            }),
            codes_resent(*old(self), final(self).unacked_response_codes@, old(cmds)@, final(cmds)@, acked_response_seq),
    {
        let n = self.unacked_response_codes.len();
        if n == 0 {
            return;
        }
        let last = match self.last_response_sequence_sent {
            Some(last) => last,
            None => {
                return;
            },
        };
        let ghost u0 = self.unacked_response_codes@;
        // The number of the code at the front.
        let mut first = last;
        let mut b: usize = 0;
        while b < n - 1
            invariant
                b <= n - 1,
                first == wsub(last, b as nat),
            decreases n - 1 - b,
        {
            first = if first == 0 { u64::MAX } else { first - 1 };
            b = b + 1;
        }
        let ghost first_g = first;
        // Is the acknowledged number one of those kept?
        let mut included = false;
        let mut seq = first;
        let mut j: usize = 0;
        while j < n
            invariant_except_break
                j <= n,
                seq == wadd(first, j as nat),
                !included,
                forall|m: nat| m < j ==> acked_response_seq != Some(#[trigger] wadd(first, m)),
            ensures
                included ==> exists|m: nat| m < n && acked_response_seq == Some(#[trigger] wadd(first, m)),
                !included ==> forall|m: nat| m < n ==> acked_response_seq != Some(#[trigger] wadd(first, m)),
            decreases n - j,
        {
            if let Some(a) = acked_response_seq {
                if seq == a {
                    included = true;
                    proof {
                        assert(acked_response_seq == Some(wadd(first, j as nat)));
                    }
                    break;
                }
            }
            seq = seq.wrapping_add(1);
            j = j + 1;
        }
        proof {
            lemma_first_match_from(first, 0, n as nat, acked_response_seq);
        }
        let mut cur = first;
        if included {
            let acked = match acked_response_seq {
                Some(a) => a,
                None => 0,
            };
            let ghost idx = match first_match_from(first, 0, n as nat, acked_response_seq) {
                Some(i) => i,
                None => 0,
            };
            let mut popped: usize = 0;
            loop
                invariant_except_break
                    first_match_from(first, 0, n as nat, acked_response_seq) == Some(idx),
                    idx < n,
                    acked_response_seq == Some(acked),
                    acked == wadd(first, idx),
                    forall|m: nat| m < idx ==> acked_response_seq != Some(#[trigger] wadd(first, m)),
                    popped <= idx,
                    cur == wadd(first, popped as nat),
                    self.unacked_response_codes@ == u0.skip(popped as int),
                    u0 == old(self).unacked_response_codes@,
                    n == u0.len(),
                    *self == (OtherEndClient { unacked_response_codes: self.unacked_response_codes, ..*old(self) }),
                ensures
                    cur == wadd(first, idx + 1),
                    self.unacked_response_codes@ == u0.skip(idx + 1 as int),
                    *self == (OtherEndClient { unacked_response_codes: self.unacked_response_codes, ..*old(self) }),
                decreases idx - popped,
            {
                let _ = self.unacked_response_codes.pop_front();
                proof {
                    assert(self.unacked_response_codes@ =~= u0.skip(popped + 1));
                }
                if cur == acked {
                    proof {
                        if popped < idx {
                            assert(acked_response_seq == Some(wadd(first, popped as nat)));
                        }
                        assert(popped == idx);
                    }
                    cur = cur.wrapping_add(1);
                    break;
                }
                cur = cur.wrapping_add(1);
                popped = popped + 1;
            }
        }
        let rem = self.unacked_response_codes.len();
        if rem == 0 {
            return;
        }
        let ghost start = cur;
        let request_ack = self.last_request_sequence_seen;
        let mut packets: Vec<Packet> = Vec::new();
        let mut k: usize = 0;
        while k < rem
            invariant
                k <= rem,
                rem == self.unacked_response_codes@.len(),
                cur == wadd(start, k as nat),
                request_ack == old(self).last_request_sequence_seen,
                resends(packets@, self.unacked_response_codes@.take(k as int), start, request_ack),
            decreases rem - k,
        {
            let code = self.unacked_response_codes[k].clone();
            packets.push(Packet::Response { code, sequence: cur, request_ack });
            cur = cur.wrapping_add(1);
            k = k + 1;
        }
        proof {
            assert(self.unacked_response_codes@.take(rem as int) =~= self.unacked_response_codes@);
        }
        let ghost c0 = cmds@;
        cmds.push(TransportCmd::SendPackets { endpoint: self.endpoint, packet_infos: no_retry_packet_info_vec(rem), packets });
        proof {
            assert(cmds@.drop_last() =~= c0);
        }
    }
}

/// The parts present (not yet acknowledged) among `parts`, in order.
pub open spec fn somes(parts: Seq<Option<Arc<GenStateDiffPart>>>) -> Seq<Arc<GenStateDiffPart>>
    decreases parts.len(),
{
    if parts.len() == 0 {
        Seq::empty()
    } else {
        let rest = somes(parts.drop_last());
        match parts.last() {
            Some(p) => rest.push(p),
            None => rest,
        }
    }
}

/// The parts present in all entries, entry by entry.
pub open spec fn present_parts(entries: Seq<((usize, usize), Vec<Option<Arc<GenStateDiffPart>>>)>) -> Seq<Arc<GenStateDiffPart>>
    decreases entries.len(),
{
    if entries.len() == 0 {
        Seq::empty()
    } else {
        present_parts(entries.drop_last()) + somes(entries.last().1@)
    }
}

/// Milliseconds between resends of an update carrying game updates.
pub const GAME_UPDATE_RETRY_MS: u64 = 200;
/// Milliseconds between resends of an update carrying a diff part.
pub const GEN_STATE_DIFF_RETRY_MS: u64 = 30;

/// `packets` (with their settings `infos`) carry `parts`, one diff part per update, each
/// resent every `GEN_STATE_DIFF_RETRY_MS`.
pub open spec fn carries_parts(packets: Seq<Packet>, infos: Seq<PacketSettings>, parts: Seq<Arc<GenStateDiffPart>>) -> bool {
    &&& packets.len() == parts.len()
    &&& infos.len() == parts.len()
    &&& forall|i: int| 0 <= i < parts.len() ==> (#[trigger] infos[i]).retry_interval == duration_from_millis(GEN_STATE_DIFF_RETRY_MS)
    &&& forall|i: int| 0 <= i < parts.len() ==> (#[trigger] packets[i] matches Packet::Update {
        chats, game_update_seq, game_updates, universe_update: UniUpdate::Diff { diff }, ping: _ }
        && chats@.len() == 0 && game_update_seq is None && game_updates@.len() == 0 && cloned(*parts[i], diff))
}

/// The transmit identifiers of `infos`, in order.
pub open spec fn tids_of(infos: Seq<PacketSettings>) -> Seq<ProcessUniqueId> {
    infos.map_values(|s: PacketSettings| s.tid)
}

impl OtherEndClient {
    /// Sends, with retry, every diff part of the client's room not yet acknowledged, in one
    /// command (possibly empty), remembering their transmit identifiers. Nothing outside a
    /// room.
    pub fn send_gen_state_diffs(&mut self, cmds: &mut Vec<TransportCmd>)
        ensures
            match old(self).room {
                None => *final(self) == *old(self) && final(cmds)@ == old(cmds)@,
                Some(room) => {
                    &&& final(cmds)@.len() == old(cmds)@.len() + 1
                    &&& final(cmds)@.drop_last() == old(cmds)@
                    &&& final(cmds)@.last() matches TransportCmd::SendPackets { endpoint, packet_infos, packets }
                        && endpoint == old(self).endpoint
                        && carries_parts(packets@, packet_infos@, present_parts(room.unacked_gsd_parts@))
                        && final(self).gen_state_packet_ids@ == old(self).gen_state_packet_ids@ + tids_of(packet_infos@)
                    &&& *final(self) == (OtherEndClient { gen_state_packet_ids: final(self).gen_state_packet_ids, ..*old(self) })
                },
            },
    {
        let room = match &self.room {
            Some(room) => room,
            None => {
                return;
            },
        };
        let ghost entries = room.unacked_gsd_parts@;
        let mut packets: Vec<Packet> = Vec::new();
        let mut packet_infos: Vec<PacketSettings> = Vec::new();
        let mut ids: Vec<ProcessUniqueId> = Vec::new();
        let mut e: usize = 0;
        while e < room.unacked_gsd_parts.len()
            invariant
                e <= entries.len(),
                entries == room.unacked_gsd_parts@,
                carries_parts(packets@, packet_infos@, present_parts(entries.take(e as int))),
                ids@ == tids_of(packet_infos@),
            decreases entries.len() - e,
        {
            let parts = &room.unacked_gsd_parts[e].1;
            let ghost before = present_parts(entries.take(e as int));
            let mut k: usize = 0;
            while k < parts.len()
                invariant
                    k <= parts@.len(),
                    *parts == entries[e as int].1,
                    carries_parts(packets@, packet_infos@, before + somes(parts@.take(k as int))),
                    ids@ == tids_of(packet_infos@),
                decreases parts@.len() - k,
            {
                proof {
                    assert(parts@.take(k + 1).drop_last() =~= parts@.take(k as int));
                }
                match &parts[k] {
                    Some(part) => {
                        let tid = new_tid();
                        ids.push(tid);
                        packet_infos.push(PacketSettings { tid, retry_interval: millis_to_duration(GEN_STATE_DIFF_RETRY_MS) });
                        let diff = GenStateDiffPart::clone(part);
                        packets.push(Packet::Update {
                            chats: Vec::new(),
                            game_update_seq: None,
                            game_updates: Vec::new(),
                            universe_update: UniUpdate::Diff { diff },
                            ping: PingPong::ping(),
                        });
                        proof {
                            assert(somes(parts@.take(k + 1)) == somes(parts@.take(k as int)).push(*part));
                            assert(ids@ =~= tids_of(packet_infos@));
                        }
                    },
                    None => {},
                }
                k = k + 1;
            }
            proof {
                assert(parts@.take(parts@.len() as int) =~= parts@);
                assert(entries.take(e + 1).drop_last() =~= entries.take(e as int));
            }
            e = e + 1;
        }
        proof {
            assert(entries.take(entries.len() as int) =~= entries);
        }
        let ghost c0 = cmds@;
        let ghost g0 = self.gen_state_packet_ids@;
        self.gen_state_packet_ids.append(&mut ids);
        cmds.push(TransportCmd::SendPackets { endpoint: self.endpoint, packet_infos, packets });
        proof {
            assert(cmds@.drop_last() =~= c0);
        }
    }
}

/// `entries` with the entry for `key` set to `parts`: replaced where present, else appended.
pub open spec fn upsert_diff<V>(entries: Seq<((usize, usize), V)>, key: (usize, usize), parts: V) -> Seq<((usize, usize), V)> {
    if exists|i: int| 0 <= i < entries.len() && #[trigger] entries[i].0 == key {
        let i = choose|i: int| 0 <= i < entries.len() && #[trigger] entries[i].0 == key;
        entries.update(i, (key, parts))
    } else {
        entries.push((key, parts))
    }
}

/// The entries of diffs whose target generation is above `gen`, in order.
pub open spec fn newer_than<V>(entries: Seq<((usize, usize), V)>, gen: usize) -> Seq<((usize, usize), V)>
    decreases entries.len(),
{
    if entries.len() == 0 {
        Seq::empty()
    } else {
        let rest = newer_than(entries.drop_last(), gen);
        if entries.last().0.1 > gen {
            rest.push(entries.last())
        } else {
            rest
        }
    }
}

/// Bit `i` of `mask` is set.
pub open spec fn bit_set(mask: u32, i: int) -> bool {
    mask & (1u32 << (i as u32)) != 0
}

/// `parts` once the client reports having those marked in `mask`.
pub open spec fn clear_had(parts: Seq<Option<Arc<GenStateDiffPart>>>, mask: u32) -> Seq<Option<Arc<GenStateDiffPart>>> {
    Seq::new(parts.len(), |i: int| if bit_set(mask, i) { None } else { parts[i] })
}

/// Index of the entry for `key`, if any.
pub open spec fn entry_index<V>(entries: Seq<((usize, usize), V)>, key: (usize, usize)) -> Option<int> {
    if exists|i: int| 0 <= i < entries.len() && #[trigger] entries[i].0 == key {
        Some(choose|i: int| 0 <= i < entries.len() && #[trigger] entries[i].0 == key)
    } else {
        None
    }
}

impl OtherEndClient {
    /// Finds the entry of the room's diff `key`.
    fn find_diff_entry(room: &ServerRoom, key: (usize, usize)) -> (r: Option<usize>)
        requires
            room.wf(),
        ensures
            match r {
                Some(i) => i < room.unacked_gsd_parts@.len() && room.unacked_gsd_parts@[i as int].0 == key
                    && entry_index(room.unacked_gsd_parts@, key) == Some(i as int),
                None => entry_index(room.unacked_gsd_parts@, key) is None,
            },
    {
        let mut i: usize = 0;
        while i < room.unacked_gsd_parts.len()
            invariant
                room.wf(),
                i <= room.unacked_gsd_parts@.len(),
                forall|j: int| 0 <= j < i ==> room.unacked_gsd_parts@[j].0 != key,
            decreases room.unacked_gsd_parts@.len() - i,
        {
            if room.unacked_gsd_parts[i].0.0 == key.0 && room.unacked_gsd_parts[i].0.1 == key.1 {
                proof {
                    let es = room.unacked_gsd_parts@;
                    assert(es[i as int].0 == key);
                    let k = choose|j: int| 0 <= j < es.len() && #[trigger] es[j].0 == key;
                    assert(distinct_diff_keys(es));
                    if k < i {
                        assert(es[k].0 != es[i as int].0);
                    } else if k > i {
                        assert(es[i as int].0 != es[k].0);
                    }
                    assert(k == i);
                }
                return Some(i);
            }
            i = i + 1;
        }
        None
    }

    /// Records the parts of a new diff of the client's room (replacing an earlier record of
    /// the same diff), drops the diff packets sent before and sends every part not yet
    /// acknowledged. Nothing outside a room.
    pub fn send_gen_state_diff(&mut self, cmds: &mut Vec<TransportCmd>, gen0: usize, gen1: usize, diff: Vec<Option<Arc<GenStateDiffPart>>>)
        requires
            old(self).wf(),
            diff@.len() <= 32,
        ensures
            final(self).wf(),
            match old(self).room {
                None => *final(self) == *old(self) && final(cmds)@ == old(cmds)@,
                Some(room) => {
                    let entries = upsert_diff(room.unacked_gsd_parts@, (gen0, gen1), diff);
                    let drops = old(cmds)@.len() + old(self).gen_state_packet_ids@.len();
                    &&& final(self).room matches Some(r) && r.unacked_gsd_parts@ == entries
                        && r == (ServerRoom { unacked_gsd_parts: r.unacked_gsd_parts, ..room })
                    &&& drops_all(final(cmds)@.take(drops as int), old(cmds)@, old(self).endpoint, old(self).gen_state_packet_ids@)
                    &&& final(cmds)@.len() == drops + 1
                    &&& final(cmds)@.last() matches TransportCmd::SendPackets { endpoint, packet_infos, packets }
                        && endpoint == old(self).endpoint
                        && carries_parts(packets@, packet_infos@, present_parts(entries))
                        && final(self).gen_state_packet_ids@ == tids_of(packet_infos@)
                    &&& *final(self) == (OtherEndClient {
                        gen_state_packet_ids: final(self).gen_state_packet_ids,
                        room: final(self).room,
                        ..*old(self)
                    })
                },
            },
    {
        match &mut self.room {
            None => {
                return;
            },
            Some(room) => {
                let found = Self::find_diff_entry(room, (gen0, gen1));
                let ghost e0 = room.unacked_gsd_parts@;
                match found {
                    Some(i) => {
                        room.unacked_gsd_parts.set(i, ((gen0, gen1), diff));
                        proof {
                            assert(room.unacked_gsd_parts@ == upsert_diff(e0, (gen0, gen1), diff));
                            assert(distinct_diff_keys(room.unacked_gsd_parts@)) by {
                                assert forall|a: int, b: int| 0 <= a < b < room.unacked_gsd_parts@.len()
                                    implies #[trigger] room.unacked_gsd_parts@[a].0 != #[trigger] room.unacked_gsd_parts@[b].0 by {
                                    assert(e0[a].0 != e0[b].0);
                                }
                            }
                        }
                    },
                    None => {
                        room.unacked_gsd_parts.push(((gen0, gen1), diff));
                        proof {
                            assert(room.unacked_gsd_parts@ == upsert_diff(e0, (gen0, gen1), diff));
                            assert(distinct_diff_keys(room.unacked_gsd_parts@)) by {
                                assert forall|a: int, b: int| 0 <= a < b < room.unacked_gsd_parts@.len()
                                    implies #[trigger] room.unacked_gsd_parts@[a].0 != #[trigger] room.unacked_gsd_parts@[b].0 by {
                                    if b == e0.len() {
                                        if e0[a].0 == (gen0, gen1) {
                                            assert(exists|i: int| 0 <= i < e0.len() && #[trigger] e0[i].0 == (gen0, gen1));
                                        }
                                    } else {
                                        assert(e0[a].0 != e0[b].0);
                                    }
                                }
                            }
                        }
                    },
                }
                proof {
                    assert forall|i: int| 0 <= i < room.unacked_gsd_parts@.len() implies (#[trigger] room.unacked_gsd_parts@[i]).1@.len() <= MAX_GSD_PARTS by {
                        if room.unacked_gsd_parts@[i].0 != (gen0, gen1) {
                            assert(room.unacked_gsd_parts@[i] == e0[i]);
                        }
                    }
                }
            },
        }
        let ghost mid = cmds@;
        self.drop_all_gen_state_diff_packets(cmds);
        let ghost mid2 = cmds@;
        self.send_gen_state_diffs(cmds);
        proof {
            assert(cmds@.take(mid2.len() as int) =~= mid2);
        }
    }

    /// The client's game ended: its room forgets the game's generations and diff parts, and
    /// the diff packets sent are dropped.
    pub fn finish_game(&mut self, cmds: &mut Vec<TransportCmd>)
        requires
            old(self).wf(),
        ensures
            final(self).wf(),
            game_finished(*old(self), *final(self), old(cmds)@, final(cmds)@),
    {
        match &mut self.room {
            Some(room) => {
                room.finish_game();
            },
            None => {},
        }
        self.drop_all_gen_state_diff_packets(cmds);
    }
}

/// What the end of the game makes of the client `before` and the transport commands `c0`: its
/// room (if any) forgets the game's generations and diff parts, and the diff packets sent are
/// dropped.
pub open spec fn game_finished(before: OtherEndClient, after: OtherEndClient, c0: Seq<TransportCmd>, c1: Seq<TransportCmd>) -> bool {
    &&& match before.room {
        Some(r) => after.room matches Some(f) && f.latest_gen == 0 && f.latest_gen_client_has == 0
            && f.unacked_gsd_parts@.len() == 0 && f.room_name == r.room_name && f.game_updates == r.game_updates
            && f.chats == r.chats,
        None => after.room is None,
    }
    &&& after.gen_state_packet_ids@.len() == 0
    &&& after == (OtherEndClient {
        gen_state_packet_ids: after.gen_state_packet_ids,
        room: after.room,
        ..before
    })
    &&& drops_all(c1, c0, before.endpoint, before.gen_state_packet_ids@)
}

/// No part is present.
pub open spec fn none_present(parts: Seq<Option<Arc<GenStateDiffPart>>>) -> bool {
    forall|i: int| 0 <= i < parts.len() ==> (#[trigger] parts[i]) is None
}

/// Some part is marked in `mask`.
pub open spec fn any_bit(mask: u32, n: int) -> bool {
    exists|i: int| 0 <= i < n && #[trigger] bit_set(mask, i)
}

/// Keeps the entries of diffs whose target generation is above `gen`, in order.
fn retain_newer(entries: &mut Vec<((usize, usize), Vec<Option<Arc<GenStateDiffPart>>>)>, gen: usize)
    requires
        distinct_diff_keys(old(entries)@),
        forall|i: int| 0 <= i < old(entries)@.len() ==> (#[trigger] old(entries)@[i]).1@.len() <= MAX_GSD_PARTS,
    ensures
        final(entries)@ == newer_than(old(entries)@, gen),
        distinct_diff_keys(final(entries)@),
        forall|i: int| 0 <= i < final(entries)@.len() ==> (#[trigger] final(entries)@[i]).1@.len() <= MAX_GSD_PARTS,
{
    let ghost e0 = entries@;
    let n0 = entries.len();
    let mut kept: Vec<((usize, usize), Vec<Option<Arc<GenStateDiffPart>>>)> = Vec::new();
    let mut taken: Vec<((usize, usize), Vec<Option<Arc<GenStateDiffPart>>>)> = Vec::new();
    std::mem::swap(&mut taken, entries);
    let mut i: usize = 0;
    let ghost mut from: Seq<int> = Seq::empty();
    while taken.len() > 0
        invariant
            n0 == e0.len(),
            i + taken@.len() == e0.len(),
            taken@ == e0.skip(i as int),
            kept@ == newer_than(e0.take(i as int), gen),
            from.len() == kept@.len(),
            forall|k: int| 0 <= k < from.len() ==> 0 <= #[trigger] from[k] < i && kept@[k] == e0[from[k]],
            forall|k: int, l: int| 0 <= k < l < from.len() ==> #[trigger] from[k] < #[trigger] from[l],
            distinct_diff_keys(e0),
            forall|j: int| 0 <= j < e0.len() ==> (#[trigger] e0[j]).1@.len() <= MAX_GSD_PARTS,
        decreases taken@.len(),
    {
        let entry = taken.remove(0);
        proof {
            assert(entry == e0[i as int]);
            assert(taken@ =~= e0.skip(i + 1));
            assert(e0.take(i + 1).drop_last() =~= e0.take(i as int));
        }
        if entry.0.1 > gen {
            kept.push(entry);
            proof {
                from = from.push(i as int);
            }
        }
        i = i + 1;
    }
    proof {
        assert(e0.take(i as int) =~= e0);
        assert forall|a: int, b: int| 0 <= a < b < kept@.len() implies #[trigger] kept@[a].0 != #[trigger] kept@[b].0 by {
            assert(from[a] < from[b]);
            assert(e0[from[a]].0 != e0[from[b]].0);
        }
        assert forall|k: int| 0 <= k < kept@.len() implies (#[trigger] kept@[k]).1@.len() <= MAX_GSD_PARTS by {
            assert(kept@[k] == e0[from[k]]);
        }
    }
    *entries = kept;
}

/// What the client's report of its generations (`last_full_gen`, `partial_gen`) does to the
/// client `before` (giving `after`), the transport commands `c0` (giving `c1`) and the notices
/// `n0` (giving `n1`), with outcome `r` (see `OtherEndClient::process_gen_ack`).
pub open spec fn gens_acked(before: OtherEndClient, after: OtherEndClient, c0: Seq<TransportCmd>, c1: Seq<TransportCmd>,
    n0: Seq<FilterNotice>, n1: Seq<FilterNotice>, last_full_gen: Option<u64>, partial_gen: Option<GenPartInfo>,
    r: Result<(), FilterError>) -> bool {
    match before.room {
        None => r is Ok && n1 == n0
            && drops_all(c1, c0, before.endpoint, before.gen_state_packet_ids@)
            && after == (OtherEndClient { gen_state_packet_ids: after.gen_state_packet_ids, ..before })
            && after.gen_state_packet_ids@.len() == 0,
        Some(room) => match last_full_gen {
            Some(l) if l as usize > room.latest_gen => r is Err && after == before
                && c1 == c0 && n1 == n0,
            Some(l) if l as usize > room.latest_gen_client_has => {
                let entries = newer_than(room.unacked_gsd_parts@, l as usize);
                let drops = c0.len() + before.gen_state_packet_ids@.len();
                &&& r is Ok
                &&& n1.len() == n0.len() + 1
                &&& n1.drop_last() == n0
                &&& n1.last() matches FilterNotice::HasGeneration { endpoints, gen_num }
                    && endpoints@ == seq![before.endpoint] && gen_num == l
                &&& after.room matches Some(f) && f == (ServerRoom {
                    latest_gen_client_has: l as usize,
                    unacked_gsd_parts: f.unacked_gsd_parts,
                    ..room
                }) && f.unacked_gsd_parts@ == entries
                &&& drops_all(c1.take(drops as int), c0, before.endpoint, before.gen_state_packet_ids@)
                &&& c1.len() == drops + 1
                &&& c1.last() matches TransportCmd::SendPackets { endpoint, packet_infos, packets }
                    && endpoint == before.endpoint
                    && carries_parts(packets@, packet_infos@, present_parts(entries))
                    && after.gen_state_packet_ids@ == tids_of(packet_infos@)
                &&& after == (OtherEndClient {
                    gen_state_packet_ids: after.gen_state_packet_ids,
                    room: after.room,
                    ..before
                })
            },
            Some(l) if (l as usize) < room.latest_gen_client_has => r is Ok && after == before
                && c1 == c0 && n1 == n0,
            _ => {
                &&& r is Ok
                &&& n1 == n0
                &&& match partial_gen {
                    Some(pg) if entry_index(room.unacked_gsd_parts@, (pg.gen0 as usize, pg.gen1 as usize)) is Some => {
                        let idx = entry_index(room.unacked_gsd_parts@, (pg.gen0 as usize, pg.gen1 as usize))->0;
                        let parts = room.unacked_gsd_parts@[idx].1@;
                        let cleared = clear_had(parts, pg.have_bitmask);
                        let emptied = none_present(cleared);
                        let changed = any_bit(pg.have_bitmask, parts.len() as int) || emptied;
                        let entries = if emptied {
                            room.unacked_gsd_parts@.remove(idx)
                        } else {
                            room.unacked_gsd_parts@.update(idx, (room.unacked_gsd_parts@[idx].0,
                                after.room->0.unacked_gsd_parts@[idx].1))
                        };
                        &&& !emptied ==> after.room->0.unacked_gsd_parts@[idx].1@ == cleared
                        &&& after.room matches Some(f) && f == (ServerRoom { unacked_gsd_parts: f.unacked_gsd_parts, ..room })
                            && f.unacked_gsd_parts@ == entries
                        &&& if changed {
                            let drops = c0.len() + before.gen_state_packet_ids@.len();
                            &&& drops_all(c1.take(drops as int), c0, before.endpoint, before.gen_state_packet_ids@)
                            &&& c1.len() == drops + 1
                            &&& c1.last() matches TransportCmd::SendPackets { endpoint, packet_infos, packets }
                                && endpoint == before.endpoint
                                && carries_parts(packets@, packet_infos@, present_parts(entries))
                                && after.gen_state_packet_ids@ == tids_of(packet_infos@)
                            &&& after == (OtherEndClient {
                                gen_state_packet_ids: after.gen_state_packet_ids,
                                room: after.room,
                                ..before
                            })
                        } else {
                            &&& c1 == c0
                            &&& after == (OtherEndClient { room: after.room, ..before })
                        }
                    },
                    _ => after == before && c1 == c0,
                }
            },
        },
    }
}

impl OtherEndClient {
    /// Takes the client's report of the generations it has. Outside a room, the diff packets
    /// sent are dropped. In a room: a full generation beyond the room's newest is refused; one
    /// beyond what the client was known to have is told to the application, the diffs up to
    /// it are forgotten and the remaining parts are resent; an older one ends processing.
    /// Otherwise a partial report clears the parts the client has of that diff (the diff is
    /// forgotten once none is left) and, if anything changed, the remaining parts are resent.
    pub fn process_gen_ack(
        &mut self,
        cmds: &mut Vec<TransportCmd>,
        notices: &mut Vec<FilterNotice>,
        last_full_gen: Option<u64>,
        partial_gen: Option<&GenPartInfo>,
    ) -> (r: Result<(), FilterError>)
        requires
            old(self).wf(),
        ensures
            final(self).wf(),
            final(self).endpoint == old(self).endpoint,
            gens_acked(*old(self), *final(self), old(cmds)@, final(cmds)@, old(notices)@, final(notices)@, last_full_gen,
                match partial_gen { Some(p) => Some(*p), None => None }, r),
    {
        let has_room = self.room.is_some();
        if !has_room {
            self.drop_all_gen_state_diff_packets(cmds);
            return Ok(());
        }
        if last_full_gen.is_none() && partial_gen.is_none() {
            return Ok(());
        }
        if let Some(l) = last_full_gen {
            let lu = l as usize;
            let (latest_gen, has) = match &self.room {
                Some(room) => (room.latest_gen, room.latest_gen_client_has),
                None => (0, 0),
            };
            if lu > latest_gen {
                return Err(FilterError::Refused {
                    problem: String::from_str("outdated packet or client misbehaving: reported full generation is beyond the server's"),
                });
            }
            if lu > has {
                let ghost n0 = notices@;
                let mut endpoints: Vec<Endpoint> = Vec::new();
                endpoints.push(self.endpoint);
                notices.push(FilterNotice::HasGeneration { endpoints, gen_num: l });
                proof {
                    assert(notices@.drop_last() =~= n0);
                    assert(endpoints@ =~= seq![self.endpoint]);
                }
                match &mut self.room {
                    Some(room) => {
                        room.latest_gen_client_has = lu;
                        retain_newer(&mut room.unacked_gsd_parts, lu);
                    },
                    None => {},
                }
                let ghost mid = cmds@;
                self.drop_all_gen_state_diff_packets(cmds);
                let ghost mid2 = cmds@;
                self.send_gen_state_diffs(cmds);
                proof {
                    assert(cmds@.take(mid2.len() as int) =~= mid2);
                }
                return Ok(());
            } else if lu < has {
                return Ok(());
            }
        }
        if let Some(pg) = partial_gen {
            let key = (pg.gen0 as usize, pg.gen1 as usize);
            let mut changed = false;
            match &mut self.room {
                Some(room) => {
                    let found = Self::find_diff_entry(room, key);
                    match found {
                        Some(idx) => {
                            let ghost e0 = room.unacked_gsd_parts@;
                            let mut entry = room.unacked_gsd_parts.remove(idx);
                            let ghost p0 = entry.1@;
                            let n = entry.1.len();
                            let mut some_count: usize = 0;
                            let mut i: usize = 0;
                            while i < n
                                invariant
                                    n == p0.len(),
                                    n <= MAX_GSD_PARTS,
                                    i <= n,
                                    entry.1@.len() == n,
                                    entry.0 == key,
                                    forall|j: int| 0 <= j < i ==> #[trigger] entry.1@[j] == clear_had(p0, pg.have_bitmask)[j],
                                    forall|j: int| i <= j < n ==> #[trigger] entry.1@[j] == p0[j],
                                    changed == any_bit(pg.have_bitmask, i as int),
                                    some_count <= i,
                                    (some_count == 0) == (forall|j: int| 0 <= j < i ==> (#[trigger] entry.1@[j]) is None),
                                decreases n - i,
                            {
                                let ghost before_vals = entry.1@;
                                let bit = pg.have_bitmask & (1u32 << (i as u32));
                                if bit != 0 {
                                    entry.1.set(i, None);
                                    changed = true;
                                }
                                let ghost count_before = some_count;
                                let present = entry.1[i].is_some();
                                if present {
                                    some_count = some_count + 1;
                                }
                                proof {
                                    if present {
                                        assert(!(entry.1@[i as int] is None));
                                        assert(!(forall|j: int| 0 <= j < i + 1 ==> (#[trigger] entry.1@[j]) is None));
                                    } else if count_before == 0 {
                                        assert forall|j: int| 0 <= j < i + 1 implies (#[trigger] entry.1@[j]) is None by {
                                            if j < i {
                                                assert(entry.1@[j] == clear_had(p0, pg.have_bitmask)[j]);
                                            }
                                        }
                                    } else {
                                        assert(!(forall|j: int| 0 <= j < i ==> (#[trigger] before_vals[j]) is None));
                                        let w = choose|j: int| 0 <= j < i && !((#[trigger] before_vals[j]) is None);
                                        assert(entry.1@[w] == before_vals[w]);
                                        assert(!(entry.1@[w] is None));
                                    }
                                    assert(bit_set(pg.have_bitmask, i as int) == (bit != 0));
                                    if bit != 0 {
                                        assert(bit_set(pg.have_bitmask, i as int));
                                    } else {
                                        assert forall|j: int| 0 <= j < i + 1 implies !#[trigger] bit_set(pg.have_bitmask, j) || j < i by {}
                                    }
                                }
                                i = i + 1;
                            }
                            proof {
                                assert(entry.1@ =~= clear_had(p0, pg.have_bitmask));
                            }
                            if some_count == 0 {
                                changed = true;
                                proof {
                                    assert(room.unacked_gsd_parts@ =~= e0.remove(idx as int));
                                    assert(distinct_diff_keys(room.unacked_gsd_parts@)) by {
                                        assert forall|a: int, b: int| 0 <= a < b < room.unacked_gsd_parts@.len()
                                            implies #[trigger] room.unacked_gsd_parts@[a].0 != #[trigger] room.unacked_gsd_parts@[b].0 by {
                                            let a0 = if a < idx { a } else { a + 1 };
                                            let b0 = if b < idx { b } else { b + 1 };
                                            assert(e0[a0].0 != e0[b0].0);
                                        }
                                    }
                                    assert forall|j: int| 0 <= j < room.unacked_gsd_parts@.len() implies (#[trigger] room.unacked_gsd_parts@[j]).1@.len() <= MAX_GSD_PARTS by {
                                        let j0 = if j < idx { j } else { j + 1 };
                                        assert(room.unacked_gsd_parts@[j] == e0[j0]);
                                    }
                                }
                            } else {
                                room.unacked_gsd_parts.insert(idx, entry);
                                proof {
                                    assert(room.unacked_gsd_parts@ =~= e0.update(idx as int, (e0[idx as int].0, room.unacked_gsd_parts@[idx as int].1)));
                                    assert(distinct_diff_keys(room.unacked_gsd_parts@)) by {
                                        assert forall|a: int, b: int| 0 <= a < b < room.unacked_gsd_parts@.len()
                                            implies #[trigger] room.unacked_gsd_parts@[a].0 != #[trigger] room.unacked_gsd_parts@[b].0 by {
                                            assert(e0[a].0 != e0[b].0);
                                        }
                                    }
                                    assert forall|j: int| 0 <= j < room.unacked_gsd_parts@.len() implies (#[trigger] room.unacked_gsd_parts@[j]).1@.len() <= MAX_GSD_PARTS by {
                                        if j != idx {
                                            assert(room.unacked_gsd_parts@[j] == e0[j]);
                                        }
                                    }
                                }
                            }
                        },
                        None => {},
                    }
                },
                None => {},
            }
            if changed {
                let ghost mid = cmds@;
                self.drop_all_gen_state_diff_packets(cmds);
                let ghost mid2 = cmds@;
                self.send_gen_state_diffs(cmds);
                proof {
                    assert(cmds@.take(mid2.len() as int) =~= mid2);
                }
            }
        }
        Ok(())
    }
}

/// Largest size, in bytes, of the game updates of one update packet: 90% of the MTU.
pub const MAX_GU_SIZE: u64 = 1296;

/// How items of sizes `sizes` are grouped into packets, in order: the indices where groups
/// start, and the size of the last group. A group is closed when the next item would take it
/// beyond `MAX_GU_SIZE` (an item larger than that still gets a group of its own).
pub open spec fn grouping(sizes: Seq<u64>) -> (Seq<int>, int)
    decreases sizes.len(),
{
    if sizes.len() == 0 {
        (Seq::empty(), 0)
    } else {
        let (starts, last_size) = grouping(sizes.drop_last());
        let i = sizes.len() - 1;
        if starts.len() == 0 || last_size + sizes[i] > MAX_GU_SIZE {
            (starts.push(i), sizes[i] as int)
        } else {
            (starts, last_size + sizes[i])
        }
    }
}

proof fn lemma_grouping(sizes: Seq<u64>)
    ensures
        ({
            let starts = grouping(sizes).0;
            &&& sizes.len() == 0 <==> starts.len() == 0
            &&& starts.len() > 0 ==> starts[0] == 0
            &&& forall|g: int| 0 <= g < starts.len() ==> 0 <= #[trigger] starts[g] < sizes.len()
            &&& forall|g: int, h: int| 0 <= g < h < starts.len() ==> #[trigger] starts[g] < #[trigger] starts[h]
            &&& grouping(sizes).1 >= 0
        }),
    decreases sizes.len(),
{
    if sizes.len() > 0 {
        lemma_grouping(sizes.drop_last());
    }
}

/// The end (exclusive) of group `g` among `n` items.
pub open spec fn group_end(starts: Seq<int>, g: int, n: int) -> int {
    if g + 1 < starts.len() { starts[g + 1] } else { n }
}

/// `groups` are the items grouped by `grouping(sizes)`: each group numbered by its first
/// item's sequence number, holding its items in order.
pub open spec fn grouped(groups: Seq<(u64, Vec<GameUpdate>)>, items: Seq<(u64, GameUpdate)>, sizes: Seq<u64>) -> bool {
    let starts = grouping(sizes).0;
    &&& groups.len() == starts.len()
    &&& forall|g: int| 0 <= g < starts.len() ==> {
        &&& (#[trigger] groups[g]).0 == items[starts[g]].0
        &&& groups[g].1@.len() == group_end(starts, g, items.len() as int) - starts[g]
        &&& forall|k: int| 0 <= k < groups[g].1@.len() ==> #[trigger] groups[g].1@[k] == items[starts[g] + k].1
    }
}

/// Groups the game updates `items` (with their sequence numbers) into packets by size.
pub fn group_game_updates(items: Vec<(u64, GameUpdate)>, sizes: &Vec<u64>) -> (groups: Vec<(u64, Vec<GameUpdate>)>)
    requires
        sizes@.len() == items@.len(),
    ensures
        grouped(groups@, items@, sizes@),
{
    let ghost all = items@;
    let n = items.len();
    let mut rest = items;
    let mut groups: Vec<(u64, Vec<GameUpdate>)> = Vec::new();
    let mut size_of_last: u64 = 0;
    let mut i: usize = 0;
    proof {
        lemma_grouping(sizes@.take(0));
        assert(rest@ =~= all.skip(0));
    }
    while i < n
        invariant
            n == all.len(),
            sizes@.len() == n,
            i <= n,
            rest@ == all.skip(i as int),
            size_of_last == grouping(sizes@.take(i as int)).1,
            groups@.len() == grouping(sizes@.take(i as int)).0.len(),
            forall|g: int| 0 <= g < groups@.len() ==> {
                let starts = grouping(sizes@.take(i as int)).0;
                &&& (#[trigger] groups@[g]).0 == all[starts[g]].0
                &&& groups@[g].1@.len() == group_end(starts, g, i as int) - starts[g]
                &&& forall|k: int| 0 <= k < groups@[g].1@.len() ==> #[trigger] groups@[g].1@[k] == all[starts[g] + k].1
            },
        decreases n - i,
    {
        let ghost starts0 = grouping(sizes@.take(i as int)).0;
        let ghost g0 = groups@;
        proof {
            lemma_grouping(sizes@.take(i as int));
            assert(sizes@.take(i + 1).drop_last() =~= sizes@.take(i as int));
        }
        let (seq, update) = rest.remove(0);
        proof {
            assert(all[i as int] == (seq, update));
            assert(rest@ =~= all.skip(i + 1));
        }
        let size = sizes[i];
        if groups.len() == 0 || size_of_last as u128 + size as u128 > MAX_GU_SIZE as u128 {
            size_of_last = size;
            let mut v: Vec<GameUpdate> = Vec::new();
            v.push(update);
            groups.push((seq, v));
            proof {
                let starts = grouping(sizes@.take(i + 1)).0;
                assert(starts == starts0.push(i as int));
                assert forall|g: int| 0 <= g < groups@.len() implies {
                    &&& (#[trigger] groups@[g]).0 == all[starts[g]].0
                    &&& groups@[g].1@.len() == group_end(starts, g, i + 1) - starts[g]
                    &&& forall|k: int| 0 <= k < groups@[g].1@.len() ==> #[trigger] groups@[g].1@[k] == all[starts[g] + k].1
                } by {
                    if g < g0.len() {
                        assert(groups@[g] == g0[g]);
                        assert(starts[g] == starts0[g]);
                        if g + 1 < g0.len() {
                            assert(starts[g + 1] == starts0[g + 1]);
                        } else {
                            assert(starts[g + 1] == i);
                        }
                    } else {
                        assert(groups@[g].1@ =~= seq![update]);
                    }
                }
            }
        } else {
            size_of_last = size_of_last + size;
            let last = groups.len() - 1;
            let (gseq, mut gv) = groups.remove(last);
            gv.push(update);
            groups.push((gseq, gv));
            proof {
                let starts = grouping(sizes@.take(i + 1)).0;
                assert(starts == starts0);
                assert forall|g: int| 0 <= g < groups@.len() implies {
                    &&& (#[trigger] groups@[g]).0 == all[starts[g]].0
                    &&& groups@[g].1@.len() == group_end(starts, g, i + 1) - starts[g]
                    &&& forall|k: int| 0 <= k < groups@[g].1@.len() ==> #[trigger] groups@[g].1@[k] == all[starts[g] + k].1
                } by {
                    if g < last {
                        assert(groups@[g] == g0[g]);
                    } else {
                        assert forall|k: int| 0 <= k < groups@[g].1@.len() implies #[trigger] groups@[g].1@[k] == all[starts[g] + k].1 by {
                            if k < groups@[g].1@.len() - 1 {
                                assert(groups@[g].1@[k] == g0[g].1@[k]);
                            }
                        }
                    }
                }
            }
        }
        i = i + 1;
    }
    proof {
        assert(sizes@.take(n as int) =~= sizes@);
    }
    groups
}

/// Some update ends the game.
pub open spec fn has_game_finish(updates: Seq<GameUpdate>) -> bool {
    exists|i: int| 0 <= i < updates.len() && #[trigger] updates[i] is GameFinish
}

/// Some update deletes the room.
pub open spec fn has_room_deleted(updates: Seq<GameUpdate>) -> bool {
    exists|i: int| 0 <= i < updates.len() && #[trigger] updates[i] is RoomDeleted
}

/// `after` is `q` with copies of `updates` pushed, in order, numbered on from `current`.
pub open spec fn pushed_clones(after: Seq<(u64, GameUpdate)>, q: Seq<(u64, GameUpdate)>, current: Option<u64>, updates: Seq<GameUpdate>) -> bool {
    &&& after.len() == q.len() + updates.len()
    &&& after.take(q.len() as int) == q
    &&& forall|i: int| 0 <= i < updates.len() ==> (#[trigger] after[q.len() + i]).0 == wadd(next_seq_of(current), i as nat)
        && cloned(updates[i], after[q.len() + i].1)
}

proof fn lemma_wadd_small(s: u64, k: nat)
    requires
        s + k <= u64::MAX,
    ensures
        wadd(s, k) == s + k,
    decreases k,
{
    if k > 0 {
        lemma_wadd_small(s, (k - 1) as nat);
    }
}

/// The sequence number the next pushed update gets.
pub open spec fn next_seq_of(current: Option<u64>) -> u64 {
    match current {
        Some(s) => (s + 1) as u64,
        None => 1,
    }
}

/// `packets` (with `infos`) are the update packets for `groups`: no chats, the group's
/// number and updates, no universe change; each resent every `GAME_UPDATE_RETRY_MS`.
pub open spec fn carries_groups(packets: Seq<Packet>, infos: Seq<PacketSettings>, groups: Seq<(u64, Vec<GameUpdate>)>) -> bool {
    &&& packets.len() == groups.len()
    &&& infos.len() == groups.len()
    &&& forall|i: int| 0 <= i < groups.len() ==> (#[trigger] infos[i]).retry_interval == duration_from_millis(GAME_UPDATE_RETRY_MS)
    &&& forall|i: int| 0 <= i < groups.len() ==> (#[trigger] packets[i] matches Packet::Update {
        chats, game_update_seq, game_updates, universe_update: UniUpdate::NoChange, ping: _ }
        && chats@.len() == 0 && game_update_seq == Some(groups[i].0) && game_updates == groups[i].1)
}

/// `after` (with commands `c1`) is `before` (with commands `c0`) once the update packets sent
/// before were dropped and every unacknowledged game update (see `updates_to_send`) was sent
/// again with retry, grouped by the sizes `size_of` gave; `r` fails exactly when a size could
/// not be had, and then nothing is sent. Nothing but the identifiers of the update packets
/// changes.
pub open spec fn resent_updates<F: Fn(&GameUpdate) -> Option<u64>>(
    before: OtherEndClient,
    after: OtherEndClient,
    c0: Seq<TransportCmd>,
    c1: Seq<TransportCmd>,
    size_of: F,
    r: Result<(), FilterError>,
) -> bool {
    let drops = c0.len() + before.game_update_packet_ids@.len();
    &&& c1.len() >= drops
    &&& after == (OtherEndClient { game_update_packet_ids: after.game_update_packet_ids, ..before })
    &&& drops_all(c1.take(drops as int), c0, before.endpoint, before.game_update_packet_ids@)
    &&& match before.updates_to_send() {
        None => r is Ok && c1.len() == drops && after.game_update_packet_ids@.len() == 0,
        Some(q) => {
            &&& r is Err ==> exists|items: Seq<(u64, GameUpdate)>, k: int| {
                &&& items.len() == q.len()
                &&& 0 <= k < q.len()
                &&& forall|j: int| 0 <= j < q.len() ==> (#[trigger] items[j]).0 == q[j].0 && cloned(q[j].1, items[j].1)
                &&& #[trigger] call_ensures(size_of, (&items[k].1,), None::<u64>)
                &&& c1.len() == drops && after.game_update_packet_ids@.len() == 0
            }
            &&& r is Ok ==> exists|items: Seq<(u64, GameUpdate)>, sizes: Seq<u64>, groups: Seq<(u64, Vec<GameUpdate>)>| {
                &&& #[trigger] grouped(groups, items, sizes)
                &&& items.len() == q.len() && sizes.len() == q.len()
                &&& forall|k: int| 0 <= k < q.len() ==> (#[trigger] items[k]).0 == q[k].0 && cloned(q[k].1, items[k].1)
                    && call_ensures(size_of, (&items[k].1,), Some(sizes[k]))
                &&& if groups.len() == 0 {
                    c1.len() == drops && after.game_update_packet_ids@.len() == 0
                } else {
                    &&& c1.len() == drops + 1
                    &&& c1.last() matches TransportCmd::SendPackets { endpoint, packet_infos, packets }
                        && endpoint == before.endpoint && carries_groups(packets@, packet_infos@, groups)
                        && after.game_update_packet_ids@ == tids_of(packet_infos@)
                }
            }
        },
    }
    &&& r is Err ==> before.updates_to_send() is Some
}

impl OtherEndClient {
    /// The unacknowledged game updates to (re)send: those of a room left behind while in the
    /// lobby, else those of the current room; `None` in the lobby with nothing left behind.
    pub open spec fn updates_to_send(&self) -> Option<Seq<(u64, GameUpdate)>> {
        if self.room is None && self.old_room_game_updates.seq_view().len() > 0 {
            Some(self.old_room_game_updates.seq_view())
        } else {
            match self.room {
                Some(r) => Some(r.game_updates.seq_view()),
                None => None,
            }
        }
    }

    /// Drops the update packets sent before and sends, with retry, every unacknowledged game
    /// update (see `updates_to_send`), grouped by serialized size (`size_of`) into packets.
    #[verifier::loop_isolation(false)]
    #[verifier::rlimit(40)]
    fn resend_game_updates<F: Fn(&GameUpdate) -> Option<u64>>(&mut self, cmds: &mut Vec<TransportCmd>, size_of: &F) -> (r: Result<(), FilterError>)
        requires
            forall|u: &GameUpdate| #[trigger] size_of.requires((u,)),
        ensures
            resent_updates(*old(self), *final(self), old(cmds)@, final(cmds)@, *size_of, r),
    {
        // Drop old packets.
        let ghost ids = self.game_update_packet_ids@;
        let ghost c0 = cmds@;
        let mut i: usize = 0;
        proof {
            assert(cmds@.take(c0.len() as int) =~= c0);
        }
        while i < self.game_update_packet_ids.len()
            invariant
                i <= ids.len(),
                self.game_update_packet_ids@ == ids,
                *self == *old(self),
                drops_all(cmds@, c0, self.endpoint, ids.take(i as int)),
            decreases ids.len() - i,
        {
            let ghost before = cmds@;
            cmds.push(TransportCmd::DropPacket { endpoint: self.endpoint, tid: self.game_update_packet_ids[i] });
            i = i + 1;
            proof {
                assert(cmds@.take(c0.len() as int) =~= before.take(c0.len() as int));
                assert forall|j: int| 0 <= j < i implies #[trigger] cmds@[c0.len() + j] == (TransportCmd::DropPacket { endpoint: self.endpoint, tid: ids.take(i as int)[j] }) by {
                    if j < i - 1 {
                        assert(cmds@[c0.len() + j] == before[c0.len() + j]);
                        assert(ids.take(i - 1)[j] == ids.take(i as int)[j]);
                    }
                }
            }
        }
        proof {
            assert(ids.take(ids.len() as int) =~= ids);
            assert(cmds@.take(cmds@.len() as int) =~= cmds@);
        }
        self.game_update_packet_ids.clear();
        let ghost drops = cmds@.len();
        let in_lobby = self.room.is_none();
        let unacked = if in_lobby && !self.old_room_game_updates.is_empty() {
            self.old_room_game_updates.get()
        } else {
            match &self.room {
                Some(room) => room.game_updates.get(),
                None => {
                    return Ok(());
                },
            }
        };
        let ghost q = old(self).updates_to_send()->0;
        // Sizes of the updates once serialized.
        let mut sizes: Vec<u64> = Vec::new();
        let mut k: usize = 0;
        while k < unacked.len()
            invariant
                forall|u: &GameUpdate| #[trigger] size_of.requires((u,)),
                k <= unacked@.len(),
                sizes@.len() == k,
                forall|j: int| 0 <= j < k ==> call_ensures(size_of, (&unacked@[j].1,), Some(#[trigger] sizes@[j])),
            decreases unacked@.len() - k,
        {
            let size = size_of(&unacked[k].1);
            match size {
                Some(sz) => {
                    sizes.push(sz);
                },
                None => {
                    return Err(FilterError::Refused { problem: String::from_str("a game update could not be serialized") });
                },
            }
            k = k + 1;
        }
        let ghost items = unacked@;
        let groups = group_game_updates(unacked, &sizes);
        if groups.len() == 0 {
            proof {
                assert(grouped(groups@, items, sizes@));
            }
            return Ok(());
        }
        let ghost gs = groups@;
        let mut packets: Vec<Packet> = Vec::new();
        let mut packet_infos: Vec<PacketSettings> = Vec::new();
        let mut new_ids: Vec<ProcessUniqueId> = Vec::new();
        let mut rest = groups;
        let mut g: usize = 0;
        let ng = rest.len();
        proof {
            assert(rest@ =~= gs.skip(0));
        }
        while g < ng
            invariant
                ng == gs.len(),
                g <= ng,
                rest@ == gs.skip(g as int),
                carries_groups(packets@, packet_infos@, gs.take(g as int)),
                new_ids@ == tids_of(packet_infos@),
            decreases ng - g,
        {
            let (seq, updates) = rest.remove(0);
            proof {
                assert(gs[g as int] == (seq, updates));
                assert(rest@ =~= gs.skip(g + 1));
            }
            let tid = new_tid();
            new_ids.push(tid);
            packet_infos.push(PacketSettings { tid, retry_interval: millis_to_duration(GAME_UPDATE_RETRY_MS) });
            packets.push(Packet::Update {
                chats: Vec::new(),
                game_update_seq: Some(seq),
                game_updates: updates,
                universe_update: UniUpdate::NoChange,
                ping: PingPong::ping(),
            });
            g = g + 1;
            proof {
                assert(new_ids@ =~= tids_of(packet_infos@));
            }
        }
        proof {
            assert(gs.take(ng as int) =~= gs);
        }
        self.game_update_packet_ids = new_ids;
        let ghost c1 = cmds@;
        cmds.push(TransportCmd::SendPackets { endpoint: self.endpoint, packet_infos, packets });
        proof {
            assert(cmds@.take(drops as int) =~= c1);
            assert(grouped(gs, items, sizes@));
        }
        Ok(())
    }
}

/// The client record once `new_updates` are queued (before sending): a game end clears the
/// room's game state (see `finish_game`); a lone room deletion moves the room's unacknowledged
/// updates aside, followed by the deletion, and leaves the room; other updates are queued in
/// the room.
pub open spec fn queued_updates(before: OtherEndClient, after: OtherEndClient, new_updates: Seq<GameUpdate>) -> bool {
    let room1 = if has_game_finish(new_updates) {
        match before.room {
            Some(rm) => Some(ServerRoom { latest_gen: 0, latest_gen_client_has: 0, unacked_gsd_parts: after.room->0.unacked_gsd_parts, ..rm }),
            None => None,
        }
    } else {
        before.room
    };
    &&& has_game_finish(new_updates) ==> after.gen_state_packet_ids@.len() == 0
    &&& !has_game_finish(new_updates) ==> after.gen_state_packet_ids == before.gen_state_packet_ids
    &&& (has_game_finish(new_updates) && before.room is Some) ==> after.room->0.unacked_gsd_parts@.len() == 0
    &&& if has_room_deleted(new_updates) {
        let q = match room1 { Some(rm) => rm.game_updates, None => before.old_room_game_updates };
        &&& after.room is None
        &&& after.old_room_game_updates.seq_view() == q.seq_view().push((next_seq_of(q.current()), GameUpdate::RoomDeleted))
        &&& after.old_room_game_updates.current() == Some(next_seq_of(q.current()))
    } else {
        &&& after.old_room_game_updates == before.old_room_game_updates
        &&& match room1 {
            Some(rm) => after.room matches Some(f) && f == (ServerRoom { game_updates: f.game_updates, ..rm })
                && pushed_clones(f.game_updates.seq_view(), rm.game_updates.seq_view(), rm.game_updates.current(), new_updates)
                && f.game_updates.current() == (if new_updates.len() == 0 { rm.game_updates.current() }
                    else { Some(wadd(next_seq_of(rm.game_updates.current()), (new_updates.len() - 1) as nat)) }),
            None => after.room is None,
        }
    }
    &&& after.endpoint == before.endpoint
    &&& after.request_actions == before.request_actions
    &&& after.last_request_sequence_seen == before.last_request_sequence_seen
    &&& after.last_response_sequence_sent == before.last_response_sequence_sent
    &&& after.unacked_response_codes == before.unacked_response_codes
    &&& after.cookie == before.cookie
    &&& after.game_update_packet_ids == before.game_update_packet_ids
    &&& after.auto_response_seqs == before.auto_response_seqs
    &&& after.app_response_seqs == before.app_response_seqs
}

/// The updates `send_game_updates` refuses: a room deletion together with other updates, or
/// game updates for a client in the lobby.
pub open spec fn refused_updates(c: OtherEndClient, new_updates: Seq<GameUpdate>) -> bool {
    ||| (has_room_deleted(new_updates) && new_updates.len() != 1)
    ||| (!has_room_deleted(new_updates) && c.room is None && new_updates.len() > 0)
}

impl OtherEndClient {
    /// Queues `new_updates` for the client and (re)sends every unacknowledged game update.
    /// A room deletion must come alone; game updates need a room. Called with no updates, it
    /// drops the update packets sent and sends the unacknowledged updates again.
    pub fn send_game_updates<F: Fn(&GameUpdate) -> Option<u64>>(
        &mut self,
        cmds: &mut Vec<TransportCmd>,
        new_updates: &[GameUpdate],
        size_of: &F,
    ) -> (r: Result<(), FilterError>)
        requires
            old(self).wf(),
            forall|u: &GameUpdate| #[trigger] size_of.requires((u,)),
            old(self).room matches Some(rm) ==> rm.game_updates.current() is None
                || rm.game_updates.current()->0 + new_updates@.len() < u64::MAX,
            old(self).old_room_game_updates.current() is None || old(self).old_room_game_updates.current()->0 < u64::MAX - 1,
        ensures
            final(self).wf(),
            refused_updates(*old(self), new_updates@) ==> {
                &&& r is Err
                &&& has_game_finish(new_updates@) ==> game_finished(*old(self), *final(self), old(cmds)@, final(cmds)@)
                &&& !has_game_finish(new_updates@) ==> *final(self) == *old(self) && final(cmds)@ == old(cmds)@
            },
            !refused_updates(*old(self), new_updates@) ==> exists|mid: OtherEndClient, cmid: Seq<TransportCmd>| {
                &&& queued_updates(*old(self), mid, new_updates@)
                &&& cmid.take(old(cmds)@.len() as int) == old(cmds)@
                &&& (has_game_finish(new_updates@) ==> drops_all(cmid, old(cmds)@, old(self).endpoint, old(self).gen_state_packet_ids@))
                &&& (!has_game_finish(new_updates@) ==> cmid == old(cmds)@)
                &&& #[trigger] resent_updates(mid, *final(self), cmid, final(cmds)@, *size_of, r)
            },
    {
        let mut any_finish = false;
        let mut any_deleted = false;
        let mut i: usize = 0;
        while i < new_updates.len()
            invariant
                i <= new_updates@.len(),
                any_finish == exists|j: int| 0 <= j < i && #[trigger] new_updates@[j] is GameFinish,
                any_deleted == exists|j: int| 0 <= j < i && #[trigger] new_updates@[j] is RoomDeleted,
            decreases new_updates@.len() - i,
        {
            if new_updates[i].is_game_finish() {
                any_finish = true;
            }
            if new_updates[i].room_was_deleted() {
                any_deleted = true;
            }
            i = i + 1;
        }
        let ghost s0 = *self;
        let ghost c0 = cmds@;
        if any_finish {
            self.finish_game(cmds);
        }
        proof {
            assert(cmds@.take(c0.len() as int) =~= c0);
        }
        let ghost s1 = *self;
        let ghost c1 = cmds@;
        if any_deleted {
            if new_updates.len() == 1 {
                let taken = match self.room.take() {
                    Some(room) => Some(room.game_updates),
                    None => None,
                };
                match taken {
                    Some(q) => {
                        self.old_room_game_updates = q;
                    },
                    None => {},
                }
                self.old_room_game_updates.push(GameUpdate::RoomDeleted);
            } else {
                return Err(FilterError::Refused {
                    problem: String::from_str("a room deletion must be the only game update"),
                });
            }
        } else {
            let has_room = self.room.is_some();
            if has_room {
                let ghost q0 = self.room->0.game_updates.seq_view();
                let ghost cur0 = self.room->0.game_updates.current();
                let mut k: usize = 0;
                proof {
                    assert(q0.take(q0.len() as int) =~= q0);
                }
                while k < new_updates.len()
                    invariant
                        k <= new_updates@.len(),
                        self.room is Some,
                        self.room->0.wf(),
                        cur0 is None || cur0->0 + new_updates@.len() < u64::MAX,
                        pushed_clones(self.room->0.game_updates.seq_view(), q0, cur0, new_updates@.take(k as int)),
                        self.room->0.game_updates.current() == (if k == 0 { cur0 } else { Some(wadd(next_seq_of(cur0), (k - 1) as nat)) }),
                        self.room->0 == (ServerRoom { game_updates: self.room->0.game_updates, ..s1.room->0 }),
                        s1.room->0.game_updates.seq_view() == q0,
                        s1.room->0.game_updates.current() == cur0,
                        *self == (OtherEndClient { room: self.room, ..s1 }),
                    decreases new_updates@.len() - k,
                {
                    let ghost before = self.room->0.game_updates.seq_view();
                    proof {
                        lemma_wadd_small(next_seq_of(cur0), k as nat);
                        if k > 0 {
                            lemma_wadd_small(next_seq_of(cur0), (k - 1) as nat);
                        }
                    }
                    let copy = new_updates[k].clone();
                    match &mut self.room {
                        Some(room) => {
                            room.game_updates.push(copy);
                        },
                        None => {},
                    }
                    k = k + 1;
                    proof {
                        let after = self.room->0.game_updates.seq_view();
                        assert(after.take(q0.len() as int) =~= before.take(q0.len() as int));
                        assert forall|j: int| 0 <= j < k implies (#[trigger] after[q0.len() + j]).0 == wadd(next_seq_of(cur0), j as nat)
                            && cloned(new_updates@.take(k as int)[j], after[q0.len() + j].1) by {
                            if j < k - 1 {
                                assert(after[q0.len() + j] == before[q0.len() + j]);
                                assert(new_updates@.take(k as int)[j] == new_updates@.take(k - 1)[j]);
                            }
                        }
                    }
                }
            } else if new_updates.len() > 0 {
                return Err(FilterError::Refused { problem: String::from_str("game updates in the lobby are not supported") });
            }
        }
        let ghost s2 = *self;
        let ghost c2 = cmds@;
        let r = self.resend_game_updates(cmds, size_of);
        proof {
            assert(resent_updates(s2, *self, c2, cmds@, *size_of, r));
        }
        r
    }
}

/// What the client's acknowledgement of game updates up to `last_game_update_seq` does to the
/// client `before` (giving `after`) and the transport commands `c0` (giving `c1`), with outcome
/// `r` (see `OtherEndClient::process_game_update_ack`): the room's queue (or, in the lobby, the
/// queue left behind) takes the acknowledgement, then the unacknowledged updates are resent.
pub open spec fn game_updates_acked<F: Fn(&GameUpdate) -> Option<u64>>(before: OtherEndClient, after: OtherEndClient,
    c0: Seq<TransportCmd>, c1: Seq<TransportCmd>, last_game_update_seq: Option<u64>, size_of: F,
    r: Result<(), FilterError>) -> bool {
    &&& last_game_update_seq is None ==> r is Ok && after == before && c1 == c0
    &&& last_game_update_seq is Some ==> exists|mid: OtherEndClient| {
        &&& match before.room {
            Some(rm) => mid.room matches Some(m) && m == (ServerRoom { game_updates: m.game_updates, ..rm })
                && acked_queue(rm.game_updates, m.game_updates, last_game_update_seq->0)
                && mid.old_room_game_updates == before.old_room_game_updates,
            None => mid.room is None && acked_queue(before.old_room_game_updates, mid.old_room_game_updates, last_game_update_seq->0),
        }
        &&& mid == (OtherEndClient { room: mid.room, old_room_game_updates: mid.old_room_game_updates, ..before })
        &&& #[trigger] resent_updates(mid, after, c0, c1, size_of, r)
    }
}

impl OtherEndClient {
    /// Takes the client's acknowledgement of game updates: the room's queue (or, in the lobby,
    /// the queue left behind) acknowledges it; then the update packets are dropped and the
    /// unacknowledged updates sent again.
    pub fn process_game_update_ack<F: Fn(&GameUpdate) -> Option<u64>>(
        &mut self,
        cmds: &mut Vec<TransportCmd>,
        last_game_update_seq: Option<u64>,
        size_of: &F,
    ) -> (r: Result<(), FilterError>)
        requires
            old(self).wf(),
            forall|u: &GameUpdate| #[trigger] size_of.requires((u,)),
        ensures
            final(self).wf(),
            game_updates_acked(*old(self), *final(self), old(cmds)@, final(cmds)@, last_game_update_seq, *size_of, r),
    {
        let acked = match last_game_update_seq {
            Some(a) => a,
            None => {
                return Ok(());
            },
        };
        match &mut self.room {
            Some(room) => {
                let _ = room.game_updates.ack(Some(acked));
            },
            None => {
                let _ = self.old_room_game_updates.ack(Some(acked));
            },
        }
        let ghost mid = *self;
        let r = self.resend_game_updates(cmds, size_of);
        proof {
            assert(resent_updates(mid, *self, old(cmds)@, cmds@, *size_of, r));
        }
        r
    }

    /// Acknowledgement of chats: nothing to do yet.
    pub fn process_chat_ack(&mut self, last_chat_seq: Option<u64>) -> (r: Result<(), FilterError>)
        ensures
            r is Ok,
            *final(self) == *old(self),
    {
        if last_chat_seq.is_none() {
            return Ok(());
        }
        Ok(())
    }

    /// Sending chats to the client: nothing to do yet.
    pub fn send_chats(&mut self, cmds: &mut Vec<TransportCmd>, new_chats: &[crate::protocol::BroadcastChatMessage]) -> (r: Result<(), FilterError>)
        ensures
            r is Ok,
            *final(self) == *old(self),
            final(cmds)@ == old(cmds)@,
    {
        Ok(())
    }
}

/// `after` is `before` once it acknowledged `acked`.
pub open spec fn acked_queue(before: UnackedQueue<GameUpdate>, after: UnackedQueue<GameUpdate>, acked: u64) -> bool {
    let raised = before.last_acked() != Some(crate::filter::server_update::merged_ack(before.last_acked(), acked));
    let n = crate::filter::server_update::acked_prefix_len(before.seq_view(), acked);
    &&& after.current() == before.current()
    &&& after.last_acked() == Some(crate::filter::server_update::merged_ack(before.last_acked(), acked))
    &&& after.seq_view() == if raised { before.seq_view().skip(n as int) } else { before.seq_view() }
}

/// The client's record of the server it is connected to.
pub struct OtherEndServer {
    pub player_name: String,
    pub cookie: Option<String>,
    pub response_codes: SequencedMinHeap<ResponseCode>,
    pub last_request_sequence_sent: Option<u64>,
    pub last_response_sequence_seen: Option<u64>,
    /// Requests sent and not yet acknowledged: sequence number and transmit identifier.
    pub unacked_outgoing_packet_tids: VecDeque<(u64, ProcessUniqueId)>,
    /// Request sequence numbers of automatic requests (keep-alives).
    pub auto_request_seqs: Vec<u64>,
    pub room: Option<ClientRoom>,
    pub game_update_seq: Option<u64>,
    pub server_ping: PingPong,
}

/// Where to start processing the game updates of an update numbered `recvd` (the number of
/// its first game update), given the number `seen` of the last one processed: nowhere
/// without a number, at the start when none was processed, past those already processed,
/// and nowhere when all were or when some before the first are missing.
pub open spec fn start_index(seen: Option<u64>, recvd: Option<u64>, len: int) -> Option<int> {
    match (seen, recvd) {
        (_, None) => None,
        (None, Some(_)) => Some(0),
        (Some(s), Some(r)) => if s + 1 >= r {
            let i = s + 1 - r;
            if i >= len { None } else { Some(i) }
        } else {
            None
        },
    }
}

/// The game update count once `n` more were processed.
pub open spec fn seq_after(seen: Option<u64>, n: int) -> Option<u64> {
    if n == 0 {
        seen
    } else {
        match seen {
            Some(s) => Some((s + n) as u64),
            None => Some(n as u64),
        }
    }
}

/// Index of the first room deletion at or after `start`, if any.
/// `new` are the notices that passing `updates[lo..hi]` to a room gives, `idx` telling which of
/// them the room took: for each taken update in turn, one `NewGameUpdates` from `endpoint` with
/// a copy of it. The room only refuses a change of a player it does not know.
pub open spec fn passed_on(new: Seq<FilterNotice>, updates: Seq<GameUpdate>, lo: int, hi: int, idx: Seq<int>,
    endpoint: Endpoint) -> bool {
    &&& new.len() == idx.len()
    &&& forall|j: int| 0 <= j < idx.len() ==> lo <= #[trigger] idx[j] < hi
    &&& forall|j1: int, j2: int| 0 <= j1 < j2 < idx.len() ==> #[trigger] idx[j1] < #[trigger] idx[j2]
    &&& forall|j: int| 0 <= j < idx.len() ==> (#[trigger] new[j] matches FilterNotice::NewGameUpdates { endpoint: e, updates: u }
        && e == endpoint && u@.len() == 1 && cloned(updates[idx[j]], u@[0]))
    &&& forall|k: int| lo <= k < hi && !idx.contains(k) ==> #[trigger] updates[k] matches GameUpdate::PlayerChange { old_name: None, .. }
}

/// `rooms` are the states a room `first` goes through as it takes `updates[lo..hi]` one by one
/// for the player named `own`, `rs` the outcomes (see `room_step`).
pub open spec fn rooms_chain(rooms: Seq<ClientRoom>, rs: Seq<Result<(), FilterError>>, first: ClientRoom, own: String,
    updates: Seq<GameUpdate>, lo: int, hi: int) -> bool {
    &&& rooms.len() == hi - lo + 1
    &&& rs.len() == hi - lo
    &&& rooms[0] == first
    &&& forall|k: int| #![trigger rs[k]] 0 <= k < hi - lo ==> room_step(rooms[k], rooms[k + 1], own, updates[lo + k], rs[k])
}

/// Where processing `updates` from `start` ends: after the first room deletion, else at the end.
pub open spec fn processed_end(updates: Seq<GameUpdate>, start: int) -> int {
    match first_deletion(updates, start) {
        Some(d) => d + 1,
        None => updates.len() as int,
    }
}

/// The index of the first room deletion in `updates` from `start` on.
pub open spec fn first_deletion(updates: Seq<GameUpdate>, start: int) -> Option<int>
    decreases updates.len() - start,
{
    if start >= updates.len() {
        None
    } else if updates[start] is RoomDeleted {
        Some(start)
    } else {
        first_deletion(updates, start + 1)
    }
}

proof fn lemma_first_deletion(updates: Seq<GameUpdate>, start: int)
    requires
        0 <= start,
    ensures
        match first_deletion(updates, start) {
            Some(d) => start <= d < updates.len() && updates[d] is RoomDeleted
                && forall|k: int| start <= k < d ==> !(#[trigger] updates[k] is RoomDeleted),
            None => forall|k: int| start <= k < updates.len() ==> !(#[trigger] updates[k] is RoomDeleted),
        },
    decreases updates.len() - start,
{
    if start < updates.len() && !(updates[start] is RoomDeleted) {
        lemma_first_deletion(updates, start + 1);
    }
}

impl OtherEndServer {
    pub open spec fn wf(&self) -> bool {
        &&& self.response_codes.wf()
        &&& self.room matches Some(r) ==> r.wf()
    }

    pub fn new(player_name: String) -> (r: Self)
        ensures
            r.wf(),
            r.player_name == player_name,
            r.cookie is None,
            r.response_codes@ == Map::<u64, ResponseCode>::empty(),
            r.last_request_sequence_sent is None,
            r.last_response_sequence_seen is None,
            r.unacked_outgoing_packet_tids@.len() == 0,
            r.auto_request_seqs@.len() == 0,
            r.room is None,
            r.game_update_seq is None,
            r.server_ping == (PingPong { nonce: 0 }),
    {
        OtherEndServer {
            player_name,
            cookie: None,
            response_codes: SequencedMinHeap::new(),
            last_request_sequence_sent: None,
            last_response_sequence_seen: None,
            unacked_outgoing_packet_tids: VecDeque::new(),
            auto_request_seqs: Vec::new(),
            room: None,
            game_update_seq: None,
            server_ping: PingPong::pong(0),
        }
    }

    /// Replies (once) to an update of the server: the cookie, the latest chat, game update
    /// and full generation received, the partial generation, and the server's ping echoed.
    /// Without a cookie (not logged in) nothing can be sent.
    pub fn send_update_reply(&mut self, server_endpoint: Endpoint, cmds: &mut Vec<TransportCmd>) -> (r: Result<(), FilterError>)
        ensures
            *final(self) == *old(self),
            r is Err <==> old(self).cookie is None,
            r is Err ==> final(cmds)@ == old(cmds)@,
            r is Ok ==> final(cmds)@.drop_last() == old(cmds)@ && final(cmds)@.len() == old(cmds)@.len() + 1
                && (final(cmds)@.last() matches TransportCmd::SendPackets { endpoint, packet_infos, packets }
                && endpoint == server_endpoint && sent_once(packet_infos@, 1) && packets@.len() == 1
                && (packets@[0] matches Packet::UpdateReply { cookie, last_chat_seq, last_game_update_seq, last_full_gen, partial_gen, pong }
                    && cookie == old(self).cookie->0
                    && last_game_update_seq == old(self).game_update_seq
                    && pong == old(self).server_ping
                    && last_chat_seq == (match old(self).room { Some(rm) => rm.last_chat_seq, None => None })
                    && last_full_gen == (match old(self).room { Some(rm) => match rm.game {
                        Some(g) => match g.last_full_gen { Some(n) => Some(n as u64), None => None },
                        None => None }, None => None })
                    && (match old(self).room { Some(rm) => match rm.game {
                        Some(g) => match g.partial_gen { Some(p) => partial_gen matches Some(q) && cloned(p, q), None => partial_gen is None },
                        None => partial_gen is None }, None => partial_gen is None }))),
    {
        let cookie = match &self.cookie {
            Some(c) => c.clone(),
            None => {
                return Err(FilterError::Refused { problem: String::from_str("no cookie, so no update reply: not logged in") });
            },
        };
        let mut last_chat_seq = None;
        let mut last_full_gen: Option<u64> = None;
        let mut partial_gen = None;
        match &self.room {
            Some(room) => {
                last_chat_seq = room.last_chat_seq;
                match &room.game {
                    Some(game) => {
                        last_full_gen = match game.last_full_gen {
                            Some(g) => Some(g as u64),
                            None => None,
                        };
                        partial_gen = match &game.partial_gen {
                            Some(p) => Some(p.clone()),
                            None => None,
                        };
                    },
                    None => {},
                }
            },
            None => {},
        }
        let mut packets: Vec<Packet> = Vec::new();
        packets.push(Packet::UpdateReply {
            cookie,
            last_chat_seq,
            last_game_update_seq: self.game_update_seq,
            last_full_gen,
            partial_gen,
            pong: self.server_ping,
        });
        let ghost c0 = cmds@;
        cmds.push(TransportCmd::SendPackets { endpoint: server_endpoint, packet_infos: no_retry_packet_info_vec(1), packets });
        proof {
            assert(cmds@.drop_last() =~= c0);
        }
        Ok(())
    }

    /// Takes the game updates of an update numbered `game_update_seq`: those not yet
    /// processed (see `start_index`) are passed to the room one by one, each counted; a room
    /// deletion ends processing and leaves the room (and the count). Failures of single
    /// updates are ignored. In the lobby, game updates are an error (but for a match offer,
    /// which is not supported).
    pub fn process_game_updates(
        &mut self,
        endpoint: Endpoint,
        game_update_seq: Option<u64>,
        game_updates: &[GameUpdate],
        notices: &mut Vec<FilterNotice>,
    ) -> (r: Result<(), FilterError>)
        requires
            old(self).wf(),
            old(self).game_update_seq is None || old(self).game_update_seq->0 + game_updates@.len() < u64::MAX,
            !(old(self).room is None && start_index(old(self).game_update_seq, game_update_seq, game_updates@.len() as int) is Some
                && game_updates@.len() == 1 && game_updates@[0] is Match),
        ensures
            final(self).wf(),
            final(self).player_name == old(self).player_name,
            final(self).cookie == old(self).cookie,
            final(self).response_codes == old(self).response_codes,
            final(self).last_request_sequence_sent == old(self).last_request_sequence_sent,
            final(self).last_response_sequence_seen == old(self).last_response_sequence_seen,
            final(self).unacked_outgoing_packet_tids == old(self).unacked_outgoing_packet_tids,
            final(self).server_ping == old(self).server_ping,
            final(notices)@.len() >= old(notices)@.len(),
            final(notices)@.take(old(notices)@.len() as int) == old(notices)@,
            final(self).room matches Some(rm) ==> old(self).room matches Some(o) && rm.last_chat_seq == o.last_chat_seq,
            match start_index(old(self).game_update_seq, game_update_seq, game_updates@.len() as int) {
                None => r is Ok && *final(self) == *old(self) && final(notices)@ == old(notices)@,
                Some(start) => if old(self).room is None {
                    r is Err && *final(self) == *old(self) && final(notices)@ == old(notices)@
                } else {
                    &&& r is Ok
                    &&& final(notices)@.take(old(notices)@.len() as int) == old(notices)@
                    &&& match first_deletion(game_updates@, start) {
                        Some(_) => final(self).room is None && final(self).game_update_seq is None,
                        None => final(self).room is Some && final(self).game_update_seq
                            == seq_after(old(self).game_update_seq, game_updates@.len() - start),
                    }
                    &&& exists|idx: Seq<int>| #[trigger] passed_on(final(notices)@.skip(old(notices)@.len() as int), game_updates@, start,
                        processed_end(game_updates@, start),
                        idx, endpoint)
                    &&& exists|rooms: Seq<ClientRoom>, rs: Seq<Result<(), FilterError>>| {
                        &&& #[trigger] rooms_chain(rooms, rs, old(self).room->0, old(self).player_name, game_updates@, start,
                            processed_end(game_updates@, start))
                        &&& first_deletion(game_updates@, start) is None ==> final(self).room == Some(rooms.last())
                    }
                },
            },
    {
        let len = game_updates.len();
        proof {
            assert(notices@.take(notices@.len() as int) =~= notices@);
        }
        let start: usize = match (self.game_update_seq, game_update_seq) {
            (_, None) => {
                return Ok(());
            },
            (None, Some(_)) => 0,
            (Some(seen), Some(recvd)) => {
                if seen as u128 + 1 >= recvd as u128 {
                    let i = seen as u128 + 1 - recvd as u128;
                    if i >= len as u128 {
                        return Ok(());
                    }
                    i as usize
                } else {
                    return Ok(());
                }
            },
        };
        if self.room.is_none() {
            if len == 1 {
                return Err(FilterError::Refused { problem: String::from_str("in the lobby, a game update other than a match") });
            } else {
                return Err(FilterError::Refused { problem: String::from_str("in the lobby, more than one game update at a time") });
            }
        }
        let ghost n0 = notices@;
        let ghost seq0 = self.game_update_seq;
        let ghost mut idx: Seq<int> = Seq::empty();
        let ghost mut rooms: Seq<ClientRoom> = seq![self.room->0];
        let ghost mut rs: Seq<Result<(), FilterError>> = Seq::empty();
        let mut room_deleted = false;
        let mut i: usize = start;
        proof {
            assert(passed_on(notices@.skip(n0.len() as int), game_updates@, start as int, i as int, idx, endpoint));
        }
        proof {
            lemma_first_deletion(game_updates@, start as int);
            assert(notices@.take(n0.len() as int) =~= n0);
        }
        while i < len
            invariant_except_break
                start <= i <= len,
                len == game_updates@.len(),
                !room_deleted,
                self.room is Some,
                self.wf(),
                seq0 is None || seq0->0 + len < u64::MAX,
                self.game_update_seq == seq_after(seq0, i - start),
                self.room->0.last_chat_seq == old(self).room->0.last_chat_seq,
                notices@.len() >= n0.len(),
                notices@.take(n0.len() as int) == n0,
                passed_on(notices@.skip(n0.len() as int), game_updates@, start as int, i as int, idx, endpoint),
                rooms_chain(rooms, rs, old(self).room->0, old(self).player_name, game_updates@, start as int, i as int),
                rooms.last() == self.room->0,
                forall|k: int| start <= k < i ==> !(#[trigger] game_updates@[k] is RoomDeleted),
                match first_deletion(game_updates@, start as int) {
                    Some(d) => start <= d < len && game_updates@[d] is RoomDeleted,
                    None => true,
                },
                self.player_name == old(self).player_name,
                self.cookie == old(self).cookie,
                self.response_codes == old(self).response_codes,
                self.last_request_sequence_sent == old(self).last_request_sequence_sent,
                self.last_response_sequence_seen == old(self).last_response_sequence_seen,
                self.unacked_outgoing_packet_tids == old(self).unacked_outgoing_packet_tids,
                self.server_ping == old(self).server_ping,
            ensures
                self.wf(),
                self.room is Some,
                self.room->0.last_chat_seq == old(self).room->0.last_chat_seq,
                notices@.len() >= n0.len(),
                notices@.take(n0.len() as int) == n0,
                room_deleted ==> first_deletion(game_updates@, start as int) is Some,
                !room_deleted ==> first_deletion(game_updates@, start as int) is None && self.room is Some
                    && self.game_update_seq == seq_after(seq0, len - start),
                passed_on(notices@.skip(n0.len() as int), game_updates@, start as int,
                    processed_end(game_updates@, start as int), idx, endpoint),
                rooms_chain(rooms, rs, old(self).room->0, old(self).player_name, game_updates@, start as int,
                    processed_end(game_updates@, start as int)),
                rooms.last() == self.room->0,
                self.player_name == old(self).player_name,
                self.cookie == old(self).cookie,
                self.response_codes == old(self).response_codes,
                self.last_request_sequence_sent == old(self).last_request_sequence_sent,
                self.last_response_sequence_seen == old(self).last_response_sequence_seen,
                self.unacked_outgoing_packet_tids == old(self).unacked_outgoing_packet_tids,
                self.server_ping == old(self).server_ping,
            decreases len - i,
        {
            let ghost nb = notices@;
            let ghost idx0 = idx;
            let ghost room_before = self.room->0;
            let ghost mut res_g: Result<(), FilterError> = Ok(());
            let mut taken = false;
            match &mut self.room {
                Some(room) => {
                    let res = room.process_game_update(endpoint, &self.player_name, &game_updates[i], notices);
                    taken = res.is_ok();
                    proof {
                        res_g = res;
                    }
                },
                None => {},
            }
            proof {
                let rooms0 = rooms;
                let rs0 = rs;
                rooms = rooms.push(self.room->0);
                rs = rs.push(res_g);
                assert(room_step(room_before, self.room->0, old(self).player_name, game_updates@[i as int], res_g));
                assert forall|k: int| #![trigger rs[k]] 0 <= k < i + 1 - start implies room_step(rooms[k], rooms[k + 1], old(self).player_name, game_updates@[start + k], rs[k]) by {
                    if k < i - start {
                        assert(rs[k] == rs0[k]);
                        assert(rooms[k] == rooms0[k]);
                        assert(rooms[k + 1] == rooms0[k + 1]);
                    }
                }
                assert(rooms_chain(rooms, rs, old(self).room->0, old(self).player_name, game_updates@, start as int, i + 1));
                assert(notices@.take(n0.len() as int) =~= nb.take(n0.len() as int));
                let new0 = nb.skip(n0.len() as int);
                let new1 = notices@.skip(n0.len() as int);
                if taken {
                    idx = idx.push(i as int);
                    assert(new1 =~= new0.push(notices@.last()));
                    assert forall|j: int| 0 <= j < idx.len() implies (#[trigger] new1[j] matches FilterNotice::NewGameUpdates { endpoint: e, updates: u }
                        && e == endpoint && u@.len() == 1 && cloned(game_updates@[idx[j]], u@[0])) by {
                        if j < idx0.len() {
                            assert(new1[j] == new0[j]);
                        }
                    }
                    assert forall|k: int| start <= k < i + 1 && !idx.contains(k) implies #[trigger] game_updates@[k] matches GameUpdate::PlayerChange { old_name: None, .. } by {
                        if k < i {
                            if idx0.contains(k) {
                                let j = choose|j: int| 0 <= j < idx0.len() && idx0[j] == k;
                                assert(idx[j] == k);
                            }
                        } else {
                            assert(idx[idx.len() - 1] == k);
                        }
                    }
                } else {
                    assert(new1 =~= new0);
                    assert forall|k: int| start <= k < i + 1 && !idx.contains(k) implies #[trigger] game_updates@[k] matches GameUpdate::PlayerChange { old_name: None, .. } by {
                    }
                }
                assert(passed_on(new1, game_updates@, start as int, i + 1, idx, endpoint));
            }
            if game_updates[i].room_was_deleted() {
                room_deleted = true;
                proof {
                    lemma_first_deletion(game_updates@, start as int);
                    assert(game_updates@[i as int] is RoomDeleted);
                    assert(first_deletion(game_updates@, start as int) is Some);
                }
                break;
            }
            self.game_update_seq = match self.game_update_seq {
                Some(s) => Some(s + 1),
                None => Some(1),
            };
            i = i + 1;
        }
        if room_deleted {
            self.room = None;
            self.game_update_seq = None;
        }
        Ok(())
    }
}

impl OtherEndServer {
    /// Keeps the client state the filter needs on a response code from the server: joining a
    /// room starts a fresh room record; joining or leaving resets the game update count;
    /// logging in gives the cookie; a player list of the room updates its other players.
    pub fn apply_response_code(&mut self, code: &ResponseCode)
        requires
            old(self).wf(),
        ensures
            final(self).wf(),
            final(self).player_name == old(self).player_name,
            final(self).response_codes == old(self).response_codes,
            final(self).last_request_sequence_sent == old(self).last_request_sequence_sent,
            final(self).last_response_sequence_seen == old(self).last_response_sequence_seen,
            final(self).unacked_outgoing_packet_tids == old(self).unacked_outgoing_packet_tids,
            final(self).server_ping == old(self).server_ping,
            match *code {
                ResponseCode::JoinedRoom { .. } => final(self).game_update_seq is None && final(self).cookie == old(self).cookie
                    && (final(self).room matches Some(rm) && rm.player_id is None && rm.other_players@.len() == 0
                    && rm.game is None && rm.last_chat_seq is None),
                ResponseCode::LeaveRoom => final(self).game_update_seq is None && final(self).room == old(self).room
                    && final(self).cookie == old(self).cookie,
                ResponseCode::LoggedIn { cookie, .. } => final(self).cookie == Some(cookie) && final(self).room == old(self).room
                    && final(self).game_update_seq == old(self).game_update_seq,
                ResponseCode::PlayerList { players } => final(self).cookie == old(self).cookie
                    && final(self).game_update_seq == old(self).game_update_seq
                    && match old(self).room {
                        Some(rm) => final(self).room matches Some(f) && f.player_id == rm.player_id && f.game == rm.game
                            && f.last_chat_seq == rm.last_chat_seq
                            && (forall|i: int| 0 <= i < f.other_players@.len() ==> crate::filter::client_update::listed(players@, (#[trigger] f.other_players@[i]).0@))
                            && (forall|j: int| 0 <= j < players@.len() && (#[trigger] players@[j])@ != old(self).player_name@ ==>
                                exists|i: int| 0 <= i < f.other_players@.len() && (#[trigger] f.other_players@[i]).0@ == players@[j]@)
                            && (forall|i: int| 0 <= i < rm.other_players@.len() && crate::filter::client_update::listed(players@, (#[trigger] rm.other_players@[i]).0@)
                                ==> f.other_players@.contains(rm.other_players@[i])),
                        None => final(self).room is None,
                    },
                _ => *final(self) == *old(self),
            },
    {
        match code {
            ResponseCode::JoinedRoom { .. } => {
                self.room = Some(ClientRoom::new());
                self.game_update_seq = None;
            },
            ResponseCode::LeaveRoom => {
                self.game_update_seq = None;
            },
            ResponseCode::LoggedIn { cookie, .. } => {
                self.cookie = Some(cookie.clone());
            },
            ResponseCode::PlayerList { players } => {
                match &mut self.room {
                    Some(room) => {
                        room.sync_player_list(players, &self.player_name);
                    },
                    None => {},
                }
            },
            _ => {},
        }
    }
}

/// A prefix of a prefix is a prefix.
pub proof fn lemma_prefix_trans<T>(a: Seq<T>, b: Seq<T>, c: Seq<T>)
    requires
        a.len() <= b.len() <= c.len(),
        b.take(a.len() as int) == a,
        c.take(b.len() as int) == b,
    ensures
        c.take(a.len() as int) == a,
{
    assert(c.take(a.len() as int) =~= b.take(a.len() as int));
}

/// What the filter keeps for one peer.
pub enum FilterEndpointData {
    OtherEndClient(OtherEndClient),
    OtherEndServer(OtherEndServer),
}

impl FilterEndpointData {
    pub open spec fn wf(&self) -> bool {
        match self {
            FilterEndpointData::OtherEndClient(c) => c.wf(),
            FilterEndpointData::OtherEndServer(s) => s.wf(),
        }
    }
}

/// The filter's records of its peers, by endpoint; an endpoint occurs once.
pub struct PerEndpoint {
    pub entries: Vec<(Endpoint, FilterEndpointData)>,
}

impl PerEndpoint {
    /// The records by endpoint.
    pub open spec fn view(&self) -> Map<Endpoint, FilterEndpointData> {
        Map::new(|e: Endpoint| exists|i: int| 0 <= i < self.entries@.len() && #[trigger] self.entries@[i].0 == e,
            |e: Endpoint| self.entries@[choose|i: int| 0 <= i < self.entries@.len() && #[trigger] self.entries@[i].0 == e].1)
    }

    pub open spec fn wf(&self) -> bool {
        &&& forall|i: int, j: int| 0 <= i < j < self.entries@.len() ==> #[trigger] self.entries@[i].0 != #[trigger] self.entries@[j].0
        &&& forall|i: int| 0 <= i < self.entries@.len() ==> (#[trigger] self.entries@[i]).1.wf()
    }

    pub fn new() -> (r: Self)
        ensures
            r.wf(),
            r@ == Map::<Endpoint, FilterEndpointData>::empty(),
    {
        let r = PerEndpoint { entries: Vec::new() };
        proof {
            assert(r@ =~= Map::<Endpoint, FilterEndpointData>::empty());
        }
        r
    }

    fn index_of(&self, k: &Endpoint) -> (r: Option<usize>)
        requires
            self.wf(),
        ensures
            match r {
                Some(i) => i < self.entries@.len() && self.entries@[i as int].0 == *k && self@.contains_key(*k)
                    && self@[*k] == self.entries@[i as int].1,
                None => !self@.contains_key(*k),
            },
    {
        let mut i: usize = 0;
        while i < self.entries.len()
            invariant
                self.wf(),
                i <= self.entries@.len(),
                forall|j: int| 0 <= j < i ==> self.entries@[j].0 != *k,
            decreases self.entries@.len() - i,
        {
            if self.entries[i].0 == *k {
                proof {
                    let es = self.entries@;
                    let c = choose|j: int| 0 <= j < es.len() && #[trigger] es[j].0 == *k;
                    if c < i {
                        assert(es[c].0 != es[i as int].0);
                    } else if c > i {
                        assert(es[i as int].0 != es[c].0);
                    }
                }
                return Some(i);
            }
            i = i + 1;
        }
        None
    }

    pub fn contains_key(&self, k: &Endpoint) -> (r: bool)
        requires
            self.wf(),
        ensures
            r == self@.contains_key(*k),
    {
        self.index_of(k).is_some()
    }

    pub fn get(&self, k: &Endpoint) -> (r: Option<&FilterEndpointData>)
        requires
            self.wf(),
        ensures
            match r {
                Some(d) => self@.contains_key(*k) && *d == self@[*k],
                None => !self@.contains_key(*k),
            },
    {
        match self.index_of(k) {
            Some(i) => Some(&self.entries[i].1),
            None => None,
        }
    }

    /// Removes and returns the record of `k`.
    pub fn remove(&mut self, k: &Endpoint) -> (r: Option<FilterEndpointData>)
        requires
            old(self).wf(),
        ensures
            final(self).wf(),
            final(self)@ == old(self)@.remove(*k),
            match r {
                Some(d) => old(self)@.contains_key(*k) && d == old(self)@[*k],
                None => !old(self)@.contains_key(*k),
            },
    {
        match self.index_of(k) {
            Some(i) => {
                let ghost e0 = self.entries@;
                let (_, d) = self.entries.remove(i);
                proof {
                    assert(self.entries@ =~= e0.remove(i as int));
                    assert forall|a: int, b: int| 0 <= a < b < self.entries@.len()
                        implies #[trigger] self.entries@[a].0 != #[trigger] self.entries@[b].0 by {
                        let a0 = if a < i { a } else { a + 1 };
                        let b0 = if b < i { b } else { b + 1 };
                        assert(e0[a0].0 != e0[b0].0);
                    }
                    assert forall|j: int| 0 <= j < self.entries@.len() implies (#[trigger] self.entries@[j]).1.wf() by {
                        let j0 = if j < i { j } else { j + 1 };
                        assert(self.entries@[j] == e0[j0]);
                    }
                    assert forall|e: Endpoint| #[trigger] self@.contains_key(e) <==> old(self)@.remove(*k).contains_key(e) by {
                        if self@.contains_key(e) {
                            let j = choose|j: int| 0 <= j < self.entries@.len() && #[trigger] self.entries@[j].0 == e;
                            let j0 = if j < i { j } else { j + 1 };
                            assert(e0[j0].0 == e);
                            assert(e != *k) by {
                                assert(e0[j0].0 != e0[i as int].0);
                            }
                        }
                        if old(self)@.remove(*k).contains_key(e) {
                            let j0 = choose|j: int| 0 <= j < e0.len() && #[trigger] e0[j].0 == e;
                            assert(j0 != i);
                            let j = if j0 < i { j0 } else { j0 - 1 };
                            assert(self.entries@[j].0 == e);
                        }
                    }
                    assert forall|e: Endpoint| #[trigger] self@.contains_key(e) implies self@[e] == old(self)@.remove(*k)[e] by {
                        let j = choose|j: int| 0 <= j < self.entries@.len() && #[trigger] self.entries@[j].0 == e;
                        let j0 = if j < i { j } else { j + 1 };
                        assert(e0[j0].0 == e);
                        let jo = choose|j: int| 0 <= j < e0.len() && #[trigger] e0[j].0 == e;
                        if jo != j0 {
                            if jo < j0 { assert(e0[jo].0 != e0[j0].0); } else { assert(e0[j0].0 != e0[jo].0); }
                        }
                    }
                    assert(self@ =~= old(self)@.remove(*k));
                }
                Some(d)
            },
            None => {
                proof {
                    assert(self@ =~= old(self)@.remove(*k));
                }
                None
            },
        }
    }

    /// Sets the record of `k` (replacing any).
    pub fn insert(&mut self, k: Endpoint, v: FilterEndpointData)
        requires
            old(self).wf(),
            v.wf(),
        ensures
            final(self).wf(),
            final(self)@ == old(self)@.insert(k, v),
    {
        let _ = self.remove(&k);
        let ghost e0 = self.entries@;
        let ghost m0 = self@;
        self.entries.push((k, v));
        proof {
            assert forall|a: int, b: int| 0 <= a < b < self.entries@.len()
                implies #[trigger] self.entries@[a].0 != #[trigger] self.entries@[b].0 by {
                if b < e0.len() {
                    assert(e0[a].0 != e0[b].0);
                } else {
                    assert(!m0.contains_key(k));
                    if e0[a].0 == k {
                        assert(m0.contains_key(k));
                    }
                }
            }
            assert forall|e: Endpoint| #[trigger] self@.contains_key(e) <==> m0.insert(k, v).contains_key(e) by {
                if m0.contains_key(e) {
                    let j = choose|j: int| 0 <= j < e0.len() && #[trigger] e0[j].0 == e;
                    assert(self.entries@[j].0 == e);
                }
                if e == k {
                    assert(self.entries@[e0.len() as int].0 == e);
                }
                if self@.contains_key(e) && e != k {
                    let j = choose|j: int| 0 <= j < self.entries@.len() && #[trigger] self.entries@[j].0 == e;
                    assert(j < e0.len());
                    assert(e0[j].0 == e);
                }
            }
            assert forall|e: Endpoint| #[trigger] self@.contains_key(e) implies self@[e] == m0.insert(k, v)[e] by {
                let j = choose|j: int| 0 <= j < self.entries@.len() && #[trigger] self.entries@[j].0 == e;
                if e == k {
                    if j < e0.len() {
                        assert(e0[j].0 == k);
                        assert(m0.contains_key(k));
                    }
                } else {
                    assert(j < e0.len());
                    let jo = choose|j: int| 0 <= j < e0.len() && #[trigger] e0[j].0 == e;
                    if jo != j {
                        if jo < j { assert(e0[jo].0 != e0[j].0); } else { assert(e0[j].0 != e0[jo].0); }
                    }
                }
            }
            assert(self@ =~= old(self)@.insert(k, v));
        }
    }
}

/// `after` is `before` followed by one `DropPacket` to `endpoint` per identifier in `tids`,
/// in order.
pub open spec fn drops_all(after: Seq<TransportCmd>, before: Seq<TransportCmd>, endpoint: Endpoint, tids: Seq<ProcessUniqueId>) -> bool {
    &&& after.len() == before.len() + tids.len()
    &&& after.take(before.len() as int) == before
    &&& forall|i: int| 0 <= i < tids.len() ==> #[trigger] after[before.len() + i] == (TransportCmd::DropPacket { endpoint, tid: tids[i] })
}

} // verus!
