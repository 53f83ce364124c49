//! The client side of the first protocol generation: the connection state of one client, how it
//! reacts to what the server sends, and the requests and keep-alives it sends. The event loop
//! that reads the socket and the user interface lives outside the library; it hands each event
//! to the functions here and performs what they return.
use vstd::prelude::*;
use std::time::Instant;
use crate::net::{BroadcastChatMessage, NetwaysteEvent, NetworkManager, Packet, PingPong, RequestAction, ResponseCode};
use crate::net::event::{event_for_code, is_reported_code};
use crate::net::queue::{all_sequenced, buffer_item_aborts, contiguous_from, NetQueue, Sequenced};
use crate::net::{packet_seq, packet_is_sequenced, packet_with_ack};
use crate::net::manager::{all_below, retransmission_outcome, sent_as};
use crate::server::state::rx_taken;
use crate::utils::PingFilter;
use crate::utils::ping::sampled;
use crate::time::instant_now;
use crate::net::queue::retransmit_selection;
use crate::net::expiry::{expired_outcome, expiry_is_safe, expiry_safe};
use crate::net::manager::has_connection_timed_out;
use crate::net::event::{is_request_event, request_action_for};
use crate::net::RoomList;
use crate::server::util::{decimal, decimal_string};

verus! {

/// Version of this client.
pub const CLIENT_VERSION: &'static str = "0.0.1";

/// What a server address that already names a port ends with: a colon and one to five digits.
pub const PORT_PATTERN: &'static str = ":\\d{1,5}$";

#[verifier::external_type_specification]
#[verifier::external_body]
pub struct ExRegex(regex::Regex);

#[verifier::external_type_specification]
#[verifier::external_body]
pub struct ExRegexError(regex::Error);

/// A name for `regex::Regex::new`: the regular expression a pattern compiles to, or why none.
pub uninterp spec fn regex_built(pattern: Seq<char>) -> Result<regex::Regex, regex::Error>;

/// Calls `regex::Regex::new`; the result is named by `regex_built`.
#[verifier::external_body]
fn build_regex(pattern: &str) -> (r: Result<regex::Regex, regex::Error>)
    ensures
        r == regex_built(pattern@),
{
    regex::Regex::new(pattern)
}

/// A name for `regex::Regex::is_match`: whether the expression matches somewhere in a text.
pub uninterp spec fn regex_matches(re: regex::Regex, text: Seq<char>) -> bool;

/// Calls `regex::Regex::is_match`; the result is named by `regex_matches`.
#[verifier::external_body]
fn regex_is_match(re: &regex::Regex, text: &str) -> (r: bool)
    ensures
        r == regex_matches(*re, text@),
{
    re.is_match(text)
}

/// Whether the server address `server` already names a port: whether `PORT_PATTERN` (a colon
/// and one to five digits at the end) matches it. Should the pattern not compile, no address
/// names a port.
pub fn has_port(server: &str) -> (r: bool)
    ensures
        match regex_built(PORT_PATTERN@) {
            Ok(re) => r == regex_matches(re, server@),
            Err(_) => !r,
        },
{
    match build_regex(PORT_PATTERN) {
        Ok(re) => regex_is_match(&re, server),
        Err(_) => false,
    }
}

/// Connection state of a client. `A` is the type of network addresses.
pub struct ClientNetState<A> {
    /// Sequence number of the last request sent.
    pub sequence: u64,
    /// Sequence number of the next response to process.
    pub response_sequence: u64,
    pub name: Option<String>,
    pub room: Option<String>,
    pub cookie: Option<String>,
    /// Sequence number of the newest chat message received.
    pub chat_msg_seq_num: u64,
    pub tick: usize,
    pub network: NetworkManager,
    pub last_received: Option<Instant>,
    pub disconnect_initiated: bool,
    pub server_address: Option<A>,
    pub latency_filter: PingFilter,
}

/// A response code that changes the client's state when processed: logging in sets the cookie,
/// joining a room sets the room, leaving one clears it and the chat position.
pub open spec fn code_changes_state(code: ResponseCode) -> bool {
    code is LoggedIn || code is JoinedRoom || code is LeaveRoom
}

/// The event a processed response code reports to the user interface: none for `OK` and
/// `KeepAlive`, nor for the codes that have no event (too many requests, not connected).
pub open spec fn reported_event(code: ResponseCode) -> Option<NetwaysteEvent> {
    if is_reported_code(code) { Some(event_for_code(code)) } else { None }
}


/// `q` can take an item numbered `seq` without the buffering failing (see
/// `NetQueue::buffer_item`).
pub open spec fn can_take<T: Sequenced>(q: NetQueue<T>, seq: u64) -> bool {
    &&& all_sequenced(q.queue@)
    &&& !buffer_item_aborts(q.queue@, q.buffer_wrap_index, seq)
    &&& q.buffer_wrap_index matches Some(k) ==> k < usize::MAX
}

/// `after` is `before` with `item` buffered in order (see `NetQueue::buffer_item`); `present`
/// tells whether an item with its number was there already.
pub open spec fn item_buffered<T: Sequenced>(before: NetQueue<T>, after: NetQueue<T>, item: T, present: bool) -> bool {
    &&& all_sequenced(after.queue@)
    &&& present ==> {
        &&& after.queue@ == before.queue@
        &&& after.attempts@ == before.attempts@
    }
    &&& !present ==> {
        &&& exists|i: int| 0 <= i <= before.queue@.len() && after.queue@ == before.queue@.insert(i, item)
        &&& after.attempts@.len() == before.attempts@.len() + 1
        &&& after.attempts@.drop_last() == before.attempts@
    }
}

/// `after` is `before` with `item` buffered, when that can be done without failing; otherwise
/// `before` unchanged.
pub open spec fn buffered_if_possible<T: Sequenced>(before: NetQueue<T>, after: NetQueue<T>, item: T) -> bool {
    if can_take(before, item.seq_of()) {
        exists|present: bool| #[trigger] item_buffered(before, after, item, present)
    } else {
        after == before
    }
}

/// The chat messages of `ms` numbered above `c`, in order.
pub open spec fn fresh_chats(ms: Seq<BroadcastChatMessage>, c: u64) -> Seq<BroadcastChatMessage>
    decreases ms.len(),
{
    if ms.len() == 0 {
        Seq::empty()
    } else {
        let rest = fresh_chats(ms.drop_last(), c);
        if ms.last().chat_seq_or_zero() > c { rest.push(ms.last()) } else { rest }
    }
}

/// `c` raised to the largest sequence number among `ms`.
pub open spec fn newest_chat(c: u64, ms: Seq<BroadcastChatMessage>) -> u64
    decreases ms.len(),
{
    if ms.len() == 0 {
        c
    } else {
        let rest = newest_chat(c, ms.drop_last());
        if ms.last().chat_seq_or_zero() > rest { ms.last().chat_seq_or_zero() } else { rest }
    }
}

/// The (author, text) pairs of the messages of `ms` not written by `name`, in order.
pub open spec fn chats_from_others(ms: Seq<BroadcastChatMessage>, name: Seq<char>) -> Seq<(String, String)>
    decreases ms.len(),
{
    if ms.len() == 0 {
        Seq::empty()
    } else {
        let rest = chats_from_others(ms.drop_last(), name);
        if ms.last().player_name@ != name { rest.push((ms.last().player_name, ms.last().message)) } else { rest }
    }
}

/// `qs` are the chat queues as the messages `ms` were buffered one after the other, from `qs[0]`
/// on (see `buffered_if_possible`).
pub open spec fn chat_chain(ms: Seq<BroadcastChatMessage>, qs: Seq<NetQueue<BroadcastChatMessage>>) -> bool {
    &&& qs.len() == ms.len() + 1
    &&& forall|i: int| 0 <= i < ms.len() ==> #[trigger] buffered_if_possible(qs[i], qs[i + 1], ms[i])
}


proof fn lemma_fresh_prefix(ms: Seq<BroadcastChatMessage>, c: u64, k: int)
    requires
        0 <= k <= ms.len(),
        fresh_chats(ms.take(k), c).len() > 0,
    ensures
        fresh_chats(ms, c).len() > 0,
    decreases ms.len() - k,
{
    if k < ms.len() {
        assert(ms.take(k + 1).drop_last() =~= ms.take(k));
        lemma_fresh_prefix(ms, c, k + 1);
    } else {
        assert(ms.take(k) =~= ms);
    }
}

/// Whether `q` can take an item numbered `seq` without failing.
fn queue_can_take<T: Sequenced>(q: &NetQueue<T>, seq: u64) -> (r: bool)
    requires
        all_sequenced(q.queue@),
    ensures
        r == can_take(*q, seq),
{
    if q.buffer_would_abort(seq) {
        return false;
    }
    match q.buffer_wrap_index {
        Some(k) => k < usize::MAX,
        None => true,
    }
}

/// Buffers `item` in `q` when that can be done without failing (see `buffered_if_possible`).
fn buffer_if_possible<T: Sequenced>(q: &mut NetQueue<T>, item: T)
    requires
        all_sequenced(old(q).queue@),
        item.has_sequence(),
    ensures
        buffered_if_possible(*old(q), *final(q), item),
        all_sequenced(final(q).queue@),
{
    let seq = item.sequence_number();
    if queue_can_take(q, seq) {
        let present = q.buffer_item(item);
        assert(item_buffered(*old(q), *q, item, present));
    }
}


/// The response codes of the responses `ps`.
pub open spec fn codes_of(ps: Seq<Packet>) -> Seq<ResponseCode> {
    ps.map_values(|p: Packet| p->Response_code)
}

/// The events reported for the response codes `codes`, in order (see `reported_event`).
pub open spec fn events_for(codes: Seq<ResponseCode>) -> Seq<NetwaysteEvent>
    decreases codes.len(),
{
    if codes.len() == 0 {
        Seq::empty()
    } else {
        let rest = events_for(codes.drop_last());
        match reported_event(codes.last()) {
            Some(e) => rest.push(e),
            None => rest,
        }
    }
}


/// The lines logged for a list of players: a header, a line per player with its position and
/// name, and a footer.
pub open spec fn player_list_lines(names: Seq<String>) -> Seq<Seq<char>> {
    seq!["---BEGIN PLAYER LIST---"@]
        + Seq::new(names.len(), |i: int| decimal(i as nat) + "\tname: "@ + names[i]@)
        + seq!["---END PLAYER LIST---"@]
}

/// The line logged for a room: its name, whether a game runs in it, how many players it has.
pub open spec fn room_line(room: RoomList) -> Seq<char> {
    "#name: "@ + room.room_name@ + ",\trunning? "@ + (if room.in_progress { "true"@ } else { "false"@ })
        + ",\tplayers: "@ + decimal(room.player_count as nat)
}

/// The lines logged for a list of rooms: a header, a line per room, and a footer.
pub open spec fn room_list_lines(rooms: Seq<RoomList>) -> Seq<Seq<char>> {
    seq!["---BEGIN GAME ROOM LIST---"@] + Seq::new(rooms.len(), |i: int| room_line(rooms[i]))
        + seq!["---END GAME ROOM LIST---"@]
}

/// The views of `v`.
pub open spec fn texts(v: Seq<String>) -> Seq<Seq<char>> {
    v.map_values(|s: String| s@)
}

impl<A> ClientNetState<A> {
    /// The latency filter is sound.
    pub closed spec fn filter_wf(&self) -> bool {
        self.latency_filter.wf()
    }

    /// A status request was sent and its answer is awaited.
    pub closed spec fn awaiting_status(&self) -> bool {
        self.latency_filter.measuring()
    }

    /// The latency last measured (see `PingFilter`).
    pub closed spec fn latency(&self) -> u128 {
        self.latency_filter.average()
    }

    /// The transmit queue holds only requests, the receive queue only responses, and incoming
    /// chat messages are buffered.
    pub open spec fn wf(&self) -> bool {
        &&& forall|i: int| 0 <= i < self.network.tx_packets.queue@.len() ==> #[trigger] self.network.tx_packets.queue@[i] is Request
        &&& forall|i: int| 0 <= i < self.network.rx_packets.queue@.len() ==> #[trigger] self.network.rx_packets.queue@[i] is Response
        &&& self.network.rx_chat_messages is Some
        &&& self.filter_wf()
    }

    /// `new` is `self` but for the fields that processing `code` sets.
    pub open spec fn code_effect(self, new: Self, code: ResponseCode) -> bool {
        match code {
            ResponseCode::LoggedIn { cookie, .. } => new == (Self { cookie: Some(cookie), ..self }),
            ResponseCode::JoinedRoom { room_name } => new == (Self { room: Some(room_name), ..self }),
            ResponseCode::LeaveRoom => new == (Self { room: None, chat_msg_seq_num: 0, ..self }),
            _ => new == self,
        }
    }

    /// `states` are the states as the response codes `codes` were processed one after the
    /// other from `states[0]` on (see `code_effect`).
    pub open spec fn code_chain(codes: Seq<ResponseCode>, states: Seq<Self>) -> bool {
        &&& states.len() == codes.len() + 1
        &&& forall|i: int| 0 <= i < codes.len() ==> #[trigger] states[i].code_effect(states[i + 1], codes[i])
    }

    /// No received packet is numbered `u64::MAX`.
    pub open spec fn rx_numbers_fit(&self) -> bool {
        forall|j: int| 0 <= j < self.network.rx_packets.queue@.len()
            ==> packet_seq(#[trigger] self.network.rx_packets.queue@[j]) < u64::MAX
    }

    /// What processing the buffered responses gives: the `count` oldest ones, numbered
    /// `response_sequence`, `response_sequence + 1`, ... without a gap, are taken out of the
    /// buffer and their codes processed in order (see `code_chain`), advancing
    /// `response_sequence` past them; `events` are the events they report.
    pub open spec fn responses_processed(self, new: Self, events: Seq<NetwaysteEvent>) -> bool {
        let q = self.network.rx_packets.queue@;
        exists|count: int, states: Seq<Self>| {
            &&& 0 <= count <= q.len()
            &&& contiguous_from(q, self.response_sequence, count)
            &&& count < q.len() ==> packet_seq(q[count]) != self.response_sequence + count
            &&& #[trigger] Self::code_chain(codes_of(q.take(count)), states)
            &&& states[0] == self
            &&& events == events_for(codes_of(q.take(count)))
            &&& rx_taken(self.network, new.network, count as nat)
            &&& new.response_sequence == self.response_sequence + count
            &&& new == (Self { network: new.network, response_sequence: new.response_sequence, ..states.last() })
        }
    }

    /// What taking in the chat messages `ms` gives (see `handle_incoming_chats`): `new` and the
    /// event `r` reporting them.
    pub open spec fn chats_taken(self, new: Self, ms: Seq<BroadcastChatMessage>, r: NetwaysteEvent) -> bool {
        let fresh = fresh_chats(ms, self.chat_msg_seq_num);
        &&& new.chat_msg_seq_num == newest_chat(self.chat_msg_seq_num, fresh)
        &&& r matches NetwaysteEvent::ChatMessages(v) && v@ == (if fresh.len() == 0 { Seq::empty() }
            else { chats_from_others(fresh, self.name->0@) })
        &&& exists|qs: Seq<NetQueue<BroadcastChatMessage>>| #[trigger] chat_chain(fresh, qs)
            && qs[0] == self.network.rx_chat_messages->0
            && new.network.rx_chat_messages == Some(qs.last())
        &&& new == (Self { chat_msg_seq_num: new.chat_msg_seq_num,
            network: NetworkManager { rx_chat_messages: new.network.rx_chat_messages, ..self.network },
            ..self })
    }

    /// The chat messages `ms` can be taken in: each is numbered, and a newer one needs the
    /// client to have a name.
    pub open spec fn chats_acceptable(self, ms: Seq<BroadcastChatMessage>) -> bool {
        &&& forall|i: int| 0 <= i < ms.len() ==> (#[trigger] ms[i]).chat_seq is Some
        &&& fresh_chats(ms, self.chat_msg_seq_num).len() > 0 ==> self.name is Some
    }

    /// The reply to an update whose ping carried `nonce`: it acknowledges the chat messages up
    /// to the newest one received.
    pub open spec fn update_reply(self, nonce: u64) -> Packet {
        Packet::UpdateReply {
            cookie: self.cookie->0,
            last_chat_seq: Some(self.chat_msg_seq_num),
            last_game_update_seq: None,
            last_full_gen: None,
            partial_gen: None,
            pong: PingPong { nonce },
        }
    }

    /// `after` is `before` without the item numbered like `pkt` (`removed`, when there was
    /// one; see `NetQueue::remove`).
    pub open spec fn removed_by_number(before: NetQueue<Packet>, after: NetQueue<Packet>, pkt: Packet, removed: Option<Packet>) -> bool {
        &&& after.buffer_wrap_index == before.buffer_wrap_index
        &&& match removed {
            Some(x) => exists|i: int| {
                &&& 0 <= i < before.queue@.len()
                &&& #[trigger] before.queue@[i].seq_of() == pkt.seq_of()
                &&& x == before.queue@[i]
                &&& after.queue@ == before.queue@.remove(i)
                &&& after.attempts@ == if i < before.attempts@.len() { before.attempts@.remove(i) } else { before.attempts@ }
            },
            None => {
                &&& after.queue@ == before.queue@
                &&& after.attempts@ == before.attempts@
            },
        }
    }

    /// Storing response `packet`: the request it answers is taken out of the transmit queue
    /// and, when there was one, the response is buffered for processing.
    pub open spec fn response_stored(self, new: Self, packet: Packet) -> bool {
        exists|removed: Option<Packet>| {
            &&& #[trigger] Self::removed_by_number(self.network.tx_packets, new.network.tx_packets, packet, removed)
            &&& if removed is Some {
                buffered_if_possible(self.network.rx_packets, new.network.rx_packets, packet)
            } else {
                new.network.rx_packets == self.network.rx_packets
            }
            &&& new == (Self { network: NetworkManager { tx_packets: new.network.tx_packets,
                rx_packets: new.network.rx_packets, ..self.network }, ..self })
        }
    }

    /// `self` having last heard from the server at `t`.
    pub open spec fn received_at(self, t: Instant) -> Self {
        Self { last_received: Some(t), ..self }
    }

    /// The latency reported with a server status: the filter's latency when it fits in a `u64`.
    pub open spec fn latency_report(self) -> Option<u64> {
        if self.latency() <= u64::MAX { Some(self.latency() as u64) } else { None }
    }

    /// What receiving `packet` from `addr` gives: the new state, the packets to send and the
    /// events to report. A response (other than a keep-alive) not older than the next one
    /// expected is stored (see `response_stored`) and the buffered responses are processed
    /// (see `responses_processed`) unless one is numbered `u64::MAX`; any response records
    /// the time it arrived. An update's chat messages are taken in (see `chats_taken`) and the
    /// update is answered. A status completes the latency measurement and is reported. The
    /// rest is ignored.
    pub open spec fn incoming_outcome(self, new: Self, packet: Packet, addr: A, out: Seq<(Packet, A)>,
        events: Seq<NetwaysteEvent>) -> bool {
        match packet {
            Packet::Response { sequence, code, .. } => {
                &&& out.len() == 0
                &&& exists|t: Instant, stored: Self| {
                    &&& #[trigger] self.received_at(t).response_stored(stored, packet)
                    &&& if code is KeepAlive || self.response_sequence > sequence {
                        new == self.received_at(t) && events.len() == 0
                    } else if stored.rx_numbers_fit() {
                        stored.responses_processed(new, events)
                    } else {
                        new == stored && events.len() == 0
                    }
                }
            },
            Packet::Update { chats, ping, .. } => {
                &&& if chats@.len() == 0 {
                    new == self && events.len() == 0
                } else {
                    events.len() == 1 && self.chats_taken(new, chats@, events[0])
                }
                &&& out == seq![(new.update_reply(ping.nonce), addr)]
            },
            Packet::Status { .. } => {
                &&& out.len() == 0
                &&& exists|latency: u128| #[trigger] sampled(self.latency_filter, new.latency_filter, latency)
                &&& new == (Self { latency_filter: new.latency_filter, ..self })
                &&& events == seq![NetwaysteEvent::Status(packet, new.latency_report())]
            },
            _ => new == self && out.len() == 0 && events.len() == 0,
        }
    }

    /// `new` is `self` reset: counters, room, cookie, server and latency cleared, queues
    /// emptied, the player name kept.
    pub open spec fn is_reset_to(self, new: Self) -> bool {
        &&& new.sequence == 0 && new.response_sequence == 0
        &&& new.chat_msg_seq_num == 0 && new.tick == 0
        &&& new.name == self.name
        &&& new.room is None && new.cookie is None
        &&& new.last_received is None && !new.disconnect_initiated
        &&& new.server_address is None
        &&& new.network.tx_packets.queue@.len() == 0 && new.network.tx_packets.attempts@.len() == 0
        &&& new.network.rx_packets.queue@.len() == 0 && new.network.rx_packets.attempts@.len() == 0
        &&& new.network.rx_chat_messages matches Some(q) && q.queue@.len() == 0
        &&& new.network.statistics.tx_packets_failed == 0
        &&& new.network.statistics.tx_packets_success == 0
        &&& !new.awaiting_status() && new.latency() == 0
    }

    /// The keep-alive request sent while connected.
    pub open spec fn keep_alive(self) -> Packet {
        Packet::Request {
            sequence: self.sequence,
            response_ack: None,
            cookie: self.cookie,
            action: RequestAction::KeepAlive { latest_response_ack: self.response_sequence },
        }
    }

    /// What sending request `action` gives (see `action_to_packet`): `p` is the request, numbered
    /// one past the last once connected; a copy of it is buffered for retransmission when that
    /// can be done without failing; asking to disconnect is remembered.
    pub open spec fn request_sent(self, new: Self, action: RequestAction, p: Packet) -> bool {
        let seq = if self.cookie is Some { (self.sequence + 1) as u64 } else { self.sequence };
        &&& p == Packet::Request { sequence: seq, response_ack: Some(self.response_sequence), cookie: self.cookie, action }
        &&& exists|copy: Packet| {
            &&& #[trigger] buffered_if_possible(self.network.tx_packets, new.network.tx_packets, copy)
            &&& copy matches Packet::Request { sequence, response_ack, cookie, .. }
                && sequence == seq && response_ack == Some(self.response_sequence) && cookie == self.cookie
        }
        &&& new == (Self { sequence: seq, disconnect_initiated: self.disconnect_initiated || action is Disconnect,
            network: NetworkManager { tx_packets: new.network.tx_packets, ..self.network }, ..self })
    }

    /// The buffered responses are processed first, when none is numbered `u64::MAX` (see
    /// `responses_processed`); `mid` is the state after that.
    pub open spec fn responses_first(self, mid: Self, events: Seq<NetwaysteEvent>) -> bool {
        if self.rx_numbers_fit() {
            self.responses_processed(mid, events)
        } else {
            mid == self && events.len() == 0
        }
    }

    /// The requests due for retransmission (selected by the clock, see
    /// `NetQueue::get_retransmit_indices`) are retransmitted to the server acknowledging the
    /// responses up to `response_sequence`, when that cannot fail; `out` is what is sent.
    pub open spec fn retransmitted_from(self, new: Self, out: Seq<(Packet, A)>) -> bool {
        exists|indices: Seq<usize>, elapsed: Seq<u128>| {
            &&& #[trigger] retransmit_selection(self.network.tx_packets.attempts@, elapsed, indices)
            &&& if expiry_safe(self.network, indices) {
                &&& expired_outcome(self.network, new.network, self.server_address->0, Some(self.response_sequence), indices, out)
                &&& new == (Self { network: new.network, ..self })
            } else {
                new == self && out.len() == 0
            }
        }
    }

    /// What a network round gives (see `collect_expired_tx_packets`).
    pub open spec fn expiry_outcome(self, new: Self, out: Seq<(Packet, A)>, events: Seq<NetwaysteEvent>) -> bool {
        if self.cookie is None {
            new == self && out.len() == 0 && events.len() == 0
        } else {
            exists|mid: Self| #[trigger] self.responses_first(mid, events) && mid.retransmitted_from(new, out)
        }
    }

    /// A fresh state: nothing sent or received, no server, messages buffered, no latency known.
    pub fn new() -> (r: Self)
        ensures
            r.wf(),
            r.sequence == 0 && r.response_sequence == 0 && r.chat_msg_seq_num == 0 && r.tick == 0,
            r.name is None && r.room is None && r.cookie is None,
            r.last_received is None && !r.disconnect_initiated && r.server_address is None,
            r.network.tx_packets.queue@.len() == 0 && r.network.tx_packets.attempts@.len() == 0,
            r.network.rx_packets.queue@.len() == 0 && r.network.rx_packets.attempts@.len() == 0,
            r.network.rx_chat_messages matches Some(q) && q.queue@.len() == 0,
            !r.awaiting_status() && r.latency() == 0,
    {
        ClientNetState {
            sequence: 0,
            response_sequence: 0,
            name: None,
            room: None,
            cookie: None,
            chat_msg_seq_num: 0,
            tick: 0,
            network: NetworkManager::new().with_message_buffering(),
            last_received: None,
            disconnect_initiated: false,
            server_address: None,
            latency_filter: PingFilter::new(),
        }
    }

    /// Forgets the connection: counters, room, cookie, server and latency are cleared and the
    /// queues emptied. The player name is kept.
    pub fn reset(&mut self)
        requires
            old(self).wf(),
        ensures
            final(self).wf(),
            old(self).is_reset_to(*final(self)),
    {
        self.sequence = 0;
        self.response_sequence = 0;
        self.room = None;
        self.cookie = None;
        self.chat_msg_seq_num = 0;
        self.tick = 0;
        self.last_received = None;
        self.disconnect_initiated = false;
        self.server_address = None;
        self.network.reset();
        self.latency_filter.reset();
    }

    /// Whether the client is in a room.
    pub fn in_game(&self) -> (r: bool)
        ensures
            r == self.room is Some,
    {
        self.room.is_some()
    }

    /// Whether a status request is awaiting its answer.
    pub fn is_awaiting_status(&self) -> (r: bool)
        ensures
            r == self.awaiting_status(),
    {
        self.latency_filter.is_measuring()
    }

    /// The server accepted a request; nothing changes.
    pub fn handle_response_ok(&mut self) -> (r: Result<(), ()>)
        ensures
            r is Ok,
            *final(self) == *old(self),
    {
        Ok(())
    }

    /// The server logged the client in with `cookie`.
    pub fn handle_logged_in(&mut self, cookie: String, server_version: String)
        ensures
            *final(self) == (Self { cookie: Some(cookie), ..*old(self) }),
    {
        self.cookie = Some(cookie);
    }

    /// The client joined the room `room_name`.
    pub fn handle_joined_room(&mut self, room_name: &String)
        ensures
            *final(self) == (Self { room: Some(*room_name), ..*old(self) }),
    {
        self.room = Some(room_name.clone());
    }

    /// The client left its room; the chat position starts over.
    pub fn handle_left_room(&mut self)
        ensures
            *final(self) == (Self { room: None, chat_msg_seq_num: 0, ..*old(self) }),
    {
        self.room = None;
        self.chat_msg_seq_num = 0;
    }

    /// Processes a response code of the server (see `code_effect`) and returns the event to
    /// report to the user interface, if any (see `reported_event`).
    fn process_event_code(&mut self, code: ResponseCode) -> (r: Option<NetwaysteEvent>)
        ensures
            old(self).code_effect(*final(self), code),
            r == reported_event(code),
    {
        match &code {
            ResponseCode::OK => {
                let _ = self.handle_response_ok();
            },
            ResponseCode::LoggedIn { cookie, server_version } => {
                self.handle_logged_in(cookie.clone(), server_version.clone());
            },
            ResponseCode::LeaveRoom => {
                self.handle_left_room();
            },
            ResponseCode::JoinedRoom { room_name } => {
                self.handle_joined_room(room_name);
            },
            _ => {},
        }
        let reported = match &code {
            ResponseCode::LoggedIn { .. } | ResponseCode::JoinedRoom { .. } | ResponseCode::PlayerList { .. }
            | ResponseCode::RoomList { .. } | ResponseCode::LeaveRoom | ResponseCode::BadRequest { .. }
            | ResponseCode::ServerError { .. } | ResponseCode::Unauthorized { .. } => true,
            _ => false,
        };
        if reported {
            Some(NetwaysteEvent::build_netwayste_event_from_response_code(code))
        } else {
            None
        }
    }

    /// Whether the chat messages `chats` can be taken in (see `chats_acceptable`): the test to
    /// make before `handle_incoming_chats`.
    pub fn can_take_chats(&self, chats: &Vec<BroadcastChatMessage>) -> (r: bool)
        ensures
            r == self.chats_acceptable(chats@),
    {
        let c = self.chat_msg_seq_num;
        let mut any_fresh = false;
        let mut i: usize = 0;
        while i < chats.len()
            invariant
                i <= chats@.len(),
                c == self.chat_msg_seq_num,
                forall|j: int| 0 <= j < i ==> (#[trigger] chats@[j]).chat_seq is Some,
                any_fresh == (fresh_chats(chats@.take(i as int), c).len() > 0),
            decreases chats@.len() - i,
        {
            proof {
                assert(chats@.take(i + 1).drop_last() =~= chats@.take(i as int));
                assert(chats@.take(i + 1).last() == chats@[i as int]);
            }
            match chats[i].chat_seq {
                None => {
                    return false;
                },
                Some(v) => {
                    if v > c {
                        any_fresh = true;
                    }
                },
            }
            i = i + 1;
        }
        proof {
            assert(chats@.take(chats@.len() as int) =~= chats@);
        }
        !any_fresh || self.name.is_some()
    }

    /// Takes in the chat messages `chat_messages` (each numbered): those newer than the last one
    /// received are buffered in order (see `chat_chain`) and advance the chat position; those of
    /// them written by others are reported to the user interface. A client without a name
    /// cannot take in a newer message.
    pub fn handle_incoming_chats(&mut self, chat_messages: Vec<BroadcastChatMessage>) -> (r: NetwaysteEvent)
        requires
            old(self).wf(),
            old(self).chats_acceptable(chat_messages@),
        ensures
            final(self).wf(),
            old(self).chats_taken(*final(self), chat_messages@, r),
    {
        let c0 = self.chat_msg_seq_num;
        let ghost ms = chat_messages@;
        let mut q = match self.network.rx_chat_messages.take() {
            Some(q) => q,
            None => NetQueue::new(),
        };
        let ghost q0 = q;
        proof {
            assert forall|i: int| 0 <= i < q.queue@.len() implies #[trigger] q.queue@[i].has_sequence() by {}
        }
        let mut to_conwayste_msgs: Vec<(String, String)> = Vec::new();
        let ghost mut qs: Seq<NetQueue<BroadcastChatMessage>> = seq![q];
        let mut i: usize = 0;
        while i < chat_messages.len()
            invariant
                i <= ms.len(),
                ms == chat_messages@,
                forall|j: int| 0 <= j < ms.len() ==> (#[trigger] ms[j]).chat_seq is Some,
                fresh_chats(ms, c0).len() > 0 ==> self.name is Some,
                c0 == old(self).chat_msg_seq_num,
                self.chat_msg_seq_num == newest_chat(c0, fresh_chats(ms.take(i as int), c0)),
                self.name == old(self).name,
                fresh_chats(ms.take(i as int), c0).len() > 0 ==> to_conwayste_msgs@ == chats_from_others(fresh_chats(ms.take(i as int), c0), self.name->0@),
                fresh_chats(ms.take(i as int), c0).len() == 0 ==> to_conwayste_msgs@ == Seq::<(String, String)>::empty(),
                chat_chain(fresh_chats(ms.take(i as int), c0), qs),
                qs[0] == q0,
                qs.last() == q,
                all_sequenced(q.queue@),
                *self == (Self { chat_msg_seq_num: self.chat_msg_seq_num,
                    network: NetworkManager { rx_chat_messages: None, ..old(self).network }, ..*old(self) }),
            decreases ms.len() - i,
        {
            let ghost fresh0 = fresh_chats(ms.take(i as int), c0);
            proof {
                assert(ms.take(i + 1).drop_last() =~= ms.take(i as int));
                assert(ms.take(i + 1).last() == ms[i as int]);
            }
            let m = &chat_messages[i];
            let chat_seq = match m.chat_seq {
                Some(v) => v,
                None => 0,
            };
            if c0 < chat_seq {
                proof {
                    assert(fresh_chats(ms.take(i + 1), c0) == fresh0.push(ms[i as int]));
                    lemma_fresh_prefix(ms, c0, i as int + 1);
                }
                if chat_seq > self.chat_msg_seq_num {
                    self.chat_msg_seq_num = chat_seq;
                }
                let copy = BroadcastChatMessage { chat_seq: m.chat_seq, player_name: m.player_name.clone(), message: m.message.clone() };
                assert(copy == ms[i as int]);
                let ghost qb = q;
                buffer_if_possible(&mut q, copy);
                proof {
                    let old_qs = qs;
                    qs = qs.push(q);
                    let f1 = fresh0.push(ms[i as int]);
                    assert forall|j: int| 0 <= j < f1.len() implies #[trigger] buffered_if_possible(qs[j], qs[j + 1], f1[j]) by {
                        if j < fresh0.len() {
                            assert(qs[j] == old_qs[j] && qs[j + 1] == old_qs[j + 1] && f1[j] == fresh0[j]);
                        }
                    }
                    assert(f1.drop_last() =~= fresh0);
                }
                let ghost f1 = fresh0.push(ms[i as int]);
                proof {
                    assert(f1.drop_last() =~= fresh0);
                    assert(fresh0.len() == 0 ==> chats_from_others(fresh0, self.name->0@) =~= Seq::<(String, String)>::empty());
                }
                match &self.name {
                    Some(client_name) => {
                        if !client_name.eq(&m.player_name) {
                            to_conwayste_msgs.push((m.player_name.clone(), m.message.clone()));
                        }
                    },
                    None => {},
                }
                proof {
                    assert(to_conwayste_msgs@ == chats_from_others(f1, self.name->0@));
                }
            } else {
                proof {
                    assert(fresh_chats(ms.take(i + 1), c0) == fresh0);
                }
            }
            i = i + 1;
        }
        proof {
            assert(ms.take(ms.len() as int) =~= ms);
        }
        self.network.rx_chat_messages = Some(q);
        NetwaysteEvent::ChatMessages(to_conwayste_msgs)
    }

    /// Processes, in order, the buffered responses that follow the last one processed without
    /// a gap (see `responses_processed`); returns the events they report.
    fn process_queued_server_responses(&mut self) -> (events: Vec<NetwaysteEvent>)
        requires
            old(self).wf(),
            old(self).rx_numbers_fit(),
        ensures
            final(self).wf(),
            old(self).responses_processed(*final(self), events@),
            final(self).server_address == old(self).server_address,
            final(self).sequence == old(self).sequence,
            final(self).name == old(self).name,
            final(self).disconnect_initiated == old(self).disconnect_initiated,
            final(self).last_received == old(self).last_received,
    {
        let ghost s0 = *self;
        let ghost q = self.network.rx_packets.queue@;
        proof {
            assert forall|j: int| 0 <= j < q.len() implies #[trigger] q[j].has_sequence() by {
                assert(q[j] is Response);
            }
        }
        let count = self.network.rx_packets.get_contiguous_packets_count(self.response_sequence);
        let mut events: Vec<NetwaysteEvent> = Vec::new();
        let ghost mut states: Seq<Self> = seq![s0];
        let mut d: usize = 0;
        proof {
            assert(q.skip(0) =~= q);
            assert(codes_of(q.take(0)) =~= Seq::<ResponseCode>::empty());
        }
        while d < count
            invariant
                d <= count <= q.len(),
                q == s0.network.rx_packets.queue@,
                s0 == *old(self),
                s0.wf(),
                s0.rx_numbers_fit(),
                contiguous_from(q, s0.response_sequence, count as int),
                rx_taken(s0.network, self.network, d as nat),
                self.response_sequence == s0.response_sequence + d,
                Self::code_chain(codes_of(q.take(d as int)), states),
                states[0] == s0,
                events@ == events_for(codes_of(q.take(d as int))),
                *self == (Self { network: self.network, response_sequence: self.response_sequence, ..states.last() }),
                states.last().network == s0.network,
                states.last().response_sequence == s0.response_sequence,
                states.last().latency_filter == s0.latency_filter,
                states.last().server_address == s0.server_address,
                states.last().sequence == s0.sequence,
                states.last().name == s0.name,
                states.last().disconnect_initiated == s0.disconnect_initiated,
                states.last().last_received == s0.last_received,
            decreases count - d,
        {
            let ghost before = *self;
            let packet = self.network.rx_packets.queue.pop_front().unwrap();
            proof {
                assert(packet == q[d as int]);
                assert(self.network.rx_packets.queue@ =~= q.skip(d + 1));
                assert(q.take(d + 1) =~= q.take(d as int).push(packet));
                assert(codes_of(q.take(d + 1)) =~= codes_of(q.take(d as int)).push(packet->Response_code));
                assert(codes_of(q.take(d + 1)).drop_last() =~= codes_of(q.take(d as int)));
                assert(q[d as int].seq_of() == s0.response_sequence + d);
                assert(packet_seq(q[d as int]) < u64::MAX);
            }
            self.response_sequence = self.response_sequence + 1;
            match packet {
                Packet::Response { code, .. } => {
                    let ghost mid = *self;
                    let ghost c = code;
                    let ev = self.process_event_code(code);
                    proof {
                        let next = Self { network: s0.network, response_sequence: s0.response_sequence, ..*self };
                        assert(states.last().code_effect(next, c));
                        let old_states = states;
                        states = states.push(next);
                        let cs = codes_of(q.take(d + 1));
                        assert forall|i: int| 0 <= i < cs.len() implies #[trigger] states[i].code_effect(states[i + 1], cs[i]) by {
                            if i < d {
                                assert(states[i] == old_states[i] && states[i + 1] == old_states[i + 1]);
                                assert(cs[i] == codes_of(q.take(d as int))[i]);
                            }
                        }
                    }
                    match ev {
                        Some(e) => events.push(e),
                        None => {},
                    }
                },
                _ => {},
            }
            d = d + 1;
        }
        proof {
            assert forall|i: int| 0 <= i < self.network.rx_packets.queue@.len()
                implies #[trigger] self.network.rx_packets.queue@[i] is Response by {
                assert(self.network.rx_packets.queue@[i] == q[i + count]);
            }
            assert(s0.responses_processed(*self, events@));
        }
        events
    }

    /// Whether no received packet is numbered `u64::MAX`.
    fn rx_numbers_ok(&self) -> (r: bool)
        requires
            self.wf(),
        ensures
            r == self.rx_numbers_fit(),
    {
        let q = &self.network.rx_packets.queue;
        let mut i: usize = 0;
        while i < q.len()
            invariant
                self.wf(),
                *q == self.network.rx_packets.queue,
                i <= q@.len(),
                forall|j: int| 0 <= j < i ==> packet_seq(#[trigger] q@[j]) < u64::MAX,
            decreases q@.len() - i,
        {
            proof {
                assert(q@[i as int] is Response);
            }
            if q[i].sequence_number() == u64::MAX {
                return false;
            }
            i = i + 1;
        }
        true
    }

    /// Handles a packet `packet` received from `addr` (see `incoming_outcome`): returns the
    /// packets to send and the events to report to the user interface.
    pub fn handle_incoming_event(&mut self, packet: Packet, addr: A) -> (r: (Vec<(Packet, A)>, Vec<NetwaysteEvent>))
        requires
            old(self).wf(),
            packet matches Packet::Update { chats, .. } ==> old(self).cookie is Some
                && old(self).chats_acceptable(chats@),
            packet is Status ==> old(self).awaiting_status(),
        ensures
            final(self).wf(),
            old(self).incoming_outcome(*final(self), packet, addr, r.0@, r.1@),
    {
        let ghost p0 = packet;
        match packet {
            Packet::Response { sequence, request_ack, code } => {
                let keep_alive = matches!(code, ResponseCode::KeepAlive);
                let pkt = Packet::Response { sequence, request_ack, code };
                let t = instant_now();
                self.last_received = Some(t);
                let ghost mid = *self;
                let mut events: Vec<NetwaysteEvent> = Vec::new();
                if !keep_alive && self.response_sequence <= sequence {
                    let removed = self.network.tx_packets.remove(&pkt);
                    let ghost tx_after = self.network.tx_packets;
                    proof {
                        assert forall|i: int| 0 <= i < self.network.tx_packets.queue@.len()
                            implies #[trigger] self.network.tx_packets.queue@[i] is Request by {
                            match removed {
                                Some(x) => {
                                    let k = choose|k: int| {
                                        &&& 0 <= k < mid.network.tx_packets.queue@.len()
                                        &&& #[trigger] mid.network.tx_packets.queue@[k].seq_of() == pkt.seq_of()
                                        &&& x == mid.network.tx_packets.queue@[k]
                                        &&& self.network.tx_packets.queue@ == mid.network.tx_packets.queue@.remove(k)
                                        &&& self.network.tx_packets.attempts@ == if k < mid.network.tx_packets.attempts@.len() { mid.network.tx_packets.attempts@.remove(k) } else { mid.network.tx_packets.attempts@ }
                                    };
                                    if i < k {
                                        assert(self.network.tx_packets.queue@[i] == mid.network.tx_packets.queue@[i]);
                                    } else {
                                        assert(self.network.tx_packets.queue@[i] == mid.network.tx_packets.queue@[i + 1]);
                                    }
                                },
                                None => {},
                            }
                        }
                        assert forall|i: int| 0 <= i < mid.network.rx_packets.queue@.len()
                            implies #[trigger] mid.network.rx_packets.queue@[i].has_sequence() by {
                            assert(mid.network.rx_packets.queue@[i] is Response);
                        }
                    }
                    if removed.is_some() {
                        buffer_if_possible(&mut self.network.rx_packets, pkt);
                        proof {
                            assert forall|i: int| 0 <= i < self.network.rx_packets.queue@.len()
                                implies #[trigger] self.network.rx_packets.queue@[i] is Response by {
                                if can_take(mid.network.rx_packets, pkt.seq_of()) {
                                    let present = choose|present: bool| #[trigger] item_buffered(mid.network.rx_packets, self.network.rx_packets, pkt, present);
                                    if !present {
                                        let k = choose|k: int| 0 <= k <= mid.network.rx_packets.queue@.len()
                                            && self.network.rx_packets.queue@ == mid.network.rx_packets.queue@.insert(k, pkt);
                                        if i < k {
                                            assert(self.network.rx_packets.queue@[i] == mid.network.rx_packets.queue@[i]);
                                        } else if i > k {
                                            assert(self.network.rx_packets.queue@[i] == mid.network.rx_packets.queue@[i - 1]);
                                        }
                                    }
                                }
                            }
                        }
                    }
                    let ghost stored = *self;
                    proof {
                        assert(Self::removed_by_number(mid.network.tx_packets, stored.network.tx_packets, pkt, removed));
                        assert(removed is Some ==> buffered_if_possible(mid.network.rx_packets, stored.network.rx_packets, pkt));
                        assert(removed is None ==> stored.network.rx_packets == mid.network.rx_packets);
                        assert(stored == (Self { network: NetworkManager { tx_packets: stored.network.tx_packets,
                            rx_packets: stored.network.rx_packets, ..mid.network }, ..mid }));
                        assert(mid.response_stored(stored, pkt));
                    }
                    if self.rx_numbers_ok() {
                        events = self.process_queued_server_responses();
                    }
                    proof {
                        assert(mid == old(self).received_at(t));
                    }
                } else {
                    proof {
                        assert(Self::removed_by_number(mid.network.tx_packets, mid.network.tx_packets, pkt, None));
                        assert(mid.response_stored(mid, pkt));
                        assert(mid == old(self).received_at(t));
                    }
                }
                (Vec::new(), events)
            },
            Packet::Update { chats, ping, .. } => {
                let nonce = ping.nonce;
                let mut events: Vec<NetwaysteEvent> = Vec::new();
                if chats.len() != 0 {
                    let ev = self.handle_incoming_chats(chats);
                    events.push(ev);
                }
                let cookie = match &self.cookie {
                    Some(c) => c.clone(),
                    None => String::new(),
                };
                let reply = Packet::UpdateReply {
                    cookie,
                    last_chat_seq: Some(self.chat_msg_seq_num),
                    last_game_update_seq: None,
                    last_full_gen: None,
                    partial_gen: None,
                    pong: PingPong { nonce },
                };
                let mut out: Vec<(Packet, A)> = Vec::new();
                out.push((reply, addr));
                proof {
                    assert(out@ =~= seq![(self.update_reply(nonce), addr)]);
                }
                (out, events)
            },
            Packet::Status { pong, server_version, player_count, room_count, server_name } => {
                let pkt = Packet::Status { pong, server_version, player_count, room_count, server_name };
                self.latency_filter.update();
                let avg = self.latency_filter.average_latency();
                proof {
                    assert(avg == self.latency());
                }
                let latency: Option<u64> = if avg <= 18_446_744_073_709_551_615u128 { Some(avg as u64) } else { None };
                let mut events: Vec<NetwaysteEvent> = Vec::new();
                events.push(NetwaysteEvent::Status(pkt, latency));
                proof {
                    assert(events@ =~= seq![NetwaysteEvent::Status(p0, self.latency_report())]);
                }
                (Vec::new(), events)
            },
            Packet::Request { .. } | Packet::UpdateReply { .. } | Packet::GetStatus { .. } => (Vec::new(), Vec::new()),
        }
    }

    /// One network round while connected: the buffered responses are processed, then the
    /// requests due are retransmitted (see `expiry_outcome`). Returns the packets to send and
    /// the events to report.
    pub fn collect_expired_tx_packets(&mut self) -> (r: (Vec<(Packet, A)>, Vec<NetwaysteEvent>))
        where A: Copy,
        requires
            old(self).wf(),
            old(self).cookie is Some ==> old(self).server_address is Some,
        ensures
            final(self).wf(),
            old(self).expiry_outcome(*final(self), r.0@, r.1@),
    {
        if self.cookie.is_none() {
            return (Vec::new(), Vec::new());
        }
        let mut events: Vec<NetwaysteEvent> = Vec::new();
        if self.rx_numbers_ok() {
            events = self.process_queued_server_responses();
        }
        let ghost mid = *self;
        let indices = self.network.tx_packets.get_retransmit_indices();
        let ghost el = choose|elapsed: Seq<u128>| retransmit_selection(self.network.tx_packets.attempts@, elapsed, indices@);
        let mut out: Vec<(Packet, A)> = Vec::new();
        let addr = match self.server_address {
            Some(a) => a,
            None => return (out, events),
        };
        if expiry_is_safe(&self.network, &indices) {
            out = self.network.get_expired_tx_packets(addr, Some(self.response_sequence), &indices);
            proof {
                let oq = mid.network.tx_packets.queue@;
                let nq = self.network.tx_packets.queue@;
                let stop = choose|stop: int| {
                    &&& 0 <= stop <= indices@.len()
                    &&& all_below(indices@, oq.len() as int, stop)
                    &&& stop < indices@.len() ==> indices@[stop] >= oq.len()
                    &&& #[trigger] retransmission_outcome(oq, mid.network.tx_packets.attempts@,
                        nq, self.network.tx_packets.attempts@, indices@, stop, Some(mid.response_sequence))
                    &&& sent_as(oq, mid.network.tx_packets.attempts@, indices@, stop, Some(mid.response_sequence), addr, out@)
                };
                assert forall|y: int| 0 <= y < nq.len() implies #[trigger] nq[y] is Request by {
                    assert(oq[y] is Request);
                    assert(nq[y] == oq[y] || nq[y] == packet_with_ack(oq[y], Some(mid.response_sequence)));
                }
                assert(expired_outcome(mid.network, self.network, mid.server_address->0, Some(mid.response_sequence), indices@, out@));
                assert(mid.retransmitted_from(*self, out@));
            }
        }
        proof {
            assert(old(self).responses_first(mid, events@));
        }
        (out, events)
    }

    /// The same as `collect_expired_tx_packets`: what the client does every network interval.
    pub fn maintain_network_state(&mut self) -> (r: (Vec<(Packet, A)>, Vec<NetwaysteEvent>))
        where A: Copy,
        requires
            old(self).wf(),
            old(self).cookie is Some ==> old(self).server_address is Some,
        ensures
            final(self).wf(),
            old(self).expiry_outcome(*final(self), r.0@, r.1@),
    {
        self.collect_expired_tx_packets()
    }

    /// A tick: while connected, a client that asked to disconnect or has not heard from the
    /// server for too long (by the clock) is reset, and otherwise sends a keep-alive;
    /// unconnected, the tick counter advances (wrapping).
    pub fn handle_tick_event(&mut self) -> (r: Option<Packet>)
        requires
            old(self).wf(),
            old(self).cookie is Some ==> old(self).last_received is Some,
        ensures
            final(self).wf(),
            old(self).cookie is None ==> r is None
                && *final(self) == (Self { tick: if old(self).tick == usize::MAX { 0 } else { (old(self).tick + 1) as usize }, ..*old(self) }),
            old(self).cookie is Some ==> (r is None && old(self).is_reset_to(*final(self)))
                || (!old(self).disconnect_initiated && r == Some(old(self).keep_alive()) && *final(self) == *old(self)),
            old(self).cookie is Some && old(self).disconnect_initiated ==> r is None,
    {
        if self.cookie.is_some() {
            let timed_out = match self.last_received {
                Some(t) => has_connection_timed_out(t),
                None => false,
            };
            if timed_out || self.disconnect_initiated {
                self.reset();
                return None;
            } else {
                let cookie = match &self.cookie {
                    Some(c) => Some(c.clone()),
                    None => None,
                };
                return Some(Packet::Request {
                    cookie,
                    sequence: self.sequence,
                    response_ack: None,
                    action: RequestAction::KeepAlive { latest_response_ack: self.response_sequence },
                });
            }
        }
        self.tick = self.tick.wrapping_add(1);
        None
    }

    /// Prepares request `action` for the server (see `request_sent`).
    fn action_to_packet(&mut self, action: RequestAction) -> (p: Packet)
        requires
            old(self).wf(),
            old(self).cookie is Some ==> old(self).sequence < u64::MAX,
        ensures
            final(self).wf(),
            old(self).request_sent(*final(self), action, p),
    {
        if self.cookie.is_some() {
            self.sequence = self.sequence + 1;
        }
        if matches!(action, RequestAction::Disconnect) {
            self.disconnect_initiated = true;
        }
        let cookie = match &self.cookie {
            Some(c) => Some(c.clone()),
            None => None,
        };
        let cookie_copy = match &self.cookie {
            Some(c) => Some(c.clone()),
            None => None,
        };
        let copy = Packet::Request {
            sequence: self.sequence,
            response_ack: Some(self.response_sequence),
            cookie: cookie_copy,
            action: action.clone(),
        };
        let ghost c = copy;
        let ghost before = self.network.tx_packets;
        proof {
            assert forall|i: int| 0 <= i < before.queue@.len() implies #[trigger] before.queue@[i].has_sequence() by {
                assert(before.queue@[i] is Request);
            }
        }
        buffer_if_possible(&mut self.network.tx_packets, copy);
        proof {
            assert forall|i: int| 0 <= i < self.network.tx_packets.queue@.len()
                implies #[trigger] self.network.tx_packets.queue@[i] is Request by {
                if can_take(before, c.seq_of()) {
                    let present = choose|present: bool| #[trigger] item_buffered(before, self.network.tx_packets, c, present);
                    if !present {
                        let k = choose|k: int| 0 <= k <= before.queue@.len()
                            && self.network.tx_packets.queue@ == before.queue@.insert(k, c);
                        if i < k {
                            assert(self.network.tx_packets.queue@[i] == before.queue@[i]);
                        } else if i > k {
                            assert(self.network.tx_packets.queue@[i] == before.queue@[i - 1]);
                        }
                    }
                }
            }
            assert(buffered_if_possible(before, self.network.tx_packets, c));
        }
        Packet::Request {
            sequence: self.sequence,
            response_ack: Some(self.response_sequence),
            cookie,
            action,
        }
    }

    /// Handles a request of the user interface: a status request starts a latency measurement
    /// and is sent as is; another request is turned into a request action (see
    /// `request_action_for`), and sent unless there is nothing to ask (see `request_sent`);
    /// connecting records the player's name first.
    pub fn handle_netwayste_request(&mut self, request: NetwaysteEvent) -> (r: Option<Packet>)
        requires
            old(self).wf(),
            request is GetStatus || is_request_event(request),
            old(self).cookie is Some ==> old(self).sequence < u64::MAX,
        ensures
            final(self).wf(),
            match request {
                NetwaysteEvent::GetStatus(ping) => {
                    &&& r == Some(Packet::GetStatus { ping })
                    &&& final(self).awaiting_status()
                    &&& final(self).latency() == old(self).latency()
                    &&& *final(self) == (Self { latency_filter: final(self).latency_filter, ..*old(self) })
                },
                _ => {
                    let action = request_action_for(request, old(self).room is Some);
                    if action is NoAction {
                        r is None && *final(self) == *old(self)
                    } else {
                        let named = match action {
                            RequestAction::Connect { name, .. } => Self { name: Some(name), ..*old(self) },
                            _ => *old(self),
                        };
                        r matches Some(p) && named.request_sent(*final(self), action, p)
                    }
                },
            },
    {
        match request {
            NetwaysteEvent::GetStatus(ping) => {
                self.latency_filter.start();
                Some(Packet::GetStatus { ping })
            },
            _ => {
                let in_game = self.in_game();
                let action = NetwaysteEvent::build_request_action_from_netwayste_event(request, in_game);
                if matches!(action, RequestAction::NoAction) {
                    return None;
                }
                match &action {
                    RequestAction::Connect { name, .. } => {
                        self.name = Some(name.clone());
                    },
                    _ => {},
                }
                Some(self.action_to_packet(action))
            },
        }
    }

    /// The lines to log for the list of players `player_names` (see `player_list_lines`).
    pub fn handle_player_list(&mut self, player_names: Vec<String>) -> (lines: Vec<String>)
        ensures
            texts(lines@) == player_list_lines(player_names@),
            *final(self) == *old(self),
    {
        let mut lines: Vec<String> = Vec::new();
        lines.push("---BEGIN PLAYER LIST---".to_owned());
        let mut i: usize = 0;
        while i < player_names.len()
            invariant
                i <= player_names@.len(),
                texts(lines@) == seq!["---BEGIN PLAYER LIST---"@]
                    + Seq::new(i as nat, |k: int| decimal(k as nat) + "\tname: "@ + player_names@[k]@),
            decreases player_names@.len() - i,
        {
            let line = decimal_string(i as u64).concat("\tname: ").concat(player_names[i].as_str());
            let ghost before = lines@;
            lines.push(line);
            proof {
                assert(texts(lines@) =~= texts(before).push(line@));
                assert(seq!["---BEGIN PLAYER LIST---"@] + Seq::new((i + 1) as nat, |k: int| decimal(k as nat) + "\tname: "@ + player_names@[k]@)
                    =~= (seq!["---BEGIN PLAYER LIST---"@] + Seq::new(i as nat, |k: int| decimal(k as nat) + "\tname: "@ + player_names@[k]@)).push(line@));
            }
            i = i + 1;
        }
        let ghost before = lines@;
        lines.push("---END PLAYER LIST---".to_owned());
        proof {
            assert(texts(lines@) =~= texts(before).push("---END PLAYER LIST---"@));
            assert(Seq::new(player_names@.len(), |k: int| decimal(k as nat) + "\tname: "@ + player_names@[k]@)
                =~= Seq::new(i as nat, |k: int| decimal(k as nat) + "\tname: "@ + player_names@[k]@));
            assert(player_list_lines(player_names@) =~= texts(before).push("---END PLAYER LIST---"@));
        }
        lines
    }

    /// The lines to log for the list of rooms `rooms` (see `room_list_lines`).
    pub fn handle_room_list(&mut self, rooms: Vec<RoomList>) -> (lines: Vec<String>)
        ensures
            texts(lines@) == room_list_lines(rooms@),
            *final(self) == *old(self),
    {
        let mut lines: Vec<String> = Vec::new();
        lines.push("---BEGIN GAME ROOM LIST---".to_owned());
        let mut i: usize = 0;
        while i < rooms.len()
            invariant
                i <= rooms@.len(),
                texts(lines@) == seq!["---BEGIN GAME ROOM LIST---"@] + Seq::new(i as nat, |k: int| room_line(rooms@[k])),
            decreases rooms@.len() - i,
        {
            let room = &rooms[i];
            let running = if room.in_progress { "true" } else { "false" };
            let line = String::from_str("#name: ").concat(room.room_name.as_str()).concat(",\trunning? ").concat(running)
                .concat(",\tplayers: ").concat(decimal_string(room.player_count as u64).as_str());
            let ghost before = lines@;
            lines.push(line);
            proof {
                assert(line@ == room_line(rooms@[i as int]));
                assert(texts(lines@) =~= texts(before).push(line@));
                assert(seq!["---BEGIN GAME ROOM LIST---"@] + Seq::new((i + 1) as nat, |k: int| room_line(rooms@[k]))
                    =~= (seq!["---BEGIN GAME ROOM LIST---"@] + Seq::new(i as nat, |k: int| room_line(rooms@[k]))).push(line@));
            }
            i = i + 1;
        }
        let ghost before = lines@;
        lines.push("---END GAME ROOM LIST---".to_owned());
        proof {
            assert(texts(lines@) =~= texts(before).push("---END GAME ROOM LIST---"@));
            assert(Seq::new(rooms@.len(), |k: int| room_line(rooms@[k])) =~= Seq::new(i as nat, |k: int| room_line(rooms@[k])));
            assert(room_list_lines(rooms@) =~= texts(before).push("---END GAME ROOM LIST---"@));
        }
        lines
    }
}


/// A response is processed once: once the client expects responses numbered past `sequence`,
/// receiving the response numbered `sequence` again only records when it arrived, and neither
/// sends nor reports anything.
pub proof fn law_stale_response_ignored<A>(s: ClientNetState<A>, new: ClientNetState<A>, sequence: u64,
    request_ack: Option<u64>, code: ResponseCode, addr: A, out: Seq<(Packet, A)>, events: Seq<NetwaysteEvent>)
    requires
        s.response_sequence > sequence,
        s.incoming_outcome(new, Packet::Response { sequence, request_ack, code }, addr, out, events),
    ensures
        out.len() == 0,
        events.len() == 0,
        exists|t: Instant| new == s.received_at(t),
{
}

} // verus!
