//! The server's state: its players, rooms and their network bookkeeping, and what each kind
//! of request does to it.
use vstd::prelude::*;
use crate::net::{BroadcastChatMessage, NetworkManager, Packet, PingPong, RequestAction, ResponseCode, RoomList, UniUpdate, VERSION};
use crate::filter::ping::random_nonce;
use crate::utils::ping::sampled;
use crate::net::queue::{all_sequenced, buffer_item_aborts, contains_seq, contiguous_from, NetworkQueue, Sequenced};
use crate::server::entity::{skip_count, MAX_AGE_CHAT_MESSAGES, chat_added, chat_messages_added, same_room_fields, Player, PlayerID, PlayerInGameInfo, Room, RoomID, ServerChatMessage, MAX_ROOM_NAME, SERVER_PLAYER_ID};
use crate::time::{gap_nanos, nanos_between};
use crate::server::util::{base64_url, client_version_accepted, validate_client_version, debug_quoted, debug_text, decimal, decimal_string, new_cookie, new_uuid};
use crate::time::instant_now;
use crate::net::manager::{all_below, connection_timed_out_after, is_timeout, retransmission_outcome, sent_as};
use crate::net::expiry::{expired_outcome, expiry_is_safe, expiry_safe, flatten};
use crate::net::queue::retransmit_selection;
use crate::net::packet_with_ack;
use crate::utils::PingFilter;

verus! {

/// The whole state of the server; `A` is how clients are addressed.
///
/// The maps of the server are kept as vectors of entries in insertion order: `players` and
/// `rooms` by their identifiers, `player_map` from login cookie to player, `room_map` from
/// room name to room, and `network_map` from player to its network bookkeeping.
pub struct ServerState<A> {
    pub tick: usize,
    pub players: Vec<Player<A>>,
    pub player_map: Vec<(String, PlayerID)>,
    pub rooms: Vec<Room>,
    pub room_map: Vec<(String, RoomID)>,
    pub network_map: Vec<(PlayerID, NetworkManager)>,
}

/// `i` is a position in `ps` of the player `id`.
pub open spec fn player_at<A>(ps: Seq<Player<A>>, id: PlayerID, i: int) -> bool {
    0 <= i < ps.len() && ps[i].player_id == id
}

/// `k` is a position in `m` of the network bookkeeping of player `id`.
pub open spec fn network_at(m: Seq<(PlayerID, NetworkManager)>, id: PlayerID, k: int) -> bool {
    0 <= k < m.len() && m[k].0 == id
}

/// `i` is a position in `rs` of the room `id`.
pub open spec fn room_at(rs: Seq<Room>, id: RoomID, i: int) -> bool {
    0 <= i < rs.len() && rs[i].room_id == id
}

/// `i` is the position of the first room of `rs` named `name`.
pub open spec fn first_room_named(rs: Seq<Room>, name: Seq<char>, i: int) -> bool {
    &&& 0 <= i < rs.len()
    &&& rs[i].name@ == name
    &&& forall|k: int| 0 <= k < i ==> rs[k].name@ != name
}

/// The entries of `m` have distinct keys (compared as text).
pub open spec fn distinct_text_keys<V>(m: Seq<(String, V)>) -> bool {
    forall|i: int, j: int| 0 <= i < j < m.len() ==> (#[trigger] m[i]).0@ != (#[trigger] m[j]).0@
}

/// The value of key `k` in `m`, when there is one.
pub open spec fn text_lookup<V>(m: Seq<(String, V)>, k: Seq<char>) -> Option<V> {
    if exists|i: int| 0 <= i < m.len() && (#[trigger] m[i]).0@ == k {
        Some(m[choose|i: int| 0 <= i < m.len() && (#[trigger] m[i]).0@ == k].1)
    } else {
        None
    }
}

/// The names, in order, of the players of `ps` among `ids`.
pub open spec fn names_among<A>(ps: Seq<Player<A>>, ids: Seq<PlayerID>) -> Seq<Seq<char>>
    decreases ps.len(),
{
    if ps.len() == 0 {
        Seq::empty()
    } else {
        let rest = names_among(ps.drop_last(), ids);
        if ids.contains(ps.last().player_id) { rest.push(ps.last().name@) } else { rest }
    }
}

/// The texts of `v`.
pub open spec fn text_views(v: Seq<String>) -> Seq<Seq<char>> {
    v.map_values(|s: String| s@)
}

/// `s` reports room `r`: its name, its number of players (as a byte, wrapping) and whether
/// its game runs.
pub open spec fn reports_room(r: Room, s: RoomList) -> bool {
    &&& s.room_name@ == r.name@
    &&& s.player_count == r.player_ids@.len() as u8
    &&& s.in_progress == r.game_running
}

/// `code` refuses a login because the name is taken.
pub open spec fn bad_login(code: ResponseCode) -> bool {
    code matches ResponseCode::Unauthorized { error_msg } && error_msg@ == "not a unique name"@
}

/// `r` is a `BadRequest` whose message is `text`.
pub open spec fn bad_request(r: ResponseCode, text: Seq<char>) -> bool {
    r matches ResponseCode::BadRequest { error_msg } && error_msg@ == text
}

/// `b` is `a` but for the entry at position `i`.
pub open spec fn rooms_but(a: Seq<Room>, b: Seq<Room>, i: int) -> bool {
    a.len() == b.len() && forall|j: int| 0 <= j < a.len() && j != i ==> #[trigger] b[j] == a[j]
}

/// `b` is `a` but for the entry at position `i`.
pub open spec fn players_but<A>(a: Seq<Player<A>>, b: Seq<Player<A>>, i: int) -> bool {
    a.len() == b.len() && forall|j: int| 0 <= j < a.len() && j != i ==> #[trigger] b[j] == a[j]
}

fn contains_id(ids: &Vec<PlayerID>, id: PlayerID) -> (r: bool)
    ensures
        r == ids@.contains(id),
{
    let mut i: usize = 0;
    while i < ids.len()
        invariant
            i <= ids@.len(),
            forall|j: int| 0 <= j < i ==> ids@[j] != id,
        decreases ids@.len() - i,
    {
        if ids[i] == id {
            proof { assert(ids@[i as int] == id); }
            return true;
        }
        i = i + 1;
    }
    false
}

/// `ids` without every occurrence of `id`, in order.
pub open spec fn ids_without(ids: Seq<PlayerID>, id: PlayerID) -> Seq<PlayerID>
    decreases ids.len(),
{
    if ids.len() == 0 {
        ids
    } else {
        let rest = ids_without(ids.drop_last(), id);
        if ids.last() != id { rest.push(ids.last()) } else { rest }
    }
}

/// `b` is `a` with key `k` mapped to `v`: its entry takes `v` in place, or one is added last.
pub open spec fn text_key_set<V>(a: Seq<(String, V)>, b: Seq<(String, V)>, k: Seq<char>, v: V) -> bool {
    if exists|i: int| 0 <= i < a.len() && (#[trigger] a[i]).0@ == k {
        exists|i: int| 0 <= i < a.len() && (#[trigger] a[i]).0@ == k && b == a.update(i, (a[i].0, v))
    } else {
        &&& b.len() == a.len() + 1
        &&& b.drop_last() == a
        &&& b.last().0@ == k
        &&& b.last().1 == v
    }
}

/// `b` is `a` without the entry of key `k` (if any).
pub open spec fn text_key_removed<V>(a: Seq<(String, V)>, b: Seq<(String, V)>, k: Seq<char>) -> bool {
    if exists|i: int| 0 <= i < a.len() && (#[trigger] a[i]).0@ == k {
        exists|i: int| 0 <= i < a.len() && (#[trigger] a[i]).0@ == k && b == a.remove(i)
    } else {
        b == a
    }
}

/// `b` is `a` with `room` in place of the room with its identifier, or `room` added last.
pub open spec fn room_set(a: Seq<Room>, b: Seq<Room>, room: Room) -> bool {
    if exists|i: int| room_at(a, room.room_id, i) {
        exists|i: int| room_at(a, room.room_id, i) && b == a.update(i, room)
    } else {
        b == a.push(room)
    }
}

/// `b` is `a` without the player `id` (if present).
pub open spec fn player_removed<A>(a: Seq<Player<A>>, b: Seq<Player<A>>, id: PlayerID) -> bool {
    if exists|i: int| player_at(a, id, i) {
        exists|i: int| player_at(a, id, i) && b == a.remove(i)
    } else {
        b == a
    }
}

/// `after` is `before` with player `id` added to its players.
pub open spec fn joined(before: Room, after: Room, id: PlayerID) -> bool {
    &&& same_room_fields(before, after)
    &&& after.player_ids@ == before.player_ids@.push(id)
    &&& after.latest_seq_num == before.latest_seq_num
    &&& after.messages == before.messages
}

/// `after` is `before` without player `id` among its players.
pub open spec fn left(before: Room, after: Room, id: PlayerID) -> bool {
    &&& same_room_fields(before, after)
    &&& after.player_ids@ == ids_without(before.player_ids@, id)
    &&& after.latest_seq_num == before.latest_seq_num
    &&& after.messages == before.messages
}

/// `after` is `before` with `game_info` changed to `g`.
pub open spec fn placed<A>(before: Player<A>, after: Player<A>, g: Option<PlayerInGameInfo>) -> bool {
    &&& after.player_id == before.player_id
    &&& after.cookie == before.cookie
    &&& after.addr == before.addr
    &&& after.name == before.name
    &&& after.request_ack == before.request_ack
    &&& after.next_resp_seq == before.next_resp_seq
    &&& after.game_info == g
    &&& after.last_received == before.last_received
    &&& after.latency_filter == before.latency_filter
}

fn remove_ids(ids: &mut Vec<PlayerID>, id: PlayerID)
    ensures
        final(ids)@ == ids_without(old(ids)@, id),
{
    let ghost all = ids@;
    let mut kept: Vec<PlayerID> = Vec::new();
    let mut i: usize = 0;
    while i < ids.len()
        invariant
            all == old(ids)@,
            *ids == *old(ids),
            i <= all.len(),
            kept@ == ids_without(all.take(i as int), id),
        decreases all.len() - i,
    {
        proof {
            assert(all.take(i + 1).drop_last() =~= all.take(i as int));
        }
        if ids[i] != id {
            kept.push(ids[i]);
        }
        i = i + 1;
    }
    proof {
        assert(all.take(all.len() as int) =~= all);
    }
    *ids = kept;
}

/// The number of packets at the front of `q` that a client acknowledging `ack` no longer
/// needs: those numbered below `ack` (none when `ack` is zero), up to the first that is not.
pub open spec fn acked_count(q: Seq<Packet>, ack: u64) -> nat
    decreases q.len(),
{
    if q.len() == 0 || ack == 0 || crate::net::packet_seq(q[0]) > ack - 1 {
        0
    } else {
        1 + acked_count(q.skip(1), ack)
    }
}

/// `after` is `before` with its `n` oldest transmitted packets (and their attempts) dropped.
pub open spec fn tx_dropped(before: NetworkManager, after: NetworkManager, n: nat) -> bool {
    &&& after.tx_packets.queue@ == before.tx_packets.queue@.skip(n as int)
    &&& after.tx_packets.attempts@ == if n <= before.tx_packets.attempts@.len() {
        before.tx_packets.attempts@.skip(n as int)
    } else {
        Seq::empty()
    }
    &&& after.tx_packets.buffer_wrap_index == before.tx_packets.buffer_wrap_index
    &&& after.rx_packets == before.rx_packets
    &&& after.rx_chat_messages == before.rx_chat_messages
    &&& after.statistics == before.statistics
}

/// `b` is `a` but for the entry at position `k`.
pub open spec fn networks_but(a: Seq<(PlayerID, NetworkManager)>, b: Seq<(PlayerID, NetworkManager)>, k: int) -> bool {
    a.len() == b.len() && forall|j: int| 0 <= j < a.len() && j != k ==> #[trigger] b[j] == a[j]
}

/// `after` is `before` with `item` buffered in order, `exists` telling whether an item of the
/// same sequence number was there already (see `NetQueue::buffer_item`).
pub open spec fn buffered(before: crate::net::NetQueue<Packet>, after: crate::net::NetQueue<Packet>, item: Packet, exists: bool) -> bool {
    &&& all_sequenced(after.queue@)
    &&& exists ==> {
        &&& after.queue@ == before.queue@
        &&& after.attempts@ == before.attempts@
        &&& (after.buffer_wrap_index == before.buffer_wrap_index
            || (before.buffer_wrap_index matches Some(k) && after.buffer_wrap_index == Some((k + 1) as usize)))
    }
    &&& !exists ==> {
        &&& exists|i: int| 0 <= i <= before.queue@.len() && after.queue@ == before.queue@.insert(i, item)
        &&& after.attempts@.len() == before.attempts@.len() + 1
        &&& after.attempts@.drop_last() == before.attempts@
    }
    &&& before.wf() ==> (exists == contains_seq(before.queue@, crate::net::packet_seq(item)))
}

/// `q` can take an item numbered `seq` without the buffering failing.
pub open spec fn can_buffer(q: crate::net::NetQueue<Packet>, seq: u64) -> bool {
    can_buffer_in(q.queue@, q.buffer_wrap_index, seq)
}

/// A queue holding `items`, with wrap index `wrap`, can take an item numbered `seq` without
/// the buffering failing.
pub open spec fn can_buffer_in(items: Seq<Packet>, wrap: Option<usize>, seq: u64) -> bool {
    &&& !buffer_item_aborts(items, wrap, seq)
    &&& wrap matches Some(k) ==> k < usize::MAX
}

/// `b` is `a` with `p` in place of the player with its identifier (at position `i`), or `p`
/// added last (at position `i`).
pub open spec fn player_set<A>(a: Seq<Player<A>>, b: Seq<Player<A>>, p: Player<A>, i: int) -> bool {
    if exists|j: int| player_at(a, p.player_id, j) {
        player_at(a, p.player_id, i) && b == a.update(i, p)
    } else {
        i == a.len() && b == a.push(p)
    }
}

/// Fresh network bookkeeping: nothing sent or received yet.
pub open spec fn fresh_network(nm: NetworkManager) -> bool {
    &&& nm.statistics.tx_packets_failed == 0
    &&& nm.statistics.tx_packets_success == 0
    &&& nm.tx_packets.queue@.len() == 0 && nm.tx_packets.attempts@.len() == 0 && nm.tx_packets.buffer_wrap_index is None
    &&& nm.rx_packets.queue@.len() == 0 && nm.rx_packets.attempts@.len() == 0 && nm.rx_packets.buffer_wrap_index is None
    &&& nm.rx_chat_messages is None
}

/// `b` is `a` with fresh bookkeeping for player `id`, in place of its old one or added last.
pub open spec fn network_set(a: Seq<(PlayerID, NetworkManager)>, b: Seq<(PlayerID, NetworkManager)>, id: PlayerID) -> bool {
    if exists|j: int| network_at(a, id, j) {
        exists|j: int| network_at(a, id, j) && networks_but(a, b, j) && b[j].0 == id && fresh_network(b[j].1)
    } else {
        b.len() == a.len() + 1 && b.drop_last() == a && b.last().0 == id && fresh_network(b.last().1)
    }
}

/// `p` is a player just logged in as `name`, from `addr`: a fresh cookie (twelve random
/// bytes in url-safe base64), nothing processed yet, one response numbered (the login
/// answer, number zero), in the lobby, with an empty latency filter.
pub open spec fn new_player<A>(p: Player<A>, name: Seq<char>, addr: A) -> bool {
    &&& exists|b: Seq<u8>| b.len() == 12 && p.cookie@ == base64_url(b)
    &&& p.name@ == name
    &&& p.addr == addr
    &&& p.request_ack is None
    &&& p.next_resp_seq == 1
    &&& p.game_info is None
    &&& p.latency_filter.wf()
    &&& p.latency_filter.samples().len() == 0
    &&& p.latency_filter.average() == 0
    &&& !p.latency_filter.measuring()
}

/// `after` is `before` with one more response numbered and the next request expected.
pub open spec fn counted<A>(before: Player<A>, after: Player<A>) -> bool {
    &&& after.player_id == before.player_id
    &&& after.cookie == before.cookie
    &&& after.addr == before.addr
    &&& after.name == before.name
    &&& after.request_ack == Some((before.request_ack->0 + 1) as u64)
    &&& after.next_resp_seq == before.next_resp_seq + 1
    &&& after.game_info == before.game_info
    &&& after.last_received == before.last_received
    &&& after.latency_filter == before.latency_filter
}

/// Why a packet from a client is refused.
#[derive(Debug, Clone, Copy, PartialEq, Eq, Structural)]
pub enum DecodeError {
    /// Responses, updates and status replies are not taken from clients.
    InvalidPacketType,
    /// A request other than a login or a keep-alive came without a cookie.
    NoCookie,
    /// The client is newer than the server.
    ClientOutOfDate,
    /// A keep-alive came without a cookie.
    CookieRequired,
    /// The cookie is not that of a logged-in player.
    InvalidCookie,
    /// The cookie's player is gone.
    PlayerNotFound,
}

impl DecodeError {
    /// What the error says.
    pub fn message(&self) -> (s: String)
        ensures
            s@ == match *self {
                DecodeError::InvalidPacketType => "invalid packet type"@,
                DecodeError::NoCookie => "no cookie"@,
                DecodeError::ClientOutOfDate => "client out of date -- please upgrade"@,
                DecodeError::CookieRequired => "cookie required for non-connect actions"@,
                DecodeError::InvalidCookie => "invalid cookie"@,
                DecodeError::PlayerNotFound => "player not found"@,
            },
    {
        match self {
            DecodeError::InvalidPacketType => String::from_str("invalid packet type"),
            DecodeError::NoCookie => String::from_str("no cookie"),
            DecodeError::ClientOutOfDate => String::from_str("client out of date -- please upgrade"),
            DecodeError::CookieRequired => String::from_str("cookie required for non-connect actions"),
            DecodeError::InvalidCookie => String::from_str("invalid cookie"),
            DecodeError::PlayerNotFound => String::from_str("player not found"),
        }
    }
}

/// `after` is `before` with only the time of the last packet received changed.
pub open spec fn stamped<A>(before: Player<A>, after: Player<A>) -> bool {
    &&& after.player_id == before.player_id
    &&& after.cookie == before.cookie
    &&& after.addr == before.addr
    &&& after.name == before.name
    &&& after.request_ack == before.request_ack
    &&& after.next_resp_seq == before.next_resp_seq
    &&& after.game_info == before.game_info
    &&& after.latency_filter == before.latency_filter
}

/// `after` is `before` once its client reported chat messages up to `last_chat_seq` and
/// completed a round trip: the chat confirmation is taken in a game (see
/// `Player::update_chat_seq_num`), and a latency measurement in progress is completed.
pub open spec fn replied<A>(before: Player<A>, after: Player<A>, last_chat_seq: Option<u64>) -> bool {
    &&& after.player_id == before.player_id
    &&& after.cookie == before.cookie
    &&& after.addr == before.addr
    &&& after.name == before.name
    &&& after.request_ack == before.request_ack
    &&& after.next_resp_seq == before.next_resp_seq
    &&& after.game_info == match before.game_info {
        None => None,
        Some(g) => Some(PlayerInGameInfo {
            room_id: g.room_id,
            chat_msg_seq_num: crate::server::entity::chat_seq_after(g.chat_msg_seq_num, last_chat_seq),
        }),
    }
    &&& after.last_received == before.last_received
    &&& if before.latency_filter.measuring() {
        exists|latency: u128| #[trigger] sampled(before.latency_filter, after.latency_filter, latency)
    } else {
        after.latency_filter == before.latency_filter
    }
}

/// `b` relays the messages `ms`, in order: each with its sequence number, author and text.
pub open spec fn relays(b: Seq<BroadcastChatMessage>, ms: Seq<ServerChatMessage>) -> bool {
    &&& b.len() == ms.len()
    &&& forall|i: int| 0 <= i < ms.len() ==> {
        &&& (#[trigger] b[i]).chat_seq == Some(ms[i].seq_num)
        &&& b[i].player_name@ == ms[i].player_name@
        &&& b[i].message@ == ms[i].message@
    }
}

/// The messages of a room holding `ms` that a client which confirmed chat messages up to
/// `confirmed` has not seen: all of them when it confirmed none; none when it is up to date
/// (or claims more than was sent); otherwise those after the ones it has (see `skip_count`).
pub open spec fn unacknowledged(ms: Seq<ServerChatMessage>, confirmed: Option<u64>) -> Seq<ServerChatMessage> {
    match confirmed {
        None => ms,
        Some(c) => if ms.len() == 0 || c >= ms.last().seq_num {
            Seq::empty()
        } else {
            let n = skip_count(ms[0].seq_num, ms.last().seq_num, c);
            if n <= ms.len() { ms.skip(n as int) } else { Seq::empty() }
        },
    }
}

/// A heartbeat: the server is alive.
pub open spec fn is_heartbeat(p: Packet) -> bool {
    p == (Packet::Response { sequence: 0, request_ack: None, code: ResponseCode::KeepAlive })
}

/// `p` is an update relaying `ms` and nothing else (its ping is fresh).
pub open spec fn chat_update(p: Packet, ms: Seq<ServerChatMessage>) -> bool {
    p matches Packet::Update { chats, game_update_seq, game_updates, universe_update, .. }
        && relays(chats@, ms) && game_update_seq is None && game_updates@.len() == 0 && universe_update is NoChange
}

/// The messages of `ms`, in order, younger than `MAX_AGE_CHAT_MESSAGES` seconds at `now`.
pub open spec fn recent_messages(ms: Seq<ServerChatMessage>, now: std::time::Instant) -> Seq<ServerChatMessage>
    decreases ms.len(),
{
    if ms.len() == 0 {
        ms
    } else {
        let rest = recent_messages(ms.drop_last(), now);
        if nanos_between(now, ms.last().timestamp) < MAX_AGE_CHAT_MESSAGES as int * 1_000_000_000 {
            rest.push(ms.last())
        } else {
            rest
        }
    }
}

/// `after` is `before` with the messages older than `MAX_AGE_CHAT_MESSAGES` at `now`
/// forgotten, when it has players and messages.
pub open spec fn expired(before: Room, after: Room, now: std::time::Instant) -> bool {
    &&& same_room_fields(before, after)
    &&& after.player_ids == before.player_ids
    &&& after.latest_seq_num == before.latest_seq_num
    &&& if before.player_ids@.len() > 0 && before.messages@.len() > 0 {
        after.messages@ == recent_messages(before.messages@, now)
    } else {
        after.messages == before.messages
    }
}

/// `after` is `before` with the `n` oldest received packets taken out (their attempt records
/// stay).
pub open spec fn rx_taken(before: NetworkManager, after: NetworkManager, n: nat) -> bool {
    &&& after.rx_packets.queue@ == before.rx_packets.queue@.skip(n as int)
    &&& after.rx_packets.attempts == before.rx_packets.attempts
    &&& after.rx_packets.buffer_wrap_index == before.rx_packets.buffer_wrap_index
    &&& after.tx_packets == before.tx_packets
    &&& after.rx_chat_messages == before.rx_chat_messages
    &&& after.statistics == before.statistics
}

/// The actions of the requests `ps`.
pub open spec fn actions_of(ps: Seq<Packet>) -> Seq<RequestAction> {
    ps.map_values(|p: Packet| p->Request_action)
}


/// The number of packets at the front of `q` acknowledged by `ack` (see `acked_count`).
fn acked_prefix(q: &std::collections::VecDeque<Packet>, ack: u64) -> (n: usize)
    requires
        all_sequenced(q@),
    ensures
        n == acked_count(q@, ack),
        n <= q@.len(),
{
    let mut n: usize = 0;
    proof {
        assert(q@.skip(0) =~= q@);
    }
    while n < q.len()
        invariant
            all_sequenced(q@),
            n <= q@.len(),
            acked_count(q@, ack) == n + acked_count(q@.skip(n as int), ack),
        ensures
            n <= q@.len(),
            acked_count(q@, ack) == n,
        decreases q@.len() - n,
    {
        proof {
            assert(q@[n as int].has_sequence());
        }
        let s = q[n].sequence_number();
        let ghost rest = q@.skip(n as int);
        proof {
            assert(rest[0] == q@[n as int]);
            assert(rest.skip(1) =~= q@.skip(n + 1));
        }
        if ack > 0 && s <= ack - 1 {
            n = n + 1;
        } else {
            break;
        }
    }
    proof {
        if n == q@.len() {
            assert(q@.skip(n as int).len() == 0);
        }
    }
    n
}

/// Whether buffering an item numbered `sequence` would fail in a queue holding the items of `q`
/// after the first `skip`, with wrap index `wrap` (see `buffer_item_aborts`).
fn skipped_would_abort(q: &std::collections::VecDeque<Packet>, skip: usize, wrap: Option<usize>, sequence: u64) -> (r: bool)
    requires
        skip <= q@.len(),
        all_sequenced(q@),
    ensures
        r == buffer_item_aborts(q@.skip(skip as int), wrap, sequence),
{
    let ghost rest = q@.skip(skip as int);
    let n = q.len() - skip;
    if n == 0 {
        return false;
    }
    proof {
        assert(q@[skip as int].has_sequence());
        assert(q@[q@.len() - 1].has_sequence());
        assert(rest[0] == q@[skip as int]);
        assert(rest[n - 1] == q@[q@.len() - 1]);
    }
    let oldest = q[skip].sequence_number();
    let newest = q[q.len() - 1].sequence_number();
    if !(sequence < oldest) || newest == u64::MAX {
        return false;
    }
    if sequence > newest && wrap.is_some() {
        return false;
    }
    if sequence < newest {
        match wrap {
            Some(k) => k > n,
            None => false,
        }
    } else {
        sequence > newest
    }
}

impl<A> ServerState<A> {
    /// Identifiers and keys are unique, and the players' latency filters are sound.
    pub open spec fn wf(&self) -> bool {
        &&& forall|i: int, j: int| 0 <= i < j < self.players@.len()
            ==> (#[trigger] self.players@[i]).player_id != (#[trigger] self.players@[j]).player_id
        &&& forall|i: int, j: int| 0 <= i < j < self.rooms@.len()
            ==> (#[trigger] self.rooms@[i]).room_id != (#[trigger] self.rooms@[j]).room_id
        &&& forall|i: int, j: int| 0 <= i < j < self.network_map@.len()
            ==> (#[trigger] self.network_map@[i]).0 != (#[trigger] self.network_map@[j]).0
        &&& distinct_text_keys(self.player_map@)
        &&& distinct_text_keys(self.room_map@)
        &&& forall|i: int| 0 <= i < self.players@.len() ==> (#[trigger] self.players@[i]).latency_filter.wf()
        &&& forall|k: int| 0 <= k < self.network_map@.len() ==> {
            &&& all_sequenced((#[trigger] self.network_map@[k]).1.tx_packets.queue@)
            &&& all_sequenced(self.network_map@[k].1.rx_packets.queue@)
        }
        &&& forall|i: int| 0 <= i < self.players@.len() ==> self.has_network((#[trigger] self.players@[i]).player_id)
    }

    pub open spec fn has_network(&self, id: PlayerID) -> bool {
        exists|k: int| network_at(self.network_map@, id, k)
    }

    /// The network bookkeeping of player `id` (meaningful when there is one).
    pub open spec fn network(&self, id: PlayerID) -> NetworkManager {
        self.network_map@[choose|k: int| network_at(self.network_map@, id, k)].1
    }

    pub open spec fn has_player(&self, id: PlayerID) -> bool {
        exists|i: int| player_at(self.players@, id, i)
    }

    /// The player `id` (meaningful when there is one).
    pub open spec fn player(&self, id: PlayerID) -> Player<A> {
        self.players@[choose|i: int| player_at(self.players@, id, i)]
    }

    /// The player `id` is known and in a game.
    pub open spec fn in_game(&self, id: PlayerID) -> bool {
        self.has_player(id) && self.player(id).game_info is Some
    }

    pub open spec fn has_room(&self, id: RoomID) -> bool {
        exists|i: int| room_at(self.rooms@, id, i)
    }

    /// The room `id` (meaningful when there is one).
    pub open spec fn room(&self, id: RoomID) -> Room {
        self.rooms@[choose|i: int| room_at(self.rooms@, id, i)]
    }

    /// The room of player `id`, when it is in a game whose room exists.
    pub open spec fn room_of(&self, id: PlayerID) -> Option<Room> {
        match self.player(id).game_info {
            Some(g) => if self.has_room(g.room_id) { Some(self.room(g.room_id)) } else { None },
            None => None,
        }
    }

    fn player_index(&self, id: PlayerID) -> (r: Option<usize>)
        requires
            self.wf(),
        ensures
            match r {
                Some(i) => player_at(self.players@, id, i as int) && self.has_player(id)
                    && self.player(id) == self.players@[i as int],
                None => !self.has_player(id),
            },
    {
        let mut i: usize = 0;
        while i < self.players.len()
            invariant
                self.wf(),
                i <= self.players@.len(),
                forall|j: int| 0 <= j < i ==> self.players@[j].player_id != id,
            decreases self.players@.len() - i,
        {
            if self.players[i].player_id == id {
                proof {
                    assert(player_at(self.players@, id, i as int));
                    let c = choose|j: int| player_at(self.players@, id, j);
                    if c != i {
                        if c < i { assert(self.players@[c].player_id != self.players@[i as int].player_id); }
                        else { assert(self.players@[i as int].player_id != self.players@[c].player_id); }
                    }
                }
                return Some(i);
            }
            i = i + 1;
        }
        None
    }

    fn room_index(&self, id: RoomID) -> (r: Option<usize>)
        requires
            self.wf(),
        ensures
            match r {
                Some(i) => room_at(self.rooms@, id, i as int) && self.has_room(id)
                    && self.room(id) == self.rooms@[i as int],
                None => !self.has_room(id),
            },
    {
        let mut i: usize = 0;
        while i < self.rooms.len()
            invariant
                self.wf(),
                i <= self.rooms@.len(),
                forall|j: int| 0 <= j < i ==> self.rooms@[j].room_id != id,
            decreases self.rooms@.len() - i,
        {
            if self.rooms[i].room_id == id {
                proof {
                    assert(room_at(self.rooms@, id, i as int));
                    let c = choose|j: int| room_at(self.rooms@, id, j);
                    if c != i {
                        if c < i { assert(self.rooms@[c].room_id != self.rooms@[i as int].room_id); }
                        else { assert(self.rooms@[i as int].room_id != self.rooms@[c].room_id); }
                    }
                }
                return Some(i);
            }
            i = i + 1;
        }
        None
    }

    /// The player `player_id`.
    pub fn get_player(&self, player_id: PlayerID) -> (p: &Player<A>)
        requires
            self.wf(),
            self.has_player(player_id),
        ensures
            *p == self.player(player_id),
    {
        let i = self.player_index(player_id).unwrap();
        &self.players[i]
    }

    /// The player `player_id`, to change; the other players and the rest of the state stay.
    pub fn get_player_mut(&mut self, player_id: PlayerID) -> (p: &mut Player<A>)
        requires
            old(self).wf(),
            old(self).has_player(player_id),
        ensures
            *p == old(self).player(player_id),
            exists|i: int| player_at(old(self).players@, player_id, i)
                && final(self).players@ == old(self).players@.update(i, *final(p)),
            final(self).tick == old(self).tick,
            final(self).player_map == old(self).player_map,
            final(self).rooms == old(self).rooms,
            final(self).room_map == old(self).room_map,
            final(self).network_map == old(self).network_map,
    {
        let i = self.player_index(player_id).unwrap();
        &mut self.players[i]
    }

    /// The room the player `player_id` is in, if any.
    pub fn get_room_id(&self, player_id: PlayerID) -> (r: Option<RoomID>)
        requires
            self.wf(),
            self.has_player(player_id),
        ensures
            r == match self.player(player_id).game_info {
                Some(g) => Some(g.room_id),
                None => None,
            },
    {
        let player = self.get_player(player_id);
        match player.game_info {
            Some(g) => Some(g.room_id),
            None => None,
        }
    }

    /// The room of the player `player_id`, when it is in a game whose room exists.
    pub fn get_room(&self, player_id: PlayerID) -> (r: Option<&Room>)
        requires
            self.wf(),
            self.has_player(player_id),
        ensures
            match self.room_of(player_id) {
                Some(room) => r == Some(&room),
                None => r is None,
            },
    {
        match self.get_room_id(player_id) {
            None => None,
            Some(rid) => match self.room_index(rid) {
                Some(i) => Some(&self.rooms[i]),
                None => None,
            },
        }
    }

    /// The room of the player `player_id`, to change, when it is in a game whose room exists.
    pub fn get_room_mut(&mut self, player_id: PlayerID) -> (r: Option<&mut Room>)
        requires
            old(self).wf(),
            old(self).has_player(player_id),
        ensures
            match old(self).room_of(player_id) {
                Some(room) => r matches Some(rr) && *rr == room && exists|i: int|
                    room_at(old(self).rooms@, room.room_id, i) && final(self).rooms@ == old(self).rooms@.update(i, *final(rr)),
                None => r is None && final(self).rooms == old(self).rooms,
            },
            final(self).tick == old(self).tick,
            final(self).players == old(self).players,
            final(self).player_map == old(self).player_map,
            final(self).room_map == old(self).room_map,
            final(self).network_map == old(self).network_map,
    {
        match self.get_room_id(player_id) {
            None => None,
            Some(rid) => match self.room_index(rid) {
                Some(i) => {
                    proof {
                        assert(old(self).room_of(player_id) == Some(self.rooms@[i as int]));
                        assert(room_at(old(self).rooms@, rid, i as int));
                    }
                    Some(&mut self.rooms[i])
                },
                None => None,
            },
        }
    }

    /// Whether the player `player_id` is known and in a game.
    pub fn is_player_in_game(&self, player_id: PlayerID) -> (r: bool)
        requires
            self.wf(),
        ensures
            r == self.in_game(player_id),
    {
        match self.player_index(player_id) {
            Some(i) => self.players[i].game_info.is_some(),
            None => false,
        }
    }

    /// Whether no player is named `name`.
    pub fn is_unique_player_name(&self, name: &str) -> (r: bool)
        ensures
            r == forall|i: int| 0 <= i < self.players@.len() ==> (#[trigger] self.players@[i]).name@ != name@,
    {
        let target: String = name.to_owned();
        let mut i: usize = 0;
        while i < self.players.len()
            invariant
                target@ == name@,
                i <= self.players@.len(),
                forall|j: int| 0 <= j < i ==> (#[trigger] self.players@[j]).name@ != name@,
            decreases self.players@.len() - i,
        {
            if self.players[i].name == target {
                proof {
                    assert(self.players@[i as int].name@ == name@);
                }
                return false;
            }
            i = i + 1;
        }
        true
    }

    /// The player whose login cookie is `cookie`, if any.
    pub fn get_player_id_by_cookie(&self, cookie: &str) -> (r: Option<PlayerID>)
        requires
            self.wf(),
        ensures
            r == text_lookup(self.player_map@, cookie@),
    {
        let target: String = cookie.to_owned();
        let mut i: usize = 0;
        while i < self.player_map.len()
            invariant
                target@ == cookie@,
                self.wf(),
                i <= self.player_map@.len(),
                forall|j: int| 0 <= j < i ==> (#[trigger] self.player_map@[j]).0@ != cookie@,
            decreases self.player_map@.len() - i,
        {
            if self.player_map[i].0 == target {
                proof {
                    let m = self.player_map@;
                    assert(m[i as int].0@ == cookie@);
                    let c = choose|j: int| 0 <= j < m.len() && (#[trigger] m[j]).0@ == cookie@;
                    if c != i {
                        if c < i { assert(m[c].0@ != m[i as int].0@); } else { assert(m[i as int].0@ != m[c].0@); }
                    }
                }
                return Some(self.player_map[i].1);
            }
            i = i + 1;
        }
        None
    }
    /// What a chat message `msg` of player `id` does: `new` and `r` from `self`.
    pub open spec fn chat_outcome(self, new: Self, id: PlayerID, msg: Seq<char>, r: ResponseCode) -> bool {
        if !self.in_game(id) {
            new == self && bad_request(r, "Player ("@ + decimal(id.0 as nat) + ") has not joined a game."@)
        } else if self.room_of(id) is None {
            new == self && bad_request(r, "Player \"("@ + decimal(id.0 as nat) + ")\" should be in a room! None found."@)
        } else {
            let rid = self.player(id).game_info->0.room_id;
            &&& r is OK
            &&& exists|i: int| room_at(self.rooms@, rid, i) && rooms_but(self.rooms@, new.rooms@, i)
                && chat_added(self.rooms@[i], new.rooms@[i], id, self.player(id).name@, msg)
            &&& new.tick == self.tick
            &&& new.players == self.players
            &&& new.player_map == self.player_map
            &&& new.room_map == self.room_map
            &&& new.network_map == self.network_map
        }
    }

    /// The players of the room of player `player_id`: their names, in order; refused in the
    /// lobby.
    pub fn list_players(&self, player_id: PlayerID) -> (r: ResponseCode)
        requires
            self.wf(),
            self.has_player(player_id),
        ensures
            self.players_listed(player_id, r),
    {
        let room = match self.get_room(player_id) {
            None => {
                return ResponseCode::BadRequest { error_msg: String::from_str("cannot list players because in lobby.") };
            },
            Some(room) => room,
        };
        let mut players: Vec<String> = Vec::new();
        let mut i: usize = 0;
        while i < self.players.len()
            invariant
                i <= self.players@.len(),
                text_views(players@) == names_among(self.players@.take(i as int), room.player_ids@),
            decreases self.players@.len() - i,
        {
            proof {
                assert(self.players@.take(i + 1).drop_last() =~= self.players@.take(i as int));
            }
            if contains_id(&room.player_ids, self.players[i].player_id) {
                let ghost before = players@;
                players.push(self.players[i].name.clone());
                proof {
                    assert(text_views(players@) =~= text_views(before).push(self.players@[i as int].name@));
                }
            }
            i = i + 1;
        }
        proof {
            assert(self.players@.take(self.players@.len() as int) =~= self.players@);
        }
        ResponseCode::PlayerList { players }
    }

    /// Posts chat message `msg` of player `player_id` to its room (see `chat_outcome`).
    pub fn handle_chat_message(&mut self, player_id: PlayerID, msg: String) -> (r: ResponseCode)
        requires
            old(self).wf(),
            old(self).in_game(player_id) && old(self).room_of(player_id) is Some
                ==> old(self).room_of(player_id)->0.latest_seq_num < u64::MAX,
        ensures
            final(self).wf(),
            old(self).chat_outcome(*final(self), player_id, msg@, r),
    {
        let pi = match self.player_index(player_id) {
            Some(pi) => pi,
            None => {
                let t = String::from_str("Player (").concat(decimal_string(player_id.0).as_str());
                let t = t.concat(") has not joined a game.");
                proof { assert(t@ =~= "Player ("@ + decimal(player_id.0 as nat) + ") has not joined a game."@); }
                return ResponseCode::BadRequest { error_msg: t };
            },
        };
        let g = match self.players[pi].game_info {
            Some(g) => g,
            None => {
                let t = String::from_str("Player (").concat(decimal_string(player_id.0).as_str());
                let t = t.concat(") has not joined a game.");
                proof { assert(t@ =~= "Player ("@ + decimal(player_id.0 as nat) + ") has not joined a game."@); }
                return ResponseCode::BadRequest { error_msg: t };
            },
        };
        let player_name = self.players[pi].name.clone();
        let ri = match self.room_index(g.room_id) {
            Some(ri) => ri,
            None => {
                let t = String::from_str("Player \"(").concat(decimal_string(player_id.0).as_str());
                let t = t.concat(")\" should be in a room! None found.");
                proof { assert(t@ =~= "Player \"("@ + decimal(player_id.0 as nat) + ")\" should be in a room! None found."@); }
                return ResponseCode::BadRequest { error_msg: t };
            },
        };
        let ghost rs0 = self.rooms@;
        self.rooms[ri].post(player_id, player_name, msg);
        proof {
            assert(rooms_but(rs0, self.rooms@, ri as int));
            assert forall|a: int, b: int| 0 <= a < b < self.rooms@.len()
                implies (#[trigger] self.rooms@[a]).room_id != (#[trigger] self.rooms@[b]).room_id by {
                assert(rs0[a].room_id != rs0[b].room_id);
            }
        }
        ResponseCode::OK
    }

    /// The status of every room, in order (see `reports_room`).
    pub fn list_rooms(&self) -> (r: ResponseCode)
        ensures
            self.rooms_listed(r),
    {
        let mut rooms: Vec<RoomList> = Vec::new();
        let mut i: usize = 0;
        while i < self.rooms.len()
            invariant
                i <= self.rooms@.len(),
                rooms@.len() == i,
                forall|j: int| 0 <= j < i ==> reports_room(self.rooms@[j], #[trigger] rooms@[j]),
            decreases self.rooms@.len() - i,
        {
            let gs = &self.rooms[i];
            rooms.push(RoomList {
                room_name: gs.name.clone(),
                player_count: gs.player_ids.len() as u8,
                in_progress: gs.game_running,
            });
            i = i + 1;
        }
        ResponseCode::RoomList { rooms }
    }
    /// `new` is `self` with a room named `name` added under the fresh identifier `id`.
    pub open spec fn room_added(self, new: Self, name: Seq<char>, id: RoomID) -> bool {
        &&& exists|room: Room| {
            &&& room.room_id == id
            &&& room.name@ == name
            &&& room.player_ids@.len() == 0
            &&& !room.game_running
            &&& room.universe == 0
            &&& room.latest_seq_num == 0
            &&& room.messages@.len() == 0
            &&& #[trigger] room_set(self.rooms@, new.rooms@, room)
        }
        &&& text_key_set(self.room_map@, new.room_map@, name, id)
        &&& new.tick == self.tick
        &&& new.players == self.players
        &&& new.player_map == self.player_map
        &&& new.network_map == self.network_map
    }

    /// Creates a room named `name` under a fresh identifier, which is returned. A room of the
    /// same name or identifier is not looked for: the name, or the identifier, is taken over.
    pub fn new_room(&mut self, name: String) -> (id: RoomID)
        requires
            old(self).wf(),
        ensures
            final(self).wf(),
            old(self).room_added(*final(self), name@, id),
    {
        let room = Room::new(name.clone(), Vec::new());
        let id = room.room_id;
        let ghost r0 = room;
        // the name now refers to the new room
        let mut k: usize = 0;
        let mut found: bool = false;
        while k < self.room_map.len()
            invariant
                self.wf(),
                *self == *old(self),
                k <= self.room_map@.len(),
                forall|j: int| 0 <= j < k ==> (#[trigger] self.room_map@[j]).0@ != name@,
            ensures
                self.wf(),
                *self == *old(self),
                k <= self.room_map@.len(),
                forall|j: int| 0 <= j < k ==> (#[trigger] self.room_map@[j]).0@ != name@,
                k < self.room_map@.len() ==> self.room_map@[k as int].0@ == name@,
            decreases self.room_map@.len() - k,
        {
            if self.room_map[k].0 == name {
                break;
            }
            k = k + 1;
        }
        let ghost m0 = self.room_map@;
        if k < self.room_map.len() {
            self.room_map[k].1 = id;
            proof {
                assert(self.room_map@ == m0.update(k as int, (m0[k as int].0, id)));
                assert forall|a: int, b: int| 0 <= a < b < self.room_map@.len()
                    implies (#[trigger] self.room_map@[a]).0@ != (#[trigger] self.room_map@[b]).0@ by {
                    assert(m0[a].0@ != m0[b].0@);
                }
            }
        } else {
            self.room_map.push((name, id));
            proof {
                assert(self.room_map@.drop_last() =~= m0);
                assert forall|a: int, b: int| 0 <= a < b < self.room_map@.len()
                    implies (#[trigger] self.room_map@[a]).0@ != (#[trigger] self.room_map@[b]).0@ by {
                    if b < m0.len() { assert(m0[a].0@ != m0[b].0@); }
                }
            }
        }
        // the identifier now refers to the new room
        let ghost rs0 = self.rooms@;
        match self.room_index(id) {
            Some(i) => {
                self.rooms[i] = room;
                proof {
                    assert(self.rooms@ == rs0.update(i as int, r0));
                    assert forall|a: int, b: int| 0 <= a < b < self.rooms@.len()
                        implies (#[trigger] self.rooms@[a]).room_id != (#[trigger] self.rooms@[b]).room_id by {
                        assert(rs0[a].room_id != rs0[b].room_id);
                    }
                    assert(room_set(rs0, self.rooms@, r0));
                }
            },
            None => {
                self.rooms.push(room);
                proof {
                    assert forall|a: int, b: int| 0 <= a < b < self.rooms@.len()
                        implies (#[trigger] self.rooms@[a]).room_id != (#[trigger] self.rooms@[b]).room_id by {
                        if b < rs0.len() { assert(rs0[a].room_id != rs0[b].room_id); }
                        else { assert(!room_at(rs0, id, a)); }
                    }
                    assert(room_set(rs0, self.rooms@, r0));
                }
            },
        }
        id
    }

    /// What creating a room named `name`, asked by `opt_player_id`, does.
    pub open spec fn create_room_outcome(self, new: Self, opt_player_id: Option<PlayerID>, name: Seq<char>, r: ResponseCode) -> bool {
        if (vstd::utf8::encode_utf8(name).len() as usize) > MAX_ROOM_NAME {
            new == self && bad_request(r, "room name too long; max 16 characters"@)
        } else if opt_player_id matches Some(id) && self.in_game(id) {
            new == self && bad_request(r, "cannot create room because in-game"@)
        } else if text_lookup(self.room_map@, name) is Some {
            new == self && bad_request(r, "room name already in use"@)
        } else {
            r is OK && exists|id: RoomID| self.room_added(new, name, id)
        }
    }

    /// Creates a room named `room_name`: refused when the name is longer than `MAX_ROOM_NAME`
    /// bytes, when the asking player is in a game, or when the name is in use.
    pub fn create_new_room(&mut self, opt_player_id: Option<PlayerID>, room_name: String) -> (r: ResponseCode)
        requires
            old(self).wf(),
        ensures
            final(self).wf(),
            old(self).create_room_outcome(*final(self), opt_player_id, room_name@, r),
    {
        if room_name.as_str().len() > MAX_ROOM_NAME {
            return ResponseCode::BadRequest { error_msg: String::from_str("room name too long; max 16 characters") };
        }
        if let Some(player_id) = opt_player_id {
            if self.is_player_in_game(player_id) {
                return ResponseCode::BadRequest { error_msg: String::from_str("cannot create room because in-game") };
            }
        }
        let mut k: usize = 0;
        while k < self.room_map.len()
            invariant
                self.wf(),
                *self == *old(self),
                (vstd::utf8::encode_utf8(room_name@).len() as usize) <= MAX_ROOM_NAME,
                !(opt_player_id matches Some(id) && old(self).in_game(id)),
                k <= self.room_map@.len(),
                forall|j: int| 0 <= j < k ==> (#[trigger] self.room_map@[j]).0@ != room_name@,
            decreases self.room_map@.len() - k,
        {
            if self.room_map[k].0 == room_name {
                proof {
                    assert(self.room_map@[k as int].0@ == room_name@);
                }
                return ResponseCode::BadRequest { error_msg: String::from_str("room name already in use") };
            }
            k = k + 1;
        }
        let id = self.new_room(room_name);
        ResponseCode::OK
    }

    /// What player `id` joining the room named `name` does.
    pub open spec fn join_outcome(self, new: Self, id: PlayerID, name: Seq<char>, r: ResponseCode) -> bool {
        if self.in_game(id) {
            new == self && bad_request(r, "cannot join game because in-game"@)
        } else if !exists|i: int| first_room_named(self.rooms@, name, i) {
            new == self && bad_request(r, "no room named "@ + debug_text(name))
        } else {
            &&& r matches ResponseCode::JoinedRoom { room_name } && room_name@ == name
            &&& exists|i: int, pi: int| {
                &&& #[trigger] first_room_named(self.rooms@, name, i)
                &&& #[trigger] player_at(self.players@, id, pi)
                &&& rooms_but(self.rooms@, new.rooms@, i)
                &&& joined(self.rooms@[i], new.rooms@[i], id)
                &&& players_but(self.players@, new.players@, pi)
                &&& placed(self.players@[pi], new.players@[pi],
                        Some(PlayerInGameInfo { room_id: self.rooms@[i].room_id, chat_msg_seq_num: None }))
            }
            &&& new.tick == self.tick
            &&& new.player_map == self.player_map
            &&& new.room_map == self.room_map
            &&& new.network_map == self.network_map
        }
    }

    /// Player `player_id` joins the first room named `room_name`: refused in a game, or when
    /// there is no such room.
    pub fn join_room(&mut self, player_id: PlayerID, room_name: &str) -> (r: ResponseCode)
        requires
            old(self).wf(),
            old(self).has_player(player_id),
        ensures
            final(self).wf(),
            old(self).join_outcome(*final(self), player_id, room_name@, r),
    {
        if self.is_player_in_game(player_id) {
            return ResponseCode::BadRequest { error_msg: String::from_str("cannot join game because in-game") };
        }
        let pi = self.player_index(player_id).unwrap();
        let target: String = room_name.to_owned();
        let mut i: usize = 0;
        while i < self.rooms.len()
            invariant
                self.wf(),
                *self == *old(self),
                target@ == room_name@,
                player_at(self.players@, player_id, pi as int),
                !old(self).in_game(player_id),
                i <= self.rooms@.len(),
                forall|k: int| 0 <= k < i ==> self.rooms@[k].name@ != room_name@,
            decreases self.rooms@.len() - i,
        {
            if self.rooms[i].name == target {
                let ghost rs0 = self.rooms@;
                let ghost ps0 = self.players@;
                let rid = self.rooms[i].room_id;
                self.rooms[i].player_ids.push(player_id);
                self.players[pi].game_info = Some(PlayerInGameInfo { room_id: rid, chat_msg_seq_num: None });
                proof {
                    assert(first_room_named(rs0, room_name@, i as int));
                    assert(rooms_but(rs0, self.rooms@, i as int));
                    assert(players_but(ps0, self.players@, pi as int));
                    assert forall|a: int, b: int| 0 <= a < b < self.rooms@.len()
                        implies (#[trigger] self.rooms@[a]).room_id != (#[trigger] self.rooms@[b]).room_id by {
                        assert(rs0[a].room_id != rs0[b].room_id);
                    }
                    assert forall|a: int, b: int| 0 <= a < b < self.players@.len()
                        implies (#[trigger] self.players@[a]).player_id != (#[trigger] self.players@[b]).player_id by {
                        assert(ps0[a].player_id != ps0[b].player_id);
                    }
                    assert forall|a: int| 0 <= a < self.players@.len()
                        implies (#[trigger] self.players@[a]).latency_filter.wf() by {
                        assert(ps0[a].latency_filter.wf());
                    }
                    assert(player_at(ps0, player_id, pi as int));
                    assert(joined(rs0[i as int], self.rooms@[i as int], player_id));
                    assert(placed(ps0[pi as int], self.players@[pi as int],
                        Some(PlayerInGameInfo { room_id: rs0[i as int].room_id, chat_msg_seq_num: None })));
                }
                return ResponseCode::JoinedRoom { room_name: target };
            }
            i = i + 1;
        }
        let t = String::from_str("no room named ").concat(debug_quoted(room_name).as_str());
        ResponseCode::BadRequest { error_msg: t }
    }
    /// `r` lists the players of the room of player `id`, or refuses in the lobby.
    pub open spec fn players_listed(self, id: PlayerID, r: ResponseCode) -> bool {
        match self.room_of(id) {
            None => bad_request(r, "cannot list players because in lobby."@),
            Some(room) => r matches ResponseCode::PlayerList { players }
                && text_views(players@) == names_among(self.players@, room.player_ids@),
        }
    }

    /// `r` reports every room, in order (see `reports_room`).
    pub open spec fn rooms_listed(self, r: ResponseCode) -> bool {
        r matches ResponseCode::RoomList { rooms } && rooms@.len() == self.rooms@.len()
            && forall|i: int| 0 <= i < self.rooms@.len() ==> reports_room(self.rooms@[i], #[trigger] rooms@[i])
    }

    /// What player `id` leaving its game does.
    pub open spec fn leave_outcome(self, new: Self, id: PlayerID, r: ResponseCode) -> bool {
        if !self.in_game(id) {
            new == self && bad_request(r, "cannot leave game because in lobby"@)
        } else {
            let rid = self.player(id).game_info->0.room_id;
            &&& r is LeaveRoom
            &&& exists|pi: int| #[trigger] player_at(self.players@, id, pi) && players_but(self.players@, new.players@, pi)
                && placed(self.players@[pi], new.players@[pi], None)
            &&& if self.has_room(rid) {
                exists|i: int| #[trigger] room_at(self.rooms@, rid, i) && rooms_but(self.rooms@, new.rooms@, i)
                    && left(self.rooms@[i], new.rooms@[i], id)
            } else {
                new.rooms == self.rooms
            }
            &&& new.tick == self.tick
            &&& new.player_map == self.player_map
            &&& new.room_map == self.room_map
            &&& new.network_map == self.network_map
        }
    }

    /// Player `player_id` leaves its game for the lobby; refused in the lobby.
    pub fn leave_room(&mut self, player_id: PlayerID) -> (r: ResponseCode)
        requires
            old(self).wf(),
        ensures
            final(self).wf(),
            old(self).leave_outcome(*final(self), player_id, r),
    {
        if !self.is_player_in_game(player_id) {
            return ResponseCode::BadRequest { error_msg: String::from_str("cannot leave game because in lobby") };
        }
        let pi = self.player_index(player_id).unwrap();
        let rid = self.players[pi].game_info.unwrap().room_id;
        let ghost rs0 = self.rooms@;
        let ghost ps0 = self.players@;
        match self.room_index(rid) {
            Some(i) => {
                remove_ids(&mut self.rooms[i].player_ids, player_id);
                proof {
                    assert(rooms_but(rs0, self.rooms@, i as int));
                    assert(left(rs0[i as int], self.rooms@[i as int], player_id));
                    assert forall|a: int, b: int| 0 <= a < b < self.rooms@.len()
                        implies (#[trigger] self.rooms@[a]).room_id != (#[trigger] self.rooms@[b]).room_id by {
                        assert(rs0[a].room_id != rs0[b].room_id);
                    }
                }
            },
            None => {},
        }
        self.players[pi].game_info = None;
        proof {
            assert(players_but(ps0, self.players@, pi as int));
            assert(placed(ps0[pi as int], self.players@[pi as int], None));
            assert forall|a: int, b: int| 0 <= a < b < self.players@.len()
                implies (#[trigger] self.players@[a]).player_id != (#[trigger] self.players@[b]).player_id by {
                assert(ps0[a].player_id != ps0[b].player_id);
            }
            assert forall|a: int| 0 <= a < self.players@.len()
                implies (#[trigger] self.players@[a]).latency_filter.wf() by {
                assert(ps0[a].latency_filter.wf());
            }
        }
        ResponseCode::LeaveRoom
    }

    /// The room of player `id`, in a game, can take one more chat message.
    pub open spec fn can_announce(self, id: PlayerID) -> bool {
        self.in_game(id) ==> (self.room_of(id) matches Some(room) && room.latest_seq_num < u64::MAX)
    }

    /// What removing player `id`, logged in with `cookie`, does: in a game, its room is told
    /// that it left and loses it; the cookie and the player are forgotten.
    pub open spec fn remove_outcome(self, new: Self, id: PlayerID, cookie: Seq<char>) -> bool {
        &&& if self.in_game(id) {
            let rid = self.player(id).game_info->0.room_id;
            exists|i: int| #[trigger] room_at(self.rooms@, rid, i) && rooms_but(self.rooms@, new.rooms@, i)
                && chat_messages_added(self.rooms@[i], new.rooms@[i], PlayerID(SERVER_PLAYER_ID), "Server"@,
                    "Player "@ + self.player(id).name@ + " has left."@)
                && same_room_fields(self.rooms@[i], new.rooms@[i])
                && new.rooms@[i].player_ids@ == ids_without(self.rooms@[i].player_ids@, id)
        } else {
            new.rooms == self.rooms
        }
        &&& text_key_removed(self.player_map@, new.player_map@, cookie)
        &&& player_removed(self.players@, new.players@, id)
        &&& new.tick == self.tick
        &&& new.room_map == self.room_map
        &&& new.network_map == self.network_map
    }

    /// Removes player `player_id`, logged in with `player_cookie` (see `remove_outcome`).
    pub fn remove_player(&mut self, player_id: PlayerID, player_cookie: &str)
        requires
            old(self).wf(),
            old(self).can_announce(player_id),
        ensures
            final(self).wf(),
            old(self).remove_outcome(*final(self), player_id, player_cookie@),
    {
        let ghost s0 = *self;
        if self.is_player_in_game(player_id) {
            let pi = self.player_index(player_id).unwrap();
            let msg = String::from_str("Player ").concat(self.players[pi].name.as_str());
            let msg = msg.concat(" has left.");
            let rid = self.players[pi].game_info.unwrap().room_id;
            let i = self.room_index(rid).unwrap();
            let ghost rs0 = self.rooms@;
            self.rooms[i].broadcast(msg);
            remove_ids(&mut self.rooms[i].player_ids, player_id);
            proof {
                assert(rooms_but(rs0, self.rooms@, i as int));
                assert forall|a: int, b: int| 0 <= a < b < self.rooms@.len()
                    implies (#[trigger] self.rooms@[a]).room_id != (#[trigger] self.rooms@[b]).room_id by {
                    assert(rs0[a].room_id != rs0[b].room_id);
                }
                assert(room_at(s0.rooms@, rid, i as int) && rooms_but(s0.rooms@, self.rooms@, i as int)
                    && chat_messages_added(s0.rooms@[i as int], self.rooms@[i as int], PlayerID(SERVER_PLAYER_ID), "Server"@,
                        "Player "@ + s0.player(player_id).name@ + " has left."@)
                    && same_room_fields(s0.rooms@[i as int], self.rooms@[i as int])
                    && self.rooms@[i as int].player_ids@ == ids_without(s0.rooms@[i as int].player_ids@, player_id));
            }
        }
        // forget the cookie
        let target: String = player_cookie.to_owned();
        let mut k: usize = 0;
        while k < self.player_map.len()
            invariant
                target@ == player_cookie@,
                k <= self.player_map@.len(),
                forall|j: int| 0 <= j < k ==> (#[trigger] self.player_map@[j]).0@ != player_cookie@,
            ensures
                k <= self.player_map@.len(),
                forall|j: int| 0 <= j < k ==> (#[trigger] self.player_map@[j]).0@ != player_cookie@,
                k < self.player_map@.len() ==> self.player_map@[k as int].0@ == player_cookie@,
            decreases self.player_map@.len() - k,
        {
            if self.player_map[k].0 == target {
                break;
            }
            k = k + 1;
        }
        let ghost m0 = self.player_map@;
        if k < self.player_map.len() {
            let _ = self.player_map.remove(k);
            proof {
                assert forall|a: int, b: int| 0 <= a < b < self.player_map@.len()
                    implies (#[trigger] self.player_map@[a]).0@ != (#[trigger] self.player_map@[b]).0@ by {
                    let a0 = if a < k { a } else { a + 1 };
                    let b0 = if b < k { b } else { b + 1 };
                    assert(m0[a0].0@ != m0[b0].0@);
                }
                assert(self.player_map@ == m0.remove(k as int));
            }
        }
        // forget the player
        let ghost ps0 = self.players@;
        match self.player_index(player_id) {
            Some(pi) => {
                let _ = self.players.remove(pi);
                proof {
                    assert forall|a: int, b: int| 0 <= a < b < self.players@.len()
                        implies (#[trigger] self.players@[a]).player_id != (#[trigger] self.players@[b]).player_id by {
                        let a0 = if a < pi { a } else { a + 1 };
                        let b0 = if b < pi { b } else { b + 1 };
                        assert(ps0[a0].player_id != ps0[b0].player_id);
                    }
                    assert forall|a: int| 0 <= a < self.players@.len()
                        implies (#[trigger] self.players@[a]).latency_filter.wf() by {
                        let a0 = if a < pi { a } else { a + 1 };
                        assert(ps0[a0].latency_filter.wf());
                    }
                    assert(self.players@ == ps0.remove(pi as int));
                }
            },
            None => {},
        }
    }
    /// Player `player_id` disconnects: it is removed (see `remove_outcome`) with its cookie.
    pub fn handle_disconnect(&mut self, player_id: PlayerID) -> (r: ResponseCode)
        requires
            old(self).wf(),
            old(self).has_player(player_id),
            old(self).can_announce(player_id),
        ensures
            final(self).wf(),
            old(self).remove_outcome(*final(self), player_id, old(self).player(player_id).cookie@),
            r is OK,
    {
        let player_cookie = self.get_player(player_id).cookie.clone();
        self.remove_player(player_id, player_cookie.as_str());
        ResponseCode::OK
    }

    /// What player `id` may ask without the server failing: the requests that look the player
    /// up need it to be known, and those that post to its room need room for a message.
    pub open spec fn request_allowed(self, id: PlayerID, action: RequestAction) -> bool {
        match action {
            RequestAction::Disconnect => self.has_player(id) && self.can_announce(id),
            RequestAction::ListPlayers => self.has_player(id),
            RequestAction::ChatMessage { .. } => self.can_announce(id),
            RequestAction::JoinRoom { .. } => self.has_player(id),
            _ => true,
        }
    }

    /// What request `action` of a logged-in player `id` does, and what it is answered.
    pub open spec fn request_outcome(self, new: Self, id: PlayerID, action: RequestAction, r: ResponseCode) -> bool {
        match action {
            RequestAction::Disconnect => self.remove_outcome(new, id, self.player(id).cookie@) && r is OK,
            RequestAction::KeepAlive { .. } => new == self && r is OK,
            RequestAction::ListPlayers => new == self && self.players_listed(id, r),
            RequestAction::ChatMessage { message } => self.chat_outcome(new, id, message@, r),
            RequestAction::ListRooms => new == self && self.rooms_listed(r),
            RequestAction::NewRoom { room_name } => self.create_room_outcome(new, Some(id), room_name@, r),
            RequestAction::JoinRoom { room_name } => self.join_outcome(new, id, room_name@, r),
            RequestAction::LeaveRoom => self.leave_outcome(new, id, r),
            RequestAction::Connect { .. } => new == self && bad_request(r, "Already connected"@),
            RequestAction::NoAction => new == self && bad_request(r, "Invalid request: None"@),
            RequestAction::SetClientOptions { .. } => new == self && bad_request(r, "Invalid request: SetClientOptions"@),
            RequestAction::DropPattern { .. } => new == self && bad_request(r, "Invalid request: DropPattern"@),
            RequestAction::ClearArea { .. } => new == self && bad_request(r, "Invalid request: ClearArea"@),
        }
    }

    /// Carries out request `action` of the logged-in player `player_id` (see
    /// `request_outcome`); connecting again and requests the server does not serve are
    /// refused.
    pub fn process_request_action(&mut self, player_id: PlayerID, action: RequestAction) -> (r: ResponseCode)
        requires
            old(self).wf(),
            old(self).request_allowed(player_id, action),
        ensures
            final(self).wf(),
            old(self).request_outcome(*final(self), player_id, action, r),
    {
        match action {
            RequestAction::Disconnect => self.handle_disconnect(player_id),
            RequestAction::KeepAlive { .. } => ResponseCode::OK,
            RequestAction::ListPlayers => self.list_players(player_id),
            RequestAction::ChatMessage { message } => self.handle_chat_message(player_id, message),
            RequestAction::ListRooms => self.list_rooms(),
            RequestAction::NewRoom { room_name } => self.create_new_room(Some(player_id), room_name),
            RequestAction::JoinRoom { room_name } => self.join_room(player_id, room_name.as_str()),
            RequestAction::LeaveRoom => self.leave_room(player_id),
            RequestAction::Connect { .. } => ResponseCode::BadRequest { error_msg: String::from_str("Already connected") },
            RequestAction::NoAction => ResponseCode::BadRequest { error_msg: String::from_str("Invalid request: None") },
            RequestAction::SetClientOptions { .. } =>
                ResponseCode::BadRequest { error_msg: String::from_str("Invalid request: SetClientOptions") },
            RequestAction::DropPattern { .. } =>
                ResponseCode::BadRequest { error_msg: String::from_str("Invalid request: DropPattern") },
            RequestAction::ClearArea { .. } =>
                ResponseCode::BadRequest { error_msg: String::from_str("Invalid request: ClearArea") },
        }
    }
    fn network_index(&self, id: PlayerID) -> (r: Option<usize>)
        requires
            self.wf(),
        ensures
            match r {
                Some(k) => network_at(self.network_map@, id, k as int) && self.has_network(id)
                    && self.network(id) == self.network_map@[k as int].1,
                None => !self.has_network(id),
            },
    {
        let mut k: usize = 0;
        while k < self.network_map.len()
            invariant
                self.wf(),
                k <= self.network_map@.len(),
                forall|j: int| 0 <= j < k ==> self.network_map@[j].0 != id,
            decreases self.network_map@.len() - k,
        {
            if self.network_map[k].0 == id {
                proof {
                    assert(network_at(self.network_map@, id, k as int));
                    let c = choose|j: int| network_at(self.network_map@, id, j);
                    if c != k {
                        if c < k { assert(self.network_map@[c].0 != self.network_map@[k as int].0); }
                        else { assert(self.network_map@[k as int].0 != self.network_map@[c].0); }
                    }
                }
                return Some(k);
            }
            k = k + 1;
        }
        None
    }

    /// Whether a request numbered `sequence` of player `player_id` was processed already: it
    /// is not after the last one processed.
    pub fn is_previously_processed_packet(&self, player_id: PlayerID, sequence: u64) -> (r: bool)
        requires
            self.wf(),
            self.has_player(player_id),
        ensures
            r == (self.player(player_id).request_ack matches Some(a) && sequence <= a),
    {
        let player = self.get_player(player_id);
        match player.request_ack {
            Some(a) => sequence <= a,
            None => false,
        }
    }

    /// What asking whether request `seq` of player `id` can be processed now does.
    pub open spec fn process_check_outcome(self, new: Self, id: PlayerID, seq: u64, r: bool) -> bool {
        match self.player(id).request_ack {
            Some(a) => new == self && r == (a + 1 == seq),
            None => r && exists|pi: int| #[trigger] player_at(self.players@, id, pi)
                && players_but(self.players@, new.players@, pi)
                && new.players@[pi].request_ack == Some(0u64)
                && new.players@[pi].player_id == self.players@[pi].player_id
                && new.players@[pi].cookie == self.players@[pi].cookie
                && new.players@[pi].addr == self.players@[pi].addr
                && new.players@[pi].name == self.players@[pi].name
                && new.players@[pi].next_resp_seq == self.players@[pi].next_resp_seq
                && new.players@[pi].game_info == self.players@[pi].game_info
                && new.players@[pi].last_received == self.players@[pi].last_received
                && new.players@[pi].latency_filter == self.players@[pi].latency_filter
                && new.tick == self.tick && new.player_map == self.player_map && new.rooms == self.rooms
                && new.room_map == self.room_map && new.network_map == self.network_map,
        }
    }

    /// Whether request `sequence_number` of player `player_id` is the next one expected; the
    /// first request of a player is taken as number one, after a virtual zero.
    pub fn can_process_packet(&mut self, player_id: PlayerID, sequence_number: u64) -> (r: bool)
        requires
            old(self).wf(),
            old(self).has_player(player_id),
            old(self).player(player_id).request_ack matches Some(a) ==> a < u64::MAX,
        ensures
            final(self).wf(),
            old(self).process_check_outcome(*final(self), player_id, sequence_number, r),
    {
        let pi = self.player_index(player_id).unwrap();
        match self.players[pi].request_ack {
            Some(ack) => ack + 1 == sequence_number,
            None => {
                let ghost ps0 = self.players@;
                self.players[pi].request_ack = Some(0);
                proof {
                    assert(players_but(ps0, self.players@, pi as int));
                    assert forall|a: int, b: int| 0 <= a < b < self.players@.len()
                        implies (#[trigger] self.players@[a]).player_id != (#[trigger] self.players@[b]).player_id by {
                        assert(ps0[a].player_id != ps0[b].player_id);
                    }
                    assert forall|a: int| 0 <= a < self.players@.len()
                        implies (#[trigger] self.players@[a]).latency_filter.wf() by {
                        assert(ps0[a].latency_filter.wf());
                    }
                    assert(self.network_map == old(self).network_map);
                    assert forall|a: int| 0 <= a < self.players@.len()
                        implies self.has_network((#[trigger] self.players@[a]).player_id) by {
                        assert(old(self).has_network(old(self).players@[a].player_id));
                        assert(self.players@[a].player_id == old(self).players@[a].player_id);
                        let c = choose|j: int| network_at(old(self).network_map@, old(self).players@[a].player_id, j);
                        assert(network_at(self.network_map@, self.players@[a].player_id, c));
                    }
                    assert(player_at(ps0, player_id, pi as int));
                }
                true
            },
        }
    }

    /// What buffering the request `packet` of player `id` for later does.
    pub open spec fn queue_outcome(self, new: Self, id: PlayerID, packet: Packet, r: bool) -> bool {
        &&& exists|k: int| #[trigger] network_at(self.network_map@, id, k) && networks_but(self.network_map@, new.network_map@, k)
            && new.network_map@[k].0 == id
            && buffered(self.network_map@[k].1.rx_packets, new.network_map@[k].1.rx_packets, packet, r)
            && new.network_map@[k].1.tx_packets == self.network_map@[k].1.tx_packets
            && new.network_map@[k].1.rx_chat_messages == self.network_map@[k].1.rx_chat_messages
            && new.network_map@[k].1.statistics == self.network_map@[k].1.statistics
        &&& new.tick == self.tick
        &&& new.players == self.players
        &&& new.player_map == self.player_map
        &&& new.rooms == self.rooms
        &&& new.room_map == self.room_map
    }

    /// Buffers request `packet` of player `player_id` in order for later processing; returns
    /// whether one with its sequence number was buffered already.
    pub fn add_packet_to_queue(&mut self, player_id: PlayerID, packet: Packet) -> (r: bool)
        requires
            old(self).wf(),
            old(self).has_network(player_id),
            crate::net::packet_is_sequenced(packet),
            can_buffer(old(self).network(player_id).rx_packets, crate::net::packet_seq(packet)),
        ensures
            final(self).wf(),
            old(self).queue_outcome(*final(self), player_id, packet, r),
    {
        let k = self.network_index(player_id).unwrap();
        let ghost m0 = self.network_map@;
        let already_exists = self.network_map[k].1.rx_packets.buffer_item(packet);
        proof {
            assert(networks_but(m0, self.network_map@, k as int));
            assert(buffered(m0[k as int].1.rx_packets, self.network_map@[k as int].1.rx_packets, packet, already_exists));
            assert forall|a: int, b: int| 0 <= a < b < self.network_map@.len()
                implies (#[trigger] self.network_map@[a]).0 != (#[trigger] self.network_map@[b]).0 by {
                assert(m0[a].0 != m0[b].0);
            }
            assert forall|j: int| 0 <= j < self.network_map@.len() implies {
                &&& all_sequenced((#[trigger] self.network_map@[j]).1.tx_packets.queue@)
                &&& all_sequenced(self.network_map@[j].1.rx_packets.queue@)
            } by {
                if j != k { assert(self.network_map@[j] == m0[j]); }
            }
            assert forall|a: int| 0 <= a < self.players@.len()
                implies self.has_network((#[trigger] self.players@[a]).player_id) by {
                let c = choose|j: int| network_at(m0, self.players@[a].player_id, j);
                assert(network_at(self.network_map@, self.players@[a].player_id, c));
            }
            assert(network_at(m0, player_id, k as int));
        }
        already_exists
    }

    /// What a client of player `id` acknowledging responses up to `response_ack` does.
    pub open spec fn ack_outcome(self, new: Self, id: PlayerID, response_ack: Option<u64>) -> bool {
        match response_ack {
            Some(ack) => if self.has_network(id) {
                &&& exists|k: int| #[trigger] network_at(self.network_map@, id, k) && networks_but(self.network_map@, new.network_map@, k)
                    && new.network_map@[k].0 == id
                    && tx_dropped(self.network_map@[k].1, new.network_map@[k].1,
                        acked_count(self.network_map@[k].1.tx_packets.queue@, ack))
                &&& new.tick == self.tick
                &&& new.players == self.players
                &&& new.player_map == self.player_map
                &&& new.rooms == self.rooms
                &&& new.room_map == self.room_map
            } else {
                new == self
            },
            None => new == self,
        }
    }

    /// Drops the responses to player `player_id` that its client acknowledged (see
    /// `acked_count`).
    pub fn clear_transmission_queue_on_ack(&mut self, player_id: PlayerID, response_ack: Option<u64>)
        requires
            old(self).wf(),
        ensures
            final(self).wf(),
            old(self).ack_outcome(*final(self), player_id, response_ack),
    {
        if let Some(ack) = response_ack {
            if let Some(k) = self.network_index(player_id) {
                let ghost m0 = self.network_map@;
                let ghost q = m0[k as int].1.tx_packets.queue@;
                let mut removal_count: usize = 0;
                proof {
                    assert(q.skip(0) =~= q);
                }
                while removal_count < self.network_map[k].1.tx_packets.queue.len()
                    invariant
                        self.wf(),
                        k < self.network_map@.len(),
                        self.network_map@ == m0,
                        q == m0[k as int].1.tx_packets.queue@,
                        removal_count <= q.len(),
                        acked_count(q, ack) == removal_count + acked_count(q.skip(removal_count as int), ack),
                    ensures
                        removal_count <= q.len(),
                        acked_count(q, ack) == removal_count,
                    decreases q.len() - removal_count,
                {
                    proof {
                        assert(all_sequenced(m0[k as int].1.tx_packets.queue@));
                        assert(q[removal_count as int].has_sequence());
                    }
                    let s = self.network_map[k].1.tx_packets.queue[removal_count].sequence_number();
                    let ghost rest = q.skip(removal_count as int);
                    proof {
                        assert(rest[0] == q[removal_count as int]);
                        assert(rest.skip(1) =~= q.skip(removal_count + 1));
                    }
                    if ack > 0 && s <= ack - 1 {
                        removal_count = removal_count + 1;
                    } else {
                        break;
                    }
                }
                proof {
                    if removal_count == q.len() {
                        assert(q.skip(removal_count as int).len() == 0);
                    }
                }
                if removal_count != 0 {
                    self.network_map[k].1.tx_pop_front_with_count(removal_count);
                }
                proof {
                    assert(networks_but(m0, self.network_map@, k as int));
                    assert(network_at(m0, player_id, k as int));
                    assert(tx_dropped(m0[k as int].1, self.network_map@[k as int].1, acked_count(q, ack))) by {
                        if removal_count == 0 {
                            assert(q.skip(0) =~= q);
                            assert(m0[k as int].1.tx_packets.attempts@.skip(0) =~= m0[k as int].1.tx_packets.attempts@);
                        }
                    }
                    assert forall|a: int, b: int| 0 <= a < b < self.network_map@.len()
                        implies (#[trigger] self.network_map@[a]).0 != (#[trigger] self.network_map@[b]).0 by {
                        assert(m0[a].0 != m0[b].0);
                    }
                    assert forall|j: int| 0 <= j < self.network_map@.len() implies {
                        &&& all_sequenced((#[trigger] self.network_map@[j]).1.tx_packets.queue@)
                        &&& all_sequenced(self.network_map@[j].1.rx_packets.queue@)
                    } by {
                        if j != k {
                            assert(self.network_map@[j] == m0[j]);
                        } else {
                            assert forall|x: int| 0 <= x < self.network_map@[j].1.tx_packets.queue@.len()
                                implies #[trigger] self.network_map@[j].1.tx_packets.queue@[x].has_sequence() by {
                                assert(self.network_map@[j].1.tx_packets.queue@[x] == q[x + removal_count]);
                            }
                        }
                    }
                    assert forall|a: int| 0 <= a < self.players@.len()
                        implies self.has_network((#[trigger] self.players@[a]).player_id) by {
                        let c = choose|j: int| network_at(m0, self.players@[a].player_id, j);
                        assert(network_at(self.network_map@, self.players@[a].player_id, c));
                    }
                }
            }
        }
    }

    /// `status` is the server's status, answering `nonce`: its numbers of logins and rooms,
    /// its name and its version.
    pub open spec fn status_is(self, status: Packet, nonce: u64) -> bool {
        status matches Packet::Status { pong, player_count, room_count, server_name, server_version }
            && pong == (PingPong { nonce })
            && player_count == self.player_map@.len() as u64
            && room_count == self.room_map@.len() as u64
            && server_name@ == "Leto II"@
            && server_version@ == VERSION@
    }

    /// The server's answer to a status request carrying `nonce`.
    pub fn get_status(&self, nonce: u64) -> (r: Packet)
        ensures
            self.status_is(r, nonce),
    {
        Packet::Status {
            pong: PingPong { nonce },
            player_count: self.player_map.len() as u64,
            room_count: self.room_map.len() as u64,
            server_name: String::from_str("Leto II"),
            server_version: String::from_str(VERSION),
        }
    }
    /// `new`, whose players are `players`, is `self` with player `p` added (see `new_player`)
    /// with its cookie and fresh network bookkeeping; `players` holds `p` at position `i`.
    pub open spec fn player_added(self, new: Self, players: Seq<Player<A>>, p: Player<A>, i: int) -> bool {
        &&& player_set(self.players@, players, p, i)
        &&& text_key_set(self.player_map@, new.player_map@, p.cookie@, p.player_id)
        &&& network_set(self.network_map@, new.network_map@, p.player_id)
        &&& new.tick == self.tick
        &&& new.rooms == self.rooms
        &&& new.room_map == self.room_map
    }

    /// Adds a player named `name`, reached at `addr`, under a fresh identifier and cookie (a
    /// player or cookie equal by chance is replaced), and returns it to change.
    pub fn add_new_player(&mut self, name: String, addr: A) -> (p: &mut Player<A>)
        requires
            old(self).wf(),
        ensures
            new_player(*p, name@, addr),
            exists|i: int, ps: Seq<Player<A>>| {
                &&& #[trigger] player_set(old(self).players@, ps, *p, i)
                &&& final(self).players@ == ps.update(i, *final(p))
            },
            text_key_set(old(self).player_map@, final(self).player_map@, p.cookie@, p.player_id),
            network_set(old(self).network_map@, final(self).network_map@, p.player_id),
            final(self).tick == old(self).tick,
            final(self).rooms == old(self).rooms,
            final(self).room_map == old(self).room_map,
            *final(p) == *p ==> final(self).wf(),
    {
        let cookie = new_cookie();
        let player_id = PlayerID(new_uuid());
        let player = Player {
            player_id,
            cookie: cookie.clone(),
            addr,
            name,
            request_ack: None,
            next_resp_seq: 1,
            game_info: None,
            last_received: instant_now(),
            latency_filter: PingFilter::new(),
        };
        let ghost p0 = player;
        let ghost s0 = *self;
        // the cookie now refers to the new player
        let mut k: usize = 0;
        while k < self.player_map.len()
            invariant
                *self == s0,
                s0.wf(),
                k <= self.player_map@.len(),
                forall|j: int| 0 <= j < k ==> (#[trigger] self.player_map@[j]).0@ != cookie@,
            ensures
                *self == s0,
                k <= self.player_map@.len(),
                forall|j: int| 0 <= j < k ==> (#[trigger] self.player_map@[j]).0@ != cookie@,
                k < self.player_map@.len() ==> self.player_map@[k as int].0@ == cookie@,
            decreases self.player_map@.len() - k,
        {
            if self.player_map[k].0 == cookie {
                break;
            }
            k = k + 1;
        }
        let ghost m0 = self.player_map@;
        if k < self.player_map.len() {
            self.player_map[k].1 = player_id;
            proof {
                assert(self.player_map@ == m0.update(k as int, (m0[k as int].0, player_id)));
                assert forall|a: int, b: int| 0 <= a < b < self.player_map@.len()
                    implies (#[trigger] self.player_map@[a]).0@ != (#[trigger] self.player_map@[b]).0@ by {
                    assert(m0[a].0@ != m0[b].0@);
                }
            }
        } else {
            self.player_map.push((cookie, player_id));
            proof {
                assert(self.player_map@.drop_last() =~= m0);
                assert forall|a: int, b: int| 0 <= a < b < self.player_map@.len()
                    implies (#[trigger] self.player_map@[a]).0@ != (#[trigger] self.player_map@[b]).0@ by {
                    if b < m0.len() { assert(m0[a].0@ != m0[b].0@); }
                }
            }
        }
        // the network bookkeeping of the identifier starts afresh
        let ghost n0 = self.network_map@;
        match self.network_index(player_id) {
            Some(j) => {
                self.network_map[j].1 = NetworkManager::new();
                proof {
                    assert(networks_but(n0, self.network_map@, j as int));
                    assert(network_at(n0, player_id, j as int));
                }
            },
            None => {
                self.network_map.push((player_id, NetworkManager::new()));
                proof {
                    assert(self.network_map@.drop_last() =~= n0);
                }
            },
        }
        proof {
            assert forall|a: int, b: int| 0 <= a < b < self.network_map@.len()
                implies (#[trigger] self.network_map@[a]).0 != (#[trigger] self.network_map@[b]).0 by {
                if b < n0.len() {
                    assert(n0[a].0 != n0[b].0);
                } else if a < n0.len() && n0.len() < self.network_map@.len() {
                    assert(!network_at(n0, player_id, a));
                }
            }
            assert forall|j: int| 0 <= j < self.network_map@.len() implies {
                &&& all_sequenced((#[trigger] self.network_map@[j]).1.tx_packets.queue@)
                &&& all_sequenced(self.network_map@[j].1.rx_packets.queue@)
            } by {
                if j < n0.len() && self.network_map@[j] == n0[j] {
                } else {
                    assert(self.network_map@[j].1.tx_packets.queue@.len() == 0);
                }
            }
        }
        proof {
            assert forall|a: int| 0 <= a < self.players@.len()
                implies self.has_network((#[trigger] self.players@[a]).player_id) by {
                let id = self.players@[a].player_id;
                assert(s0.has_network(id));
                let c = choose|j: int| network_at(n0, id, j);
                if self.network_map@[c] == n0[c] {
                    assert(network_at(self.network_map@, id, c));
                } else {
                    let j = choose|j: int| network_at(n0, player_id, j) && networks_but(n0, self.network_map@, j)
                        && self.network_map@[j].0 == player_id && fresh_network(self.network_map@[j].1);
                    assert(c == j) by {
                        if c != j { assert(self.network_map@[c] == n0[c]); }
                    }
                    assert(network_at(self.network_map@, id, c));
                }
            }
            assert(self.wf());
        }
        // the identifier now refers to the new player
        let ghost ps0 = self.players@;
        let pi = match self.player_index(player_id) {
            Some(j) => {
                self.players[j] = player;
                proof {
                    assert(p0.player_id == player_id);
                    assert(player_at(ps0, player_id, j as int));
                    assert(self.players@ == ps0.update(j as int, p0));
                    assert(player_set(ps0, self.players@, p0, j as int));
                }
                j
            },
            None => {
                let n = self.players.len();
                self.players.push(player);
                proof {
                    assert(player_set(ps0, self.players@, p0, n as int));
                }
                n
            },
        };
        proof {
            assert(player_at(self.players@, player_id, pi as int));
            assert(player_set(old(self).players@, self.players@, p0, pi as int));
            assert(self.players@[pi as int] == p0);
            assert(self.players@.update(pi as int, p0) =~= self.players@);
            assert forall|a: int, b: int| 0 <= a < b < self.players@.len()
                implies (#[trigger] self.players@[a]).player_id != (#[trigger] self.players@[b]).player_id by {
                if b == ps0.len() { assert(!player_at(ps0, player_id, a)); }
                else if a == pi { assert(!player_at(ps0, player_id, b) || b == pi); }
                else if b == pi { assert(!player_at(ps0, player_id, a) || a == pi); }
                else { assert(ps0[a].player_id != ps0[b].player_id); }
            }
            assert(p0.latency_filter.wf());
            assert forall|a: int| 0 <= a < self.players@.len()
                implies (#[trigger] self.players@[a]).latency_filter.wf() by {
                if a != pi { assert(self.players@[a] == ps0[a]); }
            }
            assert(self.has_network(player_id)) by {
                if exists|j: int| network_at(n0, player_id, j) {
                    let j = choose|j: int| network_at(n0, player_id, j) && networks_but(n0, self.network_map@, j)
                        && self.network_map@[j].0 == player_id && fresh_network(self.network_map@[j].1);
                    assert(network_at(self.network_map@, player_id, j));
                } else {
                    assert(network_at(self.network_map@, player_id, n0.len() as int));
                }
            }
            assert forall|a: int| 0 <= a < self.players@.len()
                implies self.has_network((#[trigger] self.players@[a]).player_id) by {
                if a != pi { assert(self.players@[a] == ps0[a]); }
            }
            assert(self.wf());
        }
        &mut self.players[pi]
    }
    /// What a login as `name` from `addr` does: with a name no player has, a player is added
    /// and told its cookie; otherwise the login is refused.
    pub open spec fn connection_outcome(self, new: Self, name: Seq<char>, addr: A, r: Packet) -> bool {
        if forall|i: int| 0 <= i < self.players@.len() ==> (#[trigger] self.players@[i]).name@ != name {
            exists|p: Player<A>, i: int| {
                &&& new_player(p, name, addr)
                &&& #[trigger] self.player_added(new, new.players@, p, i)
                &&& r matches Packet::Response { sequence, request_ack, code }
                &&& sequence == 0 && request_ack == Some(0u64)
                &&& code matches ResponseCode::LoggedIn { cookie, server_version }
                &&& cookie@ == p.cookie@ && server_version@ == VERSION@
            }
        } else {
            &&& new == self
            &&& r matches Packet::Response { sequence, request_ack, code }
            &&& sequence == 0 && request_ack is None && bad_login(code)
        }
    }

    /// A new connection as `name` from `addr` (see `connection_outcome`).
    pub fn handle_new_connection(&mut self, name: String, addr: A) -> (r: Packet)
        requires
            old(self).wf(),
        ensures
            final(self).wf(),
            old(self).connection_outcome(*final(self), name@, addr, r),
    {
        if self.is_unique_player_name(name.as_str()) {
            let ghost s0 = *self;
            let player = self.add_new_player(name, addr);
            let cookie = player.cookie.clone();
            let ghost p = *player;
            proof {
                let (i, ps) = choose|i: int, ps: Seq<Player<A>>| #[trigger] player_set(s0.players@, ps, p, i)
                    && self.players@ == ps.update(i, p);
                assert(ps.update(i, p) =~= ps) by {
                    if exists|j: int| player_at(s0.players@, p.player_id, j) {} else {}
                }
                assert(s0.player_added(*self, self.players@, p, i));
            }
            Packet::Response {
                sequence: 0,
                request_ack: Some(0),
                code: ResponseCode::LoggedIn { cookie, server_version: String::from_str(VERSION) },
            }
        } else {
            Packet::Response {
                sequence: 0,
                request_ack: None,
                code: ResponseCode::Unauthorized { error_msg: String::from_str("not a unique name") },
            }
        }
    }

    /// A request of player `id` leaves its counters as they were, and does not bring in a
    /// player that was not there.
    proof fn lemma_request_keeps_counters(self, mid: Self, id: PlayerID, action: RequestAction, code: ResponseCode)
        requires
            self.wf(),
            mid.wf(),
            self.request_outcome(mid, id, action, code),
            mid.has_player(id),
        ensures
            self.has_player(id),
            mid.player(id).request_ack == self.player(id).request_ack,
            mid.player(id).next_resp_seq == self.player(id).next_resp_seq,
    {
        let j = choose|j: int| player_at(mid.players@, id, j);
        match action {
            RequestAction::Disconnect => {
                if exists|i: int| player_at(self.players@, id, i) {
                    let i = choose|i: int| player_at(self.players@, id, i) && mid.players@ == self.players@.remove(i);
                    let j0 = if j < i { j } else { j + 1 };
                    assert(self.players@[j0].player_id == id);
                    if j0 < i { assert(self.players@[j0].player_id != self.players@[i].player_id); }
                    else { assert(self.players@[i].player_id != self.players@[j0].player_id); }
                } else {
                    assert(player_at(self.players@, id, j));
                }
            },
            RequestAction::JoinRoom { room_name } => {
                if mid.players == self.players {
                    assert(player_at(self.players@, id, j));
                } else {
                    let (ri, pi) = choose|ri: int, pi: int| #[trigger] first_room_named(self.rooms@, room_name@, ri)
                        && #[trigger] player_at(self.players@, id, pi)
                        && rooms_but(self.rooms@, mid.rooms@, ri) && joined(self.rooms@[ri], mid.rooms@[ri], id)
                        && players_but(self.players@, mid.players@, pi)
                        && placed(self.players@[pi], mid.players@[pi],
                            Some(PlayerInGameInfo { room_id: self.rooms@[ri].room_id, chat_msg_seq_num: None }));
                    self.lemma_player_unique(id, pi);
                    mid.lemma_player_unique(id, pi);
                }
            },
            RequestAction::LeaveRoom => {
                if mid.players == self.players {
                    assert(player_at(self.players@, id, j));
                } else {
                    let pi = choose|pi: int| #[trigger] player_at(self.players@, id, pi) && players_but(self.players@, mid.players@, pi)
                        && placed(self.players@[pi], mid.players@[pi], None);
                    self.lemma_player_unique(id, pi);
                    mid.lemma_player_unique(id, pi);
                }
            },
            _ => {
                assert(mid.players == self.players);
                assert(player_at(self.players@, id, j));
            },
        }
    }

    /// The player at position `i` is the player of its identifier.
    proof fn lemma_player_unique(self, id: PlayerID, i: int)
        requires
            self.wf(),
            player_at(self.players@, id, i),
        ensures
            self.has_player(id),
            self.player(id) == self.players@[i],
    {
        let c = choose|j: int| player_at(self.players@, id, j);
        if c != i {
            if c < i { assert(self.players@[c].player_id != self.players@[i].player_id); }
            else { assert(self.players@[i].player_id != self.players@[c].player_id); }
        }
    }
    /// Player `id` can be answered: its counters have room for one more response.
    pub open spec fn can_answer(self, id: PlayerID) -> bool {
        self.has_player(id) ==> (self.player(id).request_ack matches Some(a) && a < u64::MAX
            && self.player(id).next_resp_seq < u64::MAX)
    }

    /// `new` is `self` once request answer `code` was numbered for player `id` and put in
    /// response `r`; nothing is answered to a player no longer there.
    pub open spec fn responded(self, new: Self, id: PlayerID, code: ResponseCode, r: Option<Packet>) -> bool {
        if self.has_player(id) {
            let p = self.player(id);
            &&& r == Some(Packet::Response {
                sequence: p.next_resp_seq,
                request_ack: Some((p.request_ack->0 + 1) as u64),
                code,
            })
            &&& exists|pi: int| #[trigger] player_at(self.players@, id, pi) && players_but(self.players@, new.players@, pi)
                && counted(self.players@[pi], new.players@[pi])
            &&& new.tick == self.tick
            &&& new.player_map == self.player_map
            &&& new.rooms == self.rooms
            &&& new.room_map == self.room_map
            &&& new.network_map == self.network_map
        } else {
            new == self && r is None
        }
    }

    /// What answering request `action` of player `id` does: it is carried out, then answered.
    pub open spec fn prepare_outcome(self, new: Self, id: PlayerID, action: RequestAction, r: Option<Packet>) -> bool {
        exists|mid: Self, code: ResponseCode| {
            &&& #[trigger] self.request_outcome(mid, id, action, code)
            &&& mid.wf()
            &&& mid.responded(new, id, code, r)
        }
    }

    /// Carries out request `action` of player `player_id` and makes the response to it: the
    /// player's next response number, and an acknowledgement of one more request (see
    /// `prepare_outcome`).
    pub fn prepare_response(&mut self, player_id: PlayerID, action: RequestAction) -> (r: Option<Packet>)
        requires
            old(self).wf(),
            !(action is KeepAlive),
            old(self).request_allowed(player_id, action),
            old(self).can_answer(player_id),
        ensures
            final(self).wf(),
            old(self).prepare_outcome(*final(self), player_id, action, r),
    {
        let ghost s0 = *self;
        let code = self.process_request_action(player_id, action);
        let ghost mid = *self;
        match self.player_index(player_id) {
            None => {
                proof {
                    assert(mid.responded(*self, player_id, code, None));
                }
                None
            },
            Some(pi) => {
                proof {
                    s0.lemma_request_keeps_counters(mid, player_id, action, code);
                    mid.lemma_player_unique(player_id, pi as int);
                }
                let ghost ps0 = self.players@;
                let sequence = self.players[pi].increment_response_seq_num();
                let ack = self.players[pi].request_ack.unwrap() + 1;
                self.players[pi].request_ack = Some(ack);
                proof {
                    assert(players_but(ps0, self.players@, pi as int));
                    assert(counted(ps0[pi as int], self.players@[pi as int]));
                    assert forall|a: int, b: int| 0 <= a < b < self.players@.len()
                        implies (#[trigger] self.players@[a]).player_id != (#[trigger] self.players@[b]).player_id by {
                        assert(ps0[a].player_id != ps0[b].player_id);
                    }
                    assert forall|a: int| 0 <= a < self.players@.len()
                        implies (#[trigger] self.players@[a]).latency_filter.wf() by {
                        assert(ps0[a].latency_filter.wf());
                    }
                    assert forall|a: int| 0 <= a < self.players@.len()
                        implies self.has_network((#[trigger] self.players@[a]).player_id) by {
                        assert(mid.has_network(ps0[a].player_id));
                        let c = choose|j: int| network_at(mid.network_map@, ps0[a].player_id, j);
                        assert(network_at(self.network_map@, self.players@[a].player_id, c));
                    }
                    assert(player_at(ps0, player_id, pi as int));
                }
                let response = Packet::Response { sequence, request_ack: Some(ack), code };
                proof {
                    assert(mid.responded(*self, player_id, code, Some(response)));
                }
                Some(response)
            },
        }
    }
    /// A request leaves the network bookkeeping as it was.
    proof fn lemma_request_keeps_networks(self, mid: Self, id: PlayerID, action: RequestAction, code: ResponseCode)
        requires
            self.request_outcome(mid, id, action, code),
        ensures
            mid.network_map == self.network_map,
    {
    }

    /// What buffering response `r` (if any) to player `id` for retransmission does: a
    /// response with its sequence number and acknowledgement is buffered in the player's
    /// transmit queue (the answer code of the buffered copy is a clone of `r`'s).
    pub open spec fn tx_outcome(self, new: Self, id: PlayerID, r: Option<Packet>) -> bool {
        match r {
            Some(Packet::Response { sequence, request_ack, .. }) => if self.has_network(id) {
                &&& exists|k: int, q: Packet, ex: bool| {
                    &&& #[trigger] network_at(self.network_map@, id, k)
                    &&& networks_but(self.network_map@, new.network_map@, k)
                    &&& new.network_map@[k].0 == id
                    &&& q matches Packet::Response { sequence: s2, request_ack: a2, .. } && s2 == sequence && a2 == request_ack
                    &&& #[trigger] buffered(self.network_map@[k].1.tx_packets, new.network_map@[k].1.tx_packets, q, ex)
                    &&& new.network_map@[k].1.rx_packets == self.network_map@[k].1.rx_packets
                    &&& new.network_map@[k].1.rx_chat_messages == self.network_map@[k].1.rx_chat_messages
                    &&& new.network_map@[k].1.statistics == self.network_map@[k].1.statistics
                }
                &&& new.tick == self.tick
                &&& new.players == self.players
                &&& new.player_map == self.player_map
                &&& new.rooms == self.rooms
                &&& new.room_map == self.room_map
            } else {
                new == self
            },
            _ => new == self,
        }
    }

    /// The response to request `action` of player `id` can be buffered: the player's transmit
    /// queue takes the response's sequence number.
    pub open spec fn can_buffer_response(self, id: PlayerID) -> bool {
        self.has_player(id) && self.has_network(id)
            ==> can_buffer(self.network(id).tx_packets, self.player(id).next_resp_seq)
    }

    /// Carries out request `action` of player `player_id`, answers it (see `prepare_outcome`)
    /// and buffers the answer for retransmission (see `tx_outcome`).
    pub fn process_player_request_action(&mut self, player_id: PlayerID, action: RequestAction) -> (r: Option<Packet>)
        requires
            old(self).wf(),
            !(action is Connect),
            !(action is KeepAlive),
            old(self).request_allowed(player_id, action),
            old(self).can_answer(player_id),
            old(self).can_buffer_response(player_id),
        ensures
            final(self).wf(),
            exists|mid: Self| #[trigger] old(self).prepare_outcome(mid, player_id, action, r) && mid.tx_outcome(*final(self), player_id, r),
    {
        let ghost s0 = *self;
        let response = self.prepare_response(player_id, action);
        let ghost mid = *self;
        proof {
            let (m1, code) = choose|m1: Self, code: ResponseCode| #[trigger] s0.request_outcome(m1, player_id, action, code)
                && m1.wf() && m1.responded(mid, player_id, code, response);
            s0.lemma_request_keeps_networks(m1, player_id, action, code);
            if m1.has_player(player_id) {
                s0.lemma_request_keeps_counters(m1, player_id, action, code);
            }
        }
        match &response {
            Some(Packet::Response { sequence, request_ack, code }) => {
                match self.network_index(player_id) {
                    Some(k) => {
                        let copy = Packet::Response { sequence: *sequence, request_ack: *request_ack, code: code.clone() };
                        let ghost m0 = self.network_map@;
                        let ex = self.network_map[k].1.tx_packets.buffer_item(copy);
                        proof {
                            assert(networks_but(m0, self.network_map@, k as int));
                            assert(buffered(m0[k as int].1.tx_packets, self.network_map@[k as int].1.tx_packets, copy, ex));
                            assert(network_at(m0, player_id, k as int));
                            assert forall|a: int, b: int| 0 <= a < b < self.network_map@.len()
                                implies (#[trigger] self.network_map@[a]).0 != (#[trigger] self.network_map@[b]).0 by {
                                assert(m0[a].0 != m0[b].0);
                            }
                            assert forall|j: int| 0 <= j < self.network_map@.len() implies {
                                &&& all_sequenced((#[trigger] self.network_map@[j]).1.tx_packets.queue@)
                                &&& all_sequenced(self.network_map@[j].1.rx_packets.queue@)
                            } by {
                                if j != k { assert(self.network_map@[j] == m0[j]); }
                            }
                            assert forall|a: int| 0 <= a < self.players@.len()
                                implies self.has_network((#[trigger] self.players@[a]).player_id) by {
                                let c = choose|j: int| network_at(m0, self.players@[a].player_id, j);
                                assert(network_at(self.network_map@, self.players@[a].player_id, c));
                            }
                        }
                    },
                    None => {},
                }
            },
            _ => {},
        }
        response
    }
    /// `new` is `self` with the player `id` stamped as heard from (see `stamped`).
    pub open spec fn heard_from(self, new: Self, id: PlayerID) -> bool {
        &&& exists|pi: int| #[trigger] player_at(self.players@, id, pi) && players_but(self.players@, new.players@, pi)
            && stamped(self.players@[pi], new.players@[pi])
        &&& new.tick == self.tick
        &&& new.player_map == self.player_map
        &&& new.rooms == self.rooms
        &&& new.room_map == self.room_map
        &&& new.network_map == self.network_map
    }

    /// What an update reply carrying `cookie` and `last_chat_seq` does.
    pub open spec fn update_reply_outcome(self, new: Self, cookie: Seq<char>, last_chat_seq: Option<u64>,
        r: Result<Option<Packet>, DecodeError>) -> bool {
        match text_lookup(self.player_map@, cookie) {
            None => new == self && r == Err::<Option<Packet>, DecodeError>(DecodeError::InvalidCookie),
            Some(id) => if !self.has_player(id) {
                new == self && r == Err::<Option<Packet>, DecodeError>(DecodeError::PlayerNotFound)
            } else {
                &&& r == Ok::<Option<Packet>, DecodeError>(None)
                &&& exists|pi: int| #[trigger] player_at(self.players@, id, pi) && players_but(self.players@, new.players@, pi)
                    && replied(self.players@[pi], new.players@[pi], last_chat_seq)
                &&& new.tick == self.tick
                &&& new.player_map == self.player_map
                &&& new.rooms == self.rooms
                &&& new.room_map == self.room_map
                &&& new.network_map == self.network_map
            },
        }
    }

    fn decode_update_reply(&mut self, cookie: String, last_chat_seq: Option<u64>) -> (r: Result<Option<Packet>, DecodeError>)
        requires
            old(self).wf(),
        ensures
            final(self).wf(),
            old(self).update_reply_outcome(*final(self), cookie@, last_chat_seq, r),
    {
        let id = match self.get_player_id_by_cookie(cookie.as_str()) {
            None => return Err(DecodeError::InvalidCookie),
            Some(id) => id,
        };
        let pi = match self.player_index(id) {
            None => return Err(DecodeError::PlayerNotFound),
            Some(pi) => pi,
        };
        let ghost ps0 = self.players@;
        if self.players[pi].game_info.is_some() {
            self.players[pi].update_chat_seq_num(last_chat_seq);
        }
        let ghost p1 = self.players@[pi as int];
        proof {
            assert(p1.latency_filter == ps0[pi as int].latency_filter);
            assert(p1.game_info == match ps0[pi as int].game_info {
                None => None,
                Some(g) => Some(PlayerInGameInfo {
                    room_id: g.room_id,
                    chat_msg_seq_num: crate::server::entity::chat_seq_after(g.chat_msg_seq_num, last_chat_seq),
                }),
            });
        }
        if self.players[pi].latency_filter.is_measuring() {
            self.players[pi].latency_filter.update();
            proof {
                let now = choose|now: std::time::Instant| #[trigger] sampled(p1.latency_filter,
                    self.players@[pi as int].latency_filter,
                    crate::utils::ping::millis_between(now, p1.latency_filter.started_at()));
                let lat = crate::utils::ping::millis_between(now, p1.latency_filter.started_at());
                assert(sampled(ps0[pi as int].latency_filter, self.players@[pi as int].latency_filter, lat));
            }
        }
        proof {
            assert(players_but(ps0, self.players@, pi as int));
            assert(replied(ps0[pi as int], self.players@[pi as int], last_chat_seq));
            assert(player_at(ps0, id, pi as int));
            assert forall|a: int, b: int| 0 <= a < b < self.players@.len()
                implies (#[trigger] self.players@[a]).player_id != (#[trigger] self.players@[b]).player_id by {
                assert(ps0[a].player_id != ps0[b].player_id);
            }
            assert forall|a: int| 0 <= a < self.players@.len()
                implies (#[trigger] self.players@[a]).latency_filter.wf() by {
                assert(ps0[a].latency_filter.wf());
            }
            assert forall|a: int| 0 <= a < self.players@.len()
                implies self.has_network((#[trigger] self.players@[a]).player_id) by {
                assert(old(self).has_network(ps0[a].player_id));
                let c = choose|j: int| network_at(old(self).network_map@, ps0[a].player_id, j);
                assert(network_at(self.network_map@, self.players@[a].player_id, c));
            }
        }
        Ok(None)
    }
    /// The transmit queue of player `id` once a client acknowledging `ack` was heard.
    pub open spec fn tx_after_ack(self, id: PlayerID, ack: Option<u64>) -> Seq<Packet> {
        let q = self.network(id).tx_packets.queue@;
        match ack {
            Some(a) => q.skip(acked_count(q, a) as int),
            None => q,
        }
    }

    /// What the server needs of its state to take request `action`, numbered `sequence`,
    /// acknowledging `response_ack`, with `cookie`, without failing: the cookie's player is
    /// there, its counters have room, the request can be carried out, and its queues can take
    /// the response and the request.
    pub open spec fn request_decodable(self, sequence: u64, response_ack: Option<u64>, cookie: Option<String>,
        action: RequestAction) -> bool {
        !(action is Connect) && cookie is Some ==> match text_lookup(self.player_map@, cookie->0@) {
            None => true,
            Some(id) => {
                &&& self.has_player(id)
                &&& self.player(id).request_ack matches Some(a) ==> a < u64::MAX
                &&& !(action is KeepAlive) ==> {
                    &&& self.request_allowed(id, action)
                    &&& self.player(id).next_resp_seq < u64::MAX
                    &&& can_buffer_in(self.tx_after_ack(id, response_ack),
                        self.network(id).tx_packets.buffer_wrap_index, self.player(id).next_resp_seq)
                    &&& can_buffer(self.network(id).rx_packets, sequence)
                }
            },
        }
    }

    /// What a request packet does (see `decode_packet`).
    pub open spec fn request_outcome_of_packet(self, new: Self, addr: A, sequence: u64, response_ack: Option<u64>,
        cookie: Option<String>, action: RequestAction, r: Result<Option<Packet>, DecodeError>) -> bool {
        if !(action is Connect || action is KeepAlive) && cookie is None {
            new == self && r == Err::<Option<Packet>, DecodeError>(DecodeError::NoCookie)
        } else if action is Connect {
            if client_version_accepted(action->Connect_client_version@) {
                exists|p: Packet| #[trigger] self.connection_outcome(new, action->Connect_name@, addr, p)
                    && r == Ok::<Option<Packet>, DecodeError>(Some(p))
            } else {
                new == self && r == Err::<Option<Packet>, DecodeError>(DecodeError::ClientOutOfDate)
            }
        } else if cookie is None {
            new == self && r == Err::<Option<Packet>, DecodeError>(DecodeError::CookieRequired)
        } else {
            match text_lookup(self.player_map@, cookie->0@) {
                None => new == self && r == Err::<Option<Packet>, DecodeError>(DecodeError::InvalidCookie),
                Some(id) => exists|s1: Self| #[trigger] self.heard_from(s1, id) && if action is KeepAlive {
                    s1.ack_outcome(new, id, Some(action->KeepAlive_latest_response_ack))
                        && r == Ok::<Option<Packet>, DecodeError>(None)
                } else {
                    exists|s2: Self, s3: Self, can: bool| {
                        &&& #[trigger] s1.ack_outcome(s2, id, response_ack)
                        &&& #[trigger] s2.process_check_outcome(s3, id, sequence, can)
                        &&& if can {
                            exists|mid: Self, resp: Option<Packet>| #[trigger] s3.prepare_outcome(mid, id, action, resp)
                                && mid.tx_outcome(new, id, resp) && r == Ok::<Option<Packet>, DecodeError>(resp)
                        } else if s3.player(id).request_ack matches Some(a) && sequence <= a {
                            new == s3 && r == Ok::<Option<Packet>, DecodeError>(None)
                        } else {
                            exists|ex: bool| #[trigger] s3.queue_outcome(new, id,
                                Packet::Request { sequence, response_ack, cookie, action }, ex)
                                && r == Ok::<Option<Packet>, DecodeError>(None)
                        }
                    }
                },
            }
        }
    }

    fn decode_request(&mut self, addr: A, sequence: u64, response_ack: Option<u64>, cookie: Option<String>,
        action: RequestAction) -> (r: Result<Option<Packet>, DecodeError>)
        requires
            old(self).wf(),
            old(self).request_decodable(sequence, response_ack, cookie, action),
        ensures
            final(self).wf(),
            old(self).request_outcome_of_packet(*final(self), addr, sequence, response_ack, cookie, action, r),
    {
        let is_connect = matches!(action, RequestAction::Connect { .. });
        let is_keep_alive = matches!(action, RequestAction::KeepAlive { .. });
        if !is_connect && !is_keep_alive && cookie.is_none() {
            return Err(DecodeError::NoCookie);
        }
        if let RequestAction::Connect { name, client_version } = action {
            if validate_client_version(client_version) {
                let p = self.handle_new_connection(name, addr);
                return Ok(Some(p));
            } else {
                return Err(DecodeError::ClientOutOfDate);
            }
        }
        let cookie_text = match &cookie {
            None => return Err(DecodeError::CookieRequired),
            Some(c) => c,
        };
        let id = match self.get_player_id_by_cookie(cookie_text.as_str()) {
            None => return Err(DecodeError::InvalidCookie),
            Some(id) => id,
        };
        let ghost s0 = *self;
        let pi = self.player_index(id).unwrap();
        let ghost ps0 = self.players@;
        self.players[pi].last_received = instant_now();
        proof {
            assert(players_but(ps0, self.players@, pi as int));
            assert(stamped(ps0[pi as int], self.players@[pi as int]));
            assert(player_at(ps0, id, pi as int));
            assert forall|a: int, b: int| 0 <= a < b < self.players@.len()
                implies (#[trigger] self.players@[a]).player_id != (#[trigger] self.players@[b]).player_id by {
                assert(ps0[a].player_id != ps0[b].player_id);
            }
            assert forall|a: int| 0 <= a < self.players@.len()
                implies (#[trigger] self.players@[a]).latency_filter.wf() by {
                assert(ps0[a].latency_filter.wf());
            }
            assert forall|a: int| 0 <= a < self.players@.len()
                implies self.has_network((#[trigger] self.players@[a]).player_id) by {
                assert(s0.has_network(ps0[a].player_id));
                let c = choose|j: int| network_at(s0.network_map@, ps0[a].player_id, j);
                assert(network_at(self.network_map@, self.players@[a].player_id, c));
            }
            assert(s0.heard_from(*self, id));
            s0.lemma_player_unique(id, pi as int);
            self.lemma_player_unique(id, pi as int);
        }
        let ghost s1 = *self;
        if let RequestAction::KeepAlive { latest_response_ack } = action {
            self.clear_transmission_queue_on_ack(id, Some(latest_response_ack));
            return Ok(None);
        }
        self.clear_transmission_queue_on_ack(id, response_ack);
        let ghost s2 = *self;
        proof {
            assert(s2.players == s1.players);
            assert(s2.player(id) == s1.player(id));
        }
        let can = self.can_process_packet(id, sequence);
        let ghost s3 = *self;
        proof {
            assert forall|j: int| 0 <= j < s0.players@.len() implies {
                &&& (#[trigger] s3.players@[j]).player_id == s0.players@[j].player_id
                &&& s3.players@[j].game_info == s0.players@[j].game_info
            } by {
                if j != pi {
                    assert(s3.players@[j] == s0.players@[j]);
                }
            }
            s0.lemma_same_places(s3, id, action);
        }
        if can {
            let resp = self.process_player_request_action(id, action);
            return Ok(resp);
        }
        proof {
            assert(s3 == s2);
        }
        if self.is_previously_processed_packet(id, sequence) {
            return Ok(None);
        }
        let cookie_again = cookie;
        let _ = self.add_packet_to_queue(id, Packet::Request { sequence, response_ack, cookie: cookie_again, action });
        Ok(None)
    }
    /// States whose players are where they were (same identifiers and places in games) and
    /// whose rooms are the same allow the same requests.
    proof fn lemma_same_places(self, t: Self, id: PlayerID, action: RequestAction)
        requires
            self.wf(),
            t.wf(),
            t.rooms == self.rooms,
            t.players@.len() == self.players@.len(),
            forall|j: int| 0 <= j < self.players@.len() ==> {
                &&& (#[trigger] t.players@[j]).player_id == self.players@[j].player_id
                &&& t.players@[j].game_info == self.players@[j].game_info
            },
        ensures
            t.has_player(id) == self.has_player(id),
            self.has_player(id) ==> t.player(id).game_info == self.player(id).game_info,
            t.in_game(id) == self.in_game(id),
            self.in_game(id) ==> t.room_of(id) == self.room_of(id),
            t.request_allowed(id, action) == self.request_allowed(id, action),
    {
        if self.has_player(id) {
            let i = choose|i: int| player_at(self.players@, id, i);
            assert(player_at(t.players@, id, i));
            self.lemma_player_unique(id, i);
            t.lemma_player_unique(id, i);
        }
        if t.has_player(id) {
            let i = choose|i: int| player_at(t.players@, id, i);
            assert(player_at(self.players@, id, i));
        }
    }
    /// What the server needs of its state to take `packet` without failing (see
    /// `request_decodable`).
    pub open spec fn decodable(self, packet: Packet) -> bool {
        match packet {
            Packet::Request { sequence, response_ack, cookie, action } =>
                self.request_decodable(sequence, response_ack, cookie, action),
            _ => true,
        }
    }

    /// What taking `packet` from `addr` does, and what is answered.
    pub open spec fn decode_outcome(self, new: Self, addr: A, packet: Packet, r: Result<Option<Packet>, DecodeError>) -> bool {
        match packet {
            Packet::Request { sequence, response_ack, cookie, action } =>
                self.request_outcome_of_packet(new, addr, sequence, response_ack, cookie, action, r),
            Packet::UpdateReply { cookie, last_chat_seq, .. } => self.update_reply_outcome(new, cookie@, last_chat_seq, r),
            Packet::GetStatus { ping } => new == self && (r matches Ok(Some(status)) && self.status_is(status, ping.nonce)),
            _ => new == self && r == Err::<Option<Packet>, DecodeError>(DecodeError::InvalidPacketType),
        }
    }

    /// Takes `packet` from the client at `addr`: a request of a logged-in player is processed
    /// at once when it is the next one expected (and answered), dropped when processed already,
    /// and buffered otherwise; a login adds a player when the client is not newer than the
    /// server; an update reply records the client's progress; a status request is answered;
    /// anything else is refused (see `decode_outcome`).
    pub fn decode_packet(&mut self, addr: A, packet: Packet) -> (r: Result<Option<Packet>, DecodeError>)
        requires
            old(self).wf(),
            old(self).decodable(packet),
        ensures
            final(self).wf(),
            old(self).decode_outcome(*final(self), addr, packet, r),
    {
        match packet {
            Packet::Response { .. } | Packet::Update { .. } | Packet::Status { .. } => Err(DecodeError::InvalidPacketType),
            Packet::Request { sequence, response_ack, cookie, action } =>
                self.decode_request(addr, sequence, response_ack, cookie, action),
            Packet::UpdateReply { cookie, last_chat_seq, .. } => self.decode_update_reply(cookie, last_chat_seq),
            Packet::GetStatus { ping } => Ok(Some(self.get_status(ping.nonce))),
        }
    }
    /// The messages of `room` that `player` has not acknowledged (see `unacknowledged`), to
    /// relay; none when there is nothing to send.
    pub fn collect_unacknowledged_messages(&self, room: &Room, player: &Player<A>) -> (r: Option<Vec<BroadcastChatMessage>>)
        ensures
            ({
                let ms = unacknowledged(room.messages@, player.get_confirmed_chat_seq_num_spec());
                if ms.len() == 0 { r is None } else { r matches Some(v) && relays(v@, ms) }
            }),
    {
        let (start, n): (usize, usize) = match player.get_confirmed_chat_seq_num() {
            Some(chat_msg_seq_num) => {
                let len = room.messages.len();
                if len == 0 {
                    return None;
                }
                let newest = room.messages[len - 1].seq_num;
                if chat_msg_seq_num >= newest {
                    return None;
                }
                let amount = room.get_message_skip_count(chat_msg_seq_num);
                if amount > len as u64 {
                    return None;
                }
                (amount as usize, len)
            },
            None => (0, room.messages.len()),
        };
        let ghost ms = unacknowledged(room.messages@, player.get_confirmed_chat_seq_num_spec());
        proof {
            assert(ms =~= room.messages@.skip(start as int));
        }
        if start == n {
            return None;
        }
        let mut out: Vec<BroadcastChatMessage> = Vec::new();
        let mut i: usize = start;
        while i < n
            invariant
                start <= i <= n,
                n == room.messages@.len(),
                ms == room.messages@.skip(start as int),
                relays(out@, ms.take(i - start)),
            decreases n - i,
        {
            let m = &room.messages[i];
            out.push(BroadcastChatMessage::new(m.seq_num, m.player_name.clone(), m.message.clone()));
            proof {
                assert(ms.take(i + 1 - start) =~= ms.take(i - start).push(room.messages@[i as int]));
            }
            i = i + 1;
        }
        proof {
            assert(ms.take(n - start) =~= ms);
        }
        Some(out)
    }

    /// A heartbeat for every player, in order, each to its address.
    pub fn send_heartbeats(&self) -> (r: Vec<(Packet, A)>)
        where A: Copy,
        ensures
            r@.len() == self.players@.len(),
            forall|i: int| 0 <= i < self.players@.len() ==> is_heartbeat((#[trigger] r@[i]).0) && r@[i].1 == self.players@[i].addr,
    {
        let mut out: Vec<(Packet, A)> = Vec::new();
        let mut i: usize = 0;
        while i < self.players.len()
            invariant
                i <= self.players@.len(),
                out@.len() == i,
                forall|j: int| 0 <= j < i ==> is_heartbeat((#[trigger] out@[j]).0) && out@[j].1 == self.players@[j].addr,
            decreases self.players@.len() - i,
        {
            out.push((Packet::Response { sequence: 0, request_ack: None, code: ResponseCode::KeepAlive }, self.players[i].addr));
            i = i + 1;
        }
        out
    }
    /// The chat messages each player of `room` among `ids` is to be sent, in order: the
    /// players in a game that have some they have not acknowledged.
    pub open spec fn room_updates(self, room: Room, ids: Seq<PlayerID>) -> Seq<(A, Seq<ServerChatMessage>)>
        decreases ids.len(),
    {
        if ids.len() == 0 {
            Seq::empty()
        } else {
            let rest = self.room_updates(room, ids.drop_last());
            let id = ids.last();
            let ms = unacknowledged(room.messages@, self.player(id).get_confirmed_chat_seq_num_spec());
            if self.in_game(id) && ms.len() > 0 { rest.push((self.player(id).addr, ms)) } else { rest }
        }
    }

    /// The chat messages to send, room by room (in order) for the rooms with messages and
    /// players.
    pub open spec fn all_updates(self, rooms: Seq<Room>) -> Seq<(A, Seq<ServerChatMessage>)>
        decreases rooms.len(),
    {
        if rooms.len() == 0 {
            Seq::empty()
        } else {
            let room = rooms.last();
            self.all_updates(rooms.drop_last()) + if room.messages@.len() == 0 || room.player_ids@.len() == 0 {
                Seq::empty()
            } else {
                self.room_updates(room, room.player_ids@)
            }
        }
    }

    /// An update for every player with chat messages to receive (see `all_updates`), each
    /// with the player's address; none when there is nothing to send.
    pub fn construct_client_updates(&self) -> (r: Option<Vec<(A, Packet)>>)
        where A: Copy,
        requires
            self.wf(),
        ensures
            ({
                let u = self.all_updates(self.rooms@);
                if u.len() == 0 {
                    r is None
                } else {
                    r matches Some(v) && v@.len() == u.len()
                        && forall|k: int| 0 <= k < u.len() ==> (#[trigger] v@[k]).0 == u[k].0 && chat_update(v@[k].1, u[k].1)
                }
            }),
    {
        let mut out: Vec<(A, Packet)> = Vec::new();
        let mut i: usize = 0;
        while i < self.rooms.len()
            invariant
                self.wf(),
                i <= self.rooms@.len(),
                out@.len() == self.all_updates(self.rooms@.take(i as int)).len(),
                forall|k: int| 0 <= k < out@.len() ==> (#[trigger] out@[k]).0 == self.all_updates(self.rooms@.take(i as int))[k].0
                    && chat_update(out@[k].1, self.all_updates(self.rooms@.take(i as int))[k].1),
            decreases self.rooms@.len() - i,
        {
            let room = &self.rooms[i];
            let ghost u0 = self.all_updates(self.rooms@.take(i as int));
            proof {
                assert(self.rooms@.take(i + 1).drop_last() =~= self.rooms@.take(i as int));
                assert(self.rooms@.take(i + 1).last() == self.rooms@[i as int]);
            }
            if room.messages.len() == 0 || room.player_ids.len() == 0 {
                proof {
                    assert(self.all_updates(self.rooms@.take(i + 1)) =~= u0);
                }
            } else {
                let ghost base = out@;
                let mut j: usize = 0;
                while j < room.player_ids.len()
                    invariant
                        self.wf(),
                        i < self.rooms@.len(),
                        *room == self.rooms@[i as int],
                        room.messages@.len() > 0,
                        j <= room.player_ids@.len(),
                        base.len() == u0.len(),
                        out@.len() == base.len() + self.room_updates(*room, room.player_ids@.take(j as int)).len(),
                        out@.take(base.len() as int) == base,
                        forall|k: int| 0 <= k < base.len() ==> (#[trigger] base[k]).0 == u0[k].0 && chat_update(base[k].1, u0[k].1),
                        forall|k: int| 0 <= k < self.room_updates(*room, room.player_ids@.take(j as int)).len() ==>
                            (#[trigger] out@[base.len() + k]).0 == self.room_updates(*room, room.player_ids@.take(j as int))[k].0
                            && chat_update(out@[base.len() + k].1, self.room_updates(*room, room.player_ids@.take(j as int))[k].1),
                    decreases room.player_ids@.len() - j,
                {
                    let id = room.player_ids[j];
                    let ghost ru0 = self.room_updates(*room, room.player_ids@.take(j as int));
                    proof {
                        assert(room.player_ids@.take(j + 1).drop_last() =~= room.player_ids@.take(j as int));
                        assert(room.player_ids@.take(j + 1).last() == id);
                    }
                    match self.player_index(id) {
                        None => {
                            proof { assert(self.room_updates(*room, room.player_ids@.take(j + 1)) =~= ru0); }
                        },
                        Some(pi) => {
                            let player = &self.players[pi];
                            if player.game_info.is_none() {
                                proof { assert(self.room_updates(*room, room.player_ids@.take(j + 1)) =~= ru0); }
                            } else {
                                proof {
                                    assert(self.in_game(self.rooms@[i as int].player_ids@[j as int]));
                                }
                                match self.collect_unacknowledged_messages(room, player) {
                                    None => {
                                        proof { assert(self.room_updates(*room, room.player_ids@.take(j + 1)) =~= ru0); }
                                    },
                                    Some(chats) => {
                                        let ghost o0 = out@;
                                        let update = Packet::Update {
                                            chats,
                                            game_update_seq: None,
                                            game_updates: Vec::new(),
                                            universe_update: UniUpdate::NoChange,
                                            ping: PingPong { nonce: random_nonce() },
                                        };
                                        out.push((player.addr, update));
                                        proof {
                                            let ru1 = self.room_updates(*room, room.player_ids@.take(j + 1));
                                            assert(ru1 =~= ru0.push((self.player(id).addr, unacknowledged(room.messages@,
                                                self.player(id).get_confirmed_chat_seq_num_spec()))));
                                            assert(out@.take(base.len() as int) =~= base) by {
                                                assert(o0.take(base.len() as int) =~= base);
                                            }
                                            assert forall|k: int| 0 <= k < ru1.len() implies
                                                (#[trigger] out@[base.len() + k]).0 == ru1[k].0 && chat_update(out@[base.len() + k].1, ru1[k].1) by {
                                                if k < ru0.len() { assert(out@[base.len() + k] == o0[base.len() + k]); }
                                            }
                                        }
                                    },
                                }
                            }
                        },
                    }
                    j = j + 1;
                }
                proof {
                    assert(room.player_ids@.take(room.player_ids@.len() as int) =~= room.player_ids@);
                    let u1 = self.all_updates(self.rooms@.take(i + 1));
                    let ru = self.room_updates(*room, room.player_ids@);
                    assert(u1 =~= u0 + ru);
                    assert forall|k: int| 0 <= k < u1.len() implies (#[trigger] out@[k]).0 == u1[k].0 && chat_update(out@[k].1, u1[k].1) by {
                        if k < base.len() {
                            assert(out@[k] == out@.take(base.len() as int)[k]);
                        } else {
                            assert(out@[base.len() + (k - base.len())] == out@[k]);
                        }
                    }
                }
            }
            i = i + 1;
        }
        proof {
            assert(self.rooms@.take(self.rooms@.len() as int) =~= self.rooms@);
        }
        if out.len() == 0 {
            None
        } else {
            Some(out)
        }
    }
    /// Forgets, in every room with players and messages, the messages older than
    /// `MAX_AGE_CHAT_MESSAGES` seconds at `current_timestamp`.
    pub fn expire_old_messages_in_all_rooms(&mut self, current_timestamp: std::time::Instant)
        requires
            old(self).wf(),
        ensures
            final(self).wf(),
            final(self).rooms@.len() == old(self).rooms@.len(),
            forall|i: int| 0 <= i < old(self).rooms@.len()
                ==> expired(old(self).rooms@[i], #[trigger] final(self).rooms@[i], current_timestamp),
            final(self).tick == old(self).tick,
            final(self).players == old(self).players,
            final(self).player_map == old(self).player_map,
            final(self).room_map == old(self).room_map,
            final(self).network_map == old(self).network_map,
    {
        let ghost rs0 = self.rooms@;
        let mut i: usize = 0;
        while i < self.rooms.len()
            invariant
                i <= self.rooms@.len(),
                self.rooms@.len() == rs0.len(),
                rs0 == old(self).rooms@,
                forall|k: int| 0 <= k < i ==> expired(rs0[k], #[trigger] self.rooms@[k], current_timestamp),
                forall|k: int| i <= k < rs0.len() ==> #[trigger] self.rooms@[k] == rs0[k],
                self.tick == old(self).tick,
                self.players == old(self).players,
                self.player_map == old(self).player_map,
                self.room_map == old(self).room_map,
                self.network_map == old(self).network_map,
            decreases rs0.len() - i,
        {
            if self.rooms[i].has_players() && self.rooms[i].messages.len() > 0 {
                let ghost ms = self.rooms@[i as int].messages@;
                let ghost rb = self.rooms@;
                let n = self.rooms[i].messages.len();
                let mut k: usize = 0;
                while k < n
                    invariant
                        i < self.rooms@.len(),
                        k <= n,
                        n == ms.len(),
                        self.rooms@.len() == rb.len(),
                        forall|j: int| 0 <= j < rb.len() && j != i ==> #[trigger] self.rooms@[j] == rb[j],
                        same_room_fields(rb[i as int], self.rooms@[i as int]),
                        self.rooms@[i as int].player_ids == rb[i as int].player_ids,
                        self.rooms@[i as int].latest_seq_num == rb[i as int].latest_seq_num,
                        self.rooms@[i as int].messages@ == ms.skip(k as int) + recent_messages(ms.take(k as int), current_timestamp),
                        self.tick == old(self).tick,
                        self.players == old(self).players,
                        self.player_map == old(self).player_map,
                        self.room_map == old(self).room_map,
                        self.network_map == old(self).network_map,
                    decreases n - k,
                {
                    let ghost cur = self.rooms@[i as int].messages@;
                    let m = self.rooms[i].messages.pop_front().unwrap();
                    proof {
                        assert(m == ms[k as int]);
                        assert(ms.take(k + 1).drop_last() =~= ms.take(k as int));
                        assert(ms.take(k + 1).last() == ms[k as int]);
                    }
                    let age = gap_nanos(&current_timestamp, &m.timestamp);
                    if age < (MAX_AGE_CHAT_MESSAGES as u128) * 1_000_000_000 {
                        self.rooms[i].messages.push_back(m);
                    }
                    proof {
                        assert(self.rooms@[i as int].messages@ =~= ms.skip(k + 1) + recent_messages(ms.take(k + 1), current_timestamp));
                    }
                    k = k + 1;
                }
                proof {
                    assert(ms.skip(n as int) =~= Seq::<ServerChatMessage>::empty());
                    assert(ms.take(n as int) =~= ms);
                    assert(self.rooms@[i as int].messages@ =~= recent_messages(ms, current_timestamp));
                }
            }
            i = i + 1;
        }
        proof {
            assert forall|a: int, b: int| 0 <= a < b < self.rooms@.len()
                implies (#[trigger] self.rooms@[a]).room_id != (#[trigger] self.rooms@[b]).room_id by {
                assert(rs0[a].room_id != rs0[b].room_id);
            }
        }
    }
    /// A server with no player and one empty room, `general`.
    pub fn new() -> (r: Self)
        ensures
            r.wf(),
            r.tick == 0,
            r.players@.len() == 0,
            r.player_map@.len() == 0,
            r.network_map@.len() == 0,
            r.rooms@.len() == 1,
            r.rooms@[0].name@ == "general"@,
            r.rooms@[0].player_ids@.len() == 0,
            !r.rooms@[0].game_running,
            r.rooms@[0].latest_seq_num == 0,
            r.rooms@[0].messages@.len() == 0,
            r.room_map@.len() == 1,
            r.room_map@[0].0@ == "general"@,
            r.room_map@[0].1 == r.rooms@[0].room_id,
    {
        let mut server_state = ServerState {
            tick: 0,
            players: Vec::new(),
            player_map: Vec::new(),
            rooms: Vec::new(),
            room_map: Vec::new(),
            network_map: Vec::new(),
        };
        let ghost s0 = server_state;
        let id = server_state.new_room(String::from_str("general"));
        proof {
            let room = choose|room: Room| {
                &&& room.room_id == id
                &&& room.name@ == "general"@
                &&& room.player_ids@.len() == 0
                &&& !room.game_running
                &&& room.universe == 0
                &&& room.latest_seq_num == 0
                &&& room.messages@.len() == 0
                &&& #[trigger] room_set(s0.rooms@, server_state.rooms@, room)
            };
            assert(!exists|i: int| room_at(s0.rooms@, room.room_id, i));
            assert(server_state.rooms@ =~= seq![room]);
        }
        server_state
    }

    /// Takes `packet` from `addr` (see `decode_packet`) and returns the answer to send, if any,
    /// to `addr`; a refused packet gets no answer.
    pub fn process_packet(&mut self, packet: Packet, addr: A) -> (out: Vec<(Packet, A)>)
        where A: Copy,
        requires
            old(self).wf(),
            old(self).decodable(packet),
        ensures
            final(self).wf(),
            exists|r: Result<Option<Packet>, DecodeError>| #[trigger] old(self).decode_outcome(*final(self), addr, packet, r)
                && out@ == match r {
                    Ok(Some(p)) => seq![(p, addr)],
                    _ => Seq::empty(),
                },
    {
        let r = self.decode_packet(addr, packet);
        let mut out: Vec<(Packet, A)> = Vec::new();
        match r {
            Ok(Some(p)) => {
                out.push((p, addr));
                proof {
                    assert(out@ =~= seq![(p, addr)]);
                    assert(old(self).decode_outcome(*self, addr, packet, Ok::<Option<Packet>, DecodeError>(Some(p))));
                }
            },
            _ => {
                proof {
                    assert(out@ =~= Seq::<(Packet, A)>::empty());
                    assert(old(self).decode_outcome(*self, addr, packet, r));
                }
            },
        }
        out
    }
    /// Request `action` of player `id` can be carried out, answered and its answer buffered
    /// without failing.
    pub open spec fn step_safe(self, id: PlayerID, action: RequestAction) -> bool {
        &&& !(action is Connect)
        &&& !(action is KeepAlive)
        &&& self.request_allowed(id, action)
        &&& self.can_answer(id)
        &&& self.can_buffer_response(id)
    }

    /// Whether `step_safe` holds.
    pub fn is_step_safe(&self, id: PlayerID, action: &RequestAction) -> (r: bool)
        requires
            self.wf(),
        ensures
            r == self.step_safe(id, *action),
    {
        let pi = self.player_index(id);
        let has_player = pi.is_some();
        // the player's room can take one more message
        let can_announce = match pi {
            None => true,
            Some(i) => match self.players[i].game_info {
                None => true,
                Some(g) => match self.room_index(g.room_id) {
                    None => false,
                    Some(ri) => self.rooms[ri].latest_seq_num < u64::MAX,
                },
            },
        };
        let allowed = match action {
            RequestAction::Disconnect => has_player && can_announce,
            RequestAction::ListPlayers => has_player,
            RequestAction::ChatMessage { .. } => can_announce,
            RequestAction::JoinRoom { .. } => has_player,
            _ => true,
        };
        let kind_ok = match action {
            RequestAction::Connect { .. } => false,
            RequestAction::KeepAlive { .. } => false,
            _ => true,
        };
        let (can_answer, can_buffer) = match pi {
            None => (true, true),
            Some(i) => {
                let p = &self.players[i];
                let answer = match p.request_ack {
                    Some(a) => a < u64::MAX && p.next_resp_seq < u64::MAX,
                    None => false,
                };
                let buffer = match self.network_index(id) {
                    None => true,
                    Some(k) => {
                        let tx = &self.network_map[k].1.tx_packets;
                        proof {
                            assert(all_sequenced(self.network_map@[k as int].1.tx_packets.queue@));
                        }
                        let wrap_ok = match tx.buffer_wrap_index {
                            Some(w) => w < usize::MAX,
                            None => true,
                        };
                        !tx.buffer_would_abort(p.next_resp_seq) && wrap_ok
                    },
                };
                (answer, buffer)
            },
        };
        kind_ok && allowed && can_answer && can_buffer
    }

    /// Request `action` of player `id` was carried out, answered, and its answer buffered:
    /// `new` from `self`.
    pub open spec fn answered(self, new: Self, id: PlayerID, action: RequestAction) -> bool {
        exists|mid: Self, resp: Option<Packet>| #[trigger] self.prepare_outcome(mid, id, action, resp)
            && mid.tx_outcome(new, id, resp)
    }

    /// `states` are the states from `self` on as requests `actions` of player `id` were
    /// answered one after the other.
    pub open spec fn request_chain(self, id: PlayerID, actions: Seq<RequestAction>, states: Seq<Self>) -> bool {
        &&& states.len() == actions.len() + 1
        &&& states[0] == self
        &&& forall|j: int| 0 <= j < actions.len() ==> #[trigger] states[j].answered(states[j + 1], id, actions[j])
    }

    /// What processing the buffered requests of player `id` does (see
    /// `process_queued_rx_packets`).
    pub open spec fn queued_outcome(self, new: Self, id: PlayerID) -> bool {
        let latest: u64 = match self.player(id).request_ack { Some(a) => a, None => 0 };
        if !self.has_network(id) || latest == u64::MAX {
            new == self
        } else {
            let q = self.network(id).rx_packets.queue@;
            exists|n: nat, k: nat, s1: Self, states: Seq<Self>| {
                &&& n <= q.len()
                &&& contiguous_from(q, (latest + 1) as u64, n as int)
                &&& (n < q.len() ==> crate::net::packet_seq(q[n as int]) != latest + 1 + n)
                &&& k <= n
                &&& #[trigger] self.rx_taken_state(s1, id, n)
                &&& #[trigger] s1.request_chain(id, actions_of(q.take(k as int)), states)
                &&& forall|j: int| 0 <= j < k ==> (#[trigger] q[j]) is Request
                &&& new == states.last()
                &&& k < n ==> !(q[k as int] is Request) || !states.last().step_safe(id, q[k as int]->Request_action)
            }
        }
    }

    /// `new` is `self` with the `n` oldest received packets of player `id` taken out.
    pub open spec fn rx_taken_state(self, new: Self, id: PlayerID, n: nat) -> bool {
        &&& exists|k: int| #[trigger] network_at(self.network_map@, id, k) && networks_but(self.network_map@, new.network_map@, k)
            && new.network_map@[k].0 == id && rx_taken(self.network_map@[k].1, new.network_map@[k].1, n)
        &&& new.tick == self.tick
        &&& new.players == self.players
        &&& new.player_map == self.player_map
        &&& new.rooms == self.rooms
        &&& new.room_map == self.room_map
    }

    /// No received packet of player `id` is numbered `u64::MAX`.
    pub open spec fn rx_numbers_fit(self, id: PlayerID) -> bool {
        self.has_network(id) ==> forall|j: int| 0 <= j < self.network(id).rx_packets.queue@.len()
            ==> crate::net::packet_seq(#[trigger] self.network(id).rx_packets.queue@[j]) < u64::MAX
    }

    /// Processes, in order, the buffered requests of player `player_id` that follow the last
    /// one processed without a gap; they are taken out of the buffer. A request that cannot
    /// be processed without failing (see `step_safe`) ends the processing.
    pub fn process_queued_rx_packets(&mut self, player_id: PlayerID)
        requires
            old(self).wf(),
            old(self).has_player(player_id),
            old(self).rx_numbers_fit(player_id),
        ensures
            final(self).wf(),
            old(self).queued_outcome(*final(self), player_id),
    {
        let latest: u64 = match self.get_player(player_id).request_ack {
            Some(a) => a,
            None => 0,
        };
        let k = match self.network_index(player_id) {
            None => return,
            Some(k) => k,
        };
        if latest == u64::MAX {
            return;
        }
        let ghost s0 = *self;
        let ghost q = self.network_map@[k as int].1.rx_packets.queue@;
        proof {
            assert(all_sequenced(q));
        }
        let count = self.network_map[k].1.rx_packets.get_contiguous_packets_count(latest + 1);
        let mut processable: Vec<Packet> = Vec::new();
        let mut d: usize = 0;
        let ghost m0 = self.network_map@;
        proof {
            assert(q.skip(0) =~= q);
        }
        while d < count
            invariant
                d <= count <= q.len(),
                k < self.network_map@.len(),
                m0 == s0.network_map@,
                q == m0[k as int].1.rx_packets.queue@,
                networks_but(m0, self.network_map@, k as int),
                self.network_map@[k as int].0 == player_id,
                rx_taken(m0[k as int].1, self.network_map@[k as int].1, d as nat),
                processable@ == q.take(d as int),
                self.tick == s0.tick,
                self.players == s0.players,
                self.player_map == s0.player_map,
                self.rooms == s0.rooms,
                self.room_map == s0.room_map,
            decreases count - d,
        {
            let ghost before = self.network_map@[k as int].1.rx_packets.queue@;
            let packet = self.network_map[k].1.rx_packets.queue.pop_front().unwrap();
            proof {
                assert(packet == q[d as int]);
                assert(self.network_map@[k as int].1.rx_packets.queue@ =~= q.skip(d + 1));
                assert(q.take(d + 1) =~= q.take(d as int).push(packet));
            }
            processable.push(packet);
            d = d + 1;
        }
        let ghost s1 = *self;
        proof {
            assert(network_at(m0, player_id, k as int));
            assert(s0.rx_taken_state(s1, player_id, count as nat));
            assert forall|a: int, b: int| 0 <= a < b < self.network_map@.len()
                implies (#[trigger] self.network_map@[a]).0 != (#[trigger] self.network_map@[b]).0 by {
                assert(m0[a].0 != m0[b].0);
            }
            assert forall|j: int| 0 <= j < self.network_map@.len() implies {
                &&& all_sequenced((#[trigger] self.network_map@[j]).1.tx_packets.queue@)
                &&& all_sequenced(self.network_map@[j].1.rx_packets.queue@)
            } by {
                if j != k {
                    assert(self.network_map@[j] == m0[j]);
                } else {
                    assert forall|x: int| 0 <= x < self.network_map@[j].1.rx_packets.queue@.len()
                        implies #[trigger] self.network_map@[j].1.rx_packets.queue@[x].has_sequence() by {
                        assert(self.network_map@[j].1.rx_packets.queue@[x] == q[x + count]);
                    }
                }
            }
            assert forall|a: int| 0 <= a < self.players@.len()
                implies self.has_network((#[trigger] self.players@[a]).player_id) by {
                let c = choose|j: int| network_at(m0, self.players@[a].player_id, j);
                assert(network_at(self.network_map@, self.players@[a].player_id, c));
            }
            assert(actions_of(q.take(0)) =~= Seq::<RequestAction>::empty());
            assert(s1.request_chain(player_id, actions_of(q.take(0)), seq![s1]));
        }
        let ghost mut states: Seq<Self> = seq![s1];
        let mut j: usize = 0;
        while j < count
            invariant_except_break
                processable@ == q.take(count as int).skip(j as int),
            invariant
                self.wf(),
                j <= count <= q.len(),
                latest < u64::MAX,
                contiguous_from(q, (latest + 1) as u64, count as int),
                states.len() == j + 1,
                states.last() == *self,
                forall|i: int| 0 <= i < j ==> (#[trigger] q[i]) is Request,
                s1.request_chain(player_id, actions_of(q.take(j as int)), states),
            ensures
                self.wf(),
                j <= count,
                states.len() == j + 1,
                states.last() == *self,
                forall|i: int| 0 <= i < j ==> (#[trigger] q[i]) is Request,
                s1.request_chain(player_id, actions_of(q.take(j as int)), states),
                j < count ==> !(q[j as int] is Request) || !states.last().step_safe(player_id, q[j as int]->Request_action),
            decreases count - j,
        {
            let packet = processable.remove(0);
            proof {
                assert(packet == q[j as int]);
                assert(processable@ =~= q.take(count as int).skip(j + 1));
                assert(q[j as int].seq_of() == latest + 1 + j);
                assert(crate::net::packet_seq(q[j as int]) == latest + 1 + j);
            }
            match packet {
                Packet::Request { sequence, action, .. } => {
                    if !(sequence > latest) {
                        break;
                    }
                    if !self.is_step_safe(player_id, &action) {
                        break;
                    }
                    let ghost before = *self;
                    let ghost act = action;
                    let _ = self.process_player_request_action(player_id, action);
                    proof {
                        assert(before.answered(*self, player_id, act));
                        let ghost old_states = states;
                        states = states.push(*self);
                        assert(actions_of(q.take(j + 1)) =~= actions_of(q.take(j as int)).push(act));
                        assert forall|i: int| 0 <= i < j + 1 implies #[trigger] states[i].answered(states[i + 1], player_id,
                            actions_of(q.take(j + 1))[i]) by {
                            if i < j {
                                assert(states[i] == old_states[i]);
                                assert(states[i + 1] == old_states[i + 1]);
                                assert(actions_of(q.take(j + 1))[i] == actions_of(q.take(j as int))[i]);
                            }
                        }
                    }
                },
                _ => {
                    break;
                },
            }
            j = j + 1;
        }
        proof {
            assert(s0.queued_outcome(*self, player_id)) by {
                assert(q.take(j as int).len() == j);
            }
        }
    }
    /// One step of processing the buffered requests of player `id`: done when the player is
    /// there and its buffered numbers fit (see `process_queued_rx_packets`), skipped otherwise.
    pub open spec fn queued_step(self, new: Self, id: PlayerID) -> bool {
        if self.has_player(id) && self.rx_numbers_fit(id) { self.queued_outcome(new, id) } else { new == self }
    }

    /// `states` are the states from `self` on as the buffered requests of the players `ids`
    /// were processed, one player after the other.
    pub open spec fn queued_chain(self, ids: Seq<PlayerID>, states: Seq<Self>) -> bool {
        &&& states.len() == ids.len() + 1
        &&& states[0] == self
        &&& forall|j: int| 0 <= j < ids.len() ==> #[trigger] states[j].queued_step(states[j + 1], ids[j])
    }

    fn rx_numbers_ok(&self, id: PlayerID) -> (r: bool)
        requires
            self.wf(),
        ensures
            r == self.rx_numbers_fit(id),
    {
        match self.network_index(id) {
            None => true,
            Some(k) => {
                let q = &self.network_map[k].1.rx_packets.queue;
                proof {
                    assert(all_sequenced(q@));
                }
                let mut i: usize = 0;
                while i < q.len()
                    invariant
                        all_sequenced(q@),
                        self.has_network(id),
                        q@ == self.network(id).rx_packets.queue@,
                        i <= q@.len(),
                        forall|j: int| 0 <= j < i ==> crate::net::packet_seq(#[trigger] q@[j]) < u64::MAX,
                    decreases q@.len() - i,
                {
                    proof { assert(q@[i as int].has_sequence()); }
                    if q[i].sequence_number() == u64::MAX {
                        proof {
                            assert(crate::net::packet_seq(self.network(id).rx_packets.queue@[i as int]) == u64::MAX);
                        }
                        return false;
                    }
                    i = i + 1;
                }
                true
            },
        }
    }

    /// Processes the buffered requests of each player of `players_to_update`, in order (see
    /// `queued_step`).
    pub fn process_player_buffered_packets(&mut self, players_to_update: &Vec<PlayerID>)
        requires
            old(self).wf(),
        ensures
            final(self).wf(),
            exists|states: Seq<Self>| #[trigger] old(self).queued_chain(players_to_update@, states)
                && *final(self) == states.last(),
    {
        let ghost mut states: Seq<Self> = seq![*self];
        let mut j: usize = 0;
        while j < players_to_update.len()
            invariant
                self.wf(),
                j <= players_to_update@.len(),
                states.len() == j + 1,
                states[0] == *old(self),
                states.last() == *self,
                forall|i: int| 0 <= i < j ==> #[trigger] states[i].queued_step(states[i + 1], players_to_update@[i]),
            decreases players_to_update@.len() - j,
        {
            proof {
                assert(states[j as int] == *self);
            }
            let id = players_to_update[j];
            let ghost before = *self;
            if self.is_player_in_game(id) || self.player_index(id).is_some() {
                if self.rx_numbers_ok(id) {
                    self.process_queued_rx_packets(id);
                }
            }
            proof {
                let old_states = states;
                states = states.push(*self);
                assert forall|i: int| 0 <= i < j + 1 implies #[trigger] states[i].queued_step(states[i + 1], players_to_update@[i]) by {
                    if i < j {
                        assert(states[i] == old_states[i] && states[i + 1] == old_states[i + 1]);
                    }
                }
            }
            j = j + 1;
        }
        proof {
            assert(old(self).queued_chain(players_to_update@, states));
        }
    }

    /// The identifiers of the players of `ps` in the lobby, in order.
    pub open spec fn lobby_ids(ps: Seq<Player<A>>) -> Seq<PlayerID>
        decreases ps.len(),
    {
        if ps.len() == 0 {
            Seq::empty()
        } else {
            let rest = Self::lobby_ids(ps.drop_last());
            if ps.last().game_info is None { rest.push(ps.last().player_id) } else { rest }
        }
    }

    /// Processes the buffered requests of the players in the lobby, in order.
    pub fn process_buffered_packets_in_lobby(&mut self)
        requires
            old(self).wf(),
        ensures
            final(self).wf(),
            exists|states: Seq<Self>| #[trigger] old(self).queued_chain(Self::lobby_ids(old(self).players@), states)
                && *final(self) == states.last(),
    {
        let mut ids: Vec<PlayerID> = Vec::new();
        let mut i: usize = 0;
        while i < self.players.len()
            invariant
                i <= self.players@.len(),
                ids@ == Self::lobby_ids(self.players@.take(i as int)),
            decreases self.players@.len() - i,
        {
            proof {
                assert(self.players@.take(i + 1).drop_last() =~= self.players@.take(i as int));
            }
            if self.players[i].game_info.is_none() {
                ids.push(self.players[i].player_id);
            }
            i = i + 1;
        }
        proof {
            assert(self.players@.take(self.players@.len() as int) =~= self.players@);
        }
        if ids.len() != 0 {
            self.process_player_buffered_packets(&ids);
        } else {
            proof {
                assert(self.queued_chain(ids@, seq![*self]));
            }
        }
    }

    /// The identifiers of the players listed in rooms `rs` that are there and in a game: room
    /// by room, in order.
    pub open spec fn room_player_ids(self, rs: Seq<Room>) -> Seq<PlayerID>
        decreases rs.len(),
    {
        if rs.len() == 0 {
            Seq::empty()
        } else {
            self.room_player_ids(rs.drop_last()) + self.present_in_game(rs.last().player_ids@)
        }
    }

    /// The identifiers of `ids` whose players are there and in a game, in order.
    pub open spec fn present_in_game(self, ids: Seq<PlayerID>) -> Seq<PlayerID>
        decreases ids.len(),
    {
        if ids.len() == 0 {
            Seq::empty()
        } else {
            let rest = self.present_in_game(ids.drop_last());
            if self.in_game(ids.last()) { rest.push(ids.last()) } else { rest }
        }
    }

    /// Processes the buffered requests of the players in the rooms, room by room.
    pub fn process_buffered_packets_in_rooms(&mut self)
        requires
            old(self).wf(),
        ensures
            final(self).wf(),
            exists|states: Seq<Self>| #[trigger] old(self).queued_chain(old(self).room_player_ids(old(self).rooms@), states)
                && *final(self) == states.last(),
    {
        let mut ids: Vec<PlayerID> = Vec::new();
        let mut i: usize = 0;
        while i < self.rooms.len()
            invariant
                self.wf(),
                i <= self.rooms@.len(),
                ids@ == self.room_player_ids(self.rooms@.take(i as int)),
            decreases self.rooms@.len() - i,
        {
            proof {
                assert(self.rooms@.take(i + 1).drop_last() =~= self.rooms@.take(i as int));
            }
            let room = &self.rooms[i];
            let ghost base = ids@;
            let mut j: usize = 0;
            while j < room.player_ids.len()
                invariant
                    self.wf(),
                    i < self.rooms@.len(),
                    *room == self.rooms@[i as int],
                    j <= room.player_ids@.len(),
                    ids@ == base + self.present_in_game(room.player_ids@.take(j as int)),
                decreases room.player_ids@.len() - j,
            {
                proof {
                    assert(room.player_ids@.take(j + 1).drop_last() =~= room.player_ids@.take(j as int));
                }
                let id = room.player_ids[j];
                let ghost before = ids@;
                if self.is_player_in_game(id) {
                    ids.push(id);
                    proof {
                        assert(ids@ =~= base + self.present_in_game(room.player_ids@.take(j + 1)));
                    }
                }
                j = j + 1;
            }
            proof {
                assert(room.player_ids@.take(room.player_ids@.len() as int) =~= room.player_ids@);
            }
            i = i + 1;
        }
        proof {
            assert(self.rooms@.take(self.rooms@.len() as int) =~= self.rooms@);
        }
        if ids.len() != 0 {
            self.process_player_buffered_packets(&ids);
        } else {
            proof {
                assert(self.queued_chain(ids@, seq![*self]));
            }
        }
    }

    /// One step of removing timed-out players: player `id` is disconnected when it is there
    /// and its room can take the announcement; skipped otherwise.
    pub open spec fn disconnect_step(self, new: Self, id: PlayerID) -> bool {
        if self.has_player(id) && self.can_announce(id) {
            self.remove_outcome(new, id, self.player(id).cookie@)
        } else {
            new == self
        }
    }

    /// The players of `ps`, in order, that timed out given the nanoseconds elapsed since each
    /// was last heard from.
    pub open spec fn timed_out_ids(ps: Seq<Player<A>>, elapsed: Seq<u128>) -> Seq<PlayerID>
        decreases ps.len(),
    {
        if ps.len() == 0 || elapsed.len() < ps.len() {
            Seq::empty()
        } else {
            let rest = Self::timed_out_ids(ps.drop_last(), elapsed.drop_last());
            if is_timeout(elapsed.last() as int) { rest.push(ps.last().player_id) } else { rest }
        }
    }

    /// `states` are the states from `self` on as the players that timed out, given the times
    /// `elapsed` since each was last heard from, were disconnected one after the other.
    pub open spec fn disconnect_chain(self, elapsed: Seq<u128>, states: Seq<Self>) -> bool {
        let ids = Self::timed_out_ids(self.players@, elapsed);
        &&& elapsed.len() == self.players@.len()
        &&& states.len() == ids.len() + 1
        &&& states[0] == self
        &&& forall|j: int| 0 <= j < ids.len() ==> #[trigger] states[j].disconnect_step(states[j + 1], ids[j])
    }

    /// Disconnects every player not heard from for longer than the network timeout, reading
    /// the clock once per player.
    pub fn remove_timed_out_clients(&mut self)
        requires
            old(self).wf(),
        ensures
            final(self).wf(),
            exists|elapsed: Seq<u128>, states: Seq<Self>| #[trigger] old(self).disconnect_chain(elapsed, states)
                && *final(self) == states.last(),
    {
        let mut timed_out_players: Vec<PlayerID> = Vec::new();
        let ghost mut elapsed: Seq<u128> = Seq::empty();
        let mut i: usize = 0;
        while i < self.players.len()
            invariant
                *self == *old(self),
                i <= self.players@.len(),
                elapsed.len() == i,
                timed_out_players@ == Self::timed_out_ids(self.players@.take(i as int), elapsed),
            decreases self.players@.len() - i,
        {
            let now = instant_now();
            let e = gap_nanos(&now, &self.players[i].last_received);
            proof {
                assert(self.players@.take(i + 1).drop_last() =~= self.players@.take(i as int));
                assert(elapsed.push(e).drop_last() =~= elapsed);
            }
            if connection_timed_out_after(e) {
                timed_out_players.push(self.players[i].player_id);
            }
            proof {
                elapsed = elapsed.push(e);
            }
            i = i + 1;
        }
        proof {
            assert(self.players@.take(self.players@.len() as int) =~= self.players@);
        }
        let ghost mut states: Seq<Self> = seq![*self];
        let ghost ids0 = timed_out_players@;
        let mut j: usize = 0;
        while j < timed_out_players.len()
            invariant
                self.wf(),
                timed_out_players@ == ids0,
                ids0 == Self::timed_out_ids(old(self).players@, elapsed),
                elapsed.len() == old(self).players@.len(),
                j <= timed_out_players@.len(),
                states.len() == j + 1,
                states[0] == *old(self),
                states.last() == *self,
                forall|k: int| 0 <= k < j ==> #[trigger] states[k].disconnect_step(states[k + 1], timed_out_players@[k]),
            decreases timed_out_players@.len() - j,
        {
            let id = timed_out_players[j];
            if self.player_index(id).is_some() && self.is_step_announceable(id) {
                let _ = self.handle_disconnect(id);
            }
            proof {
                let old_states = states;
                states = states.push(*self);
                assert forall|k: int| 0 <= k < j + 1 implies #[trigger] states[k].disconnect_step(states[k + 1], timed_out_players@[k]) by {
                    if k < j {
                        assert(states[k] == old_states[k] && states[k + 1] == old_states[k + 1]);
                    }
                }
            }
            j = j + 1;
        }
        proof {
            assert(old(self).disconnect_chain(elapsed, states));
        }
    }

    fn is_step_announceable(&self, id: PlayerID) -> (r: bool)
        requires
            self.wf(),
        ensures
            r == self.can_announce(id),
    {
        match self.player_index(id) {
            None => true,
            Some(i) => match self.players[i].game_info {
                None => true,
                Some(g) => match self.room_index(g.room_id) {
                    None => false,
                    Some(ri) => self.rooms[ri].latest_seq_num < u64::MAX,
                },
            },
        }
    }
    /// One step of collecting retransmissions: the packets of player `id` due for
    /// retransmission (selected by the clock, see `NetQueue::get_retransmit_indices`) are
    /// retransmitted to its address with its acknowledgement, when it has some queued and
    /// this cannot fail; `out` is what is sent.
    pub open spec fn expiry_step(self, new: Self, id: PlayerID, out: Seq<(Packet, A)>) -> bool {
        if self.has_player(id) && self.has_network(id) && self.network(id).tx_packets.queue@.len() > 0 {
            exists|indices: Seq<usize>, elapsed: Seq<u128>| {
                &&& #[trigger] retransmit_selection(self.network(id).tx_packets.attempts@, elapsed, indices)
                &&& if expiry_safe(self.network(id), indices) {
                    &&& exists|k: int| #[trigger] network_at(self.network_map@, id, k) && networks_but(self.network_map@, new.network_map@, k)
                        && new.network_map@[k].0 == id
                        && expired_outcome(self.network_map@[k].1, new.network_map@[k].1, self.player(id).addr,
                            self.player(id).request_ack, indices, out)
                    &&& new.tick == self.tick
                    &&& new.players == self.players
                    &&& new.player_map == self.player_map
                    &&& new.rooms == self.rooms
                    &&& new.room_map == self.room_map
                } else {
                    new == self && out.len() == 0
                }
            }
        } else {
            new == self && out.len() == 0
        }
    }

    /// `states` and `outs` are the states and retransmissions from `self` on as the players
    /// `ids` were visited one after the other.
    pub open spec fn expiry_chain(self, ids: Seq<PlayerID>, states: Seq<Self>, outs: Seq<Seq<(Packet, A)>>) -> bool {
        &&& states.len() == ids.len() + 1
        &&& outs.len() == ids.len()
        &&& states[0] == self
        &&& forall|j: int| 0 <= j < ids.len() ==> #[trigger] states[j].expiry_step(states[j + 1], ids[j], outs[j])
    }

    /// The identifiers of the players of `ps`, in order.
    pub open spec fn ids_of(ps: Seq<Player<A>>) -> Seq<PlayerID> {
        ps.map_values(|p: Player<A>| p.player_id)
    }

    /// The retransmissions due to every player, player by player (see `expiry_step`).
    pub fn collect_expired_tx_packets(&mut self) -> (out: Vec<(Packet, A)>)
        where A: Copy,
        requires
            old(self).wf(),
        ensures
            final(self).wf(),
            exists|states: Seq<Self>, outs: Seq<Seq<(Packet, A)>>|
                #[trigger] old(self).expiry_chain(Self::ids_of(old(self).players@), states, outs)
                && *final(self) == states.last() && out@ == flatten(outs),
    {
        let mut ids: Vec<PlayerID> = Vec::new();
        let mut i: usize = 0;
        while i < self.players.len()
            invariant
                i <= self.players@.len(),
                ids@ == Self::ids_of(self.players@.take(i as int)),
            decreases self.players@.len() - i,
        {
            ids.push(self.players[i].player_id);
            proof {
                assert(Self::ids_of(self.players@.take(i + 1)) =~= Self::ids_of(self.players@.take(i as int)).push(self.players@[i as int].player_id));
            }
            i = i + 1;
        }
        proof {
            assert(self.players@.take(self.players@.len() as int) =~= self.players@);
        }
        let mut out: Vec<(Packet, A)> = Vec::new();
        let ghost mut states: Seq<Self> = seq![*self];
        let ghost mut outs: Seq<Seq<(Packet, A)>> = Seq::empty();
        let mut j: usize = 0;
        while j < ids.len()
            invariant
                self.wf(),
                ids@ == Self::ids_of(old(self).players@),
                j <= ids@.len(),
                states.len() == j + 1,
                outs.len() == j,
                states[0] == *old(self),
                states.last() == *self,
                out@ == flatten(outs),
                forall|k: int| 0 <= k < j ==> #[trigger] states[k].expiry_step(states[k + 1], ids@[k], outs[k]),
            decreases ids@.len() - j,
        {
            let id = ids[j];
            let ghost before = *self;
            let ghost out0 = out@;
            let mut part: Vec<(Packet, A)> = Vec::new();
            if let Some(pi) = self.player_index(id) {
                let addr = self.players[pi].addr;
                let ack = self.players[pi].request_ack;
                if let Some(k) = self.network_index(id) {
                    if self.network_map[k].1.tx_packets.queue.len() > 0 {
                        let indices = self.network_map[k].1.tx_packets.get_retransmit_indices();
                        let ghost el = choose|elapsed: Seq<u128>|
                            retransmit_selection(self.network_map@[k as int].1.tx_packets.attempts@, elapsed, indices@);
                        proof {
                            assert(retransmit_selection(before.network(id).tx_packets.attempts@, el, indices@));
                        }
                        if expiry_is_safe(&self.network_map[k].1, &indices) {
                            let ghost m0 = self.network_map@;
                            part = self.network_map[k].1.get_expired_tx_packets(addr, ack, &indices);
                            proof {
                                assert(networks_but(m0, self.network_map@, k as int));
                                assert(expired_outcome(m0[k as int].1, self.network_map@[k as int].1, addr, ack, indices@, part@));
                                assert(network_at(m0, id, k as int));
                                assert forall|a: int, b: int| 0 <= a < b < self.network_map@.len()
                                    implies (#[trigger] self.network_map@[a]).0 != (#[trigger] self.network_map@[b]).0 by {
                                    assert(m0[a].0 != m0[b].0);
                                }
                                assert forall|x: int| 0 <= x < self.network_map@.len() implies {
                                    &&& all_sequenced((#[trigger] self.network_map@[x]).1.tx_packets.queue@)
                                    &&& all_sequenced(self.network_map@[x].1.rx_packets.queue@)
                                } by {
                                    if x != k {
                                        assert(self.network_map@[x] == m0[x]);
                                    } else {
                                        let oq = m0[x].1.tx_packets.queue@;
                                        let nq = self.network_map@[x].1.tx_packets.queue@;
                                        let stop = choose|stop: int| {
                                            &&& 0 <= stop <= indices@.len()
                                            &&& all_below(indices@, oq.len() as int, stop)
                                            &&& stop < indices@.len() ==> indices@[stop] >= oq.len()
                                            &&& #[trigger] retransmission_outcome(oq, m0[x].1.tx_packets.attempts@,
                                                nq, self.network_map@[x].1.tx_packets.attempts@, indices@, stop, ack)
                                            &&& sent_as(oq, m0[x].1.tx_packets.attempts@, indices@, stop, ack, addr, part@)
                                        };
                                        assert forall|y: int| 0 <= y < nq.len() implies #[trigger] nq[y].has_sequence() by {
                                            assert(oq[y].has_sequence());
                                            assert(nq[y] == oq[y] || nq[y] == packet_with_ack(oq[y], ack));
                                        }
                                        assert(self.network_map@[x].1.rx_packets == m0[x].1.rx_packets);
                                    }
                                }
                                assert forall|a: int| 0 <= a < self.players@.len()
                                    implies self.has_network((#[trigger] self.players@[a]).player_id) by {
                                    let c = choose|y: int| network_at(m0, self.players@[a].player_id, y);
                                    assert(network_at(self.network_map@, self.players@[a].player_id, c));
                                }
                                assert(network_at(before.network_map@, id, k as int));
                                assert(before.expiry_step(*self, id, part@));
                            }
                        } else {
                            proof {
                                assert(before.expiry_step(*self, id, part@));
                            }
                        }
                    } else {
                        proof {
                            assert(before.expiry_step(*self, id, part@));
                        }
                    }
                } else {
                    proof {
                        assert(before.expiry_step(*self, id, part@));
                    }
                }
            } else {
                proof {
                    assert(before.expiry_step(*self, id, part@));
                }
            }
            let ghost p = part@;
            out.append(&mut part);
            proof {
                let old_states = states;
                let old_outs = outs;
                states = states.push(*self);
                outs = outs.push(p);
                assert(outs.drop_last() =~= old_outs);
                assert(flatten(outs) =~= flatten(old_outs) + p);
                assert forall|k: int| 0 <= k < j + 1 implies #[trigger] states[k].expiry_step(states[k + 1], ids@[k], outs[k]) by {
                    if k < j {
                        assert(states[k] == old_states[k] && states[k + 1] == old_states[k + 1] && outs[k] == old_outs[k]);
                    }
                }
            }
            j = j + 1;
        }
        proof {
            assert(old(self).expiry_chain(Self::ids_of(old(self).players@), states, outs));
        }
        out
    }

    /// One network round: the buffered requests of the players in rooms, then those of the
    /// players in the lobby, are processed; then the retransmissions due are collected and
    /// returned.
    pub fn maintain_network_state(&mut self) -> (out: Vec<(Packet, A)>)
        where A: Copy,
        requires
            old(self).wf(),
        ensures
            final(self).wf(),
            exists|rs: Seq<Self>, ls: Seq<Self>, es: Seq<Self>, outs: Seq<Seq<(Packet, A)>>|
                #![trigger old(self).queued_chain(old(self).room_player_ids(old(self).rooms@), rs),
                    rs.last().queued_chain(Self::lobby_ids(rs.last().players@), ls),
                    ls.last().expiry_chain(Self::ids_of(ls.last().players@), es, outs)]
                old(self).queued_chain(old(self).room_player_ids(old(self).rooms@), rs)
                && rs.last().queued_chain(Self::lobby_ids(rs.last().players@), ls)
                && ls.last().expiry_chain(Self::ids_of(ls.last().players@), es, outs)
                && *final(self) == es.last() && out@ == flatten(outs),
    {
        self.process_buffered_packets_in_rooms();
        let ghost s1 = *self;
        self.process_buffered_packets_in_lobby();
        let ghost s2 = *self;
        let out = self.collect_expired_tx_packets();
        proof {
            let rs = choose|states: Seq<Self>| #[trigger] old(self).queued_chain(old(self).room_player_ids(old(self).rooms@), states)
                && s1 == states.last();
            let ls = choose|states: Seq<Self>| #[trigger] s1.queued_chain(Self::lobby_ids(s1.players@), states)
                && s2 == states.last();
            let (es, outs) = choose|states: Seq<Self>, outs: Seq<Seq<(Packet, A)>>|
                #[trigger] s2.expiry_chain(Self::ids_of(s2.players@), states, outs)
                && *self == states.last() && out@ == flatten(outs);
            assert(old(self).queued_chain(old(self).room_player_ids(old(self).rooms@), rs));
            assert(rs.last().queued_chain(Self::lobby_ids(rs.last().players@), ls));
            assert(ls.last().expiry_chain(Self::ids_of(ls.last().players@), es, outs));
        }
        out
    }

    /// `new` and `out` are what one tick of housekeeping gives at instant `now`: `mid` is `self`
    /// with the chat messages too old at `now` forgotten in every room; `out` holds the chat
    /// updates due in `mid` (see `construct_client_updates`); `states` are the states as the
    /// players that timed out were disconnected from `mid` on (see `disconnect_chain`); and
    /// `new` is the last of them with the tick counter advanced by one, wrapping.
    pub open spec fn housekeeping(self, new: Self, out: Seq<(A, Packet)>, now: std::time::Instant, mid: Self,
        elapsed: Seq<u128>, states: Seq<Self>) -> bool {
        &&& mid.rooms@.len() == self.rooms@.len()
        &&& forall|i: int| 0 <= i < self.rooms@.len() ==> expired(self.rooms@[i], #[trigger] mid.rooms@[i], now)
        &&& mid.tick == self.tick
        &&& mid.players == self.players
        &&& mid.player_map == self.player_map
        &&& mid.room_map == self.room_map
        &&& mid.network_map == self.network_map
        &&& out.len() == mid.all_updates(mid.rooms@).len()
        &&& forall|k: int| 0 <= k < out.len() ==> (#[trigger] out[k]).0 == mid.all_updates(mid.rooms@)[k].0
            && chat_update(out[k].1, mid.all_updates(mid.rooms@)[k].1)
        &&& mid.disconnect_chain(elapsed, states)
        &&& new.tick == if states.last().tick == usize::MAX { 0 } else { (states.last().tick + 1) as usize }
        &&& new == (Self { tick: new.tick, ..states.last() })
    }

    /// One tick of housekeeping, reading the clock once for the age of chat messages (see
    /// `housekeeping`). Returns the chat updates to send.
    pub fn garbage_collection(&mut self) -> (out: Vec<(A, Packet)>)
        where A: Copy,
        requires
            old(self).wf(),
        ensures
            final(self).wf(),
            exists|now: std::time::Instant, mid: Self, elapsed: Seq<u128>, states: Seq<Self>|
                #[trigger] old(self).housekeeping(*final(self), out@, now, mid, elapsed, states),
    {
        let now = instant_now();
        self.expire_old_messages_in_all_rooms(now);
        let ghost s1 = *self;
        let updates = match self.construct_client_updates() {
            Some(v) => v,
            None => Vec::new(),
        };
        self.remove_timed_out_clients();
        let ghost s3 = *self;
        self.tick = self.tick.wrapping_add(1);
        proof {
            let (elapsed, states) = choose|elapsed: Seq<u128>, states: Seq<Self>| #[trigger] s1.disconnect_chain(elapsed, states)
                && s3 == states.last();
            assert(*self == (Self { tick: self.tick, ..states.last() }));
            assert(old(self).housekeeping(*self, updates@, now, s1, elapsed, states));
        }
        updates
    }

    /// Whether request `action` of player `id` is allowed (see `request_allowed`).
    fn is_request_allowed(&self, id: PlayerID, action: &RequestAction) -> (r: bool)
        requires
            self.wf(),
        ensures
            r == self.request_allowed(id, *action),
    {
        match action {
            RequestAction::Disconnect => self.player_index(id).is_some() && self.is_step_announceable(id),
            RequestAction::ListPlayers => self.player_index(id).is_some(),
            RequestAction::ChatMessage { .. } => self.is_step_announceable(id),
            RequestAction::JoinRoom { .. } => self.player_index(id).is_some(),
            _ => true,
        }
    }

    /// Whether `packet` can be taken without failing (see `decodable`): the test to make before
    /// `decode_packet` and `process_packet`.
    pub fn can_decode(&self, packet: &Packet) -> (r: bool)
        requires
            self.wf(),
        ensures
            r == self.decodable(*packet),
    {
        match packet {
            Packet::Request { sequence, response_ack, cookie, action } => {
                if matches!(action, RequestAction::Connect { .. }) {
                    return true;
                }
                let c = match cookie {
                    None => return true,
                    Some(c) => c,
                };
                let id = match self.get_player_id_by_cookie(c.as_str()) {
                    None => return true,
                    Some(id) => id,
                };
                let pi = match self.player_index(id) {
                    None => return false,
                    Some(pi) => pi,
                };
                match self.players[pi].request_ack {
                    Some(a) => {
                        if a == u64::MAX {
                            return false;
                        }
                    },
                    None => {},
                }
                if matches!(action, RequestAction::KeepAlive { .. }) {
                    return true;
                }
                if !self.is_request_allowed(id, action) {
                    return false;
                }
                let next = self.players[pi].next_resp_seq;
                if next == u64::MAX {
                    return false;
                }
                proof {
                    assert(self.has_network(self.players@[pi as int].player_id));
                }
                let k = match self.network_index(id) {
                    None => return false,
                    Some(k) => k,
                };
                let nm = &self.network_map[k].1;
                proof {
                    assert(all_sequenced(nm.tx_packets.queue@));
                    assert(all_sequenced(nm.rx_packets.queue@));
                }
                let skip = match response_ack {
                    Some(a) => acked_prefix(&nm.tx_packets.queue, *a),
                    None => 0,
                };
                proof {
                    assert(nm.tx_packets.queue@.skip(0) =~= nm.tx_packets.queue@);
                    assert(self.tx_after_ack(id, *response_ack) == nm.tx_packets.queue@.skip(skip as int));
                }
                if skipped_would_abort(&nm.tx_packets.queue, skip, nm.tx_packets.buffer_wrap_index, next) {
                    return false;
                }
                match nm.tx_packets.buffer_wrap_index {
                    Some(w) => {
                        if w == usize::MAX {
                            return false;
                        }
                    },
                    None => {},
                }
                if nm.rx_packets.buffer_would_abort(*sequence) {
                    return false;
                }
                match nm.rx_packets.buffer_wrap_index {
                    Some(w) => w < usize::MAX,
                    None => true,
                }
            },
            _ => true,
        }
    }
}

} // verus!
