//! The server's players, rooms and chat messages.
use vstd::prelude::*;
use std::collections::VecDeque;
use std::time::Instant;
use crate::time::instant_now;
use crate::utils::PingFilter;
use crate::server::util::new_uuid;

verus! {

/// Main loop tick, in milliseconds.
pub const TICK_INTERVAL_IN_MS: u64 = 10;
/// Interval of network upkeep (retransmissions, buffered requests), in milliseconds.
pub const NETWORK_INTERVAL_IN_MS: u64 = 100;
/// Interval of heartbeats to every player, in milliseconds.
pub const HEARTBEAT_INTERVAL_IN_MS: u64 = 1000;
/// Longest room name, in bytes.
pub const MAX_ROOM_NAME: usize = 16;
/// Most chat messages a room keeps.
pub const MAX_NUM_CHAT_MESSAGES: usize = 128;
/// Age after which a chat message is forgotten, in seconds.
pub const MAX_AGE_CHAT_MESSAGES: usize = 60 * 5;
/// The player identifier of the server itself, author of its broadcasts.
pub const SERVER_PLAYER_ID: u64 = 0xFFFF_FFFF_FFFF_FFFF;

/// A player's identifier.
#[derive(PartialEq, Debug, Clone, Copy, Eq, Hash, Structural)]
pub struct PlayerID(pub u64);

/// A room's identifier.
#[derive(PartialEq, Debug, Clone, Copy, Eq, Hash, Structural)]
pub struct RoomID(pub u64);

/// A player's place in a game: its room, and up to which chat message the client confirmed
/// receipt.
#[derive(PartialEq, Debug, Clone, Copy, Eq, Structural)]
pub struct PlayerInGameInfo {
    pub room_id: RoomID,
    pub chat_msg_seq_num: Option<u64>,
}

/// A connected player; `A` is how its client is addressed.
#[derive(Debug)]
pub struct Player<A> {
    pub player_id: PlayerID,
    pub cookie: String,
    pub addr: A,
    pub name: String,
    /// The last request sequence number processed; the next expected is one more.
    pub request_ack: Option<u64>,
    /// Sequence number of the next response to this player.
    pub next_resp_seq: u64,
    /// `None` while in the lobby.
    pub game_info: Option<PlayerInGameInfo>,
    /// When a packet from this player was last received.
    pub last_received: Instant,
    pub latency_filter: PingFilter,
}

/// `a < b` as `Option`s compare: `None` is below every `Some`.
pub open spec fn option_below(a: Option<u64>, b: Option<u64>) -> bool {
    match (a, b) {
        (None, Some(_)) => true,
        (Some(x), Some(y)) => x < y,
        _ => false,
    }
}

/// The chat confirmation after the client reported `reported`: kept unless none was recorded
/// yet or the report is newer.
pub open spec fn chat_seq_after(current: Option<u64>, reported: Option<u64>) -> Option<u64> {
    if current is None || option_below(current, reported) { reported } else { current }
}

impl<A> Player<A> {
    /// Takes the sequence number for the next response; the following one is one more.
    pub fn increment_response_seq_num(&mut self) -> (seq: u64)
        requires
            old(self).next_resp_seq < u64::MAX,
        ensures
            seq == old(self).next_resp_seq,
            final(self).next_resp_seq == old(self).next_resp_seq + 1,
            final(self).player_id == old(self).player_id,
            final(self).cookie == old(self).cookie,
            final(self).addr == old(self).addr,
            final(self).name == old(self).name,
            final(self).request_ack == old(self).request_ack,
            final(self).game_info == old(self).game_info,
            final(self).last_received == old(self).last_received,
            final(self).latency_filter == old(self).latency_filter,
    {
        let old_seq = self.next_resp_seq;
        self.next_resp_seq = self.next_resp_seq + 1;
        old_seq
    }

    /// Records that the client has the chat messages up to `opt_chat_seq_num`: in a game, the
    /// confirmation is taken when none was recorded yet or it is newer.
    pub fn update_chat_seq_num(&mut self, opt_chat_seq_num: Option<u64>)
        ensures
            final(self).game_info == match old(self).game_info {
                None => None,
                Some(g) => Some(PlayerInGameInfo {
                    room_id: g.room_id,
                    chat_msg_seq_num: chat_seq_after(g.chat_msg_seq_num, opt_chat_seq_num),
                }),
            },
            final(self).player_id == old(self).player_id,
            final(self).cookie == old(self).cookie,
            final(self).addr == old(self).addr,
            final(self).name == old(self).name,
            final(self).request_ack == old(self).request_ack,
            final(self).next_resp_seq == old(self).next_resp_seq,
            final(self).last_received == old(self).last_received,
            final(self).latency_filter == old(self).latency_filter,
    {
        match self.game_info {
            None => {},
            Some(g) => {
                let below = match (g.chat_msg_seq_num, opt_chat_seq_num) {
                    (None, Some(_)) => true,
                    (Some(x), Some(y)) => x < y,
                    _ => false,
                };
                if g.chat_msg_seq_num.is_none() || below {
                    self.game_info = Some(PlayerInGameInfo { room_id: g.room_id, chat_msg_seq_num: opt_chat_seq_num });
                }
            },
        }
    }

    /// Up to which chat message the client confirmed receipt, when in a game and it did.
    pub open spec fn get_confirmed_chat_seq_num_spec(&self) -> Option<u64> {
        match self.game_info {
            None => None,
            Some(g) => g.chat_msg_seq_num,
        }
    }

    /// Up to which chat message the client confirmed receipt, when in a game and it did.
    pub fn get_confirmed_chat_seq_num(&self) -> (r: Option<u64>)
        ensures
            r == self.get_confirmed_chat_seq_num_spec(),
    {
        match self.game_info {
            None => None,
            Some(g) => g.chat_msg_seq_num,
        }
    }

    /// Whether the player is in a game and its client confirmed some chat message.
    pub fn has_chatted(&self) -> (r: bool)
        ensures
            r == (self.game_info matches Some(g) && g.chat_msg_seq_num is Some),
    {
        match self.game_info {
            None => false,
            Some(g) => g.chat_msg_seq_num.is_some(),
        }
    }
}

/// A chat message kept by a room.
#[derive(Debug)]
pub struct ServerChatMessage {
    pub seq_num: u64,
    pub player_id: PlayerID,
    pub player_name: String,
    pub message: String,
    /// When the server received it.
    pub timestamp: Instant,
}

impl ServerChatMessage {
    /// A message received now.
    pub fn new(id: PlayerID, name: String, msg: String, seq_num: u64) -> (r: Self)
        ensures
            r.player_id == id,
            r.player_name@ == name@,
            r.message@ == msg@,
            r.seq_num == seq_num,
    {
        ServerChatMessage { player_id: id, player_name: name, message: msg, seq_num, timestamp: instant_now() }
    }
}

/// A room: its players and its chat, oldest message first.
#[derive(Debug)]
pub struct Room {
    pub room_id: RoomID,
    pub name: String,
    pub player_ids: Vec<PlayerID>,
    pub game_running: bool,
    pub universe: u64,
    pub latest_seq_num: u64,
    pub messages: VecDeque<ServerChatMessage>,
}

/// The number of chat messages to skip, of a room whose oldest and newest kept messages have
/// sequence numbers `oldest` and `newest`, for a client that confirmed receipt up to
/// `confirmed`: those up to `confirmed` (modulo the room's capacity), or across a wrap of the
/// sequence numbers.
pub open spec fn skip_count(oldest: u64, newest: u64, confirmed: u64) -> u64 {
    if confirmed >= oldest {
        (((confirmed - oldest) + 1) % (MAX_NUM_CHAT_MESSAGES as int)) as u64
    } else if oldest != newest {
        ((u64::MAX - oldest) + confirmed + 1) as u64
    } else {
        0
    }
}

/// The messages a room keeps before adding one: the oldest are dropped so that one more fits
/// below the limit.
pub open spec fn kept_messages(ms: Seq<ServerChatMessage>) -> Seq<ServerChatMessage> {
    if ms.len() >= MAX_NUM_CHAT_MESSAGES { ms.skip(ms.len() - MAX_NUM_CHAT_MESSAGES + 1) } else { ms }
}

/// `after` holds the messages of `before` once `author`, named `name`, posted `text`: the chat
/// sequence number advances, the oldest messages make room, and the message is the newest.
pub open spec fn chat_messages_added(before: Room, after: Room, author: PlayerID, name: Seq<char>, text: Seq<char>) -> bool {
    let kept = kept_messages(before.messages@);
    &&& after.latest_seq_num == before.latest_seq_num + 1
    &&& after.messages@.len() == kept.len() + 1
    &&& after.messages@.drop_last() == kept
    &&& after.messages@.last().player_id == author
    &&& after.messages@.last().player_name@ == name
    &&& after.messages@.last().message@ == text
    &&& after.messages@.last().seq_num == after.latest_seq_num
}

/// The rooms have the same identifier, name, game state and universe.
pub open spec fn same_room_fields(before: Room, after: Room) -> bool {
    &&& after.room_id == before.room_id
    &&& after.name == before.name
    &&& after.game_running == before.game_running
    &&& after.universe == before.universe
}

/// `after` is `before` once `author`, named `name`, posted `text` (see `chat_messages_added`).
pub open spec fn chat_added(before: Room, after: Room, author: PlayerID, name: Seq<char>, text: Seq<char>) -> bool {
    &&& chat_messages_added(before, after, author, name, text)
    &&& same_room_fields(before, after)
    &&& after.player_ids == before.player_ids
}

impl Room {
    /// A room named `name` holding `player_ids`, with a fresh identifier, no message and no
    /// game running.
    pub fn new(name: String, player_ids: Vec<PlayerID>) -> (r: Self)
        ensures
            r.name@ == name@,
            r.player_ids@ == player_ids@,
            !r.game_running,
            r.universe == 0,
            r.latest_seq_num == 0,
            r.messages@.len() == 0,
    {
        Room {
            room_id: RoomID(new_uuid()),
            name,
            player_ids,
            game_running: false,
            universe: 0,
            messages: VecDeque::with_capacity(MAX_NUM_CHAT_MESSAGES),
            latest_seq_num: 0,
        }
    }

    /// Drops the oldest messages until there is room for one more below the limit.
    pub fn discard_older_messages(&mut self)
        ensures
            final(self).messages@ == if old(self).messages@.len() >= MAX_NUM_CHAT_MESSAGES {
                old(self).messages@.skip(old(self).messages@.len() - MAX_NUM_CHAT_MESSAGES + 1)
            } else {
                old(self).messages@
            },
            final(self).room_id == old(self).room_id,
            final(self).name == old(self).name,
            final(self).player_ids == old(self).player_ids,
            final(self).game_running == old(self).game_running,
            final(self).universe == old(self).universe,
            final(self).latest_seq_num == old(self).latest_seq_num,
    {
        let queue_size = self.messages.len();
        if queue_size >= MAX_NUM_CHAT_MESSAGES {
            let n = queue_size - MAX_NUM_CHAT_MESSAGES + 1;
            let ghost m0 = self.messages@;
            let mut k: usize = 0;
            while k < n
                invariant
                    k <= n <= m0.len(),
                    n == m0.len() - MAX_NUM_CHAT_MESSAGES + 1,
                    self.messages@ == m0.skip(k as int),
                    self.room_id == old(self).room_id,
                    self.name == old(self).name,
                    self.player_ids == old(self).player_ids,
                    self.game_running == old(self).game_running,
                    self.universe == old(self).universe,
                    self.latest_seq_num == old(self).latest_seq_num,
                decreases n - k,
            {
                let _ = self.messages.pop_front();
                proof {
                    assert(self.messages@ =~= m0.skip(k + 1));
                }
                k = k + 1;
            }
        }
    }

    /// Whether the room holds a player.
    pub fn has_players(&self) -> (r: bool)
        ensures
            r == (self.player_ids@.len() > 0),
    {
        !self.player_ids.is_empty()
    }

    /// Advances the room's chat sequence number and returns the new one.
    pub fn increment_seq_num(&mut self) -> (seq: u64)
        requires
            old(self).latest_seq_num < u64::MAX,
        ensures
            seq == old(self).latest_seq_num + 1,
            final(self).latest_seq_num == seq,
            final(self).room_id == old(self).room_id,
            final(self).name == old(self).name,
            final(self).player_ids == old(self).player_ids,
            final(self).game_running == old(self).game_running,
            final(self).universe == old(self).universe,
            final(self).messages == old(self).messages,
    {
        self.latest_seq_num = self.latest_seq_num + 1;
        self.latest_seq_num
    }

    /// Adds a message as the newest.
    pub fn add_message(&mut self, new_message: ServerChatMessage)
        ensures
            final(self).messages@ == old(self).messages@.push(new_message),
            final(self).room_id == old(self).room_id,
            final(self).name == old(self).name,
            final(self).player_ids == old(self).player_ids,
            final(self).game_running == old(self).game_running,
            final(self).universe == old(self).universe,
            final(self).latest_seq_num == old(self).latest_seq_num,
    {
        self.messages.push_back(new_message);
    }

    /// The oldest message kept.
    pub fn get_oldest_msg(&self) -> (r: Option<&ServerChatMessage>)
        ensures
            self.messages@.len() == 0 ==> r is None,
            self.messages@.len() > 0 ==> r == Some(&self.messages@[0]),
    {
        if self.messages.len() == 0 {
            None
        } else {
            Some(&self.messages[0])
        }
    }

    /// The newest message kept.
    pub fn get_newest_msg(&self) -> (r: Option<&ServerChatMessage>)
        ensures
            self.messages@.len() == 0 ==> r is None,
            self.messages@.len() > 0 ==> r == Some(&self.messages@.last()),
    {
        let n = self.messages.len();
        if n == 0 {
            None
        } else {
            Some(&self.messages[n - 1])
        }
    }

    /// How many of the kept messages a client that confirmed receipt up to `chat_msg_seq_num`
    /// already has (see `skip_count`); zero when none is kept.
    pub fn get_message_skip_count(&self, chat_msg_seq_num: u64) -> (r: u64)
        requires
            self.messages@.len() > 0 ==> chat_msg_seq_num - self.messages@[0].seq_num < u64::MAX,
        ensures
            self.messages@.len() == 0 ==> r == 0,
            self.messages@.len() > 0 ==> r == skip_count(self.messages@[0].seq_num, self.messages@.last().seq_num, chat_msg_seq_num),
    {
        let n = self.messages.len();
        if n == 0 {
            return 0;
        }
        let newest = self.messages[n - 1].seq_num;
        let oldest = self.messages[0].seq_num;
        if chat_msg_seq_num >= oldest {
            ((chat_msg_seq_num - oldest) + 1) % (MAX_NUM_CHAT_MESSAGES as u64)
        } else if chat_msg_seq_num < oldest && oldest != newest {
            (u64::MAX - oldest) + chat_msg_seq_num + 1
        } else {
            0
        }
    }

    /// Tells every player of the room that `event` took place: a message from the server,
    /// after older messages were dropped to make room.
    pub fn broadcast(&mut self, event: String)
        requires
            old(self).latest_seq_num < u64::MAX,
        ensures
            chat_added(*old(self), *final(self), PlayerID(SERVER_PLAYER_ID), "Server"@, event@),
    {
        self.post(PlayerID(SERVER_PLAYER_ID), String::from_str("Server"), event);
    }

    /// Adds a message of `author`, named `name`, as the newest (see `chat_added`).
    pub fn post(&mut self, author: PlayerID, name: String, text: String)
        requires
            old(self).latest_seq_num < u64::MAX,
        ensures
            chat_added(*old(self), *final(self), author, name@, text@),
    {
        let seq_num = self.increment_seq_num();
        self.discard_older_messages();
        let msg = ServerChatMessage::new(author, name, text, seq_num);
        let ghost before = self.messages@;
        self.add_message(msg);
        proof {
            assert(self.messages@.drop_last() =~= before);
        }
    }
}

} // verus!
