//! The wire data model shared by client and server (first protocol generation).
use vstd::prelude::*;

verus! {

/// Round-trip measurement token: the receiver echoes the nonce back.
#[derive(Clone, Copy, PartialEq, Eq, Debug, Hash, Structural)]
pub struct PingPong {
    pub nonce: u64,
}

#[derive(PartialEq, Debug, Clone)]
pub enum RequestAction {
    NoAction,
    Connect { name: String, client_version: String },
    Disconnect,
    KeepAlive { latest_response_ack: u64 },
    ListPlayers,
    ChatMessage { message: String },
    ListRooms,
    NewRoom { room_name: String },
    JoinRoom { room_name: String },
    LeaveRoom,
    SetClientOptions { key: String, value: Option<ClientOptionValue> },
    DropPattern { x: i32, y: i32, pattern: String },
    ClearArea { x: i32, y: i32, w: u32, h: u32 },
}

#[derive(PartialEq, Debug)]
pub enum ClientOptionValue {
    Bool { value: bool },
    U8 { value: u8 },
    U16 { value: u16 },
    U32 { value: u32 },
    U64 { value: u64 },
    I8 { value: i8 },
    I16 { value: i16 },
    I32 { value: i32 },
    I64 { value: i64 },
    Str { value: String },
    List { value: Vec<ClientOptionValue> },
}

impl Clone for ClientOptionValue {
    fn clone(&self) -> (r: Self)
        decreases self,
    {
        match self {
            ClientOptionValue::Bool { value } => ClientOptionValue::Bool { value: *value },
            ClientOptionValue::U8 { value } => ClientOptionValue::U8 { value: *value },
            ClientOptionValue::U16 { value } => ClientOptionValue::U16 { value: *value },
            ClientOptionValue::U32 { value } => ClientOptionValue::U32 { value: *value },
            ClientOptionValue::U64 { value } => ClientOptionValue::U64 { value: *value },
            ClientOptionValue::I8 { value } => ClientOptionValue::I8 { value: *value },
            ClientOptionValue::I16 { value } => ClientOptionValue::I16 { value: *value },
            ClientOptionValue::I32 { value } => ClientOptionValue::I32 { value: *value },
            ClientOptionValue::I64 { value } => ClientOptionValue::I64 { value: *value },
            ClientOptionValue::Str { value } => ClientOptionValue::Str { value: value.clone() },
            ClientOptionValue::List { value } => {
                let mut items: Vec<ClientOptionValue> = Vec::new();
                let mut i: usize = 0;
                while i < value.len()
                    invariant
                        i <= value@.len(),
                        *self is List,
                        (*self)->List_value == *value,
                    decreases value@.len() - i,
                {
                    proof {
                        assert(decreases_to!(*value => value@));
                        assert(decreases_to!(value@ => value@[i as int]));
                        assert(decreases_to!(*self => (*self)->List_value));
                        assert((*self)->List_value == *value);
                    }
                    items.push(value[i].clone());
                    i = i + 1;
                }
                ClientOptionValue::List { value: items }
            },
        }
    }
}

/// Server response codes, mostly modelled on HTTP status codes.
#[derive(PartialEq, Debug, Clone)]
pub enum ResponseCode {
    OK,
    LoggedIn { cookie: String, server_version: String },
    JoinedRoom { room_name: String },
    LeaveRoom,
    PlayerList { players: Vec<String> },
    RoomList { rooms: Vec<RoomList> },
    BadRequest { error_msg: String },
    Unauthorized { error_msg: String },
    TooManyRequests { error_msg: String },
    ServerError { error_msg: String },
    NotConnected { error_msg: String },
    KeepAlive,
}

/// A chat message relayed by the server. `chat_seq` is `Some` when sent to clients and `None`
/// while internal to the server.
#[derive(Debug, Clone)]
pub struct BroadcastChatMessage {
    pub chat_seq: Option<u64>,
    pub player_name: String,
    pub message: String,
}

impl BroadcastChatMessage {
    pub fn new(sequence: u64, name: String, msg: String) -> (r: BroadcastChatMessage)
        ensures
            r.chat_seq == Some(sequence),
            r.player_name == name,
            r.message == msg,
    {
        BroadcastChatMessage { chat_seq: Some(sequence), player_name: name, message: msg }
    }

    /// The chat sequence number, 0 when absent.
    pub open spec fn chat_seq_or_zero(&self) -> u64 {
        match self.chat_seq {
            Some(v) => v,
            None => 0,
        }
    }

    pub fn sequence_number(&self) -> (r: u64)
        ensures
            r == self.chat_seq_or_zero(),
    {
        if let Some(v) = self.chat_seq {
            v
        } else {
            0
        }
    }
}

#[derive(PartialEq, Debug, Clone)]
pub struct GameOutcome {
    pub winner: Option<String>,
}

/// All options needed to initialize a Universe.
#[derive(PartialEq, Debug, Clone)]
pub struct GameOptions {
    pub width: u32,
    pub height: u32,
    pub history: u16,
    pub player_writable: Vec<NetRegion>,
    pub fog_radius: u32,
}

/// Net-safe version of a region of the universe.
#[derive(PartialEq, Debug, Clone)]
pub struct NetRegion {
    pub left: i32,
    pub top: i32,
    pub width: u32,
    pub height: u32,
}

#[derive(PartialEq, Debug, Clone)]
pub struct PlayerInfo {
    /// Name of the player.
    pub name: String,
    /// Index of player in Universe; None means this player is a lurker (non-participant).
    pub index: Option<u64>,
}

#[derive(PartialEq, Debug, Clone)]
pub enum GameUpdate {
    GameNotification { msg: String },
    GameStart { options: GameOptions },
    PlayerList { players: Vec<PlayerInfo> },
    PlayerChange { player: PlayerInfo, old_name: Option<String> },
    PlayerJoin { player: PlayerInfo },
    PlayerLeave { name: String },
    GameFinish { outcome: GameOutcome },
    RoomDeleted,
    Match { room: String, expire_secs: u32 },
}

impl GameUpdate {
    /// The game ended (the player may stay in the room).
    pub fn is_game_finish(&self) -> (r: bool)
        ensures
            r == (*self is GameFinish),
    {
        match self {
            GameUpdate::GameFinish { .. } => true,
            _ => false,
        }
    }

    /// The room was deleted, sending the player back to the lobby.
    pub fn room_was_deleted(&self) -> (r: bool)
        ensures
            r == (*self is RoomDeleted),
    {
        match self {
            GameUpdate::RoomDeleted => true,
            _ => false,
        }
    }
}

#[derive(PartialEq, Debug, Clone)]
pub enum UniUpdate {
    Diff { diff: GenStateDiffPart },
    NoChange,
}

/// One or more of these can be recombined into a generation state diff.
#[derive(PartialEq, Debug, Clone)]
pub struct GenStateDiffPart {
    pub part_number: u8,
    pub total_parts: u8,
    pub gen0: u32,
    pub gen1: u32,
    pub pattern_part: String,
}

/// Sent in the UpdateReply to indicate which GenStateDiffParts are needed.
#[derive(PartialEq, Debug, Clone)]
pub struct GenPartInfo {
    pub gen0: u32,
    pub gen1: u32,
    pub have_bitmask: u32,
}

#[derive(PartialEq, Debug, Clone)]
pub struct RoomList {
    pub room_name: String,
    pub player_count: u8,
    pub in_progress: bool,
}

#[derive(Debug, Clone)]
pub enum Packet {
    Request {
        sequence: u64,
        response_ack: Option<u64>,
        cookie: Option<String>,
        action: RequestAction,
    },
    Response {
        sequence: u64,
        request_ack: Option<u64>,
        code: ResponseCode,
    },
    Update {
        chats: Vec<BroadcastChatMessage>,
        game_update_seq: Option<u64>,
        game_updates: Vec<GameUpdate>,
        universe_update: UniUpdate,
        ping: PingPong,
    },
    UpdateReply {
        cookie: String,
        last_chat_seq: Option<u64>,
        last_game_update_seq: Option<u64>,
        last_full_gen: Option<u64>,
        partial_gen: Option<GenPartInfo>,
        pong: PingPong,
    },
    GetStatus { ping: PingPong },
    Status {
        pong: PingPong,
        server_version: String,
        player_count: u64,
        room_count: u64,
        server_name: String,
    },
}

/// Packets that carry a sequence number: requests, responses and updates.
pub open spec fn packet_is_sequenced(p: Packet) -> bool {
    p is Request || p is Response || p is Update
}

/// The sequence number of a packet. An update is numbered by the generations of its universe
/// diff: `gen1` in the high 32 bits and `gen0` in the low 32 bits; an update without a diff is 0.
pub open spec fn packet_seq(p: Packet) -> u64 {
    match p {
        Packet::Request { sequence, .. } => sequence,
        Packet::Response { sequence, .. } => sequence,
        Packet::Update { universe_update, .. } => match universe_update {
            UniUpdate::Diff { diff } => (diff.gen1 as int * 0x1_0000_0000 + diff.gen0 as int) as u64,
            UniUpdate::NoChange => 0,
        },
        _ => 0,
    }
}

/// `p` with its acknowledgement (the response ack of a request, the request ack of a
/// response) replaced by `ack`; other packets are unchanged.
pub open spec fn packet_with_ack(p: Packet, ack: Option<u64>) -> Packet {
    match p {
        Packet::Request { sequence, cookie, action, .. } => Packet::Request { sequence, response_ack: ack, cookie, action },
        Packet::Response { sequence, code, .. } => Packet::Response { sequence, request_ack: ack, code },
        _ => p,
    }
}

impl Packet {
    pub fn sequence_number(&self) -> (r: u64)
        requires
            packet_is_sequenced(*self),
        ensures
            r == packet_seq(*self),
    {
        match self {
            Packet::Request { sequence, .. } => *sequence,
            Packet::Response { sequence, .. } => *sequence,
            Packet::Update { universe_update, .. } => match universe_update {
                UniUpdate::Diff { diff } => {
                    let g1 = diff.gen1 as u64;
                    let g0 = diff.gen0 as u64;
                    let r = (g1 << 32u64) | g0;
                    assert(r == g1 * 0x1_0000_0000 + g0) by (bit_vector)
                        requires
                            g1 < 0x1_0000_0000,
                            g0 < 0x1_0000_0000,
                            r == (g1 << 32u64) | g0;
                    r
                },
                UniUpdate::NoChange => 0,
            },
            _ => 0,
        }
    }

    /// Replaces the acknowledgement a request or response carries.
    pub fn set_response_sequence(&mut self, new_ack: Option<u64>)
        requires
            *old(self) is Request || *old(self) is Response,
        ensures
            *final(self) == packet_with_ack(*old(self), new_ack),
    {
        match self {
            Packet::Request { response_ack, .. } => {
                *response_ack = new_ack;
            },
            Packet::Response { request_ack, .. } => {
                *request_ack = new_ack;
            },
            _ => {},
        }
    }

    /// The acknowledgement of server responses carried by a request, 0 when absent.
    pub fn response_sequence(&self) -> (r: u64)
        requires
            self is Request,
        ensures
            r == match *self {
                Packet::Request { response_ack: Some(a), .. } => a,
                _ => 0u64,
            },
    {
        match self {
            Packet::Request { response_ack, .. } => {
                if let Some(response_ack) = response_ack {
                    *response_ack
                } else {
                    0
                }
            },
            _ => 0,
        }
    }
}

/// Encodes and decodes packets on a UDP stream.
pub struct NetwaystePacketCodec;

} // verus!
