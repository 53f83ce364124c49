//! The UDP protocol of the second generation: what peers send each other. Serialization is
//! done outside the library; these are the values it carries.
use vstd::prelude::*;
use crate::filter::ping::PingPong;

pub use crate::net::model::{
    ClientOptionValue, GameOptions, GameOutcome, GameUpdate, GenPartInfo, NetRegion, PlayerInfo, RequestAction,
    ResponseCode, RoomList,
};

verus! {

/// A chat message sent by the server to every client but the one it came from. `chat_seq` is
/// `Some` when sent to clients (counting from 0 for the first message in a room) and `None`
/// while internal to the server.
#[derive(Debug, Clone, PartialEq, Eq)]
pub struct BroadcastChatMessage {
    pub chat_seq: Option<u64>,
    pub player_name: String,
    pub message: String,
}

/// One of the parts, in order, of a compressed generation state diff.
#[derive(PartialEq, Debug, Clone)]
pub struct GenStateDiffPart {
    /// Zero-based, below `total_parts`.
    pub part_number: u8,
    /// At least 1, at most 32.
    pub total_parts: u8,
    /// Zero means the diff is based on the beginning of time.
    pub gen0: u32,
    /// The generation reached once the diff is applied.
    pub gen1: u32,
    /// This part's bytes; the parts concatenated form the compressed pattern.
    pub pattern_part: Vec<u8>,
}

#[derive(PartialEq, Debug, Clone)]
pub enum UniUpdate {
    Diff { diff: GenStateDiffPart },
    NoChange,
}

#[derive(Debug, Clone)]
pub enum Packet {
    /// Sent by a client.
    Request {
        sequence: u64,
        /// Next sequence number expected from the server's responses.
        response_ack: Option<u64>,
        /// Present if and only if the action is not a connect.
        cookie: Option<String>,
        action: RequestAction,
    },
    /// Sent by the server in reply to a client.
    Response {
        sequence: u64,
        /// Most recent request sequence number received.
        request_ack: Option<u64>,
        code: ResponseCode,
    },
    /// Sent by the server, mostly in a game.
    Update {
        chats: Vec<BroadcastChatMessage>,
        game_update_seq: Option<u64>,
        game_updates: Vec<GameUpdate>,
        universe_update: UniUpdate,
        ping: PingPong,
    },
    /// Sent by a client in a game in reply to an update.
    UpdateReply {
        cookie: String,
        last_chat_seq: Option<u64>,
        last_game_update_seq: Option<u64>,
        last_full_gen: Option<u64>,
        partial_gen: Option<GenPartInfo>,
        pong: PingPong,
    },
    GetStatus { ping: PingPong },
    Status {
        pong: PingPong,
        server_version: String,
        player_count: u64,
        room_count: u64,
        server_name: String,
    },
}

} // verus!
