//! Events exchanged between the client user interface and the network layer, and their
//! translation to and from the wire model.
use vstd::prelude::*;
use crate::net::model::{Packet, PingPong, RequestAction, ResponseCode, RoomList};

verus! {

/// What the user interface asks of the network layer, and what it is told back.
#[derive(Debug, Clone)]
pub enum NetwaysteEvent {
    NoEvent,
    // Requests
    /// Player name, version.
    Connect(String, String),
    Disconnect,
    List,
    ChatMessage(String),
    /// Room name.
    NewRoom(String),
    /// Room name.
    JoinRoom(String),
    LeaveRoom,
    // Responses
    /// The player is logged in (server version).
    LoggedIn(String),
    JoinedRoom(String),
    PlayerList(Vec<String>),
    RoomList(Vec<RoomList>),
    LeftRoom,
    BadRequest(String),
    ServerError(String),
    // Updates
    /// (player name, message)
    ChatMessages(Vec<(String, String)>),
    UniverseUpdate,
    // Server status
    GetStatus(PingPong),
    /// A status packet and its latency, `None` while not yet measured.
    Status(Packet, Option<u64>),
}

/// The events that name a request to the server.
pub open spec fn is_request_event(ev: NetwaysteEvent) -> bool {
    match ev {
        NetwaysteEvent::NoEvent | NetwaysteEvent::Connect(..) | NetwaysteEvent::Disconnect | NetwaysteEvent::List
        | NetwaysteEvent::ChatMessage(..) | NetwaysteEvent::NewRoom(..) | NetwaysteEvent::JoinRoom(..)
        | NetwaysteEvent::LeaveRoom => true,
        _ => false,
    }
}

/// The request that a request event stands for: listing names players inside a game and rooms
/// in the lobby; creating or joining a room is only asked from the lobby and leaving only from
/// a game, anything else asks nothing.
pub open spec fn request_action_for(ev: NetwaysteEvent, is_in_game: bool) -> RequestAction {
    match ev {
        NetwaysteEvent::Connect(name, version) => RequestAction::Connect { name: name, client_version: version },
        NetwaysteEvent::Disconnect => RequestAction::Disconnect,
        NetwaysteEvent::List => if is_in_game { RequestAction::ListPlayers } else { RequestAction::ListRooms },
        NetwaysteEvent::ChatMessage(msg) => RequestAction::ChatMessage { message: msg },
        NetwaysteEvent::NewRoom(name) => if !is_in_game {
            RequestAction::NewRoom { room_name: name }
        } else {
            RequestAction::NoAction
        },
        NetwaysteEvent::JoinRoom(name) => if !is_in_game {
            RequestAction::JoinRoom { room_name: name }
        } else {
            RequestAction::NoAction
        },
        NetwaysteEvent::LeaveRoom => if is_in_game { RequestAction::LeaveRoom } else { RequestAction::NoAction },
        _ => RequestAction::NoAction,
    }
}

/// The response codes that the user interface is told about.
pub open spec fn is_reported_code(code: ResponseCode) -> bool {
    match code {
        ResponseCode::LoggedIn { .. } | ResponseCode::JoinedRoom { .. } | ResponseCode::PlayerList { .. }
        | ResponseCode::RoomList { .. } | ResponseCode::LeaveRoom | ResponseCode::BadRequest { .. }
        | ResponseCode::ServerError { .. } | ResponseCode::Unauthorized { .. } => true,
        _ => false,
    }
}

/// The event reporting a response code; a refusal for want of authorization reads as a bad
/// request.
pub open spec fn event_for_code(code: ResponseCode) -> NetwaysteEvent {
    match code {
        ResponseCode::LoggedIn { cookie: _, server_version } => NetwaysteEvent::LoggedIn(server_version),
        ResponseCode::JoinedRoom { room_name } => NetwaysteEvent::JoinedRoom(room_name),
        ResponseCode::PlayerList { players } => NetwaysteEvent::PlayerList(players),
        ResponseCode::RoomList { rooms } => NetwaysteEvent::RoomList(rooms),
        ResponseCode::LeaveRoom => NetwaysteEvent::LeftRoom,
        ResponseCode::BadRequest { error_msg } => NetwaysteEvent::BadRequest(error_msg),
        ResponseCode::ServerError { error_msg } => NetwaysteEvent::ServerError(error_msg),
        ResponseCode::Unauthorized { error_msg } => NetwaysteEvent::BadRequest(error_msg),
        _ => NetwaysteEvent::NoEvent,
    }
}

impl NetwaysteEvent {
    /// The request to send for a user's event; only request events are accepted.
    pub fn build_request_action_from_netwayste_event(nw_event: NetwaysteEvent, is_in_game: bool) -> (r: RequestAction)
        requires
            is_request_event(nw_event),
        ensures
            r == request_action_for(nw_event, is_in_game),
    {
        match nw_event {
            NetwaysteEvent::Connect(name, version) => RequestAction::Connect { name: name, client_version: version },
            NetwaysteEvent::Disconnect => RequestAction::Disconnect,
            NetwaysteEvent::List => {
                if is_in_game {
                    RequestAction::ListPlayers
                } else {
                    RequestAction::ListRooms
                }
            },
            NetwaysteEvent::ChatMessage(msg) => RequestAction::ChatMessage { message: msg },
            NetwaysteEvent::NewRoom(name) => {
                if !is_in_game {
                    RequestAction::NewRoom { room_name: name }
                } else {
                    RequestAction::NoAction
                }
            },
            NetwaysteEvent::JoinRoom(name) => {
                if !is_in_game {
                    RequestAction::JoinRoom { room_name: name }
                } else {
                    RequestAction::NoAction
                }
            },
            NetwaysteEvent::LeaveRoom => {
                if is_in_game {
                    RequestAction::LeaveRoom
                } else {
                    RequestAction::NoAction
                }
            },
            _ => RequestAction::NoAction,
        }
    }

    /// The event reporting a server's response code; only reported codes are accepted.
    pub fn build_netwayste_event_from_response_code(code: ResponseCode) -> (r: NetwaysteEvent)
        requires
            is_reported_code(code),
        ensures
            r == event_for_code(code),
    {
        match code {
            ResponseCode::LoggedIn { cookie: _, server_version } => NetwaysteEvent::LoggedIn(server_version),
            ResponseCode::JoinedRoom { room_name } => NetwaysteEvent::JoinedRoom(room_name),
            ResponseCode::PlayerList { players } => NetwaysteEvent::PlayerList(players),
            ResponseCode::RoomList { rooms } => NetwaysteEvent::RoomList(rooms),
            ResponseCode::LeaveRoom => NetwaysteEvent::LeftRoom,
            ResponseCode::BadRequest { error_msg } => NetwaysteEvent::BadRequest(error_msg),
            ResponseCode::ServerError { error_msg } => NetwaysteEvent::ServerError(error_msg),
            ResponseCode::Unauthorized { error_msg } => NetwaysteEvent::BadRequest(error_msg),
            _ => NetwaysteEvent::NoEvent,
        }
    }
}

/// Law: each request event asks the server for the request of its own kind, carrying the
/// event's texts. Listing asks for the players of the room inside a game and for the rooms in
/// the lobby; creating or joining a room is asked only from the lobby, leaving only from a game,
/// and otherwise nothing is asked.
pub proof fn law_request_follows_event(ev: NetwaysteEvent, is_in_game: bool)
    requires
        is_request_event(ev),
    ensures
        ev is NoEvent ==> request_action_for(ev, is_in_game) is NoAction,
        (ev matches NetwaysteEvent::Connect(name, version)
            ==> request_action_for(ev, is_in_game) matches RequestAction::Connect { name: n, client_version: v }
                && n == name && v == version),
        ev is Disconnect ==> request_action_for(ev, is_in_game) is Disconnect,
        ev is List ==> (request_action_for(ev, is_in_game) is ListPlayers <==> is_in_game),
        ev is List ==> (request_action_for(ev, is_in_game) is ListRooms <==> !is_in_game),
        (ev matches NetwaysteEvent::ChatMessage(m)
            ==> request_action_for(ev, is_in_game) matches RequestAction::ChatMessage { message } && message == m),
        (ev matches NetwaysteEvent::NewRoom(name) ==> if is_in_game {
            request_action_for(ev, is_in_game) is NoAction
        } else {
            request_action_for(ev, is_in_game) matches RequestAction::NewRoom { room_name } && room_name == name
        }),
        (ev matches NetwaysteEvent::JoinRoom(name) ==> if is_in_game {
            request_action_for(ev, is_in_game) is NoAction
        } else {
            request_action_for(ev, is_in_game) matches RequestAction::JoinRoom { room_name } && room_name == name
        }),
        ev is LeaveRoom ==> (request_action_for(ev, is_in_game) is LeaveRoom <==> is_in_game),
        ev is LeaveRoom ==> (request_action_for(ev, is_in_game) is NoAction <==> !is_in_game),
{
}

/// Law: every response code that the user interface is told about is reported by an event (never
/// `NoEvent`), the event of its own kind carrying the code's text: the server's version once
/// logged in, the room joined, the players or rooms listed, leaving a room, and the error
/// message of a bad request, a server error or a refusal for want of authorization (reported as
/// a bad request).
pub proof fn law_reported_code_has_its_event(code: ResponseCode)
    requires
        is_reported_code(code),
    ensures
        !(event_for_code(code) is NoEvent),
        (code matches ResponseCode::LoggedIn { server_version, .. }
            ==> event_for_code(code) matches NetwaysteEvent::LoggedIn(v) && v == server_version),
        (code matches ResponseCode::JoinedRoom { room_name }
            ==> event_for_code(code) matches NetwaysteEvent::JoinedRoom(n) && n == room_name),
        (code matches ResponseCode::PlayerList { players }
            ==> event_for_code(code) matches NetwaysteEvent::PlayerList(p) && p == players),
        (code matches ResponseCode::RoomList { rooms }
            ==> event_for_code(code) matches NetwaysteEvent::RoomList(r) && r == rooms),
        code is LeaveRoom ==> event_for_code(code) is LeftRoom,
        (code matches ResponseCode::BadRequest { error_msg }
            ==> event_for_code(code) matches NetwaysteEvent::BadRequest(m) && m == error_msg),
        (code matches ResponseCode::ServerError { error_msg }
            ==> event_for_code(code) matches NetwaysteEvent::ServerError(m) && m == error_msg),
        (code matches ResponseCode::Unauthorized { error_msg }
            ==> event_for_code(code) matches NetwaysteEvent::BadRequest(m) && m == error_msg),
{
}

} // verus!
