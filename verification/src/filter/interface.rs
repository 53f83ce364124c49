//! What the filter layer exchanges with the application layer above it.
use vstd::prelude::*;
use crate::common::{Endpoint, GenStateDiff};
use crate::filter::error::FilterError;
use crate::filter::server_status::ServerStatus;
use crate::protocol::{BroadcastChatMessage, GameUpdate, RequestAction, ResponseCode};

verus! {

/// Commands from the application layer to send game events to peers.
#[derive(Debug, Clone)]
pub enum FilterCmd {
    SendRequestAction { endpoint: Endpoint, action: RequestAction },
    SendResponseCode { endpoint: Endpoint, code: ResponseCode },
    SendChats { endpoints: Vec<Endpoint>, messages: Vec<BroadcastChatMessage> },
    SendGameUpdates { endpoints: Vec<Endpoint>, updates: Vec<GameUpdate> },
    /// The application's answer to an authentication request.
    CompleteAuthRequest { endpoint: Endpoint, decision: AuthDecision },
    /// Kept in step with the status packet.
    ChangeServerStatus {
        server_version: Option<String>,
        player_count: Option<u64>,
        room_count: Option<u64>,
        server_name: Option<String>,
    },
    SendGenStateDiff { endpoints: Vec<Endpoint>, diff: GenStateDiff },
    AddPingEndpoints { endpoints: Vec<Endpoint> },
    ClearPingEndpoints,
    DropEndpoint { endpoint: Endpoint },
    Shutdown { graceful: bool },
}

/// The filter layer's answer to each command.
#[derive(Debug, Clone)]
pub enum FilterRsp {
    Accepted,
    NoSuchEndpoint { endpoint: Endpoint },
}

/// Where the filter layer stands in its life, as its shutdown watchers see it.
#[derive(Debug, Clone, Copy, PartialEq, Eq, Structural)]
pub enum Phase {
    Running,
    /// Asked to stop without waiting: the layers below are not shut down by the watcher.
    ShutdownInProgress,
    /// Stopped; its shutdown watchers finish and shut down the transport layer.
    ShutdownComplete,
}

/// The phase that a shutdown leaves the filter in: complete when graceful, in progress
/// otherwise.
pub open spec fn shutdown_phase(graceful: bool) -> Phase {
    if graceful {
        Phase::ShutdownComplete
    } else {
        Phase::ShutdownInProgress
    }
}

impl Phase {
    /// Whether a shutdown watcher that sees this phase is done waiting.
    pub fn is_shutdown_complete(&self) -> (r: bool)
        ensures
            r == (*self is ShutdownComplete),
    {
        match self {
            Phase::ShutdownComplete => true,
            _ => false,
        }
    }
}

/// What the filter does after processing a command from the application layer.
#[derive(Debug, Clone)]
pub enum CommandReply {
    /// Answer the application with this response.
    Respond(FilterRsp),
    /// Answer nothing.
    Silent,
    /// Stop the filter, as the application asked, and enter this phase.
    Stop { phase: Phase },
}

/// The reply to a command that was processed with `result`: acceptance when it succeeded; a
/// shutdown stops the filter, in the phase `shutdown_phase` gives; an unknown endpoint is
/// reported; data the filter does not take and internal errors are still answered with
/// acceptance; a refusal is not answered.
pub fn command_reply(result: &Result<(), FilterError>) -> (r: CommandReply)
    ensures
        r == match *result {
            Ok(()) => CommandReply::Respond(FilterRsp::Accepted),
            Err(FilterError::ShutdownRequested { graceful }) => CommandReply::Stop { phase: shutdown_phase(graceful) },
            Err(FilterError::EndpointNotFound { endpoint }) => CommandReply::Respond(FilterRsp::NoSuchEndpoint { endpoint }),
            Err(FilterError::UnexpectedData { .. }) => CommandReply::Respond(FilterRsp::Accepted),
            Err(FilterError::InternalError { .. }) => CommandReply::Respond(FilterRsp::Accepted),
            Err(FilterError::Refused { .. }) => CommandReply::Silent,
        },
{
    match result {
        Ok(()) => CommandReply::Respond(FilterRsp::Accepted),
        Err(FilterError::ShutdownRequested { graceful }) => {
            let phase = if *graceful {
                Phase::ShutdownComplete
            } else {
                Phase::ShutdownInProgress
            };
            CommandReply::Stop { phase }
        },
        Err(FilterError::EndpointNotFound { endpoint }) => CommandReply::Respond(FilterRsp::NoSuchEndpoint { endpoint: *endpoint }),
        Err(FilterError::UnexpectedData { .. }) => CommandReply::Respond(FilterRsp::Accepted),
        Err(FilterError::InternalError { .. }) => CommandReply::Respond(FilterRsp::Accepted),
        Err(FilterError::Refused { .. }) => CommandReply::Silent,
    }
}

/// What the filter layer tells the application layer.
#[derive(Debug, Clone)]
pub enum FilterNotice {
    HasGeneration { endpoints: Vec<Endpoint>, gen_num: u64 },
    NewGenStateDiff { endpoint: Endpoint, diff: GenStateDiff },
    PingResult {
        endpoint: Endpoint,
        latency: Option<u64>,
        server_name: String,
        server_version: String,
        room_count: u64,
        player_count: u64,
    },
    NewGameUpdates { endpoint: Endpoint, updates: Vec<GameUpdate> },
    NewChats { endpoint: Endpoint, messages: Vec<BroadcastChatMessage> },
    NewRequestAction { endpoint: Endpoint, action: RequestAction },
    NewResponseCode { endpoint: Endpoint, code: ResponseCode },
    /// At most one outstanding per endpoint.
    ClientAuthRequest { endpoint: Endpoint, fields: ClientAuthFields },
    EndpointTimeout { endpoint: Endpoint },
}

/// Whether the filter serves a client or a server (with the server's status).
#[derive(Debug, Clone)]
pub enum FilterMode {
    Client,
    Server(ServerStatus),
}

impl FilterMode {
    pub fn is_client(&self) -> (r: bool)
        ensures
            r == (*self is Client),
    {
        match self {
            FilterMode::Client => true,
            FilterMode::Server(_) => false,
        }
    }

    pub fn is_server(&self) -> (r: bool)
        ensures
            r == (*self is Server),
    {
        !self.is_client()
    }

    /// The status of a server; `None` for a client.
    pub fn server_status(&self) -> (r: Option<&ServerStatus>)
        ensures
            match *self {
                FilterMode::Client => r is None,
                FilterMode::Server(status) => r == Some(&status),
            },
    {
        match self {
            FilterMode::Client => None,
            FilterMode::Server(status) => Some(status),
        }
    }

    /// The status of a server, to change it; `None` for a client.
    pub fn server_status_mut(&mut self) -> (r: Option<&mut ServerStatus>)
        ensures
            match *old(self) {
                FilterMode::Client => r is None && *final(self) is Client,
                FilterMode::Server(status) => r matches Some(s) && *s == status
                    && *final(self) == FilterMode::Server(*final(s)),
            },
    {
        match self {
            FilterMode::Client => None,
            FilterMode::Server(status) => Some(status),
        }
    }

    /// One letter naming the mode in log lines: `c` for a client, `s` for a server.
    pub fn to_string(&self) -> (r: String)
        ensures
            r@ == if *self is Client { seq!['c'] } else { seq!['s'] },
    {
        if self.is_client() {
            let s = String::from_str("c");
            proof { reveal_strlit("c"); }
            s
        } else {
            let s = String::from_str("s");
            proof { reveal_strlit("s"); }
            s
        }
    }
}

/// The application's decision on a client's authentication: a subset of the response codes.
#[derive(Debug, Clone)]
pub enum AuthDecision {
    LoggedIn { cookie: String, server_version: String },
    Unauthorized { error_msg: String },
}

impl From<AuthDecision> for ResponseCode {
    fn from(decision: AuthDecision) -> (r: ResponseCode) {
        match decision {
            AuthDecision::LoggedIn { cookie, server_version } => ResponseCode::LoggedIn { cookie, server_version },
            AuthDecision::Unauthorized { error_msg } => ResponseCode::Unauthorized { error_msg },
        }
    }
}

impl vstd::std_specs::convert::FromSpecImpl<AuthDecision> for ResponseCode {
    open spec fn obeys_from_spec() -> bool {
        true
    }

    open spec fn from_spec(decision: AuthDecision) -> ResponseCode {
        match decision {
            AuthDecision::LoggedIn { cookie, server_version } => ResponseCode::LoggedIn { cookie, server_version },
            AuthDecision::Unauthorized { error_msg } => ResponseCode::Unauthorized { error_msg },
        }
    }
}

/// What the filter knows of a client asking to log in.
#[derive(Debug, Clone)]
pub struct ClientAuthFields {
    pub player_name: String,
    pub client_version: String,
}

} // verus!
