//! What the daemon answers on its control socket.
use vstd::prelude::*;

verus! {

/// Longest control message, in bytes.
pub const MAX_CONTROL_MESSAGE_LEN: usize = 128;

/// Whether a control command succeeded.
#[derive(Debug, Clone, Copy, PartialEq, Eq, Structural)]
pub enum DaemonStatus {
    Failure,
    Success,
}

/// An answer on the control socket.
#[derive(Debug)]
pub struct DaemonResponse {
    pub status: DaemonStatus,
    pub message: String,
}

impl DaemonResponse {
    /// A success carrying `message`.
    pub fn success(message: &str) -> (r: DaemonResponse)
        ensures
            r.status == DaemonStatus::Success,
            r.message@ == message@,
    {
        DaemonResponse { status: DaemonStatus::Success, message: message.to_owned() }
    }

    /// A failure carrying `message`.
    pub fn failure(message: &str) -> (r: DaemonResponse)
        ensures
            r.status == DaemonStatus::Failure,
            r.message@ == message@,
    {
        DaemonResponse { status: DaemonStatus::Failure, message: message.to_owned() }
    }
}

} // verus!
