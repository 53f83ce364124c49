//! What the application layer exchanges with its controllers.
use vstd::prelude::*;
use crate::protocol::RoomList;

verus! {

/// Commands to the application layer.
#[derive(Debug, Clone, PartialEq, Eq, Structural)]
pub enum AppCmd {
    /// Report the status of every room.
    GetRoomsStatus,
}

/// Why a command text was not understood.
#[derive(Debug, Clone, PartialEq, Eq, Structural)]
pub enum AppCmdError {
    UnknownCommand,
}

impl AppCmd {
    /// The command a controller's text names: `status` asks for the rooms' status; any other
    /// text is an unknown command.
    pub fn try_from_text(value: String) -> (r: Result<AppCmd, AppCmdError>)
        ensures
            value@ == "status"@ ==> r == Ok::<AppCmd, AppCmdError>(AppCmd::GetRoomsStatus),
            value@ != "status"@ ==> r == Err::<AppCmd, AppCmdError>(AppCmdError::UnknownCommand),
    {
        let status = String::from_str("status");
        if value == status {
            Ok(AppCmd::GetRoomsStatus)
        } else {
            Err(AppCmdError::UnknownCommand)
        }
    }
}

/// Responses of the application layer.
#[derive(Debug, Clone)]
pub enum AppRsp {
    /// The status of every room, in order.
    RoomsStatuses(Vec<RoomList>),
}

} // verus!
