//! What a server tells anyone asking for its status.
use vstd::prelude::*;
use crate::filter::ping::PingPong;
use crate::protocol::Packet;

verus! {

/// Basic information on a server; kept in step with the status packet.
#[derive(Debug, Clone)]
pub struct ServerStatus {
    pub server_version: String,
    pub player_count: u64,
    pub room_count: u64,
    pub server_name: String,
}

impl Default for ServerStatus {
    fn default() -> (r: ServerStatus)
        ensures
            r.server_version@ == Seq::<char>::empty(),
            r.player_count == 0,
            r.room_count == 0,
            r.server_name@ == Seq::<char>::empty(),
    {
        ServerStatus { server_version: String::new(), player_count: 0, room_count: 0, server_name: String::new() }
    }
}

impl ServerStatus {
    /// The status packet answering the ping `ping`.
    pub fn to_packet(&self, ping: PingPong) -> (p: Packet)
        ensures
            p == (Packet::Status {
                pong: ping,
                server_version: self.server_version,
                player_count: self.player_count,
                room_count: self.room_count,
                server_name: self.server_name,
            }),
    {
        Packet::Status {
            pong: ping,
            server_version: self.server_version.clone(),
            player_count: self.player_count,
            room_count: self.room_count,
            server_name: self.server_name.clone(),
        }
    }
}

} // verus!
