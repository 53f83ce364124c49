//! The rooms of a server, where matches are played.
use vstd::prelude::*;
use crate::app::server::players::Player;
use crate::protocol::RoomList;

verus! {

/// Rooms per server.
pub const ROOMS_PER_SERVER: usize = 3;

/// A room: its name and the players of its match.
#[derive(Debug)]
pub struct Room {
    pub name: String,
    pub player_a: Option<Player>,
    pub player_b: Option<Player>,
}

/// The name a server gives its `i`-th room.
pub open spec fn default_room_name(i: int) -> Seq<char> {
    if i == 0 {
        "Room0"@
    } else if i == 1 {
        "Room1"@
    } else {
        "Room2"@
    }
}

/// How many players a room holds.
pub open spec fn player_count(r: Room) -> int {
    (if r.player_a is Some { 1int } else { 0int }) + (if r.player_b is Some { 1int } else { 0int })
}

/// A server's rooms.
#[derive(Debug)]
pub struct ServerRooms {
    pub rooms: Vec<Room>,
}

impl ServerRooms {
    /// `ROOMS_PER_SERVER` empty rooms, named `Room0`, `Room1`, ….
    pub fn new() -> (r: ServerRooms)
        ensures
            r.rooms@.len() == ROOMS_PER_SERVER,
            forall|i: int| 0 <= i < ROOMS_PER_SERVER ==> {
                &&& (#[trigger] r.rooms@[i]).name@ == default_room_name(i)
                &&& r.rooms@[i].player_a is None
                &&& r.rooms@[i].player_b is None
            },
    {
        let mut rooms: Vec<Room> = Vec::new();
        let mut i: usize = 0;
        while i < ROOMS_PER_SERVER
            invariant
                i <= ROOMS_PER_SERVER,
                rooms@.len() == i,
                forall|j: int| 0 <= j < i ==> {
                    &&& (#[trigger] rooms@[j]).name@ == default_room_name(j)
                    &&& rooms@[j].player_a is None
                    &&& rooms@[j].player_b is None
                },
            decreases ROOMS_PER_SERVER - i,
        {
            let name = if i == 0 {
                String::from_str("Room0")
            } else if i == 1 {
                String::from_str("Room1")
            } else {
                String::from_str("Room2")
            };
            rooms.push(Room { name, player_a: None, player_b: None });
            i = i + 1;
        }
        ServerRooms { rooms }
    }

    /// The status of every room, in order: its name, how many players it holds, and (not
    /// tracked yet) that no match is in progress.
    pub fn get_info(&self) -> (r: Vec<RoomList>)
        ensures
            r@.len() == self.rooms@.len(),
            forall|i: int| 0 <= i < self.rooms@.len() ==> {
                &&& (#[trigger] r@[i]).room_name@ == self.rooms@[i].name@
                &&& r@[i].player_count == player_count(self.rooms@[i])
                &&& !r@[i].in_progress
            },
    {
        let mut out: Vec<RoomList> = Vec::new();
        let mut i: usize = 0;
        while i < self.rooms.len()
            invariant
                i <= self.rooms@.len(),
                out@.len() == i,
                forall|j: int| 0 <= j < i ==> {
                    &&& (#[trigger] out@[j]).room_name@ == self.rooms@[j].name@
                    &&& out@[j].player_count == player_count(self.rooms@[j])
                    &&& !out@[j].in_progress
                },
            decreases self.rooms@.len() - i,
        {
            let room = &self.rooms[i];
            let mut count: u8 = 0;
            if room.player_a.is_some() {
                count = count + 1;
            }
            if room.player_b.is_some() {
                count = count + 1;
            }
            out.push(RoomList { in_progress: false, room_name: room.name.clone(), player_count: count });
            i = i + 1;
        }
        out
    }
}

} // verus!
