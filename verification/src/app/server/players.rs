//! The players a server knows, and those waiting in its lobby.
use vstd::prelude::*;
use crate::app::server::rooms::ROOMS_PER_SERVER;
use crate::common::Endpoint;

verus! {

/// Spectators each room takes.
pub const SPECTATORS_PER_ROOM: usize = 2;
/// Players each room takes.
pub const PLAYERS_PER_ROOM: usize = 2;
/// Places kept in the lobby, so that players may queue for a match even when every room is
/// full.
pub const LOBBY_SPARING: usize = 20;
/// Players a server takes in all.
pub const PLAYERS_PER_SERVER: usize = ROOMS_PER_SERVER * (SPECTATORS_PER_ROOM + PLAYERS_PER_ROOM) + LOBBY_SPARING;
/// Longest player name, in bytes.
pub const MAX_PLAYER_NAME_LEN: usize = 32;

/// A player: its name and where it is reached.
#[derive(Debug)]
pub struct Player {
    pub name: String,
    pub endpoint: Endpoint,
}

impl Player {
    pub fn new(name: String, endpoint: Endpoint) -> (r: Self)
        ensures
            r.name@ == name@,
            r.endpoint == endpoint,
    {
        Player { name, endpoint }
    }
}

/// The players waiting in the lobby, in order of arrival.
#[derive(Debug)]
pub struct LobbyPlayers {
    pub players: Vec<Player>,
}

/// `players` without those named `name`, in order.
pub open spec fn without_name(players: Seq<Player>, name: Seq<char>) -> Seq<Player>
    decreases players.len(),
{
    if players.len() == 0 {
        players
    } else {
        let rest = without_name(players.drop_last(), name);
        if players.last().name@ != name { rest.push(players.last()) } else { rest }
    }
}

impl LobbyPlayers {
    /// An empty lobby.
    pub fn new() -> (r: Self)
        ensures
            r.players@.len() == 0,
    {
        LobbyPlayers { players: Vec::with_capacity(LOBBY_SPARING) }
    }

    /// Adds a player at the back of the lobby.
    pub fn add_player(&mut self, name: String, endpoint: Endpoint)
        ensures
            final(self).players@.len() == old(self).players@.len() + 1,
            final(self).players@.take(old(self).players@.len() as int) == old(self).players@,
            final(self).players@.last().name@ == name@,
            final(self).players@.last().endpoint == endpoint,
    {
        self.players.push(Player::new(name, endpoint));
    }

    /// Removes every player named `name`; the others keep their order.
    pub fn remove_player(&mut self, name: String)
        ensures
            final(self).players@ == without_name(old(self).players@, name@),
    {
        let ghost all = self.players@;
        let mut kept: Vec<Player> = Vec::new();
        let mut k: usize = 0;
        let n = self.players.len();
        while k < n
            invariant
                n == all.len(),
                k <= n,
                self.players@ == all.skip(k as int),
                kept@ == without_name(all.take(k as int), name@),
            decreases n - k,
        {
            let p = self.players.remove(0);
            proof {
                assert(p == all[k as int]);
                assert(all.take(k + 1).drop_last() =~= all.take(k as int));
                assert(self.players@ =~= all.skip(k + 1));
            }
            if p.name != name {
                kept.push(p);
            }
            k = k + 1;
        }
        proof {
            assert(all.take(n as int) =~= all);
        }
        self.players = kept;
    }
}

} // verus!
