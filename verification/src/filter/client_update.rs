//! What a client's filter keeps of the room it is in: the other players, the chats seen, and
//! the parts of generation state diffs received so far.
use vstd::prelude::*;
use crate::common::{Endpoint, GenStateDiff};
use crate::filter::error::FilterError;
use crate::filter::interface::FilterNotice;
use crate::filter::server_update::lz4_compressed;
use crate::protocol::{BroadcastChatMessage, GameUpdate, GenPartInfo, UniUpdate};

verus! {

/// Most parts a diff may be split into.
pub const MAX_DIFF_PARTS: u8 = 32;

/// A name for `lz4_flex::block::decompress_size_prepended`: the bytes that `input`
/// decompresses to (its first 4 bytes giving their number), `None` when it is not valid.
pub uninterp spec fn lz4_decompressed(input: Seq<u8>) -> Option<Seq<u8>>;

/// Calls `lz4_flex::block::decompress_size_prepended`; the result is named by
/// `lz4_decompressed`. The crate documents it as the inverse of `compress_prepend_size` (which
/// prepends the length as a `u32`): decompressing what compressing gave yields the input.
#[verifier::external_body]
fn decompress_size_prepended(input: &[u8]) -> (r: Option<Vec<u8>>)
    ensures
        r is Some ==> lz4_decompressed(input@) == Some(r->0@),
        r is None ==> lz4_decompressed(input@) is None,
        forall|x: Seq<u8>| input@ == lz4_compressed(x) && x.len() < 0x1_0000_0000 ==> r is Some && r->0@ == x,
{
    match lz4_flex::block::decompress_size_prepended(input) {
        Ok(v) => Some(v),
        Err(_) => None,
    }
}

/// Calls `std::string::String::from_utf8`: the string the bytes encode when they are valid
/// UTF-8, `None` otherwise.
#[verifier::external_body]
fn string_from_utf8(bytes: Vec<u8>) -> (r: Option<String>)
    ensures
        r is Some ==> vstd::utf8::valid_utf8(bytes@) && r->0@ == vstd::utf8::decode_utf8(bytes@),
        r is None ==> !vstd::utf8::valid_utf8(bytes@),
{
    match String::from_utf8(bytes) {
        Ok(s) => Some(s),
        Err(_) => None,
    }
}

/// Distinct names among the entries.
pub open spec fn distinct_names<V>(entries: Seq<(String, V)>) -> bool {
    forall|i: int, j: int| 0 <= i < j < entries.len() ==> (#[trigger] entries[i]).0@ != (#[trigger] entries[j]).0@
}

/// The entries as a map from names.
pub open spec fn name_map<V>(entries: Seq<(String, V)>) -> Map<Seq<char>, V>
    decreases entries.len(),
{
    if entries.len() == 0 {
        Map::empty()
    } else {
        name_map(entries.drop_last()).insert(entries.last().0@, entries.last().1)
    }
}

/// The client's record of the room it is in.
pub struct ClientRoom {
    /// This player's index in the game, `None` for a lurker.
    pub player_id: Option<usize>,
    /// The other players by name, with their index (`None` for lurkers); names occur once.
    pub other_players: Vec<(String, Option<usize>)>,
    pub game: Option<ClientGame>,
    /// Sequence number of the latest chat message received from the server.
    pub last_chat_seq: Option<u64>,
}

/// The client's record of the game in its room.
pub struct ClientGame {
    /// Duplicate of the room's `player_id`.
    pub player_id: Option<usize>,
    /// Parts received of each diff, by its (from, to) generations; keys occur once.
    pub diff_parts: Vec<((u32, u32), Vec<Option<Vec<u8>>>)>,
    /// The generation the client is at.
    pub last_full_gen: Option<usize>,
    pub partial_gen: Option<GenPartInfo>,
}

impl ClientRoom {
    pub open spec fn wf(&self) -> bool {
        &&& distinct_names(self.other_players@)
        &&& self.game matches Some(g) ==> g.wf() && g.player_id == self.player_id
    }

    pub fn new() -> (r: Self)
        ensures
            r.wf(),
            r.player_id is None,
            r.other_players@.len() == 0,
            r.game is None,
            r.last_chat_seq is None,
    {
        ClientRoom { player_id: None, other_players: Vec::new(), game: None, last_chat_seq: None }
    }

    /// Records this player's index (kept in step with the game's copy).
    fn change_own_player_id(&mut self, player_id: Option<u64>)
        requires
            old(self).wf(),
        ensures
            final(self).wf(),
            final(self).player_id == match player_id { Some(i) => Some(i as usize), None => None },
            final(self).other_players == old(self).other_players,
            final(self).last_chat_seq == old(self).last_chat_seq,
            match old(self).game {
                Some(g) => final(self).game == Some(ClientGame { player_id: final(self).player_id, ..g }),
                None => final(self).game is None,
            },
    {
        self.player_id = match player_id {
            Some(idx) => Some(idx as usize),
            None => None,
        };
        let pid = self.player_id;
        match &mut self.game {
            Some(game) => {
                game.player_id = pid;
            },
            None => {},
        }
    }

    /// Finds the entry of the other player named `name`.
    fn find_player(&self, name: &String) -> (r: Option<usize>)
        requires
            self.wf(),
        ensures
            match r {
                Some(i) => i < self.other_players@.len() && self.other_players@[i as int].0@ == name@,
                None => forall|i: int| 0 <= i < self.other_players@.len() ==> (#[trigger] self.other_players@[i]).0@ != name@,
            },
    {
        let mut i: usize = 0;
        while i < self.other_players.len()
            invariant
                i <= self.other_players@.len(),
                forall|j: int| 0 <= j < i ==> (#[trigger] self.other_players@[j]).0@ != name@,
            decreases self.other_players@.len() - i,
        {
            if self.other_players[i].0 == *name {
                return Some(i);
            }
            i = i + 1;
        }
        None
    }

    /// Forgets the other player named `name`, if present.
    fn remove_player(&mut self, name: &String)
        requires
            old(self).wf(),
        ensures
            final(self).wf(),
            final(self).player_id == old(self).player_id,
            final(self).game == old(self).game,
            final(self).last_chat_seq == old(self).last_chat_seq,
            forall|i: int| 0 <= i < final(self).other_players@.len() ==> (#[trigger] final(self).other_players@[i]).0@ != name@,
            forall|i: int| 0 <= i < old(self).other_players@.len() && (#[trigger] old(self).other_players@[i]).0@ != name@
                ==> final(self).other_players@.contains(old(self).other_players@[i]),
            forall|i: int| 0 <= i < final(self).other_players@.len() ==> old(self).other_players@.contains(#[trigger] final(self).other_players@[i]),
    {
        let found = self.find_player(name);
        match found {
            Some(i) => {
                let ghost e0 = self.other_players@;
                let _ = self.other_players.remove(i);
                proof {
                    assert(self.other_players@ =~= e0.remove(i as int));
                    assert forall|a: int, b: int| 0 <= a < b < self.other_players@.len()
                        implies (#[trigger] self.other_players@[a]).0@ != (#[trigger] self.other_players@[b]).0@ by {
                        let a0 = if a < i { a } else { a + 1 };
                        let b0 = if b < i { b } else { b + 1 };
                        assert(e0[a0].0@ != e0[b0].0@);
                    }
                    assert forall|k: int| 0 <= k < self.other_players@.len() implies (#[trigger] self.other_players@[k]).0@ != name@ by {
                        let k0 = if k < i { k } else { k + 1 };
                        assert(e0[k0].0@ != e0[i as int].0@);
                    }
                    assert forall|k: int| 0 <= k < e0.len() && (#[trigger] e0[k]).0@ != name@ implies self.other_players@.contains(e0[k]) by {
                        let k1 = if k < i { k } else { k - 1 };
                        assert(self.other_players@[k1] == e0[k]);
                    }
                    assert forall|k: int| 0 <= k < self.other_players@.len() implies e0.contains(#[trigger] self.other_players@[k]) by {
                        let k0 = if k < i { k } else { k + 1 };
                        assert(e0[k0] == self.other_players@[k]);
                    }
                }
            },
            None => {
                proof {
                    assert forall|k: int| 0 <= k < self.other_players@.len() implies old(self).other_players@.contains(#[trigger] self.other_players@[k]) by {
                        assert(old(self).other_players@[k] == self.other_players@[k]);
                    }
                    assert forall|k: int| 0 <= k < old(self).other_players@.len() && (#[trigger] old(self).other_players@[k]).0@ != name@
                        implies self.other_players@.contains(old(self).other_players@[k]) by {
                        assert(self.other_players@[k] == old(self).other_players@[k]);
                    }
                }
            },
        }
    }

    /// Sets the index of the other player `name`, adding the player if absent.
    fn insert_player(&mut self, name: String, index: Option<usize>)
        requires
            old(self).wf(),
        ensures
            final(self).wf(),
            final(self).player_id == old(self).player_id,
            final(self).game == old(self).game,
            final(self).last_chat_seq == old(self).last_chat_seq,
            final(self).other_players@.contains((name, index)),
            forall|i: int| 0 <= i < old(self).other_players@.len() && (#[trigger] old(self).other_players@[i]).0@ != name@
                ==> final(self).other_players@.contains(old(self).other_players@[i]),
            forall|i: int| 0 <= i < final(self).other_players@.len() ==> (#[trigger] final(self).other_players@[i]) == (name, index)
                || (old(self).other_players@.contains(final(self).other_players@[i]) && final(self).other_players@[i].0@ != name@),
    {
        self.remove_player(&name);
        let ghost e0 = self.other_players@;
        self.other_players.push((name, index));
        proof {
            assert(self.other_players@[e0.len() as int] == (name, index));
            assert forall|a: int, b: int| 0 <= a < b < self.other_players@.len()
                implies (#[trigger] self.other_players@[a]).0@ != (#[trigger] self.other_players@[b]).0@ by {
                if b < e0.len() {
                    assert(e0[a].0@ != e0[b].0@);
                } else {
                    assert(e0[a].0@ != name@);
                }
            }
            assert forall|k: int| 0 <= k < old(self).other_players@.len() && (#[trigger] old(self).other_players@[k]).0@ != name@
                implies self.other_players@.contains(old(self).other_players@[k]) by {
                let j = choose|j: int| 0 <= j < e0.len() && e0[j] == old(self).other_players@[k];
                assert(self.other_players@[j] == e0[j]);
            }
            assert forall|k: int| 0 <= k < self.other_players@.len() implies (#[trigger] self.other_players@[k]) == (name, index)
                || (old(self).other_players@.contains(self.other_players@[k]) && self.other_players@[k].0@ != name@) by {
                if k < e0.len() {
                    assert(self.other_players@[k] == e0[k]);
                    assert(e0[k].0@ != name@);
                }
            }
        }
    }
}

/// The index in the game of a player of the protocol, as the client keeps it.
pub open spec fn index_of(index: Option<u64>) -> Option<usize> {
    match index {
        Some(i) => Some(i as usize),
        None => None,
    }
}

/// The index last given to the player named `name` in `players`, if any is.
pub open spec fn own_index_in(players: Seq<crate::protocol::PlayerInfo>, name: Seq<char>) -> Option<Option<u64>>
    decreases players.len(),
{
    if players.len() == 0 {
        None
    } else if players.last().name@ == name {
        Some(players.last().index)
    } else {
        own_index_in(players.drop_last(), name)
    }
}

/// `after` holds exactly the entries of `before` except those named `name`, plus `extra` if
/// given.
pub open spec fn players_replaced(after: Seq<(String, Option<usize>)>, before: Seq<(String, Option<usize>)>, name: Seq<char>, extra: Option<(String, Option<usize>)>) -> bool {
    &&& forall|i: int| 0 <= i < before.len() && (#[trigger] before[i]).0@ != name ==> after.contains(before[i])
    &&& forall|i: int| 0 <= i < after.len() ==> (Some(#[trigger] after[i]) == extra)
        || (before.contains(after[i]) && after[i].0@ != name)
    &&& extra matches Some(e) ==> after.contains(e)
}

/// What taking the game update `update` does to the room `before` (giving `after`) for the
/// player named `name`, with outcome `r` (see `ClientRoom::process_game_update`): a game start
/// begins a game record; a game end forgets it, this player's index and the other players'
/// indices; a player list gives this player's index; a change, join or leave of another player
/// is recorded; a change for an unknown other player is refused.
pub open spec fn room_step(before: ClientRoom, after: ClientRoom, own: String, update: GameUpdate, r: Result<(), FilterError>) -> bool {
    match update {
        GameUpdate::GameStart { .. } => r is Ok && after.player_id == before.player_id
            && after.other_players == before.other_players
            && (after.game matches Some(g) && g.player_id == before.player_id
            && g.diff_parts@.len() == 0 && g.last_full_gen is None && g.partial_gen is None),
        GameUpdate::GameFinish { .. } => r is Ok && after.game is None && after.player_id is None
            && after.other_players@.len() == before.other_players@.len()
            && forall|i: int| 0 <= i < before.other_players@.len() ==> (#[trigger] after.other_players@[i]).0@
                == before.other_players@[i].0@ && after.other_players@[i].1 is None,
        GameUpdate::PlayerList { players } => r is Ok && after.other_players == before.other_players
            && after.player_id == match own_index_in(players@, own@) {
                Some(idx) => index_of(idx),
                None => before.player_id,
            },
        GameUpdate::PlayerChange { player, old_name: Some(old_name) } => r is Ok && after.player_id == before.player_id
            && if player.name@ == old_name@ || player.name@ == own@ {
                after.other_players == before.other_players
            } else {
                exists|mid: Seq<(String, Option<usize>)>| players_replaced(mid, before.other_players@, old_name@, None)
                    && #[trigger] players_replaced(after.other_players@, mid, player.name@, Some((player.name, index_of(player.index))))
            },
        GameUpdate::PlayerChange { player, old_name: None } => if player.name@ == own@ {
            r is Ok && after.player_id == index_of(player.index) && after.other_players == before.other_players
        } else {
            (r is Err <==> forall|i: int| 0 <= i < before.other_players@.len() ==> (#[trigger] before.other_players@[i]).0@ != player.name@)
            && (r is Ok ==> after.player_id == before.player_id
                && players_replaced(after.other_players@, before.other_players@, player.name@, Some((player.name, index_of(player.index)))))
        },
        GameUpdate::PlayerJoin { player } => r is Ok && after.player_id == before.player_id
            && if player.name@ == own@ {
                after.other_players == before.other_players
            } else {
                players_replaced(after.other_players@, before.other_players@, player.name@, Some((player.name, index_of(player.index))))
            },
        GameUpdate::PlayerLeave { name } => r is Ok && after.player_id == before.player_id
            && if name@ == own@ {
                after.other_players == before.other_players
            } else {
                players_replaced(after.other_players@, before.other_players@, name@, None)
            },
        _ => r is Ok && after.player_id == before.player_id && after.other_players == before.other_players
            && after.game == before.game,
    }
}

impl ClientRoom {
    /// Takes a game update from the server and passes it on to the application. A game start
    /// begins a game record; a game end forgets it, this player's index and the other
    /// players' indices; a player list gives this player's index; a change, join or leave of
    /// another player is recorded (a name change to or from this player's name is ignored, as
    /// are joins and leaves of this player); a change for an unknown other player is an error.
    pub fn process_game_update(
        &mut self,
        server_endpoint: Endpoint,
        player_name: &String,
        game_update: &GameUpdate,
        notices: &mut Vec<FilterNotice>,
    ) -> (r: Result<(), FilterError>)
        requires
            old(self).wf(),
        ensures
            final(self).wf(),
            final(self).last_chat_seq == old(self).last_chat_seq,
            r is Ok ==> (final(notices)@.len() == old(notices)@.len() + 1 && final(notices)@.drop_last() == old(notices)@
                && (final(notices)@.last() matches FilterNotice::NewGameUpdates { endpoint, updates }
                && endpoint == server_endpoint && updates@.len() == 1 && cloned(*game_update, updates@[0]))),
            r is Err ==> final(notices)@ == old(notices)@ && *final(self) == *old(self),
            room_step(*old(self), *final(self), *player_name, *game_update, r),
    {
        match game_update {
            GameUpdate::GameStart { options: _ } => {
                self.game = Some(ClientGame::new(self.player_id));
            },
            GameUpdate::GameFinish { .. } => {
                self.game = None;
                self.player_id = None;
                let mut renewed: Vec<(String, Option<usize>)> = Vec::new();
                let mut i: usize = 0;
                while i < self.other_players.len()
                    invariant
                        i <= self.other_players@.len(),
                        renewed@.len() == i,
                        distinct_names(self.other_players@),
                        forall|j: int| 0 <= j < i ==> (#[trigger] renewed@[j]).0@ == self.other_players@[j].0@ && renewed@[j].1 is None,
                    decreases self.other_players@.len() - i,
                {
                    renewed.push((self.other_players[i].0.clone(), None));
                    i = i + 1;
                }
                proof {
                    assert forall|a: int, b: int| 0 <= a < b < renewed@.len() implies (#[trigger] renewed@[a]).0@ != (#[trigger] renewed@[b]).0@ by {
                        assert(self.other_players@[a].0@ != self.other_players@[b].0@);
                    }
                }
                self.other_players = renewed;
            },
            GameUpdate::PlayerList { players } => {
                let mut i: usize = 0;
                while i < players.len()
                    invariant
                        self.wf(),
                        i <= players@.len(),
                        self.other_players == old(self).other_players,
                        self.last_chat_seq == old(self).last_chat_seq,
                        self.player_id == match own_index_in(players@.take(i as int), player_name@) {
                            Some(idx) => index_of(idx),
                            None => old(self).player_id,
                        },
                        match old(self).game {
                            Some(g) => self.game == Some(ClientGame { player_id: self.player_id, ..g }),
                            None => self.game is None,
                        },
                    decreases players@.len() - i,
                {
                    proof {
                        assert(players@.take(i + 1).drop_last() =~= players@.take(i as int));
                    }
                    if players[i].name == *player_name {
                        self.change_own_player_id(players[i].index);
                    }
                    i = i + 1;
                }
                proof {
                    assert(players@.take(players@.len() as int) =~= players@);
                }
            },
            GameUpdate::PlayerChange { player, old_name } => {
                match old_name {
                    Some(old_name) => {
                        if player.name == *old_name || player.name == *player_name {
                            // The server misbehaves: a change to or from this player's name.
                        } else {
                            self.remove_player(old_name);
                            let ghost mid = self.other_players@;
                            let idx = match player.index {
                                Some(i) => Some(i as usize),
                                None => None,
                            };
                            self.insert_player(player.name.clone(), idx);
                            proof {
                                assert(players_replaced(self.other_players@, mid, player.name@, Some((player.name, index_of(player.index)))));
                            }
                        }
                    },
                    None => {
                        if player.name == *player_name {
                            self.change_own_player_id(player.index);
                        } else {
                            let found = self.find_player(&player.name);
                            match found {
                                Some(_) => {
                                    let idx = match player.index {
                                        Some(i) => Some(i as usize),
                                        None => None,
                                    };
                                    self.insert_player(player.name.clone(), idx);
                                },
                                None => {
                                    return Err(FilterError::Refused { problem: String::from_str("no entry for this player name") });
                                },
                            }
                        }
                    },
                }
            },
            GameUpdate::PlayerJoin { player } => {
                if player.name == *player_name {
                    // Ignored: a join of this player.
                } else {
                    let idx = match player.index {
                        Some(i) => Some(i as usize),
                        None => None,
                    };
                    self.insert_player(player.name.clone(), idx);
                }
            },
            GameUpdate::PlayerLeave { name } => {
                if *name == *player_name {
                    // Ignored: a leave of this player.
                } else {
                    self.remove_player(name);
                    proof {
                        assert forall|i: int| 0 <= i < self.other_players@.len() implies (Some(#[trigger] self.other_players@[i]) == None::<(String, Option<usize>)>)
                            || (old(self).other_players@.contains(self.other_players@[i]) && self.other_players@[i].0@ != name@) by {}
                    }
                }
            },
            _ => {},
        }
        let mut updates: Vec<GameUpdate> = Vec::new();
        updates.push(game_update.clone());
        let ghost n0 = notices@;
        notices.push(FilterNotice::NewGameUpdates { endpoint: server_endpoint, updates });
        proof {
            assert(notices@.drop_last() =~= n0);
        }
        Ok(())
    }

    /// Takes the chats of an update: those numbered beyond the latest seen are new and passed
    /// on, in one notice (none when there is nothing new). A chat without a number is an
    /// error; chats before it are already counted as seen.
    pub fn process_chats(
        &mut self,
        server_endpoint: Endpoint,
        chats: &[BroadcastChatMessage],
        notices: &mut Vec<FilterNotice>,
    ) -> (r: Result<(), FilterError>)
        ensures
            final(self).player_id == old(self).player_id,
            final(self).other_players == old(self).other_players,
            final(self).game == old(self).game,
            (forall|i: int| 0 <= i < chats@.len() ==> (#[trigger] chats@[i]).chat_seq is Some) <==> r is Ok,
            r is Ok ==> {
                let news = new_chats(chats@, old(self).last_chat_seq);
                &&& final(self).last_chat_seq == latest_chat(chats@, old(self).last_chat_seq)
                &&& if news.len() == 0 {
                    final(notices)@ == old(notices)@
                } else {
                    &&& final(notices)@.len() == old(notices)@.len() + 1
                    &&& final(notices)@.drop_last() == old(notices)@
                    &&& final(notices)@.last() matches FilterNotice::NewChats { endpoint, messages }
                        && endpoint == server_endpoint && messages@.len() == news.len()
                        && forall|k: int| 0 <= k < news.len() ==> cloned(news[k], #[trigger] messages@[k])
                }
            },
            r is Err ==> final(notices)@ == old(notices)@,
            final(notices)@.len() >= old(notices)@.len(),
            final(notices)@.take(old(notices)@.len() as int) == old(notices)@,
    {
        proof {
            assert(notices@.take(notices@.len() as int) =~= notices@);
        }
        let mut to_send: Vec<BroadcastChatMessage> = Vec::new();
        let mut i: usize = 0;
        while i < chats.len()
            invariant
                i <= chats@.len(),
                forall|j: int| 0 <= j < i ==> (#[trigger] chats@[j]).chat_seq is Some,
                self.last_chat_seq == latest_chat(chats@.take(i as int), old(self).last_chat_seq),
                self.player_id == old(self).player_id,
                self.other_players == old(self).other_players,
                self.game == old(self).game,
                to_send@.len() == new_chats(chats@.take(i as int), old(self).last_chat_seq).len(),
                forall|k: int| 0 <= k < to_send@.len() ==> cloned(new_chats(chats@.take(i as int), old(self).last_chat_seq)[k], #[trigger] to_send@[k]),
            decreases chats@.len() - i,
        {
            proof {
                assert(chats@.take(i + 1).drop_last() =~= chats@.take(i as int));
            }
            let chat_seq = match chats[i].chat_seq {
                Some(s) => s,
                None => {
                    return Err(FilterError::Refused { problem: String::from_str("chat message without a sequence number") });
                },
            };
            let fresh = match self.last_chat_seq {
                Some(last) => last < chat_seq,
                None => true,
            };
            if fresh {
                self.last_chat_seq = Some(chat_seq);
                to_send.push(chats[i].clone());
            }
            i = i + 1;
        }
        proof {
            assert(chats@.take(chats@.len() as int) =~= chats@);
        }
        if to_send.len() == 0 {
            return Ok(());
        }
        let ghost n0 = notices@;
        notices.push(FilterNotice::NewChats { endpoint: server_endpoint, messages: to_send });
        proof {
            assert(notices@.drop_last() =~= n0);
            assert(notices@.take(n0.len() as int) =~= n0);
        }
        Ok(())
    }
}

/// Some name of `players` is `name`.
pub open spec fn listed(players: Seq<String>, name: Seq<char>) -> bool {
    exists|j: int| 0 <= j < players.len() && #[trigger] players[j]@ == name
}

/// The entries whose names are listed, in order.
fn retain_listed(entries: &Vec<(String, Option<usize>)>, players: &Vec<String>) -> (kept: Vec<(String, Option<usize>)>)
    requires
        distinct_names(entries@),
    ensures
        distinct_names(kept@),
        forall|a: int| 0 <= a < kept@.len() ==> listed(players@, (#[trigger] kept@[a]).0@) && entries@.contains(kept@[a]),
        forall|b: int| 0 <= b < entries@.len() && listed(players@, (#[trigger] entries@[b]).0@) ==> kept@.contains(entries@[b]),
{
    let ghost e1 = entries@;
    let mut kept: Vec<(String, Option<usize>)> = Vec::new();
    let ghost mut from: Seq<int> = Seq::empty();
    let mut i: usize = 0;
    while i < entries.len()
        invariant
            e1 == entries@,
            distinct_names(e1),
            i <= e1.len(),
            from.len() == kept@.len(),
            forall|a: int| 0 <= a < from.len() ==> 0 <= #[trigger] from[a] < i && kept@[a] == e1[from[a]]
                && listed(players@, e1[from[a]].0@),
            forall|a: int, b: int| 0 <= a < b < from.len() ==> #[trigger] from[a] < #[trigger] from[b],
            forall|b: int| 0 <= b < i && listed(players@, (#[trigger] e1[b]).0@) ==> kept@.contains(e1[b]),
        decreases e1.len() - i,
    {
        let mut found = false;
        let mut j: usize = 0;
        while j < players.len()
            invariant
                j <= players@.len(),
                e1 == entries@,
                i < e1.len(),
                found == exists|m: int| 0 <= m < j && #[trigger] players@[m]@ == e1[i as int].0@,
            decreases players@.len() - j,
        {
            if players[j] == entries[i].0 {
                found = true;
            }
            j = j + 1;
        }
        if found {
            let ghost kb = kept@;
            kept.push((entries[i].0.clone(), entries[i].1));
            proof {
                assert(kept@[kb.len() as int] == e1[i as int]);
                from = from.push(i as int);
                assert forall|b: int| 0 <= b < i + 1 && listed(players@, (#[trigger] e1[b]).0@) implies kept@.contains(e1[b]) by {
                    if b < i {
                        let c = choose|c: int| 0 <= c < kb.len() && kb[c] == e1[b];
                        assert(kept@[c] == e1[b]);
                    }
                }
            }
        }
        i = i + 1;
    }
    proof {
        assert forall|a: int, b: int| 0 <= a < b < kept@.len() implies (#[trigger] kept@[a]).0@ != (#[trigger] kept@[b]).0@ by {
            assert(from[a] < from[b]);
            assert(e1[from[a]].0@ != e1[from[b]].0@);
        }
        assert forall|a: int| 0 <= a < kept@.len() implies listed(players@, (#[trigger] kept@[a]).0@) && entries@.contains(kept@[a]) by {
            assert(kept@[a] == e1[from[a]]);
        }
    }
    kept
}

impl ClientRoom {
    /// Takes the list of players of the room: each other player listed is added (as a
    /// lurker) unless known, and every known player not listed is forgotten.
    #[verifier::spinoff_prover]
    pub fn sync_player_list(&mut self, players: &Vec<String>, own_name: &String)
        requires
            old(self).wf(),
        ensures
            final(self).wf(),
            final(self).player_id == old(self).player_id,
            final(self).game == old(self).game,
            final(self).last_chat_seq == old(self).last_chat_seq,
            forall|i: int| 0 <= i < final(self).other_players@.len() ==> listed(players@, (#[trigger] final(self).other_players@[i]).0@),
            forall|j: int| 0 <= j < players@.len() && (#[trigger] players@[j])@ != own_name@ ==>
                exists|i: int| 0 <= i < final(self).other_players@.len() && (#[trigger] final(self).other_players@[i]).0@ == players@[j]@,
            forall|i: int| 0 <= i < old(self).other_players@.len() && listed(players@, (#[trigger] old(self).other_players@[i]).0@)
                ==> final(self).other_players@.contains(old(self).other_players@[i]),
    {
        let mut k: usize = 0;
        while k < players.len()
            invariant
                self.wf(),
                k <= players@.len(),
                self.player_id == old(self).player_id,
                self.game == old(self).game,
                self.last_chat_seq == old(self).last_chat_seq,
                forall|j: int| 0 <= j < k && (#[trigger] players@[j])@ != own_name@ ==>
                    exists|i: int| 0 <= i < self.other_players@.len() && (#[trigger] self.other_players@[i]).0@ == players@[j]@,
                forall|i: int| 0 <= i < old(self).other_players@.len() ==> self.other_players@.contains(#[trigger] old(self).other_players@[i]),
                forall|i: int| 0 <= i < self.other_players@.len() ==> old(self).other_players@.contains(#[trigger] self.other_players@[i])
                    || exists|j: int| 0 <= j < k && #[trigger] players@[j]@ == self.other_players@[i].0@,
            decreases players@.len() - k,
        {
            if players[k] != *own_name {
                let found = self.find_player(&players[k]);
                if found.is_none() {
                    let ghost e0 = self.other_players@;
                    self.other_players.push((players[k].clone(), None));
                    proof {
                        assert forall|a: int, b: int| 0 <= a < b < self.other_players@.len()
                            implies (#[trigger] self.other_players@[a]).0@ != (#[trigger] self.other_players@[b]).0@ by {
                            if b < e0.len() {
                                assert(e0[a].0@ != e0[b].0@);
                            }
                        }
                        assert forall|i: int| 0 <= i < old(self).other_players@.len() implies self.other_players@.contains(#[trigger] old(self).other_players@[i]) by {
                            let j = choose|j: int| 0 <= j < e0.len() && e0[j] == old(self).other_players@[i];
                            assert(self.other_players@[j] == e0[j]);
                        }
                        assert forall|i: int| 0 <= i < self.other_players@.len() implies old(self).other_players@.contains(#[trigger] self.other_players@[i])
                            || exists|j: int| 0 <= j < k + 1 && #[trigger] players@[j]@ == self.other_players@[i].0@ by {
                            if i == e0.len() {
                                assert(players@[k as int]@ == self.other_players@[i].0@);
                            } else {
                                assert(self.other_players@[i] == e0[i]);
                            }
                        }
                        assert forall|j: int| 0 <= j < k + 1 && (#[trigger] players@[j])@ != own_name@ implies
                            exists|i: int| 0 <= i < self.other_players@.len() && (#[trigger] self.other_players@[i]).0@ == players@[j]@ by {
                            if j == k {
                                assert(self.other_players@[e0.len() as int].0@ == players@[j]@);
                            } else {
                                let i = choose|i: int| 0 <= i < e0.len() && (#[trigger] e0[i]).0@ == players@[j]@;
                                assert(self.other_players@[i] == e0[i]);
                            }
                        }
                    }
                }
            }
            k = k + 1;
        }
        // Forget the players not listed.
        let kept = retain_listed(&self.other_players, players);
        self.other_players = kept;
    }
}

/// The latest chat number seen once `chats` are read after `last`.
pub open spec fn latest_chat(chats: Seq<BroadcastChatMessage>, last: Option<u64>) -> Option<u64>
    decreases chats.len(),
{
    if chats.len() == 0 {
        last
    } else {
        let before = latest_chat(chats.drop_last(), last);
        match chats.last().chat_seq {
            Some(s) => match before {
                Some(l) => if l < s { Some(s) } else { before },
                None => Some(s),
            },
            None => before,
        }
    }
}

/// The chats of `chats` that are new when read in order after `last`.
pub open spec fn new_chats(chats: Seq<BroadcastChatMessage>, last: Option<u64>) -> Seq<BroadcastChatMessage>
    decreases chats.len(),
{
    if chats.len() == 0 {
        Seq::empty()
    } else {
        let before = new_chats(chats.drop_last(), last);
        let seen = latest_chat(chats.drop_last(), last);
        match chats.last().chat_seq {
            Some(s) => if (match seen { Some(l) => l < s, None => true }) { before.push(chats.last()) } else { before },
            None => before,
        }
    }
}

/// Law: reading chats in order after the latest chat number `last`, only chats numbered above
/// every number seen before them are new: each new chat is numbered above `last` and above the
/// new chats before it, so a chat already seen is never passed on again. The latest number seen
/// never goes down, is at least the number of every chat read, and is that of the last new chat
/// (or `last` when none is new): a chat numbered above all before it is passed on.
pub proof fn law_new_chats_are_newer(chats: Seq<BroadcastChatMessage>, last: Option<u64>)
    ensures
        ({
            let new = new_chats(chats, last);
            let latest = latest_chat(chats, last);
            &&& forall|k: int| 0 <= k < new.len() ==> (#[trigger] new[k]).chat_seq is Some
            &&& forall|k: int| 0 <= k < new.len() ==> (last matches Some(l) ==> (#[trigger] new[k]).chat_seq->0 > l)
            &&& forall|j: int, k: int| 0 <= j < k < new.len()
                ==> (#[trigger] new[j]).chat_seq->0 < (#[trigger] new[k]).chat_seq->0
            &&& (last matches Some(l) ==> latest matches Some(m) && l <= m)
            &&& forall|k: int| 0 <= k < chats.len() ==> ((#[trigger] chats[k]).chat_seq matches Some(s)
                ==> latest matches Some(m) && s <= m)
            &&& latest == if new.len() == 0 { last } else { new.last().chat_seq }
        }),
    decreases chats.len(),
{
    if chats.len() > 0 {
        let d = chats.drop_last();
        law_new_chats_are_newer(d, last);
        let before = new_chats(d, last);
        let seen = latest_chat(d, last);
        let new = new_chats(chats, last);
        let c = chats.last();
        assert forall|k: int| 0 <= k < d.len() implies #[trigger] chats[k] == d[k] by {}
        if c.chat_seq is Some && (match seen { Some(l) => l < c.chat_seq->0, None => true }) {
            assert(new == before.push(c));
            let s = c.chat_seq->0;
            assert forall|j: int| 0 <= j < before.len() implies (#[trigger] before[j]).chat_seq->0 < s by {
                if j < before.len() - 1 {
                    assert(before[j].chat_seq->0 < before[before.len() - 1].chat_seq->0);
                }
            }
            assert forall|k: int| 0 <= k < new.len() implies (last matches Some(l) ==> (#[trigger] new[k]).chat_seq->0 > l) by {
                if k < before.len() {
                    assert(new[k] == before[k]);
                }
            }
            assert forall|j: int, k: int| 0 <= j < k < new.len()
                implies (#[trigger] new[j]).chat_seq->0 < (#[trigger] new[k]).chat_seq->0 by {
                assert(new[j] == before[j]);
                if k < before.len() {
                    assert(new[k] == before[k]);
                }
            }
        } else {
            assert(new == before);
        }
    }
}

/// No key occurs twice among the diff entries.
pub open spec fn distinct_part_keys<V>(entries: Seq<((u32, u32), V)>) -> bool {
    forall|i: int, j: int| 0 <= i < j < entries.len() ==> #[trigger] entries[i].0 != #[trigger] entries[j].0
}

/// Index of the entry for `key`, if any.
pub open spec fn part_entry<V>(entries: Seq<((u32, u32), V)>, key: (u32, u32)) -> Option<int> {
    if exists|i: int| 0 <= i < entries.len() && #[trigger] entries[i].0 == key {
        Some(choose|i: int| 0 <= i < entries.len() && #[trigger] entries[i].0 == key)
    } else {
        None
    }
}

/// A new record of `total` parts holding only `part` at `number` (if in range).
pub open spec fn fresh_parts(total: u8, number: u8, part: Seq<u8>) -> Seq<Option<Seq<u8>>> {
    Seq::new(total as nat, |i: int| if i == number { Some(part) } else { None })
}

/// The parts as byte sequences.
pub open spec fn parts_view(parts: Seq<Option<Vec<u8>>>) -> Seq<Option<Seq<u8>>> {
    parts.map_values(|p: Option<Vec<u8>>| match p { Some(v) => Some(v@), None => None })
}

/// All parts are present.
pub open spec fn all_present(parts: Seq<Option<Seq<u8>>>) -> bool {
    forall|i: int| 0 <= i < parts.len() ==> (#[trigger] parts[i]) is Some
}

/// The present parts concatenated in order.
pub open spec fn concat_parts(parts: Seq<Option<Seq<u8>>>) -> Seq<u8>
    decreases parts.len(),
{
    if parts.len() == 0 {
        Seq::empty()
    } else {
        concat_parts(parts.drop_last()) + match parts.last() { Some(p) => p, None => Seq::empty() }
    }
}

/// The bitmask of present parts (bit `i` for part `i`).
pub open spec fn have_mask(parts: Seq<Option<Seq<u8>>>) -> u32
    decreases parts.len(),
{
    if parts.len() == 0 {
        0
    } else {
        have_mask(parts.drop_last()) | if parts.last() is Some { 1u32 << ((parts.len() - 1) as u32) } else { 0u32 }
    }
}

/// The parts of the diff once `diff` was received: the earlier record with this part set, or
/// a fresh record.
pub open spec fn received_parts(entries: Seq<((u32, u32), Vec<Option<Vec<u8>>>)>, diff: crate::protocol::GenStateDiffPart) -> Seq<Option<Seq<u8>>> {
    match part_entry(entries, (diff.gen0, diff.gen1)) {
        Some(i) => parts_view(entries[i].1@).update(diff.part_number as int, Some(diff.pattern_part@)),
        None => fresh_parts(diff.total_parts, diff.part_number, diff.pattern_part@),
    }
}

/// The part `diff` cannot be taken: too many parts, or not matching the record of its diff.
pub open spec fn part_rejected(entries: Seq<((u32, u32), Vec<Option<Vec<u8>>>)>, diff: crate::protocol::GenStateDiffPart) -> bool {
    ||| diff.total_parts > MAX_DIFF_PARTS
    ||| (part_entry(entries, (diff.gen0, diff.gen1)) matches Some(i) && (entries[i].1@.len() != diff.total_parts
        || entries[i].1@.len() <= diff.part_number))
}

/// The part `diff` is recorded in the game record (`before` giving `after`): the record of its
/// diff holds the parts `parts`, the partial generation reports which parts are present, the
/// last full generation is kept, and the records of other diffs are there as before.
pub open spec fn part_stored(before: ClientGame, after: ClientGame, diff: crate::protocol::GenStateDiffPart,
    parts: Seq<Option<Seq<u8>>>) -> bool {
    &&& after.partial_gen == Some(GenPartInfo { gen0: diff.gen0, gen1: diff.gen1, have_bitmask: have_mask(parts) })
    &&& after.last_full_gen == before.last_full_gen
    &&& part_entry(after.diff_parts@, (diff.gen0, diff.gen1)) matches Some(j)
        && parts_view(after.diff_parts@[j].1@) == parts
    &&& forall|k: (u32, u32)| k != (diff.gen0, diff.gen1) ==> #[trigger] part_entry(after.diff_parts@, k) is Some
        == part_entry(before.diff_parts@, k) is Some
}

/// What applying the complete diff `diff` (with parts `parts`) to the universe, with outcome
/// `res`, makes of the game record `before`: a new generation reached becomes the last full
/// one, no generation is partial any more, and only the records of diffs to generations above
/// it are kept; no new generation forgets the diff's record. An error is no outcome here.
pub open spec fn diff_applied(before: ClientGame, after: ClientGame, diff: crate::protocol::GenStateDiffPart,
    parts: Seq<Option<Seq<u8>>>, res: Result<Option<usize>, String>) -> bool {
    let key = (diff.gen0, diff.gen1);
    match res {
        Ok(Some(latest)) => {
            &&& after.last_full_gen == Some(latest)
            &&& after.partial_gen is None
            &&& forall|k: (u32, u32)| #[trigger] part_entry(after.diff_parts@, k) is Some
                <==> (k.1 as usize > latest && (part_entry(before.diff_parts@, k) is Some || k == key))
        },
        Ok(None) => {
            &&& after.last_full_gen == before.last_full_gen
            &&& after.partial_gen == Some(GenPartInfo { gen0: diff.gen0, gen1: diff.gen1, have_bitmask: have_mask(parts) })
            &&& after.diff_parts@ == match part_entry(before.diff_parts@, key) {
                Some(i) => before.diff_parts@.remove(i),
                None => before.diff_parts@,
            }
        },
        Err(_) => false,
    }
}

/// What taking the universe update `universe_update` does to the game record `before` (giving
/// `after`), with outcome `r`, `apply` applying complete diffs (see
/// `ClientGame::process_genstate_diff_part`).
pub open spec fn diff_part_taken<A: Fn(&GenStateDiff, Option<usize>) -> Result<Option<usize>, String>>(
    before: ClientGame, after: ClientGame, universe_update: UniUpdate, apply: A, r: Result<Option<GenStateDiff>, FilterError>,
) -> bool {
    match universe_update {
        UniUpdate::NoChange => r == Ok::<Option<GenStateDiff>, FilterError>(None) && after == before,
        UniUpdate::Diff { diff } => {
            let parts = received_parts(before.diff_parts@, diff);
            if before.last_full_gen matches Some(l) && l >= diff.gen1 as usize {
                r == Ok::<Option<GenStateDiff>, FilterError>(None) && after == before
            } else if part_rejected(before.diff_parts@, diff) {
                r is Err && after == before
            } else if !all_present(parts) {
                &&& r == Ok::<Option<GenStateDiff>, FilterError>(None)
                &&& part_stored(before, after, diff, parts)
            } else {
                let dec = lz4_decompressed(concat_parts(parts));
                match r {
                    Ok(Some(g)) => {
                        &&& g.gen0 == diff.gen0 && g.gen1 == diff.gen1
                        &&& dec == Some(vstd::utf8::encode_utf8(g.pattern@))
                        &&& before.player_id is Some
                        &&& exists|res: Result<Option<usize>, String>| #[trigger] call_ensures(apply, (&g, before.player_id), res)
                            && diff_applied(before, after, diff, parts, res)
                    },
                    Ok(None) => false,
                    Err(_) => part_stored(before, after, diff, parts) && {
                        ||| dec is None
                        ||| !vstd::utf8::valid_utf8(dec->0)
                        ||| before.player_id is None
                        ||| exists|g: GenStateDiff, e: String| g.gen0 == diff.gen0 && g.gen1 == diff.gen1
                            && dec == Some(vstd::utf8::encode_utf8(g.pattern@))
                            && #[trigger] call_ensures(apply, (&g, before.player_id), Err::<Option<usize>, String>(e))
                    },
                }
            }
        },
    }
}

/// A copy of `bytes`.
fn copy_bytes(bytes: &Vec<u8>) -> (r: Vec<u8>)
    ensures
        r@ == bytes@,
{
    let r = bytes.clone();
    proof {
        assert forall|i: int| 0 <= i < r@.len() implies r@[i] == bytes@[i] by {
            assert(cloned::<u8>(bytes[i], r[i]));
        }
        assert(r@ =~= bytes@);
    }
    r
}

impl ClientGame {
    pub open spec fn wf(&self) -> bool {
        &&& distinct_part_keys(self.diff_parts@)
        &&& forall|i: int| 0 <= i < self.diff_parts@.len() ==> (#[trigger] self.diff_parts@[i]).1@.len() <= MAX_DIFF_PARTS
    }

    pub fn new(player_id: Option<usize>) -> (r: Self)
        ensures
            r.wf(),
            r.player_id == player_id,
            r.diff_parts@.len() == 0,
            r.last_full_gen is None,
            r.partial_gen is None,
    {
        ClientGame { player_id, diff_parts: Vec::new(), last_full_gen: None, partial_gen: None }
    }

    fn find_entry(&self, key: (u32, u32)) -> (r: Option<usize>)
        requires
            self.wf(),
        ensures
            match r {
                Some(i) => i < self.diff_parts@.len() && self.diff_parts@[i as int].0 == key
                    && part_entry(self.diff_parts@, key) == Some(i as int),
                None => part_entry(self.diff_parts@, key) is None,
            },
    {
        let mut i: usize = 0;
        while i < self.diff_parts.len()
            invariant
                self.wf(),
                i <= self.diff_parts@.len(),
                forall|j: int| 0 <= j < i ==> self.diff_parts@[j].0 != key,
            decreases self.diff_parts@.len() - i,
        {
            if self.diff_parts[i].0.0 == key.0 && self.diff_parts[i].0.1 == key.1 {
                proof {
                    let es = self.diff_parts@;
                    assert(es[i as int].0 == key);
                    let k = choose|j: int| 0 <= j < es.len() && #[trigger] es[j].0 == key;
                    if k < i {
                        assert(es[k].0 != es[i as int].0);
                    } else if k > i {
                        assert(es[i as int].0 != es[k].0);
                    }
                }
                return Some(i);
            }
            i = i + 1;
        }
        None
    }

    /// Takes a received universe update. A part of a diff the client is already past, or no
    /// change, gives nothing. A part that cannot be taken is an error. Otherwise the part is
    /// recorded and the partial generation reports the parts present; once all are, their
    /// concatenation is decompressed into the diff's pattern, which `apply` applies to the
    /// universe for this player (a player index is needed). A new generation reached forgets
    /// the diffs up to it; otherwise the diff's record is forgotten. The diff is returned.
    pub fn process_genstate_diff_part<A: Fn(&GenStateDiff, Option<usize>) -> Result<Option<usize>, String>>(
        &mut self,
        universe_update: UniUpdate,
        apply: &A,
    ) -> (r: Result<Option<GenStateDiff>, FilterError>)
        requires
            old(self).wf(),
            forall|d: &GenStateDiff, p: Option<usize>| #[trigger] apply.requires((d, p)),
        ensures
            final(self).wf(),
            final(self).player_id == old(self).player_id,
            diff_part_taken(*old(self), *final(self), universe_update, *apply, r),
    {
        let diff = match universe_update {
            UniUpdate::NoChange => {
                return Ok(None);
            },
            UniUpdate::Diff { diff } => diff,
        };
        let gen0 = diff.gen0;
        let gen1 = diff.gen1;
        if let Some(last_full_gen) = self.last_full_gen {
            if last_full_gen >= gen1 as usize {
                return Ok(None);
            }
        }
        if diff.total_parts > MAX_DIFF_PARTS {
            return Err(FilterError::Refused { problem: String::from_str("total parts exceeds limit") });
        }
        let ghost parts_spec = received_parts(self.diff_parts@, diff);
        let ghost e0 = self.diff_parts@;
        let found = self.find_entry((gen0, gen1));
        let idx = match found {
            None => {
                let mut new_parts: Vec<Option<Vec<u8>>> = Vec::new();
                let mut i: u8 = 0;
                while i < diff.total_parts
                    invariant
                        i <= diff.total_parts,
                        new_parts@.len() == i,
                        forall|j: int| 0 <= j < i ==> #[trigger] parts_view(new_parts@)[j]
                            == fresh_parts(diff.total_parts, diff.part_number, diff.pattern_part@)[j],
                    decreases diff.total_parts - i,
                {
                    let ghost before = new_parts@;
                    if i == diff.part_number {
                        new_parts.push(Some(copy_bytes(&diff.pattern_part)));
                    } else {
                        new_parts.push(None);
                    }
                    proof {
                        assert forall|j: int| 0 <= j < i + 1 implies #[trigger] parts_view(new_parts@)[j]
                            == fresh_parts(diff.total_parts, diff.part_number, diff.pattern_part@)[j] by {
                            if j < i {
                                assert(new_parts@[j] == before[j]);
                                assert(parts_view(before)[j] == parts_view(new_parts@)[j]);
                            }
                        }
                    }
                    i = i + 1;
                }
                proof {
                    assert(parts_view(new_parts@) =~= fresh_parts(diff.total_parts, diff.part_number, diff.pattern_part@));
                }
                self.diff_parts.push(((gen0, gen1), new_parts));
                proof {
                    assert forall|a: int, b: int| 0 <= a < b < self.diff_parts@.len()
                        implies #[trigger] self.diff_parts@[a].0 != #[trigger] self.diff_parts@[b].0 by {
                        if b < e0.len() {
                            assert(e0[a].0 != e0[b].0);
                        } else if e0[a].0 == (gen0, gen1) {
                            assert(exists|i: int| 0 <= i < e0.len() && #[trigger] e0[i].0 == (gen0, gen1));
                        }
                    }
                }
                self.diff_parts.len() - 1
            },
            Some(i) => {
                let n = self.diff_parts[i].1.len();
                if n != diff.total_parts as usize {
                    return Err(FilterError::Refused { problem: String::from_str("total parts do not match") });
                }
                if n <= diff.part_number as usize {
                    return Err(FilterError::Refused { problem: String::from_str("part number out of range") });
                }
                let (key, mut parts) = self.diff_parts.remove(i);
                parts.set(diff.part_number as usize, Some(copy_bytes(&diff.pattern_part)));
                self.diff_parts.insert(i, (key, parts));
                proof {
                    assert(self.diff_parts@ =~= e0.update(i as int, (key, parts)));
                    assert(parts_view(parts@) =~= parts_spec);
                    assert forall|a: int, b: int| 0 <= a < b < self.diff_parts@.len()
                        implies #[trigger] self.diff_parts@[a].0 != #[trigger] self.diff_parts@[b].0 by {
                        assert(e0[a].0 != e0[b].0);
                    }
                }
                i
            },
        };
        proof {
            assert forall|j: int| 0 <= j < self.diff_parts@.len() implies (#[trigger] self.diff_parts@[j]).1@.len() <= MAX_DIFF_PARTS by {
                if j != idx {
                    assert(self.diff_parts@[j] == e0[j]);
                }
            }
            assert(part_entry(self.diff_parts@, (gen0, gen1)) == Some(idx as int)) by {
                assert(self.diff_parts@[idx as int].0 == (gen0, gen1));
                let k = choose|j: int| 0 <= j < self.diff_parts@.len() && #[trigger] self.diff_parts@[j].0 == (gen0, gen1);
                if k < idx {
                    assert(self.diff_parts@[k].0 != self.diff_parts@[idx as int].0);
                } else if k > idx {
                    assert(self.diff_parts@[idx as int].0 != self.diff_parts@[k].0);
                }
            }
            assert forall|k: (u32, u32)| k != (gen0, gen1) implies #[trigger] part_entry(self.diff_parts@, k) is Some
                == part_entry(e0, k) is Some by {
                if part_entry(e0, k) is Some {
                    let j = choose|j: int| 0 <= j < e0.len() && #[trigger] e0[j].0 == k;
                    assert(self.diff_parts@[j].0 == k);
                }
                if part_entry(self.diff_parts@, k) is Some {
                    let j = choose|j: int| 0 <= j < self.diff_parts@.len() && #[trigger] self.diff_parts@[j].0 == k;
                    assert(j < e0.len());
                    assert(e0[j].0 == k);
                }
            }
        }
        // Report which parts are present, and gather them if all are.
        let parts = &self.diff_parts[idx].1;
        let mut mask: u32 = 0;
        let mut all = true;
        let mut compressed: Vec<u8> = Vec::new();
        let mut i: usize = 0;
        while i < parts.len()
            invariant
                parts@.len() <= MAX_DIFF_PARTS,
                i <= parts@.len(),
                mask == have_mask(parts_view(parts@).take(i as int)),
                all == all_present(parts_view(parts@).take(i as int)),
                all ==> compressed@ == concat_parts(parts_view(parts@).take(i as int)),
            decreases parts@.len() - i,
        {
            proof {
                assert(parts_view(parts@).take(i + 1).drop_last() =~= parts_view(parts@).take(i as int));
            }
            match &parts[i] {
                Some(p) => {
                    mask = mask | (1u32 << (i as u32));
                    if all {
                        let mut k: usize = 0;
                        let ghost c0 = compressed@;
                        while k < p.len()
                            invariant
                                k <= p@.len(),
                                compressed@ == c0 + p@.take(k as int),
                            decreases p@.len() - k,
                        {
                            compressed.push(p[k]);
                            k = k + 1;
                            proof {
                                assert(compressed@ =~= c0 + p@.take(k as int));
                            }
                        }
                        proof {
                            assert(p@.take(p@.len() as int) =~= p@);
                        }
                    }
                },
                None => {
                    all = false;
                    proof {
                        assert(parts_view(parts@).take(i + 1)[i as int] is None);
                        assert(mask | 0u32 == mask) by (bit_vector);
                    }
                },
            }
            proof {
                if all {
                    assert forall|j: int| 0 <= j < i + 1 implies (#[trigger] parts_view(parts@).take(i + 1)[j]) is Some by {
                        if j < i {
                            assert(parts_view(parts@).take(i + 1)[j] == parts_view(parts@).take(i as int)[j]);
                        }
                    }
                } else if i > 0 && !all_present(parts_view(parts@).take(i as int)) {
                    let w = choose|j: int| 0 <= j < i && !((#[trigger] parts_view(parts@).take(i as int)[j]) is Some);
                    assert(parts_view(parts@).take(i + 1)[w] == parts_view(parts@).take(i as int)[w]);
                }
            }
            i = i + 1;
        }
        proof {
            assert(parts_view(parts@).take(parts@.len() as int) =~= parts_view(parts@));
        }
        self.partial_gen = Some(GenPartInfo { gen0, gen1, have_bitmask: mask });
        if !all {
            return Ok(None);
        }
        let diff_bytes = match decompress_size_prepended(compressed.as_slice()) {
            Some(b) => b,
            None => {
                return Err(FilterError::Refused { problem: String::from_str("diff parts do not decompress") });
            },
        };
        let pattern = match string_from_utf8(diff_bytes) {
            Some(s) => s,
            None => {
                return Err(FilterError::Refused { problem: String::from_str("diff pattern is not valid UTF-8") });
            },
        };
        proof {
            vstd::utf8::decode_utf8_encode_utf8(diff_bytes@);
        }
        let genstatediff = GenStateDiff { gen0: gen0 as usize, gen1: gen1 as usize, pattern };
        if self.player_id.is_none() {
            return Err(FilterError::Refused { problem: String::from_str("server has not provided a player id") });
        }
        let applied = apply(&genstatediff, self.player_id);
        let opt_gen = match applied {
            Ok(g) => g,
            Err(e) => {
                return Err(FilterError::Refused { problem: e });
            },
        };
        let ghost mid = *self;
        match opt_gen {
            Some(latest_gen) => {
                self.retain_newer(latest_gen);
                self.last_full_gen = Some(latest_gen);
                self.partial_gen = None;
                proof {
                    assert forall|k: (u32, u32)| #[trigger] part_entry(self.diff_parts@, k) is Some
                        <==> (k.1 as usize > latest_gen && (part_entry(e0, k) is Some || k == (gen0, gen1))) by {
                        if k != (gen0, gen1) {
                            assert(part_entry(mid.diff_parts@, k) is Some == part_entry(e0, k) is Some);
                        } else {
                            assert(part_entry(mid.diff_parts@, k) is Some);
                        }
                    }
                }
            },
            None => {
                self.remove_entry(idx);
                proof {
                    match part_entry(e0, (gen0, gen1)) {
                        Some(i) => {
                            assert(self.diff_parts@ =~= e0.remove(i));
                        },
                        None => {
                            assert(self.diff_parts@ =~= e0);
                        },
                    }
                }
            },
        }
        proof {
            assert(applied == Ok::<Option<usize>, String>(opt_gen));
            assert(mask == have_mask(parts_spec));
            assert(diff_applied(*old(self), *self, diff, parts_spec, applied));
        }
        Ok(Some(genstatediff))
    }

    /// Keeps the records of diffs to generations above `gen`.
    fn retain_newer(&mut self, gen: usize)
        requires
            old(self).wf(),
        ensures
            final(self).wf(),
            final(self).player_id == old(self).player_id,
            final(self).last_full_gen == old(self).last_full_gen,
            final(self).partial_gen == old(self).partial_gen,
            forall|i: int| 0 <= i < final(self).diff_parts@.len() ==> (#[trigger] final(self).diff_parts@[i]).0.1 as usize > gen,
            forall|k: (u32, u32)| #[trigger] part_entry(final(self).diff_parts@, k) is Some
                <==> (k.1 as usize > gen && part_entry(old(self).diff_parts@, k) is Some),
    {
        let mut kept: Vec<((u32, u32), Vec<Option<Vec<u8>>>)> = Vec::new();
        let mut taken: Vec<((u32, u32), Vec<Option<Vec<u8>>>)> = Vec::new();
        std::mem::swap(&mut taken, &mut self.diff_parts);
        let ghost e0 = taken@;
        let ghost mut from: Seq<int> = Seq::empty();
        proof {
            assert(e0.take(0) =~= Seq::<((u32, u32), Vec<Option<Vec<u8>>>)>::empty());
        }
        let mut i: usize = 0;
        let n0 = taken.len();
        while taken.len() > 0
            invariant
                n0 == e0.len(),
                i + taken@.len() == e0.len(),
                taken@ == e0.skip(i as int),
                from.len() == kept@.len(),
                forall|k: int| 0 <= k < from.len() ==> 0 <= #[trigger] from[k] < i && kept@[k] == e0[from[k]],
                forall|k: int, l: int| 0 <= k < l < from.len() ==> #[trigger] from[k] < #[trigger] from[l],
                forall|k: int| 0 <= k < kept@.len() ==> (#[trigger] kept@[k]).0.1 as usize > gen,
                forall|k: (u32, u32)| #[trigger] part_entry(kept@, k) is Some
                    <==> (k.1 as usize > gen && part_entry(e0.take(i as int), k) is Some),
                distinct_part_keys(e0),
                forall|j: int| 0 <= j < e0.len() ==> (#[trigger] e0[j]).1@.len() <= MAX_DIFF_PARTS,
            decreases taken@.len(),
        {
            let entry = taken.remove(0);
            let ghost kept0 = kept@;
            proof {
                assert(entry == e0[i as int]);
                assert(taken@ =~= e0.skip(i + 1));
                assert(e0.take(i + 1) =~= e0.take(i as int).push(entry));
            }
            if entry.0.1 as usize > gen {
                kept.push(entry);
                proof {
                    from = from.push(i as int);
                }
            }
            proof {
                let t0 = e0.take(i as int);
                let t1 = e0.take(i + 1);
                assert forall|k: (u32, u32)| #[trigger] part_entry(kept@, k) is Some
                    <==> (k.1 as usize > gen && part_entry(t1, k) is Some) by {
                    if part_entry(kept@, k) is Some {
                        let m = choose|m: int| 0 <= m < kept@.len() && #[trigger] kept@[m].0 == k;
                        if m < kept0.len() {
                            assert(kept0[m].0 == k);
                            assert(part_entry(kept0, k) is Some);
                            let j = choose|j: int| 0 <= j < t0.len() && #[trigger] t0[j].0 == k;
                            assert(t1[j].0 == k);
                        } else {
                            assert(t1[i as int].0 == k);
                        }
                    }
                    if k.1 as usize > gen && part_entry(t1, k) is Some {
                        let j = choose|j: int| 0 <= j < t1.len() && #[trigger] t1[j].0 == k;
                        if j < i {
                            assert(t0[j].0 == k);
                            assert(part_entry(t0, k) is Some);
                            let m = choose|m: int| 0 <= m < kept0.len() && #[trigger] kept0[m].0 == k;
                            assert(kept@[m].0 == k);
                        } else {
                            assert(kept@[kept@.len() - 1].0 == k);
                        }
                    }
                }
            }
            i = i + 1;
        }
        proof {
            assert(e0.take(i as int) =~= e0);
            assert forall|a: int, b: int| 0 <= a < b < kept@.len() implies #[trigger] kept@[a].0 != #[trigger] kept@[b].0 by {
                assert(from[a] < from[b]);
                assert(e0[from[a]].0 != e0[from[b]].0);
            }
            assert forall|k: int| 0 <= k < kept@.len() implies (#[trigger] kept@[k]).1@.len() <= MAX_DIFF_PARTS by {
                assert(kept@[k] == e0[from[k]]);
            }
        }
        self.diff_parts = kept;
    }

    /// Forgets the record at `idx`.
    fn remove_entry(&mut self, idx: usize)
        requires
            old(self).wf(),
            idx < old(self).diff_parts@.len(),
        ensures
            final(self).wf(),
            final(self).player_id == old(self).player_id,
            final(self).last_full_gen == old(self).last_full_gen,
            final(self).partial_gen == old(self).partial_gen,
            final(self).diff_parts@ == old(self).diff_parts@.remove(idx as int),
    {
        let ghost e0 = self.diff_parts@;
        let _ = self.diff_parts.remove(idx);
        proof {
            assert forall|a: int, b: int| 0 <= a < b < self.diff_parts@.len()
                implies #[trigger] self.diff_parts@[a].0 != #[trigger] self.diff_parts@[b].0 by {
                let a0 = if a < idx { a } else { a + 1 };
                let b0 = if b < idx { b } else { b + 1 };
                assert(e0[a0].0 != e0[b0].0);
            }
            assert forall|j: int| 0 <= j < self.diff_parts@.len() implies (#[trigger] self.diff_parts@[j]).1@.len() <= MAX_DIFF_PARTS by {
                let j0 = if j < idx { j } else { j + 1 };
                assert(self.diff_parts@[j] == e0[j0]);
            }
        }
    }
}

} // verus!
