//! A fixed block of rooms that a server hands out by name and takes back by identifier.
use vstd::prelude::*;
use indexmap::IndexMap;
use snowflake::ProcessUniqueId;
use crate::transport::interface::new_tid;

verus! {

/// The longest room name, in bytes.
pub const MAX_ROOM_NAME_CHARS: usize = 32;
/// Rooms in a block.
pub const ROOMS_PER_SERVER: usize = 3;

pub type PlayerId = ProcessUniqueId;
pub type RoomId = ProcessUniqueId;

#[verifier::external_type_specification]
#[verifier::external_body]
#[verifier::reject_recursive_types(K)]
#[verifier::reject_recursive_types(V)]
#[verifier::reject_recursive_types(S)]
pub struct ExIndexMap<K, V, S>(IndexMap<K, V, S>);

/// Why a room could not be allocated or freed.
#[derive(Debug)]
pub enum RoomMgrError {
    /// Every room of the block is in use.
    RoomBlockEmpty,
    RoomWithNameExists { name: String },
    RoomIdNotFound { id: RoomId },
    /// Empty, or longer than `MAX_ROOM_NAME_CHARS` bytes.
    InvalidRoomName { name: String },
    /// A room in use already has the identifier that a new room was to take.
    RoomIdInUse { id: RoomId },
}

/// A room of the block.
pub struct Room {
    pub name: String,
    pub player_a: Option<PlayerId>,
    pub player_b: Option<PlayerId>,
}

impl Room {
    /// An unused room: no name, no players.
    pub fn unused() -> (r: Room)
        ensures
            r.name@ == Seq::<char>::empty(),
            r.player_a is None,
            r.player_b is None,
    {
        Room { name: String::new(), player_a: None, player_b: None }
    }
}

/// A name for what an `IndexMap` from room names to room identifiers holds: each name (by its
/// text) with its identifier.
pub uninterp spec fn ids_by_name(m: IndexMap<String, RoomId>) -> Map<Seq<char>, RoomId>;

/// A name for what an `IndexMap` from room identifiers to rooms holds: each identifier with
/// the name of its room.
pub uninterp spec fn names_by_id(m: IndexMap<RoomId, Room>) -> Map<RoomId, Seq<char>>;

/// Calls `IndexMap::new` for names to identifiers: an empty map.
#[verifier::external_body]
fn new_name_index() -> (index: IndexMap<String, RoomId>)
    ensures
        (ids_by_name(index) == Map::<Seq<char>, RoomId>::empty()),
{
    IndexMap::new()
}

/// Calls `IndexMap::new` for identifiers to rooms: an empty map.
#[verifier::external_body]
fn new_room_index() -> (index: IndexMap<RoomId, Room>)
    ensures
        (names_by_id(index) == Map::<RoomId, Seq<char>>::empty()),
{
    IndexMap::new()
}

/// Calls `IndexMap::len` on names to identifiers: the number of entries.
#[verifier::external_body]
fn name_index_len(m: &IndexMap<String, RoomId>) -> (n: usize)
    ensures
        n == ids_by_name(*m).len(),
{
    m.len()
}

/// Calls `IndexMap::len` on identifiers to rooms: the number of entries.
#[verifier::external_body]
fn room_index_len(m: &IndexMap<RoomId, Room>) -> (n: usize)
    ensures
        n == names_by_id(*m).len(),
{
    m.len()
}

/// Calls `IndexMap::contains_key` on names to identifiers: whether a name with the same text
/// is a key (`String` compares by text).
#[verifier::external_body]
fn name_index_has(m: &IndexMap<String, RoomId>, name: &String) -> (r: bool)
    ensures
        r == ids_by_name(*m).contains_key(name@),
{
    m.contains_key(name)
}

/// Calls `IndexMap::contains_key` on identifiers to rooms: whether `id` is a key
/// (`ProcessUniqueId` compares every field).
#[verifier::external_body]
fn room_index_has(m: &IndexMap<RoomId, Room>, id: &RoomId) -> (r: bool)
    ensures
        r == names_by_id(*m).contains_key(*id),
{
    m.contains_key(id)
}

/// Calls `IndexMap::insert` on names to identifiers: the name now maps to `id`.
#[verifier::external_body]
fn name_index_insert(m: &mut IndexMap<String, RoomId>, name: String, id: RoomId)
    ensures
        ids_by_name(*final(m)) == ids_by_name(*old(m)).insert(name@, id),
{
    let _ = m.insert(name, id);
}

/// Calls `IndexMap::insert` on identifiers to rooms: `id` now maps to `room`.
#[verifier::external_body]
fn room_index_insert(m: &mut IndexMap<RoomId, Room>, id: RoomId, room: Room)
    ensures
        names_by_id(*final(m)) == names_by_id(*old(m)).insert(id, room.name@),
{
    let _ = m.insert(id, room);
}

/// Calls `IndexMap::remove` on names to identifiers: the entry of the name is taken out and
/// its identifier returned, `None` when there was none.
#[verifier::external_body]
fn name_index_remove(m: &mut IndexMap<String, RoomId>, name: &String) -> (r: Option<RoomId>)
    ensures
        ids_by_name(*final(m)) == ids_by_name(*old(m)).remove(name@),
        r == if ids_by_name(*old(m)).contains_key(name@) { Some(ids_by_name(*old(m))[name@]) } else { None },
{
    m.remove(name)
}

/// Calls `IndexMap::remove` on identifiers to rooms: the entry of `id` is taken out and its
/// room returned, `None` when there was none.
#[verifier::external_body]
fn room_index_remove(m: &mut IndexMap<RoomId, Room>, id: &RoomId) -> (r: Option<Room>)
    ensures
        names_by_id(*final(m)) == names_by_id(*old(m)).remove(*id),
        r is Some == names_by_id(*old(m)).contains_key(*id),
        r matches Some(room) ==> room.name@ == names_by_id(*old(m))[*id],
{
    m.remove(id)
}

/// The rooms of a server: those in use, by name and by identifier, and the unused ones.
pub struct RoomBlock {
    names2rid: IndexMap<String, RoomId>,
    rid2room: IndexMap<RoomId, Room>,
    free_pool: Vec<Room>,
}

/// Whether `name` can name a room: not empty, and at most `MAX_ROOM_NAME_CHARS` bytes long
/// once encoded in UTF-8.
pub open spec fn valid_room_name(name: Seq<char>) -> bool {
    name.len() > 0 && (vstd::utf8::encode_utf8(name).len() as usize) <= MAX_ROOM_NAME_CHARS
}

impl RoomBlock {
    /// The rooms in use: each identifier with the room's name.
    pub closed spec fn rooms(&self) -> Map<RoomId, Seq<char>> {
        names_by_id(self.rid2room)
    }

    /// The identifiers of the rooms in use, by name.
    pub closed spec fn ids(&self) -> Map<Seq<char>, RoomId> {
        ids_by_name(self.names2rid)
    }

    /// The names and identifiers of the rooms in use match one for one, and with the unused
    /// rooms they make up the block.
    pub closed spec fn wf(&self) -> bool {
        let names = ids_by_name(self.names2rid);
        let rooms = names_by_id(self.rid2room);
        &&& names.dom().finite()
        &&& rooms.dom().finite()
        &&& names.len() == rooms.len()
        &&& rooms.len() + self.free_pool@.len() == ROOMS_PER_SERVER
        &&& forall|id: RoomId| #[trigger] rooms.contains_key(id) ==> names.contains_key(rooms[id]) && names[rooms[id]] == id
        &&& forall|n: Seq<char>| #[trigger] names.contains_key(n) ==> rooms.contains_key(names[n]) && rooms[names[n]] == n
    }

    /// A block with every room unused.
    pub fn new() -> (r: RoomBlock)
        ensures
            r.wf(),
            r.rooms() == Map::<RoomId, Seq<char>>::empty(),
    {
        let mut room_pool: Vec<Room> = Vec::new();
        let mut i: usize = 0;
        while i < ROOMS_PER_SERVER
            invariant
                i <= ROOMS_PER_SERVER,
                room_pool@.len() == i,
            decreases ROOMS_PER_SERVER - i,
        {
            room_pool.push(Room::unused());
            i = i + 1;
        }
        let r = RoomBlock { names2rid: new_name_index(), rid2room: new_room_index(), free_pool: room_pool };
        proof {
            assert(ids_by_name(r.names2rid).dom() =~= Set::<Seq<char>>::empty());
            assert(names_by_id(r.rid2room).dom() =~= Set::<RoomId>::empty());
        }
        r
    }

    /// The rooms and names of a block are finitely many, at most one per room of the block.
    pub proof fn lemma_rooms_finite(&self)
        requires
            self.wf(),
        ensures
            self.rooms().dom().finite(),
            self.ids().dom().finite(),
            self.rooms().len() == self.ids().len(),
            self.rooms().len() <= ROOMS_PER_SERVER,
    {
    }

    /// The number of rooms in use.
    pub fn count(&self) -> (n: usize)
        requires
            self.wf(),
        ensures
            n == self.rooms().len(),
            self.rooms().dom().finite(),
    {
        let n = room_index_len(&self.rid2room);
        let names = name_index_len(&self.names2rid);
        proof {
            assert(n == names);
            assert(n == ROOMS_PER_SERVER - self.free_pool@.len());
        }
        n
    }

    /// Allocates an unused room to the name `room_name`, under a fresh identifier of the
    /// process (`ProcessUniqueId::new`). A name that is empty or too long is refused first, then
    /// a request when every room is in use, then a name already in use; what follows is
    /// `allocate_with_id` on the new identifier.
    pub fn allocate(&mut self, room_name: String) -> (r: Result<RoomId, RoomMgrError>)
        requires
            old(self).wf(),
        ensures
            final(self).wf(),
            !valid_room_name(room_name@) ==> (r matches Err(RoomMgrError::InvalidRoomName { name }) && name@ == room_name@),
            valid_room_name(room_name@) && old(self).rooms().len() == ROOMS_PER_SERVER
                ==> r matches Err(RoomMgrError::RoomBlockEmpty),
            valid_room_name(room_name@) && old(self).rooms().len() < ROOMS_PER_SERVER && old(self).ids().contains_key(room_name@)
                ==> (r matches Err(RoomMgrError::RoomWithNameExists { name }) && name@ == room_name@),
            (valid_room_name(room_name@) && old(self).rooms().len() < ROOMS_PER_SERVER
                && !old(self).ids().contains_key(room_name@) ==> match r {
                    Ok(id) => !old(self).rooms().contains_key(id),
                    Err(e) => (e matches RoomMgrError::RoomIdInUse { id } && old(self).rooms().contains_key(id)),
                }),
            r matches Ok(id) ==> {
                &&& final(self).rooms() == old(self).rooms().insert(id, room_name@)
                &&& final(self).ids() == old(self).ids().insert(room_name@, id)
            },
            r is Err ==> final(self).rooms() == old(self).rooms() && final(self).ids() == old(self).ids(),
    {
        if !self.name_fits(&room_name) {
            return Err(RoomMgrError::InvalidRoomName { name: room_name });
        }
        if self.free_pool.len() == 0 {
            return Err(RoomMgrError::RoomBlockEmpty);
        }
        if name_index_has(&self.names2rid, &room_name) {
            return Err(RoomMgrError::RoomWithNameExists { name: room_name });
        }
        let room_id = new_tid();
        self.allocate_with_id(room_name, room_id)
    }

    /// Whether `room_name` is a valid room name (see `valid_room_name`).
    fn name_fits(&self, room_name: &String) -> (r: bool)
        ensures
            r == valid_room_name(room_name@),
    {
        let text = room_name.as_str();
        let empty = text.is_empty();
        let bytes = text.len();
        proof {
            assert(text@ == room_name@);
            assert(bytes == vstd::utf8::encode_utf8(room_name@).len() as usize);
        }
        !(empty || bytes > MAX_ROOM_NAME_CHARS)
    }

    /// Allocates an unused room to the name `room_name` under the identifier `room_id`. It is
    /// refused, in this order, for a name that is empty or too long, when every room is in use,
    /// for a name already in use, and for an identifier already in use; otherwise the room is
    /// added under both.
    pub fn allocate_with_id(&mut self, room_name: String, room_id: RoomId) -> (r: Result<RoomId, RoomMgrError>)
        requires
            old(self).wf(),
        ensures
            final(self).wf(),
            !valid_room_name(room_name@) ==> (r matches Err(RoomMgrError::InvalidRoomName { name }) && name@ == room_name@),
            valid_room_name(room_name@) && old(self).rooms().len() == ROOMS_PER_SERVER
                ==> r matches Err(RoomMgrError::RoomBlockEmpty),
            valid_room_name(room_name@) && old(self).rooms().len() < ROOMS_PER_SERVER && old(self).ids().contains_key(room_name@)
                ==> (r matches Err(RoomMgrError::RoomWithNameExists { name }) && name@ == room_name@),
            (valid_room_name(room_name@) && old(self).rooms().len() < ROOMS_PER_SERVER && !old(self).ids().contains_key(room_name@)
                && old(self).rooms().contains_key(room_id) ==> (r matches Err(RoomMgrError::RoomIdInUse { id }) && id == room_id)),
            r is Ok <==> (valid_room_name(room_name@) && old(self).rooms().len() < ROOMS_PER_SERVER
                && !old(self).ids().contains_key(room_name@) && !old(self).rooms().contains_key(room_id)),
            r matches Ok(id) ==> {
                &&& id == room_id
                &&& final(self).rooms() == old(self).rooms().insert(room_id, room_name@)
                &&& final(self).ids() == old(self).ids().insert(room_name@, room_id)
            },
            r is Err ==> final(self).rooms() == old(self).rooms() && final(self).ids() == old(self).ids(),
    {
        if !self.name_fits(&room_name) {
            return Err(RoomMgrError::InvalidRoomName { name: room_name });
        }
        if self.free_pool.len() == 0 {
            return Err(RoomMgrError::RoomBlockEmpty);
        }
        if name_index_has(&self.names2rid, &room_name) {
            return Err(RoomMgrError::RoomWithNameExists { name: room_name });
        }
        if room_index_has(&self.rid2room, &room_id) {
            return Err(RoomMgrError::RoomIdInUse { id: room_id });
        }
        let mut room = match self.free_pool.pop() {
            Some(room) => room,
            None => {
                return Err(RoomMgrError::RoomBlockEmpty);
            },
        };
        room.name = room_name.clone();
        let ghost nm = room_name@;
        let ghost names0 = ids_by_name(self.names2rid);
        let ghost rooms0 = names_by_id(self.rid2room);
        name_index_insert(&mut self.names2rid, room_name, room_id);
        room_index_insert(&mut self.rid2room, room_id, room);
        proof {
            let names = ids_by_name(self.names2rid);
            let rooms = names_by_id(self.rid2room);
            assert(!names0.contains_key(nm));
            assert(!rooms0.contains_key(room_id));
            assert(names.len() == names0.len() + 1);
            assert(rooms.len() == rooms0.len() + 1);
            assert forall|id: RoomId| #[trigger] rooms.contains_key(id) implies names.contains_key(rooms[id]) && names[rooms[id]] == id by {
                if id != room_id {
                    assert(rooms0.contains_key(id));
                    assert(rooms0[id] != nm);
                }
            }
            assert forall|n: Seq<char>| #[trigger] names.contains_key(n) implies rooms.contains_key(names[n]) && rooms[names[n]] == n by {
                if n != nm {
                    assert(names0.contains_key(n));
                    assert(names0[n] != room_id);
                }
            }
        }
        Ok(room_id)
    }

    /// Frees the room `room_id`, which becomes unused; `RoomIdNotFound` when no room in use has
    /// that identifier.
    pub fn free(&mut self, room_id: RoomId) -> (r: Result<(), RoomMgrError>)
        requires
            old(self).wf(),
        ensures
            final(self).wf(),
            (r is Ok) == old(self).rooms().contains_key(room_id),
            r is Ok ==> final(self).rooms() == old(self).rooms().remove(room_id)
                && final(self).ids() == old(self).ids().remove(old(self).rooms()[room_id]),
            r matches Err(e) ==> e == (RoomMgrError::RoomIdNotFound { id: room_id }) && final(self).rooms() == old(self).rooms()
                && final(self).ids() == old(self).ids(),
    {
        let ghost names0 = ids_by_name(self.names2rid);
        let ghost rooms0 = names_by_id(self.rid2room);
        match room_index_remove(&mut self.rid2room, &room_id) {
            Some(room) => {
                let _ = name_index_remove(&mut self.names2rid, &room.name);
                self.free_pool.push(Room::unused());
                proof {
                    let names = ids_by_name(self.names2rid);
                    let rooms = names_by_id(self.rid2room);
                    assert(names0.contains_key(room.name@));
                    assert(names.len() == names0.len() - 1);
                    assert(rooms.len() == rooms0.len() - 1);
                    assert forall|id: RoomId| #[trigger] rooms.contains_key(id) implies names.contains_key(rooms[id]) && names[rooms[id]] == id by {
                        assert(rooms0.contains_key(id));
                        assert(rooms0[id] != room.name@);
                    }
                    assert forall|n: Seq<char>| #[trigger] names.contains_key(n) implies rooms.contains_key(names[n]) && rooms[names[n]] == n by {
                        assert(names0.contains_key(n));
                        assert(names0[n] != room_id);
                    }
                }
                Ok(())
            },
            None => Err(RoomMgrError::RoomIdNotFound { id: room_id }),
        }
    }
}

/// Law: a successful allocation (a new identifier under a name, added to a well-formed block)
/// adds exactly one room to the count.
pub proof fn law_allocate_adds_one(before: RoomBlock, after: RoomBlock, id: RoomId, name: Seq<char>)
    requires
        before.wf(),
        !before.rooms().contains_key(id),
        after.rooms() == before.rooms().insert(id, name),
    ensures
        after.rooms().len() == before.rooms().len() + 1,
{
    before.lemma_rooms_finite();
}

/// Law: freeing the room that was just allocated gives back the block's rooms and names as
/// they were before the allocation.
pub proof fn law_free_undoes_allocate(before: RoomBlock, mid: RoomBlock, after: RoomBlock, id: RoomId, name: Seq<char>)
    requires
        !before.rooms().contains_key(id),
        !before.ids().contains_key(name),
        mid.rooms() == before.rooms().insert(id, name),
        mid.ids() == before.ids().insert(name, id),
        after.rooms() == mid.rooms().remove(id),
        after.ids() == mid.ids().remove(mid.rooms()[id]),
    ensures
        after.rooms() == before.rooms(),
        after.ids() == before.ids(),
{
    assert(after.rooms() =~= before.rooms());
    assert(after.ids() =~= before.ids());
}

} // verus!
