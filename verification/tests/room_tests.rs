use netwayste::app::server::room::{RoomBlock, RoomId, RoomMgrError, MAX_ROOM_NAME_CHARS, ROOMS_PER_SERVER};

#[test]
fn test_allocate_all_rooms() {
    let mut rooms = RoomBlock::new();

    for i in 0..ROOMS_PER_SERVER {
        assert!(rooms.allocate(format!("room {}", i)).is_ok());
    }
}

#[test]
fn test_allocation_fails_pool_empty() {
    let mut rooms = RoomBlock::new();

    for i in 0..ROOMS_PER_SERVER {
        assert!(rooms.allocate(format!("room {}", i)).is_ok());

        let _ = rooms.count();
    }

    assert!(rooms.allocate("allocation-should-fail".into()).is_err());
}

#[test]
fn test_allocation_fails_duplicate() {
    let mut rooms = RoomBlock::new();

    assert!(rooms.allocate("room-name".into()).is_ok());
    assert!(rooms.allocate("room-name".into()).is_err());
}

#[test]
fn test_allocation_fails_invalid_name() {
    let mut rooms = RoomBlock::new();

    let long_name = "0".repeat(MAX_ROOM_NAME_CHARS + 1);

    assert!(rooms.allocate("".into()).is_err());
    assert!(rooms.allocate(long_name).is_err());
}

#[test]
fn test_free_all() {
    let mut rooms = RoomBlock::new();

    let mut room_id_list = vec![];
    for i in 0..ROOMS_PER_SERVER {
        let room_id = rooms.allocate(format!("room {}", i)).expect("room allocation failed");
        room_id_list.push(room_id);
        let _ = rooms.count();
    }

    for r in room_id_list {
        assert!(rooms.free(r).is_ok());
        let _ = rooms.count();
    }
}

#[test]
fn test_free_fails_unknown_room_id() {
    let mut rooms = RoomBlock::new();

    let renegade_room_id = RoomId::new();
    assert!(rooms.free(renegade_room_id).is_err());
}

#[test]
fn room_block_counts_and_errors() {
    let mut rooms = RoomBlock::new();
    assert_eq!(rooms.count(), 0);
    let a = rooms.allocate("a".into()).expect("room allocation failed");
    assert_eq!(rooms.count(), 1);
    assert!(matches!(rooms.allocate("a".into()), Err(RoomMgrError::RoomWithNameExists { name }) if name == "a"));
    assert!(matches!(rooms.allocate("".into()), Err(RoomMgrError::InvalidRoomName { .. })));
    // A name of exactly the longest length is accepted.
    assert!(rooms.allocate("0".repeat(MAX_ROOM_NAME_CHARS)).is_ok());
    let _ = rooms.allocate("c".into()).expect("room allocation failed");
    assert!(matches!(rooms.allocate("d".into()), Err(RoomMgrError::RoomBlockEmpty)));
    assert!(rooms.free(a).is_ok());
    assert_eq!(rooms.count(), 2);
    assert!(matches!(rooms.free(a), Err(RoomMgrError::RoomIdNotFound { id }) if id == a));
    // The name is free again.
    assert!(rooms.allocate("a".into()).is_ok());
    assert_eq!(rooms.count(), 3);
}

#[test]
fn allocate_with_id_uses_the_given_id() {
    let mut rooms = RoomBlock::new();
    let id = RoomId::new();
    assert_eq!(rooms.allocate_with_id("a".into(), id).expect("room allocation failed"), id);
    assert_eq!(rooms.count(), 1);
    // The identifier is taken: another name under it is refused, and nothing changes.
    assert!(matches!(rooms.allocate_with_id("b".into(), id), Err(RoomMgrError::RoomIdInUse { id: used }) if used == id));
    assert_eq!(rooms.count(), 1);
    // A name in use is refused before the identifier is looked at.
    assert!(matches!(rooms.allocate_with_id("a".into(), id), Err(RoomMgrError::RoomWithNameExists { name }) if name == "a"));
    assert!(matches!(rooms.allocate_with_id("".into(), RoomId::new()), Err(RoomMgrError::InvalidRoomName { .. })));
    let other = RoomId::new();
    assert_eq!(rooms.allocate_with_id("b".into(), other).expect("room allocation failed"), other);
    assert!(rooms.free(id).is_ok());
    // Once freed, the identifier can be used again.
    assert!(rooms.allocate_with_id("c".into(), id).is_ok());
    assert_eq!(rooms.count(), 2);
}
