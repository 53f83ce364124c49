use netwayste::net::{NetworkManager, Packet, PingPong, RequestAction, ResponseCode, UniUpdate, VERSION};
use netwayste::server::entity::{Player, PlayerID, Room, RoomID, ServerChatMessage, MAX_AGE_CHAT_MESSAGES};
use netwayste::server::state::ServerState;
use netwayste::server::validate_client_version;
use std::time::{Duration, Instant};

/// An IPv4 address and port.
type SocketAddr = ([u8; 4], u16);

fn fake_socket_addr() -> SocketAddr {
    ([1, 2, 3, 4], 5678)
}

fn new_server() -> ServerState<SocketAddr> {
    ServerState::new()
}

fn network_of(server: &mut ServerState<SocketAddr>, player_id: PlayerID) -> &mut NetworkManager {
    &mut server.network_map.iter_mut().find(|(id, _)| *id == player_id).unwrap().1
}

fn room_by_id(server: &ServerState<SocketAddr>, room_id: RoomID) -> &Room {
    server.rooms.iter().find(|r| r.room_id == room_id).unwrap()
}

fn update_reply(cookie: String, last_chat_seq: Option<u64>) -> Packet {
    Packet::UpdateReply {
        cookie,
        last_chat_seq,
        last_game_update_seq: None,
        last_full_gen: None,
        partial_gen: None,
        pong: PingPong { nonce: 0 },
    }
}

#[test]
fn list_players_player_shows_up_in_player_list() {
    let mut server = new_server();
    let room_name = "some name";
    server.create_new_room(None, String::from(room_name));

    let (player_id, player_name) = {
        let p: &mut Player<SocketAddr> = server.add_new_player(String::from("some name"), fake_socket_addr());
        (p.player_id, p.name.clone())
    };
    server.join_room(player_id, room_name);
    let resp_code: ResponseCode = server.list_players(player_id);
    match resp_code {
        ResponseCode::PlayerList { players } => {
            assert_eq!(players.len(), 1);
            assert_eq!(*players.first().unwrap(), player_name);
        },
        resp_code => panic!("Unexpected response code: {:?}", resp_code),
    }
}

#[test]
fn has_chatted_player_did_not_chat_on_join() {
    let mut server = new_server();
    let room_name = "some name";
    server.create_new_room(None, String::from(room_name));
    let player_id = {
        let p: &mut Player<SocketAddr> = server.add_new_player(String::from("some name"), fake_socket_addr());
        p.player_id
    };
    server.join_room(player_id, room_name);
    let player = server.get_player(player_id);
    assert_eq!(player.has_chatted(), false);
}

#[test]
fn get_confirmed_chat_seq_num_server_tracks_players_chat_updates() {
    let mut server = new_server();
    let room_name = "some name";
    server.create_new_room(None, String::from(room_name));

    let (player_id, player_cookie) = {
        let p: &mut Player<SocketAddr> = server.add_new_player(String::from("some name"), fake_socket_addr());
        (p.player_id, p.cookie.clone())
    };
    server.join_room(player_id, room_name);

    // A chat-less player now has something to to say
    server.decode_packet(fake_socket_addr(), update_reply(player_cookie.clone(), Some(1))).unwrap();
    assert_eq!(server.get_player(player_id).get_confirmed_chat_seq_num(), Some(1));

    // Older messages are ignored
    server.decode_packet(fake_socket_addr(), update_reply(player_cookie.clone(), Some(0))).unwrap();
    assert_eq!(server.get_player(player_id).get_confirmed_chat_seq_num(), Some(1));

    // So are absent messages
    server.decode_packet(fake_socket_addr(), update_reply(player_cookie, None)).unwrap();
    assert_eq!(server.get_player(player_id).get_confirmed_chat_seq_num(), Some(1));
}

#[test]
fn get_message_skip_count_player_acked_messages_are_not_included_in_skip_count() {
    let mut server = new_server();
    let room_name = "some name";
    server.create_new_room(None, String::from(room_name));

    let player_id = {
        let p: &mut Player<SocketAddr> = server.add_new_player(String::from("some name"), fake_socket_addr());
        p.player_id
    };
    server.join_room(player_id, room_name);
    server.handle_chat_message(player_id, "ChatMessage".to_owned());

    {
        let room: &Room = server.get_room(player_id).unwrap();
        assert_eq!(room.get_message_skip_count(0), 0);
    }

    let number_of_messages = 6;
    for _ in 1..number_of_messages {
        server.handle_chat_message(player_id, "ChatMessage".to_owned());
    }

    {
        let player = server.get_player_mut(player_id);
        // player has not acknowledged any yet
        assert_eq!(player.get_confirmed_chat_seq_num(), None);
    }

    // player acknowledged four of the six
    let acked_message_count = {
        let player = server.get_player_mut(player_id);
        player.update_chat_seq_num(Some(4));
        player.get_confirmed_chat_seq_num().unwrap()
    };
    {
        let room: &Room = server.get_room(player_id).unwrap();
        assert_eq!(room.get_message_skip_count(acked_message_count), acked_message_count);
    }

    // player acknowledged all six
    let acked_message_count = {
        let player = server.get_player_mut(player_id);
        player.update_chat_seq_num(Some(6));
        player.get_confirmed_chat_seq_num().unwrap()
    };
    {
        let room: &Room = server.get_room(player_id).unwrap();
        assert_eq!(room.get_message_skip_count(acked_message_count), acked_message_count);
    }
}

#[test]
fn get_message_skip_count_player_acked_messages_are_not_included_in_skip_count_wrapped_case() {
    let mut server = new_server();
    let room_name = "some name";
    server.create_new_room(None, String::from(room_name));

    let player_id = {
        let p: &mut Player<SocketAddr> = server.add_new_player(String::from("some name"), fake_socket_addr());
        p.player_id
    };
    server.join_room(player_id, room_name);

    let start_seq_num = u64::max_value() - 6;
    for seq_num in start_seq_num..u64::max_value() {
        let room: &mut Room = server.get_room_mut(player_id).unwrap();
        room.add_message(ServerChatMessage::new(
            player_id,
            String::from("some name"),
            String::from("some msg"),
            seq_num,
        ));
    }
    for seq_num in 0..8 {
        let room: &mut Room = server.get_room_mut(player_id).unwrap();
        room.add_message(ServerChatMessage::new(
            player_id,
            String::from("some name"),
            String::from("some msg"),
            seq_num,
        ));
    }

    let acked_message_count = {
        let player = server.get_player_mut(player_id);
        player.update_chat_seq_num(Some(start_seq_num + 4));
        player.get_confirmed_chat_seq_num().unwrap()
    };
    {
        let room: &Room = server.get_room(player_id).unwrap();
        let unacked_count = 15 - (8 + 2);
        assert_eq!(room.get_message_skip_count(acked_message_count), unacked_count);
    }
}

#[test]
fn collect_unacknowledged_messages_a_rooms_unacknowledged_chat_messages_are_collected_for_their_player() {
    let mut server = new_server();
    let room_name = "some name";
    server.create_new_room(None, String::from(room_name));

    let player_id = {
        let p: &mut Player<SocketAddr> = server.add_new_player(String::from("some name"), fake_socket_addr());
        p.player_id
    };
    server.join_room(player_id, room_name);

    {
        // Room has no messages, None to send to player
        let room = server.get_room(player_id).unwrap();
        let player = server.get_player(player_id);
        let messages = server.collect_unacknowledged_messages(room, player);
        assert!(messages.is_none());
    }

    {
        let room: &mut Room = server.get_room_mut(player_id).unwrap();
        room.add_message(ServerChatMessage::new(
            player_id,
            String::from("some name"),
            String::from("some msg"),
            1,
        ));
    }
    {
        // Room has a message, player has yet to ack it
        let room = server.get_room(player_id).unwrap();
        let player = server.get_player(player_id);
        let messages = server.collect_unacknowledged_messages(room, player);
        assert_eq!(messages.is_some(), true);
        assert_eq!(messages.unwrap().len(), 1);
    }

    {
        let player = server.get_player_mut(player_id);
        player.update_chat_seq_num(Some(1));
    }
    {
        // Room has a message, player acked, None
        let room = server.get_room(player_id).unwrap();
        let player = server.get_player(player_id);
        let messages = server.collect_unacknowledged_messages(room, player);
        assert!(messages.is_none());
    }
}

#[test]
fn collect_unacknowledged_messages_an_active_room_which_expired_all_messages_returns_none() {
    let mut server = new_server();
    let room_name = "some name";
    server.create_new_room(None, String::from(room_name));

    let player_id = {
        let p: &mut Player<SocketAddr> = server.add_new_player(String::from("some name"), fake_socket_addr());
        p.player_id
    };
    server.join_room(player_id, room_name);

    {
        // Add a message to the room and then age it so it will expire
        let room: &mut Room = server.get_room_mut(player_id).unwrap();
        room.add_message(ServerChatMessage::new(
            player_id,
            String::from("some name"),
            String::from("some msg"),
            1,
        ));

        let message: &mut ServerChatMessage = room.messages.get_mut(0).unwrap();
        let travel_to_the_past = Instant::now().checked_sub(Duration::from_secs(MAX_AGE_CHAT_MESSAGES as u64));
        if travel_to_the_past.is_none() {
            return;
        }
        message.timestamp = travel_to_the_past.unwrap();
    }
    {
        // Sanity check to ensure player gets the chat message if left unacknowledged
        let room = server.get_room(player_id).unwrap();
        let player = server.get_player(player_id);
        let messages = server.collect_unacknowledged_messages(room, player);
        assert_eq!(messages.is_some(), true);
        assert_eq!(messages.unwrap().len(), 1);
    }
    {
        let player = server.get_player_mut(player_id);
        player.update_chat_seq_num(Some(1));
    }

    server.expire_old_messages_in_all_rooms(Instant::now());
    {
        // A room that has no messages, but has player(s) who have acknowledged past messages
        let room = server.get_room(player_id).unwrap();
        let player = server.get_player(player_id);
        let messages = server.collect_unacknowledged_messages(room, player);
        assert!(messages.is_none());
    }
}

#[test]
fn handle_chat_message_player_not_in_game() {
    let mut server = new_server();
    let room_name = "some name";
    server.create_new_room(None, room_name.to_owned());

    let player_id = {
        let p: &mut Player<SocketAddr> = server.add_new_player("some name".to_owned(), fake_socket_addr());
        p.player_id
    };

    let response = server.handle_chat_message(player_id, "test msg".to_owned());
    assert_eq!(
        response,
        ResponseCode::BadRequest {
            error_msg: format!("Player ({}) has not joined a game.", player_id.0),
        }
    );
}

#[test]
fn handle_chat_message_player_in_game_one_message() {
    let mut server = new_server();
    let room_name = "some name";
    server.create_new_room(None, room_name.to_owned());

    let player_id = {
        let p: &mut Player<SocketAddr> = server.add_new_player("some player".to_string(), fake_socket_addr());
        p.player_id
    };
    server.join_room(player_id, room_name);

    let response = server.handle_chat_message(player_id, "test msg".to_owned());
    assert_eq!(response, ResponseCode::OK);
    let room: &Room = server.get_room(player_id).unwrap();
    assert_eq!(room.messages.len(), 1);
    assert_eq!(room.latest_seq_num, 1);
    assert_eq!(room.get_newest_msg().map(|m| m.seq_num), room.get_oldest_msg().map(|m| m.seq_num));
}

#[test]
fn handle_chat_message_player_in_game_many_messages() {
    let mut server = new_server();
    let room_name = "some name";
    server.create_new_room(None, room_name.to_owned());

    let player_id = {
        let p: &mut Player<SocketAddr> = server.add_new_player("some player".to_owned(), fake_socket_addr());
        p.player_id
    };
    server.join_room(player_id, room_name);

    let response = server.handle_chat_message(player_id, "test msg first".to_owned());
    assert_eq!(response, ResponseCode::OK);
    let response = server.handle_chat_message(player_id, "test msg second".to_owned());
    assert_eq!(response, ResponseCode::OK);

    let room: &Room = server.get_room(player_id).unwrap();
    assert_eq!(room.messages.len(), 2);
    assert_eq!(room.latest_seq_num, 2);
}

#[test]
fn create_new_room_good_case() {
    {
        let mut server = new_server();
        let room_name = "some name".to_owned();
        assert_eq!(server.create_new_room(None, room_name), ResponseCode::OK);
    }
    // Room name length is within bounds
    {
        let mut server = new_server();
        let room_name = "0123456789ABCDEF".to_owned();
        assert_eq!(server.create_new_room(None, room_name), ResponseCode::OK);
    }
}

#[test]
fn create_new_room_name_is_too_long() {
    let mut server = new_server();
    let room_name = "0123456789ABCDEF_#".to_owned();
    assert_eq!(
        server.create_new_room(None, room_name),
        ResponseCode::BadRequest {
            error_msg: "room name too long; max 16 characters".to_owned(),
        }
    );
}

#[test]
fn create_new_room_name_taken() {
    let mut server = new_server();
    let room_name = "some room".to_owned();
    assert_eq!(server.create_new_room(None, room_name.clone()), ResponseCode::OK);
    assert_eq!(
        server.create_new_room(None, room_name),
        ResponseCode::BadRequest {
            error_msg: "room name already in use".to_owned(),
        }
    );
}

#[test]
fn create_new_room_player_already_in_room() {
    let mut server = new_server();
    let room_name = "some room".to_owned();
    let other_room_name = "another room".to_owned();
    assert_eq!(server.create_new_room(None, room_name.clone()), ResponseCode::OK);

    let player_id = {
        let p: &mut Player<SocketAddr> = server.add_new_player("some player".to_owned(), fake_socket_addr());
        p.player_id
    };
    server.join_room(player_id, &room_name);

    assert_eq!(
        server.create_new_room(Some(player_id), other_room_name),
        ResponseCode::BadRequest {
            error_msg: "cannot create room because in-game".to_owned(),
        }
    );
}

#[test]
fn create_new_room_join_room_good_case() {
    let mut server = new_server();
    let room_name = "some room";
    assert_eq!(server.create_new_room(None, room_name.to_owned()), ResponseCode::OK);

    let player_id = {
        let p: &mut Player<SocketAddr> = server.add_new_player("some player".to_owned(), fake_socket_addr());
        p.player_id
    };
    assert_eq!(
        server.join_room(player_id, room_name),
        ResponseCode::JoinedRoom {
            room_name: "some room".to_owned(),
        }
    );
}

#[test]
fn join_room_player_already_in_room() {
    let mut server = new_server();
    let room_name = "some room";
    assert_eq!(server.create_new_room(None, room_name.to_owned()), ResponseCode::OK);

    let player_id = {
        let p: &mut Player<SocketAddr> = server.add_new_player("some player".to_owned(), fake_socket_addr());
        p.player_id
    };
    assert_eq!(
        server.join_room(player_id, room_name),
        ResponseCode::JoinedRoom {
            room_name: "some room".to_owned(),
        }
    );
    assert_eq!(
        server.join_room(player_id, room_name),
        ResponseCode::BadRequest {
            error_msg: "cannot join game because in-game".to_owned(),
        }
    );
}

#[test]
fn join_room_room_does_not_exist() {
    let mut server = new_server();

    let player_id = {
        let p: &mut Player<SocketAddr> = server.add_new_player("some player".to_owned(), fake_socket_addr());
        p.player_id
    };
    assert_eq!(
        server.join_room(player_id, "some room"),
        ResponseCode::BadRequest {
            error_msg: "no room named \"some room\"".to_owned(),
        }
    );
}

#[test]
fn leave_room_good_case() {
    let mut server = new_server();
    let room_name = "some name";
    server.create_new_room(None, room_name.to_owned());

    let player_id = {
        let p: &mut Player<SocketAddr> = server.add_new_player("some player".to_owned(), fake_socket_addr());
        p.player_id
    };
    server.join_room(player_id, room_name);

    assert_eq!(server.leave_room(player_id), ResponseCode::LeaveRoom);
}

#[test]
fn leave_room_player_not_in_room() {
    let mut server = new_server();
    let room_name = "some room".to_owned();
    assert_eq!(server.create_new_room(None, room_name.clone()), ResponseCode::OK);

    let player_id = {
        let p: &mut Player<SocketAddr> = server.add_new_player("some player".to_owned(), fake_socket_addr());
        p.player_id
    };

    assert_eq!(
        server.leave_room(player_id),
        ResponseCode::BadRequest {
            error_msg: "cannot leave game because in lobby".to_owned(),
        }
    );
}

#[test]
fn leave_room_unregistered_player_id() {
    let mut server = new_server();
    let room_name = "some room".to_owned();
    let rand_player_id = PlayerID(0x2457);
    assert_eq!(server.create_new_room(None, room_name.clone()), ResponseCode::OK);

    assert_eq!(
        server.leave_room(rand_player_id),
        ResponseCode::BadRequest {
            error_msg: "cannot leave game because in lobby".to_owned(),
        }
    );
}

#[test]
fn add_new_player_player_added_with_initial_sequence_number() {
    let mut server = new_server();
    let name = "some player".to_owned();

    let p: &mut Player<SocketAddr> = server.add_new_player(name.clone(), fake_socket_addr());
    assert_eq!(p.name, name);
}

#[test]
fn is_unique_player_name_yes_and_no_case() {
    let mut server = new_server();
    let name = "some player".to_owned();
    assert_eq!(server.is_unique_player_name("some player"), true);

    server.add_new_player(name.clone(), fake_socket_addr());
    assert_eq!(server.is_unique_player_name("some player"), false);
}

#[test]
fn expire_old_messages_in_all_rooms_room_is_empty() {
    let mut server = new_server();
    let room_name = "some room";

    server.create_new_room(None, room_name.to_owned().clone());
    server.expire_old_messages_in_all_rooms(Instant::now());

    for room in server.rooms.iter() {
        assert_eq!(room.messages.len(), 0);
    }
}

#[test]
fn expire_old_messages_in_all_rooms_one_room_good_case() {
    let mut server = new_server();

    let player_id: PlayerID = {
        let player: &mut Player<SocketAddr> = server.add_new_player("some player".to_owned(), fake_socket_addr());
        player.player_id
    };

    server.join_room(player_id, "general");

    server.handle_chat_message(player_id, "Conwayste is such a fun game".to_owned());
    server.handle_chat_message(player_id, "There are not loot boxes".to_owned());
    server.handle_chat_message(player_id, "It is free!".to_owned());
    server.handle_chat_message(player_id, "What's not to love?".to_owned());

    let message_count = {
        let room: &Room = server.get_room(player_id).unwrap();
        room.messages.len()
    };
    assert_eq!(message_count, 4);

    // Messages are not old enough to be expired
    server.expire_old_messages_in_all_rooms(Instant::now());

    for room in server.rooms.iter() {
        assert_eq!(room.messages.len(), 4);
    }
}

#[test]
fn expire_old_messages_in_all_rooms_several_rooms_good_case() {
    let mut server = new_server();
    let room_name = "some room";
    let room_name2 = "some room2";

    let room_id = server.new_room(room_name.to_owned());
    let room_id2 = server.new_room(room_name2.to_owned());
    let player_id: PlayerID = {
        let player: &mut Player<SocketAddr> = server.add_new_player("some player".to_owned(), fake_socket_addr());
        player.player_id
    };
    let player_id2: PlayerID = {
        let player: &mut Player<SocketAddr> = server.add_new_player("some player".to_owned(), fake_socket_addr());
        player.player_id
    };

    server.join_room(player_id, room_name);
    server.join_room(player_id2, room_name2);

    server.handle_chat_message(player_id, "Conwayste is such a fun game".to_owned());
    server.handle_chat_message(player_id, "There are not loot boxes".to_owned());
    server.handle_chat_message(player_id2, "It is free!".to_owned());
    server.handle_chat_message(player_id2, "What's not to love?".to_owned());

    let message_count = {
        let room: &Room = server.get_room(player_id).unwrap();
        room.messages.len()
    };
    assert_eq!(message_count, 2);
    let message_count2 = {
        let room: &Room = server.get_room(player_id2).unwrap();
        room.messages.len()
    };
    assert_eq!(message_count2, 2);

    // Messages are not old enough to be expired
    server.expire_old_messages_in_all_rooms(Instant::now());

    assert_eq!(room_by_id(&server, room_id).messages.len(), 2);
    assert_eq!(room_by_id(&server, room_id2).messages.len(), 2);
}

#[test]
fn expire_old_messages_in_all_rooms_one_room_old_messages_are_wiped() {
    let mut server = new_server();
    let room_name = "some room";

    server.create_new_room(None, room_name.to_owned().clone());
    let player_id: PlayerID = {
        let player: &mut Player<SocketAddr> = server.add_new_player("some player".to_owned(), fake_socket_addr());
        player.player_id
    };

    server.join_room(player_id, room_name);

    server.handle_chat_message(player_id, "Conwayste is such a fun game".to_owned());
    server.handle_chat_message(player_id, "There are not loot boxes".to_owned());
    server.handle_chat_message(player_id, "It is free!".to_owned());
    server.handle_chat_message(player_id, "What's not to love?".to_owned());

    let current_timestamp = Instant::now();
    let travel_to_the_past = current_timestamp.checked_sub(Duration::from_secs((MAX_AGE_CHAT_MESSAGES + 1) as u64));
    if travel_to_the_past.is_none() {
        return;
    }
    let travel_to_the_past = travel_to_the_past.unwrap();
    for room in server.rooms.iter_mut() {
        for m in room.messages.iter_mut() {
            m.timestamp = travel_to_the_past;
        }
    }

    server.expire_old_messages_in_all_rooms(Instant::now());

    for room in server.rooms.iter() {
        assert_eq!(room.messages.len(), 0);
    }
}

#[test]
fn expire_old_messages_in_all_rooms_several_rooms_old_messages_are_wiped() {
    let mut server = new_server();
    let room_name = "some room";
    let room_name2 = "some room 2";

    server.create_new_room(None, room_name.to_owned().clone());
    let player_id: PlayerID = {
        let player: &mut Player<SocketAddr> = server.add_new_player("some player".to_owned(), fake_socket_addr());
        player.player_id
    };
    server.create_new_room(None, room_name2.to_owned().clone());
    let player_id2: PlayerID = {
        let player: &mut Player<SocketAddr> = server.add_new_player("some player".to_owned(), fake_socket_addr());
        player.player_id
    };

    server.join_room(player_id, room_name);
    server.join_room(player_id2, room_name);

    server.handle_chat_message(player_id, "Conwayste is such a fun game".to_owned());
    server.handle_chat_message(player_id, "There are not loot boxes".to_owned());
    server.handle_chat_message(player_id2, "It is free!".to_owned());
    server.handle_chat_message(player_id2, "What's not to love?".to_owned());

    let current_timestamp = Instant::now();
    let travel_to_the_past = current_timestamp.checked_sub(Duration::from_secs((MAX_AGE_CHAT_MESSAGES + 1) as u64));
    if travel_to_the_past.is_none() {
        return;
    }
    let travel_to_the_past = travel_to_the_past.unwrap();
    for room in server.rooms.iter_mut() {
        for m in room.messages.iter_mut() {
            m.timestamp = travel_to_the_past;
        }
    }

    server.expire_old_messages_in_all_rooms(Instant::now());

    for room in server.rooms.iter() {
        assert_eq!(room.messages.len(), 0);
    }
}

#[test]
fn handle_new_connection_good_case() {
    let mut server = new_server();
    let player_name = "some name".to_owned();
    let pkt = server.handle_new_connection(player_name, fake_socket_addr());
    match pkt {
        Packet::Response { code, .. } => match code {
            ResponseCode::LoggedIn { .. } => {},
            _ => panic!("Unexpected ResponseCode: {:?}", code),
        },
        _ => panic!("Unexpected Packet Type: {:?}", pkt),
    }
}

#[test]
fn handle_new_connection_player_name_taken() {
    let mut server = new_server();
    let player_name = "some name".to_owned();

    let pkt = server.handle_new_connection(player_name.clone(), fake_socket_addr());
    match pkt {
        Packet::Response { code, .. } => match code {
            ResponseCode::LoggedIn { server_version, .. } => assert_eq!(server_version, VERSION.to_owned()),
            _ => panic!("Unexpected ResponseCode: {:?}", code),
        },
        _ => panic!("Unexpected Packet Type: {:?}", pkt),
    }

    let pkt = server.handle_new_connection(player_name, fake_socket_addr());
    match pkt {
        Packet::Response { code, .. } => match code {
            ResponseCode::Unauthorized { error_msg } => {
                assert_eq!(error_msg, "not a unique name".to_owned());
            },
            _ => panic!("Unexpected ResponseCode: {:?}", code),
        },
        _ => panic!("Unexpected Packet Type: {:?}", pkt),
    }
}

#[test]
fn process_request_action_connect_while_connected() {
    let mut server = new_server();
    let player_name = "some player".to_owned();
    server.create_new_room(None, "some room".to_owned().clone());
    let player_id: PlayerID = {
        let player: &mut Player<SocketAddr> = server.add_new_player(player_name.clone(), fake_socket_addr());
        player.player_id
    };
    let result = server.process_request_action(
        player_id,
        RequestAction::Connect {
            name: player_name,
            client_version: "0.1.0".to_owned(),
        },
    );
    assert_eq!(
        result,
        ResponseCode::BadRequest {
            error_msg: "Already connected".to_owned(),
        }
    );
}

#[test]
fn process_request_action_none_is_invalid() {
    let mut server = new_server();
    server.create_new_room(None, "some room".to_owned().clone());
    let player_id: PlayerID = {
        let player: &mut Player<SocketAddr> = server.add_new_player("some player".to_owned(), fake_socket_addr());
        player.player_id
    };
    let result = server.process_request_action(player_id, RequestAction::NoAction);
    assert_eq!(
        result,
        ResponseCode::BadRequest {
            error_msg: "Invalid request: None".to_owned(),
        }
    );
}

#[test]
fn prepare_response_spot_check_response_packet() {
    let mut server = new_server();
    let player_id: PlayerID = {
        let player: &mut Player<SocketAddr> = server.add_new_player("some player".to_owned(), fake_socket_addr());
        player.request_ack = Some(1);
        player.player_id
    };
    let pkt: Packet = server.prepare_response(player_id, RequestAction::ListRooms).unwrap();
    match pkt {
        Packet::Response { code, sequence, request_ack } => {
            if let ResponseCode::RoomList { rooms } = code {
                assert_eq!(rooms.len(), 1); // 1 room - general
            } else {
                panic!("`code` is not a RoomList! code is {:?}", code);
            }
            assert_eq!(sequence, 1);
            assert_eq!(request_ack, Some(2));
        },
        _ => panic!("Unexpected Packet type on Response path: {:?}", pkt),
    }
    let player = server.get_player(player_id);
    assert_eq!(player.next_resp_seq, 2);
}

#[test]
fn validate_client_version_client_is_up_to_date() {
    assert_eq!(validate_client_version(VERSION.to_owned()), true);
}

#[test]
fn validate_client_version_client_is_very_old() {
    assert_eq!(validate_client_version("0.0.1".to_owned()), true);
}

#[test]
fn validate_client_version_client_is_from_the_future() {
    assert_eq!(
        validate_client_version(format!("{}.{}.{}", <i32>::max_value(), <i32>::max_value(), <i32>::max_value()).to_owned()),
        false
    );
}

#[test]
fn validate_client_version_refuses_too_many_hyphens() {
    // 257 hyphens: semver's parser would panic on this text; it is refused instead.
    let text = format!("0.0.1-{}a", "a-".repeat(256));
    assert_eq!(validate_client_version(text), false);
}

#[test]
fn validate_client_version_accepts_hyphens_spread_over_identifiers() {
    // 400 hyphens in all, but at most 201 in any run between dots: parsed, and older.
    let part = format!("{}a", "a-".repeat(200));
    let text = format!("0.0.1-{}.{}", part, part);
    assert_eq!(validate_client_version(text), true);
}

#[test]
fn validate_client_version_accepts_long_prerelease() {
    // 101 hyphens: parsed as a pre-release of 0.0.1, older than the server.
    let text = format!("0.0.1-{}a", "a-".repeat(100));
    assert_eq!(validate_client_version(text), true);
}

#[test]
fn decode_packet_update_reply_good_case() {
    let mut server = new_server();
    let cookie: String = {
        let player: &mut Player<SocketAddr> = server.add_new_player("some player".to_owned(), fake_socket_addr());
        player.cookie.clone()
    };

    let result = server.decode_packet(fake_socket_addr(), update_reply(cookie, Some(0)));
    assert!(result.is_ok());
    assert!(result.unwrap().is_none());
}

#[test]
fn decode_packet_update_reply_invalid_cookie() {
    let mut server = new_server();
    server.add_new_player("some player".to_owned(), fake_socket_addr());

    let cookie = "CookieMonster".to_owned();
    let result = server.decode_packet(fake_socket_addr(), update_reply(cookie, Some(0)));
    assert!(result.is_err());
}

#[test]
fn construct_client_updates_no_rooms() {
    let server = new_server();
    let opt_updates = server.construct_client_updates();
    assert!(opt_updates.is_none());
}

#[test]
fn construct_client_updates_empty_rooms() {
    let mut server = new_server();
    server.create_new_room(None, "some room".to_owned().clone());
    let opt_updates = server.construct_client_updates();
    assert!(opt_updates.is_none());
}

#[test]
fn construct_client_updates_populated_room_returns_all_messages() {
    let mut server = new_server();
    let room_name = "some_room";
    let player_name = "some player".to_owned();
    let message_text = "Message".to_owned();

    server.create_new_room(None, room_name.to_owned());

    let player_id: PlayerID = {
        let player: &mut Player<SocketAddr> = server.add_new_player(player_name.clone(), fake_socket_addr());
        player.player_id
    };
    server.join_room(player_id, room_name);
    server.handle_chat_message(player_id, message_text.clone());
    server.handle_chat_message(player_id, message_text.clone());
    server.handle_chat_message(player_id, message_text.clone());

    let opt_updates = server.construct_client_updates();
    assert!(opt_updates.is_some());

    let mut output: Vec<(SocketAddr, Packet)> = opt_updates.unwrap();
    assert_eq!(output.len(), 1);

    let (addr, pkt) = output.pop().unwrap();
    assert_eq!(addr, fake_socket_addr());

    match pkt {
        Packet::Update { chats, game_updates, universe_update, .. } => {
            assert!(game_updates.is_empty());
            assert!(matches!(universe_update, UniUpdate::NoChange));
            assert!(!chats.is_empty());

            // All client chat sequence numbers start counting at 1
            let mut i = 1;
            for msg in chats {
                assert_eq!(msg.player_name, player_name);
                assert_eq!(msg.chat_seq, Some(i));
                assert_eq!(msg.message, message_text);
                i += 1;
            }
        },
        _ => panic!("Unexpected packet in client update construction!"),
    }
}

#[test]
fn construct_client_updates_populated_room_returns_updates_after_client_acked() {
    let mut server = new_server();
    let room_name = "some_room";
    let player_name = "some player".to_owned();
    let message_text = "Message".to_owned();

    server.create_new_room(None, room_name.to_owned());

    let player_id: PlayerID = {
        let player: &mut Player<SocketAddr> = server.add_new_player(player_name.clone(), fake_socket_addr());
        player.player_id
    };
    server.join_room(player_id, room_name);
    server.handle_chat_message(player_id, message_text.clone());
    server.handle_chat_message(player_id, message_text.clone());
    server.handle_chat_message(player_id, message_text.clone());

    // Assume that the client has acknowledged two chats
    {
        let player: &mut Player<SocketAddr> = server.get_player_mut(player_id);
        player.update_chat_seq_num(Some(2));
    }

    // We should then only return the last chat
    let opt_updates = server.construct_client_updates();
    assert!(opt_updates.is_some());
    let mut output: Vec<(SocketAddr, Packet)> = opt_updates.unwrap();
    assert_eq!(output.len(), 1);

    let (addr, pkt) = output.pop().unwrap();
    assert_eq!(addr, fake_socket_addr());

    match pkt {
        Packet::Update { mut chats, game_updates, universe_update, .. } => {
            assert!(game_updates.is_empty());
            assert!(matches!(universe_update, UniUpdate::NoChange));
            assert!(!chats.is_empty());

            assert_eq!(chats.len(), 1);
            let msg = chats.pop().unwrap();

            assert_eq!(msg.player_name, player_name);
            assert_eq!(msg.chat_seq, Some(3));
            assert_eq!(msg.message, message_text);
        },
        _ => panic!("Unexpected packet in client update construction!"),
    }
}

#[test]
fn broadcast_message_to_two_players_in_room() {
    let mut server = new_server();
    let room_name = "some_room";
    let player_name = "some player".to_owned();

    server.create_new_room(None, room_name.to_owned());

    let player_id: PlayerID = {
        let player: &mut Player<SocketAddr> = server.add_new_player(player_name.clone(), fake_socket_addr());
        player.player_id
    };
    let player_id2: PlayerID = {
        let player: &mut Player<SocketAddr> = server.add_new_player(player_name.clone(), fake_socket_addr());
        player.player_id
    };

    server.join_room(player_id, room_name);
    {
        let room: &mut Room = server.get_room_mut(player_id).unwrap();
        room.broadcast("Silver birch against a Swedish sky".to_owned());
    }
    server.join_room(player_id2, room_name);
    let room: &Room = server.get_room(player_id).unwrap();

    let player = server.get_player(player_id);
    let msgs = server.collect_unacknowledged_messages(room, player).unwrap();
    assert_eq!(msgs.len(), 1);
    assert_eq!(msgs[0].message, "Silver birch against a Swedish sky".to_owned());

    let player = server.get_player(player_id2);
    let msgs = server.collect_unacknowledged_messages(room, player).unwrap();
    assert_eq!(msgs.len(), 1);
    assert_eq!(msgs[0].message, "Silver birch against a Swedish sky".to_owned());
}

#[test]
fn broadcast_message_to_an_empty_room() {
    let mut server = new_server();
    let room_name = "some_room".to_owned();

    server.create_new_room(None, room_name.clone());
    let room_id: RoomID = server.room_map.iter().find(|(name, _)| *name == room_name).unwrap().1;

    {
        let room: &mut Room = server.rooms.iter_mut().find(|r| r.room_id == room_id).unwrap();
        room.broadcast("Silver birch against a Swedish sky".to_owned());
    }
    let room: &Room = room_by_id(&server, room_id);
    assert_eq!(room.latest_seq_num, 1);
    assert_eq!(room.messages.len(), 1);
    let msgs: &ServerChatMessage = room.messages.get(0).unwrap();
    assert_eq!(msgs.player_name, "Server".to_owned());
    assert_eq!(msgs.seq_num, 1);
    assert_eq!(msgs.player_id, PlayerID(0xFFFFFFFFFFFFFFFF));
}

#[test]
fn disconnect_get_player_by_cookie_fails() {
    let mut server = new_server();
    let player_name = "some player".to_owned();

    let (player_id, cookie) = {
        let player: &mut Player<SocketAddr> = server.add_new_player(player_name.clone(), fake_socket_addr());
        (player.player_id, player.cookie.clone())
    };

    server.handle_disconnect(player_id);
    assert_eq!(server.get_player_id_by_cookie(cookie.as_str()), None);
}

#[test]
fn disconnect_while_in_room_removes_all_traces_of_player() {
    let mut server = new_server();
    let room_name = "some_room";
    let player_name = "some player".to_owned();

    let player_id: PlayerID = {
        let player: &mut Player<SocketAddr> = server.add_new_player(player_name.clone(), fake_socket_addr());
        player.player_id
    };

    server.create_new_room(None, room_name.to_owned());
    server.join_room(player_id, room_name);
    let room_id = {
        let room: &Room = server.get_room(player_id).unwrap();
        assert_eq!(room.player_ids.contains(&player_id), true);
        room.room_id
    };
    server.handle_disconnect(player_id);
    // Cannot go through player_id because the player has been removed
    let room: &Room = room_by_id(&server, room_id);
    assert_eq!(room.player_ids.contains(&player_id), false);
}

#[test]
fn test_is_previously_processed_packet() {
    let mut server = new_server();
    let player_name = "some player".to_owned();

    let player_id: PlayerID = {
        let player: &mut Player<SocketAddr> = server.add_new_player(player_name.clone(), fake_socket_addr());
        player.request_ack = Some(4);
        player.player_id
    };

    let player_id2: PlayerID = {
        let player: &mut Player<SocketAddr> = server.add_new_player(player_name.clone(), fake_socket_addr());
        player.request_ack = None;
        player.player_id
    };

    assert_eq!(server.is_previously_processed_packet(player_id2, 0), false);

    assert_eq!(server.is_previously_processed_packet(player_id, 0), true);
    assert_eq!(server.is_previously_processed_packet(player_id, 4), true);
    assert_eq!(server.is_previously_processed_packet(player_id, 5), false);
}

#[test]
fn test_clear_transmission_queue_on_ack() {
    let mut server = new_server();
    let player_name = "some player".to_owned();

    let player_id: PlayerID = {
        let player: &mut Player<SocketAddr> = server.add_new_player(player_name.clone(), fake_socket_addr());
        player.request_ack = Some(4);
        player.player_id
    };

    for i in 0..5 {
        let pkt = Packet::Response {
            sequence: i,
            request_ack: None,
            code: ResponseCode::OK,
        };
        let nm: &mut NetworkManager = network_of(&mut server, player_id);
        nm.tx_packets.buffer_item(pkt.clone());
    }

    server.clear_transmission_queue_on_ack(player_id, None);
    assert_eq!(network_of(&mut server, player_id).tx_packets.len(), 5);
    server.clear_transmission_queue_on_ack(player_id, Some(0));
    assert_eq!(network_of(&mut server, player_id).tx_packets.len(), 5);
    server.clear_transmission_queue_on_ack(player_id, Some(1));
    assert_eq!(network_of(&mut server, player_id).tx_packets.len(), 4);
    server.clear_transmission_queue_on_ack(player_id, Some(5));
    assert_eq!(network_of(&mut server, player_id).tx_packets.len(), 0);
}

#[test]
fn test_resend_expired_tx_packets_empty_server() {
    let mut server = new_server();
    let retransmissions = server.collect_expired_tx_packets();
    assert!(retransmissions.is_empty());
}

#[test]
fn test_resend_expired_tx_packets() {
    let mut server = new_server();
    let player_name = "some player".to_owned();

    let player_id: PlayerID = {
        let player: &mut Player<SocketAddr> = server.add_new_player(player_name.clone(), fake_socket_addr());
        player.request_ack = Some(5);
        player.player_id
    };

    for i in 0..5 {
        let pkt = Packet::Response {
            sequence: i,
            request_ack: None,
            code: ResponseCode::OK,
        };

        let nm: &mut NetworkManager = network_of(&mut server, player_id);
        nm.tx_packets.buffer_item(pkt.clone());

        if i < 3 {
            let attempt = nm.tx_packets.attempts.back_mut().unwrap();
            attempt.time = Instant::now() - Duration::from_secs(i + 1);
        }
    }

    server.collect_expired_tx_packets();

    for i in 0..5 {
        let nm: &mut NetworkManager = network_of(&mut server, player_id);
        let packet_retries = nm.tx_packets.attempts.get(i).unwrap();

        if i >= 3 {
            assert_eq!(packet_retries.retries, 0);
        } else {
            assert_eq!(packet_retries.retries, 1);
        }
    }
}

#[test]
fn test_process_queued_rx_packets_first_non_connect_player_packet() {
    let mut server = new_server();
    let player_name = "some player".to_owned();

    let (player_id, player_cookie): (PlayerID, String) = {
        let player: &mut Player<SocketAddr> = server.add_new_player(player_name.clone(), fake_socket_addr());
        player.request_ack = Some(1); // Player connected and we've confirmed the first transaction
        (player.player_id, player.cookie.clone())
    };

    {
        let pkt = Packet::Request {
            cookie: Some(player_cookie),
            sequence: 2,
            response_ack: None,
            action: RequestAction::ListPlayers,
        };

        let nm: &mut NetworkManager = network_of(&mut server, player_id);
        nm.rx_packets.buffer_item(pkt.clone());

        assert_eq!(nm.tx_packets.len(), 0);
    }

    server.process_queued_rx_packets(player_id);

    assert_eq!(network_of(&mut server, player_id).tx_packets.len(), 1);
}

#[test]
fn test_process_queued_rx_packets_contiguous() {
    let mut server = new_server();
    let player_name = "some player".to_owned();

    let (player_id, player_cookie): (PlayerID, String) = {
        let player: &mut Player<SocketAddr> = server.add_new_player(player_name.clone(), fake_socket_addr());
        player.request_ack = Some(1); // Player connected and we've confirmed the first transaction
        (player.player_id, player.cookie.clone())
    };

    for i in 2..10 {
        let pkt = Packet::Request {
            cookie: Some(player_cookie.clone()),
            sequence: i,
            response_ack: None,
            action: RequestAction::ListPlayers,
        };

        let nm: &mut NetworkManager = network_of(&mut server, player_id);
        nm.rx_packets.buffer_item(pkt.clone());

        assert_eq!(nm.tx_packets.len(), 0);
    }

    server.process_queued_rx_packets(player_id);

    assert_eq!(network_of(&mut server, player_id).tx_packets.len(), 8);
}

#[test]
fn test_process_queued_rx_packets_swiss_cheese_queue() {
    let mut server = new_server();
    let player_name = "some player".to_owned();

    let (player_id, player_cookie): (PlayerID, String) = {
        let player: &mut Player<SocketAddr> = server.add_new_player(player_name.clone(), fake_socket_addr());
        player.request_ack = Some(1); // Player connected and we've confirmed the first transaction
        (player.player_id, player.cookie.clone())
    };

    for i in [2, 3, 4, 6, 8, 9, 10].iter() {
        let pkt = Packet::Request {
            cookie: Some(player_cookie.clone()),
            sequence: *i,
            response_ack: None,
            action: RequestAction::ListPlayers,
        };

        let nm: &mut NetworkManager = network_of(&mut server, player_id);
        nm.rx_packets.buffer_item(pkt.clone());

        assert_eq!(nm.tx_packets.len(), 0);
    }

    server.process_queued_rx_packets(player_id);

    assert_eq!(network_of(&mut server, player_id).tx_packets.len(), 3); // only 2, 3, and 4 are processed
}
