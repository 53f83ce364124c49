use netwayste::client::{has_port, ClientNetState, CLIENT_VERSION};
use netwayste::net::{BroadcastChatMessage, NetwaysteEvent, Packet, PingPong, RequestAction, ResponseCode, RoomList};

/// An IPv4 address and port.
type SocketAddr = ([u8; 4], u16);

fn fake_socket_addr() -> SocketAddr {
    ([1, 2, 3, 4], 5678)
}

fn create_client_net_state() -> ClientNetState<SocketAddr> {
    let mut cns = ClientNetState::new();
    cns.server_address = Some(fake_socket_addr());
    cns
}

#[test]
fn handle_response_ok_no_request_sent() {
    let mut client_state = create_client_net_state();
    let result = client_state.handle_response_ok();
    assert!(result.is_ok());
}

#[test]
fn handle_logged_in_verify_connection_cookie() {
    let mut client_state = create_client_net_state();
    client_state.name = Some("Dr. Cookie Monster, Esquire".to_owned());
    assert_eq!(client_state.cookie, None);
    client_state.handle_logged_in("cookie monster".to_owned(), CLIENT_VERSION.to_owned());
    assert_eq!(client_state.cookie, Some("cookie monster".to_owned()));
}

#[test]
fn handle_incoming_chats_no_new_chat_messages() {
    let mut client_state = create_client_net_state();
    assert_eq!(client_state.chat_msg_seq_num, 0);

    client_state.handle_incoming_chats(vec![]);
    assert_eq!(client_state.chat_msg_seq_num, 0);
}

#[test]
fn handle_incoming_chats_new_messages_are_older() {
    let mut client_state = create_client_net_state();
    client_state.chat_msg_seq_num = 10;

    let mut incoming_messages = vec![];
    for x in 0..10 {
        let new_msg = BroadcastChatMessage::new(x as u64, "a player".to_owned(), format!("message {}", x));
        incoming_messages.push(new_msg);
    }

    client_state.handle_incoming_chats(incoming_messages);
    assert_eq!(client_state.chat_msg_seq_num, 10);
}

#[test]
fn handle_incoming_chats_client_is_up_to_date() {
    let mut client_state = create_client_net_state();
    client_state.chat_msg_seq_num = 10;

    let incoming_messages = vec![BroadcastChatMessage::new(10u64, "a player".to_owned(), format!("message {}", 10))];

    client_state.handle_incoming_chats(incoming_messages);
    assert_eq!(client_state.chat_msg_seq_num, 10);
}

#[test]
fn handle_incoming_chats_new_messages_are_old_and_new() {
    let mut client_state = create_client_net_state();
    let starting_chat_seq_num = 10;
    client_state.name = Some("client name".to_owned());
    client_state.chat_msg_seq_num = starting_chat_seq_num;

    let mut incoming_messages = vec![];
    for x in 0..20 {
        let new_msg = BroadcastChatMessage::new(x as u64, "a player".to_owned(), format!("message {}", x));
        incoming_messages.push(new_msg);
    }

    client_state.handle_incoming_chats(incoming_messages);
    assert_eq!(client_state.chat_msg_seq_num, 19);

    let mut seq_num = starting_chat_seq_num + 1;
    let chat_queue = &client_state.network.rx_chat_messages.as_ref().unwrap().queue;
    for msg in chat_queue {
        assert_eq!(msg.chat_seq.unwrap(), seq_num);
        seq_num += 1;
    }
}

#[test]
fn handle_incoming_chats_reports_messages_of_others_only() {
    let mut client_state = create_client_net_state();
    client_state.name = Some("me".to_owned());
    let incoming = vec![
        BroadcastChatMessage::new(1, "me".to_owned(), "mine".to_owned()),
        BroadcastChatMessage::new(2, "you".to_owned(), "yours".to_owned()),
    ];
    match client_state.handle_incoming_chats(incoming) {
        NetwaysteEvent::ChatMessages(v) => assert_eq!(v, vec![("you".to_owned(), "yours".to_owned())]),
        other => panic!("unexpected event {:?}", other),
    }
    assert_eq!(client_state.chat_msg_seq_num, 2);
}

#[test]
fn logged_in_response_sets_cookie_and_is_reported() {
    let mut client_state = create_client_net_state();
    // The request numbered 0 was sent before the login.
    client_state.network.tx_packets.buffer_item(Packet::Request {
        sequence: 0,
        response_ack: None,
        cookie: None,
        action: RequestAction::Connect { name: "me".to_owned(), client_version: CLIENT_VERSION.to_owned() },
    });
    let response = Packet::Response {
        sequence: 0,
        request_ack: None,
        code: ResponseCode::LoggedIn { cookie: "cookie".to_owned(), server_version: "0.1.0".to_owned() },
    };
    let (out, events) = client_state.handle_incoming_event(response, fake_socket_addr());
    assert!(out.is_empty());
    assert_eq!(client_state.cookie, Some("cookie".to_owned()));
    assert_eq!(client_state.response_sequence, 1);
    assert_eq!(client_state.network.tx_packets.len(), 0);
    assert!(client_state.last_received.is_some());
    assert_eq!(events.len(), 1);
    assert!(matches!(&events[0], NetwaysteEvent::LoggedIn(v) if v == "0.1.0"));
}

#[test]
fn response_without_matching_request_is_not_processed() {
    let mut client_state = create_client_net_state();
    let response = Packet::Response {
        sequence: 0,
        request_ack: None,
        code: ResponseCode::JoinedRoom { room_name: "room".to_owned() },
    };
    let (_, events) = client_state.handle_incoming_event(response, fake_socket_addr());
    assert!(events.is_empty());
    assert_eq!(client_state.room, None);
    assert_eq!(client_state.response_sequence, 0);
}

#[test]
fn update_is_answered_with_chat_position_and_pong() {
    let mut client_state = create_client_net_state();
    client_state.cookie = Some("cookie".to_owned());
    client_state.chat_msg_seq_num = 7;
    let update = Packet::Update {
        chats: vec![],
        game_update_seq: None,
        game_updates: vec![],
        universe_update: netwayste::net::UniUpdate::NoChange,
        ping: PingPong { nonce: 42 },
    };
    let (out, events) = client_state.handle_incoming_event(update, fake_socket_addr());
    assert!(events.is_empty());
    assert_eq!(out.len(), 1);
    match &out[0].0 {
        Packet::UpdateReply { cookie, last_chat_seq, pong, .. } => {
            assert_eq!(cookie, "cookie");
            assert_eq!(*last_chat_seq, Some(7));
            assert_eq!(pong.nonce, 42);
        },
        other => panic!("unexpected packet {:?}", other),
    }
    assert_eq!(out[0].1, fake_socket_addr());
}

#[test]
fn requests_are_numbered_once_connected_and_buffered() {
    let mut client_state = create_client_net_state();
    let p = client_state.handle_netwayste_request(NetwaysteEvent::Connect("me".to_owned(), CLIENT_VERSION.to_owned()));
    assert!(matches!(p, Some(Packet::Request { sequence: 0, .. })));
    assert_eq!(client_state.name, Some("me".to_owned()));
    client_state.cookie = Some("cookie".to_owned());
    let p = client_state.handle_netwayste_request(NetwaysteEvent::List);
    assert!(matches!(p, Some(Packet::Request { sequence: 1, action: RequestAction::ListRooms, .. })));
    assert_eq!(client_state.network.tx_packets.len(), 2);
    // Leaving is not asked from the lobby.
    assert!(client_state.handle_netwayste_request(NetwaysteEvent::LeaveRoom).is_none());
    let p = client_state.handle_netwayste_request(NetwaysteEvent::Disconnect);
    assert!(matches!(p, Some(Packet::Request { sequence: 2, action: RequestAction::Disconnect, .. })));
    assert!(client_state.disconnect_initiated);
}

#[test]
fn tick_after_disconnect_request_resets() {
    let mut client_state = create_client_net_state();
    client_state.name = Some("me".to_owned());
    client_state.cookie = Some("cookie".to_owned());
    client_state.last_received = Some(std::time::Instant::now());
    client_state.sequence = 3;
    assert!(client_state.handle_tick_event().is_some());
    client_state.disconnect_initiated = true;
    assert!(client_state.handle_tick_event().is_none());
    assert_eq!(client_state.cookie, None);
    assert_eq!(client_state.sequence, 0);
    assert_eq!(client_state.server_address, None);
    assert_eq!(client_state.name, Some("me".to_owned()));
}

#[test]
fn tick_while_unconnected_advances_the_counter() {
    let mut client_state = create_client_net_state();
    assert!(client_state.handle_tick_event().is_none());
    assert_eq!(client_state.tick, 1);
}

#[test]
fn status_completes_the_latency_measurement() {
    let mut client_state = create_client_net_state();
    let p = client_state.handle_netwayste_request(NetwaysteEvent::GetStatus(PingPong { nonce: 5 }));
    assert!(matches!(p, Some(Packet::GetStatus { ping: PingPong { nonce: 5 } })));
    assert!(client_state.is_awaiting_status());
    let status = Packet::Status {
        pong: PingPong { nonce: 5 },
        server_version: "0.1.0".to_owned(),
        player_count: 0,
        room_count: 1,
        server_name: "server".to_owned(),
    };
    let (_, events) = client_state.handle_incoming_event(status, fake_socket_addr());
    assert!(!client_state.is_awaiting_status());
    assert_eq!(events.len(), 1);
    assert!(matches!(&events[0], NetwaysteEvent::Status(Packet::Status { .. }, Some(0))));
}

#[test]
fn player_and_room_lists_are_logged_line_by_line() {
    let mut client_state = create_client_net_state();
    let lines = client_state.handle_player_list(vec!["ann".to_owned(), "bob".to_owned()]);
    assert_eq!(lines, vec!["---BEGIN PLAYER LIST---", "0\tname: ann", "1\tname: bob", "---END PLAYER LIST---"]);
    let lines = client_state.handle_room_list(vec![RoomList { room_name: "general".to_owned(), player_count: 3, in_progress: false }]);
    assert_eq!(lines, vec!["---BEGIN GAME ROOM LIST---", "#name: general,\trunning? false,\tplayers: 3", "---END GAME ROOM LIST---"]);
}

#[test]
fn server_address_port_detection() {
    assert!(has_port("localhost:2016"));
    assert!(has_port("10.0.0.1:1"));
    assert!(has_port("host:65535"));
    assert!(!has_port("localhost"));
    assert!(!has_port("host:"));
    assert!(!has_port("host:123456"));
    assert!(!has_port("host:20a6"));
    assert!(!has_port(":"));
    // The colon must come before the digits, with nothing after them.
    assert!(!has_port("2016"));
    assert!(has_port("a:b:99"));
    // The pattern's digits are Unicode decimal digits, as the regex crate reads `\d`.
    assert!(has_port("host:\u{0661}\u{0662}"));
}
