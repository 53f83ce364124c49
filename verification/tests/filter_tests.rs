use netwayste::common::{Endpoint, GenStateDiff};
use netwayste::filter::filter::Filter;
use netwayste::filter::{
    command_reply, CommandReply, FilterCmd, FilterError, FilterMode, FilterNotice, FilterRsp, Phase, ServerStatus,
};
use netwayste::filter::{PingPong, UnackedQueue};
use netwayste::protocol::{BroadcastChatMessage, GameUpdate, Packet, RequestAction, ResponseCode, UniUpdate};
use netwayste::transport::interface::TransportCmd;

fn client_endpoint() -> Endpoint {
    // 1.2.3.4:5678
    Endpoint { ip: 0x0102_0304, port: 5678, is_ipv6: false }
}

fn size_of(_u: &GameUpdate) -> Option<u64> {
    Some(1)
}

fn apply(_d: &GenStateDiff, _p: Option<usize>) -> Result<Option<usize>, String> {
    Ok(None)
}

fn server_filter() -> Filter {
    Filter::new(FilterMode::Server(ServerStatus::default()))
}

fn request(sequence: u64, action: RequestAction) -> Packet {
    Packet::Request { sequence, response_ack: None, cookie: None, action }
}

fn connect(name: &str) -> RequestAction {
    RequestAction::Connect { name: name.to_owned(), client_version: "0.3.2".to_owned() }
}

/// Delivers `packet` from the client endpoint; returns the notices it gave.
fn deliver(f: &mut Filter, packet: Packet, cmds: &mut Vec<TransportCmd>) -> Vec<FilterNotice> {
    let mut notices = Vec::new();
    assert!(f.can_process_transport_packet(client_endpoint(), &packet));
    let r = f.process_transport_packet(client_endpoint(), packet, cmds, &mut notices, &size_of, &apply);
    assert!(r.is_ok());
    notices
}

fn request_action_of(notice: &FilterNotice) -> RequestAction {
    match notice {
        FilterNotice::NewRequestAction { endpoint, action } => {
            assert_eq!(*endpoint, client_endpoint());
            action.clone()
        },
        other => panic!("unexpected notice {:?}", other),
    }
}

#[test]
fn connect_goes_up_as_request_action() {
    let mut f = server_filter();
    let mut cmds = Vec::new();
    let notices = deliver(&mut f, request(1, connect("Sheeana")), &mut cmds);
    assert_eq!(notices.len(), 1);
    assert_eq!(request_action_of(&notices[0]), connect("Sheeana"));
    assert!(matches!(cmds[0], TransportCmd::NewEndpoint { endpoint, .. } if endpoint == client_endpoint()));
}

#[test]
fn held_back_request_released_in_order() {
    let mut f = server_filter();
    let mut cmds = Vec::new();
    assert_eq!(deliver(&mut f, request(1, connect("a")), &mut cmds).len(), 1);
    // Sequence 3 arrives before 2: held back.
    assert_eq!(deliver(&mut f, request(3, RequestAction::ListRooms), &mut cmds).len(), 0);
    let notices = deliver(&mut f, request(2, RequestAction::ListPlayers), &mut cmds);
    assert_eq!(notices.len(), 2);
    assert_eq!(request_action_of(&notices[0]), RequestAction::ListPlayers);
    assert_eq!(request_action_of(&notices[1]), RequestAction::ListRooms);
    // The last request seen is now 3: the next one goes straight up.
    let notices = deliver(&mut f, request(4, RequestAction::Disconnect), &mut cmds);
    assert_eq!(notices.len(), 1);
    assert_eq!(request_action_of(&notices[0]), RequestAction::Disconnect);
}

#[test]
fn duplicate_request_is_dropped() {
    let mut f = server_filter();
    let mut cmds = Vec::new();
    assert_eq!(deliver(&mut f, request(1, connect("a")), &mut cmds).len(), 1);
    assert_eq!(deliver(&mut f, request(1, connect("a")), &mut cmds).len(), 0);
}

#[test]
fn unknown_sender_told_not_connected() {
    let mut f = server_filter();
    let mut cmds = Vec::new();
    let notices = deliver(&mut f, request(1, RequestAction::ListRooms), &mut cmds);
    assert_eq!(notices.len(), 0);
    assert_eq!(cmds.len(), 1);
    match &cmds[0] {
        TransportCmd::SendPackets { endpoint, packet_infos, packets } => {
            assert_eq!(*endpoint, client_endpoint());
            assert_eq!(packet_infos.len(), 1);
            assert_eq!(packet_infos[0].retry_interval, std::time::Duration::ZERO);
            assert_eq!(packets.len(), 1);
            match &packets[0] {
                Packet::Response { sequence, request_ack, code } => {
                    assert_eq!(*sequence, 1);
                    assert_eq!(*request_ack, None);
                    assert_eq!(*code, ResponseCode::NotConnected { error_msg: "Unknown client".to_owned() });
                },
                other => panic!("unexpected packet {:?}", other),
            }
        },
        other => panic!("unexpected command {:?}", other),
    }
    // A second unknown packet is answered again, and still nothing is known of the sender.
    let _ = deliver(&mut f, request(2, RequestAction::ListPlayers), &mut cmds);
    assert_eq!(cmds.len(), 2);
}

#[test]
fn request_action_to_unknown_endpoint_is_refused() {
    let mut f = server_filter();
    let mut cmds = Vec::new();
    let r = f.process_filter_command(
        FilterCmd::SendRequestAction { endpoint: client_endpoint(), action: RequestAction::ListRooms },
        &mut cmds,
    );
    assert!(matches!(r, Err(FilterError::EndpointNotFound { endpoint }) if endpoint == client_endpoint()));
    assert_eq!(cmds.len(), 0);
    assert!(matches!(command_reply(&r), CommandReply::Respond(FilterRsp::NoSuchEndpoint { endpoint }) if endpoint == client_endpoint()));
}

#[test]
fn response_code_sent_to_connected_client() {
    let mut f = server_filter();
    let mut cmds = Vec::new();
    let _ = deliver(&mut f, request(1, connect("a")), &mut cmds);
    let before = cmds.len();
    let code = ResponseCode::LoggedIn { cookie: "fakecookie".to_owned(), server_version: "1.2.3.4.5".to_owned() };
    let r = f.process_filter_command(FilterCmd::SendResponseCode { endpoint: client_endpoint(), code: code.clone() }, &mut cmds);
    assert!(r.is_ok());
    assert_eq!(cmds.len(), before + 1);
    match &cmds[before] {
        TransportCmd::SendPackets { endpoint, packets, .. } => {
            assert_eq!(*endpoint, client_endpoint());
            assert_eq!(packets.len(), 1);
            match &packets[0] {
                Packet::Response { sequence, request_ack, code: c } => {
                    assert_eq!(*sequence, 1);
                    assert_eq!(*request_ack, Some(1));
                    assert_eq!(*c, code);
                },
                other => panic!("unexpected packet {:?}", other),
            }
        },
        other => panic!("unexpected command {:?}", other),
    }
}

#[test]
fn command_replies() {
    assert!(matches!(command_reply(&Ok(())), CommandReply::Respond(FilterRsp::Accepted)));
    assert!(matches!(
        command_reply(&Err(FilterError::ShutdownRequested { graceful: true })),
        CommandReply::Stop { phase: Phase::ShutdownComplete }
    ));
    assert!(matches!(
        command_reply(&Err(FilterError::ShutdownRequested { graceful: false })),
        CommandReply::Stop { phase: Phase::ShutdownInProgress }
    ));
    assert!(matches!(
        command_reply(&Err(FilterError::EndpointNotFound { endpoint: client_endpoint() })),
        CommandReply::Respond(FilterRsp::NoSuchEndpoint { endpoint }) if endpoint == client_endpoint()
    ));
    assert!(matches!(
        command_reply(&Err(FilterError::InternalError { problem: "x".to_owned() })),
        CommandReply::Respond(FilterRsp::Accepted)
    ));
    assert!(matches!(command_reply(&Err(FilterError::Refused { problem: "x".to_owned() })), CommandReply::Silent));
}

#[test]
fn only_a_complete_shutdown_ends_the_watch() {
    assert!(Phase::ShutdownComplete.is_shutdown_complete());
    assert!(!Phase::ShutdownInProgress.is_shutdown_complete());
    assert!(!Phase::Running.is_shutdown_complete());
}

fn response(sequence: u64, code: ResponseCode) -> Packet {
    Packet::Response { sequence, request_ack: None, code }
}

fn response_code_of(notice: &FilterNotice) -> ResponseCode {
    match notice {
        FilterNotice::NewResponseCode { endpoint, code } => {
            assert_eq!(*endpoint, client_endpoint());
            code.clone()
        },
        other => panic!("unexpected notice {:?}", other),
    }
}

#[test]
fn held_back_response_released_in_order() {
    // Here the endpoint stands for the server a client connects to.
    let mut f = Filter::new(FilterMode::Client);
    let mut cmds = Vec::new();
    let r = f.process_filter_command(
        FilterCmd::SendRequestAction { endpoint: client_endpoint(), action: connect("a") },
        &mut cmds,
    );
    assert!(r.is_ok());
    assert_eq!(cmds.len(), 2);
    assert!(matches!(cmds[0], TransportCmd::NewEndpoint { .. }));
    let logged_in = ResponseCode::LoggedIn { cookie: "c".to_owned(), server_version: "1".to_owned() };
    let notices = deliver(&mut f, response(1, logged_in.clone()), &mut cmds);
    assert_eq!(notices.len(), 1);
    assert_eq!(response_code_of(&notices[0]), logged_in);
    assert_eq!(deliver(&mut f, response(3, ResponseCode::KeepAlive), &mut cmds).len(), 0);
    let notices = deliver(&mut f, response(2, ResponseCode::OK), &mut cmds);
    assert_eq!(notices.len(), 2);
    assert_eq!(response_code_of(&notices[0]), ResponseCode::OK);
    assert_eq!(response_code_of(&notices[1]), ResponseCode::KeepAlive);
    let notices = deliver(&mut f, response(4, ResponseCode::LeaveRoom), &mut cmds);
    assert_eq!(notices.len(), 1);
    assert_eq!(response_code_of(&notices[0]), ResponseCode::LeaveRoom);
}

#[test]
fn update_in_room_gives_chats_and_reply() {
    let mut f = Filter::new(FilterMode::Client);
    let mut cmds = Vec::new();
    let r = f.process_filter_command(
        FilterCmd::SendRequestAction { endpoint: client_endpoint(), action: connect("a") },
        &mut cmds,
    );
    assert!(r.is_ok());
    let logged_in = ResponseCode::LoggedIn { cookie: "c".to_owned(), server_version: "1".to_owned() };
    assert_eq!(deliver(&mut f, response(1, logged_in), &mut cmds).len(), 1);
    let joined = ResponseCode::JoinedRoom { room_name: "r".to_owned() };
    assert_eq!(deliver(&mut f, response(2, joined), &mut cmds).len(), 1);
    let chat = BroadcastChatMessage { chat_seq: Some(1), player_name: "b".to_owned(), message: "hi".to_owned() };
    let update = Packet::Update {
        chats: vec![chat.clone()],
        game_update_seq: None,
        game_updates: vec![],
        universe_update: UniUpdate::NoChange,
        ping: PingPong::pong(7),
    };
    let before = cmds.len();
    let notices = deliver(&mut f, update.clone(), &mut cmds);
    assert_eq!(notices.len(), 1);
    match &notices[0] {
        FilterNotice::NewChats { endpoint, messages } => {
            assert_eq!(*endpoint, client_endpoint());
            assert_eq!(messages.len(), 1);
            assert_eq!(messages[0], chat);
        },
        other => panic!("unexpected notice {:?}", other),
    }
    assert_eq!(cmds.len(), before + 1);
    match &cmds[before] {
        TransportCmd::SendPackets { packets, .. } => match &packets[0] {
            Packet::UpdateReply { cookie, last_chat_seq, pong, .. } => {
                assert_eq!(cookie, "c");
                assert_eq!(*last_chat_seq, Some(1));
                assert_eq!(pong.nonce, 7);
            },
            other => panic!("unexpected packet {:?}", other),
        },
        other => panic!("unexpected command {:?}", other),
    }
    // The same chat again is not news.
    let notices = deliver(&mut f, update, &mut cmds);
    assert_eq!(notices.len(), 0);
}

#[test]
fn update_without_cookie_is_refused() {
    let mut f = Filter::new(FilterMode::Client);
    let mut cmds = Vec::new();
    let r = f.process_filter_command(
        FilterCmd::SendRequestAction { endpoint: client_endpoint(), action: connect("a") },
        &mut cmds,
    );
    assert!(r.is_ok());
    let update = Packet::Update {
        chats: vec![],
        game_update_seq: None,
        game_updates: vec![],
        universe_update: UniUpdate::NoChange,
        ping: PingPong::pong(1),
    };
    let before = cmds.len();
    let mut notices = Vec::new();
    assert!(f.can_process_transport_packet(client_endpoint(), &update));
    let r = f.process_transport_packet(client_endpoint(), update, &mut cmds, &mut notices, &size_of, &apply);
    assert!(r.is_err());
    assert_eq!(notices.len(), 0);
    assert_eq!(cmds.len(), before);
}

#[test]
fn ack_keeps_only_items_numbered_above_it() {
    let mut q: UnackedQueue<u32> = UnackedQueue::new();
    for item in [10u32, 20, 30, 40] {
        q.push(item);
    }
    assert!(!q.ack(None));
    assert_eq!(q.get(), vec![(1, 10), (2, 20), (3, 30), (4, 40)]);
    assert!(q.ack(Some(2)));
    assert_eq!(q.get(), vec![(3, 30), (4, 40)]);
    // An acknowledgement below the greatest one received changes nothing.
    assert!(!q.ack(Some(1)));
    assert_eq!(q.get(), vec![(3, 30), (4, 40)]);
    // Nothing left at or below 2.
    assert!(!q.ack(Some(2)));
    assert!(q.ack(Some(9)));
    assert_eq!(q.get(), Vec::<(u64, u32)>::new());
}

#[test]
fn clear_restarts_numbering_and_forgets_acks() {
    let mut q: UnackedQueue<u32> = UnackedQueue::new();
    for item in [1u32, 2, 3] {
        q.push(item);
    }
    assert!(q.ack(Some(5)));
    q.clear();
    assert_eq!(q.len(), 0);
    assert_eq!(q.get(), Vec::<(u64, u32)>::new());
    q.push(7);
    q.push(8);
    assert_eq!(q.get(), vec![(1, 7), (2, 8)]);
    // 5 was acknowledged before the clear; an acknowledgement of 1 still counts now.
    assert!(q.ack(Some(1)));
    assert_eq!(q.get(), vec![(2, 8)]);
}

#[test]
fn acknowledged_request_is_dropped_from_transport() {
    let mut f = Filter::new(FilterMode::Client);
    let mut cmds = Vec::new();
    assert!(f
        .process_filter_command(FilterCmd::SendRequestAction { endpoint: client_endpoint(), action: connect("a") }, &mut cmds)
        .is_ok());
    let tid = match &cmds[1] {
        TransportCmd::SendPackets { packet_infos, .. } => packet_infos[0].tid,
        other => panic!("unexpected command {:?}", other),
    };
    let before = cmds.len();
    let logged_in = ResponseCode::LoggedIn { cookie: "c".to_owned(), server_version: "1".to_owned() };
    let packet = Packet::Response { sequence: 1, request_ack: Some(1), code: logged_in };
    let _ = deliver(&mut f, packet, &mut cmds);
    assert_eq!(cmds.len(), before + 1);
    assert!(matches!(cmds[before], TransportCmd::DropPacket { endpoint, tid: t } if endpoint == client_endpoint() && t == tid));
    // A later response acknowledging the same request drops nothing more.
    let packet = Packet::Response { sequence: 2, request_ack: Some(1), code: ResponseCode::OK };
    let _ = deliver(&mut f, packet, &mut cmds);
    assert_eq!(cmds.len(), before + 1);
}

#[test]
fn acknowledged_response_code_is_not_sent_again() {
    let mut f = server_filter();
    let mut cmds = Vec::new();
    let _ = deliver(&mut f, request(1, connect("a")), &mut cmds);
    let code = ResponseCode::LoggedIn { cookie: "c".to_owned(), server_version: "1".to_owned() };
    assert!(f.process_filter_command(FilterCmd::SendResponseCode { endpoint: client_endpoint(), code }, &mut cmds).is_ok());
    // A request that does not acknowledge the response has it sent again.
    let before = cmds.len();
    let unacked = Packet::Request { sequence: 2, response_ack: None, cookie: None, action: RequestAction::ListRooms };
    let _ = deliver(&mut f, unacked, &mut cmds);
    assert_eq!(cmds.len(), before + 1);
    assert!(matches!(&cmds[before], TransportCmd::SendPackets { packets, .. } if packets.len() == 1));
    // Once acknowledged, it is dropped and not sent again.
    let before = cmds.len();
    let acked = Packet::Request { sequence: 3, response_ack: Some(1), cookie: None, action: RequestAction::ListPlayers };
    let _ = deliver(&mut f, acked, &mut cmds);
    assert_eq!(cmds.len(), before);
}
