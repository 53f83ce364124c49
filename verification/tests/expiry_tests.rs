use netwayste::net::{NetAttempt, NetworkManager, Packet, RequestAction};
use std::time::{Duration, Instant};

/// An IPv4 address and port.
type SocketAddr = ([u8; 4], u16);

fn fake_socket_addr() -> SocketAddr {
    ([1, 2, 3, 4], 5678)
}

#[test]
fn test_get_expired_tx_packets_no_expirations() {
    let mut nm = NetworkManager::new();

    for i in 0..5 {
        let pkt = Packet::Request {
            sequence:     i,
            response_ack: None,
            cookie:       None,
            action:       RequestAction::NoAction,
        };

        nm.tx_packets.buffer_item(pkt.clone());
    }

    let indices = nm.tx_packets.get_retransmit_indices();

    let addr = fake_socket_addr();
    nm.get_expired_tx_packets(addr, None, &indices);

    for i in 0..5 {
        assert_eq!(nm.tx_packets.attempts.get(i).unwrap().retries, 0);
    }
}

#[test]
fn test_get_expired_tx_packets_basic_retries() {
    let mut nm = NetworkManager::new();

    for i in 0..5 {
        let pkt = Packet::Request {
            sequence:     i,
            response_ack: None,
            cookie:       None,
            action:       RequestAction::NoAction,
        };

        nm.tx_packets.buffer_item(pkt.clone());

        if i < 3 {
            let attempt: &mut NetAttempt = nm.tx_packets.attempts.back_mut().unwrap();
            attempt.time = Instant::now() - Duration::from_secs(i + 1);
        }
    }

    let indices = nm.tx_packets.get_retransmit_indices();

    let addr = fake_socket_addr();
    nm.get_expired_tx_packets(addr, None, &indices);

    for i in 0..3 {
        assert_eq!(nm.tx_packets.attempts.get(i).unwrap().retries, 1);
    }
    for i in 3..5 {
        assert_eq!(nm.tx_packets.attempts.get(i).unwrap().retries, 0);
    }
}

#[test]
fn test_get_expired_tx_packets_aggressive_retries() {
    let mut nm = NetworkManager::new();

    for i in 0..5 {
        let pkt = Packet::Request {
            sequence:     i,
            response_ack: None,
            cookie:       None,
            action:       RequestAction::NoAction,
        };

        nm.tx_packets.buffer_item(pkt.clone());

        if i < 3 {
            let attempt: &mut NetAttempt = nm.tx_packets.attempts.back_mut().unwrap();
            attempt.time = Instant::now() - Duration::from_secs(i + 1);
        }
    }

    // After 2 attempts, aggressive mode should kick in
    for _ in 0..5 {
        let indices = nm.tx_packets.get_retransmit_indices();

        println!("{:?}", indices);

        let addr = fake_socket_addr();
        nm.get_expired_tx_packets(addr, None, &indices);

        for j in 0..indices.len() {
            let attempt: &mut NetAttempt = nm.tx_packets.attempts.get_mut(j).unwrap();
            attempt.time = Instant::now() - Duration::from_secs(1u64);
        }
    }

    for i in 0..3 {
        // 5 + 2 + 2 + 3
        assert_eq!(nm.tx_packets.attempts.get(i).unwrap().retries, 11);
    }
    for i in 3..5 {
        assert_eq!(nm.tx_packets.attempts.get(i).unwrap().retries, 0);
    }
}
