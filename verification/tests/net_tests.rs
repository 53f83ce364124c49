use netwayste::net::{BroadcastChatMessage, NetworkManager, Packet, RequestAction, Sequenced, NETWORK_QUEUE_LENGTH};

#[test]
fn test_buffer_item_queue_is_empty() {
    let mut nm = NetworkManager::new();
    let pkt = Packet::Request {
        sequence:     0,
        response_ack: None,
        cookie:       None,
        action:       RequestAction::NoAction,
    };

    nm.tx_packets.buffer_item(pkt);
    assert_eq!(nm.tx_packets.len(), 1);
}

#[test]
fn test_buffer_item_sequence_number_reused() {
    let mut nm = NetworkManager::new();
    let pkt = Packet::Request {
        sequence:     0,
        response_ack: None,
        cookie:       None,
        action:       RequestAction::NoAction,
    };

    nm.tx_packets.buffer_item(pkt);
    let pkt = Packet::Request {
        sequence:     0,
        response_ack: None,
        cookie:       None,
        action:       RequestAction::LeaveRoom,
    };

    nm.tx_packets.buffer_item(pkt);
    let pkt = nm.tx_packets.queue.back().unwrap();
    if let Packet::Request {
        sequence: _,
        response_ack: _,
        cookie: _,
        action,
    } = pkt
    {
        assert_eq!(*action, RequestAction::NoAction);
    }
}

#[test]
fn test_buffer_item_basic_sequencing() {
    let mut nm = NetworkManager::new();
    let pkt = Packet::Request {
        sequence:     0,
        response_ack: None,
        cookie:       None,
        action:       RequestAction::NoAction,
    };

    nm.tx_packets.buffer_item(pkt);
    let pkt = Packet::Request {
        sequence:     1,
        response_ack: None,
        cookie:       None,
        action:       RequestAction::LeaveRoom,
    };
    nm.tx_packets.buffer_item(pkt);
    assert_eq!(nm.tx_packets.len(), 2);
}

#[test]
fn test_buffer_item_newer_packet_has_smaller_sequence_number() {
    let mut nm = NetworkManager::new();
    let pkt = Packet::Request {
        sequence:     1,
        response_ack: None,
        cookie:       None,
        action:       RequestAction::NoAction,
    };

    nm.tx_packets.buffer_item(pkt);
    let pkt = Packet::Request {
        sequence:     0,
        response_ack: None,
        cookie:       None,
        action:       RequestAction::LeaveRoom,
    };
    nm.tx_packets.buffer_item(pkt);
    assert_eq!(nm.tx_packets.len(), 2);

    let pkt = nm.tx_packets.queue.back().unwrap();
    if let Packet::Request {
        sequence,
        response_ack: _,
        cookie: _,
        action: _,
    } = pkt
    {
        assert_eq!(*sequence, 1);
    }
}

#[test]
fn test_buffer_item_basic_contiguous_ascending() {
    let mut nm = NetworkManager::new();
    for index in 0..5 {
        let pkt = Packet::Request {
            sequence:     index as u64,
            response_ack: None,
            cookie:       None,
            action:       RequestAction::NoAction,
        };
        nm.rx_packets.buffer_item(pkt);
    }

    let mut iter = nm.rx_packets.queue.iter();
    for index in 0..5 {
        let pkt = iter.next().unwrap();
        assert_eq!(index, pkt.sequence_number() as usize);
    }
}

#[test]
fn test_buffer_item_basic_contiguous_descending() {
    let mut nm = NetworkManager::new();
    for index in (0..5).rev() {
        let pkt = Packet::Request {
            sequence:     index as u64,
            response_ack: None,
            cookie:       None,
            action:       RequestAction::NoAction,
        };
        nm.rx_packets.buffer_item(pkt);
    }

    let mut iter = nm.rx_packets.queue.iter();
    for index in 0..5 {
        let pkt = iter.next().unwrap();
        assert_eq!(index, pkt.sequence_number() as usize);
    }
}

#[test]
fn test_buffer_item_basic_sequential_gap_ascending() {
    let mut nm = NetworkManager::new();
    // TODO Replace with (x,y).step_by(z) once stable
    for index in [0, 2, 4, 6, 8, 10].iter() {
        let pkt = Packet::Request {
            sequence:     *index as u64,
            response_ack: None,
            cookie:       None,
            action:       RequestAction::NoAction,
        };
        nm.rx_packets.buffer_item(pkt);
    }

    let mut iter = nm.rx_packets.queue.iter();
    for &index in [0, 2, 4, 6, 8, 10].iter() {
        let pkt = iter.next().unwrap();
        assert_eq!(index, pkt.sequence_number() as usize);
    }
}

#[test]
fn test_buffer_item_basic_sequential_gap_descending() {
    let mut nm = NetworkManager::new();
    for index in [0, 2, 4, 6, 8, 10].iter().rev() {
        let pkt = Packet::Request {
            sequence:     *index as u64,
            response_ack: None,
            cookie:       None,
            action:       RequestAction::NoAction,
        };
        nm.rx_packets.buffer_item(pkt);
    }

    let mut iter = nm.rx_packets.queue.iter();
    for index in [0, 2, 4, 6, 8, 10].iter() {
        let pkt = iter.next().unwrap();
        assert_eq!(*index, pkt.sequence_number());
    }
}

#[test]
fn test_buffer_item_basic_random() {
    let mut nm = NetworkManager::new();
    for index in [5, 2, 9, 1, 0, 8, 6].iter() {
        let pkt = Packet::Request {
            sequence:     *index as u64,
            response_ack: None,
            cookie:       None,
            action:       RequestAction::NoAction,
        };
        nm.rx_packets.buffer_item(pkt);
    }

    let mut iter = nm.rx_packets.queue.iter();
    for index in [0, 1, 2, 5, 6, 8, 9].iter() {
        let pkt = iter.next().unwrap();
        assert_eq!(*index, pkt.sequence_number() as usize);
    }
}

#[test]
fn test_buffer_item_butterfly_pattern() {
    let mut nm = NetworkManager::new();
    // This one is fun because it tests the internal edges of (front_slice and back_slice)
    for index in [0, 10, 1, 9, 2, 8, 3, 7, 4, 6, 5].iter() {
        let pkt = Packet::Request {
            sequence:     *index as u64,
            response_ack: None,
            cookie:       None,
            action:       RequestAction::NoAction,
        };
        nm.rx_packets.buffer_item(pkt);
    }

    let mut iter = nm.rx_packets.queue.iter();
    for index in [0, 1, 2, 3, 4, 5, 6, 7, 8, 9, 10].iter() {
        let pkt = iter.next().unwrap();
        assert_eq!(*index, pkt.sequence_number() as usize);
    }
}

#[test]
fn test_buffer_item_basic_repetition() {
    let mut nm = NetworkManager::new();
    for index in [0, 0, 0, 0, 1, 2, 2, 2, 5].iter() {
        let pkt = Packet::Request {
            sequence:     *index as u64,
            response_ack: None,
            cookie:       None,
            action:       RequestAction::NoAction,
        };
        nm.rx_packets.buffer_item(pkt);
    }

    let mut iter = nm.rx_packets.queue.iter();
    for index in [0, 1, 2, 5].iter() {
        let pkt = iter.next().unwrap();
        assert_eq!(*index, pkt.sequence_number() as usize);
    }
}

#[test]
fn test_buffer_item_advanced_sequential_then_pseudorandom_then_sequential() {
    let mut nm = NetworkManager::new();

    for index in 0..5 {
        let pkt = Packet::Request {
            sequence:     index as u64,
            response_ack: None,
            cookie:       None,
            action:       RequestAction::NoAction,
        };
        nm.rx_packets.buffer_item(pkt);
    }

    for index in [10, 7, 11, 9, 12, 8, 99, 6].iter() {
        let pkt = Packet::Request {
            sequence:     *index as u64,
            response_ack: None,
            cookie:       None,
            action:       RequestAction::NoAction,
        };
        nm.rx_packets.buffer_item(pkt);
    }

    for index in 13..20 {
        let pkt = Packet::Request {
            sequence:     index as u64,
            response_ack: None,
            cookie:       None,
            action:       RequestAction::NoAction,
        };
        nm.rx_packets.buffer_item(pkt);
    }

    let mut iter = nm.rx_packets.queue.iter();
    let mut range = (0..20).collect::<Vec<usize>>();
    range.extend([99].iter().cloned()); // Add in 99
    range.remove(5); // But remove 5 since it was never included
    for index in range.iter() {
        let pkt = iter.next().unwrap();
        assert_eq!(*index, pkt.sequence_number() as usize);
    }
}

#[test]
fn test_buffer_item_advanced_reverse_sequential_then_random_then_reverse_sequential() {
    let mut nm = NetworkManager::new();

    for index in (0..5).rev() {
        let pkt = Packet::Request {
            sequence:     index as u64,
            response_ack: None,
            cookie:       None,
            action:       RequestAction::NoAction,
        };
        nm.rx_packets.buffer_item(pkt);
    }

    for index in [10, 7, 11, 9, 12, 8, 99, 6].iter() {
        let pkt = Packet::Request {
            sequence:     *index as u64,
            response_ack: None,
            cookie:       None,
            action:       RequestAction::NoAction,
        };
        nm.rx_packets.buffer_item(pkt);
    }

    for index in (13..20).rev() {
        let pkt = Packet::Request {
            sequence:     index as u64,
            response_ack: None,
            cookie:       None,
            action:       RequestAction::NoAction,
        };
        nm.rx_packets.buffer_item(pkt);
    }

    let mut iter = nm.rx_packets.queue.iter();
    let mut range = (0..20).collect::<Vec<usize>>();
    range.extend([99].iter().cloned()); // Add in 99
    range.remove(5); // But remove 5 since it was never included
    for index in range.iter() {
        let pkt = iter.next().unwrap();
        assert_eq!(*index, pkt.sequence_number() as usize);
    }
}

#[test]
fn test_buffer_item_basic_wrapping_case() {
    let mut nm = NetworkManager::new();
    let u64_max = <u64>::max_value();
    let start = u64_max - 5;

    for index in start..(start + 5) {
        let pkt = Packet::Request {
            sequence:     index as u64,
            response_ack: None,
            cookie:       None,
            action:       RequestAction::NoAction,
        };
        nm.rx_packets.buffer_item(pkt);
    }

    {
        let pkt = Packet::Request {
            sequence:     u64_max,
            response_ack: None,
            cookie:       None,
            action:       RequestAction::NoAction,
        };
        nm.rx_packets.buffer_item(pkt);
    }

    for index in 0..5 {
        let pkt = Packet::Request {
            sequence:     index as u64,
            response_ack: None,
            cookie:       None,
            action:       RequestAction::NoAction,
        };
        nm.rx_packets.buffer_item(pkt);
    }

    let mut iter = nm.rx_packets.queue.iter();
    let mut range = (start..u64_max).collect::<Vec<u64>>();
    range.extend([u64_max, 0, 1, 2, 3, 4].iter().cloned()); // Add in u64 max value plus others
    for index in range.iter() {
        let pkt = iter.next().unwrap();
        assert_eq!(*index, pkt.sequence_number());
    }
}

#[test]
fn test_buffer_item_basic_wrapping_case_then_out_of_order() {
    let mut nm = NetworkManager::new();
    let u64_max = <u64>::max_value();
    let start = u64_max - 5;

    for index in start..(start + 5) {
        let pkt = Packet::Request {
            sequence:     index as u64,
            response_ack: None,
            cookie:       None,
            action:       RequestAction::NoAction,
        };
        nm.rx_packets.buffer_item(pkt);
    }

    {
        let pkt = Packet::Request {
            sequence:     u64_max,
            response_ack: None,
            cookie:       None,
            action:       RequestAction::NoAction,
        };
        nm.rx_packets.buffer_item(pkt);
    }

    for index in [5, 0, 4, 1, 3, 2].iter() {
        let pkt = Packet::Request {
            sequence:     *index as u64,
            response_ack: None,
            cookie:       None,
            action:       RequestAction::NoAction,
        };
        nm.rx_packets.buffer_item(pkt);
    }

    let mut iter = nm.rx_packets.queue.iter();
    let mut range = (start..u64_max).collect::<Vec<u64>>();
    range.extend([u64_max, 0, 1, 2, 3, 4, 5].iter().cloned()); // Add in u64 max value plus others
    for index in range.iter() {
        let pkt = iter.next().unwrap();
        assert_eq!(*index, pkt.sequence_number());
    }
}

#[test]
fn test_buffer_item_advanced_wrapping_case_everything_out_of_order() {
    let mut nm = NetworkManager::new();
    let u64_max = <u64>::max_value();
    let max_minus_5 = u64_max - 5;
    let max_minus_4 = u64_max - 4;
    let max_minus_3 = u64_max - 3;
    let max_minus_2 = u64_max - 2;
    let max_minus_1 = u64_max - 1;
    let zero = 0;
    let one = 1;
    let two = 2;
    let three = 3;

    let input_order = [
        max_minus_4,
        two,
        max_minus_1,
        max_minus_5,
        u64_max,
        three,
        max_minus_2,
        zero,
        max_minus_3,
        one,
    ];

    for index in input_order.iter() {
        let pkt = Packet::Request {
            sequence:     *index as u64,
            response_ack: None,
            cookie:       None,
            action:       RequestAction::NoAction,
        };
        nm.rx_packets.buffer_item(pkt);
    }

    let mut iter = nm.rx_packets.queue.iter();
    let mut range = vec![];
    range.extend(
        [
            max_minus_5,
            max_minus_4,
            max_minus_3,
            max_minus_2,
            max_minus_1,
            u64_max,
            zero,
            one,
            two,
            three,
        ]
        .iter()
        .cloned(),
    ); // Add in u64 max value plus others

    for index in range.iter() {
        let pkt = iter.next().unwrap();
        assert_eq!(*index, pkt.sequence_number());
    }
}

#[test]
fn test_buffer_item_advanced_max_sequence_number_arrives_after_a_wrap() {
    let mut nm = NetworkManager::new();
    let u64_max = <u64>::max_value();
    let max_minus_2 = u64_max - 2;
    let max_minus_1 = u64_max - 1;
    let two = 2;
    let three = 3;

    let input_order = [max_minus_1, max_minus_2, three, u64_max, two];

    for index in input_order.iter() {
        let pkt = Packet::Request {
            sequence:     *index as u64,
            response_ack: None,
            cookie:       None,
            action:       RequestAction::NoAction,
        };
        nm.rx_packets.buffer_item(pkt);
    }

    let mut iter = nm.rx_packets.queue.iter();
    let mut range = vec![];
    range.extend([max_minus_2, max_minus_1, u64_max, two, three].iter().cloned()); // Add in u64 max value plus others
    for index in range.iter() {
        let pkt = iter.next().unwrap();
        assert_eq!(*index, pkt.sequence_number());
    }
}

#[test]
fn test_buffer_item_advanced_oldest_sequence_number_arrived_last() {
    let mut nm = NetworkManager::new();
    let u64_max = <u64>::max_value();
    let max_minus_3 = u64_max - 3;
    let max_minus_2 = u64_max - 2;
    let max_minus_1 = u64_max - 1;
    let zero = 0;
    let one = 1;
    let two = 2;
    let three = 3;

    let input_order = [max_minus_1, max_minus_2, three, u64_max, two, one, zero, max_minus_3];

    for index in input_order.iter() {
        let pkt = Packet::Request {
            sequence:     *index as u64,
            response_ack: None,
            cookie:       None,
            action:       RequestAction::NoAction,
        };
        nm.rx_packets.buffer_item(pkt);
    }

    let mut iter = nm.rx_packets.queue.iter();
    let mut range = vec![];
    range.extend(
        [max_minus_3, max_minus_2, max_minus_1, u64_max, zero, one, two, three]
            .iter()
            .cloned(),
    );

    for index in range.iter() {
        let pkt = iter.next().unwrap();
        assert_eq!(*index, pkt.sequence_number());
    }
}

#[test]
fn test_buffer_item_advanced_wrap_occurs_with_two_item_queue() {
    let mut nm = NetworkManager::new();
    let u64_max = <u64>::max_value();
    let max_minus_3 = u64_max - 3;
    let max_minus_2 = u64_max - 2;
    let max_minus_1 = u64_max - 1;
    let zero = 0;
    let one = 1;
    let two = 2;
    let three = 3;

    // Forward wrap occurs non-contiguously (aka [254, 0, ...] for bytes)
    let input_order = [max_minus_1, zero, three, u64_max, max_minus_2, one, two, max_minus_3];

    for index in input_order.iter() {
        let pkt = Packet::Request {
            sequence:     *index as u64,
            response_ack: None,
            cookie:       None,
            action:       RequestAction::NoAction,
        };
        nm.rx_packets.buffer_item(pkt);
    }

    let mut iter = nm.rx_packets.queue.iter();
    let mut range = vec![];
    range.extend(
        [max_minus_3, max_minus_2, max_minus_1, u64_max, zero, one, two, three]
            .iter()
            .cloned(),
    );

    for index in range.iter() {
        let pkt = iter.next().unwrap();
        assert_eq!(*index, pkt.sequence_number());
    }
}

#[test]
fn test_buffer_item_advanced_wrap_occurs_with_two_item_queue_in_reverse() {
    let mut nm = NetworkManager::new();
    let u64_max = <u64>::max_value();
    let max_minus_3 = u64_max - 3;
    let max_minus_2 = u64_max - 2;
    let max_minus_1 = u64_max - 1;
    let zero = 0;
    let one = 1;
    let two = 2;
    let three = 3;

    // Wrap takes place in reverse order ( aka [0, 254, ...] for bytes)
    let input_order = [zero, max_minus_1, three, u64_max, max_minus_2, one, two, max_minus_3];

    for index in input_order.iter() {
        let pkt = Packet::Request {
            sequence:     *index as u64,
            response_ack: None,
            cookie:       None,
            action:       RequestAction::NoAction,
        };
        nm.rx_packets.buffer_item(pkt);
    }

    let mut iter = nm.rx_packets.queue.iter();
    let mut range = vec![];
    range.extend(
        [max_minus_3, max_minus_2, max_minus_1, u64_max, zero, one, two, three]
            .iter()
            .cloned(),
    );

    for index in range.iter() {
        let pkt = iter.next().unwrap();
        assert_eq!(*index, pkt.sequence_number());
    }
}

#[test]
fn test_buffer_item_advanced_wrapping_case_max_arrives_first() {
    let mut nm = NetworkManager::new();
    let u64_max = <u64>::max_value();
    let max_minus_5 = u64_max - 5;
    let max_minus_4 = u64_max - 4;
    let max_minus_3 = u64_max - 3;
    let max_minus_2 = u64_max - 2;
    let max_minus_1 = u64_max - 1;
    let zero = 0;
    let one = 1;
    let two = 2;
    let three = 3;

    let input_order = [
        u64_max,
        max_minus_4,
        two,
        max_minus_1,
        max_minus_5,
        three,
        max_minus_2,
        zero,
        max_minus_3,
        one,
    ];

    for index in input_order.iter() {
        let pkt = Packet::Request {
            sequence:     *index as u64,
            response_ack: None,
            cookie:       None,
            action:       RequestAction::NoAction,
        };
        nm.rx_packets.buffer_item(pkt);
    }

    let mut iter = nm.rx_packets.queue.iter();
    let mut range = vec![];
    range.extend(
        [
            max_minus_5,
            max_minus_4,
            max_minus_3,
            max_minus_2,
            max_minus_1,
            u64_max,
            zero,
            one,
            two,
            three,
        ]
        .iter()
        .cloned(),
    );

    for index in range.iter() {
        let pkt = iter.next().unwrap();
        assert_eq!(*index, pkt.sequence_number());
    }
}

#[test]
fn test_buffer_item_advanced_wrapping_case_sequence_number_descending() {
    let mut nm = NetworkManager::new();
    let u64_max = <u64>::max_value();
    let max_minus_5 = u64_max - 5;
    let max_minus_4 = u64_max - 4;
    let max_minus_3 = u64_max - 3;
    let max_minus_2 = u64_max - 2;
    let max_minus_1 = u64_max - 1;
    let zero = 0;
    let one = 1;
    let two = 2;
    let three = 3;

    let input_order = [
        three,
        two,
        one,
        zero,
        u64_max,
        max_minus_1,
        max_minus_2,
        max_minus_3,
        max_minus_4,
        max_minus_5,
    ];

    for index in input_order.iter() {
        let pkt = Packet::Request {
            sequence:     *index as u64,
            response_ack: None,
            cookie:       None,
            action:       RequestAction::NoAction,
        };
        nm.rx_packets.buffer_item(pkt);
    }

    let mut iter = nm.rx_packets.queue.iter();
    let mut range = vec![];
    range.extend(
        [
            max_minus_5,
            max_minus_4,
            max_minus_3,
            max_minus_2,
            max_minus_1,
            u64_max,
            zero,
            one,
            two,
            three,
        ]
        .iter()
        .cloned(),
    );

    for index in range.iter() {
        let pkt = iter.next().unwrap();
        assert_eq!(*index, pkt.sequence_number());
    }
}

#[test]
fn test_buffer_item_advanced_wrapping_case_sequence_number_alternating() {
    let mut nm = NetworkManager::new();
    let u64_max = <u64>::max_value();
    let max_minus_5 = u64_max - 5;
    let max_minus_4 = u64_max - 4;
    let max_minus_3 = u64_max - 3;
    let max_minus_2 = u64_max - 2;
    let max_minus_1 = u64_max - 1;
    let zero = 0;
    let one = 1;
    let two = 2;
    let three = 3;

    let input_order = [
        max_minus_5,
        three,
        max_minus_4,
        two,
        max_minus_3,
        one,
        max_minus_2,
        zero,
        max_minus_1,
        u64_max,
    ];

    for index in input_order.iter() {
        let pkt = Packet::Request {
            sequence:     *index as u64,
            response_ack: None,
            cookie:       None,
            action:       RequestAction::NoAction,
        };
        nm.rx_packets.buffer_item(pkt);
    }

    let mut iter = nm.rx_packets.queue.iter();
    let mut range = vec![];
    range.extend(
        [
            max_minus_5,
            max_minus_4,
            max_minus_3,
            max_minus_2,
            max_minus_1,
            u64_max,
            zero,
            one,
            two,
            three,
        ]
        .iter()
        .cloned(),
    ); // Add in u64 max value plus others

    for index in range.iter() {
        let pkt = iter.next().unwrap();
        assert_eq!(*index, pkt.sequence_number());
    }
}

#[test]
fn test_reinitialize_all_queues_cleared() {
    let mut nm = NetworkManager::new();
    let pkt = Packet::Request {
        sequence:     0,
        response_ack: None,
        cookie:       None,
        action:       RequestAction::NoAction,
    };

    for _ in 0..NETWORK_QUEUE_LENGTH {
        nm.tx_packets.push_back(pkt.clone());
    }
    assert_eq!(nm.tx_packets.len(), NETWORK_QUEUE_LENGTH);

    let _chat_msg = BroadcastChatMessage::new(0, "chatchat".to_owned(), "chatchat".to_owned());
}

#[test]
fn test_get_contiguous_packets_count() {
    let mut nm = NetworkManager::new();
    for index in 0..5 {
        let pkt = Packet::Request {
            sequence:     index as u64,
            response_ack: None,
            cookie:       None,
            action:       RequestAction::NoAction,
        };
        nm.rx_packets.buffer_item(pkt);
    }
    for index in 8..10 {
        let pkt = Packet::Request {
            sequence:     index as u64,
            response_ack: None,
            cookie:       None,
            action:       RequestAction::NoAction,
        };
        nm.rx_packets.buffer_item(pkt);
    }

    let count = nm.rx_packets.get_contiguous_packets_count(0);
    assert_eq!(count, 5);
    let mut iter = nm.rx_packets.as_queue_type().iter();
    for index in 0..5 {
        let pkt = iter.next().unwrap();
        assert_eq!(index, pkt.sequence_number() as usize);
        // Verify that the packet is not dequeued
        assert_eq!(
            index,
            nm.rx_packets.as_queue_type().get(index).unwrap().sequence_number() as usize
        );
    }
}

fn rx_sequences(nm: &NetworkManager) -> Vec<u64> {
    nm.rx_packets.queue.iter().map(|p| p.sequence_number()).collect()
}

#[test]
fn test_buffer_item_duplicate_of_newest_when_wrapped() {
    let mut nm = NetworkManager::new();
    let max = u64::MAX;
    for s in [max, 0] {
        let pkt = Packet::Request { sequence: s, response_ack: None, cookie: None, action: RequestAction::NoAction };
        assert!(!nm.rx_packets.buffer_item(pkt));
    }
    assert_eq!(rx_sequences(&nm), vec![max, 0]);
    assert_eq!(nm.rx_packets.buffer_wrap_index, Some(1));
    let pkt = Packet::Request { sequence: 0, response_ack: None, cookie: None, action: RequestAction::NoAction };
    assert!(nm.rx_packets.buffer_item(pkt));
    assert_eq!(rx_sequences(&nm), vec![max, 0]);
    assert_eq!(nm.rx_packets.buffer_wrap_index, Some(1));
    assert_eq!(nm.rx_packets.attempts.len(), 2);
}

#[test]
fn test_buffer_item_sorted_place_without_wrap() {
    let mut nm = NetworkManager::new();
    for s in [0u64, 0, 0, 0, 1, 2, 2, 2, 5] {
        let pkt = Packet::Request { sequence: s, response_ack: None, cookie: None, action: RequestAction::NoAction };
        nm.rx_packets.buffer_item(pkt);
    }
    assert_eq!(rx_sequences(&nm), vec![0, 1, 2, 5]);
    assert_eq!(nm.rx_packets.buffer_wrap_index, None);
    let pkt = Packet::Request { sequence: 3, response_ack: None, cookie: None, action: RequestAction::NoAction };
    assert!(!nm.rx_packets.buffer_item(pkt));
    assert_eq!(rx_sequences(&nm), vec![0, 1, 2, 3, 5]);
    assert_eq!(nm.rx_packets.buffer_wrap_index, None);
}
