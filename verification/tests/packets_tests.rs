use rudp::fragmentation_manager::{FRAGMENT_SIZE, MAX_FRAGMENT_SIZE};
use rudp::header::{SendType, FRAG_HEADER_SIZE, HEADER_SIZE};
use rudp::packets::{construct_send_event, SendEvent};

#[test]
fn send_empty_packet() {
    let data = Vec::new();
    assert!(construct_send_event(&data, SendType::Reliable).is_err());
}

#[test]
fn packet_exceeds_max_size() {
    let buffer = vec![0_u8; MAX_FRAGMENT_SIZE + 1];
    assert!(construct_send_event(&buffer, SendType::Reliable).is_err());
}

#[test]
fn packet_max_size() {
    let buffer = vec![0_u8; MAX_FRAGMENT_SIZE];

    assert!(construct_send_event(&buffer, SendType::Reliable).is_ok());
}

#[test]
fn test_single_packet() {
    let mut buffer = vec![0_u8; FRAGMENT_SIZE];
    buffer[FRAGMENT_SIZE - 1] = 3;

    let send = construct_send_event(&buffer, SendType::Reliable);

    assert!(send.is_ok());
    let send = send.unwrap();

    assert!(matches!(send, SendEvent::Single(_, _)));
    if let SendEvent::Single(packet, _) = send {
        assert_eq!(packet.len(), buffer.len() + HEADER_SIZE + 4);
        // remove the header space to get the actual data back
        assert_eq!(&packet[HEADER_SIZE + 4..], &buffer);
    }
}

#[test]
fn test_fragmented_packet() {
    let mut buffer = vec![0_u8; FRAGMENT_SIZE + 1];
    buffer[FRAGMENT_SIZE] = 3;

    let send = construct_send_event(&buffer, SendType::Reliable);

    assert!(send.is_ok());
    let send = send.unwrap();

    assert!(matches!(send, SendEvent::Fragmented(_, _)));
    if let SendEvent::Fragmented(chunks, _) = send {
        assert_eq!(chunks.len(), 2);
        // remove the header space to get the actual data back
        assert_eq!(
            &chunks
                .into_iter()
                .flat_map(|f| f[4 + FRAG_HEADER_SIZE..].to_vec())
                .collect::<Vec<u8>>(),
            &buffer
        );
    }
}

#[test]
fn max_message_size_is_rejected() {
    // one byte over the largest message fails as too large
    let buffer = vec![0_u8; 261_121];
    let result = construct_send_event(&buffer, SendType::Reliable);
    assert_eq!(result.unwrap_err(), rudp::error::NetError::PacketTooLarge);
    assert_eq!(MAX_FRAGMENT_SIZE, 261_120);
}

#[test]
fn largest_message_splits_into_255_chunks() {
    let buffer = vec![9_u8; 261_120];
    match construct_send_event(&buffer, SendType::Reliable).unwrap() {
        SendEvent::Fragmented(chunks, _) => assert_eq!(chunks.len(), 255),
        _ => panic!("expected a fragmented event"),
    }
}
