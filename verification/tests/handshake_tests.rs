use rudp::error::NetError;
use rudp::events::accept_datagram;
use rudp::fragmentation_manager::FragmentationManager;
use rudp::handshake::ConnectionHandshake;
use rudp::header::Header;
use rudp::packets::construct_send_event;

#[test]
fn challenge_with_wrong_echo_is_rejected() {
    let mut handshake = ConnectionHandshake::new();

    // a challenge echoing some other salt never takes
    let mut reply = vec![0_u8; 17];
    reply[0] = 2;
    let wrong = handshake.client_salt.wrapping_add(1);
    reply[1..9].copy_from_slice(&wrong.to_le_bytes());
    reply[9..17].copy_from_slice(&7_u64.to_le_bytes());
    assert_eq!(handshake.read_challenge(&reply), Err(NetError::HandshakeRejected));
    assert!(handshake.server_salt.is_none());

    // the honest echo is taken and the server salt captured
    reply[1..9].copy_from_slice(&handshake.client_salt.to_le_bytes());
    assert_eq!(handshake.read_challenge(&reply), Ok(7));
    assert_eq!(handshake.server_salt, Some(7));
}

#[test]
fn short_or_alien_handshake_replies_fail() {
    let mut handshake = ConnectionHandshake::new();
    assert_eq!(handshake.read_challenge(&[2_u8; 16]), Err(NetError::MalformedHeader));
    assert_eq!(handshake.read_connection_status(&[4_u8; 4]), Err(NetError::MalformedHeader));

    let mut verdict = vec![0_u8; 5];
    verdict[0] = 200;
    assert_eq!(handshake.read_connection_status(&verdict), Err(NetError::UnknownPacketType));
    verdict[0] = 9;
    assert_eq!(handshake.read_connection_status(&verdict), Err(NetError::HandshakeRejected));
}

#[test]
fn handshake_packets_carry_their_salts() {
    let handshake = ConnectionHandshake::new();

    let request = handshake.send_connection_request();
    let stripped = accept_datagram(&request).unwrap();
    assert_eq!(stripped[0], 1);
    assert_eq!(&stripped[1..9], &handshake.client_salt.to_le_bytes());

    let response = handshake.send_challenge_response(0x55);
    let stripped = accept_datagram(&response).unwrap();
    assert_eq!(stripped[0], 3);
    assert_eq!(&stripped[1..9], &(handshake.client_salt ^ 0x55).to_le_bytes());
}

#[test]
fn invalid_fragment_ids_are_rejected() {
    let mut manager = FragmentationManager::new();
    let mut header = Header {
        seq: 0,
        packet_type: rudp::PacketType::PayloadReliableFrag,
        session_key: 0,
        ack: 0,
        ack_bits: 0,
        fragment_group_id: 0,
        fragment_id: 0,
        fragment_size: 0,
    };

    // a declared size of zero carries nothing
    assert_eq!(manager.insert_fragment(&header, vec![1], 0), Err(NetError::InvalidFragmentId));

    // an id at or past the declared size names no slot
    header.fragment_size = 4;
    header.fragment_id = 4;
    assert_eq!(manager.insert_fragment(&header, vec![1], 0), Err(NetError::InvalidFragmentId));
}

#[test]
fn empty_message_is_refused_as_such() {
    assert!(matches!(
        construct_send_event(&[], rudp::header::SendType::Reliable),
        Err(NetError::EmptyPayload)
    ));
}
