use std::collections::VecDeque;

use rudp::channel::{Channel, ChannelType, ReadPayload};
use rudp::events::{accept_datagram, UdpSendEvent};
use rudp::handshake::ConnectionHandshake;
use rudp::header::SendType;
use rudp::manager::{ConnectionManager, ConnectionStatus};
use rudp::packets::construct_send_event;

/// Runs the whole salt exchange between a client handshake and a
/// server table, returning the established client-side channel and the
/// assigned connection id.
fn establish(
    manager: &mut ConnectionManager,
    addr: u64,
    now: u64,
) -> (Channel, u32) {
    let mut queue = VecDeque::new();
    let mut handshake = ConnectionHandshake::new();

    // request -> challenge
    let request = handshake.send_connection_request();
    let status = manager
        .process_connect(addr, &accept_datagram(&request).unwrap(), now, &mut queue)
        .unwrap();
    assert_eq!(status, ConnectionStatus::Connecting);
    let challenge = match queue.pop_back().unwrap() {
        UdpSendEvent::Server(b, a) => {
            assert_eq!(a, addr);
            b
        }
        _ => panic!("expected a server datagram"),
    };
    let server_salt = handshake.read_challenge(&accept_datagram(&challenge).unwrap()).unwrap();

    // response -> accept
    let response = handshake.send_challenge_response(server_salt);
    let status = manager
        .process_connect(addr, &accept_datagram(&response).unwrap(), now, &mut queue)
        .unwrap();
    let id = match status {
        ConnectionStatus::Connected(id) => id,
        _ => panic!("expected the handshake to finish"),
    };
    let accept = match queue.pop_back().unwrap() {
        UdpSendEvent::Server(b, _) => b,
        _ => panic!("expected a server datagram"),
    };
    assert_eq!(handshake.read_connection_status(&accept_datagram(&accept).unwrap()).unwrap(), id);

    let response = handshake.finish(id);
    let client = Channel::new(addr, response.session_key, ChannelType::Client);

    // both sides derived the same key
    let server_key = manager.get_client_mut(addr).unwrap().channel.session_key;
    assert_eq!(server_key, response.session_key);

    (client, id)
}

/// Carries every queued client datagram into the server connection for
/// `addr`, returning what the server surfaces.
fn deliver_to_server(
    client: &mut Channel,
    queue: &mut VecDeque<UdpSendEvent>,
    manager: &mut ConnectionManager,
    addr: u64,
    now: u64,
) -> Vec<ReadPayload> {
    let mut out = Vec::new();
    while let Some(ev) = queue.pop_back() {
        let bytes = match ev {
            UdpSendEvent::Client(b) => b,
            UdpSendEvent::ClientTracking(b, seq) => {
                client.send_buffer.mark_sent(seq, now);
                b
            }
            _ => panic!("expected client datagrams"),
        };
        let stripped = accept_datagram(&bytes).unwrap();
        let connection = manager.get_client_mut(addr).unwrap();
        out.push(connection.channel.read(stripped, now).unwrap());
    }
    out
}

#[test]
fn connect_and_receive_single_message() {
    let mut manager = ConnectionManager::new(1);
    let addr: u64 = 1;
    let (mut client, id) = establish(&mut manager, addr, 0);
    assert_eq!(id, 1);

    // a 1160-byte message crosses the fragmentation threshold and
    // arrives as one reassembled payload
    let data: Vec<u8> = (0..1160_usize).map(|i| (i % 256) as u8).collect();
    let mut queue = VecDeque::new();
    let event = construct_send_event(&data, SendType::Reliable).unwrap();
    client.send_event(event, &mut queue, 10).unwrap();

    let surfaced = deliver_to_server(&mut client, &mut queue, &mut manager, addr, 10);
    let mut received: Vec<u8> = Vec::new();
    let mut messages = 0;
    for payload in surfaced {
        match payload {
            ReadPayload::Single(p) => {
                messages += 1;
                received = p;
            }
            ReadPayload::Parts(parts) => {
                messages += 1;
                received = parts.into_iter().flatten().collect();
            }
            ReadPayload::Nothing => {}
            ReadPayload::Disconnect => panic!("unexpected disconnect"),
        }
    }
    assert_eq!(messages, 1);
    assert_eq!(received, data);
}

#[test]
fn receive_fragmented_message() {
    let mut manager = ConnectionManager::new(1);
    let addr: u64 = 1;
    let (mut client, _) = establish(&mut manager, addr, 0);

    // 3000 bytes split into three chunks; one payload comes out
    let data: Vec<u8> = (0..3000_usize).map(|i| (i % 251) as u8).collect();
    let mut queue = VecDeque::new();
    let event = construct_send_event(&data, SendType::Reliable).unwrap();
    client.send_event(event, &mut queue, 10).unwrap();
    assert_eq!(queue.len(), 3);

    let surfaced = deliver_to_server(&mut client, &mut queue, &mut manager, addr, 10);
    let mut received: Vec<u8> = Vec::new();
    let mut messages = 0;
    for payload in surfaced {
        match payload {
            ReadPayload::Parts(parts) => {
                messages += 1;
                received = parts.into_iter().flatten().collect();
            }
            ReadPayload::Nothing => {}
            _ => panic!("expected fragments only"),
        }
    }
    assert_eq!(messages, 1);
    assert_eq!(received.len(), 3000);
    assert_eq!(received, data);
}

#[test]
fn disconnect_surfaces_connection_lost() {
    let mut manager = ConnectionManager::new(1);
    let addr: u64 = 1;
    let (mut client, id) = establish(&mut manager, addr, 0);

    let mut queue = VecDeque::new();
    client.send_event(rudp::packets::SendEvent::Disconnect, &mut queue, 10).unwrap();
    assert_eq!(queue.len(), 3);

    // the first disconnect datagram that arrives tears the slot down
    let bytes = match queue.pop_back().unwrap() {
        UdpSendEvent::Client(b) => b,
        _ => panic!("expected an untracked client datagram"),
    };
    let stripped = accept_datagram(&bytes).unwrap();
    let connection = manager.get_client_mut(addr).unwrap();
    match connection.channel.read(stripped, 10).unwrap() {
        ReadPayload::Disconnect => {}
        _ => panic!("expected a disconnect"),
    }
    assert_eq!(manager.disconnect_connection(addr), Some(id));
    assert!(manager.get_client_mut(addr).is_none());
}

#[test]
fn full_table_rejects_second_client() {
    let mut manager = ConnectionManager::new(1);
    let (_client, _) = establish(&mut manager, 1, 0);

    // with the single slot taken, another address gets silence: its
    // request is rejected without a challenge
    let mut queue = VecDeque::new();
    let mut second = ConnectionHandshake::new();
    let request = second.send_connection_request();
    let status = manager
        .process_connect(2, &accept_datagram(&request).unwrap(), 0, &mut queue)
        .unwrap();
    assert_eq!(status, ConnectionStatus::Rejected);
    assert!(queue.is_empty());
}

#[test]
fn challenge_response_anti_spoof() {
    let mut manager = ConnectionManager::new(4);
    let mut queue = VecDeque::new();
    let addr: u64 = 7;

    let mut handshake = ConnectionHandshake::new();
    let request = handshake.send_connection_request();
    let status = manager
        .process_connect(addr, &accept_datagram(&request).unwrap(), 0, &mut queue)
        .unwrap();
    assert_eq!(status, ConnectionStatus::Connecting);
    let challenge = match queue.pop_back().unwrap() {
        UdpSendEvent::Server(b, _) => b,
        _ => panic!("expected a server datagram"),
    };
    let server_salt = handshake.read_challenge(&accept_datagram(&challenge).unwrap()).unwrap();

    // a response with the wrong combined value is rejected
    let bad = handshake.send_challenge_response(server_salt ^ 1);
    let status = manager
        .process_connect(addr, &accept_datagram(&bad).unwrap(), 0, &mut queue)
        .unwrap();
    assert_eq!(status, ConnectionStatus::Rejected);

    // the correct value from another address is rejected too: the
    // pending record is keyed by address
    let good = handshake.send_challenge_response(server_salt);
    let status = manager
        .process_connect(addr + 1, &accept_datagram(&good).unwrap(), 0, &mut queue)
        .unwrap();
    assert_ne!(status, ConnectionStatus::Connected(1));

    // from the right address it still goes through
    let status = manager
        .process_connect(addr, &accept_datagram(&good).unwrap(), 0, &mut queue)
        .unwrap();
    assert_eq!(status, ConnectionStatus::Connected(1));
}

#[test]
fn lost_datagram_is_retransmitted_and_delivered_once() {
    let mut manager = ConnectionManager::new(1);
    let addr: u64 = 1;
    let (mut client, _) = establish(&mut manager, addr, 0);

    let data = vec![42_u8; 100];
    let mut queue = VecDeque::new();
    let event = construct_send_event(&data, SendType::Reliable).unwrap();
    client.send_event(event, &mut queue, 1000).unwrap();

    // the wire loses the first transmission
    match queue.pop_back().unwrap() {
        UdpSendEvent::ClientTracking(_, seq) => client.send_buffer.mark_sent(seq, 1000),
        _ => panic!("expected a tracked client datagram"),
    }

    // a tick past the recommended round trip retransmits it
    let mut marked = Vec::new();
    client.update(&mut marked, &mut queue, 1100).unwrap();
    assert_eq!(queue.len(), 1);

    let surfaced = deliver_to_server(&mut client, &mut queue, &mut manager, addr, 1100);
    let singles = surfaced
        .iter()
        .filter(|p| matches!(p, ReadPayload::Single(_)))
        .count();
    assert_eq!(singles, 1);

    // a duplicate of the retransmit changes nothing further
    client.update(&mut marked, &mut queue, 1100).unwrap();
    let mut resend = VecDeque::new();
    client.update(&mut marked, &mut resend, 1201).unwrap();
    let surfaced = deliver_to_server(&mut client, &mut resend, &mut manager, addr, 1201);
    let singles = surfaced
        .iter()
        .filter(|p| matches!(p, ReadPayload::Single(_)))
        .count();
    assert_eq!(singles, 0);
}
