use std::collections::VecDeque;

use rudp::channel::{Channel, ChannelType, ReadPayload};
use rudp::error::NetError;
use rudp::events::{accept_datagram, UdpSendEvent};
use rudp::header::{Header, SendType};
use rudp::packets::construct_send_event;

fn temp_header() -> Header {
    Header {
        seq: 0,
        packet_type: rudp::PacketType::PayloadReliable,
        session_key: 0,
        ack: 0,
        ack_bits: 0,
        fragment_group_id: 0,
        fragment_id: 0,
        fragment_size: 0,
    }
}

#[test]
fn channel_marking_received_bitfields() {
    let mut channel = Channel::new(1, 0, ChannelType::Client);

    let ack_bitfield: u32 = 1 | (1 << 1) | (1 << 15) | (1 << 31);

    let d = &[0];
    let header = temp_header();
    let now: u64 = 50;
    let mut seq: u16 = 5;
    for _ in 0..33 {
        channel.send_buffer.push_send_buffer(seq, d, &header, now);
        seq = seq.wrapping_sub(1);
    }

    channel.mark_acked_packets(5, ack_bitfield, now);

    assert!(channel.send_buffer.received_acks.get(4_u16.wrapping_sub(0)).unwrap().acked);
    assert!(channel.send_buffer.received_acks.get(4_u16.wrapping_sub(1)).unwrap().acked);
    assert!(channel.send_buffer.received_acks.get(4_u16.wrapping_sub(15)).unwrap().acked);
    assert!(channel.send_buffer.received_acks.get(4_u16.wrapping_sub(31)).unwrap().acked);
}

#[test]
fn channel_generating_received_bitfields() {
    let mut channel = Channel::new(1, 0, ChannelType::Client);
    channel.remote_seq = 5;

    let prev_remote_seq = channel.remote_seq - 1;
    channel.received_packets.insert(prev_remote_seq.wrapping_sub(0), ());
    channel.received_packets.insert(prev_remote_seq.wrapping_sub(1), ());
    channel.received_packets.insert(prev_remote_seq.wrapping_sub(15), ());
    channel.received_packets.insert(prev_remote_seq.wrapping_sub(31), ());

    let ack_bitfield: u32 = 1 | (1 << 1) | (1 << 15) | (1 << 31);

    assert_eq!(channel.generate_ack_field(), ack_bitfield);
}

/// Hands every datagram queued by a client channel to a server channel,
/// marking tracked packets as sent at `now`, and collects what the
/// receiver surfaces.
fn pump_client_to_server(
    sender: &mut Channel,
    queue: &mut VecDeque<UdpSendEvent>,
    receiver: &mut Channel,
    now: u64,
) -> Vec<ReadPayload> {
    let mut out = Vec::new();
    while let Some(ev) = queue.pop_back() {
        let bytes = match ev {
            UdpSendEvent::Client(b) => b,
            UdpSendEvent::ClientTracking(b, seq) => {
                sender.send_buffer.mark_sent(seq, now);
                b
            }
            UdpSendEvent::Server(b, _) => b,
            UdpSendEvent::ServerTracking(b, _, seq) => {
                sender.send_buffer.mark_sent(seq, now);
                b
            }
        };
        let stripped = accept_datagram(&bytes).expect("well-formed frame");
        out.push(receiver.read(stripped, now).expect("channel read"));
    }
    out
}

#[test]
fn duplicate_reliable_payload_is_suppressed() {
    let key: u64 = 0x1234;
    let mut client = Channel::new(1, key, ChannelType::Client);
    let mut server = Channel::new(1, key, ChannelType::Server);
    let mut queue = VecDeque::new();

    let data = vec![7_u8; 16];
    let event = construct_send_event(&data, SendType::Reliable).unwrap();
    client.send_event(event, &mut queue, 100).unwrap();
    assert_eq!(queue.len(), 1);

    let bytes = match queue.pop_back().unwrap() {
        UdpSendEvent::ClientTracking(b, _) => b,
        _ => panic!("expected a tracked client datagram"),
    };
    let stripped = accept_datagram(&bytes).unwrap();

    // first delivery surfaces the payload
    match server.read(stripped.clone(), 100).unwrap() {
        ReadPayload::Single(payload) => assert_eq!(payload, data),
        _ => panic!("expected a single payload"),
    }
    assert!(server.send_ack);

    // the identical datagram again surfaces nothing, but still owes an ack
    server.send_ack = false;
    match server.read(stripped, 101).unwrap() {
        ReadPayload::Nothing => {}
        _ => panic!("expected the duplicate to be suppressed"),
    }
    assert!(server.send_ack);
}

#[test]
fn wrong_session_key_is_rejected() {
    let mut client = Channel::new(1, 0xaaaa, ChannelType::Client);
    let mut server = Channel::new(1, 0xbbbb, ChannelType::Server);
    let mut queue = VecDeque::new();

    let data = vec![1_u8; 8];
    let event = construct_send_event(&data, SendType::Reliable).unwrap();
    client.send_event(event, &mut queue, 100).unwrap();

    let bytes = match queue.pop_back().unwrap() {
        UdpSendEvent::ClientTracking(b, _) => b,
        _ => panic!("expected a tracked client datagram"),
    };
    let stripped = accept_datagram(&bytes).unwrap();

    // the mismatched key never reaches the application
    assert_eq!(server.read(stripped, 100).unwrap_err(), NetError::SessionKeyMismatch);
    assert!(!server.send_ack);
    assert_eq!(server.remote_seq, 0);

    // the channel stays up: a matching datagram still goes through
    let mut good = Channel::new(1, 0xbbbb, ChannelType::Client);
    let event = construct_send_event(&data, SendType::Reliable).unwrap();
    good.send_event(event, &mut queue, 100).unwrap();
    let surfaced = pump_client_to_server(&mut good, &mut queue, &mut server, 100);
    assert!(matches!(surfaced[..], [ReadPayload::Single(_)]));
}

#[test]
fn ack_bits_reach_the_sender() {
    // acks piggybacked on the return path mark the sender's entries
    let key: u64 = 9;
    let mut client = Channel::new(1, key, ChannelType::Client);
    let mut server = Channel::new(1, key, ChannelType::Server);
    let mut queue = VecDeque::new();

    for i in 0..3_u8 {
        let data = vec![i; 4];
        let event = construct_send_event(&data, SendType::Reliable).unwrap();
        client.send_event(event, &mut queue, 100).unwrap();
    }
    let surfaced = pump_client_to_server(&mut client, &mut queue, &mut server, 100);
    assert_eq!(surfaced.len(), 3);

    // the server owes an empty ack; a tick flushes it back to the client
    let mut marked = Vec::new();
    let mut back = VecDeque::new();
    server.update(&mut marked, &mut back, 105).unwrap();
    let surfaced = pump_client_to_server(&mut server, &mut back, &mut client, 106);
    assert_eq!(surfaced.len(), 1);

    for seq in 0..3_u16 {
        assert!(client.send_buffer.received_acks.get(seq).unwrap().acked);
        assert!(client.send_buffer.buffers.get(seq).is_none());
    }
}

#[test]
fn retransmit_only_after_recommended_rtt() {
    // an unacked, sent sequence is surfaced only once its send is older
    // than the recommended round trip, and it is dropped from the walk
    // after the hard send timeout
    let key: u64 = 5;
    let mut client = Channel::new(1, key, ChannelType::Client);
    let mut queue = VecDeque::new();

    let data = vec![3_u8; 10];
    let event = construct_send_event(&data, SendType::Reliable).unwrap();
    client.send_event(event, &mut queue, 1000).unwrap();
    match queue.pop_back().unwrap() {
        UdpSendEvent::ClientTracking(_, seq) => client.send_buffer.mark_sent(seq, 1000),
        _ => panic!("expected a tracked client datagram"),
    }

    let mut marked = Vec::new();

    // too early: recommended round trip has not elapsed
    client.update(&mut marked, &mut queue, 1010).unwrap();
    assert_eq!(queue.len(), 0);

    // past the recommendation: surfaced once
    client.update(&mut marked, &mut queue, 1100).unwrap();
    assert_eq!(queue.len(), 1);
    queue.pop_back();

    // past the hard timeout: permanently given up
    client.update(&mut marked, &mut queue, 1000 + 3001).unwrap();
    assert_eq!(queue.len(), 0);
}
