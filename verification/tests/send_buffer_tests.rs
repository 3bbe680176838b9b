use rudp::header::Header;
use rudp::rtt_tracker::MAX_RTT_MS;
use rudp::send_buffer::{SendBufferManager, SEND_TIMEOUT_MS};

fn construct_temp_header() -> Header {
    Header {
        seq: 0,
        packet_type: rudp::PacketType::PayloadReliable,
        fragment_group_id: 0,
        fragment_id: 0,
        fragment_size: 0,
        session_key: 0,
        ack: 0,
        ack_bits: 0,
    }
}

#[test]
fn redelivery_packets_timeout() {
    let mut send_buffer = SendBufferManager::new();
    let mut packets = Vec::new();
    let d = &[0];
    let temp_header = construct_temp_header();

    let early: u64 = 1000;
    send_buffer.push_send_buffer(0, d, &temp_header, early);
    send_buffer.mark_sent(0, early);
    send_buffer.push_send_buffer(1, d, &temp_header, early);
    send_buffer.mark_sent(1, early);

    // more than the send timeout later, three younger packets arrive,
    // each sent a full recommended round trip ago
    let now = early + SEND_TIMEOUT_MS + 1;
    send_buffer.push_send_buffer(2, d, &temp_header, now);
    send_buffer.mark_sent(2, now - MAX_RTT_MS);
    send_buffer.push_send_buffer(3, d, &temp_header, now);
    send_buffer.mark_sent(3, now - MAX_RTT_MS);
    send_buffer.push_send_buffer(4, d, &temp_header, now);
    send_buffer.mark_sent(4, now - MAX_RTT_MS);

    // the walk surfaces the three young ones, then gives up at the
    // expired sequence 1
    send_buffer.get_redelivery_packet(4, &mut packets, now);
    assert_eq!(packets.len(), 3);
}

#[test]
fn redelivery_packets() {
    let mut send_buffer = SendBufferManager::new();
    let mut packets = Vec::new();
    let d = &[0];

    let temp_header = construct_temp_header();

    let now: u64 = 1000;
    for seq in 0..6_u16 {
        let mut header = temp_header;
        header.seq = seq;
        send_buffer.push_send_buffer(seq, d, &header, now);
    }
    send_buffer.mark_sent(0, now);
    send_buffer.mark_sent(1, now);
    send_buffer.mark_sent(2, now);
    send_buffer.mark_sent(3, now);
    send_buffer.mark_sent(4, now);
    // sequence 5 is never marked sent, so it never shows up

    send_buffer.mark_acked_packets(2, 0, now);
    send_buffer.mark_acked_packets(3, 0, now);
    send_buffer.mark_acked_packets(4, 0, now);

    // not enough time for a redelivery has passed: expect none
    send_buffer.get_redelivery_packet(6, &mut packets, now);
    assert_eq!(packets.len(), 0);

    // a full clamp-maximum round trip later they become available
    let later = now + MAX_RTT_MS + 1;
    send_buffer.get_redelivery_packet(6, &mut packets, later);
    assert_eq!(packets.len(), 2);
    assert_eq!(packets[0].original_header.seq, 1);
    assert_eq!(packets[1].original_header.seq, 0);
}

#[test]
fn send_buffer_marking_received_bitfields() {
    let mut send_buffer = SendBufferManager::new();

    let ack_bitfield: u32 = 1 | (1 << 1) | (1 << 15) | (1 << 31);

    // prepare send buffers
    let d = &[0];
    let temp_header = construct_temp_header();

    let now: u64 = 50;
    let mut seq: u16 = 5;
    for _ in 0..33 {
        send_buffer.push_send_buffer(seq, d, &temp_header, now);
        seq = seq.wrapping_sub(1);
    }

    send_buffer.mark_acked_packets(5, ack_bitfield, now);

    assert!(send_buffer.received_acks.get(4_u16.wrapping_sub(0)).unwrap().acked);
    assert!(send_buffer.received_acks.get(4_u16.wrapping_sub(1)).unwrap().acked);
    assert!(send_buffer.received_acks.get(4_u16.wrapping_sub(15)).unwrap().acked);
    assert!(send_buffer.received_acks.get(4_u16.wrapping_sub(31)).unwrap().acked);
}

#[test]
fn rtt_tracker_recommendation_is_clamped() {
    let mut tracker = rudp::rtt_tracker::RttTracker::new();
    // the synthetic start sits in the middle of the clamp range
    assert_eq!(tracker.average_rtt(), 55);
    assert_eq!(tracker.recommended_max_rtt(), 60);

    // a slow round trip pushes the recommendation to the upper clamp
    tracker.record_rtt(0, 10_000);
    assert_eq!(tracker.recommended_max_rtt(), MAX_RTT_MS);

    // a burst of instant round trips drags it to the lower clamp
    for _ in 0..2500 {
        tracker.record_rtt(5, 5);
    }
    assert_eq!(tracker.recommended_max_rtt(), rudp::rtt_tracker::MIN_RTT_MS);
}

#[test]
fn send_buffer_generating_received_bitfields() {
    // generation across the wrap point: the same bit pattern comes out
    let mut channel = rudp::channel::Channel::new(1, 0, rudp::channel::ChannelType::Server);
    channel.remote_seq = 3;

    let prev_remote_seq = channel.remote_seq.wrapping_sub(1);
    channel.received_packets.insert(prev_remote_seq.wrapping_sub(0), ());
    channel.received_packets.insert(prev_remote_seq.wrapping_sub(1), ());
    channel.received_packets.insert(prev_remote_seq.wrapping_sub(15), ());
    channel.received_packets.insert(prev_remote_seq.wrapping_sub(31), ());

    let ack_bitfield: u32 = 1 | (1 << 1) | (1 << 15) | (1 << 31);

    assert_eq!(channel.generate_ack_field(), ack_bitfield);
}

#[test]
fn marking_received_bitfields() {
    let mut send_buffer = SendBufferManager::new();

    let ack_bitfield: u32 = 1 | (1 << 1) | (1 << 15) | (1 << 31);

    let d = &[0];
    let temp_header = construct_temp_header();

    let now: u64 = 80;
    let mut seq: u16 = 5;
    for _ in 0..33 {
        send_buffer.push_send_buffer(seq, d, &temp_header, now);
        seq = seq.wrapping_sub(1);
    }

    send_buffer.mark_acked_packets(5, ack_bitfield, now);

    assert!(send_buffer.received_acks.get(4_u16.wrapping_sub(0)).unwrap().acked);
    assert!(send_buffer.received_acks.get(4_u16.wrapping_sub(1)).unwrap().acked);
    assert!(send_buffer.received_acks.get(4_u16.wrapping_sub(15)).unwrap().acked);
    assert!(send_buffer.received_acks.get(4_u16.wrapping_sub(31)).unwrap().acked);
}
