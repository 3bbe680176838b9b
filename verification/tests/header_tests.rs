use rudp::header::{Header, SendType, HEADER_SIZE};
use rudp::int_buffer::IntBuffer;
use rudp::PacketType;

#[test]
fn header_write_insufficient_size() {
    let header = Header::new(0, 0, SendType::Reliable, false);
    let mut buffer = vec![0_u8; header.get_header_size() - 1];
    assert!(header.write(&mut buffer, &mut IntBuffer::default()).is_err());
}

#[test]
fn fragment_header_write_insufficient_size() {
    let header = Header::new(0, 0, SendType::Reliable, true);
    let mut buffer = vec![0_u8; header.get_header_size() - 1];
    assert!(header.write(&mut buffer, &mut IntBuffer::default()).is_err());
}

#[test]
fn header_write() {
    let mut header = Header::new(1, 2, SendType::Reliable, false);
    header.ack = 3;
    header.ack_bits = 4;

    // offset it by 5 to test that the bound checks work
    let mut int_buffer = IntBuffer::new_at(5);

    let mut buffer = vec![0_u8; header.get_header_size() + 5];
    assert!(header.write(&mut buffer, &mut IntBuffer::new_at(5)).is_ok());

    int_buffer.goto(5);
    assert_eq!(int_buffer.read_u16(&buffer), 1);
    assert_eq!(int_buffer.read_u8(&buffer), PacketType::PayloadReliable.to_u8());
    assert_eq!(int_buffer.read_u64(&buffer), 2);
    assert_eq!(int_buffer.read_u16(&buffer), 3);
    assert_eq!(int_buffer.read_u32(&buffer), 4);
}

#[test]
fn fragment_header_write() {
    let mut header = Header::new(1, 2, SendType::Reliable, true);
    header.ack = 3;
    header.ack_bits = 4;
    header.fragment_group_id = 5;
    header.fragment_id = 6;
    header.fragment_size = 7;

    // offset it by 5 to test that the bound checks work
    let mut int_buffer = IntBuffer::new_at(5);

    let mut buffer = vec![0_u8; header.get_header_size() + 5];
    assert!(header.write(&mut buffer, &mut IntBuffer::new_at(5)).is_ok());

    int_buffer.goto(5);
    assert_eq!(int_buffer.read_u16(&buffer), 1);
    assert_eq!(int_buffer.read_u8(&buffer), PacketType::PayloadReliableFrag.to_u8());
    assert_eq!(int_buffer.read_u64(&buffer), 2);
    assert_eq!(int_buffer.read_u16(&buffer), 3);
    assert_eq!(int_buffer.read_u32(&buffer), 4);
    assert_eq!(int_buffer.read_u16(&buffer), 5);
    assert_eq!(int_buffer.read_u8(&buffer), 6);
    assert_eq!(int_buffer.read_u8(&buffer), 7);
}

#[test]
fn header_read_insufficient_size() {
    let buffer = vec![0_u8; HEADER_SIZE - 1];
    assert!(Header::read(&buffer).is_err());
}

#[test]
fn header_read() {
    let mut header = Header::new(1, 2, SendType::Reliable, false);
    header.ack = 3;
    header.ack_bits = 4;

    let mut buffer = vec![0_u8; header.get_header_size()];
    assert!(header.write(&mut buffer, &mut IntBuffer::default()).is_ok());

    let new_header = Header::read(&buffer);
    assert!(new_header.is_ok());
    let new_header = new_header.unwrap();

    assert_eq!(header.seq, new_header.seq);
    assert_eq!(header.packet_type, new_header.packet_type);
    assert_eq!(header.session_key, new_header.session_key);
    assert_eq!(header.ack, new_header.ack);
    assert_eq!(header.ack_bits, new_header.ack_bits);
}

#[test]
fn fragmented_header_read() {
    let mut header = Header::new(1, 2, SendType::Reliable, true);
    header.ack = 3;
    header.ack_bits = 4;
    header.fragment_group_id = 5;
    header.fragment_id = 6;
    header.fragment_size = 7;

    let mut buffer = vec![0_u8; header.get_header_size()];
    assert!(header.write(&mut buffer, &mut IntBuffer::default()).is_ok());

    let new_header = Header::read(&buffer);
    assert!(new_header.is_ok());
    let new_header = new_header.unwrap();

    assert_eq!(header.seq, new_header.seq);
    assert_eq!(header.packet_type, new_header.packet_type);
    assert_eq!(header.session_key, new_header.session_key);
    assert_eq!(header.ack, new_header.ack);
    assert_eq!(header.ack_bits, new_header.ack_bits);
    assert_eq!(header.fragment_group_id, new_header.fragment_group_id);
    assert_eq!(header.fragment_id, new_header.fragment_id);
    assert_eq!(header.fragment_size, new_header.fragment_size);
}

#[test]
fn header_round_trip_every_type() {
    // every legal header value round-trips; one exemplar per payload type
    let mut reliable = Header::new(1000, 77, SendType::Reliable, false);
    reliable.ack = 42;
    reliable.ack_bits = 0xdead_beef;
    let mut frag = Header::new(2000, 88, SendType::Unreliable, true);
    frag.ack = 7;
    frag.ack_bits = 1;
    frag.fragment_group_id = 9;
    frag.fragment_id = 2;
    frag.fragment_size = 3;
    for header in [reliable, frag] {
        let mut buffer = vec![0_u8; header.get_header_size()];
        assert!(header.write(&mut buffer, &mut IntBuffer::default()).is_ok());
        assert_eq!(Header::read(&buffer).unwrap(), header);
    }
}

#[test]
fn int_buffer_round_trips() {
    let mut buffer = vec![0_u8; 15];
    let mut w = IntBuffer::default();
    w.write_u8(0xab, &mut buffer);
    w.write_u16(0xbeef, &mut buffer);
    w.write_u32(0xdead_beef, &mut buffer);
    w.write_u64(0x0123_4567_89ab_cdef, &mut buffer);

    let mut r = IntBuffer::default();
    assert_eq!(r.read_u8(&buffer), 0xab);
    assert_eq!(r.read_u16(&buffer), 0xbeef);
    assert_eq!(r.read_u32(&buffer), 0xdead_beef);
    assert_eq!(r.read_u64(&buffer), 0x0123_4567_89ab_cdef);

    // little-endian layout on the wire
    assert_eq!(buffer[1], 0xef);
    assert_eq!(buffer[2], 0xbe);
}

#[test]
fn nibble_round_trip() {
    let packed = IntBuffer::u4_to_u8(0x05, 0x0a);
    assert_eq!(packed, 0xa5);
    assert_eq!(IntBuffer::u8_to_u4(packed), (0x05, 0x0a));
}

#[test]
fn header_read_unknown_type() {
    let mut buffer = vec![0_u8; HEADER_SIZE];
    buffer[2] = 200;
    assert!(Header::read(&buffer).is_err());
}
