use rudp::sequence::Sequence;
use rudp::window_buffer::WindowSequenceBuffer;

const TEST_BUFFER_SIZE: u16 = 1024;
const TEST_BUFFER_WINDOW_SIZE: u16 = 256;

#[test]
fn test_basic() {
    assert_eq!(65534, Sequence::next_sequence(65533));
    assert_eq!(0, Sequence::next_sequence(65534));
    assert_eq!(1, Sequence::next_sequence(0));

    assert_eq!(65533, Sequence::previous_sequence(65534));
    assert_eq!(65534, Sequence::previous_sequence(0));
    assert_eq!(0, Sequence::previous_sequence(1));

    assert!(Sequence::is_greater_then(0, 65534));

    let mut seq = 10_u16;
    Sequence::increment(&mut seq);
    assert!(seq == 11)
}

#[test]
fn sequence_wrap_trichotomy() {
    // for any pair, exactly one of less-than, greater-than, equal holds
    let pairs: [(u16, u16); 7] =
        [(0, 0), (1, 2), (65534, 0), (0, 32768), (32768, 0), (5, 5), (40000, 1000)];
    for (a, b) in pairs {
        let less = Sequence::is_less_than(a, b);
        let greater = Sequence::is_less_than(b, a);
        let equal = a == b;
        assert!(less ^ greater ^ equal);
    }
    assert!(Sequence::is_less_than(65534, 0));
}

#[test]
fn insert_test() {
    let mut buffer = WindowSequenceBuffer::<()>::with_size(TEST_BUFFER_SIZE, TEST_BUFFER_WINDOW_SIZE);

    // directly insert into the inner buffer
    buffer.buffer.insert(4, ());
    buffer.buffer.insert(5, ());
    buffer.buffer.insert(6, ());

    buffer.insert(3 + TEST_BUFFER_WINDOW_SIZE, ());
    buffer.insert(4 + TEST_BUFFER_WINDOW_SIZE, ());

    // at this point the original values should not be removed
    assert_eq!(buffer.get(4), Some(&()));

    // at this point the sequence 4 should be gone
    buffer.insert(5 + TEST_BUFFER_WINDOW_SIZE, ());
    assert_eq!(buffer.get(4), None);

    // jump over two values and expect all original entries to be gone
    buffer.insert(7 + TEST_BUFFER_WINDOW_SIZE, ());
    assert_eq!(buffer.get(5), None);
    assert_eq!(buffer.get(6), None);
}

#[test]
fn insert_with_overflow_test() {
    let mut buffer = WindowSequenceBuffer::<()>::with_size(TEST_BUFFER_SIZE, TEST_BUFFER_WINDOW_SIZE);

    let start = u16::MAX - 1;
    // directly insert into the inner buffer
    buffer.buffer.insert(start, ());
    buffer.buffer.insert(start.wrapping_add(1), ());
    buffer.buffer.insert(start.wrapping_add(2), ()); // 0
    buffer.buffer.insert(start.wrapping_add(3), ()); // 1

    // set the last_sequence value
    buffer.last_sequence = Some(start.wrapping_add(TEST_BUFFER_WINDOW_SIZE));

    // step over u16::MAX - 1 and u16::MAX but not 0
    buffer.insert(start.wrapping_add(TEST_BUFFER_WINDOW_SIZE + 3), ());
    assert_eq!(buffer.get(u16::MAX - 1), None);
    assert_eq!(buffer.get(u16::MAX), None);
    assert_eq!(buffer.get(0), None);
    assert_eq!(buffer.get(1), Some(&()));
}
