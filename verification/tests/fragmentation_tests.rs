use rudp::fragmentation_manager::{FragmentationManager, FRAGMENT_SIZE, GROUP_TIMEOUT_MS};
use rudp::header::Header;

fn frag_header(fragment_size: u8) -> Header {
    Header {
        seq: 0,
        packet_type: rudp::PacketType::PayloadReliable,
        session_key: 0,
        ack: 0,
        ack_bits: 0,
        fragment_group_id: 0,
        fragment_id: 0,
        fragment_size,
    }
}

#[test]
fn valid_chunk_sequence() {
    let mut fragment_manager = FragmentationManager::new();
    let mut header = frag_header(5);

    let now: u64 = 10;
    for i in 0..5 {
        let data = vec![i, i, i];
        fragment_manager.insert_fragment(&header, data, now).unwrap();
        header.fragment_id += 1;
    }

    let frag_data = fragment_manager.assemble(header.fragment_group_id, now).unwrap();

    for i in 0..5_u8 {
        assert_eq!(&frag_data[i as usize][..], &[i, i, i]);
    }
}

#[test]
fn full_fragment_insert_and_build() {
    let mut fragment_manager = FragmentationManager::new();
    let mut header = frag_header(u8::MAX);

    let now: u64 = 10;
    for i in 0..u8::MAX {
        let data = vec![0_u8; 3];

        let status = fragment_manager.insert_fragment(&header, data, now).unwrap();
        header.fragment_id += 1;
        assert_eq!(status, i == u8::MAX - 1);
    }

    let frag_data = fragment_manager.assemble(header.fragment_group_id, now).unwrap();

    assert_eq!(frag_data.into_iter().map(|x| x.len()).sum::<usize>(), 3 * u8::MAX as usize);
}

#[test]
fn fragment_group_timeout() {
    let mut fragment_manager = FragmentationManager::new();
    let mut header = frag_header(2);

    let now: u64 = 10;
    fragment_manager.insert_fragment(&header, vec![0_u8; 3], now).unwrap();
    header.fragment_id += 1;

    // longer than the group timeout later
    let later = now + GROUP_TIMEOUT_MS + 250;

    assert!(fragment_manager.insert_fragment(&header, vec![0_u8; 3], later).is_err());
    // the fragment group was evicted
    assert!(fragment_manager.fragments.is_none(header.fragment_group_id));
}

#[test]
fn insert_duplicate_packet() {
    let mut fragment_manager = FragmentationManager::new();
    let header = frag_header(u8::MAX);

    let now: u64 = 10;
    fragment_manager.insert_fragment(&header, vec![0_u8; 3], now).unwrap();
    fragment_manager.insert_fragment(&header, vec![0_u8; 3], now).unwrap();

    let frag = fragment_manager.fragments.get(header.fragment_group_id).unwrap();
    assert_eq!(frag.current_bytes, 3);
    assert_eq!(frag.current_size, 1);
}

#[test]
fn insert_different_fragment_sizes() {
    let mut fragment_manager = FragmentationManager::new();
    let mut header = frag_header(u8::MAX);

    let now: u64 = 10;
    fragment_manager.insert_fragment(&header, vec![0_u8; 3], now).unwrap();
    header.fragment_id += 1;

    // change the fragment size; this must be rejected
    header.fragment_size -= 1;

    assert!(fragment_manager.insert_fragment(&header, vec![0_u8; 3], now).is_err());
}

#[test]
fn max_packet_size() {
    let mut fragment_manager = FragmentationManager::new();

    let mut frags = Vec::with_capacity(u8::MAX as usize);
    for _ in 0..u8::MAX {
        frags.push(vec![0_u8; FRAGMENT_SIZE]);
    }

    let frags_result = fragment_manager.split_fragments(frags);
    assert!(frags_result.is_ok());

    assert_eq!(frags_result.unwrap().chunk_count, u8::MAX);
}

#[test]
fn packet_too_large() {
    let mut fragment_manager = FragmentationManager::new();
    let mut frags = Vec::with_capacity(u8::MAX as usize + 1);
    for _ in 0..u8::MAX as usize + 1 {
        frags.push(vec![0_u8; FRAGMENT_SIZE]);
    }

    assert!(fragment_manager.split_fragments(frags).is_err());
}

#[test]
fn reassembly_in_reverse_order() {
    // the largest message splits into exactly 255 chunks, and inserting
    // them backwards still assembles the original bytes
    let size: usize = FRAGMENT_SIZE * 255;
    let data: Vec<u8> = (0..size).map(|i| (i % 251) as u8).collect();

    let event = rudp::packets::construct_send_event(&data, rudp::header::SendType::Reliable)
        .unwrap();
    let frags = match event {
        rudp::packets::SendEvent::Fragmented(frags, _) => frags,
        _ => panic!("expected a fragmented event"),
    };
    assert_eq!(frags.len(), 255);

    let mut manager = FragmentationManager::new();
    let now: u64 = 0;
    let mut completed = false;
    for id in (0..255_u16).rev() {
        let mut header = frag_header(255);
        header.fragment_id = id as u8;
        let chunk = frags[id as usize][4 + rudp::header::FRAG_HEADER_SIZE..].to_vec();
        completed = manager.insert_fragment(&header, chunk, now).unwrap();
    }
    assert!(completed);

    let parts = manager.assemble(0, now).unwrap();
    let joined: Vec<u8> = parts.into_iter().flatten().collect();
    assert_eq!(joined, data);
}

#[test]
fn reassembly_never_completes_short_one() {
    // 254 of 255 chunks never complete the group
    let mut manager = FragmentationManager::new();
    let now: u64 = 0;
    for id in 0..254_u8 {
        let mut header = frag_header(255);
        header.fragment_id = id;
        let done = manager.insert_fragment(&header, vec![7_u8; 8], now).unwrap();
        assert!(!done);
    }
    assert!(manager.assemble(0, now).is_err());
}
