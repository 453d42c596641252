use ggpo::game_input::NULL_FRAME;
use ggpo::network::udp_msg::{decode, encode, UdpMsg};

fn every_variant() -> Vec<UdpMsg> {
    vec![
        UdpMsg::SyncRequest { nonce: 0 },
        UdpMsg::SyncRequest { nonce: u32::MAX },
        UdpMsg::SyncReply { nonce: 0x0102_0304 },
        UdpMsg::Input { frame: 0, bits: vec![1, 2, 3, 4], ack_frame: NULL_FRAME, sequence: 0 },
        UdpMsg::Input { frame: NULL_FRAME, bits: vec![], ack_frame: NULL_FRAME, sequence: 7 },
        UdpMsg::Input { frame: i32::MAX, bits: vec![0xff; 64], ack_frame: i32::MIN, sequence: u32::MAX },
        UdpMsg::QualityReport { frame_advantage: -3, ping: 120, sequence: 9 },
        UdpMsg::QualityReport { frame_advantage: i32::MIN, ping: u32::MAX, sequence: 0 },
        UdpMsg::QualityReply { sequence: 10 },
        UdpMsg::KeepAlive { sequence: 11 },
    ]
}

#[test]
fn sync_request_round_trip() {
    let msg = UdpMsg::SyncRequest { nonce: 0xdead_beef };
    let bytes = encode(&msg);
    assert_eq!(bytes, vec![0, 0, 0, 0, 0xef, 0xbe, 0xad, 0xde]);
    assert_eq!(decode(&bytes), Some(msg));
}

#[test]
fn every_variant_round_trips() {
    for msg in every_variant() {
        let bytes = encode(&msg);
        assert_eq!(decode(&bytes), Some(msg));
    }
}

#[test]
fn decoded_bytes_encode_to_themselves() {
    for msg in every_variant() {
        let bytes = encode(&msg);
        let back = decode(&bytes).unwrap();
        assert_eq!(encode(&back), bytes);
    }
}

#[test]
fn input_layout_is_exact() {
    let msg = UdpMsg::Input { frame: 5, bits: vec![0xaa, 0xbb], ack_frame: -1, sequence: 0x0100 };
    let bytes = encode(&msg);
    let expected: Vec<u8> = vec![
        2, 0, 0, 0, // tag
        5, 0, 0, 0, // frame
        2, 0, 0, 0, 0, 0, 0, 0, // length of the bits
        0xaa, 0xbb, // bits
        0xff, 0xff, 0xff, 0xff, // ack_frame, two's complement
        0, 1, 0, 0, // sequence
    ];
    assert_eq!(bytes, expected);
}

#[test]
fn null_frame_and_empty_input_round_trip() {
    let msg = UdpMsg::Input { frame: NULL_FRAME, bits: vec![], ack_frame: NULL_FRAME, sequence: 0 };
    let bytes = encode(&msg);
    assert_eq!(bytes.len(), 24);
    assert_eq!(&bytes[4..8], &[0xff, 0xff, 0xff, 0xff]);
    assert_eq!(decode(&bytes), Some(msg));
}

#[test]
fn quality_report_layout_is_exact() {
    let msg = UdpMsg::QualityReport { frame_advantage: -2, ping: 0x0a0b, sequence: 3 };
    assert_eq!(
        encode(&msg),
        vec![3, 0, 0, 0, 0xfe, 0xff, 0xff, 0xff, 0x0b, 0x0a, 0, 0, 3, 0, 0, 0]
    );
}

#[test]
fn short_tags_and_lengths() {
    assert_eq!(encode(&UdpMsg::SyncReply { nonce: 1 }), vec![1, 0, 0, 0, 1, 0, 0, 0]);
    assert_eq!(encode(&UdpMsg::QualityReply { sequence: 2 }), vec![4, 0, 0, 0, 2, 0, 0, 0]);
    assert_eq!(encode(&UdpMsg::KeepAlive { sequence: 3 }), vec![5, 0, 0, 0, 3, 0, 0, 0]);
}

#[test]
fn malformed_datagrams_are_refused() {
    // too short
    assert_eq!(decode(&[]), None);
    assert_eq!(decode(&[0, 0, 0, 0, 1, 2, 3]), None);
    // unknown tag
    assert_eq!(decode(&[6, 0, 0, 0, 0, 0, 0, 0]), None);
    assert_eq!(decode(&[0, 0, 0, 1, 0, 0, 0, 0]), None);
    // bytes after the last field
    assert_eq!(decode(&[0, 0, 0, 0, 1, 0, 0, 0, 0]), None);
    assert_eq!(decode(&[5, 0, 0, 0, 1, 0, 0, 0, 9, 9, 9, 9]), None);
    // a quality report cut short
    assert_eq!(decode(&[3, 0, 0, 0, 1, 0, 0, 0, 2, 0, 0, 0]), None);
    // an input whose length field does not fit the datagram
    let mut bytes = encode(&UdpMsg::Input { frame: 1, bits: vec![1, 2, 3], ack_frame: 0, sequence: 1 });
    bytes[8] = 4;
    assert_eq!(decode(&bytes), None);
    bytes[8] = 2;
    assert_eq!(decode(&bytes), None);
    bytes[8] = 3;
    bytes[15] = 1;
    assert_eq!(decode(&bytes), None);
    // an input cut short
    let whole = encode(&UdpMsg::Input { frame: 1, bits: vec![], ack_frame: 0, sequence: 1 });
    assert_eq!(decode(&whole[..23]), None);
}

#[test]
fn layout_is_the_one_bincode_writes() {
    let sync: (u32, u32) = (0, 77);
    assert_eq!(encode(&UdpMsg::SyncRequest { nonce: 77 }), bincode::serialize(&sync).unwrap());
    let input: (u32, i32, Vec<u8>, i32, u32) = (2, -1, vec![9, 8, 7], 41, 1234);
    assert_eq!(
        encode(&UdpMsg::Input { frame: -1, bits: vec![9, 8, 7], ack_frame: 41, sequence: 1234 }),
        bincode::serialize(&input).unwrap()
    );
    let report: (u32, i32, u32, u32) = (3, -5, 60, 2);
    assert_eq!(
        encode(&UdpMsg::QualityReport { frame_advantage: -5, ping: 60, sequence: 2 }),
        bincode::serialize(&report).unwrap()
    );
    let back: (u32, i32, Vec<u8>, i32, u32) =
        bincode::deserialize(&encode(&UdpMsg::Input { frame: 3, bits: vec![], ack_frame: 2, sequence: 1 }))
            .unwrap();
    assert_eq!(back, (2, 3, vec![], 2, 1));
}

#[test]
fn duplicate_is_equal() {
    for msg in every_variant() {
        assert_eq!(msg.duplicate(), msg);
    }
}
