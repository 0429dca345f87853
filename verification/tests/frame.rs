use raft_kv::network::frame::{encode_frame, frame_header, frame_length, MAX_FRAME_BYTES};

#[test]
fn the_header_is_the_length_in_four_bytes_most_significant_first() {
    assert_eq!(frame_header(0), Some([0, 0, 0, 0]));
    assert_eq!(frame_header(1), Some([0, 0, 0, 1]));
    assert_eq!(frame_header(255), Some([0, 0, 0, 255]));
    assert_eq!(frame_header(256), Some([0, 0, 1, 0]));
    assert_eq!(frame_header(0x01_02_03), Some([0, 1, 2, 3]));
    assert_eq!(frame_header(MAX_FRAME_BYTES), Some([0, 0x40, 0, 0]));
    assert_eq!(frame_header(MAX_FRAME_BYTES + 1), None);
}

#[test]
fn the_length_is_read_back_from_the_header() {
    assert_eq!(frame_length(&[0, 0, 0, 0]), Some(0));
    assert_eq!(frame_length(&[0, 0, 1, 2]), Some(258));
    assert_eq!(frame_length(&[0, 0x40, 0, 0]), Some(MAX_FRAME_BYTES));
    assert_eq!(frame_length(&[0, 0x40, 0, 1]), None);
    assert_eq!(frame_length(&[1, 0, 0, 0]), None);
    assert_eq!(frame_length(&[255, 255, 255, 255]), None);
    for length in [0usize, 1, 77, 65535, 65536, 1 << 20, MAX_FRAME_BYTES] {
        assert_eq!(frame_length(&frame_header(length).unwrap()), Some(length));
    }
}

#[test]
fn a_frame_is_the_header_and_the_payload() {
    assert_eq!(encode_frame(b""), Some(vec![0, 0, 0, 0]));
    assert_eq!(
        encode_frame(b"{\"Get\":\"a\"}"),
        Some([&[0u8, 0, 0, 11][..], &b"{\"Get\":\"a\"}"[..]].concat())
    );
    let payload = vec![7u8; 300];
    let frame = encode_frame(&payload).unwrap();
    assert_eq!(&frame[..4], &[0, 0, 1, 44]);
    assert_eq!(&frame[4..], &payload[..]);
    assert!(encode_frame(&vec![0u8; MAX_FRAME_BYTES + 1]).is_none());
}
