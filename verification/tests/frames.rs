use websocket_server::controller::{StatusCodes, WebSocketController};
use websocket_server::frame::{Frame, FrameParse, Opcode};

fn parsed(buf: &[u8]) -> (Frame, usize) {
    match Frame::parse_frame_buffer(buf) {
        FrameParse::Parsed(f, n) => (f, n),
        FrameParse::NeedMore(n) => panic!("needs {} more bytes", n),
        FrameParse::Rejected => panic!("rejected"),
    }
}

fn need_more(buf: &[u8]) -> u64 {
    match Frame::parse_frame_buffer(buf) {
        FrameParse::NeedMore(n) => n,
        FrameParse::Parsed(..) => panic!("parsed"),
        FrameParse::Rejected => panic!("rejected"),
    }
}

fn rejected(buf: &[u8]) -> bool {
    matches!(Frame::parse_frame_buffer(buf), FrameParse::Rejected)
}

// The masked "Hello" frame of RFC 6455, section 5.7.
const MASKED_HELLO: [u8; 11] = [0x81, 0x85, 0x37, 0xfa, 0x21, 0x3d, 0x7f, 0x9f, 0x4d, 0x51, 0x58];

#[test]
fn op_code_of_served_kinds() {
    assert_eq!(Frame::parse_op_code([0x81]), (true, Some(Opcode::Text)));
    assert_eq!(Frame::parse_op_code([0x02]), (false, Some(Opcode::Binary)));
    assert_eq!(Frame::parse_op_code([0x89]), (true, Some(Opcode::Ping)));
    assert_eq!(Frame::parse_op_code([0x8A]), (true, Some(Opcode::Pong)));
}

#[test]
fn op_code_of_other_kinds_is_none() {
    assert_eq!(Frame::parse_op_code([0x80]), (true, None));
    assert_eq!(Frame::parse_op_code([0x88]), (true, None));
    assert_eq!(Frame::parse_op_code([0x03]), (false, None));
    assert_eq!(Frame::parse_op_code([0x0F]), (false, None));
}

#[test]
fn payload_len_byte() {
    assert_eq!(Frame::parse_payload_len([0x85]), (true, 5));
    assert_eq!(Frame::parse_payload_len([0x7E]), (false, 126));
    assert_eq!(Frame::parse_payload_len([0xFF]), (true, 127));
    assert_eq!(Frame::parse_payload_len([0x00]), (false, 0));
}

#[test]
fn extended_payload_len_is_big_endian() {
    assert_eq!(Frame::parse_extended_payload_len(&[0x01, 0x00], false), 256);
    assert_eq!(Frame::parse_extended_payload_len(&[0x12, 0x34], false), 0x1234);
    assert_eq!(
        Frame::parse_extended_payload_len(&[0, 0, 0, 0, 0, 0x01, 0x00, 0x02], true),
        0x10002
    );
    assert_eq!(Frame::parse_extended_payload_len(&[0xff; 8], true), u64::MAX);
}

#[test]
fn read_payload_unmasks_and_decodes() {
    let mut buff = MASKED_HELLO[6..].to_vec();
    let s = Frame::read_payload(&mut buff, true, [0x37, 0xfa, 0x21, 0x3d]);
    assert_eq!(s, "Hello");
    assert_eq!(buff, b"Hello".to_vec());
}

#[test]
fn read_payload_twice_restores_the_bytes() {
    let key = [0x37, 0xfa, 0x21, 0x3d];
    let mut buff = MASKED_HELLO[6..].to_vec();
    Frame::read_payload(&mut buff, true, key);
    Frame::read_payload(&mut buff, true, key);
    assert_eq!(buff, MASKED_HELLO[6..].to_vec());
}

#[test]
fn read_payload_of_invalid_utf8_is_empty() {
    let mut buff = vec![0xff, 0xfe, 0x41];
    let s = Frame::read_payload(&mut buff, false, [0, 0, 0, 0]);
    assert_eq!(s, "");
    assert_eq!(buff, vec![0xff, 0xfe, 0x41]);
}

#[test]
fn masked_hello_frame() {
    let (f, n) = parsed(&MASKED_HELLO);
    assert_eq!(n, 11);
    assert!(f.is_final);
    assert_eq!(f.opcode, Opcode::Text);
    assert!(f.is_masked);
    assert_eq!(f.masking_key, 0);
    assert_eq!(f.payload_len, 5);
    assert_eq!(f.payload, "Hello");
}

#[test]
fn unmasked_hello_frame() {
    let buf = [0x01, 0x05, b'H', b'e', b'l', b'l', b'o'];
    let (f, n) = parsed(&buf);
    assert_eq!(n, 7);
    assert!(!f.is_final);
    assert!(!f.is_masked);
    assert_eq!(f.payload, "Hello");
}

#[test]
fn frame_with_16_bit_length() {
    let mut buf = vec![0x82, 0x7E, 0x00, 0xC8];
    buf.extend(std::iter::repeat(b'a').take(200));
    let (f, n) = parsed(&buf);
    assert_eq!(n, 204);
    assert_eq!(f.opcode, Opcode::Binary);
    assert_eq!(f.payload_len, 200);
    assert_eq!(f.payload, "a".repeat(200));
}

#[test]
fn frame_with_64_bit_length() {
    let mut buf = vec![0x81, 0x7F, 0, 0, 0, 0, 0, 0, 0, 3];
    buf.extend_from_slice(b"abc");
    let (f, n) = parsed(&buf);
    assert_eq!(n, 13);
    assert_eq!(f.payload_len, 3);
    assert_eq!(f.payload, "abc");
}

#[test]
fn sixteen_bit_length_of_127_reads_a_64_bit_length() {
    // The length 127 read from the 16-bit field asks for the 64-bit field too.
    assert_eq!(need_more(&[0x81, 0x7E, 0x00, 0x7F]), 8);
    let mut buf = vec![0x81, 0x7E, 0x00, 0x7F, 0, 0, 0, 0, 0, 0, 0, 1];
    buf.push(b'z');
    let (f, n) = parsed(&buf);
    assert_eq!(n, 13);
    assert_eq!(f.payload_len, 1);
    assert_eq!(f.payload, "z");
}

#[test]
fn need_more_for_each_part() {
    assert_eq!(need_more(&[]), 1);
    assert_eq!(need_more(&[0x81]), 1);
    assert_eq!(need_more(&[0x81, 0x7E]), 2);
    assert_eq!(need_more(&[0x81, 0x7E, 0x00]), 1);
    assert_eq!(need_more(&[0x81, 0x7F]), 8);
    assert_eq!(need_more(&[0x81, 0x7F, 0, 0, 0]), 5);
    assert_eq!(need_more(&MASKED_HELLO[..2]), 4);
    assert_eq!(need_more(&MASKED_HELLO[..4]), 2);
    assert_eq!(need_more(&MASKED_HELLO[..6]), 5);
    assert_eq!(need_more(&MASKED_HELLO[..9]), 2);
}

#[test]
fn need_more_counts_down_on_short_reads() {
    let m = need_more(&MASKED_HELLO[..6]);
    for extra in 1..m as usize {
        assert_eq!(need_more(&MASKED_HELLO[..6 + extra]), m - extra as u64);
    }
}

#[test]
fn frame_unaffected_by_following_bytes() {
    let mut buf = MASKED_HELLO.to_vec();
    buf.extend_from_slice(&[0x89, 0x00, 0xff]);
    let (f, n) = parsed(&buf);
    assert_eq!(n, 11);
    assert_eq!(f.payload, "Hello");
    assert!(rejected(&[0x88, 0x02, 0x03, 0xe8, 0x81]));
}

#[test]
fn unserved_opcodes_are_rejected() {
    assert!(rejected(&[0x88]));
    assert!(rejected(&[0x80, 0x00]));
    assert!(rejected(&[0x0B, 0x00]));
}

#[test]
fn ping_frame_reads_back_as_ping() {
    let c = WebSocketController::new_empty(());
    let ping = c.ping();
    let (f, n) = parsed(&ping);
    assert_eq!(n, 2);
    assert_eq!(f.opcode, Opcode::Ping);
    assert!(f.is_final);
    assert_eq!(f.payload, "");
}

#[test]
fn close_frame_is_not_served() {
    let c = WebSocketController::new_empty(());
    assert!(rejected(&c.close(StatusCodes::NORMAL_1000)));
}

#[test]
fn frame_new() {
    assert_eq!(Frame::new(&MASKED_HELLO).map(|f| f.payload), Some("Hello".to_string()));
    assert!(Frame::new(&MASKED_HELLO[..5]).is_none());
    assert!(Frame::new(&[0x88, 0x00]).is_none());
}

fn requests_until_read(stream: &[u8]) -> (usize, Option<usize>) {
    let mut buf: Vec<u8> = Vec::new();
    let mut requests = 0;
    loop {
        match Frame::parse_frame_buffer(&buf) {
            FrameParse::NeedMore(n) => {
                requests += 1;
                let start = buf.len();
                buf.extend_from_slice(&stream[start..start + n as usize]);
            }
            FrameParse::Parsed(_, n) => return (requests, Some(n)),
            FrameParse::Rejected => return (requests, None),
        }
    }
}

#[test]
fn reading_by_requests_ends_within_six() {
    assert_eq!(requests_until_read(&MASKED_HELLO), (4, Some(11)));
    let mut long = vec![0x81, 0xFE, 0x00, 0x7F, 0, 0, 0, 0, 0, 0, 0, 2, 1, 2, 3, 4];
    long.extend_from_slice(b"hi");
    assert_eq!(requests_until_read(&long), (6, Some(18)));
    assert_eq!(requests_until_read(&[0x88, 0x00]), (1, None));
}
