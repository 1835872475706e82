use websocket_server::controller::{StatusCodes, WebSocketController};
use websocket_server::errors::WebSocketError;
use websocket_server::frame::Frame;
use websocket_server::request::Request;
use websocket_server::server;
use websocket_server::websocket::WebSocket;

fn lines(ls: &[&str]) -> Vec<String> {
    ls.iter().map(|l| l.to_string()).collect()
}

fn upgrade_request(key: &str) -> Request {
    let key_line = format!("Sec-WebSocket-Key: {}", key);
    let ls = lines(&[
        "GET /chat HTTP/1.1",
        "Host: server.example.com",
        "Upgrade: websocket",
        "Connection: Upgrade",
        key_line.as_str(),
        "",
    ]);
    Request::new_from_stream(&ls, Vec::new()).unwrap()
}

fn frame(text: &str) -> Frame {
    let mut buf = vec![0x81, text.len() as u8];
    buf.extend_from_slice(text.as_bytes());
    Frame::new(&buf).unwrap()
}

#[test]
fn accept_key_of_rfc_example() {
    let c = WebSocketController::new_empty(());
    assert_eq!(
        c.make_hs_key(&"dGhlIHNhbXBsZSBub25jZQ==".to_string()),
        "s3pPLMBiTxaQ9kYGzzhZRbK+xOo="
    );
}

#[test]
fn accept_key_has_28_chars_ending_in_padding() {
    let c = WebSocketController::new_empty(());
    for key in ["", "a", "dGhlIHNhbXBsZSBub25jZQ==", "some longer client key value"] {
        let k = c.make_hs_key(&key.to_string());
        assert_eq!(k.len(), 28);
        assert!(k.ends_with('='));
    }
}

#[test]
fn accept_connections_skips_unreadable_requests() {
    let mut w: WebSocket<(), u8> = WebSocket::new_server("h", "1");
    w.accept_connections(vec![(1, Err(WebSocketError)), (2, Err(WebSocketError))]);
    assert!(w.connections.is_empty());
    w.accept_connections(vec![(3, Err(WebSocketError)), (4, Ok(upgrade_request("a")))]);
    let ids: Vec<u64> = w.connections.iter().map(|c| c.id).collect();
    assert_eq!(ids, vec![1]);
    assert_eq!(w.connections[0].stream, 4);
}

#[test]
fn accept_key_of_empty_key() {
    let c = WebSocketController::new_empty(());
    // Base64 of the SHA-1 digest of the GUID alone.
    assert_eq!(c.make_hs_key(&String::new()), "Kfh9QIsMVZcl6xEPYxPHzW8SZ8w=");
}

#[test]
fn handshake_answers_an_upgrade_request() {
    let mut c = WebSocketController::new((), 7, Ok(upgrade_request("dGhlIHNhbXBsZSBub25jZQ==")));
    assert!(c.verify_handshake());
    let resp = c.handshake();
    assert_eq!(
        resp,
        Some(
            "HTTP/1.1 101 Switching Protocols\r\nUpgrade: websocket\r\nConnection: Upgrade\r\n\
             Sec-WebSocket-Accept: s3pPLMBiTxaQ9kYGzzhZRbK+xOo=\r\n\r\n"
                .to_string()
        )
    );
    assert!(c.is_valid);
    assert_eq!(c.id, 7);
}

#[test]
fn handshake_refuses_a_plain_request() {
    let ls = lines(&["GET / HTTP/1.1", "Host: h", ""]);
    let mut c = WebSocketController::new((), 3, Request::new_from_stream(&ls, Vec::new()));
    assert!(c.is_valid);
    assert!(!c.verify_handshake());
    assert_eq!(c.handshake(), None);
    assert!(!c.is_valid);
}

#[test]
fn verify_handshake_cases() {
    let check = |ls: &[&str]| {
        let c = WebSocketController::new((), 1, Request::new_from_stream(&lines(ls), Vec::new()));
        c.verify_handshake()
    };
    assert!(check(&["GET / HTTP/1.1", "Upgrade: websocket", ""]));
    assert!(!check(&["POST / HTTP/1.1", "Upgrade: websocket", ""]));
    assert!(!check(&["GET / HTTP/1.1", "Upgrade: WebSocket", ""]));
    assert!(!check(&["GET / HTTP/1.1", ""]));
    assert!(check(&["xxGETxx", "Upgrade:   websocket  ", ""]));
}

#[test]
fn ping_bytes() {
    let c = WebSocketController::new_empty(());
    assert_eq!(c.ping(), [0x89, 0x00]);
}

#[test]
fn status_code_bytes() {
    type C = WebSocketController<()>;
    assert_eq!(C::match_status_op(StatusCodes::NORMAL_1000), [0x03, 0xE8]);
    assert_eq!(C::match_status_op(StatusCodes::GOING_AWAY_1001), [0x03, 0xE9]);
    assert_eq!(C::match_status_op(StatusCodes::PROTOCOL_ERROR_1002), [0x03, 0xEA]);
    assert_eq!(C::match_status_op(StatusCodes::REFUSE_DATA_TYPE_1003), [0x03, 0xEB]);
    assert_eq!(C::match_status_op(StatusCodes::INCONSISTENT_DATA_1007), [0x03, 0xEF]);
    assert_eq!(C::match_status_op(StatusCodes::POLICY_ERROR_1008), [0x03, 0xF0]);
    assert_eq!(C::match_status_op(StatusCodes::TOO_BIG_1009), [0x03, 0xF1]);
}

#[test]
fn status_code_bytes_read_back_as_the_code() {
    type C = WebSocketController<()>;
    let all = [
        (StatusCodes::NORMAL_1000, 1000u64),
        (StatusCodes::GOING_AWAY_1001, 1001),
        (StatusCodes::PROTOCOL_ERROR_1002, 1002),
        (StatusCodes::REFUSE_DATA_TYPE_1003, 1003),
        (StatusCodes::INCONSISTENT_DATA_1007, 1007),
        (StatusCodes::POLICY_ERROR_1008, 1008),
        (StatusCodes::TOO_BIG_1009, 1009),
    ];
    for (s, code) in all {
        let b = C::match_status_op(s);
        assert_eq!(Frame::parse_extended_payload_len(&b, false), code);
    }
}

#[test]
fn close_frame_bytes() {
    let c = WebSocketController::new_empty(());
    assert_eq!(c.close(StatusCodes::NORMAL_1000), vec![0x88, 0x02, 0x03, 0xE8]);
    assert_eq!(c.close(StatusCodes::TOO_BIG_1009), vec![0x88, 0x02, 0x03, 0xF1]);
}

#[test]
fn exit_with_error_leaves_stream() {
    let mut stream = 5u32;
    assert!(WebSocketController::exit_with_error(StatusCodes::PROTOCOL_ERROR_1002, &mut stream));
    assert_eq!(stream, 5);
}

#[test]
fn new_and_new_empty() {
    let c = WebSocketController::new(9u8, 4, Ok(upgrade_request("k")));
    assert_eq!(c.id, 4);
    assert!(c.is_valid);
    assert_eq!(c.stream, 9);
    assert!(c.frames.is_empty());
    let e = WebSocketController::new(9u8, 4, Err(WebSocketError));
    assert_eq!(e.id, 0);
    assert!(!e.is_valid);
    assert_eq!(e.request.headers.len(), 0);
    let z = WebSocketController::new_empty(1u8);
    assert_eq!(z.id, 0);
    assert!(!z.is_valid);
    assert_eq!(z.stream, 1);
}

#[test]
fn receive_messages_keeps_frames_of_valid_connection() {
    let mut c = WebSocketController::new((), 1, Ok(upgrade_request("k")));
    assert_eq!(c.receive_messages(vec![frame("a"), frame("b")]).unwrap_err(), WebSocketError);
    assert_eq!(c.receive_messages(vec![frame("c")]).unwrap_err(), WebSocketError);
    let texts: Vec<String> = c.frames.iter().map(|f| f.payload.clone()).collect();
    assert_eq!(texts, vec!["a", "b", "c"]);
}

#[test]
fn receive_messages_of_invalid_connection() {
    let mut c = WebSocketController::new_empty(());
    assert_eq!(c.receive_messages(vec![frame("a")]).unwrap_err(), WebSocketError);
    assert!(c.frames.is_empty());
}

#[test]
fn server_new_and_address() {
    let w: WebSocket<(), ()> = WebSocket::new_server("127.0.0.1", "9000");
    assert_eq!(w.host, "127.0.0.1");
    assert_eq!(w.port, "9000");
    assert!(!w.is_active);
    assert!(!w.run_single_threaded);
    assert!(w.listener.is_none());
    assert!(w.connections.is_empty());
    assert_eq!(w.bind_address(), "127.0.0.1:9000");
}

#[test]
fn server_spawn() {
    let mut w: WebSocket<u8, ()> = WebSocket::new_server("h", "1");
    assert!(!w.spawn(None));
    assert!(!w.is_active);
    assert!(w.listener.is_none());
    assert!(w.spawn(Some(3)));
    assert!(w.is_active);
    assert_eq!(w.listener, Some(3));
    w.set_single_thread_mode(true);
    assert!(w.run_single_threaded);
    w.set_single_thread_mode(false);
    assert!(!w.run_single_threaded);
}

#[test]
fn accept_connections_numbers_from_one() {
    let mut w: WebSocket<(), u8> = WebSocket::new_server("h", "1");
    w.accept_connections(vec![(10, Ok(upgrade_request("a"))), (11, Err(WebSocketError))]);
    w.accept_connections(vec![(12, Ok(upgrade_request("b")))]);
    let ids: Vec<u64> = w.connections.iter().map(|c| c.id).collect();
    let streams: Vec<u8> = w.connections.iter().map(|c| c.stream).collect();
    assert_eq!(ids, vec![1, 2]);
    assert_eq!(streams, vec![10, 12]);
}

#[test]
fn accept_messages_drains_in_order() {
    let mut w: WebSocket<(), ()> = WebSocket::new_server("h", "1");
    w.accept_connections(vec![((), Ok(upgrade_request("a"))), ((), Ok(upgrade_request("b")))]);
    w.connections[0].receive_messages(vec![frame("x"), frame("y")]).unwrap_err();
    w.connections[1].receive_messages(vec![frame("z")]).unwrap_err();
    let got: Vec<(u64, String)> = w.accept_messages().into_iter().map(|(id, f)| (id, f.payload)).collect();
    assert_eq!(got, vec![(1, "x".to_string()), (1, "y".to_string()), (2, "z".to_string())]);
    assert!(w.connections.iter().all(|c| c.frames.is_empty()));
    assert!(w.accept_messages().is_empty());
}

#[test]
fn close_connections_keeps_valid_ones() {
    let mut w: WebSocket<(), u8> = WebSocket::new_server("h", "1");
    w.accept_connections(vec![
        (1, Ok(upgrade_request("a"))),
        (2, Err(WebSocketError)),
        (3, Request::new_from_stream(&lines(&["GET / HTTP/1.1", ""]), Vec::new())),
        (4, Ok(upgrade_request("b"))),
    ]);
    assert_eq!(w.connections.len(), 3);
    assert_eq!(w.connections[1].handshake(), None);
    w.close_connections();
    let streams: Vec<u8> = w.connections.iter().map(|c| c.stream).collect();
    assert_eq!(streams, vec![1, 4]);
    let ids: Vec<u64> = w.connections.iter().map(|c| c.id).collect();
    assert_eq!(ids, vec![1, 3]);
}

#[test]
fn server_init_configuration() {
    let w: WebSocket<(), ()> = server::init();
    assert_eq!(w.host, "192.168.0.108");
    assert_eq!(w.port, "1818");
    assert!(!w.is_active);
    assert!(w.connections.is_empty());
}

#[test]
fn accept_response_text() {
    assert_eq!(
        WebSocketController::<()>::accept_response("abc=".to_string()),
        "HTTP/1.1 101 Switching Protocols\r\nUpgrade: websocket\r\nConnection: Upgrade\r\nSec-WebSocket-Accept: abc=\r\n\r\n"
    );
}
