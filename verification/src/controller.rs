//! One client connection: its opening handshake, the frames it sends, and the
//! control frames the server sends back.
use vstd::prelude::*;
use vstd::string::StringExecFns;
use vstd::utf8::encode_utf8;
use crate::crypto::{sha1_of, base64_of, sha1_digest, base64_encode};
use crate::errors::WebSocketError;
use crate::headers::{Headers, HeaderSeq, value_of, inserted};
use crate::request::{Request, request_line_name};
use crate::response::{Response, head_text, field_text, status_line_name};
use crate::text::{chars_of, contains, has_substring};
pub use crate::frame::{Frame, Opcode};

verus! {

/// The status codes a close frame can carry.
#[allow(non_camel_case_types)]
#[derive(Debug, Clone, Copy, PartialEq, Eq, Structural)]
pub enum StatusCodes {
    NORMAL_1000,
    GOING_AWAY_1001,
    PROTOCOL_ERROR_1002,
    REFUSE_DATA_TYPE_1003,
    INCONSISTENT_DATA_1007,
    POLICY_ERROR_1008,
    TOO_BIG_1009,
}

/// The number of a status code.
pub open spec fn status_number(status: StatusCodes) -> nat {
    match status {
        StatusCodes::NORMAL_1000 => 1000,
        StatusCodes::GOING_AWAY_1001 => 1001,
        StatusCodes::PROTOCOL_ERROR_1002 => 1002,
        StatusCodes::REFUSE_DATA_TYPE_1003 => 1003,
        StatusCodes::INCONSISTENT_DATA_1007 => 1007,
        StatusCodes::POLICY_ERROR_1008 => 1008,
        StatusCodes::TOO_BIG_1009 => 1009,
    }
}

/// The two bytes of a status code, most significant first.
pub open spec fn status_bytes(status: StatusCodes) -> Seq<u8> {
    seq![(status_number(status) / 256) as u8, (status_number(status) % 256) as u8]
}

/// The GUID that RFC 6455 appends to the client's key.
pub open spec fn websocket_guid() -> Seq<char> {
    "258EAFA5-E914-47DA-95CA-C5AB0DC85B11"@
}

/// The `Sec-WebSocket-Accept` value for a client key: Base64 of the SHA-1 digest
/// of the UTF-8 bytes of the key followed by the GUID.
pub open spec fn accept_key(client_key: Seq<char>) -> Seq<char> {
    base64_of(sha1_of(encode_utf8(client_key + websocket_guid())))
}

/// The request asks to switch to WebSocket: its `Upgrade` field is exactly
/// `websocket` and its request line (empty where absent) contains `GET`.
pub open spec fn asks_for_websocket(e: HeaderSeq) -> bool {
    &&& value_of(e, "Upgrade"@) == Some("websocket"@)
    &&& has_substring(
        match value_of(e, request_line_name()) {
            Some(l) => l,
            None => Seq::empty(),
        },
        "GET"@,
    )
}

/// The response that accepts a handshake with the `Sec-WebSocket-Accept` value
/// `accept`.
pub open spec fn accept_response_text(accept: Seq<char>) -> Seq<char> {
    "HTTP/1.1 101 Switching Protocols"@ + "\r\n"@ + field_text("Upgrade"@, "websocket"@)
        + field_text("Connection"@, "Upgrade"@) + field_text("Sec-WebSocket-Accept"@, accept)
        + "\r\n"@
}

/// The response that accepts a handshake whose client key is `client_key`.
pub open spec fn handshake_response(client_key: Seq<char>) -> Seq<char> {
    accept_response_text(accept_key(client_key))
}

/// A client connection over a stream of type `S`.
pub struct WebSocketController<S> {
    pub id: u64,
    pub is_valid: bool,
    pub request: Request,
    pub stream: S,
    pub frames: Vec<Frame>,
}

impl<S> WebSocketController<S> {
    /// Answers the opening handshake. Where the request does not ask for a
    /// WebSocket, marks the connection invalid and returns `None`; else returns
    /// the `101 Switching Protocols` response to send, whose
    /// `Sec-WebSocket-Accept` is derived from the request's `Sec-WebSocket-Key`.
    pub fn handshake(&mut self) -> (r: Option<String>)
        requires
            asks_for_websocket(old(self).request.headers@) ==> value_of(
                old(self).request.headers@,
                "Sec-WebSocket-Key"@,
            ) is Some,
        ensures
            asks_for_websocket(old(self).request.headers@) ==> (r matches Some(s) && s@
                == handshake_response(
                value_of(old(self).request.headers@, "Sec-WebSocket-Key"@)->0,
            )),
            !asks_for_websocket(old(self).request.headers@) ==> r is None,
            final(self).is_valid == (old(self).is_valid && asks_for_websocket(
                old(self).request.headers@,
            )),
            final(self).id == old(self).id,
            final(self).request == old(self).request,
            final(self).stream == old(self).stream,
            final(self).frames == old(self).frames,
    {
        if !self.verify_handshake() {
            self.is_valid = false;
            return None;
        }
        let client_key = self.request.headers.get_str("Sec-WebSocket-Key").unwrap().clone();
        let resp_key = self.make_hs_key(&client_key);
        Some(Self::accept_response(resp_key))
    }

    /// The `101 Switching Protocols` response that accepts a handshake with the
    /// `Sec-WebSocket-Accept` value `resp_key`: the status line, then the
    /// `Upgrade`, `Connection` and `Sec-WebSocket-Accept` fields, and an empty line.
    pub fn accept_response(resp_key: String) -> (s: String)
        ensures
            s@ == accept_response_text(resp_key@),
    {
        let ghost accept = resp_key@;
        let mut resp_headers = Headers::new();
        resp_headers.insert(
            "StatusLine".to_string(),
            "HTTP/1.1 101 Switching Protocols".to_string(),
        );
        resp_headers.insert("Upgrade".to_string(), "websocket".to_string());
        resp_headers.insert("Connection".to_string(), "Upgrade".to_string());
        resp_headers.insert("Sec-WebSocket-Accept".to_string(), resp_key);
        assert(resp_headers@ == handshake_fields(accept));
        proof {
            lemma_handshake_head(accept);
        }
        let resp = Response::new_no_body(resp_headers);
        resp.headers_to_string()
    }

    /// Takes in the frames read from the connection. A connection that is not
    /// valid keeps none of them. The result is always the error, as reading
    /// stops only where a frame could not be read.
    pub fn receive_messages(&mut self, incoming: Vec<Frame>) -> (r: Result<Frame, WebSocketError>)
        ensures
            r == Err::<Frame, WebSocketError>(WebSocketError),
            old(self).is_valid ==> final(self).frames@ == old(self).frames@ + incoming@,
            !old(self).is_valid ==> final(self).frames@ == old(self).frames@,
            final(self).id == old(self).id,
            final(self).is_valid == old(self).is_valid,
            final(self).request == old(self).request,
            final(self).stream == old(self).stream,
    {
        if !self.is_valid {
            Self::exit_with_error(StatusCodes::PROTOCOL_ERROR_1002, &mut self.stream);
            return Err(WebSocketError);
        }
        let mut incoming = incoming;
        self.frames.append(&mut incoming);
        Err(WebSocketError)
    }

    /// Whether the request asks to switch to WebSocket.
    pub fn verify_handshake(&self) -> (r: bool)
        ensures
            r == asks_for_websocket(self.request.headers@),
    {
        let request_line = self.request.headers.get_str("RequestLine");
        let upgrade_header = self.request.headers.get_str("Upgrade");
        if let Some(h) = upgrade_header {
            let websocket = "websocket".to_string();
            if *h == websocket {
                let line = match request_line {
                    Some(l) => chars_of(l.as_str()),
                    None => Vec::new(),
                };
                let get = chars_of("GET");
                return contains(&line, &get);
            }
        }
        false
    }

    /// The `Sec-WebSocket-Accept` value for the client key `request_key`: 28
    /// characters, the padded Base64 text of a 20-byte digest, so ending in `=`.
    pub fn make_hs_key(&self, request_key: &String) -> (r: String)
        ensures
            r@ == accept_key(request_key@),
            r@.len() == 28,
            r@[27] == '=',
    {
        let mut client_key = request_key.clone();
        client_key.append("258EAFA5-E914-47DA-95CA-C5AB0DC85B11");
        let hashed_key = sha1_digest(client_key.as_str().as_bytes());
        let r = base64_encode(hashed_key.as_slice());
        assert(r@[27] == '=');
        r
    }

    /// The ping frame: final, opcode 9, no payload.
    pub fn ping(&self) -> (r: [u8; 2])
        ensures
            r@ == seq![0x89u8, 0x00u8],
    {
        let op_byte: u8 = 0b10001001;
        let payload_byte: u8 = 0b00000000;
        let ping: [u8; 2] = [op_byte, payload_byte];
        assert(ping@ =~= seq![0x89u8, 0x00u8]);
        ping
    }

    /// The two bytes of a status code, most significant first.
    pub fn match_status_op(status: StatusCodes) -> (r: [u8; 2])
        ensures
            r@ == status_bytes(status),
    {
        let r: [u8; 2] = match status {
            StatusCodes::NORMAL_1000 => [0b00000011, 0b11101000],
            StatusCodes::GOING_AWAY_1001 => [0x03, 0xE9],
            StatusCodes::PROTOCOL_ERROR_1002 => [0x03, 0xEA],
            StatusCodes::REFUSE_DATA_TYPE_1003 => [0x03, 0xEB],
            StatusCodes::INCONSISTENT_DATA_1007 => [0x03, 0xEF],
            StatusCodes::POLICY_ERROR_1008 => [0x03, 0xF0],
            StatusCodes::TOO_BIG_1009 => [0x03, 0xF1],
        };
        assert(r@ =~= status_bytes(status));
        r
    }

    /// The close frame for `status`: final, opcode 8, a two-byte payload
    /// holding the status code.
    pub fn close(&self, status: StatusCodes) -> (r: Vec<u8>)
        ensures
            r@ == seq![0x88u8, 0x02u8] + status_bytes(status),
    {
        let payload = Self::match_status_op(status);
        let mut frame: Vec<u8> = Vec::new();
        frame.push(0b10001000);
        frame.push(0b00000010);
        frame.push(payload[0]);
        frame.push(payload[1]);
        assert(frame@ =~= seq![0x88u8, 0x02u8] + payload@);
        frame
    }

    /// Ends a connection after an error; it sends nothing and leaves the stream
    /// as it is.
    pub fn exit_with_error(status: StatusCodes, stream: &mut S) -> (r: bool)
        ensures
            r,
            *final(stream) == *old(stream),
    {
        true
    }

    /// A connection with id 0 (never the id of an accepted client), not valid,
    /// with an empty request and no frames.
    pub fn new_empty(stream: S) -> (c: Self)
        ensures
            c.id == 0,
            !c.is_valid,
            c.request.headers@ == Seq::<(Seq<char>, Seq<char>)>::empty(),
            !c.request.is_valid,
            c.request.body@ == Seq::<char>::empty(),
            c.stream == stream,
            c.frames@ == Seq::<Frame>::empty(),
    {
        WebSocketController {
            id: 0,
            is_valid: false,
            request: Request::new_empty(),
            stream,
            frames: Vec::new(),
        }
    }

    /// A connection with id `id` for the request read from its stream: valid
    /// and holding the request where it could be read, else as
    /// [`WebSocketController::new_empty`].
    pub fn new(stream: S, id: u64, request: Result<Request, WebSocketError>) -> (c: Self)
        ensures
            c.stream == stream,
            c.frames@ == Seq::<Frame>::empty(),
            request matches Ok(req) ==> c.id == id && c.is_valid && c.request == req,
            request is Err ==> c.id == 0 && !c.is_valid && c.request.headers@ == Seq::<
                (Seq<char>, Seq<char>),
            >::empty() && !c.request.is_valid && c.request.body@ == Seq::<char>::empty(),
    {
        match request {
            Ok(req) => WebSocketController {
                id,
                is_valid: true,
                request: req,
                stream,
                frames: Vec::new(),
            },
            Err(_) => WebSocketController::new_empty(stream),
        }
    }
}

proof fn lemma_encode_utf8_concat(a: Seq<char>, b: Seq<char>)
    ensures
        encode_utf8(a + b) == encode_utf8(a) + encode_utf8(b),
    decreases a.len(),
{
    if a.len() == 0 {
        assert(a + b =~= b);
        assert(encode_utf8(a) =~= Seq::<u8>::empty());
        assert(encode_utf8(a) + encode_utf8(b) =~= encode_utf8(b));
    } else {
        lemma_encode_utf8_concat(a.drop_first(), b);
        assert((a + b).drop_first() =~= a.drop_first() + b);
        assert((a + b)[0] == a[0]);
        assert(encode_utf8(a + b) =~= encode_utf8(a) + encode_utf8(b));
    }
}

/// The accept value is the Base64 text of the SHA-1 digest of the bytes that
/// the client key encodes to in UTF-8, exactly as received, followed by the
/// bytes of the GUID of RFC 6455.
pub proof fn lemma_accept_key_hashes_key_then_guid(client_key: Seq<char>)
    ensures
        accept_key(client_key) == base64_of(
            sha1_of(
                encode_utf8(client_key) + encode_utf8("258EAFA5-E914-47DA-95CA-C5AB0DC85B11"@),
            ),
        ),
{
    lemma_encode_utf8_concat(client_key, "258EAFA5-E914-47DA-95CA-C5AB0DC85B11"@);
}

/// The payload of a close frame read back as a big-endian number is the status
/// code it was made from.
pub proof fn lemma_status_bytes_value(status: StatusCodes)
    ensures
        crate::frame::be_value(status_bytes(status)) == status_number(status),
{
    let b = status_bytes(status);
    assert(b.drop_last() =~= seq![b[0]]);
    assert(seq![b[0]].drop_last() =~= Seq::<u8>::empty());
    let n = status_number(status);
    assert(1000 <= n < 65536);
    assert((n / 256) as u8 == n / 256);
    assert((n % 256) as u8 == n % 256);
    assert(crate::frame::be_value(Seq::<u8>::empty()) == 0);
    assert(crate::frame::be_value(seq![b[0]]) == b[0]);
    assert(crate::frame::be_value(b) == b[0] * 256 + b[1]);
}

/// The fields the handshake response is built from, in order.
pub open spec fn handshake_fields(accept: Seq<char>) -> HeaderSeq {
    let e0 = inserted(Seq::empty(), "StatusLine"@, "HTTP/1.1 101 Switching Protocols"@);
    let e1 = inserted(e0, "Upgrade"@, "websocket"@);
    let e2 = inserted(e1, "Connection"@, "Upgrade"@);
    inserted(e2, "Sec-WebSocket-Accept"@, accept)
}

/// The head built by the handshake holds a status line and reads as its
/// response text.
proof fn lemma_handshake_head(accept: Seq<char>)
    ensures
        value_of(handshake_fields(accept), status_line_name()) is Some,
        head_text(handshake_fields(accept)) == accept_response_text(accept),
{
    reveal_strlit("StatusLine");
    reveal_strlit("Upgrade");
    reveal_strlit("Connection");
    reveal_strlit("Sec-WebSocket-Accept");
    let sl = "StatusLine"@;
    let up = "Upgrade"@;
    let co = "Connection"@;
    let sa = "Sec-WebSocket-Accept"@;
    let st = "HTTP/1.1 101 Switching Protocols"@;
    let empty = Seq::<(Seq<char>, Seq<char>)>::empty();
    assert(sl != up && sl != co && sl != sa && up != co && up != sa && co != sa) by {
        assert(sl.len() != up.len());
        assert(sl[0] != co[0]);
        assert(sl.len() != sa.len());
        assert(up.len() != co.len());
        assert(up.len() != sa.len());
        assert(co.len() != sa.len());
    }
    let e0 = inserted(empty, sl, st);
    assert(!crate::headers::has_name(empty, sl));
    assert(e0 =~= seq![(sl, st)]);
    let e1 = inserted(e0, up, "websocket"@);
    assert(!crate::headers::has_name(e0, up));
    assert(e1 =~= seq![(sl, st), (up, "websocket"@)]);
    let e2 = inserted(e1, co, "Upgrade"@);
    assert(!crate::headers::has_name(e1, co)) by {
        if crate::headers::has_name(e1, co) {
            let i = choose|i: int| 0 <= i < e1.len() && #[trigger] e1[i].0 == co;
            assert(i == 0 || i == 1);
        }
    }
    assert(e2 =~= seq![(sl, st), (up, "websocket"@), (co, "Upgrade"@)]);
    let e3 = inserted(e2, sa, accept);
    assert(!crate::headers::has_name(e2, sa)) by {
        if crate::headers::has_name(e2, sa) {
            let i = choose|i: int| 0 <= i < e2.len() && #[trigger] e2[i].0 == sa;
            assert(i == 0 || i == 1 || i == 2);
        }
    }
    assert(e3 =~= seq![(sl, st), (up, "websocket"@), (co, "Upgrade"@), (sa, accept)]);
    assert(e3 == handshake_fields(accept));
    assert(crate::headers::has_name(e3, sl)) by {
        assert(e3[0].0 == sl);
    }
    let k = crate::headers::name_index(e3, sl);
    assert(k == 0) by {
        assert(e3[k].0 == sl);
        assert(0 <= k < 4);
    }
    assert(value_of(e3, sl) == Some(st));
    assert(e3.drop_last() =~= e2);
    assert(e2.drop_last() =~= e1);
    assert(e1.drop_last() =~= e0);
    assert(e0.drop_last() =~= empty);
    assert(status_line_name() == sl);
    assert(crate::response::field_lines(empty) == Seq::<char>::empty());
    assert(crate::response::field_lines(e0) == Seq::<char>::empty());
    assert(crate::response::field_lines(e1) == field_text(up, "websocket"@));
    assert(crate::response::field_lines(e2) == field_text(up, "websocket"@) + field_text(co, "Upgrade"@));
    assert(crate::response::field_lines(e3) == field_text(up, "websocket"@) + field_text(co, "Upgrade"@)
        + field_text(sa, accept));
    assert(head_text(e3) =~= st + "\r\n"@ + field_text(up, "websocket"@) + field_text(co, "Upgrade"@)
        + field_text(sa, accept) + "\r\n"@);
}

} // verus!
