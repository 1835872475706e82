//! The request and response types in the form that tells the kind of a request
//! apart: a plain HTTP request or one that asks for a WebSocket.
use vstd::prelude::*;
use vstd::utf8::valid_utf8;
use crate::headers::Headers;
use crate::request::{parsed_head, line_views, body_text};
pub use crate::response::Response;

verus! {

/// The kind of a request.
#[derive(Debug, Clone, Copy, PartialEq, Eq, Structural)]
pub enum RequestType {
    Http,
    WebSocket,
}

/// The kind of a request of which some field name mentions `websocket` (`mentions`) or not.
pub open spec fn request_type_of(mentions: bool) -> RequestType {
    if mentions {
        RequestType::WebSocket
    } else {
        RequestType::Http
    }
}

/// An HTTP request with its kind, header fields and body.
pub struct Request {
    pub _type: RequestType,
    pub headers: Headers,
    pub body: String,
}

impl Request {
    /// Reads the head of a request from its lines as
    /// [`crate::request::Request::parse_headers`] does, giving the kind of the
    /// request in place of the flag.
    pub fn parse_headers(lines: &Vec<String>) -> (r: (Headers, RequestType, usize))
        ensures
            r.0@ == parsed_head(line_views(lines@)).0,
            r.1 == request_type_of(parsed_head(line_views(lines@)).1),
            r.2 == parsed_head(line_views(lines@)).2,
    {
        let (headers, mentions, content_length) = crate::request::Request::parse_headers(lines);
        let request_type = if mentions {
            RequestType::WebSocket
        } else {
            RequestType::Http
        };
        (headers, request_type, content_length)
    }

    /// The body of a request with declared length `content_length`, from the
    /// `content_length` bytes read for it.
    pub fn parse_body(content_length: usize, body: Vec<u8>) -> (s: String)
        requires
            body@.len() == content_length,
            content_length > 0 ==> valid_utf8(body@),
        ensures
            s@ == body_text(content_length, body@),
    {
        crate::request::Request::parse_body(content_length, body)
    }

    /// The request made of the head `lines` and the `body` read after it, as
    /// many bytes as the head declares.
    pub fn new_from_stream(lines: &Vec<String>, body: Vec<u8>) -> (r: Self)
        requires
            body@.len() == parsed_head(line_views(lines@)).2,
            parsed_head(line_views(lines@)).2 > 0 ==> valid_utf8(body@),
        ensures
            r.headers@ == parsed_head(line_views(lines@)).0,
            r._type == request_type_of(parsed_head(line_views(lines@)).1),
            r.body@ == body_text(parsed_head(line_views(lines@)).2, body@),
    {
        let (headers, request_type, content_length) = Self::parse_headers(lines);
        let body = Self::parse_body(content_length, body);
        Request { _type: request_type, headers, body }
    }
}

} // verus!
