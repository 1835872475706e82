//! A small WebSocket server library: the opening HTTP handshake, the frames a
//! client sends, the control frames the server answers with, and the set of
//! client connections. Reading from and writing to sockets is left to the
//! caller, which hands the library the bytes and lines it has read and sends
//! what the library returns.
pub mod errors;
pub mod text;
pub mod headers;
pub mod request;
pub mod response;
pub mod shared;
pub mod crypto;
pub mod frame;
pub mod controller;
pub mod websocket;
pub mod server;
