//! The error of a refused WebSocket exchange.
use vstd::prelude::*;

verus! {

/// A WebSocket request or connection that cannot be served.
#[derive(Debug, Clone, Copy, PartialEq, Eq, Structural)]
pub struct WebSocketError;

impl WebSocketError {
    /// The message that describes the error.
    pub fn to_string(&self) -> (s: String)
        ensures
            s@ == "Invalid Websocket"@,
    {
        "Invalid Websocket".to_string()
    }
}

} // verus!
