//! The server as this project configures it.
use vstd::prelude::*;
use crate::websocket::WebSocket;
use crate::controller::WebSocketController;

verus! {

/// The server for host `192.168.0.108`, port `1818`, not yet listening, with
/// no connections.
pub fn init<L, S>() -> (w: WebSocket<'static, L, S>)
    ensures
        w.host@ == "192.168.0.108"@,
        w.port@ == "1818"@,
        w.listener is None,
        w.connections@ == Seq::<WebSocketController<S>>::empty(),
        !w.run_single_threaded,
        !w.is_active,
{
    let port: &str = "1818";
    let host: &str = "192.168.0.108";
    WebSocket::new_server(host, port)
}

} // verus!
