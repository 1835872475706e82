# websocket_server

A WebSocket server whose protocol logic is verified with Verus.

- `src/` is the verified library: HTTP head parsing (`request`, `text`,
  `headers`), response heads (`response`), frame parsing (`frame`), the
  handshake and control frames of one connection (`controller`), the set of
  connections (`websocket`), and the configured server (`server`).
  `crypto` holds the calls into the `sha1` and `base64` crates.
- `app/` is the program around it: it binds the listener, accepts streams,
  reads lines and bytes from them, and writes what the library computes.
- `tests/` exercises the library on concrete values.
