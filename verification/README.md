# nevy

Networking for games: transports behind one interface, and messages on top of them. The library is
written in [Verus](https://github.com/verus-lang/verus), and its behaviour is stated in contracts
that are proved.

- `src/transport.rs` is the interface: a connection on which streams are opened, accepted, written
  and read. It is implemented by channels within a process (`src/channel`), by QUIC (`src/quic`) and
  by WebTransport over QUIC (`src/webtransport`). `src/webtransport_web` holds the state of
  WebTransport connections of a browser.
- `src/reader.rs`, `src/writer.rs`, `src/deserialize.rs` and `src/protocol.rs` are messages on any
  transport. A message travels as its id, its length (both as integers of `src/varint.rs`) and its
  bytes.
- `src/net` is another layer on QUIC connections: streams that start with a header, and messages
  with ids and lengths of two bytes.
- `src/interface.rs` maps connection ids to entities and back.
- `app` puts the library into [Bevy](https://bevyengine.org): components, systems, sockets, and the
  serialization of messages.

QUIC, QPACK, byte buffers and channels come from the crates `quinn-proto`, `qpack`, `bytes` and
`crossbeam-channel`. What the library relies on of them is written down next to each call, in
`src/quic/engine.rs`, `src/quic/poll.rs`, `src/webtransport/header.rs`, `src/chunk.rs`,
`src/channel/message.rs` and `src/channel/registry.rs`.
