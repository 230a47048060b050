//! Messages on headered streams of QUIC connections.
pub mod connection;
pub mod headers;
pub mod messages;
pub mod senders;
