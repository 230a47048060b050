//! WebTransport over QUIC with HTTP/3 framing.
pub mod connection;
pub mod endpoint;
pub mod h3;
pub mod header;
pub mod session;
