//! QUIC connections.
pub mod connection;
pub mod datagrams;
pub mod endpoint;
pub mod engine;
pub mod event;
pub mod peer;
pub mod poll;
pub mod streams;
