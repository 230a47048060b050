//! Message oriented networking over interchangeable stream transports.

pub mod channel;
pub mod chunk;
pub mod deserialize;
pub mod interface;
mod keys;
pub mod net;
pub mod protocol;
pub mod quic;
pub mod reader;
pub mod transport;
pub mod varint;
pub mod webtransport;
pub mod webtransport_web;
pub mod writer;
