//! WebTransport in a browser.
pub mod connection;
pub mod endpoint;
