//! A transport within a process, over channels.
pub mod conditioner;
pub mod connection;
pub mod endpoint;
pub mod message;
pub mod registry;
