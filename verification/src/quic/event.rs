//! What happens on a QUIC connection.
use vstd::prelude::*;

verus! {

/// The directions in which data flows on a stream.
#[derive(Debug, Clone, Copy, PartialEq, Eq, Hash, Structural)]
pub enum Direction {
    /// From the side that opened the stream to the other one.
    Uni,
    /// In both directions.
    Bi,
}

/// Events to do with streams.
#[derive(Debug, Clone, Copy, PartialEq, Eq, Structural)]
pub enum StreamEvent {
    /// One or more new streams has been opened and might be readable.
    Opened { direction: Direction },
    /// A currently open stream likely has data or errors waiting to be read.
    Readable { id: u64 },
    /// A formerly write-blocked stream might be ready for a write or have been stopped.
    Writable { id: u64 },
    /// A finished stream has been fully acknowledged or stopped.
    Finished { id: u64 },
    /// The peer asked us to stop sending on an outgoing stream.
    Stopped { id: u64, error_code: u64 },
    /// At least one new stream of a certain directionality may be opened.
    Available { direction: Direction },
}

/// Events of a connection.
#[derive(Debug, Clone, Copy, PartialEq, Eq, Structural)]
pub enum ConnectionEvent {
    /// Handshake data is available.
    HandshakeDataReady,
    /// The connection was established.
    Connected,
    /// The connection was lost.
    ConnectionLost,
    /// Something happened to a stream.
    Stream(StreamEvent),
    /// A datagram was received.
    DatagramReceived,
    /// Datagrams can be sent again.
    DatagramsUnblocked,
}

} // verus!
