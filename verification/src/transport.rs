//! What every transport offers: connections that open, accept, read and write streams.
use crate::chunk::chunk;
use bytes::Bytes;
use vstd::prelude::*;

verus! {

/// Specifies the requirements for a stream when opening it.
///
/// A stream that is opened has at least these properties.
#[derive(Clone, Copy, Debug, PartialEq, Eq, Structural)]
pub struct StreamRequirements {
    pub reliable: bool,
    pub ordered: bool,
    pub bidirectional: bool,
}

impl StreamRequirements {
    /// Not reliable, not ordered, not bidirectional.
    pub fn unreliable() -> (requirements: Self)
        ensures
            requirements == (StreamRequirements {
                reliable: false,
                ordered: false,
                bidirectional: false,
            }),
    {
        StreamRequirements { reliable: false, ordered: false, bidirectional: false }
    }

    /// Reliable, not ordered, not bidirectional.
    pub fn reliable() -> (requirements: Self)
        ensures
            requirements == (StreamRequirements {
                reliable: true,
                ordered: false,
                bidirectional: false,
            }),
    {
        StreamRequirements { reliable: true, ordered: false, bidirectional: false }
    }

    /// Reliable, ordered, not bidirectional.
    pub fn reliable_ordered() -> (requirements: Self)
        ensures
            requirements == (StreamRequirements {
                reliable: true,
                ordered: true,
                bidirectional: false,
            }),
    {
        StreamRequirements { reliable: true, ordered: true, bidirectional: false }
    }

    /// These requirements with another reliability.
    pub fn with_reliable(self, reliable: bool) -> (requirements: Self)
        ensures
            requirements == (StreamRequirements { reliable, ..self }),
    {
        StreamRequirements { reliable, ..self }
    }

    /// These requirements with another ordering.
    pub fn with_ordered(self, ordered: bool) -> (requirements: Self)
        ensures
            requirements == (StreamRequirements { ordered, ..self }),
    {
        StreamRequirements { ordered, ..self }
    }

    /// These requirements with another direction.
    pub fn with_bidirectional(self, bidirectional: bool) -> (requirements: Self)
        ensures
            requirements == (StreamRequirements { bidirectional, ..self }),
    {
        StreamRequirements { bidirectional, ..self }
    }

    /// Whether datagrams meet the requirements. They go one way.
    pub open spec fn met_by_datagrams(self) -> bool {
        !self.reliable && !self.ordered && !self.bidirectional
    }
}

/// The status of a connection.
#[derive(Clone, Copy, Debug, PartialEq, Eq, Structural)]
pub enum ConnectionStatus {
    Connecting,
    Established,
    Closed,
    Failed,
}

impl Default for ConnectionStatus {
    /// A new connection is being established.
    fn default() -> (status: Self)
        ensures
            status == ConnectionStatus::Connecting,
    {
        ConnectionStatus::Connecting
    }
}

/// Reason why reading a stream was not successful, but not a critical failure.
#[derive(Clone, Copy, Debug, PartialEq, Eq, Structural)]
pub enum StreamReadError {
    /// The stream is blocked, but may return more data later.
    Blocked,
    /// The stream is closed and will never yield more data.
    Closed,
}

/// The endpoint does not have a connection for an entity.
#[derive(Clone, Copy, Debug, PartialEq, Eq, Structural)]
pub struct NoConnectionError;

/// The stream was for a different type of transport.
#[derive(Clone, Copy, Debug, PartialEq, Eq, Structural)]
pub struct MismatchedStreamError;

/// The connection was unable to provide a stream with the requested requirements.
#[derive(Clone, Copy, Debug, PartialEq, Eq, Structural)]
pub struct UnsupportedStreamRequirementsError(pub StreamRequirements);

/// The stream did not exist in a certain direction.
#[derive(Clone, Copy, Debug, PartialEq, Eq, Structural)]
pub struct NonexistentStreamError;

/// A connection of some transport, on which streams are opened, accepted, written and read.
///
/// A transport is described by what it has taken over for sending on each stream, by what it has
/// received on each stream, and by the streams that the peer has opened. What is not described
/// otherwise is a connection that nothing has gone through.
pub trait ConnectionContext: Sized {
    /// Identifies a stream of the connection that is send, receive or both.
    type Stream;

    /// A critical failure.
    type Error;

    /// The state of the connection is consistent.
    open spec fn wf(&self) -> bool {
        true
    }

    /// Whether a stream is one of this connection that can be written.
    open spec fn can_write(&self, stream: Self::Stream) -> bool {
        true
    }

    /// Whether a stream is one of this connection that can be read.
    open spec fn can_read(&self, stream: Self::Stream) -> bool {
        true
    }

    /// What has been taken over for sending on a stream.
    open spec fn sent(&self, stream: Self::Stream) -> Seq<u8> {
        Seq::empty()
    }

    /// What has been received on a stream and not been read.
    open spec fn unread(&self, stream: Self::Stream) -> Seq<u8> {
        Seq::empty()
    }

    /// A bound on the number of reads of a stream that give data.
    open spec fn reads_left(&self, stream: Self::Stream) -> nat {
        0
    }

    /// Whether nothing will be received on a stream any more.
    open spec fn ended(&self, stream: Self::Stream) -> bool {
        false
    }

    /// A bound on the number of streams that can be accepted.
    open spec fn accepts_left(&self) -> nat {
        0
    }

    /// Whether the connection is to be closed.
    open spec fn closing(&self) -> bool {
        false
    }

    /// Whether a stream can be asked for.
    open spec fn can_open(&self, requirements: StreamRequirements) -> bool {
        true
    }

    /// What asking for a stream does, by its outcome.
    open spec fn opened(
        before: Self,
        after: Self,
        requirements: StreamRequirements,
        stream: Result<Self::Stream, Self::Error>,
    ) -> bool {
        true
    }

    /// What writing data to a stream does, by its outcome.
    open spec fn wrote(
        before: Self,
        after: Self,
        stream: Self::Stream,
        data: Seq<u8>,
        block: bool,
        written: Result<usize, Self::Error>,
    ) -> bool {
        true
    }

    /// What reading a stream does, by its outcome.
    open spec fn was_read(
        before: Self,
        after: Self,
        stream: Self::Stream,
        data: Result<Result<Bytes, StreamReadError>, Self::Error>,
    ) -> bool {
        true
    }

    /// What closing a stream from the sending end does, by its outcome.
    open spec fn send_closed(
        before: Self,
        after: Self,
        stream: Self::Stream,
        graceful: bool,
        closed: Result<(), Self::Error>,
    ) -> bool {
        true
    }

    /// What accepting a stream does, by its outcome.
    open spec fn accepted(
        before: Self,
        after: Self,
        stream: Option<(Self::Stream, StreamRequirements)>,
    ) -> bool {
        true
    }

    /// Returns the id of a stream that meets the requirements.
    ///
    /// If ordering is not required then this may be the id of an existing stream.
    fn new_stream(&mut self, requirements: StreamRequirements) -> (stream: Result<
        Self::Stream,
        Self::Error,
    >)
        requires
            old(self).wf(),
            old(self).can_open(requirements),
        ensures
            final(self).wf(),
            Self::opened(*old(self), *final(self), requirements, stream),
            stream matches Ok(stream) ==> final(self).can_write(stream),
            forall|any: Self::Stream| #[trigger]
                old(self).can_write(any) ==> final(self).can_write(any) && final(self).sent(any)
                    == old(self).sent(any),
            forall|any: Self::Stream| #[trigger]
                old(self).can_read(any) ==> final(self).can_read(any),
    ;

    /// Attempts to write a piece of data to a stream.
    ///
    /// If successful, the number of bytes written is returned.
    ///
    /// `block` determines what happens when the stream is congested: if it is set, data is never
    /// accepted that cannot be sent, otherwise data that was written before may be lost.
    fn write(&mut self, stream: &Self::Stream, data: Bytes, block: bool) -> (written: Result<
        usize,
        Self::Error,
    >)
        requires
            old(self).wf(),
            old(self).can_write(*stream),
        ensures
            final(self).wf(),
            Self::wrote(*old(self), *final(self), *stream, chunk(data), block, written),
            match written {
                Ok(written) => written <= chunk(data).len() && final(self).sent(*stream) == old(
                    self,
                ).sent(*stream) + chunk(data).take(written as int),
                Err(_) => final(self).sent(*stream) == old(self).sent(*stream),
            },
            forall|other: Self::Stream|
                other != *stream ==> #[trigger] final(self).sent(other) == old(self).sent(other),
            forall|any: Self::Stream| #[trigger]
                old(self).can_write(any) ==> final(self).can_write(any),
            forall|any: Self::Stream| #[trigger]
                old(self).can_read(any) ==> final(self).can_read(any),
    ;

    /// Attempts to read a chunk of data from a stream.
    ///
    /// The outer result fails on a critical failure, the inner one when the stream is blocked or
    /// closed.
    fn read(&mut self, stream: &Self::Stream) -> (data: Result<
        Result<Bytes, StreamReadError>,
        Self::Error,
    >)
        requires
            old(self).wf(),
            old(self).can_read(*stream),
        ensures
            final(self).wf(),
            Self::was_read(*old(self), *final(self), *stream, data),
            match data {
                Ok(Ok(data)) => chunk(data).is_prefix_of(old(self).unread(*stream)) && final(
                    self).unread(*stream) == old(self).unread(*stream).skip(
                    chunk(data).len() as int,
                ) && final(self).reads_left(*stream) < old(self).reads_left(*stream),
                Ok(Err(error)) => old(self).unread(*stream).len() == 0 && final(self).unread(
                    *stream,
                ) == old(self).unread(*stream) && (error == StreamReadError::Closed <==> old(
                    self,
                ).ended(*stream)),
                Err(_) => true,
            },
            forall|other: Self::Stream|
                other != *stream ==> #[trigger] final(self).unread(other) == old(self).unread(
                    other,
                ),
            data is Ok ==> forall|any: Self::Stream| #[trigger]
                final(self).ended(any) == old(self).ended(any),
            forall|any: Self::Stream| #[trigger]
                old(self).can_write(any) ==> final(self).can_write(any),
            forall|any: Self::Stream| #[trigger]
                old(self).can_read(any) ==> final(self).can_read(any),
    ;

    /// Attempts to close a stream from the sending end.
    ///
    /// If `graceful` is set, all data that was written is still sent.
    fn close_send_stream(&mut self, stream: &Self::Stream, graceful: bool) -> (closed: Result<
        (),
        Self::Error,
    >)
        requires
            old(self).wf(),
            old(self).can_write(*stream),
        ensures
            final(self).wf(),
            Self::send_closed(*old(self), *final(self), *stream, graceful, closed),
            forall|any: Self::Stream| #[trigger] final(self).sent(any) == old(self).sent(any),
            forall|any: Self::Stream| #[trigger]
                old(self).can_write(any) ==> final(self).can_write(any),
            forall|any: Self::Stream| #[trigger]
                old(self).can_read(any) ==> final(self).can_read(any),
    ;

    /// Attempts to close a stream from the receiving end.
    fn close_recv_stream(&mut self, stream: &Self::Stream) -> (closed: Result<(), Self::Error>)
        requires
            old(self).wf(),
            old(self).can_read(*stream),
        ensures
            final(self).wf(),
            forall|other: Self::Stream|
                other != *stream ==> #[trigger] final(self).unread(other) == old(self).unread(
                    other,
                ),
            forall|any: Self::Stream| #[trigger] final(self).sent(any) == old(self).sent(any),
            forall|any: Self::Stream| #[trigger]
                old(self).can_write(any) ==> final(self).can_write(any),
            forall|any: Self::Stream| #[trigger]
                old(self).can_read(any) ==> final(self).can_read(any),
    ;

    /// Returns a receive stream if there is a new one that the peer has opened, with the
    /// requirements that it is guaranteed to meet. A bidirectional one is also a send stream.
    fn accept_stream(&mut self) -> (stream: Option<(Self::Stream, StreamRequirements)>)
        requires
            old(self).wf(),
        ensures
            final(self).wf(),
            Self::accepted(*old(self), *final(self), stream),
            stream matches Some((stream, requirements)) ==> {
                &&& final(self).can_read(stream)
                &&& requirements.bidirectional ==> final(self).can_write(stream)
                &&& final(self).accepts_left() < old(self).accepts_left()
            },
            forall|any: Self::Stream| #[trigger] final(self).sent(any) == old(self).sent(any),
            forall|any: Self::Stream| #[trigger]
                old(self).can_write(any) ==> final(self).can_write(any),
            forall|any: Self::Stream| #[trigger]
                old(self).can_read(any) ==> final(self).can_read(any),
    ;

    /// Closes the connection. Calling it again does nothing.
    fn close(&mut self)
        requires
            old(self).wf(),
        ensures
            final(self).wf(),
            final(self).closing(),
            old(self).closing() ==> *final(self) == *old(self),
    ;

    /// Returns `true` when all reliable data on the connection has been sent.
    fn all_data_sent(&mut self) -> (sent: bool)
        requires
            old(self).wf(),
        ensures
            final(self).wf(),
    ;
}

/// Datagrams are what a stream is asked for that must not be reliable, ordered or bidirectional, and
/// only that.
pub proof fn datagrams_promise_nothing(requirements: StreamRequirements)
    ensures
        requirements.met_by_datagrams() <==> requirements == (StreamRequirements {
            reliable: false,
            ordered: false,
            bidirectional: false,
        }),
{
}

} // verus!
