//! Operations on a QUIC connection, with errors that tell what went wrong.
use crate::chunk::{as_slice, chunk, from_vec};
use crate::quic::endpoint::EntityConnection;
use crate::quic::engine::{
    accept_stream, datagram_buffer_space, datagram_max_size, engine, finish_stream, is_closed,
    open_send_streams, open_stream, priority, read_effect, read_stream, receive_datagram,
    remote_open_streams, reset_stream, send_datagram, set_max_concurrent, set_priority,
    status, stop_stream, stopped, unordered_read, write_stream, DatagramSend, EngineStatus,
    EngineView, StreamFinish, StreamRead, StreamReadView, StreamWrite, INTEGER_BOUND,
};
use crate::quic::event::{ConnectionEvent, Direction, StreamEvent};
use crate::quic::poll::{
    close_connection, events, lemma_events_push, poll_event, quic_status, status_changes,
    stream_events, told_event, StatusChange,
};
use crate::transport::ConnectionStatus;
use bytes::Bytes;
use quinn_proto::Connection;
use std::collections::VecDeque;
use std::time::Instant;
use vstd::prelude::*;
use vstd::slice::slice_to_vec;

verus! {

/// Id for a stream on a particular connection.
#[derive(Clone, Copy, Debug, Hash, PartialEq, Eq, Structural)]
pub struct StreamId(pub u64);

/// A chunk of data received by a stream.
#[derive(Debug, PartialEq, Eq)]
pub struct Chunk {
    /// The offset of the chunk in the stream for out of order reads.
    pub offset: u64,
    pub data: Vec<u8>,
}

/// A value was too large for a QUIC variable length integer.
///
/// It must be less than 2^62.
#[derive(Clone, Copy, Debug, PartialEq, Eq, Structural)]
pub struct VarIntBoundsExceeded;

/// A stream has been closed and does not exist.
#[derive(Clone, Copy, Debug, PartialEq, Eq, Structural)]
pub struct ClosedStreamError;

/// An error returned when reading from a stream fails.
#[derive(Clone, Copy, Debug, PartialEq, Eq, Structural)]
pub enum StreamReadError {
    /// The stream is blocked on receiving more data.
    Blocked,
    /// The stream has been closed and no longer exists.
    ClosedStream(ClosedStreamError),
    /// An unordered read was performed on this stream, no more ordered reads are allowed.
    IllegalOrderedRead,
    /// The stream was reset by the peer with an application defined error code.
    Reset(u64),
}

/// An error returned when writing to a stream fails.
#[derive(Clone, Copy, Debug, PartialEq, Eq, Structural)]
pub enum StreamWriteError {
    /// The stream has been closed and no longer exists.
    ClosedStream(ClosedStreamError),
    /// The peer stopped the stream with an application defined error code.
    Stopped(u64),
}

/// An error returned when finishing a stream fails.
#[derive(Clone, Copy, Debug, PartialEq, Eq, Structural)]
pub enum StreamFinishError {
    /// The stream has been closed and no longer exists.
    ClosedStream(ClosedStreamError),
    /// The peer stopped the stream with an application defined error code.
    Stopped(u64),
}

/// An error returned when resetting a stream fails.
#[derive(Clone, Copy, Debug, PartialEq, Eq, Structural)]
pub enum ResetStreamError {
    /// The error code is too large.
    InvalidCode(VarIntBoundsExceeded),
    /// The stream has been closed and no longer exists.
    ClosedStream(ClosedStreamError),
}

/// An error returned when stopping a stream fails.
#[derive(Clone, Copy, Debug, PartialEq, Eq, Structural)]
pub enum StopStreamError {
    /// The error code is too large.
    InvalidCode(VarIntBoundsExceeded),
    /// The stream has been closed and no longer exists.
    ClosedStream(ClosedStreamError),
}

/// An error returned when sending a datagram fails.
#[derive(Debug, PartialEq, Eq)]
pub enum SendDatagramError {
    /// Datagrams have been disabled locally.
    Disabled,
    /// Datagram and overhead are too large for the current mtu.
    TooLarge,
    /// Datagrams are not supported by peer.
    UnsupportedByPeer,
    /// Send buffer has been filled, can't send more datagrams without dropping old ones.
    Blocked(Vec<u8>),
}

/// What a write to a stream comes to. A write that is blocked writes nothing.
pub open spec fn write_result(result: StreamWrite) -> Result<usize, StreamWriteError> {
    match result {
        StreamWrite::Written(size) => Ok(size),
        StreamWrite::Blocked => Ok(0),
        StreamWrite::ClosedStream => Err(StreamWriteError::ClosedStream(ClosedStreamError)),
        StreamWrite::Stopped(code) => Err(StreamWriteError::Stopped(code)),
    }
}

/// Tells what a write to a stream comes to.
pub fn written(result: StreamWrite) -> (size: Result<usize, StreamWriteError>)
    ensures
        size == write_result(result),
{
    match result {
        StreamWrite::Written(size) => Ok(size),
        StreamWrite::Blocked => Ok(0),
        StreamWrite::ClosedStream => Err(StreamWriteError::ClosedStream(ClosedStreamError)),
        StreamWrite::Stopped(code) => Err(StreamWriteError::Stopped(code)),
    }
}

/// What a read of a stream comes to: offset and bytes, or none if the stream is finished.
pub open spec fn read_result(result: StreamRead) -> Result<
    Option<(u64, Seq<u8>)>,
    StreamReadError,
> {
    shown_result(result@)
}

/// What a read of a stream comes to, by what it gave.
pub open spec fn shown_result(result: StreamReadView) -> Result<
    Option<(u64, Seq<u8>)>,
    StreamReadError,
> {
    match result {
        StreamReadView::Chunk { offset, data } => Ok(Some((offset, data))),
        StreamReadView::Finished => Ok(None),
        StreamReadView::Blocked => Err(StreamReadError::Blocked),
        StreamReadView::Reset(code) => Err(StreamReadError::Reset(code)),
        StreamReadView::ClosedStream => Err(StreamReadError::ClosedStream(ClosedStreamError)),
        StreamReadView::IllegalOrderedRead => Err(StreamReadError::IllegalOrderedRead),
    }
}

/// The offset and the bytes of a read.
pub open spec fn chunk_view(result: Result<Option<Chunk>, StreamReadError>) -> Result<
    Option<(u64, Seq<u8>)>,
    StreamReadError,
> {
    match result {
        Ok(Some(chunk)) => Ok(Some((chunk.offset, chunk.data@))),
        Ok(None) => Ok(None),
        Err(error) => Err(error),
    }
}

/// Tells what a read of a stream comes to.
pub fn received(result: StreamRead) -> (chunk: Result<Option<Chunk>, StreamReadError>)
    ensures
        chunk_view(chunk) == read_result(result),
{
    match result {
        StreamRead::Chunk { offset, data } => Ok(
            Some(Chunk { offset, data: slice_to_vec(as_slice(&data)) }),
        ),
        StreamRead::Finished => Ok(None),
        StreamRead::Blocked => Err(StreamReadError::Blocked),
        StreamRead::Reset(code) => Err(StreamReadError::Reset(code)),
        StreamRead::ClosedStream => Err(StreamReadError::ClosedStream(ClosedStreamError)),
        StreamRead::IllegalOrderedRead => Err(StreamReadError::IllegalOrderedRead),
    }
}

/// What finishing a stream comes to.
pub open spec fn finish_outcome(result: StreamFinish) -> Result<(), StreamFinishError> {
    match result {
        StreamFinish::Done => Ok(()),
        StreamFinish::Stopped(code) => Err(StreamFinishError::Stopped(code)),
        StreamFinish::ClosedStream => Err(StreamFinishError::ClosedStream(ClosedStreamError)),
    }
}

/// Tells what finishing a stream comes to.
pub fn finished(result: StreamFinish) -> (done: Result<(), StreamFinishError>)
    ensures
        done == finish_outcome(result),
{
    match result {
        StreamFinish::Done => Ok(()),
        StreamFinish::Stopped(code) => Err(StreamFinishError::Stopped(code)),
        StreamFinish::ClosedStream => Err(StreamFinishError::ClosedStream(ClosedStreamError)),
    }
}

/// Whether this is what sending a datagram comes to. One that is blocked is given back.
pub open spec fn datagram_outcome(
    result: DatagramSend,
    sent: Result<(), SendDatagramError>,
) -> bool {
    match (result, sent) {
        (DatagramSend::Sent, Ok(_)) => true,
        (DatagramSend::Disabled, Err(SendDatagramError::Disabled)) => true,
        (DatagramSend::TooLarge, Err(SendDatagramError::TooLarge)) => true,
        (DatagramSend::UnsupportedByPeer, Err(SendDatagramError::UnsupportedByPeer)) => true,
        (DatagramSend::Blocked(data), Err(SendDatagramError::Blocked(back))) => back@ == chunk(
            data,
        ),
        _ => false,
    }
}

/// Tells what sending a datagram comes to. One that is blocked is given back.
pub fn datagram_sent(result: DatagramSend) -> (sent: Result<(), SendDatagramError>)
    ensures
        datagram_outcome(result, sent),
{
    match result {
        DatagramSend::Sent => Ok(()),
        DatagramSend::Disabled => Err(SendDatagramError::Disabled),
        DatagramSend::TooLarge => Err(SendDatagramError::TooLarge),
        DatagramSend::UnsupportedByPeer => Err(SendDatagramError::UnsupportedByPeer),
        DatagramSend::Blocked(data) => Err(
            SendDatagramError::Blocked(slice_to_vec(as_slice(&data))),
        ),
    }
}

/// The state of a connection.
pub struct ConnectionState {
    pub connection_entity: u64,
    pub connection: Connection,
    pub stream_events: VecDeque<StreamEvent>,
    /// Signal to close the connection on the next update: a code and a reason.
    pub close: Option<(u64, Vec<u8>)>,
}

impl EntityConnection for ConnectionState {
    open spec fn entity(&self) -> u64 {
        self.connection_entity
    }

    fn connection_entity(&self) -> (entity: u64) {
        self.connection_entity
    }
}

impl ConnectionState {
    /// The streams and datagrams that the connection holds.
    pub open spec fn engine(self) -> EngineView {
        engine(self.connection)
    }

    /// What the connection tells about itself.
    pub open spec fn status(self) -> EngineStatus {
        status(self.connection)
    }

    /// The code with which the connection is to be closed is an integer of QUIC.
    pub open spec fn wf(self) -> bool {
        self.close matches Some((code, _)) ==> code < INTEGER_BOUND
    }

    /// All but the streams and datagrams that the connection holds is the same.
    pub open spec fn same_flags(self, other: ConnectionState) -> bool {
        &&& self.connection_entity == other.connection_entity
        &&& self.stream_events == other.stream_events
        &&& self.close == other.close
    }

    /// The state of a connection that has just been made.
    pub fn new(connection_entity: u64, connection: Connection) -> (state: Self)
        ensures
            state.wf(),
            state.connection_entity == connection_entity,
            state.connection == connection,
            state.stream_events@ == Seq::<StreamEvent>::empty(),
            state.close is None,
    {
        ConnectionState {
            connection_entity,
            connection,
            stream_events: VecDeque::new(),
            close: None,
        }
    }

    /// Takes the next stream event from the queue.
    ///
    /// If this function is not called regularly the queue will grow indefinitely.
    pub fn poll_stream_event(&mut self) -> (event: Option<StreamEvent>)
        ensures
            final(self).connection_entity == old(self).connection_entity,
            final(self).connection == old(self).connection,
            final(self).close == old(self).close,
            match event {
                Some(event) => old(self).stream_events@.len() > 0 && event == old(
                    self,
                ).stream_events@[0] && final(self).stream_events@ == old(
                    self,
                ).stream_events@.skip(1),
                None => old(self).stream_events@.len() == 0 && final(self).stream_events@ == old(
                    self,
                ).stream_events@,
            },
    {
        let event = self.stream_events.pop_front();
        assert(event is Some ==> self.stream_events@ =~= old(self).stream_events@.skip(1));
        event
    }

    /// Closes the connection if that was asked for, and returns its new status then.
    pub fn close_if_requested(&mut self, now: Instant) -> (status: Option<ConnectionStatus>)
        requires
            old(self).wf(),
        ensures
            final(self).wf(),
            final(self).close is None,
            final(self).connection_entity == old(self).connection_entity,
            final(self).stream_events == old(self).stream_events,
            match old(self).close {
                Some((code, reason)) => {
                    &&& status == Some(ConnectionStatus::Closed)
                    &&& final(self).status().closed
                    &&& final(self).engine() == old(self).engine().close_asked(
                        old(self).status(),
                        code,
                        reason@,
                    )
                },
                None => status is None && final(self).connection == old(self).connection,
            },
    {
        match self.take_close() {
            Some((code, reason)) => {
                close_connection(&mut self.connection, now, code, from_vec(reason));
                Some(ConnectionStatus::Closed)
            },
            None => None,
        }
    }

    /// Takes all events of the connection, and returns the statuses that it gets to with them.
    pub fn poll_events(&mut self) -> (changes: Vec<StatusChange>)
        ensures
            changes@ == status_changes(events(old(self).connection), |event| quic_status(event)),
            final(self).stream_events@ == old(self).stream_events@ + stream_events(
                events(old(self).connection),
            ),
            events(final(self).connection).len() == 0,
            final(self).engine() == old(self).engine(),
            final(self).connection_entity == old(self).connection_entity,
            final(self).close == old(self).close,
    {
        let ghost all = events(self.connection);
        let ghost status = |event: ConnectionEvent| quic_status(event);
        let ghost mut n: int = 0;
        let mut changes: Vec<StatusChange> = Vec::new();
        proof {
            assert(all.take(0) =~= Seq::empty());
            assert(all.skip(0) =~= all);
            assert(old(self).stream_events@ + stream_events(Seq::empty())
                =~= old(self).stream_events@);
        }
        loop
            invariant
                0 <= n <= all.len(),
                all == events(old(self).connection),
                status == (|event: ConnectionEvent| quic_status(event)),
                events(self.connection) == all.skip(n),
                changes@ == status_changes(all.take(n), status),
                self.stream_events@ == old(self).stream_events@ + stream_events(all.take(n)),
                self.engine() == old(self).engine(),
                self.connection_entity == old(self).connection_entity,
                self.close == old(self).close,
            decreases all.len() - n,
        {
            match poll_event(&mut self.connection) {
                None => {
                    assert(all.take(n) =~= all);
                    return changes;
                },
                Some(event) => {
                    proof {
                        lemma_events_push(all.take(n), event, status);
                        assert(all.take(n).push(event) =~= all.take(n + 1));
                        assert(all.skip(n).skip(1) =~= all.skip(n + 1));
                    }
                    let (event, reason) = told_event(event);
                    if let Some(status) = self.handle_event(event) {
                        changes.push((status, reason));
                    }
                    proof {
                        n = n + 1;
                        assert(self.stream_events@ =~= old(self).stream_events@ + stream_events(
                            all.take(n),
                        ));
                    }
                },
            }
        }
    }

    /// Takes note of an event, and returns the new status of the connection if it has one.
    pub fn handle_event(&mut self, event: ConnectionEvent) -> (status: Option<ConnectionStatus>)
        ensures
            final(self).connection_entity == old(self).connection_entity,
            final(self).connection == old(self).connection,
            final(self).close == old(self).close,
            status == quic_status(event),
            final(self).stream_events@ == match event {
                ConnectionEvent::Stream(event) => old(self).stream_events@.push(event),
                _ => old(self).stream_events@,
            },
    {
        match event {
            ConnectionEvent::Connected => Some(ConnectionStatus::Established),
            ConnectionEvent::ConnectionLost => Some(ConnectionStatus::Closed),
            ConnectionEvent::Stream(event) => {
                self.stream_events.push_back(event);
                None
            },
            _ => None,
        }
    }

    /// Accepts a new stream of a certain direction if one is available.
    pub fn accept_stream(&mut self, direction: Direction) -> (stream: Option<StreamId>)
        requires
            old(self).wf(),
        ensures
            final(self).wf(),
            final(self).same_flags(*old(self)),
            match stream {
                Some(StreamId(id)) => {
                    let before = old(self).engine();
                    let after = final(self).engine();
                    let bidirectional = direction == Direction::Bi;
                    &&& before.waiting(bidirectional).len() > 0
                    &&& id == before.waiting(bidirectional)[0]
                    &&& !before.unordered.contains(id) && !before.closed.contains(id)
                    &&& after == before.accepted(bidirectional, after.over.contains(id))
                },
                None => old(self).engine().waiting(direction == Direction::Bi).len() == 0 && final(
                    self).engine() == old(self).engine(),
            },
    {
        match accept_stream(&mut self.connection, direction == Direction::Bi) {
            Some(id) => Some(StreamId(id)),
            None => None,
        }
    }

    /// Attempts to open a new stream of a certain direction.
    ///
    /// Fails if the maximum number of these streams has been reached.
    pub fn open_stream(&mut self, direction: Direction) -> (stream: Option<StreamId>)
        requires
            old(self).wf(),
        ensures
            final(self).wf(),
            final(self).same_flags(*old(self)),
            stream is Some <==> old(self).status().openable(direction == Direction::Bi),
            match stream {
                Some(StreamId(id)) => old(self).engine().unused(id) && final(self).engine() == old(
                    self,
                ).engine().opened(id, direction == Direction::Bi),
                None => final(self).engine() == old(self).engine(),
            },
    {
        match open_stream(&mut self.connection, direction == Direction::Bi) {
            Some(id) => Some(StreamId(id)),
            None => None,
        }
    }

    /// Returns the number of send streams that may have unacknowledged data.
    pub fn get_open_send_streams(&mut self) -> (count: usize)
        ensures
            count == old(self).status().send_streams,
            final(self).status() == old(self).status(),
            final(self).same_flags(*old(self)),
            final(self).engine() == old(self).engine(),
    {
        open_send_streams(&mut self.connection)
    }

    /// Gets the number of remotely opened streams of a certain direction.
    pub fn get_open_remote_streams(&mut self, direction: Direction) -> (count: u64)
        ensures
            count == old(self).status().remote_streams(direction == Direction::Bi),
            final(self).status() == old(self).status(),
            final(self).same_flags(*old(self)),
            final(self).engine() == old(self).engine(),
    {
        remote_open_streams(&mut self.connection, direction == Direction::Bi)
    }

    /// Sets the maximum number of concurrent streams that the peer can open in a certain direction.
    pub fn set_max_concurrent_streams(&mut self, direction: Direction, count: u64) -> (set: Result<
        (),
        VarIntBoundsExceeded,
    >)
        ensures
            final(self).same_flags(*old(self)),
            set is Ok <==> count < INTEGER_BOUND,
            final(self).engine() == if set is Ok {
                old(self).engine().limited(direction == Direction::Bi, count)
            } else {
                old(self).engine()
            },
    {
        if count >= INTEGER_BOUND {
            return Err(VarIntBoundsExceeded);
        }
        set_max_concurrent(&mut self.connection, direction == Direction::Bi, count);
        Ok(())
    }

    /// Sets the priority of a send stream.
    pub fn set_send_stream_priority(&mut self, stream: StreamId, priority: i32) -> (set: Result<
        (),
        ClosedStreamError,
    >)
        requires
            old(self).wf(),
            old(self).engine().send_ids.contains(stream.0),
        ensures
            final(self).wf(),
            final(self).same_flags(*old(self)),
            set is Ok <==> !old(self).engine().released.contains(stream.0),
            final(self).engine() == if set is Ok {
                EngineView {
                    priorities: old(self).engine().priorities.insert(stream.0, priority),
                    ..old(self).engine()
                }
            } else {
                old(self).engine()
            },
    {
        if set_priority(&mut self.connection, stream.0, priority) {
            Ok(())
        } else {
            Err(ClosedStreamError)
        }
    }

    /// Gets the priority of a send stream.
    pub fn get_send_stream_priority(&mut self, stream: StreamId) -> (current: Result<
        i32,
        ClosedStreamError,
    >)
        requires
            old(self).wf(),
            old(self).engine().send_ids.contains(stream.0),
        ensures
            final(self).wf(),
            final(self).same_flags(*old(self)),
            final(self).engine() == old(self).engine(),
            final(self).status() == old(self).status(),
            current == if old(self).engine().released.contains(stream.0) {
                Err(ClosedStreamError)
            } else {
                Ok::<i32, ClosedStreamError>(old(self).engine().priority_of(stream.0))
            },
    {
        match priority(&mut self.connection, stream.0) {
            Some(priority) => Ok(priority),
            None => Err(ClosedStreamError),
        }
    }

    /// Attempts to write some data to a stream.
    ///
    /// If successful returns the number of bytes that were successfully written.
    pub fn write_send_stream(&mut self, stream: StreamId, data: &[u8]) -> (size: Result<
        usize,
        StreamWriteError,
    >)
        requires
            old(self).wf(),
            old(self).engine().send_ids.contains(stream.0),
        ensures
            final(self).wf(),
            final(self).same_flags(*old(self)),
            final(self).engine() == old(self).engine().write_asked(
                old(self).status(),
                stream.0,
                data@,
            ),
            exists|result: StreamWrite| #[trigger]
                old(self).engine().write_gives(old(self).status(), stream.0, data@.len(), result)
                    && size == write_result(result),
            size == Ok::<usize, StreamWriteError>(0) && !old(self).status().room.contains_key(
                stream.0,
            ) ==> final(self).status() == old(self).status(),
    {
        let result = write_stream(&mut self.connection, stream.0, data);
        assert(old(self).engine().write_gives(
            old(self).status(),
            stream.0,
            data@.len(),
            result,
        ));
        written(result)
    }

    /// Attempts to read up to `max_size` bytes from a stream.
    ///
    /// When none is returned the stream has been finished.
    /// If the stream is blocked on waiting for more data [`StreamReadError::Blocked`] will be
    /// returned.
    ///
    /// If an out of order read is attempted, only out of order reads are valid from that point on.
    pub fn read_recv_stream(&mut self, stream: StreamId, max_size: usize, ordered: bool) -> (chunk:
        Result<Option<Chunk>, StreamReadError>)
        requires
            old(self).wf(),
            old(self).engine().recv_ids.contains(stream.0),
        ensures
            final(self).wf(),
            final(self).same_flags(*old(self)),
            exists|result: StreamRead| #[trigger]
                read_effect(
                    old(self).engine(),
                    final(self).engine(),
                    stream.0,
                    max_size,
                    ordered,
                    result,
                ) && chunk_view(chunk) == read_result(result),
            !ordered ==> chunk_view(chunk) == shown_result(
                unordered_read(old(self).connection, stream.0, max_size),
            ),
    {
        let result = read_stream(&mut self.connection, stream.0, max_size, ordered);
        assert(read_effect(
            old(self).engine(),
            self.engine(),
            stream.0,
            max_size,
            ordered,
            result,
        ));
        received(result)
    }

    /// Finishes a send stream.
    pub fn finish_send_stream(&mut self, stream: StreamId) -> (done: Result<(), StreamFinishError>)
        requires
            old(self).wf(),
            old(self).engine().send_ids.contains(stream.0),
        ensures
            final(self).wf(),
            final(self).same_flags(*old(self)),
            done == finish_outcome(old(self).engine().finish_result(stream.0)),
            final(self).engine() == old(self).engine().finish_asked(stream.0),
    {
        finished(finish_stream(&mut self.connection, stream.0))
    }

    /// Abandons transmitting data on a send stream.
    pub fn reset_send_stream(&mut self, stream: StreamId, code: u64) -> (done: Result<
        (),
        ResetStreamError,
    >)
        requires
            old(self).wf(),
            old(self).engine().send_ids.contains(stream.0),
        ensures
            final(self).wf(),
            final(self).same_flags(*old(self)),
            done == if code >= INTEGER_BOUND {
                Err(ResetStreamError::InvalidCode(VarIntBoundsExceeded))
            } else if old(self).engine().can_reset(stream.0) {
                Ok::<(), ResetStreamError>(())
            } else {
                Err(ResetStreamError::ClosedStream(ClosedStreamError))
            },
            final(self).engine() == if code >= INTEGER_BOUND {
                old(self).engine()
            } else {
                old(self).engine().reset_asked(stream.0, code)
            },
    {
        if code >= INTEGER_BOUND {
            return Err(ResetStreamError::InvalidCode(VarIntBoundsExceeded));
        }
        if reset_stream(&mut self.connection, stream.0, code) {
            Ok(())
        } else {
            Err(ResetStreamError::ClosedStream(ClosedStreamError))
        }
    }

    /// Tells the peer to stop sending data on a recv stream.
    pub fn stop_recv_stream(&mut self, stream: StreamId, code: u64) -> (done: Result<
        (),
        StopStreamError,
    >)
        requires
            old(self).wf(),
            old(self).engine().recv_ids.contains(stream.0),
        ensures
            final(self).wf(),
            final(self).same_flags(*old(self)),
            final(self).engine() == if code >= INTEGER_BOUND {
                old(self).engine()
            } else {
                old(self).engine().stop_asked(stream.0, code)
            },
            done == if code >= INTEGER_BOUND {
                Err(StopStreamError::InvalidCode(VarIntBoundsExceeded))
            } else if old(self).engine().closed.contains(stream.0) {
                Err(StopStreamError::ClosedStream(ClosedStreamError))
            } else {
                Ok::<(), StopStreamError>(())
            },
    {
        if code >= INTEGER_BOUND {
            return Err(StopStreamError::InvalidCode(VarIntBoundsExceeded));
        }
        if stop_stream(&mut self.connection, stream.0, code) {
            Ok(())
        } else {
            Err(StopStreamError::ClosedStream(ClosedStreamError))
        }
    }

    /// Checks if a send stream has been stopped by the peer, returns the code if it was.
    pub fn send_stream_stopped(&mut self, stream: StreamId) -> (code: Result<
        Option<u64>,
        ClosedStreamError,
    >)
        requires
            old(self).wf(),
            old(self).engine().send_ids.contains(stream.0),
        ensures
            final(self).wf(),
            final(self).same_flags(*old(self)),
            final(self).engine() == old(self).engine(),
            final(self).status() == old(self).status(),
            code == match old(self).engine().stopped_by_peer(stream.0) {
                Some(code) => Ok::<Option<u64>, ClosedStreamError>(code),
                None => Err(ClosedStreamError),
            },
    {
        match stopped(&mut self.connection, stream.0) {
            Some(code) => Ok(code),
            None => Err(ClosedStreamError),
        }
    }

    /// Takes note that the connection is to be closed, unless it is closed or is to be closed
    /// already.
    fn request_close(&mut self, code: u64, reason: Vec<u8>, already_closed: bool)
        ensures
            final(self).connection == old(self).connection,
            final(self).connection_entity == old(self).connection_entity,
            final(self).stream_events == old(self).stream_events,
            final(self).close == if old(self).close is Some || already_closed {
                old(self).close
            } else {
                Some((code, reason))
            },
    {
        if self.close.is_some() || already_closed {
            return ;
        }
        self.close = Some((code, reason));
    }

    /// Closes the connection in the next update.
    ///
    /// Will do nothing if the connection has already been closed.
    pub fn close(&mut self, code: u64, reason: Vec<u8>) -> (done: Result<(), VarIntBoundsExceeded>)
        ensures
            final(self).connection == old(self).connection,
            final(self).connection_entity == old(self).connection_entity,
            final(self).stream_events == old(self).stream_events,
            done is Ok <==> code < INTEGER_BOUND,
            final(self).close == if code >= INTEGER_BOUND || old(self).close is Some || old(
                self,
            ).status().closed {
                old(self).close
            } else {
                Some((code, reason))
            },
    {
        if code >= INTEGER_BOUND {
            return Err(VarIntBoundsExceeded);
        }
        let closed = is_closed(&self.connection);
        self.request_close(code, reason, closed);
        Ok(())
    }

    /// Takes the code and the reason with which the connection is to be closed.
    pub fn take_close(&mut self) -> (close: Option<(u64, Vec<u8>)>)
        ensures
            close == old(self).close,
            final(self).close is None,
            final(self).connection == old(self).connection,
            final(self).connection_entity == old(self).connection_entity,
            final(self).stream_events == old(self).stream_events,
    {
        self.close.take()
    }

    /// Gets the maximum size datagram that can be sent.
    pub fn get_datagram_max_size(&mut self) -> (size: Option<usize>)
        ensures
            size == old(self).status().datagram_max_size,
            final(self).status() == old(self).status(),
            final(self).same_flags(*old(self)),
            final(self).engine() == old(self).engine(),
    {
        datagram_max_size(&mut self.connection)
    }

    /// Gets the amount of space available in the datagram send buffer.
    pub fn get_datagram_send_buffer_space(&mut self) -> (space: usize)
        ensures
            space == old(self).status().datagram_space(),
            final(self).status() == old(self).status(),
            final(self).same_flags(*old(self)),
            final(self).engine() == old(self).engine(),
    {
        datagram_buffer_space(&mut self.connection)
    }

    /// Attempts to write an unreliable unordered datagram to an internal buffer.
    ///
    /// If `drop_old` is true the oldest datagram in the buffer will be dropped if more space is
    /// needed. If it is false and the buffer is full [`SendDatagramError::Blocked`] will be
    /// returned.
    pub fn send_datagram(&mut self, data: Vec<u8>, drop_old: bool) -> (sent: Result<
        (),
        SendDatagramError,
    >)
        ensures
            final(self).same_flags(*old(self)),
            final(self).engine() == if sent is Ok {
                EngineView {
                    datagrams_sent: old(self).engine().datagrams_sent.push(data@),
                    ..old(self).engine()
                }
            } else {
                old(self).engine()
            },
            exists|result: DatagramSend| #[trigger]
                old(self).status().datagram_gives(data@.len(), drop_old, result)
                    && datagram_outcome(result, sent),
            sent matches Err(SendDatagramError::Blocked(back)) ==> back@ == data@,
    {
        let result = send_datagram(&mut self.connection, from_vec(data), drop_old);
        assert(old(self).status().datagram_gives(data@.len(), drop_old, result));
        datagram_sent(result)
    }

    /// Takes the next unordered unreliable datagram from the receive buffer.
    pub fn receive_datagram(&mut self) -> (datagram: Option<Vec<u8>>)
        ensures
            final(self).same_flags(*old(self)),
            match datagram {
                Some(datagram) => old(self).engine().datagrams_waiting.len() > 0 && datagram@
                    == old(self).engine().datagrams_waiting[0] && final(self).engine() == (
                EngineView {
                    datagrams_waiting: old(self).engine().datagrams_waiting.skip(1),
                    ..old(self).engine()
                }),
                None => old(self).engine().datagrams_waiting.len() == 0 && final(self).engine()
                    == old(self).engine(),
            },
    {
        match receive_datagram(&mut self.connection) {
            Some(datagram) => Some(slice_to_vec(as_slice(&datagram))),
            None => None,
        }
    }
}

/// What a write, a read, finishing a stream and sending a datagram come to tells what happened: how
/// much was written, which bytes were read and where they belong, and the code that a peer gave. A
/// write that is blocked is no failure.
pub proof fn outcomes_are_told(size: usize, code: u64, offset: u64, data: Bytes)
    ensures
        write_result(StreamWrite::Written(size)) == Ok::<usize, StreamWriteError>(size),
        write_result(StreamWrite::Blocked) == Ok::<usize, StreamWriteError>(0),
        write_result(StreamWrite::Stopped(code)) == Err::<usize, _>(
            StreamWriteError::Stopped(code),
        ),
        write_result(StreamWrite::ClosedStream) == Err::<usize, _>(
            StreamWriteError::ClosedStream(ClosedStreamError),
        ),
        read_result(StreamRead::Chunk { offset, data }) == Ok::<_, StreamReadError>(
            Some((offset, chunk(data))),
        ),
        read_result(StreamRead::Finished) == Ok::<_, StreamReadError>(
            None::<(u64, Seq<u8>)>,
        ),
        read_result(StreamRead::Blocked) == Err::<Option<(u64, Seq<u8>)>, _>(
            StreamReadError::Blocked,
        ),
        read_result(StreamRead::Reset(code)) == Err::<Option<(u64, Seq<u8>)>, _>(
            StreamReadError::Reset(code),
        ),
        read_result(StreamRead::ClosedStream) == Err::<Option<(u64, Seq<u8>)>, _>(
            StreamReadError::ClosedStream(ClosedStreamError),
        ),
        read_result(StreamRead::IllegalOrderedRead) == Err::<Option<(u64, Seq<u8>)>, _>(
            StreamReadError::IllegalOrderedRead,
        ),
        finish_outcome(StreamFinish::Done) == Ok::<(), StreamFinishError>(()),
        finish_outcome(StreamFinish::Stopped(code)) == Err::<(), _>(
            StreamFinishError::Stopped(code),
        ),
        finish_outcome(StreamFinish::ClosedStream) == Err::<(), _>(
            StreamFinishError::ClosedStream(ClosedStreamError),
        ),
{
}

/// A datagram is sent, or given back as it was, or refused for the reason that the connection has.
pub proof fn datagrams_are_answered(result: DatagramSend, sent: Result<(), SendDatagramError>)
    requires
        datagram_outcome(result, sent),
    ensures
        sent is Ok <==> result is Sent,
        sent matches Err(SendDatagramError::Blocked(back)) ==> (result matches
            DatagramSend::Blocked(data) && back@ == chunk(data)),
        sent == Err::<(), _>(SendDatagramError::Disabled) <==> result is Disabled,
        sent == Err::<(), _>(SendDatagramError::TooLarge) <==> result is TooLarge,
        sent == Err::<(), _>(SendDatagramError::UnsupportedByPeer) <==> result is UnsupportedByPeer,
{
}

} // verus!
