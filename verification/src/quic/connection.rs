//! Streams and datagrams of a QUIC connection.
use super::datagrams::{
    datagram_read, read_takes_one_datagram, read_view, DatagramQueue, InvalidDatagramError,
    QueueView,
};
use super::engine::{
    accept_stream, engine, finish_stream, open_send_streams, open_stream, read_effect, read_stream,
    receive_datagram, reset_stream, send_datagram, status, stop_stream, write_stream, DatagramSend,
    EngineStatus, EngineView, StreamRead, StreamWrite,
};
use super::event::{ConnectionEvent, StreamEvent};
use super::poll::{
    close_connection, events, lemma_events_push, poll_event, quic_status, status_changes,
    stream_events, told_event, StatusChange,
};
use crate::chunk::{as_slice, chunk, from_vec, joined};
use crate::transport::{
    ConnectionContext, ConnectionStatus, StreamReadError, StreamRequirements,
};
use bytes::Bytes;
use quinn_proto::Connection;
use std::collections::VecDeque;
use std::time::Instant;
use vstd::prelude::*;
use vstd::std_specs::cmp::PartialEqSpec;

verus! {

/// Whether a connection is to be closed.
#[derive(Clone, Copy, Debug, PartialEq, Eq, Structural)]
pub enum CloseFlagState {
    /// It is not to be closed.
    Clear,
    /// It is to be closed on the next update.
    Sent,
    /// It has been closed.
    Received,
}

/// A QUIC stream id.
#[derive(Clone, Copy, Debug)]
pub enum QuicStreamId {
    /// Stream id for sending datagrams on.
    Datagrams,
    /// Id of a QUIC stream.
    Stream(u64),
    /// Each received datagram is considered a different stream.
    ReceivedDatagram(usize),
}

impl PartialEq for QuicStreamId {
    /// Whether both are the stream for sending datagrams, the same QUIC stream or the same received
    /// datagram.
    fn eq(&self, rhs: &QuicStreamId) -> (equal: bool) {
        match (self, rhs) {
            (QuicStreamId::Datagrams, QuicStreamId::Datagrams) => true,
            (QuicStreamId::Stream(id1), QuicStreamId::Stream(id2)) => *id1 == *id2,
            (QuicStreamId::ReceivedDatagram(i1), QuicStreamId::ReceivedDatagram(i2)) => *i1 == *i2,
            _ => false,
        }
    }
}

impl vstd::std_specs::cmp::PartialEqSpecImpl for QuicStreamId {
    open spec fn obeys_eq_spec() -> bool {
        true
    }

    open spec fn eq_spec(&self, rhs: &QuicStreamId) -> bool {
        match (self, rhs) {
            (QuicStreamId::Datagrams, QuicStreamId::Datagrams) => true,
            (QuicStreamId::Stream(id1), QuicStreamId::Stream(id2)) => *id1 == *id2,
            (QuicStreamId::ReceivedDatagram(i1), QuicStreamId::ReceivedDatagram(i2)) => *i1 == *i2,
            _ => false,
        }
    }
}

/// QUIC streams in the desired direction are exhausted.
#[derive(Clone, Copy, Debug, PartialEq, Eq, Structural)]
pub struct ExaustedStreamsError;

/// A QUIC datagram stream is only for sending.
#[derive(Clone, Copy, Debug, PartialEq, Eq, Structural)]
pub struct SendDatagramReadError;

/// Critical failures of a QUIC connection.
#[derive(Clone, Copy, Debug, PartialEq, Eq, Structural)]
pub enum QuicError {
    ExaustedStreams(ExaustedStreamsError),
    SendDatagramRead(SendDatagramReadError),
    InvalidDatagram(InvalidDatagramError),
    /// An ordered read was attempted after an unordered read.
    IllegalOrderedRead,
    /// Nothing can be written to the stream at present.
    WriteBlocked,
    /// The peer stopped the stream with a code.
    WriteStopped(u64),
    /// The stream is closed.
    WriteClosed,
    /// Datagrams are not supported by the peer.
    DatagramsUnsupportedByPeer,
    /// Datagrams are disabled locally.
    DatagramsDisabled,
    /// The datagram is too large.
    DatagramTooLarge,
}

/// The bytes that a write to a stream has taken over, or why it failed.
pub open spec fn write_outcome(result: StreamWrite) -> Result<usize, QuicError> {
    match result {
        StreamWrite::Written(count) => Ok(count),
        StreamWrite::Blocked => Err(QuicError::WriteBlocked),
        StreamWrite::Stopped(code) => Err(QuicError::WriteStopped(code)),
        StreamWrite::ClosedStream => Err(QuicError::WriteClosed),
    }
}

/// The bytes that a write to a stream has taken over, or why it failed.
pub fn stream_written(result: StreamWrite) -> (written: Result<usize, QuicError>)
    ensures
        written == write_outcome(result),
{
    match result {
        StreamWrite::Written(count) => Ok(count),
        StreamWrite::Blocked => Err(QuicError::WriteBlocked),
        StreamWrite::Stopped(code) => Err(QuicError::WriteStopped(code)),
        StreamWrite::ClosedStream => Err(QuicError::WriteClosed),
    }
}

/// The bytes of a datagram of some length that have been taken over, or why sending failed. One
/// that is blocked has not been taken over.
pub open spec fn datagram_outcome(len: usize, result: DatagramSend) -> Result<usize, QuicError> {
    match result {
        DatagramSend::Sent => Ok(len),
        DatagramSend::Blocked(_) => Ok(0),
        DatagramSend::UnsupportedByPeer => Err(QuicError::DatagramsUnsupportedByPeer),
        DatagramSend::Disabled => Err(QuicError::DatagramsDisabled),
        DatagramSend::TooLarge => Err(QuicError::DatagramTooLarge),
    }
}

/// The bytes of a datagram of some length that have been taken over, or why sending failed. One
/// that is blocked has not been taken over.
pub fn datagram_written(len: usize, result: DatagramSend) -> (written: Result<usize, QuicError>)
    ensures
        written == datagram_outcome(len, result),
{
    match result {
        DatagramSend::Sent => Ok(len),
        DatagramSend::Blocked(_) => Ok(0),
        DatagramSend::UnsupportedByPeer => Err(QuicError::DatagramsUnsupportedByPeer),
        DatagramSend::Disabled => Err(QuicError::DatagramsDisabled),
        DatagramSend::TooLarge => Err(QuicError::DatagramTooLarge),
    }
}

/// What a write to a stream does, by its outcome: data is taken over from the front.
pub open spec fn stream_effect(
    before: QuicConnectionState,
    after: QuicConnectionState,
    id: u64,
    data: Seq<u8>,
    written: Result<usize, QuicError>,
) -> bool {
    &&& after.engine() == before.engine().write_asked(before.status(), id, data)
    &&& exists|result: StreamWrite| #[trigger]
        before.engine().write_gives(before.status(), id, data.len(), result) && written
            == write_outcome(result)
}

/// What sending a datagram does, by its outcome, where `len` bytes of it are what was to be
/// written: it is taken over as a whole or not at all.
pub open spec fn datagram_effect(
    before: QuicConnectionState,
    after: QuicConnectionState,
    datagram: Seq<u8>,
    len: nat,
    drop_old: bool,
    written: Result<usize, QuicError>,
) -> bool {
    exists|result: DatagramSend|
        {
            &&& #[trigger] before.status().datagram_gives(datagram.len(), drop_old, result)
            &&& written == datagram_outcome(len as usize, result)
            &&& after.engine() == if result is Sent {
                EngineView {
                    datagrams_sent: before.engine().datagrams_sent.push(datagram),
                    ..before.engine()
                }
            } else {
                before.engine()
            }
        }
}

/// What reading a stream in order does, by its outcome. There is none of a stream that is lost to
/// ordered reads.
pub open spec fn stream_read(
    before: EngineView,
    after: EngineView,
    id: u64,
    outcome: Option<Result<Bytes, StreamReadError>>,
) -> bool {
    &&& outcome is None <==> before.is_lost(id)
    &&& after == match outcome {
        Some(Ok(data)) => before.read_on(id, chunk(data).len() as int),
        Some(Err(StreamReadError::Blocked)) => before,
        Some(Err(StreamReadError::Closed)) => EngineView {
            closed: before.closed.insert(id),
            ..before
        },
        None => before.lost(id),
    }
}

/// The chunk that a read of a stream gave, or why there is none.
pub fn stream_chunk(result: StreamRead) -> (data: Result<Result<Bytes, StreamReadError>, QuicError>)
    ensures
        data == match result {
            StreamRead::Chunk { offset, data } => Ok::<_, QuicError>(
                Ok::<Bytes, StreamReadError>(data),
            ),
            StreamRead::Blocked => Ok(Err(StreamReadError::Blocked)),
            StreamRead::Reset(_) | StreamRead::Finished | StreamRead::ClosedStream => Ok(
                Err(StreamReadError::Closed),
            ),
            StreamRead::IllegalOrderedRead => Err(QuicError::IllegalOrderedRead),
        },
{
    match result {
        StreamRead::Chunk { offset: _, data } => Ok(Ok(data)),
        StreamRead::Blocked => Ok(Err(StreamReadError::Blocked)),
        StreamRead::Reset(_) | StreamRead::Finished | StreamRead::ClosedStream => Ok(
            Err(StreamReadError::Closed),
        ),
        StreamRead::IllegalOrderedRead => Err(QuicError::IllegalOrderedRead),
    }
}

/// The state of a QUIC connection.
pub struct QuicConnectionState {
    pub connection_entity: u64,
    pub connection: Connection,
    pub stream_events: VecDeque<StreamEvent>,
    /// Signal to close the connection on the next update.
    pub close: CloseFlagState,
    pub datagrams: DatagramQueue,
}

impl QuicConnectionState {
    /// The streams and datagrams that the connection holds.
    pub open spec fn engine(self) -> EngineView {
        engine(self.connection)
    }

    /// What the connection tells about itself.
    pub open spec fn status(self) -> EngineStatus {
        status(self.connection)
    }

    /// Received datagrams have a number.
    pub open spec fn wf(self) -> bool {
        self.datagrams.wf()
    }

    /// All but the streams and datagrams that the connection holds, and the datagrams that wait to
    /// be read, is the same.
    pub open spec fn same_flags(self, other: QuicConnectionState) -> bool {
        &&& self.connection_entity == other.connection_entity
        &&& self.stream_events == other.stream_events
        &&& self.close == other.close
    }

    /// The state of a connection that has just been made.
    pub fn new(connection_entity: u64, connection: Connection) -> (state: Self)
        ensures
            state.wf(),
            state.connection_entity == connection_entity,
            state.connection == connection,
            state.stream_events@ == Seq::<StreamEvent>::empty(),
            state.close == CloseFlagState::Clear,
            state.datagrams@ == (QueueView { offset: 0, slots: Seq::empty() }),
    {
        QuicConnectionState {
            connection_entity,
            connection,
            stream_events: VecDeque::new(),
            close: CloseFlagState::Clear,
            datagrams: DatagramQueue::new(),
        }
    }

    /// Asks for the connection to be closed. Asking again does nothing.
    pub fn request_close(&mut self)
        ensures
            *final(self) == (QuicConnectionState {
                close: if old(self).close == CloseFlagState::Clear {
                    CloseFlagState::Sent
                } else {
                    old(self).close
                },
                ..*old(self)
            }),
    {
        if self.close == CloseFlagState::Clear {
            self.close = CloseFlagState::Sent;
        }
    }

    /// Takes the request to close the connection, which is taken once. If there is one, the
    /// connection is to be closed, and its new status is returned.
    pub fn take_close_request(&mut self) -> (status: Option<ConnectionStatus>)
        ensures
            status == if old(self).close == CloseFlagState::Sent {
                Some(ConnectionStatus::Closed)
            } else {
                None
            },
            *final(self) == (QuicConnectionState {
                close: if old(self).close == CloseFlagState::Sent {
                    CloseFlagState::Received
                } else {
                    old(self).close
                },
                ..*old(self)
            }),
    {
        if self.close == CloseFlagState::Sent {
            self.close = CloseFlagState::Received;
            Some(ConnectionStatus::Closed)
        } else {
            None
        }
    }

    /// Closes the connection if that was asked for, and returns its new status then.
    pub fn close_if_requested(&mut self, now: Instant) -> (status: Option<ConnectionStatus>)
        ensures
            status == if old(self).close == CloseFlagState::Sent {
                Some(ConnectionStatus::Closed)
            } else {
                None
            },
            status is None ==> *final(self) == *old(self),
            status is Some ==> {
                &&& final(self).status().closed
                &&& final(self).engine() == old(self).engine().close_asked(
                    old(self).status(),
                    0,
                    Seq::empty(),
                )
                &&& final(self).close == CloseFlagState::Received
                &&& *final(self) == (QuicConnectionState {
                    connection: final(self).connection,
                    close: CloseFlagState::Received,
                    ..*old(self)
                })
            },
    {
        let status = self.take_close_request();
        if status.is_some() {
            close_connection(&mut self.connection, now, 0, from_vec(Vec::new()));
        }
        status
    }

    /// Takes all events of the connection, and returns the statuses that it gets to with them.
    pub fn poll_events(&mut self) -> (changes: Vec<StatusChange>)
        ensures
            changes@ == status_changes(events(old(self).connection), |event| quic_status(event)),
            final(self).stream_events@ == old(self).stream_events@ + stream_events(
                events(old(self).connection),
            ),
            events(final(self).connection).len() == 0,
            final(self).engine() == old(self).engine(),
            *final(self) == (QuicConnectionState {
                connection: final(self).connection,
                stream_events: final(self).stream_events,
                ..*old(self)
            }),
    {
        let ghost all = events(self.connection);
        let ghost status = |event: ConnectionEvent| quic_status(event);
        let ghost mut n: int = 0;
        let mut changes: Vec<StatusChange> = Vec::new();
        proof {
            assert(all.take(0) =~= Seq::empty());
            assert(all.skip(0) =~= all);
            assert(old(self).stream_events@ + stream_events(Seq::empty())
                =~= old(self).stream_events@);
        }
        loop
            invariant
                0 <= n <= all.len(),
                all == events(old(self).connection),
                status == (|event: ConnectionEvent| quic_status(event)),
                events(self.connection) == all.skip(n),
                changes@ == status_changes(all.take(n), status),
                self.stream_events@ == old(self).stream_events@ + stream_events(all.take(n)),
                self.engine() == old(self).engine(),
                *self == (QuicConnectionState {
                    connection: self.connection,
                    stream_events: self.stream_events,
                    ..*old(self)
                }),
            decreases all.len() - n,
        {
            match poll_event(&mut self.connection) {
                None => {
                    assert(all.take(n) =~= all);
                    return changes;
                },
                Some(event) => {
                    proof {
                        lemma_events_push(all.take(n), event, status);
                        assert(all.take(n).push(event) =~= all.take(n + 1));
                        assert(all.skip(n).skip(1) =~= all.skip(n + 1));
                    }
                    let (event, reason) = told_event(event);
                    if let Some(status) = self.handle_event(event) {
                        changes.push((status, reason));
                    }
                    proof {
                        n = n + 1;
                        assert(self.stream_events@ =~= old(self).stream_events@ + stream_events(
                            all.take(n),
                        ));
                    }
                },
            }
        }
    }

    /// Takes note of an event, and returns the new status of the connection if it has one.
    pub fn handle_event(&mut self, event: ConnectionEvent) -> (status: Option<ConnectionStatus>)
        ensures
            status == quic_status(event),
            final(self).stream_events@ == match event {
                ConnectionEvent::Stream(event) => old(self).stream_events@.push(event),
                _ => old(self).stream_events@,
            },
            *final(self) == (QuicConnectionState {
                stream_events: final(self).stream_events,
                ..*old(self)
            }),
    {
        match event {
            ConnectionEvent::HandshakeDataReady => None,
            ConnectionEvent::Connected => Some(ConnectionStatus::Established),
            ConnectionEvent::ConnectionLost => Some(ConnectionStatus::Closed),
            ConnectionEvent::Stream(event) => {
                self.stream_events.push_back(event);
                None
            },
            ConnectionEvent::DatagramReceived => None,
            ConnectionEvent::DatagramsUnblocked => None,
        }
    }
}

/// The stream that is accepted next: a unidirectional one, or else a bidirectional one, or else a
/// datagram, as long as there are numbers for datagrams.
pub open spec fn next_accept(held: EngineView, queue: QueueView) -> Option<
    (QuicStreamId, StreamRequirements),
> {
    if held.uni_waiting.len() > 0 {
        Some(
            (
                QuicStreamId::Stream(held.uni_waiting[0]),
                StreamRequirements { reliable: true, ordered: true, bidirectional: false },
            ),
        )
    } else if held.bi_waiting.len() > 0 {
        Some(
            (
                QuicStreamId::Stream(held.bi_waiting[0]),
                StreamRequirements { reliable: true, ordered: true, bidirectional: true },
            ),
        )
    } else if held.datagrams_waiting.len() > 0 && queue.next_index() < usize::MAX {
        Some(
            (
                QuicStreamId::ReceivedDatagram(queue.next_index() as usize),
                StreamRequirements { reliable: false, ordered: false, bidirectional: false },
            ),
        )
    } else {
        None
    }
}

/// Operations on a QUIC connection.
pub struct QuicConnectionContext<'a> {
    pub connection: &'a mut QuicConnectionState,
}

impl<'a> QuicConnectionContext<'a> {
    /// The state of the connection.
    pub open spec fn current(self) -> QuicConnectionState {
        *self.connection
    }

    /// The same operations, for a shorter time. What is done to the connection then is done to this
    /// one.
    pub fn reborrow<'b>(&'b mut self) -> (context: QuicConnectionContext<'b>)
        ensures
            *context.connection == *old(self).connection,
            *final(self).connection == *final(context.connection),
    {
        QuicConnectionContext { connection: &mut *self.connection }
    }
}

impl<'a> ConnectionContext for QuicConnectionContext<'a> {
    type Stream = QuicStreamId;

    type Error = QuicError;

    open spec fn wf(&self) -> bool {
        self.connection.wf()
    }

    open spec fn can_write(&self, stream: QuicStreamId) -> bool {
        match stream {
            QuicStreamId::Stream(id) => self.connection.engine().send_ids.contains(id),
            _ => true,
        }
    }

    open spec fn can_read(&self, stream: QuicStreamId) -> bool {
        match stream {
            QuicStreamId::Stream(id) => self.connection.engine().recv_ids.contains(id),
            _ => true,
        }
    }

    open spec fn sent(&self, stream: QuicStreamId) -> Seq<u8> {
        match stream {
            QuicStreamId::Stream(id) => self.connection.engine().sent_on(id),
            QuicStreamId::Datagrams => joined(self.connection.engine().datagrams_sent),
            QuicStreamId::ReceivedDatagram(_) => Seq::empty(),
        }
    }

    open spec fn unread(&self, stream: QuicStreamId) -> Seq<u8> {
        match stream {
            QuicStreamId::Stream(id) => self.connection.engine().unread_on(id),
            QuicStreamId::Datagrams => Seq::empty(),
            QuicStreamId::ReceivedDatagram(index) => match self.connection.datagrams@.datagram(
                index as nat,
            ) {
                Some(datagram) => datagram,
                None => Seq::empty(),
            },
        }
    }

    open spec fn reads_left(&self, stream: QuicStreamId) -> nat {
        match stream {
            QuicStreamId::Stream(id) => self.connection.engine().unread_on(id).len(),
            QuicStreamId::Datagrams => 0,
            QuicStreamId::ReceivedDatagram(index) => {
                if self.connection.datagrams@.datagram(index as nat) is Some {
                    1
                } else {
                    0
                }
            },
        }
    }

    open spec fn ended(&self, stream: QuicStreamId) -> bool {
        match stream {
            QuicStreamId::Stream(id) => self.connection.engine().over.contains(id),
            QuicStreamId::Datagrams => false,
            QuicStreamId::ReceivedDatagram(index) => index
                < self.connection.datagrams@.next_index(),
        }
    }

    open spec fn accepts_left(&self) -> nat {
        let held = self.connection.engine();
        held.uni_waiting.len() + held.bi_waiting.len() + held.datagrams_waiting.len()
    }

    open spec fn closing(&self) -> bool {
        self.connection.close != CloseFlagState::Clear
    }

    open spec fn can_open(&self, requirements: StreamRequirements) -> bool {
        true
    }

    open spec fn opened(
        before: Self,
        after: Self,
        requirements: StreamRequirements,
        stream: Result<QuicStreamId, QuicError>,
    ) -> bool {
        let held = before.connection.engine();
        let datagrams = requirements.met_by_datagrams();
        &&& after.connection.same_flags(*before.connection)
        &&& after.connection.datagrams == before.connection.datagrams
        &&& stream is Err <==> !datagrams && !before.connection.status().openable(
            requirements.bidirectional,
        )
        &&& match stream {
            Ok(QuicStreamId::Datagrams) => datagrams && after.connection.engine() == held,
            Ok(QuicStreamId::Stream(id)) => !datagrams && held.unused(id)
                && after.connection.engine() == held.opened(id, requirements.bidirectional),
            Ok(QuicStreamId::ReceivedDatagram(_)) => false,
            Err(error) => error == QuicError::ExaustedStreams(ExaustedStreamsError)
                && after.connection.engine() == held,
        }
    }

    open spec fn wrote(
        before: Self,
        after: Self,
        stream: QuicStreamId,
        data: Seq<u8>,
        block: bool,
        written: Result<usize, QuicError>,
    ) -> bool {
        let (from, to) = (*before.connection, *after.connection);
        &&& to.same_flags(from)
        &&& to.datagrams == from.datagrams
        &&& match stream {
            QuicStreamId::Datagrams => datagram_effect(from, to, data, data.len(), !block, written),
            QuicStreamId::Stream(id) => stream_effect(from, to, id, data, written),
            QuicStreamId::ReceivedDatagram(_) => written == Ok::<usize, QuicError>(0) && to.engine()
                == from.engine(),
        }
    }

    open spec fn send_closed(
        before: Self,
        after: Self,
        stream: QuicStreamId,
        graceful: bool,
        closed: Result<(), QuicError>,
    ) -> bool {
        let held = before.connection.engine();
        &&& closed is Ok
        &&& after.connection.same_flags(*before.connection)
        &&& after.connection.datagrams == before.connection.datagrams
        &&& after.connection.engine() == match stream {
            QuicStreamId::Stream(id) => if graceful {
                held.finish_asked(id)
            } else {
                held.reset_asked(id, 0)
            },
            _ => held,
        }
    }

    open spec fn accepted(
        before: Self,
        after: Self,
        stream: Option<(QuicStreamId, StreamRequirements)>,
    ) -> bool {
        let held = before.connection.engine();
        let queue = before.connection.datagrams@;
        &&& stream == next_accept(held, queue)
        &&& after.connection.same_flags(*before.connection)
        &&& match stream {
            Some((QuicStreamId::Stream(id), requirements)) => {
                &&& after.connection.datagrams == before.connection.datagrams
                &&& after.connection.engine() == held.accepted(
                    requirements.bidirectional,
                    after.connection.engine().over.contains(id),
                )
            },
            Some((_, _)) => {
                &&& after.connection.datagrams@ == queue.pushed(held.datagrams_waiting[0])
                &&& after.connection.engine() == (EngineView {
                    datagrams_waiting: held.datagrams_waiting.skip(1),
                    ..held
                })
            },
            None => {
                &&& after.connection.datagrams == before.connection.datagrams
                &&& after.connection.engine() == held
            },
        }
    }

    open spec fn was_read(
        before: Self,
        after: Self,
        stream: QuicStreamId,
        data: Result<Result<Bytes, StreamReadError>, QuicError>,
    ) -> bool {
        let held = before.connection.engine();
        let left = after.connection.engine();
        let queue = before.connection.datagrams@;
        &&& after.connection.same_flags(*before.connection)
        &&& match stream {
            QuicStreamId::Datagrams => {
                &&& data == Err::<Result<Bytes, StreamReadError>, QuicError>(
                    QuicError::SendDatagramRead(SendDatagramReadError),
                )
                &&& left == held
                &&& after.connection.datagrams == before.connection.datagrams
            },
            QuicStreamId::Stream(id) => {
                &&& after.connection.datagrams == before.connection.datagrams
                &&& match data {
                    Ok(read) => stream_read(held, left, id, Some(read)),
                    Err(error) => error == QuicError::IllegalOrderedRead && stream_read(
                        held,
                        left,
                        id,
                        None,
                    ),
                }
            },
            QuicStreamId::ReceivedDatagram(index) => {
                &&& left == held
                &&& after.connection.datagrams@ == queue.taken(index as nat)
                &&& match data {
                    Ok(read) => read_view(Ok(read)) == datagram_read(queue, index as nat),
                    Err(error) => index >= queue.next_index() && error
                        == QuicError::InvalidDatagram(InvalidDatagramError),
                }
            },
        }
    }

    fn new_stream(&mut self, requirements: StreamRequirements) -> (stream: Result<
        QuicStreamId,
        QuicError,
    >) {
        if !requirements.ordered && !requirements.reliable && !requirements.bidirectional {
            return Ok(QuicStreamId::Datagrams);
        }
        match open_stream(&mut self.connection.connection, requirements.bidirectional) {
            Some(id) => Ok(QuicStreamId::Stream(id)),
            None => Err(QuicError::ExaustedStreams(ExaustedStreamsError)),
        }
    }

    fn write(&mut self, stream: &QuicStreamId, data: Bytes, block: bool) -> (written: Result<
        usize,
        QuicError,
    >) {
        proof {
            assert(chunk(data).take(0) =~= Seq::empty());
            assert(chunk(data).take(chunk(data).len() as int) =~= chunk(data));
            assert(self.sent(*stream) + Seq::<u8>::empty() =~= self.sent(*stream));
        }
        match stream {
            QuicStreamId::Datagrams => {
                let len: usize = data.len();
                let ghost before = self.connection.engine().datagrams_sent;
                assert(before.push(chunk(data)).drop_last() =~= before);
                let result = send_datagram(&mut self.connection.connection, data, !block);
                assert(old(self).connection.status().datagram_gives(len as nat, !block, result));
                datagram_written(len, result)
            },
            QuicStreamId::Stream(id) => {
                let result = write_stream(&mut self.connection.connection, *id, as_slice(&data));
                assert(old(self).connection.engine().write_gives(
                    old(self).connection.status(),
                    *id,
                    chunk(data).len(),
                    result,
                ));
                stream_written(result)
            },
            QuicStreamId::ReceivedDatagram(_) => Ok(0),
        }
    }

    fn read(&mut self, stream: &QuicStreamId) -> (data: Result<
        Result<Bytes, StreamReadError>,
        QuicError,
    >) {
        match stream {
            QuicStreamId::Datagrams => Err(QuicError::SendDatagramRead(SendDatagramReadError)),
            QuicStreamId::Stream(id) => {
                let result = read_stream(&mut self.connection.connection, *id, usize::MAX, true);
                proof {
                    let before = old(self).connection.engine();
                    let after = self.connection.engine();
                    assert forall|other: u64| other != *id implies after.unread_on(other)
                        == before.unread_on(other) by {
                        lemma_removed_same(before.unread, after.unread, *id, other);
                    }
                    if result is ClosedStream {
                        assert(before.closed.insert(*id) =~= before.closed);
                    }
                }
                stream_chunk(result)
            },
            QuicStreamId::ReceivedDatagram(index) => {
                proof {
                    let queue = self.connection.datagrams@;
                    if *index < queue.next_index() {
                        read_takes_one_datagram(queue, *index as nat);
                        assert forall|other: nat| other != *index implies #[trigger] queue.taken(
                            *index as nat,
                        ).datagram(other) == queue.datagram(other) by {
                            assert(datagram_read(queue.taken(*index as nat), other)
                                == datagram_read(queue, other));
                        }
                    }
                }
                match self.connection.datagrams.read(*index) {
                    Ok(read) => {
                        proof {
                            if read is Ok {
                                let datagram = chunk(read->Ok_0);
                                assert(datagram.skip(datagram.len() as int) =~= Seq::empty());
                            }
                        }
                        Ok(read)
                    },
                    Err(error) => Err(QuicError::InvalidDatagram(error)),
                }
            },
        }
    }

    fn close_send_stream(&mut self, stream: &QuicStreamId, graceful: bool) -> (closed: Result<
        (),
        QuicError,
    >) {
        if let QuicStreamId::Stream(id) = stream {
            if graceful {
                finish_stream(&mut self.connection.connection, *id);
            } else {
                reset_stream(&mut self.connection.connection, *id, 0);
            }
        }
        Ok(())
    }

    fn close_recv_stream(&mut self, stream: &QuicStreamId) -> (closed: Result<(), QuicError>)
        ensures
            closed is Ok,
            final(self).connection.same_flags(*old(self).connection),
            final(self).connection.datagrams == old(self).connection.datagrams,
            final(self).connection.engine() == match stream {
                QuicStreamId::Stream(id) => old(self).connection.engine().stop_asked(*id, 0),
                _ => old(self).connection.engine(),
            },
    {
        if let QuicStreamId::Stream(id) = stream {
            stop_stream(&mut self.connection.connection, *id, 0);
        }
        Ok(())
    }

    fn accept_stream(&mut self) -> (stream: Option<(QuicStreamId, StreamRequirements)>) {
        if let Some(id) = accept_stream(&mut self.connection.connection, false) {
            return Some((QuicStreamId::Stream(id), StreamRequirements::reliable_ordered()));
        }
        if let Some(id) = accept_stream(&mut self.connection.connection, true) {
            return Some(
                (
                    QuicStreamId::Stream(id),
                    StreamRequirements::reliable_ordered().with_bidirectional(true),
                ),
            );
        }
        if self.connection.datagrams.datagrams.len() < usize::MAX
            - self.connection.datagrams.offset {
            if let Some(datagram) = receive_datagram(&mut self.connection.connection) {
                let index: usize = self.connection.datagrams.push(datagram);
                return Some(
                    (QuicStreamId::ReceivedDatagram(index), StreamRequirements::unreliable()),
                );
            }
        }
        None
    }

    fn close(&mut self)
        ensures
            final(self).connection.close == if old(self).connection.close
                == CloseFlagState::Clear {
                CloseFlagState::Sent
            } else {
                old(self).connection.close
            },
            final(self).connection.connection == old(self).connection.connection,
            final(self).connection.datagrams == old(self).connection.datagrams,
    {
        if self.connection.close == CloseFlagState::Clear {
            self.connection.request_close();
        }
    }

    fn all_data_sent(&mut self) -> (sent: bool)
        ensures
            sent == (old(self).connection.status().send_streams == 0),
            final(self).connection.status() == old(self).connection.status(),
            final(self).connection.same_flags(*old(self).connection),
            final(self).connection.engine() == old(self).connection.engine(),
    {
        open_send_streams(&mut self.connection.connection) == 0
    }
}

/// Maps that are the same without a key have the same values under other keys.
pub proof fn lemma_removed_same(
    before: Map<u64, Seq<u8>>,
    after: Map<u64, Seq<u8>>,
    id: u64,
    other: u64,
)
    requires
        after.remove(id) == before.remove(id),
        other != id,
    ensures
        after.contains_key(other) == before.contains_key(other),
        before.contains_key(other) ==> after[other] == before[other],
{
    assert(after.remove(id).contains_key(other) == after.contains_key(other));
    assert(before.remove(id).contains_key(other) == before.contains_key(other));
    assert(before.contains_key(other) ==> before.remove(id)[other] == before[other]);
    assert(after.contains_key(other) ==> after.remove(id)[other] == after[other]);
}

/// A stream that is over and has been read never yields more data: it is closed for every read, and
/// stays so.
pub proof fn closed_stream_stays_closed(
    before: EngineView,
    after: EngineView,
    id: u64,
    max_size: usize,
    result: StreamRead,
)
    requires
        read_effect(before, after, id, max_size, true, result),
        before.over.contains(id),
        before.unread_on(id).len() == 0,
    ensures
        result is Reset || result is Finished || result is ClosedStream
            || result is IllegalOrderedRead,
        after.over.contains(id),
        after.unread_on(id).len() == 0,
{
}

/// A datagram that is at most as long as the space for datagrams, of which there is some, is not
/// blocked. It is sent if it can be sent at all.
pub proof fn fitting_datagram_is_not_blocked(
    status: EngineStatus,
    len: nat,
    drop_old: bool,
    result: DatagramSend,
)
    requires
        status.datagram_gives(len, drop_old, result),
        0 < status.datagram_space(),
        len <= status.datagram_space(),
    ensures
        !(result is Blocked),
        status.takes_datagram(len) ==> result is Sent,
{
}

/// Comparing streams is reflexive, symmetric and transitive.
pub proof fn stream_equality(one: QuicStreamId, other: QuicStreamId, third: QuicStreamId)
    ensures
        one.eq_spec(&one),
        one.eq_spec(&other) == other.eq_spec(&one),
        one.eq_spec(&other) && other.eq_spec(&third) ==> one.eq_spec(&third),
{
}

/// What there is to accept: the unidirectional streams that wait, the bidirectional ones, and the
/// datagrams, which are numbered from the next number on.
pub open spec fn to_accept(held: EngineView, next: nat) -> Seq<(QuicStreamId, StreamRequirements)> {
    held.uni_waiting.map_values(
        |id: u64|
            (
                QuicStreamId::Stream(id),
                StreamRequirements { reliable: true, ordered: true, bidirectional: false },
            ),
    ) + held.bi_waiting.map_values(
        |id: u64|
            (
                QuicStreamId::Stream(id),
                StreamRequirements { reliable: true, ordered: true, bidirectional: true },
            ),
    ) + Seq::new(
        held.datagrams_waiting.len(),
        |i: int|
            (
                QuicStreamId::ReceivedDatagram((next + i) as usize),
                StreamRequirements { reliable: false, ordered: false, bidirectional: false },
            ),
    )
}

/// Streams and datagrams are accepted one after the other, each once: what is accepted is the first
/// of what there is to accept, and the rest is there to accept then. A datagram that was accepted
/// is read under its number.
pub proof fn all_is_accepted_in_order<'a>(
    before: QuicConnectionContext<'a>,
    after: QuicConnectionContext<'a>,
    stream: Option<(QuicStreamId, StreamRequirements)>,
)
    requires
        QuicConnectionContext::<'a>::accepted(before, after, stream),
        before.current().datagrams@.next_index() + before.current().engine().datagrams_waiting.len()
            <= usize::MAX,
    ensures
        ({
            let held = before.current().engine();
            let queue = before.current().datagrams@;
            let left = after.current().datagrams@;
            let list = to_accept(held, queue.next_index());
            let rest = to_accept(after.current().engine(), left.next_index());
            &&& stream is None <==> list.len() == 0
            &&& stream is None ==> rest == list && left == queue
            &&& stream is Some ==> stream->0 == list[0] && rest == list.skip(1)
            &&& stream is Some && held.uni_waiting.len() + held.bi_waiting.len() == 0
                ==> datagram_read(left, queue.next_index()) == Ok::<_, InvalidDatagramError>(
                Ok::<_, StreamReadError>(held.datagrams_waiting[0]),
            )
        }),
{
    let held = before.current().engine();
    let queue = before.current().datagrams@;
    let left = after.current().datagrams@;
    let list = to_accept(held, queue.next_index());
    let rest = to_accept(after.current().engine(), left.next_index());
    if stream is Some {
        assert(rest =~= list.skip(1));
    } else {
        assert(rest =~= list);
    }
}

/// A stream that must meet requirements is a new one of its direction, or there is none left to
/// open. Where nothing is required there are datagrams.
pub proof fn opened_stream_meets_requirements<'a>(
    before: QuicConnectionContext<'a>,
    after: QuicConnectionContext<'a>,
    requirements: StreamRequirements,
    stream: Result<QuicStreamId, QuicError>,
)
    requires
        QuicConnectionContext::<'a>::opened(before, after, requirements, stream),
    ensures
        ({
            let held = before.current().engine();
            let left = after.current().engine();
            if !requirements.reliable && !requirements.ordered && !requirements.bidirectional {
                stream == Ok::<_, QuicError>(QuicStreamId::Datagrams) && left == held
            } else {
                match stream {
                    Ok(QuicStreamId::Stream(id)) => {
                        &&& !held.send_ids.contains(id)
                        &&& !held.recv_ids.contains(id)
                        &&& left.send_ids == held.send_ids.insert(id)
                        &&& left.recv_ids == if requirements.bidirectional {
                            held.recv_ids.insert(id)
                        } else {
                            held.recv_ids
                        }
                        &&& left.sent == held.sent
                        &&& left.unread == held.unread
                    },
                    Ok(_) => false,
                    Err(error) => {
                        &&& error == QuicError::ExaustedStreams(ExaustedStreamsError)
                        &&& left == held
                        &&& if requirements.bidirectional {
                            !before.current().status().bi_openable
                        } else {
                            !before.current().status().uni_openable
                        }
                    },
                }
            }
        }),
{
}

/// A write to a stream takes over data from its front, as many bytes as it says, and fails only on
/// a stream that is blocked, was ended here, or stopped by the peer with the code that is told.
pub proof fn writes_take_from_the_front(
    before: QuicConnectionState,
    after: QuicConnectionState,
    id: u64,
    data: Seq<u8>,
    written: Result<usize, QuicError>,
)
    requires
        stream_effect(before, after, id, data, written),
    ensures
        match written {
            Ok(count) => {
                &&& count <= data.len()
                &&& after.engine().sent_on(id) == before.engine().sent_on(id) + data.take(
                    count as int,
                )
                &&& before.status().room.contains_key(id)
                &&& count < data.len() ==> count == before.status().room[id]
            },
            Err(error) => {
                &&& after.engine() == before.engine()
                &&& match error {
                    QuicError::WriteBlocked => !before.status().room.contains_key(id),
                    QuicError::WriteStopped(code) => before.engine().peer_stops.contains_key(id)
                        && code == before.engine().peer_stops[id],
                    QuicError::WriteClosed => before.engine().finished.contains(id)
                        || before.engine().resets.contains_key(id)
                        || before.engine().released.contains(id),
                    _ => false,
                }
            },
        },
        forall|other: u64|
            other != id ==> #[trigger] after.engine().sent_on(other) == before.engine().sent_on(
                other,
            ),
{
}

/// A datagram is taken over as a whole, behind the others, or not at all. It is refused only if
/// datagrams are disabled, not supported by the peer, or not of that size.
pub proof fn datagrams_are_whole(
    before: QuicConnectionState,
    after: QuicConnectionState,
    datagram: Seq<u8>,
    len: nat,
    drop_old: bool,
    written: Result<usize, QuicError>,
)
    requires
        datagram_effect(before, after, datagram, len, drop_old, written),
        0 < len <= usize::MAX,
    ensures
        ({
            let status = before.status();
            let sent = before.engine().datagrams_sent;
            match written {
                Ok(count) => {
                    ||| count == len && after.engine().datagrams_sent == sent.push(datagram)
                    ||| count == 0 && after.engine() == before.engine() && !drop_old
                },
                Err(error) => {
                    &&& after.engine() == before.engine()
                    &&& match error {
                        QuicError::DatagramsDisabled => !status.datagrams_enabled,
                        QuicError::DatagramsUnsupportedByPeer => status.datagrams_enabled
                            && status.datagram_max_size is None,
                        QuicError::DatagramTooLarge => status.datagrams_enabled
                            && status.datagram_max_size is Some,
                        _ => false,
                    }
                },
            }
        }),
{
}

/// A read takes from the front of its stream what it gives, and nothing from other streams. Whether
/// more may come of a stream of which nothing is left is what it says.
pub proof fn reads_take_from_the_front(
    before: EngineView,
    after: EngineView,
    id: u64,
    outcome: Result<Bytes, StreamReadError>,
)
    requires
        stream_read(before, after, id, Some(outcome)),
    ensures
        outcome matches Ok(data) ==> after.unread_on(id) == before.unread_on(id).skip(
            chunk(data).len() as int,
        ) && after.closed == before.closed,
        outcome is Err ==> after.unread == before.unread,
        outcome == Err::<Bytes, _>(StreamReadError::Closed) ==> after.closed.contains(id),
        outcome == Err::<Bytes, _>(StreamReadError::Blocked) ==> after == before,
        forall|other: u64|
            other != id ==> #[trigger] after.unread_on(other) == before.unread_on(other),
        after.sent == before.sent,
{
}

/// Closing a stream gracefully finishes it, so that what was written is still sent; otherwise it is
/// reset. Other streams, and streams for datagrams, are not affected.
pub proof fn closing_finishes_or_resets<'a>(
    before: QuicConnectionContext<'a>,
    after: QuicConnectionContext<'a>,
    stream: QuicStreamId,
    graceful: bool,
    closed: Result<(), QuicError>,
)
    requires
        QuicConnectionContext::<'a>::send_closed(before, after, stream, graceful, closed),
    ensures
        ({
            let held = before.current().engine();
            let left = after.current().engine();
            &&& closed is Ok
            &&& left.sent == held.sent
            &&& match stream {
                QuicStreamId::Stream(id) => {
                    &&& graceful ==> left.resets == held.resets
                    &&& graceful && !held.ended(id) && !held.peer_stops.contains_key(id)
                        ==> left.finished == held.finished.insert(id)
                    &&& !graceful ==> left.finished == held.finished
                    &&& !graceful && !held.resets.contains_key(id) && !held.released.contains(id)
                        ==> left.resets == held.resets.insert(id, 0)
                },
                _ => left == held,
            }
        }),
{
}

/// A datagram that has come is read under its number, once: then it is closed. A number that no
/// datagram has is invalid. Streams are not affected.
pub proof fn datagrams_are_read_once<'a>(
    before: QuicConnectionContext<'a>,
    after: QuicConnectionContext<'a>,
    index: usize,
    data: Result<Result<Bytes, StreamReadError>, QuicError>,
)
    requires
        QuicConnectionContext::<'a>::was_read(
            before,
            after,
            QuicStreamId::ReceivedDatagram(index),
            data,
        ),
    ensures
        ({
            let queue = before.current().datagrams@;
            let left = after.current().datagrams@;
            let place = index - queue.offset;
            &&& data is Err <==> place >= queue.slots.len()
            &&& data is Err <==> !before.ended(QuicStreamId::ReceivedDatagram(index))
            &&& data is Err ==> data->Err_0 == QuicError::InvalidDatagram(InvalidDatagramError)
            &&& 0 <= place < queue.slots.len() && queue.slots[place] is Some ==> data->Ok_0 is Ok
                && chunk(data->Ok_0->Ok_0) == queue.slots[place]->0 && before.unread(
                QuicStreamId::ReceivedDatagram(index),
            ) == queue.slots[place]->0
            &&& place < 0 || place < queue.slots.len() && queue.slots[place] is None ==> data
                == Ok::<_, QuicError>(Err::<Bytes, _>(StreamReadError::Closed))
            &&& left.offset + left.slots.len() == queue.offset + queue.slots.len()
            &&& forall|other: nat|
                other != index ==> #[trigger] crate::quic::datagrams::datagram_read(left, other)
                    == crate::quic::datagrams::datagram_read(queue, other)
            &&& after.current().engine() == before.current().engine()
        }),
{
    let queue = before.current().datagrams@;
    if index < queue.next_index() {
        crate::quic::datagrams::read_takes_one_datagram(queue, index as nat);
    }
    crate::quic::datagrams::only_future_datagrams_are_invalid(queue, index as nat);
}

/// Reading, writing, opening and closing streams leaves alone the datagrams that have come.
pub proof fn streams_keep_datagrams<'a>(
    before: QuicConnectionContext<'a>,
    read: QuicConnectionContext<'a>,
    wrote: QuicConnectionContext<'a>,
    opened: QuicConnectionContext<'a>,
    closed: QuicConnectionContext<'a>,
    id: u64,
    data: Result<Result<Bytes, StreamReadError>, QuicError>,
    bytes: Seq<u8>,
    block: bool,
    written: Result<usize, QuicError>,
    requirements: StreamRequirements,
    new: Result<QuicStreamId, QuicError>,
    graceful: bool,
    outcome: Result<(), QuicError>,
)
    requires
        QuicConnectionContext::<'a>::was_read(before, read, QuicStreamId::Stream(id), data),
        QuicConnectionContext::<'a>::wrote(
            before,
            wrote,
            QuicStreamId::Stream(id),
            bytes,
            block,
            written,
        ),
        QuicConnectionContext::<'a>::opened(before, opened, requirements, new),
        QuicConnectionContext::<'a>::send_closed(
            before,
            closed,
            QuicStreamId::Stream(id),
            graceful,
            outcome,
        ),
    ensures
        read.current().datagrams == before.current().datagrams,
        wrote.current().datagrams == before.current().datagrams,
        opened.current().datagrams == before.current().datagrams,
        closed.current().datagrams == before.current().datagrams,
        read.current().close == before.current().close,
        wrote.current().close == before.current().close,
        opened.current().close == before.current().close,
        closed.current().close == before.current().close,
        data is Err <==> before.current().engine().is_lost(id),
        wrote.current().engine().unread == before.current().engine().unread,
        opened.current().engine().unread == before.current().engine().unread,
        closed.current().engine().unread == before.current().engine().unread,
        opened.current().engine().datagrams_waiting
            == before.current().engine().datagrams_waiting,
{
}

} // verus!
