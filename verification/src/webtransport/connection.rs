//! Streams and datagrams of a WebTransport session.
use super::session::{
    datagram_parts, datagram_round_trip, frame_bidi_stream_header, frame_datagram,
    frame_uni_stream_header, parse_datagram, parse_stream_header, quic_varint,
    quic_varint_round_trip, stream_header, stream_header_in_start, stream_header_parts,
    stream_header_round_trip, WebTransportSession, WT_STREAM_BIDI, WT_STREAM_UNI,
};
use crate::chunk::{as_slice, chunk, joined};
use crate::quic::connection::{
    datagram_effect, datagram_outcome, datagram_written, stream_chunk, stream_effect, stream_read,
    stream_written, write_outcome, CloseFlagState, QuicConnectionState, QuicError,
};
use crate::quic::datagrams::{
    datagram_read, read_takes_one_datagram, read_view, InvalidDatagramError, QueueView,
};
use crate::quic::engine::{
    accept_stream, engine, finish_stream, open_send_streams, open_stream, read_stream,
    receive_datagram, reset_stream, send_datagram, status, stop_stream, write_stream, EngineView,
    StreamRead, StreamWrite, INTEGER_BOUND,
};
use crate::quic::streams::{drained, opened_giving};
use crate::transport::{ConnectionContext, StreamReadError, StreamRequirements};
use bytes::Bytes;
use quinn_proto::Connection;
use vstd::prelude::*;
use vstd::std_specs::cmp::PartialEqSpec;

verus! {

/// WebTransport stream identifier.
#[derive(Clone, Copy, Debug)]
pub enum WebTransportStreamId {
    /// Stream for sending datagrams.
    Datagrams,
    /// A bidirectional or unidirectional stream.
    Stream {
        quic_stream_id: u64,
        session_id: u64,
        /// Whether the framing header has been written or read.
        header_handled: bool,
    },
    /// A received datagram (each datagram is a separate stream).
    ReceivedDatagram(usize),
}

impl PartialEq for WebTransportStreamId {
    /// Whether both are the stream for sending datagrams, the same QUIC stream or the same received
    /// datagram.
    fn eq(&self, rhs: &WebTransportStreamId) -> (equal: bool) {
        match (self, rhs) {
            (WebTransportStreamId::Datagrams, WebTransportStreamId::Datagrams) => true,
            (
                WebTransportStreamId::Stream { quic_stream_id: id1, .. },
                WebTransportStreamId::Stream { quic_stream_id: id2, .. },
            ) => *id1 == *id2,
            (
                WebTransportStreamId::ReceivedDatagram(i1),
                WebTransportStreamId::ReceivedDatagram(i2),
            ) => *i1 == *i2,
            _ => false,
        }
    }
}

impl vstd::std_specs::cmp::PartialEqSpecImpl for WebTransportStreamId {
    open spec fn obeys_eq_spec() -> bool {
        true
    }

    open spec fn eq_spec(&self, rhs: &WebTransportStreamId) -> bool {
        match (self, rhs) {
            (WebTransportStreamId::Datagrams, WebTransportStreamId::Datagrams) => true,
            (
                WebTransportStreamId::Stream { quic_stream_id: id1, .. },
                WebTransportStreamId::Stream { quic_stream_id: id2, .. },
            ) => *id1 == *id2,
            (
                WebTransportStreamId::ReceivedDatagram(i1),
                WebTransportStreamId::ReceivedDatagram(i2),
            ) => *i1 == *i2,
            _ => false,
        }
    }
}

/// Comparing streams is reflexive, symmetric and transitive.
pub proof fn stream_equality(
    one: WebTransportStreamId,
    other: WebTransportStreamId,
    third: WebTransportStreamId,
)
    ensures
        one.eq_spec(&one),
        one.eq_spec(&other) == other.eq_spec(&one),
        one.eq_spec(&other) && other.eq_spec(&third) ==> one.eq_spec(&third),
{
}

/// The stream id that stands for a QUIC stream of a session.
pub open spec fn stream_of(id: u64, session_id: u64) -> WebTransportStreamId {
    WebTransportStreamId::Stream { quic_stream_id: id, session_id, header_handled: true }
}

/// What opening a stream of a session comes to, when writing its header came to a result.
pub open spec fn opening_outcome(id: u64, session_id: u64, written: StreamWrite) -> Result<
    WebTransportStreamId,
    WebTransportError,
> {
    match write_outcome(written) {
        Ok(_) => Ok(stream_of(id, session_id)),
        Err(error) => Err(WebTransportError::Quic(error)),
    }
}

/// The header that a stream of a session is opened with.
pub open spec fn opening_header(bidirectional: bool, session_id: u64) -> Seq<u8> {
    if bidirectional {
        stream_header(WT_STREAM_BIDI, session_id)
    } else {
        stream_header(WT_STREAM_UNI, session_id)
    }
}

/// The payload of a framed datagram.
pub open spec fn payload(framed: Seq<u8>) -> Seq<u8> {
    match datagram_parts(framed) {
        Some((_, payload)) => payload,
        None => Seq::empty(),
    }
}

/// The payloads of several framed datagrams.
pub open spec fn payloads(framed: Seq<Seq<u8>>) -> Seq<Seq<u8>> {
    framed.map_values(|framed: Seq<u8>| payload(framed))
}

/// Whether a stream that starts with some bytes is of a kind, and belongs to a session.
pub open spec fn header_matches(header: Seq<u8>, kind: u8, session_id: u64) -> bool {
    match stream_header_parts(header) {
        Some((stream_type, session, _)) => stream_type == kind && session == session_id,
        None => false,
    }
}

/// Decides whether a stream that starts with some bytes is of a kind, and belongs to a session.
pub fn check_header(header: &[u8], kind: u8, session_id: u64) -> (matches: bool)
    ensures
        matches == header_matches(header@, kind, session_id),
{
    match parse_stream_header(header) {
        Some((stream_type, session, _)) => stream_type == kind as u64 && session == session_id,
        None => false,
    }
}

/// The number of bytes that are read for the header of a stream: those of the header, or all that
/// has been received if it is not complete.
pub open spec fn header_len(received: Seq<u8>) -> nat {
    match stream_header_parts(received) {
        Some((_, _, len)) => len,
        None => received.len(),
    }
}

/// What reading the header of a stream does. Nothing of what follows the header is read.
pub open spec fn header_taken(before: EngineView, after: EngineView, id: u64) -> bool {
    let received = before.unread_on(id);
    match stream_header_parts(received) {
        Some((_, _, len)) => after == before.read_on(id, len as int),
        None => drained(before, after, id),
    }
}

/// What accepting the first waiting stream of a direction, and reading its header, does.
pub open spec fn header_accepted(
    before: EngineView,
    after: EngineView,
    bidirectional: bool,
) -> bool {
    if before.waiting(bidirectional).len() == 0 {
        after == before
    } else {
        let id = before.waiting(bidirectional)[0];
        exists|over: bool| #[trigger]
            header_taken(before.accepted(bidirectional, over), after, id)
    }
}

/// Whether the first waiting stream of a direction has received a header of a kind and a session.
pub open spec fn next_matches(
    held: EngineView,
    bidirectional: bool,
    kind: u8,
    session_id: u64,
) -> bool {
    let waiting = held.waiting(bidirectional);
    waiting.len() > 0 && header_matches(held.unread_on(waiting[0]), kind, session_id)
}

/// What has been received behind the header of a stream of the session is there to be read when the
/// stream has been accepted.
pub proof fn payload_follows_header(
    before: EngineView,
    after: EngineView,
    id: u64,
    kind: u64,
    session_id: u64,
    payload: Seq<u8>,
)
    requires
        kind < INTEGER_BOUND,
        session_id < INTEGER_BOUND,
        before.unread_on(id) == quic_varint(kind) + quic_varint(session_id) + payload,
        header_taken(before, after, id),
    ensures
        after.unread_on(id) == payload,
{
    stream_header_round_trip(kind, session_id, payload);
    quic_varint_round_trip(kind, Seq::empty());
    quic_varint_round_trip(session_id, Seq::empty());
    let received = before.unread_on(id);
    let len = quic_varint(kind).len() + quic_varint(session_id).len();
    assert(received.skip(len as int) =~= payload);
}

/// What taking a datagram does: it is kept if it belongs to the session, and lost otherwise.
pub open spec fn datagram_accepted(
    session_id: u64,
    before: (EngineView, QueueView),
    after: (EngineView, QueueView),
    stream: Option<(WebTransportStreamId, StreamRequirements)>,
) -> bool {
    if before.0.datagrams_waiting.len() == 0 || before.1.next_index() >= usize::MAX {
        after == before && stream is None
    } else {
        let datagram = before.0.datagrams_waiting[0];
        &&& after.0 == (EngineView {
            datagrams_waiting: before.0.datagrams_waiting.skip(1),
            ..before.0
        })
        &&& match datagram_parts(datagram) {
            Some((session, payload)) if session == session_id => {
                &&& after.1 == before.1.pushed(payload)
                &&& stream == Some(
                    (
                        WebTransportStreamId::ReceivedDatagram(before.1.next_index() as usize),
                        StreamRequirements {
                            reliable: false,
                            ordered: false,
                            bidirectional: false,
                        },
                    ),
                )
            },
            _ => after.1 == before.1 && stream is None,
        }
    }
}

/// What accepting a stream does if no unidirectional one is accepted.
pub open spec fn bi_effect(
    session_id: u64,
    before: (EngineView, QueueView),
    after: (EngineView, QueueView),
    stream: Option<(WebTransportStreamId, StreamRequirements)>,
) -> bool {
    exists|middle: EngineView| #[trigger]
        header_accepted(before.0, middle, true) && if next_matches(
            before.0,
            true,
            WT_STREAM_BIDI,
            session_id,
        ) {
            &&& after == (middle, before.1)
            &&& stream == Some(
                (
                    stream_of(before.0.bi_waiting[0], session_id),
                    StreamRequirements { reliable: true, ordered: true, bidirectional: true },
                ),
            )
        } else {
            datagram_accepted(session_id, (middle, before.1), after, stream)
        }
}

/// What accepting a stream does. A unidirectional stream is accepted if its header is right, or else
/// a bidirectional one, or else a datagram that belongs to the session. Streams and datagrams that
/// are not right are lost.
pub open spec fn accept_effect(
    session_id: u64,
    before: (EngineView, QueueView),
    after: (EngineView, QueueView),
    stream: Option<(WebTransportStreamId, StreamRequirements)>,
) -> bool {
    exists|middle: EngineView| #[trigger]
        header_accepted(before.0, middle, false) && if next_matches(
            before.0,
            false,
            WT_STREAM_UNI,
            session_id,
        ) {
            &&& after == (middle, before.1)
            &&& stream == Some(
                (
                    stream_of(before.0.uni_waiting[0], session_id),
                    StreamRequirements { reliable: true, ordered: true, bidirectional: false },
                ),
            )
        } else {
            bi_effect(session_id, (middle, before.1), after, stream)
        }
}

/// Reads the header of a stream, as far as it has been received.
fn take_header(connection: &mut Connection, id: u64) -> (header: Vec<u8>)
    requires
        engine(*old(connection)).recv_ids.contains(id),
        !engine(*old(connection)).unordered.contains(id),
    ensures
        header@ == engine(*old(connection)).unread_on(id).take(
            header_len(engine(*old(connection)).unread_on(id)) as int,
        ),
        header_taken(engine(*old(connection)), engine(*final(connection)), id),
{
    let ghost before = engine(*connection);
    let ghost received = before.unread_on(id);
    let mut header: Vec<u8> = Vec::new();
    proof {
        assert(received.take(0) =~= Seq::empty());
        assert(received.skip(0) =~= received);
    }
    loop
        invariant
            before == engine(*old(connection)),
            received == before.unread_on(id),
            before.recv_ids.contains(id),
            !before.unordered.contains(id),
            header@.len() <= received.len(),
            header@ == received.take(header@.len() as int),
            stream_header_parts(header@) is None,
            engine(*connection) == before && header@.len() == 0 || engine(*connection)
                == before.read_on(id, header@.len() as int),
            engine(*connection).unread_on(id) == received.skip(header@.len() as int),
        decreases received.len() - header@.len(),
    {
        let ghost current = engine(*connection);
        let ghost n = header@.len() as int;
        match read_stream(connection, id, 1, true) {
            StreamRead::Chunk { offset: _, data } => {
                header.extend_from_slice(as_slice(&data));
                proof {
                    assert(header@ =~= received.take(n + 1));
                    assert(received.skip(n).skip(1) =~= received.skip(n + 1));
                    assert(current.unread.insert(id, received.skip(n + 1))
                        =~= before.unread.insert(id, received.skip(n + 1)));
                    stream_header_in_start(received, n);
                    stream_header_in_start(received, n + 1);
                }
                if parse_stream_header(header.as_slice()).is_some() {
                    return header;
                }
            },
            _ => {
                proof {
                    assert(received.take(n) =~= received);
                    if before.closed.contains(id) {
                        assert(before.closed.insert(id) =~= before.closed);
                    }
                }
                return header;
            },
        }
    }
}

/// Accepts the first waiting stream of a direction, and reads its header. Returns whether it is the
/// header of a stream of a kind and a session.
fn accept_header(
    connection: &mut QuicConnectionState,
    bidirectional: bool,
    kind: u8,
    session_id: u64,
) -> (stream: Option<(u64, bool)>)
    requires
        old(connection).wf(),
    ensures
        final(connection).wf(),
        final(connection).same_flags(*old(connection)),
        final(connection).datagrams == old(connection).datagrams,
        header_accepted(old(connection).engine(), final(connection).engine(), bidirectional),
        match stream {
            Some((id, matches)) => {
                let waiting = old(connection).engine().waiting(bidirectional);
                &&& waiting.len() > 0
                &&& id == waiting[0]
                &&& final(connection).engine().recv_ids == old(
                    connection,
                ).engine().recv_ids.insert(id)
                &&& bidirectional ==> final(connection).engine().send_ids.contains(id)
                &&& matches == next_matches(
                    old(connection).engine(),
                    bidirectional,
                    kind,
                    session_id,
                )
            },
            None => old(connection).engine().waiting(bidirectional).len() == 0,
        },
{
    let ghost before = connection.engine();
    match accept_stream(&mut connection.connection, bidirectional) {
        None => None,
        Some(id) => {
            let ghost over = connection.engine().over.contains(id);
            let ghost accepted = before.accepted(bidirectional, over);
            let ghost received = before.unread_on(id);
            let header = take_header(&mut connection.connection, id);
            proof {
                assert(accepted.unread_on(id) == received);
                assert(header_taken(accepted, connection.engine(), id));
                stream_header_in_start(received, header_len(received) as int);
            }
            Some((id, check_header(header.as_slice(), kind, session_id)))
        },
    }
}

/// WebTransport streams in the desired direction are exhausted.
#[derive(Clone, Copy, Debug, PartialEq, Eq, Structural)]
pub struct ExhaustedStreamsError;

/// A WebTransport datagram stream is only for sending.
#[derive(Clone, Copy, Debug, PartialEq, Eq, Structural)]
pub struct SendDatagramReadError;

/// Critical failures of a WebTransport connection.
#[derive(Clone, Copy, Debug, PartialEq, Eq, Structural)]
pub enum WebTransportError {
    ExhaustedStreams(ExhaustedStreamsError),
    SendDatagramRead(SendDatagramReadError),
    InvalidDatagram(InvalidDatagramError),
    /// A failure of the QUIC connection.
    Quic(QuicError),
}

/// An outcome of the QUIC connection.
pub open spec fn of_quic(result: Result<usize, QuicError>) -> Result<usize, WebTransportError> {
    match result {
        Ok(count) => Ok(count),
        Err(error) => Err(WebTransportError::Quic(error)),
    }
}

/// Operations on a WebTransport connection.
pub struct WebTransportConnectionContext<'a> {
    pub connection: &'a mut QuicConnectionState,
    pub session: &'a mut WebTransportSession,
}

impl<'a> WebTransportConnectionContext<'a> {
    /// The state of the connection.
    pub open spec fn current(self) -> QuicConnectionState {
        *self.connection
    }

    /// The session.
    pub open spec fn current_session(self) -> WebTransportSession {
        *self.session
    }

    /// The same operations, for a shorter time. What is done to the connection then is done to this
    /// one.
    pub fn reborrow<'b>(&'b mut self) -> (context: WebTransportConnectionContext<'b>)
        ensures
            *context.connection == *old(self).connection,
            *context.session == *old(self).session,
            *final(self).connection == *final(context.connection),
            *final(self).session == *final(context.session),
    {
        WebTransportConnectionContext {
            connection: &mut *self.connection,
            session: &mut *self.session,
        }
    }
}

impl<'a> ConnectionContext for WebTransportConnectionContext<'a> {
    type Stream = WebTransportStreamId;

    type Error = WebTransportError;

    open spec fn wf(&self) -> bool {
        self.connection.wf() && self.session.session_id < INTEGER_BOUND
    }

    open spec fn can_write(&self, stream: WebTransportStreamId) -> bool {
        match stream {
            WebTransportStreamId::Stream { quic_stream_id, .. } => {
                &&& stream == stream_of(quic_stream_id, self.session.session_id)
                &&& self.connection.engine().send_ids.contains(quic_stream_id)
            },
            _ => true,
        }
    }

    open spec fn can_read(&self, stream: WebTransportStreamId) -> bool {
        match stream {
            WebTransportStreamId::Stream { quic_stream_id, .. } => {
                &&& stream == stream_of(quic_stream_id, self.session.session_id)
                &&& self.connection.engine().recv_ids.contains(quic_stream_id)
            },
            _ => true,
        }
    }

    open spec fn sent(&self, stream: WebTransportStreamId) -> Seq<u8> {
        match stream {
            WebTransportStreamId::Stream { quic_stream_id, .. } => if stream == stream_of(
                quic_stream_id,
                self.session.session_id,
            ) {
                self.connection.engine().sent_on(quic_stream_id)
            } else {
                Seq::empty()
            },
            WebTransportStreamId::Datagrams => joined(
                payloads(self.connection.engine().datagrams_sent),
            ),
            WebTransportStreamId::ReceivedDatagram(_) => Seq::empty(),
        }
    }

    open spec fn unread(&self, stream: WebTransportStreamId) -> Seq<u8> {
        match stream {
            WebTransportStreamId::Stream { quic_stream_id, .. } => if stream == stream_of(
                quic_stream_id,
                self.session.session_id,
            ) {
                self.connection.engine().unread_on(quic_stream_id)
            } else {
                Seq::empty()
            },
            WebTransportStreamId::Datagrams => Seq::empty(),
            WebTransportStreamId::ReceivedDatagram(index) => {
                match self.connection.datagrams@.datagram(index as nat) {
                    Some(datagram) => datagram,
                    None => Seq::empty(),
                }
            },
        }
    }

    open spec fn reads_left(&self, stream: WebTransportStreamId) -> nat {
        match stream {
            WebTransportStreamId::Stream { quic_stream_id, .. } => {
                self.connection.engine().unread_on(quic_stream_id).len()
            },
            WebTransportStreamId::Datagrams => 0,
            WebTransportStreamId::ReceivedDatagram(index) => {
                if self.connection.datagrams@.datagram(index as nat) is Some {
                    1
                } else {
                    0
                }
            },
        }
    }

    open spec fn ended(&self, stream: WebTransportStreamId) -> bool {
        match stream {
            WebTransportStreamId::Stream { quic_stream_id, .. } => {
                self.connection.engine().over.contains(quic_stream_id)
            },
            WebTransportStreamId::Datagrams => false,
            WebTransportStreamId::ReceivedDatagram(index) => index
                < self.connection.datagrams@.next_index(),
        }
    }

    open spec fn accepts_left(&self) -> nat {
        let held = self.connection.engine();
        held.uni_waiting.len() + held.bi_waiting.len() + held.datagrams_waiting.len()
    }

    open spec fn closing(&self) -> bool {
        self.connection.close != CloseFlagState::Clear
    }

    open spec fn can_open(&self, requirements: StreamRequirements) -> bool {
        true
    }

    open spec fn opened(
        before: Self,
        after: Self,
        requirements: StreamRequirements,
        stream: Result<WebTransportStreamId, WebTransportError>,
    ) -> bool {
        let held = before.connection.engine();
        let session_id = before.session.session_id;
        let header = opening_header(requirements.bidirectional, session_id);
        &&& *after.session == *before.session
        &&& after.connection.same_flags(*before.connection)
        &&& after.connection.datagrams == before.connection.datagrams
        &&& if requirements.met_by_datagrams() {
            &&& stream == Ok::<_, WebTransportError>(WebTransportStreamId::Datagrams)
            &&& after.connection.engine() == held
        } else if before.connection.status().openable(requirements.bidirectional) {
            exists|id: u64, written: StreamWrite| #[trigger]
                opened_giving(
                    held,
                    after.connection.engine(),
                    id,
                    requirements.bidirectional,
                    header,
                    written,
                ) && stream == opening_outcome(id, session_id, written)
        } else {
            &&& stream == Err::<WebTransportStreamId, _>(
                WebTransportError::ExhaustedStreams(ExhaustedStreamsError),
            )
            &&& after.connection.engine() == held
        }
    }

    open spec fn wrote(
        before: Self,
        after: Self,
        stream: WebTransportStreamId,
        data: Seq<u8>,
        block: bool,
        written: Result<usize, WebTransportError>,
    ) -> bool {
        let (from, to) = (*before.connection, *after.connection);
        &&& *after.session == *before.session
        &&& to.same_flags(from)
        &&& to.datagrams == from.datagrams
        &&& match stream {
            WebTransportStreamId::Datagrams => {
                let framed = quic_varint(before.session.session_id) + data;
                exists|result: Result<usize, QuicError>|
                    written == #[trigger] of_quic(result) && datagram_effect(
                        from,
                        to,
                        framed,
                        data.len(),
                        !block,
                        result,
                    )
            },
            WebTransportStreamId::Stream { quic_stream_id, .. } => {
                exists|result: Result<usize, QuicError>|
                    written == #[trigger] of_quic(result) && stream_effect(
                        from,
                        to,
                        quic_stream_id,
                        data,
                        result,
                    )
            },
            WebTransportStreamId::ReceivedDatagram(_) => written == Ok::<usize, WebTransportError>(
                0,
            ) && to.engine() == from.engine(),
        }
    }

    open spec fn send_closed(
        before: Self,
        after: Self,
        stream: WebTransportStreamId,
        graceful: bool,
        closed: Result<(), WebTransportError>,
    ) -> bool {
        let held = before.connection.engine();
        &&& closed is Ok
        &&& *after.session == *before.session
        &&& after.connection.same_flags(*before.connection)
        &&& after.connection.datagrams == before.connection.datagrams
        &&& after.connection.engine() == match stream {
            WebTransportStreamId::Stream { quic_stream_id, .. } => if graceful {
                held.finish_asked(quic_stream_id)
            } else {
                held.reset_asked(quic_stream_id, 0)
            },
            _ => held,
        }
    }

    open spec fn accepted(
        before: Self,
        after: Self,
        stream: Option<(WebTransportStreamId, StreamRequirements)>,
    ) -> bool {
        &&& *after.session == *before.session
        &&& after.connection.same_flags(*before.connection)
        &&& accept_effect(
            before.session.session_id,
            (before.connection.engine(), before.connection.datagrams@),
            (after.connection.engine(), after.connection.datagrams@),
            stream,
        )
    }

    open spec fn was_read(
        before: Self,
        after: Self,
        stream: WebTransportStreamId,
        data: Result<Result<Bytes, StreamReadError>, WebTransportError>,
    ) -> bool {
        let held = before.connection.engine();
        let left = after.connection.engine();
        let queue = before.connection.datagrams@;
        &&& *after.session == *before.session
        &&& after.connection.same_flags(*before.connection)
        &&& match stream {
            WebTransportStreamId::Datagrams => {
                &&& data == Err::<Result<Bytes, StreamReadError>, WebTransportError>(
                    WebTransportError::SendDatagramRead(SendDatagramReadError),
                )
                &&& left == held
                &&& after.connection.datagrams == before.connection.datagrams
            },
            WebTransportStreamId::Stream { quic_stream_id, .. } => {
                &&& after.connection.datagrams == before.connection.datagrams
                &&& match data {
                    Ok(read) => stream_read(held, left, quic_stream_id, Some(read)),
                    Err(error) => error == WebTransportError::Quic(QuicError::IllegalOrderedRead)
                        && stream_read(held, left, quic_stream_id, None),
                }
            },
            WebTransportStreamId::ReceivedDatagram(index) => {
                &&& left == held
                &&& after.connection.datagrams@ == queue.taken(index as nat)
                &&& match data {
                    Ok(read) => read_view(Ok(read)) == datagram_read(queue, index as nat),
                    Err(error) => index >= queue.next_index() && error
                        == WebTransportError::InvalidDatagram(InvalidDatagramError),
                }
            },
        }
    }

    fn new_stream(&mut self, requirements: StreamRequirements) -> (stream: Result<
        WebTransportStreamId,
        WebTransportError,
    >) {
        if !requirements.ordered && !requirements.reliable && !requirements.bidirectional {
            return Ok(WebTransportStreamId::Datagrams);
        }
        let ghost before = self.connection.engine();
        let id: u64 = match open_stream(
            &mut self.connection.connection,
            requirements.bidirectional,
        ) {
            Some(id) => id,
            None => {
                return Err(WebTransportError::ExhaustedStreams(ExhaustedStreamsError));
            },
        };
        let header = if requirements.bidirectional {
            frame_bidi_stream_header(self.session.session_id)
        } else {
            frame_uni_stream_header(self.session.session_id)
        };
        let ghost opened = self.connection.connection;
        assert(engine(opened) == before.opened(id, requirements.bidirectional));
        let written = write_stream(&mut self.connection.connection, id, as_slice(&header));
        assert(opened_giving(
            before,
            self.connection.engine(),
            id,
            requirements.bidirectional,
            opening_header(requirements.bidirectional, self.session.session_id),
            written,
        ));
        match stream_written(written) {
            Ok(_) => Ok(
                WebTransportStreamId::Stream {
                    quic_stream_id: id,
                    session_id: self.session.session_id,
                    header_handled: true,
                },
            ),
            Err(error) => Err(WebTransportError::Quic(error)),
        }
    }

    fn write(&mut self, stream: &WebTransportStreamId, data: Bytes, block: bool) -> (written: Result<
        usize,
        WebTransportError,
    >) {
        proof {
            assert(chunk(data).take(0) =~= Seq::empty());
            assert(chunk(data).take(chunk(data).len() as int) =~= chunk(data));
            assert(self.sent(*stream) + Seq::<u8>::empty() =~= self.sent(*stream));
        }
        match stream {
            WebTransportStreamId::Datagrams => {
                let framed = frame_datagram(self.session.session_id, as_slice(&data));
                let len: usize = data.len();
                proof {
                    let before = self.connection.engine().datagrams_sent;
                    datagram_round_trip(self.session.session_id, chunk(data));
                    assert(payloads(before.push(chunk(framed))) =~= payloads(before).push(
                        chunk(data),
                    ));
                    assert(payloads(before).push(chunk(data)).drop_last() =~= payloads(before));
                }
                let result = send_datagram(&mut self.connection.connection, framed, !block);
                proof {
                    assert(chunk(framed) == quic_varint(self.session.session_id) + chunk(data));
                    assert(old(self).connection.status().datagram_gives(
                        chunk(framed).len(),
                        !block,
                        result,
                    ));
                    assert(datagram_effect(
                        *old(self).connection,
                        *self.connection,
                        chunk(framed),
                        len as nat,
                        !block,
                        datagram_outcome(len, result),
                    ));
                }
                let outcome = match datagram_written(len, result) {
                    Ok(written) => Ok(written),
                    Err(error) => Err(WebTransportError::Quic(error)),
                };
                assert(outcome == of_quic(datagram_outcome(len, result)));
                outcome
            },
            WebTransportStreamId::Stream { quic_stream_id, .. } => {
                let written = write_stream(
                    &mut self.connection.connection,
                    *quic_stream_id,
                    as_slice(&data),
                );
                proof {
                    assert(old(self).connection.engine().write_gives(
                        old(self).connection.status(),
                        *quic_stream_id,
                        chunk(data).len(),
                        written,
                    ));
                    assert(stream_effect(
                        *old(self).connection,
                        *self.connection,
                        *quic_stream_id,
                        chunk(data),
                        write_outcome(written),
                    ));
                }
                let outcome = match stream_written(written) {
                    Ok(written) => Ok(written),
                    Err(error) => Err(WebTransportError::Quic(error)),
                };
                assert(outcome == of_quic(write_outcome(written)));
                outcome
            },
            WebTransportStreamId::ReceivedDatagram(_) => Ok(0),
        }
    }

    fn read(&mut self, stream: &WebTransportStreamId) -> (data: Result<
        Result<Bytes, StreamReadError>,
        WebTransportError,
    >) {
        match stream {
            WebTransportStreamId::Datagrams => Err(
                WebTransportError::SendDatagramRead(SendDatagramReadError),
            ),
            WebTransportStreamId::Stream { quic_stream_id, .. } => {
                let id: u64 = *quic_stream_id;
                let result = read_stream(&mut self.connection.connection, id, usize::MAX, true);
                proof {
                    let before = old(self).connection.engine();
                    let after = self.connection.engine();
                    assert forall|other: u64| other != id implies after.unread_on(other)
                        == before.unread_on(other) by {
                        crate::quic::connection::lemma_removed_same(
                            before.unread,
                            after.unread,
                            id,
                            other,
                        );
                    }
                    if result is ClosedStream {
                        assert(before.closed.insert(id) =~= before.closed);
                    }
                }
                match stream_chunk(result) {
                    Ok(data) => Ok(data),
                    Err(error) => Err(WebTransportError::Quic(error)),
                }
            },
            WebTransportStreamId::ReceivedDatagram(index) => {
                proof {
                    let queue = self.connection.datagrams@;
                    if *index < queue.next_index() {
                        read_takes_one_datagram(queue, *index as nat);
                        assert forall|other: nat| other != *index implies #[trigger] queue.taken(
                            *index as nat,
                        ).datagram(other) == queue.datagram(other) by {
                            assert(datagram_read(queue.taken(*index as nat), other)
                                == datagram_read(queue, other));
                        }
                    }
                }
                match self.connection.datagrams.read(*index) {
                    Ok(read) => {
                        proof {
                            if read is Ok {
                                let datagram = chunk(read->Ok_0);
                                assert(datagram.skip(datagram.len() as int) =~= Seq::empty());
                            }
                        }
                        Ok(read)
                    },
                    Err(error) => Err(WebTransportError::InvalidDatagram(error)),
                }
            },
        }
    }

    fn close_send_stream(
        &mut self,
        stream: &WebTransportStreamId,
        graceful: bool,
    ) -> (closed: Result<(), WebTransportError>) {
        if let WebTransportStreamId::Stream { quic_stream_id, .. } = stream {
            if graceful {
                finish_stream(&mut self.connection.connection, *quic_stream_id);
            } else {
                reset_stream(&mut self.connection.connection, *quic_stream_id, 0);
            }
        }
        Ok(())
    }

    fn close_recv_stream(&mut self, stream: &WebTransportStreamId) -> (closed: Result<
        (),
        WebTransportError,
    >)
        ensures
            closed is Ok,
            *final(self).session == *old(self).session,
            final(self).connection.same_flags(*old(self).connection),
            final(self).connection.datagrams == old(self).connection.datagrams,
            final(self).connection.engine() == match stream {
                WebTransportStreamId::Stream { quic_stream_id, .. } => {
                    old(self).connection.engine().stop_asked(*quic_stream_id, 0)
                },
                _ => old(self).connection.engine(),
            },
    {
        if let WebTransportStreamId::Stream { quic_stream_id, .. } = stream {
            stop_stream(&mut self.connection.connection, *quic_stream_id, 0);
        }
        Ok(())
    }

    fn accept_stream(&mut self) -> (stream: Option<(WebTransportStreamId, StreamRequirements)>) {
        let session_id: u64 = self.session.session_id;
        let ghost start = self.connection.engine();
        let ghost queue = self.connection.datagrams@;
        if let Some((id, matches)) = accept_header(
            self.connection,
            false,
            WT_STREAM_UNI,
            session_id,
        ) {
            if matches {
                let stream = WebTransportStreamId::Stream {
                    quic_stream_id: id,
                    session_id,
                    header_handled: true,
                };
                return Some((stream, StreamRequirements::reliable_ordered()));
            }
        }
        let ghost with_uni = self.connection.engine();
        assert(header_accepted(start, with_uni, false));
        assert(!next_matches(start, false, WT_STREAM_UNI, session_id));
        if let Some((id, matches)) = accept_header(
            self.connection,
            true,
            WT_STREAM_BIDI,
            session_id,
        ) {
            if matches {
                let stream = WebTransportStreamId::Stream {
                    quic_stream_id: id,
                    session_id,
                    header_handled: true,
                };
                assert(header_accepted(with_uni, self.connection.engine(), true));
                return Some(
                    (stream, StreamRequirements::reliable_ordered().with_bidirectional(true)),
                );
            }
        }
        let ghost with_bi = self.connection.engine();
        assert(header_accepted(with_uni, with_bi, true));
        assert(!next_matches(with_uni, true, WT_STREAM_BIDI, session_id));
        if self.connection.datagrams.datagrams.len() < usize::MAX
            - self.connection.datagrams.offset {
            if let Some(datagram) = receive_datagram(&mut self.connection.connection) {
                if let Some((session, payload)) = parse_datagram(datagram) {
                    if session == session_id {
                        let index: usize = self.connection.datagrams.push(payload);
                        return Some(
                            (
                                WebTransportStreamId::ReceivedDatagram(index),
                                StreamRequirements::unreliable(),
                            ),
                        );
                    }
                }
            }
        }
        None
    }

    fn close(&mut self)
        ensures
            *final(self).session == *old(self).session,
            final(self).connection.close == if old(self).connection.close
                == CloseFlagState::Clear {
                CloseFlagState::Sent
            } else {
                old(self).connection.close
            },
            final(self).connection.connection == old(self).connection.connection,
            final(self).connection.datagrams == old(self).connection.datagrams,
    {
        if self.connection.close == CloseFlagState::Clear {
            self.connection.request_close();
        }
    }

    fn all_data_sent(&mut self) -> (sent: bool)
        ensures
            sent == (old(self).connection.status().send_streams == 0),
            final(self).connection.status() == old(self).connection.status(),
            *final(self).session == *old(self).session,
            final(self).connection.same_flags(*old(self).connection),
            final(self).connection.engine() == old(self).connection.engine(),
    {
        open_send_streams(&mut self.connection.connection) == 0
    }
}

/// A stream of a session starts with the byte of its kind and the session id. Whoever reads a
/// stream that starts with the kind and the session id as integers knows it for one of the session,
/// and no other stream.
pub proof fn headers_name_the_session(
    bidirectional: bool,
    session_id: u64,
    kind: u8,
    payload: Seq<u8>,
    other_kind: u64,
    other_session: u64,
)
    requires
        session_id < INTEGER_BOUND,
        other_kind < INTEGER_BOUND,
        other_session < INTEGER_BOUND,
    ensures
        opening_header(bidirectional, session_id) == seq![
            if bidirectional {
                0x41u8
            } else {
                0x54u8
            },
        ] + quic_varint(session_id),
        header_matches(
            quic_varint(other_kind) + quic_varint(other_session) + payload,
            kind,
            session_id,
        ) <==> other_kind == kind && other_session == session_id,
{
    stream_header_round_trip(other_kind, other_session, payload);
    assert(opening_header(bidirectional, session_id) =~= seq![
        if bidirectional {
            0x41u8
        } else {
            0x54u8
        },
    ] + quic_varint(session_id));
}

/// A unidirectional stream of the session that waits is accepted before everything else, and what
/// has been received behind its header is there to be read.
pub proof fn session_streams_are_accepted(
    session_id: u64,
    before: (EngineView, QueueView),
    after: (EngineView, QueueView),
    stream: Option<(WebTransportStreamId, StreamRequirements)>,
    payload: Seq<u8>,
)
    requires
        accept_effect(session_id, before, after, stream),
        session_id < INTEGER_BOUND,
        before.0.uni_waiting.len() > 0,
        before.0.unread_on(before.0.uni_waiting[0]) == quic_varint(0x54) + quic_varint(session_id)
            + payload,
    ensures
        ({
            let id = before.0.uni_waiting[0];
            &&& stream == Some(
                (
                    WebTransportStreamId::Stream {
                        quic_stream_id: id,
                        session_id,
                        header_handled: true,
                    },
                    StreamRequirements { reliable: true, ordered: true, bidirectional: false },
                ),
            )
            &&& after.0.unread_on(id) == payload
            &&& after.0.recv_ids.contains(id)
            &&& after.0.uni_waiting == before.0.uni_waiting.skip(1)
            &&& after.0.bi_waiting == before.0.bi_waiting
            &&& after.0.datagrams_waiting == before.0.datagrams_waiting
            &&& after.1 == before.1
        }),
{
    let id = before.0.uni_waiting[0];
    headers_name_the_session(false, session_id, 0x54, payload, 0x54, session_id);
    let middle = choose|middle: EngineView| #[trigger]
        header_accepted(before.0, middle, false) && if next_matches(
            before.0,
            false,
            WT_STREAM_UNI,
            session_id,
        ) {
            &&& after == (middle, before.1)
            &&& stream == Some(
                (
                    stream_of(before.0.uni_waiting[0], session_id),
                    StreamRequirements { reliable: true, ordered: true, bidirectional: false },
                ),
            )
        } else {
            bi_effect(session_id, (middle, before.1), after, stream)
        };
    let over = choose|over: bool| #[trigger]
        header_taken(before.0.accepted(false, over), middle, id);
    let accepted = before.0.accepted(false, over);
    assert(accepted.unread_on(id) == before.0.unread_on(id));
    payload_follows_header(accepted, middle, id, 0x54, session_id, payload);
    stream_header_round_trip(0x54, session_id, payload);
}

/// A bidirectional stream of the session that waits is accepted if no unidirectional one waits, and
/// what has been received behind its header is there to be read.
pub proof fn bidirectional_streams_are_accepted(
    session_id: u64,
    before: (EngineView, QueueView),
    after: (EngineView, QueueView),
    stream: Option<(WebTransportStreamId, StreamRequirements)>,
    payload: Seq<u8>,
)
    requires
        accept_effect(session_id, before, after, stream),
        session_id < INTEGER_BOUND,
        before.0.uni_waiting.len() == 0,
        before.0.bi_waiting.len() > 0,
        before.0.unread_on(before.0.bi_waiting[0]) == quic_varint(0x41) + quic_varint(session_id)
            + payload,
    ensures
        ({
            let id = before.0.bi_waiting[0];
            &&& stream == Some(
                (
                    WebTransportStreamId::Stream {
                        quic_stream_id: id,
                        session_id,
                        header_handled: true,
                    },
                    StreamRequirements { reliable: true, ordered: true, bidirectional: true },
                ),
            )
            &&& after.0.unread_on(id) == payload
            &&& after.0.recv_ids.contains(id)
            &&& after.0.send_ids.contains(id)
            &&& after.0.bi_waiting == before.0.bi_waiting.skip(1)
            &&& after.0.datagrams_waiting == before.0.datagrams_waiting
            &&& after.1 == before.1
        }),
{
    let id = before.0.bi_waiting[0];
    headers_name_the_session(true, session_id, 0x41, payload, 0x41, session_id);
    assert(header_accepted(before.0, before.0, false));
    assert(bi_effect(session_id, before, after, stream));
    let middle = choose|middle: EngineView| #[trigger]
        header_accepted(before.0, middle, true) && if next_matches(
            before.0,
            true,
            WT_STREAM_BIDI,
            session_id,
        ) {
            &&& after == (middle, before.1)
            &&& stream == Some(
                (
                    stream_of(before.0.bi_waiting[0], session_id),
                    StreamRequirements { reliable: true, ordered: true, bidirectional: true },
                ),
            )
        } else {
            datagram_accepted(session_id, (middle, before.1), after, stream)
        };
    let over = choose|over: bool| #[trigger]
        header_taken(before.0.accepted(true, over), middle, id);
    let accepted = before.0.accepted(true, over);
    assert(accepted.unread_on(id) == before.0.unread_on(id));
    payload_follows_header(accepted, middle, id, 0x41, session_id, payload);
    stream_header_round_trip(0x41, session_id, payload);
}

/// A datagram of the session is accepted if no streams wait, and what was written is read of it. One
/// of another session is not.
pub proof fn session_datagrams_are_accepted(
    session_id: u64,
    other_session: u64,
    before: (EngineView, QueueView),
    after: (EngineView, QueueView),
    stream: Option<(WebTransportStreamId, StreamRequirements)>,
    payload: Seq<u8>,
)
    requires
        accept_effect(session_id, before, after, stream),
        session_id < INTEGER_BOUND,
        other_session < INTEGER_BOUND,
        before.0.uni_waiting.len() == 0,
        before.0.bi_waiting.len() == 0,
        before.0.datagrams_waiting.len() > 0,
        before.1.next_index() < usize::MAX,
        before.0.datagrams_waiting[0] == quic_varint(other_session) + payload,
    ensures
        after.0.datagrams_waiting == before.0.datagrams_waiting.skip(1),
        if other_session == session_id {
            &&& stream == Some(
                (
                    WebTransportStreamId::ReceivedDatagram(before.1.next_index() as usize),
                    StreamRequirements { reliable: false, ordered: false, bidirectional: false },
                ),
            )
            &&& datagram_read(after.1, before.1.next_index()) == Ok::<_, InvalidDatagramError>(
                Ok::<_, StreamReadError>(payload),
            )
        } else {
            stream is None && after.1 == before.1
        },
{
    datagram_round_trip(other_session, payload);
    crate::quic::datagrams::pushed_datagram_is_read(before.1, payload);
    let middle = choose|middle: EngineView| #[trigger]
        header_accepted(before.0, middle, false) && if next_matches(
            before.0,
            false,
            WT_STREAM_UNI,
            session_id,
        ) {
            &&& after == (middle, before.1)
            &&& stream == Some(
                (
                    stream_of(before.0.uni_waiting[0], session_id),
                    StreamRequirements { reliable: true, ordered: true, bidirectional: false },
                ),
            )
        } else {
            bi_effect(session_id, (middle, before.1), after, stream)
        };
    assert(middle == before.0);
    assert(bi_effect(session_id, before, after, stream));
}

/// A datagram that is written is sent with the session id in front, as a whole or not at all, so
/// that the other side of the session reads what was written.
pub proof fn written_datagrams_name_the_session<'a>(
    before: WebTransportConnectionContext<'a>,
    after: WebTransportConnectionContext<'a>,
    data: Seq<u8>,
    block: bool,
    written: Result<usize, WebTransportError>,
)
    requires
        WebTransportConnectionContext::<'a>::wrote(
            before,
            after,
            WebTransportStreamId::Datagrams,
            data,
            block,
            written,
        ),
        0 < data.len() <= usize::MAX,
        before.current_session().session_id < INTEGER_BOUND,
    ensures
        ({
            let session_id = before.current_session().session_id;
            let sent = before.current().engine().datagrams_sent;
            let left = after.current().engine().datagrams_sent;
            &&& written == Ok::<usize, WebTransportError>(data.len() as usize) ==> left == sent.push(
                quic_varint(session_id) + data,
            ) && datagram_parts(left.last()) == Some((session_id as nat, data))
            &&& written != Ok::<usize, WebTransportError>(data.len() as usize) ==> left == sent
            &&& written is Err ==> (written->Err_0 is Quic)
        }),
{
    datagram_round_trip(before.current_session().session_id, data);
}

/// A stream that is opened starts with the header of the session, as far as it was taken over, and
/// is a new one.
pub proof fn opened_streams_name_the_session<'a>(
    before: WebTransportConnectionContext<'a>,
    after: WebTransportConnectionContext<'a>,
    requirements: StreamRequirements,
    stream: Result<WebTransportStreamId, WebTransportError>,
)
    requires
        WebTransportConnectionContext::<'a>::opened(before, after, requirements, stream),
        requirements.reliable || requirements.ordered || requirements.bidirectional,
        stream is Ok,
    ensures
        ({
            let session_id = before.current_session().session_id;
            let held = before.current().engine();
            let left = after.current().engine();
            let header = seq![
                if requirements.bidirectional {
                    0x41u8
                } else {
                    0x54u8
                },
            ] + quic_varint(session_id);
            &&& stream->Ok_0 matches WebTransportStreamId::Stream {
                quic_stream_id,
                session_id: session,
                header_handled,
            }
            &&& session == session_id
            &&& header_handled
            &&& !held.send_ids.contains(quic_stream_id)
            &&& left.send_ids.contains(quic_stream_id)
            &&& requirements.bidirectional ==> left.recv_ids.contains(quic_stream_id)
            &&& left.sent_on(quic_stream_id).is_prefix_of(header)
            &&& left.unread == held.unread
        }),
{
    let session_id = before.current_session().session_id;
    let held = before.current().engine();
    let left = after.current().engine();
    let header = opening_header(requirements.bidirectional, session_id);
    let (id, written) = choose|id: u64, written: StreamWrite| #[trigger]
        opened_giving(held, left, id, requirements.bidirectional, header, written) && stream
            == opening_outcome(id, session_id, written);
    let opened = choose|opened: Connection|
        #![trigger engine(opened)]
        engine(opened) == held.opened(id, requirements.bidirectional) && engine(
            opened,
        ).write_gives(status(opened), id, header.len(), written) && left == engine(
            opened,
        ).write_asked(status(opened), id, header);
    assert(held.sent_on(id) =~= Seq::empty());
    assert(engine(opened).sent_on(id) =~= Seq::empty());
    assert(header =~= seq![
        if requirements.bidirectional {
            0x41u8
        } else {
            0x54u8
        },
    ] + quic_varint(session_id));
    assert(left.sent_on(id).is_prefix_of(header));
}

/// A datagram of the session that was accepted is read under its number, once: then it is closed.
/// Other datagrams and all streams are left alone, and a number that no datagram has is invalid.
pub proof fn accepted_datagrams_are_read_once<'a>(
    before: WebTransportConnectionContext<'a>,
    after: WebTransportConnectionContext<'a>,
    index: usize,
    data: Result<Result<Bytes, StreamReadError>, WebTransportError>,
)
    requires
        WebTransportConnectionContext::<'a>::was_read(
            before,
            after,
            WebTransportStreamId::ReceivedDatagram(index),
            data,
        ),
    ensures
        ({
            let queue = before.current().datagrams@;
            let left = after.current().datagrams@;
            let place = index - queue.offset;
            &&& data is Err <==> place >= queue.slots.len()
            &&& data is Err ==> data->Err_0 == WebTransportError::InvalidDatagram(
                InvalidDatagramError,
            )
            &&& 0 <= place < queue.slots.len() && queue.slots[place] is Some ==> data->Ok_0 is Ok
                && chunk(data->Ok_0->Ok_0) == queue.slots[place]->0
            &&& place < 0 || place < queue.slots.len() && queue.slots[place] is None ==> data
                == Ok::<_, WebTransportError>(Err::<Bytes, _>(StreamReadError::Closed))
            &&& index < left.offset + left.slots.len() ==> datagram_read(left, index as nat)
                == Ok::<_, InvalidDatagramError>(Err::<Seq<u8>, _>(StreamReadError::Closed))
            &&& left.offset + left.slots.len() == queue.offset + queue.slots.len()
            &&& forall|other: nat|
                other != index ==> #[trigger] datagram_read(left, other) == datagram_read(
                    queue,
                    other,
                )
            &&& after.current().engine() == before.current().engine()
            &&& after.current_session() == before.current_session()
        }),
{
    let queue = before.current().datagrams@;
    if index < queue.next_index() {
        crate::quic::datagrams::read_takes_one_datagram(queue, index as nat);
    }
    crate::quic::datagrams::only_future_datagrams_are_invalid(queue, index as nat);
}

/// Nothing is accepted where nothing waits: then the connection is as it was.
pub proof fn nothing_is_made_up(
    session_id: u64,
    before: (EngineView, QueueView),
    after: (EngineView, QueueView),
    stream: Option<(WebTransportStreamId, StreamRequirements)>,
)
    requires
        accept_effect(session_id, before, after, stream),
        before.0.uni_waiting.len() == 0,
        before.0.bi_waiting.len() == 0,
        before.0.datagrams_waiting.len() == 0,
    ensures
        stream is None,
        after == before,
{
    let middle = choose|middle: EngineView| #[trigger]
        header_accepted(before.0, middle, false) && if next_matches(
            before.0,
            false,
            WT_STREAM_UNI,
            session_id,
        ) {
            &&& after == (middle, before.1)
            &&& stream == Some(
                (
                    stream_of(before.0.uni_waiting[0], session_id),
                    StreamRequirements { reliable: true, ordered: true, bidirectional: false },
                ),
            )
        } else {
            bi_effect(session_id, (middle, before.1), after, stream)
        };
    assert(middle == before.0);
    assert(bi_effect(session_id, before, after, stream));
}

/// What was sent and received on a stream of the session is what the QUIC stream has sent and
/// received. A datagram that was accepted has ended, and nothing else that is no stream has.
pub proof fn session_streams_are_quic_streams<'a>(
    context: WebTransportConnectionContext<'a>,
    id: u64,
    index: usize,
)
    ensures
        ({
            let stream = WebTransportStreamId::Stream {
                quic_stream_id: id,
                session_id: context.current_session().session_id,
                header_handled: true,
            };
            let datagram = WebTransportStreamId::ReceivedDatagram(index);
            let queue = context.current().datagrams@;
            &&& context.sent(stream) == context.current().engine().sent_on(id)
            &&& context.unread(stream) == context.current().engine().unread_on(id)
            &&& context.ended(stream) == context.current().engine().over.contains(id)
            &&& context.ended(datagram) == (index < queue.offset + queue.slots.len())
            &&& context.sent(datagram) == Seq::<u8>::empty()
            &&& queue.offset <= index < queue.offset + queue.slots.len() ==> context.unread(
                datagram,
            ) == match queue.slots[index - queue.offset] {
                Some(bytes) => bytes,
                None => Seq::empty(),
            }
            &&& !context.ended(WebTransportStreamId::Datagrams)
            &&& context.unread(WebTransportStreamId::Datagrams) == Seq::<u8>::empty()
        }),
{
}

/// Reading a stream leaves the datagrams alone, and gives what a read of the QUIC stream gives.
pub proof fn stream_reads_keep_datagrams<'a>(
    before: WebTransportConnectionContext<'a>,
    after: WebTransportConnectionContext<'a>,
    stream: WebTransportStreamId,
    data: Result<Result<Bytes, StreamReadError>, WebTransportError>,
)
    requires
        WebTransportConnectionContext::<'a>::was_read(before, after, stream, data),
        !(stream is ReceivedDatagram),
    ensures
        after.current().datagrams == before.current().datagrams,
        after.current_session() == before.current_session(),
        after.current().connection_entity == before.current().connection_entity,
        after.current().close == before.current().close,
        after.current().engine().sent == before.current().engine().sent,
        after.current().engine().datagrams_waiting == before.current().engine().datagrams_waiting,
        stream == WebTransportStreamId::Datagrams ==> data is Err && after.current().engine()
            == before.current().engine(),
        stream is Stream ==> (data is Err <==> before.current().engine().is_lost(
            stream->Stream_quic_stream_id,
        )),
{
}

/// Closing a stream of the session gracefully finishes the QUIC stream, so that what was written is
/// still sent; otherwise it is reset. Datagrams are not affected.
pub proof fn closing_finishes_or_resets<'a>(
    before: WebTransportConnectionContext<'a>,
    after: WebTransportConnectionContext<'a>,
    stream: WebTransportStreamId,
    graceful: bool,
    closed: Result<(), WebTransportError>,
)
    requires
        WebTransportConnectionContext::<'a>::send_closed(before, after, stream, graceful, closed),
    ensures
        ({
            let held = before.current().engine();
            let left = after.current().engine();
            &&& closed is Ok
            &&& left.sent == held.sent
            &&& left.unread == held.unread
            &&& after.current().datagrams == before.current().datagrams
            &&& after.current().close == before.current().close
            &&& after.current().connection_entity == before.current().connection_entity
            &&& after.current_session() == before.current_session()
            &&& match stream {
                WebTransportStreamId::Stream { quic_stream_id, .. } => {
                    &&& graceful ==> left.resets == held.resets
                    &&& graceful && !held.ended(quic_stream_id) && !held.peer_stops.contains_key(
                        quic_stream_id,
                    ) ==> left.finished == held.finished.insert(quic_stream_id)
                    &&& !graceful ==> left.finished == held.finished
                    &&& !graceful && !held.resets.contains_key(quic_stream_id)
                        && !held.released.contains(quic_stream_id) ==> left.resets
                        == held.resets.insert(quic_stream_id, 0)
                },
                _ => left == held,
            }
        }),
{
}

/// A stream is opened if the peer allows one, and only then. Writing and opening keep the session and
/// the datagrams that have come, and datagrams need no stream.
pub proof fn streams_open_when_allowed<'a>(
    before: WebTransportConnectionContext<'a>,
    opened: WebTransportConnectionContext<'a>,
    wrote: WebTransportConnectionContext<'a>,
    requirements: StreamRequirements,
    new: Result<WebTransportStreamId, WebTransportError>,
    stream: WebTransportStreamId,
    data: Seq<u8>,
    block: bool,
    written: Result<usize, WebTransportError>,
)
    requires
        WebTransportConnectionContext::<'a>::opened(before, opened, requirements, new),
        WebTransportConnectionContext::<'a>::wrote(before, wrote, stream, data, block, written),
    ensures
        ({
            let status = before.current().status();
            let held = before.current().engine();
            let left = opened.current().engine();
            let allowed = if requirements.bidirectional {
                status.bi_openable
            } else {
                status.uni_openable
            };
            if !requirements.reliable && !requirements.ordered && !requirements.bidirectional {
                new == Ok::<_, WebTransportError>(WebTransportStreamId::Datagrams) && left == held
            } else if allowed {
                left != held && new != Err::<WebTransportStreamId, _>(
                    WebTransportError::ExhaustedStreams(ExhaustedStreamsError),
                )
            } else {
                left == held && new == Err::<WebTransportStreamId, _>(
                    WebTransportError::ExhaustedStreams(ExhaustedStreamsError),
                )
            }
        }),
        opened.current().datagrams == before.current().datagrams,
        opened.current_session() == before.current_session(),
        opened.current().close == before.current().close,
        wrote.current().datagrams == before.current().datagrams,
        wrote.current_session() == before.current_session(),
        wrote.current().close == before.current().close,
        wrote.current().engine().unread == before.current().engine().unread,
{
    let status = before.current().status();
    let held = before.current().engine();
    let left = opened.current().engine();
    let session_id = before.current_session().session_id;
    let bidirectional = requirements.bidirectional;
    if (requirements.reliable || requirements.ordered || bidirectional) && status.openable(
        bidirectional,
    ) {
        let header = opening_header(bidirectional, session_id);
        let (id, result) = choose|id: u64, result: StreamWrite| #[trigger]
            opened_giving(held, left, id, bidirectional, header, result) && new
                == opening_outcome(id, session_id, result);
        assert(!held.send_ids.contains(id));
        assert(left.send_ids.contains(id));
    }
}

} // verus!
