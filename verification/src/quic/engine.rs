//! QUIC connections of the `quinn-proto` crate, and what the library relies on of them.
//!
//! A connection holds streams and datagrams. What it has received of them changes only when packets
//! of the peer are handed to it, which is up to its user.
use crate::chunk::chunk;
use bytes::Bytes;
use quinn_proto::{Connection, Dir, FinishError, ReadError, ReadableError, VarInt, WriteError};
use vstd::prelude::*;

verus! {

/// `quinn_proto::Connection`, the state of a QUIC connection.
#[verifier::external_type_specification]
#[verifier::external_body]
pub struct ExConnection(quinn_proto::Connection);

/// Error codes and other integers of QUIC are less than this.
pub const INTEGER_BOUND: u64 = 0x4000_0000_0000_0000;

/// The peer of a connection, and the streams and datagrams that it holds.
pub struct EngineView {
    /// The address of the peer.
    pub remote_address: Seq<char>,
    /// The streams that were opened or accepted and can be written.
    pub send_ids: Set<u64>,
    /// The streams that were opened or accepted and can be read.
    pub recv_ids: Set<u64>,
    /// What has been taken over for sending on each stream.
    pub sent: Map<u64, Seq<u8>>,
    /// The priorities that have been set for streams.
    pub priorities: Map<u64, i32>,
    /// The streams that have been finished.
    pub finished: Set<u64>,
    /// The streams that have been reset, with a code.
    pub resets: Map<u64, u64>,
    /// The streams among `send_ids` that no longer exist: the peer has acknowledged all of their
    /// data, or that they were reset.
    pub released: Set<u64>,
    /// The existing streams that the peer has stopped, with a code.
    pub peer_stops: Map<u64, u64>,
    /// What has been received on each stream, up to the first gap, and ordered reads have not read.
    pub unread: Map<u64, Seq<u8>>,
    /// The streams among `recv_ids` of which nothing will be received any more.
    pub over: Set<u64>,
    /// The streams that the peer has reset, with a code.
    pub peer_resets: Map<u64, u64>,
    /// The streams whose end has been read, or that have been stopped.
    pub closed: Set<u64>,
    /// The streams that have been stopped, with a code.
    pub stops: Map<u64, u64>,
    /// The streams that have been read out of order.
    pub unordered: Set<u64>,
    /// The unidirectional streams that the peer has opened and that have not been accepted.
    pub uni_waiting: Seq<u64>,
    /// The bidirectional streams that the peer has opened and that have not been accepted.
    pub bi_waiting: Seq<u64>,
    /// The number of unidirectional streams that the peer may have open.
    pub uni_limit: u64,
    /// The number of bidirectional streams that the peer may have open.
    pub bi_limit: u64,
    /// The datagrams that have been taken over for sending.
    pub datagrams_sent: Seq<Seq<u8>>,
    /// The datagrams that have been received and not been taken.
    pub datagrams_waiting: Seq<Seq<u8>>,
    /// The code and the reason that it was closed with from this side, if it was.
    pub local_close: Option<(u64, Seq<u8>)>,
}

/// The peer of a connection, and the streams and datagrams that it holds.
pub uninterp spec fn engine(connection: Connection) -> EngineView;

/// What a connection tells about itself.
pub struct EngineStatus {
    /// Whether it is closed.
    pub closed: bool,
    /// Whether a unidirectional stream can be opened.
    pub uni_openable: bool,
    /// Whether a bidirectional stream can be opened.
    pub bi_openable: bool,
    /// How many bytes a write takes over at most, for the streams that are not blocked.
    pub room: Map<u64, usize>,
    /// The number of streams that may have data that the peer has not acknowledged.
    pub send_streams: usize,
    /// The number of unidirectional streams that the peer has open.
    pub remote_uni: u64,
    /// The number of bidirectional streams that the peer has open.
    pub remote_bi: u64,
    /// Whether the connection was configured to take datagrams.
    pub datagrams_enabled: bool,
    /// The size of the largest datagram that the peer and the path take, if the peer takes any.
    pub datagram_max_size: Option<usize>,
    /// The size of the largest datagram that the buffer for sending was configured to hold, if it
    /// can hold any.
    pub datagram_limit: Option<usize>,
    /// The size of the largest datagram that there is space for without dropping others, if there
    /// is space for any.
    pub datagram_room: Option<usize>,
}

/// What a connection tells about itself. It changes with what is done with the connection.
pub uninterp spec fn status(connection: Connection) -> EngineStatus;

impl EngineStatus {
    /// Whether a stream of a direction can be opened.
    pub open spec fn openable(self, bidirectional: bool) -> bool {
        if bidirectional {
            self.bi_openable
        } else {
            self.uni_openable
        }
    }

    /// The number of streams of a direction that the peer has open.
    pub open spec fn remote_streams(self, bidirectional: bool) -> u64 {
        if bidirectional {
            self.remote_bi
        } else {
            self.remote_uni
        }
    }

    /// Whether streams can be opened and written as they could be before.
    pub open spec fn sends_as(self, before: EngineStatus) -> bool {
        &&& self.closed == before.closed
        &&& self.uni_openable == before.uni_openable
        &&& self.bi_openable == before.bi_openable
        &&& self.room == before.room
    }

    /// How many of some bytes there is room for on a stream that is not blocked.
    pub open spec fn fitting(self, id: u64, len: nat) -> nat {
        if self.room[id] < len {
            self.room[id] as nat
        } else {
            len
        }
    }

    /// Whether a datagram of a length is within a limit.
    pub open spec fn within(limit: Option<usize>, len: nat) -> bool {
        limit matches Some(limit) && len <= limit
    }

    /// The size of a datagram that can be sent without dropping others.
    pub open spec fn datagram_space(self) -> usize {
        match self.datagram_room {
            Some(room) => room,
            None => 0,
        }
    }

    /// Whether a datagram of a length can be sent, now or when others have been.
    pub open spec fn takes_datagram(self, len: nat) -> bool {
        &&& self.datagrams_enabled
        &&& Self::within(self.datagram_max_size, len)
        &&& Self::within(self.datagram_limit, len)
    }

    /// Whether this is what sending a datagram of a length gives. Older ones are dropped for it, or
    /// it is given back if there is no space.
    pub open spec fn datagram_gives(self, len: nat, drop_old: bool, result: DatagramSend) -> bool {
        let fits = drop_old || Self::within(self.datagram_room, len);
        match result {
            DatagramSend::Disabled => !self.datagrams_enabled,
            DatagramSend::UnsupportedByPeer => self.datagrams_enabled
                && self.datagram_max_size is None,
            DatagramSend::TooLarge => self.datagrams_enabled && self.datagram_max_size is Some
                && !self.takes_datagram(len),
            DatagramSend::Sent => self.takes_datagram(len) && fits,
            DatagramSend::Blocked(_) => self.takes_datagram(len) && !fits,
        }
    }
}

impl EngineView {
    /// Whether there has been no stream with an id.
    pub open spec fn unused(self, id: u64) -> bool {
        &&& !self.send_ids.contains(id)
        &&& !self.recv_ids.contains(id)
        &&& !self.unordered.contains(id)
        &&& !self.closed.contains(id)
        &&& !self.ended(id)
        &&& self.sent_on(id).len() == 0
        &&& self.unread_on(id).len() == 0
        &&& self.priority_of(id) == 0
    }

    /// Whether nothing more can be written on a stream, which was finished or reset.
    pub open spec fn ended(self, id: u64) -> bool {
        self.finished.contains(id) || self.resets.contains_key(id) || self.released.contains(id)
    }

    /// What finishing a stream gives.
    pub open spec fn finish_result(self, id: u64) -> StreamFinish {
        if self.peer_stops.contains_key(id) {
            StreamFinish::Stopped(self.peer_stops[id])
        } else if self.ended(id) {
            StreamFinish::ClosedStream
        } else {
            StreamFinish::Done
        }
    }

    /// The connection after it was asked to finish a stream.
    pub open spec fn finish_asked(self, id: u64) -> EngineView {
        if self.finish_result(id) is Done {
            EngineView { finished: self.finished.insert(id), ..self }
        } else {
            self
        }
    }

    /// Whether a stream is lost to ordered reads: it was read out of order, and its end was not
    /// read.
    pub open spec fn is_lost(self, id: u64) -> bool {
        self.unordered.contains(id) && !self.closed.contains(id)
    }

    /// The connection after an ordered read of a stream that is lost to such reads.
    pub open spec fn lost(self, id: u64) -> EngineView {
        EngineView {
            unread: self.unread.remove(id),
            over: self.over.insert(id),
            closed: self.closed.insert(id),
            ..self
        }
    }

    /// Whether a stream can be reset.
    pub open spec fn can_reset(self, id: u64) -> bool {
        !self.resets.contains_key(id) && !self.released.contains(id)
    }

    /// The connection after it was asked to reset a stream.
    pub open spec fn reset_asked(self, id: u64, code: u64) -> EngineView {
        if self.can_reset(id) {
            EngineView { resets: self.resets.insert(id, code), ..self }
        } else {
            self
        }
    }

    /// The connection after it was asked to stop a stream.
    pub open spec fn stop_asked(self, id: u64, code: u64) -> EngineView {
        EngineView {
            unread: self.unread.remove(id),
            over: self.over.insert(id),
            closed: self.closed.insert(id),
            stops: if self.closed.contains(id) {
                self.stops
            } else {
                self.stops.insert(id, code)
            },
            ..self
        }
    }

    /// The connection after it was asked to close with a code and a reason. Nothing comes of that
    /// if it is closed.
    pub open spec fn close_asked(
        self,
        status: EngineStatus,
        code: u64,
        reason: Seq<u8>,
    ) -> EngineView {
        if status.closed {
            self
        } else {
            EngineView { local_close: Some((code, reason)), ..self }
        }
    }

    /// The code with which the peer stopped a stream, if the stream exists and the peer did.
    pub open spec fn stopped_by_peer(self, id: u64) -> Option<Option<u64>> {
        if self.released.contains(id) {
            None
        } else if self.peer_stops.contains_key(id) {
            Some(Some(self.peer_stops[id]))
        } else {
            Some(None)
        }
    }

    /// The connection with a limit on the streams of a direction that the peer may have open.
    pub open spec fn limited(self, bidirectional: bool, count: u64) -> EngineView {
        if bidirectional {
            EngineView { bi_limit: count, ..self }
        } else {
            EngineView { uni_limit: count, ..self }
        }
    }

    /// Whether data can be written on a stream: not once it was finished, reset or stopped, nor
    /// while it is blocked.
    pub open spec fn takes(self, status: EngineStatus, id: u64) -> bool {
        !self.ended(id) && !self.peer_stops.contains_key(id) && status.room.contains_key(id)
    }

    /// The connection after it was asked to write data on a stream: as much is taken over as there
    /// is room for.
    pub open spec fn write_asked(self, status: EngineStatus, id: u64, data: Seq<u8>) -> EngineView {
        if self.takes(status, id) {
            self.written_on(id, data.take(status.fitting(id, data.len()) as int))
        } else {
            self
        }
    }

    /// What writing some bytes to a stream can give.
    pub open spec fn write_gives(
        self,
        status: EngineStatus,
        id: u64,
        len: nat,
        result: StreamWrite,
    ) -> bool {
        match result {
            StreamWrite::Written(count) => self.takes(status, id) && count == status.fitting(
                id,
                len,
            ),
            StreamWrite::Blocked => !status.room.contains_key(id),
            StreamWrite::Stopped(code) => !self.ended(id) && self.peer_stops.contains_key(id)
                && code == self.peer_stops[id],
            StreamWrite::ClosedStream => self.ended(id),
        }
    }

    /// The priority of a stream.
    pub open spec fn priority_of(self, id: u64) -> i32 {
        if self.priorities.contains_key(id) {
            self.priorities[id]
        } else {
            0
        }
    }

    /// What has been taken over for sending on a stream.
    pub open spec fn sent_on(self, id: u64) -> Seq<u8> {
        if self.sent.contains_key(id) {
            self.sent[id]
        } else {
            Seq::empty()
        }
    }

    /// What has been received on a stream and not been read.
    pub open spec fn unread_on(self, id: u64) -> Seq<u8> {
        if self.unread.contains_key(id) {
            self.unread[id]
        } else {
            Seq::empty()
        }
    }

    /// The connection after bytes at the front of a stream have been read.
    pub open spec fn read_on(self, id: u64, count: int) -> EngineView {
        EngineView { unread: self.unread.insert(id, self.unread_on(id).skip(count)), ..self }
    }

    /// The connection after more has been taken over for sending on a stream.
    pub open spec fn written_on(self, id: u64, data: Seq<u8>) -> EngineView {
        EngineView { sent: self.sent.insert(id, self.sent_on(id) + data), ..self }
    }

    /// The connection with one more stream that was opened.
    pub open spec fn opened(self, id: u64, bidirectional: bool) -> EngineView {
        EngineView {
            send_ids: self.send_ids.insert(id),
            recv_ids: if bidirectional {
                self.recv_ids.insert(id)
            } else {
                self.recv_ids
            },
            ..self
        }
    }

    /// The streams of a direction that wait to be accepted.
    pub open spec fn waiting(self, bidirectional: bool) -> Seq<u64> {
        if bidirectional {
            self.bi_waiting
        } else {
            self.uni_waiting
        }
    }

    /// The connection after the first waiting stream of a direction has been accepted, which is
    /// over or not.
    pub open spec fn accepted(self, bidirectional: bool, over: bool) -> EngineView {
        let id = self.waiting(bidirectional)[0];
        let known = EngineView {
            recv_ids: self.recv_ids.insert(id),
            over: if over {
                self.over.insert(id)
            } else {
                self.over
            },
            ..self
        };
        if bidirectional {
            EngineView {
                send_ids: self.send_ids.insert(id),
                bi_waiting: self.bi_waiting.skip(1),
                ..known
            }
        } else {
            EngineView { uni_waiting: self.uni_waiting.skip(1), ..known }
        }
    }
}

/// What a read of a stream gives.
#[derive(Debug)]
pub enum StreamRead {
    /// Data, and its offset in the stream.
    Chunk { offset: u64, data: Bytes },
    /// No more data is available yet.
    Blocked,
    /// The peer reset the stream with a code.
    Reset(u64),
    /// The stream is finished.
    Finished,
    /// The stream has been closed and no longer exists.
    ClosedStream,
    /// An ordered read was attempted after an unordered read.
    IllegalOrderedRead,
}

/// What a read of a stream gives, with the bytes of a chunk.
pub enum StreamReadView {
    Chunk { offset: u64, data: Seq<u8> },
    Blocked,
    Reset(u64),
    Finished,
    ClosedStream,
    IllegalOrderedRead,
}

impl View for StreamRead {
    type V = StreamReadView;

    open spec fn view(&self) -> StreamReadView {
        match self {
            StreamRead::Chunk { offset, data } => StreamReadView::Chunk {
                offset: *offset,
                data: chunk(*data),
            },
            StreamRead::Blocked => StreamReadView::Blocked,
            StreamRead::Reset(code) => StreamReadView::Reset(*code),
            StreamRead::Finished => StreamReadView::Finished,
            StreamRead::ClosedStream => StreamReadView::ClosedStream,
            StreamRead::IllegalOrderedRead => StreamReadView::IllegalOrderedRead,
        }
    }
}

/// What a write to a stream gives.
#[derive(Debug, Clone, Copy, PartialEq, Eq, Structural)]
pub enum StreamWrite {
    /// The number of bytes written.
    Written(usize),
    /// Nothing can be written at present.
    Blocked,
    /// The peer stopped the stream with a code.
    Stopped(u64),
    /// The stream has been closed and no longer exists.
    ClosedStream,
}

/// What finishing a stream gives.
#[derive(Debug, Clone, Copy, PartialEq, Eq, Structural)]
pub enum StreamFinish {
    Done,
    /// The peer stopped the stream with a code.
    Stopped(u64),
    /// The stream has been closed and no longer exists.
    ClosedStream,
}

/// What sending a datagram gives.
#[derive(Debug)]
pub enum DatagramSend {
    Sent,
    /// There is no space without dropping older datagrams. Gives back the datagram.
    Blocked(Bytes),
    /// Datagrams are not supported by the peer.
    UnsupportedByPeer,
    /// Datagrams are disabled locally.
    Disabled,
    /// The datagram is too large.
    TooLarge,
}

/// What a read of a stream does: it touches that stream only, and if it is ordered, it gives what
/// has been received, then says once how the stream ended if it is over. A stream that was read out
/// of order is lost to ordered reads.
pub open spec fn read_effect(
    before: EngineView,
    after: EngineView,
    id: u64,
    max_size: usize,
    ordered: bool,
    result: StreamRead,
) -> bool {
    let lost = result is IllegalOrderedRead;
    &&& after == (EngineView {
        unread: after.unread,
        over: if lost {
            before.over.insert(id)
        } else {
            before.over
        },
        closed: if lost || result is Reset || result is Finished {
            before.closed.insert(id)
        } else {
            before.closed
        },
        unordered: if ordered {
            before.unordered
        } else {
            before.unordered.insert(id)
        },
        ..before
    })
    &&& after.unread.remove(id) == before.unread.remove(id)
    &&& result is ClosedStream <==> before.closed.contains(id)
    &&& lost <==> ordered && before.unordered.contains(id) && !before.closed.contains(id)
    &&& match result {
        StreamRead::Chunk { offset, data } => {
            &&& chunk(data).len() <= max_size
            &&& max_size > 0 ==> chunk(data).len() > 0
        },
        StreamRead::Reset(code) => {
            &&& before.over.contains(id)
            &&& before.peer_resets.contains_key(id)
            &&& code == before.peer_resets[id]
        },
        StreamRead::Finished => before.over.contains(id) && !before.peer_resets.contains_key(id),
        _ => true,
    }
    &&& ordered ==> match result {
        StreamRead::Chunk { offset, data } => {
            &&& before.unread_on(id).len() > 0
            &&& chunk(data).is_prefix_of(before.unread_on(id))
            &&& after == before.read_on(id, chunk(data).len() as int)
        },
        StreamRead::Blocked => {
            &&& before.unread_on(id).len() == 0
            &&& !before.over.contains(id)
            &&& after == before
        },
        StreamRead::Reset(_) | StreamRead::Finished => {
            &&& before.unread_on(id).len() == 0
            &&& after.unread == before.unread
        },
        StreamRead::ClosedStream => {
            &&& before.unread_on(id).len() == 0
            &&& before.over.contains(id)
            &&& after == before
        },
        StreamRead::IllegalOrderedRead => after.unread == before.unread.remove(id),
    }
}

/// `Streams::open`, which opens a stream if the peer allows it, under an id that has not been used.
/// When the peer allows it is not claimed. If it does not, nothing is done.
#[verifier::external_body]
pub(crate) fn open_stream(connection: &mut Connection, bidirectional: bool) -> (id: Option<u64>)
    ensures
        id is Some <==> status(*old(connection)).openable(bidirectional),
        match id {
            Some(id) => engine(*old(connection)).unused(id) && engine(*final(connection))
                == engine(*old(connection)).opened(id, bidirectional),
            None => *final(connection) == *old(connection),
        },
{
    let dir = if bidirectional { Dir::Bi } else { Dir::Uni };
    connection.streams().open(dir).map(u64::from)
}

/// `Streams::accept`, which takes the first stream of a direction that the peer has opened, and
/// that has not been accepted or read before. Whether the stream is over is not claimed. What can
/// be opened and written is not affected.
#[verifier::external_body]
pub(crate) fn accept_stream(connection: &mut Connection, bidirectional: bool) -> (id: Option<u64>)
    ensures
        match id {
            Some(id) => {
                let before = engine(*old(connection));
                let after = engine(*final(connection));
                &&& before.waiting(bidirectional).len() > 0
                &&& id == before.waiting(bidirectional)[0]
                &&& !before.recv_ids.contains(id)
                &&& !before.unordered.contains(id)
                &&& !before.closed.contains(id)
                &&& after == before.accepted(bidirectional, after.over.contains(id))
            },
            None => engine(*old(connection)).waiting(bidirectional).len() == 0 && engine(
                *final(connection),
            ) == engine(*old(connection)),
        },
        status(*final(connection)).sends_as(status(*old(connection))),
{
    let dir = if bidirectional { Dir::Bi } else { Dir::Uni };
    connection.streams().accept(dir).map(u64::from)
}

/// `SendStream::write`, which takes over data from the front for sending, as much as there is room
/// for, unless the stream was finished, reset or stopped. How much room there is depends on the
/// peer, and is not claimed. It panics on a stream that cannot be written.
#[verifier::external_body]
pub(crate) fn write_stream(connection: &mut Connection, id: u64, data: &[u8]) -> (result:
    StreamWrite)
    requires
        engine(*old(connection)).send_ids.contains(id),
    ensures
        engine(*old(connection)).write_gives(status(*old(connection)), id, data@.len(), result),
        engine(*final(connection)) == engine(*old(connection)).write_asked(
            status(*old(connection)),
            id,
            data@,
        ),
        result is Blocked ==> status(*final(connection)) == status(*old(connection)),
{
    let id = quinn_proto::StreamId::from(VarInt::from_u64(id).unwrap());
    match connection.send_stream(id).write(data) {
        Ok(count) => StreamWrite::Written(count),
        Err(WriteError::Blocked) => StreamWrite::Blocked,
        Err(WriteError::Stopped(code)) => StreamWrite::Stopped(code.into_inner()),
        Err(WriteError::ClosedStream) => StreamWrite::ClosedStream,
    }
}

/// What `RecvStream::read` and `Chunks::next` give of a stream when reads are not ordered: some of
/// what has been received, wherever in the stream that is, and how it ended after all of it.
pub uninterp spec fn unordered_read(connection: Connection, id: u64, max_size: usize)
    -> StreamReadView;

/// `RecvStream::read` and `Chunks::next`, which read from the front of a stream at most `max_size`
/// bytes, or from anywhere in it if reads are not ordered. What is left to read of a stream is not
/// claimed after such a read. An ordered read of a stream that was read out of order drops the
/// stream. What can be opened and written is not affected. It panics on a stream that cannot be
/// read.
#[verifier::external_body]
pub(crate) fn read_stream(
    connection: &mut Connection,
    id: u64,
    max_size: usize,
    ordered: bool,
) -> (result: StreamRead)
    requires
        engine(*old(connection)).recv_ids.contains(id),
    ensures
        read_effect(
            engine(*old(connection)),
            engine(*final(connection)),
            id,
            max_size,
            ordered,
            result,
        ),
        !ordered ==> result@ == unordered_read(*old(connection), id, max_size),
        status(*final(connection)).sends_as(status(*old(connection))),
{
    let id = quinn_proto::StreamId::from(VarInt::from_u64(id).unwrap());
    let mut stream = connection.recv_stream(id);
    let mut chunks = match stream.read(ordered) {
        Ok(chunks) => chunks,
        Err(ReadableError::ClosedStream) => return StreamRead::ClosedStream,
        Err(ReadableError::IllegalOrderedRead) => return StreamRead::IllegalOrderedRead,
    };
    match chunks.next(max_size) {
        Ok(Some(chunk)) => StreamRead::Chunk { offset: chunk.offset, data: chunk.bytes },
        Ok(None) => StreamRead::Finished,
        Err(ReadError::Blocked) => StreamRead::Blocked,
        Err(ReadError::Reset(code)) => StreamRead::Reset(code.into_inner()),
    }
}

/// `SendStream::finish`, which says that no more data will be sent on a stream. Fails if the peer
/// stopped it, or if it was finished or reset. It panics on a stream that cannot be written.
#[verifier::external_body]
pub(crate) fn finish_stream(connection: &mut Connection, id: u64) -> (result: StreamFinish)
    requires
        engine(*old(connection)).send_ids.contains(id),
    ensures
        result == engine(*old(connection)).finish_result(id),
        engine(*final(connection)) == engine(*old(connection)).finish_asked(id),
{
    let id = quinn_proto::StreamId::from(VarInt::from_u64(id).unwrap());
    match connection.send_stream(id).finish() {
        Ok(()) => StreamFinish::Done,
        Err(FinishError::Stopped(code)) => StreamFinish::Stopped(code.into_inner()),
        Err(FinishError::ClosedStream) => StreamFinish::ClosedStream,
    }
}

/// `SendStream::reset`, which abandons a stream. Fails if that was done before, or if the stream no
/// longer exists. It panics on a stream that cannot be written.
#[verifier::external_body]
pub(crate) fn reset_stream(connection: &mut Connection, id: u64, code: u64) -> (done: bool)
    requires
        code < INTEGER_BOUND,
        engine(*old(connection)).send_ids.contains(id),
    ensures
        done == engine(*old(connection)).can_reset(id),
        engine(*final(connection)) == engine(*old(connection)).reset_asked(id, code),
{
    let id = quinn_proto::StreamId::from(VarInt::from_u64(id).unwrap());
    let code = VarInt::from_u64(code).unwrap();
    connection.send_stream(id).reset(code).is_ok()
}

/// `RecvStream::stop`, which discards what has been received on a stream, and what will be. Fails
/// if its end has been read, or if it was stopped before. It panics on a stream that cannot be
/// read.
#[verifier::external_body]
pub(crate) fn stop_stream(connection: &mut Connection, id: u64, code: u64) -> (done: bool)
    requires
        code < INTEGER_BOUND,
        engine(*old(connection)).recv_ids.contains(id),
    ensures
        done == !engine(*old(connection)).closed.contains(id),
        engine(*final(connection)) == engine(*old(connection)).stop_asked(id, code),
{
    let id = quinn_proto::StreamId::from(VarInt::from_u64(id).unwrap());
    let code = VarInt::from_u64(code).unwrap();
    connection.recv_stream(id).stop(code).is_ok()
}

/// `Datagrams::send`, which takes over a datagram for sending if the peer takes it and there is
/// space, or older ones may be dropped. One that is blocked is given back. It fails if the
/// configuration of the connection has no datagrams, if the peer takes none, or if the datagram is
/// larger than the peer, the path or the buffer takes.
#[verifier::external_body]
pub(crate) fn send_datagram(connection: &mut Connection, data: Bytes, drop_old: bool) -> (result:
    DatagramSend)
    ensures
        status(*old(connection)).datagram_gives(chunk(data).len(), drop_old, result),
        result matches DatagramSend::Blocked(back) ==> chunk(back) == chunk(data),
        engine(*final(connection)) == if result is Sent {
            EngineView {
                datagrams_sent: engine(*old(connection)).datagrams_sent.push(chunk(data)),
                ..engine(*old(connection))
            }
        } else {
            engine(*old(connection))
        },
{
    match connection.datagrams().send(data, drop_old) {
        Ok(()) => DatagramSend::Sent,
        Err(quinn_proto::SendDatagramError::Blocked(data)) => DatagramSend::Blocked(data),
        Err(quinn_proto::SendDatagramError::UnsupportedByPeer) => DatagramSend::UnsupportedByPeer,
        Err(quinn_proto::SendDatagramError::Disabled) => DatagramSend::Disabled,
        Err(quinn_proto::SendDatagramError::TooLarge) => DatagramSend::TooLarge,
    }
}

/// `Datagrams::recv`, which takes the first datagram that was received.
#[verifier::external_body]
pub(crate) fn receive_datagram(connection: &mut Connection) -> (datagram: Option<Bytes>)
    ensures
        match datagram {
            Some(datagram) => {
                let before = engine(*old(connection));
                &&& before.datagrams_waiting.len() > 0
                &&& chunk(datagram) == before.datagrams_waiting[0]
                &&& engine(*final(connection)) == (EngineView {
                    datagrams_waiting: before.datagrams_waiting.skip(1),
                    ..before
                })
            },
            None => engine(*old(connection)).datagrams_waiting.len() == 0 && engine(
                *final(connection),
            ) == engine(*old(connection)),
        },
{
    connection.datagrams().recv()
}

/// `Streams::send_streams`, the number of streams that may have data that the peer has not
/// acknowledged.
#[verifier::external_body]
pub(crate) fn open_send_streams(connection: &mut Connection) -> (count: usize)
    ensures
        count == status(*old(connection)).send_streams,
        engine(*final(connection)) == engine(*old(connection)),
        status(*final(connection)) == status(*old(connection)),
{
    connection.streams().send_streams()
}

/// `Connection::remote_address`, the address of the peer, as a text.
#[verifier::external_body]
pub(crate) fn remote_address(connection: &Connection) -> (address: String)
    ensures
        address@ == engine(*connection).remote_address,
{
    connection.remote_address().to_string()
}

/// `SendStream::set_priority`, which sets the priority of a stream. Fails if it no longer exists.
/// It panics on a stream that cannot be written.
#[verifier::external_body]
pub(crate) fn set_priority(connection: &mut Connection, id: u64, priority: i32) -> (done: bool)
    requires
        engine(*old(connection)).send_ids.contains(id),
    ensures
        done == !engine(*old(connection)).released.contains(id),
        engine(*final(connection)) == if done {
            EngineView {
                priorities: engine(*old(connection)).priorities.insert(id, priority),
                ..engine(*old(connection))
            }
        } else {
            engine(*old(connection))
        },
{
    let id = quinn_proto::StreamId::from(VarInt::from_u64(id).unwrap());
    connection.send_stream(id).set_priority(priority).is_ok()
}

/// `SendStream::priority`, the priority of a stream, which is 0 unless it was set. Fails if it no
/// longer exists. It panics on a stream that cannot be written.
#[verifier::external_body]
pub(crate) fn priority(connection: &mut Connection, id: u64) -> (priority: Option<i32>)
    requires
        engine(*old(connection)).send_ids.contains(id),
    ensures
        engine(*final(connection)) == engine(*old(connection)),
        status(*final(connection)) == status(*old(connection)),
        priority == if engine(*old(connection)).released.contains(id) {
            None
        } else {
            Some(engine(*old(connection)).priority_of(id))
        },
{
    let id = quinn_proto::StreamId::from(VarInt::from_u64(id).unwrap());
    connection.send_stream(id).priority().ok()
}

/// `SendStream::stopped`, the code with which the peer stopped a stream, if it did. Fails if it
/// no longer exists. It panics on a stream that cannot be written.
#[verifier::external_body]
pub(crate) fn stopped(connection: &mut Connection, id: u64) -> (code: Option<Option<u64>>)
    requires
        engine(*old(connection)).send_ids.contains(id),
    ensures
        engine(*final(connection)) == engine(*old(connection)),
        status(*final(connection)) == status(*old(connection)),
        code == engine(*old(connection)).stopped_by_peer(id),
{
    let id = quinn_proto::StreamId::from(VarInt::from_u64(id).unwrap());
    let code = connection.send_stream(id).stopped().ok()?;
    Some(code.map(|code| code.into_inner()))
}

/// `Streams::remote_open_streams`, the number of streams of a direction that the peer has open.
#[verifier::external_body]
pub(crate) fn remote_open_streams(connection: &mut Connection, bidirectional: bool) -> (count: u64)
    ensures
        count == status(*old(connection)).remote_streams(bidirectional),
        engine(*final(connection)) == engine(*old(connection)),
        status(*final(connection)) == status(*old(connection)),
{
    let dir = if bidirectional { Dir::Bi } else { Dir::Uni };
    connection.streams().remote_open_streams(dir)
}

/// `Connection::set_max_concurrent_streams`, which limits the number of streams of a direction that
/// the peer may have open.
#[verifier::external_body]
pub(crate) fn set_max_concurrent(connection: &mut Connection, bidirectional: bool, count: u64)
    requires
        count < INTEGER_BOUND,
    ensures
        engine(*final(connection)) == engine(*old(connection)).limited(bidirectional, count),
{
    let dir = if bidirectional { Dir::Bi } else { Dir::Uni };
    connection.set_max_concurrent_streams(dir, VarInt::from_u64(count).unwrap())
}

/// `Connection::is_closed`, whether a connection is closed.
#[verifier::external_body]
pub(crate) fn is_closed(connection: &Connection) -> (closed: bool)
    ensures
        closed == status(*connection).closed,
{
    connection.is_closed()
}

/// `Datagrams::max_size`, the size of the largest datagram that can be sent at present, if any can.
#[verifier::external_body]
pub(crate) fn datagram_max_size(connection: &mut Connection) -> (size: Option<usize>)
    ensures
        size == status(*old(connection)).datagram_max_size,
        engine(*final(connection)) == engine(*old(connection)),
        status(*final(connection)) == status(*old(connection)),
{
    connection.datagrams().max_size()
}

/// `Datagrams::send_buffer_space`, the size of a datagram that can be sent without dropping others.
#[verifier::external_body]
pub(crate) fn datagram_buffer_space(connection: &mut Connection) -> (space: usize)
    ensures
        space == status(*old(connection)).datagram_space(),
        engine(*final(connection)) == engine(*old(connection)),
        status(*final(connection)) == status(*old(connection)),
{
    connection.datagrams().send_buffer_space()
}

} // verus!
