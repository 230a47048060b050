//! Streams that start with a header, which says what they are for.
use super::connection::{
    chunk_view, read_result, write_result, ClosedStreamError, ConnectionState, StreamId,
    StreamReadError, StreamWriteError,
};
use crate::keys::keys_of;
use crate::quic::engine::{
    engine, read_effect, status, EngineStatus, EngineView, StreamRead, StreamWrite,
};
use crate::quic::event::Direction;
use crate::quic::streams::{accept_all, both_accepted};
use quinn_proto::Connection;
use std::collections::hash_map::Entry;
use std::collections::HashMap;
use vstd::prelude::*;
use vstd::slice::slice_subrange;

verus! {

broadcast use vstd::std_specs::hash::group_hash_axioms;

/// Collects the two bytes of an integer.
pub struct U16Reader {
    buffer: Vec<u8>,
}

impl View for U16Reader {
    type V = Seq<u8>;

    closed spec fn view(&self) -> Seq<u8> {
        self.buffer@
    }
}

/// The integer of two bytes, most significant first.
pub open spec fn u16_value(bytes: Seq<u8>) -> u16 {
    (bytes[0] as u16 * 256 + bytes[1] as u16) as u16
}

/// The two bytes of an integer, most significant first.
pub open spec fn u16_bytes(value: u16) -> Seq<u8> {
    seq![(value / 256) as u8, (value % 256) as u8]
}

/// The start of `data` that a reader takes which has some bytes.
pub open spec fn u16_taken(buffer: Seq<u8>, data: Seq<u8>) -> Seq<u8> {
    if data.len() > 2 - buffer.len() {
        data.take(2 - buffer.len())
    } else {
        data
    }
}

impl Default for U16Reader {
    /// A reader that has received nothing.
    fn default() -> (reader: Self)
        ensures
            reader.wf(),
            reader@ == Seq::<u8>::empty(),
    {
        U16Reader { buffer: Vec::new() }
    }
}

impl U16Reader {
    /// At most two bytes have been received.
    pub open spec fn wf(self) -> bool {
        self@.len() <= 2
    }

    /// Creates a reader that has received nothing.
    pub fn new() -> (reader: Self)
        ensures
            reader.wf(),
            reader@ == Seq::<u8>::empty(),
    {
        U16Reader { buffer: Vec::new() }
    }

    /// The number of bytes that are missing.
    pub fn bytes_needed(&self) -> (needed: usize)
        requires
            self.wf(),
        ensures
            needed == 2 - self@.len(),
    {
        2 - self.buffer.len()
    }

    /// Takes the bytes that are missing from the start of `data`.
    pub fn write(&mut self, data: &[u8])
        requires
            old(self).wf(),
        ensures
            final(self).wf(),
            final(self)@ == old(self)@ + u16_taken(old(self)@, data@),
    {
        let needed: usize = self.bytes_needed();
        let taken = if data.len() > needed {
            slice_subrange(data, 0, needed)
        } else {
            data
        };
        assert(taken@ =~= u16_taken(old(self)@, data@));
        self.buffer.extend_from_slice(taken);
        assert(self.buffer@ =~= old(self)@ + taken@);
    }

    /// The integer, if both bytes have been received.
    pub fn finish(&self) -> (value: Option<u16>)
        requires
            self.wf(),
        ensures
            value == if self@.len() == 2 {
                Some(u16_value(self@))
            } else {
                None
            },
    {
        if self.buffer.len() == 2 {
            Some(self.buffer[0] as u16 * 256 + self.buffer[1] as u16)
        } else {
            None
        }
    }
}

/// Reading the bytes of an integer gives back the integer.
pub proof fn u16_round_trip(value: u16)
    ensures
        u16_bytes(value).len() == 2,
        u16_value(u16_bytes(value)) == value,
{
}

/// Writing `first` and then `second` to a reader is writing `first + second`: how the bytes of an
/// integer are cut into chunks does not matter.
pub proof fn u16_in_parts(buffer: Seq<u8>, first: Seq<u8>, second: Seq<u8>)
    requires
        buffer.len() <= 2,
    ensures
        ({
            let middle = buffer + u16_taken(buffer, first);
            middle + u16_taken(middle, second) == buffer + u16_taken(buffer, first + second)
        }),
{
    let middle = buffer + u16_taken(buffer, first);
    assert(middle + u16_taken(middle, second) =~= buffer + u16_taken(buffer, first + second));
}

/// How far the header of a stream has been read.
pub enum RecvStreamHeaderState {
    Reading { dir: Direction, buffer: U16Reader },
    HeaderReceived { dir: Direction, header: u16 },
}

/// What has been read of the header of a stream.
pub enum HeaderView {
    Reading { dir: Direction, received: Seq<u8> },
    Received { dir: Direction, header: u16 },
}

impl View for RecvStreamHeaderState {
    type V = HeaderView;

    open spec fn view(&self) -> HeaderView {
        match self {
            RecvStreamHeaderState::Reading { dir, buffer } => HeaderView::Reading {
                dir: *dir,
                received: buffer@,
            },
            RecvStreamHeaderState::HeaderReceived { dir, header } => HeaderView::Received {
                dir: *dir,
                header: *header,
            },
        }
    }
}

impl HeaderView {
    /// The header is not complete.
    pub open spec fn wf(self) -> bool {
        self matches HeaderView::Reading { received, .. } ==> received.len() < 2
    }

    /// The number of bytes that are missing.
    pub open spec fn missing(self) -> nat {
        match self {
            HeaderView::Reading { received, .. } => (2 - received.len()) as nat,
            HeaderView::Received { .. } => 0,
        }
    }

    /// What has been read of the header after more bytes.
    pub open spec fn advanced(self, data: Seq<u8>) -> HeaderView {
        match self {
            HeaderView::Reading { dir, received } => if data.len() < 2 - received.len() {
                HeaderView::Reading { dir, received: received + data }
            } else {
                HeaderView::Received {
                    dir,
                    header: u16_value(received + data.take(2 - received.len())),
                }
            },
            HeaderView::Received { .. } => self,
        }
    }

    /// The number of bytes that are read of a stream that has received some.
    pub open spec fn taken(self, unread: Seq<u8>) -> nat {
        if unread.len() < self.missing() {
            unread.len()
        } else {
            self.missing()
        }
    }
}

/// Incoming streams whose headers are being read or that are ready to be used.
///
/// Use [`RecvStreamHeaders::take_stream`] to retrieve a stream that has received a header.
pub struct RecvStreamHeaders {
    pub buffers: HashMap<u64, RecvStreamHeaderState>,
}

/// What has been read of the headers of streams.
pub open spec fn header_views(buffers: Map<u64, RecvStreamHeaderState>) -> Map<u64, HeaderView> {
    buffers.map_values(|state: RecvStreamHeaderState| state@)
}

/// Whether a stream is known to the connection, so that it can be read in order.
pub open spec fn can_read(held: EngineView, id: u64) -> bool {
    held.recv_ids.contains(id) && !held.unordered.contains(id)
}

/// What reading the header of a stream does: it is read as far as it has been received.
pub open spec fn header_read(
    before: (HeaderView, EngineView),
    after: (HeaderView, EngineView),
    id: u64,
) -> bool {
    let unread = before.1.unread_on(id);
    let taken = before.0.taken(unread) as int;
    &&& after.0 == before.0.advanced(unread.take(taken))
    &&& after.1.unread_on(id) == unread.skip(taken)
}

/// Whether nothing but a stream has been read, with its end or not.
pub open spec fn only_read(before: EngineView, after: EngineView, id: u64, ended: bool) -> bool {
    &&& after == (EngineView {
        unread: after.unread,
        closed: if ended {
            before.closed.insert(id)
        } else {
            before.closed
        },
        ..before
    })
    &&& forall|other: u64| other != id ==> #[trigger] after.unread_on(other) == before.unread_on(
        other,
    )
}

/// Reads the header of a stream as far as it has been received. Fails on a stream that is over
/// before its header, with what there is of it.
fn read_header(
    state: &mut RecvStreamHeaderState,
    stream: StreamId,
    connection: &mut ConnectionState,
) -> (result: Result<(), StreamReadError>)
    requires
        old(connection).wf(),
        can_read(old(connection).engine(), stream.0),
        old(state)@.wf(),
    ensures
        final(connection).wf(),
        final(connection).same_flags(*old(connection)),
        final(state)@.wf(),
        only_read(
            old(connection).engine(),
            final(connection).engine(),
            stream.0,
            result is Err,
        ),
        header_read(
            (old(state)@, old(connection).engine()),
            (final(state)@, final(connection).engine()),
            stream.0,
        ),
        match result {
            Ok(_) => final(state)@ is Reading ==> !old(connection).engine().over.contains(stream.0),
            Err(error) => error == StreamReadError::ClosedStream(ClosedStreamError) && old(
                connection,
            ).engine().over.contains(stream.0) && old(connection).engine().unread_on(
                stream.0,
            ).len() < old(state)@.missing(),
        },
{
    let ghost before = connection.engine();
    let ghost start = state@;
    let ghost unread = before.unread_on(stream.0);
    let ghost mut n: int = 0;
    let ghost mut ended: bool = false;
    proof {
        assert(unread.skip(0) =~= unread);
        assert(unread.take(0) =~= Seq::empty());
        if let HeaderView::Reading { dir, received } = start {
            assert(received + Seq::<u8>::empty() =~= received);
        }
    }
    loop
        invariant
            connection.wf(),
            connection.same_flags(*old(connection)),
            before == old(connection).engine(),
            start == old(state)@,
            start.wf(),
            state@.wf(),
            unread == before.unread_on(stream.0),
            can_read(before, stream.0),
            0 <= n <= unread.len(),
            n <= start.missing(),
            state@ == start.advanced(unread.take(n)),
            state@.missing() == start.missing() - n,
            connection.engine().unread_on(stream.0) == unread.skip(n),
            only_read(before, connection.engine(), stream.0, ended),
            ended ==> before.over.contains(stream.0) && n == unread.len() && state@ is Reading,
        decreases
                unread.len() - n,
                if ended {
                    0int
                } else {
                    1
                },
    {
        let (dir, needed) = match state {
            RecvStreamHeaderState::HeaderReceived { .. } => {
                return Ok(());
            },
            RecvStreamHeaderState::Reading { dir, buffer } => (*dir, buffer.bytes_needed()),
        };
        let ghost current = connection.engine();
        let result = connection.read_recv_stream(stream, needed, true);
        proof {
            let raw = choose|raw: StreamRead| #[trigger]
                read_effect(current, connection.engine(), stream.0, needed, true, raw)
                    && chunk_view(result) == read_result(raw);
            assert forall|other: u64| other != stream.0 implies #[trigger] connection.engine()
                .unread_on(other) == before.unread_on(other) by {
                crate::quic::connection::lemma_removed_same(
                    current.unread,
                    connection.engine().unread,
                    stream.0,
                    other,
                );
                assert(current.unread_on(other) == before.unread_on(other));
            }
        }
        match result {
            Ok(Some(chunk)) => {
                let data = chunk.data;
                proof {
                    assert(unread.skip(n).skip(data@.len() as int) =~= unread.skip(
                        n + data@.len(),
                    ));
                    assert(unread.take(n + data@.len()) =~= unread.take(n) + data@);
                }
                let header = match state {
                    RecvStreamHeaderState::HeaderReceived { .. } => None,
                    RecvStreamHeaderState::Reading { dir, buffer } => {
                        let ghost received = buffer@;
                        buffer.write(data.as_slice());
                        assert(u16_taken(received, data@) =~= data@);
                        buffer.finish()
                    },
                };
                if let Some(header) = header {
                    *state = RecvStreamHeaderState::HeaderReceived { dir, header };
                }
                proof {
                    let received = start->received;
                    assert((received + unread.take(n)) + data@ =~= received + unread.take(
                        n + data@.len(),
                    ));
                    n = n + data@.len();
                    assert(unread.take(n).take(n) =~= unread.take(n));
                }
            },
            Ok(None) => {
                proof {
                    ended = true;
                }
            },
            Err(StreamReadError::Blocked) => {
                assert(unread.take(n) =~= unread);
                return Ok(());
            },
            Err(StreamReadError::Reset(_)) => {
                proof {
                    ended = true;
                }
            },
            Err(error) => {
                proof {
                    assert(unread.take(n) =~= unread);
                    assert(unread.skip(n) =~= Seq::empty());
                    assert(before.closed.insert(stream.0).insert(stream.0) =~= before.closed.insert(
                        stream.0,
                    ));
                    if !ended {
                        assert(before.closed.insert(stream.0) =~= before.closed);
                    }
                }
                return Err(error);
            },
        }
    }
}

/// The headers with streams that have been accepted, of which nothing has been read.
pub open spec fn with_accepted(
    headers: Map<u64, HeaderView>,
    ids: Seq<u64>,
    dir: Direction,
) -> Map<u64, HeaderView>
    decreases ids.len(),
{
    if ids.len() == 0 {
        headers
    } else {
        with_accepted(headers, ids.drop_last(), dir).insert(
            ids.last(),
            HeaderView::Reading { dir, received: Seq::empty() },
        )
    }
}

/// What reading a header comes to: what has been read of it, and what is left of the stream.
pub open spec fn header_progress(
    before: (HeaderView, Seq<u8>),
    after: (HeaderView, Seq<u8>),
) -> bool {
    let taken = before.0.taken(before.1) as int;
    &&& after.0 == before.0.advanced(before.1.take(taken))
    &&& after.1 == before.1.skip(taken)
}

/// Whether a stream is over before its header.
pub open spec fn cut_short(
    headers: Map<u64, HeaderView>,
    held: (EngineView, EngineView),
    id: u64,
) -> bool {
    &&& headers.contains_key(id)
    &&& held.1.over.contains(id)
    &&& held.0.unread_on(id).len() < headers[id].missing()
}

impl Default for RecvStreamHeaders {
    /// No streams.
    fn default() -> (headers: Self)
        ensures
            headers@ == Map::<u64, HeaderView>::empty(),
    {
        let headers = RecvStreamHeaders { buffers: HashMap::new() };
        assert(headers@ =~= Map::empty());
        headers
    }
}

impl View for RecvStreamHeaders {
    type V = Map<u64, HeaderView>;

    open spec fn view(&self) -> Map<u64, HeaderView> {
        header_views(self.buffers@)
    }
}

/// Whether headers are consistent, and belong to streams of a connection that can be read.
pub open spec fn headers_wf(headers: Map<u64, HeaderView>, held: EngineView) -> bool {
    forall|id: u64| #[trigger]
        headers.contains_key(id) ==> headers[id].wf() && can_read(held, id)
}

impl RecvStreamHeaders {
    /// Adds streams that have been accepted.
    fn add_streams(&mut self, ids: &Vec<u64>, dir: Direction)
        ensures
            final(self)@ == with_accepted(old(self)@, ids@, dir),
    {
        let mut i: usize = 0;
        assert(ids@.take(0) =~= Seq::empty());
        while i < ids.len()
            invariant
                i <= ids@.len(),
                self@ == with_accepted(old(self)@, ids@.take(i as int), dir),
            decreases ids@.len() - i,
        {
            let ghost before = self@;
            let id: u64 = ids[i];
            self.buffers.insert(
                id,
                RecvStreamHeaderState::Reading { dir, buffer: U16Reader::new() },
            );
            proof {
                assert(ids@.take(i + 1).drop_last() =~= ids@.take(i as int));
                assert(self@ =~= before.insert(
                    id,
                    HeaderView::Reading { dir, received: Seq::empty() },
                ));
            }
            i = i + 1;
        }
        assert(ids@.take(i as int) =~= ids@);
    }

    /// Accepts all streams that the peer has opened, and reads their headers as far as they have
    /// been received. Fails if a stream is over before its header.
    pub fn read_stream_headers(&mut self, connection: &mut ConnectionState) -> (result: Result<
        (),
        StreamReadError,
    >)
        requires
            old(connection).wf(),
            headers_wf(old(self)@, old(connection).engine()),
        ensures
            final(connection).wf(),
            final(connection).same_flags(*old(connection)),
            headers_wf(final(self)@, final(connection).engine()),
            ({
                let before = old(connection).engine();
                let after = final(connection).engine();
                let accepted = with_accepted(
                    with_accepted(old(self)@, before.uni_waiting, Direction::Uni),
                    before.bi_waiting,
                    Direction::Bi,
                );
                &&& both_accepted(
                    before,
                    EngineView { unread: before.unread, closed: before.closed, ..after },
                )
                &&& forall|id: u64|
                    !accepted.contains_key(id) ==> #[trigger] after.unread_on(id)
                        == before.unread_on(id)
                &&& final(self)@.dom() == accepted.dom()
                &&& result is Err <==> exists|id: u64| #[trigger]
                    cut_short(accepted, (before, after), id)
                &&& match result {
                    Ok(_) => {
                        &&& after.closed == before.closed
                        &&& forall|id: u64| #[trigger]
                            accepted.contains_key(id) ==> header_progress(
                                (accepted[id], before.unread_on(id)),
                                (final(self)@[id], after.unread_on(id)),
                            )
                    },
                    Err(error) => {
                        &&& error == StreamReadError::ClosedStream(ClosedStreamError)
                        &&& exists|failed: u64| #[trigger]
                            cut_short(accepted, (before, after), failed) && after.closed
                                == before.closed.insert(failed) && header_progress(
                                (accepted[failed], before.unread_on(failed)),
                                (final(self)@[failed], after.unread_on(failed)),
                            ) && forall|id: u64|
                                {
                                    #[trigger] accepted.contains_key(id) && id != failed
                                        ==> header_progress(
                                        (accepted[id], before.unread_on(id)),
                                        (final(self)@[id], after.unread_on(id)),
                                    ) || final(self)@[id] == accepted[id] && after.unread_on(id)
                                        == before.unread_on(id)
                                }
                    },
                }
            }),
    {
        let ghost before = connection.engine();
        let ghost start = self@;
        let uni = accept_all(&mut connection.connection, false);
        let ghost middle = connection.engine();
        self.add_streams(&uni, Direction::Uni);
        let ghost with_uni = self@;
        let bi = accept_all(&mut connection.connection, true);
        self.add_streams(&bi, Direction::Bi);
        let ghost accepted = self@;
        let ghost held = connection.engine();
        proof {
            lemma_with_accepted(start, uni@, Direction::Uni);
            lemma_with_accepted(with_uni, bi@, Direction::Bi);
            assert forall|id: u64| #[trigger] accepted.contains_key(id) implies accepted[id].wf()
                && can_read(held, id) by {
                if bi@.contains(id) {
                    let place = bi@.index_of(id);
                    assert(middle.waiting(true)[place] == id);
                } else if uni@.contains(id) {
                    let place = uni@.index_of(id);
                    assert(before.waiting(false)[place] == id);
                    assert(middle.recv_ids.contains(id));
                } else {
                    assert(start.contains_key(id));
                }
            }
            assert forall|id: u64| #[trigger] held.unread_on(id) == before.unread_on(id) by {};
            assert(both_accepted(before, held));
        }
        let ids = keys_of(&self.buffers);
        let mut i: usize = 0;
        while i < ids.len()
            invariant
                connection.wf(),
                connection.same_flags(*old(connection)),
                headers_wf(accepted, held),
                headers_wf(self@, connection.engine()),
                self@.dom() == accepted.dom(),
                ids@.no_duplicates(),
                ids@.to_set() == accepted.dom(),
                i <= ids@.len(),
                connection.engine() == (EngineView { unread: connection.engine().unread, ..held }),
                both_accepted(before, held),
                forall|id: u64| #[trigger] held.unread_on(id) == before.unread_on(id),
                forall|j: int|
                    0 <= j < i ==> header_progress(
                        (accepted[#[trigger] ids@[j]], before.unread_on(ids@[j])),
                        (self@[ids@[j]], connection.engine().unread_on(ids@[j])),
                    ) && !cut_short(accepted, (before, held), ids@[j]),
                forall|id: u64|
                    !accepted.contains_key(id) ==> #[trigger] connection.engine().unread_on(id)
                        == before.unread_on(id),
                forall|j: int|
                    i <= j < ids@.len() ==> self@[#[trigger] ids@[j]] == accepted[ids@[j]]
                        && connection.engine().unread_on(ids@[j]) == before.unread_on(ids@[j]),
                before == old(connection).engine(),
                accepted == with_accepted(
                    with_accepted(old(self)@, before.uni_waiting, Direction::Uni),
                    before.bi_waiting,
                    Direction::Bi,
                ),
            decreases ids@.len() - i,
        {
            let id: u64 = ids[i];
            let ghost states = self@;
            let ghost current = connection.engine();
            proof {
                assert(ids@.to_set().contains(id));
                assert(self@.contains_key(id));
                assert(self@[ids@[i as int]] == accepted[ids@[i as int]]);
            }
            let result = match self.buffers.entry(id) {
                Entry::Vacant(_) => Ok(()),
                Entry::Occupied(entry) => read_header(entry.into_mut(), StreamId(id), connection),
            };
            proof {
                assert(self@ =~= states.insert(id, self@[id]));
                assert(self@.dom() =~= accepted.dom());
                assert forall|other: u64| #[trigger] self@.contains_key(other) implies self@[
                    other
                ].wf() && can_read(connection.engine(), other) by {
                    assert(states.contains_key(other));
                }
                assert forall|j: int| 0 <= j < i implies header_progress(
                    (accepted[#[trigger] ids@[j]], before.unread_on(ids@[j])),
                    (self@[ids@[j]], connection.engine().unread_on(ids@[j])),
                ) by {
                    assert(ids@[j] != id);
                    assert(connection.engine().unread_on(ids@[j]) == current.unread_on(ids@[j]));
                }
                assert forall|j: int| i + 1 <= j < ids@.len() implies self@[#[trigger] ids@[j]]
                    == accepted[ids@[j]] && connection.engine().unread_on(ids@[j])
                    == before.unread_on(ids@[j]) by {
                    assert(ids@[j] != id);
                    assert(connection.engine().unread_on(ids@[j]) == current.unread_on(ids@[j]));
                }
            }
            if let Err(error) = result {
                proof {
                    assert(cut_short(accepted, (before, connection.engine()), id));
                    assert(EngineView {
                        unread: before.unread,
                        closed: before.closed,
                        ..connection.engine()
                    } == held);
                    assert forall|other: u64| #[trigger]
                        accepted.contains_key(other) && other != id implies header_progress(
                        (accepted[other], before.unread_on(other)),
                        (self@[other], connection.engine().unread_on(other)),
                    ) || self@[other] == accepted[other] && connection.engine().unread_on(other)
                        == before.unread_on(other) by {
                        assert(ids@.to_set().contains(other));
                        let place = ids@.index_of(other);
                        assert(ids@[place] == other);
                    }
                }
                return Err(error);
            }
            i = i + 1;
        }
        assert forall|id: u64| #[trigger] accepted.contains_key(id) implies header_progress(
            (accepted[id], before.unread_on(id)),
            (self@[id], connection.engine().unread_on(id)),
        ) by {
            assert(ids@.to_set().contains(id));
            let place = ids@.index_of(id);
            assert(ids@[place] == id);
        }
        assert(EngineView {
            unread: before.unread,
            closed: before.closed,
            ..connection.engine()
        } == held);
        assert forall|id: u64| !#[trigger] cut_short(accepted, (before, connection.engine()), id) by {
            if accepted.contains_key(id) {
                assert(ids@.to_set().contains(id));
                let place = ids@.index_of(id);
                assert(ids@[place] == id);
                assert(!cut_short(accepted, (before, held), ids@[place]));
            }
        }
        Ok(())
    }

    /// Takes a stream that has received a header. Which one is open if there are several.
    pub fn take_stream(&mut self, header: u16) -> (stream: Option<(StreamId, Direction)>)
        ensures
            match stream {
                Some((StreamId(id), dir)) => {
                    &&& old(self)@.contains_key(id)
                    &&& old(self)@[id] == HeaderView::Received { dir, header }
                    &&& final(self)@ == old(self)@.remove(id)
                },
                None => {
                    &&& final(self)@ == old(self)@
                    &&& forall|id: u64| #[trigger]
                        old(self)@.contains_key(id) ==> !(old(self)@[id] matches
                            HeaderView::Received { header: received, .. } && received == header)
                },
            },
    {
        let ghost before = self@;
        let ids = keys_of(&self.buffers);
        let mut i: usize = 0;
        while i < ids.len()
            invariant
                before == old(self)@,
                self@ == before,
                ids@.to_set() == before.dom(),
                i <= ids@.len(),
                forall|j: int|
                    0 <= j < i ==> !(before[#[trigger] ids@[j]] matches HeaderView::Received {
                        header: received,
                        ..
                    } && received == header),
            decreases ids@.len() - i,
        {
            let id: u64 = ids[i];
            assert(ids@.to_set().contains(id));
            assert(before.contains_key(id));
            let found = match self.buffers.get(&id) {
                Some(RecvStreamHeaderState::HeaderReceived { dir, header: received }) => {
                    if *received == header {
                        Some(*dir)
                    } else {
                        None
                    }
                },
                _ => None,
            };
            if let Some(dir) = found {
                self.buffers.remove(&id);
                assert(self@ =~= before.remove(id));
                return Some((StreamId(id), dir));
            }
            i = i + 1;
        }
        assert forall|id: u64| #[trigger] before.contains_key(id) implies !(before[id] matches
            HeaderView::Received { header: received, .. } && received == header) by {
            assert(ids@.to_set().contains(id));
            let place = ids@.index_of(id);
            assert(ids@[place] == id);
        }
        None
    }
}

/// The header that a stream starts with is read, and nothing of what follows it.
pub proof fn header_round_trip(dir: Direction, header: u16, rest: Seq<u8>)
    ensures
        ({
            let fresh = HeaderView::Reading { dir, received: Seq::empty() };
            let sent = u16_bytes(header) + rest;
            let taken = fresh.taken(sent) as int;
            &&& fresh.advanced(sent.take(taken)) == (HeaderView::Received { dir, header })
            &&& sent.skip(taken) == rest
        }),
{
    u16_round_trip(header);
    let sent = u16_bytes(header) + rest;
    assert(sent.take(2) =~= u16_bytes(header));
    assert(sent.skip(2) =~= rest);
    assert(Seq::<u8>::empty() + sent.take(2).take(2) =~= u16_bytes(header));
}

/// Accepted streams are new, and the others are as they were.
proof fn lemma_with_accepted(headers: Map<u64, HeaderView>, ids: Seq<u64>, dir: Direction)
    ensures
        ({
            let after = with_accepted(headers, ids, dir);
            forall|id: u64|
                {
                    &&& #[trigger] after.contains_key(id) <==> headers.contains_key(id)
                        || ids.contains(id)
                    &&& ids.contains(id) ==> after[id] == (HeaderView::Reading {
                        dir,
                        received: Seq::empty(),
                    })
                    &&& !ids.contains(id) && headers.contains_key(id) ==> after[id] == headers[id]
                }
        }),
    decreases ids.len(),
{
    if ids.len() > 0 {
        let front = ids.drop_last();
        lemma_with_accepted(headers, front, dir);
        let after = with_accepted(headers, ids, dir);
        let before = with_accepted(headers, front, dir);
        assert forall|id: u64|
            {
                &&& #[trigger] after.contains_key(id) <==> headers.contains_key(id)
                    || ids.contains(id)
                &&& ids.contains(id) ==> after[id] == (HeaderView::Reading {
                    dir,
                    received: Seq::empty(),
                })
                &&& !ids.contains(id) && headers.contains_key(id) ==> after[id] == headers[id]
            } by {
            assert(before.contains_key(id) <==> headers.contains_key(id) || front.contains(id));
            assert(ids[ids.len() - 1] == ids.last());
            if front.contains(id) {
                let place = front.index_of(id);
                assert(ids[place] == id);
            }
            if ids.contains(id) && id != ids.last() {
                let place = ids.index_of(id);
                assert(front[place] == id);
            }
        }
    }
}

/// Used for writing a header to a stream before writing data.
pub struct HeaderedStreamState {
    pub stream_id: StreamId,
    /// What has not been written of the header.
    pub header_buffer: Option<Vec<u8>>,
}

/// Whether nothing but a stream has been written.
pub open spec fn only_written(before: EngineView, after: EngineView, id: u64) -> bool {
    &&& after == (EngineView { sent: after.sent, ..before })
    &&& forall|other: u64| other != id ==> #[trigger] after.sent_on(other) == before.sent_on(other)
}

/// What writing data to a stream with a header does to its connection: it is asked to take what is
/// left of the header, and then, if it has taken that, to take the data. The size that was written
/// is that of the last write that was made, which is none of the data if that was of the header.
pub open spec fn write_effect(
    state: HeaderedStreamState,
    before: ConnectionState,
    after: ConnectionState,
    data: Seq<u8>,
    size: Result<usize, StreamWriteError>,
) -> bool {
    let id = state.stream_id.0;
    let held = before.engine();
    match state.header_buffer {
        None => {
            &&& after.engine() == held.write_asked(before.status(), id, data)
            &&& write_comes_to(held, before.status(), id, data.len(), size)
        },
        Some(header) => {
            let with_header = held.write_asked(before.status(), id, header@);
            if header_taken(held, before.status(), id, header@.len()) {
                exists|middle: Connection|
                    #![trigger engine(middle)]
                    engine(middle) == with_header && after.engine() == with_header.write_asked(
                        status(middle),
                        id,
                        data,
                    ) && write_comes_to(with_header, status(middle), id, data.len(), size)
            } else {
                &&& after.engine() == with_header
                &&& exists|count: Result<usize, StreamWriteError>| #[trigger]
                    write_comes_to(held, before.status(), id, header@.len(), count) && if count
                        == Ok::<usize, StreamWriteError>(header@.len() as usize) {
                        write_comes_to(held, before.status(), id, data.len(), size)
                    } else {
                        size == none_of(count)
                    }
            }
        },
    }
}

/// Whether writing some bytes to a stream can come to a size.
pub open spec fn write_comes_to(
    held: EngineView,
    status: EngineStatus,
    id: u64,
    len: nat,
    size: Result<usize, StreamWriteError>,
) -> bool {
    exists|result: StreamWrite| #[trigger]
        held.write_gives(status, id, len, result) && size == write_result(result)
}

/// The size that was written of the data, when the last write was of the header.
pub open spec fn none_of(count: Result<usize, StreamWriteError>) -> Result<
    usize,
    StreamWriteError,
> {
    match count {
        Ok(_) => Ok(0),
        Err(error) => Err(error),
    }
}

/// Whether a stream takes what is left of its header.
pub open spec fn header_taken(held: EngineView, status: EngineStatus, id: u64, len: nat) -> bool {
    if held.takes(status, id) {
        status.fitting(id, len) == len
    } else {
        !held.ended(id) && !held.peer_stops.contains_key(id) && len == 0
    }
}

impl HeaderedStreamState {
    /// Creates the state of a stream that starts with a header.
    pub fn new(stream_id: StreamId, header: u16) -> (state: Self)
        ensures
            state.stream_id == stream_id,
            state.unwritten() == u16_bytes(header),
            state.header_buffer is Some,
    {
        let mut buffer: Vec<u8> = Vec::new();
        buffer.push((header / 256) as u8);
        buffer.push((header % 256) as u8);
        assert(buffer@ =~= u16_bytes(header));
        HeaderedStreamState { stream_id, header_buffer: Some(buffer) }
    }

    /// Gets the stream id.
    pub fn stream_id(&self) -> (stream_id: StreamId)
        ensures
            stream_id == self.stream_id,
    {
        self.stream_id
    }

    /// What has not been written of the header.
    pub open spec fn unwritten(self) -> Seq<u8> {
        match self.header_buffer {
            Some(buffer) => buffer@,
            None => Seq::empty(),
        }
    }

    /// Attempts to write some data to the stream.
    ///
    /// Will only write data once the header has been written.
    pub fn write(&mut self, connection: &mut ConnectionState, data: &[u8]) -> (size: Result<
        usize,
        StreamWriteError,
    >)
        requires
            old(connection).wf(),
            old(connection).engine().send_ids.contains(old(self).stream_id.0),
        ensures
            final(connection).wf(),
            final(connection).same_flags(*old(connection)),
            final(self).stream_id == old(self).stream_id,
            write_effect(*old(self), *old(connection), *final(connection), data@, size),
            only_written(
                old(connection).engine(),
                final(connection).engine(),
                old(self).stream_id.0,
            ),
            ({
                let id = old(self).stream_id.0;
                let before = old(connection).engine().sent_on(id) + old(self).unwritten();
                let after = final(connection).engine().sent_on(id) + final(self).unwritten();
                match size {
                    Ok(size) => {
                        &&& size <= data@.len()
                        &&& size > 0 ==> final(self).header_buffer is None
                        &&& after == before + data@.take(size as int)
                    },
                    Err(_) => after == before,
                }
            }),
            final(self).unwritten().len() <= old(self).unwritten().len(),
    {
        let id: u64 = self.stream_id.0;
        let ghost held = connection.engine();
        let ghost start = held.sent_on(id);
        let ghost header = self.unwritten();
        let header_left = match &self.header_buffer {
            None => None,
            Some(buffer) => {
                let written = connection.write_send_stream(self.stream_id, buffer.as_slice());
                assert(write_comes_to(
                    held,
                    old(connection).status(),
                    id,
                    buffer@.len(),
                    written,
                ));
                match written {
                    Err(error) => {
                        return Err(error);
                    },
                    Ok(count) => {
                        let rest = vstd::slice::slice_to_vec(
                            slice_subrange(buffer.as_slice(), count, buffer.len()),
                        );
                        proof {
                            assert(rest@ =~= header.skip(count as int));
                            assert(header.take(0) =~= Seq::empty());
                            assert(start + Seq::<u8>::empty() =~= start);
                            assert(connection.engine().sent_on(id) =~= start + header.take(
                                count as int,
                            ));
                            assert(connection.engine().sent_on(id) + rest@ =~= start + header);
                        }
                        Some(rest)
                    },
                }
            },
        };
        if let Some(rest) = header_left {
            if rest.len() > 0 {
                self.header_buffer = Some(rest);
                assert(data@.take(0) =~= Seq::empty());
                assert(start + header + data@.take(0) =~= start + header);
                return Ok(0);
            }
            assert(rest@ =~= Seq::empty());
            self.header_buffer = None;
        }
        let ghost middle = connection.engine().sent_on(id);
        proof {
            assert(middle + Seq::<u8>::empty() =~= middle);
            assert(middle =~= start + header);
            assert(data@.take(0) =~= Seq::empty());
        }
        let ghost last = *connection;
        let size = connection.write_send_stream(self.stream_id, data);
        proof {
            assert(write_comes_to(
                engine(last.connection),
                status(last.connection),
                id,
                data@.len(),
                size,
            ));
            assert(connection.engine() == engine(last.connection).write_asked(
                status(last.connection),
                id,
                data@,
            ));
            assert(self.unwritten() =~= Seq::empty());
            if let Ok(size) = size {
                assert(connection.engine().sent_on(id) =~= middle + data@.take(size as int));
                assert(connection.engine().sent_on(id) + Seq::<u8>::empty()
                    =~= connection.engine().sent_on(id));
            }
        }
        size
    }
}

/// How the bytes of a header are cut into pieces does not matter.
pub proof fn header_in_pieces(view: HeaderView, first: Seq<u8>, second: Seq<u8>)
    requires
        view.wf(),
        first.len() < view.missing(),
    ensures
        view.advanced(first).advanced(second) == view.advanced(first + second),
        view.advanced(first).wf(),
        view.advanced(first).missing() == view.missing() - first.len(),
{
    if let HeaderView::Reading { dir, received } = view {
        assert((received + first) + second =~= received + (first + second));
        let missing = 2 - received.len();
        if (first + second).len() >= missing {
            assert((received + first) + second.take(missing - first.len()) =~= received + (first
                + second).take(missing));
        }
    }
}

/// The header of a stream is the number that its first two bytes make, the more significant one
/// first, and a stream keeps its direction and its header.
pub proof fn headers_are_two_bytes(dir: Direction, high: u8, low: u8, rest: Seq<u8>)
    ensures
        ({
            let fresh = HeaderView::Reading { dir, received: Seq::empty() };
            let received = seq![high, low] + rest;
            let done = HeaderView::Received { dir, header: (high * 256 + low) as u16 };
            &&& fresh.missing() == 2
            &&& fresh.taken(received) == 2
            &&& fresh.advanced(received.take(2)) == done
            &&& done.missing() == 0
            &&& done.advanced(rest) == done
            &&& done.taken(rest) == 0
            &&& fresh.taken(seq![high]) == 1
            &&& fresh.advanced(seq![high]) == (HeaderView::Reading { dir, received: seq![high] })
        }),
{
    let received = seq![high, low] + rest;
    assert(received.take(2) =~= seq![high, low]);
    assert(Seq::<u8>::empty() + received.take(2).take(2) =~= seq![high, low]);
    assert(Seq::<u8>::empty() + seq![high] =~= seq![high]);
}

/// Streams that are accepted await their headers, of which nothing has been read. The others are as
/// they were.
pub proof fn accepted_streams_await_headers(
    headers: Map<u64, HeaderView>,
    ids: Seq<u64>,
    dir: Direction,
    id: u64,
)
    ensures
        ({
            let after = with_accepted(headers, ids, dir);
            &&& after.contains_key(id) <==> headers.contains_key(id) || ids.contains(id)
            &&& ids.contains(id) ==> after[id] == (HeaderView::Reading {
                dir,
                received: Seq::empty(),
            })
            &&& !ids.contains(id) && headers.contains_key(id) ==> after[id] == headers[id]
        }),
{
    lemma_with_accepted(headers, ids, dir);
    let after = with_accepted(headers, ids, dir);
    assert(after.contains_key(id) || !after.contains_key(id));
}

/// A stream starts with its header, then comes what is written to it: a write hands over what is
/// left of the header, then data from the front as much as it says, and none as long as something
/// of the header is left.
pub proof fn header_goes_first(
    state: HeaderedStreamState,
    before: ConnectionState,
    after: ConnectionState,
    data: Seq<u8>,
    size: Result<usize, StreamWriteError>,
)
    requires
        write_effect(state, before, after, data, size),
        state.header_buffer matches Some(header) ==> header@.len() > 0,
        size is Ok,
    ensures
        ({
            let id = state.stream_id.0;
            let header = state.unwritten();
            let sent = before.engine().sent_on(id);
            let left = after.engine().sent_on(id);
            &&& size->Ok_0 <= data.len()
            &&& size->Ok_0 > 0 ==> left == sent + header + data.take(size->Ok_0 as int)
            &&& size->Ok_0 == 0 ==> exists|n: int|
                0 <= n <= header.len() && left == sent + #[trigger] header.take(n)
        }),
{
    let id = state.stream_id.0;
    let held = before.engine();
    let sent = held.sent_on(id);
    assert(data.take(0) =~= Seq::empty());
    let header = state.unwritten();
    match state.header_buffer {
        None => {
            let header = Seq::<u8>::empty();
            assert(header.take(0) =~= header);
            assert(sent + header =~= sent);
            assert(sent + header + data.take(size->Ok_0 as int) =~= sent + data.take(
                size->Ok_0 as int,
            ));
            assert(sent + data.take(0) =~= sent);
            assert(after.engine().sent_on(id) =~= sent + data.take(size->Ok_0 as int));
            if size->Ok_0 == 0 {
                assert(after.engine().sent_on(id) =~= sent + header.take(0));
            }
            assert(after.engine().sent_on(id) == sent + header + data.take(size->Ok_0 as int));
        },
        Some(buffer) => {
            let header = buffer@;
            assert(header.len() == buffer.len());
            let with_header = held.write_asked(before.status(), id, header);
            assert(header.take(header.len() as int) =~= header);
            assert(header.take(0) =~= Seq::empty());
            assert(sent + header.take(0) =~= sent);
            if header_taken(held, before.status(), id, header.len()) {
                assert(with_header.sent_on(id) == sent + header);
                assert(after.engine().sent_on(id) =~= sent + header + data.take(
                    size->Ok_0 as int,
                ));
                if size->Ok_0 == 0 {
                    assert(after.engine().sent_on(id) =~= sent + header.take(header.len() as int));
                }
            } else {
                let n = if held.takes(before.status(), id) {
                    before.status().fitting(id, header.len()) as int
                } else {
                    0
                };
                assert(after.engine().sent_on(id) =~= sent + header.take(n));
                assert(size->Ok_0 == 0);
            }
        },
    }
}

/// A stream whose header has been written takes as much of the data as there is room for, from the
/// front, and tells how much. It takes none if it is blocked, and fails if it has ended or the peer
/// has stopped it.
pub proof fn written_data_fills_the_room(
    state: HeaderedStreamState,
    before: ConnectionState,
    after: ConnectionState,
    data: Seq<u8>,
    size: Result<usize, StreamWriteError>,
)
    requires
        write_effect(state, before, after, data, size),
        state.header_buffer is None,
    ensures
        ({
            let id = state.stream_id.0;
            let held = before.engine();
            let room = before.status().room;
            let sent = held.sent_on(id);
            let left = after.engine().sent_on(id);
            &&& size is Ok && room.contains_key(id) ==> size->Ok_0 == if room[id] < data.len() {
                room[id] as int
            } else {
                data.len() as int
            } && left == sent + data.take(size->Ok_0 as int)
            &&& size is Ok && !room.contains_key(id) ==> size->Ok_0 == 0 && left == sent
            &&& size is Err ==> left == sent
            &&& size matches Err(error) ==> (error matches StreamWriteError::Stopped(code)
                ==> held.peer_stops.contains_key(id) && held.peer_stops[id] == code)
        }),
{
}

/// Reading a header takes no more than its two bytes off the stream: the bytes that it had and those
/// that are taken make it, and what follows stays. It waits for the rest if the stream has received
/// less.
pub proof fn nothing_behind_a_header_is_read(
    before: (HeaderView, EngineView),
    after: (HeaderView, EngineView),
    id: u64,
    dir: Direction,
    received: Seq<u8>,
)
    requires
        header_read(before, after, id),
        before.0 == (HeaderView::Reading { dir, received }),
        received.len() < 2,
    ensures
        ({
            let all = received + before.1.unread_on(id);
            let left = after.1.unread_on(id);
            if all.len() < 2 {
                after.0 == (HeaderView::Reading { dir, received: all }) && left.len() == 0
            } else {
                after.0 == (HeaderView::Received { dir, header: (all[0] * 256 + all[1]) as u16 })
                    && left == all.skip(2)
            }
        }),
{
    let unread = before.1.unread_on(id);
    let all = received + unread;
    if all.len() < 2 {
        assert(unread.take(unread.len() as int) =~= unread);
        assert(unread.skip(unread.len() as int) =~= Seq::empty());
    } else {
        let taken = 2 - received.len();
        assert(unread.skip(taken) =~= all.skip(2));
        assert(received + unread.take(taken).take(taken) =~= seq![all[0], all[1]]);
    }
}

/// A stream is cut short exactly if it is over and its header cannot be read to its end: what has
/// been read and what has been received make less than two bytes.
pub proof fn only_short_headers_are_cut_short(
    headers: Map<u64, HeaderView>,
    held: (EngineView, EngineView),
    id: u64,
    after: (HeaderView, Seq<u8>),
)
    requires
        headers.contains_key(id),
        headers[id].wf(),
        header_progress((headers[id], held.0.unread_on(id)), after),
    ensures
        cut_short(headers, held, id) <==> held.1.over.contains(id) && after.0 is Reading,
        ({
            let unread = held.0.unread_on(id);
            match headers[id] {
                HeaderView::Reading { dir, received } => {
                    let all = received + unread;
                    if all.len() < 2 {
                        after.0 == (HeaderView::Reading { dir, received: all }) && after.1.len()
                            == 0
                    } else {
                        after.0 == (HeaderView::Received {
                            dir,
                            header: (all[0] * 256 + all[1]) as u16,
                        }) && after.1 == all.skip(2)
                    }
                },
                _ => after == (headers[id], unread),
            }
        }),
{
    let unread = held.0.unread_on(id);
    if let HeaderView::Reading { dir, received } = headers[id] {
        let all = received + unread;
        if all.len() < 2 {
            assert(unread.take(unread.len() as int) =~= unread);
            assert(unread.skip(unread.len() as int) =~= Seq::empty());
        } else {
            let taken = 2 - received.len();
            assert(unread.skip(taken) =~= all.skip(2));
            assert(received + unread.take(taken).take(taken) =~= seq![all[0], all[1]]);
        }
    } else {
        assert(unread.skip(0) =~= unread);
    }
}

} // verus!
