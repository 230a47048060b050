//! Streams and datagrams of a WebTransport connection of a browser.
//!
//! The browser works in promises, which are polled. Its objects are opaque here: `W` writes a
//! stream, `R` reads one, `B` and `U` are a bidirectional and a unidirectional stream that are being
//! opened, `P` is a read that is going on.
use crate::chunk::{chunk, from_vec};
use crate::keys::keys_of;
use crate::transport::{StreamReadError, StreamRequirements};
use bytes::Bytes;
use std::collections::hash_map::Entry;
use std::collections::{HashMap, VecDeque};
use vstd::prelude::*;

verus! {

broadcast use vstd::std_specs::hash::group_hash_axioms;

/// Browser WebTransport stream identifier.
#[derive(Clone, Copy, Debug, PartialEq, Eq, Hash, Structural)]
pub enum WebTransportWebStreamId {
    /// Stream for sending datagrams.
    Datagrams,
    /// A bidirectional stream.
    Bidirectional(u32),
    /// A unidirectional send stream.
    UnidirectionalSend(u32),
    /// A unidirectional receive stream.
    UnidirectionalRecv(u32),
    /// A received datagram.
    ReceivedDatagram(usize),
}

/// What a read that is over gave.
#[derive(Debug)]
pub enum ReadOutcome {
    /// Data.
    Data(Vec<u8>),
    /// The stream is done.
    Done,
    /// The read failed.
    Failed,
}

/// The stream for sending datagrams is not for reading.
#[derive(Clone, Copy, Debug, PartialEq, Eq, Structural)]
pub struct DatagramsReadError;

/// The receiving side of a stream.
pub struct RecvState<R, P> {
    pub reader: R,
    pub pending_read: Option<P>,
    pub read_buffer: VecDeque<Vec<u8>>,
}

/// State for a bidirectional stream.
pub struct BidiStreamState<W, R, P> {
    pub send_writer: W,
    pub recv: RecvState<R, P>,
}

/// The data in a buffer.
pub open spec fn buffer_view(buffer: Seq<Vec<u8>>) -> Seq<Seq<u8>> {
    buffer.map_values(|data: Vec<u8>| data@)
}

/// What a read gives, and what is left to read: the bytes of the read, what is in the buffer, and
/// whether a read is going on.
pub struct ReadView {
    pub result: Result<Seq<u8>, StreamReadError>,
    pub buffer: Seq<Seq<u8>>,
    pub reading: bool,
}

/// The bytes of a read.
pub open spec fn result_view(result: Result<Bytes, StreamReadError>) -> Result<
    Seq<u8>,
    StreamReadError,
> {
    match result {
        Ok(data) => Ok(chunk(data)),
        Err(error) => Err(error),
    }
}

/// What reading a stream gives. Buffered data comes first, then what a read gave that is over. If
/// there is neither, a read is going on.
pub open spec fn read_result(buffer: Seq<Seq<u8>>, polled: Option<ReadOutcome>) -> ReadView {
    if buffer.len() > 0 {
        ReadView { result: Ok(buffer[0]), buffer: buffer.skip(1), reading: false }
    } else {
        match polled {
            Some(ReadOutcome::Data(data)) => ReadView { result: Ok(data@), buffer, reading: false },
            Some(_) => ReadView {
                result: Err(StreamReadError::Closed),
                buffer,
                reading: false,
            },
            None => ReadView { result: Err(StreamReadError::Blocked), buffer, reading: true },
        }
    }
}

/// The buffer after a read that is over has been taken note of.
pub open spec fn buffer_after(buffer: Seq<Seq<u8>>, polled: Option<ReadOutcome>) -> Seq<Seq<u8>> {
    match polled {
        Some(ReadOutcome::Data(data)) => buffer.push(data@),
        _ => buffer,
    }
}

impl<R, P> RecvState<R, P> {
    /// A receiving side that has not been read.
    pub fn new(reader: R) -> (state: Self)
        ensures
            state.reader == reader,
            state.pending_read is None,
            state.read_buffer@ == Seq::<Vec<u8>>::empty(),
    {
        RecvState { reader, pending_read: None, read_buffer: VecDeque::new() }
    }

    /// The data that has been buffered.
    pub open spec fn buffered(self) -> Seq<Seq<u8>> {
        buffer_view(self.read_buffer@)
    }

    /// What polling the read that is going on may give.
    pub open spec fn may_poll<F: Fn(&P) -> Option<ReadOutcome>>(
        self,
        poll: F,
        polled: Option<ReadOutcome>,
    ) -> bool {
        match self.pending_read {
            Some(pending) => poll.ensures((&pending,), polled),
            None => polled is None,
        }
    }

    /// Takes note of a read that is over: its data is buffered.
    pub fn poll_read<F: Fn(&P) -> Option<ReadOutcome>>(&mut self, poll: &F)
        requires
            forall|pending: &P| #[trigger] poll.requires((pending,)),
        ensures
            polled_read(*old(self), *final(self), *poll),
    {
        let polled = match &self.pending_read {
            None => None,
            Some(pending) => poll(pending),
        };
        assert(old(self).may_poll(*poll, polled));
        let ghost outcome = polled;
        if let Some(result) = polled {
            self.pending_read = None;
            if let ReadOutcome::Data(data) = result {
                let ghost bytes = data@;
                self.read_buffer.push_back(data);
                assert(self.buffered() =~= old(self).buffered().push(bytes));
            }
        }
        assert(old(self).may_poll(*poll, outcome));
    }

    /// Reads the stream. If nothing is there, a read is started unless one is going on.
    pub fn read<F: Fn(&P) -> Option<ReadOutcome>, G: Fn(&R) -> P>(
        &mut self,
        poll: &F,
        start: &G,
    ) -> (data: Result<Bytes, StreamReadError>)
        requires
            forall|pending: &P| #[trigger] poll.requires((pending,)),
            forall|reader: &R| #[trigger] start.requires((reader,)),
        ensures
            final(self).reader == old(self).reader,
            exists|polled: Option<ReadOutcome>| #[trigger]
                read_effect(*old(self), *final(self), *poll, *start, polled, data),
    {
        if let Some(data) = self.read_buffer.pop_front() {
            assert(self.buffered() =~= old(self).buffered().skip(1));
            let data = from_vec(data);
            assert(read_effect(*old(self), *self, *poll, *start, None, Ok(data)));
            return Ok(data);
        }
        assert(self.buffered() =~= old(self).buffered());
        let polled = match &self.pending_read {
            None => None,
            Some(pending) => poll(pending),
        };
        let ghost outcome = polled;
        if let Some(result) = polled {
            self.pending_read = None;
            return match result {
                ReadOutcome::Data(data) => {
                    let data = from_vec(data);
                    assert(read_effect(*old(self), *self, *poll, *start, outcome, Ok(data)));
                    Ok(data)
                },
                _ => {
                    assert(read_effect(
                        *old(self),
                        *self,
                        *poll,
                        *start,
                        outcome,
                        Err(StreamReadError::Closed),
                    ));
                    Err(StreamReadError::Closed)
                },
            };
        }
        if self.pending_read.is_none() {
            let pending = start(&self.reader);
            self.pending_read = Some(pending);
        }
        assert(read_effect(
            *old(self),
            *self,
            *poll,
            *start,
            outcome,
            Err(StreamReadError::Blocked),
        ));
        Err(StreamReadError::Blocked)
    }
}

/// What reading a stream does. The read that is going on is polled only if nothing is buffered.
pub open spec fn read_effect<
    R,
    P,
    F: Fn(&P) -> Option<ReadOutcome>,
    G: Fn(&R) -> P,
>(
    before: RecvState<R, P>,
    after: RecvState<R, P>,
    poll: F,
    start: G,
    polled: Option<ReadOutcome>,
    data: Result<Bytes, StreamReadError>,
) -> bool {
    let expected = read_result(before.buffered(), polled);
    &&& result_view(data) == expected.result
    &&& after.buffered() == expected.buffer
    &&& if before.buffered().len() > 0 {
        after.pending_read == before.pending_read
    } else {
        &&& before.may_poll(poll, polled)
        &&& polled is Some ==> after.pending_read is None
        &&& polled is None ==> match (before.pending_read, after.pending_read) {
            (Some(pending), going_on) => going_on == Some(pending),
            (None, Some(started)) => start.ensures((&before.reader,), started),
            (None, None) => false,
        }
    }
}

/// What taking note of a read that is over does.
pub open spec fn polled_read<R, P, F: Fn(&P) -> Option<ReadOutcome>>(
    before: RecvState<R, P>,
    after: RecvState<R, P>,
    poll: F,
) -> bool {
    &&& after.reader == before.reader
    &&& exists|polled: Option<ReadOutcome>| #[trigger]
        before.may_poll(poll, polled) && after.buffered() == buffer_after(
            before.buffered(),
            polled,
        ) && after.pending_read == if polled is Some {
            None
        } else {
            before.pending_read
        }
}

/// What polling a stream that is being opened does: it goes on, or fails, or the stream is there.
pub open spec fn settled_one<B, S, F: Fn(&B) -> Option<Option<S>>>(
    pending: (Map<u32, B>, Map<u32, B>),
    streams: (Map<u32, S>, Map<u32, S>),
    poll: F,
    id: u32,
) -> bool {
    if pending.0.contains_key(id) {
        exists|polled: Option<Option<S>>| #[trigger]
            poll.ensures((&pending.0[id],), polled) && match polled {
                None => pending.1.get(id) == pending.0.get(id) && streams.1.get(id)
                    == streams.0.get(id),
                Some(None) => pending.1.get(id) is None && streams.1.get(id) == streams.0.get(id),
                Some(Some(stream)) => pending.1.get(id) is None && streams.1.get(id) == Some(
                    stream,
                ),
            }
    } else {
        pending.1.get(id) is None && streams.1.get(id) == streams.0.get(id)
    }
}

/// Polls all streams that are being opened. Those that are there join the streams.
fn settle_opens<B, S, F: Fn(&B) -> Option<Option<S>>>(
    pending: &mut HashMap<u32, B>,
    streams: &mut HashMap<u32, S>,
    poll: &F,
)
    requires
        forall|opening: &B| #[trigger] poll.requires((opening,)),
    ensures
        forall|id: u32| #[trigger]
            settled_one(
                (old(pending)@, final(pending)@),
                (old(streams)@, final(streams)@),
                *poll,
                id,
            ),
{
    let ghost opening = pending@;
    let ghost there = streams@;
    let ids = keys_of(pending);
    let mut i: usize = 0;
    while i < ids.len()
        invariant
            forall|opening: &B| #[trigger] poll.requires((opening,)),
            opening == old(pending)@,
            there == old(streams)@,
            ids@.no_duplicates(),
            ids@.to_set() == opening.dom(),
            i <= ids@.len(),
            forall|id: u32|
                ids@.take(i as int).contains(id) ==> #[trigger] settled_one(
                    (opening, pending@),
                    (there, streams@),
                    *poll,
                    id,
                ),
            forall|id: u32|
                !ids@.take(i as int).contains(id) ==> #[trigger] pending@.get(id) == opening.get(id)
                    && streams@.get(id) == there.get(id),
        decreases ids@.len() - i,
    {
        let id: u32 = ids[i];
        let ghost opening_before = pending@;
        let ghost there_before = streams@;
        proof {
            assert(ids@.to_set().contains(id));
            assert(!ids@.take(i as int).contains(id)) by {
                if ids@.take(i as int).contains(id) {
                    let place = ids@.take(i as int).index_of(id);
                    assert(ids@[place] == ids@[i as int]);
                }
            }
            assert(pending@.get(id) == opening.get(id));
        }
        let polled = match pending.get(&id) {
            None => None,
            Some(going_on) => poll(going_on),
        };
        let ghost outcome = polled;
        if let Some(result) = polled {
            pending.remove(&id);
            if let Some(stream) = result {
                streams.insert(id, stream);
            }
        }
        proof {
            assert(poll.ensures((&opening[id],), outcome));
            assert(settled_one((opening, pending@), (there, streams@), *poll, id));
            let taken = ids@.take(i + 1);
            assert(taken =~= ids@.take(i as int).push(id));
            assert forall|other: u32| taken.contains(other) implies #[trigger] settled_one(
                (opening, pending@),
                (there, streams@),
                *poll,
                other,
            ) by {
                if other != id {
                    let place = taken.index_of(other);
                    assert(ids@.take(i as int)[place] == other);
                    assert(settled_one((opening, opening_before), (there, there_before), *poll, other));
                    assert(pending@.get(other) == opening_before.get(other));
                    assert(streams@.get(other) == there_before.get(other));
                }
            }
            assert forall|other: u32| !taken.contains(other) implies #[trigger] pending@.get(other)
                == opening.get(other) && streams@.get(other) == there.get(other) by {
                if other == id {
                    assert(taken[i as int] == other);
                }
                if ids@.take(i as int).contains(other) {
                    let place = ids@.take(i as int).index_of(other);
                    assert(taken[place] == other);
                }
                assert(opening_before.get(other) == opening.get(other));
            }
        }
        i = i + 1;
    }
    proof {
        assert(ids@.take(i as int) =~= ids@);
        assert forall|id: u32| #[trigger]
            settled_one((opening, pending@), (there, streams@), *poll, id) by {
            if !ids@.contains(id) {
                assert(!ids@.to_set().contains(id));
                assert(pending@.get(id) == opening.get(id));
            }
        }
    }
}

/// Takes note of the reads of all receive streams that are over.
fn poll_recv_streams<R, P, F: Fn(&P) -> Option<ReadOutcome>>(
    streams: &mut HashMap<u32, RecvState<R, P>>,
    poll: &F,
)
    requires
        forall|pending: &P| #[trigger] poll.requires((pending,)),
    ensures
        final(streams)@.dom() == old(streams)@.dom(),
        forall|id: u32| #[trigger]
            old(streams)@.contains_key(id) ==> polled_read(
                old(streams)@[id],
                final(streams)@[id],
                *poll,
            ),
{
    let ghost before = streams@;
    let ids = keys_of(streams);
    let mut i: usize = 0;
    while i < ids.len()
        invariant
            forall|pending: &P| #[trigger] poll.requires((pending,)),
            before == old(streams)@,
            ids@.no_duplicates(),
            ids@.to_set() == before.dom(),
            streams@.dom() == before.dom(),
            i <= ids@.len(),
            forall|j: int|
                0 <= j < i ==> polled_read(
                    before[#[trigger] ids@[j]],
                    streams@[ids@[j]],
                    *poll,
                ),
            forall|j: int|
                i <= j < ids@.len() ==> streams@[#[trigger] ids@[j]] == before[ids@[j]],
        decreases ids@.len() - i,
    {
        let id: u32 = ids[i];
        let ghost states = streams@;
        assert(ids@.to_set().contains(id));
        assert(states[ids@[i as int]] == before[ids@[i as int]]);
        match streams.entry(id) {
            Entry::Vacant(_) => {},
            Entry::Occupied(entry) => entry.into_mut().poll_read(poll),
        }
        proof {
            assert(streams@.dom() =~= before.dom());
            assert forall|j: int| 0 <= j < i + 1 implies polled_read(
                before[#[trigger] ids@[j]],
                streams@[ids@[j]],
                *poll,
            ) by {
                if j < i {
                    assert(ids@[j] != id);
                }
            }
            assert forall|j: int| i + 1 <= j < ids@.len() implies streams@[#[trigger] ids@[j]]
                == before[ids@[j]] by {
                assert(ids@[j] != id);
            }
        }
        i = i + 1;
    }
    assert forall|id: u32| #[trigger] before.contains_key(id) implies polled_read(
        before[id],
        streams@[id],
        *poll,
    ) by {
        assert(ids@.to_set().contains(id));
        let place = ids@.index_of(id);
        assert(ids@[place] == id);
    }
}

/// Takes note of the reads of all bidirectional streams that are over.
fn poll_bidi_streams<W, R, P, F: Fn(&P) -> Option<ReadOutcome>>(
    streams: &mut HashMap<u32, BidiStreamState<W, R, P>>,
    poll: &F,
)
    requires
        forall|pending: &P| #[trigger] poll.requires((pending,)),
    ensures
        final(streams)@.dom() == old(streams)@.dom(),
        forall|id: u32| #[trigger]
            old(streams)@.contains_key(id) ==> final(streams)@[id].send_writer == old(
                streams,
            )@[id].send_writer && polled_read(
                old(streams)@[id].recv,
                final(streams)@[id].recv,
                *poll,
            ),
{
    let ghost before = streams@;
    let ids = keys_of(streams);
    let mut i: usize = 0;
    while i < ids.len()
        invariant
            forall|pending: &P| #[trigger] poll.requires((pending,)),
            before == old(streams)@,
            ids@.no_duplicates(),
            ids@.to_set() == before.dom(),
            streams@.dom() == before.dom(),
            i <= ids@.len(),
            forall|j: int|
                0 <= j < i ==> streams@[#[trigger] ids@[j]].send_writer
                    == before[ids@[j]].send_writer && polled_read(
                    before[ids@[j]].recv,
                    streams@[ids@[j]].recv,
                    *poll,
                ),
            forall|j: int|
                i <= j < ids@.len() ==> streams@[#[trigger] ids@[j]] == before[ids@[j]],
        decreases ids@.len() - i,
    {
        let id: u32 = ids[i];
        let ghost states = streams@;
        assert(ids@.to_set().contains(id));
        assert(states[ids@[i as int]] == before[ids@[i as int]]);
        match streams.entry(id) {
            Entry::Vacant(_) => {},
            Entry::Occupied(entry) => entry.into_mut().recv.poll_read(poll),
        }
        proof {
            assert(streams@.dom() =~= before.dom());
            assert forall|j: int| 0 <= j < i + 1 implies streams@[#[trigger] ids@[j]].send_writer
                == before[ids@[j]].send_writer && polled_read(
                before[ids@[j]].recv,
                streams@[ids@[j]].recv,
                *poll,
            ) by {
                if j < i {
                    assert(ids@[j] != id);
                }
            }
            assert forall|j: int| i + 1 <= j < ids@.len() implies streams@[#[trigger] ids@[j]]
                == before[ids@[j]] by {
                assert(ids@[j] != id);
            }
        }
        i = i + 1;
    }
    assert forall|id: u32| #[trigger] before.contains_key(id) implies streams@[id].send_writer
        == before[id].send_writer && polled_read(before[id].recv, streams@[id].recv, *poll) by {
        assert(ids@.to_set().contains(id));
        let place = ids@.index_of(id);
        assert(ids@[place] == id);
    }
}

/// Connected state for a WebTransport connection.
pub struct ConnectedState<W, R, B, U, P> {
    pub next_stream_id: u32,
    pub bidi_streams: HashMap<u32, BidiStreamState<W, R, P>>,
    pub uni_send_streams: HashMap<u32, W>,
    pub uni_recv_streams: HashMap<u32, RecvState<R, P>>,
    pub pending_bidi_open: HashMap<u32, B>,
    pub pending_uni_open: HashMap<u32, U>,
    pub datagrams_writer: Option<W>,
    /// Received datagrams. Those that have been read are empty.
    pub received_datagrams: VecDeque<Vec<u8>>,
    /// The number of the first received datagram.
    pub datagram_queue_offset: usize,
}

/// The number of datagrams at the front that have been read.
pub open spec fn leading_empty(datagrams: Seq<Seq<u8>>) -> nat
    decreases datagrams.len(),
{
    if datagrams.len() == 0 || datagrams[0].len() > 0 {
        0
    } else {
        1 + leading_empty(datagrams.skip(1))
    }
}

/// The received datagrams, and the number of the first, after those that have been read at the
/// front are gone.
pub open spec fn trimmed(offset: nat, datagrams: Seq<Seq<u8>>) -> (nat, Seq<Seq<u8>>) {
    let count = leading_empty(datagrams);
    (offset + count, datagrams.skip(count as int))
}

/// What reading a received datagram gives, and what is left: a datagram is read once.
pub open spec fn datagram_result(offset: nat, datagrams: Seq<Seq<u8>>, index: nat) -> (
    Result<Seq<u8>, StreamReadError>,
    (nat, Seq<Seq<u8>>),
) {
    if offset <= index < offset + datagrams.len() {
        let datagram = datagrams[index - offset];
        (
            if datagram.len() == 0 {
                Err(StreamReadError::Closed)
            } else {
                Ok(datagram)
            },
            trimmed(offset, datagrams.update(index - offset, Seq::empty())),
        )
    } else {
        (Err(StreamReadError::Closed), (offset, datagrams))
    }
}

impl<W, R, B, U, P> ConnectedState<W, R, B, U, P> {
    /// Received datagrams can be numbered.
    pub open spec fn wf(self) -> bool {
        self.datagram_queue_offset + self.received_datagrams@.len() <= usize::MAX
    }

    /// All streams are the same.
    pub open spec fn same_streams(self, other: Self) -> bool {
        &&& self.next_stream_id == other.next_stream_id
        &&& self.bidi_streams == other.bidi_streams
        &&& self.uni_send_streams == other.uni_send_streams
        &&& self.uni_recv_streams == other.uni_recv_streams
        &&& self.pending_bidi_open == other.pending_bidi_open
        &&& self.pending_uni_open == other.pending_uni_open
        &&& self.datagrams_writer == other.datagrams_writer
    }

    /// The state of a connection that has just been established.
    pub fn new(datagrams_writer: Option<W>) -> (state: Self)
        ensures
            state.wf(),
            state.next_stream_id == 0,
            state.bidi_streams@ == Map::<u32, BidiStreamState<W, R, P>>::empty(),
            state.uni_send_streams@ == Map::<u32, W>::empty(),
            state.uni_recv_streams@ == Map::<u32, RecvState<R, P>>::empty(),
            state.pending_bidi_open@ == Map::<u32, B>::empty(),
            state.pending_uni_open@ == Map::<u32, U>::empty(),
            state.datagrams_writer == datagrams_writer,
            state.received_datagrams@ == Seq::<Vec<u8>>::empty(),
            state.datagram_queue_offset == 0,
    {
        ConnectedState {
            next_stream_id: 0,
            bidi_streams: HashMap::new(),
            uni_send_streams: HashMap::new(),
            uni_recv_streams: HashMap::new(),
            pending_bidi_open: HashMap::new(),
            pending_uni_open: HashMap::new(),
            datagrams_writer,
            received_datagrams: VecDeque::new(),
            datagram_queue_offset: 0,
        }
    }

    /// Polls the streams that are being opened, then takes note of the reads that are over.
    pub fn poll_incoming<
        FB: Fn(&B) -> Option<Option<BidiStreamState<W, R, P>>>,
        FU: Fn(&U) -> Option<Option<W>>,
        FP: Fn(&P) -> Option<ReadOutcome>,
    >(&mut self, poll_bidi: FB, poll_uni: FU, poll_read: FP)
        requires
            forall|opening: &B| #[trigger] poll_bidi.requires((opening,)),
            forall|opening: &U| #[trigger] poll_uni.requires((opening,)),
            forall|pending: &P| #[trigger] poll_read.requires((pending,)),
        ensures
            final(self).next_stream_id == old(self).next_stream_id,
            final(self).datagrams_writer == old(self).datagrams_writer,
            final(self).received_datagrams == old(self).received_datagrams,
            final(self).datagram_queue_offset == old(self).datagram_queue_offset,
            forall|id: u32| #[trigger]
                settled_one(
                    (old(self).pending_uni_open@, final(self).pending_uni_open@),
                    (old(self).uni_send_streams@, final(self).uni_send_streams@),
                    poll_uni,
                    id,
                ),
            exists|opened: Map<u32, BidiStreamState<W, R, P>>| #[trigger]
                bidi_polled(
                    (old(self).pending_bidi_open@, final(self).pending_bidi_open@),
                    (old(self).bidi_streams@, opened, final(self).bidi_streams@),
                    poll_bidi,
                    poll_read,
                ),
            final(self).uni_recv_streams@.dom() == old(self).uni_recv_streams@.dom(),
            forall|id: u32| #[trigger]
                old(self).uni_recv_streams@.contains_key(id) ==> polled_read(
                    old(self).uni_recv_streams@[id],
                    final(self).uni_recv_streams@[id],
                    poll_read,
                ),
    {
        settle_opens(&mut self.pending_bidi_open, &mut self.bidi_streams, &poll_bidi);
        let ghost opened = self.bidi_streams@;
        settle_opens(&mut self.pending_uni_open, &mut self.uni_send_streams, &poll_uni);
        poll_bidi_streams(&mut self.bidi_streams, &poll_read);
        poll_recv_streams(&mut self.uni_recv_streams, &poll_read);
        assert(bidi_polled(
            (old(self).pending_bidi_open@, self.pending_bidi_open@),
            (old(self).bidi_streams@, opened, self.bidi_streams@),
            poll_bidi,
            poll_read,
        ));
    }

    /// Takes the next stream id.
    fn allocate_stream_id(&mut self) -> (id: u32)
        requires
            old(self).next_stream_id < u32::MAX,
        ensures
            id == old(self).next_stream_id,
            *final(self) == (ConnectedState { next_stream_id: (id + 1) as u32, ..*old(self) }),
    {
        let id: u32 = self.next_stream_id;
        self.next_stream_id = id + 1;
        id
    }

    /// Returns the id of a stream that meets the requirements, which is being opened. Each call
    /// takes a stream id, also one for datagrams.
    pub fn new_stream<FB: FnOnce() -> B, FU: FnOnce() -> U>(
        &mut self,
        requirements: StreamRequirements,
        open_bidi: FB,
        open_uni: FU,
    ) -> (stream: WebTransportWebStreamId)
        requires
            old(self).next_stream_id < u32::MAX,
            open_bidi.requires(()),
            open_uni.requires(()),
        ensures
            final(self).next_stream_id == old(self).next_stream_id + 1,
            final(self).bidi_streams == old(self).bidi_streams,
            final(self).uni_send_streams == old(self).uni_send_streams,
            final(self).uni_recv_streams == old(self).uni_recv_streams,
            final(self).datagrams_writer == old(self).datagrams_writer,
            final(self).received_datagrams == old(self).received_datagrams,
            final(self).datagram_queue_offset == old(self).datagram_queue_offset,
            ({
                let id = old(self).next_stream_id;
                if requirements.met_by_datagrams() {
                    &&& stream == WebTransportWebStreamId::Datagrams
                    &&& final(self).pending_bidi_open == old(self).pending_bidi_open
                    &&& final(self).pending_uni_open == old(self).pending_uni_open
                } else if requirements.bidirectional {
                    &&& stream == WebTransportWebStreamId::Bidirectional(id)
                    &&& final(self).pending_uni_open == old(self).pending_uni_open
                    &&& exists|opening: B| #[trigger]
                        open_bidi.ensures((), opening) && final(self).pending_bidi_open@ == old(
                            self,
                        ).pending_bidi_open@.insert(id, opening)
                } else {
                    &&& stream == WebTransportWebStreamId::UnidirectionalSend(id)
                    &&& final(self).pending_bidi_open == old(self).pending_bidi_open
                    &&& exists|opening: U| #[trigger]
                        open_uni.ensures((), opening) && final(self).pending_uni_open@ == old(
                            self,
                        ).pending_uni_open@.insert(id, opening)
                }
            }),
    {
        let id: u32 = self.allocate_stream_id();
        if !requirements.reliable && !requirements.ordered && !requirements.bidirectional {
            WebTransportWebStreamId::Datagrams
        } else if requirements.bidirectional {
            let opening = open_bidi();
            self.pending_bidi_open.insert(id, opening);
            WebTransportWebStreamId::Bidirectional(id)
        } else {
            let opening = open_uni();
            self.pending_uni_open.insert(id, opening);
            WebTransportWebStreamId::UnidirectionalSend(id)
        }
    }

    /// What writes a stream, if it can be written.
    pub open spec fn writer(self, stream: WebTransportWebStreamId) -> Option<W> {
        match stream {
            WebTransportWebStreamId::Datagrams => self.datagrams_writer,
            WebTransportWebStreamId::Bidirectional(id) => if self.bidi_streams@.contains_key(id) {
                Some(self.bidi_streams@[id].send_writer)
            } else {
                None
            },
            WebTransportWebStreamId::UnidirectionalSend(id) => {
                if self.uni_send_streams@.contains_key(id) {
                    Some(self.uni_send_streams@[id])
                } else {
                    None
                }
            },
            _ => None,
        }
    }

    /// Finds what writes a stream. There is nothing for a stream that is being opened.
    fn find_writer(&self, stream: &WebTransportWebStreamId) -> (writer: Option<&W>)
        ensures
            match writer {
                Some(writer) => self.writer(*stream) == Some(*writer),
                None => self.writer(*stream) is None,
            },
    {
        match stream {
            WebTransportWebStreamId::Datagrams => match &self.datagrams_writer {
                Some(writer) => Some(writer),
                None => None,
            },
            WebTransportWebStreamId::Bidirectional(id) => match self.bidi_streams.get(id) {
                Some(state) => Some(&state.send_writer),
                None => None,
            },
            WebTransportWebStreamId::UnidirectionalSend(id) => self.uni_send_streams.get(id),
            WebTransportWebStreamId::UnidirectionalRecv(_) => None,
            WebTransportWebStreamId::ReceivedDatagram(_) => None,
        }
    }

    /// Writes data to a stream. All of it is taken over, or nothing if the stream cannot be
    /// written or is being opened.
    pub fn write<F: Fn(&W, &Bytes)>(
        &self,
        stream: &WebTransportWebStreamId,
        data: &Bytes,
        send: F,
    ) -> (written: usize)
        requires
            forall|writer: &W, data: &Bytes| #[trigger] send.requires((writer, data)),
        ensures
            match self.writer(*stream) {
                Some(writer) => written == chunk(*data).len() && send.ensures((&writer, data), ()),
                None => written == 0,
            },
    {
        match self.find_writer(stream) {
            Some(writer) => {
                send(writer, data);
                data.len()
            },
            None => 0,
        }
    }

    /// Closes a stream from the sending end, if it can be written.
    pub fn close_send_stream<F: Fn(&W)>(&self, stream: &WebTransportWebStreamId, close: F)
        requires
            forall|writer: &W| #[trigger] close.requires((writer,)),
        ensures
            !(stream is Datagrams) ==> (self.writer(*stream) matches Some(writer) ==> close.ensures(
                (&writer,),
                (),
            )),
    {
        if let WebTransportWebStreamId::Datagrams = stream {
            return ;
        }
        if let Some(writer) = self.find_writer(stream) {
            close(writer);
        }
    }

    /// What reads a stream, if it can be read.
    pub open spec fn reader(self, stream: WebTransportWebStreamId) -> Option<R> {
        match stream {
            WebTransportWebStreamId::Bidirectional(id) => if self.bidi_streams@.contains_key(id) {
                Some(self.bidi_streams@[id].recv.reader)
            } else {
                None
            },
            WebTransportWebStreamId::UnidirectionalRecv(id) => {
                if self.uni_recv_streams@.contains_key(id) {
                    Some(self.uni_recv_streams@[id].reader)
                } else {
                    None
                }
            },
            _ => None,
        }
    }

    /// Closes a stream from the receiving end, if it can be read.
    pub fn close_recv_stream<F: Fn(&R)>(&self, stream: &WebTransportWebStreamId, cancel: F)
        requires
            forall|reader: &R| #[trigger] cancel.requires((reader,)),
        ensures
            self.reader(*stream) matches Some(reader) ==> cancel.ensures((&reader,), ()),
    {
        match stream {
            WebTransportWebStreamId::Bidirectional(id) => {
                if let Some(state) = self.bidi_streams.get(id) {
                    cancel(&state.recv.reader);
                }
            },
            WebTransportWebStreamId::UnidirectionalRecv(id) => {
                if let Some(state) = self.uni_recv_streams.get(id) {
                    cancel(&state.reader);
                }
            },
            _ => {},
        }
    }
}

impl<W, R, B, U, P> ConnectedState<W, R, B, U, P> {
    /// Reads a received datagram. A datagram is read once.
    fn read_datagram(&mut self, index: usize) -> (data: Result<Bytes, StreamReadError>)
        requires
            old(self).wf(),
        ensures
            final(self).wf(),
            final(self).same_streams(*old(self)),
            ({
                let (expected, (offset, datagrams)) = datagram_result(
                    old(self).datagram_queue_offset as nat,
                    buffer_view(old(self).received_datagrams@),
                    index as nat,
                );
                &&& result_view(data) == expected
                &&& final(self).datagram_queue_offset == offset
                &&& buffer_view(final(self).received_datagrams@) == datagrams
            }),
    {
        if index < self.datagram_queue_offset {
            return Err(StreamReadError::Closed);
        }
        let place: usize = index - self.datagram_queue_offset;
        if place >= self.received_datagrams.len() {
            return Err(StreamReadError::Closed);
        }
        let ghost before = buffer_view(self.received_datagrams@);
        let datagram = match self.received_datagrams.remove(place) {
            Some(datagram) => datagram,
            None => Vec::new(),
        };
        assert(datagram@ == before[place as int]);
        let nothing: Vec<u8> = Vec::new();
        self.received_datagrams.insert(place, nothing);
        let ghost with_gap = before.update(place as int, Seq::empty());
        assert(buffer_view(self.received_datagrams@) =~= with_gap);
        let ghost mut gone: int = 0;
        assert(with_gap.skip(0) =~= with_gap);
        while self.received_datagrams.len() > 0 && self.received_datagrams[0].len() == 0
            invariant
                self.same_streams(*old(self)),
                self.wf(),
                0 <= gone <= with_gap.len(),
                self.datagram_queue_offset == old(self).datagram_queue_offset + gone,
                buffer_view(self.received_datagrams@) == with_gap.skip(gone),
                leading_empty(with_gap) == gone + leading_empty(with_gap.skip(gone)),
            decreases with_gap.len() - gone,
        {
            let ghost queue = self.received_datagrams@;
            assert(with_gap.skip(gone)[0] == queue[0]@);
            assert(with_gap.skip(gone).skip(1) =~= with_gap.skip(gone + 1));
            self.received_datagrams.pop_front();
            assert(buffer_view(self.received_datagrams@) =~= buffer_view(queue).skip(1));
            self.datagram_queue_offset = self.datagram_queue_offset + 1;
            proof {
                gone = gone + 1;
            }
        }
        proof {
            if self.received_datagrams@.len() > 0 {
                assert(with_gap.skip(gone)[0] == self.received_datagrams@[0]@);
            }
        }
        if datagram.len() == 0 {
            Err(StreamReadError::Closed)
        } else {
            Ok(from_vec(datagram))
        }
    }

    /// Reads a stream or a received datagram.
    pub fn read<F: Fn(&P) -> Option<ReadOutcome>, G: Fn(&R) -> P>(
        &mut self,
        stream: &WebTransportWebStreamId,
        poll: F,
        start: G,
    ) -> (data: Result<Result<Bytes, StreamReadError>, DatagramsReadError>)
        requires
            old(self).wf(),
            forall|pending: &P| #[trigger] poll.requires((pending,)),
            forall|reader: &R| #[trigger] start.requires((reader,)),
        ensures
            final(self).wf(),
            final(self).next_stream_id == old(self).next_stream_id,
            final(self).uni_send_streams == old(self).uni_send_streams,
            final(self).pending_bidi_open == old(self).pending_bidi_open,
            final(self).pending_uni_open == old(self).pending_uni_open,
            final(self).datagrams_writer == old(self).datagrams_writer,
            data is Err <==> stream is Datagrams,
            match stream {
                WebTransportWebStreamId::Bidirectional(id) => {
                    if old(self).bidi_streams@.contains_key(*id) {
                        let before = old(self).bidi_streams@[*id];
                        let after = final(self).bidi_streams@[*id];
                        &&& final(self).bidi_streams@ == old(self).bidi_streams@.insert(*id, after)
                        &&& after.send_writer == before.send_writer
                        &&& after.recv.reader == before.recv.reader
                        &&& exists|polled: Option<ReadOutcome>| #[trigger]
                            read_effect(before.recv, after.recv, poll, start, polled, data->Ok_0)
                    } else {
                        &&& final(self).bidi_streams@ == old(self).bidi_streams@
                        &&& data->Ok_0 == Err::<Bytes, StreamReadError>(
                            if old(self).pending_bidi_open@.contains_key(*id) {
                                StreamReadError::Blocked
                            } else {
                                StreamReadError::Closed
                            },
                        )
                    }
                },
                _ => final(self).bidi_streams == old(self).bidi_streams,
            },
            match stream {
                WebTransportWebStreamId::UnidirectionalRecv(id) => {
                    if old(self).uni_recv_streams@.contains_key(*id) {
                        let before = old(self).uni_recv_streams@[*id];
                        let after = final(self).uni_recv_streams@[*id];
                        &&& final(self).uni_recv_streams@ == old(self).uni_recv_streams@.insert(
                            *id,
                            after,
                        )
                        &&& after.reader == before.reader
                        &&& exists|polled: Option<ReadOutcome>| #[trigger]
                            read_effect(before, after, poll, start, polled, data->Ok_0)
                    } else {
                        &&& final(self).uni_recv_streams@ == old(self).uni_recv_streams@
                        &&& data->Ok_0 == Err::<Bytes, StreamReadError>(StreamReadError::Closed)
                    }
                },
                _ => final(self).uni_recv_streams == old(self).uni_recv_streams,
            },
            match stream {
                WebTransportWebStreamId::ReceivedDatagram(index) => {
                    let (expected, (offset, datagrams)) = datagram_result(
                        old(self).datagram_queue_offset as nat,
                        buffer_view(old(self).received_datagrams@),
                        *index as nat,
                    );
                    &&& result_view(data->Ok_0) == expected
                    &&& final(self).datagram_queue_offset == offset
                    &&& buffer_view(final(self).received_datagrams@) == datagrams
                },
                _ => final(self).received_datagrams == old(self).received_datagrams && final(
                    self).datagram_queue_offset == old(self).datagram_queue_offset,
            },
            stream is UnidirectionalSend ==> data->Ok_0 == Err::<Bytes, StreamReadError>(
                StreamReadError::Closed,
            ),
    {
        match stream {
            WebTransportWebStreamId::Datagrams => Err(DatagramsReadError),
            WebTransportWebStreamId::Bidirectional(id) => {
                let ghost before = self.bidi_streams@;
                match self.bidi_streams.entry(*id) {
                    Entry::Occupied(entry) => {
                        let data = entry.into_mut().recv.read(&poll, &start);
                        assert(self.bidi_streams@ =~= before.insert(*id, self.bidi_streams@[*id]));
                        Ok(data)
                    },
                    Entry::Vacant(_) => {
                        assert(self.bidi_streams@ =~= before);
                        if self.pending_bidi_open.contains_key(id) {
                            Ok(Err(StreamReadError::Blocked))
                        } else {
                            Ok(Err(StreamReadError::Closed))
                        }
                    },
                }
            },
            WebTransportWebStreamId::UnidirectionalSend(_) => Ok(Err(StreamReadError::Closed)),
            WebTransportWebStreamId::UnidirectionalRecv(id) => {
                let ghost before = self.uni_recv_streams@;
                match self.uni_recv_streams.entry(*id) {
                    Entry::Occupied(entry) => {
                        let data = entry.into_mut().read(&poll, &start);
                        assert(self.uni_recv_streams@ =~= before.insert(
                            *id,
                            self.uni_recv_streams@[*id],
                        ));
                        Ok(data)
                    },
                    Entry::Vacant(_) => {
                        assert(self.uni_recv_streams@ =~= before);
                        Ok(Err(StreamReadError::Closed))
                    },
                }
            },
            WebTransportWebStreamId::ReceivedDatagram(index) => Ok(self.read_datagram(*index)),
        }
    }
}

/// What polling the bidirectional streams does: those that are there join the streams, then the
/// reads that are over are taken note of.
pub open spec fn bidi_polled<
    W,
    R,
    B,
    P,
    FB: Fn(&B) -> Option<Option<BidiStreamState<W, R, P>>>,
    FP: Fn(&P) -> Option<ReadOutcome>,
>(
    pending: (Map<u32, B>, Map<u32, B>),
    streams: (
        Map<u32, BidiStreamState<W, R, P>>,
        Map<u32, BidiStreamState<W, R, P>>,
        Map<u32, BidiStreamState<W, R, P>>,
    ),
    poll_bidi: FB,
    poll_read: FP,
) -> bool {
    &&& forall|id: u32| #[trigger]
        settled_one(pending, (streams.0, streams.1), poll_bidi, id)
    &&& streams.2.dom() == streams.1.dom()
    &&& forall|id: u32| #[trigger]
        streams.1.contains_key(id) ==> streams.2[id].send_writer == streams.1[id].send_writer
            && polled_read(streams.1[id].recv, streams.2[id].recv, poll_read)
}

/// The datagram with a number, which is empty if there is none or it has been read.
pub open spec fn kept(offset: nat, datagrams: Seq<Seq<u8>>, index: nat) -> Seq<u8> {
    if offset <= index < offset + datagrams.len() {
        datagrams[index - offset]
    } else {
        Seq::empty()
    }
}

/// A datagram is read once: it is closed from then on. No other datagram is affected.
pub proof fn datagram_is_read_once(offset: nat, datagrams: Seq<Seq<u8>>, index: nat)
    ensures
        ({
            let (result, (after, left)) = datagram_result(offset, datagrams, index);
            &&& kept(offset, datagrams, index).len() > 0 ==> result == Ok::<_, StreamReadError>(
                kept(offset, datagrams, index),
            )
            &&& datagram_result(after, left, index).0 == Err::<Seq<u8>, _>(StreamReadError::Closed)
            &&& forall|other: nat|
                other != index ==> #[trigger] kept(after, left, other) == kept(
                    offset,
                    datagrams,
                    other,
                )
        }),
{
    if offset <= index < offset + datagrams.len() {
        let with_gap = datagrams.update(index - offset, Seq::empty());
        lemma_leading_empty(with_gap);
        let count = leading_empty(with_gap);
        let (after, left) = trimmed(offset, with_gap);
        assert forall|other: nat| other != index implies #[trigger] kept(after, left, other)
            == kept(offset, datagrams, other) by {
            if offset <= other < offset + count {
                assert(with_gap[other - offset].len() == 0);
                assert(kept(offset, datagrams, other) =~= Seq::empty());
            }
        }
    }
}

/// The datagrams at the front that have been read are empty.
proof fn lemma_leading_empty(datagrams: Seq<Seq<u8>>)
    ensures
        leading_empty(datagrams) <= datagrams.len(),
        forall|i: int| 0 <= i < leading_empty(datagrams) ==> (#[trigger] datagrams[i]).len() == 0,
    decreases datagrams.len(),
{
    if datagrams.len() > 0 && datagrams[0].len() == 0 {
        lemma_leading_empty(datagrams.skip(1));
        assert forall|i: int| 0 <= i < leading_empty(datagrams) implies (#[trigger]
        datagrams[i]).len() == 0 by {
            if i > 0 {
                assert(datagrams.skip(1)[i - 1] == datagrams[i]);
            }
        }
    }
}

/// The data that a read gave, if it is over and gave some.
pub open spec fn given(polled: Option<ReadOutcome>) -> Seq<Seq<u8>> {
    match polled {
        Some(ReadOutcome::Data(data)) => seq![data@],
        _ => Seq::empty(),
    }
}

/// The data that reading a stream returned, if it returned some.
pub open spec fn returned(data: Result<Bytes, StreamReadError>) -> Seq<Seq<u8>> {
    match data {
        Ok(data) => seq![chunk(data)],
        Err(_) => Seq::empty(),
    }
}

/// Polling a stream loses nothing: the data that was buffered is followed by what the read that was
/// going on gave, if it is over. A read that is not over goes on.
pub proof fn polling_keeps_data<R, P, F: Fn(&P) -> Option<ReadOutcome>>(
    before: RecvState<R, P>,
    after: RecvState<R, P>,
    poll: F,
)
    requires
        polled_read(before, after, poll),
    ensures
        ({
            let buffer = before.read_buffer@.map_values(|data: Vec<u8>| data@);
            let left = after.read_buffer@.map_values(|data: Vec<u8>| data@);
            &&& after.reader == before.reader
            &&& match before.pending_read {
                None => left == buffer && after.pending_read is None,
                Some(pending) => exists|polled: Option<ReadOutcome>| #[trigger]
                    poll.ensures((&pending,), polled) && left == buffer + given(polled)
                        && after.pending_read == if polled is None {
                        Some(pending)
                    } else {
                        None
                    },
            }
        }),
{
    let polled = choose|polled: Option<ReadOutcome>| #[trigger]
        before.may_poll(poll, polled) && after.buffered() == buffer_after(
            before.buffered(),
            polled,
        ) && after.pending_read == if polled is Some {
            None
        } else {
            before.pending_read
        };
    let buffer = before.read_buffer@.map_values(|data: Vec<u8>| data@);
    let left = after.read_buffer@.map_values(|data: Vec<u8>| data@);
    assert(left =~= buffer + given(polled));
    if let Some(pending) = before.pending_read {
        assert(poll.ensures((&pending,), polled));
    }
}

/// Reading a stream loses nothing: what was buffered, followed by what the read that was going on
/// gave, is what is returned, followed by what is still buffered. The read that is going on is
/// asked only if nothing is buffered.
pub proof fn reading_keeps_data<R, P, F: Fn(&P) -> Option<ReadOutcome>, G: Fn(&R) -> P>(
    before: RecvState<R, P>,
    after: RecvState<R, P>,
    poll: F,
    start: G,
    polled: Option<ReadOutcome>,
    data: Result<Bytes, StreamReadError>,
)
    requires
        read_effect(before, after, poll, start, polled, data),
    ensures
        ({
            let buffer = before.read_buffer@.map_values(|data: Vec<u8>| data@);
            let left = after.read_buffer@.map_values(|data: Vec<u8>| data@);
            if buffer.len() > 0 {
                &&& data is Ok
                &&& buffer == returned(data) + left
                &&& after.pending_read == before.pending_read
            } else {
                &&& match before.pending_read {
                    Some(pending) => poll.ensures((&pending,), polled),
                    None => polled is None,
                }
                &&& given(polled) == returned(data) + left
                &&& data == Err::<Bytes, _>(StreamReadError::Blocked) <==> polled is None
                &&& data == Err::<Bytes, _>(StreamReadError::Closed) <==> polled is Some && !(
                polled->0 is Data)
                &&& after.pending_read is Some <==> polled is None
                &&& before.pending_read is Some && polled is None ==> after.pending_read
                    == before.pending_read
            }
        }),
{
    let buffer = before.read_buffer@.map_values(|data: Vec<u8>| data@);
    let left = after.read_buffer@.map_values(|data: Vec<u8>| data@);
    assert(before.buffered() == buffer);
    assert(after.buffered() == left);
    if buffer.len() > 0 {
        assert(buffer =~= returned(data) + left);
    } else {
        assert(left =~= Seq::empty());
        assert(given(polled) =~= returned(data) + left);
    }
}

/// Whether a step of a stream, which is polled or read, was given some data by a read that was over
/// and returned some data.
pub open spec fn receiving_step<R, P, F: Fn(&P) -> Option<ReadOutcome>, G: Fn(&R) -> P>(
    before: RecvState<R, P>,
    after: RecvState<R, P>,
    poll: F,
    start: G,
    got: Seq<Seq<u8>>,
    gave: Seq<Seq<u8>>,
) -> bool {
    ||| exists|polled: Option<ReadOutcome>| #[trigger]
        before.may_poll(poll, polled) && got == given(polled) && gave == Seq::<Seq<u8>>::empty()
            && after.buffered() == buffer_after(before.buffered(), polled)
    ||| exists|polled: Option<ReadOutcome>, data: Result<Bytes, StreamReadError>| #[trigger]
        read_effect(before, after, poll, start, polled, data) && gave == returned(data) && got
            == if before.buffered().len() > 0 {
            Seq::empty()
        } else {
            given(polled)
        }
}

/// However polls and reads of a stream follow each other, the data that was returned, followed by
/// what is still buffered, is the data of all reads that are over, in their order.
pub proof fn received_data_is_returned<R, P, F: Fn(&P) -> Option<ReadOutcome>, G: Fn(&R) -> P>(
    states: Seq<RecvState<R, P>>,
    poll: F,
    start: G,
    got: Seq<Seq<Seq<u8>>>,
    gave: Seq<Seq<Seq<u8>>>,
)
    requires
        states.len() == got.len() + 1,
        gave.len() == got.len(),
        forall|i: int|
            0 <= i < got.len() ==> receiving_step(
                states[i],
                states[i + 1],
                poll,
                start,
                #[trigger] got[i],
                gave[i],
            ),
    ensures
        states[0].read_buffer@.map_values(|data: Vec<u8>| data@) + got.flatten() == gave.flatten()
            + states.last().read_buffer@.map_values(|data: Vec<u8>| data@),
    decreases got.len(),
{
    let n = got.len() as int;
    let bytes = |data: Vec<u8>| data@;
    if n == 0 {
        assert(got.flatten() =~= Seq::empty());
        assert(gave.flatten() =~= Seq::empty());
        assert(states[0] == states.last());
        let buffer = states[0].read_buffer@.map_values(bytes);
        assert(buffer + Seq::<Seq<u8>>::empty() =~= Seq::<Seq<u8>>::empty() + buffer);
    } else {
        let front = states.drop_last();
        let got_before = got.drop_last();
        let gave_before = gave.drop_last();
        assert forall|i: int| 0 <= i < got_before.len() implies receiving_step(
            front[i],
            front[i + 1],
            poll,
            start,
            #[trigger] got_before[i],
            gave_before[i],
        ) by {
            assert(got[i] == got_before[i]);
        }
        received_data_is_returned(front, poll, start, got_before, gave_before);
        let before = states[n - 1];
        let after = states[n];
        assert(receiving_step(before, after, poll, start, got[n - 1], gave[n - 1]));
        let middle = before.read_buffer@.map_values(bytes);
        let left = after.read_buffer@.map_values(bytes);
        assert(before.buffered() == middle);
        assert(after.buffered() == left);
        assert(middle + got[n - 1] =~= gave[n - 1] + left) by {
            if exists|polled: Option<ReadOutcome>| #[trigger]
                before.may_poll(poll, polled) && got[n - 1] == given(polled) && gave[n - 1]
                    == Seq::<Seq<u8>>::empty() && after.buffered() == buffer_after(
                    before.buffered(),
                    polled,
                ) {
            } else {
                let (polled, data) = choose|
                    polled: Option<ReadOutcome>,
                    data: Result<Bytes, StreamReadError>,
                | #[trigger]
                    read_effect(before, after, poll, start, polled, data) && gave[n - 1]
                        == returned(data) && got[n - 1] == if before.buffered().len() > 0 {
                        Seq::empty()
                    } else {
                        given(polled)
                    };
                reading_keeps_data(before, after, poll, start, polled, data);
            }
        }
        got.lemma_flatten_and_flatten_alt_are_equivalent();
        got_before.lemma_flatten_and_flatten_alt_are_equivalent();
        gave.lemma_flatten_and_flatten_alt_are_equivalent();
        gave_before.lemma_flatten_and_flatten_alt_are_equivalent();
        let first = states[0].read_buffer@.map_values(bytes);
        assert(front[0] == states[0]);
        assert(front.last() == before);
        assert(first + (got_before.flatten() + got.last()) =~= (first + got_before.flatten())
            + got.last());
        assert((gave_before.flatten() + middle) + got.last() =~= gave_before.flatten() + (middle
            + got.last()));
        assert(gave_before.flatten() + (gave.last() + left) =~= (gave_before.flatten()
            + gave.last()) + left);
    }
}

/// A stream that is being opened goes on being opened, or fails, or is there from then on. A stream
/// that is there and none that is being opened is as it was.
pub proof fn opening_is_settled<B, S, F: Fn(&B) -> Option<Option<S>>>(
    pending: (Map<u32, B>, Map<u32, B>),
    streams: (Map<u32, S>, Map<u32, S>),
    poll: F,
    id: u32,
)
    requires
        settled_one(pending, streams, poll, id),
    ensures
        if pending.0.contains_key(id) {
            ||| pending.1.contains_key(id) && pending.1[id] == pending.0[id]
                && streams.1.contains_key(id) == streams.0.contains_key(id) && poll.ensures(
                (&pending.0[id],),
                None,
            )
            ||| !pending.1.contains_key(id) && poll.ensures((&pending.0[id],), Some(None))
                && streams.1.contains_key(id) == streams.0.contains_key(id)
            ||| !pending.1.contains_key(id) && streams.1.contains_key(id) && poll.ensures(
                (&pending.0[id],),
                Some(Some(streams.1[id])),
            )
        } else {
            &&& !pending.1.contains_key(id)
            &&& streams.1.contains_key(id) == streams.0.contains_key(id)
            &&& streams.0.contains_key(id) ==> streams.1[id] == streams.0[id]
        },
{
    if pending.0.contains_key(id) {
        let polled = choose|polled: Option<Option<S>>| #[trigger]
            poll.ensures((&pending.0[id],), polled) && match polled {
                None => pending.1.get(id) == pending.0.get(id) && streams.1.get(id)
                    == streams.0.get(id),
                Some(None) => pending.1.get(id) is None && streams.1.get(id) == streams.0.get(id),
                Some(Some(stream)) => pending.1.get(id) is None && streams.1.get(id) == Some(
                    stream,
                ),
            };
        assert(poll.ensures((&pending.0[id],), polled));
    }
}

/// Each stream that can be written has its own writer, and streams that are only received have
/// none.
pub proof fn writers_of_streams<W, R, B, U, P>(state: ConnectedState<W, R, B, U, P>, id: u32)
    ensures
        state.bidi_streams@.contains_key(id) ==> state.writer(
            WebTransportWebStreamId::Bidirectional(id),
        ) == Some(state.bidi_streams@[id].send_writer) && state.reader(
            WebTransportWebStreamId::Bidirectional(id),
        ) == Some(state.bidi_streams@[id].recv.reader),
        state.uni_send_streams@.contains_key(id) ==> state.writer(
            WebTransportWebStreamId::UnidirectionalSend(id),
        ) == Some(state.uni_send_streams@[id]),
        state.uni_recv_streams@.contains_key(id) ==> state.reader(
            WebTransportWebStreamId::UnidirectionalRecv(id),
        ) == Some(state.uni_recv_streams@[id].reader),
        state.writer(WebTransportWebStreamId::Datagrams) == state.datagrams_writer,
        state.writer(WebTransportWebStreamId::UnidirectionalRecv(id)) is None,
        state.reader(WebTransportWebStreamId::UnidirectionalSend(id)) is None,
        !state.bidi_streams@.contains_key(id) ==> state.writer(
            WebTransportWebStreamId::Bidirectional(id),
        ) is None,
        !state.uni_send_streams@.contains_key(id) ==> state.writer(
            WebTransportWebStreamId::UnidirectionalSend(id),
        ) is None,
{
}

/// Reading a received datagram gives the datagram that has the number, if it is there and was not
/// read. The numbers of the others stay what they are.
pub proof fn datagrams_keep_their_numbers(
    offset: nat,
    datagrams: Seq<Seq<u8>>,
    index: nat,
    other: nat,
)
    ensures
        ({
            let (result, (after, left)) = datagram_result(offset, datagrams, index);
            let there = offset <= index < offset + datagrams.len()
                && datagrams[index - offset].len() > 0;
            &&& result == if there {
                Ok(datagrams[index - offset])
            } else {
                Err(StreamReadError::Closed)
            }
            &&& after + left.len() == offset + datagrams.len()
            &&& other != index && offset <= other < offset + datagrams.len() && datagrams[other
                - offset].len() > 0 ==> after <= other < after + left.len() && left[other - after]
                == datagrams[other - offset]
            &&& after <= other < after + left.len() && left[other - after].len() > 0 ==> offset
                <= other && other != index && left[other - after] == datagrams[other - offset]
        }),
{
    if offset <= index < offset + datagrams.len() {
        let changed = datagrams.update(index - offset, Seq::empty());
        lemma_leading_empty(changed);
        lemma_front_is_empty(changed, other - offset);
    }
}

/// What is at the front and gone is empty.
proof fn lemma_front_is_empty(datagrams: Seq<Seq<u8>>, place: int)
    ensures
        leading_empty(datagrams) <= datagrams.len(),
        0 <= place < leading_empty(datagrams) ==> datagrams[place].len() == 0,
    decreases datagrams.len(),
{
    if datagrams.len() > 0 && datagrams[0].len() == 0 {
        lemma_front_is_empty(datagrams.skip(1), place - 1);
        if place > 0 && place < leading_empty(datagrams) {
            assert(datagrams.skip(1)[place - 1] == datagrams[place]);
        }
    }
}

/// A read leaves no datagrams at the front that have been read: what is left is empty or starts with
/// one that has not been read.
pub proof fn read_datagrams_are_dropped(offset: nat, datagrams: Seq<Seq<u8>>, index: nat)
    requires
        offset <= index < offset + datagrams.len(),
        datagrams[index - offset].len() > 0,
    ensures
        ({
            let (_, (after, left)) = datagram_result(offset, datagrams, index);
            &&& left.len() > 0 ==> left[0].len() > 0
            &&& after >= offset
        }),
{
    let changed = datagrams.update(index - offset, Seq::empty());
    lemma_leading_empty(changed);
    lemma_empty_ends(changed);
}

/// What follows the datagrams at the front that have been read has not been read.
proof fn lemma_empty_ends(datagrams: Seq<Seq<u8>>)
    ensures
        leading_empty(datagrams) < datagrams.len() ==> datagrams[leading_empty(
            datagrams,
        ) as int].len() > 0,
    decreases datagrams.len(),
{
    if datagrams.len() > 0 && datagrams[0].len() == 0 {
        lemma_empty_ends(datagrams.skip(1));
    }
}

} // verus!
