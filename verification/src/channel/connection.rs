//! Connections over channels.
use super::conditioner::{
    arrived, conditioned, draws, lemma_arrived, messages_take_draws, new_conditioner, with_delayed,
    xorshift, ConditionerView, DelayedView, LinkConditionerConfig, LinkConditionerState,
};
use super::message::{
    came_off, handed_over, message_views, messages_offered, messages_received, messages_sent,
    receive, receive_alike, send, ChannelMessage, MessageView,
};
use crate::chunk::{chunk, chunks, joined, lemma_joined_first};
use crate::reader::{
    fresh_reader, frameable, message_frames, message_frames_round_trip, reader_run, ReaderView,
};
use crate::transport::{
    ConnectionContext, MismatchedStreamError, StreamReadError, StreamRequirements,
};
use bytes::Bytes;
use crossbeam_channel::{Receiver, Sender};
use std::collections::hash_map::Entry;
use std::collections::{HashMap, VecDeque};
use vstd::prelude::*;

verus! {

broadcast use vstd::std_specs::hash::group_hash_axioms;

/// State of a single stream.
pub struct StreamState {
    /// Chunks of data that have been received.
    pub recv_buffer: VecDeque<Bytes>,
    /// Whether the send side is closed.
    pub send_closed: bool,
    /// Whether the receive side is closed.
    pub recv_closed: bool,
}

/// What a stream has received, and whether its sides are closed.
pub struct StreamView {
    pub unread: Seq<Seq<u8>>,
    pub send_closed: bool,
    pub recv_closed: bool,
}

impl View for StreamState {
    type V = StreamView;

    open spec fn view(&self) -> StreamView {
        StreamView {
            unread: chunks(self.recv_buffer@),
            send_closed: self.send_closed,
            recv_closed: self.recv_closed,
        }
    }
}

/// A stream on which nothing has happened.
pub open spec fn new_stream_view() -> StreamView {
    StreamView { unread: Seq::empty(), send_closed: false, recv_closed: false }
}

impl StreamState {
    /// A stream on which nothing has happened.
    fn new() -> (stream: Self)
        ensures
            stream@ == new_stream_view(),
    {
        let stream = StreamState {
            recv_buffer: VecDeque::new(),
            send_closed: false,
            recv_closed: false,
        };
        assert(stream@.unread =~= Seq::empty());
        stream
    }
}

/// The first stream id of the side that has accepted a connection. The side that has initiated it
/// starts at 0, so that a stream of one side has not the id of a stream of the other side.
pub const FIRST_ACCEPTED_ID: u32 = 0x4000_0000;

/// The first of the ids under which datagrams are read.
pub const FIRST_DATAGRAM_ID: u32 = 0x8000_0000;

/// State of a channel connection.
pub struct ChannelConnectionState {
    /// Channel to send messages to the remote.
    pub tx: Sender<ChannelMessage>,
    /// Channel to receive messages from the remote.
    pub rx: Receiver<ChannelMessage>,
    /// State of streams on this connection.
    pub streams: HashMap<u32, StreamState>,
    /// Next stream id to allocate.
    pub next_stream_id: u32,
    /// Incoming streams waiting to be accepted.
    pub incoming_streams: VecDeque<(u32, StreamRequirements)>,
    /// Received datagrams.
    pub datagrams: VecDeque<Bytes>,
    /// The number of the first received datagram.
    pub datagram_index: usize,
    /// Whether close has been requested.
    pub close_requested: bool,
    /// Optional link conditioner for simulating network conditions.
    pub conditioner: Option<LinkConditionerState>,
}

/// What a connection has received and knows, apart from its channels.
pub struct ChannelView {
    pub streams: Map<u32, StreamView>,
    pub next_stream_id: u32,
    pub incoming: Seq<(u32, StreamRequirements)>,
    pub datagrams: Seq<Seq<u8>>,
    pub datagram_index: nat,
    pub close_requested: bool,
    pub conditioner: Option<ConditionerView>,
}

/// What each stream has received.
pub open spec fn stream_views(streams: Map<u32, StreamState>) -> Map<u32, StreamView> {
    streams.map_values(|stream: StreamState| stream@)
}

impl View for ChannelConnectionState {
    type V = ChannelView;

    open spec fn view(&self) -> ChannelView {
        ChannelView {
            streams: stream_views(self.streams@),
            next_stream_id: self.next_stream_id,
            incoming: self.incoming_streams@,
            datagrams: chunks(self.datagrams@),
            datagram_index: self.datagram_index as nat,
            close_requested: self.close_requested,
            conditioner: match self.conditioner {
                Some(conditioner) => Some(conditioner@),
                None => None,
            },
        }
    }
}

impl ChannelView {
    /// Datagrams can be numbered, and the conditioner is consistent.
    pub open spec fn wf(self) -> bool {
        &&& self.datagram_index + self.datagrams.len() <= usize::MAX
        &&& self.conditioner matches Some(conditioner) ==> conditioner.wf()
    }
}

/// The effect of a message from the remote. A datagram for which there is no number left is lost.
pub open spec fn processed(view: ChannelView, message: MessageView) -> ChannelView {
    match message {
        MessageView::StreamOpen { stream_id, requirements } => ChannelView {
            streams: view.streams.insert(stream_id, new_stream_view()),
            incoming: view.incoming.push((stream_id, requirements)),
            ..view
        },
        MessageView::StreamData { stream_id, data } => if view.streams.contains_key(stream_id) {
            let stream = view.streams[stream_id];
            ChannelView {
                streams: view.streams.insert(
                    stream_id,
                    StreamView { unread: stream.unread.push(data), ..stream },
                ),
                ..view
            }
        } else {
            view
        },
        MessageView::StreamClose { stream_id } => if view.streams.contains_key(stream_id) {
            let stream = view.streams[stream_id];
            ChannelView {
                streams: view.streams.insert(
                    stream_id,
                    StreamView { recv_closed: true, ..stream },
                ),
                ..view
            }
        } else {
            view
        },
        MessageView::Datagram(data) => if view.datagram_index + view.datagrams.len() < usize::MAX {
            ChannelView { datagrams: view.datagrams.push(data), ..view }
        } else {
            view
        },
    }
}

/// The effect of several messages from the remote.
pub open spec fn processed_all(view: ChannelView, messages: Seq<MessageView>) -> ChannelView
    decreases messages.len(),
{
    if messages.len() == 0 {
        view
    } else {
        processed(processed_all(view, messages.drop_last()), messages.last())
    }
}

/// The effect of several messages on a link conditioner.
pub open spec fn conditioned_all(
    conditioner: ConditionerView,
    messages: Seq<MessageView>,
    now: nat,
) -> ConditionerView
    decreases messages.len(),
{
    if messages.len() == 0 {
        conditioner
    } else {
        conditioned(conditioned_all(conditioner, messages.drop_last(), now), messages.last(), now)
    }
}

/// The effect of several messages that have come from the remote: they are processed, or go
/// through the conditioner, and what has arrived is processed.
pub open spec fn taken_in(view: ChannelView, messages: Seq<MessageView>, now: nat) -> ChannelView {
    match view.conditioner {
        None => processed_all(view, messages),
        Some(conditioner) => {
            let after = conditioned_all(conditioner, messages, now);
            let count = arrived(after.delayed, now) as int;
            let left = ConditionerView { delayed: after.delayed.skip(count), ..after };
            processed_all(
                ChannelView { conditioner: Some(left), ..view },
                after.delayed.take(count).map_values(|entry: DelayedView| entry.1),
            )
        },
    }
}

/// A connection on which nothing has happened.
pub open spec fn new_channel_view(conditioner: Option<ConditionerView>) -> ChannelView {
    ChannelView {
        streams: Map::empty(),
        next_stream_id: 0,
        incoming: Seq::empty(),
        datagrams: Seq::empty(),
        datagram_index: 0,
        close_requested: false,
        conditioner,
    }
}

/// An accepted connection on which nothing has happened.
pub open spec fn accepted_channel_view() -> ChannelView {
    ChannelView { next_stream_id: FIRST_ACCEPTED_ID, ..new_channel_view(None) }
}

impl ChannelConnectionState {
    /// Datagrams can be numbered, and the conditioner is consistent.
    pub open spec fn wf(self) -> bool {
        self@.wf()
    }

    /// Creates a connection over two channels. The seed is used by a conditioner that has none.
    pub fn new(
        tx: Sender<ChannelMessage>,
        rx: Receiver<ChannelMessage>,
        conditioner_config: Option<LinkConditionerConfig>,
        fallback_seed: u64,
    ) -> (state: Self)
        ensures
            state.wf(),
            state.tx == tx,
            state.rx == rx,
            state@ == new_channel_view(
                match conditioner_config {
                    Some(config) => Some(new_conditioner(config, fallback_seed)),
                    None => None,
                },
            ),
    {
        let conditioner = match conditioner_config {
            Some(config) => Some(LinkConditionerState::new(config, fallback_seed)),
            None => None,
        };
        let state = ChannelConnectionState {
            tx,
            rx,
            streams: HashMap::new(),
            next_stream_id: 0,
            incoming_streams: VecDeque::new(),
            datagrams: VecDeque::new(),
            datagram_index: 0,
            close_requested: false,
            conditioner,
        };
        assert(state@.streams =~= Map::empty());
        assert(state@.datagrams =~= Seq::empty());
        state
    }

    /// Takes in all messages that the remote has sent.
    pub fn poll_messages(&mut self, now: u64)
        requires
            old(self).wf(),
        ensures
            final(self).wf(),
            final(self).tx == old(self).tx,
            receive_alike(final(self).rx, old(self).rx),
            exists|messages: Seq<MessageView>|
                came_off(old(self).rx, final(self).rx, messages) && messages_received(
                    final(self).rx,
                ) == messages_received(old(self).rx) + messages && final(self)@
                    == #[trigger] taken_in(old(self)@, messages, now as nat),
    {
        let messages = receive(&mut self.rx);
        let ghost views = message_views(messages@);
        assert(self@ == old(self)@);
        self.take_messages(messages, now);
        assert(self@ == taken_in(old(self)@, views, now as nat));
    }

    /// Takes in messages that have come from the remote.
    pub fn take_messages(&mut self, messages: Vec<ChannelMessage>, now: u64)
        requires
            old(self).wf(),
        ensures
            final(self).wf(),
            final(self).tx == old(self).tx,
            final(self).rx == old(self).rx,
            final(self)@ == taken_in(old(self)@, message_views(messages@), now as nat),
    {
        match self.conditioner.take() {
            None => {
                assert(self@ == old(self)@);
                self.process_messages(messages);
            },
            Some(conditioner) => {
                let mut conditioner = conditioner;
                let ghost start = conditioner@;
                let ghost views = message_views(messages@);
                assert(views.take(0) =~= Seq::empty());
                for message in iter: messages
                    invariant
                        conditioner.wf(),
                        views == message_views(iter.seq()),
                        conditioner@ == conditioned_all(
                            start,
                            views.take(iter.index() as int),
                            now as nat,
                        ),
                {
                    proof {
                        let n = iter.index() as int;
                        assert(views.take(n + 1).drop_last() =~= views.take(n));
                        assert(views.take(n + 1).last() == message@);
                    }
                    conditioner.enqueue(message, now);
                }
                assert(views.take(views.len() as int) =~= views);
                let ready = conditioner.drain_ready(now);
                self.conditioner = Some(conditioner);
                self.process_messages(ready);
            },
        }
    }

    /// Processes messages in their order.
    fn process_messages(&mut self, messages: Vec<ChannelMessage>)
        requires
            old(self).wf(),
        ensures
            final(self).wf(),
            final(self).tx == old(self).tx,
            final(self).rx == old(self).rx,
            final(self)@ == processed_all(old(self)@, message_views(messages@)),
    {
        let ghost views = message_views(messages@);
        assert(views.take(0) =~= Seq::empty());
        for message in iter: messages
            invariant
                self.wf(),
                self.tx == old(self).tx,
                self.rx == old(self).rx,
                views == message_views(iter.seq()),
                self@ == processed_all(old(self)@, views.take(iter.index() as int)),
        {
            proof {
                let n = iter.index() as int;
                assert(views.take(n + 1).drop_last() =~= views.take(n));
                assert(views.take(n + 1).last() == message@);
            }
            self.process_message(message);
        }
        assert(views.take(views.len() as int) =~= views);
    }

    /// Processes a single message into the connection state.
    pub fn process_message(&mut self, message: ChannelMessage)
        requires
            old(self).wf(),
        ensures
            final(self).wf(),
            final(self).tx == old(self).tx,
            final(self).rx == old(self).rx,
            final(self)@ == processed(old(self)@, message@),
    {
        let ghost before = self@;
        match message {
            ChannelMessage::StreamOpen { stream_id, requirements } => {
                self.streams.insert(stream_id, StreamState::new());
                self.incoming_streams.push_back((stream_id, requirements));
                assert(self@.streams =~= before.streams.insert(stream_id, new_stream_view()));
            },
            ChannelMessage::StreamData { stream_id, data } => {
                match self.streams.entry(stream_id) {
                    Entry::Occupied(entry) => {
                        let stream = entry.into_mut();
                        let ghost unread = stream@.unread;
                        stream.recv_buffer.push_back(data);
                        assert(stream@.unread =~= unread.push(chunk(data)));
                    },
                    Entry::Vacant(_) => {},
                }
                assert(self@.streams =~= processed(before, message@).streams);
            },
            ChannelMessage::StreamClose { stream_id } => {
                match self.streams.entry(stream_id) {
                    Entry::Occupied(entry) => {
                        entry.into_mut().recv_closed = true;
                    },
                    Entry::Vacant(_) => {},
                }
                assert(self@.streams =~= processed(before, message@).streams);
            },
            ChannelMessage::Datagram(data) => {
                if self.datagrams.len() < usize::MAX - self.datagram_index {
                    self.datagrams.push_back(data);
                    assert(self@.datagrams =~= before.datagrams.push(chunk(data)));
                }
            },
        }
    }
}

/// Stream id for channel transport.
#[derive(Clone, Copy, Debug, PartialEq, Eq, Hash, Structural)]
pub enum ChannelStreamId {
    /// A regular stream with an id.
    Stream(u32),
    /// Stream for sending datagrams.
    Datagram,
    /// A received datagram (each datagram is treated as its own stream).
    ReceivedDatagram(usize),
}

/// The chunks of data that messages carry for a stream.
pub open spec fn stream_data(messages: Seq<MessageView>, stream_id: u32) -> Seq<Seq<u8>>
    decreases messages.len(),
{
    if messages.len() == 0 {
        Seq::empty()
    } else {
        let before = stream_data(messages.drop_last(), stream_id);
        match messages.last() {
            MessageView::StreamData { stream_id: id, data } if id == stream_id => before.push(data),
            _ => before,
        }
    }
}

/// The datagrams that messages carry.
pub open spec fn datagram_data(messages: Seq<MessageView>) -> Seq<Seq<u8>>
    decreases messages.len(),
{
    if messages.len() == 0 {
        Seq::empty()
    } else {
        let before = datagram_data(messages.drop_last());
        match messages.last() {
            MessageView::Datagram(data) => before.push(data),
            _ => before,
        }
    }
}

/// What messages carry for a stream id.
pub open spec fn carried(messages: Seq<MessageView>, stream: ChannelStreamId) -> Seq<u8> {
    match stream {
        ChannelStreamId::Stream(id) => joined(stream_data(messages, id)),
        ChannelStreamId::Datagram => joined(datagram_data(messages)),
        ChannelStreamId::ReceivedDatagram(_) => Seq::empty(),
    }
}

/// The stream id under which the datagram with a number is read. It is none that a side gives to
/// its streams.
pub open spec fn datagram_stream_id(index: nat) -> u32 {
    (u32::MAX - index % (FIRST_DATAGRAM_ID as nat)) as u32
}

/// The stream in which an accepted datagram is read.
pub open spec fn datagram_stream(data: Seq<u8>) -> StreamView {
    StreamView { unread: seq![data], send_closed: true, recv_closed: false }
}

/// One more message carries what it says.
proof fn lemma_carried_push(messages: Seq<MessageView>, message: MessageView)
    ensures
        forall|stream: ChannelStreamId| #[trigger]
            carried(messages.push(message), stream) == carried(messages, stream) + match message {
                MessageView::StreamData { stream_id, data } if stream == ChannelStreamId::Stream(
                    stream_id,
                ) => data,
                MessageView::Datagram(data) if stream == ChannelStreamId::Datagram => data,
                _ => Seq::empty(),
            },
{
    assert(messages.push(message).drop_last() =~= messages);
    assert forall|stream: ChannelStreamId| #[trigger]
        carried(messages.push(message), stream) == carried(messages, stream) + match message {
            MessageView::StreamData { stream_id, data } if stream == ChannelStreamId::Stream(
                stream_id,
            ) => data,
            MessageView::Datagram(data) if stream == ChannelStreamId::Datagram => data,
            _ => Seq::empty(),
        } by {
        match stream {
            ChannelStreamId::Stream(id) => {
                let before = stream_data(messages, id);
                match message {
                    MessageView::StreamData { stream_id, data } if id == stream_id => {
                        assert(before.push(data).drop_last() =~= before);
                    },
                    _ => {
                        assert(joined(before) + Seq::<u8>::empty() =~= joined(before));
                    },
                }
            },
            ChannelStreamId::Datagram => {
                let before = datagram_data(messages);
                match message {
                    MessageView::Datagram(data) => {
                        assert(before.push(data).drop_last() =~= before);
                    },
                    _ => {
                        assert(joined(before) + Seq::<u8>::empty() =~= joined(before));
                    },
                }
            },
            ChannelStreamId::ReceivedDatagram(_) => {
                assert(Seq::<u8>::empty() + Seq::<u8>::empty() =~= Seq::empty());
            },
        }
    }
}

/// The message that carries data for a stream. There is none for a received datagram, which cannot
/// be written.
pub open spec fn data_message(stream: ChannelStreamId, data: Seq<u8>) -> Option<MessageView> {
    match stream {
        ChannelStreamId::Datagram => Some(MessageView::Datagram(data)),
        ChannelStreamId::Stream(id) => Some(MessageView::StreamData { stream_id: id, data }),
        ChannelStreamId::ReceivedDatagram(_) => None,
    }
}

/// The number of bytes that are taken over of a message, which was put on the channel or not.
pub open spec fn size_after(len: usize, sent: bool) -> usize {
    if sent {
        len
    } else {
        0
    }
}

/// Tells how many bytes are taken over of a message, which was put on the channel or not.
pub fn taken_over(len: usize, sent: bool) -> (size: usize)
    ensures
        size == size_after(len, sent),
{
    if sent {
        len
    } else {
        0
    }
}

/// The stream that is accepted next: a stream that the remote has opened, or else a datagram.
pub open spec fn next_accept(state: ChannelView) -> Option<(ChannelStreamId, StreamRequirements)> {
    if state.incoming.len() > 0 {
        Some((ChannelStreamId::Stream(state.incoming[0].0), state.incoming[0].1))
    } else if state.datagrams.len() > 0 {
        Some(
            (
                ChannelStreamId::Stream(datagram_stream_id(state.datagram_index)),
                StreamRequirements { reliable: false, ordered: false, bidirectional: false },
            ),
        )
    } else {
        None
    }
}

/// Connection context for channel transport.
pub struct ChannelConnectionContext<'a> {
    pub state: &'a mut ChannelConnectionState,
}

impl<'a> ChannelConnectionContext<'a> {
    /// The state of the connection.
    pub open spec fn current(self) -> ChannelConnectionState {
        *self.state
    }
}

impl<'a> ConnectionContext for ChannelConnectionContext<'a> {
    type Stream = ChannelStreamId;

    type Error = MismatchedStreamError;

    open spec fn wf(&self) -> bool {
        self.state.wf()
    }

    open spec fn sent(&self, stream: ChannelStreamId) -> Seq<u8> {
        carried(messages_sent(self.state.tx), stream)
    }

    open spec fn can_write(&self, stream: ChannelStreamId) -> bool {
        true
    }

    open spec fn can_read(&self, stream: ChannelStreamId) -> bool {
        true
    }

    open spec fn unread(&self, stream: ChannelStreamId) -> Seq<u8> {
        match stream {
            ChannelStreamId::Stream(id) if self.state@.streams.contains_key(id) => {
                joined(self.state@.streams[id].unread)
            },
            _ => Seq::empty(),
        }
    }

    open spec fn reads_left(&self, stream: ChannelStreamId) -> nat {
        match stream {
            ChannelStreamId::Stream(id) if self.state@.streams.contains_key(id) => {
                self.state@.streams[id].unread.len()
            },
            _ => 0,
        }
    }

    open spec fn ended(&self, stream: ChannelStreamId) -> bool {
        match stream {
            ChannelStreamId::Stream(id) => !self.state@.streams.contains_key(id)
                || self.state@.streams[id].recv_closed,
            ChannelStreamId::Datagram => false,
            ChannelStreamId::ReceivedDatagram(index) => index < self.state@.datagram_index
                + self.state@.datagrams.len(),
        }
    }

    open spec fn accepts_left(&self) -> nat {
        self.state@.incoming.len() + self.state@.datagrams.len()
    }

    open spec fn closing(&self) -> bool {
        self.state@.close_requested
    }

    open spec fn can_open(&self, requirements: StreamRequirements) -> bool {
        requirements.met_by_datagrams() || self.state@.next_stream_id < u32::MAX
    }

    open spec fn opened(
        before: Self,
        after: Self,
        requirements: StreamRequirements,
        stream: Result<ChannelStreamId, MismatchedStreamError>,
    ) -> bool {
        &&& after.state.rx == before.state.rx
        &&& if requirements.met_by_datagrams() {
            &&& stream == Ok::<_, MismatchedStreamError>(ChannelStreamId::Datagram)
            &&& after.state@ == before.state@
            &&& after.state.tx == before.state.tx
        } else {
            let id = before.state@.next_stream_id;
            let opened = MessageView::StreamOpen { stream_id: id, requirements };
            &&& stream == Ok::<_, MismatchedStreamError>(ChannelStreamId::Stream(id))
            &&& after.state@ == (ChannelView {
                next_stream_id: (id + 1) as u32,
                streams: before.state@.streams.insert(id, new_stream_view()),
                ..before.state@
            })
            &&& exists|sent: bool| #[trigger]
                handed_over(before.state.tx, after.state.tx, opened, sent)
        }
    }

    open spec fn wrote(
        before: Self,
        after: Self,
        stream: ChannelStreamId,
        data: Seq<u8>,
        block: bool,
        written: Result<usize, MismatchedStreamError>,
    ) -> bool {
        &&& after.state@ == before.state@
        &&& after.state.rx == before.state.rx
        &&& match data_message(stream, data) {
            Some(message) => exists|sent: bool| #[trigger]
                handed_over(before.state.tx, after.state.tx, message, sent) && written == Ok::<
                    usize,
                    MismatchedStreamError,
                >(size_after(data.len() as usize, sent)),
            None => written == Ok::<usize, MismatchedStreamError>(0) && after.state.tx
                == before.state.tx,
        }
    }

    open spec fn send_closed(
        before: Self,
        after: Self,
        stream: ChannelStreamId,
        graceful: bool,
        closed: Result<(), MismatchedStreamError>,
    ) -> bool {
        let state = before.state@;
        &&& closed is Ok
        &&& after.state.rx == before.state.rx
        &&& match stream {
            ChannelStreamId::Stream(id) => {
                &&& exists|sent: bool| #[trigger]
                    handed_over(
                        before.state.tx,
                        after.state.tx,
                        MessageView::StreamClose { stream_id: id },
                        sent,
                    )
                &&& after.state@ == if state.streams.contains_key(id) {
                    ChannelView {
                        streams: state.streams.insert(
                            id,
                            StreamView { send_closed: true, ..state.streams[id] },
                        ),
                        ..state
                    }
                } else {
                    state
                }
            },
            _ => after.state@ == state && after.state.tx == before.state.tx,
        }
    }

    open spec fn accepted(
        before: Self,
        after: Self,
        stream: Option<(ChannelStreamId, StreamRequirements)>,
    ) -> bool {
        let state = before.state@;
        &&& stream == next_accept(state)
        &&& after.state.tx == before.state.tx
        &&& after.state.rx == before.state.rx
        &&& after.state@ == if state.incoming.len() > 0 {
            ChannelView { incoming: state.incoming.skip(1), ..state }
        } else if state.datagrams.len() > 0 {
            ChannelView {
                datagrams: state.datagrams.skip(1),
                datagram_index: state.datagram_index + 1,
                streams: state.streams.insert(
                    datagram_stream_id(state.datagram_index),
                    datagram_stream(state.datagrams[0]),
                ),
                ..state
            }
        } else {
            state
        }
    }

    open spec fn was_read(
        before: Self,
        after: Self,
        stream: ChannelStreamId,
        data: Result<Result<Bytes, StreamReadError>, MismatchedStreamError>,
    ) -> bool {
        &&& data is Ok
        &&& after.state.tx == before.state.tx
        &&& after.state.rx == before.state.rx
        &&& match stream {
            ChannelStreamId::Datagram => data->Ok_0 == Err::<Bytes, _>(StreamReadError::Blocked)
                && after.state@ == before.state@,
            ChannelStreamId::Stream(id) => {
                let state = before.state@;
                let stream_before = state.streams[id];
                match data->Ok_0 {
                    Ok(data) => {
                        &&& state.streams.contains_key(id)
                        &&& stream_before.unread.len() > 0
                        &&& chunk(data) == stream_before.unread[0]
                        &&& after.state@ == (ChannelView {
                            streams: state.streams.insert(
                                id,
                                StreamView {
                                    unread: stream_before.unread.skip(1),
                                    ..stream_before
                                },
                            ),
                            ..state
                        })
                    },
                    Err(error) => {
                        &&& state.streams.contains_key(id) ==> stream_before.unread.len() == 0
                        &&& error == if state.streams.contains_key(id)
                            && !stream_before.recv_closed {
                            StreamReadError::Blocked
                        } else {
                            StreamReadError::Closed
                        }
                        &&& after.state@ == state
                    },
                }
            },
            ChannelStreamId::ReceivedDatagram(index) => {
                let state = before.state@;
                &&& data->Ok_0 == Err::<Bytes, _>(
                    if index < state.datagram_index + state.datagrams.len() {
                        StreamReadError::Closed
                    } else {
                        StreamReadError::Blocked
                    },
                )
                &&& after.state@ == if state.datagram_index <= index
                    < state.datagram_index + state.datagrams.len() {
                    ChannelView {
                        datagrams: state.datagrams.skip(index - state.datagram_index + 1),
                        datagram_index: index as nat + 1,
                        ..state
                    }
                } else {
                    state
                }
            },
        }
    }

    fn new_stream(&mut self, requirements: StreamRequirements) -> (stream: Result<
        ChannelStreamId,
        MismatchedStreamError,
    >) {
        if !requirements.reliable && !requirements.ordered && !requirements.bidirectional {
            return Ok(ChannelStreamId::Datagram);
        }
        let ghost before = self.state@;
        let stream_id: u32 = self.state.next_stream_id;
        self.state.next_stream_id = stream_id + 1;
        let message = ChannelMessage::StreamOpen { stream_id, requirements };
        proof {
            lemma_carried_push(messages_sent(self.state.tx), message@);
        }
        let ghost opened = message@;
        let sent = send(&mut self.state.tx, message);
        assert(opened == MessageView::StreamOpen { stream_id, requirements });
        self.state.streams.insert(stream_id, StreamState::new());
        assert(self.state@.streams =~= before.streams.insert(stream_id, new_stream_view()));
        assert forall|any: ChannelStreamId| #[trigger] self.sent(any) == old(self).sent(any) by {
            assert(old(self).sent(any) + Seq::<u8>::empty() =~= old(self).sent(any));
        }
        assert(handed_over(old(self).state.tx, self.state.tx, opened, sent));
        Ok(ChannelStreamId::Stream(stream_id))
    }

    fn write(&mut self, stream: &ChannelStreamId, data: Bytes, block: bool) -> (written: Result<
        usize,
        MismatchedStreamError,
    >) {
        let len: usize = data.len();
        let message = match stream {
            ChannelStreamId::Datagram => ChannelMessage::Datagram(data),
            ChannelStreamId::Stream(id) => ChannelMessage::StreamData { stream_id: *id, data },
            ChannelStreamId::ReceivedDatagram(_) => {
                assert(chunk(data).take(0) =~= Seq::empty());
                assert(self.sent(*stream) + Seq::<u8>::empty() =~= self.sent(*stream));
                return Ok(0);
            },
        };
        proof {
            lemma_carried_push(messages_sent(self.state.tx), message@);
            assert(chunk(data).take(0) =~= Seq::empty());
            assert(chunk(data).take(len as int) =~= chunk(data));
            assert forall|any: ChannelStreamId| #[trigger]
                carried(messages_sent(self.state.tx), any) + Seq::<u8>::empty() == carried(
                    messages_sent(self.state.tx),
                    any,
                ) by {
                assert(carried(messages_sent(self.state.tx), any) + Seq::<u8>::empty()
                    =~= carried(messages_sent(self.state.tx), any));
            }
        }
        let sent = send(&mut self.state.tx, message);
        assert(handed_over(old(self).state.tx, self.state.tx, message@, sent));
        Ok(taken_over(len, sent))
    }

    fn read(&mut self, stream: &ChannelStreamId) -> (data: Result<
        Result<Bytes, StreamReadError>,
        MismatchedStreamError,
    >) {
        let ghost before = self.state@;
        match stream {
            ChannelStreamId::Datagram => Ok(Err(StreamReadError::Blocked)),
            ChannelStreamId::Stream(id) => {
                match self.state.streams.entry(*id) {
                    Entry::Vacant(_) => {
                        assert(self.state@.streams =~= before.streams);
                        Ok(Err(StreamReadError::Closed))
                    },
                    Entry::Occupied(entry) => {
                        let stream_state = entry.into_mut();
                        let ghost unread = stream_state@.unread;
                        match stream_state.recv_buffer.pop_front() {
                            Some(data) => {
                                assert(stream_state@.unread =~= unread.skip(1));
                                proof {
                                    lemma_joined_first(unread);
                                }
                                assert(self.state@.streams =~= before.streams.insert(
                                    *id,
                                    StreamView { unread: unread.skip(1), ..before.streams[*id] },
                                ));
                                Ok(Ok(data))
                            },
                            None => {
                                let closed = stream_state.recv_closed;
                                assert(self.state@.streams =~= before.streams);
                                if closed {
                                    Ok(Err(StreamReadError::Closed))
                                } else {
                                    Ok(Err(StreamReadError::Blocked))
                                }
                            },
                        }
                    },
                }
            },
            ChannelStreamId::ReceivedDatagram(index) => {
                if *index < self.state.datagram_index {
                    return Ok(Err(StreamReadError::Closed));
                }
                let relative: usize = *index - self.state.datagram_index;
                if relative < self.state.datagrams.len() {
                    let mut dropped: usize = 0;
                    assert(before.datagrams.skip(0) =~= before.datagrams);
                    while dropped <= relative
                        invariant
                            dropped <= relative + 1,
                            relative < before.datagrams.len() <= usize::MAX,
                            before == old(self).state@,
                            self.state@ == (ChannelView {
                                datagrams: before.datagrams.skip(dropped as int),
                                ..before
                            }),
                            self.state.tx == old(self).state.tx,
                            self.state.rx == old(self).state.rx,
                        decreases relative + 1 - dropped,
                    {
                        let ghost queue = self.state.datagrams@;
                        self.state.datagrams.pop_front();
                        assert(chunks(self.state.datagrams@) =~= chunks(queue).skip(1));
                        assert(before.datagrams.skip(dropped as int).skip(1)
                            =~= before.datagrams.skip(dropped + 1));
                        dropped = dropped + 1;
                    }
                    self.state.datagram_index = *index + 1;
                    Ok(Err(StreamReadError::Closed))
                } else {
                    Ok(Err(StreamReadError::Blocked))
                }
            },
        }
    }

    fn close_send_stream(&mut self, stream: &ChannelStreamId, graceful: bool) -> (closed: Result<
        (),
        MismatchedStreamError,
    >) {
        let ghost before = self.state@;
        if let ChannelStreamId::Stream(id) = stream {
            let message = ChannelMessage::StreamClose { stream_id: *id };
            proof {
                lemma_carried_push(messages_sent(self.state.tx), message@);
            }
            let ghost closing = message@;
            let sent = send(&mut self.state.tx, message);
            assert(closing == MessageView::StreamClose { stream_id: *id });
            assert(self.state@ == before);
            match self.state.streams.entry(*id) {
                Entry::Occupied(entry) => {
                    entry.into_mut().send_closed = true;
                    assert(self.state@.streams =~= before.streams.insert(
                        *id,
                        StreamView { send_closed: true, ..before.streams[*id] },
                    ));
                },
                Entry::Vacant(_) => {
                    assert(self.state@.streams =~= before.streams);
                },
            }
            assert forall|any: ChannelStreamId| #[trigger] self.sent(any) == old(self).sent(any) by {
                assert(old(self).sent(any) + Seq::<u8>::empty() =~= old(self).sent(any));
            }
            assert(handed_over(old(self).state.tx, self.state.tx, closing, sent));
        }
        Ok(())
    }

    fn close_recv_stream(&mut self, stream: &ChannelStreamId) -> (closed: Result<
        (),
        MismatchedStreamError,
    >)
        ensures
            closed is Ok,
            final(self).state.tx == old(self).state.tx,
            final(self).state.rx == old(self).state.rx,
            final(self).state@ == match stream {
                ChannelStreamId::Stream(id) if old(self).state@.streams.contains_key(*id) => {
                    let state = old(self).state@;
                    ChannelView {
                        streams: state.streams.insert(
                            *id,
                            StreamView { recv_closed: true, ..state.streams[*id] },
                        ),
                        ..state
                    }
                },
                _ => old(self).state@,
            },
    {
        let ghost before = self.state@;
        if let ChannelStreamId::Stream(id) = stream {
            match self.state.streams.entry(*id) {
                Entry::Occupied(entry) => {
                    entry.into_mut().recv_closed = true;
                    assert(self.state@.streams =~= before.streams.insert(
                        *id,
                        StreamView { recv_closed: true, ..before.streams[*id] },
                    ));
                },
                Entry::Vacant(_) => {
                    assert(self.state@.streams =~= before.streams);
                },
            }
        }
        Ok(())
    }

    fn accept_stream(&mut self) -> (stream: Option<(ChannelStreamId, StreamRequirements)>) {
        let ghost before = self.state@;
        if let Some((stream_id, requirements)) = self.state.incoming_streams.pop_front() {
            assert(self.state@.incoming =~= before.incoming.skip(1));
            return Some((ChannelStreamId::Stream(stream_id), requirements));
        }
        let ghost queue = self.state.datagrams@;
        if let Some(data) = self.state.datagrams.pop_front() {
            assert(chunks(self.state.datagrams@) =~= before.datagrams.skip(1));
            assert(chunk(data) == before.datagrams[0]);
            let index: usize = self.state.datagram_index;
            self.state.datagram_index = index + 1;
            let special_id: u32 = u32::MAX - ((index as u64) % (FIRST_DATAGRAM_ID as u64)) as u32;
            let mut recv_buffer: VecDeque<Bytes> = VecDeque::new();
            recv_buffer.push_back(data);
            let special = StreamState { recv_buffer, send_closed: true, recv_closed: false };
            assert(special@.unread =~= seq![before.datagrams[0]]);
            self.state.streams.insert(special_id, special);
            assert(self.state@.streams =~= before.streams.insert(
                datagram_stream_id(before.datagram_index),
                datagram_stream(before.datagrams[0]),
            ));
            return Some((ChannelStreamId::Stream(special_id), StreamRequirements::unreliable()));
        }
        assert(self.state@.incoming =~= before.incoming);
        assert(self.state@.datagrams =~= before.datagrams);
        None
    }

    fn close(&mut self)
        ensures
            final(self).state@ == (ChannelView { close_requested: true, ..old(self).state@ }),
            final(self).state.tx == old(self).state.tx,
            final(self).state.rx == old(self).state.rx,
    {
        if !self.state.close_requested {
            self.state.close_requested = true;
        }
    }

    fn all_data_sent(&mut self) -> (sent: bool)
        ensures
            sent,
            *final(self) == *old(self),
    {
        true
    }
}

/// Whether a stream id is one of a side: of that which has accepted the connection, or of the other.
pub open spec fn of_side(stream_id: u32, accepted: bool) -> bool {
    if accepted {
        FIRST_ACCEPTED_ID <= stream_id < FIRST_DATAGRAM_ID
    } else {
        stream_id < FIRST_ACCEPTED_ID
    }
}

/// Whether the streams of a side have the ids that it has given out.
pub open spec fn numbered(view: ChannelView, accepted: bool) -> bool {
    forall|id: u32| #[trigger]
        view.streams.contains_key(id) && of_side(id, accepted) ==> id < view.next_stream_id
}

/// Whether a message opens no stream of a side.
pub open spec fn opens_elsewhere(message: MessageView, accepted: bool) -> bool {
    message matches MessageView::StreamOpen { stream_id, .. } ==> !of_side(stream_id, accepted)
}

/// A stream that is opened takes the place of no other stream.
pub proof fn opened_streams_are_new(view: ChannelView, accepted: bool)
    requires
        numbered(view, accepted),
        of_side(view.next_stream_id, accepted),
    ensures
        !view.streams.contains_key(view.next_stream_id),
        numbered(
            ChannelView {
                next_stream_id: (view.next_stream_id + 1) as u32,
                streams: view.streams.insert(view.next_stream_id, new_stream_view()),
                ..view
            },
            accepted,
        ),
{
}

/// No stream of a side is replaced by what the other side sends, which opens streams of its own
/// only, nor by a datagram that is accepted.
pub proof fn streams_are_not_replaced(
    view: ChannelView,
    messages: Seq<MessageView>,
    index: nat,
    accepted: bool,
)
    requires
        numbered(view, accepted),
        forall|i: int|
            0 <= i < messages.len() ==> opens_elsewhere(#[trigger] messages[i], accepted),
    ensures
        numbered(processed_all(view, messages), accepted),
        processed_all(view, messages).next_stream_id == view.next_stream_id,
        forall|id: u32| #[trigger]
            view.streams.contains_key(id) && of_side(id, accepted) ==> {
                let after = processed_all(view, messages).streams;
                &&& after.contains_key(id)
                &&& after[id].unread == view.streams[id].unread + stream_data(messages, id)
            },
        !of_side(datagram_stream_id(index), accepted),
    decreases messages.len(),
{
    if messages.len() > 0 {
        let before = messages.drop_last();
        assert forall|i: int| 0 <= i < before.len() implies opens_elsewhere(
            #[trigger] before[i],
            accepted,
        ) by {
            assert(before[i] == messages[i]);
        }
        streams_are_not_replaced(view, before, index, accepted);
        assert(opens_elsewhere(messages[messages.len() - 1], accepted));
        assert forall|id: u32| #[trigger]
            view.streams.contains_key(id) && of_side(id, accepted) implies {
            let after = processed_all(view, messages).streams;
            &&& after.contains_key(id)
            &&& after[id].unread == view.streams[id].unread + stream_data(messages, id)
        } by {
            let unread = view.streams[id].unread;
            let data = stream_data(before, id);
            let after = processed_all(view, messages).streams;
            assert(after[id].unread =~= unread + stream_data(messages, id));
        }
    } else {
        assert forall|id: u32| #[trigger] view.streams.contains_key(id) implies
            view.streams[id].unread == view.streams[id].unread + stream_data(messages, id) by {
            assert(view.streams[id].unread + stream_data(messages, id)
                =~= view.streams[id].unread);
        }
    }
}

/// Processing messages and then more messages is processing all of them: how the messages of the
/// remote are spread over polls does not matter.
pub proof fn processed_in_parts(
    view: ChannelView,
    first: Seq<MessageView>,
    second: Seq<MessageView>,
)
    ensures
        processed_all(view, first + second) == processed_all(processed_all(view, first), second),
    decreases second.len(),
{
    if second.len() == 0 {
        assert(first + second =~= first);
    } else {
        assert((first + second).drop_last() =~= first + second.drop_last());
        processed_in_parts(view, first, second.drop_last());
    }
}

/// Whether a message opens a stream.
pub open spec fn opens(message: MessageView, stream_id: u32) -> bool {
    message matches MessageView::StreamOpen { stream_id: id, .. } && id == stream_id
}

/// Whether one of several messages closes a stream.
pub open spec fn closes(messages: Seq<MessageView>, stream_id: u32) -> bool {
    messages.contains(MessageView::StreamClose { stream_id })
}

/// What one side writes on a stream that it has opened is what the other side reads, in the same
/// chunks and in the same order, and the stream ends for the reader when the writer has closed it.
pub proof fn stream_delivery(
    view: ChannelView,
    stream_id: u32,
    requirements: StreamRequirements,
    messages: Seq<MessageView>,
)
    requires
        forall|i: int| 0 <= i < messages.len() ==> !opens(#[trigger] messages[i], stream_id),
    ensures
        ({
            let opened = processed(view, MessageView::StreamOpen { stream_id, requirements });
            let after = processed_all(opened, messages);
            &&& after.streams.contains_key(stream_id)
            &&& after.streams[stream_id].unread == stream_data(messages, stream_id)
            &&& joined(after.streams[stream_id].unread) == carried(
                messages,
                ChannelStreamId::Stream(stream_id),
            )
            &&& after.streams[stream_id].recv_closed == closes(messages, stream_id)
        }),
    decreases messages.len(),
{
    if messages.len() > 0 {
        let before = messages.drop_last();
        assert forall|i: int| 0 <= i < before.len() implies !opens(#[trigger] before[i], stream_id) by {
            assert(before[i] == messages[i]);
        }
        stream_delivery(view, stream_id, requirements, before);
        assert(!opens(messages[messages.len() - 1], stream_id));
        let closing = MessageView::StreamClose { stream_id };
        if before.contains(closing) {
            let place = before.index_of(closing);
            assert(messages[place] == closing);
        }
        if messages.contains(closing) && messages.last() != closing {
            let place = messages.index_of(closing);
            assert(before[place] == closing);
        }
        if messages.last() == closing {
            assert(messages[messages.len() - 1] == closing);
        }
    }
}

/// Datagrams are received in the order in which they were sent.
pub proof fn datagram_delivery(view: ChannelView, messages: Seq<MessageView>)
    requires
        view.datagram_index + view.datagrams.len() + messages.len() <= usize::MAX,
    ensures
        processed_all(view, messages).datagrams == view.datagrams + datagram_data(messages),
        processed_all(view, messages).datagram_index == view.datagram_index,
        datagram_data(messages).len() <= messages.len(),
    decreases messages.len(),
{
    if messages.len() > 0 {
        datagram_delivery(view, messages.drop_last());
        assert(processed_all(view, messages).datagrams =~= view.datagrams + datagram_data(
            messages,
        ));
    } else {
        assert(view.datagrams + datagram_data(messages) =~= view.datagrams);
    }
}

/// Messages that one side has framed on a stream are read by the other side, in their order. A last
/// message without bytes is read with the first byte that follows it.
pub proof fn message_delivery(
    view: ChannelView,
    stream_id: u32,
    requirements: StreamRequirements,
    sent: Seq<MessageView>,
    messages: Seq<crate::reader::MessageView>,
)
    requires
        forall|i: int| 0 <= i < sent.len() ==> !opens(#[trigger] sent[i], stream_id),
        carried(sent, ChannelStreamId::Stream(stream_id)) == message_frames(messages),
        forall|i: int| 0 <= i < messages.len() ==> frameable(#[trigger] messages[i]),
    ensures
        ({
            let opened = processed(view, MessageView::StreamOpen { stream_id, requirements });
            let stream = processed_all(opened, sent).streams[stream_id];
            reader_run(fresh_reader(), joined(stream.unread)) == if messages.len() > 0
                && messages.last().1.len() == 0 {
                (
                    ReaderView::Message {
                        id: messages.last().0,
                        length: 0,
                        received: Seq::empty(),
                    },
                    messages.drop_last(),
                )
            } else {
                (fresh_reader(), messages)
            }
        }),
{
    stream_delivery(view, stream_id, requirements, sent);
    message_frames_round_trip(messages);
}

/// Every stream that the remote opens waits to be accepted, behind those that wait: with its id and
/// its requirements, once for each time it is opened, and in the order in which they were opened.
pub proof fn opened_streams_wait(view: ChannelView, messages: Seq<MessageView>)
    ensures
        processed_all(view, messages).incoming == view.incoming + messages.filter(
            |message: MessageView| message is StreamOpen,
        ).map_values(
            |message: MessageView|
                (message->StreamOpen_stream_id, message->StreamOpen_requirements),
        ),
    decreases messages.len(),
{
    reveal(Seq::filter);
    let opening = |message: MessageView| message is StreamOpen;
    let stream = |message: MessageView|
        (message->StreamOpen_stream_id, message->StreamOpen_requirements);
    if messages.len() > 0 {
        let front = messages.drop_last();
        opened_streams_wait(view, front);
        let before = front.filter(opening).map_values(stream);
        if messages.last() is StreamOpen {
            assert(messages.filter(opening).map_values(stream) =~= before.push(
                stream(messages.last()),
            ));
            assert((view.incoming + before).push(stream(messages.last())) =~= view.incoming
                + before.push(stream(messages.last())));
        } else {
            assert(messages.filter(opening).map_values(stream) =~= before);
        }
    } else {
        assert(view.incoming + messages.filter(opening).map_values(stream) =~= view.incoming);
    }
}

/// Streams that wait are accepted one after the other, in their order, each once and with the
/// requirements that it was opened with. Datagrams come after them.
pub proof fn waiting_streams_are_accepted<'a>(
    before: ChannelConnectionContext<'a>,
    accepted: Seq<(ChannelStreamId, StreamRequirements)>,
    after: ChannelConnectionContext<'a>,
)
    requires
        crate::reader::accept_steps(before, accepted, after),
        accepted.len() <= before.current().incoming_streams@.len(),
    ensures
        accepted == before.current().incoming_streams@.take(accepted.len() as int).map_values(
            |entry: (u32, StreamRequirements)| (ChannelStreamId::Stream(entry.0), entry.1),
        ),
        after.current().incoming_streams@ == before.current().incoming_streams@.skip(accepted.len() as int),
        after.current()@.streams == before.current()@.streams,
        after.current()@.datagrams == before.current()@.datagrams,
    decreases accepted.len(),
{
    let waiting = before.current().incoming_streams@;
    let n = accepted.len() as int;
    let stream = |entry: (u32, StreamRequirements)| (ChannelStreamId::Stream(entry.0), entry.1);
    if n == 0 {
        assert(accepted =~= waiting.take(0).map_values(stream));
        assert(waiting.skip(0) =~= waiting);
    } else {
        let middle = choose|middle: ChannelConnectionContext<'a>|
            crate::reader::accept_steps(before, accepted.drop_last(), middle)
                && #[trigger] ChannelConnectionContext::<'a>::accepted(
                middle,
                after,
                Some(accepted.last()),
            );
        waiting_streams_are_accepted(before, accepted.drop_last(), middle);
        assert(middle.current()@.incoming == waiting.skip(n - 1));
        assert(waiting.skip(n - 1).skip(1) =~= waiting.skip(n));
        assert(accepted =~= accepted.drop_last().push(accepted.last()));
        assert(waiting.take(n).map_values(stream) =~= waiting.take(n - 1).map_values(stream).push(
            stream(waiting[n - 1]),
        ));
    }
}

/// What messages carry for a stream is the data of those that name the stream, in their order, and
/// the datagrams that they carry are those of the datagram messages.
pub proof fn messages_carry_data(messages: Seq<MessageView>, stream_id: u32)
    ensures
        stream_data(messages, stream_id) == messages.filter(
            |message: MessageView|
                message is StreamData && message->StreamData_stream_id == stream_id,
        ).map_values(|message: MessageView| message->StreamData_data),
        datagram_data(messages) == messages.filter(
            |message: MessageView| message is Datagram,
        ).map_values(|message: MessageView| message->Datagram_0),
        carried(messages, ChannelStreamId::Stream(stream_id)) == stream_data(
            messages,
            stream_id,
        ).flatten(),
        carried(messages, ChannelStreamId::Datagram) == datagram_data(messages).flatten(),
    decreases messages.len(),
{
    reveal(Seq::filter);
    crate::chunk::joined_is_flattened(stream_data(messages, stream_id));
    crate::chunk::joined_is_flattened(datagram_data(messages));
    let of_stream = |message: MessageView|
        message is StreamData && message->StreamData_stream_id == stream_id;
    let data = |message: MessageView| message->StreamData_data;
    let datagram = |message: MessageView| message is Datagram;
    let bytes = |message: MessageView| message->Datagram_0;
    if messages.len() > 0 {
        let front = messages.drop_last();
        let last = messages.last();
        messages_carry_data(front, stream_id);
        assert(messages.filter(of_stream).map_values(data) =~= if of_stream(last) {
            front.filter(of_stream).map_values(data).push(data(last))
        } else {
            front.filter(of_stream).map_values(data)
        });
        assert(messages.filter(datagram).map_values(bytes) =~= if datagram(last) {
            front.filter(datagram).map_values(bytes).push(bytes(last))
        } else {
            front.filter(datagram).map_values(bytes)
        });
    } else {
        assert(messages.filter(of_stream).map_values(data) =~= Seq::empty());
        assert(messages.filter(datagram).map_values(bytes) =~= Seq::empty());
    }
}

/// What is written to a stream goes as one message, as a whole or not at all, and the remote then
/// has it behind what it has received on that stream, and nowhere else. A received datagram cannot
/// be written.
pub proof fn written_data_arrives<'a>(
    before: ChannelConnectionContext<'a>,
    after: ChannelConnectionContext<'a>,
    stream_id: u32,
    data: Seq<u8>,
    block: bool,
    written: Result<usize, MismatchedStreamError>,
    remote: ChannelView,
)
    requires
        ChannelConnectionContext::<'a>::wrote(
            before,
            after,
            ChannelStreamId::Stream(stream_id),
            data,
            block,
            written,
        ),
        data.len() <= usize::MAX,
        0 < data.len(),
        remote.streams.contains_key(stream_id),
    ensures
        ({
            let message = MessageView::StreamData { stream_id, data };
            let received = processed(remote, message);
            &&& messages_offered(after.current().tx) == messages_offered(before.current().tx).push(message)
            &&& written == Ok::<usize, MismatchedStreamError>(data.len() as usize)
                && messages_sent(after.current().tx) == messages_sent(before.current().tx).push(message)
                || written == Ok::<usize, MismatchedStreamError>(0) && messages_sent(
                after.current().tx,
            ) == messages_sent(before.current().tx)
            &&& received.streams.dom() == remote.streams.dom()
            &&& received.streams[stream_id].unread == remote.streams[stream_id].unread.push(data)
            &&& received.streams[stream_id].recv_closed == remote.streams[stream_id].recv_closed
            &&& forall|other: u32|
                other != stream_id && remote.streams.contains_key(other)
                    ==> #[trigger] received.streams[other] == remote.streams[other]
            &&& received.incoming == remote.incoming
            &&& received.datagrams == remote.datagrams
        }),
{
    let message = MessageView::StreamData { stream_id, data };
    assert(processed(remote, message).streams.dom() =~= remote.streams.dom());
}

/// A datagram that is written goes as one message, as a whole or not at all, and the remote then has
/// it behind the datagrams that it has received.
pub proof fn written_datagram_arrives<'a>(
    before: ChannelConnectionContext<'a>,
    after: ChannelConnectionContext<'a>,
    data: Seq<u8>,
    block: bool,
    written: Result<usize, MismatchedStreamError>,
    remote: ChannelView,
)
    requires
        ChannelConnectionContext::<'a>::wrote(
            before,
            after,
            ChannelStreamId::Datagram,
            data,
            block,
            written,
        ),
        0 < data.len() <= usize::MAX,
        remote.datagram_index + remote.datagrams.len() < usize::MAX,
    ensures
        ({
            let message = MessageView::Datagram(data);
            let received = processed(remote, message);
            &&& messages_offered(after.current().tx) == messages_offered(before.current().tx).push(message)
            &&& written == Ok::<usize, MismatchedStreamError>(data.len() as usize)
                && messages_sent(after.current().tx) == messages_sent(before.current().tx).push(message)
                || written == Ok::<usize, MismatchedStreamError>(0) && messages_sent(
                after.current().tx,
            ) == messages_sent(before.current().tx)
            &&& received == (ChannelView { datagrams: remote.datagrams.push(data), ..remote })
        }),
{
}

/// A stream that is opened is offered to the remote, which then can accept it with the requirements
/// that were asked for, and on which nothing has been received.
pub proof fn opened_stream_is_offered<'a>(
    before: ChannelConnectionContext<'a>,
    after: ChannelConnectionContext<'a>,
    requirements: StreamRequirements,
    stream: Result<ChannelStreamId, MismatchedStreamError>,
    remote: ChannelView,
)
    requires
        ChannelConnectionContext::<'a>::opened(before, after, requirements, stream),
        requirements.reliable || requirements.ordered || requirements.bidirectional,
    ensures
        ({
            let id = before.current().next_stream_id;
            let message = MessageView::StreamOpen { stream_id: id, requirements };
            let received = processed(remote, message);
            &&& stream == Ok::<_, MismatchedStreamError>(ChannelStreamId::Stream(id))
            &&& messages_offered(after.current().tx) == messages_offered(before.current().tx).push(message)
            &&& after.current()@.streams.contains_key(id)
            &&& after.current()@.streams[id].unread == Seq::<Seq<u8>>::empty()
            &&& !after.current()@.streams[id].recv_closed
            &&& received.incoming == remote.incoming.push((id, requirements))
            &&& received.streams.contains_key(id)
            &&& received.streams[id].unread == Seq::<Seq<u8>>::empty()
            &&& !received.streams[id].recv_closed
            &&& received.datagrams == remote.datagrams
        }),
{
}

/// Closing a stream is told to the remote, for which the stream then ends behind what it has
/// received on it.
pub proof fn closed_stream_ends<'a>(
    before: ChannelConnectionContext<'a>,
    after: ChannelConnectionContext<'a>,
    stream_id: u32,
    graceful: bool,
    closed: Result<(), MismatchedStreamError>,
    remote: ChannelView,
)
    requires
        ChannelConnectionContext::<'a>::send_closed(
            before,
            after,
            ChannelStreamId::Stream(stream_id),
            graceful,
            closed,
        ),
        remote.streams.contains_key(stream_id),
    ensures
        ({
            let message = MessageView::StreamClose { stream_id };
            let received = processed(remote, message);
            &&& closed is Ok
            &&& messages_offered(after.current().tx) == messages_offered(before.current().tx).push(message)
            &&& received.streams[stream_id].recv_closed
            &&& received.streams[stream_id].unread == remote.streams[stream_id].unread
            &&& forall|other: u32|
                other != stream_id && remote.streams.contains_key(other)
                    ==> #[trigger] received.streams[other] == remote.streams[other]
        }),
{
}

/// A stream is read chunk by chunk, in the order in which the chunks came. When all have been read
/// it is blocked, or closed if the remote has closed it. Other streams are not affected.
pub proof fn chunks_are_read_in_order<'a>(
    before: ChannelConnectionContext<'a>,
    after: ChannelConnectionContext<'a>,
    stream_id: u32,
    data: Result<Result<Bytes, StreamReadError>, MismatchedStreamError>,
)
    requires
        ChannelConnectionContext::<'a>::was_read(
            before,
            after,
            ChannelStreamId::Stream(stream_id),
            data,
        ),
    ensures
        ({
            let streams = before.current()@.streams;
            let left = after.current()@.streams;
            let unread = streams[stream_id].unread;
            &&& left.dom() == streams.dom()
            &&& forall|other: u32|
                other != stream_id && streams.contains_key(other) ==> #[trigger] left[other]
                    == streams[other]
            &&& after.current()@.datagrams == before.current()@.datagrams
            &&& after.current()@.incoming == before.current()@.incoming
            &&& if !streams.contains_key(stream_id) {
                data == Ok::<_, MismatchedStreamError>(Err::<Bytes, _>(StreamReadError::Closed))
            } else if unread.len() > 0 {
                &&& data matches Ok(Ok(data)) && seq![chunk(data)] + left[stream_id].unread
                    == unread
                &&& left[stream_id].recv_closed == streams[stream_id].recv_closed
            } else {
                &&& left[stream_id] == streams[stream_id]
                &&& data == Ok::<_, MismatchedStreamError>(
                    Err::<Bytes, _>(
                        if streams[stream_id].recv_closed {
                            StreamReadError::Closed
                        } else {
                            StreamReadError::Blocked
                        },
                    ),
                )
            }
        }),
{
    let streams = before.current()@.streams;
    let left = after.current()@.streams;
    assert(left.dom() =~= streams.dom());
    if streams.contains_key(stream_id) && streams[stream_id].unread.len() > 0 {
        let unread = streams[stream_id].unread;
        assert(seq![unread[0]] + unread.skip(1) =~= unread);
    }
}

/// Datagrams are accepted after the streams that wait, in the order in which they came, each as a
/// stream of its own that is read once.
pub proof fn datagrams_are_accepted<'a>(
    before: ChannelConnectionContext<'a>,
    after: ChannelConnectionContext<'a>,
    end: ChannelConnectionContext<'a>,
    stream: Option<(ChannelStreamId, StreamRequirements)>,
    data: Result<Result<Bytes, StreamReadError>, MismatchedStreamError>,
)
    requires
        ChannelConnectionContext::<'a>::accepted(before, after, stream),
        before.current().incoming_streams@.len() == 0,
        stream matches Some((id, _)) ==> ChannelConnectionContext::<'a>::was_read(
            after,
            end,
            id,
            data,
        ),
    ensures
        stream is Some <==> before.current().datagrams@.len() > 0,
        stream matches Some((id, requirements)) ==> {
            &&& requirements == (StreamRequirements {
                reliable: false,
                ordered: false,
                bidirectional: false,
            })
            &&& after.current()@.datagrams == before.current()@.datagrams.skip(1)
            &&& after.current()@.datagram_index == before.current()@.datagram_index + 1
            &&& data matches Ok(Ok(data)) && chunk(data) == before.current()@.datagrams[0]
            &&& end.current()@.streams[id->Stream_0].unread == Seq::<Seq<u8>>::empty()
        },
{
    assert(before.current()@.datagrams.len() == before.current().datagrams@.len());
    if stream is Some {
        let id = (stream->0).0;
        assert(after.current()@.streams[id->Stream_0].unread.skip(1) =~= Seq::empty());
    }
}

/// On a link without a conditioner, what the remote has sent takes effect at once, all of it and in
/// its order.
pub proof fn messages_take_effect(view: ChannelView, messages: Seq<MessageView>, now: nat)
    requires
        view.conditioner is None,
    ensures
        taken_in(view, messages, now) == processed_all(view, messages),
        messages.len() > 0 ==> taken_in(view, messages, now) == processed(
            taken_in(view, messages.drop_last(), now),
            messages.last(),
        ),
        messages.len() == 0 ==> taken_in(view, messages, now) == view,
{
}

/// The messages that are not lost.
pub open spec fn not_lost(messages: Seq<MessageView>, lost: Seq<bool>, at: nat) -> Seq<DelayedView>
    decreases messages.len(),
{
    if messages.len() == 0 {
        Seq::empty()
    } else if lost.last() {
        not_lost(messages.drop_last(), lost.drop_last(), at)
    } else {
        not_lost(messages.drop_last(), lost.drop_last(), at).push((at, messages.last()))
    }
}

/// On a link without jitter and duplicates, a message is lost exactly if the fraction that is drawn
/// for it is below the loss: each message has a draw of its own, and one that is not lost takes
/// another. Those that are not lost arrive in their order, after the latency.
pub proof fn losses_are_drawn(
    conditioner: ConditionerView,
    messages: Seq<MessageView>,
    now: nat,
    states: Seq<u64>,
    lost: Seq<bool>,
)
    requires
        conditioner.wf(),
        conditioner.config.jitter_ms == 0,
        conditioner.config.duplicate == 0,
        states.len() == messages.len() + 1,
        lost.len() == messages.len(),
        states[0] == conditioner.random,
        forall|i: int|
            0 <= i < messages.len() ==> #[trigger] lost[i] == (xorshift(states[i]) >> 11
                < conditioner.config.packet_loss) && states[i + 1] == if lost[i] {
                xorshift(states[i])
            } else {
                xorshift(xorshift(states[i]))
            },
        forall|i: int|
            0 <= i < conditioner.delayed.len() ==> (#[trigger] conditioner.delayed[i]).0 <= now
                + conditioner.config.latency_ms * 1_000_000,
    ensures
        ({
            let after = conditioned_all(conditioner, messages, now);
            let at = (now + conditioner.config.latency_ms * 1_000_000) as nat;
            &&& after.config == conditioner.config
            &&& after.wf()
            &&& after.random == states.last()
            &&& after.delayed == conditioner.delayed + not_lost(messages, lost, at)
            &&& forall|i: int|
                0 <= i < after.delayed.len() ==> (#[trigger] after.delayed[i]).0 <= at
        }),
    decreases messages.len(),
{
    let at = (now + conditioner.config.latency_ms * 1_000_000) as nat;
    let n = messages.len() as int;
    if n == 0 {
        assert(conditioner.delayed + not_lost(messages, lost, at) =~= conditioner.delayed);
    } else {
        let front = messages.drop_last();
        let front_states = states.drop_last();
        let front_lost = lost.drop_last();
        assert forall|i: int| 0 <= i < front.len() implies #[trigger] front_lost[i] == (xorshift(
            front_states[i],
        ) >> 11 < conditioner.config.packet_loss) && front_states[i + 1] == if front_lost[i] {
            xorshift(front_states[i])
        } else {
            xorshift(xorshift(front_states[i]))
        } by {
            assert(front_lost[i] == lost[i]);
        }
        losses_are_drawn(conditioner, front, now, front_states, front_lost);
        let middle = conditioned_all(conditioner, front, now);
        let after = conditioned_all(conditioner, messages, now);
        assert(lost[n - 1] == (xorshift(states[n - 1]) >> 11 < conditioner.config.packet_loss));
        messages_take_draws(middle, messages.last(), now);
        reveal_with_fuel(draws, 3);
        if !lost[n - 1] {
            lemma_arrived(middle.delayed, at);
            if arrived(middle.delayed, at) < middle.delayed.len() {
                assert(middle.delayed[arrived(middle.delayed, at) as int].0 <= at);
            }
            assert(after.delayed == with_delayed(middle.delayed, (at, messages.last())));
            assert(after.delayed =~= middle.delayed.push((at, messages.last())));
            assert(after.delayed =~= conditioner.delayed + not_lost(messages, lost, at));
        }
    }
}

/// A perfect link changes nothing: what the remote has sent takes effect at once, all of it and in
/// its order.
pub proof fn perfect_link_changes_nothing(
    view: ChannelView,
    conditioner: ConditionerView,
    messages: Seq<MessageView>,
    now: nat,
)
    requires
        view.conditioner == Some(conditioner),
        conditioner.wf(),
        conditioner.config.packet_loss == 0,
        conditioner.config.duplicate == 0,
        conditioner.config.jitter_ms == 0,
        conditioner.config.latency_ms == 0,
        conditioner.delayed.len() == 0,
    ensures
        ({
            let after = taken_in(view, messages, now);
            let left = after.conditioner->0;
            &&& left.delayed.len() == 0
            &&& after == processed_all(ChannelView { conditioner: Some(left), ..view }, messages)
        }),
{
    let states = Seq::new(
        messages.len() + 1,
        |i: int| draws(conditioner.random, (2 * i) as nat),
    );
    let lost = Seq::new(messages.len(), |i: int| false);
    reveal_with_fuel(draws, 3);
    assert forall|i: int| 0 <= i < messages.len() implies #[trigger] lost[i] == (xorshift(
        states[i],
    ) >> 11 < conditioner.config.packet_loss) && states[i + 1] == if lost[i] {
        xorshift(states[i])
    } else {
        xorshift(xorshift(states[i]))
    } by {
        assert(draws(conditioner.random, (2 * i + 2) as nat) == xorshift(
            draws(conditioner.random, (2 * i + 1) as nat),
        ));
        assert(draws(conditioner.random, (2 * i + 1) as nat) == xorshift(
            draws(conditioner.random, (2 * i) as nat),
        ));
    }
    losses_are_drawn(conditioner, messages, now, states, lost);
    let after = conditioned_all(conditioner, messages, now);
    lemma_none_lost(messages, now);
    lemma_arrived(after.delayed, now);
    let count = arrived(after.delayed, now) as int;
    if count < after.delayed.len() {
        assert(after.delayed[count].0 <= now);
    }
    let message = |entry: DelayedView| entry.1;
    assert(conditioner.delayed + not_lost(messages, lost, now) =~= not_lost(messages, lost, now));
    assert(after.delayed.take(count) =~= after.delayed);
    assert(after.delayed.map_values(message) =~= messages);
    let left = ConditionerView { delayed: after.delayed.skip(count), ..after };
    lemma_conditioner_is_kept(ChannelView { conditioner: Some(left), ..view }, messages);
}

/// Processing messages does not touch the conditioner.
proof fn lemma_conditioner_is_kept(view: ChannelView, messages: Seq<MessageView>)
    ensures
        processed_all(view, messages).conditioner == view.conditioner,
    decreases messages.len(),
{
    if messages.len() > 0 {
        lemma_conditioner_is_kept(view, messages.drop_last());
    }
}

/// Where none is lost all are left.
proof fn lemma_none_lost(messages: Seq<MessageView>, at: nat)
    ensures
        not_lost(messages, Seq::new(messages.len(), |i: int| false), at) == messages.map_values(
            |message: MessageView| (at, message),
        ),
    decreases messages.len(),
{
    let lost = Seq::new(messages.len(), |i: int| false);
    if messages.len() > 0 {
        let front = messages.drop_last();
        lemma_none_lost(front, at);
        assert(lost.drop_last() =~= Seq::new(front.len(), |i: int| false));
        assert(not_lost(messages, lost, at) =~= messages.map_values(
            |message: MessageView| (at, message),
        ));
    } else {
        assert(not_lost(messages, lost, at) =~= messages.map_values(
            |message: MessageView| (at, message),
        ));
    }
}

/// A received datagram that was not accepted as a stream cannot be read: it is closed if it has come,
/// and then it and those before it are dropped. One that has not come is blocked.
pub proof fn datagrams_by_number_are_closed<'a>(
    before: ChannelConnectionContext<'a>,
    after: ChannelConnectionContext<'a>,
    index: usize,
    data: Result<Result<Bytes, StreamReadError>, MismatchedStreamError>,
)
    requires
        ChannelConnectionContext::<'a>::was_read(
            before,
            after,
            ChannelStreamId::ReceivedDatagram(index),
            data,
        ),
    ensures
        ({
            let queue = before.current()@;
            let left = after.current()@;
            let place = index - queue.datagram_index;
            &&& data == Ok::<_, MismatchedStreamError>(
                Err::<Bytes, _>(
                    if place < queue.datagrams.len() {
                        StreamReadError::Closed
                    } else {
                        StreamReadError::Blocked
                    },
                ),
            )
            &&& left.datagram_index + left.datagrams.len() == queue.datagram_index
                + queue.datagrams.len()
            &&& 0 <= place < queue.datagrams.len() ==> left.datagram_index == index + 1
            &&& !(0 <= place < queue.datagrams.len()) ==> left.datagram_index
                == queue.datagram_index
            &&& forall|i: int|
                0 <= i < left.datagrams.len() ==> #[trigger] left.datagrams[i]
                    == queue.datagrams[left.datagram_index - queue.datagram_index + i]
            &&& left.streams == queue.streams
            &&& left.incoming == queue.incoming
        }),
{
}

/// Writing, closing and opening go to the remote over the sending side alone: what has come from the
/// remote and not been read stays, and so does the side that receives.
pub proof fn sending_keeps_what_came<'a>(
    before: ChannelConnectionContext<'a>,
    wrote: ChannelConnectionContext<'a>,
    closed: ChannelConnectionContext<'a>,
    opened: ChannelConnectionContext<'a>,
    stream: ChannelStreamId,
    data: Seq<u8>,
    block: bool,
    written: Result<usize, MismatchedStreamError>,
    graceful: bool,
    outcome: Result<(), MismatchedStreamError>,
    requirements: StreamRequirements,
    new: Result<ChannelStreamId, MismatchedStreamError>,
)
    requires
        ChannelConnectionContext::<'a>::wrote(before, wrote, stream, data, block, written),
        ChannelConnectionContext::<'a>::send_closed(before, closed, stream, graceful, outcome),
        ChannelConnectionContext::<'a>::opened(before, opened, requirements, new),
        before.current()@.next_stream_id < u32::MAX,
    ensures
        wrote.current().rx == before.current().rx,
        wrote.current()@ == before.current()@,
        closed.current().rx == before.current().rx,
        closed.current()@.incoming == before.current()@.incoming,
        closed.current()@.datagrams == before.current()@.datagrams,
        closed.current()@.next_stream_id == before.current()@.next_stream_id,
        closed.current()@.streams.dom() == before.current()@.streams.dom(),
        forall|id: u32|
            before.current()@.streams.contains_key(id) ==> {
                let left = #[trigger] closed.current()@.streams[id];
                let held = before.current()@.streams[id];
                &&& left.unread == held.unread
                &&& left.recv_closed == held.recv_closed
                &&& left.send_closed == (held.send_closed || stream == ChannelStreamId::Stream(id))
            },
        opened.current().rx == before.current().rx,
        opened.current()@.incoming == before.current()@.incoming,
        opened.current()@.datagrams == before.current()@.datagrams,
        requirements.reliable || requirements.ordered || requirements.bidirectional
            ==> opened.current()@.next_stream_id == before.current()@.next_stream_id + 1,
        !(requirements.reliable || requirements.ordered || requirements.bidirectional) ==> new
            == Ok::<_, MismatchedStreamError>(ChannelStreamId::Datagram) && opened.current()@
            == before.current()@,
{
    assert(closed.current()@.streams.dom() =~= before.current()@.streams.dom());
}

/// A read that gives nothing says whether more may come: it is closed exactly if the stream has
/// ended, and blocked otherwise.
pub proof fn ended_streams_are_closed<'a>(
    before: ChannelConnectionContext<'a>,
    after: ChannelConnectionContext<'a>,
    stream: ChannelStreamId,
    data: Result<Result<Bytes, StreamReadError>, MismatchedStreamError>,
)
    requires
        ChannelConnectionContext::<'a>::was_read(before, after, stream, data),
    ensures
        data is Ok,
        data->Ok_0 is Err ==> (data->Ok_0->Err_0 == StreamReadError::Closed <==> before.ended(
            stream,
        )),
        data->Ok_0 is Ok ==> before.unread(stream) == chunk(data->Ok_0->Ok_0) + after.unread(
            stream,
        ),
        data->Ok_0 is Err ==> after.unread(stream) == before.unread(stream),
        after.ended(stream) == before.ended(stream),
        after.current().tx == before.current().tx,
        after.current().rx == before.current().rx,
{
    if let ChannelStreamId::Stream(id) = stream {
        let streams = before.current()@.streams;
        if streams.contains_key(id) && streams[id].unread.len() > 0 {
            let unread = streams[id].unread;
            crate::chunk::lemma_joined_first(unread);
        }
    }
}

/// A datagram is lost only if it cannot be numbered any more.
pub proof fn datagrams_are_numbered(view: ChannelView, data: Seq<u8>)
    ensures
        ({
            let after = processed(view, MessageView::Datagram(data));
            let next = view.datagram_index + view.datagrams.len();
            &&& next < usize::MAX ==> after.datagrams == view.datagrams.push(data)
                && after.datagram_index == view.datagram_index
            &&& next >= usize::MAX ==> after == view
        }),
{
}

} // verus!
