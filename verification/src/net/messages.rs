//! Receiving messages on headered streams.
//!
//! A message travels as its id, its length and its bytes. Id and length are integers of two bytes.
use super::connection::{
    chunk_view, read_result, ClosedStreamError, ConnectionState, StreamId, StreamReadError,
};
use super::headers::{
    can_read, u16_bytes, u16_round_trip, u16_taken, u16_value, HeaderView, RecvStreamHeaders,
    U16Reader,
};
use crate::deserialize::{decoded, decoded_one, values, ReceivedMessages};
use crate::keys::keys_of;
use crate::quic::engine::{read_effect, EngineView, StreamRead};
use crate::quic::event::Direction;
use crate::quic::streams::{drained, lemma_read_through, read_through};
use std::collections::hash_map::Entry;
use std::collections::{HashMap, VecDeque};
use vstd::prelude::*;

verus! {

broadcast use vstd::std_specs::hash::group_hash_axioms;

/// State machine for a single message stream on a connection.
#[allow(inconsistent_fields)]
pub enum MessageRecvStreamState {
    ReadingId { buffer: U16Reader },
    ReadingLength { message_id: u16, buffer: U16Reader },
    ReadingMessage { message_id: u16, length: u16, buffer: Vec<u8> },
}

/// What has been read of the next message of a stream.
pub enum StreamView {
    Id { received: Seq<u8> },
    Length { id: u16, received: Seq<u8> },
    Message { id: u16, length: u16, received: Seq<u8> },
}

/// A message: its id and its bytes.
pub type MessageView = (u16, Seq<u8>);

impl View for MessageRecvStreamState {
    type V = StreamView;

    open spec fn view(&self) -> StreamView {
        match self {
            MessageRecvStreamState::ReadingId { buffer } => StreamView::Id { received: buffer@ },
            MessageRecvStreamState::ReadingLength { message_id, buffer } => StreamView::Length {
                id: *message_id,
                received: buffer@,
            },
            MessageRecvStreamState::ReadingMessage { message_id, length, buffer } => {
                StreamView::Message { id: *message_id, length: *length, received: buffer@ }
            },
        }
    }
}

impl StreamView {
    /// What is being received is not complete, unless it is a message without bytes.
    pub open spec fn wf(self) -> bool {
        match self {
            StreamView::Id { received } => received.len() < 2,
            StreamView::Length { received, .. } => received.len() < 2,
            StreamView::Message { length, received, .. } => received.len() < length || length == 0
                && received.len() == 0,
        }
    }

    /// The number of bytes that are missing of what is being received.
    pub open spec fn missing(self) -> int {
        match self {
            StreamView::Id { received } => 2 - received.len(),
            StreamView::Length { received, .. } => 2 - received.len(),
            StreamView::Message { length, received, .. } => length - received.len(),
        }
    }

    /// The stream after bytes that do not complete what is being received.
    pub open spec fn with_bytes(self, data: Seq<u8>) -> StreamView {
        match self {
            StreamView::Id { received } => StreamView::Id { received: received + data },
            StreamView::Length { id, received } => StreamView::Length {
                id,
                received: received + data,
            },
            StreamView::Message { id, length, received } => StreamView::Message {
                id,
                length,
                received: received + data,
            },
        }
    }

    /// The stream after bytes that complete what is being received, and the message that they
    /// complete if it is one.
    pub open spec fn completed(self, data: Seq<u8>) -> (StreamView, Seq<MessageView>) {
        match self {
            StreamView::Id { received } => (
                StreamView::Length { id: u16_value(received + data), received: Seq::empty() },
                Seq::empty(),
            ),
            StreamView::Length { id, received } => (
                StreamView::Message {
                    id,
                    length: u16_value(received + data),
                    received: Seq::empty(),
                },
                Seq::empty(),
            ),
            StreamView::Message { id, length, received } => (
                new_stream(),
                seq![(id, received + data)],
            ),
        }
    }
}

/// A stream of which nothing has been read.
pub open spec fn new_stream() -> StreamView {
    StreamView::Id { received: Seq::empty() }
}

/// The effect of data on a stream, and the messages that the data completes. A message is complete
/// with its last byte; one that has no bytes is complete when more data comes.
pub open spec fn stream_run(stream: StreamView, data: Seq<u8>) -> (StreamView, Seq<MessageView>)
    decreases data.len(), stream is Message as int,
{
    let missing = stream.missing();
    if data.len() == 0 {
        (stream, Seq::empty())
    } else if data.len() < missing {
        (stream.with_bytes(data), Seq::empty())
    } else if missing < 0 || missing == 0 && !(stream is Message) {
        (stream, Seq::empty())
    } else {
        let (next, first) = stream.completed(data.take(missing));
        let (last, messages) = stream_run(next, data.skip(missing));
        (last, first + messages)
    }
}

/// The bytes of waiting messages, by id.
pub type BuffersView = Map<u16, Seq<Seq<u8>>>;

/// The bytes of waiting messages.
pub open spec fn queue_view(queue: VecDeque<Vec<u8>>) -> Seq<Seq<u8>> {
    queue@.map_values(|message: Vec<u8>| message@)
}

/// The messages that wait under an id.
pub open spec fn waiting(buffers: BuffersView, id: u16) -> Seq<Seq<u8>> {
    if buffers.contains_key(id) {
        buffers[id]
    } else {
        Seq::empty()
    }
}

/// Each message goes to the end of the messages with its id.
pub open spec fn deliver(buffers: BuffersView, messages: Seq<MessageView>) -> BuffersView
    decreases messages.len(),
{
    if messages.len() == 0 {
        buffers
    } else {
        let before = deliver(buffers, messages.drop_last());
        let id = messages.last().0;
        before.insert(id, waiting(before, id).push(messages.last().1))
    }
}

/// Delivering messages and then more messages is delivering all of them.
pub proof fn lemma_deliver_concat(
    buffers: BuffersView,
    first: Seq<MessageView>,
    second: Seq<MessageView>,
)
    ensures
        deliver(buffers, first + second) == deliver(deliver(buffers, first), second),
    decreases second.len(),
{
    if second.len() == 0 {
        assert(first + second =~= first);
    } else {
        assert((first + second).drop_last() =~= first + second.drop_last());
        lemma_deliver_concat(buffers, first, second.drop_last());
    }
}

/// Messages that wait to be deserialized, by id.
pub struct MessageBuffers {
    pub queues: HashMap<u16, VecDeque<Vec<u8>>>,
}

impl View for MessageBuffers {
    type V = BuffersView;

    open spec fn view(&self) -> BuffersView {
        self.queues@.map_values(|queue: VecDeque<Vec<u8>>| queue_view(queue))
    }
}

impl MessageBuffers {
    /// Puts a message at the end of the messages with its id.
    fn push(&mut self, id: u16, message: Vec<u8>)
        ensures
            final(self)@ == deliver(old(self)@, seq![(id, message@)]),
    {
        let ghost before = self@;
        let ghost bytes = message@;
        let none: VecDeque<Vec<u8>> = VecDeque::new();
        assert(queue_view(none) =~= Seq::empty());
        let queue = self.queues.entry(id).or_insert(none);
        let ghost queued = queue_view(*queue);
        queue.push_back(message);
        proof {
            assert(queue_view(*queue) =~= queued.push(bytes));
            assert(seq![(id, bytes)].drop_last() =~= Seq::empty());
            reveal_with_fuel(deliver, 2);
        }
        assert(self@ =~= deliver(before, seq![(id, bytes)]));
    }

    /// Takes the oldest waiting message that has an id.
    pub fn next_message(&mut self, id: u16) -> (message: Option<Vec<u8>>)
        ensures
            match message {
                Some(message) => waiting(old(self)@, id).len() > 0 && message@ == waiting(
                    old(self)@,
                    id,
                )[0] && final(self)@ == old(self)@.insert(id, waiting(old(self)@, id).skip(1)),
                None => waiting(old(self)@, id).len() == 0 && final(self)@ == old(self)@,
            },
    {
        let ghost before = self@;
        match self.queues.entry(id) {
            Entry::Vacant(_) => {},
            Entry::Occupied(entry) => {
                let queue = entry.into_mut();
                let ghost queued = queue_view(*queue);
                if let Some(message) = queue.pop_front() {
                    assert(queue_view(*queue) =~= queued.skip(1));
                    assert(self@ =~= before.insert(id, queued.skip(1)));
                    return Some(message);
                }
                assert(queue_view(*queue) =~= queued);
            },
        }
        assert(self@ =~= before);
        None
    }
}

/// Decodes all waiting messages that have an id. Those that cannot be decoded are dropped.
pub fn deserialize_messages<T, F: Fn(&Vec<u8>) -> Option<T>>(
    buffers: &mut MessageBuffers,
    received: &mut ReceivedMessages<T>,
    id: u16,
    decode: F,
)
    requires
        forall|bytes: &Vec<u8>| #[trigger] decode.requires((bytes,)),
    ensures
        waiting(final(buffers)@, id) == Seq::<Seq<u8>>::empty(),
        forall|other: u16|
            other != id ==> #[trigger] waiting(final(buffers)@, other) == waiting(
                old(buffers)@,
                other,
            ),
        exists|outcomes: Seq<Option<T>>| #[trigger]
            decoded(decode, waiting(old(buffers)@, id), outcomes) && final(received)@ == old(
                received,
            )@ + values(outcomes),
{
    let ghost messages = waiting(buffers@, id);
    let ghost mut outcomes: Seq<Option<T>> = Seq::empty();
    let ghost mut n: int = 0;
    proof {
        assert(messages.skip(0) =~= messages);
        assert(received@ + values(outcomes) =~= received@);
    }
    loop
        invariant
            0 <= n <= messages.len(),
            messages == waiting(old(buffers)@, id),
            waiting(buffers@, id) == messages.skip(n),
            forall|other: u16|
                other != id ==> #[trigger] waiting(buffers@, other) == waiting(
                    old(buffers)@,
                    other,
                ),
            forall|bytes: &Vec<u8>| #[trigger] decode.requires((bytes,)),
            decoded(decode, messages.take(n), outcomes),
            received@ == old(received)@ + values(outcomes),
        decreases messages.len() - n,
    {
        let ghost waiting_before = buffers@;
        match buffers.next_message(id) {
            None => {
                assert(messages.take(n) =~= messages);
                assert(messages.skip(n) =~= Seq::empty());
                return ;
            },
            Some(message) => {
                let outcome = decode(&message);
                proof {
                    assert forall|other: u16| other != id implies #[trigger] waiting(
                        buffers@,
                        other,
                    ) == waiting(old(buffers)@, other) by {
                        assert(waiting(waiting_before, other) == waiting(old(buffers)@, other));
                    }
                    assert(decode.ensures((&message,), outcome));
                    assert(decoded_one(decode, messages[n], outcome));
                    let more = outcomes.push(outcome);
                    assert(more.drop_last() =~= outcomes);
                    assert forall|i: int| 0 <= i < n + 1 implies #[trigger] decoded_one(
                        decode,
                        messages.take(n + 1)[i],
                        more[i],
                    ) by {
                        if i < n {
                            assert(decoded_one(decode, messages.take(n)[i], outcomes[i]));
                        }
                    }
                    assert(messages.skip(n).skip(1) =~= messages.skip(n + 1));
                    outcomes = more;
                    n = n + 1;
                }
                if let Some(value) = outcome {
                    received.push(value);
                }
                assert(received@ =~= old(received)@ + values(outcomes));
            },
        }
    }
}

/// Reading `first` and then `second` is reading `first + second`: how a stream is cut into chunks
/// does not matter to the messages that come out, nor to their order.
pub proof fn stream_run_concat(stream: StreamView, first: Seq<u8>, second: Seq<u8>)
    requires
        stream.wf(),
    ensures
        ({
            let (middle, messages) = stream_run(stream, first);
            let (last, more) = stream_run(middle, second);
            stream_run(stream, first + second) == (last, messages + more)
        }),
        stream_run(stream, first).0.wf(),
    decreases first.len(), stream is Message as int,
{
    let (middle, messages) = stream_run(stream, first);
    let (last, more) = stream_run(middle, second);
    let all = first + second;
    let missing = stream.missing();
    if first.len() == 0 {
        assert(all =~= second);
        assert(messages + more =~= more);
    } else if first.len() < missing {
        let left = missing - first.len();
        assert(messages + more =~= more);
        assert(middle.missing() == left);
        if second.len() == 0 {
            assert(all =~= first);
        } else if second.len() < left {
            assert(stream.with_bytes(first).with_bytes(second) == stream.with_bytes(all)) by {
                match stream {
                    StreamView::Id { received } => {
                        assert(received + first + second =~= received + all);
                    },
                    StreamView::Length { id, received } => {
                        assert(received + first + second =~= received + all);
                    },
                    StreamView::Message { id, length, received } => {
                        assert(received + first + second =~= received + all);
                    },
                }
            }
        } else {
            assert(all.take(missing) =~= first + second.take(left));
            assert(all.skip(missing) =~= second.skip(left));
            assert(middle.completed(second.take(left)) == stream.completed(all.take(missing))) by {
                match stream {
                    StreamView::Id { received } => {
                        assert(received + first + second.take(left) =~= received + all.take(
                            missing,
                        ));
                    },
                    StreamView::Length { id, received } => {
                        assert(received + first + second.take(left) =~= received + all.take(
                            missing,
                        ));
                    },
                    StreamView::Message { id, length, received } => {
                        assert(received + first + second.take(left) =~= received + all.take(
                            missing,
                        ));
                    },
                }
            }
        }
    } else {
        let (next, head) = stream.completed(first.take(missing));
        assert(all.take(missing) =~= first.take(missing));
        assert(all.skip(missing) =~= first.skip(missing) + second);
        stream_run_concat(next, first.skip(missing), second);
        let later = stream_run(next, first.skip(missing)).1;
        assert(head + (later + more) =~= (head + later) + more);
    }
}

/// A message as it travels: its id, its length and its bytes.
pub open spec fn message_frame(message: MessageView) -> Seq<u8> {
    u16_bytes(message.0) + u16_bytes(message.1.len() as u16) + message.1
}

/// Several messages as they travel.
pub open spec fn message_frames(messages: Seq<MessageView>) -> Seq<u8>
    decreases messages.len(),
{
    if messages.len() == 0 {
        Seq::empty()
    } else {
        message_frame(messages[0]) + message_frames(messages.skip(1))
    }
}

/// A stream that starts with a framed message gives it back before what follows.
pub proof fn message_round_trip(message: MessageView, rest: Seq<u8>)
    requires
        message.1.len() <= u16::MAX,
    ensures
        stream_run(new_stream(), message_frame(message) + rest) == if message.1.len() == 0
            && rest.len() == 0 {
            (
                StreamView::Message { id: message.0, length: 0, received: Seq::empty() },
                Seq::empty(),
            )
        } else {
            let (last, more) = stream_run(new_stream(), rest);
            (last, seq![message] + more)
        },
{
    let (id, bytes) = message;
    let id_bytes = u16_bytes(id);
    let length = bytes.len() as u16;
    let length_bytes = u16_bytes(length);
    let data = message_frame(message) + rest;
    let after_id = length_bytes + (bytes + rest);
    u16_round_trip(id);
    u16_round_trip(length);
    assert(data.take(2) =~= id_bytes);
    assert(data.skip(2) =~= after_id);
    assert(after_id.take(2) =~= length_bytes);
    assert(after_id.skip(2) =~= bytes + rest);
    assert(Seq::<u8>::empty() + id_bytes =~= id_bytes);
    assert(Seq::<u8>::empty() + length_bytes =~= length_bytes);
    let with_id = StreamView::Length { id, received: Seq::empty() };
    let with_length = StreamView::Message { id, length, received: Seq::empty() };
    let none = Seq::<MessageView>::empty();
    assert(none + stream_run(with_id, after_id).1 =~= stream_run(with_id, after_id).1);
    assert(stream_run(new_stream(), data) == stream_run(with_id, after_id));
    assert(none + stream_run(with_length, bytes + rest).1 =~= stream_run(
        with_length,
        bytes + rest,
    ).1);
    assert(stream_run(with_id, after_id) == stream_run(with_length, bytes + rest));
    if bytes.len() + rest.len() > 0 {
        assert(Seq::<u8>::empty() + (bytes + rest).take(bytes.len() as int) =~= bytes);
        assert((bytes + rest).skip(bytes.len() as int) =~= rest);
    } else {
        assert(bytes =~= Seq::empty());
    }
}

/// A stream gives back the messages that were framed, in their order, and is then ready for the
/// next one. A last message without bytes is given back with the first byte that follows it.
pub proof fn message_frames_round_trip(messages: Seq<MessageView>)
    requires
        forall|i: int| 0 <= i < messages.len() ==> (#[trigger] messages[i]).1.len() <= u16::MAX,
    ensures
        stream_run(new_stream(), message_frames(messages)) == if messages.len() > 0
            && messages.last().1.len() == 0 {
            (
                StreamView::Message { id: messages.last().0, length: 0, received: Seq::empty() },
                messages.drop_last(),
            )
        } else {
            (new_stream(), messages)
        },
    decreases messages.len(),
{
    if messages.len() > 0 {
        let rest = messages.skip(1);
        assert forall|i: int| 0 <= i < rest.len() implies (#[trigger] rest[i]).1.len()
            <= u16::MAX by {
            assert(rest[i] == messages[i + 1]);
        }
        message_frames_round_trip(rest);
        message_round_trip(messages[0], message_frames(rest));
        if rest.len() > 0 {
            assert(message_frames(rest).len() > 0);
            assert(rest.last() == messages.last());
            assert(seq![messages[0]] + rest =~= messages);
            assert(seq![messages[0]] + rest.drop_last() =~= messages.drop_last());
        } else {
            assert(seq![messages[0]] + Seq::<MessageView>::empty() =~= messages);
            assert(messages.drop_last() =~= Seq::empty());
        }
    } else {
        assert(messages =~= Seq::empty());
    }
}

/// Whatever part of a stream of framed messages has come, the messages that were read are the first
/// ones that were framed, in their order: none is lost, repeated, changed or made up.
pub proof fn messages_in_order(messages: Seq<MessageView>, received: Seq<u8>)
    requires
        forall|i: int| 0 <= i < messages.len() ==> (#[trigger] messages[i]).1.len() <= u16::MAX,
        received.is_prefix_of(message_frames(messages)),
    ensures
        stream_run(new_stream(), received).1.is_prefix_of(messages),
{
    let all = message_frames(messages);
    let rest = all.skip(received.len() as int);
    assert(all =~= received + rest);
    stream_run_concat(new_stream(), received, rest);
    message_frames_round_trip(messages);
    let read = stream_run(new_stream(), all).1;
    assert(read.is_prefix_of(messages));
    assert(stream_run(new_stream(), received).1.is_prefix_of(read));
}

impl MessageRecvStreamState {
    /// The state of a stream of which nothing has been read.
    pub fn new() -> (state: Self)
        ensures
            state@ == new_stream(),
            state@.wf(),
    {
        MessageRecvStreamState::ReadingId { buffer: U16Reader::new() }
    }

    /// The number of bytes that are missing of what is being received.
    fn bytes_needed(&self) -> (needed: usize)
        requires
            self@.wf(),
        ensures
            needed == self@.missing(),
    {
        match self {
            MessageRecvStreamState::ReadingId { buffer } => buffer.bytes_needed(),
            MessageRecvStreamState::ReadingLength { message_id: _, buffer } => {
                buffer.bytes_needed()
            },
            MessageRecvStreamState::ReadingMessage { message_id: _, length, buffer } => {
                *length as usize - buffer.len()
            },
        }
    }

    /// Takes bytes, at most as many as are missing, and delivers the message that they complete.
    fn receive(&mut self, data: Vec<u8>, messages: &mut MessageBuffers)
        requires
            old(self)@.wf(),
            data@.len() <= old(self)@.missing(),
        ensures
            final(self)@.wf(),
            if data@.len() == old(self)@.missing() {
                &&& final(self)@ == old(self)@.completed(data@).0
                &&& final(messages)@ == deliver(old(messages)@, old(self)@.completed(data@).1)
            } else {
                &&& final(self)@ == old(self)@.with_bytes(data@)
                &&& final(messages)@ == old(messages)@
            },
    {
        let ghost start = self@;
        match self {
            MessageRecvStreamState::ReadingId { buffer } => {
                let ghost received = buffer@;
                buffer.write(data.as_slice());
                assert(u16_taken(received, data@) =~= data@);
                if let Some(message_id) = buffer.finish() {
                    *self = MessageRecvStreamState::ReadingLength {
                        message_id,
                        buffer: U16Reader::new(),
                    };
                }
            },
            MessageRecvStreamState::ReadingLength { message_id, buffer } => {
                let ghost received = buffer@;
                buffer.write(data.as_slice());
                assert(u16_taken(received, data@) =~= data@);
                if let Some(length) = buffer.finish() {
                    *self = MessageRecvStreamState::ReadingMessage {
                        message_id: *message_id,
                        length,
                        buffer: Vec::new(),
                    };
                }
            },
            MessageRecvStreamState::ReadingMessage { message_id, length, buffer } => {
                let ghost received = buffer@;
                buffer.extend_from_slice(data.as_slice());
                assert(buffer@ =~= received + data@);
                if buffer.len() == *length as usize {
                    let id: u16 = *message_id;
                    let mut message: Vec<u8> = Vec::new();
                    message.append(buffer);
                    assert(message@ =~= received + data@);
                    *self = MessageRecvStreamState::new();
                    messages.push(id, message);
                }
            },
        }
    }

    /// Reads the stream as far as it has been received, and delivers the messages that come out.
    /// Returns whether the stream is still open.
    fn read(
        &mut self,
        stream: StreamId,
        connection: &mut ConnectionState,
        messages: &mut MessageBuffers,
    ) -> (open: Result<bool, StreamReadError>)
        requires
            old(self)@.wf(),
            old(connection).wf(),
            can_read(old(connection).engine(), stream.0),
        ensures
            final(self)@.wf(),
            final(connection).wf(),
            final(connection).same_flags(*old(connection)),
            drained(old(connection).engine(), final(connection).engine(), stream.0),
            ({
                let unread = old(connection).engine().unread_on(stream.0);
                let (last, delivered) = stream_run(old(self)@, unread);
                &&& final(connection).engine().unread_on(stream.0).len() == 0
                &&& final(self)@ == last
                &&& final(messages)@ == deliver(old(messages)@, delivered)
            }),
            match open {
                Ok(open) => open == !old(connection).engine().over.contains(stream.0)
                    && !end_was_read(old(connection).engine(), stream.0),
                Err(error) => error == StreamReadError::ClosedStream(ClosedStreamError)
                    && end_was_read(old(connection).engine(), stream.0),
            },
    {
        let ghost before = connection.engine();
        let ghost start = self@;
        let ghost unread = before.unread_on(stream.0);
        let ghost mut n: int = 0;
        let ghost mut delivered: Seq<MessageView> = Seq::empty();
        proof {
            assert(unread.skip(0) =~= unread);
            assert(delivered + stream_run(start, unread).1 =~= stream_run(start, unread).1);
        }
        loop
            invariant
                connection.wf(),
                connection.same_flags(*old(connection)),
                before == old(connection).engine(),
                start == old(self)@,
                self@.wf(),
                unread == before.unread_on(stream.0),
                can_read(before, stream.0),
                0 <= n <= unread.len(),
                ({
                    let (last, more) = stream_run(self@, unread.skip(n));
                    stream_run(start, unread) == (last, delivered + more)
                }),
                messages@ == deliver(old(messages)@, delivered),
                connection.engine().unread_on(stream.0) == unread.skip(n),
                connection.engine() == (EngineView { unread: connection.engine().unread, ..before }),
                forall|other: u64|
                    other != stream.0 ==> #[trigger] connection.engine().unread_on(other)
                        == before.unread_on(other),
            decreases unread.len() - n, self@ is Message as int,
        {
            let needed: usize = self.bytes_needed();
            let ghost current = connection.engine();
            let ghost state = self@;
            let result = connection.read_recv_stream(stream, needed, true);
            proof {
                let raw = choose|raw: StreamRead| #[trigger]
                    read_effect(current, connection.engine(), stream.0, needed, true, raw)
                        && chunk_view(result) == read_result(raw);
                assert forall|other: u64| other != stream.0 implies #[trigger] connection.engine()
                    .unread_on(other) == before.unread_on(other) by {
                    crate::quic::connection::lemma_removed_same(
                        current.unread,
                        connection.engine().unread,
                        stream.0,
                        other,
                    );
                    assert(current.unread_on(other) == before.unread_on(other));
                }
            }
            match result {
                Ok(Some(chunk)) => {
                    let data = chunk.data;
                    let ghost bytes = data@;
                    let ghost rest = unread.skip(n);
                    let ghost after = unread.skip(n + bytes.len());
                    self.receive(data, messages);
                    proof {
                        assert(rest.skip(bytes.len() as int) =~= after);
                        assert(bytes =~= rest.take(bytes.len() as int));
                        lemma_step(state, rest, bytes.len() as int);
                        let head = if bytes.len() == state.missing() {
                            state.completed(bytes).1
                        } else {
                            Seq::empty()
                        };
                        let (last, more) = stream_run(self@, after);
                        assert(delivered + (head + more) =~= (delivered + head) + more);
                        lemma_deliver_concat(old(messages)@, delivered, head);
                        assert(deliver(messages@, Seq::empty()) == messages@);
                        delivered = delivered + head;
                        n = n + bytes.len();
                    }
                },
                Ok(None) => {
                    proof {
                        assert(unread.skip(n) =~= Seq::empty());
                        assert(delivered + Seq::<MessageView>::empty() =~= delivered);
                    }
                    return Ok(false);
                },
                Err(StreamReadError::Blocked) => {
                    proof {
                        assert(unread.skip(n) =~= Seq::empty());
                        assert(delivered + Seq::<MessageView>::empty() =~= delivered);
                    }
                    return Ok(true);
                },
                Err(StreamReadError::Reset(_)) => {
                    proof {
                        assert(unread.skip(n) =~= Seq::empty());
                        assert(delivered + Seq::<MessageView>::empty() =~= delivered);
                    }
                    return Ok(false);
                },
                Err(error) => {
                    proof {
                        assert(unread.skip(n) =~= Seq::empty());
                        assert(delivered + Seq::<MessageView>::empty() =~= delivered);
                        assert(before.closed.insert(stream.0) =~= before.closed);
                    }
                    return Err(error);
                },
            }
        }
    }
}

/// Reading at most what is missing is one step of reading all.
proof fn lemma_step(stream: StreamView, data: Seq<u8>, count: int)
    requires
        stream.wf(),
        data.len() > 0,
        0 <= count <= data.len(),
        count <= stream.missing(),
        stream.missing() > 0 ==> count > 0,
    ensures
        ({
            let (next, head) = if count == stream.missing() {
                stream.completed(data.take(count))
            } else {
                (stream.with_bytes(data.take(count)), Seq::empty())
            };
            let (last, more) = stream_run(next, data.skip(count));
            stream_run(stream, data) == (last, head + more)
        }),
{
    if count < stream.missing() {
        let first = data.take(count);
        let second = data.skip(count);
        assert(data =~= first + second);
        stream_run_concat(stream, first, second);
        let more = stream_run(stream.with_bytes(first), second).1;
        assert(Seq::<MessageView>::empty() + more =~= more);
    }
}

/// The state machines for the message streams of a connection, and the messages that have come.
pub struct MessageRecvStreams {
    pub streams: HashMap<u64, MessageRecvStreamState>,
    pub messages: MessageBuffers,
}

/// What has been read of the next message of each stream.
pub open spec fn stream_views(streams: Map<u64, MessageRecvStreamState>) -> Map<u64, StreamView> {
    streams.map_values(|stream: MessageRecvStreamState| stream@)
}

/// Whether streams are consistent, and belong to a connection on which they can be read.
pub open spec fn streams_wf(streams: Map<u64, StreamView>, held: EngineView) -> bool {
    forall|id: u64| #[trigger]
        streams.contains_key(id) ==> streams[id].wf() && can_read(held, id)
}

/// Whether the end of a stream was read before, or the stream was stopped.
pub open spec fn end_was_read(held: EngineView, id: u64) -> bool {
    held.over.contains(id) && held.closed.contains(id)
}

/// What is left when reading the last of some streams fails: these have been read in their order,
/// and the others have not.
pub open spec fn broken_off(
    held: EngineView,
    before: (Map<u64, StreamView>, BuffersView),
    after: (Map<u64, StreamView>, BuffersView),
    order: Seq<u64>,
) -> bool {
    &&& order.len() > 0
    &&& order.no_duplicates()
    &&& end_was_read(held, order.last())
    &&& after.0.dom() == before.0.dom()
    &&& forall|id: u64| #[trigger] order.contains(id) ==> before.0.contains_key(id)
    &&& forall|id: u64| #[trigger]
        after.0.contains_key(id) ==> after.0[id] == if order.contains(id) {
            stream_run(before.0[id], held.unread_on(id)).0
        } else {
            before.0[id]
        }
    &&& after.1 == deliver(before.1, messages_of(before.0, held, order))
}

/// Some streams as new message streams, next to the others.
pub open spec fn with_new_streams(streams: Map<u64, StreamView>, ids: Set<u64>) -> Map<
    u64,
    StreamView,
> {
    Map::new(
        |id: u64| streams.contains_key(id) || ids.contains(id),
        |id: u64|
            if ids.contains(id) {
                new_stream()
            } else {
                streams[id]
            },
    )
}

/// The streams that have received a header.
pub open spec fn headered(headers: Map<u64, HeaderView>, header: u16) -> Set<u64> {
    Set::new(
        |id: u64|
            headers.contains_key(id) && (headers[id] matches HeaderView::Received {
                header: received,
                ..
            } && received == header),
    )
}

/// The messages that some streams complete when they are read one after the other.
pub open spec fn messages_of(
    streams: Map<u64, StreamView>,
    held: EngineView,
    order: Seq<u64>,
) -> Seq<MessageView>
    decreases order.len(),
{
    if order.len() == 0 {
        Seq::empty()
    } else {
        messages_of(streams, held, order.drop_last()) + stream_run(
            streams[order.last()],
            held.unread_on(order.last()),
        ).1
    }
}

impl Default for MessageRecvStreams {
    /// No streams and no messages.
    fn default() -> (streams: Self)
        ensures
            streams.views() == Map::<u64, StreamView>::empty(),
            streams.messages@ == Map::<u16, Seq<Seq<u8>>>::empty(),
    {
        let streams = MessageRecvStreams {
            streams: HashMap::new(),
            messages: MessageBuffers { queues: HashMap::new() },
        };
        assert(streams.views() =~= Map::empty());
        assert(streams.messages@ =~= Map::empty());
        streams
    }
}

impl MessageRecvStreams {
    /// What has been read of the next message of each stream.
    pub open spec fn views(self) -> Map<u64, StreamView> {
        stream_views(self.streams@)
    }

    /// Takes all streams that have received the header of message streams. Returns those that are
    /// bidirectional, which message streams should not be.
    pub fn take_message_streams(&mut self, headers: &mut RecvStreamHeaders, header: u16) -> (odd:
        Vec<StreamId>)
        ensures
            final(self).messages == old(self).messages,
            final(self).views() == with_new_streams(
                old(self).views(),
                headered(old(headers)@, header),
            ),
            final(headers)@ == old(headers)@.remove_keys(headered(old(headers)@, header)),
            forall|id: u64|
                #![trigger headered(old(headers)@, header).contains(id)]
                odd@.contains(StreamId(id)) <==> headered(old(headers)@, header).contains(id)
                    && old(headers)@[id] == (HeaderView::Received { dir: Direction::Bi, header }),
    {
        let ghost before = headers@;
        let ghost start = self.views();
        let ghost mut taken: Set<u64> = Set::empty();
        let mut odd: Vec<StreamId> = Vec::new();
        proof {
            assert(before.remove_keys(taken) =~= before);
            assert(with_new_streams(start, taken) =~= start);
            assert(headers.buffers@.dom() =~= headers@.dom());
        }
        loop
            invariant
                before == old(headers)@,
                start == old(self).views(),
                self.messages == old(self).messages,
                taken.subset_of(headered(before, header)),
                headers@ == before.remove_keys(taken),
                self.views() == with_new_streams(start, taken),
                forall|id: u64|
                    #![trigger taken.contains(id)]
                    odd@.contains(StreamId(id)) <==> taken.contains(id) && before[id] == (
                    HeaderView::Received { dir: Direction::Bi, header }),
            decreases headers.buffers@.dom().len(),
        {
            let ghost left = headers@;
            let ghost left_buffers = headers.buffers@;
            let ghost views = self.views();
            let ghost odd_before = odd@;
            assert(left_buffers.dom() =~= left.dom());
            match headers.take_stream(header) {
                None => {
                    proof {
                        assert forall|id: u64| headered(before, header).contains(
                            id,
                        ) implies taken.contains(id) by {
                            if !taken.contains(id) {
                                assert(left.contains_key(id));
                            }
                        }
                        assert(taken =~= headered(before, header));
                    }
                    return odd;
                },
                Some((stream, dir)) => {
                    let id: u64 = stream.0;
                    self.streams.insert(id, MessageRecvStreamState::new());
                    if let Direction::Bi = dir {
                        odd.push(stream);
                    }
                    proof {
                        let more = taken.insert(id);
                        assert(headers.buffers@.dom() =~= headers@.dom());
                        assert(headers.buffers@.dom() =~= left_buffers.dom().remove(id));
                        assert(left_buffers.dom().contains(id));
                        assert(headers@ =~= before.remove_keys(more));
                        assert(self.views() =~= views.insert(id, new_stream()));
                        assert(self.views() =~= with_new_streams(start, more));
                        assert forall|other: u64|
                            #![trigger more.contains(other)]
                            odd@.contains(StreamId(other)) <==> more.contains(other)
                                && before[other] == (HeaderView::Received {
                                dir: Direction::Bi,
                                header,
                            }) by {
                            assert(taken.contains(other) || !taken.contains(other));
                            if dir == Direction::Bi {
                                lemma_push_contains(odd_before, stream, StreamId(other));
                            }
                        }
                        taken = more;
                    }
                },
            }
        }
    }

    /// Reads all streams as far as they have been received, and drops those that are over. The
    /// order in which streams are read is open.
    ///
    /// Fails at once if a stream was closed by others. Nothing is dropped then.
    pub fn read_message_streams(&mut self, connection: &mut ConnectionState) -> (result: Result<
        (),
        StreamReadError,
    >)
        requires
            old(connection).wf(),
            streams_wf(old(self).views(), old(connection).engine()),
        ensures
            final(connection).wf(),
            final(connection).same_flags(*old(connection)),
            streams_wf(final(self).views(), final(connection).engine()),
            result is Err <==> exists|id: u64| #[trigger]
                old(self).views().contains_key(id) && end_was_read(old(connection).engine(), id),
            match result {
                Ok(_) => {
                    let held = old(connection).engine();
                    let streams = old(self).views();
                    &&& forall|id: u64| #[trigger]
                        final(self).views().contains_key(id) <==> streams.contains_key(id)
                            && !held.over.contains(id)
                    &&& forall|id: u64| #[trigger]
                        final(self).views().contains_key(id) ==> final(self).views()[id]
                            == stream_run(streams[id], held.unread_on(id)).0
                    &&& exists|order: Seq<u64>|
                        order.no_duplicates() && order.to_set() == streams.dom() && final(
                            self).messages@ == deliver(
                            old(self).messages@,
                            #[trigger] messages_of(streams, held, order),
                        ) && read_through(held, final(connection).engine(), order)
                },
                Err(error) => error == StreamReadError::ClosedStream(ClosedStreamError)
                    && exists|order: Seq<u64>| #[trigger]
                    broken_off(
                        old(connection).engine(),
                        (old(self).views(), old(self).messages@),
                        (final(self).views(), final(self).messages@),
                        order,
                    ) && read_through(
                        old(connection).engine(),
                        final(connection).engine(),
                        order,
                    ),
            },
    {
        let ghost held = connection.engine();
        let ghost streams = self.views();
        let ids = keys_of(&self.streams);
        let mut finished: Vec<u64> = Vec::new();
        let mut i: usize = 0;
        proof {
            assert(self.streams@.dom() =~= streams.dom());
            assert(ids@.take(0) =~= Seq::empty());
            assert forall|id: u64| !finished@.contains(id) by {};
        }
        while i < ids.len()
            invariant
                connection.wf(),
                connection.same_flags(*old(connection)),
                held == old(connection).engine(),
                streams == old(self).views(),
                streams_wf(streams, held),
                streams_wf(self.views(), connection.engine()),
                self.views().dom() == streams.dom(),
                ids@.no_duplicates(),
                ids@.to_set() == streams.dom(),
                i <= ids@.len(),
                read_through(held, connection.engine(), ids@.take(i as int)),
                forall|j: int|
                    0 <= j < i ==> self.views()[#[trigger] ids@[j]] == stream_run(
                        streams[ids@[j]],
                        held.unread_on(ids@[j]),
                    ).0,
                forall|j: int|
                    i <= j < ids@.len() ==> self.views()[#[trigger] ids@[j]] == streams[ids@[j]]
                        && connection.engine().unread_on(ids@[j]) == held.unread_on(ids@[j])
                        && connection.engine().closed.contains(ids@[j]) == held.closed.contains(
                        ids@[j],
                    ),
                forall|j: int| 0 <= j < i ==> !end_was_read(held, #[trigger] ids@[j]),
                forall|id: u64| #[trigger]
                    finished@.contains(id) <==> ids@.take(i as int).contains(id)
                        && held.over.contains(id),
                self.messages@ == deliver(
                    old(self).messages@,
                    messages_of(streams, held, ids@.take(i as int)),
                ),
            decreases ids@.len() - i,
        {
            let id: u64 = ids[i];
            let ghost views = self.views();
            let ghost current = connection.engine();
            let ghost finished_before = finished@;
            proof {
                assert(ids@.to_set().contains(id));
                assert(views.contains_key(id));
                assert(views[ids@[i as int]] == streams[ids@[i as int]]);
            }
            let result = match self.streams.entry(id) {
                Entry::Vacant(_) => Ok(true),
                Entry::Occupied(entry) => entry.into_mut().read(
                    StreamId(id),
                    connection,
                    &mut self.messages,
                ),
            };
            proof {
                assert(ids@[i as int] == id);
                assert(drained(current, connection.engine(), id));
                lemma_read_through(held, current, connection.engine(), ids@, i as int);
                assert(self.views() =~= views.insert(id, self.views()[id]));
                assert(self.views().dom() =~= streams.dom());
                assert forall|other: u64| #[trigger] self.views().contains_key(
                    other,
                ) implies self.views()[other].wf() && can_read(connection.engine(), other) by {
                    assert(views.contains_key(other));
                }
            }
            match result {
                Err(error) => {
                    proof {
                        assert(streams.contains_key(id));
                        let order = ids@.take(i + 1);
                        assert(order =~= ids@.take(i as int).push(id));
                        assert(order.drop_last() =~= ids@.take(i as int));
                        lemma_deliver_concat(
                            old(self).messages@,
                            messages_of(streams, held, ids@.take(i as int)),
                            stream_run(streams[id], held.unread_on(id)).1,
                        );
                        assert forall|other: u64| #[trigger] order.contains(other) implies
                            streams.contains_key(other) by {
                            let place = order.index_of(other);
                            assert(ids@[place] == other);
                            assert(ids@.to_set().contains(other));
                        }
                        assert forall|other: u64| #[trigger] self.views().contains_key(
                            other,
                        ) implies self.views()[other] == if order.contains(other) {
                            stream_run(streams[other], held.unread_on(other)).0
                        } else {
                            streams[other]
                        } by {
                            assert(ids@.to_set().contains(other));
                            let place = ids@.index_of(other);
                            assert(ids@[place] == other);
                            if place <= i {
                                assert(order[place] == other);
                                if place < i {
                                    assert(views[ids@[place]] == self.views()[ids@[place]]);
                                }
                            } else {
                                assert(views[ids@[place]] == streams[ids@[place]]);
                                if order.contains(other) {
                                    let twice = order.index_of(other);
                                    assert(ids@[twice] == ids@[place]);
                                }
                            }
                        }
                        assert(broken_off(
                            held,
                            (streams, old(self).messages@),
                            (self.views(), self.messages@),
                            order,
                        ));
                    }
                    return Err(error);
                },
                Ok(open) => {
                    if !open {
                        finished.push(id);
                    }
                },
            }
            proof {
                let taken = ids@.take(i as int);
                let more = ids@.take(i + 1);
                assert(more =~= taken.push(id));
                assert(more.drop_last() =~= taken);
                lemma_deliver_concat(
                    old(self).messages@,
                    messages_of(streams, held, taken),
                    stream_run(streams[id], held.unread_on(id)).1,
                );
                assert forall|j: int| 0 <= j < i + 1 implies self.views()[#[trigger] ids@[j]]
                    == stream_run(streams[ids@[j]], held.unread_on(ids@[j])).0 by {
                    if j < i {
                        assert(ids@[j] != id);
                    }
                }
                assert forall|j: int| i + 1 <= j < ids@.len() implies self.views()[#[trigger] ids@[
                    j
                ]] == streams[ids@[j]] && connection.engine().unread_on(ids@[j])
                    == held.unread_on(ids@[j]) && connection.engine().closed.contains(ids@[j])
                    == held.closed.contains(ids@[j]) by {
                    assert(ids@[j] != id);
                    assert(connection.engine().unread_on(ids@[j]) == current.unread_on(ids@[j]));
                    assert(connection.engine().closed.contains(ids@[j])
                        == connection.engine().closed.remove(id).contains(ids@[j]));
                    assert(current.closed.contains(ids@[j]) == current.closed.remove(id).contains(
                        ids@[j],
                    ));
                }
                assert forall|other: u64| #[trigger]
                    finished@.contains(other) <==> more.contains(other) && held.over.contains(
                        other,
                    ) by {
                    lemma_push_contains_id(taken, id, other);
                    lemma_push_contains_id(finished_before, id, other);
                    assert(finished_before.contains(other) <==> taken.contains(other)
                        && held.over.contains(other));
                }
            }
            i = i + 1;
        }
        assert(ids@.take(i as int) =~= ids@);
        assert forall|id: u64| #[trigger] streams.contains_key(id) implies !end_was_read(
            held,
            id,
        ) by {
            assert(ids@.to_set().contains(id));
            let place = ids@.index_of(id);
            assert(!end_was_read(held, ids@[place]));
        }
        let ghost read = self.views();
        let mut k: usize = 0;
        proof {
            assert(finished@.take(0) =~= Seq::empty());
            assert(read.remove_keys(Set::empty()) =~= read);
            assert(finished@.take(0).to_set() =~= Set::empty());
        }
        while k < finished.len()
            invariant
                k <= finished@.len(),
                self.views() == read.remove_keys(finished@.take(k as int).to_set()),
                self.messages@ == deliver(
                    old(self).messages@,
                    messages_of(streams, held, ids@),
                ),
            decreases finished@.len() - k,
        {
            let ghost views = self.views();
            let id: u64 = finished[k];
            self.streams.remove(&id);
            proof {
                assert(self.views() =~= views.remove(id));
                assert(finished@.take(k + 1) =~= finished@.take(k as int).push(id));
                assert forall|other: u64| finished@.take(k + 1).to_set().contains(other)
                    == finished@.take(k as int).to_set().insert(id).contains(other) by {
                    lemma_push_contains_id(finished@.take(k as int), id, other);
                }
                assert(finished@.take(k + 1).to_set() =~= finished@.take(
                    k as int,
                ).to_set().insert(id));
                assert(self.views() =~= read.remove_keys(finished@.take(k + 1).to_set()));
            }
            k = k + 1;
        }
        proof {
            assert(finished@.take(k as int) =~= finished@);
            assert forall|id: u64| #[trigger] self.views().contains_key(id) <==>
                streams.contains_key(id) && !held.over.contains(id) by {
                assert(ids@.contains(id) <==> ids@.to_set().contains(id));
                assert(finished@.contains(id) <==> ids@.contains(id) && held.over.contains(id));
            }
            assert forall|id: u64| #[trigger] self.views().contains_key(id) implies self.views()[id]
                == stream_run(streams[id], held.unread_on(id)).0 by {
                assert(ids@.to_set().contains(id));
                let place = ids@.index_of(id);
                assert(ids@[place] == id);
            }
            assert(streams_wf(read, connection.engine()));
            assert forall|id: u64| #[trigger] self.views().contains_key(id) implies self.views()[id].wf()
                && can_read(connection.engine(), id) by {
                assert(read.contains_key(id));
            }
        }
        Ok(())
    }
}

/// What a sequence contains after one more element.
proof fn lemma_push_contains(elements: Seq<StreamId>, last: StreamId, element: StreamId)
    ensures
        elements.push(last).contains(element) <==> elements.contains(element) || element == last,
{
    let more = elements.push(last);
    if elements.contains(element) {
        let place = elements.index_of(element);
        assert(more[place] == element);
    }
    if element == last {
        assert(more[elements.len() as int] == element);
    }
    if more.contains(element) && element != last {
        let place = more.index_of(element);
        assert(elements[place] == element);
    }
}

/// What a sequence contains after one more element.
proof fn lemma_push_contains_id(elements: Seq<u64>, last: u64, element: u64)
    ensures
        elements.push(last).contains(element) <==> elements.contains(element) || element == last,
{
    let more = elements.push(last);
    if elements.contains(element) {
        let place = elements.index_of(element);
        assert(more[place] == element);
    }
    if element == last {
        assert(more[elements.len() as int] == element);
    }
    if more.contains(element) && element != last {
        let place = more.index_of(element);
        assert(elements[place] == element);
    }
}

/// A message travels as four bytes, which are its id and its length with the more significant byte
/// first, and its bytes.
pub proof fn frames_are_bytes(message: MessageView)
    requires
        message.1.len() <= u16::MAX,
    ensures
        message_frame(message) == seq![
            (message.0 / 256) as u8,
            (message.0 % 256) as u8,
            (message.1.len() / 256) as u8,
            (message.1.len() % 256) as u8,
        ] + message.1,
{
    assert(message_frame(message) =~= seq![
        (message.0 / 256) as u8,
        (message.0 % 256) as u8,
        (message.1.len() / 256) as u8,
        (message.1.len() % 256) as u8,
    ] + message.1);
}

/// What waits under an id after messages were delivered is what waited before, followed by the
/// bytes of all messages that have the id, in their order.
pub proof fn delivered_messages_wait(buffers: BuffersView, messages: Seq<MessageView>, id: u16)
    ensures
        ({
            let after = deliver(buffers, messages);
            let bodies = messages.filter(|message: MessageView| message.0 == id).map_values(
                |message: MessageView| message.1,
            );
            let before = if buffers.contains_key(id) {
                buffers[id]
            } else {
                Seq::empty()
            };
            &&& bodies.len() > 0 ==> after.contains_key(id)
            &&& after.contains_key(id) ==> after[id] == before + bodies
            &&& buffers.contains_key(id) ==> after.contains_key(id)
            &&& waiting(after, id) == before + bodies
        }),
    decreases messages.len(),
{
    reveal(Seq::filter);
    let of_id = |message: MessageView| message.0 == id;
    let body = |message: MessageView| message.1;
    let before = if buffers.contains_key(id) {
        buffers[id]
    } else {
        Seq::empty()
    };
    if messages.len() == 0 {
        assert(messages.filter(of_id).map_values(body) =~= Seq::empty());
        assert(before + Seq::<Seq<u8>>::empty() =~= before);
    } else {
        let front = messages.drop_last();
        delivered_messages_wait(buffers, front, id);
        let bodies = front.filter(of_id).map_values(body);
        if messages.last().0 == id {
            assert(messages.filter(of_id).map_values(body) =~= bodies.push(messages.last().1));
            assert((before + bodies).push(messages.last().1) =~= before + bodies.push(
                messages.last().1,
            ));
        } else {
            assert(messages.filter(of_id).map_values(body) =~= bodies);
        }
    }
}

/// Whether bytes are the start of a message that has bytes, and not all of it.
pub open spec fn unfinished(bytes: Seq<u8>) -> bool {
    bytes.len() == 0 || exists|message: MessageView|
        {
            &&& 0 < message.1.len() <= u16::MAX
            &&& bytes.len() < (#[trigger] message_frame(message)).len()
            &&& bytes.is_prefix_of(message_frame(message))
        }
}

/// Whether a stream, of whose next message the start has been read, goes on with the rest of that
/// message, more messages, and then the start of another one.
pub open spec fn carries(
    received: Seq<u8>,
    stream: StreamView,
    begun: Seq<u8>,
    whole: Seq<MessageView>,
    started: Seq<u8>,
) -> bool {
    &&& unfinished(begun)
    &&& unfinished(started)
    &&& stream == stream_run(new_stream(), begun).0
    &&& forall|i: int| 0 <= i < whole.len() ==> 0 < (#[trigger] whole[i]).1.len() <= u16::MAX
    &&& begun + received == message_frames(whole) + started
}

/// Reading a stream gives the messages on it that are complete, each once and in their order,
/// whatever pieces they came in, and nothing else. The start of the next message is kept, and what
/// comes later is read on from there.
pub proof fn whole_messages_are_read(
    received: Seq<u8>,
    stream: StreamView,
    begun: Seq<u8>,
    whole: Seq<MessageView>,
    started: Seq<u8>,
)
    requires
        carries(received, stream, begun, whole, started),
    ensures
        stream_run(stream, received) == (stream_run(new_stream(), started).0, whole),
{
    lemma_unfinished(begun);
    lemma_unfinished(started);
    stream_run_concat(new_stream(), begun, received);
    stream_run_concat(new_stream(), message_frames(whole), started);
    message_frames_round_trip(whole);
    assert(stream_run(new_stream(), message_frames(whole)) == (new_stream(), whole));
    let more = stream_run(stream, received).1;
    assert(Seq::<MessageView>::empty() + more =~= more);
    assert(whole + Seq::<MessageView>::empty() =~= whole);
}

/// Reading message streams, in whatever order, delivers all whole messages on them: under each id
/// wait those that waited before, followed by those of the streams in the order in which these were
/// read.
pub proof fn streams_deliver_whole_messages(
    streams: Map<u64, StreamView>,
    held: EngineView,
    order: Seq<u64>,
    begun: Map<u64, Seq<u8>>,
    whole: Map<u64, Seq<MessageView>>,
    started: Map<u64, Seq<u8>>,
)
    requires
        forall|i: int|
            0 <= i < order.len() ==> carries(
                held.unread_on(#[trigger] order[i]),
                streams[order[i]],
                begun[order[i]],
                whole[order[i]],
                started[order[i]],
            ),
    ensures
        messages_of(streams, held, order) == order.map_values(
            |id: u64| whole[id],
        ).flatten(),
    decreases order.len(),
{
    let of = |id: u64| whole[id];
    if order.len() > 0 {
        let front = order.drop_last();
        let id = order.last();
        assert(order[order.len() - 1] == id);
        assert forall|i: int| 0 <= i < front.len() implies carries(
            held.unread_on(#[trigger] front[i]),
            streams[front[i]],
            begun[front[i]],
            whole[front[i]],
            started[front[i]],
        ) by {
            assert(front[i] == order[i]);
        }
        streams_deliver_whole_messages(streams, held, front, begun, whole, started);
        whole_messages_are_read(
            held.unread_on(id),
            streams[id],
            begun[id],
            whole[id],
            started[id],
        );
        let parts = order.map_values(of);
        assert(parts.drop_last() =~= front.map_values(of));
        assert(parts.last() == whole[id]);
        parts.lemma_flatten_and_flatten_alt_are_equivalent();
        parts.drop_last().lemma_flatten_and_flatten_alt_are_equivalent();
    } else {
        assert(order.map_values(of) =~= Seq::empty());
    }
}

/// The start of a message completes none.
proof fn lemma_unfinished(bytes: Seq<u8>)
    requires
        unfinished(bytes),
    ensures
        stream_run(new_stream(), bytes).1 == Seq::<MessageView>::empty(),
{
    if bytes.len() > 0 {
        let message = choose|message: MessageView|
            {
                &&& 0 < message.1.len() <= u16::MAX
                &&& bytes.len() < (#[trigger] message_frame(message)).len()
                &&& bytes.is_prefix_of(message_frame(message))
            };
        let frame = message_frame(message);
        let rest = frame.skip(bytes.len() as int);
        assert(frame =~= bytes + rest);
        assert(frame + Seq::<u8>::empty() =~= frame);
        message_round_trip(message, Seq::empty());
        let none = stream_run(new_stream(), Seq::<u8>::empty());
        assert(none == (new_stream(), Seq::<MessageView>::empty()));
        assert(seq![message] + none.1 =~= seq![message]);
        stream_run_concat(new_stream(), bytes, rest);
        let (middle, first) = stream_run(new_stream(), bytes);
        let (last, second) = stream_run(middle, rest);
        assert(first + second == seq![message]);
        assert((first + second).len() == 1);
        if first.len() > 0 {
            assert(second.len() == 0);
            lemma_not_new(middle, rest);
        }
        assert(first =~= Seq::empty());
    }
}

/// A stream of which more has been read, and no message completed with it, is amid a message.
proof fn lemma_not_new(stream: StreamView, data: Seq<u8>)
    requires
        data.len() > 0,
        stream_run(stream, data).1.len() == 0,
    ensures
        stream_run(stream, data).0 != new_stream() || stream.missing() < 0 || stream.missing() == 0
            && !(stream is Message),
    decreases data.len(), stream is Message as int,
{
    let missing = stream.missing();
    if data.len() < missing {
    } else if missing < 0 || missing == 0 && !(stream is Message) {
    } else {
        let (next, first) = stream.completed(data.take(missing));
        let rest = data.skip(missing);
        if !(stream is Message) && rest.len() > 0 {
            lemma_not_new(next, rest);
        }
    }
}

/// The streams that have received a header become message streams of which nothing has been read,
/// and no others. Message streams that were there before are as they were.
pub proof fn headered_streams_are_taken(
    headers: Map<u64, HeaderView>,
    streams: Map<u64, StreamView>,
    header: u16,
    id: u64,
)
    ensures
        ({
            let after = with_new_streams(streams, headered(headers, header));
            let left = headers.remove_keys(headered(headers, header));
            if headers.contains_key(id) && headers[id] == (HeaderView::Received {
                dir: headers[id]->Received_dir,
                header,
            }) {
                &&& after.contains_key(id)
                &&& after[id] == (StreamView::Id { received: Seq::empty() })
                &&& !left.contains_key(id)
            } else {
                &&& after.contains_key(id) <==> streams.contains_key(id)
                &&& streams.contains_key(id) ==> after[id] == streams[id]
                &&& left.contains_key(id) <==> headers.contains_key(id)
                &&& headers.contains_key(id) ==> left[id] == headers[id]
            }
        }),
{
}

/// When reading message streams fails, no stream and no message is lost: a stream that was read has
/// given its whole messages and keeps the start of the next one, any other is as it was, and what was
/// complete waits behind what waited.
pub proof fn failed_reads_lose_nothing(
    held: EngineView,
    before: (Map<u64, StreamView>, BuffersView),
    after: (Map<u64, StreamView>, BuffersView),
    order: Seq<u64>,
    stream: u64,
    begun: Seq<u8>,
    whole: Seq<MessageView>,
    started: Seq<u8>,
    id: u16,
)
    requires
        broken_off(held, before, after, order),
        before.0.contains_key(stream),
        carries(held.unread_on(stream), before.0[stream], begun, whole, started),
    ensures
        after.0.contains_key(stream),
        order.contains(stream) ==> after.0[stream] == stream_run(new_stream(), started).0,
        !order.contains(stream) ==> after.0[stream] == before.0[stream],
        held.over.contains(order.last()) && held.closed.contains(order.last()),
        waiting(after.1, id) == (if before.1.contains_key(id) {
            before.1[id]
        } else {
            Seq::empty()
        }) + messages_of(before.0, held, order).filter(
            |message: MessageView| message.0 == id,
        ).map_values(|message: MessageView| message.1),
{
    whole_messages_are_read(held.unread_on(stream), before.0[stream], begun, whole, started);
    delivered_messages_wait(before.1, messages_of(before.0, held, order), id);
}

} // verus!
