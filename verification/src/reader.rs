//! Reading messages from streams.
//!
//! A message travels as its id, its length and its bytes. Id and length are variable length
//! integers.
use crate::chunk::{as_slice, chunk};
use crate::transport::{ConnectionContext, StreamReadError, StreamRequirements};
use crate::varint::{
    lemma_varint_bytes_len, no_bytes, partial_run, partial_run_concat, partial_run_takes,
    varint_bound, varint_bytes, varint_round_trip, Partial, VarIntDecoder,
};
use bytes::Bytes;
use std::collections::hash_map::Entry;
use std::collections::{HashMap, VecDeque};
use vstd::prelude::*;
use vstd::slice::slice_subrange;

verus! {

broadcast use vstd::std_specs::hash::group_hash_axioms;

/// How far a stream has been read.
pub enum MessageStreamReaderState {
    ReceivingId { decoder: VarIntDecoder },
    ReceivingLength { id: u64, decoder: VarIntDecoder },
    ReceivingMessage { id: u64, length: u64, buffer: Vec<u8> },
}

/// What has been read of the next message of a stream.
pub enum ReaderView {
    Id { partial: Partial },
    Length { id: nat, partial: Partial },
    Message { id: nat, length: nat, received: Seq<u8> },
}

/// A message: its id and its bytes.
pub type MessageView = (nat, Seq<u8>);

impl View for MessageStreamReaderState {
    type V = ReaderView;

    open spec fn view(&self) -> ReaderView {
        match self {
            MessageStreamReaderState::ReceivingId { decoder } => ReaderView::Id {
                partial: decoder@,
            },
            MessageStreamReaderState::ReceivingLength { id, decoder } => ReaderView::Length {
                id: *id as nat,
                partial: decoder@,
            },
            MessageStreamReaderState::ReceivingMessage { id, length, buffer } => {
                ReaderView::Message { id: *id as nat, length: *length as nat, received: buffer@ }
            },
        }
    }
}

impl ReaderView {
    /// No more has been received than belongs to the next message.
    pub open spec fn wf(self) -> bool {
        match self {
            ReaderView::Id { partial } => partial.wf(),
            ReaderView::Length { id, partial } => id < varint_bound() && partial.wf(),
            ReaderView::Message { id, length, received } => id < varint_bound() && length
                < varint_bound() && received.len() <= length,
        }
    }
}

/// A stream of which nothing has been read.
pub open spec fn fresh_reader() -> ReaderView {
    ReaderView::Id { partial: no_bytes() }
}

/// The effect of data on a reader, and the messages that the data completes. A message is complete
/// with its last byte; one that has no bytes is complete when more data comes.
pub open spec fn reader_run(reader: ReaderView, data: Seq<u8>) -> (ReaderView, Seq<MessageView>)
    decreases data.len(), reader is Message as int,
{
    if data.len() == 0 {
        (reader, Seq::empty())
    } else {
        match reader {
            ReaderView::Id { partial } => {
                let (kept, id, taken) = partial_run(partial, data);
                let next = match id {
                    Some(id) => ReaderView::Length { id, partial: no_bytes() },
                    None => ReaderView::Id { partial: kept },
                };
                if 0 < taken <= data.len() {
                    reader_run(next, data.skip(taken as int))
                } else {
                    (next, Seq::empty())
                }
            },
            ReaderView::Length { id, partial } => {
                let (kept, length, taken) = partial_run(partial, data);
                let next = match length {
                    Some(length) => ReaderView::Message { id, length, received: Seq::empty() },
                    None => ReaderView::Length { id, partial: kept },
                };
                if 0 < taken <= data.len() {
                    reader_run(next, data.skip(taken as int))
                } else {
                    (next, Seq::empty())
                }
            },
            ReaderView::Message { id, length, received } => {
                let missing = length - received.len();
                if data.len() < missing {
                    (ReaderView::Message { id, length, received: received + data }, Seq::empty())
                } else {
                    let message = (id, received + data.take(missing));
                    if 0 <= missing {
                        let (last, messages) = reader_run(fresh_reader(), data.skip(missing));
                        (last, seq![message] + messages)
                    } else {
                        (fresh_reader(), seq![message])
                    }
                }
            },
        }
    }
}

/// Messages that wait to be deserialized, by id.
pub type Buffers = HashMap<u64, VecDeque<Vec<u8>>>;

/// The bytes of waiting messages, by id.
pub type BuffersView = Map<u64, Seq<Seq<u8>>>;

/// The bytes of waiting messages.
pub open spec fn queue_view(queue: VecDeque<Vec<u8>>) -> Seq<Seq<u8>> {
    queue@.map_values(|message: Vec<u8>| message@)
}

/// The bytes of waiting messages, by id.
pub open spec fn buffers_view(buffers: Map<u64, VecDeque<Vec<u8>>>) -> BuffersView {
    buffers.map_values(|queue: VecDeque<Vec<u8>>| queue_view(queue))
}

/// The messages that wait under an id.
pub open spec fn waiting(buffers: BuffersView, id: u64) -> Seq<Seq<u8>> {
    if buffers.contains_key(id) {
        buffers[id]
    } else {
        Seq::empty()
    }
}

/// Each message goes to the end of the messages with its id.
pub open spec fn deliver(buffers: BuffersView, messages: Seq<MessageView>) -> BuffersView
    decreases messages.len(),
{
    if messages.len() == 0 {
        buffers
    } else {
        let before = deliver(buffers, messages.drop_last());
        let id = messages.last().0 as u64;
        before.insert(id, waiting(before, id).push(messages.last().1))
    }
}

/// Puts a message at the end of the messages with its id.
fn push_message(buffers: &mut Buffers, id: u64, message: Vec<u8>)
    ensures
        buffers_view(final(buffers)@) == deliver(
            buffers_view(old(buffers)@),
            seq![(id as nat, message@)],
        ),
{
    let ghost before = buffers_view(buffers@);
    let ghost bytes = message@;
    let none: VecDeque<Vec<u8>> = VecDeque::new();
    assert(queue_view(none) =~= Seq::empty());
    let queue = buffers.entry(id).or_insert(none);
    let ghost queued = queue_view(*queue);
    queue.push_back(message);
    proof {
        assert(queue_view(*queue) =~= queued.push(bytes));
        let messages = seq![(id as nat, bytes)];
        assert(messages.drop_last() =~= Seq::empty());
        reveal_with_fuel(deliver, 2);
    }
    assert(buffers_view(buffers@) =~= deliver(before, seq![(id as nat, bytes)]));
}

/// Delivering messages and then more messages is delivering all of them.
pub proof fn lemma_deliver_concat(
    buffers: BuffersView,
    first: Seq<MessageView>,
    second: Seq<MessageView>,
)
    ensures
        deliver(buffers, first + second) == deliver(deliver(buffers, first), second),
    decreases second.len(),
{
    if second.len() == 0 {
        assert(first + second =~= first);
    } else {
        assert((first + second).drop_last() =~= first + second.drop_last());
        lemma_deliver_concat(buffers, first, second.drop_last());
    }
}

impl MessageStreamReaderState {
    /// No more has been received than belongs to the next message.
    pub open spec fn wf(self) -> bool {
        self@.wf()
    }

    /// The state of a stream of which nothing has been read.
    pub fn new() -> (reader: Self)
        ensures
            reader.wf(),
            reader@ == fresh_reader(),
    {
        MessageStreamReaderState::ReceivingId { decoder: VarIntDecoder::default() }
    }

    /// Takes a chunk of the stream, and delivers the messages that it completes.
    pub fn receive(&mut self, data: &Bytes, buffers: &mut Buffers)
        requires
            old(self).wf(),
        ensures
            final(self).wf(),
            final(self)@ == reader_run(old(self)@, chunk(*data)).0,
            buffers_view(final(buffers)@) == deliver(
                buffers_view(old(buffers)@),
                reader_run(old(self)@, chunk(*data)).1,
            ),
    {
        let bytes = as_slice(data);
        let mut used: usize = 0;
        let ghost mut delivered: Seq<MessageView> = Seq::empty();
        proof {
            assert(bytes@.skip(0) =~= bytes@);
            let messages = reader_run(self@, bytes@).1;
            assert(delivered + messages =~= messages);
        }
        while used < bytes.len()
            invariant
                used <= bytes@.len(),
                bytes@ == chunk(*data),
                self.wf(),
                buffers_view(buffers@) == deliver(buffers_view(old(buffers)@), delivered),
                ({
                    let (last, messages) = reader_run(self@, bytes@.skip(used as int));
                    reader_run(old(self)@, bytes@) == (last, delivered + messages)
                }),
            decreases bytes@.len() - used, self@ is Message as int,
        {
            let rest = slice_subrange(bytes, used, bytes.len());
            assert(rest@ =~= bytes@.skip(used as int));
            let ghost before = self@;
            match self {
                MessageStreamReaderState::ReceivingId { decoder } => {
                    proof {
                        partial_run_takes(decoder@, rest@);
                    }
                    let (result, taken) = decoder.push_bytes(rest);
                    assert(rest@.skip(taken as int) =~= bytes@.skip(used + taken));
                    used = used + taken;
                    if let Some(id) = result {
                        *self = MessageStreamReaderState::ReceivingLength {
                            id: id.as_u64(),
                            decoder: VarIntDecoder::default(),
                        };
                    }
                },
                MessageStreamReaderState::ReceivingLength { id, decoder } => {
                    proof {
                        partial_run_takes(decoder@, rest@);
                    }
                    let (result, taken) = decoder.push_bytes(rest);
                    assert(rest@.skip(taken as int) =~= bytes@.skip(used + taken));
                    used = used + taken;
                    if let Some(length) = result {
                        let buffer: Vec<u8> = Vec::new();
                        *self = MessageStreamReaderState::ReceivingMessage {
                            id: *id,
                            length: length.as_u64(),
                            buffer,
                        };
                    }
                },
                MessageStreamReaderState::ReceivingMessage { id, length, buffer } => {
                    let missing: u64 = *length - buffer.len() as u64;
                    if (rest.len() as u64) < missing {
                        let ghost received = buffer@;
                        buffer.extend_from_slice(rest);
                        assert(buffer@ =~= received + rest@);
                        used = bytes.len();
                        assert(bytes@.skip(used as int) =~= Seq::empty());
                    } else {
                        let id: u64 = *id;
                        let taken: usize = missing as usize;
                        let ghost received = buffer@;
                        buffer.extend_from_slice(slice_subrange(rest, 0, taken));
                        let mut message: Vec<u8> = Vec::new();
                        message.append(buffer);
                        *self = MessageStreamReaderState::new();
                        let ghost bytes_of_message = received + rest@.take(taken as int);
                        assert(message@ =~= bytes_of_message);
                        push_message(buffers, id, message);
                        proof {
                            let one = seq![(id as nat, bytes_of_message)];
                            lemma_deliver_concat(buffers_view(old(buffers)@), delivered, one);
                            let (last, messages) = reader_run(
                                fresh_reader(),
                                rest@.skip(taken as int),
                            );
                            assert(delivered + (one + messages) =~= (delivered + one) + messages);
                            delivered = delivered + one;
                            assert(rest@.skip(taken as int) =~= bytes@.skip(used + taken));
                        }
                        used = used + taken;
                    }
                },
            }
        }
        proof {
            assert(delivered + Seq::<MessageView>::empty() =~= delivered);
        }
    }
}

/// Reading `first` and then `second` is reading `first + second`: how a stream is cut into chunks
/// does not matter to the messages that come out, nor to their order.
pub proof fn reader_run_concat(reader: ReaderView, first: Seq<u8>, second: Seq<u8>)
    requires
        reader.wf(),
    ensures
        ({
            let (middle, messages) = reader_run(reader, first);
            let (last, more) = reader_run(middle, second);
            reader_run(reader, first + second) == (last, messages + more)
        }),
{
    lemma_run_concat(reader, first, second);
}

proof fn lemma_run_concat(reader: ReaderView, first: Seq<u8>, second: Seq<u8>)
    requires
        reader matches ReaderView::Message { length, received, .. } ==> received.len() <= length,
    ensures
        ({
            let (middle, messages) = reader_run(reader, first);
            let (last, more) = reader_run(middle, second);
            reader_run(reader, first + second) == (last, messages + more)
        }),
    decreases first.len(), reader is Message as int,
{
    reveal_with_fuel(reader_run, 2);
    let (middle, messages) = reader_run(reader, first);
    let (last, more) = reader_run(middle, second);
    let all = first + second;
    if first.len() == 0 {
        assert(all =~= second);
        assert(messages + more =~= more);
    } else if second.len() == 0 {
        assert(all =~= first);
        assert(messages + more =~= messages);
    } else {
        match reader {
            ReaderView::Id { partial } => {
                let (kept, id, taken) = partial_run(partial, first);
                partial_run_concat(partial, first, second);
                partial_run_takes(partial, first);
                partial_run_takes(kept, second);
                if let Some(id) = id {
                    let next = ReaderView::Length { id, partial: no_bytes() };
                    assert(all.skip(taken as int) =~= first.skip(taken as int) + second);
                    lemma_run_concat(next, first.skip(taken as int), second);
                } else {
                    let taken_next = partial_run(kept, second).2;
                    assert(first.skip(taken as int) =~= Seq::empty());
                    assert(middle == ReaderView::Id { partial: kept });
                    assert(all.skip((first.len() + taken_next) as int) =~= second.skip(
                        taken_next as int,
                    ));
                    assert(messages + more =~= more);
                }
            },
            ReaderView::Length { id, partial } => {
                let (kept, length, taken) = partial_run(partial, first);
                partial_run_concat(partial, first, second);
                partial_run_takes(partial, first);
                partial_run_takes(kept, second);
                if let Some(length) = length {
                    let next = ReaderView::Message { id, length, received: Seq::empty() };
                    assert(all.skip(taken as int) =~= first.skip(taken as int) + second);
                    lemma_run_concat(next, first.skip(taken as int), second);
                } else {
                    let taken_next = partial_run(kept, second).2;
                    assert(first.skip(taken as int) =~= Seq::empty());
                    assert(middle == ReaderView::Length { id, partial: kept });
                    assert(all.skip((first.len() + taken_next) as int) =~= second.skip(
                        taken_next as int,
                    ));
                    assert(messages + more =~= more);
                }
            },
            ReaderView::Message { id, length, received } => {
                let missing = length - received.len();
                if first.len() < missing {
                    assert((received + first) + second =~= received + all);
                    assert(messages + more =~= more);
                    if all.len() >= missing {
                        let left = missing - first.len();
                        assert((received + first) + second.take(left) =~= received + all.take(
                            missing,
                        ));
                        assert(second.skip(left) =~= all.skip(missing));
                    }
                } else {
                    assert(all.take(missing) =~= first.take(missing));
                    assert(all.skip(missing) =~= first.skip(missing) + second);
                    lemma_run_concat(fresh_reader(), first.skip(missing), second);
                    let message = (id, received + first.take(missing));
                    let later = reader_run(fresh_reader(), first.skip(missing)).1;
                    assert(seq![message] + (later + more) =~= (seq![message] + later) + more);
                }
            },
        }
    }
}

/// A message as it travels: its id, its length and its bytes.
pub open spec fn message_frame(message: MessageView) -> Seq<u8> {
    varint_bytes(message.0) + varint_bytes(message.1.len()) + message.1
}

/// Several messages as they travel.
pub open spec fn message_frames(messages: Seq<MessageView>) -> Seq<u8>
    decreases messages.len(),
{
    if messages.len() == 0 {
        Seq::empty()
    } else {
        message_frame(messages[0]) + message_frames(messages.skip(1))
    }
}

/// Id and length of a message fit in 56 bits, so that nothing of their encoding is left behind.
pub open spec fn frameable(message: MessageView) -> bool {
    message.0 < varint_bound() / 2 && message.1.len() < varint_bound() / 2
}

/// A reader gives back the messages that were framed, in their order, and is then ready for the
/// next one. A last message without bytes is given back with the first byte that follows it.
pub proof fn message_frames_round_trip(messages: Seq<MessageView>)
    requires
        forall|i: int| 0 <= i < messages.len() ==> frameable(#[trigger] messages[i]),
    ensures
        reader_run(fresh_reader(), message_frames(messages)) == if messages.len() > 0
            && messages.last().1.len() == 0 {
            (
                ReaderView::Message { id: messages.last().0, length: 0, received: Seq::empty() },
                messages.drop_last(),
            )
        } else {
            (fresh_reader(), messages)
        },
    decreases messages.len(),
{
    if messages.len() > 0 {
        let rest = messages.skip(1);
        assert forall|i: int| 0 <= i < rest.len() implies frameable(#[trigger] rest[i]) by {
            assert(rest[i] == messages[i + 1]);
        }
        message_frames_round_trip(rest);
        message_round_trip(messages[0], message_frames(rest));
        if rest.len() > 0 {
            lemma_varint_bytes_len(rest[0].0);
            assert(rest.last() == messages.last());
            assert(seq![messages[0]] + rest =~= messages);
            assert(seq![messages[0]] + rest.drop_last() =~= messages.drop_last());
        } else {
            assert(seq![messages[0]] + Seq::<MessageView>::empty() =~= messages);
            assert(messages.drop_last() =~= Seq::empty());
        }
    } else {
        assert(messages =~= Seq::empty());
    }
}

/// Whatever part of a stream of framed messages has come, the messages that were read are the first
/// ones that were framed, in their order: none is lost, repeated, changed or made up.
pub proof fn messages_in_order(messages: Seq<MessageView>, received: Seq<u8>)
    requires
        forall|i: int| 0 <= i < messages.len() ==> frameable(#[trigger] messages[i]),
        received.is_prefix_of(message_frames(messages)),
    ensures
        reader_run(fresh_reader(), received).1.is_prefix_of(messages),
{
    let all = message_frames(messages);
    let rest = all.skip(received.len() as int);
    assert(all =~= received + rest);
    lemma_run_concat(fresh_reader(), received, rest);
    message_frames_round_trip(messages);
    let read = reader_run(fresh_reader(), all).1;
    assert(read.is_prefix_of(messages));
    assert(reader_run(fresh_reader(), received).1.is_prefix_of(read));
}

/// Framing one more message appends its frame.
pub proof fn lemma_message_frames_push(messages: Seq<MessageView>, message: MessageView)
    ensures
        message_frames(messages.push(message)) == message_frames(messages) + message_frame(message),
    decreases messages.len(),
{
    if messages.len() == 0 {
        assert(messages.push(message).skip(1) =~= Seq::empty());
        reveal_with_fuel(message_frames, 2);
        assert(message_frames(messages.push(message)) =~= message_frames(messages) + message_frame(
            message,
        ));
    } else {
        assert(messages.push(message).skip(1) =~= messages.skip(1).push(message));
        lemma_message_frames_push(messages.skip(1), message);
        assert(message_frames(messages.push(message)) =~= message_frames(messages) + message_frame(
            message,
        ));
    }
}

/// A reader that starts with a framed message gives it back before what follows.
pub proof fn message_round_trip(message: MessageView, rest: Seq<u8>)
    requires
        frameable(message),
    ensures
        reader_run(fresh_reader(), message_frame(message) + rest) == if message.1.len() == 0
            && rest.len() == 0 {
            (
                ReaderView::Message { id: message.0, length: 0, received: Seq::empty() },
                Seq::empty(),
            )
        } else {
            let (last, more) = reader_run(fresh_reader(), rest);
            (last, seq![message] + more)
        },
{
    let (id, bytes) = message;
    let id_bytes = varint_bytes(id);
    let length_bytes = varint_bytes(bytes.len());
    let data = message_frame(message) + rest;
    let after_id = length_bytes + (bytes + rest);
    lemma_varint_bytes_len(id);
    lemma_varint_bytes_len(bytes.len());
    varint_round_trip(id, after_id);
    varint_round_trip(bytes.len(), bytes + rest);
    assert(data =~= id_bytes + after_id);
    assert(data.skip(id_bytes.len() as int) =~= after_id);
    assert(after_id.skip(length_bytes.len() as int) =~= bytes + rest);
    let with_id = ReaderView::Length { id, partial: no_bytes() };
    let with_length = ReaderView::Message { id, length: bytes.len(), received: Seq::empty() };
    assert(reader_run(fresh_reader(), data) == reader_run(with_id, after_id));
    assert(reader_run(with_id, after_id) == reader_run(with_length, bytes + rest));
    if bytes.len() + rest.len() > 0 {
        assert(Seq::<u8>::empty() + (bytes + rest).take(bytes.len() as int) =~= bytes);
        assert((bytes + rest).skip(bytes.len() as int) =~= rest);
    }
}

/// The streams of a connection that messages are read from, and the messages that have come.
pub struct MessageStreamReaders<S> {
    pub readers: Vec<(S, MessageStreamReaderState)>,
    pub buffers: Buffers,
}

/// The streams that are read, with what has been read of each.
pub open spec fn readers_view<S>(readers: Seq<(S, MessageStreamReaderState)>) -> Seq<
    (S, ReaderView),
> {
    readers.map_values(|reader: (S, MessageStreamReaderState)| (reader.0, reader.1@))
}

/// Readers of streams of which nothing has been read.
pub open spec fn fresh_readers<S>(streams: Seq<(S, StreamRequirements)>) -> Seq<(S, ReaderView)> {
    streams.map_values(|stream: (S, StreamRequirements)| (stream.0, fresh_reader()))
}

/// Whether a connection gets from one state to another by accepting some streams in their order.
pub open spec fn accept_steps<C: ConnectionContext>(
    before: C,
    accepted: Seq<(C::Stream, StreamRequirements)>,
    after: C,
) -> bool
    decreases accepted.len(),
{
    if accepted.len() == 0 {
        after == before
    } else {
        exists|middle: C|
            accept_steps(before, accepted.drop_last(), middle) && #[trigger] C::accepted(
                middle,
                after,
                Some(accepted.last()),
            )
    }
}

/// Whether a connection accepts some streams, and then none.
pub open spec fn last_accepted<C: ConnectionContext>(
    before: C,
    accepted: Seq<(C::Stream, StreamRequirements)>,
    middle: C,
    after: C,
) -> bool {
    accept_steps(before, accepted, middle) && C::accepted(middle, after, None)
}

/// Whether a connection gets from one state to another by accepting streams until there is none,
/// which are some streams in their order.
pub open spec fn all_accepted<C: ConnectionContext>(
    before: C,
    accepted: Seq<(C::Stream, StreamRequirements)>,
    after: C,
) -> bool {
    exists|middle: C| #[trigger] last_accepted(before, accepted, middle, after)
}

/// Whether a connection gets from one state to another by reading some streams in their order.
pub open spec fn reads_made<C: ConnectionContext>(
    before: C,
    streams: Seq<C::Stream>,
    after: C,
) -> bool
    decreases streams.len(),
{
    if streams.len() == 0 {
        after == before
    } else {
        exists|middle: C, data: Result<Result<Bytes, StreamReadError>, C::Error>|
            reads_made(before, streams.drop_last(), middle) && #[trigger] C::was_read(
                middle,
                after,
                streams.last(),
                data,
            )
    }
}

/// Whether a connection gets from one state to another by reading no streams but those of some
/// readers.
pub open spec fn only_reads<C: ConnectionContext>(
    before: C,
    readers: Seq<(C::Stream, ReaderView)>,
    after: C,
) -> bool {
    exists|streams: Seq<C::Stream>| #[trigger]
        reads_made(before, streams, after) && forall|i: int|
            0 <= i < streams.len() ==> reads_stream(
                readers,
                readers.len() as int,
                #[trigger] streams[i],
            )
}

/// Reads after reads are reads.
proof fn lemma_reads_made<C: ConnectionContext>(
    before: C,
    first: Seq<C::Stream>,
    middle: C,
    second: Seq<C::Stream>,
    after: C,
)
    requires
        reads_made(before, first, middle),
        reads_made(middle, second, after),
    ensures
        reads_made(before, first + second, after),
    decreases second.len(),
{
    if second.len() == 0 {
        assert(first + second =~= first);
    } else {
        let (last, data) = choose|last: C, data: Result<Result<Bytes, StreamReadError>, C::Error>|
            reads_made(middle, second.drop_last(), last) && #[trigger] C::was_read(
                last,
                after,
                second.last(),
                data,
            );
        lemma_reads_made(before, first, middle, second.drop_last(), last);
        assert((first + second).drop_last() =~= first + second.drop_last());
        assert(C::was_read(last, after, (first + second).last(), data));
    }
}

/// What the reader at a place gets to read: what its stream has received, unless an earlier reader
/// of the same stream has read that.
pub open spec fn share<C: ConnectionContext>(
    connection: C,
    readers: Seq<(C::Stream, ReaderView)>,
    i: int,
) -> Seq<u8> {
    if reads_stream(readers, i, readers[i].0) {
        Seq::empty()
    } else {
        connection.unread(readers[i].0)
    }
}

/// The first `n` readers after each has read its share.
pub open spec fn readers_after<C: ConnectionContext>(
    connection: C,
    readers: Seq<(C::Stream, ReaderView)>,
    n: nat,
) -> Seq<(C::Stream, ReaderView)>
    decreases n,
{
    if n == 0 {
        Seq::empty()
    } else {
        readers_after(connection, readers, (n - 1) as nat).push(
            (readers[n - 1].0, reader_run(readers[n - 1].1, share(connection, readers, n - 1)).0),
        )
    }
}

/// The messages that the first `n` readers complete when each reads its share.
pub open spec fn messages_after<C: ConnectionContext>(
    connection: C,
    readers: Seq<(C::Stream, ReaderView)>,
    n: nat,
) -> Seq<MessageView>
    decreases n,
{
    if n == 0 {
        Seq::empty()
    } else {
        messages_after(connection, readers, (n - 1) as nat) + reader_run(
            readers[n - 1].1,
            share(connection, readers, n - 1),
        ).1
    }
}

/// Whether one of the first `n` readers reads a stream.
pub open spec fn reads_stream<S>(readers: Seq<(S, ReaderView)>, n: int, stream: S) -> bool {
    exists|j: int| 0 <= j < n && (#[trigger] readers[j]).0 == stream
}

/// What is left when the connection fails while the reader at a place reads: the readers before it
/// have read their share, it has read the first `n` bytes of its own, and the messages that were
/// complete have been delivered.
pub open spec fn broken_off<C: ConnectionContext>(
    connection: C,
    before: (Seq<(C::Stream, ReaderView)>, BuffersView),
    after: (Seq<(C::Stream, ReaderView)>, BuffersView),
    i: int,
    n: int,
) -> bool {
    let (readers, messages) = before;
    let data = share(connection, readers, i);
    let (last, more) = reader_run(readers[i].1, data.take(n));
    &&& 0 <= i < readers.len()
    &&& 0 <= n <= data.len()
    &&& after.0 == readers_after(connection, readers, i as nat).push((readers[i].0, last))
        + readers.skip(i + 1)
    &&& after.1 == deliver(messages, messages_after(connection, readers, i as nat) + more)
}

/// The readers whose streams have not ended.
pub open spec fn open_readers<C: ConnectionContext>(
    connection: C,
    readers: Seq<(C::Stream, ReaderView)>,
) -> Seq<(C::Stream, ReaderView)> {
    readers.filter(|reader: (C::Stream, ReaderView)| !connection.ended(reader.0))
}

/// Reads a stream until it is blocked or closed, and delivers the messages that come out.
/// Returns whether the stream is still open.
fn read_stream<C: ConnectionContext>(
    reader: &mut MessageStreamReaderState,
    stream: &C::Stream,
    connection: &mut C,
    buffers: &mut Buffers,
) -> (open: Result<bool, C::Error>)
    requires
        old(reader).wf(),
        old(connection).wf(),
        old(connection).can_read(*stream),
    ensures
        final(reader).wf(),
        final(connection).wf(),
        exists|streams: Seq<C::Stream>| #[trigger]
            reads_made(*old(connection), streams, *final(connection)) && forall|i: int|
                0 <= i < streams.len() ==> #[trigger] streams[i] == *stream,
        forall|any: C::Stream| #[trigger]
            old(connection).can_read(any) ==> final(connection).can_read(any),
        forall|other: C::Stream|
            other != *stream ==> #[trigger] final(connection).unread(other) == old(
                connection,
            ).unread(other),
        match open {
            Ok(open) => {
                let (last, messages) = reader_run(old(reader)@, old(connection).unread(*stream));
                &&& open == !old(connection).ended(*stream)
                &&& final(connection).unread(*stream) == Seq::<u8>::empty()
                &&& final(reader)@ == last
                &&& buffers_view(final(buffers)@) == deliver(buffers_view(old(buffers)@), messages)
                &&& forall|any: C::Stream| #[trigger]
                    final(connection).ended(any) == old(connection).ended(any)
            },
            Err(_) => exists|n: int| #[trigger]
                interrupted(
                    old(reader)@,
                    buffers_view(old(buffers)@),
                    old(connection).unread(*stream),
                    n,
                    final(reader)@,
                    buffers_view(final(buffers)@),
                ),
        },
{
    let ghost unread = connection.unread(*stream);
    let ghost start = reader@;
    let ghost mut n: int = 0;
    let ghost mut delivered: Seq<MessageView> = Seq::empty();
    let ghost mut made: Seq<C::Stream> = Seq::empty();
    proof {
        assert(unread.skip(0) =~= unread);
        assert(unread.take(0) =~= Seq::empty());
    }
    loop
        invariant
            reader.wf(),
            connection.wf(),
            connection.can_read(*stream),
            start == old(reader)@,
            start.wf(),
            unread == old(connection).unread(*stream),
            0 <= n <= unread.len(),
            connection.unread(*stream) == unread.skip(n),
            forall|any: C::Stream| #[trigger]
                old(connection).can_read(any) ==> connection.can_read(any),
            forall|other: C::Stream|
                other != *stream ==> #[trigger] connection.unread(other) == old(connection).unread(
                    other,
                ),
            forall|any: C::Stream| #[trigger] connection.ended(any) == old(connection).ended(any),
            reader_run(start, unread.take(n)) == (reader@, delivered),
            buffers_view(buffers@) == deliver(buffers_view(old(buffers)@), delivered),
            reads_made(*old(connection), made, *connection),
            forall|i: int| 0 <= i < made.len() ==> #[trigger] made[i] == *stream,
        decreases connection.reads_left(*stream),
    {
        let ghost before_read = *connection;
        let read = connection.read(stream);
        proof {
            let more = made.push(*stream);
            assert(more.drop_last() =~= made);
            assert(C::was_read(before_read, *connection, more.last(), read));
            assert(reads_made(*old(connection), more, *connection));
            made = more;
        }
        match read {
            Err(error) => {
                assert(interrupted(
                    start,
                    buffers_view(old(buffers)@),
                    unread,
                    n,
                    reader@,
                    buffers_view(buffers@),
                ));
                return Err(error);
            },
            Ok(Err(error)) => {
                proof {
                    assert(unread.take(n) =~= unread);
                    assert(connection.unread(*stream) =~= Seq::empty());
                }
                return match error {
                    StreamReadError::Closed => Ok(false),
                    StreamReadError::Blocked => Ok(true),
                };
            },
            Ok(Ok(data)) => {
                let ghost before = reader@;
                reader.receive(&data, buffers);
                proof {
                    let len = chunk(data).len() as int;
                    let messages = reader_run(before, chunk(data)).1;
                    reader_run_concat(start, unread.take(n), chunk(data));
                    assert(unread.take(n + len) =~= unread.take(n) + chunk(data));
                    lemma_deliver_concat(buffers_view(old(buffers)@), delivered, messages);
                    delivered = delivered + messages;
                    assert(unread.skip(n).skip(len) =~= unread.skip(n + len));
                    n = n + len;
                }
            },
        }
    }
}

/// A reader that has read the first `n` bytes of what its stream had received when the connection
/// failed.
pub open spec fn interrupted(
    reader: ReaderView,
    buffers: BuffersView,
    unread: Seq<u8>,
    n: int,
    reader_after: ReaderView,
    buffers_after: BuffersView,
) -> bool {
    let (last, messages) = reader_run(reader, unread.take(n));
    &&& 0 <= n <= unread.len()
    &&& reader_after == last
    &&& buffers_after == deliver(buffers, messages)
}

impl<S> MessageStreamReaders<S> {
    /// Every stream has been read as far as it can be.
    pub open spec fn wf(self) -> bool {
        forall|i: int| 0 <= i < self.readers@.len() ==> (#[trigger] self.readers@[i]).1.wf()
    }

    /// The streams that are read, with what has been read of each.
    pub open spec fn streams(self) -> Seq<(S, ReaderView)> {
        readers_view(self.readers@)
    }

    /// The messages that wait to be deserialized, by id.
    pub open spec fn messages(self) -> BuffersView {
        buffers_view(self.buffers@)
    }

    /// No streams and no messages.
    pub fn new() -> (readers: Self)
        ensures
            readers.wf(),
            readers.streams() == Seq::<(S, ReaderView)>::empty(),
            readers.messages() == Map::<u64, Seq<Seq<u8>>>::empty(),
    {
        let readers = MessageStreamReaders { readers: Vec::new(), buffers: HashMap::new() };
        assert(readers.streams() =~= Seq::empty());
        assert(readers.messages() =~= Map::empty());
        readers
    }

    /// Takes the oldest waiting message that has an id.
    pub fn next_message(&mut self, id: u64) -> (message: Option<Vec<u8>>)
        ensures
            final(self).readers == old(self).readers,
            match message {
                Some(message) => waiting(old(self).messages(), id).len() > 0 && message@ == waiting(
                    old(self).messages(),
                    id,
                )[0] && final(self).messages() == old(self).messages().insert(
                    id,
                    waiting(old(self).messages(), id).skip(1),
                ),
                None => waiting(old(self).messages(), id).len() == 0 && final(self).messages()
                    == old(self).messages(),
            },
    {
        let ghost before = self.messages();
        match self.buffers.entry(id) {
            Entry::Vacant(_) => {},
            Entry::Occupied(entry) => {
                let queue = entry.into_mut();
                let ghost queued = queue_view(*queue);
                if let Some(message) = queue.pop_front() {
                    assert(queue_view(*queue) =~= queued.skip(1));
                    assert(self.messages() =~= before.insert(id, queued.skip(1)));
                    return Some(message);
                }
                assert(queue_view(*queue) =~= queued);
            },
        }
        assert(self.messages() =~= before);
        None
    }

    /// Whether all streams can be read on a connection.
    pub open spec fn reads<C: ConnectionContext<Stream = S>>(self, connection: C) -> bool {
        forall|i: int|
            0 <= i < self.readers@.len() ==> connection.can_read((#[trigger] self.readers@[i]).0)
    }

    /// Accepts all streams that the peer has opened, to read messages from them.
    pub fn accept_streams<C: ConnectionContext<Stream = S>>(&mut self, connection: &mut C)
        requires
            old(self).wf(),
            old(self).reads(*old(connection)),
            old(connection).wf(),
        ensures
            final(self).wf(),
            final(self).reads(*final(connection)),
            final(connection).wf(),
            exists|accepted: Seq<(S, StreamRequirements)>|
                final(self).streams() == old(self).streams() + fresh_readers(accepted)
                    && #[trigger] all_accepted(*old(connection), accepted, *final(connection)),
            final(self).messages() == old(self).messages(),
    {
        let ghost mut accepted: Seq<(S, StreamRequirements)> = Seq::empty();
        proof {
            assert(self.streams() + fresh_readers(accepted) =~= self.streams());
        }
        loop
            invariant
                self.wf(),
                self.reads(*connection),
                connection.wf(),
                self.streams() == old(self).streams() + fresh_readers(accepted),
                self.buffers == old(self).buffers,
                accept_steps(*old(connection), accepted, *connection),
            decreases connection.accepts_left(),
        {
            let ghost before = *self;
            let ghost middle = *connection;
            match connection.accept_stream() {
                None => {
                    assert(last_accepted(*old(connection), accepted, middle, *connection));
                    assert(all_accepted(*old(connection), accepted, *connection));
                    return ;
                },
                Some((stream, requirements)) => {
                    self.readers.push((stream, MessageStreamReaderState::new()));
                    proof {
                        let more = accepted.push((stream, requirements));
                        assert(more.drop_last() =~= accepted);
                        assert(C::accepted(middle, *connection, Some(more.last())));
                        assert(fresh_readers(more) =~= fresh_readers(accepted).push(
                            (stream, fresh_reader()),
                        ));
                        assert(self.streams() =~= before.streams().push((stream, fresh_reader())));
                        assert(self.streams() =~= old(self).streams() + fresh_readers(more));
                        accepted = more;
                    }
                },
            }
        }
    }

    /// Reads every stream until it is blocked or closed, and drops the closed ones.
    ///
    /// A failure of the connection ends it at once: nothing is dropped then, and the messages that
    /// were complete have been delivered.
    #[verifier::spinoff_prover]
    #[verifier::rlimit(60)]
    pub fn read_streams<C: ConnectionContext<Stream = S>>(
        &mut self,
        connection: &mut C,
    ) -> (result: Result<(), C::Error>)
        requires
            old(self).wf(),
            old(self).reads(*old(connection)),
            old(connection).wf(),
        ensures
            final(self).wf(),
            final(self).reads(*final(connection)),
            final(connection).wf(),
            only_reads(*old(connection), old(self).streams(), *final(connection)),
            match result {
                Ok(_) => {
                    let n = old(self).streams().len();
                    &&& final(self).streams() == open_readers(
                        *old(connection),
                        readers_after(*old(connection), old(self).streams(), n),
                    )
                    &&& final(self).messages() == deliver(
                        old(self).messages(),
                        messages_after(*old(connection), old(self).streams(), n),
                    )
                    &&& forall|any: S| #[trigger]
                        final(connection).unread(any) == if reads_stream(
                            old(self).streams(),
                            n as int,
                            any,
                        ) {
                            Seq::empty()
                        } else {
                            old(connection).unread(any)
                        }
                },
                Err(_) => exists|i: int, n: int| #[trigger]
                    broken_off(
                        *old(connection),
                        (old(self).streams(), old(self).messages()),
                        (final(self).streams(), final(self).messages()),
                        i,
                        n,
                    ),
            },
    {
        let ghost readers = self.streams();
        let ghost count = readers.len();
        let mut open: Vec<bool> = Vec::new();
        let mut i: usize = 0;
        let ghost mut made: Seq<S> = Seq::empty();
        proof {
            assert(readers_after(*connection, readers, 0) + readers.skip(0) =~= readers);
        }
        while i < self.readers.len()
            invariant
                self.wf(),
                connection.wf(),
                readers == old(self).streams(),
                i <= self.readers@.len() == readers.len(),
                self.reads(*connection),
                count == readers.len(),
                reads_made(*old(connection), made, *connection),
                forall|j: int|
                    0 <= j < made.len() ==> reads_stream(
                        readers,
                        count as int,
                        #[trigger] made[j],
                    ),
                open@.len() == i,
                forall|j: int|
                    0 <= j < i ==> #[trigger] open@[j] == !old(connection).ended(readers[j].0),
                forall|any: S| #[trigger] connection.ended(any) == old(connection).ended(any),
                forall|any: S| #[trigger]
                    connection.unread(any) == if reads_stream(readers, i as int, any) {
                        Seq::empty()
                    } else {
                        old(connection).unread(any)
                    },
                self.streams() == readers_after(*old(connection), readers, i as nat) + readers.skip(
                    i as int,
                ),
                self.messages() == deliver(
                    old(self).messages(),
                    messages_after(*old(connection), readers, i as nat),
                ),
            decreases readers.len() - i,
        {
            let ghost before = *self;
            let ghost unread = connection.unread(self.readers@[i as int].0);
            proof {
                lemma_readers_after_len(*old(connection), readers, i as nat);
                assert(before.streams()[i as int] == readers[i as int]);
                assert(connection.can_read(self.readers@[i as int].0));
            }
            let ghost before_read = *connection;
            let ghost the_stream = self.readers@[i as int].0;
            let (stream, reader) = &mut self.readers[i];
            let result = read_stream(reader, stream, connection, &mut self.buffers);
            proof {
                let more = choose|more: Seq<S>| #[trigger]
                    reads_made(before_read, more, *connection) && forall|j: int|
                        0 <= j < more.len() ==> #[trigger] more[j] == the_stream;
                lemma_reads_made(*old(connection), made, before_read, more, *connection);
                assert forall|j: int| 0 <= j < (made + more).len() implies reads_stream(
                    readers,
                    count as int,
                    #[trigger] (made + more)[j],
                ) by {
                    if j < made.len() {
                        assert((made + more)[j] == made[j]);
                    } else {
                        assert((made + more)[j] == more[j - made.len()]);
                        assert(readers[i as int].0 == the_stream);
                    }
                }
                made = made + more;
                assert(self.readers@[i as int].0 == before.readers@[i as int].0);
                assert forall|j: int| 0 <= j < self.readers@.len() implies connection.can_read(
                    (#[trigger] self.readers@[j]).0,
                ) by {
                    assert(before.readers@[j].0 == self.readers@[j].0);
                }
                assert forall|j: int| 0 <= j < readers.len() implies (#[trigger] self.streams()[j]).0
                    == readers[j].0 && (j != i ==> self.streams()[j] == before.streams()[j]) by {
                    if j != i {
                        assert(self.readers@[j] == before.readers@[j]);
                        if j > i {
                            assert(before.streams()[j] == readers[j]);
                        } else {
                            assert(before.streams()[j] == readers_after(
                                *old(connection),
                                readers,
                                i as nat,
                            )[j]);
                        }
                    }
                }
            }
            match result {
                Err(error) => {
                    proof {
                        let data = share(*old(connection), readers, i as int);
                        assert(unread == data);
                        let n = choose|n: int| #[trigger]
                            interrupted(
                                before.streams()[i as int].1,
                                before.messages(),
                                unread,
                                n,
                                self.streams()[i as int].1,
                                self.messages(),
                            );
                        let (last, more) = reader_run(readers[i as int].1, data.take(n));
                        lemma_deliver_concat(
                            old(self).messages(),
                            messages_after(*old(connection), readers, i as nat),
                            more,
                        );
                        assert(self.streams() =~= readers_after(
                            *old(connection),
                            readers,
                            i as nat,
                        ).push((readers[i as int].0, last)) + readers.skip(i + 1));
                        assert(broken_off(
                            *old(connection),
                            (readers, old(self).messages()),
                            (self.streams(), self.messages()),
                            i as int,
                            n,
                        ));
                        assert(only_reads(*old(connection), readers, *connection));
                    }
                    return Err(error);
                },
                Ok(still_open) => {
                    open.push(still_open);
                },
            }
            proof {
                let data = share(*old(connection), readers, i as int);
                assert(unread == data);
                let (last, messages) = reader_run(readers[i as int].1, data);
                lemma_deliver_concat(
                    old(self).messages(),
                    messages_after(*old(connection), readers, i as nat),
                    messages,
                );
                lemma_readers_after_len(*old(connection), readers, (i + 1) as nat);
                assert(self.streams() =~= readers_after(*old(connection), readers, (i + 1) as nat)
                    + readers.skip(i + 1));
            }
            i = i + 1;
        }
        proof {
            assert(readers.skip(count as int) =~= Seq::empty());
            lemma_readers_after_len(*old(connection), readers, count);
            assert(self.streams() =~= readers_after(*old(connection), readers, count));
        }
        assert(only_reads(*old(connection), readers, *connection));
        let ghost after = self.streams();
        let ghost still_open = |reader: (S, ReaderView)| !old(connection).ended(reader.0);
        let mut kept: usize = 0;
        let mut seen: usize = 0;
        proof {
            reveal(Seq::filter);
            assert(after.take(0).filter(still_open) =~= Seq::empty());
            assert(after.take(0).filter(still_open) + after.skip(0) =~= after);
        }
        while seen < open.len()
            invariant
                self.wf(),
                self.reads(*connection),
                connection.wf(),
                open@.len() == after.len(),
                seen <= open@.len(),
                still_open == (|reader: (S, ReaderView)| !old(connection).ended(reader.0)),
                forall|j: int| 0 <= j < after.len() ==> #[trigger] open@[j] == still_open(after[j]),
                kept == after.take(seen as int).filter(still_open).len(),
                self.streams() == after.take(seen as int).filter(still_open) + after.skip(
                    seen as int,
                ),
                self.messages() == deliver(
                    old(self).messages(),
                    messages_after(*old(connection), readers, count),
                ),
            decreases open@.len() - seen,
        {
            let ghost before = self.readers@;
            let ghost front = after.take(seen as int).filter(still_open);
            proof {
                reveal(Seq::filter);
                assert(after.take(seen + 1).drop_last() =~= after.take(seen as int));
                assert(after.take(seen + 1).last() == after[seen as int]);
                assert(self.streams().len() == before.len());
            }
            if open[seen] {
                kept = kept + 1;
                assert(front.push(after[seen as int]) + after.skip(seen + 1) =~= front + after.skip(
                    seen as int,
                ));
            } else {
                self.readers.remove(kept);
                assert(self.streams() =~= front + after.skip(seen + 1)) by {
                    assert(self.streams() =~= readers_view(before).remove(kept as int));
                }
            }
            seen = seen + 1;
        }
        proof {
            assert(after.take(seen as int) =~= after);
            assert(after.skip(seen as int) =~= Seq::empty());
            assert(self.streams() =~= open_readers(*old(connection), after));
        }
        Ok(())
    }
}

impl<S> Default for MessageStreamReaders<S> {
    /// No streams and no messages.
    fn default() -> (readers: Self)
        ensures
            readers.wf(),
            readers.streams() == Seq::<(S, ReaderView)>::empty(),
            readers.messages() == Map::<u64, Seq<Seq<u8>>>::empty(),
    {
        MessageStreamReaders::new()
    }
}

/// The bytes of the messages that have an id, in their order.
pub open spec fn bodies(messages: Seq<MessageView>, id: u64) -> Seq<Seq<u8>>
    decreases messages.len(),
{
    if messages.len() == 0 {
        Seq::empty()
    } else if messages.last().0 as u64 == id {
        bodies(messages.drop_last(), id).push(messages.last().1)
    } else {
        bodies(messages.drop_last(), id)
    }
}

/// The messages of several streams, those of the first stream first.
pub open spec fn in_turn(whole: Seq<Seq<MessageView>>) -> Seq<MessageView>
    decreases whole.len(),
{
    if whole.len() == 0 {
        Seq::empty()
    } else {
        in_turn(whole.drop_last()) + whole.last()
    }
}

/// Whether bytes are the start of a message that has bytes, and not all of it.
pub open spec fn unfinished(bytes: Seq<u8>) -> bool {
    bytes.len() == 0 || exists|message: MessageView|
        {
            &&& frameable(message)
            &&& message.1.len() > 0
            &&& bytes.len() < (#[trigger] message_frame(message)).len()
            &&& bytes.is_prefix_of(message_frame(message))
        }
}

/// Whether a stream, of whose next message the reader has read the start, goes on with the rest of
/// that message, more messages, and then the start of another one.
pub open spec fn carries<C: ConnectionContext>(
    connection: C,
    reader: (C::Stream, ReaderView),
    begun: Seq<u8>,
    whole: Seq<MessageView>,
    started: Seq<u8>,
) -> bool {
    &&& unfinished(begun)
    &&& unfinished(started)
    &&& reader.1 == reader_run(fresh_reader(), begun).0
    &&& forall|i: int|
        0 <= i < whole.len() ==> frameable(#[trigger] whole[i]) && whole[i].1.len() > 0
    &&& begun + connection.unread(reader.0) == message_frames(whole) + started
}

/// Reading streams delivers the messages on them that are complete, each once and in their order,
/// whatever chunks they came in, and nothing else. The start of the next message of each stream is
/// kept by its reader, and what comes later is read on from there. Readers stay as long as their
/// streams have not ended.
pub proof fn whole_messages_are_delivered<C: ConnectionContext>(
    connection: C,
    readers: Seq<(C::Stream, ReaderView)>,
    buffers: BuffersView,
    begun: Seq<Seq<u8>>,
    whole: Seq<Seq<MessageView>>,
    started: Seq<Seq<u8>>,
)
    requires
        begun.len() == readers.len(),
        whole.len() == readers.len(),
        started.len() == readers.len(),
        forall|i: int, j: int|
            0 <= i < j < readers.len() ==> (#[trigger] readers[i]).0 != (#[trigger] readers[j]).0,
        forall|i: int|
            0 <= i < readers.len() ==> carries(
                connection,
                #[trigger] readers[i],
                begun[i],
                whole[i],
                started[i],
            ),
    ensures
        messages_after(connection, readers, readers.len()) == in_turn(whole),
        readers_after(connection, readers, readers.len()).len() == readers.len(),
        forall|i: int|
            0 <= i < readers.len() ==> #[trigger] readers_after(
                connection,
                readers,
                readers.len(),
            )[i] == (readers[i].0, reader_run(fresh_reader(), started[i]).0),
        forall|id: u64| #[trigger]
            waiting(deliver(buffers, messages_after(connection, readers, readers.len())), id)
                == waiting(buffers, id) + bodies(in_turn(whole), id),
        (forall|i: int| 0 <= i < readers.len() ==> !connection.ended((#[trigger] readers[i]).0))
            ==> open_readers(connection, readers_after(connection, readers, readers.len()))
            == readers_after(connection, readers, readers.len()),
{
    let n = readers.len();
    let after = readers_after(connection, readers, n);
    lemma_whole_messages(connection, readers, begun, whole, started, n);
    assert(whole.take(n as int) =~= whole);
    assert forall|id: u64| #[trigger]
        waiting(deliver(buffers, messages_after(connection, readers, n)), id) == waiting(
            buffers,
            id,
        ) + bodies(in_turn(whole), id) by {
        lemma_deliver_bodies(buffers, in_turn(whole), id);
    }
    if forall|i: int| 0 <= i < readers.len() ==> !connection.ended((#[trigger] readers[i]).0) {
        let still_open = |reader: (C::Stream, ReaderView)| !connection.ended(reader.0);
        assert forall|i: int| 0 <= i < after.len() implies still_open(#[trigger] after[i]) by {
            assert(after[i].0 == readers[i].0);
        }
        lemma_filter_all(after, still_open);
    }
}

/// The first readers deliver the messages of the first streams.
proof fn lemma_whole_messages<C: ConnectionContext>(
    connection: C,
    readers: Seq<(C::Stream, ReaderView)>,
    begun: Seq<Seq<u8>>,
    whole: Seq<Seq<MessageView>>,
    started: Seq<Seq<u8>>,
    n: nat,
)
    requires
        n <= readers.len(),
        begun.len() == readers.len(),
        whole.len() == readers.len(),
        started.len() == readers.len(),
        forall|i: int, j: int|
            0 <= i < j < readers.len() ==> (#[trigger] readers[i]).0 != (#[trigger] readers[j]).0,
        forall|i: int|
            0 <= i < readers.len() ==> carries(
                connection,
                #[trigger] readers[i],
                begun[i],
                whole[i],
                started[i],
            ),
    ensures
        messages_after(connection, readers, n) == in_turn(whole.take(n as int)),
        readers_after(connection, readers, n).len() == n,
        forall|i: int|
            0 <= i < n ==> #[trigger] readers_after(connection, readers, n)[i] == (
                readers[i].0,
                reader_run(fresh_reader(), started[i]).0,
            ),
    decreases n,
{
    if n > 0 {
        let i = n - 1;
        lemma_whole_messages(connection, readers, begun, whole, started, i as nat);
        assert(whole.take(n as int).drop_last() =~= whole.take(i));
        assert(carries(connection, readers[i], begun[i], whole[i], started[i]));
        assert(!reads_stream(readers, i, readers[i].0));
        let unread = connection.unread(readers[i].0);
        lemma_unfinished(begun[i]);
        lemma_unfinished(started[i]);
        lemma_run_concat(fresh_reader(), begun[i], unread);
        lemma_run_concat(fresh_reader(), message_frames(whole[i]), started[i]);
        message_frames_round_trip(whole[i]);
        assert(reader_run(fresh_reader(), message_frames(whole[i])) == (fresh_reader(), whole[i]));
        let more = reader_run(readers[i].1, unread).1;
        assert(Seq::<MessageView>::empty() + more =~= more);
        assert(whole[i] + Seq::<MessageView>::empty() =~= whole[i]);
    } else {
        assert(whole.take(0) =~= Seq::empty());
    }
}

/// The start of a message completes none.
proof fn lemma_unfinished(bytes: Seq<u8>)
    requires
        unfinished(bytes),
    ensures
        reader_run(fresh_reader(), bytes).1 == Seq::<MessageView>::empty(),
{
    if bytes.len() > 0 {
        let message = choose|message: MessageView|
            {
                &&& frameable(message)
                &&& message.1.len() > 0
                &&& bytes.len() < (#[trigger] message_frame(message)).len()
                &&& bytes.is_prefix_of(message_frame(message))
            };
        let frame = message_frame(message);
        let rest = frame.skip(bytes.len() as int);
        assert(frame =~= bytes + rest);
        assert(frame + Seq::<u8>::empty() =~= frame);
        message_round_trip(message, Seq::empty());
        let none = reader_run(fresh_reader(), Seq::<u8>::empty());
        assert(none == (fresh_reader(), Seq::<MessageView>::empty()));
        assert(seq![message] + none.1 =~= seq![message]);
        lemma_run_concat(fresh_reader(), bytes, rest);
        let (middle, first) = reader_run(fresh_reader(), bytes);
        let (last, second) = reader_run(middle, rest);
        assert(first + second == seq![message]);
        assert((first + second).len() == 1);
        if first.len() > 0 {
            assert(second.len() == 0);
            lemma_not_fresh(middle, rest);
        }
        assert(first =~= Seq::empty());
    }
}

/// A reader that has read more, and completed no message with it, is amid a message.
proof fn lemma_not_fresh(reader: ReaderView, data: Seq<u8>)
    requires
        data.len() > 0,
        reader_run(reader, data).1.len() == 0,
    ensures
        reader_run(reader, data).0 != fresh_reader(),
    decreases data.len(), reader is Message as int,
{
    reveal_with_fuel(reader_run, 2);
    match reader {
        ReaderView::Id { partial } => {
            let (kept, id, taken) = partial_run(partial, data);
            partial_run_takes(partial, data);
            if let Some(id) = id {
                let rest = data.skip(taken as int);
                if rest.len() > 0 {
                    lemma_not_fresh(ReaderView::Length { id, partial: no_bytes() }, rest);
                }
            } else {
                assert(data.skip(taken as int).len() == 0);
            }
        },
        ReaderView::Length { id, partial } => {
            let (kept, length, taken) = partial_run(partial, data);
            partial_run_takes(partial, data);
            if let Some(length) = length {
                let rest = data.skip(taken as int);
                if rest.len() > 0 {
                    lemma_not_fresh(
                        ReaderView::Message { id, length, received: Seq::empty() },
                        rest,
                    );
                }
            } else {
                assert(data.skip(taken as int).len() == 0);
            }
        },
        ReaderView::Message { id, length, received } => {},
    }
}

/// Delivering messages appends those with an id to the messages that wait under it.
proof fn lemma_deliver_bodies(buffers: BuffersView, messages: Seq<MessageView>, id: u64)
    ensures
        waiting(deliver(buffers, messages), id) == waiting(buffers, id) + bodies(messages, id),
    decreases messages.len(),
{
    if messages.len() > 0 {
        lemma_deliver_bodies(buffers, messages.drop_last(), id);
        let before = bodies(messages.drop_last(), id);
        let body = messages.last().1;
        assert((waiting(buffers, id) + before).push(body) =~= waiting(buffers, id) + before.push(
            body,
        ));
    } else {
        assert(waiting(buffers, id) + Seq::<Seq<u8>>::empty() =~= waiting(buffers, id));
    }
}

/// Nothing is left out where all is kept.
proof fn lemma_filter_all<T>(elements: Seq<T>, keep: spec_fn(T) -> bool)
    requires
        forall|i: int| 0 <= i < elements.len() ==> keep(#[trigger] elements[i]),
    ensures
        elements.filter(keep) == elements,
    decreases elements.len(),
{
    reveal(Seq::filter);
    if elements.len() > 0 {
        let front = elements.drop_last();
        assert forall|i: int| 0 <= i < front.len() implies keep(#[trigger] front[i]) by {
            assert(front[i] == elements[i]);
        }
        lemma_filter_all(front, keep);
        assert(front.push(elements.last()) =~= elements);
        assert(keep(elements[elements.len() - 1]));
    } else {
        assert(elements.filter(keep) =~= elements);
    }
}

proof fn lemma_readers_after_len<C: ConnectionContext>(
    connection: C,
    readers: Seq<(C::Stream, ReaderView)>,
    n: nat,
)
    requires
        n <= readers.len(),
    ensures
        readers_after(connection, readers, n).len() == n,
        forall|i: int|
            0 <= i < n ==> (#[trigger] readers_after(connection, readers, n)[i]).0 == readers[i].0,
    decreases n,
{
    if n > 0 {
        lemma_readers_after_len(connection, readers, (n - 1) as nat);
    }
}

/// A message travels as its id, its length and its bytes, where id and length are groups of seven
/// bits.
pub proof fn frames_are_read(message: MessageView)
    ensures
        message_frame(message) == varint_bytes(message.0) + varint_bytes(message.1.len())
            + message.1,
        crate::varint::grouped(varint_bytes(message.0)) == message.0,
        crate::varint::grouped(varint_bytes(message.1.len())) == message.1.len(),
{
    crate::varint::integers_travel_in_groups(message.0);
    crate::varint::integers_travel_in_groups(message.1.len());
}

/// What waits under an id after messages were delivered is what waited before, followed by the
/// bytes of all messages that have the id, in their order.
pub proof fn delivered_messages_wait(buffers: BuffersView, messages: Seq<MessageView>, id: u64)
    ensures
        ({
            let after = deliver(buffers, messages);
            let bodies = messages.filter(
                |message: MessageView| message.0 as u64 == id,
            ).map_values(|message: MessageView| message.1);
            let before = if buffers.contains_key(id) {
                buffers[id]
            } else {
                Seq::empty()
            };
            &&& bodies.len() > 0 ==> after.contains_key(id)
            &&& after.contains_key(id) ==> after[id] == before + bodies
            &&& buffers.contains_key(id) ==> after.contains_key(id)
            &&& waiting(after, id) == before + bodies
        }),
    decreases messages.len(),
{
    reveal(Seq::filter);
    let of_id = |message: MessageView| message.0 as u64 == id;
    let body = |message: MessageView| message.1;
    let before = if buffers.contains_key(id) {
        buffers[id]
    } else {
        Seq::empty()
    };
    if messages.len() == 0 {
        assert(messages.filter(of_id).map_values(body) =~= Seq::empty());
        assert(before + Seq::<Seq<u8>>::empty() =~= before);
    } else {
        let front = messages.drop_last();
        delivered_messages_wait(buffers, front, id);
        let bodies = front.filter(of_id).map_values(body);
        if messages.last().0 as u64 == id {
            assert(messages.filter(of_id).map_values(body) =~= bodies.push(messages.last().1));
            assert((before + bodies).push(messages.last().1) =~= before + bodies.push(
                messages.last().1,
            ));
        } else {
            assert(messages.filter(of_id).map_values(body) =~= bodies);
        }
    }
}

/// Readers of streams that have ended are dropped, and no others: the others stay as they are and in
/// their order.
pub proof fn readers_of_ended_streams_are_dropped<C: ConnectionContext>(
    connection: C,
    readers: Seq<(C::Stream, ReaderView)>,
    reader: (C::Stream, ReaderView),
)
    ensures
        open_readers(connection, readers).contains(reader) <==> readers.contains(reader)
            && !connection.ended(reader.0),
        open_readers(connection, readers).len() <= readers.len(),
        readers.len() > 0 ==> open_readers(connection, readers) == if connection.ended(
            readers.last().0,
        ) {
            open_readers(connection, readers.drop_last())
        } else {
            open_readers(connection, readers.drop_last()).push(readers.last())
        },
    decreases readers.len(),
{
    reveal(Seq::filter);
    if readers.len() > 0 {
        let front = readers.drop_last();
        readers_of_ended_streams_are_dropped(connection, front, reader);
        let open = open_readers(connection, front);
        let all = open_readers(connection, readers);
        if open.contains(reader) {
            assert(all[open.index_of(reader)] == reader);
        }
        if front.contains(reader) {
            assert(readers[front.index_of(reader)] == reader);
        }
        if readers.contains(reader) && reader != readers.last() {
            assert(front[readers.index_of(reader)] == reader);
        }
        if reader == readers.last() {
            assert(readers[readers.len() - 1] == reader);
            if !connection.ended(reader.0) {
                assert(all[all.len() - 1] == reader);
            }
        }
        if all.contains(reader) {
            let place = all.index_of(reader);
            if place < open.len() {
                assert(open[place] == reader);
            }
        }
    }
}

/// Each stream that is accepted gets a reader that has read nothing, in the order of the streams.
pub proof fn accepted_streams_get_readers<S>(streams: Seq<(S, StreamRequirements)>)
    ensures
        fresh_readers(streams).len() == streams.len(),
        forall|i: int|
            0 <= i < streams.len() ==> #[trigger] fresh_readers(streams)[i] == (
                streams[i].0,
                ReaderView::Id { partial: Partial { current: 0, received: 0 } },
            ),
{
}

/// A message without bytes is delivered with the first byte that follows it.
pub proof fn empty_messages_are_delivered(id: nat, rest: Seq<u8>)
    requires
        id < varint_bound() / 2,
        rest.len() > 0,
    ensures
        ({
            let none = Seq::<u8>::empty();
            let (last, messages) = reader_run(fresh_reader(), message_frame((id, none)) + rest);
            let (last_rest, more) = reader_run(fresh_reader(), rest);
            last == last_rest && messages == seq![(id, none)] + more
        }),
{
    message_round_trip((id, Seq::empty()), rest);
}

/// When the connection fails while streams are read, nothing that was read is lost: every stream
/// keeps its reader, in its place. Those before the one that failed have read all that their streams
/// had, that one has read a part, and reads the rest from there as if nothing had happened. Those
/// behind it have read nothing. All messages that were completed wait.
pub proof fn failed_reads_lose_nothing<C: ConnectionContext>(
    connection: C,
    before: (Seq<(C::Stream, ReaderView)>, BuffersView),
    after: (Seq<(C::Stream, ReaderView)>, BuffersView),
    i: int,
    n: int,
)
    requires
        broken_off(connection, before, after, i, n),
        before.0[i].1.wf(),
        forall|j: int, k: int|
            0 <= j < k < before.0.len() ==> (#[trigger] before.0[j]).0 != (
            #[trigger] before.0[k]).0,
    ensures
        ({
            let readers = before.0;
            let left = after.0;
            let data = connection.unread(readers[i].0);
            let (_, completed) = reader_run(readers[i].1, data.take(n));
            let (rest, more) = reader_run(left[i].1, data.skip(n));
            &&& left.len() == readers.len()
            &&& forall|j: int|
                0 <= j < readers.len() ==> (#[trigger] left[j]).0 == readers[j].0
            &&& forall|j: int|
                0 <= j < i ==> (#[trigger] left[j]).1 == reader_run(
                    readers[j].1,
                    connection.unread(readers[j].0),
                ).0
            &&& forall|j: int| i < j < readers.len() ==> #[trigger] left[j] == readers[j]
            &&& reader_run(readers[i].1, data) == (rest, completed + more)
            &&& after.1 == deliver(
                deliver(before.1, messages_after(connection, readers, i as nat)),
                completed,
            )
        }),
{
    let readers = before.0;
    let data = connection.unread(readers[i].0);
    lemma_first_readers(connection, readers, i as nat);
    assert(share(connection, readers, i) == data) by {
        if reads_stream(readers, i, readers[i].0) {
            let j = choose|j: int| 0 <= j < i && (#[trigger] readers[j]).0 == readers[i].0;
            assert(readers[j].0 != readers[i].0);
        }
    }
    reader_run_concat(readers[i].1, data.take(n), data.skip(n));
    assert(data.take(n) + data.skip(n) =~= data);
    lemma_deliver_concat(
        before.1,
        messages_after(connection, readers, i as nat),
        reader_run(readers[i].1, data.take(n)).1,
    );
}

/// The first readers of different streams have read all that their streams had.
proof fn lemma_first_readers<C: ConnectionContext>(
    connection: C,
    readers: Seq<(C::Stream, ReaderView)>,
    n: nat,
)
    requires
        n <= readers.len(),
        forall|j: int, k: int|
            0 <= j < k < readers.len() ==> (#[trigger] readers[j]).0 != (#[trigger] readers[k]).0,
    ensures
        readers_after(connection, readers, n).len() == n,
        forall|j: int|
            0 <= j < n ==> #[trigger] readers_after(connection, readers, n)[j] == (
                readers[j].0,
                reader_run(readers[j].1, connection.unread(readers[j].0)).0,
            ),
    decreases n,
{
    if n > 0 {
        lemma_first_readers(connection, readers, (n - 1) as nat);
        assert(share(connection, readers, n - 1) == connection.unread(readers[n - 1].0)) by {
            if reads_stream(readers, n - 1, readers[n - 1].0) {
                let j = choose|j: int|
                    0 <= j < n - 1 && (#[trigger] readers[j]).0 == readers[n - 1].0;
                assert(readers[j].0 != readers[n - 1].0);
            }
        }
    }
}

/// Each of several readers of different streams reads all that its stream has received, in turn, and
/// the messages come in that turn.
pub proof fn readers_read_in_turn<C: ConnectionContext>(
    connection: C,
    readers: Seq<(C::Stream, ReaderView)>,
    n: nat,
)
    requires
        n <= readers.len(),
        forall|j: int, k: int|
            0 <= j < k < readers.len() ==> (#[trigger] readers[j]).0 != (#[trigger] readers[k]).0,
    ensures
        readers_after(connection, readers, n) == readers.take(n as int).map_values(
            |reader: (C::Stream, ReaderView)|
                (reader.0, reader_run(reader.1, connection.unread(reader.0)).0),
        ),
        messages_after(connection, readers, n) == readers.take(n as int).map_values(
            |reader: (C::Stream, ReaderView)| reader_run(reader.1, connection.unread(reader.0)).1,
        ).flatten(),
    decreases n,
{
    let messages = |reader: (C::Stream, ReaderView)|
        reader_run(reader.1, connection.unread(reader.0)).1;
    lemma_first_readers(connection, readers, n);
    assert(readers_after(connection, readers, n) =~= readers.take(n as int).map_values(
        |reader: (C::Stream, ReaderView)|
            (reader.0, reader_run(reader.1, connection.unread(reader.0)).0),
    ));
    let all = readers.take(n as int).map_values(messages);
    all.lemma_flatten_and_flatten_alt_are_equivalent();
    if n > 0 {
        readers_read_in_turn(connection, readers, (n - 1) as nat);
        let front = readers.take(n - 1).map_values(messages);
        front.lemma_flatten_and_flatten_alt_are_equivalent();
        assert(all.drop_last() =~= front);
        assert(all.last() == messages(readers[n - 1]));
        assert(share(connection, readers, n - 1) == connection.unread(readers[n - 1].0)) by {
            if reads_stream(readers, n - 1, readers[n - 1].0) {
                let j = choose|j: int|
                    0 <= j < n - 1 && (#[trigger] readers[j]).0 == readers[n - 1].0;
                assert(readers[j].0 != readers[n - 1].0);
            }
        }
    }
}

} // verus!
