//! Writing messages to streams.
use crate::chunk::{chunk, chunks, from_vec, joined, lemma_joined_concat};
use crate::keys::keys_of;
use crate::reader::{lemma_message_frames_push, message_frame, message_frames, MessageView};
use crate::transport::{ConnectionContext, StreamRequirements};
use crate::varint::{varint_bound, VarInt};
use bytes::Bytes;
use std::collections::hash_map::Entry;
use std::collections::{HashMap, VecDeque};
use vstd::prelude::*;

verus! {

broadcast use vstd::std_specs::hash::group_hash_axioms;

/// Reasons why a message could not be written.
#[derive(Debug, PartialEq, Eq)]
pub enum MessageWriteError<E> {
    /// The connection failed.
    Connection(E),
    /// The message id is too big for a variable length integer.
    IdTooBig,
    /// The message length is too big for a variable length integer.
    LengthTooBig,
}

/// A state machine for a stream that sends messages.
pub struct MessageStreamState<S> {
    pub stream: S,
    /// Each chunk of data must be sent entirely.
    /// This is why they are kept separately.
    pub buffer: VecDeque<Bytes>,
}

/// The chunks that are left when the first `n`, and then `k` bytes, have gone.
pub open spec fn chunks_after(queue: Seq<Seq<u8>>, n: int, k: int) -> Seq<Seq<u8>> {
    if 0 <= n < queue.len() {
        queue.skip(n).update(0, queue[n].skip(k))
    } else {
        Seq::empty()
    }
}

/// Whether a connection gets from one state to another by taking over the first `n` of some chunks
/// on a stream, one after the other.
pub open spec fn chunks_taken<C: ConnectionContext>(
    stream: C::Stream,
    queue: Seq<Seq<u8>>,
    n: nat,
    before: C,
    after: C,
) -> bool
    decreases n,
{
    if n == 0 {
        after == before
    } else {
        exists|middle: C|
            chunks_taken(stream, queue, (n - 1) as nat, before, middle) && #[trigger] C::wrote(
                middle,
                after,
                stream,
                queue[n - 1],
                true,
                Ok(queue[n - 1].len() as usize),
            )
    }
}

/// What is left when a connection has taken over the first `n` chunks, and of the next one only a
/// part, or fails there.
pub open spec fn stopped_at<C: ConnectionContext>(
    before: (MessageStreamState<C::Stream>, C),
    after: (MessageStreamState<C::Stream>, C),
    n: nat,
    middle: C,
    written: Result<usize, C::Error>,
) -> bool {
    let queue = chunks(before.0.buffer@);
    let count = match written {
        Ok(count) => count as int,
        Err(_) => 0,
    };
    &&& n < queue.len()
    &&& written is Ok ==> count < queue[n as int].len()
    &&& chunks_taken(before.0.stream, queue, n, before.1, middle)
    &&& C::wrote(middle, after.1, before.0.stream, queue[n as int], true, written)
    &&& chunks(after.0.buffer@) == chunks_after(queue, n as int, count)
}

/// What writing all that is pending does, by its outcome: chunks are taken over in their order,
/// until one is not taken over as a whole.
pub open spec fn flush_effect<C: ConnectionContext>(
    before: (MessageStreamState<C::Stream>, C),
    after: (MessageStreamState<C::Stream>, C),
    all: Result<bool, C::Error>,
) -> bool {
    let queue = chunks(before.0.buffer@);
    &&& after.0.stream == before.0.stream
    &&& match all {
        Ok(true) => after.0.buffer@.len() == 0 && chunks_taken(
            before.0.stream,
            queue,
            queue.len(),
            before.1,
            after.1,
        ),
        Ok(false) => exists|n: nat, middle: C, count: usize| #[trigger]
            stopped_at(before, after, n, middle, Ok(count)),
        Err(_) => exists|n: nat, middle: C| #[trigger] failed_at(before, after, n, middle, all),
    }
}

/// What is left when a connection has taken over the first `n` chunks, and fails on the next one.
pub open spec fn failed_at<C: ConnectionContext>(
    before: (MessageStreamState<C::Stream>, C),
    after: (MessageStreamState<C::Stream>, C),
    n: nat,
    middle: C,
    all: Result<bool, C::Error>,
) -> bool {
    all is Err && stopped_at(before, after, n, middle, Err(all->Err_0))
}

/// Frames a message: its id, its length and its bytes.
pub fn frame_message<E>(id: u64, message: &[u8]) -> (framed: Result<Bytes, MessageWriteError<E>>)
    ensures
        match framed {
            Ok(framed) => id < varint_bound() && message@.len() < varint_bound() && chunk(framed)
                == message_frame((id as nat, message@)),
            Err(MessageWriteError::IdTooBig) => id >= varint_bound(),
            Err(MessageWriteError::LengthTooBig) => id < varint_bound() && message@.len()
                >= varint_bound(),
            Err(MessageWriteError::Connection(_)) => false,
        },
{
    let mut buffer: Vec<u8> = Vec::new();
    match VarInt::from_u64(id) {
        None => {
            return Err(MessageWriteError::IdTooBig);
        },
        Some(id) => id.encode(&mut buffer),
    }
    match VarInt::from_u64(message.len() as u64) {
        None => {
            return Err(MessageWriteError::LengthTooBig);
        },
        Some(length) => length.encode(&mut buffer),
    }
    buffer.extend_from_slice(message);
    assert(buffer@ =~= message_frame((id as nat, message@)));
    Ok(from_vec(buffer))
}

impl<S> MessageStreamState<S> {
    /// What has been framed and not been taken over by the connection.
    pub open spec fn pending(self) -> Seq<u8> {
        joined(chunks(self.buffer@))
    }

    /// What has been written on the stream in all: what the connection has taken over, and what
    /// is pending.
    pub open spec fn written<C: ConnectionContext<Stream = S>>(self, connection: C) -> Seq<u8> {
        connection.sent(self.stream) + self.pending()
    }

    /// Opens a stream that meets the requirements to send messages on.
    pub fn new<C: ConnectionContext<Stream = S>>(
        connection: &mut C,
        requirements: StreamRequirements,
    ) -> (state: Result<Self, C::Error>)
        requires
            old(connection).wf(),
            old(connection).can_open(requirements),
        ensures
            final(connection).wf(),
            C::opened(
                *old(connection),
                *final(connection),
                requirements,
                match state {
                    Ok(state) => Ok(state.stream),
                    Err(error) => Err(error),
                },
            ),
            state matches Ok(state) ==> state.buffer@ == Seq::<Bytes>::empty() && final(
                connection).can_write(state.stream),
            forall|any: S| #[trigger]
                old(connection).can_write(any) ==> final(connection).can_write(any) && final(
                    connection).sent(any) == old(connection).sent(any),
    {
        match connection.new_stream(requirements) {
            Ok(stream) => Ok(MessageStreamState { stream, buffer: VecDeque::new() }),
            Err(error) => Err(error),
        }
    }

    /// Drops what the connection has taken over of the first chunk. Returns whether that was all
    /// of it.
    pub fn front_written(&mut self, written: usize) -> (whole: bool)
        requires
            old(self).buffer@.len() > 0,
            written <= chunk(old(self).buffer@[0]).len(),
        ensures
            final(self).stream == old(self).stream,
            whole == (written == chunk(old(self).buffer@[0]).len()),
            whole ==> final(self).buffer@ == old(self).buffer@.skip(1),
            !whole ==> chunks(final(self).buffer@) == chunks(old(self).buffer@).update(
                0,
                chunk(old(self).buffer@[0]).skip(written as int),
            ),
    {
        match self.buffer.pop_front() {
            None => true,
            Some(message) => {
                let mut message = message;
                message.split_to(written);
                assert(self.buffer@ =~= old(self).buffer@.skip(1));
                if message.is_empty() {
                    true
                } else {
                    self.buffer.push_front(message);
                    assert(chunks(self.buffer@) =~= chunks(old(self).buffer@).update(
                        0,
                        chunk(old(self).buffer@[0]).skip(written as int),
                    ));
                    false
                }
            },
        }
    }

    /// Writes as much data as possible, returns `true` if all data was written.
    ///
    /// Nothing is lost, repeated or reordered, whatever the connection takes over.
    pub fn flush<C: ConnectionContext<Stream = S>>(&mut self, connection: &mut C) -> (all: Result<
        bool,
        C::Error,
    >)
        requires
            old(connection).wf(),
            old(connection).can_write(old(self).stream),
        ensures
            final(connection).wf(),
            final(connection).can_write(old(self).stream),
            final(self).stream == old(self).stream,
            final(self).written(*final(connection)) == old(self).written(*old(connection)),
            flush_effect((*old(self), *old(connection)), (*final(self), *final(connection)), all),
            forall|other: S|
                other != old(self).stream ==> #[trigger] final(connection).sent(other) == old(
                    connection,
                ).sent(other),
            all matches Ok(all) ==> all == (final(self).buffer@.len() == 0),
            old(self).buffer@.len() == 0 ==> all == Ok::<bool, C::Error>(true) && *final(connection)
                == *old(connection),
    {
        let ghost queue = chunks(self.buffer@);
        let ghost mut n: int = 0;
        proof {
            assert(queue.skip(0) =~= queue);
        }
        while self.buffer.len() > 0
            invariant
                connection.wf(),
                connection.can_write(self.stream),
                self.stream == old(self).stream,
                queue == chunks(old(self).buffer@),
                0 <= n <= queue.len(),
                chunks(self.buffer@) == queue.skip(n),
                self.written(*connection) == old(self).written(*old(connection)),
                forall|other: S|
                    other != self.stream ==> #[trigger] connection.sent(other) == old(
                        connection,
                    ).sent(other),
                n == 0 ==> *connection == *old(connection),
                chunks_taken(self.stream, queue, n as nat, *old(connection), *connection),
            decreases queue.len() - n,
        {
            let ghost before = *self;
            let ghost middle = *connection;
            let ghost sent = connection.sent(self.stream);
            let ghost front = chunk(self.buffer@[0]);
            let message = self.buffer[0].clone();
            proof {
                assert(chunks(self.buffer@)[0] == front);
                assert(queue[n] == front);
                let first = seq![front];
                assert(queue.skip(n) =~= first + queue.skip(n + 1));
                lemma_joined_concat(first, queue.skip(n + 1));
                assert(first.drop_last() =~= Seq::empty());
                assert(joined(first) =~= front) by {
                    reveal_with_fuel(joined, 2);
                }
            }
            match connection.write(&self.stream, message, true) {
                Err(error) => {
                    proof {
                        assert(queue[n].skip(0) =~= queue[n]);
                        assert(chunks_after(queue, n, 0) =~= queue.skip(n));
                        assert(failed_at(
                            (*old(self), *old(connection)),
                            (*self, *connection),
                            n as nat,
                            middle,
                            Err(error),
                        ));
                    }
                    return Err(error);
                },
                Ok(written) => {
                    let whole = self.front_written(written);
                    if whole {
                        proof {
                            assert(front.take(written as int) =~= front);
                            assert(chunks(self.buffer@) =~= chunks(before.buffer@).skip(1));
                            assert(queue.skip(n).skip(1) =~= queue.skip(n + 1));
                            assert(sent + (front + joined(queue.skip(n + 1))) =~= sent + front
                                + joined(queue.skip(n + 1)));
                            assert(written == queue[n].len() as usize);
                            n = n + 1;
                            assert(C::wrote(
                                middle,
                                *connection,
                                self.stream,
                                queue[n - 1],
                                true,
                                Ok(queue[n - 1].len() as usize),
                            ));
                        }
                    } else {
                        proof {
                            let left = seq![front.skip(written as int)];
                            assert(chunks(self.buffer@) =~= left + queue.skip(n + 1));
                            assert(chunks(self.buffer@) =~= chunks_after(queue, n, written as int));
                            lemma_joined_concat(left, queue.skip(n + 1));
                            assert(left.drop_last() =~= Seq::empty());
                            assert(joined(left) =~= front.skip(written as int)) by {
                                reveal_with_fuel(joined, 2);
                            }
                            assert(self.written(*connection) =~= sent + front + joined(
                                queue.skip(n + 1),
                            ));
                            assert(sent + (front + joined(queue.skip(n + 1))) =~= sent + front
                                + joined(queue.skip(n + 1)));
                            assert(stopped_at(
                                (*old(self), *old(connection)),
                                (*self, *connection),
                                n as nat,
                                middle,
                                Ok(written),
                            ));
                        }
                        return Ok(false);
                    }
                },
            }
        }
        proof {
            assert(chunks(self.buffer@) =~= Seq::empty());
            assert(chunks(self.buffer@) == chunks_after(queue, queue.len() as int, 0));
        }
        Ok(true)
    }
}

/// What a write does once it has written what was pending: unless that failed, or something is
/// pending still and the message must not be queued, the message is framed, queued, and written as
/// far as it can be.
pub open spec fn write_rest<C: ConnectionContext>(
    before: (MessageStreamState<C::Stream>, C),
    after: (MessageStreamState<C::Stream>, C),
    first: Result<bool, C::Error>,
    message: MessageView,
    queue: bool,
    outcome: Result<bool, MessageWriteError<C::Error>>,
) -> bool {
    match first {
        Err(error) => outcome == Err::<bool, MessageWriteError<C::Error>>(
            MessageWriteError::Connection(error),
        ) && after == before,
        Ok(all) => if !queue && !all {
            outcome == Ok::<bool, MessageWriteError<C::Error>>(false) && after == before
        } else if message.0 >= varint_bound() {
            outcome == Err::<bool, MessageWriteError<C::Error>>(MessageWriteError::IdTooBig)
                && after == before
        } else if message.1.len() >= varint_bound() {
            outcome == Err::<bool, MessageWriteError<C::Error>>(MessageWriteError::LengthTooBig)
                && after == before
        } else {
            exists|queued: (MessageStreamState<C::Stream>, C), last: Result<bool, C::Error>| #[trigger]
                flush_effect(queued, after, last) && queued.1 == before.1 && queued.0.stream
                    == before.0.stream && chunks(queued.0.buffer@) == chunks(before.0.buffer@).push(
                    message_frame(message),
                ) && outcome == match last {
                    Ok(_) => Ok::<bool, MessageWriteError<C::Error>>(true),
                    Err(error) => Err(MessageWriteError::Connection(error)),
                }
        },
    }
}

/// What a write does to a stream and its connection, by its outcome.
pub open spec fn write_effect<C: ConnectionContext>(
    before: (MessageStreamState<C::Stream>, C),
    after: (MessageStreamState<C::Stream>, C),
    message: MessageView,
    queue: bool,
    outcome: Result<bool, MessageWriteError<C::Error>>,
) -> bool {
    let written_before = before.0.written(before.1);
    let written_after = after.0.written(after.1);
    &&& exists|middle: (MessageStreamState<C::Stream>, C), first: Result<bool, C::Error>| #[trigger]
        flush_effect(before, middle, first) && write_rest(
            middle,
            after,
            first,
            message,
            queue,
            outcome,
        )
    &&& after.0.stream == before.0.stream
    &&& forall|other: C::Stream|
        other != before.0.stream ==> #[trigger] after.1.sent(other) == before.1.sent(other)
    &&& match outcome {
        Ok(true) => written_after == written_before + message_frame(message) && after.0.buffer@.len()
            <= before.0.buffer@.len() + 1 && message.0 < varint_bound() && message.1.len()
            < varint_bound(),
        Ok(false) => written_after == written_before && !queue && 0 < after.0.buffer@.len()
            <= before.0.buffer@.len(),
        Err(MessageWriteError::IdTooBig) => written_after == written_before && message.0
            >= varint_bound(),
        Err(MessageWriteError::LengthTooBig) => written_after == written_before && message.0
            < varint_bound() && message.1.len() >= varint_bound(),
        Err(MessageWriteError::Connection(_)) => written_after == written_before || written_after
            == written_before + message_frame(message),
    }
}

impl<S> MessageStreamState<S> {
    /// Writes a message, or queues it where the connection is congested.
    ///
    /// Unless `queue` is set, a message is only written if nothing is pending. Returns whether it
    /// was written or queued.
    pub fn write<C: ConnectionContext<Stream = S>>(
        &mut self,
        connection: &mut C,
        message_id: u64,
        queue: bool,
        message: &[u8],
    ) -> (outcome: Result<bool, MessageWriteError<C::Error>>)
        requires
            old(connection).wf(),
            old(connection).can_write(old(self).stream),
        ensures
            final(connection).wf(),
            final(connection).can_write(old(self).stream),
            write_effect(
                (*old(self), *old(connection)),
                (*final(self), *final(connection)),
                (message_id as nat, message@),
                queue,
                outcome,
            ),
            old(self).buffer@.len() == 0 && message_id < varint_bound() && message@.len()
                < varint_bound() ==> match outcome {
                Ok(written) => written,
                Err(error) => error is Connection,
            },
    {
        let first = self.flush(connection);
        let ghost middle = (*self, *connection);
        assert(flush_effect((*old(self), *old(connection)), middle, first));
        let buffer_empty = match first {
            Err(error) => {
                return Err(MessageWriteError::Connection(error));
            },
            Ok(all) => all,
        };
        if !(queue || buffer_empty) {
            return Ok(false);
        }
        let framed = match frame_message(message_id, message) {
            Err(error) => {
                return Err(error);
            },
            Ok(framed) => framed,
        };
        let ghost before = *self;
        self.buffer.push_back(framed);
        proof {
            let frame = message_frame((message_id as nat, message@));
            assert(chunks(self.buffer@) =~= chunks(before.buffer@) + seq![frame]);
            lemma_joined_concat(chunks(before.buffer@), seq![frame]);
            assert(seq![frame].drop_last() =~= Seq::empty());
            assert(joined(seq![frame]) =~= frame) by {
                reveal_with_fuel(joined, 2);
            }
            assert(self.written(*connection) =~= before.written(*connection) + frame);
            assert(chunks(self.buffer@) =~= chunks(before.buffer@).push(frame));
        }
        let ghost queued = (*self, *connection);
        let last = self.flush(connection);
        assert(flush_effect(queued, (*self, *connection), last));
        match last {
            Err(error) => Err(MessageWriteError::Connection(error)),
            Ok(_) => Ok(true),
        }
    }

    /// Closes the stream.
    pub fn close<C: ConnectionContext<Stream = S>>(
        &mut self,
        connection: &mut C,
        graceful: bool,
    ) -> (closed: Result<(), C::Error>)
        requires
            old(connection).wf(),
            old(connection).can_write(old(self).stream),
        ensures
            final(connection).wf(),
            *final(self) == *old(self),
            C::send_closed(
                *old(connection),
                *final(connection),
                old(self).stream,
                graceful,
                closed,
            ),
            forall|any: S| #[trigger] final(connection).sent(any) == old(connection).sent(any),
    {
        connection.close_send_stream(&self.stream, graceful)
    }
}

/// The messages that were written on a stream are on it in their order: if a stream carries some
/// messages, it carries one more after a write that succeeded.
pub proof fn written_messages<C: ConnectionContext>(
    before: (MessageStreamState<C::Stream>, C),
    after: (MessageStreamState<C::Stream>, C),
    messages: Seq<MessageView>,
    message: MessageView,
    queue: bool,
)
    requires
        before.0.written(before.1) == message_frames(messages),
        write_effect(
            before,
            after,
            message,
            queue,
            Ok::<bool, MessageWriteError<C::Error>>(true),
        ),
    ensures
        after.0.written(after.1) == message_frames(messages.push(message)),
{
    lemma_message_frames_push(messages, message);
}

/// A stream for each connection that messages have been written to.
pub struct MessageSenderState<S> {
    pub streams: HashMap<u64, MessageStreamState<S>>,
}

impl<S> Default for MessageSenderState<S> {
    /// No streams.
    fn default() -> (sender: Self)
        ensures
            sender.streams@ == Map::<u64, MessageStreamState<S>>::empty(),
    {
        MessageSenderState { streams: HashMap::new() }
    }
}

impl<S> MessageSenderState<S> {
    /// The number of chunks that wait for a connection.
    pub open spec fn queued(self, connection_entity: u64) -> nat {
        if self.streams@.contains_key(connection_entity) {
            self.streams@[connection_entity].buffer@.len()
        } else {
            0
        }
    }

    /// Whether the stream of a connection, if it has one, can be written on it.
    pub open spec fn writes<C: ConnectionContext<Stream = S>>(
        self,
        connection_entity: u64,
        connection: C,
    ) -> bool {
        self.streams@.contains_key(connection_entity) ==> connection.can_write(
            self.streams@[connection_entity].stream,
        )
    }

    /// The connections that have a stream.
    pub fn connections(&self) -> (entities: Vec<u64>)
        ensures
            entities@.no_duplicates(),
            entities@.to_set() == self.streams@.dom(),
    {
        keys_of(&self.streams)
    }

    /// Returns the number of buffered messages for a connection.
    pub fn queue_size(&self, connection_entity: u64) -> (size: usize)
        ensures
            size == self.queued(connection_entity),
    {
        match self.streams.get(&connection_entity) {
            Some(stream) => stream.buffer.len(),
            None => 0,
        }
    }

    /// Writes a message on the stream of a connection, which is opened if there is none.
    ///
    /// If `queue` is true the message will be queued to send even if the stream is congested.
    pub fn write<C: ConnectionContext<Stream = S>>(
        &mut self,
        connection_entity: u64,
        connection: &mut C,
        requirements: StreamRequirements,
        message_id: u64,
        queue: bool,
        message: &[u8],
    ) -> (outcome: Result<bool, MessageWriteError<C::Error>>)
        requires
            old(connection).wf(),
            old(self).writes(connection_entity, *old(connection)),
            old(self).streams@.contains_key(connection_entity) || old(connection).can_open(
                requirements,
            ),
        ensures
            final(connection).wf(),
            final(self).writes(connection_entity, *final(connection)),
            final(self).streams@.remove(connection_entity) == old(self).streams@.remove(
                connection_entity,
            ),
            old(self).streams@.contains_key(connection_entity) ==> {
                &&& final(self).streams@.contains_key(connection_entity)
                &&& write_effect(
                    (old(self).streams@[connection_entity], *old(connection)),
                    (final(self).streams@[connection_entity], *final(connection)),
                    (message_id as nat, message@),
                    queue,
                    outcome,
                )
            },
            !old(self).streams@.contains_key(connection_entity) && final(self).streams@.contains_key(
                connection_entity,
            ) ==> exists|opened: MessageStreamState<S>, with_stream: C|
                C::opened(*old(connection), with_stream, requirements, Ok(opened.stream))
                    && opened.buffer@.len() == 0 && #[trigger] write_effect(
                    (opened, with_stream),
                    (final(self).streams@[connection_entity], *final(connection)),
                    (message_id as nat, message@),
                    queue,
                    outcome,
                ),
            !final(self).streams@.contains_key(connection_entity) ==> {
                &&& outcome is Err
                &&& outcome->Err_0 is Connection
                &&& C::opened(
                    *old(connection),
                    *final(connection),
                    requirements,
                    Err(outcome->Err_0->Connection_0),
                )
                &&& forall|any: S| #[trigger]
                    old(connection).can_write(any) ==> final(connection).sent(any) == old(
                        connection,
                    ).sent(any)
            },
    {
        let ghost before = self.streams@;
        let stream = match self.streams.entry(connection_entity) {
            Entry::Occupied(entry) => entry.into_mut(),
            Entry::Vacant(entry) => match MessageStreamState::new(connection, requirements) {
                Err(error) => {
                    assert(self.streams@ =~= before);
                    return Err(MessageWriteError::Connection(error));
                },
                Ok(state) => entry.insert(state),
            },
        };
        let ghost opened = *stream;
        let ghost middle = *connection;
        let outcome = stream.write(connection, message_id, queue, message);
        proof {
            assert(self.streams@.remove(connection_entity) =~= before.remove(connection_entity));
            assert(write_effect(
                (opened, middle),
                (self.streams@[connection_entity], *connection),
                (message_id as nat, message@),
                queue,
                outcome,
            ));
        }
        outcome
    }

    /// Attempts to flush any partially written messages of a connection.
    pub fn flush<C: ConnectionContext<Stream = S>>(
        &mut self,
        connection_entity: u64,
        connection: &mut C,
    ) -> (flushed: Result<(), C::Error>)
        requires
            old(connection).wf(),
            old(self).writes(connection_entity, *old(connection)),
        ensures
            final(connection).wf(),
            final(self).writes(connection_entity, *final(connection)),
            final(self).streams@.dom() == old(self).streams@.dom(),
            final(self).streams@.remove(connection_entity) == old(self).streams@.remove(
                connection_entity,
            ),
            old(self).streams@.contains_key(connection_entity) ==> {
                let before = old(self).streams@[connection_entity];
                let after = final(self).streams@[connection_entity];
                &&& after.stream == before.stream
                &&& after.written(*final(connection)) == before.written(*old(connection))
                &&& exists|all: Result<bool, C::Error>| #[trigger]
                    flush_effect((before, *old(connection)), (after, *final(connection)), all)
                        && flushed == match all {
                        Ok(_) => Ok::<(), C::Error>(()),
                        Err(error) => Err(error),
                    }
            },
            !old(self).streams@.contains_key(connection_entity) ==> flushed is Ok && *final(
                connection) == *old(connection),
    {
        let ghost before = self.streams@;
        let result = match self.streams.entry(connection_entity) {
            Entry::Vacant(_) => Ok(()),
            Entry::Occupied(entry) => {
                let stream = entry.into_mut();
                let ghost start = *stream;
                let all = stream.flush(connection);
                assert(flush_effect((start, *old(connection)), (*stream, *connection), all));
                match all {
                    Ok(_) => Ok(()),
                    Err(error) => Err(error),
                }
            },
        };
        assert(self.streams@.remove(connection_entity) =~= before.remove(connection_entity));
        assert(self.streams@.dom() =~= before.dom());
        result
    }

    /// Drops the stream of a connection, with any queued messages.
    pub fn forget(&mut self, connection_entity: u64)
        ensures
            final(self).streams@ == old(self).streams@.remove(connection_entity),
    {
        self.streams.remove(&connection_entity);
    }

    /// Closes the stream of a connection gracefully if it does not have queued data. Returns
    /// whether the stream is to be dropped.
    pub fn close_unused_stream<C: ConnectionContext<Stream = S>>(
        &mut self,
        connection_entity: u64,
        connection: &mut C,
    ) -> (closed: Result<bool, C::Error>)
        requires
            old(connection).wf(),
            old(self).writes(connection_entity, *old(connection)),
        ensures
            final(connection).wf(),
            final(self).streams@ == old(self).streams@,
            match closed {
                Ok(closed) => closed == (old(self).streams@.contains_key(connection_entity) && old(
                    self,
                ).queued(connection_entity) == 0),
                Err(_) => old(self).streams@.contains_key(connection_entity) && old(self).queued(
                    connection_entity,
                ) == 0,
            },
            closed == Ok::<bool, C::Error>(false) ==> *final(connection) == *old(connection),
            closed != Ok::<bool, C::Error>(false) ==> C::send_closed(
                *old(connection),
                *final(connection),
                old(self).streams@[connection_entity].stream,
                true,
                match closed {
                    Ok(_) => Ok(()),
                    Err(error) => Err(error),
                },
            ),
    {
        let ghost before = self.streams@;
        let closed = match self.streams.entry(connection_entity) {
            Entry::Vacant(_) => Ok(false),
            Entry::Occupied(entry) => {
                let stream = entry.into_mut();
                if stream.buffer.len() > 0 {
                    Ok(false)
                } else {
                    match stream.close(connection, true) {
                        Ok(done) => {
                            assert(done == ());
                            Ok(true)
                        },
                        Err(error) => Err(error),
                    }
                }
            },
        };
        assert(self.streams@ =~= before);
        closed
    }

    /// Closes the stream of a connection and drops it, with any queued messages.
    pub fn close_stream<C: ConnectionContext<Stream = S>>(
        &mut self,
        connection_entity: u64,
        connection: &mut C,
        graceful: bool,
    ) -> (closed: Result<(), C::Error>)
        requires
            old(connection).wf(),
            old(self).writes(connection_entity, *old(connection)),
        ensures
            final(connection).wf(),
            final(self).streams@ == old(self).streams@.remove(connection_entity),
            !old(self).streams@.contains_key(connection_entity) ==> closed is Ok && *final(
                connection) == *old(connection),
            old(self).streams@.contains_key(connection_entity) ==> C::send_closed(
                *old(connection),
                *final(connection),
                old(self).streams@[connection_entity].stream,
                graceful,
                closed,
            ),
            forall|any: S| #[trigger] final(connection).sent(any) == old(connection).sent(any),
    {
        match self.streams.remove(&connection_entity) {
            None => Ok(()),
            Some(stream) => {
                let mut stream = stream;
                stream.close(connection, graceful)
            },
        }
    }
}

/// The requirements of a sender that several systems share: it is always ordered.
pub fn shared_requirements(requirements: StreamRequirements) -> (shared: StreamRequirements)
    ensures
        shared == (StreamRequirements { ordered: true, ..requirements }),
{
    requirements.with_ordered(true)
}

/// The requirements of a sender that belongs to one system.
pub fn local_requirements(reliable: bool, ordered: bool) -> (local: StreamRequirements)
    ensures
        local == (StreamRequirements { reliable, ordered, bidirectional: false }),
{
    StreamRequirements { reliable, ordered, bidirectional: false }
}

/// Writing what is pending hands the chunks over in their order, each as a whole, and stops only
/// where the connection does not take a whole chunk: then the rest of that chunk and those behind it
/// are pending still.
pub proof fn flush_stops_only_where_refused<C: ConnectionContext>(
    before: (MessageStreamState<C::Stream>, C),
    after: (MessageStreamState<C::Stream>, C),
    all: bool,
)
    requires
        flush_effect(before, after, Ok::<bool, C::Error>(all)),
    ensures
        ({
            let queue = chunks(before.0.buffer@);
            let left = chunks(after.0.buffer@);
            &&& all <==> left.len() == 0
            &&& all ==> chunks_taken(before.0.stream, queue, queue.len(), before.1, after.1)
            &&& !all ==> exists|n: nat, middle: C, count: usize|
                {
                    &&& n < queue.len()
                    &&& count < queue[n as int].len()
                    &&& chunks_taken(before.0.stream, queue, n, before.1, middle)
                    &&& #[trigger] C::wrote(
                        middle,
                        after.1,
                        before.0.stream,
                        queue[n as int],
                        true,
                        Ok(count),
                    )
                    &&& left == seq![queue[n as int].skip(count as int)] + queue.skip(n as int + 1)
                }
        }),
{
    let queue = chunks(before.0.buffer@);
    let left = chunks(after.0.buffer@);
    if !all {
        let (n, middle, count) = choose|n: nat, middle: C, count: usize| #[trigger]
            stopped_at(before, after, n, middle, Ok(count));
        assert(left =~= seq![queue[n as int].skip(count as int)] + queue.skip(n as int + 1));
        assert(C::wrote(
            middle,
            after.1,
            before.0.stream,
            queue[n as int],
            true,
            Ok::<usize, C::Error>(count),
        ));
    }
}

/// A message that fits is written or queued unless the connection fails, or it must not be queued
/// and something is pending still: it is refused only then. It is never refused on a stream on
/// which nothing is pending.
pub proof fn messages_are_refused_only_behind_others<C: ConnectionContext>(
    before: (MessageStreamState<C::Stream>, C),
    after: (MessageStreamState<C::Stream>, C),
    message: MessageView,
    queue: bool,
    outcome: Result<bool, MessageWriteError<C::Error>>,
)
    requires
        write_effect(before, after, message, queue, outcome),
        message.0 < 0x200_0000_0000_0000,
        message.1.len() < 0x200_0000_0000_0000,
    ensures
        queue ==> outcome != Ok::<bool, MessageWriteError<C::Error>>(false),
        before.0.buffer@.len() == 0 ==> outcome != Ok::<bool, MessageWriteError<C::Error>>(false),
        outcome == Ok::<bool, MessageWriteError<C::Error>>(false) ==> after.0.buffer@.len() > 0
            && after.0.written(after.1) == before.0.written(before.1),
        outcome == Ok::<bool, MessageWriteError<C::Error>>(true) ==> after.0.written(after.1)
            == before.0.written(before.1) + message_frame(message),
        outcome is Err ==> outcome->Err_0 is Connection,
{
}

/// A message whose id or length is too big for an integer of the format is never written, and the
/// id is what is looked at first.
pub proof fn big_messages_are_not_written<C: ConnectionContext>(
    before: (MessageStreamState<C::Stream>, C),
    after: (MessageStreamState<C::Stream>, C),
    message: MessageView,
    queue: bool,
    outcome: Result<bool, MessageWriteError<C::Error>>,
)
    requires
        write_effect(before, after, message, queue, outcome),
    ensures
        outcome is Err && outcome->Err_0 is IdTooBig ==> message.0 >= 0x200_0000_0000_0000,
        outcome is Err && outcome->Err_0 is LengthTooBig ==> message.0 < 0x200_0000_0000_0000
            && message.1.len() >= 0x200_0000_0000_0000,
        outcome == Ok::<bool, MessageWriteError<C::Error>>(true) ==> message.0
            < 0x200_0000_0000_0000 && message.1.len() < 0x200_0000_0000_0000,
        outcome is Err && !(outcome->Err_0 is Connection) ==> after.0.written(after.1)
            == before.0.written(before.1),
        after.0.stream == before.0.stream,
        forall|other: C::Stream|
            other != before.0.stream ==> #[trigger] after.1.sent(other) == before.1.sent(other),
{
}

/// Chunks that a connection takes over are written one after the other, each once and as a whole:
/// there are states in between, and each chunk gets the connection from one to the next.
pub proof fn chunks_are_taken_in_turn<C: ConnectionContext>(
    stream: C::Stream,
    queue: Seq<Seq<u8>>,
    n: nat,
    before: C,
    after: C,
) -> (states: Seq<C>)
    requires
        chunks_taken(stream, queue, n, before, after),
    ensures
        states.len() == n + 1,
        states[0] == before,
        states[n as int] == after,
        forall|i: int|
            0 <= i < n ==> C::wrote(
                states[i],
                states[i + 1],
                stream,
                #[trigger] queue[i],
                true,
                Ok(queue[i].len() as usize),
            ),
    decreases n,
{
    if n == 0 {
        seq![before]
    } else {
        let middle = choose|middle: C|
            chunks_taken(stream, queue, (n - 1) as nat, before, middle) && #[trigger] C::wrote(
                middle,
                after,
                stream,
                queue[n - 1],
                true,
                Ok(queue[n - 1].len() as usize),
            );
        let front = chunks_are_taken_in_turn(stream, queue, (n - 1) as nat, before, middle);
        let states = front.push(after);
        assert forall|i: int| 0 <= i < n implies C::wrote(
            states[i],
            states[i + 1],
            stream,
            #[trigger] queue[i],
            true,
            Ok(queue[i].len() as usize),
        ) by {
            if i < n - 1 {
                assert(states[i] == front[i] && states[i + 1] == front[i + 1]);
            }
        }
        states
    }
}

/// As many chunks are queued for a connection as its stream holds, and none if it has no stream.
pub proof fn queued_chunks_are_those_of_the_stream<S>(
    sender: MessageSenderState<S>,
    connection_entity: u64,
)
    ensures
        sender.streams@.contains_key(connection_entity) ==> sender.queued(connection_entity)
            == chunks(sender.streams@[connection_entity].buffer@).len(),
        !sender.streams@.contains_key(connection_entity) ==> sender.queued(connection_entity) == 0,
{
}

} // verus!
