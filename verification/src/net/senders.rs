//! Sending messages on headered streams.
use super::connection::{
    finish_outcome, ConnectionState, StreamFinishError, StreamId, StreamWriteError,
};
use super::headers::{only_written, u16_bytes, write_effect, HeaderedStreamState};
use super::messages::{message_frame, message_frames, MessageView};
use crate::keys::keys_of;
use crate::quic::engine::EngineView;
use crate::quic::event::Direction;
use std::collections::hash_map::Entry;
use std::collections::HashMap;
use vstd::prelude::*;
use vstd::slice::{slice_subrange, slice_to_vec};

verus! {

broadcast use vstd::std_specs::hash::group_hash_axioms;

/// Gives out the ids of messages, in order.
///
/// Client and server agree on all ids if they add the same messages in the same order.
pub struct NextMessageId(pub u16);

impl Default for NextMessageId {
    /// No ids have been given out.
    fn default() -> (next: Self)
        ensures
            next.0 == 0,
    {
        NextMessageId(0)
    }
}

impl NextMessageId {
    /// Gives out the next id.
    pub fn assign(&mut self) -> (id: u16)
        requires
            old(self).0 < u16::MAX,
        ensures
            id == old(self).0,
            final(self).0 == id + 1,
    {
        let id: u16 = self.0;
        self.0 = id + 1;
        id
    }
}

/// State machine for a stream that sends messages.
pub struct MessageSendStreamState {
    pub stream: HeaderedStreamState,
    /// What has not been written of the messages.
    pub buffer: Vec<u8>,
}

/// State machine for a stream that sends messages.
pub type NetMessageSendStreamState = MessageSendStreamState;

impl MessageSendStreamState {
    /// Creates a new state machine that will send data on a stream.
    ///
    /// The provided stream header should be the unique id that the peer is expecting for messages.
    ///
    /// Message streams should be unidirectional.
    pub fn new(stream_id: StreamId, header: u16) -> (state: Self)
        ensures
            state.stream.stream_id == stream_id,
            state.stream.unwritten() == u16_bytes(header),
            state.buffer@ == Seq::<u8>::empty(),
    {
        MessageSendStreamState {
            stream: HeaderedStreamState::new(stream_id, header),
            buffer: Vec::new(),
        }
    }

    /// Gets the stream id for the state machine.
    ///
    /// Can be used to modify the stream or finish it.
    pub fn stream_id(&self) -> (stream_id: StreamId)
        ensures
            stream_id == self.stream.stream_id,
    {
        self.stream.stream_id()
    }

    /// Returns true if the internal buffer has been entirely written to the connection.
    pub fn uncongested(&self) -> (uncongested: bool)
        ensures
            uncongested == (self.buffer@.len() == 0),
    {
        self.buffer.len() == 0
    }

    /// Whether flushing a buffer writes it to the stream, and comes to what that write comes to.
    /// What was written leaves the buffer.
    pub open spec fn flushed(
        self,
        before: ConnectionState,
        after: ConnectionState,
        buffer: Seq<u8>,
        rest: Seq<u8>,
        outcome: Result<(), StreamWriteError>,
    ) -> bool {
        exists|size: Result<usize, StreamWriteError>| #[trigger]
            write_effect(self.stream, before, after, buffer, size) && match size {
                Ok(size) => outcome is Ok && rest == buffer.skip(size as int),
                Err(error) => outcome == Err::<(), _>(error) && rest == buffer,
            }
    }

    /// What has been written on the stream in all: what the connection has taken over, what is left
    /// of the header, and what is left of the messages.
    pub open spec fn written(self, held: EngineView) -> Seq<u8> {
        held.sent_on(self.stream.stream_id.0) + self.stream.unwritten() + self.buffer@
    }

    /// Writes as much of the internal buffer as possible to the connection.
    ///
    /// This should be called frequently even if messages aren't being written to make sure that all
    /// data is sent. Nothing is lost, repeated or reordered, whatever the connection takes over.
    pub fn flush(&mut self, connection: &mut ConnectionState) -> (flushed: Result<
        (),
        StreamWriteError,
    >)
        requires
            old(connection).wf(),
            old(connection).engine().send_ids.contains(old(self).stream.stream_id.0),
        ensures
            final(connection).wf(),
            final(connection).same_flags(*old(connection)),
            final(self).stream.stream_id == old(self).stream.stream_id,
            final(self).written(final(connection).engine()) == old(self).written(
                old(connection).engine(),
            ),
            only_written(
                old(connection).engine(),
                final(connection).engine(),
                old(self).stream.stream_id.0,
            ),
            old(self).buffer@.len() > 0 ==> old(self).flushed(
                *old(connection),
                *final(connection),
                old(self).buffer@,
                final(self).buffer@,
                flushed,
            ),
            final(self).buffer@.len() <= old(self).buffer@.len(),
            old(self).buffer@.len() == 0 ==> flushed is Ok && *final(self) == *old(self)
                && *final(connection) == *old(connection),
    {
        if self.buffer.len() == 0 {
            return Ok(());
        }
        let ghost buffer = self.buffer@;
        let ghost before = connection.engine().sent_on(self.stream.stream_id.0)
            + self.stream.unwritten();
        let written = self.stream.write(connection, self.buffer.as_slice());
        assert(write_effect(old(self).stream, *old(connection), *connection, buffer, written));
        match written {
            Err(error) => Err(error),
            Ok(count) => {
                let rest = slice_to_vec(
                    slice_subrange(self.buffer.as_slice(), count, self.buffer.len()),
                );
                proof {
                    assert(rest@ =~= buffer.skip(count as int));
                    assert(before + buffer.take(count as int) + rest@ =~= before + buffer);
                }
                self.buffer = rest;
                Ok(())
            },
        }
    }

    /// Attempts to send a message.
    ///
    /// If `queue` is true the message will always be written and `Ok(true)` will be returned.
    /// This will cause the internal buffer to grow without limit if the stream is congested.
    ///
    /// If `queue` is false and the stream is congested the message will not be written and
    /// `Ok(false)` will be returned.
    pub fn write(
        &mut self,
        message_id: u16,
        connection: &mut ConnectionState,
        message: &[u8],
        queue: bool,
    ) -> (outcome: Result<bool, StreamWriteError>)
        requires
            old(connection).wf(),
            old(connection).engine().send_ids.contains(old(self).stream.stream_id.0),
            queue || old(self).buffer@.len() == 0 ==> message@.len() <= u16::MAX,
        ensures
            final(connection).wf(),
            final(connection).same_flags(*old(connection)),
            final(self).stream.stream_id == old(self).stream.stream_id,
            only_written(
                old(connection).engine(),
                final(connection).engine(),
                old(self).stream.stream_id.0,
            ),
            outcome == Ok::<bool, StreamWriteError>(false) <==> !queue && old(self).buffer@.len()
                > 0,
            final(self).written(final(connection).engine()) == old(self).written(
                old(connection).engine(),
            ) + if outcome == Ok::<bool, StreamWriteError>(false) {
                Seq::empty()
            } else {
                message_frame((message_id, message@))
            },
            outcome == Ok::<bool, StreamWriteError>(false) ==> *final(self) == *old(self)
                && *final(connection) == *old(connection),
            outcome != Ok::<bool, StreamWriteError>(false) ==> old(self).flushed(
                *old(connection),
                *final(connection),
                old(self).buffer@ + message_frame((message_id, message@)),
                final(self).buffer@,
                unit_result(outcome),
            ),
    {
        let ghost before = self.written(connection.engine());
        if !(queue || self.uncongested()) {
            assert(before + Seq::<u8>::empty() =~= before);
            return Ok(false);
        }
        let ghost buffer = self.buffer@;
        let length: u16 = message.len() as u16;
        self.buffer.push((message_id / 256) as u8);
        self.buffer.push((message_id % 256) as u8);
        self.buffer.push((length / 256) as u8);
        self.buffer.push((length % 256) as u8);
        self.buffer.extend_from_slice(message);
        proof {
            let frame = message_frame((message_id, message@));
            assert(self.buffer@ =~= buffer + frame);
            assert(self.written(connection.engine()) =~= before + frame);
        }
        match self.flush(connection) {
            Err(error) => Err(error),
            Ok(_) => Ok(true),
        }
    }
}

/// A result without its value.
pub open spec fn unit_result<E>(result: Result<bool, E>) -> Result<(), E> {
    match result {
        Ok(_) => Ok(()),
        Err(error) => Err(error),
    }
}

/// The messages that were written on a stream are on it in their order, after its header: if a
/// stream carries some messages, it carries one more after a write that succeeded.
pub proof fn written_messages(
    header: u16,
    messages: Seq<MessageView>,
    message: MessageView,
    before: Seq<u8>,
    after: Seq<u8>,
)
    requires
        before == u16_bytes(header) + message_frames(messages),
        after == before + message_frame(message),
    ensures
        after == u16_bytes(header) + message_frames(messages.push(message)),
{
    lemma_message_frames_push(messages, message);
    assert(after =~= u16_bytes(header) + message_frames(messages.push(message)));
}

/// Framing one more message appends its frame.
proof fn lemma_message_frames_push(messages: Seq<MessageView>, message: MessageView)
    ensures
        message_frames(messages.push(message))
            == message_frames(messages) + message_frame(message),
    decreases messages.len(),
{
    let more = messages.push(message);
    if messages.len() == 0 {
        assert(more.skip(1) =~= Seq::empty());
        reveal_with_fuel(message_frames, 2);
        assert(message_frames(more) =~= message_frames(messages)
            + message_frame(message));
    } else {
        assert(more.skip(1) =~= messages.skip(1).push(message));
        lemma_message_frames_push(messages.skip(1), message);
        assert(message_frames(more) =~= message_frames(messages)
            + message_frame(message));
    }
}

/// Reasons why a message could not be sent.
#[derive(Clone, Copy, Debug, PartialEq, Eq, Structural)]
pub enum SendError {
    /// No stream could be opened.
    NoStream,
    /// The stream could not be written.
    Write(StreamWriteError),
}

/// What a write came to, when a message was sent or could not be written.
pub open spec fn write_part(outcome: Result<bool, SendError>) -> Result<(), StreamWriteError> {
    match outcome {
        Err(SendError::Write(error)) => Err(error),
        _ => Ok(()),
    }
}

/// A stream for each connection that messages have been sent on.
pub struct SenderState {
    pub connections: HashMap<u64, MessageSendStreamState>,
}

impl Default for SenderState {
    /// No streams.
    fn default() -> (sender: Self)
        ensures
            sender.connections@ == Map::<u64, MessageSendStreamState>::empty(),
    {
        SenderState { connections: HashMap::new() }
    }
}

impl SenderState {
    /// Whether the stream of a connection, if it has one, can be written on it.
    pub open spec fn writes(self, connection_entity: u64, held: EngineView) -> bool {
        self.connections@.contains_key(connection_entity) ==> held.send_ids.contains(
            self.connections@[connection_entity].stream.stream_id.0,
        )
    }

    /// Whether a message is put on a stream: there is one that is not congested, or on which
    /// messages are queued, or one can be opened.
    pub open spec fn sends_now(
        self,
        connection_entity: u64,
        connection: ConnectionState,
        queue: bool,
    ) -> bool {
        if self.connections@.contains_key(connection_entity) {
            queue || self.connections@[connection_entity].buffer@.len() == 0
        } else {
            connection.status().openable(false)
        }
    }

    /// The connections that have a stream.
    pub fn entities(&self) -> (entities: Vec<u64>)
        ensures
            entities@.no_duplicates(),
            entities@.to_set() == self.connections@.dom(),
    {
        keys_of(&self.connections)
    }

    /// Drives the state machine of a connection.
    pub fn flush(&mut self, connection_entity: u64, connection: &mut ConnectionState) -> (flushed:
        Result<(), StreamWriteError>)
        requires
            old(connection).wf(),
            old(self).writes(connection_entity, old(connection).engine()),
        ensures
            final(connection).wf(),
            final(connection).same_flags(*old(connection)),
            final(self).writes(connection_entity, final(connection).engine()),
            final(self).connections@.dom() == old(self).connections@.dom(),
            final(self).connections@.remove(connection_entity) == old(self).connections@.remove(
                connection_entity,
            ),
            old(self).connections@.contains_key(connection_entity) ==> final(
                self).connections@[connection_entity].written(final(connection).engine()) == old(
                self,
            ).connections@[connection_entity].written(old(connection).engine()),
            old(self).connections@.contains_key(connection_entity) ==> {
                let before = old(self).connections@[connection_entity];
                if before.buffer@.len() > 0 {
                    before.flushed(
                        *old(connection),
                        *final(connection),
                        before.buffer@,
                        final(self).connections@[connection_entity].buffer@,
                        flushed,
                    )
                } else {
                    &&& flushed is Ok
                    &&& *final(connection) == *old(connection)
                    &&& final(self).connections@[connection_entity] == before
                }
            },
            !old(self).connections@.contains_key(connection_entity) ==> flushed is Ok && *final(
                connection) == *old(connection),
    {
        let ghost before = self.connections@;
        let result = match self.connections.entry(connection_entity) {
            Entry::Vacant(_) => Ok(()),
            Entry::Occupied(entry) => entry.into_mut().flush(connection),
        };
        assert(self.connections@.remove(connection_entity) =~= before.remove(connection_entity));
        assert(self.connections@.dom() =~= before.dom());
        result
    }

    /// Sends a message on a connection. A stream with a header is opened if there is none.
    pub fn write_with_header(
        &mut self,
        header: u16,
        connection_entity: u64,
        connection: &mut ConnectionState,
        message_id: u16,
        queue: bool,
        message: &[u8],
    ) -> (outcome: Result<bool, SendError>)
        requires
            old(connection).wf(),
            old(self).writes(connection_entity, old(connection).engine()),
            old(self).sends_now(connection_entity, *old(connection), queue) ==> message@.len()
                <= u16::MAX,
        ensures
            final(connection).wf(),
            final(connection).same_flags(*old(connection)),
            final(self).writes(connection_entity, final(connection).engine()),
            final(self).connections@.remove(connection_entity) == old(self).connections@.remove(
                connection_entity,
            ),
            outcome == Err::<bool, SendError>(SendError::NoStream) <==> !final(
                self).connections@.contains_key(connection_entity),
            outcome == Err::<bool, SendError>(SendError::NoStream) <==> !old(
                self,
            ).connections@.contains_key(connection_entity) && !old(connection).status().openable(
                false,
            ),
            ({
                let held = old(connection).engine();
                let frame = message_frame((message_id, message@));
                let after = final(self).connections@[connection_entity];
                if old(self).connections@.contains_key(connection_entity) {
                    let before = old(self).connections@[connection_entity];
                    &&& final(self).connections@.contains_key(connection_entity)
                    &&& outcome == Ok::<bool, SendError>(false) <==> !queue && before.buffer@.len()
                        > 0
                    &&& after.written(final(connection).engine()) == before.written(held) + if outcome
                        == Ok::<bool, SendError>(false) {
                        Seq::empty()
                    } else {
                        frame
                    }
                    &&& outcome != Ok::<bool, SendError>(false) ==> before.flushed(
                        *old(connection),
                        *final(connection),
                        before.buffer@ + frame,
                        after.buffer@,
                        write_part(outcome),
                    )
                } else if final(self).connections@.contains_key(connection_entity) {
                    &&& held.unused(after.stream.stream_id.0)
                    &&& outcome != Ok::<bool, SendError>(false)
                    &&& after.written(final(connection).engine()) == u16_bytes(header) + frame
                    &&& exists|opened: MessageSendStreamState, with_stream: ConnectionState|
                        {
                            &&& opened.stream.stream_id == after.stream.stream_id
                            &&& opened.stream.unwritten() == u16_bytes(header)
                            &&& opened.buffer@.len() == 0
                            &&& with_stream.engine() == held.opened(after.stream.stream_id.0, false)
                            &&& #[trigger] opened.flushed(
                                with_stream,
                                *final(connection),
                                frame,
                                after.buffer@,
                                write_part(outcome),
                            )
                        }
                } else {
                    final(connection).engine() == held
                }
            }),
    {
        let ghost before = self.connections@;
        let ghost held = connection.engine();
        let stream = match self.connections.entry(connection_entity) {
            Entry::Occupied(entry) => entry.into_mut(),
            Entry::Vacant(entry) => match connection.open_stream(Direction::Uni) {
                None => {
                    assert(self.connections@ =~= before);
                    return Err(SendError::NoStream);
                },
                Some(stream_id) => entry.insert(MessageSendStreamState::new(stream_id, header)),
            },
        };
        let ghost opened = *stream;
        let ghost with_stream = *connection;
        let ghost middle = connection.engine();
        proof {
            if !before.contains_key(connection_entity) {
                assert(middle.sent_on(opened.stream.stream_id.0) =~= Seq::empty());
                assert(opened.written(middle) =~= u16_bytes(header));
            }
        }
        let outcome = stream.write(message_id, connection, message, queue);
        proof {
            assert(self.connections@.remove(connection_entity) =~= before.remove(
                connection_entity,
            ));
            if !before.contains_key(connection_entity) {
                let frame = message_frame((message_id, message@));
                assert(opened.buffer@ + frame =~= frame);
                assert(opened.flushed(
                    with_stream,
                    *connection,
                    frame,
                    self.connections@[connection_entity].buffer@,
                    unit_result(outcome),
                ));
            }
        }
        match outcome {
            Ok(sent) => Ok(sent),
            Err(error) => Err(SendError::Write(error)),
        }
    }

    /// Finishes the message stream of a connection if it exists and is not blocked on congestion.
    /// Returns whether it was finished.
    pub fn finish_if_uncongested(
        &mut self,
        connection_entity: u64,
        connection: &mut ConnectionState,
    ) -> (finished: Result<bool, StreamFinishError>)
        requires
            old(connection).wf(),
            old(self).writes(connection_entity, old(connection).engine()),
        ensures
            final(connection).wf(),
            final(connection).same_flags(*old(connection)),
            ({
                let state = old(self).connections@[connection_entity];
                let stream = state.stream.stream_id.0;
                let before = old(connection).engine();
                if old(self).connections@.contains_key(connection_entity) && state.buffer@.len()
                    == 0 {
                    &&& final(connection).engine() == before.finish_asked(stream)
                    &&& match finish_outcome(before.finish_result(stream)) {
                        Ok(_) => finished == Ok::<bool, StreamFinishError>(true) && final(
                            self).connections@ == old(self).connections@.remove(connection_entity),
                        Err(error) => finished == Err::<bool, StreamFinishError>(error) && final(
                            self).connections@ == old(self).connections@,
                    }
                } else {
                    &&& finished == Ok::<bool, StreamFinishError>(false)
                    &&& final(connection).engine() == before
                    &&& final(self).connections@ == old(self).connections@
                }
            }),
    {
        let stream_id = match self.connections.get(&connection_entity) {
            None => {
                return Ok(false);
            },
            Some(state) => {
                if !state.uncongested() {
                    return Ok(false);
                }
                state.stream_id()
            },
        };
        match connection.finish_send_stream(stream_id) {
            Err(error) => Err(error),
            Ok(_) => {
                self.connections.remove(&connection_entity);
                Ok(true)
            },
        }
    }

    /// Removes the state machine for a connection if it exists, giving responsibility of the stream
    /// to the caller.
    pub fn take_state(&mut self, connection_entity: u64) -> (state: Option<MessageSendStreamState>)
        ensures
            final(self).connections@ == old(self).connections@.remove(connection_entity),
            state == if old(self).connections@.contains_key(connection_entity) {
                Some(old(self).connections@[connection_entity])
            } else {
                None
            },
    {
        self.connections.remove(&connection_entity)
    }
}

/// A flush hands the front of the buffer to the stream, behind what is left of the header, and keeps
/// the rest. It keeps everything if the write fails.
pub proof fn flush_takes_from_the_front(
    state: MessageSendStreamState,
    before: ConnectionState,
    after: ConnectionState,
    buffer: Seq<u8>,
    rest: Seq<u8>,
    outcome: Result<(), StreamWriteError>,
)
    requires
        state.flushed(before, after, buffer, rest, outcome),
        state.stream.header_buffer is None,
    ensures
        ({
            let id = state.stream.stream_id.0;
            let room = before.status().room;
            let sent = before.engine().sent_on(id);
            let left = after.engine().sent_on(id);
            &&& left + rest == sent + buffer
            &&& outcome is Err ==> rest == buffer
            &&& outcome is Ok && room.contains_key(id) ==> rest == buffer.skip(
                if room[id] < buffer.len() {
                    room[id] as int
                } else {
                    buffer.len() as int
                },
            )
        }),
{
    let id = state.stream.stream_id.0;
    let sent = before.engine().sent_on(id);
    let size = choose|size: Result<usize, StreamWriteError>| #[trigger]
        write_effect(state.stream, before, after, buffer, size) && match size {
            Ok(size) => outcome is Ok && rest == buffer.skip(size as int),
            Err(error) => outcome == Err::<(), _>(error) && rest == buffer,
        };
    crate::net::headers::written_data_fills_the_room(state.stream, before, after, buffer, size);
    if let Ok(count) = size {
        assert(buffer.skip(0) =~= buffer);
        assert(buffer.take(count as int) + buffer.skip(count as int) =~= buffer);
        assert(sent + buffer.take(count as int) + buffer.skip(count as int) =~= sent + buffer);
    }
}

/// The frame of a message holds its id, its length and its bytes, and all numbers start with the more
/// significant byte.
pub proof fn message_frames_are_bytes(message: MessageView)
    requires
        message.1.len() <= 0xffff,
    ensures
        ({
            let frame = message_frame(message);
            &&& frame.len() == message.1.len() + 4
            &&& frame[0] * 256 + frame[1] == message.0
            &&& frame[2] * 256 + frame[3] == message.1.len()
            &&& frame.skip(4) == message.1
        }),
{
    let frame = message_frame(message);
    assert(frame.skip(4) =~= message.1);
}

} // verus!
