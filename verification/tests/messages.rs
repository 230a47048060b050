use bytes::Bytes;
use nevy::channel::connection::{ChannelConnectionContext, ChannelConnectionState, ChannelStreamId};
use nevy::channel::message::ChannelMessage;
use nevy::deserialize::ReceivedMessages;
use nevy::protocol::Protocol;
use nevy::reader::{Buffers, MessageStreamReaderState, MessageStreamReaders};
use nevy::transport::{
    ConnectionContext, ConnectionStatus, MismatchedStreamError, StreamRequirements,
};
use nevy::writer::{
    frame_message, local_requirements, shared_requirements, MessageSenderState, MessageStreamState,
    MessageWriteError,
};

const RELIABLE: StreamRequirements = StreamRequirements {
    reliable: true,
    ordered: false,
    bidirectional: false,
};

fn pair() -> (ChannelConnectionState, ChannelConnectionState) {
    let (left_tx, right_rx) = crossbeam_channel::unbounded();
    let (right_tx, left_rx) = crossbeam_channel::unbounded();
    (
        ChannelConnectionState::new(left_tx, left_rx, None, 1),
        ChannelConnectionState::new(right_tx, right_rx, None, 2),
    )
}

fn framed(id: u64, message: &[u8]) -> Bytes {
    frame_message::<MismatchedStreamError>(id, message).unwrap()
}

#[test]
fn frames() {
    assert_eq!(&framed(3, b"abc")[..], b"\x03\x03abc");
    assert_eq!(&framed(300, b"")[..], &[0xac, 2, 0]);
    assert_eq!(&framed(0, &[7; 128])[..4], &[0, 0x80, 1, 7]);
}

#[test]
fn ids_have_a_bound() {
    assert!(frame_message::<MismatchedStreamError>((1 << 57) - 1, b"").is_ok());
    assert_eq!(
        frame_message::<MismatchedStreamError>(1 << 57, b""),
        Err(MessageWriteError::IdTooBig)
    );
}

#[test]
fn frames_are_read_as_written() {
    let mut stream = framed(1, b"first").to_vec();
    stream.extend_from_slice(&framed(2, &[5; 300]));
    stream.extend_from_slice(&framed(1, b"second"));

    for piece in [1, 2, 3, 50, 1000] {
        let mut reader = MessageStreamReaderState::new();
        let mut buffers = Buffers::new();
        for data in stream.chunks(piece) {
            reader.receive(&Bytes::copy_from_slice(data), &mut buffers);
        }
        assert_eq!(buffers[&1], vec![b"first".to_vec(), b"second".to_vec()]);
        assert_eq!(buffers[&2], vec![vec![5; 300]]);
        assert!(matches!(reader, MessageStreamReaderState::ReceivingId { .. }));
    }
}

#[test]
fn an_empty_message_comes_with_the_next_byte() {
    let mut reader = MessageStreamReaderState::new();
    let mut buffers = Buffers::new();
    reader.receive(&framed(4, b""), &mut buffers);
    assert!(buffers.is_empty());
    reader.receive(&framed(5, b"x"), &mut buffers);
    assert_eq!(buffers[&4], vec![Vec::<u8>::new()]);
    assert_eq!(buffers[&5], vec![b"x".to_vec()]);
}

#[test]
fn messages_travel_over_a_channel() {
    let (mut left, mut right) = pair();
    let mut sender = MessageSenderState::default();
    let mut readers = MessageStreamReaders::new();

    let mut out = ChannelConnectionContext { state: &mut left };
    for message in [&b"one"[..], b"two", b"three"] {
        assert_eq!(sender.write(9, &mut out, RELIABLE, 6, true, message), Ok(true));
    }
    assert_eq!(sender.write(9, &mut out, RELIABLE, 7, false, b"other"), Ok(true));
    assert_eq!(sender.connections(), vec![9]);
    assert_eq!(sender.queue_size(9), 0);
    assert_eq!(sender.queue_size(10), 0);

    right.poll_messages(0);
    let mut into = ChannelConnectionContext { state: &mut right };
    readers.accept_streams(&mut into);
    assert_eq!(readers.readers.len(), 1);
    assert_eq!(readers.read_streams(&mut into), Ok(()));
    assert_eq!(readers.next_message(6), Some(b"one".to_vec()));
    assert_eq!(readers.next_message(6), Some(b"two".to_vec()));
    assert_eq!(readers.next_message(7), Some(b"other".to_vec()));
    assert_eq!(readers.next_message(7), None);
    assert_eq!(readers.next_message(6), Some(b"three".to_vec()));
    assert_eq!(readers.next_message(6), None);
    assert_eq!(readers.next_message(8), None);

    // The reader goes once the stream is closed.
    let mut out = ChannelConnectionContext { state: &mut left };
    assert_eq!(sender.close_unused_stream(9, &mut out), Ok(true));
    sender.forget(9);
    assert!(sender.connections().is_empty());
    right.poll_messages(0);
    let mut into = ChannelConnectionContext { state: &mut right };
    assert_eq!(readers.read_streams(&mut into), Ok(()));
    assert!(readers.readers.is_empty());
}

#[test]
fn started_messages_are_finished_later() {
    let (mut left, mut right) = pair();
    let mut out = ChannelConnectionContext { state: &mut left };
    let stream = out.new_stream(RELIABLE).unwrap();
    let mut bytes = framed(1, b"first").to_vec();
    bytes.extend_from_slice(&framed(300, b"second"));
    bytes.extend_from_slice(&framed(1, b"third"));
    let (now, later) = bytes.split_at(17);
    for chunk in now.chunks(3) {
        out.write(&stream, Bytes::copy_from_slice(chunk), true).unwrap();
    }
    right.poll_messages(0);
    let mut into = ChannelConnectionContext { state: &mut right };
    let mut readers = MessageStreamReaders::new();
    readers.accept_streams(&mut into);
    assert_eq!(readers.read_streams(&mut into), Ok(()));
    assert_eq!(readers.readers.len(), 1);
    assert_eq!(readers.next_message(1), Some(b"first".to_vec()));
    assert_eq!(readers.next_message(1), None);
    assert_eq!(readers.next_message(300), Some(b"second".to_vec()));

    let mut out = ChannelConnectionContext { state: &mut left };
    out.write(&stream, Bytes::copy_from_slice(later), true).unwrap();
    right.poll_messages(0);
    let mut into = ChannelConnectionContext { state: &mut right };
    assert_eq!(readers.read_streams(&mut into), Ok(()));
    assert_eq!(readers.next_message(1), Some(b"third".to_vec()));
    assert_eq!(readers.next_message(1), None);
}

#[test]
fn streams_with_a_backlog_are_kept() {
    let (mut left, mut right) = pair();
    let mut out = ChannelConnectionContext { state: &mut left };
    let mut sender = MessageSenderState::default();
    assert_eq!(sender.write(1, &mut out, RELIABLE, 0, true, b"a"), Ok(true));
    sender
        .streams
        .get_mut(&1)
        .unwrap()
        .buffer
        .push_back(Bytes::from(vec![0, 1, 98]));
    assert_eq!(sender.queue_size(1), 1);
    // Writing flushes what is queued first.
    assert_eq!(sender.close_unused_stream(1, &mut out), Ok(false));
    assert_eq!(sender.write(1, &mut out, RELIABLE, 0, false, b"c"), Ok(true));
    assert_eq!(sender.queue_size(1), 0);
    assert_eq!(sender.flush(1, &mut out), Ok(()));
    assert_eq!(sender.close_stream(1, &mut out, true), Ok(()));
    assert_eq!(sender.close_stream(1, &mut out, true), Ok(()));
    assert_eq!(sender.close_unused_stream(1, &mut out), Ok(false));

    right.poll_messages(0);
    let mut into = ChannelConnectionContext { state: &mut right };
    let mut readers = MessageStreamReaders::new();
    readers.accept_streams(&mut into);
    assert_eq!(readers.read_streams(&mut into), Ok(()));
    let mut received = ReceivedMessages::<u8>::default();
    received.deserialize(&mut readers, 0, |bytes: &Vec<u8>| bytes.first().copied());
    assert_eq!(received.drain(), b"abc".to_vec());
}

#[test]
fn forgotten_streams_are_not_closed() {
    let (mut left, mut right) = pair();
    let mut out = ChannelConnectionContext { state: &mut left };
    let mut sender = MessageSenderState::default();
    assert_eq!(sender.write(1, &mut out, RELIABLE, 0, true, b"a"), Ok(true));
    sender.forget(1);
    sender.forget(2);
    assert!(sender.connections().is_empty());
    right.poll_messages(0);
    assert!(!right.streams[&0].recv_closed);
}

#[test]
fn what_cannot_be_written_is_queued() {
    let (mut left, _right) = pair();
    let mut out = ChannelConnectionContext { state: &mut left };
    let mut state = MessageStreamState {
        stream: ChannelStreamId::ReceivedDatagram(0),
        buffer: Default::default(),
    };
    assert_eq!(state.write(&mut out, 0, true, b"a"), Ok(true));
    assert_eq!(state.buffer, vec![Bytes::from_static(b"\x00\x01a")]);
    assert_eq!(state.write(&mut out, 0, false, b"b"), Ok(false));
    assert_eq!(state.write(&mut out, 0, true, b"b"), Ok(true));
    assert_eq!(state.buffer.len(), 2);
    assert_eq!(state.flush(&mut out), Ok(false));
    assert_eq!(
        state.write(&mut out, 1 << 57, true, b"a"),
        Err(MessageWriteError::IdTooBig)
    );
    assert_eq!(state.close(&mut out, true), Ok(()));
}

#[test]
fn written_parts_leave_the_queue() {
    let mut state = MessageStreamState {
        stream: ChannelStreamId::Datagram,
        buffer: vec![Bytes::from_static(b"abc"), Bytes::from_static(b"d")].into(),
    };
    assert!(!state.front_written(2));
    assert_eq!(state.buffer, vec![Bytes::from_static(b"c"), Bytes::from_static(b"d")]);
    assert!(state.front_written(1));
    assert_eq!(state.buffer, vec![Bytes::from_static(b"d")]);
}

#[test]
fn messages_that_cannot_be_decoded_are_dropped() {
    let mut readers = MessageStreamReaders::<u8>::default();
    readers
        .buffers
        .insert(3, vec![vec![1], vec![], vec![2, 9]].into());
    readers.buffers.insert(4, vec![vec![8]].into());
    let mut received = ReceivedMessages::<u8>::default();
    received.push(0);
    received.deserialize(&mut readers, 3, |bytes: &Vec<u8>| bytes.first().copied());
    assert_eq!(received.next(), Some(0));
    assert_eq!(received.next(), Some(1));
    assert_eq!(received.drain(), vec![2]);
    assert_eq!(received.next(), None);
    assert_eq!(readers.next_message(4), Some(vec![8]));
}

#[test]
fn message_ids_count_up() {
    let mut protocol = Protocol::default();
    assert_eq!(protocol.add_message(70), 0);
    assert_eq!(protocol.add_message(50), 1);
    assert_eq!(protocol.add_message(60), 2);
    assert_eq!(protocol.message_id(50), Some(1));
    assert_eq!(protocol.message_id(51), None);
    assert!(protocol.contains(60));
    assert!(!protocol.contains(0));
}

#[test]
fn included_protocols_come_after() {
    let mut shared = Protocol::default();
    shared.add_message(5);
    shared.add_message(6);
    shared.add_message(7);

    let mut protocol = Protocol::default();
    protocol.add_message(1);
    protocol.add_message(6);
    protocol.include_protocol(&shared);
    let ids: Vec<_> = [1, 6, 5, 7].map(|key| protocol.message_id(key)).to_vec();
    assert_eq!(ids, vec![Some(0), Some(1), Some(2), Some(3)]);

    // Once more changes nothing.
    protocol.include_protocol(&shared);
    assert_eq!(protocol.add_message(8), 4);
}

#[test]
fn equal_orders_give_equal_ids() {
    let mut one = Protocol::default();
    let mut other = Protocol::default();
    for key in [3, 1, 2] {
        one.add_message(key);
    }
    let mut part = Protocol::default();
    part.add_message(3);
    part.add_message(1);
    other.include_protocol(&part);
    other.add_message(2);
    for key in 0..5 {
        assert_eq!(one.message_id(key), other.message_id(key));
    }
}

#[test]
fn requirements_of_senders() {
    let local = local_requirements(true, false);
    assert_eq!(local, RELIABLE);
    let all = StreamRequirements::reliable_ordered().with_bidirectional(true);
    assert_eq!(
        shared_requirements(all),
        StreamRequirements::reliable_ordered().with_bidirectional(true)
    );
    assert_eq!(
        shared_requirements(StreamRequirements::unreliable()),
        StreamRequirements::unreliable().with_ordered(true)
    );
}

#[test]
fn requirement_builders() {
    let none = StreamRequirements {
        reliable: false,
        ordered: false,
        bidirectional: false,
    };
    assert_eq!(StreamRequirements::unreliable(), none);
    assert_eq!(StreamRequirements::reliable(), none.with_reliable(true));
    assert_eq!(
        StreamRequirements::reliable_ordered(),
        none.with_reliable(true).with_ordered(true)
    );
    assert!(none.with_bidirectional(true).bidirectional);
    assert_eq!(ConnectionStatus::default(), ConnectionStatus::Connecting);
}

#[test]
fn readers_take_streams_of_both_directions() {
    let (mut left, mut right) = pair();
    let mut out = ChannelConnectionContext { state: &mut left };
    let both = out
        .new_stream(StreamRequirements::reliable_ordered().with_bidirectional(true))
        .unwrap();
    assert_eq!(out.write(&both, framed(1, b"x"), true), Ok(3));
    left.tx.send(ChannelMessage::Datagram(framed(2, b"y"))).unwrap();

    right.poll_messages(0);
    let mut into = ChannelConnectionContext { state: &mut right };
    let mut readers = MessageStreamReaders::new();
    readers.accept_streams(&mut into);
    assert_eq!(readers.read_streams(&mut into), Ok(()));
    assert_eq!(readers.next_message(1), Some(b"x".to_vec()));
    assert_eq!(readers.next_message(2), Some(b"y".to_vec()));
}
