use bytes::Bytes;
use nevy::net::headers::U16Reader;
use nevy::net::messages::MessageRecvStreamState;
use nevy::net::senders::NextMessageId;
use nevy::quic::datagrams::{DatagramQueue, InvalidDatagramError};
use nevy::quic::endpoint::{
    accepts_incoming, datagram_segments, plan_connection, plan_incoming, plan_inserted,
    receive_buffer_len, socket_step, ConnectionPlan, IncomingPlan, InsertedPlan, SocketRead,
    SocketStep,
};
use nevy::transport::StreamReadError;

#[test]
fn segments() {
    assert_eq!(datagram_segments(10, 4), vec![(0, 4), (4, 8), (8, 10)]);
    assert_eq!(datagram_segments(8, 4), vec![(0, 4), (4, 8)]);
    assert_eq!(datagram_segments(3, 4), vec![(0, 3)]);
    assert_eq!(datagram_segments(0, 4), vec![]);
}

#[test]
fn receive_buffers() {
    assert_eq!(receive_buffer_len(1200, 4, 2), 9600);
    assert_eq!(receive_buffer_len(1 << 40, 1, 1), 65536);
}

#[test]
fn connection_plans() {
    assert_eq!(plan_connection(Some(true), true), ConnectionPlan::Accept);
    assert_eq!(
        plan_connection(Some(false), true),
        ConnectionPlan::AcceptedTwice
    );
    assert_eq!(plan_connection(None, true), ConnectionPlan::Connect);
    assert_eq!(plan_connection(None, false), ConnectionPlan::MissingConfig);
    assert_eq!(plan_inserted(true, true), InsertedPlan::Nothing);
    assert_eq!(plan_inserted(false, true), InsertedPlan::Connect);
    assert_eq!(plan_inserted(false, false), InsertedPlan::MissingConfig);
    assert_eq!(plan_incoming(false), IncomingPlan::Refuse);
    assert_eq!(plan_incoming(true), IncomingPlan::Offer);
}

#[test]
fn only_servers_ask_about_incoming_connections() {
    assert!(accepts_incoming(true, || true));
    assert!(!accepts_incoming(true, || false));
    assert!(!accepts_incoming(false, || unreachable!()));
}

#[test]
fn socket_steps() {
    assert_eq!(socket_step(SocketRead::Received(3)), SocketStep::Handle(3));
    assert_eq!(socket_step(SocketRead::WouldBlock), SocketStep::Stop);
    assert_eq!(socket_step(SocketRead::ConnectionReset), SocketStep::Again);
    assert_eq!(socket_step(SocketRead::Failed), SocketStep::Report);
}

#[test]
fn queued_datagrams_are_read_once() {
    let mut queue = DatagramQueue::new();
    let data = Bytes::from_static;
    assert_eq!(queue.push(data(b"a")), 0);
    assert_eq!(queue.push(data(b"b")), 1);
    assert_eq!(queue.push(data(b"c")), 2);
    assert_eq!(queue.read(1), Ok(Ok(data(b"b"))));
    assert_eq!(queue.read(1), Ok(Err(StreamReadError::Closed)));
    assert_eq!(queue.read(0), Ok(Ok(data(b"a"))));
    // What has been read at the front is let go.
    assert_eq!((queue.offset, queue.datagrams.len()), (2, 1));
    assert_eq!(queue.read(0), Ok(Err(StreamReadError::Closed)));
    assert_eq!(queue.push(data(b"d")), 3);
    assert_eq!(queue.read(4), Err(InvalidDatagramError));
    assert_eq!(queue.read(3), Ok(Ok(data(b"d"))));
    assert_eq!(queue.read(2), Ok(Ok(data(b"c"))));
    assert_eq!((queue.offset, queue.datagrams.len()), (4, 0));
}

#[test]
fn numbers_of_two_bytes() {
    let mut reader = U16Reader::new();
    assert_eq!(reader.bytes_needed(), 2);
    assert_eq!(reader.finish(), None);
    reader.write(&[1]);
    assert_eq!(reader.bytes_needed(), 1);
    assert_eq!(reader.finish(), None);
    reader.write(&[2]);
    assert_eq!(reader.bytes_needed(), 0);
    assert_eq!(reader.finish(), Some(0x0102));
    let mut reader = U16Reader::default();
    reader.write(&[0xff, 0xfe]);
    assert_eq!(reader.finish(), Some(0xfffe));
}

#[test]
fn message_ids_are_assigned_in_order() {
    let mut next = NextMessageId::default();
    assert_eq!(next.assign(), 0);
    assert_eq!(next.assign(), 1);
    assert_eq!(next.0, 2);
}

#[test]
fn message_streams_start_with_an_id() {
    assert!(matches!(
        MessageRecvStreamState::new(),
        MessageRecvStreamState::ReadingId { .. }
    ));
}
