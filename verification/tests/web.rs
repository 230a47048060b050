use bytes::Bytes;
use nevy::transport::{ConnectionStatus, StreamReadError, StreamRequirements};
use nevy::webtransport_web::connection::{
    BidiStreamState, ConnectedState, DatagramsReadError, ReadOutcome, RecvState,
    WebTransportWebStreamId,
};
use nevy::webtransport_web::endpoint::WebConnection;
use std::cell::RefCell;

/// Writers, readers, openings and reads are numbers.
type State = ConnectedState<u32, u32, u32, u32, u32>;

const UNI: StreamRequirements = StreamRequirements {
    reliable: true,
    ordered: true,
    bidirectional: false,
};

const BI: StreamRequirements = StreamRequirements {
    reliable: true,
    ordered: true,
    bidirectional: true,
};

fn bidi(writer: u32, reader: u32) -> BidiStreamState<u32, u32, u32> {
    BidiStreamState {
        send_writer: writer,
        recv: RecvState::new(reader),
    }
}

fn never(_: &u32) -> Option<ReadOutcome> {
    None
}

#[test]
fn openings_settle() {
    let mut state = State::new(None);
    let first = state.new_stream(BI, || 100, || 200);
    let second = state.new_stream(UNI, || 101, || 201);
    let third = state.new_stream(BI, || 102, || 202);
    assert_eq!(first, WebTransportWebStreamId::Bidirectional(0));
    assert_eq!(second, WebTransportWebStreamId::UnidirectionalSend(1));
    assert_eq!(third, WebTransportWebStreamId::Bidirectional(2));
    assert_eq!(state.pending_bidi_open[&0], 100);
    assert_eq!(state.pending_uni_open[&1], 201);

    state.poll_incoming(
        |open: &u32| {
            if *open == 100 {
                Some(Some(bidi(1, 2)))
            } else {
                Some(None)
            }
        },
        |_: &u32| None,
        never,
    );
    assert_eq!(state.bidi_streams[&0].send_writer, 1);
    assert!(!state.bidi_streams.contains_key(&2));
    assert!(state.pending_bidi_open.is_empty());
    assert_eq!(state.pending_uni_open.len(), 1);
    state.poll_incoming(|_: &u32| None, |_: &u32| Some(Some(7)), never);
    assert_eq!(state.uni_send_streams[&1], 7);
    assert!(state.pending_uni_open.is_empty());
}

#[test]
fn datagram_streams_take_a_number_too() {
    let mut state = State::new(Some(9));
    assert_eq!(
        state.new_stream(StreamRequirements::unreliable(), || 0, || 0),
        WebTransportWebStreamId::Datagrams
    );
    assert_eq!(
        state.new_stream(UNI, || 0, || 0),
        WebTransportWebStreamId::UnidirectionalSend(1)
    );
    let both = StreamRequirements::unreliable().with_bidirectional(true);
    assert_eq!(
        state.new_stream(both, || 0, || 0),
        WebTransportWebStreamId::Bidirectional(2)
    );
}

#[test]
fn writes_go_to_the_writer() {
    let mut state = State::new(Some(9));
    state.bidi_streams.insert(0, bidi(1, 2));
    state.uni_send_streams.insert(1, 3);
    let log = RefCell::new(Vec::new());
    let data = Bytes::from_static(b"abc");
    for (stream, written) in [
        (WebTransportWebStreamId::Datagrams, 3),
        (WebTransportWebStreamId::Bidirectional(0), 3),
        (WebTransportWebStreamId::UnidirectionalSend(1), 3),
        (WebTransportWebStreamId::Bidirectional(5), 0),
        (WebTransportWebStreamId::UnidirectionalRecv(1), 0),
        (WebTransportWebStreamId::ReceivedDatagram(0), 0),
    ] {
        let size = state.write(&stream, &data, |writer: &u32, data: &Bytes| {
            log.borrow_mut().push((*writer, data.clone()))
        });
        assert_eq!(size, written);
    }
    let writers: Vec<_> = log.borrow().iter().map(|(writer, _)| *writer).collect();
    assert_eq!(writers, vec![9, 1, 3]);
    assert!(log.borrow().iter().all(|(_, sent)| *sent == data));
}

#[test]
fn closing_streams() {
    let mut state = State::new(Some(9));
    state.bidi_streams.insert(0, bidi(1, 2));
    state.uni_send_streams.insert(1, 3);
    state.uni_recv_streams.insert(2, RecvState::new(4));
    let log = RefCell::new(Vec::new());
    let close = |end: &u32| log.borrow_mut().push(*end);
    state.close_send_stream(&WebTransportWebStreamId::Bidirectional(0), close);
    state.close_send_stream(&WebTransportWebStreamId::UnidirectionalSend(1), close);
    state.close_send_stream(&WebTransportWebStreamId::UnidirectionalSend(8), close);
    state.close_recv_stream(&WebTransportWebStreamId::Bidirectional(0), close);
    state.close_recv_stream(&WebTransportWebStreamId::UnidirectionalRecv(2), close);
    state.close_recv_stream(&WebTransportWebStreamId::Datagrams, close);
    assert_eq!(*log.borrow(), vec![1, 3, 2, 4]);
}

#[test]
fn reads_are_started_and_polled() {
    let mut state = State::new(None);
    state.uni_recv_streams.insert(2, RecvState::new(4));
    let stream = WebTransportWebStreamId::UnidirectionalRecv(2);
    let start = |reader: &u32| reader + 100;
    assert_eq!(
        state.read(&stream, never, start),
        Ok(Err(StreamReadError::Blocked))
    );
    assert_eq!(state.uni_recv_streams[&2].pending_read, Some(104));
    assert_eq!(
        state.read(&stream, never, start),
        Ok(Err(StreamReadError::Blocked))
    );
    let data = |read: &u32| {
        assert_eq!(*read, 104);
        Some(ReadOutcome::Data(vec![1, 2]))
    };
    assert_eq!(
        state.read(&stream, data, start),
        Ok(Ok(Bytes::from_static(&[1, 2])))
    );
    assert_eq!(
        state.read(&WebTransportWebStreamId::UnidirectionalRecv(3), never, start),
        Ok(Err(StreamReadError::Closed))
    );
    assert_eq!(
        state.read(&WebTransportWebStreamId::Datagrams, never, start),
        Err(DatagramsReadError)
    );
}

#[test]
fn datagrams_are_read_once() {
    let mut state = State::new(None);
    state.received_datagrams.push_back(vec![1]);
    state.received_datagrams.push_back(vec![2, 3]);
    state.datagram_queue_offset = 5;
    let start = |reader: &u32| *reader;
    let second = WebTransportWebStreamId::ReceivedDatagram(6);
    let first = WebTransportWebStreamId::ReceivedDatagram(5);
    assert_eq!(
        state.read(&second, never, start),
        Ok(Ok(Bytes::from_static(&[2, 3])))
    );
    assert_eq!(
        state.read(&second, never, start),
        Ok(Err(StreamReadError::Closed))
    );
    assert_eq!(
        state.read(&first, never, start),
        Ok(Ok(Bytes::from_static(&[1])))
    );
    assert_eq!(
        state.read(&first, never, start),
        Ok(Err(StreamReadError::Closed))
    );
    assert_eq!(
        state.read(&WebTransportWebStreamId::ReceivedDatagram(4), never, start),
        Ok(Err(StreamReadError::Closed))
    );
}

#[test]
fn connecting_settles() {
    let mut connection = WebConnection::<u8, u16>::Connecting(1);
    assert!(connection.connected().is_err());
    assert_eq!(connection.settle(None), None);
    assert_eq!(connection.settle(Some(Ok(3))), Some(ConnectionStatus::Established));
    assert_eq!(connection.connected().ok(), Some(&mut 3));
    assert!(matches!(connection.into_open(), Some(Ok(3))));

    let mut connection = WebConnection::<u8, u16>::Connecting(1);
    assert_eq!(
        connection.settle(Some(Err("refused".to_string()))),
        Some(ConnectionStatus::Failed)
    );
    assert!(matches!(&connection, WebConnection::Failed(reason) if reason == "refused"));
    assert!(connection.into_open().is_none());
    assert!(matches!(
        WebConnection::<u8, u16>::Connecting(1).into_open(),
        Some(Err(1))
    ));
    assert!(WebConnection::<u8, u16>::Closed.into_open().is_none());
}
