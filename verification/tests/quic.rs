use bytes::{Bytes, BytesMut};
use nevy::deserialize::ReceivedMessages;
use nevy::net::connection::{
    ClosedStreamError, ConnectionState, ResetStreamError, SendDatagramError, StopStreamError,
    StreamFinishError, StreamId, StreamReadError as NetReadError, StreamWriteError,
    VarIntBoundsExceeded,
};
use nevy::net::headers::{HeaderedStreamState, RecvStreamHeaders};
use nevy::net::messages::{deserialize_messages, MessageRecvStreams};
use nevy::net::senders::{MessageSendStreamState, SenderState};
use nevy::quic::connection::{
    CloseFlagState, ExaustedStreamsError, QuicConnectionContext, QuicConnectionState, QuicError,
    QuicStreamId, SendDatagramReadError,
};
use nevy::quic::datagrams::InvalidDatagramError;
use nevy::quic::endpoint::ConnectionTable;
use nevy::quic::event::{ConnectionEvent, Direction, StreamEvent};
use nevy::quic::peer::{PeerStreamEvent, PeerStreams, StreamEventType};
use nevy::quic::poll::StatusChange;
use nevy::reader::MessageStreamReaders;
use nevy::transport::{
    ConnectionContext, ConnectionStatus, NoConnectionError, StreamReadError, StreamRequirements,
};
use nevy::webtransport::connection::{
    WebTransportConnectionContext, WebTransportError, WebTransportStreamId,
};
use nevy::webtransport::endpoint::{
    get_connection, process_all, WebTransportConnectionState, WebTransportConnections,
};
use nevy::webtransport::h3::{parse_connect_request, H3ControlStream};
use nevy::webtransport::session::{SessionState, WebTransportSession};
use nevy::writer::MessageSenderState;
use quinn_proto::{
    ClientConfig, Connection, ConnectionError, ConnectionHandle, DatagramEvent, Dir, Endpoint,
    EndpointConfig, ServerConfig, TransportConfig,
};
use std::sync::Arc;
use std::time::{Duration, Instant};

const CLIENT: &str = "127.0.0.1:5001";
const SERVER: &str = "127.0.0.1:5002";

/// Two endpoints that exchange packets in memory.
struct Link {
    now: Instant,
    client: Endpoint,
    client_handle: ConnectionHandle,
    server: Endpoint,
    server_handle: ConnectionHandle,
}

fn packets(connection: &mut Connection, now: Instant) -> Vec<BytesMut> {
    let mut packets = Vec::new();
    loop {
        let mut buffer = Vec::new();
        match connection.poll_transmit(now, 1, &mut buffer) {
            Some(transmit) => packets.push(BytesMut::from(&buffer[..transmit.size])),
            None => return packets,
        }
    }
}

fn settle(endpoint: &mut Endpoint, handle: ConnectionHandle, connection: &mut Connection) {
    while let Some(event) = connection.poll_endpoint_events() {
        if let Some(event) = endpoint.handle_event(handle, event) {
            connection.handle_event(event);
        }
    }
}

fn expire(connection: &mut Connection, now: Instant) {
    if connection.poll_timeout().is_some_and(|timeout| timeout <= now) {
        connection.handle_timeout(now);
    }
}

impl Link {
    /// Lets both sides exchange packets for a while.
    fn run(&mut self, client: &mut Connection, server: &mut Connection) {
        for _ in 0..80 {
            self.now += Duration::from_millis(1);
            expire(client, self.now);
            expire(server, self.now);
            for packet in packets(client, self.now) {
                let event = self.server.handle(
                    self.now,
                    CLIENT.parse().unwrap(),
                    None,
                    None,
                    packet,
                    &mut Vec::new(),
                );
                if let Some(DatagramEvent::ConnectionEvent(_, event)) = event {
                    server.handle_event(event);
                }
            }
            for packet in packets(server, self.now) {
                let event = self.client.handle(
                    self.now,
                    SERVER.parse().unwrap(),
                    None,
                    None,
                    packet,
                    &mut Vec::new(),
                );
                if let Some(DatagramEvent::ConnectionEvent(_, event)) = event {
                    client.handle_event(event);
                }
            }
            settle(&mut self.client, self.client_handle, client);
            settle(&mut self.server, self.server_handle, server);
        }
    }
}

/// Connects two endpoints. The configuration is that of the server.
fn connect_with(transport: TransportConfig, client_transport: TransportConfig) -> (Link, Connection, Connection) {
    let certified = rcgen::generate_simple_self_signed(vec!["localhost".to_string()]).unwrap();
    let certificate = certified.cert.der().clone();
    let key = rustls::pki_types::PrivatePkcs8KeyDer::from(certified.key_pair.serialize_der());
    let mut server_config =
        ServerConfig::with_single_cert(vec![certificate.clone()], key.into()).unwrap();
    server_config.transport_config(Arc::new(transport));
    let mut roots = rustls::RootCertStore::empty();
    roots.add(certificate).unwrap();
    let mut client_config = ClientConfig::with_root_certificates(Arc::new(roots)).unwrap();
    client_config.transport_config(Arc::new(client_transport));

    let config = Arc::new(EndpointConfig::default());
    let now = Instant::now();
    let mut client = Endpoint::new(config.clone(), None, true, None);
    let mut server = Endpoint::new(config, Some(Arc::new(server_config)), true, None);
    let (client_handle, mut client_connection) = client
        .connect(now, client_config, SERVER.parse().unwrap(), "localhost")
        .unwrap();

    let first = packets(&mut client_connection, now).remove(0);
    let event = server.handle(
        now,
        CLIENT.parse().unwrap(),
        None,
        None,
        first,
        &mut Vec::new(),
    );
    let Some(DatagramEvent::NewConnection(incoming)) = event else {
        panic!("no connection");
    };
    let (server_handle, mut server_connection) = server
        .accept(incoming, now, &mut Vec::new(), None)
        .ok()
        .unwrap();
    let mut link = Link {
        now,
        client,
        client_handle,
        server,
        server_handle,
    };
    link.run(&mut client_connection, &mut server_connection);
    (link, client_connection, server_connection)
}

fn connect() -> (Link, Connection, Connection) {
    connect_with(TransportConfig::default(), TransportConfig::default())
}

fn quic() -> (Link, QuicConnectionState, QuicConnectionState) {
    let (link, client, server) = connect();
    (
        link,
        QuicConnectionState::new(1, client),
        QuicConnectionState::new(2, server),
    )
}

fn net() -> (Link, ConnectionState, ConnectionState) {
    let (link, client, server) = connect();
    (
        link,
        ConnectionState::new(1, client),
        ConnectionState::new(2, server),
    )
}

fn statuses(changes: Vec<StatusChange>) -> Vec<ConnectionStatus> {
    changes.into_iter().map(|(status, _)| status).collect()
}

const ORDERED: StreamRequirements = StreamRequirements {
    reliable: true,
    ordered: true,
    bidirectional: false,
};

#[test]
fn quic_streams() {
    let (mut link, mut client, mut server) = quic();
    let mut out = QuicConnectionContext {
        connection: &mut client,
    };
    let stream = out.new_stream(ORDERED).unwrap();
    assert_eq!(stream, QuicStreamId::Stream(2));
    assert_eq!(out.write(&stream, Bytes::from_static(b"hello "), true), Ok(6));
    assert_eq!(out.write(&stream, Bytes::from_static(b"world"), true), Ok(5));
    assert!(!out.all_data_sent());
    link.run(&mut client.connection, &mut server.connection);

    let mut into = QuicConnectionContext {
        connection: &mut server,
    };
    assert_eq!(into.accept_stream(), Some((stream, ORDERED)));
    assert_eq!(into.accept_stream(), None);
    let mut received = Vec::new();
    while let Ok(data) = into.read(&stream).unwrap() {
        received.extend_from_slice(&data);
    }
    assert_eq!(received, b"hello world");
    assert_eq!(into.read(&stream), Ok(Err(StreamReadError::Blocked)));

    let mut out = QuicConnectionContext {
        connection: &mut client,
    };
    assert_eq!(out.close_send_stream(&stream, true), Ok(()));
    assert_eq!(
        out.write(&stream, Bytes::from_static(b"late"), true),
        Err(QuicError::WriteClosed)
    );
    assert_eq!(out.close_send_stream(&stream, true), Ok(()));
    link.run(&mut client.connection, &mut server.connection);
    let mut into = QuicConnectionContext {
        connection: &mut server,
    };
    assert_eq!(into.read(&stream), Ok(Err(StreamReadError::Closed)));
    assert_eq!(into.read(&stream), Ok(Err(StreamReadError::Closed)));
    link.run(&mut client.connection, &mut server.connection);
    let mut out = QuicConnectionContext {
        connection: &mut client,
    };
    assert!(out.all_data_sent());
}

#[test]
fn quic_streams_in_both_directions() {
    let (mut link, mut client, mut server) = quic();
    let both = ORDERED.with_bidirectional(true);
    let stream = QuicConnectionContext {
        connection: &mut client,
    }
    .new_stream(both)
    .unwrap();
    assert_eq!(stream, QuicStreamId::Stream(0));
    let mut out = QuicConnectionContext {
        connection: &mut client,
    };
    assert_eq!(out.write(&stream, Bytes::from_static(b"ask"), true), Ok(3));
    link.run(&mut client.connection, &mut server.connection);
    let mut into = QuicConnectionContext {
        connection: &mut server,
    };
    assert_eq!(into.accept_stream(), Some((stream, both)));
    assert_eq!(into.read(&stream), Ok(Ok(Bytes::from_static(b"ask"))));
    assert_eq!(into.write(&stream, Bytes::from_static(b"answer"), true), Ok(6));
    link.run(&mut client.connection, &mut server.connection);
    let mut out = QuicConnectionContext {
        connection: &mut client,
    };
    assert_eq!(out.read(&stream), Ok(Ok(Bytes::from_static(b"answer"))));
}

#[test]
fn stopped_and_reset_quic_streams() {
    let (mut link, mut client, mut server) = quic();
    let mut out = QuicConnectionContext {
        connection: &mut client,
    };
    let stopped = out.new_stream(ORDERED).unwrap();
    let reset = out.new_stream(ORDERED).unwrap();
    out.write(&stopped, Bytes::from_static(b"x"), true).unwrap();
    out.write(&reset, Bytes::from_static(b"y"), true).unwrap();
    link.run(&mut client.connection, &mut server.connection);
    let mut into = QuicConnectionContext {
        connection: &mut server,
    };
    into.accept_stream().unwrap();
    into.accept_stream().unwrap();
    assert_eq!(into.close_recv_stream(&stopped), Ok(()));
    assert_eq!(into.read(&stopped), Ok(Err(StreamReadError::Closed)));
    let mut out = QuicConnectionContext {
        connection: &mut client,
    };
    assert_eq!(out.close_send_stream(&reset, false), Ok(()));
    link.run(&mut client.connection, &mut server.connection);
    let mut out = QuicConnectionContext {
        connection: &mut client,
    };
    assert_eq!(
        out.write(&stopped, Bytes::from_static(b"x"), true),
        Err(QuicError::WriteStopped(0))
    );
    let mut into = QuicConnectionContext {
        connection: &mut server,
    };
    assert_eq!(into.read(&reset), Ok(Err(StreamReadError::Closed)));
}

#[test]
fn quic_datagrams() {
    let (mut link, mut client, mut server) = quic();
    let mut out = QuicConnectionContext {
        connection: &mut client,
    };
    let stream = out.new_stream(StreamRequirements::unreliable()).unwrap();
    assert_eq!(stream, QuicStreamId::Datagrams);
    assert_eq!(out.write(&stream, Bytes::from_static(b"one"), false), Ok(3));
    assert_eq!(out.write(&stream, Bytes::from_static(b"two!"), true), Ok(4));
    assert_eq!(
        out.write(&stream, Bytes::from(vec![0; 100_000]), false),
        Err(QuicError::DatagramTooLarge)
    );
    assert_eq!(
        out.read(&stream),
        Err(QuicError::SendDatagramRead(SendDatagramReadError))
    );
    link.run(&mut client.connection, &mut server.connection);
    let mut into = QuicConnectionContext {
        connection: &mut server,
    };
    let (first, requirements) = into.accept_stream().unwrap();
    assert!(matches!(first, QuicStreamId::ReceivedDatagram(0)));
    assert_eq!(requirements, StreamRequirements::unreliable());
    let (second, _) = into.accept_stream().unwrap();
    assert!(matches!(second, QuicStreamId::ReceivedDatagram(1)));
    assert_eq!(into.accept_stream(), None);
    assert_eq!(into.write(&first, Bytes::from_static(b"x"), false), Ok(0));
    assert_eq!(into.read(&second), Ok(Ok(Bytes::from_static(b"two!"))));
    assert_eq!(into.read(&second), Ok(Err(StreamReadError::Closed)));
    assert_eq!(into.read(&first), Ok(Ok(Bytes::from_static(b"one"))));
    assert_eq!(into.read(&first), Ok(Err(StreamReadError::Closed)));
    assert_eq!(
        into.read(&QuicStreamId::ReceivedDatagram(2)),
        Err(QuicError::InvalidDatagram(InvalidDatagramError))
    );
}

#[test]
fn limits_of_the_peer() {
    let mut transport = TransportConfig::default();
    transport.max_concurrent_uni_streams(0u32.into());
    transport.stream_receive_window(10u32.into());
    transport.datagram_receive_buffer_size(None);
    let (_link, client, server) = connect_with(transport, TransportConfig::default());
    let mut client = QuicConnectionState::new(1, client);
    let mut server = QuicConnectionState::new(2, server);
    let mut out = QuicConnectionContext {
        connection: &mut client,
    };
    assert_eq!(
        out.new_stream(ORDERED),
        Err(QuicError::ExaustedStreams(ExaustedStreamsError))
    );
    let stream = out.new_stream(ORDERED.with_bidirectional(true)).unwrap();
    assert_eq!(out.write(&stream, Bytes::from(vec![1; 25]), true), Ok(10));
    assert_eq!(
        out.write(&stream, Bytes::from(vec![1; 15]), true),
        Err(QuicError::WriteBlocked)
    );
    assert_eq!(
        out.write(&QuicStreamId::Datagrams, Bytes::from_static(b"x"), false),
        Err(QuicError::DatagramsUnsupportedByPeer)
    );
    let mut into = QuicConnectionContext {
        connection: &mut server,
    };
    assert_eq!(
        into.write(&QuicStreamId::Datagrams, Bytes::from_static(b"x"), false),
        Err(QuicError::DatagramsDisabled)
    );
}

#[test]
fn equality_of_quic_streams() {
    assert_eq!(QuicStreamId::Datagrams, QuicStreamId::Datagrams);
    assert_eq!(QuicStreamId::Stream(3), QuicStreamId::Stream(3));
    assert_ne!(QuicStreamId::Stream(3), QuicStreamId::Stream(4));
    assert_ne!(QuicStreamId::Stream(3), QuicStreamId::Datagrams);
    assert_eq!(
        QuicStreamId::ReceivedDatagram(0),
        QuicStreamId::ReceivedDatagram(0)
    );
    assert_ne!(
        QuicStreamId::ReceivedDatagram(0),
        QuicStreamId::ReceivedDatagram(1)
    );
    assert_ne!(QuicStreamId::ReceivedDatagram(3), QuicStreamId::Stream(3));
}

#[test]
fn contexts_can_be_lent() {
    let (_link, mut client, _server) = quic();
    let mut out = QuicConnectionContext {
        connection: &mut client,
    };
    let stream = out.reborrow().new_stream(ORDERED).unwrap();
    assert_eq!(out.write(&stream, Bytes::from_static(b"data"), true), Ok(4));
    out.reborrow().close();
    assert_eq!(client.close, CloseFlagState::Sent);

    let mut session = WebTransportSession::new();
    let mut out = WebTransportConnectionContext {
        connection: &mut client,
        session: &mut session,
    };
    let stream = out.reborrow().new_stream(ORDERED).unwrap();
    assert_eq!(out.write(&stream, Bytes::from_static(b"more"), true), Ok(4));
}

#[test]
fn datagrams_go_one_way() {
    let (_link, mut client, _server) = quic();
    let both = StreamRequirements::unreliable().with_bidirectional(true);
    let mut out = QuicConnectionContext {
        connection: &mut client,
    };
    assert_eq!(
        out.new_stream(StreamRequirements::unreliable()),
        Ok(QuicStreamId::Datagrams)
    );
    let stream = out.new_stream(both).unwrap();
    assert_eq!(stream, QuicStreamId::Stream(0));
    assert_eq!(out.read(&stream), Ok(Err(StreamReadError::Blocked)));

    let mut session = WebTransportSession {
        session_id: 9,
        request_stream_id: Some(36),
        state: SessionState::Established,
    };
    let mut out = WebTransportConnectionContext {
        connection: &mut client,
        session: &mut session,
    };
    assert_eq!(
        out.new_stream(StreamRequirements::unreliable()),
        Ok(WebTransportStreamId::Datagrams)
    );
    let stream = out.new_stream(both).unwrap();
    assert!(matches!(
        stream,
        WebTransportStreamId::Stream {
            quic_stream_id: 4,
            session_id: 9,
            header_handled: true
        }
    ));
    assert_eq!(out.read(&stream), Ok(Err(StreamReadError::Blocked)));
}

#[test]
fn closing_a_quic_connection() {
    let (mut link, mut client, mut server) = quic();
    assert_eq!(statuses(client.poll_events()), vec![ConnectionStatus::Established]);
    assert!(client.poll_events().is_empty());
    assert_eq!(client.close_if_requested(link.now), None);
    assert!(!client.connection.is_closed());
    QuicConnectionContext {
        connection: &mut client,
    }
    .close();
    assert_eq!(client.close, CloseFlagState::Sent);
    QuicConnectionContext {
        connection: &mut client,
    }
    .close();
    assert_eq!(
        client.close_if_requested(link.now),
        Some(ConnectionStatus::Closed)
    );
    assert_eq!(client.close, CloseFlagState::Received);
    assert!(client.connection.is_closed());
    assert_eq!(client.take_close_request(), None);

    link.run(&mut client.connection, &mut server.connection);
    let changes = server.poll_events();
    assert!(matches!(
        &changes[..],
        [
            (ConnectionStatus::Established, None),
            (ConnectionStatus::Closed, Some(ConnectionError::ApplicationClosed(_)))
        ]
    ));
    let Some(ConnectionError::ApplicationClosed(close)) = &changes[1].1 else {
        panic!("not closed by the peer");
    };
    assert_eq!(close.error_code.into_inner(), 0);
    assert!(close.reason.is_empty());
}

#[test]
fn messages_travel_over_quic() {
    let (mut link, mut client, mut server) = quic();
    let mut sender = MessageSenderState::default();
    let mut readers = MessageStreamReaders::new();
    let mut out = QuicConnectionContext {
        connection: &mut client,
    };
    for number in 0..50u8 {
        let message = vec![number; number as usize * 10 + 1];
        assert_eq!(sender.write(1, &mut out, ORDERED, 3, true, &message), Ok(true));
    }
    link.run(&mut client.connection, &mut server.connection);
    let mut into = QuicConnectionContext {
        connection: &mut server,
    };
    readers.accept_streams(&mut into);
    assert_eq!(readers.read_streams(&mut into), Ok(()));
    for number in 0..50u8 {
        let message = vec![number; number as usize * 10 + 1];
        assert_eq!(readers.next_message(3), Some(message));
    }
    assert_eq!(readers.next_message(3), None);
}

#[test]
fn peers_are_told_of_streams() {
    let (mut link, mut client, mut server) = connect();
    let uni = client.streams().open(Dir::Uni).unwrap();
    let bi = client.streams().open(Dir::Bi).unwrap();
    client.send_stream(uni).write(b"x").unwrap();
    client.send_stream(bi).write(b"y").unwrap();
    link.run(&mut client, &mut server);
    let mut peer = PeerStreams::new();
    peer.accept_streams(&mut server);
    let event = |id: quinn_proto::StreamId, event_type| PeerStreamEvent {
        stream_id: id.into(),
        peer_generated: true,
        event_type,
    };
    assert_eq!(
        peer.stream_events,
        vec![
            event(uni, StreamEventType::NewRecvStream),
            event(bi, StreamEventType::NewRecvStream),
            event(bi, StreamEventType::NewSendStream),
        ]
    );
    assert_eq!(peer.open_recv_streams.len(), 2);
    assert_eq!(peer.open_send_streams.len(), 1);
    peer.accept_streams(&mut server);
    assert_eq!(peer.stream_events.len(), 3);
}

#[test]
fn tables_of_connections() {
    let (_link, client, server) = connect();
    let mut table = ConnectionTable::default();
    table.insert(7, QuicConnectionState::new(1, client));
    table.insert(8, QuicConnectionState::new(2, server));
    assert_eq!(table.find(2), Some(8));
    assert_eq!(table.find(3), None);
    assert_eq!(table.get_connection(1).unwrap().connection_entity, 1);
    assert!(table.get_connection(7).is_none());
    assert_eq!(table.get_by_handle(7).unwrap().connection_entity, 1);
    let mut handles = table.all_handles();
    handles.sort();
    assert_eq!(handles, vec![7, 8]);
    assert_eq!(table.remove_state(7).unwrap().connection_entity, 1);
    assert!(table.get_by_handle(7).is_none());
    table.remove_handle(2);
    assert!(table.get_connection(2).is_none());
    assert_eq!(table.find(2), Some(8));
}

#[test]
fn net_streams() {
    let (mut link, mut client, mut server) = net();
    let stream = client.open_stream(Direction::Uni).unwrap();
    assert_eq!(stream, StreamId(2));
    assert_eq!(client.get_send_stream_priority(stream), Ok(0));
    assert_eq!(client.set_send_stream_priority(stream, -3), Ok(()));
    assert_eq!(client.get_send_stream_priority(stream), Ok(-3));
    assert_eq!(client.write_send_stream(stream, b"abcdef"), Ok(6));
    assert_eq!(client.get_open_send_streams(), 1);
    assert_eq!(client.send_stream_stopped(stream), Ok(None));
    link.run(&mut client.connection, &mut server.connection);

    assert_eq!(server.get_open_remote_streams(Direction::Uni), 1);
    assert_eq!(server.get_open_remote_streams(Direction::Bi), 0);
    assert_eq!(server.accept_stream(Direction::Bi), None);
    assert_eq!(server.accept_stream(Direction::Uni), Some(stream));
    let chunk = server.read_recv_stream(stream, 4, true).unwrap().unwrap();
    assert_eq!((chunk.offset, chunk.data), (0, b"abcd".to_vec()));
    let chunk = server.read_recv_stream(stream, 4, true).unwrap().unwrap();
    assert_eq!((chunk.offset, chunk.data), (4, b"ef".to_vec()));
    assert_eq!(
        server.read_recv_stream(stream, 4, true),
        Err(NetReadError::Blocked)
    );

    assert_eq!(client.finish_send_stream(stream), Ok(()));
    assert_eq!(
        client.finish_send_stream(stream),
        Err(StreamFinishError::ClosedStream(ClosedStreamError))
    );
    assert_eq!(
        client.write_send_stream(stream, b"x"),
        Err(StreamWriteError::ClosedStream(ClosedStreamError))
    );
    link.run(&mut client.connection, &mut server.connection);
    assert_eq!(server.read_recv_stream(stream, 4, true), Ok(None));
    assert_eq!(
        server.read_recv_stream(stream, 4, true),
        Err(NetReadError::ClosedStream(ClosedStreamError))
    );
    assert_eq!(
        server.stop_recv_stream(stream, 1),
        Err(StopStreamError::ClosedStream(ClosedStreamError))
    );
    link.run(&mut client.connection, &mut server.connection);
    assert_eq!(client.get_open_send_streams(), 0);
    assert_eq!(
        client.set_send_stream_priority(stream, 1),
        Err(ClosedStreamError)
    );
    assert_eq!(client.get_send_stream_priority(stream), Err(ClosedStreamError));
    assert_eq!(client.send_stream_stopped(stream), Err(ClosedStreamError));
}

#[test]
fn net_streams_that_break_off() {
    let (mut link, mut client, mut server) = net();
    let stopped = client.open_stream(Direction::Uni).unwrap();
    let reset = client.open_stream(Direction::Uni).unwrap();
    let unordered = client.open_stream(Direction::Uni).unwrap();
    for stream in [stopped, reset, unordered] {
        assert_eq!(client.write_send_stream(stream, b"data"), Ok(4));
    }
    link.run(&mut client.connection, &mut server.connection);
    for stream in [stopped, reset, unordered] {
        assert_eq!(server.accept_stream(Direction::Uni), Some(stream));
    }
    assert_eq!(
        server.stop_recv_stream(stopped, 1 << 62),
        Err(StopStreamError::InvalidCode(VarIntBoundsExceeded))
    );
    assert_eq!(server.stop_recv_stream(stopped, 17), Ok(()));
    assert_eq!(
        client.reset_send_stream(reset, 1 << 62),
        Err(ResetStreamError::InvalidCode(VarIntBoundsExceeded))
    );
    assert_eq!(client.reset_send_stream(reset, 18), Ok(()));
    assert_eq!(
        client.reset_send_stream(reset, 18),
        Err(ResetStreamError::ClosedStream(ClosedStreamError))
    );
    link.run(&mut client.connection, &mut server.connection);
    assert_eq!(client.send_stream_stopped(stopped), Ok(Some(17)));
    assert_eq!(
        client.write_send_stream(stopped, b"x"),
        Err(StreamWriteError::Stopped(17))
    );
    assert_eq!(
        client.finish_send_stream(stopped),
        Err(StreamFinishError::Stopped(17))
    );
    assert_eq!(
        server.read_recv_stream(reset, 10, true),
        Err(NetReadError::Reset(18))
    );
    let chunk = server.read_recv_stream(unordered, 2, false).unwrap().unwrap();
    assert_eq!((chunk.offset, chunk.data), (0, b"da".to_vec()));
    assert_eq!(
        server.read_recv_stream(unordered, 10, true),
        Err(NetReadError::IllegalOrderedRead)
    );
    // The ordered read drops the stream.
    assert_eq!(
        server.read_recv_stream(unordered, 10, true),
        Err(NetReadError::ClosedStream(ClosedStreamError))
    );
    assert_eq!(
        server.read_recv_stream(unordered, 10, false),
        Err(NetReadError::ClosedStream(ClosedStreamError))
    );
}

#[test]
fn net_reads_out_of_order() {
    let (mut link, mut client, mut server) = net();
    let stream = client.open_stream(Direction::Uni).unwrap();
    assert_eq!(client.write_send_stream(stream, b"abcdef"), Ok(6));
    assert_eq!(client.finish_send_stream(stream), Ok(()));
    link.run(&mut client.connection, &mut server.connection);
    assert_eq!(server.accept_stream(Direction::Uni), Some(stream));
    let chunk = server.read_recv_stream(stream, 4, false).unwrap().unwrap();
    assert_eq!((chunk.offset, chunk.data), (0, b"abcd".to_vec()));
    let chunk = server.read_recv_stream(stream, 4, false).unwrap().unwrap();
    assert_eq!((chunk.offset, chunk.data), (4, b"ef".to_vec()));
    assert_eq!(server.read_recv_stream(stream, 4, false), Ok(None));
    assert_eq!(
        server.read_recv_stream(stream, 4, false),
        Err(NetReadError::ClosedStream(ClosedStreamError))
    );
}

#[test]
fn net_datagrams_that_are_refused() {
    let mut disabled = TransportConfig::default();
    disabled.datagram_receive_buffer_size(None);
    let mut small = TransportConfig::default();
    small.datagram_send_buffer_size(1);
    let (_link, client, server) = connect_with(disabled, small);
    let mut client = ConnectionState::new(1, client);
    let mut server = ConnectionState::new(2, server);
    assert_eq!(client.get_datagram_max_size(), None);
    assert_eq!(
        client.send_datagram(vec![1], true),
        Err(SendDatagramError::UnsupportedByPeer)
    );
    assert_eq!(
        server.send_datagram(vec![1], true),
        Err(SendDatagramError::Disabled)
    );
    let mut small = TransportConfig::default();
    small.datagram_send_buffer_size(1);
    let (_link, client, _server) = connect_with(TransportConfig::default(), small);
    let mut client = ConnectionState::new(1, client);
    assert_eq!(client.get_datagram_send_buffer_space(), 0);
    assert_eq!(
        client.send_datagram(vec![], true),
        Err(SendDatagramError::TooLarge)
    );
}

#[test]
fn net_datagrams() {
    let mut transport = TransportConfig::default();
    transport.datagram_send_buffer_size(300);
    let (mut link, client, server) = connect_with(TransportConfig::default(), transport);
    let mut client = ConnectionState::new(1, client);
    let mut server = ConnectionState::new(2, server);
    let max = client.get_datagram_max_size().unwrap();
    assert!(max > 1000);
    let space = client.get_datagram_send_buffer_space();
    assert!(0 < space && space < 300);
    assert_eq!(
        client.send_datagram(vec![1; max + 1], false),
        Err(SendDatagramError::TooLarge)
    );
    assert_eq!(
        client.send_datagram(vec![1; space + 1], true),
        Err(SendDatagramError::TooLarge)
    );
    assert_eq!(client.send_datagram(vec![1; space], false), Ok(()));
    assert_eq!(
        client.send_datagram(vec![2; space], false),
        Err(SendDatagramError::Blocked(vec![2; space]))
    );
    link.run(&mut client.connection, &mut server.connection);
    assert_eq!(server.receive_datagram(), Some(vec![1; space]));
    assert_eq!(server.receive_datagram(), None);
    assert_eq!(client.send_datagram(vec![3], false), Ok(()));
    assert_eq!(client.send_datagram(vec![4; space], true), Ok(()));
    link.run(&mut client.connection, &mut server.connection);
    assert_eq!(server.receive_datagram(), Some(vec![4; space]));
}

#[test]
fn net_limits_on_streams() {
    let (mut link, mut client, mut server) = net();
    assert_eq!(
        server.set_max_concurrent_streams(Direction::Bi, 1 << 62),
        Err(VarIntBoundsExceeded)
    );
    for _ in 0..100 {
        assert!(client.open_stream(Direction::Bi).is_some());
    }
    assert_eq!(client.open_stream(Direction::Bi), None);
    assert_eq!(server.set_max_concurrent_streams(Direction::Bi, 130), Ok(()));
    link.run(&mut client.connection, &mut server.connection);
    for _ in 0..30 {
        assert!(client.open_stream(Direction::Bi).is_some());
    }
    assert_eq!(client.open_stream(Direction::Bi), None);
}

#[test]
fn net_closing() {
    let (mut link, mut client, mut server) = net();
    assert_eq!(client.close(1 << 62, vec![]), Err(VarIntBoundsExceeded));
    assert_eq!(client.take_close(), None);
    assert_eq!(client.close(5, b"bye".to_vec()), Ok(()));
    assert_eq!(client.close(6, b"again".to_vec()), Ok(()));
    assert_eq!(client.close, Some((5, b"bye".to_vec())));
    assert_eq!(
        client.close_if_requested(link.now),
        Some(ConnectionStatus::Closed)
    );
    assert_eq!(client.close_if_requested(link.now), None);
    // A closed connection is not closed again.
    assert_eq!(client.close(7, vec![]), Ok(()));
    assert_eq!(client.take_close(), None);
    link.run(&mut client.connection, &mut server.connection);
    let changes = server.poll_events();
    assert!(matches!(&changes[0], (ConnectionStatus::Established, None)));
    let (status, Some(ConnectionError::ApplicationClosed(close))) = &changes[1] else {
        panic!("not closed by the peer");
    };
    assert_eq!(*status, ConnectionStatus::Closed);
    assert_eq!(close.error_code.into_inner(), 5);
    assert_eq!(&close.reason[..], b"bye");
}

#[test]
fn net_stream_events() {
    let (mut link, mut client, mut server) = net();
    let stream = client.open_stream(Direction::Uni).unwrap();
    client.write_send_stream(stream, b"x").unwrap();
    link.run(&mut client.connection, &mut server.connection);
    server.poll_events();
    let mut events = Vec::new();
    while let Some(event) = server.poll_stream_event() {
        events.push(event);
    }
    assert!(events.contains(&StreamEvent::Opened {
        direction: Direction::Uni
    }));
    assert!(server.poll_stream_event().is_none());

    assert_eq!(server.accept_stream(Direction::Uni), Some(stream));
    server.stop_recv_stream(stream, 9).unwrap();
    client.poll_events();
    client.stream_events.clear();
    link.run(&mut client.connection, &mut server.connection);
    client.poll_events();
    assert_eq!(
        client.stream_events,
        vec![StreamEvent::Stopped {
            id: stream.0,
            error_code: 9
        }]
    );
    client.write_send_stream(stream, b"more").unwrap_err();
    let other = client.open_stream(Direction::Bi).unwrap();
    client.write_send_stream(other, b"x").unwrap();
    client.finish_send_stream(other).unwrap();
    link.run(&mut client.connection, &mut server.connection);
    server.poll_events();
    assert_eq!(
        server.poll_stream_event(),
        Some(StreamEvent::Opened {
            direction: Direction::Bi
        })
    );
    client.stream_events.clear();
    client.poll_events();
    assert_eq!(
        client.stream_events,
        vec![StreamEvent::Finished { id: other.0 }]
    );
}

#[test]
fn net_headers_and_messages() {
    let (mut link, mut client, mut server) = net();
    let mut sender = SenderState::default();
    for message in [&b"one"[..], b"two"] {
        assert_eq!(
            sender.write_with_header(0x0102, 9, &mut client, 4, true, message),
            Ok(true)
        );
    }
    assert_eq!(
        sender.write_with_header(0x0102, 9, &mut client, 5, false, b"other"),
        Ok(true)
    );
    assert_eq!(sender.entities(), vec![9]);
    assert_eq!(sender.flush(9, &mut client), Ok(()));

    let other = client.open_stream(Direction::Bi).unwrap();
    let mut headered = HeaderedStreamState::new(other, 7);
    assert_eq!(headered.write(&mut client, b"rest"), Ok(4));
    link.run(&mut client.connection, &mut server.connection);

    let mut headers = RecvStreamHeaders::default();
    assert_eq!(headers.read_stream_headers(&mut server), Ok(()));
    assert_eq!(headers.take_stream(8), None);
    assert_eq!(headers.take_stream(7), Some((other, Direction::Bi)));
    assert_eq!(headers.take_stream(7), None);
    let rest = server.read_recv_stream(other, 10, true).unwrap().unwrap();
    assert_eq!(rest.data, b"rest".to_vec());

    let mut streams = MessageRecvStreams::default();
    streams.take_message_streams(&mut headers, 0x0102);
    assert_eq!(streams.streams.len(), 1);
    assert_eq!(streams.read_message_streams(&mut server), Ok(()));
    let mut texts = ReceivedMessages::default();
    deserialize_messages(
        &mut streams.messages,
        &mut texts,
        4,
        |bytes: &Vec<u8>| String::from_utf8(bytes.clone()).ok(),
    );
    assert_eq!(texts.drain(), vec!["one".to_string(), "two".to_string()]);
    assert_eq!(streams.messages.next_message(5), Some(b"other".to_vec()));
    assert_eq!(streams.messages.next_message(5), None);

    assert_eq!(sender.finish_if_uncongested(9, &mut client), Ok(true));
    assert_eq!(sender.finish_if_uncongested(9, &mut client), Ok(false));
    assert!(sender.entities().is_empty());
    link.run(&mut client.connection, &mut server.connection);
    assert_eq!(streams.read_message_streams(&mut server), Ok(()));
    assert!(streams.streams.is_empty());
}

#[test]
fn congested_net_streams_keep_messages() {
    let mut transport = TransportConfig::default();
    transport.stream_receive_window(8u32.into());
    let (mut link, client, server) = connect_with(transport, TransportConfig::default());
    let mut client = ConnectionState::new(1, client);
    let mut server = ConnectionState::new(2, server);
    let stream = client.open_stream(Direction::Uni).unwrap();
    let mut state = MessageSendStreamState::new(stream, 3);
    assert_eq!(state.stream_id(), stream);
    // Two bytes of header and six of the ten that make up the message.
    assert_eq!(state.write(1, &mut client, b"abcdef", true), Ok(true));
    assert!(!state.uncongested());
    assert_eq!(state.buffer, b"cdef".to_vec());
    assert_eq!(state.write(1, &mut client, b"x", false), Ok(false));
    assert_eq!(state.write(1, &mut client, &[0; 65536], false), Ok(false));
    assert_eq!(state.write(1, &mut client, b"x", true), Ok(true));
    assert_eq!(state.buffer.len(), 9);

    let mut headers = RecvStreamHeaders::default();
    let mut streams = MessageRecvStreams::default();
    for _ in 0..5 {
        link.run(&mut client.connection, &mut server.connection);
        assert_eq!(headers.read_stream_headers(&mut server), Ok(()));
        streams.take_message_streams(&mut headers, 3);
        assert_eq!(streams.read_message_streams(&mut server), Ok(()));
        link.run(&mut client.connection, &mut server.connection);
        assert_eq!(state.flush(&mut client), Ok(()));
    }
    assert!(state.uncongested());
    assert_eq!(streams.messages.next_message(1), Some(b"abcdef".to_vec()));
    assert_eq!(streams.messages.next_message(1), Some(b"x".to_vec()));
}

fn webtransport() -> (Link, WebTransportConnectionState, WebTransportConnectionState) {
    let (link, client, server) = quic();
    (
        link,
        WebTransportConnectionState::new(client, Some("/game".to_string())),
        WebTransportConnectionState::new(server, None),
    )
}

#[test]
fn webtransport_handshake() {
    let (mut link, mut client, mut server) = webtransport();
    assert!(client.poll_events().is_empty());
    assert!(server.poll_events().is_empty());
    assert_eq!(client.control_stream_send, Some(2));
    assert_eq!(server.control_stream_send, Some(3));
    link.run(&mut client.quic.connection, &mut server.quic.connection);
    assert!(client.process_h3_protocol().is_empty());
    assert!(server.process_h3_protocol().is_empty());
    assert_eq!(client.session.state, SessionState::AwaitingConnectResponse);
    assert_eq!(client.connect_stream, Some(0));
    assert_eq!(server.session.state, SessionState::SettingsReceived);
    assert!(!server.is_established());

    link.run(&mut client.quic.connection, &mut server.quic.connection);
    assert_eq!(
        server.process_h3_protocol(),
        vec![ConnectionStatus::Established]
    );
    assert!(server.is_established());
    assert_eq!(server.requested_path.as_deref(), Some("/game"));
    assert_eq!(server.session.session_id, client.session.session_id);
    assert_eq!(server.session.request_stream_id, Some(0));

    // The answer is on the request stream.
    link.run(&mut client.quic.connection, &mut server.quic.connection);
    assert_eq!(
        client.process_h3_protocol(),
        vec![ConnectionStatus::Established]
    );
    assert!(client.is_established());
    assert!(client.process_h3_protocol().is_empty());
    assert!(server.process_h3_protocol().is_empty());
    assert!(client.is_established() && server.is_established());
}

#[test]
fn answers_of_a_webtransport_server() {
    let (mut link, mut client, mut server) = webtransport();
    client.open_control_stream();
    server.open_control_stream();
    link.run(&mut client.quic.connection, &mut server.quic.connection);
    client.process_h3_protocol();
    link.run(&mut client.quic.connection, &mut server.quic.connection);
    server.process_h3_protocol();
    link.run(&mut client.quic.connection, &mut server.quic.connection);
    let mut out = QuicConnectionContext {
        connection: &mut client.quic,
    };
    let answer = out.read(&QuicStreamId::Stream(0)).unwrap().unwrap();
    assert_eq!(
        answer,
        nevy::webtransport::h3::encode_connect_response().unwrap()
    );
}

/// A response with a status, whose block is longer than its fields are large.
fn long_response(status: &str) -> Vec<u8> {
    let rare: String = "\u{1}\u{2}\u{3}\u{4}\u{5}".repeat(40);
    let fields = [
        qpack::HeaderField::new(":status", status),
        qpack::HeaderField::new("x", rare.as_str()),
    ];
    let mut block = Vec::new();
    qpack::encode_stateless(&mut block, &fields).unwrap();
    let mut frame = vec![1, 0x40 | (block.len() >> 8) as u8, block.len() as u8];
    frame.extend(block);
    frame
}

#[test]
fn webtransport_responses() {
    let (_link, mut client, _server) = webtransport();
    client.session.state = SessionState::AwaitingConnectResponse;
    assert_eq!(client.receive_response(&[]), None);
    assert_eq!(client.receive_response(&[4, 0]), None);
    assert_eq!(client.session.state, SessionState::AwaitingConnectResponse);
    assert_eq!(
        client.receive_response(&long_response("404")),
        Some(ConnectionStatus::Failed)
    );
    assert_eq!(client.session.state, SessionState::Closed);
    assert_eq!(
        client.receive_response(&long_response("200")),
        Some(ConnectionStatus::Established)
    );
    assert!(client.is_established());
}

#[test]
fn webtransport_control_data() {
    let (mut link, mut client, mut server) = webtransport();
    assert_eq!(client.receive_control(Bytes::new()), None);
    assert_eq!(client.receive_control(Bytes::from_static(&[0, 4, 0])), None);
    assert_eq!(client.session.state, SessionState::AwaitingSettings);
    let settings = H3ControlStream::create_settings_frame();
    assert_eq!(client.receive_control(settings.slice(1..)), Some(0));
    assert_eq!(client.session.state, SessionState::AwaitingConnectResponse);
    assert_eq!(server.receive_control(settings), None);
    assert_eq!(server.session.state, SessionState::SettingsReceived);

    // The request is for the address that the client is connected to.
    link.run(&mut client.quic.connection, &mut server.quic.connection);
    let mut into = QuicConnectionContext {
        connection: &mut server.quic,
    };
    let (stream, _) = into.accept_stream().unwrap();
    assert_eq!(stream, QuicStreamId::Stream(0));
    let request = into.read(&stream).unwrap().unwrap();
    assert_eq!(
        parse_connect_request(&request),
        Ok((
            SERVER.to_string(),
            "/game".to_string(),
            "webtransport".to_string()
        ))
    );
    assert_eq!(
        server.handle_event(ConnectionEvent::ConnectionLost),
        Some(ConnectionStatus::Closed)
    );
}

#[test]
fn webtransport_tables() {
    let (mut link, mut client, mut server) = webtransport();
    client.open_control_stream();
    server.open_control_stream();
    link.run(&mut client.quic.connection, &mut server.quic.connection);
    client.process_h3_protocol();
    link.run(&mut client.quic.connection, &mut server.quic.connection);
    let mut table = WebTransportConnections::default();
    table.insert(4, server);
    assert_eq!(
        get_connection(&mut table, 2).ok().unwrap().session.state,
        SessionState::AwaitingSettings
    );
    assert!(matches!(get_connection(&mut table, 4), Err(NoConnectionError)));
    assert_eq!(
        process_all(&mut table),
        vec![(4, vec![ConnectionStatus::Established])]
    );
    assert_eq!(
        get_connection(&mut table, 2).ok().unwrap().session.state,
        SessionState::Established
    );
}

#[test]
fn webtransport_streams_and_datagrams() {
    let (mut link, mut client, mut server) = quic();
    let mut sessions = [(); 2].map(|_| WebTransportSession {
        session_id: 9,
        request_stream_id: Some(36),
        state: SessionState::Established,
    });
    let [client_session, server_session] = &mut sessions;
    let mut out = WebTransportConnectionContext {
        connection: &mut client,
        session: client_session,
    };
    let stream = out.new_stream(ORDERED).unwrap();
    assert_eq!(out.write(&stream, Bytes::from_static(b"data"), true), Ok(4));
    assert_eq!(
        out.write(
            &WebTransportStreamId::Datagrams,
            Bytes::from_static(b"datagram"),
            true
        ),
        Ok(8)
    );
    assert_eq!(
        out.read(&WebTransportStreamId::Datagrams),
        Err(WebTransportError::SendDatagramRead(
            nevy::webtransport::connection::SendDatagramReadError
        ))
    );
    assert_eq!(out.close_send_stream(&stream, true), Ok(()));
    assert_eq!(
        out.write(&stream, Bytes::from_static(b"late"), true),
        Err(WebTransportError::Quic(QuicError::WriteClosed))
    );
    link.run(&mut client.connection, &mut server.connection);

    // The stream starts with its type and the session id.
    let mut plain = QuicConnectionContext {
        connection: &mut server,
    };
    let (quic_stream, _) = plain.accept_stream().unwrap();
    let mut received = Vec::new();
    while let Ok(data) = plain.read(&quic_stream).unwrap() {
        received.extend_from_slice(&data);
    }
    assert_eq!(received, b"\x54\x09data");

    let mut into = WebTransportConnectionContext {
        connection: &mut server,
        session: server_session,
    };
    let (datagram, requirements) = into.accept_stream().unwrap();
    assert!(matches!(datagram, WebTransportStreamId::ReceivedDatagram(0)));
    assert_eq!(requirements, StreamRequirements::unreliable());
    assert_eq!(
        into.read(&datagram),
        Ok(Ok(Bytes::from_static(b"datagram")))
    );
    assert_eq!(into.read(&datagram), Ok(Err(StreamReadError::Closed)));
    assert_eq!(
        into.read(&WebTransportStreamId::ReceivedDatagram(5)),
        Err(WebTransportError::InvalidDatagram(InvalidDatagramError))
    );
}

#[test]
fn what_follows_a_webtransport_header_is_read() {
    let (mut link, mut client, mut server) = quic();
    let uni = client.connection.streams().open(Dir::Uni).unwrap();
    let bi = client.connection.streams().open(Dir::Bi).unwrap();
    let mut data = vec![0x40, 0x54, 9];
    data.extend_from_slice(b"more than sixteen bytes of payload");
    client.connection.send_stream(uni).write(&data).unwrap();
    client.connection.send_stream(bi).write(b"\x40\x41\x40").unwrap();
    client.connection.send_stream(bi).write(b"\x09short").unwrap();
    link.run(&mut client.connection, &mut server.connection);
    let mut session = WebTransportSession {
        session_id: 9,
        request_stream_id: None,
        state: SessionState::Established,
    };
    let mut into = WebTransportConnectionContext {
        connection: &mut server,
        session: &mut session,
    };
    for payload in [&b"more than sixteen bytes of payload"[..], b"short"] {
        let (stream, _) = into.accept_stream().unwrap();
        let mut received = Vec::new();
        while let Ok(data) = into.read(&stream).unwrap() {
            received.extend_from_slice(&data);
        }
        assert_eq!(received, payload);
    }
}

#[test]
fn webtransport_streams_without_a_header_are_passed_over() {
    let (mut link, mut client, mut server) = quic();
    let uni = client.connection.streams().open(Dir::Uni).unwrap();
    client.connection.send_stream(uni).write(&[0x40, 0x54]).unwrap();
    link.run(&mut client.connection, &mut server.connection);
    let mut session = WebTransportSession {
        session_id: 9,
        request_stream_id: None,
        state: SessionState::Established,
    };
    let mut into = WebTransportConnectionContext {
        connection: &mut server,
        session: &mut session,
    };
    assert_eq!(into.accept_stream(), None);
    assert_eq!(into.accept_stream(), None);
}

#[test]
fn webtransport_streams_with_a_header_are_accepted() {
    let (mut link, mut client, mut server) = quic();
    let uni = client.connection.streams().open(Dir::Uni).unwrap();
    let bi = client.connection.streams().open(Dir::Bi).unwrap();
    let strange = client.connection.streams().open(Dir::Uni).unwrap();
    client.connection.send_stream(uni).write(&[0x40, 0x54, 9]).unwrap();
    client.connection.send_stream(bi).write(&[0x40, 0x41, 9]).unwrap();
    client.connection.send_stream(strange).write(&[0x40, 0x54, 8]).unwrap();
    link.run(&mut client.connection, &mut server.connection);
    let mut session = WebTransportSession {
        session_id: 9,
        request_stream_id: None,
        state: SessionState::Established,
    };
    let mut into = WebTransportConnectionContext {
        connection: &mut server,
        session: &mut session,
    };
    let (stream, requirements) = into.accept_stream().unwrap();
    assert_eq!(
        stream,
        WebTransportStreamId::Stream {
            quic_stream_id: uni.into(),
            session_id: 9,
            header_handled: true
        }
    );
    assert_eq!(requirements, ORDERED);
    // A stream of another session is passed over.
    let (stream, requirements) = into.accept_stream().unwrap();
    assert_eq!(
        stream,
        WebTransportStreamId::Stream {
            quic_stream_id: bi.into(),
            session_id: 9,
            header_handled: true
        }
    );
    assert_eq!(requirements, ORDERED.with_bidirectional(true));
    assert_eq!(into.write(&stream, Bytes::from_static(b"back"), true), Ok(4));
    assert_eq!(into.read(&stream), Ok(Err(StreamReadError::Blocked)));
    assert_eq!(into.close_recv_stream(&stream), Ok(()));
    assert_eq!(into.accept_stream(), None);
    assert!(!into.all_data_sent());
    into.close();
    assert_eq!(server.close, CloseFlagState::Sent);
}
