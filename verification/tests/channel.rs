use bytes::Bytes;
use nevy::channel::conditioner::{
    LinkConditionerConfig, LinkConditionerState, SimpleRng, CERTAIN, ZERO_SEED,
};
use nevy::channel::connection::{
    taken_over, ChannelConnectionContext, ChannelConnectionState, ChannelStreamId,
    FIRST_ACCEPTED_ID,
};
use nevy::channel::endpoint::{
    ChannelConnectionConfig, ChannelEndpoint, CreateOutcome, IncomingChannelConnection,
};
use nevy::channel::message::ChannelMessage;
use nevy::channel::registry::ChannelRegistry;
use nevy::transport::{
    ConnectionContext, ConnectionStatus, StreamReadError, StreamRequirements,
};

const MILLI: u64 = 1_000_000;

fn pair() -> (ChannelConnectionState, ChannelConnectionState) {
    let (left_tx, right_rx) = crossbeam_channel::unbounded();
    let (right_tx, left_rx) = crossbeam_channel::unbounded();
    (
        ChannelConnectionState::new(left_tx, left_rx, None, 1),
        ChannelConnectionState::new(right_tx, right_rx, None, 2),
    )
}

fn datagram(byte: u8) -> ChannelMessage {
    ChannelMessage::Datagram(Bytes::from(vec![byte]))
}

fn bytes_of(messages: Vec<ChannelMessage>) -> Vec<u8> {
    messages
        .into_iter()
        .map(|message| match message {
            ChannelMessage::Datagram(data) => data[0],
            other => panic!("unexpected {:?}", other),
        })
        .collect()
}

fn conditioner(config: LinkConditionerConfig) -> LinkConditionerState {
    LinkConditionerState::new(config, 99)
}

#[test]
fn random_numbers() {
    let mut rng = SimpleRng::new(1);
    assert_eq!(rng.next_u64(), 1082269761);
    assert_eq!(SimpleRng::new(1).next_fraction(), 1082269761 >> 11);
    assert_eq!(SimpleRng::new(1).next_jitter(10), -4);
    assert_eq!(SimpleRng::new(0).state, ZERO_SEED);
    let mut still = SimpleRng::new(5);
    assert_eq!(still.next_jitter(0), 0);
    assert_eq!(still.state, 5);
}

#[test]
fn seeds() {
    let config = LinkConditionerConfig::default();
    assert_eq!(config.seed, None);
    assert_eq!(LinkConditionerState::new(config, 7).rng.state, 7);
    let seeded = LinkConditionerConfig {
        seed: Some(3),
        ..config
    };
    assert_eq!(LinkConditionerState::new(seeded, 7).rng.state, 3);
}

#[test]
fn messages_are_delayed() {
    let mut link = conditioner(LinkConditionerConfig {
        latency_ms: 50,
        ..LinkConditionerConfig::default()
    });
    link.enqueue(datagram(1), 0);
    link.enqueue(datagram(2), MILLI);
    assert!(link.drain_ready(50 * MILLI - 1).is_empty());
    assert_eq!(bytes_of(link.drain_ready(50 * MILLI)), vec![1]);
    assert_eq!(bytes_of(link.drain_ready(51 * MILLI)), vec![2]);
    assert!(link.drain_ready(u64::MAX).is_empty());
}

#[test]
fn a_lossy_link_drops_everything() {
    let mut link = conditioner(LinkConditionerConfig {
        packet_loss: CERTAIN,
        ..LinkConditionerConfig::default()
    });
    for byte in 0..100 {
        link.enqueue(datagram(byte), 0);
    }
    assert!(link.drain_ready(u64::MAX).is_empty());
}

#[test]
fn a_link_without_loss_keeps_everything() {
    let mut link = conditioner(LinkConditionerConfig::default());
    for byte in 0..100 {
        link.enqueue(datagram(byte), 0);
    }
    assert_eq!(bytes_of(link.drain_ready(0)), (0..100).collect::<Vec<_>>());
}

#[test]
fn duplicates() {
    let mut link = conditioner(LinkConditionerConfig {
        duplicate: CERTAIN,
        ..LinkConditionerConfig::default()
    });
    link.enqueue(datagram(1), 0);
    link.enqueue(datagram(2), 0);
    assert_eq!(bytes_of(link.drain_ready(0)), vec![1, 1, 2, 2]);
}

#[test]
fn loss_goes_by_the_fraction() {
    // The first fraction that is drawn from this seed.
    let first = 1082269761 >> 11;
    for (packet_loss, kept) in [(first, 1), (first + 1, 0)] {
        let mut link = conditioner(LinkConditionerConfig {
            packet_loss,
            seed: Some(1),
            ..LinkConditionerConfig::default()
        });
        link.enqueue(datagram(1), 0);
        assert_eq!(link.drain_ready(0).len(), kept);
    }
}

#[test]
fn jitter_is_bounded() {
    let mut link = conditioner(LinkConditionerConfig {
        latency_ms: 5,
        jitter_ms: 10,
        seed: Some(42),
        ..LinkConditionerConfig::default()
    });
    for byte in 0..200 {
        link.enqueue(datagram(byte), 100 * MILLI);
    }
    assert!(link.drain_ready(100 * MILLI - 1).is_empty());
    let mut all = Vec::new();
    for milli in 100..=115 {
        all.extend(bytes_of(link.drain_ready(milli * MILLI)));
    }
    assert!(link.delayed.is_empty());
    assert_ne!(all, (0..200).collect::<Vec<_>>());
    all.sort();
    assert_eq!(all, (0..200).collect::<Vec<_>>());
}

#[test]
fn streams_carry_data_in_order() {
    let (mut left, mut right) = pair();
    let mut out = ChannelConnectionContext { state: &mut left };
    let stream = out.new_stream(StreamRequirements::reliable_ordered()).unwrap();
    assert_eq!(stream, ChannelStreamId::Stream(0));
    assert_eq!(out.write(&stream, Bytes::from_static(b"one"), true), Ok(3));
    assert_eq!(out.write(&stream, Bytes::from_static(b"two!"), false), Ok(4));

    right.poll_messages(0);
    let mut into = ChannelConnectionContext { state: &mut right };
    assert_eq!(
        into.accept_stream(),
        Some((stream, StreamRequirements::reliable_ordered()))
    );
    assert_eq!(into.accept_stream(), None);
    assert_eq!(into.read(&stream), Ok(Ok(Bytes::from_static(b"one"))));
    assert_eq!(into.read(&stream), Ok(Ok(Bytes::from_static(b"two!"))));
    assert_eq!(into.read(&stream), Ok(Err(StreamReadError::Blocked)));

    let mut out = ChannelConnectionContext { state: &mut left };
    assert_eq!(out.close_send_stream(&stream, true), Ok(()));
    assert!(left.streams[&0].send_closed);
    right.poll_messages(0);
    let mut into = ChannelConnectionContext { state: &mut right };
    assert_eq!(into.read(&stream), Ok(Err(StreamReadError::Closed)));
    assert_eq!(
        into.read(&ChannelStreamId::Stream(77)),
        Ok(Err(StreamReadError::Closed))
    );
}

#[test]
fn answers_go_back_on_the_same_stream() {
    let (mut left, mut right) = pair();
    let both = StreamRequirements::reliable().with_bidirectional(true);
    let stream = ChannelConnectionContext { state: &mut left }
        .new_stream(both)
        .unwrap();
    right.poll_messages(0);
    let mut into = ChannelConnectionContext { state: &mut right };
    let (accepted, requirements) = into.accept_stream().unwrap();
    assert!(requirements.bidirectional);
    assert_eq!(into.write(&accepted, Bytes::from_static(b"answer"), true), Ok(6));
    left.poll_messages(0);
    let mut out = ChannelConnectionContext { state: &mut left };
    assert_eq!(out.read(&stream), Ok(Ok(Bytes::from_static(b"answer"))));
}

#[test]
fn datagrams_are_streams_of_their_own() {
    let (mut left, mut right) = pair();
    let mut out = ChannelConnectionContext { state: &mut left };
    let stream = out.new_stream(StreamRequirements::unreliable()).unwrap();
    assert_eq!(stream, ChannelStreamId::Datagram);
    assert_eq!(out.write(&stream, Bytes::from_static(b"a"), false), Ok(1));
    assert_eq!(out.write(&stream, Bytes::from_static(b"bc"), false), Ok(2));
    assert_eq!(out.read(&stream), Ok(Err(StreamReadError::Blocked)));
    assert_eq!(out.close_send_stream(&stream, true), Ok(()));

    right.poll_messages(0);
    assert_eq!(right.datagrams, vec![Bytes::from_static(b"a"), Bytes::from_static(b"bc")]);
    let mut into = ChannelConnectionContext { state: &mut right };
    let (first, requirements) = into.accept_stream().unwrap();
    assert_eq!(first, ChannelStreamId::Stream(u32::MAX));
    assert_eq!(requirements, StreamRequirements::unreliable());
    let (second, _) = into.accept_stream().unwrap();
    assert_eq!(second, ChannelStreamId::Stream(u32::MAX - 1));
    assert_eq!(into.accept_stream(), None);
    assert_eq!(into.read(&second), Ok(Ok(Bytes::from_static(b"bc"))));
    assert_eq!(into.read(&first), Ok(Ok(Bytes::from_static(b"a"))));
    assert_eq!(into.read(&first), Ok(Err(StreamReadError::Blocked)));
}

#[test]
fn datagrams_go_one_way_on_a_channel() {
    let (mut left, mut right) = pair();
    let both = StreamRequirements::unreliable().with_bidirectional(true);
    let stream = ChannelConnectionContext { state: &mut left }
        .new_stream(both)
        .unwrap();
    assert_eq!(stream, ChannelStreamId::Stream(0));
    right.poll_messages(0);
    let mut into = ChannelConnectionContext { state: &mut right };
    assert_eq!(into.accept_stream(), Some((stream, both)));
}

#[test]
fn empty_chunks_are_read() {
    let (mut left, mut right) = pair();
    let mut out = ChannelConnectionContext { state: &mut left };
    let stream = out.new_stream(StreamRequirements::reliable()).unwrap();
    assert_eq!(out.write(&stream, Bytes::new(), true), Ok(0));
    assert_eq!(out.write(&stream, Bytes::from_static(b"a"), true), Ok(1));
    right.poll_messages(0);
    let mut into = ChannelConnectionContext { state: &mut right };
    assert_eq!(into.read(&stream), Ok(Ok(Bytes::new())));
    assert_eq!(into.read(&stream), Ok(Ok(Bytes::from_static(b"a"))));
    assert_eq!(into.read(&stream), Ok(Err(StreamReadError::Blocked)));
}

#[test]
fn datagrams_by_number() {
    let (mut left, _right) = pair();
    for byte in 0..4 {
        left.process_message(datagram(byte));
    }
    let mut context = ChannelConnectionContext { state: &mut left };
    let number = ChannelStreamId::ReceivedDatagram;
    assert_eq!(context.read(&number(4)), Ok(Err(StreamReadError::Blocked)));
    assert_eq!(context.read(&number(1)), Ok(Err(StreamReadError::Closed)));
    assert_eq!(context.read(&number(0)), Ok(Err(StreamReadError::Closed)));
    assert_eq!(context.write(&number(0), Bytes::from_static(b"x"), false), Ok(0));
    assert_eq!((left.datagram_index, left.datagrams.len()), (2, 2));
}

#[test]
fn receiving_can_be_closed() {
    let (mut left, mut right) = pair();
    let stream = ChannelConnectionContext { state: &mut left }
        .new_stream(StreamRequirements::reliable())
        .unwrap();
    right.poll_messages(0);
    let mut into = ChannelConnectionContext { state: &mut right };
    assert_eq!(into.close_recv_stream(&stream), Ok(()));
    assert!(right.streams[&0].recv_closed);
}

#[test]
fn closing_is_a_flag() {
    let (mut left, _right) = pair();
    let mut out = ChannelConnectionContext { state: &mut left };
    out.close();
    out.close();
    assert!(left.close_requested);
}

#[test]
fn streams_of_the_two_sides_do_not_meet() {
    let mut registry = ChannelRegistry::default();
    registry.register(2);
    let mut client = ChannelEndpoint::new();
    let mut server = ChannelEndpoint::new();
    let config = ChannelConnectionConfig {
        remote_endpoint: 2,
        link_conditioner: None,
    };
    client.create_connection(&registry, 1, 10, Some(&config), None, 5);
    let request = registry.try_recv_incoming(2);
    server.create_connection(&registry, 2, 20, None, Some(request), 5);

    let both = StreamRequirements::reliable().with_bidirectional(true);
    let mut out = client.get_connection(10, 0).ok().unwrap();
    let asked = out.new_stream(both).unwrap();
    assert_eq!(out.write(&asked, Bytes::from_static(b"ask"), true), Ok(3));

    // The server opens a stream before it reads, and the client before it reads the answer.
    let mut into = server.get_connection(20, 0).ok().unwrap();
    let told = into.new_stream(StreamRequirements::reliable()).unwrap();
    assert_ne!(told, asked);
    assert_eq!(told, ChannelStreamId::Stream(FIRST_ACCEPTED_ID));
    assert_eq!(into.accept_stream(), Some((asked, both)));
    assert_eq!(into.read(&asked), Ok(Ok(Bytes::from_static(b"ask"))));
    assert_eq!(into.write(&asked, Bytes::from_static(b"answer"), true), Ok(6));
    assert_eq!(into.write(&told, Bytes::from_static(b"news"), true), Ok(4));

    let mut out = client.get_connection(10, 0).ok().unwrap();
    assert_eq!(
        out.accept_stream(),
        Some((told, StreamRequirements::reliable()))
    );
    assert_eq!(out.read(&told), Ok(Ok(Bytes::from_static(b"news"))));
    assert_eq!(out.read(&asked), Ok(Ok(Bytes::from_static(b"answer"))));
}

#[test]
fn data_for_unknown_streams_is_lost() {
    let (mut left, _right) = pair();
    left.process_message(ChannelMessage::StreamData {
        stream_id: 4,
        data: Bytes::from_static(b"x"),
    });
    left.process_message(ChannelMessage::StreamClose { stream_id: 4 });
    assert!(left.streams.is_empty());
}

#[test]
fn endpoints_meet_in_the_registry() {
    let mut registry = ChannelRegistry::default();
    registry.register(1);
    registry.register(2);
    let mut client = ChannelEndpoint::new();
    let mut server = ChannelEndpoint::default();

    let config = ChannelConnectionConfig {
        remote_endpoint: 2,
        link_conditioner: None,
    };
    assert_eq!(
        client.create_connection(&registry, 1, 10, Some(&config), None, 5),
        CreateOutcome::Status(ConnectionStatus::Established)
    );
    assert!(registry.try_recv_incoming(1).is_none());
    assert!(registry.try_recv_incoming(3).is_none());
    let request = registry.try_recv_incoming(2).unwrap();
    assert_eq!((request.from_endpoint, request.from_connection), (1, 10));
    let mut incoming = IncomingChannelConnection {
        endpoint_entity: 2,
        request: Some(request),
    };
    assert_eq!(
        server.create_connection(&registry, 2, 20, None, Some(incoming.request.take()), 5),
        CreateOutcome::Status(ConnectionStatus::Established)
    );
    assert_eq!(
        server.create_connection(&registry, 2, 20, None, Some(incoming.request.take()), 5),
        CreateOutcome::AcceptedTwice
    );

    let mut out = client.get_connection(10, 0).ok().unwrap();
    let stream = out.new_stream(StreamRequirements::reliable()).unwrap();
    assert_eq!(out.write(&stream, Bytes::from_static(b"hello"), true), Ok(5));
    let mut into = server.get_connection(20, 0).ok().unwrap();
    let (stream, _) = into.accept_stream().unwrap();
    assert_eq!(into.read(&stream), Ok(Ok(Bytes::from_static(b"hello"))));
    assert_eq!(into.write(&stream, Bytes::from_static(b"back"), true), Ok(4));
    into.close();

    assert!(client.update_connections(0).is_empty());
    assert_eq!(client.connections[&10].streams[&0].recv_buffer, vec![Bytes::from_static(b"back")]);
    assert_eq!(server.update_connections(0), vec![20]);
    server.remove_connection(20);
    assert!(server.get_connection(20, 0).is_err());
}

#[test]
fn connections_that_cannot_be_made() {
    let mut registry = ChannelRegistry::default();
    registry.register(1);
    let mut client = ChannelEndpoint::new();
    let config = ChannelConnectionConfig {
        remote_endpoint: 2,
        link_conditioner: None,
    };
    let failed = CreateOutcome::Status(ConnectionStatus::Failed);
    assert_eq!(client.connect(&registry, 1, 10, &config, 5), failed);
    registry.register(2);
    registry.unregister(2);
    assert!(registry.get_incoming_tx(2).is_none());
    assert_eq!(client.connect(&registry, 1, 10, &config, 5), failed);
    assert_eq!(
        client.create_connection(&registry, 1, 10, None, None, 5),
        CreateOutcome::MissingConfig
    );
    assert!(client.connections.is_empty());
}

#[test]
fn a_conditioned_connection() {
    let mut registry = ChannelRegistry::default();
    registry.register(1);
    let mut client = ChannelEndpoint::new();
    let config = ChannelConnectionConfig {
        remote_endpoint: 1,
        link_conditioner: Some(LinkConditionerConfig {
            latency_ms: 3,
            ..LinkConditionerConfig::default()
        }),
    };
    client.connect(&registry, 1, 10, &config, 5);
    let request = registry.try_recv_incoming(1).unwrap();
    request.to_remote_tx.send(datagram(1)).unwrap();
    let mut context = client.get_connection(10, 0).ok().unwrap();
    assert_eq!(context.accept_stream(), None);
    let mut context = client.get_connection(10, 3 * MILLI).ok().unwrap();
    assert_eq!(
        context.accept_stream(),
        Some((
            ChannelStreamId::Stream(u32::MAX),
            StreamRequirements::unreliable()
        ))
    );
}

#[test]
fn nothing_is_taken_over_without_a_remote() {
    assert_eq!(taken_over(5, true), 5);
    assert_eq!(taken_over(5, false), 0);
    let (mut left, right) = pair();
    drop(right);
    let mut out = ChannelConnectionContext { state: &mut left };
    let stream = out.new_stream(StreamRequirements::reliable()).unwrap();
    assert_eq!(out.write(&stream, Bytes::from_static(b"one"), true), Ok(0));
    assert_eq!(
        out.write(&ChannelStreamId::Datagram, Bytes::from_static(b"two"), true),
        Ok(0)
    );
}

#[test]
fn endpoints_that_are_gone_cannot_be_asked() {
    let mut endpoint = ChannelEndpoint::new();
    let (mut tx, rx) = crossbeam_channel::unbounded();
    assert_eq!(
        endpoint.connect_over(&mut tx, 1, 10, None, 5),
        ConnectionStatus::Established
    );
    let request = rx.try_recv().unwrap();
    assert_eq!((request.from_endpoint, request.from_connection), (1, 10));
    drop(rx);
    assert_eq!(
        endpoint.connect_over(&mut tx, 1, 11, None, 5),
        ConnectionStatus::Failed
    );
    assert!(!endpoint.connections.contains_key(&11));

    let (state, other) = pair();
    assert_eq!(
        endpoint.settle_connection(11, state, false),
        ConnectionStatus::Failed
    );
    assert!(!endpoint.connections.contains_key(&11));
    assert_eq!(
        endpoint.settle_connection(11, other, true),
        ConnectionStatus::Established
    );
    assert!(endpoint.connections.contains_key(&11));
}

#[test]
fn requests_are_taken_from_the_right_endpoint() {
    let mut registry = ChannelRegistry::default();
    registry.register(1);
    registry.register(2);
    let mut endpoint = ChannelEndpoint::new();
    let mut to_first = registry.get_incoming_tx(1).unwrap();
    let mut to_second = registry.get_incoming_tx(2).unwrap();
    endpoint.connect_over(&mut to_second, 8, 20, None, 5);
    endpoint.connect_over(&mut to_first, 9, 10, None, 5);
    assert_eq!(registry.try_recv_incoming(1).unwrap().from_connection, 10);
    assert!(registry.try_recv_incoming(1).is_none());
    assert_eq!(registry.try_recv_incoming(2).unwrap().from_connection, 20);
    assert!(registry.try_recv_incoming(3).is_none());
}
