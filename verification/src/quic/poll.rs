//! Events of QUIC connections of the `quinn-proto` crate.
use super::engine::{engine, status, INTEGER_BOUND};
use super::event::{ConnectionEvent, Direction, StreamEvent};
use crate::chunk::chunk;
use crate::transport::ConnectionStatus;
use bytes::Bytes;
use quinn_proto::StreamEvent as Quinn;
use quinn_proto::{Connection, ConnectionError, Dir, Event, VarInt};
use std::time::Instant;
use vstd::prelude::*;

verus! {

/// `std::time::Instant`, a point in time.
#[verifier::external_type_specification]
#[verifier::external_body]
pub struct ExInstant(std::time::Instant);

/// `quinn_proto::ConnectionError`, why a connection was lost.
#[verifier::external_type_specification]
#[verifier::external_body]
pub struct ExConnectionError(quinn_proto::ConnectionError);

/// `quinn_proto::Event`, something that happened.
#[verifier::external_type_specification]
#[verifier::external_body]
pub struct ExEvent(quinn_proto::Event);

/// An event as a connection gives it.
pub enum PolledEvent {
    HandshakeDataReady,
    Connected,
    ConnectionLost(ConnectionError),
    /// Something happened to a stream.
    Stream(Event),
    DatagramReceived,
    DatagramsUnblocked,
}

impl PolledEvent {
    /// What happened to a stream is known.
    pub open spec fn valid(self) -> bool {
        self matches PolledEvent::Stream(event) ==> stream_event(event) is Some
    }
}

/// A new status, and why a connection was lost if it was.
pub type StatusChange = (ConnectionStatus, Option<ConnectionError>);

/// The events that a connection has to give, in their order.
pub uninterp spec fn events(connection: Connection) -> Seq<PolledEvent>;

/// What happened to a stream, if it is a stream to which something happened.
pub uninterp spec fn stream_event(event: Event) -> Option<StreamEvent>;

/// What happened.
pub open spec fn connection_event(event: PolledEvent) -> ConnectionEvent {
    match event {
        PolledEvent::HandshakeDataReady => ConnectionEvent::HandshakeDataReady,
        PolledEvent::Connected => ConnectionEvent::Connected,
        PolledEvent::ConnectionLost(_) => ConnectionEvent::ConnectionLost,
        PolledEvent::Stream(event) => ConnectionEvent::Stream(stream_event(event)->0),
        PolledEvent::DatagramReceived => ConnectionEvent::DatagramReceived,
        PolledEvent::DatagramsUnblocked => ConnectionEvent::DatagramsUnblocked,
    }
}

/// Why a connection was lost, if it was.
pub open spec fn loss_reason(event: PolledEvent) -> Option<ConnectionError> {
    match event {
        PolledEvent::ConnectionLost(reason) => Some(reason),
        _ => None,
    }
}

/// The stream events among some events.
pub open spec fn stream_events(events: Seq<PolledEvent>) -> Seq<StreamEvent>
    decreases events.len(),
{
    if events.len() == 0 {
        Seq::empty()
    } else {
        let before = stream_events(events.drop_last());
        match events.last() {
            PolledEvent::Stream(event) => before.push(stream_event(event)->0),
            _ => before,
        }
    }
}

/// The statuses that a connection gets to with some events, where each event may have one.
pub open spec fn status_changes(
    events: Seq<PolledEvent>,
    status: spec_fn(ConnectionEvent) -> Option<ConnectionStatus>,
) -> Seq<StatusChange>
    decreases events.len(),
{
    if events.len() == 0 {
        Seq::empty()
    } else {
        let before = status_changes(events.drop_last(), status);
        match status(connection_event(events.last())) {
            Some(status) => before.push((status, loss_reason(events.last()))),
            None => before,
        }
    }
}

/// The status that a QUIC connection gets to with an event, if it has one.
pub open spec fn quic_status(event: ConnectionEvent) -> Option<ConnectionStatus> {
    match event {
        ConnectionEvent::Connected => Some(ConnectionStatus::Established),
        ConnectionEvent::ConnectionLost => Some(ConnectionStatus::Closed),
        _ => None,
    }
}

/// `Connection::poll`, which gives the next event. Nothing else that the connection tells changes.
#[verifier::external_body]
pub(crate) fn poll_event(connection: &mut Connection) -> (event: Option<PolledEvent>)
    ensures
        engine(*final(connection)) == engine(*old(connection)),
        status(*final(connection)) == status(*old(connection)),
        match event {
            Some(event) => events(*old(connection)).len() > 0 && event == events(
                *old(connection),
            )[0] && events(*final(connection)) == events(*old(connection)).skip(1) && event.valid(),
            None => events(*old(connection)).len() == 0 && events(*final(connection)).len() == 0,
        },
{
    Some(
        match connection.poll()? {
            Event::HandshakeDataReady => PolledEvent::HandshakeDataReady,
            Event::Connected => PolledEvent::Connected,
            Event::ConnectionLost { reason } => PolledEvent::ConnectionLost(reason),
            Event::Stream(event) => PolledEvent::Stream(Event::Stream(event)),
            Event::DatagramReceived => PolledEvent::DatagramReceived,
            Event::DatagramsUnblocked => PolledEvent::DatagramsUnblocked,
        },
    )
}

/// The variants of `quinn_proto::StreamEvent`, which `quinn_proto::Event::Stream` holds, with plain
/// numbers for ids and codes.
#[verifier::external_body]
fn plain_event(event: Event) -> (plain: Option<StreamEvent>)
    ensures
        plain == stream_event(event),
{
    let Event::Stream(event) = event else { return None };
    Some(match event {
        Quinn::Opened { dir: Dir::Uni } => StreamEvent::Opened { direction: Direction::Uni },
        Quinn::Opened { dir: Dir::Bi } => StreamEvent::Opened { direction: Direction::Bi },
        Quinn::Readable { id } => StreamEvent::Readable { id: id.into() },
        Quinn::Writable { id } => StreamEvent::Writable { id: id.into() },
        Quinn::Finished { id } => StreamEvent::Finished { id: id.into() },
        Quinn::Stopped { id, error_code } => StreamEvent::Stopped {
            id: id.into(),
            error_code: error_code.into()
        },
        Quinn::Available { dir: Dir::Uni } => StreamEvent::Available { direction: Direction::Uni },
        Quinn::Available { dir: Dir::Bi } => StreamEvent::Available { direction: Direction::Bi },
    })
}

/// `Connection::close`, which closes a connection with a code and a reason, unless it is closed. It
/// does nothing to streams and datagrams.
#[verifier::external_body]
pub(crate) fn close_connection(connection: &mut Connection, now: Instant, code: u64, reason: Bytes)
    requires
        code < INTEGER_BOUND,
    ensures
        status(*final(connection)).closed,
        engine(*final(connection)) == engine(*old(connection)).close_asked(
            status(*old(connection)),
            code,
            chunk(reason),
        ),
{
    connection.close(now, VarInt::from_u64(code).unwrap(), reason)
}

/// Tells what happened, and why a connection was lost if it was.
pub(crate) fn told_event(event: PolledEvent) -> (told: (ConnectionEvent, Option<ConnectionError>))
    requires
        event.valid(),
    ensures
        told == (connection_event(event), loss_reason(event)),
{
    match event {
        PolledEvent::HandshakeDataReady => (ConnectionEvent::HandshakeDataReady, None),
        PolledEvent::Connected => (ConnectionEvent::Connected, None),
        PolledEvent::ConnectionLost(reason) => (ConnectionEvent::ConnectionLost, Some(reason)),
        PolledEvent::Stream(event) => match plain_event(event) {
            Some(event) => (ConnectionEvent::Stream(event), None),
            None => (ConnectionEvent::HandshakeDataReady, None),
        },
        PolledEvent::DatagramReceived => (ConnectionEvent::DatagramReceived, None),
        PolledEvent::DatagramsUnblocked => (ConnectionEvent::DatagramsUnblocked, None),
    }
}

/// The stream events after one more event.
pub proof fn lemma_events_push(
    events: Seq<PolledEvent>,
    event: PolledEvent,
    status: spec_fn(ConnectionEvent) -> Option<ConnectionStatus>,
)
    ensures
        stream_events(events.push(event)) == match event {
            PolledEvent::Stream(event) => stream_events(events).push(stream_event(event)->0),
            _ => stream_events(events),
        },
        status_changes(events.push(event), status) == match status(connection_event(event)) {
            Some(status_after) => status_changes(events, status).push(
                (status_after, loss_reason(event)),
            ),
            None => status_changes(events, status),
        },
{
    assert(events.push(event).drop_last() =~= events);
}

/// The stream events are all that happened to streams, in the order in which it happened.
pub proof fn stream_events_are_kept(events: Seq<PolledEvent>)
    ensures
        stream_events(events) == events.filter(|event: PolledEvent| event is Stream).map_values(
            |event: PolledEvent| stream_event(event->Stream_0)->0,
        ),
    decreases events.len(),
{
    reveal(Seq::filter);
    let of_stream = |event: PolledEvent| event is Stream;
    let told = |event: PolledEvent| stream_event(event->Stream_0)->0;
    if events.len() > 0 {
        let front = events.drop_last();
        stream_events_are_kept(front);
        assert(events.filter(of_stream).map_values(told) =~= if of_stream(events.last()) {
            front.filter(of_stream).map_values(told).push(told(events.last()))
        } else {
            front.filter(of_stream).map_values(told)
        });
    } else {
        assert(events.filter(of_stream).map_values(told) =~= Seq::empty());
    }
}

/// A QUIC connection is established when it says so, and closed when it is lost, for the reason that
/// it gives. Nothing else changes its status.
pub proof fn quic_statuses(events: Seq<PolledEvent>)
    ensures
        status_changes(events, |event| quic_status(event)) == events.filter(
            |event: PolledEvent| event is Connected || event is ConnectionLost,
        ).map_values(
            |event: PolledEvent|
                match event {
                    PolledEvent::ConnectionLost(reason) => (
                        ConnectionStatus::Closed,
                        Some(reason),
                    ),
                    _ => (ConnectionStatus::Established, None),
                },
        ),
    decreases events.len(),
{
    reveal(Seq::filter);
    let matters = |event: PolledEvent| event is Connected || event is ConnectionLost;
    let told = |event: PolledEvent|
        match event {
            PolledEvent::ConnectionLost(reason) => (ConnectionStatus::Closed, Some(reason)),
            _ => (ConnectionStatus::Established, None),
        };
    let status = |event: ConnectionEvent| quic_status(event);
    if events.len() > 0 {
        let front = events.drop_last();
        quic_statuses(front);
        assert(status_changes(events, status) == if matters(events.last()) {
            status_changes(front, status).push(told(events.last()))
        } else {
            status_changes(front, status)
        });
        assert(events.filter(matters).map_values(told) =~= if matters(events.last()) {
            front.filter(matters).map_values(told).push(told(events.last()))
        } else {
            front.filter(matters).map_values(told)
        });
    } else {
        assert(events.filter(matters).map_values(told) =~= Seq::empty());
    }
}

/// What happened is told as what it is.
pub proof fn events_are_told(event: PolledEvent)
    ensures
        event is Connected <==> connection_event(event) == ConnectionEvent::Connected,
        event is ConnectionLost <==> connection_event(event) == ConnectionEvent::ConnectionLost,
        event is DatagramReceived <==> connection_event(event) == ConnectionEvent::DatagramReceived,
        event is DatagramsUnblocked <==> connection_event(event)
            == ConnectionEvent::DatagramsUnblocked,
        event is Stream <==> connection_event(event) is Stream,
        event matches PolledEvent::ConnectionLost(reason) ==> loss_reason(event) == Some(reason),
        loss_reason(event) is Some <==> event is ConnectionLost,
{
}

} // verus!
