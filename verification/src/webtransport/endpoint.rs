//! Establishing WebTransport sessions on QUIC connections.
use super::connection::WebTransportConnectionContext;
use super::h3::{
    connect_request, connect_response, control_preface, control_received,
    encode_connect_request, encode_connect_response, encoded_request, headers_frame, last_setting,
    new_control, parse_connect_request, parse_connect_response, response_fields,
    settings_are_taken_over, settings_payload, ControlView, H3ControlStream,
};
use super::header::same_bytes;
use super::session::{new_session, quic_varint, SessionState, WebTransportSession};
use crate::chunk::{chunk, from_vec};
use crate::quic::connection::QuicConnectionState;
use crate::quic::endpoint::{ConnectionTable, EntityConnection};
use crate::quic::engine::{engine, open_stream, remote_address, status, EngineView};
use crate::quic::event::ConnectionEvent;
use crate::quic::poll::{
    events, lemma_events_push, poll_event, status_changes, stream_events, told_event, PolledEvent,
    StatusChange,
};
use crate::quic::streams::{
    accept_all, all_accepted, drained, lemma_read_out, opened_with, read_all, read_out, share_of,
    write_what_fits,
};
use crate::transport::{ConnectionStatus, NoConnectionError};
use bytes::Bytes;
use quinn_proto::Connection;
use vstd::prelude::*;

verus! {

/// The state of a WebTransport connection.
pub struct WebTransportConnectionState {
    /// The underlying QUIC connection.
    pub quic: QuicConnectionState,
    /// The control stream that was opened.
    pub control_stream_send: Option<u64>,
    /// What has been received on control streams.
    pub control_stream_recv: Option<H3ControlStream>,
    /// The session.
    pub session: WebTransportSession,
    /// The stream on which the client has sent its request.
    pub connect_stream: Option<u64>,
    /// The path that the client asks for. A server knows it when it has accepted the request.
    pub requested_path: Option<String>,
}

/// How far the two sides have got in establishing a session.
pub struct HandshakeView {
    pub control: Option<ControlView>,
    pub session: WebTransportSession,
    pub connect_stream: Option<u64>,
    pub requested_path: Option<Seq<char>>,
}

impl View for WebTransportConnectionState {
    type V = HandshakeView;

    open spec fn view(&self) -> HandshakeView {
        HandshakeView {
            control: match self.control_stream_recv {
                Some(control) => Some(control@),
                None => None,
            },
            session: self.session,
            connect_stream: self.connect_stream,
            requested_path: match self.requested_path {
                Some(path) => Some(path@),
                None => None,
            },
        }
    }
}

impl EntityConnection for WebTransportConnectionState {
    open spec fn entity(&self) -> u64 {
        self.quic.connection_entity
    }

    fn connection_entity(&self) -> (entity: u64) {
        self.quic.connection_entity
    }
}

/// The session id that goes with a request stream: a quarter of the id of the stream.
pub open spec fn session_id_of(stream: u64) -> u64 {
    stream / 4
}

/// A connection that has just been made. A client knows the path that it asks for.
pub open spec fn new_handshake(path: Option<Seq<char>>) -> HandshakeView {
    HandshakeView {
        control: Some(new_control()),
        session: new_session(),
        connect_stream: None,
        requested_path: path,
    }
}

/// Whether the peer has said that it supports WebTransport.
pub open spec fn peer_is_ready(control: ControlView) -> bool {
    &&& control.settings_received
    &&& control.peer_settings.enable_webtransport
    &&& control.peer_settings.enable_datagrams
}

/// The effect of data from a control stream of the peer. If the peer is ready then a request is
/// due from a side that has a path to ask for and has not asked.
pub open spec fn with_control_data(handshake: HandshakeView, data: Seq<u8>) -> (
    HandshakeView,
    bool,
) {
    match handshake.control {
        Some(control) if data.len() > 0 => {
            let after = control_received(control, data).0;
            let received = HandshakeView { control: Some(after), ..handshake };
            if peer_is_ready(after) {
                (
                    HandshakeView {
                        session: WebTransportSession {
                            state: SessionState::SettingsReceived,
                            ..handshake.session
                        },
                        ..received
                    },
                    handshake.requested_path is Some && handshake.connect_stream is None,
                )
            } else {
                (received, false)
            }
        },
        _ => (handshake, false),
    }
}

/// The effect of a request that has been sent on a stream.
pub open spec fn with_request_sent(handshake: HandshakeView, stream: u64) -> HandshakeView {
    HandshakeView {
        connect_stream: Some(stream),
        session: WebTransportSession {
            session_id: session_id_of(stream),
            request_stream_id: Some(stream),
            state: SessionState::AwaitingConnectResponse,
        },
        ..handshake
    }
}

/// The effect of data from a control stream of the peer, when a request that is due was sent on a
/// stream, or could not be sent.
pub open spec fn with_control(
    handshake: HandshakeView,
    data: Seq<u8>,
    request: Option<u64>,
) -> HandshakeView {
    let (after, due) = with_control_data(handshake, data);
    match request {
        Some(stream) if due => with_request_sent(after, stream),
        _ => after,
    }
}

/// Whether requests of the peer are accepted: by a side that has none of its own, once the peer is
/// ready and until the session is established.
pub open spec fn awaits_request(handshake: HandshakeView) -> bool {
    handshake.requested_path is None && handshake.session.state == SessionState::SettingsReceived
}

/// The path of a request for a WebTransport session, if data is one.
pub open spec fn requested(data: Seq<u8>) -> Option<Seq<char>> {
    if data.len() == 0 {
        None
    } else {
        match connect_request(data) {
            Ok((_, path, protocol)) if protocol == "webtransport"@ => Some(path),
            _ => None,
        }
    }
}

/// The effect of a request of the peer: it is answered, and the session is established, if it is a
/// request for a WebTransport session and an answer can be made.
pub open spec fn with_request(handshake: HandshakeView, stream: u64, data: Seq<u8>) -> (
    HandshakeView,
    Option<ConnectionStatus>,
) {
    match requested(data) {
        Some(path) if headers_frame(response_fields()) is Ok => (
            HandshakeView {
                session: WebTransportSession {
                    session_id: session_id_of(stream),
                    request_stream_id: Some(stream),
                    state: SessionState::Established,
                },
                requested_path: Some(path),
                ..handshake
            },
            Some(ConnectionStatus::Established),
        ),
        _ => (handshake, None),
    }
}

/// The effect of a response of the peer: the session is established if it is a success, and fails
/// if it is another status. What is not a response is ignored.
pub open spec fn with_response(handshake: HandshakeView, data: Seq<u8>) -> (
    HandshakeView,
    Option<ConnectionStatus>,
) {
    if data.len() == 0 {
        (handshake, None)
    } else {
        match connect_response(data) {
            Ok(status) => {
                let state = if status == 200 {
                    SessionState::Established
                } else {
                    SessionState::Closed
                };
                let result = if status == 200 {
                    ConnectionStatus::Established
                } else {
                    ConnectionStatus::Failed
                };
                (
                    HandshakeView {
                        session: WebTransportSession { state, ..handshake.session },
                        ..handshake
                    },
                    Some(result),
                )
            },
            Err(_) => (handshake, None),
        }
    }
}

/// What sending a request does to a connection: a stream is opened, and the request is written to
/// it.
pub open spec fn request_written(
    before: EngineView,
    after: EngineView,
    path: Seq<char>,
    stream: u64,
) -> bool {
    opened_with(
        before,
        after,
        stream,
        true,
        encoded_request(before.remote_address, path)->Ok_0,
    )
}

/// Whether a request can be sent: the peer allows a stream, and the request can be coded.
pub open spec fn request_possible(quic: QuicConnectionState, path: Seq<char>) -> bool {
    &&& quic.status().openable(true)
    &&& encoded_request(quic.engine().remote_address, path) is Ok
}

/// What is left of a request that could not be sent: the stream, if one could be opened for it.
pub open spec fn request_failed(
    before: WebTransportConnectionState,
    after: WebTransportConnectionState,
) -> bool {
    if before.quic.status().openable(true) {
        exists|stream: u64| #[trigger]
            before.engine().unused(stream) && after.engine() == before.engine().opened(stream, true)
    } else {
        after.engine() == before.engine()
    }
}

/// What data from a control stream of the peer does to a connection. A request is sent if it is due
/// and possible.
pub open spec fn control_step(
    before: WebTransportConnectionState,
    after: WebTransportConnectionState,
    data: Seq<u8>,
    request: Option<u64>,
) -> bool {
    let due = with_control_data(before@, data).1;
    let path = before@.requested_path->0;
    &&& after.same_quic(before)
    &&& after@ == with_control(before@, data, request)
    &&& request is Some <==> due && request_possible(before.quic, path)
    &&& match request {
        Some(stream) => request_written(before.engine(), after.engine(), path, stream),
        None if due => request_failed(before, after),
        None => after.quic.connection == before.quic.connection,
    }
}

/// What a stream of the peer that may hold a request does to a connection. If it holds one that is
/// accepted then the response is written to the stream.
pub open spec fn request_step(
    before: WebTransportConnectionState,
    after: WebTransportConnectionState,
    stream: u64,
    data: Seq<u8>,
) -> bool {
    let (handshake, status) = with_request(before@, stream, data);
    &&& after.same_quic(before)
    &&& after@ == handshake
    &&& after.engine() == if status is Some {
        before.engine().write_asked(
            before.quic.status(),
            stream,
            headers_frame(response_fields())->Ok_0,
        )
    } else {
        before.engine()
    }
}

/// Whether all waiting streams of a direction have been accepted, and nothing else was done.
pub open spec fn streams_accepted(
    before: WebTransportConnectionState,
    after: WebTransportConnectionState,
    bidirectional: bool,
) -> bool {
    &&& after.same_quic(before)
    &&& after@ == before@
    &&& all_accepted(before.engine(), after.engine(), bidirectional)
    &&& after.quic.status().sends_as(before.quic.status())
}

/// Whether all that a stream has received has been read, and nothing else was done.
pub open spec fn stream_drained(
    before: WebTransportConnectionState,
    after: WebTransportConnectionState,
    stream: u64,
) -> bool {
    &&& after.same_quic(before)
    &&& after@ == before@
    &&& drained(before.engine(), after.engine(), stream)
    &&& after.quic.status().sends_as(before.quic.status())
}

/// Whether a control stream of the peer was read, and then its data taken in.
pub open spec fn control_stage(
    before: WebTransportConnectionState,
    read: WebTransportConnectionState,
    after: WebTransportConnectionState,
    stream: u64,
    request: Option<u64>,
) -> bool {
    &&& stream_drained(before, read, stream)
    &&& control_step(read, after, before.engine().unread_on(stream), request)
}

/// Whether control streams of the peer were read and taken in, one after the other.
pub open spec fn control_steps(
    before: WebTransportConnectionState,
    after: WebTransportConnectionState,
    ids: Seq<u64>,
    requests: Seq<Option<u64>>,
) -> bool
    decreases ids.len(),
{
    if ids.len() == 0 {
        after == before
    } else {
        exists|middle: WebTransportConnectionState, read: WebTransportConnectionState| #[trigger]
            control_stage(middle, read, after, ids.last(), requests.last()) && control_steps(
                before,
                middle,
                ids.drop_last(),
                requests.drop_last(),
            )
    }
}

/// Whether a stream of the peer was read, and then the request that it may hold taken in.
pub open spec fn request_stage(
    before: WebTransportConnectionState,
    read: WebTransportConnectionState,
    after: WebTransportConnectionState,
    stream: u64,
) -> bool {
    &&& stream_drained(before, read, stream)
    &&& request_step(read, after, stream, before.engine().unread_on(stream))
}

/// Whether streams of the peer that may hold requests were read and taken in, one after the other.
pub open spec fn request_steps(
    before: WebTransportConnectionState,
    after: WebTransportConnectionState,
    ids: Seq<u64>,
) -> bool
    decreases ids.len(),
{
    if ids.len() == 0 {
        after == before
    } else {
        exists|middle: WebTransportConnectionState, read: WebTransportConnectionState| #[trigger]
            request_stage(middle, read, after, ids.last()) && request_steps(
                before,
                middle,
                ids.drop_last(),
            )
    }
}

/// Whether the control streams of the peer were accepted, read and taken in.
pub open spec fn controls_taken(
    before: WebTransportConnectionState,
    after: WebTransportConnectionState,
    requests: Seq<Option<u64>>,
) -> bool {
    exists|accepted: WebTransportConnectionState| #[trigger]
        streams_accepted(before, accepted, false) && control_steps(
            accepted,
            after,
            before.engine().uni_waiting,
            requests,
        )
}

/// Whether the streams of the peer that may hold requests were accepted, read and taken in.
pub open spec fn requests_taken(
    before: WebTransportConnectionState,
    after: WebTransportConnectionState,
) -> bool {
    exists|accepted: WebTransportConnectionState| #[trigger]
        streams_accepted(before, accepted, true) && request_steps(
            accepted,
            after,
            before.engine().bi_waiting,
        )
}

/// Whether the response of the peer was read and taken in.
pub open spec fn response_taken(
    before: WebTransportConnectionState,
    after: WebTransportConnectionState,
    stream: u64,
) -> bool {
    exists|read: WebTransportConnectionState| #[trigger]
        stream_drained(before, read, stream) && after.same_quic(read) && after.engine()
            == read.engine() && after@ == with_response(
            before@,
            before.engine().unread_on(stream),
        ).0
}

/// Whether a connection got from one state to another by what the peer has sent to establish a
/// session: its control streams, then its requests if they are accepted, then its response if there
/// is one to wait for.
pub open spec fn handshake_stages(
    before: WebTransportConnectionState,
    controlled: WebTransportConnectionState,
    answered: WebTransportConnectionState,
    after: WebTransportConnectionState,
    requests: Seq<Option<u64>>,
) -> bool {
    &&& requests.len() == before.engine().uni_waiting.len()
    &&& controls_taken(before, controlled, requests)
    &&& if awaits_request(controlled@) {
        requests_taken(controlled, answered)
    } else {
        answered == controlled
    }
    &&& match answered@.connect_stream {
        Some(stream) if answered@.session.state == SessionState::AwaitingConnectResponse => {
            response_taken(answered, after, stream)
        },
        _ => after == answered,
    }
}

/// The status that a connection gets to with an event, if it has one. It is established by the
/// session, not by the QUIC connection.
pub open spec fn session_status(event: ConnectionEvent) -> Option<ConnectionStatus> {
    match event {
        ConnectionEvent::ConnectionLost => Some(ConnectionStatus::Closed),
        _ => None,
    }
}

/// Whether one of some events is that the QUIC connection was established.
pub open spec fn any_connected(polled: Seq<PolledEvent>) -> bool {
    exists|i: int| 0 <= i < polled.len() && #[trigger] polled[i] is Connected
}

/// Whether the events are those that a connection had to give up to the one at a place, which was
/// that the QUIC connection was established, and then those that it had to give with its control
/// stream opened.
pub open spec fn opened_at(
    all: Seq<PolledEvent>,
    polled: Seq<PolledEvent>,
    place: int,
    opened: Connection,
) -> bool {
    &&& 0 <= place < all.len()
    &&& all[place] is Connected
    &&& polled == all.take(place + 1) + events(opened)
}

/// What taking some events does: stream events are kept, and the control stream is opened if the
/// QUIC connection was established. The events are those that the connection had, until the control
/// stream is opened, and from then on those that it has with it.
pub open spec fn events_taken(
    before: WebTransportConnectionState,
    after: WebTransportConnectionState,
    polled: Seq<PolledEvent>,
) -> bool {
    let all = events(before.quic.connection);
    &&& after.quic.stream_events@ == before.quic.stream_events@ + stream_events(polled)
    &&& if after.control_stream_send == before.control_stream_send {
        &&& polled == all
        &&& after.engine() == before.engine()
    } else {
        exists|place: int, opened: Connection| #[trigger]
            opened_at(all, polled, place, opened) && engine(opened) == after.engine() && status(
                opened,
            ) == after.quic.status()
    }
    &&& any_connected(polled) ==> control_opened(before, after)
}

/// One more event is that the QUIC connection was established, or not.
proof fn lemma_any_connected_push(polled: Seq<PolledEvent>, event: PolledEvent)
    ensures
        any_connected(polled.push(event)) == (any_connected(polled) || event is Connected),
{
    let more = polled.push(event);
    if any_connected(polled) {
        let i = choose|i: int| 0 <= i < polled.len() && #[trigger] polled[i] is Connected;
        assert(more[i] is Connected);
    }
    if event is Connected {
        assert(more[polled.len() as int] is Connected);
    }
    if any_connected(more) && !(event is Connected) {
        let i = choose|i: int| 0 <= i < more.len() && #[trigger] more[i] is Connected;
        assert(polled[i] is Connected);
    }
}

/// What opening the control stream does, unless that has been done: the settings are sent on it if
/// the peer allows a stream.
pub open spec fn control_opened(
    before: WebTransportConnectionState,
    after: WebTransportConnectionState,
) -> bool {
    match (before.control_stream_send, after.control_stream_send) {
        (None, Some(stream)) => {
            &&& before.quic.status().openable(false)
            &&& opened_with(before.engine(), after.engine(), stream, false, control_preface())
        },
        (None, None) => !before.quic.status().openable(false) && after.engine() == before.engine(),
        (before_stream, after_stream) => after_stream == before_stream && after.engine()
            == before.engine(),
    }
}

impl WebTransportConnectionState {
    /// The streams and datagrams that the connection holds.
    pub open spec fn engine(self) -> EngineView {
        engine(self.quic.connection)
    }

    /// The connection is consistent, and the request stream is one of its streams.
    pub open spec fn wf(self) -> bool {
        &&& self.quic.wf()
        &&& self.control_stream_recv is Some
        &&& self.session.session_id < crate::quic::engine::INTEGER_BOUND
        &&& self.connect_stream matches Some(stream) ==> {
            &&& self.engine().send_ids.contains(stream)
            &&& self.engine().recv_ids.contains(stream)
            &&& !self.engine().unordered.contains(stream)
        }
    }

    /// All but the handshake and what the connection holds is the same.
    pub open spec fn same_quic(self, other: WebTransportConnectionState) -> bool {
        &&& self.quic.same_flags(other.quic)
        &&& self.quic.datagrams == other.quic.datagrams
        &&& self.control_stream_send == other.control_stream_send
    }

    /// The state of a connection that has just been made. A client has a path to ask for.
    pub fn new(quic: QuicConnectionState, path: Option<String>) -> (state: Self)
        requires
            quic.wf(),
        ensures
            state.wf(),
            state.quic == quic,
            state.control_stream_send is None,
            state@ == new_handshake(
                match path {
                    Some(path) => Some(path@),
                    None => None,
                },
            ),
    {
        WebTransportConnectionState {
            quic,
            control_stream_send: None,
            control_stream_recv: Some(H3ControlStream::new()),
            session: WebTransportSession::new(),
            connect_stream: None,
            requested_path: path,
        }
    }

    /// Whether streams and datagrams can be exchanged: the session is established.
    pub fn is_established(&self) -> (established: bool)
        ensures
            established == (self@.session.state == SessionState::Established),
    {
        self.session.state == SessionState::Established
    }

    /// Opens the control stream and sends the settings, unless that has been done.
    pub fn open_control_stream(&mut self)
        requires
            old(self).wf(),
        ensures
            final(self).wf(),
            final(self)@ == old(self)@,
            final(self).quic.same_flags(old(self).quic),
            final(self).quic.datagrams == old(self).quic.datagrams,
            control_opened(*old(self), *final(self)),
            final(self).control_stream_send == old(self).control_stream_send ==> final(
                self).quic.connection == old(self).quic.connection,
    {
        if self.control_stream_send.is_some() {
            return ;
        }
        if let Some(stream) = open_stream(&mut self.quic.connection, false) {
            let ghost opened = self.quic.connection;
            assert(engine(opened) == old(self).engine().opened(stream, false));
            let settings = H3ControlStream::create_settings_frame();
            write_what_fits(&mut self.quic.connection, stream, &settings);
            self.control_stream_send = Some(stream);
        }
    }

    /// Takes all events of the connection, and returns the statuses that it gets to with them. When
    /// the QUIC connection is established, both sides send their settings. Events that come of that
    /// are taken too.
    pub fn poll_events(&mut self) -> (changes: Vec<StatusChange>)
        requires
            old(self).wf(),
        ensures
            final(self).wf(),
            final(self)@ == old(self)@,
            final(self).quic.connection_entity == old(self).quic.connection_entity,
            final(self).quic.close == old(self).quic.close,
            final(self).quic.datagrams == old(self).quic.datagrams,
            events(final(self).quic.connection).len() == 0,
            exists|polled: Seq<PolledEvent>| #[trigger]
                events_taken(*old(self), *final(self), polled) && changes@ == status_changes(
                    polled,
                    |event| session_status(event),
                ),
    {
        let ghost all = events(self.quic.connection);
        let ghost told = |event: ConnectionEvent| session_status(event);
        let ghost mut polled: Seq<PolledEvent> = Seq::empty();
        let ghost mut opening: int = 0;
        let ghost mut opened: Connection = self.quic.connection;
        let mut changes: Vec<StatusChange> = Vec::new();
        proof {
            assert(all.take(0) =~= polled);
            assert(all.skip(0) =~= all);
            assert(old(self).quic.stream_events@ + stream_events(polled)
                =~= old(self).quic.stream_events@);
        }
        loop
            invariant
                self.wf(),
                old(self).wf(),
                self@ == old(self)@,
                self.quic.connection_entity == old(self).quic.connection_entity,
                self.quic.close == old(self).quic.close,
                self.quic.datagrams == old(self).quic.datagrams,
                all == events(old(self).quic.connection),
                told == (|event: ConnectionEvent| session_status(event)),
                changes@ == status_changes(polled, told),
                self.quic.stream_events@ == old(self).quic.stream_events@ + stream_events(polled),
                if self.control_stream_send == old(self).control_stream_send {
                    &&& polled.len() <= all.len()
                    &&& polled == all.take(polled.len() as int)
                    &&& events(self.quic.connection) == all.skip(polled.len() as int)
                    &&& self.engine() == old(self).engine()
                    &&& self.quic.status() == old(self).quic.status()
                    &&& any_connected(polled) ==> control_opened(*old(self), *self)
                } else {
                    &&& old(self).control_stream_send is None
                    &&& self.control_stream_send is Some
                    &&& 0 <= opening < polled.len()
                    &&& opening < all.len()
                    &&& all[opening] is Connected
                    &&& polled.len() - opening - 1 <= events(opened).len()
                    &&& polled == all.take(opening + 1) + events(opened).take(
                        polled.len() - opening - 1,
                    )
                    &&& events(self.quic.connection) == events(opened).skip(
                        polled.len() - opening - 1,
                    )
                    &&& engine(opened) == self.engine()
                    &&& status(opened) == self.quic.status()
                    &&& control_opened(*old(self), *self)
                },
            decreases
                    if self.control_stream_send is None {
                        1int
                    } else {
                        0int
                    },
                    events(self.quic.connection).len(),
        {
            let ghost middle = *self;
            let ghost before = polled;
            match poll_event(&mut self.quic.connection) {
                None => {
                    proof {
                        if self.control_stream_send == old(self).control_stream_send {
                            assert(all.take(all.len() as int) =~= all);
                        } else {
                            assert(events(opened).take(polled.len() - opening - 1) =~= events(
                                opened,
                            ));
                            assert(opened_at(all, polled, opening, opened));
                        }
                        assert(events_taken(*old(self), *self, polled));
                    }
                    return changes;
                },
                Some(event) => {
                    let ghost taken = event;
                    proof {
                        lemma_events_push(polled, event, told);
                        polled = polled.push(event);
                        if middle.control_stream_send == old(self).control_stream_send {
                            assert(all.take(before.len() as int).push(event) =~= all.take(
                                polled.len() as int,
                            ));
                            assert(all.skip(before.len() as int).skip(1) =~= all.skip(
                                polled.len() as int,
                            ));
                            opening = before.len() as int;
                        } else {
                            let count = before.len() - opening - 1;
                            assert(events(opened).take(count).push(event) =~= events(opened).take(
                                count + 1,
                            ));
                            assert(events(opened).skip(count).skip(1) =~= events(opened).skip(
                                count + 1,
                            ));
                            assert(polled =~= all.take(opening + 1) + events(opened).take(
                                count + 1,
                            ));
                        }
                        lemma_any_connected_push(before, event);
                    }
                    let (event, reason) = told_event(event);
                    if let Some(status) = self.handle_event(event) {
                        changes.push((status, reason));
                    }
                    proof {
                        if middle.control_stream_send == old(self).control_stream_send
                            && self.control_stream_send != old(self).control_stream_send {
                            opened = self.quic.connection;
                            assert(events(opened).take(0) =~= Seq::empty());
                            assert(events(opened).skip(0) =~= events(opened));
                            assert(polled =~= all.take(opening + 1) + events(opened).take(0));
                        }
                    }
                    assert(self.quic.stream_events@ =~= old(self).quic.stream_events@
                        + stream_events(polled));
                },
            }
        }
    }

    /// Takes note of an event, and returns the new status of the connection if it has one. When the
    /// QUIC connection is established, both sides send their settings.
    pub fn handle_event(&mut self, event: ConnectionEvent) -> (status: Option<ConnectionStatus>)
        requires
            old(self).wf(),
        ensures
            final(self).wf(),
            final(self)@ == old(self)@,
            status == session_status(event),
            final(self).control_stream_send == old(self).control_stream_send ==> final(
                self).quic.connection == old(self).quic.connection,
            final(self).quic.stream_events@ == match event {
                ConnectionEvent::Stream(event) => old(self).quic.stream_events@.push(event),
                _ => old(self).quic.stream_events@,
            },
            final(self).quic.connection_entity == old(self).quic.connection_entity,
            final(self).quic.close == old(self).quic.close,
            final(self).quic.datagrams == old(self).quic.datagrams,
            event == ConnectionEvent::Connected ==> control_opened(*old(self), *final(self)),
            event != ConnectionEvent::Connected ==> final(self).control_stream_send == old(
                self,
            ).control_stream_send && final(self).quic.connection == old(self).quic.connection,
    {
        match event {
            ConnectionEvent::HandshakeDataReady => None,
            ConnectionEvent::Connected => {
                self.open_control_stream();
                None
            },
            ConnectionEvent::ConnectionLost => Some(ConnectionStatus::Closed),
            ConnectionEvent::Stream(event) => {
                self.quic.stream_events.push_back(event);
                None
            },
            ConnectionEvent::DatagramReceived => None,
            ConnectionEvent::DatagramsUnblocked => None,
        }
    }

    /// Opens a stream and sends the request on it. Returns the stream, if that could be done: the
    /// peer must allow a stream, and the request must not be too long for the coder.
    fn send_request(&mut self) -> (stream: Option<u64>)
        requires
            old(self).wf(),
            old(self).requested_path is Some,
            old(self).connect_stream is None,
        ensures
            final(self).wf(),
            final(self).same_quic(*old(self)),
            final(self).engine().uni_waiting == old(self).engine().uni_waiting,
            final(self).engine().bi_waiting == old(self).engine().bi_waiting,
            final(self).engine().unread == old(self).engine().unread,
            final(self).engine().unordered == old(self).engine().unordered,
            old(self).engine().recv_ids.subset_of(final(self).engine().recv_ids),
            old(self).engine().send_ids.subset_of(final(self).engine().send_ids),
            stream is Some <==> request_possible(old(self).quic, old(self).requested_path->0@),
            match stream {
                Some(stream) => {
                    &&& final(self)@ == with_request_sent(old(self)@, stream)
                    &&& old(self).engine().unread_on(stream).len() == 0
                    &&& request_written(
                        old(self).engine(),
                        final(self).engine(),
                        old(self).requested_path->0@,
                        stream,
                    )
                },
                None => final(self)@ == old(self)@ && request_failed(*old(self), *final(self)),
            },
    {
        let stream: u64 = match open_stream(&mut self.quic.connection, true) {
            None => {
                return None;
            },
            Some(stream) => stream,
        };
        let authority = remote_address(&self.quic.connection);
        let path = match &self.requested_path {
            None => {
                return None;
            },
            Some(path) => path.as_str(),
        };
        let ghost opened = self.quic.connection;
        assert(engine(opened) == old(self).engine().opened(stream, true));
        match encode_connect_request(authority.as_str(), path) {
            Err(_) => None,
            Ok(request) => {
                assert(encoded_request(authority@, path@) == Ok::<Seq<u8>, super::h3::H3Error>(
                    chunk(request),
                ));
                write_what_fits(&mut self.quic.connection, stream, &request);
                self.connect_stream = Some(stream);
                self.session.state = SessionState::AwaitingConnectResponse;
                self.session.request_stream_id = Some(stream);
                self.session.session_id = stream / 4;
                Some(stream)
            },
        }
    }

    /// Takes data from a control stream of the peer. If a request is due then, it is sent. Returns
    /// the stream of the request.
    pub fn receive_control(&mut self, data: Bytes) -> (request: Option<u64>)
        requires
            old(self).wf(),
        ensures
            final(self).wf(),
            final(self).same_quic(*old(self)),
            final(self).engine().uni_waiting == old(self).engine().uni_waiting,
            final(self).engine().bi_waiting == old(self).engine().bi_waiting,
            final(self).engine().unread == old(self).engine().unread,
            final(self).engine().unordered == old(self).engine().unordered,
            old(self).engine().recv_ids.subset_of(final(self).engine().recv_ids),
            old(self).engine().send_ids.subset_of(final(self).engine().send_ids),
            control_step(*old(self), *final(self), chunk(data), request),
            request matches Some(stream) ==> old(self).engine().unread_on(stream).len() == 0,
    {
        if data.is_empty() {
            return None;
        }
        let ready = match &mut self.control_stream_recv {
            None => {
                return None;
            },
            Some(control) => {
                let _ = control.process_received(data);
                control.settings_received && control.peer_settings.supports_webtransport()
            },
        };
        if !ready {
            return None;
        }
        self.session.state = SessionState::SettingsReceived;
        assert(self@ == with_control_data(old(self)@, chunk(data)).0);
        assert(self.quic == old(self).quic);
        if self.requested_path.is_some() && self.connect_stream.is_none() {
            self.send_request()
        } else {
            None
        }
    }

    /// Takes a request of the peer. If it is a request for a WebTransport session, it is answered,
    /// and the new status of the connection is returned.
    pub fn receive_request(&mut self, stream: u64, data: &[u8]) -> (status: Option<
        ConnectionStatus,
    >)
        requires
            old(self).wf(),
            old(self).engine().send_ids.contains(stream),
        ensures
            final(self).wf(),
            final(self).same_quic(*old(self)),
            request_step(*old(self), *final(self), stream, data@),
            status == with_request(old(self)@, stream, data@).1,
    {
        if data.len() == 0 {
            return None;
        }
        let (path, protocol) = match parse_connect_request(data) {
            Err(_) => {
                return None;
            },
            Ok((_, path, protocol)) => (path, protocol),
        };
        proof {
            super::header::lemma_utf8_injective(protocol@, "webtransport"@);
        }
        if !same_bytes(protocol.as_str().as_bytes(), "webtransport".as_bytes()) {
            return None;
        }
        match encode_connect_response() {
            Err(_) => None,
            Ok(response) => {
                write_what_fits(&mut self.quic.connection, stream, &response);
                self.session.state = SessionState::Established;
                self.session.request_stream_id = Some(stream);
                self.session.session_id = stream / 4;
                self.requested_path = Some(path);
                Some(ConnectionStatus::Established)
            },
        }
    }

    /// Takes the response of the peer, and returns the new status of the connection if it has one.
    pub fn receive_response(&mut self, data: &[u8]) -> (status: Option<ConnectionStatus>)
        requires
            old(self).wf(),
        ensures
            final(self).wf(),
            final(self).same_quic(*old(self)),
            final(self).engine() == old(self).engine(),
            (final(self)@, status) == with_response(old(self)@, data@),
    {
        if data.len() == 0 {
            return None;
        }
        match parse_connect_response(data) {
            Err(_) => None,
            Ok(status) => if status == 200 {
                self.session.state = SessionState::Established;
                Some(ConnectionStatus::Established)
            } else {
                self.session.state = SessionState::Closed;
                Some(ConnectionStatus::Failed)
            },
        }
    }
}

/// The effect of the first `n` of some control streams of the peer, when requests were sent on some
/// streams.
pub open spec fn control_run(
    handshake: HandshakeView,
    before: EngineView,
    ids: Seq<u64>,
    requests: Seq<Option<u64>>,
    n: nat,
) -> HandshakeView
    decreases n,
{
    if n == 0 {
        handshake
    } else {
        with_control(
            control_run(handshake, before, ids, requests, (n - 1) as nat),
            share_of(before, ids, n - 1),
            requests[n - 1],
        )
    }
}

/// The effect of `n` streams of the peer, from some place on, that may hold requests.
pub open spec fn request_run(
    handshake: HandshakeView,
    before: EngineView,
    ids: Seq<u64>,
    first: nat,
    n: nat,
) -> (HandshakeView, Seq<ConnectionStatus>)
    decreases n,
{
    if n == 0 {
        (handshake, Seq::empty())
    } else {
        let (middle, statuses) = request_run(handshake, before, ids, first, (n - 1) as nat);
        let place = first + n - 1;
        let (after, status) = with_request(middle, ids[place], share_of(before, ids, place));
        (after, with_status(statuses, status))
    }
}

/// Statuses with one more, if there is one.
pub open spec fn with_status(
    statuses: Seq<ConnectionStatus>,
    status: Option<ConnectionStatus>,
) -> Seq<ConnectionStatus> {
    match status {
        Some(status) => statuses.push(status),
        None => statuses,
    }
}

/// The streams that are read: those that may be control streams, and those that may hold requests
/// if requests are accepted.
pub open spec fn streams_read(after_control: HandshakeView, before: EngineView) -> Seq<u64> {
    if awaits_request(after_control) {
        before.uni_waiting + before.bi_waiting
    } else {
        before.uni_waiting
    }
}

/// The effect of all that the peer has sent to establish a session: its control streams, then its
/// requests if they are accepted, then its response if there is one to wait for.
pub open spec fn handshake_run(
    handshake: HandshakeView,
    before: EngineView,
    requests: Seq<Option<u64>>,
) -> (HandshakeView, Seq<ConnectionStatus>) {
    let uni = before.uni_waiting.len();
    let after_control = control_run(handshake, before, before.uni_waiting, requests, uni);
    let ids = streams_read(after_control, before);
    let (after_requests, statuses) = request_run(
        after_control,
        before,
        ids,
        uni,
        (ids.len() - uni) as nat,
    );
    match after_requests.connect_stream {
        Some(stream) if after_requests.session.state == SessionState::AwaitingConnectResponse => {
            let (after, status) = with_response(
                after_requests,
                share_of(before, ids.push(stream), ids.len() as int),
            );
            (after, with_status(statuses, status))
        },
        _ => (after_requests, statuses),
    }
}

impl WebTransportConnectionState {
    /// Accepts and reads all streams of the peer that may be control streams. Returns them, and on
    /// which streams requests were sent.
    fn process_control_streams(&mut self) -> (read: (Vec<u64>, Ghost<Seq<Option<u64>>>))
        requires
            old(self).wf(),
        ensures
            final(self).wf(),
            final(self).same_quic(*old(self)),
            final(self).engine().bi_waiting == old(self).engine().bi_waiting,
            final(self).engine().unordered == old(self).engine().unordered,
            read.0@ == old(self).engine().uni_waiting,
            read.1@.len() == read.0@.len(),
            read_out(old(self).engine(), final(self).engine(), read.0@),
            controls_taken(*old(self), *final(self), read.1@),
            final(self)@ == control_run(
                old(self)@,
                old(self).engine(),
                read.0@,
                read.1@,
                read.0@.len(),
            ),
    {
        let ghost before = self.engine();
        let ghost start = self@;
        let ghost mut requests: Seq<Option<u64>> = Seq::empty();
        let uni = accept_all(&mut self.quic.connection, false);
        let ghost accepted = *self;
        let mut i: usize = 0;
        assert(streams_accepted(*old(self), accepted, false));
        proof {
            assert(uni@.take(0) =~= Seq::empty());
            assert forall|id: u64| #[trigger] self.engine().unread_on(id) == before.unread_on(
                id,
            ) by {};
        }
        while i < uni.len()
            invariant
                self.wf(),
                self.same_quic(*old(self)),
                before == old(self).engine(),
                start == old(self)@,
                uni@ == before.uni_waiting,
                i <= uni@.len(),
                requests.len() == i,
                self@ == control_run(start, before, uni@, requests, i as nat),
                self.engine().bi_waiting == before.bi_waiting,
                self.engine().unordered == before.unordered,
                forall|j: int|
                    0 <= j < uni@.len() ==> self.engine().recv_ids.contains(#[trigger] uni@[j])
                        && !before.unordered.contains(uni@[j]),
                read_out(before, self.engine(), uni@.take(i as int)),
                control_steps(accepted, *self, uni@.take(i as int), requests),
            decreases uni@.len() - i,
        {
            let id: u64 = uni[i];
            let ghost reached = *self;
            let ghost middle = self.engine();
            let data = read_all(&mut self.quic.connection, id);
            let ghost read = *self;
            let ghost emptied = self.engine();
            proof {
                lemma_read_out(before, middle, emptied, uni@, i as int);
            }
            let request = self.receive_control(from_vec(data));
            proof {
                let more = requests.push(request);
                lemma_control_run_prefix(start, before, uni@, requests, more, i as nat);
                assert(uni@.take(i + 1) =~= uni@.take(i as int).push(id));
                lemma_control_steps(
                    accepted,
                    reached,
                    read,
                    *self,
                    uni@.take(i as int),
                    requests,
                    id,
                    request,
                );
                requests = more;
                assert forall|other: u64| #[trigger] self.engine().unread_on(other)
                    == emptied.unread_on(other) by {};
            }
            i = i + 1;
        }
        assert(uni@.take(i as int) =~= uni@);
        (uni, Ghost(requests))
    }

    /// Accepts and reads all streams of the peer that may hold requests, after other streams have
    /// been read. Returns them with the statuses that the connection has got to.
    fn process_requests(
        &mut self,
        uni: &Vec<u64>,
        Ghost(before): Ghost<EngineView>,
    ) -> (read: (Vec<u64>, Vec<ConnectionStatus>))
        requires
            old(self).wf(),
            read_out(before, old(self).engine(), uni@),
        ensures
            final(self).wf(),
            final(self).same_quic(*old(self)),
            final(self).engine().unordered == old(self).engine().unordered,
            read.0@ == old(self).engine().bi_waiting,
            read_out(before, final(self).engine(), uni@ + read.0@),
            requests_taken(*old(self), *final(self)),
            (final(self)@, read.1@) == request_run(
                old(self)@,
                before,
                uni@ + read.0@,
                uni@.len(),
                read.0@.len(),
            ),
    {
        let ghost start = self@;
        let ghost first = uni@.len();
        let ghost entry = self.engine();
        let mut statuses: Vec<ConnectionStatus> = Vec::new();
        let bi = accept_all(&mut self.quic.connection, true);
        let ghost accepted = *self;
        let ghost ids = uni@ + bi@;
        assert(streams_accepted(*old(self), accepted, true));
        proof {
            assert(ids.take(first as int) =~= uni@);
            assert forall|id: u64| #[trigger] self.engine().unread_on(id) == entry.unread_on(
                id,
            ) by {};
        }
        let mut k: usize = 0;
        while k < bi.len()
            invariant
                self.wf(),
                self.same_quic(*old(self)),
                start == old(self)@,
                entry == old(self).engine(),
                bi@ == entry.bi_waiting,
                first == uni@.len(),
                ids == uni@ + bi@,
                k <= bi@.len(),
                self.engine().unordered == entry.unordered,
                (self@, statuses@) == request_run(start, before, ids, first, k as nat),
                forall|j: int|
                    0 <= j < bi@.len() ==> self.engine().recv_ids.contains(#[trigger] bi@[j])
                        && self.engine().send_ids.contains(bi@[j]) && !entry.unordered.contains(
                        bi@[j],
                    ),
                read_out(before, self.engine(), ids.take(first + k)),
                request_steps(accepted, *self, bi@.take(k as int)),
            decreases bi@.len() - k,
        {
            let id: u64 = bi[k];
            let ghost place = first + k;
            let ghost reached = *self;
            let ghost middle = self.engine();
            assert(ids[place] == id);
            let data = read_all(&mut self.quic.connection, id);
            let ghost read = *self;
            let ghost emptied = self.engine();
            proof {
                lemma_read_out(before, middle, emptied, ids, place);
            }
            if let Some(status) = self.receive_request(id, data.as_slice()) {
                statuses.push(status);
            }
            assert forall|other: u64| #[trigger] self.engine().unread_on(other)
                == emptied.unread_on(other) by {};
            proof {
                assert(bi@.take(k + 1) =~= bi@.take(k as int).push(id));
                lemma_request_steps(accepted, reached, read, *self, bi@.take(k as int), id);
            }
            k = k + 1;
        }
        assert(bi@.take(k as int) =~= bi@);
        assert(ids.take(first + k) =~= ids);
        (bi, statuses)
    }

    /// Takes in all that the peer has sent to establish a session, and does what is due. Returns
    /// the statuses that the connection has got to.
    pub fn process_h3_protocol(&mut self) -> (statuses: Vec<ConnectionStatus>)
        requires
            old(self).wf(),
        ensures
            final(self).wf(),
            processed(*old(self), *final(self), statuses@),
    {
        let ghost before = self.engine();
        let ghost start = self@;
        let (uni, requests) = self.process_control_streams();
        let ghost controlled = *self;
        let ghost after_control = self@;
        let ghost ids = streams_read(after_control, before);
        let mut statuses: Vec<ConnectionStatus> = Vec::new();
        if self.requested_path.is_none() && self.session.state == SessionState::SettingsReceived {
            let (_, established) = self.process_requests(&uni, Ghost(before));
            statuses = established;
        }
        let ghost answered = *self;
        let ghost after_requests = self@;
        assert((after_requests, statuses@) == request_run(
            after_control,
            before,
            ids,
            uni@.len(),
            (ids.len() - uni@.len()) as nat,
        ));
        assert(read_out(before, self.engine(), ids));
        if self.session.state == SessionState::AwaitingConnectResponse {
            if let Some(stream) = self.connect_stream {
                let data = read_all(&mut self.quic.connection, stream);
                proof {
                    assert(ids.push(stream).take(ids.len() as int) =~= ids);
                    assert(data@ == share_of(before, ids.push(stream), ids.len() as int));
                    assert(stream_drained(answered, *self, stream));
                }
                if let Some(status) = self.receive_response(data.as_slice()) {
                    statuses.push(status);
                }
            }
        }
        assert(handshake_stages(*old(self), controlled, answered, *self, requests@));
        assert((self@, statuses@) == handshake_run(start, before, requests@));
        statuses
    }
}

/// One more control stream is taken in.
proof fn lemma_control_steps(
    before: WebTransportConnectionState,
    middle: WebTransportConnectionState,
    read: WebTransportConnectionState,
    after: WebTransportConnectionState,
    ids: Seq<u64>,
    requests: Seq<Option<u64>>,
    stream: u64,
    request: Option<u64>,
)
    requires
        control_steps(before, middle, ids, requests),
        control_stage(middle, read, after, stream, request),
    ensures
        control_steps(before, after, ids.push(stream), requests.push(request)),
{
    assert(ids.push(stream).drop_last() =~= ids);
    assert(requests.push(request).drop_last() =~= requests);
    assert(control_stage(
        middle,
        read,
        after,
        ids.push(stream).last(),
        requests.push(request).last(),
    ));
}

/// One more stream that may hold a request is taken in.
proof fn lemma_request_steps(
    before: WebTransportConnectionState,
    middle: WebTransportConnectionState,
    read: WebTransportConnectionState,
    after: WebTransportConnectionState,
    ids: Seq<u64>,
    stream: u64,
)
    requires
        request_steps(before, middle, ids),
        request_stage(middle, read, after, stream),
    ensures
        request_steps(before, after, ids.push(stream)),
{
    assert(ids.push(stream).drop_last() =~= ids);
    assert(request_stage(middle, read, after, ids.push(stream).last()));
}

/// The effect of the first streams depends on the first requests only.
proof fn lemma_control_run_prefix(
    handshake: HandshakeView,
    before: EngineView,
    ids: Seq<u64>,
    requests: Seq<Option<u64>>,
    more: Seq<Option<u64>>,
    n: nat,
)
    requires
        n <= requests.len(),
        requests.is_prefix_of(more),
    ensures
        control_run(handshake, before, ids, requests, n) == control_run(
            handshake,
            before,
            ids,
            more,
            n,
        ),
    decreases n,
{
    if n > 0 {
        lemma_control_run_prefix(handshake, before, ids, requests, more, (n - 1) as nat);
        assert(requests[n - 1] == more[n - 1]);
    }
}

/// Whether taking in what the peer has sent got a connection from one state to another, with some
/// statuses on the way. Requests were sent, and accepted ones answered, in the states on the way.
pub open spec fn processed(
    before: WebTransportConnectionState,
    after: WebTransportConnectionState,
    statuses: Seq<ConnectionStatus>,
) -> bool {
    &&& after.wf()
    &&& after.same_quic(before)
    &&& exists|
        requests: Seq<Option<u64>>,
        controlled: WebTransportConnectionState,
        answered: WebTransportConnectionState,
    | #[trigger]
        handshake_stages(before, controlled, answered, after, requests) && (after@, statuses)
            == handshake_run(before@, before.engine(), requests)
}

/// The connections of a WebTransport endpoint.
pub type WebTransportConnections = ConnectionTable<WebTransportConnectionState>;

/// Whether all connections are consistent.
pub open spec fn connections_wf(table: WebTransportConnections) -> bool {
    forall|handle: u64|
        table.connections@.contains_key(handle) ==> (#[trigger] table.connections@[handle]).wf()
}

/// Gets a connection, whether its session is established or not.
pub fn get_connection(table: &mut WebTransportConnections, entity: u64) -> (context: Result<
    WebTransportConnectionContext<'_>,
    NoConnectionError,
>)
    ensures
        final(table).handles == old(table).handles,
        match context {
            Ok(context) => {
                let before = old(table).connection(entity)->0;
                &&& old(table).connection(entity) is Some
                &&& *context.connection == before.quic
                &&& *context.session == before.session
                &&& final(table).connections@ == old(table).connections@.insert(
                    old(table).handles@[entity],
                    WebTransportConnectionState {
                        quic: *final(context.connection),
                        session: *final(context.session),
                        ..before
                    },
                )
            },
            Err(_) => old(table).connection(entity) is None && final(table).connections@ == old(
                table,
            ).connections@,
        },
{
    match table.get_connection(entity) {
        None => Err(NoConnectionError),
        Some(state) => Ok(
            WebTransportConnectionContext {
                connection: &mut state.quic,
                session: &mut state.session,
            },
        ),
    }
}

/// Takes in all that the peers of all connections have sent to establish sessions. Returns the
/// statuses that each connection has got to, by handle.
pub fn process_all(table: &mut WebTransportConnections) -> (statuses: Vec<
    (u64, Vec<ConnectionStatus>),
>)
    requires
        connections_wf(*old(table)),
    ensures
        connections_wf(*final(table)),
        final(table).handles == old(table).handles,
        final(table).connections@.dom() == old(table).connections@.dom(),
        statuses@.map_values(|entry: (u64, Vec<ConnectionStatus>)| entry.0).to_set() == old(
            table,
        ).connections@.dom(),
        statuses@.map_values(|entry: (u64, Vec<ConnectionStatus>)| entry.0).no_duplicates(),
        forall|i: int|
            0 <= i < statuses@.len() ==> processed(
                old(table).connections@[(#[trigger] statuses@[i]).0],
                final(table).connections@[statuses@[i].0],
                statuses@[i].1@,
            ),
{
    let handles = table.all_handles();
    let ghost before = table.connections@;
    let ghost handle_of = |entry: (u64, Vec<ConnectionStatus>)| entry.0;
    let mut statuses: Vec<(u64, Vec<ConnectionStatus>)> = Vec::new();
    let mut i: usize = 0;
    assert(statuses@.map_values(handle_of) =~= handles@.take(0));
    while i < handles.len()
        invariant
            connections_wf(*table),
            before == old(table).connections@,
            table.handles == old(table).handles,
            table.connections@.dom() == before.dom(),
            handles@.no_duplicates(),
            handles@.to_set() == before.dom(),
            handle_of == (|entry: (u64, Vec<ConnectionStatus>)| entry.0),
            i <= handles@.len(),
            statuses@.len() == i,
            statuses@.map_values(handle_of) == handles@.take(i as int),
            forall|j: int|
                0 <= j < i ==> (#[trigger] statuses@[j]).0 == handles@[j] && processed(
                    before[handles@[j]],
                    table.connections@[handles@[j]],
                    statuses@[j].1@,
                ),
            forall|j: int|
                i <= j < handles@.len() ==> table.connections@[#[trigger] handles@[j]]
                    == before[handles@[j]],
        decreases handles@.len() - i,
    {
        let handle: u64 = handles[i];
        let ghost states = table.connections@;
        let ghost so_far = statuses@;
        assert(handles@.to_set().contains(handle));
        assert(states[handles@[i as int]] == before[handles@[i as int]]);
        assert(states[handle].wf());
        let mut reached: Vec<ConnectionStatus> = Vec::new();
        match table.get_by_handle(handle) {
            None => {},
            Some(state) => {
                reached = state.process_h3_protocol();
            },
        }
        statuses.push((handle, reached));
        proof {
            assert(table.connections@.dom() =~= before.dom());
            assert(processed(before[handle], table.connections@[handle], reached@));
            assert forall|other: u64| table.connections@.contains_key(other) implies (#[trigger]
            table.connections@[other]).wf() by {
                if other != handle {
                    assert(states[other].wf());
                }
            }
            assert(statuses@.map_values(handle_of) =~= so_far.map_values(handle_of).push(handle));
            assert(handles@.take(i + 1) =~= handles@.take(i as int).push(handle));
            assert forall|j: int| 0 <= j < i + 1 implies (#[trigger] statuses@[j]).0 == handles@[j]
                && processed(
                before[handles@[j]],
                table.connections@[handles@[j]],
                statuses@[j].1@,
            ) by {
                if j < i {
                    assert(so_far[j] == statuses@[j]);
                    assert(handles@[j] != handle);
                }
            }
            assert forall|j: int| i + 1 <= j < handles@.len() implies
                table.connections@[#[trigger] handles@[j]] == before[handles@[j]] by {
                assert(handles@[j] != handle);
            }
        }
        i = i + 1;
    }
    assert(handles@.take(i as int) =~= handles@);
    statuses
}

/// A control stream of the peer never establishes a session.
proof fn lemma_control_does_not_establish(
    handshake: HandshakeView,
    before: EngineView,
    ids: Seq<u64>,
    requests: Seq<Option<u64>>,
    n: nat,
)
    requires
        handshake.session.state != SessionState::Established,
    ensures
        control_run(handshake, before, ids, requests, n).session.state
            != SessionState::Established,
    decreases n,
{
    if n > 0 {
        lemma_control_does_not_establish(handshake, before, ids, requests, (n - 1) as nat);
    }
}

/// Requests establish a session, and say so, or change nothing.
proof fn lemma_requests_establish(
    handshake: HandshakeView,
    before: EngineView,
    ids: Seq<u64>,
    first: nat,
    n: nat,
)
    ensures
        ({
            let (after, statuses) = request_run(handshake, before, ids, first, n);
            &&& statuses.len() == 0 ==> after == handshake
            &&& statuses.len() > 0 ==> after.session.state == SessionState::Established
            &&& forall|i: int|
                0 <= i < statuses.len() ==> #[trigger] statuses[i] == ConnectionStatus::Established
        }),
    decreases n,
{
    if n > 0 {
        lemma_requests_establish(handshake, before, ids, first, (n - 1) as nat);
    }
}

/// A session is established only by a request that is accepted or a response that is a success, and
/// whenever it is, that is the last status that is reported. When a session fails, that is the last
/// status that is reported, and the session is closed.
pub proof fn established_is_reported(
    handshake: HandshakeView,
    before: EngineView,
    requests: Seq<Option<u64>>,
)
    requires
        handshake.session.state != SessionState::Established,
    ensures
        ({
            let (after, statuses) = handshake_run(handshake, before, requests);
            &&& after.session.state == SessionState::Established <==> statuses.len() > 0
                && statuses.last() == ConnectionStatus::Established
            &&& statuses.len() > 0 && statuses.last() != ConnectionStatus::Established
                ==> statuses.last() == ConnectionStatus::Failed && after.session.state
                == SessionState::Closed
        }),
{
    let uni = before.uni_waiting;
    let after_control = control_run(handshake, before, uni, requests, uni.len());
    let ids = streams_read(after_control, before);
    lemma_control_does_not_establish(handshake, before, uni, requests, uni.len());
    lemma_requests_establish(
        after_control,
        before,
        ids,
        uni.len(),
        (ids.len() - uni.len()) as nat,
    );
}

/// A server that gets the request of a client establishes a session for the path that the client
/// asked for, a client that gets a successful response establishes it too, and both sides give the
/// session the same id.
pub proof fn sides_agree(
    client: HandshakeView,
    server: HandshakeView,
    stream: u64,
    data: Seq<u8>,
    response: Seq<u8>,
    authority: Seq<char>,
    path: Seq<char>,
)
    requires
        0 < data.len(),
        0 < response.len(),
        connect_request(data) == Ok::<_, super::h3::H3Error>((authority, path, "webtransport"@)),
        connect_response(response) == Ok::<u16, super::h3::H3Error>(200),
        headers_frame(response_fields()) is Ok,
    ensures
        ({
            let asked = with_request_sent(client, stream);
            let (accepted, server_status) = with_request(server, stream, data);
            let (answered, client_status) = with_response(asked, response);
            &&& server_status == Some(ConnectionStatus::Established)
            &&& client_status == Some(ConnectionStatus::Established)
            &&& accepted.session.state == SessionState::Established
            &&& answered.session.state == SessionState::Established
            &&& accepted.requested_path == Some(path)
            &&& accepted.session.session_id == answered.session.session_id
        }),
{
}

/// Once a session is established, nothing that the peer sends on its request stream changes that,
/// and no more requests are accepted.
pub proof fn established_stays(
    handshake: HandshakeView,
    before: EngineView,
    requests: Seq<Option<u64>>,
)
    requires
        handshake.session.state == SessionState::Established,
        before.uni_waiting.len() == 0,
    ensures
        handshake_run(handshake, before, requests) == (
            handshake,
            Seq::<ConnectionStatus>::empty(),
        ),
{
}

/// A side learns that its peer is ready from settings that have WebTransport and datagrams, and from
/// nothing else: the other settings do not matter. Then a request is due if the side has a path to
/// ask for and has not asked.
pub proof fn ready_peer_is_noticed(handshake: HandshakeView, control: ControlView, data: Seq<u8>)
    requires
        handshake.control == Some(control),
        data.len() > 0,
    ensures
        ({
            let received = control_received(control, data).0;
            let (after, due) = with_control_data(handshake, data);
            &&& after.control == Some(received)
            &&& after.connect_stream == handshake.connect_stream
            &&& after.requested_path == handshake.requested_path
            &&& after.session.session_id == handshake.session.session_id
            &&& after.session.request_stream_id == handshake.session.request_stream_id
            &&& if received.settings_received && received.peer_settings.enable_webtransport
                && received.peer_settings.enable_datagrams {
                &&& after.session.state == SessionState::SettingsReceived
                &&& due <==> handshake.requested_path is Some && handshake.connect_stream is None
            } else {
                &&& after.session.state == handshake.session.state
                &&& !due
            }
        }),
{
}

/// The bytes of a control stream that holds settings.
pub open spec fn settings_bytes(settings: Seq<(u64, u64)>) -> Seq<u8> {
    let payload = settings_payload(settings);
    seq![0u8, 4u8] + quic_varint(payload.len() as u64) + payload
}

/// Whether settings are those of a peer that supports WebTransport.
pub open spec fn settings_of_ready_peer(settings: Seq<(u64, u64)>) -> bool {
    &&& settings_payload(settings).len() < 0x4000_0000_0000_0000
    &&& forall|i: int|
        0 <= i < settings.len() ==> (#[trigger] settings[i]).0 < 0x4000_0000_0000_0000
            && settings[i].1 < 0x4000_0000_0000_0000
    &&& last_setting(settings, 0x33) matches Some(value) && value != 0
    &&& last_setting(settings, 0x2b603742) matches Some(value) && value != 0
}

/// A new connection that receives the settings of a peer that supports WebTransport, whatever other
/// settings there are, is ready for a session: a client sends its request, a server accepts
/// requests.
pub proof fn settings_make_ready(
    path: Option<Seq<char>>,
    settings: Seq<(u64, u64)>,
    stream: u64,
)
    requires
        settings_of_ready_peer(settings),
    ensures
        ({
            let data = settings_bytes(settings);
            let (after, due) = with_control_data(new_handshake(path), data);
            &&& after.session.state == SessionState::SettingsReceived
            &&& after.requested_path == path
            &&& after.connect_stream is None
            &&& due <==> path is Some
            &&& with_control(new_handshake(path), data, Some(stream)) == if path is Some {
                HandshakeView {
                    connect_stream: Some(stream),
                    session: WebTransportSession {
                        session_id: stream / 4,
                        request_stream_id: Some(stream),
                        state: SessionState::AwaitingConnectResponse,
                    },
                    ..after
                }
            } else {
                after
            }
            &&& with_control(new_handshake(path), data, None) == after
            &&& awaits_request(after) <==> path is None
        }),
{
    let data = settings_bytes(settings);
    settings_are_taken_over(new_control(), settings, Seq::empty());
    assert(data + Seq::<u8>::empty() =~= data);
}

/// A server that has received the settings of a ready peer and a request for a WebTransport session
/// establishes the session, on the stream of the request and for its path, and says so once.
pub proof fn server_establishes(
    before: EngineView,
    settings: Seq<(u64, u64)>,
    control_stream: u64,
    stream: u64,
    request: Seq<u8>,
    authority: Seq<char>,
    path: Seq<char>,
    requests: Seq<Option<u64>>,
)
    requires
        settings_of_ready_peer(settings),
        before.uni_waiting == seq![control_stream],
        before.bi_waiting == seq![stream],
        stream != control_stream,
        before.unread_on(control_stream) == settings_bytes(settings),
        before.unread_on(stream) == request,
        request.len() > 0,
        connect_request(request) == Ok::<_, super::h3::H3Error>(
            (authority, path, "webtransport"@),
        ),
        headers_frame(response_fields()) is Ok,
    ensures
        ({
            let (after, statuses) = handshake_run(new_handshake(None), before, requests);
            &&& after.session.state == SessionState::Established
            &&& after.session.session_id == stream / 4
            &&& after.session.request_stream_id == Some(stream)
            &&& after.requested_path == Some(path)
            &&& statuses == seq![ConnectionStatus::Established]
        }),
{
    settings_make_ready(None, settings, stream);
    let start = new_handshake(None);
    let uni = before.uni_waiting;
    let ids = uni + before.bi_waiting;
    assert(uni.take(0) =~= Seq::empty());
    reveal_with_fuel(control_run, 2);
    assert(share_of(before, uni, 0) == settings_bytes(settings));
    assert(control_run(start, before, uni, requests, 1) == with_control(
        start,
        settings_bytes(settings),
        requests[0],
    ));
    assert(ids.take(1) =~= uni);
    assert(ids[1] == stream);
    assert(!uni.contains(stream)) by {
        if uni.contains(stream) {
            assert(uni[uni.index_of(stream)] == stream);
        }
    }
    assert(share_of(before, ids, 1) == request);
    reveal_with_fuel(request_run, 2);
    let (after, statuses) = handshake_run(start, before, requests);
    assert(statuses =~= seq![ConnectionStatus::Established]);
}

/// A client that has asked gets what the response says: the session is established by the status
/// 200, fails with any other status, and is waited for as long as there is no response.
pub proof fn response_decides(
    handshake: HandshakeView,
    before: EngineView,
    stream: u64,
    requests: Seq<Option<u64>>,
)
    requires
        handshake.session.state == SessionState::AwaitingConnectResponse,
        handshake.connect_stream == Some(stream),
        before.uni_waiting.len() == 0,
    ensures
        ({
            let data = before.unread_on(stream);
            let (after, statuses) = handshake_run(handshake, before, requests);
            let session = handshake.session;
            let response = connect_response(data);
            &&& after.control == handshake.control
            &&& after.connect_stream == handshake.connect_stream
            &&& after.requested_path == handshake.requested_path
            &&& after.session.session_id == session.session_id
            &&& after.session.request_stream_id == session.request_stream_id
            &&& if data.len() == 0 || response is Err {
                &&& after.session.state == SessionState::AwaitingConnectResponse
                &&& statuses == Seq::<ConnectionStatus>::empty()
            } else if response == Ok::<u16, super::h3::H3Error>(200) {
                &&& after.session.state == SessionState::Established
                &&& statuses == seq![ConnectionStatus::Established]
            } else {
                &&& after.session.state == SessionState::Closed
                &&& statuses == seq![ConnectionStatus::Failed]
            }
        }),
{
    let uni = before.uni_waiting;
    let ids = uni;
    assert(control_run(handshake, before, uni, requests, 0) == handshake);
    assert(ids.push(stream).take(0) =~= Seq::empty());
    assert(share_of(before, ids.push(stream), 0) == before.unread_on(stream));
    let (after, statuses) = handshake_run(handshake, before, requests);
    assert(Seq::<ConnectionStatus>::empty().push(ConnectionStatus::Established)
        =~= seq![ConnectionStatus::Established]);
    assert(Seq::<ConnectionStatus>::empty().push(ConnectionStatus::Failed)
        =~= seq![ConnectionStatus::Failed]);
}

/// A stream that holds no request for a WebTransport session changes nothing and is not answered:
/// one that is empty, or no CONNECT request, or one for another protocol.
pub proof fn other_requests_are_ignored(handshake: HandshakeView, stream: u64, data: Seq<u8>)
    requires
        data.len() == 0 || match connect_request(data) {
            Ok((_, _, protocol)) => protocol != "webtransport"@,
            Err(_) => true,
        },
    ensures
        with_request(handshake, stream, data) == (handshake, None::<ConnectionStatus>),
{
}

/// A connection is closed when the QUIC connection is lost, for the reason that it gives. That the
/// QUIC connection is established does not establish the session.
pub proof fn session_statuses(events: Seq<PolledEvent>)
    ensures
        status_changes(events, |event| session_status(event)) == events.filter(
            |event: PolledEvent| event is ConnectionLost,
        ).map_values(
            |event: PolledEvent|
                (ConnectionStatus::Closed, Some(event->ConnectionLost_0)),
        ),
    decreases events.len(),
{
    reveal(Seq::filter);
    let lost = |event: PolledEvent| event is ConnectionLost;
    let told = |event: PolledEvent| (ConnectionStatus::Closed, Some(event->ConnectionLost_0));
    let status = |event: ConnectionEvent| session_status(event);
    if events.len() > 0 {
        let front = events.drop_last();
        session_statuses(front);
        assert(status_changes(events, status) == if lost(events.last()) {
            status_changes(front, status).push(told(events.last()))
        } else {
            status_changes(front, status)
        });
        assert(events.filter(lost).map_values(told) =~= if lost(events.last()) {
            front.filter(lost).map_values(told).push(told(events.last()))
        } else {
            front.filter(lost).map_values(told)
        });
    } else {
        assert(events.filter(lost).map_values(told) =~= Seq::empty());
    }
}

/// The request of a client is sent on a new stream of both directions: it asks for the path that the
/// client wants, under the address that it is connected to, and the session has a quarter of the id
/// of the stream. Nothing is sent on other streams.
pub proof fn requests_ask_for_the_path(
    before: WebTransportConnectionState,
    after: WebTransportConnectionState,
    data: Seq<u8>,
    stream: u64,
)
    requires
        control_step(before, after, data, Some(stream)),
    ensures
        ({
            let held = before.engine();
            let left = after.engine();
            let path = before@.requested_path->0;
            let request = encoded_request(held.remote_address, path);
            &&& before@.requested_path is Some
            &&& before@.connect_stream is None
            &&& request is Ok
            &&& !held.send_ids.contains(stream)
            &&& left.send_ids.contains(stream)
            &&& left.recv_ids.contains(stream)
            &&& left.sent_on(stream).is_prefix_of(request->Ok_0)
            &&& forall|other: u64|
                other != stream ==> #[trigger] left.sent_on(other) == held.sent_on(other)
            &&& left.unread == held.unread
            &&& after@.connect_stream == Some(stream)
            &&& after@.session.session_id == stream / 4
            &&& after@.session.request_stream_id == Some(stream)
            &&& after@.session.state == SessionState::AwaitingConnectResponse
        }),
{
    let held = before.engine();
    let left = after.engine();
    let path = before@.requested_path->0;
    let request = encoded_request(held.remote_address, path)->Ok_0;
    let opened = choose|opened: Connection|
        #![trigger engine(opened)]
        engine(opened) == held.opened(stream, true) && left == engine(opened).write_asked(
            status(opened),
            stream,
            request,
        );
    assert(held.sent_on(stream) =~= Seq::empty());
    assert(engine(opened).sent_on(stream) =~= Seq::empty());
    assert(left.sent_on(stream).is_prefix_of(request));
}

/// A request that is due is sent if a stream can be opened and the request can be coded. One that is
/// not due, or cannot be sent, is not: then no bytes are sent.
pub proof fn due_requests_are_sent(
    before: WebTransportConnectionState,
    after: WebTransportConnectionState,
    data: Seq<u8>,
    request: Option<u64>,
)
    requires
        control_step(before, after, data, request),
    ensures
        ({
            let due = with_control_data(before@, data).1;
            let path = before@.requested_path->0;
            &&& request is Some <==> due && before.quic.status().bi_openable && encoded_request(
                before.engine().remote_address,
                path,
            ) is Ok
            &&& request is None ==> after.engine().sent == before.engine().sent && after@
                == with_control_data(before@, data).0
        }),
{
}

/// A request that is accepted is answered on its stream, behind what was sent there, with the
/// response that says so, as far as there is room. One that is not accepted is not answered.
pub proof fn accepted_requests_are_answered(
    before: WebTransportConnectionState,
    after: WebTransportConnectionState,
    stream: u64,
    data: Seq<u8>,
)
    requires
        request_step(before, after, stream, data),
        headers_frame(response_fields()) is Ok,
    ensures
        ({
            let held = before.engine();
            let left = after.engine();
            let response = headers_frame(response_fields())->Ok_0;
            let accepted = data.len() > 0 && match connect_request(data) {
                Ok((_, _, protocol)) => protocol == "webtransport"@,
                Err(_) => false,
            };
            &&& accepted ==> after@.session.state == SessionState::Established
                && after@.session.session_id == stream / 4 && after@.session.request_stream_id
                == Some(stream)
            &&& accepted && held.takes(before.quic.status(), stream)
                && before.quic.status().room[stream] >= response.len() ==> left.sent_on(stream)
                == held.sent_on(stream) + response
            &&& !accepted ==> left == held && after@ == before@
            &&& forall|other: u64|
                other != stream ==> #[trigger] left.sent_on(other) == held.sent_on(other)
        }),
{
    let response = headers_frame(response_fields())->Ok_0;
    assert(response.take(response.len() as int) =~= response);
}

/// The control stream is opened once, when a stream can be opened, and starts with the settings.
pub proof fn settings_are_sent_first(
    before: WebTransportConnectionState,
    after: WebTransportConnectionState,
)
    requires
        control_opened(before, after),
    ensures
        before.control_stream_send is Some ==> after.control_stream_send
            == before.control_stream_send && after.engine() == before.engine(),
        before.control_stream_send is None ==> (after.control_stream_send is Some
            <==> before.quic.status().uni_openable),
        before.control_stream_send is None ==> (after.control_stream_send matches Some(stream)
            ==> {
            &&& !before.engine().send_ids.contains(stream)
            &&& after.engine().send_ids.contains(stream)
            &&& after.engine().sent_on(stream).is_prefix_of(
                settings_bytes(
                    seq![(0x01u64, 0u64), (0x07u64, 0u64), (0x08u64, 1u64), (0x33u64, 1u64), (
                        0x2b603742u64,
                        1u64,
                    )],
                ),
            )
        }),
{
    if before.control_stream_send is None && after.control_stream_send is Some {
        let stream = after.control_stream_send->0;
        let held = before.engine();
        let left = after.engine();
        super::h3::blocks_are_framed(Seq::empty());
        let opened = choose|opened: Connection|
            #![trigger engine(opened)]
            engine(opened) == held.opened(stream, false) && left == engine(opened).write_asked(
                status(opened),
                stream,
                control_preface(),
            );
        assert(held.sent_on(stream) =~= Seq::empty());
        assert(engine(opened).sent_on(stream) =~= Seq::empty());
        assert(left.sent_on(stream).is_prefix_of(control_preface()));
    }
}

/// Whether data is a request for a WebTransport session.
pub open spec fn asks_for_session(data: Seq<u8>) -> bool {
    data.len() > 0 && match connect_request(data) {
        Ok((_, _, protocol)) => protocol == "webtransport"@,
        Err(_) => false,
    }
}

/// Every stream that holds a request for a WebTransport session is answered, however many there are
/// and whatever is between them. The session is that of the last one.
pub proof fn every_request_is_answered(
    handshake: HandshakeView,
    before: EngineView,
    ids: Seq<u64>,
    first: nat,
    n: nat,
)
    requires
        first + n <= ids.len(),
        ids.no_duplicates(),
        headers_frame(response_fields()) is Ok,
    ensures
        ({
            let asking = ids.subrange(first as int, (first + n) as int).filter(
                |id: u64| asks_for_session(before.unread_on(id)),
            );
            let (after, statuses) = request_run(handshake, before, ids, first, n);
            &&& statuses == asking.map_values(|id: u64| ConnectionStatus::Established)
            &&& asking.len() == 0 ==> after == handshake
            &&& asking.len() > 0 ==> {
                &&& after.session.state == SessionState::Established
                &&& after.session.session_id == asking.last() / 4
                &&& after.session.request_stream_id == Some(asking.last())
                &&& after.requested_path == Some(
                    (connect_request(before.unread_on(asking.last()))->Ok_0).1,
                )
                &&& after.control == handshake.control
                &&& after.connect_stream == handshake.connect_stream
            }
        }),
    decreases n,
{
    reveal(Seq::filter);
    let asks = |id: u64| asks_for_session(before.unread_on(id));
    let told = |id: u64| ConnectionStatus::Established;
    let looked = ids.subrange(first as int, (first + n) as int);
    let (after, statuses) = request_run(handshake, before, ids, first, n);
    if n == 0 {
        assert(looked.filter(asks).map_values(told) =~= statuses);
    } else {
        every_request_is_answered(handshake, before, ids, first, (n - 1) as nat);
        let place = first + n - 1;
        let front = ids.subrange(first as int, place);
        assert(looked.drop_last() =~= front);
        assert(looked.last() == ids[place]);
        assert(!ids.take(place).contains(ids[place])) by {
            if ids.take(place).contains(ids[place]) {
                let other = ids.take(place).index_of(ids[place]);
                assert(ids[other] == ids[place]);
            }
        }
        assert(share_of(before, ids, place) == before.unread_on(ids[place]));
        assert(looked.filter(asks).map_values(told) =~= if asks(ids[place]) {
            front.filter(asks).map_values(told).push(ConnectionStatus::Established)
        } else {
            front.filter(asks).map_values(told)
        });
    }
}

/// The settings of the peer count on whichever stream they come, if the other ones are silent.
proof fn lemma_settings_among_streams(
    before: EngineView,
    ids: Seq<u64>,
    requests: Seq<Option<u64>>,
    n: nat,
    control_stream: u64,
    settings: Seq<(u64, u64)>,
)
    requires
        n <= ids.len(),
        ids.no_duplicates(),
        before.unread_on(control_stream) == settings_bytes(settings),
        forall|i: int|
            0 <= i < ids.len() && ids[i] != control_stream ==> before.unread_on(
                #[trigger] ids[i],
            ).len() == 0,
    ensures
        control_run(new_handshake(None), before, ids, requests, n) == if ids.take(
            n as int,
        ).contains(control_stream) {
            with_control_data(new_handshake(None), settings_bytes(settings)).0
        } else {
            new_handshake(None)
        },
    decreases n,
{
    if n > 0 {
        let id = ids[n - 1];
        lemma_settings_among_streams(
            before,
            ids,
            requests,
            (n - 1) as nat,
            control_stream,
            settings,
        );
        let front = ids.take(n - 1);
        let longer = ids.take(n as int);
        assert(!front.contains(id)) by {
            if front.contains(id) {
                assert(ids[front.index_of(id)] == id);
            }
        }
        assert(longer[n - 1] == id);
        if front.contains(control_stream) {
            assert(longer[front.index_of(control_stream)] == control_stream);
        }
        if longer.contains(control_stream) && id != control_stream {
            assert(front[longer.index_of(control_stream)] == control_stream);
        }
        assert(share_of(before, ids, n - 1) == before.unread_on(id));
    }
}

/// A server that has received the settings of a ready peer, on whichever of the streams that wait,
/// answers all the requests for WebTransport sessions that have come, and ignores the other streams.
pub proof fn server_answers_all_requests(
    before: EngineView,
    settings: Seq<(u64, u64)>,
    control_stream: u64,
    requests: Seq<Option<u64>>,
)
    requires
        settings_of_ready_peer(settings),
        (before.uni_waiting + before.bi_waiting).no_duplicates(),
        before.uni_waiting.contains(control_stream),
        before.unread_on(control_stream) == settings_bytes(settings),
        forall|i: int|
            0 <= i < before.uni_waiting.len() && before.uni_waiting[i] != control_stream
                ==> before.unread_on(#[trigger] before.uni_waiting[i]).len() == 0,
        headers_frame(response_fields()) is Ok,
    ensures
        ({
            let asking = before.bi_waiting.filter(
                |id: u64| asks_for_session(before.unread_on(id)),
            );
            let (after, statuses) = handshake_run(new_handshake(None), before, requests);
            &&& statuses == asking.map_values(|id: u64| ConnectionStatus::Established)
            &&& asking.len() == 0 ==> after.session.state == SessionState::SettingsReceived
                && after.requested_path is None
            &&& asking.len() > 0 ==> after.session.state == SessionState::Established
                && after.session.session_id == asking.last() / 4
                && after.session.request_stream_id == Some(asking.last())
        }),
{
    let uni = before.uni_waiting;
    let bi = before.bi_waiting;
    let ids = uni + bi;
    let start = new_handshake(None);
    settings_make_ready(None, settings, 0);
    assert(uni.no_duplicates()) by {
        assert forall|i: int, j: int| 0 <= i < uni.len() && 0 <= j < uni.len() && i != j implies
            uni[i] != uni[j] by {
            assert(ids[i] == uni[i] && ids[j] == uni[j]);
        }
    }
    lemma_settings_among_streams(before, uni, requests, uni.len(), control_stream, settings);
    assert(uni.take(uni.len() as int) =~= uni);
    let controlled = control_run(start, before, uni, requests, uni.len());
    assert(awaits_request(controlled));
    every_request_is_answered(controlled, before, ids, uni.len(), bi.len());
    assert(ids.subrange(uni.len() as int, (uni.len() + bi.len()) as int) =~= bi);
    assert((ids.len() - uni.len()) as nat == bi.len());
}

/// Every stream event that comes is kept, behind those that are kept, and in its order. Until the
/// control stream is opened the events are those that the connection had, and nothing is sent. When
/// it is opened, the events up to the one that says that the QUIC connection is established come
/// first.
pub proof fn events_are_kept_for_streams(
    before: WebTransportConnectionState,
    after: WebTransportConnectionState,
    polled: Seq<PolledEvent>,
)
    requires
        events_taken(before, after, polled),
    ensures
        ({
            let all = events(before.quic.connection);
            let kept = polled.filter(|event: PolledEvent| event is Stream);
            let held = before.quic.stream_events@;
            let left = after.quic.stream_events@;
            &&& left.len() == held.len() + kept.len()
            &&& left.take(held.len() as int) == held
            &&& forall|i: int|
                0 <= i < kept.len() ==> #[trigger] left[held.len() + i] == crate::quic::poll::stream_event(
                    kept[i]->Stream_0,
                )->0
            &&& after.control_stream_send == before.control_stream_send ==> polled == all
                && after.engine() == before.engine()
            &&& after.control_stream_send != before.control_stream_send ==> exists|
                place: int,
                opened: Connection,
            |
                #![trigger all[place], events(opened)]
                0 <= place < all.len() && all[place] is Connected && engine(opened)
                    == after.engine() && polled.len() == place + 1 + events(opened).len()
                    && all.take(place + 1).is_prefix_of(polled) && polled.skip(place + 1)
                    == events(opened)
            &&& polled.contains(PolledEvent::Connected) && before.control_stream_send is None
                && before.quic.status().uni_openable ==> after.control_stream_send is Some
        }),
{
    crate::quic::poll::stream_events_are_kept(polled);
    let all = events(before.quic.connection);
    let held = before.quic.stream_events@;
    let left = after.quic.stream_events@;
    let kept = polled.filter(|event: PolledEvent| event is Stream);
    assert(left.take(held.len() as int) =~= held);
    if after.control_stream_send != before.control_stream_send {
        let (place, opened) = choose|place: int, opened: Connection| #[trigger]
            opened_at(all, polled, place, opened) && engine(opened) == after.engine() && status(
                opened,
            ) == after.quic.status();
        assert(all[place] is Connected);
        assert(all.take(place + 1).is_prefix_of(polled));
        assert(polled.skip(place + 1) =~= events(opened));
    }
    if polled.contains(PolledEvent::Connected) {
        let i = polled.index_of(PolledEvent::Connected);
        assert(polled[i] is Connected);
    }
}

/// A stream that may hold a request is read out before it is looked at, and so is one that may be a
/// control stream. What other streams have received stays, and so do the datagrams.
pub proof fn handshake_streams_are_read_out(
    before: WebTransportConnectionState,
    read: WebTransportConnectionState,
    after: WebTransportConnectionState,
    stream: u64,
)
    requires
        request_stage(before, read, after, stream),
    ensures
        after.engine().unread_on(stream).len() == 0,
        forall|other: u64|
            other != stream ==> #[trigger] after.engine().unread_on(other)
                == before.engine().unread_on(other),
        after.engine().datagrams_waiting == before.engine().datagrams_waiting,
        after.quic.datagrams == before.quic.datagrams,
        after.control_stream_send == before.control_stream_send,
        after.quic.connection_entity == before.quic.connection_entity,
        after.quic.close == before.quic.close,
        after@ == with_request(before@, stream, before.engine().unread_on(stream)).0,
{
    assert forall|other: u64| other != stream implies #[trigger] after.engine().unread_on(other)
        == before.engine().unread_on(other) by {
        assert(read.engine().unread_on(other) == before.engine().unread_on(other));
        assert(after.engine().unread_on(other) == read.engine().unread_on(other));
    }
}

/// A control stream is read out before its data is taken in. What other streams have received stays,
/// and so do the datagrams.
pub proof fn control_streams_are_read_out(
    before: WebTransportConnectionState,
    read: WebTransportConnectionState,
    after: WebTransportConnectionState,
    stream: u64,
    request: Option<u64>,
)
    requires
        control_stage(before, read, after, stream, request),
    ensures
        after.engine().unread_on(stream).len() == 0,
        forall|other: u64|
            other != stream ==> #[trigger] after.engine().unread_on(other)
                == before.engine().unread_on(other),
        after.engine().datagrams_waiting == before.engine().datagrams_waiting,
        after.quic.datagrams == before.quic.datagrams,
        after.control_stream_send == before.control_stream_send,
        after.quic.connection_entity == before.quic.connection_entity,
        after.quic.close == before.quic.close,
        after@ == with_control(before@, before.engine().unread_on(stream), request),
{
    assert forall|other: u64| other != stream implies #[trigger] after.engine().unread_on(other)
        == before.engine().unread_on(other) by {
        assert(read.engine().unread_on(other) == before.engine().unread_on(other));
        assert(after.engine().unread_on(other) == read.engine().unread_on(other));
    }
}

/// Looking at streams that may hold requests leaves the streams that wait alone.
proof fn lemma_request_steps_waiting(
    before: WebTransportConnectionState,
    after: WebTransportConnectionState,
    ids: Seq<u64>,
)
    requires
        request_steps(before, after, ids),
    ensures
        after.engine().bi_waiting == before.engine().bi_waiting,
        after.engine().uni_waiting == before.engine().uni_waiting,
    decreases ids.len(),
{
    if ids.len() > 0 {
        let (middle, read) = choose|
            middle: WebTransportConnectionState,
            read: WebTransportConnectionState,
        | #[trigger]
            request_stage(middle, read, after, ids.last()) && request_steps(
                before,
                middle,
                ids.drop_last(),
            );
        lemma_request_steps_waiting(before, middle, ids.drop_last());
    }
}

/// Streams that may hold requests are accepted by a side that has no path of its own, once its peer
/// is ready, and then all of them are. On any other side they keep waiting, and nothing is answered.
pub proof fn requests_wait_until_ready(
    before: WebTransportConnectionState,
    controlled: WebTransportConnectionState,
    answered: WebTransportConnectionState,
    after: WebTransportConnectionState,
    requests: Seq<Option<u64>>,
)
    requires
        handshake_stages(before, controlled, answered, after, requests),
    ensures
        controlled@.requested_path is None && controlled@.session.state
            == SessionState::SettingsReceived ==> answered.engine().bi_waiting.len() == 0,
        controlled@.requested_path is Some || controlled@.session.state
            != SessionState::SettingsReceived ==> answered == controlled,
        answered@.session.state != SessionState::AwaitingConnectResponse ==> after == answered,
        answered@.session.state == SessionState::AwaitingConnectResponse
            && answered@.connect_stream is Some ==> after.engine().unread_on(
            answered@.connect_stream->0,
        ).len() == 0,
{
    if controlled@.requested_path is None && controlled@.session.state
        == SessionState::SettingsReceived {
        let accepted = choose|accepted: WebTransportConnectionState| #[trigger]
            streams_accepted(controlled, accepted, true) && request_steps(
                accepted,
                answered,
                controlled.engine().bi_waiting,
            );
        lemma_request_steps_waiting(accepted, answered, controlled.engine().bi_waiting);
    }
}

} // verus!
