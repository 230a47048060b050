//! Endpoints whose connections are channels.
use super::conditioner::{new_conditioner, LinkConditionerConfig};
use super::connection::{
    accepted_channel_view, datagram_data, datagram_delivery, new_channel_view, opened_streams_wait,
    taken_in, ChannelConnectionContext, ChannelConnectionState, StreamView, FIRST_ACCEPTED_ID,
};
use super::message::{
    came_off, handed_over, messages_lead, messages_received, messages_sent, open_channel,
    receive_alike, MessageView,
};
use super::registry::{
    requests_lead, requests_offered, requests_sent, send_request, ChannelRegistry,
    ConnectionRequest,
};
use crate::keys::keys_of;
use crate::transport::{ConnectionStatus, NoConnectionError};
use crossbeam_channel::{Receiver, Sender};
use std::collections::hash_map::Entry;
use std::collections::HashMap;
use vstd::prelude::*;

verus! {

broadcast use vstd::std_specs::hash::group_hash_axioms;

/// Configuration for initiating a channel connection.
#[derive(Clone, Copy, Debug, PartialEq, Eq, Structural)]
pub struct ChannelConnectionConfig {
    /// The endpoint to connect to.
    pub remote_endpoint: u64,
    /// Optional link conditioner to simulate network conditions on this connection.
    /// When `None`, messages pass through instantly.
    pub link_conditioner: Option<LinkConditionerConfig>,
}

/// A connection that a remote endpoint has asked for.
pub struct IncomingChannelConnection {
    /// The endpoint this connection is for.
    pub endpoint_entity: u64,
    /// The request (taken when accepted).
    pub request: Option<ConnectionRequest>,
}

/// What became of a connection that was to be created.
#[derive(Clone, Copy, Debug, PartialEq, Eq, Structural)]
pub enum CreateOutcome {
    /// The connection has a new status.
    Status(ConnectionStatus),
    /// The request was accepted before.
    AcceptedTwice,
    /// There is no configuration for the connection, which is not part of the endpoint any more.
    MissingConfig,
}

/// Channel endpoint implementation.
pub struct ChannelEndpoint {
    /// Map from connection to its state.
    pub connections: HashMap<u64, ChannelConnectionState>,
}

/// Whether a connection has taken in the messages of the remote that came when it asked its channel
/// for them.
pub open spec fn polled(
    before: ChannelConnectionState,
    after: ChannelConnectionState,
    now: nat,
) -> bool {
    &&& after.tx == before.tx
    &&& receive_alike(after.rx, before.rx)
    &&& exists|messages: Seq<MessageView>|
        came_off(before.rx, after.rx, messages) && messages_received(after.rx)
            == messages_received(before.rx) + messages && after@ == #[trigger] taken_in(
            before@,
            messages,
            now,
        )
}

/// Whether a request offers the other ends of the channels of a connection, through which nothing
/// has gone.
pub open spec fn offers(state: ChannelConnectionState, request: ConnectionRequest) -> bool {
    &&& messages_lead(state.tx, request.from_remote_rx)
    &&& messages_lead(request.to_remote_tx, state.rx)
    &&& messages_sent(state.tx) == Seq::<MessageView>::empty()
    &&& messages_sent(request.to_remote_tx) == Seq::<MessageView>::empty()
    &&& messages_received(state.rx) == Seq::<MessageView>::empty()
    &&& messages_received(request.from_remote_rx) == Seq::<MessageView>::empty()
}

/// Whether a connection uses the ends of channels that a request offers.
pub open spec fn accepts(state: ChannelConnectionState, request: ConnectionRequest) -> bool {
    state.tx == request.to_remote_tx && state.rx == request.from_remote_rx
}

/// A connection that was initiated and one that accepted its request are connected: what one side
/// sends, the other side receives.
pub proof fn both_sides_are_connected(
    initiator: ChannelConnectionState,
    acceptor: ChannelConnectionState,
    request: ConnectionRequest,
)
    requires
        offers(initiator, request),
        accepts(acceptor, request),
    ensures
        messages_lead(initiator.tx, acceptor.rx),
        messages_lead(acceptor.tx, initiator.rx),
{
}

/// Connections stay connected: what one side sends still goes to the other side after a message was
/// handed over, and after the other side has taken in messages.
pub proof fn sides_stay_connected(
    sender: ChannelConnectionState,
    receiver: ChannelConnectionState,
    sender_after: ChannelConnectionState,
    receiver_after: ChannelConnectionState,
    message: MessageView,
    sent: bool,
    now: nat,
)
    requires
        messages_lead(sender.tx, receiver.rx),
        handed_over(sender.tx, sender_after.tx, message, sent),
        polled(receiver, receiver_after, now),
    ensures
        messages_lead(sender_after.tx, receiver.rx),
        messages_lead(sender.tx, receiver_after.rx),
        messages_lead(sender_after.tx, receiver_after.rx),
{
}

/// Whether an endpoint has asked for a connection over a sender for connection requests: it has
/// handed over one request, which offers the other ends of two new channels. The connection is
/// established if the request was sent, and fails if it was not.
pub open spec fn asked_over(
    before: ChannelEndpoint,
    after: ChannelEndpoint,
    tx_before: Sender<ConnectionRequest>,
    tx_after: Sender<ConnectionRequest>,
    from: (u64, u64),
    conditioning: (Option<LinkConditionerConfig>, u64),
    status: ConnectionStatus,
) -> bool {
    let request = requests_offered(tx_after).last();
    &&& requests_offered(tx_after) == requests_offered(tx_before).push(request)
    &&& request.from_endpoint == from.0
    &&& request.from_connection == from.1
    &&& messages_sent(request.to_remote_tx) == Seq::<MessageView>::empty()
    &&& messages_received(request.from_remote_rx) == Seq::<MessageView>::empty()
    &&& forall|rx: Receiver<ConnectionRequest>| #[trigger]
        requests_lead(tx_after, rx) == requests_lead(tx_before, rx)
    &&& match status {
        ConnectionStatus::Established => {
            &&& requests_sent(tx_after) == requests_sent(tx_before).push(request)
            &&& initiated(before, after, from.1, conditioning.0, conditioning.1)
            &&& offers(after.connections@[from.1], request)
        },
        ConnectionStatus::Failed => {
            &&& requests_sent(tx_after) == requests_sent(tx_before)
            &&& after.connections@ == before.connections@
        },
        _ => false,
    }
}

/// Whether two senders put requests on the same channel.
pub open spec fn lead_alike(
    one: Sender<ConnectionRequest>,
    other: Sender<ConnectionRequest>,
) -> bool {
    forall|rx: Receiver<ConnectionRequest>| #[trigger]
        requests_lead(one, rx) == requests_lead(other, rx)
}

/// Whether an endpoint has asked for a connection to the remote that a configuration names: over a
/// sender that leads where that of the registry leads. One that is not registered cannot be asked.
pub open spec fn asked_remote(
    before: ChannelEndpoint,
    after: ChannelEndpoint,
    registry: ChannelRegistry,
    from: (u64, u64),
    config: ChannelConnectionConfig,
    fallback_seed: u64,
    outcome: CreateOutcome,
) -> bool {
    if registry.endpoints@.contains_key(config.remote_endpoint) {
        &&& outcome is Status
        &&& exists|tx_before: Sender<ConnectionRequest>, tx_after: Sender<ConnectionRequest>|
            lead_alike(tx_before, registry.endpoints@[config.remote_endpoint].incoming_tx)
                && #[trigger] asked_over(
                before,
                after,
                tx_before,
                tx_after,
                from,
                (config.link_conditioner, fallback_seed),
                outcome->Status_0,
            )
    } else {
        &&& outcome == CreateOutcome::Status(ConnectionStatus::Failed)
        &&& after.connections@ == before.connections@
    }
}

/// Whether an endpoint has one more connection, on which nothing has happened.
pub open spec fn initiated(
    before: ChannelEndpoint,
    after: ChannelEndpoint,
    connection_entity: u64,
    link_conditioner: Option<LinkConditionerConfig>,
    fallback_seed: u64,
) -> bool {
    let state = after.connections@[connection_entity];
    &&& after.connections@ == before.connections@.insert(connection_entity, state)
    &&& state@ == new_channel_view(
        match link_conditioner {
            Some(config) => Some(new_conditioner(config, fallback_seed)),
            None => None,
        },
    )
}

impl Default for ChannelEndpoint {
    /// An endpoint without connections.
    fn default() -> (endpoint: Self)
        ensures
            endpoint.wf(),
            endpoint.connections@ == Map::<u64, ChannelConnectionState>::empty(),
    {
        ChannelEndpoint { connections: HashMap::new() }
    }
}

impl ChannelEndpoint {
    /// The state of every connection is consistent.
    pub open spec fn wf(self) -> bool {
        forall|entity: u64|
            self.connections@.contains_key(entity) ==> (#[trigger] self.connections@[entity]).wf()
    }

    /// Creates an endpoint without connections.
    pub fn new() -> (endpoint: Self)
        ensures
            endpoint.wf(),
            endpoint.connections@ == Map::<u64, ChannelConnectionState>::empty(),
    {
        ChannelEndpoint { connections: HashMap::new() }
    }

    /// Adds a connection.
    pub fn add_connection(&mut self, entity: u64, state: ChannelConnectionState)
        requires
            old(self).wf(),
            state.wf(),
        ensures
            final(self).wf(),
            final(self).connections@ == old(self).connections@.insert(entity, state),
    {
        self.connections.insert(entity, state);
    }

    /// Removes a connection.
    pub fn remove_connection(&mut self, entity: u64)
        requires
            old(self).wf(),
        ensures
            final(self).wf(),
            final(self).connections@ == old(self).connections@.remove(entity),
    {
        self.connections.remove(&entity);
    }

    /// Gets a connection, after it has taken in the messages of the remote.
    pub fn get_connection(&mut self, connection: u64, now: u64) -> (context: Result<
        ChannelConnectionContext<'_>,
        NoConnectionError,
    >)
        requires
            old(self).wf(),
        ensures
            match context {
                Ok(context) => {
                    let before = old(self).connections@[connection];
                    &&& old(self).connections@.contains_key(connection)
                    &&& context.state.wf()
                    &&& polled(before, *context.state, now as nat)
                    &&& final(self).connections@ == old(self).connections@.insert(
                        connection,
                        *final(context.state),
                    )
                },
                Err(_) => !old(self).connections@.contains_key(connection) && final(
                    self).connections@ == old(self).connections@,
            },
    {
        if !self.connections.contains_key(&connection) {
            return Err(NoConnectionError);
        }
        match self.connections.entry(connection) {
            Entry::Vacant(_) => Err(NoConnectionError),
            Entry::Occupied(entry) => {
                let state = entry.into_mut();
                state.poll_messages(now);
                Ok(ChannelConnectionContext { state })
            },
        }
    }

    /// Takes in the messages of all remotes, and returns the connections that are to be closed.
    pub fn update_connections(&mut self, now: u64) -> (to_close: Vec<u64>)
        requires
            old(self).wf(),
        ensures
            final(self).wf(),
            final(self).connections@.dom() == old(self).connections@.dom(),
            forall|entity: u64|
                old(self).connections@.contains_key(entity) ==> polled(
                    old(self).connections@[entity],
                    #[trigger] final(self).connections@[entity],
                    now as nat,
                ),
            to_close@.no_duplicates(),
            forall|entity: u64| #[trigger]
                to_close@.contains(entity) <==> final(self).connections@.contains_key(entity)
                    && final(self).connections@[entity].close_requested,
    {
        let entities = keys_of(&self.connections);
        let ghost before = self.connections@;
        let mut to_close: Vec<u64> = Vec::new();
        let mut i: usize = 0;
        while i < entities.len()
            invariant
                self.wf(),
                before == old(self).connections@,
                entities@.no_duplicates(),
                entities@.to_set() == before.dom(),
                self.connections@.dom() == before.dom(),
                i <= entities@.len(),
                forall|j: int|
                    0 <= j < i ==> polled(
                        before[#[trigger] entities@[j]],
                        self.connections@[entities@[j]],
                        now as nat,
                    ),
                forall|j: int|
                    i <= j < entities@.len() ==> self.connections@[#[trigger] entities@[j]]
                        == before[entities@[j]],
                to_close@.no_duplicates(),
                forall|entity: u64| #[trigger]
                    to_close@.contains(entity) <==> entities@.take(i as int).contains(entity)
                        && self.connections@[entity].close_requested,
            decreases entities@.len() - i,
        {
            let entity: u64 = entities[i];
            let ghost states = self.connections@;
            let ghost closing = to_close@;
            assert(entities@.to_set().contains(entity));
            assert(states[entities@[i as int]] == before[entities@[i as int]]);
            match self.connections.entry(entity) {
                Entry::Vacant(_) => {},
                Entry::Occupied(entry) => {
                    let state = entry.into_mut();
                    assert(state.wf());
                    state.poll_messages(now);
                    if state.close_requested {
                        to_close.push(entity);
                    }
                },
            }
            proof {
                assert(self.connections@.dom() =~= before.dom());
                assert forall|other: u64| self.connections@.contains_key(other) implies (#[trigger]
                self.connections@[other]).wf() by {
                    if other != entity {
                        assert(states[other].wf());
                    }
                }
                assert(entities@.take(i + 1) =~= entities@.take(i as int).push(entity));
                assert(!entities@.take(i as int).contains(entity)) by {
                    if entities@.take(i as int).contains(entity) {
                        let place = entities@.take(i as int).index_of(entity);
                        assert(entities@[place] == entities@[i as int]);
                    }
                }
                assert(!closing.contains(entity));
                assert forall|other: u64| #[trigger]
                    to_close@.contains(other) <==> entities@.take(i + 1).contains(other)
                        && self.connections@[other].close_requested by {
                    lemma_push_contains(entities@.take(i as int), entity, other);
                    lemma_push_contains(closing, entity, other);
                    assert(closing.contains(other) <==> entities@.take(i as int).contains(other)
                        && states[other].close_requested);
                }
                assert forall|j: int| 0 <= j < i + 1 implies polled(
                    before[#[trigger] entities@[j]],
                    self.connections@[entities@[j]],
                    now as nat,
                ) by {
                    if j < i {
                        assert(entities@[j] != entity);
                    }
                }
            }
            i = i + 1;
        }
        proof {
            assert(entities@.take(i as int) =~= entities@);
            assert forall|entity: u64| before.contains_key(entity) implies polled(
                before[entity],
                #[trigger] self.connections@[entity],
                now as nat,
            ) by {
                assert(entities@.to_set().contains(entity));
                let place = entities@.index_of(entity);
                assert(entities@[place] == entity);
            }
            assert forall|entity: u64| #[trigger] to_close@.contains(entity) <==>
                self.connections@.contains_key(entity)
                && self.connections@[entity].close_requested by {
                assert(entities@.contains(entity) <==> entities@.to_set().contains(entity));
            }
        }
        to_close
    }

    /// Accepts a connection that a remote endpoint has asked for.
    pub fn accept(&mut self, connection_entity: u64, request: Option<ConnectionRequest>) -> (outcome:
        CreateOutcome)
        requires
            old(self).wf(),
        ensures
            final(self).wf(),
            match request {
                None => outcome == CreateOutcome::AcceptedTwice && final(self).connections@ == old(
                    self,
                ).connections@,
                Some(request) => {
                    let state = final(self).connections@[connection_entity];
                    &&& outcome == CreateOutcome::Status(ConnectionStatus::Established)
                    &&& final(self).connections@ == old(self).connections@.insert(
                        connection_entity,
                        state,
                    )
                    &&& state@ == accepted_channel_view()
                    &&& accepts(state, request)
                },
            },
    {
        match request {
            None => CreateOutcome::AcceptedTwice,
            Some(request) => {
                let mut state = ChannelConnectionState::new(
                    request.to_remote_tx,
                    request.from_remote_rx,
                    None,
                    0,
                );
                state.next_stream_id = FIRST_ACCEPTED_ID;
                self.add_connection(connection_entity, state);
                assert(self.connections@ =~= old(self).connections@.insert(
                    connection_entity,
                    self.connections@[connection_entity],
                ));
                CreateOutcome::Status(ConnectionStatus::Established)
            },
        }
    }

    /// Initiates a connection to a registered endpoint. Connections are established immediately,
    /// unless the remote is not registered or cannot be asked.
    pub fn connect(
        &mut self,
        registry: &ChannelRegistry,
        endpoint_entity: u64,
        connection_entity: u64,
        config: &ChannelConnectionConfig,
        fallback_seed: u64,
    ) -> (outcome: CreateOutcome)
        requires
            old(self).wf(),
        ensures
            final(self).wf(),
            asked_remote(
                *old(self),
                *final(self),
                *registry,
                (endpoint_entity, connection_entity),
                *config,
                fallback_seed,
                outcome,
            ),
    {
        match registry.get_incoming_tx(config.remote_endpoint) {
            None => CreateOutcome::Status(ConnectionStatus::Failed),
            Some(remote_tx) => {
                let mut remote_tx = remote_tx;
                let ghost tx_before = remote_tx;
                let status = self.connect_over(
                    &mut remote_tx,
                    endpoint_entity,
                    connection_entity,
                    config.link_conditioner,
                    fallback_seed,
                );
                assert(lead_alike(
                    tx_before,
                    registry.endpoints@[config.remote_endpoint].incoming_tx,
                ));
                assert(asked_over(
                    *old(self),
                    *self,
                    tx_before,
                    remote_tx,
                    (endpoint_entity, connection_entity),
                    (config.link_conditioner, fallback_seed),
                    status,
                ));
                CreateOutcome::Status(status)
            },
        }
    }

    /// Initiates a connection to the endpoint that a sender for connection requests leads to. It
    /// is established immediately, unless that endpoint cannot be asked. The endpoint is offered
    /// the other ends of two new channels.
    pub fn connect_over(
        &mut self,
        remote_tx: &mut Sender<ConnectionRequest>,
        endpoint_entity: u64,
        connection_entity: u64,
        link_conditioner: Option<LinkConditionerConfig>,
        fallback_seed: u64,
    ) -> (status: ConnectionStatus)
        requires
            old(self).wf(),
        ensures
            final(self).wf(),
            asked_over(
                *old(self),
                *final(self),
                *old(remote_tx),
                *final(remote_tx),
                (endpoint_entity, connection_entity),
                (link_conditioner, fallback_seed),
                status,
            ),
    {
        let (to_remote_tx, from_local_rx) = open_channel();
        let (to_local_tx, from_remote_rx) = open_channel();
        let request = ConnectionRequest {
            from_endpoint: endpoint_entity,
            from_connection: connection_entity,
            to_remote_tx: to_local_tx,
            from_remote_rx: from_local_rx,
        };
        let asked = send_request(remote_tx, request);
        let state = ChannelConnectionState::new(
            to_remote_tx,
            from_remote_rx,
            link_conditioner,
            fallback_seed,
        );
        let status = self.settle_connection(connection_entity, state, asked);
        assert(asked ==> self.connections@ =~= old(self).connections@.insert(
            connection_entity,
            self.connections@[connection_entity],
        ));
        status
    }

    /// Settles a connection whose endpoint was asked or not: it is established if it was, and fails
    /// if it was not.
    pub fn settle_connection(
        &mut self,
        connection_entity: u64,
        state: ChannelConnectionState,
        asked: bool,
    ) -> (status: ConnectionStatus)
        requires
            old(self).wf(),
            state.wf(),
        ensures
            final(self).wf(),
            status == if asked {
                ConnectionStatus::Established
            } else {
                ConnectionStatus::Failed
            },
            final(self).connections@ == if asked {
                old(self).connections@.insert(connection_entity, state)
            } else {
                old(self).connections@
            },
    {
        if !asked {
            return ConnectionStatus::Failed;
        }
        self.add_connection(connection_entity, state);
        ConnectionStatus::Established
    }

    /// Creates a connection that has been added to the endpoint: one that a remote has asked for
    /// is accepted, any other is initiated, which takes a configuration.
    pub fn create_connection(
        &mut self,
        registry: &ChannelRegistry,
        endpoint_entity: u64,
        connection_entity: u64,
        config: Option<&ChannelConnectionConfig>,
        incoming: Option<Option<ConnectionRequest>>,
        fallback_seed: u64,
    ) -> (outcome: CreateOutcome)
        requires
            old(self).wf(),
        ensures
            final(self).wf(),
            final(self).connections@.remove(connection_entity) == old(self).connections@.remove(
                connection_entity,
            ),
            outcome == CreateOutcome::Status(ConnectionStatus::Established) ==> final(
                self).connections@.contains_key(connection_entity),
            outcome != CreateOutcome::Status(ConnectionStatus::Established) ==> final(
                self).connections@ == old(self).connections@,
            match incoming {
                Some(None) => outcome == CreateOutcome::AcceptedTwice,
                Some(Some(request)) => outcome == CreateOutcome::Status(
                    ConnectionStatus::Established,
                ) && final(self).connections@[connection_entity]@ == accepted_channel_view()
                    && accepts(final(self).connections@[connection_entity], request),
                None => match config {
                    None => outcome == CreateOutcome::MissingConfig,
                    Some(config) => asked_remote(
                        *old(self),
                        *final(self),
                        *registry,
                        (endpoint_entity, connection_entity),
                        *config,
                        fallback_seed,
                        outcome,
                    ),
                },
            },
    {
        let outcome = match incoming {
            Some(request) => self.accept(connection_entity, request),
            None => match config {
                None => CreateOutcome::MissingConfig,
                Some(config) => self.connect(
                    registry,
                    endpoint_entity,
                    connection_entity,
                    config,
                    fallback_seed,
                ),
            },
        };
        assert(self.connections@.remove(connection_entity) =~= old(self).connections@.remove(
            connection_entity,
        ));
        outcome
    }
}

/// What a sequence contains after one more element.
proof fn lemma_push_contains(elements: Seq<u64>, last: u64, element: u64)
    ensures
        elements.push(last).contains(element) <==> elements.contains(element) || element == last,
{
    let more = elements.push(last);
    if elements.contains(element) {
        let place = elements.index_of(element);
        assert(more[place] == element);
    }
    if element == last {
        assert(more[elements.len() as int] == element);
    }
    if more.contains(element) && element != last {
        let place = more.index_of(element);
        assert(elements[place] == element);
    }
}

/// A connection that is established has been asked for: one request that names the endpoint and the
/// connection was put on the channel to the remote, and the connection is there, with nothing on it.
/// Its link is conditioned if and only if that was configured. One that fails leaves nothing behind.
pub proof fn established_connections_are_asked_for(
    before: ChannelEndpoint,
    after: ChannelEndpoint,
    tx_before: Sender<ConnectionRequest>,
    tx_after: Sender<ConnectionRequest>,
    from: (u64, u64),
    conditioning: (Option<LinkConditionerConfig>, u64),
    status: ConnectionStatus,
)
    requires
        asked_over(before, after, tx_before, tx_after, from, conditioning, status),
    ensures
        status == ConnectionStatus::Established || status == ConnectionStatus::Failed,
        requests_offered(tx_after).len() == requests_offered(tx_before).len() + 1,
        requests_offered(tx_after).drop_last() == requests_offered(tx_before),
        ({
            let connection = from.1;
            let sent = requests_sent(tx_after);
            let state = after.connections@[connection];
            &&& status == ConnectionStatus::Established ==> {
                &&& sent.len() == requests_sent(tx_before).len() + 1
                &&& sent.drop_last() == requests_sent(tx_before)
                &&& sent.last().from_endpoint == from.0
                &&& sent.last().from_connection == connection
                &&& messages_lead(state.tx, sent.last().from_remote_rx)
                &&& messages_lead(sent.last().to_remote_tx, state.rx)
                &&& requests_offered(tx_after).last() == sent.last()
                &&& messages_sent(state.tx).len() == 0
                &&& messages_received(state.rx).len() == 0
                &&& messages_sent(sent.last().to_remote_tx).len() == 0
                &&& messages_received(sent.last().from_remote_rx).len() == 0
                &&& after.connections@.contains_key(connection)
                &&& state@.streams == Map::<u32, StreamView>::empty()
                &&& state@.incoming.len() == 0
                &&& state@.datagrams.len() == 0
                &&& state@.next_stream_id == 0
                &&& state@.datagram_index == 0
                &&& !state@.close_requested
                &&& state@.conditioner is Some <==> conditioning.0 is Some
                &&& state@.conditioner matches Some(conditioner) ==> conditioner.config
                    == conditioning.0->0 && conditioner.delayed.len() == 0
            }
            &&& status == ConnectionStatus::Failed ==> sent == requests_sent(tx_before)
                && after.connections@ == before.connections@
            &&& forall|other: u64| #![trigger after.connections@[other]]
                other != connection ==> (after.connections@.contains_key(other)
                    <==> before.connections@.contains_key(other)) && after.connections@[other]
                    == before.connections@[other]
        }),
{
    assert(requests_offered(tx_after).drop_last() =~= requests_offered(tx_before));
    if status == ConnectionStatus::Established {
        assert(requests_sent(tx_after).drop_last() =~= requests_sent(tx_before));
    }
}

/// An endpoint that is not registered cannot be asked: the connection fails. One that is registered
/// is asked, and the connection is established or fails.
pub proof fn only_registered_endpoints_are_asked(
    before: ChannelEndpoint,
    after: ChannelEndpoint,
    registry: ChannelRegistry,
    from: (u64, u64),
    config: ChannelConnectionConfig,
    fallback_seed: u64,
    outcome: CreateOutcome,
)
    requires
        asked_remote(before, after, registry, from, config, fallback_seed, outcome),
        registry.wf(),
    ensures
        outcome == CreateOutcome::Status(ConnectionStatus::Established)
            ==> registry.endpoints@.contains_key(config.remote_endpoint)
            && after.connections@.contains_key(from.1) && (after.connections@[from.1]@.conditioner
            is Some <==> config.link_conditioner is Some) && exists|
            tx: Sender<ConnectionRequest>,
        | #[trigger]
            requests_lead(tx, registry.endpoints@[config.remote_endpoint].incoming_rx)
                && requests_sent(tx).len() > 0 && requests_sent(tx).last().from_endpoint == from.0
                && requests_sent(tx).last().from_connection == from.1,
        outcome != CreateOutcome::Status(ConnectionStatus::Established) ==> outcome
            == CreateOutcome::Status(ConnectionStatus::Failed) && after.connections@
            == before.connections@,
{
    if registry.endpoints@.contains_key(config.remote_endpoint) {
        let incoming = registry.endpoints@[config.remote_endpoint];
        let (tx_before, tx_after) = choose|
            tx_before: Sender<ConnectionRequest>,
            tx_after: Sender<ConnectionRequest>,
        |
            lead_alike(tx_before, incoming.incoming_tx) && #[trigger] asked_over(
                before,
                after,
                tx_before,
                tx_after,
                from,
                (config.link_conditioner, fallback_seed),
                outcome->Status_0,
            );
        established_connections_are_asked_for(
            before,
            after,
            tx_before,
            tx_after,
            from,
            (config.link_conditioner, fallback_seed),
            outcome->Status_0,
        );
        assert(requests_lead(tx_after, incoming.incoming_rx) == requests_lead(
            tx_before,
            incoming.incoming_rx,
        ));
        assert(requests_lead(tx_before, incoming.incoming_rx) == requests_lead(
            incoming.incoming_tx,
            incoming.incoming_rx,
        ));
    }
}

/// The side that accepts a connection starts with nothing on it, without a conditioner, and numbers
/// its streams from where the other side never gets.
pub proof fn accepted_connections_are_empty()
    ensures
        accepted_channel_view().streams == Map::<u32, StreamView>::empty(),
        accepted_channel_view().incoming.len() == 0,
        accepted_channel_view().datagrams.len() == 0,
        accepted_channel_view().datagram_index == 0,
        accepted_channel_view().next_stream_id == 0x4000_0000,
        !accepted_channel_view().close_requested,
        accepted_channel_view().conditioner is None,
{
}

/// What comes off the channel of a connection is taken in, all of it and once, at the time at which
/// it comes. What the connection sends is not touched.
pub proof fn what_comes_is_taken_in(
    before: ChannelConnectionState,
    after: ChannelConnectionState,
    now: nat,
)
    requires
        polled(before, after, now),
        before@.conditioner is None,
    ensures
        ({
            let received = messages_received(after.rx);
            let count = messages_received(before.rx).len() as int;
            let new = received.skip(count);
            &&& count <= received.len()
            &&& received.take(count) == messages_received(before.rx)
            &&& after.tx == before.tx
            &&& after@.incoming == before@.incoming + new.filter(
                |message: MessageView| message is StreamOpen,
            ).map_values(
                |message: MessageView|
                    (message->StreamOpen_stream_id, message->StreamOpen_requirements),
            )
            &&& before@.datagram_index + before@.datagrams.len() + new.len() <= usize::MAX
                ==> after@.datagrams == before@.datagrams + datagram_data(new)
        }),
{
    let messages = choose|messages: Seq<MessageView>|
        came_off(before.rx, after.rx, messages) && messages_received(after.rx)
            == messages_received(before.rx) + messages && after@ == #[trigger] taken_in(
            before@,
            messages,
            now,
        );
    let count = messages_received(before.rx).len() as int;
    assert(messages_received(after.rx).skip(count) =~= messages);
    assert(messages_received(after.rx).take(count) =~= messages_received(before.rx));
    opened_streams_wait(before@, messages);
    if before@.datagram_index + before@.datagrams.len() + messages.len() <= usize::MAX {
        datagram_delivery(before@, messages);
    }
}

} // verus!
