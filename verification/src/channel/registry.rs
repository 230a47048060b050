//! The channel endpoints of a process, and the connections that they ask each other for.
use super::message::ChannelMessage;
use crossbeam_channel::{Receiver, Sender};
use std::collections::HashMap;
use vstd::prelude::*;

verus! {

broadcast use vstd::std_specs::hash::group_hash_axioms;

/// A pending connection request from one endpoint to another.
pub struct ConnectionRequest {
    /// The endpoint that initiated the connection.
    pub from_endpoint: u64,
    /// The connection on the initiating side.
    pub from_connection: u64,
    /// Channel to send messages to the remote.
    pub to_remote_tx: Sender<ChannelMessage>,
    /// Channel to receive messages from the remote.
    pub from_remote_rx: Receiver<ChannelMessage>,
}

/// Handle for an endpoint in the registry.
pub struct ChannelEndpointHandle {
    /// Channel for receiving connection requests.
    pub incoming_rx: Receiver<ConnectionRequest>,
    /// Channel for sending connection requests.
    pub incoming_tx: Sender<ConnectionRequest>,
}

/// Registry for channel endpoints.
///
/// It tracks all channel endpoints and helps them to establish connections.
pub struct ChannelRegistry {
    /// Map from endpoint to its handle.
    pub endpoints: HashMap<u64, ChannelEndpointHandle>,
}

/// The requests that have been put on the channel through a sender, in their order.
pub uninterp spec fn requests_sent(tx: Sender<ConnectionRequest>) -> Seq<ConnectionRequest>;

/// The requests that have been handed to a sender, in their order, whether they were put on the
/// channel or not.
pub uninterp spec fn requests_offered(tx: Sender<ConnectionRequest>) -> Seq<ConnectionRequest>;

/// Whether a request, or none, came when a receiver was asked for one.
pub uninterp spec fn request_came(
    rx: Receiver<ConnectionRequest>,
    request: Option<ConnectionRequest>,
) -> bool;

/// Whether what is put on the channel through a sender is taken off it through a receiver.
pub uninterp spec fn requests_lead(
    tx: Sender<ConnectionRequest>,
    rx: Receiver<ConnectionRequest>,
) -> bool;

/// `crossbeam_channel::unbounded`, which makes a channel for connection requests. The sender leads
/// to the receiver.
#[verifier::external_body]
fn open_requests() -> (ends: (Sender<ConnectionRequest>, Receiver<ConnectionRequest>))
    ensures
        requests_lead(ends.0, ends.1),
{
    crossbeam_channel::unbounded()
}

/// `Sender::clone`, which gives one more sender of the same channel: it leads where the other one
/// does.
#[verifier::external_body]
fn share_sender(tx: &Sender<ConnectionRequest>) -> (shared: Sender<ConnectionRequest>)
    ensures
        forall|rx: Receiver<ConnectionRequest>| #[trigger]
            requests_lead(shared, rx) == requests_lead(*tx, rx),
{
    tx.clone()
}

/// `Receiver::try_recv`, which takes a request off the channel if there is one. Which one, and
/// whether there is one, depends on the other side of the channel.
#[verifier::external_body]
fn receive_request(rx: &Receiver<ConnectionRequest>) -> (request: Option<ConnectionRequest>)
    ensures
        request_came(*rx, request),
{
    rx.try_recv().ok()
}

/// `Sender::try_send`, which is handed a request and puts it on the channel, or puts nothing there
/// and fails. Whether it fails depends on the other side of the channel. The sender still leads
/// where it did.
#[verifier::external_body]
pub(crate) fn send_request(tx: &mut Sender<ConnectionRequest>, request: ConnectionRequest) -> (sent:
    bool)
    ensures
        requests_offered(*final(tx)) == requests_offered(*old(tx)).push(request),
        requests_sent(*final(tx)) == if sent {
            requests_sent(*old(tx)).push(request)
        } else {
            requests_sent(*old(tx))
        },
        forall|rx: Receiver<ConnectionRequest>| #[trigger]
            requests_lead(*final(tx), rx) == requests_lead(*old(tx), rx),
{
    tx.try_send(request).is_ok()
}

impl Default for ChannelRegistry {
    /// A registry without endpoints.
    fn default() -> (registry: Self)
        ensures
            registry.wf(),
            registry.endpoints@ == Map::<u64, ChannelEndpointHandle>::empty(),
    {
        ChannelRegistry { endpoints: HashMap::new() }
    }
}

impl ChannelRegistry {
    /// The requests to every endpoint lead to that endpoint.
    pub open spec fn wf(self) -> bool {
        forall|entity: u64| #[trigger]
            self.endpoints@.contains_key(entity) ==> requests_lead(
                self.endpoints@[entity].incoming_tx,
                self.endpoints@[entity].incoming_rx,
            )
    }

    /// Registers an endpoint. One that was registered gets a new channel.
    pub fn register(&mut self, endpoint_entity: u64)
        requires
            old(self).wf(),
        ensures
            final(self).wf(),
            final(self).endpoints@.dom() == old(self).endpoints@.dom().insert(endpoint_entity),
            final(self).endpoints@.remove(endpoint_entity) == old(self).endpoints@.remove(
                endpoint_entity,
            ),
    {
        let (tx, rx) = open_requests();
        self.endpoints.insert(
            endpoint_entity,
            ChannelEndpointHandle { incoming_rx: rx, incoming_tx: tx },
        );
        assert(self.endpoints@.remove(endpoint_entity) =~= old(self).endpoints@.remove(
            endpoint_entity,
        ));
        assert(self.endpoints@.dom() =~= old(self).endpoints@.dom().insert(endpoint_entity));
    }

    /// Unregisters an endpoint.
    pub fn unregister(&mut self, endpoint_entity: u64)
        requires
            old(self).wf(),
        ensures
            final(self).wf(),
            final(self).endpoints@ == old(self).endpoints@.remove(endpoint_entity),
    {
        self.endpoints.remove(&endpoint_entity);
    }

    /// Returns a sender for connection requests to an endpoint, if it is registered.
    pub fn get_incoming_tx(&self, endpoint_entity: u64) -> (tx: Option<Sender<ConnectionRequest>>)
        ensures
            tx is Some <==> self.endpoints@.contains_key(endpoint_entity),
            tx matches Some(tx) ==> forall|rx: Receiver<ConnectionRequest>| #[trigger]
                requests_lead(tx, rx) == requests_lead(
                    self.endpoints@[endpoint_entity].incoming_tx,
                    rx,
                ),
    {
        match self.endpoints.get(&endpoint_entity) {
            Some(handle) => Some(share_sender(&handle.incoming_tx)),
            None => None,
        }
    }

    /// Tries to receive a pending connection request for an endpoint. There is none for one that
    /// is not registered. Whether there is one for another depends on those that ask it.
    pub fn try_recv_incoming(&self, endpoint_entity: u64) -> (request: Option<ConnectionRequest>)
        ensures
            if self.endpoints@.contains_key(endpoint_entity) {
                request_came(self.endpoints@[endpoint_entity].incoming_rx, request)
            } else {
                request is None
            },
    {
        match self.endpoints.get(&endpoint_entity) {
            Some(handle) => receive_request(&handle.incoming_rx),
            None => None,
        }
    }
}

} // verus!
