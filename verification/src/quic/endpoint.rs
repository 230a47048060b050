//! The connections of a QUIC endpoint, and what the endpoint decides about them.
use super::connection::QuicConnectionState;
use crate::keys::keys_of;
use std::collections::hash_map::Entry;
use std::collections::HashMap;
use vstd::prelude::*;

verus! {

broadcast use vstd::std_specs::hash::group_hash_axioms;

/// The state of a connection that belongs to an entity.
pub trait EntityConnection: Sized {
    /// The entity of the connection.
    spec fn entity(&self) -> u64;

    /// The entity of the connection.
    fn connection_entity(&self) -> (entity: u64)
        ensures
            entity == self.entity(),
    ;
}

impl EntityConnection for QuicConnectionState {
    open spec fn entity(&self) -> u64 {
        self.connection_entity
    }

    fn connection_entity(&self) -> (entity: u64) {
        self.connection_entity
    }
}

/// The connections of an endpoint. An entity has a handle, and a handle has the state of a
/// connection.
pub struct ConnectionTable<S> {
    pub handles: HashMap<u64, u64>,
    pub connections: HashMap<u64, S>,
}

/// What is to be done for a connection that has been added to an endpoint.
#[derive(Clone, Copy, Debug, PartialEq, Eq, Structural)]
pub enum ConnectionPlan {
    /// Accept the incoming connection.
    Accept,
    /// The incoming connection was accepted before.
    AcceptedTwice,
    /// Open a connection.
    Connect,
    /// There is no configuration to open a connection with: it is taken off the endpoint.
    MissingConfig,
}

/// Decides what is to be done for a connection that has been added to an endpoint. `incoming` says
/// whether it is an incoming connection, and if it is, whether it has not been used.
pub fn plan_connection(incoming: Option<bool>, configured: bool) -> (plan: ConnectionPlan)
    ensures
        plan == match incoming {
            Some(true) => ConnectionPlan::Accept,
            Some(false) => ConnectionPlan::AcceptedTwice,
            None => if configured {
                ConnectionPlan::Connect
            } else {
                ConnectionPlan::MissingConfig
            },
        },
{
    match incoming {
        Some(unused) => if unused {
            ConnectionPlan::Accept
        } else {
            ConnectionPlan::AcceptedTwice
        },
        None => if configured {
            ConnectionPlan::Connect
        } else {
            ConnectionPlan::MissingConfig
        },
    }
}

/// What receiving from a socket gave.
#[derive(Clone, Copy, Debug, PartialEq, Eq, Structural)]
pub enum SocketRead {
    /// A number of datagrams.
    Received(usize),
    /// There is nothing to receive.
    WouldBlock,
    /// A peer refused a datagram.
    ConnectionReset,
    /// Something unexpected.
    Failed,
}

/// What is to be done after receiving from a socket.
#[derive(Clone, Copy, Debug, PartialEq, Eq, Structural)]
pub enum SocketStep {
    /// Handle a number of datagrams, and receive again.
    Handle(usize),
    /// Stop receiving.
    Stop,
    /// Receive again.
    Again,
    /// Report the failure, and receive again.
    Report,
}

/// Decides what is to be done after receiving from a socket.
pub fn socket_step(read: SocketRead) -> (step: SocketStep)
    ensures
        step == match read {
            SocketRead::Received(count) => SocketStep::Handle(count),
            SocketRead::WouldBlock => SocketStep::Stop,
            SocketRead::ConnectionReset => SocketStep::Again,
            SocketRead::Failed => SocketStep::Report,
        },
{
    match read {
        SocketRead::Received(count) => SocketStep::Handle(count),
        SocketRead::WouldBlock => SocketStep::Stop,
        SocketRead::ConnectionReset => SocketStep::Again,
        SocketRead::Failed => SocketStep::Report,
    }
}

/// The largest datagram that is received.
pub const MAX_RECEIVED_DATAGRAM: u64 = 0x1_0000;

/// The length of the buffer for the datagrams that a socket receives at once: a number of batches
/// of segments of the largest size.
pub fn receive_buffer_len(max_payload: u64, segments: usize, batch: usize) -> (len: usize)
    requires
        ({
            let payload = if max_payload < MAX_RECEIVED_DATAGRAM {
                max_payload
            } else {
                MAX_RECEIVED_DATAGRAM
            };
            payload * segments <= usize::MAX && payload * segments * batch <= usize::MAX
        }),
    ensures
        len == (if max_payload < MAX_RECEIVED_DATAGRAM {
            max_payload
        } else {
            MAX_RECEIVED_DATAGRAM
        }) * segments * batch,
{
    let payload: u64 = if max_payload < MAX_RECEIVED_DATAGRAM {
        max_payload
    } else {
        MAX_RECEIVED_DATAGRAM
    };
    payload as usize * segments * batch
}

/// The segments of a buffer from a position on: each is as long as the stride, but for the last
/// one, which may be shorter.
pub open spec fn segments_from(start: nat, len: nat, stride: nat) -> Seq<(nat, nat)>
    decreases len - start,
{
    if start >= len || stride == 0 {
        Seq::empty()
    } else {
        let end = if len - start <= stride {
            len
        } else {
            start + stride
        };
        seq![(start, end)] + segments_from(end, len, stride)
    }
}

/// The numbers of several pairs.
pub open spec fn pairs(segments: Seq<(usize, usize)>) -> Seq<(nat, nat)> {
    segments.map_values(|segment: (usize, usize)| (segment.0 as nat, segment.1 as nat))
}

/// Splits a buffer that a socket has filled into datagrams: where each starts and ends.
pub fn datagram_segments(len: usize, stride: usize) -> (segments: Vec<(usize, usize)>)
    requires
        len > 0 ==> stride > 0,
    ensures
        pairs(segments@) == segments_from(0, len as nat, stride as nat),
{
    let mut segments: Vec<(usize, usize)> = Vec::new();
    let mut start: usize = 0;
    assert(pairs(segments@) + segments_from(0, len as nat, stride as nat) =~= segments_from(
        0,
        len as nat,
        stride as nat,
    ));
    while start < len
        invariant
            start <= len,
            len > 0 ==> stride > 0,
            pairs(segments@) + segments_from(start as nat, len as nat, stride as nat)
                == segments_from(0, len as nat, stride as nat),
        decreases len - start,
    {
        let ghost before = segments@;
        let end: usize = if len - start <= stride {
            len
        } else {
            start + stride
        };
        segments.push((start, end));
        proof {
            assert(pairs(segments@) =~= pairs(before).push((start as nat, end as nat)));
            assert(pairs(segments@) + segments_from(end as nat, len as nat, stride as nat) =~= pairs(
                before,
            ) + segments_from(start as nat, len as nat, stride as nat));
        }
        start = end;
    }
    assert(pairs(segments@) =~= segments_from(0, len as nat, stride as nat));
    segments
}

/// The segments of a buffer cover it: each byte is in one of them, and they follow one another.
pub proof fn segments_cover(start: nat, len: nat, stride: nat)
    requires
        start < len,
        stride > 0,
    ensures
        ({
            let segments = segments_from(start, len, stride);
            &&& segments.len() > 0
            &&& segments[0].0 == start
            &&& segments.last().1 == len
            &&& forall|i: int|
                0 <= i < segments.len() ==> (#[trigger] segments[i]).0 < segments[i].1
                    && segments[i].1 - segments[i].0 <= stride
            &&& forall|i: int|
                0 <= i < segments.len() - 1 ==> (#[trigger] segments[i]).1 == segments[i + 1].0
                    && segments[i].1 - segments[i].0 == stride
        }),
    decreases len - start,
{
    let end = if len - start <= stride {
        len
    } else {
        start + stride
    };
    let segments = segments_from(start, len, stride);
    let rest = segments_from(end, len, stride);
    assert(segments =~= seq![(start, end)] + rest);
    if end < len {
        segments_cover(end, len, stride);
        assert(segments.last() == rest.last());
        assert forall|i: int| 0 <= i < segments.len() implies (#[trigger] segments[i]).0
            < segments[i].1 && segments[i].1 - segments[i].0 <= stride by {
            if i > 0 {
                assert(segments[i] == rest[i - 1]);
            }
        }
        assert forall|i: int| 0 <= i < segments.len() - 1 implies (#[trigger] segments[i]).1
            == segments[i + 1].0 && segments[i].1 - segments[i].0 == stride by {
            if i > 0 {
                assert(segments[i] == rest[i - 1]);
                assert(segments[i + 1] == rest[i]);
            }
        }
    } else {
        assert(rest =~= Seq::empty());
    }
}

/// What is to be done about a peer that wants to connect.
#[derive(Clone, Copy, Debug, PartialEq, Eq, Structural)]
pub enum IncomingPlan {
    /// Refuse the connection.
    Refuse,
    /// Let the application decide.
    Offer,
}

/// Decides what is to be done about a peer that wants to connect: an endpoint that is not
/// configured as a server refuses it.
pub fn plan_incoming(is_server: bool) -> (plan: IncomingPlan)
    ensures
        plan == if is_server {
            IncomingPlan::Offer
        } else {
            IncomingPlan::Refuse
        },
{
    if is_server {
        IncomingPlan::Offer
    } else {
        IncomingPlan::Refuse
    }
}

/// Decides whether a peer that wants to connect is accepted: an endpoint that is not configured as
/// a server refuses it, any other one asks.
pub fn accepts_incoming<F: FnOnce() -> bool>(is_server: bool, request: F) -> (accepts: bool)
    requires
        request.requires(()),
    ensures
        is_server ==> request.ensures((), accepts),
        !is_server ==> !accepts,
{
    if !is_server {
        return false;
    }
    request()
}

/// What is to be done for a connection that has been inserted on an endpoint.
#[derive(Clone, Copy, Debug, PartialEq, Eq, Structural)]
pub enum InsertedPlan {
    /// The endpoint made the connection: nothing is to be done.
    Nothing,
    /// Open a connection.
    Connect,
    /// There is no configuration to open a connection with: it is taken off the endpoint.
    MissingConfig,
}

/// Decides what is to be done for a connection that has been inserted on an endpoint.
pub fn plan_inserted(opened_by_endpoint: bool, configured: bool) -> (plan: InsertedPlan)
    ensures
        plan == if opened_by_endpoint {
            InsertedPlan::Nothing
        } else if configured {
            InsertedPlan::Connect
        } else {
            InsertedPlan::MissingConfig
        },
{
    if opened_by_endpoint {
        InsertedPlan::Nothing
    } else if configured {
        InsertedPlan::Connect
    } else {
        InsertedPlan::MissingConfig
    }
}

impl<S> Default for ConnectionTable<S> {
    /// No connections.
    fn default() -> (table: Self)
        ensures
            table.handles@ == Map::<u64, u64>::empty(),
            table.connections@ == Map::<u64, S>::empty(),
    {
        ConnectionTable { handles: HashMap::new(), connections: HashMap::new() }
    }
}

impl<S: EntityConnection> ConnectionTable<S> {
    /// The state of the connection of an entity: that of the handle of the entity.
    pub open spec fn connection(self, entity: u64) -> Option<S> {
        if self.handles@.contains_key(entity) && self.connections@.contains_key(
            self.handles@[entity],
        ) {
            Some(self.connections@[self.handles@[entity]])
        } else {
            None
        }
    }

    /// Adds a connection.
    pub fn insert(&mut self, handle: u64, state: S)
        ensures
            final(self).handles@ == old(self).handles@.insert(state.entity(), handle),
            final(self).connections@ == old(self).connections@.insert(handle, state),
            final(self).connection(state.entity()) == Some(state),
    {
        self.handles.insert(state.connection_entity(), handle);
        self.connections.insert(handle, state);
    }

    /// Gets the state of the connection of an entity.
    pub fn get_connection(&mut self, entity: u64) -> (state: Option<&mut S>)
        ensures
            final(self).handles == old(self).handles,
            match state {
                Some(state) => old(self).connection(entity) == Some(*state) && final(
                    self).connections@ == old(self).connections@.insert(
                    old(self).handles@[entity],
                    *final(state),
                ),
                None => old(self).connection(entity) is None && final(self).connections@ == old(
                    self,
                ).connections@,
            },
    {
        let handle: u64 = match self.handles.get(&entity) {
            Some(handle) => *handle,
            None => {
                return None;
            },
        };
        if !self.connections.contains_key(&handle) {
            return None;
        }
        match self.connections.entry(handle) {
            Entry::Occupied(entry) => Some(entry.into_mut()),
            Entry::Vacant(_) => None,
        }
    }

    /// Gets the state of the connection of a handle.
    pub fn get_by_handle(&mut self, handle: u64) -> (state: Option<&mut S>)
        ensures
            final(self).handles == old(self).handles,
            match state {
                Some(state) => old(self).connections@.contains_key(handle) && *state == old(
                    self,
                ).connections@[handle] && final(self).connections@ == old(
                    self,
                ).connections@.insert(handle, *final(state)),
                None => !old(self).connections@.contains_key(handle) && final(self).connections@
                    == old(self).connections@,
            },
    {
        if !self.connections.contains_key(&handle) {
            return None;
        }
        match self.connections.entry(handle) {
            Entry::Occupied(entry) => Some(entry.into_mut()),
            Entry::Vacant(_) => None,
        }
    }

    /// The handles of all connections.
    pub fn all_handles(&self) -> (handles: Vec<u64>)
        ensures
            handles@.no_duplicates(),
            handles@.to_set() == self.connections@.dom(),
    {
        keys_of(&self.connections)
    }

    /// Finds a connection that belongs to an entity: its handle.
    pub fn find(&self, entity: u64) -> (handle: Option<u64>)
        ensures
            match handle {
                Some(handle) => self.connections@.contains_key(handle)
                    && self.connections@[handle].entity() == entity,
                None => forall|handle: u64| #[trigger]
                    self.connections@.contains_key(handle) ==> self.connections@[handle].entity()
                        != entity,
            },
    {
        let handles = keys_of(&self.connections);
        let mut i: usize = 0;
        while i < handles.len()
            invariant
                i <= handles@.len(),
                handles@.to_set() == self.connections@.dom(),
                forall|j: int|
                    0 <= j < i ==> self.connections@[#[trigger] handles@[j]].entity() != entity,
            decreases handles@.len() - i,
        {
            let handle: u64 = handles[i];
            assert(handles@.to_set().contains(handle));
            if let Some(state) = self.connections.get(&handle) {
                if state.connection_entity() == entity {
                    return Some(handle);
                }
            }
            i = i + 1;
        }
        assert forall|handle: u64| #[trigger]
            self.connections@.contains_key(handle) implies self.connections@[handle].entity()
            != entity by {
            assert(handles@.to_set().contains(handle));
            let place = handles@.index_of(handle);
            assert(handles@[place] == handle);
        }
        None
    }

    /// Removes the state of a connection. The entity keeps its handle, which leads nowhere then.
    pub fn remove_state(&mut self, handle: u64) -> (state: Option<S>)
        ensures
            final(self).handles == old(self).handles,
            final(self).connections@ == old(self).connections@.remove(handle),
            state == if old(self).connections@.contains_key(handle) {
                Some(old(self).connections@[handle])
            } else {
                None
            },
    {
        self.connections.remove(&handle)
    }

    /// Removes the handle of an entity.
    pub fn remove_handle(&mut self, entity: u64)
        ensures
            final(self).handles@ == old(self).handles@.remove(entity),
            final(self).connections == old(self).connections,
            final(self).connection(entity) is None,
    {
        self.handles.remove(&entity);
    }
}

/// The connection of an entity is found by its handle. It has none if it has no handle, or if the
/// handle leads nowhere.
pub proof fn connections_are_found_by_handle<S: EntityConnection>(
    table: ConnectionTable<S>,
    entity: u64,
    handle: u64,
    state: S,
)
    requires
        table.handles@.contains_key(entity) ==> table.handles@[entity] == handle,
        table.connections@.contains_key(handle) ==> table.connections@[handle] == state,
    ensures
        table.handles@.contains_key(entity) && table.connections@.contains_key(handle)
            ==> table.connection(entity) == Some(state),
        !table.handles@.contains_key(entity) || !table.connections@.contains_key(handle)
            ==> table.connection(entity) is None,
{
}

} // verus!
