//! Which entity stands for which connection of an endpoint.
use std::collections::HashMap;
use vstd::prelude::*;

verus! {

broadcast use vstd::std_specs::hash::group_hash_axioms;

/// A two way map of connection ids to entities.
pub struct ConnectionMap {
    connection_entities: HashMap<u64, u64>,
    connection_ids: HashMap<u64, u64>,
}

/// Whether two maps are inverse to each other.
pub open spec fn inverse(entities: Map<u64, u64>, ids: Map<u64, u64>) -> bool {
    &&& forall|id: u64| #[trigger]
        entities.contains_key(id) ==> ids.contains_key(entities[id]) && ids[entities[id]] == id
    &&& forall|entity: u64| #[trigger]
        ids.contains_key(entity) ==> entities.contains_key(ids[entity]) && entities[ids[entity]]
            == entity
}

impl ConnectionMap {
    /// The entities by connection id.
    pub closed spec fn entities(self) -> Map<u64, u64> {
        self.connection_entities@
    }

    /// The connection ids by entity.
    pub closed spec fn ids(self) -> Map<u64, u64> {
        self.connection_ids@
    }

    /// Each connection has one entity, and each entity has one connection.
    pub open spec fn wf(self) -> bool {
        inverse(self.entities(), self.ids())
    }

    /// No connections.
    pub fn new() -> (map: Self)
        ensures
            map.wf(),
            map.entities() == Map::<u64, u64>::empty(),
            map.ids() == Map::<u64, u64>::empty(),
    {
        ConnectionMap { connection_entities: HashMap::new(), connection_ids: HashMap::new() }
    }

    /// Attempts to insert a new connection.
    ///
    /// Returns `true` if an entry for either key exists and the operation failed.
    pub fn insert(&mut self, connection_id: u64, entity: u64) -> (failed: bool)
        requires
            old(self).wf(),
        ensures
            final(self).wf(),
            failed == (old(self).entities().contains_key(connection_id) || old(
                self,
            ).ids().contains_key(entity)),
            final(self).entities() == if failed {
                old(self).entities()
            } else {
                old(self).entities().insert(connection_id, entity)
            },
            final(self).ids() == if failed {
                old(self).ids()
            } else {
                old(self).ids().insert(entity, connection_id)
            },
    {
        if self.connection_entities.contains_key(&connection_id)
            || self.connection_ids.contains_key(&entity) {
            return true;
        }
        self.connection_entities.insert(connection_id, entity);
        self.connection_ids.insert(entity, connection_id);
        proof {
            let entities = old(self).entities();
            let ids = old(self).ids();
            assert forall|id: u64| #[trigger] self.entities().contains_key(
                id,
            ) implies self.ids().contains_key(self.entities()[id])
                && self.ids()[self.entities()[id]] == id by {
                if id != connection_id {
                    assert(entities.contains_key(id));
                }
            }
            assert forall|other: u64| #[trigger] self.ids().contains_key(
                other,
            ) implies self.entities().contains_key(self.ids()[other])
                && self.entities()[self.ids()[other]] == other by {
                if other != entity {
                    assert(ids.contains_key(other));
                }
            }
        }
        false
    }

    /// Attempts to remove a connection. Returns the entity that stood for it.
    pub fn remove_connection(&mut self, connection_id: u64) -> (entity: Option<u64>)
        requires
            old(self).wf(),
        ensures
            final(self).wf(),
            match entity {
                Some(entity) => {
                    &&& old(self).entities().contains_key(connection_id)
                    &&& entity == old(self).entities()[connection_id]
                    &&& final(self).entities() == old(self).entities().remove(connection_id)
                    &&& final(self).ids() == old(self).ids().remove(entity)
                },
                None => {
                    &&& !old(self).entities().contains_key(connection_id)
                    &&& final(self).entities() == old(self).entities()
                    &&& final(self).ids() == old(self).ids()
                },
            },
    {
        match self.connection_entities.remove(&connection_id) {
            None => {
                assert(self.connection_entities@ =~= old(self).connection_entities@);
                None
            },
            Some(entity) => {
                self.connection_ids.remove(&entity);
                proof {
                    let entities = old(self).entities();
                    let ids = old(self).ids();
                    assert forall|id: u64| #[trigger] self.entities().contains_key(
                        id,
                    ) implies self.ids().contains_key(self.entities()[id])
                        && self.ids()[self.entities()[id]] == id by {
                        assert(entities.contains_key(id));
                    }
                    assert forall|other: u64| #[trigger] self.ids().contains_key(
                        other,
                    ) implies self.entities().contains_key(self.ids()[other])
                        && self.entities()[self.ids()[other]] == other by {
                        assert(ids.contains_key(other));
                    }
                }
                Some(entity)
            },
        }
    }

    /// The connection that an entity stands for.
    pub fn get_connection_id(&self, entity: u64) -> (connection_id: Option<u64>)
        ensures
            connection_id == if self.ids().contains_key(entity) {
                Some(self.ids()[entity])
            } else {
                None
            },
    {
        match self.connection_ids.get(&entity) {
            Some(connection_id) => Some(*connection_id),
            None => None,
        }
    }

    /// The entity that stands for a connection.
    pub fn get_connection_entity(&self, connection_id: u64) -> (entity: Option<u64>)
        ensures
            entity == if self.entities().contains_key(connection_id) {
                Some(self.entities()[connection_id])
            } else {
                None
            },
    {
        match self.connection_entities.get(&connection_id) {
            Some(entity) => Some(*entity),
            None => None,
        }
    }

    /// Takes note of a connection that was established. One that has no entity gets a new one.
    /// Returns the entity.
    pub fn connected<F: FnOnce() -> u64>(&mut self, connection_id: u64, spawn: F) -> (entity: u64)
        requires
            old(self).wf(),
            spawn.requires(()),
        ensures
            final(self).wf(),
            if old(self).entities().contains_key(connection_id) {
                &&& entity == old(self).entities()[connection_id]
                &&& final(self).entities() == old(self).entities()
                &&& final(self).ids() == old(self).ids()
            } else {
                &&& spawn.ensures((), entity)
                &&& !old(self).ids().contains_key(entity) ==> final(self).entities() == old(
                    self,
                ).entities().insert(connection_id, entity)
                &&& old(self).ids().contains_key(entity) ==> final(self).entities() == old(
                    self,
                ).entities()
            },
    {
        match self.get_connection_entity(connection_id) {
            Some(entity) => entity,
            None => {
                let entity: u64 = spawn();
                self.insert(connection_id, entity);
                entity
            },
        }
    }
}

/// Going from a connection to its entity and back leads to the connection, and no two connections
/// have the same entity.
pub proof fn two_way(map: ConnectionMap, one: u64, other: u64)
    requires
        map.wf(),
        map.entities().contains_key(one),
        map.entities().contains_key(other),
    ensures
        map.ids().contains_key(map.entities()[one]),
        map.ids()[map.entities()[one]] == one,
        one != other ==> map.entities()[one] != map.entities()[other],
{
}

} // verus!
