//! Walking hash maps.
use std::collections::HashMap;
use std::hash::Hash;
use vstd::prelude::*;
use vstd::std_specs::hash::obeys_key_model;
use vstd::std_specs::iter::IteratorSpec;

verus! {

broadcast use vstd::std_specs::hash::group_hash_axioms;

/// The keys of a map, each once, in no particular order.
pub(crate) fn keys_of<K: Copy + Eq + Hash, V>(map: &HashMap<K, V>) -> (keys: Vec<K>)
    requires
        obeys_key_model::<K>(),
    ensures
        keys@.no_duplicates(),
        keys@.to_set() == map@.dom(),
{
    let mut keys: Vec<K> = Vec::new();
    for key in iter: map.keys()
        invariant
            keys@ =~= iter.seq().unref().take(iter.index() as int),
    {
        keys.push(*key);
    }
    assert(keys@ =~= map.keys().remaining().unref());
    keys
}

} // verus!
