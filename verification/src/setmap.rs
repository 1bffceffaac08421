//! Hash maps whose values are sets or sequences of ids, and the operations on
//! one entry of such a map that the table is built from.
use vstd::prelude::*;
use vstd::std_specs::hash::obeys_key_model;
use vstd::std_specs::iter::IteratorSpec;
use std::collections::HashMap;
use std::hash::Hash;
use crate::idset::{IdSet, set_new, set_insert, set_remove, set_is_empty};
use crate::hashvec::{HashVec, appended};

verus! {

broadcast use vstd::std_specs::hash::group_hash_axioms;

/// The ids that `m` holds under `k`: none where `m` has no such key.
pub open spec fn members<K>(m: Map<K, IdSet>, k: K) -> Set<usize> {
    if m.contains_key(k) {
        m[k]@
    } else {
        Set::empty()
    }
}

/// The sequence that `m` holds under `k`: the empty one where `m` has no such key.
pub open spec fn sequence_at(m: Map<usize, HashVec>, k: usize) -> Seq<usize> {
    if m.contains_key(k) {
        m[k]@
    } else {
        Seq::empty()
    }
}

/// Every sequence in `m` is well formed and holds at least one id.
pub open spec fn sequences_wf(m: Map<usize, HashVec>) -> bool {
    forall|k: usize| #[trigger] m.contains_key(k) ==> m[k].wf() && m[k]@.len() > 0
}

/// Adds `value` to the set under `key`, which is created if the map has none.
pub fn add_to_set_in_map<K: Eq + Hash + Copy>(map: &mut HashMap<K, IdSet>, key: K, value: usize)
    requires
        obeys_key_model::<K>(),
    ensures
        final(map)@.dom() == old(map)@.dom().insert(key),
        members(final(map)@, key) == members(old(map)@, key).insert(value),
        forall|k: K|
            k != key && #[trigger] final(map)@.contains_key(k) ==> final(map)@[k] == old(map)@[k],
{
    let mut set = match map.remove(&key) {
        Some(set) => set,
        None => set_new(),
    };
    let _ = set_insert(&mut set, value);
    let _ = map.insert(key, set);
    assert(final(map)@.dom() =~= old(map)@.dom().insert(key));
}

/// Takes `value` out of the set under `key`, and takes the key out of the map
/// if that leaves its set empty. Does nothing where the map has no such key.
pub fn remove_from_set_and_map<K: Eq + Hash + Copy>(
    map: &mut HashMap<K, IdSet>,
    key: &K,
    value: &usize,
)
    requires
        obeys_key_model::<K>(),
    ensures
        members(final(map)@, *key) == members(old(map)@, *key).remove(*value),
        final(map)@.contains_key(*key) <==> old(map)@.contains_key(*key) && old(map)@[*key]@.remove(
            *value,
        ) != Set::<usize>::empty(),
        forall|k: K|
            k != *key ==> (#[trigger] final(map)@.contains_key(k) <==> old(map)@.contains_key(k)),
        forall|k: K|
            k != *key && #[trigger] final(map)@.contains_key(k) ==> final(map)@[k] == old(map)@[k],
{
    match map.remove(key) {
        Some(set) => {
            let mut set = set;
            let _ = set_remove(&mut set, *value);
            if !set_is_empty(&set) {
                let _ = map.insert(*key, set);
            }
        },
        None => {
            assert(members(old(map)@, *key).remove(*value) =~= Set::<usize>::empty());
        },
    }
}

/// Appends `to` to the sequence under `from` unless it is there already; the
/// sequence is created if the map has none.
pub fn link(map: &mut HashMap<usize, HashVec>, from: usize, to: usize)
    requires
        sequences_wf(old(map)@),
    ensures
        sequences_wf(final(map)@),
        final(map)@.dom() == old(map)@.dom().insert(from),
        sequence_at(final(map)@, from) == appended(sequence_at(old(map)@, from), to),
        forall|k: usize|
            k != from && #[trigger] final(map)@.contains_key(k) ==> final(map)@[k] == old(map)@[k],
{
    let mut sequence = match map.remove(&from) {
        Some(sequence) => sequence,
        None => HashVec::new(),
    };
    sequence.add_if_not_exists(to);
    let _ = map.insert(from, sequence);
    assert(final(map)@.dom() =~= old(map)@.dom().insert(from));
}

/// Takes `to` out of the sequence under `from`, and takes the key out of the
/// map if that leaves its sequence empty. Does nothing where the map has no
/// such key.
pub fn unlink(map: &mut HashMap<usize, HashVec>, from: usize, to: usize)
    requires
        sequences_wf(old(map)@),
    ensures
        sequences_wf(final(map)@),
        sequence_at(final(map)@, from) == sequence_at(old(map)@, from).remove_value(to),
        forall|k: usize|
            k != from ==> (#[trigger] final(map)@.contains_key(k) <==> old(map)@.contains_key(k)),
        forall|k: usize|
            k != from && #[trigger] final(map)@.contains_key(k) ==> final(map)@[k] == old(map)@[k],
{
    match map.remove(&from) {
        Some(sequence) => {
            let mut sequence = sequence;
            sequence.remove(&to);
            if sequence.length > 0 {
                let _ = map.insert(from, sequence);
            }
        },
        None => {
            proof {
                Seq::<usize>::empty().index_of_first_ensures(to);
            }
        },
    }
}

/// The keys of `m`, each once, in no particular order.
pub fn key_list<X>(m: &HashMap<usize, X>) -> (keys: Vec<usize>)
    ensures
        keys@.no_duplicates(),
        keys@.to_set() =~= m@.dom(),
{
    let mut keys: Vec<usize> = Vec::new();
    let ghost all = m.keys().remaining().unref();
    for k in it: m.keys()
        invariant
            it.seq().unref() == all,
            keys@.len() == it.index(),
            forall|j: int| 0 <= j < keys@.len() ==> keys@[j] == *it.seq()[j],
    {
        keys.push(*k);
    }
    assert(keys@ =~= all);
    keys
}

} // verus!
