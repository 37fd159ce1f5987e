//! The hash map of the `rustc-hash` crate.
//!
//! `FxHashMap` is the standard hash map with a hasher that is fast on integer
//! keys. Its view is the mathematical map from the keys to the values that it
//! holds. `FxBuildHasher` starts every hasher from the same state, so equal
//! keys have equal hashes, and the operations below act on the view as the
//! documentation of `HashMap` says of the map.

use rustc_hash::{FxBuildHasher, FxHashMap};
use std::hash::Hash;
use vstd::prelude::*;
use vstd::std_specs::hash::obeys_key_model;

verus! {

/// The hasher state of the `rustc-hash` crate.
#[verifier::external_type_specification]
#[verifier::external_body]
pub struct ExFxBuildHasher(FxBuildHasher);

/// `HashMap::contains_key` tells whether the map holds the key.
#[verifier::external_body]
pub(crate) fn map_contains_key<K: Eq + Hash, V>(map: &FxHashMap<K, V>, key: &K) -> (r: bool)
    requires
        obeys_key_model::<K>(),
    ensures
        r == map@.contains_key(*key),
{
    map.contains_key(key)
}

/// `HashMap::get` returns the value of the key, if the map holds the key.
#[verifier::external_body]
pub(crate) fn map_get<'a, K: Eq + Hash, V>(map: &'a FxHashMap<K, V>, key: &K) -> (r: Option<&'a V>)
    requires
        obeys_key_model::<K>(),
    ensures
        match r {
            Some(v) => map@.contains_key(*key) && *v == map@[*key],
            None => !map@.contains_key(*key),
        },
{
    map.get(key)
}

/// `HashMap::get_mut` lends the value of the key, if the map holds the key.
/// What the borrower leaves there is the key's value afterwards; nothing else
/// in the map changes.
#[verifier::external_body]
pub(crate) fn map_get_mut<'a, K: Eq + Hash, V>(map: &'a mut FxHashMap<K, V>, key: &K) -> (r: Option<
    &'a mut V,
>)
    requires
        obeys_key_model::<K>(),
    ensures
        match r {
            Some(v) => {
                &&& old(map)@.contains_key(*key)
                &&& *v == old(map)@[*key]
                &&& final(map)@ == old(map)@.insert(*key, *final(v))
            },
            None => !old(map)@.contains_key(*key) && final(map)@ == old(map)@,
        },
{
    map.get_mut(key)
}

/// `HashMap::insert` maps the key to the value and returns the value that the
/// key had before, if there was one.
#[verifier::external_body]
pub(crate) fn map_insert<K: Eq + Hash, V>(map: &mut FxHashMap<K, V>, key: K, value: V) -> (r: Option<
    V,
>)
    requires
        obeys_key_model::<K>(),
    ensures
        final(map)@ == old(map)@.insert(key, value),
        match r {
            Some(v) => old(map)@.contains_key(key) && v == old(map)@[key],
            None => !old(map)@.contains_key(key),
        },
{
    map.insert(key, value)
}

/// `HashMap::remove` takes the key out of the map and returns the value that it
/// had, if there was one.
#[verifier::external_body]
pub(crate) fn map_remove<K: Eq + Hash, V>(map: &mut FxHashMap<K, V>, key: &K) -> (r: Option<V>)
    requires
        obeys_key_model::<K>(),
    ensures
        final(map)@ == old(map)@.remove(*key),
        match r {
            Some(v) => old(map)@.contains_key(*key) && v == old(map)@[*key],
            None => !old(map)@.contains_key(*key),
        },
{
    map.remove(key)
}

/// `HashMap::len` returns the number of keys in the map.
#[verifier::external_body]
pub(crate) fn map_len<K: Eq + Hash, V>(map: &FxHashMap<K, V>) -> (r: usize)
    requires
        obeys_key_model::<K>(),
    ensures
        r == map@.len(),
{
    map.len()
}

} // verus!
