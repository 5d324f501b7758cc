//! The hash maps and hash sets of the `fnv` crate, as the library uses them.
//!
//! `FnvHashMap` and `FnvHashSet` are the standard hash tables with a Fowler-Noll-Vo hasher, which
//! starts from a fixed state: equal keys have equal hashes in every table. The view of a map is the
//! map from its keys to its values, the view of a set is the set of its elements. The order in which
//! a table is walked is left open.

use core::hash::{BuildHasherDefault, Hash};
use fnv::{FnvHashMap, FnvHashSet, FnvHasher};
use vstd::prelude::*;
use vstd::std_specs::hash::obeys_key_model;

verus! {

/// The hasher of the `fnv` crate. Nothing is said of its state.
#[verifier::external_type_specification]
#[verifier::external_body]
pub struct ExFnvHasher(FnvHasher);

/// The standard builder of hashers that start from their default state, through which `fnv` names
/// its tables. Nothing is said of it.
#[verifier::external_type_specification]
#[verifier::external_body]
#[verifier::reject_recursive_types(H)]
pub struct ExBuildHasherDefault<H>(BuildHasherDefault<H>);

/// `FnvHashMap::get`: the value of `key`, or `None` where the map does not hold `key`.
#[verifier::external_body]
pub(crate) fn map_get<'a, K: Eq + Hash, V>(map: &'a FnvHashMap<K, V>, key: &K) -> (value: Option<
    &'a V,
>)
    requires
        obeys_key_model::<K>(),
    ensures
        match value {
            Some(v) => map@.contains_key(*key) && *v == map@[*key],
            None => !map@.contains_key(*key),
        },
{
    map.get(key)
}

/// `FnvHashMap::insert`: `key` has `value` afterwards, and every other key what it had.
#[verifier::external_body]
pub(crate) fn map_insert<K: Eq + Hash, V>(map: &mut FnvHashMap<K, V>, key: K, value: V)
    requires
        obeys_key_model::<K>(),
    ensures
        final(map)@ == old(map)@.insert(key, value),
{
    map.insert(key, value);
}

/// `FnvHashMap::remove`: takes `key` and its value out of the map, and returns the value where there
/// was one.
#[verifier::external_body]
pub(crate) fn map_remove<K: Eq + Hash, V>(map: &mut FnvHashMap<K, V>, key: &K) -> (value: Option<V>)
    requires
        obeys_key_model::<K>(),
    ensures
        final(map)@ == old(map)@.remove(*key),
        match value {
            Some(v) => old(map)@.contains_key(*key) && v == old(map)@[*key],
            None => !old(map)@.contains_key(*key),
        },
{
    map.remove(key)
}

/// `FnvHashMap::len`: the number of keys.
#[verifier::external_body]
pub(crate) fn map_len<K: Eq + Hash, V>(map: &FnvHashMap<K, V>) -> (len: usize)
    requires
        obeys_key_model::<K>(),
    ensures
        len == map@.dom().len(),
{
    map.len()
}

/// `FnvHashMap::keys`: every key once, in an order that is left open.
#[verifier::external_body]
pub(crate) fn map_keys<K: Eq + Hash + Copy, V>(map: &FnvHashMap<K, V>) -> (keys: Vec<K>)
    requires
        obeys_key_model::<K>(),
    ensures
        keys@.no_duplicates(),
        keys@.to_set() == map@.dom(),
{
    map.keys().copied().collect()
}

/// `FnvHashSet::contains`.
#[verifier::external_body]
pub(crate) fn set_contains<K: Eq + Hash>(set: &FnvHashSet<K>, element: &K) -> (yes: bool)
    requires
        obeys_key_model::<K>(),
    ensures
        yes == set@.contains(*element),
{
    set.contains(element)
}

/// `FnvHashSet::insert`: the set holds `element` afterwards, and what it held.
#[verifier::external_body]
pub(crate) fn set_insert<K: Eq + Hash>(set: &mut FnvHashSet<K>, element: K)
    requires
        obeys_key_model::<K>(),
    ensures
        final(set)@ == old(set)@.insert(element),
{
    set.insert(element);
}

/// `FnvHashSet::len`: the number of elements.
#[verifier::external_body]
pub(crate) fn set_len<K: Eq + Hash>(set: &FnvHashSet<K>) -> (len: usize)
    requires
        obeys_key_model::<K>(),
    ensures
        len == set@.len(),
{
    set.len()
}

/// `FnvHashSet::iter`: every element once, in an order that is left open.
#[verifier::external_body]
pub(crate) fn set_elements<K: Eq + Hash + Copy>(set: &FnvHashSet<K>) -> (elements: Vec<K>)
    requires
        obeys_key_model::<K>(),
    ensures
        elements@.no_duplicates(),
        elements@.to_set() == set@,
{
    set.iter().copied().collect()
}

/// The strings that a set of strings holds.
pub uninterp spec fn strings_in(set: FnvHashSet<String>) -> Set<Seq<char>>;

/// `FnvHashSet::from_iter` on strings: the set holds the given strings and no other.
#[verifier::external_body]
pub(crate) fn string_set(strings: Vec<String>) -> (set: FnvHashSet<String>)
    ensures
        strings_in(set) == strings@.map_values(|s: String| s@).to_set(),
{
    FnvHashSet::from_iter(strings)
}

} // verus!
