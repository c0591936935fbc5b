//! The concurrent collections that the catalogue keeps its nodes in, with
//! what is taken on trust about them.
//!
//! A `DashSet` of indices and a `DashMap` from names to indices are all that
//! the catalogue uses. Each function here makes one call into `dashmap`; what
//! its contract says of the call is not proved, but read off that crate.

use dashmap::DashMap;
use dashmap::DashSet;
use std::sync::Arc;
use vstd::prelude::*;

verus! {

#[verifier::external_type_specification]
#[verifier::external_body]
#[verifier::reject_recursive_types(K)]
#[verifier::reject_recursive_types(V)]
#[verifier::reject_recursive_types(S)]
pub struct ExDashMap<K, V, S>(DashMap<K, V, S>);

#[verifier::external_type_specification]
#[verifier::external_body]
#[verifier::reject_recursive_types(K)]
#[verifier::reject_recursive_types(S)]
pub struct ExDashSet<K, S>(DashSet<K, S>);

/// The indices that a set holds.
pub uninterp spec fn indices(set: DashSet<usize>) -> Set<usize>;

/// The index that a map gives for each name it knows. Names are told apart by
/// their text.
pub uninterp spec fn named(map: DashMap<Arc<str>, usize>) -> Map<Seq<char>, usize>;

/// A set with nothing in it. Calls `DashSet::new`.
#[verifier::external_body]
pub(crate) fn new_index_set() -> (set: DashSet<usize>)
    ensures
        indices(set) == Set::<usize>::empty(),
{
    DashSet::new()
}

/// Puts an index into a set, and says whether it was new to the set.
///
/// Calls `DashSet::insert`, which adds the key and returns true if the key
/// was not in the set before. What was in the set stays.
#[verifier::external_body]
pub(crate) fn insert_index(set: &mut DashSet<usize>, index: usize) -> (fresh: bool)
    ensures
        indices(*final(set)) == indices(*old(set)).insert(index),
        fresh == !indices(*old(set)).contains(index),
{
    set.insert(index)
}

/// Whether a set holds nothing. Calls `DashSet::is_empty`, which compares
/// the number of keys with 0.
#[verifier::external_body]
pub(crate) fn no_indices(set: &DashSet<usize>) -> (r: bool)
    ensures
        r == (indices(*set) == Set::<usize>::empty()),
{
    set.is_empty()
}

/// What a set holds, each index once, in no order that could be relied on.
///
/// Calls `DashSet::iter`, which walks the shards of the set and yields every
/// key once, and copies each key out.
#[verifier::external_body]
pub(crate) fn list_indices(set: &DashSet<usize>) -> (items: Vec<usize>)
    ensures
        items@.no_duplicates(),
        items@.to_set() == indices(*set),
{
    set.iter().map(|entry| *entry.key()).collect()
}

/// A map that knows no name. Calls `DashMap::new`.
#[verifier::external_body]
pub(crate) fn new_name_map() -> (names: DashMap<Arc<str>, usize>)
    ensures
        named(names).dom() == Set::<Seq<char>>::empty(),
{
    DashMap::new()
}

/// The index that a map gives for a name, if it knows the name.
///
/// Calls `DashMap::get` with the name as a `str`, which finds the entry
/// whose key has the same text, and copies the value out.
#[verifier::external_body]
pub(crate) fn index_of_name(map: &DashMap<Arc<str>, usize>, name: &str) -> (r: Option<usize>)
    ensures
        r == if named(*map).dom().contains(name@) {
            Some(named(*map)[name@])
        } else {
            None
        },
{
    map.get(name).map(|entry| *entry.value())
}

/// Makes a map give `index` for `name`, whatever it gave before.
///
/// Calls `DashMap::insert`, which stores the value under the key and takes
/// the place of an entry with the same key. The other entries stay.
#[verifier::external_body]
pub(crate) fn insert_name(map: &mut DashMap<Arc<str>, usize>, name: Arc<str>, index: usize)
    ensures
        named(*final(map)) == named(*old(map)).insert(name@, index),
{
    map.insert(name, index);
}

/// Whether a map knows no name. Calls `DashMap::is_empty`, which compares
/// the number of entries with 0.
#[verifier::external_body]
pub(crate) fn no_names(map: &DashMap<Arc<str>, usize>) -> (r: bool)
    ensures
        r == (named(*map).dom() == Set::<Seq<char>>::empty()),
{
    map.is_empty()
}

/// The names that a map knows, each once with its index, in no order that
/// could be relied on.
///
/// Calls `DashMap::iter`, which walks the shards of the map and yields every
/// entry once, and copies each key and value out.
#[verifier::external_body]
pub(crate) fn list_names(map: &DashMap<Arc<str>, usize>) -> (items: Vec<(Arc<str>, usize)>)
    ensures
        items@.map_values(|item: (Arc<str>, usize)| item.0@).no_duplicates(),
        items@.map_values(|item: (Arc<str>, usize)| item.0@).to_set() == named(*map).dom(),
        forall|i: int| 0 <= i < items@.len() ==> named(*map)[(#[trigger] items@[i]).0@] == items@[i].1,
{
    map.iter().map(|entry| (Arc::clone(entry.key()), *entry.value())).collect()
}

} // verus!
