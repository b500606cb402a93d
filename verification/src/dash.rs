//! The concurrent collections of `dashmap` that the asset graph keeps, and
//! the trusted contracts of the few methods that the graph calls on them.
//!
//! Every item here rests on the source of `dashmap` 6.2.1: a `DashSet<K>` is a
//! `DashMap<K, ()>`, and a `DashMap` is a fixed array of shards, each a
//! `RwLock<HashMap<K, V>>`, with a key living in exactly one shard.  The
//! methods below therefore behave as the matching methods of a single
//! `HashMap` would.
use dashmap::{DashMap, DashSet};
use vstd::prelude::*;

verus! {

/// `dashmap::DashSet`, carried opaquely; what it holds is `index_set_items`.
#[verifier::external_type_specification]
#[verifier::external_body]
#[verifier::reject_recursive_types(K)]
#[verifier::reject_recursive_types(S)]
pub struct ExDashSet<K, S>(DashSet<K, S>);

/// `dashmap::DashMap`, carried opaquely; what it holds is `path_index_entries`.
#[verifier::external_type_specification]
#[verifier::external_body]
#[verifier::reject_recursive_types(K)]
#[verifier::reject_recursive_types(V)]
#[verifier::reject_recursive_types(S)]
pub struct ExDashMap<K, V, S>(DashMap<K, V, S>);

/// A map from the key of an asset's path to an index: the index of its node
/// in the graph, or its position among the assets a file references.
pub type PathIndex = DashMap<String, usize>;

/// The indices that a `DashSet<usize>` holds.
pub uninterp spec fn index_set_items(s: DashSet<usize>) -> Set<usize>;

/// The entries of a `PathIndex`, each key taken by its view.
pub uninterp spec fn path_index_entries(m: PathIndex) -> Map<Seq<char>, usize>;

/// `DashSet::new`: a set that holds nothing.
#[verifier::external_body]
pub(crate) fn index_set_new() -> (s: DashSet<usize>)
    ensures
        index_set_items(s) == Set::<usize>::empty(),
{
    DashSet::new()
}

/// `DashSet::insert`: adds `x`; answers whether `x` was absent before.
#[verifier::external_body]
pub(crate) fn index_set_insert(s: &mut DashSet<usize>, x: usize) -> (added: bool)
    ensures
        index_set_items(*final(s)) == index_set_items(*old(s)).insert(x),
        added == !index_set_items(*old(s)).contains(x),
{
    s.insert(x)
}

/// `DashSet::contains`: whether `x` is held.
#[verifier::external_body]
pub(crate) fn index_set_contains(s: &DashSet<usize>, x: usize) -> (found: bool)
    ensures
        found == index_set_items(*s).contains(x),
{
    s.contains(&x)
}

/// `DashSet::iter`, each yielded reference read out as the index it holds.
/// Every held index comes out exactly once, in an order that the source
/// leaves to the shard layout and the hasher.
#[verifier::external_body]
pub(crate) fn index_set_to_vec(s: &DashSet<usize>) -> (items: Vec<usize>)
    ensures
        items@.to_set() == index_set_items(*s),
        items@.no_duplicates(),
{
    s.iter().map(|r| *r).collect()
}

/// `DashSet::clone`: a new set that holds the same indices.
#[verifier::external_body]
pub(crate) fn index_set_clone(s: &DashSet<usize>) -> (c: DashSet<usize>)
    ensures
        index_set_items(c) == index_set_items(*s),
{
    s.clone()
}

/// `DashMap::new`: a map with no entries.
#[verifier::external_body]
pub(crate) fn path_map_new() -> (m: PathIndex)
    ensures
        path_index_entries(m).dom() == Set::<Seq<char>>::empty(),
{
    DashMap::new()
}

/// `DashMap::get`, the value behind the returned guard copied out.
#[verifier::external_body]
pub(crate) fn path_map_get(m: &PathIndex, key: &str) -> (v: Option<usize>)
    ensures
        v == (if path_index_entries(*m).dom().contains(key@) {
            Some(path_index_entries(*m)[key@])
        } else {
            None::<usize>
        }),
{
    m.get(key).map(|r| *r)
}

/// `DashMap::insert`: `key` now maps to `value`; the previous value is handed back.
#[verifier::external_body]
pub(crate) fn path_map_insert(m: &mut PathIndex, key: String, value: usize) -> (prev: Option<usize>)
    ensures
        path_index_entries(*final(m)) == path_index_entries(*old(m)).insert(key@, value),
        prev == (if path_index_entries(*old(m)).dom().contains(key@) {
            Some(path_index_entries(*old(m))[key@])
        } else {
            None::<usize>
        }),
{
    m.insert(key, value)
}

/// `DashMap::remove`: `key` leaves the map; the removed value is handed back.
#[verifier::external_body]
pub(crate) fn path_map_remove(m: &mut PathIndex, key: &str) -> (removed: Option<usize>)
    ensures
        path_index_entries(*final(m)) == path_index_entries(*old(m)).remove(key@),
        removed == (if path_index_entries(*old(m)).dom().contains(key@) {
            Some(path_index_entries(*old(m))[key@])
        } else {
            None::<usize>
        }),
{
    m.remove(key).map(|(_, v)| v)
}

/// `DashMap::iter`, each entry read out as the index it maps to.  Every entry
/// comes out exactly once, in an order that the source leaves to the shard
/// layout and the hasher; the values of two entries may be equal.
#[verifier::external_body]
pub(crate) fn path_map_values(m: &PathIndex) -> (values: Vec<usize>)
    ensures
        forall|i: int| 0 <= i < values@.len() ==>
            #[trigger] path_index_entries(*m).values().contains(values@[i]),
        forall|k: Seq<char>| #[trigger] path_index_entries(*m).dom().contains(k) ==>
            values@.contains(path_index_entries(*m)[k]),
{
    m.iter().map(|r| *r.value()).collect()
}

} // verus!
