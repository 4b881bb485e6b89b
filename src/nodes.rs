//! The hash index: an open-addressing table of `(key, index)` nodes.
use hashbrown::HashTable;
use vstd::prelude::*;

use crate::error::TryReserveError;
use crate::hashing::{hash_key, key_hash};

verus! {

/// A node of the hash index: a key and the index of its slot.
#[derive(Clone, Copy, Debug)]
pub struct KeyData {
    pub key: i64,
    pub index: usize,
}

impl KeyData {
    /// A node for `key` at `index`.
    pub fn new(key: i64, index: usize) -> (r: Self)
        ensures
            r.key == key,
            r.index == index,
    {
        KeyData { key, index }
    }
}

/// A node as a `(key, index)` pair.
pub open spec fn node_view(n: KeyData) -> (i64, usize) {
    (n.key, n.index)
}

/// A table with no node.
pub open spec fn no_nodes() -> Set<(i64, usize)> {
    Set::empty()
}

/// How a probe recognises its node: by key, or by index.
#[derive(Clone, Copy, Debug)]
pub enum Probe {
    Key(i64),
    Index(usize),
}

/// The probe accepts the node.
pub open spec fn probe_hits(p: Probe, n: (i64, usize)) -> bool {
    match p {
        Probe::Key(k) => n.0 == k,
        Probe::Index(i) => n.1 == i,
    }
}

/// Whether the probe accepts the node: the equality test handed to table lookups.
pub fn probe_matches(p: &Probe, n: &KeyData) -> (r: bool)
    ensures
        r == probe_hits(*p, node_view(*n)),
{
    match p {
        Probe::Key(k) => n.key == *k,
        Probe::Index(i) => n.index == *i,
    }
}

/// The hasher handed to every table call that may move nodes: it recomputes a node's
/// hash from the table's seed and the node's key.
pub fn make_hasher(seed: u64, n: &KeyData) -> (h: u64)
    ensures
        h == key_hash(seed, n.key),
{
    hash_key(seed, n.key)
}

/// The table of nodes and the seed of its hashes. Every node in it was placed under
/// `key_hash` of the seed and its key, and `make_hasher` with that seed is the hasher
/// handed to every call that may move nodes.
#[verifier::external_body]
pub struct NodeTable {
    inner: HashTable<KeyData>,
    seed: u64,
}

/// The nodes that the table holds.
pub uninterp spec fn node_set(t: NodeTable) -> Set<(i64, usize)>;

/// The seed that the table's nodes are hashed with.
pub uninterp spec fn table_seed(t: NodeTable) -> u64;

/// Relies on `HashTable::with_capacity`: an empty table, hashed with `seed`. It panics
/// when the bucket count or the allocation size overflows; with at most
/// `RESERVE_LIMIT` nodes the table takes at most 2^57 buckets of 17 bytes, below
/// `isize::MAX`.
#[verifier::external_body]
pub(crate) fn table_with_capacity(n: usize, seed: u64) -> (r: NodeTable)
    requires
        n <= crate::RESERVE_LIMIT,
    ensures
        node_set(r) == no_nodes(),
        table_seed(r) == seed,
{
    NodeTable { inner: HashTable::with_capacity(n), seed }
}

/// Relies on `HashTable::find`: probing with `hash` visits every node placed under
/// that hash, and returns one that `probe` accepts if there is one.
#[verifier::external_body]
pub(crate) fn table_find(t: &NodeTable, hash: u64, probe: Probe) -> (r: Option<KeyData>)
    ensures
        r.is_some() ==> node_set(*t).contains(node_view(r.unwrap())) && probe_hits(
            probe,
            node_view(r.unwrap()),
        ),
        (exists|n: (i64, usize)|
            node_set(*t).contains(n) && probe_hits(probe, n) && key_hash(table_seed(*t), n.0) == hash)
            ==> r.is_some(),
{
    t.inner.find(hash, |n| probe_matches(&probe, n)).copied()
}

/// Relies on `HashTable::find_entry` and `OccupiedEntry::remove`: the node found as
/// `table_find` finds it is taken out of the table; without one the table stays.
#[verifier::external_body]
pub(crate) fn table_remove(t: &mut NodeTable, hash: u64, probe: Probe) -> (r: Option<KeyData>)
    ensures
        table_seed(*final(t)) == table_seed(*old(t)),
        r.is_some() ==> {
            &&& node_set(*old(t)).contains(node_view(r.unwrap()))
            &&& probe_hits(probe, node_view(r.unwrap()))
            &&& node_set(*final(t)) == node_set(*old(t)).remove(node_view(r.unwrap()))
        },
        r.is_none() ==> node_set(*final(t)) == node_set(*old(t)),
        (exists|n: (i64, usize)|
            node_set(*old(t)).contains(n) && probe_hits(probe, n) && key_hash(table_seed(*old(t)), n.0)
                == hash)
            ==> r.is_some(),
{
    match t.inner.find_entry(hash, |n| probe_matches(&probe, n)) {
        Ok(entry) => Some(entry.remove().0),
        Err(_) => None,
    }
}

/// Relies on `HashTable::insert_unique`: adds the node under `hash` without comparing
/// it with the others.
#[verifier::external_body]
pub(crate) fn table_insert(t: &mut NodeTable, hash: u64, node: KeyData)
    requires
        hash == key_hash(table_seed(*old(t)), node.key),
        !node_set(*old(t)).contains(node_view(node)),
    ensures
        table_seed(*final(t)) == table_seed(*old(t)),
        node_set(*final(t)) == node_set(*old(t)).insert(node_view(node)),
{
    let seed = t.seed;
    t.inner.insert_unique(hash, node, |n| make_hasher(seed, n));
}

/// Relies on `HashTable::len`: the number of nodes.
#[verifier::external_body]
pub(crate) fn table_len(t: &NodeTable) -> (r: usize)
    ensures
        r == node_set(*t).len(),
{
    t.inner.len()
}

/// Relies on `HashTable::capacity`: the nodes held plus the room left before growth.
#[verifier::external_body]
pub(crate) fn table_capacity(t: &NodeTable) -> (r: usize)
    ensures
        r >= node_set(*t).len(),
{
    t.inner.capacity()
}

/// Relies on `HashTable::clear`: every node goes; the memory stays.
#[verifier::external_body]
pub(crate) fn table_clear(t: &mut NodeTable)
    ensures
        table_seed(*final(t)) == table_seed(*old(t)),
        node_set(*final(t)) == no_nodes(),
{
    t.inner.clear()
}

/// Relies on `HashTable::reserve`: makes room and may move nodes, never adds or drops
/// one. It panics when the allocation size overflows; with at most `RESERVE_LIMIT`
/// nodes the table takes at most 2^57 buckets of 17 bytes, below `isize::MAX`.
#[verifier::external_body]
pub(crate) fn table_reserve(t: &mut NodeTable, additional: usize)
    requires
        node_set(*old(t)).len() + additional <= crate::RESERVE_LIMIT,
    ensures
        table_seed(*final(t)) == table_seed(*old(t)),
        node_set(*final(t)) == node_set(*old(t)),
{
    let seed = t.seed;
    t.inner.reserve(additional, |n| make_hasher(seed, n))
}

/// Relies on `HashTable::try_reserve`: the nodes stay either way. When `len +
/// additional` passes `usize::MAX / 8`, the bucket count overflows and
/// `CapacityOverflow` comes back before anything is allocated. Its errors are
/// `CapacityOverflow` and `AllocError` only.
#[verifier::external_body]
pub(crate) fn table_try_reserve(t: &mut NodeTable, additional: usize) -> (r: Result<(), TryReserveError>)
    ensures
        table_seed(*final(t)) == table_seed(*old(t)),
        node_set(*final(t)) == node_set(*old(t)),
        node_set(*old(t)).len() + additional > usize::MAX / 8 ==> r matches Err(TryReserveError::CapacityOverflow),
        !(r matches Err(TryReserveError::Slab { .. })),
{
    let seed = t.seed;
    match t.inner.try_reserve(additional, |n| make_hasher(seed, n)) {
        Ok(()) => Ok(()),
        Err(hashbrown::TryReserveError::CapacityOverflow) => Err(TryReserveError::CapacityOverflow),
        Err(hashbrown::TryReserveError::AllocError { layout }) => Err(TryReserveError::AllocError { layout }),
    }
}

/// Relies on `HashTable::shrink_to_fit`: releases spare room, never adds or drops a node.
#[verifier::external_body]
pub(crate) fn table_shrink_to_fit(t: &mut NodeTable)
    ensures
        table_seed(*final(t)) == table_seed(*old(t)),
        node_set(*final(t)) == node_set(*old(t)),
{
    let seed = t.seed;
    t.inner.shrink_to_fit(|n| make_hasher(seed, n))
}

/// Relies on `HashTable::iter`: each node once, in the table's order.
#[verifier::external_body]
pub(crate) fn table_nodes(t: &NodeTable) -> (r: Vec<KeyData>)
    ensures
        r@.len() == node_set(*t).len(),
        r@.map_values(|n: KeyData| node_view(n)).no_duplicates(),
        forall|i: int| 0 <= i < r@.len() ==> node_set(*t).contains(#[trigger] node_view(r@[i])),
{
    t.inner.iter().copied().collect()
}

/// Relies on `HashTable::drain`: hands out each node once and leaves the table empty,
/// with its memory kept.
#[verifier::external_body]
pub(crate) fn table_drain(t: &mut NodeTable) -> (r: Vec<KeyData>)
    ensures
        table_seed(*final(t)) == table_seed(*old(t)),
        node_set(*final(t)) == no_nodes(),
        r@.len() == node_set(*old(t)).len(),
        r@.map_values(|n: KeyData| node_view(n)).no_duplicates(),
        forall|i: int| 0 <= i < r@.len() ==> node_set(*old(t)).contains(#[trigger] node_view(r@[i])),
{
    t.inner.drain().collect()
}

/// Relies on `HashTable::clone`: a table of its own holding the same nodes.
#[verifier::external_body]
pub(crate) fn table_clone(t: &NodeTable) -> (r: NodeTable)
    ensures
        node_set(r) == node_set(*t),
        table_seed(r) == table_seed(*t),
{
    NodeTable { inner: t.inner.clone(), seed: t.seed }
}

} // verus!
