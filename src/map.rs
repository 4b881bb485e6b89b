//! The map facade: every operation is one small transaction over the hash index and
//! the slot store.
use slab::Slab;
use vstd::prelude::*;

use crate::entry::{Entry, OccupiedEntry, VacantEntry};
use crate::error::TryReserveError;
use crate::hashing::{hash_key, key_hash};
use crate::model::{
    empty_state, has_key, index_of, insert_all, insert_index, insert_step, InsertState, key_map, keys_unique, lemma_indices_cover, lemma_key_map_insert,
    lemma_listing_key_map, lemma_pairs_map, lists_exactly, pairs_map, pairs_of,
};
use crate::nodes::{
    node_set, node_view, probe_hits, table_seed, table_capacity, table_clear, table_clone, table_drain,
    table_find, table_insert, table_len, table_remove, table_reserve, table_shrink_to_fit,
    table_try_reserve, table_with_capacity, KeyData, NodeTable, Probe,
};
use crate::slots::{
    lemma_slots_remove, slot_end, slot_free, slot_map, slot_value_mut, slots_capacity,
    slots_clear, slots_clone, slots_contains, slots_get, slots_insert, slots_ok, slots_reserve,
    slots_shrink_to_fit, slots_try_remove, slots_vacant_key, slots_with_capacity, ValueData,
};

verus! {

/// The slot store, at `capacity` slots, can grow by `additional`: the sum stays within
/// `isize::MAX / 64` slots, the most that its vector can double to.
pub open spec fn slab_fits(capacity: usize, additional: usize) -> bool {
    capacity + additional <= (isize::MAX as usize) / 64
}

/// What the slot store's bound says of a request: `Ok` when it fits, else the `Slab`
/// error with both numbers.
pub fn slab_outcome(capacity: usize, additional: usize) -> (r: Result<(), TryReserveError>)
    ensures
        slab_fits(capacity, additional) ==> r is Ok,
        !slab_fits(capacity, additional) ==> (r matches Err(
            TryReserveError::Slab { capacity: c, additional: a },
        ) && c == capacity && a == additional),
{
    let limit = (isize::MAX as usize) / 64;
    if capacity <= limit && additional <= limit - capacity {
        Ok(())
    } else {
        Err(TryReserveError::Slab { capacity, additional })
    }
}

/// What `f` makes of each element of a listing, in the same order.
fn project<T, F: Fn((usize, i64, i64)) -> T>(full: &Vec<(usize, i64, i64)>, f: F) -> (r: Vec<T>)
    requires
        forall|e: (usize, i64, i64)| f.requires((e,)),
    ensures
        r@.len() == full@.len(),
        forall|j: int| 0 <= j < full@.len() ==> f.ensures((full@[j],), #[trigger] r@[j]),
{
    let mut out: Vec<T> = Vec::new();
    let mut j: usize = 0;
    while j < full.len()
        invariant
            j <= full@.len(),
            out@.len() == j,
            forall|e: (usize, i64, i64)| f.requires((e,)),
            forall|t: int| 0 <= t < j ==> f.ensures((full@[t],), #[trigger] out@[t]),
        decreases full@.len() - j,
    {
        out.push(f(full[j]));
        j = j + 1;
    }
    out
}

/// `next` is `prev` after a new element took `prev.next_index()`: the head of the
/// free list is used up, or the end moves on by one.
pub open spec fn took_next(prev: &HashSlabMap, next: &HashSlabMap) -> bool {
    if prev.free_indices().len() > 0 {
        next.free_indices() == prev.free_indices().drop_first() && next.end_index() == prev.end_index()
    } else {
        next.free_indices().len() == 0 && next.end_index() == prev.end_index() + 1
    }
}

/// `next` is `prev` after the element at `index` was removed: `index` is pushed on
/// the free list.
pub open spec fn freed(prev: &HashSlabMap, next: &HashSlabMap, index: usize) -> bool {
    next.free_indices() == seq![index] + prev.free_indices() && next.end_index() == prev.end_index()
}

/// `next` hands out indices exactly as `prev` does.
pub open spec fn same_free_list(prev: &HashSlabMap, next: &HashSlabMap) -> bool {
    next.free_indices() == prev.free_indices() && next.end_index() == prev.end_index()
}

/// A hash map from `i64` keys to `i64` values in which every element also has an
/// index: the slot that holds its value. The index is handed out on insertion and
/// stays with the element until it is removed; then it may be reused.
pub struct HashSlabMap {
    table: NodeTable,
    slab: Slab<ValueData>,
    seed: u64,
    keys: Ghost<Map<usize, i64>>,
}

impl Default for HashSlabMap {
    fn default() -> (r: Self)
        ensures
            r.wf(),
            r@ == Map::<usize, (i64, i64)>::empty(),
    {
        Self::with_capacity(0)
    }
}

impl View for HashSlabMap {
    type V = Map<usize, (i64, i64)>;

    /// Each occupied index with the key and the value of its element.
    closed spec fn view(&self) -> Map<usize, (i64, i64)> {
        Map::new(
            |i: usize| self.keys@.contains_key(i),
            |i: usize| (self.keys@[i], slot_map(self.slab)[i].0),
        )
    }
}

impl HashSlabMap {
    /// The two stores agree: one node per occupied slot, naming its index and
    /// placed under the hash that the slot caches.
    pub closed spec fn wf(&self) -> bool {
        &&& node_set(self.table).finite()
        &&& table_seed(self.table) == self.seed
        &&& slot_map(self.slab).dom().finite()
        &&& self.keys@.dom() == slot_map(self.slab).dom()
        &&& forall|n: (i64, usize)| #[trigger]
            node_set(self.table).contains(n) <==> (self.keys@.contains_key(n.1) && self.keys@[n.1]
                == n.0)
        &&& forall|i: usize| #[trigger]
            self.keys@.contains_key(i) ==> slot_map(self.slab)[i].1 == key_hash(self.seed, self.keys@[i])
        &&& forall|i: usize, j: usize| #[trigger]
            self.keys@.contains_key(i) && #[trigger] self.keys@.contains_key(j) && self.keys@[i]
                == self.keys@[j] ==> i == j
        &&& node_set(self.table).len() == slot_map(self.slab).len()
        &&& slots_ok(self.slab)
    }

    /// The seed of the hashing policy.
    pub closed spec fn hash_seed(&self) -> u64 {
        self.seed
    }

    /// The number of nodes in the hash index.
    pub closed spec fn index_len(&self) -> nat {
        node_set(self.table).len()
    }

    /// The number of occupied slots in the slot store.
    pub closed spec fn slot_len(&self) -> nat {
        slot_map(self.slab).len()
    }

    /// The freed indices, most recently freed first: new elements take them in this
    /// order.
    pub closed spec fn free_indices(&self) -> Seq<usize> {
        slot_free(self.slab)
    }

    /// The index that a new element takes once no freed index is left.
    pub closed spec fn end_index(&self) -> usize {
        slot_end(self.slab)
    }

    /// What insertion sees of the map: its elements, its free list and its end.
    pub open spec fn state(&self) -> InsertState {
        (self@, self.free_indices(), self.end_index() as int)
    }

    /// The index that the next new element takes: the most recently freed one, or the
    /// end of the slot store when none is free.
    pub open spec fn next_index(&self) -> usize {
        if self.free_indices().len() > 0 {
            self.free_indices()[0]
        } else {
            self.end_index()
        }
    }

    /// The view's indices are those of the ghost key map.
    proof fn lemma_keys_dom(&self)
        ensures
            self@.dom() == self.keys@.dom(),
    {
        assert(self@.dom() =~= self.keys@.dom());
    }

    /// What the invariant gives of the view: its domain is finite, its keys are
    /// unique, both stores count its elements, and the next index is free.
    pub proof fn lemma_view_facts(&self)
        requires
            self.wf(),
        ensures
            self@.dom().finite(),
            self@.len() == self.index_len(),
            self@.len() == self.slot_len(),
            keys_unique(self@),
            !self@.contains_key(self.next_index()),
    {
        self.lemma_keys_dom();
        if slot_free(self.slab).len() > 0 {
            assert(!slot_map(self.slab).contains_key(slot_free(self.slab)[0]));
        }
    }

    /// The node of the element at `i` is in the hash index.
    proof fn lemma_node_of(&self, i: usize)
        requires
            self.wf(),
            self.keys@.contains_key(i),
        ensures
            node_set(self.table).contains((self.keys@[i], i)),
            slot_map(self.slab).contains_key(i),
    {
        let n = (self.keys@[i], i);
        assert(node_set(self.table).contains(n));
    }

    /// Creates an empty map, hashing with seed 0: the same in every process. A caller
    /// that wants a seed of its own passes it to `with_hasher`.
    pub fn new() -> (r: Self)
        ensures
            r.wf(),
            r@ == Map::<usize, (i64, i64)>::empty(),
            r.free_indices().len() == 0,
            r.end_index() == 0,
            r.hash_seed() == 0,
    {
        Self::with_capacity_and_hasher(0, 0)
    }

    /// Creates an empty map with room for `n` elements in both stores, hashing with
    /// seed 0.
    pub fn with_capacity(n: usize) -> (r: Self)
        requires
            n <= crate::RESERVE_LIMIT,
        ensures
            r.wf(),
            r@ == Map::<usize, (i64, i64)>::empty(),
            r.free_indices().len() == 0,
            r.end_index() == 0,
            r.hash_seed() == 0,
    {
        Self::with_capacity_and_hasher(n, 0)
    }

    /// Creates an empty map that hashes with `seed`.
    pub fn with_hasher(seed: u64) -> (r: Self)
        ensures
            r.wf(),
            r@ == Map::<usize, (i64, i64)>::empty(),
            r.free_indices().len() == 0,
            r.end_index() == 0,
            r.hash_seed() == seed,
    {
        Self::with_capacity_and_hasher(0, seed)
    }

    /// Creates an empty map with room for `n` elements in both stores, hashing with
    /// `seed`.
    pub fn with_capacity_and_hasher(n: usize, seed: u64) -> (r: Self)
        requires
            n <= crate::RESERVE_LIMIT,
        ensures
            r.wf(),
            r@ == Map::<usize, (i64, i64)>::empty(),
            r.free_indices().len() == 0,
            r.end_index() == 0,
            r.hash_seed() == seed,
    {
        let r = HashSlabMap {
            table: table_with_capacity(n, seed),
            slab: slots_with_capacity(n),
            seed,
            keys: Ghost(Map::empty()),
        };
        proof {
            assert(r.keys@.dom() =~= slot_map(r.slab).dom());
            assert(r@ =~= Map::<usize, (i64, i64)>::empty());
        }
        r
    }

    /// The seed of the hashing policy.
    pub fn hasher(&self) -> (r: u64)
        ensures
            r == self.hash_seed(),
    {
        self.seed
    }

    /// The number of elements both stores can hold without reallocating.
    pub fn capacity(&self) -> (r: usize)
        requires
            self.wf(),
        ensures
            r >= self@.len(),
    {
        proof {
            self.lemma_view_facts();
            self.lemma_keys_dom();
        }
        let t = table_capacity(&self.table);
        let s = slots_capacity(&self.slab);
        if t < s {
            t
        } else {
            s
        }
    }

    /// The number of elements.
    pub fn len(&self) -> (r: usize)
        requires
            self.wf(),
        ensures
            r == self@.len(),
    {
        proof {
            self.lemma_view_facts();
            self.lemma_keys_dom();
        }
        table_len(&self.table)
    }

    /// Whether the map has no element.
    pub fn is_empty(&self) -> (r: bool)
        requires
            self.wf(),
        ensures
            r == (self@.len() == 0),
    {
        self.len() == 0
    }

    /// The key and value at `index`, if that index is occupied. The node is found
    /// with the hash cached in the slot: the key is never hashed.
    pub fn get_index(&self, index: usize) -> (r: Option<(i64, i64)>)
        requires
            self.wf(),
        ensures
            r.is_some() == self@.contains_key(index),
            r.is_some() ==> r.unwrap() == self@[index],
    {
        match slots_get(&self.slab, index) {
            None => None,
            Some(data) => {
                proof {
                    self.lemma_node_of(index);
                    assert(probe_hits(Probe::Index(index), (self.keys@[index], index)));
                }
                match table_find(&self.table, data.hash, Probe::Index(index)) {
                    Some(node) => {
                        proof {
                            assert(node_set(self.table).contains(node_view(node)));
                        }
                        Some((node.key, data.value))
                    },
                    None => None,
                }
            },
        }
    }

    /// The value at `index`, if that index is occupied.
    pub fn get_index_value(&self, index: usize) -> (r: Option<i64>)
        requires
            self.wf(),
        ensures
            r.is_some() == self@.contains_key(index),
            r.is_some() ==> r.unwrap() == self@[index].1,
    {
        match slots_get(&self.slab, index) {
            None => None,
            Some(data) => Some(data.value),
        }
    }

    /// The index that the next new element will take; no element holds it now.
    pub fn vacant_index(&self) -> (r: usize)
        requires
            self.wf(),
        ensures
            r == self.next_index(),
            !self@.contains_key(r),
    {
        slots_vacant_key(&self.slab)
    }

    /// Whether `index` holds an element.
    pub fn contains_index(&self, index: usize) -> (r: bool)
        requires
            self.wf(),
        ensures
            r == self@.contains_key(index),
    {
        slots_contains(&self.slab, index)
    }

    /// Looks `key` up in the hash index: its node, if the key is present.
    fn find_key(&self, key: i64, hash: u64) -> (r: Option<KeyData>)
        requires
            self.wf(),
            hash == key_hash(self.seed, key),
        ensures
            r.is_some() == has_key(self@, key),
            r.is_some() ==> {
                &&& self@.contains_key(r.unwrap().index)
                &&& self@[r.unwrap().index].0 == key
                &&& r.unwrap().key == key
                &&& r.unwrap().index == index_of(self@, key)
            },
    {
        proof {
            self.lemma_view_facts();
            self.lemma_keys_dom();
        }
        let r = table_find(&self.table, hash, Probe::Key(key));
        proof {
            if has_key(self@, key) {
                let i = choose|i: usize| #[trigger] self@.contains_key(i) && self@[i].0 == key;
                self.lemma_node_of(i);
                assert(probe_hits(Probe::Key(key), (self.keys@[i], i)));
            }
            if r.is_some() {
                let n = node_view(r.unwrap());
                assert(node_set(self.table).contains(n));
                assert(self@.contains_key(n.1));
            }
        }
        r
    }

    /// Inserts `value` under `key`. A present key keeps its index and gets the new
    /// value, and the old value comes back; a new key takes `next_index()`.
    pub fn insert_full(&mut self, key: i64, value: i64) -> (r: (usize, Option<i64>))
        requires
            old(self).wf(),
        ensures
            final(self).wf(),
            r.0 == insert_index(old(self)@, old(self).next_index(), key),
            final(self)@ == old(self)@.insert(r.0, (key, value)),
            final(self).state() == insert_step(old(self).state(), key, value),
            has_key(old(self)@, key) ==> {
                &&& r.0 == index_of(old(self)@, key)
                &&& r.1 == Some(old(self)@[r.0].1)
                &&& same_free_list(&*old(self), &*final(self))
            },
            !has_key(old(self)@, key) ==> {
                &&& r.0 == old(self).next_index()
                &&& r.1 == None::<i64>
                &&& !old(self)@.contains_key(r.0)
                &&& took_next(&*old(self), &*final(self))
            },
    {
        proof {
            self.lemma_view_facts();
            self.lemma_keys_dom();
        }
        let hash = hash_key(self.seed, key);
        match self.find_key(key, hash) {
            Some(node) => {
                let i = node.index;
                let slot = slot_value_mut(&mut self.slab, i);
                let old_value = *slot;
                *slot = value;
                proof {
                    assert(self.keys@.dom() =~= slot_map(self.slab).dom());
                    assert(self@ =~= old(self)@.insert(i, (key, value)));
                }
                (i, Some(old_value))
            },
            None => {
                let index = self.insert_new(key, hash, value);
                (index, None)
            },
        }
    }

    /// Inserts `value` under `key` and returns the value it replaced, if any.
    pub fn insert(&mut self, key: i64, value: i64) -> (r: Option<i64>)
        requires
            old(self).wf(),
        ensures
            final(self).wf(),
            has_key(old(self)@, key) ==> {
                &&& final(self)@ == old(self)@.insert(index_of(old(self)@, key), (key, value))
                &&& r == Some(old(self)@[index_of(old(self)@, key)].1)
                &&& same_free_list(&*old(self), &*final(self))
            },
            !has_key(old(self)@, key) ==> {
                &&& final(self)@ == old(self)@.insert(old(self).next_index(), (key, value))
                &&& r == None::<i64>
                &&& took_next(&*old(self), &*final(self))
            },
    {
        self.insert_full(key, value).1
    }

    /// The index, key and value of the element with key `key`, if there is one.
    pub fn get_full(&self, key: i64) -> (r: Option<(usize, i64, i64)>)
        requires
            self.wf(),
        ensures
            r.is_some() == has_key(self@, key),
            r.is_some() ==> {
                &&& r.unwrap().0 == index_of(self@, key)
                &&& self@.contains_key(r.unwrap().0)
                &&& self@[r.unwrap().0] == (key, r.unwrap().2)
                &&& r.unwrap().1 == key
            },
    {
        if table_len(&self.table) == 0 {
            proof {
                self.lemma_view_facts();
                self.lemma_keys_dom();
                if has_key(self@, key) {
                    let i = choose|i: usize| #[trigger] self@.contains_key(i) && self@[i].0 == key;
                    assert(self@.dom().contains(i));
                }
            }
            return None;
        }
        match self.find_key(key, hash_key(self.seed, key)) {
            None => None,
            Some(node) => match slots_get(&self.slab, node.index) {
                Some(data) => Some((node.index, node.key, data.value)),
                None => None,
            },
        }
    }

    /// The key and value of the element with key `key`, if there is one.
    pub fn get_key_value(&self, key: i64) -> (r: Option<(i64, i64)>)
        requires
            self.wf(),
        ensures
            r.is_some() == has_key(self@, key),
            r.is_some() ==> r.unwrap() == self@[index_of(self@, key)] && r.unwrap().0 == key,
    {
        match self.get_full(key) {
            Some((_, k, v)) => Some((k, v)),
            None => None,
        }
    }

    /// The value under `key`, if there is one.
    pub fn get(&self, key: i64) -> (r: Option<i64>)
        requires
            self.wf(),
        ensures
            r.is_some() == has_key(self@, key),
            r.is_some() ==> r.unwrap() == key_map(self@)[key],
    {
        match self.get_full(key) {
            Some((_, _, v)) => Some(v),
            None => None,
        }
    }

    /// The index of the element with key `key`, if there is one.
    pub fn get_index_of(&self, key: i64) -> (r: Option<usize>)
        requires
            self.wf(),
        ensures
            r.is_some() == has_key(self@, key),
            r.is_some() ==> r.unwrap() == index_of(self@, key) && self@[r.unwrap()].0 == key,
    {
        match self.get_full(key) {
            Some((i, _, _)) => Some(i),
            None => None,
        }
    }

    /// Whether some element has the key `key`.
    pub fn contains_key(&self, key: i64) -> (r: bool)
        requires
            self.wf(),
        ensures
            r == has_key(self@, key),
    {
        self.find_key(key, hash_key(self.seed, key)).is_some()
    }

    /// Removes the element with key `key` and returns its index, key and value. Its
    /// index becomes `next_index()`.
    pub fn remove_full(&mut self, key: i64) -> (r: Option<(usize, i64, i64)>)
        requires
            old(self).wf(),
        ensures
            final(self).wf(),
            r.is_some() == has_key(old(self)@, key),
            r.is_some() ==> {
                &&& r.unwrap().0 == index_of(old(self)@, key)
                &&& old(self)@.contains_key(r.unwrap().0)
                &&& old(self)@[r.unwrap().0] == (key, r.unwrap().2)
                &&& r.unwrap().1 == key
                &&& final(self)@ == old(self)@.remove(r.unwrap().0)
                &&& freed(&*old(self), &*final(self), r.unwrap().0)
            },
            r.is_none() ==> final(self)@ == old(self)@ && same_free_list(&*old(self), &*final(self)),
    {
        proof {
            self.lemma_view_facts();
            self.lemma_keys_dom();
            if has_key(self@, key) {
                let i = choose|i: usize| #[trigger] self@.contains_key(i) && self@[i].0 == key;
                self.lemma_node_of(i);
                assert(probe_hits(Probe::Key(key), (self.keys@[i], i)));
            }
        }
        let hash = hash_key(self.seed, key);
        match table_remove(&mut self.table, hash, Probe::Key(key)) {
            None => None,
            Some(node) => {
                let index = node.index;
                proof {
                    assert(old(self).keys@.contains_key(index));
                    assert(old(self)@.contains_key(index));
                }
                match slots_try_remove(&mut self.slab, index) {
                    None => {
                        proof {
                            assert(false);
                        }
                        None
                    },
                    Some(data) => {
                        self.keys = Ghost(self.keys@.remove(index));
                        proof {
                            self.lemma_removed(*old(self), index);
                        }
                        Some((index, node.key, data.value))
                    },
                }
            },
        }
    }

    /// What removing the element at `index` from both stores leaves holds together.
    proof fn lemma_removed(&self, prev: Self, index: usize)
        requires
            prev.wf(),
            prev.keys@.contains_key(index),
            self.keys@ == prev.keys@.remove(index),
            node_set(self.table) == node_set(prev.table).remove((prev.keys@[index], index)),
            slot_map(self.slab) == slot_map(prev.slab).remove(index),
            slot_free(self.slab) == seq![index] + slot_free(prev.slab),
            slot_end(self.slab) == slot_end(prev.slab),
            self.seed == prev.seed,
            table_seed(self.table) == table_seed(prev.table),
        ensures
            self.wf(),
            self@ == prev@.remove(index),
            self.free_indices() == seq![index] + prev.free_indices(),
            self.end_index() == prev.end_index(),
            self.next_index() == index,
    {
        prev.lemma_node_of(index);
        lemma_slots_remove(prev.slab, self.slab, index);
        assert(self.keys@.dom() =~= slot_map(self.slab).dom());
        assert forall|n: (i64, usize)| #[trigger]
            node_set(self.table).contains(n) <==> (self.keys@.contains_key(n.1) && self.keys@[n.1]
                == n.0) by {
            if n.1 == index && node_set(self.table).contains(n) {
                assert(node_set(prev.table).contains(n));
            }
        }
        assert(self@ =~= prev@.remove(index));
    }

    /// Removes the element with key `key` and returns its key and value.
    pub fn remove_entry(&mut self, key: i64) -> (r: Option<(i64, i64)>)
        requires
            old(self).wf(),
        ensures
            final(self).wf(),
            r.is_some() == has_key(old(self)@, key),
            r.is_some() ==> {
                &&& r.unwrap() == old(self)@[index_of(old(self)@, key)]
                &&& r.unwrap().0 == key
                &&& final(self)@ == old(self)@.remove(index_of(old(self)@, key))
                &&& freed(&*old(self), &*final(self), index_of(old(self)@, key))
            },
            r.is_none() ==> final(self)@ == old(self)@ && same_free_list(&*old(self), &*final(self)),
    {
        match self.remove_full(key) {
            Some((_, k, v)) => Some((k, v)),
            None => None,
        }
    }

    /// Removes the element with key `key` and returns its value.
    pub fn remove(&mut self, key: i64) -> (r: Option<i64>)
        requires
            old(self).wf(),
        ensures
            final(self).wf(),
            r.is_some() == has_key(old(self)@, key),
            r.is_some() ==> {
                &&& r.unwrap() == key_map(old(self)@)[key]
                &&& final(self)@ == old(self)@.remove(index_of(old(self)@, key))
                &&& freed(&*old(self), &*final(self), index_of(old(self)@, key))
            },
            r.is_none() ==> final(self)@ == old(self)@ && same_free_list(&*old(self), &*final(self)),
    {
        match self.remove_full(key) {
            Some((_, _, v)) => Some(v),
            None => None,
        }
    }

    /// Removes the element at `index` and returns its key and value. The slot goes
    /// first, for its cached hash; the node is then found by that hash and the index.
    pub fn remove_index(&mut self, index: usize) -> (r: Option<(i64, i64)>)
        requires
            old(self).wf(),
        ensures
            final(self).wf(),
            r.is_some() == old(self)@.contains_key(index),
            r.is_some() ==> {
                &&& r.unwrap() == old(self)@[index]
                &&& final(self)@ == old(self)@.remove(index)
                &&& freed(&*old(self), &*final(self), index)
            },
            r.is_none() ==> final(self)@ == old(self)@ && same_free_list(&*old(self), &*final(self)),
    {
        proof {
            self.lemma_view_facts();
            self.lemma_keys_dom();
        }
        match slots_try_remove(&mut self.slab, index) {
            None => None,
            Some(data) => {
                proof {
                    old(self).lemma_node_of(index);
                    assert(probe_hits(Probe::Index(index), (self.keys@[index], index)));
                }
                match table_remove(&mut self.table, data.hash, Probe::Index(index)) {
                    None => {
                        proof {
                            assert(false);
                        }
                        None
                    },
                    Some(node) => {
                        proof {
                            assert(old(self).keys@.contains_key(node.index));
                            assert(node_view(node) == (old(self).keys@[index], index));
                        }
                        self.keys = Ghost(self.keys@.remove(index));
                        proof {
                            self.lemma_removed(*old(self), index);
                        }
                        Some((node.key, data.value))
                    },
                }
            },
        }
    }

    /// Removes every element; both stores keep their memory.
    pub fn clear(&mut self)
        requires
            old(self).wf(),
        ensures
            final(self).wf(),
            final(self)@ == Map::<usize, (i64, i64)>::empty(),
            final(self).free_indices().len() == 0,
            final(self).end_index() == 0,
    {
        table_clear(&mut self.table);
        slots_clear(&mut self.slab);
        self.keys = Ghost(Map::empty());
        proof {
            assert(self.keys@.dom() =~= slot_map(self.slab).dom());
            assert(self@ =~= Map::<usize, (i64, i64)>::empty());
        }
    }

    /// Makes room for `additional` more elements in both stores.
    pub fn reserve(&mut self, additional: usize)
        requires
            old(self).wf(),
            old(self)@.len() + additional <= crate::RESERVE_LIMIT,
        ensures
            final(self).wf(),
            final(self)@ == old(self)@,
            same_free_list(&*old(self), &*final(self)),
    {
        proof {
            self.lemma_view_facts();
            self.lemma_keys_dom();
        }
        table_reserve(&mut self.table, additional);
        slots_reserve(&mut self.slab, additional);
    }

    /// Tries to make room for `additional` more elements in both stores; the elements
    /// stay whatever comes back. A request past `usize::MAX / 8` elements in all is
    /// refused as `CapacityOverflow` by the hash index before anything is allocated.
    /// Otherwise a request that the slot store cannot take is refused as `Slab` before
    /// either store is touched; only then is the hash index asked, and the slot store
    /// grows once it has said yes.
    pub fn try_reserve(&mut self, additional: usize) -> (r: Result<(), TryReserveError>)
        requires
            old(self).wf(),
        ensures
            final(self).wf(),
            final(self)@ == old(self)@,
            same_free_list(&*old(self), &*final(self)),
            old(self)@.len() + additional > usize::MAX / 8 ==> r == Err::<(), TryReserveError>(
                TryReserveError::CapacityOverflow,
            ),
            r matches Err(TryReserveError::Slab { capacity: c, additional: a }) ==> {
                &&& a == additional
                &&& !slab_fits(c, a)
                &&& old(self)@.len() + additional <= usize::MAX / 8
                &&& *final(self) == *old(self)
            },
    {
        proof {
            self.lemma_view_facts();
            self.lemma_keys_dom();
        }
        let capacity = slots_capacity(&self.slab);
        let len = table_len(&self.table);
        let fits = slab_outcome(capacity, additional);
        if fits.is_err() && len <= usize::MAX / 8 && additional <= usize::MAX / 8 - len {
            return fits;
        }
        match table_try_reserve(&mut self.table, additional) {
            Err(e) => Err(e),
            Ok(()) => match fits {
                Ok(()) => {
                    slots_reserve(&mut self.slab, additional);
                    Ok(())
                },
                Err(e) => {
                    proof {
                        assert(false);
                    }
                    Err(e)
                },
            },
        }
    }

    /// Releases the memory that neither store needs for its elements.
    pub fn shrink_to_fit(&mut self)
        requires
            old(self).wf(),
        ensures
            final(self).wf(),
            final(self)@ == old(self)@,
    {
        table_shrink_to_fit(&mut self.table);
        slots_shrink_to_fit(&mut self.slab);
        proof {
            assert(self.keys@.dom() =~= slot_map(self.slab).dom());
            assert(self@ =~= old(self)@);
        }
    }

    /// The nodes of the hash index, as a table listing hands them out, name the
    /// elements exactly once each.
    proof fn lemma_nodes_list(&self, nodes: Seq<KeyData>)
        requires
            self.wf(),
            nodes.len() == node_set(self.table).len(),
            nodes.map_values(|n: KeyData| node_view(n)).no_duplicates(),
            forall|j: int|
                0 <= j < nodes.len() ==> node_set(self.table).contains(#[trigger] node_view(nodes[j])),
        ensures
            forall|j: int|
                0 <= j < nodes.len() ==> #[trigger] self@.contains_key(nodes[j].index)
                    && self@[nodes[j].index].0 == nodes[j].key,
            forall|j1: int, j2: int|
                0 <= j1 < nodes.len() && 0 <= j2 < nodes.len() && j1 != j2 ==> #[trigger] nodes[j1].index
                    != #[trigger] nodes[j2].index,
            forall|i: usize| #[trigger]
                self@.contains_key(i) ==> exists|j: int| 0 <= j < nodes.len() && nodes[j].index == i,
    {
        self.lemma_view_facts();
        self.lemma_keys_dom();
        let views = nodes.map_values(|n: KeyData| node_view(n));
        assert forall|j: int| 0 <= j < nodes.len() implies #[trigger] self@.contains_key(nodes[j].index)
            && self@[nodes[j].index].0 == nodes[j].key by {
            assert(node_set(self.table).contains(node_view(nodes[j])));
        }
        assert forall|j1: int, j2: int|
            0 <= j1 < nodes.len() && 0 <= j2 < nodes.len() && j1 != j2 implies #[trigger] nodes[j1].index
            != #[trigger] nodes[j2].index by {
            assert(views[j1] != views[j2]);
            assert(node_set(self.table).contains(node_view(nodes[j1])));
            assert(node_set(self.table).contains(node_view(nodes[j2])));
        }
        let idx = nodes.map_values(|n: KeyData| n.index);
        assert forall|a: int, b: int| 0 <= a < idx.len() && 0 <= b < idx.len() && a != b implies idx[a]
            != idx[b] by {
            assert(nodes[a].index != nodes[b].index);
        }
        assert forall|j: int| 0 <= j < idx.len() implies self@.dom().contains(#[trigger] idx[j]) by {
            assert(self@.contains_key(nodes[j].index));
        }
        lemma_indices_cover(idx, self@.dom());
        assert forall|i: usize| #[trigger]
            self@.contains_key(i) implies exists|j: int| 0 <= j < nodes.len() && nodes[j].index == i by {
            assert(self@.dom().contains(i));
            let j = choose|j: int| 0 <= j < idx.len() && idx[j] == i;
            assert(nodes[j].index == i);
        }
    }

    /// Every element as `(index, key, value)`, in the order of the hash index.
    pub fn iter_full(&self) -> (r: Vec<(usize, i64, i64)>)
        requires
            self.wf(),
        ensures
            lists_exactly(r@, self@),
    {
        let nodes = crate::nodes::table_nodes(&self.table);
        proof {
            self.lemma_nodes_list(nodes@);
            self.lemma_view_facts();
            self.lemma_keys_dom();
        }
        let mut out: Vec<(usize, i64, i64)> = Vec::new();
        let mut j: usize = 0;
        while j < nodes.len()
            invariant
                self.wf(),
                j <= nodes@.len(),
                out@.len() == j,
                forall|t: int|
                    0 <= t < j ==> #[trigger] out@[t] == (
                        nodes@[t].index,
                        nodes@[t].key,
                        self@[nodes@[t].index].1,
                    ),
                forall|t: int|
                    0 <= t < nodes@.len() ==> #[trigger] self@.contains_key(nodes@[t].index)
                        && self@[nodes@[t].index].0 == nodes@[t].key,
            decreases nodes@.len() - j,
        {
            let n = nodes[j];
            match slots_get(&self.slab, n.index) {
                Some(data) => {
                    out.push((n.index, n.key, data.value));
                },
                None => {
                    proof {
                        assert(self@.contains_key(nodes@[j as int].index));
                    }
                },
            }
            j = j + 1;
        }
        proof {
            assert forall|j1: int, j2: int|
                0 <= j1 < out@.len() && 0 <= j2 < out@.len() && j1 != j2 implies #[trigger] out@[j1].0
                != #[trigger] out@[j2].0 by {
                assert(nodes@[j1].index != nodes@[j2].index);
            }
            assert forall|i: usize| #[trigger]
                self@.contains_key(i) implies exists|j: int| 0 <= j < out@.len() && out@[j].0 == i by {
                let t = choose|t: int| 0 <= t < nodes@.len() && nodes@[t].index == i;
                assert(out@[t].0 == i);
            }
            assert forall|t: int| 0 <= t < out@.len() implies #[trigger] self@.contains_key(out@[t].0)
                && self@[out@[t].0] == (out@[t].1, out@[t].2) by {
                assert(self@.contains_key(nodes@[t].index));
            }
        }
        out
    }

    /// Every element as `(key, value)`, in the order of the hash index.
    pub fn iter(&self) -> (r: Vec<(i64, i64)>)
        requires
            self.wf(),
        ensures
            exists|s: Seq<(usize, i64, i64)>|
                lists_exactly(s, self@) && r@ == s.map_values(|e: (usize, i64, i64)| (e.1, e.2)),
    {
        let full = self.iter_full();
        let pick = |e: (usize, i64, i64)| -> (o: (i64, i64))
            ensures
                o == (e.1, e.2),
            { (e.1, e.2) };
        let out = project(&full, pick);
        proof {
            assert(out@ =~= full@.map_values(|e: (usize, i64, i64)| (e.1, e.2)));
        }
        out
    }

    /// Every element as `(index, key)`, in the order of the hash index.
    pub fn full_keys(&self) -> (r: Vec<(usize, i64)>)
        requires
            self.wf(),
        ensures
            exists|s: Seq<(usize, i64, i64)>|
                lists_exactly(s, self@) && r@ == s.map_values(|e: (usize, i64, i64)| (e.0, e.1)),
    {
        let full = self.iter_full();
        let pick = |e: (usize, i64, i64)| -> (o: (usize, i64))
            ensures
                o == (e.0, e.1),
            { (e.0, e.1) };
        let out = project(&full, pick);
        proof {
            assert(out@ =~= full@.map_values(|e: (usize, i64, i64)| (e.0, e.1)));
        }
        out
    }

    /// Every key, in the order of the hash index.
    pub fn keys(&self) -> (r: Vec<i64>)
        requires
            self.wf(),
        ensures
            exists|s: Seq<(usize, i64, i64)>|
                lists_exactly(s, self@) && r@ == s.map_values(|e: (usize, i64, i64)| e.1),
    {
        let full = self.iter_full();
        let pick = |e: (usize, i64, i64)| -> (o: i64)
            ensures
                o == e.1,
            { e.1 };
        let out = project(&full, pick);
        proof {
            assert(out@ =~= full@.map_values(|e: (usize, i64, i64)| e.1));
        }
        out
    }

    /// Every value, in the order of the hash index.
    pub fn values(&self) -> (r: Vec<i64>)
        requires
            self.wf(),
        ensures
            exists|s: Seq<(usize, i64, i64)>|
                lists_exactly(s, self@) && r@ == s.map_values(|e: (usize, i64, i64)| e.2),
    {
        let full = self.iter_full();
        let pick = |e: (usize, i64, i64)| -> (o: i64)
            ensures
                o == e.2,
            { e.2 };
        let out = project(&full, pick);
        proof {
            assert(out@ =~= full@.map_values(|e: (usize, i64, i64)| e.2));
        }
        out
    }

    /// Every occupied index, in the order of the hash index.
    pub fn indices(&self) -> (r: Vec<usize>)
        requires
            self.wf(),
        ensures
            exists|s: Seq<(usize, i64, i64)>|
                lists_exactly(s, self@) && r@ == s.map_values(|e: (usize, i64, i64)| e.0),
    {
        let full = self.iter_full();
        let pick = |e: (usize, i64, i64)| -> (o: usize)
            ensures
                o == e.0,
            { e.0 };
        let out = project(&full, pick);
        proof {
            assert(out@ =~= full@.map_values(|e: (usize, i64, i64)| e.0));
        }
        out
    }

    /// Takes every element out as `(index, key, value)`, in the order of the hash
    /// index. The map is left empty, and both stores keep their memory.
    pub fn drain_full(&mut self) -> (r: Vec<(usize, i64, i64)>)
        requires
            old(self).wf(),
        ensures
            final(self).wf(),
            final(self)@ == Map::<usize, (i64, i64)>::empty(),
            lists_exactly(r@, old(self)@),
    {
        proof {
            self.lemma_view_facts();
            self.lemma_keys_dom();
        }
        let nodes = table_drain(&mut self.table);
        proof {
            old(self).lemma_nodes_list(nodes@);
        }
        let ghost prev = *old(self);
        let mut out: Vec<(usize, i64, i64)> = Vec::new();
        let mut j: usize = 0;
        while j < nodes.len()
            invariant
                prev.wf(),
                j <= nodes@.len(),
                out@.len() == j,
                node_set(self.table) == Set::<(i64, usize)>::empty(),
                table_seed(self.table) == self.seed,
                self.seed == prev.seed,
                slot_map(self.slab).dom().finite(),
                slots_ok(self.slab),
                forall|t: int|
                    0 <= t < nodes@.len() ==> #[trigger] prev@.contains_key(nodes@[t].index)
                        && prev@[nodes@[t].index].0 == nodes@[t].key,
                forall|t1: int, t2: int|
                    0 <= t1 < nodes@.len() && 0 <= t2 < nodes@.len() && t1 != t2 ==> #[trigger] nodes@[t1].index
                        != #[trigger] nodes@[t2].index,
                forall|t: int|
                    0 <= t < j ==> #[trigger] out@[t] == (
                        nodes@[t].index,
                        nodes@[t].key,
                        prev@[nodes@[t].index].1,
                    ),
                forall|i: usize| #[trigger]
                    slot_map(self.slab).contains_key(i) <==> (prev@.contains_key(i) && forall|t: int|
                        0 <= t < j ==> nodes@[t].index != i),
                forall|i: usize| #[trigger]
                    slot_map(self.slab).contains_key(i) ==> slot_map(self.slab)[i] == slot_map(
                        prev.slab,
                    )[i],
            decreases nodes@.len() - j,
        {
            let n = nodes[j];
            proof {
                assert(prev@.contains_key(nodes@[j as int].index));
                assert forall|t: int| 0 <= t < j implies nodes@[t].index != n.index by {
                    assert(nodes@[t].index != nodes@[j as int].index);
                }
                assert(slot_map(self.slab).contains_key(n.index));
            }
            let ghost before = self.slab;
            match slots_try_remove(&mut self.slab, n.index) {
                Some(data) => {
                    proof {
                        lemma_slots_remove(before, self.slab, n.index);
                    }
                    out.push((n.index, n.key, data.value));
                },
                None => {},
            }
            j = j + 1;
        }
        self.keys = Ghost(Map::empty());
        proof {
            assert forall|i: usize| !slot_map(self.slab).contains_key(i) by {
                if slot_map(self.slab).contains_key(i) {
                    assert(prev@.contains_key(i));
                    let t = choose|t: int| 0 <= t < nodes@.len() && nodes@[t].index == i;
                }
            }
            assert(self.keys@.dom() =~= slot_map(self.slab).dom());
            assert(slot_map(self.slab).len() == 0);
            assert(self@ =~= Map::<usize, (i64, i64)>::empty());
            assert forall|j1: int, j2: int|
                0 <= j1 < out@.len() && 0 <= j2 < out@.len() && j1 != j2 implies #[trigger] out@[j1].0
                != #[trigger] out@[j2].0 by {
                assert(nodes@[j1].index != nodes@[j2].index);
            }
            assert forall|i: usize| #[trigger]
                prev@.contains_key(i) implies exists|j: int| 0 <= j < out@.len() && out@[j].0 == i by {
                let t = choose|t: int| 0 <= t < nodes@.len() && nodes@[t].index == i;
                assert(out@[t].0 == i);
            }
            assert forall|t: int| 0 <= t < out@.len() implies #[trigger] prev@.contains_key(out@[t].0)
                && prev@[out@[t].0] == (out@[t].1, out@[t].2) by {
                assert(prev@.contains_key(nodes@[t].index));
            }
            prev.lemma_view_facts();
            prev.lemma_keys_dom();
        }
        out
    }

    /// Takes every element out as `(key, value)`; see `drain_full`.
    pub fn drain(&mut self) -> (r: Vec<(i64, i64)>)
        requires
            old(self).wf(),
        ensures
            final(self).wf(),
            final(self)@ == Map::<usize, (i64, i64)>::empty(),
            exists|s: Seq<(usize, i64, i64)>|
                lists_exactly(s, old(self)@) && r@ == s.map_values(|e: (usize, i64, i64)| (e.1, e.2)),
    {
        let full = self.drain_full();
        let pick = |e: (usize, i64, i64)| -> (o: (i64, i64))
            ensures
                o == (e.1, e.2),
            { (e.1, e.2) };
        let out = project(&full, pick);
        proof {
            assert(out@ =~= full@.map_values(|e: (usize, i64, i64)| (e.1, e.2)));
        }
        out
    }

    /// Consumes the map into its elements as `(index, key, value)`.
    pub fn into_full_iter(self) -> (r: Vec<(usize, i64, i64)>)
        requires
            self.wf(),
        ensures
            lists_exactly(r@, self@),
    {
        let mut m = self;
        m.drain_full()
    }

    /// Consumes the map into its elements as `(key, value)`.
    pub fn into_iter(self) -> (r: Vec<(i64, i64)>)
        requires
            self.wf(),
        ensures
            exists|s: Seq<(usize, i64, i64)>|
                lists_exactly(s, self@) && r@ == s.map_values(|e: (usize, i64, i64)| (e.1, e.2)),
    {
        let full = self.into_full_iter();
        let pick = |e: (usize, i64, i64)| -> (o: (i64, i64))
            ensures
                o == (e.1, e.2),
            { (e.1, e.2) };
        let out = project(&full, pick);
        proof {
            assert(out@ =~= full@.map_values(|e: (usize, i64, i64)| (e.1, e.2)));
        }
        out
    }

    /// Consumes the map into its keys.
    pub fn into_keys(self) -> (r: Vec<i64>)
        requires
            self.wf(),
        ensures
            exists|s: Seq<(usize, i64, i64)>|
                lists_exactly(s, self@) && r@ == s.map_values(|e: (usize, i64, i64)| e.1),
    {
        let full = self.into_full_iter();
        let pick = |e: (usize, i64, i64)| -> (o: i64)
            ensures
                o == e.1,
            { e.1 };
        let out = project(&full, pick);
        proof {
            assert(out@ =~= full@.map_values(|e: (usize, i64, i64)| e.1));
        }
        out
    }

    /// Consumes the map into its values.
    pub fn into_values(self) -> (r: Vec<i64>)
        requires
            self.wf(),
        ensures
            exists|s: Seq<(usize, i64, i64)>|
                lists_exactly(s, self@) && r@ == s.map_values(|e: (usize, i64, i64)| e.2),
    {
        let full = self.into_full_iter();
        let pick = |e: (usize, i64, i64)| -> (o: i64)
            ensures
                o == e.2,
            { e.2 };
        let out = project(&full, pick);
        proof {
            assert(out@ =~= full@.map_values(|e: (usize, i64, i64)| e.2));
        }
        out
    }

    /// Keeps the elements on which `keep` returns true and removes the others. For
    /// each element that goes, its slot is freed first, then its node.
    pub fn retain<F: Fn(i64, i64) -> bool>(&mut self, keep: F)
        requires
            old(self).wf(),
            forall|k: i64, v: i64| keep.requires((k, v)),
        ensures
            final(self).wf(),
            forall|i: usize| #[trigger]
                final(self)@.contains_key(i) ==> old(self)@.contains_key(i) && final(self)@[i]
                    == old(self)@[i] && keep.ensures((old(self)@[i].0, old(self)@[i].1), true),
            forall|i: usize| #[trigger]
                old(self)@.contains_key(i) && !final(self)@.contains_key(i) ==> keep.ensures(
                    (old(self)@[i].0, old(self)@[i].1),
                    false,
                ),
    {
        let nodes = crate::nodes::table_nodes(&self.table);
        let ghost prev = *old(self);
        proof {
            prev.lemma_nodes_list(nodes@);
            assert forall|t: int| 0 <= t < nodes@.len() implies #[trigger] prev@.contains_key(
                nodes@[t].index,
            ) && prev@[nodes@[t].index].0 == nodes@[t].key by {
                assert(prev@.contains_key(nodes@[t].index));
            }
        }
        let mut j: usize = 0;
        while j < nodes.len()
            invariant
                self.wf(),
                j <= nodes@.len(),
                forall|k: i64, v: i64| keep.requires((k, v)),
                forall|t: int|
                    0 <= t < nodes@.len() ==> #[trigger] prev@.contains_key(nodes@[t].index)
                        && prev@[nodes@[t].index].0 == nodes@[t].key,
                forall|t1: int, t2: int|
                    0 <= t1 < nodes@.len() && 0 <= t2 < nodes@.len() && t1 != t2 ==> #[trigger] nodes@[t1].index
                        != #[trigger] nodes@[t2].index,
                forall|i: usize| #[trigger]
                    prev@.contains_key(i) ==> exists|t: int| 0 <= t < nodes@.len() && nodes@[t].index == i,
                forall|i: usize| #[trigger]
                    self@.contains_key(i) ==> prev@.contains_key(i) && self@[i] == prev@[i],
                forall|t: int|
                    j <= t < nodes@.len() ==> #[trigger] self@.contains_key(nodes@[t].index),
                forall|t: int|
                    0 <= t < j && #[trigger] self@.contains_key(nodes@[t].index) ==> keep.ensures(
                        (prev@[nodes@[t].index].0, prev@[nodes@[t].index].1),
                        true,
                    ),
                forall|t: int|
                    0 <= t < j && !#[trigger] self@.contains_key(nodes@[t].index) ==> keep.ensures(
                        (prev@[nodes@[t].index].0, prev@[nodes@[t].index].1),
                        false,
                    ),
            decreases nodes@.len() - j,
        {
            let n = nodes[j];
            proof {
                assert(self@.contains_key(nodes@[j as int].index));
            }
            match self.get_index_value(n.index) {
                Some(v) => {
                    let kept = keep(n.key, v);
                    if !kept {
                        let ghost before = *self;
                        self.remove_index(n.index);
                        proof {
                            assert forall|t: int| j < t < nodes@.len() implies #[trigger] self@.contains_key(
                                nodes@[t].index,
                            ) by {
                                assert(nodes@[t].index != nodes@[j as int].index);
                                assert(before@.contains_key(nodes@[t].index));
                            }
                            assert forall|t: int|
                                0 <= t < j && #[trigger] self@.contains_key(nodes@[t].index) implies keep.ensures(
                                (prev@[nodes@[t].index].0, prev@[nodes@[t].index].1),
                                true,
                            ) by {
                                assert(before@.contains_key(nodes@[t].index));
                            }
                            assert forall|t: int|
                                0 <= t < j && !#[trigger] self@.contains_key(nodes@[t].index) implies keep.ensures(
                                (prev@[nodes@[t].index].0, prev@[nodes@[t].index].1),
                                false,
                            ) by {
                                assert(nodes@[t].index != nodes@[j as int].index);
                            }
                        }
                    }
                },
                None => {},
            }
            j = j + 1;
        }
        proof {
            assert forall|i: usize| #[trigger] self@.contains_key(i) implies keep.ensures(
                (prev@[i].0, prev@[i].1),
                true,
            ) by {
                assert(prev@.contains_key(i));
                let t = choose|t: int| 0 <= t < nodes@.len() && nodes@[t].index == i;
            }
            assert forall|i: usize| #[trigger]
                prev@.contains_key(i) && !self@.contains_key(i) implies keep.ensures(
                (prev@[i].0, prev@[i].1),
                false,
            ) by {
                let t = choose|t: int| 0 <= t < nodes@.len() && nodes@[t].index == i;
            }
        }
    }

    /// Inserts each pair in order, as `insert` does: a later pair wins over an earlier
    /// one with the same key, and keys already present keep their indices.
    pub fn extend(&mut self, pairs: Vec<(i64, i64)>)
        requires
            old(self).wf(),
        ensures
            final(self).wf(),
            key_map(final(self)@) == key_map(old(self)@).union_prefer_right(pairs_map(pairs@)),
            forall|i: usize| #[trigger]
                old(self)@.contains_key(i) ==> final(self)@.contains_key(i) && final(self)@[i].0
                    == old(self)@[i].0,
            final(self).state() == insert_all(old(self).state(), pairs@),
    {
        let len = self.len();
        let hint = pairs.len();
        let want = if len == 0 {
            hint
        } else {
            hint / 2 + hint % 2
        };
        if len <= crate::RESERVE_LIMIT && want <= crate::RESERVE_LIMIT - len {
            self.reserve(want);
        }
        let ghost start = self@;
        let ghost start_state = self.state();
        proof {
            assert(start_state == old(self).state());
            assert(pairs@.subrange(0, 0) =~= Seq::<(i64, i64)>::empty());
            assert(key_map(start).union_prefer_right(Map::empty()) =~= key_map(start));
        }
        let mut j: usize = 0;
        while j < pairs.len()
            invariant
                self.wf(),
                j <= pairs@.len(),
                start == old(self)@,
                key_map(self@) == key_map(start).union_prefer_right(
                    pairs_map(pairs@.subrange(0, j as int)),
                ),
                forall|i: usize| #[trigger]
                    start.contains_key(i) ==> self@.contains_key(i) && self@[i].0 == start[i].0,
                start_state == old(self).state(),
                self.state() == insert_all(start_state, pairs@.subrange(0, j as int)),
            decreases pairs@.len() - j,
        {
            let (k, v) = pairs[j];
            let ghost before = self@;
            let ghost before_state = self.state();
            proof {
                self.lemma_view_facts();
                self.lemma_keys_dom();
            }
            let (index, _) = self.insert_full(k, v);
            proof {
                self.lemma_view_facts();
                self.lemma_keys_dom();
                lemma_key_map_insert(before, self@, index, k, v);
                let sub = pairs@.subrange(0, j + 1);
                assert(sub.drop_last() =~= pairs@.subrange(0, j as int));
                assert(key_map(self@) =~= key_map(start).union_prefer_right(pairs_map(sub)));
                assert(self.state() == insert_step(before_state, k, v));
                assert(self.state() == insert_all(start_state, sub));
                assert forall|i: usize| #[trigger] start.contains_key(i) implies self@.contains_key(i)
                    && self@[i].0 == start[i].0 by {
                    assert(before.contains_key(i));
                    if i == index && has_key(before, k) {
                        assert(before.contains_key(index_of(before, k)));
                    }
                }
            }
            j = j + 1;
        }
        proof {
            assert(pairs@.subrange(0, pairs@.len() as int) =~= pairs@);
        }
    }

    /// Builds a map from pairs, as `extend` on an empty map does.
    pub fn from_iter(pairs: Vec<(i64, i64)>) -> (r: Self)
        ensures
            r.wf(),
            key_map(r@) == pairs_map(pairs@),
            r.state() == insert_all(empty_state(), pairs@),
    {
        let room = if pairs.len() <= crate::RESERVE_LIMIT {
            pairs.len()
        } else {
            crate::RESERVE_LIMIT
        };
        let mut m = Self::with_capacity(room);
        proof {
            assert(m.state() =~~= empty_state());
            assert(key_map(m@) =~= Map::<i64, i64>::empty());
            assert(Map::<i64, i64>::empty().union_prefer_right(pairs_map(pairs@)) =~= pairs_map(pairs@));
        }
        m.extend(pairs);
        m
    }

    /// Moves every element of `other` into this map; on a shared key the value of
    /// `other` wins and the index of this map stays.
    pub fn append(&mut self, other: &mut HashSlabMap)
        requires
            old(self).wf(),
            old(other).wf(),
        ensures
            final(self).wf(),
            final(other).wf(),
            final(other)@ == Map::<usize, (i64, i64)>::empty(),
            key_map(final(self)@) == key_map(old(self)@).union_prefer_right(key_map(old(other)@)),
            forall|i: usize| #[trigger]
                old(self)@.contains_key(i) ==> final(self)@.contains_key(i) && final(self)@[i].0
                    == old(self)@[i].0,
            exists|s: Seq<(usize, i64, i64)>|
                lists_exactly(s, old(other)@) && final(self).state() == insert_all(
                    old(self).state(),
                    pairs_of(s),
                ),
    {
        let pairs = other.drain();
        proof {
            old(other).lemma_view_facts();
            old(other).lemma_keys_dom();
            let s = choose|s: Seq<(usize, i64, i64)>|
                lists_exactly(s, old(other)@) && pairs@ == s.map_values(
                    |e: (usize, i64, i64)| (e.1, e.2),
                );
            assert(pairs@ == pairs_of(s));
            lemma_listing_key_map(s, old(other)@);
        }
        self.extend(pairs);
    }

    /// Adds a new key under the hash already taken of it: the slot first, then the
    /// node, placed without comparing keys.
    pub(crate) fn insert_new(&mut self, key: i64, hash: u64, value: i64) -> (index: usize)
        requires
            old(self).wf(),
            !has_key(old(self)@, key),
            hash == key_hash(old(self).hash_seed(), key),
        ensures
            final(self).wf(),
            final(self).hash_seed() == old(self).hash_seed(),
            index == old(self).next_index(),
            !old(self)@.contains_key(index),
            final(self)@ == old(self)@.insert(index, (key, value)),
            took_next(&*old(self), &*final(self)),
    {
        proof {
            self.lemma_view_facts();
            self.lemma_keys_dom();
        }
        let index = slots_insert(&mut self.slab, ValueData::new(value, hash));
        proof {
            if node_set(self.table).contains((key, index)) {
                assert(self.keys@.contains_key(index));
            }
        }
        table_insert(&mut self.table, hash, KeyData::new(key, index));
        self.keys = Ghost(self.keys@.insert(index, key));
        proof {
            assert(self.keys@.dom() =~= slot_map(self.slab).dom());
            assert forall|n: (i64, usize)| #[trigger]
                node_set(self.table).contains(n) <==> (self.keys@.contains_key(n.1)
                    && self.keys@[n.1] == n.0) by {
                if n.1 != index {
                    assert(old(self).keys@.contains_key(n.1) == self.keys@.contains_key(n.1));
                }
            }
            assert forall|i: usize, j: usize| #[trigger]
                self.keys@.contains_key(i) && #[trigger] self.keys@.contains_key(j)
                    && self.keys@[i] == self.keys@[j] implies i == j by {
                if i != j && (i == index || j == index) {
                    let o = if i == index {
                        j
                    } else {
                        i
                    };
                    assert(old(self)@.contains_key(o) && old(self)@[o].0 == key);
                }
            }
            assert(self@ =~= old(self)@.insert(index, (key, value)));
        }
        index
    }

    /// A mutable borrow of the value at an occupied index.
    pub(crate) fn value_mut(&mut self, index: usize) -> (r: &mut i64)
        requires
            old(self).wf(),
            old(self)@.contains_key(index),
        ensures
            *r == old(self)@[index].1,
            final(self).wf(),
            final(self)@ == old(self)@.insert(index, (old(self)@[index].0, *final(r))),
            same_free_list(&*old(self), &*final(self)),
    {
        slot_value_mut(&mut self.slab, index)
    }

    /// Looks up the key and says where it stands: its node, or the hash that a new
    /// node for it is to be placed under.
    pub(crate) fn probe_key(&self, key: i64) -> (r: (Option<KeyData>, u64))
        requires
            self.wf(),
        ensures
            r.1 == key_hash(self.hash_seed(), key),
            r.0.is_some() == has_key(self@, key),
            r.0.is_some() ==> {
                &&& r.0.unwrap().index == index_of(self@, key)
                &&& self@.contains_key(r.0.unwrap().index)
                &&& self@[r.0.unwrap().index].0 == key
                &&& r.0.unwrap().key == key
            },
    {
        let hash = hash_key(self.seed, key);
        (self.find_key(key, hash), hash)
    }

    /// The index and key of the element with key `key`, with a mutable borrow of its
    /// value.
    pub fn get_full_mut(&mut self, key: i64) -> (r: Option<(usize, i64, &mut i64)>)
        requires
            old(self).wf(),
        ensures
            r.is_some() == has_key(old(self)@, key),
            match r {
                Some((i, k, v)) => {
                    &&& i == index_of(old(self)@, key)
                    &&& k == key
                    &&& *v == key_map(old(self)@)[key]
                    &&& final(self).wf()
                    &&& final(self)@ == old(self)@.insert(i, (key, *final(v)))
                },
                None => final(self).wf() && final(self)@ == old(self)@,
            },
    {
        if table_len(&self.table) == 0 {
            proof {
                self.lemma_view_facts();
                self.lemma_keys_dom();
                if has_key(self@, key) {
                    let i = choose|i: usize| #[trigger] self@.contains_key(i) && self@[i].0 == key;
                    assert(self@.dom().contains(i));
                }
            }
            return None;
        }
        match self.find_key(key, hash_key(self.seed, key)) {
            None => None,
            Some(node) => {
                let v = self.value_mut(node.index);
                Some((node.index, node.key, v))
            },
        }
    }

    /// A mutable borrow of the value under `key`, if there is one.
    pub fn get_mut(&mut self, key: i64) -> (r: Option<&mut i64>)
        requires
            old(self).wf(),
        ensures
            r.is_some() == has_key(old(self)@, key),
            match r {
                Some(v) => {
                    &&& *v == key_map(old(self)@)[key]
                    &&& final(self).wf()
                    &&& final(self)@ == old(self)@.insert(index_of(old(self)@, key), (key, *final(v)))
                },
                None => final(self).wf() && final(self)@ == old(self)@,
            },
    {
        match self.get_full_mut(key) {
            Some((_, _, v)) => Some(v),
            None => None,
        }
    }

    /// The key at `index`, with a mutable borrow of its value, if the index is
    /// occupied. The node is found with the cached hash, as `get_index` does.
    pub fn get_index_mut(&mut self, index: usize) -> (r: Option<(i64, &mut i64)>)
        requires
            old(self).wf(),
        ensures
            r.is_some() == old(self)@.contains_key(index),
            match r {
                Some((k, v)) => {
                    &&& k == old(self)@[index].0
                    &&& *v == old(self)@[index].1
                    &&& final(self).wf()
                    &&& final(self)@ == old(self)@.insert(index, (k, *final(v)))
                },
                None => final(self).wf() && final(self)@ == old(self)@,
            },
    {
        match self.get_index(index) {
            None => None,
            Some((k, _)) => {
                let v = self.value_mut(index);
                Some((k, v))
            },
        }
    }

    /// The entry for `key`: one hash of the key and one probe of the hash index.
    pub fn entry(&mut self, key: i64) -> (r: Entry<'_>)
        requires
            old(self).wf(),
        ensures
            r.wf(),
            r.key_spec() == key,
            match r {
                Entry::Occupied(o) => {
                    &&& has_key(old(self)@, key)
                    &&& o.index == index_of(old(self)@, key)
                    &&& *o.map == *old(self)
                    &&& *final(self) == *final(o.map)
                },
                Entry::Vacant(v) => {
                    &&& !has_key(old(self)@, key)
                    &&& *v.map == *old(self)
                    &&& *final(self) == *final(v.map)
                },
            },
    {
        let (found, hash) = self.probe_key(key);
        match found {
            Some(node) => Entry::Occupied(OccupiedEntry { map: self, key, index: node.index }),
            None => Entry::Vacant(VacantEntry { map: self, key, hash }),
        }
    }

    /// The keys of `self@`, one per element.
    proof fn lemma_key_count(&self)
        requires
            self.wf(),
        ensures
            key_map(self@).dom().finite(),
            key_map(self@).dom().len() == self@.len(),
    {
        self.lemma_view_facts();
        self.lemma_keys_dom();
        let m = self@;
        let f = |i: usize| m[i].0;
        assert(vstd::relations::injective_on(f, m.dom())) by {
            assert forall|a: usize, b: usize|
                m.dom().contains(a) && m.dom().contains(b) && #[trigger] f(a) == #[trigger] f(b) implies a
                == b by {
                assert(m.contains_key(a) && m.contains_key(b));
            }
        }
        assert(m.dom().map(f) =~= key_map(m).dom()) by {
            assert forall|k: i64| #[trigger] key_map(m).dom().contains(k) implies m.dom().map(f).contains(k) by {
                let i = choose|i: usize| #[trigger] m.contains_key(i) && m[i].0 == k;
                assert(m.dom().contains(i) && f(i) == k);
            }
            assert forall|k: i64| #[trigger] m.dom().map(f).contains(k) implies key_map(m).dom().contains(k) by {
                let i = choose|i: usize| m.dom().contains(i) && f(i) == k;
                assert(m.contains_key(i) && m[i].0 == k);
            }
        }
        vstd::set_lib::lemma_map_size(m.dom(), key_map(m).dom(), f);
    }

    /// Whether both maps hold the same keys with the same values; indices do not count.
    pub fn eq(&self, other: &HashSlabMap) -> (r: bool)
        requires
            self.wf(),
            other.wf(),
        ensures
            r == (key_map(self@) == key_map(other@)),
    {
        proof {
            self.lemma_key_count();
            other.lemma_key_count();
        }
        if self.len() != other.len() {
            return false;
        }
        let pairs = self.iter();
        let ghost s = choose|s: Seq<(usize, i64, i64)>|
            lists_exactly(s, self@) && pairs@ == s.map_values(|e: (usize, i64, i64)| (e.1, e.2));
        proof {
            self.lemma_view_facts();
            self.lemma_keys_dom();
            assert(pairs@ == pairs_of(s));
            lemma_listing_key_map(s, self@);
            lemma_pairs_map(pairs@);
        }
        let mut j: usize = 0;
        while j < pairs.len()
            invariant
                self.wf(),
                other.wf(),
                j <= pairs@.len(),
                pairs@ == pairs_of(s),
                lists_exactly(s, self@),
                pairs_map(pairs@) == key_map(self@),
                forall|k: i64| #[trigger]
                    pairs_map(pairs@).contains_key(k) <==> exists|t: int|
                        0 <= t < pairs@.len() && pairs@[t].0 == k,
                forall|t: int|
                    0 <= t < j ==> #[trigger] key_map(other@).contains_key(pairs@[t].0)
                        && key_map(other@)[pairs@[t].0] == pairs@[t].1,
                forall|t: int| 0 <= t < pairs@.len() ==> key_map(self@)[#[trigger] pairs@[t].0] == pairs@[t].1,
            decreases pairs@.len() - j,
        {
            let (k, v) = pairs[j];
            match other.get(k) {
                Some(w) => {
                    if w != v {
                        proof {
                            assert(key_map(self@)[k] == v);
                            assert(key_map(self@) != key_map(other@));
                        }
                        return false;
                    }
                },
                None => {
                    proof {
                        assert(key_map(self@).contains_key(k));
                    }
                    return false;
                },
            }
            proof {
                assert(key_map(other@).contains_key(pairs@[j as int].0));
                assert(key_map(other@)[pairs@[j as int].0] == pairs@[j as int].1);
                assert forall|t: int| 0 <= t < j + 1 implies #[trigger] key_map(other@).contains_key(
                    pairs@[t].0,
                ) && key_map(other@)[pairs@[t].0] == pairs@[t].1 by {
                    if t < j {
                        assert(key_map(other@).contains_key(pairs@[t].0));
                    }
                }
            }
            j = j + 1;
        }
        proof {
            assert(key_map(self@).dom().subset_of(key_map(other@).dom())) by {
                assert forall|k: i64| #[trigger] key_map(self@).dom().contains(k) implies key_map(
                    other@,
                ).dom().contains(k) by {
                    assert(pairs_map(pairs@).contains_key(k));
                    let t = choose|t: int| 0 <= t < pairs@.len() && pairs@[t].0 == k;
                }
            }
            vstd::set_lib::lemma_subset_equality(key_map(self@).dom(), key_map(other@).dom());
            assert forall|k: i64| #[trigger] key_map(self@).contains_key(k) implies key_map(self@)[k]
                == key_map(other@)[k] by {
                assert(pairs_map(pairs@).contains_key(k));
                let t = choose|t: int| 0 <= t < pairs@.len() && pairs@[t].0 == k;
            }
            assert(key_map(self@) =~= key_map(other@));
        }
        true
    }

    /// A copy of the map: the same elements at the same indices, and the same next
    /// index.
    pub fn clone(&self) -> (r: Self)
        requires
            self.wf(),
        ensures
            r.wf(),
            r@ == self@,
            same_free_list(self, &r),
            r.hash_seed() == self.hash_seed(),
    {
        HashSlabMap {
            table: table_clone(&self.table),
            slab: slots_clone(&self.slab),
            seed: self.seed,
            keys: Ghost(self.keys@),
        }
    }

    /// Sets every value to what `f` makes of its index, key and value; keys, indices
    /// and the free list stay. The values are visited in the order of the hash index.
    pub fn iter_full_mut<F: Fn(usize, i64, i64) -> i64>(&mut self, f: F)
        requires
            old(self).wf(),
            forall|i: usize, k: i64, v: i64| f.requires((i, k, v)),
        ensures
            final(self).wf(),
            final(self)@.dom() == old(self)@.dom(),
            same_free_list(&*old(self), &*final(self)),
            forall|i: usize| #[trigger]
                old(self)@.contains_key(i) ==> final(self)@[i].0 == old(self)@[i].0 && f.ensures(
                    (i, old(self)@[i].0, old(self)@[i].1),
                    final(self)@[i].1,
                ),
    {
        let full = self.iter_full();
        let ghost prev = *old(self);
        let mut j: usize = 0;
        while j < full.len()
            invariant
                self.wf(),
                j <= full@.len(),
                lists_exactly(full@, prev@),
                forall|i: usize, k: i64, v: i64| f.requires((i, k, v)),
                self@.dom() == prev@.dom(),
                same_free_list(&prev, self),
                forall|i: usize| #[trigger] self@.contains_key(i) ==> self@[i].0 == prev@[i].0,
                forall|t: int|
                    0 <= t < j ==> f.ensures(
                        (full@[t].0, full@[t].1, full@[t].2),
                        #[trigger] self@[full@[t].0].1,
                    ),
                forall|t: int| j <= t < full@.len() ==> #[trigger] self@[full@[t].0] == prev@[full@[t].0],
            decreases full@.len() - j,
        {
            let (i, k, v) = full[j];
            proof {
                assert(prev@.contains_key(full@[j as int].0));
            }
            let r = f(i, k, v);
            let ghost before = self@;
            let slot = self.value_mut(i);
            *slot = r;
            proof {
                assert forall|t: int| 0 <= t < j + 1 implies f.ensures(
                    (full@[t].0, full@[t].1, full@[t].2),
                    #[trigger] self@[full@[t].0].1,
                ) by {
                    if t < j {
                        assert(full@[t].0 != full@[j as int].0);
                    }
                }
                assert forall|t: int| j + 1 <= t < full@.len() implies #[trigger] self@[full@[t].0]
                    == prev@[full@[t].0] by {
                    assert(full@[t].0 != full@[j as int].0);
                }
                assert(self@.dom() =~= prev@.dom());
            }
            j = j + 1;
        }
        proof {
            assert forall|i: usize| #[trigger] prev@.contains_key(i) implies self@[i].0 == prev@[i].0
                && f.ensures((i, prev@[i].0, prev@[i].1), self@[i].1) by {
                let t = choose|t: int| 0 <= t < full@.len() && full@[t].0 == i;
            }
        }
    }

    /// Sets every value to what `f` makes of its key and value; see `iter_full_mut`.
    pub fn iter_mut<F: Fn(i64, i64) -> i64>(&mut self, f: F)
        requires
            old(self).wf(),
            forall|k: i64, v: i64| f.requires((k, v)),
        ensures
            final(self).wf(),
            final(self)@.dom() == old(self)@.dom(),
            same_free_list(&*old(self), &*final(self)),
            forall|i: usize| #[trigger]
                old(self)@.contains_key(i) ==> final(self)@[i].0 == old(self)@[i].0 && f.ensures(
                    (old(self)@[i].0, old(self)@[i].1),
                    final(self)@[i].1,
                ),
    {
        let fr = &f;
        let g = |i: usize, k: i64, v: i64| -> (r: i64)
            requires
                fr.requires((k, v)),
            ensures
                fr.ensures((k, v), r),
            { fr(k, v) };
        self.iter_full_mut(g);
    }

    /// Sets every value to what `f` makes of it; see `iter_full_mut`.
    pub fn values_mut<F: Fn(i64) -> i64>(&mut self, f: F)
        requires
            old(self).wf(),
            forall|v: i64| f.requires((v,)),
        ensures
            final(self).wf(),
            final(self)@.dom() == old(self)@.dom(),
            same_free_list(&*old(self), &*final(self)),
            forall|i: usize| #[trigger]
                old(self)@.contains_key(i) ==> final(self)@[i].0 == old(self)@[i].0 && f.ensures(
                    (old(self)@[i].1,),
                    final(self)@[i].1,
                ),
    {
        let fr = &f;
        let g = |i: usize, k: i64, v: i64| -> (r: i64)
            requires
                fr.requires((v,)),
            ensures
                fr.ensures((v,), r),
            { fr(v) };
        self.iter_full_mut(g);
    }
}

} // verus!
