//! A set on top of the map: each item is a key whose value is always 0.
use vstd::prelude::*;

use crate::entry::Entry;
use crate::error::TryReserveError;
use crate::map::{slab_fits, HashSlabMap};
use crate::model::{has_key, key_map, lists_exactly};

verus! {

/// Some index of `m` holds the item `x`.
pub open spec fn has_item(m: Map<usize, i64>, x: i64) -> bool {
    exists|i: usize| #[trigger] m.contains_key(i) && m[i] == x
}

/// The items of `m`.
pub open spec fn item_set(m: Map<usize, i64>) -> Set<i64> {
    Set::new(|x: i64| has_item(m, x))
}

/// No two indices of `m` hold the same item.
pub open spec fn items_unique(m: Map<usize, i64>) -> bool {
    forall|i: usize, j: usize|
        #[trigger] m.contains_key(i) && #[trigger] m.contains_key(j) && m[i] == m[j] ==> i == j
}

/// `s` lists the items of `m` exactly once each, as `(index, item)`, in some order.
pub open spec fn lists_items(s: Seq<(usize, i64)>, m: Map<usize, i64>) -> bool {
    &&& s.len() == m.len()
    &&& forall|j: int| 0 <= j < s.len() ==> #[trigger] m.contains_key(s[j].0) && m[s[j].0] == s[j].1
    &&& forall|j1: int, j2: int|
        0 <= j1 < s.len() && 0 <= j2 < s.len() && j1 != j2 ==> #[trigger] s[j1].0 != #[trigger] s[j2].0
    &&& forall|i: usize| #[trigger] m.contains_key(i) ==> exists|j: int| 0 <= j < s.len() && s[j].0 == i
}

/// `s` holds each item of `items` once, and nothing else.
pub open spec fn holds_once(s: Seq<i64>, items: Set<i64>) -> bool {
    s.no_duplicates() && s.to_set() == items
}

/// A set of `i64` items in which every item also has an index, as in `HashSlabMap`.
pub struct HashSlabSet {
    map: HashSlabMap,
}

impl Default for HashSlabSet {
    fn default() -> (r: Self)
        ensures
            r.wf(),
            r@ == Map::<usize, i64>::empty(),
    {
        Self::with_capacity(0)
    }
}

impl View for HashSlabSet {
    type V = Map<usize, i64>;

    /// Each occupied index with its item.
    closed spec fn view(&self) -> Map<usize, i64> {
        Map::new(|i: usize| self.map@.contains_key(i), |i: usize| self.map@[i].0)
    }
}

impl HashSlabSet {
    /// The map underneath is well formed.
    pub closed spec fn wf(&self) -> bool {
        self.map.wf()
    }

    /// The index that the next new item takes.
    pub closed spec fn next_index(&self) -> usize {
        self.map.next_index()
    }

    proof fn lemma_set_view(&self)
        requires
            self.wf(),
        ensures
            self@.dom() == self.map@.dom(),
            self@.dom().finite(),
            self@.len() == self.map@.len(),
            forall|x: i64| #[trigger] has_item(self@, x) == has_key(self.map@, x),
            forall|i: usize| #[trigger] self@.contains_key(i) ==> self@[i] == self.map@[i].0,
            items_unique(self@),
            !self@.contains_key(self.next_index()),
    {
        self.map.lemma_view_facts();
        assert(self@.dom() =~= self.map@.dom());
        assert forall|x: i64| #[trigger] has_item(self@, x) == has_key(self.map@, x) by {
            if has_item(self@, x) {
                let i = choose|i: usize| #[trigger] self@.contains_key(i) && self@[i] == x;
                assert(self.map@.contains_key(i) && self.map@[i].0 == x);
            }
            if has_key(self.map@, x) {
                let i = choose|i: usize| #[trigger] self.map@.contains_key(i) && self.map@[i].0 == x;
                assert(self@.contains_key(i) && self@[i] == x);
            }
        }
        assert forall|i: usize, j: usize|
            #[trigger] self@.contains_key(i) && #[trigger] self@.contains_key(j) && self@[i] == self@[j] implies i
            == j by {
            assert(self.map@.contains_key(i) && self.map@.contains_key(j));
        }
    }

    /// What the invariant gives of the view: its domain is finite, no item sits at two
    /// indices, and the next index is free.
    pub proof fn lemma_set_facts(&self)
        requires
            self.wf(),
        ensures
            self@.dom().finite(),
            items_unique(self@),
            !self@.contains_key(self.next_index()),
    {
        self.lemma_set_view();
    }

    /// The set's view after the map underneath changed from `prev` to `self`.
    proof fn lemma_view_of(&self, prev: Map<usize, (i64, i64)>, prev_set: Map<usize, i64>)
        requires
            prev_set == Map::new(|i: usize| prev.contains_key(i), |i: usize| prev[i].0),
        ensures
            forall|i: usize, x: i64|
                self.map@ == prev.insert(i, (x, 0)) ==> #[trigger] self@ == prev_set.insert(i, x),
    {
        assert forall|i: usize, x: i64| self.map@ == prev.insert(i, (x, 0)) implies #[trigger] self@
            == prev_set.insert(i, x) by {
            assert(self@ =~= prev_set.insert(i, x));
        }
    }

    /// Creates an empty set.
    pub fn new() -> (r: Self)
        ensures
            r.wf(),
            r@ == Map::<usize, i64>::empty(),
            r.next_index() == 0,
    {
        Self::with_capacity(0)
    }

    /// Creates an empty set with room for `n` items.
    pub fn with_capacity(n: usize) -> (r: Self)
        requires
            n <= crate::RESERVE_LIMIT,
        ensures
            r.wf(),
            r@ == Map::<usize, i64>::empty(),
            r.next_index() == 0,
    {
        let r = HashSlabSet { map: HashSlabMap::with_capacity(n) };
        proof {
            assert(r@ =~= Map::<usize, i64>::empty());
        }
        r
    }

    /// Creates an empty set that hashes with `seed`.
    pub fn with_hasher(seed: u64) -> (r: Self)
        ensures
            r.wf(),
            r@ == Map::<usize, i64>::empty(),
            r.hash_seed() == seed,
            r.next_index() == 0,
    {
        Self::with_capacity_and_hasher(0, seed)
    }

    /// Creates an empty set with room for `n` items, hashing with `seed`.
    pub fn with_capacity_and_hasher(n: usize, seed: u64) -> (r: Self)
        requires
            n <= crate::RESERVE_LIMIT,
        ensures
            r.wf(),
            r@ == Map::<usize, i64>::empty(),
            r.hash_seed() == seed,
            r.next_index() == 0,
    {
        let r = HashSlabSet { map: HashSlabMap::with_capacity_and_hasher(n, seed) };
        proof {
            assert(r@ =~= Map::<usize, i64>::empty());
        }
        r
    }

    /// The seed of the hashing policy.
    pub closed spec fn hash_seed(&self) -> u64 {
        self.map.hash_seed()
    }

    /// The seed of the hashing policy.
    pub fn hasher(&self) -> (r: u64)
        ensures
            r == self.hash_seed(),
    {
        self.map.hasher()
    }

    /// The number of items the set can hold without reallocating.
    pub fn capacity(&self) -> (r: usize)
        requires
            self.wf(),
        ensures
            r >= self@.len(),
    {
        proof {
            self.lemma_set_view();
        }
        self.map.capacity()
    }

    /// The number of items.
    pub fn len(&self) -> (r: usize)
        requires
            self.wf(),
        ensures
            r == self@.len(),
    {
        proof {
            self.lemma_set_view();
        }
        self.map.len()
    }

    /// Whether the set has no item.
    pub fn is_empty(&self) -> (r: bool)
        requires
            self.wf(),
        ensures
            r == (self@.len() == 0),
    {
        self.len() == 0
    }

    /// Every item as `(index, item)`, in the order of the hash index.
    pub fn iter_full(&self) -> (r: Vec<(usize, i64)>)
        requires
            self.wf(),
        ensures
            lists_items(r@, self@),
    {
        proof {
            self.lemma_set_view();
        }
        let keys = self.map.full_keys();
        proof {
            let s = choose|s: Seq<(usize, i64, i64)>|
                lists_exactly(s, self.map@) && keys@ == s.map_values(
                    |e: (usize, i64, i64)| (e.0, e.1),
                );
            assert forall|j: int| 0 <= j < keys@.len() implies #[trigger] self@.contains_key(keys@[j].0)
                && self@[keys@[j].0] == keys@[j].1 by {
                assert(self.map@.contains_key(s[j].0));
            }
            assert forall|j1: int, j2: int|
                0 <= j1 < keys@.len() && 0 <= j2 < keys@.len() && j1 != j2 implies #[trigger] keys@[j1].0
                != #[trigger] keys@[j2].0 by {
                assert(s[j1].0 != s[j2].0);
            }
            assert forall|i: usize| #[trigger] self@.contains_key(i) implies exists|j: int|
                0 <= j < keys@.len() && keys@[j].0 == i by {
                assert(self.map@.contains_key(i));
                let j = choose|j: int| 0 <= j < s.len() && s[j].0 == i;
                assert(keys@[j].0 == i);
            }
        }
        keys
    }

    /// Every item once, in the order of the hash index.
    pub fn iter(&self) -> (r: Vec<i64>)
        requires
            self.wf(),
        ensures
            holds_once(r@, item_set(self@)),
            r@.len() == self@.len(),
    {
        let full = self.iter_full();
        let mut out: Vec<i64> = Vec::new();
        let mut j: usize = 0;
        proof {
            self.lemma_set_view();
        }
        while j < full.len()
            invariant
                self.wf(),
                j <= full@.len(),
                lists_items(full@, self@),
                items_unique(self@),
                out@ == full@.subrange(0, j as int).map_values(|e: (usize, i64)| e.1),
            decreases full@.len() - j,
        {
            out.push(full[j].1);
            proof {
                assert(full@.subrange(0, j + 1) == full@.subrange(0, j as int).push(full@[j as int]));
            }
            j = j + 1;
            proof {
                assert(out@ =~= full@.subrange(0, j as int).map_values(|e: (usize, i64)| e.1));
            }
        }
        proof {
            assert(full@.subrange(0, full@.len() as int) == full@);
            lemma_listing_holds_items(full@, self@, out@);
        }
        out
    }

    /// Takes every item out, in the order of the hash index; the set is left empty.
    pub fn drain(&mut self) -> (r: Vec<i64>)
        requires
            old(self).wf(),
        ensures
            final(self).wf(),
            final(self)@ == Map::<usize, i64>::empty(),
            holds_once(r@, item_set(old(self)@)),
    {
        let r = self.iter();
        self.map.clear();
        proof {
            assert(self@ =~= Map::<usize, i64>::empty());
        }
        r
    }

    /// Removes every item.
    pub fn clear(&mut self)
        requires
            old(self).wf(),
        ensures
            final(self).wf(),
            final(self)@ == Map::<usize, i64>::empty(),
    {
        self.map.clear();
        proof {
            assert(self@ =~= Map::<usize, i64>::empty());
        }
    }

    /// Releases the memory that the items do not need.
    pub fn shrink_to_fit(&mut self)
        requires
            old(self).wf(),
        ensures
            final(self).wf(),
            final(self)@ == old(self)@,
    {
        self.map.shrink_to_fit();
        proof {
            assert(self@ =~= old(self)@);
        }
    }

    /// Makes room for `additional` more items.
    pub fn reserve(&mut self, additional: usize)
        requires
            old(self).wf(),
            old(self)@.len() + additional <= crate::RESERVE_LIMIT,
        ensures
            final(self).wf(),
            final(self)@ == old(self)@,
    {
        proof {
            self.lemma_set_view();
        }
        self.map.reserve(additional);
        proof {
            assert(self@ =~= old(self)@);
        }
    }

    /// Tries to make room for `additional` more items; the items stay either way.
    pub fn try_reserve(&mut self, additional: usize) -> (r: Result<(), TryReserveError>)
        requires
            old(self).wf(),
        ensures
            final(self).wf(),
            final(self)@ == old(self)@,
            old(self)@.len() + additional > usize::MAX / 8 ==> r == Err::<(), TryReserveError>(
                TryReserveError::CapacityOverflow,
            ),
            r matches Err(TryReserveError::Slab { capacity: c, additional: a }) ==> {
                &&& a == additional
                &&& !slab_fits(c, a)
                &&& *final(self) == *old(self)
            },
    {
        proof {
            self.lemma_set_view();
        }
        let r = self.map.try_reserve(additional);
        proof {
            assert(self@ =~= old(self)@);
        }
        r
    }

    /// The set after inserting `x`: unchanged if `x` is there, else with `x` at the
    /// next index.
    pub open spec fn inserted(&self, x: i64) -> Map<usize, i64> {
        if has_item(self@, x) {
            self@
        } else {
            self@.insert(self.next_index(), x)
        }
    }

    /// Adds `x` at the next index unless it is there; returns its index and whether it
    /// was added.
    pub fn insert_full(&mut self, x: i64) -> (r: (usize, bool))
        requires
            old(self).wf(),
        ensures
            final(self).wf(),
            final(self)@ == old(self).inserted(x),
            r.1 == !has_item(old(self)@, x),
            final(self)@.contains_key(r.0) && final(self)@[r.0] == x,
            r.1 ==> r.0 == old(self).next_index(),
            !r.1 ==> old(self)@.contains_key(r.0) && old(self)@[r.0] == x,
    {
        proof {
            self.lemma_set_view();
        }
        let ghost prev = self.map@;
        let ghost prev_set = self@;
        if self.map.contains_key(x) {
            let i = match self.map.get_index_of(x) {
                Some(i) => i,
                None => {
                    proof {
                        assert(false);
                    }
                    0
                },
            };
            proof {
                assert(self@.contains_key(i) && self@[i] == x);
            }
            (i, false)
        } else {
            let (i, _) = self.map.insert_full(x, 0);
            proof {
                self.lemma_view_of(prev, prev_set);
            }
            (i, true)
        }
    }

    /// Adds `x` unless it is there; returns whether it was added.
    pub fn insert(&mut self, x: i64) -> (r: bool)
        requires
            old(self).wf(),
        ensures
            final(self).wf(),
            final(self)@ == old(self).inserted(x),
            r == !has_item(old(self)@, x),
    {
        self.insert_full(x).1
    }

    /// Adds `x` at the next index, or finds the equal item already there, which keeps
    /// its index (an `i64` item and its replacement are the same value); returns the
    /// index and the item found. One hash of `x` and one probe.
    pub fn replace_full(&mut self, x: i64) -> (r: (usize, Option<i64>))
        requires
            old(self).wf(),
        ensures
            final(self).wf(),
            final(self)@ == old(self).inserted(x),
            r.1 == (if has_item(old(self)@, x) {
                Some(x)
            } else {
                None::<i64>
            }),
            final(self)@.contains_key(r.0) && final(self)@[r.0] == x,
            r.1.is_none() ==> r.0 == old(self).next_index(),
            r.1.is_some() ==> old(self)@.contains_key(r.0) && old(self)@[r.0] == x,
    {
        proof {
            self.lemma_set_view();
        }
        let ghost prev = self.map@;
        let ghost prev_set = self@;
        let ghost prev_next = self.map.next_index();
        match self.map.entry(x) {
            Entry::Occupied(o) => {
                let index = o.index();
                let key = o.key();
                proof {
                    assert(prev.contains_key(index) && prev[index].0 == x);
                    assert(prev_set.contains_key(index));
                }
                (index, Some(key))
            },
            Entry::Vacant(v) => {
                let index = v.index();
                v.insert(0);
                proof {
                    self.lemma_view_of(prev, prev_set);
                }
                (index, None)
            },
        }
    }

    /// Adds `x` unless an equal item is there; returns the item found.
    pub fn replace(&mut self, x: i64) -> (r: Option<i64>)
        requires
            old(self).wf(),
        ensures
            final(self).wf(),
            final(self)@ == old(self).inserted(x),
            r == (if has_item(old(self)@, x) {
                Some(x)
            } else {
                None::<i64>
            }),
    {
        self.replace_full(x).1
    }

    /// Whether the set holds `x`.
    pub fn contains(&self, x: i64) -> (r: bool)
        requires
            self.wf(),
        ensures
            r == has_item(self@, x),
    {
        proof {
            self.lemma_set_view();
        }
        self.map.contains_key(x)
    }

    /// The index of `x` and the item, if the set holds it.
    pub fn get_full(&self, x: i64) -> (r: Option<(usize, i64)>)
        requires
            self.wf(),
        ensures
            r.is_some() == has_item(self@, x),
            r.is_some() ==> r.unwrap().1 == x && self@.contains_key(r.unwrap().0) && self@[r.unwrap().0]
                == x,
    {
        proof {
            self.lemma_set_view();
        }
        match self.map.get_full(x) {
            Some((i, k, _)) => Some((i, k)),
            None => None,
        }
    }

    /// The item equal to `x`, if the set holds it.
    pub fn get(&self, x: i64) -> (r: Option<i64>)
        requires
            self.wf(),
        ensures
            r.is_some() == has_item(self@, x),
            r.is_some() ==> r.unwrap() == x,
    {
        match self.get_full(x) {
            Some((_, k)) => Some(k),
            None => None,
        }
    }

    /// The index of `x`, if the set holds it.
    pub fn get_index_of(&self, x: i64) -> (r: Option<usize>)
        requires
            self.wf(),
        ensures
            r.is_some() == has_item(self@, x),
            r.is_some() ==> self@.contains_key(r.unwrap()) && self@[r.unwrap()] == x,
    {
        match self.get_full(x) {
            Some((i, _)) => Some(i),
            None => None,
        }
    }

    /// The item at `index`, if that index is occupied.
    pub fn get_index(&self, index: usize) -> (r: Option<i64>)
        requires
            self.wf(),
        ensures
            r.is_some() == self@.contains_key(index),
            r.is_some() ==> r.unwrap() == self@[index],
    {
        match self.map.get_index(index) {
            Some((k, _)) => Some(k),
            None => None,
        }
    }

    /// Removes `x` and returns its index and the item, if the set held it.
    pub fn remove_full(&mut self, x: i64) -> (r: Option<(usize, i64)>)
        requires
            old(self).wf(),
        ensures
            final(self).wf(),
            r.is_some() == has_item(old(self)@, x),
            r.is_some() ==> {
                &&& r.unwrap().1 == x
                &&& old(self)@.contains_key(r.unwrap().0)
                &&& old(self)@[r.unwrap().0] == x
                &&& final(self)@ == old(self)@.remove(r.unwrap().0)
                &&& final(self).next_index() == r.unwrap().0
            },
            r.is_none() ==> final(self)@ == old(self)@,
    {
        proof {
            self.lemma_set_view();
        }
        let r = self.map.remove_full(x);
        match r {
            Some((i, k, _)) => {
                proof {
                    assert(self@ =~= old(self)@.remove(i));
                }
                Some((i, k))
            },
            None => {
                proof {
                    assert(self@ =~= old(self)@);
                }
                None
            },
        }
    }

    /// Removes `x`; returns whether the set held it.
    pub fn remove(&mut self, x: i64) -> (r: bool)
        requires
            old(self).wf(),
        ensures
            final(self).wf(),
            r == has_item(old(self)@, x),
            item_set(final(self)@) == item_set(old(self)@).remove(x),
    {
        proof {
            self.lemma_set_view();
        }
        let r = self.remove_full(x);
        proof {
            self.lemma_set_view();
            assert forall|y: i64| #[trigger] item_set(self@).contains(y) <==> item_set(
                old(self)@,
            ).remove(x).contains(y) by {
                if has_item(self@, y) {
                    let i = choose|i: usize| #[trigger] self@.contains_key(i) && self@[i] == y;
                    assert(old(self)@.contains_key(i));
                }
                if y != x && has_item(old(self)@, y) {
                    let i = choose|i: usize| #[trigger] old(self)@.contains_key(i) && old(self)@[i] == y;
                    if r.is_some() {
                        assert(i != r.unwrap().0);
                    }
                    assert(self@.contains_key(i));
                }
            }
            assert(item_set(self@) =~= item_set(old(self)@).remove(x));
        }
        r.is_some()
    }

    /// Removes `x` and returns it, if the set held it.
    pub fn take(&mut self, x: i64) -> (r: Option<i64>)
        requires
            old(self).wf(),
        ensures
            final(self).wf(),
            r.is_some() == has_item(old(self)@, x),
            r.is_some() ==> r.unwrap() == x,
            r.is_none() ==> final(self)@ == old(self)@,
    {
        match self.remove_full(x) {
            Some((_, k)) => Some(k),
            None => None,
        }
    }

    /// Removes the item at `index` and returns it, if that index is occupied.
    pub fn remove_index(&mut self, index: usize) -> (r: Option<i64>)
        requires
            old(self).wf(),
        ensures
            final(self).wf(),
            r.is_some() == old(self)@.contains_key(index),
            r.is_some() ==> r.unwrap() == old(self)@[index] && final(self)@ == old(self)@.remove(index),
            r.is_none() ==> final(self)@ == old(self)@,
    {
        let r = self.map.remove_index(index);
        proof {
            if r.is_some() {
                assert(self@ =~= old(self)@.remove(index));
            } else {
                assert(self@ =~= old(self)@);
            }
        }
        match r {
            Some((k, _)) => Some(k),
            None => None,
        }
    }

    /// The items of `self` that `other` holds (`in_other`) or does not hold.
    pub open spec fn filtered(&self, other: &HashSlabSet, in_other: bool) -> Set<i64> {
        if in_other {
            item_set(self@).intersect(item_set(other@))
        } else {
            item_set(self@).difference(item_set(other@))
        }
    }

    /// Appends to `out` each item of `self` that `other` holds (`in_other`) or does
    /// not hold.
    fn collect_into(&self, other: &HashSlabSet, in_other: bool, out: &mut Vec<i64>)
        requires
            self.wf(),
            other.wf(),
            old(out)@.no_duplicates(),
            old(out)@.to_set().disjoint(self.filtered(other, in_other)),
        ensures
            final(out)@.no_duplicates(),
            final(out)@.to_set() == old(out)@.to_set().union(self.filtered(other, in_other)),
    {
        let items = self.iter();
        let ghost start = out@;
        let ghost keep = self.filtered(other, in_other);
        let mut j: usize = 0;
        while j < items.len()
            invariant
                self.wf(),
                other.wf(),
                j <= items@.len(),
                holds_once(items@, item_set(self@)),
                keep == self.filtered(other, in_other),
                start.no_duplicates(),
                start.to_set().disjoint(keep),
                out@.no_duplicates(),
                forall|x: i64| #[trigger]
                    out@.contains(x) <==> (start.contains(x) || (keep.contains(x) && exists|t: int|
                        0 <= t < j && items@[t] == x)),
            decreases items@.len() - j,
        {
            let x = items[j];
            let held = other.contains(x);
            proof {
                assert(items@.to_set().contains(x));
            }
            if held == in_other {
                proof {
                    assert(keep.contains(x));
                    if out@.contains(x) {
                        assert(!start.to_set().contains(x));
                        let t = choose|t: int| 0 <= t < j && items@[t] == x;
                        assert(items@[t] == items@[j as int]);
                    }
                }
                let ghost before = out@;
                out.push(x);
                proof {
                    assert(out@ == before.push(x));
                    assert forall|a: int, b: int| 0 <= a < out@.len() && 0 <= b < out@.len() && a != b implies out@[a]
                        != out@[b] by {
                        if a < before.len() && b < before.len() {
                            assert(before[a] != before[b]);
                        } else if a < before.len() {
                            assert(before.contains(before[a]));
                        } else {
                            assert(before.contains(before[b]));
                        }
                    }
                    assert forall|y: i64| #[trigger]
                        out@.contains(y) <==> (start.contains(y) || (keep.contains(y) && exists|t: int|
                            0 <= t < j + 1 && items@[t] == y)) by {
                        if y == x {
                            assert(out@[out@.len() - 1] == x);
                        } else {
                            if out@.contains(y) {
                                let a = choose|a: int| 0 <= a < out@.len() && out@[a] == y;
                                assert(before[a] == y);
                                assert(before.contains(y));
                            }
                            if keep.contains(y) && exists|t: int| 0 <= t < j + 1 && items@[t] == y {
                                let t = choose|t: int| 0 <= t < j + 1 && items@[t] == y;
                                assert(t < j);
                            }
                            if before.contains(y) {
                                let a = choose|a: int| 0 <= a < before.len() && before[a] == y;
                                assert(out@[a] == y);
                            }
                        }
                    }
                }
            } else {
                proof {
                    assert(!keep.contains(x));
                    assert forall|y: i64| #[trigger]
                        out@.contains(y) <==> (start.contains(y) || (keep.contains(y) && exists|t: int|
                            0 <= t < j + 1 && items@[t] == y)) by {
                        if keep.contains(y) && exists|t: int| 0 <= t < j + 1 && items@[t] == y {
                            let t = choose|t: int| 0 <= t < j + 1 && items@[t] == y;
                            assert(t < j);
                        }
                    }
                }
            }
            j = j + 1;
        }
        proof {
            assert forall|x: i64| #[trigger] out@.to_set().contains(x) <==> start.to_set().union(keep).contains(x) by {
                if keep.contains(x) {
                    assert(items@.to_set().contains(x));
                }
            }
            assert(out@.to_set() =~= start.to_set().union(keep));
        }
    }

    /// The items of `self` that `other` does not hold, each once.
    pub fn difference(&self, other: &HashSlabSet) -> (r: Vec<i64>)
        requires
            self.wf(),
            other.wf(),
        ensures
            holds_once(r@, item_set(self@).difference(item_set(other@))),
    {
        let mut out: Vec<i64> = Vec::new();
        proof {
            assert(out@.to_set() =~= Set::<i64>::empty());
        }
        self.collect_into(other, false, &mut out);
        proof {
            assert(out@.to_set() =~= item_set(self@).difference(item_set(other@)));
        }
        out
    }

    /// The items that both sets hold, each once.
    pub fn intersection(&self, other: &HashSlabSet) -> (r: Vec<i64>)
        requires
            self.wf(),
            other.wf(),
        ensures
            holds_once(r@, item_set(self@).intersect(item_set(other@))),
    {
        let mut out: Vec<i64> = Vec::new();
        proof {
            assert(out@.to_set() =~= Set::<i64>::empty());
        }
        self.collect_into(other, true, &mut out);
        proof {
            assert(out@.to_set() =~= item_set(self@).intersect(item_set(other@)));
        }
        out
    }

    /// The items that exactly one of the sets holds, each once.
    pub fn symmetric_difference(&self, other: &HashSlabSet) -> (r: Vec<i64>)
        requires
            self.wf(),
            other.wf(),
        ensures
            holds_once(
                r@,
                item_set(self@).difference(item_set(other@)).union(
                    item_set(other@).difference(item_set(self@)),
                ),
            ),
    {
        let mut out: Vec<i64> = Vec::new();
        proof {
            assert(out@.to_set() =~= Set::<i64>::empty());
        }
        self.collect_into(other, false, &mut out);
        proof {
            assert(out@.to_set() =~= item_set(self@).difference(item_set(other@)));
        }
        other.collect_into(self, false, &mut out);
        proof {
            assert(out@.to_set() =~= item_set(self@).difference(item_set(other@)).union(
                item_set(other@).difference(item_set(self@)),
            ));
        }
        out
    }

    /// The items that either set holds, each once: those of `self` first.
    pub fn union(&self, other: &HashSlabSet) -> (r: Vec<i64>)
        requires
            self.wf(),
            other.wf(),
        ensures
            holds_once(r@, item_set(self@).union(item_set(other@))),
    {
        let mut out = self.iter();
        other.collect_into(self, false, &mut out);
        proof {
            assert(out@.to_set() =~= item_set(self@).union(item_set(other@)));
        }
        out
    }

    /// Whether every item of `self` is in `other`.
    pub fn is_subset(&self, other: &HashSlabSet) -> (r: bool)
        requires
            self.wf(),
            other.wf(),
        ensures
            r == item_set(self@).subset_of(item_set(other@)),
    {
        let missing = self.difference(other);
        proof {
            if missing@.len() == 0 {
                assert forall|x: i64| item_set(self@).contains(x) implies item_set(other@).contains(x) by {
                    if !item_set(other@).contains(x) {
                        assert(missing@.to_set().contains(x));
                    }
                }
            } else {
                let x = missing@[0];
                assert(missing@.to_set().contains(x));
            }
        }
        missing.len() == 0
    }

    /// Whether every item of `other` is in `self`.
    pub fn is_superset(&self, other: &HashSlabSet) -> (r: bool)
        requires
            self.wf(),
            other.wf(),
        ensures
            r == item_set(other@).subset_of(item_set(self@)),
    {
        other.is_subset(self)
    }

    /// Whether the sets hold no item in common.
    pub fn is_disjoint(&self, other: &HashSlabSet) -> (r: bool)
        requires
            self.wf(),
            other.wf(),
        ensures
            r == item_set(self@).disjoint(item_set(other@)),
    {
        let common = self.intersection(other);
        proof {
            if common@.len() == 0 {
                assert forall|x: i64| item_set(self@).contains(x) implies !item_set(other@).contains(x) by {
                    if item_set(other@).contains(x) {
                        assert(common@.to_set().contains(x));
                    }
                }
            } else {
                let x = common@[0];
                assert(common@.to_set().contains(x));
            }
        }
        common.len() == 0
    }

    /// Keeps the items on which `keep` returns true and removes the others.
    pub fn retain<F: Fn(i64) -> bool>(&mut self, keep: F)
        requires
            old(self).wf(),
            forall|x: i64| keep.requires((x,)),
        ensures
            final(self).wf(),
            forall|i: usize| #[trigger]
                final(self)@.contains_key(i) ==> old(self)@.contains_key(i) && final(self)@[i]
                    == old(self)@[i] && keep.ensures((old(self)@[i],), true),
            forall|i: usize| #[trigger]
                old(self)@.contains_key(i) && !final(self)@.contains_key(i) ==> keep.ensures(
                    (old(self)@[i],),
                    false,
                ),
    {
        let items = self.iter_full();
        let ghost prev = self@;
        let mut j: usize = 0;
        while j < items.len()
            invariant
                self.wf(),
                j <= items@.len(),
                forall|x: i64| keep.requires((x,)),
                lists_items(items@, prev),
                forall|i: usize| #[trigger]
                    self@.contains_key(i) ==> prev.contains_key(i) && self@[i] == prev[i],
                forall|t: int| j <= t < items@.len() ==> #[trigger] self@.contains_key(items@[t].0),
                forall|t: int|
                    0 <= t < j && #[trigger] self@.contains_key(items@[t].0) ==> keep.ensures(
                        (prev[items@[t].0],),
                        true,
                    ),
                forall|t: int|
                    0 <= t < j && !#[trigger] self@.contains_key(items@[t].0) ==> keep.ensures(
                        (prev[items@[t].0],),
                        false,
                    ),
            decreases items@.len() - j,
        {
            let (index, x) = items[j];
            proof {
                assert(prev.contains_key(items@[j as int].0));
            }
            if !keep(x) {
                let ghost before = self@;
                self.remove_index(index);
                proof {
                    assert forall|t: int| j < t < items@.len() implies #[trigger] self@.contains_key(items@[t].0) by {
                        assert(items@[t].0 != items@[j as int].0);
                        assert(before.contains_key(items@[t].0));
                    }
                    assert forall|t: int|
                        0 <= t < j && #[trigger] self@.contains_key(items@[t].0) implies keep.ensures(
                        (prev[items@[t].0],),
                        true,
                    ) by {
                        assert(before.contains_key(items@[t].0));
                    }
                    assert forall|t: int|
                        0 <= t < j && !#[trigger] self@.contains_key(items@[t].0) implies keep.ensures(
                        (prev[items@[t].0],),
                        false,
                    ) by {
                        assert(items@[t].0 != items@[j as int].0);
                    }
                }
            }
            j = j + 1;
        }
        proof {
            assert forall|i: usize| #[trigger] self@.contains_key(i) implies keep.ensures((prev[i],), true) by {
                assert(prev.contains_key(i));
                let t = choose|t: int| 0 <= t < items@.len() && items@[t].0 == i;
            }
            assert forall|i: usize| #[trigger]
                prev.contains_key(i) && !self@.contains_key(i) implies keep.ensures((prev[i],), false) by {
                let t = choose|t: int| 0 <= t < items@.len() && items@[t].0 == i;
            }
        }
    }

    /// The items of the set are the keys of the map underneath.
    proof fn lemma_items_keys(&self)
        requires
            self.wf(),
        ensures
            item_set(self@) == key_map(self.map@).dom(),
    {
        self.lemma_set_view();
        assert(item_set(self@) =~= key_map(self.map@).dom());
    }

    /// Moves every item of `other` into this set; items already here keep their
    /// indices.
    pub fn append(&mut self, other: &mut HashSlabSet)
        requires
            old(self).wf(),
            old(other).wf(),
        ensures
            final(self).wf(),
            final(other).wf(),
            final(other)@ == Map::<usize, i64>::empty(),
            item_set(final(self)@) == item_set(old(self)@).union(item_set(old(other)@)),
            forall|i: usize| #[trigger]
                old(self)@.contains_key(i) ==> final(self)@.contains_key(i) && final(self)@[i]
                    == old(self)@[i],
    {
        proof {
            self.lemma_items_keys();
            other.lemma_items_keys();
        }
        self.map.append(&mut other.map);
        proof {
            self.lemma_items_keys();
            assert(key_map(self.map@).dom() =~= key_map(old(self).map@).dom().union(
                key_map(old(other).map@).dom(),
            ));
            assert(other@ =~= Map::<usize, i64>::empty());
        }
    }

    /// Inserting `x` adds it to the items.
    proof fn lemma_inserted_items(&self, x: i64)
        requires
            self.wf(),
        ensures
            item_set(self.inserted(x)) == item_set(self@).insert(x),
    {
        self.lemma_set_view();
        let n = self.next_index();
        if !has_item(self@, x) {
            let m = self@.insert(n, x);
            assert forall|y: i64| #[trigger] item_set(m).contains(y) <==> item_set(self@).insert(x).contains(y) by {
                if y == x {
                    assert(m.contains_key(n) && m[n] == x);
                } else {
                    if has_item(m, y) {
                        let i = choose|i: usize| #[trigger] m.contains_key(i) && m[i] == y;
                        assert(self@.contains_key(i));
                    }
                    if has_item(self@, y) {
                        let i = choose|i: usize| #[trigger] self@.contains_key(i) && self@[i] == y;
                        assert(m.contains_key(i) && m[i] == y);
                    }
                }
            }
        }
        assert(item_set(self.inserted(x)) =~= item_set(self@).insert(x));
    }

    /// Inserts each item of `items`.
    pub fn extend(&mut self, items: Vec<i64>)
        requires
            old(self).wf(),
        ensures
            final(self).wf(),
            item_set(final(self)@) == item_set(old(self)@).union(items@.to_set()),
    {
        let mut j: usize = 0;
        proof {
            assert(item_set(self@).union(items@.subrange(0, 0).to_set()) =~= item_set(self@));
        }
        while j < items.len()
            invariant
                self.wf(),
                j <= items@.len(),
                item_set(self@) == item_set(old(self)@).union(items@.subrange(0, j as int).to_set()),
            decreases items@.len() - j,
        {
            let x = items[j];
            proof {
                self.lemma_inserted_items(x);
            }
            self.insert(x);
            proof {
                let prefix = items@.subrange(0, j as int);
                let longer = items@.subrange(0, j + 1);
                assert(longer == prefix.push(x));
                assert forall|y: i64| #[trigger] longer.to_set().contains(y) <==> prefix.to_set().insert(x).contains(y) by {
                    if longer.contains(y) && y != x {
                        let a = choose|a: int| 0 <= a < longer.len() && longer[a] == y;
                        assert(prefix[a] == y);
                        assert(prefix.contains(y));
                    }
                    if prefix.contains(y) {
                        let a = choose|a: int| 0 <= a < prefix.len() && prefix[a] == y;
                        assert(longer[a] == y);
                    }
                    if y == x {
                        assert(longer[j as int] == x);
                    }
                }
                assert(longer.to_set() =~= prefix.to_set().insert(x));
                assert(item_set(self@) =~= item_set(old(self)@).union(items@.subrange(0, j + 1).to_set()));
            }
            j = j + 1;
        }
        proof {
            assert(items@.subrange(0, items@.len() as int) == items@);
        }
    }

    /// Builds a set holding the items of `items`.
    pub fn from_iter(items: Vec<i64>) -> (r: Self)
        ensures
            r.wf(),
            item_set(r@) == items@.to_set(),
    {
        let room = if items.len() <= crate::RESERVE_LIMIT {
            items.len()
        } else {
            crate::RESERVE_LIMIT
        };
        let mut r = Self::with_capacity(room);
        proof {
            assert(item_set(r@).union(items@.to_set()) =~= items@.to_set());
        }
        r.extend(items);
        r
    }

    /// Whether both sets hold the same items; indices do not count.
    pub fn eq(&self, other: &HashSlabSet) -> (r: bool)
        requires
            self.wf(),
            other.wf(),
        ensures
            r == (item_set(self@) == item_set(other@)),
    {
        let r = self.is_subset(other) && other.is_subset(self);
        proof {
            if r {
                assert(item_set(self@) =~= item_set(other@));
            }
        }
        r
    }

    /// A copy of the set: the same items at the same indices.
    pub fn clone(&self) -> (r: Self)
        requires
            self.wf(),
        ensures
            r.wf(),
            r@ == self@,
            r.next_index() == self.next_index(),
    {
        let r = HashSlabSet { map: self.map.clone() };
        proof {
            assert(r@ =~= self@);
        }
        r
    }

    /// Consumes the set into its items, each once.
    pub fn into_iter(self) -> (r: Vec<i64>)
        requires
            self.wf(),
        ensures
            holds_once(r@, item_set(self@)),
    {
        self.iter()
    }

    /// The set of the keys of `map`, at the same indices; the values are dropped.
    pub fn from_map(map: HashSlabMap) -> (r: Self)
        requires
            map.wf(),
        ensures
            r.wf(),
            item_set(r@) == key_map(map@).dom(),
            forall|i: usize| #[trigger] r@.contains_key(i) == map@.contains_key(i),
            forall|i: usize| #[trigger] r@.contains_key(i) ==> r@[i] == map@[i].0,
    {
        let r = HashSlabSet { map };
        proof {
            r.lemma_items_keys();
        }
        r
    }
}

/// A listing of items, projected to the items, holds each item once.
proof fn lemma_listing_holds_items(full: Seq<(usize, i64)>, m: Map<usize, i64>, items: Seq<i64>)
    requires
        lists_items(full, m),
        items_unique(m),
        items == full.map_values(|e: (usize, i64)| e.1),
    ensures
        holds_once(items, item_set(m)),
        items.len() == m.len(),
{
    assert forall|a: int, b: int| 0 <= a < items.len() && 0 <= b < items.len() && a != b implies items[a]
        != items[b] by {
        assert(m.contains_key(full[a].0) && m.contains_key(full[b].0));
        assert(full[a].0 != full[b].0);
    }
    assert forall|x: i64| #[trigger] items.to_set().contains(x) <==> item_set(m).contains(x) by {
        if items.to_set().contains(x) {
            let j = choose|j: int| 0 <= j < items.len() && items[j] == x;
            assert(m.contains_key(full[j].0));
        }
        if item_set(m).contains(x) {
            let i = choose|i: usize| #[trigger] m.contains_key(i) && m[i] == x;
            let j = choose|j: int| 0 <= j < full.len() && full[j].0 == i;
            assert(items[j] == x);
            assert(items.contains(x));
        }
    }
    assert(items.to_set() =~= item_set(m));
}

} // verus!
