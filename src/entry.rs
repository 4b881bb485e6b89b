//! The entry API: one probe of the hash index, then a decision on what was found.
use vstd::prelude::*;

use crate::hashing::key_hash;
use crate::map::{freed, took_next, HashSlabMap};
use crate::model::has_key;

verus! {

/// A place in the map for one key: taken by an element, or free.
pub enum Entry<'a> {
    Occupied(OccupiedEntry<'a>),
    Vacant(VacantEntry<'a>),
}

/// A key that the map holds, at its index. The fields are public so that contracts
/// can speak of them; `wf` says when they fit the map.
pub struct OccupiedEntry<'a> {
    pub map: &'a mut HashSlabMap,
    pub key: i64,
    pub index: usize,
}

/// A key that the map does not hold, with the hash already taken of it. The fields
/// are public so that contracts can speak of them; `wf` says when they fit the map.
pub struct VacantEntry<'a> {
    pub map: &'a mut HashSlabMap,
    pub key: i64,
    pub hash: u64,
}

impl<'a> OccupiedEntry<'a> {
    /// The map holds the key at the index.
    pub open spec fn wf(&self) -> bool {
        &&& self.map.wf()
        &&& self.map@.contains_key(self.index)
        &&& self.map@[self.index].0 == self.key
    }

    /// The value of the element, as the map holds it.
    pub open spec fn value(&self) -> i64 {
        self.map@[self.index].1
    }

    /// The index of the element.
    pub fn index(&self) -> (r: usize)
        ensures
            r == self.index,
    {
        self.index
    }

    /// The key of the element.
    pub fn key(&self) -> (r: i64)
        ensures
            r == self.key,
    {
        self.key
    }

    /// The value of the element.
    pub fn get(&self) -> (r: i64)
        requires
            self.wf(),
        ensures
            r == self.value(),
    {
        match self.map.get_index_value(self.index) {
            Some(v) => v,
            None => {
                proof {
                    assert(false);
                }
                0
            },
        }
    }

    /// A mutable borrow of the value, for as long as the entry lives.
    pub fn get_mut(&mut self) -> (r: &mut i64)
        requires
            old(self).wf(),
        ensures
            *r == old(self).map@[old(self).index].1,
            final(self).wf(),
            final(self).key == old(self).key,
            final(self).index == old(self).index,
            final(self).map@ == old(self).map@.insert(old(self).index, (old(self).key, *final(r))),
            *final(final(self).map) == *final(old(self).map),
    {
        self.map.value_mut(self.index)
    }

    /// A mutable borrow of the value, for as long as the map is borrowed.
    pub fn into_mut(self) -> (r: &'a mut i64)
        requires
            self.wf(),
        ensures
            *r == (*old(self.map))@[self.index].1,
            (*final(self.map)).wf(),
            (*final(self.map))@ == (*old(self.map))@.insert(self.index, (self.key, *final(r))),
    {
        self.map.value_mut(self.index)
    }

    /// Replaces the value and returns the old one; the key and the index stay.
    pub fn insert(&mut self, value: i64) -> (r: i64)
        requires
            old(self).wf(),
        ensures
            r == old(self).map@[old(self).index].1,
            final(self).wf(),
            final(self).key == old(self).key,
            final(self).index == old(self).index,
            final(self).map@ == old(self).map@.insert(old(self).index, (old(self).key, value)),
            *final(final(self).map) == *final(old(self).map),
    {
        let v = self.map.value_mut(self.index);
        let r = *v;
        *v = value;
        r
    }

    /// Sets the value to `value` and gives the entry back.
    fn replaced(self, value: i64) -> (r: Self)
        requires
            self.wf(),
        ensures
            r.wf(),
            r.key == self.key,
            r.index == self.index,
            r.map@ == (*old(self.map))@.insert(self.index, (self.key, value)),
            *final(self.map) == *final(r.map),
    {
        let v = self.map.value_mut(self.index);
        *v = value;
        OccupiedEntry { map: self.map, key: self.key, index: self.index }
    }

    /// Removes the element and returns its value.
    pub fn remove(self) -> (r: i64)
        requires
            self.wf(),
        ensures
            r == (*old(self.map))@[self.index].1,
            (*final(self.map)).wf(),
            (*final(self.map))@ == (*old(self.map))@.remove(self.index),
            freed(&*old(self.map), &*final(self.map), self.index),
    {
        self.remove_entry().1
    }

    /// Removes the element and returns its key and value.
    pub fn remove_entry(self) -> (r: (i64, i64))
        requires
            self.wf(),
        ensures
            r == (*old(self.map))@[self.index],
            (*final(self.map)).wf(),
            (*final(self.map))@ == (*old(self.map))@.remove(self.index),
            freed(&*old(self.map), &*final(self.map), self.index),
    {
        match self.map.remove_index(self.index) {
            Some(kv) => kv,
            None => {
                proof {
                    assert(false);
                }
                (self.key, 0)
            },
        }
    }
}

impl<'a> VacantEntry<'a> {
    /// The map does not hold the key, and the hash is the key's.
    pub open spec fn wf(&self) -> bool {
        &&& self.map.wf()
        &&& !has_key(self.map@, self.key)
        &&& self.hash == key_hash(self.map.hash_seed(), self.key)
    }

    /// The index that the map gives its next new element.
    pub open spec fn next_index(&self) -> usize {
        self.map.next_index()
    }

    /// The index that the key would take.
    pub fn index(&self) -> (r: usize)
        requires
            self.wf(),
        ensures
            r == self.next_index(),
    {
        self.map.vacant_index()
    }

    /// The key.
    pub fn key(&self) -> (r: i64)
        ensures
            r == self.key,
    {
        self.key
    }

    /// Gives the key back.
    pub fn into_key(self) -> (r: i64)
        ensures
            r == self.key,
    {
        self.key
    }

    /// Inserts the key with `value` at `index()` and borrows the value.
    pub fn insert(self, value: i64) -> (r: &'a mut i64)
        requires
            self.wf(),
        ensures
            *r == value,
            (*final(self.map)).wf(),
            (*final(self.map))@ == (*old(self.map))@.insert(
                (*old(self.map)).next_index(),
                (self.key, *final(r)),
            ),
            took_next(&*old(self.map), &*final(self.map)),
    {
        let index = self.map.insert_new(self.key, self.hash, value);
        self.map.value_mut(index)
    }

    /// Inserts the key with `value` at `index()` and gives the occupied entry.
    pub fn insert_entry(self, value: i64) -> (r: OccupiedEntry<'a>)
        requires
            self.wf(),
        ensures
            r.wf(),
            r.key == self.key,
            r.index == (*old(self.map)).next_index(),
            r.map@ == (*old(self.map))@.insert((*old(self.map)).next_index(), (self.key, value)),
            took_next(&*old(self.map), &*r.map),
            *final(self.map) == *final(r.map),
    {
        let index = self.map.insert_new(self.key, self.hash, value);
        OccupiedEntry { map: self.map, key: self.key, index }
    }
}

/// What `or_insert` leaves in the map, before any write through the borrow it gives:
/// the map as it was when the key is present, else the map with `(k, v)` at `next`.
pub open spec fn or_inserted(m: Map<usize, (i64, i64)>, next: usize, k: i64, v: i64) -> Map<
    usize,
    (i64, i64),
> {
    if has_key(m, k) {
        m
    } else {
        m.insert(next, (k, v))
    }
}

impl<'a> Entry<'a> {
    /// The entry fits the map it borrows.
    pub open spec fn wf(&self) -> bool {
        match self {
            Entry::Occupied(o) => o.wf(),
            Entry::Vacant(v) => v.wf(),
        }
    }

    /// The key of the entry.
    pub open spec fn key_spec(&self) -> i64 {
        match self {
            Entry::Occupied(o) => o.key,
            Entry::Vacant(v) => v.key,
        }
    }

    /// The key.
    pub fn key(&self) -> (r: i64)
        ensures
            r == self.key_spec(),
    {
        match self {
            Entry::Occupied(o) => o.key,
            Entry::Vacant(v) => v.key,
        }
    }

    /// The index of the element, or the one that it would take.
    pub fn index(&self) -> (r: usize)
        requires
            self.wf(),
        ensures
            match self {
                Entry::Occupied(o) => r == o.index,
                Entry::Vacant(v) => r == v.next_index(),
            },
    {
        match self {
            Entry::Occupied(o) => o.index(),
            Entry::Vacant(v) => v.index(),
        }
    }

    /// Sets the value to `f` of the old one if the key is present; either way gives
    /// the entry back.
    pub fn and_modify<F: Fn(i64) -> i64>(self, f: F) -> (r: Self)
        requires
            self.wf(),
            forall|v: i64| f.requires((v,)),
        ensures
            r.wf(),
            match (self, r) {
                (Entry::Occupied(o), Entry::Occupied(o2)) => {
                    &&& o2.key == o.key
                    &&& o2.index == o.index
                    &&& f.ensures(((*o.map)@[o.index].1,), o2.value())
                    &&& o2.map@ == (*o.map)@.insert(o.index, (o.key, o2.value()))
                    &&& *final(o.map) == *final(o2.map)
                },
                (Entry::Vacant(v), Entry::Vacant(v2)) => {
                    &&& v2.key == v.key
                    &&& *v2.map == *v.map
                    &&& *final(v.map) == *final(v2.map)
                },
                _ => false,
            },
    {
        match self {
            Entry::Occupied(o) => {
                let old_value = o.get();
                let new_value = f(old_value);
                Entry::Occupied(o.replaced(new_value))
            },
            Entry::Vacant(v) => Entry::Vacant(v),
        }
    }

    /// Sets the value to `value`, inserting the key if it is absent, and gives the
    /// occupied entry.
    pub fn insert_entry(self, value: i64) -> (r: OccupiedEntry<'a>)
        requires
            self.wf(),
        ensures
            r.wf(),
            r.key == self.key_spec(),
            match self {
                Entry::Occupied(o) => {
                    &&& r.index == o.index
                    &&& r.map@ == (*o.map)@.insert(o.index, (o.key, value))
                    &&& *final(o.map) == *final(r.map)
                },
                Entry::Vacant(v) => {
                    &&& r.index == (*v.map).next_index()
                    &&& r.map@ == (*v.map)@.insert((*v.map).next_index(), (v.key, value))
                    &&& *final(v.map) == *final(r.map)
                },
            },
    {
        match self {
            Entry::Occupied(o) => o.replaced(value),
            Entry::Vacant(v) => v.insert_entry(value),
        }
    }

    /// Borrows the value, inserting `default` first if the key is absent.
    pub fn or_insert(self, default: i64) -> (r: &'a mut i64)
        requires
            self.wf(),
        ensures
            match self {
                Entry::Occupied(o) => {
                    &&& *r == (*o.map)@[o.index].1
                    &&& (*final(o.map)).wf()
                    &&& (*final(o.map))@ == (*o.map)@.insert(o.index, (o.key, *final(r)))
                },
                Entry::Vacant(v) => {
                    &&& *r == default
                    &&& (*final(v.map)).wf()
                    &&& (*final(v.map))@ == (*v.map)@.insert(
                        (*v.map).next_index(),
                        (v.key, *final(r)),
                    )
                },
            },
    {
        match self {
            Entry::Occupied(o) => o.into_mut(),
            Entry::Vacant(v) => v.insert(default),
        }
    }

    /// Borrows the value, inserting what `make` returns first if the key is absent.
    pub fn or_insert_with<F: FnOnce() -> i64>(self, make: F) -> (r: &'a mut i64)
        requires
            self.wf(),
            make.requires(()),
        ensures
            match self {
                Entry::Occupied(o) => {
                    &&& *r == (*o.map)@[o.index].1
                    &&& (*final(o.map)).wf()
                    &&& (*final(o.map))@ == (*o.map)@.insert(o.index, (o.key, *final(r)))
                },
                Entry::Vacant(v) => {
                    &&& make.ensures((), *r)
                    &&& (*final(v.map)).wf()
                    &&& (*final(v.map))@ == (*v.map)@.insert(
                        (*v.map).next_index(),
                        (v.key, *final(r)),
                    )
                },
            },
    {
        match self {
            Entry::Occupied(o) => o.into_mut(),
            Entry::Vacant(v) => {
                let value = make();
                v.insert(value)
            },
        }
    }

    /// Borrows the value, inserting what `make` returns for the key first if the key
    /// is absent.
    pub fn or_insert_with_key<F: FnOnce(i64) -> i64>(self, make: F) -> (r: &'a mut i64)
        requires
            self.wf(),
            make.requires((self.key_spec(),)),
        ensures
            match self {
                Entry::Occupied(o) => {
                    &&& *r == (*o.map)@[o.index].1
                    &&& (*final(o.map)).wf()
                    &&& (*final(o.map))@ == (*o.map)@.insert(o.index, (o.key, *final(r)))
                },
                Entry::Vacant(v) => {
                    &&& make.ensures((v.key,), *r)
                    &&& (*final(v.map)).wf()
                    &&& (*final(v.map))@ == (*v.map)@.insert(
                        (*v.map).next_index(),
                        (v.key, *final(r)),
                    )
                },
            },
    {
        match self {
            Entry::Occupied(o) => o.into_mut(),
            Entry::Vacant(v) => {
                let value = make(v.key);
                v.insert(value)
            },
        }
    }

    /// Borrows the value, inserting 0 first if the key is absent.
    pub fn or_default(self) -> (r: &'a mut i64)
        requires
            self.wf(),
        ensures
            match self {
                Entry::Occupied(o) => {
                    &&& *r == (*o.map)@[o.index].1
                    &&& (*final(o.map)).wf()
                    &&& (*final(o.map))@ == (*o.map)@.insert(o.index, (o.key, *final(r)))
                },
                Entry::Vacant(v) => {
                    &&& *r == 0
                    &&& (*final(v.map)).wf()
                    &&& (*final(v.map))@ == (*v.map)@.insert(
                        (*v.map).next_index(),
                        (v.key, *final(r)),
                    )
                },
            },
    {
        self.or_insert(0)
    }
}

} // verus!
