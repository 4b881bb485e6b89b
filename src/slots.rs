//! The slot store: values and cached hashes, addressed by index.
use slab::Slab;
use vstd::prelude::*;

verus! {

/// `slab::Slab`, the slot store.
#[verifier::external_type_specification]
#[verifier::external_body]
#[verifier::reject_recursive_types(T)]
pub struct ExSlab<T>(Slab<T>);

/// An occupied slot: the value and the hash of its key, taken once at insertion.
#[derive(Clone, Copy, Debug)]
pub struct ValueData {
    pub value: i64,
    pub hash: u64,
}

impl ValueData {
    /// A slot holding `value` and the hash of its key.
    pub fn new(value: i64, hash: u64) -> (r: Self)
        ensures
            r.value == value,
            r.hash == hash,
    {
        ValueData { value, hash }
    }
}

/// What the slab holds: each occupied index with its value and cached hash.
pub uninterp spec fn slot_map(s: Slab<ValueData>) -> Map<usize, (i64, u64)>;

/// The slab's free list: the vacant indices below `slot_end`, in the order in which
/// insertions take them.
pub uninterp spec fn slot_free(s: Slab<ValueData>) -> Seq<usize>;

/// The length of the slab's backing vector: the index that an insertion appends at
/// once the free list is empty.
pub uninterp spec fn slot_end(s: Slab<ValueData>) -> usize;

/// The index that the slab's next insertion takes.
pub open spec fn slot_next(s: Slab<ValueData>) -> usize {
    if slot_free(s).len() > 0 {
        slot_free(s)[0]
    } else {
        slot_end(s)
    }
}

/// The free list holds distinct vacant indices, and every index in use lies below the
/// end.
pub open spec fn slots_ok(s: Slab<ValueData>) -> bool {
    &&& slot_free(s).no_duplicates()
    &&& forall|j: int|
        0 <= j < slot_free(s).len() ==> slot_free(s)[j] < slot_end(s) && !slot_map(s).contains_key(
            #[trigger] slot_free(s)[j],
        )
    &&& forall|i: usize| #[trigger] slot_map(s).contains_key(i) ==> i < slot_end(s)
}

/// A slab with no occupied slot.
pub open spec fn no_slots() -> Map<usize, (i64, u64)> {
    Map::empty()
}

/// A slot as a `(value, hash)` pair.
pub open spec fn data_view(d: ValueData) -> (i64, u64) {
    (d.value, d.hash)
}

/// Relies on `Slab`'s `IndexMut`: a mutable borrow of the value in an occupied slot;
/// the cached hash beside it stays.
#[verifier::external_body]
pub(crate) fn slot_value_mut(s: &mut Slab<ValueData>, index: usize) -> (r: &mut i64)
    requires
        slot_map(*old(s)).contains_key(index),
    ensures
        *r == slot_map(*old(s))[index].0,
        slot_map(*final(s)) == slot_map(*old(s)).insert(index, (*final(r), slot_map(*old(s))[index].1)),
        slot_map(*final(s)).dom() == slot_map(*old(s)).dom(),
        slot_free(*final(s)) == slot_free(*old(s)),
        slot_end(*final(s)) == slot_end(*old(s)),
{
    &mut s[index].value
}

/// Relies on `Slab::with_capacity`: an empty slab with an empty free list. Its
/// `Vec::with_capacity` panics past `isize::MAX` bytes; `RESERVE_LIMIT` slots of 24
/// bytes stay below that.
#[verifier::external_body]
pub(crate) fn slots_with_capacity(n: usize) -> (r: Slab<ValueData>)
    requires
        n <= crate::RESERVE_LIMIT,
    ensures
        slot_map(r) == no_slots(),
        slot_free(r).len() == 0,
        slot_end(r) == 0,
{
    Slab::with_capacity(n)
}

/// Relies on `Slab::get`: the slot at `index`, if it is occupied.
#[verifier::external_body]
pub(crate) fn slots_get(s: &Slab<ValueData>, index: usize) -> (r: Option<ValueData>)
    ensures
        r.is_some() == slot_map(*s).contains_key(index),
        r.is_some() ==> data_view(r.unwrap()) == slot_map(*s)[index],
{
    s.get(index).copied()
}

/// Relies on `Slab::contains`: whether the slot at `index` is occupied.
#[verifier::external_body]
pub(crate) fn slots_contains(s: &Slab<ValueData>, index: usize) -> (r: bool)
    ensures
        r == slot_map(*s).contains_key(index),
{
    s.contains(index)
}

/// Relies on `Slab::insert`: the value goes to the head of the free list, which then
/// moves on to the next vacant index; with an empty free list it is pushed at the end.
/// The end stays below `usize::MAX`: the backing vector holds 24-byte slots in fewer
/// than `isize::MAX` bytes.
#[verifier::external_body]
pub(crate) fn slots_insert(s: &mut Slab<ValueData>, d: ValueData) -> (r: usize)
    requires
        slots_ok(*old(s)),
    ensures
        r == slot_next(*old(s)),
        slot_map(*final(s)) == slot_map(*old(s)).insert(r, data_view(d)),
        slot_free(*old(s)).len() > 0 ==> slot_free(*final(s)) == slot_free(*old(s)).drop_first()
            && slot_end(*final(s)) == slot_end(*old(s)),
        slot_free(*old(s)).len() == 0 ==> slot_free(*final(s)).len() == 0 && slot_end(*final(s))
            == slot_end(*old(s)) + 1,
{
    s.insert(d)
}

/// Relies on `Slab::try_remove`: frees an occupied slot and pushes its index on the
/// free list; leaves the slab as it was otherwise.
#[verifier::external_body]
pub(crate) fn slots_try_remove(s: &mut Slab<ValueData>, index: usize) -> (r: Option<ValueData>)
    ensures
        r.is_some() == slot_map(*old(s)).contains_key(index),
        r.is_some() ==> {
            &&& data_view(r.unwrap()) == slot_map(*old(s))[index]
            &&& slot_map(*final(s)) == slot_map(*old(s)).remove(index)
            &&& slot_free(*final(s)) == seq![index] + slot_free(*old(s))
            &&& slot_end(*final(s)) == slot_end(*old(s))
        },
        r.is_none() ==> *final(s) == *old(s),
{
    s.try_remove(index)
}

/// Relies on `Slab::vacant_key`: the index of the next insertion.
#[verifier::external_body]
pub(crate) fn slots_vacant_key(s: &Slab<ValueData>) -> (r: usize)
    ensures
        r == slot_next(*s),
{
    s.vacant_key()
}

/// Relies on `Slab::capacity`: the capacity of the backing vector, which holds every
/// slot, occupied or not.
#[verifier::external_body]
pub(crate) fn slots_capacity(s: &Slab<ValueData>) -> (r: usize)
    ensures
        r >= slot_map(*s).len(),
{
    s.capacity()
}

/// Relies on `Slab::clear`: no slot stays, the free list is empty and the end is 0.
#[verifier::external_body]
pub(crate) fn slots_clear(s: &mut Slab<ValueData>)
    ensures
        slot_map(*final(s)) == no_slots(),
        slot_free(*final(s)).len() == 0,
        slot_end(*final(s)) == 0,
{
    s.clear()
}

/// Relies on `Slab::reserve`: grows the backing vector only, so the slots and the free
/// list stay. The vector grows only when its capacity is below `len + additional`, to
/// at most twice that many slots of 24 bytes; the bound keeps this below `isize::MAX`
/// bytes, past which `Vec::reserve` panics.
#[verifier::external_body]
pub(crate) fn slots_reserve(s: &mut Slab<ValueData>, additional: usize)
    requires
        slot_map(*old(s)).len() + additional <= (isize::MAX as usize) / 64,
    ensures
        slot_map(*final(s)) == slot_map(*old(s)),
        slot_free(*final(s)) == slot_free(*old(s)),
        slot_end(*final(s)) == slot_end(*old(s)),
{
    s.reserve(additional)
}

/// Relies on `Slab::shrink_to_fit`: drops vacant slots at the end, rebuilds the free
/// list over the rest and releases spare memory; the occupied slots stay where they are.
#[verifier::external_body]
pub(crate) fn slots_shrink_to_fit(s: &mut Slab<ValueData>)
    ensures
        slot_map(*final(s)) == slot_map(*old(s)),
        slots_ok(*final(s)),
{
    s.shrink_to_fit()
}

/// Relies on `Slab::clone`: the same slots, free list and end.
#[verifier::external_body]
pub(crate) fn slots_clone(s: &Slab<ValueData>) -> (r: Slab<ValueData>)
    ensures
        slot_map(r) == slot_map(*s),
        slot_free(r) == slot_free(*s),
        slot_end(r) == slot_end(*s),
{
    s.clone()
}

/// Freeing an occupied index and pushing it on the free list keeps the free list
/// sound.
pub proof fn lemma_slots_remove(prev: Slab<ValueData>, next: Slab<ValueData>, index: usize)
    requires
        slots_ok(prev),
        slot_map(prev).contains_key(index),
        slot_map(next) == slot_map(prev).remove(index),
        slot_free(next) == seq![index] + slot_free(prev),
        slot_end(next) == slot_end(prev),
    ensures
        slots_ok(next),
        slot_next(next) == index,
{
    let f = slot_free(next);
    let pf = slot_free(prev);
    assert forall|a: int, b: int| 0 <= a < f.len() && 0 <= b < f.len() && a != b implies f[a]
        != f[b] by {
        if a > 0 && b > 0 {
            assert(f[a] == pf[a - 1] && f[b] == pf[b - 1]);
        } else if a == 0 {
            assert(f[b] == pf[b - 1]);
            assert(!slot_map(prev).contains_key(pf[b - 1]));
        } else {
            assert(f[a] == pf[a - 1]);
            assert(!slot_map(prev).contains_key(pf[a - 1]));
        }
    }
    assert forall|j: int| 0 <= j < f.len() implies f[j] < slot_end(next) && !slot_map(
        next,
    ).contains_key(#[trigger] f[j]) by {
        if j > 0 {
            assert(f[j] == pf[j - 1]);
            assert(!slot_map(prev).contains_key(pf[j - 1]));
        }
    }
}

} // verus!
