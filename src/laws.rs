//! Properties that hold across operations, stated over the views that the operations'
//! contracts use.
use vstd::prelude::*;

use crate::entry::or_inserted;
use crate::map::{freed, HashSlabMap};
use crate::model::{
    has_key, index_of, insert_index, insert_step, key_map, lemma_listing_key_map, lemma_listing_keys_distinct,
    lemma_pairs_map, lists_exactly, pairs_map, pairs_of,
};

verus! {

/// The set of `(key, value)` pairs of a key map.
pub open spec fn pair_set(m: Map<i64, i64>) -> Set<(i64, i64)> {
    Set::new(|p: (i64, i64)| m.contains_key(p.0) && m[p.0] == p.1)
}

/// In every state that the operations leave, the hash index holds as many nodes as
/// the slot store holds occupied slots, and both count the elements.
pub proof fn lemma_stores_agree(m: &HashSlabMap)
    requires
        m.wf(),
    ensures
        m.index_len() == m.slot_len(),
        m.index_len() == m@.len(),
{
    m.lemma_view_facts();
}

/// The key found at an occupied index leads back, by key, to that same index.
pub proof fn lemma_index_key_round_trip(m: &HashSlabMap, i: usize)
    requires
        m.wf(),
        m@.contains_key(i),
    ensures
        has_key(m@, m@[i].0),
        index_of(m@, m@[i].0) == i,
{
    m.lemma_view_facts();
    let k = m@[i].0;
    assert(m@.contains_key(i) && m@[i].0 == k);
    let j = index_of(m@, k);
    assert(m@.contains_key(j) && m@[j].0 == k);
}

/// Inserting a new key and then removing it frees exactly the index that the
/// insertion took, and leaves the elements and their count as they were.
pub proof fn lemma_insert_then_remove(m: &HashSlabMap, k: i64, v: i64)
    requires
        m.wf(),
        !has_key(m@, k),
    ensures
        insert_index(m@, m.next_index(), k) == m.next_index(),
        has_key(m@.insert(m.next_index(), (k, v)), k),
        index_of(m@.insert(m.next_index(), (k, v)), k) == m.next_index(),
        m@.insert(m.next_index(), (k, v)).remove(m.next_index()) == m@,
        m@.insert(m.next_index(), (k, v)).remove(m.next_index()).len() == m@.len(),
{
    m.lemma_view_facts();
    let n = m.next_index();
    let after = m@.insert(n, (k, v));
    assert(after.contains_key(n) && after[n].0 == k);
    let j = index_of(after, k);
    assert(after.contains_key(j) && after[j].0 == k);
    if j != n {
        assert(m@.contains_key(j) && m@[j].0 == k);
    }
    assert(after.remove(n) =~= m@);
}

/// After the element at `i` is removed, `i` is the next index handed out: a new key
/// inserted next takes it.
pub proof fn lemma_freed_index_reused(before: &HashSlabMap, after: &HashSlabMap, i: usize, k: i64)
    requires
        before.wf(),
        after.wf(),
        before@.contains_key(i),
        after@ == before@.remove(i),
        freed(before, after, i),
        !has_key(after@, k),
    ensures
        insert_index(after@, after.next_index(), k) == i,
        !after@.contains_key(i),
{
}

/// Freed indices are handed out again most recently freed first: after the elements
/// at `i` and then `j` are removed, new keys take `j`, then `i`, and then the indices
/// that were free before.
pub proof fn lemma_reuse_order(
    before: &HashSlabMap,
    mid: &HashSlabMap,
    after: &HashSlabMap,
    i: usize,
    j: usize,
)
    requires
        freed(before, mid, i),
        freed(mid, after, j),
    ensures
        after.next_index() == j,
        after.free_indices().drop_first()[0] == i,
        after.free_indices().drop_first().drop_first() == before.free_indices(),
{
    assert(after.free_indices().drop_first() =~= mid.free_indices());
    assert(mid.free_indices().drop_first() =~= before.free_indices());
}

/// Once the element at `i` is removed, by any of the removing operations, whose
/// contracts all leave `before@.remove(i)`, nothing is found at `i` until an insertion
/// reuses it.
pub proof fn lemma_removed_index_vacant(before: &HashSlabMap, after: &HashSlabMap, i: usize)
    requires
        before.wf(),
        after.wf(),
        before@.contains_key(i),
        after@ == before@.remove(i),
    ensures
        !after@.contains_key(i),
        after@.len() + 1 == before@.len(),
{
    before.lemma_view_facts();
}

/// Inserting one key leaves every other key at its index with its value: an index
/// handed out on insertion stays with its element until the element is removed.
pub proof fn lemma_index_stays(m: &HashSlabMap, k: i64, v: i64, other: i64)
    requires
        m.wf(),
        has_key(m@, other),
        other != k,
    ensures
        has_key(insert_step(m.state(), k, v).0, other),
        index_of(insert_step(m.state(), k, v).0, other) == index_of(m@, other),
        insert_step(m.state(), k, v).0[index_of(m@, other)] == m@[index_of(m@, other)],
{
    m.lemma_view_facts();
    let i = index_of(m@, other);
    assert(m@.contains_key(i) && m@[i].0 == other);
    let n = insert_step(m.state(), k, v).0;
    let at = insert_index(m@, m.next_index(), k);
    assert(n == m@.insert(at, (k, v)));
    if has_key(m@, k) {
        let ik = index_of(m@, k);
        assert(m@.contains_key(ik) && m@[ik].0 == k);
    }
    assert(at != i);
    assert(n.contains_key(i) && n[i].0 == other);
    let j = index_of(n, other);
    assert(n.contains_key(j) && n[j].0 == other);
    if j != i {
        if j == at {
            assert(n[j].0 == k);
        } else {
            assert(m@.contains_key(j) && m@[j].0 == other);
        }
    }
}

/// The pairs that draining (or consuming) a map lists, inserted again in that order,
/// give back its keys and values.
pub proof fn lemma_drain_reinsert(m: &HashSlabMap, s: Seq<(usize, i64, i64)>)
    requires
        m.wf(),
        lists_exactly(s, m@),
    ensures
        pairs_map(pairs_of(s)) == key_map(m@),
{
    m.lemma_view_facts();
    lemma_listing_key_map(s, m@);
}

/// A map built from `pairs`, listed again, holds the pairs with one per key, the last
/// one given for each key.
pub proof fn lemma_collect_round_trip(
    pairs: Seq<(i64, i64)>,
    m: &HashSlabMap,
    s: Seq<(usize, i64, i64)>,
)
    requires
        m.wf(),
        key_map(m@) == pairs_map(pairs),
        lists_exactly(s, m@),
    ensures
        pairs_of(s).to_set() == pair_set(pairs_map(pairs)),
        pairs_of(s).no_duplicates(),
{
    m.lemma_view_facts();
    lemma_listing_key_map(s, m@);
    let q = pairs_of(s);
    lemma_listing_keys_distinct(s, m@);
    lemma_pairs_map(q);
    assert forall|p: (i64, i64)| #[trigger] q.to_set().contains(p) <==> pair_set(
        pairs_map(pairs),
    ).contains(p) by {
        if q.to_set().contains(p) {
            let j = choose|j: int| 0 <= j < q.len() && q[j] == p;
            assert(pairs_map(q)[q[j].0] == q[j].1);
        }
        if pair_set(pairs_map(pairs)).contains(p) {
            assert(pairs_map(q).contains_key(p.0));
            let j = choose|j: int| 0 <= j < q.len() && q[j].0 == p.0;
            assert(pairs_map(q)[q[j].0] == q[j].1);
            assert(q.contains(q[j]));
        }
    }
    assert(q.to_set() =~= pair_set(pairs_map(pairs)));
    assert forall|a: int, b: int| 0 <= a < q.len() && 0 <= b < q.len() && a != b implies q[a]
        != q[b] by {
        assert(q[a].0 != q[b].0);
    }
}

/// `or_insert` twice on one key, with two values: the second call changes nothing,
/// and the key keeps the value it had before the first call, or else the first value.
pub proof fn lemma_or_insert_idempotent(
    m: &HashSlabMap,
    next: usize,
    k: i64,
    v1: i64,
    v2: i64,
)
    requires
        m.wf(),
    ensures
        or_inserted(or_inserted(m@, m.next_index(), k, v1), next, k, v2) == or_inserted(
            m@,
            m.next_index(),
            k,
            v1,
        ),
        has_key(m@, k) ==> key_map(or_inserted(m@, m.next_index(), k, v1))[k] == key_map(m@)[k],
        !has_key(m@, k) ==> key_map(or_inserted(m@, m.next_index(), k, v1))[k] == v1,
{
    m.lemma_view_facts();
    let n = m.next_index();
    let once = or_inserted(m@, n, k, v1);
    if !has_key(m@, k) {
        assert(once.contains_key(n) && once[n].0 == k);
        let j = index_of(once, k);
        assert(once.contains_key(j) && once[j].0 == k);
        if j != n {
            assert(m@.contains_key(j) && m@[j].0 == k);
        }
    }
}

} // verus!
