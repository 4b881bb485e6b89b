//! The mathematical model of a map's contents: elements by index, keys and values,
//! listings of elements, and the key map that inserting a sequence of pairs leaves.
use vstd::prelude::*;

verus! {

/// Some element of `m` has the key `k`.
pub open spec fn has_key(m: Map<usize, (i64, i64)>, k: i64) -> bool {
    exists|i: usize| #[trigger] m.contains_key(i) && m[i].0 == k
}

/// No two elements of `m` share a key.
pub open spec fn keys_unique(m: Map<usize, (i64, i64)>) -> bool {
    forall|i: usize, j: usize|
        #[trigger] m.contains_key(i) && #[trigger] m.contains_key(j) && m[i].0 == m[j].0 ==> i
            == j
}

/// The index that holds the key `k` in `m`.
pub open spec fn index_of(m: Map<usize, (i64, i64)>, k: i64) -> usize {
    choose|i: usize| #[trigger] m.contains_key(i) && m[i].0 == k
}

/// The index that inserting `k` into `m` uses: the key's own index if `m` holds it,
/// else `next`.
pub open spec fn insert_index(m: Map<usize, (i64, i64)>, next: usize, k: i64) -> usize {
    if has_key(m, k) {
        index_of(m, k)
    } else {
        next
    }
}

/// What `m` maps each of its keys to, indices set aside.
pub open spec fn key_map(m: Map<usize, (i64, i64)>) -> Map<i64, i64> {
    Map::new(|k: i64| has_key(m, k), |k: i64| m[index_of(m, k)].1)
}

/// The map that inserting the pairs of `s` in order leaves: a later pair wins over an
/// earlier one with the same key.
pub open spec fn pairs_map(s: Seq<(i64, i64)>) -> Map<i64, i64>
    decreases s.len(),
{
    if s.len() == 0 {
        Map::empty()
    } else {
        pairs_map(s.drop_last()).insert(s.last().0, s.last().1)
    }
}

/// The keys of `pairs_map(s)` are the keys of `s`; where no key repeats, each pair
/// stands as it is.
pub proof fn lemma_pairs_map(s: Seq<(i64, i64)>)
    ensures
        forall|k: i64| #[trigger]
            pairs_map(s).contains_key(k) <==> exists|j: int| 0 <= j < s.len() && s[j].0 == k,
        (forall|j1: int, j2: int|
            0 <= j1 < s.len() && 0 <= j2 < s.len() && j1 != j2 ==> #[trigger] s[j1].0 != #[trigger] s[j2].0)
            ==> forall|j: int| 0 <= j < s.len() ==> pairs_map(s)[#[trigger] s[j].0] == s[j].1,
    decreases s.len(),
{
    if s.len() > 0 {
        let p = s.drop_last();
        lemma_pairs_map(p);
        assert(pairs_map(s) == pairs_map(p).insert(s.last().0, s.last().1));
        assert forall|k: i64| #[trigger]
            pairs_map(s).contains_key(k) <==> exists|j: int| 0 <= j < s.len() && s[j].0 == k by {
            if pairs_map(s).contains_key(k) && k != s.last().0 {
                assert(pairs_map(p).contains_key(k));
                let j = choose|j: int| 0 <= j < p.len() && p[j].0 == k;
                assert(s[j].0 == k);
            }
            if exists|j: int| 0 <= j < s.len() && s[j].0 == k {
                let j = choose|j: int| 0 <= j < s.len() && s[j].0 == k;
                if j < s.len() - 1 {
                    assert(p[j].0 == k);
                }
            }
        }
        if forall|j1: int, j2: int|
            0 <= j1 < s.len() && 0 <= j2 < s.len() && j1 != j2 ==> #[trigger] s[j1].0 != #[trigger] s[j2].0 {
            assert forall|j1: int, j2: int|
                0 <= j1 < p.len() && 0 <= j2 < p.len() && j1 != j2 implies #[trigger] p[j1].0
                != #[trigger] p[j2].0 by {
                assert(s[j1].0 != s[j2].0);
            }
            assert forall|j: int| 0 <= j < s.len() implies pairs_map(s)[#[trigger] s[j].0] == s[j].1 by {
                if j < s.len() - 1 {
                    assert(p[j] == s[j]);
                    assert(s[j].0 != s[s.len() - 1].0);
                }
            }
        }
    }
}

/// Inserting one pair at the index that `insert_full` picks updates the key map by
/// that pair.
pub proof fn lemma_key_map_insert(
    prev: Map<usize, (i64, i64)>,
    next: Map<usize, (i64, i64)>,
    index: usize,
    key: i64,
    value: i64,
)
    requires
        keys_unique(prev),
        keys_unique(next),
        next == prev.insert(index, (key, value)),
        has_key(prev, key) ==> index == index_of(prev, key),
        !has_key(prev, key) ==> !prev.contains_key(index),
    ensures
        key_map(next) == key_map(prev).insert(key, value),
{
    assert forall|k: i64| #[trigger] has_key(next, k) <==> (has_key(prev, k) || k == key) by {
        if has_key(next, k) && k != key {
            let i = choose|i: usize| #[trigger] next.contains_key(i) && next[i].0 == k;
            assert(prev.contains_key(i));
        }
        if k == key {
            assert(next.contains_key(index));
        } else if has_key(prev, k) {
            let i = choose|i: usize| #[trigger] prev.contains_key(i) && prev[i].0 == k;
            if i == index {
                assert(has_key(prev, key));
            }
            assert(next.contains_key(i) && next[i].0 == k);
        }
    }
    assert forall|k: i64| #[trigger] key_map(next).contains_key(k) implies key_map(next)[k]
        == key_map(prev).insert(key, value)[k] by {
        let i = index_of(next, k);
        assert(next.contains_key(i) && next[i].0 == k);
        if k == key {
            assert(next.contains_key(index));
        } else {
            assert(i != index);
            assert(prev.contains_key(i) && prev[i].0 == k);
            let i0 = index_of(prev, k);
            assert(prev.contains_key(i0) && prev[i0].0 == k);
        }
    }
    assert(key_map(next) =~= key_map(prev).insert(key, value));
}

/// In a listing of a map whose keys are unique, no key repeats.
pub proof fn lemma_listing_keys_distinct(s: Seq<(usize, i64, i64)>, m: Map<usize, (i64, i64)>)
    requires
        lists_exactly(s, m),
        keys_unique(m),
    ensures
        forall|j1: int, j2: int|
            0 <= j1 < s.len() && 0 <= j2 < s.len() && j1 != j2 ==> #[trigger] pairs_of(s)[j1].0
                != #[trigger] pairs_of(s)[j2].0,
{
    let q = pairs_of(s);
    assert forall|j1: int, j2: int|
        0 <= j1 < s.len() && 0 <= j2 < s.len() && j1 != j2 implies #[trigger] q[j1].0
        != #[trigger] q[j2].0 by {
        assert(m.contains_key(s[j1].0) && m.contains_key(s[j2].0));
        assert(s[j1].0 != s[j2].0);
    }
}

/// A listing of a map whose keys are unique holds its key map.
pub proof fn lemma_listing_key_map(s: Seq<(usize, i64, i64)>, m: Map<usize, (i64, i64)>)
    requires
        lists_exactly(s, m),
        keys_unique(m),
    ensures
        pairs_map(pairs_of(s)) == key_map(m),
        forall|j: int| 0 <= j < s.len() ==> key_map(m)[#[trigger] pairs_of(s)[j].0] == pairs_of(s)[j].1,
{
    let q = pairs_of(s);
    lemma_listing_keys_distinct(s, m);
    lemma_pairs_map(q);
    assert forall|k: i64| #[trigger] pairs_map(q).contains_key(k) <==> has_key(m, k) by {
        if pairs_map(q).contains_key(k) {
            let j = choose|j: int| 0 <= j < q.len() && q[j].0 == k;
            assert(m.contains_key(s[j].0));
        }
        if has_key(m, k) {
            let i = choose|i: usize| #[trigger] m.contains_key(i) && m[i].0 == k;
            let j = choose|j: int| 0 <= j < s.len() && s[j].0 == i;
            assert(q[j].0 == k);
        }
    }
    assert(pairs_map(q).dom() =~= key_map(m).dom());
    assert forall|k: i64| #[trigger] pairs_map(q).contains_key(k) implies pairs_map(q)[k] == key_map(m)[k] by {
        let i = index_of(m, k);
        assert(m.contains_key(i) && m[i].0 == k);
        let j = choose|j: int| 0 <= j < s.len() && s[j].0 == i;
        assert(q[j].0 == k);
    }
    assert(pairs_map(q) =~= key_map(m));
}

/// `s` lists the elements of `m` exactly once each, as `(index, key, value)`, in some
/// order.
pub open spec fn lists_exactly(s: Seq<(usize, i64, i64)>, m: Map<usize, (i64, i64)>) -> bool {
    &&& s.len() == m.len()
    &&& forall|j: int|
        0 <= j < s.len() ==> #[trigger] m.contains_key(s[j].0) && m[s[j].0] == (s[j].1, s[j].2)
    &&& forall|j1: int, j2: int|
        0 <= j1 < s.len() && 0 <= j2 < s.len() && j1 != j2 ==> #[trigger] s[j1].0 != #[trigger] s[j2].0
    &&& forall|i: usize| #[trigger]
        m.contains_key(i) ==> exists|j: int| 0 <= j < s.len() && s[j].0 == i
}

/// The `(key, value)` pairs of a listing.
pub open spec fn pairs_of(s: Seq<(usize, i64, i64)>) -> Seq<(i64, i64)> {
    s.map_values(|e: (usize, i64, i64)| (e.1, e.2))
}

/// A sequence of distinct indices, each of them in `dom`, as many as `dom` holds,
/// names every index of `dom`.
pub proof fn lemma_indices_cover(s: Seq<usize>, dom: Set<usize>)
    requires
        dom.finite(),
        s.no_duplicates(),
        s.len() == dom.len(),
        forall|j: int| 0 <= j < s.len() ==> dom.contains(#[trigger] s[j]),
    ensures
        forall|i: usize| #[trigger] dom.contains(i) ==> exists|j: int| 0 <= j < s.len() && s[j] == i,
{
    s.unique_seq_to_set();
    assert(s.to_set().subset_of(dom));
    vstd::set_lib::lemma_subset_equality(s.to_set(), dom);
    assert forall|i: usize| #[trigger] dom.contains(i) implies exists|j: int|
        0 <= j < s.len() && s[j] == i by {
        assert(s.to_set().contains(i));
    }
}

/// What insertion sees of a map: its elements, its free list and its end.
pub type InsertState = (Map<usize, (i64, i64)>, Seq<usize>, int);

/// A map with no element, no freed index and end 0.
pub open spec fn empty_state() -> InsertState {
    (Map::empty(), Seq::empty(), 0)
}

/// `s` after inserting `(k, v)`: a present key keeps its index; a new key takes the
/// head of the free list, or the end, which then moves on by one.
pub open spec fn insert_step(s: InsertState, k: i64, v: i64) -> InsertState {
    if has_key(s.0, k) {
        (s.0.insert(index_of(s.0, k), (k, v)), s.1, s.2)
    } else if s.1.len() > 0 {
        (s.0.insert(s.1[0], (k, v)), s.1.drop_first(), s.2)
    } else {
        (s.0.insert(s.2 as usize, (k, v)), s.1, s.2 + 1)
    }
}

/// `s` after inserting the pairs of `pairs` in order.
pub open spec fn insert_all(s: InsertState, pairs: Seq<(i64, i64)>) -> InsertState
    decreases pairs.len(),
{
    if pairs.len() == 0 {
        s
    } else {
        insert_step(insert_all(s, pairs.drop_last()), pairs.last().0, pairs.last().1)
    }
}

} // verus!
