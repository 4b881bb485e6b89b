use hashslab::entry::Entry;
use hashslab::error::TryReserveError;
use hashslab::map::HashSlabMap;

fn from_pairs(pairs: &[(i64, i64)]) -> HashSlabMap {
    HashSlabMap::from_iter(pairs.to_vec())
}

#[test]
fn reinsert_index() {
    let mut map = HashSlabMap::new();
    map.insert('a' as i64, 0);
    map.insert('b' as i64, 1);

    assert_eq!(Some((0, 'a' as i64, 0)), map.remove_full('a' as i64));

    assert_eq!((0, None), map.insert_full('c' as i64, 2));
}

#[test]
fn remove_all_but_one() {
    let mut map = HashSlabMap::new();

    for n in 0..100 {
        map.insert(n, n);
    }

    for n in 0..99 {
        map.remove(n);
    }

    assert_eq!(Some(99), map.get_index_value(99));
}

#[test]
fn with_default_hasher() {
    let mut map = HashSlabMap::new();

    for i in 0..20 {
        map.insert(i, 0);
    }

    for i in (0..20).step_by(2) {
        map.remove(i);
    }

    let sample = (1..20).step_by(2).collect::<Vec<usize>>();
    let mut output = map.indices();
    output.sort();
    assert_eq!(sample, output);
}

#[test]
fn insert_same_key() {
    let mut map = HashSlabMap::new();

    assert_eq!(None, map.insert(0, 'A' as i64));
    assert_eq!(Some('A' as i64), map.insert(0, 'B' as i64));
}

#[test]
fn simple_extend() {
    let mut map = HashSlabMap::new();

    assert_eq!(None, map.insert(0, 'A' as i64));

    map.extend(vec![(0, 'B' as i64)]);
    assert_eq!(1, map.len());
    assert_eq!(Some('B' as i64), map.get(0));

    map.extend(vec![(0, 'B' as i64), (1, 'C' as i64)]);
    assert_eq!(2, map.len());
    assert_eq!(Some('B' as i64), map.get(0));

    map.extend(vec![(0, 'B' as i64), (1, 'C' as i64), (2, 'D' as i64)]);
    assert_eq!(3, map.len());
    assert_eq!(Some('B' as i64), map.get(0));
}

#[test]
fn reserve_step_by_step() {
    let mut map = HashSlabMap::new();

    assert_eq!(0, map.len());
    assert_eq!(0, map.capacity());

    map.reserve(1);
    let cap = 1;

    assert_eq!(0, map.len());
    assert!(map.capacity() >= cap, "{} >= {cap}", map.capacity());
}

#[test]
fn test_create_capacity_zero() {
    let mut m = HashSlabMap::with_capacity(0);

    assert!(m.insert(1, 1).is_none());

    assert!(m.contains_key(1));
    assert!(!m.contains_key(0));
}

#[test]
fn test_insert() {
    let mut m = HashSlabMap::new();
    assert_eq!(m.len(), 0);
    assert!(m.insert(1, 2).is_none());
    assert_eq!(m.len(), 1);
    assert!(m.insert(2, 4).is_none());
    assert_eq!(m.len(), 2);
    assert_eq!(m.get(1).unwrap(), 2);
    assert_eq!(m.get(2).unwrap(), 4);
}

#[test]
fn test_clone() {
    let mut m = HashSlabMap::new();
    assert_eq!(m.len(), 0);
    assert!(m.insert(1, 2).is_none());
    assert_eq!(m.len(), 1);
    assert!(m.insert(2, 4).is_none());
    assert_eq!(m.len(), 2);
    let m2 = m.clone();
    assert_eq!(m2.get(1).unwrap(), 2);
    assert_eq!(m2.get(2).unwrap(), 4);
    assert_eq!(m2.len(), 2);
}

#[test]
fn test_empty_remove() {
    let mut m = HashSlabMap::new();
    assert_eq!(m.remove(0), None);
}

#[test]
fn test_empty_entry() {
    let mut m = HashSlabMap::new();
    match m.entry(0) {
        Entry::Occupied(_) => panic!(),
        Entry::Vacant(_) => {}
    }
    assert_eq!(*m.entry(0).or_insert(1), 1);
    assert_eq!(m.len(), 1);
}

#[test]
fn test_empty_iter() {
    let mut m = HashSlabMap::new();
    assert_eq!(m.drain().first(), None);
    assert_eq!(m.keys().first(), None);
    assert_eq!(m.values().first(), None);
    assert_eq!(m.iter().first(), None);
    assert_eq!(m.len(), 0);
    assert!(m.is_empty());
    assert_eq!(m.into_iter().first(), None);
}

#[test]
fn test_lots_of_insertions() {
    let mut m = HashSlabMap::new();

    for _ in 0..10 {
        assert!(m.is_empty());

        for i in 1..1001 {
            assert!(m.insert(i, i).is_none());

            for j in 1..=i {
                assert_eq!(m.get(j), Some(j));
            }

            for j in i + 1..1001 {
                assert_eq!(m.get(j), None);
            }
        }

        for i in 1001..2001 {
            assert!(!m.contains_key(i));
        }

        for i in 1..1001 {
            assert!(m.remove(i).is_some());

            for j in 1..=i {
                assert!(!m.contains_key(j));
            }

            for j in i + 1..1001 {
                assert!(m.contains_key(j));
            }
        }

        for i in 1..1001 {
            assert!(!m.contains_key(i));
        }

        for i in 1..1001 {
            assert!(m.insert(i, i).is_none());
        }

        for i in (1..1001).rev() {
            assert!(m.remove(i).is_some());

            for j in i..1001 {
                assert!(!m.contains_key(j));
            }

            for j in 1..i {
                assert!(m.contains_key(j));
            }
        }
    }
}

#[test]
fn test_find_mut() {
    let mut m = HashSlabMap::new();
    assert!(m.insert(1, 12).is_none());
    assert!(m.insert(2, 8).is_none());
    assert!(m.insert(5, 14).is_none());
    let new = 100;
    match m.get_mut(5) {
        None => panic!(),
        Some(x) => *x = new,
    }
    assert_eq!(m.get(5), Some(new));
}

#[test]
fn test_insert_overwrite() {
    let mut m = HashSlabMap::new();
    assert!(m.insert(1, 2).is_none());
    assert_eq!(m.get(1).unwrap(), 2);
    assert!(m.insert(1, 3).is_some());
    assert_eq!(m.get(1).unwrap(), 3);
}

#[test]
fn test_insert_conflicts() {
    let mut m = HashSlabMap::with_capacity(4);
    assert!(m.insert(1, 2).is_none());
    assert!(m.insert(5, 3).is_none());
    assert!(m.insert(9, 4).is_none());
    assert_eq!(m.get(9).unwrap(), 4);
    assert_eq!(m.get(5).unwrap(), 3);
    assert_eq!(m.get(1).unwrap(), 2);
}

#[test]
fn test_conflict_remove() {
    let mut m = HashSlabMap::with_capacity(4);
    assert!(m.insert(1, 2).is_none());
    assert_eq!(m.get(1).unwrap(), 2);
    assert!(m.insert(5, 3).is_none());
    assert_eq!(m.get(1).unwrap(), 2);
    assert_eq!(m.get(5).unwrap(), 3);
    assert!(m.insert(9, 4).is_none());
    assert_eq!(m.get(1).unwrap(), 2);
    assert_eq!(m.get(5).unwrap(), 3);
    assert_eq!(m.get(9).unwrap(), 4);
    assert!(m.remove(1).is_some());
    assert_eq!(m.get(9).unwrap(), 4);
    assert_eq!(m.get(5).unwrap(), 3);
}

#[test]
fn test_is_empty() {
    let mut m = HashSlabMap::with_capacity(4);
    assert!(m.insert(1, 2).is_none());
    assert!(!m.is_empty());
    assert!(m.remove(1).is_some());
    assert!(m.is_empty());
}

#[test]
fn test_remove() {
    let mut m = HashSlabMap::new();
    m.insert(1, 2);
    assert_eq!(m.remove(1), Some(2));
    assert_eq!(m.remove(1), None);
}

#[test]
fn test_remove_entry() {
    let mut m = HashSlabMap::new();
    m.insert(1, 2);
    assert_eq!(m.remove_entry(1), Some((1, 2)));
    assert_eq!(m.remove(1), None);
}

#[test]
fn hashbrown_test_iterate() {
    let mut m = HashSlabMap::with_capacity(4);
    for i in 0..32 {
        assert!(m.insert(i, i * 2).is_none());
    }
    assert_eq!(m.len(), 32);

    let mut observed: u32 = 0;

    for (k, v) in m.iter() {
        assert_eq!(v, k * 2);
        observed |= 1 << k;
    }
    assert_eq!(observed, 0xFFFF_FFFF);
}

#[test]
fn test_keys() {
    let map = from_pairs(&[(1, 'a' as i64), (2, 'b' as i64), (3, 'c' as i64)]);
    let keys = map.keys();
    assert_eq!(keys.len(), 3);
    assert!(keys.contains(&1));
    assert!(keys.contains(&2));
    assert!(keys.contains(&3));
}

#[test]
fn test_values() {
    let map = from_pairs(&[(1, 'a' as i64), (2, 'b' as i64), (3, 'c' as i64)]);
    let values = map.values();
    assert_eq!(values.len(), 3);
    assert!(values.contains(&('a' as i64)));
    assert!(values.contains(&('b' as i64)));
    assert!(values.contains(&('c' as i64)));
}

#[test]
fn test_into_keys() {
    let map = from_pairs(&[(1, 'a' as i64), (2, 'b' as i64), (3, 'c' as i64)]);
    let keys = map.into_keys();
    assert_eq!(keys.len(), 3);
    assert!(keys.contains(&1));
    assert!(keys.contains(&2));
    assert!(keys.contains(&3));
}

#[test]
fn test_into_values() {
    let map = from_pairs(&[(1, 'a' as i64), (2, 'b' as i64), (3, 'c' as i64)]);
    let values = map.into_values();
    assert_eq!(values.len(), 3);
    assert!(values.contains(&('a' as i64)));
    assert!(values.contains(&('b' as i64)));
    assert!(values.contains(&('c' as i64)));
}

#[test]
fn test_find() {
    let mut m = HashSlabMap::new();
    assert!(m.get(1).is_none());
    m.insert(1, 2);
    match m.get(1) {
        None => panic!(),
        Some(v) => assert_eq!(v, 2),
    }
}

#[test]
fn hashbrown_test_eq() {
    let mut m1 = HashSlabMap::new();
    m1.insert(1, 2);
    m1.insert(2, 3);
    m1.insert(3, 4);

    let mut m2 = HashSlabMap::new();
    m2.insert(1, 2);
    m2.insert(2, 3);

    assert!(!m1.eq(&m2));

    m2.insert(3, 4);

    assert!(m1.eq(&m2));
}

#[test]
fn test_reserve_shrink_to_fit() {
    let mut m = HashSlabMap::new();
    m.insert(0, 0);
    m.remove(0);
    assert!(m.capacity() >= m.len());
    for i in 0..128 {
        m.insert(i, i);
    }
    m.reserve(256);

    let usable_cap = m.capacity();
    for i in 128..(128 + 256) {
        m.insert(i, i);
        assert_eq!(m.capacity(), usable_cap);
    }

    for i in 100..(128 + 256) {
        assert_eq!(m.remove(i), Some(i));
    }
    m.shrink_to_fit();

    assert_eq!(m.len(), 100);
    assert!(!m.is_empty());
    assert!(m.capacity() >= m.len());

    for i in 0..100 {
        assert_eq!(m.remove(i), Some(i));
    }
    m.shrink_to_fit();
    m.insert(0, 0);

    assert_eq!(m.len(), 1);
    assert!(m.capacity() >= m.len());
    assert_eq!(m.remove(0), Some(0));
}

#[test]
fn hashbrown_test_from_iter() {
    let xs = [(1, 1), (2, 2), (2, 2), (3, 3), (4, 4), (5, 5), (6, 6)];

    let map = from_pairs(&xs);

    for &(k, v) in &xs {
        assert_eq!(map.get(k), Some(v));
    }

    assert_eq!(map.iter().len(), xs.len() - 1);
}

#[test]
fn test_index() {
    let mut map = HashSlabMap::new();

    map.insert(1, 2);
    map.insert(2, 1);
    map.insert(3, 4);

    assert_eq!(map.get(2).unwrap(), 1);
}

#[test]
fn test_entry() {
    let xs = [(1, 10), (2, 20), (3, 30), (4, 40), (5, 50), (6, 60)];

    let mut map = from_pairs(&xs);

    match map.entry(1) {
        Entry::Vacant(_) => unreachable!(),
        Entry::Occupied(mut view) => {
            assert_eq!(view.get(), 10);
            assert_eq!(view.insert(100), 10);
        }
    }
    assert_eq!(map.get(1).unwrap(), 100);
    assert_eq!(map.len(), 6);

    match map.entry(2) {
        Entry::Vacant(_) => unreachable!(),
        Entry::Occupied(mut view) => {
            let v = view.get_mut();
            let new_v = (*v) * 10;
            *v = new_v;
        }
    }
    assert_eq!(map.get(2).unwrap(), 200);
    assert_eq!(map.len(), 6);

    match map.entry(3) {
        Entry::Vacant(_) => unreachable!(),
        Entry::Occupied(view) => {
            assert_eq!(view.remove(), 30);
        }
    }
    assert_eq!(map.get(3), None);
    assert_eq!(map.len(), 5);

    match map.entry(10) {
        Entry::Occupied(_) => unreachable!(),
        Entry::Vacant(view) => {
            assert_eq!(*view.insert(1000), 1000);
        }
    }
    assert_eq!(map.get(10).unwrap(), 1000);
    assert_eq!(map.len(), 6);
}

#[test]
fn test_extend_ref_k_ref_v() {
    let mut a = HashSlabMap::new();
    a.insert(1, 1);
    let mut b = HashSlabMap::new();
    b.insert(2, 2);
    b.insert(3, 3);

    a.extend(b.iter());

    assert_eq!(a.len(), 3);
    assert_eq!(a.get(1).unwrap(), 1);
    assert_eq!(a.get(2).unwrap(), 2);
    assert_eq!(a.get(3).unwrap(), 3);
}

#[test]
fn test_capacity_not_less_than_len() {
    let mut a = HashSlabMap::new();
    let mut item = 0;

    for _ in 0..116 {
        a.insert(item, 0);
        item += 1;
    }

    assert!(a.capacity() > a.len());

    let free = a.capacity() - a.len();
    for _ in 0..free {
        a.insert(item, 0);
        item += 1;
    }

    assert_eq!(a.len(), a.capacity());

    a.insert(item, 0);
    assert!(a.capacity() > a.len());
}

#[test]
fn test_occupied_entry_key() {
    let mut a = HashSlabMap::new();
    let key = 17;
    let value = 42;
    assert!(a.is_empty());
    a.insert(key, value);
    assert_eq!(a.len(), 1);
    assert_eq!(a.get(key).unwrap(), value);

    match a.entry(key) {
        Entry::Vacant(_) => panic!(),
        Entry::Occupied(e) => assert_eq!(key, e.key()),
    }
    assert_eq!(a.len(), 1);
    assert_eq!(a.get(key).unwrap(), value);
}

#[test]
fn test_vacant_entry_key() {
    let mut a = HashSlabMap::new();
    let key = 17;
    let value = 42;

    assert!(a.is_empty());
    match a.entry(key) {
        Entry::Occupied(_) => panic!(),
        Entry::Vacant(e) => {
            assert_eq!(key, e.key());
            e.insert(value);
        }
    }
    assert_eq!(a.len(), 1);
    assert_eq!(a.get(key).unwrap(), value);
}

#[test]
fn test_try_reserve() {
    const MAX_ISIZE: usize = isize::MAX as usize;

    let mut empty_bytes = HashSlabMap::new();

    if let Err(TryReserveError::CapacityOverflow) = empty_bytes.try_reserve(usize::MAX) {
    } else {
        panic!("usize::MAX should trigger an overflow!");
    }

    if let Err(TryReserveError::CapacityOverflow) = empty_bytes.try_reserve(MAX_ISIZE) {
    } else {
        panic!("isize::MAX should trigger an overflow!");
    }

    let mut vec = Vec::new();
    const SUCC_SIZE: usize = MAX_ISIZE / 256;
    for n in 0.. {
        let mut empty_bytes = HashSlabMap::new();
        match empty_bytes.try_reserve(SUCC_SIZE) {
            Ok(()) => {}
            Err(TryReserveError::AllocError { .. }) => break,
            Err(err) => panic!("iter #{n}: {SUCC_SIZE} should trigger an OOM, not {err:?}"),
        }
        vec.push(empty_bytes);
    }
}

#[test]
fn hashbrown_test_zero_capacities() {
    let m = HashSlabMap::new();
    assert_eq!(m.capacity(), 0);

    let m = HashSlabMap::default();
    assert_eq!(m.capacity(), 0);

    let m = HashSlabMap::with_capacity(0);
    assert_eq!(m.capacity(), 0);

    let mut m = HashSlabMap::new();
    m.insert(1, 1);
    m.insert(2, 2);
    m.remove(1);
    m.remove(2);
    m.shrink_to_fit();
    assert_eq!(m.capacity(), 0);

    let mut m = HashSlabMap::new();
    m.reserve(0);
    assert_eq!(m.capacity(), 0);
}

#[test]
fn test_entry_take_doesnt_corrupt() {
    fn check(m: &HashSlabMap) {
        for k in m.keys() {
            assert!(m.contains_key(k), "{k} is in keys() but not in the map?");
        }
    }

    let mut m = HashSlabMap::new();

    let mut state = u64::from_le_bytes(*b"testseed");
    let mut gen_range = || {
        state = state.wrapping_mul(6364136223846793005).wrapping_add(1442695040888963407);
        ((state >> 33) % 20) as i64 - 10
    };

    for _ in 0..50 {
        let x = gen_range();
        m.insert(x, 0);
    }

    for _ in 0..1000 {
        let x = gen_range();
        match m.entry(x) {
            Entry::Vacant(_) => {}
            Entry::Occupied(e) => {
                e.remove();
            }
        }

        check(&m);
    }
}

#[test]
fn test_extend_ref_kv_tuple() {
    let mut a = HashSlabMap::new();
    a.insert(0, 0);

    fn create_arr(start: i64, step: i64) -> Vec<(i64, i64)> {
        let mut outs = vec![(start, start); 100];
        let mut element = step;
        outs.iter_mut().skip(1).for_each(|(k, v)| {
            *k += element;
            *v += element;
            element += step;
        });
        outs
    }

    let for_iter: Vec<(i64, i64)> = (0..100).map(|i| (i, i)).collect();
    let vec: Vec<(i64, i64)> = (100..200).map(|i| (i, i)).collect();
    a.extend(for_iter);
    a.extend(vec);
    a.extend(create_arr(200, 1));

    assert_eq!(a.len(), 300);

    for item in 0..300 {
        assert_eq!(a.get(item).unwrap(), item);
    }
}

#[test]
fn test_size_hint() {
    let xs = [(1, 1), (2, 2), (3, 3), (4, 4), (5, 5), (6, 6)];

    let map = from_pairs(&xs);

    let mut iter = map.iter().into_iter();

    for _ in iter.by_ref().take(3) {}

    assert_eq!(iter.size_hint(), (3, Some(3)));
}

#[test]
fn test_iter_len() {
    let xs = [(1, 1), (2, 2), (3, 3), (4, 4), (5, 5), (6, 6)];

    let map = from_pairs(&xs);

    let mut iter = map.iter().into_iter();

    for _ in iter.by_ref().take(3) {}

    assert_eq!(iter.len(), 3);
}

#[test]
fn with_seeded_hasher() {
    let mut map = HashSlabMap::with_hasher(0x5eed);
    assert_eq!(map.hasher(), 0x5eed);

    for i in 0..20 {
        map.insert(i, 0);
    }

    for i in (0..20).step_by(2) {
        map.remove(i);
    }

    let sample = (1..20).step_by(2).collect::<Vec<usize>>();
    let mut output = map.indices();
    output.sort();
    assert_eq!(sample, output);

    let other = HashSlabMap::with_capacity_and_hasher(8, 7);
    assert_eq!(other.hasher(), 7);
    assert!(other.capacity() >= 8);
    assert_eq!(HashSlabMap::new().hasher(), 0);
}

#[test]
fn test_values_mut() {
    let mut map = from_pairs(&[(1, 1), (2, 2), (3, 3)]);
    map.values_mut(|value| value * 2);
    let values = map.values();
    assert_eq!(values.len(), 3);
    assert!(values.contains(&2));
    assert!(values.contains(&4));
    assert!(values.contains(&6));
}
