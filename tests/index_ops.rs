use hashslab::map::HashSlabMap;

#[test]
fn it_works() {
    let mut map = HashSlabMap::new();
    assert_eq!(map.is_empty(), true);
    map.insert(1, 0);
    map.insert(1, 0);
    assert_eq!(map.len(), 1);
    assert!(map.get(1).is_some());
    assert_eq!(map.is_empty(), false);
}

#[test]
fn new() {
    let map = HashSlabMap::new();
    assert_eq!(map.capacity(), 0);
    assert_eq!(map.len(), 0);
    assert_eq!(map.is_empty(), true);
}

#[test]
fn insert() {
    let insert = [0, 4, 2, 12, 8, 7, 11, 5];
    let not_present = [1, 3, 6, 9, 10];
    let mut map = HashSlabMap::with_capacity(insert.len());

    for (i, &elt) in insert.iter().enumerate() {
        assert_eq!(map.len(), i);
        map.insert(elt, elt);
        assert_eq!(map.len(), i + 1);
        assert_eq!(map.get(elt), Some(elt));
        assert_eq!(map.get(elt).unwrap(), elt);
    }

    for &elt in &not_present {
        assert!(map.get(elt).is_none());
    }
}

#[test]
fn insert_full() {
    let insert = vec![9, 2, 7, 1, 4, 6, 13];
    let present = vec![1, 6, 2];
    let mut map = HashSlabMap::with_capacity(insert.len());

    for (i, &elt) in insert.iter().enumerate() {
        assert_eq!(map.len(), i);
        let (index, existing) = map.insert_full(elt, elt);
        assert_eq!(existing, None);
        assert_eq!(Some(index), map.get_full(elt).map(|x| x.0));
        assert_eq!(map.len(), i + 1);
    }

    let len = map.len();
    for &elt in &present {
        let (index, existing) = map.insert_full(elt, elt);
        assert_eq!(existing, Some(elt));
        assert_eq!(Some(index), map.get_full(elt).map(|x| x.0));
        assert_eq!(map.len(), len);
    }
}

#[test]
fn insert_2() {
    let mut map = HashSlabMap::with_capacity(16);

    let mut keys = vec![];
    keys.extend(0..16);
    keys.extend(128..267);

    for &i in &keys {
        let old_map = map.clone();
        map.insert(i, 0);
        for key in old_map.keys() {
            if map.get(key).is_none() {
                panic!("did not find {} in map", key);
            }
        }
    }

    for &i in &keys {
        assert!(map.get(i).is_some(), "did not find {}", i);
    }
}

#[test]
fn grow() {
    let insert = [0, 4, 2, 12, 8, 7, 11];
    let not_present = [1, 3, 6, 9, 10];
    let mut map = HashSlabMap::with_capacity(insert.len());

    for (i, &elt) in insert.iter().enumerate() {
        assert_eq!(map.len(), i);
        map.insert(elt, elt);
        assert_eq!(map.len(), i + 1);
        assert_eq!(map.get(elt), Some(elt));
        assert_eq!(map.get(elt).unwrap(), elt);
    }

    for &elt in &insert {
        map.insert(elt * 10, elt);
    }
    for &elt in &insert {
        map.insert(elt * 100, elt);
    }
    for (i, &elt) in insert.iter().cycle().enumerate().take(100) {
        map.insert(elt * 100 + i as i64, elt);
    }
    for &elt in &not_present {
        assert!(map.get(elt).is_none());
    }
}

#[test]
fn reserve() {
    let mut map = HashSlabMap::new();
    assert_eq!(map.capacity(), 0);
    map.reserve(100);
    let capacity = map.capacity();
    assert!(capacity >= 100);
    for i in 0..capacity as i64 {
        assert_eq!(map.len(), i as usize);
        map.insert(i, i * i);
        assert_eq!(map.len(), i as usize + 1);
        assert_eq!(map.capacity(), capacity);
        assert_eq!(map.get(i), Some(i * i));
    }
    map.insert(capacity as i64, i64::MAX);
    assert_eq!(map.len(), capacity + 1);
    assert!(map.capacity() > capacity);
    assert_eq!(map.get(capacity as i64), Some(i64::MAX));
}

#[test]
fn try_reserve() {
    let mut map = HashSlabMap::new();
    assert_eq!(map.capacity(), 0);
    assert_eq!(map.try_reserve(100), Ok(()));
    assert!(map.capacity() >= 100);
    assert!(map.try_reserve(usize::MAX).is_err());
}

#[test]
fn shrink_to_fit() {
    let mut map = HashSlabMap::new();
    assert_eq!(map.capacity(), 0);
    for i in 0..100 {
        assert_eq!(map.len(), i);
        map.insert(i as i64, (i * i) as i64);
        assert_eq!(map.len(), i + 1);
        assert!(map.capacity() >= i + 1);
        assert_eq!(map.get(i as i64), Some((i * i) as i64));
        map.shrink_to_fit();
        assert_eq!(map.len(), i + 1);
        assert_eq!(map.capacity(), i + 1);
        assert_eq!(map.get(i as i64), Some((i * i) as i64));
    }
}

#[test]
fn remove() {
    let insert = [0, 4, 2, 12, 8, 7, 11, 5, 3, 17, 19, 22, 23];
    let mut map = HashSlabMap::new();

    for &elt in &insert {
        map.insert(elt, elt);
    }

    assert_eq!(map.keys().len(), map.len());
    assert_eq!(map.keys().len(), insert.len());

    let remove_fail = [99, 77];
    let remove = [4, 12, 8, 7];

    for &key in &remove_fail {
        assert!(map.remove_full(key).is_none());
    }
    for &key in &remove {
        let index = map.get_full(key).unwrap().0;
        assert_eq!(map.remove_full(key), Some((index, key, key)));
    }

    for key in &insert {
        assert_eq!(map.get(*key).is_some(), !remove.contains(key));
    }
    assert_eq!(map.len(), insert.len() - remove.len());
    assert_eq!(map.keys().len(), insert.len() - remove.len());
}

#[test]
fn remove_to_empty() {
    let mut map = HashSlabMap::from_iter(vec![(0, 0), (4, 4), (5, 5)]);
    map.remove(5).unwrap();
    map.remove(4).unwrap();
    map.remove(0).unwrap();
    assert!(map.is_empty());
}

#[test]
fn remove_index() {
    let insert = [0, 4, 2, 12, 8, 7, 11, 5, 3, 17, 19, 22, 23];
    let mut map = HashSlabMap::new();

    let mut vector = Vec::new();
    for &elt in &insert {
        map.insert(elt, elt * 1000);
        vector.push(Some(elt));
    }

    let remove_index_seq = &[3, 3, 10, 4, 5, 4, 0, 1, 3];

    for &idx in remove_index_seq {
        let out_vec = vector[idx];
        vector[idx] = None;
        let out_map = map.remove_index(idx).map(|(k, _)| k);
        assert_eq!(out_vec, out_map);
    }
    assert_eq!(vector.iter().filter(|v| v.is_some()).count(), map.len());
    for i in 0..insert.len() {
        assert_eq!(map.get_index(i).map(|v| v.0), vector[i]);
    }
}

#[test]
fn partial_eq_and_eq() {
    let mut map_a = HashSlabMap::new();
    map_a.insert(1, 1);
    map_a.insert(2, 2);
    let mut map_b = map_a.clone();
    assert!(map_a.eq(&map_b));
    map_b.remove(1);
    assert!(!map_a.eq(&map_b));

    let map_c = HashSlabMap::from_iter(map_b.into_iter());
    assert!(!map_a.eq(&map_c));
    assert!(!map_c.eq(&map_a));
}

#[test]
fn extend() {
    let mut map = HashSlabMap::new();
    map.extend(vec![(1, 2), (3, 4)]);
    map.extend(vec![(5, 6)]);
    let mut result = map.into_iter();
    result.sort();
    assert_eq!(vec![(1, 2), (3, 4), (5, 6)], result);
}

#[test]
fn keys() {
    let map = HashSlabMap::from_iter(vec![(1, 'a' as i64), (2, 'b' as i64), (3, 'c' as i64)]);
    let keys = map.keys();
    assert_eq!(keys.len(), 3);
    assert!(keys.contains(&1));
    assert!(keys.contains(&2));
    assert!(keys.contains(&3));
}

#[test]
fn into_keys() {
    let map = HashSlabMap::from_iter(vec![(1, 'a' as i64), (2, 'b' as i64), (3, 'c' as i64)]);
    let keys = map.into_keys();
    assert_eq!(keys.len(), 3);
    assert!(keys.contains(&1));
    assert!(keys.contains(&2));
    assert!(keys.contains(&3));
}

#[test]
fn values() {
    let map = HashSlabMap::from_iter(vec![(1, 'a' as i64), (2, 'b' as i64), (3, 'c' as i64)]);
    let values = map.values();
    assert_eq!(values.len(), 3);
    assert!(values.contains(&('a' as i64)));
    assert!(values.contains(&('b' as i64)));
    assert!(values.contains(&('c' as i64)));
}

#[test]
fn into_values() {
    let map = HashSlabMap::from_iter(vec![(1, 'a' as i64), (2, 'b' as i64), (3, 'c' as i64)]);
    let values = map.into_values();
    assert_eq!(values.len(), 3);
    assert!(values.contains(&('a' as i64)));
    assert!(values.contains(&('b' as i64)));
    assert!(values.contains(&('c' as i64)));
}

#[test]
fn drain() {
    let vec: Vec<i64> = (0..100).collect();
    let mut map = HashSlabMap::from_iter((0..100).map(|i| (i, 0)).collect());
    let drained = map.drain();
    assert_eq!(drained.len(), vec.len());

    for (k, _) in drained {
        assert!(vec.as_slice().contains(&k));
    }
}

#[test]
fn from_array() {
    let map = HashSlabMap::from_iter(vec![(1, 2), (3, 4)]);
    let mut expected = HashSlabMap::new();
    expected.insert(1, 2);
    expected.insert(3, 4);

    assert!(map.eq(&expected))
}

#[test]
fn values_mut() {
    let mut map = HashSlabMap::from_iter(vec![(1, 1), (2, 2), (3, 3)]);
    map.values_mut(|value| value * 2);
    let values = map.values();
    assert_eq!(values.len(), 3);
    assert!(values.contains(&2));
    assert!(values.contains(&4));
    assert!(values.contains(&6));
}
