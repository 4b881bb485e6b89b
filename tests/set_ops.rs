use hashslab::map::HashSlabMap;
use hashslab::set::HashSlabSet;

#[test]
fn test_disjoint() {
    let mut xs = HashSlabSet::new();
    let mut ys = HashSlabSet::new();
    assert!(xs.is_disjoint(&ys));
    assert!(ys.is_disjoint(&xs));
    assert!(xs.insert(5));
    assert!(ys.insert(11));
    assert!(xs.is_disjoint(&ys));
    assert!(ys.is_disjoint(&xs));
    assert!(xs.insert(7));
    assert!(xs.insert(19));
    assert!(xs.insert(4));
    assert!(ys.insert(2));
    assert!(ys.insert(-11));
    assert!(xs.is_disjoint(&ys));
    assert!(ys.is_disjoint(&xs));
    assert!(ys.insert(7));
    assert!(!xs.is_disjoint(&ys));
    assert!(!ys.is_disjoint(&xs));
}

#[test]
fn test_subset_and_superset() {
    let mut a = HashSlabSet::new();
    assert!(a.insert(0));
    assert!(a.insert(5));
    assert!(a.insert(11));
    assert!(a.insert(7));

    let mut b = HashSlabSet::new();
    assert!(b.insert(0));
    assert!(b.insert(7));
    assert!(b.insert(19));
    assert!(b.insert(250));
    assert!(b.insert(11));
    assert!(b.insert(200));

    assert!(!a.is_subset(&b));
    assert!(!a.is_superset(&b));
    assert!(!b.is_subset(&a));
    assert!(!b.is_superset(&a));

    assert!(b.insert(5));

    assert!(a.is_subset(&b));
    assert!(!a.is_superset(&b));
    assert!(!b.is_subset(&a));
    assert!(b.is_superset(&a));
}

#[test]
fn set_test_iterate() {
    let mut a = HashSlabSet::new();
    for i in 0..32 {
        assert!(a.insert(i));
    }
    let mut observed: u32 = 0;
    for k in a.iter() {
        observed |= 1 << k;
    }
    assert_eq!(observed, 0xFFFF_FFFF);
}

#[test]
fn test_intersection() {
    let mut a = HashSlabSet::new();
    let mut b = HashSlabSet::new();

    assert!(a.insert(11));
    assert!(a.insert(1));
    assert!(a.insert(3));
    assert!(a.insert(77));
    assert!(a.insert(103));
    assert!(a.insert(5));
    assert!(a.insert(-5));

    assert!(b.insert(2));
    assert!(b.insert(11));
    assert!(b.insert(77));
    assert!(b.insert(-9));
    assert!(b.insert(-42));
    assert!(b.insert(5));
    assert!(b.insert(3));

    let mut i = 0;
    let expected = [3, 5, 11, 77];
    for x in a.intersection(&b) {
        assert!(expected.contains(&x));
        i += 1;
    }
    assert_eq!(i, expected.len());
}

#[test]
fn test_difference() {
    let mut a = HashSlabSet::new();
    let mut b = HashSlabSet::new();

    assert!(a.insert(1));
    assert!(a.insert(3));
    assert!(a.insert(5));
    assert!(a.insert(9));
    assert!(a.insert(11));

    assert!(b.insert(3));
    assert!(b.insert(9));

    let mut i = 0;
    let expected = [1, 5, 11];
    for x in a.difference(&b) {
        assert!(expected.contains(&x));
        i += 1;
    }
    assert_eq!(i, expected.len());
}

#[test]
fn test_symmetric_difference() {
    let mut a = HashSlabSet::new();
    let mut b = HashSlabSet::new();

    assert!(a.insert(1));
    assert!(a.insert(3));
    assert!(a.insert(5));
    assert!(a.insert(9));
    assert!(a.insert(11));

    assert!(b.insert(-2));
    assert!(b.insert(3));
    assert!(b.insert(9));
    assert!(b.insert(14));
    assert!(b.insert(22));

    let mut i = 0;
    let expected = [-2, 1, 5, 11, 14, 22];
    for x in a.symmetric_difference(&b) {
        assert!(expected.contains(&x));
        i += 1;
    }
    assert_eq!(i, expected.len());
}

#[test]
fn test_union() {
    let mut a = HashSlabSet::new();
    let mut b = HashSlabSet::new();

    assert!(a.insert(1));
    assert!(a.insert(3));
    assert!(a.insert(5));
    assert!(a.insert(9));
    assert!(a.insert(11));
    assert!(a.insert(16));
    assert!(a.insert(19));
    assert!(a.insert(24));

    assert!(b.insert(-2));
    assert!(b.insert(1));
    assert!(b.insert(5));
    assert!(b.insert(9));
    assert!(b.insert(13));
    assert!(b.insert(19));

    let mut i = 0;
    let expected = [-2, 1, 3, 5, 9, 11, 13, 16, 19, 24];
    for x in a.union(&b) {
        assert!(expected.contains(&x));
        i += 1;
    }
    assert_eq!(i, expected.len());
}

#[test]
fn set_test_from_iter() {
    let xs = [1, 2, 2, 3, 4, 5, 6, 7, 8, 9];

    let set = HashSlabSet::from_iter(xs.to_vec());

    for x in &xs {
        assert!(set.contains(*x));
    }

    assert_eq!(set.iter().len(), xs.len() - 1);
}

#[test]
fn test_move_iter() {
    let hs = {
        let mut hs = HashSlabSet::new();

        hs.insert('a' as i64);
        hs.insert('b' as i64);

        hs
    };

    let v = hs.into_iter();
    assert!(v == ['a' as i64, 'b' as i64] || v == ['b' as i64, 'a' as i64]);
}

#[test]
fn set_test_eq() {
    let mut s1 = HashSlabSet::new();

    s1.insert(1);
    s1.insert(2);
    s1.insert(3);

    let mut s2 = HashSlabSet::new();

    s2.insert(1);
    s2.insert(2);

    assert!(!s1.eq(&s2));

    s2.insert(3);

    assert!(s1.eq(&s2));
}

#[test]
fn test_trivial_drain() {
    let mut s = HashSlabSet::new();
    for _ in s.drain() {}
    assert!(s.is_empty());

    let mut s = HashSlabSet::new();
    drop(s.drain());
    assert!(s.is_empty());
}

#[test]
fn test_drain() {
    let mut s = HashSlabSet::from_iter((1..100).collect());

    for _ in 0..20 {
        assert_eq!(s.len(), 99);

        {
            let mut last_i = 0;
            let d = s.drain();
            for (i, x) in d.into_iter().take(50).enumerate() {
                last_i = i;
                assert!(x != 0);
            }
            assert_eq!(last_i, 49);
        }

        if !s.is_empty() {
            panic!("s should be empty!");
        }

        s.extend((1..100).collect());
    }
}

#[test]
fn test_replace() {
    let mut s = HashSlabSet::new();
    assert_eq!(s.replace(1), None);
    assert_eq!(s.len(), 1);
    assert_eq!(s.replace(1), Some(1));
    assert_eq!(s.len(), 1);

    let it = s.iter();
    assert_eq!(it, vec![1]);
}

#[test]
fn test_extend_ref() {
    let mut a = HashSlabSet::new();
    a.insert(1);

    a.extend(vec![2, 3, 4]);

    assert_eq!(a.len(), 4);
    assert!(a.contains(1));
    assert!(a.contains(2));
    assert!(a.contains(3));
    assert!(a.contains(4));

    let mut b = HashSlabSet::new();
    b.insert(5);
    b.insert(6);

    a.extend(b.iter());

    assert_eq!(a.len(), 6);
    assert!(a.contains(1));
    assert!(a.contains(2));
    assert!(a.contains(3));
    assert!(a.contains(4));
    assert!(a.contains(5));
    assert!(a.contains(6));
}

#[test]
fn test_retain() {
    let xs = [1, 2, 3, 4, 5, 6];
    let mut set = HashSlabSet::from_iter(xs.to_vec());
    set.retain(|k| k % 2 == 0);
    assert_eq!(set.len(), 3);
    assert!(set.contains(2));
    assert!(set.contains(4));
    assert!(set.contains(6));
}

#[test]
fn test_const_with_hasher() {
    let mut set = HashSlabSet::new();
    set.insert(19);
    assert!(set.contains(19));
}

#[test]
fn rehash_in_place() {
    let mut set = HashSlabSet::new();

    for i in 0..224 {
        set.insert(i);
    }

    assert_eq!(
        set.capacity(),
        224,
        "The set must be at or close to capacity to trigger a re hashing"
    );

    for i in 100..1400 {
        set.remove(i - 100);
        set.insert(i);
    }
}

#[test]
fn set_indices_and_lookups() {
    let mut set = HashSlabSet::new();
    assert_eq!(set.insert_full(10), (0, true));
    assert_eq!(set.insert_full(20), (1, true));
    assert_eq!(set.insert_full(10), (0, false));
    assert_eq!(set.replace_full(30), (2, None));
    assert_eq!(set.replace_full(20), (1, Some(20)));
    assert_eq!(set.get_full(20), Some((1, 20)));
    assert_eq!(set.get(30), Some(30));
    assert_eq!(set.get(40), None);
    assert_eq!(set.get_index_of(30), Some(2));
    assert_eq!(set.get_index(0), Some(10));
    assert_eq!(set.remove_full(10), Some((0, 10)));
    assert_eq!(set.get_index(0), None);
    assert_eq!(set.insert_full(50), (0, true));
    assert_eq!(set.take(50), Some(50));
    assert_eq!(set.take(50), None);
    assert_eq!(set.remove_index(1), Some(20));
    assert_eq!(set.remove_index(1), None);
    let mut full = set.iter_full();
    full.sort();
    assert_eq!(full, vec![(2, 30)]);
}

#[test]
fn set_append_and_clone() {
    let mut a = HashSlabSet::from_iter(vec![1, 2, 3]);
    let mut b = HashSlabSet::from_iter(vec![3, 4]);
    let copy = a.clone();
    a.append(&mut b);
    assert!(b.is_empty());
    assert_eq!(a.len(), 4);
    assert!(a.is_superset(&copy));
    assert!(!a.eq(&copy));
    let index_of_one = copy.get_index_of(1);
    assert_eq!(a.get_index_of(1), index_of_one);
    a.clear();
    assert!(a.is_empty());
    assert_eq!(a.try_reserve(10), Ok(()));
    assert!(a.capacity() >= 10);
    a.shrink_to_fit();
    a.reserve(5);
    assert!(a.capacity() >= 5);
}

#[test]
fn set_test_zero_capacities() {
    let s = HashSlabSet::new();
    assert_eq!(s.capacity(), 0);

    let s = HashSlabSet::default();
    assert_eq!(s.capacity(), 0);

    let s = HashSlabSet::with_capacity(0);
    assert_eq!(s.capacity(), 0);

    let mut s = HashSlabSet::new();
    s.insert(1);
    s.insert(2);
    s.remove(1);
    s.remove(2);
    s.shrink_to_fit();
    assert_eq!(s.capacity(), 0);

    let mut s = HashSlabSet::new();
    s.reserve(0);
    assert_eq!(s.capacity(), 0);
}

#[test]
fn test_from_map() {
    let mut a = HashSlabMap::new();
    a.insert(1, 0);
    a.insert(2, 0);
    a.insert(3, 0);
    a.insert(4, 0);

    let a = HashSlabSet::from_map(a);

    assert_eq!(a.len(), 4);
    assert!(a.contains(1));
    assert!(a.contains(2));
    assert!(a.contains(3));
    assert!(a.contains(4));
}

#[test]
fn set_with_seeded_hasher() {
    let mut set = HashSlabSet::with_hasher(99);
    assert_eq!(set.hasher(), 99);
    set.insert(19);
    assert!(set.contains(19));
    let other = HashSlabSet::with_capacity_and_hasher(4, 3);
    assert_eq!(other.hasher(), 3);
    assert!(other.capacity() >= 4);
}
