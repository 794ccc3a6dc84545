use idmap::{DirectIdMap, IdMap, OrderedIdMap};

#[test]
fn dense_two_entries() {
    let mut map: IdMap<u64, &str> = IdMap::with_capacity(2);
    map.extend(vec![(1, "a"), (25, "b")]);
    assert_eq!(map.len(), 2);
    assert_eq!(*map.index(1), "a");
    assert_eq!(*map.index(25), "b");
    assert_eq!(map.get(1), Some(&"a"));
    assert_eq!(map.get(26), None);
    assert_eq!(map.keys().next(), Some(&1));
}

#[test]
fn direct_two_entries() {
    let mut map: DirectIdMap<u64, &str> = IdMap::with_capacity_direct(2);
    map.extend(vec![(1, "a"), (25, "b")]);
    assert_eq!(*map.index(1), "a");
    assert_eq!(*map.index(25), "b");
    assert_eq!(map.get(26), None);
    assert!(!map.contains_key(26));
    assert_eq!(map.keys().next(), Some(&1));
}

#[test]
fn retain_even_keys_keeps_order() {
    let mut map: IdMap<usize, usize> = IdMap::from_iter((0..8usize).map(|x| (x, x * 10)).collect());
    map.retain(|k, _| k % 2 == 0);
    assert_eq!(map.into_iter().collect::<Vec<_>>(), vec![(0, 0), (2, 20), (4, 40), (6, 60)]);
}

#[test]
fn retain_even_keys_direct() {
    let mut map: DirectIdMap<usize, usize> = IdMap::from_iter((0..8usize).map(|x| (x, x * 10)).collect());
    map.retain(|k, _| k % 2 == 0);
    assert_eq!(map.into_iter().collect::<Vec<_>>(), vec![(0, 0), (2, 20), (4, 40), (6, 60)]);
}

#[test]
fn retain_by_value() {
    let mut map: IdMap<u32, i64> = IdMap::new();
    map.insert(3, -1);
    map.insert(9, 5);
    map.insert(4, 0);
    map.insert(1, 7);
    map.retain(|_, v| *v > 0);
    assert_eq!(map.len(), 2);
    assert_eq!(map.get(3), None);
    assert_eq!(map.get(4), None);
    assert_eq!(map.get(9), Some(&5));
    assert_eq!(map.get(1), Some(&7));
    assert_eq!(map.max_id(), Some(9));
}

#[test]
fn retain_nothing_empties() {
    let mut map: DirectIdMap<u64, u8> = IdMap::new_direct();
    map.insert(2, 1);
    map.insert(6, 2);
    map.retain(|_, _| false);
    assert!(map.is_empty());
    assert_eq!(map.max_id(), None);
    assert_eq!(map.raw_debug().raw_entries().len(), 0);
}

#[test]
fn insert_get_round_trip() {
    let keys: Vec<u64> = vec![7, 0, 13, 2, 40, 5];
    let mut dense: OrderedIdMap<u64, u64> = IdMap::new();
    let mut direct: DirectIdMap<u64, u64> = IdMap::new_direct();
    for &k in &keys {
        assert_eq!(dense.insert(k, k + 100), None);
        assert_eq!(direct.insert(k, k + 100), None);
    }
    for &k in &keys {
        assert_eq!(dense.get(k), Some(&(k + 100)));
        assert_eq!(direct.get(k), Some(&(k + 100)));
    }
    assert_eq!(dense.len(), keys.len());
    assert_eq!(direct.len(), keys.len());
}

#[test]
fn overwrite_returns_previous() {
    let mut dense: IdMap<u64, &str> = IdMap::new();
    assert_eq!(dense.insert(4, "x"), None);
    assert_eq!(dense.len(), 1);
    assert_eq!(dense.insert(4, "y"), Some("x"));
    assert_eq!(dense.len(), 1);
    assert_eq!(dense.get(4), Some(&"y"));

    let mut direct: DirectIdMap<u64, &str> = IdMap::new_direct();
    assert_eq!(direct.insert(4, "x"), None);
    assert_eq!(direct.insert(4, "y"), Some("x"));
    assert_eq!(direct.len(), 1);
    assert_eq!(direct.get(4), Some(&"y"));
}

#[test]
fn overwrite_keeps_position() {
    let mut map: IdMap<u64, u64> = IdMap::new();
    map.insert(5, 1);
    map.insert(2, 2);
    map.insert(5, 3);
    assert_eq!(map.into_iter().collect::<Vec<_>>(), vec![(5, 3), (2, 2)]);
}

#[test]
fn remove_present_and_absent() {
    let mut dense: IdMap<u64, u64> = IdMap::new();
    let mut direct: DirectIdMap<u64, u64> = IdMap::new_direct();
    for k in [1u64, 3, 8] {
        dense.insert(k, k);
        direct.insert(k, k);
    }
    assert_eq!(dense.remove(3), Some(3));
    assert_eq!(direct.remove(3), Some(3));
    assert_eq!(dense.get(3), None);
    assert_eq!(direct.get(3), None);
    assert_eq!(dense.len(), 2);
    assert_eq!(direct.len(), 2);
    assert_eq!(dense.remove(3), None);
    assert_eq!(direct.remove(3), None);
    assert_eq!(dense.remove(100), None);
    assert_eq!(direct.remove(100), None);
    assert_eq!(dense.len(), 2);
    assert_eq!(direct.len(), 2);
}

#[test]
fn swap_remove_moves_last_entry() {
    let mut map: IdMap<u64, u64> = IdMap::new();
    for k in 0..4u64 {
        map.insert(k, k);
    }
    assert_eq!(map.remove(1), Some(1));
    let keys: Vec<u64> = map.into_iter().map(|(k, _)| k).collect();
    assert_eq!(keys, vec![0, 3, 2]);
}

#[test]
fn len_and_is_empty() {
    let mut map: IdMap<u64, u64> = IdMap::default();
    assert!(map.is_empty());
    assert_eq!(map.len(), 0);
    map.insert(0, 0);
    map.insert(1, 1);
    map.insert(0, 2);
    assert!(!map.is_empty());
    assert_eq!(map.len(), 2);
    map.remove(0);
    map.remove(1);
    assert!(map.is_empty());
    map.insert(9, 9);
    map.clear();
    assert!(map.is_empty());
    assert_eq!(map.get(9), None);
}

#[test]
fn max_id_tracks_present_keys() {
    let mut dense: IdMap<u64, ()> = IdMap::new();
    let mut direct: DirectIdMap<u64, ()> = IdMap::new_direct();
    assert_eq!(dense.max_id(), None);
    assert_eq!(direct.max_id(), None);
    for k in [4u64, 17, 9] {
        dense.insert(k, ());
        direct.insert(k, ());
    }
    assert_eq!(dense.max_id(), Some(17));
    assert_eq!(direct.max_id(), Some(17));
    dense.remove(17);
    direct.remove(17);
    assert_eq!(dense.max_id(), Some(9));
    assert_eq!(direct.max_id(), Some(9));
    dense.remove(4);
    direct.remove(4);
    dense.remove(9);
    direct.remove(9);
    assert_eq!(dense.max_id(), None);
    assert_eq!(direct.max_id(), None);
}

#[test]
fn backends_agree_after_same_operations() {
    let mut dense: OrderedIdMap<u64, u64> = IdMap::new();
    let mut direct: DirectIdMap<u64, u64> = IdMap::new_direct();
    let ops: Vec<(bool, u64, u64)> = vec![
        (true, 5, 50),
        (true, 1, 10),
        (true, 9, 90),
        (false, 1, 0),
        (true, 5, 55),
        (true, 0, 1),
        (false, 7, 0),
        (true, 12, 3),
        (false, 9, 0),
    ];
    for &(is_insert, k, v) in &ops {
        if is_insert {
            assert_eq!(dense.insert(k, v), direct.insert(k, v));
        } else {
            assert_eq!(dense.remove(k), direct.remove(k));
        }
    }
    assert!(dense.eq(&direct));
    assert!(direct.eq(&dense));
    assert_eq!(dense.len(), 3);
    assert_eq!(dense.max_id(), direct.max_id());
}

#[test]
fn maps_with_different_values_differ() {
    let mut a: IdMap<u64, u64> = IdMap::new();
    let mut b: DirectIdMap<u64, u64> = IdMap::new_direct();
    a.insert(1, 1);
    b.insert(1, 2);
    assert!(!a.eq(&b));
    b.insert(1, 1);
    assert!(a.eq(&b));
    b.insert(2, 2);
    assert!(!a.eq(&b));
    a.insert(3, 2);
    assert!(!a.eq(&b));
}

#[test]
fn iteration_skips_gaps_after_removal() {
    let mut map: DirectIdMap<u64, u64> = IdMap::new_direct();
    for k in [0u64, 2, 3, 6, 8] {
        map.insert(k, k * 2);
    }
    map.remove(3);
    map.remove(0);
    let mut seen = Vec::new();
    let mut it = map.iter();
    while let Some((k, v)) = it.next() {
        seen.push((*k, *v));
    }
    assert_eq!(seen, vec![(2, 4), (6, 12), (8, 16)]);
    let mut values = Vec::new();
    let mut vs = map.values();
    while let Some(v) = vs.next() {
        values.push(*v);
    }
    assert_eq!(values, vec![4, 12, 16]);
    let raw = map.raw_debug().raw_entries();
    assert_eq!(raw.len(), 9);
    assert_eq!(raw[0], None);
    assert_eq!(raw[2], Some((&2, &4)));
}

#[test]
fn iterator_size_hint_counts_slots() {
    let mut map: DirectIdMap<u64, u64> = IdMap::new_direct();
    map.insert(1, 1);
    map.insert(4, 4);
    let mut it = map.iter();
    assert_eq!(it.size_hint(), (0, Some(5)));
    it.next();
    assert_eq!(it.size_hint(), (0, Some(3)));
    it.next();
    assert_eq!(it.size_hint(), (0, Some(0)));
    assert_eq!(it.next(), None);
}

#[test]
fn mutable_iteration_updates_values() {
    let mut map: DirectIdMap<u64, u64> = IdMap::new_direct();
    map.insert(3, 1);
    map.insert(1, 2);
    {
        let mut it = map.iter_mut();
        while let Some((k, v)) = it.next() {
            *v += *k * 100;
        }
    }
    assert_eq!(map.get(1), Some(&102));
    assert_eq!(map.get(3), Some(&301));
    let mut dense: IdMap<u64, u64> = IdMap::new();
    dense.insert(2, 5);
    dense.insert(7, 6);
    {
        let mut vs = dense.values_mut();
        while let Some(v) = vs.next() {
            *v *= 10;
        }
    }
    assert_eq!(dense.get(2), Some(&50));
    assert_eq!(dense.get(7), Some(&60));
}

#[test]
fn get_mut_and_index_mut() {
    let mut map: IdMap<u64, String> = IdMap::new();
    map.insert(2, String::from("a"));
    if let Some(v) = map.get_mut(2) {
        v.push('b');
    }
    map.index_mut(2).push('c');
    assert_eq!(map.get(2).map(|s| s.as_str()), Some("abc"));
    assert!(map.get_mut(3).is_none());
}

#[test]
fn entry_occupied_and_vacant() {
    let mut map: IdMap<u64, u64> = IdMap::new();
    *map.entry(4).or_insert(1) += 10;
    assert_eq!(map.get(4), Some(&11));
    *map.entry(4).or_insert(1) += 10;
    assert_eq!(map.get(4), Some(&21));
    let v = map.entry(6).or_insert_with(|| 7);
    assert_eq!(*v, 7);
    match map.entry(6) {
        idmap::Entry::Occupied(mut e) => {
            assert_eq!(*e.key(), 6);
            assert_eq!(*e.get(), 7);
            *e.get_mut() = 8;
            assert_eq!(e.insert(9), 8);
        },
        idmap::Entry::Vacant(_) => panic!("key 6 should be present"),
    }
    assert_eq!(map.get(6), Some(&9));
    match map.entry(6) {
        idmap::Entry::Occupied(e) => assert_eq!(e.remove(), 9),
        idmap::Entry::Vacant(_) => panic!("key 6 should be present"),
    }
    assert_eq!(map.get(6), None);
    match map.entry(8) {
        idmap::Entry::Occupied(_) => panic!("key 8 should be absent"),
        idmap::Entry::Vacant(e) => {
            *e.insert(3) += 1;
        },
    }
    assert_eq!(map.get(8), Some(&4));
    assert_eq!(map.len(), 2);
}

#[test]
fn entry_on_direct_map() {
    let mut map: DirectIdMap<u32, u32> = IdMap::new_direct();
    *map.entry(10).or_insert_with(|| 1) += 1;
    *map.entry(10).or_insert_with(|| 1) += 1;
    assert_eq!(map.get(10), Some(&3));
    assert_eq!(map.max_id(), Some(10));
}

#[test]
fn from_iter_later_duplicates_overwrite() {
    let map: IdMap<u64, &str> = IdMap::from_iter(vec![(3, "a"), (1, "b"), (3, "c")]);
    assert_eq!(map.len(), 2);
    assert_eq!(map.into_iter().collect::<Vec<_>>(), vec![(3, "c"), (1, "b")]);
}

#[test]
fn clone_is_equal() {
    let mut map: IdMap<u64, u64> = IdMap::with_capacity_other(4);
    map.insert(2, 20);
    map.insert(0, 0);
    let copy = map.clone();
    assert!(copy.eq(&map));
    map.reserve(10);
    assert_eq!(map.len(), 2);
}

#[test]
fn clone_is_a_deep_copy() {
    let mut map: DirectIdMap<u64, String> = IdMap::new_direct();
    map.insert(3, String::from("x"));
    map.insert(1, String::from("y"));
    let mut copy = map.clone();
    copy.index_mut(3).push('!');
    copy.remove(1);
    assert_eq!(map.get(3).map(|s| s.as_str()), Some("x"));
    assert_eq!(map.get(1).map(|s| s.as_str()), Some("y"));
    assert_eq!(copy.get(3).map(|s| s.as_str()), Some("x!"));
    assert_eq!(copy.len(), 1);
    let again = map.clone();
    assert_eq!(again.raw_debug().raw_entries(), map.raw_debug().raw_entries());
}

#[test]
fn extend_from_borrowed_pairs() {
    let source: IdMap<u64, &str> = IdMap::from_iter(vec![(4, "d"), (2, "b")]);
    let pairs: Vec<(&u64, &&str)> = vec![(&4, &"d"), (&2, &"b"), (&4, &"e")];
    let copy: IdMap<u64, &str> = IdMap::from_iter_cloned(pairs);
    assert_eq!(copy.into_iter().collect::<Vec<_>>(), vec![(4, "e"), (2, "b")]);
    let mut target: DirectIdMap<u64, &str> = IdMap::new_direct();
    target.extend_cloned(vec![(&7, &"g")]);
    assert_eq!(target.get(7), Some(&"g"));
    assert_eq!(source.len(), 2);
}

#[test]
fn first_occurrence_fixes_position() {
    let map: IdMap<usize, &str> = IdMap::from_iter(vec![(1, "a"), (2, "b"), (1, "c")]);
    assert_eq!(map.len(), 2);
    assert_eq!(map.get(1), Some(&"c"));
    let mut keys = Vec::new();
    let mut k = map.keys();
    while let Some(x) = k.next() {
        keys.push(*x);
    }
    assert_eq!(keys, vec![1, 2]);
}
