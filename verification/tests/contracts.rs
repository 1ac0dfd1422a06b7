use sparse_map::{Key, SparseMap};

#[test]
fn insert_leaves_other_keys_alone() {
    let mut map = SparseMap::new();
    let a = map.insert("a");
    let b = map.insert("b");
    map.remove(&a);
    let c = map.insert("c");
    assert_eq!(c.index(), a.index());
    assert_eq!(c.generation(), a.generation() + 1);
    assert_eq!(map.get(&a), None);
    assert_eq!(map.get(&b), Some(&"b"));
    assert_eq!(map.get(&c), Some(&"c"));
    assert_eq!(map.len(), 2);
}

#[test]
fn new_slots_start_at_generation_zero() {
    let mut map = SparseMap::new();
    for i in 0..5usize {
        let key = map.insert(i);
        assert_eq!(key.index(), i);
        assert_eq!(key.generation(), 0);
    }
    assert_eq!(map.len(), 5);
}

#[test]
fn most_recently_freed_slot_is_reused_first() {
    let mut map = SparseMap::new();
    let k0 = map.insert(0);
    let k1 = map.insert(1);
    let k2 = map.insert(2);
    map.remove(&k0);
    map.remove(&k2);
    let a = map.insert(10);
    let b = map.insert(11);
    let c = map.insert(12);
    assert_eq!(a.index(), k2.index());
    assert_eq!(b.index(), k0.index());
    assert_eq!(c.index(), 3);
    assert_eq!(map.get(&k1), Some(&1));
}

#[test]
fn restore_after_remove_is_refused() {
    let mut map = SparseMap::new();
    let key = map.insert(1);
    assert_eq!(map.remove(&key), Some(1));
    // The slot is free, not reserved: the removed key cannot fill it.
    assert!(!map.restore(&key, 2));
    assert_eq!(map.get(&key), None);
    assert_eq!(map.len(), 0);
    let next = map.insert(3);
    assert_eq!(next.index(), key.index());
    assert_eq!(map.get(&next), Some(&3));
}

#[test]
fn forged_key_cannot_fill_a_free_slot() {
    let mut map = SparseMap::new();
    let key = map.insert(1);
    map.remove(&key);
    let forged = Key::new(key.index(), key.generation());
    assert!(!map.restore(&forged, 5));
    assert_eq!(map.take(&forged), None);
    assert_eq!(map.remove(&forged), None);
}

#[test]
fn len_does_not_count_a_checked_out_value() {
    let mut map = SparseMap::new();
    let key = map.insert(1);
    let _other = map.insert(2);
    assert_eq!(map.len(), 2);
    let value = map.take(&key).unwrap();
    assert_eq!(map.len(), 1);
    assert!(map.restore(&key, value));
    assert_eq!(map.len(), 2);
}

#[test]
fn take_then_restore_same_value_restores_the_map() {
    let mut map = SparseMap::new();
    let key = map.insert(vec![1, 2]);
    let before = map.clone();
    let value = map.take(&key).unwrap();
    assert!(map.restore(&key, value));
    assert_eq!(map, before);
}

#[test]
fn get_mut_on_checked_out_value_is_none() {
    let mut map = SparseMap::new();
    let key = map.insert(1);
    map.take(&key);
    assert_eq!(map.get_mut(&key), None);
    assert_eq!(map.remove(&key), None);
    assert!(map.restore(&key, 4));
    assert_eq!(map.get(&key), Some(&4));
}

#[test]
fn scope_returns_closure_result_and_puts_value_back() {
    let mut map = SparseMap::new();
    let key = map.insert(42);
    let inner = map
        .scope(&key, |map, value| {
            // The scoped value is checked out while the closure runs.
            assert!(!map.contains(&key));
            let k = map.insert(*value);
            *value += 2;
            k
        })
        .expect("Key should exist.");
    assert_eq!(map.get(&key), Some(&44));
    assert_eq!(map.get(&inner), Some(&42));
    assert_ne!(inner.index(), key.index());

    map.remove(&key);
    assert_eq!(map.get(&key), None);
}

#[test]
fn scope_on_dead_key_does_not_call_closure() {
    let mut map = SparseMap::new();
    let key = map.insert(1);
    map.remove(&key);
    let mut called = false;
    let result = map.scope(&key, |_, _| {
        called = true;
    });
    assert!(result.is_none());
    assert!(!called);
}

#[test]
fn insert_with_key_sees_its_own_key_and_may_insert() {
    let mut map = SparseMap::new();
    let mut inner = None;
    let key = map.insert_with_key(|map, key| {
        // The slot is reserved for `key`: nothing refers to it yet.
        assert!(!map.contains(&key));
        inner = Some(map.insert(7));
        key.index() * 100
    });
    let inner = inner.unwrap();
    assert_ne!(inner.index(), key.index());
    assert_eq!(map.get(&key), Some(&0));
    assert_eq!(map.get(&inner), Some(&7));
    assert_eq!(map.len(), 2);
}

#[test]
fn iter_and_drain_follow_slot_order() {
    let mut map = SparseMap::new();
    let a = map.insert('a');
    let _b = map.insert('b');
    let _c = map.insert('c');
    map.remove(&a);
    let _d = map.insert('d'); // reuses slot 0
    let values: Vec<char> = map.iter().into_iter().copied().collect();
    assert_eq!(values, ['d', 'b', 'c']);

    let mut drain = map.drain();
    assert_eq!(drain.next(), Some('d'));
    assert_eq!(drain.next(), Some('b'));
    assert_eq!(drain.next(), Some('c'));
    assert_eq!(drain.next(), None);
    assert_eq!(drain.next(), None);
    assert!(map.is_empty());
}

#[test]
fn iter_mut_writes_back_in_slot_order() {
    let mut map = SparseMap::new();
    let a = map.insert(1);
    let b = map.insert(2);
    let c = map.insert(3);
    map.take(&b);
    let refs = map.iter_mut();
    assert_eq!(refs.len(), 2);
    for (i, value) in refs.into_iter().enumerate() {
        *value = 100 + i;
    }
    assert_eq!(map.get(&a), Some(&100));
    assert_eq!(map.get(&c), Some(&101));
    assert!(map.restore(&b, 2));
}

#[test]
fn clear_frees_slots_in_order_and_bumps_generations() {
    let mut map = SparseMap::new();
    let k0 = map.insert(0);
    let k1 = map.insert(1);
    map.clear();
    assert_eq!(map.generation_at(0), Some(k0.generation() + 1));
    assert_eq!(map.generation_at(1), Some(k1.generation() + 1));
    // The last freed slot is reused first, at its next generation.
    let n = map.insert(5);
    assert_eq!(n.index(), 1);
    assert_eq!(n.generation(), 2);
    assert_eq!(map.get(&k1), None);
    assert_eq!(map.get(&n), Some(&5));
}

#[test]
fn placeholder_never_refers_to_a_value() {
    let mut map = SparseMap::new();
    for i in 0..3 {
        let _ = map.insert(i);
    }
    let p = Key::placeholder();
    assert_eq!(p.index(), usize::MAX);
    assert_eq!(p.generation(), u32::MAX);
    assert_eq!(map.get(&p), None);
    assert!(!map.contains(&p));
    assert_eq!(map.remove(&p), None);
    assert!(!map.restore(&p, 9));
}

#[test]
fn slot_and_generation_out_of_range() {
    let map = SparseMap::<u8>::new();
    assert_eq!(map.slot(0), None);
    assert_eq!(map.generation_at(0), None);
    assert!(map.is_empty());
    assert_eq!(map.len(), 0);
}

#[test]
fn default_is_empty_and_clone_copies() {
    let mut map: SparseMap<String> = SparseMap::default();
    assert!(map.is_empty());
    let key = map.insert("x".to_string());
    let copy = map.clone();
    assert_eq!(copy.get(&key), Some(&"x".to_string()));
    map.remove(&key);
    assert_eq!(copy.get(&key), Some(&"x".to_string()));
    assert_eq!(map.get(&key), None);
}

#[test]
fn readme_example() {
    let mut map = SparseMap::new();
    let k1 = map.insert(42);

    let k2 = map
        .scope(&k1, |map, value| {
            let k = map.insert(*value);
            *value += 2;

            k
        })
        .expect("Key should exist.");

    assert_eq!(map.get(&k1), Some(&44));
    assert_eq!(map.get(&k2), Some(&42));

    map.remove(&k1);
    assert_eq!(map.get(&k1), None);
}

#[test]
fn key_to_string_writes_index_and_generation() {
    assert_eq!(Key::new(3, 1).to_string(), "#3v1");
    assert_eq!(Key::new(0, 0).to_string(), "#0v0");
    assert_eq!(Key::new(1207, 40).to_string(), "#1207v40");
    assert_eq!(
        Key::placeholder().to_string(),
        format!("#{}v{}", usize::MAX, u32::MAX)
    );
}

#[test]
fn parts_round_trip() {
    let mut map = SparseMap::new();
    let a = map.insert(1);
    let b = map.insert(2);
    let c = map.insert(3);
    map.remove(&a);
    map.take(&b);
    let (buffer, generations, empty_slots) = map.clone().into_parts();
    assert_eq!(buffer, vec![None, None, Some(3)]);
    assert_eq!(generations, vec![0, 0, 0]);
    assert_eq!(empty_slots, vec![0]);
    let rebuilt = SparseMap::from_parts(buffer, generations, empty_slots).unwrap();
    assert_eq!(rebuilt, map);
    let mut rebuilt = rebuilt;
    // The slot outside the free list is still reserved for `b`.
    assert!(rebuilt.restore(&b, 20));
    assert_eq!(rebuilt.get(&c), Some(&3));
    assert_eq!(rebuilt.len(), 2);
    assert_eq!(rebuilt.insert(4).index(), a.index());
}

#[test]
fn from_parts_rejects_inconsistent_parts() {
    // One generation missing.
    assert!(SparseMap::<u8>::from_parts(vec![None, Some(1)], vec![0], vec![]).is_none());
    // Free slot out of range.
    assert!(SparseMap::<u8>::from_parts(vec![None], vec![0], vec![1]).is_none());
    // Free slot holding a value.
    assert!(SparseMap::<u8>::from_parts(vec![Some(1)], vec![0], vec![0]).is_none());
    // Free slot listed twice.
    assert!(SparseMap::<u8>::from_parts(vec![None, None], vec![0, 0], vec![1, 1]).is_none());
    // Empty parts make an empty map.
    let empty = SparseMap::<u8>::from_parts(vec![], vec![], vec![]).unwrap();
    assert!(empty.is_empty());
}

#[test]
fn generation_wraps_around_at_u32_max() {
    let mut map = SparseMap::from_parts(vec![None], vec![u32::MAX], vec![0]).unwrap();
    let key = map.insert('a');
    assert_eq!(key.index(), 0);
    assert_eq!(key.generation(), 0);
    assert_eq!(map.get(&key), Some(&'a'));

    let mut map = SparseMap::from_parts(vec![Some('b')], vec![u32::MAX], vec![]).unwrap();
    let old = Key::new(0, u32::MAX);
    assert_eq!(map.get(&old), Some(&'b'));
    map.clear();
    assert_eq!(map.generation_at(0), Some(0));
    assert_eq!(map.get(&old), None);
}

#[test]
fn scope_takes_the_slot_back_when_the_closure_freed_it() {
    let mut map = SparseMap::new();
    let key = map.insert(1);
    let other = map.insert(2);
    map.scope(&key, |map, value| {
        // Put a value back under the key, then remove it: the slot is free.
        assert!(map.restore(&key, 10));
        assert_eq!(map.remove(&key), Some(10));
        *value += 5;
    });
    // The scoped value goes back to the same slot and the key stays valid.
    assert_eq!(map.get(&key), Some(&6));
    assert_eq!(map.get(&other), Some(&2));
    assert_eq!(map.len(), 2);
    // The slot is no longer free: the next insertion takes a new slot.
    let next = map.insert(3);
    assert_ne!(next.index(), key.index());
    assert_eq!(map.get(&key), Some(&6));
}

#[test]
fn insert_with_key_takes_the_slot_back_when_create_freed_it() {
    let mut map = SparseMap::new();
    let key = map.insert_with_key(|map, key| {
        assert!(map.restore(&key, 1));
        assert_eq!(map.remove(&key), Some(1));
        2
    });
    assert_eq!(map.get(&key), Some(&2));
    assert_eq!(map.len(), 1);
    let next = map.insert(3);
    assert_ne!(next.index(), key.index());
}

#[test]
fn scope_drops_the_value_when_the_slot_was_reused() {
    let mut map = SparseMap::new();
    let key = map.insert(1);
    let mut reused = None;
    map.scope(&key, |map, _| {
        assert!(map.restore(&key, 10));
        map.remove(&key);
        reused = Some(map.insert(20));
    });
    let reused = reused.unwrap();
    assert_eq!(reused.index(), key.index());
    assert_eq!(map.get(&key), None);
    assert_eq!(map.get(&reused), Some(&20));
}
