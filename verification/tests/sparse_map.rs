use sparse_map::{Drain, Key, SparseMap};

fn drain_all<T>(drain: &mut Drain<T>) -> Vec<T> {
    let mut values = Vec::new();
    while let Some(value) = drain.next() {
        values.push(value);
    }
    values
}

#[test]
fn insert_and_get() {
    let mut map = SparseMap::new();

    let key = map.insert(42);
    assert_eq!(map.get(&key), Some(&42));
    assert!(map.contains(&key));
    assert_eq!(map.len(), 1);
}

#[test]
fn insert_and_insert_with_key_behave_equivalently() {
    let mut map = SparseMap::new();

    let k1 = map.insert(1);
    let k2 = map.insert_with_key(|_, _| 2);

    assert_eq!(k1.index(), 0);
    assert_eq!(k2.index(), 1);

    assert_eq!(map.slot(k1.index()), Some(&1));
    assert_eq!(map.slot(k2.index()), Some(&2));
}

#[test]
fn remove_invalidates_key() {
    let mut map = SparseMap::new();

    let key = map.insert(10);
    let removed = map.remove(&key);

    assert_eq!(removed, Some(10));
    assert_eq!(map.get(&key), None);
    assert!(!map.contains(&key));
    assert_eq!(map.len(), 0);
}

#[test]
fn insert_reuse_bumps_generation() {
    let mut map = SparseMap::new();

    let k1 = map.insert(1);
    map.remove(&k1);

    let k2 = map.insert(2);

    assert_eq!(k1.index(), k2.index());
    assert_ne!(k1.generation(), k2.generation());

    assert_eq!(map.get(&k1), None);
    assert_eq!(map.get(&k2), Some(&2));
}

#[test]
fn insert_with_key_reuse_bumps_generation() {
    let mut map = SparseMap::new();

    let k1 = map.insert_with_key(|_, _| 1);
    map.remove(&k1);

    let k2 = map.insert_with_key(|_, _| 2);

    assert_eq!(k1.index(), k2.index());
    assert_ne!(k1.generation(), k2.generation());

    assert_eq!(map.get(&k1), None);
    assert_eq!(map.get(&k2), Some(&2));
}

#[test]
fn get_mut_works() {
    let mut map = SparseMap::new();

    let key = map.insert(5);
    *map.get_mut(&key).unwrap() = 99;

    assert_eq!(map.get(&key), Some(&99));
}

#[test]
fn removing_twice_is_safe() {
    let mut map = SparseMap::new();

    let key = map.insert(7);
    assert_eq!(map.remove(&key), Some(7));
    assert_eq!(map.remove(&key), None);
}

#[test]
fn invalid_index_returns_none() {
    let mut map = SparseMap::<usize>::new();

    let fake_key = Key::new(999, 0);
    assert_eq!(map.get(&fake_key), None);
    assert_eq!(map.get_mut(&fake_key), None);
    assert!(!map.contains(&fake_key));
}

#[test]
fn take_returns_value() {
    let mut map = SparseMap::new();
    let key = map.insert(42);

    assert_eq!(map.take(&key), Some(42));
}

#[test]
fn take_makes_slot_empty_but_key_generation_preserved() {
    let mut map = SparseMap::new();
    let key = map.insert(42);

    map.take(&key);

    // Slot is empty so get/contains return nothing.
    assert_eq!(map.get(&key), None);
    assert!(!map.contains(&key));
    // Generation is intact so restore can use the same key.
    assert_eq!(map.generation_at(key.index()), Some(key.generation()));
}

#[test]
fn take_does_not_free_slot_for_reuse() {
    let mut map = SparseMap::new();
    let key = map.insert(1);
    map.take(&key);

    // Inserting a new value must go to a fresh slot, not key's slot.
    let key2 = map.insert(2);
    assert_ne!(key.index(), key2.index());
}

#[test]
fn take_invalid_key_returns_none() {
    let mut map = SparseMap::<i32>::new();
    let fake_key = Key::new(999, 0);
    assert_eq!(map.take(&fake_key), None);
}

#[test]
fn take_already_taken_returns_none() {
    let mut map = SparseMap::new();
    let key = map.insert(7);

    assert_eq!(map.take(&key), Some(7));
    assert_eq!(map.take(&key), None);
}

#[test]
fn restore_puts_value_back() {
    let mut map = SparseMap::new();
    let key = map.insert(10);

    map.take(&key);
    assert!(map.restore(&key, 10));

    assert_eq!(map.get(&key), Some(&10));
    assert!(map.contains(&key));
}

#[test]
fn restore_fails_if_slot_occupied() {
    let mut map = SparseMap::new();
    let key = map.insert(5);

    // Slot is occupied, restore should fail.
    assert!(!map.restore(&key, 99));
    // Original value is untouched.
    assert_eq!(map.get(&key), Some(&5));
}

#[test]
fn restore_fails_on_stale_key() {
    let mut map = SparseMap::new();
    let k1 = map.insert(1);
    map.remove(&k1);
    let _k2 = map.insert(2); // bumps generation on same slot

    // k1 is stale, restore must reject it.
    assert!(!map.restore(&k1, 99));
}

#[test]
fn restore_fails_on_invalid_index() {
    let mut map = SparseMap::<i32>::new();
    let fake_key = Key::new(999, 0);
    assert!(!map.restore(&fake_key, 42));
}

#[test]
fn take_restore_roundtrip_key_stays_valid() {
    let mut map = SparseMap::new();
    let key = map.insert(100);

    map.take(&key);
    assert!(map.restore(&key, 200));
    assert_eq!(map.get(&key), Some(&200));
}

#[test]
fn take_restore_allows_map_mutation_in_between() {
    let mut map = SparseMap::new();
    let key = map.insert(1);

    let value = map.take(&key).unwrap();
    // Insert and remove other entries while value is out.
    let other = map.insert(99);
    map.remove(&other);

    assert!(map.restore(&key, value));
    assert_eq!(map.get(&key), Some(&1));
}

#[test]
fn iter_yields_only_live_values() {
    let mut map = SparseMap::new();
    let _ = map.insert(1);
    let key = map.insert(2);
    let _ = map.insert(3);
    map.remove(&key);

    let mut values = map.iter().into_iter().copied().collect::<Vec<_>>();
    values.sort();
    assert_eq!(values, [1, 3]);
}

#[test]
fn iter_mut_allows_mutation() {
    let mut map = SparseMap::new();
    let _ = map.insert(1);
    let _ = map.insert(2);

    for value in map.iter_mut() {
        *value *= 10;
    }

    let mut values = map.iter().into_iter().copied().collect::<Vec<_>>();
    values.sort();
    assert_eq!(values, [10, 20]);
}

#[test]
fn drain_yields_all_and_empties() {
    let mut map = SparseMap::new();
    let _ = map.insert(1);
    let _ = map.insert(2);

    let mut drained = drain_all(&mut map.drain());
    drained.sort();
    assert_eq!(drained, [1, 2]);
    assert!(map.is_empty());
}

#[test]
fn drain_invalidates_keys_and_reuses_slots() {
    let mut map = SparseMap::new();
    let k1 = map.insert(1);
    drain_all(&mut map.drain()).len();

    assert_eq!(map.get(&k1), None);

    let k2 = map.insert(2);
    assert_eq!(k1.index(), k2.index());
    assert_ne!(k1.generation(), k2.generation());
}

#[test]
fn drain_dropped_early_still_empties() {
    let mut map = SparseMap::new();
    let _ = map.insert(1);
    let _ = map.insert(2);
    let _ = map.insert(3);

    {
        let mut drain = map.drain();
        let _ = drain.next();
    }

    assert!(map.is_empty());
}

#[test]
fn clear_empties_and_invalidates_keys() {
    let mut map = SparseMap::new();
    let key = map.insert(1);

    map.clear();

    assert!(map.is_empty());
    assert_eq!(map.get(&key), None);

    // Reusing the previous slot must carry a fresh generation so
    // the stale key stays invalid.
    let reused = map.insert(4);
    assert_eq!(key.index(), reused.index());
    assert_ne!(key.generation(), reused.generation());
    assert_eq!(map.get(&key), None);
}

#[test]
fn clear_leaves_reserved_slot_restorable() {
    let mut map = SparseMap::new();
    let key = map.insert(1);
    let value = map.take(&key).unwrap();

    // The value is checked out, so clear must not free its slot.
    map.clear();

    assert!(map.restore(&key, value));
    assert_eq!(map.get(&key), Some(&1));
}

#[test]
fn clear_inside_scope_preserves_scoped_value() {
    let mut map = SparseMap::new();
    let key = map.insert(1);
    let other = map.insert(2);

    // The scoped value is checked out while `clear` runs, so it
    // survives; the other live value is removed.
    map.scope(&key, |map, _| map.clear());

    assert_eq!(map.get(&key), Some(&1));
    assert_eq!(map.get(&other), None);
}
