use std::collections::HashSet;

use sparse_map::{Key, SparseMap};

#[test]
fn removed_key_stays_dead_through_many_cycles() {
    let mut map = SparseMap::new();
    let dead = map.insert(0u32);
    assert_eq!(map.remove(&dead), Some(0));
    for round in 0..50u32 {
        let k = map.insert(round);
        let v = map.take(&k).unwrap();
        assert!(map.restore(&k, v));
        map.scope(&k, |map, value| {
            *value += 1;
            let other = map.insert(7);
            map.remove(&other);
        });
        if round % 3 == 0 {
            map.clear();
        } else {
            map.remove(&k);
        }
        assert_eq!(map.get(&dead), None);
        assert!(!map.contains(&dead));
        assert_eq!(map.take(&dead), None);
        assert!(!map.restore(&dead, 99));
        assert_eq!(map.remove(&dead), None);
    }
}

#[test]
fn inserted_keys_are_never_repeated() {
    let mut map = SparseMap::new();
    let mut issued = HashSet::new();
    let mut live = Vec::new();
    for round in 0..200usize {
        let key = map.insert(round);
        assert!(issued.insert(key), "key {} handed out twice", key.to_string());
        live.push(key);
        if round % 2 == 1 {
            let victim = live.remove(round % live.len());
            map.remove(&victim);
        }
        if round % 37 == 0 {
            map.clear();
            live.clear();
        }
    }
}

#[test]
fn restore_succeeds_exactly_while_checked_out() {
    let mut map = SparseMap::new();
    let key = map.insert(1);
    // Not checked out: refused.
    assert!(!map.restore(&key, 2));
    let value = map.take(&key).unwrap();
    // Other work in between does not release the reservation.
    let other = map.insert(5);
    map.remove(&other);
    map.clear();
    assert!(map.restore(&key, value));
    // Already put back: refused again.
    assert!(!map.restore(&key, 3));
    assert_eq!(map.get(&key), Some(&1));
}

#[test]
fn len_counts_the_keys_contains_accepts() {
    let mut map = SparseMap::new();
    let mut keys = Vec::new();
    for i in 0..10 {
        keys.push(map.insert(i));
    }
    map.remove(&keys[2]);
    map.remove(&keys[5]);
    map.take(&keys[7]);
    let again = map.insert(42);
    keys.push(again);
    let mut candidates = keys.clone();
    for index in 0..12 {
        for generation in 0..3 {
            candidates.push(Key::new(index, generation));
        }
    }
    let accepted: HashSet<Key> = candidates.into_iter().filter(|k| map.contains(k)).collect();
    assert_eq!(accepted.len(), map.len());
    assert_eq!(map.iter().len(), map.len());
}

#[test]
fn insertion_reuses_a_freed_slot_before_growing() {
    let mut map = SparseMap::new();
    let a = map.insert('a');
    let b = map.insert('b');
    let _c = map.insert('c');
    map.remove(&a);
    map.remove(&b);
    let freed = [a.index(), b.index()];
    let k1 = map.insert('x');
    let k2 = map.insert('y');
    assert!(freed.contains(&k1.index()));
    assert!(freed.contains(&k2.index()));
    let k3 = map.insert('z');
    assert_eq!(k3.index(), 3);
}
