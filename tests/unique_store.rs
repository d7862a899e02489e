use rebound::unique_store::{join_key, Key, KeyAllocator, UniqueStore};

#[test]
fn allocate_hands_out_fresh_indices() {
    let mut keys = KeyAllocator::new();
    let a = keys.allocate();
    let b = keys.allocate();
    let c = keys.allocate();
    assert_eq!((a.index(), a.generation()), (0, 1));
    assert_eq!((b.index(), b.generation()), (1, 1));
    assert_eq!((c.index(), c.generation()), (2, 1));
    assert_ne!(a, b);
    assert_ne!(b, c);
}

#[test]
fn freed_index_comes_back_one_generation_higher() {
    let mut keys = KeyAllocator::new();
    let a = keys.allocate();
    let _b = keys.allocate();
    keys.free(a);
    let again = keys.allocate();
    assert_eq!(again.index(), a.index());
    assert_eq!(again.generation(), 2);
    assert_ne!(again, a);
    let next = keys.allocate();
    assert_eq!((next.index(), next.generation()), (2, 1));
}

#[test]
fn most_recently_freed_index_is_reused_first() {
    let mut keys = KeyAllocator::new();
    let a = keys.allocate();
    let b = keys.allocate();
    keys.free(a);
    keys.free(b);
    assert_eq!(keys.allocate().index(), b.index());
    assert_eq!(keys.allocate().index(), a.index());
}

#[test]
fn live_keys_stay_distinct_over_many_operations() {
    let mut keys = KeyAllocator::new();
    let mut live: Vec<Key> = Vec::new();
    for round in 0..50u32 {
        live.push(keys.allocate());
        live.push(keys.allocate());
        if round % 3 == 0 {
            let k = live.remove(0);
            keys.free(k);
        }
    }
    for i in 0..live.len() {
        for j in (i + 1)..live.len() {
            assert_ne!(live[i], live[j]);
            assert_ne!(live[i].index(), live[j].index());
        }
    }
}

#[test]
fn stale_key_is_absent_after_reuse() {
    let mut keys = KeyAllocator::new();
    let mut table: UniqueStore<u32> = UniqueStore::new();
    let old = keys.allocate();
    table.insert(old, 10);
    keys.free(old);
    let fresh = keys.allocate();
    assert_eq!(fresh.index(), old.index());
    table.insert(fresh, 20);
    assert_eq!(table.get(old), None);
    assert!(!table.contains(old));
    assert_eq!(table.get(fresh), Some(&20));
}

#[test]
fn null_key_names_nothing() {
    let null = Key::null();
    assert_eq!((null.index(), null.generation()), (0, 0));
    let mut keys = KeyAllocator::new();
    let mut table: UniqueStore<u32> = UniqueStore::new();
    let k = keys.allocate();
    table.insert(k, 3);
    table.remove(k);
    assert_eq!(table.get(null), None);
    assert_ne!(k, null);
}

#[test]
fn insert_then_get() {
    let mut keys = KeyAllocator::new();
    let mut table: UniqueStore<i64> = UniqueStore::new();
    let a = keys.allocate();
    let b = keys.allocate();
    table.insert(b, -7);
    assert_eq!(table.get(b), Some(&-7));
    assert_eq!(table.get(a), None);
    table.insert(a, 5);
    assert_eq!(table.get(a), Some(&5));
    table.insert(a, 6);
    assert_eq!(table.get(a), Some(&6));
    assert!(table.contains(a));
    assert!(table.contains(b));
}

#[test]
fn remove_then_get_is_absent() {
    let mut keys = KeyAllocator::new();
    let mut table: UniqueStore<u8> = UniqueStore::new();
    let a = keys.allocate();
    let b = keys.allocate();
    table.insert(a, 1);
    table.insert(b, 2);
    table.remove(a);
    assert_eq!(table.get(a), None);
    assert_eq!(table.get(b), Some(&2));
    // Removing past the end of the table changes nothing.
    let c = keys.allocate();
    table.remove(c);
    assert_eq!(table.get(b), Some(&2));
}

#[test]
fn get_mut_writes_through() {
    let mut keys = KeyAllocator::new();
    let mut table: UniqueStore<u32> = UniqueStore::new();
    let a = keys.allocate();
    let b = keys.allocate();
    table.insert(a, 1);
    table.insert(b, 2);
    *table.get_mut(a).unwrap() += 40;
    assert_eq!(table.get(a), Some(&41));
    assert_eq!(table.get(b), Some(&2));
    keys.free(b);
    let b2 = keys.allocate();
    assert!(table.get_mut(b2).is_none());
}

#[test]
fn out_of_order_inserts_iterate_by_index() {
    let mut keys = KeyAllocator::new();
    let ks: Vec<Key> = (0..6).map(|_| keys.allocate()).collect();
    let mut table: UniqueStore<char> = UniqueStore::new();
    table.insert(ks[5], 'f');
    table.insert(ks[2], 'c');
    table.insert(ks[0], 'a');
    let listed = table.iter();
    assert_eq!(listed, vec![(ks[0], 'a'), (ks[2], 'c'), (ks[5], 'f')]);
}

#[test]
fn iteration_skips_removed_slots() {
    let mut keys = KeyAllocator::new();
    let ks: Vec<Key> = (0..4).map(|_| keys.allocate()).collect();
    let mut table: UniqueStore<u32> = UniqueStore::new();
    for (i, k) in ks.iter().enumerate() {
        table.insert(*k, i as u32);
    }
    table.remove(ks[1]);
    assert_eq!(table.iter(), vec![(ks[0], 0), (ks[2], 2), (ks[3], 3)]);
}

#[test]
fn iter_mut_updates_every_present_entry() {
    let mut keys = KeyAllocator::new();
    let ks: Vec<Key> = (0..3).map(|_| keys.allocate()).collect();
    let mut table: UniqueStore<u32> = UniqueStore::new();
    table.insert(ks[0], 1);
    table.insert(ks[2], 5);
    table.iter_mut(|_, v| v * 10);
    assert_eq!(table.iter(), vec![(ks[0], 10), (ks[2], 50)]);
    assert_eq!(table.get(ks[1]), None);
}

#[test]
fn join_keeps_common_keys_in_order() {
    let mut keys = KeyAllocator::new();
    let ks: Vec<Key> = (0..6).map(|_| keys.allocate()).collect();
    let mut left: UniqueStore<u32> = UniqueStore::new();
    let mut right: UniqueStore<char> = UniqueStore::new();
    for i in [0usize, 1, 3, 5] {
        left.insert(ks[i], i as u32);
    }
    for i in [1usize, 2, 3, 4] {
        right.insert(ks[i], (b'a' + i as u8) as char);
    }
    let joined = join_key(left.iter(), right.iter());
    assert_eq!(joined, vec![(ks[1], (1, 'b')), (ks[3], (3, 'd'))]);
}

#[test]
fn join_with_empty_is_empty() {
    let mut keys = KeyAllocator::new();
    let a = keys.allocate();
    let full = vec![(a, 1u32)];
    let empty: Vec<(Key, u32)> = Vec::new();
    assert!(join_key(full.clone(), empty.clone()).is_empty());
    assert!(join_key(empty.clone(), full).is_empty());
    assert!(join_key(empty.clone(), empty).is_empty());
}

#[test]
fn join_with_itself_pairs_each_entry_with_itself() {
    let mut keys = KeyAllocator::new();
    let entries: Vec<(Key, u32)> = (0..4).map(|i| (keys.allocate(), i * 3)).collect();
    let joined = join_key(entries.clone(), entries.clone());
    let expected: Vec<(Key, (u32, u32))> = entries.iter().map(|(k, v)| (*k, (*v, *v))).collect();
    assert_eq!(joined, expected);
}

#[test]
fn join_without_common_keys_is_empty() {
    let mut keys = KeyAllocator::new();
    let ks: Vec<Key> = (0..4).map(|_| keys.allocate()).collect();
    let even = vec![(ks[0], 0u8), (ks[2], 2)];
    let odd = vec![(ks[1], 1u8), (ks[3], 3)];
    assert!(join_key(even, odd).is_empty());
}

#[test]
fn join_skips_a_stale_key_at_a_shared_index() {
    let mut keys = KeyAllocator::new();
    let a = keys.allocate();
    let b = keys.allocate();
    keys.free(a);
    let a2 = keys.allocate();
    let left = vec![(a, 1u8), (b, 2)];
    let right = vec![(a2, 10u8), (b, 20)];
    assert_eq!(join_key(left, right), vec![(b, (2, 20))]);
}

#[test]
fn update_with_touches_only_shared_keys() {
    let mut keys = KeyAllocator::new();
    let ks: Vec<Key> = (0..4).map(|_| keys.allocate()).collect();
    let mut target: UniqueStore<i32> = UniqueStore::new();
    let mut other: UniqueStore<i32> = UniqueStore::new();
    target.insert(ks[0], 1);
    target.insert(ks[1], 2);
    target.insert(ks[3], 4);
    other.insert(ks[1], 100);
    other.insert(ks[2], 200);
    other.insert(ks[3], 300);
    target.update_with(&other, |_, v, u| v + u);
    assert_eq!(target.iter(), vec![(ks[0], 1), (ks[1], 102), (ks[3], 304)]);
    assert_eq!(target.get(ks[2]), None);
}

#[test]
fn update_with_ignores_a_stale_key_in_the_other_table() {
    let mut keys = KeyAllocator::new();
    let a = keys.allocate();
    let mut target: UniqueStore<u8> = UniqueStore::new();
    let mut other: UniqueStore<u8> = UniqueStore::new();
    other.insert(a, 9);
    keys.free(a);
    let a2 = keys.allocate();
    target.insert(a2, 1);
    target.update_with(&other, |_, v, u| v + u);
    assert_eq!(target.get(a2), Some(&1));
}

#[test]
fn fresh_allocator_can_allocate() {
    let mut keys = KeyAllocator::new();
    assert!(keys.can_allocate());
    let k = keys.allocate();
    keys.free(k);
    assert!(keys.can_allocate());
}

#[test]
fn join_of_same_keys_pairs_entries_in_place() {
    let mut keys = KeyAllocator::new();
    let ks: Vec<Key> = (0..3).map(|_| keys.allocate()).collect();
    let left = vec![(ks[0], 1u8), (ks[1], 2), (ks[2], 3)];
    let right = vec![(ks[0], 'x'), (ks[1], 'y'), (ks[2], 'z')];
    assert_eq!(join_key(left, right), vec![(ks[0], (1, 'x')), (ks[1], (2, 'y')), (ks[2], (3, 'z'))]);
}

#[test]
fn join_follows_index_order_not_insertion_order() {
    let mut keys = KeyAllocator::new();
    let k: Vec<Key> = (0..4).map(|_| keys.allocate()).collect();
    let mut t1: UniqueStore<u8> = UniqueStore::new();
    let mut t2: UniqueStore<u8> = UniqueStore::new();
    t1.insert(k[3], 30);
    t1.insert(k[0], 0);
    t1.insert(k[1], 10);
    t2.insert(k[2], 2);
    t2.insert(k[1], 1);
    t2.insert(k[3], 3);
    assert_eq!(join_key(t1.iter(), t2.iter()), vec![(k[1], (10, 1)), (k[3], (30, 3))]);
}

#[test]
fn repeated_insert_is_the_same_as_one() {
    let mut keys = KeyAllocator::new();
    let ks: Vec<Key> = (0..3).map(|_| keys.allocate()).collect();
    let mut once: UniqueStore<u8> = UniqueStore::new();
    let mut twice: UniqueStore<u8> = UniqueStore::new();
    once.insert(ks[2], 7);
    twice.insert(ks[2], 7);
    twice.insert(ks[2], 7);
    assert_eq!(once.iter(), twice.iter());
    assert_eq!(twice.iter(), vec![(ks[2], 7)]);
}
