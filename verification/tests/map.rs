use lockfree_hashmap::hash::{bucket_index, hash_key};
use lockfree_hashmap::map::{Hashmap, AVG_PER_BIN_THRESH, INITIAL_BUCKETS};
use lockfree_hashmap::reclaim::{handle_cleared, Registry};
use lockfree_hashmap::table::Table;
use rand::rngs::StdRng;
use rand::{Rng, SeedableRng};

#[test]
fn four_entries_after_an_overwrite() {
    assert_eq!(AVG_PER_BIN_THRESH, 4);
    assert_eq!(INITIAL_BUCKETS, 1);
    let mut map = Hashmap::new();
    assert_eq!(map.bucket_count(), 1);
    assert_eq!(map.size(), 0);
    assert_eq!(map.insert(1, 1), None);
    assert_eq!(map.insert(2, 5), None);
    assert_eq!(map.insert(12, 5), None);
    assert_eq!(map.insert(12, 7), Some(5));
    assert_eq!(map.insert(0, 0), None);
    assert_eq!(map.size(), 4);
    assert_eq!(map.get(12), Some(7));
}

#[test]
fn insert_then_get_round_trip() {
    let mut map = Hashmap::new();
    for (k, v) in [(0usize, 0usize), (1, usize::MAX), (usize::MAX, 3), (77, 77)] {
        map.insert(k, v);
        assert_eq!(map.get(k), Some(v));
    }
}

#[test]
fn second_insert_overwrites() {
    let mut map = Hashmap::new();
    assert_eq!(map.insert(9, 1), None);
    assert_eq!(map.insert(9, 2), Some(1));
    assert_eq!(map.get(9), Some(2));
    assert_eq!(map.size(), 1);
}

#[test]
fn delete_removes_once() {
    let mut map = Hashmap::new();
    map.insert(9, 1);
    assert_eq!(map.delete(9), Some(1));
    assert_eq!(map.get(9), None);
    assert_eq!(map.delete(9), None);
    assert_eq!(map.size(), 0);
}

#[test]
fn size_counts_distinct_live_keys() {
    let mut map = Hashmap::new();
    let mut model = std::collections::BTreeMap::new();
    let mut rng = StdRng::seed_from_u64(11);
    for _ in 0..2000 {
        let key: usize = rng.gen_range(0, 64);
        let what: usize = rng.gen_range(0, 3);
        if what == 0 {
            let value: usize = rng.gen_range(0, 1000);
            assert_eq!(map.insert(key, value), model.insert(key, value));
        } else if what == 1 {
            assert_eq!(map.get(key), model.get(&key).copied());
        } else {
            assert_eq!(map.delete(key), model.remove(&key));
        }
        assert_eq!(map.size(), model.len());
    }
    let mut entries = map.entries();
    entries.sort();
    let expected: Vec<(usize, usize)> = model.into_iter().collect();
    assert_eq!(entries, expected);
}

#[test]
fn growth_doubles_at_the_threshold() {
    let mut map = Hashmap::new();
    let mut counts = Vec::new();
    for k in 0..17usize {
        map.insert(k, k);
        counts.push(map.bucket_count());
    }
    assert_eq!(counts, vec![1, 1, 1, 2, 2, 2, 2, 4, 4, 4, 4, 4, 4, 4, 4, 8, 8]);
    assert_eq!(map.size(), 17);
}

#[test]
fn resize_keeps_every_entry() {
    let mut map = Hashmap::new();
    for k in 0..100usize {
        map.insert(k, k * 3);
        if k % 10 == 0 {
            map.insert(k, k + 1);
        }
    }
    assert!(map.bucket_count() > 1);
    for k in 0..100usize {
        let expected = if k % 10 == 0 { k + 1 } else { k * 3 };
        assert_eq!(map.get(k), Some(expected));
    }
    assert_eq!(map.size(), 100);
    let before = map.bucket_count();
    map.resize();
    assert_eq!(map.bucket_count(), 2 * before);
    assert_eq!(map.size(), 100);
    assert_eq!(map.get(50), Some(51));
}

#[test]
fn hashing_is_deterministic_and_in_range() {
    for key in [0usize, 1, 2, 12, 255, usize::MAX] {
        assert_eq!(hash_key(key), hash_key(key));
        for n in [1usize, 2, 3, 8, 1000] {
            let index = bucket_index(key, n);
            assert!(index < n);
            assert_eq!(index as u64, hash_key(key) % (n as u64));
        }
    }
    assert_ne!(hash_key(1), hash_key(2));
}

#[test]
fn table_routes_and_counts() {
    let mut table = Table::new(8);
    assert_eq!(table.bucket_count(), 8);
    assert_eq!(table.insert(1, 3), None);
    assert_eq!(table.insert(2, 5), None);
    assert_eq!(table.insert(1, 4), Some(3));
    assert_eq!(table.size(), 2);
    assert_eq!(table.get(1), Some(4));
    assert_eq!(table.get(3), None);
    assert_eq!(table.delete(2), Some(5));
    assert_eq!(table.delete(2), None);
    assert_eq!(table.size(), 1);
    assert_eq!(table.entries(), vec![(1, 4)]);
}

#[test]
fn table_migrate_copies_entries() {
    let mut table = Table::new(2);
    for k in 0..20usize {
        table.insert(k, 100 + k);
    }
    table.delete(7);
    let bigger = table.migrate(16);
    assert_eq!(bigger.bucket_count(), 16);
    assert_eq!(bigger.size(), 19);
    assert_eq!(table.size(), 19);
    for k in 0..20usize {
        assert_eq!(bigger.get(k), table.get(k));
    }
    assert_eq!(bigger.get(7), None);
    assert_eq!(bigger.get(8), Some(108));
}

#[test]
fn cleared_means_moved_on_or_idle() {
    assert!(handle_cleared(0, 0));
    assert!(handle_cleared(4, 4));
    assert!(!handle_cleared(5, 5));
    assert!(handle_cleared(5, 6));
    assert!(handle_cleared(5, 7));
    assert!(!handle_cleared(5, 3));
    assert!(!handle_cleared(5, 2));
    assert!(!handle_cleared(usize::MAX, usize::MAX));
    assert!(!handle_cleared(usize::MAX, 0));
    assert!(handle_cleared(usize::MAX - 1, usize::MAX - 1));
}

#[test]
fn registry_counts_operations() {
    let mut registry = Registry::new();
    assert_eq!(registry.len(), 0);
    assert_eq!(registry.register(), 0);
    assert_eq!(registry.register(), 1);
    assert_eq!(registry.counter(1), 0);
    registry.advance(1);
    assert_eq!(registry.counter(1), 1);
    assert_eq!(registry.counter(0), 0);
    let started = registry.snapshot();
    assert_eq!(started, vec![0, 1]);
    assert_eq!(registry.blocking_handle(&started), Some(1));
    assert!(!registry.quiescent(&started));
    registry.advance(1);
    assert_eq!(registry.counter(1), 2);
    assert_eq!(registry.blocking_handle(&started), None);
    assert!(registry.quiescent(&started));
}

#[test]
fn handles_step_their_counter_twice_per_operation() {
    let mut map = Hashmap::new();
    let first = map.create_handle();
    let second = first.clone(&mut map);
    assert_eq!(first.id(), 0);
    assert_eq!(second.id(), 1);
    assert_eq!(map.handle_count(), 2);
    first.insert(&mut map, 1, 1);
    first.get(&mut map, 1);
    second.delete(&mut map, 1);
    assert_eq!(first.epoch(&map), 4);
    assert_eq!(second.epoch(&map), 2);
    assert_eq!(map.snapshot(), vec![4, 2]);
}

#[test]
fn reclamation_waits_for_quiescence() {
    let mut map = Hashmap::new();
    let writer = map.create_handle();
    let reader = map.create_handle();
    for k in 0..8usize {
        writer.insert(&mut map, k, k);
    }
    // No reclamation has begun: there is nothing to release or to wait for.
    assert!(!map.try_reclaim());
    assert_eq!(map.blocking_handle(), None);
    reader.enter(&mut map);
    assert_eq!(reader.epoch(&map), 1);
    writer.delete(&mut map, 3);
    assert_eq!(map.snapshot(), vec![18, 1]);
    map.begin_reclaim();
    assert_eq!(map.blocking_handle(), Some(1));
    assert!(!map.try_reclaim());
    assert!(!map.try_reclaim());
    // The writer goes on; the reader is still inside its operation.
    writer.insert(&mut map, 9, 9);
    assert!(!map.try_reclaim());
    reader.leave(&mut map);
    assert_eq!(map.blocking_handle(), None);
    assert!(map.try_reclaim());
    assert!(!map.try_reclaim());
    assert_eq!(map.get(3), None);
    assert_eq!(map.get(4), Some(4));
    assert_eq!(map.size(), 8);
}

#[test]
fn a_handle_registered_after_the_record_does_not_block() {
    let mut map = Hashmap::new();
    let first = map.create_handle();
    first.insert(&mut map, 1, 1);
    first.delete(&mut map, 1);
    map.begin_reclaim();
    let late = first.clone(&mut map);
    late.enter(&mut map);
    assert_eq!(map.blocking_handle(), None);
    assert!(map.try_reclaim());
}

#[test]
fn a_second_begin_renews_the_record() {
    let mut map = Hashmap::new();
    let handle = map.create_handle();
    handle.insert(&mut map, 1, 1);
    handle.delete(&mut map, 1);
    map.begin_reclaim();
    handle.enter(&mut map);
    // Idle when the first record was taken: not in the way.
    assert_eq!(map.blocking_handle(), None);
    map.begin_reclaim();
    // Inside an operation when the second record was taken: in the way.
    assert_eq!(map.blocking_handle(), Some(0));
    assert!(!map.try_reclaim());
    handle.leave(&mut map);
    assert!(map.try_reclaim());
}

#[test]
fn reclamation_keeps_the_entries_across_a_resize() {
    let mut map = Hashmap::new();
    for k in 0..40usize {
        map.insert(k, k + 1);
    }
    for k in 0..40usize {
        if k % 4 == 0 {
            assert_eq!(map.delete(k), Some(k + 1));
        }
    }
    map.begin_reclaim();
    for k in 40..80usize {
        map.insert(k, k + 1);
    }
    assert!(map.try_reclaim());
    for k in 0..80usize {
        let expected = if k < 40 && k % 4 == 0 { None } else { Some(k + 1) };
        assert_eq!(map.get(k), expected);
    }
    assert_eq!(map.size(), 70);
}

#[test]
fn policy_sets_first_table_and_threshold() {
    let mut map = Hashmap::with_policy(8, 2);
    assert_eq!(map.bucket_count(), 8);
    assert_eq!(map.threshold(), 2);
    for k in 0..15usize {
        map.insert(k, k);
        assert_eq!(map.bucket_count(), 8);
    }
    map.insert(15, 15);
    assert_eq!(map.bucket_count(), 16);
    assert_eq!(map.size(), 16);
    let mut eager = Hashmap::with_policy(1, 0);
    assert_eq!(eager.insert(1, 1), None);
    assert_eq!(eager.bucket_count(), 2);
    assert_eq!(eager.insert(1, 2), Some(1));
    assert_eq!(eager.bucket_count(), 4);
    assert_eq!(eager.get(1), Some(2));
}

#[test]
fn table_reclamation_keeps_entries() {
    let mut table = Table::new(3);
    for k in 0..30usize {
        table.insert(k, k);
    }
    for k in 0..30usize {
        if k % 3 == 0 {
            assert_eq!(table.delete(k), Some(k));
        }
    }
    table.reclaim();
    table.condemn();
    table.reclaim();
    assert_eq!(table.size(), 20);
    for k in 0..30usize {
        assert_eq!(table.get(k), if k % 3 == 0 { None } else { Some(k) });
    }
    for k in 0..30usize {
        table.insert(k, k + 1);
    }
    assert_eq!(table.size(), 30);
    let mut entries = table.entries();
    entries.sort();
    assert_eq!(entries, (0..30usize).map(|k| (k, k + 1)).collect::<Vec<_>>());
}

#[test]
fn handles_take_turns_on_random_keys() {
    let mut map = Hashmap::new();
    let first = map.create_handle();
    let mut handles = vec![];
    for _ in 0..8 {
        handles.push(first.clone(&mut map));
    }
    let mut rng = rand::thread_rng();
    for round in 0..1000usize {
        let handle = &handles[round % handles.len()];
        let val: usize = rng.gen_range(0, 256);
        if val % 3 == 0 {
            handle.insert(&mut map, val, val);
        } else if val % 3 == 1 {
            let v = handle.get(&mut map, val);
            if v != None {
                assert_eq!(v.unwrap(), val);
            }
        } else {
            handle.delete(&mut map, val);
        }
        if round % 100 == 99 {
            map.begin_reclaim();
            assert!(map.try_reclaim());
        }
    }
    assert_eq!(map.size(), map.entries().len());
    let total: usize = handles.iter().map(|h| h.epoch(&map)).sum();
    assert_eq!(total, 2000);
    assert_eq!(first.epoch(&map), 0);
}
