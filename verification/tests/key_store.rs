use std::collections::HashMap;

use simple_kv::hashers::{ConstantHasher, LittleEndianHasher};
use simple_kv::key_store::{KeyHasher, KeyStore, START_CAPACITY};

const RESIZE_FACTOR: f32 = 0.75;

fn text(s: &str) -> Vec<u8> {
    s.as_bytes().to_vec()
}

fn number(n: u64) -> Vec<u8> {
    n.to_le_bytes().to_vec()
}

#[test]
fn insert_makes_value_retrievable() {
    let mut store = KeyStore::default();

    assert_eq!(store.insert(text("key"), "value"), None);

    assert_eq!(store.get(&text("key")), Some(&"value"));
    assert_eq!(store.len(), 1);
}

#[test]
fn insert_replaces_existing_value() {
    let mut store = KeyStore::default();
    assert_eq!(store.insert(text("key"), "old"), None);

    assert_eq!(store.insert(text("key"), "new"), Some("old"));

    assert_eq!(store.get(&text("key")), Some(&"new"));
    assert_eq!(store.len(), 1);
}

#[test]
fn get_returns_none_for_missing_key() {
    let store = KeyStore::<&str>::default();

    assert_eq!(store.get(&text("missing")), None);
}

#[test]
fn del_removes_value_and_preserves_probe_cluster() {
    let mut store = KeyStore::with_hasher(ConstantHasher(0));
    store.insert(text("first"), 1);
    store.insert(text("middle"), 2);
    store.insert(text("last"), 3);

    assert_eq!(store.del(&text("middle")), Some(2));
    assert_eq!(store.get(&text("middle")), None);
    assert_eq!(store.get(&text("first")), Some(&1));
    assert_eq!(store.get(&text("last")), Some(&3));
    assert_eq!(store.del(&text("middle")), None);
    assert_eq!(store.len(), 2);
}

#[test]
fn del_removes_head_of_probe_cluster() {
    let mut store = KeyStore::with_hasher(ConstantHasher(0));
    store.insert(text("first"), 1);
    store.insert(text("middle"), 2);
    store.insert(text("last"), 3);

    assert_eq!(store.del(&text("first")), Some(1));

    assert_eq!(store.get(&text("first")), None);
    assert_eq!(store.get(&text("middle")), Some(&2));
    assert_eq!(store.get(&text("last")), Some(&3));
    assert!(matches!(
        store.bucket(0),
        Some(entry) if entry.key() == &text("middle") && entry.psl() == 0
    ));
    assert!(matches!(
        store.bucket(1),
        Some(entry) if entry.key() == &text("last") && entry.psl() == 1
    ));
}

#[test]
fn del_removes_tail_of_probe_cluster() {
    let mut store = KeyStore::with_hasher(ConstantHasher(0));
    store.insert(text("first"), 1);
    store.insert(text("middle"), 2);
    store.insert(text("last"), 3);

    assert_eq!(store.del(&text("last")), Some(3));

    assert_eq!(store.get(&text("first")), Some(&1));
    assert_eq!(store.get(&text("middle")), Some(&2));
    assert_eq!(store.get(&text("last")), None);
    assert!(store.bucket(2).is_none());
}

#[test]
fn deletion_stops_at_entry_in_its_ideal_bucket() {
    let mut store = KeyStore::with_hasher(LittleEndianHasher);
    store.insert(number(0), "before");
    store.insert(number(1), "start");
    store.insert(number(17), "displaced");

    assert_eq!(store.del(&number(0)), Some("before"));

    assert!(store.bucket(0).is_none());
    assert!(matches!(
        store.bucket(1),
        Some(entry) if entry.key() == &number(1) && entry.psl() == 0
    ));
    assert_eq!(store.get(&number(1)), Some(&"start"));
    assert_eq!(store.get(&number(17)), Some(&"displaced"));
}

#[test]
fn resizes_at_load_threshold_and_preserves_entries() {
    let mut store = KeyStore::default();
    let resize_at = (START_CAPACITY as f32 * RESIZE_FACTOR).ceil() as u64;

    for key in 0..resize_at - 1 {
        store.insert(number(key), key * 10);
    }
    assert_eq!(store.capacity(), START_CAPACITY);

    store.insert(number(resize_at - 1), (resize_at - 1) * 10);

    assert_eq!(store.capacity(), START_CAPACITY * 2);
    assert_eq!(store.len(), resize_at as usize);
    for key in 0..resize_at {
        assert_eq!(store.get(&number(key)), Some(&(key * 10)));
    }
}

#[test]
fn multiple_resizes_preserve_colliding_entries() {
    let mut store = KeyStore::with_hasher(ConstantHasher(0));

    for key in 0..100u64 {
        store.insert(number(key), key * 10);
    }

    assert_eq!(store.capacity(), START_CAPACITY * 16);
    assert_eq!(store.len(), 100);
    for key in 0..100u64 {
        assert_eq!(store.get(&number(key)), Some(&(key * 10)));
    }
}

#[test]
fn deletion_after_resize_preserves_remaining_entries() {
    let mut store = KeyStore::with_hasher(ConstantHasher(0));
    for key in 0..20u64 {
        store.insert(number(key), key * 10);
    }

    for key in [0u64, 7, 19] {
        assert_eq!(store.del(&number(key)), Some(key * 10));
    }

    assert_eq!(store.len(), 17);
    for key in 0..20u64 {
        if [0, 7, 19].contains(&key) {
            assert_eq!(store.get(&number(key)), None);
        } else {
            assert_eq!(store.get(&number(key)), Some(&(key * 10)));
        }
    }
}

#[test]
fn insertion_reuses_space_after_deletion() {
    let mut store = KeyStore::with_hasher(ConstantHasher(0));
    store.insert(text("first"), 1);
    store.insert(text("removed"), 2);
    store.insert(text("last"), 3);
    store.del(&text("removed"));

    store.insert(text("new"), 4);

    assert_eq!(store.len(), 3);
    assert_eq!(store.get(&text("first")), Some(&1));
    assert_eq!(store.get(&text("removed")), None);
    assert_eq!(store.get(&text("last")), Some(&3));
    assert_eq!(store.get(&text("new")), Some(&4));
}

#[test]
fn insertion_uses_robin_hood_swapping_for_mixed_hashes() {
    let mut store = KeyStore::with_hasher(LittleEndianHasher);
    store.insert(number(1), "first");
    store.insert(number(2), "second");
    store.insert(number(17), "displaced");

    assert!(matches!(
        store.bucket(1),
        Some(entry) if entry.key() == &number(1) && entry.psl() == 0
    ));
    assert!(matches!(
        store.bucket(2),
        Some(entry) if entry.key() == &number(17) && entry.psl() == 1
    ));
    assert!(matches!(
        store.bucket(3),
        Some(entry) if entry.key() == &number(2) && entry.psl() == 1
    ));
    assert_eq!(store.get(&number(1)), Some(&"first"));
    assert_eq!(store.get(&number(2)), Some(&"second"));
    assert_eq!(store.get(&number(17)), Some(&"displaced"));
}

#[test]
fn deletion_preserves_a_cluster_that_wraps_around() {
    let mut store = KeyStore::with_hasher(ConstantHasher((START_CAPACITY - 2) as u64));
    store.insert(text("first"), 1);
    store.insert(text("middle"), 2);
    store.insert(text("last"), 3);

    assert!(matches!(
        store.bucket(0),
        Some(entry) if entry.key() == &text("last")
    ));
    assert_eq!(store.del(&text("middle")), Some(2));

    assert_eq!(store.get(&text("first")), Some(&1));
    assert_eq!(store.get(&text("middle")), None);
    assert_eq!(store.get(&text("last")), Some(&3));
    assert!(store.bucket(0).is_none());
}

#[test]
fn randomized_operations_match_std_hash_map() {
    let mut store = KeyStore::default();
    let mut reference = HashMap::new();
    let mut random_state = 0x4d595df4d0f33173_u64;

    for _ in 0..2_000 {
        random_state = random_state
            .wrapping_mul(6_364_136_223_846_793_005)
            .wrapping_add(1);
        let key = random_state % 64;
        random_state = random_state
            .wrapping_mul(6_364_136_223_846_793_005)
            .wrapping_add(1);

        match random_state % 3 {
            0 => {
                let value = random_state;
                store.insert(number(key), value);
                reference.insert(key, value);
            }
            1 => assert_eq!(store.get(&number(key)), reference.get(&key)),
            2 => assert_eq!(store.del(&number(key)), reference.remove(&key)),
            _ => unreachable!(),
        }

        assert_eq!(store.len(), reference.len());
        for candidate in 0_u64..64 {
            assert_eq!(store.get(&number(candidate)), reference.get(&candidate));
        }
    }
}

#[test]
fn keys_lists_each_key_once() {
    let mut store = KeyStore::default();
    store.insert(text("a"), 1);
    store.insert(text("b"), 2);
    store.insert(text("a"), 3);

    let mut keys = store.keys();
    keys.sort();
    assert_eq!(keys, vec![text("a"), text("b")]);
}

#[test]
fn is_empty_tracks_the_number_of_keys() {
    let mut store = KeyStore::default();
    assert!(store.is_empty());
    store.insert(text("a"), 1);
    assert!(!store.is_empty());
    store.del(&text("a"));
    assert!(store.is_empty());
}

#[test]
fn little_endian_hasher_reads_the_first_eight_bytes() {
    assert_eq!(LittleEndianHasher.hash_key(&17u64.to_le_bytes()), 17);
    assert_eq!(LittleEndianHasher.hash_key(&[1, 2]), 0x0201);
    assert_eq!(LittleEndianHasher.hash_key(&[1, 0, 0, 0, 0, 0, 0, 0, 9]), 1);
    assert_eq!(ConstantHasher(5).hash_key(b"anything"), 5);
}
