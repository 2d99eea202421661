//! The key-value store: reads, writes, deletes and expiry.

use bytes::Bytes;
use redis_lite::storage::Store;

// test create and add
#[test]
fn create_and_add_and_read() {
    //create and set key with string-value explicitly cast to bytes
    let mut store: Store = Store::new();
    store.set("stargazing", Bytes::from("stars in reach").to_vec(), None);

    let result: Option<Vec<u8>> = store.get("stargazing");

    // assert the bool-result of a comparison-operation
    assert_eq!(result.unwrap(), Bytes::from("stars in reach").to_vec());
}

// test - getting a key that doesn't exist
#[test]
fn get_nonexistent_key() {
    let mut store: Store = Store::new();

    let result: Option<Vec<u8>> = store.get("stargazing");

    // should be empty, due to never being
    assert!(result.is_none());
    println!("WOO!");
}

// test - deleting a key that does exist
#[test]
fn delete_existent_key() {
    let mut store: Store = Store::new();

    store.set(
        "stargazing",
        Bytes::from("The stars wherein a sight blazes").to_vec(),
        None,
    );

    let deletion_result: bool = store.del("stargazing");

    assert_eq!(deletion_result, true);
}

// test - deleting a key that shouldn't exist
#[test]
fn delete_nonexistent_key() {
    let mut store: Store = Store::new();

    let deletion_result: bool = store.del("stargazing");

    assert_eq!(deletion_result, false);
}

#[test]
fn set_replaces_the_old_value() {
    let mut store = Store::new();
    store.set("k", b"one".to_vec(), None);
    store.set("k", b"two".to_vec(), None);
    assert_eq!(store.get("k"), Some(b"two".to_vec()));
}

#[test]
fn key_lives_until_its_expiry_and_no_longer() {
    let mut store = Store::new();
    store.set_at("temp", b"data".to_vec(), Some(10), 100);
    assert_eq!(store.get_at("temp", 105), Some(b"data".to_vec()));
    assert_eq!(store.get_at("temp", 110), Some(b"data".to_vec()));
    assert_eq!(store.get_at("temp", 111), None);
    // the expired key was removed on access
    assert!(!store.del("temp"));
}

#[test]
fn exists_checks_expiry_lazily() {
    let mut store = Store::new();
    store.set_at("a", b"1".to_vec(), Some(5), 0);
    store.set_at("b", b"2".to_vec(), None, 0);
    assert!(store.key_exists_at("a", 5));
    assert!(!store.key_exists_at("a", 6));
    assert!(store.key_exists_at("b", u128::MAX));
    assert!(!store.key_exists_at("c", 0));
    assert!(store.key_exists("b"));
}

#[test]
fn del_removes_a_key_even_if_expired() {
    let mut store = Store::new();
    store.set_at("gone", b"x".to_vec(), Some(1), 0);
    // expired by now, but still stored until someone looks
    assert!(store.del("gone"));
    assert_eq!(store.get_at("gone", 0), None);
}

#[test]
fn ttl_saturates_at_the_end_of_the_clock() {
    let mut store = Store::new();
    store.set_at("long", b"v".to_vec(), Some(u128::MAX), 7);
    assert_eq!(store.get_at("long", u128::MAX), Some(b"v".to_vec()));
}

#[test]
fn sweep_removes_only_expired_keys() {
    let mut store = Store::new();
    store.set_at("short", b"s".to_vec(), Some(10), 0);
    store.set_at("long", b"l".to_vec(), Some(1000), 0);
    store.set_at("forever", b"f".to_vec(), None, 0);
    store.sweep_expired_at(500);
    let mut keys: Vec<String> = store.snapshot_entries().into_iter().map(|(k, _)| k).collect();
    keys.sort();
    assert_eq!(keys, vec!["forever".to_string(), "long".to_string()]);
    store.sweep_expired();
    assert_eq!(store.get("forever"), Some(b"f".to_vec()));
}

#[test]
fn snapshot_entries_lists_each_key_once() {
    let mut store = Store::new();
    store.set("x", b"1".to_vec(), None);
    store.set("y", b"2".to_vec(), Some(1_000_000_000_000));
    store.set("x", b"3".to_vec(), None);
    let mut entries = store.snapshot_entries();
    entries.sort_by(|a, b| a.0.cmp(&b.0));
    assert_eq!(entries.len(), 2);
    assert_eq!(entries[0].0, "x");
    assert_eq!(entries[0].1.value, b"3".to_vec());
    assert_eq!(entries[0].1.expires_at, None);
    assert_eq!(entries[1].0, "y");
    assert!(entries[1].1.expires_at.is_some());
}

#[test]
fn sweeping_does_not_change_what_reads_return() {
    let mut swept = Store::new();
    let mut lazy = Store::new();
    for store in [&mut swept, &mut lazy] {
        store.set_at("a", b"1".to_vec(), Some(3), 0);
        store.set_at("b", b"2".to_vec(), Some(30), 0);
        store.set_at("c", b"3".to_vec(), None, 0);
    }
    swept.sweep_expired_at(10);
    for key in ["a", "b", "c", "d"] {
        assert_eq!(swept.get_at(key, 10), lazy.get_at(key, 10));
    }
}
