use redis_starter_rust::store::{Entry, Store};

#[test]
fn test_insert_without_expiry_reads_back_at_every_time() {
    let mut store = Store::new(None);
    store.insert("k".to_string(), "v".to_string(), None, None, 0);
    for now in [0u64, 1, 1_000_000, u64::MAX] {
        assert_eq!(store.get("k", now, now), Some("v".to_string()));
    }
}

#[test]
fn test_insert_with_ttl_expires_and_is_dropped() {
    let mut store = Store::new(None);
    // inserted at t0 = 100 with a 50 ms time to live: deadline 150
    store.insert("k".to_string(), "v".to_string(), Some(50), None, 100);
    assert_eq!(store.get("k", 100, 0), Some("v".to_string()));
    assert_eq!(store.get("k", 149, 0), Some("v".to_string()));
    // at the deadline the key reads as missing
    assert_eq!(store.get("k", 150, 0), None);
    // and the read removed it from the keyspace for good
    assert_eq!(store.get_all_keys(), Vec::<String>::new());
    assert_eq!(store.get("k", 0, 0), None);
}

#[test]
fn test_insert_replaces_value_and_expiry() {
    let mut store = Store::new(None);
    store.insert("k".to_string(), "v1".to_string(), Some(10), None, 0);
    // the second insert replaces both the value and the deadline
    store.insert("k".to_string(), "v2".to_string(), None, None, 0);
    assert_eq!(store.get("k", 1_000_000, 1_000_000), Some("v2".to_string()));
    assert_eq!(store.get_all_keys().len(), 1);
}

#[test]
fn test_wall_clock_expiry() {
    let mut store = Store::new(None);
    store.insert("k".to_string(), "v".to_string(), None, Some(5000), 0);
    // monotonic time does not matter for a wall-clock deadline
    assert_eq!(store.get("k", u64::MAX, 4999), Some("v".to_string()));
    assert_eq!(store.get("k", 0, 5000), None);
}

#[test]
fn test_remove() {
    let mut store = Store::new(None);
    store.insert("a".to_string(), "1".to_string(), None, None, 0);
    store.insert("b".to_string(), "2".to_string(), None, None, 0);
    store.remove(&"a".to_string());
    assert_eq!(store.get("a", 0, 0), None);
    assert_eq!(store.get("b", 0, 0), Some("2".to_string()));
    // removing an absent key changes nothing
    store.remove(&"a".to_string());
    assert_eq!(store.get_all_keys(), vec!["b".to_string()]);
}

#[test]
fn test_get_all_keys_lists_each_key_once() {
    let mut store = Store::new(None);
    store.insert("x".to_string(), "1".to_string(), None, None, 0);
    store.insert("y".to_string(), "2".to_string(), None, None, 0);
    store.insert("x".to_string(), "3".to_string(), None, None, 0);
    let mut keys = store.get_all_keys();
    keys.sort();
    assert_eq!(keys, vec!["x".to_string(), "y".to_string()]);
}

#[test]
fn test_entry_expiry() {
    let e = Entry::new("v".to_string(), Some(10), None, 5);
    assert!(!e.is_expired(14, 0));
    assert!(e.is_expired(15, 0));
    assert_eq!(e.get_value(), "v".to_string());

    let e = Entry::new("v".to_string(), None, Some(1000), 0);
    assert!(!e.is_expired(u64::MAX, 999));
    assert!(e.is_expired(0, 1000));

    // an absolute timestamp wins over a time to live
    let e = Entry::new("v".to_string(), Some(10), Some(1000), 0);
    assert!(e.is_expired(0, 1000));
    assert!(!e.is_expired(u64::MAX, 0));

    let e = Entry::new("v".to_string(), None, None, 0);
    assert!(!e.is_expired(u64::MAX, u64::MAX));
}
