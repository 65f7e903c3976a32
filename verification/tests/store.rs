use bytes::Bytes;
use padis::clock::deadline_after;
use padis::store::Store;
use padis::Db;
use std::time::Duration;

fn b(s: &str) -> Bytes {
    Bytes::copy_from_slice(s.as_bytes())
}

#[test]
fn new_store_is_empty() {
    let mut store = Store::new();
    assert_eq!(store.get(&b("k"), 0), None);
    assert!(store.keys(0).is_empty());
    assert!(!store.del(&b("k")));
}

#[test]
fn value_lives_until_its_deadline() {
    let mut store = Store::new();
    store.set(&b("k"), b("v"), Some(50));
    assert_eq!(store.get(&b("k"), 0), Some(b("v")));
    assert_eq!(store.get(&b("k"), 49), Some(b("v")));
    // At the deadline itself the value is still there.
    assert_eq!(store.get(&b("k"), 50), Some(b("v")));
    assert_eq!(store.get(&b("k"), 51), None);
}

#[test]
fn expired_entry_is_evicted_by_the_first_get() {
    let mut store = Store::new();
    store.set(&b("k"), b("v"), Some(10));
    assert_eq!(store.get(&b("k"), 11), None);
    // The entry is gone for good: an earlier time does not bring it back.
    assert_eq!(store.get(&b("k"), 5), None);
    assert!(!store.del(&b("k")));
}

#[test]
fn overwrite_without_deadline_clears_it() {
    let mut store = Store::new();
    store.set(&b("k"), b("v1"), Some(50));
    store.set(&b("k"), b("v2"), None);
    assert_eq!(store.get(&b("k"), 100), Some(b("v2")));
    assert_eq!(store.get(&b("k"), u128::MAX), Some(b("v2")));
}

#[test]
fn overwrite_replaces_value_and_deadline() {
    let mut store = Store::new();
    store.set(&b("k"), b("v1"), None);
    store.set(&b("k"), b("v2"), Some(7));
    assert_eq!(store.get(&b("k"), 7), Some(b("v2")));
    assert_eq!(store.get(&b("k"), 8), None);
    assert_eq!(store.keys(0).len(), 0);
}

#[test]
fn del_is_true_exactly_once() {
    let mut store = Store::new();
    assert!(!store.del(&b("never")));
    store.set(&b("k"), b("v"), None);
    assert!(store.del(&b("k")));
    assert!(!store.del(&b("k")));
    assert_eq!(store.get(&b("k"), 0), None);
    store.set(&b("k"), b("w"), None);
    assert!(store.del(&b("k")));
    assert!(!store.del(&b("k")));
}

#[test]
fn del_removes_expired_entries_too() {
    let mut store = Store::new();
    store.set(&b("k"), b("v"), Some(1));
    // Nothing has looked at the entry since it expired: it still counts.
    assert!(store.del(&b("k")));
    assert!(!store.del(&b("k")));
}

#[test]
fn del_leaves_other_keys() {
    let mut store = Store::new();
    store.set(&b("a"), b("1"), None);
    store.set(&b("b"), b("2"), None);
    store.set(&b("c"), b("3"), None);
    assert!(store.del(&b("b")));
    assert_eq!(store.get(&b("a"), 0), Some(b("1")));
    assert_eq!(store.get(&b("b"), 0), None);
    assert_eq!(store.get(&b("c"), 0), Some(b("3")));
}

#[test]
fn keys_lists_live_keys_only() {
    let mut store = Store::new();
    store.set(&b("a"), b("1"), None);
    store.set(&b("b"), b("2"), Some(10));
    store.set(&b("c"), b("3"), Some(20));
    store.set(&b("d"), b("4"), Some(5));
    let mut keys = store.keys(10);
    keys.sort();
    assert_eq!(keys, vec![b("a"), b("b"), b("c")]);
    let mut keys = store.keys(11);
    keys.sort();
    assert_eq!(keys, vec![b("a"), b("c")]);
    // What a sweep has removed stays removed.
    assert_eq!(store.get(&b("b"), 0), None);
    assert_eq!(store.get(&b("d"), 0), None);
    let mut keys = store.keys(0);
    keys.sort();
    assert_eq!(keys, vec![b("a"), b("c")]);
}

#[test]
fn keys_lists_each_key_once() {
    let mut store = Store::new();
    store.set(&b("a"), b("1"), None);
    store.set(&b("a"), b("2"), None);
    store.set(&b("a"), b("3"), Some(9));
    assert_eq!(store.keys(0), vec![b("a")]);
}

#[test]
fn keys_are_binary() {
    let mut store = Store::new();
    let k1 = Bytes::from_static(b"a\r\n\0");
    let k2 = Bytes::from_static(b"a\r\n");
    store.set(&k1, b("1"), None);
    store.set(&k2, b("2"), None);
    store.set(&Bytes::new(), b("3"), None);
    assert_eq!(store.get(&k1, 0), Some(b("1")));
    assert_eq!(store.get(&k2, 0), Some(b("2")));
    assert_eq!(store.get(&Bytes::new(), 0), Some(b("3")));
    assert_eq!(store.keys(0).len(), 3);
}

#[test]
fn deadline_is_now_plus_time_to_live() {
    assert_eq!(deadline_after(7, None), None);
    assert_eq!(deadline_after(7, Some(Duration::from_millis(50))), Some(50_000_007));
    assert_eq!(deadline_after(1, Some(Duration::from_secs(2))), Some(2_000_000_001));
    assert_eq!(deadline_after(0, Some(Duration::new(1, 5))), Some(1_000_000_005));
    assert_eq!(deadline_after(u128::MAX, Some(Duration::from_secs(1))), Some(u128::MAX));
    assert_eq!(deadline_after(u128::MAX - 3, Some(Duration::new(0, 3))), Some(u128::MAX));
    assert_eq!(deadline_after(u128::MAX - 3, Some(Duration::new(0, 2))), Some(u128::MAX - 1));
}

#[test]
fn db_keys_never_lists_an_expired_key() {
    let db = Db::new();
    db.set(&b("short"), b("1"), Some(Duration::from_nanos(1)));
    db.set(&b("long"), b("2"), Some(Duration::from_secs(3600)));
    db.set(&b("forever"), b("3"), None);
    let start = std::time::Instant::now();
    while start.elapsed() < Duration::from_millis(2) {
        std::hint::spin_loop();
    }
    let mut keys = db.keys();
    keys.sort();
    assert_eq!(keys, vec![b("forever"), b("long")]);
}

#[test]
fn db_del_is_true_exactly_once() {
    let db = Db::default();
    db.set(&b("k"), b("v"), None);
    let other = db.clone();
    assert!(other.del(&b("k")));
    assert!(!db.del(&b("k")));
    assert!(!db.del(&b("never")));
}
