// The store and its entries.
use redust::db::{Entry, Store, Timestamp};

fn at(secs: u64) -> Timestamp {
    Timestamp { secs, nanos: 0 }
}

fn entry(value: &str, expire_at: Option<Timestamp>) -> Entry {
    Entry { value: value.to_string(), expire_at }
}

fn key(k: &str) -> String {
    k.to_string()
}

#[test]
fn new_store_is_empty() {
    let store = Store::new();
    assert!(store.is_empty());
    assert_eq!(store.len(), 0);
    assert_eq!(store.get(&key("k"), at(0)), None);
    assert!(!store.contains_key(&key("k")));
    assert!(store.entry(&key("k")).is_none());
}

#[test]
fn set_if_absent_refuses_a_held_key() {
    let mut store = Store::new();
    assert!(store.set_if_absent(key("k"), entry("v", None)));
    assert!(!store.set_if_absent(key("k"), entry("w", None)));
    assert_eq!(store.get(&key("k"), at(0)), Some("v".to_string()));
    assert_eq!(store.len(), 1);
}

#[test]
fn update_if_present_refuses_an_absent_key() {
    let mut store = Store::new();
    assert!(!store.update_if_present(key("k"), entry("v", None)));
    assert!(store.is_empty());
    assert!(store.set_if_absent(key("k"), entry("v", None)));
    assert!(store.update_if_present(key("k"), entry("w", None)));
    assert_eq!(store.get(&key("k"), at(0)), Some("w".to_string()));
    assert_eq!(store.len(), 1);
}

#[test]
fn upsert_replaces_without_duplicating() {
    let mut store = Store::new();
    store.upsert(key("a"), entry("1", None));
    store.upsert(key("b"), entry("2", None));
    store.upsert(key("a"), entry("3", None));
    assert_eq!(store.len(), 2);
    assert_eq!(store.get(&key("a"), at(0)), Some("3".to_string()));
    assert_eq!(store.get(&key("b"), at(0)), Some("2".to_string()));
}

#[test]
fn delete_says_whether_the_key_was_held() {
    let mut store = Store::new();
    store.upsert(key("a"), entry("1", None));
    store.upsert(key("b"), entry("2", None));
    assert!(store.delete(&key("a")));
    assert!(!store.delete(&key("a")));
    assert_eq!(store.len(), 1);
    assert_eq!(store.get(&key("a"), at(0)), None);
    assert_eq!(store.get(&key("b"), at(0)), Some("2".to_string()));
}

#[test]
fn keys_are_case_sensitive() {
    let mut store = Store::new();
    store.upsert(key("Key"), entry("1", None));
    assert_eq!(store.get(&key("key"), at(0)), None);
    assert_eq!(store.get(&key("Key"), at(0)), Some("1".to_string()));
}

#[test]
fn get_hides_expired_entries() {
    let mut store = Store::new();
    store.upsert(key("k"), entry("v", Some(Timestamp { secs: 10, nanos: 500 })));
    assert_eq!(store.get(&key("k"), at(9)), Some("v".to_string()));
    assert_eq!(store.get(&key("k"), Timestamp { secs: 10, nanos: 499 }), Some("v".to_string()));
    assert_eq!(store.get(&key("k"), Timestamp { secs: 10, nanos: 500 }), None);
    assert_eq!(store.get(&key("k"), at(11)), None);
    assert!(store.contains_key(&key("k")));
    assert_eq!(store.entry(&key("k")).unwrap().value, "v");
}

#[test]
fn sweep_removes_exactly_the_expired() {
    let mut store = Store::new();
    store.upsert(key("forever"), entry("1", None));
    store.upsert(key("past"), entry("2", Some(at(5))));
    store.upsert(key("now"), entry("3", Some(at(10))));
    store.upsert(key("soon"), entry("4", Some(Timestamp { secs: 10, nanos: 1 })));
    store.upsert(key("later"), entry("5", Some(at(20))));
    store.sweep_expired(at(10));
    assert_eq!(store.len(), 3);
    assert!(store.contains_key(&key("forever")));
    assert!(!store.contains_key(&key("past")));
    assert!(!store.contains_key(&key("now")));
    assert!(store.contains_key(&key("soon")));
    assert!(store.contains_key(&key("later")));
    assert_eq!(store.get(&key("later"), at(10)), Some("5".to_string()));
}

#[test]
fn sweep_and_read_agree_on_expiry() {
    let deadline = Timestamp { secs: 10, nanos: 7 };
    let instants = [
        Timestamp { secs: 9, nanos: 999_999_999 },
        Timestamp { secs: 10, nanos: 6 },
        Timestamp { secs: 10, nanos: 7 },
        Timestamp { secs: 10, nanos: 8 },
        Timestamp { secs: 11, nanos: 0 },
    ];
    for now in instants {
        let mut store = Store::new();
        store.upsert(key("k"), entry("v", Some(deadline)));
        let read = store.get(&key("k"), now).is_some();
        store.sweep_expired(now);
        assert_eq!(store.contains_key(&key("k")), read);
    }
}

#[test]
fn snapshot_view_lists_each_key_once() {
    let mut store = Store::new();
    store.upsert(key("a"), entry("1", None));
    store.upsert(key("b"), entry("2", Some(at(9))));
    store.upsert(key("a"), entry("3", None));
    let mut image = store.snapshot_view();
    image.sort_by(|x, y| x.0.cmp(&y.0));
    assert_eq!(image.len(), 2);
    assert_eq!(image[0].0, "a");
    assert_eq!(image[0].1.value, "3");
    assert_eq!(image[0].1.expire_at, None);
    assert_eq!(image[1].0, "b");
    assert_eq!(image[1].1.value, "2");
    assert_eq!(image[1].1.expire_at, Some(at(9)));
    // the store itself is untouched
    assert_eq!(store.len(), 2);
}

#[test]
fn from_entries_keeps_the_last_of_a_repeated_key() {
    let store = Store::from_entries(vec![
        (key("a"), entry("1", None)),
        (key("b"), entry("2", None)),
        (key("a"), entry("3", Some(at(4)))),
    ]);
    assert_eq!(store.len(), 2);
    assert_eq!(store.entry(&key("a")).unwrap().value, "3");
    assert_eq!(store.entry(&key("a")).unwrap().expire_at, Some(at(4)));
    assert_eq!(store.entry(&key("b")).unwrap().value, "2");
}

#[test]
fn snapshot_then_load_gives_the_same_store() {
    let mut store = Store::new();
    store.upsert(key("x"), entry("9", None));
    store.upsert(key("y"), entry("8", Some(Timestamp { secs: 77, nanos: 1 })));
    let copy = Store::from_entries(store.snapshot_view());
    assert_eq!(copy.len(), 2);
    assert_eq!(copy.entry(&key("x")).unwrap().value, "9");
    assert_eq!(copy.entry(&key("x")).unwrap().expire_at, None);
    assert_eq!(copy.entry(&key("y")).unwrap().value, "8");
    assert_eq!(copy.entry(&key("y")).unwrap().expire_at, Some(Timestamp { secs: 77, nanos: 1 }));
}

#[test]
fn timestamps_order_by_seconds_then_nanoseconds() {
    let a = Timestamp { secs: 1, nanos: 999_999_999 };
    let b = Timestamp { secs: 2, nanos: 0 };
    let c = Timestamp { secs: 2, nanos: 1 };
    assert!(a.is_before(&b));
    assert!(b.is_before(&c));
    assert!(a.is_before(&c));
    assert!(!b.is_before(&a));
    assert!(!b.is_before(&b));
    assert_eq!(Timestamp::from_secs(5), Timestamp { secs: 5, nanos: 0 });
    assert_eq!(a.after_secs(3), Timestamp { secs: 4, nanos: 999_999_999 });
    assert_eq!(Timestamp { secs: u64::MAX, nanos: 1 }.after_secs(1), Timestamp { secs: u64::MAX, nanos: 1 });
}

#[test]
fn entry_liveness_and_clone() {
    let e = Entry::new("v".to_string(), Some(at(10)));
    assert!(e.is_live(at(9)));
    assert!(!e.is_live(at(10)));
    let never = entry("w", None);
    assert!(never.is_live(Timestamp { secs: u64::MAX, nanos: 999_999_999 }));
    let copy = e.clone();
    assert_eq!(copy.value, "v");
    assert_eq!(copy.expire_at, Some(at(10)));
}
