use dashmap::DashMap;
use redix::kv_store::KvStore;

#[test]
fn test_kv_set_get() {
    let mut kv = KvStore::new();
    kv.set("foo".into(), "bar".into());
    assert_eq!(kv.get("foo"), Some("bar".into()));
}

#[test]
fn test_kv_delete() {
    let mut kv = KvStore::new();
    kv.set("foo".into(), "bar".into());
    kv.delete("foo");
    assert_eq!(kv.get("foo"), None);
}

#[test]
fn overwrite_keeps_last_value_and_other_keys() {
    let mut kv = KvStore::new();
    kv.set("a".into(), "1".into());
    kv.set("b".into(), "2".into());
    kv.set("a".into(), "3".into());
    assert_eq!(kv.get("a"), Some("3".into()));
    assert_eq!(kv.get("b"), Some("2".into()));
    assert_eq!(kv.get("c"), None);
}

#[test]
fn keys_lists_each_key_once() {
    let mut kv = KvStore::new();
    assert!(kv.keys().is_empty());
    kv.set("x".into(), "1".into());
    kv.set("y".into(), "2".into());
    kv.set("x".into(), "3".into());
    let mut keys = kv.keys();
    keys.sort();
    assert_eq!(keys, vec!["x".to_string(), "y".to_string()]);
}

#[test]
fn clear_removes_everything() {
    let mut kv = KvStore::new();
    kv.set("x".into(), "1".into());
    kv.clear();
    assert_eq!(kv.get("x"), None);
    assert!(kv.keys().is_empty());
}

#[test]
fn state_round_trips_through_restore() {
    let mut kv = KvStore::new();
    kv.set("x".into(), "1".into());
    kv.set("y".into(), "2".into());
    let snapshot = kv.get_state();
    assert_eq!(snapshot.len(), 2);
    let mut other = KvStore::new();
    other.set("z".into(), "9".into());
    other.restore_state(snapshot);
    assert_eq!(other.get("x"), Some("1".into()));
    assert_eq!(other.get("y"), Some("2".into()));
    assert_eq!(other.get("z"), None);
}

#[test]
fn restore_from_an_outside_map() {
    let state: DashMap<String, String> = DashMap::new();
    state.insert("k".into(), "v".into());
    let mut kv = KvStore::new();
    kv.restore_state(state);
    assert_eq!(kv.keys(), vec!["k".to_string()]);
    assert_eq!(kv.get("k"), Some("v".into()));
}
