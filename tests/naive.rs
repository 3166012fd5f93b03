use kvs::naive::KVStore;

#[test]
fn naive_set_get_remove() {
    let mut store = KVStore::new();
    assert_eq!(store.get("a".to_string()), None);
    store.set("a".to_string(), "1".to_string());
    store.set("b".to_string(), "2".to_string());
    assert_eq!(store.get("a".to_string()), Some("1".to_string()));
    store.set("a".to_string(), "3".to_string());
    assert_eq!(store.get("a".to_string()), Some("3".to_string()));
    assert_eq!(store.get("b".to_string()), Some("2".to_string()));
    store.remove("a".to_string());
    assert_eq!(store.get("a".to_string()), None);
    store.remove("a".to_string());
    assert_eq!(store.get("b".to_string()), Some("2".to_string()));
}
