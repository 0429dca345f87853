use raft_kv::storage::in_memory_db::InMemoryDB;

#[test]
fn test_set_get_del() {
    let mut db = InMemoryDB::new();

    db.set("key1".to_string(), "val1".to_string());
    assert_eq!(db.get("key1"), Some("val1".to_string()));

    assert_eq!(db.get("key2"), None);

    db.delete("key1");
    assert_eq!(db.get("key1"), None);
}

#[test]
fn set_overwrites_and_returns_true() {
    let mut db = InMemoryDB::new();
    assert!(db.set("k".to_string(), "1".to_string()));
    assert!(db.set("k".to_string(), "2".to_string()));
    assert_eq!(db.get("k"), Some("2".to_string()));
    assert_eq!(db.clone_state().len(), 1);
}

#[test]
fn delete_reports_presence() {
    let mut db = InMemoryDB::new();
    db.set("k".to_string(), "v".to_string());
    assert!(db.delete("k"));
    assert!(!db.delete("k"));
    assert!(!db.delete("never"));
}

#[test]
fn delete_keeps_the_other_keys_findable() {
    let mut db = InMemoryDB::new();
    for i in 0..10 {
        db.set(format!("k{}", i), format!("v{}", i));
    }
    assert!(db.delete("k0"));
    assert!(db.delete("k4"));
    assert!(db.delete("k9"));
    for i in 0..10 {
        let expected = if i == 0 || i == 4 || i == 9 { None } else { Some(format!("v{}", i)) };
        assert_eq!(db.get(&format!("k{}", i)), expected);
    }
    db.set("k4".to_string(), "again".to_string());
    assert_eq!(db.get("k4"), Some("again".to_string()));
    assert_eq!(db.clone_state().len(), 8);
}

#[test]
fn clone_state_lists_each_pair_once() {
    let mut db = InMemoryDB::new();
    db.set("a".to_string(), "1".to_string());
    db.set("b".to_string(), "2".to_string());
    db.set("a".to_string(), "3".to_string());
    let mut state = db.clone_state();
    state.sort();
    assert_eq!(
        state,
        vec![("a".to_string(), "3".to_string()), ("b".to_string(), "2".to_string())]
    );
    db.delete("a");
    assert_eq!(state.len(), 2);
    assert_eq!(db.clone_state(), vec![("b".to_string(), "2".to_string())]);
}
