use connection_store::entry::ConnectionEntry;
use connection_store::store::ConnectionStore;

fn record(id: &str, name: &str, group: &str) -> ConnectionEntry {
    ConnectionEntry {
        address: format!("{}.example.com:8080", name),
        heap_size: "512m".to_string(),
        icon: String::new(),
        id: id.to_string(),
        java_home: "/jdk".to_string(),
        java_args: None,
        name: name.to_string(),
        username: Some("admin".to_string()),
        password: None,
        verify: true,
        group: group.to_string(),
        environment: String::new(),
        notes: String::new(),
        donotcache: false,
        last_connected: None,
        group_order: 0,
        environment_order: 0,
        sort_order: 0,
        show_console: false,
    }
}

#[test]
fn new_store_is_empty() {
    let s = ConnectionStore::new();
    assert_eq!(s.len(), 0);
    assert!(s.get("a").is_none());
}

#[test]
fn read_after_write_gives_the_record() {
    let mut s = ConnectionStore::new();
    let r = record("a", "alpha", "G");
    s.insert(r.clone());
    assert_eq!(*s.get("a").unwrap(), r);
    assert!(s.contains_id("a"));
    assert!(!s.contains_id("b"));
}

#[test]
fn write_with_same_id_replaces_in_place() {
    let mut s = ConnectionStore::new();
    s.insert(record("a", "alpha", "G"));
    s.insert(record("b", "beta", "G"));
    s.insert(record("a", "alpha2", "H"));
    assert_eq!(s.len(), 2);
    assert_eq!(s.get("a").unwrap().name, "alpha2");
    assert_eq!(s.entries()[0].0, "a");
    assert_eq!(s.entries()[1].0, "b");
}

#[test]
fn write_keeps_other_records() {
    let mut s = ConnectionStore::new();
    let b = record("b", "beta", "G");
    s.insert(b.clone());
    s.insert(record("a", "alpha", "G"));
    assert_eq!(*s.get("b").unwrap(), b);
}

#[test]
fn delete_then_read_finds_nothing() {
    let mut s = ConnectionStore::new();
    s.insert(record("a", "alpha", "G"));
    s.insert(record("b", "beta", "G"));
    s.delete("a");
    assert!(s.get("a").is_none());
    assert_eq!(s.get("b").unwrap().name, "beta");
    assert_eq!(s.len(), 1);
    s.delete("missing");
    assert_eq!(s.len(), 1);
}

#[test]
fn from_entries_keeps_one_record_per_id() {
    let s = ConnectionStore::from_entries(vec![
        ("a".to_string(), record("a", "first", "G")),
        ("b".to_string(), record("b", "beta", "G")),
        ("a".to_string(), record("a", "second", "G")),
    ]);
    assert_eq!(s.len(), 2);
    assert_eq!(s.entries()[0].1.name, "second");
    assert_eq!(s.entries()[1].1.name, "beta");
}

#[test]
fn stamp_sets_last_connected_only() {
    let mut s = ConnectionStore::new();
    s.insert(record("a", "alpha", "G"));
    s.insert(record("b", "beta", "G"));
    s.update_last_connected("a", 1_700_000_000_123);
    let a = s.get("a").unwrap();
    assert_eq!(a.last_connected, Some(1_700_000_000_123));
    assert_eq!(a.name, "alpha");
    assert_eq!(s.get("b").unwrap().last_connected, None);
    s.update_last_connected("missing", 5);
    assert_eq!(s.len(), 2);
}

#[test]
fn all_groups_has_default_and_every_group_once() {
    let mut s = ConnectionStore::new();
    assert_eq!(s.get_all_groups(), vec!["Default".to_string()]);
    s.insert(record("a", "alpha", "Prod"));
    s.insert(record("b", "beta", "Dev"));
    s.insert(record("c", "gamma", "Prod"));
    s.insert(record("d", "delta", "Default"));
    let mut groups = s.get_all_groups();
    groups.sort();
    assert_eq!(groups, vec!["Default".to_string(), "Dev".to_string(), "Prod".to_string()]);
}

#[test]
fn groups_are_listed_untrimmed() {
    let mut s = ConnectionStore::new();
    s.insert(record("a", "alpha", " Prod "));
    let groups = s.get_all_groups();
    assert!(groups.contains(&" Prod ".to_string()));
    assert_eq!(groups.len(), 2);
}

#[test]
fn records_are_found_by_the_key_they_were_loaded_under() {
    let s = ConnectionStore::from_entries(vec![("file-key".to_string(), record("own-id", "x", "G"))]);
    assert_eq!(s.get("file-key").unwrap().id, "own-id");
    assert!(s.get("own-id").is_none());
}

#[test]
fn stamping_keeps_the_key() {
    let mut s = ConnectionStore::from_entries(vec![("k".to_string(), record("other", "x", "G"))]);
    s.update_last_connected("k", 7);
    assert_eq!(s.len(), 1);
    assert_eq!(s.entries()[0].0, "k");
    assert_eq!(s.get("k").unwrap().last_connected, Some(7));
}

#[test]
fn get_hands_out_the_stored_record_itself() {
    let mut s = ConnectionStore::new();
    s.insert(record("a", "alpha", "G"));
    let one = s.get("a").unwrap();
    let two = s.get("a").unwrap();
    assert!(std::sync::Arc::ptr_eq(&one, &two));
}

#[test]
fn reloading_a_store_from_its_entries_gives_the_same_records() {
    let mut s = ConnectionStore::new();
    s.insert(record("a", "alpha", "G"));
    s.insert(record("b", "beta", "H"));
    let mut saved: Vec<(String, ConnectionEntry)> =
        s.entries().iter().map(|(k, e)| (k.clone(), (**e).clone())).collect();
    let same = ConnectionStore::from_entries(saved.clone());
    assert_eq!(same.entries().len(), 2);
    assert_eq!(same.entries()[0].0, "a");
    assert_eq!(same.entries()[1].0, "b");
    saved.reverse();
    let reordered = ConnectionStore::from_entries(saved);
    assert_eq!(*reordered.get("a").unwrap(), *s.get("a").unwrap());
    assert_eq!(*reordered.get("b").unwrap(), *s.get("b").unwrap());
    assert_eq!(reordered.len(), 2);
}
