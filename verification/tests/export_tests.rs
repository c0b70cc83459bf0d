use connection_store::entry::ConnectionEntry;
use connection_store::export::{
    entry_before, export_order_key, exportable_entry, sort_for_export, ExportedRecord,
};
use connection_store::store::ConnectionStore;

fn record(id: &str, name: &str, orders: (i64, i64, i64)) -> ConnectionEntry {
    ConnectionEntry {
        address: "h:1".to_string(),
        heap_size: "512m".to_string(),
        icon: format!("/icons/{}.png", id),
        id: id.to_string(),
        java_home: "/jdk".to_string(),
        java_args: None,
        name: name.to_string(),
        username: Some("u".to_string()),
        password: Some("p".to_string()),
        verify: true,
        group: "G".to_string(),
        environment: "E".to_string(),
        notes: "n".to_string(),
        donotcache: false,
        last_connected: Some(99),
        group_order: orders.0,
        environment_order: orders.1,
        sort_order: orders.2,
        show_console: true,
    }
}

fn ids(v: &[ExportedRecord]) -> Vec<String> {
    v.iter().map(|e| e.entry.id.clone()).collect()
}

fn entry_ids(v: &[ConnectionEntry]) -> Vec<String> {
    v.iter().map(|e| e.id.clone()).collect()
}

fn store() -> ConnectionStore {
    let mut s = ConnectionStore::new();
    for r in [
        record("a", "zeta", (1, 0, 0)),
        record("b", "alpha", (0, 5, 0)),
        record("c", "beta", (0, 1, 2)),
        record("d", "Beta", (0, 1, 2)),
        record("e", "alpha", (0, 5, 0)),
    ] {
        s.insert(r);
    }
    s
}

#[test]
fn export_all_sorts_by_group_environment_position_name() {
    let out = store().export(None);
    assert_eq!(ids(&out), vec!["d", "c", "b", "e", "a"]);
}

#[test]
fn export_listed_ids_in_list_order_for_equal_keys() {
    let s = store();
    let out = s.export(Some(vec!["e".to_string(), "missing".to_string(), "b".to_string()]));
    assert_eq!(ids(&out), vec!["e", "b"]);
}

#[test]
fn export_listed_ids_twice_gives_the_record_twice() {
    let s = store();
    let out = s.export(Some(vec!["a".to_string(), "c".to_string(), "a".to_string()]));
    assert_eq!(ids(&out), vec!["c", "a", "a"]);
}

#[test]
fn export_of_nothing_is_empty() {
    let s = store();
    assert!(s.export(Some(vec![])).is_empty());
    assert!(ConnectionStore::new().export(None).is_empty());
}

#[test]
fn export_selection_keeps_list_order() {
    let s = store();
    let out = s.export_selection(&Some(vec!["c".to_string(), "a".to_string()]));
    assert_eq!(entry_ids(&out), vec!["c", "a"]);
}

#[test]
fn export_order_matches_tuple_order() {
    let s = store();
    let out = s.export(None);
    let keys: Vec<_> = out.iter().map(|e| export_order_key(&e.entry)).collect();
    let mut sorted = keys.clone();
    sorted.sort();
    assert_eq!(keys, sorted);
}

#[test]
fn order_key_is_positions_and_name() {
    assert_eq!(export_order_key(&record("x", "nm", (4, 5, 6))), (4, 5, 6, "nm".to_string()));
}

#[test]
fn names_compare_by_characters() {
    assert!(entry_before(&record("x", "B", (0, 0, 0)), &record("y", "a", (0, 0, 0))));
    assert!(entry_before(&record("x", "ab", (0, 0, 0)), &record("y", "abc", (0, 0, 0))));
    assert!(!entry_before(&record("x", "ab", (0, 0, 0)), &record("y", "ab", (0, 0, 0))));
    assert!(entry_before(&record("x", "é", (-1, 0, 0)), &record("y", "a", (0, 0, 0))));
    assert!(entry_before(&record("x", "z", (0, 0, 0)), &record("y", "é", (0, 0, 0))));
}

#[test]
fn sorting_is_stable() {
    let v = vec![record("1", "same", (0, 0, 0)), record("2", "same", (0, 0, 0)), record("3", "a", (0, 0, 0))];
    assert_eq!(entry_ids(&sort_for_export(v)), vec!["3", "1", "2"]);
}

#[test]
fn stripping_removes_credentials_and_icon_path() {
    let r = record("a", "n", (1, 2, 3));
    let e = exportable_entry(&r);
    assert_eq!(e.username, None);
    assert_eq!(e.password, None);
    assert_eq!(e.last_connected, None);
    assert_eq!(e.icon, "");
    assert_eq!(e.notes, "n");
    assert_eq!(e.sort_order, 3);
}

#[test]
fn exported_records_carry_no_credentials_but_keep_their_icon_path() {
    let out = store().export(None);
    for item in &out {
        assert_eq!(item.entry.username, None);
        assert_eq!(item.entry.password, None);
        assert_eq!(item.entry.last_connected, None);
        assert_eq!(item.entry.icon, "");
        assert_eq!(item.icon, format!("/icons/{}.png", item.entry.id));
        assert_eq!(item.entry.notes, "n");
    }
}
