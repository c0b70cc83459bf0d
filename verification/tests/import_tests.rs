use connection_store::entry::ConnectionEntry;
use connection_store::import::{normalize_imported, preview_entry, ImportCheck, ImportedConnectionEntry};
use connection_store::store::ConnectionStore;

fn record(id: &str, name: &str) -> ConnectionEntry {
    ConnectionEntry {
        address: "h:1".to_string(),
        heap_size: "512m".to_string(),
        icon: String::new(),
        id: id.to_string(),
        java_home: "/theirs".to_string(),
        java_args: None,
        name: name.to_string(),
        username: Some("  u  ".to_string()),
        password: Some("   ".to_string()),
        verify: false,
        group: "G".to_string(),
        environment: String::new(),
        notes: String::new(),
        donotcache: true,
        last_connected: Some(5),
        group_order: 1,
        environment_order: 2,
        sort_order: 3,
        show_console: false,
    }
}

fn imported(id: &str, name: &str) -> ImportedConnectionEntry {
    ImportedConnectionEntry { connection: record(id, name), icon_data_url: None }
}

#[test]
fn import_without_clashes_proceeds_and_fills_blank_ids() {
    let s = ConnectionStore::new();
    match s.import_entries(vec![imported("x", "one"), imported("  ", "two")], false) {
        ImportCheck::Proceed(v) => {
            assert_eq!(v.len(), 2);
            assert_eq!(v[0].connection, record("x", "one"));
            assert_eq!(v[1].connection.id.len(), 36);
            assert_eq!(v[1].connection.name, "two");
        },
        ImportCheck::Duplicates { .. } => panic!("no duplicates expected"),
    }
}

#[test]
fn import_with_clashes_stops_unless_overwriting() {
    let mut s = ConnectionStore::new();
    s.insert(record("x", "stored"));
    s.insert(record("z", "stored2"));
    let data = vec![imported("z", "zz"), imported("y", "new"), imported("x", "xx")];
    match s.import_entries(data, false) {
        ImportCheck::Duplicates { names, total } => {
            assert_eq!(names, vec!["zz".to_string(), "xx".to_string()]);
            assert_eq!(total, 3);
        },
        ImportCheck::Proceed(_) => panic!("duplicates expected"),
    }
    let data = vec![imported("z", "zz"), imported("y", "new")];
    match s.import_entries(data, true) {
        ImportCheck::Proceed(v) => assert_eq!(v.len(), 2),
        ImportCheck::Duplicates { .. } => panic!("overwrite asked for"),
    }
}

#[test]
fn import_normalises_credentials_and_java_home() {
    let ce = normalize_imported(record("x", "one"), &"/mine".to_string());
    assert_eq!(ce.java_home, "/mine");
    assert_eq!(ce.username, Some("u".to_string()));
    assert_eq!(ce.password, None);
    assert_eq!(ce.last_connected, Some(5));
}

#[test]
fn preview_strips_credentials_and_gives_an_id() {
    let e = imported(" ", "p");
    let p = preview_entry(&e);
    assert_eq!(p.username, None);
    assert_eq!(p.password, None);
    assert_eq!(p.last_connected, None);
    assert_eq!(p.id.len(), 36);
    let q = preview_entry(&imported("keep", "p"));
    assert_eq!(q.id, "keep");
    assert_eq!(q.group_order, 1);
}

#[test]
fn full_import_round_trip() {
    let mut s = ConnectionStore::new();
    if let ImportCheck::Proceed(v) = s.import_entries(vec![imported("k1", "one")], false) {
        for e in v {
            let ce = normalize_imported(e.connection, &"/jdk".to_string());
            s.insert(ce);
        }
    }
    let stored = s.get("k1").unwrap();
    assert_eq!(stored.username, Some("u".to_string()));
    assert_eq!(stored.java_home, "/jdk");
}

#[test]
fn storing_an_import_normalises_and_the_last_record_per_id_wins() {
    let mut s = ConnectionStore::new();
    s.insert(record("keep", "kept"));
    s.insert(record("x", "old"));
    let count = s.store_imported(
        vec![record("x", "first"), record("y", "why"), record("x", "second")],
        &"/mine".to_string(),
    );
    assert_eq!(count, 3);
    assert_eq!(s.len(), 3);
    assert_eq!(s.get("keep").unwrap().name, "kept");
    assert_eq!(s.get("keep").unwrap().java_home, "/theirs");
    let x = s.get("x").unwrap();
    assert_eq!(x.name, "second");
    assert_eq!(x.java_home, "/mine");
    assert_eq!(x.username, Some("u".to_string()));
    assert_eq!(x.password, None);
    assert_eq!(s.get("y").unwrap().name, "why");
}
