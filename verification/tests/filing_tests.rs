use connection_store::entry::ConnectionEntry;
use connection_store::filing::{needs_java_home, prepare_save, SaveDraft};
use connection_store::store::ConnectionStore;

fn record(id: &str, name: &str, group: &str, env: &str, orders: (i64, i64, i64)) -> ConnectionEntry {
    ConnectionEntry {
        address: "db:1".to_string(),
        heap_size: "1g".to_string(),
        icon: String::new(),
        id: id.to_string(),
        java_home: "/jdk".to_string(),
        java_args: Some(String::new()),
        name: name.to_string(),
        username: None,
        password: None,
        verify: true,
        group: group.to_string(),
        environment: env.to_string(),
        notes: String::new(),
        donotcache: false,
        last_connected: None,
        group_order: orders.0,
        environment_order: orders.1,
        sort_order: orders.2,
        show_console: false,
    }
}

fn draft(entry: ConnectionEntry, is_new: bool) -> SaveDraft {
    SaveDraft { entry, is_new }
}

#[test]
fn prepare_save_gives_new_record_an_id() {
    let d = prepare_save(record("", "n", "G", "", (0, 0, 0)), "/fallback".to_string());
    assert!(d.is_new);
    assert_eq!(d.entry.id.len(), 36);
    assert_eq!(d.entry.id.chars().filter(|c| *c == '-').count(), 4);
}

#[test]
fn prepare_save_keeps_given_id() {
    let d = prepare_save(record(" x ", "n", "G", "", (0, 0, 0)), "/fallback".to_string());
    assert!(!d.is_new);
    assert_eq!(d.entry.id, " x ");
}

#[test]
fn prepare_save_trims_java_home_or_falls_back() {
    let mut r = record("a", "n", "G", "", (0, 0, 0));
    r.java_home = "  /opt/jdk  ".to_string();
    assert!(!needs_java_home(&r));
    assert_eq!(prepare_save(r, "/fallback".to_string()).entry.java_home, "/opt/jdk");
    let mut r2 = record("a", "n", "G", "", (0, 0, 0));
    r2.java_home = " \t ".to_string();
    assert!(needs_java_home(&r2));
    assert_eq!(prepare_save(r2, "/fallback\n".to_string()).entry.java_home, "/fallback\n");
}

#[test]
fn prepare_save_drops_blank_credentials_but_keeps_others_untrimmed() {
    let mut r = record("a", "n", "G", "", (0, 0, 0));
    r.username = Some("   ".to_string());
    r.password = Some(" secret ".to_string());
    let d = prepare_save(r, String::new());
    assert_eq!(d.entry.username, None);
    assert_eq!(d.entry.password, Some(" secret ".to_string()));
}

#[test]
fn first_record_is_filed_at_zero() {
    let mut s = ConnectionStore::new();
    let saved = s.save(draft(record("a", "n", "G", "E", (0, 0, 0)), false));
    assert_eq!((saved.group_order, saved.environment_order, saved.sort_order), (0, 0, 0));
    assert_eq!(*s.get("a").unwrap(), saved);
}

#[test]
fn new_record_joins_existing_group_and_environment() {
    let mut s = ConnectionStore::new();
    s.insert(record("a", "n", "G1", "E", (3, 2, 5)));
    s.insert(record("b", "n", "G1", "E", (3, 2, 9)));
    let saved = s.save(draft(record("c", "n", " G1 ", "E ", (0, 0, 0)), false));
    assert_eq!((saved.group_order, saved.environment_order, saved.sort_order), (3, 2, 10));
    assert_eq!(saved.group, " G1 ");
    assert_eq!(s.len(), 3);
}

#[test]
fn new_group_goes_after_every_group() {
    let mut s = ConnectionStore::new();
    s.insert(record("a", "n", "G1", "E", (3, 2, 5)));
    s.insert(record("b", "n", "G0", "E", (7, 1, 1)));
    let saved = s.save(draft(record("c", "n", "G2", "E", (0, 0, 0)), false));
    assert_eq!((saved.group_order, saved.environment_order, saved.sort_order), (8, 0, 0));
}

#[test]
fn new_environment_goes_after_environments_of_its_group() {
    let mut s = ConnectionStore::new();
    s.insert(record("a", "n", "G1", "E1", (3, 2, 5)));
    s.insert(record("b", "n", "G1", "E2", (3, 6, 1)));
    s.insert(record("x", "n", "G9", "E3", (4, 40, 1)));
    let saved = s.save(draft(record("c", "n", "G1", "E3", (0, 0, 0)), false));
    assert_eq!((saved.group_order, saved.environment_order, saved.sort_order), (3, 7, 0));
}

#[test]
fn given_positions_are_kept() {
    let mut s = ConnectionStore::new();
    s.insert(record("a", "n", "G1", "E", (3, 2, 5)));
    let saved = s.save(draft(record("c", "n", "G1", "E", (11, 0, 4)), false));
    assert_eq!((saved.group_order, saved.environment_order, saved.sort_order), (11, 2, 4));
}

#[test]
fn resaving_a_stored_record_keeps_zero_positions() {
    let mut s = ConnectionStore::new();
    s.insert(record("a", "n", "G1", "E", (3, 2, 5)));
    s.insert(record("b", "n", "G1", "E", (0, 0, 0)));
    let saved = s.save(draft(record("b", "renamed", "G1", "E", (0, 0, 0)), false));
    assert_eq!((saved.group_order, saved.environment_order, saved.sort_order), (0, 0, 0));
    assert_eq!(s.get("b").unwrap().name, "renamed");
    assert_eq!(s.len(), 2);
}

#[test]
fn a_new_record_is_filed_even_if_its_id_is_stored() {
    let mut s = ConnectionStore::new();
    s.insert(record("a", "n", "G1", "E", (3, 2, 5)));
    let saved = s.save(draft(record("a", "n", "G1", "E", (0, 0, 0)), true));
    assert_eq!((saved.group_order, saved.environment_order, saved.sort_order), (3, 2, 6));
}

#[test]
fn filing_past_the_largest_order_does_not_fit() {
    let mut s = ConnectionStore::new();
    s.insert(record("a", "n", "G1", "E", (i64::MAX, 0, 0)));
    let d = draft(record("b", "n", "G2", "E", (0, 0, 0)), false);
    assert!(!s.can_file(&d));
    let d2 = draft(record("c", "n", "G1", "E", (0, 0, 0)), false);
    assert!(s.can_file(&d2));
    let saved = s.save(d2);
    assert_eq!(saved.group_order, i64::MAX);
}

#[test]
fn full_save_round_trip() {
    let mut s = ConnectionStore::new();
    let mut r = record("", "fresh", "Default", "", (0, 0, 0));
    r.username = Some(" ".to_string());
    let d = prepare_save(r, "/usr/lib/jvm".to_string());
    let saved = s.save(d);
    assert_eq!(saved.username, None);
    assert_eq!(*s.get(&saved.id).unwrap(), saved);
}
