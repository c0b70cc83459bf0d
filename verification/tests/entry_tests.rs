use connection_store::entry::{
    get_default_donotcache, get_default_environment, get_default_group, get_default_notes,
    get_verify, ConnectionEntry,
};

#[test]
fn defaults_of_stored_fields() {
    assert!(get_verify());
    assert_eq!(get_default_group(), "Default");
    assert_eq!(get_default_notes(), "");
    assert_eq!(get_default_environment(), "");
    assert!(!get_default_donotcache());
}

#[test]
fn new_record_defaults() {
    let e = ConnectionEntry::new_default("/jdk".to_string());
    assert_eq!(e.id.len(), 36);
    assert!(e.id.chars().all(|c| c == '-' || c.is_ascii_hexdigit() && !c.is_ascii_uppercase()));
    assert_eq!(e.heap_size, "512m");
    assert_eq!(e.java_home, "/jdk");
    assert_eq!(e.java_args, Some(String::new()));
    assert_eq!(e.group, "Default");
    assert!(e.verify);
    assert_eq!(e.username, None);
    assert_eq!((e.group_order, e.environment_order, e.sort_order), (0, 0, 0));
    let f = ConnectionEntry::new_default("/jdk".to_string());
    assert_ne!(e.id, f.id);
}

#[test]
fn clone_is_equal() {
    let e = ConnectionEntry::new_default("/jdk".to_string());
    assert_eq!(e.clone(), e);
}
