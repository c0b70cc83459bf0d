use connection_store::response::{duplicates_report, duplicates_response, json_array_string, ok_response};

#[test]
fn ok_reports() {
    assert_eq!(ok_response(0), "{\"status\":\"ok\",\"total\":0}");
    assert_eq!(ok_response(42), "{\"status\":\"ok\",\"total\":42}");
}

#[test]
fn duplicates_reports() {
    let names = vec!["a".to_string(), "b\"c\\d\n".to_string()];
    assert_eq!(
        duplicates_response(&names, 3),
        "{\"names\":[\"a\",\"b\\\"c\\\\d\\n\"],\"status\":\"duplicates\",\"total\":3}"
    );
    assert_eq!(
        duplicates_report("[]", 10),
        "{\"names\":[],\"status\":\"duplicates\",\"total\":10}"
    );
}

#[test]
fn json_arrays_join_items_with_commas() {
    assert_eq!(json_array_string(&vec![]), "[]");
    assert_eq!(json_array_string(&vec!["{}".to_string()]), "[{}]");
    assert_eq!(
        json_array_string(&vec!["1".to_string(), "\"a\"".to_string(), "3".to_string()]),
        "[1,\"a\",3]"
    );
}
