use connection_store::text::{
    after_last_dot_exec, blank, chars_equal, contains_str, lower_equals_exec, push_decimal,
    push_str, split_once_exec, strip_prefix_exec, trimmed,
};

#[test]
fn trim_removes_ascii_white_space_at_both_ends() {
    assert_eq!(trimmed("  a b \t\n"), "a b");
    assert_eq!(trimmed(""), "");
    assert_eq!(trimmed(" \r\n "), "");
}

#[test]
fn trim_removes_unicode_white_space() {
    assert_eq!(trimmed("\u{3000}x\u{a0}\u{2009}"), "x");
    assert_eq!(trimmed("\u{85}y\u{2028}"), "y");
    // a zero-width space is not white space
    assert_eq!(trimmed("\u{200b}z"), "\u{200b}z");
}

#[test]
fn trim_agrees_with_std() {
    for s in ["  x  ", "\u{1680}a b\u{205f}", "\t\u{b}\u{c}k\u{d}", "none"] {
        assert_eq!(trimmed(s), s.trim());
    }
}

#[test]
fn trim_twice_is_trim_once() {
    let once = trimmed("  \u{3000} name \u{a0} ");
    assert_eq!(trimmed(&once), once);
}

#[test]
fn blank_strings() {
    assert!(blank(""));
    assert!(blank(" \t "));
    assert!(!blank(" a "));
}

#[test]
fn chars_equal_compares_characters() {
    assert!(chars_equal("héllo", "héllo"));
    assert!(!chars_equal("héllo", "hello"));
    assert!(!chars_equal("ab", "abc"));
}

#[test]
fn split_once_cuts_at_first_occurrence() {
    assert_eq!(
        split_once_exec("a;base64,b;base64,c", ";base64,"),
        Some(("a".to_string(), "b;base64,c".to_string()))
    );
    assert_eq!(split_once_exec("abc", "x"), None);
    assert_eq!(split_once_exec("ab", "ab"), Some((String::new(), String::new())));
    assert_eq!(split_once_exec("ab", "abc"), None);
}

#[test]
fn strip_prefix_removes_prefix() {
    assert_eq!(strip_prefix_exec("data:abc", "data:"), Some("abc".to_string()));
    assert_eq!(strip_prefix_exec("dat", "data:"), None);
    assert_eq!(strip_prefix_exec("Data:abc", "data:"), None);
}

#[test]
fn after_last_dot_is_first_rsplit_item() {
    for s in ["dir.v1/icon.PNG", "noext", "a.", ".hidden", "", "a.b.c"] {
        assert_eq!(after_last_dot_exec(s), s.rsplit('.').next().unwrap());
    }
}

#[test]
fn lower_equals_ignores_ascii_case() {
    assert!(lower_equals_exec("PnG", "png"));
    assert!(lower_equals_exec("jpeg", "jpeg"));
    assert!(!lower_equals_exec("pngs", "png"));
    assert!(!lower_equals_exec("ÞNG", "png"));
}

#[test]
fn decimal_digits() {
    let mut s = String::from("n=");
    push_decimal(&mut s, 0);
    assert_eq!(s, "n=0");
    let mut t = String::new();
    push_decimal(&mut t, 1234567);
    assert_eq!(t, "1234567");
    let mut u = String::new();
    push_decimal(&mut u, usize::MAX);
    assert_eq!(u, usize::MAX.to_string());
}

#[test]
fn push_str_appends() {
    let mut s = String::from("ab");
    push_str(&mut s, "cd");
    assert_eq!(s, "abcd");
}

#[test]
fn contains_str_finds_equal_strings() {
    let v = vec!["a".to_string(), "bc".to_string()];
    assert!(contains_str(&v, "bc"));
    assert!(!contains_str(&v, "b"));
}
