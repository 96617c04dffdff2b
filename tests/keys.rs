use crypto_store::keys::{join_key, join_key3, key_in_range, lex_less, make_range};

#[test]
fn composite_keys_join_with_colons() {
    assert_eq!(join_key("abc", "s1"), "abc:s1");
    assert_eq!(join_key3("!room:x", "curve", "sid"), "!room:x:curve:sid");
}

#[test]
fn range_bounds_are_delimiter_and_terminator() {
    let r = make_range("@a").unwrap();
    assert_eq!(r.lower, "@a:");
    assert_eq!(r.upper, "@a;");
}

#[test]
fn range_scan_does_not_match_extended_identifier() {
    let r = make_range("abc").unwrap();
    assert!(key_in_range("abc:session", &r));
    assert!(!key_in_range("abcd:session", &r));
    assert!(!key_in_range("abc", &r));
    assert!(!key_in_range("ab:session", &r));
    let u = make_range("@a").unwrap();
    assert!(!key_in_range("@ab:DEVICE", &u));
    assert!(key_in_range("@a:DEVICE", &u));
}

#[test]
fn lexicographic_order_by_code_point() {
    assert!(lex_less("a", "b"));
    assert!(lex_less("ab", "abc"));
    assert!(!lex_less("abc", "ab"));
    assert!(!lex_less("abc", "abc"));
    assert!(lex_less("a:", "a;"));
}
