use bundled_provides::text::{contains_str, replace_str, str_lt_exec};

#[test]
fn replace_scans_left_to_right_without_overlap() {
    assert_eq!(replace_str("aaa", "aa", "b"), "ba");
    assert_eq!(replace_str("a/b/c", "/", " OR "), "a OR b OR c");
    assert_eq!(replace_str("abc", "x", "y"), "abc");
    assert_eq!(replace_str("", "x", "y"), "");
}

#[test]
fn replace_with_empty_pattern_changes_nothing() {
    assert_eq!(replace_str("abc", "", "y"), "abc");
}

#[test]
fn contains_is_a_plain_substring_test() {
    assert!(contains_str("MIT OR Zlib", "OR"));
    assert!(contains_str("XANDER", "AND"));
    assert!(!contains_str("BSD-3-Clause", "OR"));
    assert!(contains_str("abc", ""));
    assert!(!contains_str("ab", "abc"));
}

#[test]
fn lexicographic_order_matches_rust() {
    let pairs = [
        ("Apache-2.0", "MIT"),
        ("MIT", "Zlib"),
        ("", "a"),
        ("ab", "b"),
        ("a", "ab"),
        ("MIT", "MIT"),
    ];
    for (a, b) in pairs {
        assert_eq!(str_lt_exec(a, b), a < b);
        assert_eq!(str_lt_exec(b, a), b < a);
    }
}
