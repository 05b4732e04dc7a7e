use bundled_provides::version::normalize_version;

#[test]
fn no_hyphen_unchanged() {
    assert_eq!(normalize_version("1.2.3"), "1.2.3");
}

#[test]
fn single_hyphen_unchanged() {
    assert_eq!(normalize_version("1.0.0-beta"), "1.0.0-beta");
    assert_eq!(normalize_version("-"), "-");
}

#[test]
fn empty_unchanged() {
    assert_eq!(normalize_version(""), "");
}

#[test]
fn two_hyphens_keep_rightmost() {
    assert_eq!(normalize_version("1.0.0-beta-2"), "1.0.0_beta-2");
    assert_eq!(normalize_version("1.0.0-alpha-1"), "1.0.0_alpha-1");
}

#[test]
fn many_hyphens_keep_rightmost() {
    assert_eq!(normalize_version("a-b-c-d"), "a_b_c-d");
    assert_eq!(normalize_version("---"), "__-");
}

#[test]
fn malformed_versions_follow_the_same_rule() {
    assert_eq!(normalize_version("not-a-version"), "not_a-version");
    assert_eq!(normalize_version("-x-"), "_x-");
}
