use bundled_provides::license::{normalize_license, resolve_license, LicenseResolution};

#[test]
fn slash_becomes_or_and_the_common_pair_is_canonicalized() {
    assert_eq!(normalize_license("MIT/Apache-2.0"), "( Apache-2.0 OR MIT )");
}

#[test]
fn spaced_slash_becomes_or() {
    assert_eq!(normalize_license("MIT / Apache-2.0"), "( Apache-2.0 OR MIT )");
}

#[test]
fn plain_license_unchanged() {
    assert_eq!(normalize_license("MIT"), "MIT");
}

#[test]
fn hyphenated_license_unchanged() {
    assert_eq!(normalize_license("BSD-3-Clause"), "BSD-3-Clause");
}

#[test]
fn expression_with_operator_is_wrapped() {
    assert_eq!(normalize_license("MIT OR Zlib"), "( MIT OR Zlib )");
    assert_eq!(normalize_license("MIT/Zlib"), "( MIT OR Zlib )");
}

#[test]
fn operator_detection_is_a_substring_match() {
    // A name that merely contains the substring "AND" is wrapped too.
    assert_eq!(normalize_license("XANDER-1.0"), "( XANDER-1.0 )");
}

#[test]
fn resolve_prefers_the_expression() {
    match resolve_license(Some("MIT/Apache-2.0".to_string()), Some("COPYING".to_string())) {
        LicenseResolution::Resolved(lic) => assert_eq!(lic, "( Apache-2.0 OR MIT )"),
        _ => panic!("expected a resolved license"),
    }
}

#[test]
fn resolve_reports_the_license_file() {
    match resolve_license(None, Some("COPYING".to_string())) {
        LicenseResolution::CheckFile(path) => assert_eq!(path, "COPYING"),
        _ => panic!("expected a license file reference"),
    }
}

#[test]
fn resolve_without_any_information_is_undetermined() {
    match resolve_license(None, None) {
        LicenseResolution::Undetermined => {}
        _ => panic!("expected an undetermined license"),
    }
}
