use bundled_provides::license::{resolve_license, LicenseResolution};
use bundled_provides::report::{
    emit_report, license_line, provides_line, sort_dedup_licenses, PackageRecord,
};

fn record(name: &str, version: &str) -> PackageRecord {
    PackageRecord {
        name: name.to_string(),
        version: version.to_string(),
        dependencies: None,
        source: None,
        checksum: None,
    }
}

#[test]
fn provides_line_shape() {
    let line = provides_line(&record("serde", "1.0.0"));
    assert_eq!(line, "Provides: bundled(crate(serde)) = 1.0.0");
}

#[test]
fn provides_line_normalizes_the_version() {
    let line = provides_line(&record("foo", "1.0.0-beta-2"));
    assert_eq!(line, "Provides: bundled(crate(foo)) = 1.0.0_beta-2");
}

#[test]
fn empty_package_list_yields_only_the_license_line() {
    let lines = emit_report(&Vec::new(), Vec::new());
    assert_eq!(lines, vec!["License: ".to_string()]);
}

#[test]
fn duplicate_licenses_are_reported_once() {
    let packages = vec![record("a", "1.0.0"), record("b", "2.0.0")];
    let licenses = vec!["MIT".to_string(), "MIT".to_string()];
    let lines = emit_report(&packages, licenses);
    assert_eq!(lines.len(), 3);
    assert_eq!(lines[0], "Provides: bundled(crate(a)) = 1.0.0");
    assert_eq!(lines[1], "Provides: bundled(crate(b)) = 2.0.0");
    assert_eq!(lines[2], "License: MIT AND ");
}

#[test]
fn licenses_are_sorted_and_deduplicated() {
    let licenses = vec![
        "Zlib".to_string(),
        "MIT".to_string(),
        "Apache-2.0".to_string(),
        "MIT".to_string(),
    ];
    let sorted = sort_dedup_licenses(licenses);
    assert_eq!(sorted, vec!["Apache-2.0", "MIT", "Zlib"]);
    let line = license_line(&sorted);
    assert_eq!(line, "License: Apache-2.0 AND MIT AND Zlib AND ");
}

#[test]
fn license_order_does_not_depend_on_collection_order() {
    let one = sort_dedup_licenses(vec!["MIT".to_string(), "Apache-2.0".to_string()]);
    let other = sort_dedup_licenses(vec![
        "Apache-2.0".to_string(),
        "MIT".to_string(),
        "Apache-2.0".to_string(),
    ]);
    assert_eq!(one, other);
}

#[test]
fn end_to_end_single_package() {
    let packages = vec![record("foo", "1.0.0-beta-2")];
    let mut licenses = Vec::new();
    match resolve_license(Some("MIT".to_string()), None) {
        LicenseResolution::Resolved(lic) => licenses.push(lic),
        _ => panic!("expected a resolved license"),
    }
    let lines = emit_report(&packages, licenses);
    assert_eq!(
        lines,
        vec![
            "Provides: bundled(crate(foo)) = 1.0.0_beta-2".to_string(),
            "License: MIT AND ".to_string(),
        ]
    );
}
