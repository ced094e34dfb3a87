use rpx::metadata::Version;
use rpx::repository::built_in_repository;
use rpx::resolver::PackageVersion;
use rpx::sorted::TextMap;
use rpx::status::{library_mismatches, recursion_depth, removal_messages, RunError};

fn version(value: &str) -> Version {
    Version::parse(value).expect("version should parse")
}

fn installed_version(value: &str) -> PackageVersion {
    PackageVersion::new(version(value), built_in_repository())
}

fn map<V>(entries: Vec<(&str, V)>) -> TextMap<V> {
    let mut map = TextMap::new();
    for (key, value) in entries {
        map.insert(key.to_string(), value);
    }
    map
}

#[test]
fn root_package_is_optional_for_status() {
    let expected = TextMap::new();
    let omitted = TextMap::new();
    let installed = map(vec![("project", installed_version("1.0.0"))]);

    assert!(library_mismatches(&expected, &omitted, Some("project")).is_exact());
    assert!(library_mismatches(&expected, &installed, Some("project")).is_exact());
}

#[test]
fn missing_locked_dependencies_are_still_reported() {
    let expected = map(vec![("digest", version("0.6.39"))]);

    let mismatches = library_mismatches(&expected, &TextMap::new(), Some("project"));

    assert_eq!(mismatches.missing_packages, ["digest"]);
    assert!(mismatches.extra_packages.is_empty());
    assert!(mismatches.version_mismatches.is_empty());
}

#[test]
fn extra_packages_are_runnable_but_not_exact() {
    let installed = map(vec![("extra", installed_version("1.0.0"))]);

    let mismatches = library_mismatches(&TextMap::new(), &installed, None);

    assert!(mismatches.is_runnable());
    assert!(!mismatches.is_exact());
    assert!(mismatches.into_runtime_mismatches().is_exact());
}

#[test]
fn other_versions_are_mismatches() {
    let expected = map(vec![("a", version("1.0")), ("b", version("2.0"))]);
    let installed = map(vec![
        ("a", installed_version("1.0.0")),
        ("b", installed_version("2.1")),
        ("c", installed_version("1.0")),
    ]);
    let mismatches = library_mismatches(&expected, &installed, None);
    assert!(!mismatches.is_runnable());
    assert_eq!(
        mismatches.to_lines(),
        ["Extra packages: c", "b: expected 2.0, installed 2.1"]
    );
}

#[test]
fn recursion_depths_are_bounded() {
    assert_eq!(recursion_depth(None).unwrap(), 0);
    assert_eq!(recursion_depth(Some("7".to_string())).unwrap(), 7);
    assert_eq!(recursion_depth(Some("+100".to_string())).unwrap(), 100);
    assert!(matches!(
        recursion_depth(Some("101".to_string())),
        Err(RunError::RecursionLimit)
    ));
    for value in ["", "+", "-1", "1x", "4294967296", "99999999999999999999999"] {
        assert!(matches!(
            recursion_depth(Some(value.to_string())),
            Err(RunError::InvalidRecursionDepth { value: named }) if named == value
        ));
    }
}

#[test]
fn removals_tell_what_was_not_installed() {
    let installed = map(vec![
        ("a", installed_version("1.0")),
        ("b", installed_version("1.0")),
    ]);
    assert_eq!(
        removal_messages(
            &["b", "x", "a", "b"].map(str::to_string).to_vec(),
            &installed
        ),
        [
            "Removed a, b",
            "x is already missing from the project library",
        ]
    );
    assert!(removal_messages(&Vec::new(), &installed).is_empty());
}
