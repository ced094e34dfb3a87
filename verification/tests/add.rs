use rpx::add::{added_message, parse_add_packages, AddPackageParseReason};
use rpx::metadata::Relation;
use rpx::sorted::SortedSet;

fn texts(set: &SortedSet<Relation>) -> Vec<String> {
    set.items.iter().map(Relation::to_text).collect()
}

#[test]
fn parse_add_packages_accepts_supported_forms() {
    let inputs = [
        ("dplyr", "dplyr"),
        ("dplyr@>=1.0.0", "dplyr (>= 1.0.0)"),
        ("dplyr@<=1.0.0", "dplyr (<= 1.0.0)"),
        ("dplyr@==1.0.0", "dplyr (== 1.0.0)"),
        ("dplyr@!=1.0.0", "dplyr (!= 1.0.0)"),
        ("dplyr@>1.0.0", "dplyr (> 1.0.0)"),
        ("dplyr@<1.0.0", "dplyr (< 1.0.0)"),
    ];
    let packages = inputs
        .iter()
        .map(|(input, _)| (*input).to_string())
        .collect::<Vec<_>>();

    let parsed = parse_add_packages(&packages).expect("supported forms should parse");
    let mut expected = SortedSet::new();
    for (_, text) in inputs {
        expected.replace(Relation::parse(text).expect("expected relation should parse"));
    }

    assert!(parsed.same(&expected));
    assert_eq!(texts(&parsed), texts(&expected));
    assert_eq!(parsed.items.len(), 7);
}

#[test]
fn parse_add_packages_reports_all_invalid_forms() {
    let packages = [
        "",
        "dplyr >= 1.0.0",
        "@>=1.0.0",
        "dplyr@",
        "dplyr@=1.0.0",
        "dplyr@>=",
        "dplyr@>= 1.0.0",
        "dplyr@>=1",
        "valid",
    ]
    .map(str::to_string)
    .to_vec();

    let error = parse_add_packages(&packages).expect_err("invalid forms should fail");

    assert_eq!(error.issues.len(), packages.len() - 1);
    assert!(matches!(&error.issues[0].reason, AddPackageParseReason::Empty));
    assert!(matches!(&error.issues[1].reason, AddPackageParseReason::Whitespace));
    assert!(matches!(&error.issues[2].reason, AddPackageParseReason::MissingName));
    assert!(matches!(&error.issues[3].reason, AddPackageParseReason::MissingConstraint));
    assert!(matches!(&error.issues[4].reason, AddPackageParseReason::InvalidOperator));
    assert!(matches!(&error.issues[5].reason, AddPackageParseReason::MissingVersion));
    assert!(matches!(&error.issues[6].reason, AddPackageParseReason::Whitespace));
    assert!(matches!(
        &error.issues[7].reason,
        AddPackageParseReason::InvalidVersion { version, .. } if version == "1"
    ));
}

#[test]
fn invalid_package_names_are_told_with_the_reason() {
    let error = parse_add_packages(&vec!["a,b".to_string(), "c(@>1.0".to_string()])
        .expect_err("names should be invalid");
    assert_eq!(
        error.issues[0].message(),
        "invalid package constraint `a,b`: invalid package name: invalid relation package name \"a,b\""
    );
    assert!(matches!(
        &error.issues[1].reason,
        AddPackageParseReason::InvalidPackageName { details }
            if details == "invalid relation package name \"c(\""
    ));
    let error = parse_add_packages(&vec!["x@>=one".to_string()])
        .expect_err("version should be invalid");
    assert!(error.issues[0]
        .message()
        .starts_with("invalid package constraint `x@>=one`: invalid version `one`: "));
}

#[test]
fn control_characters_are_no_white_space() {
    let error = parse_add_packages(&vec!["a\u{1}".to_string()])
        .expect_err("control characters should be refused");
    assert!(matches!(
        &error.issues[0].reason,
        AddPackageParseReason::InvalidPackageName { .. }
    ));
}

#[test]
fn added_packages_are_told_in_order() {
    let relations = parse_add_packages(&vec!["b@>1.0".to_string(), "a".to_string()])
        .expect("packages should parse");
    assert_eq!(added_message(&relations), "Added a, b (> 1.0)");
}
