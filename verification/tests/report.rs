use rpx::metadata::Version;
use rpx::range::{any_version, at_least, less_than};
use rpx::report::{
    advice, collapse_unavailable, format_range, has_metadata_failure, simplify_tree, spell, Cause,
    Conclusion, ReportFormatter, Span, Spelling, Term, Tree,
};
use rpx::sorted::{SortedSet, TextMap};

fn version(text: &str) -> Version {
    Version::parse(text).unwrap()
}

fn spelling(included: bool, text: &str) -> Spelling {
    Spelling { included, version: version(text) }
}

fn any() -> Span {
    Span { range: any_version(), lowers: Vec::new(), uppers: Vec::new() }
}

fn from(text: &str) -> Span {
    Span {
        range: at_least(version(text).significant()),
        lowers: vec![spelling(true, text)],
        uppers: Vec::new(),
    }
}

fn below(text: &str) -> Span {
    Span {
        range: less_than(version(text).significant()),
        lowers: Vec::new(),
        uppers: vec![spelling(false, text)],
    }
}

fn formatter() -> ReportFormatter {
    ReportFormatter { root: Some("project".to_string()), versions: TextMap::new() }
}

fn listing(package: &str, texts: &[&str]) -> TextMap<SortedSet<Version>> {
    let mut known = SortedSet::new();
    for text in texts {
        known.insert(version(text));
    }
    let mut versions = TextMap::new();
    versions.insert(package.to_string(), known);
    versions
}

#[test]
fn ranges_are_spelled_as_the_versions_were() {
    assert_eq!(format_range(&from("1.0.0")), "(>= 1.0.0)");
    assert_eq!(format_range(&from("1.0")), "(>= 1.0)");
    assert_eq!(format_range(&below("2.0-1")), "(< 2.0-1)");
    assert_eq!(format_range(&any()), "(any version)");
}

#[test]
fn versions_are_spelled_by_the_end_that_they_are() {
    let spellings = vec![spelling(false, "1.0-0"), spelling(true, "1.0"), spelling(true, "1.0.0")];
    let key = version("1.0").significant();
    assert_eq!(spell(&spellings, true, &key), "1.0");
    assert_eq!(spell(&spellings, false, &key), "1.0-0");
    assert_eq!(spell(&spellings, true, &version("2.3").significant()), "2.3");
}

#[test]
fn causes_are_told_in_words() {
    let formatter = formatter();
    assert!(formatter.is_root("project"));
    assert_eq!(
        formatter.format_external(&Cause::NoVersions {
            package: "missing".to_string(),
            range: any(),
        }),
        "missing is not available in the configured repositories"
    );
    assert_eq!(
        formatter.format_external(&Cause::FromDependencyOf {
            package: "project".to_string(),
            range: any(),
            dependency: "a".to_string(),
            requested: from("1.0"),
        }),
        "your project requires a (>= 1.0)"
    );
    let mut terms = TextMap::new();
    terms.insert("a".to_string(), Term::Positive(from("1.0")));
    assert_eq!(formatter.format_terms(&terms), "a (>= 1.0) cannot be used");
    assert_eq!(formatter.requirement("a", &any()), "a");
}

fn custom(package: &str, range: Span, reason: &str) -> Tree {
    Tree::External(Cause::Custom {
        package: package.to_string(),
        range,
        reason: reason.to_string(),
    })
}

#[test]
fn unavailable_packages_are_told_without_detours() {
    let tree = Tree::Derived(Conclusion {
        terms: TextMap::new(),
        shared_id: None,
        cause1: Box::new(custom("a", any(), "invalid dependency metadata: x")),
        cause2: Box::new(Tree::External(Cause::FromDependencyOf {
            package: "project".to_string(),
            range: any(),
            dependency: "a".to_string(),
            requested: any(),
        })),
    });
    assert!(has_metadata_failure(&tree));
    let collapsed = collapse_unavailable(tree);
    assert!(has_metadata_failure(&collapsed));
    assert_ne!(advice(true), advice(false));
}

#[test]
fn causes_for_one_reason_keep_their_spellings() {
    let mut terms = TextMap::new();
    terms.insert("a".to_string(), Term::Positive(any()));
    let tree = Tree::Derived(Conclusion {
        terms,
        shared_id: None,
        cause1: Box::new(custom("a", below("1.0"), "broken")),
        cause2: Box::new(custom("a", from("2.0.0"), "broken")),
    });
    let Tree::External(cause) = collapse_unavailable(tree) else {
        panic!("the causes should be put together");
    };
    assert_eq!(
        formatter().format_external(&cause),
        "a (< 1.0) or (>= 2.0.0) cannot be used because of broken"
    );
}

#[test]
fn ranges_are_simplified_to_known_versions() {
    let formatter =
        ReportFormatter { versions: listing("a", &["1.0.0", "2.0-1"]), ..formatter() };
    let range = formatter.simplify_range("a", &from("1.5"));
    assert!(range.range.contains(&version("2.0.1").significant()));
    assert!(!range.range.contains(&version("1.0").significant()));
}

#[test]
fn the_only_version_is_spelled_as_it_is_listed() {
    let formatter = ReportFormatter { versions: listing("a", &["1.0.0"]), ..formatter() };
    let tree = simplify_tree(custom("a", from("1.0"), "broken"), &formatter);
    let Tree::External(cause) = tree else {
        panic!("a fact should stay one");
    };
    assert_eq!(
        formatter.format_external(&cause),
        "a (== 1.0.0) cannot be used because of broken"
    );
    let missing = Cause::NoVersions { package: "a".to_string(), range: from("2.0") };
    assert_eq!(formatter.format_external(&missing), "the available versions of a are (== 1.0.0)");
}
