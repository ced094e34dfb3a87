use pubgrub::Ranges;
use rpx::description::Description;
use rpx::metadata::{Relation, Version};
use rpx::range::{any_version, at_least, more_than};
use rpx::repository::{built_in_repository, LocalRepository, PackageRepository};
use rpx::resolver::{
    choose_latest, choose_listed, choose_package_version, choose_root_version,
    dependencies_from_description, dependency_ranges_from_relations, dependency_source,
    lower_spellings, metadata_name, package_version_range_from_relation, prefetch_packages,
    preferred_in_range, upper_spellings,
    Dependencies, DependencySource, LatestChoice, PackageVersion,
};
use rpx::sorted::{SortedSet, TextMap};

fn number(value: &str) -> Version {
    Version::parse(value).expect("valid test version")
}

fn version(value: &str, repository: &str) -> PackageVersion {
    PackageVersion::new(
        number(value),
        PackageRepository::Local(LocalRepository::new(repository.to_string())),
    )
}

fn description(text: &str) -> Description {
    Description { text: text.to_string() }
}

fn allows(range: &Ranges<Vec<u32>>, value: &str) -> bool {
    range.contains(&number(value).significant())
}

#[test]
fn rejects_malformed_hard_dependency_metadata() {
    let description = description(
        "Package: example\nVersion: 1.0.0\nImports: cli (>= invalid)\nSuggests: also-invalid (>= invalid)\n",
    );

    let Dependencies::Unavailable(reason) = dependencies_from_description(
        "example 1.0.0".to_string(),
        &description,
        &SortedSet::new(),
    ) else {
        panic!("malformed Imports should make the package version unavailable");
    };
    assert!(reason.contains("Imports"));
}

#[test]
fn ignores_unconsumed_malformed_suggests_metadata() {
    let description = description(
        "Package: example\nVersion: 1.0.0\nImports: cli\nSuggests: also-invalid (>= invalid)\n",
    );

    let Dependencies::Available(dependencies) = dependencies_from_description(
        "example 1.0.0".to_string(),
        &description,
        &SortedSet::new(),
    ) else {
        panic!("malformed Suggests should not make the package version unavailable");
    };
    assert!(dependencies.contains_key("cli"));
}

#[test]
fn intersects_transitive_constraints_across_dependency_fields() {
    let description = description(
        "Package: example\nVersion: 1.0.0\nDepends: cli (>= 1.0.0)\nImports: cli (< 2.0.0)\n",
    );

    let Dependencies::Available(dependencies) = dependencies_from_description(
        "example 1.0.0".to_string(),
        &description,
        &SortedSet::new(),
    ) else {
        panic!("hard dependencies should be available");
    };
    let range = dependencies.get("cli").expect("cli should be a dependency");

    assert!(!allows(range, "0.9.0"));
    assert!(allows(range, "1.5.0"));
    assert!(!allows(range, "2.0.0"));
}

fn offer(versions: &[&str], source: &str, preferred: Option<&Version>) -> Option<PackageVersion> {
    let listed = versions
        .iter()
        .map(|value| version(value, source))
        .collect::<Vec<_>>();
    let latest = listed.last().map(PackageVersion::copy);
    match choose_latest(latest.as_ref(), &any_version(), preferred) {
        LatestChoice::Chosen(chosen) => chosen,
        LatestChoice::AskVersions => {
            choose_listed(&latest.unwrap(), &listed, &any_version(), preferred)
        }
    }
}

#[test]
fn preferred_version_uses_the_repository_that_contains_it() {
    let preferred = number("1.5.0");
    let selected = choose_package_version(
        &vec![
            offer(&["3.0.0"], "first source", Some(&preferred)),
            offer(&["1.5.0", "2.0.0"], "second source", Some(&preferred)),
        ],
        Some(&preferred),
    )
    .expect("preferred version should be available");

    assert!(selected.version().same(&preferred));
    assert_eq!(selected.repository().to_text(), "second source");
}

#[test]
fn missing_preferred_version_uses_the_normal_best_candidate() {
    let preferred = number("1.5.0");
    let selected = choose_package_version(
        &vec![
            offer(&["2.0.0"], "first source", Some(&preferred)),
            offer(&["3.0.0"], "second source", Some(&preferred)),
        ],
        Some(&preferred),
    )
    .expect("fallback version should be available");

    assert!(selected.version().same(&number("3.0.0")));
    assert_eq!(selected.repository().to_text(), "second source");
}

#[test]
fn equal_versions_use_the_earlier_repository() {
    let selected = choose_package_version(
        &vec![
            offer(&["2.0.0"], "first source", None),
            offer(&["2.0.0"], "second source", None),
        ],
        None,
    )
    .expect("candidate should be available");

    assert_eq!(selected.repository().to_text(), "first source");
}

#[test]
fn root_name_is_reserved_for_the_supplied_version() {
    let root = version("1.0.0", "unused");
    let chosen = choose_root_version(&root, &any_version()).expect("root should be chosen");
    assert!(chosen.same(&root));
    assert!(chosen.repository().equals(root.repository()));
    assert!(choose_root_version(&root, &at_least(number("2.0.0").significant())).is_none());
    assert!(matches!(
        dependency_source("project", "project", &SortedSet::new()),
        DependencySource::Root
    ));
}

#[test]
fn prefetch_does_not_query_the_root_package() {
    let mut constraints = TextMap::new();
    constraints.insert("project".to_string(), any_version());
    assert!(prefetch_packages(&constraints, "project").is_empty());
    constraints.insert("cli".to_string(), any_version());
    assert_eq!(prefetch_packages(&constraints, "project"), ["cli"]);
}

#[test]
fn root_dependencies_preserve_explicit_constraints() {
    let mut roots = SortedSet::new();
    roots.insert(Relation::parse("suggested (>= 2.0.0)").expect("valid suggested relation"));
    let constraints = dependency_ranges_from_relations(&roots, &SortedSet::new());
    let range = constraints
        .get("suggested")
        .expect("caller-supplied relation should be preserved");

    assert!(!allows(range, "1.9.9"));
    assert!(allows(range, "2.0.0"));
}

#[test]
fn base_packages_are_not_constrained() {
    let mut base = SortedSet::new();
    base.insert("stats".to_string());
    let mut roots = SortedSet::new();
    roots.insert(Relation::parse("stats (>= 4.0.0)").unwrap());
    roots.insert(Relation::parse("cli").unwrap());
    let constraints = dependency_ranges_from_relations(&roots, &base);
    assert_eq!(constraints.keys, ["cli"]);
    assert!(matches!(
        dependency_source("stats", "project", &base),
        DependencySource::Nothing
    ));
    assert!(matches!(
        dependency_source("cli", "project", &base),
        DependencySource::Description
    ));
}

#[test]
fn every_comparison_makes_its_range() {
    for (relation, inside, outside) in [
        ("a (>= 1.2)", "1.2.0", "1.1.9"),
        ("a (> 1.2)", "1.2.1", "1.2.0"),
        ("a (<= 1.2)", "1.2.0", "1.2.0.1"),
        ("a (< 1.2)", "1.1.9", "1.2"),
        ("a (== 1.2)", "1.2.0.0", "1.2.1"),
        ("a (!= 1.2)", "1.2.1", "1.2.0"),
    ] {
        let range = package_version_range_from_relation(&Relation::parse(relation).unwrap());
        assert!(allows(&range, inside), "{relation} should allow {inside}");
        assert!(!allows(&range, outside), "{relation} should refuse {outside}");
    }
    assert!(allows(&more_than(number("1.0").significant()), "1.0.1"));
}

#[test]
fn preferred_versions_have_to_be_in_range() {
    let mut preferred = TextMap::new();
    preferred.insert("a".to_string(), number("1.0"));
    assert!(preferred_in_range(&preferred, "a", &any_version()).is_some());
    assert!(preferred_in_range(&preferred, "a", &more_than(number("1.0").significant())).is_none());
    assert!(preferred_in_range(&preferred, "b", &any_version()).is_none());
}

#[test]
fn metadata_is_named_by_its_source() {
    let version = PackageVersion::new(number("1.2-3"), built_in_repository());
    assert_eq!(
        metadata_name("a", &version),
        format!("a 1.2-3 from {}", built_in_repository().to_text())
    );
}

#[test]
fn requested_versions_keep_their_spelling() {
    let mut relations = SortedSet::new();
    for text in ["a (>= 1.0.0)", "a (< 2.0-0)", "a (!= 1.5)", "b (== 3.0)", "c"] {
        relations.insert(Relation::parse(text).unwrap());
    }
    let show = |list: Vec<rpx::report::Spelling>| {
        list.iter()
            .map(|spelling| format!("{} {}", spelling.included, spelling.version.text))
            .collect::<Vec<_>>()
    };
    let mut lowers = show(lower_spellings(&relations, "a"));
    lowers.sort();
    assert_eq!(lowers, ["false 1.5", "true 1.0.0"]);
    let mut uppers = show(upper_spellings(&relations, "a"));
    uppers.sort();
    assert_eq!(uppers, ["false 1.5", "false 2.0-0"]);
    assert_eq!(show(lower_spellings(&relations, "b")), ["true 3.0"]);
    assert_eq!(show(upper_spellings(&relations, "b")), ["true 3.0"]);
    assert!(lower_spellings(&relations, "c").is_empty());
    assert!(upper_spellings(&relations, "d").is_empty());
}
