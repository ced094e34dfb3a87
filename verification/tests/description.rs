use r_description::CollectionResult;
use rpx::description::{
    add_additional_repository, add_dependencies, add_remote_repository, additional_repositories,
    base_repository, check_description, configured_repositories, normalize_description,
    project_dependencies, remotes, remove_additional_repository, remove_dependencies,
    remove_remote_repository, required_dependencies, reset_base_repository, root_package,
    set_base_repository, ConfiguredRepository, DependencyField, DependencyMutationError,
    Description, DescriptionParseIssue, BASE_REPOSITORY_FIELD,
};
use rpx::metadata::Relation;
use rpx::remote::{Remote, RemoteSource};
use rpx::repository::{built_in_repository_url, parse_repository_url};
use rpx::sorted::SortedSet;

fn parse(text: &str) -> Description {
    Description { text: text.to_string() }
}

fn source() -> String {
    "./DESCRIPTION".to_string()
}

fn outside(description: &Description) -> r_description::Description {
    r_description::Description::parse(&description.text)
}

fn relation_strings<E>(relations: CollectionResult<r_description::Relation, E>) -> Vec<String> {
    relations.values().map(ToString::to_string).collect()
}

fn relation_set(relations: &[&str]) -> SortedSet<Relation> {
    let mut set = SortedSet::new();
    for relation in relations {
        set.replace(Relation::parse(relation).expect("relation should parse"));
    }
    set
}

#[test]
fn normalizes_description_and_preserves_repository_priority() {
    let description = parse(
        "Version: 1.0.0\nAdditional_repositories: https://z.example/repo\nImports: zed\nPackage: project\nRemotes: github::z/repo, cran::alpha\nImports: alpha, AzureAuth, zed\nAdditional_repositories: https://a.example/repo, https://z.example/repo\nRemotes: github::z/repo\n",
    );

    let normalized = normalize_description(source(), &description)
        .expect("DESCRIPTION should normalize");

    assert_eq!(
        normalized.text.clone(),
        "Package: project\nVersion: 1.0.0\nImports:\n    alpha,\n    AzureAuth,\n    zed\nRemotes:\n    github::z/repo,\n    cran::alpha\nAdditional_repositories:\n    https://z.example/repo,\n    https://a.example/repo\n"
    );
    assert_eq!(
        normalize_description(source(), &normalized)
            .expect("normalized DESCRIPTION should normalize again")
            .text,
        normalized.text
    );
}

#[test]
fn reports_positioned_normalization_diagnostics() {
    let description = parse(
        "Package: project\nVersion: 1.0.0\nURL: https://example.com, not-a-url\n",
    );

    let error = normalize_description(source(), &description)
        .expect_err("invalid URL should prevent normalization");

    assert_eq!(error.count, 1);
    assert!(matches!(
        error.issues[0],
        DescriptionParseIssue::Positioned { .. }
    ));
    assert!(error.issues[0].message().contains("invalid-collection"));
}

#[test]
fn parses_root_package_and_version() {
    let description = parse("Package: project\nVersion: 1.2.3\n");

    let (package, version) =
        root_package(source(), &description).expect("root should parse");

    assert_eq!(package, "project");
    assert_eq!(version.text, "1.2.3");
}

#[test]
fn reports_all_invalid_root_fields() {
    let missing = parse("");
    let error = root_package(source(), &missing).expect_err("root should be invalid");
    assert_eq!(error.count, 2);

    let invalid = parse("Package: one\nPackage: two\nVersion: invalid\n");
    let error = root_package(source(), &invalid).expect_err("root should be invalid");
    assert_eq!(error.count, 1);
}

#[test]
fn reports_positioned_invalid_package_identity_fields() {
    let description = parse("Package: _bad\nVersion: nope\n");

    let error = root_package(source(), &description)
        .expect_err("invalid package identity should be rejected");

    assert_eq!(error.count, 2);
    assert!(
        error
            .issues
            .iter()
            .all(|issue| matches!(issue, DescriptionParseIssue::Positioned { .. }))
    );
}

#[test]
fn rejects_empty_root_package_and_version() {
    let description = parse("Package: \nVersion: \n");
    let error = root_package(source(), &description)
        .expect_err("empty root identity fields should be rejected");

    assert_eq!(error.count, 2);
}

#[test]
fn collects_project_dependencies_with_current_field_semantics() {
    let description = parse(
        "Package: project\nVersion: 1.0.0\nDepends: R (>= 4.2), jsonlite (== 1.8.9)\nImports: cli (>= 3.6.0), digest\nLinkingTo: cpp11\nSuggests: testthat (>= 3.0.0)\nEnhances: shiny\n",
    );

    assert_eq!(
        project_dependencies(source(), &description)
            .expect("project dependencies should parse")
            .items
            .iter()
            .map(Relation::to_text)
            .collect::<Vec<_>>(),
        [
            "cli (>= 3.6.0)",
            "cpp11",
            "digest",
            "jsonlite (== 1.8.9)",
            "testthat (>= 3.0.0)",
        ]
    );
    assert_eq!(
        required_dependencies("DESCRIPTION".to_string(), &description)
            .expect("required dependencies should parse")
            .items
            .iter()
            .map(Relation::to_text)
            .collect::<Vec<_>>(),
        ["cli (>= 3.6.0)", "cpp11", "digest", "jsonlite (== 1.8.9)",]
    );
}

#[test]
fn rejects_malformed_project_dependency_fields_together() {
    let description = parse(
        "Package: project\nVersion: 1.0.0\nImports: cli (>= invalid)\nSuggests: testthat (< invalid)\n",
    );

    let error = project_dependencies(source(), &description)
        .expect_err("dependencies should be invalid");

    assert_eq!(error.count, 2);
}

#[test]
fn permits_r_revisions_and_rejects_package_revision_requirements() {
    let r = parse("Package: project\nVersion: 1.0.0\nDepends: R (>= r123)\n");
    assert!(
        required_dependencies("DESCRIPTION".to_string(), &r)
            .expect("R revision should be accepted")
            .items
            .is_empty()
    );

    let package =
        parse("Package: project\nVersion: 1.0.0\nImports: example (>= r123)\n");
    let error = required_dependencies("DESCRIPTION".to_string(), &package)
        .expect_err("package revision should be rejected");
    assert!(
        error
            .messages()
            .iter()
            .any(|message| message.contains("revision requirements are only valid for R"))
    );
}

#[test]
fn add_moves_packages_to_selected_field_and_leaves_enhances_untouched() {
    for (field, selected_index) in [
        (DependencyField::Depends, 0),
        (DependencyField::Imports, 1),
        (DependencyField::LinkingTo, 2),
        (DependencyField::Suggests, 3),
    ] {
        let mut description = parse(
            "Package: project\nVersion: 1.0.0\nDepends: R (>= 4.2), dplyr (>= 1.0.0), keepDepends\nImports: dplyr (< 2.0.0), keepImports\nLinkingTo: dplyr, keepLinking\nSuggests: dplyr, keepSuggests\nEnhances: dplyr, keepEnhances\n",
        );

        add_dependencies(
            source(),
            &mut description,
            &relation_set(&["dplyr (== 1.1.0)"]),
            field,
        )
        .expect("dependency should be added");

        let managed_fields = [
            relation_strings(outside(&description).depends_parsed()),
            relation_strings(outside(&description).imports_parsed()),
            relation_strings(outside(&description).linking_to_parsed()),
            relation_strings(outside(&description).suggests_parsed()),
        ];
        assert!(managed_fields[selected_index].contains(&"dplyr (== 1.1.0)".to_string()));
        assert!(managed_fields.iter().enumerate().all(|(index, relations)| {
            index == selected_index
                || !relations
                    .iter()
                    .any(|relation| relation.starts_with("dplyr"))
        }));
        assert!(managed_fields[0].contains(&"R (>= 4.2)".to_string()));
        assert_eq!(
            relation_strings(outside(&description).enhances_parsed()),
            ["dplyr", "keepEnhances"]
        );
    }
}

#[test]
fn add_semantically_deduplicates_every_rewritten_field() {
    let mut description = parse(
        "Package: project\nVersion: 1.0.0\nDepends: alpha, alpha\nImports: beta (>= 1.0), beta (>= 1.0.0), zoo\nLinkingTo: gamma, gamma\nSuggests: delta, delta\n",
    );

    add_dependencies(
        source(),
        &mut description,
        &relation_set(&["askpass", "cli"]),
        DependencyField::Imports,
    )
    .expect("dependencies should be added");

    assert_eq!(relation_strings(outside(&description).depends_parsed()), ["alpha"]);
    assert_eq!(
        relation_strings(outside(&description).imports_parsed()),
        ["askpass", "beta (>= 1.0.0)", "cli", "zoo"]
    );
    assert_eq!(relation_strings(outside(&description).linking_to_parsed()), ["gamma"]);
    assert_eq!(relation_strings(outside(&description).suggests_parsed()), ["delta"]);
    assert_eq!(
        description.text.clone(),
        "Package: project\nVersion: 1.0.0\nDepends:\n    alpha\nImports:\n    askpass,\n    beta (>= 1.0.0),\n    cli,\n    zoo\nLinkingTo:\n    gamma\nSuggests:\n    delta\n"
    );
}

#[test]
fn add_preserves_distinct_requirements_for_the_same_package() {
    let mut description = parse(
        "Package: project\nVersion: 1.0.0\nImports: cli (>= 1.0.0), cli (< 2.0.0)\n",
    );

    add_dependencies(
        source(),
        &mut description,
        &relation_set(&["digest"]),
        DependencyField::Imports,
    )
    .expect("dependency should be added");

    assert_eq!(
        relation_strings(outside(&description).imports_parsed()),
        ["cli (< 2.0.0)", "cli (>= 1.0.0)", "digest"]
    );
}

#[test]
fn add_is_transactional_when_any_dependency_field_is_invalid() {
    let mut description = parse(
        "Package: project\nVersion: 1.0.0\nDepends: cli\nImports: digest (>= invalid)\n",
    );
    let original = description.text.clone();

    assert!(
        add_dependencies(
            source(),
            &mut description,
            &relation_set(&["jsonlite"]),
            DependencyField::Imports,
        )
        .is_err()
    );
    assert_eq!(description.text.clone(), original);
}

#[test]
fn add_reports_edit_failures_as_mutation_errors() {
    let mut description = parse("");

    let error = add_dependencies(
        source(),
        &mut description,
        &relation_set(&["jsonlite"]),
        DependencyField::Imports,
    )
    .expect_err("a missing record cannot be edited");

    assert!(matches!(error, DependencyMutationError::Mutation { .. }));
}

#[test]
fn empty_add_does_not_rewrite_existing_fields() {
    let mut description =
        parse("Package: project\nVersion: 1.0.0\nImports: cli, cli\n");
    let original = description.text.clone();

    add_dependencies(
        source(),
        &mut description,
        &SortedSet::new(),
        DependencyField::Suggests,
    )
    .expect("empty add should succeed");

    assert_eq!(description.text.clone(), original);
}

#[test]
fn remove_normalizes_managed_fields_and_leaves_enhances_untouched() {
    let mut description = parse(
        "Package: project\nVersion: 1.0.0\nDepends: R (>= 4.2), removeMe, keepDepends, keepDepends\nImports: removeMe, keepImports, keepImports\nLinkingTo: removeMe, keepLinking, keepLinking\nSuggests: removeMe, keepSuggests, keepSuggests\nEnhances: removeMe, keepEnhances, keepEnhances\n",
    );

    remove_dependencies(
        source(),
        &mut description,
        &vec!["removeMe".to_string()],
    )
    .expect("dependency should be removed");

    assert_eq!(
        relation_strings(outside(&description).depends_parsed()),
        ["keepDepends", "R (>= 4.2)"]
    );
    assert_eq!(
        relation_strings(outside(&description).imports_parsed()),
        ["keepImports"]
    );
    assert_eq!(
        relation_strings(outside(&description).linking_to_parsed()),
        ["keepLinking"]
    );
    assert_eq!(
        relation_strings(outside(&description).suggests_parsed()),
        ["keepSuggests"]
    );
    assert_eq!(
        relation_strings(outside(&description).enhances_parsed()),
        ["removeMe", "keepEnhances", "keepEnhances"]
    );
    assert_eq!(
        description.text.clone(),
        "Package: project\nVersion: 1.0.0\nDepends:\n    keepDepends,\n    R (>= 4.2)\nImports:\n    keepImports\nLinkingTo:\n    keepLinking\nSuggests:\n    keepSuggests\nEnhances: removeMe, keepEnhances, keepEnhances\n"
    );
}

#[test]
fn remove_dependencies_replaces_duplicate_exact_name_declarations() {
    let mut description = parse(
        "Package: project\nVersion: 1.0.0\nImports: removeMe, keepEarlier\nImports: keepLater\n",
    );

    remove_dependencies(
        source(),
        &mut description,
        &vec!["removeMe".to_string()],
    )
    .expect("dependency should be removed");

    assert_eq!(outside(&description).fields("Imports").count(), 1);
    assert_eq!(
        relation_strings(outside(&description).imports_parsed()),
        ["keepEarlier", "keepLater"]
    );
}

#[test]
fn remove_is_transactional_when_any_dependency_field_is_invalid() {
    let mut description = parse(
        "Package: project\nVersion: 1.0.0\nDepends: cli\nSuggests: testthat (>= invalid)\n",
    );
    let original = description.text.clone();

    assert!(
        remove_dependencies(
            source(),
            &mut description,
            &vec!["cli".to_string()],
        )
        .is_err()
    );
    assert_eq!(description.text.clone(), original);
}

#[test]
fn parses_supported_git_remotes() {
    let description = parse(
        "Package: project\nVersion: 1.0.0\nRemotes: github::owner/github-package@main,\n gitlab@code.example::group/gitlab-package,\n bitbucket::owner/bitbucket-package/subdir@v1,\n generic=git::ssh://git@example.com/team/generic-package.git@develop\n",
    );

    let remotes = remotes(source(), &description).expect("remotes should parse");

    assert_eq!(remotes.len(), 4);
    assert!(matches!(remotes[0].source, RemoteSource::GitHub(_)));
    assert!(matches!(remotes[1].source, RemoteSource::GitLab(_)));
    assert!(matches!(remotes[2].source, RemoteSource::Bitbucket(_)));
    assert!(matches!(remotes[3].source, RemoteSource::Git { .. }));
    assert_eq!(remotes[1].host.as_deref(), Some("code.example"));
    assert_eq!(remotes[3].package.as_deref(), Some("generic"));
}

#[test]
fn remotes_that_cannot_be_read_again_keep_their_kind() {
    let description = parse(
        "Package: project\nVersion: 1.0.0\nRemotes: one=svn::https://a\u{ff0c}b.test/x, url::https://c.test/y\n",
    );

    let error = remotes(source(), &description).expect_err("neither is a Git repository");

    let messages: Vec<String> = error
        .issues
        .iter()
        .map(|issue| match issue {
            DescriptionParseIssue::Unpositioned { message } => message.clone(),
            other => panic!("unexpected issue {other:?}"),
        })
        .collect();
    assert_eq!(
        messages,
        [
            "unsupported remote `one=svn::https://a,b.test/x` of type `svn`",
            "unsupported remote `url::https://c.test/y` of type `url`",
        ]
    );
}

#[test]
fn rejects_malformed_unsupported_and_duplicate_remotes() {
    let malformed =
        parse("Package: project\nVersion: 1.0.0\nRemotes: github::owner\n");
    assert!(remotes(source(), &malformed).is_err());

    let invalid = parse(
        "Package: project\nVersion: 1.0.0\nRemotes: dependency=url::https://example.com/pkg.tar.gz, dependency=owner/repository\n",
    );
    let error = remotes(source(), &invalid).expect_err("remotes should be invalid");
    assert_eq!(error.count, 2);
}

#[test]
fn parses_additional_repositories_in_source_order() {
    let description = parse(
        "Package: project\nVersion: 1.0.0\nAdditional_repositories: https://first.example/cran, https://second.example/cran\n",
    );

    assert_eq!(
        additional_repositories(source(), &description)
            .expect("repositories should parse")
            .into_iter()
            .map(|url| url.to_string())
            .collect::<Vec<_>>(),
        ["https://first.example/cran", "https://second.example/cran"]
    );
}

#[test]
fn parses_and_sets_base_repository() {
    let mut description = parse(
        "Package: project\nVersion: 1.0.0\nConfig/rpx/base-repository: https://first.example/cran\nconfig/RPX/base-repository: https://second.example/cran\n",
    );
    assert_eq!(
        base_repository(source(), &description)
            .unwrap()
            .unwrap()
            .as_str(),
        "https://first.example/cran"
    );

    let expected = parse_repository_url("https://replacement.example/cran").unwrap();
    set_base_repository(&mut description, &expected).expect("base repository should be set");

    assert_eq!(outside(&description).fields(BASE_REPOSITORY_FIELD).count(), 1);
    assert_eq!(
        base_repository(source(), &description).unwrap(),
        Some(expected)
    );

    reset_base_repository(&mut description);
    assert_eq!(base_repository(source(), &description).unwrap(), None);
}

#[test]
fn adds_and_removes_normalized_additional_repositories() {
    let mut description = parse(
        "Package: project\nVersion: 1.0.0\nAdditional_repositories: https://first.example/cran/\n",
    );
    let first = parse_repository_url("https://first.example/cran").unwrap();
    let second = parse_repository_url("https://second.example/cran").unwrap();

    assert!(
        !add_additional_repository(source(), &mut description, first.clone()).unwrap()
    );
    assert!(
        add_additional_repository(source(), &mut description, second.clone()).unwrap()
    );
    assert!(remove_additional_repository(source(), &mut description, &first).unwrap());
    assert_eq!(
        additional_repositories(source(), &description).unwrap(),
        vec![second]
    );
}

#[test]
fn remove_additional_repository_replaces_duplicate_exact_name_declarations() {
    let mut description = parse(
        "Package: project\nVersion: 1.0.0\nAdditional_repositories: https://remove.example/cran, https://earlier.example/cran\nAdditional_repositories: https://later.example/cran\n",
    );
    let removed = parse_repository_url("https://remove.example/cran").unwrap();

    assert!(remove_additional_repository(source(), &mut description, &removed).unwrap());

    assert_eq!(outside(&description).fields("Additional_repositories").count(), 1);
    assert_eq!(
        additional_repositories(source(), &description)
            .unwrap()
            .into_iter()
            .map(|repository| repository.to_string())
            .collect::<Vec<_>>(),
        ["https://earlier.example/cran", "https://later.example/cran"]
    );
}

#[test]
fn adds_and_removes_remote_repositories_without_losing_source_details() {
    let mut description = parse(
        "Package: project\nVersion: 1.0.0\nRemotes: github::owner/existing@main\n",
    );
    let remote =
        Remote::parse("alias=gitlab@code.example::group/repository/subdir@develop").unwrap();

    assert!(add_remote_repository(source(), &mut description, &remote).unwrap());
    assert!(!add_remote_repository(source(), &mut description, &remote).unwrap());
    let configured = remotes(source(), &description).unwrap();
    assert_eq!(configured[1].text, remote.text);
    assert_eq!(format!("{:?}", configured[1]), format!("{remote:?}"));
    assert_eq!(configured[1].package.as_deref(), Some("alias"));
    assert_eq!(configured[1].host.as_deref(), Some("code.example"));

    assert!(remove_remote_repository(source(), &mut description, &remote).unwrap());
    assert_eq!(
        format!("{:?}", remotes(source(), &description).unwrap()),
        format!("{:?}", vec![Remote::parse("github::owner/existing@main").unwrap()])
    );
}

#[test]
fn remove_remote_replaces_duplicate_exact_name_declarations() {
    let mut description = parse(
        "Package: project\nVersion: 1.0.0\nRemotes: github::owner/remove, github::owner/earlier\nRemotes: gitlab::owner/later\n",
    );
    let removed = Remote::parse("github::owner/remove").unwrap();

    assert!(remove_remote_repository(source(), &mut description, &removed).unwrap());

    assert_eq!(outside(&description).fields("Remotes").count(), 1);
    assert_eq!(
        remotes(source(), &description)
            .unwrap()
            .into_iter()
            .map(|remote| remote.text)
            .collect::<Vec<_>>(),
        ["github::owner/earlier", "gitlab::owner/later"]
    );
}

#[test]
fn unsupported_remote_addition_does_not_mutate_description() {
    let mut description = parse(
        "Package: project\nVersion: 1.0.0\nRemotes: github::owner/existing\n",
    );
    let original = description.text.clone();
    let unsupported = Remote::parse("archive=url::https://example.test/package.tar.gz").unwrap();

    assert!(add_remote_repository(source(), &mut description, &unsupported).is_err());
    assert_eq!(description.text, original);
}

#[test]
fn rejects_invalid_base_and_additional_repositories() {
    let base = parse(
        "Package: project\nVersion: 1.0.0\nConfig/rpx/base-repository: not-a-url\n",
    );
    assert!(base_repository(source(), &base).is_err());

    let additional = parse(
        "Package: project\nVersion: 1.0.0\nAdditional_repositories: not-a-url\n",
    );
    assert!(additional_repositories(source(), &additional).is_err());
}

#[test]
fn configures_base_git_and_additional_repositories_in_order() {
    let description = parse(
        "Package: project\nVersion: 1.0.0\nConfig/rpx/base-repository: https://base.example/cran/\nRemotes: github::owner/repository@main\nAdditional_repositories: https://additional.example/cran/\n",
    );

    let repositories = configured_repositories(source(), &description)
        .expect("repositories should configure");

    assert!(matches!(
        &repositories[0],
        ConfiguredRepository::Base(url) if url.as_str() == "https://base.example/cran"
    ));
    assert!(matches!(
        &repositories[1],
        ConfiguredRepository::Git(remote)
            if matches!(remote.source, RemoteSource::GitHub(_))
    ));
    assert!(matches!(
        &repositories[2],
        ConfiguredRepository::Additional(url)
            if url.as_str() == "https://additional.example/cran"
    ));
}

#[test]
fn configures_builtin_base_repository_by_default() {
    let repositories = configured_repositories(source(), &parse(""))
        .expect("default repository should configure");

    assert_eq!(repositories.len(), 1);
    assert!(matches!(
        &repositories[0],
        ConfiguredRepository::Base(url) if *url == built_in_repository_url()
    ));
}

#[test]
fn aggregates_repository_configuration_errors() {
    let description = parse(
        "Package: project\nVersion: 1.0.0\nConfig/rpx/base-repository: not-a-url\nRemotes: archive=url::https://example.com/pkg.tar.gz\nAdditional_repositories: also-not-a-url\n",
    );

    let error = configured_repositories(source(), &description)
        .expect_err("repositories should be invalid");

    assert_eq!(error.count, 3);
}

#[test]
fn removes_empty_dependency_fields() {
    let mut description = parse(
        "Package: testpkg\nVersion: 0.1.0\nTitle: Test Package\nDescription: Test package for unit tests.\nLicense: MIT\nImports: digest\n",
    );
    remove_dependencies(
        source(),
        &mut description,
        &vec!["digest".to_string()],
    )
    .unwrap();

    let contents = description.text.clone();
    assert_eq!(
        contents,
        "Package: testpkg\nVersion: 0.1.0\nTitle: Test Package\nDescription: Test package for unit tests.\nLicense: MIT\n"
    );
    assert!(
        outside(&parse(&contents)).diagnostics().is_empty(),
        "serialized DESCRIPTION should parse:\n{contents}"
    );
}

#[test]
fn malformed_documents_are_refused() {
    let contents = "Package: project\nVersion: 1.0.0\nthis line is malformed\n".to_string();
    let error = check_description(source(), contents).expect_err("document should be refused");
    assert_eq!(error.source_name, "./DESCRIPTION");
    assert!(error.count > 0);

    let contents = "Package: project\nVersion: 2.0.0\nImports: cli\n".to_string();
    let description = check_description(source(), contents.clone()).expect("document is sound");
    assert_eq!(description.text, contents);
}
