use rpx::cli::{InitArgs, InitLicense};
use rpx::init::{
    accepted_suggestion, author_email_validation_reason, authors_at_r, closing_messages,
    default_author_email, default_author_name, derive_package_name, development_relations,
    initial_description, license_files, new_description, next_suggestion, plan_init, resolve_target,
    suggested_directory, suggested_name, title_from_package_name, validate_author_email,
    validate_author_name, validate_package_name, validate_target, validate_text,
    DevelopmentPackage, InitError, InitialDescriptionOptions, PackageNameIssue,
    PackageNameValidationError, SuggestionStep, TargetState, TextField, RBUILDIGNORE,
    SUGGESTION_ATTEMPTS,
};
use rpx::metadata::Relation;

#[test]
fn derives_title_from_package_name() {
    assert_eq!(
        title_from_package_name("my.package.name"),
        "My Package Name"
    );
    assert_eq!(title_from_package_name("..éa.b9."), "éa B9");
}

#[test]
fn derives_and_validates_package_names_from_directory_names() {
    assert_eq!(
        derive_package_name("/tmp/my-project_name").unwrap(),
        "my.project.name"
    );
    assert!(matches!(
        derive_package_name("/tmp/123-project"),
        Err(InitError::InvalidPackageName(_))
    ));
    assert!(matches!(
        derive_package_name("/tmp/---"),
        Err(InitError::InvalidPackageName(_))
    ));
    assert!(matches!(
        derive_package_name("/tmp/x"),
        Err(InitError::InvalidPackageName(_))
    ));
    assert_eq!(derive_package_name("/tmp/-a__b!c-.").unwrap(), "a.bc");
    assert!(matches!(
        derive_package_name("/tmp/.."),
        Err(InitError::MissingDirectoryName { path }) if path == "/tmp/.."
    ));
    assert!(matches!(
        derive_package_name("/"),
        Err(InitError::MissingDirectoryName { .. })
    ));
}

#[test]
fn validates_explicit_package_names() {
    for package_name in ["ab", "example", "example.pkg", "a1"] {
        validate_package_name(package_name).expect("package name should be valid");
    }

    for package_name in ["", "x", "1example", "example-", "example.", "éxample"] {
        assert!(
            matches!(
                validate_package_name(package_name),
                Err(PackageNameValidationError { .. })
            ),
            "package name should be invalid: {package_name}"
        );
    }
    let error = validate_package_name("-").unwrap_err();
    assert_eq!(
        error.issues,
        [
            PackageNameIssue::TooShort,
            PackageNameIssue::MustStartWithLetter,
            PackageNameIssue::InvalidCharacters,
        ]
    );
    assert_eq!(
        validate_package_name("ab.").unwrap_err().inline_message(),
        "must not end with a dot"
    );
}

#[test]
fn validates_author_names_with_related_issues() {
    validate_author_name("Package Author").expect("author name should be valid");

    let error = validate_author_name("\n").expect_err("author name should be invalid");
    assert_eq!(error.issues.len(), 2);
    assert_eq!(
        error.inline_message(),
        "must not be empty; must be a single line without control characters"
    );
}

#[test]
fn validates_required_description_text_with_related_issues() {
    validate_text("A useful package.", TextField::Description)
        .expect("description should be valid");

    let error = validate_text("\n", TextField::Title).expect_err("title should be invalid");
    assert_eq!(error.issues.len(), 2);
    assert_eq!(
        error.inline_message(),
        "must not be empty; must be a single line without control characters"
    );
}

#[test]
fn maps_selected_development_packages_to_unconstrained_relations() {
    let relations = development_relations(&vec![
        DevelopmentPackage::Testthat,
        DevelopmentPackage::Roxygen2,
        DevelopmentPackage::Devtools,
    ]);

    assert_eq!(
        relations.items.iter().map(Relation::to_text).collect::<Vec<_>>(),
        ["devtools", "roxygen2", "testthat"]
    );
}

fn options() -> InitialDescriptionOptions {
    InitialDescriptionOptions {
        package_name: "my.package".to_string(),
        title: "My Package".to_string(),
        description: "Describe what this package does.".to_string(),
        authors_at_r: r#"person(given = "Package Author", email = "author@example.com", role = c("aut", "cre"))"#.to_string(),
        author: "Package Author [aut, cre]".to_string(),
        maintainer: "Package Author <author@example.com>".to_string(),
        license: "MIT + file LICENSE".to_string(),
    }
}

#[test]
fn creates_initial_description() {
    let description = initial_description(options()).expect("description should initialize");

    let parsed = r_description::Description::parse(&description.text);
    assert_eq!(parsed.package().unwrap().as_str(), "my.package");
    assert_eq!(parsed.version().unwrap().as_str(), "0.1.0");
    assert_eq!(parsed.title().unwrap().as_str(), "My Package");
    assert_eq!(
        parsed.description().unwrap().as_str(),
        "Describe what this package does."
    );
    assert_eq!(parsed.license().unwrap().as_str(), "MIT + file LICENSE");
    let rendered = description.text;
    assert!(rendered.contains(
        "Authors@R: person(given = \"Package Author\", email = \"author@example.com\", role = c(\"aut\", \"cre\"))"
    ));
    assert!(rendered.contains("Author: Package Author [aut, cre]"));
    assert!(rendered.contains("Maintainer: Package Author <author@example.com>"));
}

#[test]
fn production_rbuildignore_has_exact_contents() {
    assert_eq!(
        RBUILDIGNORE,
        "^rpx\\.lock$\n\
^.*\\.Rproj$\n\
^\\.Rproj\\.user$\n\
^README\\.Rmd$\n\
^LICENSE\\.md$\n\
^cran-comments\\.md$\n\
^CRAN-SUBMISSION$\n\
^CRAN-RELEASE$\n\
^revdep$\n\
^data-raw$\n\
^pkgdown$\n\
^_pkgdown\\.yml$\n\
^docs$\n\
^\\.github$\n\
^\\.vscode$\n\
^[.]?air[.]toml$\n"
    );
}

fn args() -> InitArgs {
    InitArgs {
        path: None,
        name: None,
        title: None,
        description: None,
        author_name: None,
        author_email: None,
        license: None,
    }
}

#[test]
fn plans_a_project_by_defaults() {
    let plan = plan_init(args(), "/home/me/my-tool").expect("plan should be made");
    assert_eq!(plan.package_name, "my.tool");
    assert_eq!(plan.license, InitLicense::Mit);
    assert_eq!(plan.options.title, "My Tool");
    assert_eq!(plan.options.description, "Describe what this package does.");
    assert_eq!(plan.options.author, "Package Author [aut, cre]");
    assert_eq!(plan.options.maintainer, "Package Author <author@example.com>");
    assert_eq!(plan.options.license, "MIT + file LICENSE");
}

#[test]
fn plans_a_project_by_what_is_given() {
    let plan = plan_init(
        InitArgs {
            name: Some("a.b".to_string()),
            title: Some("  T ".to_string()),
            description: Some("D\u{2003}".to_string()),
            author_name: Some("A \"B\" \\C".to_string()),
            author_email: Some(" a@b.c ".to_string()),
            license: Some(InitLicense::Cc0),
            ..args()
        },
        "/",
    )
    .expect("plan should be made");
    assert_eq!(plan.options.title, "T");
    assert_eq!(plan.options.description, "D");
    assert_eq!(
        plan.options.authors_at_r,
        "person(given = \"A \\\"B\\\" \\\\C\", email = \"a@b.c\", role = c(\"aut\", \"cre\"))"
    );
    assert_eq!(plan.options.maintainer, "A \"B\" \\C <a@b.c>");
    assert_eq!(plan.options.license, "CC0");
}

#[test]
fn the_first_fault_of_a_plan_is_told() {
    let bad = |change: fn(&mut InitArgs)| {
        let mut args = args();
        change(&mut args);
        plan_init(args, "/home/me/tool").expect_err("plan should fail")
    };
    assert!(matches!(
        bad(|a| {
            a.name = Some("1".to_string());
            a.title = Some(String::new());
        }),
        InitError::InvalidPackageName(_)
    ));
    assert!(matches!(
        bad(|a| a.title = Some(" ".to_string())),
        InitError::InvalidText(error) if error.field == TextField::Title
    ));
    assert!(matches!(
        bad(|a| a.description = Some("a\nb".to_string())),
        InitError::InvalidText(error) if error.field == TextField::Description
    ));
    assert!(matches!(
        bad(|a| a.author_name = Some("\t".to_string())),
        InitError::InvalidAuthorName(_)
    ));
    assert!(matches!(
        bad(|a| a.author_email = Some("nobody".to_string())),
        InitError::InvalidAuthorEmail { author_email, .. } if author_email == "nobody"
    ));
}

#[test]
fn validates_author_emails() {
    assert_eq!(validate_author_email(" a@b ".to_string()).unwrap(), "a@b");
    for (email, reason) in [
        ("ab", "must contain an @ separating local and domain parts"),
        ("@b", "must contain non-empty local and domain parts"),
        ("a@", "must contain non-empty local and domain parts"),
        ("a@b@c", "must contain exactly one @"),
        ("a b@c", "must be an ASCII address without whitespace or control characters"),
        ("é@c", "must be an ASCII address without whitespace or control characters"),
    ] {
        assert_eq!(author_email_validation_reason(email), Some(reason));
    }
}

#[test]
fn authors_are_written_for_r() {
    assert_eq!(
        authors_at_r("A", "a@b"),
        "person(given = \"A\", email = \"a@b\", role = c(\"aut\", \"cre\"))"
    );
}

#[test]
fn configured_identities_are_suggested_if_they_are_sound() {
    assert_eq!(default_author_name(Some("Me".to_string())), "Me");
    assert_eq!(default_author_name(Some(" ".to_string())), "Package Author");
    assert_eq!(default_author_name(None), "Package Author");
    assert_eq!(default_author_email(Some("a@b".to_string())), "a@b");
    assert_eq!(default_author_email(Some("a".to_string())), "author@example.com");
}

#[test]
fn licenses_have_their_files() {
    assert_eq!(
        license_files(
            InitLicense::Mit,
            2024,
            "Me",
            "(c) {{{year}}} {{{copyright_holder}}} {{{year}}}"
        ),
        [
            (
                "LICENSE".to_string(),
                "YEAR: 2024\nCOPYRIGHT HOLDER: Me\n".to_string()
            ),
            ("LICENSE.md".to_string(), "(c) 2024 Me 2024".to_string()),
        ]
    );
    assert_eq!(
        license_files(InitLicense::Proprietary, 2024, "Me", ""),
        [(
            "LICENSE".to_string(),
            "Copyright 2024 Me. All rights reserved.\n".to_string()
        )]
    );
    assert_eq!(
        license_files(InitLicense::Gpl3, 2024, "Me", "GPL {{{year}}}"),
        [("LICENSE.md".to_string(), "GPL {{{year}}}".to_string())]
    );
}

#[test]
fn targets_have_to_be_missing_or_empty() {
    assert!(validate_target("/a", TargetState::Missing).is_ok());
    assert!(validate_target("/a", TargetState::Empty).is_ok());
    assert!(matches!(
        validate_target("/a", TargetState::NotEmpty),
        Err(InitError::TargetNotEmpty { path }) if path == "/a"
    ));
    assert!(matches!(
        validate_target("/a", TargetState::NotADirectory),
        Err(InitError::TargetNotDirectory { path }) if path == "/a"
    ));
    assert!(matches!(
        validate_target("/a", TargetState::Unreadable { details: "no".to_string() }),
        Err(InitError::ReadTarget { details, .. }) if details == "no"
    ));
    assert_eq!(resolve_target("/home", "a/b"), "/home/a/b");
    assert_eq!(resolve_target("/home", "/a"), "/a");
}

#[test]
fn suggested_names_are_two_small_words() {
    for _ in 0..20 {
        if let Some(name) = suggested_name() {
            let words = name.split('-').collect::<Vec<_>>();
            assert_eq!(words.len(), 2);
            assert!(words
                .iter()
                .all(|w| !w.is_empty() && w.chars().all(|c| c.is_ascii_lowercase())));
        }
    }
    assert_eq!(
        accepted_suggestion("big-cat".to_string()),
        Some("big-cat".to_string())
    );
    assert_eq!(accepted_suggestion("big-cat-x".to_string()), None);
    assert_eq!(accepted_suggestion("Big-cat".to_string()), None);
    assert_eq!(accepted_suggestion("-cat".to_string()), None);
    assert_eq!(suggested_directory("big-cat"), "./big-cat");
}

#[test]
fn closing_messages_tell_where_to_go() {
    assert_eq!(
        closing_messages("/a/b", "/a", false),
        [
            "Initialized project at /a/b",
            "Next: cd `/a/b`",
            "Then: run `rpx add <package>`",
        ]
    );
    assert_eq!(
        closing_messages("/a", "/a/", true),
        [
            "Initialized project and Git repository at /a",
            "Next: run `rpx add <package>`",
        ]
    );
}

#[test]
fn new_descriptions_suggest_development_packages() {
    let (description, relations) = new_description(
        "/p",
        options(),
        &vec![DevelopmentPackage::Testthat, DevelopmentPackage::Devtools],
    )
    .expect("description should be made");
    assert_eq!(relations.items.len(), 2);
    let parsed = r_description::Description::parse(&description.text);
    assert_eq!(
        parsed
            .suggests_parsed()
            .values()
            .map(|r| r.to_string())
            .collect::<Vec<_>>(),
        ["devtools", "testthat"]
    );
}

#[test]
fn names_are_tried_until_one_is_free() {
    let name = || Some("big-cat".to_string());
    assert!(matches!(
        next_suggestion(1, name(), false),
        Ok(SuggestionStep::Suggest(directory)) if directory == "./big-cat"
    ));
    assert!(matches!(next_suggestion(1, name(), true), Ok(SuggestionStep::TryAgain)));
    assert!(matches!(next_suggestion(1, None, false), Ok(SuggestionStep::TryAgain)));
    assert!(matches!(
        next_suggestion(SUGGESTION_ATTEMPTS, name(), true),
        Err(InitError::ProjectNameGeneration)
    ));
    assert!(matches!(
        next_suggestion(SUGGESTION_ATTEMPTS, name(), false),
        Ok(SuggestionStep::Suggest(_))
    ));
}

#[test]
fn derived_names_are_derived_again_from_themselves() {
    for path in ["/tmp/my-package", "/tmp/A b_c", "pkg.name"] {
        let name = derive_package_name(path).unwrap();
        assert_eq!(derive_package_name(&name).unwrap(), name);
        assert_eq!(derive_package_name(&format!("/other/{name}")).unwrap(), name);
    }
}
