use rpx::cli::RepositoryType;
use rpx::description::Description;
use rpx::repo::{
    add_additional, add_remote, list, pad, remove_additional, remove_remote, repository_url,
    reset_base, set_base, RepoError,
};
use rpx::repository::built_in_repository_url;

fn description(fields: &str) -> Description {
    Description { text: format!("Package: project\nVersion: 1.0.0\n{fields}") }
}

fn source() -> String {
    "DESCRIPTION".to_string()
}

#[test]
fn base_repositories_are_set_and_reset() {
    let mut d = description("");
    let change = set_base(source(), &mut d, " https://a.test/cran/ ").unwrap();
    assert!(change.changed);
    assert_eq!(change.messages, ["Set base repository https://a.test/cran"]);
    let change = set_base(source(), &mut d, "https://a.test/cran").unwrap();
    assert!(!change.changed);
    assert_eq!(
        change.messages,
        ["Base repository already configured: https://a.test/cran"]
    );
    let change = set_base(source(), &mut d, "https://b.test/cran").unwrap();
    assert_eq!(
        change.messages,
        ["Replaced base repository https://a.test/cran with https://b.test/cran"]
    );
    let change = reset_base(source(), &mut d, true).unwrap();
    assert!(change.changed);
    assert_eq!(change.credential.as_deref(), Some("https://b.test/cran"));
    assert_eq!(
        change.messages,
        [format!(
            "Reset base repository from https://b.test/cran to {}",
            built_in_repository_url()
        )]
    );
    let change = reset_base(source(), &mut d, true).unwrap();
    assert!(!change.changed);
    assert!(change.credential.is_none());
    assert_eq!(change.messages, ["Base repository is already reset"]);
}

#[test]
fn additional_repositories_are_added_and_removed() {
    let mut d = description("");
    let change = add_additional(source(), &mut d, "https://a.test/cran").unwrap();
    assert_eq!(change.messages, ["Added additional repository https://a.test/cran"]);
    let change = add_additional(source(), &mut d, "https://a.test/cran/").unwrap();
    assert!(!change.changed);
    assert_eq!(change.messages, ["Repository already configured: https://a.test/cran"]);
    let change = remove_additional(source(), &mut d, "https://a.test/cran", false).unwrap();
    assert!(change.changed);
    assert_eq!(change.messages, ["Removed additional repository https://a.test/cran"]);
    let change = remove_additional(source(), &mut d, "https://a.test/cran", true).unwrap();
    assert!(!change.changed);
    assert_eq!(change.credential.as_deref(), Some("https://a.test/cran"));
    assert_eq!(
        change.messages,
        [
            "Removed stored credential for https://a.test/cran",
            "Repository not configured: https://a.test/cran",
        ]
    );
}

#[test]
fn remote_packages_are_added_and_removed() {
    let mut d = description("");
    let change = add_remote(source(), &mut d, "github::a/b@main").unwrap();
    assert_eq!(change.messages, ["Added remote repository github::a/b@main"]);
    assert!(!add_remote(source(), &mut d, "github::a/b@main").unwrap().changed);
    assert!(remove_remote(source(), &mut d, "github::a/b@main").unwrap().changed);
    assert_eq!(
        remove_remote(source(), &mut d, "github::a/b@main").unwrap().messages,
        ["Remote not configured: github::a/b@main"]
    );
}

#[test]
fn repositories_are_listed_in_columns() {
    let d = description(
        "Remotes: github::a/b\nAdditional_repositories: https://x.test/cran, https://y.test/cran\n",
    );
    assert_eq!(
        list("DESCRIPTION", &d, None).unwrap(),
        [
            "TYPE        SOURCE        REPOSITORY".to_string(),
            format!("base        built-in      {}", built_in_repository_url()),
            "remote      DESCRIPTION   github::a/b".to_string(),
            "additional  DESCRIPTION   https://x.test/cran".to_string(),
            "additional  DESCRIPTION   https://y.test/cran".to_string(),
        ]
    );
    assert_eq!(
        list("DESCRIPTION", &d, Some(RepositoryType::Remote)).unwrap(),
        [
            "TYPE        SOURCE        REPOSITORY",
            "remote      DESCRIPTION   github::a/b",
        ]
    );
    assert_eq!(pad("abc", 2), "abc");
}

#[test]
fn faults_of_repositories_are_told() {
    assert!(matches!(
        repository_url("base", " nothing "),
        Err(RepoError::RepositoryUrl { action: "base", url }) if url == "nothing"
    ));
    let mut d = description("Config/rpx/base-repository: not-a-url\n");
    assert!(matches!(
        set_base(source(), &mut d, "https://a.test"),
        Err(RepoError::DescriptionParse(error)) if error.count == 1
    ));
    assert!(matches!(
        add_remote(source(), &mut d, "github::owner"),
        Err(RepoError::RemoteParse { remote, .. }) if remote == "github::owner"
    ));
    let mut d = description("Additional_repositories: not-a-url\n");
    assert!(matches!(
        add_additional(source(), &mut d, "https://a.test"),
        Err(RepoError::RepositoryMutation(_))
    ));
    let mut empty = Description { text: String::new() };
    assert!(matches!(
        set_base(source(), &mut empty, "https://a.test"),
        Err(RepoError::BaseMutation { .. })
    ));
}
