use rpx::git::{
    answers_true, canonical_cache_url, checkout_path, config_value, configured_identity,
    names_to_check, parse_advertised_references, process_error, remote_key, requested_oid, scp_delimiter, select_reference,
    valid_checkout,
    ConfigValue, GitError, GitOid, GitUrl,
};
use rpx::remote::Remote;

fn remote(text: &str) -> Remote {
    Remote::parse(text).expect("remote should parse")
}

#[test]
fn git_oid_is_exact_hex_and_canonical_lowercase() {
    let uppercase = "ABCDEFABCDEFABCDEFABCDEFABCDEFABCDEFABCD";
    let oid = GitOid::parse(uppercase).expect("OID should parse");
    assert_eq!(oid.to_text(), uppercase.to_ascii_lowercase());
    assert!(GitOid::parse(uppercase).unwrap().same(&oid));
    assert!(GitOid::parse("abc").is_err());
    assert!(GitOid::parse("gggggggggggggggggggggggggggggggggggggggg").is_err());
}

#[test]
fn canonicalizes_credential_free_cache_keys() {
    let scp =
        GitUrl::from_generic("git@example.com:team/repository.git").expect("SCP URL should parse");
    let ssh = GitUrl::from_generic("ssh://other@example.com:22/team/repository.git/")
        .expect("SSH URL should parse");

    assert_eq!(remote_key(&scp), remote_key(&ssh));
    assert_eq!(canonical_cache_url(&scp), canonical_cache_url(&ssh));
}

#[test]
fn canonicalizes_scp_urls_to_ssh() {
    let remote =
        GitUrl::from_generic("git@example.com:team/repository.git").expect("SCP URL should parse");

    assert_eq!(remote.as_str(), "ssh://git@example.com/team/repository.git");
}

#[test]
fn builds_hosted_https_urls() {
    let github = remote("github::owner/repository@main");
    let gitlab = remote("gitlab@code.example::group/subgroup/repository");
    let bitbucket = remote("bitbucket::owner/repository/subdirectory");

    assert_eq!(
        GitUrl::from_remote(&github).expect("URL should build").as_str(),
        "https://github.com/owner/repository.git"
    );
    assert_eq!(
        GitUrl::from_remote(&gitlab).expect("URL should build").as_str(),
        "https://code.example/group/subgroup/repository.git"
    );
    assert_eq!(
        GitUrl::from_remote(&bitbucket).expect("URL should build").as_str(),
        "https://bitbucket.org/owner/repository.git"
    );
}

#[test]
fn validates_generic_remote_urls() {
    for value in [
        "git::https://example.com/team/repository.git",
        "git::ssh://git@example.com/team/repository.git",
        "git::git@example.com:team/repository.git",
    ] {
        GitUrl::from_remote(&remote(value)).expect("Git URL should be accepted");
    }

    for value in [
        "git::file:///tmp/repository",
        "git::../repository",
        "git::http://example.com/repository.git",
        "git::https://user@example.com/repository.git",
        "git::ssh://example.com/team/repository.git",
        "git::example.com:team/repository.git",
    ] {
        assert!(GitUrl::from_remote(&remote(value)).is_err(), "{value} should fail");
    }
}

#[test]
fn each_fault_of_a_git_url_is_told() {
    assert!(matches!(
        GitUrl::from_generic("http://example.com/a.git"),
        Err(GitError::UnsupportedScheme { scheme }) if scheme == "http"
    ));
    assert!(matches!(
        GitUrl::from_generic("https://user@example.com/a.git"),
        Err(GitError::CredentialsInUrl)
    ));
    assert!(matches!(
        GitUrl::from_generic("ssh://example.com/a.git"),
        Err(GitError::SshUsernameRequired)
    ));
    assert!(matches!(GitUrl::from_generic("../a"), Err(GitError::InvalidUrl)));
    assert!(matches!(
        GitUrl::from_remote(&remote("a=url::https://example.com/a.tar.gz")),
        Err(GitError::UnsupportedRemote)
    ));
}

fn bytes(text: &str) -> Vec<u8> {
    text.as_bytes().to_vec()
}

fn listing(text: String) -> Vec<u8> {
    text.into_bytes()
}

const FIRST: &str = "1111111111111111111111111111111111111111";
const SECOND: &str = "2222222222222222222222222222222222222222";

#[test]
fn references_are_selected_from_what_a_remote_advertises() {
    let advertised = parse_advertised_references(&listing(format!(
        "ref: refs/heads/main\tHEAD\n{FIRST}\tHEAD\n{FIRST}\trefs/heads/main\n{SECOND}\trefs/tags/v1\n"
    )))
    .expect("references should parse");
    let default = select_reference(None, true, &advertised).expect("default branch is there");
    assert_eq!(default.commit.to_text(), FIRST);
    let tag = select_reference(Some("v1"), true, &advertised).expect("tag is there");
    assert_eq!(tag.commit.to_text(), SECOND);
    assert!(matches!(
        select_reference(Some("other"), true, &advertised),
        Err(GitError::ReferenceNotFound { reference }) if reference == "other"
    ));
    assert!(matches!(
        select_reference(Some("a..b"), false, &advertised),
        Err(GitError::InvalidReference { reference }) if reference == "a..b"
    ));
}

#[test]
fn branches_and_tags_of_one_name_are_ambiguous() {
    let advertised = parse_advertised_references(&listing(format!(
        "{FIRST}\trefs/heads/v1\n{SECOND}\trefs/tags/v1\n"
    )))
    .expect("references should parse");
    assert!(matches!(
        select_reference(Some("v1"), true, &advertised),
        Err(GitError::AmbiguousReference { reference }) if reference == "v1"
    ));
    assert!(matches!(
        select_reference(None, true, &advertised),
        Err(GitError::MissingDefaultBranch)
    ));
}

#[test]
fn full_object_names_need_no_reference() {
    let oid = requested_oid(Some(FIRST)).expect("name is sound");
    assert_eq!(oid.map(|oid| oid.to_text()).as_deref(), Some(FIRST));
    assert!(requested_oid(Some("main")).expect("name is sound").is_none());
    assert!(requested_oid(None).expect("nothing is asked for").is_none());
    assert!(!names_to_check(Some("main")).is_empty());
}

#[test]
fn configured_values_are_trimmed_and_may_be_missing() {
    assert!(matches!(config_value(Some(0), &bytes("  \n")), ConfigValue::Missing));
    assert!(matches!(config_value(Some(1), &bytes("")), ConfigValue::Missing));
    assert!(matches!(config_value(Some(128), &bytes("a")), ConfigValue::Failed));
    assert!(matches!(config_value(None, &bytes("a")), ConfigValue::Failed));
    assert!(matches!(
        config_value(Some(0), &bytes("  Package Author  \n")),
        ConfigValue::Found(value) if value == "Package Author"
    ));
    assert!(answers_true(true, &bytes("true\n")));
    assert!(!answers_true(false, &bytes("true\n")));
    assert!(!answers_true(true, &bytes("false\n")));
}

#[test]
fn identities_are_known_if_both_values_can_be_read() {
    let found = |value: &str| ConfigValue::Found(value.to_string());
    let identity = configured_identity(found("a"), found("b"));
    assert_eq!((identity.name.as_deref(), identity.email.as_deref()), (Some("a"), Some("b")));
    let identity = configured_identity(found("a"), ConfigValue::Missing);
    assert_eq!((identity.name.as_deref(), identity.email), (Some("a"), None));
    let identity = configured_identity(ConfigValue::Missing, found("b"));
    assert_eq!((identity.name, identity.email.as_deref()), (None, Some("b")));
    let identity = configured_identity(found("a"), ConfigValue::Failed);
    assert_eq!((identity.name, identity.email), (None, None));
    let identity = configured_identity(ConfigValue::Failed, found("b"));
    assert_eq!((identity.name, identity.email), (None, None));
}

#[test]
fn failed_commands_are_told_with_all_that_they_have_written() {
    let error = process_error("fetch", Some(128), &bytes("out"), &vec![b'a', 0xff, b'b']);
    assert!(matches!(
        error,
        GitError::Process { operation, exit_code: Some(128), stdout, stderr }
            if operation == "fetch" && stdout == "out" && stderr == "a\u{fffd}b"
    ));
}

#[test]
fn checkouts_are_valid_if_they_are_clean_and_at_their_commit() {
    let commit = GitOid::parse(FIRST).unwrap();
    let first = bytes(&format!("{FIRST}\n"));
    let nothing = bytes("");
    assert!(valid_checkout(Some(&first), Some(&nothing), &commit));
    assert!(!valid_checkout(Some(&bytes(SECOND)), Some(&nothing), &commit));
    assert!(!valid_checkout(Some(&first), Some(&bytes("?? file\n")), &commit));
    assert!(!valid_checkout(None, Some(&nothing), &commit));
    assert!(!valid_checkout(Some(&first), None, &commit));
    let url = GitUrl::from_generic("https://example.com/a/b.git").unwrap();
    let path = checkout_path(&url, &commit);
    assert_eq!(path.parts.last().map(String::as_str), Some(FIRST));
    assert_eq!(path.parts[path.parts.len() - 2], remote_key(&url));
}

#[test]
fn scp_delimiters_are_places_in_bytes() {
    assert_eq!(scp_delimiter("git@example.com:team/repository.git"), Some(15));
    assert_eq!(scp_delimiter("a:b@c:d"), Some(5));
    assert_eq!(scp_delimiter("a:b@c"), None);
    assert_eq!(scp_delimiter("\u{e9}@h:p"), Some(4));
    assert_eq!(scp_delimiter(""), None);
}

#[test]
fn remote_keys_are_digests_of_what_tells_repositories_apart() {
    let key = |text| remote_key(&GitUrl::from_generic(text).expect("URL should parse"));
    let plain = key("https://example.com/team/repository");
    assert_eq!(plain.len(), 64);
    assert!(plain.chars().all(|c| c.is_ascii_digit() || ('a'..='f').contains(&c)));
    assert_eq!(key("https://example.com:443/team/repository/"), plain);
    assert_ne!(key("https://example.com/team/other"), plain);
    assert_eq!(
        key("ssh://one@example.com/team/repository"),
        key("ssh://two@example.com:22/team/repository/")
    );
}

#[test]
fn object_names_may_be_cut_short_where_they_are_read() {
    assert_eq!(
        GitOid::read("aBc").unwrap().to_text(),
        "abc0000000000000000000000000000000000000"
    );
    let full = "1234567890123456789012345678901234567890";
    assert_eq!(GitOid::read(full).unwrap().to_text(), full);
    assert!(GitOid::read("").is_err());
    assert!(GitOid::read("xyz").is_err());
    assert!(GitOid::read(&format!("{full}1")).is_err());
}
