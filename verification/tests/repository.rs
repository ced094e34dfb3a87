use flate2::{write::GzEncoder, Compression};
use rpx::catalog::{
    asks_archive, description_from_source_tarball, find_description,
    find_record, indexed_package_versions, offers, package, packages_index,
    packages_record_to_description, path_is_top_level_description, rrepo_packages,
    rrepo_versions, with_archived, DescriptionEntry, IndexError,
};
use rpx::description::Description;
use rpx::git::{GitOid, GitUrl};
use rpx::lockfile::{GitReference, Repository};
use rpx::http::{RrepoPackageSummary, RrepoPackagesResponse, RrepoVersionSummary};
use rpx::metadata::Version;
use rpx::r::{installed_packages, InstalledPackagesError, LibraryEntry};
use rpx::remote::Remote;
use rpx::repository::{
    built_in_repository, parse_repository_url, validate_subdirectory,
    GitRepository, LocalRepository, PackageRepository, RepositoryError,
};
use rpx::sorted::SortedSet;
use std::io::Write;

#[test]
fn parses_canonical_repository_urls() {
    assert_eq!(
        parse_repository_url("  https://example.test/cran/  ").unwrap(),
        "https://example.test/cran"
    );
    assert_eq!(
        parse_repository_url("https://example.test/").unwrap(),
        "https://example.test/"
    );
    assert!(parse_repository_url("mailto:packages@example.test").is_err());
}

#[test]
fn converts_to_a_pinned_lockfile_repository() {
    let commit = "1111111111111111111111111111111111111111";
    let remote =
        Remote::parse("github::owner/repository/subdir@main").expect("remote should parse");
    let repository = PackageRepository::Git(
        GitRepository::new(&remote)
            .expect("repository should build")
            .with_commit(GitOid::parse(commit).expect("commit should parse")),
    );

    let locked = repository.to_lockfile().expect("repository should convert");

    assert!(matches!(
        &locked,
        Repository::Git {
            url,
            reference: GitReference::Named { value },
            commit: locked_commit,
            subdirectory: Some(subdirectory),
        } if url == "https://github.com/owner/repository.git"
            && value == "main"
            && locked_commit.to_text() == commit
            && subdirectory == "subdir"
    ));
    let back = PackageRepository::from_lockfile(&locked).expect("repository should come back");
    assert!(back.equals(&repository));
}

#[test]
fn ignores_remote_package_alias_and_extracts_source_fields() {
    let remote =
        Remote::parse("alias=github::owner/repository/subdir@main").expect("remote should parse");
    let repository = GitRepository::new(&remote).expect("repository should build");

    assert_eq!(repository.reference(), Some("main"));
    assert_eq!(repository.subdirectory(), Some("subdir"));
    assert!(!repository.to_text().contains("alias"));
}

#[test]
fn package_uses_staged_description_and_preserves_repository() {
    let description = |text: &str| Description { text: text.to_string() };
    let mut repository = LocalRepository::new("unused".to_string())
        .with_description(description("Package: initial\nVersion: 0.1.0\n"));
    repository.set_description(description("Package: project\nVersion: 1.2.3\n"));
    let staged = repository.description.as_ref().expect("description is staged");
    let staged = Description { text: staged.text.clone() };

    let (name, version) = package(&PackageRepository::Local(repository), &staged)
        .expect("package should load");

    assert_eq!(name, "project");
    assert_eq!(version.version().text, "1.2.3");
    assert_eq!(version.repository().to_text(), "unused");
}

#[test]
fn subdirectories_stay_below_their_repository() {
    assert!(validate_subdirectory("packages/a").is_ok());
    for value in ["/abs", "../up", "a/../b"] {
        assert!(validate_subdirectory(value).is_err(), "{value} should be refused");
    }
}

fn installed(name: &str, version: &str) -> LibraryEntry {
    LibraryEntry::Installed { name: name.to_string(), version: version.to_string() }
}

#[test]
fn scans_installed_packages_with_builtin_repository() {
    let packages = installed_packages(&vec![installed("digest", "0.6.37")]).unwrap();
    let digest = packages.get("digest").unwrap();

    assert_eq!(digest.version().text, "0.6.37");
    assert!(digest.repository().equals(&built_in_repository()));
}

#[test]
fn missing_project_library_has_no_installed_packages() {
    let packages = installed_packages(&Vec::new()).expect("missing library should be empty");
    assert!(packages.keys.is_empty());
}

#[test]
fn faults_of_a_library_are_told() {
    assert!(matches!(
        installed_packages(&vec![installed("a", "1.0"), installed("b", "one")]),
        Err(InstalledPackagesError::InvalidVersion { package, version, .. })
            if package == "b" && version == "one"
    ));
    assert!(matches!(
        installed_packages(&vec![LibraryEntry::Locked { path: "/l/00LOCK".to_string() }]),
        Err(InstalledPackagesError::Locked { path }) if path == "/l/00LOCK"
    ));
    assert!(installed_packages(&vec![LibraryEntry::Foreign { path: "/l/x".to_string() }])
        .unwrap()
        .keys
        .is_empty());
}

#[test]
fn builds_description_from_validated_package_record() {
    let records = packages_index(
        "PACKAGES".to_string(),
        "Package: example\nVersion: 1.0.0\nImports: old\nImports: current,\n".to_string(),
    )
    .expect("index should be sound");
    let description = packages_record_to_description(&records[0]).expect("record is identified");

    let parsed = r_description::Description::parse(&description.text);
    assert_eq!(parsed.package().unwrap().as_str(), "example");
    assert_eq!(
        parsed.version_parsed().unwrap().unwrap().as_str(),
        "1.0.0"
    );
    assert_eq!(
        parsed
            .imports_parsed()
            .values()
            .map(r_description::Relation::package)
            .collect::<Vec<_>>(),
        ["current"]
    );
}

const INDEX: &str = "Package: alpha\nVersion: 1.0\n\nPackage: beta\nVersion: 2.0-1\n\nPackage: alpha\nVersion: 1.2\n";

#[test]
fn indexes_tell_the_versions_of_a_package() {
    let records =
        packages_index("PACKAGES".to_string(), INDEX.to_string()).expect("index should be sound");
    assert_eq!(records.len(), 3);
    let known = indexed_package_versions(&records, "alpha");
    let texts =
        |set: &SortedSet<Version>| set.items.iter().map(|v| v.text.clone()).collect::<Vec<_>>();
    assert_eq!(texts(&known), ["1.0", "1.2"]);
    assert!(asks_archive(&known, rpx::repository::ArchiveSupport::Available));
    assert!(!asks_archive(&known, rpx::repository::ArchiveSupport::Unavailable));
    assert!(!asks_archive(&SortedSet::new(), rpx::repository::ArchiveSupport::Available));
    assert_eq!(
        find_record(&records, "beta", &Version::parse("2.0.1").unwrap()),
        Some(1)
    );
    let all = with_archived(
        known,
        vec![Version::parse("0.9").unwrap(), Version::parse("1.0.0").unwrap()],
    );
    assert_eq!(texts(&all), ["0.9", "1.0", "1.2"]);
    let offered = offers(&all, &built_in_repository());
    assert_eq!(offered.len(), 3);
    assert!(offered.iter().all(|v| v.repository().equals(&built_in_repository())));
}

#[test]
fn faults_of_an_index_are_told() {
    assert!(matches!(
        packages_index(
            "PACKAGES".to_string(),
            "Package: fixture\nVersion: invalid\n".to_string()
        ),
        Err(IndexError::Findings(error))
            if error.source_name == "PACKAGES" && !error.findings.is_empty()
    ));
}

#[test]
fn interfaces_tell_the_versions_of_a_package() {
    let summary = |name: &str, version: &str| RrepoPackageSummary {
        name: name.to_string(),
        latest_version: version.to_string(),
        latest_uploaded_at: None,
        version_count: None,
    };
    let packages = rrepo_packages(
        &RrepoPackagesResponse {
            repository_slug: "cran".to_string(),
            packages: vec![summary("a", "1.0"), summary("b", "bad")],
        },
        &built_in_repository(),
    );
    assert_eq!(packages.get("a").unwrap().version().text, "1.0");
    let version = |text: &str| RrepoVersionSummary {
        version: text.to_string(),
        source_url: "https://example.test/a".to_string(),
    };
    let versions = rrepo_versions("a", &vec![version("1.1"), version("1.0")]).unwrap();
    assert_eq!(versions.items.len(), 2);
    assert_eq!(versions.items[0].text, "1.0");
    assert!(rrepo_versions("a", &vec![version("bad")]).is_err());
}

fn archive(files: &[(&str, &str)]) -> Vec<u8> {
    let mut builder = tar::Builder::new(Vec::new());
    for (path, contents) in files {
        let mut header = tar::Header::new_gnu();
        header.set_size(contents.len() as u64);
        header.set_cksum();
        builder
            .append_data(&mut header, path, contents.as_bytes())
            .unwrap();
    }
    let mut encoder = GzEncoder::new(Vec::new(), Compression::default());
    encoder.write_all(&builder.into_inner().unwrap()).unwrap();
    encoder.finish().unwrap()
}

#[test]
fn descriptions_are_read_from_source_archives() {
    let text = "Package: a\nVersion: 1.0\n";
    let bytes = archive(&[
        ("a/inst/DESCRIPTION", "Package: inner\nVersion: 9.0\n"),
        ("a/DESCRIPTION", text),
    ]);
    let description = description_from_source_tarball(&bytes, "a").expect("it is there");
    assert_eq!(description.text, text);
    assert!(matches!(
        description_from_source_tarball(&bytes, "b"),
        Err(RepositoryError::DescriptionNotFound { package }) if package == "b"
    ));
    assert!(matches!(
        description_from_source_tarball(&b"no archive".to_vec(), "a"),
        Err(RepositoryError::Archive { .. })
    ));
    assert!(path_is_top_level_description("./a/DESCRIPTION", "a"));
    assert!(!path_is_top_level_description("/a/DESCRIPTION", "a"));
    assert!(!path_is_top_level_description("a/b/DESCRIPTION", "a"));
}

#[test]
fn searches_of_archives_end_at_what_cannot_be_read() {
    let good = || Ok(b"./a//DESCRIPTION".to_vec());
    let other = || Ok(b"a/R/x.R".to_vec());
    assert!(matches!(
        find_description(&vec![other(), good(), Err("bad".to_string())], "a"),
        DescriptionEntry::At(1)
    ));
    assert!(matches!(
        find_description(&vec![Err("bad".to_string()), good()], "a"),
        DescriptionEntry::Unreadable(message) if message == "bad"
    ));
    assert!(matches!(
        find_description(&vec![other()], "a"),
        DescriptionEntry::Missing
    ));
    assert!(matches!(
        find_description(&vec![Ok(b"/a/DESCRIPTION".to_vec()), Ok(b"\xff/a/DESCRIPTION".to_vec())], "a"),
        DescriptionEntry::At(1)
    ));
}

#[test]
fn descriptions_have_to_be_of_what_was_asked_for() {
    let repository = PackageRepository::Local(LocalRepository::new("/here".to_string()));
    let description = Description { text: "Package: a\nVersion: 1.0\n".to_string() };
    let version = |text: &str| Version::parse(text).unwrap();
    assert!(rpx::catalog::check_description(&repository, &description, "a", &version("1.0.0")).is_ok());
    assert!(rpx::catalog::check_description(&repository, &description, "a", &version("1.1")).is_err());
    assert!(rpx::catalog::check_description(&repository, &description, "b", &version("1.0")).is_err());
}

#[test]
fn subdirectories_are_locked_by_their_names() {
    let lock = |path: &str| {
        let remote = GitUrl::from_generic("https://example.com/team/repository").unwrap();
        let repository = GitRepository::from_parts(remote, None, Some(path.to_string()))
            .with_commit(GitOid::parse("1111111111111111111111111111111111111111").unwrap());
        PackageRepository::Git(repository).to_lockfile().map(|locked| match locked {
            Repository::Git { subdirectory, .. } => subdirectory,
            other => panic!("a Git repository should stay one: {other:?}"),
        })
    };
    for (path, expected) in [
        ("a", "a"),
        ("./a", "a"),
        ("a/", "a"),
        ("a//b", "a/b"),
        ("a/./b/.", "a/b"),
        ("a/../b", "a/../b"),
        (".", ""),
    ] {
        assert_eq!(lock(path).expect("path is relative").as_deref(), Some(expected));
    }
    assert!(matches!(
        lock("/a"),
        Err(RepositoryError::InvalidData { resource, details })
            if resource.starts_with("subdirectory in git+https://example.com/team/repository@HEAD")
                && details == "path contains non-relative component"
    ));
}
