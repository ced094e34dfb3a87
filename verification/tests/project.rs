use rpx::description::{
    configured_repositories, project_dependencies, ConfiguredRepository, DependencyField,
    Description,
};
use rpx::git::GitOid;
use rpx::location::Base;
use rpx::lockfile::{
    ArchiveSupport as LockedArchiveSupport, GitReference, Lockfile, Package, Repository,
    SystemRequirements, LOCKFILE_REVISION, LOCKFILE_VERSION,
};
use rpx::metadata::{Relation, Version};
use rpx::pin::{pin_dependency_to_resolved_major, pin_unconstrained_dependencies};
use rpx::project::{
    artifact_cache_path, build_temp_library_path, cache_dir_path, find_project_root,
    lock_message, project_library_path, project_library_root_path,
    required_packages_from_lockfile, staged_file_name, validate_locked_resolution,
    DirectoryMarkers, LockedPackagesError, LockedResolutionError, LockedResolutionFailure,
    MarkerState, Project, ProjectDiscoveryError,
};
use rpx::r::RVersion;
use rpx::repository::{
    built_in_repository, ArchiveSupport, GitRepository, PackageRepository,
};
use rpx::resolution::{LockfileAssessment, ProjectResolution};
use rpx::resolver::PackageVersion;
use rpx::sorted::{SortedSet, TextMap};
use rpx::sync::RequiredPackage;

const GIT_COMMIT: &str = "2222222222222222222222222222222222222222";
const SOURCE: &str = "/synthetic/DESCRIPTION";

fn relation(value: &str) -> Relation {
    Relation::parse(value).expect("relation should parse")
}

fn relations(values: &[&str]) -> SortedSet<Relation> {
    let mut set = SortedSet::new();
    for value in values {
        set.replace(relation(value));
    }
    set
}

fn version(value: &str) -> Version {
    Version::parse(value).expect("package version should parse")
}

fn r_version(value: &str) -> RVersion {
    RVersion::parse(value).expect("R version should parse")
}

#[test]
fn pins_unconstrained_dependency_to_resolved_major_range() {
    let mut set = relations(&["digest", "cli (>= 3.0.0)"]);

    pin_dependency_to_resolved_major(&mut set, "digest", &version("0.6.39"));

    assert_eq!(
        set.items.iter().map(Relation::to_text).collect::<Vec<_>>(),
        ["cli (>= 3.0.0)", "digest (< 1.0.0)", "digest (>= 0.6.39)"]
    );
}

#[test]
fn pins_only_unconstrained_dependencies_present_in_resolution() {
    let mut project = Project {
        root: "/synthetic".to_string(),
        description: Description {
            text: "Package: project\nVersion: 1.0.0\n".to_string(),
        },
    };
    let mut resolution = resolution(lockfile());
    resolution.packages.insert(
        "digest".to_string(),
        RequiredPackage {
            version: PackageVersion::new(version("0.6.39"), built_in_repository()),
            description: Description { text: project.description.text.clone() },
        },
    );

    pin_unconstrained_dependencies(
        &mut project,
        &mut resolution,
        &relations(&["digest", "stats"]),
        DependencyField::Suggests,
    )
    .expect("dependencies should be pinned");

    let expected = relations(&["digest (>= 0.6.39)", "digest (< 1.0.0)", "stats"]);
    assert!(project_dependencies(SOURCE.to_string(), &project.description)
        .expect("project dependencies should parse")
        .same(&expected));
    assert!(resolution.lockfile.requirements.same(&expected));
    assert!(resolution.lockfile_changed);
}

fn lockfile() -> Lockfile {
    Lockfile {
        version: LOCKFILE_VERSION,
        revision: LOCKFILE_REVISION,
        r: r_version("4.5.0"),
        sysreqs: SystemRequirements { db_commit: None, rules: TextMap::new() },
        repos: Vec::new(),
        requirements: SortedSet::new(),
        packages: TextMap::new(),
    }
}

fn resolution(lockfile: Lockfile) -> ProjectResolution {
    ProjectResolution {
        r_version: r_version(&lockfile.r.text),
        lockfile,
        lockfile_changed: false,
        packages: TextMap::new(),
    }
}

fn rrepo(value: &str) -> Repository {
    Repository::Rrepo { url: value.to_string() }
}

fn cran(value: &str, archive_support: LockedArchiveSupport) -> Repository {
    Repository::CranLike { url: value.to_string(), archive_support }
}

fn git(value: &str, reference: &str, subdirectory: Option<&str>) -> Repository {
    Repository::Git {
        url: value.to_string(),
        reference: GitReference::Named { value: reference.to_string() },
        commit: GitOid::parse(GIT_COMMIT).expect("OID should parse"),
        subdirectory: subdirectory.map(str::to_string),
    }
}

fn package(text: &str, repository: &str, dependencies: &[&str]) -> Package {
    Package {
        version: version(text),
        repository: repository.to_string(),
        dependencies: relations(dependencies),
    }
}

fn validation_fixture() -> (Description, RVersion, Lockfile) {
    let description = Description {
        text: "Package: project\nVersion: 1.0.0\nConfig/rpx/base-repository: https://configured.example/base\nRemotes: bitbucket::owner/repository/subdirectory@main\nAdditional_repositories: https://additional.example/cran\nImports: cli (>= 3.0.0)\nSuggests: testthat\n".to_string(),
    };
    let configured = configured_repositories(SOURCE.to_string(), &description)
        .expect("repository configuration should be valid");
    assert_eq!(configured.len(), 3);
    let base = match &configured[0] {
        ConfiguredRepository::Base(url) => rrepo(url),
        repository => panic!("expected base repository, got {repository:?}"),
    };
    let git = match &configured[1] {
        ConfiguredRepository::Git(remote) => {
            let repository =
                GitRepository::new(remote).expect("configured Git repository should be valid");
            git(
                repository.remote().as_str(),
                repository.reference().expect("reference should exist"),
                repository.subdirectory(),
            )
        }
        repository => panic!("expected Git repository, got {repository:?}"),
    };
    let additional = match &configured[2] {
        ConfiguredRepository::Additional(url) => cran(url, LockedArchiveSupport::Available),
        repository => panic!("expected additional repository, got {repository:?}"),
    };
    let mut lockfile = lockfile();
    lockfile.r = r_version("4.5.1");
    lockfile.repos = vec![base, git, additional];
    lockfile.requirements = project_dependencies(SOURCE.to_string(), &description)
        .expect("requirements should be valid");
    (description, r_version("4.5.1"), lockfile)
}

fn failures(
    description: &Description,
    r_version: &RVersion,
    lockfile: &Lockfile,
) -> Vec<LockedResolutionFailure> {
    let LockedResolutionError::Validation { failures } =
        validate_locked_resolution(SOURCE.to_string(), description, r_version, lockfile)
            .expect_err("resolution should be rejected")
    else {
        panic!("expected validation failures");
    };
    failures
}

fn assert_repositories_changed(failures: &[LockedResolutionFailure]) {
    assert_eq!(failures.len(), 1);
    assert!(matches!(
        failures[0],
        LockedResolutionFailure::RepositoriesChanged
    ));
}

#[test]
fn assesses_matching_lockfile_as_valid() {
    let (description, r_version, lockfile) = validation_fixture();
    let project = Project { root: "/synthetic".to_string(), description };

    let assessment = project
        .assess_lockfile(&r_version, &lockfile)
        .expect("matching lockfile should be assessed");

    assert!(matches!(assessment, LockfileAssessment::Valid));
}

#[test]
fn assesses_stale_lockfile_with_validation_failures() {
    let (description, current, mut lockfile) = validation_fixture();
    lockfile.requirements = relations(&["different"]);
    lockfile.r = r_version("4.4.0");
    let project = Project { root: "/synthetic".to_string(), description };

    let assessment = project
        .assess_lockfile(&current, &lockfile)
        .expect("stale lockfile should be assessed");

    let LockfileAssessment::Stale { failures } = assessment else {
        panic!("lockfile should be stale");
    };
    assert_eq!(failures.len(), 2);
    assert!(matches!(
        failures[0],
        LockedResolutionFailure::PackageRequirementsChanged
    ));
    assert!(matches!(
        &failures[1],
        LockedResolutionFailure::RVersionChanged { locked, current }
            if locked.text == "4.4.0" && current.text == "4.5.1"
    ));
}

#[test]
fn reconstructs_locked_packages_and_descriptions() {
    let rrepo_url = "https://rrepo.example/cran";
    let cran_url = "https://cran.example/cran";
    let git_url = "https://github.com/owner/repository.git";
    let mut lockfile = lockfile();
    lockfile.repos = vec![
        rrepo(rrepo_url),
        cran(cran_url, LockedArchiveSupport::Unavailable),
        git(git_url, "main", Some("pkg")),
    ];
    lockfile
        .packages
        .insert("rrepoPkg".into(), package("1.2.3", rrepo_url, &["cli (>= 3.0.0)"]));
    lockfile
        .packages
        .insert("cranPkg".into(), package("4.5.6", cran_url, &["digest"]));
    lockfile.packages.insert(
        "gitPkg".into(),
        package("7.8.9", git_url, &["rlang", "vctrs (>= 0.6.0)"]),
    );

    let packages =
        required_packages_from_lockfile(&lockfile).expect("locked packages should reconstruct");
    assert_eq!(packages.keys.len(), 3, "no local root should be injected");
    for (name, expected_version, dependencies) in [
        ("rrepoPkg", "1.2.3", &["cli (>= 3.0.0)"][..]),
        ("cranPkg", "4.5.6", &["digest"][..]),
        ("gitPkg", "7.8.9", &["rlang", "vctrs (>= 0.6.0)"][..]),
    ] {
        let required = packages.get(name).unwrap();
        assert!(required.version.version().same(&version(expected_version)));
        let description = r_description::Description::parse(&required.description.text);
        assert_eq!(description.package().unwrap().as_str(), name);
        assert_eq!(
            description.version_parsed().unwrap().unwrap().as_str(),
            expected_version
        );
        let mut found = SortedSet::new();
        for dependency in description.depends_parsed().values() {
            found.replace(relation(&dependency.to_string()));
        }
        assert!(found.same(&relations(dependencies)));
    }

    let PackageRepository::Rrepo(rrepo) = packages.get("rrepoPkg").unwrap().version.repository()
    else {
        panic!("Rrepo repository should reconstruct");
    };
    assert_eq!(rrepo.url(), rrepo_url);
    let PackageRepository::Cran(cran) = packages.get("cranPkg").unwrap().version.repository()
    else {
        panic!("CRAN repository should reconstruct");
    };
    assert_eq!(cran.url(), cran_url);
    assert_eq!(cran.archive_support(), ArchiveSupport::Unavailable);
    let PackageRepository::Git(git) = packages.get("gitPkg").unwrap().version.repository() else {
        panic!("Git repository should reconstruct");
    };
    assert_eq!(git.remote().as_str(), git_url);
    assert_eq!(git.reference(), Some("main"));
    assert_eq!(git.subdirectory(), Some("pkg"));
    assert_eq!(
        git.commit.as_ref().expect("commit should be locked").to_text(),
        GIT_COMMIT
    );
}

#[test]
fn first_repository_with_matching_url_wins() {
    let repository = "https://github.com/owner/repository.git";
    let mut lockfile = lockfile();
    lockfile.repos = vec![git(repository, "first", None), git(repository, "second", None)];
    lockfile
        .packages
        .insert("fixture".into(), package("1.0.0", repository, &[]));
    let packages = required_packages_from_lockfile(&lockfile).expect("package should reconstruct");
    let PackageRepository::Git(repository) =
        packages.get("fixture").unwrap().version.repository()
    else {
        panic!("repository should be Git");
    };
    assert_eq!(repository.reference(), Some("first"));
}

#[test]
fn missing_package_repository_reports_exact_package_and_url() {
    let missing = "https://missing.example/cran";
    let mut lockfile = lockfile();
    lockfile
        .packages
        .insert("missingPkg".into(), package("1.0.0", missing, &[]));
    assert!(matches!(required_packages_from_lockfile(&lockfile),
        Err(LockedPackagesError::RepositoryNotFound { package, repository })
            if package == "missingPkg" && repository == missing));
}

#[test]
fn invalid_locked_git_repository_reports_exact_package() {
    let repository = "ftp://example.test/repository.git";
    let mut lockfile = lockfile();
    lockfile.repos = vec![git(repository, "main", None)];
    lockfile
        .packages
        .insert("brokenGit".into(), package("1.0.0", repository, &[]));
    assert!(matches!(required_packages_from_lockfile(&lockfile),
        Err(LockedPackagesError::Repository { package, .. }) if package == "brokenGit"));
}

#[test]
fn invalid_package_map_key_reports_locked_description_error() {
    let repository = "https://rrepo.example/cran";
    let invalid = "invalid\nkey";
    let mut lockfile = lockfile();
    lockfile.repos = vec![rrepo(repository)];
    lockfile
        .packages
        .insert(invalid.into(), package("1.0.0", repository, &[]));
    let error = required_packages_from_lockfile(&lockfile)
        .expect_err("invalid package key should be rejected");
    assert!(matches!(error,
        LockedPackagesError::InvalidLockedDescription { package, .. }
            if package == invalid));
}

#[test]
fn accepts_matching_locked_resolution() {
    let (description, r_version, lockfile) = validation_fixture();
    validate_locked_resolution(SOURCE.to_string(), &description, &r_version, &lockfile)
        .expect("matching resolution should validate");
}

#[test]
fn repository_shape_mismatches_report_only_repositories_changed() {
    let mut changed = Vec::new();
    for _ in 0..4 {
        changed.push(validation_fixture().2);
    }
    changed[0].repos[0] = rrepo("https://changed.example/base");
    let git_url = changed[1].repos[1].url().to_string();
    changed[1].repos[1] = rrepo(&git_url);
    changed[2].repos.push(rrepo("https://extra.example/cran"));
    changed[3].repos.pop();
    let (description, r_version, _) = validation_fixture();
    for lockfile in changed {
        assert_repositories_changed(&failures(&description, &r_version, &lockfile));
    }
}

#[test]
fn git_reference_drift_reports_only_repositories_changed() {
    let (description, r_version, mut lockfile) = validation_fixture();
    let Repository::Git { reference, .. } = &mut lockfile.repos[1] else {
        panic!("fixture repository should be Git");
    };
    *reference = GitReference::Named { value: "develop".into() };
    assert_repositories_changed(&failures(&description, &r_version, &lockfile));
}

#[test]
fn invalid_locked_git_reports_only_invalid_repository_at_index() {
    let (description, r_version, mut lockfile) = validation_fixture();
    let Repository::Git { url, .. } = &mut lockfile.repos[1] else {
        panic!("fixture repository should be Git");
    };
    *url = "ftp://example.test/repository.git".to_string();
    let failures = failures(&description, &r_version, &lockfile);
    assert_eq!(failures.len(), 1);
    assert!(matches!(&failures[0],
        LockedResolutionFailure::InvalidRepository { index: 1, repository, .. }
            if repository == "ftp://example.test/repository.git"));
}

#[test]
fn locked_resolution_failures_are_aggregated_in_order() {
    let (description, current, mut lockfile) = validation_fixture();
    lockfile.repos[0] = rrepo("https://changed.example/base");
    let Repository::Git { url, .. } = &mut lockfile.repos[1] else {
        panic!("fixture repository should be Git");
    };
    *url = "ftp://example.test/repository.git".to_string();
    lockfile.requirements = relations(&["different"]);
    lockfile.r = r_version("4.4.0");
    let failures = failures(&description, &current, &lockfile);
    assert_eq!(failures.len(), 4);
    assert!(matches!(
        failures[0],
        LockedResolutionFailure::InvalidRepository { index: 1, .. }
    ));
    assert!(matches!(
        failures[1],
        LockedResolutionFailure::RepositoriesChanged
    ));
    assert!(matches!(
        failures[2],
        LockedResolutionFailure::PackageRequirementsChanged
    ));
    assert!(matches!(&failures[3],
        LockedResolutionFailure::RVersionChanged { locked, current }
            if locked.text == "4.4.0" && current.text == "4.5.1"));
}

#[test]
fn project_library_root_is_stable_and_uses_expected_layout() {
    let first = project_library_root_path("/tmp/library-root-first");
    assert_eq!(
        first.parts,
        project_library_root_path("/tmp/library-root-first").parts
    );
    assert_ne!(
        first.parts,
        project_library_root_path("/tmp/library-root-second").parts
    );
    assert_eq!(first.base, Base::Data);
    assert_eq!(first.parts.len(), 2);
    assert_eq!(first.parts[0], "libraries");
    let key = &first.parts[1];
    assert_eq!(key.len(), 16);
    assert!(key
        .bytes()
        .all(|byte| byte.is_ascii_digit() || (b'a'..=b'f').contains(&byte)));
}

#[test]
fn project_library_path_creates_root_and_library() {
    let root = project_library_root_path("/tmp/library-path");
    let library = project_library_path("/tmp/library-path");
    assert_eq!(library.base, root.base);
    assert_eq!(library.parts[..2], root.parts);
    assert_eq!(library.parts[2..], ["library"]);
}

#[test]
fn cache_dir_matches_project_directories() {
    let path = cache_dir_path();
    assert_eq!(path.base, Base::Cache);
    assert!(path.parts.is_empty());
}

#[test]
fn artifact_cache_path_has_exact_layout_and_creates_only_parent() {
    let path = artifact_cache_path("artifact", "1.2.3", "package.tar.gz");
    assert_eq!(path.base, Base::Cache);
    assert_eq!(
        path.parts,
        ["artifacts", "artifact", "1.2.3", "package.tar.gz"]
    );
}

#[test]
fn build_temp_library_path_has_exact_layout_and_creates_directory() {
    let path = build_temp_library_path("build", "unique");
    assert_eq!(path.base, Base::Cache);
    assert_eq!(path.parts, ["build-temp", "build-unique", "library"]);
}

#[test]
fn one_place_has_one_library_however_it_is_written() {
    assert_eq!(
        project_library_root_path("/tmp/a/./b/").parts,
        project_library_root_path("/tmp//a/b").parts
    );
}

fn markers(directory: &str, git: MarkerState, description: MarkerState) -> DirectoryMarkers {
    DirectoryMarkers {
        directory: directory.to_string(),
        git,
        description,
        lockfile: MarkerState::Absent,
    }
}

#[test]
fn the_nearest_directory_with_a_marker_is_the_root() {
    let absent = MarkerState::Absent;
    let found = |directories: Vec<DirectoryMarkers>| find_project_root("/a/b", &directories);
    assert_eq!(
        found(vec![
            markers("/a/b", absent, MarkerState::Other),
            markers("/a", absent, MarkerState::File),
            markers("/", MarkerState::Other, absent),
        ])
        .unwrap(),
        "/a"
    );
    assert_eq!(
        found(vec![markers("/a/b", MarkerState::Other, absent)]).unwrap(),
        "/a/b"
    );
    assert!(matches!(
        found(vec![markers("/a/b", absent, MarkerState::Unreadable)]),
        Err(ProjectDiscoveryError::RootMarkerMetadata { path }) if path == "/a/b/DESCRIPTION"
    ));
    assert!(matches!(
        found(vec![markers("/a/b", absent, absent)]),
        Err(ProjectDiscoveryError::RootNotFound { start }) if start == "/a/b"
    ));
}

#[test]
fn staged_files_are_hidden_beside_their_destination() {
    assert_eq!(
        staged_file_name("rpx.lock", 12, 3),
        ".rpx.lock.rpx-stage-12-3"
    );
    assert_eq!(lock_message(true), "Updated rpx.lock");
    assert_eq!(lock_message(false), "rpx.lock is already up to date");
}
