use rpx::git::GitOid;
use rpx::lockfile::{
    check_header, previous_lockfile, ArchiveSupport, GitReference, Lockfile, LockfileHeader,
    LockfileReadError, Package, Repository, SystemRequirements, LOCKFILE_REVISION,
    LOCKFILE_VERSION,
};
use rpx::metadata::{Relation, Version};
use rpx::r::RVersion;
use rpx::sorted::{SortedSet, TextMap};
use rpx::wire::{WireFault, WireLockfile, WirePackage, WireRepository};

const SYSREQ_COMMIT: &str = "1111111111111111111111111111111111111111";
const GIT_COMMIT: &str = "2222222222222222222222222222222222222222";

fn oid(value: &str) -> GitOid {
    GitOid::parse(value).expect("OID should parse")
}

fn relations(values: &[&str]) -> SortedSet<Relation> {
    let mut set = SortedSet::new();
    for value in values {
        set.replace(Relation::parse(value).expect("relation should parse"));
    }
    set
}

fn names(values: &[&str]) -> SortedSet<String> {
    let mut set = SortedSet::new();
    for value in values {
        set.replace(value.to_string());
    }
    set
}

fn package_version(value: &str) -> Version {
    Version::parse(value).expect("package version should parse")
}

fn git(reference: GitReference, subdirectory: Option<&str>) -> Repository {
    Repository::Git {
        url: "https://github.com/example/repository.git".to_string(),
        reference,
        commit: oid(GIT_COMMIT),
        subdirectory: subdirectory.map(str::to_string),
    }
}

fn minimal_lockfile() -> Lockfile {
    Lockfile {
        version: LOCKFILE_VERSION,
        revision: LOCKFILE_REVISION,
        r: RVersion::parse("4.4.1").unwrap(),
        sysreqs: SystemRequirements {
            db_commit: Some(oid(SYSREQ_COMMIT)),
            rules: TextMap::new(),
        },
        repos: vec![],
        requirements: SortedSet::new(),
        packages: TextMap::new(),
    }
}

fn sample_lockfile() -> Lockfile {
    let mut lockfile = minimal_lockfile();
    lockfile
        .sysreqs
        .rules
        .insert("libcurl".to_string(), names(&["curl"]));
    lockfile.repos = vec![
        Repository::Rrepo { url: "https://api.rrepo.org/cran".to_string() },
        Repository::CranLike {
            url: "https://cran.example/".to_string(),
            archive_support: ArchiveSupport::Available,
        },
        git(
            GitReference::Named { value: "main".to_string() },
            Some("packages/example"),
        ),
    ];
    lockfile.requirements = relations(&["curl (>= 6.0.0)"]);
    lockfile.packages.insert(
        "curl".to_string(),
        Package {
            version: package_version("6.2.3"),
            repository: "https://api.rrepo.org/cran".to_string(),
            dependencies: relations(&["R (>= 4.1.0)", "jsonlite (>= 1.8.0)", "methods"]),
        },
    );
    lockfile
}

#[test]
fn serializes_current_lockfile_wire_shape() {
    let wire = sample_lockfile().to_wire();

    assert_eq!(wire.version, LOCKFILE_VERSION);
    assert_eq!(wire.revision, LOCKFILE_REVISION);
    assert_eq!(wire.r, "4.4.1");
    assert_eq!(wire.db_commit.as_deref(), Some(SYSREQ_COMMIT));
    assert_eq!(wire.rules.keys, ["libcurl"]);
    assert_eq!(wire.rules.values[0].items, ["curl"]);
    assert!(matches!(
        &wire.repos[0],
        WireRepository::Rrepo { url } if url == "https://api.rrepo.org/cran"
    ));
    assert!(matches!(
        &wire.repos[1],
        WireRepository::CranLike { url, archive_support: ArchiveSupport::Available }
            if url == "https://cran.example/"
    ));
    assert!(matches!(
        &wire.repos[2],
        WireRepository::Git {
            url,
            reference: GitReference::Named { value },
            commit,
            subdirectory: Some(subdirectory),
        } if url == "https://github.com/example/repository.git"
            && value == "main"
            && commit == GIT_COMMIT
            && subdirectory == "packages/example"
    ));
    assert_eq!(wire.requirements, ["curl (>= 6.0.0)"]);
    assert_eq!(wire.packages.keys, ["curl"]);
    let package = &wire.packages.values[0];
    assert_eq!(package.version, "6.2.3");
    assert_eq!(package.repository, "https://api.rrepo.org/cran");
    assert_eq!(package.dependencies, ["jsonlite (>= 1.8.0)", "methods", "R (>= 4.1.0)"]);
}

#[test]
fn round_trips_current_lockfile() {
    let lockfile = sample_lockfile();
    let parsed = Lockfile::from_wire(lockfile.to_wire()).expect("lockfile should parse");

    assert!(parsed.same(&lockfile));
    assert_eq!(format!("{parsed:?}"), format!("{lockfile:?}"));
}

#[test]
fn serializes_empty_required_collections() {
    let wire = minimal_lockfile().to_wire();

    assert!(wire.repos.is_empty());
    assert!(wire.requirements.is_empty());
    assert!(wire.packages.keys.is_empty());
    assert!(wire.rules.keys.is_empty());
}

#[test]
fn round_trips_repository_variants_in_order() {
    let repositories = sample_lockfile().repos;
    for repository in &repositories {
        let parsed =
            Repository::from_wire(&repository.to_wire()).expect("repository should parse");
        assert!(parsed.same(repository));
    }
    let parsed = Lockfile::from_wire(sample_lockfile().to_wire()).expect("lockfile should parse");
    assert_eq!(format!("{:?}", parsed.repos), format!("{repositories:?}"));
}

#[test]
fn round_trips_git_subdirectory() {
    let repository = git(GitReference::DefaultBranch, Some("packages/example"));

    let wire = repository.to_wire();
    let parsed = Repository::from_wire(&wire).expect("repository should parse");

    assert!(matches!(
        &wire,
        WireRepository::Git { subdirectory: Some(subdirectory), .. }
            if subdirectory == "packages/example"
    ));
    assert!(parsed.same(&repository));
}

#[test]
fn serializes_canonical_repository_urls_and_canonicalizes_deserialization() {
    let repository = Repository::Rrepo { url: "https://api.rrepo.org/cran".to_string() };
    let package = Package {
        version: package_version("1.0.0"),
        repository: "https://api.rrepo.org/cran".to_string(),
        dependencies: SortedSet::new(),
    };

    assert!(matches!(
        repository.to_wire(),
        WireRepository::Rrepo { url } if url == "https://api.rrepo.org/cran"
    ));
    assert_eq!(package.to_wire().repository, "https://api.rrepo.org/cran");
    assert!(Repository::from_wire(&WireRepository::Rrepo {
        url: "https://api.rrepo.org/cran/".to_string()
    })
    .expect("repository should parse")
    .same(&repository));
    assert_eq!(
        Package::from_wire(&WirePackage {
            version: "1.0.0".to_string(),
            repository: "https://api.rrepo.org/cran/".to_string(),
            dependencies: vec![],
        })
        .expect("package should parse")
        .repository,
        "https://api.rrepo.org/cran"
    );
}

#[test]
fn serializes_system_requirement_rule_package_map() {
    let mut lockfile = minimal_lockfile();
    lockfile
        .sysreqs
        .rules
        .insert("libcurl".to_string(), names(&["httr", "curl"]));
    let wire = lockfile.to_wire();

    assert_eq!(wire.db_commit.as_deref(), Some(SYSREQ_COMMIT));
    assert_eq!(wire.rules.keys, ["libcurl"]);
    assert_eq!(wire.rules.values[0].items, ["curl", "httr"]);
}

#[test]
fn round_trips_package_version_semantics() {
    for version in ["1.2", "2.5-1", "1.2.3.9000"] {
        let package = Package {
            version: package_version(version),
            repository: "https://api.rrepo.org/cran".to_string(),
            dependencies: SortedSet::new(),
        };

        let wire = package.to_wire();
        let parsed = Package::from_wire(&wire).expect("package should parse");

        assert_eq!(wire.version, version);
        assert!(parsed.same(&package));
    }
}

#[test]
fn round_trips_root_requirements_and_locked_dependencies() {
    let requirements = ["cli", "digest (>= 0.6.37)", "jsonlite (== 1.8.9)"];
    let dependencies = ["R (>= 4.1.0)", "methods", "rlang (!= 1.0.0)"];
    let mut lockfile = minimal_lockfile();
    lockfile.requirements = relations(&requirements);
    lockfile.packages.insert(
        "example".to_string(),
        Package {
            version: package_version("1.0.0"),
            repository: "https://api.rrepo.org/cran".to_string(),
            dependencies: relations(&dependencies),
        },
    );

    let parsed = Lockfile::from_wire(lockfile.to_wire()).expect("lockfile should parse");

    assert!(parsed.requirements.same(&relations(&requirements)));
    assert!(parsed
        .packages
        .get("example")
        .unwrap()
        .dependencies
        .same(&relations(&dependencies)));
}

#[test]
fn round_trips_present_oid_fields() {
    let parsed = Lockfile::from_wire(sample_lockfile().to_wire()).expect("lockfile should parse");

    assert!(parsed.sysreqs.db_commit.unwrap().same(&oid(SYSREQ_COMMIT)));
    assert!(matches!(
        &parsed.repos[2],
        Repository::Git { commit, .. } if commit.same(&oid(GIT_COMMIT))
    ));
}

#[test]
fn read_lockfile_rejects_outdated_version_before_full_schema_parse() {
    let error = check_header("/p/rpx.lock", &LockfileHeader { version: LOCKFILE_VERSION - 1 })
        .expect_err("old lockfile should fail");

    assert!(matches!(
        &error,
        LockfileReadError::OutdatedLockfile { path } if path == "/p/rpx.lock"
    ));
    assert_eq!(error.message(), "/p/rpx.lock needs to be updated");
}

#[test]
fn read_lockfile_rejects_newer_version_before_full_schema_parse() {
    let error = check_header("/p/rpx.lock", &LockfileHeader { version: LOCKFILE_VERSION + 1 })
        .expect_err("new lockfile should fail");

    assert!(matches!(
        &error,
        LockfileReadError::NewerLockfile { path } if path == "/p/rpx.lock"
    ));
    assert!(check_header("/p/rpx.lock", &LockfileHeader { version: LOCKFILE_VERSION }).is_ok());
}

#[test]
fn omits_and_defaults_absent_system_requirements_commit() {
    let mut lockfile = minimal_lockfile();
    lockfile.sysreqs.db_commit = None;

    let wire = lockfile.to_wire();
    assert!(wire.db_commit.is_none());
    let parsed = Lockfile::from_wire(wire).expect("missing commit should default");
    assert!(parsed.sysreqs.db_commit.is_none());
}

fn rejected(change: fn(&mut WireLockfile)) -> WireFault {
    let mut wire = sample_lockfile().to_wire();
    change(&mut wire);
    Lockfile::from_wire(wire).expect_err("lockfile should be refused")
}

#[test]
fn rejects_malformed_custom_lockfile_scalars() {
    assert!(matches!(
        rejected(|wire| wire.requirements = vec!["curl (>= invalid)".to_string()]),
        WireFault::Relation { text } if text == "curl (>= invalid)"
    ));
    assert!(matches!(
        rejected(|wire| {
            wire.repos[2] = WireRepository::Git {
                url: "https://github.com/example/repository.git".to_string(),
                reference: GitReference::Commit,
                commit: "not-an-oid".to_string(),
                subdirectory: None,
            }
        }),
        WireFault::Commit { text } if text == "not-an-oid"
    ));
    assert!(matches!(
        rejected(|wire| wire.db_commit = Some("not-an-oid".to_string())),
        WireFault::Commit { .. }
    ));
    assert!(matches!(
        rejected(|wire| wire.packages.values[0].version = "invalid".to_string()),
        WireFault::Version { .. }
    ));
    assert!(matches!(
        rejected(|wire| wire.repos[0] = WireRepository::Rrepo { url: "not-a-url".to_string() }),
        WireFault::Url { .. }
    ));
    assert!(matches!(
        rejected(|wire| wire.r = "4".to_string()),
        WireFault::R { text } if text == "4"
    ));
}

#[test]
fn repository_url_returns_each_variant_url() {
    for (repository, expected) in [
        (
            Repository::Rrepo { url: "https://rrepo.example/cran".to_string() },
            "https://rrepo.example/cran",
        ),
        (
            Repository::CranLike {
                url: "https://cran.example/".to_string(),
                archive_support: ArchiveSupport::Unavailable,
            },
            "https://cran.example/",
        ),
        (
            Repository::Git {
                url: "https://git.example/repository.git".to_string(),
                reference: GitReference::Commit,
                commit: oid(GIT_COMMIT),
                subdirectory: None,
            },
            "https://git.example/repository.git",
        ),
    ] {
        assert_eq!(repository.url(), expected);
    }
}

#[test]
fn treats_missing_and_outdated_lockfiles_as_absent_previous_resolutions() {
    assert!(matches!(
        previous_lockfile(Err(LockfileReadError::Read {
            path: "rpx.lock".to_string(),
            not_found: true,
            details: "not found".to_string(),
        })),
        Ok(None)
    ));
    assert!(matches!(
        previous_lockfile(Err(LockfileReadError::OutdatedLockfile {
            path: "rpx.lock".to_string()
        })),
        Ok(None)
    ));
    assert!(matches!(
        previous_lockfile(Ok(minimal_lockfile())),
        Ok(Some(_))
    ));
}

#[test]
fn preserves_other_previous_lockfile_errors() {
    assert!(matches!(
        previous_lockfile(Err(LockfileReadError::NewerLockfile {
            path: "rpx.lock".to_string()
        })),
        Err(LockfileReadError::NewerLockfile { .. })
    ));
    assert!(matches!(
        previous_lockfile(Err(LockfileReadError::Parse {
            path: "rpx.lock".to_string(),
            details: "bad".to_string(),
        })),
        Err(LockfileReadError::Parse { .. })
    ));
    assert!(matches!(
        previous_lockfile(Err(LockfileReadError::Read {
            path: "rpx.lock".to_string(),
            not_found: false,
            details: "denied".to_string(),
        })),
        Err(LockfileReadError::Read { .. })
    ));
}

#[test]
fn commits_may_be_cut_short_in_lockfiles() {
    let mut wire = sample_lockfile().to_wire();
    wire.db_commit = Some("abc".to_string());
    let lockfile = Lockfile::from_wire(wire).expect("short commits should be read");
    assert_eq!(
        lockfile.sysreqs.db_commit.map(|commit| commit.to_text()).as_deref(),
        Some("abc0000000000000000000000000000000000000")
    );
    let mut wire = sample_lockfile().to_wire();
    wire.db_commit = Some("not hexadecimal".to_string());
    assert!(Lockfile::from_wire(wire).is_err());
}
