use rpx::description::Description;
use rpx::git::GitError;
use rpx::catalog::{packages_index, IndexError};
use rpx::metadata::{Relation, Version};
use rpx::r::RVersion;
use rpx::repository::{
    built_in_repository, LocalRepository, PackageRepository, RepositoryError,
};
use rpx::resolution::{
    lockfile_build_error, lockfile_from_resolution, resolve_project_error, LockfileBuildError,
    ResolveProjectError,
};
use rpx::resolver::{PackageVersion, ProviderError, ResolutionError};
use rpx::sorted::{SortedSet, TextMap};
use rpx::sync::RequiredPackage;

fn version(value: &str) -> Version {
    Version::parse(value).expect("version fixture should parse")
}

fn relation(value: &str) -> Relation {
    Relation::parse(value).expect("relation fixture should parse")
}

fn relations(values: &[&str]) -> SortedSet<Relation> {
    let mut set = SortedSet::new();
    for value in values {
        set.replace(relation(value));
    }
    set
}

fn required_packages(packages: &[(&str, &str)]) -> TextMap<RequiredPackage> {
    let mut required = TextMap::new();
    for (name, fields) in packages {
        required.insert(
            name.to_string(),
            RequiredPackage {
                version: PackageVersion::new(version("1.0.0"), built_in_repository()),
                description: Description {
                    text: format!("Package: {name}\nVersion: 1.0.0\n{fields}"),
                },
            },
        );
    }
    required
}

fn git_access_error(remote: &str) -> RepositoryError {
    RepositoryError::Git {
        repository: remote.to_string(),
        source: GitError::Access {
            remote: remote.to_string(),
            details: "access denied".to_string(),
        },
    }
}

fn ordinary_repository_error() -> RepositoryError {
    RepositoryError::InvalidData {
        resource: "fixture".to_string(),
        details: "invalid".to_string(),
    }
}

#[test]
fn resolve_project_error_maps_resolution_categories() {
    let error = resolve_project_error(ResolutionError::NoSolution {
        explanation: "there is no available version for missing".to_string(),
    });
    assert!(matches!(
        &error,
        ResolveProjectError::NoSolution { explanation } if explanation.contains("missing")
    ));

    for provider in [
        ProviderError::Repository(git_access_error("https://example.test/repo.git")),
        ProviderError::DependencyMetadata {
            repository: "fixture".into(),
            source: git_access_error("ssh://git@example.test/repo.git"),
        },
    ] {
        assert!(matches!(
            resolve_project_error(ResolutionError::Provider(provider)),
            ResolveProjectError::GitRepositoryUnavailable { repository, source }
                if repository.contains("example.test/repo.git")
                    && matches!(source, ResolutionError::Provider(_))
        ));
    }
    assert!(matches!(
        resolve_project_error(ResolutionError::BasePackages {
            details: "invalid UTF-8".to_string()
        }),
        ResolveProjectError::BasePackages { .. }
    ));
    assert!(matches!(
        resolve_project_error(ResolutionError::Provider(ProviderError::Repository(
            ordinary_repository_error()
        ))),
        ResolveProjectError::Resolution { .. }
    ));
}

#[test]
fn cran_index_diagnostic_survives_pubgrub_resolution_errors() {
    let IndexError::Findings(parse_error) = packages_index(
        "https://example.test/src/contrib/PACKAGES".to_string(),
        "Package: fixture\nVersion: invalid\n".to_string(),
    )
    .expect_err("invalid CRAN version should fail") else {
        panic!("the index is not too large");
    };
    let source = ResolutionError::ChoosingVersion {
        package: "fixture".to_string(),
        source: ProviderError::Repository(RepositoryError::CranPackages(Box::new(
            parse_error,
        ))),
    };

    assert!(matches!(
        resolve_project_error(source),
        ResolveProjectError::Repository(RepositoryError::CranPackages(kept))
            if kept.source_name == "https://example.test/src/contrib/PACKAGES"
                && kept.source_code == "Package: fixture\nVersion: invalid\n"
                && !kept.findings.is_empty()
    ));
}

#[test]
fn lockfile_build_error_maps_repository_categories() {
    assert!(matches!(
        lockfile_build_error(git_access_error("https://example.test/private.git")),
        LockfileBuildError::GitRepositoryUnavailable { repository, .. }
            if repository == "https://example.test/private.git"
    ));
    assert!(matches!(
        lockfile_build_error(ordinary_repository_error()),
        LockfileBuildError::Repository { .. }
    ));
}

#[test]
fn lockfile_from_resolution_assembles_current_metadata() {
    let resolved = required_packages(&[(
        "selected",
        "Depends: R (>= 4.4), hardDepends\nImports: hardImports\nLinkingTo: hardLinking\nSuggests: optional\n",
    )]);
    let lockfile = lockfile_from_resolution(
        relations(&["selected (>= 1.0.0)"]),
        &resolved,
        &vec![built_in_repository()],
        &RVersion::parse("4.5.1").unwrap(),
    )
    .expect("resolution should lock");
    let package = lockfile.packages.get("selected").unwrap();
    assert!(lockfile.requirements.same(&relations(&["selected (>= 1.0.0)"])));
    assert_eq!(lockfile.r.text, "4.5.1");
    assert_eq!(lockfile.repos.len(), 1);
    assert_eq!(lockfile.repos[0].url(), package.repository);
    assert!(package.version.same(&version("1.0.0")));
    assert!(package.dependencies.same(&relations(&[
        "R (>= 4.4)",
        "hardDepends",
        "hardImports",
        "hardLinking",
    ])));
}

#[test]
fn lockfile_from_resolution_rejects_unprovided_repository() {
    let local = PackageRepository::Local(LocalRepository::new("vendor/selected".to_string()));
    let mut resolved = TextMap::new();
    resolved.insert(
        "selected".to_string(),
        RequiredPackage {
            version: PackageVersion::new(version("1.0.0"), local),
            description: Description {
                text: "Package: selected\nVersion: 1.0.0\n".to_string(),
            },
        },
    );
    assert!(matches!(
        lockfile_from_resolution(
            SortedSet::new(),
            &resolved,
            &vec![built_in_repository()],
            &RVersion::parse("4.5.0").unwrap(),
        ),
        Err(LockfileBuildError::UnsupportedRepository { repository })
            if repository == "vendor/selected"
    ));
}

#[test]
fn lockfile_from_resolution_rejects_invalid_metadata() {
    for field in ["Depends", "Imports", "LinkingTo"] {
        let metadata = format!("{field}: broken (>= invalid)\n");
        let resolved = required_packages(&[("selected", &metadata)]);
        assert!(matches!(
            lockfile_from_resolution(
                SortedSet::new(),
                &resolved,
                &vec![built_in_repository()],
                &RVersion::parse("4.5.0").unwrap(),
            ),
            Err(LockfileBuildError::InvalidPackageRequirements { .. })
        ));
    }
}
