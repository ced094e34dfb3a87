use rpx::cache::{
    binary_artifact_cache_path, compiled_package_cache_path, source_artifact_cache_path,
    BinaryArtifactCacheKey, CompiledPackageCacheKey, OperatingSystem, OsFamily, RegistryIdentity,
    SourceArtifactCacheKey, SourceArtifactIdentity, Target, SOURCE_ARTIFACT_CACHE_VERSION,
};
use rpx::git::{GitOid, GitUrl};
use rpx::location::{Base, Location};
use rpx::metadata::Version;
use rpx::r::RVersion;

fn version(text: &str) -> Version {
    Version::parse(text).expect("version should parse")
}

fn cran(url: &str) -> RegistryIdentity {
    RegistryIdentity::Cran(url.to_string())
}

fn show(location: Location) -> String {
    format!("{location:?}")
}

#[test]
fn source_artifact_cache_path_is_versioned_and_has_no_side_effects() {
    let key = SourceArtifactCacheKey::new(
        SourceArtifactIdentity::Registry(cran("https://example.test/cran")),
        "rpx-cache-test-artifact",
        version("1.2.3"),
    );
    let path = source_artifact_cache_path(&key);
    assert_eq!(path.base, Base::Cache);
    assert_eq!(
        path.parts[..path.parts.len() - 2],
        [
            "artifacts",
            "source",
            SOURCE_ARTIFACT_CACHE_VERSION,
            "rpx-cache-test-artifact",
        ]
    );
    assert_eq!(path.parts.last().map(String::as_str), Some("artifact.tar.gz"));
}

#[test]
fn source_artifact_key_uses_version_equivalence() {
    let key = |text: &str| {
        SourceArtifactCacheKey::new(
            SourceArtifactIdentity::Registry(cran("https://example.test/cran")),
            "package",
            version(text),
        )
    };
    let hyphen = key("2.5-1");
    let trailing_zeroes = key("2.5.1.0");

    assert!(hyphen.version.same(&trailing_zeroes.version));
    assert_eq!(
        show(source_artifact_cache_path(&hyphen)),
        show(source_artifact_cache_path(&trailing_zeroes))
    );
}

fn binary(target: &str, r_version: &str) -> String {
    show(binary_artifact_cache_path(&BinaryArtifactCacheKey::new(
        cran("https://example.test/cran"),
        "package",
        version("1.2.3"),
        Target::parse(target).unwrap(),
        RVersion::parse(r_version).unwrap(),
    )))
}

#[test]
fn artifact_stores_use_distinct_compatibility_keys() {
    let source = show(source_artifact_cache_path(&SourceArtifactCacheKey::new(
        SourceArtifactIdentity::Registry(cran("https://example.test/cran")),
        "package",
        version("1.2.3"),
    )));
    let other_repository = show(source_artifact_cache_path(&SourceArtifactCacheKey::new(
        SourceArtifactIdentity::Registry(cran("https://mirror.example.test/cran")),
        "package",
        version("1.2.3"),
    )));
    let windows_430 = binary("x86_64-pc-windows-msvc", "4.3.0");
    let windows_431 = binary("x86_64-pc-windows-msvc", "4.3.1");
    let windows_arm = binary("aarch64-pc-windows-msvc", "4.3.0");

    assert_ne!(source, other_repository);
    assert_ne!(source, windows_430);
    assert_ne!(windows_430, windows_431);
    assert_ne!(windows_430, windows_arm);
}

#[test]
fn compiled_package_cache_uses_binary_compatibility_identity() {
    let path = |repository: &str, text: &str, target: &str, r_version: &str| {
        show(compiled_package_cache_path(&CompiledPackageCacheKey::new(
            cran(repository),
            "package",
            version(text),
            Target::parse(target).unwrap(),
            RVersion::parse(r_version).unwrap(),
        )))
    };
    let here = "https://example.test/cran";
    let base = path(here, "1.2.3", "x86_64-pc-windows-msvc", "4.3.0");

    assert_ne!(
        base,
        path(
            "https://mirror.example.test/cran",
            "1.2.3",
            "x86_64-pc-windows-msvc",
            "4.3.0"
        )
    );
    assert_ne!(base, path(here, "1.2.3", "aarch64-pc-windows-msvc", "4.3.0"));
    assert_ne!(base, path(here, "1.2.3", "x86_64-pc-windows-msvc", "4.3.1"));
    assert_eq!(base, path(here, "1.2.3.0", "x86_64-pc-windows-msvc", "4.3.0"));
}

#[test]
fn sources_of_each_kind_have_their_own_places() {
    let place = |source| {
        show(source_artifact_cache_path(&SourceArtifactCacheKey::new(
            source,
            "package",
            version("1.2.3"),
        )))
    };
    let git = |subdirectory: Option<&str>| SourceArtifactIdentity::Git {
        remote: GitUrl::from_generic("https://example.com/a/b.git").unwrap(),
        commit: GitOid::parse("1111111111111111111111111111111111111111").unwrap(),
        subdirectory: subdirectory.map(str::to_string),
    };
    let places = [
        place(SourceArtifactIdentity::Registry(RegistryIdentity::Rrepo(
            "https://example.test/cran".to_string(),
        ))),
        place(SourceArtifactIdentity::Registry(cran("https://example.test/cran"))),
        place(git(None)),
        place(git(Some("sub"))),
        place(SourceArtifactIdentity::Local("/here".to_string())),
    ];
    for (i, a) in places.iter().enumerate() {
        for b in &places[i + 1..] {
            assert_ne!(a, b);
        }
    }
}

#[test]
fn targets_are_read_by_their_systems() {
    assert!(Target::parse("x86_64-pc-windows-msvc").is_some());
    assert!(Target::parse("not a triple").is_none());
    assert_eq!(
        format!("{:?}", Target::parse("aarch64-apple-darwin").unwrap().os),
        "MacOs"
    );
    assert_eq!(
        format!("{:?}", Target::parse("x86_64-unknown-linux-gnu").unwrap().os),
        "Other"
    );
}

#[test]
fn both_names_of_macos_are_one_family() {
    assert_eq!(OperatingSystem::Windows.family(), OsFamily::Windows);
    assert_eq!(OperatingSystem::Darwin.family(), OsFamily::MacOs);
    assert_eq!(OperatingSystem::MacOsX.family(), OsFamily::MacOs);
    assert_eq!(OperatingSystem::Another.family(), OsFamily::Other);
    assert_eq!(Target::parse("x86_64-pc-windows-msvc").unwrap().os, OsFamily::Windows);
    assert_eq!(Target::parse("x86_64-apple-macosx10.7.0").unwrap().os, OsFamily::MacOs);
}
