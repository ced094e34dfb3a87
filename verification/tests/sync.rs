use rpx::artifact::{
    artifact_cache_entry, artifact_digest, installer_build_key, ArtifactCacheEntry, ArtifactKind, BinaryFormat,
    InstallArtifact, InstallerArtifact,
};
use rpx::description::Description;
use rpx::location::{Base, Location};
use rpx::metadata::Version;
use rpx::r::RVersion;
use rpx::remote::Remote;
use rpx::repository::{
    built_in_repository, GitRepository, LocalRepository, PackageRepository,
};
use rpx::resolver::PackageVersion;
use rpx::schedule::{
    complete_task, pending_package_count, pop_startable, DependencyInput, Progress, ResourcePool,
    TaskKind, SYNC_R_WORKERS, SYNC_SHARED_WORKERS,
};
use rpx::sorted::TextMap;
use rpx::sync::{
    package_requires_install, plan_sync, sync_tasks, ProjectPackageMode, RequiredPackage,
    SystemSyncMode,
};

fn version(value: &str) -> Version {
    Version::parse(value).expect("version fixture should parse")
}

#[test]
fn package_requires_install_respects_source_and_version() {
    let registry = PackageVersion::new(version("1.0.0"), built_in_repository());
    let same = PackageVersion::new(version("1.0.0"), built_in_repository());
    let old = PackageVersion::new(version("0.9.0"), built_in_repository());
    assert!(package_requires_install(&registry, None));
    assert!(!package_requires_install(&registry, Some(&same)));
    assert!(package_requires_install(&registry, Some(&old)));
    let local = PackageRepository::Local(LocalRepository::new("vendor/selected".to_string()));
    let git = PackageRepository::Git(
        GitRepository::new(&Remote::parse("github::owner/repository").unwrap()).unwrap(),
    );
    assert!(package_requires_install(
        &PackageVersion::new(version("1.0.0"), local),
        Some(&same)
    ));
    assert!(package_requires_install(
        &PackageVersion::new(version("1.0.0"), git),
        Some(&same)
    ));
}

fn required_packages(packages: &[(&str, &str)]) -> TextMap<RequiredPackage> {
    let mut required = TextMap::new();
    for (name, fields) in packages {
        required.insert(
            name.to_string(),
            RequiredPackage {
                version: PackageVersion::new(version("1.0.0"), built_in_repository()),
                description: Description {
                    text: format!("Package: {name}\nVersion: 1.0.0\n{fields}"),
                },
            },
        );
    }
    required
}

#[test]
fn sync_tasks_release_by_kind_and_package_dependency() {
    let packages = required_packages(&[("dependency", ""), ("dependent", "Imports: dependency\n")]);
    let mut tasks = sync_tasks(&packages, &TextMap::new()).unwrap();
    let resources = ResourcePool::new();

    let dependency_download = pop_startable(&mut tasks, &resources).unwrap();
    assert_eq!(dependency_download.task.0, "dependency");
    assert_eq!(dependency_download.task.1, TaskKind::Download);
    complete_task(&mut tasks, dependency_download);

    let dependency_install = pop_startable(&mut tasks, &resources).unwrap();
    assert_eq!(dependency_install.task.0, "dependency");
    assert_eq!(dependency_install.task.1, TaskKind::Install);
    complete_task(&mut tasks, dependency_install);

    let dependent_download = pop_startable(&mut tasks, &resources).unwrap();
    assert_eq!(dependent_download.task.0, "dependent");
    assert_eq!(dependent_download.task.1, TaskKind::Download);
    complete_task(&mut tasks, dependent_download);

    let dependent_install = pop_startable(&mut tasks, &resources).unwrap();
    assert_eq!(dependent_install.task.0, "dependent");
    assert_eq!(dependent_install.task.1, TaskKind::Install);
    assert_eq!(dependent_install.dependencies.len(), 1);
    assert_eq!(dependent_install.dependencies[0].name, "dependency");
    assert_eq!(
        dependent_install.dependencies[0].version.as_deref(),
        Some("1.0.0")
    );
}

#[test]
fn sync_tasks_schedule_extra_packages_for_removal() {
    let required = required_packages(&[("required", "")]);
    let mut installed = TextMap::new();
    installed.insert(
        "required".to_string(),
        PackageVersion::new(version("1.0.0"), built_in_repository()),
    );
    installed.insert(
        "extra".to_string(),
        PackageVersion::new(version("2.0.0"), built_in_repository()),
    );

    let tasks = sync_tasks(&required, &installed).unwrap();

    assert_eq!(tasks.items.len(), 1);
    assert!(tasks.items.iter().any(|row| {
        row.task == ("extra".to_string(), TaskKind::Remove) && row.blockers == 0
    }));
    assert_eq!(pending_package_count(&tasks), 0);
}

#[test]
fn resource_pool_enforces_shared_and_subset_limits() {
    let mut resources = ResourcePool::new();
    resources.reserve(TaskKind::Checkout);
    assert!(!resources.can_reserve(TaskKind::Checkout));
    assert!(resources.can_reserve(TaskKind::Build));

    resources.release(TaskKind::Checkout);
    for _ in 0..SYNC_R_WORKERS {
        resources.reserve(TaskKind::Build);
    }
    assert!(!resources.can_reserve(TaskKind::Install));
    assert!(resources.can_reserve(TaskKind::Download));

    for _ in SYNC_R_WORKERS..SYNC_SHARED_WORKERS {
        resources.reserve(TaskKind::Download);
    }
    assert!(!resources.can_reserve(TaskKind::Download));
}

#[test]
fn artifact_cache_entries_distinguish_files_directories_and_missing_paths() {
    assert_eq!(artifact_cache_entry(true, true), ArtifactCacheEntry::File);
    assert_eq!(artifact_cache_entry(false, true), ArtifactCacheEntry::Invalid);
    assert_eq!(artifact_cache_entry(false, false), ArtifactCacheEntry::Missing);
}

fn place(name: &str) -> Location {
    Location { base: Base::Cache, parts: vec![name.to_string()] }
}

#[test]
fn install_artifact_maps_source_options_for_the_installer() {
    let artifact = InstallArtifact {
        path: place("package.tar.gz"),
        kind: ArtifactKind::Source,
    }
    .into_installer_artifact("project-library".to_string());

    let InstallerArtifact::Source { path, dependency_libraries, allow_non_staged } = artifact
    else {
        panic!("source selection should produce a source artifact");
    };
    assert_eq!(path.parts, ["package.tar.gz"]);
    assert_eq!(dependency_libraries, vec!["project-library"]);
    assert!(allow_non_staged);
}

#[test]
fn install_artifact_preserves_binary_format() {
    let artifact = InstallArtifact {
        path: place("package.zip"),
        kind: ArtifactKind::Binary(BinaryFormat::Zip),
    }
    .into_installer_artifact("unused-library".to_string());

    let InstallerArtifact::Binary { path, format } = artifact else {
        panic!("binary selection should produce a binary artifact");
    };
    assert_eq!(path.parts, ["package.zip"]);
    assert_eq!(format, BinaryFormat::Zip);
}

fn inputs(dependencies: &[(&str, Option<&str>)]) -> Vec<DependencyInput> {
    dependencies
        .iter()
        .map(|(name, version)| DependencyInput {
            name: name.to_string(),
            version: version.map(str::to_string),
        })
        .collect()
}

fn build_key(
    kind: ArtifactKind,
    digest: u8,
    package: &str,
    version: &str,
    r_version: &str,
    dependencies: &[(&str, Option<&str>)],
) -> Vec<u8> {
    installer_build_key(
        kind,
        &vec![digest; 32],
        package,
        version,
        &RVersion::parse(r_version).unwrap(),
        "x86_64-unknown-linux-gnu",
        inputs(dependencies),
    )
}

#[test]
fn artifact_digest_tracks_file_contents() {
    let first = artifact_digest(&b"package artifact".to_vec());

    assert_ne!(artifact_digest(&b"changed package artifact".to_vec()), first);
}

#[test]
fn artifact_digests_are_those_of_their_bytes() {
    let hex = |digest: Vec<u8>| {
        digest.iter().map(|byte| format!("{byte:02x}")).collect::<String>()
    };
    assert_eq!(
        hex(artifact_digest(&b"abc".to_vec())),
        "ba7816bf8f01cfea414140de5dae2223b00361a396177a9cb410ff61f20015ad"
    );
    assert_eq!(
        hex(artifact_digest(&Vec::new())),
        "e3b0c44298fc1c149afbf4c8996fb92427ae41e4649b934ca495991b7852b855"
    );
}

#[test]
fn installer_build_key_tracks_build_inputs() {
    let source = ArtifactKind::Source;
    let dependencies = [("dependency", Some("1.0.0"))];
    let baseline = build_key(source, 1, "package", "1.0.0", "4.5.1", &dependencies);

    assert_ne!(
        baseline,
        build_key(
            ArtifactKind::Binary(BinaryFormat::Zip),
            1,
            "package",
            "1.0.0",
            "4.5.1",
            &dependencies
        )
    );
    assert_ne!(
        baseline,
        build_key(source, 2, "package", "1.0.0", "4.5.1", &dependencies)
    );
    assert_ne!(
        baseline,
        build_key(source, 1, "other", "1.0.0", "4.5.1", &dependencies)
    );
    assert_ne!(
        baseline,
        build_key(source, 1, "package", "2.0.0", "4.5.1", &dependencies)
    );
    assert_ne!(
        baseline,
        build_key(source, 1, "package", "1.0.0", "4.4.2", &dependencies)
    );
    assert_ne!(
        baseline,
        build_key(source, 1, "package", "1.0.0", "4.5.1", &[("other", Some("1.0.0"))])
    );
    assert_ne!(
        baseline,
        build_key(source, 1, "package", "1.0.0", "4.5.1", &[("dependency", Some("2.0.0"))])
    );
}

#[test]
fn installer_build_key_sorts_dependencies() {
    let key = |dependencies: &[(&str, Option<&str>)]| {
        build_key(ArtifactKind::Source, 1, "package", "1.0.0", "4.5.1", dependencies)
    };

    assert_eq!(
        key(&[("a", Some("1.0.0")), ("b", None)]),
        key(&[("b", None), ("a", Some("1.0.0"))])
    );
}

#[test]
fn binary_build_keys_do_not_depend_on_dependencies() {
    let key = |dependencies: &[(&str, Option<&str>)]| {
        build_key(
            ArtifactKind::Binary(BinaryFormat::TarGz),
            1,
            "package",
            "1.0.0",
            "4.5.1",
            dependencies,
        )
    };
    assert_eq!(key(&[("a", Some("1.0.0"))]), key(&[("b", None)]));
}

#[test]
fn schedules_run_every_task_once() {
    let required = required_packages(&[
        ("a", ""),
        ("b", "Imports: a\n"),
        ("c", "Depends: R (>= 4.0), a\nLinkingTo: b\n"),
    ]);
    let mut schedule = plan_sync(&required, &TextMap::new()).expect("plan should be made");
    let mut order = Vec::new();
    loop {
        while let Some(row) = schedule.start() {
            order.push(row.task.clone());
        }
        match schedule.progress() {
            Progress::Finished => break,
            Progress::Cycle(_) => panic!("nothing waits for itself"),
            Progress::Running => {
                let task = schedule.running[0].task.clone();
                assert!(schedule.finish(&task));
            }
        }
    }
    assert_eq!(order.len(), 6);
    let at = |name: &str| {
        order
            .iter()
            .position(|task| task.0 == name && task.1 == TaskKind::Install)
            .expect("every package is installed")
    };
    assert!(at("a") < at("b"));
    assert!(at("b") < at("c"));
}

#[test]
fn tasks_make_a_library_exact() {
    let required = required_packages(&[("a", ""), ("b", "Imports: a\n"), ("c", "")]);
    let mut installed = TextMap::new();
    for (name, text) in [("a", "1.0.0"), ("b", "0.9.0"), ("extra", "2.0.0")] {
        installed.insert(
            name.to_string(),
            PackageVersion::new(version(text), built_in_repository()),
        );
    }

    let tasks = sync_tasks(&required, &installed).unwrap();

    let mut library = vec![
        ("a".to_string(), "1.0.0".to_string()),
        ("b".to_string(), "0.9.0".to_string()),
        ("extra".to_string(), "2.0.0".to_string()),
    ];
    for row in &tasks.items {
        if row.task.1 == TaskKind::Install || row.task.1 == TaskKind::Remove {
            library.retain(|(name, _)| *name != row.task.0);
        }
        if row.task.1 == TaskKind::Install {
            library.push((row.task.0.clone(), row.version.version.text.clone()));
        }
    }
    library.sort();
    let expected: Vec<(String, String)> = ["a", "b", "c"]
        .iter()
        .map(|name| (name.to_string(), "1.0.0".to_string()))
        .collect();
    assert_eq!(library, expected);
}

#[test]
fn cycles_are_told() {
    let required = required_packages(&[("a", "Imports: b\n"), ("b", "Imports: a\n")]);
    let mut schedule = plan_sync(&required, &TextMap::new()).expect("plan should be made");
    loop {
        while schedule.start().is_some() {}
        match schedule.progress() {
            Progress::Finished => panic!("a cycle cannot be finished"),
            Progress::Cycle(packages) => {
                assert_eq!(packages, ["a", "b"]);
                break;
            }
            Progress::Running => {
                let task = schedule.running[0].task.clone();
                schedule.finish(&task);
            }
        }
    }
}

#[test]
fn malformed_dependencies_stop_the_plan() {
    let required = required_packages(&[("a", "Imports: b (>= invalid)\n")]);
    assert!(sync_tasks(&required, &TextMap::new()).is_err());
}

#[test]
fn modes_follow_flags() {
    assert_eq!(ProjectPackageMode::from(true), ProjectPackageMode::Omit);
    assert_eq!(ProjectPackageMode::from(false), ProjectPackageMode::Install);
    assert_eq!(SystemSyncMode::from_flags(false, false), SystemSyncMode::Check);
    assert_eq!(SystemSyncMode::from_flags(true, false), SystemSyncMode::Install);
    assert_eq!(SystemSyncMode::from_flags(true, true), SystemSyncMode::InstallOnly);
}
