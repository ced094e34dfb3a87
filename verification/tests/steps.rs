use rpx::artifact::{
    artifact_digest, build_plan, choose_artifact, confirm_artifact, first_download_stage,
    install_request, installer_build_key, next_download_step, package_source_artifact, ArtifactCacheEntry, ArtifactKind, BinaryFormat,
    DownloadEvent, DownloadStage, DownloadStep, InstallArtifact, InstallPackageError,
    InstallerArtifact,
};
use rpx::cache::RegistryIdentity;
use rpx::catalog::single_versions;
use rpx::description::{
    add_dependencies, remove_dependencies, DependencyField, Description,
};
use rpx::git::{
    next_checkout, next_fetch, CheckoutAction, CheckoutStage, FetchAction, FetchStage, GitOid,
};
use rpx::http::request_progress_message;
use rpx::location::{Base, Location};
use rpx::lockfile::{Lockfile, Package, SystemRequirements};
use rpx::metadata::{Relation, Version};
use rpx::project::Project;
use rpx::r::{
    finish_build, next_build_step, BuildEvent, BuildPaths, BuildStage, BuildStep,
    PackageBuildError, RSubprocessError, RVersion,
};
use rpx::remote::Remote;
use rpx::repository::{
    after_first_probe, after_second_probe, built_in_repository, probe_cran, probe_rrepo,
    ArchiveSupport, GitRepository, LocalRepository, PackageRepository, ProbeKind, ProbeStep,
    RepositoryError,
};
use rpx::resolution::{
    finish_resolution, load_project_resolution, recorded_requirements, rules_of, start_resolution,
    with_system_requirements, without_root, LoadProjectResolutionError, LockfileBuildError,
    ResolutionPolicy, ResolutionStart, SystemMatches,
};
use rpx::resolver::PackageVersion;
use rpx::schedule::DependencyInput;
use rpx::sorted::{SortedSet, TextMap};
use rpx::status::{check_library, expected_packages, RunError};
use rpx::sync::{with_project_package, ProjectPackageMode, ProjectType, RequiredPackage};

const COMMIT: &str = "1111111111111111111111111111111111111111";

fn version(text: &str) -> Version {
    Version::parse(text).expect("version should parse")
}

fn offered(text: &str) -> PackageVersion {
    PackageVersion::new(version(text), built_in_repository())
}

fn artifact(name: &str, kind: ArtifactKind) -> InstallArtifact {
    InstallArtifact { path: Location::root(Base::Cache).join(name), kind }
}

fn git_version(subdirectory: &str) -> PackageVersion {
    let remote = Remote::parse(&format!("github::owner/repository{subdirectory}")).unwrap();
    let repository = GitRepository::new(&remote)
        .unwrap()
        .with_commit(GitOid::parse(COMMIT).unwrap());
    PackageVersion::new(version("1.0"), PackageRepository::Git(repository))
}

fn local_version(path: &str) -> PackageVersion {
    PackageVersion::new(
        version("1.0"),
        PackageRepository::Local(LocalRepository::new(path.to_string())),
    )
}

#[test]
fn binary_artifacts_are_chosen_before_sources() {
    let zip = ArtifactKind::Binary(BinaryFormat::Zip);
    let choose = |entry| {
        choose_artifact(Some(artifact("b", zip)), artifact("s", ArtifactKind::Source), entry)
    };
    assert_eq!(choose(ArtifactCacheEntry::File).unwrap().kind, zip);
    assert_eq!(choose(ArtifactCacheEntry::Missing).unwrap().kind, ArtifactKind::Source);
    assert!(matches!(
        choose(ArtifactCacheEntry::Invalid),
        Err(InstallPackageError::InvalidArtifact { path }) if path.parts == ["b"]
    ));
    let confirm =
        |entry| confirm_artifact(artifact("s", ArtifactKind::Source), entry, "a", &offered("1.0"));
    assert!(confirm(ArtifactCacheEntry::File).is_ok());
    assert!(matches!(
        confirm(ArtifactCacheEntry::Missing),
        Err(InstallPackageError::MissingArtifact { package, version })
            if package == "a" && version == "1.0"
    ));
    assert!(matches!(
        confirm(ArtifactCacheEntry::Invalid),
        Err(InstallPackageError::InvalidArtifact { .. })
    ));
    assert_eq!(artifact("b", zip).trace_kind(), "binary");
    assert_eq!(artifact("b", zip).progress_action(), "extracting");
    assert_eq!(artifact("s", ArtifactKind::Source).trace_kind(), "source");
    assert_eq!(artifact("s", ArtifactKind::Source).progress_action(), "installing");
    assert_eq!(request_progress_message("GET", "/a"), "GET /a");
}

#[test]
fn archives_that_are_built_are_installed() {
    let git = git_version("/sub");
    let plan = build_plan("a", &git, "/checkouts/x");
    assert_eq!(plan.package_root, "/checkouts/x/sub");
    assert_eq!(plan.archive.parts, package_source_artifact("a", &git).path.parts);
    assert_eq!(build_plan("a", &git_version(""), "/checkouts/x").package_root, "/checkouts/x");
    let local = local_version("/here");
    let plan = build_plan("a", &local, "");
    assert_eq!(plan.package_root, "/here");
    assert_eq!(plan.archive.parts, package_source_artifact("a", &local).path.parts);
}

#[test]
fn installations_are_requested_with_their_key() {
    let request = |contents: &str| {
        install_request(
            artifact("s", ArtifactKind::Source),
            &contents.as_bytes().to_vec(),
            "a",
            "1.0",
            &RVersion::parse("4.5.1").unwrap(),
            "x86_64-unknown-linux-gnu",
            vec![DependencyInput { name: "b".to_string(), version: None }],
            "/library".to_string(),
        )
    };
    let first = request("package artifact");
    assert_eq!((first.name.as_str(), first.version.as_str()), ("a", "1.0"));
    assert_eq!(first.r_major_minor, "4.5");
    assert_eq!(first.key.len(), 32);
    assert_ne!(first.key, request("changed package artifact").key);
    assert_eq!(first.artifact_digest, artifact_digest(&b"package artifact".to_vec()));
    assert_eq!(
        first.key,
        installer_build_key(
            ArtifactKind::Source,
            &first.artifact_digest,
            "a",
            "1.0",
            &RVersion::parse("4.5.1").unwrap(),
            "x86_64-unknown-linux-gnu",
            vec![DependencyInput { name: "b".to_string(), version: None }],
        )
    );
    assert!(matches!(
        first.artifact,
        InstallerArtifact::Source { dependency_libraries, allow_non_staged: true, .. }
            if dependency_libraries == ["/library"]
    ));
}

#[test]
fn downloads_end_whatever_fails() {
    let cran = RegistryIdentity::Cran("https://a.test".to_string());
    let binary = Ok(Some(artifact("b", ArtifactKind::Binary(BinaryFormat::Zip))));
    let mut stage = first_download_stage(&binary);
    assert_eq!(stage, DownloadStage::BinaryEntry);
    let mut steps = 0;
    loop {
        let event = match stage {
            DownloadStage::BinaryEntry | DownloadStage::SourceEntry => {
                DownloadEvent::Found(ArtifactCacheEntry::Missing)
            }
            _ => DownloadEvent::Failed,
        };
        steps += 1;
        match next_download_step(&cran, stage, event) {
            DownloadStep::Next(next) => stage = next,
            step => {
                assert_eq!(step, DownloadStep::Failed);
                break;
            }
        }
    }
    assert_eq!(steps, 5);
    assert_eq!(stage, DownloadStage::ArchivedRequest);
}

#[test]
fn commits_are_fetched_in_wider_and_wider_ways() {
    let commit = GitOid::parse(COMMIT).unwrap();
    let mut stage = FetchStage::Start;
    let mut asked = Vec::new();
    loop {
        match next_fetch(stage, false, Some("refs/heads/main"), &commit) {
            FetchAction::Fetch { refspecs, next, required } => {
                asked.push((refspecs, required));
                stage = next;
            }
            FetchAction::Unavailable => break,
            FetchAction::Done => panic!("the commit is never there"),
        }
    }
    assert_eq!(
        asked,
        [
            (vec!["+refs/heads/main:refs/rpx/source".to_string()], false),
            (vec![format!("+{COMMIT}:refs/rpx/commit")], false),
            (
                vec![
                    "+refs/heads/*:refs/rpx/heads/*".to_string(),
                    "+refs/tags/*:refs/rpx/tags/*".to_string(),
                ],
                true
            ),
        ]
    );
    assert!(matches!(next_fetch(FetchStage::Start, true, None, &commit), FetchAction::Done));
}

#[test]
fn checkouts_are_replaced_if_they_are_not_valid() {
    assert_eq!(next_checkout(CheckoutStage::Probe, true), CheckoutAction::Done);
    assert_eq!(next_checkout(CheckoutStage::Probe, false), CheckoutAction::Prepare);
    assert_eq!(next_checkout(CheckoutStage::Recheck, false), CheckoutAction::Replace);
    assert_eq!(next_checkout(CheckoutStage::Publish, false), CheckoutAction::Confirm);
    assert_eq!(next_checkout(CheckoutStage::Confirm, true), CheckoutAction::Done);
    assert_eq!(next_checkout(CheckoutStage::Confirm, false), CheckoutAction::Fail);
}

fn paths() -> BuildPaths {
    BuildPaths {
        package_root: "/root".to_string(),
        directory: "/cache".to_string(),
        workspace: "/cache/w".to_string(),
        staged: "/cache/w/a_1.0.tar.gz".to_string(),
        archive: "/cache/a.tar.gz".to_string(),
    }
}

#[test]
fn packages_are_built_in_steps() {
    let mut stage = BuildStage::PrepareDirectory;
    let mut seen = vec![stage];
    while let BuildStep::Do(next) = next_build_step(stage, BuildEvent::Done, &paths()) {
        stage = next;
        seen.push(stage);
    }
    assert_eq!(
        seen,
        [
            BuildStage::PrepareDirectory,
            BuildStage::CreateWorkspace,
            BuildStage::RunCommand,
            BuildStage::Inspect,
            BuildStage::Publish,
        ]
    );
    assert!(matches!(
        next_build_step(BuildStage::Publish, BuildEvent::Done, &paths()),
        BuildStep::CleanUp(Ok(()))
    ));
    assert!(finish_build(Ok(()), Ok(()), "/cache/w").is_ok());
}

#[test]
fn each_fault_of_a_build_is_told() {
    let failed = || BuildEvent::Failed { details: "why".to_string() };
    let step = |stage, event| next_build_step(stage, event, &paths());
    assert!(matches!(
        step(BuildStage::PrepareDirectory, failed()),
        BuildStep::End(PackageBuildError::ArtifactDirectory { path, details })
            if path == "/cache" && details == "why"
    ));
    assert!(matches!(
        step(BuildStage::CreateWorkspace, failed()),
        BuildStep::End(PackageBuildError::TemporaryDirectory { .. })
    ));
    let source = RSubprocessError::Start { program: "R".to_string(), details: "x".to_string() };
    assert!(matches!(
        step(BuildStage::RunCommand, BuildEvent::CommandFailed { source }),
        BuildStep::CleanUp(Err(PackageBuildError::Command { path, .. })) if path == "/root"
    ));
    assert!(matches!(
        step(BuildStage::Inspect, BuildEvent::NotFound),
        BuildStep::CleanUp(Err(PackageBuildError::ArchiveMissing { path }))
            if path == "/cache/w/a_1.0.tar.gz"
    ));
    assert!(matches!(
        step(BuildStage::Inspect, failed()),
        BuildStep::CleanUp(Err(PackageBuildError::InspectArchive { .. }))
    ));
    assert!(matches!(
        step(BuildStage::Publish, failed()),
        BuildStep::CleanUp(Err(PackageBuildError::PublishArchive { path, .. }))
            if path == "/cache/a.tar.gz"
    ));
    assert!(matches!(
        finish_build(Ok(()), Err("busy".to_string()), "/cache/w"),
        Err(PackageBuildError::Cleanup { path, details })
            if path == "/cache/w" && details == "busy"
    ));
    assert!(matches!(
        finish_build(
            Err(PackageBuildError::ArchiveMissing { path: "a".to_string() }),
            Err("busy".to_string()),
            "/cache/w"
        ),
        Err(PackageBuildError::ArchiveMissing { .. })
    ));
}

fn refused(status: u16) -> RepositoryError {
    RepositoryError::Response { status: Some(status), details: String::new() }
}

#[test]
fn repositories_are_recognised_by_what_they_answer() {
    let url = "https://a.test/cran";
    assert!(matches!(
        probe_rrepo("https://a.test/cran/", Ok(())),
        Ok(PackageRepository::Rrepo(repository)) if repository.url() == url
    ));
    assert!(probe_rrepo(url, Err(refused(404))).is_err());
    assert!(matches!(
        probe_cran(url, Ok(()), Ok(())),
        Ok(PackageRepository::Cran(repository))
            if repository.archive_support() == ArchiveSupport::Available
    ));
    assert!(matches!(
        probe_cran(url, Ok(()), Err(refused(404))),
        Ok(PackageRepository::Cran(repository))
            if repository.archive_support() == ArchiveSupport::Unavailable
    ));
    assert!(probe_cran(url, Ok(()), Err(refused(500))).is_err());
    assert!(probe_cran(url, Err(refused(404)), Ok(())).is_err());

    assert!(matches!(after_first_probe(Ok(built_in_repository())), ProbeStep::Found(_)));
    let ProbeStep::AwaitOther(first) = after_first_probe(Err(refused(404))) else {
        panic!("the other probe should be awaited");
    };
    let both =
        after_second_probe(url.to_string(), ProbeKind::Cran, first, Err(refused(500)));
    let Err(RepositoryError::UnrecognizedRepository { url: told, rrepo, cran }) = both else {
        panic!("no probe recognised the repository");
    };
    assert_eq!(told, url);
    assert!(matches!(*rrepo, RepositoryError::Response { status: Some(500), .. }));
    assert!(matches!(*cran, RepositoryError::Response { status: Some(404), .. }));
}

#[test]
fn repositories_of_one_package_offer_that_package() {
    assert_eq!(single_versions("a", local_version("/a"), "a").len(), 1);
    assert!(single_versions("a", local_version("/a"), "b").is_empty());
}

fn lockfile(packages: Vec<(&str, &str)>) -> Lockfile {
    let mut locked = TextMap::new();
    for (name, text) in packages {
        locked.insert(
            name.to_string(),
            Package {
                version: version(text),
                repository: "https://upstream.rrepo.dev/cran".to_string(),
                dependencies: SortedSet::new(),
            },
        );
    }
    let mut requirements = SortedSet::new();
    requirements.insert(Relation::parse("a").unwrap());
    Lockfile {
        version: 5,
        revision: 0,
        r: RVersion::parse("4.5.1").unwrap(),
        sysreqs: SystemRequirements { db_commit: None, rules: TextMap::new() },
        repos: vec![built_in_repository().to_lockfile().unwrap()],
        requirements,
        packages: locked,
    }
}

fn project(imports: &str) -> Project {
    Project {
        root: "/project".to_string(),
        description: Description {
            text: format!("Package: project\nVersion: 1.0.0\nImports: {imports}\n"),
        },
    }
}

fn r_version() -> RVersion {
    RVersion::parse("4.5.1").unwrap()
}

#[test]
fn resolutions_start_from_what_is_valid() {
    let start = |project: &Project, policy, previous| {
        start_resolution(project, policy, &r_version(), previous).expect("project is sound")
    };
    let locked = || Some(lockfile(vec![("a", "1.2")]));
    let ResolutionStart::Reuse(resolution) =
        start(&project("a"), ResolutionPolicy::ReuseIfValid, locked())
    else {
        panic!("a valid lockfile should be used again");
    };
    assert!(!resolution.lockfile_changed);
    assert_eq!(resolution.packages.get("a").unwrap().version.version().text, "1.2");
    let ResolutionStart::Resolve { requirements, preferred, previous, .. } =
        start(&project("b"), ResolutionPolicy::ReuseIfValid, locked())
    else {
        panic!("changed requirements should be resolved");
    };
    assert_eq!(requirements.items[0].to_text(), "b");
    assert_eq!(preferred.get("a").unwrap().text, "1.2");
    assert!(previous.is_some());
    assert!(matches!(
        start(&project("a"), ResolutionPolicy::AlwaysResolve, locked()),
        ResolutionStart::Resolve { .. }
    ));
    assert!(start_resolution(
        &project("a (>="),
        ResolutionPolicy::ReuseIfValid,
        &r_version(),
        None
    )
    .is_err());
}

#[test]
fn locked_resolutions_have_to_match_the_project() {
    let load = |imports| {
        load_project_resolution(&project(imports), &r_version(), lockfile(vec![("a", "1.2")]))
    };
    assert_eq!(load("a").unwrap().packages.keys, ["a"]);
    assert!(matches!(load("b"), Err(LoadProjectResolutionError::LockedResolution(_))));
}

#[test]
fn changes_of_lockfiles_are_noticed() {
    let finish = |previous| {
        finish_resolution(&previous, lockfile(vec![("a", "1.2")]), TextMap::new(), r_version())
    };
    assert!(finish(None).lockfile_changed);
    assert!(!finish(Some(lockfile(vec![("a", "1.2")]))).lockfile_changed);
    assert!(finish(Some(lockfile(vec![("a", "1.3")]))).lockfile_changed);
}

fn required(version: PackageVersion) -> RequiredPackage {
    RequiredPackage {
        version,
        description: Description { text: "Package: x\nVersion: 1.0\n".to_string() },
    }
}

#[test]
fn the_project_is_installed_if_it_is_asked_for() {
    let mut packages = TextMap::new();
    packages.insert("a".to_string(), required(offered("1.0")));
    packages.insert("project".to_string(), required(local_version("/project")));
    assert_eq!(without_root(packages, "/project").keys, ["a"]);

    let with = |kind, mode| {
        let mut packages = TextMap::new();
        packages.insert("a".to_string(), required(offered("1.0")));
        with_project_package(
            packages,
            "DESCRIPTION".to_string(),
            "/project",
            &project("a").description,
            kind,
            mode,
        )
        .expect("project is sound")
        .keys
    };
    assert_eq!(with(ProjectType::Package, ProjectPackageMode::Install), ["a", "project"]);
    assert_eq!(with(ProjectType::Package, ProjectPackageMode::Omit), ["a"]);
    assert_eq!(with(ProjectType::Project, ProjectPackageMode::Install), ["a"]);
    assert!(matches!(ProjectPackageMode::from(true), ProjectPackageMode::Omit));
}

#[test]
fn system_requirements_are_gathered_by_rule() {
    let pair = |rule: &str, package: &str| (rule.to_string(), package.to_string());
    let matches = vec![pair("libxml", "xml2"), pair("libxml", "XML"), pair("gdal", "sf")];
    let rules = rules_of(&matches);
    assert_eq!(rules.keys, ["gdal", "libxml"]);
    assert_eq!(rules.get("libxml").unwrap().items, ["XML", "xml2"]);
    let system = |commit: &str| SystemMatches { commit: commit.to_string(), matches: vec![] };
    let commit = |text| {
        with_system_requirements(lockfile(vec![]), &system(text))
            .map(|lockfile| lockfile.sysreqs.db_commit.map(|oid| oid.to_text()))
    };
    assert_eq!(commit("").unwrap(), None);
    assert_eq!(commit(COMMIT).unwrap().as_deref(), Some(COMMIT));
    assert!(matches!(
        commit("zzz"),
        Err(LockfileBuildError::InvalidSystemRequirementsCommit { commit }) if commit == "zzz"
    ));
}

#[test]
fn libraries_have_to_hold_what_is_locked() {
    let mut base = SortedSet::new();
    base.insert("stats".to_string());
    let locked = lockfile(vec![("a", "1.2"), ("stats", "4.5.1")]);
    assert_eq!(expected_packages(&locked, &base).keys, ["a"]);
    let mut installed = TextMap::new();
    assert!(matches!(
        check_library(&locked, &base, &installed),
        Err(RunError::LibraryOutOfSync { mismatches }) if mismatches.missing_packages == ["a"]
    ));
    installed.insert("a".to_string(), offered("1.2"));
    installed.insert("more".to_string(), offered("1.0"));
    assert!(check_library(&locked, &base, &installed).is_ok());
}

#[test]
fn removal_undoes_what_was_added() {
    let source = || "DESCRIPTION".to_string();
    let mut description = project("kept").description;
    let mut added = SortedSet::new();
    added.insert(Relation::parse("alpha (>= 1.0)").unwrap());
    add_dependencies(source(), &mut description, &added, DependencyField::Suggests).unwrap();
    let once = description.text.clone();
    assert!(once.contains("alpha (>= 1.0)"));
    add_dependencies(source(), &mut description, &added, DependencyField::Suggests).unwrap();
    assert_eq!(description.text, once);
    remove_dependencies(source(), &mut description, &vec!["alpha".to_string()]).unwrap();
    assert!(!description.text.contains("alpha"));
    assert!(description.text.contains("kept"));
}

#[test]
fn recorded_system_requirements_are_kept_for_locked_packages() {
    let pair = |rule: &str, package: &str| (rule.to_string(), package.to_string());
    let matches = vec![pair("gdal", "sf"), pair("libxml", "xml2"), pair("libxml", "gone")];
    let system = SystemMatches { commit: COMMIT.to_string(), matches };
    let former = lockfile(vec![("sf", "1.0"), ("xml2", "1.0"), ("gone", "1.0")]);
    let former = with_system_requirements(former, &system).expect("commit is sound");
    let current = lockfile(vec![("xml2", "1.1")]);
    let recorded = recorded_requirements(&former, &current);
    assert_eq!(recorded.commit, COMMIT);
    assert_eq!(recorded.matches, [pair("libxml", "xml2")]);
    let current = with_system_requirements(current, &recorded).expect("commit is sound");
    assert_eq!(current.sysreqs.rules.keys, ["libxml"]);
    let fresh = recorded_requirements(&lockfile(vec![]), &current);
    assert_eq!(fresh.commit, "");
    assert!(fresh.matches.is_empty());
}

#[test]
fn other_fields_outlast_changes_of_dependencies() {
    let source = || "DESCRIPTION".to_string();
    let text = "Package: project\nVersion: 1.0\nTitle: A Title\nImports: kept\nEnhances: other\n";
    let mut description = Description { text: text.to_string() };
    let mut added = SortedSet::new();
    added.insert(Relation::parse("alpha").unwrap());
    add_dependencies(source(), &mut description, &added, DependencyField::Imports).unwrap();
    assert!(description.text.contains("alpha"));
    assert!(description.text.contains("Enhances: other\n"));
    assert!(description.text.contains("Title: A Title\n"));
    remove_dependencies(source(), &mut description, &vec!["alpha".to_string()]).unwrap();
    assert!(!description.text.contains("alpha"));
    assert!(description.text.contains("Enhances: other\n"));
    assert!(description.text.contains("Title: A Title\n"));
}

#[test]
fn refused_libraries_are_told_all_that_blocks_them() {
    let mut base = SortedSet::new();
    base.insert("stats".to_string());
    let locked = lockfile(vec![("a", "1.2"), ("b", "1.0"), ("c", "2.0"), ("stats", "4.5.1")]);
    let mut installed = TextMap::new();
    installed.insert("b".to_string(), offered("1.1"));
    installed.insert("extra".to_string(), offered("1.0"));
    let Err(RunError::LibraryOutOfSync { mismatches }) =
        check_library(&locked, &base, &installed)
    else {
        panic!("the library should be refused");
    };
    assert_eq!(mismatches.missing_packages, ["a", "c"]);
    assert!(mismatches.extra_packages.is_empty());
    assert_eq!(mismatches.version_mismatches.len(), 1);
    let mismatch = &mismatches.version_mismatches[0];
    assert_eq!(mismatch.package, "b");
    assert_eq!(mismatch.expected, "1.0");
    assert_eq!(mismatch.installed, "1.1");
}
