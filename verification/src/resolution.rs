//! Resolutions: what is reused of a lockfile, and the lockfile that a resolution makes.
use crate::description::{
    all_relations, configuration, configuration_issues, lock_fault, lock_fields,
    locked_dependencies, project_dependencies, project_fields, relation_issues,
    DescriptionParseError, ErrorV, IssueV,
};
use crate::document::{depends_of, fits, imports_of, linking_to_of};
use crate::git::{full_oid, is_short_oid, GitError, GitErrorV, GitOid};
use crate::lockfile;
use crate::lockfile::{
    locked_url, locked_views, package_views, same_lockfile, LockedRepositoryV, Lockfile,
    LockfileReadError, LockfileV, PackageV, SystemRequirements,
};
use crate::metadata::{Relation, RelationV, Version, VersionV};
use crate::path;
use crate::path::child_of;
use crate::project::{
    failure_views, locked_packages_of, needed_packages, required_packages_from_lockfile,
    validate_locked_resolution, validation_failures, FailureV, LockFaultV, LockedPackagesError,
    LockedResolutionError, LockedResolutionFailure, Project,
};
use crate::r::{parsed_semver, RVersion};
use crate::repository::{
    locked, may_lock, portable_subdirectory, repository_text, same_repository,
    unlocked, LocalRepository, PackageRepository, RepositoryError, RepositoryErrorV, RepositoryV,
};
use crate::resolver::{ProviderError, ResolutionError};
use crate::sorted::{collected, key_at, lemma_inserted, SortedSet, TextMap};
use crate::sync::{lemma_text_member, required_views, required_wf, RequiredPackage, RequiredV};
use crate::text;
use crate::text::texts;
use crate::wire::{copy_texts, is_canonical, is_readable, well_formed_lockfiles_are_readable};
use vstd::prelude::*;

verus! {

/// Why a lockfile cannot be made.
#[derive(Debug)]
pub enum LockfileBuildError {
    Repository { source: RepositoryError },
    GitRepositoryUnavailable { repository: String, source: RepositoryError },
    UnsupportedRepository { repository: String },
    InvalidPackageRequirements { package: String, details: String },
    InvalidSystemRequirementsCommit { commit: String },
}

/// Why a lockfile cannot be made.
pub enum BuildFaultV {
    Repository(RepositoryErrorV),
    GitRepositoryUnavailable(Seq<char>, RepositoryErrorV),
    UnsupportedRepository(Seq<char>),
    InvalidPackageRequirements(Seq<char>, Seq<char>),
    InvalidSystemRequirementsCommit(Seq<char>),
}

impl LockfileBuildError {
    /// The error, as characters.
    pub open spec fn view(&self) -> BuildFaultV {
        match self {
            LockfileBuildError::Repository { source } => BuildFaultV::Repository(source@),
            LockfileBuildError::GitRepositoryUnavailable { repository, source } => {
                BuildFaultV::GitRepositoryUnavailable(repository@, source@)
            },
            LockfileBuildError::UnsupportedRepository { repository } => {
                BuildFaultV::UnsupportedRepository(repository@)
            },
            LockfileBuildError::InvalidPackageRequirements { package, details } => {
                BuildFaultV::InvalidPackageRequirements(package@, details@)
            },
            LockfileBuildError::InvalidSystemRequirementsCommit { commit } => {
                BuildFaultV::InvalidSystemRequirementsCommit(commit@)
            },
        }
    }
}

/// The Git repository that an error says cannot be reached.
pub open spec fn unreachable_git(error: RepositoryErrorV) -> Option<Seq<char>> {
    match error {
        RepositoryErrorV::Git(_, GitErrorV::Access(remote, _)) => Some(remote),
        _ => None,
    }
}

/// The Git repository that an error says cannot be reached.
pub fn inaccessible_git_repository(error: &RepositoryError) -> (r: Option<String>)
    ensures
        text::opt_text(r) == unreachable_git(error@),
{
    match error {
        RepositoryError::Git { source: GitError::Access { remote, .. }, .. } => Some(
            remote.clone(),
        ),
        _ => None,
    }
}

/// What an error of a repository means for a lockfile.
pub open spec fn build_fault(error: RepositoryErrorV) -> BuildFaultV {
    match unreachable_git(error) {
        Some(repository) => BuildFaultV::GitRepositoryUnavailable(repository, error),
        None => BuildFaultV::Repository(error),
    }
}

/// What an error of a repository means for a lockfile.
pub fn lockfile_build_error(source: RepositoryError) -> (r: LockfileBuildError)
    ensures
        r@ == build_fault(source@),
{
    match inaccessible_git_repository(&source) {
        Some(repository) => LockfileBuildError::GitRepositoryUnavailable { repository, source },
        None => LockfileBuildError::Repository { source },
    }
}

/// Repositories.
pub open spec fn repository_views(v: Seq<PackageRepository>) -> Seq<RepositoryV> {
    v.map_values(|x: PackageRepository| x@)
}

/// The commits of all Git repositories are known.
pub open spec fn commits_known(repositories: Seq<RepositoryV>) -> bool {
    forall|i: int| 0 <= i < repositories.len() ==> ((#[trigger] repositories[i]) matches RepositoryV::Git(
        git,
    ) ==> git.commit is Some)
}

/// The locked forms of repositories, or why the first that has none has none.
pub open spec fn locked_list(repositories: Seq<RepositoryV>) -> Result<
    Seq<LockedRepositoryV>,
    RepositoryErrorV,
>
    decreases repositories.len(),
{
    if repositories.len() == 0 {
        Ok(Seq::empty())
    } else {
        match locked_list(repositories.drop_last()) {
            Err(error) => Err(error),
            Ok(list) => match locked(repositories.last()) {
                Err(error) => Err(error),
                Ok(repository) => Ok(list.push(repository)),
            },
        }
    }
}

proof fn lemma_list_fault_stays(repositories: Seq<RepositoryV>, k: int)
    requires
        0 <= k <= repositories.len(),
    ensures
        locked_list(repositories.take(k)) is Err ==> locked_list(repositories) == locked_list(
            repositories.take(k),
        ),
    decreases repositories.len() - k,
{
    if k == repositories.len() {
        assert(repositories.take(k) =~= repositories);
    } else {
        lemma_list_fault_stays(repositories, k + 1);
        assert(repositories.take(k + 1).drop_last() =~= repositories.take(k));
    }
}

/// Every platform reads the subdirectories of all repositories alike.
pub open spec fn all_portable(repositories: Seq<RepositoryV>) -> bool {
    forall|i: int| 0 <= i < repositories.len() ==> portable_subdirectory(#[trigger] repositories[i])
}

/// Each of the repositories may be locked as the one at its place.
pub open spec fn may_all_lock(repositories: Seq<RepositoryV>, repos: Seq<LockedRepositoryV>) -> bool {
    repos.len() == repositories.len() && forall|i: int|
        0 <= i < repos.len() ==> may_lock(
            repositories[i],
            Ok::<LockedRepositoryV, RepositoryErrorV>(#[trigger] repos[i]),
        )
}

/// One of the repositories may be refused for this.
pub open spec fn may_be_refused(repositories: Seq<RepositoryV>, error: RepositoryErrorV) -> bool {
    exists|i: int|
        0 <= i < repositories.len() && may_lock(
            #[trigger] repositories[i],
            Err::<LockedRepositoryV, RepositoryErrorV>(error),
        )
}

/// What comes of locking repositories: their locked forms, or why one has none. Where every
/// platform reads their subdirectories alike, there is one outcome.
pub open spec fn may_lock_list(
    repositories: Seq<RepositoryV>,
    r: Result<Seq<LockedRepositoryV>, RepositoryErrorV>,
) -> bool {
    &&& match r {
        Ok(repos) => may_all_lock(repositories, repos),
        Err(error) => may_be_refused(repositories, error),
    }
    &&& all_portable(repositories) ==> r == locked_list(repositories)
}

proof fn lemma_portable_list(repositories: Seq<RepositoryV>, repos: Seq<LockedRepositoryV>)
    requires
        all_portable(repositories),
        may_all_lock(repositories, repos),
    ensures
        locked_list(repositories) == Ok::<Seq<LockedRepositoryV>, RepositoryErrorV>(repos),
    decreases repositories.len(),
{
    if repositories.len() == 0 {
        assert(repos =~= Seq::empty());
    } else {
        let t = repositories.drop_last();
        let u = repos.drop_last();
        assert forall|i: int| 0 <= i < t.len() implies portable_subdirectory(#[trigger] t[i]) by {
            assert(t[i] == repositories[i]);
        }
        assert forall|i: int| 0 <= i < u.len() implies may_lock(
            t[i],
            Ok::<LockedRepositoryV, RepositoryErrorV>(#[trigger] u[i]),
        ) by {
            assert(u[i] == repos[i]);
        }
        lemma_portable_list(t, u);
        let last = repositories.len() - 1;
        assert(portable_subdirectory(repositories[last]));
        assert(may_lock(
            repositories[last],
            Ok::<LockedRepositoryV, RepositoryErrorV>(repos[last]),
        ));
        assert(repos =~= u.push(repos[last]));
    }
}

fn lock_repositories(repositories: &Vec<PackageRepository>) -> (r: Result<
    Vec<lockfile::Repository>,
    RepositoryError,
>)
    requires
        forall|i: int| 0 <= i < repositories@.len() ==> (#[trigger] repositories@[i]).wf(),
        commits_known(repository_views(repositories@)),
    ensures
        match r {
            Ok(repos) => {
                &&& may_lock_list(
                    repository_views(repositories@),
                    Ok::<Seq<LockedRepositoryV>, RepositoryErrorV>(locked_views(repos@)),
                )
                &&& repos@.len() == repositories@.len()
                &&& forall|i: int| 0 <= i < repos@.len() ==> (#[trigger] repos@[i]).wf()
            },
            Err(error) => may_lock_list(
                repository_views(repositories@),
                Err::<Seq<LockedRepositoryV>, RepositoryErrorV>(error@),
            ),
        },
{
    let ghost all = repository_views(repositories@);
    let mut repos: Vec<lockfile::Repository> = Vec::new();
    let mut i: usize = 0;
    while i < repositories.len()
        invariant
            i <= repositories@.len(),
            all == repository_views(repositories@),
            forall|k: int| 0 <= k < repositories@.len() ==> (#[trigger] repositories@[k]).wf(),
            commits_known(all),
            repos@.len() == i,
            may_all_lock(all.take(i as int), locked_views(repos@)),
            forall|k: int| 0 <= k < repos@.len() ==> (#[trigger] repos@[k]).wf(),
        decreases repositories@.len() - i,
    {
        proof {
            assert(all[i as int] == repositories@[i as int]@);
            assert(repositories@[i as int].wf());
        }
        let ghost before = repos@;
        match repositories[i].to_lockfile() {
            Ok(repository) => {
                repos.push(repository);
                proof {
                    let views = locked_views(repos@);
                    assert(views =~= locked_views(before).push(repository@));
                    assert forall|k: int| 0 <= k < views.len() implies may_lock(
                        all.take(i + 1)[k],
                        Ok::<LockedRepositoryV, RepositoryErrorV>(#[trigger] views[k]),
                    ) by {
                        if k < i {
                            assert(views[k] == locked_views(before)[k]);
                            assert(all.take(i as int)[k] == all[k]);
                        }
                    }
                }
            },
            Err(error) => {
                proof {
                    assert(may_lock(
                        all[i as int],
                        Err::<LockedRepositoryV, RepositoryErrorV>(error@),
                    ));
                    if all_portable(all) {
                        let seen = all.take(i as int);
                        assert forall|k: int| 0 <= k < seen.len() implies portable_subdirectory(
                            #[trigger] seen[k],
                        ) by {
                            assert(seen[k] == all[k]);
                        }
                        lemma_portable_list(seen, locked_views(before));
                        assert(portable_subdirectory(all[i as int]));
                        assert(all.take(i + 1).drop_last() =~= seen);
                        assert(all.take(i + 1).last() == all[i as int]);
                        lemma_list_fault_stays(all, i + 1);
                    }
                }
                return Err(error);
            },
        }
        i = i + 1;
    }
    proof {
        assert(all.take(i as int) =~= all);
        if all_portable(all) {
            lemma_portable_list(all, locked_views(repos@));
        }
    }
    Ok(repos)
}

/// The place of the first repository that is the given one.
pub open spec fn repository_place(repositories: Seq<RepositoryV>, repository: RepositoryV) -> Option<int>
    decreases repositories.len(),
{
    if repositories.len() == 0 {
        None
    } else {
        match repository_place(repositories.drop_last(), repository) {
            Some(i) => Some(i),
            None => if same_repository(repository, repositories.last()) {
                Some(repositories.len() - 1)
            } else {
                None
            },
        }
    }
}

proof fn lemma_place_stays(repositories: Seq<RepositoryV>, repository: RepositoryV, k: int)
    requires
        0 <= k <= repositories.len(),
    ensures
        repository_place(repositories.take(k), repository) is Some ==> repository_place(
            repositories,
            repository,
        ) == repository_place(repositories.take(k), repository),
    decreases repositories.len() - k,
{
    if k == repositories.len() {
        assert(repositories.take(k) =~= repositories);
    } else {
        lemma_place_stays(repositories, repository, k + 1);
        assert(repositories.take(k + 1).drop_last() =~= repositories.take(k));
    }
}

fn place_among(repositories: &Vec<PackageRepository>, repository: &PackageRepository) -> (r: Option<
    usize,
>)
    ensures
        match r {
            Some(i) => i < repositories@.len() && repository_place(
                repository_views(repositories@),
                repository@,
            ) == Some(i as int),
            None => repository_place(repository_views(repositories@), repository@) is None,
        },
{
    let ghost all = repository_views(repositories@);
    let mut i: usize = 0;
    assert(all.take(0) =~= Seq::<RepositoryV>::empty());
    while i < repositories.len()
        invariant
            i <= repositories@.len(),
            all == repository_views(repositories@),
            repository_place(all.take(i as int), repository@) is None,
        decreases repositories@.len() - i,
    {
        assert(all.take(i + 1).drop_last() =~= all.take(i as int));
        assert(all[i as int] == repositories@[i as int]@);
        if repository.equals(&repositories[i]) {
            proof {
                lemma_place_stays(all, repository@, i + 1);
            }
            return Some(i);
        }
        i = i + 1;
    }
    assert(all.take(i as int) =~= all);
    None
}

/// A resolved package as it is locked, or why it cannot be.
pub open spec fn locked_entry(
    repositories: Seq<RepositoryV>,
    repos: Seq<LockedRepositoryV>,
    name: Seq<char>,
    package: RequiredV,
) -> Result<PackageV, BuildFaultV> {
    match repository_place(repositories, package.version.repository) {
        None => Err(
            BuildFaultV::UnsupportedRepository(repository_text(package.version.repository)),
        ),
        Some(i) => match lock_fault(package.description) {
            Some(details) => Err(BuildFaultV::InvalidPackageRequirements(name, details)),
            None => Ok(
                PackageV {
                    version: package.version.version,
                    repository: locked_url(repos[i]),
                    dependencies: collected(all_relations(lock_fields(package.description))),
                },
            ),
        },
    }
}

/// Resolved packages as they are locked, or why the first that cannot be cannot be.
pub open spec fn locked_entries(
    repositories: Seq<RepositoryV>,
    repos: Seq<LockedRepositoryV>,
    names: Seq<Seq<char>>,
    packages: Seq<RequiredV>,
) -> Result<Seq<PackageV>, BuildFaultV>
    decreases names.len(),
{
    if names.len() == 0 {
        Ok(Seq::empty())
    } else {
        match locked_entries(repositories, repos, names.drop_last(), packages.drop_last()) {
            Err(fault) => Err(fault),
            Ok(list) => match locked_entry(repositories, repos, names.last(), packages.last()) {
                Err(fault) => Err(fault),
                Ok(package) => Ok(list.push(package)),
            },
        }
    }
}

proof fn lemma_entry_fault_stays(
    repositories: Seq<RepositoryV>,
    repos: Seq<LockedRepositoryV>,
    names: Seq<Seq<char>>,
    packages: Seq<RequiredV>,
    k: int,
)
    requires
        names.len() == packages.len(),
        0 <= k <= names.len(),
    ensures
        locked_entries(repositories, repos, names.take(k), packages.take(k)) is Err
            ==> locked_entries(repositories, repos, names, packages) == locked_entries(
            repositories,
            repos,
            names.take(k),
            packages.take(k),
        ),
    decreases names.len() - k,
{
    if k == names.len() {
        assert(names.take(k) =~= names);
        assert(packages.take(k) =~= packages);
    } else {
        lemma_entry_fault_stays(repositories, repos, names, packages, k + 1);
        assert(names.take(k + 1).drop_last() =~= names.take(k));
        assert(packages.take(k + 1).drop_last() =~= packages.take(k));
    }
}

fn lock_package(
    repositories: &Vec<PackageRepository>,
    repos: &Vec<lockfile::Repository>,
    name: &String,
    package: &RequiredPackage,
) -> (r: Result<lockfile::Package, LockfileBuildError>)
    requires
        repos@.len() == repositories@.len(),
        package.version.wf(),
        fits(package.description@),
    ensures
        match r {
            Ok(locked_package) => locked_package.wf() && locked_entry(
                repository_views(repositories@),
                locked_views(repos@),
                name@,
                package@,
            ) == Ok::<PackageV, BuildFaultV>(locked_package@),
            Err(error) => locked_entry(
                repository_views(repositories@),
                locked_views(repos@),
                name@,
                package@,
            ) == Err::<PackageV, BuildFaultV>(error@),
        },
{
    let i = match place_among(repositories, &package.version.repository) {
        Some(i) => i,
        None => {
            return Err(
                LockfileBuildError::UnsupportedRepository {
                    repository: package.version.repository.to_text(),
                },
            );
        },
    };
    assert(locked_views(repos@)[i as int] == repos@[i as int]@);
    let repository = repos[i].url().to_owned();
    match locked_dependencies(&package.description) {
        Ok(dependencies) => Ok(
            lockfile::Package { version: package.version.version.copy(), repository, dependencies },
        ),
        Err(details) => Err(
            LockfileBuildError::InvalidPackageRequirements { package: name.clone(), details },
        ),
    }
}

/// The lockfile of a resolution, without system requirements: the repositories in the order
/// in which they are asked, and each package with the URL of the first repository that is
/// the one it comes from and with what it needs.
pub fn lockfile_from_resolution(
    requirements: SortedSet<Relation>,
    resolved: &TextMap<RequiredPackage>,
    repositories: &Vec<PackageRepository>,
    r_version: &RVersion,
) -> (r: Result<Lockfile, LockfileBuildError>)
    requires
        requirements.wf(),
        required_wf(resolved),
        forall|i: int| 0 <= i < repositories@.len() ==> (#[trigger] repositories@[i]).wf(),
        commits_known(repository_views(repositories@)),
        r_version.wf(),
    ensures
        match r {
            Ok(lockfile) => {
                &&& lockfile.wf()
                &&& lockfile@.version == lockfile::LOCKFILE_VERSION
                &&& lockfile@.revision == lockfile::LOCKFILE_REVISION
                &&& lockfile@.r == r_version@
                &&& lockfile@.db_commit is None
                &&& lockfile@.rules.0.len() == 0
                &&& lockfile@.requirements == requirements@
                &&& may_lock_list(
                    repository_views(repositories@),
                    Ok::<Seq<LockedRepositoryV>, RepositoryErrorV>(lockfile@.repos),
                )
                &&& lockfile@.packages.0 == texts(resolved.keys@)
                &&& locked_entries(
                    repository_views(repositories@),
                    lockfile@.repos,
                    texts(resolved.keys@),
                    required_views(resolved.values@),
                ) == Ok::<Seq<PackageV>, BuildFaultV>(lockfile@.packages.1)
            },
            Err(error) => {
                ||| exists|fault: RepositoryErrorV| #[trigger]
                    may_lock_list(
                        repository_views(repositories@),
                        Err::<Seq<LockedRepositoryV>, RepositoryErrorV>(fault),
                    ) && error@ == build_fault(fault)
                ||| exists|repos: Seq<LockedRepositoryV>| #[trigger]
                    may_lock_list(
                        repository_views(repositories@),
                        Ok::<Seq<LockedRepositoryV>, RepositoryErrorV>(repos),
                    ) && locked_entries(
                        repository_views(repositories@),
                        repos,
                        texts(resolved.keys@),
                        required_views(resolved.values@),
                    ) == Err::<Seq<PackageV>, BuildFaultV>(error@)
            },
        },
{
    let repos = match lock_repositories(repositories) {
        Ok(repos) => repos,
        Err(error) => {
            return Err(lockfile_build_error(error));
        },
    };
    let ghost places = repository_views(repositories@);
    let ghost listed = locked_views(repos@);
    let ghost names = texts(resolved.keys@);
    let ghost items = required_views(resolved.values@);
    let mut keys: Vec<String> = Vec::new();
    let mut values: Vec<lockfile::Package> = Vec::new();
    let mut i: usize = 0;
    proof {
        assert(texts(keys@) =~= names.take(0));
        assert(package_views(values@) =~= Seq::<PackageV>::empty());
    }
    while i < resolved.keys.len()
        invariant
            i <= resolved.keys@.len(),
            required_wf(resolved),
            repos@.len() == repositories@.len(),
            places == repository_views(repositories@),
            listed == locked_views(repos@),
            may_lock_list(places, Ok::<Seq<LockedRepositoryV>, RepositoryErrorV>(listed)),
            names == texts(resolved.keys@),
            items == required_views(resolved.values@),
            keys@.len() == i,
            values@.len() == i,
            texts(keys@) == names.take(i as int),
            locked_entries(places, listed, names.take(i as int), items.take(i as int)) == Ok::<
                Seq<PackageV>,
                BuildFaultV,
            >(package_views(values@)),
            forall|k: int| 0 <= k < values@.len() ==> (#[trigger] values@[k]).wf(),
        decreases resolved.keys@.len() - i,
    {
        let name = &resolved.keys[i];
        let package = &resolved.values[i];
        proof {
            assert(names.take(i + 1).drop_last() =~= names.take(i as int));
            assert(items.take(i + 1).drop_last() =~= items.take(i as int));
            assert(names[i as int] == name@);
            assert(items[i as int] == package@);
            assert(resolved.values@[i as int].version.wf());
            lemma_entry_fault_stays(places, listed, names, items, i + 1);
        }
        match lock_package(repositories, &repos, name, package) {
            Ok(entry) => {
                let ghost before = values@;
                let ghost taken = keys@;
                values.push(entry);
                keys.push(name.clone());
                assert(package_views(values@) =~= package_views(before).push(entry@));
                assert(texts(keys@) =~= texts(taken).push(name@));
                assert(names.take(i + 1) =~= names.take(i as int).push(names[i as int]));
            },
            Err(error) => {
                return Err(error);
            },
        }
        i = i + 1;
    }
    assert(names.take(i as int) =~= names);
    assert(items.take(i as int) =~= items);
    let rules: TextMap<SortedSet<String>> = TextMap { keys: Vec::new(), values: Vec::new() };
    let sysreqs = SystemRequirements { db_commit: None, rules };
    assert(sysreqs.wf());
    Ok(
        Lockfile {
            version: lockfile::LOCKFILE_VERSION,
            revision: lockfile::LOCKFILE_REVISION,
            r: r_version.copy(),
            sysreqs,
            repos,
            requirements,
            packages: TextMap { keys, values },
        },
    )
}

/// How well a lockfile fits a project.
#[derive(Debug)]
pub enum LockfileAssessment {
    Valid,
    Stale { failures: Vec<LockedResolutionFailure> },
}

/// What no longer fits of a lockfile.
pub open spec fn staleness(document: Seq<char>, r_version: Seq<char>, lockfile: LockfileV) -> Seq<
    FailureV,
> {
    validation_failures(
        configuration(document),
        needed_packages(document),
        r_version,
        lockfile,
    )
}

/// The description of a project names its repositories and packages without an error.
pub open spec fn is_well_described(document: Seq<char>) -> bool {
    configuration_issues(document).len() == 0 && relation_issues(project_fields(document)).len()
        == 0
}

/// The first issues of the description of a project: with its repositories, then with its
/// packages.
pub open spec fn description_issues(document: Seq<char>) -> Seq<IssueV> {
    if configuration_issues(document).len() > 0 {
        configuration_issues(document)
    } else {
        relation_issues(project_fields(document))
    }
}

/// The path of the description of a project.
pub open spec fn description_place(root: Seq<char>) -> Seq<char> {
    child_of(root, "DESCRIPTION"@)
}

impl Project {
    /// The path of the description.
    pub fn description_path(&self) -> (r: String)
        ensures
            r@ == description_place(self.root@),
    {
        path::child(self.root.as_str(), "DESCRIPTION")
    }

    /// Tells whether a lockfile fits the project, and if not, why.
    pub fn assess_lockfile(&self, r_version: &RVersion, lockfile: &Lockfile) -> (r: Result<
        LockfileAssessment,
        LockedResolutionError,
    >)
        requires
            fits(self.description@),
            lockfile.wf(),
        ensures
            match r {
                Ok(LockfileAssessment::Valid) => is_well_described(self.description@) && staleness(
                    self.description@,
                    r_version@,
                    lockfile@,
                ).len() == 0,
                Ok(LockfileAssessment::Stale { failures }) => is_well_described(self.description@)
                    && failures@.len() > 0 && failure_views(failures@) == staleness(
                    self.description@,
                    r_version@,
                    lockfile@,
                ),
                Err(LockedResolutionError::Parse(error)) => !is_well_described(self.description@)
                    && error.wf() && error@ == (ErrorV {
                    source_name: description_place(self.root@),
                    source_code: self.description@,
                    issues: description_issues(self.description@),
                }),
                Err(_) => false,
            },
    {
        match validate_locked_resolution(
            self.description_path(),
            &self.description,
            r_version,
            lockfile,
        ) {
            Ok(_) => Ok(LockfileAssessment::Valid),
            Err(LockedResolutionError::Validation { failures }) => Ok(
                LockfileAssessment::Stale { failures },
            ),
            Err(source) => Err(source),
        }
    }
}

/// Whether a lockfile that still fits is used as it is.
#[derive(Clone, Copy, PartialEq, Eq, Structural, Debug)]
pub enum ResolutionPolicy {
    AlwaysResolve,
    ReuseIfValid,
}

/// What was resolved for a project, and whether its lockfile has to be written.
#[derive(Debug)]
pub struct ProjectResolution {
    pub lockfile: Lockfile,
    pub lockfile_changed: bool,
    pub packages: TextMap<RequiredPackage>,
    pub r_version: RVersion,
}

/// Only the needed packages or R have changed.
pub open spec fn only_needs_changed(failures: Seq<FailureV>) -> bool {
    forall|i: int|
        0 <= i < failures.len() ==> ((#[trigger] failures[i]) is PackageRequirementsChanged
            || failures[i] is RVersionChanged)
}

fn needs_changed(failures: &Vec<LockedResolutionFailure>) -> (r: bool)
    ensures
        r == only_needs_changed(failure_views(failures@)),
{
    let ghost all = failure_views(failures@);
    let mut i: usize = 0;
    while i < failures.len()
        invariant
            i <= failures@.len(),
            all == failure_views(failures@),
            forall|k: int|
                0 <= k < i ==> ((#[trigger] all[k]) is PackageRequirementsChanged
                    || all[k] is RVersionChanged),
        decreases failures@.len() - i,
    {
        assert(all[i as int] == failures@[i as int]@);
        match &failures[i] {
            LockedResolutionFailure::PackageRequirementsChanged => {},
            LockedResolutionFailure::RVersionChanged { .. } => {},
            _ => {
                assert(!(all[i as int] is PackageRequirementsChanged || all[i as int]
                    is RVersionChanged));
                return false;
            },
        }
        i = i + 1;
    }
    true
}

/// The repositories of a lockfile, or why the first that cannot be had cannot be had.
pub open spec fn unlocked_list(repos: Seq<LockedRepositoryV>) -> Result<
    Seq<RepositoryV>,
    RepositoryErrorV,
>
    decreases repos.len(),
{
    if repos.len() == 0 {
        Ok(Seq::empty())
    } else {
        match unlocked_list(repos.drop_last()) {
            Err(error) => Err(error),
            Ok(list) => match unlocked(repos.last()) {
                Err(error) => Err(error),
                Ok(repository) => Ok(list.push(repository)),
            },
        }
    }
}

proof fn lemma_unlock_fault_stays(repos: Seq<LockedRepositoryV>, k: int)
    requires
        0 <= k <= repos.len(),
    ensures
        unlocked_list(repos.take(k)) is Err ==> unlocked_list(repos) == unlocked_list(
            repos.take(k),
        ),
    decreases repos.len() - k,
{
    if k == repos.len() {
        assert(repos.take(k) =~= repos);
    } else {
        lemma_unlock_fault_stays(repos, k + 1);
        assert(repos.take(k + 1).drop_last() =~= repos.take(k));
    }
}

fn unlock_repositories(repos: &Vec<lockfile::Repository>) -> (r: Result<
    Vec<PackageRepository>,
    RepositoryError,
>)
    requires
        forall|i: int| 0 <= i < repos@.len() ==> (#[trigger] repos@[i]).wf(),
    ensures
        match r {
            Ok(repositories) => {
                &&& unlocked_list(locked_views(repos@)) == Ok::<
                    Seq<RepositoryV>,
                    RepositoryErrorV,
                >(repository_views(repositories@))
                &&& forall|i: int|
                    0 <= i < repositories@.len() ==> (#[trigger] repositories@[i]).wf()
            },
            Err(error) => unlocked_list(locked_views(repos@)) == Err::<
                Seq<RepositoryV>,
                RepositoryErrorV,
            >(error@),
        },
{
    let ghost all = locked_views(repos@);
    let mut repositories: Vec<PackageRepository> = Vec::new();
    let mut i: usize = 0;
    proof {
        assert(all.take(0) =~= Seq::<LockedRepositoryV>::empty());
        assert(repository_views(repositories@) =~= Seq::<RepositoryV>::empty());
    }
    while i < repos.len()
        invariant
            i <= repos@.len(),
            all == locked_views(repos@),
            forall|k: int| 0 <= k < repos@.len() ==> (#[trigger] repos@[k]).wf(),
            unlocked_list(all.take(i as int)) == Ok::<Seq<RepositoryV>, RepositoryErrorV>(
                repository_views(repositories@),
            ),
            forall|k: int| 0 <= k < repositories@.len() ==> (#[trigger] repositories@[k]).wf(),
        decreases repos@.len() - i,
    {
        proof {
            assert(all.take(i + 1).drop_last() =~= all.take(i as int));
            assert(all[i as int] == repos@[i as int]@);
            lemma_unlock_fault_stays(all, i + 1);
        }
        match PackageRepository::from_lockfile(&repos[i]) {
            Ok(repository) => {
                let ghost before = repositories@;
                repositories.push(repository);
                assert(repository_views(repositories@) =~= repository_views(before).push(
                    repository@,
                ));
            },
            Err(error) => {
                return Err(error);
            },
        }
        i = i + 1;
    }
    assert(all.take(i as int) =~= all);
    Ok(repositories)
}

/// The versions of locked packages.
pub open spec fn locked_versions(packages: Seq<PackageV>) -> Seq<VersionV> {
    packages.map_values(|p: PackageV| p.version)
}

/// Versions.
pub open spec fn plain_versions(v: Seq<Version>) -> Seq<VersionV> {
    v.map_values(|x: Version| x@)
}

/// The versions that a new resolution prefers: those of the former lockfile.
pub open spec fn preferences(previous: Option<LockfileV>) -> (Seq<Seq<char>>, Seq<VersionV>) {
    match previous {
        None => (Seq::empty(), Seq::empty()),
        Some(lockfile) => (lockfile.packages.0, locked_versions(lockfile.packages.1)),
    }
}

/// The lockfile that may be there.
pub open spec fn opt_lockfile(v: Option<Lockfile>) -> Option<LockfileV> {
    match v {
        Some(lockfile) => Some(lockfile@),
        None => None,
    }
}

/// The versions that a new resolution prefers.
pub fn preferred_versions(previous: &Option<Lockfile>) -> (r: TextMap<Version>)
    requires
        previous matches Some(lockfile) ==> lockfile.wf(),
    ensures
        r.wf(),
        forall|i: int| 0 <= i < r.values@.len() ==> (#[trigger] r.values@[i]).wf(),
        (texts(r.keys@), plain_versions(r.values@)) == preferences(opt_lockfile(*previous)),
{
    let mut names: Vec<String> = Vec::new();
    let mut versions: Vec<Version> = Vec::new();
    match previous {
        None => {
            assert(texts(names@) =~= Seq::<Seq<char>>::empty());
            assert(plain_versions(versions@) =~= Seq::<VersionV>::empty());
        },
        Some(lockfile) => {
            let mut i: usize = 0;
            while i < lockfile.packages.keys.len()
                invariant
                    lockfile.wf(),
                    i <= lockfile.packages.keys@.len(),
                    names@.len() == i,
                    versions@.len() == i,
                    forall|k: int|
                        0 <= k < i ==> (#[trigger] names@[k])@ == lockfile.packages.keys@[k]@,
                    forall|k: int|
                        0 <= k < i ==> (#[trigger] versions@[k])@
                            == lockfile.packages.values@[k]@.version && versions@[k].wf(),
                decreases lockfile.packages.keys@.len() - i,
            {
                assert(lockfile.packages.values@[i as int].wf());
                names.push(lockfile.packages.keys[i].clone());
                versions.push(lockfile.packages.values[i].version.copy());
                i = i + 1;
            }
            assert(texts(names@) =~= texts(lockfile.packages.keys@));
            assert(plain_versions(versions@) =~= locked_versions(lockfile@.packages.1));
        },
    }
    TextMap { keys: names, values: versions }
}

/// Where the repositories of a resolution come from.
#[derive(Debug)]
pub enum RepositorySource {
    Description,
    Lockfile(Vec<PackageRepository>),
}

/// How the resolution of a project begins.
#[derive(Debug)]
pub enum ResolutionStart {
    Reuse(ProjectResolution),
    Resolve {
        requirements: SortedSet<Relation>,
        repositories: RepositorySource,
        preferred: TextMap<Version>,
        previous: Option<Lockfile>,
    },
}

/// How the resolution of a project begins: a lockfile that still fits is used as it is, one
/// in which only the needed packages or R have changed gives its repositories.
pub enum StartV {
    Reuse,
    LockedRepositories,
    DescribedRepositories,
}

/// How the resolution of a project begins.
pub open spec fn start_of(
    policy: ResolutionPolicy,
    document: Seq<char>,
    r_version: Seq<char>,
    previous: Option<LockfileV>,
) -> StartV {
    match (policy, previous) {
        (ResolutionPolicy::ReuseIfValid, Some(lockfile)) => {
            let failures = staleness(document, r_version, lockfile);
            if failures.len() == 0 {
                StartV::Reuse
            } else if only_needs_changed(failures) {
                StartV::LockedRepositories
            } else {
                StartV::DescribedRepositories
            }
        },
        _ => StartV::DescribedRepositories,
    }
}

/// Why a project cannot be resolved.
#[allow(inconsistent_fields)]
#[derive(Debug)]
pub enum ResolveProjectError {
    PreviousLockfile(LockfileReadError),
    RVersion { details: String },
    DescriptionParse(DescriptionParseError),
    LockedResolution(LockedResolutionError),
    LockedPackages(LockedPackagesError),
    Repository(RepositoryError),
    LockedRepository { source: RepositoryError },
    PackageMetadata { source: RepositoryError },
    NoSolution { explanation: String },
    BasePackages { details: String },
    GitRepositoryUnavailable { repository: String, source: ResolutionError },
    Resolution { source: ResolutionError },
    BuildLockfile(LockfileBuildError),
}

/// A former lockfile is asked whether it still fits.
pub open spec fn asks_lockfile(policy: ResolutionPolicy, previous: Option<LockfileV>) -> bool {
    policy == ResolutionPolicy::ReuseIfValid && previous is Some
}

/// Begins the resolution of a project.
pub fn start_resolution(
    project: &Project,
    policy: ResolutionPolicy,
    r_version: &RVersion,
    previous: Option<Lockfile>,
) -> (r: Result<ResolutionStart, ResolveProjectError>)
    requires
        fits(project.description@),
        previous matches Some(lockfile) ==> lockfile.wf(),
        r_version.wf(),
    ensures
        match r {
            Ok(ResolutionStart::Reuse(resolution)) => {
                &&& is_well_described(project.description@)
                &&& start_of(policy, project.description@, r_version@, opt_lockfile(previous))
                    is Reuse
                &&& previous == Some(resolution.lockfile)
                &&& !resolution.lockfile_changed
                &&& resolution.r_version@ == r_version@
                &&& required_wf(&resolution.packages)
                &&& texts(resolution.packages.keys@) == resolution.lockfile@.packages.0
                &&& locked_packages_of(
                    resolution.lockfile@.repos,
                    resolution.lockfile@.packages.0,
                    resolution.lockfile@.packages.1,
                ) == Ok::<Seq<RequiredV>, LockFaultV>(required_views(resolution.packages.values@))
            },
            Ok(ResolutionStart::Resolve { requirements, repositories, preferred, previous: kept }) => {
                &&& relation_issues(project_fields(project.description@)).len() == 0
                &&& asks_lockfile(policy, opt_lockfile(previous)) ==> is_well_described(
                    project.description@,
                )
                &&& requirements.wf()
                &&& requirements@ == needed_packages(project.description@)
                &&& kept == previous
                &&& preferred.wf()
                &&& forall|i: int|
                    0 <= i < preferred.values@.len() ==> (#[trigger] preferred.values@[i]).wf()
                &&& (texts(preferred.keys@), plain_versions(preferred.values@)) == preferences(
                    opt_lockfile(previous),
                )
                &&& match repositories {
                    RepositorySource::Description => start_of(
                        policy,
                        project.description@,
                        r_version@,
                        opt_lockfile(previous),
                    ) is DescribedRepositories,
                    RepositorySource::Lockfile(list) => {
                        &&& start_of(
                            policy,
                            project.description@,
                            r_version@,
                            opt_lockfile(previous),
                        ) is LockedRepositories
                        &&& unlocked_list(opt_lockfile(previous)->0.repos) == Ok::<
                            Seq<RepositoryV>,
                            RepositoryErrorV,
                        >(repository_views(list@))
                        &&& forall|i: int| 0 <= i < list@.len() ==> (#[trigger] list@[i]).wf()
                    },
                }
            },
            Err(ResolveProjectError::DescriptionParse(error)) => {
                &&& relation_issues(project_fields(project.description@)).len() > 0
                &&& error.wf()
                &&& error@ == (ErrorV {
                    source_name: description_place(project.root@),
                    source_code: project.description@,
                    issues: relation_issues(project_fields(project.description@)),
                })
            },
            Err(ResolveProjectError::LockedResolution(LockedResolutionError::Parse(error))) => {
                &&& relation_issues(project_fields(project.description@)).len() == 0
                &&& asks_lockfile(policy, opt_lockfile(previous))
                &&& configuration_issues(project.description@).len() > 0
                &&& error.wf()
                &&& error@ == (ErrorV {
                    source_name: description_place(project.root@),
                    source_code: project.description@,
                    issues: configuration_issues(project.description@),
                })
            },
            Err(ResolveProjectError::LockedPackages(error)) => {
                &&& is_well_described(project.description@)
                &&& start_of(policy, project.description@, r_version@, opt_lockfile(previous))
                    is Reuse
                &&& locked_packages_of(
                    opt_lockfile(previous)->0.repos,
                    opt_lockfile(previous)->0.packages.0,
                    opt_lockfile(previous)->0.packages.1,
                ) == Err::<Seq<RequiredV>, LockFaultV>(error@)
            },
            Err(ResolveProjectError::LockedRepository { source }) => {
                &&& is_well_described(project.description@)
                &&& start_of(policy, project.description@, r_version@, opt_lockfile(previous))
                    is LockedRepositories
                &&& unlocked_list(opt_lockfile(previous)->0.repos) == Err::<
                    Seq<RepositoryV>,
                    RepositoryErrorV,
                >(source@)
            },
            Err(_) => false,
        },
{
    let requirements = match project_dependencies(
        project.description_path(),
        &project.description,
    ) {
        Ok(requirements) => requirements,
        Err(error) => {
            return Err(ResolveProjectError::DescriptionParse(error));
        },
    };
    let preferred = preferred_versions(&previous);
    let lockfile = match (policy, previous) {
        (ResolutionPolicy::ReuseIfValid, Some(lockfile)) => lockfile,
        (_, previous) => {
            return Ok(
                ResolutionStart::Resolve {
                    requirements,
                    repositories: RepositorySource::Description,
                    preferred,
                    previous,
                },
            );
        },
    };
    match project.assess_lockfile(r_version, &lockfile) {
        Err(error) => Err(ResolveProjectError::LockedResolution(error)),
        Ok(LockfileAssessment::Valid) => match required_packages_from_lockfile(&lockfile) {
            Ok(packages) => Ok(
                ResolutionStart::Reuse(
                    ProjectResolution {
                        lockfile,
                        lockfile_changed: false,
                        packages,
                        r_version: r_version.copy(),
                    },
                ),
            ),
            Err(error) => Err(ResolveProjectError::LockedPackages(error)),
        },
        Ok(LockfileAssessment::Stale { failures }) => {
            let repositories = if needs_changed(&failures) {
                match unlock_repositories(&lockfile.repos) {
                    Ok(list) => RepositorySource::Lockfile(list),
                    Err(source) => {
                        return Err(ResolveProjectError::LockedRepository { source });
                    },
                }
            } else {
                RepositorySource::Description
            };
            Ok(
                ResolutionStart::Resolve {
                    requirements,
                    repositories,
                    preferred,
                    previous: Some(lockfile),
                },
            )
        },
    }
}

/// Why the packages of a project cannot be had from its lockfile.
#[derive(Debug)]
pub enum LoadProjectResolutionError {
    LockfileRead(LockfileReadError),
    RVersion { details: String },
    LockedResolution(LockedResolutionError),
    LockedPackages(LockedPackagesError),
}

/// The resolution of a project as its lockfile has it; the lockfile has to fit the project.
pub fn load_project_resolution(project: &Project, r_version: &RVersion, lockfile: Lockfile) -> (r:
    Result<ProjectResolution, LoadProjectResolutionError>)
    requires
        fits(project.description@),
        lockfile.wf(),
    ensures
        match r {
            Ok(resolution) => {
                &&& is_well_described(project.description@)
                &&& staleness(project.description@, r_version@, lockfile@).len() == 0
                &&& resolution.lockfile == lockfile
                &&& !resolution.lockfile_changed
                &&& resolution.r_version@ == r_version@
                &&& required_wf(&resolution.packages)
                &&& texts(resolution.packages.keys@) == lockfile@.packages.0
                &&& locked_packages_of(
                    lockfile@.repos,
                    lockfile@.packages.0,
                    lockfile@.packages.1,
                ) == Ok::<Seq<RequiredV>, LockFaultV>(required_views(resolution.packages.values@))
            },
            Err(LoadProjectResolutionError::LockedResolution(LockedResolutionError::Parse(error))) => {
                &&& !is_well_described(project.description@)
                &&& error.wf()
                &&& error@ == (ErrorV {
                    source_name: description_place(project.root@),
                    source_code: project.description@,
                    issues: description_issues(project.description@),
                })
            },
            Err(
                LoadProjectResolutionError::LockedResolution(
                    LockedResolutionError::Validation { failures },
                ),
            ) => is_well_described(project.description@) && failures@.len() > 0 && failure_views(
                failures@,
            ) == staleness(project.description@, r_version@, lockfile@),
            Err(LoadProjectResolutionError::LockedPackages(error)) => is_well_described(
                project.description@,
            ) && staleness(project.description@, r_version@, lockfile@).len() == 0
                && locked_packages_of(
                lockfile@.repos,
                lockfile@.packages.0,
                lockfile@.packages.1,
            ) == Err::<Seq<RequiredV>, LockFaultV>(error@),
            Err(_) => false,
        },
{
    match validate_locked_resolution(
        project.description_path(),
        &project.description,
        r_version,
        &lockfile,
    ) {
        Ok(_) => {},
        Err(error) => {
            return Err(LoadProjectResolutionError::LockedResolution(error));
        },
    }
    match required_packages_from_lockfile(&lockfile) {
        Ok(packages) => Ok(
            ProjectResolution {
                lockfile,
                lockfile_changed: false,
                packages,
                r_version: r_version.copy(),
            },
        ),
        Err(error) => Err(LoadProjectResolutionError::LockedPackages(error)),
    }
}

/// The repository error behind a question that could not be answered.
pub open spec fn provider_cause(error: ProviderError) -> RepositoryError {
    match error {
        ProviderError::Repository(source) => source,
        ProviderError::DependencyMetadata { source, .. } => source,
    }
}

fn cause_of(error: &ProviderError) -> (r: &RepositoryError)
    ensures
        *r == provider_cause(*error),
{
    match error {
        ProviderError::Repository(source) => source,
        ProviderError::DependencyMetadata { source, .. } => source,
    }
}

fn into_cause(error: ProviderError) -> (r: RepositoryError)
    ensures
        r == provider_cause(error),
{
    match error {
        ProviderError::Repository(source) => source,
        ProviderError::DependencyMetadata { source, .. } => source,
    }
}

/// What a failed search means for a project: that no versions fit, that R could not be asked
/// for its own packages, that a Git repository cannot be reached, that an index could not be
/// read, or anything else.
pub fn resolve_project_error(error: ResolutionError) -> (r: ResolveProjectError)
    ensures
        match error {
            ResolutionError::NoSolution { explanation } => r == (ResolveProjectError::NoSolution {
                explanation,
            }),
            ResolutionError::BasePackages { details } => r == (ResolveProjectError::BasePackages {
                details,
            }),
            ResolutionError::Provider(provider) => match unreachable_git(
                provider_cause(provider)@,
            ) {
                Some(remote) => {
                    &&& r matches ResolveProjectError::GitRepositoryUnavailable {
                        repository,
                        source,
                    }
                    &&& repository@ == remote
                    &&& source == error
                },
                None => r == (ResolveProjectError::Resolution { source: error }),
            },
            ResolutionError::ChoosingVersion { source, .. } => if provider_cause(source)
                is CranPackages {
                r == ResolveProjectError::Repository(provider_cause(source))
            } else {
                r == (ResolveProjectError::Resolution { source: error })
            },
            ResolutionError::RetrievingDependencies { source, .. } => if provider_cause(source)
                is CranPackages {
                r == ResolveProjectError::Repository(provider_cause(source))
            } else {
                r == (ResolveProjectError::Resolution { source: error })
            },
            ResolutionError::Join { .. } => r == (ResolveProjectError::Resolution {
                source: error,
            }),
        },
{
    match error {
        ResolutionError::NoSolution { explanation } => ResolveProjectError::NoSolution {
            explanation,
        },
        ResolutionError::BasePackages { details } => ResolveProjectError::BasePackages { details },
        ResolutionError::Provider(provider) => {
            let repository = inaccessible_git_repository(cause_of(&provider));
            let source = ResolutionError::Provider(provider);
            match repository {
                Some(repository) => ResolveProjectError::GitRepositoryUnavailable {
                    repository,
                    source,
                },
                None => ResolveProjectError::Resolution { source },
            }
        },
        ResolutionError::ChoosingVersion { package, source } => match cause_of(&source) {
            RepositoryError::CranPackages(_) => ResolveProjectError::Repository(
                into_cause(source),
            ),
            _ => ResolveProjectError::Resolution {
                source: ResolutionError::ChoosingVersion { package, source },
            },
        },
        ResolutionError::RetrievingDependencies { package, version, source } => match cause_of(
            &source,
        ) {
            RepositoryError::CranPackages(_) => ResolveProjectError::Repository(
                into_cause(source),
            ),
            _ => ResolveProjectError::Resolution {
                source: ResolutionError::RetrievingDependencies { package, version, source },
            },
        },
        ResolutionError::Join { details } => ResolveProjectError::Resolution {
            source: ResolutionError::Join { details },
        },
    }
}

/// The package comes from the directory of the project.
pub open spec fn is_root(package: RequiredPackage, root: Seq<char>) -> bool {
    same_repository(package.version.repository@, RepositoryV::Local(root, None))
}

/// From a place on, a key is there with a package that is not the project's own.
spec fn kept_from(packages: TextMap<RequiredPackage>, root: Seq<char>, key: Seq<char>, n: int) -> bool {
    exists|i: int|
        n <= i && #[trigger] key_at(packages.keys@, key, i) && !is_root(packages.values@[i], root)
}

proof fn lemma_kept_all(packages: TextMap<RequiredPackage>, root: Seq<char>, key: Seq<char>)
    requires
        packages.wf(),
    ensures
        kept_from(packages, root, key, 0) <==> packages@.contains_key(key) && !is_root(
            packages@[key],
            root,
        ),
{
    if kept_from(packages, root, key, 0) {
        let i = choose|i: int|
            0 <= i && #[trigger] key_at(packages.keys@, key, i) && !is_root(
                packages.values@[i],
                root,
            );
        packages.lemma_at(i);
    }
    if packages@.contains_key(key) && !is_root(packages@[key], root) {
        let i = choose|i: int| key_at(packages.keys@, key, i);
        packages.lemma_at(i);
        assert(key_at(packages.keys@, key, i));
    }
}

/// The packages that do not come from the directory of the project.
pub fn without_root(packages: TextMap<RequiredPackage>, root: &str) -> (r: TextMap<RequiredPackage>)
    requires
        required_wf(&packages),
    ensures
        required_wf(&r),
        forall|key: Seq<char>| #[trigger]
            r@.contains_key(key) <==> packages@.contains_key(key) && !is_root(
                packages@[key],
                root@,
            ),
        forall|key: Seq<char>| #[trigger] r@.contains_key(key) ==> r@[key] == packages@[key],
{
    let ghost all = packages;
    let own = PackageRepository::Local(LocalRepository::new(root.to_owned()));
    let mut names = packages.keys;
    let mut values = packages.values;
    let mut kept: TextMap<RequiredPackage> = TextMap::new();
    assert forall|key: Seq<char>| !kept_from(all, root@, key, names@.len() as int) by {}
    assert(names@ =~= all.keys@.take(names@.len() as int));
    assert(values@ =~= all.values@.take(names@.len() as int));
    while names.len() > 0
        invariant
            required_wf(&all),
            own@ == RepositoryV::Local(root@, None),
            names@.len() == values@.len() <= all.keys@.len(),
            names@ == all.keys@.take(names@.len() as int),
            values@ == all.values@.take(names@.len() as int),
            kept.wf(),
            forall|key: Seq<char>| #[trigger]
                kept@.contains_key(key) <==> kept_from(all, root@, key, names@.len() as int),
            forall|key: Seq<char>| #[trigger]
                kept@.contains_key(key) ==> all@.contains_key(key) && kept@[key] == all@[key],
        decreases names@.len(),
    {
        let ghost n = names@.len() - 1;
        let ghost before = kept@;
        let key = match names.pop() {
            Some(key) => key,
            None => {
                return kept;
            },
        };
        let value = match values.pop() {
            Some(value) => value,
            None => {
                return kept;
            },
        };
        proof {
            assert(key == all.keys@[n] && value == all.values@[n]);
            assert(names@ =~= all.keys@.take(n));
            assert(values@ =~= all.values@.take(n));
            all.lemma_at(n);
            assert forall|k: Seq<char>| kept_from(all, root@, k, n) <==> kept_from(
                all,
                root@,
                k,
                n + 1,
            ) || (k == key@ && !is_root(value, root@)) by {
                if kept_from(all, root@, k, n) {
                    let i = choose|i: int|
                        n <= i && #[trigger] key_at(all.keys@, k, i) && !is_root(
                            all.values@[i],
                            root@,
                        );
                    if i > n {
                        assert(key_at(all.keys@, k, i));
                    }
                }
                if kept_from(all, root@, k, n + 1) {
                    let i = choose|i: int|
                        n + 1 <= i && #[trigger] key_at(all.keys@, k, i) && !is_root(
                            all.values@[i],
                            root@,
                        );
                    assert(key_at(all.keys@, k, i));
                }
                if k == key@ && !is_root(value, root@) {
                    assert(key_at(all.keys@, k, n));
                }
            }
        }
        if !value.version.repository.equals(&own) {
            kept.insert(key, value);
        }
    }
    proof {
        assert forall|key: Seq<char>| #[trigger]
            kept@.contains_key(key) <==> all@.contains_key(key) && !is_root(
                all@[key],
                root@,
            ) by {
            lemma_kept_all(all, root@, key);
        }
        assert forall|i: int| 0 <= i < kept.values@.len() implies (
        #[trigger] kept.values@[i]).version.wf() && fits(kept.values@[i].description@) by {
            kept.lemma_at(i);
            let key = kept.keys@[i]@;
            assert(kept@.contains_key(key));
            let j = choose|j: int| key_at(all.keys@, key, j);
            all.lemma_at(j);
            assert(all.values@[j].version.wf());
        }
    }
    kept
}

/// The matches of packages with the rules of a database of system libraries: the commit of
/// the database, and each rule with a package that matches it.
#[derive(Debug)]
pub struct SystemMatches {
    pub commit: String,
    pub matches: Vec<(String, String)>,
}

/// The object name of the commit of a database; an empty text is none.
pub open spec fn database_commit(commit: Seq<char>) -> Result<Option<Seq<char>>, BuildFaultV> {
    if commit.len() == 0 {
        Ok(None)
    } else if is_short_oid(commit) {
        Ok(Some(full_oid(commit)))
    } else {
        Err(BuildFaultV::InvalidSystemRequirementsCommit(commit))
    }
}

/// The package matches the rule, among the first `n` matches.
pub open spec fn is_match(
    matches: Seq<(String, String)>,
    rule: Seq<char>,
    package: Seq<char>,
    n: int,
) -> bool {
    exists|i: int|
        0 <= i < n && (#[trigger] matches[i]).0@ == rule && matches[i].1@ == package
}

/// The rule is there with the package.
pub open spec fn lists_package(
    rules: Map<Seq<char>, SortedSet<String>>,
    rule: Seq<char>,
    package: Seq<char>,
) -> bool {
    rules.contains_key(rule) && rules[rule]@.contains(package)
}

proof fn lemma_match_grows(
    matches: Seq<(String, String)>,
    rule: Seq<char>,
    package: Seq<char>,
    n: int,
)
    requires
        0 <= n < matches.len(),
    ensures
        is_match(matches, rule, package, n + 1) <==> is_match(matches, rule, package, n) || (
        matches[n].0@ == rule && matches[n].1@ == package),
{
    if is_match(matches, rule, package, n + 1) {
        let i = choose|i: int|
            0 <= i < n + 1 && (#[trigger] matches[i]).0@ == rule && matches[i].1@ == package;
        if i < n {
            assert(matches[i].0@ == rule && matches[i].1@ == package);
        }
    }
    if is_match(matches, rule, package, n) {
        let i = choose|i: int|
            0 <= i < n && (#[trigger] matches[i]).0@ == rule && matches[i].1@ == package;
        assert(matches[i].0@ == rule && matches[i].1@ == package);
    }
    if matches[n].0@ == rule && matches[n].1@ == package {
        assert(is_match(matches, rule, package, n + 1));
    }
}

/// All values of a map are sets in order.
pub open spec fn sets_wf(rules: &TextMap<SortedSet<String>>) -> bool {
    rules.wf() && forall|key: Seq<char>| #[trigger]
        rules@.contains_key(key) ==> rules@[key].wf()
}

proof fn lemma_sets_at(rules: TextMap<SortedSet<String>>)
    requires
        sets_wf(&rules),
    ensures
        forall|i: int| 0 <= i < rules.values@.len() ==> (#[trigger] rules.values@[i]).wf(),
{
    assert forall|i: int| 0 <= i < rules.values@.len() implies (#[trigger] rules.values@[i]).wf() by {
        rules.lemma_at(i);
        assert(rules@.contains_key(rules.keys@[i]@));
    }
}

/// The packages of each rule.
pub fn rules_of(matches: &Vec<(String, String)>) -> (r: TextMap<SortedSet<String>>)
    ensures
        sets_wf(&r),
        forall|rule: Seq<char>, package: Seq<char>| #[trigger]
            lists_package(r@, rule, package) <==> is_match(
                matches@,
                rule,
                package,
                matches@.len() as int,
            ),
        forall|rule: Seq<char>| #[trigger]
            r@.contains_key(rule) ==> exists|package: Seq<char>| #[trigger]
                lists_package(r@, rule, package),
{
    let mut rules: TextMap<SortedSet<String>> = TextMap::new();
    let mut i: usize = 0;
    while i < matches.len()
        invariant
            i <= matches@.len(),
            sets_wf(&rules),
            forall|rule: Seq<char>, package: Seq<char>| #[trigger]
                lists_package(rules@, rule, package) <==> is_match(
                    matches@,
                    rule,
                    package,
                    i as int,
                ),
            forall|rule: Seq<char>| #[trigger]
                rules@.contains_key(rule) ==> exists|package: Seq<char>| #[trigger]
                    lists_package(rules@, rule, package),
        decreases matches@.len() - i,
    {
        let rule = &matches[i].0;
        let package = &matches[i].1;
        let ghost before = rules@;
        let mut set = match rules.get(rule.as_str()) {
            Some(set) => copy_texts(set),
            None => SortedSet::new(),
        };
        let ghost held = set@;
        proof {
            lemma_inserted(held, package@);
            lemma_text_member(held, package@);
        }
        set.insert(package.clone());
        let ghost value = set;
        rules.insert(rule.clone(), set);
        proof {
            assert forall|name: Seq<char>, p: Seq<char>| #[trigger]
                lists_package(rules@, name, p) <==> is_match(matches@, name, p, i + 1) by {
                lemma_match_grows(matches@, name, p, i as int);
                assert(lists_package(before, name, p) <==> is_match(matches@, name, p, i as int));
                if name == rule@ {
                    assert(rules@[name] == value);
                    assert(value@.contains(p) <==> held.contains(p) || p == package@);
                    assert(held.contains(p) <==> lists_package(before, name, p));
                }
            }
            assert forall|name: Seq<char>| #[trigger]
                rules@.contains_key(name) implies exists|p: Seq<char>| #[trigger]
                lists_package(rules@, name, p) by {
                if name == rule@ {
                    lemma_match_grows(matches@, name, package@, i as int);
                    assert(lists_package(rules@, name, package@));
                } else {
                    assert(before.contains_key(name));
                    let p = choose|p: Seq<char>| #[trigger] lists_package(before, name, p);
                    assert(lists_package(rules@, name, p));
                }
            }
        }
        i = i + 1;
    }
    rules
}

fn add_matches(
    rule: &str,
    packages: &SortedSet<String>,
    kept: &TextMap<lockfile::Package>,
    matches: &mut Vec<(String, String)>,
)
    requires
        kept.wf(),
    ensures
        forall|r: Seq<char>, p: Seq<char>| #[trigger]
            is_match(final(matches)@, r, p, final(matches)@.len() as int) <==> is_match(
                old(matches)@,
                r,
                p,
                old(matches)@.len() as int,
            ) || r == rule@ && packages@.contains(p) && kept@.contains_key(p),
{
    let ghost before = matches@;
    let mut i: usize = 0;
    while i < packages.items.len()
        invariant
            i <= packages.items@.len(),
            kept.wf(),
            forall|r: Seq<char>, p: Seq<char>| #[trigger]
                is_match(matches@, r, p, matches@.len() as int) <==> is_match(
                    before,
                    r,
                    p,
                    before.len() as int,
                ) || r == rule@ && packages@.take(i as int).contains(p) && kept@.contains_key(p),
        decreases packages.items@.len() - i,
    {
        let package = &packages.items[i];
        let ghost seen = packages@.take(i as int);
        let ghost next = packages@.take(i + 1);
        let ghost so_far = matches@;
        assert(packages@[i as int] == package@);
        proof {
            assert(next =~= seen.push(package@));
            assert forall|p: Seq<char>| #[trigger] next.contains(p) <==> seen.contains(p) || p
                == package@ by {
                if seen.contains(p) {
                    let k = choose|k: int| 0 <= k < seen.len() && seen[k] == p;
                    assert(next[k] == p);
                }
                assert(next[i as int] == package@);
                if next.contains(p) {
                    let k = choose|k: int| 0 <= k < next.len() && next[k] == p;
                    if k < i {
                        assert(seen[k] == p);
                    }
                }
            }
        }
        if kept.contains_key(package.as_str()) {
            matches.push((rule.to_owned(), package.clone()));
            proof {
                assert forall|r: Seq<char>, p: Seq<char>| #[trigger]
                    is_match(matches@, r, p, matches@.len() as int) <==> is_match(
                        so_far,
                        r,
                        p,
                        so_far.len() as int,
                    ) || r == rule@ && p == package@ by {
                    if is_match(so_far, r, p, so_far.len() as int) {
                        let k = choose|k: int|
                            0 <= k < so_far.len() && (#[trigger] so_far[k]).0@ == r && so_far[k].1@
                                == p;
                        assert(matches@[k] == so_far[k]);
                    }
                    assert(matches@[so_far.len() as int].0@ == rule@);
                    if is_match(matches@, r, p, matches@.len() as int) {
                        let k = choose|k: int|
                            0 <= k < matches@.len() && (#[trigger] matches@[k]).0@ == r
                                && matches@[k].1@ == p;
                        if k < so_far.len() {
                            assert(so_far[k] == matches@[k]);
                        }
                    }
                }
            }
        }
        i = i + 1;
    }
    assert(packages@.take(i as int) =~= packages@);
}

/// What a former lockfile records of the system libraries that the packages of a new one need.
pub fn recorded_requirements(previous: &Lockfile, lockfile: &Lockfile) -> (r: SystemMatches)
    requires
        previous.wf(),
        lockfile.wf(),
    ensures
        r.commit@ == match previous@.db_commit {
            Some(commit) => commit,
            None => Seq::empty(),
        },
        forall|rule: Seq<char>, package: Seq<char>| #[trigger]
            is_match(r.matches@, rule, package, r.matches@.len() as int) <==> lists_package(
                previous.sysreqs.rules@,
                rule,
                package,
            ) && lockfile.packages@.contains_key(package),
{
    let rules = &previous.sysreqs.rules;
    let commit = match &previous.sysreqs.db_commit {
        Some(commit) => commit.to_text(),
        None => String::new(),
    };
    let mut matches: Vec<(String, String)> = Vec::new();
    let mut i: usize = 0;
    while i < rules.keys.len()
        invariant
            i <= rules.keys@.len(),
            rules.wf(),
            lockfile.packages.wf(),
            forall|rule: Seq<char>, package: Seq<char>| #[trigger]
                is_match(matches@, rule, package, matches@.len() as int) <==> (exists|k: int|
                    0 <= k < i && (#[trigger] rules.keys@[k])@ == rule
                        && rules.values@[k]@.contains(package))
                    && lockfile.packages@.contains_key(package),
        decreases rules.keys@.len() - i,
    {
        let ghost so_far = matches@;
        add_matches(rules.keys[i].as_str(), &rules.values[i], &lockfile.packages, &mut matches);
        proof {
            assert forall|rule: Seq<char>, package: Seq<char>| #[trigger]
                is_match(matches@, rule, package, matches@.len() as int) <==> (exists|k: int|
                    0 <= k < i + 1 && (#[trigger] rules.keys@[k])@ == rule
                        && rules.values@[k]@.contains(package))
                    && lockfile.packages@.contains_key(package) by {
                assert(is_match(so_far, rule, package, so_far.len() as int) <==> (exists|k: int|
                    0 <= k < i && (#[trigger] rules.keys@[k])@ == rule
                        && rules.values@[k]@.contains(package))
                    && lockfile.packages@.contains_key(package));
                assert(rules.keys@[i as int]@ == rules.keys@[i as int]@);
            }
        }
        i = i + 1;
    }
    proof {
        assert forall|rule: Seq<char>, package: Seq<char>| #[trigger]
            is_match(matches@, rule, package, matches@.len() as int) <==> lists_package(
                rules@,
                rule,
                package,
            ) && lockfile.packages@.contains_key(package) by {
            if lists_package(rules@, rule, package) {
                assert(rules.has_key(rule));
                let k = choose|k: int| crate::sorted::key_at(rules.keys@, rule, k);
                rules.lemma_at(k);
                assert(rules.keys@[k]@ == rule);
            }
            if is_match(matches@, rule, package, matches@.len() as int) {
                let k = choose|k: int|
                    0 <= k < i && (#[trigger] rules.keys@[k])@ == rule
                        && rules.values@[k]@.contains(package);
                rules.lemma_at(k);
            }
        }
    }
    SystemMatches { commit, matches }
}

/// A lockfile with the system libraries that its packages need.
pub fn with_system_requirements(lockfile: Lockfile, system: &SystemMatches) -> (r: Result<
    Lockfile,
    LockfileBuildError,
>)
    requires
        lockfile.wf(),
    ensures
        match r {
            Ok(changed) => {
                &&& changed.wf()
                &&& database_commit(system.commit@) == Ok::<Option<Seq<char>>, BuildFaultV>(
                    changed@.db_commit,
                )
                &&& sets_wf(&changed.sysreqs.rules)
                &&& forall|rule: Seq<char>, package: Seq<char>| #[trigger]
                    lists_package(changed.sysreqs.rules@, rule, package) <==> is_match(
                        system.matches@,
                        rule,
                        package,
                        system.matches@.len() as int,
                    )
                &&& forall|rule: Seq<char>| #[trigger]
                    changed.sysreqs.rules@.contains_key(rule) ==> exists|package: Seq<char>|
                     #[trigger]
                        lists_package(changed.sysreqs.rules@, rule, package)
                &&& changed@ == (LockfileV {
                    db_commit: changed@.db_commit,
                    rules: changed@.rules,
                    ..lockfile@
                })
            },
            Err(error) => database_commit(system.commit@) == Err::<
                Option<Seq<char>>,
                BuildFaultV,
            >(error@),
        },
{
    let db_commit = if system.commit.as_str().is_empty() {
        None
    } else {
        match GitOid::read(system.commit.as_str()) {
            Ok(commit) => Some(commit),
            Err(_) => {
                return Err(
                    LockfileBuildError::InvalidSystemRequirementsCommit {
                        commit: system.commit.clone(),
                    },
                );
            },
        }
    };
    let rules = rules_of(&system.matches);
    proof {
        lemma_sets_at(rules);
    }
    let mut lockfile = lockfile;
    lockfile.sysreqs = SystemRequirements { db_commit, rules };
    Ok(lockfile)
}

/// Whether a lockfile differs from the former one.
pub open spec fn lockfile_differs(previous: Option<LockfileV>, current: LockfileV) -> bool {
    match previous {
        Some(lockfile) => !same_lockfile(lockfile, current),
        None => true,
    }
}

/// Ends the resolution of a project: the lockfile that the chosen packages make has to be
/// written if it differs from the former one.
pub fn finish_resolution(
    previous: &Option<Lockfile>,
    lockfile: Lockfile,
    packages: TextMap<RequiredPackage>,
    r_version: RVersion,
) -> (r: ProjectResolution)
    requires
        previous matches Some(former) ==> former.wf(),
        lockfile.wf(),
    ensures
        r.lockfile == lockfile,
        r.packages == packages,
        r.r_version == r_version,
        r.lockfile_changed == lockfile_differs(opt_lockfile(*previous), lockfile@),
{
    let lockfile_changed = match previous {
        Some(former) => !former.same(&lockfile),
        None => true,
    };
    ProjectResolution { lockfile, lockfile_changed, packages, r_version }
}

proof fn lemma_place_is_within(repositories: Seq<RepositoryV>, repository: RepositoryV)
    ensures
        repository_place(repositories, repository) matches Some(i) ==> 0 <= i < repositories.len(),
    decreases repositories.len(),
{
    if repositories.len() > 0 {
        lemma_place_is_within(repositories.drop_last(), repository);
    }
}

proof fn lemma_entries_name_repositories(
    repositories: Seq<RepositoryV>,
    repos: Seq<LockedRepositoryV>,
    names: Seq<Seq<char>>,
    packages: Seq<RequiredV>,
    k: int,
)
    requires
        names.len() == packages.len(),
        repos.len() == repositories.len(),
        locked_entries(repositories, repos, names, packages) is Ok,
        0 <= k < locked_entries(repositories, repos, names, packages)->Ok_0.len(),
    ensures
        exists|i: int|
            0 <= i < repos.len() && locked_entries(
                repositories,
                repos,
                names,
                packages,
            )->Ok_0[k].repository == locked_url(#[trigger] repos[i]),
    decreases names.len(),
{
    let all = locked_entries(repositories, repos, names, packages)->Ok_0;
    let rest = locked_entries(repositories, repos, names.drop_last(), packages.drop_last())->Ok_0;
    if k < rest.len() {
        lemma_entries_name_repositories(
            repositories,
            repos,
            names.drop_last(),
            packages.drop_last(),
            k,
        );
        assert(all[k] == rest[k]);
    } else {
        let place = repository_place(repositories, packages.last().version.repository)->0;
        lemma_place_is_within(repositories, packages.last().version.repository);
        assert(all[k].repository == locked_url(repos[place]));
    }
}

/// What is locked of a resolution is read back from what is written of it, where the URLs of
/// the repositories are in their canonical form and the version of R is one.
pub proof fn resolved_lockfiles_are_readable(
    lockfile: &Lockfile,
    repositories: Seq<RepositoryV>,
    names: Seq<Seq<char>>,
    packages: Seq<RequiredV>,
)
    requires
        lockfile.wf(),
        names.len() == packages.len(),
        may_lock_list(
            repositories,
            Ok::<Seq<LockedRepositoryV>, RepositoryErrorV>(lockfile@.repos),
        ),
        locked_entries(repositories, lockfile@.repos, names, packages) == Ok::<
            Seq<PackageV>,
            BuildFaultV,
        >(lockfile@.packages.1),
        parsed_semver(lockfile@.r) is Ok,
        forall|i: int|
            0 <= i < lockfile@.repos.len() ==> is_canonical(
                locked_url(#[trigger] lockfile@.repos[i]),
            ),
    ensures
        is_readable(lockfile@),
{
    assert forall|k: int| 0 <= k < lockfile@.packages.1.len() implies is_canonical(
        (#[trigger] lockfile@.packages.1[k]).repository,
    ) by {
        lemma_entries_name_repositories(repositories, lockfile@.repos, names, packages, k);
        let i = choose|i: int|
            0 <= i < lockfile@.repos.len() && lockfile@.packages.1[k].repository == locked_url(
                #[trigger] lockfile@.repos[i],
            );
        assert(is_canonical(locked_url(lockfile@.repos[i])));
    }
    well_formed_lockfiles_are_readable(lockfile);
}

/// The place of a repository is that of the first one that is the same.
pub proof fn repositories_are_found(
    repositories: Seq<RepositoryV>,
    repository: RepositoryV,
    i: int,
)
    ensures
        repository_place(repositories, repository) matches Some(k) ==> 0 <= k < repositories.len()
            && same_repository(repository, repositories[k]) && forall|j: int|
            0 <= j < k ==> !same_repository(repository, #[trigger] repositories[j]),
        0 <= i < repositories.len() && same_repository(repository, repositories[i])
            ==> repository_place(repositories, repository) is Some,
    decreases repositories.len(),
{
    if repositories.len() > 0 {
        let t = repositories.drop_last();
        repositories_are_found(t, repository, i);
        assert forall|j: int| 0 <= j < t.len() implies t[j] == #[trigger] repositories[j] by {}
        if repository_place(t, repository) is None {
            assert forall|j: int| 0 <= j < t.len() implies !same_repository(
                repository,
                #[trigger] repositories[j],
            ) by {
                repositories_are_found(t, repository, j);
            }
        } else {
            let k = repository_place(t, repository)->0;
            assert forall|j: int| 0 <= j < k implies !same_repository(
                repository,
                #[trigger] repositories[j],
            ) by {
                assert(t[j] == repositories[j]);
            }
        }
    }
}

/// Each package is locked in the version that was resolved, with the repository that it comes
/// from, and with what its own fields name.
pub proof fn packages_are_locked_as_resolved(
    repositories: Seq<RepositoryV>,
    repos: Seq<LockedRepositoryV>,
    names: Seq<Seq<char>>,
    packages: Seq<RequiredV>,
    i: int,
)
    requires
        names.len() == packages.len(),
    ensures
        locked_entries(repositories, repos, names, packages) matches Ok(list) ==> list.len()
            == names.len() && (0 <= i < names.len() ==> {
            &&& list[i].version == packages[i].version.version
            &&& exists|k: int|
                0 <= k < repositories.len() && same_repository(
                    packages[i].version.repository,
                    #[trigger] repositories[k],
                ) && list[i].repository == locked_url(repos[k])
            &&& forall|relation: RelationV| #[trigger]
                list[i].dependencies.contains(relation) ==> crate::description::is_entry(
                    depends_of(packages[i].description),
                    relation,
                ) || crate::description::is_entry(imports_of(packages[i].description), relation)
                    || crate::description::is_entry(
                    linking_to_of(packages[i].description),
                    relation,
                )
            &&& forall|relation: RelationV|
                crate::description::is_entry(depends_of(packages[i].description), relation)
                    || crate::description::is_entry(imports_of(packages[i].description), relation)
                    || crate::description::is_entry(
                    linking_to_of(packages[i].description),
                    relation,
                ) ==> #[trigger] crate::order::has_equal(list[i].dependencies, relation)
        }),
    decreases names.len(),
{
    if names.len() > 0 {
        let t = names.drop_last();
        packages_are_locked_as_resolved(repositories, repos, t, packages.drop_last(), i);
        if i == t.len() {
            let package = packages.last();
            repositories_are_found(repositories, package.version.repository, 0);
            assert forall|relation: RelationV| #[trigger]
                collected(all_relations(lock_fields(package.description))).contains(
                    relation,
                ) implies crate::description::is_entry(
                depends_of(package.description),
                relation,
            ) || crate::description::is_entry(imports_of(package.description), relation)
                || crate::description::is_entry(linking_to_of(package.description), relation) by {
                crate::description::locked_relations_are_entries(package.description, relation);
            }
            assert forall|relation: RelationV|
                crate::description::is_entry(depends_of(package.description), relation)
                    || crate::description::is_entry(imports_of(package.description), relation)
                    || crate::description::is_entry(
                    linking_to_of(package.description),
                    relation,
                ) implies #[trigger] crate::order::has_equal(
                collected(all_relations(lock_fields(package.description))),
                relation,
            ) by {
                crate::description::locked_relations_are_entries(package.description, relation);
            }
        }
    }
}

/// A lockfile is reused exactly if that is allowed, there is one, and it is valid; its
/// repositories are reused where nothing but the packages or the version of R has changed.
pub proof fn valid_lockfiles_are_reused(
    policy: ResolutionPolicy,
    document: Seq<char>,
    r_version: Seq<char>,
    previous: Option<LockfileV>,
)
    ensures
        start_of(policy, document, r_version, previous) is Reuse <==> policy
            == ResolutionPolicy::ReuseIfValid && (previous matches Some(lockfile) && staleness(
            document,
            r_version,
            lockfile,
        ).len() == 0),
        start_of(policy, document, r_version, previous) is LockedRepositories ==> (
        previous matches Some(lockfile) && staleness(document, r_version, lockfile).len() > 0
            && forall|i: int|
            0 <= i < staleness(document, r_version, lockfile).len() ==> !((#[trigger] staleness(
                document,
                r_version,
                lockfile,
            )[i]) is RepositoriesChanged) && !(staleness(
                document,
                r_version,
                lockfile,
            )[i] is InvalidRepository)),
        policy == ResolutionPolicy::AlwaysResolve ==> start_of(
            policy,
            document,
            r_version,
            previous,
        ) is DescribedRepositories,
{
}

/// The versions that a lockfile has of its packages are preferred, each of its own package.
pub proof fn locked_versions_are_preferred(lockfile: LockfileV, i: int)
    ensures
        preferences(None).0.len() == 0,
        preferences(Some(lockfile)).0 == lockfile.packages.0,
        preferences(Some(lockfile)).1.len() == lockfile.packages.1.len(),
        0 <= i < lockfile.packages.1.len() ==> preferences(Some(lockfile)).1[i]
            == lockfile.packages.1[i].version,
{
}

/// The repositories of a lockfile are used in their order, each as it is unlocked.
pub proof fn repositories_are_unlocked_in_order(repos: Seq<LockedRepositoryV>, i: int)
    ensures
        unlocked_list(repos) matches Ok(list) ==> list.len() == repos.len() && (0 <= i < repos.len()
            ==> unlocked(repos[i]) == Ok::<RepositoryV, RepositoryErrorV>(list[i])),
    decreases repos.len(),
{
    if repos.len() > 0 {
        repositories_are_unlocked_in_order(repos.drop_last(), i);
    }
}

/// The repositories of a project are locked in their order, each as it is locked.
pub proof fn repositories_are_locked_in_order(repositories: Seq<RepositoryV>, i: int)
    ensures
        locked_list(repositories) matches Ok(list) ==> list.len() == repositories.len() && (0 <= i
            < repositories.len() ==> locked(repositories[i]) == Ok::<
            LockedRepositoryV,
            RepositoryErrorV,
        >(list[i])),
    decreases repositories.len(),
{
    if repositories.len() > 0 {
        repositories_are_locked_in_order(repositories.drop_last(), i);
    }
}

/// The commit of the database of system requirements is completed where it is short, and there
/// is none where none is told; what is no commit is refused.
pub proof fn database_commits_are_completed(commit: Seq<char>)
    ensures
        commit.len() == 0 ==> database_commit(commit) == Ok::<Option<Seq<char>>, BuildFaultV>(None),
        is_short_oid(commit) ==> (database_commit(commit) matches Ok(Some(full))
            && crate::git::is_oid(full) && full.take(commit.len() as int)
            == crate::text::lowered(commit)),
        commit.len() > 40 ==> database_commit(commit) == Err::<Option<Seq<char>>, BuildFaultV>(
            BuildFaultV::InvalidSystemRequirementsCommit(commit),
        ),
{
    if is_short_oid(commit) {
        crate::git::short_object_names_are_completed(commit, 0);
    }
}

/// A repository of Git that cannot be reached is told by its remote; every other fault is
/// handed on.
pub proof fn unreachable_repositories_are_told(
    text: Seq<char>,
    remote: Seq<char>,
    details: Seq<char>,
    error: RepositoryErrorV,
)
    ensures
        error == RepositoryErrorV::Git(text, GitErrorV::Access(remote, details)) ==> build_fault(
            error,
        ) == BuildFaultV::GitRepositoryUnavailable(remote, error),
        !(error is Git) ==> build_fault(error) == BuildFaultV::Repository(error),
{
}

/// A lockfile is written anew exactly if there is none or it locks something else.
pub proof fn lockfiles_are_written_if_they_differ(previous: LockfileV, current: LockfileV)
    ensures
        lockfile_differs(None, current),
        lockfile_differs(Some(previous), current) <==> !same_lockfile(previous, current),
{
}

/// A description can be resolved exactly if nothing is wrong with its repositories and its
/// relations; what is wrong is told, the repositories first.
pub proof fn descriptions_are_judged_before_resolution(document: Seq<char>)
    ensures
        is_well_described(document) <==> description_issues(document).len() == 0,
        configuration_issues(document).len() > 0 ==> description_issues(document)
            == configuration_issues(document),
        configuration_issues(document).len() == 0 ==> description_issues(document)
            == relation_issues(project_fields(document)),
{
}

/// The packages of a resolution are all but the project itself, each as it was resolved.
pub proof fn resolved_packages_stay(
    packages: TextMap<RequiredPackage>,
    root: &str,
    r: TextMap<RequiredPackage>,
    name: Seq<char>,
)
    requires
        call_ensures(without_root, (packages, root), r),
        packages@.contains_key(name),
    ensures
        !same_repository(
            packages@[name].version.repository@,
            RepositoryV::Local(root@, None),
        ) ==> r@.contains_key(name) && r@[name] == packages@[name],
        same_repository(
            packages@[name].version.repository@,
            RepositoryV::Local(root@, None),
        ) ==> !r@.contains_key(name),
{
    assert(r@.contains_key(name) <==> packages@.contains_key(name) && !is_root(
        packages@[name],
        root@,
    ));
}

/// A rule lists exactly the packages that match it.
pub proof fn rules_list_what_matches(
    matches: &Vec<(String, String)>,
    r: TextMap<SortedSet<String>>,
    rule: Seq<char>,
    package: Seq<char>,
    i: int,
)
    requires
        call_ensures(rules_of, (matches,), r),
    ensures
        0 <= i < matches@.len() ==> r@.contains_key(matches@[i].0@) && r@[matches@[i].0@]@.contains(
            matches@[i].1@,
        ),
        r@.contains_key(rule) && r@[rule]@.contains(package) ==> exists|k: int|
            0 <= k < matches@.len() && (#[trigger] matches@[k]).0@ == rule && matches@[k].1@
                == package,
{
    if 0 <= i < matches@.len() {
        assert(is_match(matches@, matches@[i].0@, matches@[i].1@, matches@.len() as int));
        assert(lists_package(r@, matches@[i].0@, matches@[i].1@));
    }
    if r@.contains_key(rule) && r@[rule]@.contains(package) {
        assert(lists_package(r@, rule, package));
    }
}

/// Where only R or the packages that a project asks for have changed, it is resolved from the
/// repositories of its lockfile; where anything else has changed, from those of its
/// description.
#[verifier::rlimit(60)]
#[verifier::spinoff_prover]
pub proof fn locked_repositories_are_kept(
    document: Seq<char>,
    r_version: Seq<char>,
    lockfile: LockfileV,
    failures: Seq<FailureV>,
    start: StartV,
    i: int,
)
    requires
        failures == staleness(document, r_version, lockfile),
        start == start_of(
            ResolutionPolicy::ReuseIfValid,
            document,
            r_version,
            Some(lockfile),
        ),
        0 <= i < failures.len(),
    ensures
        !(failures[i] is PackageRequirementsChanged) && !(failures[i] is RVersionChanged)
            ==> start is DescribedRepositories,
        (forall|k: int|
            0 <= k < failures.len() ==> (#[trigger] failures[k]) is PackageRequirementsChanged
                || failures[k] is RVersionChanged) ==> start is LockedRepositories,
{
}

} // verus!
