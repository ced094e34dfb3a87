//! Lockfiles.
use crate::git::GitOid;
use crate::metadata::{copy_relations, Relation, RelationV, Version, VersionV};
use crate::order::{keys, Order, Total};
use crate::path;
use crate::path::segments_of;
use crate::r::RVersion;
use crate::repository::opt_oid;
use crate::sorted::{tied, SortedSet, TextMap};
use crate::text;
use crate::text::{opt_text, texts};
use vstd::prelude::*;

verus! {

/// The name of the lockfile of a project.
pub const LOCKFILE_NAME: &'static str = "rpx.lock";

/// The version of the layout of lockfiles.
pub const LOCKFILE_VERSION: u32 = 5;

/// The revision of that version.
pub const LOCKFILE_REVISION: u32 = 0;

/// Whether a locked repository keeps former versions of its packages.
#[derive(Clone, Copy, PartialEq, Eq, Structural, Debug)]
pub enum ArchiveSupport {
    Available,
    Unavailable,
}

/// What a locked Git repository was asked for.
#[derive(Debug)]
pub enum GitReference {
    DefaultBranch,
    Named { value: String },
    Commit,
}

/// What a locked Git repository was asked for.
pub enum GitReferenceV {
    DefaultBranch,
    Named(Seq<char>),
    Commit,
}

impl GitReference {
    /// The reference, as characters.
    pub open spec fn view(&self) -> GitReferenceV {
        match self {
            GitReference::DefaultBranch => GitReferenceV::DefaultBranch,
            GitReference::Named { value } => GitReferenceV::Named(value@),
            GitReference::Commit => GitReferenceV::Commit,
        }
    }

    /// A copy.
    pub fn copy(&self) -> (r: GitReference)
        ensures
            r@ == self@,
    {
        match self {
            GitReference::DefaultBranch => GitReference::DefaultBranch,
            GitReference::Named { value } => GitReference::Named { value: value.clone() },
            GitReference::Commit => GitReference::Commit,
        }
    }

    /// Whether two references are the same.
    pub fn same(&self, other: &GitReference) -> (r: bool)
        ensures
            r == (self@ == other@),
    {
        match (self, other) {
            (GitReference::DefaultBranch, GitReference::DefaultBranch) => true,
            (GitReference::Named { value: a }, GitReference::Named { value: b }) => text::same(
                a.as_str(),
                b.as_str(),
            ),
            (GitReference::Commit, GitReference::Commit) => true,
            _ => false,
        }
    }
}

/// A locked repository.
#[derive(Debug)]
pub enum Repository {
    Rrepo { url: String },
    CranLike { url: String, archive_support: ArchiveSupport },
    Git {
        url: String,
        reference: GitReference,
        commit: GitOid,
        subdirectory: Option<String>,
    },
}

/// A locked repository.
pub enum LockedRepositoryV {
    Rrepo(Seq<char>),
    CranLike(Seq<char>, ArchiveSupport),
    Git(Seq<char>, GitReferenceV, Seq<char>, Option<Seq<char>>),
}

/// The URL of a locked repository.
pub open spec fn locked_url(repository: LockedRepositoryV) -> Seq<char> {
    match repository {
        LockedRepositoryV::Rrepo(url) => url,
        LockedRepositoryV::CranLike(url, _) => url,
        LockedRepositoryV::Git(url, _, _, _) => url,
    }
}

/// Two subdirectories have the same names on the way to them.
pub open spec fn same_segments(a: Option<Seq<char>>, b: Option<Seq<char>>) -> bool {
    match (a, b) {
        (Some(a), Some(b)) => segments_of(a) == segments_of(b),
        (None, None) => true,
        _ => false,
    }
}

/// Two locked repositories are the same.
pub open spec fn same_locked(a: LockedRepositoryV, b: LockedRepositoryV) -> bool {
    match (a, b) {
        (LockedRepositoryV::Rrepo(a), LockedRepositoryV::Rrepo(b)) => a == b,
        (LockedRepositoryV::CranLike(a, x), LockedRepositoryV::CranLike(b, y)) => a == b && x == y,
        (LockedRepositoryV::Git(a, r, c, s), LockedRepositoryV::Git(b, q, d, t)) => a == b && r == q
            && c == d && same_segments(s, t),
        _ => false,
    }
}

impl Repository {
    /// The repository, as characters.
    pub open spec fn view(&self) -> LockedRepositoryV {
        match self {
            Repository::Rrepo { url } => LockedRepositoryV::Rrepo(url@),
            Repository::CranLike { url, archive_support } => LockedRepositoryV::CranLike(
                url@,
                *archive_support,
            ),
            Repository::Git { url, reference, commit, subdirectory } => LockedRepositoryV::Git(
                url@,
                reference@,
                commit@,
                opt_text(*subdirectory),
            ),
        }
    }

    /// The object name of the commit is one.
    pub open spec fn wf(&self) -> bool {
        match self {
            Repository::Git { commit, .. } => commit.wf(),
            _ => true,
        }
    }

    /// The URL.
    pub fn url(&self) -> (r: &str)
        ensures
            r@ == locked_url(self@),
    {
        match self {
            Repository::Rrepo { url } => url.as_str(),
            Repository::CranLike { url, .. } => url.as_str(),
            Repository::Git { url, .. } => url.as_str(),
        }
    }

    /// A copy.
    pub fn copy(&self) -> (r: Repository)
        ensures
            r@ == self@,
            self.wf() ==> r.wf(),
    {
        match self {
            Repository::Rrepo { url } => Repository::Rrepo { url: url.clone() },
            Repository::CranLike { url, archive_support } => Repository::CranLike {
                url: url.clone(),
                archive_support: *archive_support,
            },
            Repository::Git { url, reference, commit, subdirectory } => Repository::Git {
                url: url.clone(),
                reference: reference.copy(),
                commit: commit.copy(),
                subdirectory: text::copy_opt(subdirectory),
            },
        }
    }

    /// Whether two locked repositories are the same.
    pub fn same(&self, other: &Repository) -> (r: bool)
        ensures
            r == same_locked(self@, other@),
    {
        match (self, other) {
            (Repository::Rrepo { url: a }, Repository::Rrepo { url: b }) => text::same(
                a.as_str(),
                b.as_str(),
            ),
            (
                Repository::CranLike { url: a, archive_support: x },
                Repository::CranLike { url: b, archive_support: y },
            ) => text::same(a.as_str(), b.as_str()) && *x == *y,
            (
                Repository::Git { url: a, reference: r, commit: c, subdirectory: s },
                Repository::Git { url: b, reference: q, commit: d, subdirectory: t },
            ) => text::same(a.as_str(), b.as_str()) && r.same(q) && c.same(d) && match (s, t) {
                (Some(s), Some(t)) => {
                    let x = path::segments(s.as_str());
                    let y = path::segments(t.as_str());
                    path::same_texts(&x, &y)
                },
                (None, None) => true,
                _ => false,
            },
            _ => false,
        }
    }
}

/// A locked package.
#[derive(Debug)]
pub struct Package {
    pub version: Version,
    pub repository: String,
    pub dependencies: SortedSet<Relation>,
}

/// A locked package.
pub struct PackageV {
    pub version: VersionV,
    pub repository: Seq<char>,
    pub dependencies: Seq<RelationV>,
}

impl Package {
    /// The package, as characters.
    pub open spec fn view(&self) -> PackageV {
        PackageV {
            version: self.version@,
            repository: self.repository@,
            dependencies: self.dependencies@,
        }
    }

    /// The dependencies are in order.
    pub open spec fn wf(&self) -> bool {
        self.version.wf() && self.dependencies.wf()
    }
}

/// Two locked packages are the same; versions that differ only in their spelling are.
pub open spec fn same_package(a: PackageV, b: PackageV) -> bool {
    a.version.order(b.version) == Order::Equal && a.repository == b.repository && tied(
        a.dependencies,
        b.dependencies,
    )
}

/// The system libraries that the packages of a project need, by the rules of a database.
#[derive(Debug)]
pub struct SystemRequirements {
    pub db_commit: Option<GitOid>,
    pub rules: TextMap<SortedSet<String>>,
}

/// What was resolved for a project.
#[derive(Debug)]
pub struct Lockfile {
    pub version: u32,
    pub revision: u32,
    pub r: RVersion,
    pub sysreqs: SystemRequirements,
    pub repos: Vec<Repository>,
    pub requirements: SortedSet<Relation>,
    pub packages: TextMap<Package>,
}

/// Locked repositories.
pub open spec fn locked_views(v: Seq<Repository>) -> Seq<LockedRepositoryV> {
    v.map_values(|x: Repository| x@)
}

/// Locked packages.
pub open spec fn package_views(v: Seq<Package>) -> Seq<PackageV> {
    v.map_values(|x: Package| x@)
}

impl SystemRequirements {
    /// The packages of each rule are in order.
    pub open spec fn wf(&self) -> bool {
        &&& self.db_commit matches Some(commit) ==> commit.wf()
        &&& self.rules.wf()
        &&& forall|i: int| 0 <= i < self.rules.values@.len() ==> (#[trigger] self.rules.values@[i]).wf()
    }
}

/// What a lockfile holds, as characters.
pub struct LockfileV {
    pub version: u32,
    pub revision: u32,
    pub r: Seq<char>,
    pub db_commit: Option<Seq<char>>,
    pub rules: (Seq<Seq<char>>, Seq<Seq<Seq<char>>>),
    pub repos: Seq<LockedRepositoryV>,
    pub requirements: Seq<RelationV>,
    pub packages: (Seq<Seq<char>>, Seq<PackageV>),
}

/// The texts of sets.
pub open spec fn set_views(v: Seq<SortedSet<String>>) -> Seq<Seq<Seq<char>>> {
    v.map_values(|x: SortedSet<String>| x@)
}

impl Lockfile {
    /// The lockfile, as characters.
    pub open spec fn view(&self) -> LockfileV {
        LockfileV {
            version: self.version,
            revision: self.revision,
            r: self.r@,
            db_commit: opt_oid(self.sysreqs.db_commit),
            rules: (texts(self.sysreqs.rules.keys@), set_views(self.sysreqs.rules.values@)),
            repos: locked_views(self.repos@),
            requirements: self.requirements@,
            packages: (texts(self.packages.keys@), package_views(self.packages.values@)),
        }
    }

    /// All that is ordered is in order, and all that is parsed is what its text spells.
    pub open spec fn wf(&self) -> bool {
        &&& self.r.wf()
        &&& self.sysreqs.wf()
        &&& forall|i: int| 0 <= i < self.repos@.len() ==> (#[trigger] self.repos@[i]).wf()
        &&& self.requirements.wf()
        &&& self.packages.wf()
        &&& forall|i: int| 0 <= i < self.packages.values@.len() ==> (#[trigger] self.packages.values@[i]).wf()
    }
}

/// Two lists of locked repositories are the same.
pub open spec fn same_repos(a: Seq<LockedRepositoryV>, b: Seq<LockedRepositoryV>) -> bool {
    a.len() == b.len() && forall|i: int|
        0 <= i < a.len() ==> same_locked(#[trigger] a[i], b[i])
}

/// Two lists of locked packages are the same.
pub open spec fn same_packages(a: Seq<PackageV>, b: Seq<PackageV>) -> bool {
    a.len() == b.len() && forall|i: int|
        0 <= i < a.len() ==> same_package(#[trigger] a[i], b[i])
}

/// Two lockfiles are the same.
pub open spec fn same_lockfile(a: LockfileV, b: LockfileV) -> bool {
    &&& a.version == b.version
    &&& a.revision == b.revision
    &&& a.r == b.r
    &&& a.db_commit == b.db_commit
    &&& a.rules == b.rules
    &&& same_repos(a.repos, b.repos)
    &&& tied(a.requirements, b.requirements)
    &&& a.packages.0 == b.packages.0
    &&& same_packages(a.packages.1, b.packages.1)
}

impl Package {
    /// Whether two locked packages are the same.
    pub fn same(&self, other: &Package) -> (r: bool)
        requires
            self.wf(),
            other.wf(),
        ensures
            r == same_package(self@, other@),
    {
        self.version.same(&other.version) && text::same(
            self.repository.as_str(),
            other.repository.as_str(),
        ) && self.dependencies.same(&other.dependencies)
    }

    /// A copy.
    pub fn copy(&self) -> (r: Package)
        requires
            self.wf(),
        ensures
            r.wf(),
            r@ == self@,
    {
        Package {
            version: self.version.copy(),
            repository: self.repository.clone(),
            dependencies: copy_relations(&self.dependencies),
        }
    }
}

fn same_rules(a: &TextMap<SortedSet<String>>, b: &TextMap<SortedSet<String>>) -> (r: bool)
    requires
        a.wf(),
        b.wf(),
    ensures
        r == (texts(a.keys@) == texts(b.keys@) && set_views(a.values@) == set_views(b.values@)),
{
    if !path::same_texts(&a.keys, &b.keys) {
        return false;
    }
    assert(texts(a.keys@).len() == texts(b.keys@).len());
    let mut i: usize = 0;
    while i < a.values.len()
        invariant
            i <= a.values@.len() == b.values@.len(),
            forall|k: int| 0 <= k < i ==> (#[trigger] a.values@[k])@ == b.values@[k]@,
        decreases a.values@.len() - i,
    {
        if !path::same_texts(&a.values[i].items, &b.values[i].items) {
            proof {
                assert(keys(a.values@[i as int].items@) =~= texts(a.values@[i as int].items@));
                assert(keys(b.values@[i as int].items@) =~= texts(b.values@[i as int].items@));
                assert(set_views(a.values@)[i as int] == a.values@[i as int]@);
                assert(set_views(b.values@)[i as int] == b.values@[i as int]@);
            }
            return false;
        }
        proof {
            assert(keys(a.values@[i as int].items@) =~= texts(a.values@[i as int].items@));
            assert(keys(b.values@[i as int].items@) =~= texts(b.values@[i as int].items@));
        }
        i = i + 1;
    }
    assert(set_views(a.values@) =~= set_views(b.values@));
    true
}

fn same_repositories(a: &Vec<Repository>, b: &Vec<Repository>) -> (r: bool)
    ensures
        r == same_repos(locked_views(a@), locked_views(b@)),
{
    if a.len() != b.len() {
        return false;
    }
    let mut i: usize = 0;
    while i < a.len()
        invariant
            i <= a@.len() == b@.len(),
            forall|k: int|
                0 <= k < i ==> same_locked(#[trigger] locked_views(a@)[k], locked_views(b@)[k]),
        decreases a@.len() - i,
    {
        assert(locked_views(a@)[i as int] == a@[i as int]@);
        assert(locked_views(b@)[i as int] == b@[i as int]@);
        if !a[i].same(&b[i]) {
            return false;
        }
        i = i + 1;
    }
    true
}

fn same_entries(a: &TextMap<Package>, b: &TextMap<Package>) -> (r: bool)
    requires
        a.wf(),
        b.wf(),
        forall|i: int| 0 <= i < a.values@.len() ==> (#[trigger] a.values@[i]).wf(),
        forall|i: int| 0 <= i < b.values@.len() ==> (#[trigger] b.values@[i]).wf(),
    ensures
        r == (texts(a.keys@) == texts(b.keys@) && same_packages(
            package_views(a.values@),
            package_views(b.values@),
        )),
{
    if !path::same_texts(&a.keys, &b.keys) {
        return false;
    }
    assert(texts(a.keys@).len() == texts(b.keys@).len());
    let mut i: usize = 0;
    while i < a.values.len()
        invariant
            i <= a.values@.len() == b.values@.len(),
            forall|k: int| 0 <= k < a.values@.len() ==> (#[trigger] a.values@[k]).wf(),
            forall|k: int| 0 <= k < b.values@.len() ==> (#[trigger] b.values@[k]).wf(),
            forall|k: int|
                0 <= k < i ==> same_package(
                    #[trigger] package_views(a.values@)[k],
                    package_views(b.values@)[k],
                ),
        decreases a.values@.len() - i,
    {
        assert(package_views(a.values@)[i as int] == a.values@[i as int]@);
        assert(package_views(b.values@)[i as int] == b.values@[i as int]@);
        if !a.values[i].same(&b.values[i]) {
            return false;
        }
        i = i + 1;
    }
    true
}

fn same_commit(a: &Option<GitOid>, b: &Option<GitOid>) -> (r: bool)
    ensures
        r == (opt_oid(*a) == opt_oid(*b)),
{
    match (a, b) {
        (Some(a), Some(b)) => a.same(b),
        (None, None) => true,
        _ => false,
    }
}

impl Lockfile {
    /// Whether two lockfiles are the same.
    pub fn same(&self, other: &Lockfile) -> (r: bool)
        requires
            self.wf(),
            other.wf(),
        ensures
            r == same_lockfile(self@, other@),
    {
        self.version == other.version && self.revision == other.revision && self.r.same(&other.r)
            && same_commit(&self.sysreqs.db_commit, &other.sysreqs.db_commit) && same_rules(
            &self.sysreqs.rules,
            &other.sysreqs.rules,
        ) && same_repositories(&self.repos, &other.repos) && self.requirements.same(
            &other.requirements,
        ) && same_entries(&self.packages, &other.packages)
    }
}

/// Why a lockfile cannot be read.
#[derive(Debug)]
pub enum LockfileReadError {
    Read { path: String, not_found: bool, details: String },
    Parse { path: String, details: String },
    OutdatedLockfile { path: String },
    NewerLockfile { path: String },
}

impl LockfileReadError {
    /// A line for the user.
    pub fn message(&self) -> (r: String)
        ensures
            r@ == match self {
                LockfileReadError::Read { path, details, .. } => "failed to read rpx.lock at "@
                    + path@ + ": "@ + details@,
                LockfileReadError::Parse { path, details } => "failed to parse rpx.lock at "@
                    + path@ + ": "@ + details@,
                LockfileReadError::OutdatedLockfile { path } => path@ + " needs to be updated"@,
                LockfileReadError::NewerLockfile { path } => path@
                    + " was created by a newer version of rpx"@,
            },
    {
        match self {
            LockfileReadError::Read { path, details, .. } => text::cat4(
                "failed to read rpx.lock at ",
                path.as_str(),
                ": ",
                details.as_str(),
            ),
            LockfileReadError::Parse { path, details } => text::cat4(
                "failed to parse rpx.lock at ",
                path.as_str(),
                ": ",
                details.as_str(),
            ),
            LockfileReadError::OutdatedLockfile { path } => text::cat(
                path.as_str(),
                " needs to be updated",
            ),
            LockfileReadError::NewerLockfile { path } => text::cat(
                path.as_str(),
                " was created by a newer version of rpx",
            ),
        }
    }
}

/// The header of a lockfile: what is read of it first.
#[derive(Debug)]
pub struct LockfileHeader {
    pub version: u32,
}

/// Whether the rest of a lockfile can be read: only one with the current version of the
/// layout can.
pub fn check_header(path: &str, header: &LockfileHeader) -> (r: Result<(), LockfileReadError>)
    ensures
        match r {
            Ok(_) => header.version == LOCKFILE_VERSION,
            Err(LockfileReadError::OutdatedLockfile { path: at }) => header.version
                < LOCKFILE_VERSION && at@ == path@,
            Err(LockfileReadError::NewerLockfile { path: at }) => header.version > LOCKFILE_VERSION
                && at@ == path@,
            Err(_) => false,
        },
{
    if header.version < LOCKFILE_VERSION {
        return Err(LockfileReadError::OutdatedLockfile { path: path.to_owned() });
    }
    if header.version > LOCKFILE_VERSION {
        return Err(LockfileReadError::NewerLockfile { path: path.to_owned() });
    }
    Ok(())
}

/// The lockfile of a former resolution: none if there is no file or an outdated one.
pub fn previous_lockfile(read: Result<Lockfile, LockfileReadError>) -> (r: Result<
    Option<Lockfile>,
    LockfileReadError,
>)
    ensures
        r == match read {
            Ok(lockfile) => Ok::<Option<Lockfile>, LockfileReadError>(Some(lockfile)),
            Err(LockfileReadError::Read { not_found: true, .. }) => Ok(None),
            Err(LockfileReadError::OutdatedLockfile { .. }) => Ok(None),
            Err(error) => Err(error),
        },
{
    match read {
        Ok(lockfile) => Ok(Some(lockfile)),
        Err(LockfileReadError::Read { not_found: true, .. }) => Ok(None),
        Err(LockfileReadError::OutdatedLockfile { .. }) => Ok(None),
        Err(error) => Err(error),
    }
}

/// Lockfiles that are the same agree in everything that is locked: in the version of R, in the
/// repositories and in the packages, each in an equal version from the same repository.
pub proof fn equal_lockfiles_lock_the_same(a: LockfileV, b: LockfileV, i: int)
    requires
        same_lockfile(a, b),
    ensures
        a.version == b.version && a.revision == b.revision && a.r == b.r && a.db_commit
            == b.db_commit && a.rules == b.rules,
        a.repos.len() == b.repos.len(),
        a.packages.0 == b.packages.0 && a.packages.1.len() == b.packages.1.len(),
        tied(a.requirements, b.requirements),
        0 <= i < a.repos.len() ==> locked_url(a.repos[i]) == locked_url(b.repos[i]) && (
        a.repos[i] is Git <==> b.repos[i] is Git) && (a.repos[i] is Rrepo <==> b.repos[i] is Rrepo),
        0 <= i < a.packages.1.len() ==> crate::metadata::components_order(
            a.packages.1[i].version.components,
            b.packages.1[i].version.components,
        ) == Order::Equal && a.packages.1[i].repository == b.packages.1[i].repository && tied(
            a.packages.1[i].dependencies,
            b.packages.1[i].dependencies,
        ),
{
    if 0 <= i < a.repos.len() {
        assert(same_locked(a.repos[i], b.repos[i]));
    }
    if 0 <= i < a.packages.1.len() {
        assert(same_package(a.packages.1[i], b.packages.1[i]));
    }
}

/// Git repositories are locked as the same only at the same commit of the same reference.
pub proof fn locked_git_repositories_agree_in_their_commit(
    url: Seq<char>,
    reference: GitReferenceV,
    commit: Seq<char>,
    subdirectory: Option<Seq<char>>,
    other: LockedRepositoryV,
)
    requires
        same_locked(LockedRepositoryV::Git(url, reference, commit, subdirectory), other),
    ensures
        other matches LockedRepositoryV::Git(its_url, its_reference, its_commit, its_subdirectory)
            && its_url == url && its_reference == reference && its_commit == commit && (
        subdirectory is Some <==> its_subdirectory is Some),
{
}

/// Only lockfiles of the version that is written are read; an older one and a newer one are
/// told apart.
pub proof fn lockfiles_are_read_in_their_version(
    path: &str,
    header: &LockfileHeader,
    r: Result<(), LockfileReadError>,
)
    requires
        call_ensures(check_header, (path, header), r),
    ensures
        r is Ok <==> header.version == LOCKFILE_VERSION,
        header.version < LOCKFILE_VERSION <==> r is Err && r->Err_0 is OutdatedLockfile,
        header.version > LOCKFILE_VERSION <==> r is Err && r->Err_0 is NewerLockfile,
{
}

/// A lockfile that was read is kept. Where there is none, or an older one, there is no
/// previous lockfile; every other fault is handed on.
pub proof fn readable_lockfiles_are_kept(
    lockfile: Lockfile,
    error: LockfileReadError,
    kept: Result<Option<Lockfile>, LockfileReadError>,
    r: Result<Option<Lockfile>, LockfileReadError>,
)
    requires
        call_ensures(
            previous_lockfile,
            (Ok::<Lockfile, LockfileReadError>(lockfile),),
            kept,
        ),
        call_ensures(previous_lockfile, (Err::<Lockfile, LockfileReadError>(error),), r),
    ensures
        kept == Ok::<Option<Lockfile>, LockfileReadError>(Some(lockfile)),
        error is OutdatedLockfile ==> r == Ok::<Option<Lockfile>, LockfileReadError>(None),
        error is NewerLockfile || error is Parse ==> r == Err::<Option<Lockfile>, LockfileReadError>(
            error,
        ),
        error matches LockfileReadError::Read { not_found, .. } ==> (r is Ok <==> not_found),
        !(r matches Ok(Some(_))),
{
}

} // verus!
