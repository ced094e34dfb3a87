//! Package repositories.
use crate::catalog::CranPackagesParseError;
use crate::description::Description;
use crate::document::{findings, FindingV};
use crate::git::{
    generic_url, remote_url, GitError, GitErrorV, GitOid, GitUrl,
};
use crate::lockfile;
use crate::lockfile::LockedRepositoryV;
use crate::path;
use crate::path::{relative_form, relative_forms_stay, same_place, tidy_path, tidy_paths_stay};
use crate::remote::{Remote, RemoteSource, RemoteSourceV, RemoteV};
use crate::text;
use crate::text::{
    has_prefix, is_control, is_hex, opt_text, split_on, trimmed,
};
use crate::uri::{parse_url, pop_empty_segment, popped_url, url_parts};
use vstd::prelude::*;

verus! {

/// Where packages come from unless a project says otherwise.
pub open spec fn built_in_url() -> Seq<char> {
    "https://upstream.rrepo.dev/cran"@
}

/// Where packages come from unless a project says otherwise.
pub fn built_in_repository_url() -> (r: String)
    ensures
        r@ == built_in_url(),
{
    "https://upstream.rrepo.dev/cran".to_owned()
}

/// The URL of a repository that a text spells: white space around it is dropped, and so is
/// one slash at the end of its path.
pub open spec fn repository_url_of(value: Seq<char>) -> Option<Seq<char>> {
    popped_url(trimmed(value))
}

/// Reads the URL of a repository; a text that is none is handed back without the white
/// space around it.
pub fn parse_repository_url(value: &str) -> (r: Result<String, String>)
    ensures
        match r {
            Ok(url) => repository_url_of(value@) == Some(url@) && !url@.contains('\n'),
            Err(value_text) => repository_url_of(value@) is None && value_text@ == trimmed(value@),
        },
{
    let value = text::trim(value);
    match pop_empty_segment(value.as_str()) {
        Some(url) => Ok(url),
        None => Err(value),
    }
}

/// Whether a repository keeps former versions of its packages.
#[derive(Clone, Copy, PartialEq, Eq, Structural, Debug)]
pub enum ArchiveSupport {
    Available,
    Unavailable,
}

/// What can go wrong with a repository.
#[derive(Debug)]
pub enum RepositoryError {
    CranPackages(Box<CranPackagesParseError>),
    Request { details: String },
    Response { status: Option<u16>, details: String },
    Archive { details: String },
    FileRead { path: String, details: String },
    PackageField { location: String, details: String },
    VersionField { location: String, details: String },
    InvalidData { resource: String, details: String },
    DescriptionNotFound { package: String },
    PackageVersionNotFound { path: String, package: String, version: String },
    Git { repository: String, source: GitError },
    RepositoryPackageVersionNotFound { repository: String, package: String, version: String },
    InvalidUrl { value: String },
    UnrecognizedRepository {
        url: String,
        rrepo: Box<RepositoryError>,
        cran: Box<RepositoryError>,
    },
}

/// What can go wrong with a repository.
pub enum RepositoryErrorV {
    CranPackages(Seq<char>, Seq<char>, Seq<FindingV>),
    Request(Seq<char>),
    Response(Option<u16>, Seq<char>),
    Archive(Seq<char>),
    FileRead(Seq<char>, Seq<char>),
    PackageField(Seq<char>, Seq<char>),
    VersionField(Seq<char>, Seq<char>),
    InvalidData(Seq<char>, Seq<char>),
    DescriptionNotFound(Seq<char>),
    PackageVersionNotFound(Seq<char>, Seq<char>, Seq<char>),
    Git(Seq<char>, GitErrorV),
    RepositoryPackageVersionNotFound(Seq<char>, Seq<char>, Seq<char>),
    InvalidUrl(Seq<char>),
    UnrecognizedRepository(Seq<char>, Box<RepositoryErrorV>, Box<RepositoryErrorV>),
}

impl RepositoryError {
    /// The error, as characters.
    pub open spec fn view(&self) -> RepositoryErrorV
        decreases self,
    {
        match self {
            RepositoryError::CranPackages(error) => RepositoryErrorV::CranPackages(
                error.source_name@,
                error.source_code@,
                findings(error.findings@),
            ),
            RepositoryError::Request { details } => RepositoryErrorV::Request(details@),
            RepositoryError::Response { status, details } => RepositoryErrorV::Response(
                *status,
                details@,
            ),
            RepositoryError::Archive { details } => RepositoryErrorV::Archive(details@),
            RepositoryError::FileRead { path, details } => RepositoryErrorV::FileRead(
                path@,
                details@,
            ),
            RepositoryError::PackageField { location, details } => RepositoryErrorV::PackageField(
                location@,
                details@,
            ),
            RepositoryError::VersionField { location, details } => RepositoryErrorV::VersionField(
                location@,
                details@,
            ),
            RepositoryError::InvalidData { resource, details } => RepositoryErrorV::InvalidData(
                resource@,
                details@,
            ),
            RepositoryError::DescriptionNotFound { package } => {
                RepositoryErrorV::DescriptionNotFound(package@)
            },
            RepositoryError::PackageVersionNotFound { path, package, version } => {
                RepositoryErrorV::PackageVersionNotFound(path@, package@, version@)
            },
            RepositoryError::Git { repository, source } => RepositoryErrorV::Git(
                repository@,
                source@,
            ),
            RepositoryError::RepositoryPackageVersionNotFound { repository, package, version } => {
                RepositoryErrorV::RepositoryPackageVersionNotFound(repository@, package@, version@)
            },
            RepositoryError::InvalidUrl { value } => RepositoryErrorV::InvalidUrl(value@),
            RepositoryError::UnrecognizedRepository { url, rrepo, cran } => {
                RepositoryErrorV::UnrecognizedRepository(
                    url@,
                    Box::new((*rrepo).view()),
                    Box::new((*cran).view()),
                )
            },
        }
    }
}

/// A repository with the interface of its own that lists packages, versions and descriptions.
#[derive(Debug)]
pub struct RrepoRepository {
    pub url: String,
}

/// A repository laid out like CRAN.
#[derive(Debug)]
pub struct CranRepository {
    pub url: String,
    pub archives: ArchiveSupport,
}

/// A Git repository that holds one package, below its root or in a subdirectory of it. The
/// commit is known once the reference has been looked up.
#[derive(Debug)]
pub struct GitRepository {
    pub remote: GitUrl,
    pub reference: Option<String>,
    pub subdirectory: Option<String>,
    pub commit: Option<GitOid>,
}

/// A directory that holds one package. The description is there if it is not to be read
/// from the directory.
#[derive(Debug)]
pub struct LocalRepository {
    pub path: String,
    pub description: Option<Description>,
}

/// A place that packages come from.
#[derive(Debug)]
pub enum PackageRepository {
    Rrepo(RrepoRepository),
    Cran(CranRepository),
    Git(GitRepository),
    Local(LocalRepository),
}

/// A Git repository.
pub struct GitRepositoryV {
    pub remote: Seq<char>,
    pub reference: Option<Seq<char>>,
    pub subdirectory: Option<Seq<char>>,
    pub commit: Option<Seq<char>>,
}

/// A place that packages come from.
pub enum RepositoryV {
    Rrepo(Seq<char>),
    Cran(Seq<char>, ArchiveSupport),
    Git(GitRepositoryV),
    Local(Seq<char>, Option<Seq<char>>),
}

/// The object name of a commit that may be there.
pub open spec fn opt_oid(v: Option<GitOid>) -> Option<Seq<char>> {
    match v {
        Some(commit) => Some(commit@),
        None => None,
    }
}

/// A copy of an object name that may be there.
pub fn copy_oid(v: &Option<GitOid>) -> (r: Option<GitOid>)
    ensures
        r == *v,
{
    match v {
        Some(commit) => Some(commit.copy()),
        None => None,
    }
}

impl RrepoRepository {
    /// The URL, as characters.
    pub open spec fn view(&self) -> RepositoryV {
        RepositoryV::Rrepo(self.url@)
    }

    /// The repository at a URL with path segments; an empty last segment is dropped.
    pub fn new(url: &str) -> (r: RrepoRepository)
        requires
            popped_url(url@) is Some,
        ensures
            Some(r.url@) == popped_url(url@),
    {
        match pop_empty_segment(url) {
            Some(url) => RrepoRepository { url },
            None => RrepoRepository { url: String::new() },
        }
    }

    /// The repository at the URL that a text spells, if it spells one with path segments.
    pub fn at(url: &str) -> (r: Option<RrepoRepository>)
        ensures
            match r {
                Some(repository) => popped_url(url@) == Some(repository.url@),
                None => popped_url(url@) is None,
            },
    {
        if pop_empty_segment(url).is_some() {
            Some(RrepoRepository::new(url))
        } else {
            None
        }
    }

    /// The URL.
    pub fn url(&self) -> (r: &str)
        ensures
            r@ == self.url@,
    {
        self.url.as_str()
    }
}

impl CranRepository {
    /// The repository at a URL.
    pub fn new(url: String, archives: ArchiveSupport) -> (r: CranRepository)
        ensures
            r.url@ == url@,
            r.archives == archives,
    {
        CranRepository { url, archives }
    }

    /// The URL.
    pub fn url(&self) -> (r: &str)
        ensures
            r@ == self.url@,
    {
        self.url.as_str()
    }

    /// Whether former versions are kept.
    pub fn archive_support(&self) -> (r: ArchiveSupport)
        ensures
            r == self.archives,
    {
        self.archives
    }
}

impl LocalRepository {
    /// The repository at a path, its description to be read from there.
    pub fn new(path: String) -> (r: LocalRepository)
        ensures
            r.path@ == path@,
            r.description is None,
    {
        LocalRepository { path, description: None }
    }

    /// The repository with a description of its own.
    pub fn with_description(self, description: Description) -> (r: LocalRepository)
        ensures
            r.path == self.path,
            r.description == Some(description),
    {
        let mut r = self;
        r.set_description(description);
        r
    }

    /// Gives the repository a description of its own.
    pub fn set_description(&mut self, description: Description)
        ensures
            final(self).path == old(self).path,
            final(self).description == Some(description),
    {
        self.description = Some(description);
    }

    /// The path.
    pub fn path(&self) -> (r: &str)
        ensures
            r@ == self.path@,
    {
        self.path.as_str()
    }
}

/// The reference and the subdirectory that a remote asks for.
pub open spec fn remote_parts_of(source: RemoteSourceV) -> (Option<Seq<char>>, Option<Seq<char>>) {
    match source {
        RemoteSourceV::GitHub((_, _, subdirectory, reference)) => (reference, subdirectory),
        RemoteSourceV::GitLab((_, _, subdirectory, reference)) => (reference, subdirectory),
        RemoteSourceV::Bitbucket((_, _, subdirectory, reference)) => (reference, subdirectory),
        RemoteSourceV::Git((_, reference)) => (reference, None),
        RemoteSourceV::Other(_) => (None, None),
    }
}

/// The reference and the subdirectory that a remote asks for.
pub fn remote_parts(remote: &Remote) -> (r: (Option<String>, Option<String>))
    ensures
        (opt_text(r.0), opt_text(r.1)) == remote_parts_of(remote@.source),
{
    match &remote.source {
        RemoteSource::GitHub(source) => (
            text::copy_opt(&source.reference),
            text::copy_opt(&source.subdirectory),
        ),
        RemoteSource::GitLab(source) => (
            text::copy_opt(&source.reference),
            text::copy_opt(&source.subdirectory),
        ),
        RemoteSource::Bitbucket(source) => (
            text::copy_opt(&source.reference),
            text::copy_opt(&source.subdirectory),
        ),
        RemoteSource::Git { reference, .. } => (text::copy_opt(reference), None),
        RemoteSource::Other(_) => (None, None),
    }
}

/// A name that leads further down.
pub open spec fn is_plain_name(name: Seq<char>) -> bool {
    name.len() > 0 && name != "."@ && name != ".."@
}

/// A path to a subdirectory: names that lead further down, without backslashes and control
/// characters.
pub open spec fn valid_subdirectory(value: Seq<char>) -> bool {
    &&& value.len() > 0
    &&& !value.contains('\\')
    &&& forall|i: int| 0 <= i < value.len() ==> !is_control(#[trigger] value[i])
    &&& forall|i: int|
        0 <= i < split_on(value, '/').len() ==> is_plain_name(#[trigger] split_on(value, '/')[i])
}

fn has_control(value: &str) -> (r: bool)
    ensures
        r == exists|i: int| 0 <= i < value@.len() && is_control(#[trigger] value@[i]),
{
    let chars = text::chars_of(value);
    let mut i: usize = 0;
    while i < chars.len()
        invariant
            i <= chars.len(),
            chars@ == value@,
            forall|k: int| 0 <= k < i ==> !is_control(#[trigger] value@[k]),
        decreases chars.len() - i,
    {
        if text::control(chars[i]) {
            assert(is_control(value@[i as int]));
            return true;
        }
        i = i + 1;
    }
    false
}

fn plain_names(names: &Vec<String>) -> (r: bool)
    ensures
        r == forall|i: int| 0 <= i < text::texts(names@).len() ==> is_plain_name(
            #[trigger] text::texts(names@)[i],
        ),
{
    let ghost all = text::texts(names@);
    let mut i: usize = 0;
    while i < names.len()
        invariant
            i <= names.len(),
            all == text::texts(names@),
            forall|k: int| 0 <= k < i ==> is_plain_name(#[trigger] all[k]),
        decreases names.len() - i,
    {
        let name = names[i].as_str();
        assert(all[i as int] == name@);
        if name.is_empty() || text::same(name, ".") || text::same(name, "..") {
            assert(!is_plain_name(all[i as int]));
            return false;
        }
        i = i + 1;
    }
    true
}

/// What is said of a path that leads to no subdirectory.
pub open spec fn subdirectory_fault(value: Seq<char>) -> RepositoryErrorV {
    RepositoryErrorV::InvalidData(
        "Git package subdirectory"@,
        "invalid relative path "@ + value,
    )
}

/// Checks a path to a subdirectory.
pub fn validate_subdirectory(value: &str) -> (r: Result<String, RepositoryError>)
    ensures
        match r {
            Ok(path) => valid_subdirectory(value@) && path@ == value@,
            Err(error) => !valid_subdirectory(value@) && error@ == subdirectory_fault(value@),
        },
{
    let parts = text::split(value, '/');
    if value.is_empty() || text::contains_char(value, '\\') || has_control(value) || !plain_names(
        &parts,
    ) {
        return Err(
            RepositoryError::InvalidData {
                resource: "Git package subdirectory".to_owned(),
                details: text::cat("invalid relative path ", value),
            },
        );
    }
    Ok(value.to_owned())
}

/// A Git repository as it is shown: its URL, what was asked for and the subdirectory.
pub open spec fn git_text(repository: GitRepositoryV) -> Seq<char> {
    let base = "git+"@ + repository.remote + "@"@ + match repository.reference {
        Some(reference) => reference,
        None => "HEAD"@,
    };
    match repository.subdirectory {
        Some(subdirectory) => base + "#"@ + subdirectory,
        None => base,
    }
}

/// The Git repository that a remote names, or why there is none.
pub open spec fn git_repository_of(remote: RemoteV) -> Result<GitRepositoryV, RepositoryErrorV> {
    match remote_url(remote) {
        Err(error) => Err(RepositoryErrorV::Git(remote.text, error)),
        Ok(url) => {
            let (reference, subdirectory) = remote_parts_of(remote.source);
            match subdirectory {
                Some(value) if !valid_subdirectory(value) => Err(subdirectory_fault(value)),
                _ => Ok(GitRepositoryV { remote: url, reference, subdirectory, commit: None }),
            }
        },
    }
}

/// Two subdirectories are the same.
pub open spec fn same_subdirectory(a: Option<Seq<char>>, b: Option<Seq<char>>) -> bool {
    match (a, b) {
        (Some(a), Some(b)) => same_place(a, b),
        (None, None) => true,
        _ => false,
    }
}

/// Two repositories are the same: of the same kind, at the same place and asked for the same.
pub open spec fn same_repository(a: RepositoryV, b: RepositoryV) -> bool {
    match (a, b) {
        (RepositoryV::Rrepo(a), RepositoryV::Rrepo(b)) => a == b,
        (RepositoryV::Cran(a, x), RepositoryV::Cran(b, y)) => a == b && x == y,
        (RepositoryV::Git(a), RepositoryV::Git(b)) => a.remote == b.remote && a.reference
            == b.reference && same_subdirectory(a.subdirectory, b.subdirectory),
        (RepositoryV::Local(a, _), RepositoryV::Local(b, _)) => same_place(a, b),
        _ => false,
    }
}

/// A repository as it is shown.
pub open spec fn repository_text(repository: RepositoryV) -> Seq<char> {
    match repository {
        RepositoryV::Rrepo(url) => url,
        RepositoryV::Cran(url, _) => url,
        RepositoryV::Git(repository) => git_text(repository),
        RepositoryV::Local(path, _) => path,
    }
}

impl GitRepository {
    /// The repository, as characters.
    pub open spec fn view(&self) -> GitRepositoryV {
        GitRepositoryV {
            remote: self.remote@,
            reference: opt_text(self.reference),
            subdirectory: opt_text(self.subdirectory),
            commit: opt_oid(self.commit),
        }
    }

    /// The object name of the commit is one.
    pub open spec fn wf(&self) -> bool {
        self.commit matches Some(commit) ==> commit.wf()
    }

    /// The repository that a remote names; its commit is not known yet.
    pub fn new(remote: &Remote) -> (r: Result<GitRepository, RepositoryError>)
        ensures
            match r {
                Ok(repository) => repository.wf() && git_repository_of(remote@) == Ok::<
                    GitRepositoryV,
                    RepositoryErrorV,
                >(repository@),
                Err(error) => git_repository_of(remote@) == Err::<
                    GitRepositoryV,
                    RepositoryErrorV,
                >(error@),
            },
    {
        let (reference, subdirectory) = remote_parts(remote);
        let url = match GitUrl::from_remote(remote) {
            Ok(url) => url,
            Err(source) => {
                return Err(RepositoryError::Git { repository: remote.text.clone(), source });
            },
        };
        let subdirectory = match subdirectory {
            None => None,
            Some(value) => match validate_subdirectory(value.as_str()) {
                Ok(path) => Some(path),
                Err(error) => {
                    return Err(error);
                },
            },
        };
        Ok(GitRepository::from_parts(url, reference, subdirectory))
    }

    /// The repository at a URL, asked for a reference, with its package in a subdirectory.
    pub fn from_parts(remote: GitUrl, reference: Option<String>, subdirectory: Option<String>) -> (r:
        GitRepository)
        ensures
            r.wf(),
            r@ == (GitRepositoryV {
                remote: remote@,
                reference: opt_text(reference),
                subdirectory: opt_text(subdirectory),
                commit: None,
            }),
    {
        GitRepository { remote, reference, subdirectory, commit: None }
    }

    /// The repository at a known commit.
    pub fn with_commit(self, commit: GitOid) -> (r: GitRepository)
        requires
            commit.wf(),
        ensures
            r.wf(),
            r@ == (GitRepositoryV { commit: Some(commit@), ..self@ }),
    {
        GitRepository {
            remote: self.remote,
            reference: self.reference,
            subdirectory: self.subdirectory,
            commit: Some(commit),
        }
    }

    /// The URL.
    pub fn remote(&self) -> (r: &GitUrl)
        ensures
            *r == self.remote,
    {
        &self.remote
    }

    /// What was asked for.
    pub fn reference(&self) -> (r: Option<&str>)
        ensures
            crate::git::str_opt(r) == opt_text(self.reference),
    {
        match &self.reference {
            Some(reference) => Some(reference.as_str()),
            None => None,
        }
    }

    /// Where the package is.
    pub fn subdirectory(&self) -> (r: Option<&str>)
        ensures
            crate::git::str_opt(r) == opt_text(self.subdirectory),
    {
        match &self.subdirectory {
            Some(subdirectory) => Some(subdirectory.as_str()),
            None => None,
        }
    }

    /// The repository as it is shown.
    pub fn to_text(&self) -> (r: String)
        ensures
            r@ == git_text(self@),
    {
        let reference = match &self.reference {
            Some(reference) => reference.as_str(),
            None => "HEAD",
        };
        let base = text::cat4("git+", self.remote.as_str(), "@", reference);
        match &self.subdirectory {
            Some(subdirectory) => text::cat3(base.as_str(), "#", subdirectory.as_str()),
            None => base,
        }
    }

    /// A copy.
    pub fn copy(&self) -> (r: GitRepository)
        ensures
            r@ == self@,
            r.wf() == self.wf(),
    {
        GitRepository {
            remote: self.remote.copy(),
            reference: text::copy_opt(&self.reference),
            subdirectory: text::copy_opt(&self.subdirectory),
            commit: copy_oid(&self.commit),
        }
    }
}

/// The text of a description that may be there.
pub open spec fn opt_description(v: Option<Description>) -> Option<Seq<char>> {
    match v {
        Some(description) => Some(description@),
        None => None,
    }
}

impl PackageRepository {
    /// The repository, as characters.
    pub open spec fn view(&self) -> RepositoryV {
        match self {
            PackageRepository::Rrepo(repository) => RepositoryV::Rrepo(repository.url@),
            PackageRepository::Cran(repository) => RepositoryV::Cran(
                repository.url@,
                repository.archives,
            ),
            PackageRepository::Git(repository) => RepositoryV::Git(repository@),
            PackageRepository::Local(repository) => RepositoryV::Local(
                repository.path@,
                opt_description(repository.description),
            ),
        }
    }

    /// The object name of a known commit is one.
    pub open spec fn wf(&self) -> bool {
        match self {
            PackageRepository::Git(repository) => repository.wf(),
            _ => true,
        }
    }

    /// Whether two repositories are the same.
    pub fn equals(&self, other: &PackageRepository) -> (r: bool)
        ensures
            r == same_repository(self@, other@),
    {
        match (self, other) {
            (PackageRepository::Rrepo(a), PackageRepository::Rrepo(b)) => text::same(
                a.url.as_str(),
                b.url.as_str(),
            ),
            (PackageRepository::Cran(a), PackageRepository::Cran(b)) => text::same(
                a.url.as_str(),
                b.url.as_str(),
            ) && a.archives == b.archives,
            (PackageRepository::Git(a), PackageRepository::Git(b)) => text::same(
                a.remote.as_str(),
                b.remote.as_str(),
            ) && text::same_opt(&a.reference, &b.reference) && match (
                &a.subdirectory,
                &b.subdirectory,
            ) {
                (Some(x), Some(y)) => path::same(x.as_str(), y.as_str()),
                (None, None) => true,
                _ => false,
            },
            (PackageRepository::Local(a), PackageRepository::Local(b)) => path::same(
                a.path.as_str(),
                b.path.as_str(),
            ),
            _ => false,
        }
    }

    /// The repository as it is shown.
    pub fn to_text(&self) -> (r: String)
        ensures
            r@ == repository_text(self@),
    {
        match self {
            PackageRepository::Rrepo(repository) => repository.url.clone(),
            PackageRepository::Cran(repository) => repository.url.clone(),
            PackageRepository::Git(repository) => repository.to_text(),
            PackageRepository::Local(repository) => repository.path.clone(),
        }
    }

    /// A copy.
    pub fn copy(&self) -> (r: PackageRepository)
        ensures
            r@ == self@,
            r.wf() == self.wf(),
    {
        match self {
            PackageRepository::Rrepo(repository) => PackageRepository::Rrepo(
                RrepoRepository { url: repository.url.clone() },
            ),
            PackageRepository::Cran(repository) => PackageRepository::Cran(
                CranRepository { url: repository.url.clone(), archives: repository.archives },
            ),
            PackageRepository::Git(repository) => PackageRepository::Git(repository.copy()),
            PackageRepository::Local(repository) => PackageRepository::Local(
                LocalRepository {
                    path: repository.path.clone(),
                    description: match &repository.description {
                        Some(description) => Some(description.copy()),
                        None => None,
                    },
                },
            ),
        }
    }
}

/// The repository that packages come from unless a project says otherwise.
pub fn built_in_repository() -> (r: PackageRepository)
    ensures
        r.wf(),
        r@ == RepositoryV::Rrepo(built_in_url()),
{
    PackageRepository::Rrepo(RrepoRepository { url: built_in_repository_url() })
}

/// The reference that a locked Git repository is asked for again.
pub open spec fn unlocked_reference(
    reference: lockfile::GitReferenceV,
    commit: Seq<char>,
) -> Option<Seq<char>> {
    match reference {
        lockfile::GitReferenceV::DefaultBranch => None,
        lockfile::GitReferenceV::Named(value) => Some(value),
        lockfile::GitReferenceV::Commit => Some(commit),
    }
}

/// The repository that a locked one stands for, or why there is none.
pub open spec fn unlocked(repository: LockedRepositoryV) -> Result<RepositoryV, RepositoryErrorV> {
    match repository {
        LockedRepositoryV::Rrepo(url) => match popped_url(url) {
            Some(url) => Ok(RepositoryV::Rrepo(url)),
            None => Err(RepositoryErrorV::InvalidUrl(url)),
        },
        LockedRepositoryV::CranLike(url, lockfile::ArchiveSupport::Available) => Ok(
            RepositoryV::Cran(url, ArchiveSupport::Available),
        ),
        LockedRepositoryV::CranLike(url, lockfile::ArchiveSupport::Unavailable) => Ok(
            RepositoryV::Cran(url, ArchiveSupport::Unavailable),
        ),
        LockedRepositoryV::Git(url, reference, commit, subdirectory) => match generic_url(url) {
            Ok(remote) => Ok(
                RepositoryV::Git(
                    GitRepositoryV {
                        remote,
                        reference: unlocked_reference(reference, commit),
                        subdirectory: match subdirectory {
                            Some(path) => Some(tidy_path(path)),
                            None => None,
                        },
                        commit: Some(commit),
                    },
                ),
            ),
            Err(error) => Err(RepositoryErrorV::Git(url, error)),
        },
    }
}

/// A reference that is the start of the object name of a commit.
pub open spec fn abbreviates(reference: Seq<char>, commit: Seq<char>) -> bool {
    4 <= reference.len() <= 40 && is_hex(reference) && has_prefix(commit, reference)
}

/// Whether a reference is the start of the object name of a commit.
pub fn is_commit_reference(reference: &str, commit: &GitOid) -> (r: bool)
    ensures
        r == abbreviates(reference@, commit@),
{
    let chars = text::chars_of(reference);
    let object = commit.to_text();
    4 <= chars.len() && chars.len() <= 40 && text::all_hex(&chars) && text::starts_with(
        object.as_str(),
        reference,
    )
}

/// A path that every platform reads alike: it holds neither colons nor backslashes, or it
/// begins with a slash.
pub open spec fn is_portable(path: Seq<char>) -> bool {
    has_prefix(path, "/"@) || !path.contains('\\') && !path.contains(':')
}

/// A path with slashes for backslashes.
pub open spec fn with_slashes(path: Seq<char>) -> Seq<char> {
    path.map_values(|c: char| if c == '\\' { '/' } else { c })
}

/// What is said of a path that does not begin at the directory it is in.
pub open spec fn not_relative() -> Seq<char> {
    "path contains non-relative component"@
}

/// `relative_path::RelativePathBuf::from_path`: the names of a relative path but for those
/// that stand for the directory itself, with one slash between any two. A path that begins
/// with a slash is refused. Where a path holds a backslash or a colon, the platform decides
/// whether backslashes divide its names and whether it is a relative one.
#[verifier::external_body]
fn relative_path(path: &str) -> (r: Result<String, String>)
    ensures
        match r {
            Ok(relative) => {
                ||| !has_prefix(path@, "/"@) && relative@ == relative_form(path@)
                ||| !is_portable(path@) && !has_prefix(with_slashes(path@), "/"@) && relative@
                    == relative_form(with_slashes(path@))
            },
            Err(details) => details@ == not_relative() && (has_prefix(path@, "/"@) || !is_portable(
                path@,
            )),
        },
{
    match relative_path::RelativePathBuf::from_path(path) {
        Ok(relative) => Ok(relative.into_string()),
        Err(error) => Err(error.to_string()),
    }
}

/// The reference that a Git repository is locked with.
pub open spec fn locked_reference(
    reference: Option<Seq<char>>,
    commit: Seq<char>,
) -> lockfile::GitReferenceV {
    match reference {
        None => lockfile::GitReferenceV::DefaultBranch,
        Some(value) => if abbreviates(value, commit) {
            lockfile::GitReferenceV::Commit
        } else {
            lockfile::GitReferenceV::Named(value)
        },
    }
}

/// The URL that a Git repository is locked with, or why there is none.
pub open spec fn locked_git_url(repository: GitRepositoryV) -> Result<Seq<char>, RepositoryErrorV> {
    match url_parts(repository.remote) {
        None => Err(RepositoryErrorV::Git(git_text(repository), GitErrorV::InvalidUrl)),
        Some(parts) => match repository_url_of(parts.serialization) {
            None => Err(RepositoryErrorV::InvalidUrl(trimmed(parts.serialization))),
            Some(url) => Ok(url),
        },
    }
}

/// What is said of a repository whose subdirectory is no relative path.
pub open spec fn subdirectory_refusal(repository: GitRepositoryV) -> RepositoryErrorV {
    RepositoryErrorV::InvalidData("subdirectory in "@ + git_text(repository), not_relative())
}

/// The subdirectory that a Git repository is locked with: a relative path without what does
/// not lead further; or why there is none.
pub open spec fn locked_subdirectory(repository: GitRepositoryV) -> Result<
    Option<Seq<char>>,
    RepositoryErrorV,
> {
    match repository.subdirectory {
        None => Ok(None),
        Some(path) => if has_prefix(path, "/"@) {
            Err(subdirectory_refusal(repository))
        } else {
            Ok(Some(relative_form(path)))
        },
    }
}

/// The locked form of a repository, or why there is none.
pub open spec fn locked(repository: RepositoryV) -> Result<LockedRepositoryV, RepositoryErrorV> {
    match repository {
        RepositoryV::Rrepo(url) => Ok(LockedRepositoryV::Rrepo(url)),
        RepositoryV::Cran(url, ArchiveSupport::Available) => Ok(
            LockedRepositoryV::CranLike(url, lockfile::ArchiveSupport::Available),
        ),
        RepositoryV::Cran(url, ArchiveSupport::Unavailable) => Ok(
            LockedRepositoryV::CranLike(url, lockfile::ArchiveSupport::Unavailable),
        ),
        RepositoryV::Git(repository) => match locked_git_url(repository) {
            Err(error) => Err(error),
            Ok(url) => match locked_subdirectory(repository) {
                Err(error) => Err(error),
                Ok(subdirectory) => Ok(
                    LockedRepositoryV::Git(
                        url,
                        locked_reference(repository.reference, repository.commit->0),
                        repository.commit->0,
                        subdirectory,
                    ),
                ),
            },
        },
        RepositoryV::Local(path, _) => Err(
            RepositoryErrorV::InvalidData(
                "lockfile repository"@,
                "unsupported repository "@ + path,
            ),
        ),
    }
}

/// Every platform reads the subdirectory of a repository alike, if it has one.
pub open spec fn portable_subdirectory(repository: RepositoryV) -> bool {
    match repository {
        RepositoryV::Git(repository) => match repository.subdirectory {
            Some(path) => is_portable(path),
            None => true,
        },
        _ => true,
    }
}

/// A Git repository whose subdirectory has slashes for backslashes.
pub open spec fn slashed(repository: GitRepositoryV) -> GitRepositoryV {
    GitRepositoryV {
        subdirectory: match repository.subdirectory {
            Some(path) => Some(with_slashes(path)),
            None => None,
        },
        ..repository
    }
}

/// What comes of locking a repository: its locked form, or why there is none. Where platforms
/// read its subdirectory differently, backslashes may divide the names of the subdirectory,
/// or the subdirectory may be refused.
pub open spec fn may_lock(
    repository: RepositoryV,
    r: Result<LockedRepositoryV, RepositoryErrorV>,
) -> bool {
    ||| r == locked(repository)
    ||| !portable_subdirectory(repository) && locked(repository) is Ok && match repository {
        RepositoryV::Git(git) => {
            ||| r is Ok && r == locked(RepositoryV::Git(slashed(git)))
            ||| r == Err::<LockedRepositoryV, RepositoryErrorV>(subdirectory_refusal(git))
        },
        _ => false,
    }
}

/// What came of locking a repository.
pub open spec fn locked_view(r: Result<lockfile::Repository, RepositoryError>) -> Result<
    LockedRepositoryV,
    RepositoryErrorV,
> {
    match r {
        Ok(repository) => Ok(repository@),
        Err(error) => Err(error@),
    }
}

impl PackageRepository {
    /// The repository that a locked one stands for.
    pub fn from_lockfile(repository: &lockfile::Repository) -> (r: Result<
        PackageRepository,
        RepositoryError,
    >)
        requires
            repository.wf(),
        ensures
            match r {
                Ok(unlocked_repository) => unlocked_repository.wf() && unlocked(repository@)
                    == Ok::<RepositoryV, RepositoryErrorV>(unlocked_repository@),
                Err(error) => unlocked(repository@) == Err::<RepositoryV, RepositoryErrorV>(error@),
            },
    {
        match repository {
            lockfile::Repository::Rrepo { url } => match RrepoRepository::at(url.as_str()) {
                Some(repository) => Ok(PackageRepository::Rrepo(repository)),
                None => Err(RepositoryError::InvalidUrl { value: url.clone() }),
            },
            lockfile::Repository::CranLike { url, archive_support } => {
                let archives = match archive_support {
                    lockfile::ArchiveSupport::Available => ArchiveSupport::Available,
                    lockfile::ArchiveSupport::Unavailable => ArchiveSupport::Unavailable,
                };
                Ok(PackageRepository::Cran(CranRepository::new(url.clone(), archives)))
            },
            lockfile::Repository::Git { url, reference, commit, subdirectory } => {
                let remote = match GitUrl::from_generic(url.as_str()) {
                    Ok(remote) => remote,
                    Err(source) => {
                        return Err(RepositoryError::Git { repository: url.clone(), source });
                    },
                };
                let reference = match reference {
                    lockfile::GitReference::DefaultBranch => None,
                    lockfile::GitReference::Named { value } => Some(value.clone()),
                    lockfile::GitReference::Commit => Some(commit.to_text()),
                };
                let subdirectory = match subdirectory {
                    Some(path) => Some(path::tidy(path.as_str())),
                    None => None,
                };
                let repository = GitRepository::from_parts(
                    remote,
                    reference,
                    subdirectory,
                ).with_commit(commit.copy());
                Ok(PackageRepository::Git(repository))
            },
        }
    }

    /// The locked form of a repository; the commit of a Git repository has to be known.
    pub fn to_lockfile(&self) -> (r: Result<lockfile::Repository, RepositoryError>)
        requires
            self.wf(),
            self@ matches RepositoryV::Git(repository) ==> repository.commit is Some,
        ensures
            may_lock(self@, locked_view(r)),
            r matches Ok(repository) ==> repository.wf(),
    {
        match self {
            PackageRepository::Rrepo(repository) => Ok(
                lockfile::Repository::Rrepo { url: repository.url.clone() },
            ),
            PackageRepository::Cran(repository) => {
                let archive_support = match repository.archives {
                    ArchiveSupport::Available => lockfile::ArchiveSupport::Available,
                    ArchiveSupport::Unavailable => lockfile::ArchiveSupport::Unavailable,
                };
                Ok(lockfile::Repository::CranLike { url: repository.url.clone(), archive_support })
            },
            PackageRepository::Git(repository) => {
                let commit = match &repository.commit {
                    Some(commit) => commit.copy(),
                    None => {
                        assert(false);
                        return Err(
                            RepositoryError::Git {
                                repository: repository.to_text(),
                                source: GitError::InvalidUrl,
                            },
                        );
                    },
                };
                let parts = match parse_url(repository.remote.as_str()) {
                    Some(parts) => parts,
                    None => {
                        return Err(
                            RepositoryError::Git {
                                repository: repository.to_text(),
                                source: GitError::InvalidUrl,
                            },
                        );
                    },
                };
                let url = match parse_repository_url(parts.serialization.as_str()) {
                    Ok(url) => url,
                    Err(value) => {
                        return Err(RepositoryError::InvalidUrl { value });
                    },
                };
                let reference = match &repository.reference {
                    None => lockfile::GitReference::DefaultBranch,
                    Some(reference) => if is_commit_reference(reference.as_str(), &commit) {
                        lockfile::GitReference::Commit
                    } else {
                        lockfile::GitReference::Named { value: reference.clone() }
                    },
                };
                let subdirectory = match &repository.subdirectory {
                    None => None,
                    Some(path) => match relative_path(path.as_str()) {
                        Ok(path) => Some(path),
                        Err(details) => {
                            let shown = repository.to_text();
                            return Err(
                                RepositoryError::InvalidData {
                                    resource: text::cat("subdirectory in ", shown.as_str()),
                                    details,
                                },
                            );
                        },
                    },
                };
                Ok(lockfile::Repository::Git { url, reference, commit, subdirectory })
            },
            PackageRepository::Local(repository) => Err(
                RepositoryError::InvalidData {
                    resource: "lockfile repository".to_owned(),
                    details: text::cat("unsupported repository ", repository.path.as_str()),
                },
            ),
        }
    }
}

/// A repository that was locked comes back as the same repository, and a Git repository at
/// the same commit. The URL has to come back from the locked one, a subdirectory has to be
/// a valid one, and what a Git repository is asked for must not be the start of the object
/// name of its commit, for which the whole name is kept.
pub proof fn locking_keeps_the_repository(repository: RepositoryV)
    requires
        locked(repository) is Ok,
        match repository {
            RepositoryV::Rrepo(url) => popped_url(url) == Some(url),
            RepositoryV::Git(git) => {
                &&& git.commit is Some
                &&& generic_url(locked_git_url(git)->Ok_0) == Ok::<Seq<char>, GitErrorV>(git.remote)
                &&& git.subdirectory matches Some(path) ==> valid_subdirectory(path)
                &&& git.reference matches Some(reference) ==> !abbreviates(
                    reference,
                    git.commit->0,
                ) || reference == git.commit->0
            },
            _ => true,
        },
    ensures
        unlocked(locked(repository)->Ok_0) matches Ok(back) && same_repository(back, repository)
            && (repository matches RepositoryV::Git(git) ==> back matches RepositoryV::Git(again)
            && again.commit == git.commit),
{
    match repository {
        RepositoryV::Git(git) => match git.subdirectory {
            Some(path) => {
                assert forall|i: int| 0 <= i < split_on(path, '/').len() implies (
                #[trigger] split_on(path, '/')[i]).len() > 0 by {
                    assert(is_plain_name(split_on(path, '/')[i]));
                }
                tidy_paths_stay(path);
                relative_forms_stay(path);
            },
            None => {},
        },
        _ => {},
    }
}

/// What a request for the first page of a repository came back with.
pub type Reply = Result<(), RepositoryError>;

/// The repository at a URL that answers like one with an interface of its own.
pub fn probe_rrepo(url: &str, packages: Reply) -> (r: Result<PackageRepository, RepositoryError>)
    ensures
        match packages {
            Ok(_) => match popped_url(url@) {
                Some(popped) => r matches Ok(repository) && repository.wf() && repository@
                    == RepositoryV::Rrepo(popped),
                None => r matches Err(e) && e@ == RepositoryErrorV::InvalidUrl(url@),
            },
            Err(error) => r matches Err(e) && e@ == error@,
        },
{
    match packages {
        Ok(_) => match RrepoRepository::at(url) {
            Some(repository) => Ok(PackageRepository::Rrepo(repository)),
            None => Err(RepositoryError::InvalidUrl { value: url.to_owned() }),
        },
        Err(error) => Err(error),
    }
}

/// A refusal that says that there is no archive: the page is not there or is not shown.
pub open spec fn lacks_archive(error: RepositoryErrorV) -> bool {
    error matches RepositoryErrorV::Response(status, _) && (status == Some(404u16) || status
        == Some(403u16))
}

/// The repository at a URL that answers like CRAN: it has a list of packages; its archive
/// is either there or known not to be.
pub fn probe_cran(url: &str, packages: Reply, archive: Reply) -> (r: Result<
    PackageRepository,
    RepositoryError,
>)
    ensures
        match (packages, archive) {
            (Err(error), _) => r matches Err(e) && e@ == error@,
            (Ok(_), Ok(_)) => r matches Ok(repository) && repository.wf() && repository@
                == RepositoryV::Cran(url@, ArchiveSupport::Available),
            (Ok(_), Err(error)) => if lacks_archive(error@) {
                r matches Ok(repository) && repository.wf() && repository@ == RepositoryV::Cran(
                    url@,
                    ArchiveSupport::Unavailable,
                )
            } else {
                r matches Err(e) && e@ == error@
            },
        },
{
    match packages {
        Err(error) => {
            return Err(error);
        },
        Ok(_) => {},
    }
    let archives = match archive {
        Ok(_) => ArchiveSupport::Available,
        Err(error) => {
            let absent = match &error {
                RepositoryError::Response { status: Some(status), .. } => *status == 404 || *status
                    == 403,
                _ => false,
            };
            if !absent {
                return Err(error);
            }
            ArchiveSupport::Unavailable
        },
    };
    Ok(PackageRepository::Cran(CranRepository::new(url.to_owned(), archives)))
}

/// Which kind of repository a probe looked for.
#[derive(Clone, Copy, PartialEq, Eq, Structural, Debug)]
pub enum ProbeKind {
    Rrepo,
    Cran,
}

/// What to do when the first of the two probes is back.
#[derive(Debug)]
pub enum ProbeStep {
    /// The repository is known; the other probe is not needed.
    Found(PackageRepository),
    /// The other probe decides.
    AwaitOther(RepositoryError),
}

/// Takes the answer of the probe that is back first.
pub fn after_first_probe(outcome: Result<PackageRepository, RepositoryError>) -> (r: ProbeStep)
    ensures
        match outcome {
            Ok(repository) => r == ProbeStep::Found(repository),
            Err(error) => r == ProbeStep::AwaitOther(error),
        },
{
    match outcome {
        Ok(repository) => ProbeStep::Found(repository),
        Err(error) => ProbeStep::AwaitOther(error),
    }
}

/// Takes the answer of the other probe: a repository that neither recognised is reported
/// with what each of them met.
pub fn after_second_probe(
    url: String,
    first: ProbeKind,
    first_error: RepositoryError,
    outcome: Result<PackageRepository, RepositoryError>,
) -> (r: Result<PackageRepository, RepositoryError>)
    ensures
        match outcome {
            Ok(repository) => r == Ok::<PackageRepository, RepositoryError>(repository),
            Err(error) => r matches Err(e) && e@ == (match first {
                ProbeKind::Rrepo => RepositoryErrorV::UnrecognizedRepository(
                    url@,
                    Box::new(first_error@),
                    Box::new(error@),
                ),
                ProbeKind::Cran => RepositoryErrorV::UnrecognizedRepository(
                    url@,
                    Box::new(error@),
                    Box::new(first_error@),
                ),
            }),
        },
{
    match outcome {
        Ok(repository) => Ok(repository),
        Err(error) => Err(
            match first {
                ProbeKind::Rrepo => RepositoryError::UnrecognizedRepository {
                    url,
                    rrepo: Box::new(first_error),
                    cran: Box::new(error),
                },
                ProbeKind::Cran => RepositoryError::UnrecognizedRepository {
                    url,
                    rrepo: Box::new(error),
                    cran: Box::new(first_error),
                },
            },
        ),
    }
}

/// Whether repositories are the same does not depend on which is looked at first, each is the
/// same as itself, and those of different kinds or at different places are not the same.
pub proof fn repositories_are_told_apart(a: RepositoryV, b: RepositoryV)
    ensures
        same_repository(a, a),
        same_repository(a, b) == same_repository(b, a),
        same_repository(a, b) ==> match (a, b) {
            (RepositoryV::Rrepo(x), RepositoryV::Rrepo(y)) => x == y,
            (RepositoryV::Cran(x, p), RepositoryV::Cran(y, q)) => x == y && p == q,
            (RepositoryV::Git(x), RepositoryV::Git(y)) => x.remote == y.remote && x.reference
                == y.reference && (x.subdirectory is Some <==> y.subdirectory is Some),
            (RepositoryV::Local(x, _), RepositoryV::Local(y, _)) => same_place(x, y),
            _ => false,
        },
{
}

/// The reference and the subdirectory of a remote are those of its repository, whose commit is
/// not known yet.
pub proof fn remotes_keep_their_reference(remote: RemoteV)
    ensures
        git_repository_of(remote) matches Ok(repository) ==> {
            &&& remote_url(remote) == Ok::<Seq<char>, GitErrorV>(repository.remote)
            &&& repository.commit is None
            &&& match remote.source {
                RemoteSourceV::GitHub((_, _, subdirectory, reference)) => repository.reference
                    == reference && repository.subdirectory == subdirectory,
                RemoteSourceV::GitLab((_, _, subdirectory, reference)) => repository.reference
                    == reference && repository.subdirectory == subdirectory,
                RemoteSourceV::Bitbucket((_, _, subdirectory, reference)) => repository.reference
                    == reference && repository.subdirectory == subdirectory,
                RemoteSourceV::Git((_, reference)) => repository.reference == reference
                    && repository.subdirectory is None,
                RemoteSourceV::Other(_) => true,
            }
        },
{
}

/// No subdirectory of a repository leads out of it, and a plain name is one.
pub proof fn subdirectories_stay_inside(value: Seq<char>, i: int)
    requires
        valid_subdirectory(value),
    ensures
        0 <= i < split_on(value, '/').len() ==> split_on(value, '/')[i] != ".."@ && split_on(
            value,
            '/',
        )[i] != "."@ && split_on(value, '/')[i].len() > 0,
        value.len() > 0 && value[0] != '/' && value.last() != '/',
        !value.contains('\\'),
{
    let pieces = split_on(value, '/');
    if 0 <= i < pieces.len() {
        assert(is_plain_name(pieces[i]));
    }
    text::splitting_and_joining(value, '/');
    if value[0] == '/' {
        lemma_first_piece(value);
        assert(is_plain_name(pieces[0]));
    }
    if value.last() == '/' {
        assert(pieces.last().len() == 0);
        assert(is_plain_name(pieces[pieces.len() - 1]));
    }
}

proof fn lemma_first_piece(value: Seq<char>)
    requires
        value.len() > 0,
        value[0] == '/',
    ensures
        split_on(value, '/').len() > 1,
        split_on(value, '/')[0].len() == 0,
    decreases value.len(),
{
    let t = value.drop_last();
    if t.len() > 0 {
        lemma_first_piece(t);
    } else {
        assert(t =~= Seq::<char>::empty());
        assert(split_on(t, '/') == seq![Seq::<char>::empty()]);
    }
}

/// A commit is locked as such where its name or the beginning of its name was asked for, a
/// branch or a tag by its name, and nothing as the default branch; all are unlocked as they
/// were asked for, a commit by its full name.
pub proof fn references_are_locked(commit: Seq<char>, n: int, name: Seq<char>)
    requires
        commit.len() == 40,
        is_hex(commit),
    ensures
        locked_reference(None, commit) is DefaultBranch,
        4 <= n <= 40 ==> locked_reference(Some(commit.take(n)), commit) is Commit,
        !(name.len() <= commit.len() && commit.take(name.len() as int) == name) ==> locked_reference(
            Some(name),
            commit,
        ) == lockfile::GitReferenceV::Named(name),
        unlocked_reference(lockfile::GitReferenceV::DefaultBranch, commit) is None,
        unlocked_reference(lockfile::GitReferenceV::Commit, commit) == Some(commit),
        unlocked_reference(lockfile::GitReferenceV::Named(name), commit) == Some(name),
{
    if 4 <= n <= 40 {
        let short = commit.take(n);
        assert forall|i: int| 0 <= i < short.len() implies crate::text::is_hex_digit(
            #[trigger] short[i],
        ) by {
            assert(short[i] == commit[i]);
        }
        assert(commit.take(short.len() as int) =~= short);
    }
}

/// A repository whose archive is forbidden or not there has none; every other failure tells
/// nothing.
pub proof fn archives_may_be_absent(status: Option<u16>, details: Seq<char>)
    ensures
        lacks_archive(RepositoryErrorV::Response(status, details)) <==> status == Some(404u16)
            || status == Some(403u16),
{
}

/// A CRAN-like repository is one that has an index of packages; it has archives exactly if
/// they were found, and a fault that does not say that there are none is handed on.
pub proof fn archives_are_found_by_asking(
    url: &str,
    packages: Reply,
    archive: Reply,
    r: Result<PackageRepository, RepositoryError>,
)
    requires
        call_ensures(probe_cran, (url, packages, archive), r),
    ensures
        r is Ok ==> packages is Ok,
        packages is Ok && archive is Ok ==> r is Ok && r->Ok_0@ == RepositoryV::Cran(
            url@,
            ArchiveSupport::Available,
        ),
        packages is Ok && archive is Err && r is Ok ==> r->Ok_0@ == RepositoryV::Cran(
            url@,
            ArchiveSupport::Unavailable,
        ) && lacks_archive(archive->Err_0@),
        packages matches Err(error) ==> r is Err && r->Err_0@ == error@,
{
}

/// A repository that answers as either kind is found; one that answers as neither is told with
/// both faults, each as the fault of its kind.
pub proof fn repositories_are_found_as_either_kind(
    url: String,
    first: ProbeKind,
    first_error: RepositoryError,
    outcome: Result<PackageRepository, RepositoryError>,
    r: Result<PackageRepository, RepositoryError>,
)
    requires
        call_ensures(after_second_probe, (url, first, first_error, outcome), r),
    ensures
        outcome matches Ok(repository) ==> r == Ok::<PackageRepository, RepositoryError>(repository),
        outcome matches Err(error) ==> r is Err && (first == ProbeKind::Rrepo ==> r->Err_0@
            == RepositoryErrorV::UnrecognizedRepository(
            url@,
            Box::new(first_error@),
            Box::new(error@),
        )) && (first == ProbeKind::Cran ==> r->Err_0@ == RepositoryErrorV::UnrecognizedRepository(
            url@,
            Box::new(error@),
            Box::new(first_error@),
        )),
{
}

} // verus!
