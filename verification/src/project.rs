//! Projects: where their files are, what is locked for them and whether that is still valid.
use crate::description::{
    all_relations, configuration, configuration_issues, configured_repositories, configured_views,
    dropped, edited, project_dependencies, project_fields, r_only, relation_issues, relation_texts,
    ConfiguredRepository, ConfiguredV, Description, DescriptionParseError,
};
use crate::digest;
use crate::digest::hash_key_of;
use crate::document;
use crate::document::{
    depends_of, depends_set, field_of, fits, holds_exactly, imports_of, issue_texts, linking_to_of,
    suggests_of, unchanged, written_document, ParsedFieldV,
};
use crate::location::{Base, Location, LocationV};
use crate::lockfile;
use crate::lockfile::{
    locked_url, locked_views, LockedRepositoryV, Lockfile, LockfileV, PackageV,
};
use crate::metadata;
use crate::metadata::{valid_package, version_components, RelationV, Version, VersionV};
use crate::path;
use crate::path::{child_of, components_of, same_place};
use crate::r::RVersion;
use crate::repository::{
    git_repository_of, same_repository, unlocked, GitRepository, PackageRepository,
    RepositoryError, RepositoryErrorV, RepositoryV,
};
use crate::resolver::{PackageVersion, PackageVersionV};
use crate::sorted::{collected, tied, TextMap};
use crate::sync::{required_views, required_wf, RequiredPackage, RequiredV};
use crate::text;
use crate::text::{has_prefix, joined, texts};
use vstd::prelude::*;

verus! {

/// The directory of what can be made again.
pub fn cache_dir_path() -> (r: Location)
    ensures
        r@ == (LocationV { base: Base::Cache, parts: Seq::empty() }),
{
    Location::root(Base::Cache)
}

/// A path as it is spelled in one way for all paths that lead to the same place.
pub open spec fn place_text(path: Seq<char>) -> Seq<char> {
    if has_prefix(path, "/"@) {
        "/"@ + joined(components_of(path), "/"@)
    } else {
        joined(components_of(path), "/"@)
    }
}

/// The key of a project: sixteen hexadecimal digits for the path of its root.
pub open spec fn project_key_of(path: Seq<char>) -> Seq<char> {
    hash_key_of(place_text(path))
}

/// The key of a project.
pub fn hash_path(path: &str) -> (r: String)
    ensures
        r@ == project_key_of(path@),
{
    let parts = path::components(path);
    let names = text::join(&parts, "/");
    if text::starts_with(path, "/") {
        let whole = text::cat("/", names.as_str());
        digest::hash_key(whole.as_str())
    } else {
        digest::hash_key(names.as_str())
    }
}

/// The place of what is kept for a project with a key.
pub open spec fn library_root_place(key: Seq<char>) -> LocationV {
    LocationV { base: Base::Data, parts: seq!["libraries"@, key] }
}

/// The place of what is kept for a project.
pub fn project_library_root_path(path: &str) -> (r: Location)
    ensures
        r@ == library_root_place(project_key_of(path@)),
{
    let key = hash_path(path);
    let r = Location::root(Base::Data).join("libraries").join(key.as_str());
    assert(r@.parts =~= library_root_place(key@).parts);
    r
}

/// The library of a project.
pub fn project_library_path(path: &str) -> (r: Location)
    ensures
        r@ == (LocationV {
            base: Base::Data,
            parts: seq!["libraries"@, project_key_of(path@), "library"@],
        }),
{
    let r = project_library_root_path(path).join("library");
    assert(r@.parts =~= seq!["libraries"@, project_key_of(path@), "library"@]);
    r
}

/// Paths that lead to the same place belong to the same project, and share its library.
pub proof fn one_place_has_one_library(a: Seq<char>, b: Seq<char>)
    requires
        same_place(a, b),
    ensures
        library_root_place(project_key_of(a)) == library_root_place(project_key_of(b)),
{
}

/// The place of an artifact of a version of a package.
pub fn artifact_cache_path(package: &str, version: &str, file_name: &str) -> (r: Location)
    ensures
        r@ == (LocationV {
            base: Base::Cache,
            parts: seq!["artifacts"@, package@, version@, file_name@],
        }),
{
    let r = cache_dir_path().join("artifacts").join(package).join(version).join(file_name);
    assert(r@.parts =~= seq!["artifacts"@, package@, version@, file_name@]);
    r
}

/// The place of a library that is used while a package is built.
pub fn build_temp_library_path(package: &str, unique: &str) -> (r: Location)
    ensures
        r@ == (LocationV {
            base: Base::Cache,
            parts: seq!["build-temp"@, package@ + "-"@ + unique@, "library"@],
        }),
{
    let name = text::cat3(package, "-", unique);
    let r = cache_dir_path().join("build-temp").join(name.as_str()).join("library");
    assert(r@.parts =~= seq!["build-temp"@, package@ + "-"@ + unique@, "library"@]);
    r
}

/// What is found where a marker of a project's root may be.
#[derive(Clone, Copy, PartialEq, Eq, Structural, Debug)]
pub enum MarkerState {
    Absent,
    File,
    Other,
    Unreadable,
}

/// The markers of a project's root in the order in which they are looked for.
#[derive(Clone, Copy, PartialEq, Eq, Structural, Debug)]
pub enum RootMarker {
    Git,
    Description,
    Lockfile,
}

/// The name of a marker.
pub fn marker_name(marker: RootMarker) -> (r: &'static str)
    ensures
        r@ == (match marker {
            RootMarker::Git => ".git"@,
            RootMarker::Description => "DESCRIPTION"@,
            RootMarker::Lockfile => "rpx.lock"@,
        }),
{
    match marker {
        RootMarker::Git => ".git",
        RootMarker::Description => "DESCRIPTION",
        RootMarker::Lockfile => "rpx.lock",
    }
}

/// What a marker says of a directory.
#[derive(Clone, Copy, PartialEq, Eq, Structural, Debug)]
pub enum MarkerVerdict {
    /// The directory is the root.
    Root,
    /// The marker says nothing.
    Continue,
    /// Whether the marker is there cannot be told.
    Unknown,
}

/// What a marker says of a directory: a Git directory marks a root in any form, the other
/// markers have to be files.
pub open spec fn verdict_of(marker: RootMarker, state: MarkerState) -> MarkerVerdict {
    match (marker, state) {
        (_, MarkerState::Unreadable) => MarkerVerdict::Unknown,
        (_, MarkerState::Absent) => MarkerVerdict::Continue,
        (_, MarkerState::File) => MarkerVerdict::Root,
        (RootMarker::Git, MarkerState::Other) => MarkerVerdict::Root,
        (_, MarkerState::Other) => MarkerVerdict::Continue,
    }
}

/// What a marker says of a directory.
pub fn marker_verdict(marker: RootMarker, state: MarkerState) -> (r: MarkerVerdict)
    ensures
        r == verdict_of(marker, state),
{
    match state {
        MarkerState::Unreadable => MarkerVerdict::Unknown,
        MarkerState::Absent => MarkerVerdict::Continue,
        MarkerState::File => MarkerVerdict::Root,
        MarkerState::Other => if marker == RootMarker::Git {
            MarkerVerdict::Root
        } else {
            MarkerVerdict::Continue
        },
    }
}

/// A directory, and what is found where its markers may be.
#[derive(Debug)]
pub struct DirectoryMarkers {
    pub directory: String,
    pub git: MarkerState,
    pub description: MarkerState,
    pub lockfile: MarkerState,
}

/// Why the root of a project is not known.
#[derive(Debug)]
pub enum ProjectDiscoveryError {
    /// The working directory cannot be told.
    WorkingDirectoryUnavailable { details: String },
    /// Whether a marker is there cannot be told.
    RootMarkerMetadata { path: String },
    /// No directory has a marker.
    RootNotFound { start: String },
}

/// Why the root of a project is not known.
pub enum DiscoveryFaultV {
    WorkingDirectoryUnavailable(Seq<char>),
    RootMarkerMetadata(Seq<char>),
    RootNotFound(Seq<char>),
}

impl ProjectDiscoveryError {
    /// The error, as characters.
    pub open spec fn view(&self) -> DiscoveryFaultV {
        match self {
            ProjectDiscoveryError::WorkingDirectoryUnavailable { details } => {
                DiscoveryFaultV::WorkingDirectoryUnavailable(details@)
            },
            ProjectDiscoveryError::RootMarkerMetadata { path } => {
                DiscoveryFaultV::RootMarkerMetadata(path@)
            },
            ProjectDiscoveryError::RootNotFound { start } => DiscoveryFaultV::RootNotFound(start@),
        }
    }
}

/// What a directory is, if a marker tells.
pub open spec fn directory_root(d: DirectoryMarkers) -> Option<Result<Seq<char>, DiscoveryFaultV>> {
    let git = verdict_of(RootMarker::Git, d.git);
    let description = verdict_of(RootMarker::Description, d.description);
    let lockfile = verdict_of(RootMarker::Lockfile, d.lockfile);
    if git != MarkerVerdict::Continue {
        Some(
            if git == MarkerVerdict::Root {
                Ok(d.directory@)
            } else {
                Err(DiscoveryFaultV::RootMarkerMetadata(child_of(d.directory@, ".git"@)))
            },
        )
    } else if description != MarkerVerdict::Continue {
        Some(
            if description == MarkerVerdict::Root {
                Ok(d.directory@)
            } else {
                Err(DiscoveryFaultV::RootMarkerMetadata(child_of(d.directory@, "DESCRIPTION"@)))
            },
        )
    } else if lockfile != MarkerVerdict::Continue {
        Some(
            if lockfile == MarkerVerdict::Root {
                Ok(d.directory@)
            } else {
                Err(DiscoveryFaultV::RootMarkerMetadata(child_of(d.directory@, "rpx.lock"@)))
            },
        )
    } else {
        None
    }
}

/// The first directory from a place on that a marker tells of.
pub open spec fn root_from(start: Seq<char>, directories: Seq<DirectoryMarkers>, i: int) -> Result<
    Seq<char>,
    DiscoveryFaultV,
>
    decreases directories.len() - i,
{
    if i >= directories.len() {
        Err(DiscoveryFaultV::RootNotFound(start))
    } else {
        match directory_root(directories[i]) {
            Some(found) => found,
            None => root_from(start, directories, i + 1),
        }
    }
}

fn marker_outcome(marker: RootMarker, state: MarkerState, directory: &str) -> (r: Option<
    Result<String, ProjectDiscoveryError>,
>)
    ensures
        match r {
            None => verdict_of(marker, state) == MarkerVerdict::Continue,
            Some(Ok(root)) => verdict_of(marker, state) == MarkerVerdict::Root && root@
                == directory@,
            Some(Err(error)) => verdict_of(marker, state) == MarkerVerdict::Unknown && error@
                == DiscoveryFaultV::RootMarkerMetadata(
                child_of(
                    directory@,
                    match marker {
                        RootMarker::Git => ".git"@,
                        RootMarker::Description => "DESCRIPTION"@,
                        RootMarker::Lockfile => "rpx.lock"@,
                    },
                ),
            ),
        },
{
    match marker_verdict(marker, state) {
        MarkerVerdict::Continue => None,
        MarkerVerdict::Root => Some(Ok(directory.to_owned())),
        MarkerVerdict::Unknown => Some(
            Err(
                ProjectDiscoveryError::RootMarkerMetadata {
                    path: path::child(directory, marker_name(marker)),
                },
            ),
        ),
    }
}

/// The root of the project that a directory is in: of the directory and those above it, the
/// nearest with a marker.
pub fn find_project_root(start: &str, directories: &Vec<DirectoryMarkers>) -> (r: Result<
    String,
    ProjectDiscoveryError,
>)
    ensures
        match r {
            Ok(root) => root_from(start@, directories@, 0) == Ok::<Seq<char>, DiscoveryFaultV>(
                root@,
            ),
            Err(error) => root_from(start@, directories@, 0) == Err::<Seq<char>, DiscoveryFaultV>(
                error@,
            ),
        },
{
    let mut i: usize = 0;
    while i < directories.len()
        invariant
            i <= directories@.len(),
            root_from(start@, directories@, 0) == root_from(start@, directories@, i as int),
        decreases directories@.len() - i,
    {
        let d = &directories[i];
        let name = d.directory.as_str();
        let git = marker_outcome(RootMarker::Git, d.git, name);
        let description = marker_outcome(RootMarker::Description, d.description, name);
        let lockfile = marker_outcome(RootMarker::Lockfile, d.lockfile, name);
        match (git, description, lockfile) {
            (Some(found), _, _) => {
                return found;
            },
            (None, Some(found), _) => {
                return found;
            },
            (None, None, Some(found)) => {
                return found;
            },
            _ => {},
        }
        i = i + 1;
    }
    Err(ProjectDiscoveryError::RootNotFound { start: start.to_owned() })
}

/// The nearest directory with a marker is the root, whatever the directories above it hold.
pub proof fn nearest_roots_win(
    start: Seq<char>,
    below: Seq<DirectoryMarkers>,
    root: DirectoryMarkers,
    above: Seq<DirectoryMarkers>,
)
    requires
        forall|i: int| 0 <= i < below.len() ==> directory_root(#[trigger] below[i]) is None,
        directory_root(root) is Some,
    ensures
        root_from(start, below.push(root) + above, 0) == directory_root(root)->0,
{
    lemma_root_from(start, below, root, above, 0);
}

proof fn lemma_root_from(
    start: Seq<char>,
    below: Seq<DirectoryMarkers>,
    root: DirectoryMarkers,
    above: Seq<DirectoryMarkers>,
    i: int,
)
    requires
        forall|i: int| 0 <= i < below.len() ==> directory_root(#[trigger] below[i]) is None,
        directory_root(root) is Some,
        0 <= i <= below.len(),
    ensures
        root_from(start, below.push(root) + above, i) == directory_root(root)->0,
    decreases below.len() - i,
{
    let all = below.push(root) + above;
    if i < below.len() {
        assert(all[i] == below[i]);
        lemma_root_from(start, below, root, above, i + 1);
    } else {
        assert(all[i] == root);
    }
}

/// How often a name for a staged file is tried.
pub const STAGING_ATTEMPTS: u32 = 100;

/// The name of the file that stands in for another while it is written.
pub open spec fn staged_name(name: Seq<char>, process: nat, unique: nat) -> Seq<char> {
    "."@ + name + ".rpx-stage-"@ + text::decimal_text(process) + "-"@ + text::decimal_text(unique)
}

/// The name of the file that stands in for another while it is written.
pub fn staged_file_name(name: &str, process: u32, unique: u64) -> (r: String)
    ensures
        r@ == staged_name(name@, process as nat, unique as nat),
{
    let process = text::decimal(process as u64);
    let unique = text::decimal(unique);
    let mut r = text::cat4(".", name, ".rpx-stage-", process.as_str());
    r.push_str("-");
    r.push_str(unique.as_str());
    r
}

/// What is written is never staged under the name of the file itself.
pub proof fn staged_files_have_other_names(name: Seq<char>, process: nat, unique: nat)
    ensures
        staged_name(name, process, unique) != name,
{
    reveal_strlit(".");
    assert(staged_name(name, process, unique).len() > name.len());
}

/// What is said when a project was locked.
pub fn lock_message(changed: bool) -> (r: &'static str)
    ensures
        r@ == if changed {
            "Updated rpx.lock"@
        } else {
            "rpx.lock is already up to date"@
        },
{
    if changed {
        "Updated rpx.lock"
    } else {
        "rpx.lock is already up to date"
    }
}

/// A project: the path of its root and its description.
#[derive(Debug)]
pub struct Project {
    pub root: String,
    pub description: Description,
}

/// Why the packages of a lockfile cannot be had.
#[derive(Debug)]
pub enum LockedPackagesError {
    RepositoryNotFound { package: String, repository: String },
    Repository { package: String, source: RepositoryError },
    InvalidLockedDescription { package: String, details: String },
}

/// The first locked repository at a URL.
pub open spec fn repository_at(repos: Seq<LockedRepositoryV>, url: Seq<char>) -> Option<
    LockedRepositoryV,
>
    decreases repos.len(),
{
    if repos.len() == 0 {
        None
    } else {
        match repository_at(repos.drop_last(), url) {
            Some(repository) => Some(repository),
            None => if locked_url(repos.last()) == url {
                Some(repos.last())
            } else {
                None
            },
        }
    }
}

fn find_repository<'a>(repos: &'a Vec<lockfile::Repository>, url: &str) -> (r: Option<
    &'a lockfile::Repository,
>)
    requires
        forall|i: int| 0 <= i < repos@.len() ==> (#[trigger] repos@[i]).wf(),
    ensures
        match r {
            Some(repository) => repository.wf() && repository_at(locked_views(repos@), url@)
                == Some(repository@),
            None => repository_at(locked_views(repos@), url@) is None,
        },
{
    let ghost all = locked_views(repos@);
    let mut i: usize = 0;
    assert(all.take(0) =~= Seq::<LockedRepositoryV>::empty());
    while i < repos.len()
        invariant
            i <= repos@.len(),
            all == locked_views(repos@),
            forall|k: int| 0 <= k < repos@.len() ==> (#[trigger] repos@[k]).wf(),
            repository_at(all.take(i as int), url@) is None,
        decreases repos@.len() - i,
    {
        assert(all.take(i + 1).drop_last() =~= all.take(i as int));
        assert(all[i as int] == repos@[i as int]@);
        if text::same(repos[i].url(), url) {
            proof {
                lemma_repository_stays(all, url@, i + 1);
            }
            return Some(&repos[i]);
        }
        i = i + 1;
    }
    assert(all.take(i as int) =~= all);
    None
}

proof fn lemma_repository_stays(repos: Seq<LockedRepositoryV>, url: Seq<char>, k: int)
    requires
        0 <= k <= repos.len(),
    ensures
        repository_at(repos.take(k), url) is Some ==> repository_at(repos, url) == repository_at(
            repos.take(k),
            url,
        ),
    decreases repos.len() - k,
{
    if k == repos.len() {
        assert(repos.take(k) =~= repos);
    } else {
        lemma_repository_stays(repos, url, k + 1);
        assert(repos.take(k + 1).drop_last() =~= repos.take(k));
    }
}

proof fn lemma_plain_fields(name: Seq<char>, version: VersionV)
    requires
        valid_package(name),
        version_components(version.text) is Some,
    ensures
        document::plain_fields(locked_fields(name, version.text)),
{
    let given = locked_fields(name, version.text);
    assert forall|i: int| 0 <= i < given.len() implies !(#[trigger] given[i]).1.contains('\n') by {
        if i == 0 && name.contains('\n') {
            let k = choose|k: int| 0 <= k < name.len() && name[k] == '\n';
            assert(!text::is_control(name[k]));
        }
        if i == 1 && version.text.contains('\n') {
            metadata::versions_are_plain(version.text, '\n');
        }
    }
}

/// The fields of the description of a locked package but for its dependencies.
pub open spec fn locked_fields(name: Seq<char>, version: Seq<char>) -> Seq<(Seq<char>, Seq<char>)> {
    seq![("Package"@, name), ("Version"@, version)]
}

/// The description of a locked package: its name, its version and what it needs, under
/// `Depends`; or why it has none.
pub open spec fn locked_document(name: Seq<char>, package: PackageV) -> Result<
    Seq<char>,
    Seq<char>,
> {
    let fields = locked_fields(name, package.version.text);
    if !valid_package(name) {
        Err("invalid package name"@)
    } else {
        match written_document(fields) {
            None => Err(document::refusal(fields)),
            Some(base) => {
                let needed = relation_texts(package.dependencies);
                edited(base, needed, depends_set(base, needed))
            },
        }
    }
}

proof fn lemma_still_empty(before: ParsedFieldV, after: ParsedFieldV)
    ensures
        holds_exactly(before, Seq::empty()) && unchanged(before, after) ==> holds_exactly(
            after,
            Seq::empty(),
        ),
{
    assert(issue_texts(before).len() == before.issues.len());
    assert(issue_texts(after).len() == after.issues.len());
}

/// A description says of a package what is locked of it.
pub open spec fn reads_back(document: Seq<char>, name: Seq<char>, package: PackageV) -> bool {
    &&& field_of(document, "Package"@) matches Some(field) && field.message == name
    &&& field_of(document, "Version"@) matches Some(field) && field.message == package.version.text
    &&& holds_exactly(depends_of(document), relation_texts(package.dependencies))
    &&& holds_exactly(imports_of(document), Seq::empty())
    &&& holds_exactly(linking_to_of(document), Seq::empty())
}

/// The description of a locked package.
pub fn locked_package_description(name: &str, package: &lockfile::Package) -> (r: Result<
    Description,
    LockedPackagesError,
>)
    requires
        package.wf(),
    ensures
        match r {
            Ok(description) => {
                &&& locked_document(name@, package@) == Ok::<Seq<char>, Seq<char>>(description@)
                &&& fits(description@)
                &&& reads_back(description@, name@, package@)
            },
            Err(error) => error matches LockedPackagesError::InvalidLockedDescription {
                package: named,
                details,
            } && named@ == name@ && locked_document(name@, package@) == Err::<
                Seq<char>,
                Seq<char>,
            >(details@),
        },
{
    if !metadata::is_valid_package(name) {
        return Err(
            LockedPackagesError::InvalidLockedDescription {
                package: name.to_owned(),
                details: "invalid package name".to_owned(),
            },
        );
    }
    let mut fields: Vec<(String, String)> = Vec::new();
    fields.push(("Package".to_owned(), name.to_owned()));
    fields.push(("Version".to_owned(), package.version.text.clone()));
    assert(document::pair_views(fields@) =~= locked_fields(name@, package@.version.text));
    if !document::fields_room(&fields) {
        return Err(
            LockedPackagesError::InvalidLockedDescription {
                package: name.to_owned(),
                details: "DESCRIPTION is too large to write".to_owned(),
            },
        );
    }
    let base = match document::build(&fields) {
        Ok(base) => base,
        Err(details) => {
            return Err(
                LockedPackagesError::InvalidLockedDescription { package: name.to_owned(), details },
            );
        },
    };
    proof {
        let given = locked_fields(name@, package@.version.text);
        lemma_plain_fields(name@, package@.version);
        assert(document::is_last_of_name(given, 1));
        assert(document::is_last_of_name(given, 0)) by {
            reveal_strlit("Package");
            reveal_strlit("Version");
            assert("Package"@[0] != "Version"@[0]);
        }
        assert(given[0].0 == "Package"@ && given[1].0 == "Version"@);
        assert(!document::names_field(given, "Imports"@) && !document::names_field(
            given,
            "LinkingTo"@,
        )) by {
            reveal_strlit("Package");
            reveal_strlit("Version");
            reveal_strlit("Imports");
            reveal_strlit("LinkingTo");
            assert("Package"@[0] != "Imports"@[0] && "Version"@[0] != "Imports"@[0]);
            assert("Package"@[0] != "LinkingTo"@[0] && "Version"@[0] != "LinkingTo"@[0]);
        }
    }
    let needed = crate::description::render(&package.dependencies);
    if !document::has_room(base.as_str(), &needed) {
        return Err(
            LockedPackagesError::InvalidLockedDescription {
                package: name.to_owned(),
                details: "DESCRIPTION is too large to edit".to_owned(),
            },
        );
    }
    match document::set_depends(base.as_str(), &needed) {
        Ok(output) => {
            proof {
                lemma_still_empty(imports_of(base@), imports_of(output@));
                lemma_still_empty(linking_to_of(base@), linking_to_of(output@));
                reveal_strlit("Package");
                reveal_strlit("Version");
                reveal_strlit("Depends");
                assert("Package"@[0] != "Depends"@[0] && "Version"@[0] != "Depends"@[0]);
                assert(document::same_value(base@, output@, "Package"@));
                assert(document::same_value(base@, output@, "Version"@));
            }
            Ok(Description { text: output })
        },
        Err(details) => Err(
            LockedPackagesError::InvalidLockedDescription { package: name.to_owned(), details },
        ),
    }
}

/// Why the packages of a lockfile cannot be had.
pub enum LockFaultV {
    RepositoryNotFound(Seq<char>, Seq<char>),
    Repository(Seq<char>, RepositoryErrorV),
    InvalidDescription(Seq<char>, Seq<char>),
}

impl LockedPackagesError {
    /// The error, as characters.
    pub open spec fn view(&self) -> LockFaultV {
        match self {
            LockedPackagesError::RepositoryNotFound { package, repository } => {
                LockFaultV::RepositoryNotFound(package@, repository@)
            },
            LockedPackagesError::Repository { package, source } => LockFaultV::Repository(
                package@,
                source@,
            ),
            LockedPackagesError::InvalidLockedDescription { package, details } => {
                LockFaultV::InvalidDescription(package@, details@)
            },
        }
    }
}

/// A locked package as a package that a project needs, or why it cannot be had.
pub open spec fn locked_package_of(
    repos: Seq<LockedRepositoryV>,
    name: Seq<char>,
    package: PackageV,
) -> Result<RequiredV, LockFaultV> {
    match repository_at(repos, package.repository) {
        None => Err(LockFaultV::RepositoryNotFound(name, package.repository)),
        Some(repository) => match unlocked(repository) {
            Err(error) => Err(LockFaultV::Repository(name, error)),
            Ok(repository) => match locked_document(name, package) {
                Err(details) => Err(LockFaultV::InvalidDescription(name, details)),
                Ok(description) => Ok(
                    RequiredV {
                        version: PackageVersionV { version: package.version, repository },
                        description,
                    },
                ),
            },
        },
    }
}

/// The packages of a lockfile, or why the first that cannot be had cannot be.
pub open spec fn locked_packages_of(
    repos: Seq<LockedRepositoryV>,
    names: Seq<Seq<char>>,
    packages: Seq<PackageV>,
) -> Result<Seq<RequiredV>, LockFaultV>
    decreases names.len(),
{
    if names.len() == 0 {
        Ok(Seq::empty())
    } else {
        match locked_packages_of(repos, names.drop_last(), packages.drop_last()) {
            Err(fault) => Err(fault),
            Ok(list) => match locked_package_of(repos, names.last(), packages.last()) {
                Err(fault) => Err(fault),
                Ok(package) => Ok(list.push(package)),
            },
        }
    }
}

proof fn lemma_lock_fault_stays(
    repos: Seq<LockedRepositoryV>,
    names: Seq<Seq<char>>,
    packages: Seq<PackageV>,
    k: int,
)
    requires
        names.len() == packages.len(),
        0 <= k <= names.len(),
    ensures
        locked_packages_of(repos, names.take(k), packages.take(k)) is Err ==> locked_packages_of(
            repos,
            names,
            packages,
        ) == locked_packages_of(repos, names.take(k), packages.take(k)),
    decreases names.len() - k,
{
    if k == names.len() {
        assert(names.take(k) =~= names);
        assert(packages.take(k) =~= packages);
    } else {
        lemma_lock_fault_stays(repos, names, packages, k + 1);
        assert(names.take(k + 1).drop_last() =~= names.take(k));
        assert(packages.take(k + 1).drop_last() =~= packages.take(k));
    }
}

fn required_package(
    repos: &Vec<lockfile::Repository>,
    name: &String,
    package: &lockfile::Package,
) -> (r: Result<RequiredPackage, LockedPackagesError>)
    requires
        forall|i: int| 0 <= i < repos@.len() ==> (#[trigger] repos@[i]).wf(),
        package.wf(),
    ensures
        match r {
            Ok(required) => {
                &&& required.version.wf()
                &&& fits(required.description@)
                &&& reads_back(required.description@, name@, package@)
                &&& locked_package_of(locked_views(repos@), name@, package@) == Ok::<
                    RequiredV,
                    LockFaultV,
                >(required@)
            },
            Err(error) => locked_package_of(locked_views(repos@), name@, package@) == Err::<
                RequiredV,
                LockFaultV,
            >(error@),
        },
{
    let repository = match find_repository(repos, package.repository.as_str()) {
        Some(repository) => repository,
        None => {
            return Err(
                LockedPackagesError::RepositoryNotFound {
                    package: name.clone(),
                    repository: package.repository.clone(),
                },
            );
        },
    };
    let repository = match PackageRepository::from_lockfile(repository) {
        Ok(repository) => repository,
        Err(source) => {
            return Err(LockedPackagesError::Repository { package: name.clone(), source });
        },
    };
    let description = match locked_package_description(name.as_str(), package) {
        Ok(description) => description,
        Err(error) => {
            return Err(error);
        },
    };
    let version = PackageVersion::new(package.version.copy(), repository);
    Ok(RequiredPackage { version, description })
}

/// The packages of a lockfile as packages that a project needs: each from the first
/// repository of the lockfile at its URL, with a description that says what is locked of it.
pub fn required_packages_from_lockfile(lockfile: &Lockfile) -> (r: Result<
    TextMap<RequiredPackage>,
    LockedPackagesError,
>)
    requires
        lockfile.wf(),
    ensures
        match r {
            Ok(required) => {
                &&& required_wf(&required)
                &&& texts(required.keys@) == lockfile@.packages.0
                &&& locked_packages_of(
                    lockfile@.repos,
                    lockfile@.packages.0,
                    lockfile@.packages.1,
                ) == Ok::<Seq<RequiredV>, LockFaultV>(required_views(required.values@))
                &&& forall|i: int|
                    0 <= i < required.values@.len() ==> reads_back(
                        (#[trigger] required.values@[i]).description@,
                        lockfile@.packages.0[i],
                        lockfile@.packages.1[i],
                    )
            },
            Err(error) => locked_packages_of(
                lockfile@.repos,
                lockfile@.packages.0,
                lockfile@.packages.1,
            ) == Err::<Seq<RequiredV>, LockFaultV>(error@),
        },
{
    let ghost repos = lockfile@.repos;
    let ghost names = lockfile@.packages.0;
    let ghost packages = lockfile@.packages.1;
    let mut keys: Vec<String> = Vec::new();
    let mut values: Vec<RequiredPackage> = Vec::new();
    let mut i: usize = 0;
    proof {
        assert(texts(keys@) =~= names.take(0));
        assert(required_views(values@) =~= Seq::<RequiredV>::empty());
    }
    while i < lockfile.packages.keys.len()
        invariant
            i <= lockfile.packages.keys@.len(),
            lockfile.wf(),
            repos == lockfile@.repos,
            names == lockfile@.packages.0,
            packages == lockfile@.packages.1,
            names.len() == packages.len(),
            keys@.len() == i,
            values@.len() == i,
            texts(keys@) == names.take(i as int),
            locked_packages_of(repos, names.take(i as int), packages.take(i as int)) == Ok::<
                Seq<RequiredV>,
                LockFaultV,
            >(required_views(values@)),
            forall|k: int|
                0 <= k < values@.len() ==> (#[trigger] values@[k]).version.wf() && fits(
                    values@[k].description@,
                ) && reads_back(values@[k].description@, names[k], packages[k]),
        decreases lockfile.packages.keys@.len() - i,
    {
        let name = &lockfile.packages.keys[i];
        let package = &lockfile.packages.values[i];
        proof {
            assert(names.take(i + 1).drop_last() =~= names.take(i as int));
            assert(packages.take(i + 1).drop_last() =~= packages.take(i as int));
            assert(names[i as int] == name@);
            assert(packages[i as int] == package@);
            assert(lockfile.packages.values@[i as int].wf());
            lemma_lock_fault_stays(repos, names, packages, i + 1);
        }
        match required_package(&lockfile.repos, name, package) {
            Ok(required) => {
                let ghost before = values@;
                let ghost listed = keys@;
                values.push(required);
                keys.push(name.clone());
                assert(required_views(values@) =~= required_views(before).push(required@));
                assert(texts(keys@) =~= texts(listed).push(name@));
                assert(names.take(i + 1) =~= names.take(i as int).push(names[i as int]));
            },
            Err(error) => {
                return Err(error);
            },
        }
        i = i + 1;
    }
    assert(names.take(i as int) =~= names);
    assert(packages.take(i as int) =~= packages);
    Ok(TextMap { keys, values })
}

/// Whether a locked repository is the one that a project names, or why that cannot be told.
pub open spec fn repository_matches(locked: LockedRepositoryV, configured: ConfiguredV) -> Result<
    bool,
    RepositoryErrorV,
> {
    match configured {
        ConfiguredV::Base(url) => Ok(!(locked is Git) && locked_url(locked) == url),
        ConfiguredV::Additional(url) => Ok(!(locked is Git) && locked_url(locked) == url),
        ConfiguredV::Git(remote) => match git_repository_of(remote) {
            Err(error) => Err(error),
            Ok(current) => if locked is Git {
                match unlocked(locked) {
                    Err(error) => Err(error),
                    Ok(former) => Ok(same_repository(former, RepositoryV::Git(current))),
                }
            } else {
                Ok(false)
            },
        },
    }
}

/// Whether a locked repository is the one that a project names.
pub fn matches_configuration(locked: &lockfile::Repository, configured: &ConfiguredRepository) -> (r:
    Result<bool, RepositoryError>)
    requires
        locked.wf(),
    ensures
        match r {
            Ok(same) => repository_matches(locked@, configured@) == Ok::<bool, RepositoryErrorV>(
                same,
            ),
            Err(error) => repository_matches(locked@, configured@) == Err::<
                bool,
                RepositoryErrorV,
            >(error@),
        },
{
    let is_git = match locked {
        lockfile::Repository::Git { .. } => true,
        _ => false,
    };
    match configured {
        ConfiguredRepository::Base(url) => Ok(!is_git && text::same(locked.url(), url.as_str())),
        ConfiguredRepository::Additional(url) => Ok(
            !is_git && text::same(locked.url(), url.as_str()),
        ),
        ConfiguredRepository::Git(remote) => {
            let current = match GitRepository::new(remote) {
                Ok(current) => current,
                Err(error) => {
                    return Err(error);
                },
            };
            if !is_git {
                return Ok(false);
            }
            match PackageRepository::from_lockfile(locked) {
                Ok(former) => Ok(former.equals(&PackageRepository::Git(current))),
                Err(error) => Err(error),
            }
        },
    }
}

/// What in a lockfile no longer fits a project.
#[derive(Debug)]
pub enum LockedResolutionFailure {
    InvalidRepository { index: usize, repository: String, source: RepositoryError },
    RepositoriesChanged,
    PackageRequirementsChanged,
    RVersionChanged { locked: RVersion, current: RVersion },
}

/// What in a lockfile no longer fits a project.
pub enum FailureV {
    InvalidRepository(int, Seq<char>, RepositoryErrorV),
    RepositoriesChanged,
    PackageRequirementsChanged,
    RVersionChanged(Seq<char>, Seq<char>),
}

impl LockedResolutionFailure {
    /// The failure, as characters.
    pub open spec fn view(&self) -> FailureV {
        match self {
            LockedResolutionFailure::InvalidRepository { index, repository, source } => {
                FailureV::InvalidRepository(*index as int, repository@, source@)
            },
            LockedResolutionFailure::RepositoriesChanged => FailureV::RepositoriesChanged,
            LockedResolutionFailure::PackageRequirementsChanged => {
                FailureV::PackageRequirementsChanged
            },
            LockedResolutionFailure::RVersionChanged { locked, current } => {
                FailureV::RVersionChanged(locked@, current@)
            },
        }
    }
}

/// The failures of a list.
pub open spec fn failure_views(v: Seq<LockedResolutionFailure>) -> Seq<FailureV> {
    v.map_values(|x: LockedResolutionFailure| x@)
}

/// The locked repositories that cannot be compared with those of the project, among the
/// first `n`.
pub open spec fn invalid_repositories(
    locked: Seq<LockedRepositoryV>,
    configured: Seq<ConfiguredV>,
    n: int,
) -> Seq<FailureV>
    decreases n,
{
    if n <= 0 {
        Seq::empty()
    } else {
        let rest = invalid_repositories(locked, configured, n - 1);
        match repository_matches(locked[n - 1], configured[n - 1]) {
            Ok(_) => rest,
            Err(error) => rest.push(
                FailureV::InvalidRepository(n - 1, locked_url(locked[n - 1]), error),
            ),
        }
    }
}

/// Some locked repository among the first `n` is another one than that of the project.
pub open spec fn some_differ(
    locked: Seq<LockedRepositoryV>,
    configured: Seq<ConfiguredV>,
    n: int,
) -> bool {
    exists|i: int|
        0 <= i < n && #[trigger] repository_matches(locked[i], configured[i]) == Ok::<
            bool,
            RepositoryErrorV,
        >(false)
}

/// The number of repositories that have a counterpart.
pub open spec fn paired(locked: Seq<LockedRepositoryV>, configured: Seq<ConfiguredV>) -> int {
    if locked.len() < configured.len() {
        locked.len() as int
    } else {
        configured.len() as int
    }
}

/// All that no longer fits: repositories that cannot be compared, then whether repositories
/// have changed, whether the needed packages have, and whether R has.
pub open spec fn validation_failures(
    configured: Seq<ConfiguredV>,
    needed: Seq<RelationV>,
    r_version: Seq<char>,
    lockfile: LockfileV,
) -> Seq<FailureV> {
    let n = paired(lockfile.repos, configured);
    let first = invalid_repositories(lockfile.repos, configured, n);
    let second = if lockfile.repos.len() != configured.len() || some_differ(
        lockfile.repos,
        configured,
        n,
    ) {
        first.push(FailureV::RepositoriesChanged)
    } else {
        first
    };
    let third = if tied(lockfile.requirements, needed) {
        second
    } else {
        second.push(FailureV::PackageRequirementsChanged)
    };
    if lockfile.r == r_version {
        third
    } else {
        third.push(FailureV::RVersionChanged(lockfile.r, r_version))
    }
}

/// The packages that a document asks for, R left out.
pub open spec fn needed_packages(document: Seq<char>) -> Seq<RelationV> {
    dropped(collected(all_relations(project_fields(document))), r_only())
}

/// Why a lockfile cannot be used.
#[derive(Debug)]
pub enum LockedResolutionError {
    Parse(DescriptionParseError),
    Validation { failures: Vec<LockedResolutionFailure> },
}

/// Checks that a lockfile still fits the description of a project and the version of R.
#[verifier::rlimit(40)]
pub fn validate_locked_resolution(
    source_name: String,
    description: &Description,
    r_version: &RVersion,
    lockfile: &Lockfile,
) -> (r: Result<(), LockedResolutionError>)
    requires
        fits(description@),
        lockfile.wf(),
    ensures
        match r {
            Err(LockedResolutionError::Parse(error)) => {
                &&& error.wf()
                &&& error@.source_name == source_name@
                &&& error@.source_code == description@
                &&& if configuration_issues(description@).len() > 0 {
                    error@.issues == configuration_issues(description@)
                } else {
                    relation_issues(project_fields(description@)).len() > 0 && error@.issues
                        == relation_issues(project_fields(description@))
                }
            },
            Err(LockedResolutionError::Validation { failures }) => {
                &&& configuration_issues(description@).len() == 0
                &&& relation_issues(project_fields(description@)).len() == 0
                &&& failures@.len() > 0
                &&& failure_views(failures@) == validation_failures(
                    configuration(description@),
                    needed_packages(description@),
                    r_version@,
                    lockfile@,
                )
            },
            Ok(_) => {
                &&& configuration_issues(description@).len() == 0
                &&& relation_issues(project_fields(description@)).len() == 0
                &&& validation_failures(
                    configuration(description@),
                    needed_packages(description@),
                    r_version@,
                    lockfile@,
                ).len() == 0
            },
        },
{
    let configured = match configured_repositories(source_name.clone(), description) {
        Ok(configured) => configured,
        Err(error) => {
            return Err(LockedResolutionError::Parse(error));
        },
    };
    let ghost locked = lockfile@.repos;
    let ghost named = configured_views(configured@);
    let mut failures: Vec<LockedResolutionFailure> = Vec::new();
    let mut changed = lockfile.repos.len() != configured.len();
    let mut i: usize = 0;
    assert(failure_views(failures@) =~= Seq::<FailureV>::empty());
    while i < lockfile.repos.len() && i < configured.len()
        invariant
            i <= lockfile.repos@.len(),
            i <= configured@.len(),
            lockfile.wf(),
            locked == lockfile@.repos,
            named == configured_views(configured@),
            failure_views(failures@) == invalid_repositories(locked, named, i as int),
            changed == (lockfile.repos@.len() != configured@.len() || some_differ(
                locked,
                named,
                i as int,
            )),
        decreases lockfile.repos@.len() - i,
    {
        let repository = &lockfile.repos[i];
        assert(locked[i as int] == repository@);
        assert(named[i as int] == configured@[i as int]@);
        assert(lockfile.repos@[i as int].wf());
        let ghost outcome = repository_matches(locked[i as int], named[i as int]);
        match matches_configuration(repository, &configured[i]) {
            Ok(same) => {
                if !same {
                    changed = true;
                    assert(some_differ(locked, named, i + 1)) by {
                        assert(outcome == Ok::<bool, RepositoryErrorV>(false));
                    }
                }
            },
            Err(source) => {
                let ghost before = failures@;
                let failure = LockedResolutionFailure::InvalidRepository {
                    index: i,
                    repository: repository.url().to_owned(),
                    source,
                };
                failures.push(failure);
                assert(failure_views(failures@) =~= failure_views(before).push(failure@));
            },
        }
        proof {
            if some_differ(locked, named, i as int) {
                let k = choose|k: int|
                    0 <= k < i && #[trigger] repository_matches(locked[k], named[k]) == Ok::<
                        bool,
                        RepositoryErrorV,
                    >(false);
                assert(some_differ(locked, named, i + 1)) by {
                    assert(repository_matches(locked[k], named[k]) == Ok::<
                        bool,
                        RepositoryErrorV,
                    >(false));
                }
            }
        }
        i = i + 1;
    }
    assert(i == paired(locked, named));
    let needed = match project_dependencies(source_name, description) {
        Ok(needed) => needed,
        Err(error) => {
            return Err(LockedResolutionError::Parse(error));
        },
    };
    let ghost first = failure_views(failures@);
    if changed {
        let ghost before = failures@;
        failures.push(LockedResolutionFailure::RepositoriesChanged);
        assert(failure_views(failures@) =~= failure_views(before).push(
            FailureV::RepositoriesChanged,
        ));
    }
    if !lockfile.requirements.same(&needed) {
        let ghost before = failures@;
        failures.push(LockedResolutionFailure::PackageRequirementsChanged);
        assert(failure_views(failures@) =~= failure_views(before).push(
            FailureV::PackageRequirementsChanged,
        ));
    }
    if !lockfile.r.same(r_version) {
        let ghost before = failures@;
        let failure = LockedResolutionFailure::RVersionChanged {
            locked: lockfile.r.copy(),
            current: r_version.copy(),
        };
        failures.push(failure);
        assert(failure_views(failures@) =~= failure_views(before).push(failure@));
    }
    assert(failure_views(failures@).len() == failures@.len());
    if failures.len() == 0 {
        Ok(())
    } else {
        Err(LockedResolutionError::Validation { failures })
    }
}

/// Where all markers can be looked at, a directory is the root of a project exactly if it holds
/// something called `.git`, or a file called `DESCRIPTION` or `rpx.lock`.
pub proof fn roots_are_marked(d: DirectoryMarkers)
    requires
        !(d.git is Unreadable),
        !(d.description is Unreadable),
        !(d.lockfile is Unreadable),
    ensures
        directory_root(d) == if d.git is File || d.git is Other || d.description is File
            || d.lockfile is File {
            Some(Ok::<Seq<char>, DiscoveryFaultV>(d.directory@))
        } else {
            None
        },
{
}

/// The repository at a URL is the first that is locked with it.
pub proof fn repositories_are_found_by_url(repos: Seq<LockedRepositoryV>, url: Seq<char>, i: int)
    ensures
        0 <= i < repos.len() && locked_url(repos[i]) == url && (forall|j: int|
            0 <= j < i ==> locked_url(#[trigger] repos[j]) != url) ==> repository_at(repos, url)
            == Some(repos[i]),
        (forall|j: int| 0 <= j < repos.len() ==> locked_url(#[trigger] repos[j]) != url)
            <==> repository_at(repos, url) is None,
    decreases repos.len(),
{
    if repos.len() > 0 {
        let t = repos.drop_last();
        repositories_are_found_by_url(t, url, i);
        assert forall|j: int| 0 <= j < t.len() implies t[j] == #[trigger] repos[j] by {}
        assert(repos[repos.len() - 1] == repos.last());
        if forall|j: int| 0 <= j < repos.len() ==> locked_url(#[trigger] repos[j]) != url {
            assert forall|j: int| 0 <= j < t.len() implies locked_url(#[trigger] t[j]) != url by {
                assert(t[j] == repos[j]);
            }
        }
        if repository_at(repos, url) is None {
            assert forall|j: int| 0 <= j < repos.len() implies locked_url(#[trigger] repos[j])
                != url by {
                if j < t.len() {
                    assert(t[j] == repos[j]);
                }
            }
        }
        if 0 <= i < repos.len() && locked_url(repos[i]) == url && (forall|j: int|
            0 <= j < i ==> locked_url(#[trigger] repos[j]) != url) {
            if i < t.len() {
                assert(t[i] == repos[i]);
            }
            assert forall|j: int| 0 <= j < i && j < t.len() implies locked_url(#[trigger] t[j])
                != url by {
                assert(t[j] == repos[j]);
            }
        }
    }
}

/// Each package of a lockfile is taken in its locked version, from the repository that it was
/// locked with.
pub proof fn locked_packages_are_taken_as_locked(
    repos: Seq<LockedRepositoryV>,
    names: Seq<Seq<char>>,
    packages: Seq<PackageV>,
    i: int,
)
    requires
        names.len() == packages.len(),
    ensures
        locked_packages_of(repos, names, packages) matches Ok(list) ==> list.len() == names.len()
            && (0 <= i < names.len() ==> {
            &&& list[i].version.version == packages[i].version
            &&& repository_at(repos, packages[i].repository) matches Some(repository) && unlocked(
                repository,
            ) == Ok::<RepositoryV, RepositoryErrorV>(list[i].version.repository)
            &&& locked_document(names[i], packages[i]) == Ok::<Seq<char>, Seq<char>>(
                list[i].description,
            )
        }),
    decreases names.len(),
{
    if names.len() > 0 {
        locked_packages_are_taken_as_locked(repos, names.drop_last(), packages.drop_last(), i);
    }
}

proof fn lemma_invalid(locked: Seq<LockedRepositoryV>, configured: Seq<ConfiguredV>, n: int)
    ensures
        invalid_repositories(locked, configured, n).len() == 0 <==> forall|i: int|
            0 <= i < n ==> (#[trigger] repository_matches(locked[i], configured[i])) is Ok,
        forall|k: int|
            0 <= k < invalid_repositories(locked, configured, n).len() ==> (
            #[trigger] invalid_repositories(locked, configured, n)[k]) is InvalidRepository,
    decreases n,
{
    if n > 0 {
        lemma_invalid(locked, configured, n - 1);
        let rest = invalid_repositories(locked, configured, n - 1);
        let all = invalid_repositories(locked, configured, n);
        assert forall|k: int| 0 <= k < all.len() implies (#[trigger] all[k]) is InvalidRepository by {
            if k < rest.len() {
                assert(all[k] == rest[k]);
            }
        }
        if forall|i: int|
            0 <= i < n ==> (#[trigger] repository_matches(locked[i], configured[i])) is Ok {
            assert(repository_matches(locked[n - 1], configured[n - 1]) is Ok);
        }
    }
}

/// A lockfile is valid exactly if its repositories are those of the project, one by one, its
/// requirements those of the project, and its version of R the one that is there.
pub proof fn valid_lockfiles_match_the_project(
    configured: Seq<ConfiguredV>,
    needed: Seq<RelationV>,
    r_version: Seq<char>,
    lockfile: LockfileV,
)
    ensures
        validation_failures(configured, needed, r_version, lockfile).len() == 0 <==> {
            &&& lockfile.repos.len() == configured.len()
            &&& forall|i: int|
                0 <= i < configured.len() ==> (#[trigger] repository_matches(
                    lockfile.repos[i],
                    configured[i],
                )) == Ok::<bool, RepositoryErrorV>(true)
            &&& tied(lockfile.requirements, needed)
            &&& lockfile.r == r_version
        },
        validation_failures(configured, needed, r_version, lockfile).contains(
            FailureV::RVersionChanged(lockfile.r, r_version),
        ) <==> lockfile.r != r_version,
        validation_failures(configured, needed, r_version, lockfile).contains(
            FailureV::PackageRequirementsChanged,
        ) <==> !tied(lockfile.requirements, needed),
{
    let n = paired(lockfile.repos, configured);
    let first = invalid_repositories(lockfile.repos, configured, n);
    lemma_invalid(lockfile.repos, configured, n);
    let all = validation_failures(configured, needed, r_version, lockfile);
    if all.len() == 0 {
        assert forall|i: int| 0 <= i < configured.len() implies (#[trigger] repository_matches(
            lockfile.repos[i],
            configured[i],
        )) == Ok::<bool, RepositoryErrorV>(true) by {
            assert(repository_matches(lockfile.repos[i], configured[i]) is Ok);
        }
    }
    let second = if lockfile.repos.len() != configured.len() || some_differ(
        lockfile.repos,
        configured,
        n,
    ) {
        first.push(FailureV::RepositoriesChanged)
    } else {
        first
    };
    let changed = FailureV::RVersionChanged(lockfile.r, r_version);
    let needs = FailureV::PackageRequirementsChanged;
    assert forall|k: int| 0 <= k < second.len() implies (#[trigger] second[k]) != changed
        && second[k] != needs by {
        if k < first.len() {
            assert(second[k] == first[k]);
        }
    }
    if all.contains(changed) {
        let k = choose|k: int| 0 <= k < all.len() && all[k] == changed;
        if k < second.len() {
            assert(all[k] == second[k]);
        }
    }
    if lockfile.r != r_version {
        assert(all[all.len() - 1] == changed);
    }
    if all.contains(needs) {
        let k = choose|k: int| 0 <= k < all.len() && all[k] == needs;
        if k < second.len() {
            assert(all[k] == second[k]);
        }
    }
    if !tied(lockfile.requirements, needed) {
        assert(all[second.len() as int] == needs);
    }
}

/// A repository of a registry is still the same exactly if its URL is; one of a registry and
/// one of Git are never the same.
pub proof fn registries_match_by_url(locked: LockedRepositoryV, url: Seq<char>)
    ensures
        repository_matches(locked, ConfiguredV::Base(url)) == Ok::<bool, RepositoryErrorV>(
            !(locked is Git) && locked_url(locked) == url,
        ),
        repository_matches(locked, ConfiguredV::Additional(url)) == repository_matches(
            locked,
            ConfiguredV::Base(url),
        ),
{
}

/// The requirements of a project are the relations of its fields `Imports`, `Depends`,
/// `LinkingTo` and `Suggests`, those to R left out.
pub proof fn requirements_come_from_all_fields(document: Seq<char>, relation: RelationV)
    ensures
        needed_packages(document).contains(relation) ==> relation.package != "R"@ && (
        crate::description::is_entry(imports_of(document), relation)
            || crate::description::is_entry(depends_of(document), relation)
            || crate::description::is_entry(linking_to_of(document), relation)
            || crate::description::is_entry(suggests_of(document), relation)),
        relation.package != "R"@ && (crate::description::is_entry(imports_of(document), relation)
            || crate::description::is_entry(depends_of(document), relation)
            || crate::description::is_entry(linking_to_of(document), relation)
            || crate::description::is_entry(suggests_of(document), relation))
            ==> crate::order::has_equal(needed_packages(document), relation),
{
    crate::description::project_relations_are_entries(document, relation);
}

} // verus!
