//! Lockfiles as plain texts, which a document format can carry.
use crate::git::{full_oid, is_oid, is_short_oid, GitOid};
use crate::lockfile::{
    package_views, ArchiveSupport, GitReference, LockedRepositoryV, Lockfile,
    LockfileV, Package, PackageV, Repository, SystemRequirements,
};
use crate::lockfile::{locked_views, set_views};
use crate::metadata::{
    parsed_relation, relation_text, valid_relation, version_components, Relation, RelationV,
    Version, VersionV,
};
use crate::order::{has_equal, increasing, keys, Order, Ordered, Total};
use crate::r::{parsed_semver, RVersion};
use crate::repository::{parse_repository_url, repository_url_of};
use crate::sorted::{lemma_rank, replaced, SortedSet, TextMap};
use crate::text;
use crate::text::{lowered, opt_text, texts};
use vstd::prelude::*;

verus! {

/// A text of a lockfile that cannot be read.
#[derive(Debug)]
pub enum WireFault {
    R { text: String },
    Commit { text: String },
    Url { text: String },
    Relation { text: String },
    Version { text: String },
}

/// A text of a lockfile that cannot be read.
pub enum WireFaultV {
    R(Seq<char>),
    Commit(Seq<char>),
    Url(Seq<char>),
    Relation(Seq<char>),
    Version(Seq<char>),
}

impl WireFault {
    /// The fault, as characters.
    pub open spec fn view(&self) -> WireFaultV {
        match self {
            WireFault::R { text } => WireFaultV::R(text@),
            WireFault::Commit { text } => WireFaultV::Commit(text@),
            WireFault::Url { text } => WireFaultV::Url(text@),
            WireFault::Relation { text } => WireFaultV::Relation(text@),
            WireFault::Version { text } => WireFaultV::Version(text@),
        }
    }
}

/// The relations that texts spell, in order, of equal ones the last; or the first text that
/// spells none.
pub open spec fn read_relations(list: Seq<Seq<char>>) -> Result<Seq<RelationV>, WireFaultV>
    decreases list.len(),
{
    if list.len() == 0 {
        Ok(Seq::empty())
    } else {
        match read_relations(list.drop_last()) {
            Err(fault) => Err(fault),
            Ok(rest) => match parsed_relation(list.last()) {
                Err(_) => Err(WireFaultV::Relation(list.last())),
                Ok(parts) => Ok(
                    replaced(rest, RelationV { package: parts.0, requirement: parts.1 }),
                ),
            },
        }
    }
}

/// The spellings of relations.
pub open spec fn spelled(relations: Seq<RelationV>) -> Seq<Seq<char>> {
    relations.map_values(|r: RelationV| relation_text(r))
}

/// The relations of an ordered list can be spelled.
#[verifier::opaque]
pub open spec fn can_be_spelled(relations: Seq<RelationV>) -> bool {
    increasing(relations) && forall|i: int|
        0 <= i < relations.len() ==> valid_relation(#[trigger] relations[i])
}

proof fn lemma_read_fault_stays(list: Seq<Seq<char>>, k: int)
    requires
        0 <= k <= list.len(),
    ensures
        read_relations(list.take(k)) is Err ==> read_relations(list) == read_relations(
            list.take(k),
        ),
    decreases list.len() - k,
{
    if k == list.len() {
        assert(list.take(k) =~= list);
    } else {
        lemma_read_fault_stays(list, k + 1);
        assert(list.take(k + 1).drop_last() =~= list.take(k));
    }
}

/// A value above all others of a list is put at its end.
proof fn lemma_replaced_above<K: Total>(s: Seq<K>, x: K)
    requires
        forall|i: int| 0 <= i < s.len() ==> (#[trigger] s[i]).order(x) == Order::Less,
    ensures
        replaced(s, x) == s.push(x),
{
    lemma_rank(s, x, s.len() as int);
    assert(!has_equal(s, x));
    assert(s.insert(s.len() as int, x) =~= s.push(x));
}

proof fn lemma_spelled_at(v: Seq<RelationV>, list: Seq<Seq<char>>, i: int)
    requires
        can_be_spelled(v),
        spelled(v) == list,
        0 <= i < list.len(),
    ensures
        v.len() == list.len(),
        valid_relation(v[i]),
        relation_text(v[i]) == list[i],
{
    reveal(can_be_spelled);
    assert(spelled(v)[i] == relation_text(v[i]));
}

proof fn lemma_spelled_next(v: Seq<RelationV>, list: Seq<Seq<char>>, i: int)
    requires
        can_be_spelled(v),
        spelled(v) == list,
        0 <= i < list.len(),
    ensures
        replaced(v.take(i), v[i]) == v.take(i + 1),
{
    reveal(can_be_spelled);
    let before = v.take(i);
    assert forall|k: int| 0 <= k < before.len() implies (#[trigger] before[k]).order(v[i])
        == Order::Less by {
        assert(v[k].order(v[i]) == Order::Less);
    }
    lemma_replaced_above(before, v[i]);
    assert(v.take(i + 1) =~= before.push(v[i]));
}

/// Reads relations. The spellings of relations that are in order are read back as these.
pub fn relations_from_texts(list: &Vec<String>) -> (r: Result<SortedSet<Relation>, WireFault>)
    ensures
        match r {
            Ok(set) => set.wf() && read_relations(texts(list@)) == Ok::<
                Seq<RelationV>,
                WireFaultV,
            >(set@),
            Err(fault) => read_relations(texts(list@)) == Err::<Seq<RelationV>, WireFaultV>(fault@),
        },
        forall|v: Seq<RelationV>|
            can_be_spelled(v) && #[trigger] spelled(v) == texts(list@) ==> r is Ok && r->Ok_0@ == v,
{
    let ghost all = texts(list@);
    let mut set: SortedSet<Relation> = SortedSet::new();
    let mut i: usize = 0;
    proof {
        assert(all.take(0) =~= Seq::<Seq<char>>::empty());
        assert forall|v: Seq<RelationV>| can_be_spelled(v) && #[trigger] spelled(v) == all implies set@
            == v.take(0) by {
            assert(v.take(0) =~= Seq::<RelationV>::empty());
        }
    }
    while i < list.len()
        invariant
            i <= list@.len(),
            all == texts(list@),
            set.wf(),
            read_relations(all.take(i as int)) == Ok::<Seq<RelationV>, WireFaultV>(set@),
            forall|v: Seq<RelationV>|
                can_be_spelled(v) && #[trigger] spelled(v) == all ==> set@ == v.take(i as int),
        decreases list@.len() - i,
    {
        proof {
            assert(all.take(i + 1).drop_last() =~= all.take(i as int));
            assert(all[i as int] == list@[i as int]@);
            lemma_read_fault_stays(all, i + 1);
        }
        match Relation::parse(list[i].as_str()) {
            Ok(relation) => {
                let ghost before = set@;
                proof {
                    assert forall|v: Seq<RelationV>|
                        can_be_spelled(v) && #[trigger] spelled(v) == all implies replaced(
                        before,
                        relation@,
                    ) == v.take(i + 1) by {
                        lemma_spelled_at(v, all, i as int);
                        assert(relation@ == v[i as int]);
                        lemma_spelled_next(v, all, i as int);
                    }
                }
                set.replace(relation);
            },
            Err(_) => {
                proof {
                    assert forall|v: Seq<RelationV>|
                        can_be_spelled(v) && #[trigger] spelled(v) == all implies false by {
                        lemma_spelled_at(v, all, i as int);
                    }
                }
                return Err(WireFault::Relation { text: list[i].clone() });
            },
        }
        i = i + 1;
    }
    proof {
        assert(all.take(i as int) =~= all);
        assert forall|v: Seq<RelationV>|
            can_be_spelled(v) && #[trigger] spelled(v) == all implies set@ == v by {
            assert(v.len() == all.len());
            assert(v.take(i as int) =~= v);
        }
    }
    Ok(set)
}

/// The spellings of relations, in order.
pub fn relation_texts(set: &SortedSet<Relation>) -> (r: Vec<String>)
    ensures
        texts(r@) == spelled(set@),
{
    let mut out: Vec<String> = Vec::new();
    let mut i: usize = 0;
    while i < set.items.len()
        invariant
            i <= set.items@.len(),
            out@.len() == i,
            forall|k: int| 0 <= k < i ==> (#[trigger] out@[k])@ == relation_text(set@[k]),
        decreases set.items@.len() - i,
    {
        assert(set@[i as int] == set.items@[i as int]@);
        out.push(set.items[i].to_text());
        i = i + 1;
    }
    assert(texts(out@) =~= spelled(set@));
    out
}

/// A repository of a lockfile as texts.
#[derive(Debug)]
pub enum WireRepository {
    Rrepo { url: String },
    CranLike { url: String, archive_support: ArchiveSupport },
    Git { url: String, reference: GitReference, commit: String, subdirectory: Option<String> },
}

impl WireRepository {
    /// The texts.
    pub open spec fn view(&self) -> LockedRepositoryV {
        match self {
            WireRepository::Rrepo { url } => LockedRepositoryV::Rrepo(url@),
            WireRepository::CranLike { url, archive_support } => LockedRepositoryV::CranLike(
                url@,
                *archive_support,
            ),
            WireRepository::Git { url, reference, commit, subdirectory } => LockedRepositoryV::Git(
                url@,
                reference@,
                commit@,
                opt_text(*subdirectory),
            ),
        }
    }
}

/// The repository that texts spell, or the first text that cannot be read.
pub open spec fn read_repository(wire: LockedRepositoryV) -> Result<LockedRepositoryV, WireFaultV> {
    match repository_url_of(crate::lockfile::locked_url(wire)) {
        None => Err(WireFaultV::Url(crate::lockfile::locked_url(wire))),
        Some(url) => match wire {
            LockedRepositoryV::Rrepo(_) => Ok(LockedRepositoryV::Rrepo(url)),
            LockedRepositoryV::CranLike(_, archives) => Ok(
                LockedRepositoryV::CranLike(url, archives),
            ),
            LockedRepositoryV::Git(_, reference, commit, subdirectory) => if is_short_oid(commit) {
                Ok(LockedRepositoryV::Git(url, reference, full_oid(commit), subdirectory))
            } else {
                Err(WireFaultV::Commit(commit))
            },
        },
    }
}

/// The URL of a locked repository is in its canonical form.
pub open spec fn is_canonical(url: Seq<char>) -> bool {
    repository_url_of(url) == Some(url)
}

fn read_url(url: &String) -> (r: Result<String, WireFault>)
    ensures
        match r {
            Ok(text) => repository_url_of(url@) == Some(text@),
            Err(fault) => repository_url_of(url@) is None && fault@ == WireFaultV::Url(url@),
        },
{
    match parse_repository_url(url.as_str()) {
        Ok(text) => Ok(text),
        Err(_) => Err(WireFault::Url { text: url.clone() }),
    }
}

fn read_commit(commit: &String) -> (r: Result<GitOid, WireFault>)
    ensures
        match r {
            Ok(oid) => is_short_oid(commit@) && oid.wf() && oid@ == full_oid(commit@),
            Err(fault) => !is_short_oid(commit@) && fault@ == WireFaultV::Commit(commit@),
        },
{
    match GitOid::read(commit.as_str()) {
        Ok(oid) => Ok(oid),
        Err(_) => Err(WireFault::Commit { text: commit.clone() }),
    }
}

impl Repository {
    /// Reads a repository of a lockfile.
    pub fn from_wire(wire: &WireRepository) -> (r: Result<Repository, WireFault>)
        ensures
            match r {
                Ok(repository) => repository.wf() && read_repository(wire@) == Ok::<
                    LockedRepositoryV,
                    WireFaultV,
                >(repository@),
                Err(fault) => read_repository(wire@) == Err::<LockedRepositoryV, WireFaultV>(
                    fault@,
                ),
            },
    {
        match wire {
            WireRepository::Rrepo { url } => match read_url(url) {
                Ok(url) => Ok(Repository::Rrepo { url }),
                Err(fault) => Err(fault),
            },
            WireRepository::CranLike { url, archive_support } => match read_url(url) {
                Ok(url) => Ok(Repository::CranLike { url, archive_support: *archive_support }),
                Err(fault) => Err(fault),
            },
            WireRepository::Git { url, reference, commit, subdirectory } => {
                let url = match read_url(url) {
                    Ok(url) => url,
                    Err(fault) => {
                        return Err(fault);
                    },
                };
                match read_commit(commit) {
                    Ok(commit) => Ok(
                        Repository::Git {
                            url,
                            reference: reference.copy(),
                            commit,
                            subdirectory: text::copy_opt(subdirectory),
                        },
                    ),
                    Err(fault) => Err(fault),
                }
            },
        }
    }

    /// The repository as texts.
    pub fn to_wire(&self) -> (r: WireRepository)
        ensures
            r@ == self@,
    {
        match self {
            Repository::Rrepo { url } => WireRepository::Rrepo { url: url.clone() },
            Repository::CranLike { url, archive_support } => WireRepository::CranLike {
                url: url.clone(),
                archive_support: *archive_support,
            },
            Repository::Git { url, reference, commit, subdirectory } => WireRepository::Git {
                url: url.clone(),
                reference: reference.copy(),
                commit: commit.to_text(),
                subdirectory: text::copy_opt(subdirectory),
            },
        }
    }
}

/// A package of a lockfile as texts.
#[derive(Debug)]
pub struct WirePackage {
    pub version: String,
    pub repository: String,
    pub dependencies: Vec<String>,
}

/// A package of a lockfile as texts.
pub struct WirePackageV {
    pub version: Seq<char>,
    pub repository: Seq<char>,
    pub dependencies: Seq<Seq<char>>,
}

impl WirePackage {
    /// The texts.
    pub open spec fn view(&self) -> WirePackageV {
        WirePackageV {
            version: self.version@,
            repository: self.repository@,
            dependencies: texts(self.dependencies@),
        }
    }
}

/// A locked package as texts.
pub open spec fn written_package(package: PackageV) -> WirePackageV {
    WirePackageV {
        version: package.version.text,
        repository: package.repository,
        dependencies: spelled(package.dependencies),
    }
}

/// The package that texts spell, or the first text that cannot be read.
pub open spec fn read_package(wire: WirePackageV) -> Result<PackageV, WireFaultV> {
    match version_components(wire.version) {
        None => Err(WireFaultV::Version(wire.version)),
        Some(components) => match repository_url_of(wire.repository) {
            None => Err(WireFaultV::Url(wire.repository)),
            Some(repository) => match read_relations(wire.dependencies) {
                Err(fault) => Err(fault),
                Ok(dependencies) => Ok(
                    PackageV {
                        version: VersionV { text: wire.version, components },
                        repository,
                        dependencies,
                    },
                ),
            },
        },
    }
}

/// A locked package that can be read back from what is written of it.
pub open spec fn is_readable_package(package: PackageV) -> bool {
    &&& version_components(package.version.text) == Some(package.version.components)
    &&& is_canonical(package.repository)
    &&& can_be_spelled(package.dependencies)
}

impl Package {
    /// Reads a package of a lockfile. What is written of a package is read back as the
    /// package.
    pub fn from_wire(wire: &WirePackage) -> (r: Result<Package, WireFault>)
        ensures
            match r {
                Ok(package) => package.wf() && read_package(wire@) == Ok::<PackageV, WireFaultV>(
                    package@,
                ),
                Err(fault) => read_package(wire@) == Err::<PackageV, WireFaultV>(fault@),
            },
            forall|v: PackageV|
                is_readable_package(v) && #[trigger] written_package(v) == wire@ ==> r is Ok
                    && r->Ok_0@ == v,
    {
        let version = match Version::parse(wire.version.as_str()) {
            Ok(version) => version,
            Err(_) => {
                return Err(WireFault::Version { text: wire.version.clone() });
            },
        };
        let repository = match read_url(&wire.repository) {
            Ok(url) => url,
            Err(fault) => {
                return Err(fault);
            },
        };
        let dependencies = relations_from_texts(&wire.dependencies);
        proof {
            assert forall|v: PackageV|
                is_readable_package(v) && #[trigger] written_package(v) == wire@ implies dependencies
                is Ok && dependencies->Ok_0@ == v.dependencies by {
                assert(spelled(v.dependencies) == texts(wire.dependencies@));
            }
        }
        match dependencies {
            Ok(dependencies) => Ok(Package { version, repository, dependencies }),
            Err(fault) => Err(fault),
        }
    }

    /// The package as texts.
    pub fn to_wire(&self) -> (r: WirePackage)
        ensures
            r@ == written_package(self@),
    {
        WirePackage {
            version: self.version.text.clone(),
            repository: self.repository.clone(),
            dependencies: relation_texts(&self.dependencies),
        }
    }
}

/// A lockfile as texts.
#[derive(Debug)]
pub struct WireLockfile {
    pub version: u32,
    pub revision: u32,
    pub r: String,
    pub db_commit: Option<String>,
    pub rules: TextMap<SortedSet<String>>,
    pub repos: Vec<WireRepository>,
    pub requirements: Vec<String>,
    pub packages: TextMap<WirePackage>,
}

/// A lockfile as texts.
pub struct WireLockfileV {
    pub version: u32,
    pub revision: u32,
    pub r: Seq<char>,
    pub db_commit: Option<Seq<char>>,
    pub rules: (Seq<Seq<char>>, Seq<Seq<Seq<char>>>),
    pub repos: Seq<LockedRepositoryV>,
    pub requirements: Seq<Seq<char>>,
    pub packages: (Seq<Seq<char>>, Seq<WirePackageV>),
}

/// Repositories as texts.
pub open spec fn wire_repository_views(v: Seq<WireRepository>) -> Seq<LockedRepositoryV> {
    v.map_values(|x: WireRepository| x@)
}

/// Packages as texts.
pub open spec fn wire_package_views(v: Seq<WirePackage>) -> Seq<WirePackageV> {
    v.map_values(|x: WirePackage| x@)
}

impl WireLockfile {
    /// The texts.
    pub open spec fn view(&self) -> WireLockfileV {
        WireLockfileV {
            version: self.version,
            revision: self.revision,
            r: self.r@,
            db_commit: opt_text(self.db_commit),
            rules: (texts(self.rules.keys@), set_views(self.rules.values@)),
            repos: wire_repository_views(self.repos@),
            requirements: texts(self.requirements@),
            packages: (texts(self.packages.keys@), wire_package_views(self.packages.values@)),
        }
    }

    /// The rules and the packages are in order.
    pub open spec fn wf(&self) -> bool {
        &&& self.rules.wf()
        &&& forall|i: int| 0 <= i < self.rules.values@.len() ==> (#[trigger] self.rules.values@[i]).wf()
        &&& self.packages.wf()
    }
}

/// The repositories that texts spell, or the first text that cannot be read.
pub open spec fn read_repositories(wires: Seq<LockedRepositoryV>) -> Result<
    Seq<LockedRepositoryV>,
    WireFaultV,
>
    decreases wires.len(),
{
    if wires.len() == 0 {
        Ok(Seq::empty())
    } else {
        match read_repositories(wires.drop_last()) {
            Err(fault) => Err(fault),
            Ok(list) => match read_repository(wires.last()) {
                Err(fault) => Err(fault),
                Ok(repository) => Ok(list.push(repository)),
            },
        }
    }
}

proof fn lemma_repository_fault_stays(wires: Seq<LockedRepositoryV>, k: int)
    requires
        0 <= k <= wires.len(),
    ensures
        read_repositories(wires.take(k)) is Err ==> read_repositories(wires)
            == read_repositories(wires.take(k)),
    decreases wires.len() - k,
{
    if k == wires.len() {
        assert(wires.take(k) =~= wires);
    } else {
        lemma_repository_fault_stays(wires, k + 1);
        assert(wires.take(k + 1).drop_last() =~= wires.take(k));
    }
}

/// The packages that texts spell, or the first text that cannot be read.
pub open spec fn read_packages(wires: Seq<WirePackageV>) -> Result<Seq<PackageV>, WireFaultV>
    decreases wires.len(),
{
    if wires.len() == 0 {
        Ok(Seq::empty())
    } else {
        match read_packages(wires.drop_last()) {
            Err(fault) => Err(fault),
            Ok(list) => match read_package(wires.last()) {
                Err(fault) => Err(fault),
                Ok(package) => Ok(list.push(package)),
            },
        }
    }
}

proof fn lemma_package_fault_stays(wires: Seq<WirePackageV>, k: int)
    requires
        0 <= k <= wires.len(),
    ensures
        read_packages(wires.take(k)) is Err ==> read_packages(wires) == read_packages(
            wires.take(k),
        ),
    decreases wires.len() - k,
{
    if k == wires.len() {
        assert(wires.take(k) =~= wires);
    } else {
        lemma_package_fault_stays(wires, k + 1);
        assert(wires.take(k + 1).drop_last() =~= wires.take(k));
    }
}

/// The commit that a text spells.
pub open spec fn read_db_commit(commit: Option<Seq<char>>) -> Result<
    Option<Seq<char>>,
    WireFaultV,
> {
    match commit {
        None => Ok(None),
        Some(digits) => if is_short_oid(digits) {
            Ok(Some(full_oid(digits)))
        } else {
            Err(WireFaultV::Commit(digits))
        },
    }
}

/// The lockfile that texts spell, or the first text that cannot be read.
pub open spec fn read_wire(wire: WireLockfileV) -> Result<LockfileV, WireFaultV> {
    if parsed_semver(wire.r) is Err {
        Err(WireFaultV::R(wire.r))
    } else {
        match read_db_commit(wire.db_commit) {
            Err(fault) => Err(fault),
            Ok(db_commit) => match read_repositories(wire.repos) {
                Err(fault) => Err(fault),
                Ok(repos) => match read_relations(wire.requirements) {
                    Err(fault) => Err(fault),
                    Ok(requirements) => match read_packages(wire.packages.1) {
                        Err(fault) => Err(fault),
                        Ok(packages) => Ok(
                            LockfileV {
                                version: wire.version,
                                revision: wire.revision,
                                r: wire.r,
                                db_commit,
                                rules: wire.rules,
                                repos,
                                requirements,
                                packages: (wire.packages.0, packages),
                            },
                        ),
                    },
                },
            },
        }
    }
}

/// Locked packages as texts.
pub open spec fn written_packages(packages: Seq<PackageV>) -> Seq<WirePackageV> {
    packages.map_values(|p: PackageV| written_package(p))
}

/// A lockfile as texts.
pub open spec fn written_lockfile(lockfile: LockfileV) -> WireLockfileV {
    WireLockfileV {
        version: lockfile.version,
        revision: lockfile.revision,
        r: lockfile.r,
        db_commit: lockfile.db_commit,
        rules: lockfile.rules,
        repos: lockfile.repos,
        requirements: spelled(lockfile.requirements),
        packages: (lockfile.packages.0, written_packages(lockfile.packages.1)),
    }
}

/// The digits name an object, and none of them is in upper case.
pub open spec fn is_canonical_oid(digits: Seq<char>) -> bool {
    is_oid(digits) && lowered(digits) == digits
}

/// A lockfile that can be read back from what is written of it: its URLs and object names
/// are in their canonical form, its versions and relations are what their texts spell, and
/// all that is ordered is in order.
pub open spec fn is_readable(lockfile: LockfileV) -> bool {
    &&& parsed_semver(lockfile.r) is Ok
    &&& lockfile.db_commit matches Some(digits) ==> is_canonical_oid(digits)
    &&& forall|i: int|
        0 <= i < lockfile.repos.len() ==> is_readable_repository(#[trigger] lockfile.repos[i])
    &&& can_be_spelled(lockfile.requirements)
    &&& forall|i: int|
        0 <= i < lockfile.packages.1.len() ==> is_readable_package(
            #[trigger] lockfile.packages.1[i],
        )
}

/// A locked repository that can be read back from what is written of it.
pub open spec fn is_readable_repository(repository: LockedRepositoryV) -> bool {
    &&& is_canonical(crate::lockfile::locked_url(repository))
    &&& repository matches LockedRepositoryV::Git(_, _, commit, _) ==> is_canonical_oid(commit)
}

proof fn lemma_full_oids_stay(digits: Seq<char>)
    requires
        is_canonical_oid(digits),
    ensures
        is_short_oid(digits),
        full_oid(digits) == digits,
{
    assert(full_oid(digits) =~= digits);
}

proof fn lemma_repositories_read_back(repos: Seq<LockedRepositoryV>)
    requires
        forall|i: int| 0 <= i < repos.len() ==> is_readable_repository(#[trigger] repos[i]),
    ensures
        read_repositories(repos) == Ok::<Seq<LockedRepositoryV>, WireFaultV>(repos),
    decreases repos.len(),
{
    if repos.len() > 0 {
        let rest = repos.drop_last();
        assert forall|i: int| 0 <= i < rest.len() implies is_readable_repository(
            #[trigger] rest[i],
        ) by {
            assert(rest[i] == repos[i]);
        }
        lemma_repositories_read_back(rest);
        assert(is_readable_repository(repos[repos.len() - 1]));
        match repos.last() {
            LockedRepositoryV::Git(_, _, commit, _) => {
                lemma_full_oids_stay(commit);
            },
            _ => {},
        }
        assert(rest.push(repos.last()) =~= repos);
    } else {
        assert(repos =~= Seq::<LockedRepositoryV>::empty());
    }
}

fn read_repos(wires: &Vec<WireRepository>) -> (r: Result<Vec<Repository>, WireFault>)
    ensures
        match r {
            Ok(repos) => {
                &&& read_repositories(wire_repository_views(wires@)) == Ok::<
                    Seq<LockedRepositoryV>,
                    WireFaultV,
                >(locked_views(repos@))
                &&& forall|i: int| 0 <= i < repos@.len() ==> (#[trigger] repos@[i]).wf()
            },
            Err(fault) => read_repositories(wire_repository_views(wires@)) == Err::<
                Seq<LockedRepositoryV>,
                WireFaultV,
            >(fault@),
        },
{
    let ghost all = wire_repository_views(wires@);
    let mut repos: Vec<Repository> = Vec::new();
    let mut i: usize = 0;
    proof {
        assert(all.take(0) =~= Seq::<LockedRepositoryV>::empty());
        assert(locked_views(repos@) =~= Seq::<LockedRepositoryV>::empty());
    }
    while i < wires.len()
        invariant
            i <= wires@.len(),
            all == wire_repository_views(wires@),
            read_repositories(all.take(i as int)) == Ok::<Seq<LockedRepositoryV>, WireFaultV>(
                locked_views(repos@),
            ),
            forall|k: int| 0 <= k < repos@.len() ==> (#[trigger] repos@[k]).wf(),
        decreases wires@.len() - i,
    {
        proof {
            assert(all.take(i + 1).drop_last() =~= all.take(i as int));
            assert(all[i as int] == wires@[i as int]@);
            lemma_repository_fault_stays(all, i + 1);
        }
        match Repository::from_wire(&wires[i]) {
            Ok(repository) => {
                let ghost before = repos@;
                repos.push(repository);
                assert(locked_views(repos@) =~= locked_views(before).push(repository@));
            },
            Err(fault) => {
                return Err(fault);
            },
        }
        i = i + 1;
    }
    assert(all.take(i as int) =~= all);
    Ok(repos)
}

fn read_entries(wires: &Vec<WirePackage>) -> (r: Result<Vec<Package>, WireFault>)
    ensures
        match r {
            Ok(packages) => {
                &&& packages@.len() == wires@.len()
                &&& read_packages(wire_package_views(wires@)) == Ok::<Seq<PackageV>, WireFaultV>(
                    package_views(packages@),
                )
                &&& forall|i: int| 0 <= i < packages@.len() ==> (#[trigger] packages@[i]).wf()
            },
            Err(fault) => read_packages(wire_package_views(wires@)) == Err::<
                Seq<PackageV>,
                WireFaultV,
            >(fault@),
        },
        forall|v: Seq<PackageV>|
            (forall|i: int| 0 <= i < v.len() ==> is_readable_package(#[trigger] v[i]))
                && #[trigger] written_packages(v) == wire_package_views(wires@) ==> r is Ok
                && package_views(r->Ok_0@) == v,
{
    let ghost all = wire_package_views(wires@);
    let mut packages: Vec<Package> = Vec::new();
    let mut i: usize = 0;
    proof {
        assert(all.take(0) =~= Seq::<WirePackageV>::empty());
        assert(package_views(packages@) =~= Seq::<PackageV>::empty());
    }
    while i < wires.len()
        invariant
            i <= wires@.len(),
            packages@.len() == i,
            all == wire_package_views(wires@),
            read_packages(all.take(i as int)) == Ok::<Seq<PackageV>, WireFaultV>(
                package_views(packages@),
            ),
            forall|k: int| 0 <= k < packages@.len() ==> (#[trigger] packages@[k]).wf(),
            forall|v: Seq<PackageV>|
                (forall|i: int| 0 <= i < v.len() ==> is_readable_package(#[trigger] v[i]))
                    && #[trigger] written_packages(v) == all ==> package_views(packages@) == v.take(
                    i as int,
                ),
        decreases wires@.len() - i,
    {
        proof {
            assert(all.take(i + 1).drop_last() =~= all.take(i as int));
            assert(all[i as int] == wires@[i as int]@);
            lemma_package_fault_stays(all, i + 1);
        }
        let entry = Package::from_wire(&wires[i]);
        proof {
            assert forall|v: Seq<PackageV>|
                (forall|i: int| 0 <= i < v.len() ==> is_readable_package(#[trigger] v[i]))
                    && #[trigger] written_packages(v) == all implies entry is Ok && entry->Ok_0@
                == v[i as int] by {
                assert(written_packages(v).len() == v.len());
                assert(is_readable_package(v[i as int]));
                assert(written_packages(v)[i as int] == written_package(v[i as int]));
            }
        }
        match entry {
            Ok(package) => {
                let ghost before = packages@;
                packages.push(package);
                assert(package_views(packages@) =~= package_views(before).push(package@));
                proof {
                    assert forall|v: Seq<PackageV>|
                        (forall|i: int| 0 <= i < v.len() ==> is_readable_package(#[trigger] v[i]))
                            && #[trigger] written_packages(v) == all implies package_views(
                        packages@,
                    ) == v.take(i + 1) by {
                        assert(written_packages(v).len() == v.len());
                        assert(v.take(i + 1) =~= v.take(i as int).push(v[i as int]));
                    }
                }
            },
            Err(fault) => {
                return Err(fault);
            },
        }
        i = i + 1;
    }
    proof {
        assert(all.take(i as int) =~= all);
        assert forall|v: Seq<PackageV>|
            (forall|i: int| 0 <= i < v.len() ==> is_readable_package(#[trigger] v[i]))
                && #[trigger] written_packages(v) == all implies package_views(packages@) == v by {
            assert(written_packages(v).len() == v.len());
            assert(v.take(i as int) =~= v);
        }
    }
    Ok(packages)
}

impl Lockfile {
    /// Reads a lockfile. What is written of a lockfile is read back as the lockfile.
    pub fn from_wire(wire: WireLockfile) -> (r: Result<Lockfile, WireFault>)
        requires
            wire.wf(),
        ensures
            match r {
                Ok(lockfile) => lockfile.wf() && read_wire(wire@) == Ok::<LockfileV, WireFaultV>(
                    lockfile@,
                ),
                Err(fault) => read_wire(wire@) == Err::<LockfileV, WireFaultV>(fault@),
            },
            forall|v: LockfileV|
                is_readable(v) && #[trigger] written_lockfile(v) == wire@ ==> r is Ok
                    && r->Ok_0@ == v,
    {
        let version = match RVersion::parse(wire.r.as_str()) {
            Ok(version) => version,
            Err(_) => {
                return Err(WireFault::R { text: wire.r });
            },
        };
        let db_commit = match &wire.db_commit {
            None => None,
            Some(commit) => match read_commit(commit) {
                Ok(commit) => Some(commit),
                Err(fault) => {
                    return Err(fault);
                },
            },
        };
        let repos = read_repos(&wire.repos);
        proof {
            assert forall|v: LockfileV|
                is_readable(v) && #[trigger] written_lockfile(v) == wire@ implies repos is Ok
                && locked_views(repos->Ok_0@) == v.repos by {
                lemma_repositories_read_back(v.repos);
            }
        }
        let repos = match repos {
            Ok(repos) => repos,
            Err(fault) => {
                return Err(fault);
            },
        };
        let requirements = relations_from_texts(&wire.requirements);
        proof {
            assert forall|v: LockfileV|
                is_readable(v) && #[trigger] written_lockfile(v) == wire@ implies requirements is Ok
                && requirements->Ok_0@ == v.requirements by {
                assert(spelled(v.requirements) == texts(wire.requirements@));
            }
        }
        let requirements = match requirements {
            Ok(requirements) => requirements,
            Err(fault) => {
                return Err(fault);
            },
        };
        let packages = read_entries(&wire.packages.values);
        proof {
            assert forall|v: LockfileV|
                is_readable(v) && #[trigger] written_lockfile(v) == wire@ implies packages is Ok
                && package_views(packages->Ok_0@) == v.packages.1 by {
                assert(written_packages(v.packages.1) == wire_package_views(
                    wire.packages.values@,
                ));
            }
        }
        let packages = match packages {
            Ok(packages) => packages,
            Err(fault) => {
                return Err(fault);
            },
        };
        Ok(
            Lockfile {
                version: wire.version,
                revision: wire.revision,
                r: version,
                sysreqs: SystemRequirements { db_commit, rules: wire.rules },
                repos,
                requirements,
                packages: TextMap { keys: wire.packages.keys, values: packages },
            },
        )
    }

    /// The lockfile as texts.
    pub fn to_wire(&self) -> (r: WireLockfile)
        requires
            self.wf(),
        ensures
            r.wf(),
            r@ == written_lockfile(self@),
    {
        let mut repos: Vec<WireRepository> = Vec::new();
        let mut i: usize = 0;
        while i < self.repos.len()
            invariant
                i <= self.repos@.len(),
                repos@.len() == i,
                forall|k: int| 0 <= k < i ==> (#[trigger] repos@[k])@ == self.repos@[k]@,
            decreases self.repos@.len() - i,
        {
            repos.push(self.repos[i].to_wire());
            i = i + 1;
        }
        assert(wire_repository_views(repos@) =~= locked_views(self.repos@));
        let mut names: Vec<String> = Vec::new();
        let mut packages: Vec<WirePackage> = Vec::new();
        let mut j: usize = 0;
        while j < self.packages.keys.len()
            invariant
                self.wf(),
                j <= self.packages.keys@.len(),
                names@.len() == j,
                packages@.len() == j,
                forall|k: int| 0 <= k < j ==> (#[trigger] names@[k])@ == self.packages.keys@[k]@,
                forall|k: int|
                    0 <= k < j ==> (#[trigger] packages@[k])@ == written_package(
                        self.packages.values@[k]@,
                    ),
            decreases self.packages.keys@.len() - j,
        {
            names.push(self.packages.keys[j].clone());
            packages.push(self.packages.values[j].to_wire());
            j = j + 1;
        }
        let ghost values = package_views(self.packages.values@);
        assert(texts(names@) =~= texts(self.packages.keys@));
        assert(wire_package_views(packages@) =~= written_packages(values));
        let db_commit = match &self.sysreqs.db_commit {
            Some(commit) => Some(commit.to_text()),
            None => None,
        };
        WireLockfile {
            version: self.version,
            revision: self.revision,
            r: self.r.text.clone(),
            db_commit,
            rules: copy_rules(&self.sysreqs.rules),
            repos,
            requirements: relation_texts(&self.requirements),
            packages: TextMap { keys: names, values: packages },
        }
    }
}

/// A copy of a set of texts.
pub fn copy_texts(set: &SortedSet<String>) -> (r: SortedSet<String>)
    requires
        set.wf(),
    ensures
        r.wf(),
        r@ == set@,
{
    let mut items: Vec<String> = Vec::new();
    let mut i: usize = 0;
    while i < set.items.len()
        invariant
            i <= set.items@.len(),
            items@.len() == i,
            forall|k: int| 0 <= k < i ==> (#[trigger] items@[k]).key() == set.items@[k].key(),
        decreases set.items@.len() - i,
    {
        items.push(set.items[i].clone());
        i = i + 1;
    }
    assert(keys(items@) =~= keys(set.items@));
    SortedSet { items }
}

/// A copy of the packages of rules.
pub fn copy_rules(rules: &TextMap<SortedSet<String>>) -> (r: TextMap<SortedSet<String>>)
    requires
        rules.wf(),
        forall|i: int| 0 <= i < rules.values@.len() ==> (#[trigger] rules.values@[i]).wf(),
    ensures
        r.wf(),
        forall|i: int| 0 <= i < r.values@.len() ==> (#[trigger] r.values@[i]).wf(),
        texts(r.keys@) == texts(rules.keys@),
        set_views(r.values@) == set_views(rules.values@),
{
    let mut names: Vec<String> = Vec::new();
    let mut values: Vec<SortedSet<String>> = Vec::new();
    let mut i: usize = 0;
    while i < rules.keys.len()
        invariant
            rules.wf(),
            forall|k: int| 0 <= k < rules.values@.len() ==> (#[trigger] rules.values@[k]).wf(),
            i <= rules.keys@.len(),
            names@.len() == i,
            values@.len() == i,
            forall|k: int| 0 <= k < i ==> (#[trigger] names@[k])@ == rules.keys@[k]@,
            forall|k: int|
                0 <= k < i ==> (#[trigger] values@[k])@ == rules.values@[k]@ && values@[k].wf(),
        decreases rules.keys@.len() - i,
    {
        names.push(rules.keys[i].clone());
        values.push(copy_texts(&rules.values[i]));
        i = i + 1;
    }
    assert(texts(names@) =~= texts(rules.keys@));
    assert(set_views(values@) =~= set_views(rules.values@));
    TextMap { keys: names, values }
}

proof fn lemma_relations_can_be_spelled(set: SortedSet<Relation>)
    requires
        set.wf(),
    ensures
        can_be_spelled(set@),
{
    let relations: Seq<RelationV> = set@;
    assert forall|i: int| 0 <= i < relations.len() implies valid_relation(
        #[trigger] relations[i],
    ) by {
        assert(relations[i] == set.items@[i]@);
        assert(set.items@[i].sound());
    }
    reveal(can_be_spelled);
}

/// A well-formed lockfile whose URLs are in their canonical form and whose version of R is one
/// can be read back from what is written of it.
pub proof fn well_formed_lockfiles_are_readable(lockfile: &Lockfile)
    requires
        lockfile.wf(),
        parsed_semver(lockfile@.r) is Ok,
        forall|i: int|
            0 <= i < lockfile@.repos.len() ==> is_canonical(
                crate::lockfile::locked_url(#[trigger] lockfile@.repos[i]),
            ),
        forall|i: int|
            0 <= i < lockfile@.packages.1.len() ==> is_canonical(
                (#[trigger] lockfile@.packages.1[i]).repository,
            ),
    ensures
        is_readable(lockfile@),
{
    assert forall|i: int| 0 <= i < lockfile@.repos.len() implies is_readable_repository(
        #[trigger] lockfile@.repos[i],
    ) by {
        assert(lockfile@.repos[i] == lockfile.repos@[i]@);
        assert(lockfile.repos@[i].wf());
    }
    lemma_relations_can_be_spelled(lockfile.requirements);
    assert forall|i: int| 0 <= i < lockfile@.packages.1.len() implies is_readable_package(
        #[trigger] lockfile@.packages.1[i],
    ) by {
        assert(lockfile@.packages.1[i] == lockfile.packages.values@[i]@);
        assert(lockfile.packages.values@[i].wf());
        lemma_relations_can_be_spelled(lockfile.packages.values@[i].dependencies);
    }
}

/// The relations of a list are read if each of them is one; then they are those of the list
/// and no others, in order.
pub proof fn listed_relations_are_read(list: Seq<Seq<char>>)
    requires
        read_relations(list) is Ok,
    ensures
        increasing(read_relations(list)->Ok_0),
        forall|i: int| 0 <= i < list.len() ==> parsed_relation(#[trigger] list[i]) is Ok,
        forall|relation: RelationV| #[trigger]
            read_relations(list)->Ok_0.contains(relation) ==> spells(list, relation),
        forall|relation: RelationV| #[trigger]
            spells(list, relation) ==> crate::order::has_equal(
                read_relations(list)->Ok_0,
                relation,
            ),
    decreases list.len(),
{
    let all = read_relations(list)->Ok_0;
    if list.len() > 0 {
        let t = list.drop_last();
        let n = list.len() - 1;
        let last = list.last();
        assert(list[n] == last);
        let rest = read_relations(t)->Ok_0;
        listed_relations_are_read(t);
        let parts = parsed_relation(last)->Ok_0;
        let x = RelationV { package: parts.0, requirement: parts.1 };
        crate::sorted::lemma_replaced(rest, x);
        lemma_relation_replaced(rest, x);
        assert(all == replaced(rest, x));
        assert forall|i: int| 0 <= i < list.len() implies parsed_relation(
            #[trigger] list[i],
        ) is Ok by {
            if i < n {
                assert(t[i] == list[i]);
            }
        }
        assert forall|relation: RelationV| #[trigger] all.contains(relation) implies spells(
            list,
            relation,
        ) by {
            if relation == x {
                assert(parsed_relation(list[n])->Ok_0 == (x.package, x.requirement));
            } else {
                assert(rest.contains(relation));
                assert(spells(t, relation));
                let k = choose|k: int|
                    0 <= k < t.len() && parsed_relation(#[trigger] t[k])->Ok_0 == (
                        relation.package,
                        relation.requirement,
                    );
                assert(list[k] == t[k]);
            }
        }
        assert forall|relation: RelationV| #[trigger] spells(
            list,
            relation,
        ) implies crate::order::has_equal(all, relation) by {
            let k = choose|k: int|
                0 <= k < list.len() && parsed_relation(#[trigger] list[k])->Ok_0 == (
                    relation.package,
                    relation.requirement,
                );
            if k < n {
                assert(t[k] == list[k]);
                assert(spells(t, relation));
            } else {
                assert(relation == x);
            }
        }
    }
}

/// The list spells the relation.
pub open spec fn spells(list: Seq<Seq<char>>, relation: RelationV) -> bool {
    exists|k: int|
        0 <= k < list.len() && parsed_relation(#[trigger] list[k])->Ok_0 == (
            relation.package,
            relation.requirement,
        )
}

proof fn lemma_relation_replaced(rest: Seq<RelationV>, x: RelationV)
    requires
        increasing(rest),
    ensures
        crate::order::has_equal(replaced(rest, x), x),
        forall|w: RelationV|
            crate::order::has_equal(rest, w) ==> #[trigger] crate::order::has_equal(
                replaced(rest, x),
                w,
            ),
{
    let all = replaced(rest, x);
    crate::sorted::lemma_replaced(rest, x);
    let at = choose|j: int| 0 <= j < all.len() && all[j] == x;
    RelationV::order_flips(x, x);
    assert(all[at].order(x) == Order::Equal);
    assert forall|w: RelationV| crate::order::has_equal(
        rest,
        w,
    ) implies #[trigger] crate::order::has_equal(all, w) by {
        let j = choose|j: int|
            0 <= j < rest.len() && (#[trigger] rest[j]).order(w) == Order::Equal;
        if rest[j].order(x) == Order::Equal {
            RelationV::order_flips(rest[j], x);
            RelationV::order_coherent(x, rest[j], w);
            assert(all[at].order(w) == Order::Equal);
        } else {
            assert(rest.contains(rest[j]));
            assert(all.contains(rest[j]));
            let k = choose|k: int| 0 <= k < all.len() && all[k] == rest[j];
            assert(all[k].order(w) == Order::Equal);
        }
    }
}

/// A repository is read as the kind that it is written as, at its address in the canonical
/// form, and with everything else as it is written; of a commit the digits are completed.
pub proof fn repositories_are_read_as_written(wire: LockedRepositoryV)
    requires
        read_repository(wire) is Ok,
    ensures
        ({
            let read = read_repository(wire)->Ok_0;
            &&& repository_url_of(crate::lockfile::locked_url(wire)) == Some(
                crate::lockfile::locked_url(read),
            )
            &&& wire is Rrepo <==> read is Rrepo
            &&& wire matches LockedRepositoryV::CranLike(_, archives) ==> (
            read matches LockedRepositoryV::CranLike(_, kept) && kept == archives)
            &&& wire matches LockedRepositoryV::Git(_, reference, commit, directory) ==> (
            read matches LockedRepositoryV::Git(_, a, b, c) && a == reference && c == directory
                && b.len() == 40 && b.take(commit.len() as int) == lowered(commit))
        }),
{
    if let LockedRepositoryV::Git(_, _, commit, _) = wire {
        let full = full_oid(commit);
        assert(lowered(commit).len() == commit.len());
        assert(full.take(commit.len() as int) =~= lowered(commit));
    }
}

/// A package is read in the version, from the repository and with the dependencies that are
/// written of it.
pub proof fn packages_are_read_as_written(wire: WirePackageV)
    ensures
        read_package(wire) matches Ok(package) ==> {
            &&& package.version.text == wire.version
            &&& version_components(wire.version) == Some(package.version.components)
            &&& repository_url_of(wire.repository) == Some(package.repository)
            &&& read_relations(wire.dependencies) == Ok::<Seq<RelationV>, WireFaultV>(
                package.dependencies,
            )
        },
        read_package(wire) is Ok <==> version_components(wire.version) is Some
            && repository_url_of(wire.repository) is Some && read_relations(
            wire.dependencies,
        ) is Ok,
{
}

/// A lockfile is read whole: each repository and each package of it, in order and under the
/// same names, and everything else as it is written.
pub proof fn lockfiles_are_read_whole(wire: WireLockfileV, i: int)
    requires
        read_wire(wire) is Ok,
    ensures
        ({
            let lockfile = read_wire(wire)->Ok_0;
            &&& lockfile.version == wire.version && lockfile.revision == wire.revision
            &&& lockfile.r == wire.r && lockfile.rules == wire.rules
            &&& lockfile.db_commit is Some <==> wire.db_commit is Some
            &&& read_relations(wire.requirements) == Ok::<Seq<RelationV>, WireFaultV>(
                lockfile.requirements,
            )
            &&& lockfile.packages.0 == wire.packages.0
            &&& lockfile.repos.len() == wire.repos.len()
            &&& lockfile.packages.1.len() == wire.packages.1.len()
            &&& 0 <= i < wire.repos.len() ==> read_repository(wire.repos[i]) == Ok::<
                LockedRepositoryV,
                WireFaultV,
            >(lockfile.repos[i])
            &&& 0 <= i < wire.packages.1.len() ==> read_package(wire.packages.1[i]) == Ok::<
                PackageV,
                WireFaultV,
            >(lockfile.packages.1[i])
        }),
{
    lemma_repository_at(wire.repos, i);
    lemma_package_at(wire.packages.1, i);
}

proof fn lemma_repository_at(wires: Seq<LockedRepositoryV>, i: int)
    ensures
        read_repositories(wires) matches Ok(list) ==> list.len() == wires.len() && (0 <= i
            < wires.len() ==> read_repository(wires[i]) == Ok::<LockedRepositoryV, WireFaultV>(
            list[i],
        )),
    decreases wires.len(),
{
    if wires.len() > 0 {
        let t = wires.drop_last();
        lemma_repository_at(t, i);
        assert(wires[wires.len() - 1] == wires.last());
        if 0 <= i < t.len() {
            assert(t[i] == wires[i]);
        }
    }
}

proof fn lemma_package_at(wires: Seq<WirePackageV>, i: int)
    ensures
        read_packages(wires) matches Ok(list) ==> list.len() == wires.len() && (0 <= i
            < wires.len() ==> read_package(wires[i]) == Ok::<PackageV, WireFaultV>(list[i])),
    decreases wires.len(),
{
    if wires.len() > 0 {
        let t = wires.drop_last();
        lemma_package_at(t, i);
        assert(wires[wires.len() - 1] == wires.last());
        if 0 <= i < t.len() {
            assert(t[i] == wires[i]);
        }
    }
}

/// A lockfile is written whole: what is written of it says everything that is locked, each
/// version and relation as it is spelled.
pub proof fn lockfiles_are_written_whole(lockfile: LockfileV, i: int)
    ensures
        ({
            let wire = written_lockfile(lockfile);
            &&& wire.version == lockfile.version && wire.revision == lockfile.revision
            &&& wire.r == lockfile.r && wire.rules == lockfile.rules
            &&& wire.db_commit == lockfile.db_commit && wire.repos == lockfile.repos
            &&& wire.requirements.len() == lockfile.requirements.len()
            &&& 0 <= i < lockfile.requirements.len() ==> wire.requirements[i] == relation_text(
                lockfile.requirements[i],
            )
            &&& wire.packages.0 == lockfile.packages.0 && wire.packages.1.len()
                == lockfile.packages.1.len()
            &&& 0 <= i < lockfile.packages.1.len() ==> {
                let written = wire.packages.1[i];
                let package = lockfile.packages.1[i];
                &&& written.version == package.version.text
                &&& written.repository == package.repository
                &&& written.dependencies.len() == package.dependencies.len()
                &&& forall|k: int|
                    0 <= k < package.dependencies.len() ==> #[trigger] written.dependencies[k]
                        == relation_text(package.dependencies[k])
            }
        }),
{
}

} // verus!
