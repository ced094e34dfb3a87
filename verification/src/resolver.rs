//! The choice of package versions.
use crate::description::{
    all_relations, all_revision_issues, dropped, field_relations, hard_fields, lemma_dropped,
    messages_text, names_revision, r_only, relation_issues, relation_view, required_dependencies,
    revision_issues, Description,
};
use crate::document::{fits, FindingV, ParsedFieldV};
use crate::metadata::{
    components_order, components_order_flips, significant, version_components, Comparison,
    Relation, RelationV, RequirementVersion, Version, VersionRequirement, VersionV,
};
use crate::order::{Order, Ordered, Total};
use crate::range::{
    all_but, any_version, are_segments, at_least, at_most, contains, exactly, in_segments,
    intersection, less_than, more_than, range_segments, versions_compare_as_rows,
};
use crate::report::{spelled_key, spelling_views, Spelling, SpellingV};
use crate::repository::{repository_text, PackageRepository, RepositoryError, RepositoryV};
use crate::sorted::{collected, lemma_collected, SortedSet, TextMap};
use crate::sync::lemma_text_member;
use crate::text;
use crate::text::texts;
use pubgrub::Ranges;
use vstd::prelude::*;

verus! {

/// A version of a package in a repository.
#[derive(Debug)]
pub struct PackageVersion {
    pub version: Version,
    pub repository: PackageRepository,
}

/// A version of a package in a repository.
pub struct PackageVersionV {
    pub version: VersionV,
    pub repository: RepositoryV,
}

impl PackageVersion {
    /// The version and the repository.
    pub open spec fn view(&self) -> PackageVersionV {
        PackageVersionV { version: self.version@, repository: self.repository@ }
    }

    /// The version and the repository are well formed.
    pub open spec fn wf(&self) -> bool {
        self.version.wf() && self.repository.wf()
    }

    /// A version of a package in a repository.
    pub fn new(version: Version, repository: PackageRepository) -> (r: PackageVersion)
        ensures
            r.version == version,
            r.repository == repository,
    {
        PackageVersion { version, repository }
    }

    /// The version.
    pub fn version(&self) -> (r: &Version)
        ensures
            *r == self.version,
    {
        &self.version
    }

    /// The repository.
    pub fn repository(&self) -> (r: &PackageRepository)
        ensures
            *r == self.repository,
    {
        &self.repository
    }

    /// The version as it is shown.
    pub fn to_text(&self) -> (r: String)
        ensures
            r@ == self@.version.text,
    {
        self.version.text.clone()
    }

    /// A copy.
    pub fn copy(&self) -> (r: PackageVersion)
        ensures
            r@ == self@,
            r.wf() == self.wf(),
    {
        PackageVersion { version: self.version.copy(), repository: self.repository.copy() }
    }

    /// Whether two versions are equal, whatever repository they are in.
    pub fn same(&self, other: &PackageVersion) -> (r: bool)
        ensures
            r == (self@.order(other@) == Order::Equal),
    {
        self.version.same(&other.version)
    }
}

impl Total for PackageVersionV {
    open spec fn order(self, other: Self) -> Order {
        components_order(self.version.components, other.version.components)
    }

    proof fn order_flips(a: Self, b: Self) {
        crate::metadata::components_order_flips(a.version.components, b.version.components);
    }

    proof fn order_coherent(a: Self, b: Self, c: Self) {
        crate::metadata::components_order_coherent(
            a.version.components,
            b.version.components,
            c.version.components,
        );
    }
}

impl Ordered for PackageVersion {
    type Key = PackageVersionV;

    open spec fn key(self) -> PackageVersionV {
        self@
    }

    open spec fn sound(self) -> bool {
        true
    }

    fn compare(&self, other: &Self) -> (r: Order) {
        assert(self.key().order(other.key()) == self@.order(other@));
        assert(self@.order(other@) == components_order(
            self.version.components@,
            other.version.components@,
        ));
        assert(self.version@.order(other.version@) == components_order(
            self.version.components@,
            other.version.components@,
        ));
        crate::metadata::compare_components(&self.version.components, &other.version.components)
    }
}

/// What can go wrong when the versions of packages are asked for.
#[derive(Debug)]
pub enum ProviderError {
    Repository(RepositoryError),
    DependencyMetadata { repository: String, source: RepositoryError },
}

/// Why a search for versions fails: there are none that fit, a question could not be
/// answered, or the search itself did not end well.
#[derive(Debug)]
pub enum ResolutionError {
    BasePackages { details: String },
    Provider(ProviderError),
    NoSolution { explanation: String },
    ChoosingVersion { package: String, source: ProviderError },
    RetrievingDependencies { package: String, version: String, source: ProviderError },
    Join { details: String },
}

/// The components satisfy a requirement that names a version.
pub open spec fn meets(requirement: Option<(Comparison, Seq<char>)>, c: Seq<u32>) -> bool {
    match requirement {
        None => true,
        Some((comparison, operand)) => {
            let order = components_order(c, version_components(operand)->0);
            match comparison {
                Comparison::LessThan => order == Order::Less,
                Comparison::LessThanEqual => order != Order::Greater,
                Comparison::Equal => order == Order::Equal,
                Comparison::NotEqual => order != Order::Equal,
                Comparison::GreaterThan => order == Order::Greater,
                Comparison::GreaterThanEqual => order != Order::Less,
            }
        },
    }
}

/// The range holds a version.
pub open spec fn holds(range: Ranges<Vec<u32>>, c: Seq<u32>) -> bool {
    in_segments(range_segments(range), significant(c))
}

/// The range of the versions that a relation allows.
pub fn package_version_range_from_relation(relation: &Relation) -> (r: Ranges<Vec<u32>>)
    requires
        relation.wf(),
        !names_revision(relation@),
    ensures
        are_segments(range_segments(r)),
        forall|c: Seq<u32>| #[trigger] holds(r, c) <==> meets(relation@.requirement, c),
{
    match &relation.requirement {
        VersionRequirement::Any => any_version(),
        VersionRequirement::Compare(comparison, RequirementVersion::Version(version)) => {
            let key = version.significant();
            let ghost bound = version.components@;
            let range = match comparison {
                Comparison::LessThan => less_than(key),
                Comparison::LessThanEqual => at_most(key),
                Comparison::Equal => exactly(key),
                Comparison::NotEqual => all_but(key),
                Comparison::GreaterThan => more_than(key),
                Comparison::GreaterThanEqual => at_least(key),
            };
            proof {
                assert forall|c: Seq<u32>| #[trigger] holds(range, c) <==> meets(
                    relation@.requirement,
                    c,
                ) by {
                    versions_compare_as_rows(c, bound);
                    versions_compare_as_rows(bound, c);
                    components_order_flips(c, bound);
                }
            }
            range
        },
        VersionRequirement::Compare(_, RequirementVersion::Revision(_)) => {
            proof {
                relation.requirement.lemma_revision();
            }
            any_version()
        },
    }
}

/// No relation asks for a revision.
pub open spec fn without_revisions(relations: Seq<RelationV>) -> bool {
    forall|i: int| 0 <= i < relations.len() ==> !names_revision(#[trigger] relations[i])
}

/// The packages of ranges.
pub open spec fn ranges_wf(ranges: &TextMap<Ranges<Vec<u32>>>) -> bool {
    ranges.wf() && forall|key: Seq<char>| #[trigger]
        ranges@.contains_key(key) ==> are_segments(range_segments(ranges@[key]))
}

/// Some relation among the first `n` is to the package.
pub open spec fn is_asked_for(relations: Seq<RelationV>, package: Seq<char>, n: int) -> bool {
    exists|i: int| 0 <= i < n && (#[trigger] relations[i]).package == package
}

/// The version is allowed by all relations to the package among the first `n`.
pub open spec fn is_allowed(
    relations: Seq<RelationV>,
    package: Seq<char>,
    c: Seq<u32>,
    n: int,
) -> bool {
    forall|i: int|
        0 <= i < n && (#[trigger] relations[i]).package == package ==> meets(
            relations[i].requirement,
            c,
        )
}

/// The ranges hold what relations allow: there is one for each package that is asked for and
/// is no package of R itself, and it holds the versions that all relations to it allow.
pub open spec fn are_ranges_of(
    ranges: Map<Seq<char>, Ranges<Vec<u32>>>,
    relations: Seq<RelationV>,
    base_packages: Seq<Seq<char>>,
    n: int,
) -> bool {
    &&& forall|package: Seq<char>| #[trigger]
        ranges.contains_key(package) <==> is_asked_for(relations, package, n)
            && !base_packages.contains(package)
    &&& forall|package: Seq<char>, c: Seq<u32>|
        ranges.contains_key(package) ==> (#[trigger] holds(ranges[package], c) <==> is_allowed(
            relations,
            package,
            c,
            n,
        ))
}

proof fn lemma_more_relations(
    before: Map<Seq<char>, Ranges<Vec<u32>>>,
    after: Map<Seq<char>, Ranges<Vec<u32>>>,
    relations: Seq<RelationV>,
    base_packages: Seq<Seq<char>>,
    n: int,
)
    requires
        0 <= n < relations.len(),
        are_ranges_of(before, relations, base_packages, n),
        base_packages.contains(relations[n].package) ==> after == before,
        !base_packages.contains(relations[n].package) ==> {
            let package = relations[n].package;
            &&& after.contains_key(package)
            &&& after == before.insert(package, after[package])
            &&& forall|c: Seq<u32>| #[trigger]
                holds(after[package], c) <==> meets(relations[n].requirement, c) && (
                before.contains_key(package) ==> holds(before[package], c))
        },
    ensures
        are_ranges_of(after, relations, base_packages, n + 1),
{
    let own = relations[n].package;
    assert forall|package: Seq<char>| #[trigger]
        after.contains_key(package) <==> is_asked_for(relations, package, n + 1)
            && !base_packages.contains(package) by {
        if is_asked_for(relations, package, n + 1) {
            let i = choose|i: int| 0 <= i < n + 1 && (#[trigger] relations[i]).package == package;
            if i < n {
                assert(is_asked_for(relations, package, n));
            }
        }
        if is_asked_for(relations, package, n) {
            let i = choose|i: int| 0 <= i < n && (#[trigger] relations[i]).package == package;
            assert(relations[i].package == package);
        }
        if package == own {
            assert(relations[n].package == package);
            assert(is_asked_for(relations, package, n + 1));
        }
        assert(before.contains_key(package) <==> is_asked_for(relations, package, n)
            && !base_packages.contains(package));
    }
    assert forall|package: Seq<char>, c: Seq<u32>|
        after.contains_key(package) implies (#[trigger] holds(after[package], c) <==> is_allowed(
        relations,
        package,
        c,
        n + 1,
    )) by {
        if package != own {
            assert(before.contains_key(package));
            assert(after[package] == before[package]);
            assert(holds(before[package], c) <==> is_allowed(relations, package, c, n));
            if is_allowed(relations, package, c, n) {
                assert forall|i: int|
                    0 <= i < n + 1 && (#[trigger] relations[i]).package == package implies meets(
                    relations[i].requirement,
                    c,
                ) by {}
            }
            if is_allowed(relations, package, c, n + 1) {
                assert forall|i: int|
                    0 <= i < n && (#[trigger] relations[i]).package == package implies meets(
                    relations[i].requirement,
                    c,
                ) by {}
            }
        } else {
            if before.contains_key(package) {
                assert(holds(before[package], c) <==> is_allowed(relations, package, c, n));
            } else {
                assert(!is_asked_for(relations, package, n));
                assert(is_allowed(relations, package, c, n)) by {
                    assert forall|i: int|
                        0 <= i < n && (
                        #[trigger] relations[i]).package == package implies meets(
                        relations[i].requirement,
                        c,
                    ) by {
                        assert(is_asked_for(relations, package, n));
                    }
                }
            }
            assert(is_allowed(relations, package, c, n + 1) <==> is_allowed(
                relations,
                package,
                c,
                n,
            ) && meets(relations[n].requirement, c)) by {
                if is_allowed(relations, package, c, n + 1) {
                    assert(meets(relations[n].requirement, c));
                    assert forall|i: int|
                        0 <= i < n && (
                        #[trigger] relations[i]).package == package implies meets(
                        relations[i].requirement,
                        c,
                    ) by {}
                }
            }
        }
    }
}

/// The ranges of the packages that relations ask for; the packages of R itself are left out.
pub fn dependency_ranges_from_relations(
    relations: &SortedSet<Relation>,
    base_packages: &SortedSet<String>,
) -> (r: TextMap<Ranges<Vec<u32>>>)
    requires
        relations.wf(),
        base_packages.wf(),
        without_revisions(relations@),
    ensures
        ranges_wf(&r),
        are_ranges_of(r@, relations@, base_packages@, relations@.len() as int),
{
    let ghost all = relations@;
    let mut ranges: TextMap<Ranges<Vec<u32>>> = TextMap::new();
    let mut i: usize = 0;
    while i < relations.items.len()
        invariant
            i <= relations.items@.len(),
            relations.wf(),
            base_packages.wf(),
            all == relations@,
            without_revisions(all),
            ranges_wf(&ranges),
            are_ranges_of(ranges@, all, base_packages@, i as int),
        decreases relations.items@.len() - i,
    {
        let relation = &relations.items[i];
        let ghost before = ranges@;
        proof {
            assert(all[i as int] == relation@);
            assert(relations.items@[i as int].sound());
            lemma_text_member(base_packages@, relation@.package);
        }
        if !base_packages.contains(&relation.package) {
            let range = package_version_range_from_relation(relation);
            let both = match ranges.get(relation.package.as_str()) {
                Some(existing) => intersection(existing, &range),
                None => range,
            };
            proof {
                assert forall|c: Seq<u32>| #[trigger] holds(both, c) <==> meets(
                    relation@.requirement,
                    c,
                ) && (before.contains_key(relation@.package) ==> holds(
                    before[relation@.package],
                    c,
                )) by {
                    assert(holds(range, c) <==> meets(relation@.requirement, c));
                }
            }
            ranges.insert(relation.package.clone(), both);
            assert(ranges@ =~= before.insert(relation@.package, ranges@[relation@.package]));
        }
        proof {
            lemma_more_relations(before, ranges@, all, base_packages@, i as int);
        }
        i = i + 1;
    }
    ranges
}

/// A version as a relation writes it.
pub open spec fn written_version(operand: Seq<char>) -> VersionV {
    VersionV { text: operand, components: version_components(operand)->0 }
}

/// The version at which a relation to the package lets its versions begin.
pub open spec fn lower_spelling(relation: RelationV, package: Seq<char>) -> Option<SpellingV> {
    match relation.requirement {
        Some((comparison, operand)) => if relation.package != package || names_revision(relation) {
            None
        } else {
            match comparison {
                Comparison::Equal | Comparison::GreaterThanEqual => Some(
                    SpellingV { included: true, version: written_version(operand) },
                ),
                Comparison::NotEqual | Comparison::GreaterThan => Some(
                    SpellingV { included: false, version: written_version(operand) },
                ),
                Comparison::LessThan | Comparison::LessThanEqual => None,
            }
        },
        None => None,
    }
}

/// The version at which a relation to the package lets its versions end.
pub open spec fn upper_spelling(relation: RelationV, package: Seq<char>) -> Option<SpellingV> {
    match relation.requirement {
        Some((comparison, operand)) => if relation.package != package || names_revision(relation) {
            None
        } else {
            match comparison {
                Comparison::Equal | Comparison::LessThanEqual => Some(
                    SpellingV { included: true, version: written_version(operand) },
                ),
                Comparison::NotEqual | Comparison::LessThan => Some(
                    SpellingV { included: false, version: written_version(operand) },
                ),
                Comparison::GreaterThan | Comparison::GreaterThanEqual => None,
            }
        },
        None => None,
    }
}

/// The versions at which relations to the package let its versions begin, the last first.
pub open spec fn lower_spellings_of(relations: Seq<RelationV>, package: Seq<char>) -> Seq<SpellingV>
    decreases relations.len(),
{
    if relations.len() == 0 {
        Seq::empty()
    } else {
        match lower_spelling(relations.last(), package) {
            Some(spelling) => seq![spelling] + lower_spellings_of(relations.drop_last(), package),
            None => lower_spellings_of(relations.drop_last(), package),
        }
    }
}

/// The versions at which relations to the package let its versions end, the first first.
pub open spec fn upper_spellings_of(relations: Seq<RelationV>, package: Seq<char>) -> Seq<SpellingV>
    decreases relations.len(),
{
    if relations.len() == 0 {
        Seq::empty()
    } else {
        match upper_spelling(relations.last(), package) {
            Some(spelling) => upper_spellings_of(relations.drop_last(), package).push(spelling),
            None => upper_spellings_of(relations.drop_last(), package),
        }
    }
}

fn written_lower(relation: &Relation, package: &str) -> (r: Option<Spelling>)
    requires
        relation.wf(),
    ensures
        match r {
            Some(spelling) => lower_spelling(relation@, package@) == Some(spelling@),
            None => lower_spelling(relation@, package@) is None,
        },
{
    if !text::same(relation.package.as_str(), package) {
        return None;
    }
    match &relation.requirement {
        VersionRequirement::Compare(comparison, RequirementVersion::Version(version)) => {
            match comparison {
                Comparison::Equal | Comparison::GreaterThanEqual => Some(
                    Spelling { included: true, version: version.copy() },
                ),
                Comparison::NotEqual | Comparison::GreaterThan => Some(
                    Spelling { included: false, version: version.copy() },
                ),
                Comparison::LessThan | Comparison::LessThanEqual => None,
            }
        },
        _ => {
            proof {
                relation.requirement.lemma_revision();
            }
            None
        },
    }
}

fn written_upper(relation: &Relation, package: &str) -> (r: Option<Spelling>)
    requires
        relation.wf(),
    ensures
        match r {
            Some(spelling) => upper_spelling(relation@, package@) == Some(spelling@),
            None => upper_spelling(relation@, package@) is None,
        },
{
    if !text::same(relation.package.as_str(), package) {
        return None;
    }
    match &relation.requirement {
        VersionRequirement::Compare(comparison, RequirementVersion::Version(version)) => {
            match comparison {
                Comparison::Equal | Comparison::LessThanEqual => Some(
                    Spelling { included: true, version: version.copy() },
                ),
                Comparison::NotEqual | Comparison::LessThan => Some(
                    Spelling { included: false, version: version.copy() },
                ),
                Comparison::GreaterThan | Comparison::GreaterThanEqual => None,
            }
        },
        _ => {
            proof {
                relation.requirement.lemma_revision();
            }
            None
        },
    }
}

/// The versions at which relations to a package let its versions begin, as they are written.
/// Of equal versions the last relation's comes first: it is the one that ranges keep.
pub fn lower_spellings(relations: &SortedSet<Relation>, package: &str) -> (r: Vec<Spelling>)
    requires
        relations.wf(),
    ensures
        spelling_views(r@) == lower_spellings_of(relations@, package@),
{
    let ghost all = relations@;
    let mut out: Vec<Spelling> = Vec::new();
    let mut i: usize = relations.items.len();
    assert(all.take(i as int) =~= all);
    assert(spelling_views(out@) + lower_spellings_of(all, package@) =~= lower_spellings_of(
        all,
        package@,
    ));
    while i > 0
        invariant
            i <= relations.items@.len(),
            relations.wf(),
            all == relations@,
            spelling_views(out@) + lower_spellings_of(all.take(i as int), package@)
                == lower_spellings_of(all, package@),
        decreases i,
    {
        let ghost rest = all.take(i as int);
        i = i - 1;
        proof {
            assert(rest.last() == relations.items@[i as int]@);
            assert(rest.drop_last() =~= all.take(i as int));
            assert(relations.items@[i as int].sound());
        }
        match written_lower(&relations.items[i], package) {
            Some(spelling) => {
                let ghost seen = out@;
                out.push(spelling);
                assert(spelling_views(out@) =~= spelling_views(seen).push(spelling@));
                assert(spelling_views(out@) + lower_spellings_of(all.take(i as int), package@)
                    =~= spelling_views(seen) + lower_spellings_of(rest, package@));
            },
            None => {},
        }
    }
    assert(all.take(0).len() == 0);
    assert(spelling_views(out@) =~= lower_spellings_of(all, package@));
    out
}

/// The versions at which relations to a package let its versions end, as they are written.
/// Of equal versions the first relation's comes first: it is the one that ranges keep.
pub fn upper_spellings(relations: &SortedSet<Relation>, package: &str) -> (r: Vec<Spelling>)
    requires
        relations.wf(),
    ensures
        spelling_views(r@) == upper_spellings_of(relations@, package@),
{
    let ghost all = relations@;
    let mut out: Vec<Spelling> = Vec::new();
    let mut i: usize = 0;
    assert(spelling_views(out@) =~= upper_spellings_of(all.take(0), package@));
    while i < relations.items.len()
        invariant
            i <= relations.items@.len(),
            relations.wf(),
            all == relations@,
            spelling_views(out@) == upper_spellings_of(all.take(i as int), package@),
        decreases relations.items@.len() - i,
    {
        let ghost next = all.take(i + 1);
        proof {
            assert(next.last() == relations.items@[i as int]@);
            assert(next.drop_last() =~= all.take(i as int));
            assert(relations.items@[i as int].sound());
        }
        match written_upper(&relations.items[i], package) {
            Some(spelling) => {
                let ghost seen = out@;
                out.push(spelling);
                assert(spelling_views(out@) =~= spelling_views(seen).push(spelling@));
            },
            None => {},
        }
        i = i + 1;
    }
    assert(all.take(i as int) =~= all);
    out
}

/// What is asked of a package is shown with the version as it is written, whatever the other
/// ways to write it.
pub proof fn requested_versions_are_shown_as_written(
    package: Seq<char>,
    comparison: Comparison,
    operand: Seq<char>,
)
    ensures
        ({
            let relation = RelationV { package, requirement: Some((comparison, operand)) };
            let lowers = lower_spellings_of(seq![relation], package);
            let uppers = upper_spellings_of(seq![relation], package);
            let key = significant(written_version(operand).components);
            &&& lower_spelling(relation, package) matches Some(spelling) ==> spelled_key(
                lowers,
                spelling.included,
                key,
            ) == operand
            &&& upper_spelling(relation, package) matches Some(spelling) ==> spelled_key(
                uppers,
                spelling.included,
                key,
            ) == operand
        }),
{
    let relation = RelationV { package, requirement: Some((comparison, operand)) };
    let one = seq![relation];
    assert(one.last() == relation);
    assert(one.drop_last() =~= Seq::empty());
    assert(lower_spellings_of(one.drop_last(), package) =~= Seq::empty());
    assert(upper_spellings_of(one.drop_last(), package) =~= Seq::empty());
}

/// The dependencies of a version of a package, or why it cannot be used.
#[derive(Debug)]
pub enum Dependencies {
    Available(TextMap<Ranges<Vec<u32>>>),
    Unavailable(String),
}

/// The packages that a version of a package needs, R left out.
pub open spec fn needed_by(document: Seq<char>) -> Seq<RelationV> {
    dropped(collected(all_relations(hard_fields(document))), r_only())
}

proof fn lemma_entries_plain(label: Seq<char>, entries: Seq<FindingV>, i: int)
    requires
        revision_issues(label, entries).len() == 0,
        0 <= i < entries.len(),
    ensures
        ({
            let relation = relation_view(entries[i].message);
            relation.package != "R"@ ==> !names_revision(relation)
        }),
    decreases entries.len(),
{
    if i < entries.len() - 1 {
        assert(entries.drop_last()[i] == entries[i]);
        lemma_entries_plain(label, entries.drop_last(), i);
    }
}

proof fn lemma_fields_plain(fields: Seq<(Seq<char>, ParsedFieldV)>)
    requires
        all_revision_issues(fields).len() == 0,
    ensures
        forall|i: int|
            0 <= i < all_relations(fields).len() && (#[trigger] all_relations(fields)[i]).package
                != "R"@ ==> !names_revision(all_relations(fields)[i]),
    decreases fields.len(),
{
    if fields.len() > 0 {
        lemma_fields_plain(fields.drop_last());
        let rest = all_relations(fields.drop_last());
        let last = field_relations(fields.last().1);
        let all = all_relations(fields);
        assert forall|i: int| 0 <= i < all.len() && (#[trigger] all[i]).package
            != "R"@ implies !names_revision(all[i]) by {
            if i < rest.len() {
                assert(all[i] == rest[i]);
            } else {
                let k = i - rest.len();
                assert(all[i] == last[k]);
                lemma_entries_plain(fields.last().0, fields.last().1.entries, k);
            }
        }
    }
}

/// Fields without issues ask for a revision of no package other than R.
pub proof fn sound_fields_have_no_revisions(fields: Seq<(Seq<char>, ParsedFieldV)>)
    requires
        relation_issues(fields).len() == 0,
    ensures
        without_revisions(dropped(collected(all_relations(fields)), r_only())),
{
    let all = all_relations(fields);
    let kept = dropped(collected(all), r_only());
    lemma_fields_plain(fields);
    lemma_collected(all);
    lemma_dropped(collected(all), r_only());
    assert forall|i: int| 0 <= i < kept.len() implies !names_revision(#[trigger] kept[i]) by {
        let relation = kept[i];
        assert(kept.contains(relation));
        assert(collected(all).contains(relation));
        assert(all.contains(relation));
        assert(r_only()[0] == "R"@);
        assert(r_only().contains("R"@));
        let k = choose|k: int| 0 <= k < all.len() && all[k] == relation;
        assert(all[k].package != "R"@);
    }
}

/// The dependencies of a version of a package by its description.
pub fn dependencies_from_description(
    source_name: String,
    description: &Description,
    base_packages: &SortedSet<String>,
) -> (r: Dependencies)
    requires
        fits(description@),
        base_packages.wf(),
    ensures
        match r {
            Dependencies::Available(ranges) => {
                &&& relation_issues(hard_fields(description@)).len() == 0
                &&& ranges_wf(&ranges)
                &&& are_ranges_of(
                    ranges@,
                    needed_by(description@),
                    base_packages@,
                    needed_by(description@).len() as int,
                )
            },
            Dependencies::Unavailable(reason) => {
                &&& relation_issues(hard_fields(description@)).len() > 0
                &&& reason@ == "invalid dependency metadata: "@ + messages_text(
                    relation_issues(hard_fields(description@)),
                )
            },
        },
{
    match required_dependencies(source_name, description) {
        Ok(relations) => {
            proof {
                sound_fields_have_no_revisions(hard_fields(description@));
            }
            Dependencies::Available(dependency_ranges_from_relations(&relations, base_packages))
        },
        Err(error) => {
            let messages = error.to_line();
            Dependencies::Unavailable(text::cat("invalid dependency metadata: ", messages.as_str()))
        },
    }
}

/// Where the dependencies of a package come from.
#[derive(Clone, Copy, PartialEq, Eq, Structural, Debug)]
pub enum DependencySource {
    Root,
    Nothing,
    Description,
}

/// Where the dependencies of a package come from: the project's own are given, those of the
/// packages of R itself are none, and others are described.
pub fn dependency_source(package: &str, root: &str, base_packages: &SortedSet<String>) -> (r:
    DependencySource)
    requires
        base_packages.wf(),
    ensures
        r == if package@ == root@ {
            DependencySource::Root
        } else if base_packages@.contains(package@) {
            DependencySource::Nothing
        } else {
            DependencySource::Description
        },
{
    if text::same(package, root) {
        return DependencySource::Root;
    }
    let name = package.to_owned();
    proof {
        lemma_text_member(base_packages@, package@);
    }
    if base_packages.contains(&name) {
        DependencySource::Nothing
    } else {
        DependencySource::Description
    }
}

/// How the description of a version of a package is called.
pub fn metadata_name(package: &str, version: &PackageVersion) -> (r: String)
    ensures
        r@ == package@ + " "@ + version@.version.text + " from "@ + repository_text(
            version@.repository,
        ),
{
    let repository = version.repository.to_text();
    let mut name = text::cat4(package, " ", version.version.text.as_str(), " from ");
    name.push_str(repository.as_str());
    name
}

/// The error of a description that could not be had.
pub fn dependency_metadata_error(version: &PackageVersion, source: RepositoryError) -> (r:
    ProviderError)
    ensures
        r matches ProviderError::DependencyMetadata { repository, source: cause } && repository@
            == repository_text(version@.repository) && cause == source,
{
    ProviderError::DependencyMetadata { repository: version.repository.to_text(), source }
}

/// The version of the project itself that a range allows: its own or none.
pub fn choose_root_version(root: &PackageVersion, range: &Ranges<Vec<u32>>) -> (r: Option<
    PackageVersion,
>)
    requires
        root.wf(),
        are_segments(range_segments(*range)),
    ensures
        match r {
            Some(version) => holds(*range, root@.version.components) && version.wf() && version@
                == root@,
            None => !holds(*range, root@.version.components),
        },
{
    let key = root.version.significant();
    if contains(range, &key) {
        Some(root.copy())
    } else {
        None
    }
}

/// The names of all packages but the project's own.
pub open spec fn other_packages(names: Seq<Seq<char>>, root: Seq<char>) -> Seq<Seq<char>>
    decreases names.len(),
{
    if names.len() == 0 {
        Seq::empty()
    } else {
        let rest = other_packages(names.drop_last(), root);
        if names.last() == root {
            rest
        } else {
            rest.push(names.last())
        }
    }
}

/// The packages whose descriptions are worth asking for early: all but the project's own.
pub fn prefetch_packages(constraints: &TextMap<Ranges<Vec<u32>>>, root: &str) -> (r: Vec<String>)
    ensures
        texts(r@) == other_packages(texts(constraints.keys@), root@),
{
    let ghost all = texts(constraints.keys@);
    let mut out: Vec<String> = Vec::new();
    let mut i: usize = 0;
    assert(all.take(0) =~= Seq::<Seq<char>>::empty());
    assert(texts(out@) =~= Seq::<Seq<char>>::empty());
    while i < constraints.keys.len()
        invariant
            i <= constraints.keys@.len(),
            all == texts(constraints.keys@),
            texts(out@) == other_packages(all.take(i as int), root@),
        decreases constraints.keys@.len() - i,
    {
        assert(all.take(i + 1).drop_last() =~= all.take(i as int));
        assert(all[i as int] == constraints.keys@[i as int]@);
        let ghost before = out@;
        if !text::same(constraints.keys[i].as_str(), root) {
            out.push(constraints.keys[i].clone());
            assert(texts(out@) =~= texts(before).push(all[i as int]));
        }
        i = i + 1;
    }
    assert(all.take(i as int) =~= all);
    out
}

/// What is decided of the versions of a package in a repository once the latest is known.
#[derive(Debug)]
pub enum LatestChoice {
    Chosen(Option<PackageVersion>),
    AskVersions,
}

/// The version is the preferred one.
pub open spec fn is_preferred(version: VersionV, preferred: Option<VersionV>) -> bool {
    preferred matches Some(wanted) && components_order(version.components, wanted.components)
        == Order::Equal
}

/// The version that may be preferred.
pub open spec fn opt_plain(v: Option<&Version>) -> Option<VersionV> {
    match v {
        Some(version) => Some(version@),
        None => None,
    }
}

fn prefers(preferred: Option<&Version>, version: &Version) -> (r: bool)
    ensures
        r == is_preferred(version@, opt_plain(preferred)),
{
    match preferred {
        Some(wanted) => version.same(wanted),
        None => false,
    }
}

/// Chooses by the latest version of a package in a repository: without one there is nothing
/// to choose, and one in the range is taken unless another is preferred.
pub fn choose_latest(
    latest: Option<&PackageVersion>,
    range: &Ranges<Vec<u32>>,
    preferred: Option<&Version>,
) -> (r: LatestChoice)
    requires
        latest matches Some(version) ==> version.wf(),
        are_segments(range_segments(*range)),
    ensures
        match latest {
            None => r == LatestChoice::Chosen(None),
            Some(version) => if holds(*range, version@.version.components) && (preferred is None
                || is_preferred(version@.version, opt_plain(preferred))) {
                r matches LatestChoice::Chosen(Some(chosen)) && chosen.wf() && chosen@ == version@
            } else {
                r is AskVersions
            },
        },
{
    match latest {
        None => LatestChoice::Chosen(None),
        Some(version) => {
            let key = version.version.significant();
            if (preferred.is_none() || prefers(preferred, &version.version)) && contains(
                range,
                &key,
            ) {
                LatestChoice::Chosen(Some(version.copy()))
            } else {
                LatestChoice::AskVersions
            }
        },
    }
}

/// The versions of a list.
pub open spec fn candidate_views(v: Seq<PackageVersion>) -> Seq<PackageVersionV> {
    v.map_values(|x: PackageVersion| x@)
}

/// The first of the versions that is the preferred one and in the range.
pub open spec fn is_first_preferred(
    versions: Seq<PackageVersionV>,
    range: Ranges<Vec<u32>>,
    preferred: Option<VersionV>,
    i: int,
) -> bool {
    &&& 0 <= i < versions.len()
    &&& is_preferred(versions[i].version, preferred)
    &&& holds(range, versions[i].version.components)
    &&& forall|j: int|
        0 <= j < i ==> !(is_preferred((#[trigger] versions[j]).version, preferred) && holds(
            range,
            versions[j].version.components,
        ))
}

/// The last of the highest versions in the range.
pub open spec fn is_last_highest(
    versions: Seq<PackageVersionV>,
    range: Ranges<Vec<u32>>,
    i: int,
) -> bool {
    &&& 0 <= i < versions.len()
    &&& holds(range, versions[i].version.components)
    &&& forall|j: int|
        0 <= j < versions.len() && holds(range, (#[trigger] versions[j]).version.components)
            ==> versions[j].order(versions[i]) != Order::Greater
    &&& forall|j: int|
        i < j < versions.len() && holds(range, (#[trigger] versions[j]).version.components)
            ==> versions[j].order(versions[i]) == Order::Less
}

/// Some version is the preferred one and in the range.
pub open spec fn offers_preferred(
    versions: Seq<PackageVersionV>,
    range: Ranges<Vec<u32>>,
    preferred: Option<VersionV>,
) -> bool {
    exists|i: int| is_first_preferred(versions, range, preferred, i)
}

/// Chooses among all versions of a package in a repository: the preferred one if it is there
/// and in the range, else the highest in the range.
pub fn choose_listed(
    latest: &PackageVersion,
    versions: &Vec<PackageVersion>,
    range: &Ranges<Vec<u32>>,
    preferred: Option<&Version>,
) -> (r: Option<PackageVersion>)
    requires
        latest.wf(),
        forall|i: int| 0 <= i < versions@.len() ==> (#[trigger] versions@[i]).wf(),
        are_segments(range_segments(*range)),
    ensures
        r matches Some(chosen) ==> chosen.wf(),
        ({
            let listed = candidate_views(versions@);
            let all = seq![latest@] + listed;
            if offers_preferred(listed, *range, opt_plain(preferred)) {
                &&& r matches Some(chosen)
                &&& exists|i: int|
                    is_first_preferred(listed, *range, opt_plain(preferred), i) && chosen@
                        == listed[i]
            } else {
                match r {
                    Some(chosen) => exists|i: int|
                        is_last_highest(all, *range, i) && chosen@ == all[i],
                    None => forall|i: int|
                        0 <= i < all.len() ==> !holds(
                            *range,
                            (#[trigger] all[i]).version.components,
                        ),
                }
            }
        }),
{
    let ghost listed = candidate_views(versions@);
    let ghost wanted = opt_plain(preferred);
    let mut i: usize = 0;
    while i < versions.len()
        invariant
            i <= versions@.len(),
            forall|k: int| 0 <= k < versions@.len() ==> (#[trigger] versions@[k]).wf(),
            are_segments(range_segments(*range)),
            listed == candidate_views(versions@),
            wanted == opt_plain(preferred),
            forall|j: int|
                0 <= j < i ==> !(is_preferred((#[trigger] listed[j]).version, wanted) && holds(
                    *range,
                    listed[j].version.components,
                )),
        decreases versions@.len() - i,
    {
        let version = &versions[i];
        assert(listed[i as int] == version@);
        let key = version.version.significant();
        if prefers(preferred, &version.version) && contains(range, &key) {
            assert(is_first_preferred(listed, *range, wanted, i as int));
            proof {
                assert forall|j: int| is_first_preferred(listed, *range, wanted, j) implies j
                    == i by {
                    if j < i {
                        assert(!(is_preferred(listed[j].version, wanted) && holds(
                            *range,
                            listed[j].version.components,
                        )));
                    } else if j > i {
                        assert(is_preferred(listed[i as int].version, wanted));
                    }
                }
            }
            return Some(version.copy());
        }
        i = i + 1;
    }
    proof {
        assert forall|j: int| !is_first_preferred(listed, *range, wanted, j) by {
            if 0 <= j < listed.len() {
                assert(!(is_preferred(listed[j].version, wanted) && holds(
                    *range,
                    listed[j].version.components,
                )));
            }
        }
    }
    let ghost all = seq![latest@] + listed;
    let key = latest.version.significant();
    let mut best: Option<&PackageVersion> = if contains(range, &key) {
        Some(latest)
    } else {
        None
    };
    let ghost mut at: int = 0;
    let mut j: usize = 0;
    assert(all[0] == latest@);
    proof {
        PackageVersionV::order_flips(latest@, latest@);
        assert(all.take(1) =~= seq![latest@]);
        if best is Some {
            assert(is_last_highest(all.take(1), *range, 0));
        }
    }
    while j < versions.len()
        invariant
            j <= versions@.len(),
            latest.wf(),
            forall|k: int| 0 <= k < versions@.len() ==> (#[trigger] versions@[k]).wf(),
            are_segments(range_segments(*range)),
            listed == candidate_views(versions@),
            all == seq![latest@] + listed,
            match best {
                Some(version) => version.wf() && is_last_highest(all.take(j + 1), *range, at)
                    && version@ == all[at],
                None => forall|k: int|
                    0 <= k < j + 1 ==> !holds(*range, (#[trigger] all[k]).version.components),
            },
        decreases versions@.len() - j,
    {
        let version = &versions[j];
        let ghost seen = all.take(j + 1);
        let ghost next = all.take(j + 2);
        let ghost former = at;
        assert(all[j + 1] == version@) by {
            assert(listed[j as int] == version@);
        }
        assert(next =~= seen.push(version@));
        let key = version.version.significant();
        if contains(range, &key) {
            let replace = match best {
                Some(current) => version.compare(current) != Order::Less,
                None => true,
            };
            if replace {
                proof {
                    lemma_new_highest(seen, version@, *range, former, best is Some);
                    at = j + 1;
                }
                best = Some(version);
            } else {
                proof {
                    lemma_old_highest(seen, version@, *range, former);
                }
            }
        } else {
            proof {
                if best is Some {
                    lemma_old_highest(seen, version@, *range, former);
                }
            }
        }
        j = j + 1;
    }
    assert(all.take(j + 1) =~= all);
    match best {
        Some(version) => {
            assert(is_last_highest(all, *range, at) && version@ == all[at]);
            Some(version.copy())
        },
        None => None,
    }
}

proof fn lemma_new_highest(
    seen: Seq<PackageVersionV>,
    version: PackageVersionV,
    range: Ranges<Vec<u32>>,
    at: int,
    known: bool,
)
    requires
        holds(range, version.version.components),
        known ==> is_last_highest(seen, range, at) && version.order(seen[at]) != Order::Less,
        !known ==> forall|k: int|
            0 <= k < seen.len() ==> !holds(range, (#[trigger] seen[k]).version.components),
    ensures
        is_last_highest(seen.push(version), range, seen.len() as int),
{
    let next = seen.push(version);
    PackageVersionV::order_flips(version, version);
    assert forall|j: int|
        0 <= j < next.len() && holds(
            range,
            (#[trigger] next[j]).version.components,
        ) implies next[j].order(version) != Order::Greater by {
        if j < seen.len() {
            assert(seen[j] == next[j]);
            if known {
                assert(seen[j].order(seen[at]) != Order::Greater);
                PackageVersionV::order_flips(version, seen[at]);
                PackageVersionV::order_coherent(seen[j], seen[at], version);
            }
        }
    }
}

proof fn lemma_old_highest(
    seen: Seq<PackageVersionV>,
    version: PackageVersionV,
    range: Ranges<Vec<u32>>,
    at: int,
)
    requires
        is_last_highest(seen, range, at),
        holds(range, version.version.components) ==> version.order(seen[at]) == Order::Less,
    ensures
        is_last_highest(seen.push(version), range, at),
{
    let next = seen.push(version);
    assert forall|j: int|
        0 <= j < next.len() && holds(
            range,
            (#[trigger] next[j]).version.components,
        ) implies next[j].order(next[at]) != Order::Greater && (j > at ==> next[j].order(next[at])
        == Order::Less) by {
        if j < seen.len() {
            assert(seen[j] == next[j]);
        }
    }
}

/// The preferred version of a package, unless it is out of the range.
pub fn preferred_in_range<'a>(
    preferred_versions: &'a TextMap<Version>,
    package: &str,
    range: &Ranges<Vec<u32>>,
) -> (r: Option<&'a Version>)
    requires
        preferred_versions.wf(),
        are_segments(range_segments(*range)),
    ensures
        match r {
            Some(version) => preferred_versions@.contains_key(package@) && *version
                == preferred_versions@[package@] && holds(*range, version.components@),
            None => !preferred_versions@.contains_key(package@) || !holds(
                *range,
                preferred_versions@[package@].components@,
            ),
        },
{
    match preferred_versions.get(package) {
        Some(version) => {
            let key = version.significant();
            if contains(range, &key) {
                Some(version)
            } else {
                None
            }
        },
        None => None,
    }
}

/// What each repository offers.
pub open spec fn offer_views(v: Seq<Option<PackageVersion>>) -> Seq<Option<PackageVersionV>> {
    v.map_values(
        |x: Option<PackageVersion>|
            match x {
                Some(version) => Some(version@),
                None => None,
            },
    )
}

/// One version is better than another: it is the preferred one, or the higher one.
pub open spec fn is_better(
    a: PackageVersionV,
    b: PackageVersionV,
    preferred: Option<VersionV>,
) -> bool {
    if is_preferred(a.version, preferred) == is_preferred(b.version, preferred) {
        a.order(b) == Order::Greater
    } else {
        is_preferred(a.version, preferred)
    }
}

/// The best offer: none is better, and those of earlier repositories are worse.
pub open spec fn is_best(
    offers: Seq<Option<PackageVersionV>>,
    preferred: Option<VersionV>,
    i: int,
) -> bool {
    &&& 0 <= i < offers.len()
    &&& offers[i] is Some
    &&& forall|j: int|
        0 <= j < offers.len() && (#[trigger] offers[j]) is Some ==> !is_better(
            offers[j]->0,
            offers[i]->0,
            preferred,
        )
    &&& forall|j: int|
        0 <= j < i && (#[trigger] offers[j]) is Some ==> is_better(
            offers[i]->0,
            offers[j]->0,
            preferred,
        )
}

proof fn lemma_better_transitive(
    a: PackageVersionV,
    b: PackageVersionV,
    c: PackageVersionV,
    preferred: Option<VersionV>,
)
    ensures
        is_better(a, b, preferred) && !is_better(c, b, preferred) ==> is_better(a, c, preferred),
        !is_better(a, b, preferred) && !is_better(b, c, preferred) ==> !is_better(
            a,
            c,
            preferred,
        ),
        !is_better(a, a, preferred),
{
    PackageVersionV::order_flips(a, b);
    PackageVersionV::order_flips(b, c);
    PackageVersionV::order_flips(a, c);
    PackageVersionV::order_flips(a, a);
    PackageVersionV::order_coherent(a, b, c);
    PackageVersionV::order_coherent(a, c, b);
    PackageVersionV::order_coherent(c, b, a);
}

proof fn lemma_next_offer(
    offers: Seq<Option<PackageVersionV>>,
    preferred: Option<VersionV>,
    at: int,
)
    requires
        offers.len() > 0,
        is_best(offers.drop_last(), preferred, at),
    ensures
        offers.last() is None || !is_better(offers.last()->0, offers[at]->0, preferred)
            ==> is_best(offers, preferred, at),
        offers.last() is Some && is_better(offers.last()->0, offers[at]->0, preferred) ==> is_best(
            offers,
            preferred,
            offers.len() - 1,
        ),
{
    let seen = offers.drop_last();
    let n = offers.len() - 1;
    assert forall|j: int| 0 <= j < n implies seen[j] == #[trigger] offers[j] by {}
    if offers.last() is Some && is_better(offers.last()->0, offers[at]->0, preferred) {
        let new = offers.last()->0;
        assert forall|j: int| 0 <= j < n && (#[trigger] offers[j]) is Some implies is_better(
            new,
            offers[j]->0,
            preferred,
        ) by {
            assert(seen[j] is Some);
            lemma_better_transitive(new, seen[at]->0, seen[j]->0, preferred);
        }
        assert forall|j: int| 0 <= j < offers.len() && (
        #[trigger] offers[j]) is Some implies !is_better(offers[j]->0, new, preferred) by {
            lemma_better_transitive(new, new, new, preferred);
            if j < n {
                PackageVersionV::order_flips(new, offers[j]->0);
            }
        }
    } else {
        assert forall|j: int| 0 <= j < offers.len() && (
        #[trigger] offers[j]) is Some implies !is_better(offers[j]->0, offers[at]->0, preferred) by {
            if j < n {
                assert(seen[j] is Some);
            }
        }
        assert forall|j: int| 0 <= j < at && (#[trigger] offers[j]) is Some implies is_better(
            offers[at]->0,
            offers[j]->0,
            preferred,
        ) by {
            assert(seen[j] is Some);
        }
    }
}

/// Chooses among what the repositories offer, in their order.
pub fn choose_package_version(
    offers: &Vec<Option<PackageVersion>>,
    preferred: Option<&Version>,
) -> (r: Option<PackageVersion>)
    requires
        forall|i: int|
            0 <= i < offers@.len() ==> ((#[trigger] offers@[i]) matches Some(version) ==> version.wf()),
    ensures
        match r {
            Some(chosen) => chosen.wf() && exists|i: int|
                is_best(offer_views(offers@), opt_plain(preferred), i) && offer_views(offers@)[i]
                    == Some(chosen@),
            None => forall|i: int| 0 <= i < offers@.len() ==> (#[trigger] offers@[i]) is None,
        },
{
    let ghost all = offer_views(offers@);
    let ghost wanted = opt_plain(preferred);
    let mut best: Option<&PackageVersion> = None;
    let ghost mut at: int = 0;
    let mut i: usize = 0;
    while i < offers.len()
        invariant
            i <= offers@.len(),
            all == offer_views(offers@),
            wanted == opt_plain(preferred),
            forall|k: int|
                0 <= k < offers@.len() ==> ((#[trigger] offers@[k]) matches Some(version)
                    ==> version.wf()),
            match best {
                Some(version) => version.wf() && is_best(all.take(i as int), wanted, at) && all[at]
                    == Some(version@),
                None => forall|k: int| 0 <= k < i ==> (#[trigger] offers@[k]) is None,
            },
        decreases offers@.len() - i,
    {
        let ghost next = all.take(i + 1);
        proof {
            assert(next.drop_last() =~= all.take(i as int));
            assert(next.last() == all[i as int]);
            if best is Some {
                lemma_next_offer(next, wanted, at);
                assert(next[at] == all[at]);
            }
        }
        match &offers[i] {
            Some(version) => {
                assert(all[i as int] == Some(version@));
                let replace = match best {
                    Some(current) => {
                        let a = prefers(preferred, &version.version);
                        let b = prefers(preferred, &current.version);
                        if a == b {
                            version.compare(current) == Order::Greater
                        } else {
                            a
                        }
                    },
                    None => true,
                };
                if replace {
                    proof {
                        if best is None {
                            assert forall|j: int| 0 <= j < i implies (#[trigger] next[j])
                                is None by {
                                assert(offers@[j] is None);
                            }
                            lemma_better_transitive(version@, version@, version@, wanted);
                            assert(is_best(next, wanted, i as int));
                        }
                        at = i as int;
                    }
                    best = Some(version);
                }
            },
            None => {
                assert(all[i as int] is None);
            },
        }
        i = i + 1;
    }
    assert(all.take(i as int) =~= all);
    match best {
        Some(version) => {
            assert(is_best(all, wanted, at));
            Some(version.copy())
        },
        None => None,
    }
}

/// Where some repository offers the preferred version, a preferred version is the best
/// offer.
pub proof fn preferred_versions_are_kept(
    offers: Seq<Option<PackageVersionV>>,
    preferred: Option<VersionV>,
    best: int,
    other: int,
)
    requires
        is_best(offers, preferred, best),
        0 <= other < offers.len(),
        offers[other] is Some,
        is_preferred(offers[other]->0.version, preferred),
    ensures
        is_preferred(offers[best]->0.version, preferred),
{
    assert(!is_better(offers[other]->0, offers[best]->0, preferred));
}

/// Of equal versions the one of the earlier repository is the best offer.
pub proof fn earlier_repositories_win(
    offers: Seq<Option<PackageVersionV>>,
    preferred: Option<VersionV>,
    best: int,
    other: int,
)
    requires
        is_best(offers, preferred, best),
        0 <= other < offers.len(),
        offers[other] is Some,
        offers[other]->0.order(offers[best]->0) == Order::Equal,
        is_preferred(offers[other]->0.version, preferred) == is_preferred(
            offers[best]->0.version,
            preferred,
        ),
    ensures
        best <= other,
{
    if other < best {
        assert(is_better(offers[best]->0, offers[other]->0, preferred));
        PackageVersionV::order_flips(offers[other]->0, offers[best]->0);
    }
}

/// What the six comparisons ask: a version is below, equal to or above a required one, and each
/// comparison allows some of these; versions that are equal are treated alike.
pub proof fn comparisons_divide_the_versions(operand: Seq<char>, c: Seq<u32>, d: Seq<u32>)
    requires
        version_components(operand) == Some(d),
    ensures
        meets(None, c),
        meets(Some((Comparison::LessThan, operand)), c) <==> components_order(c, d) == Order::Less,
        meets(Some((Comparison::GreaterThan, operand)), c) <==> components_order(d, c)
            == Order::Less,
        meets(Some((Comparison::Equal, operand)), c) <==> significant(c) == significant(d),
        meets(Some((Comparison::LessThanEqual, operand)), c) <==> !meets(
            Some((Comparison::GreaterThan, operand)),
            c,
        ),
        meets(Some((Comparison::GreaterThanEqual, operand)), c) <==> !meets(
            Some((Comparison::LessThan, operand)),
            c,
        ),
        meets(Some((Comparison::NotEqual, operand)), c) <==> !meets(
            Some((Comparison::Equal, operand)),
            c,
        ),
{
    components_order_flips(c, d);
    crate::metadata::equal_versions_are_significantly_the_same(c, d);
}

/// Where no version is preferred, none that is offered is above the one that is chosen, and
/// every one that is offered earlier is below it.
pub proof fn the_highest_offer_is_chosen(
    offers: Seq<Option<PackageVersionV>>,
    i: int,
    j: int,
)
    requires
        is_best(offers, None, i),
        0 <= j < offers.len(),
        offers[j] is Some,
    ensures
        offers[i] is Some,
        components_order(offers[j]->0.version.components, offers[i]->0.version.components)
            != Order::Greater,
        j < i ==> components_order(
            offers[j]->0.version.components,
            offers[i]->0.version.components,
        ) == Order::Less,
{
    assert(!is_better(offers[j]->0, offers[i]->0, None));
    if j < i {
        assert(is_better(offers[i]->0, offers[j]->0, None));
        components_order_flips(
            offers[i]->0.version.components,
            offers[j]->0.version.components,
        );
    }
}

/// The packages that are looked ahead for are all but the project itself.
pub proof fn all_other_packages_are_looked_ahead_for(
    names: Seq<Seq<char>>,
    root: Seq<char>,
    name: Seq<char>,
)
    ensures
        other_packages(names, root).contains(name) <==> names.contains(name) && name != root,
    decreases names.len(),
{
    if names.len() > 0 {
        let t = names.drop_last();
        let rest = other_packages(t, root);
        let all = other_packages(names, root);
        all_other_packages_are_looked_ahead_for(t, root, name);
        assert(names[names.len() - 1] == names.last());
        if names.contains(name) {
            let i = choose|i: int| 0 <= i < names.len() && names[i] == name;
            if i < t.len() {
                assert(t[i] == name);
            } else if name != root {
                assert(all[all.len() - 1] == name);
            }
        }
        if t.contains(name) {
            let i = choose|i: int| 0 <= i < t.len() && t[i] == name;
            assert(names[i] == name);
        }
        if rest.contains(name) {
            let i = choose|i: int| 0 <= i < rest.len() && rest[i] == name;
            assert(all[i] == name);
        }
        if all.contains(name) {
            let i = choose|i: int| 0 <= i < all.len() && all[i] == name;
            if i < rest.len() {
                assert(rest[i] == name);
            }
        }
    }
}

/// The ranges of relations are those of the packages that they ask for, without the packages
/// of R; a range holds a version exactly if each relation to the package allows it.
pub proof fn ranges_meet_every_relation(
    ranges: Map<Seq<char>, Ranges<Vec<u32>>>,
    relations: Seq<RelationV>,
    base_packages: Seq<Seq<char>>,
    c: Seq<u32>,
    i: int,
)
    requires
        are_ranges_of(ranges, relations, base_packages, relations.len() as int),
        0 <= i < relations.len(),
    ensures
        ranges.contains_key(relations[i].package) <==> !base_packages.contains(
            relations[i].package,
        ),
        ranges.contains_key(relations[i].package) && in_segments(
            range_segments(ranges[relations[i].package]),
            significant(c),
        ) ==> meets(relations[i].requirement, c),
        ranges.contains_key(relations[i].package) && (forall|k: int|
            0 <= k < relations.len() && (#[trigger] relations[k]).package == relations[i].package
                ==> meets(relations[k].requirement, c)) ==> in_segments(
            range_segments(ranges[relations[i].package]),
            significant(c),
        ),
        forall|package: Seq<char>| #[trigger]
            ranges.contains_key(package) ==> exists|k: int|
                0 <= k < relations.len() && (#[trigger] relations[k]).package == package,
{
    let package = relations[i].package;
    let n = relations.len() as int;
    assert(is_asked_for(relations, package, n));
    if ranges.contains_key(package) {
        let range = ranges[package];
        assert(holds(range, c) <==> is_allowed(relations, package, c, n));
        assert(holds(range, c) <==> in_segments(range_segments(range), significant(c)));
    }
    assert forall|package: Seq<char>| #[trigger] ranges.contains_key(package) implies exists|k: int|
        0 <= k < relations.len() && (#[trigger] relations[k]).package == package by {
        assert(is_asked_for(relations, package, n));
    }
}

/// What a package needs are the relations of its `Imports`, `Depends` and `LinkingTo`, but for
/// those to R itself.
pub proof fn needs_come_from_three_fields(document: Seq<char>, relation: RelationV)
    ensures
        ({
            let named = relation.package != "R"@ && (crate::description::is_entry(
                crate::document::imports_of(document),
                relation,
            ) || crate::description::is_entry(crate::document::depends_of(document), relation)
                || crate::description::is_entry(
                crate::document::linking_to_of(document),
                relation,
            ));
            &&& needed_by(document).contains(relation) ==> named
            &&& named ==> crate::order::has_equal(needed_by(document), relation)
        }),
{
    crate::description::needed_relations_are_entries(document, relation);
}

/// A version that is chosen because it is preferred is an allowed one that compares equal to
/// the preferred one, and there is such a choice wherever such a version is offered; the
/// highest version is an allowed one that no other allowed version is above.
pub proof fn the_preferred_or_the_highest_version_is_chosen(
    versions: Seq<PackageVersionV>,
    range: Ranges<Vec<u32>>,
    preferred: VersionV,
    i: int,
    j: int,
)
    requires
        0 <= j < versions.len(),
        in_segments(range_segments(range), significant(versions[j].version.components)),
    ensures
        is_first_preferred(versions, range, Some(preferred), i) ==> components_order(
            versions[i].version.components,
            preferred.components,
        ) == Order::Equal && in_segments(
            range_segments(range),
            significant(versions[i].version.components),
        ),
        is_last_highest(versions, range, i) ==> in_segments(
            range_segments(range),
            significant(versions[i].version.components),
        ) && versions[j].order(versions[i]) != Order::Greater,
        components_order(versions[j].version.components, preferred.components) == Order::Equal
            ==> offers_preferred(versions, range, Some(preferred)),
        !offers_preferred(versions, range, None),
{
    assert(holds(range, versions[j].version.components));
    if components_order(versions[j].version.components, preferred.components) == Order::Equal {
        let k = lemma_first_preferred(versions, range, preferred, j);
        assert(is_first_preferred(versions, range, Some(preferred), k));
    }
    if offers_preferred(versions, range, None) {
        let k = choose|k: int| is_first_preferred(versions, range, None, k);
        assert(is_preferred(versions[k].version, None));
    }
}

proof fn lemma_first_preferred(
    versions: Seq<PackageVersionV>,
    range: Ranges<Vec<u32>>,
    preferred: VersionV,
    j: int,
) -> (k: int)
    requires
        0 <= j < versions.len(),
        is_preferred(versions[j].version, Some(preferred)),
        holds(range, versions[j].version.components),
    ensures
        is_first_preferred(versions, range, Some(preferred), k),
    decreases j,
{
    if exists|l: int|
        0 <= l < j && is_preferred((#[trigger] versions[l]).version, Some(preferred)) && holds(
            range,
            versions[l].version.components,
        ) {
        let l = choose|l: int|
            0 <= l < j && is_preferred((#[trigger] versions[l]).version, Some(preferred))
                && holds(range, versions[l].version.components);
        lemma_first_preferred(versions, range, preferred, l)
    } else {
        j
    }
}

/// The ends of a range are spelled as the relations spell them: a relation that bounds from
/// below gives a spelling for the lower end, one that bounds from above for the upper end, and
/// one that names a single version for both.
pub proof fn bounds_are_spelled_as_written(relation: RelationV, operand: Seq<char>, d: Seq<u32>)
    requires
        relation.package != "R"@,
        version_components(operand) == Some(d),
    ensures
        ({
            let asked = |comparison: Comparison|
                RelationV { package: relation.package, requirement: Some((comparison, operand)) };
            let name = relation.package;
            let included = Some(
                SpellingV { included: true, version: VersionV { text: operand, components: d } },
            );
            let excluded = Some(
                SpellingV { included: false, version: VersionV { text: operand, components: d } },
            );
            &&& lower_spelling(asked(Comparison::GreaterThanEqual), name) == included
            &&& lower_spelling(asked(Comparison::GreaterThan), name) == excluded
            &&& lower_spelling(asked(Comparison::Equal), name) == included
            &&& lower_spelling(asked(Comparison::LessThan), name) is None
            &&& lower_spelling(asked(Comparison::LessThanEqual), name) is None
            &&& upper_spelling(asked(Comparison::LessThanEqual), name) == included
            &&& upper_spelling(asked(Comparison::LessThan), name) == excluded
            &&& upper_spelling(asked(Comparison::Equal), name) == included
            &&& upper_spelling(asked(Comparison::GreaterThan), name) is None
            &&& upper_spelling(asked(Comparison::GreaterThanEqual), name) is None
        }),
        forall|other: Seq<char>|
            other != relation.package ==> (#[trigger] lower_spelling(relation, other)) is None
                && upper_spelling(relation, other) is None,
{
}

/// Of the versions that a repository lists, and its latest one, an allowed one is chosen if
/// there is any. A listed one that is preferred comes first; otherwise no allowed version is
/// above the chosen one.
pub proof fn allowed_versions_are_chosen(
    latest: &PackageVersion,
    versions: &Vec<PackageVersion>,
    range: &Ranges<Vec<u32>>,
    preferred: &Version,
    r: Option<PackageVersion>,
    i: int,
)
    requires
        call_ensures(choose_listed, (latest, versions, range, Some(preferred)), r),
        0 <= i < versions@.len(),
        in_segments(range_segments(*range), significant(versions@[i]@.version.components)),
    ensures
        r is Some,
        in_segments(range_segments(*range), significant(r->0@.version.components)),
        components_order(versions@[i]@.version.components, preferred@.components) == Order::Equal
            ==> components_order(r->0@.version.components, preferred@.components) == Order::Equal,
        (forall|k: int|
            0 <= k < versions@.len() && in_segments(
                range_segments(*range),
                significant((#[trigger] versions@[k])@.version.components),
            ) ==> components_order(versions@[k]@.version.components, preferred@.components)
                != Order::Equal) ==> versions@[i]@.order(r->0@) != Order::Greater,
{
    let listed = candidate_views(versions@);
    let all = seq![latest@] + listed;
    assert(listed[i] == versions@[i]@);
    assert(all[i + 1] == listed[i]);
    assert(holds(*range, all[i + 1].version.components));
    let wanted = opt_plain(Some(preferred));
    if offers_preferred(listed, *range, wanted) {
        let k = choose|k: int|
            is_first_preferred(listed, *range, wanted, k) && r->0@ == listed[k];
        assert(listed[k] == versions@[k]@);
    } else {
        if components_order(listed[i].version.components, preferred@.components) == Order::Equal {
            let k = lemma_first_preferred(listed, *range, preferred@, i);
            assert(is_first_preferred(listed, *range, wanted, k));
        }
        if r is Some {
            let k = choose|k: int| is_last_highest(all, *range, k) && r->0@ == all[k];
        }
    }
}

/// The latest version is chosen without asking for others if it is allowed and nothing else is
/// preferred; a package that has none has no version.
pub proof fn latest_versions_are_chosen(
    latest: Option<&PackageVersion>,
    range: &Ranges<Vec<u32>>,
    r: LatestChoice,
)
    requires
        call_ensures(choose_latest, (latest, range, None::<&Version>), r),
    ensures
        latest is None ==> r == LatestChoice::Chosen(None),
        latest matches Some(version) ==> (in_segments(
            range_segments(*range),
            significant(version@.version.components),
        ) ==> (r matches LatestChoice::Chosen(Some(chosen)) && chosen@ == version@)),
        latest matches Some(version) ==> (!in_segments(
            range_segments(*range),
            significant(version@.version.components),
        ) ==> r is AskVersions),
{
}

/// The relations of the project itself are its own, packages of R need nothing, and what any
/// other package needs stands in its description.
pub proof fn needs_are_asked_of_their_source(
    package: &str,
    root: &str,
    base_packages: &SortedSet<String>,
    r: DependencySource,
)
    requires
        call_ensures(dependency_source, (package, root, base_packages), r),
    ensures
        r == DependencySource::Root <==> package@ == root@,
        r == DependencySource::Nothing <==> package@ != root@ && base_packages@.contains(package@),
        r == DependencySource::Description <==> package@ != root@ && !base_packages@.contains(
            package@,
        ),
{
}

/// The range of a relation holds exactly the versions that it allows.
pub proof fn ranges_hold_what_relations_allow(
    relation: &Relation,
    r: Ranges<Vec<u32>>,
    c: Seq<u32>,
    operand: Seq<char>,
    d: Seq<u32>,
)
    requires
        call_ensures(package_version_range_from_relation, (relation,), r),
        version_components(operand) == Some(d),
    ensures
        relation@.requirement is None ==> in_segments(range_segments(r), significant(c)),
        relation@.requirement == Some((Comparison::GreaterThanEqual, operand)) ==> (in_segments(
            range_segments(r),
            significant(c),
        ) <==> components_order(c, d) != Order::Less),
        relation@.requirement == Some((Comparison::LessThan, operand)) ==> (in_segments(
            range_segments(r),
            significant(c),
        ) <==> components_order(c, d) == Order::Less),
        relation@.requirement == Some((Comparison::Equal, operand)) ==> (in_segments(
            range_segments(r),
            significant(c),
        ) <==> components_order(c, d) == Order::Equal),
{
    assert(holds(r, c) <==> meets(relation@.requirement, c));
}

/// The spellings of an end are those of the relations to the package that bound it, each as it
/// is written.
pub proof fn spellings_come_from_relations(relations: Seq<RelationV>, package: Seq<char>, i: int)
    requires
        0 <= i < relations.len(),
    ensures
        lower_spelling(relations[i], package) matches Some(spelling) ==> lower_spellings_of(
            relations,
            package,
        ).contains(spelling),
        upper_spelling(relations[i], package) matches Some(spelling) ==> upper_spellings_of(
            relations,
            package,
        ).contains(spelling),
    decreases relations.len(),
{
    let t = relations.drop_last();
    let n = relations.len() - 1;
    assert(relations[n] == relations.last());
    let a = lower_spellings_of(relations, package);
    let b = upper_spellings_of(relations, package);
    let x = lower_spellings_of(t, package);
    let y = upper_spellings_of(t, package);
    if i < n {
        assert(t[i] == relations[i]);
        spellings_come_from_relations(t, package, i);
        if let Some(spelling) = lower_spelling(relations[i], package) {
            let k = choose|k: int| 0 <= k < x.len() && x[k] == spelling;
            if lower_spelling(relations.last(), package) is Some {
                assert(a[k + 1] == spelling);
            } else {
                assert(a[k] == spelling);
            }
        }
        if let Some(spelling) = upper_spelling(relations[i], package) {
            let k = choose|k: int| 0 <= k < y.len() && y[k] == spelling;
            assert(b[k] == spelling);
        }
    } else {
        if let Some(spelling) = lower_spelling(relations[i], package) {
            assert(a[0] == spelling);
        }
        if let Some(spelling) = upper_spelling(relations[i], package) {
            assert(b[b.len() - 1] == spelling);
        }
    }
}

} // verus!
