//! Explanations of why no versions fit together. Reductions only change what is said, never
//! what the solver has found.
use crate::metadata::{significant, Version, VersionV};
use crate::order::{Order, Total};
use crate::range::{
    all_versions, are_segments, contains, copy, empty, exactly, in_segments, only,
    range_segments, rows, rows_increase, segment_views, segments, simplified, simplify, united,
    union, versions_compare_as_rows, Edge, EdgeV,
};
use crate::sorted::{SortedSet, TextMap};
use crate::text;
use crate::text::{decimal_text, has_prefix, joined, opt_text, texts};
use pubgrub::Ranges;
use vstd::prelude::*;

verus! {

/// The parts of a range.
pub type Parts = Seq<(EdgeV, EdgeV)>;

/// A version that ends a part of a range, as it was written.
#[derive(Debug)]
pub struct Spelling {
    pub included: bool,
    pub version: Version,
}

/// A version that ends a part of a range, as it was written.
pub struct SpellingV {
    pub included: bool,
    pub version: VersionV,
}

impl Spelling {
    /// The version as it was written.
    pub open spec fn view(&self) -> SpellingV {
        SpellingV { included: self.included, version: self.version@ }
    }
}

/// The versions of a list, as they were written.
pub open spec fn spelling_views(v: Seq<Spelling>) -> Seq<SpellingV> {
    v.map_values(|x: Spelling| x@)
}

fn add_spellings(out: &mut Vec<Spelling>, more: &Vec<Spelling>)
    ensures
        spelling_views(final(out)@) == spelling_views(old(out)@) + spelling_views(more@),
{
    let ghost before = spelling_views(out@);
    let ghost all = spelling_views(more@);
    assert(before + all.take(0) =~= before);
    let mut i: usize = 0;
    while i < more.len()
        invariant
            i <= more@.len(),
            all == spelling_views(more@),
            spelling_views(out@) == before + all.take(i as int),
        decreases more@.len() - i,
    {
        let ghost seen = out@;
        let next = Spelling { included: more[i].included, version: more[i].version.copy() };
        assert(next@ == all[i as int]);
        out.push(next);
        assert(spelling_views(out@) =~= spelling_views(seen).push(next@));
        assert(before + all.take(i + 1) =~= (before + all.take(i as int)).push(all[i as int]));
        i = i + 1;
    }
    assert(all.take(i as int) =~= all);
}

fn copy_spellings(v: &Vec<Spelling>) -> (r: Vec<Spelling>)
    ensures
        spelling_views(r@) == spelling_views(v@),
{
    let mut out: Vec<Spelling> = Vec::new();
    add_spellings(&mut out, v);
    assert(spelling_views(out@) =~= spelling_views(v@));
    out
}

/// A range with the versions that begin and end its parts as they were written.
#[derive(Debug)]
pub struct Span {
    pub range: Ranges<Vec<u32>>,
    pub lowers: Vec<Spelling>,
    pub uppers: Vec<Spelling>,
}

/// A range with the versions that begin and end its parts as they were written.
pub struct SpanV {
    pub parts: Parts,
    pub lowers: Seq<SpellingV>,
    pub uppers: Seq<SpellingV>,
}

/// Two ranges as one. Where both have a version at one place, it is written as in the first.
pub open spec fn both_spans(a: SpanV, b: SpanV) -> SpanV {
    SpanV {
        parts: united(a.parts, b.parts),
        lowers: a.lowers + b.lowers,
        uppers: a.uppers + b.uppers,
    }
}

impl Span {
    /// The range, as numbers, with its versions as they were written.
    pub open spec fn view(&self) -> SpanV {
        SpanV {
            parts: range_segments(self.range),
            lowers: spelling_views(self.lowers@),
            uppers: spelling_views(self.uppers@),
        }
    }

    /// The range is sound.
    pub open spec fn wf(&self) -> bool {
        are_segments(range_segments(self.range))
    }

    /// A copy.
    pub fn copy(&self) -> (r: Span)
        requires
            self.wf(),
        ensures
            r.wf(),
            r@ == self@,
    {
        Span {
            range: copy(&self.range),
            lowers: copy_spellings(&self.lowers),
            uppers: copy_spellings(&self.uppers),
        }
    }

    fn both(&self, other: &Span) -> (r: Span)
        requires
            self.wf(),
            other.wf(),
        ensures
            r.wf(),
            r@ == both_spans(self@, other@),
    {
        let mut lowers = copy_spellings(&self.lowers);
        add_spellings(&mut lowers, &other.lowers);
        let mut uppers = copy_spellings(&self.uppers);
        add_spellings(&mut uppers, &other.uppers);
        Span { range: union(&self.range, &other.range), lowers, uppers }
    }
}

/// What is stated of a package: that its version is in a range, or that it is not.
#[derive(Debug)]
pub enum Term {
    Positive(Span),
    Negative(Span),
}

/// What is stated of a package.
pub enum TermV {
    Positive(SpanV),
    Negative(SpanV),
}

impl Term {
    /// The statement, as numbers.
    pub open spec fn view(&self) -> TermV {
        match self {
            Term::Positive(range) => TermV::Positive(range@),
            Term::Negative(range) => TermV::Negative(range@),
        }
    }

    /// The range is sound.
    pub open spec fn wf(&self) -> bool {
        match self {
            Term::Positive(range) => range.wf(),
            Term::Negative(range) => range.wf(),
        }
    }
}

/// A fact that an explanation begins with.
#[derive(Debug)]
pub enum Cause {
    NotRoot { package: String, version: String },
    NoVersions { package: String, range: Span },
    FromDependencyOf { package: String, range: Span, dependency: String, requested: Span },
    Custom { package: String, range: Span, reason: String },
}

/// A fact that an explanation begins with.
pub enum CauseV {
    NotRoot(Seq<char>, Seq<char>),
    NoVersions(Seq<char>, SpanV),
    FromDependencyOf(Seq<char>, SpanV, Seq<char>, SpanV),
    Custom(Seq<char>, SpanV, Seq<char>),
}

impl Cause {
    /// The fact, as characters and numbers.
    pub open spec fn view(&self) -> CauseV {
        match self {
            Cause::NotRoot { package, version } => CauseV::NotRoot(package@, version@),
            Cause::NoVersions { package, range } => CauseV::NoVersions(package@, range@),
            Cause::FromDependencyOf { package, range, dependency, requested } => {
                CauseV::FromDependencyOf(package@, range@, dependency@, requested@)
            },
            Cause::Custom { package, range, reason } => CauseV::Custom(package@, range@, reason@),
        }
    }

    /// The ranges are sound.
    pub open spec fn wf(&self) -> bool {
        match self {
            Cause::NotRoot { .. } => true,
            Cause::NoVersions { range, .. } => range.wf(),
            Cause::FromDependencyOf { range, requested, .. } => range.wf() && requested.wf(),
            Cause::Custom { range, .. } => range.wf(),
        }
    }
}

/// A conclusion from two causes.
#[derive(Debug)]
pub struct Conclusion {
    pub terms: TextMap<Term>,
    pub shared_id: Option<usize>,
    pub cause1: Box<Tree>,
    pub cause2: Box<Tree>,
}

/// An explanation.
#[derive(Debug)]
pub enum Tree {
    External(Cause),
    Derived(Conclusion),
}

/// Statements, by package.
pub struct TermsV {
    pub names: Seq<Seq<char>>,
    pub terms: Seq<TermV>,
}

/// A conclusion from two causes.
pub struct ConclusionV {
    pub terms: TermsV,
    pub shared_id: Option<usize>,
    pub cause1: Box<TreeV>,
    pub cause2: Box<TreeV>,
}

/// An explanation.
pub enum TreeV {
    External(CauseV),
    Derived(ConclusionV),
}

/// The statements of a list.
pub open spec fn term_views(v: Seq<Term>) -> Seq<TermV> {
    v.map_values(|x: Term| x@)
}

/// Statements, by package.
pub open spec fn terms_view(terms: TextMap<Term>) -> TermsV {
    TermsV { names: texts(terms.keys@), terms: term_views(terms.values@) }
}

/// The packages are in order, and the ranges are sound.
pub open spec fn terms_wf(terms: TextMap<Term>) -> bool {
    terms.wf() && forall|i: int| 0 <= i < terms.values@.len() ==> (#[trigger] terms.values@[i]).wf()
}

/// An explanation, as characters and numbers.
pub open spec fn tree_view(tree: Tree) -> TreeV
    decreases tree,
{
    match tree {
        Tree::External(cause) => TreeV::External(cause@),
        Tree::Derived(conclusion) => TreeV::Derived(
            ConclusionV {
                terms: terms_view(conclusion.terms),
                shared_id: conclusion.shared_id,
                cause1: Box::new(tree_view(*conclusion.cause1)),
                cause2: Box::new(tree_view(*conclusion.cause2)),
            },
        ),
    }
}

/// All that is in an explanation is sound.
pub open spec fn tree_wf(tree: Tree) -> bool
    decreases tree,
{
    match tree {
        Tree::External(cause) => cause.wf(),
        Tree::Derived(conclusion) => {
            &&& terms_wf(conclusion.terms)
            &&& tree_wf(*conclusion.cause1)
            &&& tree_wf(*conclusion.cause2)
        },
    }
}

/// Some fact of an explanation is that dependency metadata could not be read.
pub open spec fn tells_of_metadata(tree: TreeV) -> bool
    decreases tree,
{
    match tree {
        TreeV::External(CauseV::Custom(_, _, reason)) => has_prefix(
            reason,
            "invalid dependency metadata:"@,
        ),
        TreeV::External(_) => false,
        TreeV::Derived(conclusion) => tells_of_metadata(*conclusion.cause1) || tells_of_metadata(
            *conclusion.cause2,
        ),
    }
}

/// Whether some fact of an explanation is that dependency metadata could not be read.
pub fn has_metadata_failure(tree: &Tree) -> (r: bool)
    ensures
        r == tells_of_metadata(tree_view(*tree)),
    decreases tree,
{
    match tree {
        Tree::External(Cause::Custom { reason, .. }) => text::starts_with(
            reason.as_str(),
            "invalid dependency metadata:",
        ),
        Tree::External(_) => false,
        Tree::Derived(conclusion) => has_metadata_failure(&conclusion.cause1)
            || has_metadata_failure(&conclusion.cause2),
    }
}

/// The advice that goes with an explanation.
pub fn advice(metadata_failure: bool) -> (r: &'static str)
    ensures
        r@ == if metadata_failure {
            "Dependency metadata could not be parsed. Check the affected package's DESCRIPTION or use a version/repository with valid metadata."@
        } else {
            "Check the requested versions in DESCRIPTION and the packages available in your configured repositories."@
        },
{
    if metadata_failure {
        "Dependency metadata could not be parsed. Check the affected package's DESCRIPTION or use a version/repository with valid metadata."
    } else {
        "Check the requested versions in DESCRIPTION and the packages available in your configured repositories."
    }
}

/// All that is stated is that the version of one package is in a range.
pub open spec fn is_positive(terms: TermsV, package: Seq<char>) -> bool {
    terms.names.len() == 1 && terms.names[0] == package && terms.terms[0] is Positive
}

fn positive_package(terms: &TextMap<Term>, package: &str) -> (r: bool)
    requires
        terms.wf(),
    ensures
        r == is_positive(terms_view(*terms), package@),
{
    if terms.keys.len() != 1 || !text::same(terms.keys[0].as_str(), package) {
        assert(terms_view(*terms).names.len() == terms.keys@.len());
        return false;
    }
    assert(terms_view(*terms).names[0] == terms.keys@[0]@);
    assert(terms_view(*terms).terms[0] == terms.values@[0]@);
    match &terms.values[0] {
        Term::Positive(_) => true,
        Term::Negative(_) => false,
    }
}

/// An explanation whose first cause is for the same reason as part of the second: the two
/// are put together.
pub open spec fn put_together(
    terms: TermsV,
    shared_id: Option<usize>,
    external: TreeV,
    other: TreeV,
) -> Option<TreeV> {
    match external {
        TreeV::External(CauseV::Custom(package, range, reason)) => if !is_positive(
            terms,
            package,
        ) {
            None
        } else {
            match other {
                TreeV::External(CauseV::Custom(other_package, other_range, other_reason)) => if package
                    == other_package && reason == other_reason {
                    Some(
                        TreeV::External(
                            CauseV::Custom(package, both_spans(range, other_range), reason),
                        ),
                    )
                } else {
                    None
                },
                TreeV::Derived(inner) => if is_positive(inner.terms, package) {
                    match nested(terms, shared_id, package, range, reason, *inner.cause1, *inner.cause2) {
                        Some(tree) => Some(tree),
                        None => nested(
                            terms,
                            shared_id,
                            package,
                            range,
                            reason,
                            *inner.cause2,
                            *inner.cause1,
                        ),
                    }
                } else {
                    None
                },
                _ => None,
            }
        },
        _ => None,
    }
}

/// An explanation in which a cause of the second cause is for the same reason as the first.
pub open spec fn nested(
    terms: TermsV,
    shared_id: Option<usize>,
    package: Seq<char>,
    range: SpanV,
    reason: Seq<char>,
    candidate: TreeV,
    remaining: TreeV,
) -> Option<TreeV> {
    match candidate {
        TreeV::External(CauseV::Custom(other_package, other_range, other_reason)) => if package
            == other_package && reason == other_reason {
            Some(
                TreeV::Derived(
                    ConclusionV {
                        terms,
                        shared_id,
                        cause1: Box::new(remaining),
                        cause2: Box::new(
                            TreeV::External(
                                CauseV::Custom(package, both_spans(range, other_range), reason),
                            ),
                        ),
                    },
                ),
            )
        } else {
            None
        },
        _ => None,
    }
}

/// An explanation in which versions that cannot be used for one reason stand together.
pub open spec fn collapsed(tree: TreeV) -> TreeV
    decreases tree,
{
    match tree {
        TreeV::External(_) => tree,
        TreeV::Derived(conclusion) => {
            let first = collapsed(*conclusion.cause1);
            let second = collapsed(*conclusion.cause2);
            match put_together(conclusion.terms, conclusion.shared_id, first, second) {
                Some(tree) => tree,
                None => match put_together(conclusion.terms, conclusion.shared_id, second, first) {
                    Some(tree) => tree,
                    None => TreeV::Derived(
                        ConclusionV {
                            terms: conclusion.terms,
                            shared_id: conclusion.shared_id,
                            cause1: Box::new(first),
                            cause2: Box::new(second),
                        },
                    ),
                },
            }
        },
    }
}

/// Two causes that were put together, or the causes as they were.
enum Attempt {
    Done(Tree),
    Apart(TextMap<Term>, Box<Tree>, Box<Tree>),
}

/// The range that two causes are for together, if they are for the same package and reason.
fn shared_range(package: &str, range: &Span, reason: &str, other: &Tree) -> (r: Option<Span>)
    requires
        range.wf(),
        tree_wf(*other),
    ensures
        match tree_view(*other) {
            TreeV::External(CauseV::Custom(other_package, other_range, other_reason)) => if package@
                == other_package && reason@ == other_reason {
                r matches Some(both) && both.wf() && both@ == both_spans(range@, other_range)
            } else {
                r is None
            },
            _ => r is None,
        },
{
    match other {
        Tree::External(
            Cause::Custom { package: other_package, range: other_range, reason: other_reason },
        ) => {
            if text::same(package, other_package.as_str()) && text::same(
                reason,
                other_reason.as_str(),
            ) {
                Some(range.both(other_range))
            } else {
                None
            }
        },
        _ => None,
    }
}

fn attempt(
    terms: TextMap<Term>,
    shared_id: Option<usize>,
    external: Box<Tree>,
    other: Box<Tree>,
) -> (r: Attempt)
    requires
        terms_wf(terms),
        tree_wf(*external),
        tree_wf(*other),
    ensures
        match r {
            Attempt::Done(tree) => tree_wf(tree) && put_together(
                terms_view(terms),
                shared_id,
                tree_view(*external),
                tree_view(*other),
            ) == Some(tree_view(tree)),
            Attempt::Apart(kept, first, second) => kept == terms && first == external && second
                == other && put_together(
                terms_view(terms),
                shared_id,
                tree_view(*external),
                tree_view(*other),
            ) is None,
        },
{
    proof {
        reveal_with_fuel(tree_view, 3);
        reveal_with_fuel(tree_wf, 3);
    }
    let (package, range, reason): (String, Span, String) = match &*external {
        Tree::External(Cause::Custom { package, range, reason }) => (
            package.clone(),
            range.copy(),
            reason.clone(),
        ),
        _ => {
            return Attempt::Apart(terms, external, other);
        },
    };
    if !positive_package(&terms, package.as_str()) {
        return Attempt::Apart(terms, external, other);
    }
    match shared_range(package.as_str(), &range, reason.as_str(), &other) {
        Some(both) => {
            return Attempt::Done(Tree::External(Cause::Custom { package, range: both, reason }));
        },
        None => {},
    }
    match *other {
        Tree::External(cause) => Attempt::Apart(terms, external, Box::new(Tree::External(cause))),
        Tree::Derived(inner) => {
            if !positive_package(&inner.terms, package.as_str()) {
                return Attempt::Apart(terms, external, Box::new(Tree::Derived(inner)));
            }
            match shared_range(package.as_str(), &range, reason.as_str(), &inner.cause1) {
                Some(both) => {
                    let joint = Tree::External(Cause::Custom { package, range: both, reason });
                    return Attempt::Done(
                        Tree::Derived(
                            Conclusion {
                                terms,
                                shared_id,
                                cause1: inner.cause2,
                                cause2: Box::new(joint),
                            },
                        ),
                    );
                },
                None => {},
            }
            match shared_range(package.as_str(), &range, reason.as_str(), &inner.cause2) {
                Some(both) => {
                    let joint = Tree::External(Cause::Custom { package, range: both, reason });
                    Attempt::Done(
                        Tree::Derived(
                            Conclusion {
                                terms,
                                shared_id,
                                cause1: inner.cause1,
                                cause2: Box::new(joint),
                            },
                        ),
                    )
                },
                None => Attempt::Apart(terms, external, Box::new(Tree::Derived(inner))),
            }
        },
    }
}

/// Puts causes together that are for the same reason, beside each other or one within the
/// other; all else stays as it is.
pub fn collapse_unavailable(tree: Tree) -> (r: Tree)
    requires
        tree_wf(tree),
    ensures
        tree_wf(r),
        tree_view(r) == collapsed(tree_view(tree)),
    decreases tree,
{
    match tree {
        Tree::External(cause) => Tree::External(cause),
        Tree::Derived(conclusion) => {
            let Conclusion { terms, shared_id, cause1, cause2 } = conclusion;
            let first = Box::new(collapse_unavailable(*cause1));
            let second = Box::new(collapse_unavailable(*cause2));
            match attempt(terms, shared_id, first, second) {
                Attempt::Done(tree) => tree,
                Attempt::Apart(terms, first, second) => match attempt(
                    terms,
                    shared_id,
                    second,
                    first,
                ) {
                    Attempt::Done(tree) => tree,
                    Attempt::Apart(terms, second, first) => Tree::Derived(
                        Conclusion { terms, shared_id, cause1: first, cause2: second },
                    ),
                },
            }
        },
    }
}

/// What an explanation is given for: the name of the project, and the versions that are
/// listed of packages.
#[derive(Debug)]
pub struct ReportFormatter {
    pub root: Option<String>,
    pub versions: TextMap<SortedSet<Version>>,
}

/// The components of versions without the zeros at the end.
pub open spec fn version_rows(v: Seq<VersionV>) -> Seq<Seq<u32>> {
    v.map_values(|x: VersionV| significant(x.components))
}

fn keys_of(set: &SortedSet<Version>) -> (r: Vec<Vec<u32>>)
    requires
        set.wf(),
    ensures
        rows(r@) == version_rows(set@),
        rows_increase(rows(r@)),
{
    let ghost all = version_rows(set@);
    let mut out: Vec<Vec<u32>> = Vec::new();
    let mut i: usize = 0;
    while i < set.items.len()
        invariant
            i <= set.items@.len(),
            all == version_rows(set@),
            out@.len() == i,
            forall|k: int| 0 <= k < i ==> (#[trigger] out@[k])@ == all[k],
        decreases set.items@.len() - i,
    {
        assert(set@[i as int] == set.items@[i as int]@);
        out.push(set.items[i].significant());
        i = i + 1;
    }
    assert(rows(out@) =~= all);
    proof {
        assert forall|a: int, b: int| 0 <= a < b < all.len() implies crate::range::row_order(
            #[trigger] all[a],
            #[trigger] all[b],
        ) == Order::Less by {
            assert(set@[a].order(set@[b]) == Order::Less);
            versions_compare_as_rows(set@[a].components, set@[b].components);
        }
    }
    out
}

/// Versions of a list where they belong to a range.
pub open spec fn listed_spellings(list: Seq<VersionV>) -> Seq<SpellingV> {
    list.map_values(|v: VersionV| SpellingV { included: true, version: v })
}

/// A range as it is shown where the versions of the package are known.
pub open spec fn shown_range(versions: Option<Seq<VersionV>>, range: SpanV) -> SpanV {
    match versions {
        None => range,
        Some(list) => if list.len() == 0 {
            range
        } else if list.len() == 1 && in_segments(range.parts, version_rows(list)[0]) {
            SpanV {
                parts: only(version_rows(list)[0]),
                lowers: listed_spellings(list),
                uppers: listed_spellings(list),
            }
        } else {
            SpanV { parts: simplified(range.parts, version_rows(list)), ..range }
        },
    }
}

fn spellings_of(set: &SortedSet<Version>) -> (r: Vec<Spelling>)
    ensures
        spelling_views(r@) == listed_spellings(set@),
{
    let ghost all = listed_spellings(set@);
    let mut out: Vec<Spelling> = Vec::new();
    let mut i: usize = 0;
    while i < set.items.len()
        invariant
            i <= set.items@.len(),
            all == listed_spellings(set@),
            out@.len() == i,
            forall|k: int| 0 <= k < i ==> (#[trigger] out@[k])@ == all[k],
        decreases set.items@.len() - i,
    {
        assert(set@[i as int] == set.items@[i as int]@);
        let next = Spelling { included: true, version: set.items[i].copy() };
        assert(next@ == all[i as int]);
        out.push(next);
        i = i + 1;
    }
    assert(spelling_views(out@) =~= all);
    out
}

/// The range is that of all versions.
pub open spec fn is_full(range: Parts) -> bool {
    range == all_versions()
}

fn full_range(range: &Ranges<Vec<u32>>) -> (r: bool)
    ensures
        r == is_full(range_segments(*range)),
{
    let parts = segments(range);
    let ghost all = range_segments(*range);
    assert(segment_views(parts@) == all);
    if parts.len() != 1 {
        assert(all.len() == parts@.len());
        return false;
    }
    assert(all[0] == (parts@[0].0@, parts@[0].1@));
    match (&parts[0].0, &parts[0].1) {
        (Edge::Unbounded, Edge::Unbounded) => {
            assert(all =~= all_versions());
            true
        },
        _ => {
            assert(all_versions()[0] == (EdgeV::Unbounded, EdgeV::Unbounded));
            false
        },
    }
}

/// How a version that ends a part of a range is shown: as the first of the versions that
/// are equal to it and end a part in the same way, or as its numbers divided by points.
pub open spec fn spelled_key(spellings: Seq<SpellingV>, included: bool, key: Seq<u32>) -> Seq<char>
    decreases spellings.len(),
{
    if spellings.len() == 0 {
        joined(key.map_values(|n: u32| decimal_text(n as nat)), "."@)
    } else if spellings[0].included == included && significant(spellings[0].version.components)
        == key {
        spellings[0].version.text
    } else {
        spelled_key(spellings.skip(1), included, key)
    }
}

fn same_row(a: &Vec<u32>, b: &Vec<u32>) -> (r: bool)
    ensures
        r == (a@ == b@),
{
    if a.len() != b.len() {
        return false;
    }
    let mut i: usize = 0;
    while i < a.len()
        invariant
            i <= a@.len() == b@.len(),
            forall|k: int| 0 <= k < i ==> a@[k] == b@[k],
        decreases a@.len() - i,
    {
        if a[i] != b[i] {
            return false;
        }
        i = i + 1;
    }
    assert(a@ =~= b@);
    true
}

/// How a version that ends a part of a range is shown.
pub fn spell(spellings: &Vec<Spelling>, included: bool, key: &Vec<u32>) -> (r: String)
    ensures
        r@ == spelled_key(spelling_views(spellings@), included, key@),
{
    let ghost all = spelling_views(spellings@);
    let mut i: usize = 0;
    assert(all.skip(0) =~= all);
    while i < spellings.len()
        invariant
            i <= spellings@.len(),
            all == spelling_views(spellings@),
            spelled_key(all, included, key@) == spelled_key(all.skip(i as int), included, key@),
        decreases spellings@.len() - i,
    {
        let known = spellings[i].version.significant();
        assert(all.skip(i as int)[0] == spellings@[i as int]@);
        assert(all.skip(i as int).skip(1) =~= all.skip(i + 1));
        if spellings[i].included == included && same_row(&known, key) {
            return spellings[i].version.text.clone();
        }
        i = i + 1;
    }
    let ghost numbers = key@.map_values(|n: u32| decimal_text(n as nat));
    let mut parts: Vec<String> = Vec::new();
    let mut j: usize = 0;
    while j < key.len()
        invariant
            j <= key@.len(),
            parts@.len() == j,
            numbers == key@.map_values(|n: u32| decimal_text(n as nat)),
            forall|k: int| 0 <= k < j ==> (#[trigger] parts@[k])@ == numbers[k],
        decreases key@.len() - j,
    {
        parts.push(text::decimal(key[j] as u64));
        j = j + 1;
    }
    assert(texts(parts@) =~= numbers);
    text::join(&parts, ".")
}

/// The lower end of a part as it is shown.
pub open spec fn lower_text(spellings: Seq<SpellingV>, edge: EdgeV) -> Seq<Seq<char>> {
    match edge {
        EdgeV::Unbounded => Seq::empty(),
        EdgeV::Included(key) => seq![">= "@ + spelled_key(spellings, true, key)],
        EdgeV::Excluded(key) => seq!["> "@ + spelled_key(spellings, false, key)],
    }
}

/// The upper end of a part as it is shown.
pub open spec fn upper_text(spellings: Seq<SpellingV>, edge: EdgeV) -> Seq<Seq<char>> {
    match edge {
        EdgeV::Unbounded => Seq::empty(),
        EdgeV::Included(key) => seq!["<= "@ + spelled_key(spellings, true, key)],
        EdgeV::Excluded(key) => seq!["< "@ + spelled_key(spellings, false, key)],
    }
}

/// A part of a range as it is shown.
pub open spec fn segment_text(range: SpanV, segment: (EdgeV, EdgeV)) -> Seq<char> {
    "("@ + joined(lower_text(range.lowers, segment.0) + upper_text(range.uppers, segment.1), ", "@)
        + ")"@
}

/// The only version of a range.
pub open spec fn only_version(range: Parts) -> Option<Seq<u32>> {
    if range.len() == 1 {
        match range[0] {
            (EdgeV::Included(a), EdgeV::Included(b)) => if a == b {
                Some(a)
            } else {
                None
            },
            _ => None,
        }
    } else {
        None
    }
}

/// A range as it is shown.
pub open spec fn range_text(range: SpanV) -> Seq<char> {
    if range.parts.len() == 0 {
        "(no versions)"@
    } else if is_full(range.parts) {
        "(any version)"@
    } else {
        match only_version(range.parts) {
            Some(key) => "(== "@ + spelled_key(range.lowers, true, key) + ")"@,
            None => joined(
                range.parts.map_values(|s: (EdgeV, EdgeV)| segment_text(range, s)),
                " or "@,
            ),
        }
    }
}

fn single_version(range: &Ranges<Vec<u32>>) -> (r: Option<Vec<u32>>)
    ensures
        match r {
            Some(key) => only_version(range_segments(*range)) == Some(key@),
            None => only_version(range_segments(*range)) is None,
        },
{
    let parts = segments(range);
    let ghost all = range_segments(*range);
    assert(segment_views(parts@) == all);
    assert(all.len() == parts@.len());
    if parts.len() != 1 {
        return None;
    }
    assert(all[0] == (parts@[0].0@, parts@[0].1@));
    match (&parts[0].0, &parts[0].1) {
        (Edge::Included(a), Edge::Included(b)) => if same_row(a, b) {
            let key = a.clone();
            assert(key@ =~= a@);
            Some(key)
        } else {
            None
        },
        _ => None,
    }
}

/// A range as it is shown.
pub fn format_range(range: &Span) -> (r: String)
    ensures
        r@ == range_text(range@),
{
    let ghost all = range_segments(range.range);
    let parts = segments(&range.range);
    assert(segment_views(parts@) == all);
    assert(all.len() == parts@.len());
    if parts.len() == 0 {
        return "(no versions)".to_owned();
    }
    if full_range(&range.range) {
        return "(any version)".to_owned();
    }
    match single_version(&range.range) {
        Some(key) => {
            let version = spell(&range.lowers, true, &key);
            return text::cat3("(== ", version.as_str(), ")");
        },
        None => {},
    }
    let ghost shown = all.map_values(|s: (EdgeV, EdgeV)| segment_text(range@, s));
    let mut out: Vec<String> = Vec::new();
    let mut i: usize = 0;
    while i < parts.len()
        invariant
            i <= parts@.len(),
            segment_views(parts@) == all,
            shown == all.map_values(|s: (EdgeV, EdgeV)| segment_text(range@, s)),
            out@.len() == i,
            forall|k: int| 0 <= k < i ==> (#[trigger] out@[k])@ == shown[k],
        decreases parts@.len() - i,
    {
        assert(all[i as int] == (parts@[i as int].0@, parts@[i as int].1@));
        let ghost segment = all[i as int];
        let mut bounds: Vec<String> = Vec::new();
        match &parts[i].0 {
            Edge::Unbounded => {},
            Edge::Included(key) => {
                let version = spell(&range.lowers, true, key);
                bounds.push(text::cat(">= ", version.as_str()));
            },
            Edge::Excluded(key) => {
                let version = spell(&range.lowers, false, key);
                bounds.push(text::cat("> ", version.as_str()));
            },
        }
        assert(texts(bounds@) =~= lower_text(range@.lowers, segment.0));
        match &parts[i].1 {
            Edge::Unbounded => {},
            Edge::Included(key) => {
                let version = spell(&range.uppers, true, key);
                bounds.push(text::cat("<= ", version.as_str()));
            },
            Edge::Excluded(key) => {
                let version = spell(&range.uppers, false, key);
                bounds.push(text::cat("< ", version.as_str()));
            },
        }
        assert(texts(bounds@) =~= lower_text(range@.lowers, segment.0) + upper_text(range@.uppers, segment.1));
        let inner = text::join(&bounds, ", ");
        out.push(text::cat3("(", inner.as_str(), ")"));
        i = i + 1;
    }
    assert(texts(out@) =~= shown);
    text::join(&out, " or ")
}

/// The versions that are listed of a package.
pub open spec fn listed_versions(
    versions: Map<Seq<char>, SortedSet<Version>>,
    package: Seq<char>,
) -> Option<Seq<VersionV>> {
    if versions.contains_key(package) {
        Some(versions[package]@)
    } else {
        None
    }
}

/// Some versions are listed of a package.
pub open spec fn has_versions(
    versions: Map<Seq<char>, SortedSet<Version>>,
    package: Seq<char>,
) -> bool {
    listed_versions(versions, package) matches Some(list) && list.len() > 0
}

/// A package in a range as the subject of a sentence.
pub open spec fn subject(formatter: ReportFormatter, package: Seq<char>, range: SpanV) -> Seq<char> {
    if opt_text(formatter.root) == Some(package) {
        "your project"@
    } else if is_full(range.parts) {
        if has_versions(formatter.versions@, package) {
            "all available versions of "@ + package
        } else {
            "all versions of "@ + package
        }
    } else {
        package + " "@ + range_text(range)
    }
}

/// A package in a range as what is asked for.
pub open spec fn demand(package: Seq<char>, range: SpanV) -> Seq<char> {
    if is_full(range.parts) {
        package
    } else {
        package + " "@ + range_text(range)
    }
}

/// The range of some versions, one after the other.
pub open spec fn range_of(keys: Seq<Seq<u32>>) -> Parts
    decreases keys.len(),
{
    if keys.len() == 0 {
        Seq::empty()
    } else {
        united(range_of(keys.drop_last()), only(keys.last()))
    }
}

/// None of the versions is in the range.
pub open spec fn all_outside(keys: Seq<Seq<u32>>, range: Parts) -> bool {
    forall|i: int| 0 <= i < keys.len() ==> !in_segments(range, #[trigger] keys[i])
}

/// The versions of a list, one after the other.
pub open spec fn available_span(list: Seq<VersionV>) -> SpanV {
    SpanV {
        parts: range_of(version_rows(list)),
        lowers: listed_spellings(list),
        uppers: listed_spellings(list),
    }
}

/// A fact in words.
pub open spec fn cause_text(formatter: ReportFormatter, cause: CauseV) -> Seq<char> {
    match cause {
        CauseV::NotRoot(package, version) => "we are resolving "@ + package + " "@ + version,
        CauseV::Custom(package, range, reason) => subject(formatter, package, range)
            + " cannot be used because of "@ + reason,
        CauseV::FromDependencyOf(package, range, dependency, requested) => subject(
            formatter,
            package,
            range,
        ) + (if opt_text(formatter.root) == Some(package) || only_version(range.parts) is Some {
            " requires "@
        } else {
            " require "@
        }) + demand(dependency, requested),
        CauseV::NoVersions(package, range) => {
            let unavailable = package + " is not available in the configured repositories"@;
            let unsatisfied = "no available version of "@ + package + " satisfies "@ + range_text(range);
            if is_full(range.parts) {
                unavailable
            } else {
                match listed_versions(formatter.versions@, package) {
                    None => unsatisfied,
                    Some(list) => if list.len() == 0 {
                        unavailable
                    } else if all_outside(version_rows(list), range.parts) {
                        "the available versions of "@ + package + " are "@ + range_text(available_span(list))
                    } else {
                        unsatisfied
                    },
                }
            }
        },
    }
}

/// A statement in a list.
pub open spec fn item_text(formatter: ReportFormatter, package: Seq<char>, term: TermV) -> Seq<
    char,
> {
    match term {
        TermV::Positive(range) => subject(formatter, package, range),
        TermV::Negative(range) => "excluding "@ + demand(package, range),
    }
}

/// Statements in a list.
pub open spec fn item_texts(formatter: ReportFormatter, terms: TermsV) -> Seq<Seq<char>> {
    Seq::new(terms.names.len(), |i: int| item_text(formatter, terms.names[i], terms.terms[i]))
}

/// A conclusion in words.
pub open spec fn terms_text(formatter: ReportFormatter, terms: TermsV) -> Seq<char> {
    if terms.names.len() == 0 {
        "the requirements cannot be satisfied"@
    } else if terms.names.len() == 1 {
        if opt_text(formatter.root) == Some(terms.names[0]) {
            "your project's requirements cannot be satisfied"@
        } else {
            match terms.terms[0] {
                TermV::Positive(range) => subject(formatter, terms.names[0], range)
                    + " cannot be used"@,
                TermV::Negative(range) => demand(terms.names[0], range)
                    + " must be used"@,
            }
        }
    } else {
        let list = joined(item_texts(formatter, terms), " and "@) + " are incompatible"@;
        if terms.names.len() == 2 {
            match (terms.terms[0], terms.terms[1]) {
                (TermV::Positive(range), TermV::Negative(requested)) => cause_text(
                    formatter,
                    CauseV::FromDependencyOf(terms.names[0], range, terms.names[1], requested),
                ),
                (TermV::Negative(requested), TermV::Positive(range)) => cause_text(
                    formatter,
                    CauseV::FromDependencyOf(terms.names[1], range, terms.names[0], requested),
                ),
                _ => list,
            }
        } else {
            list
        }
    }
}

impl ReportFormatter {
    /// The listed versions are in order.
    pub open spec fn wf(&self) -> bool {
        self.versions.wf() && forall|key: Seq<char>| #[trigger]
            self.versions@.contains_key(key) ==> self.versions@[key].wf()
    }

    /// Whether the package is the project.
    pub fn is_root(&self, package: &str) -> (r: bool)
        ensures
            r == (opt_text(self.root) == Some(package@)),
    {
        match &self.root {
            Some(root) => text::same(root.as_str(), package),
            None => false,
        }
    }

    /// A simpler range that holds the same of the versions that are listed of a package.
    pub fn simplify_range(&self, package: &str, range: &Span) -> (r: Span)
        requires
            self.wf(),
            range.wf(),
        ensures
            r.wf(),
            r@ == shown_range(listed_versions(self.versions@, package@), range@),
    {
        match self.versions.get(package) {
            None => range.copy(),
            Some(list) => {
                if list.items.len() == 0 {
                    return range.copy();
                }
                let keys = keys_of(list);
                let ghost all = version_rows(list@);
                assert(rows(keys@).len() == keys@.len());
                assert(all[0] == keys@[0]@) by {
                    assert(rows(keys@)[0] == keys@[0]@);
                }
                if list.items.len() == 1 && contains(&range.range, &keys[0]) {
                    let key = keys[0].clone();
                    assert(key@ =~= keys@[0]@);
                    return Span {
                        range: exactly(key),
                        lowers: spellings_of(list),
                        uppers: spellings_of(list),
                    };
                }
                Span {
                    range: simplify(&range.range, &keys),
                    lowers: copy_spellings(&range.lowers),
                    uppers: copy_spellings(&range.uppers),
                }
            },
        }
    }

    fn lists_versions(&self, package: &str) -> (r: bool)
        requires
            self.wf(),
        ensures
            r == has_versions(self.versions@, package@),
    {
        match self.versions.get(package) {
            Some(list) => {
                assert(list@.len() == list.items@.len());
                list.items.len() > 0
            },
            None => false,
        }
    }

    /// A package in a range as the subject of a sentence.
    pub fn package_range(&self, package: &str, range: &Span) -> (r: String)
        requires
            self.wf(),
        ensures
            r@ == subject(*self, package@, range@),
    {
        if self.is_root(package) {
            return "your project".to_owned();
        }
        if full_range(&range.range) {
            if self.lists_versions(package) {
                return text::cat("all available versions of ", package);
            }
            return text::cat("all versions of ", package);
        }
        let shown = format_range(range);
        text::cat3(package, " ", shown.as_str())
    }

    /// A package in a range as what is asked for.
    pub fn requirement(&self, package: &str, range: &Span) -> (r: String)
        ensures
            r@ == demand(package@, range@),
    {
        if full_range(&range.range) {
            return package.to_owned();
        }
        let shown = format_range(range);
        text::cat3(package, " ", shown.as_str())
    }

    fn format_dependency(
        &self,
        package: &str,
        range: &Span,
        dependency: &str,
        requested: &Span,
    ) -> (r: String)
        requires
            self.wf(),
        ensures
            r@ == cause_text(
                *self,
                CauseV::FromDependencyOf(package@, range@, dependency@, requested@),
            ),
    {
        let subject = self.package_range(package, range);
        let verb = if self.is_root(package) || single_version(&range.range).is_some() {
            " requires "
        } else {
            " require "
        };
        let demand = self.requirement(dependency, requested);
        text::cat3(subject.as_str(), verb, demand.as_str())
    }

    fn format_missing(&self, package: &str, range: &Span) -> (r: String)
        requires
            self.wf(),
            range.wf(),
        ensures
            r@ == cause_text(*self, CauseV::NoVersions(package@, range@)),
    {
        if full_range(&range.range) {
            return text::cat(package, " is not available in the configured repositories");
        }
        match self.versions.get(package) {
            Some(list) => {
                assert(list@.len() == list.items@.len());
                if list.items.len() == 0 {
                    return text::cat(package, " is not available in the configured repositories");
                }
                let keys = keys_of(list);
                let ghost all = version_rows(list@);
                assert(rows(keys@).len() == keys@.len());
                let mut outside = true;
                let mut available = empty();
                let mut i: usize = 0;
                assert(all.take(0) =~= Seq::<Seq<u32>>::empty());
                while i < keys.len()
                    invariant
                        i <= keys@.len(),
                        rows(keys@) == all,
                        all.len() == keys@.len(),
                        are_segments(range_segments(range.range)),
                        are_segments(range_segments(available)),
                        range_segments(available) == range_of(all.take(i as int)),
                        outside == all_outside(all.take(i as int), range_segments(range.range)),
                    decreases keys@.len() - i,
                {
                    let ghost seen = all.take(i as int);
                    let ghost next = all.take(i + 1);
                    assert(next.drop_last() =~= seen);
                    assert(next.last() == keys@[i as int]@) by {
                        assert(rows(keys@)[i as int] == keys@[i as int]@);
                    }
                    let key = keys[i].clone();
                    assert(key@ =~= keys@[i as int]@);
                    proof {
                        assert(all_outside(next, range_segments(range.range)) <==> all_outside(
                            seen,
                            range_segments(range.range),
                        ) && !in_segments(range_segments(range.range), key@)) by {
                            assert(next[i as int] == key@);
                            assert forall|k: int| 0 <= k < i implies seen[k] == next[k] by {}
                            if all_outside(next, range_segments(range.range)) {
                                assert forall|k: int| 0 <= k < seen.len() implies !in_segments(
                                    range_segments(range.range),
                                    #[trigger] seen[k],
                                ) by {
                                    assert(next[k] == seen[k]);
                                }
                            }
                            if all_outside(seen, range_segments(range.range)) && !in_segments(
                                range_segments(range.range),
                                key@,
                            ) {
                                assert forall|k: int| 0 <= k < next.len() implies !in_segments(
                                    range_segments(range.range),
                                    #[trigger] next[k],
                                ) by {
                                    if k < seen.len() {
                                        assert(next[k] == seen[k]);
                                    }
                                }
                            }
                        }
                    }
                    if contains(&range.range, &key) {
                        outside = false;
                    }
                    let one = exactly(key);
                    available = union(&available, &one);
                    i = i + 1;
                }
                assert(all.take(i as int) =~= all);
                if outside {
                    let shown = format_range(
                        &Span {
                            range: available,
                            lowers: spellings_of(list),
                            uppers: spellings_of(list),
                        },
                    );
                    return text::cat4(
                        "the available versions of ",
                        package,
                        " are ",
                        shown.as_str(),
                    );
                }
            },
            None => {},
        }
        let shown = format_range(range);
        text::cat4("no available version of ", package, " satisfies ", shown.as_str())
    }

    /// A fact in words.
    pub fn format_external(&self, cause: &Cause) -> (r: String)
        requires
            self.wf(),
            cause.wf(),
        ensures
            r@ == cause_text(*self, cause@),
    {
        match cause {
            Cause::NotRoot { package, version } => text::cat4(
                "we are resolving ",
                package.as_str(),
                " ",
                version.as_str(),
            ),
            Cause::Custom { package, range, reason } => {
                let subject = self.package_range(package.as_str(), range);
                text::cat3(subject.as_str(), " cannot be used because of ", reason.as_str())
            },
            Cause::FromDependencyOf { package, range, dependency, requested } => {
                self.format_dependency(package.as_str(), range, dependency.as_str(), requested)
            },
            Cause::NoVersions { package, range } => self.format_missing(package.as_str(), range),
        }
    }

    /// A conclusion in words.
    pub fn format_terms(&self, terms: &TextMap<Term>) -> (r: String)
        requires
            self.wf(),
            terms_wf(*terms),
        ensures
            r@ == terms_text(*self, terms_view(*terms)),
    {
        let ghost all = terms_view(*terms);
        assert(all.names.len() == terms.keys@.len());
        if terms.keys.len() == 0 {
            return "the requirements cannot be satisfied".to_owned();
        }
        assert(all.names[0] == terms.keys@[0]@);
        assert(all.terms[0] == terms.values@[0]@);
        if terms.keys.len() == 1 {
            if self.is_root(terms.keys[0].as_str()) {
                return "your project's requirements cannot be satisfied".to_owned();
            }
            return match &terms.values[0] {
                Term::Positive(range) => {
                    let subject = self.package_range(terms.keys[0].as_str(), range);
                    text::cat(subject.as_str(), " cannot be used")
                },
                Term::Negative(range) => {
                    let demand = self.requirement(terms.keys[0].as_str(), range);
                    text::cat(demand.as_str(), " must be used")
                },
            };
        }
        if terms.keys.len() == 2 {
            assert(all.names[1] == terms.keys@[1]@);
            assert(all.terms[1] == terms.values@[1]@);
            match (&terms.values[0], &terms.values[1]) {
                (Term::Positive(range), Term::Negative(requested)) => {
                    return self.format_dependency(
                        terms.keys[0].as_str(),
                        range,
                        terms.keys[1].as_str(),
                        requested,
                    );
                },
                (Term::Negative(requested), Term::Positive(range)) => {
                    return self.format_dependency(
                        terms.keys[1].as_str(),
                        range,
                        terms.keys[0].as_str(),
                        requested,
                    );
                },
                _ => {},
            }
        }
        let ghost items = item_texts(*self, all);
        let mut out: Vec<String> = Vec::new();
        let mut i: usize = 0;
        while i < terms.keys.len()
            invariant
                i <= terms.keys@.len(),
                self.wf(),
                terms_wf(*terms),
                all == terms_view(*terms),
                items == item_texts(*self, all),
                out@.len() == i,
                forall|k: int| 0 <= k < i ==> (#[trigger] out@[k])@ == items[k],
            decreases terms.keys@.len() - i,
        {
            assert(all.names[i as int] == terms.keys@[i as int]@);
            assert(all.terms[i as int] == terms.values@[i as int]@);
            let item = match &terms.values[i] {
                Term::Positive(range) => self.package_range(terms.keys[i].as_str(), range),
                Term::Negative(range) => {
                    let demand = self.requirement(terms.keys[i].as_str(), range);
                    text::cat("excluding ", demand.as_str())
                },
            };
            out.push(item);
            i = i + 1;
        }
        assert(texts(out@) =~= items);
        let list = text::join(&out, " and ");
        text::cat(list.as_str(), " are incompatible")
    }

    /// A conclusion from two facts.
    pub fn explain_both_external(&self, first: &Cause, second: &Cause, terms: &TextMap<Term>) -> (r:
        String)
        requires
            self.wf(),
            first.wf(),
            second.wf(),
            terms_wf(*terms),
        ensures
            r@ == "Because "@ + cause_text(*self, first@) + " and "@ + cause_text(*self, second@)
                + ", "@ + terms_text(*self, terms_view(*terms)) + "."@,
    {
        let a = self.format_external(first);
        let b = self.format_external(second);
        sentence("Because ", a.as_str(), b.as_str(), &self.format_terms(terms))
    }

    /// A conclusion from two earlier conclusions.
    pub fn explain_both_ref(
        &self,
        first_id: usize,
        first: &TextMap<Term>,
        second_id: usize,
        second: &TextMap<Term>,
        terms: &TextMap<Term>,
    ) -> (r: String)
        requires
            self.wf(),
            terms_wf(*first),
            terms_wf(*second),
            terms_wf(*terms),
        ensures
            r@ == "Because "@ + numbered(terms_text(*self, terms_view(*first)), first_id)
                + " and "@ + numbered(terms_text(*self, terms_view(*second)), second_id) + ", "@
                + terms_text(*self, terms_view(*terms)) + "."@,
    {
        let a = number(self.format_terms(first), first_id);
        let b = number(self.format_terms(second), second_id);
        sentence("Because ", a.as_str(), b.as_str(), &self.format_terms(terms))
    }

    /// A conclusion from an earlier conclusion and a fact.
    pub fn explain_ref_and_external(
        &self,
        id: usize,
        derived: &TextMap<Term>,
        external: &Cause,
        terms: &TextMap<Term>,
    ) -> (r: String)
        requires
            self.wf(),
            terms_wf(*derived),
            external.wf(),
            terms_wf(*terms),
        ensures
            r@ == "Because "@ + numbered(terms_text(*self, terms_view(*derived)), id) + " and "@
                + cause_text(*self, external@) + ", "@ + terms_text(*self, terms_view(*terms))
                + "."@,
    {
        let a = number(self.format_terms(derived), id);
        let b = self.format_external(external);
        sentence("Because ", a.as_str(), b.as_str(), &self.format_terms(terms))
    }

    /// A conclusion from the one before and a fact.
    pub fn and_explain_external(&self, external: &Cause, terms: &TextMap<Term>) -> (r: String)
        requires
            self.wf(),
            external.wf(),
            terms_wf(*terms),
        ensures
            r@ == "And because "@ + cause_text(*self, external@) + ", "@ + terms_text(
                *self,
                terms_view(*terms),
            ) + "."@,
    {
        let a = self.format_external(external);
        short_sentence(a.as_str(), &self.format_terms(terms))
    }

    /// A conclusion from the one before and an earlier one.
    pub fn and_explain_ref(&self, id: usize, derived: &TextMap<Term>, terms: &TextMap<Term>) -> (r:
        String)
        requires
            self.wf(),
            terms_wf(*derived),
            terms_wf(*terms),
        ensures
            r@ == "And because "@ + numbered(terms_text(*self, terms_view(*derived)), id) + ", "@
                + terms_text(*self, terms_view(*terms)) + "."@,
    {
        let a = number(self.format_terms(derived), id);
        short_sentence(a.as_str(), &self.format_terms(terms))
    }

    /// A conclusion from the one before and two facts.
    pub fn and_explain_prior_and_external(
        &self,
        prior: &Cause,
        external: &Cause,
        terms: &TextMap<Term>,
    ) -> (r: String)
        requires
            self.wf(),
            prior.wf(),
            external.wf(),
            terms_wf(*terms),
        ensures
            r@ == "And because "@ + cause_text(*self, prior@) + " and "@ + cause_text(
                *self,
                external@,
            ) + ", "@ + terms_text(*self, terms_view(*terms)) + "."@,
    {
        let a = self.format_external(prior);
        let b = self.format_external(external);
        sentence("And because ", a.as_str(), b.as_str(), &self.format_terms(terms))
    }
}

/// A conclusion with its number.
pub open spec fn numbered(conclusion: Seq<char>, id: usize) -> Seq<char> {
    conclusion + " ("@ + decimal_text(id as nat) + ")"@
}

fn number(conclusion: String, id: usize) -> (r: String)
    ensures
        r@ == numbered(conclusion@, id),
{
    let digits = text::decimal(id as u64);
    text::cat4(conclusion.as_str(), " (", digits.as_str(), ")")
}

fn sentence(start: &str, first: &str, second: &str, conclusion: &String) -> (r: String)
    ensures
        r@ == start@ + first@ + " and "@ + second@ + ", "@ + conclusion@ + "."@,
{
    let mut out = text::cat4(start, first, " and ", second);
    out.push_str(", ");
    out.push_str(conclusion.as_str());
    out.push_str(".");
    out
}

fn short_sentence(first: &str, conclusion: &String) -> (r: String)
    ensures
        r@ == "And because "@ + first@ + ", "@ + conclusion@ + "."@,
{
    let mut out = text::cat4("And because ", first, ", ", conclusion.as_str());
    out.push_str(".");
    out
}

/// Statements with simpler ranges.
pub open spec fn shown_terms(versions: Map<Seq<char>, SortedSet<Version>>, terms: TermsV) -> TermsV {
    TermsV {
        names: terms.names,
        terms: Seq::new(
            terms.terms.len(),
            |i: int|
                match terms.terms[i] {
                    TermV::Positive(range) => TermV::Positive(
                        shown_range(listed_versions(versions, terms.names[i]), range),
                    ),
                    TermV::Negative(range) => TermV::Negative(range),
                },
        ),
    }
}

/// One cause says that a package has no other versions, and the other that none of its
/// versions can be used: the other says it all.
pub open spec fn says_all(
    versions: Map<Seq<char>, SortedSet<Version>>,
    terms: TermsV,
    availability: TreeV,
    other: TreeV,
) -> bool {
    match (availability, other) {
        (
            TreeV::External(CauseV::NoVersions(package, _)),
            TreeV::External(CauseV::Custom(other_package, range, _)),
        ) => is_positive(terms, package) && package == other_package && is_full(
            range.parts,
        )
            && has_versions(versions, package),
        _ => false,
    }
}

/// An explanation with simpler ranges. What is asked for stays as it is written.
pub open spec fn simpler(versions: Map<Seq<char>, SortedSet<Version>>, tree: TreeV) -> TreeV
    decreases tree,
{
    match tree {
        TreeV::External(CauseV::Custom(package, range, reason)) => TreeV::External(
            CauseV::Custom(
                package,
                shown_range(listed_versions(versions, package), range),
                reason,
            ),
        ),
        TreeV::External(CauseV::FromDependencyOf(package, range, dependency, requested)) => {
            TreeV::External(
                CauseV::FromDependencyOf(
                    package,
                    shown_range(listed_versions(versions, package), range),
                    dependency,
                    requested,
                ),
            )
        },
        TreeV::External(_) => tree,
        TreeV::Derived(conclusion) => {
            let first = simpler(versions, *conclusion.cause1);
            let second = simpler(versions, *conclusion.cause2);
            let terms = shown_terms(versions, conclusion.terms);
            if says_all(versions, terms, first, second) {
                second
            } else if says_all(versions, terms, second, first) {
                first
            } else {
                TreeV::Derived(
                    ConclusionV {
                        terms,
                        shared_id: conclusion.shared_id,
                        cause1: Box::new(first),
                        cause2: Box::new(second),
                    },
                )
            }
        },
    }
}

fn simplify_terms(terms: TextMap<Term>, formatter: &ReportFormatter) -> (r: TextMap<Term>)
    requires
        formatter.wf(),
        terms_wf(terms),
    ensures
        terms_wf(r),
        terms_view(r) == shown_terms(formatter.versions@, terms_view(terms)),
{
    let ghost all = terms_view(terms);
    let ghost shown = shown_terms(formatter.versions@, all);
    let mut values: Vec<Term> = Vec::new();
    let mut i: usize = 0;
    while i < terms.values.len()
        invariant
            i <= terms.values@.len(),
            formatter.wf(),
            terms_wf(terms),
            all == terms_view(terms),
            shown == shown_terms(formatter.versions@, all),
            values@.len() == i,
            forall|k: int| 0 <= k < i ==> (#[trigger] values@[k])@ == shown.terms[k] && values@[k].wf(),
        decreases terms.values@.len() - i,
    {
        assert(all.names[i as int] == terms.keys@[i as int]@);
        assert(all.terms[i as int] == terms.values@[i as int]@);
        let term = match &terms.values[i] {
            Term::Positive(range) => Term::Positive(
                formatter.simplify_range(terms.keys[i].as_str(), range),
            ),
            Term::Negative(range) => Term::Negative(range.copy()),
        };
        values.push(term);
        i = i + 1;
    }
    assert(term_views(values@) =~= shown.terms);
    TextMap { keys: terms.keys, values }
}

fn is_redundant(
    formatter: &ReportFormatter,
    terms: &TextMap<Term>,
    availability: &Tree,
    other: &Tree,
) -> (r: bool)
    requires
        formatter.wf(),
        terms.wf(),
    ensures
        r == says_all(
            formatter.versions@,
            terms_view(*terms),
            tree_view(*availability),
            tree_view(*other),
        ),
{
    match (availability, other) {
        (
            Tree::External(Cause::NoVersions { package, .. }),
            Tree::External(Cause::Custom { package: other_package, range, .. }),
        ) => positive_package(terms, package.as_str()) && text::same(
            package.as_str(),
            other_package.as_str(),
        ) && full_range(&range.range) && formatter.lists_versions(package.as_str()),
        _ => false,
    }
}

/// An explanation with simpler ranges, without what its other parts already say.
pub fn simplify_tree(tree: Tree, formatter: &ReportFormatter) -> (r: Tree)
    requires
        formatter.wf(),
        tree_wf(tree),
    ensures
        tree_wf(r),
        tree_view(r) == simpler(formatter.versions@, tree_view(tree)),
    decreases tree,
{
    match tree {
        Tree::External(Cause::Custom { package, range, reason }) => {
            let range = formatter.simplify_range(package.as_str(), &range);
            Tree::External(Cause::Custom { package, range, reason })
        },
        Tree::External(Cause::FromDependencyOf { package, range, dependency, requested }) => {
            let range = formatter.simplify_range(package.as_str(), &range);
            Tree::External(Cause::FromDependencyOf { package, range, dependency, requested })
        },
        Tree::External(cause) => Tree::External(cause),
        Tree::Derived(conclusion) => {
            let Conclusion { terms, shared_id, cause1, cause2 } = conclusion;
            let first = simplify_tree(*cause1, formatter);
            let second = simplify_tree(*cause2, formatter);
            let terms = simplify_terms(terms, formatter);
            if is_redundant(formatter, &terms, &first, &second) {
                return second;
            }
            if is_redundant(formatter, &terms, &second, &first) {
                return first;
            }
            Tree::Derived(
                Conclusion {
                    terms,
                    shared_id,
                    cause1: Box::new(first),
                    cause2: Box::new(second),
                },
            )
        },
    }
}

/// Putting causes together keeps whether metadata could not be read.
pub proof fn collapsing_keeps_the_advice(tree: TreeV)
    ensures
        tells_of_metadata(collapsed(tree)) == tells_of_metadata(tree),
    decreases tree,
{
    match tree {
        TreeV::External(_) => {},
        TreeV::Derived(conclusion) => {
            collapsing_keeps_the_advice(*conclusion.cause1);
            collapsing_keeps_the_advice(*conclusion.cause2);
            let first = collapsed(*conclusion.cause1);
            let second = collapsed(*conclusion.cause2);
            lemma_together(conclusion.terms, conclusion.shared_id, first, second);
            lemma_together(conclusion.terms, conclusion.shared_id, second, first);
        },
    }
}

proof fn lemma_together(terms: TermsV, shared_id: Option<usize>, external: TreeV, other: TreeV)
    ensures
        put_together(terms, shared_id, external, other) matches Some(tree) ==> tells_of_metadata(
            tree,
        ) == (tells_of_metadata(external) || tells_of_metadata(other)),
{
    reveal_with_fuel(tells_of_metadata, 3);
}

/// A version is spelled as the first of the spellings spells it that is of the same kind and
/// of an equal version; without such a spelling its numbers are written out.
pub proof fn versions_are_spelled_as_known(
    spellings: Seq<SpellingV>,
    included: bool,
    key: Seq<u32>,
    i: int,
)
    ensures
        0 <= i < spellings.len() && spellings[i].included == included && significant(
            spellings[i].version.components,
        ) == key && (forall|j: int|
            0 <= j < i ==> !((#[trigger] spellings[j]).included == included && significant(
                spellings[j].version.components,
            ) == key)) ==> spelled_key(spellings, included, key) == spellings[i].version.text,
        (forall|j: int|
            0 <= j < spellings.len() ==> !((#[trigger] spellings[j]).included == included
                && significant(spellings[j].version.components) == key)) ==> spelled_key(
            spellings,
            included,
            key,
        ) == joined(key.map_values(|n: u32| decimal_text(n as nat)), "."@),
    decreases spellings.len(),
{
    if spellings.len() > 0 {
        let t = spellings.skip(1);
        versions_are_spelled_as_known(t, included, key, i - 1);
        if 0 < i < spellings.len() && spellings[i].included == included && significant(
            spellings[i].version.components,
        ) == key && (forall|j: int|
            0 <= j < i ==> !((#[trigger] spellings[j]).included == included && significant(
                spellings[j].version.components,
            ) == key)) {
            assert(t[i - 1] == spellings[i]);
            assert(!(spellings[0].included == included && significant(
                spellings[0].version.components,
            ) == key));
            assert forall|j: int| 0 <= j < i - 1 implies !((#[trigger] t[j]).included == included
                && significant(t[j].version.components) == key) by {
                assert(t[j] == spellings[j + 1]);
            }
        }
        if forall|j: int|
            0 <= j < spellings.len() ==> !((#[trigger] spellings[j]).included == included
                && significant(spellings[j].version.components) == key) {
            assert forall|j: int| 0 <= j < t.len() implies !((#[trigger] t[j]).included == included
                && significant(t[j].version.components) == key) by {
                assert(t[j] == spellings[j + 1]);
            }
        }
    }
}

/// The ends of a part of a range are told by the signs that compare with them, the lower one
/// first; an end that is not there is not told. A range without parts holds no version.
pub proof fn ends_are_told_by_their_signs(range: SpanV, a: Seq<u32>, b: Seq<u32>)
    ensures
        segment_text(range, (EdgeV::Included(a), EdgeV::Unbounded)) == "("@ + (">= "@ + spelled_key(
            range.lowers,
            true,
            a,
        )) + ")"@,
        segment_text(range, (EdgeV::Excluded(a), EdgeV::Unbounded)) == "("@ + ("> "@ + spelled_key(
            range.lowers,
            false,
            a,
        )) + ")"@,
        segment_text(range, (EdgeV::Unbounded, EdgeV::Included(b))) == "("@ + ("<= "@ + spelled_key(
            range.uppers,
            true,
            b,
        )) + ")"@,
        segment_text(range, (EdgeV::Unbounded, EdgeV::Excluded(b))) == "("@ + ("< "@ + spelled_key(
            range.uppers,
            false,
            b,
        )) + ")"@,
        segment_text(range, (EdgeV::Included(a), EdgeV::Excluded(b))) == "("@ + (">= "@
            + spelled_key(range.lowers, true, a) + ", "@ + ("< "@ + spelled_key(
            range.uppers,
            false,
            b,
        ))) + ")"@,
        range_text(SpanV { parts: Seq::empty(), ..range }) == "(no versions)"@,
        range_text(SpanV { parts: all_versions(), ..range }) == "(any version)"@,
        range_text(SpanV { parts: only(a), ..range }) == "(== "@ + spelled_key(range.lowers, true, a)
            + ")"@,
{
    let none = Seq::<Seq<char>>::empty();
    let x = ">= "@ + spelled_key(range.lowers, true, a);
    let y = "> "@ + spelled_key(range.lowers, false, a);
    let u = "<= "@ + spelled_key(range.uppers, true, b);
    let w = "< "@ + spelled_key(range.uppers, false, b);
    assert(seq![x] + none =~= seq![x]);
    assert(seq![y] + none =~= seq![y]);
    assert(none + seq![u] =~= seq![u]);
    assert(none + seq![w] =~= seq![w]);
    let both = seq![x] + seq![w];
    assert(both.drop_last() =~= seq![x]);
    reveal_with_fuel(joined, 3);
    assert(joined(both, ", "@) == x + ", "@ + w);
    assert(only(a)[0] == (EdgeV::Included(a), EdgeV::Included(a)));
    assert(all_versions()[0] == (EdgeV::Unbounded, EdgeV::Unbounded));
    assert(!is_full(only(a))) by {
        if is_full(only(a)) {
            assert(only(a)[0] == all_versions()[0]);
        }
    }
}

/// A package is told with the range that is meant of it, unless that is all its versions; the
/// project itself is told as such.
pub proof fn packages_are_told_with_their_range(
    formatter: ReportFormatter,
    package: Seq<char>,
    range: SpanV,
)
    ensures
        opt_text(formatter.root) == Some(package) ==> subject(formatter, package, range)
            == "your project"@,
        opt_text(formatter.root) != Some(package) && range.parts != all_versions() ==> subject(
            formatter,
            package,
            range,
        ) == package + " "@ + range_text(range),
        range.parts != all_versions() ==> demand(package, range) == package + " "@ + range_text(
            range,
        ),
        range.parts == all_versions() ==> demand(package, range) == package,
        opt_text(formatter.root) != Some(package) && range.parts == all_versions() ==> (subject(
            formatter,
            package,
            range,
        ) == "all available versions of "@ + package <==> formatter.versions@.contains_key(package)
            && formatter.versions@[package]@.len() > 0),
{
    reveal_strlit("all available versions of ");
    reveal_strlit("all versions of ");
    let a = "all available versions of "@ + package;
    let b = "all versions of "@ + package;
    assert(a.len() == 26 + package.len());
    assert(b.len() == 16 + package.len());
}

/// An explanation tells of wrong metadata exactly if one of its causes does.
pub proof fn wrong_metadata_is_told(
    package: Seq<char>,
    range: SpanV,
    rest: Seq<char>,
    conclusion: ConclusionV,
)
    ensures
        tells_of_metadata(
            TreeV::External(
                CauseV::Custom(package, range, "invalid dependency metadata:"@ + rest),
            ),
        ),
        tells_of_metadata(TreeV::Derived(conclusion)) <==> tells_of_metadata(*conclusion.cause1)
            || tells_of_metadata(*conclusion.cause2),
        !tells_of_metadata(TreeV::External(CauseV::NoVersions(package, range))),
{
    text::texts_begin_and_end("invalid dependency metadata:"@, rest);
}

/// Two causes that say the same of a package, but of different versions, are put together to
/// one that says it of all those versions; causes that say different things stay apart.
pub proof fn like_causes_are_put_together(
    terms: TermsV,
    shared_id: Option<usize>,
    package: Seq<char>,
    range: SpanV,
    reason: Seq<char>,
    other_range: SpanV,
    other_reason: Seq<char>,
)
    requires
        terms.names == seq![package],
        terms.terms.len() == 1,
        terms.terms[0] is Positive,
    ensures
        ({
            let a = TreeV::External(CauseV::Custom(package, range, reason));
            let b = TreeV::External(CauseV::Custom(package, other_range, reason));
            let c = TreeV::External(CauseV::Custom(package, other_range, other_reason));
            &&& put_together(terms, shared_id, a, b) matches Some(
                TreeV::External(CauseV::Custom(name, all, why)),
            ) && name == package && why == reason && all.parts == united(
                range.parts,
                other_range.parts,
            )
            &&& reason != other_reason ==> put_together(terms, shared_id, a, c) is None
        }),
{
    assert(terms.names[0] == package);
}

/// Where the versions of a package are known, an explanation tells ranges by them: a single
/// version that is meant is told alone. Where none are known, ranges stay.
pub proof fn ranges_are_shown_by_known_versions(version: VersionV, range: SpanV)
    ensures
        shown_range(None, range) == range,
        shown_range(Some(Seq::empty()), range) == range,
        in_segments(range.parts, significant(version.components)) ==> shown_range(
            Some(seq![version]),
            range,
        ).parts == only(significant(version.components)),
{
    assert(version_rows(seq![version])[0] == significant(version.components));
}

/// Simpler explanations have the same advice: what is left out says nothing of metadata that
/// what stays does not say.
pub proof fn simpler_explanations_keep_the_advice(
    versions: Map<Seq<char>, SortedSet<Version>>,
    tree: TreeV,
)
    ensures
        tells_of_metadata(simpler(versions, tree)) <==> tells_of_metadata(tree),
    decreases tree,
{
    if let TreeV::Derived(conclusion) = tree {
        simpler_explanations_keep_the_advice(versions, *conclusion.cause1);
        simpler_explanations_keep_the_advice(versions, *conclusion.cause2);
    }
}

/// A dependency is told as the package that has it, the word that fits the number of its
/// versions, and what is asked for; an unusable package is told with the reason.
pub proof fn causes_are_told(
    formatter: ReportFormatter,
    package: Seq<char>,
    range: SpanV,
    dependency: Seq<char>,
    requested: SpanV,
    reason: Seq<char>,
)
    ensures
        opt_text(formatter.root) == Some(package) || only_version(range.parts) is Some
            ==> cause_text(
            formatter,
            CauseV::FromDependencyOf(package, range, dependency, requested),
        ) == subject(formatter, package, range) + " requires "@ + demand(dependency, requested),
        opt_text(formatter.root) != Some(package) && only_version(range.parts) is None
            ==> cause_text(
            formatter,
            CauseV::FromDependencyOf(package, range, dependency, requested),
        ) == subject(formatter, package, range) + " require "@ + demand(dependency, requested),
        cause_text(formatter, CauseV::Custom(package, range, reason)) == subject(
            formatter,
            package,
            range,
        ) + " cannot be used because of "@ + reason,
        range.parts == all_versions() ==> cause_text(
            formatter,
            CauseV::NoVersions(package, range),
        ) == package + " is not available in the configured repositories"@,
        range.parts != all_versions() && !formatter.versions@.contains_key(package) ==> cause_text(
            formatter,
            CauseV::NoVersions(package, range),
        ) == "no available version of "@ + package + " satisfies "@ + range_text(range),
{
}

/// A conclusion that one package needs another is told as that dependency, in whichever order
/// the two stand; a conclusion on nothing says that nothing fits.
pub proof fn conclusions_are_told(
    formatter: ReportFormatter,
    package: Seq<char>,
    range: SpanV,
    dependency: Seq<char>,
    requested: SpanV,
)
    ensures
        ({
            let a = TermsV {
                names: seq![package, dependency],
                terms: seq![TermV::Positive(range), TermV::Negative(requested)],
            };
            let b = TermsV {
                names: seq![dependency, package],
                terms: seq![TermV::Negative(requested), TermV::Positive(range)],
            };
            &&& terms_text(formatter, a) == terms_text(formatter, b)
            &&& terms_text(formatter, a) == cause_text(
                formatter,
                CauseV::FromDependencyOf(package, range, dependency, requested),
            )
            &&& terms_text(formatter, TermsV { names: Seq::empty(), terms: Seq::empty() })
                == "the requirements cannot be satisfied"@
        }),
{
    let a = TermsV {
        names: seq![package, dependency],
        terms: seq![TermV::Positive(range), TermV::Negative(requested)],
    };
    let b = TermsV {
        names: seq![dependency, package],
        terms: seq![TermV::Negative(requested), TermV::Positive(range)],
    };
    assert(a.names[0] == package && a.names[1] == dependency);
    assert(b.names[0] == dependency && b.names[1] == package);
    assert(a.terms[0] == TermV::Positive(range) && a.terms[1] == TermV::Negative(requested));
    assert(b.terms[0] == TermV::Negative(requested) && b.terms[1] == TermV::Positive(range));
}

} // verus!
