//! Ranges of versions.
use crate::metadata::{
    components_order, components_order_from, equal_versions_are_significantly_the_same,
    significant,
};
use crate::order::{int_order, Order};
use pubgrub::Ranges;
use std::ops::Bound;
use vstd::prelude::*;

verus! {

/// One end of a part of a range.
#[derive(Debug)]
pub enum Edge {
    Unbounded,
    Included(Vec<u32>),
    Excluded(Vec<u32>),
}

/// One end of a part of a range.
pub enum EdgeV {
    Unbounded,
    Included(Seq<u32>),
    Excluded(Seq<u32>),
}

impl Edge {
    /// The end, as numbers.
    pub open spec fn view(&self) -> EdgeV {
        match self {
            Edge::Unbounded => EdgeV::Unbounded,
            Edge::Included(key) => EdgeV::Included(key@),
            Edge::Excluded(key) => EdgeV::Excluded(key@),
        }
    }
}

/// A range of versions as the solver keeps it; a version stands in it by its components
/// without the zeros at the end.
#[verifier::external_type_specification]
#[verifier::external_body]
#[verifier::reject_recursive_types(V)]
pub struct ExRanges<V>(pubgrub::Ranges<V>);

/// The parts of a range, each with its lower and its upper end.
pub uninterp spec fn range_segments(range: Ranges<Vec<u32>>) -> Seq<(EdgeV, EdgeV)>;

/// Comparison of two rows of numbers: the first that differ decide, and a row comes after
/// the rows that it begins with.
pub open spec fn row_order_from(a: Seq<u32>, b: Seq<u32>, i: int) -> Order
    decreases a.len() - i,
{
    if i >= a.len() {
        if i >= b.len() {
            Order::Equal
        } else {
            Order::Less
        }
    } else if i >= b.len() {
        Order::Greater
    } else if a[i] == b[i] {
        row_order_from(a, b, i + 1)
    } else {
        int_order(a[i] as int, b[i] as int)
    }
}

/// Comparison of two rows of numbers.
pub open spec fn row_order(a: Seq<u32>, b: Seq<u32>) -> Order {
    row_order_from(a, b, 0)
}

/// No zero stands at the end.
pub open spec fn is_significant(c: Seq<u32>) -> bool {
    c.len() > 0 ==> c.last() != 0
}

proof fn lemma_later_component(a: Seq<u32>, b: Seq<u32>, i: int)
    requires
        0 <= i,
        a.len() <= i < b.len(),
        is_significant(b),
    ensures
        components_order_from(a, b, i) == Order::Less,
        components_order_from(b, a, i) == Order::Greater,
    decreases b.len() - i,
{
    if i + 1 < b.len() {
        lemma_later_component(a, b, i + 1);
    } else {
        assert(b[i] != 0);
    }
}

proof fn lemma_row_order(a: Seq<u32>, b: Seq<u32>, i: int)
    requires
        0 <= i,
        is_significant(a),
        is_significant(b),
    ensures
        row_order_from(a, b, i) == components_order_from(a, b, i),
    decreases a.len() + b.len() - i,
{
    if i < a.len() && i < b.len() {
        if a[i] == b[i] {
            lemma_row_order(a, b, i + 1);
        }
    } else if i < b.len() {
        lemma_later_component(a, b, i);
    } else if i < a.len() {
        lemma_later_component(b, a, i);
    }
}

proof fn lemma_is_significant(c: Seq<u32>)
    ensures
        is_significant(significant(c)),
    decreases c.len(),
{
    if c.len() > 0 && c.last() == 0 {
        lemma_is_significant(c.drop_last());
    }
}

/// Versions compare as the rows of their components without the zeros at the end do.
pub proof fn versions_compare_as_rows(a: Seq<u32>, b: Seq<u32>)
    ensures
        row_order(significant(a), significant(b)) == components_order(a, b),
{
    let x = significant(a);
    let y = significant(b);
    lemma_is_significant(a);
    lemma_is_significant(b);
    lemma_is_significant(x);
    lemma_is_significant(y);
    lemma_row_order(x, y, 0);
    lemma_significant_again(a);
    lemma_significant_again(b);
    equal_versions_are_significantly_the_same(a, x);
    equal_versions_are_significantly_the_same(b, y);
    crate::metadata::components_order_coherent(a, x, y);
    crate::metadata::components_order_coherent(a, y, b);
    crate::metadata::components_order_flips(b, y);
    crate::metadata::components_order_flips(x, a);
    crate::metadata::components_order_coherent(a, b, y);
    crate::metadata::components_order_flips(a, b);
    crate::metadata::components_order_flips(a, y);
    crate::metadata::components_order_flips(x, y);
    crate::metadata::components_order_coherent(x, a, y);
}

proof fn lemma_significant_again(c: Seq<u32>)
    ensures
        significant(significant(c)) == significant(c),
    decreases c.len(),
{
    if c.len() > 0 && c.last() == 0 {
        lemma_significant_again(c.drop_last());
    }
}

/// The version is not below a lower end.
pub open spec fn above(edge: EdgeV, key: Seq<u32>) -> bool {
    match edge {
        EdgeV::Unbounded => true,
        EdgeV::Included(bound) => row_order(bound, key) != Order::Greater,
        EdgeV::Excluded(bound) => row_order(bound, key) == Order::Less,
    }
}

/// The version is not above an upper end.
pub open spec fn below(edge: EdgeV, key: Seq<u32>) -> bool {
    match edge {
        EdgeV::Unbounded => true,
        EdgeV::Included(bound) => row_order(key, bound) != Order::Greater,
        EdgeV::Excluded(bound) => row_order(key, bound) == Order::Less,
    }
}

/// The version is in a part.
pub open spec fn in_segment(segment: (EdgeV, EdgeV), key: Seq<u32>) -> bool {
    above(segment.0, key) && below(segment.1, key)
}

/// The version is in one of the parts.
pub open spec fn in_segments(segments: Seq<(EdgeV, EdgeV)>, key: Seq<u32>) -> bool {
    exists|i: int| 0 <= i < segments.len() && in_segment(#[trigger] segments[i], key)
}

/// The lower end is below the upper end, or both are the same version.
pub open spec fn is_segment(segment: (EdgeV, EdgeV)) -> bool {
    match segment {
        (EdgeV::Included(a), EdgeV::Included(b)) => row_order(a, b) != Order::Greater,
        (EdgeV::Included(a), EdgeV::Excluded(b)) => row_order(a, b) == Order::Less,
        (EdgeV::Excluded(a), EdgeV::Included(b)) => row_order(a, b) == Order::Less,
        (EdgeV::Excluded(a), EdgeV::Excluded(b)) => row_order(a, b) == Order::Less,
        _ => true,
    }
}

/// The upper end of a part lies before the lower end of the next, with a version between.
pub open spec fn has_gap(end: EdgeV, start: EdgeV) -> bool {
    match (end, start) {
        (_, EdgeV::Unbounded) => false,
        (EdgeV::Unbounded, _) => false,
        (EdgeV::Included(a), EdgeV::Included(b)) => row_order(a, b) == Order::Less,
        (EdgeV::Included(a), EdgeV::Excluded(b)) => row_order(a, b) == Order::Less,
        (EdgeV::Excluded(a), EdgeV::Included(b)) => row_order(a, b) == Order::Less,
        (EdgeV::Excluded(a), EdgeV::Excluded(b)) => row_order(a, b) != Order::Greater,
    }
}

/// The parts are sound and in increasing order, with gaps between them.
pub open spec fn are_segments(segments: Seq<(EdgeV, EdgeV)>) -> bool {
    &&& forall|i: int| 0 <= i < segments.len() ==> is_segment(#[trigger] segments[i])
    &&& forall|i: int, j: int|
        0 <= i && j == i + 1 && j < segments.len() ==> has_gap(
            (#[trigger] segments[i]).1,
            (#[trigger] segments[j]).0,
        )
}

/// All versions.
pub open spec fn all_versions() -> Seq<(EdgeV, EdgeV)> {
    seq![(EdgeV::Unbounded, EdgeV::Unbounded)]
}

/// One version.
pub open spec fn only(key: Seq<u32>) -> Seq<(EdgeV, EdgeV)> {
    seq![(EdgeV::Included(key), EdgeV::Included(key))]
}

/// `pubgrub::Ranges::full`: one part without ends.
#[verifier::external_body]
pub(crate) fn full() -> (r: Ranges<Vec<u32>>)
    ensures
        range_segments(r) == all_versions(),
{
    Ranges::full()
}

/// `pubgrub::Ranges::empty`: no part.
#[verifier::external_body]
pub(crate) fn empty() -> (r: Ranges<Vec<u32>>)
    ensures
        range_segments(r) == Seq::<(EdgeV, EdgeV)>::empty(),
{
    Ranges::empty()
}

/// `pubgrub::Ranges::singleton`: the part from a version to itself.
#[verifier::external_body]
pub(crate) fn singleton(key: Vec<u32>) -> (r: Ranges<Vec<u32>>)
    ensures
        range_segments(r) == only(key@),
{
    Ranges::singleton(key)
}

/// `pubgrub::Ranges::higher_than`: from a version on.
#[verifier::external_body]
fn higher_than(key: Vec<u32>) -> (r: Ranges<Vec<u32>>)
    ensures
        range_segments(r) == seq![(EdgeV::Included(key@), EdgeV::Unbounded)],
{
    Ranges::higher_than(key)
}

/// `pubgrub::Ranges::strictly_higher_than`: all above a version.
#[verifier::external_body]
fn strictly_higher_than(key: Vec<u32>) -> (r: Ranges<Vec<u32>>)
    ensures
        range_segments(r) == seq![(EdgeV::Excluded(key@), EdgeV::Unbounded)],
{
    Ranges::strictly_higher_than(key)
}

/// `pubgrub::Ranges::lower_than`: up to a version.
#[verifier::external_body]
fn lower_than(key: Vec<u32>) -> (r: Ranges<Vec<u32>>)
    ensures
        range_segments(r) == seq![(EdgeV::Unbounded, EdgeV::Included(key@))],
{
    Ranges::lower_than(key)
}

/// `pubgrub::Ranges::strictly_lower_than`: all below a version.
#[verifier::external_body]
fn strictly_lower_than(key: Vec<u32>) -> (r: Ranges<Vec<u32>>)
    ensures
        range_segments(r) == seq![(EdgeV::Unbounded, EdgeV::Excluded(key@))],
{
    Ranges::strictly_lower_than(key)
}

/// `pubgrub::Ranges::complement`: the versions that are not in the range.
#[verifier::external_body]
fn complement(range: &Ranges<Vec<u32>>) -> (r: Ranges<Vec<u32>>)
    requires
        are_segments(range_segments(*range)),
    ensures
        are_segments(range_segments(r)),
        forall|key: Seq<u32>| #[trigger]
            in_segments(range_segments(r), key) <==> !in_segments(range_segments(*range), key),
{
    range.complement()
}

/// `pubgrub::Ranges::intersection`: the versions that are in both ranges.
#[verifier::external_body]
pub(crate) fn intersection(a: &Ranges<Vec<u32>>, b: &Ranges<Vec<u32>>) -> (r: Ranges<Vec<u32>>)
    requires
        are_segments(range_segments(*a)),
        are_segments(range_segments(*b)),
    ensures
        are_segments(range_segments(r)),
        forall|key: Seq<u32>| #[trigger]
            in_segments(range_segments(r), key) <==> (in_segments(range_segments(*a), key)
                && in_segments(range_segments(*b), key)),
{
    a.intersection(b)
}

/// The parts of the union of two ranges.
pub uninterp spec fn united(a: Seq<(EdgeV, EdgeV)>, b: Seq<(EdgeV, EdgeV)>) -> Seq<(EdgeV, EdgeV)>;

/// `pubgrub::Ranges::union`: the versions that are in one of the ranges.
#[verifier::external_body]
pub(crate) fn union(a: &Ranges<Vec<u32>>, b: &Ranges<Vec<u32>>) -> (r: Ranges<Vec<u32>>)
    requires
        are_segments(range_segments(*a)),
        are_segments(range_segments(*b)),
    ensures
        range_segments(r) == united(range_segments(*a), range_segments(*b)),
        are_segments(range_segments(r)),
        forall|key: Seq<u32>| #[trigger]
            in_segments(range_segments(r), key) <==> in_segments(range_segments(*a), key)
                || in_segments(range_segments(*b), key),
{
    a.union(b)
}

/// `pubgrub::Ranges::contains`: whether a version is in the range.
#[verifier::external_body]
pub(crate) fn contains(range: &Ranges<Vec<u32>>, key: &Vec<u32>) -> (r: bool)
    requires
        are_segments(range_segments(*range)),
    ensures
        r == in_segments(range_segments(*range), key@),
{
    range.contains(key)
}

/// Rows of numbers.
pub open spec fn rows(v: Seq<Vec<u32>>) -> Seq<Seq<u32>> {
    v.map_values(|x: Vec<u32>| x@)
}

/// Rows in order, none twice.
pub open spec fn rows_increase(rows: Seq<Seq<u32>>) -> bool {
    forall|i: int, j: int|
        0 <= i < j < rows.len() ==> row_order(#[trigger] rows[i], #[trigger] rows[j])
            == Order::Less
}

/// The parts of a range that is simpler and the same on given versions.
pub uninterp spec fn simplified(segments: Seq<(EdgeV, EdgeV)>, versions: Seq<Seq<u32>>) -> Seq<
    (EdgeV, EdgeV),
>;

/// The range holds none of the versions.
pub open spec fn holds_none(segments: Seq<(EdgeV, EdgeV)>, versions: Seq<Seq<u32>>) -> bool {
    forall|i: int| 0 <= i < versions.len() ==> !in_segments(segments, #[trigger] versions[i])
}

/// The range holds all of the versions, of which there are some.
pub open spec fn holds_all(segments: Seq<(EdgeV, EdgeV)>, versions: Seq<Seq<u32>>) -> bool {
    versions.len() > 0 && forall|i: int|
        0 <= i < versions.len() ==> in_segments(segments, #[trigger] versions[i])
}

/// The range is one version.
pub open spec fn is_only(segments: Seq<(EdgeV, EdgeV)>) -> bool {
    exists|key: Seq<u32>| segments == #[trigger] only(key)
}

/// `pubgrub::Ranges::simplify`: a range that holds the same of the given versions. A range of
/// one version and one that holds none of the versions stay as they are; one that holds all of
/// some versions becomes the range of all versions.
#[verifier::external_body]
pub(crate) fn simplify(range: &Ranges<Vec<u32>>, versions: &Vec<Vec<u32>>) -> (r: Ranges<Vec<u32>>)
    requires
        are_segments(range_segments(*range)),
        rows_increase(rows(versions@)),
    ensures
        range_segments(r) == simplified(range_segments(*range), rows(versions@)),
        are_segments(range_segments(r)),
        forall|i: int|
            0 <= i < versions@.len() ==> in_segments(
                range_segments(r),
                (#[trigger] versions@[i])@,
            ) == in_segments(range_segments(*range), versions@[i]@),
        holds_none(range_segments(*range), rows(versions@)) || is_only(range_segments(*range))
            ==> range_segments(r) == range_segments(*range),
        holds_all(range_segments(*range), rows(versions@)) && !is_only(range_segments(*range))
            ==> range_segments(r) == all_versions(),
{
    range.simplify(versions.iter())
}

/// Parts of a range.
pub open spec fn segment_views(v: Seq<(Edge, Edge)>) -> Seq<(EdgeV, EdgeV)> {
    v.map_values(|x: (Edge, Edge)| (x.0@, x.1@))
}

/// `pubgrub::Ranges::iter`: the parts of the range, in order.
#[verifier::external_body]
pub(crate) fn segments(range: &Ranges<Vec<u32>>) -> (r: Vec<(Edge, Edge)>)
    ensures
        segment_views(r@) == range_segments(*range),
{
    let edge = |bound: &Bound<Vec<u32>>| match bound {
        Bound::Unbounded => Edge::Unbounded,
        Bound::Included(key) => Edge::Included(key.clone()),
        Bound::Excluded(key) => Edge::Excluded(key.clone()),
    };
    range.iter().map(|(lower, upper)| (edge(lower), edge(upper))).collect()
}

/// `Clone` of `pubgrub::Ranges`: the parts are the same.
#[verifier::external_body]
pub(crate) fn copy(range: &Ranges<Vec<u32>>) -> (r: Ranges<Vec<u32>>)
    ensures
        range_segments(r) == range_segments(*range),
{
    range.clone()
}

proof fn lemma_one_segment(segment: (EdgeV, EdgeV))
    requires
        is_segment(segment),
    ensures
        are_segments(seq![segment]),
        forall|key: Seq<u32>| #[trigger]
            in_segments(seq![segment], key) <==> in_segment(segment, key),
{
    let one = seq![segment];
    assert forall|key: Seq<u32>| #[trigger] in_segments(one, key) <==> in_segment(
        segment,
        key,
    ) by {
        if in_segment(segment, key) {
            assert(in_segment(one[0], key));
        }
    }
}

/// A row is equal to itself.
proof fn lemma_row_same(a: Seq<u32>, i: int)
    requires
        0 <= i,
    ensures
        row_order_from(a, a, i) == Order::Equal,
    decreases a.len() - i,
{
    if i < a.len() {
        lemma_row_same(a, i + 1);
    }
}

/// The range of all versions.
pub fn any_version() -> (r: Ranges<Vec<u32>>)
    ensures
        range_segments(r) == all_versions(),
        are_segments(range_segments(r)),
        forall|key: Seq<u32>| #[trigger] in_segments(range_segments(r), key),
{
    proof {
        lemma_one_segment((EdgeV::Unbounded, EdgeV::Unbounded));
    }
    full()
}

/// The range of one version.
pub fn exactly(key: Vec<u32>) -> (r: Ranges<Vec<u32>>)
    ensures
        range_segments(r) == only(key@),
        are_segments(range_segments(r)),
        forall|other: Seq<u32>| #[trigger]
            in_segments(range_segments(r), other) <==> row_order(key@, other) != Order::Greater
                && row_order(other, key@) != Order::Greater,
{
    proof {
        lemma_row_same(key@, 0);
        lemma_one_segment((EdgeV::Included(key@), EdgeV::Included(key@)));
    }
    singleton(key)
}

/// The range of all but one version.
pub fn all_but(key: Vec<u32>) -> (r: Ranges<Vec<u32>>)
    ensures
        are_segments(range_segments(r)),
        forall|other: Seq<u32>| #[trigger]
            in_segments(range_segments(r), other) <==> !(row_order(key@, other) != Order::Greater
                && row_order(other, key@) != Order::Greater),
{
    let one = exactly(key);
    complement(&one)
}

/// The range of the versions from one on.
pub fn at_least(key: Vec<u32>) -> (r: Ranges<Vec<u32>>)
    ensures
        are_segments(range_segments(r)),
        forall|other: Seq<u32>| #[trigger]
            in_segments(range_segments(r), other) <==> row_order(key@, other) != Order::Greater,
{
    proof {
        lemma_one_segment((EdgeV::Included(key@), EdgeV::Unbounded));
    }
    higher_than(key)
}

/// The range of the versions above one.
pub fn more_than(key: Vec<u32>) -> (r: Ranges<Vec<u32>>)
    ensures
        are_segments(range_segments(r)),
        forall|other: Seq<u32>| #[trigger]
            in_segments(range_segments(r), other) <==> row_order(key@, other) == Order::Less,
{
    proof {
        lemma_one_segment((EdgeV::Excluded(key@), EdgeV::Unbounded));
    }
    strictly_higher_than(key)
}

/// The range of the versions up to one.
pub fn at_most(key: Vec<u32>) -> (r: Ranges<Vec<u32>>)
    ensures
        are_segments(range_segments(r)),
        forall|other: Seq<u32>| #[trigger]
            in_segments(range_segments(r), other) <==> row_order(other, key@) != Order::Greater,
{
    proof {
        lemma_one_segment((EdgeV::Unbounded, EdgeV::Included(key@)));
    }
    lower_than(key)
}

/// The range of the versions below one.
pub fn less_than(key: Vec<u32>) -> (r: Ranges<Vec<u32>>)
    ensures
        are_segments(range_segments(r)),
        forall|other: Seq<u32>| #[trigger]
            in_segments(range_segments(r), other) <==> row_order(other, key@) == Order::Less,
{
    proof {
        lemma_one_segment((EdgeV::Unbounded, EdgeV::Excluded(key@)));
    }
    strictly_lower_than(key)
}

/// A version is in a part of a range exactly if it is neither before its lower end nor behind
/// its upper end; an end that is not included is not in it, and where there is no end, nothing
/// is too far. A range holds what one of its parts holds.
pub proof fn ranges_hold_what_lies_between(a: Seq<u32>, b: Seq<u32>, c: Seq<u32>, parts: Seq<(EdgeV, EdgeV)>, i: int)
    ensures
        in_segment((EdgeV::Included(significant(a)), EdgeV::Unbounded), significant(c))
            <==> components_order(a, c) != Order::Greater,
        in_segment((EdgeV::Excluded(significant(a)), EdgeV::Unbounded), significant(c))
            <==> components_order(a, c) == Order::Less,
        in_segment((EdgeV::Unbounded, EdgeV::Included(significant(b))), significant(c))
            <==> components_order(c, b) != Order::Greater,
        in_segment((EdgeV::Unbounded, EdgeV::Excluded(significant(b))), significant(c))
            <==> components_order(c, b) == Order::Less,
        in_segment((EdgeV::Included(significant(a)), EdgeV::Excluded(significant(b))), significant(c))
            <==> components_order(a, c) != Order::Greater && components_order(c, b) == Order::Less,
        in_segments(all_versions(), significant(c)),
        in_segments(only(significant(a)), significant(c)) <==> components_order(a, c)
            == Order::Equal,
        !in_segments(Seq::empty(), significant(c)),
        0 <= i < parts.len() && in_segment(parts[i], significant(c)) ==> in_segments(
            parts,
            significant(c),
        ),
        in_segments(parts, significant(c)) ==> exists|k: int|
            0 <= k < parts.len() && #[trigger] in_segment(parts[k], significant(c)),
{
    versions_compare_as_rows(a, c);
    versions_compare_as_rows(c, a);
    versions_compare_as_rows(c, b);
    crate::metadata::components_order_flips(a, c);
    let all = all_versions();
    assert(in_segment(all[0], significant(c)));
    let one = only(significant(a));
    assert(one[0] == (EdgeV::Included(significant(a)), EdgeV::Included(significant(a))));
    if in_segments(one, significant(c)) {
        assert(in_segment(one[0], significant(c)));
    }
    if components_order(a, c) == Order::Equal {
        assert(in_segment(one[0], significant(c)));
    }
    if in_segments(parts, significant(c)) {
        let k = choose|k: int|
            0 <= k < parts.len() && in_segment(#[trigger] parts[k], significant(c));
        assert(in_segment(parts[k], significant(c)));
    }
}

} // verus!
