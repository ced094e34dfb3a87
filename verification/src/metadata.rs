//! Package versions and package relations.
use crate::order::{
    after, coherent, compare_chars, compare_text, compare_u64, flip, int_order, text_order,
    text_order_coherent, text_order_equal, text_order_flips, then_order, Order, Ordered, Total,
};
use crate::text;
use crate::text::{is_control, is_number, is_white_space, lowered, number_value, split_by};
use r_metadata::VersionRequirement as Required;
use std::str::FromStr;
use crate::sorted::SortedSet;
use vstd::prelude::*;
use vstd::utf8::encode_utf8;

verus! {

/// The numbers of a version spelled as at least two decimal numbers, each within `u32`,
/// with a dot or a hyphen between them; nothing for any other text.
pub open spec fn version_components(s: Seq<char>) -> Option<Seq<u32>> {
    let pieces = split_by(s, set!['.', '-']);
    if pieces.len() >= 2 && forall|i: int|
        0 <= i < pieces.len() ==> is_number(#[trigger] pieces[i]) && number_value(pieces[i])
            <= u32::MAX {
        Some(pieces.map_values(|p: Seq<char>| number_value(p) as u32))
    } else {
        None
    }
}

/// What `r_metadata::Version::from_str` reports of a text that it refuses: the message of
/// the error and the byte span of the offending part, where there is one.
pub uninterp spec fn version_failure(text: Seq<char>) -> (Seq<char>, Option<(usize, usize)>);

/// Why a text is not a version.
#[derive(Debug)]
pub struct VersionParseError {
    pub message: String,
    pub span: Option<(usize, usize)>,
}

impl VersionParseError {
    /// The message and the span.
    pub open spec fn view(&self) -> (Seq<char>, Option<(usize, usize)>) {
        (self.message@, self.span)
    }
}

/// `r_metadata::Version::from_str` and, of what it returns, `components`: it accepts the
/// texts that [`version_components`] gives numbers for, and these are the components. The
/// span of an error lies within the text.
#[verifier::external_body]
fn parse_components(text: &str) -> (r: Result<Vec<u32>, VersionParseError>)
    ensures
        match r {
            Ok(components) => version_components(text@) == Some(components@),
            Err(error) => version_components(text@) is None && error@ == version_failure(text@)
                && (error.span matches Some((start, end)) ==> start <= end <= encode_utf8(
                text@,
            ).len()),
        },
{
    match r_metadata::Version::from_str(text) {
        Ok(version) => Ok(version.components().to_vec()),
        Err(error) => Err(VersionParseError {
            message: error.to_string(),
            span: error.span().map(|span| (span.start(), span.end())),
        }),
    }
}

/// A package version with its spelling.
#[derive(Debug)]
pub struct Version {
    pub text: String,
    pub components: Vec<u32>,
}

/// The component at a place, zero past the end.
pub open spec fn component(c: Seq<u32>, i: int) -> int {
    if 0 <= i < c.len() {
        c[i] as int
    } else {
        0
    }
}

/// Comparison of versions from the component `i` on: the first components that differ
/// decide, and missing components count as zero.
pub open spec fn components_order_from(a: Seq<u32>, b: Seq<u32>, i: int) -> Order
    decreases a.len() + b.len() - i,
{
    if i >= a.len() && i >= b.len() {
        Order::Equal
    } else if component(a, i) == component(b, i) {
        components_order_from(a, b, i + 1)
    } else {
        int_order(component(a, i), component(b, i))
    }
}

/// Comparison of versions.
pub open spec fn components_order(a: Seq<u32>, b: Seq<u32>) -> Order {
    components_order_from(a, b, 0)
}

proof fn lemma_components_step(a: Seq<u32>, b: Seq<u32>, i: int)
    requires
        0 <= i,
    ensures
        components_order_from(a, b, i) == (if component(a, i) == component(b, i) {
            components_order_from(a, b, i + 1)
        } else {
            int_order(component(a, i), component(b, i))
        }),
{
}

proof fn lemma_components_flip(a: Seq<u32>, b: Seq<u32>, i: int)
    requires
        0 <= i,
    ensures
        components_order_from(a, b, i) == flip(components_order_from(b, a, i)),
    decreases a.len() + b.len() - i,
{
    if !(i >= a.len() && i >= b.len()) && component(a, i) == component(b, i) {
        lemma_components_flip(a, b, i + 1);
    }
}

proof fn lemma_components_coherent(a: Seq<u32>, b: Seq<u32>, c: Seq<u32>, i: int)
    requires
        0 <= i,
    ensures
        coherent(
            components_order_from(a, b, i),
            components_order_from(b, c, i),
            components_order_from(a, c, i),
        ),
    decreases a.len() + b.len() + c.len() - i,
{
    if i >= a.len() && i >= b.len() && i >= c.len() {
    } else {
        lemma_components_step(a, b, i);
        lemma_components_step(b, c, i);
        lemma_components_step(a, c, i);
        lemma_components_coherent(a, b, c, i + 1);
    }
}

/// Comparing versions in the other direction flips the answer.
pub proof fn components_order_flips(a: Seq<u32>, b: Seq<u32>)
    ensures
        components_order(a, b) == flip(components_order(b, a)),
{
    lemma_components_flip(a, b, 0);
}

/// The order of versions is transitive, its ties included.
pub proof fn components_order_coherent(a: Seq<u32>, b: Seq<u32>, c: Seq<u32>)
    ensures
        coherent(components_order(a, b), components_order(b, c), components_order(a, c)),
{
    lemma_components_coherent(a, b, c, 0);
}

/// Trailing zeros do not change a version: `2.5.1` and `2.5.1.0` are equal.
pub proof fn trailing_zeros_are_equal(a: Seq<u32>)
    ensures
        components_order(a, a.push(0)) == Order::Equal,
{
    lemma_trailing_zero(a, 0);
}

proof fn lemma_trailing_zero(a: Seq<u32>, i: int)
    requires
        0 <= i,
    ensures
        components_order_from(a, a.push(0), i) == Order::Equal,
    decreases 2 * a.len() + 1 - i,
{
    if !(i >= a.len() && i >= a.push(0).len()) {
        lemma_trailing_zero(a, i + 1);
    }
}

/// The components without the zeros at the end.
pub open spec fn significant(c: Seq<u32>) -> Seq<u32>
    decreases c.len(),
{
    if c.len() > 0 && c.last() == 0 {
        significant(c.drop_last())
    } else {
        c
    }
}

proof fn lemma_significant(c: Seq<u32>)
    ensures
        significant(c).len() <= c.len(),
        forall|i: int| component(significant(c), i) == component(c, i),
        significant(c).len() > 0 ==> significant(c).last() != 0,
    decreases c.len(),
{
    if c.len() > 0 && c.last() == 0 {
        lemma_significant(c.drop_last());
        assert forall|i: int| component(significant(c), i) == component(c, i) by {
            assert(component(significant(c.drop_last()), i) == component(c.drop_last(), i));
        }
    }
}

proof fn lemma_equal_components(a: Seq<u32>, b: Seq<u32>, i: int)
    requires
        0 <= i,
    ensures
        components_order_from(a, b, i) == Order::Equal <==> forall|k: int|
            i <= k ==> component(a, k) == component(b, k),
    decreases a.len() + b.len() - i,
{
    if !(i >= a.len() && i >= b.len()) {
        lemma_equal_components(a, b, i + 1);
        if component(a, i) == component(b, i) {
            if components_order_from(a, b, i + 1) == Order::Equal {
                assert forall|k: int| i <= k implies component(a, k) == component(b, k) by {}
            }
            if forall|k: int| i <= k ==> component(a, k) == component(b, k) {
                assert forall|k: int| i + 1 <= k implies component(a, k) == component(b, k) by {}
            }
        }
    }
}

/// Two versions are equal exactly if their components are, the zeros at the end aside.
pub proof fn equal_versions_are_significantly_the_same(a: Seq<u32>, b: Seq<u32>)
    ensures
        components_order(a, b) == Order::Equal <==> significant(a) == significant(b),
{
    lemma_significant(a);
    lemma_significant(b);
    lemma_equal_components(a, b, 0);
    let x = significant(a);
    let y = significant(b);
    if components_order(a, b) == Order::Equal {
        assert forall|k: int| 0 <= k implies component(x, k) == component(y, k) by {
            assert(component(a, k) == component(b, k));
        }
        if x.len() < y.len() {
            assert(component(x, y.len() - 1) == component(y, y.len() - 1));
        } else if y.len() < x.len() {
            assert(component(x, x.len() - 1) == component(y, x.len() - 1));
        }
        assert forall|k: int| 0 <= k < x.len() implies x[k] == y[k] by {
            assert(component(x, k) == component(y, k));
        }
        assert(x =~= y);
    }
    if x == y {
        assert forall|k: int| 0 <= k implies component(a, k) == component(b, k) by {
            assert(component(x, k) == component(a, k));
            assert(component(y, k) == component(b, k));
        }
    }
}

/// The spelling of a version holds nothing but digits, dots and hyphens.
pub proof fn versions_are_plain(text: Seq<char>, c: char)
    requires
        version_components(text) is Some,
        text.contains(c),
    ensures
        text::is_digit(c) || c == '.' || c == '-',
{
    let seps = set!['.', '-'];
    if !seps.contains(c) {
        text::lemma_split_keeps(text, seps, c);
        let pieces = split_by(text, seps);
        let i = choose|i: int| 0 <= i < pieces.len() && (#[trigger] pieces[i]).contains(c);
        assert(is_number(pieces[i]));
    }
}

impl Version {
    /// The spelling and the components.
    pub open spec fn view(&self) -> VersionV {
        VersionV { text: self.text@, components: self.components@ }
    }

    /// The components are those that the spelling stands for.
    pub open spec fn wf(&self) -> bool {
        version_components(self.text@) == Some(self.components@)
    }

    /// Reads a version.
    pub fn parse(text: &str) -> (r: Result<Version, VersionParseError>)
        ensures
            match r {
                Ok(version) => version.wf() && version.text@ == text@,
                Err(error) => version_components(text@) is None && error@ == version_failure(text@)
                    && (error.span matches Some((start, end)) ==> start <= end <= encode_utf8(
                    text@,
                ).len()),
            },
    {
        match parse_components(text) {
            Ok(components) => Ok(Version { text: text.to_owned(), components }),
            Err(error) => Err(error),
        }
    }

    /// The first component.
    pub fn major(&self) -> (r: u32)
        requires
            self.wf(),
        ensures
            r == self.components@[0],
    {
        self.components[0]
    }

    /// The components without the zeros at the end.
    pub fn significant(&self) -> (r: Vec<u32>)
        ensures
            r@ == significant(self.components@),
    {
        let mut r = self.components.clone();
        assert(r@ =~= self.components@);
        while r.len() > 0 && r[r.len() - 1] == 0
            invariant
                significant(r@) == significant(self.components@),
            decreases r.len(),
        {
            let ghost before = r@;
            let _ = r.pop();
            assert(r@ =~= before.drop_last());
        }
        r
    }

    /// A copy with the same spelling.
    pub fn copy(&self) -> (r: Version)
        ensures
            r@ == self@,
    {
        Version { text: self.text.clone(), components: self.components.clone() }
    }

    /// Whether two versions are equal, whatever their spelling.
    pub fn same(&self, other: &Version) -> (r: bool)
        ensures
            r == (components_order(self.components@, other.components@) == Order::Equal),
    {
        compare_components(&self.components, &other.components) == Order::Equal
    }
}

/// The spelling of a version and its components.
pub struct VersionV {
    pub text: Seq<char>,
    pub components: Seq<u32>,
}

impl Total for VersionV {
    open spec fn order(self, other: Self) -> Order {
        components_order(self.components, other.components)
    }

    proof fn order_flips(a: Self, b: Self) {
        components_order_flips(a.components, b.components);
    }

    proof fn order_coherent(a: Self, b: Self, c: Self) {
        components_order_coherent(a.components, b.components, c.components);
    }
}

impl Ordered for Version {
    type Key = VersionV;

    open spec fn key(self) -> VersionV {
        self@
    }

    open spec fn sound(self) -> bool {
        self.wf()
    }

    fn compare(&self, other: &Self) -> (r: Order) {
        assert(self.key().order(other.key()) == self@.order(other@));
        assert(self@.order(other@) == components_order(self.components@, other.components@));
        compare_components(&self.components, &other.components)
    }
}

pub(crate) fn compare_components(a: &Vec<u32>, b: &Vec<u32>) -> (r: Order)
    ensures
        r == components_order(a@, b@),
{
    let mut i: usize = 0;
    while i < a.len() || i < b.len()
        invariant
            i <= a.len() || i <= b.len(),
            components_order(a@, b@) == components_order_from(a@, b@, i as int),
        decreases a.len() + b.len() - i,
    {
        let x: u32 = if i < a.len() {
            a[i]
        } else {
            0
        };
        let y: u32 = if i < b.len() {
            b[i]
        } else {
            0
        };
        if x < y {
            return Order::Less;
        }
        if x > y {
            return Order::Greater;
        }
        i = i + 1;
    }
    Order::Equal
}

/// How a required version bounds the versions that meet it.
#[derive(Clone, Copy, PartialEq, Eq, Structural, Debug)]
pub enum Comparison {
    LessThan,
    LessThanEqual,
    Equal,
    NotEqual,
    GreaterThan,
    GreaterThanEqual,
}

/// The place of a comparison among the six.
pub open spec fn comparison_rank(c: Comparison) -> int {
    match c {
        Comparison::LessThan => 1,
        Comparison::LessThanEqual => 2,
        Comparison::Equal => 3,
        Comparison::NotEqual => 4,
        Comparison::GreaterThan => 5,
        Comparison::GreaterThanEqual => 6,
    }
}

/// The spelling of a comparison.
pub open spec fn comparison_text(c: Comparison) -> Seq<char> {
    match c {
        Comparison::LessThan => "<"@,
        Comparison::LessThanEqual => "<="@,
        Comparison::Equal => "=="@,
        Comparison::NotEqual => "!="@,
        Comparison::GreaterThan => ">"@,
        Comparison::GreaterThanEqual => ">="@,
    }
}

impl Comparison {
    fn rank(&self) -> (r: u64)
        ensures
            r == comparison_rank(*self),
    {
        match self {
            Comparison::LessThan => 1,
            Comparison::LessThanEqual => 2,
            Comparison::Equal => 3,
            Comparison::NotEqual => 4,
            Comparison::GreaterThan => 5,
            Comparison::GreaterThanEqual => 6,
        }
    }

    fn as_str(&self) -> (r: &'static str)
        ensures
            r@ == comparison_text(*self),
    {
        match self {
            Comparison::LessThan => "<",
            Comparison::LessThanEqual => "<=",
            Comparison::Equal => "==",
            Comparison::NotEqual => "!=",
            Comparison::GreaterThan => ">",
            Comparison::GreaterThanEqual => ">=",
        }
    }
}

/// The number of a source revision: an `r` and decimal digits, within `u64`.
pub open spec fn revision_number(s: Seq<char>) -> Option<u64> {
    if s.len() > 0 && s[0] == 'r' && is_number(s.skip(1)) && number_value(s.skip(1)) <= u64::MAX {
        Some(number_value(s.skip(1)) as u64)
    } else {
        None
    }
}

/// The right-hand side of a requirement.
#[derive(Debug)]
pub enum RequirementVersion {
    Version(Version),
    Revision(String),
}

impl RequirementVersion {
    /// The spelling.
    pub open spec fn view(&self) -> Seq<char> {
        match self {
            RequirementVersion::Version(version) => version.text@,
            RequirementVersion::Revision(text) => text@,
        }
    }

    /// A version or a revision, as spelled.
    pub open spec fn wf(&self) -> bool {
        match self {
            RequirementVersion::Version(version) => version.wf(),
            RequirementVersion::Revision(text) => revision_number(text@) is Some,
        }
    }

    fn copy(&self) -> (r: RequirementVersion)
        ensures
            r@ == self@,
            self.wf() ==> r.wf(),
    {
        match self {
            RequirementVersion::Version(version) => RequirementVersion::Version(version.copy()),
            RequirementVersion::Revision(text) => RequirementVersion::Revision(text.clone()),
        }
    }

    /// The spelling, as text.
    pub fn as_str(&self) -> (r: &str)
        ensures
            r@ == self@,
    {
        match self {
            RequirementVersion::Version(version) => version.text.as_str(),
            RequirementVersion::Revision(text) => text.as_str(),
        }
    }
}

/// What is asked of the version of a package.
#[derive(Debug)]
pub enum VersionRequirement {
    Any,
    Compare(Comparison, RequirementVersion),
}

/// A package and what is asked of its version, as spelled.
pub struct RelationV {
    pub package: Seq<char>,
    pub requirement: Option<(Comparison, Seq<char>)>,
}

/// A package and what is asked of its version.
#[derive(Debug)]
pub struct Relation {
    pub package: String,
    pub requirement: VersionRequirement,
}

/// A name that a list of relations can hold: not empty, without white space, control
/// characters, commas and parentheses.
pub open spec fn valid_package(s: Seq<char>) -> bool {
    s.len() > 0 && forall|i: int|
        0 <= i < s.len() ==> !is_control(#[trigger] s[i]) && !is_white_space(s[i]) && s[i] != ','
            && s[i] != '(' && s[i] != ')'
}

/// What `r_metadata::Relation::any` reports of a name that it refuses.
pub uninterp spec fn package_failure(name: Seq<char>) -> Seq<char>;

/// `r_metadata::Relation::any`: it accepts the names of [`valid_package`]; else the message
/// of its error is returned.
#[verifier::external_body]
pub(crate) fn check_package(name: &str) -> (r: Result<(), String>)
    ensures
        match r {
            Ok(_) => valid_package(name@) && r is Ok,
            Err(message) => !valid_package(name@) && message@ == package_failure(name@),
        },
{
    match r_metadata::Relation::any(name) {
        Ok(_) => Ok(()),
        Err(error) => Err(error.to_string()),
    }
}

/// Tests a package name.
pub fn is_valid_package(name: &str) -> (r: bool)
    ensures
        r == valid_package(name@),
{
    let chars = text::chars_of(name);
    if chars.len() == 0 {
        return false;
    }
    let mut i: usize = 0;
    while i < chars.len()
        invariant
            i <= chars@.len(),
            chars@ == name@,
            forall|k: int|
                0 <= k < i ==> !is_control(#[trigger] name@[k]) && !is_white_space(name@[k])
                    && name@[k] != ',' && name@[k] != '(' && name@[k] != ')',
        decreases chars@.len() - i,
    {
        let c: char = chars[i];
        if text::control(c) || text::white_space(c) || c == ',' || c == '(' || c == ')' {
            assert(name@[i as int] == c);
            return false;
        }
        i = i + 1;
    }
    true
}

/// A copy of a set of relations.
pub fn copy_relations(set: &SortedSet<Relation>) -> (r: SortedSet<Relation>)
    requires
        set.wf(),
    ensures
        r.wf(),
        r@ == set@,
{
    let mut out: Vec<Relation> = Vec::new();
    let mut i: usize = 0;
    while i < set.items.len()
        invariant
            i <= set.items@.len(),
            set.wf(),
            out@.len() == i,
            forall|k: int|
                0 <= k < i ==> (#[trigger] out@[k])@ == set.items@[k]@ && out@[k].sound(),
        decreases set.items@.len() - i,
    {
        assert(set.items@[i as int].sound());
        out.push(set.items[i].copy());
        i = i + 1;
    }
    let r = SortedSet { items: out };
    assert(r@ =~= set@);
    r
}

/// A version or a revision.
pub open spec fn valid_operand(s: Seq<char>) -> bool {
    version_components(s) is Some || revision_number(s) is Some
}

/// A relation whose parts can be spelled.
pub open spec fn valid_relation(r: RelationV) -> bool {
    valid_package(r.package) && match r.requirement {
        None => true,
        Some((_, operand)) => valid_operand(operand),
    }
}

/// The spelling of a relation.
pub open spec fn relation_text(r: RelationV) -> Seq<char> {
    match r.requirement {
        None => r.package,
        Some((comparison, operand)) => r.package + " ("@ + comparison_text(comparison) + " "@
            + operand + ")"@,
    }
}

/// Comparison of required versions: versions come before revisions, versions compare by
/// their components and revisions by their spelling.
pub open spec fn operand_order(a: Seq<char>, b: Seq<char>) -> Order {
    match (version_components(a), version_components(b)) {
        (Some(x), Some(y)) => components_order(x, y),
        (Some(_), None) => Order::Less,
        (None, Some(_)) => Order::Greater,
        (None, None) => text_order(a, b),
    }
}

/// Comparison of requirements: none comes first, then by comparison, then by version.
pub open spec fn requirement_order(
    a: Option<(Comparison, Seq<char>)>,
    b: Option<(Comparison, Seq<char>)>,
) -> Order {
    match (a, b) {
        (None, None) => Order::Equal,
        (None, Some(_)) => Order::Less,
        (Some(_), None) => Order::Greater,
        (Some((c, x)), Some((d, y))) => then_order(
            int_order(comparison_rank(c), comparison_rank(d)),
            operand_order(x, y),
        ),
    }
}

/// Comparison of relations: by package without regard to ASCII case, then by package,
/// then by requirement.
pub open spec fn relation_order(a: RelationV, b: RelationV) -> Order {
    then_order(
        text_order(lowered(a.package), lowered(b.package)),
        then_order(
            text_order(a.package, b.package),
            requirement_order(a.requirement, b.requirement),
        ),
    )
}

/// What `r_metadata::Relation::from_str` makes of a text: the package and the requirement,
/// or the message of its error.
pub uninterp spec fn parsed_relation(text: Seq<char>) -> Result<
    (Seq<char>, Option<(Comparison, Seq<char>)>),
    Seq<char>,
>;

/// The parts of a relation as the parser hands them over.
struct RelationParts {
    package: String,
    requirement: Option<(Comparison, String)>,
}

impl RelationParts {
    spec fn view(&self) -> (Seq<char>, Option<(Comparison, Seq<char>)>) {
        (
            self.package@,
            match self.requirement {
                None => None,
                Some((comparison, operand)) => Some((comparison, operand@)),
            },
        )
    }
}

/// `r_metadata::Relation::from_str`, with the package, the comparison and the spelling of
/// the required version that the relation holds. An accepted relation has a valid package
/// and a valid version or revision, and the spelling of a valid relation is read back as
/// that relation.
#[verifier::external_body]
fn parse_relation(text: &str) -> (r: Result<RelationParts, String>)
    ensures
        match r {
            Ok(parts) => parsed_relation(text@) == Ok::<
                (Seq<char>, Option<(Comparison, Seq<char>)>),
                Seq<char>,
            >(parts@) && valid_relation(
                (RelationV { package: parts@.0, requirement: parts@.1 }),
            ),
            Err(message) => parsed_relation(text@) == Err::<
                (Seq<char>, Option<(Comparison, Seq<char>)>),
                Seq<char>,
            >(message@),
        },
        forall|v: RelationV|
            valid_relation(v) && #[trigger] relation_text(v) == text@ ==> r is Ok && r->Ok_0@ == (
                v.package,
                v.requirement,
            ),
{
    let relation = r_metadata::Relation::from_str(text).map_err(|error| error.to_string())?;
    let package = relation.package().to_string();
    let (comparison, version) = match relation.requirement() {
        Required::Any => return Ok(RelationParts { package, requirement: None }),
        Required::LessThan(v) => (Comparison::LessThan, v),
        Required::LessThanEqual(v) => (Comparison::LessThanEqual, v),
        Required::Equal(v) => (Comparison::Equal, v),
        Required::NotEqual(v) => (Comparison::NotEqual, v),
        Required::GreaterThan(v) => (Comparison::GreaterThan, v),
        Required::GreaterThanEqual(v) => (Comparison::GreaterThanEqual, v),
    };
    Ok(RelationParts { package, requirement: Some((comparison, version.to_string())) })
}

proof fn lemma_operand_flips(a: Seq<char>, b: Seq<char>)
    ensures
        operand_order(a, b) == flip(operand_order(b, a)),
{
    text_order_flips(a, b);
    match (version_components(a), version_components(b)) {
        (Some(x), Some(y)) => components_order_flips(x, y),
        _ => {},
    }
}

proof fn lemma_operand_coherent(a: Seq<char>, b: Seq<char>, c: Seq<char>)
    ensures
        coherent(operand_order(a, b), operand_order(b, c), operand_order(a, c)),
{
    text_order_coherent(a, b, c);
    match (version_components(a), version_components(b), version_components(c)) {
        (Some(x), Some(y), Some(z)) => components_order_coherent(x, y, z),
        _ => {},
    }
}

/// Comparing relations in the other direction flips the answer.
pub proof fn relation_order_flips(a: RelationV, b: RelationV)
    ensures
        relation_order(a, b) == flip(relation_order(b, a)),
{
    text_order_flips(lowered(a.package), lowered(b.package));
    text_order_flips(a.package, b.package);
    match (a.requirement, b.requirement) {
        (Some((_, x)), Some((_, y))) => lemma_operand_flips(x, y),
        _ => {},
    }
}

/// The order of relations is transitive, its ties included.
pub proof fn relation_order_coherent(a: RelationV, b: RelationV, c: RelationV)
    ensures
        coherent(relation_order(a, b), relation_order(b, c), relation_order(a, c)),
{
    text_order_coherent(lowered(a.package), lowered(b.package), lowered(c.package));
    text_order_coherent(a.package, b.package, c.package);
    match (a.requirement, b.requirement, c.requirement) {
        (Some((_, x)), Some((_, y)), Some((_, z))) => lemma_operand_coherent(x, y, z),
        _ => {},
    }
}

/// Relations that compare as equal name the same package.
pub proof fn equal_relations_share_their_package(a: RelationV, b: RelationV)
    requires
        relation_order(a, b) == Order::Equal,
    ensures
        a.package == b.package,
{
    text_order_equal(a.package, b.package);
}

impl VersionRequirement {
    /// The comparison and the spelling of the version.
    pub open spec fn view(&self) -> Option<(Comparison, Seq<char>)> {
        match self {
            VersionRequirement::Any => None,
            VersionRequirement::Compare(comparison, version) => Some((*comparison, version@)),
        }
    }

    /// The required version is one.
    pub open spec fn wf(&self) -> bool {
        match self {
            VersionRequirement::Any => true,
            VersionRequirement::Compare(_, version) => version.wf(),
        }
    }

    /// A copy with the same spelling.
    pub fn copy(&self) -> (r: VersionRequirement)
        ensures
            r@ == self@,
            self.wf() ==> r.wf(),
    {
        match self {
            VersionRequirement::Any => VersionRequirement::Any,
            VersionRequirement::Compare(comparison, version) => VersionRequirement::Compare(
                *comparison,
                version.copy(),
            ),
        }
    }

    /// Whether the requirement names a revision.
    pub fn uses_revision(&self) -> (r: bool)
        ensures
            r == (self matches VersionRequirement::Compare(_, RequirementVersion::Revision(_))),
    {
        matches!(self, VersionRequirement::Compare(_, RequirementVersion::Revision(_)))
    }

    /// A sound requirement names a revision exactly when its spelling is no version.
    pub proof fn lemma_revision(&self)
        requires
            self.wf(),
        ensures
            (self matches VersionRequirement::Compare(_, RequirementVersion::Revision(_))) <==> (
            self@ matches Some((_, operand)) && version_components(operand) is None),
    {
        match self {
            VersionRequirement::Compare(_, RequirementVersion::Revision(text)) => {
                lemma_revision_is_no_version(text@);
            },
            _ => {},
        }
    }

    fn compare_requirement(&self, other: &VersionRequirement) -> (r: Order)
        requires
            self.wf(),
            other.wf(),
        ensures
            r == requirement_order(self@, other@),
    {
        match (self, other) {
            (VersionRequirement::Any, VersionRequirement::Any) => Order::Equal,
            (VersionRequirement::Any, VersionRequirement::Compare(_, _)) => Order::Less,
            (VersionRequirement::Compare(_, _), VersionRequirement::Any) => Order::Greater,
            (VersionRequirement::Compare(c, x), VersionRequirement::Compare(d, y)) => {
                let first = compare_u64(c.rank(), d.rank());
                let second = compare_operands(x, y);
                after(first, second)
            },
        }
    }
}

proof fn lemma_revision_is_no_version(s: Seq<char>)
    requires
        revision_number(s) is Some,
    ensures
        version_components(s) is None,
{
    let seps = set!['.', '-'];
    lemma_first_piece(s, seps);
    if version_components(s) is Some {
        let pieces = split_by(s, seps);
        assert(is_number(pieces[0]));
        assert(text::is_digit(pieces[0][0]));
    }
}

proof fn lemma_first_piece(s: Seq<char>, seps: Set<char>)
    ensures
        split_by(s, seps).len() > 0,
        s.len() > 0 && !seps.contains(s[0]) ==> split_by(s, seps)[0].len() > 0 && split_by(
            s,
            seps,
        )[0][0] == s[0],
    decreases s.len(),
{
    if s.len() > 0 {
        lemma_first_piece(s.drop_last(), seps);
        if s.len() > 1 {
            assert(s.drop_last()[0] == s[0]);
        }
    }
}

fn compare_operands(a: &RequirementVersion, b: &RequirementVersion) -> (r: Order)
    requires
        a.wf(),
        b.wf(),
    ensures
        r == operand_order(a@, b@),
{
    match (a, b) {
        (RequirementVersion::Version(x), RequirementVersion::Version(y)) => x.compare(y),
        (RequirementVersion::Version(_), RequirementVersion::Revision(_)) => {
            proof {
                lemma_revision_is_no_version(b@);
            }
            Order::Less
        },
        (RequirementVersion::Revision(_), RequirementVersion::Version(_)) => {
            proof {
                lemma_revision_is_no_version(a@);
            }
            Order::Greater
        },
        (RequirementVersion::Revision(x), RequirementVersion::Revision(y)) => {
            proof {
                lemma_revision_is_no_version(a@);
                lemma_revision_is_no_version(b@);
            }
            compare_text(x.as_str(), y.as_str())
        },
    }
}

impl Relation {
    /// The package and the requirement, as spelled.
    pub open spec fn view(&self) -> RelationV {
        RelationV { package: self.package@, requirement: self.requirement@ }
    }

    /// A package name and a version that can be spelled.
    pub open spec fn wf(&self) -> bool {
        valid_package(self.package@) && self.requirement.wf()
    }

    /// Reads a relation.
    pub fn parse(text: &str) -> (r: Result<Relation, String>)
        ensures
            match r {
                Ok(relation) => relation.wf() && parsed_relation(text@) == Ok::<
                    (Seq<char>, Option<(Comparison, Seq<char>)>),
                    Seq<char>,
                >((relation@.package, relation@.requirement)),
                Err(message) => parsed_relation(text@) == Err::<
                    (Seq<char>, Option<(Comparison, Seq<char>)>),
                    Seq<char>,
                >(message@),
            },
            forall|v: RelationV|
                valid_relation(v) && #[trigger] relation_text(v) == text@ ==> r is Ok
                    && r->Ok_0@ == v,
    {
        match parse_relation(text) {
            Err(message) => Err(message),
            Ok(parts) => {
                let requirement = match parts.requirement {
                    None => VersionRequirement::Any,
                    Some((comparison, operand)) => {
                        let version = match Version::parse(operand.as_str()) {
                            Ok(version) => RequirementVersion::Version(version),
                            Err(_) => RequirementVersion::Revision(operand),
                        };
                        VersionRequirement::Compare(comparison, version)
                    },
                };
                Ok(Relation { package: parts.package, requirement })
            },
        }
    }

    /// A relation without requirement.
    pub fn any(package: String) -> (r: Relation)
        requires
            valid_package(package@),
        ensures
            r.wf(),
            r@ == (RelationV { package: package@, requirement: None }),
    {
        Relation { package, requirement: VersionRequirement::Any }
    }

    /// The spelling of the relation.
    pub fn to_text(&self) -> (r: String)
        ensures
            r@ == relation_text(self@),
    {
        let mut out: String = self.package.clone();
        match &self.requirement {
            VersionRequirement::Any => {},
            VersionRequirement::Compare(comparison, version) => {
                out.push_str(" (");
                out.push_str(comparison.as_str());
                out.push_str(" ");
                out.push_str(version.as_str());
                out.push_str(")");
            },
        }
        out
    }

    /// A copy with the same spelling.
    pub fn copy(&self) -> (r: Relation)
        ensures
            r@ == self@,
            self.wf() ==> r.wf(),
    {
        Relation { package: self.package.clone(), requirement: self.requirement.copy() }
    }
}

impl Total for RelationV {
    open spec fn order(self, other: Self) -> Order {
        relation_order(self, other)
    }

    proof fn order_flips(a: Self, b: Self) {
        relation_order_flips(a, b);
    }

    proof fn order_coherent(a: Self, b: Self, c: Self) {
        relation_order_coherent(a, b, c);
    }
}

impl Ordered for Relation {
    type Key = RelationV;

    open spec fn key(self) -> RelationV {
        self@
    }

    open spec fn sound(self) -> bool {
        self.wf()
    }

    fn compare(&self, other: &Self) -> (r: Order) {
        assert(self@.order(other@) == relation_order(self@, other@));
        let a = text::lower_chars(self.package.as_str());
        let b = text::lower_chars(other.package.as_str());
        let first = compare_chars(&a, &b);
        let second = compare_text(self.package.as_str(), other.package.as_str());
        let third = self.requirement.compare_requirement(&other.requirement);
        after(first, after(second, third))
    }
}

proof fn lemma_first_difference(a: Seq<u32>, b: Seq<u32>, i: int, k: int)
    requires
        0 <= i <= k,
        component(a, k) != component(b, k),
        forall|j: int| i <= j < k ==> component(a, j) == component(b, j),
    ensures
        components_order_from(a, b, i) == int_order(component(a, k), component(b, k)),
    decreases k - i,
{
    if i < k {
        assert(k < a.len() || k < b.len());
        assert(component(a, i) == component(b, i));
        lemma_first_difference(a, b, i + 1, k);
    }
}

/// Versions compare by the first component in which they differ, where a component that is
/// missing counts as zero; versions that differ nowhere are equal.
pub proof fn versions_compare_by_their_first_difference(a: Seq<u32>, b: Seq<u32>, k: int)
    requires
        0 <= k,
        forall|j: int|
            0 <= j < k ==> #[trigger] component(a, j) == component(b, j),
    ensures
        (if k < a.len() { a[k] as int } else { 0 }) < (if k < b.len() { b[k] as int } else { 0 })
            ==> components_order(a, b) == Order::Less,
        (if k < a.len() { a[k] as int } else { 0 }) > (if k < b.len() { b[k] as int } else { 0 })
            ==> components_order(a, b) == Order::Greater,
        k >= a.len() && k >= b.len() ==> components_order(a, b) == Order::Equal,
{
    if component(a, k) != component(b, k) {
        lemma_first_difference(a, b, 0, k);
    }
    if k >= a.len() && k >= b.len() {
        lemma_equal_components(a, b, 0);
        assert forall|j: int| 0 <= j implies component(a, j) == component(b, j) by {}
    }
}

/// A component that is missing counts as zero.
pub proof fn missing_components_are_zero(a: Seq<u32>, k: int)
    ensures
        component(a, k) == (if 0 <= k < a.len() { a[k] as int } else { 0 }),
{
}

proof fn lemma_not_below_zeros(a: Seq<u32>, b: Seq<u32>, i: int)
    requires
        0 <= i,
        forall|k: int| i <= k ==> #[trigger] component(b, k) == 0,
    ensures
        components_order_from(a, b, i) != Order::Less,
    decreases a.len() + b.len() - i,
{
    if !(i >= a.len() && i >= b.len()) && component(a, i) == component(b, i) {
        lemma_not_below_zeros(a, b, i + 1);
    }
}

/// The versions below the first version of a major series are those of the series before it.
pub proof fn versions_below_a_series(a: Seq<u32>, major: u32)
    ensures
        components_order(a, seq![major, 0u32, 0u32]) == Order::Less <==> (if a.len() > 0 {
            a[0] as int
        } else {
            0
        }) < major,
{
    let b = seq![major, 0u32, 0u32];
    if component(a, 0) != major {
        lemma_first_difference(a, b, 0, 0);
    } else {
        lemma_not_below_zeros(a, b, 1);
    }
}

/// Relations are ordered by the names of their packages without regard to case, then by the
/// names as they are spelled; for one package, one without a requirement comes first. Equal
/// relations ask for one package with the same comparison.
pub proof fn relations_are_ordered_by_package(a: RelationV, b: RelationV)
    ensures
        text_order(lowered(a.package), lowered(b.package)) == Order::Less ==> a.order(b)
            == Order::Less,
        lowered(a.package) == lowered(b.package) && text_order(a.package, b.package) == Order::Less
            ==> a.order(b) == Order::Less,
        a.package == b.package && a.requirement is None && b.requirement is Some ==> a.order(b)
            == Order::Less,
        a.order(b) == Order::Equal ==> a.package == b.package && match (
            a.requirement,
            b.requirement,
        ) {
            (None, None) => true,
            (Some((c, _)), Some((d, _))) => c == d,
            _ => false,
        },
{
    text_order_equal(a.package, b.package);
    text_order_equal(lowered(a.package), lowered(b.package));
}

} // verus!
