//! Packages that are asked for on the command line.
use crate::metadata;
use crate::metadata::{
    package_failure, valid_package, version_components, version_failure, Comparison, Relation,
    RelationV, RequirementVersion, Version, VersionRequirement,
};
use crate::sorted::{collected, SortedSet};
use crate::text;
use crate::text::{cut_at, has_prefix, is_white_space, joined, texts};
use vstd::prelude::*;

verus! {

/// Why a package cannot be asked for as it was written.
#[derive(Debug)]
pub enum AddPackageParseReason {
    Empty,
    Whitespace,
    MissingName,
    MissingConstraint,
    InvalidOperator,
    MissingVersion,
    InvalidVersion { version: String, details: String },
    InvalidPackageName { details: String },
}

/// Why a package cannot be asked for as it was written.
pub enum ReasonV {
    Empty,
    Whitespace,
    MissingName,
    MissingConstraint,
    InvalidOperator,
    MissingVersion,
    InvalidVersion(Seq<char>, Seq<char>),
    InvalidPackageName(Seq<char>),
}

/// A reason in words.
pub open spec fn reason_text(reason: ReasonV) -> Seq<char> {
    match reason {
        ReasonV::Empty => "must not be empty"@,
        ReasonV::Whitespace => "must not contain whitespace"@,
        ReasonV::MissingName => "package name is missing"@,
        ReasonV::MissingConstraint => {
            "version constraint is missing; quote constraints containing shell operators, for example `rpx add 'digest@>=0.6.37'`"@
        },
        ReasonV::InvalidOperator => "version constraint operator is missing or invalid"@,
        ReasonV::MissingVersion => "version is missing"@,
        ReasonV::InvalidVersion(version, details) => "invalid version `"@ + version + "`: "@
            + details,
        ReasonV::InvalidPackageName(details) => "invalid package name: "@ + details,
    }
}

impl AddPackageParseReason {
    /// The reason, as characters.
    pub open spec fn view(&self) -> ReasonV {
        match self {
            AddPackageParseReason::Empty => ReasonV::Empty,
            AddPackageParseReason::Whitespace => ReasonV::Whitespace,
            AddPackageParseReason::MissingName => ReasonV::MissingName,
            AddPackageParseReason::MissingConstraint => ReasonV::MissingConstraint,
            AddPackageParseReason::InvalidOperator => ReasonV::InvalidOperator,
            AddPackageParseReason::MissingVersion => ReasonV::MissingVersion,
            AddPackageParseReason::InvalidVersion { version, details } => ReasonV::InvalidVersion(
                version@,
                details@,
            ),
            AddPackageParseReason::InvalidPackageName { details } => ReasonV::InvalidPackageName(
                details@,
            ),
        }
    }

    /// The reason in words.
    pub fn message(&self) -> (r: String)
        ensures
            r@ == reason_text(self@),
    {
        match self {
            AddPackageParseReason::Empty => "must not be empty".to_owned(),
            AddPackageParseReason::Whitespace => "must not contain whitespace".to_owned(),
            AddPackageParseReason::MissingName => "package name is missing".to_owned(),
            AddPackageParseReason::MissingConstraint => {
                "version constraint is missing; quote constraints containing shell operators, for example `rpx add 'digest@>=0.6.37'`".to_owned()
            },
            AddPackageParseReason::InvalidOperator => {
                "version constraint operator is missing or invalid".to_owned()
            },
            AddPackageParseReason::MissingVersion => "version is missing".to_owned(),
            AddPackageParseReason::InvalidVersion { version, details } => text::cat4(
                "invalid version `",
                version.as_str(),
                "`: ",
                details.as_str(),
            ),
            AddPackageParseReason::InvalidPackageName { details } => text::cat(
                "invalid package name: ",
                details.as_str(),
            ),
        }
    }
}

/// A package that cannot be asked for as it was written.
#[derive(Debug)]
pub struct AddPackageParseIssue {
    pub package: String,
    pub reason: AddPackageParseReason,
}

impl AddPackageParseIssue {
    /// The issue, as characters.
    pub open spec fn view(&self) -> (Seq<char>, ReasonV) {
        (self.package@, self.reason@)
    }

    /// The issue in words.
    pub fn message(&self) -> (r: String)
        ensures
            r@ == "invalid package constraint `"@ + self@.0 + "`: "@ + reason_text(self@.1),
    {
        let reason = self.reason.message();
        text::cat4(
            "invalid package constraint `",
            self.package.as_str(),
            "`: ",
            reason.as_str(),
        )
    }
}

/// All packages that cannot be asked for as they were written.
#[derive(Debug)]
pub struct AddPackagesParseError {
    pub issues: Vec<AddPackageParseIssue>,
}

/// The issues, as characters.
pub open spec fn issue_views(issues: Seq<AddPackageParseIssue>) -> Seq<(Seq<char>, ReasonV)> {
    issues.map_values(|issue: AddPackageParseIssue| issue@)
}

/// Some character is white space.
pub open spec fn has_space(s: Seq<char>) -> bool {
    exists|i: int| 0 <= i < s.len() && is_white_space(#[trigger] s[i])
}

fn has_white_space(s: &str) -> (r: bool)
    ensures
        r == has_space(s@),
{
    let v = text::chars_of(s);
    let mut i: usize = 0;
    while i < v.len()
        invariant
            i <= v@.len(),
            v@ == s@,
            forall|k: int| 0 <= k < i ==> !is_white_space(#[trigger] s@[k]),
        decreases v@.len() - i,
    {
        if text::white_space(v[i]) {
            assert(is_white_space(s@[i as int]));
            return true;
        }
        i = i + 1;
    }
    false
}

/// The comparison that a constraint begins with, and the rest of it.
pub open spec fn operator_of(constraint: Seq<char>) -> Option<(Comparison, Seq<char>)> {
    if has_prefix(constraint, ">="@) {
        Some((Comparison::GreaterThanEqual, constraint.skip(2)))
    } else if has_prefix(constraint, "<="@) {
        Some((Comparison::LessThanEqual, constraint.skip(2)))
    } else if has_prefix(constraint, "=="@) {
        Some((Comparison::Equal, constraint.skip(2)))
    } else if has_prefix(constraint, "!="@) {
        Some((Comparison::NotEqual, constraint.skip(2)))
    } else if has_prefix(constraint, ">"@) {
        Some((Comparison::GreaterThan, constraint.skip(1)))
    } else if has_prefix(constraint, "<"@) {
        Some((Comparison::LessThan, constraint.skip(1)))
    } else {
        None
    }
}

/// The relation that is asked for, or why it cannot be.
pub open spec fn requested(package: Seq<char>) -> Result<RelationV, ReasonV> {
    if package.len() == 0 {
        Err(ReasonV::Empty)
    } else if has_space(package) {
        Err(ReasonV::Whitespace)
    } else {
        match cut_at(package, '@') {
            None => if valid_package(package) {
                Ok(RelationV { package, requirement: None })
            } else {
                Err(ReasonV::InvalidPackageName(package_failure(package)))
            },
            Some((name, constraint)) => if name.len() == 0 {
                Err(ReasonV::MissingName)
            } else if constraint.len() == 0 {
                Err(ReasonV::MissingConstraint)
            } else {
                match operator_of(constraint) {
                    None => Err(ReasonV::InvalidOperator),
                    Some((comparison, version)) => if version.len() == 0 {
                        Err(ReasonV::MissingVersion)
                    } else if version_components(version) is None {
                        Err(ReasonV::InvalidVersion(version, version_failure(version).0))
                    } else if !valid_package(name) {
                        Err(ReasonV::InvalidPackageName(package_failure(name)))
                    } else {
                        Ok(RelationV { package: name, requirement: Some((comparison, version)) })
                    },
                }
            },
        }
    }
}

/// The relations of the packages that can be asked for.
pub open spec fn requested_relations(packages: Seq<Seq<char>>) -> Seq<RelationV>
    decreases packages.len(),
{
    if packages.len() == 0 {
        Seq::empty()
    } else {
        let rest = requested_relations(packages.drop_last());
        match requested(packages.last()) {
            Ok(relation) => rest.push(relation),
            Err(_) => rest,
        }
    }
}

/// The packages that cannot be asked for, and why.
pub open spec fn requested_issues(packages: Seq<Seq<char>>) -> Seq<(Seq<char>, ReasonV)>
    decreases packages.len(),
{
    if packages.len() == 0 {
        Seq::empty()
    } else {
        let rest = requested_issues(packages.drop_last());
        match requested(packages.last()) {
            Ok(_) => rest,
            Err(reason) => rest.push((packages.last(), reason)),
        }
    }
}

fn split_operator(constraint: &str) -> (r: Option<(Comparison, String)>)
    ensures
        match r {
            Some((comparison, version)) => operator_of(constraint@) == Some(
                (comparison, version@),
            ),
            None => operator_of(constraint@) is None,
        },
{
    proof {
        reveal_strlit(">=");
        reveal_strlit("<=");
        reveal_strlit("==");
        reveal_strlit("!=");
        reveal_strlit(">");
        reveal_strlit("<");
    }
    if text::starts_with(constraint, ">=") {
        Some((Comparison::GreaterThanEqual, text::skip_chars(constraint, 2)))
    } else if text::starts_with(constraint, "<=") {
        Some((Comparison::LessThanEqual, text::skip_chars(constraint, 2)))
    } else if text::starts_with(constraint, "==") {
        Some((Comparison::Equal, text::skip_chars(constraint, 2)))
    } else if text::starts_with(constraint, "!=") {
        Some((Comparison::NotEqual, text::skip_chars(constraint, 2)))
    } else if text::starts_with(constraint, ">") {
        Some((Comparison::GreaterThan, text::skip_chars(constraint, 1)))
    } else if text::starts_with(constraint, "<") {
        Some((Comparison::LessThan, text::skip_chars(constraint, 1)))
    } else {
        None
    }
}

/// The relation that is asked for, or why it cannot be.
pub fn parse_add_package(package: &str) -> (r: Result<Relation, AddPackageParseReason>)
    ensures
        match r {
            Ok(relation) => relation.wf() && requested(package@) == Ok::<RelationV, ReasonV>(
                relation@,
            ),
            Err(reason) => requested(package@) == Err::<RelationV, ReasonV>(reason@),
        },
{
    if package.is_empty() {
        return Err(AddPackageParseReason::Empty);
    }
    if has_white_space(package) {
        return Err(AddPackageParseReason::Whitespace);
    }
    let (name, constraint): (String, String) = match text::split_once(package, '@') {
        Some(parts) => parts,
        None => {
            return match metadata::check_package(package) {
                Ok(_) => Ok(Relation::any(package.to_owned())),
                Err(details) => Err(AddPackageParseReason::InvalidPackageName { details }),
            };
        },
    };
    if name.as_str().is_empty() {
        return Err(AddPackageParseReason::MissingName);
    }
    if constraint.as_str().is_empty() {
        return Err(AddPackageParseReason::MissingConstraint);
    }
    let (comparison, version): (Comparison, String) = match split_operator(constraint.as_str()) {
        Some(parts) => parts,
        None => {
            return Err(AddPackageParseReason::InvalidOperator);
        },
    };
    if version.as_str().is_empty() {
        return Err(AddPackageParseReason::MissingVersion);
    }
    let version = match Version::parse(version.as_str()) {
        Ok(version) => version,
        Err(error) => {
            return Err(
                AddPackageParseReason::InvalidVersion { version, details: error.message },
            );
        },
    };
    match metadata::check_package(name.as_str()) {
        Ok(_) => Ok(
            Relation {
                package: name,
                requirement: VersionRequirement::Compare(
                    comparison,
                    RequirementVersion::Version(version),
                ),
            },
        ),
        Err(details) => Err(AddPackageParseReason::InvalidPackageName { details }),
    }
}

/// The relations that are asked for, or all that cannot be.
pub fn parse_add_packages(packages: &Vec<String>) -> (r: Result<
    SortedSet<Relation>,
    AddPackagesParseError,
>)
    ensures
        match r {
            Ok(relations) => requested_issues(texts(packages@)).len() == 0 && relations.wf()
                && relations@ == collected(requested_relations(texts(packages@))),
            Err(error) => requested_issues(texts(packages@)).len() > 0 && issue_views(
                error.issues@,
            ) == requested_issues(texts(packages@)),
        },
{
    let ghost all = texts(packages@);
    let mut relations: SortedSet<Relation> = SortedSet::new();
    let mut issues: Vec<AddPackageParseIssue> = Vec::new();
    let mut i: usize = 0;
    assert(all.take(0) =~= Seq::<Seq<char>>::empty());
    assert(issue_views(issues@) =~= Seq::<(Seq<char>, ReasonV)>::empty());
    while i < packages.len()
        invariant
            i <= packages@.len(),
            all == texts(packages@),
            relations.wf(),
            relations@ == collected(requested_relations(all.take(i as int))),
            issue_views(issues@) == requested_issues(all.take(i as int)),
        decreases packages@.len() - i,
    {
        let package = packages[i].as_str();
        assert(all.take(i + 1).drop_last() =~= all.take(i as int));
        assert(all[i as int] == package@);
        match parse_add_package(package) {
            Ok(relation) => {
                proof {
                    let rest = requested_relations(all.take(i as int));
                    assert(rest.push(relation@).drop_last() =~= rest);
                }
                relations.replace(relation);
            },
            Err(reason) => {
                let ghost before = issues@;
                let issue = AddPackageParseIssue { package: package.to_owned(), reason };
                issues.push(issue);
                assert(issue_views(issues@) =~= issue_views(before).push(issue@));
            },
        }
        i = i + 1;
    }
    assert(all.take(i as int) =~= all);
    if issues.len() == 0 {
        Ok(relations)
    } else {
        Err(AddPackagesParseError { issues })
    }
}

/// The spellings of relations.
pub open spec fn spellings(relations: Seq<RelationV>) -> Seq<Seq<char>> {
    relations.map_values(|r: RelationV| metadata::relation_text(r))
}

/// What is said when packages were added.
pub fn added_message(relations: &SortedSet<Relation>) -> (r: String)
    requires
        relations.wf(),
    ensures
        r@ == "Added "@ + joined(spellings(relations@), ", "@),
{
    let mut parts: Vec<String> = Vec::new();
    let mut i: usize = 0;
    while i < relations.items.len()
        invariant
            i <= relations.items@.len(),
            relations.wf(),
            parts@.len() == i,
            forall|k: int| 0 <= k < i ==> (#[trigger] parts@[k])@ == spellings(relations@)[k],
        decreases relations.items@.len() - i,
    {
        assert(spellings(relations@)[i as int] == metadata::relation_text(
            relations.items@[i as int]@,
        ));
        parts.push(relations.items[i].to_text());
        i = i + 1;
    }
    assert(texts(parts@) =~= spellings(relations@));
    let list = text::join(&parts, ", ");
    text::cat("Added ", list.as_str())
}

/// A package that is asked for as its name, `@`, a comparison and a version is asked for
/// exactly so.
pub proof fn constraints_are_read_back(name: Seq<char>, comparison: Comparison, version: Seq<char>)
    requires
        valid_package(name),
        !name.contains('@'),
        version_components(version) is Some,
    ensures
        requested(name + "@"@ + metadata::comparison_text(comparison) + version) == Ok::<
            RelationV,
            ReasonV,
        >(RelationV { package: name, requirement: Some((comparison, version)) }),
{
    reveal_strlit("@");
    reveal_strlit(">=");
    reveal_strlit("<=");
    reveal_strlit("==");
    reveal_strlit("!=");
    reveal_strlit(">");
    reveal_strlit("<");
    let sign = metadata::comparison_text(comparison);
    let constraint = sign + version;
    let whole = name + "@"@ + sign + version;
    assert(version.len() > 0) by {
        if version.len() == 0 {
            assert(version =~= Seq::empty());
        }
    }
    assert(version[0] != '=') by {
        assert(version.contains(version[0]));
        metadata::versions_are_plain(version, version[0]);
    }
    assert(whole =~= name + seq!['@'] + constraint);
    assert forall|j: int| 0 <= j < name.len() implies whole[j] != '@' by {
        assert(whole[j] == name[j]);
        assert(name.contains(name[j]));
    }
    text::lemma_first_at(whole, '@', name.len() as int);
    assert(whole.take(name.len() as int) =~= name);
    assert(whole.skip((name.len() + 1) as int) =~= constraint);
    assert(!has_space(whole)) by {
        assert forall|j: int| 0 <= j < whole.len() implies !is_white_space(
            #[trigger] whole[j],
        ) by {
            if j < name.len() {
                assert(whole[j] == name[j]);
            } else if j == name.len() {
                assert(whole[j] == '@');
            } else if j < name.len() + 1 + sign.len() {
                assert(whole[j] == sign[j - name.len() - 1]);
            } else {
                let c = version[j - name.len() - 1 - sign.len()];
                assert(whole[j] == c);
                assert(version.contains(c));
                metadata::versions_are_plain(version, c);
            }
        }
    }
    assert(constraint.skip(sign.len() as int) =~= version);
    assert(constraint.take(sign.len() as int) =~= sign);
    if constraint.len() >= 2 {
        assert(constraint.take(2)[0] == constraint[0] && constraint.take(2)[1] == constraint[1]);
    }
    assert(constraint.take(1)[0] == constraint[0]);
    if sign.len() == 1 {
        assert(constraint[1] == version[0]);
    }
    assert(operator_of(constraint) == Some((comparison, version)));
}

/// A package is asked for by its name alone as any of its versions.
pub proof fn names_ask_for_any_version(name: Seq<char>)
    requires
        valid_package(name),
        !name.contains('@'),
    ensures
        requested(name) == Ok::<RelationV, ReasonV>(
            RelationV { package: name, requirement: None },
        ),
{
    text::texts_are_cut_at_the_first_occurrence(name, '@', Seq::empty());
    assert(!has_space(name));
}

/// What is asked for without a name, without a constraint or with white space is refused for
/// that.
pub proof fn incomplete_requests_are_refused(name: Seq<char>, constraint: Seq<char>, place: int)
    requires
        !name.contains('@'),
    ensures
        requested(Seq::empty()) == Err::<RelationV, ReasonV>(ReasonV::Empty),
        0 <= place < name.len() && is_white_space(name[place]) ==> requested(
            name + seq!['@'] + constraint,
        ) == Err::<RelationV, ReasonV>(ReasonV::Whitespace) && requested(name) == Err::<
            RelationV,
            ReasonV,
        >(ReasonV::Whitespace),
        (forall|i: int| 0 <= i < constraint.len() ==> !is_white_space(#[trigger] constraint[i]))
            ==> requested(seq!['@'] + constraint) == Err::<RelationV, ReasonV>(
            ReasonV::MissingName,
        ),
        name.len() > 0 && (forall|i: int| 0 <= i < name.len() ==> !is_white_space(#[trigger] name[i]))
            ==> requested(name + seq!['@']) == Err::<RelationV, ReasonV>(
            ReasonV::MissingConstraint,
        ),
{
    if 0 <= place < name.len() && is_white_space(name[place]) {
        let whole = name + seq!['@'] + constraint;
        assert(whole[place] == name[place]);
        assert(has_space(whole));
        assert(has_space(name));
    }
    let none = Seq::<char>::empty();
    let only = seq!['@'] + constraint;
    if forall|i: int| 0 <= i < constraint.len() ==> !is_white_space(#[trigger] constraint[i]) {
        text::texts_are_cut_at_the_first_occurrence(none, '@', constraint);
        assert(only =~= none + seq!['@'] + constraint);
        assert forall|i: int| 0 <= i < only.len() implies !is_white_space(#[trigger] only[i]) by {
            if i > 0 {
                assert(only[i] == constraint[i - 1]);
            }
        }
        assert(!has_space(only));
    }
    if name.len() > 0 && forall|i: int|
        0 <= i < name.len() ==> !is_white_space(#[trigger] name[i]) {
        let bare = name + seq!['@'];
        text::texts_are_cut_at_the_first_occurrence(name, '@', none);
        assert(bare =~= name + seq!['@'] + none);
        assert forall|i: int| 0 <= i < bare.len() implies !is_white_space(#[trigger] bare[i]) by {
            if i < name.len() {
                assert(bare[i] == name[i]);
            }
        }
        assert(!has_space(bare));
    }
}

/// Of packages that are asked for together each is either asked for or refused, with its own
/// text and reason.
pub proof fn every_package_is_asked_for_or_refused(packages: Seq<Seq<char>>, i: int)
    requires
        0 <= i < packages.len(),
    ensures
        requested_relations(packages).len() + requested_issues(packages).len() == packages.len(),
        requested(packages[i]) matches Ok(relation) ==> requested_relations(packages).contains(
            relation,
        ),
        requested(packages[i]) matches Err(reason) ==> requested_issues(packages).contains(
            (packages[i], reason),
        ),
    decreases packages.len(),
{
    let t = packages.drop_last();
    let n = packages.len() - 1;
    assert(packages[n] == packages.last());
    let a = requested_relations(packages);
    let b = requested_issues(packages);
    let x = requested_relations(t);
    let y = requested_issues(t);
    if t.len() > 0 {
        let k = if i < n {
            i
        } else {
            0
        };
        every_package_is_asked_for_or_refused(t, k);
        assert(t[k] == packages[k]);
        match requested(packages[k]) {
            Ok(relation) => {
                let j = choose|j: int| 0 <= j < x.len() && x[j] == relation;
                assert(a[j] == relation);
            },
            Err(reason) => {
                let j = choose|j: int| 0 <= j < y.len() && y[j] == (packages[k], reason);
                assert(b[j] == (packages[k], reason));
            },
        }
    }
    if i == n {
        match requested(packages[n]) {
            Ok(relation) => {
                assert(a[x.len() as int] == relation);
            },
            Err(reason) => {
                assert(b[y.len() as int] == (packages[n], reason));
            },
        }
    }
}

} // verus!
