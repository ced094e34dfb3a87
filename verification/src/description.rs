//! What a project's `DESCRIPTION` says, and the changes that are made to it.
use crate::document;
use crate::document::{
    additional_repositories_of, additional_repositories_set, all_relation_texts,
    canonical_form_fits, coded, depends_of, depends_set, diagnostics_of, edit_fits, entry_texts, field_of, field_removed,
    field_set, findings, fits, holds_exactly, imports_of, imports_set, is_relation_text,
    is_sound, issue_texts, linking_to_of, linking_to_set, normalized_of, record_count_of,
    remotes_of, remotes_set, same_remotes, same_value, suggests_of, suggests_set, unchanged, validation_of,
    Coded, Finding, FindingV, ParsedField, ParsedFieldV, RemoteEntry, RemoteEntryV,
};
use crate::metadata::{
    parsed_relation, relation_text, valid_relation, version_components, version_failure, Relation,
    RelationV, Version, VersionRequirement, };
use crate::order::{has_equal, increasing, keys, Order, Total};
use crate::remote::{remote_of, Remote, RemoteSource, RemoteSourceV, RemoteV};
use crate::repository::{built_in_repository_url, built_in_url, parse_repository_url, repository_url_of};
use crate::sorted::{collected, extended, SortedSet};
use crate::text;
use crate::text::{has_prefix, joined, opt_text, texts, trimmed};
use crate::uri::{pop_empty_segment, popped_url};
use vstd::prelude::*;

verus! {

/// The field that names the repository that comes first.
pub const BASE_REPOSITORY_FIELD: &'static str = "Config/rpx/base-repository";

/// The name of the document.
pub const DESCRIPTION_NAME: &'static str = "DESCRIPTION";

/// The field that dependencies are added to.
#[derive(Clone, Copy, PartialEq, Eq, Structural, Debug)]
pub enum DependencyField {
    Depends,
    Imports,
    LinkingTo,
    Suggests,
}

/// One thing that is wrong with a document.
#[derive(Debug)]
pub enum DescriptionParseIssue {
    Positioned { message: String, start: u64, end: u64 },
    Unpositioned { message: String },
    Missing { message: String },
}

/// One thing that is wrong with a document.
pub enum IssueV {
    Positioned(Seq<char>, u64, u64),
    Unpositioned(Seq<char>),
    Missing(Seq<char>),
}

impl DescriptionParseIssue {
    /// The issue, as characters.
    pub open spec fn view(&self) -> IssueV {
        match self {
            DescriptionParseIssue::Positioned { message, start, end } => IssueV::Positioned(
                message@,
                *start,
                *end,
            ),
            DescriptionParseIssue::Unpositioned { message } => IssueV::Unpositioned(message@),
            DescriptionParseIssue::Missing { message } => IssueV::Missing(message@),
        }
    }

    /// The message.
    pub fn message(&self) -> (r: &str)
        ensures
            r@ == issue_message(self@),
    {
        match self {
            DescriptionParseIssue::Positioned { message, start: _, end: _ } => message.as_str(),
            DescriptionParseIssue::Unpositioned { message } => message.as_str(),
            DescriptionParseIssue::Missing { message } => message.as_str(),
        }
    }
}

/// The message of an issue.
pub open spec fn issue_message(issue: IssueV) -> Seq<char> {
    match issue {
        IssueV::Positioned(message, _, _) => message,
        IssueV::Unpositioned(message) => message,
        IssueV::Missing(message) => message,
    }
}

/// The issues of a list.
pub open spec fn issue_views(v: Seq<DescriptionParseIssue>) -> Seq<IssueV> {
    v.map_values(|i: DescriptionParseIssue| i@)
}

/// A document that is not what it should be.
#[derive(Debug)]
pub struct DescriptionParseError {
    pub count: usize,
    pub source_name: String,
    pub source_code: String,
    pub issues: Vec<DescriptionParseIssue>,
}

/// A document that is not what it should be.
pub struct ErrorV {
    pub source_name: Seq<char>,
    pub source_code: Seq<char>,
    pub issues: Seq<IssueV>,
}

impl DescriptionParseError {
    /// The name, the text and the issues of the document.
    pub open spec fn view(&self) -> ErrorV {
        ErrorV {
            source_name: self.source_name@,
            source_code: self.source_code@,
            issues: issue_views(self.issues@),
        }
    }

    /// The count is that of the issues.
    pub open spec fn wf(&self) -> bool {
        self.count == self.issues@.len()
    }

    /// An error with the given issues.
    pub fn new(source_name: String, source_code: String, issues: Vec<DescriptionParseIssue>) -> (r:
        DescriptionParseError)
        ensures
            r.wf(),
            r@ == (ErrorV {
                source_name: source_name@,
                source_code: source_code@,
                issues: issue_views(issues@),
            }),
    {
        DescriptionParseError { count: issues.len(), source_name, source_code, issues }
    }

    /// The messages of the issues.
    pub fn messages(&self) -> (r: Vec<String>)
        ensures
            texts(r@) == self@.issues.map_values(|i: IssueV| issue_message(i)),
    {
        let mut out: Vec<String> = Vec::new();
        let ghost all = self@.issues.map_values(|i: IssueV| issue_message(i));
        let mut i: usize = 0;
        while i < self.issues.len()
            invariant
                i <= self.issues.len(),
                all == self@.issues.map_values(|i: IssueV| issue_message(i)),
                texts(out@) == all.take(i as int),
            decreases self.issues.len() - i,
        {
            let ghost before = out@;
            out.push(self.issues[i].message().to_owned());
            assert(all[i as int] == issue_message(self.issues@[i as int]@));
            assert(texts(out@) =~= texts(before).push(all[i as int]));
            assert(all.take(i + 1) =~= all.take(i as int).push(all[i as int]));
            i = i + 1;
        }
        out
    }
}

/// The messages of issues in one line.
pub open spec fn messages_text(issues: Seq<IssueV>) -> Seq<char> {
    joined(issues.map_values(|i: IssueV| issue_message(i)), "; "@)
}

impl DescriptionParseError {
    /// The messages in one line.
    pub fn to_line(&self) -> (r: String)
        ensures
            r@ == messages_text(self@.issues),
    {
        let messages = self.messages();
        text::join(&messages, "; ")
    }
}

/// A document.
#[derive(Debug)]
pub struct Description {
    pub text: String,
}

impl Description {
    /// The text of the document.
    pub open spec fn view(&self) -> Seq<char> {
        self.text@
    }

    /// The document that a text is.
    pub fn parse(text: &str) -> (r: Description)
        ensures
            r@ == text@,
    {
        Description { text: text.to_owned() }
    }

    /// A copy.
    pub fn copy(&self) -> (r: Description)
        ensures
            r == *self,
    {
        Description { text: self.text.clone() }
    }
}

/// The issues that findings stand for.
pub open spec fn positioned(findings: Seq<FindingV>) -> Seq<IssueV> {
    findings.map_values(|f: FindingV| IssueV::Positioned(f.message, f.start, f.end))
}

fn positioned_issues(found: Vec<Finding>) -> (r: Vec<DescriptionParseIssue>)
    ensures
        issue_views(r@) == positioned(findings(found@)),
{
    let ghost all = positioned(findings(found@));
    let mut out: Vec<DescriptionParseIssue> = Vec::new();
    let mut i: usize = 0;
    while i < found.len()
        invariant
            i <= found.len(),
            all == positioned(findings(found@)),
            issue_views(out@) == all.take(i as int),
        decreases found.len() - i,
    {
        let finding = &found[i];
        let ghost before = out@;
        out.push(
            DescriptionParseIssue::Positioned {
                message: finding.message.clone(),
                start: finding.start,
                end: finding.end,
            },
        );
        assert(all[i as int] == IssueV::Positioned(
            found@[i as int].message@,
            found@[i as int].start,
            found@[i as int].end,
        ));
        assert(issue_views(out@) =~= issue_views(before).push(all[i as int]));
        assert(all.take(i + 1) =~= all.take(i as int).push(all[i as int]));
        i = i + 1;
    }
    assert(all.take(i as int) =~= all);
    out
}

/// Takes a text as a document unless it has syntax errors.
pub fn check_description(source_name: String, contents: String) -> (r: Result<
    Description,
    DescriptionParseError,
>)
    requires
        fits(contents@),
    ensures
        match r {
            Ok(description) => diagnostics_of(contents@).len() == 0 && description@ == contents@,
            Err(error) => {
                &&& diagnostics_of(contents@).len() > 0
                &&& error.wf()
                &&& error@ == (ErrorV {
                    source_name: source_name@,
                    source_code: contents@,
                    issues: positioned(diagnostics_of(contents@)),
                })
            },
        },
{
    let found = document::diagnostics(contents.as_str());
    let issues = positioned_issues(found);
    assert(issue_views(issues@).len() == diagnostics_of(contents@).len());
    if issues.len() > 0 {
        return Err(DescriptionParseError::new(source_name, contents, issues));
    }
    Ok(Description { text: contents })
}

/// The issues that findings with codes stand for: the code stands before the message.
pub open spec fn coded_issue(c: (Seq<char>, FindingV)) -> IssueV {
    IssueV::Positioned(c.0 + ": "@ + c.1.message, c.1.start, c.1.end)
}

fn issue_of_coded(c: &Coded) -> (r: DescriptionParseIssue)
    ensures
        r@ == coded_issue((c.code@, c.finding@)),
{
    DescriptionParseIssue::Positioned {
        message: text::cat3(c.code.as_str(), ": ", c.finding.message.as_str()),
        start: c.finding.start,
        end: c.finding.end,
    }
}

/// Brings a document into canonical form.
pub fn normalize_description(source_name: String, description: &Description) -> (r: Result<
    Description,
    DescriptionParseError,
>)
    requires
        canonical_form_fits(description@),
    ensures
        match r {
            Ok(output) => normalized_of(description@) == Ok::<
                Seq<char>,
                Seq<(Seq<char>, FindingV)>,
            >(output@),
            Err(error) => {
                &&& normalized_of(description@) matches Err(found) && error@ == (ErrorV {
                    source_name: source_name@,
                    source_code: description@,
                    issues: found.map_values(|c: (Seq<char>, FindingV)| coded_issue(c)),
                })
                &&& error.wf()
            },
        },
{
    match document::normalized(description.text.as_str()) {
        Ok(output) => Ok(Description { text: output }),
        Err(found) => {
            let ghost all = coded(found@).map_values(|c: (Seq<char>, FindingV)| coded_issue(c));
            let mut issues: Vec<DescriptionParseIssue> = Vec::new();
            let mut i: usize = 0;
            while i < found.len()
                invariant
                    i <= found.len(),
                    all == coded(found@).map_values(|c: (Seq<char>, FindingV)| coded_issue(c)),
                    issue_views(issues@) == all.take(i as int),
                decreases found.len() - i,
            {
                let ghost before = issues@;
                issues.push(issue_of_coded(&found[i]));
                assert(all[i as int] == coded_issue(coded(found@)[i as int]));
                assert(issue_views(issues@) =~= issue_views(before).push(all[i as int]));
                assert(all.take(i + 1) =~= all.take(i as int).push(all[i as int]));
                i = i + 1;
            }
            assert(all.take(i as int) =~= all);
            Err(DescriptionParseError::new(source_name, description.text.clone(), issues))
        },
    }
}

/// The finding of a validation concerns the identity of the package.
pub open spec fn concerns_identity(document: Seq<char>, code: Seq<char>) -> bool {
    ||| has_prefix(code, "syntax."@)
    ||| code == "record-count"@ && record_count_of(document) > 1
    ||| code == "invalid-package-name"@ && (field_of(document, "Package"@) matches Some(package)
        && package.message.len() > 0)
}

/// The issues among the findings that concern the identity of the package.
pub open spec fn identity_findings(
    document: Seq<char>,
    found: Seq<(Seq<char>, FindingV)>,
) -> Seq<IssueV>
    decreases found.len(),
{
    if found.len() == 0 {
        Seq::empty()
    } else {
        let rest = identity_findings(document, found.drop_last());
        if concerns_identity(document, found.last().0) {
            rest.push(coded_issue(found.last()))
        } else {
            rest
        }
    }
}

/// What is wrong with the `Package` field itself.
pub open spec fn package_issues(document: Seq<char>) -> Seq<IssueV> {
    match field_of(document, "Package"@) {
        None => seq![IssueV::Missing("Package field is missing"@)],
        Some(package) => if package.message.len() == 0 {
            seq![IssueV::Missing("Package field is empty"@)]
        } else {
            Seq::empty()
        },
    }
}

/// What is wrong with the `Version` field: it is missing, or its value is no version; the
/// offsets of the offending part are those within the document.
pub open spec fn version_issues(document: Seq<char>) -> Seq<IssueV> {
    match field_of(document, "Version"@) {
        None => seq![IssueV::Missing("Version field is missing"@)],
        Some(version) => if version_components(version.message) is Some {
            Seq::empty()
        } else {
            let (message, span) = version_failure(version.message);
            match span {
                Some((start, end)) => seq![
                    IssueV::Positioned(
                        message,
                        (version.start + start) as u64,
                        (version.start + end) as u64,
                    ),
                ],
                None => seq![IssueV::Positioned(message, version.start, version.end)],
            }
        },
    }
}

/// All that is wrong with the identity of a package.
pub open spec fn identity_issues(document: Seq<char>) -> Seq<IssueV> {
    identity_findings(document, validation_of(document)) + package_issues(document)
        + version_issues(document)
}

/// The name and the version of the package that a document describes. Nothing that is wrong
/// with them is left out of the error.
pub fn description_identity(source_name: String, description: &Description) -> (r: Result<
    (String, Version),
    DescriptionParseError,
>)
    requires
        fits(description@),
    ensures
        match r {
            Ok((package, version)) => {
                &&& identity_issues(description@).len() == 0
                &&& field_of(description@, "Package"@) matches Some(field) && field.message
                    == package@ && package@.len() > 0
                &&& field_of(description@, "Version"@) matches Some(field) && field.message
                    == version.text@
                &&& version.wf()
            },
            Err(error) => {
                &&& identity_issues(description@).len() > 0
                &&& error.wf()
                &&& error@ == (ErrorV {
                    source_name: source_name@,
                    source_code: description@,
                    issues: identity_issues(description@),
                })
            },
        },
{
    let document = description.text.as_str();
    let package = document::field(document, "Package");
    let version = document::field(document, "Version");
    let multiple = document::record_count(document) > 1;
    let found = document::validation(document);
    let named = match &package {
        Some(package) => !package.message.as_str().is_empty(),
        None => false,
    };
    let mut issues: Vec<DescriptionParseIssue> = Vec::new();
    let ghost all = coded(found@);
    let mut i: usize = 0;
    assert(issue_views(issues@) =~= identity_findings(description@, all.take(0)));
    while i < found.len()
        invariant
            i <= found.len(),
            all == coded(found@),
            multiple == (record_count_of(description@) > 1),
            named == (match field_of(description@, "Package"@) {
                Some(package) => package.message.len() > 0,
                None => false,
            }),
            issue_views(issues@) == identity_findings(description@, all.take(i as int)),
        decreases found.len() - i,
    {
        let item = &found[i];
        assert(all[i as int] == (item.code@, item.finding@));
        assert(all.take(i + 1).drop_last() =~= all.take(i as int));
        let ghost before = issues@;
        let code = item.code.as_str();
        if text::starts_with(code, "syntax.") || (text::same(code, "record-count") && multiple) || (
        text::same(code, "invalid-package-name") && named) {
            issues.push(issue_of_coded(item));
            assert(issue_views(issues@) =~= issue_views(before).push(coded_issue(all[i as int])));
        }
        i = i + 1;
    }
    assert(all.take(i as int) =~= all);
    let ghost first = issue_views(issues@);
    match &package {
        None => {
            issues.push(
                DescriptionParseIssue::Missing { message: "Package field is missing".to_owned() },
            );
        },
        Some(field) => {
            if field.message.as_str().is_empty() {
                issues.push(
                    DescriptionParseIssue::Missing { message: "Package field is empty".to_owned() },
                );
            }
        },
    }
    assert(issue_views(issues@) =~= first + package_issues(description@));
    let ghost second = issue_views(issues@);
    let parsed: Option<Version> = match &version {
        None => {
            issues.push(
                DescriptionParseIssue::Missing { message: "Version field is missing".to_owned() },
            );
            None
        },
        Some(field) => match Version::parse(field.message.as_str()) {
            Ok(version) => Some(version),
            Err(error) => {
                let (start, end): (u64, u64) = match error.span {
                    Some((start, end)) => (
                        field.start + start as u64,
                        field.start + end as u64,
                    ),
                    None => (field.start, field.end),
                };
                issues.push(
                    DescriptionParseIssue::Positioned { message: error.message, start, end },
                );
                None
            },
        },
    };
    assert(issue_views(issues@) =~= second + version_issues(description@));
    assert(issue_views(issues@) =~= identity_issues(description@));
    match (package, parsed) {
        (Some(package), Some(version)) => {
            if issues.len() == 0 {
                return Ok((package.message, version));
            }
        },
        _ => {},
    }
    Err(DescriptionParseError::new(source_name, description.text.clone(), issues))
}

/// The name and the version of the project's package.
pub fn root_package(source_name: String, description: &Description) -> (r: Result<
    (String, Version),
    DescriptionParseError,
>)
    requires
        fits(description@),
    ensures
        r is Ok <==> identity_issues(description@).len() == 0,
        match r {
            Ok((package, version)) => {
                &&& field_of(description@, "Package"@) matches Some(field) && field.message
                    == package@ && package@.len() > 0
                &&& field_of(description@, "Version"@) matches Some(field) && field.message
                    == version.text@
                &&& version.wf()
            },
            Err(error) => {
                &&& error.wf()
                &&& error@ == (ErrorV {
                    source_name: source_name@,
                    source_code: description@,
                    issues: identity_issues(description@),
                })
            },
        },
{
    description_identity(source_name, description)
}

/// The relation that a canonical spelling stands for.
pub open spec fn relation_view(s: Seq<char>) -> RelationV {
    let parts = parsed_relation(s)->Ok_0;
    RelationV { package: parts.0, requirement: parts.1 }
}

/// The relations of a field.
pub open spec fn field_relations(field: ParsedFieldV) -> Seq<RelationV> {
    field.entries.map_values(|f: FindingV| relation_view(f.message))
}

/// The requirement names a revision.
pub open spec fn names_revision(r: RelationV) -> bool {
    r.requirement matches Some((_, operand)) && version_components(operand) is None
}

/// What is wrong with the entries of a field, the name of the field standing before each
/// message.
pub open spec fn entry_issues(label: Seq<char>, field: ParsedFieldV) -> Seq<IssueV> {
    field.issues.map_values(
        |f: FindingV| IssueV::Positioned(label + ": "@ + f.message, f.start, f.end),
    )
}

/// The entries that ask for a revision of a package other than R.
pub open spec fn revision_issues(label: Seq<char>, entries: Seq<FindingV>) -> Seq<IssueV>
    decreases entries.len(),
{
    if entries.len() == 0 {
        Seq::empty()
    } else {
        let rest = revision_issues(label, entries.drop_last());
        let relation = relation_view(entries.last().message);
        if relation.package != "R"@ && names_revision(relation) {
            rest.push(
                IssueV::Positioned(
                    label + ": revision requirements are only valid for R"@,
                    entries.last().start,
                    entries.last().end,
                ),
            )
        } else {
            rest
        }
    }
}

/// The relations of several fields, in order.
pub open spec fn all_relations(fields: Seq<(Seq<char>, ParsedFieldV)>) -> Seq<RelationV>
    decreases fields.len(),
{
    if fields.len() == 0 {
        Seq::empty()
    } else {
        all_relations(fields.drop_last()) + field_relations(fields.last().1)
    }
}

/// What is wrong with the entries of several fields.
pub open spec fn all_entry_issues(fields: Seq<(Seq<char>, ParsedFieldV)>) -> Seq<IssueV>
    decreases fields.len(),
{
    if fields.len() == 0 {
        Seq::empty()
    } else {
        all_entry_issues(fields.drop_last()) + entry_issues(fields.last().0, fields.last().1)
    }
}

/// The entries of several fields that ask for a revision of a package other than R.
pub open spec fn all_revision_issues(fields: Seq<(Seq<char>, ParsedFieldV)>) -> Seq<IssueV>
    decreases fields.len(),
{
    if fields.len() == 0 {
        Seq::empty()
    } else {
        all_revision_issues(fields.drop_last()) + revision_issues(
            fields.last().0,
            fields.last().1.entries,
        )
    }
}

/// All that is wrong with the relations of several fields.
pub open spec fn relation_issues(fields: Seq<(Seq<char>, ParsedFieldV)>) -> Seq<IssueV> {
    all_entry_issues(fields) + all_revision_issues(fields)
}

/// A field with its name.
#[derive(Debug)]
pub struct LabelledField {
    pub label: &'static str,
    pub field: ParsedField,
}

/// Fields with their names.
pub open spec fn labelled(fields: Seq<LabelledField>) -> Seq<(Seq<char>, ParsedFieldV)> {
    fields.map_values(|f: LabelledField| (f.label@, f.field@))
}

/// The entries of all fields are canonical spellings of relations.
pub open spec fn fields_sound(fields: Seq<(Seq<char>, ParsedFieldV)>) -> bool {
    forall|i: int|
        0 <= i < fields.len() ==> all_relation_texts(entry_texts((#[trigger] fields[i]).1))
}

/// Reads the canonical spelling of a relation.
fn read_relation(s: &str) -> (r: Relation)
    requires
        is_relation_text(s@),
    ensures
        r.wf(),
        r@ == relation_view(s@),
        relation_text(r@) == s@,
        valid_relation(r@),
{
    let ghost v = choose|v: RelationV| valid_relation(v) && #[trigger] relation_text(v) == s@;
    match Relation::parse(s) {
        Ok(relation) => relation,
        Err(_) => {
            assert(false);
            Relation { package: String::new(), requirement: VersionRequirement::Any }
        },
    }
}

fn collect_field(
    item: &LabelledField,
    dependencies: &mut SortedSet<Relation>,
    issues: &mut Vec<DescriptionParseIssue>,
    revisions: &mut Vec<DescriptionParseIssue>,
    Ghost(seen): Ghost<Seq<RelationV>>,
)
    requires
        old(dependencies).wf(),
        old(dependencies)@ == collected(seen),
        all_relation_texts(entry_texts(item.field@)),
    ensures
        final(dependencies).wf(),
        final(dependencies)@ == collected(seen + field_relations(item.field@)),
        issue_views(final(issues)@) == issue_views(old(issues)@) + entry_issues(
            item.label@,
            item.field@,
        ),
        issue_views(final(revisions)@) == issue_views(old(revisions)@) + revision_issues(
            item.label@,
            item.field@.entries,
        ),
{
    let field = &item.field;
    let ghost all = entry_issues(item.label@, field@);
    let ghost before_issues = issue_views(issues@);
    let mut i: usize = 0;
    assert(before_issues + all.take(0) =~= before_issues);
    while i < field.issues.len()
        invariant
            i <= field.issues.len(),
            field == item.field,
            all == entry_issues(item.label@, field@),
            issue_views(issues@) == before_issues + all.take(i as int),
        decreases field.issues.len() - i,
    {
        let found = &field.issues[i];
        assert(field@.issues[i as int] == found@);
        let ghost before = issues@;
        issues.push(
            DescriptionParseIssue::Positioned {
                message: text::cat3(item.label, ": ", found.message.as_str()),
                start: found.start,
                end: found.end,
            },
        );
        assert(issue_views(issues@) =~= issue_views(before).push(all[i as int]));
        assert(before_issues + all.take(i + 1) =~= (before_issues + all.take(i as int)).push(
            all[i as int],
        ));
        i = i + 1;
    }
    assert(all.take(i as int) =~= all);
    let ghost relations = field_relations(field@);
    let ghost before_revisions = issue_views(revisions@);
    let ghost entries = field@.entries;
    let mut j: usize = 0;
    assert(seen + relations.take(0) =~= seen);
    assert(entries.take(0) =~= Seq::<FindingV>::empty());
    assert(before_revisions + revision_issues(item.label@, entries.take(0)) =~= before_revisions);
    while j < field.entries.len()
        invariant
            j <= field.entries.len(),
            field == item.field,
            entries == field@.entries,
            relations == field_relations(field@),
            all_relation_texts(entry_texts(item.field@)),
            dependencies.wf(),
            dependencies@ == collected(seen + relations.take(j as int)),
            issue_views(revisions@) == before_revisions + revision_issues(
                item.label@,
                entries.take(j as int),
            ),
        decreases field.entries.len() - j,
    {
        let entry = &field.entries[j];
        assert(entries[j as int] == entry@);
        assert(entry_texts(item.field@)[j as int] == entry.message@);
        let relation = read_relation(entry.message.as_str());
        assert(relations[j as int] == relation@);
        assert(entries.take(j + 1).drop_last() =~= entries.take(j as int));
        assert(entries.take(j + 1).last() == entry@);
        let ghost before = revisions@;
        let revision = relation.requirement.uses_revision();
        proof {
            relation.requirement.lemma_revision();
        }
        if !text::same(relation.package.as_str(), "R") && revision {
            revisions.push(
                DescriptionParseIssue::Positioned {
                    message: text::cat(
                        item.label,
                        ": revision requirements are only valid for R",
                    ),
                    start: entry.start,
                    end: entry.end,
                },
            );
            proof {
                let issue = IssueV::Positioned(
                    item.label@ + ": revision requirements are only valid for R"@,
                    entry.start,
                    entry.end,
                );
                assert(issue_views(revisions@) =~= issue_views(before).push(issue));
                assert(revision_issues(item.label@, entries.take(j + 1)) == revision_issues(
                    item.label@,
                    entries.take(j as int),
                ).push(issue));
            }
            assert(issue_views(revisions@) =~= before_revisions + revision_issues(
                item.label@,
                entries.take(j + 1),
            ));
        }
        proof {
            let next = seen + relations.take(j + 1);
            assert(next.drop_last() =~= seen + relations.take(j as int));
            assert(next.last() == relation@);
        }
        dependencies.replace(relation);
        j = j + 1;
    }
    assert(relations.take(j as int) =~= relations);
    assert(entries.take(j as int) =~= entries);
}

/// The relations of several fields, each once, in order; or all that is wrong with them.
pub fn dependencies_from_fields(
    source_name: String,
    description: &Description,
    fields: &Vec<LabelledField>,
) -> (r: Result<SortedSet<Relation>, DescriptionParseError>)
    requires
        fields_sound(labelled(fields@)),
    ensures
        match r {
            Ok(dependencies) => {
                &&& relation_issues(labelled(fields@)).len() == 0
                &&& dependencies.wf()
                &&& dependencies@ == collected(all_relations(labelled(fields@)))
            },
            Err(error) => {
                &&& relation_issues(labelled(fields@)).len() > 0
                &&& error.wf()
                &&& error@ == (ErrorV {
                    source_name: source_name@,
                    source_code: description@,
                    issues: relation_issues(labelled(fields@)),
                })
            },
        },
{
    let ghost all = labelled(fields@);
    let mut dependencies: SortedSet<Relation> = SortedSet::new();
    let mut issues: Vec<DescriptionParseIssue> = Vec::new();
    let mut revisions: Vec<DescriptionParseIssue> = Vec::new();
    let mut i: usize = 0;
    assert(all.take(0) =~= Seq::<(Seq<char>, ParsedFieldV)>::empty());
    assert(issue_views(issues@) =~= Seq::<IssueV>::empty());
    while i < fields.len()
        invariant
            i <= fields.len(),
            all == labelled(fields@),
            fields_sound(all),
            dependencies.wf(),
            dependencies@ == collected(all_relations(all.take(i as int))),
            issue_views(issues@) == all_entry_issues(all.take(i as int)),
            issue_views(revisions@) == all_revision_issues(all.take(i as int)),
        decreases fields.len() - i,
    {
        let item = &fields[i];
        assert(all[i as int] == (item.label@, item.field@));
        assert(all.take(i + 1).drop_last() =~= all.take(i as int));
        let ghost seen = all_relations(all.take(i as int));
        collect_field(item, &mut dependencies, &mut issues, &mut revisions, Ghost(seen));
        i = i + 1;
    }
    assert(all.take(i as int) =~= all);
    let ghost first = issue_views(issues@);
    let ghost second = issue_views(revisions@);
    let mut rest = revisions;
    let ghost a = issues@;
    let ghost b = rest@;
    issues.append(&mut rest);
    assert(issue_views(issues@) =~= first + second);
    if issues.len() == 0 {
        Ok(dependencies)
    } else {
        Err(DescriptionParseError::new(source_name, description.text.clone(), issues))
    }
}

/// The relations to packages other than the named ones.
pub open spec fn dropped(s: Seq<RelationV>, names: Seq<Seq<char>>) -> Seq<RelationV>
    decreases s.len(),
{
    if s.len() == 0 {
        Seq::empty()
    } else {
        let rest = dropped(s.drop_last(), names);
        if names.contains(s.last().package) {
            rest
        } else {
            rest.push(s.last())
        }
    }
}

/// Dropping packages keeps the relations to all others, in order.
pub proof fn lemma_dropped(s: Seq<RelationV>, names: Seq<Seq<char>>)
    ensures
        forall|y: RelationV|
            #![trigger dropped(s, names).contains(y)]
            dropped(s, names).contains(y) <==> s.contains(y) && !names.contains(y.package),
        increasing(s) ==> increasing(dropped(s, names)),
    decreases s.len(),
{
    if s.len() > 0 {
        let t = s.drop_last();
        let last = s.last();
        lemma_dropped(t, names);
        let rest = dropped(t, names);
        let n = dropped(s, names);
        assert forall|y: RelationV| #![trigger n.contains(y)] n.contains(y) <==> s.contains(y)
            && !names.contains(y.package) by {
            if s.contains(y) {
                let i = choose|i: int| 0 <= i < s.len() && s[i] == y;
                if i < t.len() {
                    assert(t[i] == y);
                    assert(t.contains(y));
                }
            }
            if t.contains(y) {
                let i = choose|i: int| 0 <= i < t.len() && t[i] == y;
                assert(s[i] == y);
            }
            if n.contains(y) {
                let i = choose|i: int| 0 <= i < n.len() && n[i] == y;
                if i < rest.len() {
                    assert(rest[i] == y);
                    assert(rest.contains(y));
                } else {
                    assert(s[s.len() - 1] == y);
                }
            }
            if rest.contains(y) {
                let i = choose|i: int| 0 <= i < rest.len() && rest[i] == y;
                assert(n[i] == y);
            }
            if y == last && !names.contains(y.package) {
                assert(n[n.len() - 1] == y);
            }
        }
        if increasing(s) {
            assert(increasing(t)) by {
                assert forall|i: int, j: int| 0 <= i < j < t.len() implies (#[trigger] t[i]).order(
                    #[trigger] t[j],
                ) == Order::Less by {
                    assert(s[i].order(s[j]) == Order::Less);
                }
            }
            assert forall|i: int, j: int| 0 <= i < j < n.len() implies (#[trigger] n[i]).order(
                #[trigger] n[j],
            ) == Order::Less by {
                if j < rest.len() {
                    assert(rest[i].order(rest[j]) == Order::Less);
                } else {
                    assert(rest.contains(rest[i]));
                    let k = choose|k: int| 0 <= k < t.len() && t[k] == rest[i];
                    assert(s[k].order(s[s.len() - 1]) == Order::Less);
                }
            }
        }
    } else {
        assert forall|y: RelationV|
            #![trigger dropped(s, names).contains(y)]
            dropped(s, names).contains(y) <==> s.contains(y) && !names.contains(y.package) by {}
    }
}

/// Drops the relations to the named packages.
fn drop_packages(set: SortedSet<Relation>, names: &Vec<String>) -> (r: SortedSet<Relation>)
    requires
        set.wf(),
    ensures
        r.wf(),
        r@ == dropped(set@, texts(names@)),
{
    let ghost all = set@;
    let mut items: Vec<Relation> = Vec::new();
    let mut i: usize = 0;
    assert(keys(items@) =~= dropped(all.take(0), texts(names@)));
    while i < set.items.len()
        invariant
            i <= set.items.len(),
            set.wf(),
            all == set@,
            crate::order::all_sound(items@),
            keys(items@) == dropped(all.take(i as int), texts(names@)),
        decreases set.items.len() - i,
    {
        let relation = &set.items[i];
        assert(all[i as int] == relation@);
        assert(all.take(i + 1).drop_last() =~= all.take(i as int));
        let ghost before = items@;
        if !text::holds(names, relation.package.as_str()) {
            items.push(relation.copy());
            assert(keys(items@) =~= keys(before).push(relation@));
        }
        i = i + 1;
    }
    assert(all.take(i as int) =~= all);
    proof {
        lemma_dropped(all, texts(names@));
    }
    SortedSet { items }
}

/// The name of R among packages.
pub open spec fn r_only() -> Seq<Seq<char>> {
    seq!["R"@]
}

fn drop_r(set: SortedSet<Relation>) -> (r: SortedSet<Relation>)
    requires
        set.wf(),
    ensures
        r.wf(),
        r@ == dropped(set@, r_only()),
{
    let mut names: Vec<String> = Vec::new();
    names.push("R".to_owned());
    assert(texts(names@) =~= r_only());
    drop_packages(set, &names)
}

/// The fields that a package needs to be installed.
pub open spec fn hard_fields(document: Seq<char>) -> Seq<(Seq<char>, ParsedFieldV)> {
    seq![
        ("Imports"@, imports_of(document)),
        ("Depends"@, depends_of(document)),
        ("LinkingTo"@, linking_to_of(document)),
    ]
}

/// The fields of the packages that a project works with.
pub open spec fn project_fields(document: Seq<char>) -> Seq<(Seq<char>, ParsedFieldV)> {
    hard_fields(document).push(("Suggests"@, suggests_of(document)))
}

fn read_hard_fields(document: &str) -> (r: Vec<LabelledField>)
    requires
        fits(document@),
    ensures
        labelled(r@) == hard_fields(document@),
        fields_sound(labelled(r@)),
{
    let mut fields: Vec<LabelledField> = Vec::new();
    fields.push(LabelledField { label: "Imports", field: document::imports(document) });
    fields.push(LabelledField { label: "Depends", field: document::depends(document) });
    fields.push(LabelledField { label: "LinkingTo", field: document::linking_to(document) });
    assert(labelled(fields@) =~= hard_fields(document@));
    fields
}

/// The packages that a package needs, R left out; or all that is wrong with them.
pub fn required_dependencies(source_name: String, description: &Description) -> (r: Result<
    SortedSet<Relation>,
    DescriptionParseError,
>)
    requires
        fits(description@),
    ensures
        match r {
            Ok(dependencies) => {
                &&& relation_issues(hard_fields(description@)).len() == 0
                &&& dependencies.wf()
                &&& dependencies@ == dropped(
                    collected(all_relations(hard_fields(description@))),
                    r_only(),
                )
            },
            Err(error) => {
                &&& relation_issues(hard_fields(description@)).len() > 0
                &&& error.wf()
                &&& error@ == (ErrorV {
                    source_name: source_name@,
                    source_code: description@,
                    issues: relation_issues(hard_fields(description@)),
                })
            },
        },
{
    let fields = read_hard_fields(description.text.as_str());
    match dependencies_from_fields(source_name, description, &fields) {
        Ok(dependencies) => Ok(drop_r(dependencies)),
        Err(error) => Err(error),
    }
}

/// The packages that a project works with, R left out; or all that is wrong with them.
pub fn project_dependencies(source_name: String, description: &Description) -> (r: Result<
    SortedSet<Relation>,
    DescriptionParseError,
>)
    requires
        fits(description@),
    ensures
        match r {
            Ok(dependencies) => {
                &&& relation_issues(project_fields(description@)).len() == 0
                &&& dependencies.wf()
                &&& dependencies@ == dropped(
                    collected(all_relations(project_fields(description@))),
                    r_only(),
                )
            },
            Err(error) => {
                &&& relation_issues(project_fields(description@)).len() > 0
                &&& error.wf()
                &&& error@ == (ErrorV {
                    source_name: source_name@,
                    source_code: description@,
                    issues: relation_issues(project_fields(description@)),
                })
            },
        },
{
    let document = description.text.as_str();
    let mut fields = read_hard_fields(document);
    let ghost before = fields@;
    fields.push(LabelledField { label: "Suggests", field: document::suggests(document) });
    assert(labelled(fields@) =~= labelled(before).push(("Suggests"@, suggests_of(document@))));
    match dependencies_from_fields(source_name, description, &fields) {
        Ok(dependencies) => Ok(drop_r(dependencies)),
        Err(error) => Err(error),
    }
}

/// The fields of what a package needs, as they are locked.
pub open spec fn lock_fields(document: Seq<char>) -> Seq<(Seq<char>, ParsedFieldV)> {
    seq![
        ("Depends"@, depends_of(document)),
        ("Imports"@, imports_of(document)),
        ("LinkingTo"@, linking_to_of(document)),
    ]
}

/// What is wrong with a field, in one line, if anything is.
pub open spec fn field_fault(field: ParsedFieldV) -> Option<Seq<char>> {
    if field.issues.len() == 0 {
        None
    } else {
        Some(joined(field.issues.map_values(|f: FindingV| f.message), "; "@))
    }
}

fn find_field_fault(field: &ParsedField) -> (r: Option<String>)
    ensures
        opt_text(r) == field_fault(field@),
{
    if field.issues.len() == 0 {
        return None;
    }
    let ghost all = field@.issues.map_values(|f: FindingV| f.message);
    let mut messages: Vec<String> = Vec::new();
    let mut i: usize = 0;
    assert(texts(messages@) =~= all.take(0));
    while i < field.issues.len()
        invariant
            i <= field.issues.len(),
            all == field@.issues.map_values(|f: FindingV| f.message),
            texts(messages@) == all.take(i as int),
        decreases field.issues.len() - i,
    {
        let ghost before = messages@;
        assert(field@.issues[i as int] == field.issues@[i as int]@);
        messages.push(field.issues[i].message.clone());
        assert(texts(messages@) =~= texts(before).push(all[i as int]));
        assert(all.take(i + 1) =~= all.take(i as int).push(all[i as int]));
        i = i + 1;
    }
    assert(all.take(i as int) =~= all);
    Some(text::join(&messages, "; "))
}

/// What is wrong with the first field of what a package needs with which anything is.
pub open spec fn lock_fault(document: Seq<char>) -> Option<Seq<char>> {
    match field_fault(depends_of(document)) {
        Some(fault) => Some(fault),
        None => match field_fault(imports_of(document)) {
            Some(fault) => Some(fault),
            None => field_fault(linking_to_of(document)),
        },
    }
}

/// What a package needs as it is locked, R among it; or what is wrong with the first field
/// that cannot be read.
pub fn locked_dependencies(description: &Description) -> (r: Result<SortedSet<Relation>, String>)
    requires
        fits(description@),
    ensures
        match r {
            Ok(dependencies) => {
                &&& lock_fault(description@) is None
                &&& dependencies.wf()
                &&& dependencies@ == collected(all_relations(lock_fields(description@)))
            },
            Err(fault) => lock_fault(description@) == Some(fault@),
        },
{
    let document = description.text.as_str();
    let mut fields: Vec<LabelledField> = Vec::new();
    fields.push(LabelledField { label: "Depends", field: document::depends(document) });
    fields.push(LabelledField { label: "Imports", field: document::imports(document) });
    fields.push(LabelledField { label: "LinkingTo", field: document::linking_to(document) });
    let ghost all = lock_fields(document@);
    assert(labelled(fields@) =~= all);
    let mut dependencies: SortedSet<Relation> = SortedSet::new();
    let mut ignored: Vec<DescriptionParseIssue> = Vec::new();
    let mut i: usize = 0;
    assert(all.take(0) =~= Seq::<(Seq<char>, ParsedFieldV)>::empty());
    while i < fields.len()
        invariant
            i <= fields.len() == 3,
            all == lock_fields(document@),
            labelled(fields@) == all,
            fields_sound(all),
            forall|k: int| 0 <= k < i ==> field_fault((#[trigger] all[k]).1) is None,
            dependencies.wf(),
            dependencies@ == collected(all_relations(all.take(i as int))),
            document@ == description@,
        decreases fields.len() - i,
    {
        let item = &fields[i];
        assert(all[i as int] == (item.label@, item.field@));
        match find_field_fault(&item.field) {
            Some(fault) => {
                assert(field_fault(all[i as int].1) == Some(fault@));
                assert(i > 0 ==> field_fault(all[0].1) is None);
                assert(i > 1 ==> field_fault(all[1].1) is None);
                return Err(fault);
            },
            None => {},
        }
        assert(all.take(i + 1).drop_last() =~= all.take(i as int));
        let mut issues: Vec<DescriptionParseIssue> = Vec::new();
        collect_field(
            item,
            &mut dependencies,
            &mut issues,
            &mut ignored,
            Ghost(all_relations(all.take(i as int))),
        );
        i = i + 1;
    }
    assert(all.take(i as int) =~= all);
    assert(field_fault(all[0].1) is None && field_fault(all[1].1) is None && field_fault(
        all[2].1,
    ) is None);
    Ok(dependencies)
}

/// The packages that a package needs are all among the relations of its fields, each named
/// by one of them, and R is not among them.
pub proof fn required_packages_come_from_the_fields(document: Seq<char>, relation: RelationV)
    ensures
        dropped(collected(all_relations(hard_fields(document))), r_only()).contains(relation) ==> {
            &&& all_relations(hard_fields(document)).contains(relation)
            &&& relation.package != "R"@
        },
{
    let all = all_relations(hard_fields(document));
    crate::sorted::lemma_collected(all);
    lemma_dropped(collected(all), r_only());
    assert(r_only()[0] == "R"@);
}

/// Why dependencies could not be changed.
#[derive(Debug)]
pub enum DependencyMutationError {
    /// The fields of the document are not what they should be.
    Description(DescriptionParseError),
    /// The document could not be edited.
    Mutation { message: String },
}

/// The spellings of relations.
pub open spec fn relation_texts(s: Seq<RelationV>) -> Seq<Seq<char>> {
    s.map_values(|r: RelationV| relation_text(r))
}

/// What is said of a document that is too large to be edited.
pub open spec fn too_large() -> Seq<char> {
    "DESCRIPTION is too large to edit"@
}

/// The outcome of an edit, which is not tried where the document would become too large.
pub open spec fn edited(
    document: Seq<char>,
    values: Seq<Seq<char>>,
    outcome: Result<Seq<char>, Seq<char>>,
) -> Result<Seq<char>, Seq<char>> {
    if edit_fits(document, values) {
        outcome
    } else {
        Err(too_large())
    }
}

/// The four fields that hold the packages that a project works with.
pub struct FieldsV {
    pub depends: Seq<RelationV>,
    pub imports: Seq<RelationV>,
    pub linking_to: Seq<RelationV>,
    pub suggests: Seq<RelationV>,
}

/// The document with other fields: they are written one after the other.
pub open spec fn fields_written(document: Seq<char>, fields: FieldsV) -> Result<
    Seq<char>,
    Seq<char>,
> {
    let depends = relation_texts(fields.depends);
    let imports = relation_texts(fields.imports);
    let linking_to = relation_texts(fields.linking_to);
    let suggests = relation_texts(fields.suggests);
    match edited(document, depends, depends_set(document, depends)) {
        Err(message) => Err(message),
        Ok(first) => match edited(first, imports, imports_set(first, imports)) {
            Err(message) => Err(message),
            Ok(second) => match edited(second, linking_to, linking_to_set(second, linking_to)) {
                Err(message) => Err(message),
                Ok(third) => edited(third, suggests, suggests_set(third, suggests)),
            },
        },
    }
}

/// One of the four fields that hold the packages that a project works with.
pub open spec fn is_managed(name: Seq<char>) -> bool {
    name == "Depends"@ || name == "Imports"@ || name == "LinkingTo"@ || name == "Suggests"@
}

/// The four fields hold exactly the given relations, and all other fields are as they were.
pub open spec fn fields_hold(before: Seq<char>, after: Seq<char>, fields: FieldsV) -> bool {
    &&& is_sound(after)
    &&& holds_exactly(depends_of(after), relation_texts(fields.depends))
    &&& holds_exactly(imports_of(after), relation_texts(fields.imports))
    &&& holds_exactly(linking_to_of(after), relation_texts(fields.linking_to))
    &&& holds_exactly(suggests_of(after), relation_texts(fields.suggests))
    &&& same_remotes(before, after)
    &&& unchanged(additional_repositories_of(before), additional_repositories_of(after))
    &&& forall|name: Seq<char>| !is_managed(name) ==> #[trigger] same_value(before, after, name)
}

/// The relations of a set of valid ones are spelled as relations.
pub(crate) fn render(set: &SortedSet<Relation>) -> (r: Vec<String>)
    requires
        set.wf(),
    ensures
        texts(r@) == relation_texts(set@),
        all_relation_texts(texts(r@)),
{
    let ghost all = relation_texts(set@);
    let mut out: Vec<String> = Vec::new();
    let mut i: usize = 0;
    assert(texts(out@) =~= all.take(0));
    while i < set.items.len()
        invariant
            i <= set.items.len(),
            set.wf(),
            all == relation_texts(set@),
            texts(out@) == all.take(i as int),
            forall|j: int| 0 <= j < i ==> is_relation_text(#[trigger] all[j]),
        decreases set.items.len() - i,
    {
        let ghost before = out@;
        let relation = &set.items[i];
        assert(set@[i as int] == relation@);
        assert(all[i as int] == relation_text(relation@));
        assert(valid_relation(relation@));
        out.push(relation.to_text());
        assert(texts(out@) =~= texts(before).push(all[i as int]));
        assert(all.take(i + 1) =~= all.take(i as int).push(all[i as int]));
        i = i + 1;
    }
    assert(all.take(i as int) =~= all);
    out
}

struct Fields {
    depends: SortedSet<Relation>,
    imports: SortedSet<Relation>,
    linking_to: SortedSet<Relation>,
    suggests: SortedSet<Relation>,
}

impl Fields {
    spec fn view(&self) -> FieldsV {
        FieldsV {
            depends: self.depends@,
            imports: self.imports@,
            linking_to: self.linking_to@,
            suggests: self.suggests@,
        }
    }

    spec fn wf(&self) -> bool {
        self.depends.wf() && self.imports.wf() && self.linking_to.wf() && self.suggests.wf()
    }
}

/// Writes the four fields.
fn write_fields(description: &Description, fields: &Fields) -> (r: Result<String, String>)
    requires
        fits(description@),
        fields.wf(),
    ensures
        match r {
            Ok(output) => {
                &&& fields_written(description@, fields@) == Ok::<Seq<char>, Seq<char>>(output@)
                &&& fits(output@)
                &&& is_sound(description@) ==> fields_hold(description@, output@, fields@)
            },
            Err(message) => fields_written(description@, fields@) == Err::<Seq<char>, Seq<char>>(
                message@,
            ),
        },
{
    let depends = render(&fields.depends);
    let imports = render(&fields.imports);
    let linking_to = render(&fields.linking_to);
    let suggests = render(&fields.suggests);
    if !document::has_room(description.text.as_str(), &depends) {
        return Err("DESCRIPTION is too large to edit".to_owned());
    }
    let first = match document::set_depends(description.text.as_str(), &depends) {
        Ok(output) => output,
        Err(message) => {
            return Err(message);
        },
    };
    if !document::has_room(first.as_str(), &imports) {
        return Err("DESCRIPTION is too large to edit".to_owned());
    }
    let second = match document::set_imports(first.as_str(), &imports) {
        Ok(output) => output,
        Err(message) => {
            return Err(message);
        },
    };
    if !document::has_room(second.as_str(), &linking_to) {
        return Err("DESCRIPTION is too large to edit".to_owned());
    }
    let third = match document::set_linking_to(second.as_str(), &linking_to) {
        Ok(output) => output,
        Err(message) => {
            return Err(message);
        },
    };
    if !document::has_room(third.as_str(), &suggests) {
        return Err("DESCRIPTION is too large to edit".to_owned());
    }
    let fourth = match document::set_suggests(third.as_str(), &suggests) {
        Ok(output) => output,
        Err(message) => {
            return Err(message);
        },
    };
    proof {
        if is_sound(description@) {
            lemma_still_holds(depends_of(first@), depends_of(second@), texts(depends@));
            lemma_still_holds(depends_of(second@), depends_of(third@), texts(depends@));
            lemma_still_holds(depends_of(third@), depends_of(fourth@), texts(depends@));
            lemma_still_holds(imports_of(second@), imports_of(third@), texts(imports@));
            lemma_still_holds(imports_of(third@), imports_of(fourth@), texts(imports@));
            lemma_still_holds(linking_to_of(third@), linking_to_of(fourth@), texts(linking_to@));
            assert forall|name: Seq<char>| !is_managed(name) implies #[trigger] same_value(
                description@,
                fourth@,
                name,
            ) by {
                assert(same_value(description@, first@, name));
                assert(same_value(first@, second@, name));
                assert(same_value(second@, third@, name));
                assert(same_value(third@, fourth@, name));
            }
        }
    }
    Ok(fourth)
}

proof fn lemma_still_holds(before: ParsedFieldV, after: ParsedFieldV, values: Seq<Seq<char>>)
    requires
        holds_exactly(before, values),
        unchanged(before, after),
    ensures
        holds_exactly(after, values),
{
    assert(issue_texts(before).len() == before.issues.len());
    assert(issue_texts(after).len() == after.issues.len());
}

/// One field with its name.
pub open spec fn single(label: Seq<char>, field: ParsedFieldV) -> Seq<(Seq<char>, ParsedFieldV)> {
    seq![(label, field)]
}

/// The relations of one field, each once, in order; or all that is wrong with them.
pub open spec fn read_single(label: Seq<char>, field: ParsedFieldV) -> Result<
    Seq<RelationV>,
    Seq<IssueV>,
> {
    let fields = single(label, field);
    if relation_issues(fields).len() == 0 {
        Ok(collected(all_relations(fields)))
    } else {
        Err(relation_issues(fields))
    }
}

/// The four fields of a document, or what is wrong with the first of them that is faulty.
pub open spec fn current_fields(document: Seq<char>) -> Result<FieldsV, Seq<IssueV>> {
    match read_single("Depends"@, depends_of(document)) {
        Err(issues) => Err(issues),
        Ok(depends) => match read_single("Imports"@, imports_of(document)) {
            Err(issues) => Err(issues),
            Ok(imports) => match read_single("LinkingTo"@, linking_to_of(document)) {
                Err(issues) => Err(issues),
                Ok(linking_to) => match read_single("Suggests"@, suggests_of(document)) {
                    Err(issues) => Err(issues),
                    Ok(suggests) => Ok(FieldsV { depends, imports, linking_to, suggests }),
                },
            },
        },
    }
}

fn read_one(
    source_name: &String,
    description: &Description,
    label: &'static str,
    field: ParsedField,
) -> (r: Result<SortedSet<Relation>, DescriptionParseError>)
    requires
        all_relation_texts(entry_texts(field@)),
    ensures
        match r {
            Ok(relations) => relations.wf() && read_single(label@, field@) == Ok::<
                Seq<RelationV>,
                Seq<IssueV>,
            >(relations@),
            Err(error) => {
                &&& error.wf()
                &&& read_single(label@, field@) matches Err(issues) && error@ == (ErrorV {
                    source_name: source_name@,
                    source_code: description@,
                    issues,
                })
            },
        },
{
    let mut fields: Vec<LabelledField> = Vec::new();
    fields.push(LabelledField { label, field });
    assert(labelled(fields@) =~= single(label@, field@));
    dependencies_from_fields(source_name.clone(), description, &fields)
}

/// Reads the four fields.
fn read_fields(source_name: &String, description: &Description) -> (r: Result<
    Fields,
    DescriptionParseError,
>)
    requires
        fits(description@),
    ensures
        match r {
            Ok(fields) => fields.wf() && current_fields(description@) == Ok::<
                FieldsV,
                Seq<IssueV>,
            >(fields@),
            Err(error) => {
                &&& error.wf()
                &&& current_fields(description@) matches Err(issues) && error@ == (ErrorV {
                    source_name: source_name@,
                    source_code: description@,
                    issues,
                })
            },
        },
{
    let document = description.text.as_str();
    let depends = match read_one(
        source_name,
        description,
        "Depends",
        document::depends(document),
    ) {
        Ok(relations) => relations,
        Err(error) => {
            return Err(error);
        },
    };
    let imports = match read_one(
        source_name,
        description,
        "Imports",
        document::imports(document),
    ) {
        Ok(relations) => relations,
        Err(error) => {
            return Err(error);
        },
    };
    let linking_to = match read_one(
        source_name,
        description,
        "LinkingTo",
        document::linking_to(document),
    ) {
        Ok(relations) => relations,
        Err(error) => {
            return Err(error);
        },
    };
    let suggests = match read_one(
        source_name,
        description,
        "Suggests",
        document::suggests(document),
    ) {
        Ok(relations) => relations,
        Err(error) => {
            return Err(error);
        },
    };
    Ok(Fields { depends, imports, linking_to, suggests })
}

/// The four fields without the named packages.
pub open spec fn fields_without(fields: FieldsV, names: Seq<Seq<char>>) -> FieldsV {
    FieldsV {
        depends: dropped(fields.depends, names),
        imports: dropped(fields.imports, names),
        linking_to: dropped(fields.linking_to, names),
        suggests: dropped(fields.suggests, names),
    }
}

/// The packages of relations.
pub open spec fn package_names(s: Seq<RelationV>) -> Seq<Seq<char>> {
    s.map_values(|r: RelationV| r.package)
}

/// The four fields with the packages of `added` in the chosen one and in no other.
pub open spec fn fields_added(
    fields: FieldsV,
    added: Seq<RelationV>,
    field: DependencyField,
) -> FieldsV {
    let rest = fields_without(fields, package_names(added));
    match field {
        DependencyField::Depends => FieldsV { depends: extended(rest.depends, added), ..rest },
        DependencyField::Imports => FieldsV { imports: extended(rest.imports, added), ..rest },
        DependencyField::LinkingTo => FieldsV {
            linking_to: extended(rest.linking_to, added),
            ..rest
        },
        DependencyField::Suggests => FieldsV { suggests: extended(rest.suggests, added), ..rest },
    }
}

fn drop_from_fields(fields: Fields, names: &Vec<String>) -> (r: Fields)
    requires
        fields.wf(),
    ensures
        r.wf(),
        r@ == fields_without(fields@, texts(names@)),
{
    Fields {
        depends: drop_packages(fields.depends, names),
        imports: drop_packages(fields.imports, names),
        linking_to: drop_packages(fields.linking_to, names),
        suggests: drop_packages(fields.suggests, names),
    }
}

fn extend_set(set: SortedSet<Relation>, added: &SortedSet<Relation>) -> (r: SortedSet<Relation>)
    requires
        set.wf(),
        added.wf(),
    ensures
        r.wf(),
        r@ == extended(set@, added@),
{
    let ghost base = set@;
    let ghost all = added@;
    let mut out = set;
    let mut i: usize = 0;
    assert(all.take(0) =~= Seq::<RelationV>::empty());
    while i < added.items.len()
        invariant
            i <= added.items.len(),
            added.wf(),
            all == added@,
            out.wf(),
            out@ == extended(base, all.take(i as int)),
        decreases added.items.len() - i,
    {
        assert(all[i as int] == added.items@[i as int]@);
        assert(all.take(i + 1).drop_last() =~= all.take(i as int));
        let copy = added.items[i].copy();
        out.insert(copy);
        i = i + 1;
    }
    assert(all.take(i as int) =~= all);
    out
}

fn names_of(set: &SortedSet<Relation>) -> (r: Vec<String>)
    ensures
        texts(r@) == package_names(set@),
{
    let ghost all = package_names(set@);
    let mut out: Vec<String> = Vec::new();
    let mut i: usize = 0;
    assert(texts(out@) =~= all.take(0));
    while i < set.items.len()
        invariant
            i <= set.items.len(),
            all == package_names(set@),
            texts(out@) == all.take(i as int),
        decreases set.items.len() - i,
    {
        let ghost before = out@;
        out.push(set.items[i].package.clone());
        assert(set@[i as int] == set.items@[i as int]@);
        assert(texts(out@) =~= texts(before).push(all[i as int]));
        assert(all.take(i + 1) =~= all.take(i as int).push(all[i as int]));
        i = i + 1;
    }
    assert(all.take(i as int) =~= all);
    out
}

/// What a change of the four fields comes to: the fields are written as a whole or not at
/// all.
pub open spec fn change_outcome(
    source_name: Seq<char>,
    before: Seq<char>,
    after: Seq<char>,
    change: Result<FieldsV, Seq<IssueV>>,
    r: Result<(), DependencyMutationError>,
) -> bool {
    match change {
        Err(issues) => {
            &&& after == before
            &&& r matches Err(DependencyMutationError::Description(error)) && error.wf() && error@
                == (ErrorV { source_name, source_code: before, issues })
        },
        Ok(fields) => match fields_written(before, fields) {
            Ok(output) => r is Ok && after == output && (is_sound(before) ==> fields_hold(
                before,
                after,
                fields,
            )),
            Err(message) => {
                &&& after == before
                &&& r matches Err(DependencyMutationError::Mutation { message: text })
                    && text@ == message
            },
        },
    }
}

/// Adds dependencies to one of the four fields; their packages leave the others.
pub fn add_dependencies(
    source_name: String,
    description: &mut Description,
    dependencies: &SortedSet<Relation>,
    field: DependencyField,
) -> (r: Result<(), DependencyMutationError>)
    requires
        fits(old(description)@),
        dependencies.wf(),
    ensures
        fits(final(description)@),
        dependencies@.len() == 0 ==> r is Ok && *final(description) == *old(description),
        dependencies@.len() > 0 ==> change_outcome(
            source_name@,
            old(description)@,
            final(description)@,
            match current_fields(old(description)@) {
                Ok(fields) => Ok(fields_added(fields, dependencies@, field)),
                Err(issues) => Err(issues),
            },
            r,
        ),
{
    if dependencies.items.len() == 0 {
        return Ok(());
    }
    let fields = match read_fields(&source_name, description) {
        Ok(fields) => fields,
        Err(error) => {
            return Err(DependencyMutationError::Description(error));
        },
    };
    let names = names_of(dependencies);
    let rest = drop_from_fields(fields, &names);
    let Fields { depends, imports, linking_to, suggests } = rest;
    let changed = match field {
        DependencyField::Depends => Fields {
            depends: extend_set(depends, dependencies),
            imports,
            linking_to,
            suggests,
        },
        DependencyField::Imports => Fields {
            depends,
            imports: extend_set(imports, dependencies),
            linking_to,
            suggests,
        },
        DependencyField::LinkingTo => Fields {
            depends,
            imports,
            linking_to: extend_set(linking_to, dependencies),
            suggests,
        },
        DependencyField::Suggests => Fields {
            depends,
            imports,
            linking_to,
            suggests: extend_set(suggests, dependencies),
        },
    };
    match write_fields(description, &changed) {
        Ok(output) => {
            description.text = output;
            Ok(())
        },
        Err(message) => Err(DependencyMutationError::Mutation { message }),
    }
}

/// Removes packages from the four fields.
pub fn remove_dependencies(
    source_name: String,
    description: &mut Description,
    packages: &Vec<String>,
) -> (r: Result<(), DependencyMutationError>)
    requires
        fits(old(description)@),
    ensures
        fits(final(description)@),
        packages@.len() == 0 ==> r is Ok && *final(description) == *old(description),
        packages@.len() > 0 ==> change_outcome(
            source_name@,
            old(description)@,
            final(description)@,
            match current_fields(old(description)@) {
                Ok(fields) => Ok(fields_without(fields, texts(packages@))),
                Err(issues) => Err(issues),
            },
            r,
        ),
{
    if packages.len() == 0 {
        return Ok(());
    }
    let fields = match read_fields(&source_name, description) {
        Ok(fields) => fields,
        Err(error) => {
            return Err(DependencyMutationError::Description(error));
        },
    };
    let changed = drop_from_fields(fields, packages);
    match write_fields(description, &changed) {
        Ok(output) => {
            description.text = output;
            Ok(())
        },
        Err(message) => Err(DependencyMutationError::Mutation { message }),
    }
}

/// The relations of all four fields are in order, each once.
pub open spec fn fields_sorted(fields: FieldsV) -> bool {
    increasing(fields.depends) && increasing(fields.imports) && increasing(fields.linking_to)
        && increasing(fields.suggests)
}

/// The relations of one of the four fields.
pub open spec fn chosen(fields: FieldsV, field: DependencyField) -> Seq<RelationV> {
    match field {
        DependencyField::Depends => fields.depends,
        DependencyField::Imports => fields.imports,
        DependencyField::LinkingTo => fields.linking_to,
        DependencyField::Suggests => fields.suggests,
    }
}

/// The four fields that are read from a document are in order.
pub proof fn current_fields_are_sorted(document: Seq<char>)
    ensures
        current_fields(document) matches Ok(fields) ==> fields_sorted(fields),
{
    crate::sorted::lemma_collected(all_relations(single("Depends"@, depends_of(document))));
    crate::sorted::lemma_collected(all_relations(single("Imports"@, imports_of(document))));
    crate::sorted::lemma_collected(all_relations(single("LinkingTo"@, linking_to_of(document))));
    crate::sorted::lemma_collected(all_relations(single("Suggests"@, suggests_of(document))));
}

proof fn lemma_extend_dropped(s: Seq<RelationV>, added: Seq<RelationV>)
    requires
        increasing(s),
        increasing(added),
    ensures
        increasing(extended(dropped(s, package_names(added)), added)),
        forall|y: RelationV|
            #![trigger extended(dropped(s, package_names(added)), added).contains(y)]
            extended(dropped(s, package_names(added)), added).contains(y) <==> added.contains(y)
                || (s.contains(y) && !package_names(added).contains(y.package)),
{
    let names = package_names(added);
    let base = dropped(s, names);
    lemma_dropped(s, names);
    assert forall|i: int| 0 <= i < added.len() implies !has_equal(base, #[trigger] added[i]) by {
        if has_equal(base, added[i]) {
            let k = choose|k: int|
                0 <= k < base.len() && (#[trigger] base[k]).order(added[i]) == Order::Equal;
            crate::metadata::equal_relations_share_their_package(base[k], added[i]);
            assert(base.contains(base[k]));
            assert(names[i] == added[i].package);
        }
    }
    crate::sorted::lemma_extended(base, added);
}

/// What is added to a field is in it exactly as asked for, and its packages are in no other
/// of the four fields; all relations to other packages stay where they were.
pub proof fn added_packages_are_in_one_field(
    fields: FieldsV,
    added: Seq<RelationV>,
    field: DependencyField,
    other: DependencyField,
    relation: RelationV,
)
    requires
        fields_sorted(fields),
        increasing(added),
    ensures
        fields_sorted(fields_added(fields, added, field)),
        package_names(added).contains(relation.package) ==> {
            &&& chosen(fields_added(fields, added, field), field).contains(relation)
                <==> added.contains(relation)
            &&& other != field ==> !chosen(fields_added(fields, added, field), other).contains(
                relation,
            )
        },
        !package_names(added).contains(relation.package) ==> (chosen(
            fields_added(fields, added, field),
            other,
        ).contains(relation) <==> chosen(fields, other).contains(relation)),
{
    let names = package_names(added);
    lemma_dropped(fields.depends, names);
    lemma_dropped(fields.imports, names);
    lemma_dropped(fields.linking_to, names);
    lemma_dropped(fields.suggests, names);
    lemma_extend_dropped(fields.depends, added);
    lemma_extend_dropped(fields.imports, added);
    lemma_extend_dropped(fields.linking_to, added);
    lemma_extend_dropped(fields.suggests, added);
    if added.contains(relation) {
        let i = choose|i: int| 0 <= i < added.len() && added[i] == relation;
        assert(names[i] == relation.package);
    }
}

proof fn lemma_drop_added(s: Seq<RelationV>, added: Seq<RelationV>)
    requires
        increasing(s),
        increasing(added),
    ensures
        dropped(extended(dropped(s, package_names(added)), added), package_names(added))
            == dropped(s, package_names(added)),
        dropped(dropped(s, package_names(added)), package_names(added)) == dropped(
            s,
            package_names(added),
        ),
{
    let names = package_names(added);
    let base = dropped(s, names);
    let more = extended(base, added);
    lemma_dropped(s, names);
    lemma_extend_dropped(s, added);
    lemma_dropped(more, names);
    lemma_dropped(base, names);
    let once = dropped(more, names);
    let twice = dropped(base, names);
    assert forall|y: RelationV| once.contains(y) <==> base.contains(y) by {
        assert(more.contains(y) <==> added.contains(y) || (s.contains(y) && !names.contains(
            y.package,
        )));
        if added.contains(y) {
            let i = choose|i: int| 0 <= i < added.len() && added[i] == y;
            assert(names[i] == y.package);
        }
    }
    crate::sorted::lemma_increasing_unique(once, base);
    assert forall|y: RelationV| twice.contains(y) <==> base.contains(y) by {}
    crate::sorted::lemma_increasing_unique(twice, base);
}

/// Removing the packages that were added leaves the fields as if they had been removed at
/// once: nothing that was added is left, and nothing else is lost.
pub proof fn removal_undoes_addition(
    fields: FieldsV,
    added: Seq<RelationV>,
    field: DependencyField,
)
    requires
        fields_sorted(fields),
        increasing(added),
    ensures
        fields_without(fields_added(fields, added, field), package_names(added)) == fields_without(
            fields,
            package_names(added),
        ),
{
    lemma_drop_added(fields.depends, added);
    lemma_drop_added(fields.imports, added);
    lemma_drop_added(fields.linking_to, added);
    lemma_drop_added(fields.suggests, added);
}

/// Adding the same dependencies to the same field once more changes nothing.
pub proof fn addition_is_idempotent(
    fields: FieldsV,
    added: Seq<RelationV>,
    field: DependencyField,
)
    requires
        fields_sorted(fields),
        increasing(added),
    ensures
        fields_added(fields_added(fields, added, field), added, field) == fields_added(
            fields,
            added,
            field,
        ),
{
    removal_undoes_addition(fields, added, field);
}

/// The remotes of a list.
pub open spec fn remote_views(v: Seq<Remote>) -> Seq<RemoteV> {
    v.map_values(|r: Remote| r@)
}

/// The remote of an entry. One that cannot be read again is not a Git repository.
pub open spec fn entry_remote(entry: RemoteEntryV) -> RemoteV {
    match remote_of(entry.text) {
        Ok(remote) => remote,
        Err(_) => RemoteV {
            text: entry.text,
            package: entry.package,
            host: None,
            source: RemoteSourceV::Other(
                if entry.subversion {
                    "svn"@
                } else {
                    "url"@
                },
            ),
        },
    }
}

/// The remotes of a document.
pub open spec fn listed_remotes(document: Seq<char>) -> Seq<RemoteV> {
    remotes_of(document).entries.map_values(|e: RemoteEntryV| entry_remote(e))
}

/// The remotes that are no Git repositories.
pub open spec fn unsupported_issues(remotes: Seq<RemoteV>) -> Seq<IssueV>
    decreases remotes.len(),
{
    if remotes.len() == 0 {
        Seq::empty()
    } else {
        let rest = unsupported_issues(remotes.drop_last());
        match remotes.last().source {
            RemoteSourceV::Other(kind) => rest.push(
                IssueV::Unpositioned(
                    "unsupported remote `"@ + remotes.last().text + "` of type `"@ + kind + "`"@,
                ),
            ),
            _ => rest,
        }
    }
}

/// Some remote of the list has the alias.
pub open spec fn has_alias(remotes: Seq<RemoteV>, package: Seq<char>) -> bool {
    exists|i: int| 0 <= i < remotes.len() && (#[trigger] remotes[i]).package == Some(package)
}

/// The remotes whose alias an earlier one has.
pub open spec fn duplicate_issues(remotes: Seq<RemoteV>) -> Seq<IssueV>
    decreases remotes.len(),
{
    if remotes.len() == 0 {
        Seq::empty()
    } else {
        let rest = duplicate_issues(remotes.drop_last());
        match remotes.last().package {
            Some(package) => if has_alias(remotes.drop_last(), package) {
                rest.push(IssueV::Unpositioned("duplicate remote package `"@ + package + "`"@))
            } else {
                rest
            },
            None => rest,
        }
    }
}

/// All that is wrong with the remotes of a document: what cannot be read, or else what is
/// not supported and what occurs twice.
pub open spec fn remote_issues(document: Seq<char>) -> Seq<IssueV> {
    if remotes_of(document).issues.len() > 0 {
        positioned(remotes_of(document).issues)
    } else {
        unsupported_issues(listed_remotes(document)) + duplicate_issues(listed_remotes(document))
    }
}

fn alias_taken(list: &Vec<Remote>, package: &str) -> (r: bool)
    ensures
        r == has_alias(remote_views(list@), package@),
{
    let mut i: usize = 0;
    while i < list.len()
        invariant
            i <= list.len(),
            forall|j: int|
                0 <= j < i ==> (#[trigger] remote_views(list@)[j]).package != Some(package@),
        decreases list.len() - i,
    {
        assert(remote_views(list@)[i as int] == list@[i as int]@);
        match &list[i].package {
            Some(alias) => {
                if text::same(alias.as_str(), package) {
                    return true;
                }
            },
            None => {},
        }
        i = i + 1;
    }
    false
}

fn read_entry(entry: &RemoteEntry) -> (r: Remote)
    ensures
        r@ == entry_remote(entry@),
{
    match Remote::parse(entry.text.as_str()) {
        Ok(remote) => remote,
        Err(_) => {
            let kind = if entry.subversion {
                "svn"
            } else {
                "url"
            };
            Remote {
                text: entry.text.clone(),
                package: text::copy_opt(&entry.package),
                host: None,
                source: RemoteSource::Other(kind.to_owned()),
            }
        },
    }
}

/// The remotes of a document, all of them Git repositories and no alias twice; or all that
/// is wrong with them.
pub fn remotes(source_name: String, description: &Description) -> (r: Result<
    Vec<Remote>,
    DescriptionParseError,
>)
    requires
        fits(description@),
    ensures
        match r {
            Ok(list) => {
                &&& remote_issues(description@).len() == 0
                &&& remote_views(list@) == listed_remotes(description@)
            },
            Err(error) => {
                &&& remote_issues(description@).len() > 0
                &&& error.wf()
                &&& error@ == (ErrorV {
                    source_name: source_name@,
                    source_code: description@,
                    issues: remote_issues(description@),
                })
            },
        },
{
    let parsed = document::remotes(description.text.as_str());
    let ghost entries = parsed@.entries;
    let ghost all = listed_remotes(description@);
    if parsed.issues.len() > 0 {
        let issues = positioned_issues(parsed.issues);
        assert(issue_views(issues@).len() == parsed@.issues.len());
        return Err(DescriptionParseError::new(source_name, description.text.clone(), issues));
    }
    let mut list: Vec<Remote> = Vec::new();
    let mut unsupported: Vec<DescriptionParseIssue> = Vec::new();
    let mut duplicates: Vec<DescriptionParseIssue> = Vec::new();
    let mut i: usize = 0;
    assert(all.take(0) =~= Seq::<RemoteV>::empty());
    assert(remote_views(list@) =~= all.take(0));
    assert(issue_views(unsupported@) =~= Seq::<IssueV>::empty());
    while i < parsed.entries.len()
        invariant
            i <= parsed.entries.len(),
            entries == parsed@.entries,
            parsed@ == remotes_of(description@),
            all == listed_remotes(description@),
            remote_views(list@) == all.take(i as int),
            issue_views(unsupported@) == unsupported_issues(all.take(i as int)),
            issue_views(duplicates@) == duplicate_issues(all.take(i as int)),
        decreases parsed.entries.len() - i,
    {
        let entry = &parsed.entries[i];
        assert(entries[i as int] == entry@);
        assert(all.take(i + 1).drop_last() =~= all.take(i as int));
        let remote = read_entry(entry);
        assert(all[i as int] == remote@);
        assert(all.take(i + 1).last() == remote@);
        let ghost before_unsupported = unsupported@;
        let ghost before_duplicates = duplicates@;
        let ghost before_list = list@;
        match &remote.source {
            RemoteSource::Other(kind) => {
                let mut message = text::cat4(
                    "unsupported remote `",
                    remote.text.as_str(),
                    "` of type `",
                    kind.as_str(),
                );
                message.push_str("`");
                unsupported.push(DescriptionParseIssue::Unpositioned { message });
                assert(issue_views(unsupported@) =~= issue_views(
                    before_unsupported,
                ).push(IssueV::Unpositioned(message@)));
            },
            _ => {},
        }
        match &remote.package {
            Some(package) => {
                if alias_taken(&list, package.as_str()) {
                    let message = text::cat3(
                        "duplicate remote package `",
                        package.as_str(),
                        "`",
                    );
                    duplicates.push(DescriptionParseIssue::Unpositioned { message });
                    assert(issue_views(duplicates@) =~= issue_views(
                        before_duplicates,
                    ).push(IssueV::Unpositioned(message@)));
                }
            },
            None => {},
        }
        list.push(remote);
        assert(remote_views(list@) =~= remote_views(before_list).push(remote@));
        assert(all.take(i + 1) =~= all.take(i as int).push(remote@));
        i = i + 1;
    }
    assert(all.take(i as int) =~= all);
    let ghost first = issue_views(unsupported@);
    let ghost second = issue_views(duplicates@);
    unsupported.append(&mut duplicates);
    assert(issue_views(unsupported@) =~= first + second);
    if unsupported.len() == 0 {
        Ok(list)
    } else {
        Err(DescriptionParseError::new(source_name, description.text.clone(), unsupported))
    }
}

/// A repository URL without a slash at the end of its path, where it has one.
pub open spec fn tidy_url(url: Seq<char>) -> Seq<char> {
    match popped_url(url) {
        Some(tidy) => tidy,
        None => url,
    }
}

/// The additional repositories of a document.
pub open spec fn listed_repositories(document: Seq<char>) -> Seq<Seq<char>> {
    additional_repositories_of(document).entries.map_values(|f: FindingV| tidy_url(f.message))
}

/// The additional repositories of a document; or all that is wrong with them.
pub fn additional_repositories(source_name: String, description: &Description) -> (r: Result<
    Vec<String>,
    DescriptionParseError,
>)
    requires
        fits(description@),
    ensures
        match r {
            Ok(list) => {
                &&& additional_repositories_of(description@).issues.len() == 0
                &&& texts(list@) == listed_repositories(description@)
            },
            Err(error) => {
                &&& additional_repositories_of(description@).issues.len() > 0
                &&& error.wf()
                &&& error@ == (ErrorV {
                    source_name: source_name@,
                    source_code: description@,
                    issues: positioned(additional_repositories_of(description@).issues),
                })
            },
        },
{
    let parsed = document::additional_repositories(description.text.as_str());
    if parsed.issues.len() > 0 {
        let issues = positioned_issues(parsed.issues);
        assert(parsed@.issues.len() == parsed.issues@.len());
        return Err(DescriptionParseError::new(source_name, description.text.clone(), issues));
    }
    let ghost all = listed_repositories(description@);
    let mut list: Vec<String> = Vec::new();
    let mut i: usize = 0;
    assert(texts(list@) =~= all.take(0));
    while i < parsed.entries.len()
        invariant
            i <= parsed.entries.len(),
            parsed@ == additional_repositories_of(description@),
            all == listed_repositories(description@),
            texts(list@) == all.take(i as int),
        decreases parsed.entries.len() - i,
    {
        let ghost before = list@;
        let url = &parsed.entries[i].message;
        assert(parsed@.entries[i as int] == parsed.entries@[i as int]@);
        let tidy = match pop_empty_segment(url.as_str()) {
            Some(tidy) => tidy,
            None => url.clone(),
        };
        assert(all[i as int] == tidy@);
        list.push(tidy);
        assert(texts(list@) =~= texts(before).push(tidy@));
        assert(all.take(i + 1) =~= all.take(i as int).push(tidy@));
        i = i + 1;
    }
    assert(all.take(i as int) =~= all);
    Ok(list)
}

/// What is said of a text that is no repository URL.
pub open spec fn invalid_url_message(value: Seq<char>) -> Seq<char> {
    "invalid repository URL "@ + trimmed(value)
}

/// The base repository of a document, where it names one; or why the name is no URL.
pub open spec fn listed_base(document: Seq<char>) -> Result<Option<Seq<char>>, Seq<IssueV>> {
    match field_of(document, BASE_REPOSITORY_FIELD@) {
        None => Ok(None),
        Some(field) => match repository_url_of(field.message) {
            Some(url) => Ok(Some(url)),
            None => Err(
                seq![
                    IssueV::Positioned(
                        invalid_url_message(field.message),
                        field.start,
                        field.end,
                    ),
                ],
            ),
        },
    }
}

/// The base repository of a document, where it names one.
pub fn base_repository(source_name: String, description: &Description) -> (r: Result<
    Option<String>,
    DescriptionParseError,
>)
    requires
        fits(description@),
    ensures
        match r {
            Ok(url) => listed_base(description@) == Ok::<Option<Seq<char>>, Seq<IssueV>>(
                opt_text(url),
            ),
            Err(error) => {
                &&& error.wf()
                &&& listed_base(description@) matches Err(issues) && error@ == (ErrorV {
                    source_name: source_name@,
                    source_code: description@,
                    issues,
                })
            },
        },
{
    match document::field(description.text.as_str(), BASE_REPOSITORY_FIELD) {
        None => Ok(None),
        Some(field) => match parse_repository_url(field.message.as_str()) {
            Ok(url) => Ok(Some(url)),
            Err(value) => {
                let message = text::cat("invalid repository URL ", value.as_str());
                let mut issues: Vec<DescriptionParseIssue> = Vec::new();
                issues.push(
                    DescriptionParseIssue::Positioned {
                        message,
                        start: field.start,
                        end: field.end,
                    },
                );
                assert(issue_views(issues@) =~= seq![
                    IssueV::Positioned(
                        invalid_url_message(field.message@),
                        field.start,
                        field.end,
                    ),
                ]);
                Err(DescriptionParseError::new(source_name, description.text.clone(), issues))
            },
        },
    }
}

/// Names the base repository; the document stays as it is where it cannot be edited.
pub fn set_base_repository(description: &mut Description, repository: &str) -> (r: Result<
    (),
    String,
>)
    requires
        !repository@.contains('\n'),
    ensures
        match edited(
            old(description)@,
            seq![BASE_REPOSITORY_FIELD@, repository@],
            field_set(old(description)@, BASE_REPOSITORY_FIELD@, repository@),
        ) {
            Ok(output) => {
                &&& r is Ok
                &&& final(description)@ == output
                &&& is_sound(old(description)@) ==> (field_of(
                    output,
                    BASE_REPOSITORY_FIELD@,
                ) matches Some(field) && field.message == repository@)
            },
            Err(message) => {
                &&& r matches Err(text) && text@ == message
                &&& *final(description) == *old(description)
            },
        },
{
    let mut values: Vec<String> = Vec::new();
    values.push(BASE_REPOSITORY_FIELD.to_owned());
    values.push(repository.to_owned());
    assert(texts(values@) =~= seq![BASE_REPOSITORY_FIELD@, repository@]);
    if !document::has_room(description.text.as_str(), &values) {
        return Err("DESCRIPTION is too large to edit".to_owned());
    }
    match document::set_field(description.text.as_str(), BASE_REPOSITORY_FIELD, repository) {
        Ok(output) => {
            description.text = output;
            Ok(())
        },
        Err(message) => Err(message),
    }
}

/// Takes the name of the base repository out.
pub fn reset_base_repository(description: &mut Description)
    requires
        fits(old(description)@),
    ensures
        fits(final(description)@),
        field_of(old(description)@, BASE_REPOSITORY_FIELD@) is None ==> *final(description)
            == *old(description),
        field_of(old(description)@, BASE_REPOSITORY_FIELD@) is Some ==> field_removed(
            old(description)@,
            BASE_REPOSITORY_FIELD@,
        ) == Ok::<Seq<char>, Seq<char>>(final(description)@),
        is_sound(old(description)@) ==> field_of(final(description)@, BASE_REPOSITORY_FIELD@) is None,
{
    proof {
        reveal_strlit("Config/rpx/base-repository");
        reveal_strlit("Package");
        assert(BASE_REPOSITORY_FIELD@.len() != "Package"@.len());
    }
    if document::field(description.text.as_str(), BASE_REPOSITORY_FIELD).is_some() {
        match document::remove_all(description.text.as_str(), BASE_REPOSITORY_FIELD) {
            Ok(output) => {
                description.text = output;
            },
            Err(_) => {},
        }
    }
}

/// Why the repositories of a document could not be changed.
#[derive(Debug)]
pub enum RepositoryMutationError {
    /// The fields of the document are not what they should be.
    Description(DescriptionParseError),
    /// The document could not be edited.
    Mutation { message: String },
}

/// The texts other than the given one.
pub open spec fn others(s: Seq<Seq<char>>, x: Seq<char>) -> Seq<Seq<char>>
    decreases s.len(),
{
    if s.len() == 0 {
        Seq::empty()
    } else if s.last() == x {
        others(s.drop_last(), x)
    } else {
        others(s.drop_last(), x).push(s.last())
    }
}

fn without(list: &Vec<String>, x: &str) -> (r: Vec<String>)
    ensures
        texts(r@) == others(texts(list@), x@),
{
    let ghost all = texts(list@);
    let mut out: Vec<String> = Vec::new();
    let mut i: usize = 0;
    assert(texts(out@) =~= others(all.take(0), x@));
    while i < list.len()
        invariant
            i <= list.len(),
            all == texts(list@),
            texts(out@) == others(all.take(i as int), x@),
        decreases list.len() - i,
    {
        let ghost before = out@;
        assert(all[i as int] == list@[i as int]@);
        assert(all.take(i + 1).drop_last() =~= all.take(i as int));
        if !text::same(list[i].as_str(), x) {
            out.push(list[i].clone());
            assert(texts(out@) =~= texts(before).push(all[i as int]));
        }
        i = i + 1;
    }
    assert(all.take(i as int) =~= all);
    out
}

/// Leaving out a text that does not occur changes nothing, and one that does makes the list
/// shorter.
pub proof fn lemma_others(s: Seq<Seq<char>>, x: Seq<char>)
    ensures
        !s.contains(x) ==> others(s, x) == s,
        s.contains(x) ==> others(s, x).len() < s.len(),
        others(s, x).len() <= s.len(),
    decreases s.len(),
{
    if s.len() > 0 {
        let t = s.drop_last();
        lemma_others(t, x);
        if s.contains(x) {
            let i = choose|i: int| 0 <= i < s.len() && s[i] == x;
            if i < t.len() {
                assert(t[i] == x);
            }
        } else {
            assert(!t.contains(x)) by {
                if t.contains(x) {
                    let i = choose|i: int| 0 <= i < t.len() && t[i] == x;
                    assert(s[i] == x);
                }
            }
            assert(s[s.len() - 1] != x);
            assert(t.push(s.last()) =~= s);
        }
    }
}

/// What a change of the additional repositories comes to. `None` asks for no change.
pub open spec fn repositories_outcome(
    source_name: Seq<char>,
    before: Seq<char>,
    after: Seq<char>,
    change: Option<Seq<Seq<char>>>,
    r: Result<bool, RepositoryMutationError>,
) -> bool {
    if additional_repositories_of(before).issues.len() > 0 {
        &&& after == before
        &&& r matches Err(RepositoryMutationError::Description(error)) && error.wf() && error@ == (
        ErrorV {
            source_name,
            source_code: before,
            issues: positioned(additional_repositories_of(before).issues),
        })
    } else {
        match change {
            None => after == before && r == Ok::<bool, RepositoryMutationError>(false),
            Some(values) => match edited(
                before,
                values,
                additional_repositories_set(before, values),
            ) {
                Ok(output) => after == output && r == Ok::<bool, RepositoryMutationError>(true),
                Err(message) => {
                    &&& after == before
                    &&& r matches Err(RepositoryMutationError::Mutation { message: text }) && text@
                        == message
                },
            },
        }
    }
}

fn write_repositories(description: &mut Description, values: &Vec<String>) -> (r: Result<
    bool,
    RepositoryMutationError,
>)
    requires
        fits(old(description)@),
    ensures
        match edited(
            old(description)@,
            texts(values@),
            additional_repositories_set(old(description)@, texts(values@)),
        ) {
            Ok(output) => final(description)@ == output && r == Ok::<bool, RepositoryMutationError>(true),
            Err(message) => {
                &&& final(description)@ == old(description)@
                &&& r matches Err(RepositoryMutationError::Mutation { message: text }) && text@
                    == message
            },
        },
{
    if !document::has_room(description.text.as_str(), values) {
        return Err(
            RepositoryMutationError::Mutation {
                message: "DESCRIPTION is too large to edit".to_owned(),
            },
        );
    }
    match document::set_additional_repositories(description.text.as_str(), values) {
        Ok(output) => {
            description.text = output;
            Ok(true)
        },
        Err(message) => Err(RepositoryMutationError::Mutation { message }),
    }
}

/// Adds an additional repository after the others unless it is one of them; tells whether it
/// was added.
pub fn add_additional_repository(
    source_name: String,
    description: &mut Description,
    repository: String,
) -> (r: Result<bool, RepositoryMutationError>)
    requires
        fits(old(description)@),
    ensures
        repositories_outcome(
            source_name@,
            old(description)@,
            final(description)@,
            if listed_repositories(old(description)@).contains(repository@) {
                None
            } else {
                Some(listed_repositories(old(description)@).push(repository@))
            },
            r,
        ),
{
    let mut list = match additional_repositories(source_name, description) {
        Ok(list) => list,
        Err(error) => {
            return Err(RepositoryMutationError::Description(error));
        },
    };
    if text::holds(&list, repository.as_str()) {
        return Ok(false);
    }
    let ghost before = list@;
    list.push(repository);
    assert(texts(list@) =~= texts(before).push(repository@));
    write_repositories(description, &list)
}

/// Removes an additional repository; tells whether it was one.
pub fn remove_additional_repository(
    source_name: String,
    description: &mut Description,
    repository: &str,
) -> (r: Result<bool, RepositoryMutationError>)
    requires
        fits(old(description)@),
    ensures
        repositories_outcome(
            source_name@,
            old(description)@,
            final(description)@,
            if listed_repositories(old(description)@).contains(repository@) {
                Some(others(listed_repositories(old(description)@), repository@))
            } else {
                None
            },
            r,
        ),
{
    let list = match additional_repositories(source_name, description) {
        Ok(list) => list,
        Err(error) => {
            return Err(RepositoryMutationError::Description(error));
        },
    };
    let rest = without(&list, repository);
    proof {
        lemma_others(texts(list@), repository@);
        assert(texts(rest@).len() == rest@.len());
        assert(texts(list@).len() == list@.len());
    }
    if rest.len() == list.len() {
        return Ok(false);
    }
    write_repositories(description, &rest)
}

/// The spellings of remotes.
pub open spec fn remote_texts(s: Seq<RemoteV>) -> Seq<Seq<char>> {
    s.map_values(|r: RemoteV| r.text)
}

/// What a change of the remotes comes to. `None` asks for no change. A change after which
/// the remotes would not be what they should be is refused.
pub open spec fn remotes_outcome(
    source_name: Seq<char>,
    before: Seq<char>,
    after: Seq<char>,
    change: Option<Seq<Seq<char>>>,
    r: Result<bool, RepositoryMutationError>,
) -> bool {
    if remote_issues(before).len() > 0 {
        &&& after == before
        &&& r matches Err(RepositoryMutationError::Description(error)) && error.wf() && error@ == (
        ErrorV { source_name, source_code: before, issues: remote_issues(before) })
    } else {
        match change {
            None => after == before && r == Ok::<bool, RepositoryMutationError>(false),
            Some(values) => match edited(before, values, remotes_set(before, values)) {
                Ok(output) => if remote_issues(output).len() > 0 {
                    &&& after == before
                    &&& r matches Err(RepositoryMutationError::Description(error)) && error.wf()
                        && error@ == (ErrorV {
                        source_name,
                        source_code: output,
                        issues: remote_issues(output),
                    })
                } else {
                    after == output && r == Ok::<bool, RepositoryMutationError>(true)
                },
                Err(message) => {
                    &&& after == before
                    &&& r matches Err(RepositoryMutationError::Mutation { message: text }) && text@
                        == message
                },
            },
        }
    }
}

fn texts_of_remotes(list: &Vec<Remote>) -> (r: Vec<String>)
    ensures
        texts(r@) == remote_texts(remote_views(list@)),
{
    let ghost all = remote_texts(remote_views(list@));
    let mut out: Vec<String> = Vec::new();
    let mut i: usize = 0;
    assert(texts(out@) =~= all.take(0));
    while i < list.len()
        invariant
            i <= list.len(),
            all == remote_texts(remote_views(list@)),
            texts(out@) == all.take(i as int),
        decreases list.len() - i,
    {
        let ghost before = out@;
        out.push(list[i].text.clone());
        assert(remote_views(list@)[i as int] == list@[i as int]@);
        assert(texts(out@) =~= texts(before).push(all[i as int]));
        assert(all.take(i + 1) =~= all.take(i as int).push(all[i as int]));
        i = i + 1;
    }
    assert(all.take(i as int) =~= all);
    out
}

fn write_remotes(source_name: String, description: &mut Description, values: &Vec<String>) -> (r:
    Result<bool, RepositoryMutationError>)
    requires
        fits(old(description)@),
        remote_issues(old(description)@).len() == 0,
    ensures
        fits(final(description)@),
        remotes_outcome(
            source_name@,
            old(description)@,
            final(description)@,
            Some(texts(values@)),
            r,
        ),
{
    if !document::has_room(description.text.as_str(), values) {
        return Err(
            RepositoryMutationError::Mutation {
                message: "DESCRIPTION is too large to edit".to_owned(),
            },
        );
    }
    match document::set_remotes(description.text.as_str(), values) {
        Ok(output) => {
            let updated = Description { text: output };
            match remotes(source_name, &updated) {
                Ok(_) => {
                    description.text = updated.text;
                    Ok(true)
                },
                Err(error) => Err(RepositoryMutationError::Description(error)),
            }
        },
        Err(message) => Err(RepositoryMutationError::Mutation { message }),
    }
}

/// Adds a remote after the others unless it is one of them; tells whether it was added.
pub fn add_remote_repository(
    source_name: String,
    description: &mut Description,
    remote: &Remote,
) -> (r: Result<bool, RepositoryMutationError>)
    requires
        fits(old(description)@),
    ensures
        fits(final(description)@),
        remotes_outcome(
            source_name@,
            old(description)@,
            final(description)@,
            if remote_texts(listed_remotes(old(description)@)).contains(remote@.text) {
                None
            } else {
                Some(remote_texts(listed_remotes(old(description)@)).push(remote@.text))
            },
            r,
        ),
{
    let list = match remotes(source_name.clone(), description) {
        Ok(list) => list,
        Err(error) => {
            return Err(RepositoryMutationError::Description(error));
        },
    };
    let mut values = texts_of_remotes(&list);
    if text::holds(&values, remote.text.as_str()) {
        return Ok(false);
    }
    let ghost before = values@;
    values.push(remote.text.clone());
    assert(texts(values@) =~= texts(before).push(remote@.text));
    write_remotes(source_name, description, &values)
}

/// Removes a remote; tells whether it was one.
pub fn remove_remote_repository(
    source_name: String,
    description: &mut Description,
    remote: &Remote,
) -> (r: Result<bool, RepositoryMutationError>)
    requires
        fits(old(description)@),
    ensures
        fits(final(description)@),
        remotes_outcome(
            source_name@,
            old(description)@,
            final(description)@,
            if remote_texts(listed_remotes(old(description)@)).contains(remote@.text) {
                Some(others(remote_texts(listed_remotes(old(description)@)), remote@.text))
            } else {
                None
            },
            r,
        ),
{
    let list = match remotes(source_name.clone(), description) {
        Ok(list) => list,
        Err(error) => {
            return Err(RepositoryMutationError::Description(error));
        },
    };
    let values = texts_of_remotes(&list);
    let rest = without(&values, remote.text.as_str());
    proof {
        lemma_others(texts(values@), remote@.text);
        assert(texts(rest@).len() == rest@.len());
        assert(texts(values@).len() == values@.len());
    }
    if rest.len() == values.len() {
        return Ok(false);
    }
    write_remotes(source_name, description, &rest)
}

/// A repository that a project takes packages from.
#[derive(Debug)]
pub enum ConfiguredRepository {
    Base(String),
    Git(Remote),
    Additional(String),
}

/// A repository that a project takes packages from.
pub enum ConfiguredV {
    Base(Seq<char>),
    Git(RemoteV),
    Additional(Seq<char>),
}

impl ConfiguredRepository {
    /// The repository, as characters.
    pub open spec fn view(&self) -> ConfiguredV {
        match self {
            ConfiguredRepository::Base(url) => ConfiguredV::Base(url@),
            ConfiguredRepository::Git(remote) => ConfiguredV::Git(remote@),
            ConfiguredRepository::Additional(url) => ConfiguredV::Additional(url@),
        }
    }
}

/// The repositories of a list.
pub open spec fn configured_views(v: Seq<ConfiguredRepository>) -> Seq<ConfiguredV> {
    v.map_values(|c: ConfiguredRepository| c@)
}

/// All that is wrong with the repositories of a document.
pub open spec fn configuration_issues(document: Seq<char>) -> Seq<IssueV> {
    (match listed_base(document) {
        Ok(_) => Seq::empty(),
        Err(issues) => issues,
    }) + remote_issues(document) + positioned(additional_repositories_of(document).issues)
}

/// The repositories of a document in the order in which they are asked: the base
/// repository, which is the built-in one unless the document names another, the remotes and
/// the additional repositories.
pub open spec fn configuration(document: Seq<char>) -> Seq<ConfiguredV> {
    let base = match listed_base(document) {
        Ok(Some(url)) => url,
        _ => built_in_url(),
    };
    seq![ConfiguredV::Base(base)] + listed_remotes(document).map_values(
        |r: RemoteV| ConfiguredV::Git(r),
    ) + listed_repositories(document).map_values(|u: Seq<char>| ConfiguredV::Additional(u))
}

/// The repositories of a document in the order in which they are asked; or all that is wrong
/// with them.
pub fn configured_repositories(source_name: String, description: &Description) -> (r: Result<
    Vec<ConfiguredRepository>,
    DescriptionParseError,
>)
    requires
        fits(description@),
    ensures
        match r {
            Ok(list) => {
                &&& configuration_issues(description@).len() == 0
                &&& configured_views(list@) == configuration(description@)
            },
            Err(error) => {
                &&& configuration_issues(description@).len() > 0
                &&& error.wf()
                &&& error@ == (ErrorV {
                    source_name: source_name@,
                    source_code: description@,
                    issues: configuration_issues(description@),
                })
            },
        },
{
    let mut issues: Vec<DescriptionParseIssue> = Vec::new();
    let base = match base_repository(source_name.clone(), description) {
        Ok(base) => base,
        Err(error) => {
            let mut found = error.issues;
            issues.append(&mut found);
            assert(issue_views(issues@) =~= error@.issues);
            None
        },
    };
    let ghost first = issue_views(issues@);
    let remote_list = match remotes(source_name.clone(), description) {
        Ok(list) => list,
        Err(error) => {
            let mut found = error.issues;
            issues.append(&mut found);
            assert(issue_views(issues@) =~= first + error@.issues);
            Vec::new()
        },
    };
    let ghost second = issue_views(issues@);
    assert(second =~= first + remote_issues(description@));
    let additional = match additional_repositories(source_name.clone(), description) {
        Ok(list) => list,
        Err(error) => {
            let mut found = error.issues;
            issues.append(&mut found);
            assert(issue_views(issues@) =~= second + error@.issues);
            Vec::new()
        },
    };
    proof {
        let faults = positioned(additional_repositories_of(description@).issues);
        assert(issue_views(issues@) =~= second + faults);
        assert(issue_views(issues@) =~= configuration_issues(description@));
        assert(remote_issues(description@).len() <= issues@.len());
        assert(faults.len() <= issues@.len());
    }
    if issues.len() > 0 {
        return Err(DescriptionParseError::new(source_name, description.text.clone(), issues));
    }
    let base = match base {
        Some(url) => url,
        None => built_in_repository_url(),
    };
    let mut list: Vec<ConfiguredRepository> = Vec::new();
    list.push(ConfiguredRepository::Base(base));
    let ghost gits = listed_remotes(description@).map_values(|r: RemoteV| ConfiguredV::Git(r));
    let ghost start = configured_views(list@);
    assert(start =~= seq![ConfiguredV::Base(base@)]);
    let mut i: usize = 0;
    assert(start + gits.take(0) =~= start);
    while i < remote_list.len()
        invariant
            i <= remote_list.len(),
            gits == remote_views(remote_list@).map_values(|r: RemoteV| ConfiguredV::Git(r)),
            configured_views(list@) == start + gits.take(i as int),
        decreases remote_list.len() - i,
    {
        let ghost before = list@;
        let remote = remote_list[i].copy();
        assert(remote_views(remote_list@)[i as int] == remote@);
        list.push(ConfiguredRepository::Git(remote));
        assert(configured_views(list@) =~= configured_views(before).push(gits[i as int]));
        assert(start + gits.take(i + 1) =~= (start + gits.take(i as int)).push(gits[i as int]));
        i = i + 1;
    }
    assert(gits.take(i as int) =~= gits);
    let ghost more = listed_repositories(description@).map_values(
        |u: Seq<char>| ConfiguredV::Additional(u),
    );
    let ghost middle = configured_views(list@);
    let mut j: usize = 0;
    assert(middle + more.take(0) =~= middle);
    while j < additional.len()
        invariant
            j <= additional.len(),
            more == texts(additional@).map_values(|u: Seq<char>| ConfiguredV::Additional(u)),
            configured_views(list@) == middle + more.take(j as int),
        decreases additional.len() - j,
    {
        let ghost before = list@;
        assert(texts(additional@)[j as int] == additional@[j as int]@);
        list.push(ConfiguredRepository::Additional(additional[j].clone()));
        assert(configured_views(list@) =~= configured_views(before).push(more[j as int]));
        assert(middle + more.take(j + 1) =~= (middle + more.take(j as int)).push(more[j as int]));
        j = j + 1;
    }
    assert(more.take(j as int) =~= more);
    Ok(list)
}

/// The base repository always comes first, and there is exactly one.
pub proof fn base_comes_first(document: Seq<char>, i: int)
    requires
        0 <= i < configuration(document).len(),
    ensures
        configuration(document)[i] is Base <==> i == 0,
{
}

/// Packages that are removed are in none of the four fields, and all relations to other
/// packages stay where they were.
pub proof fn removed_packages_are_in_no_field(
    fields: FieldsV,
    names: Seq<Seq<char>>,
    field: DependencyField,
    relation: RelationV,
)
    ensures
        chosen(fields_without(fields, names), field).contains(relation) <==> chosen(
            fields,
            field,
        ).contains(relation) && !names.contains(relation.package),
{
    lemma_dropped(fields.depends, names);
    lemma_dropped(fields.imports, names);
    lemma_dropped(fields.linking_to, names);
    lemma_dropped(fields.suggests, names);
}

/// What a document has in one of the four fields.
pub open spec fn field_named(document: Seq<char>, field: DependencyField) -> ParsedFieldV {
    match field {
        DependencyField::Depends => depends_of(document),
        DependencyField::Imports => imports_of(document),
        DependencyField::LinkingTo => linking_to_of(document),
        DependencyField::Suggests => suggests_of(document),
    }
}

/// An entry of a field is read as a relation.
pub open spec fn is_entry(field: ParsedFieldV, relation: RelationV) -> bool {
    exists|i: int|
        0 <= i < field.entries.len() && parsed_relation(
            (#[trigger] field.entries[i]).message,
        )->Ok_0 == (relation.package, relation.requirement)
}

proof fn lemma_single_entries(label: Seq<char>, field: ParsedFieldV, relation: RelationV)
    ensures
        all_relations(single(label, field)) == field_relations(field),
        field_relations(field).contains(relation) <==> is_entry(field, relation),
{
    let fields = single(label, field);
    assert(fields.drop_last() =~= Seq::<(Seq<char>, ParsedFieldV)>::empty());
    assert(all_relations(fields.drop_last()) =~= Seq::<RelationV>::empty());
    assert(fields.last() == (label, field));
    assert(all_relations(fields) =~= field_relations(field));
    let list = field_relations(field);
    if list.contains(relation) {
        let i = choose|i: int| 0 <= i < list.len() && list[i] == relation;
        assert(parsed_relation(field.entries[i].message)->Ok_0 == (
            relation.package,
            relation.requirement,
        ));
    }
    if is_entry(field, relation) {
        let i = choose|i: int|
            0 <= i < field.entries.len() && parsed_relation(
                (#[trigger] field.entries[i]).message,
            )->Ok_0 == (relation.package, relation.requirement);
        assert(list[i] == relation);
    }
}

/// Each of the four fields is read from its own place in the document: it holds relations that
/// are entries there, and for each entry one that is equal to it.
pub proof fn fields_are_read_from_their_places(
    document: Seq<char>,
    field: DependencyField,
    relation: RelationV,
)
    ensures
        current_fields(document) matches Ok(fields) ==> {
            &&& chosen(fields, field).contains(relation) ==> is_entry(
                field_named(document, field),
                relation,
            )
            &&& is_entry(field_named(document, field), relation) ==> has_equal(
                chosen(fields, field),
                relation,
            )
        },
{
    match current_fields(document) {
        Ok(fields) => {
            let own = field_named(document, field);
            let label = match field {
                DependencyField::Depends => "Depends"@,
                DependencyField::Imports => "Imports"@,
                DependencyField::LinkingTo => "LinkingTo"@,
                DependencyField::Suggests => "Suggests"@,
            };
            lemma_single_entries(label, own, relation);
            let list = field_relations(own);
            assert(chosen(fields, field) == collected(list));
            crate::sorted::lemma_collected(list);
            if list.contains(relation) {
                let i = choose|i: int| 0 <= i < list.len() && list[i] == relation;
                assert(has_equal(collected(list), list[i]));
            }
        },
        Err(_) => {},
    }
}

proof fn lemma_joined_entries(a: Seq<RelationV>, b: Seq<RelationV>, relation: RelationV)
    ensures
        (a + b).contains(relation) <==> a.contains(relation) || b.contains(relation),
{
    let all = a + b;
    if all.contains(relation) {
        let i = choose|i: int| 0 <= i < all.len() && all[i] == relation;
        if i < a.len() {
            assert(a[i] == relation);
        } else {
            assert(b[i - a.len()] == relation);
        }
    }
    if a.contains(relation) {
        let i = choose|i: int| 0 <= i < a.len() && a[i] == relation;
        assert(all[i] == relation);
    }
    if b.contains(relation) {
        let i = choose|i: int| 0 <= i < b.len() && b[i] == relation;
        assert(all[a.len() + i] == relation);
    }
}

/// The relations of a project, R left out, are the entries of its four fields: each of them is
/// one, and each entry has one that is equal to it.
pub proof fn project_relations_are_entries(document: Seq<char>, relation: RelationV)
    ensures
        ({
            let list = dropped(collected(all_relations(project_fields(document))), r_only());
            let named = is_entry(imports_of(document), relation) || is_entry(
                depends_of(document),
                relation,
            ) || is_entry(linking_to_of(document), relation) || is_entry(
                suggests_of(document),
                relation,
            );
            &&& list.contains(relation) ==> relation.package != "R"@ && named
            &&& relation.package != "R"@ && named ==> has_equal(list, relation)
        }),
{
    let fields = project_fields(document);
    let three = fields.drop_last();
    let two = three.drop_last();
    let one = two.drop_last();
    let a = field_relations(imports_of(document));
    let b = field_relations(depends_of(document));
    let c = field_relations(linking_to_of(document));
    let d = field_relations(suggests_of(document));
    assert(one.drop_last() =~= Seq::<(Seq<char>, ParsedFieldV)>::empty());
    assert(all_relations(one.drop_last()) =~= Seq::<RelationV>::empty());
    assert(one.last().1 == imports_of(document) && two.last().1 == depends_of(document)
        && three.last().1 == linking_to_of(document) && fields.last().1 == suggests_of(document));
    assert(all_relations(one) =~= a);
    let all = all_relations(fields);
    assert(all_relations(two) =~= a + b);
    assert(all_relations(three) =~= a + b + c);
    assert(all =~= a + b + c + d);
    lemma_joined_entries(a, b, relation);
    lemma_joined_entries(a + b, c, relation);
    lemma_joined_entries(a + b + c, d, relation);
    lemma_single_entries("Imports"@, imports_of(document), relation);
    lemma_single_entries("Depends"@, depends_of(document), relation);
    lemma_single_entries("LinkingTo"@, linking_to_of(document), relation);
    lemma_single_entries("Suggests"@, suggests_of(document), relation);
    let set = collected(all);
    let list = dropped(set, r_only());
    crate::sorted::lemma_collected(all);
    lemma_dropped(set, r_only());
    assert(r_only()[0] == "R"@);
    if relation.package != "R"@ && all.contains(relation) {
        let i = choose|i: int| 0 <= i < all.len() && all[i] == relation;
        assert(has_equal(set, all[i]));
        let k = choose|k: int| 0 <= k < set.len() && (#[trigger] set[k]).order(relation)
            == Order::Equal;
        crate::metadata::equal_relations_share_their_package(set[k], relation);
        assert(set.contains(set[k]));
        assert(!r_only().contains(set[k].package));
        assert(list.contains(set[k]));
        let m = choose|m: int| 0 <= m < list.len() && list[m] == set[k];
        assert(list[m].order(relation) == Order::Equal);
    }
}

/// The relations that are locked with a package are the entries of its fields `Depends`,
/// `Imports` and `LinkingTo`: each of them is one, and each entry has one that is equal to it.
pub proof fn locked_relations_are_entries(document: Seq<char>, relation: RelationV)
    ensures
        ({
            let list = collected(all_relations(lock_fields(document)));
            let named = is_entry(depends_of(document), relation) || is_entry(
                imports_of(document),
                relation,
            ) || is_entry(linking_to_of(document), relation);
            &&& list.contains(relation) ==> named
            &&& named ==> has_equal(list, relation)
        }),
{
    let fields = lock_fields(document);
    let two = fields.drop_last();
    let one = two.drop_last();
    let a = field_relations(depends_of(document));
    let b = field_relations(imports_of(document));
    let c = field_relations(linking_to_of(document));
    assert(one.drop_last() =~= Seq::<(Seq<char>, ParsedFieldV)>::empty());
    assert(all_relations(one.drop_last()) =~= Seq::<RelationV>::empty());
    assert(one.last().1 == depends_of(document) && two.last().1 == imports_of(document)
        && fields.last().1 == linking_to_of(document));
    assert(all_relations(one) =~= a);
    assert(all_relations(two) =~= a + b);
    let all = all_relations(fields);
    assert(all =~= a + b + c);
    lemma_joined_entries(a, b, relation);
    lemma_joined_entries(a + b, c, relation);
    lemma_single_entries("Depends"@, depends_of(document), relation);
    lemma_single_entries("Imports"@, imports_of(document), relation);
    lemma_single_entries("LinkingTo"@, linking_to_of(document), relation);
    crate::sorted::lemma_collected(all);
    if all.contains(relation) {
        let i = choose|i: int| 0 <= i < all.len() && all[i] == relation;
        assert(has_equal(collected(all), all[i]));
    }
}

/// An entry asks for a revision of a package other than R.
pub open spec fn asks_for_revision(entry: FindingV) -> bool {
    let parts = parsed_relation(entry.message)->Ok_0;
    parts.0 != "R"@ && (parts.1 matches Some((_, operand)) && version_components(operand) is None)
}

proof fn lemma_revision_issues(label: Seq<char>, entries: Seq<FindingV>)
    ensures
        revision_issues(label, entries).len() == 0 <==> forall|i: int|
            0 <= i < entries.len() ==> !asks_for_revision(#[trigger] entries[i]),
    decreases entries.len(),
{
    if entries.len() > 0 {
        let t = entries.drop_last();
        lemma_revision_issues(label, t);
        assert(entries[entries.len() - 1] == entries.last());
        if forall|i: int| 0 <= i < entries.len() ==> !asks_for_revision(#[trigger] entries[i]) {
            assert forall|i: int| 0 <= i < t.len() implies !asks_for_revision(#[trigger] t[i]) by {
                assert(t[i] == entries[i]);
            }
        }
        if revision_issues(label, entries).len() == 0 {
            assert forall|i: int| 0 <= i < entries.len() implies !asks_for_revision(
                #[trigger] entries[i],
            ) by {
                if i < t.len() {
                    assert(t[i] == entries[i]);
                }
            }
        }
    }
}

/// Nothing is wrong with fields exactly if each of their entries can be read and asks for a
/// revision of R at most.
pub proof fn sound_fields_have_no_issues(fields: Seq<(Seq<char>, ParsedFieldV)>)
    ensures
        relation_issues(fields).len() == 0 <==> forall|i: int|
            #![trigger fields[i]]
            0 <= i < fields.len() ==> fields[i].1.issues.len() == 0 && forall|k: int|
                0 <= k < fields[i].1.entries.len() ==> !asks_for_revision(
                    #[trigger] fields[i].1.entries[k],
                ),
    decreases fields.len(),
{
    if fields.len() > 0 {
        let t = fields.drop_last();
        let last = fields.last();
        sound_fields_have_no_issues(t);
        lemma_revision_issues(last.0, last.1.entries);
        assert(entry_issues(last.0, last.1).len() == last.1.issues.len());
        assert(fields[fields.len() - 1] == last);
        assert(relation_issues(fields).len() == relation_issues(t).len() + entry_issues(
            last.0,
            last.1,
        ).len() + revision_issues(last.0, last.1.entries).len());
        assert forall|i: int| 0 <= i < t.len() implies t[i] == #[trigger] fields[i] by {}
        if relation_issues(fields).len() == 0 {
            assert forall|i: int|
                #![trigger fields[i]]
                0 <= i < fields.len() implies fields[i].1.issues.len() == 0 && forall|k: int|
                0 <= k < fields[i].1.entries.len() ==> !asks_for_revision(
                    #[trigger] fields[i].1.entries[k],
                ) by {
                if i < t.len() {
                    assert(t[i] == fields[i]);
                }
            }
        } else if forall|i: int|
            #![trigger fields[i]]
            0 <= i < fields.len() ==> fields[i].1.issues.len() == 0 && forall|k: int|
                0 <= k < fields[i].1.entries.len() ==> !asks_for_revision(
                    #[trigger] fields[i].1.entries[k],
                ) {
            assert forall|i: int|
                #![trigger t[i]]
                0 <= i < t.len() implies t[i].1.issues.len() == 0 && forall|k: int|
                0 <= k < t[i].1.entries.len() ==> !asks_for_revision(
                    #[trigger] t[i].1.entries[k],
                ) by {
                assert(t[i] == fields[i]);
            }
        }
    }
}

/// Leaving a text out of a list leaves all others.
pub proof fn others_stay(s: Seq<Seq<char>>, x: Seq<char>, y: Seq<char>)
    ensures
        others(s, x).contains(y) <==> s.contains(y) && y != x,
    decreases s.len(),
{
    if s.len() > 0 {
        let t = s.drop_last();
        let rest = others(t, x);
        let all = others(s, x);
        others_stay(t, x, y);
        assert(s[s.len() - 1] == s.last());
        if s.contains(y) {
            let i = choose|i: int| 0 <= i < s.len() && s[i] == y;
            if i < t.len() {
                assert(t[i] == y);
            } else if y != x {
                assert(all[all.len() - 1] == y);
            }
        }
        if t.contains(y) {
            let i = choose|i: int| 0 <= i < t.len() && t[i] == y;
            assert(s[i] == y);
        }
        if rest.contains(y) {
            let i = choose|i: int| 0 <= i < rest.len() && rest[i] == y;
            assert(all[i] == y);
        }
        if all.contains(y) {
            let i = choose|i: int| 0 <= i < all.len() && all[i] == y;
            if i < rest.len() {
                assert(rest[i] == y);
            }
        }
    }
}

/// The repositories of a project are its base repository, which is the listed one or else the
/// built-in one, then its remotes, and then its additional repositories, each in their order.
pub proof fn repositories_are_searched_in_order(document: Seq<char>, i: int)
    ensures
        configuration(document).len() == 1 + remotes_of(document).entries.len()
            + additional_repositories_of(document).entries.len(),
        configuration(document)[0] == ConfiguredV::Base(
            match field_of(document, BASE_REPOSITORY_FIELD@) {
                Some(field) => match repository_url_of(field.message) {
                    Some(url) => url,
                    None => built_in_url(),
                },
                None => built_in_url(),
            },
        ),
        0 <= i < remotes_of(document).entries.len() ==> (configuration(document)[1 + i] matches ConfiguredV::Git(
            remote,
        ) && (remote_of(remotes_of(document).entries[i].text) matches Ok(read) ==> remote == read)),
        0 <= i < additional_repositories_of(document).entries.len() ==> configuration(
            document,
        )[1 + remotes_of(document).entries.len() + i] == ConfiguredV::Additional(
            match popped_url(additional_repositories_of(document).entries[i].message) {
                Some(url) => url,
                None => additional_repositories_of(document).entries[i].message,
            },
        ),
{
}

/// Nothing is wrong with remotes exactly if all can be read, all are of Git, and no two are for
/// one package.
pub proof fn sound_remotes_have_no_issues(remotes: Seq<RemoteV>)
    ensures
        unsupported_issues(remotes).len() == 0 <==> forall|i: int|
            0 <= i < remotes.len() ==> !((#[trigger] remotes[i]).source is Other),
        duplicate_issues(remotes).len() == 0 <==> forall|i: int, j: int|
            0 <= i < j < remotes.len() && (#[trigger] remotes[j]).package is Some ==> (
            #[trigger] remotes[i]).package != remotes[j].package,
    decreases remotes.len(),
{
    if remotes.len() > 0 {
        let t = remotes.drop_last();
        let last = remotes.last();
        sound_remotes_have_no_issues(t);
        assert(remotes[remotes.len() - 1] == last);
        assert forall|i: int| 0 <= i < t.len() implies t[i] == #[trigger] remotes[i] by {}
        if unsupported_issues(remotes).len() == 0 {
            assert forall|i: int| 0 <= i < remotes.len() implies !(
            (#[trigger] remotes[i]).source is Other) by {
                if i < t.len() {
                    assert(t[i] == remotes[i]);
                }
            }
        } else if forall|i: int|
            0 <= i < remotes.len() ==> !((#[trigger] remotes[i]).source is Other) {
            assert forall|i: int| 0 <= i < t.len() implies !((#[trigger] t[i]).source is Other) by {
                assert(t[i] == remotes[i]);
            }
        }
        if duplicate_issues(remotes).len() == 0 {
            assert forall|i: int, j: int|
                0 <= i < j < remotes.len() && (#[trigger] remotes[j]).package is Some implies (
            #[trigger] remotes[i]).package != remotes[j].package by {
                assert(t[i] == remotes[i]);
                if j < t.len() {
                    assert(t[j] == remotes[j]);
                }
            }
        } else if forall|i: int, j: int|
            0 <= i < j < remotes.len() && (#[trigger] remotes[j]).package is Some ==> (
            #[trigger] remotes[i]).package != remotes[j].package {
            assert forall|i: int, j: int|
                0 <= i < j < t.len() && (#[trigger] t[j]).package is Some implies (
            #[trigger] t[i]).package != t[j].package by {
                assert(t[i] == remotes[i] && t[j] == remotes[j]);
            }
            match last.package {
                Some(package) => {
                    if has_alias(t, package) {
                        let i = choose|i: int|
                            0 <= i < t.len() && (#[trigger] t[i]).package == Some(package);
                        assert(remotes[i].package != remotes[remotes.len() - 1].package);
                    }
                },
                None => {},
            }
        }
    }
}

/// What a package needs is what the entries of its `Imports`, `Depends` and `LinkingTo` ask
/// for, but for R itself; of entries that are the same, one is kept.
pub proof fn needed_relations_are_entries(document: Seq<char>, relation: RelationV)
    ensures
        ({
            let list = dropped(collected(all_relations(hard_fields(document))), r_only());
            let named = relation.package != "R"@ && (is_entry(imports_of(document), relation)
                || is_entry(depends_of(document), relation) || is_entry(
                linking_to_of(document),
                relation,
            ));
            &&& list.contains(relation) ==> named
            &&& named ==> has_equal(list, relation)
        }),
{
    let fields = hard_fields(document);
    let two = fields.drop_last();
    let one = two.drop_last();
    let a = field_relations(imports_of(document));
    let b = field_relations(depends_of(document));
    let c = field_relations(linking_to_of(document));
    assert(one.drop_last() =~= Seq::<(Seq<char>, ParsedFieldV)>::empty());
    assert(all_relations(one.drop_last()) =~= Seq::<RelationV>::empty());
    assert(one.last().1 == imports_of(document) && two.last().1 == depends_of(document)
        && fields.last().1 == linking_to_of(document));
    assert(all_relations(one) =~= a);
    assert(all_relations(two) =~= a + b);
    let all = all_relations(fields);
    assert(all =~= a + b + c);
    lemma_joined_entries(a, b, relation);
    lemma_joined_entries(a + b, c, relation);
    lemma_single_entries("Imports"@, imports_of(document), relation);
    lemma_single_entries("Depends"@, depends_of(document), relation);
    lemma_single_entries("LinkingTo"@, linking_to_of(document), relation);
    crate::sorted::lemma_collected(all);
    let set = collected(all);
    let kept = dropped(set, r_only());
    lemma_dropped(set, r_only());
    assert(r_only()[0] == "R"@);
    assert(r_only().contains(relation.package) <==> relation.package == "R"@);
    if all.contains(relation) && relation.package != "R"@ {
        let i = choose|i: int| 0 <= i < all.len() && all[i] == relation;
        assert(has_equal(set, all[i]));
        let k = choose|k: int|
            0 <= k < set.len() && (#[trigger] set[k]).order(relation) == Order::Equal;
        crate::metadata::equal_relations_share_their_package(set[k], relation);
        assert(set.contains(set[k]));
        assert(r_only().contains(set[k].package) <==> set[k].package == "R"@);
        assert(kept.contains(set[k]));
        let m = choose|m: int| 0 <= m < kept.len() && kept[m] == set[k];
        assert(kept[m].order(relation) == Order::Equal);
    }
}

/// A description tells which package it is of exactly if it names the package and a version
/// that can be read, and none of its findings concern that.
pub proof fn identities_are_told_by_the_fields(document: Seq<char>)
    ensures
        identity_issues(document).len() == 0 <==> {
            &&& field_of(document, "Package"@) matches Some(package) && package.message.len() > 0
            &&& field_of(document, "Version"@) matches Some(version) && version_components(
                version.message,
            ) is Some
            &&& forall|i: int|
                0 <= i < validation_of(document).len() ==> !concerns_identity(
                    document,
                    (#[trigger] validation_of(document)[i]).0,
                )
        },
{
    lemma_identity_findings(document, validation_of(document));
}

proof fn lemma_identity_findings(document: Seq<char>, found: Seq<(Seq<char>, FindingV)>)
    ensures
        identity_findings(document, found).len() == 0 <==> forall|i: int|
            0 <= i < found.len() ==> !concerns_identity(document, (#[trigger] found[i]).0),
    decreases found.len(),
{
    if found.len() > 0 {
        let t = found.drop_last();
        let n = found.len() - 1;
        assert(found[n] == found.last());
        lemma_identity_findings(document, t);
        if forall|i: int|
            0 <= i < found.len() ==> !concerns_identity(document, (#[trigger] found[i]).0) {
            assert forall|i: int| 0 <= i < t.len() implies !concerns_identity(
                document,
                (#[trigger] t[i]).0,
            ) by {
                assert(t[i] == found[i]);
            }
        }
        if identity_findings(document, t).len() == 0 && !concerns_identity(document, found[n].0) {
            assert forall|i: int| 0 <= i < found.len() implies !concerns_identity(
                document,
                (#[trigger] found[i]).0,
            ) by {
                if i < n {
                    assert(t[i] == found[i]);
                }
            }
        }
    }
}

/// A change of the dependencies of a sound description, where it is done, leaves the four
/// fields with just the relations that it was to have and everything else as it was; where it
/// is not done, the description stays.
pub proof fn changed_descriptions_hold_the_change(
    source_name: Seq<char>,
    before: Seq<char>,
    after: Seq<char>,
    change: Result<FieldsV, Seq<IssueV>>,
    r: Result<(), DependencyMutationError>,
    name: Seq<char>,
)
    requires
        change_outcome(source_name, before, after, change, r),
    ensures
        r is Err ==> after == before,
        change is Err ==> r is Err,
        is_sound(before) && r is Ok ==> {
            let fields = change->Ok_0;
            &&& crate::document::entry_texts(depends_of(after)) == relation_texts(fields.depends)
            &&& crate::document::entry_texts(imports_of(after)) == relation_texts(fields.imports)
            &&& crate::document::entry_texts(linking_to_of(after)) == relation_texts(
                fields.linking_to,
            )
            &&& crate::document::entry_texts(suggests_of(after)) == relation_texts(fields.suggests)
            &&& depends_of(after).issues.len() == 0 && imports_of(after).issues.len() == 0
            &&& linking_to_of(after).issues.len() == 0 && suggests_of(after).issues.len() == 0
            &&& remotes_of(after).entries == remotes_of(before).entries
            &&& name != "Depends"@ && name != "Imports"@ && name != "LinkingTo"@ && name
                != "Suggests"@ ==> (field_of(before, name) is Some <==> field_of(
                after,
                name,
            ) is Some) && (field_of(before, name) is Some ==> field_of(before, name)->0.message
                == field_of(after, name)->0.message)
        },
{
    if is_sound(before) && r is Ok {
        if !is_managed(name) {
            assert(crate::document::same_value(before, after, name));
        }
    }
}

/// The repositories of a description change only where their field can be read; what is not
/// changed is left as it stands, and a change is told exactly if there was one.
pub proof fn repositories_change_if_they_have_to(
    source_name: Seq<char>,
    before: Seq<char>,
    after: Seq<char>,
    change: Option<Seq<Seq<char>>>,
    r: Result<bool, RepositoryMutationError>,
)
    ensures
        repositories_outcome(source_name, before, after, change, r) ==> {
            &&& r is Err || r == Ok::<bool, RepositoryMutationError>(false) ==> after == before
            &&& r is Ok ==> additional_repositories_of(before).issues.len() == 0 && (r->Ok_0
                <==> change is Some)
            &&& r == Ok::<bool, RepositoryMutationError>(true) ==> additional_repositories_set(
                before,
                change->0,
            ) == Ok::<Seq<char>, Seq<char>>(after)
        },
        remotes_outcome(source_name, before, after, change, r) ==> {
            &&& r is Err || r == Ok::<bool, RepositoryMutationError>(false) ==> after == before
            &&& r is Ok ==> remotes_of(before).issues.len() == 0 && (r->Ok_0 <==> change is Some)
            &&& r == Ok::<bool, RepositoryMutationError>(true) ==> remotes_set(before, change->0)
                == Ok::<Seq<char>, Seq<char>>(after) && remote_issues(after).len() == 0
        },
{
}

/// A field that cannot be read is told in each place where that is, before anything else.
pub proof fn unreadable_repositories_are_told(document: Seq<char>, i: int)
    ensures
        remotes_of(document).issues.len() > 0 ==> remote_issues(document).len() == remotes_of(
            document,
        ).issues.len(),
        0 <= i < remotes_of(document).issues.len() ==> remote_issues(document)[i]
            == IssueV::Positioned(
            remotes_of(document).issues[i].message,
            remotes_of(document).issues[i].start,
            remotes_of(document).issues[i].end,
        ),
        configuration_issues(document).len() == 0 ==> remotes_of(document).issues.len() == 0
            && additional_repositories_of(document).issues.len() == 0 && listed_base(
            document,
        ) is Ok,
        0 <= i < additional_repositories_of(document).issues.len() ==> configuration_issues(
            document,
        ).contains(
            IssueV::Positioned(
                additional_repositories_of(document).issues[i].message,
                additional_repositories_of(document).issues[i].start,
                additional_repositories_of(document).issues[i].end,
            ),
        ),
{
    let a = match listed_base(document) {
        Ok(_) => Seq::empty(),
        Err(issues) => issues,
    } + remote_issues(document);
    let b = positioned(additional_repositories_of(document).issues);
    assert(configuration_issues(document) =~= a + b);
    if 0 <= i < additional_repositories_of(document).issues.len() {
        assert(configuration_issues(document)[a.len() + i] == b[i]);
    }
}

} // verus!
