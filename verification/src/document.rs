//! `DESCRIPTION` documents, held as text.
//!
//! The parser of the format is an outside crate. Every question to it is a function of the
//! text of the document, and every edit gives the text of another document.
use crate::metadata::{relation_text, valid_relation, RelationV};
use crate::remote::remote_of;
use crate::text::{is_digit, joined, opt_text, split_on, texts};
use crate::uri::total_bytes;
use r_description::{Description as Document, FieldName, LogicalValue};
use r_metadata::RemoteSource;
use std::str::FromStr;
use vstd::prelude::*;
use vstd::utf8::encode_utf8;

verus! {

/// The document is within the size that the parser takes.
pub open spec fn fits(text: Seq<char>) -> bool {
    encode_utf8(text).len() <= u32::MAX
}

/// A message about a part of a document, which is given by byte offsets.
#[derive(Debug)]
pub struct Finding {
    pub message: String,
    pub start: u64,
    pub end: u64,
}

/// A message about a part of a document.
pub struct FindingV {
    pub message: Seq<char>,
    pub start: u64,
    pub end: u64,
}

impl Finding {
    /// The message and the offsets.
    pub open spec fn view(&self) -> FindingV {
        FindingV { message: self.message@, start: self.start, end: self.end }
    }
}

/// The messages of a list.
pub open spec fn findings(v: Seq<Finding>) -> Seq<FindingV> {
    v.map_values(|f: Finding| f@)
}

/// What a field that holds a list was read as: the entries, each with its canonical
/// spelling and the offsets of the field, and what is wrong with the others.
#[derive(Debug)]
pub struct ParsedField {
    pub entries: Vec<Finding>,
    pub issues: Vec<Finding>,
}

/// What a field that holds a list was read as.
pub struct ParsedFieldV {
    pub entries: Seq<FindingV>,
    pub issues: Seq<FindingV>,
}

impl ParsedField {
    /// The entries and the issues.
    pub open spec fn view(&self) -> ParsedFieldV {
        ParsedFieldV { entries: findings(self.entries@), issues: findings(self.issues@) }
    }
}

/// The spellings of the entries.
pub open spec fn entry_texts(field: ParsedFieldV) -> Seq<Seq<char>> {
    field.entries.map_values(|f: FindingV| f.message)
}

/// The messages of the issues.
pub open spec fn issue_texts(field: ParsedFieldV) -> Seq<Seq<char>> {
    field.issues.map_values(|f: FindingV| f.message)
}

/// The text is the canonical spelling of a relation.
pub open spec fn is_relation_text(s: Seq<char>) -> bool {
    exists|v: RelationV| valid_relation(v) && #[trigger] relation_text(v) == s
}

/// All texts are canonical spellings of relations.
pub open spec fn all_relation_texts(s: Seq<Seq<char>>) -> bool {
    forall|i: int| 0 <= i < s.len() ==> is_relation_text(#[trigger] s[i])
}

/// The text is the canonical spelling of a remote.
pub open spec fn is_remote_text(s: Seq<char>) -> bool {
    remote_of(s) matches Ok(remote) && remote.text == s
}

/// The syntax errors of a document.
pub uninterp spec fn diagnostics_of(text: Seq<char>) -> Seq<FindingV>;

/// `r_description::Description::diagnostics`: what is wrong with the lines of a document.
#[verifier::external_body]
pub(crate) fn diagnostics(text: &str) -> (r: Vec<Finding>)
    requires
        fits(text@),
    ensures
        findings(r@) == diagnostics_of(text@),
{
    Document::parse(text).diagnostics().iter().map(|issue| Finding {
        message: issue.message().to_string(),
        start: issue.span().start as u64,
        end: issue.span().end as u64,
    }).collect()
}

/// The number of records of a document.
pub uninterp spec fn record_count_of(text: Seq<char>) -> nat;

/// `r_description::Description::records`, counted.
#[verifier::external_body]
pub(crate) fn record_count(text: &str) -> (r: usize)
    requires
        fits(text@),
    ensures
        r == record_count_of(text@),
{
    Document::parse(text).records().count()
}

/// The value of a field and the offsets of the value, for the last declaration of the field
/// in the first record.
pub uninterp spec fn field_of(text: Seq<char>, name: Seq<char>) -> Option<FindingV>;

/// `r_description::Description::field` with the value and the range of the value. A value is
/// no longer than the document, and its offsets lie within the document.
#[verifier::external_body]
pub(crate) fn field(text: &str, name: &str) -> (r: Option<Finding>)
    requires
        fits(text@),
    ensures
        match r {
            Some(value) => field_of(text@, name@) == Some(value@) && value.start <= u32::MAX
                && value.end <= u32::MAX && encode_utf8(value.message@).len() <= u32::MAX,
            None => field_of(text@, name@) is None,
        },
{
    let value = Document::parse(text).field(name)?.value();
    let range = value.source_range();
    Some(Finding {
        message: value.as_str().to_string(),
        start: range.start as u64,
        end: range.end as u64,
    })
}

/// The findings of the validation of a document, each with its code.
pub uninterp spec fn validation_of(text: Seq<char>) -> Seq<(Seq<char>, FindingV)>;

/// A finding with the code of its kind.
#[derive(Debug)]
pub struct Coded {
    pub code: String,
    pub finding: Finding,
}

/// Findings with their codes.
pub open spec fn coded(v: Seq<Coded>) -> Seq<(Seq<char>, FindingV)> {
    v.map_values(|c: Coded| (c.code@, c.finding@))
}

/// `r_description::Description::validate`: the issues with their codes.
#[verifier::external_body]
pub(crate) fn validation(text: &str) -> (r: Vec<Coded>)
    requires
        fits(text@),
    ensures
        coded(r@) == validation_of(text@),
{
    Document::parse(text).validate().into_issues().iter().map(|issue| Coded {
        code: issue.code().to_string(),
        finding: Finding {
            message: issue.message().to_string(),
            start: issue.span().start as u64,
            end: issue.span().end as u64,
        },
    }).collect()
}

/// A document in canonical form, or what stands in the way.
pub uninterp spec fn normalized_of(text: Seq<char>) -> Result<
    Seq<char>,
    Seq<(Seq<char>, FindingV)>,
>;

/// The canonical form of the document, which is less than sixteen times as long, is within
/// the size that the parser takes.
pub open spec fn canonical_form_fits(text: Seq<char>) -> bool {
    16 * encode_utf8(text).len() <= u32::MAX
}

/// `r_description::Description::normalize`.
#[verifier::external_body]
pub(crate) fn normalized(text: &str) -> (r: Result<String, Vec<Coded>>)
    requires
        canonical_form_fits(text@),
    ensures
        match r {
            Ok(output) => normalized_of(text@) == Ok::<Seq<char>, Seq<(Seq<char>, FindingV)>>(
                output@,
            ),
            Err(issues) => normalized_of(text@) == Err::<Seq<char>, Seq<(Seq<char>, FindingV)>>(
                coded(issues@),
            ),
        },
{
    let result = Document::parse(text).normalize().map(|document| document.to_string());
    result.map_err(|error| error.diagnostics().iter().map(|issue| Coded {
        code: issue.code().to_string(),
        finding: Finding {
            message: issue.message().to_string(),
            start: issue.span().start as u64,
            end: issue.span().end as u64,
        },
    }).collect())
}

/// The `Depends` field of a document.
pub uninterp spec fn depends_of(text: Seq<char>) -> ParsedFieldV;

/// `r_description::Description::depends_parsed`. The entries are canonical spellings of
/// relations.
#[verifier::external_body]
pub(crate) fn depends(text: &str) -> (r: ParsedField)
    requires
        fits(text@),
    ensures
        r@ == depends_of(text@),
        all_relation_texts(entry_texts(r@)),
{
    let parsed = Document::parse(text).depends_parsed();
    let entries = parsed.entries().iter().map(|entry| Finding {
        message: entry.value.to_string(),
        start: entry.field_span.start as u64,
        end: entry.field_span.end as u64,
    }).collect();
    let issues = parsed.issues().iter().map(|issue| Finding {
        message: issue.error.to_string(),
        start: issue.field_span.start as u64,
        end: issue.field_span.end as u64,
    }).collect();
    ParsedField { entries, issues }
}

/// The `Imports` field of a document.
pub uninterp spec fn imports_of(text: Seq<char>) -> ParsedFieldV;

/// `r_description::Description::imports_parsed`. The entries are canonical spellings of
/// relations.
#[verifier::external_body]
pub(crate) fn imports(text: &str) -> (r: ParsedField)
    requires
        fits(text@),
    ensures
        r@ == imports_of(text@),
        all_relation_texts(entry_texts(r@)),
{
    let parsed = Document::parse(text).imports_parsed();
    let entries = parsed.entries().iter().map(|entry| Finding {
        message: entry.value.to_string(),
        start: entry.field_span.start as u64,
        end: entry.field_span.end as u64,
    }).collect();
    let issues = parsed.issues().iter().map(|issue| Finding {
        message: issue.error.to_string(),
        start: issue.field_span.start as u64,
        end: issue.field_span.end as u64,
    }).collect();
    ParsedField { entries, issues }
}

/// The `LinkingTo` field of a document.
pub uninterp spec fn linking_to_of(text: Seq<char>) -> ParsedFieldV;

/// `r_description::Description::linking_to_parsed`. The entries are canonical spellings of
/// relations.
#[verifier::external_body]
pub(crate) fn linking_to(text: &str) -> (r: ParsedField)
    requires
        fits(text@),
    ensures
        r@ == linking_to_of(text@),
        all_relation_texts(entry_texts(r@)),
{
    let parsed = Document::parse(text).linking_to_parsed();
    let entries = parsed.entries().iter().map(|entry| Finding {
        message: entry.value.to_string(),
        start: entry.field_span.start as u64,
        end: entry.field_span.end as u64,
    }).collect();
    let issues = parsed.issues().iter().map(|issue| Finding {
        message: issue.error.to_string(),
        start: issue.field_span.start as u64,
        end: issue.field_span.end as u64,
    }).collect();
    ParsedField { entries, issues }
}

/// The `Suggests` field of a document.
pub uninterp spec fn suggests_of(text: Seq<char>) -> ParsedFieldV;

/// `r_description::Description::suggests_parsed`. The entries are canonical spellings of
/// relations.
#[verifier::external_body]
pub(crate) fn suggests(text: &str) -> (r: ParsedField)
    requires
        fits(text@),
    ensures
        r@ == suggests_of(text@),
        all_relation_texts(entry_texts(r@)),
{
    let parsed = Document::parse(text).suggests_parsed();
    let entries = parsed.entries().iter().map(|entry| Finding {
        message: entry.value.to_string(),
        start: entry.field_span.start as u64,
        end: entry.field_span.end as u64,
    }).collect();
    let issues = parsed.issues().iter().map(|issue| Finding {
        message: issue.error.to_string(),
        start: issue.field_span.start as u64,
        end: issue.field_span.end as u64,
    }).collect();
    ParsedField { entries, issues }
}

/// An entry of the `Remotes` field: its canonical spelling, its alias, and whether it is a
/// Subversion repository.
#[derive(Debug)]
pub struct RemoteEntry {
    pub text: String,
    pub package: Option<String>,
    pub subversion: bool,
}

/// An entry of the `Remotes` field.
pub struct RemoteEntryV {
    pub text: Seq<char>,
    pub package: Option<Seq<char>>,
    pub subversion: bool,
}

impl RemoteEntry {
    /// The entry, as characters.
    pub open spec fn view(&self) -> RemoteEntryV {
        RemoteEntryV {
            text: self.text@,
            package: opt_text(self.package),
            subversion: self.subversion,
        }
    }
}

/// What the `Remotes` field was read as: the entries, and what is wrong with the others.
#[derive(Debug)]
pub struct RemotesField {
    pub entries: Vec<RemoteEntry>,
    pub issues: Vec<Finding>,
}

/// What the `Remotes` field was read as.
pub struct RemotesFieldV {
    pub entries: Seq<RemoteEntryV>,
    pub issues: Seq<FindingV>,
}

impl RemotesField {
    /// The entries and the issues.
    pub open spec fn view(&self) -> RemotesFieldV {
        RemotesFieldV {
            entries: self.entries@.map_values(|e: RemoteEntry| e@),
            issues: findings(self.issues@),
        }
    }
}

/// The `Remotes` field of a document.
pub uninterp spec fn remotes_of(text: Seq<char>) -> RemotesFieldV;

/// `r_description::Description::remotes_parsed`. The entries are canonical spellings of
/// remotes; one that cannot be read again is a URL or a Subversion repository whose host
/// holds a comma once it is spelled in ASCII.
#[verifier::external_body]
pub(crate) fn remotes(text: &str) -> (r: RemotesField)
    requires
        fits(text@),
    ensures
        r@ == remotes_of(text@),
        forall|i: int|
            0 <= i < r@.entries.len() ==> is_remote_text((#[trigger] r@.entries[i]).text)
                || remote_of(r@.entries[i].text) is Err,
{
    let parsed = Document::parse(text).remotes_parsed();
    let entries = parsed.entries().iter().map(|entry| RemoteEntry {
        text: entry.value.to_string(),
        package: entry.value.package.clone(),
        subversion: matches!(entry.value.source, RemoteSource::Svn(_)),
    }).collect();
    let issues = parsed.issues().iter().map(|issue| Finding {
        message: issue.error.to_string(),
        start: issue.field_span.start as u64,
        end: issue.field_span.end as u64,
    }).collect();
    RemotesField { entries, issues }
}

/// The `Additional_repositories` field of a document.
pub uninterp spec fn additional_repositories_of(text: Seq<char>) -> ParsedFieldV;

/// `r_description::Description::additional_repositories_parsed`. The entries are URLs.
#[verifier::external_body]
pub(crate) fn additional_repositories(text: &str) -> (r: ParsedField)
    requires
        fits(text@),
    ensures
        r@ == additional_repositories_of(text@),
{
    let parsed = Document::parse(text).additional_repositories_parsed();
    let entries = parsed.entries().iter().map(|entry| Finding {
        message: entry.value.to_string(),
        start: entry.field_span.start as u64,
        end: entry.field_span.end as u64,
    }).collect();
    let issues = parsed.issues().iter().map(|issue| Finding {
        message: issue.error.to_string(),
        start: issue.field_span.start as u64,
        end: issue.field_span.end as u64,
    }).collect();
    ParsedField { entries, issues }
}

/// Whether a document and the values that are written into it, each byte of which may take
/// several, stay within the size that the parser takes.
pub open spec fn edit_fits(text: Seq<char>, values: Seq<Seq<char>>) -> bool {
    encode_utf8(text).len() + 16 * total_bytes(values) + 16 * values.len() + 64 <= u32::MAX
}

proof fn lemma_total_grows(parts: Seq<Seq<char>>, n: int)
    requires
        0 <= n <= parts.len(),
    ensures
        0 <= total_bytes(parts.take(n)) <= total_bytes(parts),
    decreases parts.len() - n,
{
    lemma_total_positive(parts.take(n));
    if n < parts.len() {
        lemma_total_grows(parts, n + 1);
        assert(parts.take(n + 1).drop_last() =~= parts.take(n));
    } else {
        assert(parts.take(n) =~= parts);
    }
}

proof fn lemma_total_positive(parts: Seq<Seq<char>>)
    ensures
        0 <= total_bytes(parts),
    decreases parts.len(),
{
    if parts.len() > 0 {
        lemma_total_positive(parts.drop_last());
    }
}

/// Tests whether an edit stays within the size that the parser takes.
pub(crate) fn has_room(text: &str, values: &Vec<String>) -> (r: bool)
    ensures
        r == edit_fits(text@, texts(values@)),
{
    let ghost all = texts(values@);
    let limit: u64 = 0xffff_ffff;
    let size: usize = text.as_bytes().len();
    let count: usize = values.len();
    proof {
        lemma_total_positive(all);
    }
    if size as u64 > limit || count as u64 > limit {
        return false;
    }
    let mut total: u64 = 0;
    let mut i: usize = 0;
    assert(all.take(0) =~= Seq::<Seq<char>>::empty());
    while i < count
        invariant
            i <= count,
            count == values.len(),
            all == texts(values@),
            limit == 0xffff_ffff,
            total <= limit,
            total == total_bytes(all.take(i as int)),
        decreases count - i,
    {
        let n: usize = values[i].as_str().as_bytes().len();
        proof {
            assert(all[i as int] == values@[i as int]@);
            assert(all.take(i + 1).drop_last() =~= all.take(i as int));
            lemma_total_grows(all, i + 1);
        }
        if n as u64 > limit - total {
            return false;
        }
        total = total + n as u64;
        i = i + 1;
    }
    assert(all.take(i as int) =~= all);
    size as u64 + 16 * total + 16 * (count as u64) + 64 <= limit
}

/// Every carriage return of the text stands before a line feed.
pub open spec fn ends_lines_plainly(text: Seq<char>) -> bool {
    forall|i: int|
        0 <= i < text.len() && #[trigger] text[i] == '\r' ==> i + 1 < text.len() && text[i + 1]
            == '\n'
}

/// A document without syntax errors whose first record names a package, and whose lines do
/// not end in a carriage return alone: the line feed of a following line would join it where
/// a field between them is removed.
pub open spec fn is_sound(text: Seq<char>) -> bool {
    &&& diagnostics_of(text).len() == 0
    &&& field_of(text, "Package"@) is Some
    &&& ends_lines_plainly(text)
}

/// The field holds the given entries and nothing is wrong with it.
pub open spec fn holds_exactly(field: ParsedFieldV, values: Seq<Seq<char>>) -> bool {
    entry_texts(field) == values && field.issues.len() == 0
}

/// The entries and the issues of a field are as before, wherever the field stands.
pub open spec fn unchanged(before: ParsedFieldV, after: ParsedFieldV) -> bool {
    entry_texts(before) == entry_texts(after) && issue_texts(before) == issue_texts(after)
}

/// The remotes of two documents, and what is wrong with the others, are the same.
pub open spec fn same_remotes(before: Seq<char>, after: Seq<char>) -> bool {
    &&& remotes_of(before).entries == remotes_of(after).entries
    &&& remotes_of(before).issues.map_values(|f: FindingV| f.message) == remotes_of(
        after,
    ).issues.map_values(|f: FindingV| f.message)
}

/// The field holds the given remotes and nothing is wrong with it.
pub open spec fn holds_remotes(field: RemotesFieldV, values: Seq<Seq<char>>) -> bool {
    field.entries.map_values(|e: RemoteEntryV| e.text) == values && field.issues.len() == 0
}

/// A field has the same value in two documents.
pub open spec fn same_value(before: Seq<char>, after: Seq<char>, name: Seq<char>) -> bool {
    match (field_of(before, name), field_of(after, name)) {
        (Some(a), Some(b)) => a.message == b.message,
        (None, None) => true,
        _ => false,
    }
}

/// The document with another `Depends` field, or the message of the error.
pub uninterp spec fn depends_set(text: Seq<char>, values: Seq<Seq<char>>) -> Result<
    Seq<char>,
    Seq<char>,
>;

/// `r_description::Description::set_depends`: the field holds the given relations and no
/// others; without relations it is removed. In a document without syntax errors that has a
/// package the relations are read back, and all other fields stay as they are.
#[verifier::external_body]
pub(crate) fn set_depends(text: &str, values: &Vec<String>) -> (r: Result<String, String>)
    requires
        edit_fits(text@, texts(values@)),
    ensures
        match r {
            Ok(output) => {
                &&& depends_set(text@, texts(values@)) == Ok::<Seq<char>, Seq<char>>(output@)
                &&& fits(output@)
                &&& is_sound(text@) && all_relation_texts(texts(values@)) ==> is_sound(output@)
                    && holds_exactly(depends_of(output@), texts(values@))
                    && unchanged(imports_of(text@), imports_of(output@))
                    && unchanged(linking_to_of(text@), linking_to_of(output@))
                    && unchanged(suggests_of(text@), suggests_of(output@))
                    && same_remotes(text@, output@)
                    && unchanged(additional_repositories_of(text@), additional_repositories_of(output@))
                    && (forall|name: Seq<char>|
                    name != "Depends"@ ==> #[trigger] same_value(text@, output@, name))
            },
            Err(message) => depends_set(text@, texts(values@)) == Err::<Seq<char>, Seq<char>>(
                message@,
            ),
        },
{
    let values = values.iter().map(|value| r_metadata::Relation::from_str(value));
    let values = values.collect::<Result<Vec<_>, _>>().map_err(|error| error.to_string())?;
    let edited = Document::parse(text).set_depends(values);
    edited.map(|document| document.to_string()).map_err(|error| error.to_string())
}

/// The document with another `Imports` field, or the message of the error.
pub uninterp spec fn imports_set(text: Seq<char>, values: Seq<Seq<char>>) -> Result<
    Seq<char>,
    Seq<char>,
>;

/// `r_description::Description::set_imports`: the field holds the given relations and no
/// others; without relations it is removed. In a document without syntax errors that has a
/// package the relations are read back, and all other fields stay as they are.
#[verifier::external_body]
pub(crate) fn set_imports(text: &str, values: &Vec<String>) -> (r: Result<String, String>)
    requires
        edit_fits(text@, texts(values@)),
    ensures
        match r {
            Ok(output) => {
                &&& imports_set(text@, texts(values@)) == Ok::<Seq<char>, Seq<char>>(output@)
                &&& fits(output@)
                &&& is_sound(text@) && all_relation_texts(texts(values@)) ==> is_sound(output@)
                    && holds_exactly(imports_of(output@), texts(values@))
                    && unchanged(depends_of(text@), depends_of(output@))
                    && unchanged(linking_to_of(text@), linking_to_of(output@))
                    && unchanged(suggests_of(text@), suggests_of(output@))
                    && same_remotes(text@, output@)
                    && unchanged(additional_repositories_of(text@), additional_repositories_of(output@))
                    && (forall|name: Seq<char>|
                    name != "Imports"@ ==> #[trigger] same_value(text@, output@, name))
            },
            Err(message) => imports_set(text@, texts(values@)) == Err::<Seq<char>, Seq<char>>(
                message@,
            ),
        },
{
    let values = values.iter().map(|value| r_metadata::Relation::from_str(value));
    let values = values.collect::<Result<Vec<_>, _>>().map_err(|error| error.to_string())?;
    let edited = Document::parse(text).set_imports(values);
    edited.map(|document| document.to_string()).map_err(|error| error.to_string())
}

/// The document with another `LinkingTo` field, or the message of the error.
pub uninterp spec fn linking_to_set(text: Seq<char>, values: Seq<Seq<char>>) -> Result<
    Seq<char>,
    Seq<char>,
>;

/// `r_description::Description::set_linking_to`: the field holds the given relations and no
/// others; without relations it is removed. In a document without syntax errors that has a
/// package the relations are read back, and all other fields stay as they are.
#[verifier::external_body]
pub(crate) fn set_linking_to(text: &str, values: &Vec<String>) -> (r: Result<String, String>)
    requires
        edit_fits(text@, texts(values@)),
    ensures
        match r {
            Ok(output) => {
                &&& linking_to_set(text@, texts(values@)) == Ok::<Seq<char>, Seq<char>>(output@)
                &&& fits(output@)
                &&& is_sound(text@) && all_relation_texts(texts(values@)) ==> is_sound(output@)
                    && holds_exactly(linking_to_of(output@), texts(values@))
                    && unchanged(depends_of(text@), depends_of(output@))
                    && unchanged(imports_of(text@), imports_of(output@))
                    && unchanged(suggests_of(text@), suggests_of(output@))
                    && same_remotes(text@, output@)
                    && unchanged(additional_repositories_of(text@), additional_repositories_of(output@))
                    && (forall|name: Seq<char>|
                    name != "LinkingTo"@ ==> #[trigger] same_value(text@, output@, name))
            },
            Err(message) => linking_to_set(text@, texts(values@)) == Err::<Seq<char>, Seq<char>>(
                message@,
            ),
        },
{
    let values = values.iter().map(|value| r_metadata::Relation::from_str(value));
    let values = values.collect::<Result<Vec<_>, _>>().map_err(|error| error.to_string())?;
    let edited = Document::parse(text).set_linking_to(values);
    edited.map(|document| document.to_string()).map_err(|error| error.to_string())
}

/// The document with another `Suggests` field, or the message of the error.
pub uninterp spec fn suggests_set(text: Seq<char>, values: Seq<Seq<char>>) -> Result<
    Seq<char>,
    Seq<char>,
>;

/// `r_description::Description::set_suggests`: the field holds the given relations and no
/// others; without relations it is removed. In a document without syntax errors that has a
/// package the relations are read back, and all other fields stay as they are.
#[verifier::external_body]
pub(crate) fn set_suggests(text: &str, values: &Vec<String>) -> (r: Result<String, String>)
    requires
        edit_fits(text@, texts(values@)),
    ensures
        match r {
            Ok(output) => {
                &&& suggests_set(text@, texts(values@)) == Ok::<Seq<char>, Seq<char>>(output@)
                &&& fits(output@)
                &&& is_sound(text@) && all_relation_texts(texts(values@)) ==> is_sound(output@)
                    && holds_exactly(suggests_of(output@), texts(values@))
                    && unchanged(depends_of(text@), depends_of(output@))
                    && unchanged(imports_of(text@), imports_of(output@))
                    && unchanged(linking_to_of(text@), linking_to_of(output@))
                    && same_remotes(text@, output@)
                    && unchanged(additional_repositories_of(text@), additional_repositories_of(output@))
                    && (forall|name: Seq<char>|
                    name != "Suggests"@ ==> #[trigger] same_value(text@, output@, name))
            },
            Err(message) => suggests_set(text@, texts(values@)) == Err::<Seq<char>, Seq<char>>(
                message@,
            ),
        },
{
    let values = values.iter().map(|value| r_metadata::Relation::from_str(value));
    let values = values.collect::<Result<Vec<_>, _>>().map_err(|error| error.to_string())?;
    let edited = Document::parse(text).set_suggests(values);
    edited.map(|document| document.to_string()).map_err(|error| error.to_string())
}

/// The document with another `Remotes` field, or the message of the error.
pub uninterp spec fn remotes_set(text: Seq<char>, values: Seq<Seq<char>>) -> Result<
    Seq<char>,
    Seq<char>,
>;

/// `r_description::Description::set_remotes`: the field holds the given remotes and no
/// others; without remotes it is removed. In a document without syntax errors that has a
/// package the remotes are read back.
#[verifier::external_body]
pub(crate) fn set_remotes(text: &str, values: &Vec<String>) -> (r: Result<String, String>)
    requires
        edit_fits(text@, texts(values@)),
    ensures
        match r {
            Ok(output) => {
                &&& remotes_set(text@, texts(values@)) == Ok::<Seq<char>, Seq<char>>(output@)
                &&& fits(output@)
                &&& is_sound(text@) && (forall|i: int|
                    0 <= i < values@.len() ==> is_remote_text(#[trigger] texts(values@)[i]))
                    ==> is_sound(output@) && holds_remotes(remotes_of(output@), texts(values@))
            },
            Err(message) => remotes_set(text@, texts(values@)) == Err::<Seq<char>, Seq<char>>(
                message@,
            ),
        },
{
    let values = values.iter().map(|value| r_metadata::Remote::from_str(value));
    let values = values.collect::<Result<Vec<_>, _>>().map_err(|error| error.to_string())?;
    let edited = Document::parse(text).set_remotes(values);
    edited.map(|document| document.to_string()).map_err(|error| error.to_string())
}

/// The document with another `Additional_repositories` field, or the message of the error.
pub uninterp spec fn additional_repositories_set(text: Seq<char>, values: Seq<Seq<char>>) -> Result<
    Seq<char>,
    Seq<char>,
>;

/// `r_description::Description::set_additional_repositories`: the field holds the given URLs
/// and no others; without URLs it is removed.
#[verifier::external_body]
pub(crate) fn set_additional_repositories(text: &str, values: &Vec<String>) -> (r: Result<
    String,
    String,
>)
    requires
        edit_fits(text@, texts(values@)),
    ensures
        match r {
            Ok(output) => additional_repositories_set(text@, texts(values@)) == Ok::<
                Seq<char>,
                Seq<char>,
            >(output@),
            Err(message) => additional_repositories_set(text@, texts(values@)) == Err::<
                Seq<char>,
                Seq<char>,
            >(message@),
        },
{
    let values = values.iter().map(|value| url::Url::parse(value));
    let values = values.collect::<Result<Vec<_>, _>>().map_err(|error| error.to_string())?;
    let edited = Document::parse(text).set_additional_repositories(values);
    edited.map(|document| document.to_string()).map_err(|error| error.to_string())
}

/// The document with another value of a field, or the message of the error.
pub uninterp spec fn field_set(text: Seq<char>, name: Seq<char>, value: Seq<char>) -> Result<
    Seq<char>,
    Seq<char>,
>;

/// `r_description::Description::set_field`: the last declaration of the field gets the
/// value of one line, or the field is added after the last one. In a document without syntax
/// errors that has a package the value is read back.
#[verifier::external_body]
pub(crate) fn set_field(text: &str, name: &str, value: &str) -> (r: Result<String, String>)
    requires
        edit_fits(text@, seq![name@, value@]),
        !value@.contains('\n'),
    ensures
        match r {
            Ok(output) => {
                &&& field_set(text@, name@, value@) == Ok::<Seq<char>, Seq<char>>(output@)
                &&& fits(output@)
                &&& is_sound(text@) ==> (field_of(output@, name@) matches Some(found)
                    && found.message == value@)
            },
            Err(message) => field_set(text@, name@, value@) == Err::<Seq<char>, Seq<char>>(
                message@,
            ),
        },
{
    let name = FieldName::new(name).map_err(|error| error.to_string())?;
    let value = LogicalValue::new(value).map_err(|error| error.to_string())?;
    let edited = Document::parse(text).set_field(&name, &value);
    edited.map(|document| document.to_string()).map_err(|error| error.to_string())
}

/// The document without a field, or the message of the error.
pub uninterp spec fn field_removed(text: Seq<char>, name: Seq<char>) -> Result<
    Seq<char>,
    Seq<char>,
>;

/// `r_description::Description::remove_all`: all declarations of the field in the first
/// record are removed. It succeeds where there is one, and in a document without syntax
/// errors that keeps its package none is left.
#[verifier::external_body]
pub(crate) fn remove_all(text: &str, name: &str) -> (r: Result<String, String>)
    requires
        fits(text@),
    ensures
        match r {
            Ok(output) => {
                &&& field_removed(text@, name@) == Ok::<Seq<char>, Seq<char>>(output@)
                &&& fits(output@)
                &&& is_sound(text@) && name@ != "Package"@ ==> field_of(output@, name@) is None
            },
            Err(message) => field_removed(text@, name@) == Err::<Seq<char>, Seq<char>>(message@),
        },
        r is Ok <==> field_of(text@, name@) is Some,
{
    let edited = Document::parse(text).remove_all(name);
    edited.map(|document| document.to_string()).map_err(|error| error.to_string())
}

/// A character with a shape of its own in ASCII.
pub open spec fn is_graphic(c: char) -> bool {
    '!' <= c && c <= '~'
}

/// A letter or digit of ASCII.
pub open spec fn is_alphanumeric(c: char) -> bool {
    is_digit(c) || ('a' <= c && c <= 'z') || ('A' <= c && c <= 'Z')
}

/// A name that a field can have.
pub open spec fn valid_field_name(name: Seq<char>) -> bool {
    &&& name.len() > 0
    &&& is_alphanumeric(name[0])
    &&& forall|i: int| 1 <= i < name.len() ==> is_graphic(#[trigger] name[i]) && name[i] != ':'
}

/// A space or a tab.
pub open spec fn is_space(c: char) -> bool {
    c == ' ' || c == '\t'
}

/// A line that a value can have: nothing but itself in its place, and not a lone point
/// unless it is the first.
pub open spec fn valid_line(line: Seq<char>, first: bool) -> bool {
    &&& line.len() > 0 ==> !is_space(line[0]) && !is_space(line.last())
    &&& first || line != "."@
}

/// A value that a field can have.
pub open spec fn valid_value(value: Seq<char>) -> bool {
    &&& !value.contains('\r')
    &&& !value.contains('\0')
    &&& forall|i: int|
        0 <= i < split_on(value, '\n').len() ==> valid_line(
            #[trigger] split_on(value, '\n')[i],
            i == 0,
        )
}

/// Names and values.
pub open spec fn pair_views(v: Seq<(String, String)>) -> Seq<(Seq<char>, Seq<char>)> {
    v.map_values(|p: (String, String)| (p.0@, p.1@))
}

/// The fields can be written.
pub open spec fn valid_fields(fields: Seq<(Seq<char>, Seq<char>)>) -> bool {
    forall|i: int| 0 <= i < fields.len() ==> valid_field_name((#[trigger] fields[i]).0)
        && valid_value(fields[i].1)
}

/// The values have one line each.
pub open spec fn plain_fields(fields: Seq<(Seq<char>, Seq<char>)>) -> bool {
    forall|i: int| 0 <= i < fields.len() ==> !(#[trigger] fields[i]).1.contains('\n')
}

/// A field with a value of one line as it is written.
pub open spec fn field_text(field: (Seq<char>, Seq<char>)) -> Seq<char> {
    if field.1.len() == 0 {
        field.0 + ":"@
    } else {
        field.0 + ": "@ + field.1
    }
}

/// The number of bytes that fields may take.
pub open spec fn fields_size(fields: Seq<(Seq<char>, Seq<char>)>) -> int
    decreases fields.len(),
{
    if fields.len() == 0 {
        0
    } else {
        fields_size(fields.drop_last()) + encode_utf8(fields.last().0).len() + 3 * encode_utf8(
            fields.last().1,
        ).len() + 3
    }
}

/// No later field has the name of this one.
pub open spec fn is_last_of_name(fields: Seq<(Seq<char>, Seq<char>)>, i: int) -> bool {
    forall|j: int| i < j < fields.len() ==> (#[trigger] fields[j]).0 != fields[i].0
}

/// Some field has the name.
pub open spec fn names_field(fields: Seq<(Seq<char>, Seq<char>)>, name: Seq<char>) -> bool {
    exists|i: int| 0 <= i < fields.len() && (#[trigger] fields[i]).0 == name
}

/// Why a field cannot be written, if it cannot.
pub open spec fn field_failure(field: (Seq<char>, Seq<char>)) -> Option<Seq<char>> {
    if !valid_field_name(field.0) {
        Some("invalid DCF field name"@)
    } else if !valid_value(field.1) {
        Some(
            "logical DCF values cannot contain CR, NUL, surrounding horizontal whitespace, or a continued dot-only line"@,
        )
    } else {
        None
    }
}

/// Why the first field that cannot be written cannot be.
pub open spec fn fields_failure(fields: Seq<(Seq<char>, Seq<char>)>) -> Option<Seq<char>>
    decreases fields.len(),
{
    if fields.len() == 0 {
        None
    } else {
        match fields_failure(fields.drop_last()) {
            Some(message) => Some(message),
            None => field_failure(fields.last()),
        }
    }
}

/// The document that is built of fields.
pub uninterp spec fn built_document(fields: Seq<(Seq<char>, Seq<char>)>) -> Seq<char>;

/// `r_description::DescriptionBuilder::field` for each field, then `build`; before that the
/// names and values go through `FieldName::new` and `LogicalValue::new`, which refuse those
/// that cannot be written, with one message each. Lines end in line feeds. Values of one line are written one below
/// the other, without syntax errors, and are read back, the last of a name; a list that is
/// not among the fields is empty.
#[verifier::external_body]
pub(crate) fn build(fields: &Vec<(String, String)>) -> (r: Result<String, String>)
    requires
        fields_size(pair_views(fields@)) <= u32::MAX,
    ensures
        r is Ok <==> valid_fields(pair_views(fields@)),
        r matches Err(message) ==> fields_failure(pair_views(fields@)) == Some(message@),
        r matches Ok(output) ==> {
            let given = pair_views(fields@);
            &&& output@ == built_document(given)
            &&& fits(output@)
            &&& ends_lines_plainly(output@)
            &&& plain_fields(given) ==> {
                &&& output@ == joined(given.map_values(|f: (Seq<char>, Seq<char>)| field_text(f)), "\n"@)
                &&& diagnostics_of(output@).len() == 0
                &&& forall|i: int|
                    0 <= i < given.len() && #[trigger] is_last_of_name(given, i) ==> (field_of(
                        output@,
                        given[i].0,
                    ) matches Some(found) && found.message == given[i].1)
                &&& !names_field(given, "Imports"@) ==> holds_exactly(
                    imports_of(output@),
                    Seq::empty(),
                )
                &&& !names_field(given, "LinkingTo"@) ==> holds_exactly(
                    linking_to_of(output@),
                    Seq::empty(),
                )
            }
        },
{
    let mut builder = Document::builder();
    for (name, value) in fields {
        let name = FieldName::new(name).map_err(|error| error.to_string())?;
        let value = LogicalValue::new(value).map_err(|error| error.to_string())?;
        builder = builder.field(name, value);
    }
    Ok(builder.build().to_string())
}

/// Tests whether a document is within the size that the parser takes.
pub fn readable(text: &str) -> (r: bool)
    ensures
        r == fits(text@),
{
    text.as_bytes().len() as u64 <= 0xffff_ffff
}

/// Tests whether fields are within the size that a document can have.
pub(crate) fn fields_room(fields: &Vec<(String, String)>) -> (r: bool)
    ensures
        r == (fields_size(pair_views(fields@)) <= u32::MAX),
{
    let ghost all = pair_views(fields@);
    let limit: u64 = 0xffff_ffff;
    let mut total: u64 = 0;
    let mut i: usize = 0;
    assert(all.take(0) =~= Seq::<(Seq<char>, Seq<char>)>::empty());
    while i < fields.len()
        invariant
            i <= fields@.len(),
            all == pair_views(fields@),
            limit == 0xffff_ffff,
            total <= limit,
            total == fields_size(all.take(i as int)),
        decreases fields@.len() - i,
    {
        let a: usize = fields[i].0.as_str().as_bytes().len();
        let b: usize = fields[i].1.as_str().as_bytes().len();
        proof {
            assert(all[i as int] == (fields@[i as int].0@, fields@[i as int].1@));
            assert(all.take(i + 1).drop_last() =~= all.take(i as int));
            lemma_fields_size(all, i + 1);
        }
        if a as u64 > limit || b as u64 > limit {
            return false;
        }
        let more: u64 = a as u64 + 3 * (b as u64) + 3;
        if more > limit - total {
            return false;
        }
        total = total + more;
        i = i + 1;
    }
    assert(all.take(i as int) =~= all);
    true
}

proof fn lemma_fields_size(fields: Seq<(Seq<char>, Seq<char>)>, n: int)
    requires
        0 <= n <= fields.len(),
    ensures
        0 <= fields_size(fields.take(n)) <= fields_size(fields),
    decreases fields.len() - n,
{
    lemma_fields_positive(fields.take(n));
    if n < fields.len() {
        lemma_fields_size(fields, n + 1);
        assert(fields.take(n + 1).drop_last() =~= fields.take(n));
    } else {
        assert(fields.take(n) =~= fields);
    }
}

proof fn lemma_fields_positive(fields: Seq<(Seq<char>, Seq<char>)>)
    ensures
        0 <= fields_size(fields),
    decreases fields.len(),
{
    if fields.len() > 0 {
        lemma_fields_positive(fields.drop_last());
    }
}

/// The document that fields make, if they can be written and are not too large.
pub open spec fn written_document(fields: Seq<(Seq<char>, Seq<char>)>) -> Option<Seq<char>> {
    if fields_size(fields) <= u32::MAX && valid_fields(fields) {
        Some(built_document(fields))
    } else {
        None
    }
}

/// Why fields make no document.
pub open spec fn refusal(fields: Seq<(Seq<char>, Seq<char>)>) -> Seq<char> {
    if fields_size(fields) > u32::MAX {
        "DESCRIPTION is too large to write"@
    } else {
        fields_failure(fields)->0
    }
}

} // verus!
