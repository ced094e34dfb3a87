//! New projects.
use crate::cli::{InitArgs, InitLicense};
use crate::description::{
    add_dependencies, project_dependencies, project_fields, relation_issues, DependencyField,
    DependencyMutationError, Description, ErrorV,
};
use crate::document::{build, fields_room, fits, is_alphanumeric, pair_views, refusal, written_document};
use crate::listing::{replace, replaced_text};
use crate::lockfile::{Lockfile, Package};
use crate::metadata::{copy_relations, valid_package, Relation, RelationV};
use crate::path;
use crate::path::{child_of, components_of};
use crate::pin::{is_added, pin_dependency_to_resolved_major, pinned};
use crate::project::needed_packages;
use crate::resolution::description_place;
use crate::sorted::{collected, tied, SortedSet};
use crate::text;
use crate::text::{
    cut_at, decimal_text, has_prefix, is_control, is_white_space, joined, opt_text, split_on,
    texts, trimmed,
};
use vstd::prelude::*;

verus! {

/// What the build of a new package leaves out.
pub const RBUILDIGNORE: &'static str = "^rpx\\.lock$\n^.*\\.Rproj$\n^\\.Rproj\\.user$\n^README\\.Rmd$\n^LICENSE\\.md$\n^cran-comments\\.md$\n^CRAN-SUBMISSION$\n^CRAN-RELEASE$\n^revdep$\n^data-raw$\n^pkgdown$\n^_pkgdown\\.yml$\n^docs$\n^\\.github$\n^\\.vscode$\n^[.]?air[.]toml$\n";

/// The description of a new package for which none is given.
pub const DEFAULT_DESCRIPTION: &'static str = "Describe what this package does.";

/// The name of the author of a new package for which none is given.
pub const DEFAULT_AUTHOR_NAME: &'static str = "Package Author";

/// The address of the author of a new package for which none is given.
pub const DEFAULT_AUTHOR_EMAIL: &'static str = "author@example.com";

/// What is wrong with the name of a package.
#[derive(Clone, Copy, PartialEq, Eq, Structural, Debug)]
pub enum PackageNameIssue {
    TooShort,
    MustStartWithLetter,
    EndsWithDot,
    InvalidCharacters,
}

/// An issue in words.
pub open spec fn name_issue_text(issue: PackageNameIssue) -> Seq<char> {
    match issue {
        PackageNameIssue::TooShort => "must contain at least two characters"@,
        PackageNameIssue::MustStartWithLetter => "must start with an ASCII letter"@,
        PackageNameIssue::EndsWithDot => "must not end with a dot"@,
        PackageNameIssue::InvalidCharacters => {
            "may contain only ASCII letters, digits, and dots"@
        },
    }
}

impl PackageNameIssue {
    /// The issue in words.
    pub fn message(self) -> (r: &'static str)
        ensures
            r@ == name_issue_text(self),
    {
        match self {
            PackageNameIssue::TooShort => "must contain at least two characters",
            PackageNameIssue::MustStartWithLetter => "must start with an ASCII letter",
            PackageNameIssue::EndsWithDot => "must not end with a dot",
            PackageNameIssue::InvalidCharacters => {
                "may contain only ASCII letters, digits, and dots"
            },
        }
    }
}

/// A letter of ASCII.
pub open spec fn is_letter(c: char) -> bool {
    ('a' <= c && c <= 'z') || ('A' <= c && c <= 'Z')
}

fn letter(c: char) -> (r: bool)
    ensures
        r == is_letter(c),
{
    ('a' <= c && c <= 'z') || ('A' <= c && c <= 'Z')
}

/// A letter, a digit or a point.
pub open spec fn is_name_char(c: char) -> bool {
    is_alphanumeric(c) || c == '.'
}

/// All that is wrong with the name of a package.
pub open spec fn name_issues(name: Seq<char>) -> Seq<PackageNameIssue> {
    let a = if name.len() < 2 {
        seq![PackageNameIssue::TooShort]
    } else {
        Seq::empty()
    };
    let b = if name.len() == 0 || !is_letter(name[0]) {
        a.push(PackageNameIssue::MustStartWithLetter)
    } else {
        a
    };
    let c = if name.len() > 0 && name.last() == '.' {
        b.push(PackageNameIssue::EndsWithDot)
    } else {
        b
    };
    if forall|i: int| 0 <= i < name.len() ==> is_name_char(#[trigger] name[i]) {
        c
    } else {
        c.push(PackageNameIssue::InvalidCharacters)
    }
}

/// The name of a package that is none, and why.
#[derive(Debug)]
pub struct PackageNameValidationError {
    pub package_name: String,
    pub issues: Vec<PackageNameIssue>,
}

impl PackageNameValidationError {
    /// The issues in one line.
    pub fn inline_message(&self) -> (r: String)
        ensures
            r@ == joined(self.issues@.map_values(|i: PackageNameIssue| name_issue_text(i)), "; "@),
    {
        let ghost all = self.issues@.map_values(|i: PackageNameIssue| name_issue_text(i));
        let mut parts: Vec<String> = Vec::new();
        let mut i: usize = 0;
        while i < self.issues.len()
            invariant
                i <= self.issues@.len(),
                all == self.issues@.map_values(|i: PackageNameIssue| name_issue_text(i)),
                parts@.len() == i,
                forall|k: int| 0 <= k < i ==> (#[trigger] parts@[k])@ == all[k],
            decreases self.issues@.len() - i,
        {
            parts.push(self.issues[i].message().to_owned());
            i = i + 1;
        }
        assert(texts(parts@) =~= all);
        text::join(&parts, "; ")
    }
}

/// Checks the name of a package.
pub fn validate_package_name(package_name: &str) -> (r: Result<(), PackageNameValidationError>)
    ensures
        match r {
            Ok(_) => name_issues(package_name@).len() == 0,
            Err(error) => name_issues(package_name@).len() > 0 && error.package_name@
                == package_name@ && error.issues@ == name_issues(package_name@),
        },
{
    let v = text::chars_of(package_name);
    let mut issues: Vec<PackageNameIssue> = Vec::new();
    if v.len() < 2 {
        issues.push(PackageNameIssue::TooShort);
        assert(issues@ =~= seq![PackageNameIssue::TooShort]);
    }
    if v.len() == 0 || !letter(v[0]) {
        issues.push(PackageNameIssue::MustStartWithLetter);
    }
    if v.len() > 0 && v[v.len() - 1] == '.' {
        issues.push(PackageNameIssue::EndsWithDot);
    }
    let mut plain = true;
    let mut i: usize = 0;
    while i < v.len()
        invariant
            i <= v@.len(),
            plain == forall|k: int| 0 <= k < i ==> is_name_char(#[trigger] v@[k]),
        decreases v@.len() - i,
    {
        let c: char = v[i];
        if !(text::digit(c) || letter(c) || c == '.') {
            assert(!is_name_char(v@[i as int]));
            plain = false;
        }
        i = i + 1;
    }
    if !plain {
        issues.push(PackageNameIssue::InvalidCharacters);
    }
    if issues.len() == 0 {
        Ok(())
    } else {
        Err(PackageNameValidationError { package_name: package_name.to_owned(), issues })
    }
}

/// What is wrong with a line of text.
#[derive(Clone, Copy, PartialEq, Eq, Structural, Debug)]
pub enum TextIssue {
    Empty,
    ControlCharacters,
}

/// An issue in words.
pub open spec fn text_issue_text(issue: TextIssue) -> Seq<char> {
    match issue {
        TextIssue::Empty => "must not be empty"@,
        TextIssue::ControlCharacters => "must be a single line without control characters"@,
    }
}

impl TextIssue {
    /// The issue in words.
    pub fn message(self) -> (r: &'static str)
        ensures
            r@ == text_issue_text(self),
    {
        match self {
            TextIssue::Empty => "must not be empty",
            TextIssue::ControlCharacters => "must be a single line without control characters",
        }
    }
}

/// All that is wrong with a line of text.
pub open spec fn text_issues(value: Seq<char>) -> Seq<TextIssue> {
    let a = if trimmed(value).len() == 0 {
        seq![TextIssue::Empty]
    } else {
        Seq::empty()
    };
    if exists|i: int| 0 <= i < value.len() && is_control(#[trigger] value[i]) {
        a.push(TextIssue::ControlCharacters)
    } else {
        a
    }
}

fn find_text_issues(value: &str) -> (r: Vec<TextIssue>)
    ensures
        r@ == text_issues(value@),
{
    let mut issues: Vec<TextIssue> = Vec::new();
    if text::trim(value).as_str().is_empty() {
        issues.push(TextIssue::Empty);
        assert(issues@ =~= seq![TextIssue::Empty]);
    }
    let v = text::chars_of(value);
    let mut found = false;
    let mut i: usize = 0;
    while i < v.len()
        invariant
            i <= v@.len(),
            v@ == value@,
            found == exists|k: int| 0 <= k < i && is_control(#[trigger] value@[k]),
        decreases v@.len() - i,
    {
        if text::control(v[i]) {
            assert(is_control(value@[i as int]));
            found = true;
        }
        i = i + 1;
    }
    if found {
        issues.push(TextIssue::ControlCharacters);
    }
    issues
}

fn issue_line(issues: &Vec<TextIssue>) -> (r: String)
    ensures
        r@ == joined(issues@.map_values(|i: TextIssue| text_issue_text(i)), "; "@),
{
    let ghost all = issues@.map_values(|i: TextIssue| text_issue_text(i));
    let mut parts: Vec<String> = Vec::new();
    let mut i: usize = 0;
    while i < issues.len()
        invariant
            i <= issues@.len(),
            all == issues@.map_values(|i: TextIssue| text_issue_text(i)),
            parts@.len() == i,
            forall|k: int| 0 <= k < i ==> (#[trigger] parts@[k])@ == all[k],
        decreases issues@.len() - i,
    {
        parts.push(issues[i].message().to_owned());
        i = i + 1;
    }
    assert(texts(parts@) =~= all);
    text::join(&parts, "; ")
}

/// The name of an author that is none, and why.
#[derive(Debug)]
pub struct AuthorNameValidationError {
    pub author_name: String,
    pub issues: Vec<TextIssue>,
}

impl AuthorNameValidationError {
    /// The issues in one line.
    pub fn inline_message(&self) -> (r: String)
        ensures
            r@ == joined(self.issues@.map_values(|i: TextIssue| text_issue_text(i)), "; "@),
    {
        issue_line(&self.issues)
    }
}

/// Checks the name of an author.
pub fn validate_author_name(author_name: &str) -> (r: Result<(), AuthorNameValidationError>)
    ensures
        match r {
            Ok(_) => text_issues(author_name@).len() == 0,
            Err(error) => text_issues(author_name@).len() > 0 && error.author_name@ == author_name@
                && error.issues@ == text_issues(author_name@),
        },
{
    let issues = find_text_issues(author_name);
    if issues.len() == 0 {
        Ok(())
    } else {
        Err(AuthorNameValidationError { author_name: author_name.to_owned(), issues })
    }
}

/// A line of a description.
#[derive(Clone, Copy, PartialEq, Eq, Structural, Debug)]
pub enum TextField {
    Title,
    Description,
}

impl TextField {
    /// How the line is called.
    pub fn name(self) -> (r: &'static str)
        ensures
            r@ == match self {
                TextField::Title => "package title"@,
                TextField::Description => "package description"@,
            },
    {
        match self {
            TextField::Title => "package title",
            TextField::Description => "package description",
        }
    }
}

/// A line of a description that cannot be one, and why.
#[derive(Debug)]
pub struct TextValidationError {
    pub field: TextField,
    pub issues: Vec<TextIssue>,
}

impl TextValidationError {
    /// The issues in one line.
    pub fn inline_message(&self) -> (r: String)
        ensures
            r@ == joined(self.issues@.map_values(|i: TextIssue| text_issue_text(i)), "; "@),
    {
        issue_line(&self.issues)
    }
}

/// Checks a line of a description.
pub fn validate_text(value: &str, field: TextField) -> (r: Result<(), TextValidationError>)
    ensures
        match r {
            Ok(_) => text_issues(value@).len() == 0,
            Err(error) => text_issues(value@).len() > 0 && error.field == field && error.issues@
                == text_issues(value@),
        },
{
    let issues = find_text_issues(value);
    if issues.len() == 0 {
        Ok(())
    } else {
        Err(TextValidationError { field, issues })
    }
}

/// A character of ASCII.
pub open spec fn is_ascii_char(c: char) -> bool {
    c as u32 <= 0x7f
}

/// A character that an address cannot have.
pub open spec fn is_foreign_to_email(c: char) -> bool {
    !is_ascii_char(c) || is_white_space(c) || is_control(c)
}

/// Why a text is no address.
pub open spec fn email_fault(email: Seq<char>) -> Option<Seq<char>> {
    let address = trimmed(email);
    match cut_at(address, '@') {
        None => Some("must contain an @ separating local and domain parts"@),
        Some((local, domain)) => if local.len() == 0 || domain.len() == 0 {
            Some("must contain non-empty local and domain parts"@)
        } else if domain.contains('@') {
            Some("must contain exactly one @"@)
        } else if exists|i: int| 0 <= i < address.len() && is_foreign_to_email(#[trigger] address[i]) {
            Some("must be an ASCII address without whitespace or control characters"@)
        } else {
            None
        },
    }
}

/// The reason that may be there.
pub open spec fn opt_reason(r: Option<&'static str>) -> Option<Seq<char>> {
    match r {
        Some(reason) => Some(reason@),
        None => None,
    }
}

/// Why a text is no address.
pub fn author_email_validation_reason(author_email: &str) -> (r: Option<&'static str>)
    ensures
        opt_reason(r) == email_fault(author_email@),
{
    let address = text::trim(author_email);
    let (local, domain): (String, String) = match text::split_once(address.as_str(), '@') {
        Some(parts) => parts,
        None => {
            return Some("must contain an @ separating local and domain parts");
        },
    };
    if local.as_str().is_empty() || domain.as_str().is_empty() {
        return Some("must contain non-empty local and domain parts");
    }
    if text::contains_char(domain.as_str(), '@') {
        return Some("must contain exactly one @");
    }
    let v = text::chars_of(address.as_str());
    let mut i: usize = 0;
    while i < v.len()
        invariant
            i <= v@.len(),
            v@ == address@,
            address@ == trimmed(author_email@),
            cut_at(address@, '@') == Some((local@, domain@)),
            local@.len() > 0,
            domain@.len() > 0,
            !domain@.contains('@'),
            forall|k: int| 0 <= k < i ==> !is_foreign_to_email(#[trigger] address@[k]),
        decreases v@.len() - i,
    {
        let c: char = v[i];
        if c as u32 > 0x7f || text::white_space(c) || text::control(c) {
            assert(is_foreign_to_email(address@[i as int]));
            return Some("must be an ASCII address without whitespace or control characters");
        }
        i = i + 1;
    }
    None
}

/// A letter in upper case.
pub open spec fn upper(c: char) -> char {
    if 'a' <= c && c <= 'z' {
        (c as u32 - 32) as char
    } else {
        c
    }
}

fn to_upper(c: char) -> (r: char)
    ensures
        r == upper(c),
{
    if 'a' <= c && c <= 'z' {
        let n: u8 = c as u8 - 32;
        n as char
    } else {
        c
    }
}

/// The words of a title: the parts of a name, each with its first letter in upper case.
pub open spec fn title_words(parts: Seq<Seq<char>>) -> Seq<Seq<char>>
    decreases parts.len(),
{
    if parts.len() == 0 {
        Seq::empty()
    } else {
        let rest = title_words(parts.drop_last());
        let part = parts.last();
        if part.len() == 0 {
            rest
        } else {
            rest.push(seq![upper(part[0])] + part.skip(1))
        }
    }
}

/// The title of a package by its name.
pub fn title_from_package_name(package_name: &str) -> (r: String)
    ensures
        r@ == joined(title_words(split_on(package_name@, '.')), " "@),
{
    let parts = text::split(package_name, '.');
    let ghost all = texts(parts@);
    let mut words: Vec<String> = Vec::new();
    let mut i: usize = 0;
    assert(all.take(0) =~= Seq::<Seq<char>>::empty());
    assert(texts(words@) =~= Seq::<Seq<char>>::empty());
    while i < parts.len()
        invariant
            i <= parts@.len(),
            all == texts(parts@),
            texts(words@) == title_words(all.take(i as int)),
        decreases parts@.len() - i,
    {
        assert(all.take(i + 1).drop_last() =~= all.take(i as int));
        assert(all[i as int] == parts@[i as int]@);
        let v = text::chars_of(parts[i].as_str());
        if v.len() > 0 {
            let ghost before = words@;
            let mut word = String::new();
            word.push(to_upper(v[0]));
            let rest = text::string_of(&v, 1, v.len());
            word.push_str(rest.as_str());
            assert(word@ =~= seq![upper(v@[0])] + v@.skip(1));
            words.push(word);
            assert(texts(words@) =~= texts(before).push(word@));
        }
        i = i + 1;
    }
    assert(all.take(i as int) =~= all);
    text::join(&words, " ")
}

/// The name of the directory that a path leads to.
pub open spec fn directory_name(path: Seq<char>) -> Option<Seq<char>> {
    let parts = components_of(path);
    if parts.len() == 0 || parts.last() == ".."@ || parts.last() == "."@ {
        None
    } else {
        Some(parts.last())
    }
}

fn find_directory_name(path: &str) -> (r: Option<String>)
    ensures
        text::opt_text(r) == directory_name(path@),
{
    let mut parts = path::components(path);
    let ghost all = texts(parts@);
    assert(all.len() == parts@.len());
    match parts.pop() {
        None => None,
        Some(name) => {
            assert(name@ == all.last());
            if text::same(name.as_str(), "..") || text::same(name.as_str(), ".") {
                None
            } else {
                Some(name)
            }
        },
    }
}

/// What a character of the name of a directory becomes in the name of a package.
pub open spec fn name_char(c: char) -> Option<char> {
    if is_alphanumeric(c) {
        Some(c)
    } else if c == '-' || c == '_' || c == ' ' || c == '.' {
        Some('.')
    } else {
        None
    }
}

/// The characters of a name, without two points in a row.
pub open spec fn name_chars(s: Seq<char>) -> Seq<char>
    decreases s.len(),
{
    if s.len() == 0 {
        Seq::empty()
    } else {
        let rest = name_chars(s.drop_last());
        match name_char(s.last()) {
            None => rest,
            Some(c) => if c == '.' && rest.len() > 0 && rest.last() == '.' {
                rest
            } else {
                rest.push(c)
            },
        }
    }
}

/// A text without points at its start.
pub open spec fn undotted_start(s: Seq<char>) -> Seq<char>
    decreases s.len(),
{
    if s.len() > 0 && s[0] == '.' {
        undotted_start(s.skip(1))
    } else {
        s
    }
}

/// A text without points at its end.
pub open spec fn undotted_end(s: Seq<char>) -> Seq<char>
    decreases s.len(),
{
    if s.len() > 0 && s.last() == '.' {
        undotted_end(s.drop_last())
    } else {
        s
    }
}

/// The name of a package by the name of a directory.
pub open spec fn package_name_of(directory: Seq<char>) -> Seq<char> {
    undotted_end(undotted_start(name_chars(directory)))
}

fn make_package_name(directory: &str) -> (r: String)
    ensures
        r@ == package_name_of(directory@),
{
    let v = text::chars_of(directory);
    let mut out: Vec<char> = Vec::new();
    let mut i: usize = 0;
    assert(v@.take(0) =~= Seq::<char>::empty());
    while i < v.len()
        invariant
            i <= v@.len(),
            v@ == directory@,
            out@ == name_chars(v@.take(i as int)),
        decreases v@.len() - i,
    {
        let c: char = v[i];
        assert(v@.take(i + 1).drop_last() =~= v@.take(i as int));
        assert(v@.take(i + 1).last() == c);
        if text::digit(c) || letter(c) {
            out.push(c);
        } else if c == '-' || c == '_' || c == ' ' || c == '.' {
            if !(out.len() > 0 && out[out.len() - 1] == '.') {
                out.push('.');
            }
        }
        i = i + 1;
    }
    assert(v@.take(i as int) =~= directory@);
    let mut a: usize = 0;
    assert(out@.skip(0) =~= out@);
    while a < out.len() && out[a] == '.'
        invariant
            a <= out@.len(),
            undotted_start(out@) == undotted_start(out@.skip(a as int)),
        decreases out@.len() - a,
    {
        assert(out@.skip(a as int).skip(1) =~= out@.skip(a + 1));
        a = a + 1;
    }
    let mut b: usize = out.len();
    assert(out@.subrange(a as int, b as int) =~= out@.skip(a as int));
    while b > a && out[b - 1] == '.'
        invariant
            a <= b <= out@.len(),
            undotted_end(out@.skip(a as int)) == undotted_end(out@.subrange(a as int, b as int)),
        decreases b,
    {
        assert(out@.subrange(a as int, b as int).drop_last() =~= out@.subrange(a as int, b - 1));
        b = b - 1;
    }
    text::string_of(&out, a, b)
}

/// Why a project cannot be made.
#[derive(Debug)]
pub enum InitError {
    TargetNotDirectory { path: String },
    ReadTarget { path: String, details: String },
    TargetNotEmpty { path: String },
    InvalidPackageName(PackageNameValidationError),
    InvalidAuthorName(AuthorNameValidationError),
    InvalidText(TextValidationError),
    InvalidAuthorEmail { author_email: String, reason: &'static str },
    MissingDirectoryName { path: String },
    InvalidDirectoryName { path: String },
    ProjectNameGeneration,
    InitialDescription { details: String },
}

/// Why a project cannot be made.
pub enum InitFaultV {
    TargetNotDirectory(Seq<char>),
    ReadTarget(Seq<char>, Seq<char>),
    TargetNotEmpty(Seq<char>),
    InvalidPackageName(Seq<char>, Seq<PackageNameIssue>),
    InvalidAuthorName(Seq<char>, Seq<TextIssue>),
    InvalidText(TextField, Seq<TextIssue>),
    InvalidAuthorEmail(Seq<char>, Seq<char>),
    MissingDirectoryName(Seq<char>),
    InvalidDirectoryName(Seq<char>),
    ProjectNameGeneration,
    InitialDescription(Seq<char>),
}

impl InitError {
    /// The error, as characters.
    pub open spec fn view(&self) -> InitFaultV {
        match self {
            InitError::TargetNotDirectory { path } => InitFaultV::TargetNotDirectory(path@),
            InitError::ReadTarget { path, details } => InitFaultV::ReadTarget(path@, details@),
            InitError::TargetNotEmpty { path } => InitFaultV::TargetNotEmpty(path@),
            InitError::InvalidPackageName(error) => InitFaultV::InvalidPackageName(
                error.package_name@,
                error.issues@,
            ),
            InitError::InvalidAuthorName(error) => InitFaultV::InvalidAuthorName(
                error.author_name@,
                error.issues@,
            ),
            InitError::InvalidText(error) => InitFaultV::InvalidText(error.field, error.issues@),
            InitError::InvalidAuthorEmail { author_email, reason } => {
                InitFaultV::InvalidAuthorEmail(author_email@, reason@)
            },
            InitError::MissingDirectoryName { path } => InitFaultV::MissingDirectoryName(path@),
            InitError::InvalidDirectoryName { path } => InitFaultV::InvalidDirectoryName(path@),
            InitError::ProjectNameGeneration => InitFaultV::ProjectNameGeneration,
            InitError::InitialDescription { details } => InitFaultV::InitialDescription(details@),
        }
    }
}

/// The name of a package, or what is wrong with it.
pub open spec fn checked_name(name: Seq<char>) -> Result<Seq<char>, InitFaultV> {
    if name_issues(name).len() == 0 {
        Ok(name)
    } else {
        Err(InitFaultV::InvalidPackageName(name, name_issues(name)))
    }
}

/// The name of the package of a directory.
pub open spec fn derived_name(path: Seq<char>) -> Result<Seq<char>, InitFaultV> {
    match directory_name(path) {
        None => Err(InitFaultV::MissingDirectoryName(path)),
        Some(directory) => checked_name(package_name_of(directory)),
    }
}

/// A result that holds a text.
pub open spec fn text_result(r: Result<String, InitError>) -> Result<Seq<char>, InitFaultV> {
    match r {
        Ok(text) => Ok(text@),
        Err(error) => Err(error@),
    }
}

/// The name of the package of a directory.
pub fn derive_package_name(path: &str) -> (r: Result<String, InitError>)
    ensures
        text_result(r) == derived_name(path@),
{
    let directory = match find_directory_name(path) {
        Some(directory) => directory,
        None => {
            return Err(InitError::MissingDirectoryName { path: path.to_owned() });
        },
    };
    let name = make_package_name(directory.as_str());
    match validate_package_name(name.as_str()) {
        Ok(_) => Ok(name),
        Err(error) => Err(InitError::InvalidPackageName(error)),
    }
}

/// A line of text without the white space around it, or what is wrong with it.
pub open spec fn checked_text(value: Seq<char>, field: TextField) -> Result<Seq<char>, InitFaultV> {
    if text_issues(value).len() == 0 {
        Ok(trimmed(value))
    } else {
        Err(InitFaultV::InvalidText(field, text_issues(value)))
    }
}

/// A line of a description that was checked.
pub fn validated_text(value: String, field: TextField) -> (r: Result<String, InitError>)
    ensures
        text_result(r) == checked_text(value@, field),
{
    match validate_text(value.as_str(), field) {
        Ok(_) => Ok(text::trim(value.as_str())),
        Err(error) => Err(InitError::InvalidText(error)),
    }
}

/// The name of an author without the white space around it, or what is wrong with it.
pub open spec fn checked_author(name: Seq<char>) -> Result<Seq<char>, InitFaultV> {
    if text_issues(name).len() == 0 {
        Ok(trimmed(name))
    } else {
        Err(InitFaultV::InvalidAuthorName(name, text_issues(name)))
    }
}

/// The name of an author that was checked.
pub fn validated_author_name(author_name: String) -> (r: Result<String, InitError>)
    ensures
        text_result(r) == checked_author(author_name@),
{
    match validate_author_name(author_name.as_str()) {
        Ok(_) => Ok(text::trim(author_name.as_str())),
        Err(error) => Err(InitError::InvalidAuthorName(error)),
    }
}

/// An address without the white space around it, or what is wrong with it.
pub open spec fn checked_email(email: Seq<char>) -> Result<Seq<char>, InitFaultV> {
    let address = trimmed(email);
    match email_fault(address) {
        None => Ok(address),
        Some(reason) => Err(InitFaultV::InvalidAuthorEmail(address, reason)),
    }
}

/// An address that was checked.
pub fn validate_author_email(author_email: String) -> (r: Result<String, InitError>)
    ensures
        text_result(r) == checked_email(author_email@),
{
    let author_email = text::trim(author_email.as_str());
    match author_email_validation_reason(author_email.as_str()) {
        Some(reason) => Err(InitError::InvalidAuthorEmail { author_email, reason }),
        None => Ok(author_email),
    }
}

/// A text as a string of R.
pub open spec fn quoted(value: Seq<char>) -> Seq<char> {
    "\""@ + replaced_text(replaced_text(value, "\\"@, "\\\\"@), "\""@, "\\\""@) + "\""@
}

/// A text as a string of R.
pub fn r_string(value: &str) -> (r: String)
    ensures
        r@ == quoted(value@),
{
    let first = replace(value, "\\", "\\\\");
    let second = replace(first.as_str(), "\"", "\\\"");
    text::cat3("\"", second.as_str(), "\"")
}

/// The author of a package as R writes persons.
pub open spec fn person_text(name: Seq<char>, email: Seq<char>) -> Seq<char> {
    "person(given = "@ + quoted(name) + ", email = "@ + quoted(email)
        + ", role = c(\"aut\", \"cre\"))"@
}

/// The author of a package as R writes persons.
pub fn authors_at_r(author_name: &str, author_email: &str) -> (r: String)
    ensures
        r@ == person_text(author_name@, author_email@),
{
    let name = r_string(author_name);
    let email = r_string(author_email);
    let mut out = text::cat4("person(given = ", name.as_str(), ", email = ", email.as_str());
    out.push_str(", role = c(\"aut\", \"cre\"))");
    out
}

/// How a license is named in a description.
pub open spec fn license_value(license: InitLicense) -> Seq<char> {
    match license {
        InitLicense::Mit => "MIT + file LICENSE"@,
        InitLicense::Apache2 => "Apache License (== 2.0)"@,
        InitLicense::Gpl2 => "GPL-2"@,
        InitLicense::Gpl3 => "GPL-3"@,
        InitLicense::Agpl3 => "AGPL-3"@,
        InitLicense::Lgpl21 => "LGPL-2.1"@,
        InitLicense::Lgpl3 => "LGPL-3"@,
        InitLicense::Cc0 => "CC0"@,
        InitLicense::CcBy4 => "CC BY 4.0"@,
        InitLicense::Proprietary => "file LICENSE"@,
    }
}

impl InitLicense {
    /// How the license is named in a description.
    pub fn description_value(self) -> (r: &'static str)
        ensures
            r@ == license_value(self),
    {
        match self {
            InitLicense::Mit => "MIT + file LICENSE",
            InitLicense::Apache2 => "Apache License (== 2.0)",
            InitLicense::Gpl2 => "GPL-2",
            InitLicense::Gpl3 => "GPL-3",
            InitLicense::Agpl3 => "AGPL-3",
            InitLicense::Lgpl21 => "LGPL-2.1",
            InitLicense::Lgpl3 => "LGPL-3",
            InitLicense::Cc0 => "CC0",
            InitLicense::CcBy4 => "CC BY 4.0",
            InitLicense::Proprietary => "file LICENSE",
        }
    }
}

/// The files of a license: their names and contents.
pub open spec fn license_file_texts(
    license: InitLicense,
    year: nat,
    holder: Seq<char>,
    template: Seq<char>,
) -> Seq<(Seq<char>, Seq<char>)> {
    let digits = decimal_text(year);
    match license {
        InitLicense::Mit => seq![
            ("LICENSE"@, "YEAR: "@ + digits + "\nCOPYRIGHT HOLDER: "@ + holder + "\n"@),
            (
                "LICENSE.md"@,
                replaced_text(
                    replaced_text(template, "{{{year}}}"@, digits),
                    "{{{copyright_holder}}}"@,
                    holder,
                ),
            ),
        ],
        InitLicense::Proprietary => seq![
            (
                "LICENSE"@,
                "Copyright "@ + digits + " "@ + holder + ". All rights reserved.\n"@,
            ),
        ],
        _ => seq![("LICENSE.md"@, template)],
    }
}

/// The files of a license; the template is its full text.
pub fn license_files(license: InitLicense, year: u64, holder: &str, template: &str) -> (r: Vec<
    (String, String),
>)
    ensures
        pair_views(r@) == license_file_texts(license, year as nat, holder@, template@),
{
    let digits = text::decimal(year);
    let mut files: Vec<(String, String)> = Vec::new();
    match license {
        InitLicense::Mit => {
            let mut short = text::cat4("YEAR: ", digits.as_str(), "\nCOPYRIGHT HOLDER: ", holder);
            short.push_str("\n");
            let dated = replace(template, "{{{year}}}", digits.as_str());
            let full = replace(dated.as_str(), "{{{copyright_holder}}}", holder);
            files.push(("LICENSE".to_owned(), short));
            files.push(("LICENSE.md".to_owned(), full));
        },
        InitLicense::Proprietary => {
            let mut short = text::cat4("Copyright ", digits.as_str(), " ", holder);
            short.push_str(". All rights reserved.\n");
            files.push(("LICENSE".to_owned(), short));
        },
        _ => {
            files.push(("LICENSE.md".to_owned(), template.to_owned()));
        },
    }
    assert(pair_views(files@) =~= license_file_texts(license, year as nat, holder@, template@));
    files
}

/// A package that helps in the development of packages.
#[derive(Clone, Copy, PartialEq, Eq, Structural, Debug)]
pub enum DevelopmentPackage {
    Testthat,
    Roxygen2,
    Devtools,
}

/// The name of such a package.
pub open spec fn development_name(package: DevelopmentPackage) -> Seq<char> {
    match package {
        DevelopmentPackage::Testthat => "testthat"@,
        DevelopmentPackage::Roxygen2 => "roxygen2"@,
        DevelopmentPackage::Devtools => "devtools"@,
    }
}

impl DevelopmentPackage {
    /// The name of the package.
    pub fn name(self) -> (r: &'static str)
        ensures
            r@ == development_name(self),
            valid_package(r@),
    {
        proof {
            reveal_strlit("testthat");
            reveal_strlit("roxygen2");
            reveal_strlit("devtools");
        }
        match self {
            DevelopmentPackage::Testthat => "testthat",
            DevelopmentPackage::Roxygen2 => "roxygen2",
            DevelopmentPackage::Devtools => "devtools",
        }
    }
}

/// The relations to packages, in any version.
pub open spec fn open_relations(packages: Seq<DevelopmentPackage>) -> Seq<RelationV> {
    packages.map_values(
        |p: DevelopmentPackage| RelationV { package: development_name(p), requirement: None },
    )
}

/// The relations to the chosen packages, each in any version.
pub fn development_relations(packages: &Vec<DevelopmentPackage>) -> (r: SortedSet<Relation>)
    ensures
        r.wf(),
        r@ == collected(open_relations(packages@)),
{
    let ghost all = open_relations(packages@);
    let mut set: SortedSet<Relation> = SortedSet::new();
    let mut i: usize = 0;
    assert(all.take(0) =~= Seq::<RelationV>::empty());
    while i < packages.len()
        invariant
            i <= packages@.len(),
            all == open_relations(packages@),
            set.wf(),
            set@ == collected(all.take(i as int)),
        decreases packages@.len() - i,
    {
        assert(all.take(i + 1).drop_last() =~= all.take(i as int));
        set.replace(Relation::any(packages[i].name().to_owned()));
        i = i + 1;
    }
    assert(all.take(i as int) =~= all);
    set
}

/// What the description of a new package says.
#[derive(Debug)]
pub struct InitialDescriptionOptions {
    pub package_name: String,
    pub title: String,
    pub description: String,
    pub authors_at_r: String,
    pub author: String,
    pub maintainer: String,
    pub license: String,
}

/// The fields of the description of a new package.
pub open spec fn initial_fields(options: InitialDescriptionOptions) -> Seq<(Seq<char>, Seq<char>)> {
    seq![
        ("Package"@, options.package_name@),
        ("Version"@, "0.1.0"@),
        ("Title"@, options.title@),
        ("Description"@, options.description@),
        ("License"@, options.license@),
        ("Authors@R"@, options.authors_at_r@),
        ("Author"@, options.author@),
        ("Maintainer"@, options.maintainer@),
    ]
}

/// The description of a new package.
pub fn initial_description(options: InitialDescriptionOptions) -> (r: Result<Description, InitError>)
    ensures
        match r {
            Ok(description) => written_document(initial_fields(options)) == Some(description@)
                && fits(description@),
            Err(error) => written_document(initial_fields(options)) is None && error@
                == InitFaultV::InitialDescription(refusal(initial_fields(options))),
        },
{
    let ghost given = initial_fields(options);
    let mut fields: Vec<(String, String)> = Vec::new();
    fields.push(("Package".to_owned(), options.package_name));
    fields.push(("Version".to_owned(), "0.1.0".to_owned()));
    fields.push(("Title".to_owned(), options.title));
    fields.push(("Description".to_owned(), options.description));
    fields.push(("License".to_owned(), options.license));
    fields.push(("Authors@R".to_owned(), options.authors_at_r));
    fields.push(("Author".to_owned(), options.author));
    fields.push(("Maintainer".to_owned(), options.maintainer));
    assert(pair_views(fields@) =~= given);
    if !fields_room(&fields) {
        return Err(
            InitError::InitialDescription {
                details: "DESCRIPTION is too large to write".to_owned(),
            },
        );
    }
    match build(&fields) {
        Ok(text) => Ok(Description { text }),
        Err(details) => Err(InitError::InitialDescription { details }),
    }
}

/// The directory that a project is made in.
pub open spec fn target_of(current: Seq<char>, path: Seq<char>) -> Seq<char> {
    if has_prefix(path, "/"@) {
        path
    } else {
        child_of(current, path)
    }
}

/// The directory that a project is made in.
pub fn resolve_target(current_dir: &str, path: &str) -> (r: String)
    ensures
        r@ == target_of(current_dir@, path@),
{
    if text::starts_with(path, "/") {
        path.to_owned()
    } else {
        path::child(current_dir, path)
    }
}

/// What is found at the directory of a new project.
#[derive(Debug)]
pub enum TargetState {
    Missing,
    Empty,
    NotEmpty,
    NotADirectory,
    Unreadable { details: String },
}

/// Checks what is at the directory of a new project: nothing may be there, or an empty
/// directory.
pub fn validate_target(target: &str, state: TargetState) -> (r: Result<(), InitError>)
    ensures
        match state {
            TargetState::Missing => r is Ok,
            TargetState::Empty => r is Ok,
            TargetState::NotEmpty => r matches Err(error) && error@ == InitFaultV::TargetNotEmpty(
                target@,
            ),
            TargetState::NotADirectory => r matches Err(error) && error@
                == InitFaultV::TargetNotDirectory(target@),
            TargetState::Unreadable { details } => r matches Err(error) && error@
                == InitFaultV::ReadTarget(target@, details@),
        },
{
    match state {
        TargetState::Missing => Ok(()),
        TargetState::Empty => Ok(()),
        TargetState::NotEmpty => Err(InitError::TargetNotEmpty { path: target.to_owned() }),
        TargetState::NotADirectory => Err(
            InitError::TargetNotDirectory { path: target.to_owned() },
        ),
        TargetState::Unreadable { details } => Err(
            InitError::ReadTarget { path: target.to_owned(), details },
        ),
    }
}

/// A word of small letters.
pub open spec fn is_small_word(s: Seq<char>) -> bool {
    s.len() > 0 && forall|i: int| 0 <= i < s.len() ==> 'a' <= #[trigger] s[i] && s[i] <= 'z'
}

/// Two words of small letters with a hyphen between them.
pub open spec fn is_suggestion(name: Seq<char>) -> bool {
    let words = split_on(name, '-');
    words.len() == 2 && is_small_word(words[0]) && is_small_word(words[1])
}

fn small_word(s: &str) -> (r: bool)
    ensures
        r == is_small_word(s@),
{
    let v = text::chars_of(s);
    if v.len() == 0 {
        return false;
    }
    let mut i: usize = 0;
    while i < v.len()
        invariant
            i <= v@.len(),
            v@ == s@,
            forall|k: int| 0 <= k < i ==> 'a' <= #[trigger] s@[k] && s@[k] <= 'z',
        decreases v@.len() - i,
    {
        if !('a' <= v[i] && v[i] <= 'z') {
            assert(!('a' <= s@[i as int] && s@[i as int] <= 'z'));
            return false;
        }
        i = i + 1;
    }
    true
}

/// `petname::petname`: a name of a number of random words with a separator between them, if
/// one can be made. Nothing is known of it.
#[verifier::external_body]
fn random_name(words: u8, separator: &str) -> (r: Option<String>)
{
    petname::petname(words, separator)
}

/// A random name for a directory, unless the name is not of the expected form.
pub fn suggested_name() -> (r: Option<String>)
    ensures
        r matches Some(name) ==> is_suggestion(name@),
{
    match random_name(2, "-") {
        Some(name) => accepted_suggestion(name),
        None => None,
    }
}

/// The name, if it has the form of a suggestion.
pub fn accepted_suggestion(name: String) -> (r: Option<String>)
    ensures
        r == if is_suggestion(name@) {
            Some(name)
        } else {
            None
        },
{
    let words = text::split(name.as_str(), '-');
    let ghost all = texts(words@);
    assert(all.len() == words@.len());
    if words.len() != 2 {
        return None;
    }
    assert(all[0] == words@[0]@ && all[1] == words@[1]@);
    if small_word(words[0].as_str()) && small_word(words[1].as_str()) {
        Some(name)
    } else {
        None
    }
}

/// A new project that is ready to be written.
#[derive(Debug)]
pub struct InitPlan {
    pub package_name: String,
    pub author_name: String,
    pub license: InitLicense,
    pub options: InitialDescriptionOptions,
}

/// What is said of a new package, given or by default.
pub struct InitPlanV {
    pub name: Seq<char>,
    pub title: Seq<char>,
    pub description: Seq<char>,
    pub author: Seq<char>,
    pub email: Seq<char>,
    pub license: InitLicense,
}

/// What is said of a new package, or the first fault of what is given.
pub open spec fn init_plan(args: InitArgs, target: Seq<char>) -> Result<InitPlanV, InitFaultV> {
    let name = match args.name {
        Some(name) => checked_name(name@),
        None => derived_name(target),
    };
    match name {
        Err(fault) => Err(fault),
        Ok(name) => {
            let title = match args.title {
                Some(title) => checked_text(title@, TextField::Title),
                None => Ok(joined(title_words(split_on(name, '.')), " "@)),
            };
            match title {
                Err(fault) => Err(fault),
                Ok(title) => {
                    let description = match args.description {
                        Some(text) => checked_text(text@, TextField::Description),
                        None => Ok(DEFAULT_DESCRIPTION@),
                    };
                    match description {
                        Err(fault) => Err(fault),
                        Ok(description) => {
                            let author = match args.author_name {
                                Some(author) => checked_author(author@),
                                None => Ok(DEFAULT_AUTHOR_NAME@),
                            };
                            match author {
                                Err(fault) => Err(fault),
                                Ok(author) => {
                                    let email = match args.author_email {
                                        Some(email) => checked_email(email@),
                                        None => Ok(DEFAULT_AUTHOR_EMAIL@),
                                    };
                                    match email {
                                        Err(fault) => Err(fault),
                                        Ok(email) => Ok(
                                            InitPlanV {
                                                name,
                                                title,
                                                description,
                                                author,
                                                email,
                                                license: match args.license {
                                                    Some(license) => license,
                                                    None => InitLicense::Mit,
                                                },
                                            },
                                        ),
                                    }
                                },
                            }
                        },
                    }
                },
            }
        },
    }
}

/// The plan holds what is said of a package.
pub open spec fn is_plan(plan: InitPlan, v: InitPlanV) -> bool {
    &&& plan.package_name@ == v.name
    &&& plan.author_name@ == v.author
    &&& plan.license == v.license
    &&& plan.options.package_name@ == v.name
    &&& plan.options.title@ == v.title
    &&& plan.options.description@ == v.description
    &&& plan.options.authors_at_r@ == person_text(v.author, v.email)
    &&& plan.options.author@ == v.author + " [aut, cre]"@
    &&& plan.options.maintainer@ == v.author + " <"@ + v.email + ">"@
    &&& plan.options.license@ == license_value(v.license)
}

/// Plans a new project by what is given of it; the rest is taken from the name of its
/// directory or by default.
pub fn plan_init(args: InitArgs, target: &str) -> (r: Result<InitPlan, InitError>)
    ensures
        match r {
            Ok(plan) => init_plan(args, target@) is Ok && is_plan(
                plan,
                init_plan(args, target@)->Ok_0,
            ),
            Err(error) => init_plan(args, target@) == Err::<InitPlanV, InitFaultV>(error@),
        },
{
    let package_name = match args.name {
        Some(name) => match validate_package_name(name.as_str()) {
            Ok(_) => name,
            Err(error) => {
                return Err(InitError::InvalidPackageName(error));
            },
        },
        None => match derive_package_name(target) {
            Ok(name) => name,
            Err(error) => {
                return Err(error);
            },
        },
    };
    let title = match args.title {
        Some(title) => match validated_text(title, TextField::Title) {
            Ok(title) => title,
            Err(error) => {
                return Err(error);
            },
        },
        None => title_from_package_name(package_name.as_str()),
    };
    let description = match args.description {
        Some(text) => match validated_text(text, TextField::Description) {
            Ok(text) => text,
            Err(error) => {
                return Err(error);
            },
        },
        None => DEFAULT_DESCRIPTION.to_owned(),
    };
    let author_name = match args.author_name {
        Some(name) => match validated_author_name(name) {
            Ok(name) => name,
            Err(error) => {
                return Err(error);
            },
        },
        None => DEFAULT_AUTHOR_NAME.to_owned(),
    };
    let author_email = match args.author_email {
        Some(email) => match validate_author_email(email) {
            Ok(email) => email,
            Err(error) => {
                return Err(error);
            },
        },
        None => DEFAULT_AUTHOR_EMAIL.to_owned(),
    };
    let license = match args.license {
        Some(license) => license,
        None => InitLicense::Mit,
    };
    let options = InitialDescriptionOptions {
        package_name: package_name.clone(),
        title,
        description,
        authors_at_r: authors_at_r(author_name.as_str(), author_email.as_str()),
        author: text::cat(author_name.as_str(), " [aut, cre]"),
        maintainer: text::cat4(author_name.as_str(), " <", author_email.as_str(), ">"),
        license: license.description_value().to_owned(),
    };
    Ok(InitPlan { package_name, author_name, license, options })
}

/// The name or the address of a person that is suggested: a configured one if it is sound,
/// else the default.
pub fn default_author_name(configured: Option<String>) -> (r: String)
    ensures
        r@ == match configured {
            Some(name) => if text_issues(name@).len() == 0 {
                name@
            } else {
                DEFAULT_AUTHOR_NAME@
            },
            None => DEFAULT_AUTHOR_NAME@,
        },
{
    match configured {
        Some(name) => match validate_author_name(name.as_str()) {
            Ok(_) => name,
            Err(_) => DEFAULT_AUTHOR_NAME.to_owned(),
        },
        None => DEFAULT_AUTHOR_NAME.to_owned(),
    }
}

/// The address that is suggested: a configured one if it is sound, else the default.
pub fn default_author_email(configured: Option<String>) -> (r: String)
    ensures
        r@ == match configured {
            Some(email) => if email_fault(email@) is None {
                email@
            } else {
                DEFAULT_AUTHOR_EMAIL@
            },
            None => DEFAULT_AUTHOR_EMAIL@,
        },
{
    match configured {
        Some(email) => if author_email_validation_reason(email.as_str()).is_none() {
            email
        } else {
            DEFAULT_AUTHOR_EMAIL.to_owned()
        },
        None => DEFAULT_AUTHOR_EMAIL.to_owned(),
    }
}

/// What is said at the end: where the project is, and what can be done next.
pub open spec fn closing_lines(target: Seq<char>, git: bool, elsewhere: bool) -> Seq<Seq<char>> {
    let first = if git {
        "Initialized project and Git repository at "@ + target
    } else {
        "Initialized project at "@ + target
    };
    if elsewhere {
        seq![first, "Next: cd `"@ + target + "`"@, "Then: run `rpx add <package>`"@]
    } else {
        seq![first, "Next: run `rpx add <package>`"@]
    }
}

/// What is said at the end.
pub fn closing_messages(target: &str, current_dir: &str, git: bool) -> (r: Vec<String>)
    ensures
        texts(r@) == closing_lines(target@, git, !path::same_place(target@, current_dir@)),
{
    let mut out: Vec<String> = Vec::new();
    if git {
        out.push(text::cat("Initialized project and Git repository at ", target));
    } else {
        out.push(text::cat("Initialized project at ", target));
    }
    let elsewhere = !path::same(target, current_dir);
    if elsewhere {
        out.push(text::cat3("Next: cd `", target, "`"));
        out.push("Then: run `rpx add <package>`".to_owned());
    } else {
        out.push("Next: run `rpx add <package>`".to_owned());
    }
    assert(texts(out@) =~= closing_lines(target@, git, elsewhere));
    out
}

proof fn lemma_derived_chars(s: Seq<char>)
    ensures
        forall|i: int| 0 <= i < name_chars(s).len() ==> is_name_char(#[trigger] name_chars(s)[i]),
    decreases s.len(),
{
    if s.len() > 0 {
        lemma_derived_chars(s.drop_last());
        let rest = name_chars(s.drop_last());
        let all = name_chars(s);
        assert forall|i: int| 0 <= i < all.len() implies is_name_char(#[trigger] all[i]) by {
            if i < rest.len() {
                assert(all[i] == rest[i]);
            }
        }
    }
}

proof fn lemma_undotted_start(s: Seq<char>)
    requires
        forall|i: int| 0 <= i < s.len() ==> is_name_char(#[trigger] s[i]),
    ensures
        forall|i: int|
            0 <= i < undotted_start(s).len() ==> is_name_char(#[trigger] undotted_start(s)[i]),
    decreases s.len(),
{
    if s.len() > 0 && s[0] == '.' {
        let t = s.skip(1);
        assert forall|i: int| 0 <= i < t.len() implies is_name_char(#[trigger] t[i]) by {
            assert(t[i] == s[i + 1]);
        }
        lemma_undotted_start(t);
        assert(undotted_start(s) == undotted_start(t));
    } else {
        assert(undotted_start(s) == s);
    }
}

proof fn lemma_undotted_end(s: Seq<char>)
    requires
        forall|i: int| 0 <= i < s.len() ==> is_name_char(#[trigger] s[i]),
    ensures
        forall|i: int|
            0 <= i < undotted_end(s).len() ==> is_name_char(#[trigger] undotted_end(s)[i]),
        undotted_end(s).len() > 0 ==> undotted_end(s).last() != '.',
    decreases s.len(),
{
    if s.len() > 0 && s.last() == '.' {
        let t = s.drop_last();
        assert forall|i: int| 0 <= i < t.len() implies is_name_char(#[trigger] t[i]) by {
            assert(t[i] == s[i]);
        }
        lemma_undotted_end(t);
        assert(undotted_end(s) == undotted_end(t));
    } else {
        assert(undotted_end(s) == s);
    }
}

/// A text without points.
pub open spec fn without_points(s: Seq<char>) -> Seq<char>
    decreases s.len(),
{
    if s.len() == 0 {
        Seq::empty()
    } else if s.last() == '.' {
        without_points(s.drop_last())
    } else {
        without_points(s.drop_last()).push(s.last())
    }
}

/// The letters and the digits of a text.
pub open spec fn letters_and_digits(s: Seq<char>) -> Seq<char>
    decreases s.len(),
{
    if s.len() == 0 {
        Seq::empty()
    } else if is_alphanumeric(s.last()) {
        letters_and_digits(s.drop_last()).push(s.last())
    } else {
        letters_and_digits(s.drop_last())
    }
}

/// No two points stand next to each other.
pub open spec fn points_are_apart(s: Seq<char>) -> bool {
    forall|i: int, j: int|
        0 <= i && j == i + 1 && j < s.len() ==> !(#[trigger] s[i] == '.' && #[trigger] s[j] == '.')
}

proof fn lemma_name_chars(s: Seq<char>)
    ensures
        points_are_apart(name_chars(s)),
        without_points(name_chars(s)) == letters_and_digits(s),
    decreases s.len(),
{
    if s.len() > 0 {
        let t = s.drop_last();
        lemma_name_chars(t);
        let rest = name_chars(t);
        let all = name_chars(s);
        if all != rest {
            assert(all.drop_last() =~= rest);
            assert forall|i: int, j: int| 0 <= i && j == i + 1 && j < all.len() implies !(
            #[trigger] all[i] == '.' && #[trigger] all[j] == '.') by {
                if j < rest.len() {
                    assert(all[i] == rest[i] && all[j] == rest[j]);
                }
            }
        }
    }
}

proof fn lemma_start_without_points(s: Seq<char>)
    ensures
        without_points(undotted_start(s)) == without_points(s),
        points_are_apart(s) ==> points_are_apart(undotted_start(s)),
        undotted_start(s).len() > 0 ==> undotted_start(s)[0] != '.',
    decreases s.len(),
{
    if s.len() > 0 && s[0] == '.' {
        let t = s.skip(1);
        lemma_start_without_points(t);
        lemma_first_point(s);
        if points_are_apart(s) {
            assert forall|i: int, j: int| 0 <= i && j == i + 1 && j < t.len() implies !(
            #[trigger] t[i] == '.' && #[trigger] t[j] == '.') by {
                assert(t[i] == s[i + 1] && t[j] == s[j + 1]);
            }
        }
    }
}

proof fn lemma_first_point(s: Seq<char>)
    requires
        s.len() > 0,
        s[0] == '.',
    ensures
        without_points(s) == without_points(s.skip(1)),
    decreases s.len(),
{
    let t = s.skip(1);
    if s.len() == 1 {
        assert(t =~= Seq::<char>::empty());
        assert(s.drop_last() =~= Seq::<char>::empty());
    } else {
        assert(s.drop_last().skip(1) =~= t.drop_last());
        lemma_first_point(s.drop_last());
    }
}

proof fn lemma_end_without_points(s: Seq<char>)
    ensures
        without_points(undotted_end(s)) == without_points(s),
        points_are_apart(s) ==> points_are_apart(undotted_end(s)),
        undotted_end(s).len() > 0 ==> undotted_end(s)[0] == s[0],
    decreases s.len(),
{
    if s.len() > 0 && s.last() == '.' {
        let t = s.drop_last();
        lemma_end_without_points(t);
        if points_are_apart(s) {
            assert forall|i: int, j: int| 0 <= i && j == i + 1 && j < t.len() implies !(
            #[trigger] t[i] == '.' && #[trigger] t[j] == '.') by {
                assert(t[i] == s[i] && t[j] == s[j]);
            }
        }
    }
}

proof fn lemma_names_stay(s: Seq<char>)
    requires
        points_are_apart(s),
        forall|i: int| 0 <= i < s.len() ==> is_name_char(#[trigger] s[i]),
    ensures
        name_chars(s) == s,
    decreases s.len(),
{
    if s.len() > 0 {
        let t = s.drop_last();
        assert forall|i: int, j: int| 0 <= i && j == i + 1 && j < t.len() implies !(#[trigger] t[i]
            == '.' && #[trigger] t[j] == '.') by {
            assert(t[i] == s[i] && t[j] == s[j]);
        }
        assert forall|i: int| 0 <= i < t.len() implies is_name_char(#[trigger] t[i]) by {
            assert(t[i] == s[i]);
        }
        lemma_names_stay(t);
        assert(is_name_char(s[s.len() - 1]));
        if t.len() > 0 {
            assert(!(s[s.len() - 2] == '.' && s[s.len() - 1] == '.'));
        }
        assert(name_chars(s) =~= s);
    }
}

/// A name that was made of the name of a directory is valid. It has no two points in a row and
/// none at its ends, and its other characters are the letters and digits of the directory's
/// name. A directory of that name, wherever it is, gives the same name again.
pub proof fn derived_names_are_derived_again(path: Seq<char>, place: Seq<char>)
    requires
        derived_name(path) is Ok,
    ensures
        name_issues(derived_name(path)->Ok_0).len() == 0,
        points_are_apart(derived_name(path)->Ok_0),
        derived_name(path)->Ok_0[0] != '.',
        derived_name(path)->Ok_0.last() != '.',
        without_points(derived_name(path)->Ok_0) == letters_and_digits(directory_name(path)->0),
        derived_name(child_of(place, derived_name(path)->Ok_0)) == derived_name(path),
{
    let directory = directory_name(path)->0;
    let name = derived_name(path)->Ok_0;
    let chars = name_chars(directory);
    let started = undotted_start(chars);
    lemma_derived_chars(directory);
    lemma_name_chars(directory);
    lemma_undotted_start(chars);
    lemma_start_without_points(chars);
    lemma_undotted_end(started);
    lemma_end_without_points(started);
    assert(name == undotted_end(started));
    assert(name.len() > 0);
    lemma_names_stay(name);
    assert(!name.contains('/')) by {
        if name.contains('/') {
            let i = choose|i: int| 0 <= i < name.len() && name[i] == '/';
            assert(is_name_char(name[i]));
        }
    }
    reveal_strlit(".");
    reveal_strlit("..");
    assert("."@[0] == '.');
    assert(".."@[0] == '.');
    crate::path::last_names_are_found(place, name);
}

/// A name that is made of the name of a directory has no characters that a package name
/// cannot have and does not end with a point; it can still be too short or begin with no
/// letter.
pub proof fn derived_names_are_nearly_valid(directory: Seq<char>)
    ensures
        !name_issues(package_name_of(directory)).contains(PackageNameIssue::InvalidCharacters),
        !name_issues(package_name_of(directory)).contains(PackageNameIssue::EndsWithDot),
{
    let chars = name_chars(directory);
    lemma_derived_chars(directory);
    lemma_undotted_start(chars);
    lemma_undotted_end(undotted_start(chars));
    let name = package_name_of(directory);
    let a = if name.len() < 2 {
        seq![PackageNameIssue::TooShort]
    } else {
        Seq::<PackageNameIssue>::empty()
    };
    let b = if name.len() == 0 || !is_letter(name[0]) {
        a.push(PackageNameIssue::MustStartWithLetter)
    } else {
        a
    };
    assert(name_issues(name) == b);
    assert forall|i: int| 0 <= i < b.len() implies b[i] != PackageNameIssue::InvalidCharacters
        && b[i] != PackageNameIssue::EndsWithDot by {}
}

/// The description of a new project with the packages that help in its development, and the
/// relations to these.
pub fn new_description(
    target: &str,
    options: InitialDescriptionOptions,
    packages: &Vec<DevelopmentPackage>,
) -> (r: Result<(Description, SortedSet<Relation>), NewDescriptionError>)
    ensures
        match written_document(initial_fields(options)) {
            None => r matches Err(NewDescriptionError::Initial(error)) && error@
                == InitFaultV::InitialDescription(refusal(initial_fields(options))),
            Some(document) => match r {
                Ok((description, relations)) => {
                    &&& fits(description@)
                    &&& relations.wf()
                    &&& relations@ == collected(open_relations(packages@))
                    &&& is_added(
                        description_place(target@),
                        document,
                        description@,
                        relations@,
                        DependencyField::Suggests,
                        Ok::<(), DependencyMutationError>(()),
                    )
                },
                Err(NewDescriptionError::Dependencies { description, error }) => is_added(
                    description_place(target@),
                    document,
                    description@,
                    collected(open_relations(packages@)),
                    DependencyField::Suggests,
                    Err::<(), DependencyMutationError>(error),
                ),
                Err(_) => false,
            },
        },
{
    let mut description = match initial_description(options) {
        Ok(description) => description,
        Err(error) => {
            return Err(NewDescriptionError::Initial(error));
        },
    };
    let relations = development_relations(packages);
    let source_name = path::child(target, "DESCRIPTION");
    match add_dependencies(
        source_name,
        &mut description,
        &relations,
        DependencyField::Suggests,
    ) {
        Ok(_) => Ok((description, relations)),
        Err(error) => Err(NewDescriptionError::Dependencies { description, error }),
    }
}

/// Why the description of a new project cannot be made.
#[derive(Debug)]
pub enum NewDescriptionError {
    Initial(InitError),
    Dependencies { description: Description, error: DependencyMutationError },
}

/// The relations with each development package pinned to what was resolved for it.
pub open spec fn pinned_development(
    packages: Seq<DevelopmentPackage>,
    locked: Map<Seq<char>, Package>,
    relations: Seq<RelationV>,
) -> Seq<RelationV>
    decreases packages.len(),
{
    if packages.len() == 0 {
        relations
    } else {
        let name = development_name(packages.last());
        pinned(
            pinned_development(packages.drop_last(), locked, relations),
            name,
            locked[name].version@,
        )
    }
}

/// Every development package was resolved, and its major series has a next one.
pub open spec fn development_is_locked(
    packages: Seq<DevelopmentPackage>,
    locked: Map<Seq<char>, Package>,
) -> bool {
    forall|i: int|
        0 <= i < packages.len() ==> {
            let name = development_name(#[trigger] packages[i]);
            locked.contains_key(name) && locked[name].version.wf()
                && locked[name].version.components@[0] < u32::MAX
        }
}

/// Pins the development packages of a new project to what was resolved for them, in its
/// description and in its lockfile.
pub fn pin_development_packages(
    target: &str,
    description: &mut Description,
    lockfile: &mut Lockfile,
    relations: &SortedSet<Relation>,
    packages: &Vec<DevelopmentPackage>,
) -> (r: Result<(), DependencyMutationError>)
    requires
        fits(old(description)@),
        relations.wf(),
        old(lockfile).packages.wf(),
        development_is_locked(packages@, old(lockfile).packages@),
    ensures
        fits(final(description)@),
        ({
            let wanted = pinned_development(packages@, old(lockfile).packages@, relations@);
            let source_name = description_place(target@);
            let document = final(description)@;
            if tied(wanted, relations@) {
                &&& r is Ok
                &&& *final(description) == *old(description)
                &&& *final(lockfile) == *old(lockfile)
            } else {
                match r {
                    Ok(_) => {
                        &&& is_added(
                            source_name,
                            old(description)@,
                            document,
                            wanted,
                            DependencyField::Suggests,
                            r,
                        )
                        &&& relation_issues(project_fields(document)).len() == 0
                        &&& final(lockfile).requirements.wf()
                        &&& final(lockfile).requirements@ == needed_packages(document)
                        &&& *final(lockfile) == (Lockfile {
                            requirements: final(lockfile).requirements,
                            ..*old(lockfile)
                        })
                    },
                    Err(error) => {
                        &&& *final(lockfile) == *old(lockfile)
                        &&& {
                            ||| is_added(
                                source_name,
                                old(description)@,
                                document,
                                wanted,
                                DependencyField::Suggests,
                                r,
                            )
                            ||| {
                                &&& is_added(
                                    source_name,
                                    old(description)@,
                                    document,
                                    wanted,
                                    DependencyField::Suggests,
                                    Ok::<(), DependencyMutationError>(()),
                                )
                                &&& relation_issues(project_fields(document)).len() > 0
                                &&& error matches DependencyMutationError::Description(error)
                                    && error.wf() && error@ == (ErrorV {
                                    source_name,
                                    source_code: document,
                                    issues: relation_issues(project_fields(document)),
                                })
                            }
                        }
                    },
                }
            }
        }),
{
    let ghost locked = lockfile.packages@;
    let mut wanted = copy_relations(relations);
    let mut i: usize = 0;
    assert(packages@.take(0) =~= Seq::<DevelopmentPackage>::empty());
    while i < packages.len()
        invariant
            i <= packages@.len(),
            lockfile.packages.wf(),
            locked == lockfile.packages@,
            development_is_locked(packages@, locked),
            wanted.wf(),
            wanted@ == pinned_development(packages@.take(i as int), locked, relations@),
        decreases packages@.len() - i,
    {
        let name = packages[i].name();
        assert(packages@.take(i + 1).drop_last() =~= packages@.take(i as int));
        assert(name@ == development_name(packages@[i as int]));
        match lockfile.packages.get(name) {
            Some(package) => {
                pin_dependency_to_resolved_major(&mut wanted, name, &package.version);
            },
            None => {
                assert(false);
            },
        }
        i = i + 1;
    }
    assert(packages@.take(i as int) =~= packages@);
    if wanted.same(relations) {
        return Ok(());
    }
    match add_dependencies(
        path::child(target, "DESCRIPTION"),
        description,
        &wanted,
        DependencyField::Suggests,
    ) {
        Ok(_) => {},
        Err(error) => {
            return Err(error);
        },
    }
    match project_dependencies(path::child(target, "DESCRIPTION"), description) {
        Ok(requirements) => {
            lockfile.requirements = requirements;
            Ok(())
        },
        Err(error) => Err(DependencyMutationError::Description(error)),
    }
}

/// How often a name for a new directory is tried.
pub const SUGGESTION_ATTEMPTS: u32 = 64;

/// How a new directory under the working directory is written.
pub fn suggested_directory(name: &str) -> (r: String)
    ensures
        r@ == "./"@ + name@,
{
    text::cat("./", name)
}

/// What comes after a name for a new directory was tried.
#[derive(Debug)]
pub enum SuggestionStep {
    Suggest(String),
    TryAgain,
}

/// What comes after a name for a new directory was tried: it is suggested if it has the
/// expected form and is free, and else another is tried, as long as there are attempts left.
pub fn next_suggestion(attempts: u32, name: Option<String>, is_taken: bool) -> (r: Result<
    SuggestionStep,
    InitError,
>)
    ensures
        match opt_text(name) {
            Some(found) if !is_taken => r matches Ok(SuggestionStep::Suggest(directory))
                && directory@ == "./"@ + found,
            _ => if attempts < SUGGESTION_ATTEMPTS {
                r matches Ok(SuggestionStep::TryAgain)
            } else {
                r matches Err(error) && error@ == InitFaultV::ProjectNameGeneration
            },
        },
{
    match name {
        Some(found) => {
            if !is_taken {
                return Ok(SuggestionStep::Suggest(suggested_directory(found.as_str())));
            }
        },
        None => {},
    }
    if attempts < SUGGESTION_ATTEMPTS {
        Ok(SuggestionStep::TryAgain)
    } else {
        Err(InitError::ProjectNameGeneration)
    }
}

/// A name is taken exactly if it has two characters or more, starts with a letter, does not
/// end with a point and holds letters, digits and points only; whatever of this does not hold
/// is told, and nothing else.
pub proof fn names_are_judged(name: Seq<char>)
    ensures
        name_issues(name).contains(PackageNameIssue::TooShort) <==> name.len() < 2,
        name_issues(name).contains(PackageNameIssue::MustStartWithLetter) <==> !(name.len() > 0 && ((
        'a' <= name[0] && name[0] <= 'z') || ('A' <= name[0] && name[0] <= 'Z'))),
        name_issues(name).contains(PackageNameIssue::EndsWithDot) <==> name.len() > 0
            && name[name.len() - 1] == '.',
        name_issues(name).contains(PackageNameIssue::InvalidCharacters) <==> exists|i: int|
            0 <= i < name.len() && #[trigger] name[i] != '.' && !('a' <= name[i] && name[i] <= 'z')
                && !('A' <= name[i] && name[i] <= 'Z') && !('0' <= name[i] && name[i] <= '9'),
        name_issues(name).len() == 0 <==> name.len() >= 2 && is_letter(name[0])
            && name[name.len() - 1] != '.' && forall|i: int|
            0 <= i < name.len() ==> #[trigger] name[i] == '.' || ('a' <= name[i] && name[i] <= 'z')
                || ('A' <= name[i] && name[i] <= 'Z') || ('0' <= name[i] && name[i] <= '9'),
{
    let all = name_issues(name);
    let short = name.len() < 2;
    let first = name.len() == 0 || !is_letter(name[0]);
    let end = name.len() > 0 && name.last() == '.';
    let bad = !(forall|i: int| 0 <= i < name.len() ==> is_name_char(#[trigger] name[i]));
    let a = if short {
        seq![PackageNameIssue::TooShort]
    } else {
        Seq::empty()
    };
    let b = if first {
        a.push(PackageNameIssue::MustStartWithLetter)
    } else {
        a
    };
    let c = if end {
        b.push(PackageNameIssue::EndsWithDot)
    } else {
        b
    };
    assert(all == if bad {
        c.push(PackageNameIssue::InvalidCharacters)
    } else {
        c
    });
    if short {
        assert(all[0] == PackageNameIssue::TooShort);
    }
    if first {
        assert(all[a.len() as int] == PackageNameIssue::MustStartWithLetter);
    }
    if end {
        assert(all[b.len() as int] == PackageNameIssue::EndsWithDot);
    }
    if bad {
        assert(all[c.len() as int] == PackageNameIssue::InvalidCharacters);
        let i = choose|i: int| 0 <= i < name.len() && !is_name_char(#[trigger] name[i]);
        assert(name[i] != '.');
    } else {
        assert forall|i: int| 0 <= i < name.len() implies is_name_char(#[trigger] name[i]) by {}
    }
}

/// A text is taken exactly if it holds more than white space and no control characters; what
/// of this does not hold is told.
pub proof fn texts_are_judged(value: Seq<char>)
    ensures
        text_issues(value).contains(TextIssue::Empty) <==> trimmed(value).len() == 0,
        text_issues(value).contains(TextIssue::ControlCharacters) <==> exists|i: int|
            0 <= i < value.len() && is_control(#[trigger] value[i]),
        text_issues(value).len() == 0 <==> trimmed(value).len() > 0 && forall|i: int|
            0 <= i < value.len() ==> !is_control(#[trigger] value[i]),
{
    let all = text_issues(value);
    let empty = trimmed(value).len() == 0;
    let control = exists|i: int| 0 <= i < value.len() && is_control(#[trigger] value[i]);
    if empty {
        assert(all[0] == TextIssue::Empty);
    }
    if control {
        assert(all[all.len() - 1] == TextIssue::ControlCharacters);
    }
}

/// The address has a name before its only `@` and one behind it, in plain characters.
pub open spec fn is_address(address: Seq<char>, local: Seq<char>, domain: Seq<char>) -> bool {
    &&& address == local + seq!['@'] + domain
    &&& local.len() > 0 && domain.len() > 0
    &&& !local.contains('@') && !domain.contains('@')
    &&& forall|i: int|
        0 <= i < address.len() ==> (#[trigger] address[i]) <= '\u{7f}' && !is_white_space(
            address[i],
        ) && !is_control(address[i])
}

/// Exactly the addresses of that form are taken, without the white space around them.
pub proof fn addresses_are_judged(email: Seq<char>)
    ensures
        forall|local: Seq<char>, domain: Seq<char>| #[trigger]
            is_address(trimmed(email), local, domain) ==> email_fault(email) is None,
        email_fault(email) is None ==> exists|local: Seq<char>, domain: Seq<char>| #[trigger]
            is_address(trimmed(email), local, domain),
{
    let address = trimmed(email);
    assert forall|local: Seq<char>, domain: Seq<char>| #[trigger]
        is_address(address, local, domain) implies email_fault(email) is None by {
        text::texts_are_cut_at_the_first_occurrence(local, '@', domain);
    }
    if email_fault(email) is None {
        let (local, domain) = cut_at(address, '@')->0;
        lemma_cut_parts(address, '@');
        assert forall|i: int| 0 <= i < address.len() implies (#[trigger] address[i]) <= '\u{7f}'
            && !is_white_space(address[i]) && !is_control(address[i]) by {
            lemma_plain_char(address[i]);
        }
        assert(local.len() > 0 && domain.len() > 0 && !domain.contains('@'));
        assert(is_address(address, local, domain));
    }
}

proof fn lemma_plain_char(c: char)
    requires
        !is_foreign_to_email(c),
    ensures
        c <= '\u{7f}' && !is_white_space(c) && !is_control(c),
{
}

proof fn lemma_cut_parts(s: Seq<char>, c: char)
    ensures
        cut_at(s, c) matches Some((a, b)) ==> s == a + seq![c] + b && !a.contains(c),
{
    if exists|i: int| 0 <= i < s.len() && s[i] == c {
        let i = choose|i: int| 0 <= i < s.len() && s[i] == c;
        let k = first_place(s, c, i);
        text::lemma_first_at(s, c, k);
        assert(s =~= s.take(k) + seq![c] + s.skip(k + 1));
        let a = s.take(k);
        if a.contains(c) {
            let j = choose|j: int| 0 <= j < a.len() && a[j] == c;
            assert(s[j] == c);
        }
    } else {
        text::lemma_not_at(s, c);
    }
}

proof fn first_place(s: Seq<char>, c: char, i: int) -> (k: int)
    requires
        0 <= i < s.len(),
        s[i] == c,
    ensures
        0 <= k <= i,
        s[k] == c,
        forall|j: int| 0 <= j < k ==> s[j] != c,
    decreases i,
{
    if exists|j: int| 0 <= j < i && s[j] == c {
        let j = choose|j: int| 0 <= j < i && s[j] == c;
        first_place(s, c, j)
    } else {
        i
    }
}

/// The words of a title are the parts of a name, in order, each with its first letter in upper
/// case; parts that hold nothing are no words.
pub proof fn titles_are_made_of_the_parts(parts: Seq<Seq<char>>, i: int)
    ensures
        (forall|k: int| 0 <= k < parts.len() ==> (#[trigger] parts[k]).len() > 0) ==> {
            &&& title_words(parts).len() == parts.len()
            &&& 0 <= i < parts.len() ==> {
                let word = title_words(parts)[i];
                &&& word.len() == parts[i].len()
                &&& word.skip(1) == parts[i].skip(1)
                &&& 'a' <= parts[i][0] && parts[i][0] <= 'z' ==> word[0] as int == parts[i][0] as int
                    - 32
                &&& !('a' <= parts[i][0] && parts[i][0] <= 'z') ==> word[0] == parts[i][0]
            }
        },
        title_words(parts.push(Seq::empty())) == title_words(parts),
    decreases parts.len(),
{
    let longer = parts.push(Seq::empty());
    assert(longer.drop_last() =~= parts);
    assert(longer.last().len() == 0);
    if parts.len() > 0 {
        let t = parts.drop_last();
        let n = parts.len() - 1;
        titles_are_made_of_the_parts(t, i);
        if forall|k: int| 0 <= k < parts.len() ==> (#[trigger] parts[k]).len() > 0 {
            assert forall|k: int| 0 <= k < t.len() implies (#[trigger] t[k]).len() > 0 by {
                assert(t[k] == parts[k]);
            }
            assert(parts[n] == parts.last());
            if 0 <= i < n {
                assert(t[i] == parts[i]);
                assert(title_words(parts)[i] == title_words(t)[i]);
            } else if i == n {
                let part = parts[i];
                let word = title_words(parts)[i];
                assert(word == seq![upper(part[0])] + part.skip(1));
                assert(word.skip(1) =~= part.skip(1));
            }
        }
    }
}

/// A new project is planned from what was given: a name, a title, a description, an author and
/// an address are taken if they are right, and what was not given has a default. The name is
/// never changed, and texts are taken without the white space around them.
pub proof fn projects_are_planned_as_asked(args: InitArgs, target: Seq<char>)
    requires
        init_plan(args, target) is Ok,
    ensures
        ({
            let plan = init_plan(args, target)->Ok_0;
            &&& name_issues(plan.name).len() == 0
            &&& args.name matches Some(name) ==> plan.name == name@
            &&& args.title matches Some(title) ==> plan.title == trimmed(title@) && text_issues(
                title@,
            ).len() == 0
            &&& args.description matches Some(description) ==> plan.description == trimmed(
                description@,
            ) && text_issues(description@).len() == 0
            &&& args.description is None ==> plan.description
                == "Describe what this package does."@
            &&& args.author_name matches Some(author) ==> plan.author == trimmed(author@)
                && text_issues(author@).len() == 0
            &&& args.author_name is None ==> plan.author == "Package Author"@
            &&& args.author_email matches Some(email) ==> plan.email == trimmed(email@)
                && email_fault(trimmed(email@)) is None
            &&& args.author_email is None ==> plan.email == "author@example.com"@
            &&& args.license matches Some(license) ==> plan.license == license
            &&& args.license is None ==> plan.license == InitLicense::Mit
        }),
{
}

/// A project is refused for the first thing that is wrong with what was given.
pub proof fn wrong_projects_are_refused(args: InitArgs, target: Seq<char>)
    ensures
        args.name matches Some(name) ==> (name_issues(name@).len() > 0 ==> init_plan(args, target)
            == Err::<InitPlanV, InitFaultV>(
            InitFaultV::InvalidPackageName(name@, name_issues(name@)),
        )),
        args.name matches Some(name) ==> (name_issues(name@).len() == 0 ==> {
            &&& args.title matches Some(title) ==> (text_issues(title@).len() > 0 ==> init_plan(
                args,
                target,
            ) == Err::<InitPlanV, InitFaultV>(
                InitFaultV::InvalidText(TextField::Title, text_issues(title@)),
            ))
            &&& args.title is None && args.description is None && args.author_name is None
                && args.author_email is None ==> init_plan(args, target) is Ok
        }),
{
}

/// A string of R stands between quotes; a text without quotes and backslashes stands there as
/// it is, and a single quote or backslash is escaped by a backslash.
pub proof fn strings_are_quoted(a: Seq<char>, b: Seq<char>)
    requires
        !a.contains('"') && !a.contains('\\'),
        !b.contains('"') && !b.contains('\\'),
    ensures
        quoted(a) == seq!['"'] + a + seq!['"'],
        quoted(a + seq!['"'] + b) == seq!['"'] + a + seq!['\\', '"'] + b + seq!['"'],
        quoted(a + seq!['\\'] + b) == seq!['"'] + a + seq!['\\', '\\'] + b + seq!['"'],
{
    reveal_strlit("\"");
    reveal_strlit("\\");
    reveal_strlit("\\\\");
    reveal_strlit("\\\"");
    let quote = "\""@;
    let back = "\\"@;
    let two = "\\\\"@;
    let escaped = "\\\""@;
    assert(quote =~= seq!['"']);
    assert(back =~= seq!['\\']);
    assert(two =~= seq!['\\', '\\']);
    assert(escaped =~= seq!['\\', '"']);
    lemma_sign_stays(a, back, two);
    lemma_sign_stays(a, quote, escaped);
    let x = a + quote + b;
    lemma_sign_in(a, quote, b, '\\');
    lemma_sign_stays(x, back, two);
    lemma_sign_replaced(a, quote, b, escaped);
    let y = a + back + b;
    lemma_sign_replaced(a, back, b, two);
    lemma_sign_in(a, two, b, '"');
    lemma_sign_stays(a + two + b, quote, escaped);
    assert(quoted(x) =~= seq!['"'] + a + seq!['\\', '"'] + b + seq!['"']);
    assert(quoted(y) =~= seq!['"'] + a + seq!['\\', '\\'] + b + seq!['"']);
}

proof fn lemma_sign_in(a: Seq<char>, m: Seq<char>, b: Seq<char>, c: char)
    requires
        !a.contains(c),
        !b.contains(c),
        forall|i: int| 0 <= i < m.len() ==> m[i] != c,
    ensures
        !(a + m + b).contains(c),
{
    let s = a + m + b;
    if s.contains(c) {
        let i = choose|i: int| 0 <= i < s.len() && s[i] == c;
        if i < a.len() {
            assert(a[i] == c);
        } else if i < a.len() + m.len() {
            assert(m[i - a.len()] == c);
        } else {
            assert(b[i - a.len() - m.len()] == c);
        }
    }
}

proof fn lemma_sign_stays(s: Seq<char>, sign: Seq<char>, by: Seq<char>)
    requires
        sign.len() == 1,
        !s.contains(sign[0]),
    ensures
        replaced_text(s, sign, by) == s,
{
    assert forall|i: int| 0 <= i < s.len() implies !has_prefix(#[trigger] s.skip(i), sign) by {
        if has_prefix(s.skip(i), sign) {
            assert(s.skip(i).take(1)[0] == s[i]);
            assert(s.contains(s[i]));
        }
    }
    crate::listing::parts_are_replaced_in_turn(s, sign, Seq::empty(), by);
}

proof fn lemma_sign_replaced(a: Seq<char>, sign: Seq<char>, b: Seq<char>, by: Seq<char>)
    requires
        sign.len() == 1,
        !a.contains(sign[0]),
        !b.contains(sign[0]),
    ensures
        replaced_text(a + sign + b, sign, by) == a + by + b,
{
    let s = a + sign + b;
    assert forall|i: int| 0 <= i < a.len() implies !has_prefix(#[trigger] s.skip(i), sign) by {
        if has_prefix(s.skip(i), sign) {
            assert(s.skip(i).take(1)[0] == s[i]);
            assert(s[i] == a[i]);
            assert(a.contains(a[i]));
        }
    }
    crate::listing::parts_are_replaced_in_turn(a, sign, b, by);
    lemma_sign_stays(b, sign, by);
}

/// The description of a new package holds what was planned for it, each in its field.
pub proof fn new_descriptions_hold_the_plan(plan: InitPlan, v: InitPlanV)
    requires
        is_plan(plan, v),
    ensures
        initial_fields(plan.options).contains(("Package"@, v.name)),
        initial_fields(plan.options).contains(("Version"@, "0.1.0"@)),
        initial_fields(plan.options).contains(("Title"@, v.title)),
        initial_fields(plan.options).contains(("Description"@, v.description)),
        initial_fields(plan.options).contains(("Author"@, v.author + " [aut, cre]"@)),
        initial_fields(plan.options).contains(("Maintainer"@, v.author + " <"@ + v.email + ">"@)),
        exists|value: Seq<char>| #[trigger]
            initial_fields(plan.options).contains(("License"@, value)) && (v.license
                == InitLicense::Mit ==> value == "MIT + file LICENSE"@),
        initial_fields(plan.options).len() == 8,
{
    let fields = initial_fields(plan.options);
    assert(fields[0] == ("Package"@, v.name));
    assert(fields[1] == ("Version"@, "0.1.0"@));
    assert(fields[2] == ("Title"@, v.title));
    assert(fields[3] == ("Description"@, v.description));
    assert(fields[4] == ("License"@, license_value(v.license)));
    assert(fields.contains(("License"@, license_value(v.license))));
    assert(fields[6] == ("Author"@, v.author + " [aut, cre]"@));
    assert(fields[7] == ("Maintainer"@, v.author + " <"@ + v.email + ">"@));
}

/// A project is made where its path leads: at the path if that starts at the root, else below
/// the current directory. Without a path of its own it is named after its directory.
pub proof fn projects_stand_at_their_path(current: Seq<char>, path: Seq<char>, name: Seq<char>)
    requires
        current.len() > 0,
        current.last() != '/',
    ensures
        target_of(current, seq!['/'] + path) == seq!['/'] + path,
        path.len() > 0 && path[0] != '/' ==> target_of(current, path) == current + seq!['/'] + path,
{
    reveal_strlit("/");
    let rooted = seq!['/'] + path;
    assert(rooted.take(1) =~= "/"@);
    if path.len() > 0 && path[0] != '/' {
        assert(!has_prefix(path, "/"@)) by {
            if has_prefix(path, "/"@) {
                assert(path.take(1)[0] == path[0]);
            }
        }
        assert("/"@ =~= seq!['/']);
    }
}

/// A license that needs one has a file that names the year and the holder; every other license
/// has its text.
pub proof fn licenses_have_files(
    license: InitLicense,
    year: nat,
    holder: Seq<char>,
    template: Seq<char>,
)
    ensures
        license_file_texts(InitLicense::Mit, year, holder, template)[0] == (
            "LICENSE"@,
            "YEAR: "@ + decimal_text(year) + "\nCOPYRIGHT HOLDER: "@ + holder + "\n"@,
        ),
        license_file_texts(InitLicense::Mit, year, holder, template).len() == 2,
        license_file_texts(InitLicense::Mit, year, holder, template)[1].0 == "LICENSE.md"@,
        license_file_texts(InitLicense::Proprietary, year, holder, template) == seq![
            ("LICENSE"@, "Copyright "@ + decimal_text(year) + " "@ + holder + ". All rights reserved.\n"@),
        ],
        license != InitLicense::Mit && license != InitLicense::Proprietary ==> license_file_texts(
            license,
            year,
            holder,
            template,
        ) == seq![("LICENSE.md"@, template)],
{
}

/// A suggested name is two words of small letters with a hyphen between them.
pub proof fn suggestions_are_two_words(a: Seq<char>, b: Seq<char>)
    requires
        a.len() > 0 && b.len() > 0,
        forall|i: int| 0 <= i < a.len() ==> 'a' <= #[trigger] a[i] && a[i] <= 'z',
        forall|i: int| 0 <= i < b.len() ==> 'a' <= #[trigger] b[i] && b[i] <= 'z',
    ensures
        is_suggestion(a + seq!['-'] + b),
        !is_suggestion(a),
        !is_suggestion(a + seq!['-']),
{
    let seps = set!['-'];
    assert forall|i: int| 0 <= i < a.len() implies !seps.contains(#[trigger] a[i]) by {}
    assert forall|i: int| 0 <= i < b.len() implies !seps.contains(#[trigger] b[i]) by {}
    let none = Seq::<char>::empty();
    text::splitting_takes_apart(none, seps, '-', a);
    text::splitting_takes_apart(a, seps, '-', b);
    text::splitting_takes_apart(a, seps, '-', none);
    assert(a + seq!['-'] + b =~= a.push('-') + b);
    assert(a + seq!['-'] =~= a.push('-') + none);
    let words = split_on(a + seq!['-'] + b, '-');
    assert(words =~= seq![a, b]);
    let less = split_on(a + seq!['-'], '-');
    assert(less =~= seq![a, none]);
}

/// Development packages are pinned one after the other, each to the version that was locked.
pub proof fn development_packages_are_pinned(
    packages: Seq<DevelopmentPackage>,
    locked: Map<Seq<char>, Package>,
    relations: Seq<RelationV>,
    package: DevelopmentPackage,
)
    ensures
        pinned_development(Seq::empty(), locked, relations) == relations,
        pinned_development(packages.push(package), locked, relations) == pinned(
            pinned_development(packages, locked, relations),
            development_name(package),
            locked[development_name(package)].version@,
        ),
{
    assert(packages.push(package).drop_last() =~= packages);
}

/// A project is made only where there is nothing yet.
pub proof fn projects_are_made_where_nothing_is(
    target: &str,
    state: TargetState,
    r: Result<(), InitError>,
)
    requires
        call_ensures(validate_target, (target, state), r),
    ensures
        r is Ok <==> state is Missing || state is Empty,
        state is NotEmpty ==> r is Err && r->Err_0@ == InitFaultV::TargetNotEmpty(target@),
        state is NotADirectory ==> r is Err && r->Err_0@ == InitFaultV::TargetNotDirectory(target@),
{
}

/// A suggested name is offered if it is free; otherwise another is tried, but not for ever.
pub proof fn free_suggestions_are_offered(
    attempts: u32,
    name: Option<String>,
    is_taken: bool,
    r: Result<SuggestionStep, InitError>,
)
    requires
        call_ensures(next_suggestion, (attempts, name, is_taken), r),
    ensures
        r matches Ok(SuggestionStep::Suggest(directory)) ==> !is_taken && name is Some
            && directory@ == "./"@ + name->0@,
        name is Some && !is_taken ==> r is Ok && r->Ok_0 is Suggest,
        (name is None || is_taken) && attempts >= SUGGESTION_ATTEMPTS ==> r is Err,
        (name is None || is_taken) && attempts < SUGGESTION_ATTEMPTS ==> r is Ok
            && r->Ok_0 is TryAgain,
{
}

} // verus!
