//! What CRAN-like repositories list: the packages of an archive, the archived versions of a
//! package, and an index of packages.
use crate::metadata::{
    components_order, parsed_relation, version_components, version_failure, Relation, RelationV,
    Version, VersionV,
};
use crate::order::{Order, Total};
use crate::text;
use crate::text::{has_prefix, has_suffix, joined, lowered, split_by, split_on, texts, trimmed};
use vstd::prelude::*;

verus! {

/// The text with each occurrence of a part replaced, from left to right.
pub open spec fn replaced_text(s: Seq<char>, part: Seq<char>, by: Seq<char>) -> Seq<char>
    decreases s.len(),
{
    if s.len() == 0 || part.len() == 0 {
        s
    } else if has_prefix(s, part) {
        by + replaced_text(s.skip(part.len() as int), part, by)
    } else {
        seq![s[0]] + replaced_text(s.skip(1), part, by)
    }
}

fn holds_at(v: &Vec<char>, at: usize, part: &Vec<char>) -> (r: bool)
    requires
        at <= v@.len(),
    ensures
        r == has_prefix(v@.skip(at as int), part@),
{
    let ghost s = v@.skip(at as int);
    if part.len() > v.len() - at {
        return false;
    }
    let total = v.len();
    let mut i: usize = 0;
    while i < part.len()
        invariant
            at <= total == v@.len(),
            s == v@.skip(at as int),
            i <= part@.len() <= total - at,
            forall|k: int| 0 <= k < i ==> s[k] == part@[k],
        decreases part@.len() - i,
    {
        if v[at + i] != part[i] {
            assert(s[i as int] != part@[i as int]);
            assert(!(s.subrange(0, part@.len() as int) =~= part@)) by {
                assert(s.subrange(0, part@.len() as int)[i as int] == s[i as int]);
            }
            return false;
        }
        i = i + 1;
    }
    assert(s.subrange(0, part@.len() as int) =~= part@);
    true
}

/// Replaces each occurrence of a part of a text.
pub fn replace(s: &str, part: &str, by: &str) -> (r: String)
    ensures
        r@ == replaced_text(s@, part@, by@),
{
    let v = text::chars_of(s);
    let p = text::chars_of(part);
    if p.len() == 0 {
        return s.to_owned();
    }
    let mut out = String::new();
    let mut i: usize = 0;
    assert(v@.skip(0) =~= s@);
    assert(out@ + replaced_text(v@.skip(0), part@, by@) =~= replaced_text(s@, part@, by@));
    while i < v.len()
        invariant
            i <= v@.len(),
            v@ == s@,
            p@ == part@,
            p@.len() > 0,
            out@ + replaced_text(v@.skip(i as int), part@, by@) == replaced_text(s@, part@, by@),
        decreases v@.len() - i,
    {
        let ghost before = out@;
        let ghost rest = v@.skip(i as int);
        if holds_at(&v, i, &p) {
            assert(rest.skip(part@.len() as int) =~= v@.skip(i + part@.len()));
            out.push_str(by);
            assert(before + (by@ + replaced_text(rest.skip(part@.len() as int), part@, by@))
                =~= out@ + replaced_text(v@.skip(i + part@.len()), part@, by@));
            i = i + p.len();
        } else {
            assert(rest.skip(1) =~= v@.skip(i + 1));
            assert(rest[0] == v@[i as int]);
            out.push(v[i]);
            assert(before + (seq![rest[0]] + replaced_text(rest.skip(1), part@, by@)) =~= out@
                + replaced_text(v@.skip(i + 1), part@, by@));
            i = i + 1;
        }
    }
    assert(v@.skip(i as int) =~= Seq::<char>::empty());
    assert(out@ + replaced_text(v@.skip(i as int), part@, by@) =~= out@);
    out
}

/// A text with the four entities of markup written out, one after the other.
pub open spec fn unescaped(s: Seq<char>) -> Seq<char> {
    let first = replaced_text(s, "&amp;"@, "&"@);
    let second = replaced_text(first, "&lt;"@, "<"@);
    let third = replaced_text(second, "&gt;"@, ">"@);
    replaced_text(third, "&quot;"@, "\""@)
}

/// Writes the four entities of markup out.
pub fn html_unescape_minimal(value: &str) -> (r: String)
    ensures
        r@ == unescaped(value@),
{
    let first = replace(value, "&amp;", "&");
    let second = replace(first.as_str(), "&lt;", "<");
    let third = replace(second.as_str(), "&gt;", ">");
    replace(third.as_str(), "&quot;", "\"")
}

/// The characters that divide a listing.
pub open spec fn listing_marks() -> Set<char> {
    set!['"', '\'', '<', '>', ' ', '\n', '\r', '\t']
}

fn is_mark(c: char) -> (r: bool)
    ensures
        r == listing_marks().contains(c),
{
    c == '"' || c == '\'' || c == '<' || c == '>' || c == ' ' || c == '\n' || c == '\r' || c
        == '\t'
}

/// The parts of a listing.
pub fn archive_listing_parts(listing: &str) -> (r: Vec<String>)
    ensures
        texts(r@) == split_by(listing@, listing_marks()),
        r@.len() > 0,
{
    let v = text::chars_of(listing);
    let ghost f = listing_marks();
    let mut out: Vec<String> = Vec::new();
    let mut cur: String = String::new();
    let mut i: usize = 0;
    assert(v@.take(0) =~= Seq::<char>::empty());
    assert(texts(out@).push(cur@) =~= seq![Seq::<char>::empty()]);
    while i < v.len()
        invariant
            i <= v.len(),
            v@ == listing@,
            f == listing_marks(),
            texts(out@).push(cur@) == split_by(v@.take(i as int), f),
        decreases v.len() - i,
    {
        let c: char = v[i];
        let ghost before = texts(out@).push(cur@);
        assert(v@.take(i + 1).drop_last() =~= v@.take(i as int));
        assert(v@.take(i + 1).last() == c);
        if is_mark(c) {
            out.push(cur);
            assert(texts(out@) =~= before);
            cur = String::new();
            assert(texts(out@).push(cur@) =~= before.push(Seq::<char>::empty()));
        } else {
            cur.push(c);
            assert(before.drop_last() =~= texts(out@));
            assert(texts(out@).push(cur@) =~= before.drop_last().push(before.last().push(c)));
        }
        i = i + 1;
    }
    assert(v@.take(i as int) =~= listing@);
    let ghost o = out@;
    let ghost last = cur@;
    out.push(cur);
    assert(texts(out@) =~= texts(o).push(last));
    out
}

/// The packages of which an archive keeps former versions.
#[derive(Debug)]
pub struct CranArchiveRootListing {
    pub packages: Vec<String>,
}

/// The name of a package that a part of a listing stands for: the part is a relative link to
/// a directory.
pub open spec fn directory_name(part: Seq<char>) -> Option<Seq<char>> {
    if has_prefix(part, "/"@) || !has_suffix(part, "/"@) || part.contains('?') {
        None
    } else {
        let name = text::without_suffixes(part, "/"@);
        if name.len() == 0 {
            None
        } else {
            Some(name)
        }
    }
}

/// The packages of a listing, each once.
pub open spec fn listed_packages(parts: Seq<Seq<char>>) -> Seq<Seq<char>>
    decreases parts.len(),
{
    if parts.len() == 0 {
        Seq::empty()
    } else {
        let rest = listed_packages(parts.drop_last());
        match directory_name(parts.last()) {
            None => rest,
            Some(name) => if rest.contains(name) {
                rest
            } else {
                rest.push(unescaped(name))
            },
        }
    }
}

fn find_directory_name(part: &str) -> (r: Option<String>)
    ensures
        text::opt_text(r) == directory_name(part@),
{
    if text::starts_with(part, "/") || !text::ends_with(part, "/") || text::contains_char(part, '?') {
        return None;
    }
    let name = text::trim_end_matches(part, "/");
    if name.as_str().is_empty() {
        None
    } else {
        Some(name)
    }
}

impl CranArchiveRootListing {
    /// Reads the listing of an archive.
    pub fn parse(input: &str) -> (r: CranArchiveRootListing)
        ensures
            texts(r.packages@) == listed_packages(split_by(input@, listing_marks())),
    {
        let parts = archive_listing_parts(input);
        let ghost all = texts(parts@);
        let mut packages: Vec<String> = Vec::new();
        let mut i: usize = 0;
        assert(all.take(0) =~= Seq::<Seq<char>>::empty());
        assert(texts(packages@) =~= Seq::<Seq<char>>::empty());
        while i < parts.len()
            invariant
                i <= parts@.len(),
                all == texts(parts@),
                texts(packages@) == listed_packages(all.take(i as int)),
            decreases parts@.len() - i,
        {
            assert(all.take(i + 1).drop_last() =~= all.take(i as int));
            assert(all[i as int] == parts@[i as int]@);
            let ghost before = packages@;
            match find_directory_name(parts[i].as_str()) {
                None => {},
                Some(name) => {
                    if !text::holds(&packages, name.as_str()) {
                        let shown = html_unescape_minimal(name.as_str());
                        packages.push(shown);
                        assert(texts(packages@) =~= texts(before).push(shown@));
                    }
                },
            }
            i = i + 1;
        }
        assert(all.take(i as int) =~= all);
        CranArchiveRootListing { packages }
    }
}

/// The archived versions of a package.
#[derive(Debug)]
pub struct CranPackageArchiveListing {
    pub versions: Vec<Version>,
}

/// The last piece of a text.
pub open spec fn last_piece(s: Seq<char>, sep: char) -> Seq<char> {
    split_on(s, sep).last()
}

/// The spelling of the version of the archived file that a part of a listing links to.
pub open spec fn archived_version(part: Seq<char>) -> Option<Seq<char>> {
    let file = last_piece(part, '/');
    if !has_suffix(file, ".tar.gz"@) || !file.contains('_') {
        None
    } else {
        let name = unescaped(file);
        if !has_suffix(name, ".tar.gz"@) {
            None
        } else {
            let pieces = split_on(name.take(name.len() - ".tar.gz"@.len()), '_');
            let package = joined(pieces.drop_last(), "_"@);
            if pieces.len() < 2 || package.len() == 0 || pieces.last().len() == 0 {
                None
            } else {
                Some(pieces.last())
            }
        }
    }
}

fn find_archived_version(part: &str) -> (r: Option<String>)
    ensures
        text::opt_text(r) == archived_version(part@),
{
    let mut pieces = text::split(part, '/');
    let ghost parts = texts(pieces@);
    let file = match pieces.pop() {
        Some(file) => file,
        None => {
            return None;
        },
    };
    assert(file@ == parts.last());
    if !text::ends_with(file.as_str(), ".tar.gz") || !text::contains_char(file.as_str(), '_') {
        return None;
    }
    let name = html_unescape_minimal(file.as_str());
    if !text::ends_with(name.as_str(), ".tar.gz") {
        return None;
    }
    let chars = text::chars_of(name.as_str());
    proof {
        reveal_strlit(".tar.gz");
    }
    let stem = text::string_of(&chars, 0, chars.len() - 7);
    assert(stem@ =~= name@.take(name@.len() - ".tar.gz"@.len()));
    let mut words = text::split(stem.as_str(), '_');
    let ghost all = texts(words@);
    if words.len() < 2 {
        assert(all.len() == words@.len());
        return None;
    }
    let version = match words.pop() {
        Some(version) => version,
        None => {
            return None;
        },
    };
    assert(texts(words@) =~= all.drop_last());
    assert(version@ == all.last());
    let package = text::join(&words, "_");
    if package.as_str().is_empty() || version.as_str().is_empty() {
        return None;
    }
    Some(version)
}

/// An equal version is in the list.
pub open spec fn lists_version(versions: Seq<VersionV>, version: VersionV) -> bool {
    exists|i: int|
        0 <= i < versions.len() && (#[trigger] versions[i]).order(version) == Order::Equal
}

/// The versions of a listing, each once, or the message about the first that is none.
pub open spec fn archived_versions(parts: Seq<Seq<char>>) -> Result<Seq<VersionV>, Seq<char>>
    decreases parts.len(),
{
    if parts.len() == 0 {
        Ok(Seq::empty())
    } else {
        match archived_versions(parts.drop_last()) {
            Err(message) => Err(message),
            Ok(rest) => match archived_version(parts.last()) {
                None => Ok(rest),
                Some(text) => match version_components(text) {
                    None => Err(version_failure(text).0),
                    Some(components) => {
                        let version = VersionV { text, components };
                        if lists_version(rest, version) {
                            Ok(rest)
                        } else {
                            Ok(rest.push(version))
                        }
                    },
                },
            },
        }
    }
}

proof fn lemma_archive_fault_stays(parts: Seq<Seq<char>>, k: int)
    requires
        0 <= k <= parts.len(),
    ensures
        archived_versions(parts.take(k)) is Err ==> archived_versions(parts) == archived_versions(
            parts.take(k),
        ),
    decreases parts.len() - k,
{
    if k == parts.len() {
        assert(parts.take(k) =~= parts);
    } else {
        lemma_archive_fault_stays(parts, k + 1);
        assert(parts.take(k + 1).drop_last() =~= parts.take(k));
    }
}

/// Versions.
pub open spec fn version_list(v: Seq<Version>) -> Seq<VersionV> {
    v.map_values(|x: Version| x@)
}

fn has_version(versions: &Vec<Version>, version: &Version) -> (r: bool)
    ensures
        r == lists_version(version_list(versions@), version@),
{
    let ghost all = version_list(versions@);
    let mut i: usize = 0;
    while i < versions.len()
        invariant
            i <= versions@.len(),
            all == version_list(versions@),
            forall|k: int|
                0 <= k < i ==> (#[trigger] all[k]).order(version@) != Order::Equal,
        decreases versions@.len() - i,
    {
        assert(all[i as int] == versions@[i as int]@);
        assert(all[i as int].order(version@) == components_order(
            versions@[i as int].components@,
            version.components@,
        ));
        if versions[i].same(version) {
            return true;
        }
        i = i + 1;
    }
    false
}

impl CranPackageArchiveListing {
    /// Reads the listing of the archived versions of a package.
    pub fn parse(input: &str) -> (r: Result<CranPackageArchiveListing, String>)
        ensures
            match r {
                Ok(listing) => {
                    &&& archived_versions(split_by(input@, listing_marks())) == Ok::<
                        Seq<VersionV>,
                        Seq<char>,
                    >(version_list(listing.versions@))
                    &&& forall|i: int|
                        0 <= i < listing.versions@.len() ==> (#[trigger] listing.versions@[i]).wf()
                },
                Err(message) => archived_versions(split_by(input@, listing_marks())) == Err::<
                    Seq<VersionV>,
                    Seq<char>,
                >(message@),
            },
    {
        let parts = archive_listing_parts(input);
        let ghost all = texts(parts@);
        let mut versions: Vec<Version> = Vec::new();
        let mut i: usize = 0;
        assert(all.take(0) =~= Seq::<Seq<char>>::empty());
        assert(version_list(versions@) =~= Seq::<VersionV>::empty());
        while i < parts.len()
            invariant
                i <= parts@.len(),
                all == texts(parts@),
                all == split_by(input@, listing_marks()),
                archived_versions(all.take(i as int)) == Ok::<Seq<VersionV>, Seq<char>>(
                    version_list(versions@),
                ),
                forall|k: int| 0 <= k < versions@.len() ==> (#[trigger] versions@[k]).wf(),
            decreases parts@.len() - i,
        {
            proof {
                assert(all.take(i + 1).drop_last() =~= all.take(i as int));
                assert(all[i as int] == parts@[i as int]@);
                lemma_archive_fault_stays(all, i + 1);
            }
            let ghost before = versions@;
            match find_archived_version(parts[i].as_str()) {
                None => {},
                Some(text) => match Version::parse(text.as_str()) {
                    Ok(version) => {
                        if !has_version(&versions, &version) {
                            versions.push(version);
                            assert(version_list(versions@) =~= version_list(before).push(
                                version@,
                            ));
                        }
                    },
                    Err(error) => {
                        return Err(error.message);
                    },
                },
            }
            i = i + 1;
        }
        assert(all.take(i as int) =~= all);
        Ok(CranPackageArchiveListing { versions })
    }
}

/// A package of an index.
#[derive(Debug)]
pub struct CranPackageIndexEntry {
    pub package: String,
    pub version: String,
    pub depends: Vec<Relation>,
    pub imports: Vec<Relation>,
    pub suggests: Vec<Relation>,
    pub linking_to: Vec<Relation>,
}

/// A package of an index.
pub struct IndexEntryV {
    pub package: Seq<char>,
    pub version: Seq<char>,
    pub depends: Seq<RelationV>,
    pub imports: Seq<RelationV>,
    pub suggests: Seq<RelationV>,
    pub linking_to: Seq<RelationV>,
}

/// Relations.
pub open spec fn relation_list(v: Seq<Relation>) -> Seq<RelationV> {
    v.map_values(|x: Relation| x@)
}

impl CranPackageIndexEntry {
    /// The entry, as characters.
    pub open spec fn view(&self) -> IndexEntryV {
        IndexEntryV {
            package: self.package@,
            version: self.version@,
            depends: relation_list(self.depends@),
            imports: relation_list(self.imports@),
            suggests: relation_list(self.suggests@),
            linking_to: relation_list(self.linking_to@),
        }
    }
}

/// An index of packages.
#[derive(Debug)]
pub struct CranPackagesIndex {
    pub packages: Vec<CranPackageIndexEntry>,
}

/// The names and values of fields.
pub open spec fn field_pairs(v: Seq<(String, String)>) -> Seq<(Seq<char>, Seq<char>)> {
    v.map_values(|x: (String, String)| (x.0@, x.1@))
}

/// What a paragraph was read as.
pub open spec fn paragraph_view(v: Result<Vec<(String, String)>, String>) -> Result<
    Seq<(Seq<char>, Seq<char>)>,
    Seq<char>,
> {
    match v {
        Ok(fields) => Ok(field_pairs(fields@)),
        Err(message) => Err(message@),
    }
}

/// What paragraphs were read as.
pub open spec fn paragraph_views(v: Seq<Result<Vec<(String, String)>, String>>) -> Seq<
    Result<Seq<(Seq<char>, Seq<char>)>, Seq<char>>,
> {
    v.map_values(|x: Result<Vec<(String, String)>, String>| paragraph_view(x))
}

/// The paragraphs of a text, each with its fields or with the message of an error.
pub uninterp spec fn paragraphs_of(text: Seq<char>) -> Seq<
    Result<Seq<(Seq<char>, Seq<char>)>, Seq<char>>,
>;

/// `deb822_fast::ParagraphReader`: the paragraphs of a text, in order.
#[verifier::external_body]
fn read_paragraphs(text: &str) -> (r: Vec<Result<Vec<(String, String)>, String>>)
    ensures
        paragraph_views(r@) == paragraphs_of(text@),
{
    deb822_fast::ParagraphReader::new(std::io::Cursor::new(text)).map(|paragraph| {
        paragraph.map(|paragraph| {
            paragraph.fields.into_iter().map(|field| (field.name, field.value)).collect()
        }).map_err(|error| error.to_string())
    }).collect()
}

/// The value of the first field with a name, whatever the case of its letters.
pub open spec fn field_value(fields: Seq<(Seq<char>, Seq<char>)>, name: Seq<char>) -> Option<
    Seq<char>,
>
    decreases fields.len(),
{
    if fields.len() == 0 {
        None
    } else if lowered(fields[0].0) == lowered(name) {
        Some(fields[0].1)
    } else {
        field_value(fields.skip(1), name)
    }
}

fn find_field(fields: &Vec<(String, String)>, name: &str) -> (r: Option<String>)
    ensures
        text::opt_text(r) == field_value(field_pairs(fields@), name@),
{
    let ghost all = field_pairs(fields@);
    let wanted = text::lower_chars(name);
    let mut i: usize = 0;
    assert(all.skip(0) =~= all);
    while i < fields.len()
        invariant
            i <= fields@.len(),
            all == field_pairs(fields@),
            wanted@ == lowered(name@),
            field_value(all, name@) == field_value(all.skip(i as int), name@),
        decreases fields@.len() - i,
    {
        let ghost rest = all.skip(i as int);
        assert(rest[0] == (fields@[i as int].0@, fields@[i as int].1@));
        assert(rest.skip(1) =~= all.skip(i + 1));
        let known = text::lower_chars(fields[i].0.as_str());
        if same_chars(&known, &wanted) {
            return Some(fields[i].1.clone());
        }
        i = i + 1;
    }
    None
}

fn same_chars(a: &Vec<char>, b: &Vec<char>) -> (r: bool)
    ensures
        r == (a@ == b@),
{
    if a.len() != b.len() {
        return false;
    }
    let mut i: usize = 0;
    while i < a.len()
        invariant
            i <= a@.len() == b@.len(),
            forall|k: int| 0 <= k < i ==> a@[k] == b@[k],
        decreases a@.len() - i,
    {
        if a[i] != b[i] {
            return false;
        }
        i = i + 1;
    }
    assert(a@ =~= b@);
    true
}

/// The value of a field that has to be there.
pub open spec fn required_value(fields: Seq<(Seq<char>, Seq<char>)>, name: Seq<char>) -> Result<
    Seq<char>,
    Seq<char>,
> {
    match field_value(fields, name) {
        Some(value) => if trimmed(value).len() > 0 {
            Ok(trimmed(value))
        } else {
            Err("missing required field "@ + name)
        },
        None => Err("missing required field "@ + name),
    }
}

fn required_packages_field(fields: &Vec<(String, String)>, name: &str) -> (r: Result<String, String>)
    ensures
        match r {
            Ok(value) => required_value(field_pairs(fields@), name@) == Ok::<Seq<char>, Seq<char>>(
                value@,
            ),
            Err(message) => required_value(field_pairs(fields@), name@) == Err::<
                Seq<char>,
                Seq<char>,
            >(message@),
        },
{
    match find_field(fields, name) {
        Some(value) => {
            let value = text::trim(value.as_str());
            if value.as_str().is_empty() {
                Err(text::cat("missing required field ", name))
            } else {
                Ok(value)
            }
        },
        None => Err(text::cat("missing required field ", name)),
    }
}

/// The relations that pieces spell, or the message about the first that spells none.
pub open spec fn relations_spelled(name: Seq<char>, pieces: Seq<Seq<char>>) -> Result<
    Seq<RelationV>,
    Seq<char>,
>
    decreases pieces.len(),
{
    if pieces.len() == 0 {
        Ok(Seq::empty())
    } else {
        match relations_spelled(name, pieces.drop_last()) {
            Err(message) => Err(message),
            Ok(rest) => match parsed_relation(pieces.last()) {
                Err(details) => Err("failed to parse "@ + name + ": "@ + details),
                Ok(parts) => Ok(rest.push(RelationV { package: parts.0, requirement: parts.1 })),
            },
        }
    }
}

proof fn lemma_spelled_fault_stays(name: Seq<char>, pieces: Seq<Seq<char>>, k: int)
    requires
        0 <= k <= pieces.len(),
    ensures
        relations_spelled(name, pieces.take(k)) is Err ==> relations_spelled(name, pieces)
            == relations_spelled(name, pieces.take(k)),
    decreases pieces.len() - k,
{
    if k == pieces.len() {
        assert(pieces.take(k) =~= pieces);
    } else {
        lemma_spelled_fault_stays(name, pieces, k + 1);
        assert(pieces.take(k + 1).drop_last() =~= pieces.take(k));
    }
}

/// The relations of a field; a field that is not there or is empty has none.
pub open spec fn field_relation_list(fields: Seq<(Seq<char>, Seq<char>)>, name: Seq<char>) -> Result<
    Seq<RelationV>,
    Seq<char>,
> {
    match field_value(fields, name) {
        None => Ok(Seq::empty()),
        Some(value) => if trimmed(value).len() == 0 {
            Ok(Seq::empty())
        } else {
            relations_spelled(name, split_on(trimmed(value), ','))
        },
    }
}

fn parse_packages_relations_field(fields: &Vec<(String, String)>, name: &str) -> (r: Result<
    Vec<Relation>,
    String,
>)
    ensures
        match r {
            Ok(list) => field_relation_list(field_pairs(fields@), name@) == Ok::<
                Seq<RelationV>,
                Seq<char>,
            >(relation_list(list@)),
            Err(message) => field_relation_list(field_pairs(fields@), name@) == Err::<
                Seq<RelationV>,
                Seq<char>,
            >(message@),
        },
{
    let mut out: Vec<Relation> = Vec::new();
    assert(relation_list(out@) =~= Seq::<RelationV>::empty());
    let value = match find_field(fields, name) {
        Some(value) => text::trim(value.as_str()),
        None => {
            return Ok(out);
        },
    };
    if value.as_str().is_empty() {
        return Ok(out);
    }
    let pieces = text::split(value.as_str(), ',');
    let ghost all = texts(pieces@);
    let mut i: usize = 0;
    assert(all.take(0) =~= Seq::<Seq<char>>::empty());
    while i < pieces.len()
        invariant
            i <= pieces@.len(),
            all == texts(pieces@),
            all == split_on(value@, ','),
            field_relation_list(field_pairs(fields@), name@) == relations_spelled(name@, all),
            relations_spelled(name@, all.take(i as int)) == Ok::<Seq<RelationV>, Seq<char>>(
                relation_list(out@),
            ),
        decreases pieces@.len() - i,
    {
        proof {
            assert(all.take(i + 1).drop_last() =~= all.take(i as int));
            assert(all[i as int] == pieces@[i as int]@);
            lemma_spelled_fault_stays(name@, all, i + 1);
        }
        match Relation::parse(pieces[i].as_str()) {
            Ok(relation) => {
                let ghost before = out@;
                out.push(relation);
                assert(relation_list(out@) =~= relation_list(before).push(relation@));
            },
            Err(details) => {
                return Err(text::cat4("failed to parse ", name, ": ", details.as_str()));
            },
        }
        i = i + 1;
    }
    assert(all.take(i as int) =~= all);
    Ok(out)
}

/// The entry of an index that a paragraph is, or why it is none.
pub open spec fn index_entry(fields: Seq<(Seq<char>, Seq<char>)>) -> Result<IndexEntryV, Seq<char>> {
    match required_value(fields, "Package"@) {
        Err(message) => Err(message),
        Ok(package) => match required_value(fields, "Version"@) {
            Err(message) => Err(message),
            Ok(version) => match field_relation_list(fields, "Depends"@) {
                Err(message) => Err(message),
                Ok(depends) => match field_relation_list(fields, "Imports"@) {
                    Err(message) => Err(message),
                    Ok(imports) => match field_relation_list(fields, "Suggests"@) {
                        Err(message) => Err(message),
                        Ok(suggests) => match field_relation_list(fields, "LinkingTo"@) {
                            Err(message) => Err(message),
                            Ok(linking_to) => Ok(
                                IndexEntryV {
                                    package,
                                    version,
                                    depends,
                                    imports,
                                    suggests,
                                    linking_to,
                                },
                            ),
                        },
                    },
                },
            },
        },
    }
}

fn cran_package_index_entry_from_paragraph(fields: &Vec<(String, String)>) -> (r: Result<
    CranPackageIndexEntry,
    String,
>)
    ensures
        match r {
            Ok(entry) => index_entry(field_pairs(fields@)) == Ok::<IndexEntryV, Seq<char>>(entry@),
            Err(message) => index_entry(field_pairs(fields@)) == Err::<IndexEntryV, Seq<char>>(
                message@,
            ),
        },
{
    let package = match required_packages_field(fields, "Package") {
        Ok(value) => value,
        Err(message) => {
            return Err(message);
        },
    };
    let version = match required_packages_field(fields, "Version") {
        Ok(value) => value,
        Err(message) => {
            return Err(message);
        },
    };
    let depends = match parse_packages_relations_field(fields, "Depends") {
        Ok(list) => list,
        Err(message) => {
            return Err(message);
        },
    };
    let imports = match parse_packages_relations_field(fields, "Imports") {
        Ok(list) => list,
        Err(message) => {
            return Err(message);
        },
    };
    let suggests = match parse_packages_relations_field(fields, "Suggests") {
        Ok(list) => list,
        Err(message) => {
            return Err(message);
        },
    };
    let linking_to = match parse_packages_relations_field(fields, "LinkingTo") {
        Ok(list) => list,
        Err(message) => {
            return Err(message);
        },
    };
    Ok(CranPackageIndexEntry { package, version, depends, imports, suggests, linking_to })
}

/// The entries of paragraphs, or the message about the first that is none.
pub open spec fn index_entries(
    paragraphs: Seq<Result<Seq<(Seq<char>, Seq<char>)>, Seq<char>>>,
) -> Result<Seq<IndexEntryV>, Seq<char>>
    decreases paragraphs.len(),
{
    if paragraphs.len() == 0 {
        Ok(Seq::empty())
    } else {
        match index_entries(paragraphs.drop_last()) {
            Err(message) => Err(message),
            Ok(rest) => match paragraphs.last() {
                Err(message) => Err(message),
                Ok(fields) => match index_entry(fields) {
                    Err(message) => Err(message),
                    Ok(entry) => Ok(rest.push(entry)),
                },
            },
        }
    }
}

proof fn lemma_index_fault_stays(
    paragraphs: Seq<Result<Seq<(Seq<char>, Seq<char>)>, Seq<char>>>,
    k: int,
)
    requires
        0 <= k <= paragraphs.len(),
    ensures
        index_entries(paragraphs.take(k)) is Err ==> index_entries(paragraphs) == index_entries(
            paragraphs.take(k),
        ),
    decreases paragraphs.len() - k,
{
    if k == paragraphs.len() {
        assert(paragraphs.take(k) =~= paragraphs);
    } else {
        lemma_index_fault_stays(paragraphs, k + 1);
        assert(paragraphs.take(k + 1).drop_last() =~= paragraphs.take(k));
    }
}

/// Entries.
pub open spec fn entry_list(v: Seq<CranPackageIndexEntry>) -> Seq<IndexEntryV> {
    v.map_values(|x: CranPackageIndexEntry| x@)
}

/// Reads the entries of paragraphs.
pub fn index_from_paragraphs(paragraphs: &Vec<Result<Vec<(String, String)>, String>>) -> (r: Result<
    CranPackagesIndex,
    String,
>)
    ensures
        match r {
            Ok(index) => index_entries(paragraph_views(paragraphs@)) == Ok::<
                Seq<IndexEntryV>,
                Seq<char>,
            >(entry_list(index.packages@)),
            Err(message) => index_entries(paragraph_views(paragraphs@)) == Err::<
                Seq<IndexEntryV>,
                Seq<char>,
            >(message@),
        },
{
    let ghost all = paragraph_views(paragraphs@);
    let mut packages: Vec<CranPackageIndexEntry> = Vec::new();
    let mut i: usize = 0;
    proof {
        assert(all.take(0) =~= Seq::<Result<Seq<(Seq<char>, Seq<char>)>, Seq<char>>>::empty());
        assert(entry_list(packages@) =~= Seq::<IndexEntryV>::empty());
    }
    while i < paragraphs.len()
        invariant
            i <= paragraphs@.len(),
            all == paragraph_views(paragraphs@),
            index_entries(all.take(i as int)) == Ok::<Seq<IndexEntryV>, Seq<char>>(
                entry_list(packages@),
            ),
        decreases paragraphs@.len() - i,
    {
        proof {
            assert(all.take(i + 1).drop_last() =~= all.take(i as int));
            assert(all[i as int] == paragraph_view(paragraphs@[i as int]));
            lemma_index_fault_stays(all, i + 1);
        }
        match &paragraphs[i] {
            Err(message) => {
                return Err(message.clone());
            },
            Ok(fields) => match cran_package_index_entry_from_paragraph(fields) {
                Ok(entry) => {
                    let ghost before = packages@;
                    packages.push(entry);
                    assert(entry_list(packages@) =~= entry_list(before).push(entry@));
                },
                Err(message) => {
                    return Err(message);
                },
            },
        }
        i = i + 1;
    }
    assert(all.take(i as int) =~= all);
    Ok(CranPackagesIndex { packages })
}

impl CranPackagesIndex {
    /// Reads an index of packages.
    pub fn parse(input: &str) -> (r: Result<CranPackagesIndex, String>)
        ensures
            match r {
                Ok(index) => index_entries(paragraphs_of(input@)) == Ok::<
                    Seq<IndexEntryV>,
                    Seq<char>,
                >(entry_list(index.packages@)),
                Err(message) => index_entries(paragraphs_of(input@)) == Err::<
                    Seq<IndexEntryV>,
                    Seq<char>,
                >(message@),
            },
    {
        let paragraphs = read_paragraphs(input);
        index_from_paragraphs(&paragraphs)
    }
}

/// A text is replaced from its first occurrence on: what stands before it stays, and what
/// stands behind it is searched further. A text in which nothing occurs stays.
pub proof fn parts_are_replaced_in_turn(
    before: Seq<char>,
    part: Seq<char>,
    after: Seq<char>,
    by: Seq<char>,
)
    requires
        part.len() > 0,
    ensures
        (forall|i: int|
            0 <= i < before.len() ==> !has_prefix(
                #[trigger] (before + part + after).skip(i),
                part,
            )) ==> replaced_text(before + part + after, part, by) == before + by + replaced_text(
            after,
            part,
            by,
        ),
        (forall|i: int| 0 <= i < before.len() ==> !has_prefix(#[trigger] before.skip(i), part))
            ==> replaced_text(before, part, by) == before,
    decreases before.len(),
{
    let whole = before + part + after;
    if before.len() == 0 {
        assert(whole =~= part + after);
        assert(whole.take(part.len() as int) =~= part);
        assert(whole.skip(part.len() as int) =~= after);
        assert(before + by + replaced_text(after, part, by) =~= by + replaced_text(after, part, by));
    } else {
        let t = before.skip(1);
        let rest = t + part + after;
        assert(whole.skip(1) =~= rest);
        assert(whole.skip(0) =~= whole);
        assert(before.skip(0) =~= before);
        parts_are_replaced_in_turn(t, part, after, by);
        if forall|i: int|
            0 <= i < before.len() ==> !has_prefix(#[trigger] whole.skip(i), part) {
            assert(!has_prefix(whole.skip(0), part));
            assert forall|i: int| 0 <= i < t.len() implies !has_prefix(
                #[trigger] rest.skip(i),
                part,
            ) by {
                assert(rest.skip(i) =~= whole.skip(i + 1));
            }
            assert(whole[0] == before[0]);
            assert(seq![whole[0]] + (t + by + replaced_text(after, part, by)) =~= before + by
                + replaced_text(after, part, by));
        }
        if forall|i: int| 0 <= i < before.len() ==> !has_prefix(#[trigger] before.skip(i), part) {
            assert(!has_prefix(before.skip(0), part));
            assert forall|i: int| 0 <= i < t.len() implies !has_prefix(
                #[trigger] t.skip(i),
                part,
            ) by {
                assert(t.skip(i) =~= before.skip(i + 1));
            }
            assert(seq![before[0]] + t =~= before);
        }
    }
}

proof fn lemma_plain_stays(s: Seq<char>, part: Seq<char>, by: Seq<char>)
    requires
        part.len() > 0,
        !s.contains(part[0]),
    ensures
        replaced_text(s, part, by) == s,
{
    assert forall|i: int| 0 <= i < s.len() implies !has_prefix(#[trigger] s.skip(i), part) by {
        if has_prefix(s.skip(i), part) {
            assert(s.skip(i).take(part.len() as int)[0] == s[i]);
            assert(s.contains(s[i]));
        }
    }
    parts_are_replaced_in_turn(s, part, Seq::empty(), by);
}

proof fn lemma_replaced_once(a: Seq<char>, part: Seq<char>, b: Seq<char>, by: Seq<char>)
    requires
        part.len() > 0,
        !a.contains(part[0]),
        !b.contains(part[0]),
    ensures
        replaced_text(a + part + b, part, by) == a + by + b,
{
    let whole = a + part + b;
    assert forall|i: int| 0 <= i < a.len() implies !has_prefix(#[trigger] whole.skip(i), part) by {
        if has_prefix(whole.skip(i), part) {
            assert(whole.skip(i).take(part.len() as int)[0] == whole[i]);
            assert(whole[i] == a[i]);
            assert(a.contains(a[i]));
        }
    }
    parts_are_replaced_in_turn(a, part, b, by);
    lemma_plain_stays(b, part, by);
}

proof fn lemma_other_stays(a: Seq<char>, entity: Seq<char>, b: Seq<char>, part: Seq<char>, by: Seq<char>)
    requires
        part.len() > 1,
        entity.len() > 1,
        part[0] == '&',
        entity[0] == '&',
        part[1] != entity[1],
        forall|i: int| 1 <= i < entity.len() ==> entity[i] != '&',
        !a.contains('&'),
        !b.contains('&'),
    ensures
        replaced_text(a + entity + b, part, by) == a + entity + b,
{
    let s = a + entity + b;
    assert forall|i: int| 0 <= i < s.len() implies !has_prefix(#[trigger] s.skip(i), part) by {
        if has_prefix(s.skip(i), part) {
            let head = s.skip(i).take(part.len() as int);
            assert(head[0] == s[i]);
            assert(head[1] == s[i + 1]);
            if i < a.len() {
                assert(s[i] == a[i]);
                assert(a.contains(a[i]));
            } else if i < a.len() + entity.len() {
                assert(s[i] == entity[i - a.len()]);
                assert(i == a.len());
                assert(s[i + 1] == entity[1]);
            } else {
                let c = b[i - a.len() - entity.len()];
                assert(s[i] == c);
                assert(b.contains(c));
            }
        }
    }
    parts_are_replaced_in_turn(s, part, Seq::empty(), by);
}

proof fn lemma_in_three(a: Seq<char>, m: Seq<char>, b: Seq<char>, c: char)
    requires
        !a.contains(c),
        !m.contains(c),
        !b.contains(c),
    ensures
        !(a + m + b).contains(c),
{
    let s = a + m + b;
    if s.contains(c) {
        let i = choose|i: int| 0 <= i < s.len() && s[i] == c;
        if i < a.len() {
            assert(a[i] == c);
        } else if i < a.len() + m.len() {
            assert(m[i - a.len()] == c);
        } else {
            assert(b[i - a.len() - m.len()] == c);
        }
    }
}

/// Texts without an ampersand hold nothing that is escaped. Where the text around it is such a
/// one, each of the escaped signs is read as the sign.
pub proof fn escaped_signs_are_read(a: Seq<char>, b: Seq<char>)
    requires
        !a.contains('&'),
        !b.contains('&'),
    ensures
        unescaped(a) == a,
        unescaped(a + "&lt;"@ + b) == a + "<"@ + b,
        unescaped(a + "&gt;"@ + b) == a + ">"@ + b,
        unescaped(a + "&quot;"@ + b) == a + "\""@ + b,
{
    reveal_strlit("&amp;");
    reveal_strlit("&lt;");
    reveal_strlit("&gt;");
    reveal_strlit("&quot;");
    reveal_strlit("&");
    reveal_strlit("<");
    reveal_strlit(">");
    reveal_strlit("\"");
    lemma_plain_stays(a, "&amp;"@, "&"@);
    lemma_plain_stays(a, "&lt;"@, "<"@);
    lemma_plain_stays(a, "&gt;"@, ">"@);
    lemma_plain_stays(a, "&quot;"@, "\""@);
    lemma_other_stays(a, "&lt;"@, b, "&amp;"@, "&"@);
    lemma_replaced_once(a, "&lt;"@, b, "<"@);
    let x = a + "<"@ + b;
    lemma_in_three(a, "<"@, b, '&');
    lemma_plain_stays(x, "&gt;"@, ">"@);
    lemma_plain_stays(x, "&quot;"@, "\""@);
    lemma_other_stays(a, "&gt;"@, b, "&amp;"@, "&"@);
    lemma_other_stays(a, "&gt;"@, b, "&lt;"@, "<"@);
    lemma_replaced_once(a, "&gt;"@, b, ">"@);
    let y = a + ">"@ + b;
    lemma_in_three(a, ">"@, b, '&');
    lemma_plain_stays(y, "&quot;"@, "\""@);
    lemma_other_stays(a, "&quot;"@, b, "&amp;"@, "&"@);
    lemma_other_stays(a, "&quot;"@, b, "&lt;"@, "<"@);
    lemma_other_stays(a, "&quot;"@, b, "&gt;"@, ">"@);
    lemma_replaced_once(a, "&quot;"@, b, "\""@);
}

/// A part of a listing that ends in a slash names a directory, unless it starts at the root
/// or asks for something.
pub proof fn directories_end_in_a_slash(name: Seq<char>)
    requires
        name.len() > 0,
        name[0] != '/',
        name.last() != '/',
        !name.contains('?'),
    ensures
        directory_name(name + "/"@) == Some(name),
        directory_name(name) is None,
        directory_name("/"@ + name + "/"@) is None,
        directory_name("?"@ + name + "/"@) is None,
{
    reveal_strlit("/");
    reveal_strlit("?");
    reveal_with_fuel(text::without_suffixes, 2);
    let a = name + "/"@;
    assert(a.skip(a.len() - 1) =~= "/"@);
    assert(a.take(a.len() - 1) =~= name);
    assert(!has_prefix(a, "/"@)) by {
        if has_prefix(a, "/"@) {
            assert(a.take(1)[0] == name[0]);
        }
    }
    assert(!has_suffix(name, "/"@)) by {
        if has_suffix(name, "/"@) {
            assert(name.skip(name.len() - 1)[0] == name.last());
        }
    }
    assert(!a.contains('?')) by {
        if a.contains('?') {
            let i = choose|i: int| 0 <= i < a.len() && a[i] == '?';
            if i < name.len() {
                assert(name[i] == '?');
            }
        }
    }
    let b = "/"@ + name + "/"@;
    assert(b.take(1) =~= "/"@);
    let c = "?"@ + name + "/"@;
    assert(c[0] == '?');
    assert(c.contains(c[0]));
}

/// A listing of packages names each directory that its parts name and nothing else.
pub proof fn listed_directories_are_packages(parts: Seq<Seq<char>>)
    ensures
        forall|i: int, name: Seq<char>|
            0 <= i < parts.len() && #[trigger] directory_name(parts[i]) == Some(name) && !name.contains(
                '&',
            ) ==> #[trigger] listed_packages(parts).contains(name),
        forall|package: Seq<char>| #[trigger]
            listed_packages(parts).contains(package) ==> exists|i: int|
                0 <= i < parts.len() && (#[trigger] directory_name(parts[i])) is Some && package
                    == unescaped(directory_name(parts[i])->0),
    decreases parts.len(),
{
    let all = listed_packages(parts);
    if parts.len() > 0 {
        let t = parts.drop_last();
        let n = parts.len() - 1;
        let rest = listed_packages(t);
        assert(parts[n] == parts.last());
        listed_directories_are_packages(t);
        assert forall|package: Seq<char>| rest.contains(package) implies #[trigger] all.contains(
            package,
        ) by {
            let k = choose|k: int| 0 <= k < rest.len() && rest[k] == package;
            assert(all[k] == package);
        }
        assert forall|i: int, name: Seq<char>|
            0 <= i < parts.len() && #[trigger] directory_name(parts[i]) == Some(name)
                && !name.contains('&') implies #[trigger] all.contains(name) by {
            if i < n {
                assert(t[i] == parts[i]);
                assert(directory_name(t[i]) == Some(name));
                assert(rest.contains(name));
            } else {
                escaped_signs_are_read(name, name);
                if !rest.contains(name) {
                    assert(all[rest.len() as int] == name);
                }
            }
        }
        assert forall|package: Seq<char>| #[trigger] all.contains(package) implies exists|i: int|
            0 <= i < parts.len() && (#[trigger] directory_name(parts[i])) is Some && package
                == unescaped(directory_name(parts[i])->0) by {
            let k = choose|k: int| 0 <= k < all.len() && all[k] == package;
            if k < rest.len() {
                assert(rest[k] == package);
                assert(rest.contains(package));
                let i = choose|i: int|
                    0 <= i < t.len() && (#[trigger] directory_name(t[i])) is Some && package
                        == unescaped(directory_name(t[i])->0);
                assert(t[i] == parts[i]);
                assert(directory_name(parts[i]) is Some);
            } else {
                assert(directory_name(parts[n]) is Some);
            }
        }
    }
}

/// An archived file tells its version between the last low line and its ending, wherever the
/// file stands.
pub proof fn archived_files_tell_their_version(
    directory: Seq<char>,
    package: Seq<char>,
    version: Seq<char>,
)
    requires
        package.len() > 0,
        version.len() > 0,
        !package.contains('/') && !package.contains('&'),
        !version.contains('/') && !version.contains('&') && !version.contains('_'),
    ensures
        archived_version(package + "_"@ + version + ".tar.gz"@) == Some(version),
        archived_version(directory.push('/') + (package + "_"@ + version + ".tar.gz"@)) == Some(
            version,
        ),
{
    reveal_strlit("_");
    reveal_strlit(".tar.gz");
    let end = ".tar.gz"@;
    let stem = package + "_"@ + version;
    let file = package + "_"@ + version + end;
    assert(file =~= stem + end);
    assert(stem =~= package.push('_') + version);
    text::texts_begin_and_end(stem, end);
    assert(file.take(file.len() - end.len()) =~= stem);
    assert(file[package.len() as int] == '_');
    assert(file.contains('_'));
    lemma_in_three(package, "_"@, version, '/');
    lemma_in_three(package, "_"@, version, '&');
    let none = Seq::<char>::empty();
    lemma_in_three(stem, end, none, '/');
    lemma_in_three(stem, end, none, '&');
    assert(stem + end + none =~= file);
    escaped_signs_are_read(file, none);
    let slash = set!['/'];
    let low = set!['_'];
    assert forall|i: int| 0 <= i < file.len() implies !slash.contains(#[trigger] file[i]) by {
        assert(file.contains(file[i]));
    }
    assert forall|i: int| 0 <= i < version.len() implies !low.contains(#[trigger] version[i]) by {
        assert(version.contains(version[i]));
    }
    text::splitting_takes_apart(directory, slash, '/', file);
    text::splitting_takes_apart(package, low, '_', version);
    text::splitting_and_joining(package, '_');
    assert("_"@ =~= seq!['_']);
    let pieces = split_on(stem, '_');
    assert(pieces == split_on(package, '_').push(version));
    assert(pieces.drop_last() =~= split_on(package, '_'));
    assert(last_piece(file, '/') == file);
    assert(last_piece(directory.push('/') + file, '/') == file);
}

/// The part tells the version.
pub open spec fn tells_version(part: Seq<char>, version: VersionV) -> bool {
    archived_version(part) == Some(version.text) && version_components(version.text) == Some(
        version.components,
    )
}

/// The archived versions of a package are those that the parts of its listing tell, each once.
pub proof fn archived_versions_are_listed(parts: Seq<Seq<char>>)
    requires
        archived_versions(parts) is Ok,
    ensures
        forall|i: int, version: VersionV|
            0 <= i < parts.len() && #[trigger] tells_version(parts[i], version) ==> lists_version(
                archived_versions(parts)->Ok_0,
                version,
            ),
        forall|version: VersionV| #[trigger]
            archived_versions(parts)->Ok_0.contains(version) ==> exists|i: int|
                0 <= i < parts.len() && #[trigger] tells_version(parts[i], version),
        forall|i: int, j: int|
            0 <= i < j < archived_versions(parts)->Ok_0.len()
                ==> (#[trigger] archived_versions(parts)->Ok_0[i]).order(
                #[trigger] archived_versions(parts)->Ok_0[j],
            ) != Order::Equal,
    decreases parts.len(),
{
    let all = archived_versions(parts)->Ok_0;
    if parts.len() > 0 {
        let t = parts.drop_last();
        let n = parts.len() - 1;
        let rest = archived_versions(t)->Ok_0;
        assert(parts[n] == parts.last());
        archived_versions_are_listed(t);
        lemma_told_version(rest, parts.last(), all);
        assert forall|i: int, version: VersionV|
            0 <= i < parts.len() && #[trigger] tells_version(
                parts[i],
                version,
            ) implies lists_version(all, version) by {
            if i < n {
                assert(t[i] == parts[i]);
                assert(tells_version(t[i], version));
                assert(lists_version(rest, version));
            }
        }
        assert forall|version: VersionV| #[trigger] all.contains(version) implies exists|i: int|
            0 <= i < parts.len() && #[trigger] tells_version(parts[i], version) by {
            let k = choose|k: int| 0 <= k < all.len() && all[k] == version;
            if k < rest.len() {
                assert(rest[k] == version);
                assert(rest.contains(version));
                let i = choose|i: int| 0 <= i < t.len() && #[trigger] tells_version(t[i], version);
                assert(t[i] == parts[i]);
                assert(tells_version(parts[i], version));
            } else {
                assert(tells_version(parts[n], version));
            }
        }
    }
}

proof fn lemma_told_version(rest: Seq<VersionV>, part: Seq<char>, all: Seq<VersionV>)
    requires
        forall|i: int, j: int|
            0 <= i < j < rest.len() ==> (#[trigger] rest[i]).order(#[trigger] rest[j])
                != Order::Equal,
        match archived_version(part) {
            None => all == rest,
            Some(spelling) => version_components(spelling) matches Some(components) && all == if lists_version(
                rest,
                VersionV { text: spelling, components },
            ) {
                rest
            } else {
                rest.push(VersionV { text: spelling, components })
            },
        },
    ensures
        forall|version: VersionV| #[trigger]
            lists_version(rest, version) ==> lists_version(all, version),
        forall|version: VersionV| #[trigger]
            tells_version(part, version) ==> lists_version(all, version),
        rest.len() <= all.len() && forall|k: int| 0 <= k < rest.len() ==> all[k] == rest[k],
        forall|k: int| rest.len() <= k < all.len() ==> tells_version(part, #[trigger] all[k]),
        forall|i: int, j: int|
            0 <= i < j < all.len() ==> (#[trigger] all[i]).order(#[trigger] all[j])
                != Order::Equal,
{
    assert forall|version: VersionV| #[trigger] lists_version(rest, version) implies lists_version(
        all,
        version,
    ) by {
        let k = choose|k: int|
            0 <= k < rest.len() && (#[trigger] rest[k]).order(version) == Order::Equal;
        assert(all[k].order(version) == Order::Equal);
    }
    assert forall|version: VersionV| #[trigger] tells_version(part, version) implies lists_version(
        all,
        version,
    ) by {
        if !lists_version(rest, version) {
            VersionV::order_flips(version, version);
            assert(all[rest.len() as int].order(version) == Order::Equal);
        }
    }
}

/// The value of a field is that of the first field of its name, in whatever case the name is
/// written.
pub proof fn fields_are_found_by_name(
    fields: Seq<(Seq<char>, Seq<char>)>,
    name: Seq<char>,
    i: int,
)
    ensures
        0 <= i < fields.len() && lowered(fields[i].0) == lowered(name) && (forall|j: int|
            0 <= j < i ==> lowered((#[trigger] fields[j]).0) != lowered(name)) ==> field_value(
            fields,
            name,
        ) == Some(fields[i].1),
        (forall|j: int| 0 <= j < fields.len() ==> lowered((#[trigger] fields[j]).0) != lowered(name))
            ==> field_value(fields, name) is None,
    decreases fields.len(),
{
    if fields.len() > 0 {
        let t = fields.skip(1);
        fields_are_found_by_name(t, name, i - 1);
        if 0 <= i < fields.len() && lowered(fields[i].0) == lowered(name) && (forall|j: int|
            0 <= j < i ==> lowered((#[trigger] fields[j]).0) != lowered(name)) {
            if i > 0 {
                assert(t[i - 1] == fields[i]);
                assert(lowered(fields[0].0) != lowered(name));
                assert forall|j: int| 0 <= j < i - 1 implies lowered((#[trigger] t[j]).0)
                    != lowered(name) by {
                    assert(t[j] == fields[j + 1]);
                }
            }
        }
        if forall|j: int| 0 <= j < fields.len() ==> lowered((#[trigger] fields[j]).0) != lowered(
            name,
        ) {
            assert forall|j: int| 0 <= j < t.len() implies lowered((#[trigger] t[j]).0) != lowered(
                name,
            ) by {
                assert(t[j] == fields[j + 1]);
            }
        }
    }
}

/// The relations of a field are read one by one, in order, if each of them is one.
pub proof fn relations_are_read_in_order(name: Seq<char>, pieces: Seq<Seq<char>>)
    ensures
        relations_spelled(name, pieces) is Ok <==> forall|i: int|
            0 <= i < pieces.len() ==> parsed_relation(#[trigger] pieces[i]) is Ok,
        relations_spelled(name, pieces) matches Ok(relations) ==> relations.len() == pieces.len()
            && forall|i: int|
            0 <= i < pieces.len() ==> parsed_relation(#[trigger] pieces[i])->Ok_0 == (
                relations[i].package,
                relations[i].requirement,
            ),
    decreases pieces.len(),
{
    if pieces.len() > 0 {
        let t = pieces.drop_last();
        let n = pieces.len() - 1;
        assert(pieces[n] == pieces.last());
        relations_are_read_in_order(name, t);
        if forall|i: int| 0 <= i < pieces.len() ==> parsed_relation(#[trigger] pieces[i]) is Ok {
            assert forall|i: int| 0 <= i < t.len() implies parsed_relation(#[trigger] t[i]) is Ok by {
                assert(t[i] == pieces[i]);
            }
        }
        if let Ok(rest) = relations_spelled(name, t) {
            assert forall|i: int| 0 <= i < n implies parsed_relation(#[trigger] pieces[i]) is Ok
                && parsed_relation(pieces[i])->Ok_0 == (rest[i].package, rest[i].requirement) by {
                assert(t[i] == pieces[i]);
            }
            if let Ok(relations) = relations_spelled(name, pieces) {
                assert forall|i: int| 0 <= i < pieces.len() implies parsed_relation(
                    #[trigger] pieces[i],
                )->Ok_0 == (relations[i].package, relations[i].requirement) by {
                    if i < n {
                        assert(relations[i] == rest[i]);
                    }
                }
            }
        }
    }
}

/// An index has one entry for each of its paragraphs, in order, if each of them can be read.
pub proof fn paragraphs_are_entries(
    paragraphs: Seq<Result<Seq<(Seq<char>, Seq<char>)>, Seq<char>>>,
)
    ensures
        index_entries(paragraphs) is Ok <==> forall|i: int|
            0 <= i < paragraphs.len() ==> (#[trigger] paragraphs[i]) is Ok && index_entry(
                paragraphs[i]->Ok_0,
            ) is Ok,
        index_entries(paragraphs) matches Ok(entries) ==> entries.len() == paragraphs.len()
            && forall|i: int|
            0 <= i < paragraphs.len() ==> index_entry((#[trigger] paragraphs[i])->Ok_0)->Ok_0
                == entries[i],
    decreases paragraphs.len(),
{
    if paragraphs.len() > 0 {
        let t = paragraphs.drop_last();
        let n = paragraphs.len() - 1;
        assert(paragraphs[n] == paragraphs.last());
        paragraphs_are_entries(t);
        if forall|i: int|
            0 <= i < paragraphs.len() ==> (#[trigger] paragraphs[i]) is Ok && index_entry(
                paragraphs[i]->Ok_0,
            ) is Ok {
            assert forall|i: int| 0 <= i < t.len() implies (#[trigger] t[i]) is Ok && index_entry(
                t[i]->Ok_0,
            ) is Ok by {
                assert(t[i] == paragraphs[i]);
            }
        }
        if let Ok(rest) = index_entries(t) {
            assert forall|i: int| 0 <= i < n implies (#[trigger] paragraphs[i]) is Ok
                && index_entry(paragraphs[i]->Ok_0) is Ok && index_entry(
                paragraphs[i]->Ok_0,
            )->Ok_0 == rest[i] by {
                assert(t[i] == paragraphs[i]);
            }
            if let Ok(entries) = index_entries(paragraphs) {
                assert forall|i: int| 0 <= i < paragraphs.len() implies index_entry(
                    (#[trigger] paragraphs[i])->Ok_0,
                )->Ok_0 == entries[i] by {
                    if i < n {
                        assert(entries[i] == rest[i]);
                    }
                }
            }
        }
    }
}

/// An entry of an index is read from the fields of its paragraph: the name and the version
/// must be there, and each list of relations is that of its own field.
pub proof fn entries_are_read_from_their_fields(fields: Seq<(Seq<char>, Seq<char>)>)
    requires
        index_entry(fields) is Ok,
    ensures
        ({
            let entry = index_entry(fields)->Ok_0;
            &&& field_value(fields, "Package"@) matches Some(value) && entry.package == trimmed(
                value,
            ) && entry.package.len() > 0
            &&& field_value(fields, "Version"@) matches Some(value) && entry.version == trimmed(
                value,
            ) && entry.version.len() > 0
            &&& read_from_field(fields, "Depends"@, entry.depends)
            &&& read_from_field(fields, "Imports"@, entry.imports)
            &&& read_from_field(fields, "Suggests"@, entry.suggests)
            &&& read_from_field(fields, "LinkingTo"@, entry.linking_to)
        }),
{
    lemma_read_from_field(fields, "Depends"@);
    lemma_read_from_field(fields, "Imports"@);
    lemma_read_from_field(fields, "Suggests"@);
    lemma_read_from_field(fields, "LinkingTo"@);
}

/// The relations are those of the field, of which there are none where the field is not there
/// or holds nothing.
pub open spec fn read_from_field(
    fields: Seq<(Seq<char>, Seq<char>)>,
    name: Seq<char>,
    relations: Seq<RelationV>,
) -> bool {
    match field_value(fields, name) {
        None => relations.len() == 0,
        Some(value) => if trimmed(value).len() == 0 {
            relations.len() == 0
        } else {
            let pieces = split_on(trimmed(value), ',');
            relations.len() == pieces.len() && forall|i: int|
                0 <= i < pieces.len() ==> parsed_relation(#[trigger] pieces[i]) == Ok::<
                    (Seq<char>, Option<(crate::metadata::Comparison, Seq<char>)>),
                    Seq<char>,
                >((relations[i].package, relations[i].requirement))
        },
    }
}

proof fn lemma_read_from_field(fields: Seq<(Seq<char>, Seq<char>)>, name: Seq<char>)
    ensures
        field_relation_list(fields, name) matches Ok(relations) ==> read_from_field(
            fields,
            name,
            relations,
        ),
{
    if let Some(value) = field_value(fields, name) {
        relations_are_read_in_order(name, split_on(trimmed(value), ','));
    }
}

} // verus!
