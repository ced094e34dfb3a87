//! What repositories offer: their packages, the versions of a package, and descriptions.
use crate::description::Description;
use crate::document::{
    build, field, field_of, fields_room, findings, fits, pair_views, readable,
    written_document, Finding, FindingV,
};
use crate::http::{RrepoPackageSummary, RrepoPackagesResponse, RrepoVersionSummary};
use crate::listing::version_list;
use crate::metadata::{
    components_order, version_components, version_failure, Version, VersionV,
};
use crate::order::{increasing, Order, Ordered, Total};
use crate::path;
use crate::path::{child_of, segments_of, without_dots};
use crate::repository::{
    repository_text, ArchiveSupport, PackageRepository, RepositoryError, RepositoryErrorV,
    RepositoryV,
};
use crate::resolver::{PackageVersion, PackageVersionV};
use crate::sorted::{extended, lemma_replaced, replaced, SortedSet, TextMap};
use crate::text;
use crate::text::{has_prefix, opt_text, texts};
use vstd::prelude::*;
use vstd::utf8::{decode_utf8, valid_utf8};

verus! {

/// The packages of a map, by name, all from one repository.
pub open spec fn offered(
    packages: Map<Seq<char>, PackageVersion>,
    versions: Map<Seq<char>, VersionV>,
    repository: RepositoryV,
) -> bool {
    &&& packages.dom() == versions.dom()
    &&& forall|name: Seq<char>| #[trigger]
        packages.contains_key(name) ==> packages[name]@ == (PackageVersionV {
            version: versions[name],
            repository,
        })
}

/// The names and latest versions of summaries.
pub open spec fn summary_views(v: Seq<RrepoPackageSummary>) -> Seq<(Seq<char>, Seq<char>)> {
    v.map_values(|x: RrepoPackageSummary| (x.name@, x.latest_version@))
}

/// The latest versions by name; what is no version is passed over, and the last entry of a
/// name counts.
pub open spec fn latest_versions(summaries: Seq<(Seq<char>, Seq<char>)>) -> Map<
    Seq<char>,
    VersionV,
>
    decreases summaries.len(),
{
    if summaries.len() == 0 {
        Map::empty()
    } else {
        let rest = latest_versions(summaries.drop_last());
        let (name, text) = summaries.last();
        match version_components(text) {
            Some(components) => rest.insert(name, VersionV { text, components }),
            None => rest,
        }
    }
}

/// All versions of a map are well formed.
pub open spec fn offers_wf(packages: &TextMap<PackageVersion>) -> bool {
    packages.wf() && forall|name: Seq<char>| #[trigger]
        packages@.contains_key(name) ==> packages@[name].wf()
}

/// The packages of a repository by its answer.
pub fn rrepo_packages(response: &RrepoPackagesResponse, repository: &PackageRepository) -> (r:
    TextMap<PackageVersion>)
    requires
        repository.wf(),
    ensures
        offers_wf(&r),
        offered(r@, latest_versions(summary_views(response.packages@)), repository@),
{
    let ghost all = summary_views(response.packages@);
    let mut packages: TextMap<PackageVersion> = TextMap::new();
    let mut i: usize = 0;
    assert(all.take(0) =~= Seq::<(Seq<char>, Seq<char>)>::empty());
    assert(packages@.dom() =~= latest_versions(all.take(0)).dom());
    while i < response.packages.len()
        invariant
            i <= response.packages@.len(),
            repository.wf(),
            all == summary_views(response.packages@),
            offers_wf(&packages),
            offered(packages@, latest_versions(all.take(i as int)), repository@),
        decreases response.packages@.len() - i,
    {
        let summary = &response.packages[i];
        assert(all.take(i + 1).drop_last() =~= all.take(i as int));
        assert(all[i as int] == (summary.name@, summary.latest_version@));
        match Version::parse(summary.latest_version.as_str()) {
            Ok(version) => {
                let ghost before = packages@;
                let offer = PackageVersion::new(version, repository.copy());
                packages.insert(summary.name.clone(), offer);
                assert(packages@.dom() =~= latest_versions(all.take(i + 1)).dom());
            },
            Err(_) => {},
        }
        i = i + 1;
    }
    assert(all.take(i as int) =~= all);
    packages
}

/// The spellings of versions.
pub open spec fn spelling_list(v: Seq<RrepoVersionSummary>) -> Seq<Seq<char>> {
    v.map_values(|x: RrepoVersionSummary| x.version@)
}

/// The versions that texts spell, in order, of equal ones the last; or what is wrong with the
/// first that spells none.
pub open spec fn read_versions(package: Seq<char>, list: Seq<Seq<char>>) -> Result<
    Seq<VersionV>,
    RepositoryErrorV,
>
    decreases list.len(),
{
    if list.len() == 0 {
        Ok(Seq::empty())
    } else {
        match read_versions(package, list.drop_last()) {
            Err(error) => Err(error),
            Ok(rest) => match version_components(list.last()) {
                None => Err(
                    RepositoryErrorV::InvalidData(
                        "package version "@ + list.last() + " for "@ + package,
                        version_failure(list.last()).0,
                    ),
                ),
                Some(components) => Ok(
                    replaced(rest, VersionV { text: list.last(), components }),
                ),
            },
        }
    }
}

proof fn lemma_versions_fault_stays(package: Seq<char>, list: Seq<Seq<char>>, k: int)
    requires
        0 <= k <= list.len(),
    ensures
        read_versions(package, list.take(k)) is Err ==> read_versions(package, list)
            == read_versions(package, list.take(k)),
    decreases list.len() - k,
{
    if k == list.len() {
        assert(list.take(k) =~= list);
    } else {
        lemma_versions_fault_stays(package, list, k + 1);
        assert(list.take(k + 1).drop_last() =~= list.take(k));
    }
}

/// The versions of a package by the answer of a repository.
pub fn rrepo_versions(package: &str, versions: &Vec<RrepoVersionSummary>) -> (r: Result<
    SortedSet<Version>,
    RepositoryError,
>)
    ensures
        match r {
            Ok(set) => set.wf() && read_versions(package@, spelling_list(versions@)) == Ok::<
                Seq<VersionV>,
                RepositoryErrorV,
            >(set@),
            Err(error) => read_versions(package@, spelling_list(versions@)) == Err::<
                Seq<VersionV>,
                RepositoryErrorV,
            >(error@),
        },
{
    let ghost all = spelling_list(versions@);
    let mut set: SortedSet<Version> = SortedSet::new();
    let mut i: usize = 0;
    assert(all.take(0) =~= Seq::<Seq<char>>::empty());
    while i < versions.len()
        invariant
            i <= versions@.len(),
            all == spelling_list(versions@),
            set.wf(),
            read_versions(package@, all.take(i as int)) == Ok::<Seq<VersionV>, RepositoryErrorV>(
                set@,
            ),
        decreases versions@.len() - i,
    {
        proof {
            assert(all.take(i + 1).drop_last() =~= all.take(i as int));
            assert(all[i as int] == versions@[i as int].version@);
            lemma_versions_fault_stays(package@, all, i + 1);
        }
        let text = &versions[i].version;
        match Version::parse(text.as_str()) {
            Ok(version) => {
                set.replace(version);
            },
            Err(error) => {
                return Err(
                    RepositoryError::InvalidData {
                        resource: text::cat4("package version ", text.as_str(), " for ", package),
                        details: error.message,
                    },
                );
            },
        }
        i = i + 1;
    }
    assert(all.take(i as int) =~= all);
    Ok(set)
}

/// A record of the index of a CRAN-like repository: the last value of each field.
#[derive(Debug)]
pub struct PackageRecord {
    pub package: Option<String>,
    pub version: Option<String>,
    pub depends: Option<String>,
    pub imports: Option<String>,
    pub suggests: Option<String>,
    pub linking_to: Option<String>,
}

/// A record of the index of a CRAN-like repository.
pub struct RecordV {
    pub package: Option<Seq<char>>,
    pub version: Option<Seq<char>>,
    pub depends: Option<Seq<char>>,
    pub imports: Option<Seq<char>>,
    pub suggests: Option<Seq<char>>,
    pub linking_to: Option<Seq<char>>,
}

impl PackageRecord {
    /// The values, as characters.
    pub open spec fn view(&self) -> RecordV {
        RecordV {
            package: opt_text(self.package),
            version: opt_text(self.version),
            depends: opt_text(self.depends),
            imports: opt_text(self.imports),
            suggests: opt_text(self.suggests),
            linking_to: opt_text(self.linking_to),
        }
    }
}

/// Records.
pub open spec fn record_views(v: Seq<PackageRecord>) -> Seq<RecordV> {
    v.map_values(|x: PackageRecord| x@)
}

/// A record with a name and a version.
pub open spec fn is_identified(record: RecordV) -> bool {
    &&& record.package is Some
    &&& record.version matches Some(text) && version_components(text) is Some
}

/// All records have a name and a version.
pub open spec fn all_identified(records: Seq<RecordV>) -> bool {
    forall|i: int| 0 <= i < records.len() ==> is_identified(#[trigger] records[i])
}

/// What is wrong with an index.
pub uninterp spec fn index_findings_of(text: Seq<char>) -> Seq<FindingV>;

/// `r_packages::Packages::validate`: what is wrong with the lines and records of an index,
/// each with its place.
#[verifier::external_body]
fn index_findings(text: &str) -> (r: Vec<Finding>)
    requires
        fits(text@),
    ensures
        findings(r@) == index_findings_of(text@),
{
    r_packages::Packages::parse(text).validate().iter().map(|finding| Finding {
        message: finding.message().to_string(),
        start: finding.span().start as u64,
        end: finding.span().end as u64,
    }).collect()
}

/// The records of an index.
pub uninterp spec fn index_records_of(text: Seq<char>) -> Seq<RecordV>;

/// `r_packages::Packages::records` with the accessors of a record. In an index with which
/// nothing is wrong each record has a name and a version.
#[verifier::external_body]
fn index_records(text: &str) -> (r: Vec<PackageRecord>)
    requires
        fits(text@),
    ensures
        record_views(r@) == index_records_of(text@),
        index_findings_of(text@).len() == 0 ==> all_identified(record_views(r@)),
{
    r_packages::Packages::parse(text).records().map(|record| PackageRecord {
        package: record.package().map(|value| value.as_str().to_owned()),
        version: record.version().map(|value| value.as_str().to_owned()),
        depends: record.depends().map(|value| value.as_str().to_owned()),
        imports: record.imports().map(|value| value.as_str().to_owned()),
        suggests: record.suggests().map(|value| value.as_str().to_owned()),
        linking_to: record.linking_to().map(|value| value.as_str().to_owned()),
    }).collect()
}

/// Why an index cannot be used.
#[derive(Debug)]
pub struct CranPackagesParseError {
    pub source_name: String,
    pub source_code: String,
    pub findings: Vec<Finding>,
}

/// What is said of an index that is too large to be read.
pub open spec fn index_too_large() -> Seq<char> {
    "PACKAGES is too large to read"@
}

/// Why an index cannot be read.
#[derive(Debug)]
pub enum IndexError {
    Findings(CranPackagesParseError),
    TooLarge { message: String },
}

/// The records of an index with which nothing is wrong, or all that is wrong with it.
pub fn packages_index(source_name: String, text: String) -> (r: Result<
    Vec<PackageRecord>,
    IndexError,
>)
    ensures
        match r {
            Ok(records) => {
                &&& fits(text@)
                &&& index_findings_of(text@).len() == 0
                &&& record_views(records@) == index_records_of(text@)
                &&& all_identified(record_views(records@))
            },
            Err(IndexError::Findings(error)) => {
                &&& fits(text@)
                &&& index_findings_of(text@).len() > 0
                &&& error.source_name == source_name
                &&& error.source_code == text
                &&& findings(error.findings@) == index_findings_of(text@)
            },
            Err(IndexError::TooLarge { message }) => !fits(text@) && message@ == index_too_large(),
        },
{
    if !readable(text.as_str()) {
        return Err(IndexError::TooLarge { message: "PACKAGES is too large to read".to_owned() });
    }
    let found = index_findings(text.as_str());
    assert(findings(found@).len() == found@.len());
    if found.len() > 0 {
        return Err(
            IndexError::Findings(
                CranPackagesParseError { source_name, source_code: text, findings: found },
            ),
        );
    }
    Ok(index_records(text.as_str()))
}

/// The version of a record.
pub open spec fn record_version(record: RecordV) -> VersionV {
    VersionV {
        text: record.version->0,
        components: version_components(record.version->0)->0,
    }
}

/// The versions of records by name; the last record of a name counts.
pub open spec fn indexed_versions(records: Seq<RecordV>) -> Map<Seq<char>, VersionV>
    decreases records.len(),
{
    if records.len() == 0 {
        Map::empty()
    } else {
        indexed_versions(records.drop_last()).insert(
            records.last().package->0,
            record_version(records.last()),
        )
    }
}

fn identity(record: &PackageRecord) -> (r: (String, Version))
    requires
        is_identified(record@),
    ensures
        r.0@ == record@.package->0,
        r.1.wf(),
        r.1@ == record_version(record@),
{
    let package = match &record.package {
        Some(package) => package.clone(),
        None => String::new(),
    };
    let text = match &record.version {
        Some(text) => text.clone(),
        None => String::new(),
    };
    match Version::parse(text.as_str()) {
        Ok(version) => (package, version),
        Err(_) => {
            assert(false);
            (package, Version { text, components: Vec::new() })
        },
    }
}

/// The packages of a CRAN-like repository.
pub fn cran_packages(records: &Vec<PackageRecord>, repository: &PackageRepository) -> (r: TextMap<
    PackageVersion,
>)
    requires
        repository.wf(),
        all_identified(record_views(records@)),
    ensures
        offers_wf(&r),
        offered(r@, indexed_versions(record_views(records@)), repository@),
{
    let ghost all = record_views(records@);
    let mut packages: TextMap<PackageVersion> = TextMap::new();
    let mut i: usize = 0;
    assert(all.take(0) =~= Seq::<RecordV>::empty());
    assert(packages@.dom() =~= indexed_versions(all.take(0)).dom());
    while i < records.len()
        invariant
            i <= records@.len(),
            repository.wf(),
            all == record_views(records@),
            all_identified(all),
            offers_wf(&packages),
            offered(packages@, indexed_versions(all.take(i as int)), repository@),
        decreases records@.len() - i,
    {
        assert(all.take(i + 1).drop_last() =~= all.take(i as int));
        assert(all[i as int] == records@[i as int]@);
        assert(is_identified(all[i as int]));
        let (package, version) = identity(&records[i]);
        let offer = PackageVersion::new(version, repository.copy());
        packages.insert(package, offer);
        assert(packages@.dom() =~= indexed_versions(all.take(i + 1)).dom());
        i = i + 1;
    }
    assert(all.take(i as int) =~= all);
    packages
}

/// The versions that an index has of a package, in order, of equal ones the last.
pub open spec fn versions_of(records: Seq<RecordV>, package: Seq<char>) -> Seq<VersionV>
    decreases records.len(),
{
    if records.len() == 0 {
        Seq::empty()
    } else {
        let rest = versions_of(records.drop_last(), package);
        if records.last().package == Some(package) {
            replaced(rest, record_version(records.last()))
        } else {
            rest
        }
    }
}

/// The versions that an index has of a package.
pub fn indexed_package_versions(records: &Vec<PackageRecord>, package: &str) -> (r: SortedSet<
    Version,
>)
    requires
        all_identified(record_views(records@)),
    ensures
        r.wf(),
        r@ == versions_of(record_views(records@), package@),
{
    let ghost all = record_views(records@);
    let mut set: SortedSet<Version> = SortedSet::new();
    let mut i: usize = 0;
    assert(all.take(0) =~= Seq::<RecordV>::empty());
    while i < records.len()
        invariant
            i <= records@.len(),
            all == record_views(records@),
            all_identified(all),
            set.wf(),
            set@ == versions_of(all.take(i as int), package@),
        decreases records@.len() - i,
    {
        assert(all.take(i + 1).drop_last() =~= all.take(i as int));
        assert(all[i as int] == records@[i as int]@);
        assert(is_identified(all[i as int]));
        let (name, version) = identity(&records[i]);
        if text::same(name.as_str(), package) {
            set.replace(version);
        }
        i = i + 1;
    }
    assert(all.take(i as int) =~= all);
    set
}

/// Whether the archive has to be asked for former versions: the repository keeps one, and
/// the package is known.
pub fn asks_archive(known: &SortedSet<Version>, archives: ArchiveSupport) -> (r: bool)
    ensures
        r == (known@.len() > 0 && archives == ArchiveSupport::Available),
{
    assert(known@.len() == known.items@.len());
    known.items.len() > 0 && archives == ArchiveSupport::Available
}

/// The versions of a package with those of the archive; a version that the index has too
/// stays as the index spells it.
pub fn with_archived(known: SortedSet<Version>, archived: Vec<Version>) -> (r: SortedSet<Version>)
    requires
        known.wf(),
        forall|i: int| 0 <= i < archived@.len() ==> (#[trigger] archived@[i]).wf(),
    ensures
        r.wf(),
        r@ == extended(known@, version_list(archived@)),
{
    let ghost all = version_list(archived@);
    let ghost base = known@;
    let mut set = known;
    let mut i: usize = 0;
    assert(all.take(0) =~= Seq::<VersionV>::empty());
    while i < archived.len()
        invariant
            i <= archived@.len(),
            all == version_list(archived@),
            forall|k: int| 0 <= k < archived@.len() ==> (#[trigger] archived@[k]).wf(),
            set.wf(),
            set@ == extended(base, all.take(i as int)),
        decreases archived@.len() - i,
    {
        assert(all.take(i + 1).drop_last() =~= all.take(i as int));
        assert(all[i as int] == archived@[i as int]@);
        set.insert(archived[i].copy());
        i = i + 1;
    }
    assert(all.take(i as int) =~= all);
    set
}

/// The versions of a package as offers of a repository.
pub fn offers(versions: &SortedSet<Version>, repository: &PackageRepository) -> (r: Vec<
    PackageVersion,
>)
    requires
        versions.wf(),
        repository.wf(),
    ensures
        r@.len() == versions@.len(),
        forall|i: int|
            0 <= i < r@.len() ==> (#[trigger] r@[i]).wf() && r@[i]@ == (PackageVersionV {
                version: versions@[i],
                repository: repository@,
            }),
{
    let mut out: Vec<PackageVersion> = Vec::new();
    let mut i: usize = 0;
    while i < versions.items.len()
        invariant
            i <= versions.items@.len(),
            versions.wf(),
            repository.wf(),
            out@.len() == i,
            forall|k: int|
                0 <= k < i ==> (#[trigger] out@[k]).wf() && out@[k]@ == (PackageVersionV {
                    version: versions@[k],
                    repository: repository@,
                }),
        decreases versions.items@.len() - i,
    {
        assert(versions@[i as int] == versions.items@[i as int]@);
        assert(versions.items@[i as int].sound());
        assert(versions.items@[i as int].wf());
        let version = versions.items[i].copy();
        assert(version.wf());
        out.push(PackageVersion::new(version, repository.copy()));
        i = i + 1;
    }
    out
}

/// The record is that of a version of a package.
pub open spec fn is_record_of(record: RecordV, package: Seq<char>, version: VersionV) -> bool {
    record.package == Some(package) && components_order(
        record_version(record).components,
        version.components,
    ) == Order::Equal
}

/// The place of the first record of a version of a package.
pub fn find_record(records: &Vec<PackageRecord>, package: &str, version: &Version) -> (r: Option<
    usize,
>)
    requires
        all_identified(record_views(records@)),
    ensures
        match r {
            Some(i) => {
                &&& i < records@.len()
                &&& is_record_of(records@[i as int]@, package@, version@)
                &&& forall|j: int|
                    0 <= j < i ==> !is_record_of((#[trigger] records@[j])@, package@, version@)
            },
            None => forall|j: int|
                0 <= j < records@.len() ==> !is_record_of(
                    (#[trigger] records@[j])@,
                    package@,
                    version@,
                ),
        },
{
    let ghost all = record_views(records@);
    let mut i: usize = 0;
    while i < records.len()
        invariant
            i <= records@.len(),
            all == record_views(records@),
            all_identified(all),
            forall|j: int|
                0 <= j < i ==> !is_record_of((#[trigger] records@[j])@, package@, version@),
        decreases records@.len() - i,
    {
        assert(all[i as int] == records@[i as int]@);
        assert(is_identified(all[i as int]));
        let (name, known) = identity(&records[i]);
        if text::same(name.as_str(), package) && known.same(version) {
            return Some(i);
        }
        i = i + 1;
    }
    None
}

/// A field that may be there.
pub open spec fn opt_field(name: Seq<char>, value: Option<Seq<char>>) -> Seq<
    (Seq<char>, Seq<char>),
> {
    match value {
        Some(value) => seq![(name, value)],
        None => Seq::empty(),
    }
}

/// The fields of a record that its description has.
pub open spec fn record_fields(record: RecordV) -> Seq<(Seq<char>, Seq<char>)> {
    seq![("Package"@, record.package->0), ("Version"@, record.version->0)] + opt_field(
        "Depends"@,
        record.depends,
    ) + opt_field("Imports"@, record.imports) + opt_field("Suggests"@, record.suggests)
        + opt_field("LinkingTo"@, record.linking_to)
}

fn push_field(fields: &mut Vec<(String, String)>, name: &str, value: &Option<String>)
    ensures
        pair_views(final(fields)@) == pair_views(old(fields)@) + opt_field(
            name@,
            opt_text(*value),
        ),
{
    match value {
        Some(value) => {
            fields.push((name.to_owned(), value.clone()));
            assert(pair_views(fields@) =~= pair_views(old(fields)@) + opt_field(
                name@,
                Some(value@),
            ));
        },
        None => {
            assert(pair_views(fields@) =~= pair_views(old(fields)@) + opt_field(name@, None));
        },
    }
}

/// The description that a record of an index stands for; there is none where a value cannot
/// be written.
pub fn packages_record_to_description(record: &PackageRecord) -> (r: Option<Description>)
    requires
        is_identified(record@),
    ensures
        match r {
            Some(description) => written_document(record_fields(record@)) == Some(description@)
                && fits(description@),
            None => written_document(record_fields(record@)) is None,
        },
{
    let mut fields: Vec<(String, String)> = Vec::new();
    assert(pair_views(fields@) =~= Seq::<(Seq<char>, Seq<char>)>::empty());
    push_field(&mut fields, "Package", &record.package);
    push_field(&mut fields, "Version", &record.version);
    assert(pair_views(fields@) =~= seq![
        ("Package"@, record@.package->0),
        ("Version"@, record@.version->0),
    ]);
    push_field(&mut fields, "Depends", &record.depends);
    push_field(&mut fields, "Imports", &record.imports);
    push_field(&mut fields, "Suggests", &record.suggests);
    push_field(&mut fields, "LinkingTo", &record.linking_to);
    if !fields_room(&fields) {
        return None;
    }
    match build(&fields) {
        Ok(text) => Some(Description { text }),
        Err(_) => None,
    }
}

/// A path is that of the description of a source package: a file in the directory of the
/// package.
pub open spec fn is_top_level_description(path: Seq<char>, package: Seq<char>) -> bool {
    !has_prefix(path, "/"@) && without_dots(segments_of(path)) == seq![package, "DESCRIPTION"@]
}

fn are_description(names: &Vec<String>, package: &str) -> (r: bool)
    ensures
        r == (texts(names@) == seq![package@, "DESCRIPTION"@]),
{
    let ghost all = texts(names@);
    assert(all.len() == names@.len());
    if names.len() != 2 {
        return false;
    }
    assert(all[0] == names@[0]@ && all[1] == names@[1]@);
    if text::same(names[0].as_str(), package) && text::same(names[1].as_str(), "DESCRIPTION") {
        assert(all =~= seq![package@, "DESCRIPTION"@]);
        true
    } else {
        assert(seq![package@, "DESCRIPTION"@][0] == package@);
        assert(seq![package@, "DESCRIPTION"@][1] == "DESCRIPTION"@);
        false
    }
}

/// Whether a path is that of the description of a source package.
pub fn path_is_top_level_description(path: &str, package: &str) -> (r: bool)
    ensures
        r == is_top_level_description(path@, package@),
{
    if text::starts_with(path, "/") {
        return false;
    }
    are_description(&path::undotted(path), package)
}

/// The parts of a row of bytes between slashes.
pub open spec fn byte_parts(path: Seq<u8>) -> Seq<Seq<u8>>
    decreases path.len(),
{
    if path.len() == 0 {
        seq![Seq::empty()]
    } else {
        let rest = byte_parts(path.drop_last());
        if path.last() == 0x2f {
            rest.push(Seq::empty())
        } else {
            rest.drop_last().push(rest.last().push(path.last()))
        }
    }
}

/// A part of a path is a name: it is UTF-8, and neither empty nor a single point.
pub open spec fn is_name(part: Seq<u8>) -> bool {
    valid_utf8(part) && decode_utf8(part).len() > 0 && decode_utf8(part) != "."@
}

/// The names among the parts of a path.
pub open spec fn part_names(parts: Seq<Seq<u8>>) -> Seq<Seq<char>>
    decreases parts.len(),
{
    if parts.len() == 0 {
        Seq::empty()
    } else if is_name(parts.last()) {
        part_names(parts.drop_last()).push(decode_utf8(parts.last()))
    } else {
        part_names(parts.drop_last())
    }
}

/// The path of an entry is that of the description of a source package. Parts that are not
/// UTF-8 are passed over.
pub open spec fn is_description_entry(path: Seq<u8>, package: Seq<char>) -> bool {
    (path.len() == 0 || path[0] != 0x2f) && part_names(byte_parts(path)) == seq![
        package,
        "DESCRIPTION"@,
    ]
}

fn push_name(names: &mut Vec<String>, part: Vec<u8>)
    ensures
        texts(final(names)@) == if is_name(part@) {
            texts(old(names)@).push(decode_utf8(part@))
        } else {
            texts(old(names)@)
        },
{
    let ghost bytes = part@;
    let ghost before = names@;
    match text::decode(part) {
        Ok(name) => {
            if !name.as_str().is_empty() && !text::same(name.as_str(), ".") {
                names.push(name);
                assert(texts(names@) =~= texts(before).push(decode_utf8(bytes)));
            }
        },
        Err(_) => {},
    }
}

/// The names in the path of an entry.
fn entry_names(path: &Vec<u8>) -> (r: Vec<String>)
    ensures
        texts(r@) == part_names(byte_parts(path@)),
{
    let mut names: Vec<String> = Vec::new();
    let mut part: Vec<u8> = Vec::new();
    let mut i: usize = 0;
    assert(path@.take(0) =~= Seq::<u8>::empty());
    assert(byte_parts(path@.take(0)).drop_last() =~= Seq::<Seq<u8>>::empty());
    assert(texts(names@) =~= part_names(byte_parts(path@.take(0)).drop_last()));
    assert(part@ =~= byte_parts(path@.take(0)).last());
    while i < path.len()
        invariant
            i <= path.len(),
            byte_parts(path@.take(i as int)).len() > 0,
            texts(names@) == part_names(byte_parts(path@.take(i as int)).drop_last()),
            part@ == byte_parts(path@.take(i as int)).last(),
        decreases path.len() - i,
    {
        let byte: u8 = path[i];
        let ghost parts = byte_parts(path@.take(i as int));
        assert(path@.take(i + 1).drop_last() =~= path@.take(i as int));
        if byte == 0x2f {
            push_name(&mut names, part);
            part = Vec::new();
            assert(parts.push(Seq::empty()).drop_last() =~= parts);
            assert(part@ =~= Seq::<u8>::empty());
        } else {
            part.push(byte);
            assert(parts.drop_last().push(parts.last().push(byte)).drop_last()
                =~= parts.drop_last());
        }
        i = i + 1;
    }
    assert(path@.take(i as int) =~= path@);
    push_name(&mut names, part);
    names
}

/// Whether the path of an entry is that of the description of a source package.
pub fn entry_is_description(path: &Vec<u8>, package: &str) -> (r: bool)
    ensures
        r == is_description_entry(path@, package@),
{
    if path.len() > 0 && path[0] == 0x2f {
        return false;
    }
    are_description(&entry_names(path), package)
}

/// The path of an entry of an archive.
pub open spec fn path_view(v: Result<Vec<u8>, String>) -> Result<Seq<u8>, Seq<char>> {
    match v {
        Ok(path) => Ok(path@),
        Err(message) => Err(message@),
    }
}

/// The paths in an archive.
pub open spec fn path_views(v: Seq<Result<Vec<u8>, String>>) -> Seq<Result<Seq<u8>, Seq<char>>> {
    v.map_values(|x: Result<Vec<u8>, String>| path_view(x))
}

/// The bytes of the paths of the entries of a compressed archive, each with the message of an
/// error in its stead where the entry cannot be read; or the message of an error.
pub uninterp spec fn archive_paths_of(bytes: Seq<u8>) -> Result<
    Seq<Result<Seq<u8>, Seq<char>>>,
    Seq<char>,
>;

/// `tar::Archive::entries` on what `flate2::read::GzDecoder` gives, with the `path_bytes` of
/// each entry.
#[verifier::external_body]
fn archive_paths(bytes: &Vec<u8>) -> (r: Result<Vec<Result<Vec<u8>, String>>, String>)
    ensures
        match r {
            Ok(paths) => archive_paths_of(bytes@) == Ok::<
                Seq<Result<Seq<u8>, Seq<char>>>,
                Seq<char>,
            >(path_views(paths@)),
            Err(message) => archive_paths_of(bytes@) == Err::<
                Seq<Result<Seq<u8>, Seq<char>>>,
                Seq<char>,
            >(message@),
        },
{
    let mut archive = tar::Archive::new(flate2::read::GzDecoder::new(bytes.as_slice()));
    let entries = archive.entries().map_err(|error| error.to_string())?;
    Ok(entries.map(|entry| {
        entry.map(|entry| entry.path_bytes().into_owned()).map_err(|error| error.to_string())
    }).collect())
}

/// The text of an entry of a compressed archive, or the message of an error.
pub uninterp spec fn archive_text_of(bytes: Seq<u8>, index: nat) -> Result<Seq<char>, Seq<char>>;

/// `std::io::read_to_string` on an entry of `tar::Archive::entries` on what
/// `flate2::read::GzDecoder` gives; the entry is given by its place.
#[verifier::external_body]
fn archive_text(bytes: &Vec<u8>, index: usize) -> (r: Result<String, String>)
    ensures
        match r {
            Ok(text) => archive_text_of(bytes@, index as nat) == Ok::<Seq<char>, Seq<char>>(text@),
            Err(message) => archive_text_of(bytes@, index as nat) == Err::<Seq<char>, Seq<char>>(
                message@,
            ),
        },
{
    let mut archive = tar::Archive::new(flate2::read::GzDecoder::new(bytes.as_slice()));
    let mut entries = archive.entries().map_err(|error| error.to_string())?;
    let entry = entries.nth(index).ok_or_else(|| "entry not found".to_string())?;
    let entry = entry.map_err(|error| error.to_string())?;
    std::io::read_to_string(entry).map_err(|error| error.to_string())
}

/// The first entry of an archive that cannot be read or is the description.
pub open spec fn is_telling(
    paths: Seq<Result<Seq<u8>, Seq<char>>>,
    package: Seq<char>,
    i: int,
) -> bool {
    paths[i] is Err || is_description_entry(paths[i]->Ok_0, package)
}

/// What an archive has of the description of its package.
#[derive(Debug)]
pub enum DescriptionEntry {
    At(usize),
    Unreadable(String),
    Missing,
}

/// Finds the description among the paths of an archive: the search ends at the first path
/// that cannot be read.
pub fn find_description(paths: &Vec<Result<Vec<u8>, String>>, package: &str) -> (r:
    DescriptionEntry)
    ensures
        match r {
            DescriptionEntry::At(i) => {
                &&& i < paths@.len()
                &&& path_views(paths@)[i as int] is Ok
                &&& is_telling(path_views(paths@), package@, i as int)
                &&& forall|j: int|
                    0 <= j < i ==> !#[trigger] is_telling(path_views(paths@), package@, j)
            },
            DescriptionEntry::Unreadable(message) => exists|i: int|
                {
                    &&& 0 <= i < paths@.len()
                    &&& path_views(paths@)[i] == Err::<Seq<u8>, Seq<char>>(message@)
                    &&& #[trigger] is_telling(path_views(paths@), package@, i)
                    &&& forall|j: int|
                        0 <= j < i ==> !#[trigger] is_telling(path_views(paths@), package@, j)
                },
            DescriptionEntry::Missing => forall|j: int|
                0 <= j < paths@.len() ==> !#[trigger] is_telling(path_views(paths@), package@, j),
        },
{
    let ghost all = path_views(paths@);
    let mut i: usize = 0;
    while i < paths.len()
        invariant
            i <= paths@.len(),
            all == path_views(paths@),
            forall|j: int| 0 <= j < i ==> !#[trigger] is_telling(all, package@, j),
        decreases paths@.len() - i,
    {
        assert(all[i as int] == path_view(paths@[i as int]));
        match &paths[i] {
            Err(message) => {
                assert(is_telling(all, package@, i as int));
                return DescriptionEntry::Unreadable(message.clone());
            },
            Ok(path) => {
                if entry_is_description(path, package) {
                    assert(is_telling(all, package@, i as int));
                    return DescriptionEntry::At(i);
                }
                assert(!is_telling(all, package@, i as int));
            },
        }
        i = i + 1;
    }
    DescriptionEntry::Missing
}

/// The outcome of reading the description of a source package.
pub open spec fn tarball_outcome(
    bytes: Seq<u8>,
    package: Seq<char>,
    r: Result<Description, RepositoryError>,
) -> bool {
    match archive_paths_of(bytes) {
        Err(message) => r matches Err(error) && error@ == RepositoryErrorV::Archive(message),
        Ok(paths) => if forall|j: int|
            0 <= j < paths.len() ==> !#[trigger] is_telling(paths, package, j) {
            r matches Err(error) && error@ == RepositoryErrorV::DescriptionNotFound(package)
        } else {
            exists|i: int|
                {
                    &&& 0 <= i < paths.len()
                    &&& #[trigger] is_telling(paths, package, i)
                    &&& forall|j: int| 0 <= j < i ==> !#[trigger] is_telling(paths, package, j)
                    &&& match paths[i] {
                        Err(message) => r matches Err(error) && error@
                            == RepositoryErrorV::Archive(message),
                        Ok(_) => match archive_text_of(bytes, i as nat) {
                            Err(message) => r matches Err(error) && error@
                                == RepositoryErrorV::Archive(message),
                            Ok(text) => r matches Ok(description) && description@ == text,
                        },
                    }
                }
        },
    }
}

/// The description in the sources of a package.
pub fn description_from_source_tarball(bytes: &Vec<u8>, package: &str) -> (r: Result<
    Description,
    RepositoryError,
>)
    ensures
        tarball_outcome(bytes@, package@, r),
{
    let paths = match archive_paths(bytes) {
        Ok(paths) => paths,
        Err(details) => {
            return Err(RepositoryError::Archive { details });
        },
    };
    let ghost all = path_views(paths@);
    match find_description(&paths, package) {
        DescriptionEntry::At(i) => {
            assert(is_telling(all, package@, i as int));
            match archive_text(bytes, i) {
                Ok(text) => Ok(Description { text }),
                Err(details) => Err(RepositoryError::Archive { details }),
            }
        },
        DescriptionEntry::Unreadable(details) => Err(RepositoryError::Archive { details }),
        DescriptionEntry::Missing => {
            assert(all.len() == paths@.len());
            Err(RepositoryError::DescriptionNotFound { package: package.to_owned() })
        },
    }
}

/// The place of a description as it is shown: the repository it comes from, or its path.
pub open spec fn description_location(repository: RepositoryV) -> Seq<char> {
    match repository {
        RepositoryV::Local(path, _) => "at "@ + child_of(path, "DESCRIPTION"@),
        _ => "from "@ + repository_text(repository),
    }
}

/// The package that a description is of, or which of its name and version is missing or
/// cannot be read.
pub open spec fn described_package(location: Seq<char>, document: Seq<char>) -> Result<
    (Seq<char>, VersionV),
    RepositoryErrorV,
> {
    let package = field_of(document, "Package"@);
    let version = field_of(document, "Version"@);
    if package is None || package->0.message.len() == 0 {
        Err(RepositoryErrorV::PackageField(location, "Package field is missing or empty"@))
    } else {
        match version {
            None => Err(RepositoryErrorV::VersionField(location, "Version field is missing"@)),
            Some(found) => match version_components(found.message) {
                None => Err(
                    RepositoryErrorV::VersionField(location, version_failure(found.message).0),
                ),
                Some(components) => Ok(
                    (package->0.message, VersionV { text: found.message, components }),
                ),
            },
        }
    }
}

fn location_of(repository: &PackageRepository) -> (r: String)
    ensures
        r@ == description_location(repository@),
{
    match repository {
        PackageRepository::Local(local) => {
            let path = path::child(local.path.as_str(), "DESCRIPTION");
            text::cat("at ", path.as_str())
        },
        _ => {
            let shown = repository.to_text();
            text::cat("from ", shown.as_str())
        },
    }
}

/// The only package of a Git repository or a directory, by its description.
pub fn package(repository: &PackageRepository, description: &Description) -> (r: Result<
    (String, PackageVersion),
    RepositoryError,
>)
    requires
        fits(description@),
        repository.wf(),
    ensures
        match r {
            Ok((name, version)) => version.wf() && version@.repository == repository@
                && described_package(description_location(repository@), description@) == Ok::<
                (Seq<char>, VersionV),
                RepositoryErrorV,
            >((name@, version@.version)),
            Err(error) => described_package(description_location(repository@), description@)
                == Err::<(Seq<char>, VersionV), RepositoryErrorV>(error@),
        },
{
    let location = location_of(repository);
    let name = match field(description.text.as_str(), "Package") {
        Some(found) => found.message,
        None => String::new(),
    };
    if name.as_str().is_empty() {
        return Err(
            RepositoryError::PackageField {
                location,
                details: "Package field is missing or empty".to_owned(),
            },
        );
    }
    match field(description.text.as_str(), "Version") {
        None => Err(
            RepositoryError::VersionField {
                location,
                details: "Version field is missing".to_owned(),
            },
        ),
        Some(found) => match Version::parse(found.message.as_str()) {
            Ok(version) => Ok((name, PackageVersion::new(version, repository.copy()))),
            Err(error) => Err(
                RepositoryError::VersionField { location, details: error.message },
            ),
        },
    }
}

/// The versions that a repository with one package has of a package.
pub fn single_versions(name: &str, version: PackageVersion, package: &str) -> (r: Vec<
    PackageVersion,
>)
    ensures
        r@ == if package@ == name@ {
            seq![version]
        } else {
            Seq::empty()
        },
{
    let mut out: Vec<PackageVersion> = Vec::new();
    if text::same(package, name) {
        out.push(version);
    }
    assert(package@ == name@ ==> out@ =~= seq![version]);
    out
}

/// What is said of a version that a repository with one package does not have.
pub open spec fn missing_version(repository: RepositoryV, package: Seq<char>, version: Seq<char>) -> RepositoryErrorV {
    match repository {
        RepositoryV::Local(path, _) => RepositoryErrorV::PackageVersionNotFound(
            path,
            package,
            version,
        ),
        _ => RepositoryErrorV::RepositoryPackageVersionNotFound(
            repository_text(repository),
            package,
            version,
        ),
    }
}

/// Checks that the only package of a repository is a version of a package.
pub fn check_description(
    repository: &PackageRepository,
    description: &Description,
    wanted: &str,
    version: &Version,
) -> (r: Result<(), RepositoryError>)
    requires
        fits(description@),
        repository.wf(),
    ensures
        match described_package(description_location(repository@), description@) {
            Err(fault) => r matches Err(error) && error@ == fault,
            Ok((name, known)) => if wanted@ == name && components_order(
                known.components,
                version.components@,
            ) == Order::Equal {
                r is Ok
            } else {
                r matches Err(error) && error@ == missing_version(
                    repository@,
                    wanted@,
                    version.text@,
                )
            },
        },
{
    let (name, known) = match package(repository, description) {
        Ok(found) => found,
        Err(error) => {
            return Err(error);
        },
    };
    if text::same(wanted, name.as_str()) && known.version.same(version) {
        return Ok(());
    }
    match repository {
        PackageRepository::Local(local) => Err(
            RepositoryError::PackageVersionNotFound {
                path: local.path.clone(),
                package: wanted.to_owned(),
                version: version.text.clone(),
            },
        ),
        _ => Err(
            RepositoryError::RepositoryPackageVersionNotFound {
                repository: repository.to_text(),
                package: wanted.to_owned(),
                version: version.text.clone(),
            },
        ),
    }
}

/// Each package of an index is offered in the version of the last record of its name, as that
/// record spells it, and no other package is offered.
pub proof fn packages_are_offered_as_recorded(records: Seq<RecordV>, name: Seq<char>, i: int)
    requires
        all_identified(records),
    ensures
        indexed_versions(records).contains_key(name) <==> exists|k: int|
            0 <= k < records.len() && (#[trigger] records[k]).package == Some(name),
        0 <= i < records.len() && records[i].package == Some(name) && (forall|k: int|
            i < k < records.len() ==> (#[trigger] records[k]).package != Some(name)) ==> {
            &&& records[i].version == Some(indexed_versions(records)[name].text)
            &&& version_components(indexed_versions(records)[name].text) == Some(
                indexed_versions(records)[name].components,
            )
        },
    decreases records.len(),
{
    if records.len() > 0 {
        let t = records.drop_last();
        let last = records.last();
        assert(is_identified(records[records.len() - 1]));
        assert forall|k: int| 0 <= k < t.len() implies is_identified(#[trigger] t[k]) by {
            assert(t[k] == records[k]);
        }
        packages_are_offered_as_recorded(t, name, i);
        if exists|k: int| 0 <= k < records.len() && (#[trigger] records[k]).package == Some(name) {
            let k = choose|k: int|
                0 <= k < records.len() && (#[trigger] records[k]).package == Some(name);
            if k < t.len() {
                assert(t[k].package == Some(name));
            }
        }
        if exists|k: int| 0 <= k < t.len() && (#[trigger] t[k]).package == Some(name) {
            let k = choose|k: int| 0 <= k < t.len() && (#[trigger] t[k]).package == Some(name);
            assert(records[k].package == Some(name));
        }
        assert(records[records.len() - 1] == last);
        if 0 <= i < records.len() && records[i].package == Some(name) && (forall|k: int|
            i < k < records.len() ==> (#[trigger] records[k]).package != Some(name)) {
            if i < t.len() {
                assert(t[i] == records[i]);
                assert(last.package != Some(name));
                assert forall|k: int| i < k < t.len() implies (#[trigger] t[k]).package != Some(
                    name,
                ) by {
                    assert(t[k] == records[k]);
                }
                assert(indexed_versions(records)[name] == indexed_versions(t)[name]);
            }
        }
    }
}

/// What a repository offers are the packages and versions of its index, from that repository.
pub proof fn offers_come_from_the_index(
    packages: Map<Seq<char>, PackageVersion>,
    records: Seq<RecordV>,
    repository: RepositoryV,
    name: Seq<char>,
)
    requires
        all_identified(records),
        offered(packages, indexed_versions(records), repository),
    ensures
        packages.contains_key(name) <==> exists|k: int|
            0 <= k < records.len() && (#[trigger] records[k]).package == Some(name),
        packages.contains_key(name) ==> packages[name]@.repository == repository && exists|k: int|
            0 <= k < records.len() && (#[trigger] records[k]).package == Some(name)
                && records[k].version == Some(packages[name]@.version.text),
{
    packages_are_offered_as_recorded(records, name, 0);
    if packages.contains_key(name) {
        let k = choose|k: int| 0 <= k < records.len() && (#[trigger] records[k]).package == Some(
            name,
        );
        let last = last_record(records, name, k);
        packages_are_offered_as_recorded(records, name, last);
        assert(records[last].package == Some(name));
    }
}

proof fn last_record(records: Seq<RecordV>, name: Seq<char>, k: int) -> (r: int)
    requires
        0 <= k < records.len(),
        records[k].package == Some(name),
    ensures
        k <= r < records.len(),
        records[r].package == Some(name),
        forall|j: int| r < j < records.len() ==> (#[trigger] records[j]).package != Some(name),
    decreases records.len() - k,
{
    if exists|j: int| k < j < records.len() && (#[trigger] records[j]).package == Some(name) {
        let j = choose|j: int| k < j < records.len() && (#[trigger] records[j]).package == Some(
            name,
        );
        last_record(records, name, j)
    } else {
        k
    }
}

/// The versions of a package are those of its records and no others, in increasing order.
pub proof fn versions_are_those_of_the_records(records: Seq<RecordV>, package: Seq<char>)
    requires
        all_identified(records),
    ensures
        increasing(versions_of(records, package)),
        forall|v: VersionV| #[trigger]
            versions_of(records, package).contains(v) ==> version_components(v.text) == Some(
                v.components,
            ) && exists|k: int|
                0 <= k < records.len() && (#[trigger] records[k]).package == Some(package)
                    && records[k].version == Some(v.text),
        forall|k: int|
            0 <= k < records.len() && (#[trigger] records[k]).package == Some(package)
                ==> exists|j: int|
                0 <= j < versions_of(records, package).len() && components_order(
                    (#[trigger] versions_of(records, package)[j]).components,
                    version_components(records[k].version->0)->0,
                ) == Order::Equal,
    decreases records.len(),
{
    let all = versions_of(records, package);
    if records.len() > 0 {
        let t = records.drop_last();
        let last = records.last();
        let rest = versions_of(t, package);
        assert(is_identified(records[records.len() - 1]));
        assert forall|k: int| 0 <= k < t.len() implies is_identified(#[trigger] t[k]) by {
            assert(t[k] == records[k]);
        }
        versions_are_those_of_the_records(t, package);
        let x = record_version(last);
        if last.package == Some(package) {
            lemma_replaced(rest, x);
        }
        assert forall|v: VersionV| #[trigger] all.contains(v) implies version_components(v.text)
            == Some(v.components) && exists|k: int|
            0 <= k < records.len() && (#[trigger] records[k]).package == Some(package)
                && records[k].version == Some(v.text) by {
            if last.package == Some(package) && v == x {
                assert(records[records.len() - 1] == last);
            } else {
                assert(rest.contains(v));
                let k = choose|k: int|
                    0 <= k < t.len() && (#[trigger] t[k]).package == Some(package) && t[k].version
                        == Some(v.text);
                assert(records[k] == t[k]);
            }
        }
        assert forall|k: int|
            0 <= k < records.len() && (#[trigger] records[k]).package == Some(
                package,
            ) implies exists|j: int|
            0 <= j < all.len() && components_order(
                (#[trigger] all[j]).components,
                version_components(records[k].version->0)->0,
            ) == Order::Equal by {
            let w = record_version(records[k]);
            if k == records.len() - 1 {
                let j = choose|j: int| 0 <= j < all.len() && all[j] == x;
                VersionV::order_flips(x, x);
                assert(all[j].order(w) == Order::Equal);
            } else {
                assert(t[k] == records[k]);
                let j = choose|j: int|
                    0 <= j < rest.len() && components_order(
                        (#[trigger] rest[j]).components,
                        version_components(t[k].version->0)->0,
                    ) == Order::Equal;
                if last.package == Some(package) {
                    if rest[j].order(x) == Order::Equal {
                        VersionV::order_flips(rest[j], x);
                        VersionV::order_coherent(x, rest[j], w);
                        let m = choose|m: int| 0 <= m < all.len() && all[m] == x;
                        assert(all[m].order(w) == Order::Equal);
                    } else {
                        assert(rest.contains(rest[j]));
                        assert(all.contains(rest[j]));
                        let m = choose|m: int| 0 <= m < all.len() && all[m] == rest[j];
                        assert(all[m].order(w) == Order::Equal);
                    }
                }
            }
        }
    }
}

/// Of a repository that tells the latest versions of its packages each is offered in the
/// version that was told last and can be read; no other package is offered.
pub proof fn latest_versions_are_offered(
    summaries: Seq<(Seq<char>, Seq<char>)>,
    name: Seq<char>,
    i: int,
)
    ensures
        latest_versions(summaries).contains_key(name) <==> exists|k: int|
            0 <= k < summaries.len() && (#[trigger] summaries[k]).0 == name && version_components(
                summaries[k].1,
            ) is Some,
        0 <= i < summaries.len() && summaries[i].0 == name && version_components(
            summaries[i].1,
        ) is Some && (forall|k: int|
            i < k < summaries.len() && (#[trigger] summaries[k]).0 == name ==> version_components(
                summaries[k].1,
            ) is None) ==> latest_versions(summaries)[name].text == summaries[i].1 && Some(
            latest_versions(summaries)[name].components,
        ) == version_components(summaries[i].1),
    decreases summaries.len(),
{
    if summaries.len() > 0 {
        let t = summaries.drop_last();
        let n = summaries.len() - 1;
        assert(summaries[n] == summaries.last());
        latest_versions_are_offered(t, name, i);
        if exists|k: int|
            0 <= k < t.len() && (#[trigger] t[k]).0 == name && version_components(t[k].1) is Some {
            let k = choose|k: int|
                0 <= k < t.len() && (#[trigger] t[k]).0 == name && version_components(
                    t[k].1,
                ) is Some;
            assert(summaries[k] == t[k]);
        }
        if exists|k: int|
            0 <= k < summaries.len() && (#[trigger] summaries[k]).0 == name && version_components(
                summaries[k].1,
            ) is Some {
            let k = choose|k: int|
                0 <= k < summaries.len() && (#[trigger] summaries[k]).0 == name
                    && version_components(summaries[k].1) is Some;
            if k < n {
                assert(t[k] == summaries[k]);
            }
        }
        if 0 <= i < n && summaries[i].0 == name && version_components(summaries[i].1) is Some && (
        forall|k: int|
            i < k < summaries.len() && (#[trigger] summaries[k]).0 == name ==> version_components(
                summaries[k].1,
            ) is None) {
            assert(t[i] == summaries[i]);
            assert forall|k: int|
                i < k < t.len() && (#[trigger] t[k]).0 == name implies version_components(
                t[k].1,
            ) is None by {
                assert(t[k] == summaries[k]);
            }
        }
    }
}

proof fn lemma_version_replaced(rest: Seq<VersionV>, x: VersionV)
    requires
        increasing(rest),
    ensures
        crate::order::has_equal(replaced(rest, x), x),
        forall|w: VersionV|
            crate::order::has_equal(rest, w) ==> #[trigger] crate::order::has_equal(
                replaced(rest, x),
                w,
            ),
{
    let all = replaced(rest, x);
    lemma_replaced(rest, x);
    let at = choose|j: int| 0 <= j < all.len() && all[j] == x;
    VersionV::order_flips(x, x);
    assert(all[at].order(x) == Order::Equal);
    assert forall|w: VersionV| crate::order::has_equal(
        rest,
        w,
    ) implies #[trigger] crate::order::has_equal(all, w) by {
        let j = choose|j: int|
            0 <= j < rest.len() && (#[trigger] rest[j]).order(w) == Order::Equal;
        if rest[j].order(x) == Order::Equal {
            VersionV::order_flips(rest[j], x);
            VersionV::order_coherent(x, rest[j], w);
            assert(all[at].order(w) == Order::Equal);
        } else {
            assert(rest.contains(rest[j]));
            assert(all.contains(rest[j]));
            let k = choose|k: int| 0 <= k < all.len() && all[k] == rest[j];
            assert(all[k].order(w) == Order::Equal);
        }
    }
}

/// The list holds a version that can be read.
pub open spec fn lists_version_as(list: Seq<Seq<char>>, v: VersionV) -> bool {
    list.contains(v.text) && version_components(v.text) == Some(v.components)
}

/// The versions that a repository lists are read exactly if each of them is one.
pub proof fn readable_lists_are_read(package: Seq<char>, list: Seq<Seq<char>>)
    ensures
        read_versions(package, list) is Ok <==> forall|i: int|
            0 <= i < list.len() ==> version_components(#[trigger] list[i]) is Some,
    decreases list.len(),
{
    if list.len() > 0 {
        let t = list.drop_last();
        let n = list.len() - 1;
        assert(list[n] == list.last());
        readable_lists_are_read(package, t);
        assert forall|i: int| 0 <= i < t.len() implies #[trigger] t[i] == list[i] by {}
        if read_versions(package, t) is Ok {
            assert forall|i: int| 0 <= i < n implies version_components(
                #[trigger] list[i],
            ) is Some by {
                assert(t[i] == list[i]);
            }
        }
    }
}

/// The versions that are read from a list are the listed ones and no others, in increasing
/// order.
pub proof fn listed_versions_are_read(package: Seq<char>, list: Seq<Seq<char>>)
    requires
        read_versions(package, list) is Ok,
    ensures
        increasing(read_versions(package, list)->Ok_0),
        forall|v: VersionV| #[trigger]
            read_versions(package, list)->Ok_0.contains(v) ==> lists_version_as(list, v),
        forall|v: VersionV| #[trigger]
            lists_version_as(list, v) ==> crate::order::has_equal(
                read_versions(package, list)->Ok_0,
                v,
            ),
    decreases list.len(),
{
    let all = read_versions(package, list)->Ok_0;
    if list.len() > 0 {
        let t = list.drop_last();
        let n = list.len() - 1;
        let last = list.last();
        assert(list[n] == last);
        let rest = read_versions(package, t)->Ok_0;
        listed_versions_are_read(package, t);
        let x = VersionV { text: last, components: version_components(last)->0 };
        lemma_replaced(rest, x);
        lemma_version_replaced(rest, x);
        assert(all == replaced(rest, x));
        assert forall|v: VersionV| #[trigger] all.contains(v) implies lists_version_as(list, v) by {
            if v != x {
                assert(rest.contains(v));
                assert(lists_version_as(t, v));
                let k = choose|k: int| 0 <= k < t.len() && t[k] == v.text;
                assert(list[k] == v.text);
            }
        }
        assert forall|v: VersionV| #[trigger] lists_version_as(
            list,
            v,
        ) implies crate::order::has_equal(all, v) by {
            let k = choose|k: int| 0 <= k < list.len() && list[k] == v.text;
            if k < n {
                assert(t[k] == v.text);
                assert(lists_version_as(t, v));
            } else {
                assert(v == x);
            }
        }
    }
}

/// To the known versions of a package the archived ones are added: all known versions stay,
/// each archived version is equal to one of the result, and nothing else is added.
pub proof fn archived_versions_are_added(known: Seq<VersionV>, archived: Seq<VersionV>)
    requires
        increasing(known),
    ensures
        increasing(extended(known, archived)),
        forall|v: VersionV| known.contains(v) ==> #[trigger] extended(known, archived).contains(v),
        forall|v: VersionV| #[trigger]
            extended(known, archived).contains(v) ==> known.contains(v) || archived.contains(v),
        forall|i: int|
            0 <= i < archived.len() ==> crate::order::has_equal(
                extended(known, archived),
                #[trigger] archived[i],
            ),
    decreases archived.len(),
{
    if archived.len() > 0 {
        let t = archived.drop_last();
        let n = archived.len() - 1;
        let x = archived.last();
        assert(archived[n] == x);
        archived_versions_are_added(known, t);
        let rest = extended(known, t);
        let all = extended(known, archived);
        crate::sorted::lemma_inserted(rest, x);
        assert forall|v: VersionV| #[trigger] all.contains(v) implies known.contains(v)
            || archived.contains(v) by {
            if rest.contains(v) {
                if t.contains(v) {
                    let k = choose|k: int| 0 <= k < t.len() && t[k] == v;
                    assert(archived[k] == v);
                }
            }
        }
        assert forall|i: int| 0 <= i < archived.len() implies crate::order::has_equal(
            all,
            #[trigger] archived[i],
        ) by {
            if i < n {
                assert(t[i] == archived[i]);
                let j = choose|j: int|
                    0 <= j < rest.len() && (#[trigger] rest[j]).order(archived[i]) == Order::Equal;
                assert(rest.contains(rest[j]));
                assert(all.contains(rest[j]));
                let k = choose|k: int| 0 <= k < all.len() && all[k] == rest[j];
                assert(all[k].order(archived[i]) == Order::Equal);
            }
        }
    }
}

/// A description that names its package and a version that can be read describes that package
/// in that version; one that does not is refused.
pub proof fn packages_are_described_by_their_fields(location: Seq<char>, document: Seq<char>)
    ensures
        described_package(location, document) matches Ok((name, version)) ==> {
            &&& name.len() > 0
            &&& field_of(document, "Package"@) matches Some(found) && found.message == name
            &&& field_of(document, "Version"@) matches Some(found) && found.message == version.text
            &&& version_components(version.text) == Some(version.components)
        },
        described_package(location, document) is Ok <==> (field_of(
            document,
            "Package"@,
        ) matches Some(found) && found.message.len() > 0) && (field_of(
            document,
            "Version"@,
        ) matches Some(found) && version_components(found.message) is Some),
{
}

/// The description that is made of a record of an index has the fields of the record, and no
/// others.
pub proof fn records_keep_their_fields(record: RecordV, name: Seq<char>, value: Seq<char>)
    requires
        is_identified(record),
    ensures
        record_fields(record).contains((name, value)) <==> (name == "Package"@ && record.package
            == Some(value)) || (name == "Version"@ && record.version == Some(value)) || (name
            == "Depends"@ && record.depends == Some(value)) || (name == "Imports"@
            && record.imports == Some(value)) || (name == "Suggests"@ && record.suggests == Some(
            value,
        )) || (name == "LinkingTo"@ && record.linking_to == Some(value)),
{
    let two = seq![("Package"@, record.package->0), ("Version"@, record.version->0)];
    let a = opt_field("Depends"@, record.depends);
    let b = opt_field("Imports"@, record.imports);
    let c = opt_field("Suggests"@, record.suggests);
    let d = opt_field("LinkingTo"@, record.linking_to);
    let x = (name, value);
    lemma_in_either(two + a + b + c, d, x);
    lemma_in_either(two + a + b, c, x);
    lemma_in_either(two + a, b, x);
    lemma_in_either(two, a, x);
    assert(two[0] == ("Package"@, record.package->0));
    assert(two[1] == ("Version"@, record.version->0));
    assert(two.contains(x) <==> x == two[0] || x == two[1]);
    lemma_opt_field("Depends"@, record.depends, x);
    lemma_opt_field("Imports"@, record.imports, x);
    lemma_opt_field("Suggests"@, record.suggests, x);
    lemma_opt_field("LinkingTo"@, record.linking_to, x);
}

proof fn lemma_in_either<A>(a: Seq<A>, b: Seq<A>, x: A)
    ensures
        (a + b).contains(x) <==> a.contains(x) || b.contains(x),
{
    let all = a + b;
    if all.contains(x) {
        let i = choose|i: int| 0 <= i < all.len() && all[i] == x;
        if i < a.len() {
            assert(a[i] == x);
        } else {
            assert(b[i - a.len()] == x);
        }
    }
    if a.contains(x) {
        let i = choose|i: int| 0 <= i < a.len() && a[i] == x;
        assert(all[i] == x);
    }
    if b.contains(x) {
        let i = choose|i: int| 0 <= i < b.len() && b[i] == x;
        assert(all[i + a.len()] == x);
    }
}

proof fn lemma_opt_field(name: Seq<char>, value: Option<Seq<char>>, x: (Seq<char>, Seq<char>))
    ensures
        opt_field(name, value).contains(x) <==> x.0 == name && value == Some(x.1),
{
    if let Some(v) = value {
        assert(opt_field(name, value)[0] == (name, v));
    }
}

/// The description of a package stands directly in the directory of its name, which may be
/// spelled from the current directory; nothing else is taken for it.
pub proof fn descriptions_stand_at_the_top(package: Seq<char>)
    requires
        package.len() > 0,
        !package.contains('/'),
        package != "."@,
    ensures
        is_top_level_description(package + "/DESCRIPTION"@, package),
        is_top_level_description("./"@ + package + "/DESCRIPTION"@, package),
        forall|other: Seq<char>| #[trigger]
            is_top_level_description(package + "/DESCRIPTION"@, other) ==> other == package,
        !is_top_level_description("DESCRIPTION"@, package),
        !is_top_level_description("/"@ + package + "/DESCRIPTION"@, package),
{
    reveal_strlit("/DESCRIPTION");
    reveal_strlit("DESCRIPTION");
    reveal_strlit("/");
    reveal_strlit("./");
    reveal_strlit(".");
    let seps = set!['/'];
    let file = "DESCRIPTION"@;
    let none = Seq::<char>::empty();
    assert forall|i: int| 0 <= i < package.len() implies !seps.contains(#[trigger] package[i]) by {
        assert(package.contains(package[i]));
    }
    assert forall|i: int| 0 <= i < file.len() implies !seps.contains(#[trigger] file[i]) by {}
    text::splitting_takes_apart(none, seps, '/', package);
    text::splitting_takes_apart(package, seps, '/', file);
    text::splitting_takes_apart(none, seps, '/', file);
    let a = package + "/DESCRIPTION"@;
    assert(a =~= package.push('/') + file);
    let pa = seq![package, file];
    assert(text::split_on(a, '/') =~= pa);
    lemma_two_segments(package);
    let dot = "."@;
    assert forall|i: int| 0 <= i < dot.len() implies !seps.contains(#[trigger] dot[i]) by {}
    text::splitting_takes_apart(none, seps, '/', dot);
    text::splitting_takes_apart(dot, seps, '/', package);
    let b = "./"@ + package + "/DESCRIPTION"@;
    let m = dot.push('/') + package;
    text::splitting_takes_apart(m, seps, '/', file);
    assert(b =~= m.push('/') + file);
    assert(text::split_on(b, '/') =~= seq![dot, package, file]);
    lemma_dot_segments(package);
    assert(a[0] == package[0] && b[0] == '.');
    assert(!has_prefix(a, "/"@)) by {
        if has_prefix(a, "/"@) {
            assert(a.take(1)[0] == a[0]);
            assert(package.contains(package[0]));
        }
    }
    assert(!has_prefix(b, "/"@)) by {
        if has_prefix(b, "/"@) {
            assert(b.take(1)[0] == b[0]);
        }
    }
    assert forall|other: Seq<char>| #[trigger]
        is_top_level_description(a, other) implies other == package by {
        assert(pa[0] == package);
        assert(seq![other, file][0] == other);
    }
    assert(text::split_on(file, '/') =~= seq![file]);
    lemma_one_segment();
    assert(!is_top_level_description(file, package)) by {
        assert(seq![file].len() == 1 && seq![package, file].len() == 2);
    }
    let c = "/"@ + package + "/DESCRIPTION"@;
    assert(c.take(1) =~= "/"@);
}

proof fn lemma_two_segments(package: Seq<char>)
    requires
        package.len() > 0,
        package != "."@,
    ensures
        path::nonempty(seq![package, "DESCRIPTION"@]) == seq![package, "DESCRIPTION"@],
        without_dots(seq![package, "DESCRIPTION"@]) == seq![package, "DESCRIPTION"@],
{
    reveal_strlit("DESCRIPTION");
    reveal_strlit(".");
    let parts = seq![package, "DESCRIPTION"@];
    assert(parts.drop_last() =~= seq![package]);
    assert(seq![package].drop_last() =~= Seq::empty());
    reveal_with_fuel(path::nonempty, 3);
    reveal_with_fuel(without_dots, 3);
    assert("DESCRIPTION"@.len() != "."@.len());
    assert(path::nonempty(parts) =~= parts);
    assert(without_dots(parts) =~= parts);
}

proof fn lemma_dot_segments(package: Seq<char>)
    requires
        package.len() > 0,
        package != "."@,
    ensures
        path::nonempty(seq!["."@, package, "DESCRIPTION"@]) == seq!["."@, package, "DESCRIPTION"@],
        without_dots(seq!["."@, package, "DESCRIPTION"@]) == seq![package, "DESCRIPTION"@],
{
    reveal_strlit("DESCRIPTION");
    reveal_strlit(".");
    let parts = seq!["."@, package, "DESCRIPTION"@];
    assert(parts.drop_last() =~= seq!["."@, package]);
    assert(seq!["."@, package].drop_last() =~= seq!["."@]);
    assert(seq!["."@].drop_last() =~= Seq::empty());
    reveal_with_fuel(path::nonempty, 4);
    reveal_with_fuel(without_dots, 4);
    assert("DESCRIPTION"@.len() != "."@.len());
    assert(path::nonempty(parts) =~= parts);
    assert(without_dots(parts) =~= seq![package, "DESCRIPTION"@]);
}

proof fn lemma_one_segment()
    ensures
        without_dots(path::nonempty(seq!["DESCRIPTION"@])) == seq!["DESCRIPTION"@],
{
    reveal_strlit("DESCRIPTION");
    reveal_strlit(".");
    let parts = seq!["DESCRIPTION"@];
    assert(parts.drop_last() =~= Seq::empty());
    reveal_with_fuel(path::nonempty, 2);
    reveal_with_fuel(without_dots, 2);
    assert("DESCRIPTION"@.len() != "."@.len());
    assert(path::nonempty(parts) =~= parts);
    assert(without_dots(parts) =~= parts);
}

/// The record of a package and a version has that name and a version that compares equal to
/// it, however the two are spelled.
pub proof fn records_are_found_by_name_and_version(
    record: RecordV,
    package: Seq<char>,
    version: VersionV,
    components: Seq<u32>,
)
    requires
        record.version is Some,
        version_components(record.version->0) == Some(components),
    ensures
        is_record_of(record, package, version) <==> record.package == Some(package)
            && components_order(components, version.components) == Order::Equal,
{
}

/// The description of a package in an archive is the first entry that is one, unless an entry
/// before it cannot be read; what is read is the text of that entry.
pub proof fn archives_are_read_up_to_the_description(
    bytes: Seq<u8>,
    package: Seq<char>,
    r: Result<Description, RepositoryError>,
    paths: Seq<Result<Seq<u8>, Seq<char>>>,
    i: int,
    text: Seq<char>,
)
    requires
        tarball_outcome(bytes, package, r),
        archive_paths_of(bytes) == Ok::<Seq<Result<Seq<u8>, Seq<char>>>, Seq<char>>(paths),
        0 <= i < paths.len(),
        forall|j: int|
            0 <= j < i ==> (#[trigger] paths[j]) is Ok && !is_description_entry(
                paths[j]->Ok_0,
                package,
            ),
    ensures
        paths[i] is Ok && is_description_entry(paths[i]->Ok_0, package) && archive_text_of(
            bytes,
            i as nat,
        ) == Ok::<Seq<char>, Seq<char>>(text) ==> (r matches Ok(description) && description@
            == text),
        paths[i] matches Err(message) ==> (r matches Err(error) && error@
            == RepositoryErrorV::Archive(message)),
        (i == paths.len() - 1 && paths[i] is Ok && !is_description_entry(paths[i]->Ok_0, package))
            ==> (r matches Err(error) && error@ == RepositoryErrorV::DescriptionNotFound(package)),
{
    assert forall|j: int| 0 <= j < i implies !#[trigger] is_telling(paths, package, j) by {
        assert(paths[j] is Ok);
    }
    if is_telling(paths, package, i) {
        let k = choose|k: int|
            {
                &&& 0 <= k < paths.len()
                &&& #[trigger] is_telling(paths, package, k)
                &&& forall|j: int| 0 <= j < k ==> !#[trigger] is_telling(paths, package, j)
                &&& match paths[k] {
                    Err(message) => r matches Err(error) && error@
                        == RepositoryErrorV::Archive(message),
                    Ok(_) => match archive_text_of(bytes, k as nat) {
                        Err(message) => r matches Err(error) && error@
                            == RepositoryErrorV::Archive(message),
                        Ok(text) => r matches Ok(description) && description@ == text,
                    },
                }
            };
        assert(k == i);
    }
}

/// The entry of the description stands directly in the directory of the package.
pub proof fn entries_are_found_at_the_top(package: Seq<u8>)
    requires
        valid_utf8(package),
        decode_utf8(package).len() > 0,
        decode_utf8(package) != "."@,
        forall|i: int| 0 <= i < package.len() ==> #[trigger] package[i] != 0x2f,
    ensures
        is_description_entry(
            package + seq![0x2fu8] + vstd::utf8::encode_utf8("DESCRIPTION"@),
            decode_utf8(package),
        ),
        forall|other: Seq<char>| #[trigger]
            is_description_entry(
                package + seq![0x2fu8] + vstd::utf8::encode_utf8("DESCRIPTION"@),
                other,
            ) ==> other == decode_utf8(package),
{
    let file = vstd::utf8::encode_utf8("DESCRIPTION"@);
    vstd::utf8::encode_utf8_decode_utf8("DESCRIPTION"@);
    vstd::utf8::encode_utf8_valid_utf8("DESCRIPTION"@);
    reveal_strlit("DESCRIPTION");
    reveal_strlit(".");
    assert("DESCRIPTION"@.len() == 11 && "."@.len() == 1);
    lemma_plain_bytes("DESCRIPTION"@);
    let path = package + seq![0x2fu8] + file;
    lemma_bytes_joined(package, file);
    lemma_bytes_alone(package);
    let parts = seq![package, file];
    assert(byte_parts(path) =~= parts);
    assert(parts.drop_last() =~= seq![package]);
    assert(seq![package].drop_last() =~= Seq::<Seq<u8>>::empty());
    reveal_with_fuel(part_names, 3);
    let names = seq![decode_utf8(package), "DESCRIPTION"@];
    assert(is_name(package));
    assert(is_name(file));
    assert(part_names(parts) =~= names);
    assert(package.len() > 0) by {
        if package.len() == 0 {
            assert(package =~= vstd::utf8::encode_utf8(Seq::<char>::empty()));
            vstd::utf8::encode_utf8_decode_utf8(Seq::<char>::empty());
        }
    }
    assert(path[0] == package[0]);
    assert forall|other: Seq<char>| #[trigger] is_description_entry(path, other) implies other
        == decode_utf8(package) by {
        assert(names[0] == decode_utf8(package));
        assert(seq![other, "DESCRIPTION"@][0] == other);
    }
}

proof fn lemma_plain_bytes(s: Seq<char>)
    requires
        forall|i: int| 0 <= i < s.len() ==> 'A' <= #[trigger] s[i] && s[i] <= 'Z',
    ensures
        forall|i: int|
            0 <= i < vstd::utf8::encode_utf8(s).len() ==> #[trigger] vstd::utf8::encode_utf8(s)[i]
                != 0x2f,
{
    assert(vstd::utf8::is_ascii_chars(s));
    vstd::utf8::is_ascii_chars_encode_utf8(s);
    assert forall|i: int| 0 <= i < vstd::utf8::encode_utf8(s).len() implies #[trigger]
    vstd::utf8::encode_utf8(s)[i] != 0x2f by {
        assert('A' <= s[i] && s[i] <= 'Z');
    }
}

proof fn lemma_bytes_alone(s: Seq<u8>)
    requires
        forall|i: int| 0 <= i < s.len() ==> #[trigger] s[i] != 0x2f,
    ensures
        byte_parts(s) == seq![s],
    decreases s.len(),
{
    if s.len() > 0 {
        let t = s.drop_last();
        assert forall|i: int| 0 <= i < t.len() implies #[trigger] t[i] != 0x2f by {
            assert(t[i] == s[i]);
        }
        lemma_bytes_alone(t);
        assert(s[s.len() - 1] != 0x2f);
        assert(t.push(s.last()) =~= s);
        assert(byte_parts(s) =~= seq![s]);
    } else {
        assert(s =~= Seq::<u8>::empty());
        assert(byte_parts(s) =~= seq![s]);
    }
}

proof fn lemma_bytes_joined(a: Seq<u8>, b: Seq<u8>)
    requires
        forall|i: int| 0 <= i < b.len() ==> #[trigger] b[i] != 0x2f,
    ensures
        byte_parts(a + seq![0x2fu8] + b) == byte_parts(a).push(b),
    decreases b.len(),
{
    let s = a + seq![0x2fu8] + b;
    if b.len() > 0 {
        let t = b.drop_last();
        assert forall|i: int| 0 <= i < t.len() implies #[trigger] t[i] != 0x2f by {
            assert(t[i] == b[i]);
        }
        lemma_bytes_joined(a, t);
        assert(s.drop_last() =~= a + seq![0x2fu8] + t);
        assert(s.last() == b[b.len() - 1]);
        let rest = byte_parts(a).push(t);
        assert(rest.drop_last() =~= byte_parts(a));
        assert(t.push(b.last()) =~= b);
        assert(byte_parts(s) =~= byte_parts(a).push(b));
    } else {
        assert(s.drop_last() =~= a);
        assert(s.last() == 0x2fu8);
        assert(b =~= Seq::<u8>::empty());
        assert(byte_parts(s) =~= byte_parts(a).push(b));
    }
}

/// Every known version is offered from the repository, in order, and nothing else.
pub proof fn known_versions_are_offered(
    versions: &SortedSet<Version>,
    repository: &PackageRepository,
    r: Vec<PackageVersion>,
    i: int,
)
    requires
        call_ensures(offers, (versions, repository), r),
        0 <= i < versions@.len(),
    ensures
        r@.len() == versions@.len(),
        r@[i]@.version == versions@[i],
        r@[i]@.repository == repository@,
{
    assert(r@[i].wf());
}

/// A package of its own offers its version under its name, and nothing under another.
pub proof fn single_packages_offer_their_version(
    name: &str,
    version: PackageVersion,
    package: &str,
    r: Vec<PackageVersion>,
)
    requires
        call_ensures(single_versions, (name, version, package), r),
    ensures
        package@ == name@ ==> r@ == seq![version],
        package@ != name@ ==> r@.len() == 0,
{
}

/// The archive is asked for the versions of packages that the index knows, where there is an
/// archive.
pub proof fn archives_are_asked_for_known_packages(
    known: &SortedSet<Version>,
    archives: ArchiveSupport,
    r: bool,
)
    requires
        call_ensures(asks_archive, (known, archives), r),
    ensures
        r <==> known@.len() > 0 && archives == ArchiveSupport::Available,
{
}

} // verus!
