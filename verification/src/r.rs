//! R itself.
use crate::catalog::{offered, offers_wf};
use crate::metadata::{version_components, version_failure, Version, VersionV};
use crate::repository::{built_in_repository, built_in_url, RepositoryV};
use crate::resolver::PackageVersion;
use crate::sorted::{collected, SortedSet, TextMap};
use crate::text;
use crate::text::{
    decimal_text, has_prefix, is_white_space, lines_of, occurs, texts, trim_start, trimmed,
    utf8_failure, written_text,
};
use vstd::prelude::*;
use vstd::utf8::{decode_utf8, valid_utf8};

verus! {

/// The version of an R installation: its spelling and the numbers that it begins with.
#[derive(Debug)]
pub struct RVersion {
    pub text: String,
    pub major: u64,
    pub minor: u64,
    pub patch: u64,
}

/// Three numbers divided by points.
pub open spec fn release_text(major: nat, minor: nat, patch: nat) -> Seq<char> {
    decimal_text(major) + "."@ + decimal_text(minor) + "."@ + decimal_text(patch)
}

/// What `semver::Version::from_str` makes of a text: the three numbers of the release, or a
/// message.
pub uninterp spec fn parsed_semver(text: Seq<char>) -> Result<(u64, u64, u64), Seq<char>>;

/// `semver::Version::from_str`: the text is a release, which it begins with, then marks for a
/// pre-release and for a build.
#[verifier::external_body]
fn parse_semver(text: &str) -> (r: Result<(u64, u64, u64), String>)
    ensures
        match r {
            Ok((major, minor, patch)) => {
                &&& parsed_semver(text@) == Ok::<(u64, u64, u64), Seq<char>>((major, minor, patch))
                &&& has_prefix(text@, release_text(major as nat, minor as nat, patch as nat))
            },
            Err(message) => parsed_semver(text@) == Err::<(u64, u64, u64), Seq<char>>(message@),
        },
{
    match text.parse::<semver::Version>() {
        Ok(version) => Ok((version.major, version.minor, version.patch)),
        Err(error) => Err(error.to_string()),
    }
}

impl RVersion {
    /// The spelling.
    pub open spec fn view(&self) -> Seq<char> {
        self.text@
    }

    /// The numbers are those that the spelling begins with.
    pub open spec fn wf(&self) -> bool {
        has_prefix(
            self.text@,
            release_text(self.major as nat, self.minor as nat, self.patch as nat),
        )
    }

    /// A release.
    pub fn new(major: u64, minor: u64, patch: u64) -> (r: RVersion)
        ensures
            r.wf(),
            r@ == release_text(major as nat, minor as nat, patch as nat),
            r.major == major,
            r.minor == minor,
            r.patch == patch,
    {
        let a = text::decimal(major);
        let b = text::decimal(minor);
        let c = text::decimal(patch);
        let mut text = text::cat4(a.as_str(), ".", b.as_str(), ".");
        text.push_str(c.as_str());
        assert(text@ =~= release_text(major as nat, minor as nat, patch as nat));
        assert(text@.subrange(0, text@.len() as int) =~= text@);
        RVersion { text, major, minor, patch }
    }

    /// Reads a version.
    pub fn parse(text: &str) -> (r: Result<RVersion, String>)
        ensures
            match r {
                Ok(version) => {
                    &&& version.wf()
                    &&& version@ == text@
                    &&& parsed_semver(text@) == Ok::<(u64, u64, u64), Seq<char>>(
                        (version.major, version.minor, version.patch),
                    )
                },
                Err(message) => parsed_semver(text@) == Err::<(u64, u64, u64), Seq<char>>(message@),
            },
    {
        match parse_semver(text) {
            Ok((major, minor, patch)) => Ok(
                RVersion { text: text.to_owned(), major, minor, patch },
            ),
            Err(message) => Err(message),
        }
    }

    /// A copy.
    pub fn copy(&self) -> (r: RVersion)
        ensures
            r == *self,
    {
        RVersion {
            text: self.text.clone(),
            major: self.major,
            minor: self.minor,
            patch: self.patch,
        }
    }

    /// Whether two versions are the same, to the build.
    pub fn same(&self, other: &RVersion) -> (r: bool)
        ensures
            r == (self@ == other@),
    {
        text::same(self.text.as_str(), other.text.as_str())
    }

    /// The series that a version belongs to: its first two numbers.
    pub fn series(&self) -> (r: String)
        ensures
            r@ == series_text(self.major as nat, self.minor as nat),
    {
        let a = text::decimal(self.major);
        let b = text::decimal(self.minor);
        text::cat3(a.as_str(), ".", b.as_str())
    }
}

/// Two numbers divided by a point.
pub open spec fn series_text(major: nat, minor: nat) -> Seq<char> {
    decimal_text(major) + "."@ + decimal_text(minor)
}

/// Why a program could not be run to a good end.
#[derive(Debug)]
pub enum RSubprocessError {
    Start { program: String, details: String },
    Failed {
        program: String,
        exit_code: Option<i32>,
        stdout: String,
        stderr: String,
        summary: String,
    },
}

/// A line that tells of a failure.
pub open spec fn tells_of_failure(line: Seq<char>) -> bool {
    occurs(line, "ERROR"@) || occurs(line, "error:"@) || occurs(line, "installation of package"@)
        || occurs(line, "failed"@)
}

/// The lines of a text without the white space around them, empty ones left out.
pub open spec fn tidy_lines(lines: Seq<Seq<char>>) -> Seq<Seq<char>>
    decreases lines.len(),
{
    if lines.len() == 0 {
        Seq::empty()
    } else {
        let rest = tidy_lines(lines.drop_last());
        if trimmed(lines.last()).len() == 0 {
            rest
        } else {
            rest.push(trimmed(lines.last()))
        }
    }
}

fn read_tidy_lines(text: &str) -> (r: Vec<String>)
    ensures
        texts(r@) == tidy_lines(lines_of(text@)),
{
    let lines = text::lines(text);
    let ghost all = texts(lines@);
    let mut out: Vec<String> = Vec::new();
    let mut i: usize = 0;
    assert(all.take(0) =~= Seq::<Seq<char>>::empty());
    assert(texts(out@) =~= Seq::<Seq<char>>::empty());
    while i < lines.len()
        invariant
            i <= lines@.len(),
            all == texts(lines@),
            texts(out@) == tidy_lines(all.take(i as int)),
        decreases lines@.len() - i,
    {
        assert(all.take(i + 1).drop_last() =~= all.take(i as int));
        assert(all[i as int] == lines@[i as int]@);
        let line = text::trim(lines[i].as_str());
        let ghost before = out@;
        if !line.as_str().is_empty() {
            out.push(line);
            assert(texts(out@) =~= texts(before).push(line@));
        }
        i = i + 1;
    }
    assert(all.take(i as int) =~= all);
    out
}

/// The line that sums up: the last that tells of a failure, or the last of all.
pub open spec fn summary_of(lines: Seq<Seq<char>>) -> Seq<char>
    decreases lines.len(),
{
    match last_failure(lines) {
        Some(line) => line,
        None => if lines.len() == 0 {
            "process exited without output"@
        } else {
            lines.last()
        },
    }
}

/// The last line that tells of a failure.
pub open spec fn last_failure(lines: Seq<Seq<char>>) -> Option<Seq<char>>
    decreases lines.len(),
{
    if lines.len() == 0 {
        None
    } else if tells_of_failure(lines.last()) {
        Some(lines.last())
    } else {
        last_failure(lines.drop_last())
    }
}

/// One line for what a program has written; what it has written to the standard output
/// comes last.
pub fn summarize_subprocess_output(stdout: &Vec<u8>, stderr: &Vec<u8>) -> (r: String)
    ensures
        r@ == summary_of(
            tidy_lines(lines_of(written_text(stderr@) + "\n"@ + written_text(stdout@))),
        ),
{
    let out = text::lossy(stdout);
    let err = text::lossy(stderr);
    let combined = text::cat3(err.as_str(), "\n", out.as_str());
    let lines = read_tidy_lines(combined.as_str());
    let ghost all = texts(lines@);
    assert(all.len() == lines@.len());
    let mut i: usize = lines.len();
    assert(all.take(i as int) =~= all);
    while i > 0
        invariant
            i <= lines@.len(),
            all == texts(lines@),
            all == tidy_lines(
                lines_of(written_text(stderr@) + "\n"@ + written_text(stdout@)),
            ),
            last_failure(all) == last_failure(all.take(i as int)),
        decreases i,
    {
        let line = lines[i - 1].as_str();
        assert(all.take(i as int).last() == line@);
        assert(all.take(i as int).drop_last() =~= all.take(i - 1));
        if text::contains_text(line, "ERROR") || text::contains_text(line, "error:")
            || text::contains_text(line, "installation of package") || text::contains_text(
            line,
            "failed",
        ) {
            return line.to_owned();
        }
        i = i - 1;
    }
    if lines.len() == 0 {
        "process exited without output".to_owned()
    } else {
        assert(all.last() == lines@[lines@.len() - 1]@);
        lines[lines.len() - 1].clone()
    }
}

/// What the end of a program means.
pub fn subprocess_outcome(
    program: &str,
    success: bool,
    exit_code: Option<i32>,
    stdout: &Vec<u8>,
    stderr: &Vec<u8>,
) -> (r: Result<(), RSubprocessError>)
    ensures
        r is Ok <==> success,
        r matches Err(error) ==> {
            &&& error matches RSubprocessError::Failed {
                program: name,
                exit_code: code,
                stdout: out,
                stderr: err,
                summary,
            }
            &&& name@ == program@
            &&& code == exit_code
            &&& out@ == written_text(stdout@)
            &&& err@ == written_text(stderr@)
            &&& summary@ == summary_of(tidy_lines(lines_of(err@ + "\n"@ + out@)))
        },
{
    if success {
        return Ok(());
    }
    Err(
        RSubprocessError::Failed {
            program: program.to_owned(),
            exit_code,
            stdout: text::lossy(stdout),
            stderr: text::lossy(stderr),
            summary: summarize_subprocess_output(stdout, stderr),
        },
    )
}

/// The first word of a text.
pub open spec fn first_word(s: Seq<char>) -> Option<Seq<char>> {
    let rest = trim_start(s);
    if rest.len() == 0 {
        None
    } else {
        Some(up_to_white_space(rest))
    }
}

/// A text up to its first white space.
pub open spec fn up_to_white_space(s: Seq<char>) -> Seq<char>
    decreases s.len(),
{
    if s.len() == 0 || is_white_space(s[0]) {
        Seq::empty()
    } else {
        seq![s[0]] + up_to_white_space(s.skip(1))
    }
}

fn find_first_word(s: &str) -> (r: Option<String>)
    ensures
        text::opt_text(r) == first_word(s@),
{
    let v = text::chars_of(s);
    let mut i: usize = 0;
    assert(v@.skip(0) =~= v@);
    while i < v.len() && text::white_space(v[i])
        invariant
            i <= v.len(),
            trim_start(v@) == trim_start(v@.skip(i as int)),
        decreases v.len() - i,
    {
        assert(v@.skip(i as int).drop_first() =~= v@.skip(i + 1));
        i = i + 1;
    }
    if i == v.len() {
        return None;
    }
    let mut word = String::new();
    let ghost rest = v@.skip(i as int);
    let mut j: usize = i;
    assert(word@ + up_to_white_space(v@.skip(j as int)) =~= up_to_white_space(rest));
    while j < v.len() && !text::white_space(v[j])
        invariant
            j <= v.len(),
            word@ + up_to_white_space(v@.skip(j as int)) == up_to_white_space(rest),
        decreases v.len() - j,
    {
        let ghost before = word@;
        assert(v@.skip(j as int).skip(1) =~= v@.skip(j + 1));
        word.push(v[j]);
        assert(before + (seq![v@[j as int]] + up_to_white_space(v@.skip(j + 1))) =~= word@
            + up_to_white_space(v@.skip(j + 1)));
        j = j + 1;
    }
    assert(word@ + up_to_white_space(v@.skip(j as int)) =~= word@);
    Some(word)
}

/// The version that R reports: the word behind the words that it begins with, or all of it.
pub open spec fn reported_version(output: Seq<char>) -> Seq<char> {
    let text = trimmed(output);
    let start = "Rscript (R) version "@;
    if has_prefix(text, start) {
        match first_word(text.skip(start.len() as int)) {
            Some(word) => word,
            None => text,
        }
    } else {
        text
    }
}

/// Why the version of R cannot be told.
#[derive(Debug)]
pub enum RVersionError {
    Command { source: RSubprocessError },
    InvalidUtf8 { details: String },
    InvalidVersion { version: String, details: String },
}

/// Reads the version that R reports.
pub fn r_version_from_output(output: Vec<u8>) -> (r: Result<RVersion, RVersionError>)
    ensures
        match r {
            Ok(version) => {
                &&& valid_utf8(output@)
                &&& version.wf()
                &&& version@ == reported_version(decode_utf8(output@))
                &&& parsed_semver(version@) == Ok::<(u64, u64, u64), Seq<char>>(
                    (version.major, version.minor, version.patch),
                )
            },
            Err(RVersionError::InvalidVersion { version, details }) => {
                &&& valid_utf8(output@)
                &&& version@ == reported_version(decode_utf8(output@))
                &&& parsed_semver(version@) == Err::<(u64, u64, u64), Seq<char>>(details@)
            },
            Err(RVersionError::InvalidUtf8 { details }) => {
                &&& !valid_utf8(output@)
                &&& details@ == utf8_failure(output@)
            },
            Err(RVersionError::Command { .. }) => false,
        },
{
    let output = match text::decode(output) {
        Ok(output) => text::trim(output.as_str()),
        Err(details) => {
            return Err(RVersionError::InvalidUtf8 { details });
        },
    };
    let mut version = output.clone();
    if text::starts_with(output.as_str(), "Rscript (R) version ") {
        proof {
            reveal_strlit("Rscript (R) version ");
        }
        let rest = text::skip_chars(output.as_str(), 20);
        match find_first_word(rest.as_str()) {
            Some(word) => {
                version = word;
            },
            None => {},
        }
    }
    match RVersion::parse(version.as_str()) {
        Ok(version) => Ok(version),
        Err(details) => Err(RVersionError::InvalidVersion { version, details }),
    }
}

/// Why the packages of R itself cannot be told.
#[derive(Debug)]
pub enum BasePackagesError {
    Command { source: RSubprocessError },
    InvalidUtf8 { details: String },
}

/// The packages of R itself, one to a line.
pub fn base_packages_from_output(output: Vec<u8>) -> (r: Result<
    SortedSet<String>,
    BasePackagesError,
>)
    ensures
        match r {
            Ok(packages) => {
                &&& valid_utf8(output@)
                &&& packages.wf()
                &&& packages@ == collected(tidy_lines(lines_of(decode_utf8(output@))))
            },
            Err(BasePackagesError::InvalidUtf8 { details }) => {
                &&& !valid_utf8(output@)
                &&& details@ == utf8_failure(output@)
            },
            Err(BasePackagesError::Command { .. }) => false,
        },
{
    let output = match text::decode(output) {
        Ok(output) => output,
        Err(details) => {
            return Err(BasePackagesError::InvalidUtf8 { details });
        },
    };
    let lines = read_tidy_lines(output.as_str());
    let ghost all = texts(lines@);
    let mut set: SortedSet<String> = SortedSet::new();
    let mut i: usize = 0;
    assert(all.take(0) =~= Seq::<Seq<char>>::empty());
    while i < lines.len()
        invariant
            i <= lines@.len(),
            all == texts(lines@),
            set.wf(),
            set@ == collected(all.take(i as int)),
        decreases lines@.len() - i,
    {
        assert(all.take(i + 1).drop_last() =~= all.take(i as int));
        assert(all[i as int] == lines@[i as int]@);
        set.replace(lines[i].clone());
        i = i + 1;
    }
    assert(all.take(i as int) =~= all);
    Ok(set)
}

/// An entry of a library.
#[derive(Debug)]
pub enum LibraryEntry {
    Installed { name: String, version: String },
    Locked { path: String },
    Recoverable { path: String },
    Incomplete { path: String, reason: String },
    Foreign { path: String },
}

/// An entry of a library.
pub enum LibraryEntryV {
    Installed(Seq<char>, Seq<char>),
    Locked(Seq<char>),
    Other,
}

impl LibraryEntry {
    /// The entry, as characters; what is passed over has none.
    pub open spec fn view(&self) -> LibraryEntryV {
        match self {
            LibraryEntry::Installed { name, version } => LibraryEntryV::Installed(name@, version@),
            LibraryEntry::Locked { path } => LibraryEntryV::Locked(path@),
            LibraryEntry::Recoverable { path } => LibraryEntryV::Locked(path@),
            LibraryEntry::Incomplete { .. } => LibraryEntryV::Other,
            LibraryEntry::Foreign { .. } => LibraryEntryV::Other,
        }
    }
}

/// Why the packages of a library cannot be told.
#[derive(Debug)]
pub enum InstalledPackagesError {
    Scan { details: String },
    Join { details: String },
    InvalidVersion { package: String, version: String, details: String },
    Locked { path: String },
}

/// Why the packages of a library cannot be told.
pub enum InstalledFaultV {
    Scan(Seq<char>),
    Join(Seq<char>),
    InvalidVersion(Seq<char>, Seq<char>, Seq<char>),
    Locked(Seq<char>),
}

impl InstalledPackagesError {
    /// The error, as characters.
    pub open spec fn view(&self) -> InstalledFaultV {
        match self {
            InstalledPackagesError::Scan { details } => InstalledFaultV::Scan(details@),
            InstalledPackagesError::Join { details } => InstalledFaultV::Join(details@),
            InstalledPackagesError::InvalidVersion { package, version, details } => {
                InstalledFaultV::InvalidVersion(package@, version@, details@)
            },
            InstalledPackagesError::Locked { path } => InstalledFaultV::Locked(path@),
        }
    }
}

/// The entries of a library.
pub open spec fn library_views(v: Seq<LibraryEntry>) -> Seq<LibraryEntryV> {
    v.map_values(|x: LibraryEntry| x@)
}

/// The versions of the packages of a library by name, or the first fault: a version that is
/// none, or a sign of another operation.
pub open spec fn library_versions(entries: Seq<LibraryEntryV>) -> Result<
    Map<Seq<char>, VersionV>,
    InstalledFaultV,
>
    decreases entries.len(),
{
    if entries.len() == 0 {
        Ok(Map::empty())
    } else {
        match library_versions(entries.drop_last()) {
            Err(fault) => Err(fault),
            Ok(rest) => match entries.last() {
                LibraryEntryV::Other => Ok(rest),
                LibraryEntryV::Locked(path) => Err(InstalledFaultV::Locked(path)),
                LibraryEntryV::Installed(name, text) => match version_components(text) {
                    None => Err(
                        InstalledFaultV::InvalidVersion(name, text, version_failure(text).0),
                    ),
                    Some(components) => Ok(rest.insert(name, VersionV { text, components })),
                },
            },
        }
    }
}

proof fn lemma_library_fault_stays(entries: Seq<LibraryEntryV>, k: int)
    requires
        0 <= k <= entries.len(),
    ensures
        library_versions(entries.take(k)) is Err ==> library_versions(entries)
            == library_versions(entries.take(k)),
    decreases entries.len() - k,
{
    if k == entries.len() {
        assert(entries.take(k) =~= entries);
    } else {
        lemma_library_fault_stays(entries, k + 1);
        assert(entries.take(k + 1).drop_last() =~= entries.take(k));
    }
}

/// The packages of a library; they count as packages of the built-in repository.
pub fn installed_packages(entries: &Vec<LibraryEntry>) -> (r: Result<
    TextMap<PackageVersion>,
    InstalledPackagesError,
>)
    ensures
        match r {
            Ok(packages) => {
                &&& offers_wf(&packages)
                &&& library_versions(library_views(entries@)) is Ok
                &&& offered(
                    packages@,
                    library_versions(library_views(entries@))->Ok_0,
                    RepositoryV::Rrepo(built_in_url()),
                )
            },
            Err(error) => library_versions(library_views(entries@)) == Err::<
                Map<Seq<char>, VersionV>,
                InstalledFaultV,
            >(error@),
        },
{
    let ghost all = library_views(entries@);
    let mut packages: TextMap<PackageVersion> = TextMap::new();
    let mut i: usize = 0;
    assert(all.take(0) =~= Seq::<LibraryEntryV>::empty());
    assert(packages@.dom() =~= Map::<Seq<char>, VersionV>::empty().dom());
    while i < entries.len()
        invariant
            i <= entries@.len(),
            all == library_views(entries@),
            offers_wf(&packages),
            library_versions(all.take(i as int)) is Ok,
            offered(packages@, library_versions(all.take(i as int))->Ok_0, RepositoryV::Rrepo(built_in_url())),
        decreases entries@.len() - i,
    {
        proof {
            assert(all.take(i + 1).drop_last() =~= all.take(i as int));
            assert(all[i as int] == entries@[i as int]@);
            lemma_library_fault_stays(all, i + 1);
        }
        match &entries[i] {
            LibraryEntry::Installed { name, version } => match Version::parse(version.as_str()) {
                Ok(parsed) => {
                    let offer = PackageVersion::new(parsed, built_in_repository());
                    packages.insert(name.clone(), offer);
                    assert(packages@.dom() =~= library_versions(all.take(i + 1))->Ok_0.dom());
                },
                Err(error) => {
                    return Err(
                        InstalledPackagesError::InvalidVersion {
                            package: name.clone(),
                            version: version.clone(),
                            details: error.message,
                        },
                    );
                },
            },
            LibraryEntry::Locked { path } => {
                return Err(InstalledPackagesError::Locked { path: path.clone() });
            },
            LibraryEntry::Recoverable { path } => {
                return Err(InstalledPackagesError::Locked { path: path.clone() });
            },
            LibraryEntry::Incomplete { .. } => {},
            LibraryEntry::Foreign { .. } => {},
        }
        i = i + 1;
    }
    assert(all.take(i as int) =~= all);
    Ok(packages)
}

/// Why the sources of a package could not be packed.
#[derive(Debug)]
pub enum PackageBuildError {
    ArtifactDirectory { path: String, details: String },
    TemporaryDirectory { path: String, details: String },
    Command { path: String, source: RSubprocessError },
    ArchiveMissing { path: String },
    InspectArchive { path: String, details: String },
    PublishArchive { path: String, details: String },
    Cleanup { path: String, details: String },
}

/// The places of a build: the sources, the directory of the archive, the workspace, the
/// archive in the workspace and the archive itself.
#[derive(Debug)]
pub struct BuildPaths {
    pub package_root: String,
    pub directory: String,
    pub workspace: String,
    pub staged: String,
    pub archive: String,
}

/// What is done next to pack the sources of a package.
#[derive(Clone, Copy, PartialEq, Eq, Structural, Debug)]
pub enum BuildStage {
    PrepareDirectory,
    CreateWorkspace,
    RunCommand,
    Inspect,
    Publish,
}

/// What has come of it.
#[derive(Debug)]
pub enum BuildEvent {
    Done,
    Failed { details: String },
    CommandFailed { source: RSubprocessError },
    NotAFile,
    NotFound,
}

/// What follows: a next step, the removal of the workspace, or the end without one.
#[derive(Debug)]
pub enum BuildStep {
    Do(BuildStage),
    CleanUp(Result<(), PackageBuildError>),
    End(PackageBuildError),
}

/// The name of the archive of a version of a package.
pub fn archive_name(package: &str, version: &str) -> (r: String)
    ensures
        r@ == package@ + "_"@ + version@ + ".tar.gz"@,
{
    text::cat4(package, "_", version, ".tar.gz")
}

/// The arguments with which R packs sources.
pub fn build_arguments(package_root: &str) -> (r: Vec<String>)
    ensures
        texts(r@) == seq![
            "CMD"@,
            "build"@,
            "--no-build-vignettes"@,
            "--no-manual"@,
            "--no-resave-data"@,
            package_root@,
        ],
{
    let mut v: Vec<String> = Vec::new();
    v.push("CMD".to_owned());
    v.push("build".to_owned());
    v.push("--no-build-vignettes".to_owned());
    v.push("--no-manual".to_owned());
    v.push("--no-resave-data".to_owned());
    v.push(package_root.to_owned());
    assert(texts(v@) =~= seq![
        "CMD"@,
        "build"@,
        "--no-build-vignettes"@,
        "--no-manual"@,
        "--no-resave-data"@,
        package_root@,
    ]);
    v
}

/// What follows a step of a build: the next step if it was done, else its error; the
/// workspace is removed whatever has come of the steps in it.
pub fn next_build_step(stage: BuildStage, event: BuildEvent, paths: &BuildPaths) -> (r: BuildStep)
    ensures
        match (stage, event) {
            (BuildStage::PrepareDirectory, BuildEvent::Done) => r == BuildStep::Do(
                BuildStage::CreateWorkspace,
            ),
            (BuildStage::PrepareDirectory, _) => r matches BuildStep::End(
                PackageBuildError::ArtifactDirectory { path, .. },
            ) && path@ == paths.directory@,
            (BuildStage::CreateWorkspace, BuildEvent::Done) => r == BuildStep::Do(
                BuildStage::RunCommand,
            ),
            (BuildStage::CreateWorkspace, _) => r matches BuildStep::End(
                PackageBuildError::TemporaryDirectory { path, .. },
            ) && path@ == paths.directory@,
            (BuildStage::RunCommand, BuildEvent::Done) => r == BuildStep::Do(BuildStage::Inspect),
            (BuildStage::RunCommand, BuildEvent::CommandFailed { source }) => r
                matches BuildStep::CleanUp(Err(PackageBuildError::Command { path, source: cause }))
                && path@ == paths.package_root@ && cause == source,
            (BuildStage::RunCommand, _) => r matches BuildStep::CleanUp(
                Err(PackageBuildError::Command { path, .. }),
            ) && path@ == paths.package_root@,
            (BuildStage::Inspect, BuildEvent::Done) => r == BuildStep::Do(BuildStage::Publish),
            (BuildStage::Inspect, BuildEvent::NotAFile) => r matches BuildStep::CleanUp(
                Err(PackageBuildError::ArchiveMissing { path }),
            ) && path@ == paths.staged@,
            (BuildStage::Inspect, BuildEvent::NotFound) => r matches BuildStep::CleanUp(
                Err(PackageBuildError::ArchiveMissing { path }),
            ) && path@ == paths.staged@,
            (BuildStage::Inspect, _) => r matches BuildStep::CleanUp(
                Err(PackageBuildError::InspectArchive { path, .. }),
            ) && path@ == paths.staged@,
            (BuildStage::Publish, BuildEvent::Done) => r == BuildStep::CleanUp(Ok(())),
            (BuildStage::Publish, _) => r matches BuildStep::CleanUp(
                Err(PackageBuildError::PublishArchive { path, .. }),
            ) && path@ == paths.archive@,
        },
        event matches BuildEvent::Failed { details } ==> failure_details(r) == Some(details@),
{
    match (stage, event) {
        (BuildStage::PrepareDirectory, BuildEvent::Done) => BuildStep::Do(
            BuildStage::CreateWorkspace,
        ),
        (BuildStage::CreateWorkspace, BuildEvent::Done) => BuildStep::Do(BuildStage::RunCommand),
        (BuildStage::RunCommand, BuildEvent::Done) => BuildStep::Do(BuildStage::Inspect),
        (BuildStage::Inspect, BuildEvent::Done) => BuildStep::Do(BuildStage::Publish),
        (BuildStage::Publish, BuildEvent::Done) => BuildStep::CleanUp(Ok(())),
        (BuildStage::Inspect, BuildEvent::NotAFile) => BuildStep::CleanUp(
            Err(PackageBuildError::ArchiveMissing { path: paths.staged.clone() }),
        ),
        (BuildStage::Inspect, BuildEvent::NotFound) => BuildStep::CleanUp(
            Err(PackageBuildError::ArchiveMissing { path: paths.staged.clone() }),
        ),
        (BuildStage::RunCommand, BuildEvent::CommandFailed { source }) => BuildStep::CleanUp(
            Err(PackageBuildError::Command { path: paths.package_root.clone(), source }),
        ),
        (stage, event) => {
            let details = match event {
                BuildEvent::Failed { details } => details,
                _ => String::new(),
            };
            match stage {
                BuildStage::PrepareDirectory => BuildStep::End(
                    PackageBuildError::ArtifactDirectory {
                        path: paths.directory.clone(),
                        details,
                    },
                ),
                BuildStage::CreateWorkspace => BuildStep::End(
                    PackageBuildError::TemporaryDirectory {
                        path: paths.directory.clone(),
                        details,
                    },
                ),
                BuildStage::RunCommand => BuildStep::CleanUp(
                    Err(
                        PackageBuildError::Command {
                            path: paths.package_root.clone(),
                            source: RSubprocessError::Start { program: "R".to_owned(), details },
                        },
                    ),
                ),
                BuildStage::Inspect => BuildStep::CleanUp(
                    Err(
                        PackageBuildError::InspectArchive { path: paths.staged.clone(), details },
                    ),
                ),
                BuildStage::Publish => BuildStep::CleanUp(
                    Err(
                        PackageBuildError::PublishArchive { path: paths.archive.clone(), details },
                    ),
                ),
            }
        },
    }
}

/// The details of the error that a step ends with.
pub open spec fn failure_details(step: BuildStep) -> Option<Seq<char>> {
    match step {
        BuildStep::Do(_) => None,
        BuildStep::End(PackageBuildError::ArtifactDirectory { details, .. }) => Some(details@),
        BuildStep::End(PackageBuildError::TemporaryDirectory { details, .. }) => Some(details@),
        BuildStep::CleanUp(
            Err(
                PackageBuildError::Command {
                    source: RSubprocessError::Start { details, .. },
                    ..
                },
            ),
        ) => Some(details@),
        BuildStep::CleanUp(Err(PackageBuildError::InspectArchive { details, .. })) => Some(
            details@,
        ),
        BuildStep::CleanUp(Err(PackageBuildError::PublishArchive { details, .. })) => Some(
            details@,
        ),
        _ => None,
    }
}

/// The outcome of a build once its workspace is removed: the error of the build counts
/// before that of the removal.
pub fn finish_build(
    result: Result<(), PackageBuildError>,
    cleanup: Result<(), String>,
    workspace: &str,
) -> (r: Result<(), PackageBuildError>)
    ensures
        match (result, cleanup) {
            (Err(error), _) => r == Err::<(), PackageBuildError>(error),
            (Ok(_), Err(message)) => r matches Err(
                PackageBuildError::Cleanup { path, details },
            ) && path@ == workspace@ && details == message,
            (Ok(_), Ok(_)) => r is Ok,
        },
{
    match result {
        Err(error) => Err(error),
        Ok(_) => match cleanup {
            Ok(_) => Ok(()),
            Err(details) => Err(
                PackageBuildError::Cleanup { path: workspace.to_owned(), details },
            ),
        },
    }
}

proof fn lemma_word(word: Seq<char>, rest: Seq<char>)
    requires
        forall|i: int| 0 <= i < word.len() ==> !is_white_space(#[trigger] word[i]),
        rest.len() > 0 ==> is_white_space(rest[0]),
    ensures
        up_to_white_space(word + rest) == word,
    decreases word.len(),
{
    let s = word + rest;
    if word.len() > 0 {
        let tail = word.skip(1);
        assert forall|i: int| 0 <= i < tail.len() implies !is_white_space(#[trigger] tail[i]) by {
            assert(tail[i] == word[i + 1]);
        }
        lemma_word(tail, rest);
        assert(s.skip(1) =~= tail + rest);
        assert(s[0] == word[0]);
        assert(seq![s[0]] + tail =~= word);
    } else {
        assert(s =~= rest);
        assert(up_to_white_space(s) =~= word);
    }
}

/// Of an output that tells the version of `Rscript` the version is the word that follows;
/// whatever stands behind it does not matter. Any other output is the version itself, without
/// the white space around it.
pub proof fn versions_are_told_by_the_output(output: Seq<char>, version: Seq<char>, rest: Seq<char>)
    requires
        version.len() > 0,
        forall|i: int| 0 <= i < version.len() ==> !is_white_space(#[trigger] version[i]),
        rest.len() > 0 ==> is_white_space(rest[0]),
    ensures
        trimmed(output) == "Rscript (R) version "@ + version + rest ==> reported_version(output)
            == version,
        (forall|tail: Seq<char>| trimmed(output) != #[trigger] ("Rscript (R) version "@ + tail))
            ==> reported_version(output) == trimmed(output),
{
    let start = "Rscript (R) version "@;
    let text = trimmed(output);
    if text == start + version + rest {
        assert(text.take(start.len() as int) =~= start);
        let tail = text.skip(start.len() as int);
        assert(tail =~= version + rest);
        assert(tail[0] == version[0]);
        assert(trim_start(tail) == tail);
        lemma_word(version, rest);
    }
    if has_prefix(text, start) {
        assert(text =~= start + text.skip(start.len() as int));
    }
}

/// The line names a failure.
pub open spec fn names_failure(line: Seq<char>) -> bool {
    exists|word: Seq<char>|
        (word == "ERROR"@ || word == "error:"@ || word == "installation of package"@ || word
            == "failed"@) && #[trigger] occurs(line, word)
}

/// The output of a failed process is summarized by the last line that names a failure, if
/// there is one, and else by its last line.
pub proof fn failures_are_summarized(lines: Seq<Seq<char>>, i: int)
    requires
        0 <= i < lines.len(),
    ensures
        names_failure(lines[i]) && (forall|j: int|
            i < j < lines.len() ==> !names_failure(#[trigger] lines[j])) ==> summary_of(lines)
            == lines[i],
        (forall|j: int| 0 <= j < lines.len() ==> !names_failure(#[trigger] lines[j]))
            ==> summary_of(lines) == lines[lines.len() - 1],
        lines.contains(summary_of(lines)),
{
    lemma_last_failure(lines);
    assert(lines[lines.len() - 1] == lines.last());
    if names_failure(lines[i]) && forall|j: int|
        i < j < lines.len() ==> !names_failure(#[trigger] lines[j]) {
        assert(last_failure(lines) is Some);
        let k = choose|k: int|
            0 <= k < lines.len() && #[trigger] lines[k] == last_failure(lines)->0 && names_failure(
                lines[k],
            ) && forall|j: int| k < j < lines.len() ==> !names_failure(#[trigger] lines[j]);
        assert(k == i);
    }
}

proof fn lemma_names_failure(line: Seq<char>)
    ensures
        names_failure(line) <==> tells_of_failure(line),
{
    if occurs(line, "ERROR"@) {
    } else if occurs(line, "error:"@) {
    } else if occurs(line, "installation of package"@) {
    } else if occurs(line, "failed"@) {
    }
}

proof fn lemma_last_failure(lines: Seq<Seq<char>>)
    ensures
        match last_failure(lines) {
            None => forall|j: int| 0 <= j < lines.len() ==> !names_failure(#[trigger] lines[j]),
            Some(line) => exists|k: int|
                0 <= k < lines.len() && #[trigger] lines[k] == line && names_failure(lines[k])
                    && forall|j: int|
                    k < j < lines.len() ==> !names_failure(#[trigger] lines[j]),
        },
    decreases lines.len(),
{
    if lines.len() > 0 {
        let n = lines.len() - 1;
        lemma_names_failure(lines.last());
        assert(lines[n] == lines.last());
        if !tells_of_failure(lines.last()) {
            let t = lines.drop_last();
            lemma_last_failure(t);
            match last_failure(t) {
                None => {
                    assert forall|j: int| 0 <= j < lines.len() implies !names_failure(
                        #[trigger] lines[j],
                    ) by {
                        if j < n {
                            assert(t[j] == lines[j]);
                        }
                    }
                },
                Some(line) => {
                    let k = choose|k: int|
                        0 <= k < t.len() && #[trigger] t[k] == line && names_failure(t[k])
                            && forall|j: int|
                            k < j < t.len() ==> !names_failure(#[trigger] t[j]);
                    assert(lines[k] == line);
                    assert forall|j: int| k < j < lines.len() implies !names_failure(
                        #[trigger] lines[j],
                    ) by {
                        if j < n {
                            assert(t[j] == lines[j]);
                        }
                    }
                },
            }
        }
    }
}

/// Lines are read without the white space around them; those that hold nothing else are left
/// out, and every other line stays.
pub proof fn lines_are_tidied(lines: Seq<Seq<char>>)
    ensures
        tidy_lines(lines).len() <= lines.len(),
        forall|i: int|
            0 <= i < lines.len() && trimmed(#[trigger] lines[i]).len() > 0 ==> tidy_lines(
                lines,
            ).contains(trimmed(lines[i])),
        forall|line: Seq<char>| #[trigger]
            tidy_lines(lines).contains(line) ==> line.len() > 0 && exists|i: int|
                0 <= i < lines.len() && line == trimmed(#[trigger] lines[i]),
    decreases lines.len(),
{
    let all = tidy_lines(lines);
    if lines.len() > 0 {
        let t = lines.drop_last();
        let rest = tidy_lines(t);
        let last = trimmed(lines.last());
        let n = lines.len() - 1;
        lines_are_tidied(t);
        assert(lines[n] == lines.last());
        if last.len() > 0 {
            assert(all[rest.len() as int] == last);
            assert forall|line: Seq<char>| rest.contains(line) implies #[trigger] all.contains(
                line,
            ) by {
                let k = choose|k: int| 0 <= k < rest.len() && rest[k] == line;
                assert(all[k] == line);
            }
        }
        assert forall|i: int|
            0 <= i < lines.len() && trimmed(#[trigger] lines[i]).len() > 0 implies all.contains(
            trimmed(lines[i]),
        ) by {
            if i < n {
                assert(t[i] == lines[i]);
            }
        }
        assert forall|line: Seq<char>| #[trigger] all.contains(line) implies line.len() > 0
            && exists|i: int| 0 <= i < lines.len() && line == trimmed(#[trigger] lines[i]) by {
            let k = choose|k: int| 0 <= k < all.len() && all[k] == line;
            if k < rest.len() {
                assert(rest[k] == line);
                assert(rest.contains(line));
                let i = choose|i: int| 0 <= i < t.len() && line == trimmed(#[trigger] t[i]);
                assert(lines[i] == t[i]);
            }
        }
    }
}

/// Each package of a library is installed in the version that its last entry tells, and no
/// package is installed that no entry tells of.
pub proof fn installed_versions_are_told(entries: Seq<LibraryEntryV>, name: Seq<char>, i: int)
    requires
        library_versions(entries) is Ok,
    ensures
        library_versions(entries)->Ok_0.contains_key(name) <==> exists|k: int|
            0 <= k < entries.len() && #[trigger] entries[k] is Installed && entries[k]->Installed_0
                == name,
        0 <= i < entries.len() && entries[i] is Installed && entries[i]->Installed_0 == name && (
        forall|k: int|
            i < k < entries.len() ==> !(#[trigger] entries[k] is Installed
                && entries[k]->Installed_0 == name)) ==> {
            let version = library_versions(entries)->Ok_0[name];
            version.text == entries[i]->Installed_1 && Some(version.components)
                == version_components(entries[i]->Installed_1)
        },
    decreases entries.len(),
{
    if entries.len() > 0 {
        let n = entries.len() - 1;
        let t = entries.drop_last();
        assert(entries[n] == entries.last());
        assert(library_versions(t) is Ok);
        installed_versions_are_told(t, name, i);
        if exists|k: int|
            0 <= k < t.len() && #[trigger] t[k] is Installed && t[k]->Installed_0 == name {
            let k = choose|k: int|
                0 <= k < t.len() && #[trigger] t[k] is Installed && t[k]->Installed_0 == name;
            assert(entries[k] == t[k]);
        }
        if exists|k: int|
            0 <= k < entries.len() && #[trigger] entries[k] is Installed && entries[k]->Installed_0
                == name {
            let k = choose|k: int|
                0 <= k < entries.len() && #[trigger] entries[k] is Installed
                    && entries[k]->Installed_0 == name;
            if k < n {
                assert(t[k] == entries[k]);
            }
        }
        if 0 <= i < n && entries[i] is Installed && entries[i]->Installed_0 == name && (
        forall|k: int|
            i < k < entries.len() ==> !(#[trigger] entries[k] is Installed
                && entries[k]->Installed_0 == name)) {
            assert(t[i] == entries[i]);
            assert forall|k: int| i < k < t.len() implies !(#[trigger] t[k] is Installed
                && t[k]->Installed_0 == name) by {
                assert(t[k] == entries[k]);
            }
        }
    }
}

/// A library can be read exactly if no entry is locked and every version can be read; the
/// first entry that stands in the way is told.
pub proof fn libraries_are_read_up_to_a_fault(entries: Seq<LibraryEntryV>, i: int)
    requires
        0 <= i < entries.len(),
        forall|k: int|
            0 <= k < i ==> !(#[trigger] entries[k] is Locked) && (entries[k] is Installed
                ==> version_components(entries[k]->Installed_1) is Some),
    ensures
        entries[i] matches LibraryEntryV::Locked(path) ==> library_versions(entries) == Err::<
            Map<Seq<char>, VersionV>,
            InstalledFaultV,
        >(InstalledFaultV::Locked(path)),
        entries[i] matches LibraryEntryV::Installed(name, version) ==> (version_components(
            version,
        ) is None ==> (library_versions(entries) matches Err(
            InstalledFaultV::InvalidVersion(p, v, _),
        ) && p == name && v == version)),
        i == entries.len() - 1 && !(entries[i] is Locked) && (entries[i] is Installed
            ==> version_components(entries[i]->Installed_1) is Some) ==> library_versions(
            entries,
        ) is Ok,
    decreases entries.len(),
{
    let t = entries.drop_last();
    let n = entries.len() - 1;
    assert(entries[n] == entries.last());
    if i < n {
        assert(t[i] == entries[i]);
        assert forall|k: int| 0 <= k < i implies !(#[trigger] t[k] is Locked) && (
        t[k] is Installed ==> version_components(t[k]->Installed_1) is Some) by {
            assert(t[k] == entries[k]);
        }
        libraries_are_read_up_to_a_fault(t, i);
    } else if t.len() > 0 {
        assert forall|k: int| 0 <= k < i - 1 implies !(#[trigger] t[k] is Locked) && (
        t[k] is Installed ==> version_components(t[k]->Installed_1) is Some) by {
            assert(t[k] == entries[k]);
        }
        assert(t[i - 1] == entries[i - 1]);
        libraries_are_read_up_to_a_fault(t, i - 1);
    }
}

/// The series of a version of R is its first two numbers, and a release its three, each
/// divided by points.
pub proof fn series_are_the_first_numbers(major: nat, minor: nat, patch: nat)
    ensures
        match text::cut_at(series_text(major, minor), '.') {
            Some((a, b)) => text::is_number(a) && text::number_value(a) == major && text::is_number(
                b,
            ) && text::number_value(b) == minor,
            None => false,
        },
        match text::cut_at(release_text(major, minor, patch), '.') {
            Some((a, rest)) => text::number_value(a) == major && match text::cut_at(rest, '.') {
                Some((b, c)) => text::number_value(b) == minor && text::is_number(c)
                    && text::number_value(c) == patch,
                None => false,
            },
            None => false,
        },
        has_prefix(release_text(major, minor, patch), series_text(major, minor) + "."@),
{
    reveal_strlit(".");
    text::numbers_are_read_back(major, Seq::empty(), 'x');
    text::numbers_are_read_back(minor, Seq::empty(), 'x');
    text::numbers_are_read_back(patch, Seq::empty(), 'x');
    let a = decimal_text(major);
    let b = decimal_text(minor);
    let c = decimal_text(patch);
    assert(!a.contains('.')) by {
        if a.contains('.') {
            let i = choose|i: int| 0 <= i < a.len() && a[i] == '.';
            assert(text::is_digit(a[i]));
        }
    }
    assert(!b.contains('.')) by {
        if b.contains('.') {
            let i = choose|i: int| 0 <= i < b.len() && b[i] == '.';
            assert(text::is_digit(b[i]));
        }
    }
    text::texts_are_cut_at_the_first_occurrence(a, '.', b);
    let rest = b + seq!['.'] + c;
    text::texts_are_cut_at_the_first_occurrence(a, '.', rest);
    text::texts_are_cut_at_the_first_occurrence(b, '.', c);
    assert(series_text(major, minor) =~= a + seq!['.'] + b);
    assert(release_text(major, minor, patch) =~= a + seq!['.'] + rest);
    text::texts_begin_and_end(series_text(major, minor) + "."@, c);
    assert(release_text(major, minor, patch) =~= series_text(major, minor) + "."@ + c);
}

/// A process that succeeded has no error; one that did not is told with its name and all that
/// it wrote.
pub proof fn failed_processes_are_told(
    program: &str,
    success: bool,
    exit_code: Option<i32>,
    stdout: &Vec<u8>,
    stderr: &Vec<u8>,
    r: Result<(), RSubprocessError>,
)
    requires
        call_ensures(subprocess_outcome, (program, success, exit_code, stdout, stderr), r),
    ensures
        r is Ok <==> success,
        !success ==> (r matches Err(
            RSubprocessError::Failed { program: name, exit_code: code, stdout: out, stderr: err, .. },
        ) && name@ == program@ && code == exit_code && out@ == written_text(stdout@) && err@
            == written_text(stderr@)),
{
}

/// The first fault of a build is the one that is told; a build is done only if its workspace
/// was removed too.
pub proof fn builds_are_done_when_cleaned_up(
    result: Result<(), PackageBuildError>,
    cleanup: Result<(), String>,
    workspace: &str,
    r: Result<(), PackageBuildError>,
)
    requires
        call_ensures(finish_build, (result, cleanup, workspace), r),
    ensures
        r is Ok <==> result is Ok && cleanup is Ok,
        result matches Err(error) ==> r == Err::<(), PackageBuildError>(error),
        result is Ok && cleanup is Err ==> r is Err && r->Err_0 is Cleanup,
{
}

/// A build goes through its stages in order as long as each is done; a stage that is not done
/// ends it, and from the making of the workspace on that is removed first.
pub proof fn builds_go_through_their_stages(
    stage: BuildStage,
    event: BuildEvent,
    paths: &BuildPaths,
    r: BuildStep,
)
    requires
        call_ensures(next_build_step, (stage, event, paths), r),
    ensures
        event is Done && stage == BuildStage::PrepareDirectory ==> r == BuildStep::Do(
            BuildStage::CreateWorkspace,
        ),
        event is Done && stage == BuildStage::CreateWorkspace ==> r == BuildStep::Do(
            BuildStage::RunCommand,
        ),
        event is Done && stage == BuildStage::RunCommand ==> r == BuildStep::Do(
            BuildStage::Inspect,
        ),
        event is Done && stage == BuildStage::Inspect ==> r == BuildStep::Do(BuildStage::Publish),
        event is Done && stage == BuildStage::Publish ==> r == BuildStep::CleanUp(Ok(())),
        !(event is Done) ==> !(r is Do) && r != BuildStep::CleanUp(Ok(())),
        !(event is Done) && (stage == BuildStage::RunCommand || stage == BuildStage::Inspect
            || stage == BuildStage::Publish) ==> r is CleanUp,
{
}

} // verus!
