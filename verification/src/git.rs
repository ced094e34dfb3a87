//! Git object names, remote URLs, references and the plan of a checkout.
use crate::digest::{sha256, sha256_of};
use crate::location::{Location, LocationV};
use crate::project::cache_dir_path;
use crate::remote::{HostedGitRemote, Remote, RemoteSource, RemoteSourceV, RemoteV};
use crate::text;
use crate::text::{
    cut_at, first_at, has_blank, has_prefix, hex_text, is_hex, lines_of, lowered, occurs, opt_text, split_on,
    texts, trimmed, without_suffixes, written_text,
};
use crate::uri::{
    can_take_user, canonical_parts, changeable, extend_segments, extended_url, is_changeable,
    parse_url, plain_form, plain_url, takes_user, url_parts, url_text, UrlPartsV,
};
use vstd::prelude::*;
use vstd::utf8::encode_utf8;

verus! {

/// The name of a Git object: forty hexadecimal digits in lower case.
#[derive(Debug)]
pub struct GitOid {
    pub digits: String,
}

/// The text is no object name.
#[derive(Debug)]
pub struct GitOidParseError;

/// Forty hexadecimal digits of either case.
pub open spec fn is_oid(s: Seq<char>) -> bool {
    s.len() == 40 && is_hex(s)
}

/// Up to forty hexadecimal digits of either case.
pub open spec fn is_short_oid(s: Seq<char>) -> bool {
    0 < s.len() <= 40 && is_hex(s)
}

/// A short object name with the zeros that it stands for.
pub open spec fn full_oid(s: Seq<char>) -> Seq<char> {
    lowered(s) + Seq::new((40 - s.len()) as nat, |i: int| '0')
}

impl GitOid {
    /// The digits.
    pub open spec fn view(&self) -> Seq<char> {
        self.digits@
    }

    /// Forty digits, none of them in upper case.
    pub open spec fn wf(&self) -> bool {
        is_oid(self@) && lowered(self@) == self@
    }

    /// Reads an object name; it is kept in lower case.
    pub fn parse(value: &str) -> (r: Result<GitOid, GitOidParseError>)
        ensures
            match r {
                Ok(oid) => is_oid(value@) && oid@ == lowered(value@) && oid.wf(),
                Err(_) => !is_oid(value@),
            },
    {
        let v = text::chars_of(value);
        if v.len() != 40 || !text::all_hex(&v) {
            return Err(GitOidParseError);
        }
        let low = text::lower_chars(value);
        let digits = text::string_of(&low, 0, low.len());
        proof {
            assert(digits@ =~= lowered(value@));
            lemma_lowered_oid(value@);
        }
        Ok(GitOid { digits })
    }

    /// Reads an object name that may be short: digits that are missing are zeros.
    pub fn read(value: &str) -> (r: Result<GitOid, GitOidParseError>)
        ensures
            match r {
                Ok(oid) => is_short_oid(value@) && oid@ == full_oid(value@) && oid.wf(),
                Err(_) => !is_short_oid(value@),
            },
    {
        let v = text::chars_of(value);
        if v.len() == 0 || v.len() > 40 || !text::all_hex(&v) {
            return Err(GitOidParseError);
        }
        let mut low = text::lower_chars(value);
        while low.len() < 40
            invariant
                v@ == value@,
                is_short_oid(value@),
                value@.len() <= low@.len() <= 40,
                low@ == lowered(value@) + Seq::new((low@.len() - value@.len()) as nat, |i: int| '0'),
            decreases 40 - low@.len(),
        {
            let ghost before = low@;
            low.push('0');
            assert(low@ =~= lowered(value@) + Seq::new(
                (low@.len() - value@.len()) as nat,
                |i: int| '0',
            ));
        }
        let digits = text::string_of(&low, 0, low.len());
        proof {
            let full = full_oid(value@);
            assert(digits@ =~= full);
            assert forall|i: int| 0 <= i < full.len() implies text::is_hex_digit(#[trigger] full[i])
                && text::lower(full[i]) == full[i] by {
                if i < value@.len() {
                    assert(text::is_hex_digit(value@[i]));
                    assert(full[i] == text::lower(value@[i]));
                } else {
                    assert(full[i] == '0');
                }
            }
            assert(lowered(full) =~= full);
        }
        Ok(GitOid { digits })
    }

    /// The digits, as text.
    pub fn to_text(&self) -> (r: String)
        ensures
            r@ == self@,
    {
        self.digits.clone()
    }

    /// A copy.
    pub fn copy(&self) -> (r: GitOid)
        ensures
            r == *self,
    {
        GitOid { digits: self.digits.clone() }
    }

    /// Whether two names are the same.
    pub fn same(&self, other: &GitOid) -> (r: bool)
        ensures
            r == (self@ == other@),
    {
        text::same(self.digits.as_str(), other.digits.as_str())
    }
}

proof fn lemma_lowered_oid(s: Seq<char>)
    requires
        is_oid(s),
    ensures
        is_oid(lowered(s)),
        lowered(lowered(s)) == lowered(s),
{
    let l = lowered(s);
    assert forall|i: int| 0 <= i < l.len() implies text::is_hex_digit(#[trigger] l[i])
        && text::lower(l[i]) == l[i] by {
        assert(text::is_hex_digit(s[i]));
    }
    assert(lowered(l) =~= l);
}

/// An object name that differs from another in case alone is the same name.
pub proof fn oid_ignores_case(a: Seq<char>, b: Seq<char>)
    requires
        is_oid(a),
        lowered(a) == lowered(b),
    ensures
        is_oid(b),
        lowered(lowered(b)) == lowered(a),
{
    assert(lowered(a).len() == a.len());
    assert(lowered(b).len() == b.len());
    assert forall|i: int| 0 <= i < b.len() implies text::is_hex_digit(#[trigger] b[i]) by {
        assert(text::is_hex_digit(a[i]));
        assert(lowered(a)[i] == text::lower(a[i]));
        assert(lowered(b)[i] == text::lower(b[i]));
    }
    lemma_lowered_oid(a);
}

/// What can go wrong with Git.
#[derive(Debug)]
pub enum GitError {
    UnsupportedRemote,
    InvalidUrl,
    UnsupportedScheme { scheme: String },
    CredentialsInUrl,
    SshUsernameRequired,
    InvalidReference { reference: String },
    ReferenceNotFound { reference: String },
    AmbiguousReference { reference: String },
    UnsupportedObjectFormat,
    MissingDefaultBranch,
    CommitUnavailable { remote: String, commit: GitOid },
    Access { remote: String, details: String },
    GitNotFound,
    Invocation { details: String },
    Process { operation: String, exit_code: Option<i32>, stdout: String, stderr: String },
    FileSystem { operation: String, path: String, details: String },
    Unavailable,
    Join { details: String },
}

/// What can go wrong with Git.
pub enum GitErrorV {
    UnsupportedRemote,
    InvalidUrl,
    UnsupportedScheme(Seq<char>),
    CredentialsInUrl,
    SshUsernameRequired,
    InvalidReference(Seq<char>),
    ReferenceNotFound(Seq<char>),
    AmbiguousReference(Seq<char>),
    UnsupportedObjectFormat,
    MissingDefaultBranch,
    CommitUnavailable(Seq<char>, Seq<char>),
    Access(Seq<char>, Seq<char>),
    GitNotFound,
    Invocation(Seq<char>),
    Process(Seq<char>, Option<i32>, Seq<char>, Seq<char>),
    FileSystem(Seq<char>, Seq<char>, Seq<char>),
    Unavailable,
    Join(Seq<char>),
}

impl GitError {
    /// The error, as characters.
    pub open spec fn view(&self) -> GitErrorV {
        match self {
            GitError::UnsupportedRemote => GitErrorV::UnsupportedRemote,
            GitError::InvalidUrl => GitErrorV::InvalidUrl,
            GitError::UnsupportedScheme { scheme } => GitErrorV::UnsupportedScheme(scheme@),
            GitError::CredentialsInUrl => GitErrorV::CredentialsInUrl,
            GitError::SshUsernameRequired => GitErrorV::SshUsernameRequired,
            GitError::InvalidReference { reference } => GitErrorV::InvalidReference(reference@),
            GitError::ReferenceNotFound { reference } => GitErrorV::ReferenceNotFound(reference@),
            GitError::AmbiguousReference { reference } => GitErrorV::AmbiguousReference(
                reference@,
            ),
            GitError::UnsupportedObjectFormat => GitErrorV::UnsupportedObjectFormat,
            GitError::MissingDefaultBranch => GitErrorV::MissingDefaultBranch,
            GitError::CommitUnavailable { remote, commit } => GitErrorV::CommitUnavailable(
                remote@,
                commit@,
            ),
            GitError::Access { remote, details } => GitErrorV::Access(remote@, details@),
            GitError::GitNotFound => GitErrorV::GitNotFound,
            GitError::Invocation { details } => GitErrorV::Invocation(details@),
            GitError::Process { operation, exit_code, stdout, stderr } => GitErrorV::Process(
                operation@,
                *exit_code,
                stdout@,
                stderr@,
            ),
            GitError::FileSystem { operation, path, details } => GitErrorV::FileSystem(
                operation@,
                path@,
                details@,
            ),
            GitError::Unavailable => GitErrorV::Unavailable,
            GitError::Join { details } => GitErrorV::Join(details@),
        }
    }
}

/// The object name that a reference spells out, if it does: white space around it is
/// dropped, and the longer names of another hash are refused.
pub open spec fn requested_oid_of(reference: Option<Seq<char>>) -> Result<
    Option<Seq<char>>,
    GitErrorV,
> {
    match reference {
        None => Ok(None),
        Some(value) => {
            let value = trimmed(value);
            if value.len() == 64 && is_hex(value) {
                Err(GitErrorV::UnsupportedObjectFormat)
            } else if is_oid(value) {
                Ok(Some(lowered(value)))
            } else {
                Ok(None)
            }
        },
    }
}

/// The view of an optional borrowed text.
pub open spec fn str_opt(v: Option<&str>) -> Option<Seq<char>> {
    match v {
        Some(s) => Some(s@),
        None => None,
    }
}

/// The object name that a reference spells out.
pub fn requested_oid(reference: Option<&str>) -> (r: Result<Option<GitOid>, GitError>)
    ensures
        match r {
            Ok(None) => requested_oid_of(str_opt(reference)) == Ok::<
                Option<Seq<char>>,
                GitErrorV,
            >(None),
            Ok(Some(oid)) => requested_oid_of(str_opt(reference)) == Ok::<
                Option<Seq<char>>,
                GitErrorV,
            >(Some(oid@)) && oid.wf(),
            Err(error) => requested_oid_of(str_opt(reference)) == Err::<
                Option<Seq<char>>,
                GitErrorV,
            >(error@),
        },
{
    match reference {
        None => Ok(None),
        Some(value) => {
            let value = text::trim(value);
            let v = text::chars_of(value.as_str());
            if v.len() == 64 && text::all_hex(&v) {
                return Err(GitError::UnsupportedObjectFormat);
            }
            match GitOid::parse(value.as_str()) {
                Ok(oid) => Ok(Some(oid)),
                Err(_) => Ok(None),
            }
        },
    }
}

/// The references that a remote advertises.
#[derive(Debug)]
pub struct AdvertisedReferences {
    pub names: Vec<String>,
    pub oids: Vec<GitOid>,
    pub default_branch: Option<String>,
}

/// The references that a remote advertises, and its default branch.
pub struct AdvertisedV {
    pub refs: Seq<(Seq<char>, Seq<char>)>,
    pub default_branch: Option<Seq<char>>,
}

impl AdvertisedReferences {
    /// One object for each name.
    pub open spec fn wf(&self) -> bool {
        &&& self.names@.len() == self.oids@.len()
        &&& forall|i: int| 0 <= i < self.oids@.len() ==> (#[trigger] self.oids@[i]).wf()
    }

    /// The names with their objects, in order.
    pub open spec fn view(&self) -> AdvertisedV {
        AdvertisedV {
            refs: Seq::new(
                self.names@.len(),
                |i: int| (self.names@[i]@, self.oids@[i]@),
            ),
            default_branch: text::opt_text(self.default_branch),
        }
    }
}

/// What one line of a listing adds: a line without a tab adds nothing, a line of the form
/// `ref: <branch>` for `HEAD` gives the default branch, and an object name gives a
/// reference. The longer names of another hash are refused.
pub open spec fn advertise_line(before: AdvertisedV, line: Seq<char>) -> Result<
    AdvertisedV,
    GitErrorV,
> {
    match cut_at(line, '\t') {
        None => Ok(before),
        Some((value, name)) => if name == "HEAD"@ && has_prefix(value, "ref: "@) {
            Ok(AdvertisedV { default_branch: Some(value.skip(5)), ..before })
        } else if value.len() == 64 && is_hex(value) {
            Err(GitErrorV::UnsupportedObjectFormat)
        } else if is_oid(value) {
            Ok(AdvertisedV { refs: before.refs.push((name, lowered(value))), ..before })
        } else {
            Ok(before)
        },
    }
}

/// What the lines of a listing give.
pub open spec fn advertise_lines(lines: Seq<Seq<char>>) -> Result<AdvertisedV, GitErrorV>
    decreases lines.len(),
{
    if lines.len() == 0 {
        Ok(AdvertisedV { refs: Seq::empty(), default_branch: None })
    } else {
        match advertise_lines(lines.drop_last()) {
            Err(error) => Err(error),
            Ok(before) => advertise_line(before, lines.last()),
        }
    }
}

proof fn lemma_advertise_error_stays(lines: Seq<Seq<char>>, n: int, error: GitErrorV)
    requires
        0 <= n <= lines.len(),
        advertise_lines(lines.take(n)) == Err::<AdvertisedV, GitErrorV>(error),
    ensures
        advertise_lines(lines) == Err::<AdvertisedV, GitErrorV>(error),
    decreases lines.len() - n,
{
    if n == lines.len() {
        assert(lines.take(n) =~= lines);
    } else {
        assert(lines.take(n + 1).drop_last() =~= lines.take(n));
        lemma_advertise_error_stays(lines, n + 1, error);
    }
}

/// Reads the listing that `git ls-remote --symref` prints.
pub fn parse_advertised_references(stdout: &Vec<u8>) -> (r: Result<
    AdvertisedReferences,
    GitError,
>)
    ensures
        match r {
            Ok(advertised) => advertised.wf() && advertise_lines(lines_of(written_text(stdout@)))
                == Ok::<AdvertisedV, GitErrorV>(advertised@),
            Err(error) => advertise_lines(lines_of(written_text(stdout@))) == Err::<
                AdvertisedV,
                GitErrorV,
            >(error@),
        },
{
    let listing = text::lossy(stdout);
    let lines = text::lines(listing.as_str());
    let ghost ls = lines_of(listing@);
    let mut names: Vec<String> = Vec::new();
    let mut oids: Vec<GitOid> = Vec::new();
    let mut default_branch: Option<String> = None;
    let mut i: usize = 0;
    proof {
        reveal_strlit("ref: ");
        let start = AdvertisedReferences { names, oids, default_branch };
        assert(start@.refs =~= Seq::<(Seq<char>, Seq<char>)>::empty());
        assert(ls.take(0) =~= Seq::<Seq<char>>::empty());
    }
    while i < lines.len()
        invariant
            i <= lines.len(),
            ls == lines_of(written_text(stdout@)),
            ls == texts(lines@),
            "ref: "@.len() == 5,
            (AdvertisedReferences { names, oids, default_branch }).wf(),
            advertise_lines(ls.take(i as int)) == Ok::<AdvertisedV, GitErrorV>(
                (AdvertisedReferences { names, oids, default_branch })@,
            ),
        decreases lines.len() - i,
    {
        let ghost before = (AdvertisedReferences { names, oids, default_branch })@;
        let line = &lines[i];
        assert(line@ == ls[i as int]);
        assert(ls.take(i + 1).drop_last() =~= ls.take(i as int));
        assert(ls.take(i + 1).last() == line@);
        match text::split_once(line.as_str(), '\t') {
            None => {},
            Some((value, name)) => {
                if text::same(name.as_str(), "HEAD") && text::starts_with(value.as_str(), "ref: ") {
                    let branch = text::skip_chars(value.as_str(), 5);
                    default_branch = Some(branch);
                    assert((AdvertisedReferences { names, oids, default_branch })@.refs
                        =~= before.refs);
                } else {
                    let v = text::chars_of(value.as_str());
                    if v.len() == 64 && text::all_hex(&v) {
                        proof {
                            lemma_advertise_error_stays(
                                ls,
                                i + 1,
                                GitErrorV::UnsupportedObjectFormat,
                            );
                        }
                        return Err(GitError::UnsupportedObjectFormat);
                    }
                    match GitOid::parse(value.as_str()) {
                        Ok(oid) => {
                            names.push(name);
                            oids.push(oid);
                            assert((AdvertisedReferences { names, oids, default_branch })@.refs
                                =~= before.refs.push((name@, oid@)));
                        },
                        Err(_) => {},
                    }
                }
            },
        }
        i = i + 1;
    }
    assert(ls.take(i as int) =~= ls);
    Ok(AdvertisedReferences { names, oids, default_branch })
}

/// The full names that a requested reference may stand for, which Git has to accept before
/// the reference is looked up.
pub open spec fn names_to_check_of(requested: Option<Seq<char>>) -> Seq<Seq<char>> {
    match requested {
        None => Seq::empty(),
        Some(value) => {
            let value = trimmed(value);
            if value.len() == 0 || is_oid(value) || (value.len() == 64 && is_hex(value)) {
                Seq::empty()
            } else if has_prefix(value, "refs/"@) {
                seq![value]
            } else {
                seq!["refs/heads/"@ + value, "refs/tags/"@ + value]
            }
        },
    }
}

/// The full names that Git has to accept before a reference is looked up.
pub fn names_to_check(requested: Option<&str>) -> (r: Vec<String>)
    ensures
        texts(r@) == names_to_check_of(str_opt(requested)),
{
    let mut out: Vec<String> = Vec::new();
    assert(texts(out@) =~= Seq::<Seq<char>>::empty());
    if let Some(value) = requested {
        let value = text::trim(value);
        let v = text::chars_of(value.as_str());
        if v.len() == 0 || (text::all_hex(&v) && (v.len() == 40 || v.len() == 64)) {
            return out;
        }
        if text::starts_with(value.as_str(), "refs/") {
            out.push(value);
            assert(texts(out@) =~= seq![value@]);
        } else {
            let branch = text::cat("refs/heads/", value.as_str());
            let tag = text::cat("refs/tags/", value.as_str());
            out.push(branch);
            out.push(tag);
            assert(texts(out@) =~= seq![branch@, tag@]);
        }
    }
    out
}

/// The object of the first reference of a name.
pub open spec fn object_of(refs: Seq<(Seq<char>, Seq<char>)>, name: Seq<char>) -> Option<Seq<char>>
    decreases refs.len(),
{
    if refs.len() == 0 {
        None
    } else if refs[0].0 == name {
        Some(refs[0].1)
    } else {
        object_of(refs.drop_first(), name)
    }
}

/// The full name that a requested reference stands for. Without a request it is the default
/// branch; a short name stands for a branch or a tag, but not for both.
pub open spec fn reference_source(
    requested: Option<Seq<char>>,
    valid: bool,
    advertised: AdvertisedV,
) -> Result<Seq<char>, GitErrorV> {
    let value = match requested {
        None => Seq::empty(),
        Some(value) => trimmed(value),
    };
    if value.len() == 0 {
        match advertised.default_branch {
            Some(branch) => Ok(branch),
            None => Err(GitErrorV::MissingDefaultBranch),
        }
    } else if !valid {
        Err(GitErrorV::InvalidReference(value))
    } else if has_prefix(value, "refs/"@) {
        Ok(value)
    } else {
        let branch = "refs/heads/"@ + value;
        let tag = "refs/tags/"@ + value;
        match (object_of(advertised.refs, branch), object_of(advertised.refs, tag)) {
            (Some(_), None) => Ok(branch),
            (None, Some(_)) => Ok(tag),
            (Some(_), Some(_)) => Err(GitErrorV::AmbiguousReference(value)),
            (None, None) => Err(GitErrorV::ReferenceNotFound(value)),
        }
    }
}

/// The commit that a requested reference selects, and the full name to fetch it by. An
/// object name selects itself; an annotated tag selects the commit that it points to, which
/// is advertised under its name followed by `^{}`.
pub open spec fn selected_reference(
    requested: Option<Seq<char>>,
    valid: bool,
    advertised: AdvertisedV,
) -> Result<(Option<Seq<char>>, Seq<char>), GitErrorV> {
    match requested_oid_of(requested) {
        Err(error) => Err(error),
        Ok(Some(oid)) => Ok((None, oid)),
        Ok(None) => match reference_source(requested, valid, advertised) {
            Err(error) => Err(error),
            Ok(source) => match object_of(advertised.refs, source) {
                None => Err(GitErrorV::ReferenceNotFound(source)),
                Some(direct) => match object_of(advertised.refs, source + "^{}"@) {
                    Some(peeled) => Ok((Some(source), peeled)),
                    None => Ok((Some(source), direct)),
                },
            },
        },
    }
}

/// A commit and, unless it was asked for by name, the reference to fetch it by.
#[derive(Debug)]
pub struct SelectedReference {
    pub source: Option<String>,
    pub commit: GitOid,
}

impl SelectedReference {
    /// The reference and the commit.
    pub open spec fn view(&self) -> (Option<Seq<char>>, Seq<char>) {
        (text::opt_text(self.source), self.commit@)
    }
}

impl AdvertisedReferences {
    fn find(&self, name: &str) -> (r: Option<GitOid>)
        requires
            self.wf(),
        ensures
            match r {
                Some(oid) => object_of(self@.refs, name@) == Some(oid@) && oid.wf(),
                None => object_of(self@.refs, name@) is None,
            },
    {
        let mut i: usize = 0;
        let ghost refs = self@.refs;
        assert(refs.skip(0) =~= refs);
        while i < self.names.len()
            invariant
                i <= self.names.len(),
                self.wf(),
                refs == self@.refs,
                object_of(refs, name@) == object_of(refs.skip(i as int), name@),
            decreases self.names.len() - i,
        {
            assert(refs.skip(i as int)[0] == refs[i as int]);
            if text::same(self.names[i].as_str(), name) {
                return Some(self.oids[i].copy());
            }
            assert(refs.skip(i as int).drop_first() =~= refs.skip(i + 1));
            i = i + 1;
        }
        None
    }
}

/// Selects the commit of a requested reference. `valid` tells whether Git accepts all names
/// of [`names_to_check`].
pub fn select_reference(
    requested: Option<&str>,
    valid: bool,
    advertised: &AdvertisedReferences,
) -> (r: Result<SelectedReference, GitError>)
    requires
        advertised.wf(),
    ensures
        match r {
            Ok(selected) => selected_reference(str_opt(requested), valid, advertised@) == Ok::<
                (Option<Seq<char>>, Seq<char>),
                GitErrorV,
            >(selected@) && selected.commit.wf(),
            Err(error) => selected_reference(str_opt(requested), valid, advertised@) == Err::<
                (Option<Seq<char>>, Seq<char>),
                GitErrorV,
            >(error@),
        },
{
    match requested_oid(requested) {
        Err(error) => {
            return Err(error);
        },
        Ok(Some(oid)) => {
            return Ok(SelectedReference { source: None, commit: oid });
        },
        Ok(None) => {},
    }
    let value = match requested {
        None => String::new(),
        Some(value) => text::trim(value),
    };
    let source: String = if value.as_str().is_empty() {
        match &advertised.default_branch {
            Some(branch) => branch.clone(),
            None => {
                return Err(GitError::MissingDefaultBranch);
            },
        }
    } else if !valid {
        return Err(GitError::InvalidReference { reference: value });
    } else if text::starts_with(value.as_str(), "refs/") {
        value
    } else {
        let branch = text::cat("refs/heads/", value.as_str());
        let tag = text::cat("refs/tags/", value.as_str());
        match (advertised.find(branch.as_str()), advertised.find(tag.as_str())) {
            (Some(_), None) => branch,
            (None, Some(_)) => tag,
            (Some(_), Some(_)) => {
                return Err(GitError::AmbiguousReference { reference: value });
            },
            (None, None) => {
                return Err(GitError::ReferenceNotFound { reference: value });
            },
        }
    };
    let direct = match advertised.find(source.as_str()) {
        Some(oid) => oid,
        None => {
            return Err(GitError::ReferenceNotFound { reference: source });
        },
    };
    let peeled_name = text::cat(source.as_str(), "^{}");
    let commit = match advertised.find(peeled_name.as_str()) {
        Some(peeled) => peeled,
        None => direct,
    };
    Ok(SelectedReference { source: Some(source), commit })
}

/// The URL of a Git repository.
#[derive(Debug)]
pub struct GitUrl {
    pub text: String,
}

/// The path segments of a repository at a host: the owner and the parts of the repository's
/// name, which may end in `.git`.
pub open spec fn hosted_segments(owner: Seq<char>, repository: Seq<char>) -> Seq<Seq<char>> {
    seq![owner] + split_on(without_suffixes(repository, ".git"@), '/')
}

/// The segments with `.git` after the last.
pub open spec fn with_git_suffix(segments: Seq<Seq<char>>) -> Seq<Seq<char>> {
    segments.drop_last().push(segments.last() + ".git"@)
}

/// Some text of the list is empty.
pub open spec fn has_empty(parts: Seq<Seq<char>>) -> bool {
    exists|i: int| 0 <= i < parts.len() && (#[trigger] parts[i]).len() == 0
}

/// The URL of a repository at a host.
pub open spec fn hosted_url(host: Seq<char>, owner: Seq<char>, repository: Seq<char>) -> Result<
    Seq<char>,
    GitErrorV,
> {
    let base = "https://"@ + host;
    let segments = hosted_segments(owner, repository);
    if has_blank(host) || has_blank(owner) || has_blank(repository) {
        Err(GitErrorV::InvalidUrl)
    } else {
        match url_parts(base) {
            None => Err(GitErrorV::InvalidUrl),
            Some(parts) => if parts.username.len() > 0 || parts.password is Some || parts.query is Some
                || parts.fragment is Some || parts.path != "/"@ || has_empty(segments)
                || !takes_user(parts) {
                Err(GitErrorV::InvalidUrl)
            } else {
                match extended_url(base, with_git_suffix(segments)) {
                    Some(url) => Ok(url),
                    None => Err(GitErrorV::InvalidUrl),
                }
            },
        }
    }
}

/// Where the path of a location of the form `user@host:path` begins: at the first colon
/// after the first at sign, or at the first colon where there is none.
pub open spec fn scp_delimiter_of(s: Seq<char>) -> Option<int> {
    let start = first_at(s, '@') + 1;
    let i = first_at(s.skip(start), ':');
    if i < 0 {
        None
    } else {
        Some(start + i)
    }
}

/// Why a location of the form `user@host:path` is refused, if it is.
pub open spec fn scp_fault(s: Seq<char>) -> Option<GitErrorV> {
    match scp_delimiter_of(s) {
        None => Some(GitErrorV::InvalidUrl),
        Some(d) => {
            let authority = s.take(d);
            let path = s.skip(d + 1);
            if authority.len() == 0 || path.len() == 0 || authority.contains('/')
                || authority.contains('\\') || path[0] == '/' || s.contains('?') || s.contains(
                '#',
            ) {
                Some(GitErrorV::InvalidUrl)
            } else {
                match url_parts("ssh://"@ + authority) {
                    None => Some(GitErrorV::InvalidUrl),
                    Some(parts) => if parts.host is None || parts.password is Some {
                        Some(GitErrorV::CredentialsInUrl)
                    } else if parts.username.len() == 0 {
                        Some(GitErrorV::SshUsernameRequired)
                    } else {
                        None
                    },
                }
            }
        },
    }
}

/// The same location as an SSH URL.
pub open spec fn scp_as_ssh(s: Seq<char>, delimiter: int) -> Seq<char> {
    "ssh://"@ + s.take(delimiter) + "/"@ + s.skip(delimiter + 1)
}

/// Only slashes.
pub open spec fn only_slashes(s: Seq<char>) -> bool {
    forall|i: int| 0 <= i < s.len() ==> #[trigger] s[i] == '/'
}

/// The URL of a Git repository given by a URL or by a location of the form
/// `user@host:path`. One that is longer than a URL can be is refused.
pub open spec fn generic_url(value: Seq<char>) -> Result<Seq<char>, GitErrorV> {
    let value = trimmed(value);
    if value.len() == 0 || has_blank(value) {
        Err(GitErrorV::InvalidUrl)
    } else if occurs(value, "://"@) {
        match url_parts(value) {
            None => Err(GitErrorV::InvalidUrl),
            Some(parts) => if parts.scheme != "https"@ && parts.scheme != "ssh"@ {
                Err(GitErrorV::UnsupportedScheme(parts.scheme))
            } else if parts.password is Some || (parts.scheme == "https"@ && parts.username.len()
                > 0) {
                Err(GitErrorV::CredentialsInUrl)
            } else if parts.scheme == "ssh"@ && parts.username.len() == 0 {
                Err(GitErrorV::SshUsernameRequired)
            } else if parts.host is None || parts.query is Some || parts.fragment is Some
                || only_slashes(parts.path) || !is_changeable(parts) {
                Err(GitErrorV::InvalidUrl)
            } else {
                Ok(parts.serialization)
            },
        }
    } else {
        match scp_fault(value) {
            Some(error) => Err(error),
            None => match url_parts(scp_as_ssh(value, scp_delimiter_of(value)->0)) {
                None => Err(GitErrorV::InvalidUrl),
                Some(parts) => if takes_user(parts) && is_changeable(parts) {
                    Ok(parts.serialization)
                } else {
                    Err(GitErrorV::InvalidUrl)
                },
            },
        }
    }
}

fn any_empty(names: &Vec<String>) -> (r: bool)
    ensures
        r == has_empty(texts(names@)),
{
    let mut i: usize = 0;
    while i < names.len()
        invariant
            i <= names.len(),
            forall|j: int| 0 <= j < i ==> (#[trigger] texts(names@)[j]).len() > 0,
        decreases names.len() - i,
    {
        assert(texts(names@)[i as int] == names@[i as int]@);
        if names[i].as_str().is_empty() {
            return true;
        }
        i = i + 1;
    }
    false
}

fn slashes(s: &str) -> (r: bool)
    ensures
        r == only_slashes(s@),
{
    let v = text::chars_of(s);
    let mut i: usize = 0;
    while i < v.len()
        invariant
            i <= v.len(),
            v@ == s@,
            forall|j: int| 0 <= j < i ==> #[trigger] s@[j] == '/',
        decreases v.len() - i,
    {
        if v[i] != '/' {
            assert(s@[i as int] != '/');
            return false;
        }
        i = i + 1;
    }
    true
}

proof fn lemma_first_at_range(s: Seq<char>, c: char)
    ensures
        -1 <= first_at(s, c) < s.len(),
    decreases s.len(),
{
    if s.len() > 0 {
        lemma_first_at_range(s.drop_last(), c);
    }
}

/// The place of the colon before the path, counted in characters.
fn scp_colon(value: &str) -> (r: Option<usize>)
    ensures
        match r {
            Some(d) => scp_delimiter_of(value@) == Some(d as int) && d < value@.len()
                && value@[d as int] == ':',
            None => scp_delimiter_of(value@) is None,
        },
{
    let v = text::chars_of(value);
    assert(v@.skip(0) =~= value@);
    let start: usize = match text::find_char(&v, '@', 0) {
        Some(i) => i + 1,
        None => 0,
    };
    match text::find_char(&v, ':', start) {
        Some(i) => Some(i),
        None => None,
    }
}

/// Where the path of a location of the form `user@host:path` begins: the place of the colon
/// among the bytes.
pub fn scp_delimiter(value: &str) -> (r: Option<usize>)
    ensures
        match r {
            Some(d) => scp_delimiter_of(value@) matches Some(k) && d == encode_utf8(
                value@.take(k),
            ).len() && d < encode_utf8(value@).len() && encode_utf8(value@)[d as int] == 0x3a,
            None => scp_delimiter_of(value@) is None,
        },
{
    let k: usize = match scp_colon(value) {
        Some(k) => k,
        None => {
            return None;
        },
    };
    let v = text::chars_of(value);
    let before = text::string_of(&v, 0, k);
    proof {
        assert(before@ =~= value@.take(k as int));
        let rest = value@.skip(k as int);
        assert(value@ =~= before@ + rest);
        text::lemma_bytes_of_parts(before@, rest);
        assert(rest[0] == ':');
        let colon = seq![':'];
        assert(rest =~= colon + rest.skip(1));
        text::lemma_bytes_of_parts(colon, rest.skip(1));
        assert(vstd::utf8::is_ascii_chars(colon));
        vstd::utf8::is_ascii_chars_encode_utf8(colon);
        assert(colon[0] as u8 == encode_utf8(colon)[0]);
    }
    Some(before.as_str().as_bytes().len())
}

proof fn lemma_other_bytes(c: u32, b: u8)
    requires
        vstd::utf8::is_scalar(c),
        b < 0x80,
        c != b,
    ensures
        forall|j: int|
            0 <= j < vstd::utf8::encode_scalar(c).len() ==> #[trigger] vstd::utf8::encode_scalar(
                c,
            )[j] != b,
{
    assert(c < 0x80 ==> (c & 0x7f) as u8 == c) by (bit_vector);
    assert(forall|x: u8| #[trigger] (0xc0 | x) >= 0x80) by (bit_vector);
    assert(forall|x: u8| #[trigger] (0xe0 | x) >= 0x80) by (bit_vector);
    assert(forall|x: u8| #[trigger] (0xf0 | x) >= 0x80) by (bit_vector);
    assert(forall|x: u8| #[trigger] (0x80 | x) >= 0x80) by (bit_vector);
}

proof fn lemma_no_such_bytes(s: Seq<char>, c: char)
    requires
        c as u32 <= 0x7f,
        forall|i: int| 0 <= i < s.len() ==> s[i] != c,
    ensures
        forall|j: int| 0 <= j < encode_utf8(s).len() ==> #[trigger] encode_utf8(s)[j] != c as u8,
    decreases s.len(),
{
    if s.len() > 0 {
        let rest = s.drop_first();
        let first = s[0];
        vstd::utf8::char_is_scalar(first);
        vstd::utf8::char_u32_cast(first, first as u32);
        vstd::utf8::char_u32_cast(c, c as u32);
        assert(first as u32 != c as u32);
        lemma_other_bytes(first as u32, c as u8);
        assert forall|i: int| 0 <= i < rest.len() implies rest[i] != c by {
            assert(rest[i] == s[i + 1]);
        }
        lemma_no_such_bytes(rest, c);
        let head = vstd::utf8::encode_scalar(first as u32);
        assert(encode_utf8(s) == head + encode_utf8(rest));
        assert forall|j: int| 0 <= j < encode_utf8(s).len() implies #[trigger] encode_utf8(s)[j]
            != c as u8 by {
            if j < head.len() {
                assert(head[j] != c as u8);
            } else {
                assert(encode_utf8(rest)[j - head.len()] != c as u8);
            }
        }
    }
}

/// The byte at a place is the first of its kind from a place on.
pub open spec fn is_first_byte(bytes: Seq<u8>, from: int, place: int, b: u8) -> bool {
    from <= place < bytes.len() && bytes[place] == b && forall|j: int|
        from <= j < place ==> bytes[j] != b
}

/// There is no such byte from a place on.
pub open spec fn is_no_byte(bytes: Seq<u8>, from: int, b: u8) -> bool {
    forall|j: int| from <= j < bytes.len() ==> bytes[j] != b
}

proof fn lemma_first_place(s: Seq<char>, c: char)
    ensures
        -1 <= first_at(s, c) < s.len(),
        first_at(s, c) >= 0 ==> s[first_at(s, c)] == c,
        forall|i: int| 0 <= i < s.len() && (first_at(s, c) < 0 || i < first_at(s, c)) ==> s[i] != c,
    decreases s.len(),
{
    if s.len() > 0 {
        lemma_first_place(s.drop_last(), c);
        let t = s.drop_last();
        assert forall|i: int|
            0 <= i < s.len() && (first_at(s, c) < 0 || i < first_at(s, c)) implies s[i] != c by {
            if i < t.len() {
                assert(t[i] == s[i]);
            }
        }
    }
}

proof fn lemma_first_byte(s: Seq<char>, c: char)
    requires
        c as u32 <= 0x7f,
    ensures
        first_at(s, c) >= 0 ==> is_first_byte(
            encode_utf8(s),
            0,
            encode_utf8(s.take(first_at(s, c))).len() as int,
            c as u8,
        ) && encode_utf8(s.take(first_at(s, c) + 1)).len() == encode_utf8(
            s.take(first_at(s, c)),
        ).len() + 1,
        first_at(s, c) < 0 ==> is_no_byte(encode_utf8(s), 0, c as u8),
{
    let i = first_at(s, c);
    lemma_first_place(s, c);
    if i < 0 {
        lemma_no_such_bytes(s, c);
    } else {
        let before = s.take(i);
        let rest = s.skip(i);
        let one = seq![c];
        assert(s =~= before + rest);
        text::lemma_bytes_of_parts(before, rest);
        assert(rest =~= one + rest.skip(1));
        text::lemma_bytes_of_parts(one, rest.skip(1));
        assert(s.take(i + 1) =~= before + one);
        text::lemma_bytes_of_parts(before, one);
        assert(vstd::utf8::is_ascii_chars(one));
        vstd::utf8::is_ascii_chars_encode_utf8(one);
        assert(one[0] as u8 == encode_utf8(one)[0]);
        assert forall|j: int| 0 <= j < before.len() implies before[j] != c by {
            assert(before[j] == s[j]);
        }
        lemma_no_such_bytes(before, c);
        assert forall|j: int| 0 <= j < encode_utf8(before).len() implies encode_utf8(s)[j] != c as u8 by {
            assert(encode_utf8(s)[j] == encode_utf8(before)[j]);
        }
    }
}

/// The path of a location of the form `user@host:path` begins behind the first colon among
/// the bytes that follow the first at sign, or among all bytes where there is none; without
/// such a colon it has no path.
pub proof fn scp_paths_begin_at_the_first_colon(value: Seq<char>)
    ensures
        ({
            let bytes = encode_utf8(value);
            let start = encode_utf8(value.take(first_at(value, '@') + 1)).len() as int;
            &&& start == 0 ==> is_no_byte(bytes, 0, 0x40)
            &&& start > 0 ==> is_first_byte(bytes, 0, start - 1, 0x40)
            &&& match scp_delimiter_of(value) {
                Some(k) => is_first_byte(
                    bytes,
                    start,
                    encode_utf8(value.take(k)).len() as int,
                    0x3a,
                ),
                None => is_no_byte(bytes, start, 0x3a),
            }
        }),
{
    let at = first_at(value, '@');
    lemma_first_place(value, '@');
    lemma_first_byte(value, '@');
    let user = value.take(at + 1);
    let host = value.skip(at + 1);
    assert(value =~= user + host);
    text::lemma_bytes_of_parts(user, host);
    lemma_first_place(host, ':');
    lemma_first_byte(host, ':');
    let bytes = encode_utf8(value);
    let start = encode_utf8(user).len() as int;
    if at < 0 {
        assert(user =~= Seq::empty());
    }
    assert forall|j: int| start <= j < bytes.len() implies bytes[j] == encode_utf8(host)[j - start] by {}
    match scp_delimiter_of(value) {
        Some(k) => {
            let name = host.take(k - (at + 1));
            assert(value.take(k) =~= user + name);
            text::lemma_bytes_of_parts(user, name);
        },
        None => {},
    }
}

/// Tests a location of the form `user@host:path`.
fn parse_scp_url(value: &str) -> (r: Result<usize, GitError>)
    ensures
        match r {
            Ok(d) => scp_fault(value@) is None && scp_delimiter_of(value@) == Some(d as int) && d
                < value@.len(),
            Err(error) => scp_fault(value@) == Some(error@),
        },
{
    let d = match scp_colon(value) {
        Some(d) => d,
        None => {
            return Err(GitError::InvalidUrl);
        },
    };
    let v = text::chars_of(value);
    let authority = text::string_of(&v, 0, d);
    let path = text::string_of(&v, d + 1, v.len());
    assert(authority@ =~= value@.take(d as int));
    assert(path@ =~= value@.skip(d + 1));
    if authority.as_str().is_empty() || path.as_str().is_empty() || text::contains_char(
        authority.as_str(),
        '/',
    ) || text::contains_char(authority.as_str(), '\\') || v[d + 1] == '/' || text::contains_char(
        value,
        '?',
    ) || text::contains_char(value, '#') {
        return Err(GitError::InvalidUrl);
    }
    let url = text::cat("ssh://", authority.as_str());
    match parse_url(url.as_str()) {
        None => Err(GitError::InvalidUrl),
        Some(parts) => if parts.host.is_none() || parts.password.is_some() {
            Err(GitError::CredentialsInUrl)
        } else if parts.username.as_str().is_empty() {
            Err(GitError::SshUsernameRequired)
        } else {
            Ok(d)
        },
    }
}

/// The host of a remote, or the one that its kind stands for.
pub open spec fn host_or(host: Option<Seq<char>>, default_host: Seq<char>) -> Seq<char> {
    match host {
        Some(host) => host,
        None => default_host,
    }
}

/// The URL of the repository that a remote names.
pub open spec fn remote_url(remote: RemoteV) -> Result<Seq<char>, GitErrorV> {
    match remote.source {
        RemoteSourceV::GitHub((owner, repository, _, _)) => hosted_url(
            host_or(remote.host, "github.com"@),
            owner,
            repository,
        ),
        RemoteSourceV::GitLab((owner, repository, _, _)) => hosted_url(
            host_or(remote.host, "gitlab.com"@),
            owner,
            repository,
        ),
        RemoteSourceV::Bitbucket((owner, repository, _, _)) => hosted_url(
            host_or(remote.host, "bitbucket.org"@),
            owner,
            repository,
        ),
        RemoteSourceV::Git((url, _)) => generic_url(url),
        RemoteSourceV::Other(_) => Err(GitErrorV::UnsupportedRemote),
    }
}

impl GitUrl {
    /// The URL, as characters.
    pub open spec fn view(&self) -> Seq<char> {
        self.text@
    }

    /// The text is a URL that can have a user name and is not too long.
    pub open spec fn wf(&self) -> bool {
        remote_url_parts(self@) matches Some(parts) && takes_user(parts) && is_changeable(parts)
    }

    /// The URL, as text.
    pub fn as_str(&self) -> (r: &str)
        ensures
            r@ == self@,
    {
        self.text.as_str()
    }

    /// A copy.
    pub fn copy(&self) -> (r: GitUrl)
        ensures
            r == *self,
    {
        GitUrl { text: self.text.clone() }
    }

    /// The URL of a repository at a host.
    pub fn from_hosted(host: Option<&str>, default_host: &str, remote: &HostedGitRemote) -> (r:
        Result<GitUrl, GitError>)
        ensures
            match r {
                Ok(url) => url.wf() && hosted_url(
                    host_or(str_opt(host), default_host@),
                    remote.owner@,
                    remote.repository@,
                ) == Ok::<Seq<char>, GitErrorV>(url@),
                Err(error) => hosted_url(
                    host_or(str_opt(host), default_host@),
                    remote.owner@,
                    remote.repository@,
                ) == Err::<Seq<char>, GitErrorV>(error@),
            },
    {
        let host: &str = match host {
            Some(host) => host,
            None => default_host,
        };
        if text::blank(host) || text::blank(remote.owner.as_str()) || text::blank(
            remote.repository.as_str(),
        ) {
            return Err(GitError::InvalidUrl);
        }
        let base = text::cat("https://", host);
        let parts = match parse_url(base.as_str()) {
            Some(parts) => parts,
            None => {
                return Err(GitError::InvalidUrl);
            },
        };
        if !parts.username.as_str().is_empty() || parts.password.is_some()
            || parts.query.is_some() || parts.fragment.is_some() || !text::same(
            parts.path.as_str(),
            "/",
        ) || !can_take_user(&parts) {
            return Err(GitError::InvalidUrl);
        }
        let repository = text::trim_end_matches(remote.repository.as_str(), ".git");
        let mut names = text::split(repository.as_str(), '/');
        let ghost pieces = texts(names@);
        names.insert(0, remote.owner.clone());
        let ghost segments = hosted_segments(remote.owner@, remote.repository@);
        assert(texts(names@) =~= segments);
        if any_empty(&names) {
            return Err(GitError::InvalidUrl);
        }
        let last: usize = names.len() - 1;
        let suffixed = text::cat(names[last].as_str(), ".git");
        assert(segments[last as int] == names@[last as int]@);
        names.set(last, suffixed);
        assert(texts(names@) =~= with_git_suffix(segments));
        match extend_segments(base.as_str(), &names) {
            Some(url) => {
                proof {
                    lemma_is_url(url_parts(url@)->0);
                }
                Ok(GitUrl { text: url })
            },
            None => Err(GitError::InvalidUrl),
        }
    }

    /// The URL of a Git repository given by a URL or by a location of the form
    /// `user@host:path`.
    pub fn from_generic(value: &str) -> (r: Result<GitUrl, GitError>)
        ensures
            match r {
                Ok(url) => url.wf() && generic_url(value@) == Ok::<Seq<char>, GitErrorV>(url@),
                Err(error) => generic_url(value@) == Err::<Seq<char>, GitErrorV>(error@),
            },
    {
        let value = text::trim(value);
        let value = value.as_str();
        if value.is_empty() || text::blank(value) {
            return Err(GitError::InvalidUrl);
        }
        if text::contains_text(value, "://") {
            let parts = match parse_url(value) {
                Some(parts) => parts,
                None => {
                    return Err(GitError::InvalidUrl);
                },
            };
            let https = text::same(parts.scheme.as_str(), "https");
            let ssh = text::same(parts.scheme.as_str(), "ssh");
            if !https && !ssh {
                return Err(GitError::UnsupportedScheme { scheme: parts.scheme });
            }
            if parts.password.is_some() || (https && !parts.username.as_str().is_empty()) {
                return Err(GitError::CredentialsInUrl);
            }
            if ssh && parts.username.as_str().is_empty() {
                return Err(GitError::SshUsernameRequired);
            }
            if parts.host.is_none() || parts.query.is_some() || parts.fragment.is_some()
                || slashes(parts.path.as_str()) || !changeable(&parts) {
                return Err(GitError::InvalidUrl);
            }
            proof {
                reveal_strlit("https");
                reveal_strlit("ssh");
                reveal_strlit("file");
                assert("file"@[0] == 'f' && "https"@[0] == 'h' && "ssh"@[0] == 's');
                lemma_is_url(parts@);
            }
            return Ok(GitUrl { text: parts.serialization });
        }
        let d = match parse_scp_url(value) {
            Ok(d) => d,
            Err(error) => {
                return Err(error);
            },
        };
        let url = ssh_form(value, d);
        match parse_url(url.as_str()) {
            Some(parts) => if can_take_user(&parts) && changeable(&parts) {
                proof {
                    lemma_is_url(parts@);
                }
                Ok(GitUrl { text: parts.serialization })
            } else {
                Err(GitError::InvalidUrl)
            },
            None => Err(GitError::InvalidUrl),
        }
    }

    /// The URL of the repository that a remote names.
    pub fn from_remote(remote: &Remote) -> (r: Result<GitUrl, GitError>)
        ensures
            match r {
                Ok(url) => url.wf() && remote_url(remote@) == Ok::<Seq<char>, GitErrorV>(url@),
                Err(error) => remote_url(remote@) == Err::<Seq<char>, GitErrorV>(error@),
            },
    {
        let host: Option<&str> = match &remote.host {
            Some(host) => Some(host.as_str()),
            None => None,
        };
        match &remote.source {
            RemoteSource::GitHub(hosted) => GitUrl::from_hosted(host, "github.com", hosted),
            RemoteSource::GitLab(hosted) => GitUrl::from_hosted(host, "gitlab.com", hosted),
            RemoteSource::Bitbucket(hosted) => GitUrl::from_hosted(host, "bitbucket.org", hosted),
            RemoteSource::Git { url, reference: _ } => GitUrl::from_generic(url.as_str()),
            RemoteSource::Other(_) => Err(GitError::UnsupportedRemote),
        }
    }
}

/// A location of the form `user@host:path` as an SSH URL.
fn ssh_form(value: &str, d: usize) -> (r: String)
    requires
        d < value@.len(),
    ensures
        r@ == scp_as_ssh(value@, d as int),
{
    let v = text::chars_of(value);
    let n: usize = v.len();
    let authority = text::string_of(&v, 0, d);
    let path = text::string_of(&v, d + 1, n);
    assert(authority@ =~= value@.take(d as int));
    assert(path@ =~= value@.skip(d + 1));
    text::cat4("ssh://", authority.as_str(), "/", path.as_str())
}

/// What the cache knows a repository by: its URL without credentials, without the default
/// port and without slashes at the end of the path, so that the ways to spell the same
/// repository share their cache. A text that is no URL is taken as it is.
pub open spec fn canonical_url(value: Seq<char>) -> Seq<char> {
    if occurs(value, "://"@) {
        plain_or(value, value)
    } else {
        match scp_delimiter_of(value) {
            Some(d) => plain_or(scp_as_ssh(value, d), value),
            None => value,
        }
    }
}

/// The plain form of the URL that a text spells, or another text where it spells none.
pub open spec fn plain_or(text: Seq<char>, other: Seq<char>) -> Seq<char> {
    match plain_form(text) {
        Some(plain) => plain,
        None => other,
    }
}

/// What the cache knows a repository by.
pub fn canonical_cache_url(remote: &GitUrl) -> (r: String)
    ensures
        r@ == canonical_url(remote@),
{
    let value = remote.as_str();
    let normalized = if text::contains_text(value, "://") {
        value.to_owned()
    } else {
        match scp_colon(value) {
            Some(d) => ssh_form(value, d),
            None => {
                return value.to_owned();
            },
        }
    };
    match plain_url(normalized.as_str()) {
        Some(url) => url,
        None => value.to_owned(),
    }
}

/// The name of a repository in the cache.
pub open spec fn cache_key_of(remote: Seq<char>) -> Seq<char> {
    hex_text(sha256_of(vstd::utf8::encode_utf8(canonical_url(remote))))
}

/// Lower-case hexadecimal digits.
pub open spec fn is_lower_hex(s: Seq<char>) -> bool {
    forall|i: int|
        0 <= i < s.len() ==> ('0' <= #[trigger] s[i] && s[i] <= '9') || ('a' <= s[i] && s[i] <= 'f')
}

proof fn lemma_hex_is_lower(bytes: Seq<u8>)
    ensures
        hex_text(bytes).len() == 2 * bytes.len(),
        is_lower_hex(hex_text(bytes)),
    decreases bytes.len(),
{
    if bytes.len() > 0 {
        lemma_hex_is_lower(bytes.drop_last());
        let front = hex_text(bytes.drop_last());
        let all = hex_text(bytes);
        assert forall|i: int| 0 <= i < all.len() implies ('0' <= #[trigger] all[i] && all[i] <= '9')
            || ('a' <= all[i] && all[i] <= 'f') by {
            if i < front.len() {
                assert(all[i] == front[i]);
            }
        }
    }
}

/// The name of a repository in the cache: the SHA-256 digest of its canonical URL, in
/// sixty-four hexadecimal digits of lower case.
pub fn remote_key(remote: &GitUrl) -> (r: String)
    ensures
        r@ == cache_key_of(remote@),
        r@.len() == 64,
        is_lower_hex(r@),
{
    let canonical = canonical_cache_url(remote);
    let bytes = canonical.as_str().as_bytes_vec();
    let digest = sha256(&bytes);
    proof {
        lemma_hex_is_lower(digest@);
    }
    text::hex(&digest)
}

/// The parts of the URL that a remote stands for: it is a URL, or a location of the form
/// `user@host:path`.
pub open spec fn remote_url_parts(value: Seq<char>) -> Option<UrlPartsV> {
    if occurs(value, "://"@) {
        url_parts(value)
    } else {
        match scp_delimiter_of(value) {
            Some(d) => url_parts(scp_as_ssh(value, d)),
            None => None,
        }
    }
}

/// A URL with a host is read as one and not as a location of the form `user@host:path`.
proof fn lemma_is_url(parts: UrlPartsV)
    ensures
        occurs(url_text(parts), "://"@),
{
    let text = url_text(parts);
    let i = parts.scheme.len() as int;
    assert(text.subrange(i, i + "://"@.len()) =~= "://"@);
}

/// Two URLs are equal once their user names, their passwords, the default ports of their
/// schemes and the slashes at the ends of their paths are dropped.
pub open spec fn name_one_repository(a: UrlPartsV, b: UrlPartsV) -> bool {
    UrlPartsV { serialization: Seq::empty(), ..canonical_parts(a) } == (UrlPartsV {
        serialization: Seq::empty(),
        ..canonical_parts(b)
    })
}

/// Two remotes have one key where they are equal once user name, password, default port and
/// the slashes at the end of the path are dropped: credentials never influence the key.
pub proof fn remotes_of_a_repository_have_one_key(a: &GitUrl, b: &GitUrl)
    requires
        a.wf(),
        b.wf(),
        name_one_repository(remote_url_parts(a@)->0, remote_url_parts(b@)->0),
    ensures
        canonical_url(a@) == canonical_url(b@),
        cache_key_of(a@) == cache_key_of(b@),
{
    let p = canonical_parts(remote_url_parts(a@)->0);
    let q = canonical_parts(remote_url_parts(b@)->0);
    let none = Seq::<char>::empty();
    assert(url_text(p) == url_text(UrlPartsV { serialization: none, ..p }));
    assert(url_text(q) == url_text(UrlPartsV { serialization: none, ..q }));
}

/// The places of a repository and of one of its commits in the cache.
#[derive(Debug)]
pub struct GitCachePaths {
    pub db_parent: Location,
    pub checkout_parent: Location,
    pub database: Location,
    pub checkout: Location,
}

/// A place below `git` in the cache.
pub open spec fn git_place(parts: Seq<Seq<char>>) -> LocationV {
    LocationV { base: crate::location::Base::Cache, parts: seq!["git"@] + parts }
}

impl GitCachePaths {
    /// The places of a repository and of one of its commits in the cache.
    pub fn new(remote: &GitUrl, commit: &GitOid) -> (r: GitCachePaths)
        ensures
            r.db_parent@ == git_place(seq!["db"@]),
            r.database@ == git_place(seq!["db"@, cache_key_of(remote@) + ".git"@]),
            r.checkout_parent@ == git_place(seq!["checkouts"@, cache_key_of(remote@)]),
            r.checkout@ == git_place(seq!["checkouts"@, cache_key_of(remote@), commit@]),
    {
        let key = remote_key(remote);
        let db_parent = cache_dir_path().join("git").join("db");
        let checkout_parent = cache_dir_path().join("git").join("checkouts").join(key.as_str());
        let file = text::cat(key.as_str(), ".git");
        let database = db_parent.copy().join(file.as_str());
        let checkout = checkout_parent.copy().join(commit.digits.as_str());
        assert(db_parent@.parts =~= git_place(seq!["db"@]).parts);
        assert(database@.parts =~= git_place(seq!["db"@, cache_key_of(remote@) + ".git"@]).parts);
        assert(checkout_parent@.parts =~= git_place(
            seq!["checkouts"@, cache_key_of(remote@)],
        ).parts);
        assert(checkout@.parts =~= git_place(
            seq!["checkouts"@, cache_key_of(remote@), commit@],
        ).parts);
        GitCachePaths { db_parent, checkout_parent, database, checkout }
    }
}

/// The place of the checkout of a commit.
pub fn checkout_path(remote: &GitUrl, commit: &GitOid) -> (r: Location)
    ensures
        r@ == git_place(seq!["checkouts"@, cache_key_of(remote@), commit@]),
{
    GitCachePaths::new(remote, commit).checkout
}

/// Whether a command that answers `true` or `false` answered `true`.
pub fn answers_true(success: bool, stdout: &Vec<u8>) -> (r: bool)
    ensures
        r == (success && trimmed(written_text(stdout@)) == "true"@),
{
    let written = text::lossy(stdout);
    let answer = text::trim(written.as_str());
    success && text::same(answer.as_str(), "true")
}

/// What the exit of `git config --get` says of a value.
#[derive(Debug)]
pub enum ConfigValue {
    /// The value is not set, or it is empty.
    Missing,
    /// The value.
    Found(String),
    /// Git failed.
    Failed,
}

/// Reads the exit of `git config --get`: the code one means that the value is not set, and
/// a value is trimmed.
pub fn config_value(code: Option<i32>, stdout: &Vec<u8>) -> (r: ConfigValue)
    ensures
        match r {
            ConfigValue::Missing => code == Some(1i32) || (code == Some(0i32) && trimmed(
                written_text(stdout@),
            ).len() == 0),
            ConfigValue::Found(value) => code == Some(0i32) && value@.len() > 0 && value@
                == trimmed(written_text(stdout@)),
            ConfigValue::Failed => code != Some(1i32) && code != Some(0i32),
        },
{
    match code {
        Some(number) => if number == 1 {
            ConfigValue::Missing
        } else if number != 0 {
            ConfigValue::Failed
        } else {
            let written = text::lossy(stdout);
            let value = text::trim(written.as_str());
            if value.as_str().is_empty() {
                ConfigValue::Missing
            } else {
                ConfigValue::Found(value)
            }
        },
        None => ConfigValue::Failed,
    }
}

/// The name and the address that Git is configured with.
#[derive(Debug)]
pub struct Identity {
    pub name: Option<String>,
    pub email: Option<String>,
}

/// The name and the address that Git is configured with; where either cannot be read, neither
/// is known.
pub fn configured_identity(name: ConfigValue, email: ConfigValue) -> (r: Identity)
    ensures
        r == match (name, email) {
            (ConfigValue::Failed, _) => Identity { name: None, email: None },
            (_, ConfigValue::Failed) => Identity { name: None, email: None },
            (ConfigValue::Found(name), ConfigValue::Found(email)) => Identity {
                name: Some(name),
                email: Some(email),
            },
            (ConfigValue::Found(name), ConfigValue::Missing) => Identity {
                name: Some(name),
                email: None,
            },
            (ConfigValue::Missing, ConfigValue::Found(email)) => Identity {
                name: None,
                email: Some(email),
            },
            (ConfigValue::Missing, ConfigValue::Missing) => Identity { name: None, email: None },
        },
{
    match (name, email) {
        (ConfigValue::Failed, _) => Identity { name: None, email: None },
        (_, ConfigValue::Failed) => Identity { name: None, email: None },
        (ConfigValue::Found(name), ConfigValue::Found(email)) => Identity {
            name: Some(name),
            email: Some(email),
        },
        (ConfigValue::Found(name), ConfigValue::Missing) => Identity {
            name: Some(name),
            email: None,
        },
        (ConfigValue::Missing, ConfigValue::Found(email)) => Identity {
            name: None,
            email: Some(email),
        },
        (ConfigValue::Missing, ConfigValue::Missing) => Identity { name: None, email: None },
    }
}

/// The error for a command of Git that failed, with all that it has written.
pub fn process_error(
    operation: &str,
    exit_code: Option<i32>,
    stdout: &Vec<u8>,
    stderr: &Vec<u8>,
) -> (r: GitError)
    ensures
        r@ == GitErrorV::Process(
            operation@,
            exit_code,
            written_text(stdout@),
            written_text(stderr@),
        ),
{
    GitError::Process {
        operation: operation.to_owned(),
        exit_code,
        stdout: text::lossy(stdout),
        stderr: text::lossy(stderr),
    }
}

/// Whether a checkout stands at a commit without changes: `head` is what `git rev-parse
/// HEAD` printed and `status` what `git status --porcelain` printed, each unless the command
/// failed.
pub fn valid_checkout(
    head: Option<&Vec<u8>>,
    status: Option<&Vec<u8>>,
    commit: &GitOid,
) -> (r: bool)
    ensures
        r == match (head, status) {
            (Some(head), Some(status)) => trimmed(written_text(head@)) == commit@ && status@.len()
                == 0,
            _ => false,
        },
{
    match (head, status) {
        (Some(head), Some(status)) => {
            let written = text::lossy(head);
            let head = text::trim(written.as_str());
            text::same(head.as_str(), commit.digits.as_str()) && status.is_empty()
        },
        _ => false,
    }
}

/// How far the search for a commit has come.
#[derive(Clone, Copy, PartialEq, Eq, Structural, Debug)]
pub enum FetchStage {
    /// Nothing was fetched.
    Start,
    /// The requested reference was fetched.
    Reference,
    /// The commit itself was fetched.
    Commit,
    /// All branches and tags were fetched.
    Everything,
}

/// What to do next in the search for a commit.
#[derive(Debug)]
pub enum FetchAction {
    /// The commit is there.
    Done,
    /// Fetch the references; where `required` holds, a failure ends the search.
    Fetch { refspecs: Vec<String>, next: FetchStage, required: bool },
    /// The remote does not have the commit.
    Unavailable,
}

/// What to do next in the search for a commit.
pub enum FetchActionV {
    Done,
    Fetch(Seq<Seq<char>>, FetchStage, bool),
    Unavailable,
}

impl FetchAction {
    /// The action, as characters.
    pub open spec fn view(&self) -> FetchActionV {
        match self {
            FetchAction::Done => FetchActionV::Done,
            FetchAction::Fetch { refspecs, next, required } => FetchActionV::Fetch(
                texts(refspecs@),
                *next,
                *required,
            ),
            FetchAction::Unavailable => FetchActionV::Unavailable,
        }
    }
}

/// The reference is tried first where there is one, then the commit itself, then all
/// branches and tags.
pub open spec fn next_fetch_of(
    stage: FetchStage,
    exists: bool,
    source: Option<Seq<char>>,
    commit: Seq<char>,
) -> FetchActionV {
    let direct = FetchActionV::Fetch(
        seq!["+"@ + commit + ":refs/rpx/commit"@],
        FetchStage::Commit,
        false,
    );
    if exists {
        FetchActionV::Done
    } else {
        match stage {
            FetchStage::Start => match source {
                Some(source) => FetchActionV::Fetch(
                    seq!["+"@ + source + ":refs/rpx/source"@],
                    FetchStage::Reference,
                    false,
                ),
                None => direct,
            },
            FetchStage::Reference => direct,
            FetchStage::Commit => FetchActionV::Fetch(
                seq!["+refs/heads/*:refs/rpx/heads/*"@, "+refs/tags/*:refs/rpx/tags/*"@],
                FetchStage::Everything,
                true,
            ),
            FetchStage::Everything => FetchActionV::Unavailable,
        }
    }
}

/// What to do next in the search for a commit, given whether it exists by now.
pub fn next_fetch(stage: FetchStage, exists: bool, source: Option<&str>, commit: &GitOid) -> (r:
    FetchAction)
    ensures
        r@ == next_fetch_of(stage, exists, str_opt(source), commit@),
{
    if exists {
        return FetchAction::Done;
    }
    let mut refspecs: Vec<String> = Vec::new();
    match (stage, source) {
        (FetchStage::Start, Some(source)) => {
            let spec_text = text::cat3("+", source, ":refs/rpx/source");
            refspecs.push(spec_text);
            assert(texts(refspecs@) =~= seq![spec_text@]);
            FetchAction::Fetch { refspecs, next: FetchStage::Reference, required: false }
        },
        (FetchStage::Commit, _) => {
            refspecs.push("+refs/heads/*:refs/rpx/heads/*".to_owned());
            refspecs.push("+refs/tags/*:refs/rpx/tags/*".to_owned());
            assert(texts(refspecs@) =~= seq![
                "+refs/heads/*:refs/rpx/heads/*"@,
                "+refs/tags/*:refs/rpx/tags/*"@,
            ]);
            FetchAction::Fetch { refspecs, next: FetchStage::Everything, required: true }
        },
        (FetchStage::Everything, _) => FetchAction::Unavailable,
        _ => {
            let spec_text = text::cat3("+", commit.digits.as_str(), ":refs/rpx/commit");
            refspecs.push(spec_text);
            assert(texts(refspecs@) =~= seq![spec_text@]);
            FetchAction::Fetch { refspecs, next: FetchStage::Commit, required: false }
        },
    }
}

/// The place of a stage in the search.
pub open spec fn fetch_rank(stage: FetchStage) -> int {
    match stage {
        FetchStage::Start => 0,
        FetchStage::Reference => 1,
        FetchStage::Commit => 2,
        FetchStage::Everything => 3,
    }
}

/// The search for a commit ends: it is done exactly when the commit exists, every fetch
/// leads to a later stage, and after the last one there is no further fetch.
pub proof fn fetching_ends(
    stage: FetchStage,
    exists: bool,
    source: Option<Seq<char>>,
    commit: Seq<char>,
)
    ensures
        next_fetch_of(stage, exists, source, commit) is Done <==> exists,
        next_fetch_of(stage, exists, source, commit) matches FetchActionV::Fetch(_, next, _)
            ==> fetch_rank(next) > fetch_rank(stage),
        next_fetch_of(stage, exists, source, commit) is Unavailable <==> !exists && stage
            == FetchStage::Everything,
{
}

/// How far a checkout has come.
#[derive(Clone, Copy, PartialEq, Eq, Structural, Debug)]
pub enum CheckoutStage {
    /// It was asked whether the checkout is valid.
    Probe,
    /// The same was asked once the commit was in the database.
    Recheck,
    /// A fresh checkout was moved into place.
    Publish,
    /// After that had failed, it was asked whether the checkout is valid.
    Confirm,
}

/// What to do next for a checkout.
#[derive(Clone, Copy, PartialEq, Eq, Structural, Debug)]
pub enum CheckoutAction {
    /// The checkout is there.
    Done,
    /// Open the database, get the commit into it, and ask again.
    Prepare,
    /// Remove what stands in place, make a fresh checkout aside and move it into place.
    Replace,
    /// Discard the fresh checkout and ask whether another process made a valid one.
    Confirm,
    /// The checkout could not be moved into place.
    Fail,
}

/// What to do next for a checkout, given whether the last question was answered with yes or
/// the last step succeeded.
pub fn next_checkout(stage: CheckoutStage, ok: bool) -> (r: CheckoutAction)
    ensures
        r == (if ok {
            CheckoutAction::Done
        } else {
            match stage {
                CheckoutStage::Probe => CheckoutAction::Prepare,
                CheckoutStage::Recheck => CheckoutAction::Replace,
                CheckoutStage::Publish => CheckoutAction::Confirm,
                CheckoutStage::Confirm => CheckoutAction::Fail,
            }
        }),
{
    if ok {
        return CheckoutAction::Done;
    }
    match stage {
        CheckoutStage::Probe => CheckoutAction::Prepare,
        CheckoutStage::Recheck => CheckoutAction::Replace,
        CheckoutStage::Publish => CheckoutAction::Confirm,
        CheckoutStage::Confirm => CheckoutAction::Fail,
    }
}

/// A remote lists an object under a name, and lists the name no earlier.
pub open spec fn lists(
    refs: Seq<(Seq<char>, Seq<char>)>,
    name: Seq<char>,
    object: Seq<char>,
) -> bool {
    exists|i: int|
        0 <= i < refs.len() && #[trigger] refs[i] == (name, object) && forall|j: int|
            0 <= j < i ==> (#[trigger] refs[j]).0 != name
}

/// A remote does not list a name.
pub open spec fn lacks(refs: Seq<(Seq<char>, Seq<char>)>, name: Seq<char>) -> bool {
    forall|i: int| 0 <= i < refs.len() ==> (#[trigger] refs[i]).0 != name
}

proof fn lemma_listed(refs: Seq<(Seq<char>, Seq<char>)>, name: Seq<char>)
    ensures
        lacks(refs, name) <==> object_of(refs, name) is None,
        forall|object: Seq<char>| #[trigger]
            lists(refs, name, object) <==> object_of(refs, name) == Some(object),
    decreases refs.len(),
{
    if refs.len() > 0 {
        let rest = refs.drop_first();
        lemma_listed(rest, name);
        if refs[0].0 == name {
            assert(lists(refs, name, refs[0].1)) by {
                assert(refs[0] == (name, refs[0].1));
            }
            assert forall|object: Seq<char>| #[trigger] lists(refs, name, object) implies object
                == refs[0].1 by {
                let i = choose|i: int|
                    0 <= i < refs.len() && #[trigger] refs[i] == (name, object) && forall|j: int|
                        0 <= j < i ==> (#[trigger] refs[j]).0 != name;
                if i > 0 {
                    assert(refs[0].0 != name);
                }
            }
        } else {
            if lacks(rest, name) {
                assert forall|i: int| 0 <= i < refs.len() implies (#[trigger] refs[i]).0 != name by {
                    if i > 0 {
                        assert(rest[i - 1] == refs[i]);
                    }
                }
            }
            if lacks(refs, name) {
                assert forall|i: int| 0 <= i < rest.len() implies (#[trigger] rest[i]).0 != name by {
                    assert(refs[i + 1] == rest[i]);
                }
            }
            assert forall|object: Seq<char>| #[trigger] lists(refs, name, object) <==> lists(
                rest,
                name,
                object,
            ) by {
                if lists(refs, name, object) {
                    let i = choose|i: int|
                        0 <= i < refs.len() && #[trigger] refs[i] == (name, object) && forall|j: int|
                            0 <= j < i ==> (#[trigger] refs[j]).0 != name;
                    assert(i > 0);
                    assert(rest[i - 1] == (name, object));
                    assert forall|j: int| 0 <= j < i - 1 implies (#[trigger] rest[j]).0 != name by {
                        assert(refs[j + 1] == rest[j]);
                    }
                }
                if lists(rest, name, object) {
                    let i = choose|i: int|
                        0 <= i < rest.len() && #[trigger] rest[i] == (name, object) && forall|j: int|
                            0 <= j < i ==> (#[trigger] rest[j]).0 != name;
                    assert(refs[i + 1] == (name, object));
                    assert forall|j: int| 0 <= j < i + 1 implies (#[trigger] refs[j]).0 != name by {
                        if j > 0 {
                            assert(rest[j - 1] == refs[j]);
                        }
                    }
                }
            }
        }
    }
}

/// A name that is looked up among the branches and the tags of a remote: it does not begin or
/// end with white space, is no name of an object, and is not written in full.
pub open spec fn is_short_name(name: Seq<char>) -> bool {
    &&& name.len() > 0
    &&& !text::is_white_space(name[0])
    &&& !text::is_white_space(name.last())
    &&& !((name.len() == 40 || name.len() == 64) && forall|i: int|
        0 <= i < name.len() ==> {
            let c = #[trigger] name[i];
            ('0' <= c && c <= '9') || ('a' <= c && c <= 'f') || ('A' <= c && c <= 'F')
        })
    &&& !(name.len() >= 5 && name[0] == 'r' && name[1] == 'e' && name[2] == 'f' && name[3] == 's'
        && name[4] == '/')
}

/// A text without white space at its ends stays as it is when it is trimmed.
proof fn lemma_tight(s: Seq<char>)
    requires
        s.len() > 0,
        !text::is_white_space(s[0]),
        !text::is_white_space(s.last()),
    ensures
        trimmed(s) == s,
{
}

proof fn lemma_short_name(name: Seq<char>)
    requires
        is_short_name(name),
    ensures
        trimmed(name) == name,
        requested_oid_of(Some(name)) == Ok::<Option<Seq<char>>, GitErrorV>(None),
        !has_prefix(name, "refs/"@),
{
    lemma_tight(name);
    reveal_strlit("refs/");
    let full = "refs/"@;
    if has_prefix(name, full) {
        assert(name[0] == full[0] && name[1] == full[1] && name[2] == full[2] && name[3] == full[3]
            && name[4] == full[4]);
    }
    if name.len() == 40 || name.len() == 64 {
        let k = choose|k: int|
            0 <= k < name.len() && !{
                let c = #[trigger] name[k];
                ('0' <= c && c <= '9') || ('a' <= c && c <= 'f') || ('A' <= c && c <= 'F')
            };
        assert(!is_hex(name)) by {
            assert(!text::is_hex_digit(name[k]));
        }
    }
}

/// A branch is selected by its name, and so is a tag: where a remote lists one of them and not
/// the other, the object that it lists is selected, or for a tag with an object of its own the
/// one that the tag stands for, and it is fetched by its full name.
pub proof fn branches_and_tags_are_selected_by_name(
    name: Seq<char>,
    advertised: AdvertisedV,
    object: Seq<char>,
)
    requires
        is_short_name(name),
    ensures
        lacks(advertised.refs, "refs/tags/"@ + name) && lists(
            advertised.refs,
            "refs/heads/"@ + name,
            object,
        ) && lacks(advertised.refs, "refs/heads/"@ + name + "^{}"@) ==> selected_reference(
            Some(name),
            true,
            advertised,
        ) == Ok::<(Option<Seq<char>>, Seq<char>), GitErrorV>(
            (Some("refs/heads/"@ + name), object),
        ),
        lacks(advertised.refs, "refs/heads/"@ + name) && lists(
            advertised.refs,
            "refs/tags/"@ + name,
            object,
        ) && lacks(advertised.refs, "refs/tags/"@ + name + "^{}"@) ==> selected_reference(
            Some(name),
            true,
            advertised,
        ) == Ok::<(Option<Seq<char>>, Seq<char>), GitErrorV>(
            (Some("refs/tags/"@ + name), object),
        ),
        lacks(advertised.refs, "refs/heads/"@ + name) && !lacks(
            advertised.refs,
            "refs/tags/"@ + name,
        ) && lists(advertised.refs, "refs/tags/"@ + name + "^{}"@, object) ==> selected_reference(
            Some(name),
            true,
            advertised,
        ) == Ok::<(Option<Seq<char>>, Seq<char>), GitErrorV>(
            (Some("refs/tags/"@ + name), object),
        ),
{
    lemma_short_name(name);
    let branch = "refs/heads/"@ + name;
    let tag = "refs/tags/"@ + name;
    lemma_listed(advertised.refs, branch);
    lemma_listed(advertised.refs, tag);
    lemma_listed(advertised.refs, branch + "^{}"@);
    lemma_listed(advertised.refs, tag + "^{}"@);
}

/// A name that a remote lists neither as a branch nor as a tag is not found, one that it lists
/// as both is ambiguous, and one that Git refuses is invalid.
pub proof fn names_that_select_nothing_are_refused(name: Seq<char>, advertised: AdvertisedV)
    requires
        is_short_name(name),
    ensures
        lacks(advertised.refs, "refs/heads/"@ + name) && lacks(
            advertised.refs,
            "refs/tags/"@ + name,
        ) ==> selected_reference(Some(name), true, advertised) == Err::<
            (Option<Seq<char>>, Seq<char>),
            GitErrorV,
        >(GitErrorV::ReferenceNotFound(name)),
        !lacks(advertised.refs, "refs/heads/"@ + name) && !lacks(
            advertised.refs,
            "refs/tags/"@ + name,
        ) ==> selected_reference(Some(name), true, advertised) == Err::<
            (Option<Seq<char>>, Seq<char>),
            GitErrorV,
        >(GitErrorV::AmbiguousReference(name)),
        selected_reference(Some(name), false, advertised) == Err::<
            (Option<Seq<char>>, Seq<char>),
            GitErrorV,
        >(GitErrorV::InvalidReference(name)),
{
    lemma_short_name(name);
    lemma_listed(advertised.refs, "refs/heads/"@ + name);
    lemma_listed(advertised.refs, "refs/tags/"@ + name);
}

/// Without a name the default branch is selected, which a remote lists under its full name; a
/// remote that names none is refused.
pub proof fn default_branches_are_selected(
    requested: Option<Seq<char>>,
    valid: bool,
    advertised: AdvertisedV,
    object: Seq<char>,
)
    requires
        requested matches Some(name) ==> name.len() == 0,
    ensures
        advertised.default_branch is None ==> selected_reference(requested, valid, advertised)
            == Err::<(Option<Seq<char>>, Seq<char>), GitErrorV>(GitErrorV::MissingDefaultBranch),
        advertised.default_branch matches Some(branch) ==> (lists(
            advertised.refs,
            branch,
            object,
        ) && lacks(advertised.refs, branch + "^{}"@) ==> selected_reference(
            requested,
            valid,
            advertised,
        ) == Ok::<(Option<Seq<char>>, Seq<char>), GitErrorV>((Some(branch), object))),
        advertised.default_branch matches Some(branch) ==> (lacks(advertised.refs, branch)
            ==> selected_reference(requested, valid, advertised) == Err::<
            (Option<Seq<char>>, Seq<char>),
            GitErrorV,
        >(GitErrorV::ReferenceNotFound(branch))),
{
    match requested {
        Some(name) => {
            assert(name =~= Seq::<char>::empty());
            assert(trimmed(name) =~= name);
        },
        None => {},
    }
    match advertised.default_branch {
        Some(branch) => {
            lemma_listed(advertised.refs, branch);
            lemma_listed(advertised.refs, branch + "^{}"@);
        },
        None => {},
    }
}

/// A reference that is written in full is selected as it stands.
pub proof fn full_names_are_selected_as_written(
    rest: Seq<char>,
    advertised: AdvertisedV,
    object: Seq<char>,
)
    requires
        rest.len() > 0,
        !text::is_white_space(rest.last()),
        lists(advertised.refs, "refs/"@ + rest, object),
        lacks(advertised.refs, "refs/"@ + rest + "^{}"@),
    ensures
        selected_reference(Some("refs/"@ + rest), true, advertised) == Ok::<
            (Option<Seq<char>>, Seq<char>),
            GitErrorV,
        >((Some("refs/"@ + rest), object)),
{
    reveal_strlit("refs/");
    let name = "refs/"@ + rest;
    assert(name[0] == 'r' && name.last() == rest.last());
    lemma_tight(name);
    assert(!is_hex(name)) by {
        assert(!text::is_hex_digit(name[0]));
    }
    assert(name.take(5) =~= "refs/"@);
    lemma_listed(advertised.refs, name);
    lemma_listed(advertised.refs, name + "^{}"@);
}

/// The name of an object selects that object, whatever a remote lists, and needs no reference.
pub proof fn object_names_select_themselves(
    name: Seq<char>,
    valid: bool,
    advertised: AdvertisedV,
)
    requires
        name.len() == 40,
        forall|i: int|
            0 <= i < name.len() ==> {
                let c = #[trigger] name[i];
                ('0' <= c && c <= '9') || ('a' <= c && c <= 'f')
            },
    ensures
        selected_reference(Some(name), valid, advertised) == Ok::<
            (Option<Seq<char>>, Seq<char>),
            GitErrorV,
        >((None, name)),
{
    assert(name.len() > 0 && !text::is_white_space(name[0]) && !text::is_white_space(name.last())) by {
        assert(name[0] == name[0] && name[39] == name.last());
    }
    lemma_tight(name);
    assert(is_hex(name)) by {
        assert forall|i: int| 0 <= i < name.len() implies text::is_hex_digit(#[trigger] name[i]) by {}
    }
    assert(lowered(name) =~= name);
}

/// The line tells the object of a reference.
pub open spec fn tells(line: Seq<char>, name: Seq<char>, digits: Seq<char>) -> bool {
    &&& digits.len() == 40 && is_hex(digits)
    &&& line == digits + seq!['\t'] + name
}

/// A line tells the reference and its object.
pub open spec fn is_told(lines: Seq<Seq<char>>, reference: (Seq<char>, Seq<char>)) -> bool {
    exists|i: int, digits: Seq<char>|
        0 <= i < lines.len() && #[trigger] tells(lines[i], reference.0, digits) && reference.1
            == lowered(digits)
}

/// Each reference that a line of a remote tells of is known, with its object in lower case;
/// nothing else is.
pub proof fn told_references_are_known(lines: Seq<Seq<char>>)
    requires
        advertise_lines(lines) is Ok,
    ensures
        forall|i: int, name: Seq<char>, digits: Seq<char>|
            0 <= i < lines.len() && #[trigger] tells(lines[i], name, digits) ==> advertise_lines(
                lines,
            )->Ok_0.refs.contains((name, lowered(digits))),
        forall|k: int|
            0 <= k < advertise_lines(lines)->Ok_0.refs.len() ==> is_told(
                lines,
                #[trigger] advertise_lines(lines)->Ok_0.refs[k],
            ),
    decreases lines.len(),
{
    let all = advertise_lines(lines)->Ok_0.refs;
    if lines.len() > 0 {
        let t = lines.drop_last();
        let n = lines.len() - 1;
        let line = lines.last();
        assert(lines[n] == line);
        assert(advertise_lines(t) is Ok);
        told_references_are_known(t);
        let rest = advertise_lines(t)->Ok_0.refs;
        lemma_told_line(advertise_lines(t)->Ok_0, line);
        assert forall|i: int, name: Seq<char>, digits: Seq<char>|
            0 <= i < lines.len() && #[trigger] tells(
                lines[i],
                name,
                digits,
            ) implies all.contains((name, lowered(digits))) by {
            if i < n {
                assert(tells(t[i], name, digits));
                let k = choose|k: int| 0 <= k < rest.len() && rest[k] == (name, lowered(digits));
                assert(all[k] == (name, lowered(digits)));
            } else {
                assert(tells(line, name, digits));
                assert(all[rest.len() as int] == (name, lowered(digits)));
            }
        }
        assert forall|k: int| 0 <= k < all.len() implies is_told(lines, #[trigger] all[k]) by {
            if k < rest.len() {
                assert(rest[k] == all[k]);
                assert(is_told(t, rest[k]));
                let (i, digits) = choose|i: int, digits: Seq<char>|
                    0 <= i < t.len() && #[trigger] tells(t[i], rest[k].0, digits) && rest[k].1
                        == lowered(digits);
                assert(t[i] == lines[i]);
                assert(tells(lines[i], all[k].0, digits));
            } else {
                let digits = choose|digits: Seq<char>| #[trigger]
                    tells(line, all[k].0, digits) && all[k].1 == lowered(digits);
                assert(tells(lines[n], all[k].0, digits));
            }
        }
    }
}

proof fn lemma_told_line(before: AdvertisedV, line: Seq<char>)
    requires
        advertise_line(before, line) is Ok,
    ensures
        forall|name: Seq<char>, digits: Seq<char>| #[trigger]
            tells(line, name, digits) ==> advertise_line(before, line)->Ok_0.refs
                == before.refs.push((name, lowered(digits))),
        advertise_line(before, line)->Ok_0.refs == before.refs || exists|
            name: Seq<char>,
            digits: Seq<char>,
        | #[trigger]
            tells(line, name, digits) && advertise_line(before, line)->Ok_0.refs
                == before.refs.push((name, lowered(digits))),
{
    let after = advertise_line(before, line)->Ok_0.refs;
    assert forall|name: Seq<char>, digits: Seq<char>| #[trigger]
        tells(line, name, digits) implies after == before.refs.push((name, lowered(digits))) by {
        assert(!digits.contains('\t')) by {
            if digits.contains('\t') {
                let i = choose|i: int| 0 <= i < digits.len() && digits[i] == '\t';
                assert(text::is_hex_digit(digits[i]));
            }
        }
        text::texts_are_cut_at_the_first_occurrence(digits, '\t', name);
        reveal_strlit("ref: ");
        assert(!has_prefix(digits, "ref: "@)) by {
            if has_prefix(digits, "ref: "@) {
                assert(digits[0] == digits.take(5)[0]);
                assert(text::is_hex_digit(digits[0]));
            }
        }
    }
    if let Some((value, name)) = cut_at(line, '\t') {
        lemma_cut(line, '\t');
        if after != before.refs {
            assert(tells(line, name, value));
        }
    }
}

proof fn lemma_cut(s: Seq<char>, c: char)
    ensures
        cut_at(s, c) matches Some((a, b)) ==> s == a + seq![c] + b,
    decreases s.len(),
{
    if s.len() > 0 {
        let t = s.drop_last();
        lemma_cut(t, c);
        lemma_first_place(t, c);
        if first_at(t, c) >= 0 {
            let i = first_at(t, c);
            assert(s[i] == t[i]);
            assert(s =~= s.take(i) + seq![c] + s.skip(i + 1));
        } else if s.last() == c {
            let i = s.len() - 1;
            assert(s =~= s.take(i) + seq![c] + s.skip(i + 1));
        }
    }
}

/// The default branch is the one that the last line of its kind names.
pub proof fn default_branches_are_told(
    lines: Seq<Seq<char>>,
    branch: Seq<char>,
    others: Seq<Seq<char>>,
)
    requires
        !branch.contains('\t'),
        advertise_lines(lines.push("ref: "@ + branch + seq!['\t'] + "HEAD"@) + others) is Ok,
        forall|i: int|
            0 <= i < others.len() ==> match cut_at(#[trigger] others[i], '\t') {
                Some((_, name)) => name != "HEAD"@,
                None => true,
            },
    ensures
        advertise_lines(
            lines.push("ref: "@ + branch + seq!['\t'] + "HEAD"@) + others,
        )->Ok_0.default_branch == Some(branch),
    decreases others.len(),
{
    let line = "ref: "@ + branch + seq!['\t'] + "HEAD"@;
    let all = lines.push(line) + others;
    reveal_strlit("ref: ");
    if others.len() == 0 {
        assert(all =~= lines.push(line));
        assert(all.drop_last() =~= lines);
        let value = "ref: "@ + branch;
        assert(!value.contains('\t')) by {
            if value.contains('\t') {
                let i = choose|i: int| 0 <= i < value.len() && value[i] == '\t';
                if i >= 5 {
                    assert(branch[i - 5] == '\t');
                }
            }
        }
        text::texts_are_cut_at_the_first_occurrence(value, '\t', "HEAD"@);
        assert(value.take(5) =~= "ref: "@);
        assert(value.skip(5) =~= branch);
    } else {
        let fewer = others.drop_last();
        assert(all.drop_last() =~= lines.push(line) + fewer);
        assert(all.last() == others[others.len() - 1]);
        assert forall|i: int| 0 <= i < fewer.len() implies match cut_at(
            #[trigger] fewer[i],
            '\t',
        ) {
            Some((_, name)) => name != "HEAD"@,
            None => true,
        } by {
            assert(fewer[i] == others[i]);
        }
        default_branches_are_told(lines, branch, fewer);
    }
}

/// A remote of a known host that names no host is the same as one that names that host.
pub proof fn known_hosts_are_the_default(remote: RemoteV)
    requires
        remote.host is None,
    ensures
        remote.source is GitHub ==> remote_url(remote) == remote_url(
            RemoteV { host: Some("github.com"@), ..remote },
        ),
        remote.source is GitLab ==> remote_url(remote) == remote_url(
            RemoteV { host: Some("gitlab.com"@), ..remote },
        ),
        remote.source is Bitbucket ==> remote_url(remote) == remote_url(
            RemoteV { host: Some("bitbucket.org"@), ..remote },
        ),
{
}

/// The address of a hosted repository stands below its host: the owner, then the name, which
/// ends in `.git` whether or not the remote spells it so.
pub proof fn hosted_repositories_stand_below_their_owner(
    host: Seq<char>,
    owner: Seq<char>,
    name: Seq<char>,
    url: Seq<char>,
)
    requires
        !name.contains('/'),
        !has_suffix_git(name),
        hosted_url(host, owner, name) == Ok::<Seq<char>, GitErrorV>(url),
    ensures
        extended_url("https://"@ + host, seq![owner, name + ".git"@]) == Some(url),
        hosted_url(host, owner, name + ".git"@) == Ok::<Seq<char>, GitErrorV>(url),
{
    reveal_strlit(".git");
    reveal_with_fuel(without_suffixes, 2);
    assert(without_suffixes(name, ".git"@) == name);
    let whole = name + ".git"@;
    assert(whole.skip(whole.len() - 4) =~= ".git"@);
    assert(whole.take(whole.len() - 4) =~= name);
    assert(without_suffixes(whole, ".git"@) == name);
    assert forall|i: int| 0 <= i < name.len() implies !set!['/'].contains(#[trigger] name[i]) by {
        assert(name.contains(name[i]));
    }
    text::splitting_takes_apart(Seq::empty(), set!['/'], '/', name);
    let segments = hosted_segments(owner, name);
    assert(segments =~= seq![owner, name]);
    assert(with_git_suffix(segments) =~= seq![owner, name + ".git"@]);
    assert(!has_blank(whole)) by {
        assert forall|i: int| 0 <= i < whole.len() implies !(text::is_control(#[trigger] whole[i])
            || text::is_white_space(whole[i])) by {
            if i < name.len() {
                assert(whole[i] == name[i]);
            } else {
                assert(whole[i] == ".git"@[i - name.len()]);
            }
        }
    }
}

/// The name ends in `.git`.
pub open spec fn has_suffix_git(name: Seq<char>) -> bool {
    text::has_suffix(name, ".git"@)
}

/// Only addresses of the schemes `https` and `ssh` are taken, without secrets, those of `ssh`
/// with a user; they are taken as the address spells itself.
pub proof fn addresses_are_taken_without_secrets(value: Seq<char>, parts: UrlPartsV)
    requires
        trimmed(value) == value,
        occurs(value, "://"@),
        url_parts(value) == Some(parts),
    ensures
        generic_url(value) matches Ok(url) ==> {
            &&& url == parts.serialization
            &&& parts.scheme == "https"@ || parts.scheme == "ssh"@
            &&& parts.password is None
            &&& parts.scheme == "https"@ ==> parts.username.len() == 0
            &&& parts.scheme == "ssh"@ ==> parts.username.len() > 0
            &&& parts.host is Some && parts.query is None && parts.fragment is None
        },
        !has_blank(value) && value.len() > 0 && is_changeable(parts) && parts.host is Some
            && parts.query is None && parts.fragment is None && parts.password is None && (exists|
            i: int,
        |
            0 <= i < parts.path.len() && #[trigger] parts.path[i] != '/') && ((parts.scheme
            == "https"@ && parts.username.len() == 0) || (parts.scheme == "ssh"@
            && parts.username.len() > 0)) ==> generic_url(value) is Ok,
{
    reveal_strlit("https");
    reveal_strlit("ssh");
    if exists|i: int| 0 <= i < parts.path.len() && #[trigger] parts.path[i] != '/' {
        let i = choose|i: int| 0 <= i < parts.path.len() && #[trigger] parts.path[i] != '/';
        assert(!only_slashes(parts.path));
        assert("https"@.len() == 5 && "ssh"@.len() == 3);
        assert(!(parts.scheme == "https"@ && parts.scheme == "ssh"@));
    }
}

/// A name that is no object name is looked for among the branches and among the tags; a full
/// name is looked for as it is.
pub proof fn names_are_looked_for(name: Seq<char>)
    requires
        trimmed(name) == name,
        name.len() > 0,
    ensures
        is_hex(name) && (name.len() == 40 || name.len() == 64) <==> names_to_check_of(
            Some(name),
        ).len() == 0,
        !(is_hex(name) && (name.len() == 40 || name.len() == 64)) && has_prefix(name, "refs/"@)
            ==> names_to_check_of(Some(name)) == seq![name],
        !(is_hex(name) && (name.len() == 40 || name.len() == 64)) && !has_prefix(name, "refs/"@)
            ==> names_to_check_of(Some(name)) == seq!["refs/heads/"@ + name, "refs/tags/"@ + name],
        names_to_check_of(None).len() == 0,
{
}

/// A short object name is completed with zeros, in lower case: it keeps its digits and has
/// forty of them. One that has all of them is only put in lower case.
pub proof fn short_object_names_are_completed(s: Seq<char>, i: int)
    requires
        is_short_oid(s),
    ensures
        is_oid(full_oid(s)),
        full_oid(s).take(s.len() as int) == lowered(s),
        s.len() <= i < 40 ==> full_oid(s)[i] == '0',
        is_oid(s) ==> full_oid(s) == lowered(s),
{
    let full = full_oid(s);
    assert(lowered(s).len() == s.len());
    assert(full.take(s.len() as int) =~= lowered(s));
    assert forall|k: int| 0 <= k < full.len() implies text::is_hex_digit(#[trigger] full[k]) by {
        if k < s.len() {
            assert(full[k] == text::lower(s[k]));
            assert(text::is_hex_digit(s[k]));
        }
    }
    if is_oid(s) {
        assert(full =~= lowered(s));
    }
}

/// Databases and checkouts lie apart in the cache, each below the key of its remote; checkouts
/// of different commits lie apart too.
pub proof fn checkouts_lie_apart(a: Seq<char>, b: Seq<char>, c: Seq<char>, d: Seq<char>)
    ensures
        git_place(seq!["checkouts"@, a, c]) == git_place(seq!["checkouts"@, b, d]) ==> a == b && c
            == d,
        git_place(seq!["db"@, a]) == git_place(seq!["db"@, b]) ==> a == b,
        git_place(seq!["db"@, a]).base == crate::location::Base::Cache,
        git_place(seq!["db"@, a]).parts == seq!["git"@, "db"@, a],
{
    let x = git_place(seq!["checkouts"@, a, c]).parts;
    let y = git_place(seq!["checkouts"@, b, d]).parts;
    assert(x[2] == a && x[3] == c && y[2] == b && y[3] == d);
    let u = git_place(seq!["db"@, a]).parts;
    let w = git_place(seq!["db"@, b]).parts;
    assert(u[2] == a && w[2] == b);
    assert(u =~= seq!["git"@, "db"@, a]);
}

/// A commit that is there is not fetched. One that is not is looked for by its reference, if
/// it has one, then by itself, then among all branches and tags; only then is it unavailable.
pub proof fn commits_are_looked_for_in_turn(source: Seq<char>, commit: Seq<char>, stage: FetchStage)
    ensures
        next_fetch_of(stage, true, Some(source), commit) == FetchActionV::Done,
        next_fetch_of(stage, true, None, commit) == FetchActionV::Done,
        next_fetch_of(FetchStage::Start, false, Some(source), commit) matches FetchActionV::Fetch(
            specs,
            next,
            required,
        ) && specs == seq!["+"@ + source + ":refs/rpx/source"@] && next == FetchStage::Reference
            && !required,
        next_fetch_of(FetchStage::Reference, false, Some(source), commit)
            == next_fetch_of(FetchStage::Start, false, None, commit),
        next_fetch_of(FetchStage::Start, false, None, commit) matches FetchActionV::Fetch(
            specs,
            next,
            required,
        ) && specs == seq!["+"@ + commit + ":refs/rpx/commit"@] && next == FetchStage::Commit
            && !required,
        next_fetch_of(FetchStage::Commit, false, Some(source), commit) matches FetchActionV::Fetch(
            specs,
            next,
            required,
        ) && specs.len() == 2 && next == FetchStage::Everything && required,
        next_fetch_of(FetchStage::Everything, false, Some(source), commit)
            == FetchActionV::Unavailable,
        next_fetch_of(FetchStage::Everything, false, None, commit) == FetchActionV::Unavailable,
{
}

/// A checkout that is there is used. One that is not is first prepared, then replaced, then
/// looked for again in case another process has made it; only then has it failed.
pub proof fn checkouts_are_made_in_turn(stage: CheckoutStage, ok: bool, r: CheckoutAction)
    requires
        call_ensures(next_checkout, (stage, ok), r),
    ensures
        r == CheckoutAction::Done <==> ok,
        r == CheckoutAction::Fail <==> !ok && stage == CheckoutStage::Confirm,
        r == CheckoutAction::Prepare <==> !ok && stage == CheckoutStage::Probe,
        r == CheckoutAction::Replace <==> !ok && stage == CheckoutStage::Recheck,
        r == CheckoutAction::Confirm <==> !ok && stage == CheckoutStage::Publish,
{
}

/// An identity is taken from the configuration only if both of its values could be asked for;
/// then each of them is the one that was found.
pub proof fn identities_are_those_of_the_configuration(
    name: ConfigValue,
    email: ConfigValue,
    r: Identity,
)
    requires
        call_ensures(configured_identity, (name, email), r),
    ensures
        name is Failed || email is Failed ==> r.name is None && r.email is None,
        !(name is Failed) && !(email is Failed) ==> (r.name is Some <==> name is Found) && (
        r.email is Some <==> email is Found),
        r.name matches Some(found) ==> name == ConfigValue::Found(found),
        r.email matches Some(found) ==> email == ConfigValue::Found(found),
{
}

/// A value of the configuration is what was printed, without the white space around it, where
/// asking for it succeeded and anything was printed; that there is none is told apart from
/// that it could not be asked for.
pub proof fn configuration_values_are_what_is_printed(
    code: Option<i32>,
    stdout: &Vec<u8>,
    r: ConfigValue,
)
    requires
        call_ensures(config_value, (code, stdout), r),
    ensures
        r matches ConfigValue::Found(value) ==> code == Some(0i32) && value@ == trimmed(
            written_text(stdout@),
        ) && value@.len() > 0,
        code == Some(0i32) && trimmed(written_text(stdout@)).len() > 0 ==> r is Found,
        code == Some(1i32) ==> r is Missing,
        code is None ==> r is Failed,
{
}

/// A checkout is valid only if it is at the commit and nothing in it was changed.
pub proof fn valid_checkouts_are_at_the_commit(
    head: &Vec<u8>,
    status: &Vec<u8>,
    commit: &GitOid,
    r: bool,
)
    requires
        call_ensures(valid_checkout, (Some(head), Some(status), commit), r),
    ensures
        r ==> trimmed(written_text(head@)) == commit@,
        r ==> status@.len() == 0,
        trimmed(written_text(head@)) == commit@ && status@.len() == 0 ==> r,
{
}

} // verus!
