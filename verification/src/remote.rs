//! Entries of the `Remotes` field.
use crate::text;
use crate::text::opt_text;
use r_metadata::RemoteSource as Source;
use std::str::FromStr;
use vstd::prelude::*;

verus! {

/// Where a remote points to.
#[derive(Debug)]
pub enum RemoteKind {
    GitHub,
    GitLab,
    Bitbucket,
    Git,
    Unspecified,
    Cran,
    Url,
    Local,
    Svn,
    Bioconductor,
    Unknown(String),
}

/// The owner, the repository, the subdirectory and the reference of a repository at a host.
pub type HostedPartsV = (Seq<char>, Seq<char>, Option<Seq<char>>, Option<Seq<char>>);

/// Where a remote points to, with the parts of a Git repository and the name of an unknown
/// kind.
pub enum RemoteKindV {
    GitHub(HostedPartsV),
    GitLab(HostedPartsV),
    Bitbucket(HostedPartsV),
    Git((Seq<char>, Option<Seq<char>>)),
    Unspecified,
    Cran,
    Url,
    Local,
    Svn,
    Bioconductor,
    Unknown(Seq<char>),
}

/// What a text spells: its canonical spelling, the alias, the host and where it points to.
pub struct ParsedRemoteV {
    pub text: Seq<char>,
    pub package: Option<Seq<char>>,
    pub host: Option<Seq<char>>,
    pub kind: RemoteKindV,
}

/// What `r_metadata::Remote::from_str` makes of a text, or the message of its error.
pub uninterp spec fn parsed_remote(text: Seq<char>) -> Result<ParsedRemoteV, Seq<char>>;

impl RemoteKind {
    /// The kind is that of a remote.
    pub open spec fn is_of(&self, kind: RemoteKindV) -> bool {
        match self {
            RemoteKind::GitHub => kind is GitHub,
            RemoteKind::GitLab => kind is GitLab,
            RemoteKind::Bitbucket => kind is Bitbucket,
            RemoteKind::Git => kind is Git,
            RemoteKind::Unspecified => kind is Unspecified,
            RemoteKind::Cran => kind is Cran,
            RemoteKind::Url => kind is Url,
            RemoteKind::Local => kind is Local,
            RemoteKind::Svn => kind is Svn,
            RemoteKind::Bioconductor => kind is Bioconductor,
            RemoteKind::Unknown(name) => kind == RemoteKindV::Unknown(name@),
        }
    }
}

/// The parts of a repository at a host, if the remote is one.
pub open spec fn hosted_parts(remote: Result<ParsedRemoteV, Seq<char>>) -> Option<HostedPartsV> {
    match remote {
        Ok(remote) => match remote.kind {
            RemoteKindV::GitHub(parts) => Some(parts),
            RemoteKindV::GitLab(parts) => Some(parts),
            RemoteKindV::Bitbucket(parts) => Some(parts),
            _ => None,
        },
        Err(_) => None,
    }
}

/// The URL and the reference of a generic Git repository, if the remote is one.
pub open spec fn generic_parts(remote: Result<ParsedRemoteV, Seq<char>>) -> Option<
    (Seq<char>, Option<Seq<char>>),
> {
    match remote {
        Ok(remote) => match remote.kind {
            RemoteKindV::Git(parts) => Some(parts),
            _ => None,
        },
        Err(_) => None,
    }
}

struct RemoteHead {
    text: String,
    package: Option<String>,
    host: Option<String>,
    kind: RemoteKind,
}

/// `r_metadata::Remote::from_str` with the spelling, the alias, the host and the kind of
/// what it returns.
#[verifier::external_body]
fn parse_head(text: &str) -> (r: Result<RemoteHead, String>)
    ensures
        match r {
            Ok(head) => parsed_remote(text@) matches Ok(remote) && head.text@ == remote.text
                && opt_text(head.package) == remote.package && opt_text(head.host) == remote.host
                && head.kind.is_of(remote.kind),
            Err(message) => parsed_remote(text@) == Err::<ParsedRemoteV, Seq<char>>(message@),
        },
{
    let remote = r_metadata::Remote::from_str(text).map_err(|error| error.to_string())?;
    let kind = match &remote.source {
        Source::GitHub(_) => RemoteKind::GitHub,
        Source::GitLab(_) => RemoteKind::GitLab,
        Source::Bitbucket(_) => RemoteKind::Bitbucket,
        Source::Git(_) => RemoteKind::Git,
        Source::Unspecified(_) => RemoteKind::Unspecified,
        Source::Cran(_) => RemoteKind::Cran,
        Source::Url(_) => RemoteKind::Url,
        Source::Local(_) => RemoteKind::Local,
        Source::Svn(_) => RemoteKind::Svn,
        Source::Bioconductor(_) => RemoteKind::Bioconductor,
        Source::Unknown(unknown) => RemoteKind::Unknown(unknown.kind.clone()),
    };
    Ok(RemoteHead { text: remote.to_string(), package: remote.package, host: remote.host, kind })
}

/// `r_metadata::Remote::from_str` with the parts of a source at GitHub, GitLab or Bitbucket.
#[verifier::external_body]
fn parse_hosted(text: &str) -> (r: Option<HostedGitRemote>)
    ensures
        match r {
            Some(hosted) => hosted_parts(parsed_remote(text@)) == Some(hosted@),
            None => hosted_parts(parsed_remote(text@)) is None,
        },
{
    match r_metadata::Remote::from_str(text).ok()?.source {
        Source::GitHub(h) | Source::GitLab(h) | Source::Bitbucket(h) => Some(HostedGitRemote {
            owner: h.owner,
            repository: h.repository,
            subdirectory: h.subdirectory,
            reference: h.reference,
        }),
        _ => None,
    }
}

/// `r_metadata::Remote::from_str` with the parts of a generic Git source.
#[verifier::external_body]
fn parse_generic(text: &str) -> (r: Option<(String, Option<String>)>)
    ensures
        match r {
            Some((url, reference)) => generic_parts(parsed_remote(text@)) == Some(
                (url@, opt_text(reference)),
            ),
            None => generic_parts(parsed_remote(text@)) is None,
        },
{
    match r_metadata::Remote::from_str(text).ok()?.source {
        Source::Git(source) => Some((source.url, source.reference)),
        _ => None,
    }
}

/// A repository at a host.
#[derive(Debug)]
pub struct HostedGitRemote {
    pub owner: String,
    pub repository: String,
    pub subdirectory: Option<String>,
    pub reference: Option<String>,
}

impl HostedGitRemote {
    /// The parts, as characters.
    pub open spec fn view(&self) -> HostedPartsV {
        (self.owner@, self.repository@, opt_text(self.subdirectory), opt_text(self.reference))
    }
}

/// The source of a remote; a source that is no Git repository is known by its kind.
#[derive(Debug)]
pub enum RemoteSource {
    GitHub(HostedGitRemote),
    GitLab(HostedGitRemote),
    Bitbucket(HostedGitRemote),
    Git { url: String, reference: Option<String> },
    Other(String),
}

/// The source of a remote.
pub enum RemoteSourceV {
    GitHub(HostedPartsV),
    GitLab(HostedPartsV),
    Bitbucket(HostedPartsV),
    Git((Seq<char>, Option<Seq<char>>)),
    Other(Seq<char>),
}

impl RemoteSource {
    /// The source, as characters.
    pub open spec fn view(&self) -> RemoteSourceV {
        match self {
            RemoteSource::GitHub(hosted) => RemoteSourceV::GitHub(hosted@),
            RemoteSource::GitLab(hosted) => RemoteSourceV::GitLab(hosted@),
            RemoteSource::Bitbucket(hosted) => RemoteSourceV::Bitbucket(hosted@),
            RemoteSource::Git { url, reference } => RemoteSourceV::Git(
                (url@, opt_text(*reference)),
            ),
            RemoteSource::Other(kind) => RemoteSourceV::Other(kind@),
        }
    }
}

/// A remote as its spelling, its alias, its host and its source.
pub struct RemoteV {
    pub text: Seq<char>,
    pub package: Option<Seq<char>>,
    pub host: Option<Seq<char>>,
    pub source: RemoteSourceV,
}

/// An entry of the `Remotes` field.
#[derive(Debug)]
pub struct Remote {
    pub text: String,
    pub package: Option<String>,
    pub host: Option<String>,
    pub source: RemoteSource,
}

/// The source of a remote; a kind that is no Git repository is known by its name.
pub open spec fn source_of(kind: RemoteKindV) -> RemoteSourceV {
    match kind {
        RemoteKindV::GitHub(parts) => RemoteSourceV::GitHub(parts),
        RemoteKindV::GitLab(parts) => RemoteSourceV::GitLab(parts),
        RemoteKindV::Bitbucket(parts) => RemoteSourceV::Bitbucket(parts),
        RemoteKindV::Git(parts) => RemoteSourceV::Git(parts),
        RemoteKindV::Unspecified => RemoteSourceV::Other("unspecified"@),
        RemoteKindV::Cran => RemoteSourceV::Other("cran"@),
        RemoteKindV::Url => RemoteSourceV::Other("url"@),
        RemoteKindV::Local => RemoteSourceV::Other("local"@),
        RemoteKindV::Svn => RemoteSourceV::Other("svn"@),
        RemoteKindV::Bioconductor => RemoteSourceV::Other("bioconductor"@),
        RemoteKindV::Unknown(name) => RemoteSourceV::Other(name),
    }
}

/// The remote that a text spells.
pub open spec fn remote_of(text: Seq<char>) -> Result<RemoteV, Seq<char>> {
    match parsed_remote(text) {
        Ok(remote) => Ok(
            RemoteV {
                text: remote.text,
                package: remote.package,
                host: remote.host,
                source: source_of(remote.kind),
            },
        ),
        Err(message) => Err(message),
    }
}

impl Remote {
    /// The remote, as characters.
    pub open spec fn view(&self) -> RemoteV {
        RemoteV {
            text: self.text@,
            package: opt_text(self.package),
            host: opt_text(self.host),
            source: self.source@,
        }
    }

    /// Reads a remote.
    pub fn parse(text: &str) -> (r: Result<Remote, String>)
        ensures
            match r {
                Ok(remote) => remote_of(text@) == Ok::<RemoteV, Seq<char>>(remote@),
                Err(message) => remote_of(text@) == Err::<RemoteV, Seq<char>>(message@),
            },
    {
        let head = match parse_head(text) {
            Ok(head) => head,
            Err(message) => {
                return Err(message);
            },
        };
        let hosted = parse_hosted(text);
        let generic = parse_generic(text);
        let source = match (head.kind, hosted, generic) {
            (RemoteKind::GitHub, Some(hosted), _) => RemoteSource::GitHub(hosted),
            (RemoteKind::GitLab, Some(hosted), _) => RemoteSource::GitLab(hosted),
            (RemoteKind::Bitbucket, Some(hosted), _) => RemoteSource::Bitbucket(hosted),
            (RemoteKind::Git, _, Some((url, reference))) => RemoteSource::Git { url, reference },
            (RemoteKind::Unspecified, _, _) => RemoteSource::Other("unspecified".to_owned()),
            (RemoteKind::Cran, _, _) => RemoteSource::Other("cran".to_owned()),
            (RemoteKind::Url, _, _) => RemoteSource::Other("url".to_owned()),
            (RemoteKind::Local, _, _) => RemoteSource::Other("local".to_owned()),
            (RemoteKind::Svn, _, _) => RemoteSource::Other("svn".to_owned()),
            (RemoteKind::Bioconductor, _, _) => RemoteSource::Other("bioconductor".to_owned()),
            (RemoteKind::Unknown(kind), _, _) => RemoteSource::Other(kind),
            _ => RemoteSource::Other(String::new()),
        };
        Ok(Remote { text: head.text, package: head.package, host: head.host, source })
    }

    /// A copy.
    pub fn copy(&self) -> (r: Remote)
        ensures
            r@ == self@,
    {
        let source = match &self.source {
            RemoteSource::GitHub(hosted) => RemoteSource::GitHub(hosted.copy()),
            RemoteSource::GitLab(hosted) => RemoteSource::GitLab(hosted.copy()),
            RemoteSource::Bitbucket(hosted) => RemoteSource::Bitbucket(hosted.copy()),
            RemoteSource::Git { url, reference } => RemoteSource::Git {
                url: url.clone(),
                reference: text::copy_opt(reference),
            },
            RemoteSource::Other(kind) => RemoteSource::Other(kind.clone()),
        };
        Remote {
            text: self.text.clone(),
            package: text::copy_opt(&self.package),
            host: text::copy_opt(&self.host),
            source,
        }
    }
}

impl HostedGitRemote {
    fn copy(&self) -> (r: HostedGitRemote)
        ensures
            r@ == self@,
    {
        HostedGitRemote {
            owner: self.owner.clone(),
            repository: self.repository.clone(),
            subdirectory: text::copy_opt(&self.subdirectory),
            reference: text::copy_opt(&self.reference),
        }
    }
}

/// A remote is read as it is spelled: with its alias and its host, and pointing to where its
/// kind says.
pub proof fn remotes_are_read_as_spelled(text: Seq<char>, parsed: ParsedRemoteV)
    requires
        parsed_remote(text) == Ok::<ParsedRemoteV, Seq<char>>(parsed),
    ensures
        remote_of(text) matches Ok(remote) && {
            &&& remote.text == parsed.text
            &&& remote.package == parsed.package
            &&& remote.host == parsed.host
            &&& parsed.kind matches RemoteKindV::GitHub(parts) ==> remote.source
                == RemoteSourceV::GitHub(parts)
            &&& parsed.kind matches RemoteKindV::GitLab(parts) ==> remote.source
                == RemoteSourceV::GitLab(parts)
            &&& parsed.kind matches RemoteKindV::Bitbucket(parts) ==> remote.source
                == RemoteSourceV::Bitbucket(parts)
            &&& parsed.kind matches RemoteKindV::Git(parts) ==> remote.source
                == RemoteSourceV::Git(parts)
            &&& remote.source is Other <==> !(parsed.kind is GitHub || parsed.kind is GitLab
                || parsed.kind is Bitbucket || parsed.kind is Git)
        },
{
}

} // verus!
