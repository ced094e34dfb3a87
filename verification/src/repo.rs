//! Changes of the repositories of a project.
use crate::cli::RepositoryType;
use crate::description::{
    add_additional_repository, add_remote_repository, additional_repositories,
    base_repository, edited, listed_base, listed_remotes,
    listed_repositories, others, positioned, remote_issues, remote_texts, remotes,
    remotes_outcome, remove_additional_repository, remove_remote_repository,
    repositories_outcome, reset_base_repository, set_base_repository, Description,
    DescriptionParseError, ErrorV, IssueV, RepositoryMutationError, BASE_REPOSITORY_FIELD,
};
use crate::document::{additional_repositories_of, field_removed, field_set, fits};
use crate::remote::{remote_of, Remote, RemoteV};
use crate::repository::{
    built_in_repository_url, built_in_url, parse_repository_url, repository_url_of,
};
use crate::text;
use crate::text::{opt_text, texts, trimmed};
use vstd::prelude::*;

verus! {

/// Why the repositories of a project cannot be changed or listed.
#[derive(Debug)]
pub enum RepoError {
    DescriptionParse(DescriptionParseError),
    BaseMutation { message: String },
    RepositoryMutation(RepositoryMutationError),
    RemoteParse { remote: String, message: String },
    RepositoryUrl { action: &'static str, url: String },
}

/// What became of a change: whether the project has to be resolved and written again, whose
/// credential is removed after that, and what is said then.
#[derive(Debug)]
pub struct RepoChange {
    pub changed: bool,
    pub credential: Option<String>,
    pub messages: Vec<String>,
}

/// What became of a change.
pub struct RepoChangeV {
    pub changed: bool,
    pub credential: Option<Seq<char>>,
    pub messages: Seq<Seq<char>>,
}

impl RepoChange {
    /// The change, as characters.
    pub open spec fn view(&self) -> RepoChangeV {
        RepoChangeV {
            changed: self.changed,
            credential: opt_text(self.credential),
            messages: texts(self.messages@),
        }
    }
}

fn change(changed: bool, credential: Option<String>, message: String) -> (r: RepoChange)
    ensures
        r@ == (RepoChangeV {
            changed,
            credential: opt_text(credential),
            messages: seq![message@],
        }),
{
    let mut messages: Vec<String> = Vec::new();
    messages.push(message);
    assert(texts(messages@) =~= seq![message@]);
    RepoChange { changed, credential, messages }
}

/// The URL of a repository that is given for an action, or the given value without the white
/// space around it.
pub fn repository_url(action: &'static str, value: &str) -> (r: Result<String, RepoError>)
    ensures
        match r {
            Ok(url) => repository_url_of(value@) == Some(url@) && !url@.contains('\n'),
            Err(error) => repository_url_of(value@) is None && is_url_error(
                error,
                action@,
                value@,
            ),
        },
{
    match parse_repository_url(value) {
        Ok(url) => Ok(url),
        Err(url) => Err(RepoError::RepositoryUrl { action, url }),
    }
}

/// The error names the action and the value that is no URL of a repository.
pub open spec fn is_url_error(error: RepoError, action: Seq<char>, value: Seq<char>) -> bool {
    error matches RepoError::RepositoryUrl { action: named, url } && named@ == action && url@
        == trimmed(value)
}

/// The error tells the issues of the document.
pub open spec fn is_parse_error(
    error: RepoError,
    source_name: Seq<char>,
    document: Seq<char>,
    issues: Seq<IssueV>,
) -> bool {
    error matches RepoError::DescriptionParse(error) && error.wf() && error@ == (ErrorV {
        source_name,
        source_code: document,
        issues,
    })
}

/// What is said when the base repository is set.
pub open spec fn base_message(previous: Option<Seq<char>>, url: Seq<char>) -> Seq<char> {
    match previous {
        Some(previous) => if previous == url {
            "Base repository already configured: "@ + url
        } else {
            "Replaced base repository "@ + previous + " with "@ + url
        },
        None => "Set base repository "@ + url,
    }
}

/// Sets the base repository.
pub fn set_base(source_name: String, description: &mut Description, value: &str) -> (r: Result<
    RepoChange,
    RepoError,
>)
    requires
        fits(old(description)@),
    ensures
        r matches Ok(change) ==> !change.changed ==> *final(description) == *old(description),
        r is Err ==> *final(description) == *old(description),
        match repository_url_of(value@) {
            None => r is Err && is_url_error(r->Err_0, "base"@, value@),
            Some(url) => match listed_base(old(description)@) {
                Err(issues) => r is Err && is_parse_error(
                    r->Err_0,
                    source_name@,
                    old(description)@,
                    issues,
                ),
                Ok(previous) => if previous == Some(url) {
                    r is Ok && r->Ok_0@ == (RepoChangeV {
                        changed: false,
                        credential: None,
                        messages: seq![base_message(previous, url)],
                    })
                } else {
                    match edited(
                        old(description)@,
                        seq![BASE_REPOSITORY_FIELD@, url],
                        field_set(old(description)@, BASE_REPOSITORY_FIELD@, url),
                    ) {
                        Ok(output) => {
                            &&& final(description)@ == output
                            &&& r is Ok && r->Ok_0@ == (RepoChangeV {
                                changed: true,
                                credential: None,
                                messages: seq![base_message(previous, url)],
                            })
                        },
                        Err(message) => r matches Err(RepoError::BaseMutation { message: text })
                            && text@ == message,
                    }
                },
            },
        },
{
    let url = match repository_url("base", value) {
        Ok(url) => url,
        Err(error) => {
            return Err(error);
        },
    };
    let previous = match base_repository(source_name, description) {
        Ok(previous) => previous,
        Err(error) => {
            return Err(RepoError::DescriptionParse(error));
        },
    };
    let configured = match &previous {
        Some(previous) => text::same(previous.as_str(), url.as_str()),
        None => false,
    };
    if configured {
        let message = text::cat("Base repository already configured: ", url.as_str());
        return Ok(change(false, None, message));
    }
    match set_base_repository(description, url.as_str()) {
        Ok(_) => {},
        Err(message) => {
            return Err(RepoError::BaseMutation { message });
        },
    }
    let message = match previous {
        Some(previous) => text::cat4(
            "Replaced base repository ",
            previous.as_str(),
            " with ",
            url.as_str(),
        ),
        None => text::cat("Set base repository ", url.as_str()),
    };
    Ok(change(true, None, message))
}

/// Removes the base repository, and its credential if that is asked for.
pub fn reset_base(
    source_name: String,
    description: &mut Description,
    remove_credential: bool,
) -> (r: Result<RepoChange, RepoError>)
    requires
        fits(old(description)@),
    ensures
        match listed_base(old(description)@) {
            Err(issues) => {
                &&& *final(description) == *old(description)
                &&& r is Err && is_parse_error(
                    r->Err_0,
                    source_name@,
                    old(description)@,
                    issues,
                )
            },
            Ok(None) => {
                &&& *final(description) == *old(description)
                &&& r is Ok && r->Ok_0@ == (RepoChangeV {
                    changed: false,
                    credential: None,
                    messages: seq!["Base repository is already reset"@],
                })
            },
            Ok(Some(previous)) => {
                &&& field_removed(old(description)@, BASE_REPOSITORY_FIELD@) == Ok::<
                    Seq<char>,
                    Seq<char>,
                >(final(description)@)
                &&& r is Ok && r->Ok_0@ == (RepoChangeV {
                    changed: true,
                    credential: if remove_credential {
                        Some(previous)
                    } else {
                        None
                    },
                    messages: seq![
                        "Reset base repository from "@ + previous + " to "@ + built_in_url(),
                    ],
                })
            },
        },
{
    let previous = match base_repository(source_name, description) {
        Ok(Some(previous)) => previous,
        Ok(None) => {
            return Ok(change(false, None, "Base repository is already reset".to_owned()));
        },
        Err(error) => {
            return Err(RepoError::DescriptionParse(error));
        },
    };
    reset_base_repository(description);
    let effective = built_in_repository_url();
    let message = text::cat4(
        "Reset base repository from ",
        previous.as_str(),
        " to ",
        effective.as_str(),
    );
    let credential = if remove_credential {
        Some(previous)
    } else {
        None
    };
    Ok(change(true, credential, message))
}

/// The result of a change of the document, without what is said of it.
pub open spec fn bare_result(r: Result<RepoChange, RepoError>) -> Result<
    bool,
    RepositoryMutationError,
> {
    match r {
        Ok(change) => Ok(change.changed),
        Err(RepoError::RepositoryMutation(error)) => Err(error),
        Err(_) => arbitrary(),
    }
}

/// Adds an additional repository.
pub fn add_additional(
    source_name: String,
    description: &mut Description,
    value: &str,
) -> (r: Result<RepoChange, RepoError>)
    requires
        fits(old(description)@),
    ensures
        match repository_url_of(value@) {
            None => {
                &&& *final(description) == *old(description)
                &&& r is Err && is_url_error(r->Err_0, "additional"@, value@)
            },
            Some(url) => {
                &&& r is Err ==> r->Err_0 is RepositoryMutation
                &&& repositories_outcome(
                    source_name@,
                    old(description)@,
                    final(description)@,
                    if listed_repositories(old(description)@).contains(url) {
                        None
                    } else {
                        Some(listed_repositories(old(description)@).push(url))
                    },
                    bare_result(r),
                )
                &&& r matches Ok(change) ==> change@ == (RepoChangeV {
                    changed: change.changed,
                    credential: None,
                    messages: seq![
                        if change.changed {
                            "Added additional repository "@ + url
                        } else {
                            "Repository already configured: "@ + url
                        },
                    ],
                })
            },
        },
{
    let url = match repository_url("additional", value) {
        Ok(url) => url,
        Err(error) => {
            return Err(error);
        },
    };
    match add_additional_repository(source_name, description, url.clone()) {
        Err(error) => Err(RepoError::RepositoryMutation(error)),
        Ok(added) => if added {
            Ok(change(true, None, text::cat("Added additional repository ", url.as_str())))
        } else {
            Ok(change(false, None, text::cat("Repository already configured: ", url.as_str())))
        },
    }
}

/// What is said when an additional repository is removed.
pub open spec fn removal_messages(changed: bool, remove_credential: bool, url: Seq<char>) -> Seq<
    Seq<char>,
> {
    if changed {
        seq!["Removed additional repository "@ + url]
    } else if remove_credential {
        seq!["Removed stored credential for "@ + url, "Repository not configured: "@ + url]
    } else {
        seq!["Repository not configured: "@ + url]
    }
}

/// Removes an additional repository, and its credential if that is asked for, whether the
/// repository is configured or not.
pub fn remove_additional(
    source_name: String,
    description: &mut Description,
    value: &str,
    remove_credential: bool,
) -> (r: Result<RepoChange, RepoError>)
    requires
        fits(old(description)@),
    ensures
        match repository_url_of(value@) {
            None => {
                &&& *final(description) == *old(description)
                &&& r is Err && is_url_error(r->Err_0, "additional"@, value@)
            },
            Some(url) => {
                &&& r is Err ==> r->Err_0 is RepositoryMutation
                &&& repositories_outcome(
                    source_name@,
                    old(description)@,
                    final(description)@,
                    if listed_repositories(old(description)@).contains(url) {
                        Some(others(listed_repositories(old(description)@), url))
                    } else {
                        None
                    },
                    bare_result(r),
                )
                &&& r matches Ok(change) ==> change@ == (RepoChangeV {
                    changed: change.changed,
                    credential: if remove_credential {
                        Some(url)
                    } else {
                        None
                    },
                    messages: removal_messages(change.changed, remove_credential, url),
                })
            },
        },
{
    let url = match repository_url("additional", value) {
        Ok(url) => url,
        Err(error) => {
            return Err(error);
        },
    };
    let removed = match remove_additional_repository(source_name, description, url.as_str()) {
        Ok(removed) => removed,
        Err(error) => {
            return Err(RepoError::RepositoryMutation(error));
        },
    };
    let mut messages: Vec<String> = Vec::new();
    if removed {
        messages.push(text::cat("Removed additional repository ", url.as_str()));
    } else {
        if remove_credential {
            messages.push(text::cat("Removed stored credential for ", url.as_str()));
        }
        messages.push(text::cat("Repository not configured: ", url.as_str()));
    }
    assert(texts(messages@) =~= removal_messages(removed, remove_credential, url@));
    let credential = if remove_credential {
        Some(url)
    } else {
        None
    };
    Ok(RepoChange { changed: removed, credential, messages })
}

/// The remote package of a text.
pub fn parse_remote(value: &str) -> (r: Result<Remote, RepoError>)
    ensures
        match r {
            Ok(remote) => remote_of(value@) == Ok::<RemoteV, Seq<char>>(remote@),
            Err(error) => remote_of(value@) is Err && is_remote_error(error, value@),
        },
{
    match Remote::parse(value) {
        Ok(remote) => Ok(remote),
        Err(message) => Err(RepoError::RemoteParse { remote: value.to_owned(), message }),
    }
}

/// The error names the text that is no remote package, and why.
pub open spec fn is_remote_error(error: RepoError, value: Seq<char>) -> bool {
    error matches RepoError::RemoteParse { remote, message } && remote@ == value && remote_of(value)
        == Err::<RemoteV, Seq<char>>(message@)
}

/// Adds a remote package.
pub fn add_remote(source_name: String, description: &mut Description, value: &str) -> (r: Result<
    RepoChange,
    RepoError,
>)
    requires
        fits(old(description)@),
    ensures
        fits(final(description)@),
        match remote_of(value@) {
            Err(_) => {
                &&& *final(description) == *old(description)
                &&& r is Err && is_remote_error(r->Err_0, value@)
            },
            Ok(remote) => {
                &&& r is Err ==> r->Err_0 is RepositoryMutation
                &&& remotes_outcome(
                    source_name@,
                    old(description)@,
                    final(description)@,
                    if remote_texts(listed_remotes(old(description)@)).contains(remote.text) {
                        None
                    } else {
                        Some(remote_texts(listed_remotes(old(description)@)).push(remote.text))
                    },
                    bare_result(r),
                )
                &&& r matches Ok(change) ==> change@ == (RepoChangeV {
                    changed: change.changed,
                    credential: None,
                    messages: seq![
                        if change.changed {
                            "Added remote repository "@ + remote.text
                        } else {
                            "Remote already configured: "@ + remote.text
                        },
                    ],
                })
            },
        },
{
    let remote = match parse_remote(value) {
        Ok(remote) => remote,
        Err(error) => {
            return Err(error);
        },
    };
    let name = remote.text.clone();
    match add_remote_repository(source_name, description, &remote) {
        Err(error) => Err(RepoError::RepositoryMutation(error)),
        Ok(added) => if added {
            Ok(change(true, None, text::cat("Added remote repository ", name.as_str())))
        } else {
            Ok(change(false, None, text::cat("Remote already configured: ", name.as_str())))
        },
    }
}

/// Removes a remote package.
pub fn remove_remote(
    source_name: String,
    description: &mut Description,
    value: &str,
) -> (r: Result<RepoChange, RepoError>)
    requires
        fits(old(description)@),
    ensures
        fits(final(description)@),
        match remote_of(value@) {
            Err(_) => {
                &&& *final(description) == *old(description)
                &&& r is Err && is_remote_error(r->Err_0, value@)
            },
            Ok(remote) => {
                &&& r is Err ==> r->Err_0 is RepositoryMutation
                &&& remotes_outcome(
                    source_name@,
                    old(description)@,
                    final(description)@,
                    if remote_texts(listed_remotes(old(description)@)).contains(remote.text) {
                        Some(
                            others(
                                remote_texts(listed_remotes(old(description)@)),
                                remote.text,
                            ),
                        )
                    } else {
                        None
                    },
                    bare_result(r),
                )
                &&& r matches Ok(change) ==> change@ == (RepoChangeV {
                    changed: change.changed,
                    credential: None,
                    messages: seq![
                        if change.changed {
                            "Removed remote repository "@ + remote.text
                        } else {
                            "Remote not configured: "@ + remote.text
                        },
                    ],
                })
            },
        },
{
    let remote = match parse_remote(value) {
        Ok(remote) => remote,
        Err(error) => {
            return Err(error);
        },
    };
    let name = remote.text.clone();
    match remove_remote_repository(source_name, description, &remote) {
        Err(error) => Err(RepoError::RepositoryMutation(error)),
        Ok(removed) => if removed {
            Ok(change(true, None, text::cat("Removed remote repository ", name.as_str())))
        } else {
            Ok(change(false, None, text::cat("Remote not configured: ", name.as_str())))
        },
    }
}

/// A text with blanks after it, up to a width.
pub open spec fn padded(s: Seq<char>, width: nat) -> Seq<char> {
    if s.len() >= width {
        s
    } else {
        s + Seq::new((width - s.len()) as nat, |i: int| ' ')
    }
}

/// A text with blanks after it, up to a width.
pub fn pad(s: &str, width: usize) -> (r: String)
    ensures
        r@ == padded(s@, width as nat),
{
    let mut v = text::chars_of(s);
    let ghost start = v@;
    while v.len() < width
        invariant
            start.len() <= v@.len(),
            v@.len() <= width || v@ == start,
            v@.take(start.len() as int) == start,
            forall|i: int| start.len() <= i < v@.len() ==> v@[i] == ' ',
        decreases width - v@.len(),
    {
        v.push(' ');
        assert(v@.take(start.len() as int) =~= start);
    }
    let n: usize = v.len();
    let r = text::string_of(&v, 0, n);
    proof {
        assert(v@.subrange(0, n as int) =~= v@);
        assert forall|i: int| 0 <= i < start.len() implies v@[i] == start[i] by {
            assert(v@.take(start.len() as int)[i] == start[i]);
        }
        assert(r@ =~= padded(s@, width as nat));
    }
    r
}

/// A row of the list of repositories.
pub open spec fn row(kind: Seq<char>, source: Seq<char>, repository: Seq<char>) -> Seq<char> {
    padded(kind, 12) + padded(source, 14) + repository
}

fn make_row(kind: &str, source: &str, repository: &str) -> (r: String)
    ensures
        r@ == row(kind@, source@, repository@),
{
    let kind = pad(kind, 12);
    let source = pad(source, 14);
    text::cat3(kind.as_str(), source.as_str(), repository)
}

/// A row for each repository.
pub open spec fn rows(kind: Seq<char>, repositories: Seq<Seq<char>>) -> Seq<Seq<char>> {
    repositories.map_values(|r: Seq<char>| row(kind, "DESCRIPTION"@, r))
}

/// A class of repositories is shown: without a filter, or with its own.
pub open spec fn shown(filter: Option<RepositoryType>, kind: RepositoryType) -> bool {
    filter is None || filter == Some(kind)
}

/// The list of repositories: the base repository, the remote packages and the additional
/// repositories, under a line of titles.
pub open spec fn repository_lines(
    filter: Option<RepositoryType>,
    base: Option<Seq<char>>,
    remotes: Seq<Seq<char>>,
    additional: Seq<Seq<char>>,
) -> Seq<Seq<char>> {
    let titles = seq![row("TYPE"@, "SOURCE"@, "REPOSITORY"@)];
    let a = if shown(filter, RepositoryType::Base) {
        titles.push(
            match base {
                Some(url) => row("base"@, "configured"@, url),
                None => row("base"@, "built-in"@, built_in_url()),
            },
        )
    } else {
        titles
    };
    let b = if shown(filter, RepositoryType::Remote) {
        a + rows("remote"@, remotes)
    } else {
        a
    };
    if shown(filter, RepositoryType::Additional) {
        b + rows("additional"@, additional)
    } else {
        b
    }
}

fn push_rows(lines: &mut Vec<String>, kind: &str, repositories: &Vec<String>)
    ensures
        texts(final(lines)@) == texts(old(lines)@) + rows(kind@, texts(repositories@)),
{
    let ghost start = texts(lines@);
    let ghost all = rows(kind@, texts(repositories@));
    let mut i: usize = 0;
    assert(start + all.take(0) =~= start);
    while i < repositories.len()
        invariant
            i <= repositories@.len(),
            all == rows(kind@, texts(repositories@)),
            texts(lines@) == start + all.take(i as int),
        decreases repositories@.len() - i,
    {
        let ghost before = lines@;
        let line = make_row(kind, "DESCRIPTION", repositories[i].as_str());
        lines.push(line);
        assert(all[i as int] == line@);
        assert(texts(lines@) =~= texts(before).push(line@));
        assert(texts(lines@) =~= start + all.take(i + 1));
        i = i + 1;
    }
    assert(all.take(i as int) =~= all);
}

/// The list of the repositories of a project.
pub fn list(
    source_name: &str,
    description: &Description,
    filter: Option<RepositoryType>,
) -> (r: Result<Vec<String>, RepoError>)
    requires
        fits(description@),
    ensures
        match listed_base(description@) {
            Err(issues) => r is Err && is_parse_error(
                r->Err_0,
                source_name@,
                description@,
                issues,
            ),
            Ok(base) => if remote_issues(description@).len() > 0 {
                r is Err && is_parse_error(
                    r->Err_0,
                    source_name@,
                    description@,
                    remote_issues(description@),
                )
            } else if additional_repositories_of(description@).issues.len() > 0 {
                r is Err && is_parse_error(
                    r->Err_0,
                    source_name@,
                    description@,
                    positioned(additional_repositories_of(description@).issues),
                )
            } else {
                r is Ok && texts(r->Ok_0@) == repository_lines(
                    filter,
                    base,
                    remote_texts(listed_remotes(description@)),
                    listed_repositories(description@),
                )
            },
        },
{
    let base = match base_repository(source_name.to_owned(), description) {
        Ok(base) => base,
        Err(error) => {
            return Err(RepoError::DescriptionParse(error));
        },
    };
    let listed = match remotes(source_name.to_owned(), description) {
        Ok(listed) => listed,
        Err(error) => {
            return Err(RepoError::DescriptionParse(error));
        },
    };
    let additional = match additional_repositories(source_name.to_owned(), description) {
        Ok(additional) => additional,
        Err(error) => {
            return Err(RepoError::DescriptionParse(error));
        },
    };
    let mut lines: Vec<String> = Vec::new();
    lines.push(make_row("TYPE", "SOURCE", "REPOSITORY"));
    assert(texts(lines@) =~= seq![row("TYPE"@, "SOURCE"@, "REPOSITORY"@)]);
    let all = filter.is_none();
    if all || filter == Some(RepositoryType::Base) {
        let ghost before = lines@;
        let line = match &base {
            Some(url) => make_row("base", "configured", url.as_str()),
            None => {
                let url = built_in_repository_url();
                make_row("base", "built-in", url.as_str())
            },
        };
        lines.push(line);
        assert(texts(lines@) =~= texts(before).push(line@));
    }
    if all || filter == Some(RepositoryType::Remote) {
        let mut names: Vec<String> = Vec::new();
        let mut i: usize = 0;
        while i < listed.len()
            invariant
                i <= listed@.len(),
                names@.len() == i,
                forall|k: int| 0 <= k < i ==> (#[trigger] names@[k])@ == listed@[k].text@,
            decreases listed@.len() - i,
        {
            names.push(listed[i].text.clone());
            i = i + 1;
        }
        proof {
            let views = crate::description::remote_views(listed@);
            assert forall|k: int| 0 <= k < listed@.len() implies #[trigger] texts(names@)[k]
                == remote_texts(views)[k] by {
                assert(views[k] == listed@[k]@);
            }
            assert(texts(names@) =~= remote_texts(listed_remotes(description@)));
        }
        push_rows(&mut lines, "remote", &names);
    }
    if all || filter == Some(RepositoryType::Additional) {
        push_rows(&mut lines, "additional", &additional);
    }
    Ok(lines)
}

/// A row of the list of repositories has its kind in the first column, its source in the
/// second and the repository in the third, and the columns begin at the same places in each
/// row whose entries fit them.
pub proof fn rows_are_lined_up(kind: Seq<char>, source: Seq<char>, repository: Seq<char>, i: int)
    requires
        kind.len() <= 12,
        source.len() <= 14,
    ensures
        row(kind, source, repository).len() == 26 + repository.len(),
        0 <= i < kind.len() ==> row(kind, source, repository)[i] == kind[i],
        kind.len() <= i < 12 ==> row(kind, source, repository)[i] == ' ',
        0 <= i < source.len() ==> row(kind, source, repository)[12 + i] == source[i],
        source.len() <= i < 14 ==> row(kind, source, repository)[12 + i] == ' ',
        0 <= i < repository.len() ==> row(kind, source, repository)[26 + i] == repository[i],
{
}

/// The list has a title and then the repositories that are asked for: the base repository, the
/// remotes and the additional ones, each kind alone where it is asked for, and all otherwise.
pub proof fn repositories_are_listed_by_kind(
    base: Option<Seq<char>>,
    remotes: Seq<Seq<char>>,
    additional: Seq<Seq<char>>,
    i: int,
)
    ensures
        ({
            let all = repository_lines(None, base, remotes, additional);
            let bases = repository_lines(Some(RepositoryType::Base), base, remotes, additional);
            let gits = repository_lines(Some(RepositoryType::Remote), base, remotes, additional);
            let more = repository_lines(
                Some(RepositoryType::Additional),
                base,
                remotes,
                additional,
            );
            &&& all.len() == 2 + remotes.len() + additional.len()
            &&& bases.len() == 2 && gits.len() == 1 + remotes.len() && more.len() == 1
                + additional.len()
            &&& all[0] == bases[0] && all[0] == gits[0] && all[0] == more[0]
            &&& all[1] == bases[1]
            &&& base matches Some(url) ==> all[1] == row("base"@, "configured"@, url)
            &&& base is None ==> all[1] == row("base"@, "built-in"@, built_in_url())
            &&& 0 <= i < remotes.len() ==> all[2 + i] == gits[1 + i] && all[2 + i] == row(
                "remote"@,
                "DESCRIPTION"@,
                remotes[i],
            )
            &&& 0 <= i < additional.len() ==> all[2 + remotes.len() + i] == more[1 + i]
                && more[1 + i] == row("additional"@, "DESCRIPTION"@, additional[i])
        }),
{
}

/// What is said of a base repository tells whether it was there already, took the place of
/// another one, or is new.
pub proof fn changes_of_the_base_are_told(previous: Seq<char>, url: Seq<char>)
    ensures
        base_message(Some(url), url) == "Base repository already configured: "@ + url,
        previous != url ==> base_message(Some(previous), url) == "Replaced base repository "@
            + previous + " with "@ + url,
        base_message(None, url) == "Set base repository "@ + url,
{
}

} // verus!
