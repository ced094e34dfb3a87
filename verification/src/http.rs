//! Requests to repositories: where they go, and how they are authenticated.
use crate::cache::Target;
use crate::digest::{hash_key, hash_key_of};
use crate::r::{series_text, RVersion};
use crate::sorted::TextMap;
use crate::text;
use crate::text::{decimal_text, has_prefix, opt_text, texts, trimmed};
use crate::uri::{
    anonymous_text, changeable, drop_user, extend_segments, extended_url, is_changeable, parse_url,
    pop_empty_segment, popped_url, takes_user, url_parts,
};
use vstd::prelude::*;

verus! {

/// The builds for macOS that repositories keep for a platform.
pub open spec fn macos_binary_target(platform: Seq<char>) -> Option<Seq<char>> {
    if has_prefix(platform, "aarch64"@) {
        Some("big-sur-arm64"@)
    } else if has_prefix(platform, "x86_64"@) {
        Some("big-sur-x86_64"@)
    } else {
        None
    }
}

/// The builds for macOS that repositories keep for a platform; for other platforms there are
/// none.
pub fn r_macos_binary_target(host: &Target) -> (r: Result<&'static str, String>)
    ensures
        match r {
            Ok(target) => macos_binary_target(host.text@) == Some(target@),
            Err(message) => {
                &&& macos_binary_target(host.text@) is None
                &&& message@ == "no macOS binary packages are built for "@ + host.text@
            },
        },
{
    if text::starts_with(host.text.as_str(), "aarch64") {
        Ok("big-sur-arm64")
    } else if text::starts_with(host.text.as_str(), "x86_64") {
        Ok("big-sur-x86_64")
    } else {
        Err(text::cat("no macOS binary packages are built for ", host.text.as_str()))
    }
}

/// The name under which credentials are kept.
pub const KEYRING_SERVICE: &'static str = "rpx";

/// The place that a credential is for.
#[derive(Debug)]
pub struct AuthScope {
    pub origin: String,
}

/// The scheme, the host and the port of a URL, where it has a host.
pub open spec fn origin_of(url: Seq<char>) -> Option<Seq<char>> {
    match url_parts(url) {
        None => None,
        Some(parts) => match parts.host {
            None => None,
            Some(host) => Some(
                match parts.port {
                    None => parts.scheme + "://"@ + host,
                    Some(port) => parts.scheme + "://"@ + host + ":"@ + decimal_text(port as nat),
                },
            ),
        },
    }
}

impl AuthScope {
    /// The scope of a URL.
    pub fn from_url(url: &str) -> (r: Option<AuthScope>)
        ensures
            match r {
                Some(scope) => origin_of(url@) == Some(scope.origin@),
                None => origin_of(url@) is None,
            },
    {
        let parts = match parse_url(url) {
            Some(parts) => parts,
            None => {
                return None;
            },
        };
        match parts.host {
            None => None,
            Some(host) => {
                let mut origin = text::cat3(parts.scheme.as_str(), "://", host.as_str());
                match parts.port {
                    Some(port) => {
                        let digits = text::decimal(port as u64);
                        origin.push_str(":");
                        origin.push_str(digits.as_str());
                    },
                    None => {},
                }
                Some(AuthScope { origin })
            },
        }
    }

    /// The key of the scope.
    pub fn key(&self) -> (r: String)
        ensures
            r@ == self.origin@,
    {
        self.origin.clone()
    }

    /// A copy.
    pub fn copy(&self) -> (r: AuthScope)
        ensures
            r == *self,
    {
        AuthScope { origin: self.origin.clone() }
    }
}

/// The account under which the credential of a scope is kept.
pub fn keyring_account_name(scope: &AuthScope) -> (r: String)
    ensures
        r@ == "host:"@ + hash_key_of(scope.origin@),
{
    let digest = hash_key(scope.origin.as_str());
    text::cat("host:", digest.as_str())
}

/// Why a request cannot be authenticated.
#[derive(Debug)]
pub enum AuthError {
    Message(String),
}

impl AuthError {
    /// The message.
    pub open spec fn view(&self) -> Seq<char> {
        match self {
            AuthError::Message(message) => message@,
        }
    }

    /// The message, as text.
    pub fn to_text(&self) -> (r: String)
        ensures
            r@ == self@,
    {
        match self {
            AuthError::Message(message) => message.clone(),
        }
    }
}

/// An error of authentication as the client hands it on.
#[derive(Debug)]
pub struct AuthMiddlewareError(pub String);

impl From<AuthError> for AuthMiddlewareError {
    fn from(error: AuthError) -> (r: AuthMiddlewareError) {
        match error {
            AuthError::Message(message) => AuthMiddlewareError(message),
        }
    }
}

impl vstd::std_specs::convert::FromSpecImpl<AuthError> for AuthMiddlewareError {
    open spec fn obeys_from_spec() -> bool {
        true
    }

    open spec fn from_spec(error: AuthError) -> AuthMiddlewareError {
        match error {
            AuthError::Message(message) => AuthMiddlewareError(message),
        }
    }
}

/// A store of credentials.
pub trait CredentialStore {
    /// The credential of a scope.
    fn get(&self, scope: &AuthScope) -> Result<Option<String>, AuthError>;

    /// Keeps the credential of a scope.
    fn set(&self, scope: &AuthScope, token: &str) -> Result<(), AuthError>;

    /// Drops the credential of a scope.
    fn delete(&self, scope: &AuthScope) -> Result<(), AuthError>;
}

/// One who is asked for a credential.
pub trait ApiKeyPrompter {
    /// Asks for the credential of a scope.
    fn prompt(&self, scope: &AuthScope, had_stored_token: bool) -> Result<String, AuthError>;
}

/// The tokens that are known, with the store and the prompter behind them.
#[derive(Debug)]
pub struct AuthManager<S, P> {
    pub tokens: TextMap<String>,
    pub credentials: S,
    pub prompter: P,
}

impl<S: CredentialStore, P: ApiKeyPrompter> AuthManager<S, P> {
    /// A manager that knows no token yet.
    pub fn new(credentials: S, prompter: P) -> (r: AuthManager<S, P>)
        ensures
            r.tokens.wf(),
            r.tokens@ == Map::<Seq<char>, String>::empty(),
            r.credentials == credentials,
            r.prompter == prompter,
    {
        AuthManager { tokens: TextMap::new(), credentials, prompter }
    }

    /// The look-up of a scope may come to this: a known token is found, and for another scope
    /// it is what the store answers.
    pub open spec fn finds(
        &self,
        scope: &AuthScope,
        found: Result<Option<String>, AuthError>,
    ) -> bool {
        if self.tokens@.contains_key(scope.origin@) {
            found == Ok::<Option<String>, AuthError>(Some(self.tokens@[scope.origin@]))
        } else {
            call_ensures(S::get, (&self.credentials, scope), found)
        }
    }

    /// The tokens that are known after a look-up.
    pub open spec fn tokens_with(
        &self,
        scope: &AuthScope,
        found: Result<Option<String>, AuthError>,
    ) -> Map<Seq<char>, String> {
        match found {
            Ok(Some(token)) => self.tokens@.insert(scope.origin@, token),
            _ => self.tokens@,
        }
    }

    /// The prompter may answer this for a scope.
    pub open spec fn answers(
        &self,
        scope: &AuthScope,
        had_stored_token: bool,
        answer: Result<String, AuthError>,
    ) -> bool {
        call_ensures(P::prompt, (&self.prompter, scope, had_stored_token), answer)
    }

    /// The store may answer this where it is to keep the token of a scope.
    pub open spec fn keeps(
        &self,
        scope: &AuthScope,
        token: Seq<char>,
        answer: Result<(), AuthError>,
    ) -> bool {
        exists|text: &str|
            text@ == token && #[trigger] call_ensures(
                S::set,
                (&self.credentials, scope, text),
                answer,
            )
    }

    /// What a prompter's answer leads to. An error is handed on; a token is returned and known
    /// if the store keeps it, and otherwise the error of the store is handed on. Where there
    /// is an error, the tokens are those of before.
    pub open spec fn follows(
        &self,
        scope: &AuthScope,
        before: Map<Seq<char>, String>,
        answer: Result<String, AuthError>,
        r: Result<String, AuthError>,
        after: Map<Seq<char>, String>,
    ) -> bool {
        match answer {
            Err(error) => r == Err::<String, AuthError>(error) && after == before,
            Ok(token) => exists|kept: Result<(), AuthError>| #[trigger]
                self.keeps(scope, token@, kept) && match kept {
                    Err(error) => r == Err::<String, AuthError>(error) && after == before,
                    Ok(_) => r == Ok::<String, AuthError>(token) && after == before.insert(
                        scope.origin@,
                        token,
                    ),
                },
        }
    }

    /// What asking for the token of a scope comes to. The token is looked up first, and an
    /// error of that is handed on; the prompter is told whether there was a token.
    pub open spec fn challenge(
        &self,
        scope: &AuthScope,
        r: Result<String, AuthError>,
        after: Map<Seq<char>, String>,
    ) -> bool {
        exists|found: Result<Option<String>, AuthError>| #[trigger]
            self.finds(scope, found) && match found {
                Err(error) => r == Err::<String, AuthError>(error) && after == self.tokens@,
                Ok(stored) => exists|answer: Result<String, AuthError>| #[trigger]
                    self.answers(scope, stored is Some, answer) && self.follows(
                        scope,
                        self.tokens_with(scope, found),
                        answer,
                        r,
                        after,
                    ),
            }
    }

    /// The token of a scope: a known one is used without asking the store, and one of the
    /// store is known from then on.
    pub fn token_for_scope(&mut self, scope: &AuthScope) -> (r: Result<Option<String>, AuthError>)
        requires
            old(self).tokens.wf(),
        ensures
            final(self).tokens.wf(),
            final(self).credentials == old(self).credentials,
            final(self).prompter == old(self).prompter,
            old(self).finds(scope, r),
            final(self).tokens@ == old(self).tokens_with(scope, r),
    {
        match self.tokens.get(scope.origin.as_str()) {
            Some(token) => {
                assert(self.tokens@ =~= self.tokens@.insert(scope.origin@, *token));
                return Ok(Some(token.clone()));
            },
            None => {},
        }
        match self.credentials.get(scope) {
            Ok(Some(token)) => {
                let known = token.clone();
                let ghost before = self.tokens@;
                self.tokens.insert(scope.key(), known);
                assert(self.tokens@ =~= before.insert(scope.origin@, known));
                Ok(Some(token))
            },
            Ok(None) => Ok(None),
            Err(error) => Err(error),
        }
    }

    /// Asks for the token of a scope, keeps it in the store and knows it from then on.
    pub fn prompt_and_store_token(&mut self, scope: &AuthScope) -> (r: Result<String, AuthError>)
        requires
            old(self).tokens.wf(),
        ensures
            final(self).tokens.wf(),
            final(self).credentials == old(self).credentials,
            final(self).prompter == old(self).prompter,
            old(self).challenge(scope, r, final(self).tokens@),
    {
        let found = self.token_for_scope(scope);
        let ghost looked_up = found;
        let ghost known = self.tokens@;
        assert(old(self).finds(scope, looked_up));
        let had_stored_token = match found {
            Ok(token) => token.is_some(),
            Err(error) => {
                return Err(error);
            },
        };
        let answer = self.prompter.prompt(scope, had_stored_token);
        let ghost answered = answer;
        assert(old(self).answers(scope, had_stored_token, answered));
        let token = match answer {
            Ok(token) => token,
            Err(error) => {
                assert(old(self).follows(scope, known, answered, Err(error), known));
                return Err(error);
            },
        };
        let kept = self.credentials.set(scope, token.as_str());
        assert(old(self).keeps(scope, token@, kept));
        match kept {
            Ok(_) => {},
            Err(error) => {
                assert(old(self).follows(scope, known, answered, Err(error), known));
                return Err(error);
            },
        }
        self.tokens.insert(scope.key(), token.clone());
        assert(self.tokens@ =~= known.insert(scope.origin@, token));
        assert(old(self).follows(scope, known, answered, Ok(token), self.tokens@));
        Ok(token)
    }
}

/// What is asked of the user.
pub fn api_key_prompt(scope: &AuthScope, had_stored_token: bool) -> (r: String)
    ensures
        r@ == if had_stored_token {
            "Stored API key rejected for "@ + scope.origin@ + ". Enter a new API key: "@
        } else {
            "API key required for "@ + scope.origin@ + ": "@
        },
{
    if had_stored_token {
        text::cat3(
            "Stored API key rejected for ",
            scope.origin.as_str(),
            ". Enter a new API key: ",
        )
    } else {
        text::cat3("API key required for ", scope.origin.as_str(), ": ")
    }
}

/// What is said where nobody can be asked.
pub fn no_terminal_error(scope: &AuthScope) -> (r: AuthError)
    ensures
        r@ == scope.origin@ + " requires an API key, but no interactive terminal is available"@,
{
    AuthError::Message(
        text::cat(
            scope.origin.as_str(),
            " requires an API key, but no interactive terminal is available",
        ),
    )
}

/// The key that a line of input is; an empty one is refused.
pub fn accept_api_key(input: &str) -> (r: Result<String, AuthError>)
    ensures
        match r {
            Ok(token) => trimmed(input@).len() > 0 && token@ == trimmed(input@),
            Err(error) => trimmed(input@).len() == 0 && error@ == "API key cannot be empty"@,
        },
{
    let token = text::trim(input);
    if token.as_str().is_empty() {
        return Err(AuthError::Message("API key cannot be empty".to_owned()));
    }
    Ok(token)
}

/// What is said where a credential cannot be kept.
pub fn store_failure(scope: &AuthScope, details: &str) -> (r: AuthError)
    ensures
        r@ == "failed to store API key for "@ + scope.origin@ + ": "@ + details@,
{
    AuthError::Message(
        text::cat4("failed to store API key for ", scope.origin.as_str(), ": ", details),
    )
}

/// What is said where a credential cannot be dropped.
pub fn removal_failure(scope: &AuthScope, details: &str) -> (r: AuthError)
    ensures
        r@ == "failed to remove stored API key for "@ + scope.origin@ + ": "@ + details@,
{
    AuthError::Message(
        text::cat4("failed to remove stored API key for ", scope.origin.as_str(), ": ", details),
    )
}

/// The header of an authenticated request.
pub fn bearer(token: &str) -> (r: String)
    ensures
        r@ == "Bearer "@ + token@,
{
    text::cat("Bearer ", token)
}

/// What follows the refusal of a token.
#[derive(Debug)]
pub enum RefusalStep {
    Retry(String),
    Prompt,
}

/// What follows the refusal of a request that was sent with a token or without one: a token
/// that has become known since is tried, and otherwise one is asked for.
pub fn after_refusal(known: Option<String>, refused: Option<&str>) -> (r: RefusalStep)
    ensures
        match (known, refused) {
            (None, _) => r is Prompt,
            (Some(known), Some(refused)) if known@ == refused@ => r is Prompt,
            (Some(known), _) => r == RefusalStep::Retry(known),
        },
{
    match (known, refused) {
        (None, _) => RefusalStep::Prompt,
        (Some(known), Some(refused)) => if text::same(known.as_str(), refused) {
            RefusalStep::Prompt
        } else {
            RefusalStep::Retry(known)
        },
        (Some(known), None) => RefusalStep::Retry(known),
    }
}

/// What is done with a response.
#[derive(Clone, Copy, PartialEq, Eq, Structural, Debug)]
pub enum ResponseStep {
    HandOn,
    AskForToken,
}

/// What is done with a response: one that says that the request is not authorised is
/// followed by a second request with a token that is asked for, where the request has a
/// scope and can be sent again.
pub fn after_response(scoped: bool, status: u16, repeatable: bool) -> (r: ResponseStep)
    ensures
        r == if scoped && status == 401 && repeatable {
            ResponseStep::AskForToken
        } else {
            ResponseStep::HandOn
        },
{
    if scoped && status == 401 && repeatable {
        ResponseStep::AskForToken
    } else {
        ResponseStep::HandOn
    }
}

/// How a request is called while it runs.
pub fn request_progress_message(method: &str, path: &str) -> (r: String)
    ensures
        r@ == method@ + " "@ + path@,
{
    text::cat3(method, " ", path)
}

/// A URL without user name and password; nothing where the text is no URL, or one that is too
/// long.
pub fn remove_credentials(url: &str) -> (r: Option<String>)
    ensures
        match url_parts(url@) {
            Some(parts) => if is_changeable(parts) {
                &&& opt_text(r) == Some(anonymous_text(parts))
                &&& if takes_user(parts) {
                    url_parts(r->0@) matches Some(plain) && plain.username.len() == 0
                        && plain.password is None
                } else {
                    parts.username.len() == 0 && parts.password is None
                }
            } else {
                r is None
            },
            None => r is None,
        },
{
    match parse_url(url) {
        Some(parts) => if changeable(&parts) {
            Some(drop_user(url, &parts))
        } else {
            None
        },
        None => None,
    }
}

/// A URL below another: an empty last segment is dropped, then segments are appended. There
/// is none where the base is no URL with path segments or the URL would be too long.
pub open spec fn endpoint_of(base: Seq<char>, segments: Seq<Seq<char>>) -> Option<Seq<char>> {
    match popped_url(base) {
        None => None,
        Some(url) => extended_url(url, segments),
    }
}

fn endpoint(base: &str, segments: &Vec<String>) -> (r: Option<String>)
    ensures
        opt_text(r) == endpoint_of(base@, texts(segments@)),
{
    match pop_empty_segment(base) {
        None => None,
        Some(url) => extend_segments(url.as_str(), segments),
    }
}

fn list1(a: &str) -> (r: Vec<String>)
    ensures
        texts(r@) == seq![a@],
{
    let mut v: Vec<String> = Vec::new();
    v.push(a.to_owned());
    assert(texts(v@) =~= seq![a@]);
    v
}

fn list3(a: &str, b: &str, c: &str) -> (r: Vec<String>)
    ensures
        texts(r@) == seq![a@, b@, c@],
{
    let mut v: Vec<String> = Vec::new();
    v.push(a.to_owned());
    v.push(b.to_owned());
    v.push(c.to_owned());
    assert(texts(v@) =~= seq![a@, b@, c@]);
    v
}

fn list5(a: &str, b: &str, c: &str, d: &str, e: &str) -> (r: Vec<String>)
    ensures
        texts(r@) == seq![a@, b@, c@, d@, e@],
{
    let mut v: Vec<String> = Vec::new();
    v.push(a.to_owned());
    v.push(b.to_owned());
    v.push(c.to_owned());
    v.push(d.to_owned());
    v.push(e.to_owned());
    assert(texts(v@) =~= seq![a@, b@, c@, d@, e@]);
    v
}

fn with(list: Vec<String>, item: &str) -> (r: Vec<String>)
    ensures
        texts(r@) == texts(list@).push(item@),
{
    let mut v = list;
    let ghost before = v@;
    v.push(item.to_owned());
    assert(texts(v@) =~= texts(before).push(item@));
    v
}

/// The name of a file of a version of a package.
pub open spec fn artifact_name(package: Seq<char>, version: Seq<char>, suffix: Seq<char>) -> Seq<
    char,
> {
    package + "_"@ + version + suffix
}

/// The URL of the packages of a repository.
pub fn rrepo_repository_packages(base_url: &str) -> (r: Option<String>)
    ensures
        opt_text(r) == endpoint_of(base_url@, seq!["packages"@]),
{
    endpoint(base_url, &list1("packages"))
}

/// The URL of the versions of a package.
pub fn rrepo_package_versions(base_url: &str, package: &str) -> (r: Option<String>)
    ensures
        opt_text(r) == endpoint_of(base_url@, seq!["packages"@, package@, "versions"@]),
{
    endpoint(base_url, &list3("packages", package, "versions"))
}

/// The URL of the description of a version of a package.
pub fn rrepo_package_description(base_url: &str, package: &str, version: &str) -> (r: Option<
    String,
>)
    ensures
        opt_text(r) == endpoint_of(
            base_url@,
            seq!["packages"@, package@, "versions"@, version@, "description"@],
        ),
{
    endpoint(base_url, &list5("packages", package, "versions", version, "description"))
}

/// The URL of the sources of a version of a package.
pub fn rrepo_source_artifact(base_url: &str, package: &str, version: &str) -> (r: Option<String>)
    ensures
        opt_text(r) == endpoint_of(
            base_url@,
            seq!["packages"@, package@, "versions"@, version@, "source"@],
        ),
{
    endpoint(base_url, &list5("packages", package, "versions", version, "source"))
}

/// The URL of a version of a package that was built for Windows.
pub fn rrepo_windows_binary(base_url: &str, package: &str, version: &str, r_version: &RVersion) -> (r:
    Option<String>)
    ensures
        opt_text(r) == endpoint_of(
            base_url@,
            seq![
                "packages"@,
                package@,
                "versions"@,
                version@,
                "binaries"@,
                "windows"@,
                series_text(r_version.major as nat, r_version.minor as nat),
            ],
        ),
{
    let v = list5("packages", package, "versions", version, "binaries");
    let v = with(v, "windows");
    let series = r_version.series();
    let v = with(v, series.as_str());
    assert(texts(v@) =~= seq![
                "packages"@,
                package@,
                "versions"@,
                version@,
                "binaries"@,
                "windows"@,
                series_text(r_version.major as nat, r_version.minor as nat),
            ]);
    endpoint(base_url, &v)
}

/// The URL of a version of a package that was built for macOS.
pub fn rrepo_macos_binary(
    base_url: &str,
    package: &str,
    version: &str,
    target: &str,
    r_version: &RVersion,
) -> (r: Option<String>)
    ensures
        opt_text(r) == endpoint_of(
            base_url@,
            seq![
                "packages"@,
                package@,
                "versions"@,
                version@,
                "binaries"@,
                "macos"@,
                target@,
                series_text(r_version.major as nat, r_version.minor as nat),
            ],
        ),
{
    let v = list5("packages", package, "versions", version, "binaries");
    let v = with(v, "macos");
    let v = with(v, target);
    let series = r_version.series();
    let v = with(v, series.as_str());
    assert(texts(v@) =~= seq![
                "packages"@,
                package@,
                "versions"@,
                version@,
                "binaries"@,
                "macos"@,
                target@,
                series_text(r_version.major as nat, r_version.minor as nat),
            ]);
    endpoint(base_url, &v)
}

/// The URL of the index of a CRAN-like repository.
pub fn cran_packages(base_url: &str) -> (r: Option<String>)
    ensures
        opt_text(r) == endpoint_of(base_url@, seq!["src"@, "contrib"@, "PACKAGES"@]),
{
    endpoint(base_url, &list3("src", "contrib", "PACKAGES"))
}

/// The URL of the archive of a CRAN-like repository.
pub fn cran_archive_root(base_url: &str) -> (r: Option<String>)
    ensures
        opt_text(r) == endpoint_of(base_url@, seq!["src"@, "contrib"@, "Archive"@, ""@]),
{
    let v = list3("src", "contrib", "Archive");
    let v = with(v, "");
    assert(texts(v@) =~= seq!["src"@, "contrib"@, "Archive"@, ""@]);
    endpoint(base_url, &v)
}

/// The URL of the archived versions of a package.
pub fn cran_package_archive_listing(base_url: &str, package: &str) -> (r: Option<String>)
    ensures
        opt_text(r) == endpoint_of(
            base_url@,
            seq!["src"@, "contrib"@, "Archive"@, package@, ""@],
        ),
{
    endpoint(base_url, &list5("src", "contrib", "Archive", package, ""))
}

/// The URL of the sources of the latest version of a package.
pub fn cran_current_source_tarball(base_url: &str, package: &str, version: &str) -> (r: Option<
    String,
>)
    ensures
        opt_text(r) == endpoint_of(
            base_url@,
            seq!["src"@, "contrib"@, artifact_name(package@, version@, ".tar.gz"@)],
        ),
{
    let file = text::cat4(package, "_", version, ".tar.gz");
    endpoint(base_url, &list3("src", "contrib", file.as_str()))
}

/// The URL of the sources of an archived version of a package.
pub fn cran_archive_source_tarball(base_url: &str, package: &str, version: &str) -> (r: Option<
    String,
>)
    ensures
        opt_text(r) == endpoint_of(
            base_url@,
            seq![
                "src"@,
                "contrib"@,
                "Archive"@,
                package@,
                artifact_name(package@, version@, ".tar.gz"@),
            ],
        ),
{
    let file = text::cat4(package, "_", version, ".tar.gz");
    endpoint(base_url, &list5("src", "contrib", "Archive", package, file.as_str()))
}

/// The URL of the description of the latest version of a package.
pub fn cran_latest_package_description(base_url: &str, package: &str) -> (r: Option<String>)
    ensures
        opt_text(r) == endpoint_of(
            base_url@,
            seq!["web"@, "packages"@, package@, "DESCRIPTION"@],
        ),
{
    let v = list3("web", "packages", package);
    let v = with(v, "DESCRIPTION");
    assert(texts(v@) =~= seq!["web"@, "packages"@, package@, "DESCRIPTION"@]);
    endpoint(base_url, &v)
}

/// The URL of a version of a package that was built for Windows.
pub fn cran_windows_binary(base_url: &str, r_version: &RVersion, package: &str, version: &str) -> (r:
    Option<String>)
    ensures
        opt_text(r) == endpoint_of(
            base_url@,
            seq![
                "bin"@,
                "windows"@,
                "contrib"@,
                series_text(r_version.major as nat, r_version.minor as nat),
                artifact_name(package@, version@, ".zip"@),
            ],
        ),
{
    let file = text::cat4(package, "_", version, ".zip");
    let series = r_version.series();
    endpoint(base_url, &list5("bin", "windows", "contrib", series.as_str(), file.as_str()))
}

/// The URL of a version of a package that was built for macOS.
pub fn cran_macos_binary(
    base_url: &str,
    target: &str,
    r_version: &RVersion,
    package: &str,
    version: &str,
) -> (r: Option<String>)
    ensures
        opt_text(r) == endpoint_of(
            base_url@,
            seq![
                "bin"@,
                "macosx"@,
                target@,
                "contrib"@,
                series_text(r_version.major as nat, r_version.minor as nat),
                artifact_name(package@, version@, ".tgz"@),
            ],
        ),
{
    let file = text::cat4(package, "_", version, ".tgz");
    let series = r_version.series();
    let v = list5("bin", "macosx", target, "contrib", series.as_str());
    let v = with(v, file.as_str());
    assert(texts(v@) =~= seq![
                "bin"@,
                "macosx"@,
                target@,
                "contrib"@,
                series_text(r_version.major as nat, r_version.minor as nat),
                artifact_name(package@, version@, ".tgz"@),
            ]);
    endpoint(base_url, &v)
}

/// The packages of a repository as it answers.
#[derive(Debug)]
pub struct RrepoPackagesResponse {
    pub repository_slug: String,
    pub packages: Vec<RrepoPackageSummary>,
}

/// A package of a repository as it answers.
#[derive(Debug)]
pub struct RrepoPackageSummary {
    pub name: String,
    pub latest_version: String,
    pub latest_uploaded_at: Option<String>,
    pub version_count: Option<usize>,
}

/// The versions of a package as a repository answers.
#[derive(Debug)]
pub struct RrepoPackageVersionsResponse {
    pub package: String,
    pub versions: Vec<RrepoVersionSummary>,
}

/// A version of a package as a repository answers.
#[derive(Debug)]
pub struct RrepoVersionSummary {
    pub version: String,
    pub source_url: String,
}

/// The origin of an address is its scheme, host and port: addresses that agree in them have
/// one origin, and the origin begins with the scheme and holds the host.
pub proof fn origins_are_schemes_hosts_and_ports(a: Seq<char>, b: Seq<char>)
    requires
        url_parts(a) is Some,
        url_parts(b) is Some,
    ensures
        ({
            let x = url_parts(a)->0;
            let y = url_parts(b)->0;
            x.scheme == y.scheme && x.host == y.host && x.port == y.port
        }) ==> origin_of(a) == origin_of(b),
        origin_of(a) is Some <==> url_parts(a)->0.host is Some,
        url_parts(a)->0.host is Some && url_parts(a)->0.port is None ==> origin_of(a) == Some(
            url_parts(a)->0.scheme + "://"@ + url_parts(a)->0.host->0,
        ),
        url_parts(a)->0.host is Some && url_parts(b)->0.host == url_parts(a)->0.host && url_parts(
            b,
        )->0.scheme == url_parts(a)->0.scheme && url_parts(b)->0.port is None ==> (url_parts(
            a,
        )->0.port matches Some(port) ==> origin_of(a) == Some(
            origin_of(b)->0 + ":"@ + decimal_text(port as nat),
        )),
{
}

/// What is asked of a repository lies below its address, whether or not that ends in a slash:
/// each segment is added behind the others, and addresses that are one without their last
/// empty segment have one endpoint.
pub proof fn endpoints_lie_below_the_address(
    base: Seq<char>,
    other: Seq<char>,
    segments: Seq<Seq<char>>,
)
    requires
        popped_url(base) is Some,
    ensures
        endpoint_of(base, segments) == extended_url(popped_url(base)->0, segments),
        popped_url(other) == popped_url(base) ==> endpoint_of(other, segments) == endpoint_of(
            base,
            segments,
        ),
{
}

/// Repositories keep builds for the two processors of macOS.
pub proof fn builds_for_macos_go_by_the_processor(rest: Seq<char>, platform: Seq<char>)
    ensures
        macos_binary_target("aarch64"@ + rest) == Some("big-sur-arm64"@),
        macos_binary_target("x86_64"@ + rest) == Some("big-sur-x86_64"@),
        macos_binary_target(platform) is Some ==> has_prefix(platform, "aarch64"@) || has_prefix(
            platform,
            "x86_64"@,
        ),
{
    reveal_strlit("aarch64");
    reveal_strlit("x86_64");
    text::texts_begin_and_end("aarch64"@, rest);
    text::texts_begin_and_end("x86_64"@, rest);
    let s = "x86_64"@ + rest;
    assert(s[0] == 'x');
    assert(!has_prefix(s, "aarch64"@)) by {
        if has_prefix(s, "aarch64"@) {
            assert(s.take(7)[0] == s[0]);
        }
    }
}

/// The file of an artifact begins with the name of the package and ends with the kind of the
/// file; between them stands the version.
pub proof fn artifact_files_are_named(package: Seq<char>, version: Seq<char>, suffix: Seq<char>)
    requires
        !package.contains('_'),
    ensures
        text::cut_at(artifact_name(package, version, suffix), '_') == Some(
            (package, version + suffix),
        ),
{
    reveal_strlit("_");
    text::texts_are_cut_at_the_first_occurrence(package, '_', version + suffix);
    assert(artifact_name(package, version, suffix) =~= package + seq!['_'] + (version + suffix));
}

/// A token that is known is found without the store; another scope's token is what the store
/// answers. A token that was found is known from then on, and no other token changes.
pub proof fn known_tokens_are_found<S: CredentialStore, P: ApiKeyPrompter>(
    manager: &AuthManager<S, P>,
    scope: &AuthScope,
    found: Result<Option<String>, AuthError>,
    other: Seq<char>,
)
    requires
        manager.finds(scope, found),
    ensures
        manager.tokens@.contains_key(scope.origin@) ==> found == Ok::<Option<String>, AuthError>(
            Some(manager.tokens@[scope.origin@]),
        ),
        !manager.tokens@.contains_key(scope.origin@) ==> call_ensures(
            S::get,
            (&manager.credentials, scope),
            found,
        ),
        found matches Ok(Some(token)) ==> manager.tokens_with(scope, found).contains_key(
            scope.origin@,
        ) && manager.tokens_with(scope, found)[scope.origin@] == token,
        other != scope.origin@ || !(found matches Ok(Some(_))) ==> (manager.tokens_with(
            scope,
            found,
        ).contains_key(other) <==> manager.tokens@.contains_key(other)) && (
        manager.tokens@.contains_key(other) ==> manager.tokens_with(scope, found)[other]
            == manager.tokens@[other]),
{
}

/// A token that is asked for and kept is the one that was answered, and it is known from then
/// on; where anything fails, no token of another scope changes.
pub proof fn answered_tokens_are_known<S: CredentialStore, P: ApiKeyPrompter>(
    manager: &AuthManager<S, P>,
    scope: &AuthScope,
    r: Result<String, AuthError>,
    after: Map<Seq<char>, String>,
    other: Seq<char>,
)
    requires
        manager.challenge(scope, r, after),
        other != scope.origin@,
    ensures
        r matches Ok(token) ==> after.contains_key(scope.origin@) && after[scope.origin@] == token
            && exists|told: bool| #[trigger]
            call_ensures(P::prompt, (&manager.prompter, scope, told), Ok::<String, AuthError>(token)),
        after.contains_key(other) <==> manager.tokens@.contains_key(other),
        after.contains_key(other) ==> after[other] == manager.tokens@[other],
{
    let found = choose|found: Result<Option<String>, AuthError>| #[trigger]
        manager.finds(scope, found) && match found {
            Err(error) => r == Err::<String, AuthError>(error) && after == manager.tokens@,
            Ok(stored) => exists|answer: Result<String, AuthError>| #[trigger]
                manager.answers(scope, stored is Some, answer) && manager.follows(
                    scope,
                    manager.tokens_with(scope, found),
                    answer,
                    r,
                    after,
                ),
        };
    if let Ok(stored) = found {
        let answer = choose|answer: Result<String, AuthError>| #[trigger]
            manager.answers(scope, stored is Some, answer) && manager.follows(
                scope,
                manager.tokens_with(scope, found),
                answer,
                r,
                after,
            );
        if let Ok(token) = answer {
            let kept = choose|kept: Result<(), AuthError>| #[trigger]
                manager.keeps(scope, token@, kept) && match kept {
                    Err(error) => r == Err::<String, AuthError>(error) && after
                        == manager.tokens_with(scope, found),
                    Ok(_) => r == Ok::<String, AuthError>(token) && after == manager.tokens_with(
                        scope,
                        found,
                    ).insert(scope.origin@, token),
                };
            if kept is Ok {
                let told = stored is Some;
                assert(call_ensures(
                    P::prompt,
                    (&manager.prompter, scope, told),
                    Ok::<String, AuthError>(token),
                ));
            }
        }
    }
}

/// A refused request is repeated with a token that has become known since; where none has, or
/// only the one that was refused, a token is asked for.
pub proof fn refused_tokens_are_not_tried_again(
    known: Option<String>,
    refused: Option<&str>,
    r: RefusalStep,
)
    requires
        call_ensures(after_refusal, (known, refused), r),
    ensures
        r matches RefusalStep::Retry(token) ==> known == Some(token) && (refused matches Some(old)
            ==> old@ != token@),
        known is None ==> r is Prompt,
        known is Some && refused is None ==> r == RefusalStep::Retry(known->0),
{
}

/// A token is asked for only where the request has a scope, was not authorised and can be
/// repeated; every other response is handed on.
pub proof fn tokens_are_asked_for_if_they_help(
    scoped: bool,
    status: u16,
    repeatable: bool,
    r: ResponseStep,
)
    requires
        call_ensures(after_response, (scoped, status, repeatable), r),
    ensures
        r == ResponseStep::AskForToken <==> scoped && repeatable && status == 401,
        r == ResponseStep::HandOn <==> !(scoped && repeatable && status == 401),
{
}

} // verus!
