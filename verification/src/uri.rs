//! URLs, held as the text that they serialise to.
use crate::text;
use crate::text::{decimal_text, has_suffix, lemma_bytes_of_parts, opt_text, texts, without_suffixes};
use vstd::prelude::*;
use vstd::utf8::encode_utf8;

verus! {

/// The components of a URL.
pub struct UrlPartsV {
    pub serialization: Seq<char>,
    pub scheme: Seq<char>,
    pub username: Seq<char>,
    pub password: Option<Seq<char>>,
    pub host: Option<Seq<char>>,
    pub port: Option<u16>,
    pub path: Seq<char>,
    pub query: Option<Seq<char>>,
    pub fragment: Option<Seq<char>>,
}

/// What `url::Url::parse` makes of a text: the components of the URL, or nothing.
pub uninterp spec fn url_parts(text: Seq<char>) -> Option<UrlPartsV>;

/// The components of a URL, as text.
#[derive(Debug)]
pub struct UrlParts {
    pub serialization: String,
    pub scheme: String,
    pub username: String,
    pub password: Option<String>,
    pub host: Option<String>,
    pub port: Option<u16>,
    pub path: String,
    pub query: Option<String>,
    pub fragment: Option<String>,
}

impl UrlParts {
    /// The components.
    pub open spec fn view(&self) -> UrlPartsV {
        UrlPartsV {
            serialization: self.serialization@,
            scheme: self.scheme@,
            username: self.username@,
            password: opt_text(self.password),
            host: opt_text(self.host),
            port: self.port,
            path: self.path@,
            query: opt_text(self.query),
            fragment: opt_text(self.fragment),
        }
    }
}

/// The user name and the password as they stand before a host.
pub open spec fn user_text(username: Seq<char>, password: Option<Seq<char>>) -> Seq<char> {
    match password {
        Some(password) => username + ":"@ + password + "@"@,
        None => if username.len() > 0 {
            username + "@"@
        } else {
            Seq::empty()
        },
    }
}

/// A part behind its mark, where there is one.
pub open spec fn marked(mark: Seq<char>, part: Option<Seq<char>>) -> Seq<char> {
    match part {
        Some(part) => mark + part,
        None => Seq::empty(),
    }
}

/// How the components of a URL with a host are written one after the other.
pub open spec fn url_text(parts: UrlPartsV) -> Seq<char> {
    let port = match parts.port {
        Some(port) => Some(decimal_text(port as nat)),
        None => None,
    };
    parts.scheme + "://"@ + user_text(parts.username, parts.password) + parts.host->0 + marked(
        ":"@,
        port,
    ) + parts.path + marked("?"@, parts.query) + marked("#"@, parts.fragment)
}

/// The components of a URL with a host, with the text that they are written as.
pub open spec fn respelled(parts: UrlPartsV) -> UrlPartsV {
    UrlPartsV { serialization: url_text(parts), ..parts }
}

/// The URL has a host that is not empty and is not that of a file: it can have a user name, a
/// password and a port.
pub open spec fn takes_user(parts: UrlPartsV) -> bool {
    parts.host matches Some(host) && host.len() > 0 && parts.scheme != "file"@
}

/// The URL is not longer than the places in it can tell.
pub open spec fn is_within(url: Seq<char>) -> bool {
    encode_utf8(url).len() <= u32::MAX
}

/// `url::Url::parse` and the accessors of the URL that it returns. A host is not empty. Where
/// there is one, the serialization is made of the components; where there is none, or that of
/// a file, there is no user name and no password. The serialization of a URL that can have a
/// user name is that URL again.
#[verifier::external_body]
pub(crate) fn parse_url(text: &str) -> (r: Option<UrlParts>)
    ensures
        match r {
            Some(parts) => {
                &&& url_parts(text@) == Some(parts@)
                &&& parts.host matches Some(host) ==> host@.len() > 0
                &&& parts.host is Some && is_within(parts.serialization@)
                    ==> parts.serialization@ == url_text(parts@)
                &&& takes_user(parts@) && is_within(parts.serialization@) ==> url_parts(
                    parts.serialization@,
                ) == Some(parts@)
                &&& !takes_user(parts@) ==> parts.username@.len() == 0 && parts.password is None
            },
            None => url_parts(text@) is None,
        },
{
    let url = url::Url::parse(text).ok()?;
    Some(UrlParts {
        serialization: url.to_string(),
        scheme: url.scheme().to_string(),
        username: url.username().to_string(),
        password: url.password().map(str::to_string),
        host: url.host_str().map(str::to_string),
        port: url.port(),
        path: url.path().to_string(),
        query: url.query().map(str::to_string),
        fragment: url.fragment().map(str::to_string),
    })
}

/// A URL and what may be added to it, each byte of which may take three, stay within the size
/// that a URL can have.
pub open spec fn has_room(url: Seq<char>, added: Seq<Seq<char>>) -> bool {
    encode_utf8(url).len() + 3 * total_bytes(added) + added.len() + 8 <= u32::MAX
}

/// The text is no URL, or one that is not too long.
pub open spec fn stays_within(text: Seq<char>) -> bool {
    url_parts(text) matches Some(parts) ==> is_within(parts.serialization)
}

/// The text is no URL, or one that leaves room for what may be added.
pub open spec fn leaves_room(text: Seq<char>, added: Seq<Seq<char>>) -> bool {
    url_parts(text) matches Some(parts) ==> has_room(parts.serialization, added)
}

/// What `pop_if_empty` on the path segments leaves of the URL that a text spells; nothing
/// where the text is no URL or its path has no segments.
pub uninterp spec fn segment_popped(text: Seq<char>) -> Option<Seq<char>>;

/// `url::Url::parse`, then `path_segments_mut` and `pop_if_empty`: an empty last segment of
/// the path is dropped. Line feeds of the text are not part of the URL.
#[verifier::external_body]
fn pop_if_empty(text: &str) -> (r: Option<String>)
    requires
        leaves_room(text@, Seq::empty()),
    ensures
        opt_text(r) == segment_popped(text@),
        r is Some ==> url_parts(text@) is Some,
        r matches Some(url) ==> !url@.contains('\n'),
{
    let mut url = url::Url::parse(text).ok()?;
    url.path_segments_mut().ok()?.pop_if_empty();
    Some(url.to_string())
}

/// The URL that a text spells without an empty last segment of its path; nothing where the
/// text is no URL with path segments, or the URL is longer than a URL can be.
pub open spec fn popped_url(text: Seq<char>) -> Option<Seq<char>> {
    if url_parts(text) is Some && leaves_room(text, Seq::empty()) {
        segment_popped(text)
    } else {
        None
    }
}

/// Drops an empty last segment of the path of a URL.
pub(crate) fn pop_empty_segment(text: &str) -> (r: Option<String>)
    ensures
        opt_text(r) == popped_url(text@),
        r is Some ==> url_parts(text@) is Some,
        r matches Some(url) ==> !url@.contains('\n'),
{
    let added: Vec<String> = Vec::new();
    assert(texts(added@) =~= Seq::<Seq<char>>::empty());
    match parse_url(text) {
        Some(parts) => if room(parts.serialization.as_str(), &added) {
            pop_if_empty(text)
        } else {
            None
        },
        None => None,
    }
}

/// The number of bytes of the texts of a list.
pub open spec fn total_bytes(parts: Seq<Seq<char>>) -> int
    decreases parts.len(),
{
    if parts.len() == 0 {
        0
    } else {
        total_bytes(parts.drop_last()) + encode_utf8(parts.last()).len()
    }
}

proof fn lemma_total(parts: Seq<Seq<char>>, n: int)
    requires
        0 <= n <= parts.len(),
    ensures
        0 <= total_bytes(parts.take(n)) <= total_bytes(parts),
    decreases parts.len() - n,
{
    lemma_total_positive(parts.take(n));
    if n < parts.len() {
        lemma_total(parts, n + 1);
        assert(parts.take(n + 1).drop_last() =~= parts.take(n));
    } else {
        assert(parts.take(n) =~= parts);
    }
}

proof fn lemma_total_positive(parts: Seq<Seq<char>>)
    ensures
        0 <= total_bytes(parts),
    decreases parts.len(),
{
    if parts.len() > 0 {
        lemma_total_positive(parts.drop_last());
    }
}

/// Tests whether a URL and what may be added to it stay within the size that a URL can have.
pub fn room(text: &str, segments: &Vec<String>) -> (r: bool)
    ensures
        r == has_room(text@, texts(segments@)),
{
    let ghost all = texts(segments@);
    let limit: u64 = 0xffff_ffff;
    let size: usize = text.as_bytes().len();
    let count: usize = segments.len();
    proof {
        lemma_total_positive(all);
    }
    if size as u64 > limit || count as u64 > limit {
        return false;
    }
    let mut total: u64 = 0;
    let mut i: usize = 0;
    assert(all.take(0) =~= Seq::<Seq<char>>::empty());
    while i < count
        invariant
            i <= count,
            count == segments.len(),
            all == texts(segments@),
            limit == 0xffff_ffff,
            total <= limit,
            total == total_bytes(all.take(i as int)),
        decreases count - i,
    {
        let n: usize = segments[i].as_str().as_bytes().len();
        proof {
            assert(all[i as int] == segments@[i as int]@);
            assert(all.take(i + 1).drop_last() =~= all.take(i as int));
            lemma_total(all, i + 1);
        }
        if n as u64 > limit - total {
            return false;
        }
        total = total + n as u64;
        i = i + 1;
    }
    assert(all.take(i as int) =~= all);
    size as u64 + 3 * total + (count as u64) + 8 <= limit
}

/// What appending path segments makes of the URL that a text spells; nothing where the
/// text is no URL or its path has no segments.
pub uninterp spec fn segments_added(text: Seq<char>, segments: Seq<Seq<char>>) -> Option<Seq<char>>;

/// `url::Url::parse`, then `path_segments_mut` and `extend`: the segments are appended to
/// the path, each behind a slash and percent-encoded. Of a URL that can have a user name the
/// other parts stay.
#[verifier::external_body]
fn extend_path(text: &str, segments: &Vec<String>) -> (r: Option<String>)
    requires
        leaves_room(text@, texts(segments@)),
    ensures
        opt_text(r) == segments_added(text@, texts(segments@)),
        r is Some ==> url_parts(text@) is Some,
        r matches Some(url) ==> encode_utf8(url@).len() <= encode_utf8(
            url_parts(text@)->0.serialization,
        ).len() + 3 * total_bytes(texts(segments@)) + segments@.len(),
        r matches Some(url) ==> takes_user(url_parts(text@)->0) ==> (url_parts(url@) matches Some(
            longer,
        ) && url@ == url_text(longer) && longer == (UrlPartsV {
            serialization: url@,
            path: longer.path,
            ..url_parts(text@)->0
        })),
{
    let mut url = url::Url::parse(text).ok()?;
    url.path_segments_mut().ok()?.extend(segments);
    Some(url.to_string())
}

/// The URL that a text spells with segments appended to its path; nothing where the text is
/// no URL with path segments, or the URL would be longer than a URL can be.
pub open spec fn extended_url(text: Seq<char>, segments: Seq<Seq<char>>) -> Option<Seq<char>> {
    if url_parts(text) is Some && leaves_room(text, segments) {
        segments_added(text, segments)
    } else {
        None
    }
}

/// Appends segments to the path of a URL.
pub(crate) fn extend_segments(text: &str, segments: &Vec<String>) -> (r: Option<String>)
    ensures
        opt_text(r) == extended_url(text@, texts(segments@)),
        r is Some ==> url_parts(text@) is Some,
        r matches Some(url) ==> is_within(url@),
        r matches Some(url) ==> takes_user(url_parts(text@)->0) ==> (url_parts(url@) matches Some(
            longer,
        ) && url@ == url_text(longer) && longer == (UrlPartsV {
            serialization: url@,
            path: longer.path,
            ..url_parts(text@)->0
        })),
{
    match parse_url(text) {
        Some(parts) => if room(parts.serialization.as_str(), segments) {
            extend_path(text, segments)
        } else {
            None
        },
        None => None,
    }
}

/// The URL that a text spells with another user name; nothing where it cannot have one.
pub uninterp spec fn username_set(text: Seq<char>, username: Seq<char>) -> Option<Seq<char>>;

/// `url::Url::parse`, then `set_username`, which a URL without a host and that of a file
/// refuse. Without a user name the other parts stay.
#[verifier::external_body]
fn set_username(text: &str, username: &str) -> (r: Option<String>)
    requires
        leaves_room(text@, seq![username@]) || username@.len() == 0 && stays_within(text@),
    ensures
        opt_text(r) == username_set(text@, username@),
        r is Some <==> (url_parts(text@) matches Some(parts) && takes_user(parts)),
        r matches Some(url) ==> username@.len() == 0 ==> {
            let parts = UrlPartsV { username: Seq::empty(), ..url_parts(text@)->0 };
            url@ == url_text(parts) && url_parts(url@) == Some(respelled(parts))
        },
{
    let mut url = url::Url::parse(text).ok()?;
    url.set_username(username).ok()?;
    Some(url.to_string())
}

/// The URL that a text spells with another password; nothing where it cannot have one.
pub uninterp spec fn password_set(text: Seq<char>, password: Option<Seq<char>>) -> Option<
    Seq<char>,
>;

/// The characters of a text that may be there.
pub open spec fn opt_str(s: Option<&str>) -> Option<Seq<char>> {
    match s {
        Some(s) => Some(s@),
        None => None,
    }
}

/// `url::Url::parse`, then `set_password`, which a URL without a host and that of a file
/// refuse. Without a password the other parts stay.
#[verifier::external_body]
fn set_password(text: &str, password: Option<&str>) -> (r: Option<String>)
    requires
        leaves_room(text@, seq![marked(Seq::empty(), opt_str(password))]) || password is None
            && stays_within(text@),
    ensures
        opt_text(r) == password_set(text@, opt_str(password)),
        r is Some <==> (url_parts(text@) matches Some(parts) && takes_user(parts)),
        r matches Some(url) ==> password is None ==> {
            let parts = UrlPartsV { password: None, ..url_parts(text@)->0 };
            url@ == url_text(parts) && url_parts(url@) == Some(respelled(parts))
        },
{
    let mut url = url::Url::parse(text).ok()?;
    url.set_password(password).ok()?;
    Some(url.to_string())
}

/// The URL that a text spells with another port; nothing where it cannot have one.
pub uninterp spec fn port_set(text: Seq<char>, port: Option<u16>) -> Option<Seq<char>>;

/// `url::Url::parse`, then `set_port`, which a URL without a host and that of a file refuse.
/// Without a port the other parts stay.
#[verifier::external_body]
fn set_port(text: &str, port: Option<u16>) -> (r: Option<String>)
    requires
        leaves_room(text@, Seq::empty()) || port is None && stays_within(text@),
    ensures
        opt_text(r) == port_set(text@, port),
        r is Some <==> (url_parts(text@) matches Some(parts) && takes_user(parts)),
        r matches Some(url) ==> port is None ==> {
            let parts = UrlPartsV { port: None, ..url_parts(text@)->0 };
            url@ == url_text(parts) && url_parts(url@) == Some(respelled(parts))
        },
{
    let mut url = url::Url::parse(text).ok()?;
    url.set_port(port).ok()?;
    Some(url.to_string())
}

/// The schemes whose URLs always have a path.
pub open spec fn is_special(scheme: Seq<char>) -> bool {
    scheme == "http"@ || scheme == "https"@ || scheme == "ws"@ || scheme == "wss"@ || scheme
        == "ftp"@ || scheme == "file"@
}

/// A path that a URL of the scheme can have: that of some schemes is not empty.
pub open spec fn path_for(scheme: Seq<char>, path: Seq<char>) -> Seq<char> {
    if path.len() == 0 && is_special(scheme) {
        "/"@
    } else {
        path
    }
}

/// The URL that a text spells with another path; nothing where the text is no URL.
pub uninterp spec fn path_set(text: Seq<char>, path: Seq<char>) -> Option<Seq<char>>;

/// `url::Url::parse`, then `set_path`. Where a URL with a host gets its own path without the
/// slashes at the end, that is its path, and the other parts stay.
#[verifier::external_body]
fn set_path(text: &str, path: &str) -> (r: Option<String>)
    requires
        leaves_room(text@, seq![path@]) || stays_within(text@) && (url_parts(text@) matches Some(
            parts,
        ) ==> takes_user(parts) && path@ == without_suffixes(parts.path, "/"@)),
    ensures
        opt_text(r) == path_set(text@, path@),
        r is Some <==> url_parts(text@) is Some,
        r matches Some(url) ==> {
            let parts = url_parts(text@)->0;
            let changed = UrlPartsV { path: path_for(parts.scheme, path@), ..parts };
            takes_user(parts) && path@ == without_suffixes(parts.path, "/"@) ==> url@ == url_text(
                changed,
            ) && url_parts(url@) == Some(respelled(changed))
        },
{
    let mut url = url::Url::parse(text).ok()?;
    url.set_path(path);
    Some(url.to_string())
}

/// The parts of a URL without a user name and a password.
pub open spec fn anonymous(parts: UrlPartsV) -> UrlPartsV {
    UrlPartsV { username: Seq::empty(), password: None, ..parts }
}

/// A URL without its user name and its password.
pub open spec fn anonymous_text(parts: UrlPartsV) -> Seq<char> {
    if takes_user(parts) {
        url_text(anonymous(parts))
    } else {
        parts.serialization
    }
}

/// The room that the changes of a URL need: its own path may be set again, which takes no
/// room where the URL can have a user name.
pub open spec fn is_changeable(parts: UrlPartsV) -> bool {
    if takes_user(parts) {
        is_within(parts.serialization)
    } else {
        has_room(parts.serialization, seq![parts.path])
    }
}

/// Tests whether a URL can be changed.
pub(crate) fn changeable(parts: &UrlParts) -> (r: bool)
    ensures
        r == is_changeable(parts@),
{
    if can_take_user(parts) {
        return parts.serialization.as_str().as_bytes().len() as u64 <= 0xffff_ffff;
    }
    let mut added: Vec<String> = Vec::new();
    added.push(parts.path.clone());
    assert(texts(added@) =~= seq![parts.path@]);
    room(parts.serialization.as_str(), &added)
}

/// The number of bytes of a text.
spec fn size(s: Seq<char>) -> int {
    encode_utf8(s).len() as int
}

proof fn lemma_url_size(parts: UrlPartsV)
    ensures
        size(url_text(parts)) == size(parts.scheme) + size("://"@) + size(
            user_text(parts.username, parts.password),
        ) + size(parts.host->0) + size(
            marked(
                ":"@,
                match parts.port {
                    Some(port) => Some(decimal_text(port as nat)),
                    None => None,
                },
            ),
        ) + size(parts.path) + size(marked("?"@, parts.query)) + size(
            marked("#"@, parts.fragment),
        ),
{
    let port = match parts.port {
        Some(port) => Some(decimal_text(port as nat)),
        None => None,
    };
    let a = parts.scheme;
    let b = a + "://"@;
    let c = b + user_text(parts.username, parts.password);
    let d = c + parts.host->0;
    let e = d + marked(":"@, port);
    let f = e + parts.path;
    let g = f + marked("?"@, parts.query);
    lemma_bytes_of_parts(a, "://"@);
    lemma_bytes_of_parts(b, user_text(parts.username, parts.password));
    lemma_bytes_of_parts(c, parts.host->0);
    lemma_bytes_of_parts(d, marked(":"@, port));
    lemma_bytes_of_parts(e, parts.path);
    lemma_bytes_of_parts(f, marked("?"@, parts.query));
    lemma_bytes_of_parts(g, marked("#"@, parts.fragment));
}

proof fn lemma_user_size(username: Seq<char>, password: Option<Seq<char>>)
    ensures
        size(user_text(Seq::empty(), password)) <= size(user_text(username, password)),
        size(user_text(username, None)) <= size(user_text(username, password)),
        size(user_text(Seq::empty(), None)) == 0,
{
    let none = Seq::<char>::empty();
    assert(encode_utf8(none) =~= Seq::<u8>::empty());
    lemma_bytes_of_parts(username, "@"@);
    match password {
        Some(password) => {
            lemma_bytes_of_parts(username, ":"@);
            lemma_bytes_of_parts(username + ":"@, password);
            lemma_bytes_of_parts(username + ":"@ + password, "@"@);
            lemma_bytes_of_parts(none, ":"@);
            lemma_bytes_of_parts(none + ":"@, password);
            lemma_bytes_of_parts(none + ":"@ + password, "@"@);
        },
        None => {},
    }
}

/// A URL does not grow where a user name, a password or a port is taken out.
proof fn lemma_parts_taken_out(parts: UrlPartsV)
    ensures
        size(url_text(UrlPartsV { username: Seq::empty(), ..parts })) <= size(url_text(parts)),
        size(url_text(UrlPartsV { password: None, ..parts })) <= size(url_text(parts)),
        size(url_text(UrlPartsV { port: None, ..parts })) <= size(url_text(parts)),
{
    let none = Seq::<char>::empty();
    assert(encode_utf8(none) =~= Seq::<u8>::empty());
    lemma_user_size(parts.username, parts.password);
    lemma_url_size(parts);
    lemma_url_size(UrlPartsV { username: none, ..parts });
    lemma_url_size(UrlPartsV { password: None, ..parts });
    lemma_url_size(UrlPartsV { port: None, ..parts });
}

proof fn lemma_no_text(added: Seq<Seq<char>>)
    requires
        added == seq![Seq::<char>::empty()],
    ensures
        total_bytes(added) == 0,
{
    assert(encode_utf8(Seq::<char>::empty()) =~= Seq::<u8>::empty());
    assert(added.drop_last() =~= Seq::<Seq<char>>::empty());
    reveal_with_fuel(total_bytes, 2);
}

/// Takes the user name and the password out of a URL.
pub(crate) fn drop_user(text: &str, parts: &UrlParts) -> (r: String)
    requires
        url_parts(text@) == Some(parts@),
        takes_user(parts@) ==> parts.serialization@ == url_text(parts@),
        is_changeable(parts@),
    ensures
        r@ == anonymous_text(parts@),
        takes_user(parts@) ==> url_parts(r@) == Some(respelled(anonymous(parts@))),
{
    let ghost nothing = seq![Seq::<char>::empty()];
    proof {
        lemma_no_text(nothing);
        lemma_total_positive(seq![parts@.path]);
        reveal_strlit("");
        assert(""@ =~= Seq::<char>::empty());
        assert(seq![""@] =~= nothing);
    }
    let nameless = match set_username(text, "") {
        Some(url) => url,
        None => {
            return parts.serialization.clone();
        },
    };
    proof {
        lemma_parts_taken_out(parts@);
        assert(seq![marked(Seq::empty(), None)] =~= nothing);
    }
    match set_password(nameless.as_str(), None) {
        Some(url) => url,
        None => nameless,
    }
}

/// The port that a URL of its scheme need not name.
pub open spec fn is_default_port(parts: UrlPartsV) -> bool {
    (parts.scheme == "https"@ && parts.port == Some(443u16)) || (parts.scheme == "ssh"@
        && parts.port == Some(22u16))
}

/// The parts of a URL without a user name and a password, without the default port and
/// without slashes at the end of the path.
pub open spec fn canonical_parts(parts: UrlPartsV) -> UrlPartsV {
    UrlPartsV {
        username: Seq::empty(),
        password: None,
        port: if is_default_port(parts) {
            None
        } else {
            parts.port
        },
        path: if parts.path.len() > 1 {
            path_for(parts.scheme, without_suffixes(parts.path, "/"@))
        } else {
            parts.path
        },
        ..parts
    }
}

/// The plain form of the URL that a text spells: it is made of the canonical parts. A URL that
/// cannot have a user name gets its path without the slashes at the end. Nothing where the
/// text is no URL, or one that is too long.
pub open spec fn plain_form(text: Seq<char>) -> Option<Seq<char>> {
    match url_parts(text) {
        Some(parts) => if !is_changeable(parts) {
            None
        } else if takes_user(parts) {
            Some(url_text(canonical_parts(parts)))
        } else if parts.path.len() > 1 {
            path_set(text, without_suffixes(parts.path, "/"@))
        } else {
            Some(parts.serialization)
        },
        None => None,
    }
}

/// Tests whether a URL can have a user name.
pub(crate) fn can_take_user(parts: &UrlParts) -> (r: bool)
    ensures
        r == takes_user(parts@),
{
    match &parts.host {
        Some(host) => !host.as_str().is_empty() && !text::same(parts.scheme.as_str(), "file"),
        None => false,
    }
}

proof fn lemma_suffixes_take_no_bytes(s: Seq<char>, suffix: Seq<char>)
    ensures
        size(without_suffixes(s, suffix)) <= size(s),
    decreases s.len(),
{
    if suffix.len() > 0 && has_suffix(s, suffix) {
        let t = s.take(s.len() - suffix.len());
        lemma_suffixes_take_no_bytes(t, suffix);
        assert(s =~= t + s.skip(s.len() - suffix.len()));
        lemma_bytes_of_parts(t, s.skip(s.len() - suffix.len()));
    }
}

proof fn lemma_one_text(s: Seq<char>)
    ensures
        total_bytes(seq![s]) == size(s),
        total_bytes(Seq::empty()) == 0,
{
    assert(seq![s].drop_last() =~= Seq::<Seq<char>>::empty());
    reveal_with_fuel(total_bytes, 2);
}

/// The plain form of the URL that a text spells.
pub(crate) fn plain_url(text: &str) -> (r: Option<String>)
    ensures
        opt_text(r) == plain_form(text@),
{
    let parts = match parse_url(text) {
        Some(parts) => parts,
        None => {
            return None;
        },
    };
    if !changeable(&parts) {
        return None;
    }
    let https = text::same(parts.scheme.as_str(), "https");
    let ssh = text::same(parts.scheme.as_str(), "ssh");
    let defaulted = match parts.port {
        Some(number) => (https && number == 443) || (ssh && number == 22),
        None => false,
    };
    let trimmed = parts.path.as_str().unicode_len() > 1;
    let path = if trimmed {
        text::trim_end_matches(parts.path.as_str(), "/")
    } else {
        parts.path.clone()
    };
    let ghost p = parts@;
    let ghost q = anonymous(p);
    proof {
        lemma_suffixes_take_no_bytes(p.path, "/"@);
        lemma_one_text(path@);
        lemma_one_text(p.path);
    }
    let userless = drop_user(text, &parts);
    if !can_take_user(&parts) {
        if trimmed {
            return set_path(text, path.as_str());
        }
        return Some(userless);
    }
    proof {
        lemma_parts_taken_out(p);
        lemma_parts_taken_out(UrlPartsV { username: Seq::empty(), ..p });
        lemma_parts_taken_out(q);
        assert(url_text(respelled(q)) == url_text(q));
    }
    let portless = if defaulted {
        match set_port(userless.as_str(), None) {
            Some(url) => url,
            None => userless,
        }
    } else {
        userless
    };
    if trimmed {
        set_path(portless.as_str(), path.as_str())
    } else {
        Some(portless)
    }
}

/// The canonical form of an address leaves out who asks, a port that its scheme implies and
/// slashes at the end of the path; everything else stays.
pub proof fn canonical_parts_name_the_place(parts: UrlPartsV)
    ensures
        canonical_parts(parts).username.len() == 0 && canonical_parts(parts).password is None,
        canonical_parts(parts).scheme == parts.scheme && canonical_parts(parts).host == parts.host,
        canonical_parts(parts).query == parts.query && canonical_parts(parts).fragment
            == parts.fragment,
        parts.scheme == "https"@ && parts.port == Some(443u16) ==> canonical_parts(
            parts,
        ).port is None,
        parts.scheme == "ssh"@ && parts.port == Some(22u16) ==> canonical_parts(parts).port is None,
        parts.port != Some(443u16) && parts.port != Some(22u16) ==> canonical_parts(parts).port
            == parts.port,
        parts.scheme != "https"@ && parts.scheme != "ssh"@ ==> canonical_parts(parts).port
            == parts.port,
        parts.path.len() > 1 && parts.path.last() != '/' ==> canonical_parts(parts).path
            == parts.path,
        parts.path.len() > 1 && parts.path.last() != '/' ==> canonical_parts(
            UrlPartsV { path: parts.path.push('/'), ..parts },
        ).path == parts.path,
        canonical_parts(UrlPartsV { username: Seq::empty(), password: None, ..parts })
            == canonical_parts(parts),
{
    reveal_strlit("/");
    reveal_with_fuel(without_suffixes, 2);
    let path = parts.path;
    if path.len() > 1 && path.last() != '/' {
        let longer = path.push('/');
        assert(!crate::text::has_suffix(path, "/"@)) by {
            if crate::text::has_suffix(path, "/"@) {
                assert(path.skip(path.len() - 1)[0] == path.last());
            }
        }
        assert(longer.skip(longer.len() - 1) =~= "/"@);
        assert(longer.take(longer.len() - 1) =~= path);
    }
}

/// The text of an address without the one who asks holds no name and no password; the other
/// parts stand in it as they were.
pub proof fn anonymous_addresses_hold_no_user(parts: UrlPartsV)
    requires
        takes_user(parts),
    ensures
        anonymous_text(parts) == anonymous_text(
            UrlPartsV { username: Seq::empty(), password: None, ..parts },
        ),
        parts.username.len() == 0 && parts.password is None ==> anonymous_text(parts) == url_text(
            parts,
        ),
        parts.port is None && parts.query is None && parts.fragment is None ==> anonymous_text(
            parts,
        ) == parts.scheme + "://"@ + parts.host->0 + parts.path,
{
    assert(anonymous(anonymous(parts)) == anonymous(parts));
    if parts.port is None && parts.query is None && parts.fragment is None {
        assert(anonymous_text(parts) =~= parts.scheme + "://"@ + parts.host->0 + parts.path);
    }
    if parts.username.len() == 0 && parts.password is None {
        assert(parts.username =~= Seq::empty());
        assert(anonymous(parts) == parts);
    }
}

} // verus!
