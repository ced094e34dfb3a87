//! Where artifacts are kept.
use crate::bytes;
use crate::bytes::{frames, le_bytes};
use crate::digest;
use crate::digest::hash_key_of;
use crate::git::{GitOid, GitUrl};
use crate::location::{Base, Location, LocationV};
use crate::metadata::{
    components_order, equal_versions_are_significantly_the_same, significant, Version, VersionV,
};
use crate::order::Order;
use crate::path;
use crate::path::{components_of, same_place};
use crate::project::cache_dir_path;
use crate::r::RVersion;
use crate::repository::same_subdirectory;
use crate::text;
use crate::text::{has_prefix, hex_text, opt_text, texts};
use vstd::prelude::*;
use vstd::utf8::encode_utf8;

verus! {

/// The version of the layout of kept source artifacts.
pub const SOURCE_ARTIFACT_CACHE_VERSION: &'static str = "v1";

/// The version of the layout of kept binary artifacts.
pub const BINARY_ARTIFACT_CACHE_VERSION: &'static str = "v1";

/// The version of the layout of kept compiled packages.
pub const COMPILED_PACKAGE_CACHE_VERSION: &'static str = "v1";

/// The version of the layout of packages that are ready to be installed.
pub const INSTALLER_CACHE_VERSION: &'static str = "v1";

/// The operating systems that binary packages are told apart by.
#[derive(Clone, Copy, PartialEq, Eq, Structural, Debug)]
pub enum OsFamily {
    Windows,
    MacOs,
    Other,
}

/// A platform: its name and its operating system.
#[derive(Debug)]
pub struct Target {
    pub text: String,
    pub os: OsFamily,
}

/// The operating system of a platform, as far as it is told apart.
#[derive(Clone, Copy, PartialEq, Eq, Structural, Debug)]
pub enum OperatingSystem {
    Windows,
    Darwin,
    MacOsX,
    Another,
}

/// The family of an operating system: that of macOS has two names.
pub open spec fn os_family(os: OperatingSystem) -> OsFamily {
    match os {
        OperatingSystem::Windows => OsFamily::Windows,
        OperatingSystem::Darwin => OsFamily::MacOs,
        OperatingSystem::MacOsX => OsFamily::MacOs,
        OperatingSystem::Another => OsFamily::Other,
    }
}

impl OperatingSystem {
    /// The family of an operating system.
    pub fn family(self) -> (r: OsFamily)
        ensures
            r == os_family(self),
    {
        match self {
            OperatingSystem::Windows => OsFamily::Windows,
            OperatingSystem::Darwin => OsFamily::MacOs,
            OperatingSystem::MacOsX => OsFamily::MacOs,
            OperatingSystem::Another => OsFamily::Other,
        }
    }
}

/// What `target_lexicon::Triple::from_str` makes of a text: the name of the platform as it
/// is shown and its operating system, or nothing.
pub uninterp spec fn parsed_target(text: Seq<char>) -> Option<(Seq<char>, OperatingSystem)>;

/// `target_lexicon::Triple::from_str`, and the name and the operating system of what it
/// returns.
#[verifier::external_body]
fn parse_triple(text: &str) -> (r: Option<(String, OperatingSystem)>)
    ensures
        match r {
            Some((name, os)) => parsed_target(text@) == Some((name@, os)),
            None => parsed_target(text@) is None,
        },
{
    let triple = text.parse::<target_lexicon::Triple>().ok()?;
    let os = match triple.operating_system {
        target_lexicon::OperatingSystem::Windows => OperatingSystem::Windows,
        target_lexicon::OperatingSystem::Darwin(_) => OperatingSystem::Darwin,
        target_lexicon::OperatingSystem::MacOSX(_) => OperatingSystem::MacOsX,
        _ => OperatingSystem::Another,
    };
    Some((triple.to_string(), os))
}

impl Target {
    /// The name and the operating system.
    pub open spec fn view(&self) -> (Seq<char>, OsFamily) {
        (self.text@, self.os)
    }

    /// Reads the name of a platform.
    pub fn parse(text: &str) -> (r: Option<Target>)
        ensures
            match r {
                Some(target) => parsed_target(text@) matches Some((name, os)) && target@ == (
                    name,
                    os_family(os),
                ),
                None => parsed_target(text@) is None,
            },
    {
        match parse_triple(text) {
            Some((text, os)) => Some(Target { text, os: os.family() }),
            None => None,
        }
    }

    /// A copy.
    pub fn copy(&self) -> (r: Target)
        ensures
            r@ == self@,
    {
        Target { text: self.text.clone(), os: self.os }
    }
}

/// A registry that an artifact comes from.
#[derive(Debug)]
pub enum RegistryIdentity {
    Cran(String),
    Rrepo(String),
}

/// A registry that an artifact comes from.
pub enum RegistryV {
    Cran(Seq<char>),
    Rrepo(Seq<char>),
}

impl RegistryIdentity {
    /// The registry, as characters.
    pub open spec fn view(&self) -> RegistryV {
        match self {
            RegistryIdentity::Cran(url) => RegistryV::Cran(url@),
            RegistryIdentity::Rrepo(url) => RegistryV::Rrepo(url@),
        }
    }

    /// A copy.
    pub fn copy(&self) -> (r: RegistryIdentity)
        ensures
            r@ == self@,
    {
        match self {
            RegistryIdentity::Cran(url) => RegistryIdentity::Cran(url.clone()),
            RegistryIdentity::Rrepo(url) => RegistryIdentity::Rrepo(url.clone()),
        }
    }
}

/// What a source artifact is made from.
#[derive(Debug)]
pub enum SourceArtifactIdentity {
    Registry(RegistryIdentity),
    Git { remote: GitUrl, commit: GitOid, subdirectory: Option<String> },
    Local(String),
}

/// What a source artifact is made from.
pub enum SourceV {
    Registry(RegistryV),
    Git(Seq<char>, Seq<char>, Option<Seq<char>>),
    Local(Seq<char>),
}

impl SourceArtifactIdentity {
    /// The source, as characters.
    pub open spec fn view(&self) -> SourceV {
        match self {
            SourceArtifactIdentity::Registry(registry) => SourceV::Registry(registry@),
            SourceArtifactIdentity::Git { remote, commit, subdirectory } => SourceV::Git(
                remote@,
                commit@,
                opt_text(*subdirectory),
            ),
            SourceArtifactIdentity::Local(path) => SourceV::Local(path@),
        }
    }
}

/// What tells a source artifact from others.
#[derive(Debug)]
pub struct SourceArtifactCacheKey {
    pub source: SourceArtifactIdentity,
    pub package: String,
    pub version: Version,
}

/// What tells a source artifact from others.
pub struct SourceKeyV {
    pub source: SourceV,
    pub package: Seq<char>,
    pub version: VersionV,
}

impl SourceArtifactCacheKey {
    /// The key, as characters.
    pub open spec fn view(&self) -> SourceKeyV {
        SourceKeyV { source: self.source@, package: self.package@, version: self.version@ }
    }

    /// A key.
    pub fn new(source: SourceArtifactIdentity, package: &str, version: Version) -> (r:
        SourceArtifactCacheKey)
        ensures
            r@ == (SourceKeyV { source: source@, package: package@, version: version@ }),
    {
        SourceArtifactCacheKey { source, package: package.to_owned(), version }
    }
}

/// What tells a binary artifact from others.
#[derive(Debug)]
pub struct BinaryArtifactCacheKey {
    pub repository: RegistryIdentity,
    pub package: String,
    pub version: Version,
    pub target: Target,
    pub r_version: RVersion,
}

/// What tells a binary artifact from others.
pub struct BinaryKeyV {
    pub repository: RegistryV,
    pub package: Seq<char>,
    pub version: VersionV,
    pub target: (Seq<char>, OsFamily),
    pub r_version: Seq<char>,
}

impl BinaryArtifactCacheKey {
    /// The key, as characters.
    pub open spec fn view(&self) -> BinaryKeyV {
        BinaryKeyV {
            repository: self.repository@,
            package: self.package@,
            version: self.version@,
            target: self.target@,
            r_version: self.r_version@,
        }
    }

    /// A key.
    pub fn new(
        repository: RegistryIdentity,
        package: &str,
        version: Version,
        target: Target,
        r_version: RVersion,
    ) -> (r: BinaryArtifactCacheKey)
        ensures
            r@ == (BinaryKeyV {
                repository: repository@,
                package: package@,
                version: version@,
                target: target@,
                r_version: r_version@,
            }),
    {
        BinaryArtifactCacheKey {
            repository,
            package: package.to_owned(),
            version,
            target,
            r_version,
        }
    }
}

/// What tells a compiled package from others.
#[derive(Debug)]
pub struct CompiledPackageCacheKey {
    pub repository: RegistryIdentity,
    pub package: String,
    pub version: Version,
    pub target: Target,
    pub r_version: RVersion,
}

impl CompiledPackageCacheKey {
    /// The key, as characters.
    pub open spec fn view(&self) -> BinaryKeyV {
        BinaryKeyV {
            repository: self.repository@,
            package: self.package@,
            version: self.version@,
            target: self.target@,
            r_version: self.r_version@,
        }
    }

    /// A key.
    pub fn new(
        repository: RegistryIdentity,
        package: &str,
        version: Version,
        target: Target,
        r_version: RVersion,
    ) -> (r: CompiledPackageCacheKey)
        ensures
            r@ == (BinaryKeyV {
                repository: repository@,
                package: package@,
                version: version@,
                target: target@,
                r_version: r_version@,
            }),
    {
        CompiledPackageCacheKey {
            repository,
            package: package.to_owned(),
            version,
            target,
            r_version,
        }
    }
}

/// The bytes of texts.
pub open spec fn encoded(v: Seq<Seq<char>>) -> Seq<Seq<u8>> {
    v.map_values(|s: Seq<char>| encode_utf8(s))
}

/// The fields of a registry.
pub open spec fn registry_fields(registry: RegistryV) -> Seq<Seq<char>> {
    match registry {
        RegistryV::Cran(url) => seq!["cran"@, url],
        RegistryV::Rrepo(url) => seq!["rrepo"@, url],
    }
}

/// The fields of a path, the same for all paths that lead to the same place.
pub open spec fn path_fields(place: Seq<char>) -> Seq<Seq<char>> {
    seq![
        if has_prefix(place, "/"@) {
            "absolute"@
        } else {
            "relative"@
        },
    ] + components_of(place)
}

/// The fields of a source.
pub open spec fn source_fields(source: SourceV) -> Seq<Seq<char>> {
    match source {
        SourceV::Registry(registry) => seq!["registry"@] + registry_fields(registry),
        SourceV::Git(remote, commit, None) => seq!["git"@, remote, commit],
        SourceV::Git(remote, commit, Some(place)) => seq!["git"@, remote, commit] + path_fields(
            place,
        ),
        SourceV::Local(place) => seq!["local"@] + path_fields(place),
    }
}

/// The bytes of the components of a version, without the zeros at the end.
pub open spec fn version_bytes(components: Seq<u32>) -> Seq<u8>
    decreases components.len(),
{
    if components.len() == 0 {
        Seq::empty()
    } else {
        version_bytes(components.drop_last()) + le_bytes(components.last() as nat, 8)
    }
}

/// The bytes that a key is known by.
pub open spec fn source_key_fields(key: SourceKeyV) -> Seq<Seq<u8>> {
    encoded(source_fields(key.source) + seq![key.package]) + seq![
        version_bytes(significant(key.version.components)),
    ]
}

/// The bytes that a key is known by.
pub open spec fn binary_key_fields(key: BinaryKeyV) -> Seq<Seq<u8>> {
    encoded(registry_fields(key.repository) + seq![key.package, key.target.0, key.r_version])
        + seq![version_bytes(significant(key.version.components))]
}

/// Sixteen hexadecimal digits for fields.
pub open spec fn fields_digest(fields: Seq<Seq<u8>>) -> Seq<char> {
    hash_key_of(hex_text(frames(fields)))
}

/// The place of a source artifact.
pub open spec fn source_artifact_place(package: Seq<char>, digest: Seq<char>) -> LocationV {
    LocationV {
        base: Base::Cache,
        parts: seq![
            "artifacts"@,
            "source"@,
            SOURCE_ARTIFACT_CACHE_VERSION@,
            package,
            digest,
            "artifact.tar.gz"@,
        ],
    }
}

/// The name of a binary artifact.
pub open spec fn binary_file_name(key: BinaryKeyV) -> Seq<char> {
    match key.target.1 {
        OsFamily::Windows => key.package + "_"@ + key.version.text + ".zip"@,
        OsFamily::MacOs => key.package + "_"@ + key.version.text + ".tgz"@,
        OsFamily::Other => "artifact.bin"@,
    }
}

/// The place of a binary artifact.
pub open spec fn binary_artifact_place(key: BinaryKeyV, digest: Seq<char>) -> LocationV {
    LocationV {
        base: Base::Cache,
        parts: seq![
            "artifacts"@,
            "binary"@,
            BINARY_ARTIFACT_CACHE_VERSION@,
            key.package,
            digest,
            binary_file_name(key),
        ],
    }
}

/// The place of a compiled package.
pub open spec fn compiled_package_place(package: Seq<char>, digest: Seq<char>) -> LocationV {
    LocationV {
        base: Base::Cache,
        parts: seq!["builds"@, COMPILED_PACKAGE_CACHE_VERSION@, package, digest, "package"@],
    }
}

fn push_all(list: &mut Vec<String>, more: Vec<String>)
    ensures
        texts(final(list)@) == texts(old(list)@) + texts(more@),
{
    let ghost start = list@;
    let mut i: usize = 0;
    while i < more.len()
        invariant
            i <= more@.len(),
            texts(list@) == texts(start) + texts(more@).take(i as int),
        decreases more@.len() - i,
    {
        let ghost before = list@;
        list.push(more[i].clone());
        assert(texts(list@) =~= texts(before).push(more@[i as int]@));
        assert(texts(more@).take(i + 1) =~= texts(more@).take(i as int).push(
            texts(more@)[i as int],
        ));
        i = i + 1;
    }
    assert(texts(more@).take(i as int) =~= texts(more@));
}

fn list_registry(registry: &RegistryIdentity) -> (r: Vec<String>)
    ensures
        texts(r@) == registry_fields(registry@),
{
    let mut r: Vec<String> = Vec::new();
    match registry {
        RegistryIdentity::Cran(url) => {
            r.push("cran".to_owned());
            r.push(url.clone());
        },
        RegistryIdentity::Rrepo(url) => {
            r.push("rrepo".to_owned());
            r.push(url.clone());
        },
    }
    assert(texts(r@) =~= registry_fields(registry@));
    r
}

fn list_path(place: &str) -> (r: Vec<String>)
    ensures
        texts(r@) == path_fields(place@),
{
    let mut r: Vec<String> = Vec::new();
    if text::starts_with(place, "/") {
        r.push("absolute".to_owned());
    } else {
        r.push("relative".to_owned());
    }
    let parts = path::components(place);
    push_all(&mut r, parts);
    assert(texts(r@) =~= path_fields(place@));
    r
}

fn list_source(source: &SourceArtifactIdentity) -> (r: Vec<String>)
    ensures
        texts(r@) == source_fields(source@),
{
    let mut r: Vec<String> = Vec::new();
    match source {
        SourceArtifactIdentity::Registry(registry) => {
            r.push("registry".to_owned());
            push_all(&mut r, list_registry(registry));
        },
        SourceArtifactIdentity::Git { remote, commit, subdirectory } => {
            r.push("git".to_owned());
            r.push(remote.as_str().to_owned());
            r.push(commit.to_text());
            match subdirectory {
                Some(place) => {
                    assert(texts(r@) =~= seq!["git"@, remote@, commit@]);
                    push_all(&mut r, list_path(place.as_str()));
                },
                None => {},
            }
        },
        SourceArtifactIdentity::Local(place) => {
            r.push("local".to_owned());
            push_all(&mut r, list_path(place.as_str()));
        },
    }
    assert(texts(r@) =~= source_fields(source@));
    r
}

fn list_version(version: &Version) -> (r: Vec<u8>)
    ensures
        r@ == version_bytes(significant(version.components@)),
{
    let parts = version.significant();
    let ghost all = parts@;
    let mut out: Vec<u8> = Vec::new();
    let mut i: usize = 0;
    assert(all.take(0) =~= Seq::<u32>::empty());
    while i < parts.len()
        invariant
            i <= parts@.len(),
            all == parts@,
            out@ == version_bytes(all.take(i as int)),
        decreases parts@.len() - i,
    {
        assert(all.take(i + 1).drop_last() =~= all.take(i as int));
        bytes::push_number(&mut out, parts[i] as u64);
        i = i + 1;
    }
    assert(all.take(i as int) =~= all);
    out
}

fn digest_fields(fields: &Vec<String>, version: &Version) -> (r: String)
    ensures
        r@ == fields_digest(
            encoded(texts(fields@)) + seq![version_bytes(significant(version.components@))],
        ),
{
    let ghost all = encoded(texts(fields@));
    let mut out: Vec<u8> = Vec::new();
    let mut i: usize = 0;
    assert(all.take(0) =~= Seq::<Seq<u8>>::empty());
    while i < fields.len()
        invariant
            i <= fields@.len(),
            all == encoded(texts(fields@)),
            out@ == frames(all.take(i as int)),
        decreases fields@.len() - i,
    {
        bytes::push_text(&mut out, fields[i].as_str(), Ghost(all.take(i as int)));
        assert(all.take(i + 1) =~= all.take(i as int).push(all[i as int]));
        i = i + 1;
    }
    assert(all.take(i as int) =~= all);
    let last = list_version(version);
    bytes::push_field(&mut out, last.as_slice(), Ghost(all));
    assert(all.push(last@) =~= all + seq![last@]);
    let spelled = text::hex(&out);
    digest::hash_key(spelled.as_str())
}

/// The place of a source artifact.
pub fn source_artifact_cache_path(key: &SourceArtifactCacheKey) -> (r: Location)
    ensures
        r@ == source_artifact_place(key@.package, fields_digest(source_key_fields(key@))),
{
    let mut fields = list_source(&key.source);
    let ghost before = fields@;
    fields.push(key.package.clone());
    assert(texts(fields@) =~= source_fields(key@.source) + seq![key@.package]);
    let digest = digest_fields(&fields, &key.version);
    let r = cache_dir_path().join("artifacts").join("source").join(
        SOURCE_ARTIFACT_CACHE_VERSION,
    ).join(key.package.as_str()).join(digest.as_str()).join("artifact.tar.gz");
    assert(r@.parts =~= source_artifact_place(key@.package, digest@).parts);
    r
}

/// The place of a binary artifact.
pub fn binary_artifact_cache_path(key: &BinaryArtifactCacheKey) -> (r: Location)
    ensures
        r@ == binary_artifact_place(key@, fields_digest(binary_key_fields(key@))),
{
    let file_name = match key.target.os {
        OsFamily::Windows => text::cat4(
            key.package.as_str(),
            "_",
            key.version.text.as_str(),
            ".zip",
        ),
        OsFamily::MacOs => text::cat4(key.package.as_str(), "_", key.version.text.as_str(), ".tgz"),
        OsFamily::Other => "artifact.bin".to_owned(),
    };
    let mut fields = list_registry(&key.repository);
    let ghost before = fields@;
    fields.push(key.package.clone());
    fields.push(key.target.text.clone());
    fields.push(key.r_version.text.clone());
    assert(texts(fields@) =~= registry_fields(key@.repository) + seq![
        key@.package,
        key@.target.0,
        key@.r_version,
    ]);
    let digest = digest_fields(&fields, &key.version);
    let r = cache_dir_path().join("artifacts").join("binary").join(
        BINARY_ARTIFACT_CACHE_VERSION,
    ).join(key.package.as_str()).join(digest.as_str()).join(file_name.as_str());
    assert(r@.parts =~= binary_artifact_place(key@, digest@).parts);
    r
}

/// The place of a compiled package.
pub fn compiled_package_cache_path(key: &CompiledPackageCacheKey) -> (r: Location)
    ensures
        r@ == compiled_package_place(key@.package, fields_digest(binary_key_fields(key@))),
{
    let mut fields = list_registry(&key.repository);
    let ghost before = fields@;
    fields.push(key.package.clone());
    fields.push(key.target.text.clone());
    fields.push(key.r_version.text.clone());
    assert(texts(fields@) =~= registry_fields(key@.repository) + seq![
        key@.package,
        key@.target.0,
        key@.r_version,
    ]);
    let digest = digest_fields(&fields, &key.version);
    let r = cache_dir_path().join("builds").join(COMPILED_PACKAGE_CACHE_VERSION).join(
        key.package.as_str(),
    ).join(digest.as_str()).join("package");
    assert(r@.parts =~= compiled_package_place(key@.package, digest@).parts);
    r
}

/// Two sources are the same.
pub open spec fn same_source(a: SourceV, b: SourceV) -> bool {
    match (a, b) {
        (SourceV::Registry(x), SourceV::Registry(y)) => x == y,
        (SourceV::Git(r, c, x), SourceV::Git(s, d, y)) => r == s && c == d && same_subdirectory(
            x,
            y,
        ),
        (SourceV::Local(x), SourceV::Local(y)) => same_place(x, y),
        _ => false,
    }
}

/// Keys that differ only in the spelling of equal versions, or of paths to the same place,
/// lead to the same source artifact.
pub proof fn equal_source_keys_share_their_artifact(a: SourceKeyV, b: SourceKeyV)
    requires
        same_source(a.source, b.source),
        a.package == b.package,
        components_order(a.version.components, b.version.components) == Order::Equal,
    ensures
        source_artifact_place(a.package, fields_digest(source_key_fields(a)))
            == source_artifact_place(b.package, fields_digest(source_key_fields(b))),
{
    equal_versions_are_significantly_the_same(a.version.components, b.version.components);
}

/// Keys that differ only in the spelling of equal versions lead to the same compiled
/// package.
pub proof fn equal_binary_keys_share_their_package(a: BinaryKeyV, b: BinaryKeyV)
    requires
        a.repository == b.repository,
        a.package == b.package,
        a.target == b.target,
        a.r_version == b.r_version,
        components_order(a.version.components, b.version.components) == Order::Equal,
    ensures
        compiled_package_place(a.package, fields_digest(binary_key_fields(a)))
            == compiled_package_place(b.package, fields_digest(binary_key_fields(b))),
{
    equal_versions_are_significantly_the_same(a.version.components, b.version.components);
}

proof fn lemma_same_spelling(a: Seq<char>, b: Seq<char>)
    requires
        encode_utf8(a) == encode_utf8(b),
    ensures
        a == b,
{
    vstd::utf8::encode_utf8_decode_utf8(a);
    vstd::utf8::encode_utf8_decode_utf8(b);
}

proof fn lemma_encoded(a: Seq<Seq<char>>, b: Seq<Seq<char>>)
    requires
        encoded(a) == encoded(b),
    ensures
        a == b,
{
    assert(encoded(a).len() == a.len() && encoded(b).len() == b.len());
    assert forall|i: int| 0 <= i < a.len() implies a[i] == b[i] by {
        assert(encoded(a)[i] == encode_utf8(a[i]));
        assert(encoded(b)[i] == encode_utf8(b[i]));
        lemma_same_spelling(a[i], b[i]);
    }
    assert(a =~= b);
}

proof fn lemma_component_bytes(n: nat, m: nat, width: nat)
    requires
        le_bytes(n, width) == le_bytes(m, width),
        n < 0x1_0000_0000,
        m < 0x1_0000_0000,
        width >= 4,
    ensures
        n == m,
{
    reveal_with_fuel(le_bytes, 5);
    let a = le_bytes(n, width);
    let b = le_bytes(m, width);
    let w1 = (width - 1) as nat;
    let w2 = (width - 2) as nat;
    let w3 = (width - 3) as nat;
    let a1 = le_bytes(n / 256, w1);
    let b1 = le_bytes(m / 256, w1);
    assert(a[0] == (n % 256) as u8 && b[0] == (m % 256) as u8);
    assert(a.skip(1) =~= a1 && b.skip(1) =~= b1);
    let a2 = le_bytes(n / 256 / 256, w2);
    let b2 = le_bytes(m / 256 / 256, w2);
    assert(a1[0] == (n / 256 % 256) as u8 && b1[0] == (m / 256 % 256) as u8);
    assert(a1.skip(1) =~= a2 && b1.skip(1) =~= b2);
    let a3 = le_bytes(n / 256 / 256 / 256, w3);
    let b3 = le_bytes(m / 256 / 256 / 256, w3);
    assert(a2[0] == (n / 256 / 256 % 256) as u8 && b2[0] == (m / 256 / 256 % 256) as u8);
    assert(a2.skip(1) =~= a3 && b2.skip(1) =~= b3);
    assert(a3[0] == (n / 256 / 256 / 256 % 256) as u8);
    assert(b3[0] == (m / 256 / 256 / 256 % 256) as u8);
}

proof fn lemma_component_width(n: nat, width: nat)
    ensures
        le_bytes(n, width).len() == width,
    decreases width,
{
    if width > 0 {
        lemma_component_width(n / 256, (width - 1) as nat);
    }
}

proof fn lemma_version_bytes(a: Seq<u32>, b: Seq<u32>)
    requires
        version_bytes(a) == version_bytes(b),
    ensures
        a == b,
    decreases a.len(),
{
    if a.len() > 0 {
        lemma_component_width(a.last() as nat, 8);
    }
    if b.len() > 0 {
        lemma_component_width(b.last() as nat, 8);
    }
    if a.len() > 0 && b.len() > 0 {
        let x = version_bytes(a);
        let y = version_bytes(b);
        let n = x.len() - 8;
        assert(x.skip(n) =~= le_bytes(a.last() as nat, 8));
        assert(y.skip(n) =~= le_bytes(b.last() as nat, 8));
        assert(x.take(n) =~= version_bytes(a.drop_last()));
        assert(y.take(n) =~= version_bytes(b.drop_last()));
        lemma_component_bytes(a.last() as nat, b.last() as nat, 8);
        lemma_version_bytes(a.drop_last(), b.drop_last());
        assert(a =~= a.drop_last().push(a.last()));
        assert(b =~= b.drop_last().push(b.last()));
    } else {
        assert(a =~= b);
    }
}

/// Source artifacts of different packages, of versions that differ or from different places
/// are never digested from the same fields.
pub proof fn source_keys_can_be_told_apart(a: SourceKeyV, b: SourceKeyV)
    requires
        source_key_fields(a) == source_key_fields(b),
    ensures
        a.package == b.package,
        significant(a.version.components) == significant(b.version.components),
        source_fields(a.source) == source_fields(b.source),
        a.source is Registry <==> b.source is Registry,
        a.source is Registry ==> a.source == b.source,
        a.source is Git <==> b.source is Git,
        a.source is Git ==> a.source->Git_0 == b.source->Git_0 && a.source->Git_1
            == b.source->Git_1,
        a.source is Local ==> same_source(a.source, b.source),
{
    let x = source_fields(a.source);
    let y = source_fields(b.source);
    let p = source_key_fields(a);
    let q = source_key_fields(b);
    let ex = encoded(x + seq![a.package]);
    let ey = encoded(y + seq![b.package]);
    assert(ex.len() == x.len() + 1 && ey.len() == y.len() + 1);
    assert(p.len() == x.len() + 2 && q.len() == y.len() + 2);
    assert(p.take(p.len() - 1) =~= ex);
    assert(q.take(q.len() - 1) =~= ey);
    assert(p[p.len() - 1] == version_bytes(significant(a.version.components)));
    assert(q[q.len() - 1] == version_bytes(significant(b.version.components)));
    lemma_version_bytes(significant(a.version.components), significant(b.version.components));
    lemma_encoded(x + seq![a.package], y + seq![b.package]);
    let u = x + seq![a.package];
    let w = y + seq![b.package];
    assert(u[u.len() - 1] == a.package && w[w.len() - 1] == b.package);
    assert(u.take(u.len() - 1) =~= x);
    assert(w.take(w.len() - 1) =~= y);
    reveal_strlit("registry");
    reveal_strlit("git");
    reveal_strlit("local");
    reveal_strlit("cran");
    reveal_strlit("rrepo");
    reveal_strlit("absolute");
    reveal_strlit("relative");
    assert("registry"@.len() == 8 && "git"@.len() == 3 && "local"@.len() == 5);
    assert("cran"@.len() == 4);
    assert("absolute"@[0] == 'a' && "relative"@[0] == 'r');
    assert(x[0] == y[0]);
    if a.source is Registry {
        assert(x[1] == y[1] && x[2] == y[2]);
    } else if a.source is Git {
        assert(x[1] == y[1] && x[2] == y[2]);
    } else {
        let s = a.source->Local_0;
        let t = b.source->Local_0;
        assert(x[1] == path_fields(s)[0] && y[1] == path_fields(t)[0]);
        assert(x.skip(2) =~= components_of(s));
        assert(y.skip(2) =~= components_of(t));
    }
}

/// Binary packages of different packages, of versions that differ, for different systems,
/// versions of R or from different repositories are never digested from the same fields.
pub proof fn binary_keys_can_be_told_apart(a: BinaryKeyV, b: BinaryKeyV)
    requires
        binary_key_fields(a) == binary_key_fields(b),
    ensures
        a.repository == b.repository,
        a.package == b.package,
        significant(a.version.components) == significant(b.version.components),
        a.target.0 == b.target.0,
        a.r_version == b.r_version,
{
    let x = registry_fields(a.repository) + seq![a.package, a.target.0, a.r_version];
    let y = registry_fields(b.repository) + seq![b.package, b.target.0, b.r_version];
    let p = binary_key_fields(a);
    let q = binary_key_fields(b);
    assert(encoded(x).len() == 5 && encoded(y).len() == 5);
    assert(p.take(5) =~= encoded(x));
    assert(q.take(5) =~= encoded(y));
    assert(p[5] == version_bytes(significant(a.version.components)));
    assert(q[5] == version_bytes(significant(b.version.components)));
    lemma_version_bytes(significant(a.version.components), significant(b.version.components));
    lemma_encoded(x, y);
    reveal_strlit("cran");
    reveal_strlit("rrepo");
    assert("cran"@.len() == 4 && "rrepo"@.len() == 5);
    assert(x[0] == y[0] && x[1] == y[1] && x[2] == y[2] && x[3] == y[3] && x[4] == y[4]);
}

/// Artifacts lie in the cache below the name of their package and their digest, so those of
/// different packages or digests lie apart; binary packages lie in a file that their system
/// can open.
pub proof fn artifacts_lie_apart(
    a: Seq<char>,
    b: Seq<char>,
    digest: Seq<char>,
    other: Seq<char>,
    key: BinaryKeyV,
)
    ensures
        source_artifact_place(a, digest) == source_artifact_place(b, other) ==> a == b && digest
            == other,
        compiled_package_place(a, digest) == compiled_package_place(b, other) ==> a == b && digest
            == other,
        binary_artifact_place(key, digest) == binary_artifact_place(key, other) ==> digest == other,
        source_artifact_place(a, digest).parts.last() == "artifact.tar.gz"@,
        key.target.1 == OsFamily::Windows ==> binary_artifact_place(key, digest).parts.last()
            == key.package + "_"@ + key.version.text + ".zip"@,
        key.target.1 == OsFamily::MacOs ==> binary_artifact_place(key, digest).parts.last()
            == key.package + "_"@ + key.version.text + ".tgz"@,
{
    let x = source_artifact_place(a, digest).parts;
    let y = source_artifact_place(b, other).parts;
    assert(x[3] == a && x[4] == digest && y[3] == b && y[4] == other);
    let u = compiled_package_place(a, digest).parts;
    let w = compiled_package_place(b, other).parts;
    assert(u[2] == a && u[3] == digest && w[2] == b && w[3] == other);
    let k = binary_artifact_place(key, digest).parts;
    let l = binary_artifact_place(key, other).parts;
    assert(k[4] == digest && l[4] == other);
}

/// Both names of the system of Apple are one family; Windows is one of its own, and no other
/// system has binary packages.
pub proof fn systems_have_families(os: OperatingSystem)
    ensures
        os_family(os) == OsFamily::Windows <==> os is Windows,
        os_family(os) == OsFamily::MacOs <==> os is Darwin || os is MacOsX,
        os_family(os) == OsFamily::Other <==> os is Another,
{
}

} // verus!
