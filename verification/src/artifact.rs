//! The artifacts that packages are installed from.
use crate::bytes;
use crate::bytes::{fields_can_be_told_apart, frames, short_fields};
use crate::cache::{
    binary_artifact_cache_path, binary_artifact_place, binary_key_fields, fields_digest,
    source_artifact_cache_path, source_artifact_place, source_key_fields, BinaryArtifactCacheKey,
    BinaryKeyV, OsFamily, RegistryIdentity, RegistryV, SourceArtifactCacheKey,
    SourceArtifactIdentity, SourceKeyV, SourceV, Target, INSTALLER_CACHE_VERSION,
};
use crate::digest;
use crate::digest::sha256_of;
use crate::http;
use crate::http::{artifact_name, endpoint_of};
use crate::location::{Location, LocationV};
use crate::order::{
    after, compare_text, text_order, text_order_coherent, text_order_equal, text_order_flips,
    then_order, Order, Ordered, Total,
};
use crate::path;
use crate::path::child_of;
use crate::r::{series_text, RVersion};
use crate::repository::{PackageRepository, RepositoryV};
use crate::resolver::{PackageVersion, PackageVersionV};
use crate::schedule::{input_views, DependencyInput};
use crate::sorting::{lemma_nondecreasing_unique, lemma_sorted_list, sort, sorted_list};
use crate::text;
use crate::text::opt_text;
use vstd::prelude::*;
use vstd::utf8::encode_utf8;

verus! {

/// The ways in which binary packages are packed.
#[derive(Clone, Copy, PartialEq, Eq, Structural, Debug)]
pub enum BinaryFormat {
    Zip,
    TarGz,
}

/// What an artifact holds.
#[derive(Clone, Copy, PartialEq, Eq, Structural, Debug)]
pub enum ArtifactKind {
    Binary(BinaryFormat),
    Source,
}

/// An artifact that a package can be installed from.
#[derive(Debug)]
pub struct InstallArtifact {
    pub path: Location,
    pub kind: ArtifactKind,
}

/// An artifact that a package can be installed from.
pub struct ArtifactV {
    pub path: LocationV,
    pub kind: ArtifactKind,
}

/// What is found at the place of an artifact.
#[derive(Clone, Copy, PartialEq, Eq, Structural, Debug)]
pub enum ArtifactCacheEntry {
    File,
    Missing,
    Invalid,
}

/// What is found at a place, by whether there is a file and whether there is anything.
pub fn artifact_cache_entry(is_file: bool, exists_at_all: bool) -> (r: ArtifactCacheEntry)
    ensures
        r == (if is_file {
            ArtifactCacheEntry::File
        } else if exists_at_all {
            ArtifactCacheEntry::Invalid
        } else {
            ArtifactCacheEntry::Missing
        }),
{
    if is_file {
        ArtifactCacheEntry::File
    } else if exists_at_all {
        ArtifactCacheEntry::Invalid
    } else {
        ArtifactCacheEntry::Missing
    }
}

/// What an installer is given of an artifact.
#[derive(Debug)]
pub enum InstallerArtifact {
    Binary { path: Location, format: BinaryFormat },
    Source { path: Location, dependency_libraries: Vec<String>, allow_non_staged: bool },
}

impl InstallArtifact {
    /// The artifact, as characters.
    pub open spec fn view(&self) -> ArtifactV {
        ArtifactV { path: self.path@, kind: self.kind }
    }

    /// How the kind is called in a record of what was done.
    pub fn trace_kind(&self) -> (r: &'static str)
        ensures
            r@ == (match self.kind {
                ArtifactKind::Binary(_) => "binary"@,
                ArtifactKind::Source => "source"@,
            }),
    {
        match self.kind {
            ArtifactKind::Binary(_) => "binary",
            ArtifactKind::Source => "source",
        }
    }

    /// What is being done with the artifact.
    pub fn progress_action(&self) -> (r: &'static str)
        ensures
            r@ == (match self.kind {
                ArtifactKind::Binary(_) => "extracting"@,
                ArtifactKind::Source => "installing"@,
            }),
    {
        match self.kind {
            ArtifactKind::Binary(_) => "extracting",
            ArtifactKind::Source => "installing",
        }
    }

    /// What the installer is given: a source package is installed with the packages of the
    /// library of the project, and need not be staged.
    pub fn into_installer_artifact(self, project_library: String) -> (r: InstallerArtifact)
        ensures
            match (self.kind, r) {
                (ArtifactKind::Binary(format), InstallerArtifact::Binary { path, format: packed }) => {
                    path@ == self@.path && packed == format
                },
                (
                    ArtifactKind::Source,
                    InstallerArtifact::Source { path, dependency_libraries, allow_non_staged },
                ) => path@ == self@.path && text::texts(dependency_libraries@) == seq![
                    project_library@,
                ] && allow_non_staged,
                _ => false,
            },
    {
        match self.kind {
            ArtifactKind::Binary(format) => InstallerArtifact::Binary { path: self.path, format },
            ArtifactKind::Source => {
                let mut dependency_libraries: Vec<String> = Vec::new();
                dependency_libraries.push(project_library);
                assert(text::texts(dependency_libraries@) =~= seq![project_library@]);
                InstallerArtifact::Source {
                    path: self.path,
                    dependency_libraries,
                    allow_non_staged: true,
                }
            },
        }
    }
}

/// The registry of a repository, if it is one.
pub open spec fn registry_of(repository: RepositoryV) -> Option<RegistryV> {
    match repository {
        RepositoryV::Rrepo(url) => Some(RegistryV::Rrepo(url)),
        RepositoryV::Cran(url, _) => Some(RegistryV::Cran(url)),
        _ => None,
    }
}

/// The registry that a version comes from, if it comes from one.
pub fn registry_identity(package_version: &PackageVersion) -> (r: Option<RegistryIdentity>)
    ensures
        match r {
            Some(registry) => registry_of(package_version@.repository) == Some(registry@),
            None => registry_of(package_version@.repository) is None,
        },
{
    match &package_version.repository {
        PackageRepository::Rrepo(repository) => Some(
            RegistryIdentity::Rrepo(repository.url.clone()),
        ),
        PackageRepository::Cran(repository) => Some(RegistryIdentity::Cran(repository.url.clone())),
        _ => None,
    }
}

/// The packing of binary packages on a platform, if there are any for it.
pub open spec fn binary_format(os: OsFamily) -> Option<BinaryFormat> {
    match os {
        OsFamily::Windows => Some(BinaryFormat::Zip),
        OsFamily::MacOs => Some(BinaryFormat::TarGz),
        OsFamily::Other => None,
    }
}

/// The binary artifact of a package of a registry.
pub open spec fn binary_artifact(key: BinaryKeyV, format: BinaryFormat) -> ArtifactV {
    ArtifactV {
        path: binary_artifact_place(key, fields_digest(binary_key_fields(key))),
        kind: ArtifactKind::Binary(format),
    }
}

/// The key of a binary artifact.
pub open spec fn binary_key(
    registry: RegistryV,
    package: Seq<char>,
    version: PackageVersionV,
    host: (Seq<char>, OsFamily),
    r_version: Seq<char>,
) -> BinaryKeyV {
    BinaryKeyV { repository: registry, package, version: version.version, target: host, r_version }
}

/// The binary artifact of a package of a registry for a platform, if there are any for it.
/// On macOS the type of the packages has to be known; if it is not, that is handed back.
pub fn registry_binary_artifact(
    registry: &RegistryIdentity,
    package: &str,
    package_version: &PackageVersion,
    host: &Target,
    r_version: &RVersion,
    mac_type: Result<(), String>,
) -> (r: Result<Option<InstallArtifact>, String>)
    ensures
        match (binary_format(host.os), mac_type) {
            (None, _) => r matches Ok(None),
            (Some(BinaryFormat::TarGz), Err(details)) => r matches Err(e) && e@ == details@,
            (Some(format), _) => r matches Ok(Some(artifact)) && artifact@ == binary_artifact(
                binary_key(registry@, package@, package_version@, host@, r_version@),
                format,
            ),
        },
{
    let format = match host.os {
        OsFamily::Windows => BinaryFormat::Zip,
        OsFamily::MacOs => match mac_type {
            Ok(_) => BinaryFormat::TarGz,
            Err(details) => {
                return Err(details);
            },
        },
        OsFamily::Other => {
            return Ok(None);
        },
    };
    let key = BinaryArtifactCacheKey::new(
        registry.copy(),
        package,
        package_version.version.copy(),
        host.copy(),
        r_version.copy(),
    );
    let path = binary_artifact_cache_path(&key);
    Ok(Some(InstallArtifact { path, kind: ArtifactKind::Binary(format) }))
}

/// Where the binary artifact of a package of a registry is requested. For macOS the target of
/// its packages has to be known.
pub open spec fn binary_url(
    registry: RegistryV,
    os: OsFamily,
    mac_target: Option<Seq<char>>,
    series: Seq<char>,
    package: Seq<char>,
    version: Seq<char>,
) -> Option<Seq<char>> {
    match (os, mac_target, registry) {
        (OsFamily::Windows, _, RegistryV::Rrepo(url)) => endpoint_of(
            url,
            seq![
                "packages"@,
                package,
                "versions"@,
                version,
                "binaries"@,
                "windows"@,
                series,
            ],
        ),
        (OsFamily::Windows, _, RegistryV::Cran(url)) => endpoint_of(
            url,
            seq![
                "bin"@,
                "windows"@,
                "contrib"@,
                series,
                artifact_name(package, version, ".zip"@),
            ],
        ),
        (OsFamily::MacOs, Some(target), RegistryV::Rrepo(url)) => endpoint_of(
            url,
            seq![
                "packages"@,
                package,
                "versions"@,
                version,
                "binaries"@,
                "macos"@,
                target,
                series,
            ],
        ),
        (OsFamily::MacOs, Some(target), RegistryV::Cran(url)) => endpoint_of(
            url,
            seq![
                "bin"@,
                "macosx"@,
                target,
                "contrib"@,
                series,
                artifact_name(package, version, ".tgz"@),
            ],
        ),
        _ => None,
    }
}

/// The URL at which the binary artifact of a package of a registry is requested.
pub fn binary_artifact_url(
    registry: &RegistryIdentity,
    os: OsFamily,
    mac_target: Option<&str>,
    r_version: &RVersion,
    package: &str,
    version: &str,
) -> (r: Option<String>)
    ensures
        opt_text(r) == binary_url(
            registry@,
            os,
            match mac_target {
                Some(target) => Some(target@),
                None => None,
            },
            series_text(r_version.major as nat, r_version.minor as nat),
            package@,
            version@,
        ),
{
    match (os, mac_target, registry) {
        (OsFamily::Windows, _, RegistryIdentity::Rrepo(url)) => http::rrepo_windows_binary(
            url.as_str(),
            package,
            version,
            r_version,
        ),
        (OsFamily::Windows, _, RegistryIdentity::Cran(url)) => http::cran_windows_binary(
            url.as_str(),
            r_version,
            package,
            version,
        ),
        (OsFamily::MacOs, Some(target), RegistryIdentity::Rrepo(url)) => http::rrepo_macos_binary(
            url.as_str(),
            package,
            version,
            target,
            r_version,
        ),
        (OsFamily::MacOs, Some(target), RegistryIdentity::Cran(url)) => http::cran_macos_binary(
            url.as_str(),
            target,
            r_version,
            package,
            version,
        ),
        _ => None,
    }
}

/// Where the source artifact of a package of a registry is requested.
pub open spec fn source_url(
    registry: RegistryV,
    is_archived: bool,
    package: Seq<char>,
    version: Seq<char>,
) -> Option<Seq<char>> {
    match registry {
        RegistryV::Rrepo(url) => endpoint_of(
            url,
            seq!["packages"@, package, "versions"@, version, "source"@],
        ),
        RegistryV::Cran(url) => if is_archived {
            endpoint_of(
                url,
                seq![
                    "src"@,
                    "contrib"@,
                    "Archive"@,
                    package,
                    artifact_name(package, version, ".tar.gz"@),
                ],
            )
        } else {
            endpoint_of(
                url,
                seq!["src"@, "contrib"@, artifact_name(package, version, ".tar.gz"@)],
            )
        },
    }
}

/// The URL at which the source artifact of a package of a registry is requested at a stage of
/// its download: repositories like CRAN keep former versions elsewhere.
pub fn source_artifact_url(
    registry: &RegistryIdentity,
    stage: DownloadStage,
    package: &str,
    version: &str,
) -> (r: Option<String>)
    ensures
        opt_text(r) == source_url(
            registry@,
            stage == DownloadStage::ArchivedRequest,
            package@,
            version@,
        ),
{
    match (registry, stage) {
        (RegistryIdentity::Rrepo(url), _) => http::rrepo_source_artifact(
            url.as_str(),
            package,
            version,
        ),
        (RegistryIdentity::Cran(url), DownloadStage::ArchivedRequest) => {
            http::cran_archive_source_tarball(url.as_str(), package, version)
        },
        (RegistryIdentity::Cran(url), _) => http::cran_current_source_tarball(
            url.as_str(),
            package,
            version,
        ),
    }
}

/// The source artifact of a package.
pub open spec fn source_artifact(
    source: SourceV,
    package: Seq<char>,
    version: PackageVersionV,
) -> ArtifactV {
    ArtifactV {
        path: source_artifact_place(
            package,
            fields_digest(
                source_key_fields(SourceKeyV { source, package, version: version.version }),
            ),
        ),
        kind: ArtifactKind::Source,
    }
}

fn source_artifact_at(
    source: SourceArtifactIdentity,
    package: &str,
    package_version: &PackageVersion,
) -> (r: InstallArtifact)
    ensures
        r@ == source_artifact(source@, package@, package_version@),
{
    let key = SourceArtifactCacheKey::new(source, package, package_version.version.copy());
    InstallArtifact { path: source_artifact_cache_path(&key), kind: ArtifactKind::Source }
}

/// The source artifact of a package of a registry.
pub fn registry_source_artifact(
    registry: &RegistryIdentity,
    package: &str,
    package_version: &PackageVersion,
) -> (r: InstallArtifact)
    ensures
        r@ == source_artifact(SourceV::Registry(registry@), package@, package_version@),
{
    source_artifact_at(SourceArtifactIdentity::Registry(registry.copy()), package, package_version)
}

/// What a package is built from or downloaded as.
pub open spec fn source_of(repository: RepositoryV) -> SourceV {
    match repository {
        RepositoryV::Rrepo(url) => SourceV::Registry(RegistryV::Rrepo(url)),
        RepositoryV::Cran(url, _) => SourceV::Registry(RegistryV::Cran(url)),
        RepositoryV::Git(git) => SourceV::Git(git.remote, git.commit->0, git.subdirectory),
        RepositoryV::Local(path, _) => SourceV::Local(path),
    }
}

/// The commit of a Git repository is known.
pub open spec fn commit_known(repository: RepositoryV) -> bool {
    repository matches RepositoryV::Git(git) ==> git.commit is Some
}

/// The source artifact of a version, wherever it comes from.
pub fn package_source_artifact(package: &str, package_version: &PackageVersion) -> (r:
    InstallArtifact)
    requires
        commit_known(package_version@.repository),
    ensures
        r@ == source_artifact(
            source_of(package_version@.repository),
            package@,
            package_version@,
        ),
{
    let source = match &package_version.repository {
        PackageRepository::Rrepo(repository) => SourceArtifactIdentity::Registry(
            RegistryIdentity::Rrepo(repository.url.clone()),
        ),
        PackageRepository::Cran(repository) => SourceArtifactIdentity::Registry(
            RegistryIdentity::Cran(repository.url.clone()),
        ),
        PackageRepository::Git(repository) => match &repository.commit {
            Some(commit) => SourceArtifactIdentity::Git {
                remote: repository.remote.copy(),
                commit: commit.copy(),
                subdirectory: text::copy_opt(&repository.subdirectory),
            },
            None => {
                assert(false);
                SourceArtifactIdentity::Local(String::new())
            },
        },
        PackageRepository::Local(repository) => SourceArtifactIdentity::Local(
            repository.path.clone(),
        ),
    };
    source_artifact_at(source, package, package_version)
}

/// Why a package cannot be installed.
#[derive(Debug)]
pub enum InstallPackageError {
    MacBinaryType { details: String },
    MissingArtifact { package: String, version: String },
    InvalidArtifact { path: Location },
}

/// The artifact that a package is installed from, by what is found at the places of its
/// binary and of its source artifact.
pub open spec fn selected_artifact(
    binary: Option<ArtifactV>,
    source: ArtifactV,
    binary_entry: ArtifactCacheEntry,
) -> Option<ArtifactV> {
    match (binary, binary_entry) {
        (Some(binary), ArtifactCacheEntry::File) => Some(binary),
        (Some(_), ArtifactCacheEntry::Invalid) => None,
        _ => Some(source),
    }
}

/// Chooses between the binary and the source artifact of a package: a binary artifact that
/// is there goes first; what stands in its place without being a file is refused.
pub fn choose_artifact(
    binary: Option<InstallArtifact>,
    source: InstallArtifact,
    binary_entry: ArtifactCacheEntry,
) -> (r: Result<InstallArtifact, InstallPackageError>)
    ensures
        match (binary, binary_entry) {
            (Some(artifact), ArtifactCacheEntry::File) => r matches Ok(chosen) && chosen@
                == artifact@,
            (Some(artifact), ArtifactCacheEntry::Invalid) => r matches Err(
                InstallPackageError::InvalidArtifact { path },
            ) && path@ == artifact@.path,
            _ => r matches Ok(chosen) && chosen@ == source@,
        },
{
    match binary {
        Some(binary) => match binary_entry {
            ArtifactCacheEntry::File => Ok(binary),
            ArtifactCacheEntry::Invalid => Err(
                InstallPackageError::InvalidArtifact { path: binary.path },
            ),
            ArtifactCacheEntry::Missing => Ok(source),
        },
        None => Ok(source),
    }
}

/// Takes the artifact that was chosen if it is there.
pub fn confirm_artifact(
    artifact: InstallArtifact,
    entry: ArtifactCacheEntry,
    package: &str,
    package_version: &PackageVersion,
) -> (r: Result<InstallArtifact, InstallPackageError>)
    ensures
        match entry {
            ArtifactCacheEntry::File => r matches Ok(chosen) && chosen@ == artifact@,
            ArtifactCacheEntry::Invalid => r matches Err(
                InstallPackageError::InvalidArtifact { path },
            ) && path@ == artifact@.path,
            ArtifactCacheEntry::Missing => r matches Err(
                InstallPackageError::MissingArtifact { package: name, version },
            ) && name@ == package@ && version@ == package_version@.version.text,
        },
{
    match entry {
        ArtifactCacheEntry::File => Ok(artifact),
        ArtifactCacheEntry::Invalid => Err(
            InstallPackageError::InvalidArtifact { path: artifact.path },
        ),
        ArtifactCacheEntry::Missing => Err(
            InstallPackageError::MissingArtifact {
                package: package.to_owned(),
                version: package_version.version.text.clone(),
            },
        ),
    }
}

/// The two artifacts that a version may be installed from, the binary one first.
#[derive(Debug)]
pub struct ArtifactPair {
    pub binary: Option<InstallArtifact>,
    pub source: InstallArtifact,
}

/// An artifact that may be there.
pub open spec fn opt_artifact(v: Option<InstallArtifact>) -> Option<ArtifactV> {
    match v {
        Some(artifact) => Some(artifact@),
        None => None,
    }
}

/// The binary artifact of a version, if it comes from a registry and the platform has any.
pub open spec fn version_binary(
    package: Seq<char>,
    version: PackageVersionV,
    host: (Seq<char>, OsFamily),
    r_version: Seq<char>,
) -> Option<ArtifactV> {
    match (registry_of(version.repository), binary_format(host.1)) {
        (Some(registry), Some(format)) => Some(
            binary_artifact(binary_key(registry, package, version, host, r_version), format),
        ),
        _ => None,
    }
}

/// The artifacts that a version may be installed from.
pub fn select_install_artifact(
    package: &str,
    package_version: &PackageVersion,
    host: &Target,
    r_version: &RVersion,
    mac_type: Result<(), String>,
) -> (r: Result<ArtifactPair, InstallPackageError>)
    requires
        commit_known(package_version@.repository),
    ensures
        match r {
            Ok(pair) => {
                &&& opt_artifact(pair.binary) == version_binary(
                    package@,
                    package_version@,
                    host@,
                    r_version@,
                )
                &&& pair.source@ == source_artifact(
                    source_of(package_version@.repository),
                    package@,
                    package_version@,
                )
                &&& !(registry_of(package_version@.repository) is Some && host.os
                    == OsFamily::MacOs && mac_type is Err)
            },
            Err(error) => {
                &&& registry_of(package_version@.repository) is Some
                &&& host.os == OsFamily::MacOs
                &&& mac_type matches Err(details) && (error matches InstallPackageError::MacBinaryType {
                    details: d,
                } && d@ == details@)
            },
        },
{
    let source = package_source_artifact(package, package_version);
    let binary = match registry_identity(package_version) {
        None => None,
        Some(registry) => match registry_binary_artifact(
            &registry,
            package,
            package_version,
            host,
            r_version,
            mac_type,
        ) {
            Ok(binary) => binary,
            Err(details) => {
                return Err(InstallPackageError::MacBinaryType { details });
            },
        },
    };
    Ok(ArtifactPair { binary, source })
}

/// What a package is built from: its directory and the place of the archive.
#[derive(Debug)]
pub struct BuildPlan {
    pub package_root: String,
    pub archive: Location,
}

/// The directory that a package is built in.
pub open spec fn package_root_of(repository: RepositoryV, checkout: Seq<char>) -> Seq<char> {
    match repository {
        RepositoryV::Local(path, _) => path,
        RepositoryV::Git(git) => match git.subdirectory {
            Some(subdirectory) => child_of(checkout, subdirectory),
            None => checkout,
        },
        _ => Seq::empty(),
    }
}

/// What a package of a directory, or of a Git repository that is checked out, is built from.
pub fn build_plan(package: &str, package_version: &PackageVersion, checkout: &str) -> (r: BuildPlan)
    requires
        package_version@.repository is Local || package_version@.repository is Git,
        commit_known(package_version@.repository),
    ensures
        r.package_root@ == package_root_of(package_version@.repository, checkout@),
        r.archive@ == source_artifact(
            source_of(package_version@.repository),
            package@,
            package_version@,
        ).path,
{
    let artifact = package_source_artifact(package, package_version);
    let package_root = match &package_version.repository {
        PackageRepository::Local(repository) => repository.path.clone(),
        PackageRepository::Git(repository) => match &repository.subdirectory {
            Some(subdirectory) => path::child(checkout, subdirectory.as_str()),
            None => checkout.to_owned(),
        },
        _ => String::new(),
    };
    BuildPlan { package_root, archive: artifact.path }
}

/// The archive that is built of a package and the place that it is then moved to are the
/// same that the package is later installed from.
pub proof fn built_archives_are_installed(
    package: Seq<char>,
    version: PackageVersionV,
    host: (Seq<char>, OsFamily),
    r_version: Seq<char>,
    entry: ArtifactCacheEntry,
)
    requires
        version.repository is Local || version.repository is Git,
    ensures
        selected_artifact(
            version_binary(package, version, host, r_version),
            source_artifact(source_of(version.repository), package, version),
            entry,
        ) == Some(source_artifact(source_of(version.repository), package, version)),
{
}

/// Comparison of texts that may be absent: nothing goes before every text.
pub open spec fn opt_order(a: Option<Seq<char>>, b: Option<Seq<char>>) -> Order {
    match (a, b) {
        (None, None) => Order::Equal,
        (None, Some(_)) => Order::Less,
        (Some(_), None) => Order::Greater,
        (Some(a), Some(b)) => text_order(a, b),
    }
}

impl Total for (Seq<char>, Option<Seq<char>>) {
    open spec fn order(self, other: Self) -> Order {
        then_order(text_order(self.0, other.0), opt_order(self.1, other.1))
    }

    proof fn order_flips(a: Self, b: Self) {
        text_order_flips(a.0, b.0);
        match (a.1, b.1) {
            (Some(x), Some(y)) => text_order_flips(x, y),
            _ => {},
        }
    }

    proof fn order_coherent(a: Self, b: Self, c: Self) {
        text_order_coherent(a.0, b.0, c.0);
        match (a.1, b.1, c.1) {
            (Some(x), Some(y), Some(z)) => text_order_coherent(x, y, z),
            _ => {},
        }
    }
}

impl Ordered for DependencyInput {
    type Key = (Seq<char>, Option<Seq<char>>);

    open spec fn key(self) -> (Seq<char>, Option<Seq<char>>) {
        self@
    }

    open spec fn sound(self) -> bool {
        true
    }

    fn compare(&self, other: &Self) -> (r: Order) {
        assert(self.key().order(other.key()) == self@.order(other@));
        assert(self@.order(other@) == then_order(
            text_order(self.name@, other.name@),
            opt_order(opt_text(self.version), opt_text(other.version)),
        ));
        let names = compare_text(self.name.as_str(), other.name.as_str());
        let versions = match (&self.version, &other.version) {
            (None, None) => Order::Equal,
            (None, Some(_)) => Order::Less,
            (Some(_), None) => Order::Greater,
            (Some(a), Some(b)) => compare_text(a.as_str(), b.as_str()),
        };
        after(names, versions)
    }
}

/// The name of the kind of an artifact.
pub open spec fn kind_text(kind: ArtifactKind) -> Seq<char> {
    match kind {
        ArtifactKind::Binary(BinaryFormat::Zip) => "binary-zip"@,
        ArtifactKind::Binary(BinaryFormat::TarGz) => "binary-tar-gz"@,
        ArtifactKind::Source => "source"@,
    }
}

/// The fields of dependencies: the name and the version of each, nothing for a version that
/// is not known.
pub open spec fn input_fields(inputs: Seq<(Seq<char>, Option<Seq<char>>)>) -> Seq<Seq<u8>>
    decreases inputs.len(),
{
    if inputs.len() == 0 {
        Seq::empty()
    } else {
        input_fields(inputs.drop_last()).push(encode_utf8(inputs.last().0)).push(
            encode_utf8(
                match inputs.last().1 {
                    Some(version) => version,
                    None => Seq::empty(),
                },
            ),
        )
    }
}

/// What an installation depends on. A binary package does not depend on how it is
/// installed nor on other packages.
pub struct BuildInputs {
    pub kind: ArtifactKind,
    pub digest: Seq<u8>,
    pub package: Seq<char>,
    pub version: Seq<char>,
    pub r_version: Seq<char>,
    pub host: Seq<char>,
    pub dependencies: Seq<(Seq<char>, Option<Seq<char>>)>,
}

/// The fields that all installations have.
pub open spec fn common_fields(inputs: BuildInputs) -> Seq<Seq<u8>> {
    seq![
        encode_utf8(INSTALLER_CACHE_VERSION@),
        encode_utf8(kind_text(inputs.kind)),
        inputs.digest,
        encode_utf8(inputs.package),
        encode_utf8(inputs.version),
        encode_utf8(inputs.r_version),
        encode_utf8(inputs.host),
    ]
}

/// The fields of what an installation depends on, dependencies in order.
pub open spec fn build_fields(inputs: BuildInputs) -> Seq<Seq<u8>> {
    match inputs.kind {
        ArtifactKind::Source => common_fields(inputs).push(encode_utf8("allow-non-staged=true"@))
            + input_fields(sorted_list(inputs.dependencies)),
        ArtifactKind::Binary(_) => common_fields(inputs),
    }
}

fn push_inputs(out: &mut Vec<u8>, inputs: &Vec<DependencyInput>, Ghost(fields): Ghost<Seq<Seq<u8>>>)
    requires
        old(out)@ == frames(fields),
    ensures
        final(out)@ == frames(fields + input_fields(input_views(inputs@))),
{
    let ghost all = input_views(inputs@);
    let mut i: usize = 0;
    assert(fields + input_fields(all.take(0)) =~= fields);
    while i < inputs.len()
        invariant
            i <= inputs@.len(),
            all == input_views(inputs@),
            out@ == frames(fields + input_fields(all.take(i as int))),
        decreases inputs@.len() - i,
    {
        let ghost done = fields + input_fields(all.take(i as int));
        assert(all.take(i + 1).drop_last() =~= all.take(i as int));
        assert(all[i as int] == inputs@[i as int]@);
        let name = inputs[i].name.as_str();
        bytes::push_text(out, name, Ghost(done));
        let version: &str = match &inputs[i].version {
            Some(version) => version.as_str(),
            None => "",
        };
        proof {
            reveal_strlit("");
            assert(""@ =~= Seq::<char>::empty());
        }
        bytes::push_text(out, version, Ghost(done.push(encode_utf8(name@))));
        assert(fields + input_fields(all.take(i + 1)) =~= done.push(encode_utf8(name@)).push(
            encode_utf8(version@),
        ));
        i = i + 1;
    }
    assert(all.take(i as int) =~= all);
}

/// The digest of an artifact.
pub fn artifact_digest(contents: &Vec<u8>) -> (r: Vec<u8>)
    ensures
        r@ == sha256_of(contents@),
        r@.len() == 32,
{
    digest::sha256(contents)
}

/// The key of an installation: a digest of all that it depends on.
pub fn installer_build_key(
    artifact_kind: ArtifactKind,
    artifact_digest: &Vec<u8>,
    package: &str,
    version: &str,
    r_version: &RVersion,
    host: &str,
    dependencies: Vec<DependencyInput>,
) -> (r: Vec<u8>)
    ensures
        r@ == sha256_of(
            frames(
                build_fields(
                    BuildInputs {
                        kind: artifact_kind,
                        digest: artifact_digest@,
                        package: package@,
                        version: version@,
                        r_version: r_version@,
                        host: host@,
                        dependencies: input_views(dependencies@),
                    },
                ),
            ),
        ),
        r@.len() == 32,
{
    let ghost inputs = BuildInputs {
        kind: artifact_kind,
        digest: artifact_digest@,
        package: package@,
        version: version@,
        r_version: r_version@,
        host: host@,
        dependencies: input_views(dependencies@),
    };
    let ghost fields = common_fields(inputs);
    let mut out: Vec<u8> = Vec::new();
    assert(frames(fields.take(0)) =~= out@);
    bytes::push_text(&mut out, INSTALLER_CACHE_VERSION, Ghost(fields.take(0)));
    assert(fields.take(0).push(fields[0]) =~= fields.take(1));
    let kind: &str = match artifact_kind {
        ArtifactKind::Binary(BinaryFormat::Zip) => "binary-zip",
        ArtifactKind::Binary(BinaryFormat::TarGz) => "binary-tar-gz",
        ArtifactKind::Source => "source",
    };
    bytes::push_text(&mut out, kind, Ghost(fields.take(1)));
    assert(fields.take(1).push(fields[1]) =~= fields.take(2));
    bytes::push_field(&mut out, artifact_digest.as_slice(), Ghost(fields.take(2)));
    assert(fields.take(2).push(fields[2]) =~= fields.take(3));
    bytes::push_text(&mut out, package, Ghost(fields.take(3)));
    assert(fields.take(3).push(fields[3]) =~= fields.take(4));
    bytes::push_text(&mut out, version, Ghost(fields.take(4)));
    assert(fields.take(4).push(fields[4]) =~= fields.take(5));
    bytes::push_text(&mut out, r_version.text.as_str(), Ghost(fields.take(5)));
    assert(fields.take(5).push(fields[5]) =~= fields.take(6));
    bytes::push_text(&mut out, host, Ghost(fields.take(6)));
    assert(fields.take(6).push(fields[6]) =~= fields);
    match artifact_kind {
        ArtifactKind::Source => {
            bytes::push_text(&mut out, "allow-non-staged=true", Ghost(fields));
            let ghost more = fields.push(encode_utf8("allow-non-staged=true"@));
            assert(crate::order::keys(dependencies@) =~= input_views(dependencies@));
            let ordered = sort(dependencies);
            assert(crate::order::keys(ordered@) =~= input_views(ordered@));
            push_inputs(&mut out, &ordered, Ghost(more));
        },
        ArtifactKind::Binary(_) => {},
    }
    digest::sha256(&out)
}

/// The key of an installation does not depend on the order in which dependencies are given.
pub proof fn build_keys_ignore_the_order_of_dependencies(a: BuildInputs, b: BuildInputs)
    requires
        a.dependencies.to_multiset() == b.dependencies.to_multiset(),
        a == (BuildInputs { dependencies: a.dependencies, ..b }),
    ensures
        sha256_of(frames(build_fields(a))) == sha256_of(frames(build_fields(b))),
{
    lemma_sorted_list(a.dependencies);
    lemma_sorted_list(b.dependencies);
    assert forall|x: (Seq<char>, Option<Seq<char>>), y: (Seq<char>, Option<Seq<char>>)| #[trigger]
        x.order(y) == Order::Equal implies x == y by {
        text_order_equal(x.0, y.0);
        match (x.1, y.1) {
            (Some(u), Some(v)) => text_order_equal(u, v),
            _ => {},
        }
    }
    lemma_nondecreasing_unique(sorted_list(a.dependencies), sorted_list(b.dependencies));
}

/// The key of the installation of a binary package does not depend on other packages.
pub proof fn binary_build_keys_ignore_dependencies(a: BuildInputs, b: BuildInputs)
    requires
        a.kind is Binary,
        a == (BuildInputs { dependencies: a.dependencies, ..b }),
    ensures
        sha256_of(frames(build_fields(a))) == sha256_of(frames(build_fields(b))),
{
    assert(common_fields(a) =~= common_fields(b));
}

proof fn lemma_same_text(a: Seq<char>, b: Seq<char>)
    requires
        encode_utf8(a) == encode_utf8(b),
    ensures
        a == b,
{
    vstd::utf8::encode_utf8_decode_utf8(a);
    vstd::utf8::encode_utf8_decode_utf8(b);
}

/// Installations of which anything differs, dependencies other than in order, are never
/// digested from the same bytes.
pub proof fn build_inputs_can_be_told_apart(a: BuildInputs, b: BuildInputs)
    requires
        short_fields(build_fields(a)),
        short_fields(build_fields(b)),
        frames(build_fields(a)) == frames(build_fields(b)),
    ensures
        a.kind == b.kind,
        a.digest == b.digest,
        a.package == b.package,
        a.version == b.version,
        a.r_version == b.r_version,
        a.host == b.host,
        a.kind == ArtifactKind::Source ==> input_fields(sorted_list(a.dependencies))
            == input_fields(sorted_list(b.dependencies)),
{
    fields_can_be_told_apart(build_fields(a), build_fields(b));
    let x = build_fields(a);
    let y = build_fields(b);
    assert(x[1] == encode_utf8(kind_text(a.kind)) && y[1] == encode_utf8(kind_text(b.kind)));
    assert(x[2] == a.digest && y[2] == b.digest);
    assert(x[3] == encode_utf8(a.package) && y[3] == encode_utf8(b.package));
    assert(x[4] == encode_utf8(a.version) && y[4] == encode_utf8(b.version));
    assert(x[5] == encode_utf8(a.r_version) && y[5] == encode_utf8(b.r_version));
    assert(x[6] == encode_utf8(a.host) && y[6] == encode_utf8(b.host));
    lemma_same_text(kind_text(a.kind), kind_text(b.kind));
    lemma_same_text(a.package, b.package);
    lemma_same_text(a.version, b.version);
    lemma_same_text(a.r_version, b.r_version);
    lemma_same_text(a.host, b.host);
    reveal_strlit("binary-zip");
    reveal_strlit("binary-tar-gz");
    reveal_strlit("source");
    assert(kind_text(a.kind).len() == kind_text(b.kind).len());
    if a.kind == ArtifactKind::Source {
        assert(x.skip(8) =~= input_fields(sorted_list(a.dependencies)));
        assert(y.skip(8) =~= input_fields(sorted_list(b.dependencies)));
    }
}

/// What an installer is asked to prepare.
#[derive(Debug)]
pub struct InstallRequest {
    pub key: Vec<u8>,
    pub artifact_digest: Vec<u8>,
    pub name: String,
    pub version: String,
    pub r_major_minor: String,
    pub artifact: InstallerArtifact,
}

/// What an installer is asked to prepare for a package, whose artifact has the contents.
pub fn install_request(
    artifact: InstallArtifact,
    contents: &Vec<u8>,
    package: &str,
    version: &str,
    r_version: &RVersion,
    host: &str,
    dependencies: Vec<DependencyInput>,
    project_library: String,
) -> (r: InstallRequest)
    ensures
        r.artifact_digest@ == sha256_of(contents@),
        r.artifact_digest@.len() == 32,
        r.key@.len() == 32,
        r.key@ == sha256_of(
            frames(
                build_fields(
                    BuildInputs {
                        kind: artifact.kind,
                        digest: sha256_of(contents@),
                        package: package@,
                        version: version@,
                        r_version: r_version@,
                        host: host@,
                        dependencies: input_views(dependencies@),
                    },
                ),
            ),
        ),
        r.name@ == package@,
        r.version@ == version@,
        r.r_major_minor@ == series_text(r_version.major as nat, r_version.minor as nat),
        match (artifact.kind, r.artifact) {
            (ArtifactKind::Binary(format), InstallerArtifact::Binary { path, format: packed }) => {
                path@ == artifact@.path && packed == format
            },
            (
                ArtifactKind::Source,
                InstallerArtifact::Source { path, dependency_libraries, allow_non_staged },
            ) => path@ == artifact@.path && text::texts(dependency_libraries@) == seq![
                project_library@,
            ] && allow_non_staged,
            _ => false,
        },
{
    let artifact_digest = artifact_digest(contents);
    let key = installer_build_key(
        artifact.kind,
        &artifact_digest,
        package,
        version,
        r_version,
        host,
        dependencies,
    );
    InstallRequest {
        key,
        artifact_digest,
        name: package.to_owned(),
        version: version.to_owned(),
        r_major_minor: r_version.series(),
        artifact: artifact.into_installer_artifact(project_library),
    }
}

/// A body that is being received: the length that was announced, if one was, and the number
/// of bytes that have come.
#[derive(Clone, Copy, PartialEq, Eq, Structural, Debug)]
pub struct Transfer {
    pub expected: Option<u64>,
    pub written: u64,
}

/// What a body that ended early, or went on for too long, came to.
#[derive(Clone, Copy, PartialEq, Eq, Structural, Debug)]
pub struct ContentLengthMismatch {
    pub expected: u64,
    pub actual: u64,
}

impl Transfer {
    /// A body of which nothing has come yet.
    pub fn new(expected: Option<u64>) -> (r: Transfer)
        ensures
            r == (Transfer { expected, written: 0 }),
    {
        Transfer { expected, written: 0 }
    }

    /// Counts the bytes of one more piece.
    pub fn receive(&mut self, len: u64)
        requires
            old(self).written + len <= u64::MAX,
        ensures
            *final(self) == (Transfer {
                expected: old(self).expected,
                written: (old(self).written + len) as u64,
            }),
    {
        self.written = self.written + len;
    }

    /// Checks that as many bytes have come as were announced.
    pub fn finish(&self) -> (r: Result<(), ContentLengthMismatch>)
        ensures
            match self.expected {
                Some(expected) => if expected == self.written {
                    r is Ok
                } else {
                    r == Err::<(), ContentLengthMismatch>(
                        ContentLengthMismatch { expected, actual: self.written },
                    )
                },
                None => r is Ok,
            },
    {
        match self.expected {
            Some(expected) => if expected != self.written {
                Err(ContentLengthMismatch { expected, actual: self.written })
            } else {
                Ok(())
            },
            None => Ok(()),
        }
    }
}

/// What is being done for an artifact of a registry.
#[derive(Clone, Copy, PartialEq, Eq, Structural, Debug)]
pub enum DownloadStage {
    /// Looking at the place of the binary artifact.
    BinaryEntry,
    /// Requesting the binary artifact and keeping it.
    BinaryRequest,
    /// Looking at the place of the source artifact.
    SourceEntry,
    /// Requesting the source artifact of a repository with an interface of its own.
    SourceRequest,
    /// Requesting the source artifact among the current packages.
    CurrentRequest,
    /// Requesting the source artifact among former packages.
    ArchivedRequest,
    /// Keeping the source artifact that was received.
    Publication,
}

/// What came of it.
#[derive(Clone, Copy, PartialEq, Eq, Structural, Debug)]
pub enum DownloadEvent {
    /// What was found at a place.
    Found(ArtifactCacheEntry),
    /// What was tried went well.
    Succeeded,
    /// What was tried failed.
    Failed,
}

/// What to do next.
#[derive(Clone, Copy, PartialEq, Eq, Structural, Debug)]
pub enum DownloadStep {
    /// An artifact is there.
    Done,
    /// What stands in the place of an artifact is no file.
    Invalid,
    /// What failed last is the reason that there is no artifact.
    Failed,
    /// Go on with this.
    Next(DownloadStage),
}

/// Where the work begins: with the binary artifact, if there is one to look for.
pub fn first_download_stage(binary: &Result<Option<InstallArtifact>, String>) -> (r: DownloadStage)
    ensures
        r == (match *binary {
            Ok(Some(_)) => DownloadStage::BinaryEntry,
            _ => DownloadStage::SourceEntry,
        }),
{
    match binary {
        Ok(Some(_)) => DownloadStage::BinaryEntry,
        _ => DownloadStage::SourceEntry,
    }
}

/// What to do next: an artifact that is there is taken, what is no file is refused, a binary
/// artifact that cannot be had is replaced by the source, and a source that is not among the
/// current packages of a repository laid out like CRAN is looked for among former ones.
pub open spec fn download_step(is_cran: bool, stage: DownloadStage, event: DownloadEvent) -> DownloadStep {
    match (stage, event) {
        (_, DownloadEvent::Found(ArtifactCacheEntry::File)) => DownloadStep::Done,
        (_, DownloadEvent::Found(ArtifactCacheEntry::Invalid)) => DownloadStep::Invalid,
        (
            DownloadStage::BinaryEntry,
            DownloadEvent::Found(ArtifactCacheEntry::Missing),
        ) => DownloadStep::Next(DownloadStage::BinaryRequest),
        (
            DownloadStage::SourceEntry,
            DownloadEvent::Found(ArtifactCacheEntry::Missing),
        ) => DownloadStep::Next(
            if is_cran {
                DownloadStage::CurrentRequest
            } else {
                DownloadStage::SourceRequest
            },
        ),
        (DownloadStage::BinaryRequest, DownloadEvent::Succeeded) => DownloadStep::Done,
        (DownloadStage::BinaryRequest, DownloadEvent::Failed) => DownloadStep::Next(
            DownloadStage::SourceEntry,
        ),
        (DownloadStage::CurrentRequest, DownloadEvent::Failed) => DownloadStep::Next(
            DownloadStage::ArchivedRequest,
        ),
        (DownloadStage::Publication, DownloadEvent::Succeeded) => DownloadStep::Done,
        (DownloadStage::SourceRequest, DownloadEvent::Succeeded) => DownloadStep::Next(
            DownloadStage::Publication,
        ),
        (DownloadStage::CurrentRequest, DownloadEvent::Succeeded) => DownloadStep::Next(
            DownloadStage::Publication,
        ),
        (DownloadStage::ArchivedRequest, DownloadEvent::Succeeded) => DownloadStep::Next(
            DownloadStage::Publication,
        ),
        _ => DownloadStep::Failed,
    }
}

/// Decides what to do next for an artifact of a registry.
pub fn next_download_step(registry: &RegistryIdentity, stage: DownloadStage, event: DownloadEvent) -> (r:
    DownloadStep)
    ensures
        r == download_step(registry@ is Cran, stage, event),
{
    let is_cran = match registry {
        RegistryIdentity::Cran(_) => true,
        RegistryIdentity::Rrepo(_) => false,
    };
    match (stage, event) {
        (_, DownloadEvent::Found(ArtifactCacheEntry::File)) => DownloadStep::Done,
        (_, DownloadEvent::Found(ArtifactCacheEntry::Invalid)) => DownloadStep::Invalid,
        (DownloadStage::BinaryEntry, DownloadEvent::Found(ArtifactCacheEntry::Missing)) => {
            DownloadStep::Next(DownloadStage::BinaryRequest)
        },
        (DownloadStage::SourceEntry, DownloadEvent::Found(ArtifactCacheEntry::Missing)) => {
            if is_cran {
                DownloadStep::Next(DownloadStage::CurrentRequest)
            } else {
                DownloadStep::Next(DownloadStage::SourceRequest)
            }
        },
        (DownloadStage::BinaryRequest, DownloadEvent::Succeeded) => DownloadStep::Done,
        (DownloadStage::BinaryRequest, DownloadEvent::Failed) => DownloadStep::Next(
            DownloadStage::SourceEntry,
        ),
        (DownloadStage::CurrentRequest, DownloadEvent::Failed) => DownloadStep::Next(
            DownloadStage::ArchivedRequest,
        ),
        (DownloadStage::Publication, DownloadEvent::Succeeded) => DownloadStep::Done,
        (DownloadStage::SourceRequest, DownloadEvent::Succeeded) => DownloadStep::Next(
            DownloadStage::Publication,
        ),
        (DownloadStage::CurrentRequest, DownloadEvent::Succeeded) => DownloadStep::Next(
            DownloadStage::Publication,
        ),
        (DownloadStage::ArchivedRequest, DownloadEvent::Succeeded) => DownloadStep::Next(
            DownloadStage::Publication,
        ),
        _ => DownloadStep::Failed,
    }
}

/// How far a stage is from the end.
pub open spec fn download_rank(stage: DownloadStage) -> nat {
    match stage {
        DownloadStage::BinaryEntry => 6,
        DownloadStage::BinaryRequest => 5,
        DownloadStage::SourceEntry => 4,
        DownloadStage::CurrentRequest => 3,
        DownloadStage::SourceRequest => 2,
        DownloadStage::ArchivedRequest => 2,
        DownloadStage::Publication => 1,
    }
}

/// Whatever happens, the work comes to an end: every step leads to a later stage.
pub proof fn downloading_ends(is_cran: bool, stage: DownloadStage, event: DownloadEvent)
    ensures
        download_step(is_cran, stage, event) matches DownloadStep::Next(next) ==> download_rank(next)
            < download_rank(stage),
{
}

/// A binary artifact that cannot be had is no reason to fail: only what stands in its place
/// without being a file is.
pub proof fn binaries_fall_back_to_source(is_cran: bool, event: DownloadEvent)
    ensures
        download_step(is_cran, DownloadStage::BinaryRequest, DownloadEvent::Failed)
            == DownloadStep::Next(DownloadStage::SourceEntry),
        event is Found && download_step(is_cran, DownloadStage::BinaryEntry, event)
            == DownloadStep::Invalid ==> event == DownloadEvent::Found(ArtifactCacheEntry::Invalid),
        event is Found ==> download_step(is_cran, DownloadStage::BinaryEntry, event)
            != DownloadStep::Failed,
{
}

/// Source archives of a CRAN-like repository lie in its `src/contrib`, the archived ones below
/// `Archive` in the directory of their package; those of other repositories lie below the
/// version of the package.
pub proof fn sources_lie_below_their_repository(
    url: Seq<char>,
    base: Seq<char>,
    package: Seq<char>,
    version: Seq<char>,
)
    requires
        crate::uri::popped_url(url) == Some(base),
    ensures
        source_url(RegistryV::Cran(url), false, package, version) == crate::uri::extended_url(
            base,
            seq!["src"@, "contrib"@, package + "_"@ + version + ".tar.gz"@],
        ),
        source_url(RegistryV::Cran(url), true, package, version) == crate::uri::extended_url(
            base,
            seq!["src"@, "contrib"@, "Archive"@, package, package + "_"@ + version + ".tar.gz"@],
        ),
        source_url(RegistryV::Rrepo(url), false, package, version) == crate::uri::extended_url(
            base,
            seq!["packages"@, package, "versions"@, version, "source"@],
        ),
        source_url(RegistryV::Rrepo(url), true, package, version) == source_url(
            RegistryV::Rrepo(url),
            false,
            package,
            version,
        ),
{
}

/// Binary packages lie below the series of R that they were built for, in a file of the kind
/// that their system takes; for other systems there are none, nor for macOS without a target.
pub proof fn binaries_lie_below_their_series(
    url: Seq<char>,
    base: Seq<char>,
    target: Seq<char>,
    series: Seq<char>,
    package: Seq<char>,
    version: Seq<char>,
)
    requires
        crate::uri::popped_url(url) == Some(base),
    ensures
        binary_url(
            RegistryV::Cran(url),
            OsFamily::Windows,
            None,
            series,
            package,
            version,
        ) == crate::uri::extended_url(
            base,
            seq!["bin"@, "windows"@, "contrib"@, series, package + "_"@ + version + ".zip"@],
        ),
        binary_url(
            RegistryV::Cran(url),
            OsFamily::MacOs,
            Some(target),
            series,
            package,
            version,
        ) == crate::uri::extended_url(
            base,
            seq![
                "bin"@,
                "macosx"@,
                target,
                "contrib"@,
                series,
                package + "_"@ + version + ".tgz"@,
            ],
        ),
        binary_url(
            RegistryV::Rrepo(url),
            OsFamily::Windows,
            None,
            series,
            package,
            version,
        ) == crate::uri::extended_url(
            base,
            seq!["packages"@, package, "versions"@, version, "binaries"@, "windows"@, series],
        ),
        binary_url(
            RegistryV::Rrepo(url),
            OsFamily::MacOs,
            Some(target),
            series,
            package,
            version,
        ) == crate::uri::extended_url(
            base,
            seq!["packages"@, package, "versions"@, version, "binaries"@, "macos"@, target, series],
        ),
        forall|registry: RegistryV, mac_target: Option<Seq<char>>|
            (#[trigger] binary_url(
                registry,
                OsFamily::Other,
                mac_target,
                series,
                package,
                version,
            )) is None,
        forall|registry: RegistryV|
            (#[trigger] binary_url(
                registry,
                OsFamily::MacOs,
                None,
                series,
                package,
                version,
            )) is None,
{
}

/// What is already there is not requested, and what is requested in vain is requested in the
/// next way: a binary package as a source archive, a current source archive as an archived
/// one. Only then has a download failed.
pub proof fn downloads_are_tried_in_order(is_cran: bool, stage: DownloadStage)
    ensures
        download_step(is_cran, stage, DownloadEvent::Found(ArtifactCacheEntry::File))
            == DownloadStep::Done,
        download_step(is_cran, stage, DownloadEvent::Found(ArtifactCacheEntry::Invalid))
            == DownloadStep::Invalid,
        stage == DownloadStage::BinaryEntry || stage == DownloadStage::SourceEntry ==> (
        download_step(
            is_cran,
            stage,
            DownloadEvent::Found(ArtifactCacheEntry::Missing),
        ) matches DownloadStep::Next(request) && (request == DownloadStage::BinaryRequest <==> stage
            == DownloadStage::BinaryEntry) && (request == DownloadStage::CurrentRequest <==> stage
            == DownloadStage::SourceEntry && is_cran) && (request == DownloadStage::SourceRequest
            <==> stage == DownloadStage::SourceEntry && !is_cran)),
        download_step(is_cran, DownloadStage::BinaryRequest, DownloadEvent::Failed)
            == DownloadStep::Next(DownloadStage::SourceEntry),
        download_step(is_cran, DownloadStage::CurrentRequest, DownloadEvent::Failed)
            == DownloadStep::Next(DownloadStage::ArchivedRequest),
        stage == DownloadStage::SourceRequest || stage == DownloadStage::ArchivedRequest || stage
            == DownloadStage::Publication ==> download_step(is_cran, stage, DownloadEvent::Failed)
            == DownloadStep::Failed,
        stage == DownloadStage::SourceRequest || stage == DownloadStage::ArchivedRequest || stage
            == DownloadStage::CurrentRequest ==> download_step(
            is_cran,
            stage,
            DownloadEvent::Succeeded,
        ) == DownloadStep::Next(DownloadStage::Publication),
        stage == DownloadStage::BinaryRequest || stage == DownloadStage::Publication
            ==> download_step(is_cran, stage, DownloadEvent::Succeeded) == DownloadStep::Done,
{
}

/// A package is installed from the repository that its version comes from: from a registry by
/// its address, from Git by the remote, the commit and the directory, else from its path. Only
/// registries have binary packages, packed as the system takes them.
pub proof fn artifacts_are_those_of_their_source(
    repository: RepositoryV,
    package: Seq<char>,
    version: PackageVersionV,
    host: (Seq<char>, OsFamily),
    r_version: Seq<char>,
)
    ensures
        source_of(repository) is Git <==> repository is Git,
        source_of(repository) is Local <==> repository is Local,
        repository matches RepositoryV::Cran(url, _) ==> source_of(repository)
            == SourceV::Registry(RegistryV::Cran(url)) && registry_of(repository) == Some(
            RegistryV::Cran(url),
        ),
        repository matches RepositoryV::Rrepo(url) ==> source_of(repository)
            == SourceV::Registry(RegistryV::Rrepo(url)) && registry_of(repository) == Some(
            RegistryV::Rrepo(url),
        ),
        repository matches RepositoryV::Local(path, _) ==> source_of(repository)
            == SourceV::Local(path) && registry_of(repository) is None,
        repository matches RepositoryV::Git(git) ==> registry_of(repository) is None && (
        git.commit matches Some(commit) ==> source_of(repository) == SourceV::Git(
            git.remote,
            commit,
            git.subdirectory,
        )),
        version_binary(package, version, host, r_version) is Some <==> (
        version.repository is Cran || version.repository is Rrepo) && host.1 != OsFamily::Other,
        version_binary(package, version, host, r_version) matches Some(artifact)
            ==> artifact.kind == ArtifactKind::Binary(
            if host.1 == OsFamily::Windows {
                BinaryFormat::Zip
            } else {
                BinaryFormat::TarGz
            },
        ),
{
}

/// A package is built where its description is: a local one at its path, one of a Git
/// repository in the checkout or in the directory below it that the repository names.
pub proof fn packages_are_built_in_their_directory(repository: RepositoryV, checkout: Seq<char>)
    ensures
        repository matches RepositoryV::Local(path, _) ==> package_root_of(repository, checkout)
            == path,
        repository matches RepositoryV::Git(git) ==> (git.subdirectory is None ==> package_root_of(
            repository,
            checkout,
        ) == checkout) && (git.subdirectory matches Some(directory) ==> (checkout.len() > 0
            && checkout.last() != '/' ==> package_root_of(repository, checkout) == checkout + "/"@
            + directory)),
{
}

/// A binary package that is there is installed before the source; one that something else
/// stands in the place of is an error, and without one the source is installed.
pub proof fn binaries_are_chosen_before_sources(
    binary: InstallArtifact,
    source: InstallArtifact,
    entry: ArtifactCacheEntry,
    r: Result<InstallArtifact, InstallPackageError>,
    bare: Result<InstallArtifact, InstallPackageError>,
)
    requires
        call_ensures(choose_artifact, (Some(binary), source, entry), r),
        call_ensures(choose_artifact, (None::<InstallArtifact>, source, entry), bare),
    ensures
        entry == ArtifactCacheEntry::File ==> r is Ok && r->Ok_0@ == binary@,
        entry == ArtifactCacheEntry::Missing ==> r is Ok && r->Ok_0@ == source@,
        entry == ArtifactCacheEntry::Invalid ==> r is Err,
        bare is Ok && bare->Ok_0@ == source@,
{
}

/// An artifact is installed only if it is a file; one that is not there is told with its
/// package and version.
pub proof fn artifacts_are_installed_from_files(
    artifact: InstallArtifact,
    entry: ArtifactCacheEntry,
    package: &str,
    version: &PackageVersion,
    r: Result<InstallArtifact, InstallPackageError>,
)
    requires
        call_ensures(confirm_artifact, (artifact, entry, package, version), r),
    ensures
        r is Ok <==> entry == ArtifactCacheEntry::File,
        r is Ok ==> r->Ok_0@ == artifact@,
        entry == ArtifactCacheEntry::Missing ==> (r matches Err(
            InstallPackageError::MissingArtifact { package: name, version: number },
        ) && name@ == package@ && number@ == version@.version.text),
{
}

/// What lies in the cache is a file, something else or nothing.
pub proof fn entries_of_the_cache_are_told_apart(
    is_file: bool,
    exists_at_all: bool,
    r: ArtifactCacheEntry,
)
    requires
        call_ensures(artifact_cache_entry, (is_file, exists_at_all), r),
    ensures
        r == ArtifactCacheEntry::File <==> is_file,
        r == ArtifactCacheEntry::Missing <==> !is_file && !exists_at_all,
        r == ArtifactCacheEntry::Invalid <==> !is_file && exists_at_all,
{
}

/// The sources that a repository is asked for lie where artifacts are looked for: the current
/// and the archived archive of a CRAN-like repository, and the source of another one.
pub proof fn endpoints_are_where_artifacts_are(
    base: &str,
    package: &str,
    version: &str,
    current: Option<String>,
    archived: Option<String>,
    other: Option<String>,
)
    requires
        call_ensures(http::cran_current_source_tarball, (base, package, version), current),
        call_ensures(http::cran_archive_source_tarball, (base, package, version), archived),
        call_ensures(http::rrepo_source_artifact, (base, package, version), other),
    ensures
        opt_text(current) == source_url(RegistryV::Cran(base@), false, package@, version@),
        opt_text(archived) == source_url(RegistryV::Cran(base@), true, package@, version@),
        opt_text(other) == source_url(RegistryV::Rrepo(base@), false, package@, version@),
{
}

/// Packages without a binary start with their source; those with one start with it.
pub proof fn downloads_start_with_the_binary(
    binary: &Result<Option<InstallArtifact>, String>,
    r: DownloadStage,
)
    requires
        call_ensures(first_download_stage, (binary,), r),
    ensures
        r == DownloadStage::BinaryEntry <==> (*binary is Ok && (*binary)->Ok_0 is Some),
        r == DownloadStage::SourceEntry <==> !(*binary is Ok && (*binary)->Ok_0 is Some),
{
}

/// A body is whole if as many bytes have come as were announced; without an announcement any
/// number is.
pub proof fn bodies_are_whole(transfer: &Transfer, r: Result<(), ContentLengthMismatch>)
    requires
        call_ensures(Transfer::finish, (transfer,), r),
    ensures
        r is Ok <==> transfer.expected is None || transfer.expected == Some(transfer.written),
        r matches Err(mismatch) ==> transfer.expected == Some(mismatch.expected)
            && transfer.written == mismatch.actual,
{
}

} // verus!
