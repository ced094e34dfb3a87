use rpx::artifact::{
    binary_artifact_url, first_download_stage, next_download_step, registry_binary_artifact,
    select_install_artifact, source_artifact_url, ArtifactCacheEntry, ArtifactKind, BinaryFormat, DownloadEvent, DownloadStage, DownloadStep,
    Transfer,
};
use rpx::cache::{OsFamily, RegistryIdentity, Target};
use rpx::metadata::Version;
use rpx::r::{
    archive_name, base_packages_from_output, build_arguments, r_version_from_output,
    subprocess_outcome, summarize_subprocess_output, BasePackagesError, RSubprocessError,
    RVersion, RVersionError,
};
use rpx::repository::built_in_repository;
use rpx::resolver::PackageVersion;

fn selected() -> PackageVersion {
    PackageVersion::new(Version::parse("1.0").unwrap(), built_in_repository())
}

#[test]
fn downloads_fall_back_from_binary_to_archive() {
    let cran = RegistryIdentity::Cran("https://a.test".to_string());
    let step = |stage, event| next_download_step(&cran, stage, event);
    assert_eq!(
        step(
            DownloadStage::BinaryEntry,
            DownloadEvent::Found(ArtifactCacheEntry::Missing)
        ),
        DownloadStep::Next(DownloadStage::BinaryRequest)
    );
    assert_eq!(
        step(DownloadStage::BinaryRequest, DownloadEvent::Failed),
        DownloadStep::Next(DownloadStage::SourceEntry)
    );
    assert_eq!(
        step(
            DownloadStage::SourceEntry,
            DownloadEvent::Found(ArtifactCacheEntry::Missing)
        ),
        DownloadStep::Next(DownloadStage::CurrentRequest)
    );
    assert_eq!(
        step(DownloadStage::CurrentRequest, DownloadEvent::Failed),
        DownloadStep::Next(DownloadStage::ArchivedRequest)
    );
    assert_eq!(
        step(DownloadStage::ArchivedRequest, DownloadEvent::Failed),
        DownloadStep::Failed
    );
    assert_eq!(
        step(
            DownloadStage::SourceEntry,
            DownloadEvent::Found(ArtifactCacheEntry::Invalid)
        ),
        DownloadStep::Invalid
    );
    assert_eq!(first_download_stage(&Ok(None)), DownloadStage::SourceEntry);
}

#[test]
fn bodies_have_to_be_as_long_as_announced() {
    let mut transfer = Transfer::new(Some(5));
    transfer.receive(3);
    let error = transfer.finish().unwrap_err();
    assert_eq!((error.expected, error.actual), (5, 3));
    transfer.receive(2);
    assert!(transfer.finish().is_ok());
    assert!(Transfer::new(None).finish().is_ok());
}

#[test]
fn platforms_have_their_binaries() {
    let r = RVersion::parse("4.5.1").unwrap();
    let pair = |triple: &str| {
        select_install_artifact("a", &selected(), &Target::parse(triple).unwrap(), &r, Ok(()))
            .expect("artifacts should be found")
    };
    assert_eq!(
        pair("x86_64-pc-windows-msvc").binary.map(|a| a.kind),
        Some(ArtifactKind::Binary(BinaryFormat::Zip))
    );
    assert!(pair("x86_64-unknown-linux-gnu").binary.is_none());
    assert_eq!(pair("x86_64-unknown-linux-gnu").source.kind, ArtifactKind::Source);
    assert!(select_install_artifact(
        "a",
        &selected(),
        &Target::parse("aarch64-apple-darwin").unwrap(),
        &r,
        Err("no type".to_string())
    )
    .is_err());
    let registry = RegistryIdentity::Cran("https://a.test".to_string());
    assert!(registry_binary_artifact(
        &registry,
        "a",
        &selected(),
        &Target::parse("x86_64-unknown-linux-gnu").unwrap(),
        &r,
        Ok(())
    )
    .unwrap()
    .is_none());
}

#[test]
fn versions_of_r_are_read() {
    assert_eq!(r_version_from_output(b"4.5.1\n".to_vec()).unwrap().text, "4.5.1");
    assert!(matches!(
        r_version_from_output(b"unknown".to_vec()),
        Err(RVersionError::InvalidVersion { version, .. }) if version == "unknown"
    ));
    assert_eq!(
        r_version_from_output(b"Rscript (R) version 4.4.2 (2024-10-31)\n".to_vec()).unwrap().text,
        "4.4.2"
    );
    let invalid = "invalid utf-8 sequence of 1 bytes from index 1";
    assert!(matches!(
        r_version_from_output(vec![b'4', 0xff]),
        Err(RVersionError::InvalidUtf8 { details }) if details == invalid
    ));
    assert!(matches!(
        base_packages_from_output(vec![b'a', 0xff]),
        Err(BasePackagesError::InvalidUtf8 { details }) if details == invalid
    ));
    assert_eq!(RVersion::new(4, 5, 1).text, "4.5.1");
    assert_eq!(RVersion::parse("4.5.1").unwrap().series(), "4.5");
    assert!(RVersion::parse("4.5").is_err());
    assert_eq!(
        base_packages_from_output(b"stats\n base \n\nstats\n".to_vec()).unwrap().items,
        ["base", "stats"]
    );
}

#[test]
fn failures_of_commands_are_summarised() {
    let bytes = |text: &str| text.as_bytes().to_vec();
    assert!(subprocess_outcome("R", true, Some(0), &bytes(""), &bytes("")).is_ok());
    assert!(matches!(
        subprocess_outcome("R", false, Some(2), &bytes("out"), &vec![b'e', 0xff]),
        Err(RSubprocessError::Failed { program, exit_code: Some(2), stdout, stderr, summary })
            if program == "R" && stdout == "out" && stderr == "e\u{fffd}" && summary == "out"
    ));
    assert_eq!(summarize_subprocess_output(&bytes("out\n"), &bytes("err\n")), "out");
    assert_eq!(
        summarize_subprocess_output(&bytes("out\n"), &bytes(" ERROR: lost \nerr\n")),
        "ERROR: lost"
    );
    assert_eq!(
        summarize_subprocess_output(&bytes(" \n"), &bytes("")),
        "process exited without output"
    );
    assert_eq!(archive_name("a", "1.0"), "a_1.0.tar.gz");
    assert_eq!(build_arguments("/p").last().map(String::as_str), Some("/p"));
}

#[test]
fn artifacts_are_requested_where_registries_keep_them() {
    let cran = RegistryIdentity::Cran("https://a.test".to_string());
    let rrepo = RegistryIdentity::Rrepo("https://b.test/cran".to_string());
    let r = RVersion::parse("4.5.1").unwrap();
    let binary = |registry, os, target| binary_artifact_url(registry, os, target, &r, "p", "1.0");
    assert_eq!(
        binary(&cran, OsFamily::Windows, None).as_deref(),
        Some("https://a.test/bin/windows/contrib/4.5/p_1.0.zip")
    );
    assert_eq!(
        binary(&rrepo, OsFamily::Windows, None).as_deref(),
        Some("https://b.test/cran/packages/p/versions/1.0/binaries/windows/4.5")
    );
    assert_eq!(
        binary(&cran, OsFamily::MacOs, Some("big-sur-arm64")).as_deref(),
        Some("https://a.test/bin/macosx/big-sur-arm64/contrib/4.5/p_1.0.tgz")
    );
    assert_eq!(
        binary(&rrepo, OsFamily::MacOs, Some("big-sur-arm64")).as_deref(),
        Some("https://b.test/cran/packages/p/versions/1.0/binaries/macos/big-sur-arm64/4.5")
    );
    assert_eq!(binary(&cran, OsFamily::MacOs, None), None);
    assert_eq!(binary(&rrepo, OsFamily::Other, Some("x")), None);
    let source = |registry, stage| source_artifact_url(registry, stage, "p", "1.0");
    assert_eq!(
        source(&cran, DownloadStage::CurrentRequest).as_deref(),
        Some("https://a.test/src/contrib/p_1.0.tar.gz")
    );
    assert_eq!(
        source(&cran, DownloadStage::ArchivedRequest).as_deref(),
        Some("https://a.test/src/contrib/Archive/p/p_1.0.tar.gz")
    );
    assert_eq!(
        source(&rrepo, DownloadStage::SourceRequest).as_deref(),
        Some("https://b.test/cran/packages/p/versions/1.0/source")
    );
}
