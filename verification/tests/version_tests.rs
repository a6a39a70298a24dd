use cargo_new_release::version::{
    bump, bump_commit_message, bump_manifest, changelog_commit_message, parse_version, pr_title,
    version_to_string, Version, VersionError,
};

#[test]
fn bump_increments_minor_resets_patch() {
    let v = parse_version("0.71.0").unwrap();
    assert_eq!(v, Version { major: 0, minor: 71, patch: 0 });
    let n = bump(&v).unwrap();
    assert_eq!(n, Version { major: 0, minor: 72, patch: 0 });
    assert_eq!(version_to_string(&n), "0.72.0");
}

#[test]
fn bump_resets_nonzero_patch() {
    let v = Version { major: 0, minor: 3, patch: 9 };
    assert_eq!(bump(&v).unwrap(), Version { major: 0, minor: 4, patch: 0 });
}

#[test]
fn bump_rejects_nonzero_major() {
    let v = Version { major: 1, minor: 2, patch: 3 };
    assert_eq!(bump(&v).err().unwrap(), VersionError::MajorNotZero);
}

#[test]
fn parse_version_rejects_malformed() {
    assert!(parse_version("1.2").is_none());
    assert!(parse_version("01.2.3").is_none());
    assert!(parse_version("1.2.3.4").is_none());
    assert!(parse_version("1.2.x").is_none());
    assert!(parse_version("").is_none());
    assert!(parse_version("0.71.0-beta.1").is_none());
}

#[test]
fn parse_version_accepts_zero() {
    assert_eq!(parse_version("0.0.0").unwrap(), Version { major: 0, minor: 0, patch: 0 });
}

#[test]
fn bump_manifest_rewrites_only_the_version() {
    let toml = "[package]\nname = \"cargo\"\nversion = \"0.71.0\"\nedition = \"2021\"\n";
    let (out, next) = bump_manifest(toml).unwrap();
    assert_eq!(next, Version { major: 0, minor: 72, patch: 0 });
    assert_eq!(out, "[package]\nname = \"cargo\"\nversion = \"0.72.0\"\nedition = \"2021\"\n");
}

#[test]
fn bump_manifest_reports_missing_marker() {
    assert_eq!(bump_manifest("[package]\nname = \"x\"\n").err().unwrap(), VersionError::MarkerNotFound);
}

#[test]
fn bump_manifest_reports_unterminated_version() {
    assert_eq!(bump_manifest("version = \"0.71.0").err().unwrap(), VersionError::UnterminatedVersion);
}

#[test]
fn bump_manifest_reports_invalid_version() {
    assert_eq!(bump_manifest("version = \"abc\"").err().unwrap(), VersionError::InvalidVersion);
}

#[test]
fn bump_manifest_rejects_nonzero_major() {
    assert_eq!(bump_manifest("version = \"1.0.0\"").err().unwrap(), VersionError::MajorNotZero);
}

#[test]
fn bump_manifest_rejects_unincrementable_minor() {
    let toml = "version = \"0.18446744073709551615.0\"\n";
    assert_eq!(bump_manifest(toml).err().unwrap(), VersionError::MinorOverflow);
}

#[test]
fn commit_messages() {
    let v = Version { major: 0, minor: 72, patch: 0 };
    assert_eq!(bump_commit_message(&v), "Bump to 0.72.0");
    assert_eq!(changelog_commit_message(&v), "Update changelog for 1.70");
    assert_eq!(pr_title(&v), "Bump to 0.72.0, update changelog");
}
