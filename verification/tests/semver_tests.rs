use obsidian_host::semver::{is_valid_semver, parse_version, version_gte, version_satisfies, Version};

#[test]
fn test_version_validation() {
    assert!(is_valid_semver("1.0.0"));
    assert!(is_valid_semver("0.1.0"));
    assert!(!is_valid_semver("1.0"));
    assert!(!is_valid_semver("invalid"));
}

#[test]
fn test_version_satisfies() {
    assert!(version_satisfies("1.2.3", "1.2.3"));
    assert!(version_satisfies("1.5.0", "^1.0.0"));
    assert!(!version_satisfies("2.0.0", "^1.0.0"));
    assert!(version_satisfies("1.2.5", "~1.2.0"));
    assert!(!version_satisfies("1.3.0", "~1.2.0"));
}

#[test]
fn test_parse_version_components() {
    assert_eq!(parse_version("10.20.30"), Some(Version { major: 10, minor: 20, patch: 30 }));
    assert_eq!(parse_version("0.0.0"), Some(Version { major: 0, minor: 0, patch: 0 }));
    assert_eq!(parse_version(""), None);
    assert_eq!(parse_version("1.2.3.4"), None);
    assert_eq!(parse_version("1..3"), None);
    assert_eq!(parse_version("a.b.c"), None);
    assert_eq!(parse_version("4294967295.0.0"), Some(Version { major: u32::MAX, minor: 0, patch: 0 }));
    assert_eq!(parse_version("4294967296.0.0"), None);
}

#[test]
fn test_exact_match_is_textual() {
    assert!(version_satisfies("1.2.3", "1.2.3"));
    assert!(!version_satisfies("1.2.3", "1.2.4"));
    // exact constraints compare the strings, not the numbers
    assert!(!version_satisfies("1.2.3", "01.2.3"));
}

#[test]
fn test_gte_constraint() {
    assert!(version_satisfies("2.0.0", ">=1.9.9"));
    assert!(version_satisfies("1.9.9", ">=1.9.9"));
    assert!(!version_satisfies("1.9.8", ">=1.9.9"));
    assert!(version_gte("1.10.0", "1.9.0"));
    assert!(!version_gte("1.9.0", "1.10.0"));
    assert!(!version_gte("not-a-version", "1.0.0"));
}

#[test]
fn test_caret_same_major_only() {
    assert!(version_satisfies("1.0.0", "^1.0.0"));
    assert!(version_satisfies("1.0.1", "^1.0.0"));
    assert!(!version_satisfies("0.9.9", "^1.0.0"));
    assert!(!version_satisfies("1.1.0", "^1.2.0"));
}
