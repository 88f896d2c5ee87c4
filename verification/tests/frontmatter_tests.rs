use obsidian_host::frontmatter::parse_frontmatter;
use obsidian_host::host_api::ApiError;

#[test]
fn test_parse_frontmatter() {
    let content = "---\ntitle: Test Note\ntags:\n  - test\n  - example\ndate: 2024-01-01\n---\n# Heading\n\nSome content here";

    let (frontmatter, remaining) = parse_frontmatter(content).unwrap();
    assert!(frontmatter.is_some());
    assert_eq!(remaining.trim(), "# Heading\n\nSome content here");

    let fm = frontmatter.unwrap();
    assert_eq!(fm["title"], "Test Note");
}

#[test]
fn test_no_frontmatter() {
    let content = "# Just a heading\n\nNo frontmatter here";
    let (frontmatter, remaining) = parse_frontmatter(content).unwrap();
    assert!(frontmatter.is_none());
    assert_eq!(remaining, content);
}

#[test]
fn test_unclosed_frontmatter_is_plain_content() {
    let content = "---\ntitle: whoops\nno closing line";
    let (frontmatter, remaining) = parse_frontmatter(content).unwrap();
    assert!(frontmatter.is_none());
    assert_eq!(remaining, content);
}

#[test]
fn test_invalid_yaml_frontmatter_errors() {
    let content = "---\n{ not: [valid\n---\nbody";
    match parse_frontmatter(content) {
        Err(ApiError::InvalidInput { message }) => {
            assert!(message.contains("Invalid YAML frontmatter"));
        }
        _ => panic!("expected an invalid-input error"),
    }
}

#[test]
fn test_frontmatter_tags_list() {
    let content = "---\ntags:\n  - alpha\n  - beta\n---\nbody text";
    let (frontmatter, remaining) = parse_frontmatter(content).unwrap();
    let fm = frontmatter.unwrap();
    assert_eq!(fm["tags"][0], "alpha");
    assert_eq!(fm["tags"][1], "beta");
    assert_eq!(remaining, "body text");
}
