use obsidian_host::models::UserRole;
use obsidian_host::search::{InvertedIndexData, SearchIndex};
use obsidian_host::wiki::{FileIndex, WikiLinkResolver};

#[test]
fn test_split_fragment_plain() {
    let (target, fragment) = WikiLinkResolver::split_fragment("Note");
    assert_eq!(target, "Note");
    assert!(fragment.is_none());
}

#[test]
fn test_split_fragment_with_header() {
    let (target, fragment) = WikiLinkResolver::split_fragment("Note#Section one");
    assert_eq!(target, "Note");
    assert_eq!(fragment, Some("Section one".to_string()));
}

#[test]
fn test_split_fragment_block_ref() {
    let (target, fragment) = WikiLinkResolver::split_fragment("folder/Note#^block-id");
    assert_eq!(target, "folder/Note");
    assert_eq!(fragment, Some("^block-id".to_string()));
}

#[test]
fn test_decode_percent_encoding() {
    assert_eq!(WikiLinkResolver::decode_percent_encoding("My%20Note"), "My Note");
    assert_eq!(WikiLinkResolver::decode_percent_encoding("a%2Fb"), "a/b");
    assert_eq!(WikiLinkResolver::decode_percent_encoding("plain"), "plain");
}

#[test]
fn test_decode_percent_encoding_malformed() {
    // a failed escape keeps the percent and what was consumed with it
    assert_eq!(WikiLinkResolver::decode_percent_encoding("100%zz"), "100%zz");
    assert_eq!(WikiLinkResolver::decode_percent_encoding("oops%2"), "oops%2");
    assert_eq!(WikiLinkResolver::decode_percent_encoding("end%"), "end%");
}

#[test]
fn test_file_index_counts() {
    let mut index = FileIndex::new();
    assert_eq!(index.file_count(), 0);
    index.add_file("Note", "Note.md", "Note.md", 0);
    index.add_file("Note", "Note.md", "folder/Note.md", 1);
    index.add_file("SubNote", "SubNote.md", "folder/SubNote.md", 1);
    assert_eq!(index.file_count(), 3);
}

#[test]
fn test_search_index_constructors() {
    let index = SearchIndex::new();
    assert!(index.indices.is_empty());
    let data = InvertedIndexData::new();
    assert!(data.terms.is_empty());
    assert!(data.files.is_empty());
}

#[test]
fn test_user_role_round_trip() {
    assert_eq!(UserRole::Admin.as_str(), "admin");
    assert_eq!(UserRole::User.as_str(), "user");
    assert_eq!(UserRole::Pending.as_str(), "pending");
    assert_eq!(UserRole::from_str("admin"), UserRole::Admin);
    assert_eq!(UserRole::from_str("user"), UserRole::User);
    assert_eq!(UserRole::from_str("pending"), UserRole::Pending);
    assert_eq!(UserRole::from_str("anything-else"), UserRole::Pending);
}

#[test]
fn test_file_index_resolve() {
    let mut index = FileIndex::new();
    index.add_file("Note", "Note.md", "Note.md", 0);
    index.add_file("Note", "Note.md", "folder/Note.md", 1);
    index.add_file("SubNote", "SubNote.md", "folder/SubNote.md", 1);

    let result = index.resolve("Note");
    assert!(result.exists);
    // the shallower of the two matches wins; the other is an alternative
    assert_eq!(result.path, "Note.md");
    assert_eq!(result.alternatives, vec!["folder/Note.md".to_string()]);

    let missing = index.resolve("Ghost");
    assert!(!missing.exists);
    assert_eq!(missing.path, "Ghost.md");
    assert!(missing.alternatives.is_empty());
}

#[test]
fn test_file_index_resolve_case_and_fragment() {
    let mut index = FileIndex::new();
    index.add_file("Note", "Note.md", "Note.md", 0);

    assert!(index.resolve("note").exists);
    assert!(index.resolve("NOTE").exists);
    let with_fragment = index.resolve("Note#Some header");
    assert!(with_fragment.exists);
    assert_eq!(with_fragment.path, "Note.md");
    let encoded = index.resolve("%4Eote");
    assert!(encoded.exists);
}

#[test]
fn test_file_index_resolve_ties_sorted_by_path() {
    let mut index = FileIndex::new();
    index.add_file("Note", "Note.md", "b/Note.md", 1);
    index.add_file("Note", "Note.md", "a/Note.md", 1);
    let result = index.resolve("Note");
    assert_eq!(result.path, "a/Note.md");
    assert_eq!(result.alternatives, vec!["b/Note.md".to_string()]);
}

#[test]
fn test_tokenize_terms() {
    let terms = SearchIndex::tokenize("Hello, World! Goodbye");
    assert_eq!(terms, vec!["hello".to_string(), "world".to_string(), "goodbye".to_string()]);
    assert_eq!(SearchIndex::tokenize("a--b  c"), vec!["a".to_string(), "b".to_string(), "c".to_string()]);
    assert!(SearchIndex::tokenize("...!?").is_empty());
    assert!(SearchIndex::tokenize("").is_empty());
}
