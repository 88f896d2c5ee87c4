use obsidian_host::markdown::MarkdownService;

#[test]
fn test_plain_text_extraction() {
    let markdown = "# Title\n\nThis is **bold** text with a [link](url).";
    let plain = MarkdownService::to_plain_text(markdown);

    assert_eq!(plain, "Title This is bold text with a link.");
}

#[test]
fn test_excerpt_generation() {
    let markdown = "# Long Article\n\nThis is a very long article with lots of content that should be truncated.";
    let excerpt = MarkdownService::get_excerpt(markdown, 30);

    assert!(excerpt.len() <= 33); // 30 + "..."
    assert!(excerpt.ends_with("..."));
}

#[test]
fn test_excerpt_short_input_untouched() {
    let markdown = "# Hi\n\nShort.";
    let excerpt = MarkdownService::get_excerpt(markdown, 100);
    assert_eq!(excerpt, "Hi Short.");
}

#[test]
fn test_excerpt_exact_cut() {
    let plain = MarkdownService::to_plain_text("alpha beta gamma");
    assert_eq!(plain, "alpha beta gamma");
    let excerpt = MarkdownService::get_excerpt("alpha beta gamma", 6);
    // six characters are "alpha " whose trailing space is trimmed
    assert_eq!(excerpt, "alpha...");
}

#[test]
fn test_html_escape() {
    assert_eq!(
        MarkdownService::html_escape("<a href=\"x\">&'</a>"),
        "&lt;a href=&quot;x&quot;&gt;&amp;&#39;&lt;/a&gt;"
    );
    assert_eq!(MarkdownService::html_escape("plain"), "plain");
}

#[test]
fn test_plain_text_inline_code() {
    let plain = MarkdownService::to_plain_text("Use `code` here.");
    assert_eq!(plain, "Use code here.");
}
