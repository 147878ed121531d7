use capsule_telegram::format::{
    chunk_html, close_open_tags, html_escape, html_unescape, md_to_telegram_html,
    truncate_for_edit,
};

#[test]
fn html_escape_special_chars() {
    assert_eq!(html_escape("<b>&test</b>"), "&lt;b&gt;&amp;test&lt;/b&gt;");
}

#[test]
fn html_unescape_roundtrip() {
    let text = "<b>&test</b>";
    assert_eq!(html_unescape(&html_escape(text)), text);
}

#[test]
fn md_bold() {
    let result = md_to_telegram_html("Hello **world**");
    assert!(result.contains("<b>world</b>"));
}

#[test]
fn md_code_block_escapes_html() {
    let result = md_to_telegram_html("```\n<div>test</div>\n```");
    assert!(result.contains("&lt;div&gt;"));
}

#[test]
fn md_inline_code_not_affected_by_bold() {
    let result = md_to_telegram_html("Use `**not bold**` here");
    assert!(result.contains("<code>**not bold**</code>"));
}

#[test]
fn md_link_unsafe_scheme_rejected() {
    let result = md_to_telegram_html("Click [here](javascript:alert(1))");
    assert!(!result.contains("<a href"));
}

#[test]
fn md_link_url_not_double_escaped() {
    let result = md_to_telegram_html("Visit [docs](https://example.com/search?a=1&b=2)");
    // The href should contain properly escaped &amp; (single level), not &amp;amp;
    assert!(
        result.contains("href=\"https://example.com/search?a=1&amp;b=2\""),
        "got: {result}"
    );
    // Must NOT contain double-escaped entities.
    assert!(!result.contains("&amp;amp;"), "double-escaped: {result}");
}

#[test]
fn md_link_preserves_valid_url() {
    let result = md_to_telegram_html("[click](https://example.com/path)");
    assert!(result.contains("<a href=\"https://example.com/path\">click</a>"));
}

#[test]
fn close_open_tags_nested() {
    assert_eq!(close_open_tags("<b><i>text"), "<b><i>text</i></b>");
}

#[test]
fn truncate_for_edit_short_text() {
    assert_eq!(truncate_for_edit("Hello world"), "Hello world");
}

#[test]
fn truncate_for_edit_long_text() {
    let text = "x".repeat(5000);
    let result = truncate_for_edit(&text);
    assert!(result.ends_with("..."));
    assert!(result.len() <= 4000);
}

#[test]
fn chunk_html_short() {
    let chunks = chunk_html("<b>hello</b>", 100);
    assert_eq!(chunks.len(), 1);
}
