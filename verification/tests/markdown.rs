use outliner::markdown::{
    escape_markdown, extract_plain_text, has_markdown_formatting, parse_to_html, post_process_html,
};

#[test]
fn test_basic_markdown_parsing() {
    let content = "# Header\n\nThis is **bold** and *italic* text.";
    let html = parse_to_html(content);
    assert!(html.contains("<h1>Header</h1>"));
    assert!(html.contains("<strong>bold</strong>"));
    assert!(html.contains("<em>italic</em>"));
}

#[test]
fn test_page_link_conversion() {
    let content = "See [[Page Name]] for details.";
    let html = parse_to_html(content);
    assert!(html.contains(r#"<a href='#' class='page-link'"#));
    assert!(html.contains(r#"data-page='Page Name'"#));
}

#[test]
fn test_task_marker_conversion() {
    let content = ["TODO Complete this", " task\nDONE Finished task"].concat();
    let html = parse_to_html(&content);
    assert!(html.contains(r#"class="task-item"#));
    assert!(html.contains(r#"data-status="todo""#));
    assert!(html.contains(r#"data-status="done""#));
    assert!(html.contains("checked"));
}

#[test]
fn test_plain_text_extraction() {
    let content = "# Header\n\nThis is **bold** text with a [link](http://example.com).";
    let text = extract_plain_text(content);
    assert_eq!(text.trim(), "Header This is bold text with a link .");
}

#[test]
fn test_markdown_detection() {
    assert!(has_markdown_formatting("This is **bold** text"));
    assert!(has_markdown_formatting("# Header"));
    assert!(has_markdown_formatting("- List item"));
    assert!(!has_markdown_formatting("Plain text"));
}

#[test]
fn test_markdown_escaping() {
    let text = "Text with *asterisks* and [brackets]";
    let escaped = escape_markdown(text);
    assert_eq!(escaped, "Text with \\*asterisks\\* and \\[brackets\\]");
}

#[test]
fn post_processing_rewrites_each_marker() {
    let out = post_process_html("[[A]] {{B}}\nWAITING on {{C}}".to_string());
    assert_eq!(
        out,
        "<a href='#' class='page-link' data-page='A'>A</a> <div class=\"transclusion\" data-content=\"B\">[Transclusion: B]</div>\n<div class=\"task-item task-pending\">\n                <input type=\"checkbox\"  data-status=\"waiting\" />\n                <span class=\"task-status\">WAITING</span>\n                <span class=\"task-content\">on <div class=\"transclusion\" data-content=\"C\">[Transclusion: C]</div></span>\n            </div>"
    );
}

#[test]
fn post_processing_keeps_plain_html() {
    let html = "<p>[not a link] {single} TODOs</p>\n";
    assert_eq!(post_process_html(html.to_string()), html);
}

#[test]
fn cancelled_tasks_are_checked() {
    let out = post_process_html("<p>CANCELLED old plan</p>".to_string());
    assert!(out.starts_with("<p><div class=\"task-item task-cancelled\">"));
    assert!(out.contains("checked data-status=\"cancelled\""));
    assert!(out.contains("<span class=\"task-content\">old plan</p></span>"));
}

#[test]
fn escaping_every_special_character() {
    assert_eq!(escape_markdown("*_[]()#+-.!`|a"), "\\*\\_\\[\\]\\(\\)\\#\\+\\-\\.\\!\\`\\|a");
    assert!(has_markdown_formatting("1. first"));
    assert!(!has_markdown_formatting("1.5 and a-b"));
}
