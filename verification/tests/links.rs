use outliner::links::{
    extract_external_links, extract_page_links, find_malformed_links, get_link_context,
    get_referenced_pages, has_links, is_valid_page_name, page_name_to_path, render_page_links,
    ExternalLinkType,
};

#[test]
fn test_extract_page_links() {
    let content = "See [[Page One]] and [[Page Two]] for more info about [[Another Page]].";
    let links = extract_page_links(content);
    assert_eq!(links.len(), 3);
    assert!(links.contains(&"Page One".to_string()));
    assert!(links.contains(&"Page Two".to_string()));
    assert!(links.contains(&"Another Page".to_string()));
}

#[test]
fn test_extract_page_links_with_whitespace() {
    let content = "[[ Page With Spaces ]] and [[  Trimmed  ]]";
    let links = extract_page_links(content);
    assert_eq!(links.len(), 2);
    assert!(links.contains(&"Page With Spaces".to_string()));
    assert!(links.contains(&"Trimmed".to_string()));
}

#[test]
fn test_empty_links_filtered() {
    let content = "[[]] and [[   ]] should be filtered out, but [[Real Link]] should remain";
    let links = extract_page_links(content);
    assert_eq!(links.len(), 1);
    assert_eq!(links[0], "Real Link");
}

#[test]
fn test_find_malformed_links() {
    let content = "This has [[ incomplete link at end";
    let malformed = find_malformed_links(content);
    assert!(!malformed.is_empty());
}

#[test]
fn test_get_link_context() {
    let content = "Start [[Partial Link] here";
    let context = get_link_context(content, 17);
    assert_eq!(context, Some("Partial L".to_string()));
    assert_eq!(get_link_context(content, 15), Some("Partial".to_string()));
}

#[test]
fn test_get_link_context_no_context() {
    let content = "No link context here";
    let context = get_link_context(content, 10);
    assert_eq!(context, None);
}

#[test]
fn test_valid_page_name() {
    assert!(is_valid_page_name("Valid Page Name"));
    assert!(is_valid_page_name("project/sub-page"));
    assert!(!is_valid_page_name(""));
    assert!(!is_valid_page_name("name\nwith\nnewlines"));
    assert!(!is_valid_page_name("/starts-with-slash"));
    assert!(!is_valid_page_name("ends-with-slash/"));
}

#[test]
fn test_extract_external_links() {
    let content = "Visit [Google](https://google.com) or check out https://example.com directly.";
    let links = extract_external_links(content);
    assert_eq!(links.len(), 2);
    assert_eq!(links[0].text, "Google");
    assert_eq!(links[0].url, "https://google.com");
    assert_eq!(links[1].text, "https://example.com");
    assert_eq!(links[1].url, "https://example.com");
}

#[test]
fn test_page_name_to_path() {
    assert_eq!(page_name_to_path("My Project Page"), "my-project-page");
    assert_eq!(page_name_to_path("  Spaces  "), "spaces");
    assert_eq!(page_name_to_path("Special!@#$%Characters"), "specialcharacters");
    assert_eq!(page_name_to_path("project/sub-page"), "project/sub-page");
}

#[test]
fn test_get_referenced_pages() {
    let content = "See [[Page A]] and then [[Page B]] for details.";
    let references = get_referenced_pages(content);
    assert_eq!(references.len(), 2);
    assert_eq!(references[0].page_name, "Page A");
    assert_eq!(references[0].reference_index, 0);
    assert_eq!(references[1].page_name, "Page B");
    assert_eq!(references[1].reference_index, 1);
}

#[test]
fn test_has_links() {
    assert!(has_links("Text with [[a link]] here"));
    assert!(!has_links("Text with no links"));
    assert!(!has_links("Text with only [[ opening"));
    assert!(!has_links("Text with only ]] closing"));
}

#[test]
fn test_render_page_links() {
    let content = "See [[Page One]] and [[Page Two]]";
    let rendered = render_page_links(content, |name| {
        format!("<a href=\"{}\">{}</a>", name.to_lowercase(), name)
    });
    assert!(rendered.contains("<a href=\"page one\">Page One</a>"));
    assert!(rendered.contains("<a href=\"page two\">Page Two</a>"));
}

#[test]
fn link_context_is_the_text_after_the_open_link() {
    assert_eq!(get_link_context("Go to [[My Project Pa", 21), Some("My Project Pa".to_string()));
    assert_eq!(get_link_context("[[My Page", 9), Some("My Page".to_string()));
    assert_eq!(get_link_context("Start [[Partial Link] here", 17), Some("Partial L".to_string()));
    assert_eq!(get_link_context("[[Notes", 7), Some("Notes".to_string()));
    assert_eq!(get_link_context("[[done]] after", 14), None);
    assert_eq!(get_link_context("short", 50), None);
}

#[test]
fn referenced_pages_carry_byte_positions() {
    let refs = get_referenced_pages("é [[A]]");
    assert_eq!(refs.len(), 1);
    assert_eq!(refs[0].position, 3);
    assert_eq!(refs[0].length, 5);
}

#[test]
fn external_link_kinds() {
    let links = extract_external_links("[mail](mailto:a@b.c) [file](docs/x.md) [web](http://x.y)");
    assert_eq!(links.len(), 3);
    assert_eq!(links[0].link_type, ExternalLinkType::Email);
    assert_eq!(links[1].link_type, ExternalLinkType::Other);
    assert_eq!(links[2].link_type, ExternalLinkType::Http);
}

#[test]
fn slug_is_idempotent() {
    let once = page_name_to_path("Hello World / Sub Page!");
    assert_eq!(page_name_to_path(&once), once);
}

#[test]
fn page_paths_are_their_own_paths() {
    for name in ["My Project Page", "  --Notes / 2024!  ", "a_b-c/D e", "", "Café Über Straße", "ΣΟΦΙΑ Notes"] {
        let once = page_name_to_path(name);
        assert_eq!(page_name_to_path(&once), once);
    }
}

#[test]
fn unicode_page_path() {
    assert_eq!(page_name_to_path("Café Über"), "café-über");
}
