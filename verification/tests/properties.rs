use outliner::properties::{
    extract_properties, find_malformed_properties, format_properties, get_property_context,
    get_property_value, has_properties, html_escape, is_valid_property_key, parse_list_property,
    properties_to_map, render_properties_html, strip_properties, Property,
};

#[test]
fn test_extract_simple_properties() {
    let content = "priority:: high\ndue:: tomorrow\ntags:: work, urgent";
    let properties = extract_properties(content);
    assert_eq!(properties.len(), 3);
    assert!(properties.contains(&("priority".to_string(), "high".to_string())));
    assert!(properties.contains(&("due".to_string(), "tomorrow".to_string())));
    assert!(properties.contains(&("tags".to_string(), "work, urgent".to_string())));
}

#[test]
fn test_extract_multiline_properties() {
    let content = "notes:: This is a long note\n  that continues on multiple lines\n  with consistent indentation\nother:: simple";
    let properties = extract_properties(content);
    assert_eq!(properties.len(), 2);
    let notes_prop = properties.iter().find(|(k, _)| k == "notes").unwrap();
    assert!(notes_prop.1.contains("This is a long note"));
    assert!(notes_prop.1.contains("that continues on multiple lines"));
    assert!(notes_prop.1.contains("with consistent indentation"));
}

#[test]
fn test_extract_indented_properties() {
    let content = "  priority:: high\n    tags:: work";
    let properties = extract_properties(content);
    assert_eq!(properties.len(), 2);
    assert!(properties.contains(&("priority".to_string(), "high".to_string())));
    assert!(properties.contains(&("tags".to_string(), "work".to_string())));
}

#[test]
fn test_find_malformed_properties() {
    let content = "good:: value\n:: no key\nspaced key:: invalid\nkey with$:: symbols";
    let malformed = find_malformed_properties(content);
    assert!(!malformed.is_empty());
    assert!(malformed.iter().any(|m| m.contains("Empty property key")));
    assert!(malformed.iter().any(|m| m.contains("contains spaces")));
    assert!(malformed.iter().any(|m| m.contains("invalid characters")));
}

#[test]
fn test_get_property_context_key() {
    let content = "priori";
    let _context = get_property_context(content, 6);
    let content2 = "priority:: ";
    let context2 = get_property_context(content2, 8);
    assert!(context2.is_some());
    if let Some(ctx) = context2 {
        assert_eq!(ctx.context_type, "key");
    }
}

#[test]
fn test_get_property_context_value() {
    let content = "priority:: hi";
    let context = get_property_context(content, 13);
    assert!(context.is_some());
    if let Some(ctx) = context {
        assert_eq!(ctx.context_type, "value");
        assert_eq!(ctx.property_key, Some("priority".to_string()));
        assert_eq!(ctx.partial_text, "hi");
    }
}

#[test]
fn test_valid_property_key() {
    assert!(is_valid_property_key("valid_key"));
    assert!(is_valid_property_key("key123"));
    assert!(is_valid_property_key("_private"));
    assert!(!is_valid_property_key(""));
    assert!(!is_valid_property_key("123key"));
    assert!(!is_valid_property_key("key with spaces"));
    assert!(!is_valid_property_key("key-with-dashes"));
    assert!(!is_valid_property_key("key$with$symbols"));
}

#[test]
fn test_parse_list_property() {
    let value = "item1, item2, item3";
    let list = parse_list_property(value);
    assert_eq!(list.len(), 3);
    assert_eq!(list[0], "item1");
    assert_eq!(list[1], "item2");
    assert_eq!(list[2], "item3");
}

#[test]
fn test_parse_list_property_with_whitespace() {
    let value = " item1 ,  item2  , item3 ";
    let list = parse_list_property(value);
    assert_eq!(list.len(), 3);
    assert_eq!(list[0], "item1");
    assert_eq!(list[1], "item2");
    assert_eq!(list[2], "item3");
}

#[test]
fn test_strip_properties() {
    let content = "This is content\npriority:: high\nMore content\ntags:: work\nFinal content";
    let stripped = strip_properties(content);
    assert!(!stripped.contains("priority::"));
    assert!(!stripped.contains("tags::"));
    assert!(stripped.contains("This is content"));
    assert!(stripped.contains("More content"));
    assert!(stripped.contains("Final content"));
}

#[test]
fn test_get_property_value() {
    let content = "priority:: high\ndue:: tomorrow";
    assert_eq!(get_property_value(content, "priority"), Some("high".to_string()));
    assert_eq!(get_property_value(content, "due"), Some("tomorrow".to_string()));
    assert_eq!(get_property_value(content, "nonexistent"), None);
}

#[test]
fn test_has_properties() {
    assert!(has_properties("key:: value"));
    assert!(has_properties("Some text\nkey:: value\nMore text"));
    assert!(!has_properties("Just regular text"));
    assert!(!has_properties("URL: https://example.com"));
}

#[test]
fn test_properties_to_map() {
    let properties = vec![
        ("key1".to_string(), "value1".to_string()),
        ("key2".to_string(), "value2".to_string()),
    ];
    let map = properties_to_map(&properties);
    assert_eq!(map.get("key1"), Some(&"value1".to_string()));
    assert_eq!(map.get("key2"), Some(&"value2".to_string()));
    assert_eq!(map.len(), 2);
}

#[test]
fn format_properties_joins_pairs() {
    let pairs = vec![
        ("priority".to_string(), "high".to_string()),
        ("due".to_string(), "2024-01-15".to_string()),
    ];
    assert_eq!(format_properties(&pairs), "priority: high, due: 2024-01-15");
    assert_eq!(format_properties(&[]), "");
}

#[test]
fn malformed_single_colon_and_urls() {
    let reports = find_malformed_properties("note: remember\nsee http://x.y\n- item: a\n# head: b");
    assert_eq!(reports, vec!["Possible malformed property (single colon): note: remember".to_string()]);
}

#[test]
fn html_escaping_and_rendering() {
    assert_eq!(html_escape("<a href=\"x\">'&'</a>"), "&lt;a href=&quot;x&quot;&gt;&#39;&amp;&#39;&lt;/a&gt;");
    let html = render_properties_html(&[("k".to_string(), "<v>".to_string())]);
    assert!(html.contains("&lt;v&gt;"));
    assert!(!html.contains("<v>"));
}

#[test]
fn list_property_splits_on_commas() {
    let p = Property::new("tags".to_string(), "a, b,,c".to_string(), 3);
    assert!(p.is_list);
    assert_eq!(p.as_list(), vec!["a".to_string(), "b".to_string(), "c".to_string()]);
    let q = Property::new("title".to_string(), "plain".to_string(), 1);
    assert!(!q.is_list);
}

#[test]
fn empty_value_ends_at_its_line() {
    let props = extract_properties("a::\nb:: c");
    assert_eq!(props, vec![("a".to_string(), "".to_string()), ("b".to_string(), "c".to_string())]);
}

#[test]
fn list_property_round_trip() {
    let items = vec!["item1".to_string(), "two words".to_string(), "x".to_string()];
    assert_eq!(parse_list_property(&items.join(", ")), items);
    for item in parse_list_property(" a ,, b,c ,") {
        assert!(!item.contains(','));
        assert!(!item.is_empty());
    }
}
