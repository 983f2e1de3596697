use outliner::commands::{
    advanced_search_results, block_order_for, check_parent_move, count_words, due_date_condition,
    extract_links, extract_properties, filter_keys_by_prefix, indent_target, outdent_parent,
    outdent_position, parse_markdown, recent_pages, search_tasks_filter, sibling_insert_position,
    suggestion_needs, validate_content, AdvancedSearchCriteria, CommandResponse, DateRange,
    ExtractLinksRequest, ExtractPropertiesRequest, ParseMarkdownRequest, PropertyFilter,
};
use outliner::db::AppError;
use outliner::model::{Block, Page};

#[test]
fn test_parse_markdown() {
    let request = ParseMarkdownRequest {
        content: "# Header\n\nThis is **bold** text with a [[link]]".to_string(),
        render_mode: Some(true),
    };
    let response = parse_markdown(request);
    assert!(response.success);
    let result = response.data.unwrap();
    assert!(result.html.contains("<h1>"));
    assert!(result.html.contains("<strong>"));
    assert_eq!(result.links.len(), 1);
    assert_eq!(result.links[0], "link");
}

#[test]
fn test_extract_links() {
    let request = ExtractLinksRequest { content: "Here are links: [[Page 1]] and [[Page 2]]".to_string() };
    let response = extract_links(request);
    assert!(response.success);
    let links = response.data.unwrap();
    assert_eq!(links.len(), 2);
    assert!(links.contains(&"Page 1".to_string()));
    assert!(links.contains(&"Page 2".to_string()));
}

#[test]
fn test_extract_properties() {
    let request = ExtractPropertiesRequest {
        content: "priority:: high\ndue:: tomorrow\ntags:: work, urgent".to_string(),
    };
    let response = extract_properties(request);
    assert!(response.success);
    let properties = response.data.unwrap();
    assert_eq!(properties.len(), 3);
    let priority_prop = properties.iter().find(|p| p.key == "priority").unwrap();
    assert_eq!(priority_prop.value, "high");
    assert_eq!(properties[2].line_number, 3);
}

#[test]
fn test_content_validation() {
    let response = validate_content("Valid content here".to_string());
    assert!(response.success);
    let result = response.data.unwrap();
    assert!(result.is_valid);
    assert!(result.errors.is_empty());
}

#[test]
fn raw_mode_keeps_the_text() {
    let r = parse_markdown(ParseMarkdownRequest { content: "TODO *x*".to_string(), render_mode: Some(false) });
    let d = r.data.unwrap();
    assert_eq!(d.html, "TODO *x*");
    assert!(d.has_tasks);
}

#[test]
fn validation_warnings() {
    let r = validate_content("key with space:: v\n[[open".to_string()).data.unwrap();
    assert_eq!(r.warnings, vec![
        "Malformed link: [[open".to_string(),
        "Malformed property: Property key contains spaces: key with space:: v".to_string(),
    ]);
    let long = validate_content("x".repeat(10001)).data.unwrap();
    assert_eq!(long.warnings, vec!["Block content is very long (>10k characters)".to_string()]);
}

#[test]
fn responses() {
    let ok: CommandResponse<i32> = CommandResponse::from_result(Ok(3));
    assert!(ok.success && ok.data == Some(3) && ok.error.is_none());
    let err: CommandResponse<i32> = CommandResponse::from_result(Err(AppError::NotFound("Block 9 not found".to_string())));
    assert!(!err.success);
    assert_eq!(err.error, Some("Not found: Block 9 not found".to_string()));
}

#[test]
fn block_moves() {
    assert_eq!(sibling_insert_position(&[4, 7, 9], 7), Some(2));
    assert_eq!(sibling_insert_position(&[4, 7, 9], 8), None);
    assert_eq!(indent_target(&[4, 7, 9], 9).unwrap(), 7);
    assert_eq!(indent_target(&[4, 7, 9], 4).unwrap_err().message(), "Invalid input: Cannot indent first block");
    assert_eq!(indent_target(&[4], 5).unwrap_err().message(), "Not found: Block not found in siblings");
    assert_eq!(outdent_parent(None).unwrap_err().message(), "Invalid input: Cannot outdent root block");
    assert_eq!(outdent_parent(Some(3)).unwrap(), 3);
    assert_eq!(outdent_position(&[1, 3, 5], 3).unwrap(), 2);
    assert!(check_parent_move(1, &[2, 3], 3).is_err());
    assert!(check_parent_move(1, &[2, 3], 4).is_ok());
    match check_parent_move(7, &[], 7) {
        Err(AppError::InvalidInput(m)) => assert_eq!(m, "Cannot move block under itself"),
        other => panic!("unexpected {:?}", other),
    }
    match check_parent_move(1, &[2, 3], 2) {
        Err(AppError::InvalidInput(m)) => assert_eq!(m, "Cannot move block under its own descendant"),
        other => panic!("unexpected {:?}", other),
    }
    assert_eq!(block_order_for(&[1000, 2000], None), Some(3000));
    assert_eq!(block_order_for(&[1000, 1001], Some(1)), None);
}

fn page(id: i32, updated_at: i64) -> Page {
    let mut p = Page::new(format!("p{}", id), format!("p{}", id));
    p.id = id;
    p.updated_at = updated_at;
    p
}

fn block(id: i32, content: &str, created_at: i64, updated_at: i64) -> Block {
    let mut b = Block::new(1, None, content.to_string(), 0);
    b.id = id;
    b.created_at = created_at;
    b.updated_at = updated_at;
    b
}

#[test]
fn recent_pages_newest_first_stably() {
    let pages = vec![page(1, 5), page(2, 9), page(3, 5), page(4, 7)];
    let ids: Vec<i32> = recent_pages(pages, Some(3)).iter().map(|p| p.id).collect();
    assert_eq!(ids, vec![2, 4, 1]);
}

#[test]
fn recent_pages_sorted_stable_permutation() {
    let pages = vec![page(1, 3), page(2, 8), page(3, 3), page(4, 8), page(5, 1), page(6, 3)];
    let sorted = recent_pages(pages, None);
    let ids: Vec<i32> = sorted.iter().map(|p| p.id).collect();
    assert_eq!(ids, vec![2, 4, 1, 3, 6, 5]);
    let times: Vec<i64> = sorted.iter().map(|p| p.updated_at).collect();
    assert!(times.windows(2).all(|w| w[0] >= w[1]));
}

#[test]
fn task_search_filters_and_limits() {
    let bs = vec![block(1, "TODO a", 0, 0), block(2, "note", 0, 0), block(3, "done b", 0, 0), block(4, "DOING c", 0, 0)];
    let ids: Vec<i32> = search_tasks_filter(bs, Some(2)).iter().map(|b| b.id).collect();
    assert_eq!(ids, vec![1, 3]);
    assert_eq!(due_date_condition("today", "2024-01-15"), Ok("2024-01-15".to_string()));
    assert_eq!(due_date_condition("overdue", "x"), Err("Overdue search not yet implemented".to_string()));
    assert_eq!(due_date_condition("this_week", "x"), Err("Week search not yet implemented".to_string()));
    assert_eq!(due_date_condition("2024-02-01", "x"), Ok("2024-02-01".to_string()));
}

#[test]
fn advanced_search_pipeline() {
    let day: i64 = 86_400_000_000;
    let candidates = vec![
        block(1, "TODO one", 10 * day, 1),
        block(2, "TODO two", 12 * day + 5, 3),
        block(3, "note", 11 * day, 2),
        block(4, "TODO four", 20 * day, 4),
        block(5, "TODO five", 11 * day - 1, 9),
    ];
    let criteria = AdvancedSearchCriteria {
        text_query: Some("o".to_string()),
        property_filters: vec![PropertyFilter { key: "k".to_string(), value: None }],
        date_range: Some(DateRange {
            start_date: "1970-01-11".to_string(),
            end_date: "1970-01-13".to_string(),
            start_day: 10,
            end_day: 12,
        }),
        tasks_only: Some(true),
        limit: Some(5),
    };
    let r = advanced_search_results(criteria, candidates, vec![vec![1, 2, 3, 4, 5]]);
    let ids: Vec<i32> = r.blocks.iter().map(|b| b.id).collect();
    assert_eq!(ids, vec![5, 2, 1]);
    assert_eq!(r.total_results, 3);
    assert_eq!(r.filters_applied, vec!["text: 'o'", "k:*", "date: 1970-01-11 to 1970-01-13", "tasks only"]);
}

#[test]
fn suggestions_and_words() {
    let needs = suggestion_needs("see [[Proj", 10);
    assert_eq!(needs.page_query, Some("Proj".to_string()));
    assert_eq!(needs.key_prefix, None);
    let needs = suggestion_needs("  prio:: x", 6);
    assert_eq!(needs.key_prefix, Some("prio".to_string()));
    let keys = vec!["priority".to_string(), "due".to_string(), "private".to_string()];
    assert_eq!(filter_keys_by_prefix(keys, "pri"), vec!["priority", "private"]);
    assert_eq!(count_words("  one two\tthree \n"), 3);
    assert_eq!(count_words(""), 0);
}
