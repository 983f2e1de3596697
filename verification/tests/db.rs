use outliner::db::{
    ancestor_paths, block_search_sql, child_page_patterns, generate_snippet, get_parent_path,
    global_search_limits, is_valid_date_format, limit_clause, list_pages_query,
    page_filter_from_request, page_search_patterns, plan_page_update, property_search_query,
    query_is_blank, substitute_template_variables_with, PageFilter, ALL_PAGES_SQL,
    BLOCK_SEARCH_SQL_HEAD, BLOCK_SEARCH_SQL_TAIL, DAILY_PAGES_SQL, PAGES_BY_PREFIX_SQL,
    UPDATE_TITLE_SQL,
};

#[test]
fn test_utility_functions() {
    assert!(is_valid_date_format("2024-01-15"));
    assert!(!is_valid_date_format("2024-1-15"));
    assert!(!is_valid_date_format("24-01-15"));
    assert!(!is_valid_date_format("not-a-date"));
    assert_eq!(get_parent_path("projects/website/notes"), Some("projects/website".to_string()));
    assert_eq!(get_parent_path("projects"), None);
    assert_eq!(get_parent_path(""), None);
}

#[test]
fn page_listing_queries() {
    let q = list_pages_query(Some(PageFilter::PathPrefix("proj".to_string())));
    assert_eq!(q.sql, PAGES_BY_PREFIX_SQL);
    assert_eq!(q.params, vec!["proj".to_string()]);
    assert_eq!(list_pages_query(None).sql, ALL_PAGES_SQL);
    assert!(matches!(page_filter_from_request("daily"), PageFilter::DailyPages));
    assert!(matches!(page_filter_from_request("notes/"), PageFilter::PathPrefix(ref p) if p == "notes/"));
    assert_eq!(list_pages_query(Some(page_filter_from_request("daily"))).sql, DAILY_PAGES_SQL);
}

#[test]
fn ancestors_nearest_first() {
    assert_eq!(ancestor_paths("a/b/c"), vec!["a/b".to_string(), "a".to_string()]);
    assert!(ancestor_paths("top").is_empty());
    assert_eq!(child_page_patterns("a"), ("a/%".to_string(), "a/%/%".to_string()));
}

#[test]
fn template_variables() {
    let out = substitute_template_variables_with("<title> on <today> at <time> (<path>) <title>", "2024-01-15", "09:30", "Daily", "2024-01-15");
    assert_eq!(out, "Daily on 2024-01-15 at 09:30 (2024-01-15) Daily");
}

#[test]
fn search_statements() {
    assert_eq!(limit_clause(Some(25)), "LIMIT 25");
    assert_eq!(limit_clause(None), "");
    assert_eq!(block_search_sql(Some(5)), format!("{}LIMIT 5{}", BLOCK_SEARCH_SQL_HEAD, BLOCK_SEARCH_SQL_TAIL));
    assert_eq!(global_search_limits(Some(7)), (3, 4));
    assert_eq!(global_search_limits(None), (10, 20));
    assert_eq!(page_search_patterns("ab"), ("%ab%".to_string(), "ab".to_string(), "ab%".to_string()));
    assert!(query_is_blank("  \t"));
    assert!(!query_is_blank(" x "));
    let q = property_search_query("due", Some("2024-01-15"));
    assert_eq!(q.params, vec!["due".to_string(), "2024-01-15".to_string()]);
    assert_eq!(property_search_query("due", None).params, vec!["due".to_string()]);
}

#[test]
fn page_update_plans() {
    let q = plan_page_update(Some("T"), None).ok().unwrap();
    assert_eq!(q.sql, UPDATE_TITLE_SQL);
    assert_eq!(q.params, vec!["T".to_string()]);
    assert_eq!(plan_page_update(Some("T"), Some("p")).ok().unwrap().params.len(), 2);
    assert_eq!(plan_page_update(None, None).err().unwrap().message(), "Invalid input: No fields to update");
}

#[test]
fn snippets() {
    assert!(list_pages_query(Some(PageFilter::SystemPages)).sql.contains("LIKE '\\_%' ESCAPE '\\'"));
    assert_eq!(generate_snippet("Some important note", "Important"), Some("Some **Important** note".to_string()));
    assert_eq!(generate_snippet("Some Important note", "important"), Some("Some **important** note".to_string()));
    let found = generate_snippet("Important information here", "important").unwrap();
    assert!(found.contains("**important**"));
    let long = format!("{}needle{}", "a".repeat(60), "b".repeat(60));
    assert_eq!(
        generate_snippet(&long, "needle"),
        Some(format!("...{}**needle**{}...", "a".repeat(50), "b".repeat(50)))
    );
    assert_eq!(generate_snippet("short text", "zzz"), Some("short text".to_string()));
    assert_eq!(generate_snippet(&"c".repeat(120), "zzz"), Some(format!("{}...", "c".repeat(100))));
}
