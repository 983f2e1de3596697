use outliner::utils::{
    days_in_month,
    extract_words, format_date_path, generate_uuid, get_parent_dir, is_date_path,
    is_valid_page_path, is_valid_page_title, relative_time_label, sanitize_string, simple_hash,
    truncate_text,
};

#[test]
fn test_is_date_path() {
    assert!(is_date_path("2024-01-15"));
    assert!(is_date_path("1999-12-31"));
    assert!(!is_date_path("24-01-15"));
    assert!(!is_date_path("2024-1-15"));
    assert!(!is_date_path("2024-01-1"));
    assert!(!is_date_path("not-a-date"));
    assert!(!is_date_path(""));
}

#[test]
fn test_is_valid_page_title() {
    assert!(is_valid_page_title("Valid Title"));
    assert!(is_valid_page_title("Title with 123 numbers"));
    assert!(!is_valid_page_title(""));
    assert!(!is_valid_page_title("Title\nwith\nnewlines"));
}

#[test]
fn test_is_valid_page_path() {
    assert!(is_valid_page_path("valid/path"));
    assert!(is_valid_page_path("projects/website/notes"));
    assert!(!is_valid_page_path(""));
    assert!(!is_valid_page_path("/starts-with-slash"));
    assert!(!is_valid_page_path("ends-with-slash/"));
    assert!(!is_valid_page_path("has//double/slash"));
}

#[test]
fn test_sanitize_string() {
    assert_eq!(sanitize_string("  clean text  "), "clean text");
    assert_eq!(sanitize_string("text\u{0000}with\u{FEFF}marks"), "textwithmarks");
}

#[test]
fn test_get_parent_dir() {
    assert_eq!(get_parent_dir("projects/website/notes"), Some("projects/website".to_string()));
    assert_eq!(get_parent_dir("single"), None);
    assert_eq!(get_parent_dir(""), None);
}

#[test]
fn test_truncate_text() {
    assert_eq!(truncate_text("short", 10), "short");
    assert_eq!(truncate_text("this is a very long text", 10), "this is...");
    assert_eq!(truncate_text("exactly10!", 10), "exactly10!");
}

#[test]
fn test_extract_words() {
    let words = extract_words("Hello, world! This is a test.");
    assert!(words.contains(&"hello".to_string()));
    assert!(words.contains(&"world".to_string()));
    assert!(words.contains(&"test".to_string()));
    assert!(!words.contains(&"is".to_string()));
    assert!(!words.contains(&"a".to_string()));
}

#[test]
fn words_keep_order_and_case_fold() {
    assert_eq!(extract_words("  ¡Ünïcode!  go ... THREE  "), vec!["ünïcode", "three"]);
}

#[test]
fn uuids_have_the_v4_shape() {
    let a = generate_uuid();
    let b = generate_uuid();
    assert_eq!(a.len(), 36);
    assert_eq!(&a[14..15], "4");
    assert_ne!(a, b);
}

#[test]
fn hashing_is_stable_for_equal_text() {
    assert_eq!(simple_hash("same text"), simple_hash(&String::from("same text")));
    assert_ne!(simple_hash("one"), simple_hash("two"));
}

#[test]
fn sanitize_removes_only_nul_and_bom() {
    assert_eq!(sanitize_string("\u{FEFF}\tA\u{0}B \n"), "AB");
    assert_eq!(sanitize_string("a\u{200B}b"), "a\u{200B}b");
}

#[test]
fn truncation_edges() {
    assert_eq!(truncate_text("abcdef", 2), "..");
    assert_eq!(truncate_text("abcdef", 1), ".");
    assert_eq!(truncate_text("abcdef", 0), "");
    assert_eq!(truncate_text("abcdef", 3), "...");
    assert_eq!(truncate_text("abcdef", 5), "ab...");
    assert_eq!(truncate_text("ab", 2), "ab");
    assert_eq!(truncate_text("héllo wörld", 6), "hé...");
    assert!(truncate_text("héllo wörld", 6).len() <= 6);
}

#[test]
fn relative_labels() {
    let now: i64 = 1_700_000_000_000_000;
    assert_eq!(relative_time_label(now - 59_000_000, now), Some("just now".to_string()));
    assert_eq!(relative_time_label(now + 3_600_000_000, now), Some("just now".to_string()));
    assert_eq!(relative_time_label(now - 60_000_000, now), Some("1m ago".to_string()));
    assert_eq!(relative_time_label(now - 7_199_000_000, now), Some("1h ago".to_string()));
    assert_eq!(relative_time_label(now - 3 * 86_400_000_000, now), Some("3d ago".to_string()));
    assert_eq!(relative_time_label(0, now), Some("1970-01-01".to_string()));
    assert_eq!(format_date_path(1_705_276_800_000_000), Some("2024-01-15".to_string()));
}

#[test]
fn test_days_in_month() {
    assert_eq!(days_in_month(2024, 2), 29);
    assert_eq!(days_in_month(2023, 2), 28);
    assert_eq!(days_in_month(1900, 2), 28);
    assert_eq!(days_in_month(2000, 2), 29);
    assert_eq!(days_in_month(2024, 4), 30);
    assert_eq!(days_in_month(2024, 12), 31);
    assert_eq!(days_in_month(2024, 0), 31);
}

#[test]
fn test_calendar_rows() {
    // a month of 31 days starting on a Wednesday
    let rows = outliner::utils::calendar_rows(2, 31);
    assert_eq!(rows.len(), 5);
    assert_eq!(rows[0], vec![None, None, Some(1), Some(2), Some(3), Some(4), Some(5)]);
    assert_eq!(rows[4], vec![Some(27), Some(28), Some(29), Some(30), Some(31), None, None]);
    // February of a common year starting on a Monday fills four rows
    assert_eq!(outliner::utils::calendar_rows(0, 28).len(), 4);
    // a 31-day month starting on a Sunday needs six rows
    let six = outliner::utils::calendar_rows(6, 31);
    assert_eq!(six.len(), 6);
    assert_eq!(six[5][0], Some(30));
}
