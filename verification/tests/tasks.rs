use outliner::tasks::{
    change_task_status, extract_due_date, extract_task_content, extract_task_priority,
    extract_task_status, extract_task_tags, generate_task_summary, generate_task_summary_on,
    has_task_markers, is_task_overdue, is_task_overdue_on, is_valid_due_date, parse_task_metadata,
    validate_task_format, TaskMetadata, TaskPriority, TaskStatus,
};

#[test]
fn test_extract_task_status() {
    assert_eq!(extract_task_status("TODO Buy groceries"), Some(TaskStatus::Todo));
    assert_eq!(extract_task_status("DONE Complete project"), Some(TaskStatus::Done));
    assert_eq!(extract_task_status("DOING Work on task"), Some(TaskStatus::Doing));
    assert_eq!(extract_task_status("Regular text"), None);
}

#[test]
fn test_has_task_markers() {
    assert!(has_task_markers("TODO Something"));
    assert!(has_task_markers("DONE Something else"));
    assert!(!has_task_markers("Regular content"));
    assert!(!has_task_markers("TODO"));
}

#[test]
fn test_extract_task_content() {
    assert_eq!(extract_task_content("TODO Buy milk and bread"), "Buy milk and bread");
    assert_eq!(extract_task_content("DONE Finished the report"), "Finished the report");
    assert_eq!(extract_task_content("Regular content"), "Regular content");
}

#[test]
fn test_change_task_status() {
    let content = "TODO Write documentation";
    let updated = change_task_status(content, TaskStatus::Done);
    assert_eq!(updated, "DONE Write documentation");
}

#[test]
fn test_extract_task_priority() {
    let content_with_property = "TODO Important task\npriority:: high";
    assert_eq!(extract_task_priority(content_with_property), Some(TaskPriority::High));
    let content_with_tag = "TODO Task with #high priority";
    assert_eq!(extract_task_priority(content_with_tag), Some(TaskPriority::High));
    let content_without_priority = "TODO Regular task";
    assert_eq!(extract_task_priority(content_without_priority), None);
}

#[test]
fn test_extract_due_date() {
    let content_with_property = "TODO Task\ndue:: 2024-01-15";
    assert_eq!(extract_due_date(content_with_property), Some("2024-01-15".to_string()));
    let content_with_at_symbol = "TODO Task @2024-01-15";
    assert_eq!(extract_due_date(content_with_at_symbol), Some("2024-01-15".to_string()));
    let content_with_relative = "TODO Task due tomorrow";
    assert_eq!(extract_due_date(content_with_relative), Some("tomorrow".to_string()));
    let content_without_due = "TODO Regular task";
    assert_eq!(extract_due_date(content_without_due), None);
}

#[test]
fn test_extract_task_tags() {
    let content = "TODO Task with #work and #urgent tags";
    let tags = extract_task_tags(content);
    assert_eq!(tags.len(), 2);
    assert!(tags.contains(&"work".to_string()));
    assert!(tags.contains(&"urgent".to_string()));
}

#[test]
fn test_parse_task_metadata() {
    let content = "TODO Important task #work #urgent\npriority:: high\ndue:: tomorrow";
    let metadata = parse_task_metadata(content).unwrap();
    assert_eq!(metadata.status, TaskStatus::Todo);
    assert!(metadata.content.contains("Important task"));
    assert_eq!(metadata.priority, Some(TaskPriority::High));
    assert_eq!(metadata.due_date, Some("tomorrow".to_string()));
    assert_eq!(metadata.tags.len(), 2);
}

#[test]
fn test_task_status_methods() {
    assert!(TaskStatus::Done.is_completed());
    assert!(TaskStatus::Cancelled.is_completed());
    assert!(!TaskStatus::Todo.is_completed());
    assert!(TaskStatus::Todo.is_active());
    assert!(TaskStatus::Doing.is_active());
    assert!(!TaskStatus::Done.is_active());
}

#[test]
fn test_priority_parsing() {
    assert_eq!(TaskPriority::from_str("high"), Some(TaskPriority::High));
    assert_eq!(TaskPriority::from_str("urgent"), Some(TaskPriority::High));
    assert_eq!(TaskPriority::from_str("medium"), Some(TaskPriority::Medium));
    assert_eq!(TaskPriority::from_str("low"), Some(TaskPriority::Low));
    assert_eq!(TaskPriority::from_str("invalid"), None);
}

#[test]
fn test_is_task_overdue() {
    assert!(is_task_overdue("yesterday"));
    assert!(!is_task_overdue("today"));
    assert!(!is_task_overdue("tomorrow"));
}

fn task(status: TaskStatus, content: &str, due: Option<&str>) -> TaskMetadata {
    TaskMetadata {
        status,
        content: content.to_string(),
        priority: None,
        due_date: due.map(|d| d.to_string()),
        tags: vec![],
    }
}

#[test]
fn test_generate_task_summary() {
    let tasks = vec![
        task(TaskStatus::Todo, "Task 1", None),
        task(TaskStatus::Done, "Task 2", None),
        task(TaskStatus::Doing, "Task 3", None),
    ];
    let summary = generate_task_summary(&tasks);
    assert_eq!(summary.total, 3);
    assert_eq!(summary.todo, 1);
    assert_eq!(summary.done, 1);
    assert_eq!(summary.doing, 1);
    // The completion rate is the share of done tasks, in percent.
    let completion_rate = (summary.done as f32 / summary.total as f32) * 100.0;
    assert!((completion_rate - 33.333333).abs() < 0.01);
}

#[test]
fn test_validate_task_format() {
    let valid_task = "TODO Write documentation";
    let validation = validate_task_format(valid_task);
    assert!(validation.is_valid);
    assert!(validation.errors.is_empty());
    let invalid_task = "TODO";
    let validation = validate_task_format(invalid_task);
    assert!(!validation.warnings.is_empty());
}

#[test]
fn status_words_round_trip() {
    for st in [TaskStatus::Todo, TaskStatus::Doing, TaskStatus::Done, TaskStatus::Waiting, TaskStatus::Cancelled] {
        assert_eq!(TaskStatus::from_str(st.as_str()), Some(st));
        assert_eq!(TaskStatus::from_str(&st.as_str().to_lowercase()), Some(st));
    }
    for p in [TaskPriority::High, TaskPriority::Medium, TaskPriority::Low] {
        assert_eq!(TaskPriority::from_str(p.as_str()), Some(p));
    }
    assert_eq!(TaskPriority::from_str("CRITICAL"), Some(TaskPriority::High));
    assert_eq!(TaskPriority::from_str("normal"), Some(TaskPriority::Medium));
    assert_eq!(TaskPriority::from_str("Minor"), Some(TaskPriority::Low));
}

#[test]
fn changed_status_reads_back() {
    let changed = change_task_status("  WAITING   call Bob  \nnotes", TaskStatus::Cancelled);
    assert_eq!(changed, "CANCELLED call Bob  \nnotes");
    assert_eq!(extract_task_status(&changed), Some(TaskStatus::Cancelled));
    assert_eq!(change_task_status("plain note", TaskStatus::Todo), "TODO plain note");
}

#[test]
fn changed_status_keeps_property_lines() {
    assert_eq!(
        change_task_status("TODO Task\npriority:: high", TaskStatus::Done),
        "DONE Task\npriority:: high"
    );
    assert_eq!(extract_task_content("DOING a\n  b"), "a\n  b");
}

#[test]
fn priority_tag_needs_a_word_boundary() {
    assert_eq!(extract_task_priority("TODO x #highway"), None);
    assert_eq!(extract_task_priority("TODO x #lowkey #medium"), Some(TaskPriority::Medium));
    assert_eq!(extract_task_priority("TODO x\npriority:: bogus\n#high"), None);
    assert_eq!(extract_task_priority("TODO x\npriority:: URGENT"), Some(TaskPriority::High));
}

#[test]
fn due_date_patterns_in_order() {
    assert_eq!(extract_due_date("due: 2024-02-03 and @2024-01-01"), Some("2024-02-03".to_string()));
    assert_eq!(extract_due_date("@today due 2024-05-06"), Some("2024-05-06".to_string()));
    assert_eq!(extract_due_date("call @yesterday"), Some("yesterday".to_string()));
    assert_eq!(extract_due_date("due:2024-01-15"), None);
    assert_eq!(extract_due_date("due:\n 2024-01-15"), Some("2024-01-15".to_string()));
}

#[test]
fn tags_are_ascii_words() {
    assert_eq!(extract_task_tags("#a_1 #b-c ## #é #d#e"), vec!["a_1", "b", "d", "e"]);
}

#[test]
fn overdue_on_a_given_day() {
    assert!(is_task_overdue_on("2024-01-14", "2024-01-15"));
    assert!(!is_task_overdue_on("2024-01-15", "2024-01-15"));
    assert!(!is_task_overdue_on("2024-01-16", "2024-01-15"));
    assert!(is_task_overdue_on("overdue", "2024-01-15"));
    assert!(!is_task_overdue_on("2024-1-1", "2024-01-15"));
}

#[test]
fn summary_counts_overdue_tasks() {
    let tasks = vec![
        task(TaskStatus::Todo, "a", Some("2024-01-01")),
        task(TaskStatus::Waiting, "b", Some("2025-01-01")),
        task(TaskStatus::Cancelled, "c", Some("yesterday")),
    ];
    let s = generate_task_summary_on(&tasks, "2024-06-01");
    assert_eq!((s.total, s.todo, s.waiting, s.cancelled, s.overdue), (3, 1, 1, 1, 2));
}

#[test]
fn validation_messages() {
    let v = validate_task_format("TODO write @2024-13-45x");
    assert!(v.is_valid);
    assert!(v.warnings.is_empty());
    let v = validate_task_format("TODO a due: 2024-1-1");
    assert!(v.warnings.is_empty());
    let v = validate_task_format("DONE x\ndue:: someday");
    assert_eq!(v.warnings, vec!["Potentially invalid due date: someday".to_string()]);
    let v = validate_task_format("TODO one TODO two");
    assert!(!v.is_valid);
    assert_eq!(v.errors, vec!["Multiple status markers found".to_string()]);
    let v = validate_task_format("todo: buy milk");
    assert_eq!(v.errors, vec!["Malformed task status - missing space after status?".to_string()]);
    assert!(v.warnings.is_empty());
    let long = format!("TODO {}", "x".repeat(501));
    assert_eq!(validate_task_format(&long).warnings, vec!["Task description is very long".to_string()]);
    assert!(is_valid_due_date("2024-01-15"));
    assert!(is_valid_due_date("tomorrow"));
    assert!(!is_valid_due_date("2024-01-15 "));
}
