use outliner::model::{
    build_block_hierarchy, calculate_insert_order, generate_reordered_values, Block,
    BlockHierarchy, Page, PropertyType, ORDER_GAP,
};
use outliner::tasks::TaskStatus;

#[test]
fn test_block_task_detection() {
    let block = Block::new(1, None, "TODO Write tests".to_string(), 1000);
    assert!(block.is_task());
    assert_eq!(block.task_status(), Some(TaskStatus::Todo));
    assert_eq!(block.display_content(), "Write tests");
    let non_task = Block::new(1, None, "Just a regular note".to_string(), 1000);
    assert!(!non_task.is_task());
    assert_eq!(non_task.task_status(), None);
}

#[test]
fn test_page_classification() {
    let daily = Page::new("2024-01-15".to_string(), "2024-01-15".to_string());
    assert!(daily.is_daily_page());
    assert!(!daily.is_system_page());
    let system = Page::new("Settings".to_string(), "_settings/config".to_string());
    assert!(!system.is_daily_page());
    assert!(system.is_system_page());
    let regular = Page::new("Project Notes".to_string(), "projects/website".to_string());
    assert!(!regular.is_daily_page());
    assert!(!regular.is_system_page());
    assert_eq!(regular.parent_path(), Some("projects".to_string()));
}

#[test]
fn insert_orders() {
    assert_eq!(calculate_insert_order(&[], 3), Some(ORDER_GAP));
    assert_eq!(calculate_insert_order(&[1000, 2000], 0), Some(0));
    assert_eq!(calculate_insert_order(&[1000, 2000], 2), Some(3000));
    assert_eq!(calculate_insert_order(&[1000, 2000], 9), Some(3000));
    assert_eq!(calculate_insert_order(&[1000, 2000], 1), Some(1500));
    assert_eq!(calculate_insert_order(&[1000, 1001], 1), None);
    assert_eq!(calculate_insert_order(&[-4, 1], 1), Some(-1));
    assert_eq!(calculate_insert_order(&[-5, 1], 1), Some(-2));
    // an order of -1 is a real order, not the signal to reorder
    assert_eq!(calculate_insert_order(&[999], 0), Some(-1));
}

#[test]
fn reordered_values_leave_gaps() {
    assert_eq!(generate_reordered_values(0), Vec::<i32>::new());
    assert_eq!(generate_reordered_values(3), vec![1000, 2000, 3000]);
    let v = generate_reordered_values(4);
    for p in 0..=4 {
        assert!(calculate_insert_order(&v, p).is_some());
    }
}

fn block(id: i32, parent: Option<i32>, order: i32, content: &str) -> Block {
    let mut b = Block::new(1, parent, content.to_string(), order);
    b.id = id;
    b
}

fn shape(h: &BlockHierarchy) -> String {
    let kids: Vec<String> = h.children.iter().map(shape).collect();
    if kids.is_empty() {
        format!("{}", h.block.id)
    } else {
        format!("{}({})", h.block.id, kids.join(" "))
    }
}

#[test]
fn hierarchy_from_flat_blocks() {
    let blocks = vec![
        block(1, None, 2000, "root b"),
        block(2, None, 1000, "root a"),
        block(3, Some(1), 3000, "c"),
        block(4, Some(1), 1000, "d"),
        block(5, Some(4), 1000, "e"),
        block(7, Some(6), 1000, "orphan"),
        block(6, Some(99), 500, "orphan parent"),
    ];
    let roots = build_block_hierarchy(blocks);
    let shapes: Vec<String> = roots.iter().map(shape).collect();
    assert_eq!(shapes, vec!["6(7)", "2", "1(4(5) 3)"]);
    let total: usize = roots.iter().map(|r| r.block_count()).sum();
    assert_eq!(total, 7);
}

#[test]
fn blocks_nest_under_their_parents_whatever_their_ids() {
    let blocks = vec![
        block(10, None, 1000, "root"),
        block(20, Some(10), 1000, "parent"),
        block(5, Some(20), 1000, "child with a smaller id"),
        block(3, Some(5), 2000, "grandchild b"),
        block(4, Some(5), 1000, "grandchild a"),
    ];
    let roots = build_block_hierarchy(blocks);
    let shapes: Vec<String> = roots.iter().map(shape).collect();
    assert_eq!(shapes, vec!["10(20(5(4 3)))"]);
}

#[test]
fn sorting_children_is_stable_and_deep() {
    let mut root = BlockHierarchy::new(block(1, None, 0, "r"));
    let mut a = BlockHierarchy::new(block(2, Some(1), 2000, "a"));
    a.add_child(BlockHierarchy::new(block(5, Some(2), 9, "x")));
    a.add_child(BlockHierarchy::new(block(6, Some(2), 1, "y")));
    root.add_child(a);
    root.add_child(BlockHierarchy::new(block(3, Some(1), 1000, "b")));
    root.add_child(BlockHierarchy::new(block(4, Some(1), 1000, "c")));
    root.sort_children();
    assert_eq!(shape(&root), "1(3 4 2(6 5))");
    assert_eq!(root.block_count(), 6);
}

#[test]
fn block_display_and_types() {
    let b = Block::new(1, None, "  done   tidy up".to_string(), 0);
    assert_eq!(b.task_status(), Some(TaskStatus::Done));
    assert_eq!(b.display_content(), "  tidy up");
    let t = Block::new(1, None, "  TODO Write tests".to_string(), 1000);
    assert_eq!(t.display_content(), "Write tests");
    let not_daily = Page::new("X".to_string(), "abcd-ef-gh".to_string());
    assert!(!not_daily.is_daily_page());
    assert!(b.is_root());
    assert!(!b.is_encrypted);
    assert_eq!(b.uuid.len(), 36);
    assert_eq!(PropertyType::Text.as_str(), "text");
    assert_eq!(PropertyType::List.as_str(), "list");
    assert_eq!(PropertyType::from_request("list"), PropertyType::List);
    assert_eq!(PropertyType::from_request("other"), PropertyType::Text);
}
