use outliner::outline::{needs_sample_data, node_line_text, sample_note_title, sample_outline, outline_window, visible_paths, App, OutlineNode, TreeNode};
use outliner::tasks::TaskPriority;

fn node(id: &str, parent: Option<&str>, content: &str) -> OutlineNode {
    OutlineNode::new(id.to_string(), parent.map(|p| p.to_string()), content.to_string())
}

fn sample_nodes() -> Vec<OutlineNode> {
    vec![
        node("a", None, "A"),
        node("b", None, "B"),
        node("a1", Some("a"), "A1"),
        node("a2", Some("a"), "A2"),
        node("a1x", Some("a1"), "A1x"),
        node("c", None, "C"),
        node("orphan", Some("missing"), "Orphan"),
    ]
}

fn row_ids(app: &App) -> Vec<String> {
    app.get_visible_nodes().iter().map(|t| t.node.id.clone()).collect()
}

fn loaded() -> App {
    let mut app = App::new();
    app.load_note("note1".to_string(), sample_nodes());
    app
}

#[test]
fn test_tree_node_build() {
    let nodes = vec![
        node("note1-root", None, "Root"),
        node("note1-child", Some("parent"), "Child"),
    ];
    let tree = TreeNode::build_tree(nodes);
    assert!(!tree.is_empty());
    assert_eq!(tree.len(), 1);
    assert!(tree[0].children.is_empty());
}

#[test]
fn test_app_creation() {
    let app = App::new();
    assert!(!app.should_quit);
    assert!(app.current_note.is_none());
}

#[test]
fn test_build_tree_groups_children_in_order() {
    let tree = TreeNode::build_tree(sample_nodes());
    let roots: Vec<&str> = tree.iter().map(|t| t.node.id.as_str()).collect();
    assert_eq!(roots, vec!["a", "b", "c"]);
    let kids: Vec<&str> = tree[0].children.iter().map(|t| t.node.id.as_str()).collect();
    assert_eq!(kids, vec!["a1", "a2"]);
    assert_eq!(tree[0].children[0].children[0].node.id, "a1x");
    assert_eq!(tree[0].children[0].children[0].depth, 2);
    assert!(tree[0].is_expanded);
}

#[test]
fn test_visible_rows_and_paths() {
    let app = loaded();
    assert_eq!(row_ids(&app), vec!["a", "a1", "a1x", "a2", "b", "c"]);
    let paths = visible_paths(&app.outline_tree);
    assert_eq!(
        paths,
        vec![vec![0], vec![0, 0], vec![0, 0, 0], vec![0, 1], vec![1], vec![2]]
    );
}

#[test]
fn test_toggle_collapses_and_expands() {
    let mut app = loaded();
    app.toggle_selected_expand_collapse(None);
    assert_eq!(row_ids(&app), vec!["a", "b", "c"]);
    assert_eq!(app.get_selected_node_id(), Some("a".to_string()));
    app.toggle_selected_expand_collapse(Some(true));
    assert_eq!(row_ids(&app), vec!["a", "a1", "a1x", "a2", "b", "c"]);
    // a row without children keeps its state
    app.cursor_position = 4;
    app.toggle_selected_expand_collapse(Some(false));
    assert!(app.outline_tree[1].is_expanded);
}

#[test]
fn test_cursor_moves() {
    let mut app = loaded();
    app.move_cursor_up();
    assert_eq!(app.cursor_position, 0);
    for _ in 0..10 {
        app.move_cursor_down();
    }
    assert_eq!(app.cursor_position, 5);
    assert_eq!(app.get_selected_node_id(), Some("c".to_string()));
    app.scroll_offset = 5;
    app.move_cursor_up();
    assert_eq!(app.cursor_position, 4);
    assert_eq!(app.scroll_offset, 4);
}

#[test]
fn test_edit_cycle() {
    let mut app = loaded();
    app.start_editing(Some("A".to_string()));
    assert!(app.is_editing);
    assert_eq!(app.edit_buffer, "A");
    app.edit_buffer.push_str(" changed");
    let saved = app.commit_edit();
    assert_eq!(saved, Some(("a".to_string(), "A changed".to_string())));
    assert!(!app.is_editing);
    assert!(app.edit_buffer.is_empty());
    assert_eq!(app.commit_edit(), None);
    app.start_editing(None);
    assert!(!app.is_editing);
    app.start_editing(Some("x".to_string()));
    app.cancel_edit();
    assert!(!app.is_editing);
    assert!(app.edit_buffer.is_empty());
}

#[test]
fn test_structure_moves() {
    let mut app = loaded();
    // on "a2" (row 3): indent under "a1", outdent to the top, swap with "a1"
    app.cursor_position = 3;
    assert_eq!(app.indent_selected(), Some(("a2".to_string(), "a1".to_string())));
    assert_eq!(app.outdent_selected(), Some(("a2".to_string(), None)));
    assert_eq!(app.move_selected_up(), Some(("a2".to_string(), "a1".to_string())));
    assert_eq!(app.move_selected_down(), None);
    assert_eq!(app.create_sibling_below(), Some(Some("a".to_string())));
    // on "a1x" (row 2): its grandparent is "a"
    app.cursor_position = 2;
    assert_eq!(app.outdent_selected(), Some(("a1x".to_string(), Some("a".to_string()))));
    // on "a" (row 0): first row, top level
    app.cursor_position = 0;
    assert_eq!(app.indent_selected(), None);
    assert_eq!(app.outdent_selected(), None);
    assert_eq!(app.move_selected_down(), Some(("a".to_string(), "b".to_string())));
    assert_eq!(app.create_sibling_below(), Some(None));
}

#[test]
fn test_delete_and_refresh() {
    let mut app = loaded();
    app.cursor_position = 4;
    assert_eq!(app.delete_selected(), Some("b".to_string()));
    assert_eq!(app.cursor_position, 3);
    let remaining: Vec<OutlineNode> = sample_nodes().into_iter().filter(|n| n.id != "b").collect();
    app.refresh_current_note_preserve_selection(remaining, None);
    assert_eq!(row_ids(&app), vec!["a", "a1", "a1x", "a2", "c"]);
    assert_eq!(app.get_selected_node_id(), Some("a2".to_string()));
    app.refresh_current_note_preserve_selection(sample_nodes(), Some("c".to_string()));
    assert_eq!(app.cursor_position, 5);
    app.refresh_current_note_preserve_selection(sample_nodes(), Some("gone".to_string()));
    assert_eq!(app.cursor_position, 0);
}

#[test]
fn test_quit_and_tick() {
    let mut app = loaded();
    app.tick();
    assert!(!app.should_quit);
    app.quit();
    assert!(app.should_quit);
}

#[test]
fn test_node_line_text() {
    let app = loaded();
    let rows = app.get_visible_nodes();
    assert_eq!(node_line_text(rows[0]), "\u{25bc} A");
    assert_eq!(node_line_text(rows[2]), "    \u{2022} A1x");
    let task = TreeNode::new(
        OutlineNode::new_task("t".to_string(), None, "Ship it".to_string(), false, Some(TaskPriority::High)),
        1,
    );
    assert_eq!(node_line_text(&task), "  \u{2610} Ship it \u{1f534}");
    let done = TreeNode::new(OutlineNode::new_task("d".to_string(), None, "Done".to_string(), true, None), 0);
    assert_eq!(node_line_text(&done), "\u{2611} Done");
    let mut collapsed = loaded();
    collapsed.toggle_selected_expand_collapse(Some(false));
    assert_eq!(node_line_text(collapsed.get_visible_nodes()[0]), "\u{25b6} A");
}

#[test]
fn test_outline_window() {
    let mut app = loaded();
    assert_eq!(outline_window(&app, 10), (0, 6));
    assert_eq!(outline_window(&app, 5), (0, 3));
    assert_eq!(outline_window(&app, 1), (0, 1));
    app.scroll_offset = 4;
    assert_eq!(outline_window(&app, 10), (4, 6));
    app.scroll_offset = 9;
    assert_eq!(outline_window(&app, 10), (9, 9));
}

#[test]
fn test_sample_outline() {
    assert!(needs_sample_data(0));
    assert!(!needs_sample_data(3));
    assert_eq!(sample_note_title(), "Welcome to Outliner");
    let tree = TreeNode::build_tree(sample_outline());
    assert_eq!(tree.len(), 6);
    assert_eq!(tree[1].children.len(), 2);
    assert_eq!(tree[4].children.len(), 1);
    assert_eq!(tree[5].children.len(), 3);
    assert!(tree[2].node.is_task);
}
