use tracing_viewer::entry::{calculate_display_lines, LogEntry};
use tracing_viewer::filter::{Fingerprint, LevelFilter};
use tracing_viewer::log_parser::LogParser;
use tracing_viewer::module_tree::ModuleTree;
use tracing_viewer::state::App;
use tracing_viewer::tail::{TailAction, TailState};

fn entry(level: &str, target: &str, message: &str) -> LogEntry {
    LogEntry {
        timestamp: "2024-01-01T12:00:00.000Z".to_string(),
        level: level.to_string(),
        target: target.to_string(),
        message: message.to_string(),
        fields: Vec::new(),
    }
}

#[test]
fn test_filter_by_module_and_level() {
    let mut app = App::new();
    app.update_logs(vec![
        entry("INFO", "a::b", "one"),
        entry("DEBUG", "a::c", "two"),
        entry("ERROR", "d", "three"),
    ]);
    assert_eq!(app.filtered_logs.len(), 3);

    app.toggle_log_level("DEBUG");
    assert_eq!(app.filtered_logs.len(), 2);
    assert_eq!(app.filtered_logs[0].message, "one");
    assert_eq!(app.filtered_logs[1].message, "three");

    app.toggle_log_level("DEBUG");
    app.module_tree.toggle_selection("a");
    app.filter_dirty = true;
    app.filter_logs();
    assert_eq!(app.filtered_logs.len(), 1);
    assert_eq!(app.filtered_logs[0].message, "three");
}

#[test]
fn test_unknown_level_never_passes() {
    let filter = LevelFilter::all();
    assert!(filter.contains("ERROR"));
    assert!(!filter.contains("NOTICE"));
    let mut app = App::new();
    app.update_logs(vec![entry("NOTICE", "a", "odd")]);
    assert_eq!(app.logs.len(), 1);
    assert_eq!(app.filtered_logs.len(), 0);
}

#[test]
fn test_fingerprint_equality_implies_same_filtering() {
    // the same modules inserted in different orders give equal fingerprints
    let mut t1 = ModuleTree::new("root".to_string());
    t1.insert_module("a::b");
    t1.insert_module("c");
    let mut t2 = ModuleTree::new("root".to_string());
    t2.insert_module("c");
    t2.insert_module("a::b");
    let levels = LevelFilter::all();
    let f1 = Fingerprint::capture(&t1, &levels);
    let f2 = Fingerprint::capture(&t2, &levels);
    assert!(f1.same_as(&f2));

    // and a toggled node breaks the equality
    t2.toggle_selection("c");
    let f3 = Fingerprint::capture(&t2, &levels);
    assert!(!f1.same_as(&f3));
}

#[test]
fn test_recompute_is_idempotent() {
    let mut app = App::new();
    app.update_logs(vec![entry("INFO", "a", "one"), entry("WARN", "b", "two")]);
    app.filter_logs();
    let before: Vec<String> = app.filtered_logs.iter().map(|e| e.message.clone()).collect();
    let dirty_before = app.filter_dirty;
    app.filter_logs();
    let after: Vec<String> = app.filtered_logs.iter().map(|e| e.message.clone()).collect();
    assert_eq!(before, after);
    assert_eq!(dirty_before, app.filter_dirty);
    assert!(!app.filter_dirty);
}

#[test]
fn test_incremental_append_filters_only_new() {
    let mut app = App::new();
    app.update_logs(vec![entry("INFO", "a", "one")]);
    app.toggle_log_level("DEBUG");
    app.add_logs(vec![entry("DEBUG", "a", "hidden"), entry("INFO", "a", "shown")]);
    assert_eq!(app.logs.len(), 3);
    assert_eq!(app.filtered_logs.len(), 2);
    assert_eq!(app.filtered_logs[1].message, "shown");
}

#[test]
fn test_display_lines_and_rows() {
    // an entry always occupies its header row, even with an empty message
    assert_eq!(calculate_display_lines(&entry("INFO", "a", "")), 1);
    assert_eq!(calculate_display_lines(&entry("INFO", "a", "one line")), 1);
    assert_eq!(calculate_display_lines(&entry("INFO", "a", "a\nb\nc")), 3);
    assert_eq!(calculate_display_lines(&entry("INFO", "a", "trailing\n")), 1);

    let mut app = App::new();
    app.update_logs(vec![entry("INFO", "a", "x"), entry("INFO", "a", "p\nq\nr")]);
    assert_eq!(app.total_display_rows(), 4);
    assert_eq!(app.get_entry_display_position(0), 0);
    assert_eq!(app.get_entry_display_position(1), 1);
    // auto-follow put the scroll on the last row, inside the second entry
    assert_eq!(app.log_scroll_position, 3);
    assert_eq!(app.find_entry_at_scroll_position(), 1);
    app.scroll_up(10);
    assert_eq!(app.find_entry_at_scroll_position(), 0);
    assert_eq!(app.calculate_display_range(0, 2), (0, 2));
}

#[test]
fn test_viewport_invariant_under_navigation() {
    let mut app = App::new();
    app.update_logs(vec![
        entry("INFO", "a", "1"),
        entry("INFO", "a", "2\n2b"),
        entry("INFO", "a", "3"),
    ]);
    app.switch_to_log_mode();
    app.next_log_entry();
    app.next_log_entry();
    app.next_log_entry();
    app.previous_log_entry();
    app.scroll_down(10);
    app.scroll_up(1);
    app.page_down(2);
    app.page_up(2);
    app.update_scroll_position_with_height(3);
    app.add_logs(vec![entry("INFO", "a", "4")]);
    let total: usize = app
        .filtered_logs
        .iter()
        .map(calculate_display_lines)
        .sum();
    assert!(app.current_log_line < app.filtered_logs.len());
    assert!(app.log_scroll_position <= total.saturating_sub(1));
}

#[test]
fn test_auto_follow_tracks_newest() {
    let mut app = App::new();
    app.update_logs(vec![entry("INFO", "a", "1")]);
    assert!(app.auto_follow);
    app.add_logs(vec![entry("INFO", "a", "2"), entry("INFO", "a", "3")]);
    assert_eq!(app.current_log_line, 2);
    app.previous_log_entry();
    assert!(!app.auto_follow);
    app.add_logs(vec![entry("INFO", "a", "4")]);
    assert_eq!(app.current_log_line, 1);
    app.next_log_entry();
    app.next_log_entry();
    app.next_log_entry();
    assert!(app.auto_follow);
}

#[test]
fn test_scroll_down_clamps_to_last_row() {
    let mut app = App::new();
    app.update_logs(vec![entry("INFO", "a", "1\n2\n3"), entry("INFO", "a", "4")]);
    app.scroll_down(100);
    assert_eq!(app.log_scroll_position, 3);
    assert!(!app.auto_follow);
    app.scroll_up(100);
    assert_eq!(app.log_scroll_position, 0);
}

#[test]
fn test_copy_selected_logs_exact_text() {
    let mut app = App::new();
    app.update_logs(vec![entry("INFO", "a::b", "hello"), entry("WARN", "c", "bye")]);
    app.switch_to_log_mode();
    app.current_log_line = 0;
    app.start_text_selection();
    app.next_log_entry();
    let text = app.copy_selected_logs();
    assert_eq!(
        text,
        "[2024-01-01T12:00:00.000Z] INFO a::b: hello\n[2024-01-01T12:00:00.000Z] WARN c: bye"
    );
    let message = app.copy_message.clone().unwrap();
    assert_eq!(message, "Copied 2 lines to clipboard");
}

#[test]
fn test_copy_without_selection_is_empty() {
    let mut app = App::new();
    app.update_logs(vec![entry("INFO", "a", "x")]);
    let text = app.copy_selected_logs();
    assert_eq!(text, "");
    assert!(app.copy_message.is_none());
}

#[test]
fn test_tail_follow_scenario() {
    // a file with one line, then one appended line
    let first = "2024-01-01T12:00:00.000Z INFO a::b: hello\n";
    let second = "2024-01-01T12:00:01.000Z ERROR a::c: boom\n";
    let parser = LogParser::new();
    let mut app = App::new();

    // startup: read the whole file once
    let mut file = String::from(first);
    app.update_logs(parser.parse_multiline_logs(&file));
    let mut tail = TailState::new(file.len() as u64);

    // the appended range is read from the remembered offset only
    file.push_str(second);
    match tail.on_size(file.len() as u64) {
        TailAction::ReadFrom(offset) => {
            assert_eq!(offset, first.len() as u64);
            let new_content = &file[offset as usize..];
            app.add_logs(parser.parse_multiline_logs(new_content));
            tail.read_done(file.len() as u64);
        }
        other => panic!("expected a read, got {:?}", other),
    }

    assert_eq!(app.logs.len(), 2);
    assert_eq!(app.logs[0].level, "INFO");
    assert_eq!(app.logs[1].level, "ERROR");
}

#[test]
fn test_rotation_restarts_from_zero() {
    let mut tail = TailState::new(100);
    assert_eq!(tail.on_size(100), TailAction::Ignore);
    // the file shrank: rotation or truncation
    assert_eq!(tail.on_size(40), TailAction::Reset);
    assert_eq!(tail.last_size, 0);
    // the next growth is read from byte offset zero of the new content
    assert_eq!(tail.on_size(25), TailAction::ReadFrom(0));
    tail.read_done(25);
    assert_eq!(tail.on_size(30), TailAction::ReadFrom(25));
}

#[test]
fn test_multiline_scenario() {
    let parser = LogParser::new();
    let input = "2024-01-01T12:00:00.000Z INFO a: line1\ncont1\ncont2\n2024-01-01T12:00:01.000Z WARN b: line2";
    let entries = parser.parse_multiline_logs(input);
    assert_eq!(entries.len(), 2);
    assert_eq!(entries[0].message, "line1\ncont1\ncont2");
    assert_eq!(entries[1].level, "WARN");
    assert_eq!(entries[1].message, "line2");
}

#[test]
fn test_module_items_follow_tree() {
    let mut app = App::new();
    app.update_logs(vec![entry("INFO", "b::y", "1"), entry("INFO", "a", "2")]);
    let rows: Vec<(String, usize, bool)> = app
        .module_items
        .iter()
        .map(|i| (i.full_path.clone(), i.level, i.is_selected))
        .collect();
    assert_eq!(
        rows,
        vec![
            ("a".to_string(), 1, true),
            ("b".to_string(), 1, true),
            ("b::y".to_string(), 2, true),
        ]
    );
    app.selected_module_index = 2;
    app.toggle_selected_module();
    assert!(!app.module_items[2].is_selected);
    assert!(app.module_items[1].is_selected);
    assert_eq!(app.filtered_logs.len(), 1);
}

#[test]
fn test_resize_focus_move_policy_keeps_neighbor_visible() {
    let mut app = App::new();
    app.update_logs(vec![
        entry("INFO", "a", "1"),
        entry("INFO", "a", "2"),
        entry("INFO", "a", "3"),
        entry("INFO", "a", "4"),
        entry("INFO", "a", "5"),
    ]);
    app.switch_to_log_mode();
    // walk the focus near the top; the last action is a focus move
    for _ in 0..3 {
        app.previous_log_entry();
    }
    app.log_scroll_position = 3;
    app.update_scroll_position_with_height(3);
    // the entry above the focus slid off: the scroll is pulled up to it
    assert_eq!(app.current_log_line, 1);
    assert_eq!(app.log_scroll_position, 0);
}

#[test]
fn test_resize_scroll_policy_rescues_focus() {
    let mut app = App::new();
    app.update_logs(vec![
        entry("INFO", "a", "1"),
        entry("INFO", "a", "2"),
        entry("INFO", "a", "3"),
        entry("INFO", "a", "4"),
        entry("INFO", "a", "5"),
    ]);
    app.switch_to_log_mode();
    app.current_log_line = 0;
    // a wheel scroll to the bottom leaves the focus far above the screen
    app.scroll_down(100);
    assert_eq!(app.current_log_line, 0);
    app.update_scroll_position_with_height(3);
    // the focus is rescued to the nearest entry with a visible row
    assert!(app.current_log_line >= 2);
    assert!(app.current_log_line < app.filtered_logs.len());
}

#[test]
fn test_empty_list_disables_viewport_math() {
    let mut app = App::new();
    let before_focus = app.current_log_line;
    let before_scroll = app.log_scroll_position;
    app.next_log_entry();
    app.scroll_down(5);
    app.update_scroll_position_with_height(10);
    assert_eq!(app.current_log_line, before_focus);
    assert_eq!(app.log_scroll_position, before_scroll);
    assert_eq!(app.total_display_rows(), 0);
}

#[test]
fn test_update_logs_forgets_deselection() {
    let mut app = App::new();
    app.update_logs(vec![entry("INFO", "a", "1")]);
    app.module_tree.toggle_selection("a");
    app.filter_dirty = true;
    app.filter_logs();
    assert_eq!(app.filtered_logs.len(), 0);
    // a wholesale replacement rebuilds the tree from scratch
    app.update_logs(vec![entry("INFO", "a", "1"), entry("INFO", "a", "2")]);
    assert_eq!(app.filtered_logs.len(), 2);
}
