use tracing_viewer::log_parser::{parse_logs_from_content, parse_logs_from_lines, LogParser};
use tracing_viewer::module_tree::ModuleTree;

fn child<'a>(tree: &'a ModuleTree, name: &str) -> Option<&'a ModuleTree> {
    tree.children.iter().find(|c| c.name == name)
}

#[test]
fn test_parse_tracing_log() {
    let parser = LogParser::new();
    let line = "2024-01-01T12:00:00.123Z INFO myapp::module::submodule: This is a test message";

    let entry = parser.parse_line(line).unwrap();
    assert_eq!(entry.level, "INFO");
    assert_eq!(entry.target, "myapp::module::submodule");
    assert_eq!(entry.message, "This is a test message");
}

#[test]
fn test_module_tree_insertion() {
    let mut tree = ModuleTree::new("root".to_string());
    tree.insert_module("myapp::module::submodule");

    assert!(child(&tree, "myapp").is_some());
    assert!(child(child(&tree, "myapp").unwrap(), "module").is_some());
    assert!(
        child(child(child(&tree, "myapp").unwrap(), "module").unwrap(), "submodule").is_some()
    );
}

#[test]
fn test_module_selection() {
    let mut tree = ModuleTree::new("root".to_string());
    tree.insert_module("myapp::module");

    assert!(tree.is_module_selected("myapp::module"));
    tree.toggle_selection("myapp::module");
    assert!(!tree.is_module_selected("myapp::module"));
}

#[test]
fn test_multiline_log_parsing() {
    let parser = LogParser::new();
    let content = r#"2024-01-01T12:00:00.123Z INFO myapp::module: First log message
This is a continuation line
And another line
2024-01-01T12:00:01.456Z ERROR myapp::other: Second log message
Error details on next line
    with indented content
2024-01-01T12:00:02.789Z WARN myapp::third: Third message"#;

    let entries = parser.parse_multiline_logs(content);
    assert_eq!(entries.len(), 3);

    assert_eq!(entries[0].level, "INFO");
    assert_eq!(
        entries[0].message,
        "First log message\nThis is a continuation line\nAnd another line"
    );

    assert_eq!(entries[1].level, "ERROR");
    assert_eq!(
        entries[1].message,
        "Second log message\nError details on next line\n    with indented content"
    );

    assert_eq!(entries[2].level, "WARN");
    assert_eq!(entries[2].message, "Third message");
}

#[test]
fn test_parse_line_rejects_noise() {
    let parser = LogParser::new();
    assert!(parser.parse_line("").is_none());
    assert!(parser.parse_line("not a log line").is_none());
    assert!(parser.parse_line("2024-01-01 12:00:00 INFO a: x").is_none());
    assert!(parser.parse_line("2024-01-01T12:00:00Z INFO a: x").is_none());
    assert!(parser.parse_line("2024-01-01T12:00:00.5 INFO : missing target").is_none());
    assert!(parser.parse_line("2024-01-01T12:00:00.5 INFO a::b no colon").is_none());
}

#[test]
fn test_parse_line_details() {
    let parser = LogParser::new();
    // no trailing Z, empty message
    let e = parser.parse_line("2024-01-01T12:00:00.5 WARN a::b:").unwrap();
    assert_eq!(e.timestamp, "2024-01-01T12:00:00.5");
    assert_eq!(e.level, "WARN");
    assert_eq!(e.target, "a::b");
    assert_eq!(e.message, "");
    // exactly one space after the colon is consumed
    let e = parser.parse_line("2024-01-01T12:00:00.5Z INFO a:  two spaces").unwrap();
    assert_eq!(e.message, " two spaces");
}

#[test]
fn test_stream_entry_count_matches_grammar() {
    let parser = LogParser::new();
    let content = "noise before any entry\n\
                   2024-01-01T12:00:00.000Z INFO a: one\n\
                   continuation\n\
                   \n\
                   2024-01-01T12:00:01.000Z DEBUG b: two\n\
                   trailing noise";
    let entries = parser.parse_multiline_logs(content);
    // two lines match the grammar, so exactly two entries come out
    assert_eq!(entries.len(), 2);
    // the blank line is not appended; the noise lines around it are folded
    assert_eq!(entries[0].message, "one\ncontinuation");
    assert_eq!(entries[1].message, "two\ntrailing noise");
}

#[test]
fn test_leading_noise_is_dropped() {
    let parser = LogParser::new();
    let entries = parser.parse_multiline_logs("garbage\nmore garbage\n");
    assert_eq!(entries.len(), 0);
}

#[test]
fn test_batched_lines_fold_continuations() {
    let parser = LogParser::new();
    let content = "2024-01-01T12:00:00.000Z INFO a: one\ncontinuation\n";
    let entries = parse_logs_from_content(&parser, content);
    assert_eq!(entries.len(), 1);
    assert_eq!(entries[0].message, "one\ncontinuation");

    let lines = vec![
        "noise before any entry".to_string(),
        "2024-01-01T12:00:00.000Z ERROR x::y: boom".to_string(),
        "  details".to_string(),
    ];
    let entries = parse_logs_from_lines(&parser, &lines);
    assert_eq!(entries.len(), 1);
    assert_eq!(entries[0].target, "x::y");
    assert_eq!(entries[0].message, "boom\n  details");
}

#[test]
fn test_cascading_toggle_descendants() {
    let mut tree = ModuleTree::new("root".to_string());
    tree.insert_module("a::b");
    tree.insert_module("a::c");
    assert!(tree.is_module_selected("a::b"));
    tree.toggle_selection("a");
    assert!(!tree.is_module_selected("a"));
    assert!(!tree.is_module_selected("a::b"));
    assert!(!tree.is_module_selected("a::c"));
    tree.toggle_selection("a");
    assert!(tree.is_module_selected("a::b"));
    assert!(tree.is_module_selected("a::c"));
}

#[test]
fn test_toggle_missing_path_is_noop() {
    let mut tree = ModuleTree::new("root".to_string());
    tree.insert_module("a::b");
    tree.toggle_selection("a::missing");
    assert!(tree.is_module_selected("a::b"));
    // unknown paths read as excluded
    assert!(!tree.is_module_selected("a::missing"));
    assert!(!tree.is_module_selected("zzz"));
}

#[test]
fn test_select_all_and_deselect_all() {
    let mut tree = ModuleTree::new("root".to_string());
    tree.insert_module("a::b");
    tree.insert_module("c");
    tree.deselect_all();
    assert!(!tree.is_module_selected("a"));
    assert!(!tree.is_module_selected("a::b"));
    assert!(!tree.is_module_selected("c"));
    tree.select_all();
    assert!(tree.is_module_selected("a::b"));
    assert!(tree.is_module_selected("c"));
}

#[test]
fn test_insert_preserves_selection() {
    let mut tree = ModuleTree::new("root".to_string());
    tree.insert_module("a::b");
    tree.toggle_selection("a::b");
    assert!(!tree.is_module_selected("a::b"));
    // inserting again, or inserting a sibling, keeps the earlier choice
    tree.insert_module("a::b");
    tree.insert_module("a::z");
    assert!(!tree.is_module_selected("a::b"));
    assert!(tree.is_module_selected("a::z"));
}

#[test]
fn test_children_are_sorted() {
    let mut tree = ModuleTree::new("root".to_string());
    tree.insert_module("zebra");
    tree.insert_module("apple");
    tree.insert_module("mango");
    let names: Vec<&str> = tree.children.iter().map(|c| c.name.as_str()).collect();
    assert_eq!(names, vec!["apple", "mango", "zebra"]);
}

#[test]
fn test_unicode_word_characters_in_target() {
    let parser = LogParser::new();
    // letters outside ASCII count as word characters
    let e = parser.parse_line("2024-01-01T12:00:00.5Z INFO café::x: bonjour").unwrap();
    assert_eq!(e.target, "café::x");
    assert_eq!(e.message, "bonjour");
    // a character that is neither letter, number nor underscore ends the target
    assert!(parser.parse_line("2024-01-01T12:00:00.5Z INFO a€b: x").is_none());
}
