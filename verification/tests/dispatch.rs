use tracing_viewer::entry::LogEntry;
use tracing_viewer::input::{handle_events, InputEvent, Key};
use tracing_viewer::state::{App, AppMode};

fn entry(level: &str, target: &str, message: &str) -> LogEntry {
    LogEntry {
        timestamp: "2024-01-01T12:00:00.000Z".to_string(),
        level: level.to_string(),
        target: target.to_string(),
        message: message.to_string(),
        fields: Vec::new(),
    }
}

#[test]
fn test_quit_key_in_every_mode() {
    for setup in 0..4 {
        let mut app = App::new();
        match setup {
            0 => {}
            1 => app.switch_to_log_mode(),
            2 => {
                app.switch_to_log_mode();
                app.start_text_selection();
            }
            _ => app.switch_to_log_level_mode(),
        }
        let outcome = handle_events(&mut app, &InputEvent::Key(Key::Char('q')));
        assert!(app.should_quit);
        assert!(outcome.redraw);
    }
}

#[test]
fn test_tab_cycles_modes() {
    let mut app = App::new();
    assert_eq!(app.mode, AppMode::ModuleSelection);
    handle_events(&mut app, &InputEvent::Key(Key::Tab));
    assert_eq!(app.mode, AppMode::LogNavigation);
    assert!(!app.show_filter_panel);
    handle_events(&mut app, &InputEvent::Key(Key::Tab));
    assert_eq!(app.mode, AppMode::ModuleSelection);
    assert!(app.show_filter_panel);
}

#[test]
fn test_level_digit_keys_toggle_filtering() {
    let mut app = App::new();
    app.update_logs(vec![entry("ERROR", "a", "x"), entry("INFO", "a", "y")]);
    handle_events(&mut app, &InputEvent::Key(Key::Char('1')));
    assert_eq!(app.filtered_logs.len(), 1);
    assert_eq!(app.filtered_logs[0].level, "INFO");
    handle_events(&mut app, &InputEvent::Key(Key::Char('1')));
    assert_eq!(app.filtered_logs.len(), 2);
}

#[test]
fn test_copy_through_dispatch() {
    let mut app = App::new();
    app.update_logs(vec![entry("INFO", "a", "hello")]);
    app.switch_to_log_mode();
    handle_events(&mut app, &InputEvent::Key(Key::Char('v')));
    assert_eq!(app.mode, AppMode::TextSelection);
    let outcome = handle_events(&mut app, &InputEvent::Key(Key::Char('y')));
    let copied = outcome.copy_text.unwrap();
    assert_eq!(copied, "[2024-01-01T12:00:00.000Z] INFO a: hello");
    assert_eq!(app.mode, AppMode::LogNavigation);
    assert!(app.selection_start.is_none());
}

#[test]
fn test_mouse_scroll_moves_focus() {
    let mut app = App::new();
    app.update_logs(vec![
        entry("INFO", "a", "1"),
        entry("INFO", "a", "2"),
        entry("INFO", "a", "3"),
        entry("INFO", "a", "4"),
    ]);
    app.switch_to_log_mode();
    assert_eq!(app.current_log_line, 3);
    handle_events(&mut app, &InputEvent::ScrollUp);
    assert_eq!(app.current_log_line, 0);
    handle_events(&mut app, &InputEvent::ScrollDown);
    assert_eq!(app.current_log_line, 3);
}
