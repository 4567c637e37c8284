//! Dispatch of user input onto the application state.
//!
//! The mapping from device events to the plain events here is presentation
//! glue and lives outside the library; every effect an event has on the
//! state is decided here, through the state's own operations.

use vstd::prelude::*;

use crate::state::{App, AppMode};

verus! {

/// A key press, reduced to what the dispatch distinguishes.
#[derive(Debug, Clone, Copy, PartialEq, Eq, Structural)]
pub enum Key {
    Char(char),
    Up,
    Down,
    Tab,
    Esc,
    Enter,
}

/// One input event, as the event loop hands it over.
#[derive(Debug, Clone, Copy, PartialEq, Eq, Structural)]
pub enum InputEvent {
    Key(Key),
    ScrollUp,
    ScrollDown,
    Resized,
    Other,
}

/// What the event loop must do after a dispatch: redraw, and place text
/// on the clipboard.
pub struct HandleOutcome {
    pub redraw: bool,
    pub copy_text: Option<String>,
}

/// Whether the event asks the viewer to quit, in every mode.
pub open spec fn is_quit_event(ev: InputEvent) -> bool {
    ev == InputEvent::Key(Key::Char('q'))
}

/// Applies one input event to the state and reports what the event loop
/// owes: the redraw flag the original key map prescribes, and the text a
/// copy put on the clipboard.
pub fn handle_events(app: &mut App, event: &InputEvent) -> (outcome: HandleOutcome)
    requires
        old(app).inv(),
    ensures
        final(app).inv(),
        is_quit_event(*event) ==> outcome.redraw && *final(app) == (App {
            should_quit: true,
            ..*old(app)
        }),
        !is_quit_event(*event) ==> final(app).should_quit == old(app).should_quit,
        *event == InputEvent::Resized ==> outcome.redraw && *final(app) == *old(app),
        *event == InputEvent::Other ==> !outcome.redraw && *final(app) == *old(app),
        final(app).logs_view() == old(app).logs_view(),
{
    match event {
        InputEvent::Key(key) => {
            let mode = app.mode;
            match mode {
                AppMode::ModuleSelection => handle_module_selection_key(app, key),
                AppMode::LogNavigation => handle_log_navigation_key(app, key),
                AppMode::TextSelection => handle_text_selection_key(app, key),
                AppMode::LogLevelFilter => handle_log_level_filter_key(app, key),
            }
        },
        InputEvent::ScrollUp => {
            let mut c: usize = 0;
            while c < 3
                invariant
                    app.inv(),
                    app.should_quit == old(app).should_quit,
                    app.logs_view() == old(app).logs_view(),
                decreases 3 - c,
            {
                if app.mode == AppMode::LogNavigation || app.mode == AppMode::TextSelection {
                    app.previous_log_entry();
                }
                c = c + 1;
            }
            HandleOutcome { redraw: true, copy_text: None }
        },
        InputEvent::ScrollDown => {
            let mut c: usize = 0;
            while c < 3
                invariant
                    app.inv(),
                    app.should_quit == old(app).should_quit,
                    app.logs_view() == old(app).logs_view(),
                decreases 3 - c,
            {
                if app.mode == AppMode::LogNavigation || app.mode == AppMode::TextSelection {
                    app.next_log_entry();
                }
                c = c + 1;
            }
            HandleOutcome { redraw: true, copy_text: None }
        },
        InputEvent::Resized => HandleOutcome { redraw: true, copy_text: None },
        InputEvent::Other => HandleOutcome { redraw: false, copy_text: None },
    }
}

fn handle_module_selection_key(app: &mut App, key: &Key) -> (outcome: HandleOutcome)
    requires
        old(app).inv(),
    ensures
        final(app).inv(),
        *key == Key::Char('q') ==> outcome.redraw && *final(app) == (App {
            should_quit: true,
            ..*old(app)
        }),
        *key != Key::Char('q') ==> final(app).should_quit == old(app).should_quit,
        final(app).logs_view() == old(app).logs_view(),
        outcome.redraw,
        outcome.copy_text is None,
{
    match key {
        Key::Char(c) => {
            if *c == 'q' {
                app.quit();
            } else if *c == ' ' {
                app.toggle_selected_module();
            } else if *c == 'j' {
                if app.module_items.len() == 0 || app.selected_module_index
                    >= app.module_items.len() - 1 {
                    app.switch_to_log_level_mode();
                } else {
                    app.next_module();
                }
            } else if *c == 'k' {
                if app.selected_module_index == 0 {
                    app.switch_to_log_level_mode();
                    if app.available_log_levels.len() > 0 {
                        app.selected_log_level_index = app.available_log_levels.len() - 1;
                    }
                } else {
                    app.previous_module();
                }
            } else if *c == 'r' {
                app.filter_logs();
            } else if *c == '1' {
                app.toggle_log_level("ERROR");
            } else if *c == '2' {
                app.toggle_log_level("WARN");
            } else if *c == '3' {
                app.toggle_log_level("INFO");
            } else if *c == '4' {
                app.toggle_log_level("DEBUG");
            } else if *c == '5' {
                app.toggle_log_level("TRACE");
            } else if *c == 'a' {
                app.select_all_modules();
            } else if *c == 'n' {
                app.deselect_all_modules();
            } else if *c == ',' {
                app.decrease_panel_width();
            } else if *c == '.' {
                app.increase_panel_width();
            }
        },
        Key::Enter => {
            app.toggle_selected_module();
        },
        Key::Down => {
            if app.module_items.len() == 0 || app.selected_module_index >= app.module_items.len()
                - 1 {
                app.switch_to_log_level_mode();
            } else {
                app.next_module();
            }
        },
        Key::Up => {
            if app.selected_module_index == 0 {
                app.switch_to_log_level_mode();
                if app.available_log_levels.len() > 0 {
                    app.selected_log_level_index = app.available_log_levels.len() - 1;
                }
            } else {
                app.previous_module();
            }
        },
        Key::Tab => {
            app.switch_to_log_mode();
        },
        Key::Esc => {},
    }
    HandleOutcome { redraw: true, copy_text: None }
}

fn handle_log_navigation_key(app: &mut App, key: &Key) -> (outcome: HandleOutcome)
    requires
        old(app).inv(),
    ensures
        final(app).inv(),
        *key == Key::Char('q') ==> outcome.redraw && *final(app) == (App {
            should_quit: true,
            ..*old(app)
        }),
        *key != Key::Char('q') ==> final(app).should_quit == old(app).should_quit,
        final(app).logs_view() == old(app).logs_view(),
        outcome.redraw,
        outcome.copy_text is None,
{
    match key {
        Key::Char(c) => {
            if *c == 'q' {
                app.quit();
            } else if *c == 'j' {
                app.next_log_entry();
            } else if *c == 'k' {
                app.previous_log_entry();
            } else if *c == 'v' {
                app.start_text_selection();
            } else if *c == 'c' {
                app.clear_copy_message();
            } else if *c == '1' {
                app.toggle_log_level("ERROR");
            } else if *c == '2' {
                app.toggle_log_level("WARN");
            } else if *c == '3' {
                app.toggle_log_level("INFO");
            } else if *c == '4' {
                app.toggle_log_level("DEBUG");
            } else if *c == '5' {
                app.toggle_log_level("TRACE");
            }
        },
        Key::Down => {
            app.next_log_entry();
        },
        Key::Up => {
            app.previous_log_entry();
        },
        Key::Tab => {
            if !app.show_filter_panel {
                app.show_filter_panel = true;
            }
            app.switch_to_module_mode();
        },
        Key::Esc => {
            app.scroll_to_bottom();
            app.switch_to_module_mode();
        },
        Key::Enter => {},
    }
    HandleOutcome { redraw: true, copy_text: None }
}

fn handle_text_selection_key(app: &mut App, key: &Key) -> (outcome: HandleOutcome)
    requires
        old(app).inv(),
    ensures
        final(app).inv(),
        *key == Key::Char('q') ==> outcome.redraw && *final(app) == (App {
            should_quit: true,
            ..*old(app)
        }),
        *key != Key::Char('q') ==> final(app).should_quit == old(app).should_quit,
        final(app).logs_view() == old(app).logs_view(),
{
    match key {
        Key::Char(c) => {
            if *c == 'q' {
                app.quit();
                HandleOutcome { redraw: true, copy_text: None }
            } else if *c == 'j' {
                app.next_log_entry();
                HandleOutcome { redraw: true, copy_text: None }
            } else if *c == 'k' {
                app.previous_log_entry();
                HandleOutcome { redraw: true, copy_text: None }
            } else if *c == 'y' {
                let selected_text = app.copy_selected_logs();
                app.clear_selection();
                HandleOutcome { redraw: true, copy_text: Some(selected_text) }
            } else if *c == 'c' {
                app.clear_copy_message();
                HandleOutcome { redraw: true, copy_text: None }
            } else {
                HandleOutcome { redraw: false, copy_text: None }
            }
        },
        Key::Down => {
            app.next_log_entry();
            HandleOutcome { redraw: true, copy_text: None }
        },
        Key::Up => {
            app.previous_log_entry();
            HandleOutcome { redraw: true, copy_text: None }
        },
        Key::Esc => {
            app.clear_selection();
            HandleOutcome { redraw: true, copy_text: None }
        },
        _ => HandleOutcome { redraw: false, copy_text: None },
    }
}

fn handle_log_level_filter_key(app: &mut App, key: &Key) -> (outcome: HandleOutcome)
    requires
        old(app).inv(),
    ensures
        final(app).inv(),
        *key == Key::Char('q') ==> outcome.redraw && *final(app) == (App {
            should_quit: true,
            ..*old(app)
        }),
        *key != Key::Char('q') ==> final(app).should_quit == old(app).should_quit,
        final(app).logs_view() == old(app).logs_view(),
{
    match key {
        Key::Char(c) => {
            if *c == 'q' {
                app.quit();
                HandleOutcome { redraw: true, copy_text: None }
            } else if *c == 'j' {
                log_level_cursor_down(app);
                HandleOutcome { redraw: true, copy_text: None }
            } else if *c == 'k' {
                log_level_cursor_up(app);
                HandleOutcome { redraw: true, copy_text: None }
            } else if *c == ' ' {
                app.toggle_selected_log_level();
                HandleOutcome { redraw: true, copy_text: None }
            } else if *c == '1' {
                app.toggle_log_level("ERROR");
                HandleOutcome { redraw: true, copy_text: None }
            } else if *c == '2' {
                app.toggle_log_level("WARN");
                HandleOutcome { redraw: true, copy_text: None }
            } else if *c == '3' {
                app.toggle_log_level("INFO");
                HandleOutcome { redraw: true, copy_text: None }
            } else if *c == '4' {
                app.toggle_log_level("DEBUG");
                HandleOutcome { redraw: true, copy_text: None }
            } else if *c == '5' {
                app.toggle_log_level("TRACE");
                HandleOutcome { redraw: true, copy_text: None }
            } else if *c == ',' {
                app.decrease_panel_width();
                HandleOutcome { redraw: true, copy_text: None }
            } else if *c == '.' {
                app.increase_panel_width();
                HandleOutcome { redraw: true, copy_text: None }
            } else {
                HandleOutcome { redraw: false, copy_text: None }
            }
        },
        Key::Enter => {
            app.toggle_selected_log_level();
            HandleOutcome { redraw: true, copy_text: None }
        },
        Key::Down => {
            log_level_cursor_down(app);
            HandleOutcome { redraw: true, copy_text: None }
        },
        Key::Up => {
            log_level_cursor_up(app);
            HandleOutcome { redraw: true, copy_text: None }
        },
        Key::Tab => {
            app.switch_to_log_mode();
            HandleOutcome { redraw: true, copy_text: None }
        },
        Key::Esc => HandleOutcome { redraw: false, copy_text: None },
    }
}

/// Leaving the bottom of the severity list moves into the module list.
fn log_level_cursor_down(app: &mut App)
    requires
        old(app).inv(),
    ensures
        final(app).inv(),
        final(app).should_quit == old(app).should_quit,
        final(app).logs_view() == old(app).logs_view(),
{
    if app.available_log_levels.len() == 0 || app.selected_log_level_index
        >= app.available_log_levels.len() - 1 {
        app.switch_to_module_mode();
        app.selected_module_index = 0;
    } else {
        app.next_log_level();
    }
}

/// Leaving the top of the severity list moves into the module list.
fn log_level_cursor_up(app: &mut App)
    requires
        old(app).inv(),
    ensures
        final(app).inv(),
        final(app).should_quit == old(app).should_quit,
        final(app).logs_view() == old(app).logs_view(),
{
    if app.selected_log_level_index == 0 {
        app.switch_to_module_mode();
        if app.module_items.len() > 0 {
            app.selected_module_index = app.module_items.len() - 1;
        }
    } else {
        app.previous_log_level();
    }
}

} // verus!
