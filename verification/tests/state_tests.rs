use todo_core::state::{App, Key, KeyKind, Mode};
use todo_core::task::Task;

fn task(text: &str, completed: bool) -> Task {
    Task { text: String::from(text), completed }
}

fn app_with(texts: &[&str]) -> App {
    let tasks: Vec<Task> = texts.iter().map(|t| task(t, false)).collect();
    App::with_tasks(tasks)
}

fn press(app: &mut App, key: Key) -> bool {
    app.handle_key(key, KeyKind::Press)
}

fn type_text(app: &mut App, text: &str) {
    for c in text.chars() {
        press(app, Key::Char(c));
    }
}

#[test]
fn scenario_add_buy_milk() {
    let mut app = App::new();
    assert_eq!(app.mode, Mode::Normal);
    press(&mut app, Key::Char('n'));
    assert_eq!(app.mode, Mode::Adding);
    type_text(&mut app, "Buy milk");
    press(&mut app, Key::Enter);
    press(&mut app, Key::Esc);
    assert_eq!(app.mode, Mode::Normal);
    assert_eq!(app.tasks.len(), 1);
    assert_eq!(app.tasks[0].text, "Buy milk");
    assert!(!app.tasks[0].completed);
}

#[test]
fn up_clamps_at_top() {
    let mut app = app_with(&["a", "b", "c"]);
    press(&mut app, Key::Up);
    assert_eq!(app.selected, Some(0));
    press(&mut app, Key::Up);
    press(&mut app, Key::Up);
    assert_eq!(app.selected, Some(0));
}

#[test]
fn down_clamps_at_bottom() {
    let mut app = app_with(&["a", "b", "c"]);
    press(&mut app, Key::Down);
    assert_eq!(app.selected, Some(0));
    press(&mut app, Key::Down);
    press(&mut app, Key::Down);
    assert_eq!(app.selected, Some(2));
    press(&mut app, Key::Down);
    press(&mut app, Key::Down);
    assert_eq!(app.selected, Some(2));
}

#[test]
fn navigation_on_empty_list_selects_nothing() {
    let mut app = App::new();
    press(&mut app, Key::Up);
    assert_eq!(app.selected, None);
    press(&mut app, Key::Down);
    assert_eq!(app.selected, None);
}

#[test]
fn down_clamps_against_displayed_count() {
    let mut app = app_with(&["apple", "pear", "apricot"]);
    press(&mut app, Key::Char('s'));
    type_text(&mut app, "ap");
    press(&mut app, Key::Esc);
    // two of the three tasks are displayed under the filter "ap"
    press(&mut app, Key::Down);
    press(&mut app, Key::Down);
    press(&mut app, Key::Down);
    assert_eq!(app.selected, Some(1));
}

#[test]
fn delete_moves_selection_up() {
    let mut app = app_with(&["a", "b", "c"]);
    press(&mut app, Key::Down);
    press(&mut app, Key::Down);
    press(&mut app, Key::Down);
    assert_eq!(app.selected, Some(2));
    press(&mut app, Key::Delete);
    assert_eq!(app.selected, Some(1));
    assert_eq!(app.tasks.len(), 2);
    assert_eq!(app.tasks[0].text, "a");
    assert_eq!(app.tasks[1].text, "b");
}

#[test]
fn delete_at_top_keeps_top_selected() {
    let mut app = app_with(&["a", "b"]);
    press(&mut app, Key::Down);
    press(&mut app, Key::Delete);
    assert_eq!(app.selected, Some(0));
    assert_eq!(app.tasks.len(), 1);
    assert_eq!(app.tasks[0].text, "b");
}

#[test]
fn delete_sole_task_clears_selection() {
    let mut app = app_with(&["only"]);
    press(&mut app, Key::Down);
    assert_eq!(app.selected, Some(0));
    press(&mut app, Key::Delete);
    assert_eq!(app.selected, None);
    assert_eq!(app.tasks.len(), 0);
}

#[test]
fn delete_with_filter_removes_underlying_task() {
    let mut app = app_with(&["x", "ay", "z"]);
    press(&mut app, Key::Char('s'));
    type_text(&mut app, "a");
    press(&mut app, Key::Esc);
    press(&mut app, Key::Down);
    assert_eq!(app.selected, Some(0));
    press(&mut app, Key::Delete);
    assert_eq!(app.tasks.len(), 2);
    assert_eq!(app.tasks[0].text, "x");
    assert_eq!(app.tasks[1].text, "z");
}

#[test]
fn delete_without_selection_is_noop() {
    let mut app = app_with(&["a"]);
    press(&mut app, Key::Delete);
    assert_eq!(app.tasks.len(), 1);
}

#[test]
fn toggle_twice_restores_flag() {
    let mut app = app_with(&["a"]);
    press(&mut app, Key::Down);
    press(&mut app, Key::Enter);
    assert!(app.tasks[0].completed);
    press(&mut app, Key::Enter);
    assert!(!app.tasks[0].completed);
}

#[test]
fn toggle_with_filter_hits_underlying_task() {
    let mut app = app_with(&["x", "ay"]);
    press(&mut app, Key::Char('s'));
    type_text(&mut app, "a");
    press(&mut app, Key::Esc);
    press(&mut app, Key::Down);
    press(&mut app, Key::Enter);
    assert!(!app.tasks[0].completed);
    assert!(app.tasks[1].completed);
}

#[test]
fn escape_clears_selection_in_normal_mode() {
    let mut app = app_with(&["a", "b"]);
    press(&mut app, Key::Down);
    assert_eq!(app.selected, Some(0));
    press(&mut app, Key::Esc);
    assert_eq!(app.selected, None);
}

#[test]
fn entering_a_mode_clears_selection() {
    let mut app = app_with(&["a"]);
    press(&mut app, Key::Down);
    press(&mut app, Key::Char('n'));
    assert_eq!(app.selected, None);
    press(&mut app, Key::Esc);
    press(&mut app, Key::Down);
    press(&mut app, Key::Char('s'));
    assert_eq!(app.selected, None);
}

#[test]
fn delete_in_adding_mode_is_noop() {
    let mut app = app_with(&["a", "b"]);
    press(&mut app, Key::Char('n'));
    press(&mut app, Key::Delete);
    assert_eq!(app.tasks.len(), 2);
    assert_eq!(app.mode, Mode::Adding);
    assert_eq!(app.new_task, "");
    assert_eq!(app.search_txt, "");
}

#[test]
fn unknown_key_is_noop_in_normal_mode() {
    let mut app = app_with(&["a"]);
    press(&mut app, Key::Char('x'));
    press(&mut app, Key::Other);
    press(&mut app, Key::Backspace);
    assert_eq!(app.mode, Mode::Normal);
    assert_eq!(app.tasks.len(), 1);
    assert_eq!(app.selected, None);
}

#[test]
fn release_and_repeat_events_are_ignored() {
    let mut app = App::new();
    app.handle_key(Key::Char('n'), KeyKind::Release);
    assert_eq!(app.mode, Mode::Normal);
    app.handle_key(Key::Char('n'), KeyKind::Repeat);
    assert_eq!(app.mode, Mode::Normal);
}

#[test]
fn quit_only_from_normal_mode() {
    let mut app = App::new();
    assert!(app.handle_key(Key::Char('q'), KeyKind::Press));
    press(&mut app, Key::Char('n'));
    assert!(!app.handle_key(Key::Char('q'), KeyKind::Press));
    assert_eq!(app.new_task, "q");
}

#[test]
fn typing_in_adding_mode_never_touches_search() {
    let mut app = App::new();
    press(&mut app, Key::Char('s'));
    type_text(&mut app, "keep");
    press(&mut app, Key::Esc);
    press(&mut app, Key::Char('n'));
    type_text(&mut app, "draft");
    press(&mut app, Key::Backspace);
    assert_eq!(app.search_txt, "keep");
    assert_eq!(app.new_task, "draf");
}

#[test]
fn typing_in_search_mode_never_touches_draft() {
    let mut app = App::new();
    press(&mut app, Key::Char('n'));
    type_text(&mut app, "draft");
    press(&mut app, Key::Esc);
    assert_eq!(app.new_task, "");
    press(&mut app, Key::Char('n'));
    type_text(&mut app, "kept");
    press(&mut app, Key::Esc);
    // draft was discarded by Esc; type a new one and leave it pending
    press(&mut app, Key::Char('n'));
    type_text(&mut app, "pending");
    press(&mut app, Key::Esc);
    press(&mut app, Key::Char('s'));
    type_text(&mut app, "abc");
    press(&mut app, Key::Backspace);
    assert_eq!(app.new_task, "");
    assert_eq!(app.search_txt, "ab");
}

#[test]
fn enter_with_empty_draft_adds_nothing() {
    let mut app = App::new();
    press(&mut app, Key::Char('n'));
    press(&mut app, Key::Enter);
    assert_eq!(app.tasks.len(), 0);
    assert_eq!(app.mode, Mode::Adding);
}

#[test]
fn adding_stays_in_adding_after_commit() {
    let mut app = App::new();
    press(&mut app, Key::Char('n'));
    type_text(&mut app, "one");
    press(&mut app, Key::Enter);
    assert_eq!(app.mode, Mode::Adding);
    type_text(&mut app, "two");
    press(&mut app, Key::Enter);
    assert_eq!(app.tasks.len(), 2);
    assert_eq!(app.tasks[0].text, "one");
    assert_eq!(app.tasks[1].text, "two");
}

#[test]
fn backspace_on_empty_draft_is_noop() {
    let mut app = App::new();
    press(&mut app, Key::Char('n'));
    press(&mut app, Key::Backspace);
    assert_eq!(app.new_task, "");
    assert_eq!(app.mode, Mode::Adding);
}

#[test]
fn escape_keeps_search_text() {
    let mut app = app_with(&["abc", "x"]);
    press(&mut app, Key::Char('s'));
    type_text(&mut app, "ab");
    press(&mut app, Key::Esc);
    assert_eq!(app.mode, Mode::Normal);
    assert_eq!(app.search_txt, "ab");
}

#[test]
fn control_character_is_not_typed() {
    let mut app = App::new();
    press(&mut app, Key::Char('n'));
    press(&mut app, Key::Char('\n'));
    press(&mut app, Key::Char('\t'));
    assert_eq!(app.new_task, "");
    press(&mut app, Key::Char('a'));
    assert_eq!(app.new_task, "a");
}
