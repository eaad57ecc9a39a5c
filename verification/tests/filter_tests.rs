use todo_core::state::{App, Key, KeyKind};
use todo_core::task::Task;
use todo_core::text::is_prefix_of;

fn task(text: &str, completed: bool) -> Task {
    Task { text: String::from(text), completed }
}

fn press(app: &mut App, key: Key) {
    app.handle_key(key, KeyKind::Press);
}

fn set_search(app: &mut App, text: &str) {
    press(app, Key::Char('s'));
    for c in text.chars() {
        press(app, Key::Char(c));
    }
    press(app, Key::Esc);
}

#[test]
fn prefix_test_is_exact_and_case_sensitive() {
    assert!(is_prefix_of("", "anything"));
    assert!(is_prefix_of("", ""));
    assert!(is_prefix_of("Buy", "Buy milk"));
    assert!(!is_prefix_of("buy", "Buy milk"));
    assert!(!is_prefix_of("milk", "Buy milk"));
    assert!(!is_prefix_of("Buy milk!", "Buy milk"));
    assert!(is_prefix_of("Buy milk", "Buy milk"));
}

#[test]
fn empty_search_shows_every_task() {
    let app = App::with_tasks(vec![task("a", false), task("b", true), task("c", false)]);
    let items = app.display_items();
    assert_eq!(items.len(), 3);
    assert_eq!(items[0].text, "a");
    assert_eq!(items[1].text, "b");
    assert_eq!(items[2].text, "c");
}

#[test]
fn search_filters_by_literal_prefix() {
    let mut app = App::with_tasks(vec![
        task("Buy milk", false),
        task("buy bread", false),
        task("Buy eggs", true),
        task("Sell car", false),
    ]);
    set_search(&mut app, "Buy");
    let items = app.display_items();
    assert_eq!(items.len(), 2);
    assert_eq!(items[0].text, "Buy milk");
    assert_eq!(items[1].text, "Buy eggs");
}

#[test]
fn search_is_case_sensitive() {
    let mut app = App::with_tasks(vec![task("Buy milk", false)]);
    set_search(&mut app, "buy");
    assert_eq!(app.display_items().len(), 0);
}

#[test]
fn display_keeps_completion_flags() {
    let app = App::with_tasks(vec![task("a", true), task("b", false)]);
    let items = app.display_items();
    assert!(items[0].completed);
    assert!(!items[1].completed);
}

#[test]
fn highlight_covers_exactly_the_search_prefix() {
    let mut app = App::with_tasks(vec![task("Buy milk", false)]);
    let items = app.display_items();
    assert_eq!(items[0].highlighted, 0);
    set_search(&mut app, "Buy");
    let items = app.display_items();
    assert_eq!(items.len(), 1);
    assert_eq!(items[0].highlighted, 3);
}

#[test]
fn filter_is_live_while_typing() {
    let mut app = App::with_tasks(vec![task("ab", false), task("ac", false)]);
    press(&mut app, Key::Char('s'));
    press(&mut app, Key::Char('a'));
    assert_eq!(app.display_items().len(), 2);
    press(&mut app, Key::Char('b'));
    assert_eq!(app.display_items().len(), 1);
    press(&mut app, Key::Backspace);
    assert_eq!(app.display_items().len(), 2);
}
