use todo_core::codec::{decode_tasks, encode_tasks};
use todo_core::task::{tasks_are_clean, Task};

fn task(text: &str, completed: bool) -> Task {
    Task { text: String::from(text), completed }
}

fn round_trip(tasks: Vec<Task>) -> Vec<Task> {
    let s = encode_tasks(&tasks);
    decode_tasks(s.as_str()).expect("round trip must decode")
}

fn assert_same(a: &[Task], b: &[Task]) {
    assert_eq!(a.len(), b.len());
    for k in 0..a.len() {
        assert_eq!(a[k].text, b[k].text);
        assert_eq!(a[k].completed, b[k].completed);
    }
}

#[test]
fn encode_empty_list() {
    assert_eq!(encode_tasks(&Vec::new()), "[]");
}

#[test]
fn decode_empty_list() {
    let v = decode_tasks("[]").expect("empty array is valid");
    assert_eq!(v.len(), 0);
}

#[test]
fn encode_two_tasks_exactly() {
    let tasks = vec![task("a", false), task("b", true)];
    assert_eq!(
        encode_tasks(&tasks),
        "[{\"text\":\"a\",\"completed\":false},{\"text\":\"b\",\"completed\":true}]"
    );
}

#[test]
fn decode_two_tasks() {
    let v = decode_tasks("[{\"text\":\"a\",\"completed\":false},{\"text\":\"b\",\"completed\":true}]")
        .expect("valid document");
    assert_same(&v, &[task("a", false), task("b", true)]);
}

#[test]
fn round_trip_two_tasks() {
    let tasks = vec![task("a", false), task("b", true)];
    let back = round_trip(vec![task("a", false), task("b", true)]);
    assert_same(&tasks, &back);
}

#[test]
fn round_trip_preserves_order_texts_and_flags() {
    let tasks = vec![
        task("Buy milk", false),
        task("walk the dog", true),
        task("", false),
        task("spaces   inside", true),
    ];
    let back = round_trip(tasks.iter().map(|t| task(&t.text, t.completed)).collect());
    assert_same(&tasks, &back);
}

#[test]
fn round_trip_escapes_quote_and_backslash() {
    let tasks = vec![task("say \"hi\" \\ done", false)];
    let back = round_trip(vec![task("say \"hi\" \\ done", false)]);
    assert_same(&tasks, &back);
}

#[test]
fn quote_is_escaped_in_the_document() {
    let tasks = vec![task("a\"b", false)];
    assert_eq!(
        encode_tasks(&tasks),
        "[{\"text\":\"a\\\"b\",\"completed\":false}]"
    );
}

#[test]
fn backslash_is_escaped_in_the_document() {
    let tasks = vec![task("a\\b", true)];
    assert_eq!(
        encode_tasks(&tasks),
        "[{\"text\":\"a\\\\b\",\"completed\":true}]"
    );
}

#[test]
fn round_trip_unicode_text() {
    let tasks = vec![task("caf\u{e9} \u{2714} \u{1f600}", true)];
    let back = round_trip(vec![task("caf\u{e9} \u{2714} \u{1f600}", true)]);
    assert_same(&tasks, &back);
}

#[test]
fn decode_rejects_malformed_documents() {
    assert!(decode_tasks("").is_none());
    assert!(decode_tasks("[").is_none());
    assert!(decode_tasks("]").is_none());
    assert!(decode_tasks("{}").is_none());
    assert!(decode_tasks("[{}]").is_none());
    assert!(decode_tasks("[{\"text\":\"a\"}]").is_none());
    assert!(decode_tasks("[{\"text\":\"a\",\"completed\":false}").is_none());
    assert!(decode_tasks("[{\"text\":\"a\",\"completed\":false},]").is_none());
    assert!(decode_tasks("[{\"text\":\"a\",\"completed\":tru}]").is_none());
    assert!(decode_tasks("[{\"text\":\"a,\"completed\":false}]").is_none());
    assert!(decode_tasks("[]x").is_none());
}

#[test]
fn decode_rejects_unescaped_control_character() {
    assert!(decode_tasks("[{\"text\":\"a\nb\",\"completed\":false}]").is_none());
}

#[test]
fn decode_rejects_unknown_escape() {
    assert!(decode_tasks("[{\"text\":\"a\\qb\",\"completed\":false}]").is_none());
}

#[test]
fn decode_accepts_whitespace_between_tokens() {
    let v = decode_tasks(
        " [ {\"text\" : \"a\" , \"completed\" : false} , {\"text\":\"b\",\"completed\":true} ] ",
    )
    .expect("whitespace between tokens is valid");
    assert_same(&v, &[task("a", false), task("b", true)]);
}

#[test]
fn decode_accepts_pretty_printed_document() {
    let doc = "[\n  {\n    \"text\": \"a\",\n    \"completed\": false\n  }\n]\n";
    let v = decode_tasks(doc).expect("pretty-printed document is valid");
    assert_same(&v, &[task("a", false)]);
}

#[test]
fn decode_accepts_trailing_newline() {
    let v = decode_tasks("[]\n").expect("trailing newline is valid");
    assert_eq!(v.len(), 0);
}

#[test]
fn decode_accepts_named_escapes() {
    let v = decode_tasks("[{\"text\":\"a\\nb\\tc\\/d\\r\\b\\f\",\"completed\":false}]")
        .expect("standard escapes are valid");
    assert_eq!(v[0].text, "a\nb\tc/d\r\u{8}\u{c}");
}

#[test]
fn decode_accepts_unicode_escapes() {
    let v = decode_tasks("[{\"text\":\"\\u0041\\u00e9\\u2714\\u000a\",\"completed\":true}]")
        .expect("unicode escapes are valid");
    assert_eq!(v[0].text, "A\u{e9}\u{2714}\n");
}

#[test]
fn decode_rejects_bad_unicode_escapes() {
    assert!(decode_tasks("[{\"text\":\"\\u00zz\",\"completed\":false}]").is_none());
    assert!(decode_tasks("[{\"text\":\"\\u00\",\"completed\":false}]").is_none());
    // a lone surrogate names no character
    assert!(decode_tasks("[{\"text\":\"\\ud800\",\"completed\":false}]").is_none());
}

#[test]
fn escaped_control_characters_fail_the_clean_check() {
    let v = decode_tasks("[{\"text\":\"a\\u0001b\",\"completed\":false}]")
        .expect("escaped control characters decode");
    assert!(!tasks_are_clean(&v));
}

#[test]
fn round_trip_long_text() {
    let mut text = String::new();
    for _ in 0..2_000 {
        text.push('x');
    }
    text.push('"');
    let tasks = vec![task(&text, true)];
    let back = round_trip(vec![task(&text, true)]);
    assert_same(&tasks, &back);
}

#[test]
fn round_trip_many_tasks() {
    let tasks: Vec<Task> = (0..300).map(|k| task(&format!("t{}", k), k % 2 == 0)).collect();
    let copy: Vec<Task> = tasks.iter().map(|t| task(&t.text, t.completed)).collect();
    let back = round_trip(copy);
    assert_same(&tasks, &back);
}

#[test]
fn clean_check_accepts_ordinary_text() {
    let tasks = vec![task("Buy milk", false), task("caf\u{e9}", true)];
    assert!(tasks_are_clean(&tasks));
}

#[test]
fn clean_check_rejects_control_characters() {
    let tasks = vec![task("a\nb", false)];
    assert!(!tasks_are_clean(&tasks));
}
