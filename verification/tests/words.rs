use macro_editor::editor::Editor;
use macro_editor::words::{str_less, word_completions};

fn ed(content: &str) -> Editor {
    Editor::from_lines("t.rs".to_string(), content.lines().map(|l| l.to_string()).collect())
}

#[test]
fn buffer_completions_sorted_distinct_longer_than_prefix() {
    let e = ed("fn foo_bar() { foo_bar(); Foobar; fo; foo }\nlet fooz = foo_bar;");
    assert_eq!(e.buffer_word_completions("fo"), vec!["Foobar", "foo", "foo_bar", "fooz"]);
    assert_eq!(e.buffer_word_completions("foo"), vec!["Foobar", "foo_bar", "fooz"]);
}

#[test]
fn buffer_completions_need_two_bytes_of_prefix() {
    let e = ed("alpha beta");
    assert!(e.buffer_word_completions("a").is_empty());
    assert_eq!(e.buffer_word_completions("al"), vec!["alpha"]);
}

#[test]
fn buffer_completions_keep_twenty() {
    let text: Vec<String> = (0..30).map(|i| format!("word{:02}", 29 - i)).collect();
    let lines = vec![text.join(" ")];
    let r = word_completions(&lines, "wo");
    assert_eq!(r.len(), 20);
    assert_eq!(r[0], "word00");
    assert_eq!(r[19], "word19");
}

#[test]
fn string_order_is_code_point_order() {
    assert!(str_less("a", "b"));
    assert!(str_less("ab", "abc"));
    assert!(!str_less("b", "ab"));
    assert!(str_less("Z", "a"));
    assert!(!str_less("x", "x"));
}
