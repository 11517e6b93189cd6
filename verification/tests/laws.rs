use macro_editor::editor::{Editor, Pos, Selection};

fn make(lines: &[&str]) -> Editor {
    Editor::from_lines("notes.txt".to_string(), lines.iter().map(|l| l.to_string()).collect())
}

#[test]
fn typing_then_backspace_restores_text() {
    let mut e = make(&["abc", "def"]);
    e.cursor = Pos::new(1, 1);
    e.insert_char('x');
    assert_eq!(e.lines, vec!["abc", "dxef"]);
    e.backspace();
    assert_eq!(e.lines, vec!["abc", "def"]);
    assert_eq!(e.cursor, Pos::new(1, 1));
}

#[test]
fn bracket_pair_then_backspace_restores_text() {
    let mut e = make(&["f"]);
    e.cursor = Pos::new(0, 1);
    e.insert_pair('(', ')');
    assert_eq!(e.lines[0], "f()");
    assert_eq!(e.cursor, Pos::new(0, 2));
    e.backspace();
    assert_eq!(e.lines[0], "f");
    assert_eq!(e.cursor, Pos::new(0, 1));
}

#[test]
fn newline_then_backspace_restores_text() {
    let mut e = make(&["hello world"]);
    e.cursor = Pos::new(0, 5);
    e.insert_newline();
    e.backspace();
    assert_eq!(e.lines, vec!["hello world"]);
    assert_eq!(e.cursor, Pos::new(0, 5));
}

#[test]
fn newline_keeps_indentation() {
    let mut e = make(&["    let x = 1;"]);
    e.cursor = Pos::new(0, 14);
    e.insert_newline();
    assert_eq!(e.lines, vec!["    let x = 1;", "    "]);
    assert_eq!(e.cursor, Pos::new(1, 4));
}

#[test]
fn right_then_left_returns_to_start() {
    let mut e = make(&["ab", "c"]);
    e.cursor = Pos::new(0, 2);
    e.move_right(false);
    assert_eq!(e.cursor, Pos::new(1, 0));
    e.move_left(false);
    assert_eq!(e.cursor, Pos::new(0, 2));
    assert!(e.selection.is_none());
}

#[test]
fn scrolling_brings_cursor_into_view() {
    let mut e = make(&["0", "1", "2", "3", "4", "5", "6", "7", "8", "9"]);
    e.cursor = Pos::new(8, 0);
    e.scroll_to_cursor(3, 10);
    assert_eq!(e.scroll.line, 6);
    e.cursor = Pos::new(2, 0);
    e.scroll_to_cursor(3, 10);
    assert_eq!(e.scroll.line, 2);
}

#[test]
fn select_all_copy_gives_whole_text() {
    let mut e = make(&["one", "two", "three"]);
    e.select_all();
    assert_eq!(e.copy().as_deref(), Some("one\ntwo\nthree"));
    assert_eq!(e.clipboard.as_deref(), Some("one\ntwo\nthree"));
}

#[test]
fn cut_then_paste_restores_line() {
    let mut e = make(&["hello world"]);
    e.selection = Some(Selection { anchor: Pos::new(0, 6), cursor: Pos::new(0, 11) });
    e.cursor = Pos::new(0, 11);
    assert_eq!(e.cut().as_deref(), Some("world"));
    assert_eq!(e.lines[0], "hello ");
    e.paste();
    assert_eq!(e.lines[0], "hello world");
    assert_eq!(e.cursor, Pos::new(0, 11));
}

#[test]
fn cut_across_lines_joins_the_rest() {
    let mut e = make(&["abc", "def", "ghi"]);
    e.selection = Some(Selection { anchor: Pos::new(2, 1), cursor: Pos::new(0, 1) });
    e.cursor = Pos::new(0, 1);
    assert_eq!(e.cut().as_deref(), Some("bc\ndef\ng"));
    assert_eq!(e.lines, vec!["ahi"]);
    assert_eq!(e.cursor, Pos::new(0, 1));
}

#[test]
fn paste_multiline_clipboard() {
    let mut e = make(&["[]"]);
    e.cursor = Pos::new(0, 1);
    e.clipboard = Some("a\nb".to_string());
    e.paste();
    assert_eq!(e.lines, vec!["[a", "b]"]);
    assert_eq!(e.cursor, Pos::new(1, 1));
}

#[test]
fn file_text_round_trip() {
    let e = Editor::from_text("x.txt".to_string(), "first\nsecond\r\n\nlast\n");
    assert_eq!(e.lines, vec!["first", "second", "", "last"]);
    assert_eq!(e.contents(), "first\nsecond\n\nlast");
    let empty = Editor::from_text("y.txt".to_string(), "");
    assert_eq!(empty.lines, vec![""]);
    assert_eq!(empty.contents(), "");
}

#[test]
fn saving_clears_modified() {
    let mut e = make(&["a"]);
    e.insert_char('b');
    assert!(e.modified);
    e.mark_saved();
    assert!(!e.modified);
    assert_eq!(e.filename(), "notes.txt");
}

#[test]
fn filename_is_last_path_component() {
    let e = Editor::from_lines("/home/u/src/main.rs".to_string(), vec!["x".to_string()]);
    assert_eq!(e.filename(), "main.rs");
    let root = Editor::from_lines("/".to_string(), vec![String::new()]);
    assert_eq!(root.filename(), "untitled");
}

#[test]
fn moving_never_changes_text() {
    let mut e = make(&["ab", "cd"]);
    e.move_right(true);
    e.move_down(true);
    e.move_end(false);
    e.move_home(true);
    e.page_down(20);
    e.page_up(20);
    e.select_all();
    let _ = e.copy();
    assert_eq!(e.lines, vec!["ab", "cd"]);
    assert!(!e.modified);
}

#[test]
fn delete_at_end_changes_nothing() {
    let mut e = make(&["ab", "cd"]);
    e.cursor = Pos::new(1, 2);
    e.delete_key();
    assert_eq!(e.lines, vec!["ab", "cd"]);
    assert!(!e.modified);
    e.cursor = Pos::new(0, 2);
    e.delete_key();
    assert_eq!(e.lines, vec!["abcd"]);
    assert!(e.modified);
}

#[test]
fn saved_lines_read_back() {
    let e = make(&["fn main() {", "    x\r", "}"]);
    let back = Editor::from_text("n.txt".to_string(), &e.contents());
    assert_eq!(back.lines, vec!["fn main() {", "    x", "}"]);
    let e = make(&["fn main() {", "", "}"]);
    let back = Editor::from_text("n.txt".to_string(), &e.contents());
    assert_eq!(back.lines, e.lines);
    // A trailing empty line is not read back.
    let e = make(&["a", ""]);
    let back = Editor::from_text("n.txt".to_string(), &e.contents());
    assert_eq!(back.lines, vec!["a"]);
}
