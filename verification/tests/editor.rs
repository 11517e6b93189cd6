use macro_editor::editor::{Editor, Pos};

fn ed(content: &str) -> Editor {
    let lines = if content.is_empty() {
        vec![String::new()]
    } else {
        content.lines().map(|l| l.to_string()).collect()
    };
    Editor::from_lines("test.txt".to_string(), lines)
}

// ── Input ────────────────────────────────────────────────────────────────

#[test]
fn insert_chars() {
    let mut e = ed("");
    e.insert_char('h');
    e.insert_char('i');
    assert_eq!(e.lines[0], "hi");
    assert_eq!(e.cursor.col, 2);
}

#[test]
fn insert_char_mid_line() {
    let mut e = ed("ac");
    e.cursor.col = 1;
    e.insert_char('b');
    assert_eq!(e.lines[0], "abc");
}

#[test]
fn insert_newline_splits() {
    let mut e = ed("hello world");
    e.cursor.col = 5;
    e.insert_newline();
    assert_eq!(e.lines[0], "hello");
    assert_eq!(e.lines[1], " world");
    assert_eq!(e.cursor, Pos::new(1, 0));
}

#[test]
fn insert_newline_at_start() {
    let mut e = ed("hello");
    e.cursor.col = 0;
    e.insert_newline();
    assert_eq!(e.lines[0], "");
    assert_eq!(e.lines[1], "hello");
}

#[test]
fn insert_tab_inserts_spaces() {
    let mut e = ed("");
    e.insert_tab(4);
    assert_eq!(e.lines[0], "    ");
    assert_eq!(e.cursor.col, 4);
}

// ── Backspace / Delete ────────────────────────────────────────────────────

#[test]
fn backspace_removes_char() {
    let mut e = ed("hello");
    e.cursor.col = 5;
    e.backspace();
    assert_eq!(e.lines[0], "hell");
    assert_eq!(e.cursor.col, 4);
}

#[test]
fn backspace_joins_lines() {
    let mut e = ed("foo\nbar");
    e.cursor = Pos::new(1, 0);
    e.backspace();
    assert_eq!(e.lines.len(), 1);
    assert_eq!(e.lines[0], "foobar");
    assert_eq!(e.cursor.col, 3);
}

#[test]
fn backspace_at_very_start_noop() {
    let mut e = ed("hello");
    e.backspace();
    assert_eq!(e.lines[0], "hello");
    assert!(!e.modified);
}

#[test]
fn delete_key_removes_char() {
    let mut e = ed("hello");
    e.cursor.col = 0;
    e.delete_key();
    assert_eq!(e.lines[0], "ello");
}

#[test]
fn delete_key_joins_lines() {
    let mut e = ed("foo\nbar");
    e.cursor = Pos::new(0, 3);
    e.delete_key();
    assert_eq!(e.lines.len(), 1);
    assert_eq!(e.lines[0], "foobar");
}

// ── Cursor movement ───────────────────────────────────────────────────────

#[test]
fn move_right_wraps() {
    let mut e = ed("ab\ncd");
    e.cursor = Pos::new(0, 2);
    e.move_right(false);
    assert_eq!(e.cursor, Pos::new(1, 0));
}

#[test]
fn move_left_wraps() {
    let mut e = ed("ab\ncd");
    e.cursor = Pos::new(1, 0);
    e.move_left(false);
    assert_eq!(e.cursor, Pos::new(0, 2));
}

#[test]
fn move_down_clamps_col() {
    let mut e = ed("hello\nhi");
    e.cursor.col = 5;
    e.move_down(false);
    assert_eq!(e.cursor.col, 2);
}

#[test]
fn home_end() {
    let mut e = ed("hello world");
    e.cursor.col = 5;
    e.move_home(false);
    assert_eq!(e.cursor.col, 0);
    e.move_end(false);
    assert_eq!(e.cursor.col, 11);
}

#[test]
fn page_up_down_clamp() {
    let mut e = ed("a\nb\nc");
    e.cursor.line = 2;
    e.page_up(100);
    assert_eq!(e.cursor.line, 0);
    e.page_down(100);
    assert_eq!(e.cursor.line, 2);
}

// ── Selection ─────────────────────────────────────────────────────────────

#[test]
fn shift_right_creates_selection() {
    let mut e = ed("hello");
    e.move_right(true);
    e.move_right(true);
    let (start, end) = e.selection.as_ref().unwrap().normalized();
    assert_eq!(start.col, 0);
    assert_eq!(end.col, 2);
}

#[test]
fn select_all_covers_content() {
    let mut e = ed("foo\nbar\nbaz");
    e.select_all();
    let (start, end) = e.selection.as_ref().unwrap().normalized();
    assert_eq!(start, Pos::new(0, 0));
    assert_eq!(end, Pos::new(2, 3));
}

// ── Clipboard ─────────────────────────────────────────────────────────────

#[test]
fn copy_single_line() {
    let mut e = ed("hello world");
    e.cursor.col = 0;
    for _ in 0..5 {
        e.move_right(true);
    }
    assert_eq!(e.copy().unwrap(), "hello");
    assert!(e.selection.is_some()); // selection is preserved after copy
}

#[test]
fn cut_removes_selection() {
    let mut e = ed("hello world");
    e.cursor.col = 0;
    for _ in 0..5 {
        e.move_right(true);
    }
    assert_eq!(e.cut().unwrap(), "hello");
    assert_eq!(e.lines[0], " world");
    assert_eq!(e.cursor.col, 0);
}

#[test]
fn paste_inserts_text() {
    let mut e = ed("world");
    e.clipboard = Some("hello ".to_string());
    e.cursor.col = 0;
    e.paste();
    assert_eq!(e.lines[0], "hello world");
}

#[test]
fn copy_multiline() {
    let mut e = ed("foo\nbar\nbaz");
    e.cursor = Pos::new(0, 0);
    e.move_down(true);
    e.move_end(true);
    assert_eq!(e.copy().unwrap(), "foo\nbar");
}

#[test]
fn select_all_then_cut_clears() {
    let mut e = ed("foo\nbar\nbaz");
    e.select_all();
    e.cut();
    assert_eq!(e.lines.len(), 1);
    assert_eq!(e.lines[0], "");
}

// ── dirty_from_line ───────────────────────────────────────────────────────

#[test]
fn dirty_from_line_tracks_minimum() {
    let mut e = ed("a\nb\nc");
    e.dirty_from_line = None;
    e.cursor = Pos::new(2, 0);
    e.insert_char('x');
    assert_eq!(e.dirty_from_line, Some(2));
    e.cursor = Pos::new(1, 0);
    e.insert_char('y');
    assert_eq!(e.dirty_from_line, Some(1));
}

#[test]
fn insert_newline_marks_dirty_at_current_line() {
    let mut e = ed("hello world");
    e.cursor.col = 5;
    e.insert_newline();
    assert_eq!(e.dirty_from_line, Some(0));
}

#[test]
fn backspace_join_marks_dirty_at_joined_line() {
    let mut e = ed("foo\nbar");
    e.cursor = Pos::new(1, 0);
    e.dirty_from_line = None;
    e.backspace();
    assert_eq!(e.dirty_from_line, Some(0));
}

// ── Modified flag ─────────────────────────────────────────────────────────

#[test]
fn modified_set_on_edit() {
    let mut e = ed("hello");
    assert!(!e.modified);
    e.insert_char('!');
    assert!(e.modified);
}

#[test]
fn modified_not_set_on_noop_backspace() {
    let mut e = ed("hello");
    e.backspace(); // cursor at col=0, nothing to delete
    assert!(!e.modified);
}

// ── Unicode ───────────────────────────────────────────────────────────────

#[test]
fn insert_unicode_chars() {
    let mut e = ed("");
    e.insert_char('п');
    e.insert_char('р');
    e.insert_char('и');
    assert_eq!(e.lines[0], "при");
    assert_eq!(e.cursor.col, 3);
}

#[test]
fn backspace_unicode() {
    let mut e = ed("привет");
    e.cursor.col = 6;
    e.backspace();
    assert_eq!(e.lines[0], "приве");
}
