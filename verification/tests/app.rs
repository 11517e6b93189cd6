use macro_editor::app::{Action, App, Config, Focus, KeyInput, KeyPress, MouseInput, OpenStep};
use macro_editor::editor::{Editor, Pos};
use macro_editor::file_tree::{DirChild, DirListing, FileTree};
use macro_editor::lsp::CompletionItem;

fn key(code: KeyInput) -> KeyPress {
    KeyPress { code, ctrl: false, shift: false, alt: false }
}

fn ctrl(c: char) -> KeyPress {
    KeyPress { code: KeyInput::Char(c), ctrl: true, shift: false, alt: false }
}

fn tree() -> FileTree {
    let listing = DirListing {
        dir: "/p".to_string(),
        children: vec![DirChild { path: "/p/a.rs".to_string(), name: "a.rs".to_string(), is_dir: false }],
    };
    FileTree::new("/p".to_string(), &vec![listing])
}

fn app_with(files: &[(&str, &str)]) -> App {
    let mut app = App::new(Config::defaults(), tree());
    for (path, text) in files {
        assert_eq!(app.open_file_begin(path), OpenStep::Read);
        app.open_file_done(Editor::from_text(path.to_string(), text), path);
    }
    app
}

#[test]
fn opening_files_activates_them() {
    let mut app = app_with(&[("/p/a.rs", "fn a() {}"), ("/p/b.rs", "")]);
    assert_eq!(app.active_editor, Some(1));
    assert_eq!(app.focus, Focus::Editor);
    assert_eq!(app.status_msg, "Opened: /p/b.rs");
    assert_eq!(app.open_file_begin("/p/a.rs"), OpenStep::AlreadyOpen);
    assert_eq!(app.active_editor, Some(0));
}

#[test]
fn at_most_eight_files() {
    let names: Vec<String> = (0..8).map(|i| format!("/p/f{i}.rs")).collect();
    let files: Vec<(&str, &str)> = names.iter().map(|n| (n.as_str(), "")).collect();
    let mut app = app_with(&files);
    assert_eq!(app.open_file_begin("/p/z.rs"), OpenStep::TooMany);
    assert_eq!(app.editors.len(), 8);
    assert_eq!(app.status_msg, "Max 8 files open. Close one with Ctrl+Q first.");
}

#[test]
fn ctrl_q_twice_closes_unsaved_file() {
    let mut app = app_with(&[("/p/a.rs", "x")]);
    app.handle_key(key(KeyInput::Char('y')));
    assert!(app.editors[0].modified);
    assert_eq!(app.handle_key(ctrl('q')), Action::Nothing);
    assert_eq!(app.editors.len(), 1);
    assert!(app.pending_force_close);
    assert_eq!(app.status_msg, "Unsaved changes! Ctrl+S to save, Ctrl+Q again to discard");
    assert_eq!(app.handle_key(ctrl('q')), Action::EditorClosed);
    assert_eq!(app.editors.len(), 0);
    assert_eq!(app.active_editor, None);
    assert_eq!(app.focus, Focus::Tree);
    app.handle_key(ctrl('q'));
    assert!(app.should_quit);
}

#[test]
fn other_key_cancels_pending_close() {
    let mut app = app_with(&[("/p/a.rs", "x")]);
    app.handle_key(key(KeyInput::Char('y')));
    app.handle_key(ctrl('q'));
    app.handle_key(key(KeyInput::Left));
    assert!(!app.pending_force_close);
    assert_eq!(app.status_msg, "");
    app.handle_key(ctrl('q'));
    assert_eq!(app.editors.len(), 1);
}

#[test]
fn ctrl_s_asks_to_save() {
    let mut app = app_with(&[("/p/a.rs", "x")]);
    assert_eq!(app.handle_key(ctrl('s')), Action::Save(0));
    app.save_done(0);
    assert_eq!(app.status_msg, "Saved: a.rs");
}

#[test]
fn typing_asks_for_completions_and_tab_indents() {
    let mut app = app_with(&[("/p/a.rs", "")]);
    assert_eq!(app.handle_key(key(KeyInput::Char('p'))), Action::AutoComplete(0));
    assert_eq!(app.handle_key(key(KeyInput::Tab)), Action::Nothing);
    assert_eq!(app.editors[0].lines[0], "p    ");
}

fn item(l: &str, t: &str) -> CompletionItem {
    CompletionItem { label: l.to_string(), insert_text: t.to_string() }
}

#[test]
fn completion_popup_flow() {
    let mut app = app_with(&[("/p/a.rs", "let x = pr")]);
    app.editors[0].cursor = Pos::new(0, 10);
    app.receive_completions(0, vec![item("print", "print!()"), item("println", "println!()"), item("main", "main")]);
    let c = app.completion.as_ref().unwrap();
    assert_eq!(c.word_start, 8);
    assert_eq!(c.filtered.len(), 2);
    app.handle_key(key(KeyInput::Down));
    assert_eq!(app.completion.as_ref().unwrap().selected, 1);
    app.handle_key(key(KeyInput::Char('i')));
    assert_eq!(app.completion.as_ref().unwrap().filtered.len(), 2);
    app.handle_key(key(KeyInput::Enter));
    assert!(app.completion.is_none());
    assert_eq!(app.editors[0].lines[0], "let x = println!()");
    assert_eq!(app.editors[0].cursor.col, 18);
}

#[test]
fn tab_applies_completion() {
    let mut app = app_with(&[("/p/a.rs", "ma")]);
    app.editors[0].cursor = Pos::new(0, 2);
    app.receive_completions(0, vec![item("main", "main()")]);
    app.handle_key(key(KeyInput::Tab));
    assert_eq!(app.editors[0].lines[0], "main()");
}

#[test]
fn esc_closes_popup_then_focuses_tree() {
    let mut app = app_with(&[("/p/a.rs", "ma")]);
    app.editors[0].cursor = Pos::new(0, 2);
    app.receive_completions(0, vec![item("main", "main")]);
    app.handle_key(key(KeyInput::Esc));
    assert!(app.completion.is_none());
    assert_eq!(app.focus, Focus::Editor);
    app.handle_key(key(KeyInput::Esc));
    assert_eq!(app.focus, Focus::Tree);
}

#[test]
fn moving_dismisses_popup() {
    let mut app = app_with(&[("/p/a.rs", "ma")]);
    app.editors[0].cursor = Pos::new(0, 2);
    app.receive_completions(0, vec![item("main", "main")]);
    app.handle_key(key(KeyInput::Left));
    assert!(app.completion.is_none());
    assert_eq!(app.editors[0].cursor.col, 1);
}

#[test]
fn empty_answer_opens_no_popup() {
    let mut app = app_with(&[("/p/a.rs", "ma")]);
    app.receive_completions(0, vec![]);
    assert!(app.completion.is_none());
}

#[test]
fn tree_keys() {
    let mut app = app_with(&[]);
    assert_eq!(app.focus, Focus::Tree);
    assert_eq!(app.handle_key(key(KeyInput::Enter)), Action::ActivateTree);
    assert_eq!(app.handle_key(ctrl('q')), Action::Nothing);
    assert!(app.should_quit);
}

#[test]
fn new_file_prompt() {
    let mut app = app_with(&[]);
    app.handle_key(ctrl('n'));
    assert_eq!(app.creating_file.as_deref(), Some(""));
    for c in "src/x.rs".chars() {
        app.handle_key(key(KeyInput::Char(c)));
    }
    app.handle_key(key(KeyInput::Backspace));
    assert_eq!(app.creating_file.as_deref(), Some("src/x.r"));
    assert_eq!(app.handle_key(key(KeyInput::Enter)), Action::CreateFile);
    app.handle_key(key(KeyInput::Esc));
    assert!(app.creating_file.is_none());
}

#[test]
fn mouse_selects_tab_and_places_cursor() {
    let mut app = app_with(&[("/p/a.rs", "hello\nworld"), ("/p/bb.rs", "")]);
    // tabs start after the tree (30) and its border: " a.rs " is 7 wide
    app.handle_mouse(MouseInput::LeftDown { x: 31 + 3, y: 1 }, 80);
    assert_eq!(app.active_editor, Some(0));
    app.handle_mouse(MouseInput::LeftDown { x: 31 + 5 + 3, y: 3 }, 80);
    assert_eq!(app.editors[0].cursor, Pos::new(1, 3));
    app.handle_mouse(MouseInput::ScrollUp, 80);
    assert_eq!(app.editors[0].cursor, Pos::new(0, 3));
    assert_eq!(app.handle_mouse(MouseInput::LeftDown { x: 2, y: 4 }, 80), Action::ClickTree(3));
    assert_eq!(app.focus, Focus::Tree);
}

#[test]
fn enter_completes_after_select_all() {
    let mut app = app_with(&[("/p/a.rs", "ma")]);
    app.editors[0].cursor = Pos::new(0, 2);
    app.receive_completions(0, vec![item("main", "main()")]);
    app.handle_key(ctrl('a'));
    assert!(app.editors[0].selection.is_some());
    assert!(app.completion.is_some());
    app.handle_key(key(KeyInput::Enter));
    assert_eq!(app.editors[0].lines[0], "main()");
    assert_eq!(app.editors[0].cursor, Pos::new(0, 6));
    assert!(app.editors[0].selection.is_none());
    assert!(app.completion.is_none());
}

#[test]
fn drag_selects_from_the_click() {
    let mut app = app_with(&[("/p/a.rs", "hello world\nsecond line")]);
    // Tree 30 wide, border, 5 columns of line numbers: text starts at x = 36; rows at y = 2.
    app.handle_mouse(MouseInput::LeftDown { x: 38, y: 2 }, 100);
    assert_eq!(app.editors[0].cursor, Pos::new(0, 2));
    assert!(app.editors[0].selection.is_none());
    app.handle_mouse(MouseInput::LeftDrag { x: 40, y: 3 }, 100);
    let sel = app.editors[0].selection.unwrap();
    assert_eq!(sel.anchor, Pos::new(0, 2));
    assert_eq!(sel.cursor, Pos::new(1, 4));
    app.handle_mouse(MouseInput::LeftDrag { x: 36, y: 2 }, 100);
    let sel = app.editors[0].selection.unwrap();
    assert_eq!(sel.anchor, Pos::new(0, 2));
    assert_eq!(sel.cursor, Pos::new(0, 0));
    assert_eq!(app.editors[0].lines, vec!["hello world", "second line"]);
    // Dragging over the tree does nothing.
    app.handle_mouse(MouseInput::LeftDrag { x: 3, y: 3 }, 100);
    assert_eq!(app.editors[0].cursor, Pos::new(0, 0));
}
