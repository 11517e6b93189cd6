use macro_editor::editor::Pos;
use macro_editor::screen::{
    cursor_cell, decimal_string, editor_layout, line_number_label, new_file_popup, status_line,
    tab_label, tree_label, Area,
};

#[test]
fn layout_with_line_numbers() {
    let inner = Area { x: 31, y: 1, width: 80, height: 20 };
    let l = editor_layout(inner, true).unwrap();
    assert_eq!(l.tabs, Area { x: 31, y: 1, width: 80, height: 1 });
    assert_eq!(l.content, Area { x: 31, y: 2, width: 80, height: 18 });
    assert_eq!(l.status, Area { x: 31, y: 20, width: 80, height: 1 });
    assert_eq!(l.text, Area { x: 36, y: 2, width: 75, height: 18 });
    assert_eq!(l.gutter, 5);
}

#[test]
fn layout_without_line_numbers_and_too_small() {
    let inner = Area { x: 0, y: 0, width: 3, height: 3 };
    let l = editor_layout(inner, false).unwrap();
    assert_eq!(l.text, Area { x: 0, y: 1, width: 3, height: 1 });
    assert_eq!(l.gutter, 0);
    let narrow = editor_layout(inner, true).unwrap();
    assert_eq!(narrow.text.width, 0);
    assert!(editor_layout(Area { x: 0, y: 0, width: 10, height: 2 }, true).is_none());
}

#[test]
fn cursor_cell_is_offset_by_scroll() {
    let text = Area { x: 36, y: 2, width: 75, height: 18 };
    let content = Area { x: 31, y: 2, width: 80, height: 18 };
    assert_eq!(cursor_cell(text, content, Pos::new(12, 7), Pos::new(10, 5)), (38, 4));
    assert_eq!(cursor_cell(text, content, Pos::new(3, 1), Pos::new(10, 5)), (36, 2));
}

#[test]
fn new_file_popup_is_centered() {
    let r = new_file_popup(Area { x: 0, y: 0, width: 100, height: 30 });
    assert_eq!(r, Area { x: 25, y: 12, width: 50, height: 5 });
    let small = new_file_popup(Area { x: 2, y: 1, width: 20, height: 4 });
    assert_eq!(small, Area { x: 4, y: 1, width: 16, height: 5 });
}

#[test]
fn decimal_numbers() {
    assert_eq!(decimal_string(0), "0");
    assert_eq!(decimal_string(7), "7");
    assert_eq!(decimal_string(10), "10");
    assert_eq!(decimal_string(90210), "90210");
    assert_eq!(decimal_string(usize::MAX), usize::MAX.to_string());
}

#[test]
fn line_numbers_are_right_aligned() {
    assert_eq!(line_number_label(0), "   1 ");
    assert_eq!(line_number_label(41), "  42 ");
    assert_eq!(line_number_label(9998), "9999 ");
    assert_eq!(line_number_label(12344), "12345 ");
}

#[test]
fn labels() {
    assert_eq!(tree_label(0, true, false, "src"), "▸ src");
    assert_eq!(tree_label(1, true, true, "bin"), "  ▾ bin");
    assert_eq!(tree_label(2, false, false, "main.rs"), "      main.rs");
    assert_eq!(tab_label("main.rs", false), " main.rs ");
    assert_eq!(tab_label("main.rs", true), " main.rs ● ");
}

#[test]
fn status_bar_text() {
    assert_eq!(
        status_line(true, Pos::new(4, 0), "rs", "Saved: a.rs"),
        " ● | Ln 5 Col 1 | rs | Saved: a.rs"
    );
    assert_eq!(status_line(false, Pos::new(0, 9), "txt", ""), " · | Ln 1 Col 10 | txt | ");
}
