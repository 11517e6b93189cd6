use macro_editor::completion::CompletionState;
use macro_editor::editor::Pos;
use macro_editor::lsp::CompletionItem;

fn item(l: &str) -> CompletionItem {
    CompletionItem { label: l.to_string(), insert_text: l.to_string() }
}

fn state() -> CompletionState {
    CompletionState::new(vec![item("println"), item("print"), item("Parse"), item("main")], 4, 0)
}

#[test]
fn refilter_keeps_matching_items_case_insensitively() {
    let s = state().refilter("let pr", Pos::new(0, 6)).unwrap();
    let labels: Vec<&str> = s.filtered.iter().map(|i| i.label.as_str()).collect();
    assert_eq!(labels, vec!["println", "print"]);
    let s = state().refilter("let pa", Pos::new(0, 6)).unwrap();
    assert_eq!(s.filtered[0].label, "Parse");
}

#[test]
fn refilter_dismisses_when_cursor_leaves_word() {
    assert!(state().refilter("let pr", Pos::new(1, 2)).is_none());
    assert!(state().refilter("let pr", Pos::new(0, 3)).is_none());
    assert!(state().refilter("let zz", Pos::new(0, 6)).is_none());
}

#[test]
fn refilter_clamps_selection() {
    let mut s = state();
    s.selected = 3;
    let s = s.refilter("let pr", Pos::new(0, 6)).unwrap();
    assert_eq!(s.selected, 1);
}

#[test]
fn selection_wraps_both_ways() {
    let mut s = state();
    s.select_prev();
    assert_eq!(s.selected, 3);
    s.select_next();
    assert_eq!(s.selected, 0);
    s.select_next();
    assert_eq!(s.selected, 1);
    assert_eq!(s.chosen().unwrap().label, "print");
}

#[test]
fn refilter_with_empty_word_at_line_end_keeps_everything() {
    let s = CompletionState::new(vec![item("println"), item("main")], 4, 0);
    let s = s.refilter("let ", Pos::new(0, 4)).unwrap();
    assert_eq!(s.filtered.len(), 2);
}
