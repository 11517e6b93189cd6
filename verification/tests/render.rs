use macro_editor::editor::{Pos, Selection};
use macro_editor::render::{build_line_runs, completion_popup_rect, tab_at, ColoredText, Rgb, SpanStyle};

const RED: Rgb = Rgb { r: 255, g: 0, b: 0 };
const BLUE: Rgb = Rgb { r: 0, g: 0, b: 255 };

fn spans() -> Vec<ColoredText> {
    vec![
        ColoredText { fg: RED, text: "let".to_string() },
        ColoredText { fg: BLUE, text: " x = 1;".to_string() },
    ]
}

#[test]
fn runs_follow_colours_and_view() {
    let r = build_line_runs(&spans(), 0, 100, 0, &None);
    assert_eq!(r.len(), 2);
    assert_eq!(r[0].style, SpanStyle::Fg(RED));
    assert_eq!(r[0].text, "let");
    assert_eq!(r[1].text, " x = 1;");
    let r = build_line_runs(&spans(), 2, 3, 0, &None);
    assert_eq!(r.len(), 2);
    assert_eq!(r[0].text, "t");
    assert_eq!(r[1].text, " x");
}

#[test]
fn runs_mark_selection() {
    let sel = Some(Selection { anchor: Pos::new(0, 5), cursor: Pos::new(0, 1) });
    let r = build_line_runs(&spans(), 0, 100, 0, &sel);
    let texts: Vec<&str> = r.iter().map(|x| x.text.as_str()).collect();
    assert_eq!(texts, vec!["l", "et x", " = 1;"]);
    assert_eq!(r[1].style, SpanStyle::Selected);
    // a line inside a multi-line selection is selected to its end
    let sel = Some(Selection { anchor: Pos::new(0, 5), cursor: Pos::new(2, 1) });
    let r = build_line_runs(&spans(), 0, 100, 1, &sel);
    assert_eq!(r.len(), 1);
    assert_eq!(r[0].style, SpanStyle::Selected);
}

#[test]
fn tab_hits() {
    let w = vec![5, 7, 3];
    assert_eq!(tab_at(&w, 0), Some(0));
    assert_eq!(tab_at(&w, 4), Some(0));
    assert_eq!(tab_at(&w, 5), Some(1));
    assert_eq!(tab_at(&w, 12), Some(1));
    assert_eq!(tab_at(&w, 13), Some(2));
    assert_eq!(tab_at(&w, 17), None);
}

#[test]
fn popup_below_or_above_cursor() {
    assert_eq!(completion_popup_rect(&vec![3, 12, 5], 10, 5, 80, 24), (10, 6, 14, 5));
    assert_eq!(completion_popup_rect(&vec![3], 78, 22, 80, 24), (70, 19, 10, 3));
    assert_eq!(completion_popup_rect(&vec![100; 9], 0, 0, 80, 24), (0, 1, 40, 10));
}

#[test]
fn popup_lists_at_most_eight() {
    assert_eq!(macro_editor::render::popup_rows(3, 1), (3, 1));
    assert_eq!(macro_editor::render::popup_rows(12, 5), (8, 5));
    assert_eq!(macro_editor::render::popup_rows(4, 9), (4, 3));
}
