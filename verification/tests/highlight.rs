use macro_editor::highlight::Highlighter;

fn spelled(spans: &[macro_editor::render::ColoredText]) -> String {
    let mut s = String::new();
    for t in spans {
        s.push_str(&t.text);
    }
    s
}

fn lines(v: &[&str]) -> Vec<String> {
    v.iter().map(|l| l.to_string()).collect()
}

#[test]
fn new_highlighter_keeps_theme_name() {
    let h = Highlighter::new("base16-ocean.dark");
    assert_eq!(h.theme_name, "base16-ocean.dark");
    let names = h.theme_names();
    assert!(names.iter().any(|n| n == "base16-ocean.dark"));
}

#[test]
fn new_cache_is_empty() {
    let h = Highlighter::new("base16-ocean.dark");
    let c = h.new_cache("main.rs");
    assert_eq!(c.len(), 0);
    assert!(c.spans.is_empty());
}

#[test]
fn highlight_spells_every_line() {
    let h = Highlighter::new("base16-ocean.dark");
    let mut c = h.new_cache("main.rs");
    let src = lines(&["fn main() {", "    let x = 1;", "}"]);
    h.highlight_from(&src, 0, &mut c);
    assert_eq!(c.len(), 3);
    assert_eq!(c.spans.len(), 3);
    for (i, l) in src.iter().enumerate() {
        assert_eq!(&spelled(&c.spans[i]), l);
    }
    // Keywords and plain text get different colours in a Rust file.
    assert!(c.spans[0].len() > 1);
}

#[test]
fn unknown_theme_still_highlights() {
    let h = Highlighter::new("no such theme");
    let mut c = h.new_cache("notes.unknownext");
    let src = lines(&["plain text here"]);
    h.highlight_from(&src, 0, &mut c);
    assert_eq!(c.len(), 1);
    assert_eq!(spelled(&c.spans[0]), "plain text here");
}

#[test]
fn rehighlight_after_edit_and_deletion() {
    let h = Highlighter::new("base16-ocean.dark");
    let mut c = h.new_cache("a.rs");
    let mut src = lines(&["let a = 1;", "let b = 2;", "let c = 3;", "let d = 4;"]);
    h.highlight_from(&src, 0, &mut c);
    // Change one line in the middle: lines before it stay, it is re-spelled.
    let before0 = spelled(&c.spans[0]);
    src[2] = "let cc = 33;".to_string();
    h.highlight_from(&src, 2, &mut c);
    assert_eq!(c.len(), 4);
    assert_eq!(spelled(&c.spans[0]), before0);
    assert_eq!(spelled(&c.spans[2]), "let cc = 33;");
    assert_eq!(spelled(&c.spans[3]), "let d = 4;");
    // Remove the last two lines: the cache shrinks with the file.
    src.truncate(2);
    h.highlight_from(&src, 2, &mut c);
    assert_eq!(c.len(), 2);
    // Highlighting again from the end of the shorter file keeps it consistent.
    src.push("let e = 5;".to_string());
    h.highlight_from(&src, 2, &mut c);
    assert_eq!(c.len(), 3);
    assert_eq!(spelled(&c.spans[2]), "let e = 5;");
}

#[test]
fn rehighlight_after_insertion_grows_cache() {
    let h = Highlighter::new("base16-ocean.dark");
    let mut c = h.new_cache("a.py");
    let mut src = lines(&["x = 1"]);
    h.highlight_from(&src, 0, &mut c);
    src.push("y = 2".to_string());
    src.push("z = 3".to_string());
    h.highlight_from(&src, 1, &mut c);
    assert_eq!(c.len(), 3);
    assert_eq!(spelled(&c.spans[2]), "z = 3");
}

#[test]
fn where_highlighting_starts_again() {
    assert_eq!(macro_editor::highlight::highlight_start(Some(5), None), Some(0));
    assert_eq!(macro_editor::highlight::highlight_start(None, None), Some(0));
    assert_eq!(macro_editor::highlight::highlight_start(Some(5), Some(3)), Some(3));
    assert_eq!(macro_editor::highlight::highlight_start(Some(2), Some(3)), Some(2));
    assert_eq!(macro_editor::highlight::highlight_start(None, Some(3)), None);
}

#[test]
fn cache_for_a_named_syntax() {
    let h = Highlighter::new("base16-ocean.dark");
    let mut c = h.cache_for(Some("Rust".to_string()));
    let src = lines(&["fn main() {}"]);
    h.highlight_from(&src, 0, &mut c);
    assert!(c.spans[0].len() > 1);
    let mut plain = h.cache_for(Some("No Such Syntax".to_string()));
    h.highlight_from(&src, 0, &mut plain);
    assert_eq!(plain.spans[0].len(), 1);
    assert_eq!(spelled(&plain.spans[0]), "fn main() {}");
}
