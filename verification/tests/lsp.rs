use macro_editor::lsp::{completion_items, file_uri, language_id, server_command, CompletionCandidate};

#[test]
fn language_ids() {
    assert_eq!(language_id("rs"), Some("rust"));
    assert_eq!(language_id("pyi"), Some("python"));
    assert_eq!(language_id("hxx"), Some("cpp"));
    assert_eq!(language_id("cjs"), Some("javascript"));
    assert_eq!(language_id("tsx"), Some("typescriptreact"));
    assert_eq!(language_id("go"), Some("go"));
    assert_eq!(language_id("md"), None);
    assert_eq!(language_id(""), None);
}

#[test]
fn server_commands() {
    assert_eq!(server_command("rust"), Some(("rust-analyzer", &[][..])));
    assert_eq!(server_command("cpp"), Some(("clangd", &[][..])));
    assert_eq!(server_command("typescript"), Some(("typescript-language-server", &["--stdio"][..])));
    assert_eq!(server_command("cobol"), None);
}

#[test]
fn file_uris() {
    assert_eq!(file_uri("/home/u/a.rs"), "file:///home/u/a.rs");
}

fn cand(label: Option<&str>, insert: Option<&str>) -> CompletionCandidate {
    CompletionCandidate { label: label.map(|s| s.to_string()), insert_text: insert.map(|s| s.to_string()) }
}

#[test]
fn completion_items_default_insert_text_and_skip_unlabelled() {
    let items = completion_items(&vec![cand(Some("foo"), None), cand(None, Some("x")), cand(Some("bar"), Some("bar()"))]);
    assert_eq!(items.len(), 2);
    assert_eq!(items[0].label, "foo");
    assert_eq!(items[0].insert_text, "foo");
    assert_eq!(items[1].insert_text, "bar()");
}

#[test]
fn completion_items_look_at_first_twenty_entries() {
    let mut cands: Vec<CompletionCandidate> = (0..25).map(|i| cand(Some(&format!("w{i}")), None)).collect();
    cands[0].label = None;
    let items = completion_items(&cands);
    assert_eq!(items.len(), 19);
    assert_eq!(items[18].label, "w19");
}
