use macro_editor::wire::{classify_reply, header_line, parse_usize, read_message, trim, HeaderLine, LspSession, Reply};

#[test]
fn trim_drops_whitespace_at_both_ends() {
    assert_eq!(trim("  a b \t\r\n"), "a b");
    assert_eq!(trim("\u{3000}x\u{a0}"), "x");
    assert_eq!(trim(" \n "), "");
    assert_eq!(trim("abc"), "abc");
}

#[test]
fn parse_usize_reads_decimal_numbers() {
    assert_eq!(parse_usize("0"), Some(0));
    assert_eq!(parse_usize("1234"), Some(1234));
    assert_eq!(parse_usize("+7"), Some(7));
    assert_eq!(parse_usize(""), None);
    assert_eq!(parse_usize("+"), None);
    assert_eq!(parse_usize("-1"), None);
    assert_eq!(parse_usize("12a"), None);
    assert_eq!(parse_usize(" 1"), None);
    assert_eq!(parse_usize("99999999999999999999999"), None);
    assert_eq!(parse_usize(&usize::MAX.to_string()), Some(usize::MAX));
}

#[test]
fn header_lines() {
    assert_eq!(header_line("Content-Length: 52\r\n"), HeaderLine::Length(Some(52)));
    assert_eq!(header_line("Content-Length:7"), HeaderLine::Length(Some(7)));
    assert_eq!(header_line("Content-Length: x\r\n"), HeaderLine::Length(None));
    assert_eq!(header_line("\r\n"), HeaderLine::Blank);
    assert_eq!(header_line(""), HeaderLine::Blank);
    assert_eq!(
        header_line("Content-Type: application/vscode-jsonrpc; charset=utf-8\r\n"),
        HeaderLine::Other
    );
    assert_eq!(header_line("content-length: 3"), HeaderLine::Other);
}

#[test]
fn replies_before_and_after_initialization() {
    assert_eq!(classify_reply(false, true, Some(1), true, None), Reply::Initialized);
    assert_eq!(classify_reply(false, false, None, true, None), Reply::Ignored);
    assert_eq!(classify_reply(false, true, Some(1), false, None), Reply::Ignored);
    assert_eq!(classify_reply(true, true, Some(4), true, Some(4)), Reply::Completions);
    assert_eq!(classify_reply(true, true, Some(3), true, Some(4)), Reply::Ignored);
    assert_eq!(classify_reply(true, true, Some(4), true, None), Reply::Ignored);
    assert_eq!(classify_reply(true, false, None, false, Some(4)), Reply::Ignored);
}

#[test]
fn messages_from_the_server() {
    let init = br#"{"jsonrpc":"2.0","id":1,"result":{"capabilities":{}}}"#;
    assert_eq!(read_message(init, false, None).0, Reply::Initialized);
    assert_eq!(read_message(init, true, None).0, Reply::Ignored);

    let list = br#"{"id":4,"result":[{"label":"push","insertText":"push()"},{"label":"pop"},{"kind":3}]}"#;
    let (r, items) = read_message(list, true, Some(4));
    assert_eq!(r, Reply::Completions);
    let got: Vec<(String, String)> = items.iter().map(|i| (i.label.clone(), i.insert_text.clone())).collect();
    assert_eq!(got, vec![("push".to_string(), "push()".to_string()), ("pop".to_string(), "pop".to_string())]);

    let nested = br#"{"id":5,"result":{"isIncomplete":false,"items":[{"label":"len"}]}}"#;
    let (r, items) = read_message(nested, true, Some(5));
    assert_eq!(r, Reply::Completions);
    assert_eq!(items.len(), 1);
    assert_eq!(items[0].label, "len");

    let (r, items) = read_message(nested, true, Some(6));
    assert_eq!(r, Reply::Ignored);
    assert!(items.is_empty());

    let (r, items) = read_message(b"not json", true, Some(5));
    assert_eq!(r, Reply::Ignored);
    assert!(items.is_empty());
}

#[test]
fn session_ids_and_opened_documents() {
    let mut s = LspSession::new();
    assert_eq!(s.take_id(), 1);
    assert_eq!(s.take_id(), 2);
    assert!(!s.should_open("file:///a.rs"));
    s.receive(Reply::Ignored);
    assert!(!s.initialized);
    s.receive(Reply::Initialized);
    assert!(s.initialized);
    assert!(s.should_open("file:///a.rs"));
    assert!(!s.should_open("file:///a.rs"));
    assert!(s.should_open("file:///b.rs"));
    assert_eq!(s.opened, vec!["file:///a.rs".to_string(), "file:///b.rs".to_string()]);
}
