use lean_to::documents::{apply_change, position_to_char, trim_line_break, Documents};
use lean_to::json::{parse, Json};
use lean_to::text::chars_of;
use ropey::Rope;

fn json_of(text: &str) -> Json {
    parse(text.as_bytes()).unwrap()
}

fn opening(uri: &str, text: &str) -> Json {
    let doc = Json::object().with("uri", Json::text(uri)).with("text", Json::text(text));
    Json::object()
        .with("method", Json::text("textDocument/didOpen"))
        .with("params", Json::object().with("textDocument", doc))
}

fn changing(uri: &str, edits: &str) -> Json {
    Json::object().with("method", Json::text("textDocument/didChange")).with(
        "params",
        Json::object()
            .with("textDocument", Json::object().with("uri", Json::text(uri)))
            .with("contentChanges", json_of(edits)),
    )
}

fn text_in(d: &mut Documents, uri: &str) -> String {
    d.full_text(uri).unwrap().to_string()
}

#[test]
fn a_document_is_opened_read_and_closed() {
    let mut d = Documents::new();
    assert!(d.full_text("u").is_none());
    d.handle_message(&opening("u", "a\nb"));
    d.handle_message(&opening("v", "other"));
    assert_eq!(text_in(&mut d, "u"), "a\nb");
    assert_eq!(text_in(&mut d, "u"), "a\nb");
    assert_eq!(d.line_count("u"), Some(2));
    d.handle_message(&json_of(
        r#"{"method":"textDocument/didClose","params":{"textDocument":{"uri":"u"}}}"#,
    ));
    assert!(d.full_text("u").is_none());
    assert_eq!(d.line_count("u"), None);
    assert_eq!(text_in(&mut d, "v"), "other");
    d.handle_message(&opening("u", "c"));
    assert_eq!(text_in(&mut d, "u"), "c");
}

#[test]
fn a_document_without_a_text_is_empty() {
    let mut d = Documents::new();
    d.handle_message(&json_of(
        r#"{"method":"textDocument/didOpen","params":{"textDocument":{"uri":"u"}}}"#,
    ));
    assert_eq!(text_in(&mut d, "u"), "");
    assert_eq!(d.line_count("u"), Some(1));
    assert_eq!(d.line_text("u", 0), Some(String::new()));
}

#[test]
fn edits_are_carried_out_in_turn() {
    let mut d = Documents::new();
    d.handle_message(&opening("u", "hello\nworld"));
    assert_eq!(text_in(&mut d, "u"), "hello\nworld");
    d.handle_message(&changing(
        "u",
        r#"[{"range":{"start":{"line":0,"character":1},"end":{"line":1,"character":1}},"text":"i, w"},
            {"range":{"start":{"line":0,"character":0},"end":{"line":0,"character":1}},"text":"H"}]"#,
    ));
    assert_eq!(text_in(&mut d, "u"), "Hi, world");
    d.handle_message(&changing("u", r#"[{"text":"all new"}]"#));
    assert_eq!(text_in(&mut d, "u"), "all new");
}

#[test]
fn edits_that_make_no_sense_change_nothing() {
    let mut d = Documents::new();
    d.handle_message(&opening("u", "abc"));
    for edit in [
        r#"[{"range":{"start":{"line":0,"character":2},"end":{"line":0,"character":1}},"text":"x"}]"#,
        r#"[{"range":{"start":{"line":0,"character":2}},"text":"x"}]"#,
        r#"[{"range":null,"text":"x"}]"#,
        r#"[{"range":{"start":{"line":-1,"character":2},"end":{"line":0,"character":3}},"text":"x"}]"#,
        r#"[]"#,
    ] {
        d.handle_message(&changing("u", edit));
        assert_eq!(text_in(&mut d, "u"), "abc");
    }
    d.handle_message(&changing("unknown", r#"[{"text":"x"}]"#));
    assert!(d.full_text("unknown").is_none());
}

#[test]
fn other_messages_are_ignored() {
    let mut d = Documents::new();
    d.handle_message(&opening("u", "abc"));
    d.handle_message(&json_of(r#"{"method":"textDocument/didSave","params":{"textDocument":{"uri":"u"}}}"#));
    d.handle_message(&json_of(r#"{"method":"textDocument/didClose"}"#));
    d.handle_message(&json_of("[1]"));
    assert_eq!(text_in(&mut d, "u"), "abc");
}

#[test]
fn positions_beyond_their_line_are_cut_short() {
    let rope = Rope::from_str("ab\ncd");
    let at = |l: u64, c: u64| {
        position_to_char(
            &rope,
            Some(&Json::object().with("line", Json::number(l)).with("character", Json::number(c))),
        )
    };
    assert_eq!(at(0, 1), Some(1));
    assert_eq!(at(0, 99), Some(3));
    assert_eq!(at(1, 1), Some(4));
    assert_eq!(at(1, 99), Some(5));
    assert_eq!(at(7, 0), Some(5));
    assert_eq!(at(0, u64::MAX), Some(3));
    assert_eq!(at(u64::MAX, u64::MAX), Some(5));
    assert_eq!(position_to_char(&rope, None), None);
    assert_eq!(position_to_char(&rope, Some(&Json::Null)), None);
}

#[test]
fn columns_are_utf16_units() {
    let mut rope = Rope::from_str("\u{1D538}b");
    let pos = |c: u64| Json::object().with("line", Json::number(0)).with("character", Json::number(c));
    assert_eq!(position_to_char(&rope, Some(&pos(0))), Some(0));
    assert_eq!(position_to_char(&rope, Some(&pos(1))), Some(0));
    assert_eq!(position_to_char(&rope, Some(&pos(2))), Some(1));
    assert_eq!(position_to_char(&rope, Some(&pos(3))), Some(2));
    apply_change(
        &mut rope,
        &json_of(
            r#"{"range":{"start":{"line":0,"character":2},"end":{"line":0,"character":3}},"text":"x"}"#,
        ),
    );
    assert_eq!(rope.to_string(), "\u{1D538}x");
}

#[test]
fn lines_end_at_every_line_break() {
    let mut d = Documents::new();
    d.handle_message(&opening("u", "a\r\nb\nc\rd\u{b}e\u{c}f\u{85}g\u{2028}h\u{2029}i"));
    assert_eq!(d.line_count("u"), Some(9));
    assert_eq!(d.line_text("u", 0), Some("a".to_string()));
    assert_eq!(d.line_text("u", 1), Some("b".to_string()));
    assert_eq!(d.line_text("u", 2), Some("c\r".to_string()));
    assert_eq!(d.line_text("u", 3), Some("d\u{b}".to_string()));
    assert_eq!(d.line_text("u", 8), Some("i".to_string()));
    assert_eq!(d.line_text("u", 9), None);
    assert_eq!(d.line_text("u", u64::MAX), None);
    assert_eq!(d.line_text("v", 0), None);
}

#[test]
fn line_lengths_leave_the_break_out() {
    let mut d = Documents::new();
    d.handle_message(&opening("u", "\u{1D538}b\r\n\nxyz"));
    assert_eq!(d.line_length_utf16("u", 0), Some(3));
    assert_eq!(d.line_length_utf16("u", 1), Some(0));
    assert_eq!(d.line_length_utf16("u", 2), Some(3));
    assert_eq!(d.line_length_utf16("u", 3), None);
    assert_eq!(d.line_length_utf16("v", 0), None);
}

#[test]
fn only_line_feeds_are_trimmed() {
    let trimmed = |s: &str| trim_line_break(&chars_of(s)).iter().collect::<String>();
    assert_eq!(trimmed("a\r\n"), "a");
    assert_eq!(trimmed("a\n"), "a");
    assert_eq!(trimmed("a\r"), "a\r");
    assert_eq!(trimmed("\n"), "");
    assert_eq!(trimmed(""), "");
    assert_eq!(trimmed("a\n\n"), "a\n");
}

#[test]
fn every_index_can_be_addressed() {
    let text = "ab\r\nc\u{1D538}d\n\u{2028}e";
    let rope = Rope::from_str(text);
    for i in 0..=rope.len_chars() {
        let line = (1..=i)
            .filter(|k| {
                let c = rope.char(k - 1);
                let ends = "\n\u{b}\u{c}\r\u{85}\u{2028}\u{2029}".contains(c);
                ends && !(c == '\r' && *k < rope.len_chars() && rope.char(*k) == '\n')
            })
            .count();
        let start = rope.line_to_char(line);
        let column = rope.slice(start..i).len_utf16_cu();
        let pos = Json::object()
            .with("line", Json::number(line as u64))
            .with("character", Json::number(column as u64));
        assert_eq!(position_to_char(&rope, Some(&pos)), Some(i));
    }
}

#[test]
fn an_edit_can_be_undone() {
    let mut rope = Rope::from_str("a\u{1F600}b\r\nc\u{e9}d");
    let edit = |sl: u64, sc: u64, el: u64, ec: u64, text: &str| {
        let at = |l: u64, c: u64| {
            Json::object().with("line", Json::number(l)).with("character", Json::number(c))
        };
        Json::object()
            .with("range", Json::object().with("start", at(sl, sc)).with("end", at(el, ec)))
            .with("text", Json::text(text))
    };
    apply_change(&mut rope, &edit(0, 1, 1, 2, "xyz"));
    assert_eq!(rope.to_string(), "axyzd");
    apply_change(&mut rope, &edit(0, 1, 0, 4, "\u{1F600}b\r\nc\u{e9}"));
    assert_eq!(rope.to_string(), "a\u{1F600}b\r\nc\u{e9}d");
}
