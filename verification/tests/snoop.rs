use lean_to::json::{parse, Json};
use lean_to::snoop::{
    extract_cursor, extract_did_change, extract_did_close, extract_did_open,
    extract_did_open_version, extract_uri, has_method, is_initialized, CursorPos,
};

fn message(text: &str) -> Json {
    parse(text.as_bytes()).unwrap()
}

#[test]
fn cursor_comes_from_hovers_and_highlights() {
    for method in ["textDocument/hover", "textDocument/documentHighlight"] {
        let m = message(&format!(
            "{{\"method\":\"{method}\",\"params\":{{\"textDocument\":{{\"uri\":\"u\"}},\"position\":{{\"line\":3,\"character\":4}}}}}}"
        ));
        assert_eq!(
            extract_cursor(&m),
            Some(CursorPos { uri: "u".to_string(), line: 3, character: 4 })
        );
    }
}

#[test]
fn other_messages_give_no_cursor() {
    let params = r#""params":{"textDocument":{"uri":"u"},"position":{"line":3,"character":4}}"#;
    assert_eq!(extract_cursor(&message(&format!("{{\"method\":\"x\",{params}}}"))), None);
    assert_eq!(extract_cursor(&message(&format!("{{{params}}}"))), None);
    assert_eq!(
        extract_cursor(&message(
            r#"{"method":"textDocument/hover","params":{"textDocument":{"uri":"u"},"position":{"line":-3,"character":4}}}"#
        )),
        None
    );
    assert_eq!(extract_cursor(&message(r#"{"method":"textDocument/hover"}"#)), None);
}

#[test]
fn the_handshake_ends_with_initialized() {
    assert!(is_initialized(&message(r#"{"method":"initialized"}"#)));
    assert!(!is_initialized(&message(r#"{"method":"initialize"}"#)));
    assert!(!is_initialized(&message("{}")));
    assert!(has_method(&message(r#"{"method":"a"}"#), "a"));
    assert!(!has_method(&message(r#"{"method":1}"#), "a"));
}

#[test]
fn documents_are_named_by_their_messages() {
    let open = message(r#"{"method":"textDocument/didOpen","params":{"textDocument":{"uri":"u","version":-2}}}"#);
    assert_eq!(extract_did_open(&open), Some("u".to_string()));
    assert_eq!(extract_did_open_version(&open), Some(("u".to_string(), -2)));
    assert_eq!(extract_did_close(&open), None);
    assert_eq!(extract_did_change(&open), None);
    assert_eq!(extract_uri(&open), Some("u".to_string()));
    let close = message(r#"{"method":"textDocument/didClose","params":{"textDocument":{"uri":"u"}}}"#);
    assert_eq!(extract_did_close(&close), Some("u".to_string()));
    assert_eq!(extract_did_open(&close), None);
    let change = message(r#"{"method":"textDocument/didChange","params":{"textDocument":{"uri":"u","version":7}}}"#);
    assert_eq!(extract_did_change(&change), Some(("u".to_string(), 7)));
    let bare = message(r#"{"method":"textDocument/didChange","params":{"textDocument":{"uri":"u"}}}"#);
    assert_eq!(extract_did_change(&bare), None);
}

#[test]
fn positions_are_compared_and_copied() {
    let a = CursorPos { uri: "u".to_string(), line: 1, character: 2 };
    assert!(a.same(&a.copy()));
    assert!(!a.same(&CursorPos { uri: "u".to_string(), line: 1, character: 3 }));
    assert!(!a.same(&CursorPos { uri: "v".to_string(), line: 1, character: 2 }));
}
