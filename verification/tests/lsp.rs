use lean_to::documents::Documents;
use lean_to::framing::{encode_frame, read_message};
use lean_to::json::{parse, Json};
use lean_to::lsp::{
    extract_result, is_initialize_response, maybe_inject_capabilities,
    maybe_inject_inlay_capability, on_client_message, on_server_message, ClientAction, LspHandle,
    Peer, ServerAction, ERROR_CANCELLED,
};
use lean_to::state::{Config, StateEvent, StateHandle};

struct Desk {
    handle: LspHandle<u32>,
    state: StateHandle,
    documents: Documents,
}

fn desk() -> Desk {
    Desk { handle: LspHandle::new(), state: StateHandle::new(), documents: Documents::new() }
}

impl Desk {
    fn from_editor(&mut self, body: &str) -> ClientAction<u32> {
        on_client_message(
            &mut self.handle,
            &mut self.state,
            &mut self.documents,
            b"H:".to_vec(),
            body.as_bytes().to_vec(),
        )
    }

    fn from_server(&mut self, body: &str) -> ServerAction<u32> {
        on_server_message(
            &mut self.handle,
            &mut self.state,
            b"H:".to_vec(),
            body.as_bytes().to_vec(),
        )
    }
}

fn body_of(frame: &[u8]) -> String {
    String::from_utf8(read_message(frame).unwrap().unwrap().1).unwrap()
}

fn doc(text: &str) -> Json {
    parse(text.as_bytes()).unwrap()
}

fn told(j: &Json) -> String {
    String::from_utf8(j.to_bytes()).unwrap()
}

#[test]
fn identifiers_are_counted() {
    let mut h: LspHandle<u32> = LspHandle::new();
    assert_eq!(h.alloc_id(), "leanto:0");
    assert_eq!(h.alloc_id(), "leanto:1");
    let (id, frame) = h.request_client("m", Json::Null, 7);
    assert_eq!(id, "leanto:2");
    assert_eq!(
        body_of(&frame),
        r#"{"id":"leanto:2","jsonrpc":"2.0","method":"m","params":null}"#
    );
}

#[test]
fn messages_are_framed() {
    let mut h: LspHandle<u32> = LspHandle::new();
    let params = doc(r#"{"a":1}"#);
    let note = r#"{"jsonrpc":"2.0","method":"m","params":{"a":1}}"#;
    assert_eq!(h.notify("m", params.copy()), encode_frame(note.as_bytes()));
    assert_eq!(h.notify_client("m", params.copy()), encode_frame(note.as_bytes()));
    assert_eq!(
        body_of(&h.respond_to_client(Json::number(3), params.copy())),
        r#"{"id":3,"jsonrpc":"2.0","result":{"a":1}}"#
    );
    assert_eq!(
        body_of(&h.request_with_id("i", "m", params, 1)),
        r#"{"id":"i","jsonrpc":"2.0","method":"m","params":{"a":1}}"#
    );
}

#[test]
fn answers_reach_the_one_who_waits() {
    let mut d = desk();
    let id = d.handle.alloc_id();
    d.handle.request_with_id(&id, "m", Json::Null, 42);
    let answer = r#"{"jsonrpc":"2.0","id":"leanto:0","result":[1]}"#;
    match d.from_server(answer) {
        ServerAction::Settle(Some((w, Ok(v)))) => {
            assert_eq!(w, 42);
            assert_eq!(told(&v), "[1]");
        }
        _ => panic!("the answer was not handed over"),
    }
    assert!(matches!(d.from_server(answer), ServerAction::Settle(None)));
    d.handle.request_with_id("leanto:9", "m", Json::Null, 43);
    match d.from_editor(r#"{"id":"leanto:9","error":{"code":-5,"message":"no"}}"#) {
        ClientAction::Settle(Some((w, Err(e)))) => {
            assert_eq!((w, e.code, e.message.as_str()), (43, -5, "no"));
        }
        _ => panic!("the answer was not handed over"),
    }
}

#[test]
fn results_are_read() {
    assert_eq!(told(&extract_result(&doc(r#"{"result":7}"#)).unwrap()), "7");
    assert!(extract_result(&doc("{}")).unwrap().is_null());
    let e = extract_result(&doc(r#"{"result":7,"error":{}}"#)).unwrap_err();
    assert_eq!((e.code, e.message.as_str()), (-1, ""));
    assert!(e.copy() == e);
}

#[test]
fn requests_are_cancelled_and_abandoned() {
    let mut h: LspHandle<u32> = LspHandle::new();
    h.request_with_id("a", "m", Json::Null, 1);
    let (frame, waiter) = h.cancel("a");
    assert_eq!(
        body_of(&frame),
        r#"{"jsonrpc":"2.0","method":"$/cancelRequest","params":{"id":"a"}}"#
    );
    let (w, e) = waiter.unwrap();
    assert_eq!((w, e.code, e.message.as_str()), (1, ERROR_CANCELLED, "cancelled by proxy"));
    assert!(h.cancel("a").1.is_none());
    h.request_with_id("b", "m", Json::Null, 2);
    let gone = h.abandon("b", Peer::Server);
    assert_eq!((gone.code, gone.message.as_str()), (-1, "server pipe closed"));
    assert_eq!(h.abandon("b", Peer::Editor).message, "zed pipe closed");
    assert_eq!(LspHandle::<u32>::dropped().message, "router dropped");
    h.request_with_id("c", "m", Json::Null, 3);
    h.request_with_id("d", "m", Json::Null, 4);
    let (mut all, why) = h.close();
    all.sort();
    assert_eq!(all, vec![("c".to_string(), 3), ("d".to_string(), 4)]);
    assert_eq!((why.code, why.message.as_str()), (-1, "server connection closed"));
    assert!(h.close().0.is_empty());
}

#[test]
fn requests_with_a_feature_are_taken() {
    let mut d = desk();
    let ask = |m: &str| format!("{{\"id\":5,\"method\":\"{m}\",\"params\":{{\"x\":1}}}}");
    match d.from_editor(&ask("textDocument/inlayHint")) {
        ClientAction::Inlay(r) => {
            assert_eq!((told(&r.id), told(&r.params)), ("5".to_string(), r#"{"x":1}"#.to_string()))
        }
        _ => panic!("no inlay request"),
    }
    match d.from_editor(&ask("textDocument/codeLens")) {
        ClientAction::Lens(r) => assert_eq!(told(&r.id), "5"),
        _ => panic!("no lens request"),
    }
    match d.from_editor(r#"{"id":"q","method":"textDocument/semanticTokens/full"}"#) {
        ClientAction::Tokens(r) => {
            assert_eq!((told(&r.id), told(&r.params)), ("\"q\"".to_string(), "null".to_string()))
        }
        _ => panic!("no token request"),
    }
    let hover = r#"{"id":1,"method":"textDocument/hover","params":{"textDocument":{"uri":"u"},"position":{"line":2,"character":3}}}"#;
    match d.from_editor(hover) {
        ClientAction::Hover(h) => {
            assert_eq!((h.uri.as_str(), h.line, h.character), ("u", 2, 3));
            assert_eq!(told(&h.id), "1");
        }
        _ => panic!("no hover request"),
    }
    assert!(matches!(
        d.from_editor(r#"{"id":1,"method":"textDocument/hover","params":{}}"#),
        ClientAction::Forward(_)
    ));
    assert!(matches!(
        d.from_editor(r#"{"method":"textDocument/inlayHint"}"#),
        ClientAction::Forward(_)
    ));
}

#[test]
fn requests_without_their_feature_pass() {
    let mut d = desk();
    let off = r#"{"id":0,"method":"initialize","params":{"initializationOptions":{"leanTo":{"inlayHints":false,"codeLens":false,"semanticTokens":false,"hover":false}}}}"#;
    match d.from_editor(off) {
        ClientAction::Forward(p) => assert_eq!(p.frame, format!("H:{off}").into_bytes()),
        _ => panic!("the handshake did not pass"),
    }
    assert!(!d.state.config().hover && d.state.config().progress);
    for m in [
        "textDocument/inlayHint",
        "textDocument/codeLens",
        "textDocument/semanticTokens/full",
        "textDocument/hover",
    ] {
        let ask = format!(
            "{{\"id\":5,\"method\":\"{m}\",\"params\":{{\"textDocument\":{{\"uri\":\"u\"}},\"position\":{{\"line\":1,\"character\":1}}}}}}"
        );
        match d.from_editor(&ask) {
            ClientAction::Forward(p) => {
                assert_eq!(p.cursor.is_some(), m == "textDocument/hover");
                assert_eq!(p.frame, format!("H:{ask}").into_bytes());
            }
            _ => panic!("{m} did not pass"),
        }
    }
}

#[test]
fn what_is_no_message_passes() {
    let mut d = desk();
    match d.from_editor("not json") {
        ClientAction::Forward(p) => {
            assert_eq!(p.frame, b"H:not json".to_vec());
            assert!(p.cursor.is_none() && !p.initialized && p.events.is_empty());
        }
        _ => panic!("it did not pass"),
    }
    match d.from_server("not json") {
        ServerAction::Forward(frame, events) => {
            assert_eq!(frame, b"H:not json".to_vec());
            assert!(events.is_empty());
        }
        _ => panic!("it did not pass"),
    }
}

#[test]
fn documents_are_followed() {
    let mut d = desk();
    let u = || "u".to_string();
    let open = r#"{"method":"textDocument/didOpen","params":{"textDocument":{"uri":"u","version":3,"text":"abc"}}}"#;
    match d.from_editor(open) {
        ClientAction::Forward(p) => assert_eq!(p.events, vec![StateEvent::DidOpen { uri: u() }]),
        _ => panic!("it did not pass"),
    }
    assert_eq!(d.state.version_for("u"), Some(3));
    assert_eq!(d.documents.full_text("u").unwrap().as_str(), "abc");
    d.from_editor(r#"{"method":"textDocument/didChange","params":{"textDocument":{"uri":"u","version":4},"contentChanges":[{"text":"x"}]}}"#);
    assert_eq!(d.state.version_for("u"), Some(4));
    assert_eq!(d.documents.full_text("u").unwrap().as_str(), "x");
    match d.from_editor(r#"{"method":"textDocument/didClose","params":{"textDocument":{"uri":"u"}}}"#) {
        ClientAction::Forward(p) => assert_eq!(p.events, vec![StateEvent::DidClose { uri: u() }]),
        _ => panic!("it did not pass"),
    }
    assert_eq!(d.state.version_for("u"), None);
    assert!(d.documents.full_text("u").is_none());
    match d.from_editor(r#"{"method":"initialized","params":{}}"#) {
        ClientAction::Forward(p) => assert!(p.initialized),
        _ => panic!("it did not pass"),
    }
}

#[test]
fn reports_of_the_server_are_noted() {
    let mut d = desk();
    let progress = r#"{"method":"$/lean/fileProgress","params":{"textDocument":{"uri":"u"},"processing":[{"range":{"start":{"line":4},"end":{"line":9}}}]}}"#;
    match d.from_server(progress) {
        ServerAction::Forward(frame, events) => {
            assert_eq!(frame, format!("H:{progress}").into_bytes());
            assert_eq!(events, vec![StateEvent::ProgressChanged { uri: "u".to_string() }]);
        }
        _ => panic!("it did not pass"),
    }
    assert_eq!(d.state.elaboration_frontier("u"), 4);
    match d.from_server(r#"{"method":"textDocument/publishDiagnostics","params":{"uri":"u","diagnostics":[{"severity":1}]}}"#) {
        ServerAction::Forward(_, events) => {
            assert_eq!(events, vec![StateEvent::DiagnosticsChanged { uri: "u".to_string() }])
        }
        _ => panic!("it did not pass"),
    }
    assert_eq!(d.state.diagnostics_for("u").len(), 1);
    d.from_server(r#"{"method":"textDocument/publishDiagnostics","params":{"uri":"u"}}"#);
    assert!(d.state.diagnostics_for("u").is_empty());
}

#[test]
fn the_handshake_teaches_the_legend_and_gains_capabilities() {
    let mut d = desk();
    let hello = r#"{"id":0,"result":{"capabilities":{"semanticTokensProvider":{"legend":{"tokenTypes":["a",1,"comment"],"tokenModifiers":["m"]}}}}}"#;
    match d.from_server(hello) {
        ServerAction::Forward(frame, _) => {
            let v = doc(&body_of(&frame));
            let caps = v.get2("result", "capabilities").unwrap();
            assert_eq!(caps.get("inlayHintProvider").unwrap().as_bool(), Some(true));
            assert_eq!(
                told(caps.get("codeLensProvider").unwrap()),
                r#"{"resolveProvider":false}"#
            );
        }
        _ => panic!("it did not pass"),
    }
    assert_eq!(d.state.token_type_index("comment"), Some(1));
    assert_eq!(d.state.token_modifier_index("m"), Some(0));
}

#[test]
fn capabilities_are_added_where_they_are_missing() {
    let bare = doc(r#"{"result":{"capabilities":{"x":1}}}"#);
    assert!(is_initialize_response(&bare));
    assert!(!is_initialize_response(&doc(r#"{"result":{"capabilities":[]}}"#)));
    assert!(!is_initialize_response(&doc(r#"{"result":{}}"#)));
    let on = Config::default();
    assert_eq!(
        told(&maybe_inject_capabilities(&bare, &on).unwrap()),
        r#"{"result":{"capabilities":{"codeLensProvider":{"resolveProvider":false},"inlayHintProvider":true,"x":1}}}"#
    );
    let no_lens = Config { code_lens: false, ..on };
    assert_eq!(
        told(&maybe_inject_capabilities(&bare, &no_lens).unwrap()),
        r#"{"result":{"capabilities":{"inlayHintProvider":true,"x":1}}}"#
    );
    let none = Config { code_lens: false, inlay_hints: false, ..on };
    assert!(maybe_inject_capabilities(&bare, &none).is_none());
    let full = doc(r#"{"result":{"capabilities":{"inlayHintProvider":false,"codeLensProvider":{}}}}"#);
    assert!(maybe_inject_capabilities(&full, &on).is_none());
    assert!(maybe_inject_inlay_capability(&full).is_none());
    assert!(maybe_inject_inlay_capability(&bare).is_some());
    assert!(maybe_inject_capabilities(&doc("{}"), &on).is_none());
}
