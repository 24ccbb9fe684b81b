use lean_to::json::{parse, Json};
use lean_to::lean_rpc::{
    call_params, collect_refs, connect_params, keep_alive_params, read_session, waiter_dropped,
    Outcome, RpcManager, INTERACTIVE_GOALS_METHOD, KEEPALIVE_SECS,
};
use lean_to::lsp::ResponseError;
use lean_to::state::StateEvent;
use std::sync::Arc;

fn tree(text: &str) -> Json {
    parse(text.as_bytes()).unwrap()
}

fn shown(v: &Json) -> String {
    String::from_utf8(v.to_bytes()).unwrap()
}

fn refs_of(text: &str) -> Vec<u64> {
    let mut out = vec![];
    collect_refs(&tree(text), &mut out);
    out
}

#[test]
fn references_are_found_at_any_depth() {
    assert_eq!(refs_of("null"), Vec::<u64>::new());
    assert_eq!(refs_of(r#"{"p":3}"#), vec![3]);
    assert_eq!(refs_of(r#"{"__rpcref":4,"p":3}"#), vec![3, 4]);
    assert_eq!(refs_of(r#"{"p":"x","__rpcref":-1}"#), Vec::<u64>::new());
    assert_eq!(
        refs_of(r#"[{"a":{"p":1}},[{"z":[{"__rpcref":2}],"p":9}],{"p":{"p":5}}]"#),
        vec![1, 9, 2, 5]
    );
    let mut out = vec![7];
    collect_refs(&tree(r#"{"p":8}"#), &mut out);
    assert_eq!(out, vec![7, 8]);
}

#[test]
fn which_references_there_are_depends_on_what_a_document_says() {
    let entry = |key: &str, v: Json| (key.to_string(), v);
    let refs = |v: &Json| {
        let mut out = vec![];
        collect_refs(v, &mut out);
        out.sort();
        out
    };
    let one = || Json::object().with("p", Json::number(1));
    let two = || Json::object().with("__rpcref", Json::number(2));
    let forth = Json::Object(vec![entry("a", one()), entry("b", two())]);
    let back = Json::Object(vec![entry("b", two()), entry("a", one())]);
    assert_eq!(refs(&forth), vec![1, 2]);
    assert_eq!(refs(&back), vec![1, 2]);
    let repeated = Json::Object(vec![entry("a", one()), entry("a", two())]);
    assert_eq!(refs(&repeated), vec![2]);
    assert_eq!(refs(&parse(&repeated.to_bytes()).unwrap()), vec![2]);
}

#[test]
fn what_keeps_a_session_alive_is_held_as_long_as_the_session() {
    let mut m: RpcManager<u32, Arc<()>> = RpcManager::new();
    let (first, second, other) = (Arc::new(()), Arc::new(()), Arc::new(()));
    m.session("u", 1);
    m.finish_connect("u", Some(("s".to_string(), first.clone())));
    m.finish_connect("v", Some(("o".to_string(), other.clone())));
    m.session("u", 2);
    assert_eq!(Arc::strong_count(&first), 2);
    m.finish_connect("u", Some(("t".to_string(), second.clone())));
    assert_eq!(Arc::strong_count(&first), 1);
    assert_eq!(Arc::strong_count(&second), 2);
    m.replace_refs("u", "t".to_string(), vec![1]);
    assert_eq!(Arc::strong_count(&second), 2);
    m.handle_did_close("u");
    assert_eq!(Arc::strong_count(&second), 1);
    m.finish_connect("v", None);
    assert_eq!(Arc::strong_count(&other), 1);
}

#[test]
fn rpc_messages_name_session_and_position() {
    assert_eq!(
        shown(&call_params("s", "u", 1, 2)),
        r#"{"method":"Lean.Widget.getInteractiveGoals","params":{"position":{"character":2,"line":1},"textDocument":{"uri":"u"}},"position":{"character":2,"line":1},"sessionId":"s","textDocument":{"uri":"u"}}"#
    );
    assert_eq!(shown(&connect_params("u")), r#"{"uri":"u"}"#);
    assert_eq!(shown(&keep_alive_params("u", "s")), r#"{"sessionId":"s","uri":"u"}"#);
    assert_eq!(INTERACTIVE_GOALS_METHOD, "Lean.Widget.getInteractiveGoals");
    assert_eq!(KEEPALIVE_SECS, 10);
}

#[test]
fn sessions_are_read_from_answers() {
    assert_eq!(read_session(Ok(tree(r#"{"sessionId":"7"}"#))).unwrap(), "7");
    for text in ["null", "{}", r#"{"sessionId":7}"#] {
        let e = read_session(Ok(tree(text))).unwrap_err();
        assert_eq!(e.code, -1);
        assert_eq!(e.message, "missing sessionId in $/lean/rpc/connect response");
    }
    let e = read_session(Err(ResponseError { code: 5, message: "no".to_string() })).unwrap_err();
    assert_eq!((e.code, e.message.as_str()), (5, "no"));
    assert_eq!(waiter_dropped().message, "session waiter dropped");
    assert_eq!(waiter_dropped().code, -1);
}

#[test]
fn a_session_is_opened_once() {
    let mut m: RpcManager<u32, ()> = RpcManager::new();
    assert!(matches!(m.session("u", 1), Outcome::Connect));
    assert!(matches!(m.session("u", 2), Outcome::Wait));
    assert!(matches!(m.session("u", 3), Outcome::Wait));
    assert!(matches!(m.session("v", 4), Outcome::Connect));
    assert_eq!(m.finish_connect("u", Some(("s".to_string(), ()))), vec![2, 3]);
    match m.session("u", 5) {
        Outcome::Have(s) => assert_eq!(s, "s"),
        _ => panic!("the session is there"),
    }
    assert!(m.finish_connect("u", Some(("t".to_string(), ()))).is_empty());
    assert!(matches!(m.session("v", 6), Outcome::Wait));
}

#[test]
fn a_session_that_failed_is_opened_again() {
    let mut m: RpcManager<u32, ()> = RpcManager::new();
    m.session("u", 1);
    m.session("u", 2);
    assert_eq!(m.finish_connect("u", None), vec![2]);
    assert!(matches!(m.session("u", 3), Outcome::Connect));
    assert!(m.finish_connect("w", None).is_empty());
}

#[test]
fn references_are_released_when_they_are_replaced() {
    let mut m: RpcManager<u32, ()> = RpcManager::new();
    assert!(m.replace_refs("u", "s".to_string(), vec![1, 2]).is_none());
    assert!(m.replace_refs("v", "s".to_string(), vec![9]).is_none());
    let released = m.replace_refs("u", "t".to_string(), vec![]).unwrap();
    assert_eq!(shown(&released), r#"{"refs":[1,2],"sessionId":"s","uri":"u"}"#);
    assert!(m.replace_refs("u", "t".to_string(), vec![3]).is_none());
    let more = m.replace_refs("u", "x".to_string(), vec![]).unwrap();
    assert_eq!(shown(&more), r#"{"refs":[3],"sessionId":"t","uri":"u"}"#);
}

#[test]
fn a_closed_document_has_no_session() {
    let mut m: RpcManager<u32, ()> = RpcManager::new();
    m.session("u", 1);
    m.finish_connect("u", Some(("s".to_string(), ())));
    m.replace_refs("u", "s".to_string(), vec![1]);
    m.on_event(&StateEvent::DidOpen { uri: "u".to_string() });
    m.on_event(&StateEvent::DidClose { uri: "v".to_string() });
    assert!(matches!(m.session("u", 2), Outcome::Have(_)));
    m.on_event(&StateEvent::DidClose { uri: "u".to_string() });
    assert!(m.replace_refs("u", "s".to_string(), vec![2]).is_none());
    assert!(matches!(m.session("u", 3), Outcome::Connect));
    m.handle_did_close("u");
    assert!(matches!(m.session("u", 4), Outcome::Connect));
}
