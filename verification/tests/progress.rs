use lean_to::documents::Documents;
use lean_to::json::{parse, Json};
use lean_to::progress::{
    begin_params, create_params, end_params, report_params, token_for, BarAction, ProgressBars,
};
use lean_to::state::{Config, StateHandle};

fn rendered(v: &Json) -> String {
    String::from_utf8(v.to_bytes()).unwrap()
}

fn document(text: &str) -> Documents {
    let mut d = Documents::new();
    let doc = Json::object().with("uri", Json::text("u")).with("text", Json::text(text));
    d.handle_message(
        &Json::object()
            .with("method", Json::text("textDocument/didOpen"))
            .with("params", Json::object().with("textDocument", doc)),
    );
    d
}

fn at_line(s: &mut StateHandle, line: u64) {
    let text = format!(
        "{{\"processing\":[{{\"range\":{{\"start\":{{\"line\":{line}}},\"end\":{{\"line\":99}}}}}}]}}"
    );
    s.update_progress("u".to_string(), parse(text.as_bytes()).unwrap());
}

#[test]
fn a_bar_comes_up_moves_and_goes() {
    let mut bars = ProgressBars::new();
    let mut s = StateHandle::new();
    let d = document("a\nb\nc");
    assert!(matches!(bars.handle_progress(&s, &d, "u"), BarAction::Nothing));
    at_line(&mut s, 1);
    let name = format!("leanto-elaborate-{}", token_for("u"));
    match bars.handle_progress(&s, &d, "u") {
        BarAction::Begin { token, frontier, total_lines } => {
            assert_eq!((token, frontier, total_lines), (name.clone(), 1, 3))
        }
        _ => panic!("no bar came up"),
    }
    at_line(&mut s, 2);
    match bars.handle_progress(&s, &d, "u") {
        BarAction::Report { token, frontier, total_lines } => {
            assert_eq!((token, frontier, total_lines), (name.clone(), 2, 3))
        }
        _ => panic!("the bar did not move"),
    }
    s.update_progress("u".to_string(), Json::Null);
    match bars.handle_progress(&s, &d, "u") {
        BarAction::End(token) => assert_eq!(token, name),
        _ => panic!("the bar did not go"),
    }
    assert!(matches!(bars.handle_progress(&s, &d, "u"), BarAction::Nothing));
}

#[test]
fn a_bar_keeps_its_name() {
    let mut bars = ProgressBars::new();
    let mut s = StateHandle::new();
    at_line(&mut s, 5);
    let d = Documents::new();
    match bars.update(&s, &d, "u", "first".to_string()) {
        BarAction::Begin { token, frontier, total_lines } => {
            assert_eq!((token.as_str(), frontier, total_lines), ("first", 5, 0))
        }
        _ => panic!("no bar came up"),
    }
    match bars.update(&s, &d, "u", "second".to_string()) {
        BarAction::Report { token, .. } => assert_eq!(token, "first"),
        _ => panic!("the bar did not move"),
    }
    match bars.close("u") {
        BarAction::End(token) => assert_eq!(token, "first"),
        _ => panic!("the bar did not go"),
    }
    assert!(matches!(bars.close("u"), BarAction::Nothing));
}

#[test]
fn without_the_feature_bars_go() {
    let mut bars = ProgressBars::new();
    let mut s = StateHandle::new();
    let d = document("a");
    at_line(&mut s, 0);
    bars.update(&s, &d, "u", "t".to_string());
    s.set_config(Config { progress: false, ..Config::default() });
    assert!(matches!(bars.update(&s, &d, "u", "t".to_string()), BarAction::End(_)));
    assert!(matches!(bars.update(&s, &d, "u", "t".to_string()), BarAction::Nothing));
}

#[test]
fn bars_are_told_apart_by_their_documents() {
    let a = token_for("file:///a.lean");
    assert_eq!(a, token_for("file:///a.lean"));
    assert_ne!(a, token_for("file:///b.lean"));
    assert_ne!(a, "file:///a.lean");
    assert!(!a.is_empty() && a.len() <= 16);
    assert!(a.chars().all(|c| c.is_ascii_digit() || ('a'..='f').contains(&c)));
}

#[test]
fn messages_about_bars() {
    assert_eq!(rendered(&create_params("t")), r#"{"token":"t"}"#);
    assert_eq!(
        rendered(&begin_params("t", 3)),
        r#"{"token":"t","value":{"cancellable":false,"kind":"begin","percentage":3,"title":"Elaborating Lean"}}"#
    );
    assert_eq!(
        rendered(&report_params("t", 50, 5, 10)),
        r#"{"token":"t","value":{"kind":"report","message":"line 5 of 10","percentage":50}}"#
    );
    assert_eq!(
        rendered(&end_params("t")),
        r#"{"token":"t","value":{"kind":"end","message":"Done"}}"#
    );
}
