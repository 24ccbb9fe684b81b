use lean_to::hover::{
    at_position, goal_to_markdown, goal_worth_querying, merge_hover, merge_hover_value,
    GOAL_TIMEOUT_MILLIS,
};
use lean_to::json::{parse, Json};
use lean_to::lsp::ResponseError;
use lean_to::state::StateHandle;

fn js(text: &str) -> Json {
    parse(text.as_bytes()).unwrap()
}

fn out(j: &Json) -> String {
    String::from_utf8(j.to_bytes()).unwrap()
}

#[test]
fn goals_become_markdown() {
    assert_eq!(goal_to_markdown(&Json::Null), "");
    assert_eq!(goal_to_markdown(&js(r#"{"rendered":"R","goals":["g"]}"#)), "R");
    assert_eq!(
        goal_to_markdown(&js(r#"{"rendered":"","goals":["g",1,"h"]}"#)),
        "```lean\ng\n```\n\n```lean\nh\n```"
    );
    assert_eq!(goal_to_markdown(&js(r#"{"goals":[]}"#)), "");
    assert_eq!(goal_to_markdown(&js("{}")), "");
}

#[test]
fn a_goal_is_put_behind_each_form_of_contents() {
    let goal = js(r#"{"rendered":"G"}"#);
    let block = "\\n\\n---\\n\\n**Goal at this position:**\\n\\nG";
    let bare = "---\\n\\n**Goal at this position:**\\n\\nG";
    for (hover, expected) in [
        ("null".to_string(), format!("{{\"contents\":{{\"kind\":\"markdown\",\"value\":\"{bare}\"}}}}")),
        (
            r#"{"contents":{"value":"v"},"range":1}"#.to_string(),
            format!("{{\"contents\":{{\"kind\":\"markdown\",\"value\":\"v{block}\"}},\"range\":1}}"),
        ),
        (
            r#"{"contents":{"kind":"plaintext","value":"v"}}"#.to_string(),
            format!("{{\"contents\":{{\"kind\":\"plaintext\",\"value\":\"v{block}\"}}}}"),
        ),
        (
            r#"{"contents":{"value":1}}"#.to_string(),
            r#"{"contents":{"kind":"markdown","value":1}}"#.to_string(),
        ),
        (
            r#"{"contents":"s"}"#.to_string(),
            format!("{{\"contents\":{{\"kind\":\"markdown\",\"value\":\"s{block}\"}}}}"),
        ),
        (
            r#"{"contents":["a"]}"#.to_string(),
            format!("{{\"contents\":[\"a\",{{\"language\":\"markdown\",\"value\":\"{block}\"}}]}}"),
        ),
        (
            r#"{"contents":null}"#.to_string(),
            format!("{{\"contents\":{{\"kind\":\"markdown\",\"value\":\"{bare}\"}}}}"),
        ),
        (
            "{}".to_string(),
            format!("{{\"contents\":{{\"kind\":\"markdown\",\"value\":\"{bare}\"}}}}"),
        ),
        ("[1]".to_string(), "[1]".to_string()),
    ] {
        assert_eq!(out(&merge_hover_value(js(&hover), &goal)), expected);
    }
}

#[test]
fn without_a_goal_nothing_changes() {
    let hover = r#"{"contents":"s"}"#;
    assert_eq!(out(&merge_hover_value(js(hover), &Json::Null)), hover);
    assert_eq!(out(&merge_hover(Ok(js(hover)), None)), hover);
    let failed = || Err(ResponseError { code: 1, message: String::new() });
    assert_eq!(out(&merge_hover(Ok(js(hover)), Some(failed()))), hover);
    assert_eq!(out(&merge_hover(failed(), None)), "null");
    let goal = js(r#"{"rendered":"G"}"#);
    assert!(out(&merge_hover(failed(), Some(Ok(goal)))).contains("Goal at this position"));
}

#[test]
fn positions_are_asked_for() {
    assert_eq!(
        out(&at_position("u", 1, 2)),
        r#"{"position":{"character":2,"line":1},"textDocument":{"uri":"u"}}"#
    );
    assert_eq!(GOAL_TIMEOUT_MILLIS, 150);
}

#[test]
fn a_goal_is_asked_for_behind_the_frontier() {
    let mut s = StateHandle::new();
    assert!(goal_worth_querying(&s, "u", 5));
    s.update_progress(
        "u".to_string(),
        js(r#"{"processing":[{"range":{"start":{"line":4},"end":{"line":9}}}]}"#),
    );
    assert!(goal_worth_querying(&s, "u", 3));
    assert!(!goal_worth_querying(&s, "u", 4));
    assert!(!goal_worth_querying(&s, "u", 20));
}
