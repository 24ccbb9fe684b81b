use lean_to::json::{parse, Json};
use lean_to::state::{
    Config, StateEvent, StateHandle, SEVERITY_ERROR, SEVERITY_HINT, SEVERITY_INFO, SEVERITY_WARNING,
};

fn value(text: &str) -> Json {
    parse(text.as_bytes()).unwrap()
}

fn report(start: u64, end: u64) -> Json {
    value(&format!(
        "{{\"range\":{{\"start\":{{\"line\":{start}}},\"end\":{{\"line\":{end}}}}}}}"
    ))
}

#[test]
fn every_feature_is_on_by_default() {
    let all = Config::default();
    assert!(all.inlay_hints && all.code_lens && all.semantic_tokens);
    assert!(all.hover && all.progress && all.auto_restart);
    assert_eq!(Config::from_init_options(&value("{}")), all);
    assert_eq!(Config::from_init_options(&value("null")), all);
    assert_eq!(Config::from_init_options(&value(r#"{"leanTo":{"hover":"no"}}"#)), all);
}

#[test]
fn each_feature_has_its_flag() {
    let on = Config::default();
    for (name, expected) in [
        ("inlayHints", Config { inlay_hints: false, ..on }),
        ("codeLens", Config { code_lens: false, ..on }),
        ("semanticTokens", Config { semantic_tokens: false, ..on }),
        ("hover", Config { hover: false, ..on }),
        ("progress", Config { progress: false, ..on }),
        ("autoRestart", Config { auto_restart: false, ..on }),
    ] {
        let opts = value(&format!("{{\"leanTo\":{{\"{name}\":false}}}}"));
        assert_eq!(Config::from_init_options(&opts), expected);
        let small = value(&format!("{{\"leanto\":{{\"{name}\":false}}}}"));
        assert_eq!(Config::from_init_options(&small), expected);
    }
    let both = value(r#"{"leanTo":{},"leanto":{"hover":false}}"#);
    assert_eq!(Config::from_init_options(&both), on);
}

#[test]
fn config_is_kept() {
    let mut s = StateHandle::new();
    assert_eq!(s.config(), Config::default());
    let off = Config { hover: false, ..Config::default() };
    s.set_config(off);
    assert_eq!(s.config(), off);
}

#[test]
fn versions_follow_the_documents() {
    let mut s = StateHandle::new();
    assert_eq!(s.version_for("u"), None);
    s.update_version("u".to_string(), 3);
    s.update_version("v".to_string(), 4);
    s.update_version("u".to_string(), -5);
    assert_eq!(s.version_for("u"), Some(-5));
    assert_eq!(s.version_for("v"), Some(4));
    assert_eq!(
        s.note_did_close("u".to_string()),
        StateEvent::DidClose { uri: "u".to_string() }
    );
    assert_eq!(s.version_for("u"), None);
    assert_eq!(s.version_for("v"), Some(4));
}

#[test]
fn closing_keeps_the_reports() {
    let mut s = StateHandle::new();
    s.update_goals("u", 1, 2, value("[]"));
    s.update_progress("u".to_string(), value("{}"));
    s.update_diagnostics("u".to_string(), vec![report(1, 1)]);
    assert_eq!(s.goals_for("u").unwrap().line, 1);
    assert!(s.progress_for("u").is_some());
    s.note_did_close("u".to_string());
    assert!(s.goals_for("u").is_none());
    assert!(s.progress_for("u").is_none());
    assert_eq!(s.diagnostics_for("u").len(), 1);
}

#[test]
fn changes_are_events() {
    let mut s = StateHandle::new();
    let u = || "u".to_string();
    assert_eq!(s.update_progress(u(), Json::Null), StateEvent::ProgressChanged { uri: u() });
    assert_eq!(s.update_diagnostics(u(), vec![]), StateEvent::DiagnosticsChanged { uri: u() });
    assert_eq!(s.note_did_open(u()), StateEvent::DidOpen { uri: u() });
}

#[test]
fn reports_are_found_by_line() {
    let mut s = StateHandle::new();
    s.update_diagnostics(
        "u".to_string(),
        vec![report(1, 3), report(2, 2), value(r#"{"range":{"start":{"line":2}}}"#), report(5, 4)],
    );
    assert_eq!(s.diagnostics_at_line("u", 2), vec![report(1, 3), report(2, 2)]);
    assert_eq!(s.diagnostics_at_line("u", 3), vec![report(1, 3)]);
    assert!(s.diagnostics_at_line("u", 4).is_empty());
    assert!(s.diagnostics_at_line("v", 2).is_empty());
    assert!(s.diagnostics_for("v").is_empty());
}

#[test]
fn progress_tells_the_frontier() {
    let mut s = StateHandle::new();
    assert_eq!(s.elaboration_frontier("u"), u64::MAX);
    assert!(!s.is_processing("u", 0));
    let items = Json::object().with("processing", Json::Array(vec![report(7, 9), report(4, 5)]));
    s.update_progress("u".to_string(), items);
    assert_eq!(s.elaboration_frontier("u"), 4);
    assert!(s.is_processing("u", 4));
    assert!(s.is_processing("u", 8));
    assert!(!s.is_processing("u", 6));
    assert!(!s.is_processing("u", 3));
    s.update_progress("u".to_string(), value(r#"{"processing":[]}"#));
    assert_eq!(s.elaboration_frontier("u"), u64::MAX);
    s.update_progress("u".to_string(), value(r#"{"processing":[{}]}"#));
    assert_eq!(s.elaboration_frontier("u"), u64::MAX);
}

#[test]
fn names_have_their_index() {
    let mut s = StateHandle::new();
    s.set_semantic_token_types(vec!["a".to_string(), "b".to_string(), "a".to_string()]);
    s.set_semantic_token_modifiers(vec!["m".to_string()]);
    assert_eq!(s.token_type_index("a"), Some(0));
    assert_eq!(s.token_type_index("b"), Some(1));
    assert_eq!(s.token_type_index("m"), None);
    assert_eq!(s.token_modifier_index("m"), Some(0));
    assert_eq!(s.token_modifier_index("a"), None);
}

#[test]
fn severities_are_those_of_the_protocol() {
    assert_eq!([SEVERITY_ERROR, SEVERITY_WARNING, SEVERITY_INFO, SEVERITY_HINT], [1, 2, 3, 4]);
}
