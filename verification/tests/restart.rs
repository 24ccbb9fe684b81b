use lean_to::documents::Documents;
use lean_to::json::Json;
use lean_to::restart::{is_outdated_imports, RestartLog, COOLDOWN_SECS, LANGUAGE_ID, NANOS_PER_SEC};
use lean_to::state::{Config, StateHandle};

const SECOND: u64 = NANOS_PER_SEC;

fn setup(message: &str) -> (StateHandle, Documents) {
    let mut s = StateHandle::new();
    s.update_version("u".to_string(), 4);
    s.update_diagnostics(
        "u".to_string(),
        vec![Json::object(), Json::object().with("message", Json::text(message))],
    );
    let mut d = Documents::new();
    let doc = Json::object().with("uri", Json::text("u")).with("text", Json::text("import A\n"));
    d.handle_message(
        &Json::object()
            .with("method", Json::text("textDocument/didOpen"))
            .with("params", Json::object().with("textDocument", doc)),
    );
    (s, d)
}

#[test]
fn messages_about_outdated_imports() {
    assert!(is_outdated_imports("Imports are out of date and must be rebuilt"));
    assert!(is_outdated_imports("IMPORTED file is OUTDATED"));
    assert!(is_outdated_imports("please restart: imports changed"));
    assert!(!is_outdated_imports("imports are fine"));
    assert!(!is_outdated_imports("out of date"));
    assert!(!is_outdated_imports("\u{130}mport outdated"));
    assert!(!is_outdated_imports(""));
}

#[test]
fn outdated_documents_are_closed_and_opened() {
    let (s, mut d) = setup("imports are out of date");
    let mut log = RestartLog::new();
    let r = log.maybe_restart(&s, &mut d, "u", 5).unwrap();
    assert_eq!(
        String::from_utf8(r.close.to_bytes()).unwrap(),
        r#"{"textDocument":{"uri":"u"}}"#
    );
    assert_eq!(
        String::from_utf8(r.open.to_bytes()).unwrap(),
        r#"{"textDocument":{"languageId":"lean4","text":"import A\n","uri":"u","version":4}}"#
    );
    assert_eq!(LANGUAGE_ID, "lean4");
}

#[test]
fn restarts_have_time_between_them() {
    let (s, mut d) = setup("restart to update imports");
    let mut log = RestartLog::new();
    assert_eq!(COOLDOWN_SECS, 10);
    assert!(log.maybe_restart(&s, &mut d, "u", SECOND).is_some());
    assert!(log.maybe_restart(&s, &mut d, "u", SECOND).is_none());
    assert!(log.maybe_restart(&s, &mut d, "u", 0).is_none());
    assert!(log.maybe_restart(&s, &mut d, "u", 11 * SECOND - 1).is_none());
    assert!(log.maybe_restart(&s, &mut d, "u", 11 * SECOND).is_some());
    assert!(log.maybe_restart(&s, &mut d, "u", 12 * SECOND).is_none());
    log.forget("u");
    assert!(log.maybe_restart(&s, &mut d, "u", 12 * SECOND).is_some());
}

#[test]
fn other_documents_are_left_alone() {
    let mut log = RestartLog::new();
    let (s, mut d) = setup("type mismatch");
    assert!(log.maybe_restart(&s, &mut d, "u", 0).is_none());
    let (s, mut d) = setup("imports are out of date");
    assert!(log.maybe_restart(&s, &mut d, "v", 0).is_none());
    let mut unknown = Documents::new();
    assert!(log.maybe_restart(&s, &mut unknown, "u", 0).is_none());
    assert!(log.maybe_restart(&s, &mut d, "u", 0).is_some());
}

#[test]
fn without_the_feature_nothing_is_restarted() {
    let (mut s, mut d) = setup("imports are out of date");
    s.set_config(Config { auto_restart: false, ..Config::default() });
    assert!(RestartLog::new().maybe_restart(&s, &mut d, "u", 0).is_none());
}
