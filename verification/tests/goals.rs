use lean_to::goals::{
    signal_of, worth_reporting, GoalAction, GoalWatch, Signal, DEBOUNCE_MILLIS,
};
use lean_to::json::{parse, Json};
use lean_to::lsp::{LspHandle, ResponseError, ERROR_CANCELLED};
use lean_to::snoop::CursorPos;
use lean_to::state::{StateEvent, StateHandle};

struct Bench {
    watch: GoalWatch,
    state: StateHandle,
    lsp: LspHandle<u32>,
}

fn bench() -> Bench {
    Bench { watch: GoalWatch::new(), state: StateHandle::new(), lsp: LspHandle::new() }
}

impl Bench {
    fn on(&mut self, signal: Signal, pos: Option<&CursorPos>) -> GoalAction {
        self.watch.step(&signal, pos, &self.state, &mut self.lsp)
    }
}

fn spot(line: u64) -> CursorPos {
    CursorPos { uri: "u".to_string(), line, character: 4 }
}

fn progress(uri: &str) -> Signal {
    Signal::Progress(uri.to_string())
}

fn asked(action: GoalAction) -> (Option<String>, String, u64) {
    match action {
        GoalAction::Ask { cancel, id, pos } => {
            assert_eq!((pos.uri.as_str(), pos.character), ("u", 4));
            (cancel, id, pos.line)
        }
        _ => panic!("nothing was asked"),
    }
}

#[test]
fn the_cursor_makes_the_watch_ask() {
    let mut b = bench();
    assert!(matches!(b.on(Signal::Cursor, None), GoalAction::Nothing));
    assert_eq!(asked(b.on(Signal::Cursor, Some(&spot(1)))), (None, "leanto:0".to_string(), 1));
    assert_eq!(
        asked(b.on(Signal::Cursor, Some(&spot(2)))),
        (Some("leanto:0".to_string()), "leanto:1".to_string(), 2)
    );
    assert_eq!(asked(b.on(Signal::Cursor, Some(&spot(2)))).2, 2);
}

#[test]
fn progress_makes_the_watch_ask_once() {
    let mut b = bench();
    assert!(matches!(b.on(progress("v"), Some(&spot(1))), GoalAction::Nothing));
    assert_eq!(asked(b.on(progress("u"), Some(&spot(1)))).1, "leanto:0");
    assert!(matches!(b.on(progress("u"), Some(&spot(1))), GoalAction::Nothing));
    assert_eq!(asked(b.on(progress("u"), Some(&spot(2)))).0, Some("leanto:0".to_string()));
}

#[test]
fn the_watch_waits_for_the_server() {
    let mut b = bench();
    let busy = parse(br#"{"processing":[{"range":{"start":{"line":3},"end":{"line":6}}}]}"#);
    b.state.update_progress("u".to_string(), busy.unwrap());
    assert!(matches!(b.on(Signal::Cursor, Some(&spot(4))), GoalAction::Nothing));
    assert_eq!(asked(b.on(Signal::Cursor, Some(&spot(2)))).2, 2);
    b.state.update_progress("u".to_string(), Json::Null);
    assert_eq!(asked(b.on(progress("u"), Some(&spot(4)))).2, 4);
}

#[test]
fn closing_drops_the_request() {
    let mut b = bench();
    let close = |uri: &str| Signal::DidClose(uri.to_string());
    b.on(Signal::Cursor, Some(&spot(1)));
    assert!(matches!(b.on(close("v"), Some(&spot(1))), GoalAction::Nothing));
    match b.on(close("u"), Some(&spot(1))) {
        GoalAction::Cancel(id) => assert_eq!(id, Some("leanto:0".to_string())),
        _ => panic!("nothing was cancelled"),
    }
    assert!(matches!(b.on(close("u"), Some(&spot(1))), GoalAction::Cancel(None)));
    assert_eq!(asked(b.on(progress("u"), Some(&spot(1)))).0, None);
}

#[test]
fn some_events_are_signals() {
    let u = || "u".to_string();
    assert!(matches!(
        signal_of(&StateEvent::ProgressChanged { uri: u() }),
        Some(Signal::Progress(uri)) if uri == "u"
    ));
    assert!(matches!(
        signal_of(&StateEvent::DidClose { uri: u() }),
        Some(Signal::DidClose(uri)) if uri == "u"
    ));
    assert!(signal_of(&StateEvent::DidOpen { uri: u() }).is_none());
    assert!(signal_of(&StateEvent::DiagnosticsChanged { uri: u() }).is_none());
    assert_eq!(DEBOUNCE_MILLIS, 120);
}

#[test]
fn cancelled_requests_are_not_reported() {
    let error = |code: i64| ResponseError { code, message: String::new() };
    assert!(!worth_reporting(&error(ERROR_CANCELLED)));
    assert!(worth_reporting(&error(-1)));
    assert_eq!(ERROR_CANCELLED, -32800);
}
