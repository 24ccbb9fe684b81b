use lean_to::code_lens::{
    count_tactics_in_lines, find_declarations, find_keyword, handle_request, make_lenses,
    parse_decl_keyword, refresh_step, DeclCache, DiagnosticIndex, Status, DECL_KEYWORDS,
    REFRESH_DEBOUNCE_MILLIS, TITLE_SEP,
};
use lean_to::documents::Documents;
use lean_to::inlay::{Happening, RefreshAction};
use lean_to::json::{parse, Json};
use lean_to::state::{StateEvent, StateHandle};
use lean_to::text::chars_of;

fn from_json(text: &str) -> Json {
    parse(text.as_bytes()).unwrap()
}

fn report_at(line: u64, severity: i64) -> Json {
    from_json(&format!(
        "{{\"severity\":{severity},\"range\":{{\"start\":{{\"line\":{line}}}}}}}"
    ))
}

fn titles(lenses: &Vec<Json>) -> Vec<String> {
    lenses
        .iter()
        .map(|l| l.get2("command", "title").unwrap().as_str().unwrap().to_string())
        .collect()
}

fn titles_of(text: &str) -> Vec<String> {
    titles(&make_lenses(&find_declarations(text), &vec![]))
}

fn lines_of(lenses: &Vec<Json>) -> Vec<u64> {
    lenses.iter().map(|l| l.get3("range", "start", "line").unwrap().as_u64().unwrap()).collect()
}

fn open_document(d: &mut Documents, text: &str) {
    let doc = Json::object().with("uri", Json::text("u")).with("text", Json::text(text));
    d.handle_message(
        &Json::object()
            .with("method", Json::text("textDocument/didOpen"))
            .with("params", Json::object().with("textDocument", doc)),
    );
}

#[test]
fn keywords_need_white_space_behind_them() {
    for kw in DECL_KEYWORDS {
        let line = chars_of(&format!("{kw}\tx"));
        let (found, len) = find_keyword(&line).unwrap();
        assert_eq!((found, len), (kw, kw.len()));
        assert!(find_keyword(&chars_of(kw)).is_none());
        assert!(find_keyword(&chars_of(&format!("{kw}s x"))).is_none());
        assert!(find_keyword(&chars_of(&format!(" {kw} x"))).is_none());
    }
    let line = chars_of("lemma   a b");
    let (kw, rest) = parse_decl_keyword(&line).unwrap();
    assert_eq!((kw, rest.iter().collect::<String>()), ("lemma", "a b".to_string()));
    assert!(parse_decl_keyword(&chars_of("axiom a")).is_none());
}

#[test]
fn declarations_have_a_name() {
    assert_eq!(
        titles_of("theorem foo : p\ninstance : C\ninstance(x)\nlemma :\ndef f(n : N) := n\nabbrev é:= 1"),
        vec![
            "\u{2713} \u{b7} theorem foo",
            "\u{2713} \u{b7} instance C",
            "\u{2713} \u{b7} lemma ?",
            "\u{2713} \u{b7} def f",
            "\u{2713} \u{b7} abbrev \u{e9}",
        ]
    );
}

#[test]
fn declarations_stand_at_the_start_of_a_line() {
    assert!(titles_of("  theorem a\nprivate theorem b\n").is_empty());
    assert!(find_declarations("").is_empty());
}

#[test]
fn tactics_are_counted() {
    let text = "theorem a : p := by\n  intro\n\n  -- note\n  /- more -/\n  | alt\n  exact\ntheorem b :\n  p\nby\n  rfl\ndef c :=\n  1\n";
    assert_eq!(
        titles_of(text),
        vec![
            "\u{2713} \u{b7} theorem a \u{b7} 2 tactics",
            "\u{2713} \u{b7} theorem b \u{b7} 3 tactics",
            "\u{2713} \u{b7} def c",
        ]
    );
    assert_eq!(
        titles_of("lemma a := by rfl\n\n  simp\n"),
        vec!["\u{2713} \u{b7} lemma a \u{b7} 1 tactic"]
    );
    let lines = [chars_of("a"), chars_of(" b"), chars_of("--c"), chars_of("d")];
    let slices: Vec<&[char]> = lines.iter().map(|l| l.as_slice()).collect();
    assert_eq!(count_tactics_in_lines(&slices, 0, 3), 2);
    assert_eq!(count_tactics_in_lines(&slices, 3, 3), 0);
}

#[test]
fn declarations_reach_to_the_next_one() {
    let decls = find_declarations("x\ndef a := 1\n\ndef b := 2\n\n");
    let error_in = |line: u64| {
        titles(&make_lenses(&decls, &vec![report_at(line, 1)]))
            .iter()
            .map(|t| t.starts_with('\u{2717}'))
            .collect::<Vec<bool>>()
    };
    assert_eq!(lines_of(&make_lenses(&decls, &vec![])), vec![1, 3]);
    assert_eq!(error_in(0), vec![false, false]);
    assert_eq!(error_in(1), vec![true, false]);
    assert_eq!(error_in(2), vec![true, false]);
    assert_eq!(error_in(3), vec![false, true]);
    assert_eq!(error_in(5), vec![false, true]);
    assert_eq!(error_in(6), vec![false, false]);
}

#[test]
fn the_worst_report_tells_the_status() {
    let index = DiagnosticIndex::build(&vec![
        report_at(9, 1),
        report_at(4, 2),
        report_at(2, 3),
        from_json(r#"{"range":{"start":{"line":1}}}"#),
        from_json(r#"{"severity":1}"#),
        report_at(4, 4),
    ]);
    assert_eq!(index.status(0, 3), Status::Good);
    assert_eq!(index.status(3, 8), Status::Warning);
    assert_eq!(index.status(4, 9), Status::Error);
    assert_eq!(index.status(10, 20), Status::Good);
    assert_eq!(index.status(5, 4), Status::Good);
    assert_eq!(DiagnosticIndex::build(&vec![]).status(0, 9), Status::Good);
    assert_eq!(Status::Good.glyph(), "\u{2713}");
    assert_eq!(Status::Warning.glyph(), "\u{26A0}");
    assert_eq!(Status::Error.glyph(), "\u{2717}");
}

#[test]
fn a_lens_is_a_command_above_its_line() {
    let lenses = make_lenses(&find_declarations("\ndef a := 1"), &vec![report_at(1, 2)]);
    assert_eq!(lenses.len(), 1);
    assert_eq!(
        String::from_utf8(lenses[0].to_bytes()).unwrap(),
        "{\"command\":{\"arguments\":[],\"command\":\"editor.action.peekLocations\",\"title\":\"\u{26A0} \u{b7} def a\"},\"range\":{\"end\":{\"character\":0,\"line\":1},\"start\":{\"character\":0,\"line\":1}}}"
    );
    assert_eq!(TITLE_SEP, " \u{b7} ");
}

#[test]
fn declarations_are_kept_for_their_version() {
    let mut cache = DeclCache::new();
    let mut s = StateHandle::new();
    let mut d = Documents::new();
    assert!(cache.compute(&s, &mut d, "u").is_empty());
    open_document(&mut d, "def a := 1");
    s.update_version("u".to_string(), 1);
    assert_eq!(cache.compute(&s, &mut d, "u").len(), 1);
    open_document(&mut d, "def a := 1\ndef b := 2");
    assert_eq!(cache.compute(&s, &mut d, "u").len(), 1);
    s.update_version("u".to_string(), 2);
    assert_eq!(cache.compute(&s, &mut d, "u").len(), 2);
    open_document(&mut d, "");
    assert_eq!(cache.compute(&s, &mut d, "u").len(), 2);
    cache.invalidate("u");
    assert!(cache.compute(&s, &mut d, "u").is_empty());
}

#[test]
fn lens_requests_are_answered() {
    let mut cache = DeclCache::new();
    let mut s = StateHandle::new();
    let mut d = Documents::new();
    open_document(&mut d, "theorem t : p");
    s.update_diagnostics("u".to_string(), vec![report_at(0, 1)]);
    let params = from_json(r#"{"textDocument":{"uri":"u"}}"#);
    let answer = handle_request(&mut cache, &s, &mut d, &params);
    assert_eq!(titles(answer.as_array().unwrap()), vec!["\u{2717} \u{b7} theorem t"]);
    let none = handle_request(&mut cache, &s, &mut d, &Json::Null);
    assert_eq!(none.as_array().unwrap().len(), 0);
}

#[test]
fn lenses_are_refreshed_after_a_while() {
    let event = |e: fn(String) -> StateEvent| Happening::State(e("u".to_string()));
    for news in [
        event(|uri| StateEvent::ProgressChanged { uri }),
        event(|uri| StateEvent::DiagnosticsChanged { uri }),
    ] {
        assert!(matches!(refresh_step(false, &news), (true, RefreshAction::Nothing)));
    }
    let close = event(|uri| StateEvent::DidClose { uri });
    assert!(matches!(refresh_step(true, &close), (true, RefreshAction::Forget(_))));
    let open = event(|uri| StateEvent::DidOpen { uri });
    assert!(matches!(refresh_step(false, &open), (false, RefreshAction::Nothing)));
    assert!(matches!(refresh_step(true, &Happening::Elapsed), (false, RefreshAction::Refresh)));
    assert!(matches!(refresh_step(false, &Happening::Elapsed), (false, RefreshAction::Nothing)));
    assert!(matches!(refresh_step(true, &Happening::Lagged), (true, RefreshAction::Nothing)));
    assert!(matches!(refresh_step(true, &Happening::Closed), (true, RefreshAction::Stop)));
    assert_eq!(REFRESH_DEBOUNCE_MILLIS, 300);
}
