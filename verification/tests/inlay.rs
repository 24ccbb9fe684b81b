use lean_to::documents::Documents;
use lean_to::inlay::{
    added_hyps, assemble_hints, build_hint, compute_label, contains_word, error_marker_for,
    extract_goal_strs, extract_target, finish_probe, frontier_covers, gives_up, hints_for_line,
    hyp_names, line_step, plan_line, read_probe, read_request, refresh_step,
    render_diagnostic_tooltip, sorry_hint, start_probe, targets, Happening, LinePlan, LineStep,
    ProbeStart, RefreshAction, ELABORATION_WAIT_SECS, MAX_CONCURRENT_PROBES,
    REFRESH_DEBOUNCE_MILLIS,
};
use lean_to::json::{parse, Json};
use lean_to::lsp::ResponseError;
use lean_to::probes::ProbeCache;
use lean_to::state::{StateEvent, StateHandle};

fn j(text: &str) -> Json {
    parse(text.as_bytes()).unwrap()
}

fn p(v: &Json) -> String {
    String::from_utf8(v.to_bytes()).unwrap()
}

fn strings(list: &[&str]) -> Vec<String> {
    list.iter().map(|s| s.to_string()).collect()
}

fn with_text(text: &str) -> Documents {
    let mut d = Documents::new();
    let doc = Json::object().with("uri", Json::text("u")).with("text", Json::text(text));
    d.handle_message(
        &Json::object()
            .with("method", Json::text("textDocument/didOpen"))
            .with("params", Json::object().with("textDocument", doc)),
    );
    d
}

#[test]
fn targets_stand_behind_their_sign() {
    assert_eq!(extract_target("h : a\n\u{22A2} x = y "), "x = y");
    assert_eq!(extract_target("\u{22A2}\u{22A2} z"), "z");
    assert_eq!(extract_target("no target"), "no target");
    assert_eq!(extract_target(""), "");
    assert_eq!(targets(&strings(&["\u{22A2} a", "b"])), strings(&["a", "b"]));
}

#[test]
fn hypotheses_are_the_names_in_front_of_colons() {
    let goal = "case inl\na b : Nat\nh\u{2081} : a = b\n\n  x y z\n\u{22A2} a = b\nlater : c";
    assert_eq!(hyp_names(goal), strings(&["a", "b", "h\u{2081}", "x", "y", "z"]));
    assert!(hyp_names("\u{22A2} a").is_empty());
}

#[test]
fn added_hypotheses_are_new_ones() {
    let before = strings(&["a : N\n\u{22A2} t"]);
    let after = strings(&["a : N\nh k : P\n\u{22A2} t", "z : Q"]);
    assert_eq!(added_hyps(&before, &after), strings(&["h", "k"]));
    assert_eq!(added_hyps(&vec![], &before), strings(&["a"]));
}

#[test]
fn labels_tell_what_a_line_did() {
    let none: Vec<String> = vec![];
    let t = |s: &str| strings(&[s]);
    assert_eq!(compute_label(&t("\u{22A2} a"), &none), Some(" \u{2713}".to_string()));
    assert_eq!(compute_label(&none, &none), None);
    assert_eq!(compute_label(&t("\u{22A2} a"), &t("\u{22A2} a")), None);
    assert_eq!(
        compute_label(&t("\u{22A2} a"), &t("h : b\nk : c\n\u{22A2} a")),
        Some(" + h, k".to_string())
    );
    assert_eq!(
        compute_label(&t("\u{22A2} a"), &t("\u{22A2} b")),
        Some(" \u{2192} \u{22A2} b".to_string())
    );
    assert_eq!(compute_label(&none, &t("\u{22A2} b")), Some(" \u{22A2} b".to_string()));
    assert_eq!(
        compute_label(&t("\u{22A2} a"), &strings(&["\u{22A2} b", "\u{22A2} c"])),
        Some(" 2 goals".to_string())
    );
}

#[test]
fn long_targets_are_cut_off() {
    let none: Vec<String> = vec![];
    let fits = "x".repeat(70);
    let long = "\u{e9}".repeat(71);
    assert_eq!(
        compute_label(&none, &vec![format!("\u{22A2} {fits}")]),
        Some(format!(" \u{22A2} {fits}"))
    );
    assert_eq!(
        compute_label(&none, &vec![format!("\u{22A2} {long}")]),
        Some(format!(" \u{22A2} {}\u{2026}", "\u{e9}".repeat(69)))
    );
}

#[test]
fn goals_are_read_from_answers() {
    assert_eq!(extract_goal_strs(Some(&j(r#"{"goals":["a",1,"b"]}"#))), strings(&["a", "b"]));
    assert!(extract_goal_strs(Some(&j("{}"))).is_empty());
    assert!(extract_goal_strs(None).is_empty());
}

#[test]
fn the_worst_report_marks_the_line() {
    let mark = |s: &str| error_marker_for(j(s).as_array().unwrap());
    assert_eq!(mark("[]"), None);
    assert_eq!(mark(r#"[{"severity":2}]"#), Some(" \u{26A0}".to_string()));
    assert_eq!(mark(r#"[{"severity":2},{"severity":1}]"#), Some(" \u{2717}".to_string()));
    assert_eq!(
        mark(r#"[{"severity":1},{"severity":3,"message":"unsolved goals\nx"}]"#),
        Some(" \u{26A0} unsolved".to_string())
    );
    assert_eq!(mark(r#"[{"severity":3}]"#), None);
    assert_eq!(mark(r#"[{"severity":0},{"severity":1}]"#), None);
    assert_eq!(mark(r#"[{"message":"unsolved goals"}]"#), None);
}

#[test]
fn reports_are_shown_with_their_severity() {
    let d = j(r#"[{"severity":1,"message":"a"},{"severity":2,"message":"b"},{"message":"c"},{"severity":1}]"#);
    assert_eq!(
        render_diagnostic_tooltip(d.as_array().unwrap()),
        "**error**: a\n\n**warning**: b\n\nc"
    );
    assert_eq!(render_diagnostic_tooltip(&vec![]), "");
}

#[test]
fn hints_join_goals_and_reports() {
    let before = j(r#"{"goals":["⊢ a"],"rendered":"RB"}"#);
    let after = j(r#"{"goals":["⊢ b"],"rendered":"RA"}"#);
    let errors = vec![j(r#"{"severity":1,"message":"m"}"#)];
    assert_eq!(
        p(&build_hint(3, 9, Some(&before), Some(&after), &errors).unwrap()),
        "{\"label\":\" \u{2717} \u{2192} \u{22A2} b\",\"paddingLeft\":true,\"position\":{\"character\":9,\"line\":3},\"tooltip\":{\"kind\":\"markdown\",\"value\":\"**error**: m\\n\\n---\\n\\nRA\"}}"
    );
    let closed = build_hint(0, 0, Some(&before), None, &vec![]).unwrap();
    assert_eq!(closed.get("label").unwrap().as_str(), Some(" \u{2713}"));
    assert_eq!(closed.get2("tooltip", "value").unwrap().as_str(), Some("RB"));
    let only = build_hint(0, 0, None, None, &errors).unwrap();
    assert_eq!(only.get2("tooltip", "value").unwrap().as_str(), Some("**error**: m"));
    assert!(build_hint(0, 0, None, None, &vec![]).is_none());
    assert!(build_hint(0, 0, Some(&before), Some(&before), &vec![]).is_none());
}

#[test]
fn words_have_their_bounds() {
    assert!(contains_word("exact sorry", "sorry"));
    assert!(contains_word("sorry", "sorry"));
    assert!(contains_word("(sorry)", "sorry"));
    assert!(contains_word("\u{e9}sorry\u{e9}", "sorry"));
    assert!(!contains_word("sorryAx", "sorry"));
    assert!(!contains_word("_sorry", "sorry"));
    assert!(contains_word("sorry1 sorry", "sorry"));
    assert!(!contains_word("", "sorry"));
    assert!(contains_word("", ""));
    assert!(contains_word(" a", ""));
}

#[test]
fn unfinished_proofs_get_a_hint() {
    let d = with_text("exact sorry\nadmit\nsorry admit\ndone\n");
    let label = |line: u64| {
        sorry_hint(&d, "u", line).map(|h| h.get("label").unwrap().as_str().unwrap().to_string())
    };
    assert_eq!(label(0), Some(" \u{26A0} sorry".to_string()));
    assert_eq!(label(1), Some(" \u{26A0} admit".to_string()));
    assert_eq!(label(2), Some(" \u{26A0} sorry".to_string()));
    assert_eq!(label(3), None);
    assert_eq!(label(99), None);
    let h = sorry_hint(&d, "u", 0).unwrap();
    assert_eq!(h.get2("position", "character").unwrap().as_u64(), Some(11));
    assert_eq!(
        h.get2("tooltip", "value").unwrap().as_str(),
        Some("**Admitted proof.** This declaration uses `sorry`/`admit`; the goal is not actually proven.")
    );
}

#[test]
fn lines_worth_asking_are_planned() {
    let d = with_text("  rfl\n-- c\n /- b\n\nend");
    let plan = |line: u64, frontier: u64| plan_line(&d, "u", line, frontier);
    assert_eq!(plan(0, 1), Some(LinePlan { line: 0, line_len: 5, eligible: true }));
    assert_eq!(plan(0, 0), Some(LinePlan { line: 0, line_len: 5, eligible: false }));
    for line in 1..4 {
        assert!(!plan(line, u64::MAX).unwrap().eligible);
    }
    assert_eq!(plan(5, u64::MAX), None);
    assert_eq!(plan_line(&d, "v", 0, 1), None);
}

#[test]
fn the_end_of_a_line_is_asked_for_after_its_start() {
    let plan = LinePlan { line: 2, line_len: 7, eligible: true };
    assert_eq!(line_step(&plan, &vec![]), LineStep::Probe(0));
    assert_eq!(line_step(&plan, &vec![Some(Json::Null)]), LineStep::Probe(7));
    assert_eq!(line_step(&plan, &vec![None]), LineStep::Finish);
    assert_eq!(line_step(&plan, &vec![Some(Json::Null), None]), LineStep::Finish);
    let idle = LinePlan { eligible: false, ..plan };
    assert_eq!(line_step(&idle, &vec![]), LineStep::Finish);
}

#[test]
fn a_line_can_have_two_hints() {
    let d = with_text("sorry");
    let s = StateHandle::new();
    let plan = plan_line(&d, "u", 0, 9).unwrap();
    let before = j(r#"{"goals":["⊢ a"]}"#);
    let hints = hints_for_line(&s, &d, "u", &plan, &vec![Some(before), None]);
    assert_eq!(hints.len(), 2);
    assert_eq!(hints[0].get("label").unwrap().as_str(), Some(" \u{2713}"));
    assert_eq!(hints[1].get("label").unwrap().as_str(), Some(" \u{26A0} sorry"));
    let quiet = with_text("rfl");
    assert!(hints_for_line(&s, &quiet, "u", &plan, &vec![]).is_empty());
}

#[test]
fn probes_are_kept_unless_the_server_is_at_the_line() {
    let mut cache = ProbeCache::new();
    let mut s = StateHandle::new();
    let ask = |cache: &mut ProbeCache, s: &StateHandle| match start_probe(cache, s, "u", 1, 2) {
        ProbeStart::Ask(t, params) => {
            assert_eq!(
                p(&params),
                r#"{"position":{"character":2,"line":1},"textDocument":{"uri":"u"}}"#
            );
            t
        }
        ProbeStart::Kept(_) => panic!("nothing is kept yet"),
    };
    s.update_progress(
        "u".to_string(),
        j(r#"{"processing":[{"range":{"start":{"line":0},"end":{"line":5}}}]}"#),
    );
    let t = ask(&mut cache, &s);
    assert!(t.was_processing);
    assert!(finish_probe(&mut cache, &t, Ok(j("[1]"))).is_some());
    s.update_progress("u".to_string(), j("{}"));
    let t = ask(&mut cache, &s);
    assert_eq!(p(&finish_probe(&mut cache, &t, Ok(j("[2]"))).unwrap()), "[2]");
    match start_probe(&mut cache, &s, "u", 1, 2) {
        ProbeStart::Kept(Some(v)) => assert_eq!(p(&v), "[2]"),
        _ => panic!("it was kept"),
    }
    s.update_version("u".to_string(), 8);
    ask(&mut cache, &s);
}

#[test]
fn empty_answers_are_no_goals() {
    assert!(read_probe(Ok(Json::Null)).is_none());
    assert!(read_probe(Err(ResponseError { code: 0, message: String::new() })).is_none());
    assert!(read_probe(Ok(j("0"))).is_some());
}

#[test]
fn hints_are_put_in_the_order_of_lines() {
    let hint = |line: u64, label: &str| {
        Json::object()
            .with("position", Json::object().with("line", Json::number(line)))
            .with("label", Json::text(label))
    };
    let groups = vec![
        vec![hint(5, "a")],
        vec![],
        vec![hint(2, "b"), hint(2, "c")],
        vec![j("{}")],
        vec![hint(3, "d")],
    ];
    let labels = |hints: &Vec<Json>| {
        hints.iter().map(|h| h.get("label").unwrap().as_str().unwrap().to_string()).collect::<Vec<_>>()
    };
    assert_eq!(labels(&assemble_hints(&groups)), strings(&["b", "c", "d", "a"]));
    let mut turned = groups;
    turned.reverse();
    assert_eq!(labels(&assemble_hints(&turned)), strings(&["b", "c", "d", "a"]));
}

#[test]
fn requests_name_their_lines() {
    let r = read_request(&j(
        r#"{"textDocument":{"uri":"u"},"range":{"start":{"line":3},"end":{"line":8}}}"#,
    ))
    .unwrap();
    assert_eq!((r.uri.as_str(), r.start_line, r.end_line), ("u", 3, 8));
    let bare = read_request(&j(r#"{"textDocument":{"uri":"u"},"range":{"start":{"line":3}}}"#)).unwrap();
    assert_eq!((bare.start_line, bare.end_line), (3, 3));
    let none = read_request(&j(r#"{"textDocument":{"uri":"u"}}"#)).unwrap();
    assert_eq!((none.start_line, none.end_line), (0, 0));
    assert!(read_request(&j("{}")).is_none());
}

#[test]
fn waiting_ends() {
    assert!(frontier_covers(u64::MAX, u64::MAX));
    assert!(frontier_covers(5, 4));
    assert!(!frontier_covers(5, 5));
    let closed = |u: &str| Happening::State(StateEvent::DidClose { uri: u.to_string() });
    assert!(gives_up(&closed("u"), "u"));
    assert!(!gives_up(&closed("v"), "u"));
    assert!(gives_up(&Happening::Elapsed, "u"));
    assert!(gives_up(&Happening::Closed, "u"));
    assert!(!gives_up(&Happening::Lagged, "u"));
    assert!(!gives_up(
        &Happening::State(StateEvent::ProgressChanged { uri: "u".to_string() }),
        "u"
    ));
    assert_eq!((ELABORATION_WAIT_SECS, MAX_CONCURRENT_PROBES, REFRESH_DEBOUNCE_MILLIS), (3, 8, 250));
}

#[test]
fn hints_are_refreshed_at_once_when_the_server_is_done() {
    let mut s = StateHandle::new();
    let event = |e: fn(String) -> StateEvent| Happening::State(e("u".to_string()));
    let progress = event(|uri| StateEvent::ProgressChanged { uri });
    assert!(matches!(refresh_step(true, &progress, &s), (false, RefreshAction::Refresh)));
    s.update_progress(
        "u".to_string(),
        j(r#"{"processing":[{"range":{"start":{"line":0}}}]}"#),
    );
    assert!(matches!(refresh_step(false, &progress, &s), (true, RefreshAction::Nothing)));
    let reports = event(|uri| StateEvent::DiagnosticsChanged { uri });
    assert!(matches!(refresh_step(false, &reports, &s), (true, RefreshAction::Nothing)));
    let close = event(|uri| StateEvent::DidClose { uri });
    match refresh_step(true, &close, &s) {
        (true, RefreshAction::Forget(uri)) => assert_eq!(uri, "u"),
        _ => panic!("the document is forgotten"),
    }
    let open = event(|uri| StateEvent::DidOpen { uri });
    assert!(matches!(refresh_step(true, &open, &s), (true, RefreshAction::Nothing)));
    assert!(matches!(refresh_step(true, &Happening::Lagged, &s), (true, RefreshAction::Nothing)));
    assert!(matches!(refresh_step(true, &Happening::Closed, &s), (true, RefreshAction::Stop)));
    assert!(matches!(refresh_step(true, &Happening::Elapsed, &s), (false, RefreshAction::Refresh)));
    assert!(matches!(refresh_step(false, &Happening::Elapsed, &s), (false, RefreshAction::Nothing)));
}
