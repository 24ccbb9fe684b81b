use lean_to::documents::Documents;
use lean_to::json::{parse, Json};
use lean_to::lexer::Span;
use lean_to::scan::Token;
use lean_to::semantic_tokens::{
    can_answer, can_decode, decode_tokens, emit_range_tokens, encode_tokens, handle_request,
    read_legend, sort_tokens, RangeLineIndex, ScanCache, Starts,
};
use lean_to::state::StateHandle;
use lean_to::text::chars_of;

fn read(text: &str) -> Json {
    parse(text.as_bytes()).unwrap()
}

fn tok(line: u32, start: u32, length: u32, ty: u32, modifiers: u32) -> Token {
    Token { line, start, length, ty, modifiers }
}

fn legend_state() -> StateHandle {
    let mut s = StateHandle::new();
    let names = |l: &[&str]| l.iter().map(|n| n.to_string()).collect::<Vec<_>>();
    s.set_semantic_token_types(names(&[
        "keyword", "comment", "string", "number", "function", "type", "property",
    ]));
    s.set_semantic_token_modifiers(names(&["deprecated", "documentation"]));
    s
}

fn opened(uri: &str, text: &str) -> Documents {
    let mut d = Documents::new();
    let doc = Json::object().with("uri", Json::text(uri)).with("text", Json::text(text));
    d.handle_message(
        &Json::object()
            .with("method", Json::text("textDocument/didOpen"))
            .with("params", Json::object().with("textDocument", doc)),
    );
    d
}

fn about(uri: &str) -> Json {
    Json::object().with("textDocument", Json::object().with("uri", Json::text(uri)))
}

fn answered(state: &StateHandle, docs: &mut Documents, cache: &mut ScanCache, answer: &str) -> Vec<Token> {
    let params = about("u");
    let answer = read(answer);
    assert!(can_answer(state, docs, cache, &params, &answer));
    decode_tokens(&handle_request(state, docs, cache, &params, answer))
}

#[test]
fn tokens_are_decoded_from_differences() {
    let j = read(r#"{"data":[0,2,3,1,0, 0,4,1,2,5, 2,1,1,1,1, 7]}"#);
    assert_eq!(
        decode_tokens(&j),
        vec![tok(0, 2, 3, 1, 0), tok(0, 6, 1, 2, 5), tok(2, 1, 1, 1, 1)]
    );
    assert!(decode_tokens(&read("{}")).is_empty());
    assert!(decode_tokens(&Json::Null).is_empty());
}

#[test]
fn what_is_no_number_counts_as_zero() {
    let j = read(r#"{"data":["x",-1,4294967296,1.5,null]}"#);
    assert_eq!(decode_tokens(&j), vec![tok(0, 0, 0, 0, 0)]);
}

#[test]
fn positions_that_do_not_fit_are_noticed() {
    assert!(can_decode(&read(r#"{"data":[4294967295,0,1,1,1]}"#)));
    assert!(!can_decode(&read(r#"{"data":[4294967295,0,1,1,1,1,0,1,1,1]}"#)));
    assert!(!can_decode(&read(r#"{"data":[0,4294967295,1,1,1,0,1,1,1,1]}"#)));
    assert!(can_decode(&read(r#"{"data":[0,4294967295,1,1,1,1,1,1,1,1]}"#)));
}

#[test]
fn coding_goes_both_ways() {
    let data = r#"[0,2,3,1,0,0,4,1,2,5,2,1,1,1,1]"#;
    let tokens = decode_tokens(&read(&format!("{{\"data\":{data}}}")));
    let back = Json::Array(encode_tokens(&tokens));
    assert_eq!(String::from_utf8(back.to_bytes()).unwrap(), data);
    let again = Json::object().with("data", Json::Array(encode_tokens(&tokens)));
    assert_eq!(decode_tokens(&again), tokens);
}

#[test]
fn sorting_keeps_tokens_at_one_position_in_order() {
    let v = vec![tok(1, 0, 1, 1, 0), tok(0, 5, 1, 2, 0), tok(1, 0, 1, 3, 0), tok(0, 4, 1, 4, 0)];
    assert_eq!(sort_tokens(&v), vec![v[3], v[1], v[0], v[2]]);
}

#[test]
fn an_index_knows_what_ranges_cover() {
    let spans = vec![
        Span { start_line: 1, start_col: 3, end_line: 3, end_col: 2 },
        Span { start_line: 5, start_col: 2, end_line: 5, end_col: 2 },
        Span { start_line: 7, start_col: 0, end_line: 6, end_col: 9 },
    ];
    let index = RangeLineIndex::from_spans(&spans);
    assert!(!index.covers(1, 2));
    assert!(index.covers(1, 3));
    assert!(index.covers(1, 1000));
    assert!(index.covers(2, 0));
    assert!(index.covers(3, 1));
    assert!(!index.covers(3, 2));
    assert!(!index.covers(5, 2));
    assert!(!index.covers(6, 0));
    assert!(!index.covers(0, 0));
}

#[test]
fn ranges_become_one_token_for_each_line() {
    let text: Vec<Vec<char>> = ["abcd", "", "xyz"].iter().map(|l| chars_of(l)).collect();
    let lines: Vec<&[char]> = text.iter().map(|l| l.as_slice()).collect();
    let none = Starts::collect(&vec![]);
    let span = Span { start_line: 0, start_col: 2, end_line: 2, end_col: 9 };
    let mut out = Vec::new();
    emit_range_tokens(&lines, &none, span, 7, 3, &mut out);
    assert_eq!(out, vec![tok(0, 2, 2, 7, 3), tok(2, 0, 3, 7, 3)]);
    let taken = Starts::collect(&vec![tok(2, 0, 1, 1, 0)]);
    assert!(taken.contains(2, 0) && !taken.contains(0, 2));
    let mut less = Vec::new();
    emit_range_tokens(&lines, &taken, span, 7, 3, &mut less);
    assert_eq!(less, vec![tok(0, 2, 2, 7, 3)]);
    let mut beyond = Vec::new();
    let far = Span { start_line: 3, start_col: 0, end_line: 4, end_col: 5 };
    emit_range_tokens(&lines, &none, far, 7, 3, &mut beyond);
    assert!(beyond.is_empty());
}

#[test]
fn the_legend_falls_back_to_methods() {
    let mut s = StateHandle::new();
    s.set_semantic_token_types(vec!["method".to_string()]);
    let l = read_legend(&s);
    assert_eq!(l.kinds.decl_name, Some(0));
    assert_eq!(l.kinds.member, Some(0));
    assert_eq!(l.comment, None);
    let full = read_legend(&legend_state());
    assert_eq!(full.comment, Some(1));
    assert_eq!(full.string, Some(2));
    assert_eq!(full.documentation, Some(1));
    assert_eq!(full.kinds.number, Some(3));
    assert_eq!(full.kinds.decl_name, Some(4));
    assert_eq!(full.kinds.capitalized, Some(5));
    assert_eq!(full.kinds.member, Some(6));
}

#[test]
fn comments_literals_and_words_are_added() {
    let state = legend_state();
    let mut docs = opened("u", "/-- Doc 1 -/\ndef f := \"A 2\" ++ Nat.x 3 -- c\n");
    let mut cache = ScanCache::new();
    let tokens = answered(&state, &mut docs, &mut cache, r#"{"data":[1,0,3,0,0]}"#);
    assert_eq!(
        tokens,
        vec![
            tok(0, 0, 12, 1, 2),
            tok(1, 0, 3, 0, 0),
            tok(1, 4, 1, 4, 0),
            tok(1, 9, 5, 2, 0),
            tok(1, 18, 3, 5, 0),
            tok(1, 22, 1, 6, 0),
            tok(1, 24, 1, 3, 0),
            tok(1, 26, 4, 1, 0),
        ]
    );
}

#[test]
fn tokens_inside_documentation_are_marked() {
    let state = legend_state();
    let mut docs = opened("u", "/-- a b -/\n");
    let mut cache = ScanCache::new();
    let tokens = answered(&state, &mut docs, &mut cache, r#"{"data":[0,4,1,0,1]}"#);
    assert_eq!(tokens, vec![tok(0, 0, 10, 1, 2), tok(0, 4, 1, 0, 3)]);
}

#[test]
fn tokens_of_the_server_are_not_covered() {
    let state = legend_state();
    let mut docs = opened("u", "-- c\n1");
    let mut cache = ScanCache::new();
    let tokens = answered(&state, &mut docs, &mut cache, r#"{"data":[0,0,4,0,0,1,0,1,0,0]}"#);
    assert_eq!(tokens, vec![tok(0, 0, 4, 0, 0), tok(1, 0, 1, 0, 0)]);
}

#[test]
fn other_members_of_the_answer_stay() {
    let state = legend_state();
    let mut docs = opened("u", "1");
    let mut cache = ScanCache::new();
    let answer = read(r#"{"resultId":"r","data":[]}"#);
    let r = handle_request(&state, &mut docs, &mut cache, &about("u"), answer);
    assert_eq!(r.get("resultId").unwrap().as_str(), Some("r"));
    assert_eq!(decode_tokens(&r), vec![tok(0, 0, 1, 3, 0)]);
    let none = handle_request(&state, &mut docs, &mut cache, &about("u"), Json::Null);
    assert_eq!(String::from_utf8(none.to_bytes()).unwrap(), r#"{"data":[0,0,1,3,0]}"#);
}

#[test]
fn an_unknown_document_gets_the_answer_of_the_server() {
    let state = legend_state();
    let mut docs = opened("u", "1");
    let mut cache = ScanCache::new();
    let r = handle_request(&state, &mut docs, &mut cache, &about("v"), Json::Null);
    assert!(r.is_null());
    let none = handle_request(&state, &mut docs, &mut cache, &Json::Null, read(r#"{"data":[1]}"#));
    assert_eq!(String::from_utf8(none.to_bytes()).unwrap(), r#"{"data":[1]}"#);
}

#[test]
fn a_scan_is_kept_for_its_version() {
    let mut state = legend_state();
    let mut docs = opened("u", "1");
    let mut cache = ScanCache::new();
    state.update_version("u".to_string(), 1);
    assert_eq!(answered(&state, &mut docs, &mut cache, "null").len(), 1);
    assert!(cache.has("u", 1));
    docs = opened("u", "1 2");
    assert_eq!(answered(&state, &mut docs, &mut cache, "null").len(), 1);
    state.update_version("u".to_string(), 2);
    assert_eq!(answered(&state, &mut docs, &mut cache, "null").len(), 2);
    cache.invalidate("u");
    assert!(!cache.has("u", 2));
}

#[test]
fn what_cannot_be_answered_is_noticed() {
    let mut state = legend_state();
    let mut docs = opened("u", "/- \u{e9}");
    let cache = ScanCache::new();
    assert!(!can_answer(&state, &mut docs, &cache, &about("u"), &Json::Null));
    assert!(can_answer(&state, &mut docs, &cache, &about("v"), &Json::Null));
    let mut fine = opened("u", "x");
    let wide = read(r#"{"data":[4294967295,0,1,1,1,1,0,1,1,1]}"#);
    assert!(!can_answer(&state, &mut fine, &cache, &about("u"), &wide));
    let mut names = vec!["x".to_string(); 32];
    names.push("documentation".to_string());
    state.set_semantic_token_modifiers(names);
    assert!(!can_answer(&state, &mut fine, &cache, &about("u"), &Json::Null));
}
