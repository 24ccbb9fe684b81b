use lean_to::scan::{
    make_token, scan_caps_in_line, scan_decl_in_line, scan_lines_unified, scan_member_in_line,
    scan_numbers_in_line, split_lines, ScanKinds, Token,
};
use lean_to::text::chars_of;

fn word(line: u32, start: u32, length: u32, ty: u32) -> Token {
    Token { line, start, length, ty, modifiers: 0 }
}

#[test]
fn tokens_are_measured_in_utf16() {
    let line = chars_of("\u{1D538}b\u{1D538}");
    assert_eq!(make_token(&line, 3, 1, 3, 9), word(3, 2, 3, 9));
}

#[test]
fn numbers_stand_apart_from_identifiers() {
    let mut out = Vec::new();
    scan_numbers_in_line(&chars_of("1 x2 3y 45 (6) 7"), 2, 1, &mut out);
    assert_eq!(
        out,
        vec![word(2, 0, 1, 1), word(2, 8, 2, 1), word(2, 12, 1, 1), word(2, 15, 1, 1)]
    );
}

#[test]
fn capitalized_names_are_whole_identifiers() {
    let mut out = Vec::new();
    scan_caps_in_line(&chars_of("Nat fooBar \u{394}x' (Set) aB"), 0, 4, &mut out);
    assert_eq!(out, vec![word(0, 0, 3, 4), word(0, 11, 3, 4), word(0, 16, 3, 4)]);
}

#[test]
fn members_stand_behind_one_dot() {
    let mut out = Vec::new();
    scan_member_in_line(&chars_of("a.b c..d .e .1 x.y.z ."), 0, 5, &mut out);
    assert_eq!(
        out,
        vec![
            word(0, 2, 1, 5),
            word(0, 7, 1, 5),
            word(0, 10, 1, 5),
            word(0, 17, 1, 5),
            word(0, 19, 1, 5)
        ]
    );
}

#[test]
fn declared_names_stand_behind_their_keyword() {
    for (line, expected) in [
        ("theorem foo : x", Some((8, 3))),
        ("  lemma  bar'", Some((9, 4))),
        ("def\tx", Some((4, 1))),
        ("example : x", None),
        ("definition x", None),
        ("instance", None),
        ("abbrev   ", None),
        ("x def y", None),
    ] {
        let mut out = Vec::new();
        scan_decl_in_line(&chars_of(line), 0, 7, &mut out);
        let got: Vec<Token> = expected.iter().map(|(s, l)| word(0, *s, *l, 7)).collect();
        assert_eq!(out, got, "{line}");
    }
}

#[test]
fn lines_lose_their_carriage_returns() {
    let text = chars_of("a\r\nb\r\r\n");
    let lines: Vec<String> = split_lines(&text).iter().map(|l| l.iter().collect()).collect();
    assert_eq!(lines, vec!["a", "b", ""]);
}

#[test]
fn a_text_is_scanned_line_by_line() {
    let kinds = ScanKinds { number: Some(1), decl_name: Some(2), capitalized: Some(3), member: Some(4) };
    let mut out = Vec::new();
    scan_lines_unified(&chars_of("def Foo := 1\r\nNat.succ 2"), &kinds, &mut out);
    assert_eq!(
        out,
        vec![
            word(0, 4, 3, 2),
            word(0, 11, 1, 1),
            word(0, 4, 3, 3),
            word(1, 9, 1, 1),
            word(1, 0, 3, 3),
            word(1, 4, 4, 4)
        ]
    );
}

#[test]
fn without_kinds_nothing_is_found() {
    let kinds = ScanKinds { number: None, decl_name: None, capitalized: None, member: None };
    assert!(!kinds.any());
    let mut out = Vec::new();
    scan_lines_unified(&chars_of("def Foo := 1"), &kinds, &mut out);
    assert!(out.is_empty());
}
