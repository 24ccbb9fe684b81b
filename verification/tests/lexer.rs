use lean_to::lexer::{
    byte_to_line_col_utf16, can_scan, consume_char_lit, consume_quoted, consume_raw, find_lexeme,
    prev_byte_is_ident_continue, scan_lex_ranges, CommentKind, CommentRange, LexKind, LexScanner,
    StringRange,
};

fn comment(kind: CommentKind, a: u32, b: u32, c: u32, d: u32) -> CommentRange {
    CommentRange { kind, start_line: a, start_col: b, end_line: c, end_col: d }
}

fn literal(a: u32, b: u32, c: u32, d: u32) -> StringRange {
    StringRange { start_line: a, start_col: b, end_line: c, end_col: d }
}

#[test]
fn line_comments_end_with_their_line() {
    let r = scan_lex_ranges("x -- one\n-- two");
    assert_eq!(
        r.comments,
        vec![comment(CommentKind::Plain, 0, 2, 0, 8), comment(CommentKind::Plain, 1, 0, 1, 6)]
    );
    assert!(r.strings.is_empty());
}

#[test]
fn block_comments_nest() {
    let r = scan_lex_ranges("/- a /- b -/ c -/ x");
    assert_eq!(r.comments, vec![comment(CommentKind::Plain, 0, 0, 0, 17)]);
    let d = scan_lex_ranges("/-- doc\n -/\n/-! mod -/");
    assert_eq!(
        d.comments,
        vec![comment(CommentKind::Doc, 0, 0, 1, 3), comment(CommentKind::Doc, 2, 0, 2, 10)]
    );
}

#[test]
fn an_unclosed_block_comment_leaves_the_last_byte() {
    let r = scan_lex_ranges("/- abc");
    assert_eq!(r.comments, vec![comment(CommentKind::Plain, 0, 0, 0, 5)]);
}

#[test]
fn a_comment_that_ends_inside_a_character_cannot_be_placed() {
    assert!(!can_scan("/- ab\u{e9}"));
    assert!(can_scan("/- ab\u{e9} -/"));
    assert!(can_scan("-- \u{1D538}"));
    assert!(can_scan(""));
}

#[test]
fn string_literals_take_escapes() {
    let r = scan_lex_ranges(r#"a "b\"c" d "e"#);
    assert_eq!(r.strings, vec![literal(0, 2, 0, 8), literal(0, 11, 0, 13)]);
}

#[test]
fn interpolated_and_raw_strings_start_at_their_prefix() {
    let r = scan_lex_ranges("s!\"x\" m!\"y\" r\"z\\\" r#\"a\"b\"# r##\"c\"#");
    assert_eq!(
        r.strings,
        vec![
            literal(0, 0, 0, 5),
            literal(0, 6, 0, 11),
            literal(0, 12, 0, 17),
            literal(0, 18, 0, 26),
            literal(0, 27, 0, 34)
        ]
    );
}

#[test]
fn a_prefix_behind_an_identifier_is_none() {
    let r = scan_lex_ranges("as!\"x\"");
    assert_eq!(r.strings, vec![literal(0, 3, 0, 6)]);
}

#[test]
fn character_literals_are_short() {
    let r = scan_lex_ranges("'a' '\\'' x' y '0123456789abcdef'");
    assert_eq!(r.strings[0], literal(0, 0, 0, 3));
    assert_eq!(r.strings[1], literal(0, 4, 0, 8));
    assert_eq!(r.strings.len(), 2);
    assert!(scan_lex_ranges("'a\n'").strings.is_empty());
}

#[test]
fn columns_count_utf16_units() {
    let r = scan_lex_ranges("\u{1D538}\u{e9} -- x\n\u{1D538} \"q\"");
    assert_eq!(r.comments, vec![comment(CommentKind::Plain, 0, 4, 0, 8)]);
    assert_eq!(r.strings, vec![literal(1, 3, 1, 6)]);
}

#[test]
fn comments_hide_literals_and_the_other_way_round() {
    let r = scan_lex_ranges("-- \"a\"\n\"-- b\"");
    assert_eq!(r.comments.len(), 1);
    assert_eq!(r.strings, vec![literal(1, 0, 1, 6)]);
}

#[test]
fn ranges_become_spans() {
    let r = scan_lex_ranges("-- x\n\"y\"");
    let c = r.comments[0].span();
    assert_eq!((c.start_line, c.start_col, c.end_line, c.end_col), (0, 0, 0, 4));
    let s = r.strings[0].span();
    assert_eq!((s.start_line, s.start_col, s.end_line, s.end_col), (1, 0, 1, 3));
}

#[test]
fn positions_are_lines_and_columns() {
    let b = "ab\n\u{1D538}c".as_bytes();
    assert_eq!(byte_to_line_col_utf16(b, 0), (0, 0));
    assert_eq!(byte_to_line_col_utf16(b, 2), (0, 2));
    assert_eq!(byte_to_line_col_utf16(b, 3), (1, 0));
    assert_eq!(byte_to_line_col_utf16(b, 7), (1, 2));
    assert_eq!(byte_to_line_col_utf16(b, 99), (1, 3));
}

#[test]
fn a_scanner_looks_back_and_goes_on() {
    let mut s = LexScanner::new(b"ab\ncd\nef");
    s.advance_to(6);
    assert_eq!(s.pos(6), (2, 0));
    assert_eq!(s.pos(8), (2, 2));
    assert_eq!(s.pos(4), (1, 1));
    s.advance_to(2);
    assert_eq!(s.pos(7), (2, 1));
    s.advance_to(100);
    assert_eq!(s.pos(100), (2, 2));
}

#[test]
fn pieces_of_the_scan() {
    assert!(prev_byte_is_ident_continue(b"a", 1));
    assert!(prev_byte_is_ident_continue(b"'", 1));
    assert!(!prev_byte_is_ident_continue(b"-", 1));
    assert!(!prev_byte_is_ident_continue(b"a", 0));
    assert_eq!(consume_quoted(b"ab\"c", 0), 3);
    assert_eq!(consume_quoted(b"ab\\\"c", 0), 5);
    assert_eq!(consume_quoted(b"ab\\", 0), 3);
    assert_eq!(consume_raw(b"a\"#b\"##", 0, 2), 7);
    assert_eq!(consume_raw(b"a\"#b", 0, 2), 4);
    assert_eq!(consume_char_lit(b"a'", 0), Some(2));
    assert_eq!(consume_char_lit(b"\\''", 0), Some(3));
    assert_eq!(consume_char_lit(b"a", 0), None);
    assert_eq!(find_lexeme(b"--x", 0), Some((LexKind::Comment(CommentKind::Plain), 3)));
    assert_eq!(find_lexeme(b"-x", 0), None);
}
