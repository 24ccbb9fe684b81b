use lean_to::text::{
    chars_of, appended, contains, find_char, find_from, is_ident_continue, is_ident_start,
    is_uppercase, is_whitespace, join, lines, matches_at, push_decimal, push_hex, same_text, split,
    split_whitespace, starts_with, text_of, trim, trim_end, trim_end_matches, trim_start,
    trim_start_matches, utf16_count,
};

fn spelled(parts: &[&[char]]) -> Vec<String> {
    parts.iter().map(|p| p.iter().collect::<String>()).collect()
}

const SAMPLES: [&str; 14] = [
    "",
    " ",
    "abc",
    "  abc\t",
    "\u{2003}x \u{3000}",
    "a\nb",
    "a\r\nb\n",
    "\n\n",
    "\r\n",
    "a\r",
    "x : y",
    "\u{1D538} \u{e9}",
    "one  two\tthree\n",
    "\u{85}\u{a0}z\u{2028}",
];

#[test]
fn characters_round_trip() {
    for s in SAMPLES {
        assert_eq!(text_of(&chars_of(s)), s);
    }
}

#[test]
fn character_classes_agree_with_unicode() {
    for u in 0..=0x10FFFFu32 {
        if let Some(c) = char::from_u32(u) {
            assert_eq!(is_whitespace(c), c.is_whitespace(), "{u:x}");
            assert_eq!(is_ident_start(c), c.is_alphabetic() || c == '_', "{u:x}");
            assert_eq!(
                is_ident_continue(c),
                c.is_alphanumeric() || c == '_' || c == '\'',
                "{u:x}"
            );
            assert_eq!(is_uppercase(c), c.is_uppercase(), "{u:x}");
        }
    }
}

#[test]
fn trimming_agrees_with_std() {
    for s in SAMPLES {
        let c = chars_of(s);
        assert_eq!(text_of(trim(&c)), s.trim());
        assert_eq!(text_of(trim_start(&c)), s.trim_start());
        assert_eq!(text_of(trim_end(&c)), s.trim_end());
        assert_eq!(text_of(trim_end_matches(&c, '\n')), s.trim_end_matches('\n'));
        assert_eq!(text_of(trim_start_matches(&c, 'a')), s.trim_start_matches('a'));
    }
}

#[test]
fn cutting_agrees_with_std() {
    for s in SAMPLES {
        let c = chars_of(s);
        assert_eq!(spelled(&lines(&c)), s.lines().collect::<Vec<_>>());
        assert_eq!(spelled(&split(&c, '\n')), s.split('\n').collect::<Vec<_>>());
        assert_eq!(spelled(&split_whitespace(&c)), s.split_whitespace().collect::<Vec<_>>());
    }
}

#[test]
fn utf16_lengths_agree_with_std() {
    for s in SAMPLES {
        assert_eq!(utf16_count(&chars_of(s)) as usize, s.encode_utf16().count());
    }
    assert_eq!(utf16_count(&chars_of("\u{1D538}")), 2);
}

#[test]
fn searching_finds_the_first_copy() {
    let s = chars_of("abcabc");
    assert_eq!(find_from(&s, &chars_of("bc"), 0), Some(1));
    assert_eq!(find_from(&s, &chars_of("bc"), 2), Some(4));
    assert_eq!(find_from(&s, &chars_of("bc"), 5), None);
    assert_eq!(find_from(&s, &chars_of("x"), 0), None);
    assert_eq!(find_char(&s, 'c'), 2);
    assert_eq!(find_char(&s, 'x'), 6);
    assert!(contains(&s, "cab"));
    assert!(!contains(&s, "acb"));
    assert!(contains(&s, ""));
    assert!(starts_with(&s, "ab"));
    assert!(!starts_with(&s, "b"));
    assert!(matches_at(&s, &chars_of("abc"), 3));
    assert!(!matches_at(&s, &chars_of("abc"), 4));
    assert!(!matches_at(&s, &chars_of("abc"), 9));
}

#[test]
fn numbers_are_written_in_digits() {
    for n in [0u64, 7, 9, 10, 15, 16, 99, 255, 4096, u64::MAX] {
        let mut d = String::new();
        push_decimal(&mut d, n);
        assert_eq!(d, format!("{n}"));
        let mut h = String::from("x");
        push_hex(&mut h, n);
        assert_eq!(h, format!("x{n:x}"));
    }
}

#[test]
fn texts_are_joined_and_compared() {
    let parts = vec!["a".to_string(), "".to_string(), "b".to_string()];
    assert_eq!(join(&parts, ", "), "a, , b");
    assert_eq!(join(&vec![], ", "), "");
    assert_eq!(appended("a", "\u{e9}"), "a\u{e9}");
    assert!(same_text("x", "x"));
    assert!(!same_text("x", "X"));
}
