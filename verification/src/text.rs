//! Text as a sequence of characters: measuring it in UTF-16 code units, trimming it, cutting
//! it into lines and words, and the character classes that an identifier is made of.
//!
//! A `str` is read once into a vector of characters; everything else works on slices of it.
use vstd::prelude::*;
use vstd::slice::slice_subrange;
use vstd::string::StringExecFns;

verus! {

// ---------------------------------------------------------------------------------------------
// Reading and building strings
// ---------------------------------------------------------------------------------------------
/// `String::push` appends one character to the end of the string.
pub assume_specification[ String::push ](s: &mut String, c: char)
    ensures
        final(s)@ == old(s)@.push(c),
;

/// The characters of a string, in order.
pub fn chars_of(s: &str) -> (out: Vec<char>)
    ensures
        out@ == s@,
{
    let mut out: Vec<char> = Vec::new();
    for c in it: s.chars()
        invariant
            it.seq() == s@,
            out@ == s@.take(it.index() as int),
    {
        out.push(c);
    }
    out
}

/// The string that a slice of characters spells.
pub fn text_of(s: &[char]) -> (out: String)
    ensures
        out@ == s@,
{
    let mut out = String::new();
    let mut i: usize = 0;
    while i < s.len()
        invariant
            i <= s.len(),
            out@ == s@.take(i as int),
        decreases s.len() - i,
    {
        out.push(s[i]);
        i += 1;
        assert(s@.take(i as int) =~= s@.take(i as int - 1).push(s@[i as int - 1]));
    }
    assert(s@.take(i as int) =~= s@);
    out
}

/// Whether two strings spell the same text.
pub fn same_text(a: &str, b: &str) -> (r: bool)
    ensures
        r == (a@ == b@),
{
    a.to_owned() == b.to_owned()
}

// ---------------------------------------------------------------------------------------------
// UTF-16 code units
// ---------------------------------------------------------------------------------------------
/// The number of UTF-16 code units that one character takes.
pub open spec fn utf16_width(c: char) -> nat {
    if c as u32 >= 0x10000 {
        2
    } else {
        1
    }
}

/// The number of UTF-16 code units that a text takes.
pub open spec fn utf16_len(s: Seq<char>) -> nat
    decreases s.len(),
{
    if s.len() == 0 {
        0
    } else {
        utf16_len(s.drop_last()) + utf16_width(s.last())
    }
}

/// What a 32-bit counter shows of a count: its low 32 bits.
pub open spec fn low32(n: nat) -> u32 {
    (n % 0x1_0000_0000) as u32
}

/// The UTF-16 length of a concatenation is the sum of the lengths.
pub proof fn lemma_utf16_len_add(a: Seq<char>, b: Seq<char>)
    ensures
        utf16_len(a + b) == utf16_len(a) + utf16_len(b),
    decreases b.len(),
{
    if b.len() == 0 {
        assert(a + b =~= a);
    } else {
        assert((a + b).drop_last() =~= a + b.drop_last());
        lemma_utf16_len_add(a, b.drop_last());
    }
}

/// A text takes at least one and at most two UTF-16 code units for each character.
pub proof fn lemma_utf16_len_bounds(s: Seq<char>)
    ensures
        s.len() <= utf16_len(s) <= 2 * s.len(),
    decreases s.len(),
{
    if s.len() > 0 {
        lemma_utf16_len_bounds(s.drop_last());
    }
}

/// A longer prefix of a text takes no fewer UTF-16 code units.
pub proof fn lemma_utf16_len_prefix(s: Seq<char>, i: int, j: int)
    requires
        0 <= i <= j <= s.len(),
    ensures
        utf16_len(s.take(i)) + utf16_len(s.subrange(i, j)) == utf16_len(s.take(j)),
        i < j ==> utf16_len(s.take(i)) < utf16_len(s.take(j)),
{
    assert(s.take(j) =~= s.take(i) + s.subrange(i, j));
    lemma_utf16_len_add(s.take(i), s.subrange(i, j));
    lemma_utf16_len_bounds(s.subrange(i, j));
}

/// The UTF-16 length of a slice of characters, counted in 32 bits.
pub fn utf16_count(s: &[char]) -> (n: u32)
    ensures
        n == low32(utf16_len(s@)),
{
    let mut n: u32 = 0;
    let mut i: usize = 0;
    while i < s.len()
        invariant
            i <= s.len(),
            n == low32(utf16_len(s@.take(i as int))),
        decreases s.len() - i,
    {
        let c = s[i];
        let ghost before = utf16_len(s@.take(i as int));
        n = n.wrapping_add(if c as u32 >= 0x10000 { 2 } else { 1 });
        i += 1;
        assert(s@.take(i as int).drop_last() =~= s@.take(i as int - 1));
        assert(utf16_len(s@.take(i as int)) == before + utf16_width(c));
    }
    assert(s@.take(i as int) =~= s@);
    n
}

// ---------------------------------------------------------------------------------------------
// Character classes
// ---------------------------------------------------------------------------------------------
/// The white space characters of Unicode.
pub open spec fn is_white(c: char) -> bool {
    let u = c as u32;
    ||| 0x9 <= u <= 0xD
    ||| u == 0x20
    ||| u == 0x85
    ||| u == 0xA0
    ||| u == 0x1680
    ||| 0x2000 <= u <= 0x200A
    ||| u == 0x2028
    ||| u == 0x2029
    ||| u == 0x202F
    ||| u == 0x205F
    ||| u == 0x3000
}

/// Whether a character is white space.
pub fn is_whitespace(c: char) -> (r: bool)
    ensures
        r == is_white(c),
{
    let u = c as u32;
    (0x9 <= u && u <= 0xD) || u == 0x20 || u == 0x85 || u == 0xA0 || u == 0x1680 || (0x2000 <= u
        && u <= 0x200A) || u == 0x2028 || u == 0x2029 || u == 0x202F || u == 0x205F || u == 0x3000
}

pub open spec fn is_digit(c: char) -> bool {
    '0' <= c <= '9'
}

pub open spec fn is_ascii_letter(c: char) -> bool {
    'a' <= c <= 'z' || 'A' <= c <= 'Z'
}

/// Whether Unicode gives a character the `Alphabetic` property.
pub uninterp spec fn unicode_alphabetic(c: char) -> bool;

/// Whether Unicode gives a character the `Alphabetic` property or a numeric category.
pub uninterp spec fn unicode_alphanumeric(c: char) -> bool;

/// Whether Unicode gives a character the `Uppercase` property.
pub uninterp spec fn unicode_uppercase(c: char) -> bool;

/// `char::is_alphabetic`, whose answer comes out of Unicode's tables and depends on the
/// character alone.
#[verifier::external_body]
fn table_alphabetic(c: char) -> (r: bool)
    ensures
        r == unicode_alphabetic(c),
{
    c.is_alphabetic()
}

/// `char::is_alphanumeric`, whose answer comes out of Unicode's tables and depends on the
/// character alone.
#[verifier::external_body]
fn table_alphanumeric(c: char) -> (r: bool)
    ensures
        r == unicode_alphanumeric(c),
{
    c.is_alphanumeric()
}

/// `char::is_uppercase`, whose answer comes out of Unicode's tables and depends on the
/// character alone.
#[verifier::external_body]
fn table_uppercase(c: char) -> (r: bool)
    ensures
        r == unicode_uppercase(c),
{
    c.is_uppercase()
}

/// The characters that an identifier may start with: letters and `_`. The tables are asked
/// only outside ASCII.
pub open spec fn ident_start(c: char) -> bool {
    if c as u32 >= 128 {
        unicode_alphabetic(c)
    } else {
        is_ascii_letter(c) || c == '_'
    }
}

/// The characters that an identifier may go on with: letters, digits, `_` and `'`. The tables
/// are asked only outside ASCII.
pub open spec fn ident_continue(c: char) -> bool {
    if c as u32 >= 128 {
        unicode_alphanumeric(c)
    } else {
        is_ascii_letter(c) || is_digit(c) || c == '_' || c == '\''
    }
}

/// The upper case characters. The tables are asked only outside ASCII.
pub open spec fn upper_case(c: char) -> bool {
    if c as u32 >= 128 {
        unicode_uppercase(c)
    } else {
        'A' <= c <= 'Z'
    }
}

pub fn is_ident_start(c: char) -> (r: bool)
    ensures
        r == ident_start(c),
{
    if c as u32 >= 128 {
        table_alphabetic(c)
    } else {
        ('a' <= c && c <= 'z') || ('A' <= c && c <= 'Z') || c == '_'
    }
}

pub fn is_ident_continue(c: char) -> (r: bool)
    ensures
        r == ident_continue(c),
{
    if c as u32 >= 128 {
        table_alphanumeric(c)
    } else {
        ('a' <= c && c <= 'z') || ('A' <= c && c <= 'Z') || ('0' <= c && c <= '9') || c == '_' || c
            == '\''
    }
}

pub fn is_uppercase(c: char) -> (r: bool)
    ensures
        r == upper_case(c),
{
    if c as u32 >= 128 {
        table_uppercase(c)
    } else {
        'A' <= c && c <= 'Z'
    }
}

// ---------------------------------------------------------------------------------------------
// Trimming
// ---------------------------------------------------------------------------------------------
/// A text without its leading white space.
pub open spec fn trim_start_of(s: Seq<char>) -> Seq<char>
    decreases s.len(),
{
    if s.len() > 0 && is_white(s[0]) {
        trim_start_of(s.drop_first())
    } else {
        s
    }
}

/// A text without its trailing white space.
pub open spec fn trim_end_of(s: Seq<char>) -> Seq<char>
    decreases s.len(),
{
    if s.len() > 0 && is_white(s.last()) {
        trim_end_of(s.drop_last())
    } else {
        s
    }
}

/// A text without its leading and trailing white space.
pub open spec fn trim_of(s: Seq<char>) -> Seq<char> {
    trim_end_of(trim_start_of(s))
}

/// A text without any copies of one character at its end.
pub open spec fn trim_end_char(s: Seq<char>, c: char) -> Seq<char>
    decreases s.len(),
{
    if s.len() > 0 && s.last() == c {
        trim_end_char(s.drop_last(), c)
    } else {
        s
    }
}

/// A text without any copies of one character at its start.
pub open spec fn trim_start_char(s: Seq<char>, c: char) -> Seq<char>
    decreases s.len(),
{
    if s.len() > 0 && s[0] == c {
        trim_start_char(s.drop_first(), c)
    } else {
        s
    }
}

pub fn trim_start(s: &[char]) -> (r: &[char])
    ensures
        r@ == trim_start_of(s@),
        r@.len() <= s@.len(),
        r@ == s@.skip(s@.len() - r@.len()),
{
    let mut i: usize = 0;
    assert(s@.skip(0) =~= s@);
    while i < s.len() && is_whitespace(s[i])
        invariant
            i <= s.len(),
            trim_start_of(s@.skip(i as int)) == trim_start_of(s@),
        decreases s.len() - i,
    {
        assert(s@.skip(i as int).drop_first() =~= s@.skip(i as int + 1));
        i += 1;
    }
    let r = slice_subrange(s, i, s.len());
    assert(r@ =~= s@.skip(i as int));
    r
}

pub fn trim_end(s: &[char]) -> (r: &[char])
    ensures
        r@ == trim_end_of(s@),
{
    let mut n: usize = s.len();
    assert(s@.take(n as int) =~= s@);
    while n > 0 && is_whitespace(s[n - 1])
        invariant
            n <= s.len(),
            trim_end_of(s@.take(n as int)) == trim_end_of(s@),
        decreases n,
    {
        assert(s@.take(n as int).drop_last() =~= s@.take(n as int - 1));
        n -= 1;
    }
    let r = slice_subrange(s, 0, n);
    assert(r@ =~= s@.take(n as int));
    r
}

pub fn trim(s: &[char]) -> (r: &[char])
    ensures
        r@ == trim_of(s@),
{
    trim_end(trim_start(s))
}

pub fn trim_end_matches(s: &[char], c: char) -> (r: &[char])
    ensures
        r@ == trim_end_char(s@, c),
{
    let mut n: usize = s.len();
    assert(s@.take(n as int) =~= s@);
    while n > 0 && s[n - 1] == c
        invariant
            n <= s.len(),
            trim_end_char(s@.take(n as int), c) == trim_end_char(s@, c),
        decreases n,
    {
        assert(s@.take(n as int).drop_last() =~= s@.take(n as int - 1));
        n -= 1;
    }
    let r = slice_subrange(s, 0, n);
    assert(r@ =~= s@.take(n as int));
    r
}

pub fn trim_start_matches(s: &[char], c: char) -> (r: &[char])
    ensures
        r@ == trim_start_char(s@, c),
{
    let mut i: usize = 0;
    assert(s@.skip(0) =~= s@);
    while i < s.len() && s[i] == c
        invariant
            i <= s.len(),
            trim_start_char(s@.skip(i as int), c) == trim_start_char(s@, c),
        decreases s.len() - i,
    {
        assert(s@.skip(i as int).drop_first() =~= s@.skip(i as int + 1));
        i += 1;
    }
    let r = slice_subrange(s, i, s.len());
    assert(r@ =~= s@.skip(i as int));
    r
}

// ---------------------------------------------------------------------------------------------
// Searching
// ---------------------------------------------------------------------------------------------
/// Whether a text holds another one at a given index.
pub open spec fn holds_at(s: Seq<char>, p: Seq<char>, i: int) -> bool {
    0 <= i && i + p.len() <= s.len() && s.subrange(i, i + p.len()) == p
}

/// Whether a text holds another one anywhere.
pub open spec fn holds(s: Seq<char>, p: Seq<char>) -> bool {
    exists|i: int| holds_at(s, p, i)
}

/// Whether a slice holds a pattern at an index.
pub fn matches_at(s: &[char], p: &[char], i: usize) -> (r: bool)
    ensures
        r == holds_at(s@, p@, i as int),
{
    if i > s.len() || p.len() > s.len() - i {
        return false;
    }
    let mut k: usize = 0;
    while k < p.len()
        invariant
            k <= p.len(),
            i + p.len() <= s.len(),
            forall|j: int| 0 <= j < k ==> s@[i + j] == p@[j],
        decreases p.len() - k,
    {
        if s[i + k] != p[k] {
            assert(s@.subrange(i as int, i + p@.len())[k as int] != p@[k as int]);
            return false;
        }
        k += 1;
    }
    assert(s@.subrange(i as int, i + p@.len()) =~= p@);
    true
}

/// Whether a slice starts with a given text.
pub fn starts_with(s: &[char], p: &str) -> (r: bool)
    ensures
        r == p@.is_prefix_of(s@),
{
    let chars = chars_of(p);
    let r = matches_at(s, chars.as_slice(), 0);
    assert(p@.len() <= s@.len() ==> s@.subrange(0, p@.len() as int) =~= s@.take(p@.len() as int));
    r
}

/// The first index, from a given one on, at which a slice holds a pattern.
pub fn find_from(s: &[char], p: &[char], from: usize) -> (r: Option<usize>)
    ensures
        match r {
            Some(i) => from <= i && holds_at(s@, p@, i as int) && forall|j: int|
                from <= j < i ==> !holds_at(s@, p@, j),
            None => forall|j: int| from <= j ==> !holds_at(s@, p@, j),
        },
{
    let mut i: usize = from;
    while i <= s.len()
        invariant
            from <= i,
            i <= s.len() + 1 || i == from,
            forall|j: int| from <= j < i ==> !holds_at(s@, p@, j),
        decreases s.len() + 1 - i,
    {
        if matches_at(s, p, i) {
            return Some(i);
        }
        if i == s.len() {
            return None;
        }
        i += 1;
    }
    None
}

/// Whether a slice holds a given text anywhere.
pub fn contains(s: &[char], p: &str) -> (r: bool)
    ensures
        r == holds(s@, p@),
{
    let chars = chars_of(p);
    match find_from(s, chars.as_slice(), 0) {
        Some(i) => {
            assert(holds_at(s@, p@, i as int));
            true
        },
        None => {
            assert forall|i: int| !holds_at(s@, p@, i) by {}
            false
        },
    }
}

/// Where the run of identifier characters that starts at an index ends.
pub open spec fn ident_end(s: Seq<char>, from: int) -> int
    decreases s.len() - from,
{
    if 0 <= from < s.len() && ident_continue(s[from]) {
        ident_end(s, from + 1)
    } else {
        from
    }
}

pub proof fn lemma_ident_end(s: Seq<char>, from: int)
    requires
        0 <= from <= s.len(),
    ensures
        from <= ident_end(s, from) <= s.len(),
        forall|i: int| from <= i < ident_end(s, from) ==> ident_continue(#[trigger] s[i]),
        ident_end(s, from) < s.len() ==> !ident_continue(s[ident_end(s, from)]),
    decreases s.len() - from,
{
    if from < s.len() && ident_continue(s[from]) {
        lemma_ident_end(s, from + 1);
    }
}

pub fn skip_ident(s: &[char], from: usize) -> (r: usize)
    requires
        from <= s.len(),
    ensures
        r == ident_end(s@, from as int),
        from <= r <= s.len(),
{
    let mut i: usize = from;
    while i < s.len() && is_ident_continue(s[i])
        invariant
            from <= i <= s.len(),
            ident_end(s@, from as int) == ident_end(s@, i as int),
        decreases s.len() - i,
    {
        i += 1;
    }
    i
}

// ---------------------------------------------------------------------------------------------
// Lines and words
// ---------------------------------------------------------------------------------------------
/// The index of the first copy of a character in a text or, without one, the text's length.
pub open spec fn first_index(s: Seq<char>, c: char) -> nat
    decreases s.len(),
{
    if s.len() == 0 || s[0] == c {
        0
    } else {
        1 + first_index(s.drop_first(), c)
    }
}

pub fn find_char(s: &[char], c: char) -> (r: usize)
    ensures
        r == first_index(s@, c),
        r <= s.len(),
{
    let mut i: usize = 0;
    assert(s@.skip(0) =~= s@);
    while i < s.len() && s[i] != c
        invariant
            i <= s.len(),
            first_index(s@, c) == i + first_index(s@.skip(i as int), c),
        decreases s.len() - i,
    {
        assert(s@.skip(i as int).drop_first() =~= s@.skip(i as int + 1));
        i += 1;
    }
    i
}

/// The texts that a slice of slices spells.
pub open spec fn views(v: Seq<&[char]>) -> Seq<Seq<char>> {
    v.map_values(|s: &[char]| s@)
}

/// The pieces of a text between the copies of a character.
pub open spec fn split_of(s: Seq<char>, c: char) -> Seq<Seq<char>>
    decreases s.len(),
{
    let i = first_index(s, c) as int;
    if i < s.len() {
        seq![s.take(i)] + split_of(s.skip(i + 1), c)
    } else {
        seq![s]
    }
}

pub fn split<'a>(s: &'a [char], c: char) -> (out: Vec<&'a [char]>)
    ensures
        views(out@) == split_of(s@, c),
{
    let mut out: Vec<&'a [char]> = Vec::new();
    let mut rest: &'a [char] = s;
    assert(views(out@) + split_of(rest@, c) =~= split_of(s@, c));
    loop
        invariant_except_break
            views(out@) + split_of(rest@, c) == split_of(s@, c),
        ensures
            views(out@) == split_of(s@, c),
        decreases rest.len(),
    {
        let i = find_char(rest, c);
        let ghost before = views(out@);
        let ghost whole = rest@;
        if i < rest.len() {
            let piece = slice_subrange(rest, 0, i);
            let tail = slice_subrange(rest, i + 1, rest.len());
            out.push(piece);
            rest = tail;
            proof {
                assert(piece@ =~= whole.take(i as int));
                assert(tail@ =~= whole.skip(i as int + 1));
                assert(views(out@) =~= before.push(piece@));
                assert(views(out@) + split_of(rest@, c) =~= before + split_of(whole, c));
            }
        } else {
            out.push(rest);
            proof {
                assert(views(out@) =~= before.push(whole));
                assert(views(out@) =~= before + split_of(whole, c));
            }
            break ;
        }
    }
    out
}

/// A line without the carriage return that may stand in front of its line feed.
pub open spec fn strip_cr(s: Seq<char>) -> Seq<char> {
    if s.len() > 0 && s.last() == '\r' {
        s.drop_last()
    } else {
        s
    }
}

/// The lines of a text: each ends with a line feed, or a carriage return and a line feed, which
/// are no part of it, and an empty last line is left out.
pub open spec fn lines_of(s: Seq<char>) -> Seq<Seq<char>>
    decreases s.len(),
{
    let i = first_index(s, '\n') as int;
    if s.len() == 0 {
        Seq::empty()
    } else if i < s.len() {
        seq![strip_cr(s.take(i))] + lines_of(s.skip(i + 1))
    } else {
        seq![s]
    }
}

pub fn lines<'a>(s: &'a [char]) -> (out: Vec<&'a [char]>)
    ensures
        views(out@) == lines_of(s@),
{
    let mut out: Vec<&'a [char]> = Vec::new();
    let mut rest: &'a [char] = s;
    assert(views(out@) + lines_of(rest@) =~= lines_of(s@));
    while rest.len() > 0
        invariant
            views(out@) + lines_of(rest@) == lines_of(s@),
        decreases rest.len(),
    {
        let i = find_char(rest, '\n');
        let ghost before = views(out@);
        let ghost whole = rest@;
        if i < rest.len() {
            let piece = if i > 0 && rest[i - 1] == '\r' {
                slice_subrange(rest, 0, i - 1)
            } else {
                slice_subrange(rest, 0, i)
            };
            let tail = slice_subrange(rest, i + 1, rest.len());
            out.push(piece);
            rest = tail;
            proof {
                assert(piece@ =~= strip_cr(whole.take(i as int)));
                assert(tail@ =~= whole.skip(i as int + 1));
                assert(views(out@) =~= before.push(piece@));
                assert(views(out@) + lines_of(rest@) =~= before + lines_of(whole));
            }
        } else {
            let tail = slice_subrange(rest, i, rest.len());
            out.push(rest);
            rest = tail;
            proof {
                assert(views(out@) =~= before.push(whole));
                assert(views(out@) + lines_of(rest@) =~= before + lines_of(whole));
            }
        }
    }
    assert(lines_of(rest@) =~= Seq::<Seq<char>>::empty());
    assert(views(out@) + lines_of(rest@) =~= views(out@));
    out
}

/// How many characters at the front of a text are no white space.
pub open spec fn word_len(s: Seq<char>) -> nat
    decreases s.len(),
{
    if s.len() == 0 || is_white(s[0]) {
        0
    } else {
        1 + word_len(s.drop_first())
    }
}

pub proof fn lemma_word_len(s: Seq<char>)
    ensures
        0 <= word_len(s) <= s.len(),
        forall|i: int| 0 <= i < word_len(s) ==> !is_white(#[trigger] s[i]),
        word_len(s) < s.len() ==> is_white(s[word_len(s) as int]),
    decreases s.len(),
{
    if s.len() > 0 && !is_white(s[0]) {
        lemma_word_len(s.drop_first());
        assert forall|i: int| 0 <= i < word_len(s) implies !is_white(#[trigger] s[i]) by {
            if i > 0 {
                assert(s[i] == s.drop_first()[i - 1]);
            }
        }
    }
}

/// The words of a text: its longest runs without white space.
pub open spec fn words_of(s: Seq<char>) -> Seq<Seq<char>>
    decreases s.len(),
{
    if s.len() == 0 {
        Seq::empty()
    } else if is_white(s[0]) {
        words_of(s.drop_first())
    } else {
        proof {
            lemma_word_len(s);
        }
        seq![s.take(word_len(s) as int)] + words_of(s.skip(word_len(s) as int))
    }
}

pub fn split_whitespace<'a>(s: &'a [char]) -> (out: Vec<&'a [char]>)
    ensures
        views(out@) == words_of(s@),
{
    let mut out: Vec<&'a [char]> = Vec::new();
    let mut i: usize = 0;
    assert(s@.skip(0) =~= s@);
    assert(views(out@) + words_of(s@) =~= words_of(s@));
    while i < s.len()
        invariant
            i <= s.len(),
            views(out@) + words_of(s@.skip(i as int)) == words_of(s@),
        decreases s.len() - i,
    {
        let ghost rest = s@.skip(i as int);
        let ghost before = views(out@);
        proof {
            lemma_word_len(rest);
        }
        if is_whitespace(s[i]) {
            assert(rest.drop_first() =~= s@.skip(i as int + 1));
            i += 1;
        } else {
            let start = i;
            while i < s.len() && !is_whitespace(s[i])
                invariant
                    start <= i <= s.len(),
                    word_len(s@.skip(start as int)) == (i - start) + word_len(s@.skip(i as int)),
                decreases s.len() - i,
            {
                assert(s@.skip(i as int).drop_first() =~= s@.skip(i as int + 1));
                i += 1;
            }
            let word = slice_subrange(s, start, i);
            out.push(word);
            proof {
                assert(word@ =~= rest.take(word_len(rest) as int));
                assert(rest.skip(word_len(rest) as int) =~= s@.skip(i as int));
                assert(views(out@) =~= before.push(word@));
                assert(views(out@) + words_of(s@.skip(i as int)) =~= before + words_of(rest));
            }
        }
    }
    assert(s@.skip(i as int) =~= Seq::<char>::empty());
    assert(views(out@) + words_of(s@.skip(i as int)) =~= views(out@));
    out
}

// ---------------------------------------------------------------------------------------------
// Numbers
// ---------------------------------------------------------------------------------------------
/// The decimal digit of a number below ten.
pub open spec fn digit_char(d: nat) -> char {
    (('0' as u32) + d) as char
}

/// A number in decimal digits, without leading zeros.
pub open spec fn decimal_of(n: nat) -> Seq<char>
    decreases n,
{
    if n < 10 {
        seq![digit_char(n)]
    } else {
        decimal_of(n / 10).push(digit_char(n % 10))
    }
}

/// The hexadecimal digit of a number below sixteen, in lower case.
pub open spec fn hex_digit(d: nat) -> char {
    if d < 10 {
        digit_char(d)
    } else {
        (('a' as u32) + (d - 10)) as char
    }
}

/// A number in lower case hexadecimal digits, without leading zeros.
pub open spec fn hex_of(n: nat) -> Seq<char>
    decreases n,
{
    if n < 16 {
        seq![hex_digit(n)]
    } else {
        hex_of(n / 16).push(hex_digit(n % 16))
    }
}

/// Different numbers have different digits.
pub proof fn lemma_decimal_injective(m: nat, n: nat)
    ensures
        decimal_of(m) == decimal_of(n) ==> m == n,
    decreases m,
{
    if decimal_of(m) == decimal_of(n) {
        lemma_decimal_len(m);
        lemma_decimal_len(n);
        if m < 10 {
            assert(decimal_of(m)[0] == digit_char(m));
            assert(n < 10);
        } else {
            assert(n >= 10);
            assert(decimal_of(m).drop_last() =~= decimal_of(m / 10));
            assert(decimal_of(n).drop_last() =~= decimal_of(n / 10));
            lemma_decimal_injective(m / 10, n / 10);
            assert(decimal_of(m).last() == digit_char(m % 10));
            assert(decimal_of(n).last() == digit_char(n % 10));
        }
    }
}

proof fn lemma_decimal_len(n: nat)
    ensures
        decimal_of(n).len() >= 1,
        decimal_of(n).len() == 1 <==> n < 10,
    decreases n,
{
    if n >= 10 {
        lemma_decimal_len(n / 10);
    }
}

fn digit(d: u64) -> (c: char)
    requires
        d < 16,
    ensures
        c == hex_digit(d as nat),
{
    if d < 10 {
        (48u8 + d as u8) as char
    } else {
        (97u8 + (d as u8 - 10)) as char
    }
}

/// Appends a number in decimal digits.
pub fn push_decimal(out: &mut String, n: u64)
    ensures
        final(out)@ == old(out)@ + decimal_of(n as nat),
    decreases n,
{
    if n >= 10 {
        push_decimal(out, n / 10);
    }
    out.push(digit(n % 10));
    assert(out@ =~= old(out)@ + decimal_of(n as nat));
}

/// Appends a number in lower case hexadecimal digits.
pub fn push_hex(out: &mut String, n: u64)
    ensures
        final(out)@ == old(out)@ + hex_of(n as nat),
    decreases n,
{
    if n >= 16 {
        push_hex(out, n / 16);
    }
    out.push(digit(n % 16));
    assert(out@ =~= old(out)@ + hex_of(n as nat));
}

// ---------------------------------------------------------------------------------------------
// Several texts
// ---------------------------------------------------------------------------------------------
/// The texts of a list of strings.
pub open spec fn names_view(names: Seq<String>) -> Seq<Seq<char>> {
    names.map_values(|s: String| s@)
}

/// Texts one behind the other, with a separator between them.
pub open spec fn joined(parts: Seq<Seq<char>>, sep: Seq<char>) -> Seq<char>
    decreases parts.len(),
{
    if parts.len() == 0 {
        Seq::empty()
    } else if parts.len() == 1 {
        parts[0]
    } else {
        joined(parts.drop_last(), sep) + sep + parts.last()
    }
}

/// Texts one behind the other, with a separator between them.
pub fn join(parts: &Vec<String>, sep: &str) -> (r: String)
    ensures
        r@ == joined(names_view(parts@), sep@),
{
    let mut out = String::new();
    let mut i: usize = 0;
    let ghost all = names_view(parts@);
    assert(all.take(0) =~= Seq::empty());
    while i < parts.len()
        invariant
            i <= parts.len(),
            all == names_view(parts@),
            out@ == joined(all.take(i as int), sep@),
        decreases parts.len() - i,
    {
        assert(all.take(i as int + 1).drop_last() =~= all.take(i as int));
        assert(all[i as int] == parts@[i as int]@);
        if i > 0 {
            out.append(sep);
        }
        out.append(parts[i].as_str());
        i += 1;
        assert(out@ =~= joined(all.take(i as int), sep@));
    }
    assert(all.take(i as int) =~= all);
    out
}

/// Two texts, one behind the other.
pub fn appended(a: &str, b: &str) -> (r: String)
    ensures
        r@ == a@ + b@,
{
    let mut out = a.to_string();
    out.append(b);
    out
}

// ---------------------------------------------------------------------------------------------
// Laws
// ---------------------------------------------------------------------------------------------
/// Trimming the start of a text takes off white space and nothing else, and all of it.
pub proof fn law_trim_start(s: Seq<char>)
    ensures
        trim_start_of(s).len() <= s.len(),
        trim_start_of(s) == s.skip(s.len() - trim_start_of(s).len()),
        forall|i: int| 0 <= i < s.len() - trim_start_of(s).len() ==> is_white(#[trigger] s[i]),
        trim_start_of(s).len() > 0 ==> !is_white(trim_start_of(s)[0]),
    decreases s.len(),
{
    if s.len() > 0 && is_white(s[0]) {
        let rest = s.drop_first();
        law_trim_start(rest);
        let t = trim_start_of(s);
        assert(t =~= s.skip(s.len() - t.len()));
        assert forall|i: int| 0 <= i < s.len() - t.len() implies is_white(#[trigger] s[i]) by {
            if i > 0 {
                assert(s[i] == rest[i - 1]);
            }
        }
    } else {
        assert(s.skip(0) =~= s);
    }
}

/// Trimming the end of a text takes off white space and nothing else, and all of it.
pub proof fn law_trim_end(s: Seq<char>)
    ensures
        trim_end_of(s).len() <= s.len(),
        trim_end_of(s) == s.take(trim_end_of(s).len() as int),
        forall|i: int| trim_end_of(s).len() <= i < s.len() ==> is_white(#[trigger] s[i]),
        trim_end_of(s).len() > 0 ==> !is_white(trim_end_of(s).last()),
    decreases s.len(),
{
    if s.len() > 0 && is_white(s.last()) {
        let rest = s.drop_last();
        law_trim_end(rest);
        let t = trim_end_of(s);
        assert(t =~= s.take(t.len() as int));
        assert forall|i: int| t.len() <= i < s.len() implies is_white(#[trigger] s[i]) by {
            if i < rest.len() {
                assert(s[i] == rest[i]);
            }
        }
    } else {
        assert(s.take(s.len() as int) =~= s);
    }
}

/// A text without white space at its ends is what is left of it between any white space, and a text
/// of white space alone leaves nothing.
pub proof fn law_trim(front: Seq<char>, s: Seq<char>, back: Seq<char>)
    requires
        forall|i: int| 0 <= i < front.len() ==> is_white(#[trigger] front[i]),
        forall|i: int| 0 <= i < back.len() ==> is_white(#[trigger] back[i]),
        s.len() > 0 ==> !is_white(s[0]) && !is_white(s.last()),
    ensures
        trim_of(front + s + back) == s,
{
    let whole = front + s + back;
    law_trim_start(whole);
    let t = trim_start_of(whole);
    law_trim_end(t);
    let cut = whole.len() - t.len();
    let u = trim_end_of(t);
    if s.len() > 0 {
        assert(whole[front.len() as int] == s[0]);
        assert(cut <= front.len());
        if cut < front.len() {
            assert(t[0] == whole[cut]);
            assert(whole[cut] == front[cut]);
        }
        assert(t =~= s + back);
        if u.len() < s.len() {
            assert(t[s.len() - 1] == s.last());
        }
        if u.len() > s.len() {
            assert(u.last() == t[u.len() - 1]);
            assert(t[u.len() - 1] == back[u.len() - 1 - s.len()]);
        }
        assert(u =~= s);
    } else {
        if t.len() > 0 {
            assert(t[0] == whole[cut]);
            if cut < front.len() {
                assert(whole[cut] == front[cut]);
            } else {
                assert(whole[cut] == back[cut - front.len()]);
            }
        }
        assert(u =~= s);
    }
}

/// Trimming copies of a character off the end of a text takes off all of them and nothing else.
pub proof fn law_trim_end_char(s: Seq<char>, c: char)
    ensures
        trim_end_char(s, c).len() <= s.len(),
        trim_end_char(s, c) == s.take(trim_end_char(s, c).len() as int),
        forall|i: int| trim_end_char(s, c).len() <= i < s.len() ==> #[trigger] s[i] == c,
        trim_end_char(s, c).len() > 0 ==> trim_end_char(s, c).last() != c,
    decreases s.len(),
{
    if s.len() > 0 && s.last() == c {
        let rest = s.drop_last();
        law_trim_end_char(rest, c);
        let t = trim_end_char(s, c);
        assert(t =~= s.take(t.len() as int));
        assert forall|i: int| t.len() <= i < s.len() implies #[trigger] s[i] == c by {
            if i < rest.len() {
                assert(s[i] == rest[i]);
            }
        }
    } else {
        assert(s.take(s.len() as int) =~= s);
    }
}

/// Trimming copies of a character off the start of a text takes off all of them and nothing else.
pub proof fn law_trim_start_char(s: Seq<char>, c: char)
    ensures
        trim_start_char(s, c).len() <= s.len(),
        trim_start_char(s, c) == s.skip(s.len() - trim_start_char(s, c).len()),
        forall|i: int| 0 <= i < s.len() - trim_start_char(s, c).len() ==> #[trigger] s[i] == c,
        trim_start_char(s, c).len() > 0 ==> trim_start_char(s, c)[0] != c,
    decreases s.len(),
{
    if s.len() > 0 && s[0] == c {
        let rest = s.drop_first();
        law_trim_start_char(rest, c);
        let t = trim_start_char(s, c);
        assert(t =~= s.skip(s.len() - t.len()));
        assert forall|i: int| 0 <= i < s.len() - t.len() implies #[trigger] s[i] == c by {
            if i > 0 {
                assert(s[i] == rest[i - 1]);
            }
        }
    } else {
        assert(s.skip(0) =~= s);
    }
}

/// A text holds another one exactly if it is made of some text, the other one, and some more text.
pub proof fn law_holds(front: Seq<char>, p: Seq<char>, back: Seq<char>, s: Seq<char>)
    ensures
        holds(front + p + back, p),
        holds(s, p) ==> exists|a: Seq<char>, b: Seq<char>| #[trigger] (a + p + b) == s,
{
    let whole = front + p + back;
    let k = front.len() as int;
    assert(whole.subrange(k, k + p.len()) =~= p);
    assert(holds_at(whole, p, k));
    if holds(s, p) {
        let i = choose|i: int| holds_at(s, p, i);
        assert(s.take(i) + p + s.skip(i + p.len()) =~= s) by {
            assert forall|j: int| 0 <= j < p.len() implies s[i + j] == p[j] by {
                assert(s.subrange(i, i + p.len())[j] == p[j]);
            }
        }
    }
}

/// A text is a prefix of another one exactly if it agrees with it character by character.
pub proof fn lemma_prefix(p: Seq<char>, s: Seq<char>)
    ensures
        p.is_prefix_of(s) <==> p.len() <= s.len() && forall|i: int|
            0 <= i < p.len() ==> #[trigger] s[i] == p[i],
{
    if p.is_prefix_of(s) {
        assert forall|i: int| 0 <= i < p.len() implies #[trigger] s[i] == p[i] by {
            assert(s.subrange(0, p.len() as int)[i] == p[i]);
        }
    }
    if p.len() <= s.len() && forall|i: int| 0 <= i < p.len() ==> #[trigger] s[i] == p[i] {
        assert(p =~= s.subrange(0, p.len() as int));
    }
}

/// The index of the first copy of a character is in front of every other copy.
pub proof fn law_first_index(s: Seq<char>, c: char)
    ensures
        first_index(s, c) <= s.len(),
        forall|i: int| 0 <= i < first_index(s, c) ==> #[trigger] s[i] != c,
        first_index(s, c) < s.len() ==> s[first_index(s, c) as int] == c,
    decreases s.len(),
{
    if s.len() > 0 && s[0] != c {
        let rest = s.drop_first();
        law_first_index(rest, c);
        assert forall|i: int| 0 <= i < first_index(s, c) implies #[trigger] s[i] != c by {
            if i > 0 {
                assert(s[i] == rest[i - 1]);
            }
        }
    }
}

proof fn lemma_joined_add(a: Seq<Seq<char>>, b: Seq<Seq<char>>, sep: Seq<char>)
    requires
        a.len() > 0,
        b.len() > 0,
    ensures
        joined(a + b, sep) == joined(a, sep) + sep + joined(b, sep),
    decreases b.len(),
{
    assert((a + b).drop_last() =~= a + b.drop_last());
    assert((a + b).last() == b.last());
    if b.len() == 1 {
        assert(a + b.drop_last() =~= a);
        assert(joined(b, sep) == b[0]);
    } else {
        lemma_joined_add(a, b.drop_last(), sep);
        assert(joined(a + b, sep) =~= joined(a, sep) + sep + joined(b, sep));
    }
}

/// Joining joins: one text stays as it is, and two groups of texts come one behind the other with
/// the separator in between.
pub proof fn law_joined(a: Seq<Seq<char>>, b: Seq<Seq<char>>, one: Seq<char>, sep: Seq<char>)
    ensures
        joined(Seq::empty(), sep) == Seq::<char>::empty(),
        joined(seq![one], sep) == one,
        a.len() > 0 && b.len() > 0 ==> joined(a + b, sep) == joined(a, sep) + sep + joined(b, sep),
{
    if a.len() > 0 && b.len() > 0 {
        lemma_joined_add(a, b, sep);
    }
}

/// Each of several texts is there when they are joined.
pub proof fn law_joined_holds_each(parts: Seq<Seq<char>>, sep: Seq<char>, i: int)
    requires
        0 <= i < parts.len(),
    ensures
        holds(joined(parts, sep), parts[i]),
{
    let front = parts.take(i);
    let back = parts.skip(i + 1);
    let one = seq![parts[i]];
    assert(joined(one, sep) == parts[i]);
    let none = Seq::<char>::empty();
    assert(parts =~= front + one + back);
    let head = if i > 0 {
        lemma_joined_add(front, one, sep);
        joined(front, sep) + sep
    } else {
        assert(front + one =~= one);
        none
    };
    assert(joined(front + one, sep) =~= head + parts[i]);
    let tail = if back.len() > 0 {
        lemma_joined_add(front + one, back, sep);
        sep + joined(back, sep)
    } else {
        assert(front + one + back =~= front + one);
        none
    };
    assert(joined(parts, sep) =~= head + parts[i] + tail);
    law_holds(head, parts[i], tail, none);
}

/// The pieces of a text hold no copy of the character between them, and joined with it they are the
/// text.
pub proof fn law_split(s: Seq<char>, c: char)
    ensures
        split_of(s, c).len() > 0,
        joined(split_of(s, c), seq![c]) == s,
        forall|k: int, i: int|
            0 <= k < split_of(s, c).len() && 0 <= i < split_of(s, c)[k].len()
                ==> #[trigger] split_of(s, c)[k][i] != c,
    decreases s.len(),
{
    law_first_index(s, c);
    let i = first_index(s, c) as int;
    let all = split_of(s, c);
    if i < s.len() {
        let rest = s.skip(i + 1);
        law_split(rest, c);
        let one = seq![s.take(i)];
        lemma_joined_add(one, split_of(rest, c), seq![c]);
        assert(joined(one, seq![c]) == s.take(i));
        assert(s =~= s.take(i) + seq![c] + rest);
        assert forall|k: int, j: int| 0 <= k < all.len() && 0 <= j < all[k].len() implies
            #[trigger] all[k][j] != c by {
            if k > 0 {
                assert(all[k] == split_of(rest, c)[k - 1]);
            } else {
                assert(all[0][j] == s[j]);
            }
        }
    } else {
        assert(joined(all, seq![c]) == s);
    }
}

/// A line that a line feed ends is the first line of a text, without the carriage return that may
/// stand there, and the others are the lines of the rest; without a line feed the text is one line.
pub proof fn law_lines(line: Seq<char>, rest: Seq<char>)
    requires
        forall|i: int| 0 <= i < line.len() ==> #[trigger] line[i] != '\n',
    ensures
        lines_of(line + seq!['\r', '\n'] + rest) == seq![line] + lines_of(rest),
        line.len() == 0 || line.last() != '\r' ==> lines_of(line + seq!['\n'] + rest) == seq![line]
            + lines_of(rest),
        line.len() > 0 ==> lines_of(line) == seq![line],
        lines_of(Seq::empty()) == Seq::<Seq<char>>::empty(),
{
    let a = line + seq!['\r', '\n'] + rest;
    let b = line + seq!['\n'] + rest;
    let n = line.len() as int;
    law_first_index(a, '\n');
    law_first_index(b, '\n');
    law_first_index(line, '\n');
    assert(a[n] == '\r' && a[n + 1] == '\n' && b[n] == '\n');
    let i = first_index(a, '\n') as int;
    if i < n {
        assert(a[i] == line[i]);
    }
    assert(i == n + 1);
    assert(a.take(i) =~= line.push('\r'));
    assert(line.push('\r').drop_last() =~= line);
    assert(a.skip(i + 1) =~= rest);
    let j = first_index(b, '\n') as int;
    if j < n {
        assert(b[j] == line[j]);
    }
    assert(j == n);
    assert(b.take(j) =~= line);
    assert(b.skip(j + 1) =~= rest);
}

proof fn lemma_words_of_one(w: Seq<char>)
    requires
        w.len() > 0,
        forall|i: int| 0 <= i < w.len() ==> !is_white(#[trigger] w[i]),
    ensures
        words_of(w) == seq![w],
{
    lemma_word_len(w);
    assert(!is_white(w[0]));
    if word_len(w) < w.len() {
        assert(!is_white(w[word_len(w) as int]));
    }
    assert(w.take(w.len() as int) =~= w);
    assert(w.skip(w.len() as int) =~= Seq::empty());
    assert(words_of(w.skip(w.len() as int)) =~= Seq::empty());
    assert(words_of(w) =~= seq![w]);
}

proof fn lemma_words_of_add(a: Seq<char>, b: Seq<char>)
    requires
        b.len() > 0 && is_white(b[0]),
    ensures
        words_of(a + b) == words_of(a) + words_of(b),
    decreases a.len(),
{
    let whole = a + b;
    if a.len() == 0 {
        assert(whole =~= b);
        assert(words_of(a) + words_of(b) =~= words_of(b));
    } else if is_white(a[0]) {
        assert(whole.drop_first() =~= a.drop_first() + b);
        lemma_words_of_add(a.drop_first(), b);
    } else {
        lemma_word_len(a);
        lemma_word_len(whole);
        let n = word_len(a) as int;
        let m = word_len(whole) as int;
        if m < n {
            assert(whole[m] == a[m]);
        }
        if m > n {
            if n < a.len() {
                assert(whole[n] == a[n]);
            } else {
                assert(whole[n] == b[0]);
            }
        }
        assert(whole.take(m) =~= a.take(n));
        assert(whole.skip(m) =~= a.skip(n) + b);
        lemma_words_of_add(a.skip(n), b);
        assert(words_of(whole) =~= words_of(a) + words_of(b));
    }
}

/// A run without white space is one word, and what stands on both sides of white space has its
/// words on its own.
pub proof fn law_words(w: Seq<char>, a: Seq<char>, c: char, b: Seq<char>)
    requires
        is_white(c),
    ensures
        w.len() > 0 && (forall|i: int| 0 <= i < w.len() ==> !is_white(#[trigger] w[i])) ==> words_of(
            w,
        ) == seq![w],
        words_of(a + seq![c] + b) == words_of(a) + words_of(b),
        words_of(Seq::empty()) == Seq::<Seq<char>>::empty(),
{
    if w.len() > 0 && (forall|i: int| 0 <= i < w.len() ==> !is_white(#[trigger] w[i])) {
        lemma_words_of_one(w);
    }
    let back = seq![c] + b;
    assert(back.drop_first() =~= b);
    assert(a + seq![c] + b =~= a + back);
    lemma_words_of_add(a, back);
}

/// The number that digits write in a base, by the characters of their digits.
pub open spec fn written_number(digits: Seq<char>, base: nat) -> nat
    decreases digits.len(),
{
    if digits.len() == 0 {
        0
    } else {
        let c = digits.last();
        let d = if '0' <= c <= '9' {
            c as nat - '0' as nat
        } else {
            c as nat - 'a' as nat + 10
        };
        (written_number(digits.drop_last(), base) * base + d) as nat
    }
}

/// A number that is written in decimal digits is read back from them; there are only digits and no
/// zero stands in front.
pub proof fn law_decimal(n: nat)
    ensures
        written_number(decimal_of(n), 10) == n,
        decimal_of(n).len() > 0,
        forall|i: int| 0 <= i < decimal_of(n).len() ==> '0' <= #[trigger] decimal_of(n)[i] <= '9',
        n > 0 ==> decimal_of(n)[0] != '0',
    decreases n,
{
    if n >= 10 {
        law_decimal(n / 10);
        assert(decimal_of(n).drop_last() =~= decimal_of(n / 10));
    } else {
        assert(decimal_of(n).drop_last() =~= Seq::empty());
        assert(written_number(Seq::empty(), 10) == 0);
    }
}

/// A number that is written in hexadecimal digits is read back from them, and no zero stands in
/// front.
pub proof fn law_hex(n: nat)
    ensures
        written_number(hex_of(n), 16) == n,
        hex_of(n).len() > 0,
        forall|i: int|
            0 <= i < hex_of(n).len() ==> ('0' <= #[trigger] hex_of(n)[i] <= '9' || 'a'
                <= hex_of(n)[i] <= 'f'),
        n > 0 ==> hex_of(n)[0] != '0',
    decreases n,
{
    if n >= 16 {
        law_hex(n / 16);
        assert(hex_of(n).drop_last() =~= hex_of(n / 16));
    } else {
        assert(hex_of(n).drop_last() =~= Seq::empty());
        assert(written_number(Seq::empty(), 16) == 0);
    }
}

/// An identifier goes on for as long as there are characters that it may go on with.
pub proof fn law_ident_end(s: Seq<char>, from: int)
    requires
        0 <= from <= s.len(),
    ensures
        from <= ident_end(s, from) <= s.len(),
        forall|i: int| from <= i < ident_end(s, from) ==> ident_continue(#[trigger] s[i]),
        ident_end(s, from) < s.len() ==> !ident_continue(s[ident_end(s, from)]),
    decreases s.len() - from,
{
    if from < s.len() && ident_continue(s[from]) {
        law_ident_end(s, from + 1);
    }
}

/// In ASCII an identifier starts with a letter or an underscore, and goes on with these, digits and
/// primes; the upper case letters are the capitals.
pub proof fn law_ascii_classes(c: char)
    requires
        (c as u32) < 128,
    ensures
        ident_start(c) <==> ('a' <= c <= 'z' || 'A' <= c <= 'Z' || c == '_'),
        ident_continue(c) <==> (ident_start(c) || '0' <= c <= '9' || c == '\''),
        upper_case(c) <==> 'A' <= c <= 'Z',
        is_white(c) <==> (c == ' ' || '\t' <= c <= '\r'),
{
}

/// A text takes one UTF-16 code unit for each character, and one more for each beyond the basic
/// plane.
pub proof fn law_utf16_len(s: Seq<char>)
    ensures
        utf16_len(s) == s.len() + s.filter(|c: char| c as u32 >= 0x10000).len(),
    decreases s.len(),
{
    reveal(Seq::filter);
    if s.len() > 0 {
        law_utf16_len(s.drop_last());
    }
}

} // verus!
