//! Finds the words of a Lean line that are worth a colour: numbers, capitalized names, members
//! behind a dot, and the names that declarations introduce.
use crate::code_lens::{
    decl_word, find_keyword, keyword_of, lemma_decl_word, lemma_keyword_of, line_opens_with,
};
use crate::text::{
    ident_continue, ident_end, ident_start, is_digit, is_ident_continue, is_ident_start,
    is_uppercase, is_white, is_whitespace, law_ident_end, law_trim_start, lemma_ident_end,
    lemma_utf16_len_prefix, low32, skip_ident, split, split_of, trim_end_char, trim_end_matches,
    trim_start, trim_start_of, upper_case, utf16_count, utf16_len, views,
};
use vstd::prelude::*;
use vstd::slice::slice_subrange;

verus! {

/// A coloured stretch of a line, in UTF-16 code units.
#[derive(Clone, Copy, Debug, PartialEq, Eq, Structural)]
pub struct Token {
    pub line: u32,
    pub start: u32,
    pub length: u32,
    pub ty: u32,
    pub modifiers: u32,
}

/// The token of the characters from `start` up to and without `end` of a line.
pub open spec fn token_of(s: Seq<char>, line: nat, start: int, end: int, ty: u32) -> Token {
    Token {
        line: low32(line),
        start: low32(utf16_len(s.take(start))),
        length: low32(utf16_len(s.subrange(start, end))),
        ty,
        modifiers: 0,
    }
}

/// The token of the characters from `start` up to and without `end` of a line.
pub fn make_token(s: &[char], line: usize, start: usize, end: usize, ty: u32) -> (r: Token)
    requires
        start <= end <= s.len(),
    ensures
        r == token_of(s@, line as nat, start as int, end as int, ty),
{
    let utf16_start = utf16_count(slice_subrange(s, 0, start));
    let utf16_len = utf16_count(slice_subrange(s, start, end));
    assert(s@.subrange(0, start as int) =~= s@.take(start as int));
    let wide: u64 = line as u64;
    assert(wide as u32 == wide % 0x1_0000_0000) by (bit_vector);
    Token { line: wide as u32, start: utf16_start, length: utf16_len, ty, modifiers: 0 }
}

/// What kind of word a scan looks for.
pub enum Word {
    Number,
    Capital,
    Member,
}

/// Where the run of digits that starts at an index ends.
pub open spec fn digits_end(s: Seq<char>, from: int) -> int
    decreases s.len() - from,
{
    if 0 <= from < s.len() && is_digit(s[from]) {
        digits_end(s, from + 1)
    } else {
        from
    }
}

/// Whether an identifier goes on in front of an index.
pub open spec fn inside_ident(s: Seq<char>, i: int) -> bool {
    i > 0 && ident_continue(s[i - 1])
}

/// The word of a kind that an index gives rise to, from its first character up to and without its
/// end:
/// * a number is a run of digits that no identifier character touches;
/// * a capitalized name is an identifier that starts with an upper case character;
/// * a member is an identifier behind a dot that no other dot follows.
pub open spec fn word_at(word: Word, s: Seq<char>, i: int) -> Option<(int, int)> {
    match word {
        Word::Number => {
            let end = digits_end(s, i);
            if is_digit(s[i]) && !inside_ident(s, i) && !(end < s.len() && ident_continue(s[end])) {
                Some((i, end))
            } else {
                None
            }
        },
        Word::Capital => if upper_case(s[i]) && !inside_ident(s, i) {
            Some((i, ident_end(s, i)))
        } else {
            None
        },
        Word::Member => {
            let after = i + 1;
            let end = ident_end(s, after);
            if s[i] == '.' && after < s.len() && s[after] != '.' && ident_start(s[after]) && end
                > after {
                Some((after, end))
            } else {
                None
            }
        },
    }
}

/// The tokens for the words of a kind that a line holds from an index on.
pub open spec fn word_tokens(word: Word, s: Seq<char>, line: nat, ty: u32, i: int) -> Seq<Token>
    decreases s.len() - i,
{
    if i < 0 || i >= s.len() {
        Seq::empty()
    } else {
        let rest = word_tokens(word, s, line, ty, i + 1);
        match word_at(word, s, i) {
            Some((start, end)) => seq![token_of(s, line, start, end, ty)] + rest,
            None => rest,
        }
    }
}

/// No word starts in the rest of a run of identifier characters.
proof fn lemma_skip_run(word: Word, s: Seq<char>, line: nat, ty: u32, i: int, j: int)
    requires
        !(word is Member),
        0 < i <= j <= s.len(),
        forall|k: int| i <= k < j ==> ident_continue(#[trigger] s[k - 1]),
    ensures
        word_tokens(word, s, line, ty, i) == word_tokens(word, s, line, ty, j),
    decreases j - i,
{
    if i < j {
        assert(ident_continue(s[i - 1]));
        lemma_skip_run(word, s, line, ty, i + 1, j);
    }
}

proof fn lemma_digits_end(s: Seq<char>, from: int)
    requires
        0 <= from <= s.len(),
    ensures
        from <= digits_end(s, from) <= s.len(),
        forall|i: int| from <= i < digits_end(s, from) ==> is_digit(#[trigger] s[i]),
    decreases s.len() - from,
{
    if from < s.len() && is_digit(s[from]) {
        lemma_digits_end(s, from + 1);
    }
}

/// Appends the tokens of a line's numbers.
pub fn scan_numbers_in_line(s: &[char], line: usize, ty: u32, out: &mut Vec<Token>)
    ensures
        final(out)@ == old(out)@ + word_tokens(Word::Number, s@, line as nat, ty, 0),
{
    let mut i: usize = 0;
    let ghost all = old(out)@ + word_tokens(Word::Number, s@, line as nat, ty, 0);
    while i < s.len()
        invariant
            i <= s.len(),
            out@ + word_tokens(Word::Number, s@, line as nat, ty, i as int) == all,
        decreases s.len() - i,
    {
        let ghost before = out@;
        let ghost from = i as int;
        let c = s[i];
        if '0' <= c && c <= '9' && !(i > 0 && is_ident_continue(s[i - 1])) {
            let start = i;
            while i < s.len() && '0' <= s[i] && s[i] <= '9'
                invariant
                    start <= i <= s.len(),
                    digits_end(s@, start as int) == digits_end(s@, i as int),
                decreases s.len() - i,
            {
                i += 1;
            }
            proof {
                lemma_digits_end(s@, start as int);
                lemma_skip_run(Word::Number, s@, line as nat, ty, start + 1, i as int);
            }
            if !(i < s.len() && is_ident_continue(s[i])) {
                out.push(make_token(s, line, start, i, ty));
            }
            assert(out@ + word_tokens(Word::Number, s@, line as nat, ty, i as int) =~= before
                + word_tokens(Word::Number, s@, line as nat, ty, from));
        } else {
            i += 1;
        }
    }
    assert(out@ + word_tokens(Word::Number, s@, line as nat, ty, i as int) =~= out@);
}

/// Appends the tokens of a line's capitalized names.
pub fn scan_caps_in_line(s: &[char], line: usize, ty: u32, out: &mut Vec<Token>)
    ensures
        final(out)@ == old(out)@ + word_tokens(Word::Capital, s@, line as nat, ty, 0),
{
    let mut i: usize = 0;
    let ghost all = old(out)@ + word_tokens(Word::Capital, s@, line as nat, ty, 0);
    while i < s.len()
        invariant
            i <= s.len(),
            out@ + word_tokens(Word::Capital, s@, line as nat, ty, i as int) == all,
        decreases s.len() - i,
    {
        let ghost before = out@;
        let ghost from = i as int;
        if is_uppercase(s[i]) && !(i > 0 && is_ident_continue(s[i - 1])) {
            let start = i;
            let end = skip_ident(s, i);
            out.push(make_token(s, line, start, end, ty));
            i = if end > start {
                end
            } else {
                start + 1
            };
            proof {
                lemma_ident_end(s@, start as int);
                lemma_skip_run(Word::Capital, s@, line as nat, ty, start + 1, i as int);
                assert(out@ + word_tokens(Word::Capital, s@, line as nat, ty, i as int) =~= before
                    + word_tokens(Word::Capital, s@, line as nat, ty, from));
            }
        } else {
            i += 1;
        }
    }
    assert(out@ + word_tokens(Word::Capital, s@, line as nat, ty, i as int) =~= out@);
}

/// Appends the tokens of the names behind the dots of a line.
pub fn scan_member_in_line(s: &[char], line: usize, ty: u32, out: &mut Vec<Token>)
    ensures
        final(out)@ == old(out)@ + word_tokens(Word::Member, s@, line as nat, ty, 0),
{
    let mut i: usize = 0;
    let ghost all = old(out)@ + word_tokens(Word::Member, s@, line as nat, ty, 0);
    while i < s.len()
        invariant
            i <= s.len(),
            out@ + word_tokens(Word::Member, s@, line as nat, ty, i as int) == all,
        decreases s.len() - i,
    {
        let ghost before = out@;
        let after = i + 1;
        if s[i] == '.' && after < s.len() && s[after] != '.' && is_ident_start(s[after]) {
            let end = skip_ident(s, after);
            if end > after {
                out.push(make_token(s, line, after, end, ty));
                assert(out@ + word_tokens(Word::Member, s@, line as nat, ty, i + 1) =~= before
                    + word_tokens(Word::Member, s@, line as nat, ty, i as int));
            }
        }
        i += 1;
    }
    assert(out@ + word_tokens(Word::Member, s@, line as nat, ty, i as int) =~= out@);
}

/// The first index, from a given one on, at which no white space stands, or the end.
pub open spec fn skip_white(s: Seq<char>, i: int) -> int
    decreases s.len() - i,
{
    if 0 <= i < s.len() && is_white(s[i]) {
        skip_white(s, i + 1)
    } else {
        i
    }
}

/// Where the name that a line declares stands: behind its keyword and white space, as far as the
/// identifier goes.
pub open spec fn declared_name(s: Seq<char>) -> Option<(int, int)> {
    let trimmed = trim_start_of(s);
    match keyword_of(trimmed) {
        Some(kw) => {
            let start = skip_white(s, s.len() - trimmed.len() + kw.len());
            let end = ident_end(s, start);
            if end > start {
                Some((start, end))
            } else {
                None
            }
        },
        None => None,
    }
}

/// The token of the name that a line declares.
pub open spec fn decl_tokens(s: Seq<char>, line: nat, ty: u32) -> Seq<Token> {
    match declared_name(s) {
        Some((start, end)) => seq![token_of(s, line, start, end, ty)],
        None => Seq::empty(),
    }
}

/// Appends the token of the name that a line declares.
pub fn scan_decl_in_line(s: &[char], line: usize, ty: u32, out: &mut Vec<Token>)
    ensures
        final(out)@ == old(out)@ + decl_tokens(s@, line as nat, ty),
{
    let trimmed = trim_start(s);
    let leading: usize = s.len() - trimmed.len();
    if let Some((_, kw_len)) = find_keyword(trimmed) {
        let from: usize = leading + kw_len;
        let mut start: usize = from;
        while start < s.len() && is_whitespace(s[start])
            invariant
                from <= start <= s.len(),
                skip_white(s@, from as int) == skip_white(s@, start as int),
            decreases s.len() - start,
        {
            start += 1;
        }
        let end = skip_ident(s, start);
        if end > start {
            out.push(make_token(s, line, start, end, ty));
            assert(out@ =~= old(out)@ + decl_tokens(s@, line as nat, ty));
            return;
        }
    }
    assert(out@ =~= old(out)@ + decl_tokens(s@, line as nat, ty));
}

/// The token types of the words that a scan looks for; a kind without one is not looked for.
#[derive(Clone, Copy, Debug, PartialEq, Eq, Structural)]
pub struct ScanKinds {
    pub number: Option<u32>,
    pub decl_name: Option<u32>,
    pub capitalized: Option<u32>,
    pub member: Option<u32>,
}

impl ScanKinds {
    /// Whether there is anything to look for.
    pub open spec fn has_any(self) -> bool {
        self.number is Some || self.decl_name is Some || self.capitalized is Some
            || self.member is Some
    }

    pub fn any(&self) -> (r: bool)
        ensures
            r == self.has_any(),
    {
        self.number.is_some() || self.decl_name.is_some() || self.capitalized.is_some()
            || self.member.is_some()
    }
}

/// The tokens of a line: the declared name, the numbers, the capitalized names, the members.
pub open spec fn line_tokens(s: Seq<char>, line: nat, kinds: ScanKinds) -> Seq<Token> {
    let decl = match kinds.decl_name {
        Some(ty) => decl_tokens(s, line, ty),
        None => Seq::empty(),
    };
    let numbers = match kinds.number {
        Some(ty) => word_tokens(Word::Number, s, line, ty, 0),
        None => Seq::empty(),
    };
    let caps = match kinds.capitalized {
        Some(ty) => word_tokens(Word::Capital, s, line, ty, 0),
        None => Seq::empty(),
    };
    let members = match kinds.member {
        Some(ty) => word_tokens(Word::Member, s, line, ty, 0),
        None => Seq::empty(),
    };
    decl + numbers + caps + members
}

/// The tokens of several lines, from a given one on.
pub open spec fn tokens_from(lines: Seq<Seq<char>>, k: int, kinds: ScanKinds) -> Seq<Token>
    decreases lines.len() - k,
{
    if k < 0 || k >= lines.len() {
        Seq::empty()
    } else {
        line_tokens(lines[k], k as nat, kinds) + tokens_from(lines, k + 1, kinds)
    }
}

/// The lines of a text, without the carriage returns at their ends.
pub open spec fn source_lines(text: Seq<char>) -> Seq<Seq<char>> {
    split_of(text, '\n').map_values(|l: Seq<char>| trim_end_char(l, '\r'))
}

/// The tokens of a text.
pub open spec fn scanned(text: Seq<char>, kinds: ScanKinds) -> Seq<Token> {
    tokens_from(source_lines(text), 0, kinds)
}

/// The lines of a text, without the carriage returns at their ends.
pub fn split_lines<'a>(text: &'a [char]) -> (out: Vec<&'a [char]>)
    ensures
        views(out@) == source_lines(text@),
{
    let raw = split(text, '\n');
    let mut out: Vec<&'a [char]> = Vec::new();
    let mut k: usize = 0;
    while k < raw.len()
        invariant
            k <= raw.len(),
            out.len() == k,
            views(raw@) == split_of(text@, '\n'),
            forall|j: int| 0 <= j < k ==> (#[trigger] out@[j])@ == trim_end_char(raw@[j]@, '\r'),
        decreases raw.len() - k,
    {
        out.push(trim_end_matches(raw[k], '\r'));
        k += 1;
    }
    assert forall|j: int| 0 <= j < out.len() implies #[trigger] views(out@)[j] == source_lines(
        text@,
    )[j] by {
        assert(views(raw@)[j] == raw@[j]@);
    }
    assert(views(raw@).len() == raw@.len());
    assert(views(out@) =~= source_lines(text@));
    out
}

proof fn lemma_no_kinds(lines: Seq<Seq<char>>, k: int, kinds: ScanKinds)
    requires
        !kinds.has_any(),
    ensures
        tokens_from(lines, k, kinds) == Seq::<Token>::empty(),
    decreases lines.len() - k,
{
    if 0 <= k < lines.len() {
        lemma_no_kinds(lines, k + 1, kinds);
    }
}

/// Appends the tokens of a line.
fn scan_line(s: &[char], line: usize, kinds: &ScanKinds, out: &mut Vec<Token>)
    ensures
        final(out)@ == old(out)@ + line_tokens(s@, line as nat, *kinds),
{
    if let Some(ty) = kinds.decl_name {
        scan_decl_in_line(s, line, ty, out);
    }
    if let Some(ty) = kinds.number {
        scan_numbers_in_line(s, line, ty, out);
    }
    if let Some(ty) = kinds.capitalized {
        scan_caps_in_line(s, line, ty, out);
    }
    if let Some(ty) = kinds.member {
        scan_member_in_line(s, line, ty, out);
    }
    assert(out@ =~= old(out)@ + line_tokens(s@, line as nat, *kinds));
}

/// Appends the tokens of a text.
pub fn scan_lines_unified(text: &[char], kinds: &ScanKinds, out: &mut Vec<Token>)
    ensures
        final(out)@ == old(out)@ + scanned(text@, *kinds),
{
    if !kinds.any() {
        proof {
            lemma_no_kinds(source_lines(text@), 0, *kinds);
        }
        assert(out@ =~= old(out)@ + scanned(text@, *kinds));
        return;
    }
    let lines = split_lines(text);
    let ghost ls = source_lines(text@);
    let mut k: usize = 0;
    let ghost all = old(out)@ + scanned(text@, *kinds);
    while k < lines.len()
        invariant
            k <= lines.len(),
            views(lines@) == ls,
            ls.len() == lines.len(),
            out@ + tokens_from(ls, k as int, *kinds) == all,
        decreases lines.len() - k,
    {
        let ghost before = out@;
        let line = lines[k];
        assert(ls[k as int] == line@);
        scan_line(line, k, kinds, out);
        k += 1;
        assert(out@ + tokens_from(ls, k as int, *kinds) =~= before + tokens_from(
            ls,
            k as int - 1,
            *kinds,
        ));
    }
    assert(out@ + tokens_from(ls, k as int, *kinds) =~= out@);
}

// ---------------------------------------------------------------------------------------------
// Laws
// ---------------------------------------------------------------------------------------------
/// A token stands on its line, at the UTF-16 length of what is in front of it, and is as long as
/// its own characters are.
pub proof fn law_tokens_are_measured(s: Seq<char>, line: nat, start: int, end: int, ty: u32)
    requires
        0 <= start <= end <= s.len(),
        line <= u32::MAX,
        utf16_len(s) <= u32::MAX,
    ensures
        ({
            let t = token_of(s, line, start, end, ty);
            &&& t.line == line
            &&& t.start == utf16_len(s.take(start))
            &&& t.start + t.length == utf16_len(s.take(end))
            &&& t.ty == ty
            &&& t.modifiers == 0
        }),
{
    lemma_utf16_len_prefix(s, start, end);
    lemma_utf16_len_prefix(s, end, s.len() as int);
    assert(s.take(s.len() as int) =~= s);
}

/// The token of the word of a kind that an index gives rise to.
spec fn word_token(word: Word, s: Seq<char>, line: nat, ty: u32, i: int) -> Option<Token> {
    match word_at(word, s, i) {
        Some((a, b)) => Some(token_of(s, line, a, b, ty)),
        None => None,
    }
}

/// Whether a token is that of a word of a kind which starts from an index on.
spec fn from_word(word: Word, s: Seq<char>, line: nat, ty: u32, from: int, t: Token) -> bool {
    exists|i: int|
        from <= i < s.len() && #[trigger] word_token(word, s, line, ty, i) == Some(t)
}

proof fn lemma_word_tokens(word: Word, s: Seq<char>, line: nat, ty: u32, from: int, t: Token)
    requires
        0 <= from,
    ensures
        word_tokens(word, s, line, ty, from).contains(t) <==> from_word(
            word,
            s,
            line,
            ty,
            from,
            t,
        ),
    decreases s.len() - from,
{
    let all = word_tokens(word, s, line, ty, from);
    if from < s.len() {
        let rest = word_tokens(word, s, line, ty, from + 1);
        lemma_word_tokens(word, s, line, ty, from + 1, t);
        if let Some((a, b)) = word_at(word, s, from) {
            let first = token_of(s, line, a, b, ty);
            assert(all[0] == first);
            assert(word_token(word, s, line, ty, from) == Some(first));
            if all.contains(t) {
                let k = choose|k: int| 0 <= k < all.len() && all[k] == t;
                if k > 0 {
                    assert(rest[k - 1] == t);
                } else {
                    assert(word_token(word, s, line, ty, from) == Some(t));
                }
            }
        }
        if rest.contains(t) {
            let k = choose|k: int| 0 <= k < rest.len() && rest[k] == t;
            if word_at(word, s, from) is Some {
                assert(all[k + 1] == t);
            }
        }
    }
}

proof fn lemma_from_word(word: Word, s: Seq<char>, line: nat, ty: u32, i: int)
    requires
        0 <= i < s.len(),
        word_at(word, s, i) is Some,
    ensures
        ({
            let (a, b) = word_at(word, s, i)->0;
            word_tokens(word, s, line, ty, 0).contains(token_of(s, line, a, b, ty))
        }),
{
    let (a, b) = word_at(word, s, i)->0;
    let t = token_of(s, line, a, b, ty);
    assert(word_token(word, s, line, ty, i) == Some(t));
    assert(from_word(word, s, line, ty, 0, t));
    lemma_word_tokens(word, s, line, ty, 0, t);
}

/// Whether a stretch of a line is a number: digits that no character of an identifier touches.
pub open spec fn number_stands(s: Seq<char>, a: int, b: int) -> bool {
    &&& 0 <= a < b <= s.len()
    &&& forall|k: int| a <= k < b ==> '0' <= #[trigger] s[k] <= '9'
    &&& a == 0 || !ident_continue(s[a - 1])
    &&& b == s.len() || !ident_continue(s[b])
}

proof fn lemma_digits_end_is(s: Seq<char>, a: int, b: int)
    requires
        0 <= a <= b <= s.len(),
        forall|k: int| a <= k < b ==> '0' <= #[trigger] s[k] <= '9',
        b < s.len() ==> !('0' <= s[b] <= '9'),
    ensures
        digits_end(s, a) == b,
    decreases b - a,
{
    if a < b {
        assert('0' <= s[a] <= '9');
        lemma_digits_end_is(s, a + 1, b);
    }
}

/// The tokens of the numbers of a line are those of its numbers, of all of them.
pub proof fn law_numbers_are_found(s: Seq<char>, line: nat, ty: u32)
    ensures
        forall|a: int, b: int| #[trigger]
            number_stands(s, a, b) ==> word_tokens(Word::Number, s, line, ty, 0).contains(
                token_of(s, line, a, b, ty),
            ),
        forall|t: Token| #[trigger]
            word_tokens(Word::Number, s, line, ty, 0).contains(t) ==> exists|a: int, b: int|
                #[trigger] number_stands(s, a, b) && t == token_of(s, line, a, b, ty),
{
    assert forall|a: int, b: int| #[trigger] number_stands(s, a, b) implies word_tokens(
        Word::Number,
        s,
        line,
        ty,
        0,
    ).contains(token_of(s, line, a, b, ty)) by {
        lemma_digits_end_is(s, a, b);
        assert('0' <= s[a] <= '9');
        assert(word_at(Word::Number, s, a) == Some((a, b)));
        lemma_from_word(Word::Number, s, line, ty, a);
    }
    assert forall|t: Token| #[trigger]
        word_tokens(Word::Number, s, line, ty, 0).contains(t) implies exists|a: int, b: int|
        #[trigger] number_stands(s, a, b) && t == token_of(s, line, a, b, ty) by {
        lemma_word_tokens(Word::Number, s, line, ty, 0, t);
        let i = choose|i: int|
            0 <= i < s.len() && #[trigger] word_token(Word::Number, s, line, ty, i) == Some(t);
        let (a, b) = word_at(Word::Number, s, i)->0;
        lemma_digits_end(s, i);
        assert(number_stands(s, a, b));
    }
}

/// Whether a stretch of a line is a capitalized name: a whole identifier that starts with an upper
/// case character.
pub open spec fn capital_stands(s: Seq<char>, a: int, b: int) -> bool {
    &&& 0 <= a <= b <= s.len()
    &&& a < s.len() && upper_case(s[a])
    &&& a == 0 || !ident_continue(s[a - 1])
    &&& forall|k: int| a <= k < b ==> ident_continue(#[trigger] s[k])
    &&& b == s.len() || !ident_continue(s[b])
}

proof fn lemma_ident_end_is(s: Seq<char>, a: int, b: int)
    requires
        0 <= a <= b <= s.len(),
        forall|k: int| a <= k < b ==> ident_continue(#[trigger] s[k]),
        b < s.len() ==> !ident_continue(s[b]),
    ensures
        ident_end(s, a) == b,
    decreases b - a,
{
    if a < b {
        assert(ident_continue(s[a]));
        lemma_ident_end_is(s, a + 1, b);
    }
}

/// The tokens of the capitalized names of a line are those of such names, of all of them.
pub proof fn law_capitalized_names_are_found(s: Seq<char>, line: nat, ty: u32)
    ensures
        forall|a: int, b: int| #[trigger]
            capital_stands(s, a, b) ==> word_tokens(Word::Capital, s, line, ty, 0).contains(
                token_of(s, line, a, b, ty),
            ),
        forall|t: Token| #[trigger]
            word_tokens(Word::Capital, s, line, ty, 0).contains(t) ==> exists|a: int, b: int|
                #[trigger] capital_stands(s, a, b) && t == token_of(s, line, a, b, ty),
{
    assert forall|a: int, b: int| #[trigger] capital_stands(s, a, b) implies word_tokens(
        Word::Capital,
        s,
        line,
        ty,
        0,
    ).contains(token_of(s, line, a, b, ty)) by {
        lemma_ident_end_is(s, a, b);
        lemma_from_word(Word::Capital, s, line, ty, a);
    }
    assert forall|t: Token| #[trigger]
        word_tokens(Word::Capital, s, line, ty, 0).contains(t) implies exists|a: int, b: int|
        #[trigger] capital_stands(s, a, b) && t == token_of(s, line, a, b, ty) by {
        lemma_word_tokens(Word::Capital, s, line, ty, 0, t);
        let i = choose|i: int|
            0 <= i < s.len() && #[trigger] word_token(Word::Capital, s, line, ty, i) == Some(t);
        let (a, b) = word_at(Word::Capital, s, i)->0;
        law_ident_end(s, i);
        assert(capital_stands(s, a, b));
    }
}

/// Whether a stretch of a line is a member: a whole identifier right behind a dot.
pub open spec fn member_stands(s: Seq<char>, a: int, b: int) -> bool {
    &&& 0 < a < b <= s.len()
    &&& s[a - 1] == '.'
    &&& ident_start(s[a])
    &&& forall|k: int| a <= k < b ==> ident_continue(#[trigger] s[k])
    &&& b == s.len() || !ident_continue(s[b])
}

/// The tokens of the members of a line are those of its members, of all of them.
pub proof fn law_members_are_found(s: Seq<char>, line: nat, ty: u32)
    ensures
        forall|a: int, b: int| #[trigger]
            member_stands(s, a, b) ==> word_tokens(Word::Member, s, line, ty, 0).contains(
                token_of(s, line, a, b, ty),
            ),
        forall|t: Token| #[trigger]
            word_tokens(Word::Member, s, line, ty, 0).contains(t) ==> exists|a: int, b: int|
                #[trigger] member_stands(s, a, b) && t == token_of(s, line, a, b, ty),
{
    assert forall|a: int, b: int| #[trigger] member_stands(s, a, b) implies word_tokens(
        Word::Member,
        s,
        line,
        ty,
        0,
    ).contains(token_of(s, line, a, b, ty)) by {
        lemma_ident_end_is(s, a, b);
        assert(!ident_start('.'));
        assert(word_at(Word::Member, s, a - 1) == Some((a, b)));
        lemma_from_word(Word::Member, s, line, ty, a - 1);
    }
    assert forall|t: Token| #[trigger]
        word_tokens(Word::Member, s, line, ty, 0).contains(t) implies exists|a: int, b: int|
        #[trigger] member_stands(s, a, b) && t == token_of(s, line, a, b, ty) by {
        lemma_word_tokens(Word::Member, s, line, ty, 0, t);
        let i = choose|i: int|
            0 <= i < s.len() && #[trigger] word_token(Word::Member, s, line, ty, i) == Some(t);
        let (a, b) = word_at(Word::Member, s, i)->0;
        law_ident_end(s, i + 1);
        assert(member_stands(s, a, b));
    }
}

proof fn lemma_skip_white_is(s: Seq<char>, i: int, e: int)
    requires
        0 <= i <= e <= s.len(),
        forall|k: int| i <= k < e ==> is_white(#[trigger] s[k]),
        e < s.len() ==> !is_white(s[e]),
    ensures
        skip_white(s, i) == e,
    decreases e - i,
{
    if i < e {
        assert(is_white(s[i]));
        lemma_skip_white_is(s, i + 1, e);
    }
}

/// The name that a line declares is the identifier behind its keyword, wherever on the line the
/// keyword stands behind white space alone; a line without a keyword declares none.
pub proof fn law_declared_names_are_found(
    lead: Seq<char>,
    word: Seq<char>,
    gap: Seq<char>,
    name: Seq<char>,
    rest: Seq<char>,
    line: nat,
    ty: u32,
)
    requires
        decl_word(word),
        forall|k: int| 0 <= k < lead.len() ==> is_white(#[trigger] lead[k]),
        gap.len() > 0,
        forall|k: int| 0 <= k < gap.len() ==> is_white(#[trigger] gap[k]),
        name.len() > 0,
        !is_white(name[0]),
        forall|k: int| 0 <= k < name.len() ==> ident_continue(#[trigger] name[k]),
        rest.len() > 0 ==> !ident_continue(rest[0]),
    ensures
        ({
            let s = lead + word + gap + name + rest;
            let a = (lead.len() + word.len() + gap.len()) as int;
            decl_tokens(s, line, ty) == seq![token_of(s, line, a, a + name.len(), ty)]
        }),
{
    let s = lead + word + gap + name + rest;
    let from = (lead.len() + word.len()) as int;
    let a = from + gap.len();
    let b = a + name.len();
    law_trim_start(s);
    let t = trim_start_of(s);
    let cut = s.len() - t.len();
    lemma_decl_word(word, 0);
    assert(s[lead.len() as int] == word[0]);
    assert(cut <= lead.len());
    if cut < lead.len() {
        assert(t[0] == s[cut]);
        assert(s[cut] == lead[cut]);
    }
    assert(t =~= word + gap + name + rest);
    assert(t.take(word.len() as int) =~= word);
    assert(t[word.len() as int] == gap[0]);
    lemma_keyword_of(t, word);
    assert forall|k: int| from <= k < a implies is_white(#[trigger] s[k]) by {
        assert(s[k] == gap[k - from]);
    }
    assert(s[a] == name[0]);
    lemma_skip_white_is(s, from, a);
    assert forall|k: int| a <= k < b implies ident_continue(#[trigger] s[k]) by {
        assert(s[k] == name[k - a]);
    }
    if rest.len() > 0 {
        assert(s[b] == rest[0]);
    }
    lemma_ident_end_is(s, a, b);
}

/// A line whose first word is no keyword declares no name.
pub proof fn law_other_lines_declare_nothing(s: Seq<char>, line: nat, ty: u32)
    requires
        forall|word: Seq<char>| #[trigger]
            decl_word(word) ==> !line_opens_with(trim_start_of(s), word),
    ensures
        decl_tokens(s, line, ty).len() == 0,
{
    let t = trim_start_of(s);
    if let Some(kw) = keyword_of(t) {
        lemma_keyword_of(t, kw);
        assert(decl_word(kw));
    }
}

/// The tokens of a line are those of the kinds that are looked for, and no others.
pub proof fn law_lines_have_the_tokens_that_are_looked_for(
    s: Seq<char>,
    line: nat,
    kinds: ScanKinds,
    t: Token,
)
    ensures
        line_tokens(s, line, kinds).contains(t) <==> {
            ||| kinds.decl_name is Some && decl_tokens(s, line, kinds.decl_name->0).contains(t)
            ||| kinds.number is Some && word_tokens(
                Word::Number,
                s,
                line,
                kinds.number->0,
                0,
            ).contains(t)
            ||| kinds.capitalized is Some && word_tokens(
                Word::Capital,
                s,
                line,
                kinds.capitalized->0,
                0,
            ).contains(t)
            ||| kinds.member is Some && word_tokens(
                Word::Member,
                s,
                line,
                kinds.member->0,
                0,
            ).contains(t)
        },
{
    let decl = match kinds.decl_name {
        Some(ty) => decl_tokens(s, line, ty),
        None => Seq::empty(),
    };
    let numbers = match kinds.number {
        Some(ty) => word_tokens(Word::Number, s, line, ty, 0),
        None => Seq::empty(),
    };
    let caps = match kinds.capitalized {
        Some(ty) => word_tokens(Word::Capital, s, line, ty, 0),
        None => Seq::empty(),
    };
    let members = match kinds.member {
        Some(ty) => word_tokens(Word::Member, s, line, ty, 0),
        None => Seq::empty(),
    };
    lemma_in_two(decl, numbers, t);
    lemma_in_two(decl + numbers, caps, t);
    lemma_in_two(decl + numbers + caps, members, t);
}

/// What two lists together hold, one of them holds.
pub proof fn lemma_in_two(a: Seq<Token>, b: Seq<Token>, t: Token)
    ensures
        (a + b).contains(t) <==> a.contains(t) || b.contains(t),
{
    if a.contains(t) {
        let i = choose|i: int| 0 <= i < a.len() && a[i] == t;
        assert((a + b)[i] == t);
    }
    if b.contains(t) {
        let i = choose|i: int| 0 <= i < b.len() && b[i] == t;
        assert((a + b)[a.len() + i] == t);
    }
    if (a + b).contains(t) {
        let i = choose|i: int| 0 <= i < (a + b).len() && (a + b)[i] == t;
        if i < a.len() {
            assert(a[i] == t);
        } else {
            assert(b[i - a.len()] == t);
        }
    }
}

proof fn lemma_tokens_from(lines: Seq<Seq<char>>, from: int, kinds: ScanKinds, t: Token)
    requires
        0 <= from,
    ensures
        tokens_from(lines, from, kinds).contains(t) <==> exists|k: int|
            from <= k < lines.len() && line_tokens(#[trigger] lines[k], k as nat, kinds).contains(
                t,
            ),
    decreases lines.len() - from,
{
    if from < lines.len() {
        lemma_tokens_from(lines, from + 1, kinds, t);
        lemma_in_two(
            line_tokens(lines[from], from as nat, kinds),
            tokens_from(lines, from + 1, kinds),
            t,
        );
    }
}

/// The words of a text are those of its lines, each under the number of its line; a line does not
/// count the carriage returns at its end.
pub proof fn law_every_line_is_scanned(text: Seq<char>, kinds: ScanKinds, t: Token)
    ensures
        source_lines(text).len() == split_of(text, '\n').len(),
        forall|k: int|
            0 <= k < source_lines(text).len() ==> #[trigger] source_lines(text)[k] == trim_end_char(
                split_of(text, '\n')[k],
                '\r',
            ),
        scanned(text, kinds).contains(t) <==> exists|k: int|
            0 <= k < source_lines(text).len() && line_tokens(
                #[trigger] source_lines(text)[k],
                k as nat,
                kinds,
            ).contains(t),
{
    lemma_tokens_from(source_lines(text), 0, kinds, t);
}

/// The words of a kind on a line are each found once and from left to right: the tokens come from
/// places on the line that lie one behind the other.
pub proof fn law_words_are_found_once(word: Word, s: Seq<char>, line: nat, ty: u32, from: int) -> (at:
    Seq<int>)
    requires
        0 <= from,
    ensures
        at.len() == word_tokens(word, s, line, ty, from).len(),
        forall|i: int| 0 <= i < at.len() ==> from <= #[trigger] at[i] < s.len(),
        forall|i: int, j: int| 0 <= i < j < at.len() ==> #[trigger] at[i] < #[trigger] at[j],
        forall|i: int|
            0 <= i < at.len() ==> match word_at(word, s, #[trigger] at[i]) {
                Some((start, end)) => word_tokens(word, s, line, ty, from)[i] == token_of(
                    s,
                    line,
                    start,
                    end,
                    ty,
                ),
                None => false,
            },
    decreases s.len() - from,
{
    if from >= s.len() {
        Seq::empty()
    } else {
        let rest = law_words_are_found_once(word, s, line, ty, from + 1);
        match word_at(word, s, from) {
            Some(_) => {
                let all = seq![from] + rest;
                assert forall|i: int| 0 < i < all.len() implies #[trigger] all[i] == rest[i - 1] by {}
                all
            },
            None => rest,
        }
    }
}

/// One more line at the end adds the tokens of that line behind all others.
pub proof fn law_lines_are_scanned_one_by_one(
    lines: Seq<Seq<char>>,
    line: Seq<char>,
    kinds: ScanKinds,
    k: int,
)
    requires
        0 <= k <= lines.len(),
    ensures
        tokens_from(lines.push(line), k, kinds) == tokens_from(lines, k, kinds) + line_tokens(
            line,
            lines.len(),
            kinds,
        ),
    decreases lines.len() - k,
{
    let all = lines.push(line);
    let last = line_tokens(line, lines.len(), kinds);
    if k < lines.len() {
        law_lines_are_scanned_one_by_one(lines, line, kinds, k + 1);
        assert(all[k] == lines[k]);
        assert(tokens_from(all, k, kinds) =~= tokens_from(lines, k, kinds) + last);
    } else {
        assert(all[k] == line);
        assert(tokens_from(all, k + 1, kinds) =~= Seq::empty());
        assert(tokens_from(lines, k, kinds) =~= Seq::empty());
        assert(tokens_from(all, k, kinds) =~= tokens_from(lines, k, kinds) + last);
    }
}

} // verus!
