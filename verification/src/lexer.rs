//! Finds the comments and the string and character literals of a Lean text.
//!
//! The scan reads the text's UTF-8 bytes. Every byte that it acts on is ASCII, so a byte inside a
//! longer character never counts. Positions are reported as a line and a column in UTF-16 code
//! units.
use crate::text::{lemma_utf16_len_add, low32, utf16_len, utf16_width};
use vstd::prelude::*;
use vstd::utf8::{
    codepoint_width_1, codepoint_width_2, codepoint_width_3, decode_first_scalar, decode_utf8,
    encode_utf8, encode_utf8_valid_utf8, is_char_boundary_iff_not_is_continuation_byte,
    is_char_boundary_start_end_of_seq, is_continuation_byte, length_of_first_scalar,
    pop_first_scalar, valid_utf8, valid_utf8_split,
};

verus! {

// ---------------------------------------------------------------------------------------------
// The bytes that the scan acts on
// ---------------------------------------------------------------------------------------------
pub const NEWLINE: u8 = 0xa;

pub const BANG: u8 = 0x21;

pub const QUOTE: u8 = 0x22;

pub const HASH: u8 = 0x23;

pub const APOSTROPHE: u8 = 0x27;

pub const DASH: u8 = 0x2d;

pub const SLASH: u8 = 0x2f;

pub const DIGIT_0: u8 = 0x30;

pub const DIGIT_9: u8 = 0x39;

pub const UPPER_A: u8 = 0x41;

pub const UPPER_Z: u8 = 0x5a;

pub const BACKSLASH: u8 = 0x5c;

pub const UNDERSCORE: u8 = 0x5f;

pub const LOWER_A: u8 = 0x61;

pub const LOWER_M: u8 = 0x6d;

pub const LOWER_R: u8 = 0x72;

pub const LOWER_S: u8 = 0x73;

pub const LOWER_Z: u8 = 0x7a;

// ---------------------------------------------------------------------------------------------
// Lexemes
// ---------------------------------------------------------------------------------------------
#[derive(Clone, Copy, Debug, PartialEq, Eq, Structural)]
pub enum CommentKind {
    Doc,
    Plain,
}

#[derive(Clone, Copy, Debug, PartialEq, Eq, Structural)]
pub enum LexKind {
    /// A string or character literal.
    Literal,
    Comment(CommentKind),
}

/// A stretch of bytes from `start` up to and without `end` that is one comment or one literal.
pub struct Lexeme {
    pub kind: LexKind,
    pub start: int,
    pub end: int,
}

/// Whether a sequence holds a given byte at an index.
pub open spec fn byte_is(b: Seq<u8>, i: int, x: u8) -> bool {
    0 <= i < b.len() && b[i] == x
}

/// Whether the byte in front of an index could belong to an identifier.
pub open spec fn ident_before(b: Seq<u8>, i: int) -> bool {
    0 < i <= b.len() && {
        let p = b[i - 1];
        ||| LOWER_A <= p <= LOWER_Z
        ||| UPPER_A <= p <= UPPER_Z
        ||| DIGIT_0 <= p <= DIGIT_9
        ||| p == UNDERSCORE
        ||| p == APOSTROPHE
    }
}

/// The end of a string literal whose body starts at `i`: behind the first quote that no backslash
/// escapes, or the end of the text.
pub open spec fn quoted_end(b: Seq<u8>, i: int) -> int
    decreases b.len() - i,
{
    if i >= b.len() {
        b.len() as int
    } else if b[i] == BACKSLASH && i + 1 < b.len() {
        quoted_end(b, i + 2)
    } else if b[i] == QUOTE {
        i + 1
    } else {
        quoted_end(b, i + 1)
    }
}

/// Whether `n` hash signs stand from an index on.
pub open spec fn hashes_at(b: Seq<u8>, i: int, n: int) -> bool {
    i + n <= b.len() && forall|k: int| i <= k < i + n ==> b[k] == HASH
}

/// The end of a raw string literal whose body starts at `i`: behind the first quote that is
/// followed by as many hash signs as opened the literal, or the end of the text.
pub open spec fn raw_end(b: Seq<u8>, i: int, hashes: int) -> int
    decreases b.len() - i,
{
    if i >= b.len() {
        b.len() as int
    } else if b[i] == QUOTE && hashes_at(b, i + 1, hashes) {
        i + 1 + hashes
    } else {
        raw_end(b, i + 1, hashes)
    }
}

/// The end of the run of hash signs that starts at an index.
pub open spec fn hash_run_end(b: Seq<u8>, i: int) -> int
    decreases b.len() - i,
{
    if byte_is(b, i, HASH) {
        hash_run_end(b, i + 1)
    } else {
        i
    }
}

/// The end of a character literal whose body starts at `i`: behind the first apostrophe that no
/// backslash escapes, if it comes in front of `limit` and of the end of the line.
pub open spec fn char_lit_end(b: Seq<u8>, i: int, limit: int) -> Option<int>
    decreases b.len() - i,
{
    if i >= limit || i >= b.len() {
        None
    } else if b[i] == BACKSLASH && i + 1 < b.len() {
        char_lit_end(b, i + 2, limit)
    } else if b[i] == APOSTROPHE {
        Some(i + 1)
    } else if b[i] == NEWLINE {
        None
    } else {
        char_lit_end(b, i + 1, limit)
    }
}

/// How far behind its opening apostrophe a character literal may reach, in bytes.
pub const CHAR_LIT_LIMIT: usize = 16;

/// The end of a character literal whose body starts at `i`.
pub open spec fn char_lit(b: Seq<u8>, i: int) -> Option<int> {
    let limit = i + CHAR_LIT_LIMIT;
    char_lit_end(
        b,
        i,
        if limit < b.len() {
            limit
        } else {
            b.len() as int
        },
    )
}

/// The end of the line that an index stands on.
pub open spec fn line_end(b: Seq<u8>, i: int) -> int
    decreases b.len() - i,
{
    if i >= b.len() || b[i] == NEWLINE {
        i
    } else {
        line_end(b, i + 1)
    }
}

/// The end of a block comment of which `depth` levels are open at `j`. An unclosed comment ends
/// in front of the last byte of the text.
pub open spec fn block_end(b: Seq<u8>, j: int, depth: nat) -> int
    decreases b.len() - j,
{
    if j + 1 < b.len() && depth > 0 {
        if b[j] == SLASH && b[j + 1] == DASH {
            block_end(b, j + 2, depth + 1)
        } else if b[j] == DASH && b[j + 1] == SLASH {
            block_end(b, j + 2, (depth - 1) as nat)
        } else {
            block_end(b, j + 1, depth)
        }
    } else {
        j
    }
}

/// The comment or literal that starts at an index, if one does, and where it ends.
pub open spec fn lexeme_at(b: Seq<u8>, i: int) -> Option<(LexKind, int)> {
    let hashes_end = hash_run_end(b, i + 1);
    if (b[i] == LOWER_S || b[i] == LOWER_M) && byte_is(b, i + 1, BANG) && byte_is(b, i + 2, QUOTE)
        && !ident_before(b, i) {
        Some((LexKind::Literal, quoted_end(b, i + 3)))
    } else if b[i] == LOWER_R && !ident_before(b, i) && byte_is(b, hashes_end, QUOTE) {
        Some((LexKind::Literal, raw_end(b, hashes_end + 1, hashes_end - (i + 1))))
    } else if b[i] == QUOTE {
        Some((LexKind::Literal, quoted_end(b, i + 1)))
    } else if b[i] == APOSTROPHE && !ident_before(b, i) && char_lit(b, i + 1) is Some {
        Some((LexKind::Literal, char_lit(b, i + 1)->0))
    } else if b[i] == DASH && byte_is(b, i + 1, DASH) {
        Some((LexKind::Comment(CommentKind::Plain), line_end(b, i + 2)))
    } else if b[i] == SLASH && byte_is(b, i + 1, DASH) {
        let kind = if byte_is(b, i + 2, DASH) || byte_is(b, i + 2, BANG) {
            CommentKind::Doc
        } else {
            CommentKind::Plain
        };
        Some((LexKind::Comment(kind), block_end(b, i + 2, 1)))
    } else {
        None
    }
}

/// A lexeme takes at least one byte and ends inside the text.
pub proof fn lemma_lexeme_end(b: Seq<u8>, i: int)
    requires
        0 <= i < b.len(),
    ensures
        lexeme_at(b, i) matches Some((_, e)) ==> i < e <= b.len(),
{
    lemma_quoted_end(b, i + 1);
    lemma_hash_run_end(b, i + 1);
    let k = hash_run_end(b, i + 1);
    if byte_is(b, k, QUOTE) {
        lemma_raw_end(b, k + 1, k - (i + 1));
    }
    lemma_char_lit_end(
        b,
        i + 1,
        if i + 1 + CHAR_LIT_LIMIT < b.len() { i + 1 + CHAR_LIT_LIMIT } else { b.len() as int },
    );
    if i + 2 <= b.len() {
        lemma_line_end(b, i + 2);
        lemma_block_end(b, i + 2, 1);
    }
    if i + 3 <= b.len() {
        lemma_quoted_end(b, i + 3);
    }
}

proof fn lemma_quoted_end(b: Seq<u8>, i: int)
    requires
        0 <= i <= b.len(),
    ensures
        i <= quoted_end(b, i) <= b.len(),
    decreases b.len() - i,
{
    if i < b.len() {
        if b[i] == BACKSLASH && i + 1 < b.len() {
            lemma_quoted_end(b, i + 2);
        } else if b[i] != QUOTE {
            lemma_quoted_end(b, i + 1);
        }
    }
}

proof fn lemma_raw_end(b: Seq<u8>, i: int, hashes: int)
    requires
        0 <= i <= b.len(),
        0 <= hashes,
    ensures
        i <= raw_end(b, i, hashes) <= b.len(),
    decreases b.len() - i,
{
    if i < b.len() && !(b[i] == QUOTE && hashes_at(b, i + 1, hashes)) {
        lemma_raw_end(b, i + 1, hashes);
    }
}

proof fn lemma_hash_run_end(b: Seq<u8>, i: int)
    requires
        0 <= i <= b.len(),
    ensures
        i <= hash_run_end(b, i) <= b.len(),
        forall|k: int| i <= k < hash_run_end(b, i) ==> b[k] == HASH,
    decreases b.len() - i,
{
    if byte_is(b, i, HASH) {
        lemma_hash_run_end(b, i + 1);
    }
}

proof fn lemma_char_lit_end(b: Seq<u8>, i: int, limit: int)
    requires
        0 <= i,
    ensures
        char_lit_end(b, i, limit) matches Some(e) ==> i < e <= b.len(),
    decreases b.len() - i,
{
    if i < limit && i < b.len() {
        if b[i] == BACKSLASH && i + 1 < b.len() {
            lemma_char_lit_end(b, i + 2, limit);
        } else if b[i] != APOSTROPHE && b[i] != NEWLINE {
            lemma_char_lit_end(b, i + 1, limit);
        }
    }
}

proof fn lemma_line_end(b: Seq<u8>, i: int)
    requires
        0 <= i <= b.len(),
    ensures
        i <= line_end(b, i) <= b.len(),
    decreases b.len() - i,
{
    if i < b.len() && b[i] != NEWLINE {
        lemma_line_end(b, i + 1);
    }
}

proof fn lemma_block_end(b: Seq<u8>, j: int, depth: nat)
    requires
        0 <= j <= b.len(),
    ensures
        j <= block_end(b, j, depth) <= b.len(),
    decreases b.len() - j,
{
    if j + 1 < b.len() && depth > 0 {
        if b[j] == SLASH && b[j + 1] == DASH {
            lemma_block_end(b, j + 2, depth + 1);
        } else if b[j] == DASH && b[j + 1] == SLASH {
            lemma_block_end(b, j + 2, (depth - 1) as nat);
        } else {
            lemma_block_end(b, j + 1, depth);
        }
    }
}

/// The comments and literals of a text from an index on, in order.
pub open spec fn lexemes(b: Seq<u8>, i: int) -> Seq<Lexeme>
    decreases b.len() - i,
{
    if i < 0 || i >= b.len() {
        Seq::empty()
    } else {
        proof {
            lemma_lexeme_end(b, i);
        }
        match lexeme_at(b, i) {
            Some((kind, end)) => seq![Lexeme { kind, start: i, end }] + lexemes(b, end),
            None => lexemes(b, i + 1),
        }
    }
}

/// Whether a lexeme ends in the middle of a character. Only an unclosed block comment can, where
/// the last character of the text is not ASCII.
pub open spec fn cuts_char(b: Seq<u8>) -> bool {
    exists|k: int|
        0 <= k < lexemes(b, 0).len() && (#[trigger] lexemes(b, 0)[k]).end < b.len()
            && is_continuation_byte(b[lexemes(b, 0)[k].end])
}

/// Whether the scan can report every position of a text: the count of its lines fits in 32 bits,
/// and no lexeme ends in the middle of a character.
pub open spec fn scannable(text: Seq<char>) -> bool {
    let b = encode_utf8(text);
    newlines(b, b.len() as int) <= u32::MAX && !cuts_char(b)
}

pub fn prev_byte_is_ident_continue(bytes: &[u8], i: usize) -> (r: bool)
    requires
        i <= bytes.len(),
    ensures
        r == ident_before(bytes@, i as int),
{
    if i == 0 {
        return false;
    }
    let p = bytes[i - 1];
    (LOWER_A <= p && p <= LOWER_Z) || (UPPER_A <= p && p <= UPPER_Z) || (DIGIT_0 <= p && p
        <= DIGIT_9) || p == UNDERSCORE || p == APOSTROPHE
}

pub fn consume_quoted(bytes: &[u8], from: usize) -> (r: usize)
    requires
        from <= bytes.len(),
    ensures
        r == quoted_end(bytes@, from as int),
        from <= r <= bytes.len(),
{
    let mut i: usize = from;
    while i < bytes.len()
        invariant
            from <= i <= bytes.len(),
            quoted_end(bytes@, i as int) == quoted_end(bytes@, from as int),
        decreases bytes.len() - i,
    {
        if bytes[i] == BACKSLASH && i + 1 < bytes.len() {
            i += 2;
        } else if bytes[i] == QUOTE {
            return i + 1;
        } else {
            i += 1;
        }
    }
    bytes.len()
}

pub fn consume_raw(bytes: &[u8], from: usize, hashes: usize) -> (r: usize)
    requires
        from <= bytes.len(),
    ensures
        r == raw_end(bytes@, from as int, hashes as int),
        from <= r <= bytes.len(),
{
    let mut i: usize = from;
    while i < bytes.len()
        invariant
            from <= i <= bytes.len(),
            raw_end(bytes@, i as int, hashes as int) == raw_end(bytes@, from as int, hashes as int),
        decreases bytes.len() - i,
    {
        if bytes[i] == QUOTE {
            let mut k: usize = i + 1;
            let mut count: usize = 0;
            while count < hashes && k < bytes.len() && bytes[k] == HASH
                invariant
                    count <= hashes,
                    i < bytes.len(),
                    k == i + 1 + count,
                    k <= bytes.len(),
                    hashes_at(bytes@, i + 1, count as int),
                decreases hashes - count,
            {
                count += 1;
                k += 1;
            }
            if count == hashes {
                return k;
            }
            assert(!hashes_at(bytes@, i + 1, hashes as int)) by {
                if hashes_at(bytes@, i + 1, hashes as int) {
                    assert(bytes@[k as int] == HASH);
                }
            }
        }
        i += 1;
    }
    bytes.len()
}

pub fn consume_char_lit(bytes: &[u8], from: usize) -> (r: Option<usize>)
    requires
        from <= bytes.len(),
    ensures
        match r {
            Some(e) => char_lit(bytes@, from as int) == Some(e as int) && from < e <= bytes.len(),
            None => char_lit(bytes@, from as int) is None,
        },
{
    let limit: usize = if bytes.len() - from > CHAR_LIT_LIMIT {
        from + CHAR_LIT_LIMIT
    } else {
        bytes.len()
    };
    let mut i: usize = from;
    while i < limit
        invariant
            from <= i <= bytes.len(),
            limit <= bytes.len(),
            char_lit(bytes@, from as int) == char_lit_end(bytes@, i as int, limit as int),
        decreases bytes.len() - i,
    {
        if bytes[i] == BACKSLASH && i + 1 < bytes.len() {
            i += 2;
        } else if bytes[i] == APOSTROPHE {
            return Some(i + 1);
        } else if bytes[i] == NEWLINE {
            return None;
        } else {
            i += 1;
        }
    }
    None
}

/// Whether a slice holds a given byte at an index.
fn has_byte(bytes: &[u8], i: usize, x: u8) -> (r: bool)
    ensures
        r == byte_is(bytes@, i as int, x),
{
    i < bytes.len() && bytes[i] == x
}

fn consume_line(bytes: &[u8], from: usize) -> (r: usize)
    requires
        from <= bytes.len(),
    ensures
        r == line_end(bytes@, from as int),
        from <= r <= bytes.len(),
{
    let mut j: usize = from;
    while j < bytes.len() && bytes[j] != NEWLINE
        invariant
            from <= j <= bytes.len(),
            line_end(bytes@, j as int) == line_end(bytes@, from as int),
        decreases bytes.len() - j,
    {
        j += 1;
    }
    j
}

fn consume_block(bytes: &[u8], from: usize) -> (r: usize)
    requires
        2 <= from <= bytes.len(),
    ensures
        r == block_end(bytes@, from as int, 1),
        from <= r <= bytes.len(),
{
    let mut j: usize = from;
    let mut depth: usize = 1;
    while j < bytes.len() - 1 && depth > 0
        invariant
            2 <= from <= j <= bytes.len(),
            depth <= j,
            block_end(bytes@, j as int, depth as nat) == block_end(bytes@, from as int, 1),
        decreases bytes.len() - j,
    {
        if bytes[j] == SLASH && bytes[j + 1] == DASH {
            depth += 1;
            j += 2;
        } else if bytes[j] == DASH && bytes[j + 1] == SLASH {
            depth -= 1;
            j += 2;
        } else {
            j += 1;
        }
    }
    j
}

/// The comment or literal that starts at an index, if one does, and where it ends.
pub fn find_lexeme(bytes: &[u8], i: usize) -> (r: Option<(LexKind, usize)>)
    requires
        i < bytes.len(),
    ensures
        match r {
            Some((kind, end)) => lexeme_at(bytes@, i as int) == Some((kind, end as int)) && i < end
                <= bytes.len(),
            None => lexeme_at(bytes@, i as int) is None,
        },
{
    let b = bytes[i];
    proof {
        lemma_lexeme_end(bytes@, i as int);
    }
    if (b == LOWER_S || b == LOWER_M) && i + 1 < bytes.len() && has_byte(bytes, i + 1, BANG) && i
        + 2 < bytes.len() && has_byte(bytes, i + 2, QUOTE) && !prev_byte_is_ident_continue(
        bytes,
        i,
    ) {
        return Some((LexKind::Literal, consume_quoted(bytes, i + 3)));
    }
    if b == LOWER_R && !prev_byte_is_ident_continue(bytes, i) {
        let mut k: usize = i + 1;
        while k < bytes.len() && bytes[k] == HASH
            invariant
                i < k <= bytes.len(),
                hash_run_end(bytes@, i + 1) == hash_run_end(bytes@, k as int),
            decreases bytes.len() - k,
        {
            k += 1;
        }
        if has_byte(bytes, k, QUOTE) {
            return Some((LexKind::Literal, consume_raw(bytes, k + 1, k - (i + 1))));
        }
    }
    if b == QUOTE {
        return Some((LexKind::Literal, consume_quoted(bytes, i + 1)));
    }
    if b == APOSTROPHE && !prev_byte_is_ident_continue(bytes, i) {
        if let Some(end) = consume_char_lit(bytes, i + 1) {
            return Some((LexKind::Literal, end));
        }
    }
    if b == DASH && i + 1 < bytes.len() && has_byte(bytes, i + 1, DASH) {
        return Some((LexKind::Comment(CommentKind::Plain), consume_line(bytes, i + 2)));
    }
    if b == SLASH && i + 1 < bytes.len() && has_byte(bytes, i + 1, DASH) {
        let kind = if i + 2 < bytes.len() && (bytes[i + 2] == DASH || bytes[i + 2] == BANG) {
            CommentKind::Doc
        } else {
            CommentKind::Plain
        };
        return Some((LexKind::Comment(kind), consume_block(bytes, i + 2)));
    }
    None
}

// ---------------------------------------------------------------------------------------------
// Positions
// ---------------------------------------------------------------------------------------------
/// How many lines end in front of an index.
pub open spec fn newlines(b: Seq<u8>, i: int) -> nat
    decreases i,
{
    if i <= 0 {
        0
    } else if b[i - 1] == NEWLINE {
        newlines(b, i - 1) + 1
    } else {
        newlines(b, i - 1)
    }
}

/// Where the line that an index stands on starts.
pub open spec fn line_start(b: Seq<u8>, i: int) -> int
    decreases i,
{
    if i <= 0 {
        0
    } else if b[i - 1] == NEWLINE {
        i
    } else {
        line_start(b, i - 1)
    }
}

/// Whether an index does not stand inside a character.
pub open spec fn on_boundary(b: Seq<u8>, i: int) -> bool {
    0 <= i <= b.len() && (i < b.len() ==> !is_continuation_byte(b[i]))
}

/// The UTF-16 length of the text between two indices.
pub open spec fn width_between(b: Seq<u8>, i: int, j: int) -> nat {
    utf16_len(decode_utf8(b.subrange(i, j)))
}

/// The line and the column of an index: the lines in front of it, and the UTF-16 length of what
/// stands in front of it on its own line.
pub open spec fn position(b: Seq<u8>, i: int) -> (u32, u32) {
    (newlines(b, i) as u32, low32(width_between(b, line_start(b, i), i)))
}

/// The UTF-16 code units that the character which a byte leads takes; none for a byte that leads
/// none.
spec fn byte_width(x: u8) -> nat {
    if is_continuation_byte(x) {
        0
    } else if x >= 0xf0 {
        2
    } else {
        1
    }
}

spec fn byte_widths(b: Seq<u8>) -> nat
    decreases b.len(),
{
    if b.len() == 0 {
        0
    } else {
        byte_widths(b.drop_last()) + byte_width(b.last())
    }
}

proof fn lemma_byte_widths_add(a: Seq<u8>, b: Seq<u8>)
    ensures
        byte_widths(a + b) == byte_widths(a) + byte_widths(b),
    decreases b.len(),
{
    if b.len() == 0 {
        assert(a + b =~= a);
    } else {
        assert((a + b).drop_last() =~= a + b.drop_last());
        lemma_byte_widths_add(a, b.drop_last());
    }
}

/// The leading bytes alone tell the UTF-16 length of a text.
proof fn lemma_byte_widths(b: Seq<u8>)
    requires
        valid_utf8(b),
    ensures
        byte_widths(b) == utf16_len(decode_utf8(b)),
    decreases b.len(),
{
    if b.len() > 0 {
        let n = length_of_first_scalar(b);
        let head = b.subrange(0, n);
        let tail = pop_first_scalar(b);
        let c = decode_first_scalar(b) as char;
        assert(b =~= head + tail);
        lemma_byte_widths_add(head, tail);
        lemma_byte_widths(tail);
        lemma_utf16_len_add(seq![c], decode_utf8(tail));
        assert(utf16_len(seq![c]) == utf16_width(c)) by {
            reveal_with_fuel(utf16_len, 2);
        }
        assert(byte_widths(head) == utf16_width(c)) by {
            reveal_with_fuel(byte_widths, 5);
            lemma_small_codepoints(b);
        }
    }
}

/// Only a character of four bytes lies beyond the first 65536.
proof fn lemma_small_codepoints(b: Seq<u8>)
    requires
        b.len() > 0,
        valid_utf8(b),
    ensures
        length_of_first_scalar(b) < 4 ==> decode_first_scalar(b) < 0x10000,
{
    let b0 = b[0];
    if length_of_first_scalar(b) == 1 {
        assert(codepoint_width_1(b0) < 0x10000) by (bit_vector);
    } else if length_of_first_scalar(b) == 2 {
        let b1 = b[1];
        assert(codepoint_width_2(b0, b1) < 0x10000) by (bit_vector);
    } else if length_of_first_scalar(b) == 3 {
        let b1 = b[1];
        let b2 = b[2];
        assert(codepoint_width_3(b0, b1, b2) < 0x10000) by (bit_vector);
    }
}

/// The text between two character boundaries is a text.
proof fn lemma_valid_between(b: Seq<u8>, i: int, j: int)
    requires
        valid_utf8(b),
        on_boundary(b, i),
        on_boundary(b, j),
        i <= j,
    ensures
        valid_utf8(b.subrange(i, j)),
{
    is_char_boundary_start_end_of_seq(b);
    if j < b.len() {
        is_char_boundary_iff_not_is_continuation_byte(b, j);
    }
    valid_utf8_split(b, j);
    let front = b.subrange(0, j);
    is_char_boundary_start_end_of_seq(front);
    if i < j {
        is_char_boundary_iff_not_is_continuation_byte(front, i);
    }
    valid_utf8_split(front, i);
    assert(front.subrange(i, j) =~= b.subrange(i, j));
}

proof fn lemma_line_start(b: Seq<u8>, i: int)
    requires
        0 <= i <= b.len(),
        valid_utf8(b),
    ensures
        0 <= line_start(b, i) <= i,
        on_boundary(b, line_start(b, i)),
    decreases i,
{
    if i > 0 {
        lemma_line_start(b, i - 1);
        if b[i - 1] == NEWLINE && i < b.len() {
            lemma_after_ascii(b, i - 1);
        }
    } else if b.len() > 0 {
        is_char_boundary_start_end_of_seq(b);
        is_char_boundary_iff_not_is_continuation_byte(b, 0);
    }
}

/// What follows an ASCII byte starts a character.
proof fn lemma_after_ascii(b: Seq<u8>, i: int)
    requires
        valid_utf8(b),
        0 <= i < b.len(),
        b[i] < 0x80,
    ensures
        on_boundary(b, i + 1),
    decreases b.len(),
{
    let n = length_of_first_scalar(b);
    if i < n {
        assert(n == 1 || b[1] >= 0x80);
        assert(i == 0);
        assert(n == 1);
        if b.len() > 1 {
            let tail = pop_first_scalar(b);
            assert(tail[0] == b[1]);
            is_char_boundary_start_end_of_seq(tail);
            is_char_boundary_iff_not_is_continuation_byte(tail, 0);
        }
    } else {
        let tail = pop_first_scalar(b);
        assert(tail[i - n] == b[i]);
        lemma_after_ascii(tail, i - n);
        if i + 1 < b.len() {
            assert(tail[i - n + 1] == b[i + 1]);
        }
    }
}

proof fn lemma_newlines(b: Seq<u8>, i: int, j: int)
    requires
        0 <= i <= j,
    ensures
        newlines(b, i) <= newlines(b, j) <= newlines(b, i) + (j - i),
    decreases j,
{
    if i < j {
        lemma_newlines(b, i, j - 1);
    }
}

/// The UTF-16 length of the text between two indices, counted in 32 bits.
fn count_width(bytes: &[u8], from: usize, to: usize) -> (n: u32)
    requires
        valid_utf8(bytes@),
        on_boundary(bytes@, from as int),
        on_boundary(bytes@, to as int),
        from <= to,
    ensures
        n == low32(width_between(bytes@, from as int, to as int)),
{
    let mut n: u32 = 0;
    let mut k: usize = from;
    while k < to
        invariant
            from <= k <= to <= bytes.len(),
            n == low32(byte_widths(bytes@.subrange(from as int, k as int))),
        decreases to - k,
    {
        let x = bytes[k];
        let w: u32 = if 0x80 <= x && x <= 0xbf {
            0
        } else if x >= 0xf0 {
            2
        } else {
            1
        };
        let ghost before = byte_widths(bytes@.subrange(from as int, k as int));
        n = n.wrapping_add(w);
        k += 1;
        proof {
            assert(bytes@.subrange(from as int, k as int).drop_last() =~= bytes@.subrange(
                from as int,
                k as int - 1,
            ));
            assert(byte_widths(bytes@.subrange(from as int, k as int)) == before + byte_width(x));
            assert(byte_width(x) == w);
        }
    }
    proof {
        lemma_valid_between(bytes@, from as int, to as int);
        lemma_byte_widths(bytes@.subrange(from as int, to as int));
    }
    n
}

/// The line and the column of a byte of a text; an index behind the text counts as its end.
pub fn byte_to_line_col_utf16(bytes: &[u8], byte_offset: usize) -> (r: (u32, u32))
    requires
        valid_utf8(bytes@),
        newlines(bytes@, bytes.len() as int) <= u32::MAX,
        byte_offset < bytes.len() ==> on_boundary(bytes@, byte_offset as int),
    ensures
        r == position(
            bytes@,
            if byte_offset < bytes.len() {
                byte_offset as int
            } else {
                bytes.len() as int
            },
        ),
{
    let clamped: usize = if byte_offset < bytes.len() {
        byte_offset
    } else {
        bytes.len()
    };
    let mut line: u32 = 0;
    let mut start: usize = 0;
    let mut i: usize = 0;
    while i < clamped
        invariant
            i <= clamped <= bytes.len(),
            line == newlines(bytes@, i as int),
            start == line_start(bytes@, i as int),
            newlines(bytes@, bytes.len() as int) <= u32::MAX,
        decreases clamped - i,
    {
        proof {
            lemma_newlines(bytes@, i as int + 1, bytes.len() as int);
        }
        if bytes[i] == NEWLINE {
            line += 1;
            start = i + 1;
        }
        i += 1;
    }
    proof {
        lemma_line_start(bytes@, clamped as int);
    }
    (line, count_width(bytes, start, clamped))
}

// ---------------------------------------------------------------------------------------------
// The scan
// ---------------------------------------------------------------------------------------------
/// Where a range starts and ends.
#[derive(Clone, Copy, Debug, PartialEq, Eq, Structural)]
pub struct Span {
    pub start_line: u32,
    pub start_col: u32,
    pub end_line: u32,
    pub end_col: u32,
}

#[derive(Clone, Copy, Debug, PartialEq, Eq, Structural)]
pub struct CommentRange {
    pub kind: CommentKind,
    pub start_line: u32,
    pub start_col: u32,
    pub end_line: u32,
    pub end_col: u32,
}

impl CommentRange {
    pub open spec fn as_span(self) -> Span {
        Span {
            start_line: self.start_line,
            start_col: self.start_col,
            end_line: self.end_line,
            end_col: self.end_col,
        }
    }

    pub fn span(&self) -> (r: Span)
        ensures
            r == self.as_span(),
    {
        Span {
            start_line: self.start_line,
            start_col: self.start_col,
            end_line: self.end_line,
            end_col: self.end_col,
        }
    }
}

/// Where a string or character literal stands.
#[derive(Clone, Copy, Debug, PartialEq, Eq, Structural)]
pub struct StringRange {
    pub start_line: u32,
    pub start_col: u32,
    pub end_line: u32,
    pub end_col: u32,
}

impl StringRange {
    pub open spec fn as_span(self) -> Span {
        Span {
            start_line: self.start_line,
            start_col: self.start_col,
            end_line: self.end_line,
            end_col: self.end_col,
        }
    }

    pub fn span(&self) -> (r: Span)
        ensures
            r == self.as_span(),
    {
        Span {
            start_line: self.start_line,
            start_col: self.start_col,
            end_line: self.end_line,
            end_col: self.end_col,
        }
    }
}

/// The comments and the literals of a text, each in order.
#[derive(Clone, Debug, PartialEq, Eq)]
pub struct LexRanges {
    pub comments: Vec<CommentRange>,
    pub strings: Vec<StringRange>,
}

/// The positions of the comments among some lexemes.
pub open spec fn comment_ranges(b: Seq<u8>, ls: Seq<Lexeme>) -> Seq<CommentRange>
    decreases ls.len(),
{
    if ls.len() == 0 {
        Seq::empty()
    } else {
        let rest = comment_ranges(b, ls.drop_first());
        match ls[0].kind {
            LexKind::Comment(kind) => {
                let (start_line, start_col) = position(b, ls[0].start);
                let (end_line, end_col) = position(b, ls[0].end);
                seq![CommentRange { kind, start_line, start_col, end_line, end_col }] + rest
            },
            LexKind::Literal => rest,
        }
    }
}

/// The positions of the literals among some lexemes.
pub open spec fn string_ranges(b: Seq<u8>, ls: Seq<Lexeme>) -> Seq<StringRange>
    decreases ls.len(),
{
    if ls.len() == 0 {
        Seq::empty()
    } else {
        let rest = string_ranges(b, ls.drop_first());
        match ls[0].kind {
            LexKind::Literal => {
                let (start_line, start_col) = position(b, ls[0].start);
                let (end_line, end_col) = position(b, ls[0].end);
                seq![StringRange { start_line, start_col, end_line, end_col }] + rest
            },
            LexKind::Comment(_) => rest,
        }
    }
}

/// A reader of a text that keeps count of the lines.
pub struct LexScanner<'a> {
    bytes: &'a [u8],
    i: usize,
    line: u32,
    line_start_byte: usize,
}

impl<'a> LexScanner<'a> {
    /// The text.
    pub closed spec fn text(self) -> Seq<u8> {
        self.bytes@
    }

    /// The index that has been reached.
    pub closed spec fn at(self) -> int {
        self.i as int
    }

    pub closed spec fn wf(self) -> bool {
        &&& valid_utf8(self.bytes@)
        &&& newlines(self.bytes@, self.bytes@.len() as int) <= u32::MAX
        &&& self.i <= self.bytes@.len()
        &&& self.line == newlines(self.bytes@, self.i as int)
        &&& self.line_start_byte == line_start(self.bytes@, self.i as int)
    }

    /// A reader at the start of a text.
    pub fn new(bytes: &'a [u8]) -> (r: LexScanner<'a>)
        requires
            valid_utf8(bytes@),
            newlines(bytes@, bytes.len() as int) <= u32::MAX,
        ensures
            r.wf(),
            r.text() == bytes@,
            r.at() == 0,
    {
        LexScanner { bytes, i: 0, line: 0, line_start_byte: 0 }
    }

    /// The line and the column of an index. One on an earlier line is looked up from the start of
    /// the text; any other is taken to stand on the line that has been reached.
    pub fn pos(&self, byte_offset: usize) -> (r: (u32, u32))
        requires
            self.wf(),
            byte_offset < self.text().len() ==> on_boundary(self.text(), byte_offset as int),
        ensures
            ({
                let end = if byte_offset < self.text().len() {
                    byte_offset as int
                } else {
                    self.text().len() as int
                };
                let start = line_start(self.text(), self.at());
                &&& end < start ==> r == position(self.text(), end)
                &&& end >= start ==> r == (
                    newlines(self.text(), self.at()) as u32,
                    low32(width_between(self.text(), start, end)),
                )
            }),
    {
        let clamped: usize = if byte_offset < self.bytes.len() {
            byte_offset
        } else {
            self.bytes.len()
        };
        proof {
            lemma_line_start(self.bytes@, self.i as int);
        }
        if clamped >= self.line_start_byte {
            (self.line, count_width(self.bytes, self.line_start_byte, clamped))
        } else {
            byte_to_line_col_utf16(self.bytes, clamped)
        }
    }

    /// Reads on up to an index, or up to the end of the text. An index that was passed already
    /// changes nothing.
    pub fn advance_to(&mut self, target: usize)
        requires
            old(self).wf(),
        ensures
            final(self).wf(),
            final(self).text() == old(self).text(),
            final(self).at() == if target <= old(self).at() {
                old(self).at()
            } else if target <= old(self).text().len() {
                target as int
            } else {
                old(self).text().len() as int
            },
    {
        let end: usize = if target < self.bytes.len() {
            target
        } else {
            self.bytes.len()
        };
        let ghost from = self.i;
        while self.i < end
            invariant
                self.wf(),
                self.bytes@ == old(self).bytes@,
                from == old(self).i,
                from <= self.i,
                end <= self.bytes@.len(),
                self.i <= end || self.i == from,
            decreases end - self.i,
        {
            proof {
                lemma_newlines(self.bytes@, self.i as int + 1, self.bytes@.len() as int);
            }
            if self.bytes[self.i] == NEWLINE {
                self.line += 1;
                self.line_start_byte = self.i + 1;
            }
            self.i += 1;
        }
    }
}

/// Records a literal and reads on behind it.
fn push_string(
    s: &mut LexScanner<'_>,
    out: &mut Vec<StringRange>,
    start_byte: usize,
    end_byte: usize,
)
    requires
        old(s).wf(),
        old(s).at() == start_byte,
        start_byte < end_byte <= old(s).text().len(),
        on_boundary(old(s).text(), start_byte as int),
        on_boundary(old(s).text(), end_byte as int),
    ensures
        final(s).wf(),
        final(s).text() == old(s).text(),
        final(s).at() == end_byte,
        final(out)@ == old(out)@.push(
            ({
                let (start_line, start_col) = position(old(s).text(), start_byte as int);
                let (end_line, end_col) = position(old(s).text(), end_byte as int);
                StringRange { start_line, start_col, end_line, end_col }
            }),
        ),
{
    proof {
        lemma_line_start(s.text(), start_byte as int);
        lemma_line_start(s.text(), end_byte as int);
    }
    let (start_line, start_col) = s.pos(start_byte);
    s.advance_to(end_byte);
    let (end_line, end_col) = s.pos(end_byte);
    out.push(StringRange { start_line, start_col, end_line, end_col });
}

/// A lexeme starts at an ASCII byte.
proof fn lemma_lexeme_start(b: Seq<u8>, i: int)
    requires
        0 <= i < b.len(),
        lexeme_at(b, i) is Some,
    ensures
        on_boundary(b, i),
{
}

/// Whether no lexeme from an index on ends inside a character.
spec fn cuts_none(b: Seq<u8>, i: int) -> bool {
    forall|k: int|
        0 <= k < lexemes(b, i).len() ==> on_boundary(b, (#[trigger] lexemes(b, i)[k]).end)
}

/// The lexemes behind the one at an index.
proof fn lemma_lexemes_step(b: Seq<u8>, i: int)
    requires
        0 <= i < b.len(),
    ensures
        match lexeme_at(b, i) {
            Some((kind, end)) => {
                &&& lexemes(b, i).len() == 1 + lexemes(b, end).len()
                &&& lexemes(b, i)[0] == (Lexeme { kind, start: i, end })
                &&& lexemes(b, i).drop_first() == lexemes(b, end)
                &&& cuts_none(b, i) <==> on_boundary(b, end) && cuts_none(b, end)
            },
            None => lexemes(b, i) == lexemes(b, i + 1),
        },
{
    lemma_lexeme_end(b, i);
    if let Some((kind, end)) = lexeme_at(b, i) {
        assert(lexemes(b, i).drop_first() =~= lexemes(b, end));
        if cuts_none(b, i) {
            assert(on_boundary(b, lexemes(b, i)[0].end));
            assert forall|k: int| 0 <= k < lexemes(b, end).len() implies on_boundary(
                b,
                (#[trigger] lexemes(b, end)[k]).end,
            ) by {
                assert(lexemes(b, i)[k + 1] == lexemes(b, end)[k]);
            }
        }
        if on_boundary(b, end) && cuts_none(b, end) {
            assert forall|k: int| 0 <= k < lexemes(b, i).len() implies on_boundary(
                b,
                (#[trigger] lexemes(b, i)[k]).end,
            ) by {
                if k > 0 {
                    assert(lexemes(b, i)[k] == lexemes(b, end)[k - 1]);
                }
            }
        }
    }
}

/// The comments and the literals of a text, with their positions.
pub fn scan_lex_ranges(text: &str) -> (out: LexRanges)
    requires
        scannable(text@),
    ensures
        out.comments@ == comment_ranges(encode_utf8(text@), lexemes(encode_utf8(text@), 0)),
        out.strings@ == string_ranges(encode_utf8(text@), lexemes(encode_utf8(text@), 0)),
{
    let bytes = text.as_bytes();
    let ghost b = bytes@;
    let mut comments: Vec<CommentRange> = Vec::new();
    let mut strings: Vec<StringRange> = Vec::new();
    proof {
        encode_utf8_valid_utf8(text@);
        law_lexemes_in_order(b, 0);
        assert forall|k: int| 0 <= k < lexemes(b, 0).len() implies on_boundary(
            b,
            (#[trigger] lexemes(b, 0)[k]).end,
        ) by {}
        assert(comments@ + comment_ranges(b, lexemes(b, 0)) =~= comment_ranges(b, lexemes(b, 0)));
        assert(strings@ + string_ranges(b, lexemes(b, 0)) =~= string_ranges(b, lexemes(b, 0)));
    }
    let mut s = LexScanner::new(bytes);
    while s.i < bytes.len()
        invariant
            b == bytes@,
            s.wf(),
            s.text() == b,
            cuts_none(b, s.at()),
            comments@ + comment_ranges(b, lexemes(b, s.at())) == comment_ranges(b, lexemes(b, 0)),
            strings@ + string_ranges(b, lexemes(b, s.at())) == string_ranges(b, lexemes(b, 0)),
        decreases bytes.len() - s.i,
    {
        let i = s.i;
        let ghost cs = comments@;
        let ghost ss = strings@;
        proof {
            lemma_lexemes_step(b, i as int);
        }
        match find_lexeme(bytes, i) {
            Some((LexKind::Literal, end)) => {
                proof {
                    lemma_lexeme_start(b, i as int);
                }
                push_string(&mut s, &mut strings, i, end);
                assert(strings@ + string_ranges(b, lexemes(b, end as int)) =~= ss + string_ranges(
                    b,
                    lexemes(b, i as int),
                ));
            },
            Some((LexKind::Comment(kind), end)) => {
                proof {
                    lemma_lexeme_start(b, i as int);
                    lemma_line_start(b, i as int);
                    lemma_line_start(b, end as int);
                }
                let (start_line, start_col) = s.pos(i);
                s.advance_to(end);
                let (end_line, end_col) = s.pos(end);
                comments.push(CommentRange { kind, start_line, start_col, end_line, end_col });
                assert(comments@ + comment_ranges(b, lexemes(b, end as int)) =~= cs
                    + comment_ranges(b, lexemes(b, i as int)));
            },
            None => {
                s.advance_to(i + 1);
            },
        }
    }
    proof {
        assert(comments@ + comment_ranges(b, lexemes(b, s.at())) =~= comments@);
        assert(strings@ + string_ranges(b, lexemes(b, s.at())) =~= strings@);
    }
    LexRanges { comments, strings }
}

/// The lexemes of a text stand one behind the other, each with at least one byte.
pub proof fn law_lexemes_in_order(b: Seq<u8>, i: int)
    requires
        0 <= i,
    ensures
        forall|k: int|
            0 <= k < lexemes(b, i).len() ==> i <= (#[trigger] lexemes(b, i)[k]).start
                < lexemes(b, i)[k].end <= b.len(),
        forall|k: int, m: int|
            0 <= k < m < lexemes(b, i).len() ==> (#[trigger] lexemes(b, i)[k]).end <= (
            #[trigger] lexemes(b, i)[m]).start,
    decreases b.len() - i,
{
    if i < b.len() {
        lemma_lexeme_end(b, i);
        lemma_lexemes_step(b, i);
        match lexeme_at(b, i) {
            Some((kind, end)) => {
                law_lexemes_in_order(b, end);
                assert forall|k: int| 0 <= k < lexemes(b, i).len() implies i <= (
                #[trigger] lexemes(b, i)[k]).start < lexemes(b, i)[k].end <= b.len() by {
                    if k > 0 {
                        assert(lexemes(b, i)[k] == lexemes(b, end)[k - 1]);
                    }
                }
                assert forall|k: int, m: int| 0 <= k < m < lexemes(b, i).len() implies (
                #[trigger] lexemes(b, i)[k]).end <= (#[trigger] lexemes(b, i)[m]).start by {
                    assert(lexemes(b, i)[m] == lexemes(b, end)[m - 1]);
                    if k > 0 {
                        assert(lexemes(b, i)[k] == lexemes(b, end)[k - 1]);
                    }
                }
            },
            None => {
                law_lexemes_in_order(b, i + 1);
            },
        }
    }
}

/// Whether the scan can report every position of a text.
pub fn can_scan(text: &str) -> (r: bool)
    ensures
        r == scannable(text@),
{
    let bytes = text.as_bytes();
    let ghost b = bytes@;
    proof {
        law_lexemes_in_order(b, 0);
        assert(cuts_char(b) == !cuts_none(b, 0)) by {
            if !cuts_none(b, 0) {
                let k = choose|k: int|
                    0 <= k < lexemes(b, 0).len() && !on_boundary(
                        b,
                        (#[trigger] lexemes(b, 0)[k]).end,
                    );
                assert(lexemes(b, 0)[k].end < b.len());
            }
        }
    }
    let mut lines: u64 = 0;
    let mut i: usize = 0;
    while i < bytes.len()
        invariant
            b == bytes@,
            i <= bytes.len(),
            lines == newlines(b, i as int),
            lines <= i,
        decreases bytes.len() - i,
    {
        if bytes[i] == NEWLINE {
            lines += 1;
        }
        i += 1;
    }
    if lines > u32::MAX as u64 {
        return false;
    }
    i = 0;
    while i < bytes.len()
        invariant
            b == bytes@,
            i <= bytes.len(),
            cuts_none(b, i as int) == cuts_none(b, 0),
            cuts_char(b) == !cuts_none(b, 0),
            b == encode_utf8(text@),
        decreases bytes.len() - i,
    {
        proof {
            lemma_lexemes_step(b, i as int);
        }
        match find_lexeme(bytes, i) {
            Some((_, end)) => {
                if end < bytes.len() && 0x80 <= bytes[end] && bytes[end] <= 0xbf {
                    return false;
                }
                i = end;
            },
            None => {
                i += 1;
            },
        }
    }
    true
}

// ---------------------------------------------------------------------------------------------
// Laws
// ---------------------------------------------------------------------------------------------
/// Two dashes start a comment that runs to the end of their line.
pub proof fn law_dashes_comment_the_rest_of_their_line(b: Seq<u8>, i: int)
    requires
        0 <= i,
        i + 1 < b.len(),
        b[i] == 0x2d && b[i + 1] == 0x2d,
    ensures
        match lexeme_at(b, i) {
            Some((LexKind::Comment(CommentKind::Plain), end)) => {
                &&& i + 2 <= end <= b.len()
                &&& forall|k: int| i + 2 <= k < end ==> #[trigger] b[k] != 0xa
                &&& end < b.len() ==> b[end] == 0xa
            },
            _ => false,
        },
{
    lemma_line_end_is_first(b, i + 2);
}

proof fn lemma_line_end_is_first(b: Seq<u8>, i: int)
    requires
        0 <= i <= b.len(),
    ensures
        i <= line_end(b, i) <= b.len(),
        forall|k: int| i <= k < line_end(b, i) ==> #[trigger] b[k] != 0xa,
        line_end(b, i) < b.len() ==> b[line_end(b, i)] == 0xa,
    decreases b.len() - i,
{
    if i < b.len() && b[i] != NEWLINE {
        lemma_line_end_is_first(b, i + 1);
    }
}

/// Whether a block comment opens at an index.
pub open spec fn opens_block(b: Seq<u8>, k: int) -> bool {
    0 <= k && k + 1 < b.len() && b[k] == 0x2f && b[k + 1] == 0x2d
}

/// Whether a block comment closes at an index.
pub open spec fn closes_block(b: Seq<u8>, k: int) -> bool {
    0 <= k && k + 1 < b.len() && b[k] == 0x2d && b[k + 1] == 0x2f
}

#[verifier::rlimit(50)]
#[verifier::spinoff_prover]
proof fn lemma_block_runs(b: Seq<u8>, j: int, depth: nat, m: int)
    requires
        0 <= j <= m,
        depth > 0,
        closes_block(b, m),
        forall|k: int| j <= k < m ==> !#[trigger] opens_block(b, k) && !closes_block(b, k),
    ensures
        block_end(b, j, depth) == block_end(b, m + 2, (depth - 1) as nat),
    decreases m - j,
{
    if j < m {
        assert(!opens_block(b, j) && !closes_block(b, j));
        lemma_block_runs(b, j + 1, depth, m);
    }
}

/// A slash and a dash start a comment that the next dash and slash end. It is documentation if a
/// dash or an exclamation mark follows.
pub proof fn law_block_comments_run_to_their_end(b: Seq<u8>, i: int, m: int)
    requires
        opens_block(b, i),
        i + 2 <= m,
        closes_block(b, m),
        forall|k: int| i + 2 <= k < m ==> !#[trigger] opens_block(b, k) && !closes_block(b, k),
    ensures
        lexeme_at(b, i) == Some(
            (
                LexKind::Comment(
                    if b[i + 2] == 0x2d || b[i + 2] == 0x21 {
                        CommentKind::Doc
                    } else {
                        CommentKind::Plain
                    },
                ),
                m + 2,
            ),
        ),
{
    lemma_block_runs(b, i + 2, 1, m);
}

/// A block comment inside another one does not end it: what ends so many levels of comments ends
/// the inner ones first and then the others. A comment that nothing ends runs to the last byte.
pub proof fn law_block_comments_nest(b: Seq<u8>, j: int, inner: nat, outer: nat)
    requires
        0 <= j <= b.len(),
    ensures
        block_end(b, j, inner) + 1 < b.len() ==> block_end(b, j, inner + outer) == block_end(
            b,
            block_end(b, j, inner),
            outer,
        ),
        opens_block(b, j) && inner > 0 ==> block_end(b, j, inner) == block_end(b, j + 2, inner + 1),
        inner > 0 && (forall|k: int| j <= k ==> !#[trigger] closes_block(b, k)) ==> block_end(
            b,
            j,
            inner,
        ) >= b.len() - 1,
    decreases b.len() - j,
{
    if j + 1 < b.len() && inner > 0 {
        if b[j] == SLASH && b[j + 1] == DASH {
            law_block_comments_nest(b, j + 2, inner + 1, outer);
        } else if b[j] == DASH && b[j + 1] == SLASH {
            assert(closes_block(b, j));
            law_block_comments_nest(b, j + 2, (inner - 1) as nat, outer);
        } else {
            law_block_comments_nest(b, j + 1, inner, outer);
        }
    }
}

/// A block comment starts wherever its two bytes stand, and its levels are counted from there.
pub proof fn law_block_comments_start_with_one_level(b: Seq<u8>, i: int)
    requires
        opens_block(b, i),
    ensures
        match lexeme_at(b, i) {
            Some((LexKind::Comment(kind), end)) => {
                &&& end == block_end(b, i + 2, 1)
                &&& kind == CommentKind::Doc <==> i + 2 < b.len() && (b[i + 2] == 0x2d || b[i + 2]
                    == 0x21)
            },
            _ => false,
        },
{
}

/// Whether bytes are the body of a literal: bytes that are neither the delimiter nor a backslash,
/// and backslashes each with the byte that it escapes.
pub open spec fn literal_body(s: Seq<u8>, delimiter: u8) -> bool
    decreases s.len(),
{
    if s.len() == 0 {
        true
    } else if s[0] == 0x5c {
        s.len() >= 2 && literal_body(s.skip(2), delimiter)
    } else {
        s[0] != delimiter && literal_body(s.skip(1), delimiter)
    }
}

proof fn lemma_quoted_body(b: Seq<u8>, i: int, e: int)
    requires
        0 <= i < e <= b.len(),
        literal_body(b.subrange(i, e - 1), 0x22),
        b[e - 1] == 0x22,
    ensures
        quoted_end(b, i) == e,
    decreases e - i,
{
    let body = b.subrange(i, e - 1);
    if i < e - 1 {
        assert(body[0] == b[i]);
        if b[i] == BACKSLASH {
            assert(body.skip(2) =~= b.subrange(i + 2, e - 1));
            lemma_quoted_body(b, i + 2, e);
        } else {
            assert(body.skip(1) =~= b.subrange(i + 1, e - 1));
            lemma_quoted_body(b, i + 1, e);
        }
    }
}

proof fn lemma_quoted_open(b: Seq<u8>, i: int)
    requires
        0 <= i <= b.len(),
        forall|k: int| i <= k < b.len() ==> #[trigger] b[k] != 0x22,
    ensures
        quoted_end(b, i) == b.len(),
    decreases b.len() - i,
{
    if i < b.len() {
        if b[i] == BACKSLASH && i + 1 < b.len() {
            lemma_quoted_open(b, i + 2);
        } else {
            lemma_quoted_open(b, i + 1);
        }
    }
}

/// A quote starts a literal that runs behind the next quote which no backslash escapes, or to the
/// end of the text where there is none.
pub proof fn law_quotes_start_literals(b: Seq<u8>, i: int, e: int)
    requires
        0 <= i < b.len(),
        b[i] == 0x22,
    ensures
        i + 1 < e <= b.len() && literal_body(b.subrange(i + 1, e - 1), 0x22) && b[e - 1] == 0x22
            ==> lexeme_at(b, i) == Some((LexKind::Literal, e)),
        (forall|k: int| i < k < b.len() ==> #[trigger] b[k] != 0x22) ==> lexeme_at(b, i) == Some(
            (LexKind::Literal, b.len() as int),
        ),
        lexeme_at(b, i) matches Some((kind, _)) && kind == LexKind::Literal,
{
    if i + 1 < e <= b.len() && literal_body(b.subrange(i + 1, e - 1), 0x22) && b[e - 1] == 0x22 {
        lemma_quoted_body(b, i + 1, e);
    }
    if forall|k: int| i < k < b.len() ==> #[trigger] b[k] != 0x22 {
        lemma_quoted_open(b, i + 1);
    }
}

/// Whether a byte can belong to an identifier.
pub open spec fn ident_byte(x: u8) -> bool {
    0x61 <= x <= 0x7a || 0x41 <= x <= 0x5a || 0x30 <= x <= 0x39 || x == 0x5f || x == 0x27
}

/// An `s!` or `m!` in front of a string literal belongs to it, unless it is the end of an
/// identifier.
pub proof fn law_interpolated_strings_start_at_their_prefix(b: Seq<u8>, i: int)
    requires
        0 <= i,
        i + 2 < b.len(),
        b[i] == 0x73 || b[i] == 0x6d,
        b[i + 1] == 0x21 && b[i + 2] == 0x22,
    ensures
        i == 0 || !ident_byte(b[i - 1]) ==> lexeme_at(b, i) == lexeme_at(b, i + 2),
        i > 0 && ident_byte(b[i - 1]) ==> lexeme_at(b, i) is None,
{
}

proof fn lemma_hash_run(b: Seq<u8>, i: int, n: int)
    requires
        0 <= i,
        0 <= n,
        i + n < b.len(),
        forall|k: int| i <= k < i + n ==> #[trigger] b[k] == 0x23,
        b[i + n] != 0x23,
    ensures
        hash_run_end(b, i) == i + n,
    decreases n,
{
    if n > 0 {
        assert(b[i] == 0x23);
        lemma_hash_run(b, i + 1, n - 1);
    }
}

/// Whether a raw literal with so many hash signs closes at an index.
pub open spec fn closes_raw(b: Seq<u8>, k: int, n: int) -> bool {
    0 <= k && k + n < b.len() && b[k] == 0x22 && forall|j: int|
        k < j <= k + n ==> #[trigger] b[j] == 0x23
}

proof fn lemma_closes_raw(b: Seq<u8>, k: int, n: int)
    requires
        0 <= k < b.len(),
        0 <= n,
    ensures
        closes_raw(b, k, n) <==> b[k] == QUOTE && hashes_at(b, k + 1, n),
{
    if closes_raw(b, k, n) {
        assert forall|j: int| k + 1 <= j < k + 1 + n implies b[j] == HASH by {}
    }
    if b[k] == QUOTE && hashes_at(b, k + 1, n) {
        assert forall|j: int| k < j <= k + n implies #[trigger] b[j] == 0x23 by {}
    }
}

proof fn lemma_raw_runs(b: Seq<u8>, i: int, n: int, m: int)
    requires
        0 <= i <= m,
        0 <= n,
        closes_raw(b, m, n),
        forall|k: int| i <= k < m ==> !#[trigger] closes_raw(b, k, n),
    ensures
        raw_end(b, i, n) == m + 1 + n,
    decreases m - i,
{
    lemma_closes_raw(b, i, n);
    if i < m {
        assert(!closes_raw(b, i, n));
        lemma_raw_runs(b, i + 1, n, m);
    }
}

/// A raw literal runs from its `r` to the first quote with as many hash signs behind it as stand
/// in front of its first quote, whatever backslashes come in between.
pub proof fn law_raw_literals_end_with_their_hashes(b: Seq<u8>, i: int, n: int, m: int)
    requires
        0 <= i,
        0 <= n,
        i + 1 + n < m,
        b[i] == 0x72,
        i == 0 || !ident_byte(b[i - 1]),
        forall|k: int| i + 1 <= k < i + 1 + n ==> #[trigger] b[k] == 0x23,
        i + 1 + n < b.len() && b[i + 1 + n] == 0x22,
        closes_raw(b, m, n),
        forall|k: int| i + 2 + n <= k < m ==> !#[trigger] closes_raw(b, k, n),
    ensures
        lexeme_at(b, i) == Some((LexKind::Literal, m + 1 + n)),
{
    lemma_hash_run(b, i + 1, n);
    lemma_raw_runs(b, i + 2 + n, n, m);
}

proof fn lemma_char_body(b: Seq<u8>, i: int, limit: int, e: int)
    requires
        0 <= i < e <= b.len(),
        e - 1 < limit,
        literal_body(b.subrange(i, e - 1), 0x27),
        b[e - 1] == 0x27,
        forall|k: int| i <= k < e - 1 ==> #[trigger] b[k] != 0xa,
    ensures
        char_lit_end(b, i, limit) == Some(e),
    decreases e - i,
{
    let body = b.subrange(i, e - 1);
    if i < e - 1 {
        assert(body[0] == b[i]);
        if b[i] == BACKSLASH {
            assert(body.skip(2) =~= b.subrange(i + 2, e - 1));
            lemma_char_body(b, i + 2, limit, e);
        } else {
            assert(body.skip(1) =~= b.subrange(i + 1, e - 1));
            lemma_char_body(b, i + 1, limit, e);
        }
    }
}

proof fn lemma_char_lit_closed(b: Seq<u8>, i: int, limit: int)
    requires
        0 <= i,
    ensures
        char_lit_end(b, i, limit) matches Some(e) ==> i < e <= limit && e <= b.len() && b[e - 1]
            == 0x27,
    decreases b.len() - i,
{
    if i < limit && i < b.len() {
        if b[i] == BACKSLASH && i + 1 < b.len() {
            lemma_char_lit_closed(b, i + 2, limit);
        } else if b[i] != APOSTROPHE && b[i] != NEWLINE {
            lemma_char_lit_closed(b, i + 1, limit);
        }
    }
}

/// An apostrophe starts a literal if another one that no backslash escapes follows within sixteen
/// bytes on the same line, and it is no part of an identifier; the literal ends with that one.
pub proof fn law_character_literals_are_short(b: Seq<u8>, i: int, e: int)
    requires
        0 <= i < b.len(),
        b[i] == 0x27,
    ensures
        (i == 0 || !ident_byte(b[i - 1])) && i + 1 < e <= b.len() && e <= i + 17 && literal_body(
            b.subrange(i + 1, e - 1),
            0x27,
        ) && b[e - 1] == 0x27 && (forall|k: int| i < k < e - 1 ==> #[trigger] b[k] != 0xa)
            ==> lexeme_at(b, i) == Some((LexKind::Literal, e)),
        i > 0 && ident_byte(b[i - 1]) ==> lexeme_at(b, i) is None,
        lexeme_at(b, i) matches Some((kind, end)) ==> kind == LexKind::Literal && i + 1 < end <= i
            + 17 && end <= b.len() && b[end - 1] == 0x27,
{
    let wide = i + 1 + CHAR_LIT_LIMIT;
    let limit = if wide < b.len() {
        wide
    } else {
        b.len() as int
    };
    lemma_char_lit_closed(b, i + 1, limit);
    if i + 1 < e <= b.len() && e <= i + 17 && literal_body(b.subrange(i + 1, e - 1), 0x27) && b[e
        - 1] == 0x27 && (forall|k: int| i < k < e - 1 ==> #[trigger] b[k] != 0xa) {
        lemma_char_body(b, i + 1, limit, e);
    }
}

/// Nothing else starts a comment or a literal.
pub proof fn law_nothing_else_starts_a_lexeme(b: Seq<u8>, i: int)
    requires
        0 <= i < b.len(),
        lexeme_at(b, i) is Some,
    ensures
        ({
            ||| b[i] == 0x22
            ||| b[i] == 0x27
            ||| i + 1 < b.len() && b[i] == 0x2d && b[i + 1] == 0x2d
            ||| i + 1 < b.len() && b[i] == 0x2f && b[i + 1] == 0x2d
            ||| i + 2 < b.len() && (b[i] == 0x73 || b[i] == 0x6d) && b[i + 1] == 0x21 && b[i + 2]
                == 0x22
            ||| i + 1 < b.len() && b[i] == 0x72 && (b[i + 1] == 0x22 || b[i + 1] == 0x23)
        }),
{
    if b[i] == LOWER_R {
        lemma_hash_run_end(b, i + 1);
    }
}

/// Whether an index lies inside a lexeme.
pub open spec fn inside_one(ls: Seq<Lexeme>, i: int) -> bool {
    exists|k: int| 0 <= k < ls.len() && (#[trigger] ls[k]).start <= i < ls[k].end
}

/// The scan leaves out no comment and no literal: where one could start, the index lies inside one
/// that was found; and each that was found is one that starts there.
pub proof fn law_every_lexeme_is_found(b: Seq<u8>, from: int, i: int)
    requires
        0 <= from <= i < b.len(),
    ensures
        lexeme_at(b, i) is Some ==> inside_one(lexemes(b, from), i),
        forall|k: int|
            0 <= k < lexemes(b, from).len() ==> lexeme_at(
                b,
                (#[trigger] lexemes(b, from)[k]).start,
            ) == Some((lexemes(b, from)[k].kind, lexemes(b, from)[k].end)),
    decreases b.len() - from,
{
    lemma_lexeme_end(b, from);
    lemma_lexemes_step(b, from);
    let all = lexemes(b, from);
    match lexeme_at(b, from) {
        Some((kind, end)) => {
            let rest = lexemes(b, end);
            if i < end {
                assert(all[0].start <= i < all[0].end);
            }
            if end < b.len() {
                law_every_lexeme_is_found(b, end, if i < end { end } else { i });
            }
            assert forall|k: int| 0 <= k < all.len() implies lexeme_at(
                b,
                (#[trigger] all[k]).start,
            ) == Some((all[k].kind, all[k].end)) by {
                if k > 0 {
                    assert(all[k] == rest[k - 1]);
                }
            }
            if i >= end && lexeme_at(b, i) is Some {
                let k = choose|k: int|
                    0 <= k < rest.len() && (#[trigger] rest[k]).start <= i < rest[k].end;
                assert(all[k + 1] == rest[k]);
            }
        },
        None => {
            if from + 1 < b.len() {
                law_every_lexeme_is_found(b, from + 1, if i == from { from + 1 } else { i });
            }
        },
    }
}

proof fn lemma_newlines_count(b: Seq<u8>, i: int)
    requires
        0 <= i <= b.len(),
    ensures
        newlines(b, i) == b.take(i).filter(|x: u8| x == 0xa).len(),
    decreases i,
{
    reveal(Seq::filter);
    if i > 0 {
        lemma_newlines_count(b, i - 1);
        assert(b.take(i).drop_last() =~= b.take(i - 1));
        assert(b.take(i).last() == b[i - 1]);
    } else {
        assert(b.take(0) =~= Seq::empty());
    }
}

/// The line of an index is the number of line feeds in front of it, and its line starts behind the
/// last of them.
pub proof fn law_positions_count_lines(b: Seq<u8>, i: int)
    requires
        0 <= i <= b.len(),
    ensures
        newlines(b, i) == b.take(i).filter(|x: u8| x == 0xa).len(),
        0 <= line_start(b, i) <= i,
        line_start(b, i) > 0 ==> b[line_start(b, i) - 1] == 0xa,
        forall|k: int| line_start(b, i) <= k < i ==> #[trigger] b[k] != 0xa,
        newlines(b, i) <= u32::MAX ==> position(b, i).0 == newlines(b, i),
        position(b, i).1 == low32(utf16_len(decode_utf8(b.subrange(line_start(b, i), i)))),
{
    lemma_newlines_count(b, i);
    lemma_line_start_is_last(b, i);
}

proof fn lemma_line_start_is_last(b: Seq<u8>, i: int)
    requires
        0 <= i <= b.len(),
    ensures
        0 <= line_start(b, i) <= i,
        line_start(b, i) > 0 ==> b[line_start(b, i) - 1] == 0xa,
        forall|k: int| line_start(b, i) <= k < i ==> #[trigger] b[k] != 0xa,
    decreases i,
{
    if i > 0 && b[i - 1] != NEWLINE {
        lemma_line_start_is_last(b, i - 1);
    }
}

/// Every comment among some lexemes has its range, from the position of its start to that of its
/// end, and nothing else has.
pub proof fn law_comments_have_their_ranges(b: Seq<u8>, ls: Seq<Lexeme>)
    ensures
        comment_ranges(b, ls) == ls.filter(|l: Lexeme| l.kind is Comment).map_values(
            |l: Lexeme|
                CommentRange {
                    kind: l.kind->Comment_0,
                    start_line: position(b, l.start).0,
                    start_col: position(b, l.start).1,
                    end_line: position(b, l.end).0,
                    end_col: position(b, l.end).1,
                },
        ),
    decreases ls.len(),
{
    let is_comment = |l: Lexeme| l.kind is Comment;
    let range = |l: Lexeme|
        CommentRange {
            kind: l.kind->Comment_0,
            start_line: position(b, l.start).0,
            start_col: position(b, l.start).1,
            end_line: position(b, l.end).0,
            end_col: position(b, l.end).1,
        };
    if ls.len() > 0 {
        let rest = ls.drop_first();
        law_comments_have_their_ranges(b, rest);
        lemma_filter_first(ls, is_comment);
        assert(comment_ranges(b, ls) =~= ls.filter(is_comment).map_values(range));
    } else {
        reveal(Seq::filter);
        assert(comment_ranges(b, ls) =~= ls.filter(is_comment).map_values(range));
    }
}

proof fn lemma_filter_first(ls: Seq<Lexeme>, pred: spec_fn(Lexeme) -> bool)
    requires
        ls.len() > 0,
    ensures
        ls.filter(pred) == (if pred(ls[0]) {
            seq![ls[0]]
        } else {
            Seq::empty()
        }) + ls.drop_first().filter(pred),
{
    let one = seq![ls[0]];
    assert(ls =~= one + ls.drop_first());
    Seq::filter_distributes_over_add(one, ls.drop_first(), pred);
    reveal(Seq::filter);
    one.drop_last().lemma_filter_len(pred);
    assert(one.filter(pred) =~= if pred(ls[0]) {
        seq![ls[0]]
    } else {
        Seq::empty()
    });
}

/// Every literal among some lexemes has its range, from the position of its start to that of its
/// end, and nothing else has.
pub proof fn law_literals_have_their_ranges(b: Seq<u8>, ls: Seq<Lexeme>)
    ensures
        string_ranges(b, ls) == ls.filter(|l: Lexeme| l.kind == LexKind::Literal).map_values(
            |l: Lexeme|
                StringRange {
                    start_line: position(b, l.start).0,
                    start_col: position(b, l.start).1,
                    end_line: position(b, l.end).0,
                    end_col: position(b, l.end).1,
                },
        ),
    decreases ls.len(),
{
    let is_literal = |l: Lexeme| l.kind == LexKind::Literal;
    let range = |l: Lexeme|
        StringRange {
            start_line: position(b, l.start).0,
            start_col: position(b, l.start).1,
            end_line: position(b, l.end).0,
            end_col: position(b, l.end).1,
        };
    if ls.len() > 0 {
        let rest = ls.drop_first();
        law_literals_have_their_ranges(b, rest);
        lemma_filter_first(ls, is_literal);
        assert(string_ranges(b, ls) =~= ls.filter(is_literal).map_values(range));
    } else {
        reveal(Seq::filter);
        assert(string_ranges(b, ls) =~= ls.filter(is_literal).map_values(range));
    }
}

/// A range as a span keeps its four numbers.
pub proof fn law_spans_keep_their_range(c: CommentRange, s: StringRange)
    ensures
        c.as_span().start_line == c.start_line && c.as_span().start_col == c.start_col,
        c.as_span().end_line == c.end_line && c.as_span().end_col == c.end_col,
        s.as_span().start_line == s.start_line && s.as_span().start_col == s.start_col,
        s.as_span().end_line == s.end_line && s.as_span().end_col == s.end_col,
{
}

} // verus!
