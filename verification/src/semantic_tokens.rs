//! The colours of a Lean text: those that the server gives, with the comments, the literals and
//! the words added that it leaves without one.
use crate::documents::{Documents, Texts};
use crate::json::{array_in, items_view, lemma_items_view, str_in, str_view, Json, JsonView};
use crate::lexer::{
    can_scan, comment_ranges, lexemes, scan_lex_ranges, scannable, string_ranges, CommentKind,
    CommentRange, LexRanges, Span, StringRange,
};
use crate::order::{law_order, no_later, order_of, stable_order};
use crate::scan::{
    lemma_in_two, scan_lines_unified, scanned, source_lines, split_lines, ScanKinds, Token,
};
use crate::snoop::opt_str;
use crate::state::{
    law_names_have_their_first_index, law_unknown_names_have_no_index, token_index, StateHandle,
    StateView,
};
use crate::text::{chars_of, low32, utf16_count, utf16_len, views};
use crate::text_map::TextMap;
use std::collections::{HashMap, HashSet};
use vstd::prelude::*;
use vstd::utf8::encode_utf8;

verus! {

broadcast use vstd::std_specs::hash::group_hash_axioms;

// ---------------------------------------------------------------------------------------------
// The wire format: five numbers for each token, its position relative to the one before
// ---------------------------------------------------------------------------------------------
/// The number that an item of the wire format stands for; what is none, or too large, counts as
/// zero.
pub open spec fn wire_number(v: JsonView) -> u32 {
    match v.as_u64() {
        Some(n) => if n <= u32::MAX {
            n as u32
        } else {
            0
        },
        None => 0,
    }
}

/// The numbers in the `data` of an answer of the server.
pub open spec fn wire_numbers(answer: JsonView) -> Seq<u32> {
    match array_in(answer.get("data"@)) {
        Some(items) => items.map_values(|v: JsonView| wire_number(v)),
        None => Seq::empty(),
    }
}

/// The line of the next token, where the last one stood on a given line.
pub open spec fn next_line(nums: Seq<u32>, line: int) -> int {
    line + nums[0]
}

/// The column of the next token, where the last one started at a given column.
pub open spec fn next_start(nums: Seq<u32>, start: int) -> int {
    if nums[0] > 0 {
        nums[1] as int
    } else {
        start + nums[1]
    }
}

/// The tokens that numbers stand for, where the last token started at a given position. Fewer
/// than five numbers at the end are left out.
pub open spec fn decoded(nums: Seq<u32>, line: int, start: int) -> Seq<Token>
    decreases nums.len(),
{
    if nums.len() < 5 {
        Seq::empty()
    } else {
        let l = next_line(nums, line);
        let s = next_start(nums, start);
        seq![
            Token {
                line: l as u32,
                start: s as u32,
                length: nums[2],
                ty: nums[3],
                modifiers: nums[4],
            },
        ] + decoded(nums.skip(5), l, s)
    }
}

/// Whether every line and every column fits in 32 bits.
pub open spec fn positions_fit(nums: Seq<u32>, line: int, start: int) -> bool
    decreases nums.len(),
{
    nums.len() < 5 || {
        let l = next_line(nums, line);
        let s = next_start(nums, start);
        l <= u32::MAX && s <= u32::MAX && positions_fit(nums.skip(5), l, s)
    }
}

/// The numbers that stand for tokens, where the last token started at a given position.
pub open spec fn encoded(tokens: Seq<Token>, line: int, start: int) -> Seq<u32>
    decreases tokens.len(),
{
    if tokens.len() == 0 {
        Seq::empty()
    } else {
        let t = tokens[0];
        let dl = t.line - line;
        let ds = if dl > 0 {
            t.start as int
        } else {
            t.start - start
        };
        seq![dl as u32, ds as u32, t.length, t.ty, t.modifiers] + encoded(
            tokens.drop_first(),
            t.line as int,
            t.start as int,
        )
    }
}

/// Whether a position does not come behind another one.
pub open spec fn not_behind(l1: int, s1: int, l2: int, s2: int) -> bool {
    l1 < l2 || (l1 == l2 && s1 <= s2)
}

/// Whether tokens stand in the order of their positions.
pub open spec fn in_order(tokens: Seq<Token>) -> bool {
    forall|i: int, j: int|
        0 <= i < j < tokens.len() ==> not_behind(
            (#[trigger] tokens[i]).line as int,
            tokens[i].start as int,
            (#[trigger] tokens[j]).line as int,
            tokens[j].start as int,
        )
}

/// Decoding gives back the tokens that were encoded, as long as they are in order.
pub proof fn law_decode_what_was_encoded(tokens: Seq<Token>, line: int, start: int)
    requires
        in_order(tokens),
        0 <= line <= u32::MAX,
        0 <= start <= u32::MAX,
        tokens.len() > 0 ==> not_behind(line, start, tokens[0].line as int, tokens[0].start as int),
    ensures
        decoded(encoded(tokens, line, start), line, start) == tokens,
        positions_fit(encoded(tokens, line, start), line, start),
    decreases tokens.len(),
{
    if tokens.len() > 0 {
        let t = tokens[0];
        let rest = tokens.drop_first();
        let nums = encoded(tokens, line, start);
        assert forall|i: int, j: int| 0 <= i < j < rest.len() implies not_behind(
            (#[trigger] rest[i]).line as int,
            rest[i].start as int,
            (#[trigger] rest[j]).line as int,
            rest[j].start as int,
        ) by {
            assert(rest[i] == tokens[i + 1] && rest[j] == tokens[j + 1]);
        }
        if rest.len() > 0 {
            assert(rest[0] == tokens[1]);
        }
        law_decode_what_was_encoded(rest, t.line as int, t.start as int);
        assert(nums.skip(5) =~= encoded(rest, t.line as int, t.start as int));
        assert(next_line(nums, line) == t.line);
        assert(next_start(nums, start) == t.start);
        assert(decoded(nums, line, start) =~= tokens);
    }
}

/// Encoding gives back the numbers that were decoded, as long as they come in fives and every
/// position fits.
pub proof fn law_encode_what_was_decoded(nums: Seq<u32>, line: int, start: int)
    requires
        nums.len() % 5 == 0,
        0 <= line <= u32::MAX,
        0 <= start <= u32::MAX,
        positions_fit(nums, line, start),
    ensures
        encoded(decoded(nums, line, start), line, start) == nums,
    decreases nums.len(),
{
    if nums.len() > 0 {
        let l = next_line(nums, line);
        let s = next_start(nums, start);
        law_encode_what_was_decoded(nums.skip(5), l, s);
        let tokens = decoded(nums, line, start);
        assert(tokens.drop_first() =~= decoded(nums.skip(5), l, s));
        assert(tokens[0].line == l && tokens[0].start == s);
        let first = seq![nums[0], nums[1], nums[2], nums[3], nums[4]];
        assert(encoded(tokens, line, start) =~= first + nums.skip(5));
        assert(first + nums.skip(5) =~= nums);
    }
}

/// Tokens that were decoded are in order, and none comes in front of where the decoding started.
pub proof fn law_decoded_in_order(nums: Seq<u32>, line: int, start: int)
    requires
        0 <= line <= u32::MAX,
        0 <= start <= u32::MAX,
        positions_fit(nums, line, start),
    ensures
        in_order(decoded(nums, line, start)),
        forall|i: int|
            0 <= i < decoded(nums, line, start).len() ==> not_behind(
                line,
                start,
                (#[trigger] decoded(nums, line, start)[i]).line as int,
                decoded(nums, line, start)[i].start as int,
            ),
    decreases nums.len(),
{
    if nums.len() >= 5 {
        let l = next_line(nums, line);
        let s = next_start(nums, start);
        law_decoded_in_order(nums.skip(5), l, s);
        let all = decoded(nums, line, start);
        let rest = decoded(nums.skip(5), l, s);
        assert(all.drop_first() =~= rest);
        assert forall|i: int| 0 <= i < all.len() implies not_behind(
            line,
            start,
            (#[trigger] all[i]).line as int,
            all[i].start as int,
        ) by {
            if i > 0 {
                assert(all[i] == rest[i - 1]);
            }
        }
        assert forall|i: int, j: int| 0 <= i < j < all.len() implies not_behind(
            (#[trigger] all[i]).line as int,
            all[i].start as int,
            (#[trigger] all[j]).line as int,
            all[j].start as int,
        ) by {
            assert(all[j] == rest[j - 1]);
            if i > 0 {
                assert(all[i] == rest[i - 1]);
            }
        }
    }
}

/// The numbers in the `data` of an answer of the server.
fn read_numbers(answer: &Json) -> (out: Vec<u32>)
    ensures
        out@ == wire_numbers(answer@),
{
    let mut out: Vec<u32> = Vec::new();
    if let Some(data) = answer.get("data") {
        if let Some(items) = data.as_array() {
            let mut i: usize = 0;
            proof {
                lemma_items_view(items@);
            }
            while i < items.len()
                invariant
                    i <= items.len(),
                    out.len() == i,
                    forall|k: int| 0 <= k < i ==> #[trigger] out@[k] == wire_number(items@[k]@),
                decreases items.len() - i,
            {
                let n: u32 = match items[i].as_u64() {
                    Some(n) => if n <= u32::MAX as u64 {
                        n as u32
                    } else {
                        0
                    },
                    None => 0,
                };
                out.push(n);
                i += 1;
            }
        }
    }
    assert(out@ =~= wire_numbers(answer@));
    out
}

/// Whether the positions in an answer of the server fit in 32 bits.
pub fn can_decode(answer: &Json) -> (r: bool)
    ensures
        r == positions_fit(wire_numbers(answer@), 0, 0),
{
    let nums = read_numbers(answer);
    let mut line: u32 = 0;
    let mut start: u32 = 0;
    let mut i: usize = 0;
    assert(nums@.skip(0) =~= nums@);
    while nums.len() - i >= 5
        invariant
            i <= nums.len(),
            nums@ == wire_numbers(answer@),
            positions_fit(nums@, 0, 0) == positions_fit(
                nums@.skip(i as int),
                line as int,
                start as int,
            ),
        decreases nums.len() - i,
    {
        let ghost rest = nums@.skip(i as int);
        assert(rest.skip(5) =~= nums@.skip(i as int + 5));
        if nums[i] > u32::MAX - line {
            return false;
        }
        line += nums[i];
        if nums[i] > 0 {
            start = nums[i + 1];
        } else {
            if nums[i + 1] > u32::MAX - start {
                return false;
            }
            start += nums[i + 1];
        }
        i += 5;
    }
    true
}

/// The tokens in an answer of the server.
pub fn decode_tokens(answer: &Json) -> (out: Vec<Token>)
    requires
        positions_fit(wire_numbers(answer@), 0, 0),
    ensures
        out@ == decoded(wire_numbers(answer@), 0, 0),
{
    let nums = read_numbers(answer);
    let mut out: Vec<Token> = Vec::new();
    let mut line: u32 = 0;
    let mut start: u32 = 0;
    let mut i: usize = 0;
    assert(nums@.skip(0) =~= nums@);
    assert(out@ + decoded(nums@, 0, 0) =~= decoded(nums@, 0, 0));
    while nums.len() - i >= 5
        invariant
            i <= nums.len(),
            nums@ == wire_numbers(answer@),
            positions_fit(nums@.skip(i as int), line as int, start as int),
            out@ + decoded(nums@.skip(i as int), line as int, start as int) == decoded(nums@, 0, 0),
        decreases nums.len() - i,
    {
        let ghost rest = nums@.skip(i as int);
        let ghost before = out@;
        let ghost (l, s) = (line as int, start as int);
        assert(rest.skip(5) =~= nums@.skip(i as int + 5));
        assert(next_line(rest, l) <= u32::MAX && next_start(rest, s) <= u32::MAX);
        line += nums[i];
        if nums[i] > 0 {
            start = nums[i + 1];
        } else {
            start += nums[i + 1];
        }
        out.push(
            Token { line, start, length: nums[i + 2], ty: nums[i + 3], modifiers: nums[i + 4] },
        );
        i += 5;
        assert(out@ + decoded(nums@.skip(i as int), line as int, start as int) =~= before + decoded(
            rest,
            l,
            s,
        ));
    }
    assert(out@ + decoded(nums@.skip(i as int), line as int, start as int) =~= out@);
    out
}

/// Numbers as items of a document.
pub open spec fn as_items(nums: Seq<u32>) -> Seq<JsonView> {
    nums.map_values(|n: u32| JsonView::Int(n as int))
}

/// The items that stand for tokens in order.
pub fn encode_tokens(tokens: &Vec<Token>) -> (out: Vec<Json>)
    requires
        in_order(tokens@),
    ensures
        items_view(out@) == as_items(encoded(tokens@, 0, 0)),
{
    let mut out: Vec<Json> = Vec::new();
    let mut prev_line: u32 = 0;
    let mut prev_start: u32 = 0;
    let mut i: usize = 0;
    assert(tokens@.skip(0) =~= tokens@);
    assert(items_view(out@) + as_items(encoded(tokens@, 0, 0)) =~= as_items(
        encoded(tokens@, 0, 0),
    ));
    while i < tokens.len()
        invariant
            i <= tokens.len(),
            in_order(tokens@),
            i > 0 ==> prev_line == tokens@[i - 1].line && prev_start == tokens@[i - 1].start,
            i == 0 ==> prev_line == 0 && prev_start == 0,
            items_view(out@) + as_items(
                encoded(tokens@.skip(i as int), prev_line as int, prev_start as int),
            ) == as_items(encoded(tokens@, 0, 0)),
        decreases tokens.len() - i,
    {
        let ghost rest = tokens@.skip(i as int);
        let ghost before = out@;
        let ghost (l, s) = (prev_line as int, prev_start as int);
        let t = tokens[i];
        assert(rest[0] == t && rest.drop_first() =~= tokens@.skip(i as int + 1));
        let dl: u32 = t.line - prev_line;
        let ds: u32 = if dl > 0 {
            t.start
        } else {
            t.start - prev_start
        };
        out.push(Json::number(dl as u64));
        out.push(Json::number(ds as u64));
        out.push(Json::number(t.length as u64));
        out.push(Json::number(t.ty as u64));
        out.push(Json::number(t.modifiers as u64));
        prev_line = t.line;
        prev_start = t.start;
        i += 1;
        proof {
            lemma_items_view(before);
            lemma_items_view(out@);
            let five = seq![dl, ds, t.length, t.ty, t.modifiers];
            let tail = encoded(tokens@.skip(i as int), prev_line as int, prev_start as int);
            assert(encoded(rest, l, s) =~= five + tail);
            assert(items_view(out@) =~= items_view(before) + as_items(five));
            assert(as_items(five + tail) =~= as_items(five) + as_items(tail));
            assert(items_view(out@) + as_items(tail) =~= items_view(before) + as_items(
                encoded(rest, l, s),
            ));
        }
    }
    proof {
        let tail = encoded(tokens@.skip(i as int), prev_line as int, prev_start as int);
        assert(items_view(out@) + as_items(tail) =~= items_view(out@));
    }
    out
}

// ---------------------------------------------------------------------------------------------
// Positions
// ---------------------------------------------------------------------------------------------
/// A position as one number, in the order of the positions.
pub open spec fn position_key(line: u32, start: u32) -> u64 {
    (line * 0x1_0000_0000 + start) as u64
}

fn key_of(line: u32, start: u32) -> (r: u64)
    ensures
        r == position_key(line, start),
{
    line as u64 * 0x1_0000_0000 + start as u64
}

/// The keys tell positions apart and order them.
proof fn lemma_position_key(l1: u32, s1: u32, l2: u32, s2: u32)
    ensures
        position_key(l1, s1) == position_key(l2, s2) <==> (l1 == l2 && s1 == s2),
        position_key(l1, s1) < position_key(l2, s2) <==> (l1 < l2 || (l1 == l2 && s1 < s2)),
{
}

/// Whether one of some tokens starts at a position.
pub open spec fn starts_at(tokens: Seq<Token>, line: u32, start: u32) -> bool {
    exists|i: int|
        0 <= i < tokens.len() && (#[trigger] tokens[i]).line == line && tokens[i].start == start
}

/// Where tokens start.
pub struct Starts {
    keys: HashSet<u64>,
}

impl Starts {
    pub closed spec fn has(self, line: u32, start: u32) -> bool {
        self.keys@.contains(position_key(line, start))
    }

    /// The positions at which some tokens start.
    pub fn collect(tokens: &Vec<Token>) -> (r: Starts)
        ensures
            forall|line: u32, start: u32| #[trigger]
                r.has(line, start) == starts_at(tokens@, line, start),
    {
        let mut keys: HashSet<u64> = HashSet::new();
        let mut i: usize = 0;
        while i < tokens.len()
            invariant
                i <= tokens.len(),
                forall|line: u32, start: u32|
                    keys@.contains(#[trigger] position_key(line, start)) == starts_at(
                        tokens@.take(i as int),
                        line,
                        start,
                    ),
            decreases tokens.len() - i,
        {
            let t = tokens[i];
            let ghost before = keys@;
            keys.insert(key_of(t.line, t.start));
            proof {
                let old_part = tokens@.take(i as int);
                let new_part = tokens@.take(i as int + 1);
                assert forall|line: u32, start: u32|
                    keys@.contains(#[trigger] position_key(line, start)) == starts_at(
                        new_part,
                        line,
                        start,
                    ) by {
                    lemma_position_key(line, start, t.line, t.start);
                    if starts_at(new_part, line, start) {
                        let k = choose|k: int|
                            0 <= k < new_part.len() && (#[trigger] new_part[k]).line == line
                                && new_part[k].start == start;
                        if k < i {
                            assert(old_part[k] == new_part[k]);
                            assert(starts_at(old_part, line, start));
                        }
                    }
                    if starts_at(old_part, line, start) {
                        let k = choose|k: int|
                            0 <= k < old_part.len() && (#[trigger] old_part[k]).line == line
                                && old_part[k].start == start;
                        assert(new_part[k] == old_part[k]);
                    }
                    if line == t.line && start == t.start {
                        assert(new_part[i as int] == t);
                    }
                }
            }
            i += 1;
        }
        assert(tokens@.take(i as int) =~= tokens@);
        Starts { keys }
    }

    pub fn contains(&self, line: u32, start: u32) -> (r: bool)
        ensures
            r == self.has(line, start),
    {
        self.keys.contains(&key_of(line, start))
    }
}

// ---------------------------------------------------------------------------------------------
// Ranges
// ---------------------------------------------------------------------------------------------
/// Where a range starts on a line.
pub open spec fn first_col(span: Span, line: u32) -> u32 {
    if line == span.start_line {
        span.start_col
    } else {
        0
    }
}

/// Where a range ends on a line; it runs to the end of every line but its last.
pub open spec fn last_col(span: Span, line: u32) -> u32 {
    if line == span.end_line {
        span.end_col
    } else {
        u32::MAX
    }
}

/// Whether a range covers a position.
pub open spec fn span_covers(span: Span, line: u32, col: u32) -> bool {
    span.start_line <= line <= span.end_line && first_col(span, line) <= col < last_col(span, line)
}

/// Whether one of some ranges covers a position.
pub open spec fn covered(spans: Seq<Span>, line: u32, col: u32) -> bool {
    exists|i: int| 0 <= i < spans.len() && span_covers(#[trigger] spans[i], line, col)
}

/// Whether one of some stretches of a line covers a column.
pub open spec fn stretch_covers(stretches: Seq<(u32, u32)>, col: u32) -> bool {
    exists|i: int|
        0 <= i < stretches.len() && (#[trigger] stretches[i]).0 <= col < stretches[i].1
}

/// Which stretches of which lines some ranges cover.
pub struct RangeLineIndex {
    by_line: HashMap<u32, Vec<(u32, u32)>>,
}

impl RangeLineIndex {
    pub closed spec fn holds(self, line: u32, col: u32) -> bool {
        self.by_line@.contains_key(line) && stretch_covers(self.by_line@[line]@, col)
    }

    /// Adds a stretch of a line.
    fn put(&mut self, line: u32, start: u32, end: u32)
        ensures
            forall|l: u32, c: u32| #[trigger]
                final(self).holds(l, c) == (old(self).holds(l, c) || (l == line && start <= c
                    < end)),
    {
        let mut stretches: Vec<(u32, u32)> = match self.by_line.remove(&line) {
            Some(v) => v,
            None => Vec::new(),
        };
        let ghost before = stretches@;
        stretches.push((start, end));
        let ghost after = stretches@;
        self.by_line.insert(line, stretches);
        assert forall|l: u32, c: u32| #[trigger] self.holds(l, c) == (old(self).holds(l, c) || (l
            == line && start <= c < end)) by {
            if l == line {
                if stretch_covers(before, c) {
                    let k = choose|k: int|
                        0 <= k < before.len() && (#[trigger] before[k]).0 <= c < before[k].1;
                    assert(after[k] == before[k]);
                }
                if stretch_covers(after, c) {
                    let k = choose|k: int|
                        0 <= k < after.len() && (#[trigger] after[k]).0 <= c < after[k].1;
                    if k < before.len() {
                        assert(after[k] == before[k]);
                    }
                }
                assert(after[before.len() as int] == (start, end));
            }
        }
    }

    /// The index of some ranges.
    pub fn from_spans(spans: &Vec<Span>) -> (r: RangeLineIndex)
        ensures
            forall|line: u32, col: u32| #[trigger] r.holds(line, col) == covered(spans@, line, col),
    {
        let mut r = RangeLineIndex { by_line: HashMap::new() };
        let mut i: usize = 0;
        while i < spans.len()
            invariant
                i <= spans.len(),
                forall|l: u32, c: u32| #[trigger]
                    r.holds(l, c) == covered(spans@.take(i as int), l, c),
            decreases spans.len() - i,
        {
            let span = spans[i];
            let ghost before = r;
            if span.start_line <= span.end_line {
                let mut line: u32 = span.start_line;
                loop
                    invariant_except_break
                        span.start_line <= line <= span.end_line,
                        forall|l: u32, c: u32| #[trigger]
                            r.holds(l, c) == (before.holds(l, c) || (l < line && span_covers(
                                span,
                                l,
                                c,
                            ))),
                    ensures
                        forall|l: u32, c: u32| #[trigger]
                            r.holds(l, c) == (before.holds(l, c) || span_covers(span, l, c)),
                    decreases span.end_line - line,
                {
                    let start: u32 = if line == span.start_line {
                        span.start_col
                    } else {
                        0
                    };
                    let end: u32 = if line == span.end_line {
                        span.end_col
                    } else {
                        u32::MAX
                    };
                    if end > start {
                        r.put(line, start, end);
                    }
                    if line == span.end_line {
                        break ;
                    }
                    line += 1;
                }
            }
            proof {
                let old_part = spans@.take(i as int);
                let new_part = spans@.take(i as int + 1);
                assert forall|l: u32, c: u32| #[trigger] r.holds(l, c) == covered(
                    new_part,
                    l,
                    c,
                ) by {
                    assert(new_part[i as int] == span);
                    if covered(old_part, l, c) {
                        let k = choose|k: int|
                            0 <= k < old_part.len() && span_covers(#[trigger] old_part[k], l, c);
                        assert(new_part[k] == old_part[k]);
                    }
                    if covered(new_part, l, c) {
                        let k = choose|k: int|
                            0 <= k < new_part.len() && span_covers(#[trigger] new_part[k], l, c);
                        if k < i {
                            assert(old_part[k] == new_part[k]);
                        }
                    }
                }
            }
            i += 1;
        }
        assert(spans@.take(i as int) =~= spans@);
        r
    }

    /// Whether one of the ranges covers a position.
    pub fn covers(&self, line: u32, col: u32) -> (r: bool)
        ensures
            r == self.holds(line, col),
    {
        match self.by_line.get(&line) {
            Some(stretches) => {
                let mut i: usize = 0;
                while i < stretches.len()
                    invariant
                        i <= stretches.len(),
                        self.by_line@.contains_key(line),
                        stretches@ == self.by_line@[line]@,
                        forall|k: int|
                            0 <= k < i ==> !((#[trigger] stretches@[k]).0 <= col < stretches@[k].1),
                    decreases stretches.len() - i,
                {
                    if stretches[i].0 <= col && col < stretches[i].1 {
                        assert(stretches@[i as int].0 <= col < stretches@[i as int].1);
                        return true;
                    }
                    i += 1;
                }
                false
            },
            None => false,
        }
    }
}

// ---------------------------------------------------------------------------------------------
// Tokens for ranges
// ---------------------------------------------------------------------------------------------
/// The UTF-16 length of a line; one that is not there is empty.
pub open spec fn line_width(lines: Seq<Seq<char>>, line: int) -> u32 {
    if 0 <= line < lines.len() {
        low32(utf16_len(lines[line]))
    } else {
        0
    }
}

/// The part of a range on one line, up to the end of the line, as a token; none where it is
/// empty or where a position is taken.
pub open spec fn range_token(
    lines: Seq<Seq<char>>,
    taken: spec_fn(u32, u32) -> bool,
    span: Span,
    ty: u32,
    modifiers: u32,
    line: u32,
) -> Seq<Token> {
    let width = line_width(lines, line as int);
    let start = first_col(span, line);
    let end = if line == span.end_line && span.end_col < width {
        span.end_col
    } else {
        width
    };
    if start < end && !taken(line, start) {
        seq![Token { line, start, length: (end - start) as u32, ty, modifiers }]
    } else {
        Seq::empty()
    }
}

/// The tokens of a range, one for each of its lines from a given one on.
pub open spec fn range_tokens(
    lines: Seq<Seq<char>>,
    taken: spec_fn(u32, u32) -> bool,
    span: Span,
    ty: u32,
    modifiers: u32,
    line: int,
) -> Seq<Token>
    decreases span.end_line - line + 1,
{
    if line < 0 || line > span.end_line {
        Seq::empty()
    } else {
        range_token(lines, taken, span, ty, modifiers, line as u32) + range_tokens(
            lines,
            taken,
            span,
            ty,
            modifiers,
            line + 1,
        )
    }
}

impl Starts {
    /// The positions, as a predicate.
    pub open spec fn pred(self) -> spec_fn(u32, u32) -> bool {
        |line: u32, start: u32| self.has(line, start)
    }
}

/// Appends the tokens of a range.
pub fn emit_range_tokens(
    lines: &Vec<&[char]>,
    taken: &Starts,
    span: Span,
    ty: u32,
    modifiers: u32,
    out: &mut Vec<Token>,
)
    ensures
        final(out)@ == old(out)@ + range_tokens(
            views(lines@),
            taken.pred(),
            span,
            ty,
            modifiers,
            span.start_line as int,
        ),
{
    let ghost ls = views(lines@);
    let ghost from = span.start_line as int;
    let ghost all = old(out)@ + range_tokens(ls, taken.pred(), span, ty, modifiers, from);
    if span.start_line > span.end_line {
        assert(out@ =~= all);
        return;
    }
    let mut line: u32 = span.start_line;
    loop
        invariant_except_break
            span.start_line <= line <= span.end_line,
            ls == views(lines@),
            out@ + range_tokens(ls, taken.pred(), span, ty, modifiers, line as int) == all,
        ensures
            out@ == all,
        decreases span.end_line - line,
    {
        let ghost before = out@;
        let width: u32 = if (line as u64) < (lines.len() as u64) {
            let k = line as usize;
            assert(ls[k as int] == lines@[k as int]@);
            utf16_count(lines[k])
        } else {
            0
        };
        assert(width == line_width(ls, line as int));
        let start: u32 = if line == span.start_line {
            span.start_col
        } else {
            0
        };
        let end: u32 = if line == span.end_line && span.end_col < width {
            span.end_col
        } else {
            width
        };
        if end > start && !taken.contains(line, start) {
            out.push(Token { line, start, length: end - start, ty, modifiers });
        }
        assert(out@ =~= before + range_token(ls, taken.pred(), span, ty, modifiers, line));
        assert(out@ + range_tokens(ls, taken.pred(), span, ty, modifiers, line + 1) =~= before
            + range_tokens(ls, taken.pred(), span, ty, modifiers, line as int));
        if line == span.end_line {
            assert(out@ + range_tokens(ls, taken.pred(), span, ty, modifiers, line + 1) =~= out@);
            break ;
        }
        line += 1;
    }
}

// ---------------------------------------------------------------------------------------------
// Order
// ---------------------------------------------------------------------------------------------
/// The positions of tokens, as keys.
pub open spec fn token_keys(tokens: Seq<Token>) -> Seq<u64> {
    tokens.map_values(|t: Token| position_key(t.line, t.start))
}

/// Tokens in the order of their positions; those at one position stay in the order they had.
pub open spec fn sorted_tokens(tokens: Seq<Token>) -> Seq<Token> {
    order_of(token_keys(tokens)).map_values(|k: usize| tokens[k as int])
}

/// Sorted tokens are in order.
pub proof fn law_sorted_in_order(tokens: Seq<Token>)
    requires
        tokens.len() <= usize::MAX,
    ensures
        in_order(sorted_tokens(tokens)),
        sorted_tokens(tokens).len() == tokens.len(),
{
    let keys = token_keys(tokens);
    law_order(keys);
    let order = order_of(keys);
    let sorted = sorted_tokens(tokens);
    assert forall|i: int, j: int| 0 <= i < j < sorted.len() implies not_behind(
        (#[trigger] sorted[i]).line as int,
        sorted[i].start as int,
        (#[trigger] sorted[j]).line as int,
        sorted[j].start as int,
    ) by {
        assert(no_later(keys, order[i], order[j]));
        let a = tokens[order[i] as int];
        let b = tokens[order[j] as int];
        lemma_position_key(a.line, a.start, b.line, b.start);
    }
}

/// Tokens in the order of their positions; those at one position stay in the order they had.
pub fn sort_tokens(tokens: &Vec<Token>) -> (out: Vec<Token>)
    ensures
        out@ == sorted_tokens(tokens@),
        in_order(out@),
{
    let mut keys: Vec<u64> = Vec::new();
    let mut i: usize = 0;
    while i < tokens.len()
        invariant
            i <= tokens.len(),
            keys.len() == i,
            forall|k: int|
                0 <= k < i ==> #[trigger] keys@[k] == position_key(
                    tokens@[k].line,
                    tokens@[k].start,
                ),
        decreases tokens.len() - i,
    {
        keys.push(key_of(tokens[i].line, tokens[i].start));
        i += 1;
    }
    assert(keys@ =~= token_keys(tokens@));
    let order = stable_order(keys.as_slice());
    proof {
        law_order(keys@);
        law_sorted_in_order(tokens@);
    }
    let mut out: Vec<Token> = Vec::new();
    let mut j: usize = 0;
    while j < order.len()
        invariant
            j <= order.len(),
            out.len() == j,
            order.len() == tokens.len(),
            forall|k: int| 0 <= k < order.len() ==> 0 <= #[trigger] order@[k] < tokens.len(),
            forall|k: int| 0 <= k < j ==> #[trigger] out@[k] == tokens@[order@[k] as int],
        decreases order.len() - j,
    {
        out.push(tokens[order[j]]);
        j += 1;
    }
    assert(out@ =~= sorted_tokens(tokens@));
    out
}

// ---------------------------------------------------------------------------------------------
// Scans
// ---------------------------------------------------------------------------------------------
/// The numbers that the server's legend gives to the token types and the modifier that are added.
#[derive(Clone, Copy, Debug, PartialEq, Eq, Structural)]
pub struct Legend {
    pub comment: Option<u32>,
    pub string: Option<u32>,
    pub documentation: Option<u32>,
    pub kinds: ScanKinds,
}

/// The first of two numbers, or else the second.
pub open spec fn or_else(a: Option<u32>, b: Option<u32>) -> Option<u32> {
    if a is Some {
        a
    } else {
        b
    }
}

/// The legend by what is known of the server.
pub open spec fn legend_of(state: StateView) -> Legend {
    let ty = |name: Seq<char>| token_index(state.token_types, name);
    Legend {
        comment: ty("comment"@),
        string: ty("string"@),
        documentation: token_index(state.token_modifiers, "documentation"@),
        kinds: ScanKinds {
            number: ty("number"@),
            decl_name: or_else(ty("function"@), ty("method"@)),
            capitalized: ty("type"@),
            member: or_else(ty("property"@), ty("method"@)),
        },
    }
}

fn first_of(a: Option<u32>, b: Option<u32>) -> (r: Option<u32>)
    ensures
        r == or_else(a, b),
{
    if a.is_some() {
        a
    } else {
        b
    }
}

/// The legend by what is known of the server.
pub fn read_legend(state: &StateHandle) -> (r: Legend)
    ensures
        r == legend_of(state@),
{
    let method = state.token_type_index("method");
    Legend {
        comment: state.token_type_index("comment"),
        string: state.token_type_index("string"),
        documentation: state.token_modifier_index("documentation"),
        kinds: ScanKinds {
            number: state.token_type_index("number"),
            decl_name: first_of(state.token_type_index("function"), method),
            capitalized: state.token_type_index("type"),
            member: first_of(state.token_type_index("property"), method),
        },
    }
}

/// What a scan of a version of a text found.
#[derive(Debug)]
pub struct CachedScan {
    version: i64,
    lex: LexRanges,
    additions: Vec<Token>,
}

/// What a scan found.
pub struct ScanView {
    pub version: i64,
    pub comments: Seq<CommentRange>,
    pub strings: Seq<StringRange>,
    pub words: Seq<Token>,
}

impl CachedScan {
    pub closed spec fn view(&self) -> ScanView {
        ScanView {
            version: self.version,
            comments: self.lex.comments@,
            strings: self.lex.strings@,
            words: self.additions@,
        }
    }
}

impl Legend {
    /// Whether comments or literals are to be found.
    pub open spec fn wants_ranges(self) -> bool {
        self.comment is Some || self.string is Some
    }
}

/// What a scan of a text finds.
pub open spec fn scan_of(text: Seq<char>, legend: Legend, version: i64) -> ScanView {
    let b = encode_utf8(text);
    ScanView {
        version,
        comments: if legend.wants_ranges() {
            comment_ranges(b, lexemes(b, 0))
        } else {
            Seq::empty()
        },
        strings: if legend.wants_ranges() {
            string_ranges(b, lexemes(b, 0))
        } else {
            Seq::empty()
        },
        words: scanned(text, legend.kinds),
    }
}

/// Whether a document was scanned in a given version.
pub open spec fn is_cached(
    scans: Map<Seq<char>, ScanView>,
    uri: Seq<char>,
    version: i64,
) -> bool {
    scans.contains_key(uri) && scans[uri].version == version
}

/// The scans after a document was asked for: one of another version is replaced.
pub open spec fn scans_with(
    scans: Map<Seq<char>, ScanView>,
    uri: Seq<char>,
    version: i64,
    text: Seq<char>,
    legend: Legend,
) -> Map<Seq<char>, ScanView> {
    if is_cached(scans, uri, version) {
        scans
    } else {
        scans.insert(uri, scan_of(text, legend, version))
    }
}

/// The last scan of each document.
pub struct ScanCache {
    entries: TextMap<CachedScan>,
}

impl View for ScanCache {
    type V = Map<Seq<char>, ScanView>;

    closed spec fn view(&self) -> Map<Seq<char>, ScanView> {
        self.entries@.map_values(|s: CachedScan| s.view())
    }
}

impl ScanCache {
    pub fn new() -> (r: ScanCache)
        ensures
            r@ == Map::<Seq<char>, ScanView>::empty(),
    {
        let r = ScanCache { entries: TextMap::new() };
        assert(r@ =~= Map::empty());
        r
    }

    /// Forgets the scan of a document that was closed.
    pub fn invalidate(&mut self, uri: &str)
        ensures
            final(self)@ == old(self)@.remove(uri@),
    {
        let _ = self.entries.remove(uri);
        assert(self@ =~= old(self)@.remove(uri@));
    }

    /// Whether a document was scanned in a given version.
    pub fn has(&self, uri: &str, version: i64) -> (r: bool)
        ensures
            r == is_cached(self@, uri@, version),
    {
        match self.entries.get(uri) {
            Some(scan) => scan.version == version,
            None => false,
        }
    }

    /// Scans a document, unless it was scanned in this version already.
    pub fn refresh(&mut self, uri: &str, version: i64, text: &str, legend: &Legend)
        requires
            !is_cached(old(self)@, uri@, version) && legend.wants_ranges() ==> scannable(text@),
        ensures
            final(self)@ == scans_with(old(self)@, uri@, version, text@, *legend),
    {
        if self.has(uri, version) {
            return;
        }
        let lex = if legend.comment.is_some() || legend.string.is_some() {
            scan_lex_ranges(text)
        } else {
            LexRanges { comments: Vec::new(), strings: Vec::new() }
        };
        let mut additions: Vec<Token> = Vec::new();
        let chars = chars_of(text);
        scan_lines_unified(chars.as_slice(), &legend.kinds, &mut additions);
        assert(additions@ =~= scanned(text@, legend.kinds));
        let scan = CachedScan { version, lex, additions };
        assert(scan.view().comments =~= scan_of(text@, *legend, version).comments);
        assert(scan.view().strings =~= scan_of(text@, *legend, version).strings);
        let _ = self.entries.insert(uri.to_string(), scan);
        assert(self@ =~= old(self)@.insert(uri@, scan_of(text@, *legend, version)));
    }
}

// ---------------------------------------------------------------------------------------------
// Answers
// ---------------------------------------------------------------------------------------------
/// Where comments stand.
pub open spec fn comment_spans(comments: Seq<CommentRange>) -> Seq<Span> {
    comments.map_values(|c: CommentRange| c.as_span())
}

/// Where literals stand.
pub open spec fn string_spans(strings: Seq<StringRange>) -> Seq<Span> {
    strings.map_values(|s: StringRange| s.as_span())
}

/// Where documentation comments stand.
pub open spec fn doc_spans(comments: Seq<CommentRange>) -> Seq<Span>
    decreases comments.len(),
{
    if comments.len() == 0 {
        Seq::empty()
    } else {
        let front = doc_spans(comments.drop_last());
        if comments.last().kind == CommentKind::Doc {
            front.push(comments.last().as_span())
        } else {
            front
        }
    }
}

/// The modifier bit of documentation.
pub open spec fn doc_bit(legend: Legend) -> Option<u32> {
    match legend.documentation {
        Some(i) => Some(1u32 << i),
        None => None,
    }
}

/// A token with a modifier bit set if one of some ranges covers its start.
pub open spec fn marked(t: Token, spans: Seq<Span>, bit: u32) -> Token {
    if covered(spans, t.line, t.start) {
        Token { modifiers: t.modifiers | bit, ..t }
    } else {
        t
    }
}

/// The server's tokens, with those inside documentation comments marked.
pub open spec fn server_tokens(answer: JsonView, scan: ScanView, legend: Legend) -> Seq<Token> {
    let tokens = decoded(wire_numbers(answer), 0, 0);
    match (legend.comment, doc_bit(legend)) {
        (Some(_), Some(bit)) => tokens.map_values(
            |t: Token| marked(t, doc_spans(scan.comments), bit),
        ),
        _ => tokens,
    }
}

/// The modifiers of a comment's tokens.
pub open spec fn comment_modifiers(kind: CommentKind, bit: Option<u32>) -> u32 {
    match kind {
        CommentKind::Doc => match bit {
            Some(bit) => bit,
            None => 0,
        },
        CommentKind::Plain => 0,
    }
}

/// The tokens of comments, except where a position is taken.
pub open spec fn comment_tokens(
    lines: Seq<Seq<char>>,
    taken: spec_fn(u32, u32) -> bool,
    comments: Seq<CommentRange>,
    ty: u32,
    bit: Option<u32>,
) -> Seq<Token>
    decreases comments.len(),
{
    if comments.len() == 0 {
        Seq::empty()
    } else {
        let c = comments.last();
        comment_tokens(lines, taken, comments.drop_last(), ty, bit) + range_tokens(
            lines,
            taken,
            c.as_span(),
            ty,
            comment_modifiers(c.kind, bit),
            c.start_line as int,
        )
    }
}

/// The tokens of literals, except where a position is taken.
pub open spec fn string_tokens(
    lines: Seq<Seq<char>>,
    taken: spec_fn(u32, u32) -> bool,
    strings: Seq<StringRange>,
    ty: u32,
) -> Seq<Token>
    decreases strings.len(),
{
    if strings.len() == 0 {
        Seq::empty()
    } else {
        let s = strings.last();
        string_tokens(lines, taken, strings.drop_last(), ty) + range_tokens(
            lines,
            taken,
            s.as_span(),
            ty,
            0,
            s.start_line as int,
        )
    }
}

/// The server's tokens, and behind them those of the comments and the literals that no token of
/// the server starts with.
pub open spec fn base_tokens(
    answer: JsonView,
    text: Seq<char>,
    scan: ScanView,
    legend: Legend,
) -> Seq<Token> {
    let lines = source_lines(text);
    let server = decoded(wire_numbers(answer), 0, 0);
    let taken = |line: u32, start: u32| starts_at(server, line, start);
    let comments = match legend.comment {
        Some(ty) => comment_tokens(lines, taken, scan.comments, ty, doc_bit(legend)),
        None => Seq::empty(),
    };
    let strings = match legend.string {
        Some(ty) => string_tokens(lines, taken, scan.strings, ty),
        None => Seq::empty(),
    };
    server_tokens(answer, scan, legend) + comments + strings
}

/// Whether a word gets its own token: no other token starts there, and it stands neither in a
/// comment nor in a literal.
pub open spec fn stands_free(t: Token, base: Seq<Token>, scan: ScanView) -> bool {
    &&& !starts_at(base, t.line, t.start)
    &&& !covered(string_spans(scan.strings), t.line, t.start)
    &&& !covered(comment_spans(scan.comments), t.line, t.start)
}

/// The words that get their own token.
pub open spec fn free_words(words: Seq<Token>, base: Seq<Token>, scan: ScanView) -> Seq<Token>
    decreases words.len(),
{
    if words.len() == 0 {
        Seq::empty()
    } else {
        let front = free_words(words.drop_last(), base, scan);
        if stands_free(words.last(), base, scan) {
            front.push(words.last())
        } else {
            front
        }
    }
}

/// All tokens of a text, in order.
pub open spec fn all_tokens(
    answer: JsonView,
    text: Seq<char>,
    scan: ScanView,
    legend: Legend,
) -> Seq<Token> {
    let base = base_tokens(answer, text, scan, legend);
    sorted_tokens(base + free_words(scan.words, base, scan))
}

/// The server's answer with its tokens replaced.
pub open spec fn with_tokens(answer: JsonView, tokens: Seq<Token>) -> JsonView {
    let object = match answer {
        JsonView::Object(_) => answer,
        _ => JsonView::Object(Map::empty()),
    };
    object.with("data"@, JsonView::Array(as_items(encoded(tokens, 0, 0))))
}

fn collect_comment_spans(comments: &Vec<CommentRange>) -> (out: Vec<Span>)
    ensures
        out@ == comment_spans(comments@),
{
    let mut out: Vec<Span> = Vec::new();
    let mut i: usize = 0;
    while i < comments.len()
        invariant
            i <= comments.len(),
            out.len() == i,
            forall|k: int| 0 <= k < i ==> #[trigger] out@[k] == comments@[k].as_span(),
        decreases comments.len() - i,
    {
        out.push(comments[i].span());
        i += 1;
    }
    assert(out@ =~= comment_spans(comments@));
    out
}

fn collect_string_spans(strings: &Vec<StringRange>) -> (out: Vec<Span>)
    ensures
        out@ == string_spans(strings@),
{
    let mut out: Vec<Span> = Vec::new();
    let mut i: usize = 0;
    while i < strings.len()
        invariant
            i <= strings.len(),
            out.len() == i,
            forall|k: int| 0 <= k < i ==> #[trigger] out@[k] == strings@[k].as_span(),
        decreases strings.len() - i,
    {
        out.push(strings[i].span());
        i += 1;
    }
    assert(out@ =~= string_spans(strings@));
    out
}

fn collect_doc_spans(comments: &Vec<CommentRange>) -> (out: Vec<Span>)
    ensures
        out@ == doc_spans(comments@),
{
    let mut out: Vec<Span> = Vec::new();
    let mut i: usize = 0;
    assert(comments@.take(0) =~= Seq::empty());
    while i < comments.len()
        invariant
            i <= comments.len(),
            out@ == doc_spans(comments@.take(i as int)),
        decreases comments.len() - i,
    {
        assert(comments@.take(i as int + 1).drop_last() =~= comments@.take(i as int));
        if comments[i].kind == CommentKind::Doc {
            out.push(comments[i].span());
        }
        i += 1;
    }
    assert(comments@.take(i as int) =~= comments@);
    out
}

/// Sets a modifier bit on every token whose start one of some ranges covers.
fn mark_tokens(tokens: Vec<Token>, spans: &Vec<Span>, bit: u32) -> (out: Vec<Token>)
    ensures
        out@ == tokens@.map_values(|t: Token| marked(t, spans@, bit)),
{
    let index = RangeLineIndex::from_spans(spans);
    let mut out: Vec<Token> = Vec::new();
    let mut i: usize = 0;
    while i < tokens.len()
        invariant
            i <= tokens.len(),
            out.len() == i,
            forall|l: u32, c: u32| #[trigger] index.holds(l, c) == covered(spans@, l, c),
            forall|k: int| 0 <= k < i ==> #[trigger] out@[k] == marked(tokens@[k], spans@, bit),
        decreases tokens.len() - i,
    {
        let t = tokens[i];
        if index.covers(t.line, t.start) {
            out.push(
                Token {
                    line: t.line,
                    start: t.start,
                    length: t.length,
                    ty: t.ty,
                    modifiers: t.modifiers | bit,
                },
            );
        } else {
            out.push(t);
        }
        i += 1;
    }
    assert(out@ =~= tokens@.map_values(|t: Token| marked(t, spans@, bit)));
    out
}

fn emit_comments(
    lines: &Vec<&[char]>,
    taken: &Starts,
    comments: &Vec<CommentRange>,
    ty: u32,
    bit: Option<u32>,
    out: &mut Vec<Token>,
)
    ensures
        final(out)@ == old(out)@ + comment_tokens(
            views(lines@),
            taken.pred(),
            comments@,
            ty,
            bit,
        ),
{
    let ghost ls = views(lines@);
    let mut i: usize = 0;
    assert(comments@.take(0) =~= Seq::empty());
    assert(out@ =~= old(out)@ + comment_tokens(ls, taken.pred(), comments@.take(0), ty, bit));
    while i < comments.len()
        invariant
            i <= comments.len(),
            ls == views(lines@),
            out@ == old(out)@ + comment_tokens(
                ls,
                taken.pred(),
                comments@.take(i as int),
                ty,
                bit,
            ),
        decreases comments.len() - i,
    {
        let c = comments[i];
        let modifiers: u32 = match c.kind {
            CommentKind::Doc => match bit {
                Some(bit) => bit,
                None => 0,
            },
            CommentKind::Plain => 0,
        };
        assert(comments@.take(i as int + 1).drop_last() =~= comments@.take(i as int));
        emit_range_tokens(lines, taken, c.span(), ty, modifiers, out);
        i += 1;
        assert(out@ =~= old(out)@ + comment_tokens(
            ls,
            taken.pred(),
            comments@.take(i as int),
            ty,
            bit,
        ));
    }
    assert(comments@.take(i as int) =~= comments@);
}

fn emit_strings(
    lines: &Vec<&[char]>,
    taken: &Starts,
    strings: &Vec<StringRange>,
    ty: u32,
    out: &mut Vec<Token>,
)
    ensures
        final(out)@ == old(out)@ + string_tokens(views(lines@), taken.pred(), strings@, ty),
{
    let ghost ls = views(lines@);
    let mut i: usize = 0;
    assert(strings@.take(0) =~= Seq::empty());
    assert(out@ =~= old(out)@ + string_tokens(ls, taken.pred(), strings@.take(0), ty));
    while i < strings.len()
        invariant
            i <= strings.len(),
            ls == views(lines@),
            out@ == old(out)@ + string_tokens(ls, taken.pred(), strings@.take(i as int), ty),
        decreases strings.len() - i,
    {
        assert(strings@.take(i as int + 1).drop_last() =~= strings@.take(i as int));
        emit_range_tokens(lines, taken, strings[i].span(), ty, 0, out);
        i += 1;
        assert(out@ =~= old(out)@ + string_tokens(ls, taken.pred(), strings@.take(i as int), ty));
    }
    assert(strings@.take(i as int) =~= strings@);
}

/// Appends the words that get their own token.
fn emit_words(words: &Vec<Token>, scan: &CachedScan, out: &mut Vec<Token>)
    ensures
        final(out)@ == old(out)@ + free_words(words@, old(out)@, scan.view()),
{
    let ghost base = out@;
    let ghost sv = scan.view();
    let existing = Starts::collect(out);
    let strings = RangeLineIndex::from_spans(&collect_string_spans(&scan.lex.strings));
    let comments = RangeLineIndex::from_spans(&collect_comment_spans(&scan.lex.comments));
    let mut i: usize = 0;
    assert(words@.take(0) =~= Seq::empty());
    assert(out@ =~= base + free_words(words@.take(0), base, sv));
    while i < words.len()
        invariant
            i <= words.len(),
            forall|l: u32, c: u32| #[trigger] existing.has(l, c) == starts_at(base, l, c),
            forall|l: u32, c: u32| #[trigger]
                strings.holds(l, c) == covered(string_spans(sv.strings), l, c),
            forall|l: u32, c: u32| #[trigger]
                comments.holds(l, c) == covered(comment_spans(sv.comments), l, c),
            out@ == base + free_words(words@.take(i as int), base, sv),
        decreases words.len() - i,
    {
        let t = words[i];
        assert(words@.take(i as int + 1).drop_last() =~= words@.take(i as int));
        if !existing.contains(t.line, t.start) && !strings.covers(t.line, t.start)
            && !comments.covers(t.line, t.start) {
            out.push(t);
        }
        i += 1;
        assert(out@ =~= base + free_words(words@.take(i as int), base, sv));
    }
    assert(words@.take(i as int) =~= words@);
}

/// The server's answer with the tokens of comments, literals and words added.
pub fn enrich(answer: Json, text: &str, scan: &CachedScan, legend: &Legend) -> (r: Json)
    requires
        positions_fit(wire_numbers(answer@), 0, 0),
        legend.comment is Some && legend.documentation is Some ==> legend.documentation->0 < 32,
    ensures
        r@ == with_tokens(answer@, all_tokens(answer@, text@, scan.view(), *legend)),
{
    let ghost sv = scan.view();
    let chars = chars_of(text);
    let lines = split_lines(chars.as_slice());
    let mut tokens = decode_tokens(&answer);
    let taken = Starts::collect(&tokens);
    proof {
        let server = decoded(wire_numbers(answer@), 0, 0);
        assert(taken.pred() =~= (|line: u32, start: u32| starts_at(server, line, start)));
    }
    if let Some(ty) = legend.comment {
        let bit: Option<u32> = match legend.documentation {
            Some(i) => Some(1u32 << i),
            None => None,
        };
        if let Some(bit) = bit {
            tokens = mark_tokens(tokens, &collect_doc_spans(&scan.lex.comments), bit);
        }
        assert(tokens@ =~= server_tokens(answer@, sv, *legend));
        emit_comments(&lines, &taken, &scan.lex.comments, ty, bit, &mut tokens);
    }
    if let Some(ty) = legend.string {
        emit_strings(&lines, &taken, &scan.lex.strings, ty, &mut tokens);
    }
    assert(tokens@ =~= base_tokens(answer@, text@, sv, *legend));
    emit_words(&scan.additions, scan, &mut tokens);
    let sorted = sort_tokens(&tokens);
    let data = Json::Array(encode_tokens(&sorted));
    let object = if answer.is_object() {
        answer
    } else {
        Json::object()
    };
    object.with("data", data)
}

/// The version that a document is taken to have.
pub open spec fn version_or_zero(state: StateView, uri: Seq<char>) -> i64 {
    match state.version_of(uri) {
        Some(v) => v,
        None => 0,
    }
}

/// The document that a request is about, if its text is known.
pub open spec fn known_document(texts: Texts, params: JsonView) -> Option<Seq<char>> {
    match str_in(params.get2("textDocument"@, "uri"@)) {
        Some(uri) => if texts.contains_key(uri) {
            Some(uri)
        } else {
            None
        },
        None => None,
    }
}

/// Whether a request can be answered: every position in it fits in 32 bits, the modifier of
/// documentation is one of 32 bits, and the text can be scanned if it has to be.
pub open spec fn answerable(
    state: StateView,
    texts: Texts,
    scans: Map<Seq<char>, ScanView>,
    params: JsonView,
    answer: JsonView,
) -> bool {
    match known_document(texts, params) {
        Some(uri) => {
            let legend = legend_of(state);
            &&& positions_fit(wire_numbers(answer), 0, 0)
            &&& legend.comment is Some && legend.documentation is Some
                ==> legend.documentation->0 < 32
            &&& !is_cached(scans, uri, version_or_zero(state, uri)) && legend.wants_ranges()
                ==> scannable(texts[uri])
        },
        None => true,
    }
}

/// The scans after a request.
pub open spec fn scans_after(
    state: StateView,
    texts: Texts,
    scans: Map<Seq<char>, ScanView>,
    params: JsonView,
) -> Map<Seq<char>, ScanView> {
    match known_document(texts, params) {
        Some(uri) => scans_with(
            scans,
            uri,
            version_or_zero(state, uri),
            texts[uri],
            legend_of(state),
        ),
        None => scans,
    }
}

/// The answer to a request: the server's, with tokens added where the text is known.
pub open spec fn answer_of(
    state: StateView,
    texts: Texts,
    scans: Map<Seq<char>, ScanView>,
    params: JsonView,
    answer: JsonView,
) -> JsonView {
    match known_document(texts, params) {
        Some(uri) => with_tokens(
            answer,
            all_tokens(
                answer,
                texts[uri],
                scans_after(state, texts, scans, params)[uri],
                legend_of(state),
            ),
        ),
        None => answer,
    }
}

fn request_uri(params: &Json) -> (r: Option<&str>)
    ensures
        str_view(r) == str_in(params@.get2("textDocument"@, "uri"@)),
{
    opt_str(params.get2("textDocument", "uri"))
}

fn current_version(state: &StateHandle, uri: &str) -> (r: i64)
    ensures
        r == version_or_zero(state@, uri@),
{
    match state.version_for(uri) {
        Some(v) => v,
        None => 0,
    }
}

/// Whether a request can be answered.
pub fn can_answer(
    state: &StateHandle,
    documents: &mut Documents,
    cache: &ScanCache,
    params: &Json,
    answer: &Json,
) -> (r: bool)
    requires
        old(documents).wf(),
    ensures
        final(documents).wf(),
        final(documents)@ == old(documents)@,
        r == answerable(state@, old(documents)@, cache@, params@, answer@),
{
    let uri = match request_uri(params) {
        Some(uri) => uri,
        None => {
            return true;
        },
    };
    let text = match documents.full_text(uri) {
        Some(text) => text,
        None => {
            return true;
        },
    };
    let legend = read_legend(state);
    let modifier_fits = match (legend.comment, legend.documentation) {
        (Some(_), Some(i)) => i < 32,
        _ => true,
    };
    let wants_scan = !cache.has(uri, current_version(state, uri)) && (legend.comment.is_some()
        || legend.string.is_some());
    can_decode(answer) && modifier_fits && (!wants_scan || can_scan(text.as_str()))
}

/// Answers a request with what the server answered to it.
pub fn handle_request(
    state: &StateHandle,
    documents: &mut Documents,
    cache: &mut ScanCache,
    params: &Json,
    answer: Json,
) -> (r: Json)
    requires
        old(documents).wf(),
        answerable(state@, old(documents)@, old(cache)@, params@, answer@),
    ensures
        final(documents).wf(),
        final(documents)@ == old(documents)@,
        final(cache)@ == scans_after(state@, old(documents)@, old(cache)@, params@),
        r@ == answer_of(state@, old(documents)@, old(cache)@, params@, answer@),
{
    let uri = match request_uri(params) {
        Some(uri) => uri,
        None => {
            return answer;
        },
    };
    let text = match documents.full_text(uri) {
        Some(text) => text,
        None => {
            return answer;
        },
    };
    let legend = read_legend(state);
    cache.refresh(uri, current_version(state, uri), text.as_str(), &legend);
    assert(cache@.contains_key(uri@));
    assert(cache.entries@.contains_key(uri@));
    match cache.entries.get(uri) {
        Some(scan) => enrich(answer, text.as_str(), scan, &legend),
        None => answer,
    }
}

// ---------------------------------------------------------------------------------------------
// Laws
// ---------------------------------------------------------------------------------------------
/// Sorting loses no token.
pub proof fn law_sorting_keeps_tokens(tokens: Seq<Token>, i: int)
    requires
        tokens.len() <= usize::MAX,
        0 <= i < tokens.len(),
    ensures
        sorted_tokens(tokens).contains(tokens[i]),
{
    let keys = token_keys(tokens);
    let order = order_of(keys);
    law_order(keys);
    assert(order.contains(i as usize));
    let k = choose|k: int| 0 <= k < order.len() && order[k] == i as usize;
    assert(sorted_tokens(tokens)[k] == tokens[i]);
}

/// Every token of the server is in the answer, at most with the mark of documentation added.
pub proof fn law_server_tokens_stay(
    answer: JsonView,
    text: Seq<char>,
    scan: ScanView,
    legend: Legend,
    i: int,
)
    requires
        0 <= i < server_tokens(answer, scan, legend).len(),
        ({
            let base = base_tokens(answer, text, scan, legend);
            (base + free_words(scan.words, base, scan)).len() <= usize::MAX
        }),
    ensures
        all_tokens(answer, text, scan, legend).contains(server_tokens(answer, scan, legend)[i]),
        ({
            let t = server_tokens(answer, scan, legend)[i];
            let given = decoded(wire_numbers(answer), 0, 0)[i];
            &&& t.line == given.line
            &&& t.start == given.start
            &&& t.length == given.length
            &&& t.ty == given.ty
        }),
{
    let base = base_tokens(answer, text, scan, legend);
    let all = base + free_words(scan.words, base, scan);
    assert(all[i] == server_tokens(answer, scan, legend)[i]);
    law_sorting_keeps_tokens(all, i);
}

proof fn lemma_range_tokens_free(
    lines: Seq<Seq<char>>,
    taken: spec_fn(u32, u32) -> bool,
    span: Span,
    ty: u32,
    modifiers: u32,
    line: int,
    i: int,
)
    requires
        0 <= i < range_tokens(lines, taken, span, ty, modifiers, line).len(),
    ensures
        ({
            let t = range_tokens(lines, taken, span, ty, modifiers, line)[i];
            !taken(t.line, t.start) && t.ty == ty
        }),
    decreases span.end_line - line + 1,
{
    let first = range_token(lines, taken, span, ty, modifiers, line as u32);
    if i >= first.len() {
        lemma_range_tokens_free(lines, taken, span, ty, modifiers, line + 1, i - first.len());
    }
}

proof fn lemma_comment_tokens_free(
    lines: Seq<Seq<char>>,
    taken: spec_fn(u32, u32) -> bool,
    comments: Seq<CommentRange>,
    ty: u32,
    bit: Option<u32>,
    i: int,
)
    requires
        0 <= i < comment_tokens(lines, taken, comments, ty, bit).len(),
    ensures
        ({
            let t = comment_tokens(lines, taken, comments, ty, bit)[i];
            !taken(t.line, t.start)
        }),
    decreases comments.len(),
{
    let front = comment_tokens(lines, taken, comments.drop_last(), ty, bit);
    if i < front.len() {
        lemma_comment_tokens_free(lines, taken, comments.drop_last(), ty, bit, i);
    } else {
        let c = comments.last();
        lemma_range_tokens_free(
            lines,
            taken,
            c.as_span(),
            ty,
            comment_modifiers(c.kind, bit),
            c.start_line as int,
            i - front.len(),
        );
    }
}

proof fn lemma_string_tokens_free(
    lines: Seq<Seq<char>>,
    taken: spec_fn(u32, u32) -> bool,
    strings: Seq<StringRange>,
    ty: u32,
    i: int,
)
    requires
        0 <= i < string_tokens(lines, taken, strings, ty).len(),
    ensures
        ({
            let t = string_tokens(lines, taken, strings, ty)[i];
            !taken(t.line, t.start)
        }),
    decreases strings.len(),
{
    let front = string_tokens(lines, taken, strings.drop_last(), ty);
    if i < front.len() {
        lemma_string_tokens_free(lines, taken, strings.drop_last(), ty, i);
    } else {
        let s = strings.last();
        lemma_range_tokens_free(
            lines,
            taken,
            s.as_span(),
            ty,
            0,
            s.start_line as int,
            i - front.len(),
        );
    }
}

proof fn lemma_free_words(words: Seq<Token>, base: Seq<Token>, scan: ScanView, i: int)
    requires
        0 <= i < free_words(words, base, scan).len(),
    ensures
        stands_free(free_words(words, base, scan)[i], base, scan),
    decreases words.len(),
{
    let front = free_words(words.drop_last(), base, scan);
    if i < front.len() {
        lemma_free_words(words.drop_last(), base, scan, i);
    }
}

/// No token that is added starts where a token of the server starts.
pub proof fn law_added_tokens_stand_apart(
    answer: JsonView,
    text: Seq<char>,
    scan: ScanView,
    legend: Legend,
    i: int,
)
    requires
        ({
            let base = base_tokens(answer, text, scan, legend);
            let all = base + free_words(scan.words, base, scan);
            server_tokens(answer, scan, legend).len() <= i < all.len()
        }),
    ensures
        ({
            let base = base_tokens(answer, text, scan, legend);
            let t = (base + free_words(scan.words, base, scan))[i];
            !starts_at(decoded(wire_numbers(answer), 0, 0), t.line, t.start)
        }),
{
    let lines = source_lines(text);
    let given = decoded(wire_numbers(answer), 0, 0);
    let server = server_tokens(answer, scan, legend);
    let taken = |line: u32, start: u32| starts_at(given, line, start);
    let base = base_tokens(answer, text, scan, legend);
    let comments = match legend.comment {
        Some(ty) => comment_tokens(lines, taken, scan.comments, ty, doc_bit(legend)),
        None => Seq::empty(),
    };
    let t = (base + free_words(scan.words, base, scan))[i];
    if i < server.len() + comments.len() {
        lemma_comment_tokens_free(
            lines,
            taken,
            scan.comments,
            legend.comment->0,
            doc_bit(legend),
            i - server.len(),
        );
    } else if i < base.len() {
        lemma_string_tokens_free(
            lines,
            taken,
            scan.strings,
            legend.string->0,
            i - server.len() - comments.len(),
        );
    } else {
        lemma_free_words(scan.words, base, scan, i - base.len());
        if starts_at(given, t.line, t.start) {
            let k = choose|k: int|
                0 <= k < given.len() && (#[trigger] given[k]).line == t.line && given[k].start
                    == t.start;
            assert(base[k] == server[k]);
            assert(base[k].line == t.line && base[k].start == t.start);
        }
    }
}

/// Nothing in an answer but its tokens is changed.
pub proof fn law_rest_of_answer_stays(answer: JsonView, tokens: Seq<Token>, key: Seq<char>)
    requires
        answer is Object,
        key != "data"@,
    ensures
        with_tokens(answer, tokens).get(key) == answer.get(key),
{
}

/// The client reads from an answer the tokens that were put in it.
pub proof fn law_answer_decodes(answer: JsonView, tokens: Seq<Token>)
    requires
        in_order(tokens),
    ensures
        decoded(wire_numbers(with_tokens(answer, tokens)), 0, 0) == tokens,
{
    let nums = encoded(tokens, 0, 0);
    let items = as_items(nums);
    assert(array_in(with_tokens(answer, tokens).get("data"@)) == Some(items));
    assert(wire_numbers(with_tokens(answer, tokens)) =~= nums);
    law_decode_what_was_encoded(tokens, 0, 0);
}

// ---------------------------------------------------------------------------------------------
// The wire format
// ---------------------------------------------------------------------------------------------
/// On the wire a token is five numbers: how many lines it stands behind the one before, how many
/// columns behind it on the same line or else its column, its length, its type and its modifiers.
#[verifier::rlimit(40)]
#[verifier::spinoff_prover]
pub proof fn law_wire_format(tokens: Seq<Token>, line: int, start: int, k: int)
    requires
        in_order(tokens),
        0 <= line,
        0 <= start,
        tokens.len() > 0 ==> not_behind(
            line,
            start,
            tokens[0].line as int,
            tokens[0].start as int,
        ),
        0 <= k < tokens.len(),
    ensures
        encoded(tokens, line, start).len() == 5 * tokens.len(),
        ({
            let n = encoded(tokens, line, start);
            let l = if k == 0 {
                line
            } else {
                tokens[k - 1].line as int
            };
            let s = if k == 0 {
                start
            } else {
                tokens[k - 1].start as int
            };
            let t = tokens[k];
            &&& n[5 * k] == t.line - l
            &&& n[5 * k + 1] == if t.line == l {
                t.start - s
            } else {
                t.start as int
            }
            &&& n[5 * k + 2] == t.length
            &&& n[5 * k + 3] == t.ty
            &&& n[5 * k + 4] == t.modifiers
        }),
    decreases tokens.len(),
{
    let n = encoded(tokens, line, start);
    let t = tokens[0];
    let rest = tokens.drop_first();
    assert forall|i: int, j: int| 0 <= i < j < rest.len() implies not_behind(
        (#[trigger] rest[i]).line as int,
        rest[i].start as int,
        (#[trigger] rest[j]).line as int,
        rest[j].start as int,
    ) by {
        assert(rest[i] == tokens[i + 1] && rest[j] == tokens[j + 1]);
    }
    let more = encoded(rest, t.line as int, t.start as int);
    if rest.len() > 0 {
        assert(not_behind(
            tokens[0].line as int,
            tokens[0].start as int,
            tokens[1].line as int,
            tokens[1].start as int,
        ));
        law_wire_format(rest, t.line as int, t.start as int, if k > 0 { k - 1 } else { 0 });
    } else {
        assert(more =~= Seq::empty());
    }
    assert(n.skip(5) =~= more);
    if k > 0 {
        assert(n[5 * k] == more[5 * (k - 1)]);
        assert(n[5 * k + 1] == more[5 * (k - 1) + 1]);
        assert(n[5 * k + 2] == more[5 * (k - 1) + 2]);
        assert(n[5 * k + 3] == more[5 * (k - 1) + 3]);
        assert(n[5 * k + 4] == more[5 * (k - 1) + 4]);
        assert(rest[k - 1] == tokens[k]);
        if k > 1 {
            assert(rest[k - 2] == tokens[k - 1]);
        }
    }
}

/// The numbers of an answer are the items of its data, where they are numbers of 32 bits; others
/// count as zero.
pub proof fn law_wire_numbers(answer: JsonView, items: Seq<JsonView>, i: int)
    requires
        answer.get("data"@) == Some(JsonView::Array(items)),
        0 <= i < items.len(),
    ensures
        wire_numbers(answer).len() == items.len(),
        wire_numbers(answer)[i] == match items[i] {
            JsonView::Int(n) => if 0 <= n <= u32::MAX {
                n
            } else {
                0
            },
            _ => 0,
        },
{
}

/// An answer is given in the order of the tokens as an array of numbers under `data`, also where
/// the server gave none.
pub proof fn law_answers_hold_their_numbers(answer: JsonView, tokens: Seq<Token>)
    ensures
        with_tokens(answer, tokens).get("data"@) == Some(
            JsonView::Array(
                encoded(tokens, 0, 0).map_values(|n: u32| JsonView::Int(n as int)),
            ),
        ),
        !(answer is Object) ==> forall|key: Seq<char>|
            key != "data"@ ==> #[trigger] with_tokens(answer, tokens).get(key) is None,
{
}

// ---------------------------------------------------------------------------------------------
// The tokens of ranges
// ---------------------------------------------------------------------------------------------
/// Whether a range takes in a column of a line.
pub open spec fn takes_in(span: Span, line: u32, col: u32) -> bool {
    &&& span.start_line <= line <= span.end_line
    &&& line == span.start_line ==> span.start_col <= col
    &&& line == span.end_line ==> col < span.end_col
}

/// Where the part of a range on a line begins.
pub open spec fn begins_at(span: Span, line: u32) -> u32 {
    if line == span.start_line {
        span.start_col
    } else {
        0
    }
}

/// Whether a token of a type covers a column of a line.
pub open spec fn colours(t: Token, line: u32, col: u32, ty: u32, modifiers: u32) -> bool {
    t.line == line && t.start <= col && col < t.start + t.length && t.ty == ty && t.modifiers
        == modifiers
}

proof fn lemma_range_token_covers(
    lines: Seq<Seq<char>>,
    taken: spec_fn(u32, u32) -> bool,
    span: Span,
    ty: u32,
    modifiers: u32,
    from: int,
    line: u32,
    col: u32,
) -> (i: int)
    requires
        0 <= from <= line,
        takes_in(span, line, col),
        line < lines.len(),
        col < utf16_len(lines[line as int]) <= u32::MAX,
        !taken(line, begins_at(span, line)),
    ensures
        0 <= i < range_tokens(lines, taken, span, ty, modifiers, from).len(),
        colours(
            range_tokens(lines, taken, span, ty, modifiers, from)[i],
            line,
            col,
            ty,
            modifiers,
        ),
    decreases line - from,
{
    let here = range_token(lines, taken, span, ty, modifiers, from as u32);
    let all = range_tokens(lines, taken, span, ty, modifiers, from);
    if from == line {
        assert(line_width(lines, line as int) == utf16_len(lines[line as int]));
        assert(here.len() == 1);
        assert(all[0] == here[0]);
        0
    } else {
        let k = lemma_range_token_covers(
            lines,
            taken,
            span,
            ty,
            modifiers,
            from + 1,
            line,
            col,
        );
        assert(all[here.len() + k] == range_tokens(
            lines,
            taken,
            span,
            ty,
            modifiers,
            from + 1,
        )[k]);
        here.len() + k
    }
}

/// The tokens of a range cover every character of it, on all of its lines, but on a line where the
/// position at which it begins is taken.
pub proof fn law_ranges_are_covered(
    lines: Seq<Seq<char>>,
    taken: spec_fn(u32, u32) -> bool,
    span: Span,
    ty: u32,
    modifiers: u32,
    line: u32,
    col: u32,
)
    requires
        takes_in(span, line, col),
        line < lines.len(),
        col < utf16_len(lines[line as int]) <= u32::MAX,
        !taken(line, begins_at(span, line)),
    ensures
        ({
            let tokens = range_tokens(lines, taken, span, ty, modifiers, span.start_line as int);
            exists|i: int|
                0 <= i < tokens.len() && colours(#[trigger] tokens[i], line, col, ty, modifiers)
        }),
{
    let i = lemma_range_token_covers(
        lines,
        taken,
        span,
        ty,
        modifiers,
        span.start_line as int,
        line,
        col,
    );
}

/// The tokens of a range cover nothing outside it and nothing behind the end of a line, each takes
/// at least one column, and there is one for a line at most.
pub proof fn law_range_tokens_stay_inside(
    lines: Seq<Seq<char>>,
    taken: spec_fn(u32, u32) -> bool,
    span: Span,
    ty: u32,
    modifiers: u32,
    from: int,
    i: int,
    col: u32,
)
    requires
        span.start_line <= from,
        0 <= i < range_tokens(lines, taken, span, ty, modifiers, from).len(),
        forall|k: int|
            0 <= k < lines.len() ==> utf16_len(#[trigger] lines[k]) <= u32::MAX,
    ensures
        ({
            let tokens = range_tokens(lines, taken, span, ty, modifiers, from);
            let t = tokens[i];
            &&& from <= t.line < lines.len()
            &&& t.length > 0
            &&& t.start == begins_at(span, t.line)
            &&& t.ty == ty && t.modifiers == modifiers
            &&& t.start <= col < t.start + t.length ==> takes_in(span, t.line, col) && col
                < utf16_len(lines[t.line as int])
            &&& i > 0 ==> tokens[i - 1].line < t.line
        }),
    decreases span.end_line - from + 1,
{
    let here = range_token(lines, taken, span, ty, modifiers, from as u32);
    let rest = range_tokens(lines, taken, span, ty, modifiers, from + 1);
    if from < lines.len() {
        assert(utf16_len(lines[from]) <= u32::MAX);
    }
    let all = range_tokens(lines, taken, span, ty, modifiers, from);
    if i >= here.len() {
        let k = i - here.len();
        assert(all[i] == rest[k]);
        law_range_tokens_stay_inside(lines, taken, span, ty, modifiers, from + 1, k, col);
        if k > 0 {
            assert(all[i - 1] == rest[k - 1]);
        } else if i > 0 {
            assert(all[i - 1] == here[0]);
        }
    } else {
        assert(all[i] == here[0]);
    }
}

/// A range covers the positions from its start up to and without its end.
pub proof fn law_ranges_cover_what_they_take_in(span: Span, line: u32, col: u32)
    requires
        col < u32::MAX,
    ensures
        span_covers(span, line, col) <==> takes_in(span, line, col),
{
}

// ---------------------------------------------------------------------------------------------
// All tokens
// ---------------------------------------------------------------------------------------------
/// Whether no token of the server starts at a position.
pub open spec fn server_leaves(answer: JsonView, line: u32, start: u32) -> bool {
    let server = decoded(wire_numbers(answer), 0, 0);
    forall|i: int|
        0 <= i < server.len() ==> !((#[trigger] server[i]).line == line && server[i].start == start)
}

/// All tokens in front of the sorting.
spec fn unsorted(answer: JsonView, text: Seq<char>, scan: ScanView, legend: Legend) -> Seq<Token> {
    let base = base_tokens(answer, text, scan, legend);
    base + free_words(scan.words, base, scan)
}

/// Whether there are no more tokens than a list can hold.
pub open spec fn tokens_fit(
    answer: JsonView,
    text: Seq<char>,
    scan: ScanView,
    legend: Legend,
) -> bool {
    let base = base_tokens(answer, text, scan, legend);
    (base + free_words(scan.words, base, scan)).len() <= usize::MAX
}

proof fn lemma_comment_tokens_hold(
    lines: Seq<Seq<char>>,
    taken: spec_fn(u32, u32) -> bool,
    comments: Seq<CommentRange>,
    ty: u32,
    bit: Option<u32>,
    c: int,
    t: Token,
)
    requires
        0 <= c < comments.len(),
        range_tokens(
            lines,
            taken,
            comments[c].as_span(),
            ty,
            comment_modifiers(comments[c].kind, bit),
            comments[c].start_line as int,
        ).contains(t),
    ensures
        comment_tokens(lines, taken, comments, ty, bit).contains(t),
    decreases comments.len(),
{
    let front = comment_tokens(lines, taken, comments.drop_last(), ty, bit);
    let last = comments.last();
    let own = range_tokens(
        lines,
        taken,
        last.as_span(),
        ty,
        comment_modifiers(last.kind, bit),
        last.start_line as int,
    );
    lemma_in_two(front, own, t);
    if c < comments.len() - 1 {
        lemma_comment_tokens_hold(lines, taken, comments.drop_last(), ty, bit, c, t);
    }
}

proof fn lemma_string_tokens_hold(
    lines: Seq<Seq<char>>,
    taken: spec_fn(u32, u32) -> bool,
    strings: Seq<StringRange>,
    ty: u32,
    c: int,
    t: Token,
)
    requires
        0 <= c < strings.len(),
        range_tokens(
            lines,
            taken,
            strings[c].as_span(),
            ty,
            0,
            strings[c].start_line as int,
        ).contains(t),
    ensures
        string_tokens(lines, taken, strings, ty).contains(t),
    decreases strings.len(),
{
    let front = string_tokens(lines, taken, strings.drop_last(), ty);
    let last = strings.last();
    let own = range_tokens(lines, taken, last.as_span(), ty, 0, last.start_line as int);
    lemma_in_two(front, own, t);
    if c < strings.len() - 1 {
        lemma_string_tokens_hold(lines, taken, strings.drop_last(), ty, c, t);
    }
}

proof fn lemma_all_tokens_hold(
    answer: JsonView,
    text: Seq<char>,
    scan: ScanView,
    legend: Legend,
    t: Token,
)
    requires
        tokens_fit(answer, text, scan, legend),
    ensures
        all_tokens(answer, text, scan, legend).contains(t) <==> unsorted(
            answer,
            text,
            scan,
            legend,
        ).contains(t),
{
    let all = unsorted(answer, text, scan, legend);
    let sorted = sorted_tokens(all);
    if all.contains(t) {
        let i = choose|i: int| 0 <= i < all.len() && all[i] == t;
        law_sorting_keeps_tokens(all, i);
    }
    if sorted.contains(t) {
        let k = choose|k: int| 0 <= k < sorted.len() && sorted[k] == t;
        let keys = token_keys(all);
        law_order(keys);
        assert(sorted[k] == all[order_of(keys)[k] as int]);
    }
}

/// Every character of a comment is coloured as one in the answer, on all of its lines, and marked
/// if it is documentation; only where a token of the server starts at the place where the comment
/// begins on a line is that line left to the server.
pub proof fn law_comments_are_coloured(
    answer: JsonView,
    text: Seq<char>,
    scan: ScanView,
    legend: Legend,
    ty: u32,
    c: int,
    line: u32,
    col: u32,
)
    requires
        tokens_fit(answer, text, scan, legend),
        legend.comment == Some(ty),
        0 <= c < scan.comments.len(),
        takes_in(scan.comments[c].as_span(), line, col),
        line < source_lines(text).len(),
        col < utf16_len(source_lines(text)[line as int]) <= u32::MAX,
        server_leaves(answer, line, begins_at(scan.comments[c].as_span(), line)),
    ensures
        ({
            let modifiers = if scan.comments[c].kind == CommentKind::Doc && legend.documentation
                is Some {
                1u32 << legend.documentation->0
            } else {
                0
            };
            exists|i: int|
                0 <= i < all_tokens(answer, text, scan, legend).len() && colours(
                    #[trigger] all_tokens(answer, text, scan, legend)[i],
                    line,
                    col,
                    ty,
                    modifiers,
                )
        }),
{
    let lines = source_lines(text);
    let server = decoded(wire_numbers(answer), 0, 0);
    let taken = |l: u32, s: u32| starts_at(server, l, s);
    let bit = doc_bit(legend);
    let span = scan.comments[c].as_span();
    let modifiers = comment_modifiers(scan.comments[c].kind, bit);
    let own = range_tokens(lines, taken, span, ty, modifiers, span.start_line as int);
    let k = lemma_range_token_covers(
        lines,
        taken,
        span,
        ty,
        modifiers,
        span.start_line as int,
        line,
        col,
    );
    let t = own[k];
    assert(own.contains(t));
    lemma_comment_tokens_hold(lines, taken, scan.comments, ty, bit, c, t);
    let comments = comment_tokens(lines, taken, scan.comments, ty, bit);
    let strings = match legend.string {
        Some(ty) => string_tokens(lines, taken, scan.strings, ty),
        None => Seq::empty(),
    };
    let base = base_tokens(answer, text, scan, legend);
    lemma_in_two(server_tokens(answer, scan, legend), comments, t);
    lemma_in_two(server_tokens(answer, scan, legend) + comments, strings, t);
    lemma_in_two(base, free_words(scan.words, base, scan), t);
    lemma_all_tokens_hold(answer, text, scan, legend, t);
    let all = all_tokens(answer, text, scan, legend);
    let i = choose|i: int| 0 <= i < all.len() && all[i] == t;
    assert(colours(all[i], line, col, ty, modifiers));
}

/// Every character of a literal is coloured as one in the answer, on all of its lines; only where a
/// token of the server starts at the place where the literal begins on a line is that line left to
/// the server.
pub proof fn law_literals_are_coloured(
    answer: JsonView,
    text: Seq<char>,
    scan: ScanView,
    legend: Legend,
    ty: u32,
    c: int,
    line: u32,
    col: u32,
)
    requires
        tokens_fit(answer, text, scan, legend),
        legend.string == Some(ty),
        0 <= c < scan.strings.len(),
        takes_in(scan.strings[c].as_span(), line, col),
        line < source_lines(text).len(),
        col < utf16_len(source_lines(text)[line as int]) <= u32::MAX,
        server_leaves(answer, line, begins_at(scan.strings[c].as_span(), line)),
    ensures
        exists|i: int|
            0 <= i < all_tokens(answer, text, scan, legend).len() && colours(
                #[trigger] all_tokens(answer, text, scan, legend)[i],
                line,
                col,
                ty,
                0,
            ),
{
    let lines = source_lines(text);
    let server = decoded(wire_numbers(answer), 0, 0);
    let taken = |l: u32, s: u32| starts_at(server, l, s);
    let span = scan.strings[c].as_span();
    let own = range_tokens(lines, taken, span, ty, 0, span.start_line as int);
    let k = lemma_range_token_covers(
        lines,
        taken,
        span,
        ty,
        0,
        span.start_line as int,
        line,
        col,
    );
    let t = own[k];
    assert(own.contains(t));
    lemma_string_tokens_hold(lines, taken, scan.strings, ty, c, t);
    let comments = match legend.comment {
        Some(ty) => comment_tokens(lines, taken, scan.comments, ty, doc_bit(legend)),
        None => Seq::empty(),
    };
    let strings = string_tokens(lines, taken, scan.strings, ty);
    let base = base_tokens(answer, text, scan, legend);
    lemma_in_two(server_tokens(answer, scan, legend) + comments, strings, t);
    lemma_in_two(base, free_words(scan.words, base, scan), t);
    lemma_all_tokens_hold(answer, text, scan, legend, t);
    let all = all_tokens(answer, text, scan, legend);
    let i = choose|i: int| 0 <= i < all.len() && all[i] == t;
    assert(colours(all[i], line, col, ty, 0));
}

proof fn lemma_free_words_are(words: Seq<Token>, base: Seq<Token>, scan: ScanView, t: Token)
    ensures
        free_words(words, base, scan).contains(t) <==> words.contains(t) && stands_free(
            t,
            base,
            scan,
        ),
    decreases words.len(),
{
    if words.len() > 0 {
        let front = words.drop_last();
        lemma_free_words_are(front, base, scan, t);
        let one = seq![words.last()];
        assert(words =~= front + one);
        lemma_in_two(front, one, t);
        assert(one.contains(t) <==> t == words.last()) by {
            if t == words.last() {
                assert(one[0] == t);
            }
        }
        let kept = free_words(front, base, scan);
        lemma_in_two(kept, one, t);
        assert(kept.push(words.last()) =~= kept + one);
    }
}

/// Whether a position lies inside none of some ranges.
pub open spec fn outside_all(spans: Seq<Span>, line: u32, col: u32) -> bool {
    forall|i: int| 0 <= i < spans.len() ==> !takes_in(#[trigger] spans[i], line, col)
}

proof fn lemma_outside_all(spans: Seq<Span>, line: u32, col: u32)
    requires
        col < u32::MAX,
    ensures
        outside_all(spans, line, col) <==> !covered(spans, line, col),
{
    if covered(spans, line, col) {
        let i = choose|i: int| 0 <= i < spans.len() && span_covers(#[trigger] spans[i], line, col);
        law_ranges_cover_what_they_take_in(spans[i], line, col);
    }
    if !outside_all(spans, line, col) {
        let i = choose|i: int| 0 <= i < spans.len() && takes_in(#[trigger] spans[i], line, col);
        law_ranges_cover_what_they_take_in(spans[i], line, col);
    }
}

/// A word gets its token exactly where no other token starts, outside every comment and every
/// literal.
pub proof fn law_words_are_coloured(
    answer: JsonView,
    text: Seq<char>,
    scan: ScanView,
    legend: Legend,
    t: Token,
)
    requires
        tokens_fit(answer, text, scan, legend),
        scan.words.contains(t),
        t.start < u32::MAX,
        !base_tokens(answer, text, scan, legend).contains(t),
    ensures
        all_tokens(answer, text, scan, legend).contains(t) <==> {
            &&& forall|i: int|
                0 <= i < base_tokens(answer, text, scan, legend).len() ==> !((
                #[trigger] base_tokens(answer, text, scan, legend)[i]).line == t.line
                    && base_tokens(answer, text, scan, legend)[i].start == t.start)
            &&& forall|c: int|
                0 <= c < scan.comments.len() ==> !takes_in(
                    (#[trigger] scan.comments[c]).as_span(),
                    t.line,
                    t.start,
                )
            &&& forall|c: int|
                0 <= c < scan.strings.len() ==> !takes_in(
                    (#[trigger] scan.strings[c]).as_span(),
                    t.line,
                    t.start,
                )
        },
{
    let base = base_tokens(answer, text, scan, legend);
    lemma_free_words_are(scan.words, base, scan, t);
    lemma_in_two(base, free_words(scan.words, base, scan), t);
    lemma_all_tokens_hold(answer, text, scan, legend, t);
    let cs = comment_spans(scan.comments);
    let ss = string_spans(scan.strings);
    lemma_outside_all(cs, t.line, t.start);
    lemma_outside_all(ss, t.line, t.start);
    assert(outside_all(cs, t.line, t.start) <==> forall|c: int|
        0 <= c < scan.comments.len() ==> !takes_in(
            (#[trigger] scan.comments[c]).as_span(),
            t.line,
            t.start,
        )) by {
        assert forall|c: int| 0 <= c < cs.len() implies #[trigger] cs[c]
            == scan.comments[c].as_span() by {}
        assert forall|c: int| 0 <= c < scan.comments.len() implies (
        #[trigger] scan.comments[c]).as_span() == cs[c] by {}
    }
    assert(outside_all(ss, t.line, t.start) <==> forall|c: int|
        0 <= c < scan.strings.len() ==> !takes_in(
            (#[trigger] scan.strings[c]).as_span(),
            t.line,
            t.start,
        )) by {
        assert forall|c: int| 0 <= c < ss.len() implies #[trigger] ss[c]
            == scan.strings[c].as_span() by {}
        assert forall|c: int| 0 <= c < scan.strings.len() implies (
        #[trigger] scan.strings[c]).as_span() == ss[c] by {}
    }
}

/// Whether a token is that of a comment or a literal.
pub open spec fn from_range(lines: Seq<Seq<char>>, scan: ScanView, t: Token) -> bool {
    ||| exists|c: int|
        0 <= c < scan.comments.len() && t.start == begins_at(
            (#[trigger] scan.comments[c]).as_span(),
            t.line,
        ) && scan.comments[c].start_line <= t.line <= scan.comments[c].end_line
    ||| exists|c: int|
        0 <= c < scan.strings.len() && t.start == begins_at(
            (#[trigger] scan.strings[c]).as_span(),
            t.line,
        ) && scan.strings[c].start_line <= t.line <= scan.strings[c].end_line
}

proof fn lemma_range_tokens_begin(
    lines: Seq<Seq<char>>,
    taken: spec_fn(u32, u32) -> bool,
    span: Span,
    ty: u32,
    modifiers: u32,
    from: int,
    i: int,
)
    requires
        span.start_line <= from,
        0 <= i < range_tokens(lines, taken, span, ty, modifiers, from).len(),
    ensures
        ({
            let t = range_tokens(lines, taken, span, ty, modifiers, from)[i];
            &&& from <= t.line <= span.end_line
            &&& t.start == begins_at(span, t.line)
            &&& t.ty == ty && t.modifiers == modifiers
        }),
    decreases span.end_line - from + 1,
{
    let here = range_token(lines, taken, span, ty, modifiers, from as u32);
    if i >= here.len() {
        lemma_range_tokens_begin(
            lines,
            taken,
            span,
            ty,
            modifiers,
            from + 1,
            i - here.len(),
        );
    }
}

proof fn lemma_comment_tokens_from(
    lines: Seq<Seq<char>>,
    taken: spec_fn(u32, u32) -> bool,
    scan: ScanView,
    ty: u32,
    bit: Option<u32>,
    n: int,
    t: Token,
)
    requires
        0 <= n <= scan.comments.len(),
        comment_tokens(lines, taken, scan.comments.take(n), ty, bit).contains(t),
    ensures
        from_range(lines, scan, t),
        t.ty == ty,
    decreases n,
{
    let part = scan.comments.take(n);
    if n > 0 {
        let c = scan.comments[n - 1];
        assert(part.last() == c);
        assert(part.drop_last() =~= scan.comments.take(n - 1));
        let front = comment_tokens(lines, taken, scan.comments.take(n - 1), ty, bit);
        let own = range_tokens(
            lines,
            taken,
            c.as_span(),
            ty,
            comment_modifiers(c.kind, bit),
            c.start_line as int,
        );
        lemma_in_two(front, own, t);
        if front.contains(t) {
            lemma_comment_tokens_from(lines, taken, scan, ty, bit, n - 1, t);
        } else {
            let i = choose|i: int| 0 <= i < own.len() && own[i] == t;
            lemma_range_tokens_begin(
                lines,
                taken,
                c.as_span(),
                ty,
                comment_modifiers(c.kind, bit),
                c.start_line as int,
                i,
            );
            assert(t.start == begins_at(scan.comments[n - 1].as_span(), t.line));
        }
    }
}

proof fn lemma_string_tokens_from(
    lines: Seq<Seq<char>>,
    taken: spec_fn(u32, u32) -> bool,
    scan: ScanView,
    ty: u32,
    n: int,
    t: Token,
)
    requires
        0 <= n <= scan.strings.len(),
        string_tokens(lines, taken, scan.strings.take(n), ty).contains(t),
    ensures
        from_range(lines, scan, t),
        t.ty == ty,
    decreases n,
{
    let part = scan.strings.take(n);
    if n > 0 {
        let c = scan.strings[n - 1];
        assert(part.last() == c);
        assert(part.drop_last() =~= scan.strings.take(n - 1));
        let front = string_tokens(lines, taken, scan.strings.take(n - 1), ty);
        let own = range_tokens(lines, taken, c.as_span(), ty, 0, c.start_line as int);
        lemma_in_two(front, own, t);
        if front.contains(t) {
            lemma_string_tokens_from(lines, taken, scan, ty, n - 1, t);
        } else {
            let i = choose|i: int| 0 <= i < own.len() && own[i] == t;
            lemma_range_tokens_begin(lines, taken, c.as_span(), ty, 0, c.start_line as int, i);
            assert(t.start == begins_at(scan.strings[n - 1].as_span(), t.line));
        }
    }
}

/// Every token of an answer is one of the server, one of a comment or a literal, or one of a word.
pub proof fn law_every_token_has_its_reason(
    answer: JsonView,
    text: Seq<char>,
    scan: ScanView,
    legend: Legend,
    t: Token,
)
    requires
        tokens_fit(answer, text, scan, legend),
        all_tokens(answer, text, scan, legend).contains(t),
    ensures
        ({
            ||| server_tokens(answer, scan, legend).contains(t)
            ||| from_range(source_lines(text), scan, t) && (legend.comment == Some(t.ty)
                || legend.string == Some(t.ty))
            ||| scan.words.contains(t)
        }),
{
    let lines = source_lines(text);
    let server = decoded(wire_numbers(answer), 0, 0);
    let taken = |l: u32, s: u32| starts_at(server, l, s);
    let comments = match legend.comment {
        Some(ty) => comment_tokens(lines, taken, scan.comments, ty, doc_bit(legend)),
        None => Seq::empty(),
    };
    let strings = match legend.string {
        Some(ty) => string_tokens(lines, taken, scan.strings, ty),
        None => Seq::empty(),
    };
    let base = base_tokens(answer, text, scan, legend);
    let mine = server_tokens(answer, scan, legend);
    lemma_all_tokens_hold(answer, text, scan, legend, t);
    lemma_in_two(base, free_words(scan.words, base, scan), t);
    lemma_in_two(mine + comments, strings, t);
    lemma_in_two(mine, comments, t);
    lemma_free_words_are(scan.words, base, scan, t);
    assert(scan.comments.take(scan.comments.len() as int) =~= scan.comments);
    assert(scan.strings.take(scan.strings.len() as int) =~= scan.strings);
    if comments.contains(t) {
        lemma_comment_tokens_from(
            lines,
            taken,
            scan,
            legend.comment->0,
            doc_bit(legend),
            scan.comments.len() as int,
            t,
        );
    }
    if strings.contains(t) {
        lemma_string_tokens_from(
            lines,
            taken,
            scan,
            legend.string->0,
            scan.strings.len() as int,
            t,
        );
    }
}

proof fn lemma_doc_spans(comments: Seq<CommentRange>, line: u32, col: u32)
    requires
        col < u32::MAX,
    ensures
        covered(doc_spans(comments), line, col) <==> exists|c: int|
            0 <= c < comments.len() && (#[trigger] comments[c]).kind == CommentKind::Doc
                && takes_in(comments[c].as_span(), line, col),
    decreases comments.len(),
{
    let all = doc_spans(comments);
    if comments.len() > 0 {
        let front = comments.drop_last();
        let spans = doc_spans(front);
        let last = comments.last();
        lemma_doc_spans(front, line, col);
        law_ranges_cover_what_they_take_in(last.as_span(), line, col);
        if covered(all, line, col) {
            let i = choose|i: int| 0 <= i < all.len() && span_covers(#[trigger] all[i], line, col);
            if i < spans.len() {
                assert(spans[i] == all[i]);
                let c = choose|c: int|
                    0 <= c < front.len() && (#[trigger] front[c]).kind == CommentKind::Doc
                        && takes_in(front[c].as_span(), line, col);
                assert(comments[c] == front[c]);
            } else {
                assert(comments[comments.len() - 1].kind == CommentKind::Doc);
            }
        }
        if exists|c: int|
            0 <= c < comments.len() && (#[trigger] comments[c]).kind == CommentKind::Doc
                && takes_in(comments[c].as_span(), line, col) {
            let c = choose|c: int|
                0 <= c < comments.len() && (#[trigger] comments[c]).kind == CommentKind::Doc
                    && takes_in(comments[c].as_span(), line, col);
            if c < front.len() {
                assert(front[c] == comments[c]);
                let i = choose|i: int|
                    0 <= i < spans.len() && span_covers(#[trigger] spans[i], line, col);
                assert(all[i] == spans[i]);
            } else {
                assert(all[spans.len() as int] == last.as_span());
            }
        }
    }
}

/// A token of the server gets the modifier of documentation exactly if it starts inside a
/// documentation comment and the legend has both comments and that modifier; apart from that it
/// stays as it is.
pub proof fn law_documentation_is_marked(
    answer: JsonView,
    scan: ScanView,
    legend: Legend,
    i: int,
)
    requires
        0 <= i < decoded(wire_numbers(answer), 0, 0).len(),
        decoded(wire_numbers(answer), 0, 0)[i].start < u32::MAX,
    ensures
        server_tokens(answer, scan, legend).len() == decoded(wire_numbers(answer), 0, 0).len(),
        ({
            let given = decoded(wire_numbers(answer), 0, 0)[i];
            let inside = exists|c: int|
                0 <= c < scan.comments.len() && (#[trigger] scan.comments[c]).kind
                    == CommentKind::Doc && takes_in(
                    scan.comments[c].as_span(),
                    given.line,
                    given.start,
                );
            server_tokens(answer, scan, legend)[i] == if inside && legend.comment is Some
                && legend.documentation is Some {
                Token { modifiers: given.modifiers | (1u32 << legend.documentation->0), ..given }
            } else {
                given
            }
        }),
{
    let given = decoded(wire_numbers(answer), 0, 0)[i];
    lemma_doc_spans(scan.comments, given.line, given.start);
}

// ---------------------------------------------------------------------------------------------
// What is scanned, and for what
// ---------------------------------------------------------------------------------------------
/// A kind of token is looked for under the number that the server's legend gives to its name: the
/// first place of the name in the list. Names of declarations count as functions and members as
/// properties, or where there are none as methods.
pub proof fn law_kinds_have_the_servers_numbers(state: StateView, name: Seq<char>, k: int)
    requires
        0 <= k < state.token_types.len() <= u32::MAX,
        state.token_types[k] == name,
        forall|j: int| 0 <= j < k ==> #[trigger] state.token_types[j] != name,
    ensures
        name == "comment"@ ==> legend_of(state).comment == Some(k as u32),
        name == "string"@ ==> legend_of(state).string == Some(k as u32),
        name == "number"@ ==> legend_of(state).kinds.number == Some(k as u32),
        name == "type"@ ==> legend_of(state).kinds.capitalized == Some(k as u32),
        name == "function"@ ==> legend_of(state).kinds.decl_name == Some(k as u32),
        name == "property"@ ==> legend_of(state).kinds.member == Some(k as u32),
        name == "method"@ && !state.token_types.contains("function"@) ==> legend_of(
            state,
        ).kinds.decl_name == Some(k as u32),
        name == "method"@ && !state.token_types.contains("property"@) ==> legend_of(
            state,
        ).kinds.member == Some(k as u32),
{
    law_names_have_their_first_index(state.token_types, name, k);
    law_unknown_names_have_no_index(state.token_types, "function"@);
    law_unknown_names_have_no_index(state.token_types, "property"@);
}

/// A kind of token that the server's legend does not name is not looked for.
pub proof fn law_kinds_without_a_number_are_not_looked_for(state: StateView)
    ensures
        !state.token_types.contains("comment"@) ==> legend_of(state).comment is None,
        !state.token_types.contains("string"@) ==> legend_of(state).string is None,
        !state.token_types.contains("number"@) ==> legend_of(state).kinds.number is None,
        !state.token_types.contains("type"@) ==> legend_of(state).kinds.capitalized is None,
        !state.token_types.contains("function"@) && !state.token_types.contains("method"@)
            ==> legend_of(state).kinds.decl_name is None,
        !state.token_types.contains("property"@) && !state.token_types.contains("method"@)
            ==> legend_of(state).kinds.member is None,
        !state.token_modifiers.contains("documentation"@) ==> legend_of(state).documentation is None,
{
    law_unknown_names_have_no_index(state.token_types, "comment"@);
    law_unknown_names_have_no_index(state.token_types, "string"@);
    law_unknown_names_have_no_index(state.token_types, "number"@);
    law_unknown_names_have_no_index(state.token_types, "type"@);
    law_unknown_names_have_no_index(state.token_types, "function"@);
    law_unknown_names_have_no_index(state.token_types, "method"@);
    law_unknown_names_have_no_index(state.token_types, "property"@);
    law_unknown_names_have_no_index(state.token_modifiers, "documentation"@);
}

/// The scan of a text finds its words and, if the legend has comments or literals, all comments and
/// literals; it is kept for its version and made anew for another one.
pub proof fn law_scans_follow_the_version(
    scans: Map<Seq<char>, ScanView>,
    uri: Seq<char>,
    version: i64,
    text: Seq<char>,
    legend: Legend,
)
    ensures
        ({
            let after = scans_with(scans, uri, version, text, legend);
            &&& after.contains_key(uri) && after[uri].version == version
            &&& scans.contains_key(uri) && scans[uri].version == version ==> after == scans
            &&& !(scans.contains_key(uri) && scans[uri].version == version) ==> {
                &&& after[uri].words == scanned(text, legend.kinds)
                &&& legend.comment is Some || legend.string is Some ==> {
                    let b = encode_utf8(text);
                    &&& after[uri].comments == comment_ranges(b, lexemes(b, 0))
                    &&& after[uri].strings == string_ranges(b, lexemes(b, 0))
                }
            }
            &&& forall|other: Seq<char>|
                other != uri ==> after.contains_key(other) == scans.contains_key(other)
                    && #[trigger] after[other] == scans[other]
            &&& scans_with(after, uri, version, text, legend) == after
        }),
{
}

/// The version of a document is the one that is known, or zero.
pub proof fn law_versions_are_those_known(state: StateView, uri: Seq<char>, version: i64)
    ensures
        version_or_zero(
            StateView { versions: state.versions.insert(uri, version), ..state },
            uri,
        ) == version,
        !state.versions.contains_key(uri) ==> version_or_zero(state, uri) == 0,
{
}

/// A request about a document whose text is known is answered with all tokens of that text, and
/// any other one with what the server said.
pub proof fn law_known_documents_are_enriched(
    state: StateView,
    texts: Texts,
    scans: Map<Seq<char>, ScanView>,
    params: JsonView,
    answer: JsonView,
    uri: Seq<char>,
)
    ensures
        params.get2("textDocument"@, "uri"@) == Some(JsonView::Str(uri)) && texts.contains_key(uri)
            ==> answer_of(state, texts, scans, params, answer) == with_tokens(
            answer,
            all_tokens(
                answer,
                texts[uri],
                scans_with(
                    scans,
                    uri,
                    version_or_zero(state, uri),
                    texts[uri],
                    legend_of(state),
                )[uri],
                legend_of(state),
            ),
        ),
        params.get2("textDocument"@, "uri"@) == Some(JsonView::Str(uri)) && !texts.contains_key(uri)
            ==> answer_of(state, texts, scans, params, answer) == answer,
        params.get2("textDocument"@, "uri"@) is None ==> answer_of(
            state,
            texts,
            scans,
            params,
            answer,
        ) == answer,
{
}

/// Tokens at one position stay in the order they had when they are sorted: of two tokens of a list
/// at one position the earlier one comes first.
pub proof fn law_sorting_is_stable(tokens: Seq<Token>, i: int, j: int)
    requires
        tokens.len() <= usize::MAX,
        0 <= i < j < tokens.len(),
        tokens[i].line == tokens[j].line && tokens[i].start == tokens[j].start,
    ensures
        exists|a: int, b: int|
            0 <= a < b < sorted_tokens(tokens).len() && #[trigger] sorted_tokens(tokens)[a]
                == tokens[i] && #[trigger] sorted_tokens(tokens)[b] == tokens[j],
{
    let keys = token_keys(tokens);
    let order = order_of(keys);
    law_order(keys);
    assert(order.contains(i as usize) && order.contains(j as usize));
    let a = choose|k: int| 0 <= k < order.len() && order[k] == i as usize;
    let b = choose|k: int| 0 <= k < order.len() && order[k] == j as usize;
    let sorted = sorted_tokens(tokens);
    assert(sorted[a] == tokens[i] && sorted[b] == tokens[j]);
    if b < a {
        assert(no_later(keys, order[b], order[a]));
    }
}

/// The tokens of several comments are those of each comment, one comment after the other.
pub proof fn law_comments_are_coloured_one_by_one(
    lines: Seq<Seq<char>>,
    taken: spec_fn(u32, u32) -> bool,
    a: Seq<CommentRange>,
    b: Seq<CommentRange>,
    ty: u32,
    bit: Option<u32>,
    c: CommentRange,
)
    ensures
        comment_tokens(lines, taken, a + b, ty, bit) == comment_tokens(lines, taken, a, ty, bit)
            + comment_tokens(lines, taken, b, ty, bit),
        comment_tokens(lines, taken, seq![c], ty, bit) == range_tokens(
            lines,
            taken,
            c.as_span(),
            ty,
            if c.kind == CommentKind::Doc && bit is Some {
                bit->0
            } else {
                0
            },
            c.start_line as int,
        ),
    decreases b.len(),
{
    let none = Seq::<CommentRange>::empty();
    assert(seq![c].drop_last() =~= none);
    assert(comment_tokens(lines, taken, none, ty, bit) =~= Seq::empty());
    assert(comment_tokens(lines, taken, seq![c], ty, bit) =~= range_tokens(
        lines,
        taken,
        c.as_span(),
        ty,
        comment_modifiers(c.kind, bit),
        c.start_line as int,
    ));
    if b.len() == 0 {
        assert(a + b =~= a);
        assert(b =~= none);
        assert(comment_tokens(lines, taken, a, ty, bit) + comment_tokens(lines, taken, b, ty, bit)
            =~= comment_tokens(lines, taken, a, ty, bit));
    } else {
        law_comments_are_coloured_one_by_one(lines, taken, a, b.drop_last(), ty, bit, c);
        assert((a + b).drop_last() =~= a + b.drop_last());
        assert((a + b).last() == b.last());
        assert(comment_tokens(lines, taken, a + b, ty, bit) =~= comment_tokens(
            lines,
            taken,
            a,
            ty,
            bit,
        ) + comment_tokens(lines, taken, b, ty, bit));
    }
}

/// The tokens of several literals are those of each literal, one literal after the other.
pub proof fn law_literals_are_coloured_one_by_one(
    lines: Seq<Seq<char>>,
    taken: spec_fn(u32, u32) -> bool,
    a: Seq<StringRange>,
    b: Seq<StringRange>,
    ty: u32,
    c: StringRange,
)
    ensures
        string_tokens(lines, taken, a + b, ty) == string_tokens(lines, taken, a, ty)
            + string_tokens(lines, taken, b, ty),
        string_tokens(lines, taken, seq![c], ty) == range_tokens(
            lines,
            taken,
            c.as_span(),
            ty,
            0,
            c.start_line as int,
        ),
    decreases b.len(),
{
    let none = Seq::<StringRange>::empty();
    assert(seq![c].drop_last() =~= none);
    assert(string_tokens(lines, taken, none, ty) =~= Seq::empty());
    assert(string_tokens(lines, taken, seq![c], ty) =~= range_tokens(
        lines,
        taken,
        c.as_span(),
        ty,
        0,
        c.start_line as int,
    ));
    if b.len() == 0 {
        assert(a + b =~= a);
        assert(b =~= none);
        assert(string_tokens(lines, taken, a, ty) + string_tokens(lines, taken, b, ty)
            =~= string_tokens(lines, taken, a, ty));
    } else {
        law_literals_are_coloured_one_by_one(lines, taken, a, b.drop_last(), ty, c);
        assert((a + b).drop_last() =~= a + b.drop_last());
        assert((a + b).last() == b.last());
        assert(string_tokens(lines, taken, a + b, ty) =~= string_tokens(lines, taken, a, ty)
            + string_tokens(lines, taken, b, ty));
    }
}

/// The words that are coloured are those of the scan that stand free, each once and in their order.
pub proof fn law_free_words_keep_their_order(words: Seq<Token>, base: Seq<Token>, scan: ScanView)
    ensures
        free_words(words, base, scan) == words.filter(|t: Token| stands_free(t, base, scan)),
    decreases words.len(),
{
    reveal(Seq::filter);
    if words.len() > 0 {
        law_free_words_keep_their_order(words.drop_last(), base, scan);
    }
}

/// What can be answered: every request on a document that is not known, and every one on a document
/// that can be scanned or was scanned at its version, if the server's positions are positions and
/// the documentation modifier has a bit.
pub proof fn law_what_can_be_answered(
    state: StateView,
    texts: Texts,
    scans: Map<Seq<char>, ScanView>,
    params: JsonView,
    answer: JsonView,
    uri: Seq<char>,
)
    ensures
        params.get2("textDocument"@, "uri"@) is None ==> answerable(
            state,
            texts,
            scans,
            params,
            answer,
        ),
        params.get2("textDocument"@, "uri"@) == Some(JsonView::Str(uri)) && !texts.contains_key(uri)
            ==> answerable(state, texts, scans, params, answer),
        params.get2("textDocument"@, "uri"@) == Some(JsonView::Str(uri)) && texts.contains_key(uri)
            && positions_fit(wire_numbers(answer), 0, 0) && (legend_of(state).documentation is None
            || legend_of(state).documentation->0 < 32 || legend_of(state).comment is None) && (
        scannable(texts[uri]) || scans.contains_key(uri) && state.versions.contains_key(uri)
            && scans[uri].version == state.versions[uri]) ==> answerable(
            state,
            texts,
            scans,
            params,
            answer,
        ),
{
}

} // verus!
