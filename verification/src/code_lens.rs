//! The declarations of a Lean text and the lenses that are shown above them.
use crate::documents::{Documents, Texts};
use crate::inlay::{Happening, HappeningView, RefreshAction, RefreshView};
use crate::json::{i64_in, items_view, lemma_items_view, str_in, Json, JsonView};
use crate::order::{law_order, no_later, stable_order};
use crate::semantic_tokens::version_or_zero;
use crate::snoop::{opt_i64, opt_str, opt_u64};
use crate::state::{
    range_start, EventView, StateEvent, StateHandle, StateView, SEVERITY_ERROR, SEVERITY_WARNING,
};
use crate::text::{
    chars_of, contains, decimal_of, digit_char, holds, holds_at, is_white, is_whitespace,
    law_trim_start, lemma_prefix, push_decimal, same_text, split, split_of, starts_with, text_of,
    trim, trim_of, trim_start, trim_start_of, views,
};
use crate::text_map::TextMap;
use vstd::prelude::*;
use vstd::slice::slice_subrange;
use vstd::string::StringExecFns;

verus! {

// ---------------------------------------------------------------------------------------------
// Keywords
// ---------------------------------------------------------------------------------------------
/// The words that open a declaration.
pub const DECL_KEYWORDS: [&'static str; 6] = [
    "theorem",
    "lemma",
    "example",
    "def",
    "instance",
    "abbrev",
];

/// Whether a text starts with a word that white space follows.
pub open spec fn opens_with(s: Seq<char>, word: Seq<char>) -> bool {
    word.is_prefix_of(s) && word.len() < s.len() && is_white(s[word.len() as int])
}

/// The first declaration keyword, from a given one on, that a text opens with.
pub open spec fn keyword_from(s: Seq<char>, k: int) -> Option<Seq<char>>
    decreases DECL_KEYWORDS@.len() - k,
{
    if k < 0 || k >= DECL_KEYWORDS@.len() {
        None
    } else if opens_with(s, DECL_KEYWORDS@[k]@) {
        Some(DECL_KEYWORDS@[k]@)
    } else {
        keyword_from(s, k + 1)
    }
}

/// The declaration keyword that a text opens with.
pub open spec fn keyword_of(s: Seq<char>) -> Option<Seq<char>> {
    keyword_from(s, 0)
}

/// The declaration keyword that a text opens with, and its length.
pub fn find_keyword(s: &[char]) -> (r: Option<(&'static str, usize)>)
    ensures
        match r {
            Some((kw, len)) => keyword_of(s@) == Some(kw@) && len == kw@.len() && len < s@.len()
                && opens_with(s@, kw@),
            None => keyword_of(s@) is None,
        },
{
    let mut k: usize = 0;
    while k < 6
        invariant
            k <= 6,
            keyword_of(s@) == keyword_from(s@, k as int),
        decreases 6 - k,
    {
        let kw = DECL_KEYWORDS[k];
        if starts_with(s, kw) {
            let len = chars_of(kw).len();
            if len < s.len() && is_whitespace(s[len]) {
                return Some((kw, len));
            }
        }
        k += 1;
    }
    None
}

// ---------------------------------------------------------------------------------------------
// Declarations
// ---------------------------------------------------------------------------------------------
/// The characters that end the name of a declaration.
pub open spec fn ends_name(c: char) -> bool {
    is_white(c) || c == ':' || c == '('
}

/// The first index, from a given one on, whose character ends a name or does not, or the end.
pub open spec fn name_stop(s: Seq<char>, i: int, ends: bool) -> int
    decreases s.len() - i,
{
    if 0 <= i < s.len() && ends_name(s[i]) != ends {
        name_stop(s, i + 1, ends)
    } else {
        i
    }
}

/// The first name in a text, or a question mark without one.
pub open spec fn name_in(s: Seq<char>) -> Seq<char> {
    let start = name_stop(s, 0, false);
    let end = name_stop(s, start, true);
    if start < end {
        s.subrange(start, end)
    } else {
        "?"@
    }
}

/// The keyword and the name of the declaration that a line opens.
pub open spec fn opening(line: Seq<char>) -> Option<(Seq<char>, Seq<char>)> {
    match keyword_of(line) {
        Some(kw) => Some((kw, name_in(trim_start_of(line.skip(kw.len() as int))))),
        None => None,
    }
}

/// The lines, from a given one on, that open a declaration.
pub open spec fn openings(lines: Seq<Seq<char>>, k: int) -> Seq<int>
    decreases lines.len() - k,
{
    if k < 0 || k >= lines.len() {
        Seq::empty()
    } else {
        let rest = openings(lines, k + 1);
        if opening(lines[k]) is Some {
            seq![k] + rest
        } else {
            rest
        }
    }
}

/// Whether a line starts a tactic proof.
pub open spec fn starts_tactics(line: Seq<char>) -> bool {
    holds(line, ":= by"@) || trim_of(line) == "by"@
}

/// Whether a line holds a tactic: it is neither blank nor a comment nor an alternative.
pub open spec fn is_tactic(line: Seq<char>) -> bool {
    let t = trim_of(line);
    t.len() > 0 && !"--"@.is_prefix_of(t) && !"/-"@.is_prefix_of(t) && !"|"@.is_prefix_of(t)
}

/// How many lines up to and with the last one hold a tactic.
pub open spec fn tactics_between(lines: Seq<Seq<char>>, start: int, end: int) -> nat
    decreases end - start + 1,
{
    if start < 0 || start > end || start >= lines.len() {
        0
    } else {
        tactics_between(lines, start + 1, end) + if is_tactic(lines[start]) {
            1nat
        } else {
            0
        }
    }
}

/// Whether a tactic proof starts on one of some lines.
pub open spec fn has_tactics(lines: Seq<Seq<char>>, start: int, end: int) -> bool {
    exists|i: int| start <= i <= end && 0 <= i < lines.len() && starts_tactics(#[trigger] lines[i])
}

/// A declaration.
pub struct DeclView {
    pub keyword: Seq<char>,
    pub name: Seq<char>,
    pub start_line: int,
    pub end_line: int,
    pub tactic_count: nat,
}

/// The last line of a declaration: the one in front of the next declaration, or the last one.
pub open spec fn decl_end(lines: Seq<Seq<char>>, starts: Seq<int>, i: int) -> int {
    if i + 1 < starts.len() {
        starts[i + 1] - 1
    } else {
        lines.len() - 1
    }
}

/// A declaration of a text. Its tactics count only where it has a tactic proof; its first line
/// never counts.
pub open spec fn decl_at(lines: Seq<Seq<char>>, starts: Seq<int>, i: int) -> DeclView {
    let start = starts[i];
    let end = decl_end(lines, starts, i);
    let (keyword, name) = opening(lines[start])->0;
    DeclView {
        keyword,
        name,
        start_line: start,
        end_line: end,
        tactic_count: if has_tactics(lines, start, end) {
            tactics_between(lines, start + 1, end)
        } else {
            0
        },
    }
}

/// The declarations of a text.
pub open spec fn declarations_of(text: Seq<char>) -> Seq<DeclView> {
    let lines = split_of(text, '\n');
    let starts = openings(lines, 0);
    Seq::new(starts.len(), |i: int| decl_at(lines, starts, i))
}

/// A declaration.
#[derive(Debug)]
pub struct Declaration {
    keyword: String,
    name: String,
    start_line: u64,
    end_line: u64,
    tactic_count: usize,
}

impl Declaration {
    pub closed spec fn view(&self) -> DeclView {
        DeclView {
            keyword: self.keyword@,
            name: self.name@,
            start_line: self.start_line as int,
            end_line: self.end_line as int,
            tactic_count: self.tactic_count as nat,
        }
    }
}

/// What declarations say.
pub open spec fn decls_view(decls: Seq<Declaration>) -> Seq<DeclView> {
    decls.map_values(|d: Declaration| d.view())
}

fn stops_name(c: char) -> (r: bool)
    ensures
        r == ends_name(c),
{
    is_whitespace(c) || c == ':' || c == '('
}

fn first_name(s: &[char]) -> (r: String)
    ensures
        r@ == name_in(s@),
{
    let mut start: usize = 0;
    while start < s.len() && stops_name(s[start])
        invariant
            start <= s.len(),
            name_stop(s@, 0, false) == name_stop(s@, start as int, false),
        decreases s.len() - start,
    {
        start += 1;
    }
    let mut end: usize = start;
    while end < s.len() && !stops_name(s[end])
        invariant
            start <= end <= s.len(),
            name_stop(s@, start as int, true) == name_stop(s@, end as int, true),
        decreases s.len() - end,
    {
        end += 1;
    }
    if start < end {
        text_of(slice_subrange(s, start, end))
    } else {
        "?".to_string()
    }
}

/// The keyword that a line opens a declaration with, and what follows it.
pub fn parse_decl_keyword(line: &[char]) -> (r: Option<(&'static str, &[char])>)
    ensures
        match r {
            Some((kw, rest)) => keyword_of(line@) == Some(kw@) && rest@ == trim_start_of(
                line@.skip(kw@.len() as int),
            ),
            None => keyword_of(line@) is None,
        },
{
    match find_keyword(line) {
        Some((kw, len)) => {
            let rest = slice_subrange(line, len, line.len());
            assert(rest@ =~= line@.skip(len as int));
            Some((kw, trim_start(rest)))
        },
        None => None,
    }
}

fn is_tactic_line(line: &[char]) -> (r: bool)
    ensures
        r == is_tactic(line@),
{
    let t = trim(line);
    t.len() > 0 && !starts_with(t, "--") && !starts_with(t, "/-") && !starts_with(t, "|")
}

fn is_tactic_start(line: &[char]) -> (r: bool)
    ensures
        r == starts_tactics(line@),
{
    contains(line, ":= by") || same_text(text_of(trim(line)).as_str(), "by")
}

/// How many lines behind the first one, up to and with the last one, hold a tactic.
pub fn count_tactics_in_lines(lines: &Vec<&[char]>, start_line: usize, end_line: usize) -> (r:
    usize)
    requires
        start_line <= end_line < lines.len(),
    ensures
        r == tactics_between(views(lines@), start_line + 1, end_line as int),
        r <= end_line - start_line,
{
    let ghost all = views(lines@);
    let mut n: usize = 0;
    let mut k: usize = end_line;
    while k > start_line
        invariant
            start_line <= k <= end_line < lines.len(),
            all == views(lines@),
            n == tactics_between(all, k + 1, end_line as int),
            n <= end_line - k,
        decreases k,
    {
        assert(all[k as int] == lines@[k as int]@);
        if is_tactic_line(lines[k]) {
            n += 1;
        }
        k -= 1;
    }
    n
}

fn any_tactics(lines: &Vec<&[char]>, start: usize, end: usize) -> (r: bool)
    requires
        start <= end < lines.len(),
    ensures
        r == has_tactics(views(lines@), start as int, end as int),
{
    let ghost all = views(lines@);
    let mut k: usize = start;
    while k <= end
        invariant
            start <= k <= end + 1,
            end < lines.len(),
            all == views(lines@),
            forall|i: int| start <= i < k ==> !starts_tactics(#[trigger] all[i]),
        decreases end + 1 - k,
    {
        assert(all[k as int] == lines@[k as int]@);
        if is_tactic_start(lines[k]) {
            assert(starts_tactics(all[k as int]));
            return true;
        }
        k += 1;
    }
    false
}

proof fn lemma_openings(lines: Seq<Seq<char>>, k: int)
    requires
        0 <= k,
    ensures
        forall|i: int|
            0 <= i < openings(lines, k).len() ==> {
                &&& k <= #[trigger] openings(lines, k)[i] < lines.len()
                &&& opening(lines[openings(lines, k)[i]]) is Some
            },
        forall|i: int, j: int|
            0 <= i < j < openings(lines, k).len() ==> #[trigger] openings(lines, k)[i]
                < #[trigger] openings(lines, k)[j],
    decreases lines.len() - k,
{
    if k < lines.len() {
        lemma_openings(lines, k + 1);
        let rest = openings(lines, k + 1);
        let all = openings(lines, k);
        if opening(lines[k]) is Some {
            assert forall|i: int| 0 <= i < all.len() implies k <= #[trigger] all[i] < lines.len()
                && opening(lines[all[i]]) is Some by {
                if i > 0 {
                    assert(all[i] == rest[i - 1]);
                }
            }
            assert forall|i: int, j: int| 0 <= i < j < all.len() implies #[trigger] all[i]
                < #[trigger] all[j] by {
                assert(all[j] == rest[j - 1]);
                if i > 0 {
                    assert(all[i] == rest[i - 1]);
                }
            }
        }
    }
}

/// The lines that open a declaration.
fn find_openings(lines: &Vec<&[char]>) -> (out: Vec<usize>)
    ensures
        out@.map_values(|k: usize| k as int) == openings(views(lines@), 0),
{
    let ghost all = views(lines@);
    let mut out: Vec<usize> = Vec::new();
    let mut k: usize = 0;
    assert(out@.map_values(|k: usize| k as int) + openings(all, 0) =~= openings(all, 0));
    while k < lines.len()
        invariant
            k <= lines.len(),
            all == views(lines@),
            out@.map_values(|k: usize| k as int) + openings(all, k as int) == openings(all, 0),
        decreases lines.len() - k,
    {
        let ghost before = out@.map_values(|k: usize| k as int);
        assert(all[k as int] == lines@[k as int]@);
        if find_keyword(lines[k]).is_some() {
            out.push(k);
            assert(out@.map_values(|k: usize| k as int) =~= before.push(k as int));
            assert(before.push(k as int) + openings(all, k + 1) =~= before + openings(
                all,
                k as int,
            ));
        }
        k += 1;
    }
    assert(out@.map_values(|k: usize| k as int) + openings(all, k as int) =~= out@.map_values(
        |k: usize| k as int,
    ));
    out
}

/// The declarations of a text.
pub fn find_declarations(text: &str) -> (out: Vec<Declaration>)
    ensures
        decls_view(out@) == declarations_of(text@),
{
    let chars = chars_of(text);
    let lines = split(chars.as_slice(), '\n');
    let ghost all = views(lines@);
    let ghost starts_spec = openings(all, 0);
    let starts = find_openings(&lines);
    proof {
        lemma_openings(all, 0);
        assert forall|i: int| 0 <= i < starts.len() implies #[trigger] starts@[i] as int
            == starts_spec[i] by {
            assert(starts@.map_values(|k: usize| k as int)[i] == starts@[i] as int);
        }
        assert(starts@.map_values(|k: usize| k as int).len() == starts@.len());
    }
    let mut out: Vec<Declaration> = Vec::new();
    let mut i: usize = 0;
    while i < starts.len()
        invariant
            i <= starts.len(),
            out.len() == i,
            all == views(lines@),
            all == split_of(text@, '\n'),
            starts_spec == openings(all, 0),
            starts.len() == starts_spec.len(),
            forall|k: int| 0 <= k < starts.len() ==> #[trigger] starts@[k] as int == starts_spec[k],
            forall|k: int|
                0 <= k < starts_spec.len() ==> {
                    &&& 0 <= #[trigger] starts_spec[k] < all.len()
                    &&& opening(all[starts_spec[k]]) is Some
                },
            forall|k: int, m: int|
                0 <= k < m < starts_spec.len() ==> #[trigger] starts_spec[k]
                    < #[trigger] starts_spec[m],
            forall|k: int|
                0 <= k < i ==> (#[trigger] out@[k]).view() == decl_at(all, starts_spec, k),
        decreases starts.len() - i,
    {
        let start = starts[i];
        assert(start as int == starts_spec[i as int]);
        let end: usize = if i + 1 < starts.len() {
            assert(starts@[i + 1] as int == starts_spec[i + 1]);
            assert(starts_spec[i as int] < starts_spec[i + 1]);
            starts[i + 1] - 1
        } else {
            lines.len() - 1
        };
        assert(all[start as int] == lines@[start as int]@);
        let tactic_count = if any_tactics(&lines, start, end) {
            count_tactics_in_lines(&lines, start, end)
        } else {
            0
        };
        if let Some((kw, rest)) = parse_decl_keyword(lines[start]) {
            let d = Declaration {
                keyword: kw.to_string(),
                name: first_name(rest),
                start_line: start as u64,
                end_line: end as u64,
                tactic_count,
            };
            assert(d.view() == decl_at(all, starts_spec, i as int));
            out.push(d);
        }
        i += 1;
    }
    assert(decls_view(out@) =~= declarations_of(text@));
    out
}

/// The declarations of a text stand one behind the other, and together they reach to its last
/// line.
pub proof fn law_declarations_in_order(text: Seq<char>, i: int)
    requires
        0 <= i < declarations_of(text).len(),
    ensures
        ({
            let decls = declarations_of(text);
            &&& 0 <= decls[i].start_line <= decls[i].end_line < split_of(text, '\n').len()
            &&& i + 1 < decls.len() ==> decls[i + 1].start_line == decls[i].end_line + 1
            &&& i + 1 == decls.len() ==> decls[i].end_line == split_of(text, '\n').len() - 1
        }),
{
    let lines = split_of(text, '\n');
    lemma_openings(lines, 0);
    let starts = openings(lines, 0);
    assert(0 <= starts[i] < lines.len());
    if i + 1 < starts.len() {
        assert(starts[i] < starts[i + 1] < lines.len());
    }
}

// ---------------------------------------------------------------------------------------------
// Status
// ---------------------------------------------------------------------------------------------
/// How a declaration fares.
#[derive(Clone, Copy, Debug, PartialEq, Eq, Structural)]
pub enum Status {
    Good,
    Error,
    Warning,
}

impl Status {
    /// The sign of the status.
    pub open spec fn sign(self) -> Seq<char> {
        match self {
            Status::Good => "\u{2713}"@,
            Status::Error => "\u{2717}"@,
            Status::Warning => "\u{26A0}"@,
        }
    }

    pub fn glyph(self) -> (r: &'static str)
        ensures
            r@ == self.sign(),
    {
        match self {
            Status::Good => "\u{2713}",
            Status::Error => "\u{2717}",
            Status::Warning => "\u{26A0}",
        }
    }
}

/// The severity of a report; one without counts as zero.
pub open spec fn severity_or_zero(d: JsonView) -> i64 {
    match i64_in(d.get("severity"@)) {
        Some(s) => s,
        None => 0,
    }
}

/// Whether a report with a severity starts on one of some lines.
pub open spec fn reported(items: Seq<JsonView>, start: int, end: int, severity: i64) -> bool {
    exists|i: int|
        0 <= i < items.len() && range_start(#[trigger] items[i]) is Some && start <= range_start(
            items[i],
        )->0 <= end && severity_or_zero(items[i]) == severity
}

/// How some lines fare: badly if an error starts there, else with a warning if one starts there.
pub open spec fn status_of(items: Seq<JsonView>, start: int, end: int) -> Status {
    if reported(items, start, end, SEVERITY_ERROR) {
        Status::Error
    } else if reported(items, start, end, SEVERITY_WARNING) {
        Status::Warning
    } else {
        Status::Good
    }
}

/// The lines and severities of reports, in the order of the lines.
pub struct DiagnosticIndex {
    by_line: Vec<(u64, i64)>,
}

/// Whether one of some lines has a severity.
spec fn has_severity(pairs: Seq<(u64, i64)>, start: int, end: int, severity: i64) -> bool {
    exists|i: int|
        0 <= i < pairs.len() && start <= (#[trigger] pairs[i]).0 <= end && pairs[i].1 == severity
}

spec fn lines_rise(pairs: Seq<(u64, i64)>) -> bool {
    forall|i: int, j: int|
        0 <= i < j < pairs.len() ==> (#[trigger] pairs[i]).0 <= (#[trigger] pairs[j]).0
}

impl DiagnosticIndex {
    pub closed spec fn wf(self) -> bool {
        lines_rise(self.by_line@)
    }

    /// Whether a report with a severity starts on one of some lines.
    pub closed spec fn has(self, start: int, end: int, severity: i64) -> bool {
        has_severity(self.by_line@, start, end, severity)
    }

    /// The index of some reports.
    pub fn build(diagnostics: &Vec<Json>) -> (r: DiagnosticIndex)
        ensures
            r.wf(),
            forall|start: int, end: int, severity: i64| #[trigger]
                r.has(start, end, severity) == reported(
                    items_view(diagnostics@),
                    start,
                    end,
                    severity,
                ),
    {
        let ghost all = items_view(diagnostics@);
        let mut pairs: Vec<(u64, i64)> = Vec::new();
        let mut keys: Vec<u64> = Vec::new();
        let mut i: usize = 0;
        proof {
            lemma_items_view(diagnostics@);
        }
        while i < diagnostics.len()
            invariant
                i <= diagnostics.len(),
                all == items_view(diagnostics@),
                all.len() == diagnostics.len(),
                forall|k: int| 0 <= k < diagnostics.len() ==> #[trigger] all[k] == diagnostics@[k]@,
                pairs.len() == keys.len(),
                forall|k: int| 0 <= k < keys.len() ==> #[trigger] keys@[k] == pairs@[k].0,
                forall|start: int, end: int, severity: i64| #[trigger]
                    has_severity(pairs@, start, end, severity) == reported(
                        all.take(i as int),
                        start,
                        end,
                        severity,
                    ),
            decreases diagnostics.len() - i,
        {
            let ghost before = pairs@;
            let d = &diagnostics[i];
            if let Some(line) = opt_u64(d.get3("range", "start", "line")) {
                let severity = match opt_i64(d.get("severity")) {
                    Some(s) => s,
                    None => 0,
                };
                pairs.push((line, severity));
                keys.push(line);
            }
            proof {
                lemma_pairs_step(before, pairs@, all, i as int);
            }
            i += 1;
        }
        assert(all.take(i as int) =~= all);
        let order = stable_order(keys.as_slice());
        proof {
            law_order(keys@);
        }
        let mut by_line: Vec<(u64, i64)> = Vec::new();
        let mut j: usize = 0;
        while j < order.len()
            invariant
                j <= order.len(),
                by_line.len() == j,
                order.len() == pairs.len(),
                forall|k: int| 0 <= k < order.len() ==> 0 <= #[trigger] order@[k] < pairs.len(),
                forall|k: int| 0 <= k < j ==> #[trigger] by_line@[k] == pairs@[order@[k] as int],
            decreases order.len() - j,
        {
            by_line.push(pairs[order[j]]);
            j += 1;
        }
        proof {
            assert(lines_rise(by_line@)) by {
                assert forall|a: int, b: int| 0 <= a < b < by_line@.len() implies (
                #[trigger] by_line@[a]).0 <= (#[trigger] by_line@[b]).0 by {
                    assert(no_later(keys@, order@[a], order@[b]));
                    assert(keys@[order@[a] as int] == pairs@[order@[a] as int].0);
                    assert(keys@[order@[b] as int] == pairs@[order@[b] as int].0);
                }
            }
            assert forall|start: int, end: int, severity: i64| #[trigger]
                has_severity(by_line@, start, end, severity) == has_severity(
                    pairs@,
                    start,
                    end,
                    severity,
                ) by {
                if has_severity(by_line@, start, end, severity) {
                    let k = choose|k: int|
                        0 <= k < by_line@.len() && start <= (#[trigger] by_line@[k]).0 <= end
                            && by_line@[k].1 == severity;
                    assert(pairs@[order@[k] as int] == by_line@[k]);
                }
                if has_severity(pairs@, start, end, severity) {
                    let k = choose|k: int|
                        0 <= k < pairs@.len() && start <= (#[trigger] pairs@[k]).0 <= end
                            && pairs@[k].1 == severity;
                    assert(order@.contains(k as usize));
                    let m = choose|m: int| 0 <= m < order@.len() && order@[m] == k as usize;
                    assert(by_line@[m] == pairs@[k]);
                }
            }
        }
        DiagnosticIndex { by_line }
    }

    /// How some lines fare.
    pub fn status(&self, start: u64, end: u64) -> (r: Status)
        requires
            self.wf(),
        ensures
            r == (if self.has(start as int, end as int, SEVERITY_ERROR) {
                Status::Error
            } else if self.has(start as int, end as int, SEVERITY_WARNING) {
                Status::Warning
            } else {
                Status::Good
            }),
    {
        let lo = self.first_at(start);
        let mut worst = Status::Good;
        let mut i: usize = lo;
        while i < self.by_line.len() && self.by_line[i].0 <= end
            invariant
                lo <= i <= self.by_line.len(),
                lines_rise(self.by_line@),
                forall|k: int| 0 <= k < lo ==> (#[trigger] self.by_line@[k]).0 < start,
                forall|k: int|
                    lo <= k < self.by_line@.len() ==> (#[trigger] self.by_line@[k]).0 >= start,
                forall|k: int| 0 <= k < i ==> (#[trigger] self.by_line@[k]).0 <= end || k < lo,
                forall|k: int| lo <= k < i ==> (#[trigger] self.by_line@[k]).1 != SEVERITY_ERROR,
                worst == Status::Good || worst == Status::Warning,
                worst == Status::Good ==> forall|k: int|
                    lo <= k < i ==> (#[trigger] self.by_line@[k]).1 != SEVERITY_WARNING,
                worst == Status::Warning ==> has_severity(
                    self.by_line@,
                    start as int,
                    end as int,
                    SEVERITY_WARNING,
                ),
            decreases self.by_line.len() - i,
        {
            let severity = self.by_line[i].1;
            if severity == SEVERITY_ERROR {
                assert(self.by_line@[i as int].1 == SEVERITY_ERROR);
                return Status::Error;
            }
            if severity == SEVERITY_WARNING {
                assert(self.by_line@[i as int].1 == SEVERITY_WARNING);
                worst = Status::Warning;
            }
            i += 1;
        }
        proof {
            assert forall|k: int|
                0 <= k < self.by_line@.len() && start <= (#[trigger] self.by_line@[k]).0
                    <= end implies lo <= k < i by {
                if k >= i {
                    assert(self.by_line@[i as int].0 > end);
                    if k > i {
                        assert(self.by_line@[i as int].0 <= self.by_line@[k].0);
                    }
                }
            }
        }
        worst
    }

    /// The first entry that does not lie in front of a line, or the end.
    fn first_at(&self, start: u64) -> (lo: usize)
        requires
            lines_rise(self.by_line@),
        ensures
            lo <= self.by_line@.len(),
            forall|k: int| 0 <= k < lo ==> (#[trigger] self.by_line@[k]).0 < start,
            forall|k: int|
                lo <= k < self.by_line@.len() ==> (#[trigger] self.by_line@[k]).0 >= start,
    {
        let mut lo: usize = 0;
        let mut hi: usize = self.by_line.len();
        while lo < hi
            invariant
                lo <= hi <= self.by_line@.len(),
                lines_rise(self.by_line@),
                forall|k: int| 0 <= k < lo ==> (#[trigger] self.by_line@[k]).0 < start,
                forall|k: int|
                    hi <= k < self.by_line@.len() ==> (#[trigger] self.by_line@[k]).0 >= start,
            decreases hi - lo,
        {
            let mid = lo + (hi - lo) / 2;
            if self.by_line[mid].0 < start {
                assert forall|k: int| 0 <= k <= mid implies (#[trigger] self.by_line@[k]).0
                    < start by {
                    if k < mid {
                        assert(self.by_line@[k].0 <= self.by_line@[mid as int].0);
                    }
                }
                lo = mid + 1;
            } else {
                assert forall|k: int| mid <= k < self.by_line@.len() implies (
                #[trigger] self.by_line@[k]).0 >= start by {
                    if k > mid {
                        assert(self.by_line@[mid as int].0 <= self.by_line@[k].0);
                    }
                }
                hi = mid;
            }
        }
        lo
    }
}

/// One more report in the list of lines and severities.
proof fn lemma_pairs_step(
    before: Seq<(u64, i64)>,
    after: Seq<(u64, i64)>,
    items: Seq<JsonView>,
    i: int,
)
    requires
        0 <= i < items.len(),
        forall|start: int, end: int, severity: i64| #[trigger]
            has_severity(before, start, end, severity) == reported(
                items.take(i),
                start,
                end,
                severity,
            ),
        after == match range_start(items[i]) {
            Some(line) => before.push((line, severity_or_zero(items[i]))),
            None => before,
        },
    ensures
        forall|start: int, end: int, severity: i64| #[trigger]
            has_severity(after, start, end, severity) == reported(
                items.take(i + 1),
                start,
                end,
                severity,
            ),
{
    let front = items.take(i);
    let more = items.take(i + 1);
    assert forall|start: int, end: int, severity: i64| #[trigger]
        has_severity(after, start, end, severity) == reported(more, start, end, severity) by {
        if has_severity(after, start, end, severity) {
            let k = choose|k: int|
                0 <= k < after.len() && start <= (#[trigger] after[k]).0 <= end && after[k].1
                    == severity;
            if k < before.len() {
                assert(before[k] == after[k]);
                assert(has_severity(before, start, end, severity));
            } else {
                assert(more[i] == items[i]);
            }
        }
        if reported(front, start, end, severity) {
            let k = choose|k: int|
                0 <= k < front.len() && range_start(#[trigger] front[k]) is Some && start
                    <= range_start(front[k])->0 <= end && severity_or_zero(front[k]) == severity;
            assert(more[k] == front[k]);
        }
        if reported(more, start, end, severity) {
            let k = choose|k: int|
                0 <= k < more.len() && range_start(#[trigger] more[k]) is Some && start
                    <= range_start(more[k])->0 <= end && severity_or_zero(more[k]) == severity;
            if k < i {
                assert(front[k] == more[k]);
                assert(has_severity(before, start, end, severity));
                let m = choose|m: int|
                    0 <= m < before.len() && start <= (#[trigger] before[m]).0 <= end && before[m].1
                        == severity;
                assert(after[m] == before[m]);
            } else {
                assert(more[k] == items[i]);
                assert(after[before.len() as int] == (
                    range_start(items[i])->0,
                    severity_or_zero(items[i]),
                ));
            }
        }
    }
}

// ---------------------------------------------------------------------------------------------
// Lenses
// ---------------------------------------------------------------------------------------------
/// What stands between the parts of a title.
pub const TITLE_SEP: &'static str = " \u{00B7} ";

/// The number of tactics in words.
pub open spec fn tactics_text(n: nat) -> Seq<char> {
    decimal_of(n) + " tactic"@ + if n == 1 {
        ""@
    } else {
        "s"@
    }
}

/// The title of a lens: how the declaration fares, what it is, and how many tactics it has.
pub open spec fn title_of(d: DeclView, items: Seq<JsonView>) -> Seq<char> {
    let head = status_of(items, d.start_line, d.end_line).sign() + TITLE_SEP@ + d.keyword + " "@
        + d.name;
    if d.tactic_count > 0 {
        head + TITLE_SEP@ + tactics_text(d.tactic_count)
    } else {
        head
    }
}

/// The start of a line.
pub open spec fn line_begin(line: int) -> JsonView {
    JsonView::Object(map!["line"@ => JsonView::Int(line), "character"@ => JsonView::Int(0)])
}

/// The lens above a declaration.
pub open spec fn lens_of(d: DeclView, items: Seq<JsonView>) -> JsonView {
    JsonView::Object(
        map![
            "range"@ => JsonView::Object(
                map!["start"@ => line_begin(d.start_line), "end"@ => line_begin(d.start_line)],
            ),
            "command"@ => JsonView::Object(
                map![
                    "title"@ => JsonView::Str(title_of(d, items)),
                    "command"@ => JsonView::Str("editor.action.peekLocations"@),
                    "arguments"@ => JsonView::Array(Seq::empty()),
                ],
            ),
        ],
    )
}

/// The lenses above declarations.
pub open spec fn lenses_of(decls: Seq<DeclView>, items: Seq<JsonView>) -> Seq<JsonView> {
    decls.map_values(|d: DeclView| lens_of(d, items))
}

fn make_line_begin(line: u64) -> (r: Json)
    ensures
        r@ == line_begin(line as int),
{
    Json::object().with("line", Json::number(line)).with("character", Json::number(0))
}

fn make_lens(d: &Declaration, status: Status) -> (r: Json)
    ensures
        forall|items: Seq<JsonView>|
            status == #[trigger] status_of(items, d.view().start_line, d.view().end_line) ==> r@
                == lens_of(d.view(), items),
{
    let mut title = status.glyph().to_string();
    title.append(TITLE_SEP);
    title.append(d.keyword.as_str());
    title.append(" ");
    title.append(d.name.as_str());
    if d.tactic_count > 0 {
        title.append(TITLE_SEP);
        let mut tactics = String::new();
        push_decimal(&mut tactics, d.tactic_count as u64);
        tactics.append(" tactic");
        if d.tactic_count != 1 {
            tactics.append("s");
        } else {
            tactics.append("");
        }
        assert(tactics@ =~= tactics_text(d.tactic_count as nat));
        title.append(tactics.as_str());
    }
    let r = Json::object().with(
        "range",
        Json::object().with("start", make_line_begin(d.start_line)).with(
            "end",
            make_line_begin(d.start_line),
        ),
    ).with(
        "command",
        Json::object().with("title", Json::Str(title)).with(
            "command",
            Json::text("editor.action.peekLocations"),
        ).with("arguments", Json::array()),
    );
    assert forall|items: Seq<JsonView>|
        status == #[trigger] status_of(items, d.view().start_line, d.view().end_line) implies r@
        == lens_of(d.view(), items) by {
        assert(title@ =~= title_of(d.view(), items));
    }
    r
}

/// The lenses above declarations.
pub fn make_lenses(decls: &Vec<Declaration>, diagnostics: &Vec<Json>) -> (out: Vec<Json>)
    ensures
        items_view(out@) == lenses_of(decls_view(decls@), items_view(diagnostics@)),
{
    let ghost items = items_view(diagnostics@);
    let index = DiagnosticIndex::build(diagnostics);
    let mut out: Vec<Json> = Vec::new();
    let mut i: usize = 0;
    while i < decls.len()
        invariant
            i <= decls.len(),
            out.len() == i,
            index.wf(),
            forall|start: int, end: int, severity: i64| #[trigger]
                index.has(start, end, severity) == reported(items, start, end, severity),
            forall|k: int| 0 <= k < i ==> (#[trigger] out@[k])@ == lens_of(decls@[k].view(), items),
        decreases decls.len() - i,
    {
        let d = &decls[i];
        let status = index.status(d.start_line, d.end_line);
        assert(status == status_of(items, d.view().start_line, d.view().end_line));
        out.push(make_lens(d, status));
        i += 1;
    }
    proof {
        lemma_items_view(out@);
        assert(items_view(out@) =~= lenses_of(decls_view(decls@), items));
    }
    out
}

/// The declarations of a version of a document.
pub struct DeclsView {
    pub version: i64,
    pub decls: Seq<DeclView>,
}

/// The declarations of the documents.
pub struct DeclCache {
    files: TextMap<(i64, Vec<Declaration>)>,
}

impl View for DeclCache {
    type V = Map<Seq<char>, DeclsView>;

    closed spec fn view(&self) -> Map<Seq<char>, DeclsView> {
        self.files@.map_values(
            |f: (i64, Vec<Declaration>)| DeclsView { version: f.0, decls: decls_view(f.1@) },
        )
    }
}

/// Whether the declarations of a version of a document are kept.
pub open spec fn keeps(files: Map<Seq<char>, DeclsView>, uri: Seq<char>, version: i64) -> bool {
    files.contains_key(uri) && files[uri].version == version
}

/// The declarations that are kept after a document was asked for.
pub open spec fn decls_after(
    state: StateView,
    texts: Texts,
    files: Map<Seq<char>, DeclsView>,
    uri: Seq<char>,
) -> Map<Seq<char>, DeclsView> {
    let version = version_or_zero(state, uri);
    if !keeps(files, uri, version) && texts.contains_key(uri) {
        files.insert(uri, DeclsView { version, decls: declarations_of(texts[uri]) })
    } else {
        files
    }
}

/// The declarations of a document: those that are kept of its version, or else those of its text.
pub open spec fn decls_for(
    state: StateView,
    texts: Texts,
    files: Map<Seq<char>, DeclsView>,
    uri: Seq<char>,
) -> Seq<DeclView> {
    if keeps(files, uri, version_or_zero(state, uri)) {
        files[uri].decls
    } else if texts.contains_key(uri) {
        declarations_of(texts[uri])
    } else {
        Seq::empty()
    }
}

impl DeclCache {
    pub fn new() -> (r: DeclCache)
        ensures
            r@ == Map::<Seq<char>, DeclsView>::empty(),
    {
        let r = DeclCache { files: TextMap::new() };
        assert(r@ =~= Map::empty());
        r
    }

    /// Forgets the declarations of a document that was closed.
    pub fn invalidate(&mut self, uri: &str)
        ensures
            final(self)@ == old(self)@.remove(uri@),
    {
        let _ = self.files.remove(uri);
        assert(self@ =~= old(self)@.remove(uri@));
    }

    /// Finds the declarations of a document, unless those of its version are kept already.
    fn refresh(&mut self, state: &StateHandle, documents: &mut Documents, uri: &str)
        requires
            old(documents).wf(),
        ensures
            final(documents).wf(),
            final(documents)@ == old(documents)@,
            final(self)@ == decls_after(state@, old(documents)@, old(self)@, uri@),
    {
        let version = match state.version_for(uri) {
            Some(v) => v,
            None => 0,
        };
        let kept = match self.files.get(uri) {
            Some(f) => f.0 == version,
            None => false,
        };
        if kept {
            return;
        }
        if let Some(text) = documents.full_text(uri) {
            let decls = find_declarations(text.as_str());
            let _ = self.files.insert(uri.to_string(), (version, decls));
            assert(self@ =~= decls_after(state@, old(documents)@, old(self)@, uri@));
        }
    }

    /// The lenses of a document.
    pub fn compute(
        &mut self,
        state: &StateHandle,
        documents: &mut Documents,
        uri: &str,
    ) -> (out: Vec<Json>)
        requires
            old(documents).wf(),
        ensures
            final(documents).wf(),
            final(documents)@ == old(documents)@,
            final(self)@ == decls_after(state@, old(documents)@, old(self)@, uri@),
            items_view(out@) == lenses_of(
                decls_for(state@, old(documents)@, old(self)@, uri@),
                state@.diagnostics_of(uri@),
            ),
    {
        self.refresh(state, documents, uri);
        let diagnostics = state.diagnostics_for(uri);
        let version = match state.version_for(uri) {
            Some(v) => v,
            None => 0,
        };
        match self.files.get(uri) {
            Some(f) => if f.0 == version {
                assert(self@[uri@].decls == decls_view(f.1@));
                return make_lenses(&f.1, &diagnostics);
            },
            None => {},
        }
        assert(!keeps(self@, uri@, version));
        assert(decls_for(state@, old(documents)@, old(self)@, uri@) =~= Seq::empty());
        let out: Vec<Json> = Vec::new();
        assert(lenses_of(Seq::<DeclView>::empty(), state@.diagnostics_of(uri@)) =~= Seq::empty());
        out
    }
}

/// Answers a request for lenses. One without a document gets none.
pub fn handle_request(
    cache: &mut DeclCache,
    state: &StateHandle,
    documents: &mut Documents,
    params: &Json,
) -> (r: Json)
    requires
        old(documents).wf(),
    ensures
        final(documents).wf(),
        final(documents)@ == old(documents)@,
        match str_in(params@.get2("textDocument"@, "uri"@)) {
            Some(uri) => final(cache)@ == decls_after(state@, old(documents)@, old(cache)@, uri)
                && r@ == JsonView::Array(
                lenses_of(
                    decls_for(state@, old(documents)@, old(cache)@, uri),
                    state@.diagnostics_of(uri),
                ),
            ),
            None => final(cache)@ == old(cache)@ && r@ == JsonView::Array(Seq::empty()),
        },
{
    match opt_str(params.get2("textDocument", "uri")) {
        Some(uri) => Json::Array(cache.compute(state, documents, uri)),
        None => Json::array(),
    }
}

// ---------------------------------------------------------------------------------------------
// Refreshing
// ---------------------------------------------------------------------------------------------
/// How long refreshes are held back, in milliseconds.
pub const REFRESH_DEBOUNCE_MILLIS: u64 = 300;

/// What the worker for lenses does on an event, and whether a refresh is held back afterwards.
pub open spec fn lens_refresh(pending: bool, h: HappeningView) -> (bool, RefreshView) {
    match h {
        HappeningView::State(EventView::ProgressChanged(_)) => (true, RefreshView::Nothing),
        HappeningView::State(EventView::DiagnosticsChanged(_)) => (true, RefreshView::Nothing),
        HappeningView::State(EventView::DidClose(uri)) => (pending, RefreshView::Forget(uri)),
        HappeningView::State(EventView::DidOpen(_)) => (pending, RefreshView::Nothing),
        HappeningView::Lagged => (pending, RefreshView::Nothing),
        HappeningView::Closed => (pending, RefreshView::Stop),
        HappeningView::Elapsed => if pending {
            (false, RefreshView::Refresh)
        } else {
            (false, RefreshView::Nothing)
        },
    }
}

/// What the worker for lenses does on an event, and whether a refresh is held back afterwards.
pub fn refresh_step(pending: bool, h: &Happening) -> (r: (bool, RefreshAction))
    ensures
        (r.0, r.1@) == lens_refresh(pending, h@),
{
    match h {
        Happening::State(StateEvent::ProgressChanged { .. }) => (true, RefreshAction::Nothing),
        Happening::State(StateEvent::DiagnosticsChanged { .. }) => (true, RefreshAction::Nothing),
        Happening::State(StateEvent::DidClose { uri }) => (
            pending,
            RefreshAction::Forget(uri.clone()),
        ),
        Happening::State(StateEvent::DidOpen { .. }) => (pending, RefreshAction::Nothing),
        Happening::Lagged => (pending, RefreshAction::Nothing),
        Happening::Closed => (pending, RefreshAction::Stop),
        Happening::Elapsed => if pending {
            (false, RefreshAction::Refresh)
        } else {
            (false, RefreshAction::Nothing)
        },
    }
}

// ---------------------------------------------------------------------------------------------
// Laws
// ---------------------------------------------------------------------------------------------
/// The words that open a declaration.
pub open spec fn decl_word(word: Seq<char>) -> bool {
    word == "theorem"@ || word == "lemma"@ || word == "example"@ || word == "def"@ || word
        == "instance"@ || word == "abbrev"@
}

/// Whether a line starts with a word that white space follows.
pub open spec fn line_opens_with(line: Seq<char>, word: Seq<char>) -> bool {
    line.len() > word.len() && line.take(word.len() as int) == word && is_white(
        line[word.len() as int],
    )
}

/// The characters between which a name stands.
pub open spec fn parts_names(c: char) -> bool {
    is_white(c) || c == ':' || c == '('
}

proof fn lemma_keyword_table()
    ensures
        DECL_KEYWORDS@.len() == 6,
        DECL_KEYWORDS@[0]@ == "theorem"@,
        DECL_KEYWORDS@[1]@ == "lemma"@,
        DECL_KEYWORDS@[2]@ == "example"@,
        DECL_KEYWORDS@[3]@ == "def"@,
        DECL_KEYWORDS@[4]@ == "instance"@,
        DECL_KEYWORDS@[5]@ == "abbrev"@,
{
}

/// A declaration word is not empty and has no white space in it.
pub proof fn lemma_decl_word(word: Seq<char>, k: int)
    requires
        decl_word(word),
    ensures
        word.len() > 0,
        0 <= k < word.len() ==> !is_white(word[k]),
{
    reveal_strlit("theorem");
    reveal_strlit("lemma");
    reveal_strlit("example");
    reveal_strlit("def");
    reveal_strlit("instance");
    reveal_strlit("abbrev");
}

proof fn lemma_one_word(s: Seq<char>, a: Seq<char>, b: Seq<char>)
    requires
        decl_word(a),
        decl_word(b),
        opens_with(s, a),
        opens_with(s, b),
    ensures
        a == b,
{
    if a.len() < b.len() {
        lemma_decl_word(b, a.len() as int);
        assert(s.take(b.len() as int)[a.len() as int] == s[a.len() as int]);
        assert(b =~= s.take(b.len() as int));
    } else if b.len() < a.len() {
        lemma_decl_word(a, b.len() as int);
        assert(s.take(a.len() as int)[b.len() as int] == s[b.len() as int]);
        assert(a =~= s.take(a.len() as int));
    } else {
        assert(a =~= s.take(a.len() as int));
        assert(b =~= s.take(b.len() as int));
    }
}

/// The keyword of a line is the word that opens it.
pub proof fn lemma_keyword_of(line: Seq<char>, word: Seq<char>)
    ensures
        decl_word(word) && line_opens_with(line, word) ==> keyword_of(line) == Some(word),
        keyword_of(line) == Some(word) ==> decl_word(word) && line_opens_with(line, word),
{
    lemma_keyword_table();
    reveal_with_fuel(keyword_from, 7);
    assert(line_opens_with(line, word) <==> opens_with(line, word)) by {
        if line.len() > word.len() {
            assert(word.is_prefix_of(line) <==> line.take(word.len() as int) == word) by {
                assert(line.take(word.len() as int) =~= line.subrange(0, word.len() as int));
            }
        }
    }
    match keyword_of(line) {
        Some(kw) => {
            assert(decl_word(kw) && opens_with(line, kw));
            if decl_word(word) && opens_with(line, word) {
                lemma_one_word(line, kw, word);
            }
        },
        None => {},
    }
}

proof fn lemma_every_opening(lines: Seq<Seq<char>>, k: int, line: int)
    requires
        0 <= k <= line < lines.len(),
        opening(lines[line]) is Some,
    ensures
        openings(lines, k).contains(line),
    decreases lines.len() - k,
{
    let all = openings(lines, k);
    if k == line {
        assert(all[0] == line);
    } else {
        lemma_every_opening(lines, k + 1, line);
        let rest = openings(lines, k + 1);
        let i = choose|i: int| 0 <= i < rest.len() && rest[i] == line;
        if opening(lines[k]) is Some {
            assert(all[i + 1] == line);
        }
    }
}

/// Every line that starts with a declaration word opens a declaration, and nothing else does.
pub proof fn law_declarations_are_found(text: Seq<char>, line: int, word: Seq<char>)
    requires
        0 <= line < split_of(text, '\n').len(),
        decl_word(word),
        line_opens_with(split_of(text, '\n')[line], word),
    ensures
        exists|i: int|
            0 <= i < declarations_of(text).len() && (#[trigger] declarations_of(text)[i]).start_line
                == line && declarations_of(text)[i].keyword == word,
{
    let lines = split_of(text, '\n');
    let starts = openings(lines, 0);
    lemma_keyword_of(lines[line], word);
    lemma_every_opening(lines, 0, line);
    let i = choose|i: int| 0 <= i < starts.len() && starts[i] == line;
    assert(declarations_of(text)[i].start_line == line);
}

/// Every declaration stands on a line that starts with its keyword.
pub proof fn law_declarations_start_with_their_keyword(text: Seq<char>, i: int)
    requires
        0 <= i < declarations_of(text).len(),
    ensures
        ({
            let d = declarations_of(text)[i];
            &&& 0 <= d.start_line < split_of(text, '\n').len()
            &&& decl_word(d.keyword)
            &&& line_opens_with(split_of(text, '\n')[d.start_line], d.keyword)
        }),
{
    let lines = split_of(text, '\n');
    lemma_openings(lines, 0);
    let start = openings(lines, 0)[i];
    lemma_keyword_of(lines[start], keyword_of(lines[start])->0);
}

proof fn lemma_name_stop(s: Seq<char>, i: int, ends: bool, stop: int)
    requires
        0 <= i <= stop <= s.len(),
        forall|k: int| i <= k < stop ==> ends_name(#[trigger] s[k]) != ends,
        stop < s.len() ==> ends_name(s[stop]) == ends,
    ensures
        name_stop(s, i, ends) == stop,
    decreases stop - i,
{
    if i < stop {
        assert(ends_name(s[i]) != ends);
        lemma_name_stop(s, i + 1, ends, stop);
    }
}

/// The name in a text is what stands between separators, as far as it goes.
proof fn lemma_name_in(gap: Seq<char>, name: Seq<char>, rest: Seq<char>)
    requires
        forall|k: int| 0 <= k < gap.len() ==> parts_names(#[trigger] gap[k]),
        forall|k: int| 0 <= k < name.len() ==> !parts_names(#[trigger] name[k]),
        rest.len() > 0 ==> parts_names(rest[0]),
        name.len() == 0 ==> rest.len() == 0,
    ensures
        name_in(gap + name + rest) == if name.len() > 0 {
            name
        } else {
            "?"@
        },
{
    let s = gap + name + rest;
    let a = gap.len() as int;
    let b = a + name.len();
    assert forall|k: int| 0 <= k < a implies ends_name(#[trigger] s[k]) by {
        assert(s[k] == gap[k]);
    }
    assert forall|k: int| a <= k < b implies !ends_name(#[trigger] s[k]) by {
        assert(s[k] == name[k - a]);
    }
    if name.len() > 0 {
        assert(s[a] == name[0]);
    }
    lemma_name_stop(s, 0, false, a);
    if rest.len() > 0 {
        assert(s[b] == rest[0]);
    }
    lemma_name_stop(s, a, true, b);
    assert(s.subrange(a, b) =~= name);
}

/// The name of a declaration is what stands behind its keyword, up to white space, a colon or a
/// parenthesis; where nothing stands there a question mark takes its place.
pub proof fn law_declarations_have_their_name(
    text: Seq<char>,
    i: int,
    gap: Seq<char>,
    name: Seq<char>,
    rest: Seq<char>,
)
    requires
        0 <= i < declarations_of(text).len(),
        ({
            let d = declarations_of(text)[i];
            split_of(text, '\n')[d.start_line] == d.keyword + gap + name + rest
        }),
        forall|k: int| 0 <= k < gap.len() ==> parts_names(#[trigger] gap[k]),
        forall|k: int| 0 <= k < name.len() ==> !parts_names(#[trigger] name[k]),
        rest.len() > 0 ==> parts_names(rest[0]),
        name.len() == 0 ==> rest.len() == 0,
    ensures
        declarations_of(text)[i].name == if name.len() > 0 {
            name
        } else {
            "?"@
        },
{
    let lines = split_of(text, '\n');
    lemma_openings(lines, 0);
    let start = openings(lines, 0)[i];
    let line = lines[start];
    let kw = keyword_of(line)->0;
    let tail = line.skip(kw.len() as int);
    assert(tail =~= gap + name + rest);
    law_trim_start(tail);
    let t = trim_start_of(tail);
    let cut = tail.len() - t.len();
    if cut > gap.len() {
        if name.len() > 0 {
            assert(tail[gap.len() as int] == name[0]);
        }
    }
    assert(t =~= gap.skip(cut) + name + rest);
    assert forall|k: int| 0 <= k < gap.skip(cut).len() implies parts_names(
        #[trigger] gap.skip(cut)[k],
    ) by {
        assert(gap.skip(cut)[k] == gap[k + cut]);
    }
    lemma_name_in(gap.skip(cut), name, rest);
}

/// Whether a line is one that is counted: it is neither blank nor starts with a comment or an
/// alternative.
pub open spec fn is_counted(line: Seq<char>) -> bool {
    let t = trim_of(line);
    &&& t.len() > 0
    &&& !(t.len() >= 2 && t[0] == '-' && t[1] == '-')
    &&& !(t.len() >= 2 && t[0] == '/' && t[1] == '-')
    &&& t[0] != '|'
}

proof fn lemma_is_counted(line: Seq<char>)
    ensures
        is_counted(line) == is_tactic(line),
{
    reveal_strlit("--");
    reveal_strlit("/-");
    reveal_strlit("|");
    let t = trim_of(line);
    lemma_prefix("--"@, t);
    lemma_prefix("/-"@, t);
    lemma_prefix("|"@, t);
    assert("--"@[0] == '-' && "--"@[1] == '-' && "--"@.len() == 2);
    assert("/-"@[0] == '/' && "/-"@[1] == '-' && "/-"@.len() == 2);
    assert("|"@[0] == '|' && "|"@.len() == 1);
}

proof fn lemma_tactics_between(lines: Seq<Seq<char>>, start: int, end: int)
    requires
        0 <= start <= end + 1 <= lines.len(),
    ensures
        tactics_between(lines, start, end) == lines.subrange(start, end + 1).filter(
            |l: Seq<char>| is_counted(l),
        ).len(),
    decreases end + 1 - start,
{
    let counted = |l: Seq<char>| is_counted(l);
    reveal(Seq::filter);
    let part = lines.subrange(start, end + 1);
    if start <= end {
        lemma_tactics_between(lines, start + 1, end);
        let one = seq![lines[start]];
        let rest = lines.subrange(start + 1, end + 1);
        assert(part =~= one + rest);
        Seq::filter_distributes_over_add(one, rest, counted);
        one.drop_last().lemma_filter_len(counted);
        lemma_is_counted(lines[start]);
        assert(one.filter(counted).len() == if is_counted(lines[start]) {
            1nat
        } else {
            0nat
        });
    } else {
        assert(part =~= Seq::empty());
    }
}

/// The tactics of a declaration with a tactic proof are its lines behind the first one that are
/// neither blank nor a comment nor an alternative. It has a tactic proof if any of its lines has
/// `:= by` in it or is the word `by`; without one no tactics count.
pub proof fn law_tactics_are_counted(text: Seq<char>, i: int)
    requires
        0 <= i < declarations_of(text).len(),
    ensures
        ({
            let d = declarations_of(text)[i];
            let lines = split_of(text, '\n');
            let proved = exists|k: int, j: int|
                d.start_line <= k <= d.end_line && 0 <= j && j + 5 <= lines[k].len()
                    && #[trigger] lines[k].subrange(j, j + 5) == ":= by"@;
            let opened = exists|k: int|
                d.start_line <= k <= d.end_line && trim_of(#[trigger] lines[k]) == "by"@;
            d.tactic_count == if proved || opened {
                lines.subrange(d.start_line + 1, d.end_line + 1).filter(
                    |l: Seq<char>| is_counted(l),
                ).len()
            } else {
                0
            }
        }),
{
    let d = declarations_of(text)[i];
    let lines = split_of(text, '\n');
    law_declarations_in_order(text, i);
    lemma_tactics_between(lines, d.start_line + 1, d.end_line);
    let start = d.start_line;
    let end = d.end_line;
    reveal_strlit(":= by");
    let proved = exists|k: int, j: int|
        start <= k <= end && 0 <= j && j + 5 <= lines[k].len() && #[trigger] lines[k].subrange(
            j,
            j + 5,
        ) == ":= by"@;
    let opened = exists|k: int| start <= k <= end && trim_of(#[trigger] lines[k]) == "by"@;
    if proved {
        let (k, j) = choose|k: int, j: int|
            start <= k <= end && 0 <= j && j + 5 <= lines[k].len() && #[trigger] lines[k].subrange(
                j,
                j + 5,
            ) == ":= by"@;
        assert(holds_at(lines[k], ":= by"@, j));
        assert(starts_tactics(lines[k]));
        assert(has_tactics(lines, start, end));
    }
    if opened {
        let k = choose|k: int| start <= k <= end && trim_of(#[trigger] lines[k]) == "by"@;
        assert(starts_tactics(lines[k]));
        assert(has_tactics(lines, start, end));
    }
    if has_tactics(lines, start, end) {
        let k = choose|k: int|
            start <= k <= end && 0 <= k < lines.len() && starts_tactics(#[trigger] lines[k]);
        if holds(lines[k], ":= by"@) {
            let j = choose|j: int| holds_at(lines[k], ":= by"@, j);
            assert(lines[k].subrange(j, j + 5) == ":= by"@);
        }
    }
}

/// Whether a report of a severity starts on one of some lines.
pub open spec fn starts_on(items: Seq<JsonView>, first: int, last: int, severity: int) -> bool {
    exists|i: int|
        0 <= i < items.len() && (#[trigger] items[i]).get("severity"@) == Some(
            JsonView::Int(severity),
        ) && (match items[i].get3("range"@, "start"@, "line"@) {
            Some(JsonView::Int(line)) => 0 <= line <= u64::MAX && first <= line <= last,
            _ => false,
        })
}

/// A declaration fares badly if an error starts on one of its lines, else with a warning if one
/// starts there, and else well.
pub proof fn law_status_is_the_worst_report(items: Seq<JsonView>, first: int, last: int)
    ensures
        starts_on(items, first, last, 1) ==> status_of(items, first, last).sign() == "\u{2717}"@,
        !starts_on(items, first, last, 1) && starts_on(items, first, last, 2) ==> status_of(
            items,
            first,
            last,
        ).sign() == "\u{26A0}"@,
        !starts_on(items, first, last, 1) && !starts_on(items, first, last, 2) ==> status_of(
            items,
            first,
            last,
        ).sign() == "\u{2713}"@,
{
    lemma_starts_on(items, first, last, SEVERITY_ERROR);
    lemma_starts_on(items, first, last, SEVERITY_WARNING);
}

proof fn lemma_starts_on(items: Seq<JsonView>, first: int, last: int, severity: i64)
    requires
        severity != 0,
    ensures
        starts_on(items, first, last, severity as int) == reported(items, first, last, severity),
{
    if starts_on(items, first, last, severity as int) {
        let i = choose|i: int|
            0 <= i < items.len() && (#[trigger] items[i]).get("severity"@) == Some(
                JsonView::Int(severity as int),
            ) && (match items[i].get3("range"@, "start"@, "line"@) {
                Some(JsonView::Int(line)) => 0 <= line <= u64::MAX && first <= line <= last,
                _ => false,
            });
        assert(range_start(items[i]) is Some);
        assert(severity_or_zero(items[i]) == severity);
    }
    if reported(items, first, last, severity) {
        let i = choose|i: int|
            0 <= i < items.len() && range_start(#[trigger] items[i]) is Some && first
                <= range_start(items[i])->0 <= last && severity_or_zero(items[i]) == severity;
        assert(items[i].get("severity"@) == Some(JsonView::Int(severity as int)));
    }
}

/// The title of a lens names the status, the keyword and the name of its declaration and, if there
/// are any, its tactics.
pub proof fn law_titles_say_it_all(d: DeclView, items: Seq<JsonView>)
    ensures
        ({
            let sign = if starts_on(items, d.start_line, d.end_line, 1) {
                "\u{2717}"@
            } else if starts_on(items, d.start_line, d.end_line, 2) {
                "\u{26A0}"@
            } else {
                "\u{2713}"@
            };
            let tactics = if d.tactic_count == 0 {
                Seq::empty()
            } else if d.tactic_count == 1 {
                " \u{00B7} 1 tactic"@
            } else {
                " \u{00B7} "@ + decimal_of(d.tactic_count) + " tactics"@
            };
            lens_of(d, items).get2("command"@, "title"@) == Some(
                JsonView::Str(sign + " \u{00B7} "@ + d.keyword + " "@ + d.name + tactics),
            )
        }),
{
    law_status_is_the_worst_report(items, d.start_line, d.end_line);
    reveal_strlit(" \u{00B7} ");
    reveal_strlit(" \u{00B7} 1 tactic");
    reveal_strlit(" tactic");
    reveal_strlit(" tactics");
    reveal_strlit("s");
    reveal_strlit("");
    reveal_strlit("title");
    reveal_strlit("command");
    reveal_strlit("arguments");
    reveal_strlit("range");
    assert("title"@.len() == 5 && "command"@.len() == 7 && "arguments"@.len() == 9);
    assert("range"@.len() == 5);
    assert(TITLE_SEP@ == " \u{00B7} "@);
    let head = status_of(items, d.start_line, d.end_line).sign() + TITLE_SEP@ + d.keyword + " "@
        + d.name;
    let title = title_of(d, items);
    if d.tactic_count == 0 {
        assert(title =~= head + Seq::empty());
    } else if d.tactic_count == 1 {
        assert(decimal_of(1) == seq![digit_char(1)]);
        assert(digit_char(1) == '1');
        assert(TITLE_SEP@ + tactics_text(1) =~= " \u{00B7} 1 tactic"@);
        assert(title =~= head + " \u{00B7} 1 tactic"@);
    } else {
        assert(" tactic"@ + "s"@ =~= " tactics"@);
        assert(title =~= head + (" \u{00B7} "@ + decimal_of(d.tactic_count) + " tactics"@));
    }
}

/// There is one lens for each declaration, in order, at the start of its first line.
pub proof fn law_every_declaration_has_a_lens(decls: Seq<DeclView>, items: Seq<JsonView>, i: int)
    requires
        0 <= i < decls.len(),
    ensures
        lenses_of(decls, items).len() == decls.len(),
        lenses_of(decls, items)[i] == lens_of(decls[i], items),
        lens_of(decls[i], items).get3("range"@, "start"@, "line"@) == Some(
            JsonView::Int(decls[i].start_line),
        ),
        lens_of(decls[i], items).get3("range"@, "end"@, "line"@) == Some(
            JsonView::Int(decls[i].start_line),
        ),
        lens_of(decls[i], items).get3("range"@, "start"@, "character"@) == Some(JsonView::Int(0)),
        lens_of(decls[i], items).get3("range"@, "end"@, "character"@) == Some(JsonView::Int(0)),
        lens_of(decls[i], items).get2("command"@, "command"@) == Some(
            JsonView::Str("editor.action.peekLocations"@),
        ),
        lens_of(decls[i], items).get2("command"@, "arguments"@) == Some(
            JsonView::Array(Seq::empty()),
        ),
{
    reveal_strlit("range");
    reveal_strlit("command");
    reveal_strlit("title");
    reveal_strlit("arguments");
    reveal_strlit("start");
    reveal_strlit("end");
    reveal_strlit("line");
    reveal_strlit("character");
    assert("range"@.len() == 5 && "command"@.len() == 7 && "title"@.len() == 5);
    assert("arguments"@.len() == 9 && "start"@.len() == 5 && "end"@.len() == 3);
    assert("line"@.len() == 4 && "character"@.len() == 9);
}

/// The lenses of a document whose text is known are those of the text, unless its declarations are
/// kept in the same version; a version that is asked for again gives the same declarations.
pub proof fn law_lenses_follow_the_version(
    state: StateView,
    texts: Texts,
    files: Map<Seq<char>, DeclsView>,
    uri: Seq<char>,
    version: i64,
)
    requires
        state.versions.contains_key(uri) ==> state.versions[uri] == version,
        !state.versions.contains_key(uri) ==> version == 0,
    ensures
        texts.contains_key(uri) && (files.contains_key(uri) ==> files[uri].version != version)
            ==> decls_for(state, texts, files, uri) == declarations_of(texts[uri]),
        files.contains_key(uri) && files[uri].version == version ==> decls_for(
            state,
            texts,
            files,
            uri,
        ) == files[uri].decls,
        decls_for(state, texts, decls_after(state, texts, files, uri), uri) == decls_for(
            state,
            texts,
            files,
            uri,
        ),
        !texts.contains_key(uri) ==> decls_after(state, texts, files, uri) == files,
        forall|other: Seq<char>|
            other != uri ==> {
                &&& decls_after(state, texts, files, uri).contains_key(other)
                    == files.contains_key(other)
                &&& #[trigger] decls_after(state, texts, files, uri)[other] == files[other]
            },
{
}

/// A change is followed by one refresh, when the time has come, and without a change there is none.
pub proof fn law_changes_are_refreshed_once(pending: bool, h: HappeningView, uri: Seq<char>)
    ensures
        lens_refresh(
            lens_refresh(pending, HappeningView::State(EventView::ProgressChanged(uri))).0,
            HappeningView::Elapsed,
        ) == (false, RefreshView::Refresh),
        lens_refresh(
            lens_refresh(pending, HappeningView::State(EventView::DiagnosticsChanged(uri))).0,
            HappeningView::Elapsed,
        ) == (false, RefreshView::Refresh),
        lens_refresh(false, HappeningView::Elapsed) == (false, RefreshView::Nothing),
        lens_refresh(pending, h).1 == RefreshView::Refresh ==> pending && h
            == HappeningView::Elapsed,
        lens_refresh(pending, h).0 && !pending ==> h is State,
        pending && h != HappeningView::Elapsed ==> lens_refresh(pending, h).0,
        lens_refresh(pending, HappeningView::State(EventView::DidClose(uri))).1
            == RefreshView::Forget(uri),
        lens_refresh(pending, h).1 == RefreshView::Stop <==> h == HappeningView::Closed,
{
}

/// What is kept of a document after its lenses were asked for is what was found in its text at its
/// version, and what is kept of the other documents stays.
pub proof fn law_what_is_kept_is_of_the_version(
    state: StateView,
    texts: Texts,
    files: Map<Seq<char>, DeclsView>,
    uri: Seq<char>,
    version: i64,
    other: Seq<char>,
)
    requires
        state.versions.contains_key(uri) && state.versions[uri] == version
            || !state.versions.contains_key(uri) && version == 0,
        other != uri,
    ensures
        ({
            let after = decls_after(state, texts, files, uri);
            &&& texts.contains_key(uri) ==> after.contains_key(uri) && after[uri].version == version
            &&& texts.contains_key(uri) ==> decls_for(state, texts, files, uri) == after[uri].decls
            &&& texts.contains_key(uri) && !(files.contains_key(uri) && files[uri].version
                == version) ==> after[uri].decls == declarations_of(texts[uri])
            &&& files.contains_key(uri) && files[uri].version == version ==> after == files
            &&& !texts.contains_key(uri) ==> after == files
            &&& after.contains_key(other) == files.contains_key(other)
            &&& files.contains_key(other) ==> after[other] == files[other]
        }),
{
}

} // verus!
