//! Hints at the end of a line: what a tactic did to the goals, and what the server reports there.
use crate::documents::{line_count_of, line_of, trimmed_line, Documents, Texts};
use crate::hover::{at_position, position_params};
use crate::json::{
    array_in, i64_in, items_view, lemma_items_view, option_view, push_items, ref_view, str_in,
    text_view, u64_in, Json, JsonView,
};
use crate::lsp::{
    collect_texts, law_texts_are_picked, result_view, texts_in, ErrorView, ResponseError,
};
use crate::order::{law_order, no_later, order_of, stable_order};
use crate::probes::{after_lookup, after_store, copy_value, kept, ProbeCache};
use crate::semantic_tokens::version_or_zero;
use crate::snoop::{opt_i64, opt_str, opt_u64};
use crate::state::{
    at_line, frontier, line_in_work, EventView, StateEvent, StateHandle, StateView, SEVERITY_ERROR,
    SEVERITY_WARNING,
};
use crate::text::{
    appended, chars_of, decimal_of, find_char, first_index, holds, holds_at, is_ascii_letter,
    is_digit, is_white, join, joined, law_decimal, law_first_index, law_joined_holds_each,
    law_lines, law_trim, law_trim_end, law_trim_start, law_trim_start_char, law_words, lemma_prefix,
    lines, lines_of, matches_at, names_view, push_decimal, same_text, split_whitespace, starts_with,
    text_of, trim, trim_of, trim_start, trim_start_char, trim_start_matches, trim_start_of,
    utf16_len, views, words_of,
};
use vstd::prelude::*;
use vstd::slice::slice_subrange;
use vstd::string::StringExecFns;

verus! {

// ---------------------------------------------------------------------------------------------
// Goals
// ---------------------------------------------------------------------------------------------
/// How long a target may be to stand in a hint whole, in characters.
pub const INLINE_TARGET_LIMIT: usize = 70;

/// Whether a line of a goal holds its target.
pub open spec fn is_target_line(line: Seq<char>) -> bool {
    line.len() > 0 && line[0] == '\u{22A2}'
}

/// The index of the first line with a target, or the number of lines.
pub open spec fn target_index(ls: Seq<Seq<char>>) -> nat
    decreases ls.len(),
{
    if ls.len() == 0 || is_target_line(ls[0]) {
        0
    } else {
        1 + target_index(ls.drop_first())
    }
}

/// The target of a goal, without its sign; a goal without one is taken whole.
pub open spec fn target_of(goal: Seq<char>) -> Seq<char> {
    let ls = lines_of(goal);
    let i = target_index(ls) as int;
    if i < ls.len() {
        trim_of(trim_start_char(ls[i], '\u{22A2}'))
    } else {
        goal
    }
}

/// The targets of goals.
pub open spec fn targets_of(goals: Seq<Seq<char>>) -> Seq<Seq<char>> {
    goals.map_values(|g: Seq<char>| target_of(g))
}

/// The names that a line of a goal introduces: the words in front of its first colon. A line that
/// names a case introduces none.
pub open spec fn names_on_line(line: Seq<char>) -> Seq<Seq<char>> {
    let t = trim_of(line);
    if t.len() == 0 || "case "@.is_prefix_of(t) {
        Seq::empty()
    } else {
        words_of(t.take(first_index(t, ':') as int))
    }
}

/// The names that several lines of a goal introduce.
pub open spec fn names_on_lines(ls: Seq<Seq<char>>) -> Seq<Seq<char>>
    decreases ls.len(),
{
    if ls.len() == 0 {
        Seq::empty()
    } else {
        names_on_lines(ls.drop_last()) + names_on_line(ls.last())
    }
}

/// The names of a goal's hypotheses: those that the lines in front of its target introduce.
pub open spec fn hypotheses_of(goal: Seq<char>) -> Seq<Seq<char>> {
    let ls = lines_of(goal);
    names_on_lines(ls.take(target_index(ls) as int))
}

/// The names of the hypotheses of the first of some goals.
pub open spec fn first_hypotheses(goals: Seq<Seq<char>>) -> Seq<Seq<char>> {
    if goals.len() > 0 {
        hypotheses_of(goals[0])
    } else {
        Seq::empty()
    }
}

/// The names that are not among others, in order.
pub open spec fn names_not_in(names: Seq<Seq<char>>, known: Seq<Seq<char>>) -> Seq<Seq<char>>
    decreases names.len(),
{
    if names.len() == 0 {
        Seq::empty()
    } else {
        let front = names_not_in(names.drop_last(), known);
        if known.contains(names.last()) {
            front
        } else {
            front.push(names.last())
        }
    }
}

/// A target, cut off where it is too long.
pub open spec fn shortened(target: Seq<char>) -> Seq<char> {
    if target.len() <= INLINE_TARGET_LIMIT {
        target
    } else {
        target.take(INLINE_TARGET_LIMIT - 1) + "\u{2026}"@
    }
}

/// What a line did to the goals, if it shows: whether it closed them, the hypotheses that it
/// added, the target that it left, or how many goals it left.
pub open spec fn label_of(prev: Seq<Seq<char>>, curr: Seq<Seq<char>>) -> Option<Seq<char>> {
    let before = targets_of(prev);
    let after = targets_of(curr);
    if after.len() == 0 {
        if before.len() > 0 {
            Some(" \u{2713}"@)
        } else {
            None
        }
    } else if before == after {
        let added = names_not_in(first_hypotheses(curr), first_hypotheses(prev));
        if added.len() == 0 {
            None
        } else {
            Some(" + "@ + joined(added, ", "@))
        }
    } else if after.len() == 1 {
        let sign = if before.len() > 0 {
            " \u{2192} \u{22A2} "@
        } else {
            " \u{22A2} "@
        };
        Some(sign + shortened(after[0]))
    } else {
        Some(" "@ + decimal_of(after.len()) + " goals"@)
    }
}

/// The goals in an answer of the server.
pub open spec fn goals_in(answer: Option<JsonView>) -> Seq<Seq<char>> {
    match answer {
        Some(v) => match array_in(v.get("goals"@)) {
            Some(items) => texts_in(items),
            None => Seq::empty(),
        },
        None => Seq::empty(),
    }
}

fn find_target(ls: &Vec<&[char]>) -> (i: usize)
    ensures
        i == target_index(views(ls@)),
        i <= ls.len(),
{
    let ghost all = views(ls@);
    let mut i: usize = 0;
    assert(all.skip(0) =~= all);
    while i < ls.len() && !(ls[i].len() > 0 && ls[i][0] == '\u{22A2}')
        invariant
            i <= ls.len(),
            all == views(ls@),
            target_index(all) == i + target_index(all.skip(i as int)),
        decreases ls.len() - i,
    {
        assert(all.skip(i as int)[0] == ls@[i as int]@);
        assert(all.skip(i as int).drop_first() =~= all.skip(i as int + 1));
        i += 1;
    }
    if i < ls.len() {
        assert(all.skip(i as int)[0] == ls@[i as int]@);
    }
    i
}

/// The target of a goal.
pub fn extract_target(goal: &str) -> (r: String)
    ensures
        r@ == target_of(goal@),
{
    let chars = chars_of(goal);
    let ls = lines(chars.as_slice());
    let i = find_target(&ls);
    if i < ls.len() {
        assert(views(ls@)[i as int] == ls@[i as int]@);
        text_of(trim(trim_start_matches(ls[i], '\u{22A2}')))
    } else {
        goal.to_string()
    }
}

/// Appends texts to a list.
fn push_names(out: &mut Vec<String>, words: &Vec<&[char]>)
    ensures
        names_view(final(out)@) == names_view(old(out)@) + views(words@),
{
    let mut i: usize = 0;
    assert(views(words@).take(0) =~= Seq::empty());
    assert(names_view(out@) =~= names_view(old(out)@) + views(words@).take(0));
    while i < words.len()
        invariant
            i <= words.len(),
            names_view(out@) == names_view(old(out)@) + views(words@).take(i as int),
        decreases words.len() - i,
    {
        let ghost before = out@;
        let w = text_of(words[i]);
        out.push(w);
        i += 1;
        assert(names_view(out@) =~= names_view(before).push(w@));
        assert(views(words@).take(i as int) =~= views(words@).take(i as int - 1).push(w@));
        assert(names_view(out@) =~= names_view(old(out)@) + views(words@).take(i as int));
    }
    assert(views(words@).take(i as int) =~= views(words@));
}

/// The names of a goal's hypotheses.
pub fn hyp_names(goal: &str) -> (out: Vec<String>)
    ensures
        names_view(out@) == hypotheses_of(goal@),
{
    let chars = chars_of(goal);
    let ls = lines(chars.as_slice());
    let ghost all = views(ls@);
    let end = find_target(&ls);
    let mut out: Vec<String> = Vec::new();
    let mut i: usize = 0;
    assert(all.take(0) =~= Seq::empty());
    assert(names_view(out@) =~= Seq::empty());
    while i < end
        invariant
            i <= end <= ls.len(),
            all == views(ls@),
            names_view(out@) == names_on_lines(all.take(i as int)),
        decreases end - i,
    {
        let ghost before = out@;
        assert(all.take(i as int + 1).drop_last() =~= all.take(i as int));
        assert(all.take(i as int + 1).last() == ls@[i as int]@);
        let t = trim(ls[i]);
        if t.len() > 0 && !starts_with(t, "case ") {
            let colon = find_char(t, ':');
            let front = slice_subrange(t, 0, colon);
            assert(front@ =~= t@.take(first_index(t@, ':') as int));
            let words = split_whitespace(front);
            push_names(&mut out, &words);
        }
        i += 1;
        assert(names_view(out@) =~= names_on_lines(all.take(i as int)));
    }
    out
}

/// Whether a list holds a text.
fn holds_name(names: &Vec<String>, name: &str) -> (r: bool)
    ensures
        r == names_view(names@).contains(name@),
{
    let mut i: usize = 0;
    while i < names.len()
        invariant
            i <= names.len(),
            forall|k: int| 0 <= k < i ==> (#[trigger] names@[k])@ != name@,
        decreases names.len() - i,
    {
        if same_text(names[i].as_str(), name) {
            assert(names_view(names@)[i as int] == name@);
            return true;
        }
        i += 1;
    }
    assert forall|k: int| 0 <= k < names_view(names@).len() implies names_view(names@)[k]
        != name@ by {
        assert(names@[k]@ != name@);
    }
    false
}

fn first_hyps(goals: &Vec<String>) -> (out: Vec<String>)
    ensures
        names_view(out@) == first_hypotheses(names_view(goals@)),
{
    if goals.len() > 0 {
        assert(names_view(goals@)[0] == goals@[0]@);
        hyp_names(goals[0].as_str())
    } else {
        let out: Vec<String> = Vec::new();
        assert(names_view(out@) =~= Seq::empty());
        out
    }
}

/// The names of the hypotheses that the first goal has now and had not before.
pub fn added_hyps(prev: &Vec<String>, curr: &Vec<String>) -> (out: Vec<String>)
    ensures
        names_view(out@) == names_not_in(
            first_hypotheses(names_view(curr@)),
            first_hypotheses(names_view(prev@)),
        ),
{
    let known = first_hyps(prev);
    let names = first_hyps(curr);
    let ghost all = names_view(names@);
    let mut out: Vec<String> = Vec::new();
    let mut i: usize = 0;
    assert(all.take(0) =~= Seq::empty());
    assert(names_view(out@) =~= Seq::empty());
    while i < names.len()
        invariant
            i <= names.len(),
            all == names_view(names@),
            names_view(out@) == names_not_in(all.take(i as int), names_view(known@)),
        decreases names.len() - i,
    {
        let ghost before = out@;
        assert(all.take(i as int + 1).drop_last() =~= all.take(i as int));
        assert(all.take(i as int + 1).last() == names@[i as int]@);
        if !holds_name(&known, names[i].as_str()) {
            let name = names[i].clone();
            out.push(name);
            assert(names_view(out@) =~= names_view(before).push(name@));
        }
        i += 1;
    }
    assert(all.take(i as int) =~= all);
    out
}

/// The targets of goals.
pub fn targets(goals: &Vec<String>) -> (out: Vec<String>)
    ensures
        names_view(out@) == targets_of(names_view(goals@)),
{
    let mut out: Vec<String> = Vec::new();
    let mut i: usize = 0;
    while i < goals.len()
        invariant
            i <= goals.len(),
            out.len() == i,
            forall|k: int| 0 <= k < i ==> (#[trigger] out@[k])@ == target_of(goals@[k]@),
        decreases goals.len() - i,
    {
        out.push(extract_target(goals[i].as_str()));
        i += 1;
    }
    assert(names_view(out@) =~= targets_of(names_view(goals@)));
    out
}

/// Whether two lists hold the same texts in the same order.
fn same_names(a: &Vec<String>, b: &Vec<String>) -> (r: bool)
    ensures
        r == (names_view(a@) == names_view(b@)),
{
    if a.len() != b.len() {
        assert(names_view(a@).len() != names_view(b@).len());
        return false;
    }
    let mut i: usize = 0;
    while i < a.len()
        invariant
            i <= a.len(),
            a.len() == b.len(),
            forall|k: int| 0 <= k < i ==> (#[trigger] a@[k])@ == b@[k]@,
        decreases a.len() - i,
    {
        if !same_text(a[i].as_str(), b[i].as_str()) {
            assert(names_view(a@)[i as int] != names_view(b@)[i as int]);
            return false;
        }
        i += 1;
    }
    assert(names_view(a@) =~= names_view(b@));
    true
}

/// What a line did to the goals.
pub fn compute_label(prev: &Vec<String>, curr: &Vec<String>) -> (r: Option<String>)
    ensures
        text_view(r) == label_of(names_view(prev@), names_view(curr@)),
{
    let before = targets(prev);
    let after = targets(curr);
    if after.len() == 0 {
        return if before.len() > 0 {
            Some(" \u{2713}".to_string())
        } else {
            None
        };
    }
    if same_names(&before, &after) {
        let added = added_hyps(prev, curr);
        if added.len() == 0 {
            assert(names_view(added@).len() == 0);
            return None;
        }
        assert(names_view(added@).len() > 0);
        return Some(appended(" + ", join(&added, ", ").as_str()));
    }
    if after.len() == 1 {
        let mut label = if before.len() > 0 {
            " \u{2192} \u{22A2} ".to_string()
        } else {
            " \u{22A2} ".to_string()
        };
        assert(names_view(after@)[0] == after@[0]@);
        let target = chars_of(after[0].as_str());
        if target.len() <= INLINE_TARGET_LIMIT {
            label.append(after[0].as_str());
        } else {
            let cut = slice_subrange(target.as_slice(), 0, INLINE_TARGET_LIMIT - 1);
            assert(cut@ =~= target@.take(INLINE_TARGET_LIMIT - 1));
            label.append(text_of(cut).as_str());
            label.append("\u{2026}");
        }
        let ghost sign = if before@.len() > 0 {
            " \u{2192} \u{22A2} "@
        } else {
            " \u{22A2} "@
        };
        assert(label@ =~= sign + shortened(target@));
        return Some(label);
    }
    let mut label = " ".to_string();
    push_decimal(&mut label, after.len() as u64);
    label.append(" goals");
    Some(label)
}

/// The goals in an answer of the server.
pub fn extract_goal_strs(answer: Option<&Json>) -> (out: Vec<String>)
    ensures
        names_view(out@) == goals_in(ref_view(answer)),
{
    let none: Vec<String> = Vec::new();
    assert(names_view(none@) =~= Seq::empty());
    match answer {
        Some(v) => match v.get("goals") {
            Some(goals) => match goals.as_array() {
                Some(items) => collect_texts(items),
                None => none,
            },
            None => none,
        },
        None => none,
    }
}

// ---------------------------------------------------------------------------------------------
// Reports
// ---------------------------------------------------------------------------------------------
/// The severity of a report, if it has one.
pub open spec fn severity_of(d: JsonView) -> Option<i64> {
    i64_in(d.get("severity"@))
}

/// The message of a report, if it has one.
pub open spec fn message_of(d: JsonView) -> Option<Seq<char>> {
    str_in(d.get("message"@))
}

/// The smallest severity of some reports, which is the worst one.
pub open spec fn worst_severity(items: Seq<JsonView>) -> Option<i64>
    decreases items.len(),
{
    if items.len() == 0 {
        None
    } else {
        let front = worst_severity(items.drop_last());
        match (front, severity_of(items.last())) {
            (Some(a), Some(b)) => if b < a {
                Some(b)
            } else {
                Some(a)
            },
            (Some(a), None) => Some(a),
            (None, b) => b,
        }
    }
}

/// Whether a report says that goals are left.
pub open spec fn says_unsolved(d: JsonView) -> bool {
    message_of(d) matches Some(m) && "unsolved goals"@.is_prefix_of(m)
}

/// Whether one of some reports says that goals are left.
pub open spec fn any_unsolved(items: Seq<JsonView>) -> bool {
    exists|i: int| 0 <= i < items.len() && says_unsolved(#[trigger] items[i])
}

/// The mark of a line by what is reported there.
pub open spec fn marker_of(items: Seq<JsonView>) -> Option<Seq<char>> {
    match worst_severity(items) {
        Some(sev) => if sev == SEVERITY_ERROR {
            if any_unsolved(items) {
                Some(" \u{26A0} unsolved"@)
            } else {
                Some(" \u{2717}"@)
            }
        } else if sev == SEVERITY_WARNING {
            Some(" \u{26A0}"@)
        } else {
            None
        },
        None => None,
    }
}

/// A report in Markdown.
pub open spec fn report_text(d: JsonView) -> Seq<char> {
    let sev = severity_of(d);
    let prefix = if sev == Some(SEVERITY_ERROR) {
        "**error**: "@
    } else if sev == Some(SEVERITY_WARNING) {
        "**warning**: "@
    } else {
        ""@
    };
    prefix + message_of(d)->0
}

/// The reports that have a message, in Markdown.
pub open spec fn report_texts(items: Seq<JsonView>) -> Seq<Seq<char>>
    decreases items.len(),
{
    if items.len() == 0 {
        Seq::empty()
    } else {
        let front = report_texts(items.drop_last());
        if message_of(items.last()) is Some {
            front.push(report_text(items.last()))
        } else {
            front
        }
    }
}

/// What is shown of reports.
pub open spec fn reports_text(items: Seq<JsonView>) -> Seq<char> {
    joined(report_texts(items), "\n\n"@)
}

/// The mark of a line by what is reported there.
pub fn error_marker_for(diagnostics: &Vec<Json>) -> (r: Option<String>)
    ensures
        text_view(r) == marker_of(items_view(diagnostics@)),
{
    let ghost all = items_view(diagnostics@);
    let mut worst: Option<i64> = None;
    let mut unsolved = false;
    let mut i: usize = 0;
    proof {
        lemma_items_view(diagnostics@);
        assert(all.take(0) =~= Seq::empty());
    }
    while i < diagnostics.len()
        invariant
            i <= diagnostics.len(),
            all == items_view(diagnostics@),
            all.len() == diagnostics.len(),
            forall|k: int| 0 <= k < diagnostics.len() ==> #[trigger] all[k] == diagnostics@[k]@,
            worst == worst_severity(all.take(i as int)),
            unsolved == any_unsolved(all.take(i as int)),
        decreases diagnostics.len() - i,
    {
        let ghost front = all.take(i as int);
        let ghost more = all.take(i as int + 1);
        proof {
            assert(more.drop_last() =~= front);
            assert(more.last() == diagnostics@[i as int]@);
        }
        let d = &diagnostics[i];
        if let Some(sev) = opt_i64(d.get("severity")) {
            worst = match worst {
                Some(w) => if sev < w {
                    Some(sev)
                } else {
                    Some(w)
                },
                None => Some(sev),
            };
        }
        let this = match opt_str(d.get("message")) {
            Some(m) => starts_with(chars_of(m).as_slice(), "unsolved goals"),
            None => false,
        };
        proof {
            assert(this == says_unsolved(all[i as int]));
            if any_unsolved(front) {
                let k = choose|k: int| 0 <= k < front.len() && says_unsolved(#[trigger] front[k]);
                assert(more[k] == front[k]);
            }
            if any_unsolved(more) {
                let k = choose|k: int| 0 <= k < more.len() && says_unsolved(#[trigger] more[k]);
                if k < i {
                    assert(front[k] == more[k]);
                }
            }
            if this {
                assert(says_unsolved(more[i as int]));
            }
        }
        unsolved = unsolved || this;
        i += 1;
    }
    assert(all.take(i as int) =~= all);
    match worst {
        Some(sev) => if sev == SEVERITY_ERROR {
            if unsolved {
                Some(" \u{26A0} unsolved".to_string())
            } else {
                Some(" \u{2717}".to_string())
            }
        } else if sev == SEVERITY_WARNING {
            Some(" \u{26A0}".to_string())
        } else {
            None
        },
        None => None,
    }
}

/// What is shown of reports.
pub fn render_diagnostic_tooltip(diagnostics: &Vec<Json>) -> (r: String)
    ensures
        r@ == reports_text(items_view(diagnostics@)),
{
    let ghost all = items_view(diagnostics@);
    let mut parts: Vec<String> = Vec::new();
    let mut i: usize = 0;
    proof {
        lemma_items_view(diagnostics@);
        assert(all.take(0) =~= Seq::empty());
        assert(names_view(parts@) =~= Seq::empty());
    }
    while i < diagnostics.len()
        invariant
            i <= diagnostics.len(),
            all == items_view(diagnostics@),
            all.len() == diagnostics.len(),
            forall|k: int| 0 <= k < diagnostics.len() ==> #[trigger] all[k] == diagnostics@[k]@,
            names_view(parts@) == report_texts(all.take(i as int)),
        decreases diagnostics.len() - i,
    {
        let ghost before = parts@;
        assert(all.take(i as int + 1).drop_last() =~= all.take(i as int));
        assert(all.take(i as int + 1).last() == diagnostics@[i as int]@);
        let d = &diagnostics[i];
        if let Some(m) = opt_str(d.get("message")) {
            let prefix = match opt_i64(d.get("severity")) {
                Some(sev) => if sev == SEVERITY_ERROR {
                    "**error**: "
                } else if sev == SEVERITY_WARNING {
                    "**warning**: "
                } else {
                    ""
                },
                None => "",
            };
            let part = appended(prefix, m);
            parts.push(part);
            assert(names_view(parts@) =~= names_view(before).push(part@));
        }
        i += 1;
    }
    assert(all.take(i as int) =~= all);
    join(&parts, "\n\n")
}

// ---------------------------------------------------------------------------------------------
// Hints
// ---------------------------------------------------------------------------------------------
/// A hint at the end of a line.
pub open spec fn hint_of(
    line: u64,
    character: u64,
    label: Seq<char>,
    tooltip: Seq<char>,
) -> JsonView {
    JsonView::Object(
        map![
            "position"@ => JsonView::Object(
                map![
                    "line"@ => JsonView::Int(line as int),
                    "character"@ => JsonView::Int(character as int),
                ],
            ),
            "label"@ => JsonView::Str(label),
            "paddingLeft"@ => JsonView::Bool(true),
            "tooltip"@ => JsonView::Object(
                map![
                    "kind"@ => JsonView::Str("markdown"@),
                    "value"@ => JsonView::Str(tooltip),
                ],
            ),
        ],
    )
}

fn make_hint(line: u64, character: u64, label: &str, tooltip: &str) -> (r: Json)
    ensures
        r@ == hint_of(line, character, label@, tooltip@),
{
    Json::object().with(
        "position",
        Json::object().with("line", Json::number(line)).with("character", Json::number(character)),
    ).with("label", Json::text(label)).with("paddingLeft", Json::Bool(true)).with(
        "tooltip",
        Json::object().with("kind", Json::text("markdown")).with("value", Json::text(tooltip)),
    )
}

/// The label of a hint: the mark of the reports in front of what the line did to the goals.
pub open spec fn hint_label(goal: Option<Seq<char>>, marker: Option<Seq<char>>) -> Option<
    Seq<char>,
> {
    match (goal, marker) {
        (None, None) => None,
        (Some(g), None) => Some(g),
        (None, Some(m)) => Some(m),
        (Some(g), Some(m)) => Some(m + g),
    }
}

/// The goals behind the line, or else in front of it, as the server rendered them.
pub open spec fn rendered_goal(prev: Option<JsonView>, curr: Option<JsonView>) -> Seq<char> {
    let shown = if curr is Some {
        curr
    } else {
        prev
    };
    match shown {
        Some(v) => match str_in(v.get("rendered"@)) {
            Some(t) => t,
            None => ""@,
        },
        None => ""@,
    }
}

/// The tooltip of a hint: the reports, and the goals behind them.
pub open spec fn hint_tooltip(goal: Seq<char>, reports: Seq<char>) -> Seq<char> {
    if reports.len() == 0 {
        goal
    } else if goal.len() == 0 {
        reports
    } else {
        reports + "\n\n---\n\n"@ + goal
    }
}

/// The hint of a line, from the goals in front of it and behind it and what is reported there;
/// none where nothing shows.
pub open spec fn line_hint(
    line: u64,
    character: u64,
    prev: Option<JsonView>,
    curr: Option<JsonView>,
    items: Seq<JsonView>,
) -> Option<JsonView> {
    match hint_label(label_of(goals_in(prev), goals_in(curr)), marker_of(items)) {
        Some(label) => Some(
            hint_of(
                line,
                character,
                label,
                hint_tooltip(rendered_goal(prev, curr), reports_text(items)),
            ),
        ),
        None => None,
    }
}

fn is_empty(s: &str) -> (r: bool)
    ensures
        r == (s@.len() == 0),
{
    chars_of(s).len() == 0
}

/// The hint of a line.
pub fn build_hint(
    line: u64,
    character: u64,
    prev: Option<&Json>,
    curr: Option<&Json>,
    diagnostics: &Vec<Json>,
) -> (r: Option<Json>)
    ensures
        option_view(r) == line_hint(
            line,
            character,
            ref_view(prev),
            ref_view(curr),
            items_view(diagnostics@),
        ),
{
    let goal_label = compute_label(&extract_goal_strs(prev), &extract_goal_strs(curr));
    let marker = error_marker_for(diagnostics);
    let label = match (goal_label, marker) {
        (None, None) => {
            return None;
        },
        (Some(g), None) => g,
        (None, Some(m)) => m,
        (Some(g), Some(m)) => appended(m.as_str(), g.as_str()),
    };
    let shown = if curr.is_some() {
        curr
    } else {
        prev
    };
    let goal = match shown {
        Some(v) => match opt_str(v.get("rendered")) {
            Some(t) => t,
            None => "",
        },
        None => "",
    };
    proof {
        reveal_strlit("");
    }
    let reports = render_diagnostic_tooltip(diagnostics);
    let tooltip = if is_empty(reports.as_str()) {
        goal.to_string()
    } else if is_empty(goal) {
        reports
    } else {
        appended(appended(reports.as_str(), "\n\n---\n\n").as_str(), goal)
    };
    Some(make_hint(line, character, label.as_str(), tooltip.as_str()))
}

/// The characters that words of ASCII text are made of.
pub open spec fn is_word_char(c: char) -> bool {
    is_ascii_letter(c) || is_digit(c) || c == '_'
}

/// Whether no word goes on in front of a stretch of a text or behind it.
pub open spec fn bounded(s: Seq<char>, start: int, end: int) -> bool {
    &&& start > 0 ==> !is_word_char(s[start - 1])
    &&& end < s.len() ==> !is_word_char(s[end])
}

/// Whether a text holds another one as a word from an index on. Of copies that overlap only the
/// first counts.
pub open spec fn holds_word(s: Seq<char>, p: Seq<char>, i: int) -> bool
    decreases s.len() - i,
{
    if i < 0 || i + p.len() > s.len() {
        false
    } else if p.len() == 0 || holds_at(s, p, i) {
        bounded(s, i, i + p.len()) || (p.len() > 0 && holds_word(s, p, i + p.len()))
    } else {
        holds_word(s, p, i + 1)
    }
}

fn word_char(c: char) -> (r: bool)
    ensures
        r == is_word_char(c),
{
    ('a' <= c && c <= 'z') || ('A' <= c && c <= 'Z') || ('0' <= c && c <= '9') || c == '_'
}

/// Whether a text holds another one as a word. The search for nothing comes to no end where a word
/// stands at the front of the text.
pub fn contains_word(haystack: &str, needle: &str) -> (r: bool)
    requires
        needle@.len() > 0 || bounded(haystack@, 0, 0),
    ensures
        r == holds_word(haystack@, needle@, 0),
{
    let chars = chars_of(haystack);
    let s = chars.as_slice();
    let p = chars_of(needle);
    let mut i: usize = 0;
    while i <= s.len() && p.len() <= s.len() - i
        invariant
            i <= s.len(),
            s@ == haystack@,
            p@ == needle@,
            p.len() > 0 || (i == 0 && bounded(haystack@, 0, 0)),
            holds_word(haystack@, needle@, 0) == holds_word(haystack@, needle@, i as int),
        decreases s.len() - i,
    {
        if p.len() == 0 || matches_at(s, p.as_slice(), i) {
            let end = i + p.len();
            let before_ok = i == 0 || !word_char(s[i - 1]);
            let after_ok = end >= s.len() || !word_char(s[end]);
            if before_ok && after_ok {
                return true;
            }
            i = end;
        } else {
            i += 1;
        }
    }
    false
}

/// A word that is made of word characters alone is found wherever it stands.
pub proof fn law_words_are_found(s: Seq<char>, p: Seq<char>, i: int)
    requires
        p.len() > 0,
        forall|k: int| 0 <= k < p.len() ==> is_word_char(#[trigger] p[k]),
        holds_at(s, p, i),
        bounded(s, i, i + p.len()),
    ensures
        holds_word(s, p, 0),
{
    lemma_word_found(s, p, i, 0);
}

proof fn lemma_word_found(s: Seq<char>, p: Seq<char>, i: int, k: int)
    requires
        p.len() > 0,
        forall|k: int| 0 <= k < p.len() ==> is_word_char(#[trigger] p[k]),
        holds_at(s, p, i),
        bounded(s, i, i + p.len()),
        0 <= k <= i,
    ensures
        holds_word(s, p, k),
    decreases i - k,
{
    if k < i {
        if holds_at(s, p, k) {
            if k + p.len() > i {
                let at = s.subrange(k, k + p.len());
                assert(at[i - 1 - k] == s[i - 1]);
                assert(is_word_char(p[i - 1 - k]));
                assert(false);
            }
            lemma_word_found(s, p, i, k + p.len());
        } else {
            lemma_word_found(s, p, i, k + 1);
        }
    }
}

/// The line of a document, if both are there.
pub open spec fn known_line(texts: Texts, uri: Seq<char>, line: u64) -> Option<Seq<char>> {
    if texts.contains_key(uri) && line < line_count_of(texts[uri]) {
        Some(trimmed_line(line_of(texts[uri], line as int)))
    } else {
        None
    }
}

/// What is shown of a proof that is not finished.
pub open spec fn sorry_tooltip() -> Seq<char> {
    "**Admitted proof.** This declaration uses `sorry`/`admit`; the goal is not actually proven."@
}

/// The hint of a line that holds a proof which is not finished.
pub open spec fn unfinished_hint(text: Seq<char>, line: u64) -> Option<JsonView> {
    let label = if holds_word(text, "sorry"@, 0) {
        Some(" \u{26A0} sorry"@)
    } else if holds_word(text, "admit"@, 0) {
        Some(" \u{26A0} admit"@)
    } else {
        None
    };
    match label {
        Some(label) => Some(hint_of(line, utf16_len(text) as u64, label, sorry_tooltip())),
        None => None,
    }
}

/// The hint of a line that holds a proof which is not finished.
pub fn sorry_hint(documents: &Documents, uri: &str, line: u64) -> (r: Option<Json>)
    ensures
        option_view(r) == match known_line(documents@, uri@, line) {
            Some(text) => unfinished_hint(text, line),
            None => None,
        },
{
    let text = match documents.line_text(uri, line) {
        Some(text) => text,
        None => {
            return None;
        },
    };
    proof {
        reveal_strlit("sorry");
        reveal_strlit("admit");
    }
    let label = if contains_word(text.as_str(), "sorry") {
        " \u{26A0} sorry"
    } else if contains_word(text.as_str(), "admit") {
        " \u{26A0} admit"
    } else {
        return None;
    };
    match documents.line_length_utf16(uri, line) {
        Some(len) => Some(
            make_hint(
                line,
                len,
                label,
                "**Admitted proof.** This declaration uses `sorry`/`admit`; the goal is not actually proven.",
            ),
        ),
        None => None,
    }
}

// ---------------------------------------------------------------------------------------------
// Probes
// ---------------------------------------------------------------------------------------------
/// Whether the goals around a line are worth asking for: the server has come past it, and it is
/// neither blank nor a comment.
pub open spec fn worth_probing(text: Seq<char>, line: u64, frontier: u64) -> bool {
    let t = trim_start_of(text);
    line < frontier && t.len() > 0 && !"--"@.is_prefix_of(t) && !"/-"@.is_prefix_of(t)
}

/// What is known of a line before the server is asked.
#[derive(Clone, Copy, Debug, PartialEq, Eq, Structural)]
pub struct LinePlan {
    pub line: u64,
    pub line_len: u64,
    pub eligible: bool,
}

/// What is known of a line before the server is asked; none where the line is not there.
pub open spec fn plan_of(
    texts: Texts,
    uri: Seq<char>,
    line: u64,
    frontier: u64,
) -> Option<LinePlan> {
    match known_line(texts, uri, line) {
        Some(text) => Some(
            LinePlan {
                line,
                line_len: utf16_len(text) as u64,
                eligible: worth_probing(text, line, frontier),
            },
        ),
        None => None,
    }
}

/// What is known of a line before the server is asked.
pub fn plan_line(documents: &Documents, uri: &str, line: u64, frontier: u64) -> (r: Option<
    LinePlan,
>)
    ensures
        r == plan_of(documents@, uri@, line, frontier),
{
    let text = match documents.line_text(uri, line) {
        Some(text) => text,
        None => {
            return None;
        },
    };
    let line_len = match documents.line_length_utf16(uri, line) {
        Some(len) => len,
        None => {
            return None;
        },
    };
    let chars = chars_of(text.as_str());
    let t = trim_start(chars.as_slice());
    let eligible = line < frontier && t.len() > 0 && !starts_with(t, "--") && !starts_with(t, "/-");
    Some(LinePlan { line, line_len, eligible })
}

/// What to do next about a line.
#[derive(Clone, Copy, Debug, PartialEq, Eq, Structural)]
pub enum LineStep {
    /// Ask for the goals at a column.
    Probe(u64),
    /// Nothing is left to ask.
    Finish,
}

/// What to do next about a line, after some columns were asked for: the goals in front of the
/// line first, and those behind it if there are any in front.
pub open spec fn next_step(plan: LinePlan, answers: Seq<Option<JsonView>>) -> LineStep {
    if plan.eligible && answers.len() == 0 {
        LineStep::Probe(0)
    } else if plan.eligible && answers.len() == 1 && answers[0] is Some {
        LineStep::Probe(plan.line_len)
    } else {
        LineStep::Finish
    }
}

/// What answers say.
pub open spec fn answers_view(answers: Seq<Option<Json>>) -> Seq<Option<JsonView>> {
    answers.map_values(|a: Option<Json>| option_view(a))
}

/// What to do next about a line, after some columns were asked for.
pub fn line_step(plan: &LinePlan, answers: &Vec<Option<Json>>) -> (r: LineStep)
    ensures
        r == next_step(*plan, answers_view(answers@)),
{
    if !plan.eligible {
        return LineStep::Finish;
    }
    if answers.len() == 0 {
        return LineStep::Probe(0);
    }
    assert(answers_view(answers@)[0] == option_view(answers@[0]));
    if answers.len() == 1 && answers[0].is_some() {
        return LineStep::Probe(plan.line_len);
    }
    LineStep::Finish
}

/// The goals that a column was answered with, if it was asked for.
pub open spec fn nth_answer(answers: Seq<Option<JsonView>>, k: int) -> Option<JsonView> {
    if 0 <= k < answers.len() {
        answers[k]
    } else {
        None
    }
}

/// The hints of a line, once all columns were asked for.
pub open spec fn hints_of(
    state: StateView,
    texts: Texts,
    uri: Seq<char>,
    plan: LinePlan,
    answers: Seq<Option<JsonView>>,
) -> Seq<JsonView> {
    let goal = line_hint(
        plan.line,
        plan.line_len,
        nth_answer(answers, 0),
        nth_answer(answers, 1),
        at_line(state.diagnostics_of(uri), plan.line),
    );
    let unfinished = match known_line(texts, uri, plan.line) {
        Some(text) => unfinished_hint(text, plan.line),
        None => None,
    };
    let first = match goal {
        Some(h) => seq![h],
        None => Seq::empty(),
    };
    match unfinished {
        Some(h) => first.push(h),
        None => first,
    }
}

fn answer_at(answers: &Vec<Option<Json>>, k: usize) -> (r: Option<&Json>)
    ensures
        ref_view(r) == nth_answer(answers_view(answers@), k as int),
{
    if k < answers.len() {
        assert(answers_view(answers@)[k as int] == option_view(answers@[k as int]));
        match &answers[k] {
            Some(v) => Some(v),
            None => None,
        }
    } else {
        None
    }
}

/// The hints of a line, once all columns were asked for.
pub fn hints_for_line(
    state: &StateHandle,
    documents: &Documents,
    uri: &str,
    plan: &LinePlan,
    answers: &Vec<Option<Json>>,
) -> (out: Vec<Json>)
    ensures
        items_view(out@) == hints_of(state@, documents@, uri@, *plan, answers_view(answers@)),
{
    let mut out: Vec<Json> = Vec::new();
    let diagnostics = state.diagnostics_at_line(uri, plan.line);
    let hint = build_hint(
        plan.line,
        plan.line_len,
        answer_at(answers, 0),
        answer_at(answers, 1),
        &diagnostics,
    );
    if let Some(h) = hint {
        out.push(h);
    }
    if let Some(h) = sorry_hint(documents, uri, plan.line) {
        out.push(h);
    }
    proof {
        lemma_items_view(out@);
        assert(items_view(out@) =~= hints_of(
            state@,
            documents@,
            uri@,
            *plan,
            answers_view(answers@),
        ));
    }
    out
}

/// What the server's answer to a probe is taken for: goals, or none where it is empty or an error.
pub open spec fn probe_value(r: Result<JsonView, ErrorView>) -> Option<JsonView> {
    match r {
        Ok(v) => if v == JsonView::Null {
            None
        } else {
            Some(v)
        },
        Err(_) => None,
    }
}

/// What the server's answer to a probe is taken for.
pub fn read_probe(r: Result<Json, ResponseError>) -> (v: Option<Json>)
    ensures
        option_view(v) == probe_value(result_view(r)),
{
    match r {
        Ok(v) => if v.is_null() {
            None
        } else {
            Some(v)
        },
        Err(_) => None,
    }
}

/// What is known when the goals at a position are asked for.
#[derive(Debug)]
pub struct ProbeTicket {
    pub uri: String,
    pub version: i64,
    pub line: u64,
    pub character: u64,
    /// Whether the server was still at the line, so that its answer is not kept.
    pub was_processing: bool,
}

/// How a probe starts.
#[derive(Debug)]
pub enum ProbeStart {
    /// The goals are kept.
    Kept(Option<Json>),
    /// The server has to be asked with these parameters.
    Ask(ProbeTicket, Json),
}

/// Starts a probe for the goals at a position.
pub fn start_probe(
    cache: &mut ProbeCache,
    state: &StateHandle,
    uri: &str,
    line: u64,
    character: u64,
) -> (r: ProbeStart)
    ensures
        ({
            let version = version_or_zero(state@, uri@);
            let found = kept(old(cache)@, uri@, version, (line, character));
            &&& final(cache)@ == after_lookup(old(cache)@, uri@, version, (line, character))
            &&& match r {
                ProbeStart::Kept(v) => found == Some(option_view(v)),
                ProbeStart::Ask(t, params) => found is None && t.uri@ == uri@ && t.version
                    == version && t.line == line && t.character == character && t.was_processing
                    == line_in_work(state@.progress_of(uri@), line) && params@ == position_params(
                    uri@,
                    line,
                    character,
                ),
            }
        }),
{
    let version = match state.version_for(uri) {
        Some(v) => v,
        None => 0,
    };
    match cache.lookup(uri, version, line, character) {
        Some(v) => ProbeStart::Kept(v),
        None => {
            let was_processing = state.is_processing(uri, line);
            let ticket = ProbeTicket {
                uri: uri.to_string(),
                version,
                line,
                character,
                was_processing,
            };
            ProbeStart::Ask(ticket, at_position(uri, line, character))
        },
    }
}

/// Ends a probe with the server's answer, which is kept unless the server was still at the line.
pub fn finish_probe(
    cache: &mut ProbeCache,
    ticket: &ProbeTicket,
    r: Result<Json, ResponseError>,
) -> (v: Option<Json>)
    ensures
        option_view(v) == probe_value(result_view(r)),
        final(cache)@ == if ticket.was_processing {
            old(cache)@
        } else {
            after_store(
                old(cache)@,
                ticket.uri@,
                ticket.version,
                (ticket.line, ticket.character),
                option_view(v),
            )
        },
{
    let v = read_probe(r);
    if !ticket.was_processing {
        cache.store(
            ticket.uri.as_str(),
            ticket.version,
            ticket.line,
            ticket.character,
            copy_value(&v),
        );
    }
    v
}

// ---------------------------------------------------------------------------------------------
// Several lines
// ---------------------------------------------------------------------------------------------
/// The line of the first of some hints.
pub open spec fn group_line(hints: Seq<JsonView>) -> Option<u64> {
    if hints.len() > 0 {
        u64_in(hints[0].get2("position"@, "line"@))
    } else {
        None
    }
}

/// What groups of hints say.
pub open spec fn groups_view(groups: Seq<Vec<Json>>) -> Seq<Seq<JsonView>> {
    groups.map_values(|g: Vec<Json>| items_view(g@))
}

/// The groups of hints that stand on a line.
pub open spec fn placed(groups: Seq<Seq<JsonView>>) -> Seq<Seq<JsonView>>
    decreases groups.len(),
{
    if groups.len() == 0 {
        Seq::empty()
    } else {
        let front = placed(groups.drop_last());
        if group_line(groups.last()) is Some {
            front.push(groups.last())
        } else {
            front
        }
    }
}

/// The lines of groups of hints.
pub open spec fn group_lines(groups: Seq<Seq<JsonView>>) -> Seq<u64> {
    groups.map_values(|g: Seq<JsonView>| group_line(g)->0)
}

/// Groups of hints in a given order, one behind the other.
pub open spec fn in_sequence(groups: Seq<Seq<JsonView>>, order: Seq<usize>) -> Seq<JsonView>
    decreases order.len(),
{
    if order.len() == 0 {
        Seq::empty()
    } else {
        in_sequence(groups, order.drop_last()) + groups[order.last() as int]
    }
}

/// The hints of several lines, in the order of the lines.
pub open spec fn assembled(groups: Seq<Seq<JsonView>>) -> Seq<JsonView> {
    let on_lines = placed(groups);
    in_sequence(on_lines, order_of(group_lines(on_lines)))
}

/// Puts the hints of several lines in the order of the lines, in whichever order they come.
pub fn assemble_hints(groups: &Vec<Vec<Json>>) -> (out: Vec<Json>)
    ensures
        items_view(out@) == assembled(groups_view(groups@)),
{
    let ghost all = groups_view(groups@);
    let mut picked: Vec<usize> = Vec::new();
    let mut keys: Vec<u64> = Vec::new();
    let mut i: usize = 0;
    assert(all.take(0) =~= Seq::empty());
    while i < groups.len()
        invariant
            i <= groups.len(),
            all == groups_view(groups@),
            picked.len() == keys.len(),
            picked.len() == placed(all.take(i as int)).len(),
            forall|k: int|
                0 <= k < picked.len() ==> {
                    &&& #[trigger] picked@[k] < groups.len()
                    &&& all[picked@[k] as int] == placed(all.take(i as int))[k]
                },
            forall|k: int|
                0 <= k < keys.len() ==> group_line(placed(all.take(i as int))[k]) == Some(
                    #[trigger] keys@[k],
                ),
        decreases groups.len() - i,
    {
        proof {
            assert(all.take(i as int + 1).drop_last() =~= all.take(i as int));
            assert(all.take(i as int + 1).last() == items_view(groups@[i as int]@));
            lemma_items_view(groups@[i as int]@);
        }
        if groups[i].len() > 0 {
            if let Some(line) = opt_u64(groups[i][0].get2("position", "line")) {
                picked.push(i);
                keys.push(line);
            }
        }
        i += 1;
    }
    assert(all.take(i as int) =~= all);
    let ghost on_lines = placed(all);
    assert(keys@ =~= group_lines(on_lines));
    let order = stable_order(keys.as_slice());
    proof {
        law_order(keys@);
    }
    let mut out: Vec<Json> = Vec::new();
    let mut j: usize = 0;
    assert(order@.take(0) =~= Seq::empty());
    assert(items_view(out@) =~= Seq::empty());
    while j < order.len()
        invariant
            j <= order.len(),
            all == groups_view(groups@),
            order@ == order_of(keys@),
            order.len() == keys.len(),
            picked.len() == keys.len(),
            on_lines.len() == keys.len(),
            forall|k: int| 0 <= k < order.len() ==> 0 <= #[trigger] order@[k] < keys.len(),
            forall|k: int|
                0 <= k < picked.len() ==> {
                    &&& #[trigger] picked@[k] < groups.len()
                    &&& all[picked@[k] as int] == on_lines[k]
                },
            items_view(out@) == in_sequence(on_lines, order@.take(j as int)),
        decreases order.len() - j,
    {
        let g = &groups[picked[order[j]]];
        proof {
            assert(order@.take(j as int + 1).drop_last() =~= order@.take(j as int));
            assert(on_lines[order@[j as int] as int] == items_view(g@));
        }
        push_items(&mut out, g);
        j += 1;
    }
    assert(order@.take(j as int) =~= order@);
    out
}

/// Groups one behind the other.
spec fn flat(groups: Seq<Seq<JsonView>>) -> Seq<JsonView>
    decreases groups.len(),
{
    if groups.len() == 0 {
        Seq::empty()
    } else {
        flat(groups.drop_last()) + groups.last()
    }
}

/// Whether no two groups stand on one line.
pub open spec fn apart(groups: Seq<Seq<JsonView>>) -> bool {
    forall|i: int, j: int|
        0 <= i < j < groups.len() ==> group_line(#[trigger] groups[i]) != group_line(
            #[trigger] groups[j],
        )
}

/// Whether the lines of groups rise.
spec fn rising(groups: Seq<Seq<JsonView>>) -> bool {
    forall|i: int, j: int|
        0 <= i < j < groups.len() ==> group_line(#[trigger] groups[i])->0 < group_line(
            #[trigger] groups[j],
        )->0
}

spec fn arranged(groups: Seq<Seq<JsonView>>) -> Seq<Seq<JsonView>> {
    order_of(group_lines(groups)).map_values(|k: usize| groups[k as int])
}

proof fn lemma_in_sequence(groups: Seq<Seq<JsonView>>, order: Seq<usize>)
    ensures
        in_sequence(groups, order) == flat(order.map_values(|k: usize| groups[k as int])),
    decreases order.len(),
{
    if order.len() > 0 {
        lemma_in_sequence(groups, order.drop_last());
        assert(order.map_values(|k: usize| groups[k as int]).drop_last()
            =~= order.drop_last().map_values(|k: usize| groups[k as int]));
    }
}

proof fn lemma_placed(groups: Seq<Seq<JsonView>>, g: Seq<JsonView>)
    ensures
        placed(groups).contains(g) <==> groups.contains(g) && group_line(g) is Some,
        placed(groups).len() <= groups.len(),
    decreases groups.len(),
{
    if groups.len() > 0 {
        let front = groups.drop_last();
        lemma_placed(front, g);
        assert(groups =~= front.push(groups.last()));
        if groups.contains(g) {
            let i = groups.index_of(g);
            if i < front.len() {
                assert(front[i] == g);
            }
        }
        if front.contains(g) {
            let i = front.index_of(g);
            assert(groups[i] == g);
        }
        let p = placed(front);
        if group_line(groups.last()) is Some {
            assert(placed(groups) =~= p.push(groups.last()));
            if p.contains(g) {
                let i = p.index_of(g);
                assert(placed(groups)[i] == g);
            }
            if placed(groups).contains(g) {
                let i = placed(groups).index_of(g);
                if i < p.len() {
                    assert(p[i] == g);
                }
            }
            assert(placed(groups)[p.len() as int] == groups.last());
        }
    }
}

proof fn lemma_arranged(groups: Seq<Seq<JsonView>>, g: Seq<JsonView>)
    requires
        groups.len() <= usize::MAX,
        apart(groups),
        forall|i: int| 0 <= i < groups.len() ==> group_line(#[trigger] groups[i]) is Some,
    ensures
        rising(arranged(groups)),
        arranged(groups).contains(g) <==> groups.contains(g),
{
    let keys = group_lines(groups);
    let order = order_of(keys);
    let sorted = arranged(groups);
    law_order(keys);
    assert forall|i: int, j: int| 0 <= i < j < sorted.len() implies group_line(
        #[trigger] sorted[i],
    )->0 < group_line(#[trigger] sorted[j])->0 by {
        assert(no_later(keys, order[i], order[j]) && order[i] != order[j]);
        let a = groups[order[i] as int];
        let b = groups[order[j] as int];
        assert(group_line(a) is Some && group_line(b) is Some);
        if order[i] < order[j] {
            assert(group_line(groups[order[i] as int]) != group_line(groups[order[j] as int]));
        } else {
            assert(group_line(groups[order[j] as int]) != group_line(groups[order[i] as int]));
        }
    }
    if sorted.contains(g) {
        let i = sorted.index_of(g);
        assert(groups[order[i] as int] == g);
    }
    if groups.contains(g) {
        let i = groups.index_of(g);
        assert(order.contains(i as usize));
        let k = order.index_of(i as usize);
        assert(sorted[k] == g);
    }
}

/// Two rising lists of the same groups are equal.
proof fn lemma_rising_unique(a: Seq<Seq<JsonView>>, b: Seq<Seq<JsonView>>)
    requires
        rising(a),
        rising(b),
        forall|g: Seq<JsonView>| #[trigger] a.contains(g) <==> b.contains(g),
    ensures
        a == b,
    decreases a.len(),
{
    if a.len() == 0 {
        if b.len() > 0 {
            assert(b.contains(b[0]));
            assert(a.contains(b[0]));
        }
        assert(a =~= b);
    } else {
        let last = a.last();
        assert(a[a.len() - 1] == last);
        assert(a.contains(last));
        assert(b.contains(last));
        let k = b.index_of(last);
        let top = b.last();
        assert(b[b.len() - 1] == top);
        assert(b.contains(top));
        assert(a.contains(top));
        let m = a.index_of(top);
        if k < b.len() - 1 {
            assert(group_line(b[k])->0 < group_line(b[b.len() - 1])->0);
            if m < a.len() - 1 {
                assert(group_line(a[m])->0 < group_line(a[a.len() - 1])->0);
            }
            assert(false);
        }
        assert(last == top);
        let x = a.drop_last();
        let y = b.drop_last();
        assert(rising(x)) by {
            assert forall|i: int, j: int| 0 <= i < j < x.len() implies group_line(
                #[trigger] x[i],
            )->0 < group_line(#[trigger] x[j])->0 by {
                assert(x[i] == a[i] && x[j] == a[j]);
            }
        }
        assert(rising(y)) by {
            assert forall|i: int, j: int| 0 <= i < j < y.len() implies group_line(
                #[trigger] y[i],
            )->0 < group_line(#[trigger] y[j])->0 by {
                assert(y[i] == b[i] && y[j] == b[j]);
            }
        }
        assert forall|g: Seq<JsonView>| #[trigger] x.contains(g) <==> y.contains(g) by {
            if x.contains(g) {
                let i = x.index_of(g);
                assert(a[i] == g);
                assert(group_line(a[i])->0 < group_line(a[a.len() - 1])->0);
                assert(a.contains(g));
                let j = b.index_of(g);
                assert(b.contains(g));
                assert(j < b.len() - 1);
                assert(y[j] == g);
            }
            if y.contains(g) {
                let i = y.index_of(g);
                assert(b[i] == g);
                assert(group_line(b[i])->0 < group_line(b[b.len() - 1])->0);
                assert(b.contains(g));
                assert(a.contains(g));
                let j = a.index_of(g);
                assert(j < a.len() - 1);
                assert(x[j] == g);
            }
        }
        lemma_rising_unique(x, y);
        assert(a =~= x.push(last));
        assert(b =~= y.push(last));
    }
}

/// The order in which the hints of several lines come in does not show in what they are put
/// together to.
pub proof fn law_arrival_does_not_matter(a: Seq<Seq<JsonView>>, b: Seq<Seq<JsonView>>)
    requires
        a.len() <= usize::MAX,
        b.len() <= usize::MAX,
        apart(placed(a)),
        apart(placed(b)),
        forall|g: Seq<JsonView>| #[trigger] a.contains(g) <==> b.contains(g),
    ensures
        assembled(a) == assembled(b),
{
    let x = placed(a);
    let y = placed(b);
    lemma_placed(a, Seq::empty());
    lemma_placed(b, Seq::empty());
    assert forall|i: int| 0 <= i < x.len() implies group_line(#[trigger] x[i]) is Some by {
        lemma_placed(a, x[i]);
        assert(x.contains(x[i]));
    }
    assert forall|i: int| 0 <= i < y.len() implies group_line(#[trigger] y[i]) is Some by {
        lemma_placed(b, y[i]);
        assert(y.contains(y[i]));
    }
    lemma_arranged(x, Seq::empty());
    lemma_arranged(y, Seq::empty());
    assert forall|g: Seq<JsonView>| #[trigger] arranged(x).contains(g) <==> arranged(y).contains(
        g,
    ) by {
        lemma_arranged(x, g);
        lemma_arranged(y, g);
        lemma_placed(a, g);
        lemma_placed(b, g);
        assert(a.contains(g) <==> b.contains(g));
    }
    lemma_rising_unique(arranged(x), arranged(y));
    lemma_in_sequence(x, order_of(group_lines(x)));
    lemma_in_sequence(y, order_of(group_lines(y)));
}

proof fn lemma_sequence_holds(groups: Seq<Seq<JsonView>>, order: Seq<usize>, k: int, i: int)
    requires
        0 <= k < order.len(),
        0 <= i < groups[order[k] as int].len(),
    ensures
        in_sequence(groups, order).contains(groups[order[k] as int][i]),
    decreases order.len(),
{
    let front = in_sequence(groups, order.drop_last());
    let last = groups[order.last() as int];
    let h = groups[order[k] as int][i];
    let all = front + last;
    if k < order.len() - 1 {
        lemma_sequence_holds(groups, order.drop_last(), k, i);
        let m = front.index_of(h);
        assert(all[m] == h);
    } else {
        assert(all[front.len() + i] == h);
    }
}

/// No hint of a line gets lost when the hints of several lines are put together.
pub proof fn law_no_hint_is_lost(groups: Seq<Seq<JsonView>>, g: int, i: int)
    requires
        groups.len() <= usize::MAX,
        0 <= g < groups.len(),
        0 <= i < groups[g].len(),
        group_line(groups[g]) is Some,
    ensures
        assembled(groups).contains(groups[g][i]),
{
    let on_lines = placed(groups);
    lemma_placed(groups, groups[g]);
    assert(groups.contains(groups[g]));
    let m = on_lines.index_of(groups[g]);
    let keys = group_lines(on_lines);
    let order = order_of(keys);
    law_order(keys);
    assert(order.contains(m as usize));
    let k = order.index_of(m as usize);
    lemma_sequence_holds(on_lines, order, k, i);
}

proof fn lemma_hint_position(line: u64, character: u64, label: Seq<char>, tooltip: Seq<char>)
    ensures
        ({
            let h = hint_of(line, character, label, tooltip);
            &&& h.get2("position"@, "line"@) == Some(JsonView::Int(line as int))
            &&& h.get2("position"@, "character"@) == Some(JsonView::Int(character as int))
        }),
{
    reveal_strlit("position");
    reveal_strlit("label");
    reveal_strlit("paddingLeft");
    reveal_strlit("tooltip");
    reveal_strlit("line");
    reveal_strlit("character");
    assert("position"@.len() == 8 && "label"@.len() == 5);
    assert("paddingLeft"@.len() == 11 && "tooltip"@.len() == 7);
    assert("line"@.len() == 4 && "character"@.len() == 9);
}

/// Every hint of a line stands at the end of that line.
pub proof fn law_hints_stand_at_the_end_of_their_line(
    state: StateView,
    texts: Texts,
    uri: Seq<char>,
    line: u64,
    frontier: u64,
    answers: Seq<Option<JsonView>>,
    i: int,
)
    requires
        plan_of(texts, uri, line, frontier) is Some,
        0 <= i < hints_of(
            state,
            texts,
            uri,
            plan_of(texts, uri, line, frontier)->0,
            answers,
        ).len(),
    ensures
        ({
            let h = hints_of(
                state,
                texts,
                uri,
                plan_of(texts, uri, line, frontier)->0,
                answers,
            )[i];
            let text = known_line(texts, uri, line)->0;
            &&& h.get2("position"@, "line"@) == Some(JsonView::Int(line as int))
            &&& h.get2("position"@, "character"@) == Some(
                JsonView::Int((utf16_len(text) as u64) as int),
            )
        }),
{
    let plan = plan_of(texts, uri, line, frontier)->0;
    let items = at_line(state.diagnostics_of(uri), line);
    let prev = nth_answer(answers, 0);
    let curr = nth_answer(answers, 1);
    let tooltip = hint_tooltip(rendered_goal(prev, curr), reports_text(items));
    if let Some(label) = hint_label(label_of(goals_in(prev), goals_in(curr)), marker_of(items)) {
        lemma_hint_position(line, plan.line_len, label, tooltip);
    }
    lemma_hint_position(line, plan.line_len, " \u{26A0} sorry"@, sorry_tooltip());
    lemma_hint_position(line, plan.line_len, " \u{26A0} admit"@, sorry_tooltip());
}

/// The lines that a request for hints spans; one without an end spans its first line.
pub open spec fn lines_asked(params: JsonView) -> (u64, u64) {
    let start = match u64_in(params.get3("range"@, "start"@, "line"@)) {
        Some(n) => n,
        None => 0,
    };
    let end = match u64_in(params.get3("range"@, "end"@, "line"@)) {
        Some(n) => n,
        None => start,
    };
    (start, end)
}

/// What a request for hints asks for.
#[derive(Debug)]
pub struct HintSpan {
    pub uri: String,
    pub start_line: u64,
    pub end_line: u64,
}

/// What a request for hints asks for; one without a document is answered with no hints.
pub fn read_request(params: &Json) -> (r: Option<HintSpan>)
    ensures
        match r {
            Some(span) => str_in(params@.get2("textDocument"@, "uri"@)) == Some(span.uri@)
                && lines_asked(params@) == (span.start_line, span.end_line),
            None => str_in(params@.get2("textDocument"@, "uri"@)) is None,
        },
{
    let uri = match opt_str(params.get2("textDocument", "uri")) {
        Some(uri) => uri.to_string(),
        None => {
            return None;
        },
    };
    let start_line = match opt_u64(params.get3("range", "start", "line")) {
        Some(n) => n,
        None => 0,
    };
    let end_line = match opt_u64(params.get3("range", "end", "line")) {
        Some(n) => n,
        None => start_line,
    };
    Some(HintSpan { uri, start_line, end_line })
}

// ---------------------------------------------------------------------------------------------
// Waiting and refreshing
// ---------------------------------------------------------------------------------------------
/// How long the server is waited for, in seconds.
pub const ELABORATION_WAIT_SECS: u64 = 3;

/// How many probes run at the same time.
pub const MAX_CONCURRENT_PROBES: usize = 8;

/// How long refreshes are held back, in milliseconds.
pub const REFRESH_DEBOUNCE_MILLIS: u64 = 250;

/// Whether the server has come past a line.
pub fn frontier_covers(frontier: u64, end_line: u64) -> (r: bool)
    ensures
        r == (frontier == u64::MAX || frontier > end_line),
{
    frontier == u64::MAX || frontier > end_line
}

/// What can happen while something is waited for.
#[derive(Debug)]
pub enum Happening {
    State(StateEvent),
    /// Events were missed.
    Lagged,
    /// No more events will come.
    Closed,
    /// The time is up.
    Elapsed,
}

/// What happened.
pub enum HappeningView {
    State(EventView),
    Lagged,
    Closed,
    Elapsed,
}

impl Happening {
    pub open spec fn view(&self) -> HappeningView {
        match self {
            Happening::State(e) => HappeningView::State(e@),
            Happening::Lagged => HappeningView::Lagged,
            Happening::Closed => HappeningView::Closed,
            Happening::Elapsed => HappeningView::Elapsed,
        }
    }
}

/// Whether waiting for a document is of no use any more.
pub fn gives_up(h: &Happening, uri: &str) -> (r: bool)
    ensures
        r == (h@ == HappeningView::Elapsed || h@ == HappeningView::Closed || h@
            == HappeningView::State(EventView::DidClose(uri@))),
{
    match h {
        Happening::Elapsed => true,
        Happening::Closed => true,
        Happening::State(StateEvent::DidClose { uri: closed }) => same_text(closed.as_str(), uri),
        _ => false,
    }
}

/// What a refresh worker does next.
#[derive(Debug)]
pub enum RefreshAction {
    Nothing,
    /// Ask the editor to ask again.
    Refresh,
    /// Forget what is kept of a document.
    Forget(String),
    Stop,
}

/// What a refresh worker does next.
pub enum RefreshView {
    Nothing,
    Refresh,
    Forget(Seq<char>),
    Stop,
}

impl RefreshAction {
    pub open spec fn view(&self) -> RefreshView {
        match self {
            RefreshAction::Nothing => RefreshView::Nothing,
            RefreshAction::Refresh => RefreshView::Refresh,
            RefreshAction::Forget(uri) => RefreshView::Forget(uri@),
            RefreshAction::Stop => RefreshView::Stop,
        }
    }
}

/// What the worker for hints does on an event, and whether a refresh is held back afterwards. It
/// refreshes at once when the server has finished a document, and otherwise when the time is up.
pub open spec fn hint_refresh(pending: bool, h: HappeningView, state: StateView) -> (
    bool,
    RefreshView,
) {
    match h {
        HappeningView::State(EventView::ProgressChanged(uri)) => if frontier(state.progress_of(uri))
            == u64::MAX {
            (false, RefreshView::Refresh)
        } else {
            (true, RefreshView::Nothing)
        },
        HappeningView::State(EventView::DiagnosticsChanged(_)) => (true, RefreshView::Nothing),
        HappeningView::State(EventView::DidClose(uri)) => (pending, RefreshView::Forget(uri)),
        HappeningView::State(EventView::DidOpen(_)) => (pending, RefreshView::Nothing),
        HappeningView::Lagged => (pending, RefreshView::Nothing),
        HappeningView::Closed => (pending, RefreshView::Stop),
        HappeningView::Elapsed => if pending {
            (false, RefreshView::Refresh)
        } else {
            (false, RefreshView::Nothing)
        },
    }
}

/// What the worker for hints does on an event, and whether a refresh is held back afterwards.
pub fn refresh_step(pending: bool, h: &Happening, state: &StateHandle) -> (r: (bool, RefreshAction))
    ensures
        (r.0, r.1@) == hint_refresh(pending, h@, state@),
{
    match h {
        Happening::State(StateEvent::ProgressChanged { uri }) => if state.elaboration_frontier(
            uri.as_str(),
        ) == u64::MAX {
            (false, RefreshAction::Refresh)
        } else {
            (true, RefreshAction::Nothing)
        },
        Happening::State(StateEvent::DiagnosticsChanged { .. }) => (true, RefreshAction::Nothing),
        Happening::State(StateEvent::DidClose { uri }) => (
            pending,
            RefreshAction::Forget(uri.clone()),
        ),
        Happening::State(StateEvent::DidOpen { .. }) => (pending, RefreshAction::Nothing),
        Happening::Lagged => (pending, RefreshAction::Nothing),
        Happening::Closed => (pending, RefreshAction::Stop),
        Happening::Elapsed => if pending {
            (false, RefreshAction::Refresh)
        } else {
            (false, RefreshAction::Nothing)
        },
    }
}

// ---------------------------------------------------------------------------------------------
// What hints tell of the goals
// ---------------------------------------------------------------------------------------------
/// Whether a line starts with the sign of a target.
pub open spec fn has_sign(line: Seq<char>) -> bool {
    line.len() > 0 && line[0] == '\u{22A2}'
}

proof fn lemma_lines_add(front: Seq<char>, back: Seq<char>)
    requires
        front.len() == 0 || front.last() == '\n',
    ensures
        lines_of(front + back) == lines_of(front) + lines_of(back),
    decreases front.len(),
{
    let whole = front + back;
    if front.len() == 0 {
        assert(whole =~= back);
        assert(lines_of(front) + lines_of(back) =~= lines_of(back));
    } else {
        law_first_index(front, '\n');
        law_first_index(whole, '\n');
        let i = first_index(front, '\n') as int;
        let j = first_index(whole, '\n') as int;
        assert(front[front.len() - 1] == '\n');
        assert(whole[i] == front[i]);
        if j < i {
            assert(whole[j] == front[j]);
        }
        assert(i == j);
        let rest = front.skip(i + 1);
        assert(rest.len() > 0 ==> rest.last() == front.last());
        lemma_lines_add(rest, back);
        assert(whole.take(i) =~= front.take(i));
        assert(whole.skip(i + 1) =~= rest + back);
        assert(lines_of(whole) =~= lines_of(front) + lines_of(back));
    }
}

proof fn lemma_target_index(ls: Seq<Seq<char>>, i: int)
    requires
        0 <= i <= ls.len(),
        forall|k: int| 0 <= k < i ==> !has_sign(#[trigger] ls[k]),
        i < ls.len() ==> has_sign(ls[i]),
    ensures
        target_index(ls) == i,
    decreases ls.len(),
{
    if i > 0 {
        let rest = ls.drop_first();
        assert(!has_sign(ls[0]));
        assert forall|k: int| 0 <= k < i - 1 implies !has_sign(#[trigger] rest[k]) by {
            assert(rest[k] == ls[k + 1]);
        }
        lemma_target_index(rest, i - 1);
    }
}

/// The target of a goal is what stands behind the first sign at the start of a line, up to the end
/// of that line.
pub proof fn law_target_stands_behind_its_sign(
    front: Seq<char>,
    target: Seq<char>,
    back: Seq<char>,
)
    requires
        front.len() == 0 || front.last() == '\n',
        forall|k: int| 0 <= k < lines_of(front).len() ==> !has_sign(#[trigger] lines_of(front)[k]),
        forall|k: int| 0 <= k < target.len() ==> #[trigger] target[k] != '\n',
        target.len() > 0 ==> !is_white(target[0]) && !is_white(target.last()),
        back.len() == 0 || back[0] == '\n',
    ensures
        target_of(front + seq!['\u{22A2}', ' '] + target + back) == target,
{
    let sign = seq!['\u{22A2}', ' '];
    let line = sign + target;
    let goal = front + sign + target + back;
    let tail = line + back;
    assert(goal =~= front + tail);
    lemma_lines_add(front, tail);
    assert forall|k: int| 0 <= k < line.len() implies #[trigger] line[k] != '\n' by {
        if k >= 2 {
            assert(line[k] == target[k - 2]);
        }
    }
    if target.len() > 0 {
        assert(line.last() == target.last());
    } else {
        assert(line.last() == ' ');
    }
    assert(line.last() != '\r');
    if back.len() > 0 {
        assert(tail =~= line + seq!['\n'] + back.skip(1));
        law_lines(line, back.skip(1));
    } else {
        assert(tail =~= line);
        law_lines(line, Seq::empty());
    }
    let ls = lines_of(goal);
    let i = lines_of(front).len() as int;
    assert(lines_of(tail)[0] == line);
    assert(ls[i] == line);
    assert forall|k: int| 0 <= k < i implies !has_sign(#[trigger] ls[k]) by {
        assert(ls[k] == lines_of(front)[k]);
    }
    lemma_target_index(ls, i);
    law_trim_start_char(line, '\u{22A2}');
    let t = trim_start_char(line, '\u{22A2}');
    let cut = line.len() - t.len();
    assert(line[0] == '\u{22A2}' && line[1] == ' ');
    assert(cut <= 1);
    if cut == 0 {
        assert(t[0] == line[0]);
    }
    assert(t =~= seq![' '] + target + Seq::empty());
    law_trim(seq![' '], target, Seq::empty());
}

/// A goal without a sign at the start of a line is its own target.
pub proof fn law_goal_without_a_sign_is_taken_whole(goal: Seq<char>)
    requires
        forall|k: int| 0 <= k < lines_of(goal).len() ==> !has_sign(#[trigger] lines_of(goal)[k]),
    ensures
        target_of(goal) == goal,
{
    lemma_target_index(lines_of(goal), lines_of(goal).len() as int);
}

proof fn lemma_target_index_bounds(ls: Seq<Seq<char>>)
    ensures
        target_index(ls) <= ls.len(),
        forall|k: int| 0 <= k < target_index(ls) ==> !has_sign(#[trigger] ls[k]),
        target_index(ls) < ls.len() ==> has_sign(ls[target_index(ls) as int]),
    decreases ls.len(),
{
    if ls.len() > 0 && !is_target_line(ls[0]) {
        let rest = ls.drop_first();
        lemma_target_index_bounds(rest);
        assert forall|k: int| 0 <= k < target_index(ls) implies !has_sign(#[trigger] ls[k]) by {
            if k > 0 {
                assert(ls[k] == rest[k - 1]);
            }
        }
    }
}

proof fn lemma_words_around(a: Seq<char>, w: Seq<char>, b: Seq<char>)
    requires
        w.len() > 0,
        forall|i: int| 0 <= i < w.len() ==> !is_white(#[trigger] w[i]),
        a.len() == 0 || is_white(a.last()),
        b.len() == 0 || is_white(b[0]),
    ensures
        words_of(a + w + b).contains(w),
{
    let mid = w + b;
    law_words(w, Seq::empty(), ' ', Seq::empty());
    if b.len() > 0 {
        law_words(w, w, b[0], b.skip(1));
        assert(mid =~= w + seq![b[0]] + b.skip(1));
    } else {
        assert(mid =~= w);
    }
    assert(words_of(mid)[0] == w);
    let whole = a + w + b;
    if a.len() > 0 {
        law_words(w, a.drop_last(), a.last(), mid);
        assert(whole =~= a.drop_last() + seq![a.last()] + mid);
        assert(words_of(whole)[words_of(a.drop_last()).len() as int] == w);
    } else {
        assert(whole =~= mid);
    }
}

/// Every word in front of the first colon of a line is a name that the line introduces, unless the
/// line names a case.
#[verifier::rlimit(40)]
#[verifier::spinoff_prover]
pub proof fn law_names_stand_in_front_of_the_colon(
    a: Seq<char>,
    name: Seq<char>,
    b: Seq<char>,
    rest: Seq<char>,
)
    requires
        name.len() > 0,
        forall|i: int|
            0 <= i < name.len() ==> !is_white(#[trigger] name[i]) && name[i] != ':',
        forall|i: int| 0 <= i < a.len() ==> #[trigger] a[i] != ':',
        forall|i: int| 0 <= i < b.len() ==> #[trigger] b[i] != ':',
        a.len() == 0 || is_white(a.last()),
        b.len() == 0 || is_white(b[0]),
        !"case "@.is_prefix_of(trim_of(a + name + b + seq![':'] + rest)),
    ensures
        names_on_line(a + name + b + seq![':'] + rest).contains(name),
{
    let line = a + name + b + seq![':'] + rest;
    let colon = (a.len() + name.len() + b.len()) as int;
    assert(line[colon] == ':');
    law_trim_start(line);
    let s = trim_start_of(line);
    law_trim_end(s);
    let t = trim_of(line);
    let cut = line.len() - s.len();
    assert(line[a.len() as int] == name[0]);
    assert(cut <= a.len());
    assert(s[colon - cut] == line[colon]);
    assert(!is_white(':'));
    assert(t.len() > colon - cut);
    assert(t =~= line.subrange(cut, cut + t.len()));
    law_first_index(t, ':');
    let f = first_index(t, ':') as int;
    assert(t[colon - cut] == ':');
    if f < colon - cut {
        let at = f + cut;
        assert(t[f] == line[at]);
        if at < a.len() {
            assert(line[at] == a[at]);
        } else if at < a.len() + name.len() {
            assert(line[at] == name[at - a.len()]);
        } else {
            assert(line[at] == b[at - a.len() - name.len()]);
        }
    }
    assert(f == colon - cut);
    assert(t.take(f) =~= a.skip(cut) + name + b);
    if a.skip(cut).len() > 0 {
        assert(a.skip(cut).last() == a.last());
    }
    lemma_words_around(a.skip(cut), name, b);
}

/// A line that names a case, and a blank one, introduce no name.
pub proof fn law_case_lines_introduce_no_names(line: Seq<char>)
    requires
        trim_of(line).len() == 0 || "case "@.is_prefix_of(trim_of(line)),
    ensures
        names_on_line(line).len() == 0,
{
}

proof fn lemma_names_on_lines(ls: Seq<Seq<char>>, name: Seq<char>)
    ensures
        names_on_lines(ls).contains(name) <==> exists|k: int|
            0 <= k < ls.len() && names_on_line(#[trigger] ls[k]).contains(name),
    decreases ls.len(),
{
    if ls.len() > 0 {
        let front = ls.drop_last();
        lemma_names_on_lines(front, name);
        let a = names_on_lines(front);
        let b = names_on_line(ls.last());
        if a.contains(name) {
            let i = choose|i: int| 0 <= i < a.len() && a[i] == name;
            assert((a + b)[i] == name);
            let k = choose|k: int|
                0 <= k < front.len() && names_on_line(#[trigger] front[k]).contains(name);
            assert(ls[k] == front[k]);
        }
        if b.contains(name) {
            let i = choose|i: int| 0 <= i < b.len() && b[i] == name;
            assert((a + b)[a.len() + i] == name);
            assert(names_on_line(ls[ls.len() - 1]).contains(name));
        }
        if (a + b).contains(name) {
            let i = choose|i: int| 0 <= i < (a + b).len() && (a + b)[i] == name;
            if i < a.len() {
                assert(a[i] == name);
            } else {
                assert(b[i - a.len()] == name);
            }
        }
        if exists|k: int| 0 <= k < ls.len() && names_on_line(#[trigger] ls[k]).contains(name) {
            let k = choose|k: int|
                0 <= k < ls.len() && names_on_line(#[trigger] ls[k]).contains(name);
            if k < front.len() {
                assert(front[k] == ls[k]);
            }
        }
    }
}

/// The hypotheses of a goal are the names that its lines in front of the target introduce.
pub proof fn law_hypotheses_stand_in_front_of_the_target(goal: Seq<char>, name: Seq<char>)
    ensures
        hypotheses_of(goal).contains(name) <==> exists|k: int|
            0 <= k < lines_of(goal).len() && names_on_line(#[trigger] lines_of(goal)[k]).contains(
                name,
            ) && forall|j: int| 0 <= j <= k ==> !has_sign(#[trigger] lines_of(goal)[j]),
{
    let ls = lines_of(goal);
    lemma_target_index_bounds(ls);
    let n = target_index(ls) as int;
    let front = ls.take(n);
    lemma_names_on_lines(front, name);
    if hypotheses_of(goal).contains(name) {
        let k = choose|k: int|
            0 <= k < front.len() && names_on_line(#[trigger] front[k]).contains(name);
        assert(ls[k] == front[k]);
        assert forall|j: int| 0 <= j <= k implies !has_sign(#[trigger] ls[j]) by {}
    }
    if exists|k: int|
        0 <= k < ls.len() && names_on_line(#[trigger] ls[k]).contains(name) && forall|j: int|
            0 <= j <= k ==> !has_sign(#[trigger] ls[j]) {
        let k = choose|k: int|
            0 <= k < ls.len() && names_on_line(#[trigger] ls[k]).contains(name) && forall|j: int|
                0 <= j <= k ==> !has_sign(#[trigger] ls[j]);
        if n <= k {
            assert(has_sign(ls[n]));
        }
        assert(front[k] == ls[k]);
    }
}

proof fn lemma_names_not_in(names: Seq<Seq<char>>, known: Seq<Seq<char>>)
    ensures
        names_not_in(names, known) == names.filter(|n: Seq<char>| !known.contains(n)),
    decreases names.len(),
{
    reveal(Seq::filter);
    if names.len() > 0 {
        lemma_names_not_in(names.drop_last(), known);
    }
}

/// Whether the goals in front of a line and behind it have the same targets, one by one.
pub open spec fn same_targets(prev: Seq<Seq<char>>, curr: Seq<Seq<char>>) -> bool {
    prev.len() == curr.len() && forall|i: int|
        0 <= i < prev.len() ==> target_of(#[trigger] prev[i]) == target_of(curr[i])
}

proof fn lemma_same_targets(prev: Seq<Seq<char>>, curr: Seq<Seq<char>>)
    ensures
        same_targets(prev, curr) == (targets_of(prev) == targets_of(curr)),
{
    if same_targets(prev, curr) {
        assert forall|i: int| 0 <= i < prev.len() implies targets_of(prev)[i] == targets_of(
            curr,
        )[i] by {
            assert(target_of(prev[i]) == target_of(curr[i]));
        }
        assert(targets_of(prev) =~= targets_of(curr));
    }
    if targets_of(prev) == targets_of(curr) {
        assert(targets_of(prev).len() == targets_of(curr).len());
        assert forall|i: int| 0 <= i < prev.len() implies target_of(#[trigger] prev[i])
            == target_of(curr[i]) by {
            assert(targets_of(prev)[i] == target_of(prev[i]));
            assert(targets_of(curr)[i] == target_of(curr[i]));
        }
    }
}

/// Where several goals are left that are not the ones there were, the label tells how many; above
/// all where their number has changed.
pub proof fn law_several_goals_are_counted(prev: Seq<Seq<char>>, curr: Seq<Seq<char>>)
    requires
        curr.len() >= 2,
        curr.len() != prev.len() || exists|i: int|
            0 <= i < curr.len() && target_of(#[trigger] prev[i]) != target_of(curr[i]),
    ensures
        label_of(prev, curr) == Some(" "@ + decimal_of(curr.len()) + " goals"@),
{
    lemma_same_targets(prev, curr);
}

/// A line that closes all goals gets a check mark, and where there were none to close nothing
/// shows.
pub proof fn law_closed_goals_are_checked(prev: Seq<Seq<char>>)
    ensures
        prev.len() > 0 ==> label_of(prev, Seq::empty()) == Some(" \u{2713}"@),
        prev.len() == 0 ==> label_of(prev, Seq::empty()) is None,
{
    assert(targets_of(prev).len() == prev.len());
}

/// One goal that is left with a new target shows that target: whole, or its first 69 characters and
/// an ellipsis where it has more than 70.
pub proof fn law_a_new_target_is_shown(prev: Seq<Seq<char>>, goal: Seq<char>)
    requires
        prev.len() != 1 || target_of(prev[0]) != target_of(goal),
    ensures
        ({
            let target = target_of(goal);
            let sign = if prev.len() > 0 {
                " \u{2192} \u{22A2} "@
            } else {
                " \u{22A2} "@
            };
            label_of(prev, seq![goal]) == Some(
                if target.len() <= 70 {
                    sign + target
                } else {
                    sign + (target.take(69) + "\u{2026}"@)
                },
            )
        }),
{
    let curr = seq![goal];
    lemma_same_targets(prev, curr);
    assert(targets_of(curr).len() == 1 && targets_of(curr)[0] == target_of(goal));
    assert(targets_of(prev).len() == prev.len());
    if same_targets(prev, curr) {
        assert(target_of(prev[0]) == target_of(curr[0]));
    }
}

/// Where the targets stay the same, the label lists the hypotheses that the first goal has gained,
/// in order; where it has gained none, nothing shows.
pub proof fn law_added_hypotheses_are_listed(prev: Seq<Seq<char>>, curr: Seq<Seq<char>>)
    requires
        curr.len() > 0,
        same_targets(prev, curr),
    ensures
        ({
            let had = hypotheses_of(prev[0]);
            let added = hypotheses_of(curr[0]).filter(|n: Seq<char>| !had.contains(n));
            label_of(prev, curr) == if added.len() == 0 {
                None
            } else {
                Some(" + "@ + joined(added, ", "@))
            }
        }),
{
    lemma_same_targets(prev, curr);
    lemma_names_not_in(hypotheses_of(curr[0]), hypotheses_of(prev[0]));
}

/// Only where as many goals are left as there were, all with the targets they had, does a label
/// list hypotheses or is there none.
pub proof fn law_other_labels_mean_the_same_targets(prev: Seq<Seq<char>>, curr: Seq<Seq<char>>)
    requires
        curr.len() > 0,
        match label_of(prev, curr) {
            Some(label) => label.len() >= 2 && label[1] == '+',
            None => true,
        },
    ensures
        same_targets(prev, curr),
{
    lemma_same_targets(prev, curr);
    if !same_targets(prev, curr) {
        reveal_strlit(" \u{2192} \u{22A2} ");
        reveal_strlit(" \u{22A2} ");
        reveal_strlit(" ");
        assert(targets_of(prev).len() == prev.len());
        if curr.len() == 1 {
            assert(curr =~= seq![curr[0]]);
            assert(prev.len() != 1 || target_of(prev[0]) != target_of(curr[0]));
            law_a_new_target_is_shown(prev, curr[0]);
        } else {
            if prev.len() == curr.len() {
                let i = choose|i: int|
                    0 <= i < prev.len() && target_of(#[trigger] prev[i]) != target_of(curr[i]);
                assert(target_of(prev[i]) != target_of(curr[i]));
            }
            law_several_goals_are_counted(prev, curr);
            law_decimal(curr.len());
            let label = label_of(prev, curr)->0;
            assert(label[1] == decimal_of(curr.len())[0]);
        }
        assert(false);
    }
}

/// The goals of an answer are the texts in its list of goals, in order.
pub proof fn law_goals_are_the_texts_of_an_answer(v: JsonView, items: Seq<JsonView>)
    requires
        v.get("goals"@) == Some(JsonView::Array(items)),
    ensures
        goals_in(Some(v)) == items.filter(|i: JsonView| i is Str).map_values(
            |i: JsonView| i->Str_0,
        ),
        goals_in(None).len() == 0,
{
    law_texts_are_picked(items);
}

// ---------------------------------------------------------------------------------------------
// What hints tell of the reports
// ---------------------------------------------------------------------------------------------
/// Whether one of some reports has a severity.
pub open spec fn some_severity(items: Seq<JsonView>, severity: int) -> bool {
    exists|i: int|
        0 <= i < items.len() && (#[trigger] items[i]).get("severity"@) == Some(
            JsonView::Int(severity),
        )
}

/// Whether one of some reports says that goals are left unsolved.
pub open spec fn some_unsolved(items: Seq<JsonView>) -> bool {
    exists|i: int|
        0 <= i < items.len() && (match (#[trigger] items[i]).get("message"@) {
            Some(JsonView::Str(m)) => m.len() >= 14 && m.take(14) == "unsolved goals"@,
            _ => false,
        })
}

proof fn lemma_worst_severity(items: Seq<JsonView>)
    ensures
        match worst_severity(items) {
            Some(w) => {
                &&& exists|i: int| 0 <= i < items.len() && severity_of(#[trigger] items[i]) == Some(w)
                &&& forall|i: int|
                    0 <= i < items.len() && severity_of(#[trigger] items[i]) is Some ==> w
                        <= severity_of(items[i])->0
            },
            None => forall|i: int| 0 <= i < items.len() ==> severity_of(#[trigger] items[i]) is None,
        },
    decreases items.len(),
{
    if items.len() > 0 {
        let front = items.drop_last();
        let last = items.len() - 1;
        lemma_worst_severity(front);
        assert forall|i: int| 0 <= i < last implies #[trigger] items[i] == front[i] by {}
        if let Some(w) = worst_severity(items) {
            if severity_of(items[last]) == Some(w) {
            } else {
                let i = choose|i: int|
                    0 <= i < front.len() && severity_of(#[trigger] front[i]) == Some(w);
                assert(severity_of(items[i]) == Some(w));
            }
        }
    }
}

/// A line with an error is marked with a cross or, where goals are left unsolved, as such; one with
/// a warning and no error with a warning sign; one with neither is not marked.
pub proof fn law_lines_are_marked_by_their_worst_report(items: Seq<JsonView>)
    requires
        forall|i: int|
            0 <= i < items.len() ==> (match (#[trigger] items[i]).get("severity"@) {
                Some(JsonView::Int(n)) => 1 <= n <= 4,
                _ => true,
            }),
    ensures
        marker_of(items) == if some_severity(items, 1) {
            if some_unsolved(items) {
                Some(" \u{26A0} unsolved"@)
            } else {
                Some(" \u{2717}"@)
            }
        } else if some_severity(items, 2) {
            Some(" \u{26A0}"@)
        } else {
            None
        },
{
    lemma_worst_severity(items);
    assert forall|i: int| 0 <= i < items.len() implies (match severity_of(#[trigger] items[i]) {
        Some(n) => 1 <= n <= 4,
        None => true,
    }) by {}
    if some_severity(items, 1) {
        let i = choose|i: int|
            0 <= i < items.len() && (#[trigger] items[i]).get("severity"@) == Some(
                JsonView::Int(1),
            );
        assert(severity_of(items[i]) == Some(1i64));
    }
    if some_severity(items, 2) {
        let i = choose|i: int|
            0 <= i < items.len() && (#[trigger] items[i]).get("severity"@) == Some(
                JsonView::Int(2),
            );
        assert(severity_of(items[i]) == Some(2i64));
    }
    if let Some(w) = worst_severity(items) {
        let i = choose|i: int| 0 <= i < items.len() && severity_of(#[trigger] items[i]) == Some(w);
        assert(items[i].get("severity"@) == Some(JsonView::Int(w as int)));
    }
    reveal_strlit("unsolved goals");
    assert forall|i: int| 0 <= i < items.len() implies says_unsolved(#[trigger] items[i]) == (
    match items[i].get("message"@) {
        Some(JsonView::Str(m)) => m.len() >= 14 && m.take(14) == "unsolved goals"@,
        _ => false,
    }) by {
        if let Some(JsonView::Str(m)) = items[i].get("message"@) {
            if m.len() >= 14 {
                assert(m.take(14) =~= m.subrange(0, 14));
            }
        }
    }
    if any_unsolved(items) {
        let i = choose|i: int| 0 <= i < items.len() && says_unsolved(#[trigger] items[i]);
        assert(some_unsolved(items));
    }
}

proof fn lemma_report_texts(items: Seq<JsonView>, i: int)
    requires
        0 <= i < items.len(),
        message_of(items[i]) is Some,
    ensures
        report_texts(items).contains(report_text(items[i])),
    decreases items.len(),
{
    let all = report_texts(items);
    if i == items.len() - 1 {
        assert(all.last() == report_text(items[i]));
    } else {
        let front = report_texts(items.drop_last());
        lemma_report_texts(items.drop_last(), i);
        let k = choose|k: int| 0 <= k < front.len() && front[k] == report_text(items[i]);
        assert(all[k] == front[k]);
    }
}

/// Every report with a message is shown with it, behind its severity where it is an error or a
/// warning.
pub proof fn law_every_report_is_shown(items: Seq<JsonView>, i: int, message: Seq<char>)
    requires
        0 <= i < items.len(),
        items[i].get("message"@) == Some(JsonView::Str(message)),
    ensures
        holds(
            reports_text(items),
            if items[i].get("severity"@) == Some(JsonView::Int(1)) {
                "**error**: "@ + message
            } else if items[i].get("severity"@) == Some(JsonView::Int(2)) {
                "**warning**: "@ + message
            } else {
                message
            },
        ),
        items.len() == 1 && items[0].get("severity"@) is None ==> reports_text(items) == message,
{
    lemma_report_texts(items, i);
    let all = report_texts(items);
    let wanted = report_text(items[i]);
    let k = choose|k: int| 0 <= k < all.len() && all[k] == wanted;
    law_joined_holds_each(all, "\n\n"@, k);
    reveal_strlit("");
    assert(""@ + message =~= message);
    if items.len() == 1 {
        assert(items.drop_last().len() == 0);
        assert(report_texts(items.drop_last()) =~= Seq::empty());
        assert(all =~= seq![wanted]);
    }
}

/// There is a hint exactly where a line has a label or a mark; its label is the mark with the label
/// behind it, and its tooltip shows the reports and the goals.
pub proof fn law_what_a_hint_shows(
    line: u64,
    character: u64,
    prev: Option<JsonView>,
    curr: Option<JsonView>,
    items: Seq<JsonView>,
)
    ensures
        ({
            let label = label_of(goals_in(prev), goals_in(curr));
            let mark = marker_of(items);
            let shown = match (if curr is Some {
                curr->0.get("rendered"@)
            } else if prev is Some {
                prev->0.get("rendered"@)
            } else {
                None
            }) {
                Some(JsonView::Str(t)) => t,
                _ => Seq::empty(),
            };
            let reports = reports_text(items);
            match line_hint(line, character, prev, curr, items) {
                Some(h) => {
                    &&& label is Some || mark is Some
                    &&& h.get("label"@) == Some(
                        JsonView::Str(
                            (if mark is Some {
                                mark->0
                            } else {
                                Seq::empty()
                            }) + (if label is Some {
                                label->0
                            } else {
                                Seq::empty()
                            }),
                        ),
                    )
                    &&& h.get("paddingLeft"@) == Some(JsonView::Bool(true))
                    &&& h.get2("tooltip"@, "kind"@) == Some(JsonView::Str("markdown"@))
                    &&& h.get2("tooltip"@, "value"@) == Some(
                        JsonView::Str(
                            if reports.len() > 0 && shown.len() > 0 {
                                reports + "\n\n---\n\n"@ + shown
                            } else {
                                reports + shown
                            },
                        ),
                    )
                },
                None => label is None && mark is None,
            }
        }),
{
    reveal_strlit("position");
    reveal_strlit("label");
    reveal_strlit("paddingLeft");
    reveal_strlit("tooltip");
    reveal_strlit("kind");
    reveal_strlit("value");
    reveal_strlit("");
    assert("position"@.len() == 8 && "label"@.len() == 5);
    assert("paddingLeft"@.len() == 11 && "tooltip"@.len() == 7);
    assert("kind"@.len() == 4 && "value"@.len() == 5);
    let label = label_of(goals_in(prev), goals_in(curr));
    let mark = marker_of(items);
    let reports = reports_text(items);
    let shown = rendered_goal(prev, curr);
    assert(""@ =~= Seq::empty());
    assert(reports.len() == 0 ==> reports + shown =~= shown);
    assert(shown.len() == 0 ==> reports + shown =~= reports);
    let none = Seq::<char>::empty();
    if let Some(l) = label {
        assert(none + l =~= l);
    }
    if let Some(m) = mark {
        assert(m + none =~= m);
    }
}

// ---------------------------------------------------------------------------------------------
// Unfinished proofs
// ---------------------------------------------------------------------------------------------
/// Whether a text has a word at an index, with no letter, digit or underscore beside it.
pub open spec fn word_stands_at(text: Seq<char>, word: Seq<char>, i: int) -> bool {
    let end = i + word.len();
    &&& 0 <= i && end <= text.len() && text.subrange(i, end) == word
    &&& i > 0 ==> !ascii_word_char(text[i - 1])
    &&& end < text.len() ==> !ascii_word_char(text[end])
}

/// The letters and digits of ASCII, and the underscore.
pub open spec fn ascii_word_char(c: char) -> bool {
    'a' <= c <= 'z' || 'A' <= c <= 'Z' || '0' <= c <= '9' || c == '_'
}

proof fn lemma_holds_word(s: Seq<char>, p: Seq<char>, i: int) -> (k: int)
    requires
        p.len() > 0,
        holds_word(s, p, i),
    ensures
        word_stands_at(s, p, k),
    decreases s.len() - i,
{
    if holds_at(s, p, i) {
        if bounded(s, i, i + p.len()) {
            i
        } else {
            lemma_holds_word(s, p, i + p.len())
        }
    } else {
        lemma_holds_word(s, p, i + 1)
    }
}

proof fn lemma_word_stands(text: Seq<char>, word: Seq<char>)
    requires
        word.len() > 0,
        forall|k: int| 0 <= k < word.len() ==> 'a' <= #[trigger] word[k] <= 'z',
    ensures
        holds_word(text, word, 0) <==> exists|i: int| word_stands_at(text, word, i),
{
    if holds_word(text, word, 0) {
        let k = lemma_holds_word(text, word, 0);
        assert(word_stands_at(text, word, k));
    }
    if exists|i: int| word_stands_at(text, word, i) {
        let i = choose|i: int| word_stands_at(text, word, i);
        assert forall|k: int| 0 <= k < word.len() implies is_word_char(#[trigger] word[k]) by {
            assert('a' <= word[k] <= 'z');
        }
        law_words_are_found(text, word, i);
    }
}

/// A line gets a warning exactly if it has `sorry` or `admit` as a word of its own; where it has
/// both, the warning is of `sorry`.
pub proof fn law_unfinished_proofs_are_found(text: Seq<char>, line: u64)
    ensures
        ({
            let sorry = exists|i: int| word_stands_at(text, "sorry"@, i);
            let given_up = exists|i: int| word_stands_at(text, "admit"@, i);
            match unfinished_hint(text, line) {
                Some(h) => (sorry || given_up) && h.get("label"@) == Some(
                    JsonView::Str(
                        if sorry {
                            " \u{26A0} sorry"@
                        } else {
                            " \u{26A0} admit"@
                        },
                    ),
                ),
                None => !sorry && !given_up,
            }
        }),
{
    reveal_strlit("sorry");
    reveal_strlit("admit");
    lemma_word_stands(text, "sorry"@);
    lemma_word_stands(text, "admit"@);
    reveal_strlit("position");
    reveal_strlit("label");
    reveal_strlit("paddingLeft");
    reveal_strlit("tooltip");
    assert("position"@.len() == 8 && "label"@.len() == 5);
    assert("paddingLeft"@.len() == 11 && "tooltip"@.len() == 7);
}

// ---------------------------------------------------------------------------------------------
// What is asked
// ---------------------------------------------------------------------------------------------
/// The goals around a line are asked for exactly if the server has come past it and it is neither
/// blank nor starts with a comment.
pub proof fn law_which_lines_are_asked_about(text: Seq<char>, line: u64, frontier: u64)
    ensures
        ({
            let t = trim_start_of(text);
            worth_probing(text, line, frontier) <==> {
                &&& line < frontier
                &&& t.len() > 0
                &&& !(t.len() >= 2 && t[0] == '-' && t[1] == '-')
                &&& !(t.len() >= 2 && t[0] == '/' && t[1] == '-')
            }
        }),
{
    let t = trim_start_of(text);
    reveal_strlit("--");
    reveal_strlit("/-");
    lemma_prefix("--"@, t);
    lemma_prefix("/-"@, t);
    assert("--"@[0] == '-' && "--"@[1] == '-' && "--"@.len() == 2);
    assert("/-"@[0] == '/' && "/-"@[1] == '-' && "/-"@.len() == 2);
}

/// A line is asked about at its start and, if there are goals there, at its end; then it is done. A
/// line that is not worth it is never asked about.
pub proof fn law_lines_are_asked_about_twice_at_most(
    plan: LinePlan,
    first: JsonView,
    second: Option<JsonView>,
    answers: Seq<Option<JsonView>>,
)
    ensures
        plan.eligible ==> next_step(plan, Seq::empty()) == LineStep::Probe(0),
        plan.eligible ==> next_step(plan, seq![Some(first)]) == LineStep::Probe(plan.line_len),
        next_step(plan, seq![None::<JsonView>]) == LineStep::Finish,
        next_step(plan, seq![Some(first), second]) == LineStep::Finish,
        answers.len() >= 2 ==> next_step(plan, answers) == LineStep::Finish,
        !plan.eligible ==> next_step(plan, answers) == LineStep::Finish,
{
}

/// The plan of a line tells its number, its length in UTF-16 code units, and whether it is worth
/// asking about; a line that is not there has none.
pub proof fn law_plans_tell_of_their_line(
    texts: Texts,
    uri: Seq<char>,
    line: u64,
    frontier: u64,
)
    ensures
        match plan_of(texts, uri, line, frontier) {
            Some(plan) => {
                &&& texts.contains_key(uri) && line < line_count_of(texts[uri])
                &&& plan.line == line
                &&& plan.line_len == utf16_len(
                    trimmed_line(line_of(texts[uri], line as int)),
                ) as u64
                &&& plan.eligible == worth_probing(
                    trimmed_line(line_of(texts[uri], line as int)),
                    line,
                    frontier,
                )
            },
            None => !(texts.contains_key(uri) && line < line_count_of(texts[uri])),
        },
{
}

/// The hints of a line come from the goals at its start and at its end and the reports that cover
/// it, and behind them from an unfinished proof on it.
pub proof fn law_hints_come_from_goals_and_reports(
    state: StateView,
    texts: Texts,
    uri: Seq<char>,
    plan: LinePlan,
    first: Option<JsonView>,
    second: Option<JsonView>,
)
    requires
        texts.contains_key(uri),
        plan.line < line_count_of(texts[uri]),
    ensures
        ({
            let items = at_line(state.diagnostics_of(uri), plan.line);
            let hint = line_hint(plan.line, plan.line_len, first, second, items);
            let text = trimmed_line(line_of(texts[uri], plan.line as int));
            let warning = unfinished_hint(text, plan.line);
            hints_of(state, texts, uri, plan, seq![first, second]) == (if hint is Some {
                seq![hint->0]
            } else {
                Seq::empty()
            }) + (if warning is Some {
                seq![warning->0]
            } else {
                Seq::empty()
            })
        }),
{
    let items = at_line(state.diagnostics_of(uri), plan.line);
    let hint = line_hint(plan.line, plan.line_len, first, second, items);
    let text = trimmed_line(line_of(texts[uri], plan.line as int));
    let warning = unfinished_hint(text, plan.line);
    let a = if hint is Some {
        seq![hint->0]
    } else {
        Seq::empty()
    };
    let b = if warning is Some {
        seq![warning->0]
    } else {
        Seq::empty()
    };
    assert(hints_of(state, texts, uri, plan, seq![first, second]) =~= a + b);
}

/// An answer that is an error or empty stands for no goals, and any other one for itself.
pub proof fn law_empty_answers_are_no_goals(v: JsonView, e: ErrorView)
    ensures
        probe_value(Err(e)) is None,
        probe_value(Ok(JsonView::Null)) is None,
        v != JsonView::Null ==> probe_value(Ok(v)) == Some(v),
{
}

/// A request asks for the lines of its range; without an end it asks for its first line, and
/// without a range for the first line of all.
pub proof fn law_requests_ask_for_their_range(params: JsonView, start: u64, end: u64)
    ensures
        params.get3("range"@, "start"@, "line"@) == Some(JsonView::Int(start as int)) ==> lines_asked(
            params,
        ).0 == start,
        params.get3("range"@, "end"@, "line"@) == Some(JsonView::Int(end as int)) ==> lines_asked(
            params,
        ).1 == end,
        params.get3("range"@, "end"@, "line"@) is None ==> lines_asked(params).1 == lines_asked(
            params,
        ).0,
        params.get3("range"@, "start"@, "line"@) is None ==> lines_asked(params).0 == 0,
{
}

/// Hints are refreshed at once when the server is done with a document, and otherwise a change is
/// followed by one refresh when the time has come; without a change there is none.
pub proof fn law_hints_are_refreshed(
    pending: bool,
    h: HappeningView,
    state: StateView,
    uri: Seq<char>,
)
    ensures
        frontier(state.progress_of(uri)) == u64::MAX ==> hint_refresh(
            pending,
            HappeningView::State(EventView::ProgressChanged(uri)),
            state,
        ) == (false, RefreshView::Refresh),
        frontier(state.progress_of(uri)) != u64::MAX ==> hint_refresh(
            pending,
            HappeningView::State(EventView::ProgressChanged(uri)),
            state,
        ) == (true, RefreshView::Nothing),
        hint_refresh(
            hint_refresh(
                pending,
                HappeningView::State(EventView::DiagnosticsChanged(uri)),
                state,
            ).0,
            HappeningView::Elapsed,
            state,
        ) == (false, RefreshView::Refresh),
        hint_refresh(true, HappeningView::Elapsed, state) == (false, RefreshView::Refresh),
        hint_refresh(false, HappeningView::Elapsed, state) == (false, RefreshView::Nothing),
        hint_refresh(pending, h, state).1 == RefreshView::Refresh ==> (h == HappeningView::Elapsed
            && pending) || (h is State && h->State_0 is ProgressChanged),
        hint_refresh(pending, HappeningView::State(EventView::DidClose(uri)), state) == (
            pending,
            RefreshView::Forget(uri),
        ),
        hint_refresh(pending, HappeningView::State(EventView::DidOpen(uri)), state) == (
            pending,
            RefreshView::Nothing,
        ),
        hint_refresh(pending, h, state).1 == RefreshView::Stop <==> h == HappeningView::Closed,
{
}

/// The hints of several lines are all there, the lines in order: each hint comes from a group, and
/// those of a group stay together.
pub proof fn law_nothing_is_added_to_the_hints(groups: Seq<Seq<JsonView>>, h: JsonView)
    requires
        groups.len() <= usize::MAX,
        assembled(groups).contains(h),
    ensures
        exists|g: int| 0 <= g < groups.len() && (#[trigger] groups[g]).contains(h),
{
    let on_lines = placed(groups);
    let keys = group_lines(on_lines);
    lemma_placed_is_some(groups);
    law_order(keys);
    lemma_sequence_from(on_lines, order_of(keys), h);
    let k = choose|k: int| 0 <= k < on_lines.len() && (#[trigger] on_lines[k]).contains(h);
    lemma_placed(groups, on_lines[k]);
    assert(on_lines.contains(on_lines[k]));
    let g = choose|g: int| 0 <= g < groups.len() && groups[g] == on_lines[k];
    assert(groups[g].contains(h));
}

proof fn lemma_placed_is_some(groups: Seq<Seq<JsonView>>)
    ensures
        placed(groups).len() <= groups.len(),
    decreases groups.len(),
{
    if groups.len() > 0 {
        lemma_placed_is_some(groups.drop_last());
    }
}

proof fn lemma_sequence_from(groups: Seq<Seq<JsonView>>, order: Seq<usize>, h: JsonView)
    requires
        in_sequence(groups, order).contains(h),
        forall|k: int| 0 <= k < order.len() ==> 0 <= #[trigger] order[k] < groups.len(),
    ensures
        exists|k: int| 0 <= k < groups.len() && (#[trigger] groups[k]).contains(h),
    decreases order.len(),
{
    if order.len() > 0 {
        let front = in_sequence(groups, order.drop_last());
        let last = groups[order[order.len() - 1] as int];
        let i = choose|i: int| 0 <= i < (front + last).len() && (front + last)[i] == h;
        if i < front.len() {
            assert(front[i] == h);
            assert forall|k: int| 0 <= k < order.drop_last().len() implies 0
                <= #[trigger] order.drop_last()[k] < groups.len() by {
                assert(order.drop_last()[k] == order[k]);
            }
            lemma_sequence_from(groups, order.drop_last(), h);
        } else {
            assert(last[i - front.len()] == h);
            assert(groups[order[order.len() - 1] as int].contains(h));
        }
    }
}

/// What stands behind the first colon of a line makes no difference to the names that the line
/// introduces, and every name is a part of what stands in front of it.
pub proof fn law_nothing_behind_the_colon_is_a_name(
    front: Seq<char>,
    one: Seq<char>,
    other: Seq<char>,
)
    requires
        forall|i: int| 0 <= i < front.len() ==> #[trigger] front[i] != ':',
    ensures
        names_on_line(front + seq![':'] + one) == names_on_line(front + seq![':'] + other),
        !"case "@.is_prefix_of(trim_start_of(front)) ==> names_on_line(front + seq![':'] + one)
            == words_of(trim_start_of(front)),
{
    lemma_names_in_front(front, one);
    lemma_names_in_front(front, other);
}

proof fn lemma_names_in_front(front: Seq<char>, rest: Seq<char>)
    requires
        forall|i: int| 0 <= i < front.len() ==> #[trigger] front[i] != ':',
    ensures
        names_on_line(front + seq![':'] + rest) == if "case "@.is_prefix_of(
            trim_start_of(front),
        ) {
            Seq::empty()
        } else {
            words_of(trim_start_of(front))
        },
{
    let line = front + seq![':'] + rest;
    let colon = front.len() as int;
    assert(line[colon] == ':');
    assert(!is_white(':'));
    law_trim_start(line);
    law_trim_start(front);
    let s = trim_start_of(line);
    let f = trim_start_of(front);
    let cut = line.len() - s.len();
    let cut_front = front.len() - f.len();
    if cut > colon {
        assert(is_white(line[colon]));
    }
    if cut < cut_front {
        assert(s[0] == line[cut]);
        assert(line[cut] == front[cut]);
    }
    if cut_front < cut {
        assert(f[0] == front[cut_front]);
        assert(line[cut_front] == front[cut_front]);
    }
    assert(cut == cut_front);
    law_trim_end(s);
    let t = trim_of(line);
    assert(s[colon - cut] == line[colon]);
    assert(t.len() > colon - cut);
    assert(t =~= line.subrange(cut, cut + t.len()));
    law_first_index(t, ':');
    let at = first_index(t, ':') as int;
    assert(t[colon - cut] == ':');
    if at < colon - cut {
        assert(t[at] == line[at + cut]);
        assert(line[at + cut] == front[at + cut]);
    }
    assert(t.take(at) =~= f);
    let word = "case "@;
    reveal_strlit("case ");
    lemma_prefix(word, t);
    lemma_prefix(word, f);
    assert forall|i: int| 0 <= i < f.len() implies #[trigger] f[i] == t[i] by {
        assert(t.take(at)[i] == t[i]);
    }
    if word.is_prefix_of(t) && f.len() < 5 {
        assert(t[f.len() as int] == word[f.len() as int]);
        assert(t[f.len() as int] == ':');
    }
}

/// The names of several lines are those of each line, one line after the other.
pub proof fn law_names_come_line_by_line(a: Seq<Seq<char>>, b: Seq<Seq<char>>, line: Seq<char>)
    ensures
        names_on_lines(Seq::empty()) == Seq::<Seq<char>>::empty(),
        names_on_lines(seq![line]) == names_on_line(line),
        names_on_lines(a + b) == names_on_lines(a) + names_on_lines(b),
    decreases b.len(),
{
    assert(seq![line].drop_last() =~= Seq::empty());
    assert(names_on_lines(seq![line].drop_last()) =~= Seq::empty());
    assert(names_on_lines(seq![line]) =~= names_on_line(line));
    if b.len() == 0 {
        assert(a + b =~= a);
        assert(names_on_lines(a) + names_on_lines(b) =~= names_on_lines(a));
    } else {
        law_names_come_line_by_line(a, b.drop_last(), line);
        assert((a + b).drop_last() =~= a + b.drop_last());
        assert((a + b).last() == b.last());
        assert(names_on_lines(a + b) =~= names_on_lines(a) + names_on_lines(b));
    }
}

/// Every group of hints whose first hint says its line is placed once, and the others are not.
pub proof fn law_groups_are_placed_once(groups: Seq<Seq<JsonView>>)
    ensures
        placed(groups) == groups.filter(
            |g: Seq<JsonView>|
                g.len() > 0 && u64_in(g[0].get2("position"@, "line"@)) is Some,
        ),
    decreases groups.len(),
{
    reveal(Seq::filter);
    if groups.len() > 0 {
        law_groups_are_placed_once(groups.drop_last());
    }
}

} // verus!
