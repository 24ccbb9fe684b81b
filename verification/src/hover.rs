//! Hovers with the goal at the position added.
use crate::json::{
    array_in, copy_items, items_view, lemma_items_view, ref_view, str_in, Json, JsonView,
};
use crate::lsp::{result_view, ErrorView, ResponseError};
use crate::snoop::opt_str;
use crate::state::{frontier, line_in_work, StateHandle, StateView};
use crate::text::{
    appended, chars_of, holds, is_white, join, joined, law_holds, law_joined_holds_each,
    law_trim_start, names_view, text_of, trim_start, trim_start_of,
};
use vstd::prelude::*;

verus! {

/// A goal as a block of Lean code.
pub open spec fn fenced(goal: Seq<char>) -> Seq<char> {
    "```lean\n"@ + goal + "\n```"@
}

/// The texts among some items, each as a block of Lean code.
pub open spec fn fenced_texts(items: Seq<JsonView>) -> Seq<Seq<char>>
    decreases items.len(),
{
    if items.len() == 0 {
        Seq::empty()
    } else {
        let front = fenced_texts(items.drop_last());
        match items.last() {
            JsonView::Str(s) => front.push(fenced(s)),
            _ => front,
        }
    }
}

/// The goals in an answer of the server, in Markdown: as it rendered them, or else each as a block
/// of code.
pub open spec fn markdown_of(goal: JsonView) -> Seq<char> {
    let rendered = str_in(goal.get("rendered"@));
    if rendered is Some && rendered->0.len() > 0 {
        rendered->0
    } else {
        match array_in(goal.get("goals"@)) {
            Some(items) => joined(fenced_texts(items), "\n\n"@),
            None => Seq::empty(),
        }
    }
}

/// What is put behind a hover.
pub open spec fn goal_block(markdown: Seq<char>) -> Seq<char> {
    "\n\n---\n\n**Goal at this position:**\n\n"@ + markdown
}

/// A Markdown text as the contents of a hover.
pub open spec fn markup(value: Seq<char>) -> JsonView {
    JsonView::Object(map!["kind"@ => JsonView::Str("markdown"@), "value"@ => JsonView::Str(value)])
}

/// The contents of a hover with a block behind them, in whichever form they came.
pub open spec fn contents_with(contents: Option<JsonView>, block: Seq<char>) -> JsonView {
    match contents {
        Some(JsonView::Object(m)) => {
            let filled = match str_in(JsonView::Object(m).get("value"@)) {
                Some(v) => m.insert("value"@, JsonView::Str(v + block)),
                None => m,
            };
            if filled.contains_key("kind"@) {
                JsonView::Object(filled)
            } else {
                JsonView::Object(filled.insert("kind"@, JsonView::Str("markdown"@)))
            }
        },
        Some(JsonView::Str(s)) => markup(s + block),
        Some(JsonView::Array(items)) => JsonView::Array(
            items.push(
                JsonView::Object(
                    map![
                        "language"@ => JsonView::Str("markdown"@),
                        "value"@ => JsonView::Str(block),
                    ],
                ),
            ),
        ),
        _ => markup(trim_start_of(block)),
    }
}

/// A hover with the goal added. Without a goal it stays as it is, and without a hover the goal
/// becomes one.
pub open spec fn merged(hover: JsonView, goal: JsonView) -> JsonView {
    let markdown = markdown_of(goal);
    let block = goal_block(markdown);
    if markdown.len() == 0 {
        hover
    } else {
        match hover {
            JsonView::Null => JsonView::Object(map!["contents"@ => markup(trim_start_of(block))]),
            JsonView::Object(_) => hover.with(
                "contents"@,
                contents_with(hover.get("contents"@), block),
            ),
            _ => hover,
        }
    }
}

/// The goals in an answer of the server, in Markdown.
pub fn goal_to_markdown(goal: &Json) -> (r: String)
    ensures
        r@ == markdown_of(goal@),
{
    if let Some(rendered) = opt_str(goal.get("rendered")) {
        let chars = chars_of(rendered);
        if chars.len() > 0 {
            return rendered.to_string();
        }
    }
    let items = match goal.get("goals") {
        Some(v) => match v.as_array() {
            Some(items) => items,
            None => {
                return String::new();
            },
        },
        None => {
            return String::new();
        },
    };
    let mut parts: Vec<String> = Vec::new();
    let mut i: usize = 0;
    let ghost all = items_view(items@);
    proof {
        lemma_items_view(items@);
        assert(all.take(0) =~= Seq::empty());
        assert(names_view(parts@) =~= Seq::empty());
    }
    while i < items.len()
        invariant
            i <= items.len(),
            all.len() == items.len(),
            forall|k: int| 0 <= k < items.len() ==> #[trigger] all[k] == items@[k]@,
            names_view(parts@) == fenced_texts(all.take(i as int)),
        decreases items.len() - i,
    {
        let ghost before = parts@;
        assert(all.take(i as int + 1).drop_last() =~= all.take(i as int));
        assert(all.take(i as int + 1).last() == items@[i as int]@);
        if let Some(g) = items[i].as_str() {
            let part = appended(appended("```lean\n", g).as_str(), "\n```");
            parts.push(part);
            assert(names_view(parts@) =~= names_view(before).push(part@));
        }
        i += 1;
    }
    assert(all.take(i as int) =~= all);
    join(&parts, "\n\n")
}

fn markup_of(value: Json) -> (r: Json)
    requires
        value@ is Str,
    ensures
        r@ == markup(value@->Str_0),
{
    Json::object().with("kind", Json::text("markdown")).with("value", value)
}

fn trimmed_block(block: &str) -> (r: Json)
    ensures
        r@ == JsonView::Str(trim_start_of(block@)),
{
    let chars = chars_of(block);
    Json::Str(text_of(trim_start(chars.as_slice())))
}

/// The contents of a hover with a block behind them.
fn add_block(contents: Option<&Json>, block: &str) -> (r: Json)
    ensures
        r@ == contents_with(ref_view(contents), block@),
{
    match contents {
        Some(Json::Object(_)) => {
            let object = match contents {
                Some(c) => c.copy(),
                None => Json::Null,
            };
            let value = match opt_str(object.get("value")) {
                Some(v) => Some(Json::Str(appended(v, block))),
                None => None,
            };
            let filled = match value {
                Some(v) => object.with("value", v),
                None => object,
            };
            if filled.get("kind").is_some() {
                filled
            } else {
                filled.with("kind", Json::text("markdown"))
            }
        },
        Some(Json::Str(s)) => markup_of(Json::Str(appended(s.as_str(), block))),
        Some(Json::Array(items)) => {
            let mut all = copy_items(items);
            let ghost before = all@;
            all.push(
                Json::object().with("language", Json::text("markdown")).with(
                    "value",
                    Json::text(block),
                ),
            );
            assert(all@.drop_last() =~= before);
            Json::Array(all)
        },
        _ => markup_of(trimmed_block(block)),
    }
}

/// A hover with the goal added.
pub fn merge_hover_value(hover: Json, goal: &Json) -> (r: Json)
    ensures
        r@ == merged(hover@, goal@),
{
    let markdown = goal_to_markdown(goal);
    let chars = chars_of(markdown.as_str());
    if chars.len() == 0 {
        return hover;
    }
    let block = appended("\n\n---\n\n**Goal at this position:**\n\n", markdown.as_str());
    if hover.is_null() {
        return Json::object().with("contents", markup_of(trimmed_block(block.as_str())));
    }
    if hover.is_object() {
        let contents = add_block(hover.get("contents"), block.as_str());
        return hover.with("contents", contents);
    }
    hover
}

/// The parameters of a request about a position.
pub open spec fn position_params(uri: Seq<char>, line: u64, character: u64) -> JsonView {
    JsonView::Object(
        map![
            "textDocument"@ => JsonView::Object(map!["uri"@ => JsonView::Str(uri)]),
            "position"@ => JsonView::Object(
                map![
                    "line"@ => JsonView::Int(line as int),
                    "character"@ => JsonView::Int(character as int),
                ],
            ),
        ],
    )
}

/// The parameters of a request about a position.
pub fn at_position(uri: &str, line: u64, character: u64) -> (r: Json)
    ensures
        r@ == position_params(uri@, line, character),
{
    Json::object().with("textDocument", Json::object().with("uri", Json::text(uri))).with(
        "position",
        Json::object().with("line", Json::number(line)).with("character", Json::number(character)),
    )
}

/// Whether the server can know the goal at a line by now: it has come past the line, and is not
/// at it again.
pub open spec fn worth_querying(state: StateView, uri: Seq<char>, line: u64) -> bool {
    line < frontier(state.progress_of(uri)) && !line_in_work(state.progress_of(uri), line)
}

/// Whether the server can know the goal at a line by now.
pub fn goal_worth_querying(state: &StateHandle, uri: &str, line: u64) -> (r: bool)
    ensures
        r == worth_querying(state@, uri@, line),
{
    line < state.elaboration_frontier(uri) && !state.is_processing(uri, line)
}

/// How long the goal of a hover is waited for, in milliseconds.
pub const GOAL_TIMEOUT_MILLIS: u64 = 150;

/// What a result is taken for: nothing, where it is an error.
pub open spec fn value_or_null(r: Result<JsonView, ErrorView>) -> JsonView {
    match r {
        Ok(v) => v,
        Err(_) => JsonView::Null,
    }
}

/// The answer to a hover, from what the server said of the hover and of the goal. A goal that was
/// not asked for, or did not come in time, is none.
pub open spec fn hover_answer(
    hover: Result<JsonView, ErrorView>,
    goal: Option<Result<JsonView, ErrorView>>,
) -> JsonView {
    merged(
        value_or_null(hover),
        match goal {
            Some(g) => value_or_null(g),
            None => JsonView::Null,
        },
    )
}

fn or_null(r: Result<Json, ResponseError>) -> (v: Json)
    ensures
        v@ == value_or_null(result_view(r)),
{
    match r {
        Ok(v) => v,
        Err(_) => Json::Null,
    }
}

/// The answer to a hover.
pub fn merge_hover(
    hover: Result<Json, ResponseError>,
    goal: Option<Result<Json, ResponseError>>,
) -> (r: Json)
    ensures
        r@ == hover_answer(
            result_view(hover),
            match goal {
                Some(g) => Some(result_view(g)),
                None => None,
            },
        ),
{
    let goal_value = match goal {
        Some(g) => or_null(g),
        None => Json::Null,
    };
    merge_hover_value(or_null(hover), &goal_value)
}

/// Without a goal a hover stays as it is: without an answer, and with one that has nothing to show.
pub proof fn law_no_goal_no_change(hover: JsonView, goal: JsonView)
    requires
        goal == JsonView::Null || markdown_of(goal).len() == 0,
    ensures
        merged(hover, goal) == hover,
{
}

/// Adding a goal changes nothing of a hover but its contents.
pub proof fn law_only_contents_change(hover: JsonView, goal: JsonView, key: Seq<char>)
    requires
        hover is Object,
        key != "contents"@,
    ensures
        merged(hover, goal).get(key) == hover.get(key),
{
}

/// The text that the contents of a hover show: a plain one, or one with its kind.
pub open spec fn shown_text(contents: Option<JsonView>) -> Option<Seq<char>> {
    match contents {
        Some(JsonView::Str(s)) => Some(s),
        Some(JsonView::Object(m)) => str_in(JsonView::Object(m).get("value"@)),
        _ => None,
    }
}

/// The text of a hover stays in front of the goal.
pub proof fn law_text_stays_in_front(hover: JsonView, goal: JsonView, text: Seq<char>)
    requires
        hover is Object,
        shown_text(hover.get("contents"@)) == Some(text),
        markdown_of(goal).len() > 0,
    ensures
        merged(hover, goal).get2("contents"@, "value"@) == Some(
            JsonView::Str(text + goal_block(markdown_of(goal))),
        ),
{
    reveal_strlit("value");
    reveal_strlit("kind");
    assert("value"@.len() == 5 && "kind"@.len() == 4);
}

/// Whether a text ends with another one.
pub open spec fn ends_with(s: Seq<char>, end: Seq<char>) -> bool {
    end.len() <= s.len() && s.skip(s.len() - end.len()) == end
}

/// The text that a merged hover shows.
spec fn merged_text(hover: JsonView, goal: JsonView) -> Option<Seq<char>> {
    str_in(merged(hover, goal).get2("contents"@, "value"@))
}

proof fn lemma_block_is_shown(hover: JsonView, goal: JsonView)
    requires
        markdown_of(goal).len() > 0,
        hover == JsonView::Null || (hover is Object && ({
            ||| shown_text(hover.get("contents"@)) is Some
            ||| hover.get("contents"@) is None
        })),
    ensures
        ({
            let text = shown_text(hover.get("contents"@));
            merged_text(hover, goal) == Some(
                match text {
                    Some(text) => text + "\n\n---\n\n**Goal at this position:**\n\n"@,
                    None => "---\n\n**Goal at this position:**\n\n"@,
                } + markdown_of(goal),
            )
        }),
{
    let markdown = markdown_of(goal);
    let block = goal_block(markdown);
    let long = "\n\n---\n\n**Goal at this position:**\n\n"@;
    let short = "---\n\n**Goal at this position:**\n\n"@;
    reveal_strlit("\n\n---\n\n**Goal at this position:**\n\n");
    reveal_strlit("---\n\n**Goal at this position:**\n\n");
    assert(long.skip(2) =~= short);
    assert(block == long + markdown);
    law_trim_start(block);
    let t = trim_start_of(block);
    let cut = block.len() - t.len();
    assert(block[0] == '\n' && block[1] == '\n' && block[2] == '-');
    assert(!is_white(block[2]));
    assert(cut <= 2);
    assert(t.len() > 0);
    assert(t[0] == block[cut]);
    assert(cut == 2);
    assert(t =~= short + markdown);
    reveal_strlit("value");
    reveal_strlit("kind");
    assert("value"@.len() == 5 && "kind"@.len() == 4);
    match shown_text(hover.get("contents"@)) {
        Some(text) => {
            law_text_stays_in_front(hover, goal, text);
            assert(text + block =~= text + long + markdown);
        },
        None => {},
    }
}

/// A goal that the server rendered is shown whole, behind its heading: at the end of the hover's
/// own text or, where there is none, by itself.
pub proof fn law_rendered_goal_is_shown(hover: JsonView, goal: JsonView, rendered: Seq<char>)
    requires
        goal.get("rendered"@) == Some(JsonView::Str(rendered)),
        rendered.len() > 0,
        hover == JsonView::Null || (hover is Object && ({
            ||| shown_text(hover.get("contents"@)) is Some
            ||| hover.get("contents"@) is None
        })),
    ensures
        match merged(hover, goal).get2("contents"@, "value"@) {
            Some(JsonView::Str(shown)) => {
                &&& ends_with(shown, rendered)
                &&& match shown_text(hover.get("contents"@)) {
                    Some(text) => shown == text + "\n\n---\n\n**Goal at this position:**\n\n"@
                        + rendered,
                    None => shown == "---\n\n**Goal at this position:**\n\n"@ + rendered,
                }
            },
            _ => false,
        },
{
    assert(str_in(goal.get("rendered"@)) == Some(rendered));
    assert(rendered == markdown_of(goal));
    lemma_block_is_shown(hover, goal);
    let shown = merged_text(hover, goal)->0;
    assert(shown.skip(shown.len() - rendered.len()) =~= rendered);
}

proof fn lemma_fenced_texts(items: Seq<JsonView>, i: int)
    requires
        0 <= i < items.len(),
        items[i] is Str,
    ensures
        fenced_texts(items).contains(fenced(items[i]->Str_0)),
    decreases items.len(),
{
    let front = fenced_texts(items.drop_last());
    let all = fenced_texts(items);
    let wanted = fenced(items[i]->Str_0);
    if i == items.len() - 1 {
        assert(all.last() == wanted);
    } else {
        lemma_fenced_texts(items.drop_last(), i);
        let k = choose|k: int| 0 <= k < front.len() && front[k] == wanted;
        assert(all[k] == wanted);
    }
}

proof fn lemma_fenced_texts_all(items: Seq<JsonView>)
    requires
        forall|i: int| 0 <= i < items.len() ==> (#[trigger] items[i]) is Str,
    ensures
        fenced_texts(items).len() == items.len(),
        forall|i: int|
            0 <= i < items.len() ==> fenced_texts(items)[i] == "```lean\n"@ + (
            #[trigger] items[i])->Str_0 + "\n```"@,
    decreases items.len(),
{
    if items.len() > 0 {
        let front = items.drop_last();
        assert forall|i: int| 0 <= i < front.len() implies (#[trigger] front[i]) is Str by {
            assert(front[i] == items[i]);
        }
        lemma_fenced_texts_all(front);
        assert(items[items.len() - 1] is Str);
        assert forall|i: int| 0 <= i < items.len() implies fenced_texts(items)[i] == "```lean\n"@ + (
        #[trigger] items[i])->Str_0 + "\n```"@ by {
            if i < front.len() {
                assert(front[i] == items[i]);
            }
        }
    }
}

/// Goals that the server did not render are each shown whole, as a block of Lean code.
pub proof fn law_every_goal_is_shown(
    hover: JsonView,
    goal: JsonView,
    goals: Seq<JsonView>,
    i: int,
)
    requires
        !(goal.get("rendered"@) is Some && goal.get("rendered"@)->0 is Str
            && goal.get("rendered"@)->0->Str_0.len() > 0),
        goal.get("goals"@) == Some(JsonView::Array(goals)),
        0 <= i < goals.len(),
        goals[i] is Str,
        hover == JsonView::Null || (hover is Object && ({
            ||| shown_text(hover.get("contents"@)) is Some
            ||| hover.get("contents"@) is None
        })),
    ensures
        match merged(hover, goal).get2("contents"@, "value"@) {
            Some(JsonView::Str(shown)) => holds(
                shown,
                "```lean\n"@ + goals[i]->Str_0 + "\n```"@,
            ),
            _ => false,
        },
{
    let parts = fenced_texts(goals);
    let wanted = "```lean\n"@ + goals[i]->Str_0 + "\n```"@;
    assert(wanted == fenced(goals[i]->Str_0));
    lemma_fenced_texts(goals, i);
    let k = choose|k: int| 0 <= k < parts.len() && parts[k] == wanted;
    law_joined_holds_each(parts, "\n\n"@, k);
    let markdown = markdown_of(goal);
    assert(markdown == joined(parts, "\n\n"@));
    assert(holds(markdown, wanted));
    reveal_strlit("```lean\n");
    law_holds(Seq::empty(), wanted, Seq::empty(), markdown);
    let (a, b) = choose|a: Seq<char>, b: Seq<char>| #[trigger] (a + wanted + b) == markdown;
    assert(markdown.len() >= wanted.len() > 0);
    lemma_block_is_shown(hover, goal);
    let shown = merged_text(hover, goal)->0;
    let head = shown.take(shown.len() - markdown.len());
    assert(shown =~= head + markdown);
    assert(shown =~= (head + a) + wanted + b);
    law_holds(head + a, wanted, b, shown);
}

/// Goals that the server did not render come in their order, with an empty line in between.
pub proof fn law_goals_come_in_order(goal: JsonView, goals: Seq<JsonView>)
    requires
        goal.get("rendered"@) is None,
        goal.get("goals"@) == Some(JsonView::Array(goals)),
        forall|i: int| 0 <= i < goals.len() ==> (#[trigger] goals[i]) is Str,
    ensures
        markdown_of(goal) == joined(
            Seq::new(goals.len(), |i: int| "```lean\n"@ + goals[i]->Str_0 + "\n```"@),
            "\n\n"@,
        ),
{
    lemma_fenced_texts_all(goals);
    assert(fenced_texts(goals) =~= Seq::new(
        goals.len(),
        |i: int| "```lean\n"@ + goals[i]->Str_0 + "\n```"@,
    ));
}

/// The contents of a hover that are a list get the goal as one more item at the end.
pub proof fn law_a_list_gets_one_more_item(hover: JsonView, goal: JsonView, items: Seq<JsonView>)
    requires
        hover is Object,
        hover.get("contents"@) == Some(JsonView::Array(items)),
        markdown_of(goal).len() > 0,
    ensures
        match merged(hover, goal).get("contents"@) {
            Some(JsonView::Array(all)) => {
                &&& all.len() == items.len() + 1
                &&& all.drop_last() == items
                &&& all.last().get("language"@) == Some(JsonView::Str("markdown"@))
                &&& all.last().get("value"@) == Some(
                    JsonView::Str(
                        "\n\n---\n\n**Goal at this position:**\n\n"@ + markdown_of(goal),
                    ),
                )
            },
            _ => false,
        },
{
    reveal_strlit("language");
    reveal_strlit("value");
    assert("language"@.len() == 8 && "value"@.len() == 5);
    let block = goal_block(markdown_of(goal));
    let item = JsonView::Object(
        map!["language"@ => JsonView::Str("markdown"@), "value"@ => JsonView::Str(block)],
    );
    assert(items.push(item).drop_last() =~= items);
}

/// Contents with their kind keep it, and other contents become Markdown.
pub proof fn law_goals_are_markdown(hover: JsonView, goal: JsonView)
    requires
        markdown_of(goal).len() > 0,
        hover == JsonView::Null || (hover is Object && !(hover.get("contents"@) is Some
            && hover.get("contents"@)->0 is Array)),
    ensures
        merged(hover, goal).get2("contents"@, "kind"@) == match hover.get2("contents"@, "kind"@) {
            Some(kind) => Some(kind),
            None => Some(JsonView::Str("markdown"@)),
        },
{
    reveal_strlit("value");
    reveal_strlit("kind");
    assert("value"@.len() == 5 && "kind"@.len() == 4);
}

/// An answer without goals, and no answer, have nothing to show.
pub proof fn law_nothing_to_show(goal: JsonView)
    requires
        ({
            ||| !(goal is Object)
            ||| goal.get("rendered"@) is None && goal.get("goals"@) is None
            ||| goal.get("rendered"@) is None && goal.get("goals"@) == Some(
                JsonView::Array(Seq::empty()),
            )
        }),
    ensures
        forall|hover: JsonView| #[trigger] merged(hover, goal) == hover,
{
}

/// The goal is asked for exactly at the lines that the server has come past and is not at again.
pub proof fn law_when_a_goal_is_asked_for(state: StateView, uri: Seq<char>, line: u64)
    ensures
        !worth_querying(state, uri, line) <==> (frontier(state.progress_of(uri)) <= line
            || line_in_work(state.progress_of(uri), line)),
{
}

/// A goal that did not come, or that is an error, leaves the hover of the server; a hover that is
/// an error counts as none.
pub proof fn law_late_goals_are_left_out(
    hover: Result<JsonView, ErrorView>,
    error: ErrorView,
    goal: JsonView,
)
    ensures
        hover is Ok ==> hover_answer(hover, None) == hover->Ok_0,
        hover is Ok ==> hover_answer(hover, Some(Err(error))) == hover->Ok_0,
        hover is Ok ==> hover_answer(hover, Some(Ok(goal))) == merged(hover->Ok_0, goal),
        hover is Err ==> hover_answer(hover, Some(Ok(goal))) == merged(JsonView::Null, goal),
{
}

/// The parameters of a request about a position name the document, the line and the column.
pub proof fn law_positions_are_spelled_out(uri: Seq<char>, line: u64, character: u64)
    ensures
        ({
            let p = position_params(uri, line, character);
            &&& p.get2("textDocument"@, "uri"@) == Some(JsonView::Str(uri))
            &&& p.get2("position"@, "line"@) == Some(JsonView::Int(line as int))
            &&& p.get2("position"@, "character"@) == Some(JsonView::Int(character as int))
        }),
{
    reveal_strlit("textDocument");
    reveal_strlit("position");
    reveal_strlit("line");
    reveal_strlit("character");
    assert("textDocument"@.len() == 12 && "position"@.len() == 8);
    assert("line"@.len() == 4 && "character"@.len() == 9);
}

} // verus!
