//! Restarts a document whose imports the server finds outdated, by closing and opening it for the
//! server.
use crate::documents::{Documents, Texts};
use crate::json::{items_view, lemma_items_view, str_in, Json, JsonView};
use crate::semantic_tokens::version_or_zero;
use crate::snoop::opt_str;
use crate::state::{StateHandle, StateView};
use crate::text::{chars_of, contains, holds, holds_at};
use crate::text_map::TextMap;
use vstd::prelude::*;

verus! {

/// How long a document is left alone after a restart, in seconds.
pub const COOLDOWN_SECS: u64 = 10;

/// A second in nanoseconds.
pub const NANOS_PER_SEC: u64 = 1_000_000_000;

/// The language of the documents.
pub const LANGUAGE_ID: &'static str = "lean4";

// ---------------------------------------------------------------------------------------------
// Reports
// ---------------------------------------------------------------------------------------------
/// A character in lower case, where it is an ASCII letter.
pub open spec fn lower(c: char) -> char {
    if 'A' <= c <= 'Z' {
        ((c as u32) + 32) as char
    } else {
        c
    }
}

/// A text with its ASCII letters in lower case.
pub open spec fn lowered(s: Seq<char>) -> Seq<char> {
    s.map_values(|c: char| lower(c))
}

/// Whether a message says that imports are outdated.
pub open spec fn says_outdated(message: Seq<char>) -> bool {
    let m = lowered(message);
    holds(m, "import"@) && (holds(m, "outdated"@) || holds(m, "out of date"@) || holds(
        m,
        "restart"@,
    ))
}

/// Whether a report says that imports are outdated.
pub open spec fn reports_outdated(d: JsonView) -> bool {
    str_in(d.get("message"@)) matches Some(m) && says_outdated(m)
}

/// Whether one of some reports says that imports are outdated.
pub open spec fn any_outdated(items: Seq<JsonView>) -> bool {
    exists|i: int| 0 <= i < items.len() && reports_outdated(#[trigger] items[i])
}

fn lower_char(c: char) -> (r: char)
    ensures
        r == lower(c),
{
    if 'A' <= c && c <= 'Z' {
        ((c as u8) + 32) as char
    } else {
        c
    }
}

/// Whether a message says that imports are outdated.
pub fn is_outdated_imports(message: &str) -> (r: bool)
    ensures
        r == says_outdated(message@),
{
    let chars = chars_of(message);
    let mut low: Vec<char> = Vec::new();
    let mut i: usize = 0;
    while i < chars.len()
        invariant
            i <= chars.len(),
            low.len() == i,
            forall|k: int| 0 <= k < i ==> #[trigger] low@[k] == lower(chars@[k]),
        decreases chars.len() - i,
    {
        low.push(lower_char(chars[i]));
        i += 1;
    }
    assert(low@ =~= lowered(message@));
    let s = low.as_slice();
    contains(s, "import") && (contains(s, "outdated") || contains(s, "out of date") || contains(
        s,
        "restart",
    ))
}

fn needs_restart(diagnostics: &Vec<Json>) -> (r: bool)
    ensures
        r == any_outdated(items_view(diagnostics@)),
{
    let ghost all = items_view(diagnostics@);
    let mut i: usize = 0;
    proof {
        lemma_items_view(diagnostics@);
    }
    while i < diagnostics.len()
        invariant
            i <= diagnostics.len(),
            all == items_view(diagnostics@),
            all.len() == diagnostics.len(),
            forall|k: int| 0 <= k < diagnostics.len() ==> #[trigger] all[k] == diagnostics@[k]@,
            forall|k: int| 0 <= k < i ==> !reports_outdated(#[trigger] all[k]),
        decreases diagnostics.len() - i,
    {
        if let Some(m) = opt_str(diagnostics[i].get("message")) {
            if is_outdated_imports(m) {
                assert(reports_outdated(all[i as int]));
                return true;
            }
        }
        assert(!reports_outdated(all[i as int]));
        i += 1;
    }
    false
}

// ---------------------------------------------------------------------------------------------
// Restarts
// ---------------------------------------------------------------------------------------------
/// The parameters that close a document for the server.
pub open spec fn close_message(uri: Seq<char>) -> JsonView {
    JsonView::Object(
        map!["textDocument"@ => JsonView::Object(map!["uri"@ => JsonView::Str(uri)])],
    )
}

/// The parameters that open a document for the server.
pub open spec fn open_message(uri: Seq<char>, version: i64, text: Seq<char>) -> JsonView {
    JsonView::Object(
        map![
            "textDocument"@ => JsonView::Object(
                map![
                    "uri"@ => JsonView::Str(uri),
                    "languageId"@ => JsonView::Str(LANGUAGE_ID@),
                    "version"@ => JsonView::Int(version as int),
                    "text"@ => JsonView::Str(text),
                ],
            ),
        ],
    )
}

/// Whether a document was restarted a short while ago. Times are nanoseconds of one clock; one
/// behind the present counts as the present.
pub open spec fn cooling(times: Map<Seq<char>, u64>, uri: Seq<char>, now: u64) -> bool {
    times.contains_key(uri) && (now <= times[uri] || (now - times[uri]) / (NANOS_PER_SEC as int)
        < COOLDOWN_SECS)
}

/// Whether a document is restarted: the feature is on, the document is known and was not restarted
/// a short while ago, and its imports are reported outdated.
pub open spec fn restarts(
    times: Map<Seq<char>, u64>,
    state: StateView,
    texts: Texts,
    uri: Seq<char>,
    now: u64,
) -> bool {
    &&& state.config.auto_restart
    &&& !cooling(times, uri, now)
    &&& any_outdated(state.diagnostics_of(uri))
    &&& texts.contains_key(uri)
}

/// The parameters of the two messages that restart a document.
#[derive(Debug)]
pub struct Restart {
    pub close: Json,
    pub open: Json,
}

/// When each document was restarted last.
pub struct RestartLog {
    last: TextMap<u64>,
}

impl View for RestartLog {
    type V = Map<Seq<char>, u64>;

    closed spec fn view(&self) -> Map<Seq<char>, u64> {
        self.last@
    }
}

impl RestartLog {
    /// No restarts.
    pub fn new() -> (r: RestartLog)
        ensures
            r@ == Map::<Seq<char>, u64>::empty(),
    {
        RestartLog { last: TextMap::new() }
    }

    /// Forgets a document that was closed.
    pub fn forget(&mut self, uri: &str)
        ensures
            final(self)@ == old(self)@.remove(uri@),
    {
        let _ = self.last.remove(uri);
    }

    /// Decides whether a document is restarted, and takes note of it.
    pub fn maybe_restart(
        &mut self,
        state: &StateHandle,
        documents: &mut Documents,
        uri: &str,
        now: u64,
    ) -> (r: Option<Restart>)
        requires
            old(documents).wf(),
        ensures
            final(documents).wf(),
            final(documents)@ == old(documents)@,
            match r {
                Some(m) => {
                    &&& restarts(old(self)@, state@, old(documents)@, uri@, now)
                    &&& m.close@ == close_message(uri@)
                    &&& m.open@ == open_message(
                        uri@,
                        version_or_zero(state@, uri@),
                        old(documents)@[uri@],
                    )
                    &&& final(self)@ == old(self)@.insert(uri@, now)
                },
                None => !restarts(old(self)@, state@, old(documents)@, uri@, now) && final(self)@
                    == old(self)@,
            },
    {
        if !state.config().auto_restart {
            return None;
        }
        if let Some(then) = self.last.get(uri) {
            if now <= *then || (now - *then) / NANOS_PER_SEC < COOLDOWN_SECS {
                return None;
            }
        }
        if !needs_restart(&state.diagnostics_for(uri)) {
            return None;
        }
        let text = match documents.full_text(uri) {
            Some(text) => text,
            None => {
                return None;
            },
        };
        let version = match state.version_for(uri) {
            Some(v) => v,
            None => 0,
        };
        let _ = self.last.insert(uri.to_string(), now);
        let close = Json::object().with(
            "textDocument",
            Json::object().with("uri", Json::text(uri)),
        );
        let open = Json::object().with(
            "textDocument",
            Json::object().with("uri", Json::text(uri)).with(
                "languageId",
                Json::text(LANGUAGE_ID),
            ).with("version", Json::signed(version)).with("text", Json::text(text.as_str())),
        );
        Some(Restart { close, open })
    }
}

/// A document is not restarted again while it is left alone.
pub proof fn law_restarts_are_apart(
    times: Map<Seq<char>, u64>,
    state: StateView,
    texts: Texts,
    uri: Seq<char>,
    first: u64,
    second: u64,
)
    requires
        second - first < COOLDOWN_SECS * NANOS_PER_SEC,
    ensures
        !restarts(times.insert(uri, first), state, texts, uri, second),
{
    let d = second - first;
    if d > 0 {
        assert(d / (NANOS_PER_SEC as int) < COOLDOWN_SECS) by (nonlinear_arith)
            requires
                0 <= d < COOLDOWN_SECS * NANOS_PER_SEC,
                NANOS_PER_SEC == 1_000_000_000u64,
                COOLDOWN_SECS == 10u64,
        ;
    }
}

/// With the feature off no document is restarted.
pub proof fn law_off_means_off(
    times: Map<Seq<char>, u64>,
    state: StateView,
    texts: Texts,
    uri: Seq<char>,
    now: u64,
)
    requires
        !state.config.auto_restart,
    ensures
        !restarts(times, state, texts, uri, now),
{
}

// ---------------------------------------------------------------------------------------------
// What a report says
// ---------------------------------------------------------------------------------------------
/// Whether two characters are the same but for the case of an ASCII letter.
pub open spec fn same_letter(a: char, b: char) -> bool {
    ||| a == b
    ||| 'a' <= a <= 'z' && b as int == a as int - 32
    ||| 'a' <= b <= 'z' && a as int == b as int - 32
}

/// Whether two texts are the same but for the case of their ASCII letters.
pub open spec fn same_spelling(a: Seq<char>, b: Seq<char>) -> bool {
    a.len() == b.len() && forall|i: int| 0 <= i < a.len() ==> same_letter(#[trigger] a[i], b[i])
}

/// Whether a message has a word at an index, in letters of whichever case.
pub open spec fn spells(message: Seq<char>, i: int, word: Seq<char>) -> bool {
    0 <= i && i + word.len() <= message.len() && same_spelling(
        message.subrange(i, i + word.len()),
        word,
    )
}

/// Whether a word is in lower case, as far as it has ASCII letters.
spec fn in_lower_case(word: Seq<char>) -> bool {
    forall|k: int| 0 <= k < word.len() ==> !('A' <= #[trigger] word[k] <= 'Z')
}

proof fn lemma_same_letter(a: char, b: char)
    ensures
        same_letter(a, b) <==> lower(a) == lower(b),
        !('A' <= b <= 'Z') ==> lower(b) == b,
{
}

proof fn lemma_spells(message: Seq<char>, i: int, word: Seq<char>)
    requires
        in_lower_case(word),
    ensures
        spells(message, i, word) <==> holds_at(lowered(message), word, i),
{
    let low = lowered(message);
    if 0 <= i && i + word.len() <= message.len() {
        let part = message.subrange(i, i + word.len());
        let low_part = low.subrange(i, i + word.len());
        assert forall|k: int| 0 <= k < word.len() implies (same_letter(
            #[trigger] part[k],
            word[k],
        ) <==> low_part[k] == word[k]) by {
            lemma_same_letter(part[k], word[k]);
            assert(low_part[k] == lower(part[k]));
        }
        if spells(message, i, word) {
            assert forall|k: int| 0 <= k < word.len() implies low_part[k] == word[k] by {
                assert(same_letter(part[k], word[k]));
            }
            assert(low_part =~= word);
        }
        if low_part == word {
            assert forall|k: int| 0 <= k < part.len() implies same_letter(
                #[trigger] part[k],
                word[k],
            ) by {
                assert(low_part[k] == word[k]);
            }
        }
    }
}

proof fn lemma_spelled_anywhere(message: Seq<char>, word: Seq<char>)
    requires
        in_lower_case(word),
    ensures
        holds(lowered(message), word) <==> exists|i: int| spells(message, i, word),
{
    if holds(lowered(message), word) {
        let i = choose|i: int| holds_at(lowered(message), word, i);
        lemma_spells(message, i, word);
    }
    if exists|i: int| spells(message, i, word) {
        let i = choose|i: int| spells(message, i, word);
        lemma_spells(message, i, word);
    }
}

/// A message says that imports are outdated exactly if it speaks of imports and has one of the
/// three turns of phrase, each anywhere and in letters of whichever case.
pub proof fn law_outdated_messages_are_recognized(message: Seq<char>)
    ensures
        says_outdated(message) <==> {
            &&& exists|i: int| spells(message, i, "import"@)
            &&& ({
                ||| exists|i: int| spells(message, i, "outdated"@)
                ||| exists|i: int| spells(message, i, "out of date"@)
                ||| exists|i: int| spells(message, i, "restart"@)
            })
        },
{
    reveal_strlit("import");
    reveal_strlit("outdated");
    reveal_strlit("out of date");
    reveal_strlit("restart");
    lemma_spelled_anywhere(message, "import"@);
    lemma_spelled_anywhere(message, "outdated"@);
    lemma_spelled_anywhere(message, "out of date"@);
    lemma_spelled_anywhere(message, "restart"@);
}

proof fn lemma_spells_inside(front: Seq<char>, message: Seq<char>, back: Seq<char>, word: Seq<char>)
    ensures
        (exists|i: int| spells(message, i, word)) ==> exists|i: int|
            spells(front + message + back, i, word),
{
    if exists|i: int| spells(message, i, word) {
        let i = choose|i: int| spells(message, i, word);
        let k = front.len() + i;
        assert((front + message + back).subrange(k, k + word.len()) =~= message.subrange(
            i,
            i + word.len(),
        ));
        assert(spells(front + message + back, k, word));
    }
}

/// A message that is recognized stays so with any text in front of it and behind it.
pub proof fn law_more_text_keeps_a_message_recognized(
    front: Seq<char>,
    message: Seq<char>,
    back: Seq<char>,
)
    requires
        says_outdated(message),
    ensures
        says_outdated(front + message + back),
{
    law_outdated_messages_are_recognized(message);
    law_outdated_messages_are_recognized(front + message + back);
    lemma_spells_inside(front, message, back, "import"@);
    lemma_spells_inside(front, message, back, "outdated"@);
    lemma_spells_inside(front, message, back, "out of date"@);
    lemma_spells_inside(front, message, back, "restart"@);
}

/// The case of the letters of a message makes no difference.
pub proof fn law_case_makes_no_difference(a: Seq<char>, b: Seq<char>)
    requires
        same_spelling(a, b),
    ensures
        says_outdated(a) == says_outdated(b),
{
    assert forall|i: int| 0 <= i < a.len() implies lowered(a)[i] == lowered(b)[i] by {
        assert(same_letter(a[i], b[i]));
        lemma_same_letter(a[i], b[i]);
    }
    assert(lowered(a) =~= lowered(b));
}

/// A document is restarted exactly if the feature is on, its text is known, one of the reports on
/// it has a message that says so, and ten seconds have gone by since it was last restarted.
pub proof fn law_what_makes_a_restart(
    times: Map<Seq<char>, u64>,
    state: StateView,
    texts: Texts,
    uri: Seq<char>,
    now: u64,
)
    ensures
        restarts(times, state, texts, uri, now) <==> {
            &&& state.config.auto_restart
            &&& texts.contains_key(uri)
            &&& state.diagnostics.contains_key(uri)
            &&& exists|i: int|
                0 <= i < state.diagnostics[uri].len() && (match (
                #[trigger] state.diagnostics[uri][i]).get("message"@) {
                    Some(JsonView::Str(m)) => says_outdated(m),
                    _ => false,
                })
            &&& times.contains_key(uri) ==> now - times[uri] >= 10_000_000_000
        },
{
    if state.diagnostics.contains_key(uri) {
        let items = state.diagnostics[uri];
        assert forall|i: int| 0 <= i < items.len() implies reports_outdated(#[trigger] items[i])
            == (match items[i].get("message"@) {
            Some(JsonView::Str(m)) => says_outdated(m),
            _ => false,
        }) by {}
        if any_outdated(items) {
            let i = choose|i: int| 0 <= i < items.len() && reports_outdated(#[trigger] items[i]);
            assert(reports_outdated(state.diagnostics[uri][i]));
        }
    }
}

/// A restart closes the document and opens it again as it is: under the same name, in the version
/// that is known, and with the text that is known.
pub proof fn law_a_restart_opens_what_it_closes(uri: Seq<char>, version: i64, text: Seq<char>)
    ensures
        close_message(uri).get2("textDocument"@, "uri"@) == Some(JsonView::Str(uri)),
        open_message(uri, version, text).get2("textDocument"@, "uri"@) == Some(JsonView::Str(uri)),
        open_message(uri, version, text).get2("textDocument"@, "version"@) == Some(
            JsonView::Int(version as int),
        ),
        open_message(uri, version, text).get2("textDocument"@, "text"@) == Some(
            JsonView::Str(text),
        ),
        open_message(uri, version, text).get2("textDocument"@, "languageId"@) == Some(
            JsonView::Str("lean4"@),
        ),
{
    reveal_strlit("uri");
    reveal_strlit("version");
    reveal_strlit("text");
    reveal_strlit("languageId");
    assert("uri"@.len() == 3 && "version"@.len() == 7 && "text"@.len() == 4 && "languageId"@.len()
        == 10);
}

} // verus!
