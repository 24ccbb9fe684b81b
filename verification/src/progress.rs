//! The progress bar for a document that the server is at work on.
use crate::documents::{line_count_of, Documents, Texts};
use crate::json::{Json, JsonView};
use crate::state::{frontier, StateHandle, StateView};
use crate::text::{appended, decimal_of, hex_of, push_decimal, push_hex};
use crate::text_map::TextMap;
use std::hash::{DefaultHasher, Hash, Hasher};
use vstd::prelude::*;
use vstd::std_specs::hash::DefaultHasherAdditionalSpecFns;
use vstd::string::StringExecFns;

verus! {

// ---------------------------------------------------------------------------------------------
// Tokens
// ---------------------------------------------------------------------------------------------
/// What `str::hash` writes to a hasher for a text. It depends on the text alone.
pub uninterp spec fn fed(text: Seq<char>) -> Seq<Seq<u8>>;

/// `str::hash`, which feeds a text to a hasher: the hasher has seen what it had seen before, and
/// then what is written for the text. Nothing is said of which bytes these are: std leaves that
/// open.
#[verifier::external_body]
fn feed(text: &str, hasher: &mut DefaultHasher)
    ensures
        final(hasher)@ == old(hasher)@ + fed(text@),
{
    text.hash(hasher);
}

/// The hash of a text.
pub open spec fn hash_of(text: Seq<char>) -> u64 {
    DefaultHasher::spec_finish(fed(text))
}

/// What tells the bar of a document from others: the hash of the document's address.
pub fn token_for(uri: &str) -> (r: String)
    ensures
        r@ == hex_of(hash_of(uri@) as nat),
{
    let mut hasher = DefaultHasher::new();
    feed(uri, &mut hasher);
    assert(hasher@ =~= fed(uri@));
    let mut out = String::new();
    push_hex(&mut out, hasher.finish());
    assert(out@ =~= hex_of(hash_of(uri@) as nat));
    out
}

/// The name of the bar of a document, by what tells it from others.
pub open spec fn bar_token(id: Seq<char>) -> Seq<char> {
    "leanto-elaborate-"@ + id
}

// ---------------------------------------------------------------------------------------------
// Bars
// ---------------------------------------------------------------------------------------------
/// What becomes of the progress bar of a document.
#[derive(Debug)]
pub enum BarAction {
    Nothing,
    /// The bar with a name goes.
    End(String),
    /// The bar with a name shows how far the server has come.
    Report { token: String, frontier: u64, total_lines: u64 },
    /// A bar comes up under a name.
    Begin { token: String, frontier: u64, total_lines: u64 },
}

/// What becomes of the progress bar of a document.
pub enum BarView {
    Nothing,
    End(Seq<char>),
    Report(Seq<char>, u64, u64),
    Begin(Seq<char>, u64, u64),
}

impl BarAction {
    pub open spec fn view(&self) -> BarView {
        match self {
            BarAction::Nothing => BarView::Nothing,
            BarAction::End(token) => BarView::End(token@),
            BarAction::Report { token, frontier, total_lines } => BarView::Report(
                token@,
                *frontier,
                *total_lines,
            ),
            BarAction::Begin { token, frontier, total_lines } => BarView::Begin(
                token@,
                *frontier,
                *total_lines,
            ),
        }
    }
}

/// The number of lines of a document; none of one that is not there.
pub open spec fn lines_in(texts: Texts, uri: Seq<char>) -> u64 {
    if texts.contains_key(uri) {
        line_count_of(texts[uri]) as u64
    } else {
        0
    }
}

/// Whether a document has something to show: the feature is on, and the server is not done.
pub open spec fn shows(state: StateView, uri: Seq<char>) -> bool {
    state.config.progress && frontier(state.progress_of(uri)) != u64::MAX
}

/// What becomes of the bar of a document when the server has come further.
pub open spec fn bar_action(
    bars: Map<Seq<char>, Seq<char>>,
    state: StateView,
    texts: Texts,
    uri: Seq<char>,
    fresh: Seq<char>,
) -> BarView {
    let at = frontier(state.progress_of(uri));
    let total = lines_in(texts, uri);
    if shows(state, uri) {
        if bars.contains_key(uri) {
            BarView::Report(bars[uri], at, total)
        } else {
            BarView::Begin(fresh, at, total)
        }
    } else if bars.contains_key(uri) {
        BarView::End(bars[uri])
    } else {
        BarView::Nothing
    }
}

/// The bars afterwards.
pub open spec fn bars_after(
    bars: Map<Seq<char>, Seq<char>>,
    state: StateView,
    uri: Seq<char>,
    fresh: Seq<char>,
) -> Map<Seq<char>, Seq<char>> {
    if shows(state, uri) {
        if bars.contains_key(uri) {
            bars
        } else {
            bars.insert(uri, fresh)
        }
    } else {
        bars.remove(uri)
    }
}

/// The progress bars that are up, by their documents.
pub struct ProgressBars {
    active: TextMap<String>,
}

impl View for ProgressBars {
    type V = Map<Seq<char>, Seq<char>>;

    closed spec fn view(&self) -> Map<Seq<char>, Seq<char>> {
        self.active@.map_values(|t: String| t@)
    }
}

impl ProgressBars {
    /// No bars.
    pub fn new() -> (r: ProgressBars)
        ensures
            r@ == Map::<Seq<char>, Seq<char>>::empty(),
    {
        let r = ProgressBars { active: TextMap::new() };
        assert(r@ =~= Map::empty());
        r
    }

    /// Takes the bar of a document down, if there is one.
    pub fn close(&mut self, uri: &str) -> (r: BarAction)
        ensures
            final(self)@ == old(self)@.remove(uri@),
            r@ == if old(self)@.contains_key(uri@) {
                BarView::End(old(self)@[uri@])
            } else {
                BarView::Nothing
            },
    {
        let removed = self.active.remove(uri);
        assert(self@ =~= old(self)@.remove(uri@));
        match removed {
            Some(token) => BarAction::End(token),
            None => BarAction::Nothing,
        }
    }

    /// Follows how far the server has come with a document. A bar that comes up gets a given name.
    pub fn update(
        &mut self,
        state: &StateHandle,
        documents: &Documents,
        uri: &str,
        fresh: String,
    ) -> (r: BarAction)
        ensures
            final(self)@ == bars_after(old(self)@, state@, uri@, fresh@),
            r@ == bar_action(old(self)@, state@, documents@, uri@, fresh@),
    {
        let frontier = state.elaboration_frontier(uri);
        if !state.config().progress || frontier == u64::MAX {
            return self.close(uri);
        }
        let total_lines = match documents.line_count(uri) {
            Some(n) => n,
            None => 0,
        };
        if let Some(token) = self.active.get(uri) {
            return BarAction::Report { token: token.clone(), frontier, total_lines };
        }
        let token = fresh.clone();
        let _ = self.active.insert(uri.to_string(), fresh);
        assert(self@ =~= old(self)@.insert(uri@, token@));
        BarAction::Begin { token, frontier, total_lines }
    }

    /// Follows how far the server has come with a document. A bar that comes up is named after the
    /// document.
    pub fn handle_progress(&mut self, state: &StateHandle, documents: &Documents, uri: &str) -> (r:
        BarAction)
        ensures
            ({
                let fresh = bar_token(hex_of(hash_of(uri@) as nat));
                &&& final(self)@ == bars_after(old(self)@, state@, uri@, fresh)
                &&& r@ == bar_action(old(self)@, state@, documents@, uri@, fresh)
            }),
    {
        let id = token_for(uri);
        self.update(state, documents, uri, appended("leanto-elaborate-", id.as_str()))
    }
}

// ---------------------------------------------------------------------------------------------
// Messages
// ---------------------------------------------------------------------------------------------
/// The parameters of a message about a bar.
pub open spec fn bar_params(token: Seq<char>, value: JsonView) -> JsonView {
    JsonView::Object(map!["token"@ => JsonView::Str(token), "value"@ => value])
}

fn params_with(token: &str, value: Json) -> (r: Json)
    ensures
        r@ == bar_params(token@, value@),
{
    Json::object().with("token", Json::text(token)).with("value", value)
}

/// The parameters of a request for a bar.
pub fn create_params(token: &str) -> (r: Json)
    ensures
        r@ == JsonView::Object(map!["token"@ => JsonView::Str(token@)]),
{
    Json::object().with("token", Json::text(token))
}

/// The parameters of the message that brings a bar up.
pub fn begin_params(token: &str, percent: u32) -> (r: Json)
    ensures
        r@ == bar_params(
            token@,
            JsonView::Object(
                map![
                    "kind"@ => JsonView::Str("begin"@),
                    "title"@ => JsonView::Str("Elaborating Lean"@),
                    "percentage"@ => JsonView::Int(percent as int),
                    "cancellable"@ => JsonView::Bool(false),
                ],
            ),
        ),
{
    params_with(
        token,
        Json::object().with("kind", Json::text("begin")).with(
            "title",
            Json::text("Elaborating Lean"),
        ).with("percentage", Json::number(percent as u64)).with("cancellable", Json::Bool(false)),
    )
}

/// How far the server has come, in words.
pub open spec fn line_text(frontier: u64, total_lines: u64) -> Seq<char> {
    "line "@ + decimal_of(frontier as nat) + " of "@ + decimal_of(total_lines as nat)
}

/// The parameters of the message that shows how far the server has come.
pub fn report_params(token: &str, percent: u32, frontier: u64, total_lines: u64) -> (r: Json)
    ensures
        r@ == bar_params(
            token@,
            JsonView::Object(
                map![
                    "kind"@ => JsonView::Str("report"@),
                    "percentage"@ => JsonView::Int(percent as int),
                    "message"@ => JsonView::Str(line_text(frontier, total_lines)),
                ],
            ),
        ),
{
    let mut message = "line ".to_string();
    push_decimal(&mut message, frontier);
    message.append(" of ");
    push_decimal(&mut message, total_lines);
    params_with(
        token,
        Json::object().with("kind", Json::text("report")).with(
            "percentage",
            Json::number(percent as u64),
        ).with("message", Json::Str(message)),
    )
}

/// The parameters of the message that takes a bar down.
pub fn end_params(token: &str) -> (r: Json)
    ensures
        r@ == bar_params(
            token@,
            JsonView::Object(
                map!["kind"@ => JsonView::Str("end"@), "message"@ => JsonView::Str("Done"@)],
            ),
        ),
{
    params_with(
        token,
        Json::object().with("kind", Json::text("end")).with("message", Json::text("Done")),
    )
}

/// A bar is up exactly while there is something to show, from the first time the server is heard
/// of on.
pub proof fn law_bar_is_up_while_it_shows(
    bars: Map<Seq<char>, Seq<char>>,
    state: StateView,
    uri: Seq<char>,
    fresh: Seq<char>,
)
    ensures
        bars_after(bars, state, uri, fresh).contains_key(uri) == shows(state, uri),
{
}

/// The messages about a document's bar keep the name that the bar came up under.
pub proof fn law_bar_keeps_its_name(
    bars: Map<Seq<char>, Seq<char>>,
    state: StateView,
    texts: Texts,
    uri: Seq<char>,
    fresh: Seq<char>,
)
    requires
        bars.contains_key(uri),
    ensures
        match bar_action(bars, state, texts, uri, fresh) {
            BarView::Report(token, _, _) => token == bars[uri],
            BarView::End(token) => token == bars[uri],
            _ => false,
        },
{
}

/// With the feature on, a document that the server is at work on has a bar come up the first time
/// and shown how far the server has come from then on; with the feature off, or when the server is
/// done, a bar that is up goes. What it tells is the line that the server has come to and the
/// number of lines of the text.
pub proof fn law_what_becomes_of_a_bar(
    bars: Map<Seq<char>, Seq<char>>,
    state: StateView,
    texts: Texts,
    uri: Seq<char>,
    fresh: Seq<char>,
)
    ensures
        ({
            let at = frontier(state.progress_of(uri));
            let total = if texts.contains_key(uri) {
                line_count_of(texts[uri]) as u64
            } else {
                0
            };
            let up = bars.contains_key(uri);
            let action = bar_action(bars, state, texts, uri, fresh);
            let after = bars_after(bars, state, uri, fresh);
            &&& state.config.progress && at < u64::MAX && !up ==> action == BarView::Begin(
                fresh,
                at,
                total,
            ) && after == bars.insert(uri, fresh)
            &&& state.config.progress && at < u64::MAX && up ==> action == BarView::Report(
                bars[uri],
                at,
                total,
            ) && after == bars
            &&& (!state.config.progress || at == u64::MAX) && up ==> action == BarView::End(
                bars[uri],
            ) && after == bars.remove(uri)
            &&& (!state.config.progress || at == u64::MAX) && !up ==> action == BarView::Nothing
                && after == bars
        }),
{
    assert(!bars.contains_key(uri) ==> bars.remove(uri) =~= bars);
}

/// The name of a bar starts as all of the proxy's bars do, and bars with different marks have
/// different names.
pub proof fn law_bars_have_their_names(a: Seq<char>, b: Seq<char>)
    ensures
        bar_token(a) == "leanto-elaborate-"@ + a,
        a != b ==> bar_token(a) != bar_token(b),
{
    let n = "leanto-elaborate-"@.len() as int;
    if bar_token(a) == bar_token(b) {
        assert(bar_token(a).skip(n) =~= a);
        assert(bar_token(b).skip(n) =~= b);
    }
}

/// A message about a bar names it and carries what it tells; how far the server has come is told in
/// words.
pub proof fn law_messages_name_their_bar(
    token: Seq<char>,
    value: JsonView,
    frontier: u64,
    total_lines: u64,
)
    ensures
        bar_params(token, value).get("token"@) == Some(JsonView::Str(token)),
        bar_params(token, value).get("value"@) == Some(value),
        line_text(frontier, total_lines) == "line "@ + decimal_of(frontier as nat) + " of "@
            + decimal_of(total_lines as nat),
{
    reveal_strlit("token");
    reveal_strlit("value");
    assert("token"@.len() == 5 && "token"@[0] == 't');
    assert("value"@.len() == 5 && "value"@[0] == 'v');
}

} // verus!
