//! Sessions with the server's interactive side: one for each document, opened when it is first
//! needed, and the references that the server holds for them.
use crate::hover::{at_position, law_positions_are_spelled_out, position_params};
use crate::json::{
    entries_view, items_view, lemma_entries_key, lemma_entries_last, lemma_items_view, option_view,
    shadowed, str_in, u64_in, Json, JsonView,
};
use crate::lsp::{result_view, ErrorView, ResponseError, ERROR_OTHER};
use crate::snoop::{opt_str, opt_u64};
use crate::state::{EventView, StateEvent};
use crate::text::same_text;
use crate::text_map::TextMap;
use vstd::prelude::*;

verus! {

/// How often the server is told that a session is still in use, in seconds.
pub const KEEPALIVE_SECS: u64 = 10;

/// The procedure that gives the goals at a position.
pub const INTERACTIVE_GOALS_METHOD: &'static str = "Lean.Widget.getInteractiveGoals";

// ---------------------------------------------------------------------------------------------
// References
// ---------------------------------------------------------------------------------------------
/// The reference that an object is under a key, if it is one.
pub open spec fn ref_under(v: JsonView, key: Seq<char>) -> Seq<u64> {
    match u64_in(v.get(key)) {
        Some(n) => seq![n],
        None => Seq::empty(),
    }
}

/// The references in the items of an array, in order.
pub open spec fn refs_in_items(items: Seq<Json>) -> Seq<u64>
    decreases items, 0int,
{
    if items.len() == 0 {
        Seq::empty()
    } else {
        refs_in_items(items.drop_last()) + refs_in(items.last())
    }
}

/// The references in the members of an object, from a given entry on. An entry whose key comes
/// again is no member.
pub open spec fn refs_in_entries(entries: Seq<(String, Json)>, i: int) -> Seq<u64>
    decreases entries, entries.len() - i,
{
    if i < 0 || i >= entries.len() {
        Seq::empty()
    } else if shadowed(entries, i) {
        refs_in_entries(entries, i + 1)
    } else {
        refs_in(entries[i].1) + refs_in_entries(entries, i + 1)
    }
}

/// The references in a document in the order in which they are met: those that an object is
/// itself, in front of those in its members.
pub open spec fn refs_in(v: Json) -> Seq<u64>
    decreases v, 0int,
{
    match v {
        Json::Object(entries) => ref_under(v@, "p"@) + ref_under(v@, "__rpcref"@) + refs_in_entries(
            entries@,
            0,
        ),
        Json::Array(items) => refs_in_items(items@),
        _ => Seq::empty(),
    }
}

/// Whether a number is a reference in a document: at its top, or at any depth below.
pub open spec fn holds_ref(v: JsonView, n: u64) -> bool
    decreases v,
{
    match v {
        JsonView::Object(m) => {
            ||| u64_in(v.get("p"@)) == Some(n)
            ||| u64_in(v.get("__rpcref"@)) == Some(n)
            ||| exists|k: Seq<char>| #[trigger] m.contains_key(k) && holds_ref(m[k], n)
        },
        JsonView::Array(items) => item_holds_ref(items, n),
        _ => false,
    }
}

/// Whether a number is a reference in one of the items of an array.
pub open spec fn item_holds_ref(items: Seq<JsonView>, n: u64) -> bool
    decreases items,
{
    exists|i: int| 0 <= i < items.len() && holds_ref(#[trigger] items[i], n)
}

proof fn lemma_refs_in_items(items: Seq<Json>, n: u64)
    ensures
        refs_in_items(items).contains(n) <==> exists|i: int|
            0 <= i < items.len() && refs_in(#[trigger] items[i]).contains(n),
    decreases items.len(),
{
    if items.len() > 0 {
        let front = items.drop_last();
        lemma_refs_in_items(front, n);
        lemma_in_either(refs_in_items(front), refs_in(items.last()), n);
        if refs_in_items(front).contains(n) {
            let i = choose|i: int| 0 <= i < front.len() && refs_in(#[trigger] front[i]).contains(n);
            assert(items[i] == front[i]);
        }
        if refs_in(items.last()).contains(n) {
            assert(refs_in(items[items.len() - 1]).contains(n));
        }
        assert forall|i: int|
            0 <= i < items.len() && refs_in(#[trigger] items[i]).contains(n) implies refs_in_items(
            items,
        ).contains(n) by {
            if i < front.len() {
                assert(front[i] == items[i]);
            }
        }
    }
}

proof fn lemma_refs_in_entries(entries: Seq<(String, Json)>, from: int, n: u64)
    requires
        0 <= from <= entries.len(),
    ensures
        refs_in_entries(entries, from).contains(n) <==> exists|i: int|
            from <= i < entries.len() && !shadowed(entries, i) && refs_in(
                (#[trigger] entries[i]).1,
            ).contains(n),
    decreases entries.len() - from,
{
    if from < entries.len() {
        lemma_refs_in_entries(entries, from + 1, n);
        if !shadowed(entries, from) {
            lemma_in_either(refs_in(entries[from].1), refs_in_entries(entries, from + 1), n);
        }
    }
}

proof fn lemma_in_either(a: Seq<u64>, b: Seq<u64>, n: u64)
    ensures
        (a + b).contains(n) <==> a.contains(n) || b.contains(n),
{
    if a.contains(n) {
        let i = choose|i: int| 0 <= i < a.len() && a[i] == n;
        assert((a + b)[i] == n);
    }
    if b.contains(n) {
        let i = choose|i: int| 0 <= i < b.len() && b[i] == n;
        assert((a + b)[a.len() + i] == n);
    }
}

/// The references in a document depend on what it says alone, but for their order.
proof fn lemma_refs_in(v: Json, n: u64)
    ensures
        refs_in(v).contains(n) <==> holds_ref(v@, n),
    decreases v,
{
    match v {
        Json::Object(entries) => {
            let es = entries@;
            let m = entries_view(es);
            let p = ref_under(v@, "p"@);
            let r = ref_under(v@, "__rpcref"@);
            lemma_in_either(p + r, refs_in_entries(es, 0), n);
            lemma_in_either(p, r, n);
            lemma_ref_under(v@, "p"@, n);
            lemma_ref_under(v@, "__rpcref"@, n);
            lemma_refs_in_entries(es, 0, n);
            assert forall|i: int| 0 <= i < es.len() implies (refs_in((#[trigger] es[i]).1).contains(
                n,
            ) <==> holds_ref(es[i].1@, n)) by {
                lemma_refs_in(es[i].1, n);
            }
            if refs_in_entries(es, 0).contains(n) {
                let i = choose|i: int|
                    0 <= i < es.len() && !shadowed(es, i) && refs_in((#[trigger] es[i]).1).contains(
                        n,
                    );
                lemma_entries_last(es, i);
                assert(m.contains_key(es[i].0@) && holds_ref(m[es[i].0@], n));
            }
            if exists|k: Seq<char>| #[trigger] m.contains_key(k) && holds_ref(m[k], n) {
                let k = choose|k: Seq<char>| #[trigger] m.contains_key(k) && holds_ref(m[k], n);
                let i = lemma_entries_key(es, k);
                lemma_entries_last(es, i);
                assert(refs_in(es[i].1).contains(n));
            }
        },
        Json::Array(items) => {
            let all = items@;
            let said = items_view(all);
            lemma_items_view(all);
            lemma_refs_in_items(all, n);
            assert(holds_ref(v@, n) == item_holds_ref(said, n));
            if refs_in_items(all).contains(n) {
                let i = choose|i: int| 0 <= i < all.len() && refs_in(#[trigger] all[i]).contains(n);
                lemma_refs_in(all[i], n);
                assert(holds_ref(said[i], n));
            }
            if item_holds_ref(said, n) {
                let i = choose|i: int| 0 <= i < said.len() && holds_ref(#[trigger] said[i], n);
                lemma_refs_in(all[i], n);
            }
        },
        _ => {},
    }
}

proof fn lemma_ref_under(v: JsonView, key: Seq<char>, n: u64)
    ensures
        ref_under(v, key).contains(n) <==> u64_in(v.get(key)) == Some(n),
{
    if let Some(k) = u64_in(v.get(key)) {
        assert(ref_under(v, key)[0] == k);
    }
}

/// Whether a later entry has the key of an entry.
fn is_shadowed(entries: &Vec<(String, Json)>, i: usize) -> (r: bool)
    requires
        i < entries.len(),
    ensures
        r == shadowed(entries@, i as int),
{
    let mut j: usize = i + 1;
    while j < entries.len()
        invariant
            i < j <= entries.len(),
            forall|k: int| i < k < j ==> (#[trigger] entries@[k]).0@ != entries@[i as int].0@,
        decreases entries.len() - j,
    {
        if same_text(entries[j].0.as_str(), entries[i].0.as_str()) {
            assert(entries@[j as int].0@ == entries@[i as int].0@);
            return true;
        }
        j += 1;
    }
    false
}

/// Appends the references in a document. Which ones there are depends on what the document says
/// alone.
pub fn collect_refs(v: &Json, out: &mut Vec<u64>)
    ensures
        final(out)@ == old(out)@ + refs_in(*v),
        forall|n: u64| #[trigger]
            final(out)@.contains(n) <==> old(out)@.contains(n) || holds_ref(v@, n),
    decreases v,
{
    match v {
        Json::Object(entries) => {
            if let Some(n) = opt_u64(v.get("p")) {
                out.push(n);
            }
            if let Some(n) = opt_u64(v.get("__rpcref")) {
                out.push(n);
            }
            let ghost own = ref_under(v@, "p"@) + ref_under(v@, "__rpcref"@);
            let ghost all = old(out)@ + refs_in(*v);
            assert(out@ =~= old(out)@ + own);
            assert(out@ + refs_in_entries(entries@, 0) =~= all);
            let mut i: usize = 0;
            while i < entries.len()
                invariant
                    i <= entries.len(),
                    v matches Json::Object(es) && *es == *entries,
                    out@ + refs_in_entries(entries@, i as int) == all,
                decreases entries.len() - i,
            {
                let ghost before = out@;
                if !is_shadowed(entries, i) {
                    collect_refs(&entries[i].1, out);
                }
                i += 1;
                assert(out@ + refs_in_entries(entries@, i as int) =~= before + refs_in_entries(
                    entries@,
                    i as int - 1,
                ));
            }
            assert(out@ + refs_in_entries(entries@, i as int) =~= out@);
        },
        Json::Array(items) => {
            let mut i: usize = 0;
            assert(items@.take(0) =~= Seq::empty());
            assert(out@ =~= old(out)@ + refs_in_items(items@.take(0)));
            while i < items.len()
                invariant
                    i <= items.len(),
                    v matches Json::Array(all) && *all == *items,
                    out@ == old(out)@ + refs_in_items(items@.take(i as int)),
                decreases items.len() - i,
            {
                assert(items@.take(i as int + 1).drop_last() =~= items@.take(i as int));
                collect_refs(&items[i], out);
                i += 1;
                assert(out@ =~= old(out)@ + refs_in_items(items@.take(i as int)));
            }
            assert(items@.take(i as int) =~= items@);
        },
        _ => {
            assert(out@ =~= old(out)@ + refs_in(*v));
        },
    }
    proof {
        assert forall|n: u64| #[trigger]
            out@.contains(n) <==> old(out)@.contains(n) || holds_ref(v@, n) by {
            lemma_in_either(old(out)@, refs_in(*v), n);
            lemma_refs_in(*v, n);
        }
    }
}

// ---------------------------------------------------------------------------------------------
// Messages
// ---------------------------------------------------------------------------------------------
/// The parameters of a call for the goals at a position.
pub open spec fn call_message(
    session: Seq<char>,
    uri: Seq<char>,
    line: u64,
    character: u64,
) -> JsonView {
    let at = position_params(uri, line, character);
    JsonView::Object(
        map![
            "sessionId"@ => JsonView::Str(session),
            "textDocument"@ => at.get("textDocument"@)->0,
            "position"@ => at.get("position"@)->0,
            "method"@ => JsonView::Str(INTERACTIVE_GOALS_METHOD@),
            "params"@ => at,
        ],
    )
}

/// The parameters of a call for the goals at a position.
pub fn call_params(session: &str, uri: &str, line: u64, character: u64) -> (r: Json)
    ensures
        r@ == call_message(session@, uri@, line, character),
{
    let at = at_position(uri, line, character);
    proof {
        reveal_strlit("textDocument");
        reveal_strlit("position");
        assert("textDocument"@.len() == 12);
        assert("position"@.len() == 8);
    }
    let doc = Json::object().with("uri", Json::text(uri));
    let pos = Json::object().with("line", Json::number(line)).with(
        "character",
        Json::number(character),
    );
    Json::object().with("sessionId", Json::text(session)).with("textDocument", doc).with(
        "position",
        pos,
    ).with("method", Json::text(INTERACTIVE_GOALS_METHOD)).with("params", at)
}

/// The parameters of a request for a session.
pub fn connect_params(uri: &str) -> (r: Json)
    ensures
        r@ == JsonView::Object(map!["uri"@ => JsonView::Str(uri@)]),
{
    Json::object().with("uri", Json::text(uri))
}

/// The parameters that tell the server that a session is still in use.
pub fn keep_alive_params(uri: &str, session: &str) -> (r: Json)
    ensures
        r@ == JsonView::Object(
            map!["uri"@ => JsonView::Str(uri@), "sessionId"@ => JsonView::Str(session@)],
        ),
{
    Json::object().with("uri", Json::text(uri)).with("sessionId", Json::text(session))
}

/// References as items of a document.
pub open spec fn ref_items(refs: Seq<u64>) -> Seq<JsonView> {
    refs.map_values(|n: u64| JsonView::Int(n as int))
}

/// The parameters that tell the server which references of a session are no longer needed.
pub open spec fn release_message(uri: Seq<char>, session: Seq<char>, refs: Seq<u64>) -> JsonView {
    JsonView::Object(
        map![
            "uri"@ => JsonView::Str(uri),
            "sessionId"@ => JsonView::Str(session),
            "refs"@ => JsonView::Array(ref_items(refs)),
        ],
    )
}

fn release_params(uri: &str, session: &str, refs: &Vec<u64>) -> (r: Json)
    ensures
        r@ == release_message(uri@, session@, refs@),
{
    let mut items: Vec<Json> = Vec::new();
    let mut i: usize = 0;
    while i < refs.len()
        invariant
            i <= refs.len(),
            items.len() == i,
            forall|k: int| 0 <= k < i ==> (#[trigger] items@[k])@ == JsonView::Int(refs@[k] as int),
        decreases refs.len() - i,
    {
        items.push(Json::number(refs[i]));
        i += 1;
    }
    proof {
        lemma_items_view(items@);
        assert(items_view(items@) =~= ref_items(refs@));
    }
    Json::object().with("uri", Json::text(uri)).with("sessionId", Json::text(session)).with(
        "refs",
        Json::Array(items),
    )
}

/// What an answer to a request for a session gives: the session, or why there is none.
pub open spec fn session_in(r: Result<JsonView, ErrorView>) -> Result<Seq<char>, ErrorView> {
    match r {
        Ok(v) => match str_in(v.get("sessionId"@)) {
            Some(s) => Ok(s),
            None => Err(
                ErrorView {
                    code: ERROR_OTHER,
                    message: "missing sessionId in $/lean/rpc/connect response"@,
                },
            ),
        },
        Err(e) => Err(e),
    }
}

/// What a session, or why there is none, says.
pub open spec fn session_view(r: Result<String, ResponseError>) -> Result<Seq<char>, ErrorView> {
    match r {
        Ok(s) => Ok(s@),
        Err(e) => Err(e@),
    }
}

/// What an answer to a request for a session gives.
pub fn read_session(r: Result<Json, ResponseError>) -> (s: Result<String, ResponseError>)
    ensures
        session_view(s) == session_in(result_view(r)),
{
    match r {
        Ok(v) => match opt_str(v.get("sessionId")) {
            Some(s) => Ok(s.to_string()),
            None => Err(
                ResponseError::new(
                    ERROR_OTHER,
                    "missing sessionId in $/lean/rpc/connect response",
                ),
            ),
        },
        Err(e) => Err(e),
    }
}

/// What one who waits for a session gets who was dropped.
pub fn waiter_dropped() -> (r: ResponseError)
    ensures
        r@ == (ErrorView { code: ERROR_OTHER, message: "session waiter dropped"@ }),
{
    ResponseError::new(ERROR_OTHER, "session waiter dropped")
}

// ---------------------------------------------------------------------------------------------
// Sessions
// ---------------------------------------------------------------------------------------------
/// How far a document has come with its session. `W` is what waits for it, and `G` what keeps it
/// alive for as long as it is held.
pub enum SessionState<W, G> {
    Connecting(Vec<W>),
    Ready { session_id: String, keepalive: G },
}

/// What to do for one who needs a session.
pub enum Outcome {
    /// There is one.
    Have(String),
    /// It is being opened already; the one who needs it was put in line.
    Wait,
    /// It has to be opened.
    Connect,
}

/// What to do for one who needs a session.
pub enum OutcomeView {
    Have(Seq<char>),
    Wait,
    Connect,
}

impl Outcome {
    pub open spec fn view(&self) -> OutcomeView {
        match self {
            Outcome::Have(s) => OutcomeView::Have(s@),
            Outcome::Wait => OutcomeView::Wait,
            Outcome::Connect => OutcomeView::Connect,
        }
    }
}

/// How far a document has come with its session. What keeps it alive stands beside it, in the
/// manager's view of the guards.
pub enum SessionView<W> {
    Connecting(Seq<W>),
    Ready(Seq<char>),
}

impl<W, G> SessionState<W, G> {
    pub open spec fn view(&self) -> SessionView<W> {
        match self {
            SessionState::Connecting(ws) => SessionView::Connecting(ws@),
            SessionState::Ready { session_id, .. } => SessionView::Ready(session_id@),
        }
    }
}

/// Who waits for the session of a document.
pub open spec fn waiters_of<W>(sessions: Map<Seq<char>, SessionView<W>>, uri: Seq<char>) -> Seq<W> {
    if sessions.contains_key(uri) {
        match sessions[uri] {
            SessionView::Connecting(ws) => ws,
            SessionView::Ready(_) => Seq::empty(),
        }
    } else {
        Seq::empty()
    }
}

/// What to do for one who needs the session of a document.
pub open spec fn outcome_of<W>(
    sessions: Map<Seq<char>, SessionView<W>>,
    uri: Seq<char>,
) -> OutcomeView {
    if sessions.contains_key(uri) {
        match sessions[uri] {
            SessionView::Ready(s) => OutcomeView::Have(s),
            SessionView::Connecting(_) => OutcomeView::Wait,
        }
    } else {
        OutcomeView::Connect
    }
}

/// The sessions after someone asked for the session of a document: who finds it being opened is put
/// in line, and who finds none has to open it.
pub open spec fn after_asking<W>(
    sessions: Map<Seq<char>, SessionView<W>>,
    uri: Seq<char>,
    waiter: W,
) -> Map<Seq<char>, SessionView<W>> {
    if sessions.contains_key(uri) {
        match sessions[uri] {
            SessionView::Ready(_) => sessions,
            SessionView::Connecting(ws) => sessions.insert(
                uri,
                SessionView::Connecting(ws.push(waiter)),
            ),
        }
    } else {
        sessions.insert(uri, SessionView::Connecting(Seq::empty()))
    }
}

/// The sessions after the opening of one came to its end, with the session or with none.
pub open spec fn after_connecting<W>(
    sessions: Map<Seq<char>, SessionView<W>>,
    uri: Seq<char>,
    session: Option<Seq<char>>,
) -> Map<Seq<char>, SessionView<W>> {
    match session {
        Some(s) => sessions.insert(uri, SessionView::Ready(s)),
        None => sessions.remove(uri),
    }
}

/// What tells the server to release the references that it holds for a document, if it holds any.
pub open spec fn released(
    refs: Map<Seq<char>, (Seq<char>, Seq<u64>)>,
    uri: Seq<char>,
) -> Option<JsonView> {
    if refs.contains_key(uri) && refs[uri].1.len() > 0 {
        Some(release_message(uri, refs[uri].0, refs[uri].1))
    } else {
        None
    }
}

/// What keeps the sessions alive that were opened.
pub open spec fn guards_in<W, G>(sessions: Map<Seq<char>, SessionState<W, G>>) -> Map<
    Seq<char>,
    G,
> {
    Map::new(
        |uri: Seq<char>| sessions.contains_key(uri) && sessions[uri] is Ready,
        |uri: Seq<char>| sessions[uri]->keepalive,
    )
}

/// The sessions of the documents, and the references that the server holds for them.
pub struct RpcManager<W, G> {
    sessions: TextMap<SessionState<W, G>>,
    refs: TextMap<(String, Vec<u64>)>,
}

impl<W, G> RpcManager<W, G> {
    /// How far each document has come with its session.
    pub closed spec fn sessions_view(self) -> Map<Seq<char>, SessionView<W>> {
        self.sessions@.map_values(|s: SessionState<W, G>| s.view())
    }

    /// The session and the references that the server holds for each document.
    pub closed spec fn refs_view(self) -> Map<Seq<char>, (Seq<char>, Seq<u64>)> {
        self.refs@.map_values(|r: (String, Vec<u64>)| (r.0@, r.1@))
    }

    /// What keeps each session alive that was opened.
    pub closed spec fn guards_view(self) -> Map<Seq<char>, G> {
        guards_in(self.sessions@)
    }

    /// No sessions.
    pub fn new() -> (r: RpcManager<W, G>)
        ensures
            r.guards_view() == Map::<Seq<char>, G>::empty(),
            r.sessions_view() == Map::<Seq<char>, SessionView<W>>::empty(),
            r.refs_view() == Map::<Seq<char>, (Seq<char>, Seq<u64>)>::empty(),
    {
        let r = RpcManager { sessions: TextMap::new(), refs: TextMap::new() };
        assert(r.sessions_view() =~= Map::empty());
        assert(r.guards_view() =~= Map::empty());
        assert(r.refs_view() =~= Map::empty());
        r
    }

    /// What to do for one who needs the session of a document.
    pub fn session(&mut self, uri: &str, waiter: W) -> (r: Outcome)
        ensures
            final(self).refs_view() == old(self).refs_view(),
            final(self).guards_view() == old(self).guards_view(),
            r@ == outcome_of(old(self).sessions_view(), uri@),
            final(self).sessions_view() == after_asking(old(self).sessions_view(), uri@, waiter),
    {
        let ghost before = self.sessions_view();
        let ghost guards = self.guards_view();
        match self.sessions.remove(uri) {
            Some(SessionState::Ready { session_id, keepalive }) => {
                let id = session_id.clone();
                let _ = self.sessions.insert(
                    uri.to_string(),
                    SessionState::Ready { session_id, keepalive },
                );
                assert(self.sessions_view() =~= before);
                assert(self.guards_view() =~= guards);
                Outcome::Have(id)
            },
            Some(SessionState::Connecting(ws)) => {
                let mut waiters = ws;
                waiters.push(waiter);
                let _ = self.sessions.insert(uri.to_string(), SessionState::Connecting(waiters));
                assert(self.sessions_view() =~= before.insert(
                    uri@,
                    SessionView::Connecting(waiters@),
                ));
                assert(self.guards_view() =~= guards);
                Outcome::Wait
            },
            None => {
                let none: Vec<W> = Vec::new();
                let _ = self.sessions.insert(uri.to_string(), SessionState::Connecting(none));
                assert(self.sessions_view() =~= before.insert(
                    uri@,
                    SessionView::Connecting(Seq::empty()),
                ));
                assert(self.guards_view() =~= guards);
                Outcome::Connect
            },
        }
    }

    /// Takes note of how the opening of a session went: of the session and what keeps it alive, or
    /// of none. Gives back who waited for it.
    pub fn finish_connect(&mut self, uri: &str, session: Option<(String, G)>) -> (waiters: Vec<W>)
        ensures
            final(self).refs_view() == old(self).refs_view(),
            final(self).guards_view() == match session {
                Some((_, g)) => old(self).guards_view().insert(uri@, g),
                None => old(self).guards_view().remove(uri@),
            },
            waiters@ == waiters_of(old(self).sessions_view(), uri@),
            final(self).sessions_view() == after_connecting(
                old(self).sessions_view(),
                uri@,
                match session {
                    Some((s, _)) => Some(s@),
                    None => None,
                },
            ),
    {
        let ghost before = self.sessions_view();
        let ghost guards = self.guards_view();
        match session {
            Some((session_id, keepalive)) => {
                let prev = self.sessions.insert(
                    uri.to_string(),
                    SessionState::Ready { session_id, keepalive },
                );
                assert(self.sessions_view() =~= before.insert(
                    uri@,
                    SessionView::Ready(session_id@),
                ));
                assert(self.guards_view() =~= guards.insert(uri@, keepalive));
                take_waiters(prev)
            },
            None => {
                let prev = self.sessions.remove(uri);
                assert(self.sessions_view() =~= before.remove(uri@));
                assert(self.guards_view() =~= guards.remove(uri@));
                take_waiters(prev)
            },
        }
    }

    /// Takes note of the references that the server holds for a document now. Gives back the
    /// parameters that tell the server to release those it held before, if there were any.
    pub fn replace_refs(&mut self, uri: &str, session: String, new_refs: Vec<u64>) -> (r: Option<
        Json,
    >)
        ensures
            final(self).sessions_view() == old(self).sessions_view(),
            final(self).guards_view() == old(self).guards_view(),
            final(self).refs_view() == old(self).refs_view().insert(uri@, (session@, new_refs@)),
            option_view(r) == released(old(self).refs_view(), uri@),
    {
        let ghost before = self.refs_view();
        let prev = self.refs.insert(uri.to_string(), (session, new_refs));
        assert(self.refs_view() =~= before.insert(uri@, (session@, new_refs@)));
        match prev {
            Some((prev_session, prev_refs)) => if prev_refs.len() > 0 {
                Some(release_params(uri, prev_session.as_str(), &prev_refs))
            } else {
                None
            },
            None => None,
        }
    }

    /// Forgets the session and the references of a document that was closed.
    pub fn handle_did_close(&mut self, uri: &str)
        ensures
            final(self).sessions_view() == old(self).sessions_view().remove(uri@),
            final(self).guards_view() == old(self).guards_view().remove(uri@),
            final(self).refs_view() == old(self).refs_view().remove(uri@),
    {
        let ghost sessions = self.sessions_view();
        let ghost guards = self.guards_view();
        let ghost refs = self.refs_view();
        let _ = self.sessions.remove(uri);
        let _ = self.refs.remove(uri);
        assert(self.sessions_view() =~= sessions.remove(uri@));
        assert(self.guards_view() =~= guards.remove(uri@));
        assert(self.refs_view() =~= refs.remove(uri@));
    }

    /// Follows an event: of a document that was closed, everything is forgotten.
    pub fn on_event(&mut self, event: &StateEvent)
        ensures
            match event@ {
                EventView::DidClose(uri) => {
                    &&& final(self).sessions_view() == old(self).sessions_view().remove(uri)
                    &&& final(self).guards_view() == old(self).guards_view().remove(uri)
                    &&& final(self).refs_view() == old(self).refs_view().remove(uri)
                },
                _ => *final(self) == *old(self),
            },
    {
        if let StateEvent::DidClose { uri } = event {
            self.handle_did_close(uri.as_str());
        }
    }
}

fn take_waiters<W, G>(state: Option<SessionState<W, G>>) -> (r: Vec<W>)
    ensures
        match state {
            Some(s) => r@ == match s.view() {
                SessionView::Connecting(ws) => ws,
                SessionView::Ready(_) => Seq::empty(),
            },
            None => r@ == Seq::<W>::empty(),
        },
{
    match state {
        Some(SessionState::Connecting(waiters)) => waiters,
        _ => Vec::new(),
    }
}

// ---------------------------------------------------------------------------------------------
// Laws
// ---------------------------------------------------------------------------------------------
/// Once someone has asked for the session of a document, nobody else is told to open it until the
/// opening has come to its end.
pub proof fn law_a_session_is_opened_once<W>(
    sessions: Map<Seq<char>, SessionView<W>>,
    uri: Seq<char>,
    waiter: W,
)
    ensures
        !(outcome_of(after_asking(sessions, uri, waiter), uri) is Connect),
{
}

/// The sessions after several asked for the session of a document, one after the other.
pub open spec fn after_all_asking<W>(
    sessions: Map<Seq<char>, SessionView<W>>,
    uri: Seq<char>,
    waiters: Seq<W>,
) -> Map<Seq<char>, SessionView<W>>
    decreases waiters.len(),
{
    if waiters.len() == 0 {
        sessions
    } else {
        after_asking(
            after_all_asking(sessions, uri, waiters.drop_last()),
            uri,
            waiters.last(),
        )
    }
}

/// Everyone who asks for a session while it is being opened waits for it, in the order in which
/// they came; the first one opens it and does not wait.
pub proof fn law_all_who_ask_are_served<W>(
    sessions: Map<Seq<char>, SessionView<W>>,
    uri: Seq<char>,
    waiters: Seq<W>,
)
    requires
        !sessions.contains_key(uri),
        waiters.len() > 0,
    ensures
        outcome_of(sessions, uri) is Connect,
        after_all_asking(sessions, uri, waiters) == sessions.insert(
            uri,
            SessionView::Connecting(waiters.drop_first()),
        ),
        waiters_of(after_all_asking(sessions, uri, waiters), uri) == waiters.drop_first(),
    decreases waiters.len(),
{
    let front = waiters.drop_last();
    if front.len() == 0 {
        assert(after_all_asking(sessions, uri, front) == sessions);
        assert(waiters.drop_first() =~= Seq::empty());
    } else {
        law_all_who_ask_are_served(sessions, uri, front);
        assert(front.drop_first().push(waiters.last()) =~= waiters.drop_first());
        assert(after_all_asking(sessions, uri, waiters) =~= sessions.insert(
            uri,
            SessionView::Connecting(waiters.drop_first()),
        ));
    }
}

/// A session that was opened is the one that is found, and where none could be opened the next one
/// to ask tries again.
pub proof fn law_an_opened_session_is_found<W>(
    sessions: Map<Seq<char>, SessionView<W>>,
    uri: Seq<char>,
    session: Option<Seq<char>>,
)
    ensures
        outcome_of(after_connecting(sessions, uri, session), uri) == match session {
            Some(s) => OutcomeView::Have(s),
            None => OutcomeView::Connect,
        },
{
}

/// References that are replaced are released, all of them and under the session they came from.
pub proof fn law_replaced_references_are_released(
    refs: Map<Seq<char>, (Seq<char>, Seq<u64>)>,
    uri: Seq<char>,
    session: Seq<char>,
    held: Seq<u64>,
)
    requires
        held.len() > 0,
    ensures
        released(refs.insert(uri, (session, held)), uri) == Some(
            release_message(uri, session, held),
        ),
{
}

/// What is a reference: a number of 64 bits under `p` or `__rpcref` of an object, and any reference
/// in a member of an object or an item of an array; nothing else is one.
pub proof fn law_what_is_a_reference(v: JsonView, key: Seq<char>, i: int, n: u64)
    ensures
        v.get("p"@) == Some(JsonView::Int(n as int)) ==> holds_ref(v, n),
        v.get("__rpcref"@) == Some(JsonView::Int(n as int)) ==> holds_ref(v, n),
        v.get(key) is Some && holds_ref(v.get(key)->0, n) ==> holds_ref(v, n),
        v is Array && 0 <= i < v->Array_0.len() && holds_ref(v->Array_0[i], n) ==> holds_ref(v, n),
        !(v is Object) && !(v is Array) ==> !holds_ref(v, n),
        v is Object && v->Object_0 == Map::<Seq<char>, JsonView>::empty() ==> !holds_ref(v, n),
        v is Array && v->Array_0.len() == 0 ==> !holds_ref(v, n),
{
    if let JsonView::Object(m) = v {
        if m.contains_key(key) && holds_ref(m[key], n) {
            assert(m.contains_key(key));
        }
    }
    if let JsonView::Array(items) = v {
        assert(holds_ref(v, n) == item_holds_ref(items, n));
    }
}

/// A call names its session, its procedure and the position, which it gives to the procedure too.
pub proof fn law_calls_name_session_and_position(
    session: Seq<char>,
    uri: Seq<char>,
    line: u64,
    character: u64,
)
    ensures
        ({
            let call = call_message(session, uri, line, character);
            &&& call.get("sessionId"@) == Some(JsonView::Str(session))
            &&& call.get("method"@) == Some(JsonView::Str("Lean.Widget.getInteractiveGoals"@))
            &&& call.get2("textDocument"@, "uri"@) == Some(JsonView::Str(uri))
            &&& call.get2("position"@, "line"@) == Some(JsonView::Int(line as int))
            &&& call.get2("position"@, "character"@) == Some(JsonView::Int(character as int))
            &&& call.get("params"@) == Some(position_params(uri, line, character))
        }),
{
    law_positions_are_spelled_out(uri, line, character);
    reveal_strlit("sessionId");
    reveal_strlit("textDocument");
    reveal_strlit("position");
    reveal_strlit("method");
    reveal_strlit("params");
    assert("sessionId"@.len() == 9 && "textDocument"@.len() == 12 && "position"@.len() == 8);
    assert("method"@.len() == 6 && "method"@[0] == 'm');
    assert("params"@.len() == 6 && "params"@[0] == 'p');
}

/// A session is what an answer gives as one; an answer without one, and an error, are errors.
pub proof fn law_sessions_are_read(v: JsonView, session: Seq<char>, e: ErrorView)
    ensures
        v.get("sessionId"@) == Some(JsonView::Str(session)) ==> session_in(Ok(v)) == Ok::<
            Seq<char>,
            ErrorView,
        >(session),
        v.get("sessionId"@) is None ==> session_in(Ok(v)) is Err,
        session_in(Err(e)) == Err::<Seq<char>, ErrorView>(e),
{
}

/// Asking for the session of a document leaves the sessions of all others as they are, and so does
/// the end of an opening.
pub proof fn law_other_sessions_stay<W>(
    sessions: Map<Seq<char>, SessionView<W>>,
    uri: Seq<char>,
    waiter: W,
    session: Option<Seq<char>>,
    other: Seq<char>,
)
    requires
        other != uri,
    ensures
        outcome_of(after_asking(sessions, uri, waiter), other) == outcome_of(sessions, other),
        waiters_of(after_asking(sessions, uri, waiter), other) == waiters_of(sessions, other),
        outcome_of(after_connecting(sessions, uri, session), other) == outcome_of(sessions, other),
        waiters_of(after_connecting(sessions, uri, session), other) == waiters_of(sessions, other),
{
}

/// Nothing is released where nothing was held, and what tells the server to release references
/// names the document, the session and all of them.
pub proof fn law_releases_name_what_is_released(
    refs: Map<Seq<char>, (Seq<char>, Seq<u64>)>,
    uri: Seq<char>,
    session: Seq<char>,
    held: Seq<u64>,
)
    ensures
        !refs.contains_key(uri) ==> released(refs, uri) is None,
        released(refs.insert(uri, (session, Seq::empty())), uri) is None,
        release_message(uri, session, held).get("uri"@) == Some(JsonView::Str(uri)),
        release_message(uri, session, held).get("sessionId"@) == Some(JsonView::Str(session)),
        release_message(uri, session, held).get("refs"@) == Some(
            JsonView::Array(Seq::new(held.len(), |i: int| JsonView::Int(held[i] as int))),
        ),
{
    reveal_strlit("uri");
    reveal_strlit("sessionId");
    reveal_strlit("refs");
    assert("uri"@.len() == 3 && "sessionId"@.len() == 9 && "refs"@.len() == 4);
    assert(ref_items(held) =~= Seq::new(held.len(), |i: int| JsonView::Int(held[i] as int)));
}

/// A reference that stands once is collected once, and those in a list are collected in its order.
pub proof fn law_references_are_collected_once(
    v: Json,
    entries: Vec<(String, Json)>,
    n: u64,
    list: Json,
    items: Vec<Json>,
    refs: Seq<u64>,
)
    requires
        v == Json::Object(entries),
        entries@.len() == 1,
        entries@[0].0@ == "p"@ || entries@[0].0@ == "__rpcref"@,
        entries@[0].1@ == JsonView::Int(n as int),
        list == Json::Array(items),
        items@.len() == refs.len(),
        forall|i: int| 0 <= i < refs.len() ==> refs_in(#[trigger] items@[i]) == seq![refs[i]],
    ensures
        refs_in(v) == seq![n],
        refs_in(list) == refs,
{
    let es = entries@;
    reveal_strlit("p");
    reveal_strlit("__rpcref");
    assert("p"@.len() == 1 && "__rpcref"@.len() == 8);
    assert(es.drop_last() =~= Seq::empty());
    assert(entries_view(es.drop_last()) == Map::<Seq<char>, JsonView>::empty());
    assert(entries_view(es) =~= Map::<Seq<char>, JsonView>::empty().insert(
        es[0].0@,
        es[0].1@,
    ));
    assert(v@ == JsonView::Object(entries_view(es)));
    assert(refs_in(es[0].1) =~= Seq::empty());
    assert(refs_in_entries(es, 1) =~= Seq::empty());
    assert(refs_in_entries(es, 0) =~= Seq::empty());
    assert(refs_in(v) =~= seq![n]);
    lemma_refs_in_order(items@, refs);
}

proof fn lemma_refs_in_order(items: Seq<Json>, refs: Seq<u64>)
    requires
        items.len() == refs.len(),
        forall|i: int| 0 <= i < refs.len() ==> refs_in(#[trigger] items[i]) == seq![refs[i]],
    ensures
        refs_in_items(items) == refs,
    decreases items.len(),
{
    if items.len() > 0 {
        let front = items.drop_last();
        assert forall|i: int| 0 <= i < front.len() implies refs_in(#[trigger] front[i]) == seq![
            refs.drop_last()[i],
        ] by {
            assert(front[i] == items[i]);
        }
        lemma_refs_in_order(front, refs.drop_last());
        assert(items[items.len() - 1] == items.last());
        assert(refs_in_items(items) =~= refs);
    } else {
        assert(refs =~= Seq::empty());
    }
}

} // verus!
