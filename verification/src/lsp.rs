//! The traffic between the editor and the server: the requests of its own that the proxy puts in
//! between, and where every message that comes along goes.
use crate::documents::{texts_after, Documents, Texts};
use crate::framing::{encode_frame, frame_of};
use crate::json::{
    array_in, copy_items, i64_in, items_view, lemma_items_view, option_view, parse, parsed, printed,
    str_in, Json, JsonView,
};
use crate::snoop::{
    cursor_in, cursor_view, doc_uri, extract_cursor, extract_did_change, extract_did_close,
    extract_did_open, extract_did_open_version, extract_uri, has_method, is_initialized, method_of,
    opt_i64, opt_str, opt_u64, position_part, uri_if, version_if, CursorPos,
};
use crate::state::{config_of, Config, EventView, StateEvent, StateHandle, StateView};
use crate::text::{
    appended, chars_of, decimal_of, lemma_decimal_injective, names_view, push_decimal, starts_with,
};
use crate::text_map::{distinct, map_of, TextMap};
use vstd::prelude::*;

verus! {

// ---------------------------------------------------------------------------------------------
// Messages
// ---------------------------------------------------------------------------------------------
/// What the identifiers of the proxy's own requests start with.
pub const ID_PREFIX: &'static str = "leanto:";

/// The code of an answer to a request that was cancelled.
pub const ERROR_CANCELLED: i64 = -32800;

/// The code of any other answer without a result.
pub const ERROR_OTHER: i64 = -1;

/// Why a request got no result.
#[derive(Clone, Debug, PartialEq, Eq)]
pub struct ResponseError {
    pub code: i64,
    pub message: String,
}

/// What an error says.
pub struct ErrorView {
    pub code: i64,
    pub message: Seq<char>,
}

impl ResponseError {
    pub open spec fn view(&self) -> ErrorView {
        ErrorView { code: self.code, message: self.message@ }
    }

    /// An error with a code and a message.
    pub fn new(code: i64, message: &str) -> (r: ResponseError)
        ensures
            r@ == (ErrorView { code, message: message@ }),
    {
        ResponseError { code, message: message.to_string() }
    }

    /// A second copy of the error.
    pub fn copy(&self) -> (r: ResponseError)
        ensures
            r@ == self@,
    {
        ResponseError { code: self.code, message: self.message.clone() }
    }
}

/// What a result says.
pub open spec fn result_view(r: Result<Json, ResponseError>) -> Result<JsonView, ErrorView> {
    match r {
        Ok(v) => Ok(v@),
        Err(e) => Err(e@),
    }
}

/// A request for inlay hints.
#[derive(Debug)]
pub struct InlayRequest {
    pub id: Json,
    pub params: Json,
}

/// A request for code lenses.
#[derive(Debug)]
pub struct CodeLensRequest {
    pub id: Json,
    pub params: Json,
}

/// A request for semantic tokens.
#[derive(Debug)]
pub struct SemanticTokensRequest {
    pub id: Json,
    pub params: Json,
}

/// A request.
pub open spec fn request_message(id: Seq<char>, method: Seq<char>, params: JsonView) -> JsonView {
    JsonView::Object(
        map![
            "jsonrpc"@ => JsonView::Str("2.0"@),
            "id"@ => JsonView::Str(id),
            "method"@ => JsonView::Str(method),
            "params"@ => params,
        ],
    )
}

/// A notification.
pub open spec fn notification_message(method: Seq<char>, params: JsonView) -> JsonView {
    JsonView::Object(
        map![
            "jsonrpc"@ => JsonView::Str("2.0"@),
            "method"@ => JsonView::Str(method),
            "params"@ => params,
        ],
    )
}

/// An answer.
pub open spec fn response_message(id: JsonView, result: JsonView) -> JsonView {
    JsonView::Object(
        map![
            "jsonrpc"@ => JsonView::Str("2.0"@),
            "id"@ => id,
            "result"@ => result,
        ],
    )
}

/// The frame that a message travels in.
pub open spec fn framed(message: JsonView) -> Seq<u8> {
    frame_of(printed(message))
}

/// The frame that a message travels in.
pub fn frame(message: &Json) -> (r: Vec<u8>)
    ensures
        r@ == framed(message@),
{
    encode_frame(message.to_bytes().as_slice())
}

fn request(id: &str, method: &str, params: Json) -> (r: Json)
    ensures
        r@ == request_message(id@, method@, params@),
{
    Json::object().with("jsonrpc", Json::text("2.0")).with("id", Json::text(id)).with(
        "method",
        Json::text(method),
    ).with("params", params)
}

fn notification(method: &str, params: Json) -> (r: Json)
    ensures
        r@ == notification_message(method@, params@),
{
    Json::object().with("jsonrpc", Json::text("2.0")).with("method", Json::text(method)).with(
        "params",
        params,
    )
}

fn response(id: Json, result: Json) -> (r: Json)
    ensures
        r@ == response_message(id@, result@),
{
    Json::object().with("jsonrpc", Json::text("2.0")).with("id", id).with("result", result)
}

/// Whether a message answers one of the proxy's own requests.
pub open spec fn answers_own(v: JsonView) -> bool {
    match str_in(v.get("id"@)) {
        Some(id) => ID_PREFIX@.is_prefix_of(id) && v.get("method"@) is None,
        None => false,
    }
}

/// What an answer says: its error, or else its result.
pub open spec fn answered(v: JsonView) -> Result<JsonView, ErrorView> {
    match v.get("error"@) {
        Some(e) => Err(
            ErrorView {
                code: match i64_in(e.get("code"@)) {
                    Some(c) => c,
                    None => ERROR_OTHER,
                },
                message: match str_in(e.get("message"@)) {
                    Some(m) => m,
                    None => ""@,
                },
            },
        ),
        None => Ok(
            match v.get("result"@) {
                Some(r) => r,
                None => JsonView::Null,
            },
        ),
    }
}

/// What an answer says: its error, or else its result.
pub fn extract_result(v: &Json) -> (r: Result<Json, ResponseError>)
    ensures
        result_view(r) == answered(v@),
{
    match v.get("error") {
        Some(e) => {
            let code = match opt_i64(e.get("code")) {
                Some(c) => c,
                None => ERROR_OTHER,
            };
            let message = match opt_str(e.get("message")) {
                Some(m) => m,
                None => "",
            };
            Err(ResponseError::new(code, message))
        },
        None => Ok(
            match v.get("result") {
                Some(r) => r.copy(),
                None => Json::Null,
            },
        ),
    }
}

/// The identifier in an answer to one of the proxy's own requests.
fn own_id(v: &Json) -> (r: Option<&str>)
    ensures
        match r {
            Some(id) => answers_own(v@) && str_in(v@.get("id"@)) == Some(id@),
            None => !answers_own(v@),
        },
{
    match opt_str(v.get("id")) {
        Some(id) => {
            let chars = chars_of(id);
            if starts_with(chars.as_slice(), ID_PREFIX) && v.get("method").is_none() {
                Some(id)
            } else {
                None
            }
        },
        None => None,
    }
}

// ---------------------------------------------------------------------------------------------
// The proxy's own requests
// ---------------------------------------------------------------------------------------------
/// Who a request goes to.
#[derive(Clone, Copy, Debug, PartialEq, Eq, Structural)]
pub enum Peer {
    Server,
    Editor,
}

impl Peer {
    /// The name of the peer.
    pub open spec fn name_view(self) -> Seq<char> {
        match self {
            Peer::Server => "server"@,
            Peer::Editor => "zed"@,
        }
    }

    pub fn name(self) -> (r: &'static str)
        ensures
            r@ == self.name_view(),
    {
        match self {
            Peer::Server => "server",
            Peer::Editor => "zed",
        }
    }

    /// What is reported where the peer no longer listens.
    pub fn pipe_closed(self) -> (r: String)
        ensures
            r@ == self.name_view() + " pipe closed"@,
    {
        appended(self.name(), " pipe closed")
    }
}

/// An identifier of the proxy's own.
pub open spec fn own_identifier(n: u64) -> Seq<char> {
    ID_PREFIX@ + decimal_of(n as nat)
}

/// The number behind another one. The count starts over behind its largest value.
pub open spec fn following(n: u64) -> u64 {
    if n == u64::MAX {
        0
    } else {
        (n + 1) as u64
    }
}

/// The proxy's own requests under way. `W` is what waits for an answer.
pub struct LspHandle<W> {
    next_id: u64,
    pending: TextMap<W>,
}

impl<W> LspHandle<W> {
    /// The number that the next identifier is made of.
    pub closed spec fn next(self) -> u64 {
        self.next_id
    }

    /// Who waits for the answer to which request.
    pub closed spec fn waiting(self) -> Map<Seq<char>, W> {
        self.pending@
    }

    /// No requests under way.
    pub fn new() -> (r: LspHandle<W>)
        ensures
            r.next() == 0,
            r.waiting() == Map::<Seq<char>, W>::empty(),
    {
        LspHandle { next_id: 0, pending: TextMap::new() }
    }

    /// A new identifier.
    pub fn alloc_id(&mut self) -> (id: String)
        ensures
            id@ == own_identifier(old(self).next()),
            final(self).next() == following(old(self).next()),
            final(self).waiting() == old(self).waiting(),
    {
        let n = self.next_id;
        self.next_id = n.wrapping_add(1);
        let mut id = ID_PREFIX.to_string();
        push_decimal(&mut id, n);
        id
    }

    /// Starts a request under an identifier; the frame goes to the server.
    pub fn request_with_id(&mut self, id: &str, method: &str, params: Json, waiter: W) -> (frame:
        Vec<u8>)
        ensures
            frame@ == framed(request_message(id@, method@, params@)),
            final(self).waiting() == old(self).waiting().insert(id@, waiter),
            final(self).next() == old(self).next(),
    {
        let _ = self.pending.insert(id.to_string(), waiter);
        frame(&request(id, method, params))
    }

    /// Starts a request under a new identifier; the frame goes to the editor.
    pub fn request_client(&mut self, method: &str, params: Json, waiter: W) -> (r: (
        String,
        Vec<u8>,
    ))
        ensures
            r.0@ == own_identifier(old(self).next()),
            r.1@ == framed(request_message(r.0@, method@, params@)),
            final(self).waiting() == old(self).waiting().insert(r.0@, waiter),
            final(self).next() == following(old(self).next()),
    {
        let id = self.alloc_id();
        let frame = self.request_with_id(id.as_str(), method, params, waiter);
        (id, frame)
    }

    /// Gives a request up whose frame could not be sent, and says why it got no result.
    pub fn abandon(&mut self, id: &str, peer: Peer) -> (r: ResponseError)
        ensures
            r@ == (ErrorView { code: ERROR_OTHER, message: peer.name_view() + " pipe closed"@ }),
            final(self).waiting() == old(self).waiting().remove(id@),
            final(self).next() == old(self).next(),
    {
        let _ = self.pending.remove(id);
        ResponseError { code: ERROR_OTHER, message: peer.pipe_closed() }
    }

    /// What a request gets whose waiter was dropped.
    pub fn dropped() -> (r: ResponseError)
        ensures
            r@ == (ErrorView { code: ERROR_OTHER, message: "router dropped"@ }),
    {
        ResponseError::new(ERROR_OTHER, "router dropped")
    }

    /// The frame of a notification to the server.
    pub fn notify(&self, method: &str, params: Json) -> (r: Vec<u8>)
        ensures
            r@ == framed(notification_message(method@, params@)),
    {
        frame(&notification(method, params))
    }

    /// The frame of a notification to the editor.
    pub fn notify_client(&self, method: &str, params: Json) -> (r: Vec<u8>)
        ensures
            r@ == framed(notification_message(method@, params@)),
    {
        frame(&notification(method, params))
    }

    /// The frame of an answer to the editor.
    pub fn respond_to_client(&self, id: Json, result: Json) -> (r: Vec<u8>)
        ensures
            r@ == framed(response_message(id@, result@)),
    {
        frame(&response(id, result))
    }

    /// Cancels a request: the frame that tells the server, and who waited for it, with what they
    /// get.
    pub fn cancel(&mut self, id: &str) -> (r: (Vec<u8>, Option<(W, ResponseError)>))
        ensures
            r.0@ == framed(
                notification_message(
                    "$/cancelRequest"@,
                    JsonView::Object(map!["id"@ => JsonView::Str(id@)]),
                ),
            ),
            match r.1 {
                Some((w, e)) => {
                    &&& old(self).waiting().contains_key(id@)
                    &&& w == old(self).waiting()[id@]
                    &&& e@ == (ErrorView {
                        code: ERROR_CANCELLED,
                        message: "cancelled by proxy"@,
                    })
                },
                None => !old(self).waiting().contains_key(id@),
            },
            final(self).waiting() == old(self).waiting().remove(id@),
            final(self).next() == old(self).next(),
    {
        let note = self.notify(
            "$/cancelRequest",
            Json::object().with("id", Json::text(id)),
        );
        match self.pending.remove(id) {
            Some(w) => (note, Some((w, ResponseError::new(ERROR_CANCELLED, "cancelled by proxy")))),
            None => (note, None),
        }
    }

    /// Takes out who waits for the answer that a message is.
    fn settle(&mut self, v: &Json, id: &str) -> (r: Option<(W, Result<Json, ResponseError>)>)
        requires
            answers_own(v@),
            str_in(v@.get("id"@)) == Some(id@),
        ensures
            settles(v@, old(self).waiting(), final(self).waiting(), r),
            final(self).next() == old(self).next(),
    {
        match self.pending.remove(id) {
            Some(w) => Some((w, extract_result(v))),
            None => None,
        }
    }

    /// Takes out everyone who waits, with what they get when the server's stream has ended.
    pub fn close(&mut self) -> (r: (Vec<(String, W)>, ResponseError))
        ensures
            map_of(r.0@) == old(self).waiting(),
            distinct(r.0@),
            r.1@ == (ErrorView { code: ERROR_OTHER, message: "server connection closed"@ }),
            final(self).waiting() == Map::<Seq<char>, W>::empty(),
            final(self).next() == old(self).next(),
    {
        (self.pending.drain(), ResponseError::new(ERROR_OTHER, "server connection closed"))
    }
}

/// Whether an answer to one of the proxy's own requests is handed to the one who waits for it, and
/// to nobody else.
pub open spec fn settles<W>(
    v: JsonView,
    before: Map<Seq<char>, W>,
    after: Map<Seq<char>, W>,
    r: Option<(W, Result<Json, ResponseError>)>,
) -> bool {
    let id = str_in(v.get("id"@))->0;
    &&& after == before.remove(id)
    &&& match r {
        Some((w, result)) => before.contains_key(id) && w == before[id] && result_view(result)
            == answered(v),
        None => !before.contains_key(id),
    }
}

// ---------------------------------------------------------------------------------------------
// Capabilities
// ---------------------------------------------------------------------------------------------
/// Whether a message is the server's answer to the handshake.
pub open spec fn initialize_response(v: JsonView) -> bool {
    v.get2("result"@, "capabilities"@) matches Some(caps) && caps is Object
}

/// Whether a message is the server's answer to the handshake.
pub fn is_initialize_response(v: &Json) -> (r: bool)
    ensures
        r == initialize_response(v@),
{
    match v.get2("result", "capabilities") {
        Some(caps) => caps.is_object(),
        None => false,
    }
}

/// The capabilities of a server, with those added that the proxy has and the server does not.
pub open spec fn capabilities_with(caps: JsonView, hints: bool, lenses: bool) -> JsonView {
    let first = if hints && caps.get("inlayHintProvider"@) is None {
        caps.with("inlayHintProvider"@, JsonView::Bool(true))
    } else {
        caps
    };
    if lenses && caps.get("codeLensProvider"@) is None {
        first.with(
            "codeLensProvider"@,
            JsonView::Object(map!["resolveProvider"@ => JsonView::Bool(false)]),
        )
    } else {
        first
    }
}

/// Whether a capability is missing that the proxy has.
pub open spec fn lacks(caps: JsonView, hints: bool, lenses: bool) -> bool {
    (hints && caps.get("inlayHintProvider"@) is None) || (lenses && caps.get("codeLensProvider"@)
        is None)
}

/// The server's answer to the handshake with capabilities added; none where there is nothing to
/// add.
pub open spec fn injected(v: JsonView, hints: bool, lenses: bool) -> Option<JsonView> {
    match v.get2("result"@, "capabilities"@) {
        Some(caps) => if caps is Object && lacks(caps, hints, lenses) {
            Some(
                v.with(
                    "result"@,
                    v.get("result"@)->0.with(
                        "capabilities"@,
                        capabilities_with(caps, hints, lenses),
                    ),
                ),
            )
        } else {
            None
        },
        None => None,
    }
}

fn inject(v: &Json, hints: bool, lenses: bool) -> (r: Option<Json>)
    ensures
        option_view(r) == injected(v@, hints, lenses),
{
    proof {
        reveal_strlit("inlayHintProvider");
        reveal_strlit("codeLensProvider");
        assert("inlayHintProvider"@.len() == 17);
        assert("codeLensProvider"@.len() == 16);
    }
    let result = match v.get("result") {
        Some(result) => result,
        None => {
            return None;
        },
    };
    let caps = match result.get("capabilities") {
        Some(caps) => caps,
        None => {
            return None;
        },
    };
    if !caps.is_object() {
        return None;
    }
    let add_hints = hints && caps.get("inlayHintProvider").is_none();
    let add_lenses = lenses && caps.get("codeLensProvider").is_none();
    if !add_hints && !add_lenses {
        return None;
    }
    let first = if add_hints {
        caps.copy().with("inlayHintProvider", Json::Bool(true))
    } else {
        caps.copy()
    };
    let all = if add_lenses {
        first.with("codeLensProvider", Json::object().with("resolveProvider", Json::Bool(false)))
    } else {
        first
    };
    Some(v.copy().with("result", result.copy().with("capabilities", all)))
}

/// The server's answer to the handshake with the capabilities added that are switched on.
pub fn maybe_inject_capabilities(v: &Json, cfg: &Config) -> (r: Option<Json>)
    ensures
        option_view(r) == injected(v@, cfg.inlay_hints, cfg.code_lens),
{
    inject(v, cfg.inlay_hints, cfg.code_lens)
}

/// The server's answer to the handshake with all capabilities added.
pub fn maybe_inject_inlay_capability(v: &Json) -> (r: Option<Json>)
    ensures
        option_view(r) == injected(v@, true, true),
{
    inject(v, true, true)
}

/// What the server says it can do stays.
pub proof fn law_server_capabilities_stay(
    v: JsonView,
    hints: bool,
    lenses: bool,
    capability: Seq<char>,
)
    requires
        injected(v, hints, lenses) is Some,
        v.get3("result"@, "capabilities"@, capability) is Some,
    ensures
        injected(v, hints, lenses)->0.get3("result"@, "capabilities"@, capability) == v.get3(
            "result"@,
            "capabilities"@,
            capability,
        ),
{
}

// ---------------------------------------------------------------------------------------------
// Messages of the editor
// ---------------------------------------------------------------------------------------------
/// A request for a hover.
#[derive(Debug)]
pub struct HoverRequest {
    pub id: Json,
    pub uri: String,
    pub line: u64,
    pub character: u64,
}

/// What goes along with a message that is passed on.
pub struct Passed {
    /// The message in its frame.
    pub frame: Vec<u8>,
    /// The cursor position that it gives away.
    pub cursor: Option<CursorPos>,
    /// Whether it ends the handshake.
    pub initialized: bool,
    /// What it changed.
    pub events: Vec<StateEvent>,
}

/// What becomes of a message of the editor.
pub enum ClientAction<W> {
    /// It answers one of the proxy's own requests; this is who waits for the answer.
    Settle(Option<(W, Result<Json, ResponseError>)>),
    Inlay(InlayRequest),
    Lens(CodeLensRequest),
    Tokens(SemanticTokensRequest),
    Hover(HoverRequest),
    /// It goes on to the server.
    Forward(Passed),
}

/// Where a message of the editor goes.
pub enum ClientRoute {
    Settle,
    Inlay(JsonView, JsonView),
    Lens(JsonView, JsonView),
    Tokens(JsonView, JsonView),
    Hover(JsonView, Seq<char>, u64, u64),
    Forward,
}

/// The features that are on after a message: the handshake sets them.
pub open spec fn config_after(config: Config, v: JsonView) -> Config {
    match v.get2("params"@, "initializationOptions"@) {
        Some(opts) => if method_of(v) == Some("initialize"@) {
            config_of(opts)
        } else {
            config
        },
        None => config,
    }
}

/// The parameters of a request.
pub open spec fn params_of(v: JsonView) -> JsonView {
    match v.get("params"@) {
        Some(p) => p,
        None => JsonView::Null,
    }
}

/// Whether a message is a request with a given method.
pub open spec fn asks(v: JsonView, method: Seq<char>) -> bool {
    method_of(v) == Some(method) && v.get("id"@) is Some
}

/// Where a message of the editor goes, by the features that are on.
pub open spec fn client_route(v: JsonView, cfg: Config) -> ClientRoute {
    let id = v.get("id"@)->0;
    if answers_own(v) {
        ClientRoute::Settle
    } else if cfg.inlay_hints && asks(v, "textDocument/inlayHint"@) {
        ClientRoute::Inlay(id, params_of(v))
    } else if cfg.code_lens && asks(v, "textDocument/codeLens"@) {
        ClientRoute::Lens(id, params_of(v))
    } else if cfg.semantic_tokens && asks(v, "textDocument/semanticTokens/full"@) {
        ClientRoute::Tokens(id, params_of(v))
    } else if cfg.hover && asks(v, "textDocument/hover"@) && doc_uri(v) is Some && position_part(
        v,
        "line"@,
    ) is Some && position_part(v, "character"@) is Some {
        ClientRoute::Hover(
            id,
            doc_uri(v)->0,
            position_part(v, "line"@)->0,
            position_part(v, "character"@)->0,
        )
    } else {
        ClientRoute::Forward
    }
}

/// What changes when a message is passed on to the server.
pub open spec fn state_passing(state: StateView, v: JsonView) -> StateView {
    let closed = match uri_if(v, "textDocument/didClose"@) {
        Some(uri) => StateView {
            goals: state.goals.remove(uri),
            progress: state.progress.remove(uri),
            versions: state.versions.remove(uri),
            ..state
        },
        None => state,
    };
    let opened = match version_if(v, "textDocument/didOpen"@) {
        Some((uri, version)) => StateView {
            versions: closed.versions.insert(uri, version),
            ..closed
        },
        None => closed,
    };
    match version_if(v, "textDocument/didChange"@) {
        Some((uri, version)) => StateView {
            versions: opened.versions.insert(uri, version),
            ..opened
        },
        None => opened,
    }
}

/// The events of a message that is passed on to the server.
pub open spec fn events_passing(v: JsonView) -> Seq<EventView> {
    let opened = match uri_if(v, "textDocument/didOpen"@) {
        Some(uri) => seq![EventView::DidOpen(uri)],
        None => Seq::empty(),
    };
    let closed = match uri_if(v, "textDocument/didClose"@) {
        Some(uri) => seq![EventView::DidClose(uri)],
        None => Seq::empty(),
    };
    opened + closed
}

/// What is known after a message of the editor.
pub open spec fn state_after_client(state: StateView, msg: Option<JsonView>) -> StateView {
    match msg {
        Some(v) => {
            let configured = StateView { config: config_after(state.config, v), ..state };
            match client_route(v, configured.config) {
                ClientRoute::Settle => state,
                ClientRoute::Forward => state_passing(configured, v),
                _ => configured,
            }
        },
        None => state,
    }
}

/// Where a message of the editor goes; what is no JSON goes on.
pub open spec fn route_of(state: StateView, msg: Option<JsonView>) -> ClientRoute {
    match msg {
        Some(v) => client_route(v, config_after(state.config, v)),
        None => ClientRoute::Forward,
    }
}

/// The texts after a message of the editor: they follow what goes on to the server.
pub open spec fn texts_after_client(
    state: StateView,
    texts: Texts,
    msg: Option<JsonView>,
) -> Texts {
    match (msg, route_of(state, msg)) {
        (Some(v), ClientRoute::Forward) => texts_after(texts, v),
        _ => texts,
    }
}

/// What events say.
pub open spec fn events_view(events: Seq<StateEvent>) -> Seq<EventView> {
    events.map_values(|e: StateEvent| e@)
}

/// Whether what is passed on is what a message calls for.
pub open spec fn passes(p: Passed, frame: Seq<u8>, msg: Option<JsonView>) -> bool {
    &&& p.frame@ == frame
    &&& match msg {
        Some(v) => {
            &&& cursor_view(p.cursor) == cursor_in(v)
            &&& p.initialized == (method_of(v) == Some("initialized"@))
            &&& events_view(p.events@) == events_passing(v)
        },
        None => p.cursor is None && !p.initialized && p.events@.len() == 0,
    }
}

/// Whether an action is what a message of the editor calls for.
pub open spec fn client_acts<W>(
    action: ClientAction<W>,
    state: StateView,
    msg: Option<JsonView>,
    frame: Seq<u8>,
    before: Map<Seq<char>, W>,
    after: Map<Seq<char>, W>,
) -> bool {
    match (route_of(state, msg), action) {
        (ClientRoute::Settle, ClientAction::Settle(r)) => settles(msg->0, before, after, r),
        (ClientRoute::Inlay(id, params), ClientAction::Inlay(r)) => r.id@ == id && r.params@
            == params && after == before,
        (ClientRoute::Lens(id, params), ClientAction::Lens(r)) => r.id@ == id && r.params@
            == params && after == before,
        (ClientRoute::Tokens(id, params), ClientAction::Tokens(r)) => r.id@ == id && r.params@
            == params && after == before,
        (ClientRoute::Hover(id, uri, line, character), ClientAction::Hover(r)) => r.id@ == id
            && r.uri@ == uri && r.line == line && r.character == character && after == before,
        (ClientRoute::Forward, ClientAction::Forward(p)) => passes(p, frame, msg) && after
            == before,
        _ => false,
    }
}

/// A request's identifier and parameters, if a message is one with a given method.
fn request_parts(v: &Json, method: &str) -> (r: Option<(Json, Json)>)
    ensures
        match r {
            Some((id, params)) => asks(v@, method@) && id@ == v@.get("id"@)->0 && params@
                == params_of(v@),
            None => !asks(v@, method@),
        },
{
    if !has_method(v, method) {
        return None;
    }
    match v.get("id") {
        Some(id) => {
            let params = match v.get("params") {
                Some(p) => p.copy(),
                None => Json::Null,
            };
            Some((id.copy(), params))
        },
        None => None,
    }
}

/// A hover request, if a message is one.
fn hover_parts(v: &Json) -> (r: Option<HoverRequest>)
    ensures
        match r {
            Some(h) => asks(v@, "textDocument/hover"@) && h.id@ == v@.get("id"@)->0 && doc_uri(v@)
                == Some(h.uri@) && position_part(v@, "line"@) == Some(h.line) && position_part(
                v@,
                "character"@,
            ) == Some(h.character),
            None => !(asks(v@, "textDocument/hover"@) && doc_uri(v@) is Some && position_part(
                v@,
                "line"@,
            ) is Some && position_part(v@, "character"@) is Some),
        },
{
    match request_parts(v, "textDocument/hover") {
        Some((id, _)) => {
            let line = opt_u64(v.get3("params", "position", "line"));
            let character = opt_u64(v.get3("params", "position", "character"));
            match (extract_uri(v), line, character) {
                (Some(uri), Some(line), Some(character)) => Some(
                    HoverRequest { id, uri, line, character },
                ),
                _ => None,
            }
        },
        None => None,
    }
}

/// A message put back in its frame.
fn reframed(header: Vec<u8>, body: &Vec<u8>) -> (r: Vec<u8>)
    ensures
        r@ == header@ + body@,
{
    let mut frame = header;
    frame.extend_from_slice(body.as_slice());
    assert(frame@ =~= header@ + body@);
    frame
}

/// Takes note of a message that is passed on to the server.
fn pass_on(
    state: &mut StateHandle,
    documents: &mut Documents,
    v: &Json,
    frame: Vec<u8>,
) -> (r: Passed)
    requires
        old(documents).wf(),
    ensures
        final(documents).wf(),
        final(documents)@ == texts_after(old(documents)@, v@),
        final(state)@ == state_passing(old(state)@, v@),
        passes(r, frame@, Some(v@)),
{
    let mut events: Vec<StateEvent> = Vec::new();
    let cursor = extract_cursor(v);
    let initialized = is_initialized(v);
    if let Some(uri) = extract_did_open(v) {
        events.push(state.note_did_open(uri));
    }
    if let Some(uri) = extract_did_close(v) {
        events.push(state.note_did_close(uri));
    }
    if let Some((uri, version)) = extract_did_open_version(v) {
        state.update_version(uri, version);
    }
    if let Some((uri, version)) = extract_did_change(v) {
        state.update_version(uri, version);
    }
    documents.handle_message(v);
    assert(events_view(events@) =~= events_passing(v@));
    Passed { frame, cursor, initialized, events }
}

/// Decides what becomes of a message of the editor, and takes note of it.
pub fn route_client<W>(
    handle: &mut LspHandle<W>,
    state: &mut StateHandle,
    documents: &mut Documents,
    msg: Option<Json>,
    header: Vec<u8>,
    body: &Vec<u8>,
) -> (action: ClientAction<W>)
    requires
        old(documents).wf(),
    ensures
        final(documents).wf(),
        final(documents)@ == texts_after_client(
            old(state)@,
            old(documents)@,
            option_view(msg),
        ),
        final(state)@ == state_after_client(old(state)@, option_view(msg)),
        final(handle).next() == old(handle).next(),
        client_acts(
            action,
            old(state)@,
            option_view(msg),
            header@ + body@,
            old(handle).waiting(),
            final(handle).waiting(),
        ),
{
    let v = match msg {
        Some(v) => v,
        None => {
            let frame = reframed(header, body);
            return ClientAction::Forward(
                Passed { frame, cursor: None, initialized: false, events: Vec::new() },
            );
        },
    };
    if let Some(id) = own_id(&v) {
        return ClientAction::Settle(handle.settle(&v, id));
    }
    if has_method(&v, "initialize") {
        if let Some(opts) = v.get2("params", "initializationOptions") {
            state.set_config(Config::from_init_options(opts));
        }
    }
    let cfg = state.config();
    if cfg.inlay_hints {
        if let Some((id, params)) = request_parts(&v, "textDocument/inlayHint") {
            return ClientAction::Inlay(InlayRequest { id, params });
        }
    }
    if cfg.code_lens {
        if let Some((id, params)) = request_parts(&v, "textDocument/codeLens") {
            return ClientAction::Lens(CodeLensRequest { id, params });
        }
    }
    if cfg.semantic_tokens {
        if let Some((id, params)) = request_parts(&v, "textDocument/semanticTokens/full") {
            return ClientAction::Tokens(SemanticTokensRequest { id, params });
        }
    }
    if cfg.hover {
        if let Some(h) = hover_parts(&v) {
            return ClientAction::Hover(h);
        }
    }
    let frame = reframed(header, body);
    ClientAction::Forward(pass_on(state, documents, &v, frame))
}

/// Decides what becomes of a message of the editor as it came in, and takes note of it.
pub fn on_client_message<W>(
    handle: &mut LspHandle<W>,
    state: &mut StateHandle,
    documents: &mut Documents,
    header: Vec<u8>,
    body: Vec<u8>,
) -> (action: ClientAction<W>)
    requires
        old(documents).wf(),
    ensures
        final(documents).wf(),
        final(documents)@ == texts_after_client(old(state)@, old(documents)@, parsed(body@)),
        final(state)@ == state_after_client(old(state)@, parsed(body@)),
        final(handle).next() == old(handle).next(),
        client_acts(
            action,
            old(state)@,
            parsed(body@),
            header@ + body@,
            old(handle).waiting(),
            final(handle).waiting(),
        ),
{
    let msg = parse(body.as_slice());
    route_client(handle, state, documents, msg, header, &body)
}

// ---------------------------------------------------------------------------------------------
// Messages of the server
// ---------------------------------------------------------------------------------------------
/// What becomes of a message of the server.
pub enum ServerAction<W> {
    /// It answers one of the proxy's own requests; this is who waits for the answer.
    Settle(Option<(W, Result<Json, ResponseError>)>),
    /// It goes on to the editor in this frame, and this is what it changed.
    Forward(Vec<u8>, Vec<StateEvent>),
}

/// The document whose progress a message reports, and the report.
pub open spec fn progress_in(v: JsonView) -> Option<(Seq<char>, JsonView)> {
    match uri_if(v, "$/lean/fileProgress"@) {
        Some(uri) => Some((uri, v.get("params"@)->0)),
        None => None,
    }
}

/// The document that a message reports on, and what it reports.
pub open spec fn diagnostics_in(v: JsonView) -> Option<(Seq<char>, Seq<JsonView>)> {
    match str_in(v.get2("params"@, "uri"@)) {
        Some(uri) => if method_of(v) == Some("textDocument/publishDiagnostics"@) {
            Some(
                (
                    uri,
                    match array_in(v.get2("params"@, "diagnostics"@)) {
                        Some(items) => items,
                        None => Seq::empty(),
                    },
                ),
            )
        } else {
            None
        },
        None => None,
    }
}

/// The texts among some items.
pub open spec fn texts_in(items: Seq<JsonView>) -> Seq<Seq<char>>
    decreases items.len(),
{
    if items.len() == 0 {
        Seq::empty()
    } else {
        let front = texts_in(items.drop_last());
        match items.last() {
            JsonView::Str(s) => front.push(s),
            _ => front,
        }
    }
}

/// The legend that the server's answer to the handshake gives.
pub open spec fn legend_in(v: JsonView) -> Option<JsonView> {
    if initialize_response(v) {
        match v.get3("result"@, "capabilities"@, "semanticTokensProvider"@) {
            Some(provider) => provider.get("legend"@),
            None => None,
        }
    } else {
        None
    }
}

/// A list of names in a legend, or what was known before.
pub open spec fn names_in(
    legend: Option<JsonView>,
    key: Seq<char>,
    before: Seq<Seq<char>>,
) -> Seq<Seq<char>> {
    match legend {
        Some(legend) => match array_in(legend.get(key)) {
            Some(items) => texts_in(items),
            None => before,
        },
        None => before,
    }
}

/// What is known after a message of the server.
pub open spec fn state_after_server(state: StateView, msg: Option<JsonView>) -> StateView {
    match msg {
        Some(v) => if answers_own(v) {
            state
        } else {
            StateView {
                progress: match progress_in(v) {
                    Some((uri, report)) => state.progress.insert(uri, report),
                    None => state.progress,
                },
                diagnostics: match diagnostics_in(v) {
                    Some((uri, items)) => state.diagnostics.insert(uri, items),
                    None => state.diagnostics,
                },
                token_types: names_in(legend_in(v), "tokenTypes"@, state.token_types),
                token_modifiers: names_in(legend_in(v), "tokenModifiers"@, state.token_modifiers),
                ..state
            }
        },
        None => state,
    }
}

/// The events of a message of the server.
pub open spec fn events_of_server(v: JsonView) -> Seq<EventView> {
    let progress = match progress_in(v) {
        Some((uri, _)) => seq![EventView::ProgressChanged(uri)],
        None => Seq::empty(),
    };
    let diagnostics = match diagnostics_in(v) {
        Some((uri, _)) => seq![EventView::DiagnosticsChanged(uri)],
        None => Seq::empty(),
    };
    progress + diagnostics
}

/// What goes on to the editor: the message as it came, or the answer to the handshake with the
/// capabilities added that are switched on.
pub open spec fn frame_to_editor(cfg: Config, msg: Option<JsonView>, frame: Seq<u8>) -> Seq<u8> {
    match msg {
        Some(v) => match injected(v, cfg.inlay_hints, cfg.code_lens) {
            Some(changed) => framed(changed),
            None => frame,
        },
        None => frame,
    }
}

/// Whether an action is what a message of the server calls for.
pub open spec fn server_acts<W>(
    action: ServerAction<W>,
    cfg: Config,
    msg: Option<JsonView>,
    frame: Seq<u8>,
    before: Map<Seq<char>, W>,
    after: Map<Seq<char>, W>,
) -> bool {
    match action {
        ServerAction::Settle(r) => msg is Some && answers_own(msg->0) && settles(
            msg->0,
            before,
            after,
            r,
        ),
        ServerAction::Forward(out, events) => {
            &&& !(msg is Some && answers_own(msg->0))
            &&& out@ == frame_to_editor(cfg, msg, frame)
            &&& events_view(events@) == match msg {
                Some(v) => events_of_server(v),
                None => Seq::empty(),
            }
            &&& after == before
        },
    }
}

/// The texts among some items.
pub fn collect_texts(items: &Vec<Json>) -> (out: Vec<String>)
    ensures
        names_view(out@) == texts_in(items_view(items@)),
{
    let mut out: Vec<String> = Vec::new();
    let mut i: usize = 0;
    let ghost all = items_view(items@);
    proof {
        lemma_items_view(items@);
        assert(all.take(0) =~= Seq::empty());
        assert(names_view(out@) =~= Seq::empty());
    }
    while i < items.len()
        invariant
            i <= items.len(),
            all == items_view(items@),
            all.len() == items.len(),
            forall|k: int| 0 <= k < items.len() ==> #[trigger] all[k] == items@[k]@,
            names_view(out@) == texts_in(all.take(i as int)),
        decreases items.len() - i,
    {
        let ghost before = out@;
        assert(all.take(i as int + 1).drop_last() =~= all.take(i as int));
        assert(all.take(i as int + 1).last() == items@[i as int]@);
        if let Some(s) = items[i].as_str() {
            let name = s.to_string();
            out.push(name);
            assert(names_view(out@) =~= names_view(before).push(name@));
        }
        i += 1;
    }
    assert(all.take(i as int) =~= all);
    out
}

/// A list of names in a legend.
fn read_names(legend: &Json, key: &str) -> (r: Option<Vec<String>>)
    ensures
        match r {
            Some(names) => array_in(legend@.get(key@)) is Some && names_view(names@) == texts_in(
                array_in(legend@.get(key@))->0,
            ),
            None => array_in(legend@.get(key@)) is None,
        },
{
    match legend.get(key) {
        Some(v) => match v.as_array() {
            Some(items) => Some(collect_texts(items)),
            None => None,
        },
        None => None,
    }
}

/// Takes over the legend that the server's answer to the handshake gives.
fn learn_legend(state: &mut StateHandle, v: &Json)
    ensures
        final(state)@ == (StateView {
            token_types: names_in(legend_in(v@), "tokenTypes"@, old(state)@.token_types),
            token_modifiers: names_in(
                legend_in(v@),
                "tokenModifiers"@,
                old(state)@.token_modifiers,
            ),
            ..old(state)@
        }),
{
    if !is_initialize_response(v) {
        return;
    }
    let legend = match v.get3("result", "capabilities", "semanticTokensProvider") {
        Some(provider) => match provider.get("legend") {
            Some(legend) => legend,
            None => {
                return;
            },
        },
        None => {
            return;
        },
    };
    if let Some(names) = read_names(legend, "tokenTypes") {
        state.set_semantic_token_types(names);
    }
    if let Some(names) = read_names(legend, "tokenModifiers") {
        state.set_semantic_token_modifiers(names);
    }
}

/// Decides what becomes of a message of the server, and takes note of it.
pub fn route_server<W>(
    handle: &mut LspHandle<W>,
    state: &mut StateHandle,
    msg: Option<Json>,
    header: Vec<u8>,
    body: &Vec<u8>,
) -> (action: ServerAction<W>)
    ensures
        final(state)@ == state_after_server(old(state)@, option_view(msg)),
        final(handle).next() == old(handle).next(),
        server_acts(
            action,
            old(state)@.config,
            option_view(msg),
            header@ + body@,
            old(handle).waiting(),
            final(handle).waiting(),
        ),
{
    let v = match msg {
        Some(v) => v,
        None => {
            let events: Vec<StateEvent> = Vec::new();
            assert(events_view(events@) =~= Seq::empty());
            return ServerAction::Forward(reframed(header, body), events);
        },
    };
    if let Some(id) = own_id(&v) {
        return ServerAction::Settle(handle.settle(&v, id));
    }
    let mut events: Vec<StateEvent> = Vec::new();
    if has_method(&v, "$/lean/fileProgress") {
        if let Some(params) = v.get("params") {
            if let Some(uri) = opt_str(params.get2("textDocument", "uri")) {
                events.push(state.update_progress(uri.to_string(), params.copy()));
            }
        }
    }
    if has_method(&v, "textDocument/publishDiagnostics") {
        if let Some(uri) = opt_str(v.get2("params", "uri")) {
            let items = match v.get2("params", "diagnostics") {
                Some(d) => match d.as_array() {
                    Some(items) => copy_items(items),
                    None => Vec::new(),
                },
                None => Vec::new(),
            };
            events.push(state.update_diagnostics(uri.to_string(), items));
        }
    }
    assert(events_view(events@) =~= events_of_server(v@));
    learn_legend(state, &v);
    let cfg = state.config();
    let out = match maybe_inject_capabilities(&v, &cfg) {
        Some(changed) => frame(&changed),
        None => reframed(header, body),
    };
    ServerAction::Forward(out, events)
}

/// Decides what becomes of a message of the server as it came in, and takes note of it.
pub fn on_server_message<W>(
    handle: &mut LspHandle<W>,
    state: &mut StateHandle,
    header: Vec<u8>,
    body: Vec<u8>,
) -> (action: ServerAction<W>)
    ensures
        final(state)@ == state_after_server(old(state)@, parsed(body@)),
        final(handle).next() == old(handle).next(),
        server_acts(
            action,
            old(state)@.config,
            parsed(body@),
            header@ + body@,
            old(handle).waiting(),
            final(handle).waiting(),
        ),
{
    let msg = parse(body.as_slice());
    route_server(handle, state, msg, header, &body)
}

// ---------------------------------------------------------------------------------------------
// Laws
// ---------------------------------------------------------------------------------------------
/// With every feature off the proxy stands aside: what answers none of its own requests goes on
/// from the editor to the server, and from the server to the editor as it came.
pub proof fn law_all_off_is_transparent(v: JsonView, cfg: Config, frame: Seq<u8>)
    requires
        !answers_own(v),
        !cfg.inlay_hints,
        !cfg.code_lens,
        !cfg.semantic_tokens,
        !cfg.hover,
    ensures
        client_route(v, cfg) == ClientRoute::Forward,
        frame_to_editor(cfg, Some(v), frame) == frame,
{
}

/// The requests of a feature that is off go on to the server, whichever other features are on.
pub proof fn law_requests_of_a_feature_that_is_off_pass(v: JsonView, cfg: Config)
    requires
        !answers_own(v),
        ({
            ||| method_of(v) == Some("textDocument/inlayHint"@) && !cfg.inlay_hints
            ||| method_of(v) == Some("textDocument/codeLens"@) && !cfg.code_lens
            ||| method_of(v) == Some("textDocument/semanticTokens/full"@) && !cfg.semantic_tokens
            ||| method_of(v) == Some("textDocument/hover"@) && !cfg.hover
        }),
    ensures
        client_route(v, cfg) == ClientRoute::Forward,
{
    reveal_strlit("textDocument/inlayHint");
    reveal_strlit("textDocument/codeLens");
    reveal_strlit("textDocument/semanticTokens/full");
    reveal_strlit("textDocument/hover");
    assert("textDocument/inlayHint"@.len() == 22);
    assert("textDocument/codeLens"@.len() == 21);
    assert("textDocument/semanticTokens/full"@.len() == 32);
    assert("textDocument/hover"@.len() == 18);
}

/// A feature that is on is announced to the editor, and one that is off is announced only if the
/// server announces it.
pub proof fn law_features_that_are_on_are_announced(v: JsonView, hints: bool, lenses: bool)
    requires
        initialize_response(v),
    ensures
        ({
            let out = match injected(v, hints, lenses) {
                Some(changed) => changed,
                None => v,
            };
            let hint = "inlayHintProvider"@;
            let lens = "codeLensProvider"@;
            let before = v.get2("result"@, "capabilities"@)->0;
            let after = out.get2("result"@, "capabilities"@)->0;
            &&& after.get(hint) is Some == (hints || before.get(hint) is Some)
            &&& after.get(lens) is Some == (lenses || before.get(lens) is Some)
        }),
{
    reveal_strlit("inlayHintProvider");
    reveal_strlit("codeLensProvider");
    assert("inlayHintProvider"@.len() == 17);
    assert("codeLensProvider"@.len() == 16);
}

/// A notification of the editor, which has no identifier, always goes on to the server.
pub proof fn law_notifications_pass(v: JsonView, cfg: Config)
    requires
        v.get("id"@) is None,
    ensures
        client_route(v, cfg) == ClientRoute::Forward,
{
}

/// The answer to a request of the proxy's own is recognized by its identifier.
pub proof fn law_own_answers_are_recognized(n: u64, result: JsonView)
    ensures
        answers_own(response_message(JsonView::Str(own_identifier(n)), result)),
        answered(response_message(JsonView::Str(own_identifier(n)), result)) == Ok::<
            JsonView,
            ErrorView,
        >(result),
{
    reveal_strlit("jsonrpc");
    reveal_strlit("id");
    reveal_strlit("result");
    reveal_strlit("method");
    reveal_strlit("error");
    assert("jsonrpc"@.len() == 7);
    assert("id"@.len() == 2);
    assert("result"@.len() == 6 && "result"@[0] == 'r');
    assert("method"@.len() == 6 && "method"@[0] == 'm');
    assert("error"@.len() == 5);
    assert(ID_PREFIX@ =~= own_identifier(n).take(ID_PREFIX@.len() as int));
}

/// Two numbers that differ give identifiers that differ.
pub proof fn law_identifiers_differ(m: u64, n: u64)
    requires
        m != n,
    ensures
        own_identifier(m) != own_identifier(n),
{
    lemma_decimal_injective(m as nat, n as nat);
    if own_identifier(m) == own_identifier(n) {
        let k = ID_PREFIX@.len() as int;
        assert(own_identifier(m).skip(k) =~= decimal_of(m as nat));
        assert(own_identifier(n).skip(k) =~= decimal_of(n as nat));
    }
}

/// An answer that nobody waits for is dropped, and one that somebody waits for is handed over
/// once.
pub proof fn law_settled_once<W>(
    v: JsonView,
    before: Map<Seq<char>, W>,
    middle: Map<Seq<char>, W>,
    after: Map<Seq<char>, W>,
    first: Option<(W, Result<Json, ResponseError>)>,
    second: Option<(W, Result<Json, ResponseError>)>,
)
    requires
        answers_own(v),
        settles(v, before, middle, first),
        settles(v, middle, after, second),
    ensures
        second is None,
        after == middle,
{
    assert(after =~= middle);
}

/// Of some items the texts are picked, all of them and in order.
pub proof fn law_texts_are_picked(items: Seq<JsonView>)
    ensures
        texts_in(items) == items.filter(|i: JsonView| i is Str).map_values(|i: JsonView| i->Str_0),
    decreases items.len(),
{
    reveal(Seq::filter);
    let picked = items.filter(|i: JsonView| i is Str);
    if items.len() > 0 {
        law_texts_are_picked(items.drop_last());
        let front = items.drop_last().filter(|i: JsonView| i is Str);
        if items.last() is Str {
            assert(picked =~= front.push(items.last()));
        } else {
            assert(picked =~= front);
        }
    }
    assert(texts_in(items) =~= picked.map_values(|i: JsonView| i->Str_0));
}

/// A request of a feature that is on is taken from the editor, with its identifier and parameters.
pub proof fn law_requests_of_a_feature_that_is_on_are_taken(
    v: JsonView,
    cfg: Config,
    id: JsonView,
    params: JsonView,
    method: Seq<char>,
)
    requires
        v.get("id"@) == Some(id),
        v.get("method"@) == Some(JsonView::Str(method)),
        v.get("params"@) == Some(params),
    ensures
        method == "textDocument/inlayHint"@ && cfg.inlay_hints ==> client_route(v, cfg)
            == ClientRoute::Inlay(id, params),
        method == "textDocument/codeLens"@ && cfg.code_lens ==> client_route(v, cfg)
            == ClientRoute::Lens(id, params),
        method == "textDocument/semanticTokens/full"@ && cfg.semantic_tokens ==> client_route(v, cfg)
            == ClientRoute::Tokens(id, params),
        method != "textDocument/inlayHint"@ && method != "textDocument/codeLens"@ && method
            != "textDocument/semanticTokens/full"@ && method != "textDocument/hover"@
            ==> client_route(v, cfg) == ClientRoute::Forward,
{
    reveal_strlit("textDocument/inlayHint");
    reveal_strlit("textDocument/codeLens");
    reveal_strlit("textDocument/semanticTokens/full");
    reveal_strlit("textDocument/hover");
    assert("textDocument/inlayHint"@.len() == 22);
    assert("textDocument/codeLens"@.len() == 21);
    assert("textDocument/semanticTokens/full"@.len() == 32);
    assert("textDocument/hover"@.len() == 18);
}

/// A hover with a whole position is taken from the editor while the feature is on, and one without
/// goes on.
pub proof fn law_hovers_are_taken(
    v: JsonView,
    cfg: Config,
    id: JsonView,
    uri: Seq<char>,
    line: u64,
    character: u64,
)
    requires
        v.get("id"@) == Some(id),
        v.get("method"@) == Some(JsonView::Str("textDocument/hover"@)),
    ensures
        cfg.hover && v.get3("params"@, "textDocument"@, "uri"@) == Some(JsonView::Str(uri))
            && v.get3("params"@, "position"@, "line"@) == Some(JsonView::Int(line as int))
            && v.get3("params"@, "position"@, "character"@) == Some(
            JsonView::Int(character as int),
        ) ==> client_route(v, cfg) == ClientRoute::Hover(id, uri, line, character),
        v.get3("params"@, "textDocument"@, "uri"@) is None || v.get3(
            "params"@,
            "position"@,
            "line"@,
        ) is None || v.get3("params"@, "position"@, "character"@) is None ==> client_route(v, cfg)
            == ClientRoute::Forward,
{
    reveal_strlit("textDocument/inlayHint");
    reveal_strlit("textDocument/codeLens");
    reveal_strlit("textDocument/semanticTokens/full");
    reveal_strlit("textDocument/hover");
    assert("textDocument/inlayHint"@.len() == 22);
    assert("textDocument/codeLens"@.len() == 21);
    assert("textDocument/semanticTokens/full"@.len() == 32);
    assert("textDocument/hover"@.len() == 18);
}

/// A message answers one of the proxy's own requests exactly if its identifier is a text that
/// starts with the proxy's mark and it has no method; and such an answer goes to the one who waits.
pub proof fn law_own_answers_are_kept_back(v: JsonView, id: Seq<char>, cfg: Config)
    requires
        v.get("id"@) == Some(JsonView::Str(id)),
    ensures
        answers_own(v) <==> (v.get("method"@) is None && id.len() >= 7 && id.take(7)
            == "leanto:"@),
        answers_own(v) ==> client_route(v, cfg) == ClientRoute::Settle,
{
    reveal_strlit("leanto:");
    assert(ID_PREFIX@ == "leanto:"@);
    if id.len() >= 7 {
        assert(id.take(7) =~= id.subrange(0, 7));
    }
}

/// An answer with an error says its code and its message, and one without its result.
pub proof fn law_answers_are_read(v: JsonView, e: JsonView, code: i64, message: Seq<char>)
    ensures
        v.get("error"@) == Some(e) && e.get("code"@) == Some(JsonView::Int(code as int)) && e.get(
            "message"@,
        ) == Some(JsonView::Str(message)) ==> answered(v) == Err::<JsonView, ErrorView>(
            ErrorView { code, message },
        ),
        v.get("error"@) == Some(e) && e.get("code"@) is None && e.get("message"@) is None
            ==> answered(v) == Err::<JsonView, ErrorView>(
            ErrorView { code: -1i64, message: ""@ },
        ),
        v.get("error"@) is None && v.get("result"@) == Some(e) ==> answered(v) == Ok::<
            JsonView,
            ErrorView,
        >(e),
        v.get("error"@) is None && v.get("result"@) is None ==> answered(v) == Ok::<
            JsonView,
            ErrorView,
        >(JsonView::Null),
{
}

/// Requests, notifications and answers say what they are made of.
pub proof fn law_messages_are_spelled_out(
    id: Seq<char>,
    method: Seq<char>,
    params: JsonView,
    key: JsonView,
)
    ensures
        ({
            let m = request_message(id, method, params);
            &&& m.get("jsonrpc"@) == Some(JsonView::Str("2.0"@))
            &&& m.get("id"@) == Some(JsonView::Str(id))
            &&& m.get("method"@) == Some(JsonView::Str(method))
            &&& m.get("params"@) == Some(params)
        }),
        ({
            let m = notification_message(method, params);
            &&& m.get("jsonrpc"@) == Some(JsonView::Str("2.0"@))
            &&& m.get("id"@) is None
            &&& m.get("method"@) == Some(JsonView::Str(method))
            &&& m.get("params"@) == Some(params)
        }),
        ({
            let m = response_message(key, params);
            &&& m.get("jsonrpc"@) == Some(JsonView::Str("2.0"@))
            &&& m.get("id"@) == Some(key)
            &&& m.get("result"@) == Some(params)
            &&& m.get("method"@) is None
            &&& m.get("error"@) is None
        }),
{
    reveal_strlit("jsonrpc");
    reveal_strlit("id");
    reveal_strlit("method");
    reveal_strlit("params");
    reveal_strlit("result");
    reveal_strlit("error");
    assert("jsonrpc"@.len() == 7 && "id"@.len() == 2 && "error"@.len() == 5);
    assert("method"@.len() == 6 && "method"@[0] == 'm');
    assert("params"@.len() == 6 && "params"@[0] == 'p');
    assert("result"@.len() == 6 && "result"@[0] == 'r');
}

/// The identifier of a request is the proxy's mark and a number.
pub proof fn law_identifiers_are_marked(n: u64)
    ensures
        own_identifier(n) == "leanto:"@ + decimal_of(n as nat),
        n < u64::MAX ==> following(n) == n + 1,
{
}

/// The handshake sets the features by its options, and no other message does.
pub proof fn law_the_handshake_sets_the_features(config: Config, v: JsonView, opts: JsonView)
    ensures
        v.get("method"@) == Some(JsonView::Str("initialize"@)) && v.get2(
            "params"@,
            "initializationOptions"@,
        ) == Some(opts) ==> config_after(config, v) == config_of(opts),
        v.get("method"@) != Some(JsonView::Str("initialize"@)) ==> config_after(config, v) == config,
        v.get2("params"@, "initializationOptions"@) is None ==> config_after(config, v) == config,
{
}

/// What is known follows the documents: opening and changing set the version, closing forgets
/// goals, progress and version but not the reports; everyone is told of opening and closing.
pub proof fn law_what_is_known_follows_the_documents(
    state: StateView,
    v: JsonView,
    uri: Seq<char>,
    version: i64,
)
    requires
        v.get3("params"@, "textDocument"@, "uri"@) == Some(JsonView::Str(uri)),
    ensures
        ({
            let method = v.get("method"@);
            let given = v.get3("params"@, "textDocument"@, "version"@) == Some(
                JsonView::Int(version as int),
            );
            let after = state_passing(state, v);
            &&& method == Some(JsonView::Str("textDocument/didOpen"@)) ==> {
                &&& given ==> after == (StateView {
                    versions: state.versions.insert(uri, version),
                    ..state
                })
                &&& events_passing(v) == seq![EventView::DidOpen(uri)]
            }
            &&& method == Some(JsonView::Str("textDocument/didChange"@)) ==> {
                &&& given ==> after == (StateView {
                    versions: state.versions.insert(uri, version),
                    ..state
                })
                &&& events_passing(v) == Seq::<EventView>::empty()
            }
            &&& method == Some(JsonView::Str("textDocument/didClose"@)) ==> {
                &&& after == (StateView {
                    goals: state.goals.remove(uri),
                    progress: state.progress.remove(uri),
                    versions: state.versions.remove(uri),
                    ..state
                })
                &&& events_passing(v) == seq![EventView::DidClose(uri)]
            }
        }),
{
    reveal_strlit("textDocument/didOpen");
    reveal_strlit("textDocument/didChange");
    reveal_strlit("textDocument/didClose");
    assert("textDocument/didOpen"@.len() == 20);
    assert("textDocument/didChange"@.len() == 22);
    assert("textDocument/didClose"@.len() == 21);
    assert(events_passing(v) =~= if v.get("method"@) == Some(
        JsonView::Str("textDocument/didOpen"@),
    ) {
        seq![EventView::DidOpen(uri)]
    } else if v.get("method"@) == Some(JsonView::Str("textDocument/didClose"@)) {
        seq![EventView::DidClose(uri)]
    } else {
        Seq::empty()
    });
}

/// A report of the server on its progress, and one on a document, replace the last one of their
/// kind for the document that they name, and everyone is told.
pub proof fn law_reports_are_taken_note_of(
    state: StateView,
    v: JsonView,
    params: JsonView,
    uri: Seq<char>,
    items: Seq<JsonView>,
)
    requires
        v.get("id"@) is None,
        v.get("params"@) == Some(params),
    ensures
        v.get("method"@) == Some(JsonView::Str("$/lean/fileProgress"@)) && params.get2(
            "textDocument"@,
            "uri"@,
        ) == Some(JsonView::Str(uri)) ==> {
            &&& state_after_server(state, Some(v)).progress == state.progress.insert(uri, params)
            &&& state_after_server(state, Some(v)).diagnostics == state.diagnostics
            &&& events_of_server(v) == seq![EventView::ProgressChanged(uri)]
        },
        v.get("method"@) == Some(JsonView::Str("textDocument/publishDiagnostics"@)) && params.get(
            "uri"@,
        ) == Some(JsonView::Str(uri)) && params.get("diagnostics"@) == Some(JsonView::Array(items))
            ==> {
            &&& state_after_server(state, Some(v)).diagnostics == state.diagnostics.insert(
                uri,
                items,
            )
            &&& state_after_server(state, Some(v)).progress == state.progress
            &&& events_of_server(v) == seq![EventView::DiagnosticsChanged(uri)]
        },
        state_after_server(state, Some(v)).versions == state.versions,
        state_after_server(state, Some(v)).config == state.config,
        state_after_server(state, Some(v)).goals == state.goals,
{
    reveal_strlit("$/lean/fileProgress");
    reveal_strlit("textDocument/publishDiagnostics");
    assert("$/lean/fileProgress"@.len() == 19);
    assert("textDocument/publishDiagnostics"@.len() == 31);
    if v.get("method"@) == Some(JsonView::Str("$/lean/fileProgress"@)) && params.get2(
        "textDocument"@,
        "uri"@,
    ) == Some(JsonView::Str(uri)) {
        assert(v.get3("params"@, "textDocument"@, "uri"@) == Some(JsonView::Str(uri)));
        assert(events_of_server(v) =~= seq![EventView::ProgressChanged(uri)]);
    }
    if v.get("method"@) == Some(JsonView::Str("textDocument/publishDiagnostics"@)) && params.get(
        "uri"@,
    ) == Some(JsonView::Str(uri)) && params.get("diagnostics"@) == Some(JsonView::Array(items)) {
        assert(events_of_server(v) =~= seq![EventView::DiagnosticsChanged(uri)]);
    }
}

/// The legend of the server's answer to the handshake is taken over: the texts in its two lists.
pub proof fn law_the_legend_is_taken_over(
    state: StateView,
    v: JsonView,
    legend: JsonView,
    types: Seq<JsonView>,
    modifiers: Seq<JsonView>,
)
    requires
        !answers_own(v),
        v.get2("result"@, "capabilities"@) is Some,
        v.get2("result"@, "capabilities"@)->0 is Object,
        v.get3("result"@, "capabilities"@, "semanticTokensProvider"@) is Some,
        v.get3("result"@, "capabilities"@, "semanticTokensProvider"@)->0.get("legend"@) == Some(
            legend,
        ),
        legend.get("tokenTypes"@) == Some(JsonView::Array(types)),
        legend.get("tokenModifiers"@) == Some(JsonView::Array(modifiers)),
    ensures
        state_after_server(state, Some(v)).token_types == types.filter(
            |i: JsonView| i is Str,
        ).map_values(|i: JsonView| i->Str_0),
        state_after_server(state, Some(v)).token_modifiers == modifiers.filter(
            |i: JsonView| i is Str,
        ).map_values(|i: JsonView| i->Str_0),
{
    law_texts_are_picked(types);
    law_texts_are_picked(modifiers);
}

/// What is announced for the proxy's features is that they are there, and that a lens needs no
/// second request.
pub proof fn law_what_is_announced(v: JsonView, hints: bool, lenses: bool)
    requires
        initialize_response(v),
    ensures
        ({
            let caps = v.get2("result"@, "capabilities"@)->0;
            let out = injected(v, hints, lenses);
            &&& hints && caps.get("inlayHintProvider"@) is None ==> out is Some && out->0.get3(
                "result"@,
                "capabilities"@,
                "inlayHintProvider"@,
            ) == Some(JsonView::Bool(true))
            &&& lenses && caps.get("codeLensProvider"@) is None ==> out is Some && out->0.get3(
                "result"@,
                "capabilities"@,
                "codeLensProvider"@,
            ) == Some(JsonView::Object(map!["resolveProvider"@ => JsonView::Bool(false)]))
            &&& (!hints || caps.get("inlayHintProvider"@) is Some) && (!lenses || caps.get(
                "codeLensProvider"@,
            ) is Some) ==> out is None
        }),
{
    reveal_strlit("inlayHintProvider");
    reveal_strlit("codeLensProvider");
    assert("inlayHintProvider"@.len() == 17);
    assert("codeLensProvider"@.len() == 16);
}

/// A message that is passed on to the editor is the one that came, unless capabilities are added to
/// the answer to the handshake; what is no message is passed on too.
pub proof fn law_messages_pass_as_they_came(cfg: Config, v: JsonView, frame: Seq<u8>)
    ensures
        v.get2("result"@, "capabilities"@) is None ==> frame_to_editor(cfg, Some(v), frame) == frame,
        frame_to_editor(cfg, None, frame) == frame,
        injected(v, cfg.inlay_hints, cfg.code_lens) is Some ==> frame_to_editor(
            cfg,
            Some(v),
            frame,
        ) == frame_of(printed(injected(v, cfg.inlay_hints, cfg.code_lens)->0)),
{
}

/// A request without parameters is answered as one whose parameters are null.
pub proof fn law_missing_parameters_are_null(v: JsonView, cfg: Config, id: JsonView)
    requires
        v.get("id"@) == Some(id),
        v.get("params"@) is None,
    ensures
        v.get("method"@) == Some(JsonView::Str("textDocument/inlayHint"@)) && cfg.inlay_hints
            ==> client_route(v, cfg) == ClientRoute::Inlay(id, JsonView::Null),
        v.get("method"@) == Some(JsonView::Str("textDocument/codeLens"@)) && cfg.code_lens
            ==> client_route(v, cfg) == ClientRoute::Lens(id, JsonView::Null),
        v.get("method"@) == Some(JsonView::Str("textDocument/semanticTokens/full"@))
            && cfg.semantic_tokens ==> client_route(v, cfg) == ClientRoute::Tokens(
            id,
            JsonView::Null,
        ),
{
    lemma_request_names();
}

proof fn lemma_request_names()
    ensures
        "textDocument/inlayHint"@.len() == 22,
        "textDocument/codeLens"@.len() == 21,
        "textDocument/semanticTokens/full"@.len() == 32,
        "textDocument/hover"@.len() == 18,
{
    reveal_strlit("textDocument/inlayHint");
    reveal_strlit("textDocument/codeLens");
    reveal_strlit("textDocument/semanticTokens/full");
    reveal_strlit("textDocument/hover");
}

/// What is done with a message of the editor: a request of a feature that is on is taken with its
/// identifier and what it asks for, and nobody who waits is touched by it.
pub proof fn law_requests_are_taken_as_they_are<W>(
    action: ClientAction<W>,
    state: StateView,
    v: JsonView,
    frame: Seq<u8>,
    before: Map<Seq<char>, W>,
    after: Map<Seq<char>, W>,
    id: JsonView,
    params: JsonView,
    method: Seq<char>,
)
    requires
        client_acts(action, state, Some(v), frame, before, after),
        v.get("id"@) == Some(id),
        v.get("params"@) == Some(params),
        v.get("method"@) == Some(JsonView::Str(method)),
    ensures
        after == before,
        method == "textDocument/inlayHint"@ && state.config.inlay_hints ==> match action {
            ClientAction::Inlay(r) => r.id@ == id && r.params@ == params,
            _ => false,
        },
        method == "textDocument/codeLens"@ && state.config.code_lens ==> match action {
            ClientAction::Lens(r) => r.id@ == id && r.params@ == params,
            _ => false,
        },
        method == "textDocument/semanticTokens/full"@ && state.config.semantic_tokens
            ==> match action {
            ClientAction::Tokens(r) => r.id@ == id && r.params@ == params,
            _ => false,
        },
        method == "textDocument/hover"@ && state.config.hover ==> match action {
            ClientAction::Hover(r) => r.id@ == id && params.get2("textDocument"@, "uri"@) == Some(
                JsonView::Str(r.uri@),
            ) && params.get2("position"@, "line"@) == Some(JsonView::Int(r.line as int))
                && params.get2("position"@, "character"@) == Some(
                JsonView::Int(r.character as int),
            ),
            ClientAction::Forward(_) => true,
            _ => false,
        },
{
    lemma_request_names();
    reveal_strlit("initialize");
    assert("initialize"@.len() == 10);
}

/// A message that is passed on keeps its frame, gives away the cursor if it holds it, and tells
/// whether the handshake is done; what is no message is passed on without any of it.
pub proof fn law_what_is_passed_on<W>(
    p: Passed,
    state: StateView,
    msg: Option<JsonView>,
    frame: Seq<u8>,
    before: Map<Seq<char>, W>,
    after: Map<Seq<char>, W>,
)
    requires
        client_acts(ClientAction::Forward(p), state, msg, frame, before, after),
    ensures
        p.frame@ == frame,
        after == before,
        msg is None ==> p.cursor is None && !p.initialized && p.events@.len() == 0,
        msg matches Some(v) ==> p.initialized == (v.get("method"@) == Some(
            JsonView::Str("initialized"@),
        )),
        msg matches Some(v) ==> cursor_view(p.cursor) == cursor_in(v),
        msg matches Some(v) ==> events_view(p.events@) == events_passing(v),
{
}

/// What is no message, and what answers nobody and asks for no feature, is passed on.
pub proof fn law_other_messages_are_passed_on<W>(
    action: ClientAction<W>,
    state: StateView,
    msg: Option<JsonView>,
    frame: Seq<u8>,
    before: Map<Seq<char>, W>,
    after: Map<Seq<char>, W>,
)
    requires
        client_acts(action, state, msg, frame, before, after),
        match msg {
            None => true,
            Some(v) => v.get("id"@) is None,
        },
    ensures
        action is Forward,
{
}

/// An answer to one of the proxy's own requests goes to the one who waits under its identifier, who
/// then waits no more, and all others wait on.
pub proof fn law_answers_reach_the_one_who_waits<W>(
    v: JsonView,
    id: Seq<char>,
    before: Map<Seq<char>, W>,
    after: Map<Seq<char>, W>,
    r: Option<(W, Result<Json, ResponseError>)>,
    other: Seq<char>,
)
    requires
        v.get("id"@) == Some(JsonView::Str(id)),
        settles(v, before, after, r),
        other != id,
    ensures
        !after.contains_key(id),
        after.contains_key(other) == before.contains_key(other),
        before.contains_key(other) ==> after[other] == before[other],
        !before.contains_key(id) ==> r is None,
        before.contains_key(id) ==> match r {
            Some((w, result)) => w == before[id] && result_view(result) == answered(v),
            None => false,
        },
{
}

/// A message that answers the proxy goes to the one who waits, whether the editor or the server
/// sent it, and it changes nothing of what is known.
pub proof fn law_own_answers_go_no_further<W>(
    from_editor: ClientAction<W>,
    from_server: ServerAction<W>,
    state: StateView,
    texts: Texts,
    v: JsonView,
    frame: Seq<u8>,
    before: Map<Seq<char>, W>,
    after: Map<Seq<char>, W>,
    after_other: Map<Seq<char>, W>,
    rest: Seq<char>,
)
    requires
        v.get("id"@) == Some(JsonView::Str("leanto:"@ + rest)),
        v.get("method"@) is None,
        client_acts(from_editor, state, Some(v), frame, before, after),
        server_acts(from_server, state.config, Some(v), frame, before, after_other),
    ensures
        match from_editor {
            ClientAction::Settle(r) => settles(v, before, after, r),
            _ => false,
        },
        match from_server {
            ServerAction::Settle(r) => settles(v, before, after_other, r),
            _ => false,
        },
        state_after_client(state, Some(v)) == state,
        state_after_server(state, Some(v)) == state,
        texts_after_client(state, texts, Some(v)) == texts,
{
    let id = "leanto:"@ + rest;
    reveal_strlit("leanto:");
    law_own_answers_are_kept_back(v, id, config_after(state.config, v));
    assert(id.take(7) =~= "leanto:"@);
}

/// Every other message of the server goes on to the editor, with the events that it causes, and
/// nobody who waits is touched by it.
pub proof fn law_other_messages_reach_the_editor<W>(
    action: ServerAction<W>,
    cfg: Config,
    msg: Option<JsonView>,
    frame: Seq<u8>,
    before: Map<Seq<char>, W>,
    after: Map<Seq<char>, W>,
)
    requires
        server_acts(action, cfg, msg, frame, before, after),
        match msg {
            None => true,
            Some(v) => v.get("method"@) is Some || !(v.get("id"@) matches Some(JsonView::Str(_))),
        },
    ensures
        after == before,
        match action {
            ServerAction::Forward(out, events) => {
                &&& out@ == frame_to_editor(cfg, msg, frame)
                &&& msg is None ==> events@.len() == 0
                &&& msg matches Some(v) ==> events_view(events@) == events_of_server(v)
            },
            _ => false,
        },
{
    if let ServerAction::Forward(_, events) = action {
        assert(events_view(events@).len() == events@.len());
    }
}

/// What is known follows a message of the editor only if it is passed on; the handshake's options
/// are taken over in any case.
pub proof fn law_only_what_is_passed_on_changes_the_texts(
    state: StateView,
    texts: Texts,
    v: JsonView,
)
    requires
        !answers_own(v),
    ensures
        ({
            let cfg = config_after(state.config, v);
            let passing = client_route(v, cfg) is Forward;
            &&& passing ==> texts_after_client(state, texts, Some(v)) == texts_after(texts, v)
            &&& !passing ==> texts_after_client(state, texts, Some(v)) == texts
            &&& passing ==> state_after_client(state, Some(v)) == state_passing(
                StateView { config: cfg, ..state },
                v,
            )
            &&& !passing ==> state_after_client(state, Some(v)) == (StateView {
                config: cfg,
                ..state
            })
        }),
        texts_after_client(state, texts, None) == texts,
        state_after_client(state, None) == state,
        state_after_server(state, None) == state,
{
}

/// A message with another method changes no report and causes no event; a report on a document
/// without a list of reports says that there are none.
pub proof fn law_other_messages_report_nothing(state: StateView, v: JsonView, uri: Seq<char>)
    ensures
        v.get("method"@) != Some(JsonView::Str("$/lean/fileProgress"@)) && v.get("method"@) != Some(
            JsonView::Str("textDocument/publishDiagnostics"@),
        ) ==> {
            &&& events_of_server(v) == Seq::<EventView>::empty()
            &&& state_after_server(state, Some(v)).progress == state.progress
            &&& state_after_server(state, Some(v)).diagnostics == state.diagnostics
        },
        v.get("method"@) == Some(JsonView::Str("textDocument/publishDiagnostics"@)) && v.get2(
            "params"@,
            "uri"@,
        ) == Some(JsonView::Str(uri)) && v.get2("params"@, "diagnostics"@) is None
            ==> state_after_server(state, Some(v)).diagnostics == state.diagnostics.insert(
            uri,
            Seq::empty(),
        ),
        v.get2("result"@, "capabilities"@) is None ==> {
            &&& state_after_server(state, Some(v)).token_types == state.token_types
            &&& state_after_server(state, Some(v)).token_modifiers == state.token_modifiers
        },
{
}

} // verus!
