//! Follows the cursor: asks for the goals at its position when it has settled, and asks again when
//! the server has come further.
use crate::json::text_view;
use crate::lsp::{following, own_identifier, LspHandle, ResponseError, ERROR_CANCELLED};
use crate::snoop::{cursor_view, CursorPos, CursorView};
use crate::state::{line_in_work, EventView, StateEvent, StateHandle, StateView};
use crate::text::same_text;
use vstd::prelude::*;

verus! {

/// How long the cursor has to rest, in milliseconds.
pub const DEBOUNCE_MILLIS: u64 = 120;

/// What sets the watch off.
#[derive(Debug)]
pub enum Signal {
    /// The cursor has settled.
    Cursor,
    /// The server has come further with a document.
    Progress(String),
    DidClose(String),
}

/// What sets the watch off.
pub enum SignalView {
    Cursor,
    Progress(Seq<char>),
    DidClose(Seq<char>),
}

impl Signal {
    pub open spec fn view(&self) -> SignalView {
        match self {
            Signal::Cursor => SignalView::Cursor,
            Signal::Progress(uri) => SignalView::Progress(uri@),
            Signal::DidClose(uri) => SignalView::DidClose(uri@),
        }
    }
}

/// The signal that an event is, if it is one.
pub fn signal_of(event: &StateEvent) -> (r: Option<Signal>)
    ensures
        match event@ {
            EventView::ProgressChanged(uri) => r matches Some(s) && s@ == SignalView::Progress(uri),
            EventView::DidClose(uri) => r matches Some(s) && s@ == SignalView::DidClose(uri),
            _ => r is None,
        },
{
    match event {
        StateEvent::ProgressChanged { uri } => Some(Signal::Progress(uri.clone())),
        StateEvent::DidClose { uri } => Some(Signal::DidClose(uri.clone())),
        _ => None,
    }
}

/// What the watch does next.
#[derive(Debug)]
pub enum GoalAction {
    Nothing,
    /// Cancel the request under way, if there is one.
    Cancel(Option<String>),
    /// Cancel the request under way, if there is one, and ask for the goals at a position.
    Ask { cancel: Option<String>, id: String, pos: CursorPos },
}

/// What the watch does next.
pub enum Choice {
    Nothing,
    Cancel,
    Ask,
}

/// What the watch remembers.
pub struct WatchView {
    /// The identifier of the request under way.
    pub asked: Option<Seq<char>>,
    /// The position that was asked for last.
    pub last: Option<CursorView>,
}

/// What the watch does on a signal, with the cursor at a position: it drops its request when the
/// document is closed, and asks unless the signal is about another document, or the server is
/// still at the line, or nothing has changed since it asked last.
pub open spec fn choice(
    watch: WatchView,
    signal: SignalView,
    pos: Option<CursorView>,
    state: StateView,
) -> Choice {
    match pos {
        Some(pos) => if signal == SignalView::DidClose(pos.uri) {
            Choice::Cancel
        } else if signal is Progress && signal != SignalView::Progress(pos.uri) {
            Choice::Nothing
        } else if line_in_work(state.progress_of(pos.uri), pos.line) {
            Choice::Nothing
        } else if signal != SignalView::Cursor && watch.last == Some(pos) {
            Choice::Nothing
        } else {
            Choice::Ask
        },
        None => Choice::Nothing,
    }
}

/// The watch over the cursor.
pub struct GoalWatch {
    prev_id: Option<String>,
    last_fired: Option<CursorPos>,
}

impl GoalWatch {
    pub closed spec fn view(&self) -> WatchView {
        WatchView {
            asked: text_view(self.prev_id),
            last: cursor_view(self.last_fired),
        }
    }

    /// A watch that has not asked yet.
    pub fn new() -> (r: GoalWatch)
        ensures
            r.view() == (WatchView { asked: None, last: None }),
    {
        GoalWatch { prev_id: None, last_fired: None }
    }

    fn take_id(&mut self) -> (r: Option<String>)
        ensures
            text_view(r) == old(self).view().asked,
            final(self).view() == (WatchView { asked: None, ..old(self).view() }),
    {
        self.prev_id.take()
    }

    /// Decides what to do on a signal.
    pub fn step<W>(
        &mut self,
        signal: &Signal,
        pos: Option<&CursorPos>,
        state: &StateHandle,
        lsp: &mut LspHandle<W>,
    ) -> (r: GoalAction)
        ensures
            ({
                let at = match pos {
                    Some(p) => Some(p@),
                    None => None,
                };
                match choice(old(self).view(), signal@, at, state@) {
                    Choice::Nothing => r is Nothing && final(self).view() == old(self).view()
                        && *final(lsp) == *old(lsp),
                    Choice::Cancel => r matches GoalAction::Cancel(id) && text_view(id)
                        == old(self).view().asked && final(self).view() == (WatchView {
                        asked: None,
                        last: None,
                    }) && *final(lsp) == *old(lsp),
                    Choice::Ask => r matches GoalAction::Ask { cancel, id, pos: p }
                        && text_view(cancel) == old(self).view().asked && p@ == at->0
                        && id@ == own_identifier(old(lsp).next()) && final(self).view() == (
                    WatchView { asked: Some(id@), last: at }) && final(lsp).waiting() == old(
                        lsp,
                    ).waiting() && final(lsp).next() == following(old(lsp).next()),
                }
            }),
    {
        let pos = match pos {
            Some(p) => p,
            None => {
                return GoalAction::Nothing;
            },
        };
        if let Signal::DidClose(uri) = signal {
            if same_text(uri.as_str(), pos.uri.as_str()) {
                let id = self.take_id();
                self.last_fired = None;
                return GoalAction::Cancel(id);
            }
        }
        if let Signal::Progress(uri) = signal {
            if !same_text(uri.as_str(), pos.uri.as_str()) {
                return GoalAction::Nothing;
            }
        }
        if state.is_processing(pos.uri.as_str(), pos.line) {
            return GoalAction::Nothing;
        }
        let by_cursor = match signal {
            Signal::Cursor => true,
            _ => false,
        };
        let unchanged = match &self.last_fired {
            Some(last) => last.same(pos),
            None => false,
        };
        if !by_cursor && unchanged {
            return GoalAction::Nothing;
        }
        let cancel = self.take_id();
        let id = lsp.alloc_id();
        self.prev_id = Some(id.clone());
        self.last_fired = Some(pos.copy());
        GoalAction::Ask { cancel, id, pos: pos.copy() }
    }
}

/// Whether a request that failed is worth a report: one that was cancelled is not.
pub fn worth_reporting(e: &ResponseError) -> (r: bool)
    ensures
        r == (e.code != ERROR_CANCELLED),
{
    e.code != ERROR_CANCELLED
}

/// While the cursor rests where the watch asked last, nothing that comes from the server makes it
/// ask again.
pub proof fn law_asks_once(watch: WatchView, signal: SignalView, pos: CursorView, state: StateView)
    requires
        watch.last == Some(pos),
        !(signal is Cursor),
    ensures
        !(choice(watch, signal, Some(pos), state) is Ask),
{
}

/// The watch never asks for a line that the server is still at.
pub proof fn law_never_asks_too_early(
    watch: WatchView,
    signal: SignalView,
    pos: CursorView,
    state: StateView,
)
    requires
        line_in_work(state.progress_of(pos.uri), pos.line),
    ensures
        !(choice(watch, signal, Some(pos), state) is Ask),
{
}

/// When the watch asks: always when the cursor has settled at a line that the server is done with,
/// and when the server has come further there since it asked last.
pub proof fn law_when_the_watch_asks(
    watch: WatchView,
    signal: SignalView,
    pos: CursorView,
    state: StateView,
)
    requires
        !line_in_work(state.progress_of(pos.uri), pos.line),
    ensures
        choice(watch, SignalView::Cursor, Some(pos), state) is Ask,
        watch.last != Some(pos) ==> choice(
            watch,
            SignalView::Progress(pos.uri),
            Some(pos),
            state,
        ) is Ask,
{
}

/// When the watch does something else: it cancels exactly when the document under the cursor is
/// closed, and it does nothing on the progress of another document or without a cursor.
pub proof fn law_when_the_watch_does_not_ask(
    watch: WatchView,
    signal: SignalView,
    pos: CursorView,
    state: StateView,
    other: Seq<char>,
)
    ensures
        choice(watch, SignalView::DidClose(pos.uri), Some(pos), state) is Cancel,
        choice(watch, signal, Some(pos), state) is Cancel ==> signal == SignalView::DidClose(
            pos.uri,
        ),
        other != pos.uri ==> choice(watch, SignalView::Progress(other), Some(pos), state) is Nothing,
        choice(watch, signal, None, state) is Nothing,
{
}

} // verus!
