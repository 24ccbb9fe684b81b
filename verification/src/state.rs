//! What is known of the open documents: their versions, how far the server has come with them,
//! what it reports of them, and the goals at the cursor. It also holds the feature flags.
use crate::json::{
    array_in, copy_items, items_view, lemma_items_view, option_view, ref_view, u64_in, Json,
    JsonView,
};
use crate::snoop::opt_u64;
use crate::text::{low32, names_view, same_text};
use crate::text_map::TextMap;
use vstd::prelude::*;

verus! {

/// The goals at a position, as the server gave them last.
#[derive(Debug)]
pub struct GoalSnapshot {
    pub uri: String,
    pub line: u64,
    pub character: u64,
    pub goals: Json,
}

/// What a snapshot of goals says.
pub struct GoalView {
    pub uri: Seq<char>,
    pub line: u64,
    pub character: u64,
    pub goals: JsonView,
}

impl GoalSnapshot {
    pub open spec fn view(&self) -> GoalView {
        GoalView {
            uri: self.uri@,
            line: self.line,
            character: self.character,
            goals: self.goals@,
        }
    }

    /// A second copy of the snapshot.
    pub fn copy(&self) -> (r: GoalSnapshot)
        ensures
            r@ == self@,
    {
        GoalSnapshot {
            uri: self.uri.clone(),
            line: self.line,
            character: self.character,
            goals: self.goals.copy(),
        }
    }
}

/// What changed, for those who wait for it.
#[derive(Clone, Debug, PartialEq, Eq)]
pub enum StateEvent {
    ProgressChanged { uri: String },
    DiagnosticsChanged { uri: String },
    DidOpen { uri: String },
    DidClose { uri: String },
}

/// What an event says.
pub enum EventView {
    ProgressChanged(Seq<char>),
    DiagnosticsChanged(Seq<char>),
    DidOpen(Seq<char>),
    DidClose(Seq<char>),
}

impl StateEvent {
    pub open spec fn view(&self) -> EventView {
        match self {
            StateEvent::ProgressChanged { uri } => EventView::ProgressChanged(uri@),
            StateEvent::DiagnosticsChanged { uri } => EventView::DiagnosticsChanged(uri@),
            StateEvent::DidOpen { uri } => EventView::DidOpen(uri@),
            StateEvent::DidClose { uri } => EventView::DidClose(uri@),
        }
    }
}

pub const SEVERITY_ERROR: i64 = 1;

pub const SEVERITY_WARNING: i64 = 2;

pub const SEVERITY_INFO: i64 = 3;

pub const SEVERITY_HINT: i64 = 4;

/// Which features are on.
#[derive(Clone, Copy, Debug, PartialEq, Eq, Structural)]
pub struct Config {
    pub inlay_hints: bool,
    pub code_lens: bool,
    pub semantic_tokens: bool,
    pub hover: bool,
    pub progress: bool,
    pub auto_restart: bool,
}

/// Every feature is on unless it is switched off.
pub open spec fn all_on() -> Config {
    Config {
        inlay_hints: true,
        code_lens: true,
        semantic_tokens: true,
        hover: true,
        progress: true,
        auto_restart: true,
    }
}

impl Default for Config {
    fn default() -> (r: Config)
        ensures
            r == all_on(),
    {
        Config {
            inlay_hints: true,
            code_lens: true,
            semantic_tokens: true,
            hover: true,
            progress: true,
            auto_restart: true,
        }
    }
}

/// The section of the initialization options that holds the flags.
pub open spec fn flags_in(opts: JsonView) -> Option<JsonView> {
    if opts.get("leanTo"@) is Some {
        opts.get("leanTo"@)
    } else {
        opts.get("leanto"@)
    }
}

/// A flag: off if the section says so, and on otherwise.
pub open spec fn flag(flags: Option<JsonView>, name: Seq<char>) -> bool {
    match flags {
        Some(flags) => match flags.get(name) {
            Some(v) => v != JsonView::Bool(false),
            None => true,
        },
        None => true,
    }
}

/// The features that initialization options leave on.
pub open spec fn config_of(opts: JsonView) -> Config {
    let flags = flags_in(opts);
    Config {
        inlay_hints: flag(flags, "inlayHints"@),
        code_lens: flag(flags, "codeLens"@),
        semantic_tokens: flag(flags, "semanticTokens"@),
        hover: flag(flags, "hover"@),
        progress: flag(flags, "progress"@),
        auto_restart: flag(flags, "autoRestart"@),
    }
}

fn read_flag(flags: Option<&Json>, name: &str) -> (r: bool)
    ensures
        r == flag(ref_view(flags), name@),
{
    match flags {
        Some(flags) => match flags.get(name) {
            Some(v) => match v.as_bool() {
                Some(b) => b,
                None => true,
            },
            None => true,
        },
        None => true,
    }
}

impl Config {
    /// The features that initialization options leave on.
    pub fn from_init_options(opts: &Json) -> (r: Config)
        ensures
            r == config_of(opts@),
    {
        let flags = match opts.get("leanTo") {
            Some(flags) => Some(flags),
            None => opts.get("leanto"),
        };
        Config {
            inlay_hints: read_flag(flags, "inlayHints"),
            code_lens: read_flag(flags, "codeLens"),
            semantic_tokens: read_flag(flags, "semanticTokens"),
            hover: read_flag(flags, "hover"),
            progress: read_flag(flags, "progress"),
            auto_restart: read_flag(flags, "autoRestart"),
        }
    }
}

/// The first line of the range that an item of a report has.
pub open spec fn range_start(item: JsonView) -> Option<u64> {
    u64_in(item.get3("range"@, "start"@, "line"@))
}

/// The last line of the range that an item of a report has.
pub open spec fn range_end(item: JsonView) -> Option<u64> {
    u64_in(item.get3("range"@, "end"@, "line"@))
}

/// Whether the range of an item of a report covers a line.
pub open spec fn covers_line(item: JsonView, line: u64) -> bool {
    match (range_start(item), range_end(item)) {
        (Some(s), Some(e)) => s <= line <= e,
        _ => false,
    }
}

/// The items of a report that cover a line, in order.
pub open spec fn at_line(items: Seq<JsonView>, line: u64) -> Seq<JsonView>
    decreases items.len(),
{
    if items.len() == 0 {
        Seq::empty()
    } else {
        let front = at_line(items.drop_last(), line);
        if covers_line(items.last(), line) {
            front.push(items.last())
        } else {
            front
        }
    }
}

/// The smallest first line among the items of a report, or the largest number without one.
pub open spec fn first_start(items: Seq<JsonView>) -> u64
    decreases items.len(),
{
    if items.len() == 0 {
        u64::MAX
    } else {
        let front = first_start(items.drop_last());
        match range_start(items.last()) {
            Some(s) => if s < front {
                s
            } else {
                front
            },
            None => front,
        }
    }
}

/// What the server is still at, by its last report on a document.
pub open spec fn in_work(progress: Option<JsonView>) -> Seq<JsonView> {
    match progress {
        Some(p) => match array_in(p.get("processing"@)) {
            Some(items) => items,
            None => Seq::empty(),
        },
        None => Seq::empty(),
    }
}

/// Whether the server is still at a line.
pub open spec fn line_in_work(progress: Option<JsonView>, line: u64) -> bool {
    exists|i: int|
        0 <= i < in_work(progress).len() && covers_line(#[trigger] in_work(progress)[i], line)
}

/// The line that the server has come to, or the largest number where it has finished.
pub open spec fn frontier(progress: Option<JsonView>) -> u64 {
    first_start(in_work(progress))
}

/// The index of a name in a list.
pub open spec fn index_in(names: Seq<Seq<char>>, name: Seq<char>, k: int) -> Option<int>
    decreases names.len() - k,
{
    if k < 0 || k >= names.len() {
        None
    } else if names[k] == name {
        Some(k)
    } else {
        index_in(names, name, k + 1)
    }
}

/// The index of a name in a list, in 32 bits.
pub open spec fn token_index(names: Seq<Seq<char>>, name: Seq<char>) -> Option<u32> {
    match index_in(names, name, 0) {
        Some(k) => Some(low32(k as nat)),
        None => None,
    }
}

fn diagnostic_covers_line(d: &Json, line: u64) -> (r: bool)
    ensures
        r == covers_line(d@, line),
{
    let s = opt_u64(d.get3("range", "start", "line"));
    let e = opt_u64(d.get3("range", "end", "line"));
    match (s, e) {
        (Some(s), Some(e)) => s <= line && line <= e,
        _ => false,
    }
}

/// What the server is still at, by a report on a document.
fn work_items(progress: &Json) -> (r: Option<&Vec<Json>>)
    ensures
        match r {
            Some(items) => in_work(Some(progress@)) == items_view(items@),
            None => in_work(Some(progress@)) == Seq::<JsonView>::empty(),
        },
{
    match progress.get("processing") {
        Some(v) => v.as_array(),
        None => None,
    }
}

fn line_in_processing(progress: &Json, line: u64) -> (r: bool)
    ensures
        r == line_in_work(Some(progress@), line),
{
    let ghost all = in_work(Some(progress@));
    match work_items(progress) {
        Some(items) => {
            let mut i: usize = 0;
            proof {
                lemma_items_view(items@);
            }
            while i < items.len()
                invariant
                    i <= items.len(),
                    all == in_work(Some(progress@)),
                    all.len() == items.len(),
                    forall|k: int| 0 <= k < items.len() ==> #[trigger] all[k] == items@[k]@,
                    forall|k: int| 0 <= k < i ==> !covers_line(#[trigger] all[k], line),
                decreases items.len() - i,
            {
                if diagnostic_covers_line(&items[i], line) {
                    assert(covers_line(all[i as int], line));
                    return true;
                }
                i += 1;
            }
            false
        },
        None => false,
    }
}

fn find_name(names: &Vec<String>, name: &str) -> (r: Option<u32>)
    ensures
        r == token_index(names_view(names@), name@),
{
    let mut k: usize = 0;
    while k < names.len()
        invariant
            k <= names.len(),
            index_in(names_view(names@), name@, 0) == index_in(names_view(names@), name@, k as int),
        decreases names.len() - k,
    {
        assert(names_view(names@)[k as int] == names@[k as int]@);
        if same_text(names[k].as_str(), name) {
            let wide: u64 = k as u64;
            assert(wide as u32 == wide % 0x1_0000_0000) by (bit_vector);
            return Some(wide as u32);
        }
        k += 1;
    }
    None
}

/// All that is known, with the texts and documents as they are understood.
pub struct StateView {
    pub goals: Map<Seq<char>, GoalView>,
    pub progress: Map<Seq<char>, JsonView>,
    pub versions: Map<Seq<char>, i64>,
    pub diagnostics: Map<Seq<char>, Seq<JsonView>>,
    pub token_types: Seq<Seq<char>>,
    pub token_modifiers: Seq<Seq<char>>,
    pub config: Config,
}

impl StateView {
    /// The last report on a document's progress.
    pub open spec fn progress_of(self, uri: Seq<char>) -> Option<JsonView> {
        if self.progress.contains_key(uri) {
            Some(self.progress[uri])
        } else {
            None
        }
    }

    pub open spec fn version_of(self, uri: Seq<char>) -> Option<i64> {
        if self.versions.contains_key(uri) {
            Some(self.versions[uri])
        } else {
            None
        }
    }

    /// What the server reports of a document.
    pub open spec fn diagnostics_of(self, uri: Seq<char>) -> Seq<JsonView> {
        if self.diagnostics.contains_key(uri) {
            self.diagnostics[uri]
        } else {
            Seq::empty()
        }
    }
}

/// What is known of the open documents.
pub struct StateHandle {
    goals: TextMap<GoalSnapshot>,
    progress: TextMap<Json>,
    versions: TextMap<i64>,
    diagnostics: TextMap<Vec<Json>>,
    semantic_token_types: Vec<String>,
    semantic_token_modifiers: Vec<String>,
    config: Config,
}

impl View for StateHandle {
    type V = StateView;

    closed spec fn view(&self) -> StateView {
        StateView {
            goals: self.goals@.map_values(|g: GoalSnapshot| g@),
            progress: self.progress@.map_values(|p: Json| p@),
            versions: self.versions@,
            diagnostics: self.diagnostics@.map_values(|d: Vec<Json>| items_view(d@)),
            token_types: names_view(self.semantic_token_types@),
            token_modifiers: names_view(self.semantic_token_modifiers@),
            config: self.config,
        }
    }
}

impl StateHandle {
    /// Nothing known, and every feature on.
    pub fn new() -> (r: StateHandle)
        ensures
            r@ == (StateView {
                goals: Map::empty(),
                progress: Map::empty(),
                versions: Map::empty(),
                diagnostics: Map::empty(),
                token_types: Seq::empty(),
                token_modifiers: Seq::empty(),
                config: all_on(),
            }),
    {
        let r = StateHandle {
            goals: TextMap::new(),
            progress: TextMap::new(),
            versions: TextMap::new(),
            diagnostics: TextMap::new(),
            semantic_token_types: Vec::new(),
            semantic_token_modifiers: Vec::new(),
            config: Config::default(),
        };
        assert(r@.goals =~= Map::empty());
        assert(r@.progress =~= Map::empty());
        assert(r@.diagnostics =~= Map::empty());
        assert(r@.token_types =~= Seq::empty());
        assert(r@.token_modifiers =~= Seq::empty());
        r
    }

    pub fn update_goals(&mut self, uri: &str, line: u64, character: u64, goals: Json)
        ensures
            final(self)@ == (StateView {
                goals: old(self)@.goals.insert(
                    uri@,
                    GoalView { uri: uri@, line, character, goals: goals@ },
                ),
                ..old(self)@
            }),
    {
        let snap = GoalSnapshot { uri: uri.to_string(), line, character, goals };
        let _ = self.goals.insert(uri.to_string(), snap);
        assert(self@.goals =~= old(self)@.goals.insert(uri@, snap@));
    }

    pub fn update_progress(&mut self, uri: String, params: Json) -> (event: StateEvent)
        ensures
            final(self)@ == (StateView {
                progress: old(self)@.progress.insert(uri@, params@),
                ..old(self)@
            }),
            event@ == EventView::ProgressChanged(uri@),
    {
        let _ = self.progress.insert(uri.clone(), params);
        assert(self@.progress =~= old(self)@.progress.insert(uri@, params@));
        StateEvent::ProgressChanged { uri }
    }

    pub fn note_did_open(&self, uri: String) -> (event: StateEvent)
        ensures
            event@ == EventView::DidOpen(uri@),
    {
        StateEvent::DidOpen { uri }
    }

    /// Forgets what belonged to a document. What the server reported of it stays until the
    /// server reports anew.
    pub fn note_did_close(&mut self, uri: String) -> (event: StateEvent)
        ensures
            final(self)@ == (StateView {
                goals: old(self)@.goals.remove(uri@),
                progress: old(self)@.progress.remove(uri@),
                versions: old(self)@.versions.remove(uri@),
                ..old(self)@
            }),
            event@ == EventView::DidClose(uri@),
    {
        let _ = self.goals.remove(uri.as_str());
        let _ = self.progress.remove(uri.as_str());
        let _ = self.versions.remove(uri.as_str());
        assert(self@.goals =~= old(self)@.goals.remove(uri@));
        assert(self@.progress =~= old(self)@.progress.remove(uri@));
        StateEvent::DidClose { uri }
    }

    pub fn update_version(&mut self, uri: String, version: i64)
        ensures
            final(self)@ == (StateView {
                versions: old(self)@.versions.insert(uri@, version),
                ..old(self)@
            }),
    {
        let _ = self.versions.insert(uri, version);
    }

    pub fn version_for(&self, uri: &str) -> (r: Option<i64>)
        ensures
            r == self@.version_of(uri@),
    {
        match self.versions.get(uri) {
            Some(v) => Some(*v),
            None => None,
        }
    }

    pub fn goals_for(&self, uri: &str) -> (r: Option<GoalSnapshot>)
        ensures
            match r {
                Some(g) => self@.goals.contains_key(uri@) && self@.goals[uri@] == g@,
                None => !self@.goals.contains_key(uri@),
            },
    {
        match self.goals.get(uri) {
            Some(g) => Some(g.copy()),
            None => None,
        }
    }

    pub fn progress_for(&self, uri: &str) -> (r: Option<Json>)
        ensures
            option_view(r) == self@.progress_of(uri@),
    {
        match self.progress.get(uri) {
            Some(p) => Some(p.copy()),
            None => None,
        }
    }

    pub fn update_diagnostics(&mut self, uri: String, diagnostics: Vec<Json>) -> (event: StateEvent)
        ensures
            final(self)@ == (StateView {
                diagnostics: old(self)@.diagnostics.insert(uri@, items_view(diagnostics@)),
                ..old(self)@
            }),
            event@ == EventView::DiagnosticsChanged(uri@),
    {
        let _ = self.diagnostics.insert(uri.clone(), diagnostics);
        assert(self@.diagnostics =~= old(self)@.diagnostics.insert(
            uri@,
            items_view(diagnostics@),
        ));
        StateEvent::DiagnosticsChanged { uri }
    }

    pub fn diagnostics_for(&self, uri: &str) -> (r: Vec<Json>)
        ensures
            items_view(r@) == self@.diagnostics_of(uri@),
    {
        match self.diagnostics.get(uri) {
            Some(d) => copy_items(d),
            None => Vec::new(),
        }
    }

    /// What the server reports of a line of a document.
    pub fn diagnostics_at_line(&self, uri: &str, line: u64) -> (r: Vec<Json>)
        ensures
            items_view(r@) == at_line(self@.diagnostics_of(uri@), line),
    {
        let mut out: Vec<Json> = Vec::new();
        if let Some(diags) = self.diagnostics.get(uri) {
            let mut i: usize = 0;
            let ghost all = items_view(diags@);
            proof {
                lemma_items_view(diags@);
                assert(all.take(0) =~= Seq::empty());
            }
            while i < diags.len()
                invariant
                    i <= diags.len(),
                    all == items_view(diags@),
                    all.len() == diags.len(),
                    forall|k: int| 0 <= k < diags.len() ==> #[trigger] all[k] == diags@[k]@,
                    items_view(out@) == at_line(all.take(i as int), line),
                decreases diags.len() - i,
            {
                let ghost before = out@;
                assert(all.take(i as int + 1).drop_last() =~= all.take(i as int));
                assert(all.take(i as int + 1).last() == diags@[i as int]@);
                if diagnostic_covers_line(&diags[i], line) {
                    out.push(diags[i].copy());
                    assert(out@.drop_last() =~= before);
                }
                i += 1;
            }
            assert(all.take(i as int) =~= all);
        }
        out
    }

    /// Whether the server is still at a line of a document.
    pub fn is_processing(&self, uri: &str, line: u64) -> (r: bool)
        ensures
            r == line_in_work(self@.progress_of(uri@), line),
    {
        match self.progress.get(uri) {
            Some(progress) => line_in_processing(progress, line),
            None => false,
        }
    }

    pub fn set_semantic_token_types(&mut self, types: Vec<String>)
        ensures
            final(self)@ == (StateView { token_types: names_view(types@), ..old(self)@ }),
    {
        self.semantic_token_types = types;
    }

    pub fn set_semantic_token_modifiers(&mut self, modifiers: Vec<String>)
        ensures
            final(self)@ == (StateView { token_modifiers: names_view(modifiers@), ..old(self)@ }),
    {
        self.semantic_token_modifiers = modifiers;
    }

    pub fn token_modifier_index(&self, name: &str) -> (r: Option<u32>)
        ensures
            r == token_index(self@.token_modifiers, name@),
    {
        find_name(&self.semantic_token_modifiers, name)
    }

    pub fn set_config(&mut self, config: Config)
        ensures
            final(self)@ == (StateView { config, ..old(self)@ }),
    {
        self.config = config;
    }

    pub fn config(&self) -> (r: Config)
        ensures
            r == self@.config,
    {
        self.config
    }

    pub fn token_type_index(&self, name: &str) -> (r: Option<u32>)
        ensures
            r == token_index(self@.token_types, name@),
    {
        find_name(&self.semantic_token_types, name)
    }

    /// The line that the server has come to with a document.
    pub fn elaboration_frontier(&self, uri: &str) -> (r: u64)
        ensures
            r == frontier(self@.progress_of(uri@)),
    {
        let mut first: u64 = u64::MAX;
        if let Some(progress) = self.progress.get(uri) {
            if let Some(items) = work_items(progress) {
                let mut i: usize = 0;
                let ghost all = items_view(items@);
                proof {
                    lemma_items_view(items@);
                    assert(all.take(0) =~= Seq::empty());
                }
                while i < items.len()
                    invariant
                        i <= items.len(),
                        all.len() == items.len(),
                        forall|k: int| 0 <= k < items.len() ==> #[trigger] all[k] == items@[k]@,
                        first == first_start(all.take(i as int)),
                    decreases items.len() - i,
                {
                    assert(all.take(i as int + 1).drop_last() =~= all.take(i as int));
                    assert(all.take(i as int + 1).last() == items@[i as int]@);
                    if let Some(s) = opt_u64(items[i].get3("range", "start", "line")) {
                        if s < first {
                            first = s;
                        }
                    }
                    i += 1;
                }
                assert(all.take(i as int) =~= all);
            }
        }
        first
    }
}

/// The server is never still at a line in front of the one it has come to.
pub proof fn law_work_behind_frontier(progress: Option<JsonView>, line: u64)
    requires
        line_in_work(progress, line),
    ensures
        frontier(progress) <= line,
{
    let items = in_work(progress);
    let i = choose|i: int| 0 <= i < items.len() && covers_line(#[trigger] items[i], line);
    lemma_first_start(items, i);
}

proof fn lemma_first_start(items: Seq<JsonView>, i: int)
    requires
        0 <= i < items.len(),
        range_start(items[i]) is Some,
    ensures
        first_start(items) <= range_start(items[i])->0,
    decreases items.len(),
{
    if i < items.len() - 1 {
        assert(items.drop_last()[i] == items[i]);
        lemma_first_start(items.drop_last(), i);
    }
}

/// Without a section of flags every feature is on.
pub proof fn law_on_by_default(opts: JsonView)
    requires
        flags_in(opts) is None,
    ensures
        config_of(opts) == all_on(),
{
}

/// Initialization options with one flag set in their section.
pub open spec fn with_flag(opts: JsonView, name: Seq<char>, on: bool) -> JsonView {
    match opts.get("leanTo"@) {
        Some(flags) => opts.with("leanTo"@, flags.with(name, JsonView::Bool(on))),
        None => opts,
    }
}

/// Each feature is switched by its own flag, and by no other.
pub proof fn law_flags_are_independent(opts: JsonView, on: bool)
    requires
        opts.get("leanTo"@) matches Some(flags) && flags is Object,
    ensures
        config_of(with_flag(opts, "inlayHints"@, on)) == (Config {
            inlay_hints: on,
            ..config_of(opts)
        }),
        config_of(with_flag(opts, "codeLens"@, on)) == (Config {
            code_lens: on,
            ..config_of(opts)
        }),
        config_of(with_flag(opts, "semanticTokens"@, on)) == (Config {
            semantic_tokens: on,
            ..config_of(opts)
        }),
        config_of(with_flag(opts, "hover"@, on)) == (Config { hover: on, ..config_of(opts) }),
        config_of(with_flag(opts, "progress"@, on)) == (Config { progress: on, ..config_of(opts) }),
        config_of(with_flag(opts, "autoRestart"@, on)) == (Config {
            auto_restart: on,
            ..config_of(opts)
        }),
{
    reveal_strlit("inlayHints");
    reveal_strlit("codeLens");
    reveal_strlit("semanticTokens");
    reveal_strlit("hover");
    reveal_strlit("progress");
    reveal_strlit("autoRestart");
    assert("inlayHints"@.len() == 10);
    assert("codeLens"@.len() == 8 && "codeLens"@[0] == 'c');
    assert("semanticTokens"@.len() == 14);
    assert("hover"@.len() == 5);
    assert("progress"@.len() == 8 && "progress"@[0] == 'p');
    assert("autoRestart"@.len() == 11);
}

proof fn lemma_index_in(names: Seq<Seq<char>>, name: Seq<char>, from: int)
    requires
        0 <= from,
    ensures
        match index_in(names, name, from) {
            Some(k) => {
                &&& from <= k < names.len()
                &&& names[k] == name
                &&& forall|j: int| from <= j < k ==> #[trigger] names[j] != name
            },
            None => forall|j: int| from <= j < names.len() ==> #[trigger] names[j] != name,
        },
    decreases names.len() - from,
{
    if from < names.len() && names[from] != name {
        lemma_index_in(names, name, from + 1);
    }
}

/// The index of a name is its first place in the list.
pub proof fn law_names_have_their_first_index(names: Seq<Seq<char>>, name: Seq<char>, k: int)
    requires
        0 <= k < names.len() <= u32::MAX,
        names[k] == name,
        forall|j: int| 0 <= j < k ==> #[trigger] names[j] != name,
    ensures
        token_index(names, name) == Some(k as u32),
{
    lemma_index_in(names, name, 0);
}

/// A name that is not in a list has no index there.
pub proof fn law_unknown_names_have_no_index(names: Seq<Seq<char>>, name: Seq<char>)
    ensures
        !names.contains(name) ==> token_index(names, name) is None,
{
    lemma_index_in(names, name, 0);
}

/// Whether an item of a report has a range from one line to another, given in numbers that fit.
pub open spec fn has_range(item: JsonView, first: int, last: int) -> bool {
    &&& item.get3("range"@, "start"@, "line"@) == Some(JsonView::Int(first))
    &&& item.get3("range"@, "end"@, "line"@) == Some(JsonView::Int(last))
    &&& 0 <= first <= u64::MAX && 0 <= last <= u64::MAX
}

proof fn lemma_covers_line(item: JsonView, line: u64)
    ensures
        covers_line(item, line) <==> exists|first: int, last: int| #[trigger]
            has_range(item, first, last) && first <= line <= last,
{
    if covers_line(item, line) {
        let first = range_start(item)->0 as int;
        let last = range_end(item)->0 as int;
        assert(has_range(item, first, last));
    }
}

/// The reports at a line are those whose range has it, the first and the last line of the range
/// too, and they come in their order.
pub proof fn law_reports_are_found_by_line(items: Seq<JsonView>, line: u64)
    ensures
        at_line(items, line) == items.filter(
            |d: JsonView|
                exists|first: int, last: int| #[trigger]
                    has_range(d, first, last) && first <= line <= last,
        ),
    decreases items.len(),
{
    reveal(Seq::filter);
    if items.len() > 0 {
        law_reports_are_found_by_line(items.drop_last(), line);
        lemma_covers_line(items.last(), line);
    }
}

/// The server is still at a line exactly if one of the items under `processing` in its last report
/// has a range with the line.
pub proof fn law_work_is_found_by_line(report: JsonView, items: Seq<JsonView>, line: u64)
    requires
        report.get("processing"@) == Some(JsonView::Array(items)),
    ensures
        line_in_work(Some(report), line) <==> exists|i: int, first: int, last: int|
            0 <= i < items.len() && #[trigger] has_range(items[i], first, last) && first <= line
                <= last,
        !line_in_work(None, line),
{
    assert(in_work(Some(report)) == items);
    if line_in_work(Some(report), line) {
        let i = choose|i: int| 0 <= i < items.len() && covers_line(#[trigger] items[i], line);
        lemma_covers_line(items[i], line);
        let (first, last) = choose|first: int, last: int| #[trigger]
            has_range(items[i], first, last) && first <= line <= last;
        assert(has_range(items[i], first, last));
    }
    if exists|i: int, first: int, last: int|
        0 <= i < items.len() && #[trigger] has_range(items[i], first, last) && first <= line
            <= last {
        let (i, first, last) = choose|i: int, first: int, last: int|
            0 <= i < items.len() && #[trigger] has_range(items[i], first, last) && first <= line
                <= last;
        lemma_covers_line(items[i], line);
    }
}

proof fn lemma_first_start_is(items: Seq<JsonView>)
    ensures
        first_start(items) == u64::MAX || exists|i: int|
            0 <= i < items.len() && range_start(#[trigger] items[i]) == Some(first_start(items)),
    decreases items.len(),
{
    if items.len() > 0 {
        let front = items.drop_last();
        lemma_first_start_is(front);
        if first_start(items) != u64::MAX {
            if range_start(items.last()) == Some(first_start(items)) {
                assert(range_start(items[items.len() - 1]) == Some(first_start(items)));
            } else {
                let i = choose|i: int|
                    0 <= i < front.len() && range_start(#[trigger] front[i]) == Some(
                        first_start(front),
                    );
                assert(range_start(items[i]) == Some(first_start(items)));
            }
        }
    }
}

/// The line that the server has come to is the first one that it is still at: no item of its report
/// starts in front of it and, unless the server is done, one starts there.
pub proof fn law_frontier_is_the_first_line_in_work(report: JsonView, items: Seq<JsonView>)
    requires
        report.get("processing"@) == Some(JsonView::Array(items)),
    ensures
        forall|i: int|
            0 <= i < items.len() ==> (match (#[trigger] items[i]).get3(
                "range"@,
                "start"@,
                "line"@,
            ) {
                Some(JsonView::Int(line)) => 0 <= line <= u64::MAX ==> frontier(Some(report))
                    <= line,
                _ => true,
            }),
        frontier(Some(report)) != u64::MAX ==> exists|i: int|
            0 <= i < items.len() && (#[trigger] items[i]).get3("range"@, "start"@, "line"@) == Some(
                JsonView::Int(frontier(Some(report)) as int),
            ),
        items.len() == 0 ==> frontier(Some(report)) == u64::MAX,
        frontier(None) == u64::MAX,
{
    assert(in_work(Some(report)) == items);
    assert forall|i: int| 0 <= i < items.len() implies (match (#[trigger] items[i]).get3(
        "range"@,
        "start"@,
        "line"@,
    ) {
        Some(JsonView::Int(line)) => 0 <= line <= u64::MAX ==> frontier(Some(report)) <= line,
        _ => true,
    }) by {
        if range_start(items[i]) is Some {
            lemma_first_start(items, i);
        }
    }
    lemma_first_start_is(items);
    if frontier(Some(report)) != u64::MAX {
        let i = choose|i: int|
            0 <= i < items.len() && range_start(#[trigger] items[i]) == Some(first_start(items));
        assert(items[i].get3("range"@, "start"@, "line"@) == Some(
            JsonView::Int(frontier(Some(report)) as int),
        ));
    }
}

/// A flag that is set to a truth value says whether its feature is on, and a feature whose flag is
/// missing or something else is on.
pub proof fn law_flags_say_what_is_on(opts: JsonView, flags: JsonView)
    requires
        opts.get("leanTo"@) == Some(flags) || (opts.get("leanTo"@) is None && opts.get("leanto"@)
            == Some(flags)),
    ensures
        ({
            let on = |name: Seq<char>| match flags.get(name) {
                Some(JsonView::Bool(b)) => b,
                _ => true,
            };
            let c = config_of(opts);
            &&& c.inlay_hints == on("inlayHints"@)
            &&& c.code_lens == on("codeLens"@)
            &&& c.semantic_tokens == on("semanticTokens"@)
            &&& c.hover == on("hover"@)
            &&& c.progress == on("progress"@)
            &&& c.auto_restart == on("autoRestart"@)
        }),
{
}

/// Without the section of flags all six features are on.
pub proof fn law_without_flags_everything_is_on(opts: JsonView)
    requires
        opts.get("leanTo"@) is None,
        opts.get("leanto"@) is None,
    ensures
        ({
            let c = config_of(opts);
            c.inlay_hints && c.code_lens && c.semantic_tokens && c.hover && c.progress
                && c.auto_restart
        }),
{
}

} // verus!
