//! The texts of the open documents, kept in step with the editor's edits.
//!
//! A text is held in a `ropey` rope, which knows its lines and its UTF-16 positions, and the ropes
//! in a `dashmap` map under their documents' addresses.
use crate::json::{array_in, items_view, lemma_items_view, ref_view, str_in, u64_in, Json, JsonView};
use crate::snoop::{doc_uri, has_method, method_of, opt_str, opt_u64};
use crate::text::{
    chars_of, lemma_utf16_len_bounds, lemma_utf16_len_prefix, strip_cr, text_of, utf16_len,
};
use dashmap::DashMap;
use ropey::Rope;
use std::collections::hash_map::RandomState;
use std::sync::Arc;
use vstd::prelude::*;
use vstd::slice::slice_subrange;

verus! {

// ---------------------------------------------------------------------------------------------
// Lines and UTF-16 positions of a text
// ---------------------------------------------------------------------------------------------
/// The characters that end a line.
pub open spec fn ends_line(c: char) -> bool {
    let u = c as u32;
    0xA <= u <= 0xD || u == 0x85 || u == 0x2028 || u == 0x2029
}

/// Whether a line break ends at an index. A carriage return and a line feed are one break.
pub open spec fn break_at(s: Seq<char>, i: int) -> bool {
    0 < i <= s.len() && ends_line(s[i - 1]) && !(s[i - 1] == '\r' && i < s.len() && s[i] == '\n')
}

/// How many line breaks end at an index or in front of it.
pub open spec fn breaks(s: Seq<char>, i: int) -> nat
    decreases i,
{
    if i <= 0 {
        0
    } else {
        breaks(s, i - 1) + if break_at(s, i) {
            1nat
        } else {
            0
        }
    }
}

/// How many lines a text has; there is one behind its last line break.
pub open spec fn line_count_of(s: Seq<char>) -> nat {
    breaks(s, s.len() as int) + 1
}

/// The first index, from a given one on, that a number of line breaks stand in front of, or the
/// end.
pub open spec fn start_from(s: Seq<char>, line: int, i: int) -> int
    decreases s.len() - i,
{
    if i >= s.len() {
        s.len() as int
    } else if breaks(s, i) >= line {
        i
    } else {
        start_from(s, line, i + 1)
    }
}

/// Where a line starts; the line behind the last one starts at the end.
pub open spec fn start_of(s: Seq<char>, line: int) -> int {
    start_from(s, line, 0)
}

/// A line, with its line break.
pub open spec fn line_of(s: Seq<char>, line: int) -> Seq<char> {
    s.subrange(start_of(s, line), start_of(s, line + 1))
}

/// The character that a UTF-16 code unit belongs to.
pub open spec fn unit_to_char(s: Seq<char>, unit: nat) -> int
    decreases s.len(),
{
    if s.len() == 0 || utf16_len(s) <= unit {
        s.len() as int
    } else {
        unit_to_char(s.drop_last(), unit)
    }
}

proof fn lemma_start_from(s: Seq<char>, line: int, i: int)
    requires
        0 <= i <= s.len(),
    ensures
        i <= start_from(s, line, i) <= start_from(s, line + 1, i) <= s.len(),
    decreases s.len() - i,
{
    if i < s.len() {
        lemma_start_from(s, line, i + 1);
    }
}

proof fn lemma_unit_to_char(s: Seq<char>, unit: nat)
    ensures
        0 <= unit_to_char(s, unit) <= s.len(),
    decreases s.len(),
{
    if s.len() > 0 && utf16_len(s) > unit {
        lemma_unit_to_char(s.drop_last(), unit);
    }
}

// ---------------------------------------------------------------------------------------------
// Ropes
// ---------------------------------------------------------------------------------------------
#[verifier::external_type_specification]
#[verifier::external_body]
pub struct ExRope(ropey::Rope);

/// The text in a rope.
pub uninterp spec fn rope_chars(rope: Rope) -> Seq<char>;

/// `Rope::from_str`: a rope with the text.
#[verifier::external_body]
fn rope_from(text: &str) -> (r: Rope)
    ensures
        rope_chars(r) == text@,
{
    Rope::from_str(text)
}

/// `Rope::len_chars`: the number of characters.
#[verifier::external_body]
fn rope_len_chars(rope: &Rope) -> (r: usize)
    ensures
        r == rope_chars(*rope).len(),
{
    rope.len_chars()
}

/// `Rope::len_lines`: the number of lines, with the Unicode line breaks that `ropey` recognizes by
/// default.
#[verifier::external_body]
fn rope_len_lines(rope: &Rope) -> (r: usize)
    ensures
        r == line_count_of(rope_chars(*rope)),
{
    rope.len_lines()
}

/// `Rope::line_to_char`: where a line starts. It panics behind the end, but not for the line right
/// behind the last one.
#[verifier::external_body]
fn rope_line_to_char(rope: &Rope, line: usize) -> (r: usize)
    requires
        line <= line_count_of(rope_chars(*rope)),
    ensures
        r == start_of(rope_chars(*rope), line as int),
{
    rope.line_to_char(line)
}

/// `Rope::line` as a string: a line with its line break. It panics where there is none.
#[verifier::external_body]
fn rope_line(rope: &Rope, line: usize) -> (r: String)
    requires
        line < line_count_of(rope_chars(*rope)),
    ensures
        r@ == line_of(rope_chars(*rope), line as int),
{
    rope.line(line).to_string()
}

/// `Rope::char_to_utf16_cu`: the UTF-16 length of what stands in front of a character. It panics
/// behind the end.
#[verifier::external_body]
fn rope_char_to_unit(rope: &Rope, i: usize) -> (r: usize)
    requires
        i <= rope_chars(*rope).len(),
    ensures
        r == utf16_len(rope_chars(*rope).take(i as int)),
{
    rope.char_to_utf16_cu(i)
}

/// `Rope::utf16_cu_to_char`: the character that a UTF-16 code unit belongs to. It panics behind
/// the end.
#[verifier::external_body]
fn rope_unit_to_char(rope: &Rope, unit: usize) -> (r: usize)
    requires
        unit <= utf16_len(rope_chars(*rope)),
    ensures
        r == unit_to_char(rope_chars(*rope), unit as nat),
{
    rope.utf16_cu_to_char(unit)
}

/// `Rope::remove`: takes a range of characters out. It panics where the range does not lie in the
/// text.
#[verifier::external_body]
fn rope_remove(rope: &mut Rope, start: usize, end: usize)
    requires
        start <= end <= rope_chars(*old(rope)).len(),
    ensures
        rope_chars(*final(rope)) == rope_chars(*old(rope)).take(start as int) + rope_chars(
            *old(rope),
        ).skip(end as int),
{
    rope.remove(start..end);
}

/// `Rope::insert`: puts a text in front of a character, or at the end. It panics behind the end.
#[verifier::external_body]
fn rope_insert(rope: &mut Rope, at: usize, text: &str)
    requires
        at <= rope_chars(*old(rope)).len(),
    ensures
        rope_chars(*final(rope)) == rope_chars(*old(rope)).take(at as int) + text@ + rope_chars(
            *old(rope),
        ).skip(at as int),
{
    rope.insert(at, text);
}

/// `Rope::to_string`: the whole text.
#[verifier::external_body]
fn rope_text(rope: &Rope) -> (r: String)
    ensures
        r@ == rope_chars(*rope),
{
    rope.to_string()
}

/// `Arc::clone`: another handle to the same text.
#[verifier::external_body]
fn share(text: &Arc<String>) -> (r: Arc<String>)
    ensures
        r == *text,
{
    Arc::clone(text)
}

// ---------------------------------------------------------------------------------------------
// Edits
// ---------------------------------------------------------------------------------------------
/// The character at a position in lines and UTF-16 code units. A position behind the end of its
/// line counts as the end of the line, and a line behind the last one as the end of the text.
pub open spec fn position_in(s: Seq<char>, line: u64, character: u64) -> int {
    if line >= line_count_of(s) {
        s.len() as int
    } else {
        let line_end = utf16_len(s.take(start_of(s, line + 1)));
        let target = utf16_len(s.take(start_of(s, line as int))) + character as nat;
        unit_to_char(
            s,
            if target < line_end {
                target
            } else {
                line_end
            },
        )
    }
}

/// The character that one end of an edit's range stands for.
pub open spec fn edit_end(s: Seq<char>, pos: Option<JsonView>) -> Option<int> {
    match pos {
        Some(p) => match (u64_in(p.get("line"@)), u64_in(p.get("character"@))) {
            (Some(line), Some(character)) => Some(position_in(s, line, character)),
            _ => None,
        },
        None => None,
    }
}

/// The text that an edit writes.
pub open spec fn edit_text(edit: JsonView) -> Seq<char> {
    match str_in(edit.get("text"@)) {
        Some(t) => t,
        None => ""@,
    }
}

/// A text after an edit: one without a range replaces it whole, and one whose range is none
/// changes nothing.
pub open spec fn edited(s: Seq<char>, edit: JsonView) -> Seq<char> {
    match edit.get("range"@) {
        None => edit_text(edit),
        Some(range) => match (edit_end(s, range.get("start"@)), edit_end(s, range.get("end"@))) {
            (Some(start), Some(end)) => if start <= end {
                s.take(start) + edit_text(edit) + s.skip(end)
            } else {
                s
            },
            _ => s,
        },
    }
}

/// A text after several edits, one after the other.
pub open spec fn edited_by(s: Seq<char>, edits: Seq<JsonView>) -> Seq<char>
    decreases edits.len(),
{
    if edits.len() == 0 {
        s
    } else {
        edited(edited_by(s, edits.drop_last()), edits.last())
    }
}

/// The character that one end of an edit's range stands for.
pub fn position_to_char(rope: &Rope, pos: Option<&Json>) -> (r: Option<usize>)
    ensures
        match r {
            Some(i) => edit_end(rope_chars(*rope), ref_view(pos)) == Some(i as int) && i
                <= rope_chars(*rope).len(),
            None => edit_end(rope_chars(*rope), ref_view(pos)) is None,
        },
{
    let pos = match pos {
        Some(p) => p,
        None => {
            return None;
        },
    };
    let line = match opt_u64(pos.get("line")) {
        Some(n) => n,
        None => {
            return None;
        },
    };
    let character = match opt_u64(pos.get("character")) {
        Some(n) => n,
        None => {
            return None;
        },
    };
    let ghost s = rope_chars(*rope);
    let lines = rope_len_lines(rope);
    if line >= lines as u64 {
        return Some(rope_len_chars(rope));
    }
    let k = line as usize;
    proof {
        lemma_start_from(s, k as int, 0);
    }
    let start = rope_char_to_unit(rope, rope_line_to_char(rope, k));
    let end_char = rope_line_to_char(rope, k + 1);
    let end = rope_char_to_unit(rope, end_char);
    proof {
        if start_of(s, k as int) < start_of(s, k + 1) {
            lemma_utf16_len_prefix(s, start_of(s, k as int), start_of(s, k + 1));
        }
        lemma_utf16_len_prefix(s, end_char as int, s.len() as int);
        assert(s.take(s.len() as int) =~= s);
    }
    let unit: usize = if character < (end - start) as u64 {
        start + character as usize
    } else {
        end
    };
    proof {
        lemma_unit_to_char(s, unit as nat);
    }
    Some(rope_unit_to_char(rope, unit))
}

/// Carries out an edit.
pub fn apply_change(rope: &mut Rope, edit: &Json)
    ensures
        rope_chars(*final(rope)) == edited(rope_chars(*old(rope)), edit@),
{
    let new_text = match opt_str(edit.get("text")) {
        Some(t) => t,
        None => "",
    };
    match edit.get("range") {
        None => {
            *rope = rope_from(new_text);
        },
        Some(range) => {
            let start = position_to_char(rope, range.get("start"));
            let end = position_to_char(rope, range.get("end"));
            if let (Some(start), Some(end)) = (start, end) {
                if start <= end {
                    let ghost s = rope_chars(*rope);
                    rope_remove(rope, start, end);
                    rope_insert(rope, start, new_text);
                    assert((s.take(start as int) + s.skip(end as int)).take(start as int)
                        =~= s.take(start as int));
                    assert((s.take(start as int) + s.skip(end as int)).skip(start as int)
                        =~= s.skip(end as int));
                }
            }
        },
    }
}

// ---------------------------------------------------------------------------------------------
// The map of the documents
// ---------------------------------------------------------------------------------------------
#[verifier::external_type_specification]
#[verifier::external_body]
#[verifier::reject_recursive_types(K)]
#[verifier::reject_recursive_types(V)]
#[verifier::reject_recursive_types(S)]
pub struct ExDashMap<K, V, S>(dashmap::DashMap<K, V, S>);

/// What a map holds: for each address the text in its rope and the text that was kept of it.
pub uninterp spec fn stored(
    m: DashMap<String, (Rope, Option<Arc<String>>), RandomState>,
) -> Map<Seq<char>, (Seq<char>, Option<Seq<char>>)>;

/// What a kept text spells.
pub open spec fn kept_view(kept: Option<Arc<String>>) -> Option<Seq<char>> {
    match kept {
        Some(t) => Some(t@),
        None => None,
    }
}

/// Nothing stored.
pub open spec fn nothing_stored() -> Map<Seq<char>, (Seq<char>, Option<Seq<char>>)> {
    Map::empty()
}

/// `DashMap::new`: a map without entries.
#[verifier::external_body]
fn store_new() -> (m: DashMap<String, (Rope, Option<Arc<String>>), RandomState>)
    ensures
        stored(m) == nothing_stored(),
{
    DashMap::new()
}

/// `DashMap::insert`: the address leads to the document from then on, and no other address is
/// touched.
#[verifier::external_body]
fn store_insert(
    m: &mut DashMap<String, (Rope, Option<Arc<String>>), RandomState>,
    uri: String,
    rope: Rope,
    kept: Option<Arc<String>>,
)
    ensures
        stored(*final(m)) == stored(*old(m)).insert(uri@, (rope_chars(rope), kept_view(kept))),
{
    m.insert(uri, (rope, kept));
}

/// `DashMap::remove`: takes the document of an address out, if there is one.
#[verifier::external_body]
fn store_remove(m: &mut DashMap<String, (Rope, Option<Arc<String>>), RandomState>, uri: &str) -> (r:
    Option<(Rope, Option<Arc<String>>)>)
    ensures
        stored(*final(m)) == stored(*old(m)).remove(uri@),
        match r {
            Some((rope, kept)) => stored(*old(m)).contains_key(uri@) && stored(*old(m))[uri@] == (
                rope_chars(rope),
                kept_view(kept),
            ),
            None => !stored(*old(m)).contains_key(uri@),
        },
{
    m.remove(uri).map(|entry| entry.1)
}

/// `DashMap::get`, with a copy of the document that it refers to: `Rope::clone` and `Arc::clone`
/// keep the texts.
#[verifier::external_body]
fn store_get(m: &DashMap<String, (Rope, Option<Arc<String>>), RandomState>, uri: &str) -> (r:
    Option<(Rope, Option<Arc<String>>)>)
    ensures
        match r {
            Some((rope, kept)) => stored(*m).contains_key(uri@) && stored(*m)[uri@] == (
                rope_chars(rope),
                kept_view(kept),
            ),
            None => !stored(*m).contains_key(uri@),
        },
{
    m.get(uri).map(|doc| doc.value().clone())
}

/// A line without its line break. Only a line feed, and a carriage return in front of it, count
/// as one here.
pub open spec fn trimmed_line(s: Seq<char>) -> Seq<char> {
    if s.len() > 0 && s.last() == '\n' {
        strip_cr(s.drop_last())
    } else {
        s
    }
}

/// A line without its line break.
pub fn trim_line_break(line: &[char]) -> (r: &[char])
    ensures
        r@ == trimmed_line(line@),
        r@.len() <= line@.len(),
        r@ == line@.take(r@.len() as int),
{
    let mut end: usize = line.len();
    if end > 0 && line[end - 1] == '\n' {
        end -= 1;
        if end > 0 && line[end - 1] == '\r' {
            end -= 1;
        }
    }
    let r = slice_subrange(line, 0, end);
    assert(r@ =~= trimmed_line(line@));
    assert(r@ =~= line@.take(end as int));
    r
}

/// The texts of the open documents, by their addresses.
pub type Texts = Map<Seq<char>, Seq<char>>;

/// The text of a document that a message opens.
pub open spec fn opened_text(msg: JsonView) -> Seq<char> {
    match str_in(msg.get3("params"@, "textDocument"@, "text"@)) {
        Some(t) => t,
        None => ""@,
    }
}

/// The texts after a message: opening a document sets its text, changing it edits the text, and
/// closing it drops the text. Any other message changes nothing.
pub open spec fn texts_after(texts: Texts, msg: JsonView) -> Texts {
    match doc_uri(msg) {
        Some(uri) => if method_of(msg) == Some("textDocument/didOpen"@) {
            texts.insert(uri, opened_text(msg))
        } else if method_of(msg) == Some("textDocument/didChange"@) {
            match array_in(msg.get2("params"@, "contentChanges"@)) {
                Some(edits) => if texts.contains_key(uri) {
                    texts.insert(uri, edited_by(texts[uri], edits))
                } else {
                    texts
                },
                None => texts,
            }
        } else if method_of(msg) == Some("textDocument/didClose"@) {
            texts.remove(uri)
        } else {
            texts
        },
        None => texts,
    }
}

/// The texts of the open documents.
pub struct Documents {
    inner: DashMap<String, (Rope, Option<Arc<String>>), RandomState>,
}

impl View for Documents {
    type V = Texts;

    closed spec fn view(&self) -> Texts {
        stored(self.inner).map_values(|d: (Seq<char>, Option<Seq<char>>)| d.0)
    }
}

impl Documents {
    /// A text that is kept of a document is the document's text.
    pub closed spec fn wf(self) -> bool {
        forall|uri: Seq<char>| #[trigger]
            stored(self.inner).contains_key(uri) ==> match stored(self.inner)[uri].1 {
                Some(t) => t == stored(self.inner)[uri].0,
                None => true,
            }
    }

    /// No documents.
    pub fn new() -> (r: Documents)
        ensures
            r.wf(),
            r@ == Map::<Seq<char>, Seq<char>>::empty(),
    {
        let r = Documents { inner: store_new() };
        assert(r@ =~= Map::empty());
        r
    }

    /// Follows a message of the editor.
    pub fn handle_message(&mut self, parsed: &Json)
        requires
            old(self).wf(),
        ensures
            final(self).wf(),
            final(self)@ == texts_after(old(self)@, parsed@),
    {
        proof {
            reveal_strlit("textDocument/didOpen");
            reveal_strlit("textDocument/didChange");
            reveal_strlit("textDocument/didClose");
            assert("textDocument/didOpen"@.len() == 20);
            assert("textDocument/didChange"@.len() == 22);
            assert("textDocument/didClose"@.len() == 21);
        }
        let params = match parsed.get("params") {
            Some(p) => p,
            None => {
                return;
            },
        };
        if has_method(parsed, "textDocument/didOpen") {
            self.do_open(params);
        } else if has_method(parsed, "textDocument/didChange") {
            self.do_change(params);
        } else if has_method(parsed, "textDocument/didClose") {
            self.do_close(params);
        }
    }

    fn do_open(&mut self, params: &Json)
        requires
            old(self).wf(),
        ensures
            final(self).wf(),
            final(self)@ == match str_in(params@.get2("textDocument"@, "uri"@)) {
                Some(uri) => old(self)@.insert(
                    uri,
                    match str_in(params@.get2("textDocument"@, "text"@)) {
                        Some(t) => t,
                        None => ""@,
                    },
                ),
                None => old(self)@,
            },
    {
        if let Some(uri) = opt_str(params.get2("textDocument", "uri")) {
            let text = match opt_str(params.get2("textDocument", "text")) {
                Some(t) => t,
                None => "",
            };
            store_insert(&mut self.inner, uri.to_string(), rope_from(text), None);
            assert(self@ =~= old(self)@.insert(uri@, text@));
        }
    }

    fn do_change(&mut self, params: &Json)
        requires
            old(self).wf(),
        ensures
            final(self).wf(),
            final(self)@ == match (
                str_in(params@.get2("textDocument"@, "uri"@)),
                array_in(params@.get("contentChanges"@)),
            ) {
                (Some(uri), Some(edits)) => if old(self)@.contains_key(uri) {
                    old(self)@.insert(uri, edited_by(old(self)@[uri], edits))
                } else {
                    old(self)@
                },
                _ => old(self)@,
            },
    {
        let uri = match opt_str(params.get2("textDocument", "uri")) {
            Some(u) => u,
            None => {
                return;
            },
        };
        let changes = match params.get("contentChanges") {
            Some(c) => match c.as_array() {
                Some(items) => items,
                None => {
                    return;
                },
            },
            None => {
                return;
            },
        };
        if let Some((doc, _)) = store_remove(&mut self.inner, uri) {
            let mut rope = doc;
            let ghost s = rope_chars(rope);
            let ghost all = items_view(changes@);
            let mut i: usize = 0;
            proof {
                lemma_items_view(changes@);
                assert(all.take(0) =~= Seq::empty());
            }
            while i < changes.len()
                invariant
                    i <= changes.len(),
                    all == items_view(changes@),
                    all.len() == changes.len(),
                    forall|k: int| 0 <= k < changes.len() ==> #[trigger] all[k] == changes@[k]@,
                    rope_chars(rope) == edited_by(s, all.take(i as int)),
                decreases changes.len() - i,
            {
                assert(all.take(i as int + 1).drop_last() =~= all.take(i as int));
                assert(all.take(i as int + 1).last() == changes@[i as int]@);
                apply_change(&mut rope, &changes[i]);
                i += 1;
            }
            assert(all.take(i as int) =~= all);
            store_insert(&mut self.inner, uri.to_string(), rope, None);
            assert(self@ =~= old(self)@.insert(uri@, edited_by(s, all)));
        } else {
            assert(self@ =~= old(self)@);
        }
    }

    fn do_close(&mut self, params: &Json)
        requires
            old(self).wf(),
        ensures
            final(self).wf(),
            final(self)@ == match str_in(params@.get2("textDocument"@, "uri"@)) {
                Some(uri) => old(self)@.remove(uri),
                None => old(self)@,
            },
    {
        if let Some(uri) = opt_str(params.get2("textDocument", "uri")) {
            let _ = store_remove(&mut self.inner, uri);
            assert(self@ =~= old(self)@.remove(uri@));
        }
    }

    /// The UTF-16 length of a line of a document, without its line break.
    pub fn line_length_utf16(&self, uri: &str, line: u64) -> (r: Option<u64>)
        ensures
            match r {
                Some(n) => self@.contains_key(uri@) && line < line_count_of(self@[uri@]) && n
                    == utf16_len(trimmed_line(line_of(self@[uri@], line as int))),
                None => !(self@.contains_key(uri@) && line < line_count_of(self@[uri@])),
            },
    {
        match store_get(&self.inner, uri) {
            Some((rope, _)) => {
                let ghost s = rope_chars(rope);
                if line >= rope_len_lines(&rope) as u64 {
                    return None;
                }
                let k = line as usize;
                proof {
                    lemma_start_from(s, k as int, 0);
                }
                let start = rope_line_to_char(&rope, k);
                let chars = chars_of(rope_line(&rope, k).as_str());
                let len = trim_line_break(chars.as_slice()).len();
                let total = rope_len_chars(&rope);
                assert(start + len <= total);
                let from = rope_char_to_unit(&rope, start);
                let to = rope_char_to_unit(&rope, start + len);
                proof {
                    lemma_utf16_len_prefix(s, start as int, start + len);
                    assert(s.subrange(start as int, start + len) =~= trimmed_line(
                        line_of(s, k as int),
                    ));
                }
                Some((to - from) as u64)
            },
            None => None,
        }
    }

    /// A line of a document, without its line break.
    pub fn line_text(&self, uri: &str, line: u64) -> (r: Option<String>)
        ensures
            match r {
                Some(t) => self@.contains_key(uri@) && line < line_count_of(self@[uri@]) && t@
                    == trimmed_line(line_of(self@[uri@], line as int)),
                None => !(self@.contains_key(uri@) && line < line_count_of(self@[uri@])),
            },
    {
        match store_get(&self.inner, uri) {
            Some((rope, _)) => {
                if line >= rope_len_lines(&rope) as u64 {
                    return None;
                }
                let chars = chars_of(rope_line(&rope, line as usize).as_str());
                Some(text_of(trim_line_break(chars.as_slice())))
            },
            None => None,
        }
    }

    /// The text of a document. It is put together once and kept until the next edit.
    pub fn full_text(&mut self, uri: &str) -> (r: Option<Arc<String>>)
        requires
            old(self).wf(),
        ensures
            final(self).wf(),
            final(self)@ == old(self)@,
            match r {
                Some(t) => old(self)@.contains_key(uri@) && t@ == old(self)@[uri@],
                None => !old(self)@.contains_key(uri@),
            },
    {
        match store_get(&self.inner, uri) {
            Some((_, Some(kept))) => Some(kept),
            Some((rope, None)) => {
                let text = Arc::new(rope_text(&rope));
                store_insert(&mut self.inner, uri.to_string(), rope, Some(share(&text)));
                assert(self@ =~= old(self)@);
                Some(text)
            },
            None => None,
        }
    }

    /// The number of lines of a document.
    pub fn line_count(&self, uri: &str) -> (r: Option<u64>)
        ensures
            match r {
                Some(n) => self@.contains_key(uri@) && n == line_count_of(self@[uri@]),
                None => !self@.contains_key(uri@),
            },
    {
        match store_get(&self.inner, uri) {
            Some((rope, _)) => Some(rope_len_lines(&rope) as u64),
            None => None,
        }
    }
}

// ---------------------------------------------------------------------------------------------
// Laws
// ---------------------------------------------------------------------------------------------
/// The text of a document that a message opens is the text that the message gives.
pub proof fn law_open_sets_text(texts: Texts, msg: JsonView)
    requires
        method_of(msg) == Some("textDocument/didOpen"@),
        doc_uri(msg) is Some,
    ensures
        texts_after(texts, msg).contains_key(doc_uri(msg)->0),
        texts_after(texts, msg)[doc_uri(msg)->0] == opened_text(msg),
{
}

/// A message leaves every document alone that it is not about.
pub proof fn law_other_documents_stay(texts: Texts, msg: JsonView, uri: Seq<char>)
    requires
        doc_uri(msg) != Some(uri),
    ensures
        texts_after(texts, msg).contains_key(uri) == texts.contains_key(uri),
        texts.contains_key(uri) ==> texts_after(texts, msg)[uri] == texts[uri],
{
}

/// A document that was closed is gone, and opening it again brings nothing of it back.
pub proof fn law_close_forgets(texts: Texts, close: JsonView, open: JsonView)
    requires
        method_of(close) == Some("textDocument/didClose"@),
        method_of(open) == Some("textDocument/didOpen"@),
        doc_uri(close) is Some,
        doc_uri(open) == doc_uri(close),
    ensures
        !texts_after(texts, close).contains_key(doc_uri(close)->0),
        texts_after(texts_after(texts, close), open) == texts_after(texts, open),
{
    reveal_strlit("textDocument/didOpen");
    reveal_strlit("textDocument/didChange");
    reveal_strlit("textDocument/didClose");
    assert("textDocument/didOpen"@.len() == 20);
    assert("textDocument/didChange"@.len() == 22);
    assert("textDocument/didClose"@.len() == 21);
    let uri = doc_uri(close)->0;
    assert(texts.remove(uri).insert(uri, opened_text(open)) =~= texts.insert(
        uri,
        opened_text(open),
    ));
}

proof fn lemma_breaks(s: Seq<char>, i: int, j: int)
    requires
        0 <= i <= j,
    ensures
        breaks(s, i) <= breaks(s, j) <= breaks(s, i) + (j - i),
    decreases j,
{
    if i < j {
        lemma_breaks(s, i, j - 1);
    }
}

/// The line that an index stands on starts at the index or in front of it, and the next one does
/// not start in front of it.
proof fn lemma_line_around(s: Seq<char>, i: int, k: int)
    requires
        0 <= k <= i <= s.len(),
        k > 0 ==> breaks(s, k - 1) < breaks(s, i),
    ensures
        start_from(s, breaks(s, i) as int, k) <= i,
        start_from(s, breaks(s, i) as int + 1, k) >= i,
    decreases s.len() - k,
{
    if k < s.len() {
        lemma_breaks(s, k, i);
        if k < i {
            if breaks(s, k) < breaks(s, i) {
                lemma_line_around(s, i, k + 1);
            } else {
                lemma_next_line(s, i, k);
            }
        } else {
            lemma_start_from(s, breaks(s, i) as int + 1, k);
        }
    }
}

proof fn lemma_next_line(s: Seq<char>, i: int, k: int)
    requires
        0 <= k <= i <= s.len(),
    ensures
        start_from(s, breaks(s, i) as int + 1, k) >= i,
    decreases i - k,
{
    lemma_breaks(s, k, i);
    if k < i {
        lemma_next_line(s, i, k + 1);
    } else {
        lemma_start_from(s, breaks(s, i) as int + 1, k);
    }
}

proof fn lemma_unit_of_prefix(s: Seq<char>, i: int)
    requires
        0 <= i <= s.len(),
    ensures
        unit_to_char(s, utf16_len(s.take(i))) == i,
    decreases s.len() - i,
{
    if i == s.len() {
        assert(s.take(i) =~= s);
    } else {
        lemma_utf16_len_prefix(s, i, s.len() as int);
        assert(s.take(s.len() as int) =~= s);
        assert(s.drop_last().take(i) =~= s.take(i));
        lemma_unit_of_prefix(s.drop_last(), i);
    }
}

/// Every index of a text can be addressed: by the number of line breaks in front of it, and the
/// UTF-16 length of what stands in front of it on its line.
pub proof fn law_every_index_has_a_position(s: Seq<char>, i: int)
    requires
        0 <= i <= s.len(),
        utf16_len(s) <= u64::MAX,
    ensures
        ({
            let line = breaks(s, i);
            let start = start_of(s, line as int);
            &&& 0 <= start <= i
            &&& position_in(s, line as u64, utf16_len(s.subrange(start, i)) as u64) == i
        }),
{
    let line = breaks(s, i);
    lemma_utf16_len_bounds(s);
    lemma_breaks(s, 0, i);
    lemma_breaks(s, i, s.len() as int);
    lemma_line_around(s, i, 0);
    lemma_start_from(s, line as int, 0);
    let start = start_of(s, line as int);
    let next = start_of(s, line as int + 1);
    lemma_utf16_len_prefix(s, start, i);
    lemma_utf16_len_prefix(s, i, next);
    lemma_utf16_len_prefix(s, next, s.len() as int);
    assert(s.take(s.len() as int) =~= s);
    lemma_unit_of_prefix(s, i);
}

/// The position of an index of a text, as an edit gives it.
pub open spec fn position_of(s: Seq<char>, i: int) -> JsonView {
    let line = breaks(s, i);
    JsonView::Object(
        map![
            "line"@ => JsonView::Int(line as int),
            "character"@ => JsonView::Int(
                utf16_len(s.subrange(start_of(s, line as int), i)) as int,
            ),
        ],
    )
}

/// The edit that replaces the stretch of a text between two indices.
pub open spec fn edit_between(s: Seq<char>, i: int, j: int, text: Seq<char>) -> JsonView {
    JsonView::Object(
        map![
            "range"@ => JsonView::Object(
                map!["start"@ => position_of(s, i), "end"@ => position_of(s, j)],
            ),
            "text"@ => JsonView::Str(text),
        ],
    )
}

proof fn lemma_position_of(s: Seq<char>, i: int)
    requires
        0 <= i <= s.len(),
        utf16_len(s) <= u64::MAX,
    ensures
        edit_end(s, Some(position_of(s, i))) == Some(i),
{
    reveal_strlit("line");
    reveal_strlit("character");
    assert("line"@.len() == 4 && "character"@.len() == 9);
    law_every_index_has_a_position(s, i);
    let line = breaks(s, i);
    let start = start_of(s, line as int);
    lemma_utf16_len_bounds(s);
    lemma_breaks(s, 0, i);
    lemma_utf16_len_prefix(s, start, i);
    lemma_utf16_len_prefix(s, i, s.len() as int);
    assert(s.take(s.len() as int) =~= s);
}

/// An edit replaces exactly the stretch that it names, and every stretch can be named.
pub proof fn law_edit_replaces_its_stretch(s: Seq<char>, i: int, j: int, text: Seq<char>)
    requires
        0 <= i <= j <= s.len(),
        utf16_len(s) <= u64::MAX,
    ensures
        edited(s, edit_between(s, i, j, text)) == s.take(i) + text + s.skip(j),
{
    reveal_strlit("range");
    reveal_strlit("start");
    reveal_strlit("end");
    reveal_strlit("text");
    assert("range"@.len() == 5 && "text"@.len() == 4);
    assert("start"@.len() == 5 && "end"@.len() == 3);
    lemma_position_of(s, i);
    lemma_position_of(s, j);
}

/// Every edit can be undone by another one.
pub proof fn law_edit_can_be_undone(s: Seq<char>, i: int, j: int, text: Seq<char>)
    requires
        0 <= i <= j <= s.len(),
        utf16_len(s) <= u64::MAX,
        utf16_len(s.take(i) + text + s.skip(j)) <= u64::MAX,
    ensures
        ({
            let after = edited(s, edit_between(s, i, j, text));
            edited(after, edit_between(after, i, i + text.len(), s.subrange(i, j))) == s
        }),
{
    law_edit_replaces_its_stretch(s, i, j, text);
    let after = s.take(i) + text + s.skip(j);
    law_edit_replaces_its_stretch(after, i, i + text.len(), s.subrange(i, j));
    assert(after.take(i) =~= s.take(i));
    assert(after.skip(i + text.len()) =~= s.skip(j));
    assert(s.take(i) + s.subrange(i, j) + s.skip(j) =~= s);
}

/// An edit without a range sets the whole text, whatever the text was before.
pub proof fn law_edit_without_range_sets_text(s: Seq<char>, edit: JsonView)
    requires
        edit.get("range"@) is None,
    ensures
        edited(s, edit) == edit_text(edit),
{
}

/// A position on a line leads to the character that stands behind so many UTF-16 code units of the
/// line; one behind the end of its line leads to the end of the line, and one behind the last line
/// to the end of the text.
pub proof fn law_positions_are_found(s: Seq<char>, line: u64, i: int, character: u64)
    requires
        utf16_len(s) <= u64::MAX,
    ensures
        line >= line_count_of(s) ==> position_in(s, line, character) == s.len(),
        line < line_count_of(s) && start_of(s, line as int) <= i <= start_of(s, line + 1)
            ==> position_in(
            s,
            line,
            utf16_len(s.subrange(start_of(s, line as int), i)) as u64,
        ) == i,
        line < line_count_of(s) && character >= utf16_len(line_of(s, line as int)) ==> position_in(
            s,
            line,
            character,
        ) == start_of(s, line + 1),
{
    let start = start_of(s, line as int);
    let next = start_of(s, line + 1);
    lemma_start_from(s, line as int, 0);
    assert(s.take(s.len() as int) =~= s);
    lemma_utf16_len_prefix(s, start, next);
    lemma_utf16_len_prefix(s, next, s.len() as int);
    lemma_unit_of_prefix(s, next);
    if start <= i <= next {
        lemma_utf16_len_prefix(s, start, i);
        lemma_utf16_len_prefix(s, i, next);
        lemma_unit_of_prefix(s, i);
    }
}

/// The edits of a message are carried out one after the other, each on what the one before left.
pub proof fn law_edits_are_carried_out_in_turn(
    s: Seq<char>,
    first: Seq<JsonView>,
    second: Seq<JsonView>,
    edit: JsonView,
)
    ensures
        edited_by(s, Seq::empty()) == s,
        edited_by(s, seq![edit]) == edited(s, edit),
        edited_by(s, first + second) == edited_by(edited_by(s, first), second),
    decreases second.len(),
{
    assert(seq![edit].drop_last() =~= Seq::empty());
    assert(edited_by(s, seq![edit].drop_last()) == s);
    if second.len() == 0 {
        assert(first + second =~= first);
    } else {
        assert((first + second).drop_last() =~= first + second.drop_last());
        law_edits_are_carried_out_in_turn(s, first, second.drop_last(), edit);
    }
}

/// An edit whose range has no start or no end, or one that ends in front of its start, changes
/// nothing; an edit without a text writes none.
pub proof fn law_broken_edits_change_nothing(s: Seq<char>, edit: JsonView, range: JsonView)
    requires
        edit.get("range"@) == Some(range),
    ensures
        range.get("start"@) is None || range.get("end"@) is None ==> edited(s, edit) == s,
        match (edit_end(s, range.get("start"@)), edit_end(s, range.get("end"@))) {
            (Some(start), Some(end)) => start > end ==> edited(s, edit) == s,
            _ => true,
        },
        edit.get("text"@) is None ==> edited(s, edit).len() <= s.len(),
{
    reveal_strlit("");
    if let (Some(start), Some(end)) = (
        edit_end(s, range.get("start"@)),
        edit_end(s, range.get("end"@)),
    ) {
        lemma_edit_end_bounds(s, range.get("start"@));
        lemma_edit_end_bounds(s, range.get("end"@));
    }
}

proof fn lemma_edit_end_bounds(s: Seq<char>, pos: Option<JsonView>)
    ensures
        edit_end(s, pos) matches Some(i) ==> 0 <= i <= s.len(),
{
    if let Some(p) = pos {
        if let (Some(line), Some(character)) = (u64_in(p.get("line"@)), u64_in(p.get("character"@))) {
            let line_end = utf16_len(s.take(start_of(s, line + 1)));
            let target = utf16_len(s.take(start_of(s, line as int))) + character as nat;
            lemma_unit_to_char(s, target);
            lemma_unit_to_char(s, line_end);
        }
    }
}

/// A message that opens a document sets the text that it gives, one that changes it carries its
/// edits out on the text there is, and one that closes it takes the text away.
pub proof fn law_texts_follow_the_messages(
    texts: Texts,
    msg: JsonView,
    uri: Seq<char>,
    text: Seq<char>,
    edits: Seq<JsonView>,
)
    requires
        msg.get3("params"@, "textDocument"@, "uri"@) == Some(JsonView::Str(uri)),
    ensures
        ({
            let method = msg.get("method"@);
            let after = texts_after(texts, msg);
            &&& method == Some(JsonView::Str("textDocument/didOpen"@)) && msg.get3(
                "params"@,
                "textDocument"@,
                "text"@,
            ) == Some(JsonView::Str(text)) ==> after == texts.insert(uri, text)
            &&& method == Some(JsonView::Str("textDocument/didChange"@)) && msg.get2(
                "params"@,
                "contentChanges"@,
            ) == Some(JsonView::Array(edits)) && texts.contains_key(uri) ==> after == texts.insert(
                uri,
                edited_by(texts[uri], edits),
            )
            &&& method == Some(JsonView::Str("textDocument/didChange"@)) && !texts.contains_key(uri)
                ==> after == texts
            &&& method == Some(JsonView::Str("textDocument/didClose"@)) ==> after == texts.remove(
                uri,
            )
            &&& method is None ==> after == texts
        }),
{
    reveal_strlit("textDocument/didOpen");
    reveal_strlit("textDocument/didChange");
    reveal_strlit("textDocument/didClose");
    assert("textDocument/didOpen"@.len() == 20);
    assert("textDocument/didChange"@.len() == 22);
    assert("textDocument/didClose"@.len() == 21);
}

/// A line loses its line feed and the carriage return in front of it, and nothing else.
pub proof fn law_only_line_breaks_are_trimmed(line: Seq<char>)
    ensures
        trimmed_line(line + seq!['\r', '\n']) == line,
        line.len() == 0 || line.last() != '\r' ==> trimmed_line(line + seq!['\n']) == line,
        line.len() == 0 || line.last() != '\n' ==> trimmed_line(line) == line,
{
    let a = line + seq!['\r', '\n'];
    assert(a.drop_last() =~= line.push('\r'));
    assert(line.push('\r').drop_last() =~= line);
    assert((line + seq!['\n']).drop_last() =~= line);
}

/// An edit writes its text, or nothing where it has none, between the two positions of its range;
/// without a range it writes it in place of everything.
pub proof fn law_edits_write_between_their_positions(
    s: Seq<char>,
    edit: JsonView,
    line: u64,
    character: u64,
    last_line: u64,
    last_character: u64,
    text: Seq<char>,
)
    requires
        edit.get("text"@) == Some(JsonView::Str(text)) || edit.get("text"@) is None && text
            == Seq::<char>::empty(),
    ensures
        edit.get("range"@) is None ==> edited(s, edit) == text,
        edit.get3("range"@, "start"@, "line"@) == Some(JsonView::Int(line as int)) && edit.get3(
            "range"@,
            "start"@,
            "character"@,
        ) == Some(JsonView::Int(character as int)) && edit.get3("range"@, "end"@, "line"@) == Some(
            JsonView::Int(last_line as int),
        ) && edit.get3("range"@, "end"@, "character"@) == Some(
            JsonView::Int(last_character as int),
        ) && position_in(s, line, character) <= position_in(s, last_line, last_character)
            ==> edited(s, edit) == s.take(position_in(s, line, character)) + text + s.skip(
            position_in(s, last_line, last_character),
        ),
{
    reveal_strlit("");
    assert(""@ =~= Seq::<char>::empty());
}

/// A message that opens a document without a text opens an empty one, and one without a document
/// changes nothing.
pub proof fn law_missing_parts_of_messages(texts: Texts, msg: JsonView, uri: Seq<char>)
    ensures
        msg.get("method"@) == Some(JsonView::Str("textDocument/didOpen"@)) && msg.get3(
            "params"@,
            "textDocument"@,
            "uri"@,
        ) == Some(JsonView::Str(uri)) && msg.get3("params"@, "textDocument"@, "text"@) is None
            ==> texts_after(texts, msg) == texts.insert(uri, Seq::empty()),
        msg.get3("params"@, "textDocument"@, "uri"@) is None ==> texts_after(texts, msg) == texts,
        msg.get("method"@) == Some(JsonView::Str("textDocument/didChange"@)) && msg.get2(
            "params"@,
            "contentChanges"@,
        ) is None ==> texts_after(texts, msg) == texts,
{
    reveal_strlit("");
    assert(""@ =~= Seq::<char>::empty());
    reveal_strlit("textDocument/didOpen");
    reveal_strlit("textDocument/didChange");
    reveal_strlit("textDocument/didClose");
    assert("textDocument/didOpen"@.len() == 20);
    assert("textDocument/didChange"@.len() == 22);
    assert("textDocument/didClose"@.len() == 21);
}

} // verus!
