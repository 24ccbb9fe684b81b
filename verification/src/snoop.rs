//! What the messages between the editor and the server say in passing.
use crate::json::{i64_in, ref_view, str_in, str_view, text_view, u64_in, Json, JsonView};
use crate::text::same_text;
use vstd::prelude::*;

verus! {

/// Where the cursor is, in UTF-16 code units.
#[derive(Clone, Debug, PartialEq, Eq)]
pub struct CursorPos {
    pub uri: String,
    pub line: u64,
    pub character: u64,
}

/// What a cursor position says.
pub struct CursorView {
    pub uri: Seq<char>,
    pub line: u64,
    pub character: u64,
}

impl CursorPos {
    pub open spec fn view(&self) -> CursorView {
        CursorView { uri: self.uri@, line: self.line, character: self.character }
    }

    /// A second copy of the position.
    pub fn copy(&self) -> (r: CursorPos)
        ensures
            r@ == self@,
    {
        CursorPos { uri: self.uri.clone(), line: self.line, character: self.character }
    }

    /// Whether two positions are the same.
    pub fn same(&self, other: &CursorPos) -> (r: bool)
        ensures
            r == (self@ == other@),
    {
        same_text(self.uri.as_str(), other.uri.as_str()) && self.line == other.line
            && self.character == other.character
    }
}

/// What an optional position says.
pub open spec fn cursor_view(c: Option<CursorPos>) -> Option<CursorView> {
    match c {
        Some(c) => Some(c@),
        None => None,
    }
}

/// The method that a message names.
pub open spec fn method_of(v: JsonView) -> Option<Seq<char>> {
    str_in(v.get("method"@))
}

/// The document that a message is about.
pub open spec fn doc_uri(v: JsonView) -> Option<Seq<char>> {
    str_in(v.get3("params"@, "textDocument"@, "uri"@))
}

/// A member of the position in a message's parameters.
pub open spec fn position_part(v: JsonView, part: Seq<char>) -> Option<u64> {
    u64_in(v.get3("params"@, "position"@, part))
}

/// The position of the cursor that a hover or a highlight request gives away.
pub open spec fn cursor_in(v: JsonView) -> Option<CursorView> {
    let method = method_of(v);
    if method == Some("textDocument/hover"@) || method == Some("textDocument/documentHighlight"@) {
        match (doc_uri(v), position_part(v, "line"@), position_part(v, "character"@)) {
            (Some(uri), Some(line), Some(character)) => Some(CursorView { uri, line, character }),
            _ => None,
        }
    } else {
        None
    }
}

/// The document of a message with a given method.
pub open spec fn uri_if(v: JsonView, method: Seq<char>) -> Option<Seq<char>> {
    if method_of(v) == Some(method) {
        doc_uri(v)
    } else {
        None
    }
}

/// The document of a message with a given method, and its version.
pub open spec fn version_if(v: JsonView, method: Seq<char>) -> Option<(Seq<char>, i64)> {
    if method_of(v) == Some(method) {
        match (doc_uri(v), i64_in(v.get3("params"@, "textDocument"@, "version"@))) {
            (Some(uri), Some(version)) => Some((uri, version)),
            _ => None,
        }
    } else {
        None
    }
}

/// What an optional pair of a document and its version says.
pub open spec fn version_view(r: Option<(String, i64)>) -> Option<(Seq<char>, i64)> {
    match r {
        Some((uri, version)) => Some((uri@, version)),
        None => None,
    }
}

/// The text of an optional member.
pub fn opt_str(v: Option<&Json>) -> (r: Option<&str>)
    ensures
        str_view(r) == str_in(ref_view(v)),
{
    match v {
        Some(v) => v.as_str(),
        None => None,
    }
}

/// The unsigned number of an optional member.
pub fn opt_u64(v: Option<&Json>) -> (r: Option<u64>)
    ensures
        r == u64_in(ref_view(v)),
{
    match v {
        Some(v) => v.as_u64(),
        None => None,
    }
}

/// The number of an optional member.
pub fn opt_i64(v: Option<&Json>) -> (r: Option<i64>)
    ensures
        r == i64_in(ref_view(v)),
{
    match v {
        Some(v) => v.as_i64(),
        None => None,
    }
}

/// Whether a message has a given method.
pub fn has_method(v: &Json, method: &str) -> (r: bool)
    ensures
        r == (method_of(v@) == Some(method@)),
{
    match opt_str(v.get("method")) {
        Some(m) => same_text(m, method),
        None => false,
    }
}

/// The document that a message is about.
pub fn extract_uri(v: &Json) -> (r: Option<String>)
    ensures
        text_view(r) == doc_uri(v@),
{
    match opt_str(v.get3("params", "textDocument", "uri")) {
        Some(s) => Some(s.to_string()),
        None => None,
    }
}

/// The cursor position that a hover or a highlight request gives away.
pub fn extract_cursor(v: &Json) -> (r: Option<CursorPos>)
    ensures
        cursor_view(r) == cursor_in(v@),
{
    if !has_method(v, "textDocument/hover") && !has_method(v, "textDocument/documentHighlight") {
        return None;
    }
    let line = opt_u64(v.get3("params", "position", "line"));
    let character = opt_u64(v.get3("params", "position", "character"));
    match (extract_uri(v), line, character) {
        (Some(uri), Some(line), Some(character)) => Some(CursorPos { uri, line, character }),
        _ => None,
    }
}

/// Whether a message says that the editor has finished its handshake.
pub fn is_initialized(v: &Json) -> (r: bool)
    ensures
        r == (method_of(v@) == Some("initialized"@)),
{
    has_method(v, "initialized")
}

/// The document that a message opens.
pub fn extract_did_open(v: &Json) -> (r: Option<String>)
    ensures
        text_view(r) == uri_if(v@, "textDocument/didOpen"@),
{
    extract_doc_uri(v, "textDocument/didOpen")
}

/// The document that a message closes.
pub fn extract_did_close(v: &Json) -> (r: Option<String>)
    ensures
        text_view(r) == uri_if(v@, "textDocument/didClose"@),
{
    extract_doc_uri(v, "textDocument/didClose")
}

fn extract_doc_uri(v: &Json, expected_method: &str) -> (r: Option<String>)
    ensures
        text_view(r) == uri_if(v@, expected_method@),
{
    if has_method(v, expected_method) {
        extract_uri(v)
    } else {
        None
    }
}

/// The document that a message opens, and its version.
pub fn extract_did_open_version(v: &Json) -> (r: Option<(String, i64)>)
    ensures
        version_view(r) == version_if(v@, "textDocument/didOpen"@),
{
    extract_doc_uri_and_version(v, "textDocument/didOpen")
}

/// The document that a message changes, and its new version.
pub fn extract_did_change(v: &Json) -> (r: Option<(String, i64)>)
    ensures
        version_view(r) == version_if(v@, "textDocument/didChange"@),
{
    extract_doc_uri_and_version(v, "textDocument/didChange")
}

fn extract_doc_uri_and_version(v: &Json, expected_method: &str) -> (r: Option<(String, i64)>)
    ensures
        version_view(r) == version_if(v@, expected_method@),
{
    if !has_method(v, expected_method) {
        return None;
    }
    match (extract_uri(v), opt_i64(v.get3("params", "textDocument", "version"))) {
        (Some(uri), Some(version)) => Some((uri, version)),
        _ => None,
    }
}

/// A hover and a highlight request give the cursor's position away, and no other message does.
pub proof fn law_where_the_cursor_is(v: JsonView, uri: Seq<char>, line: u64, character: u64)
    requires
        v.get3("params"@, "textDocument"@, "uri"@) == Some(JsonView::Str(uri)),
        v.get3("params"@, "position"@, "line"@) == Some(JsonView::Int(line as int)),
        v.get3("params"@, "position"@, "character"@) == Some(JsonView::Int(character as int)),
    ensures
        cursor_in(v) == if v.get("method"@) == Some(JsonView::Str("textDocument/hover"@)) || v.get(
            "method"@,
        ) == Some(JsonView::Str("textDocument/documentHighlight"@)) {
            Some(CursorView { uri, line, character })
        } else {
            None
        },
{
}

/// A message with a method names its document and, where it has one, its version; a message with
/// another method does not count.
pub proof fn law_documents_are_named(
    v: JsonView,
    method: Seq<char>,
    other: Seq<char>,
    uri: Seq<char>,
    version: i64,
)
    requires
        v.get("method"@) == Some(JsonView::Str(method)),
        v.get3("params"@, "textDocument"@, "uri"@) == Some(JsonView::Str(uri)),
        v.get3("params"@, "textDocument"@, "version"@) == Some(JsonView::Int(version as int)),
        other != method,
    ensures
        method_of(v) == Some(method),
        doc_uri(v) == Some(uri),
        uri_if(v, method) == Some(uri),
        uri_if(v, other) is None,
        version_if(v, method) == Some((uri, version)),
        version_if(v, other) is None,
{
}

} // verus!
