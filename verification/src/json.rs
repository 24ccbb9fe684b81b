//! JSON documents: a tree that the rest of the library reads and builds, and the bytes it comes
//! from and goes to.
//!
//! The bytes are read and written by `serde_json`. Its values are taken apart into this module's
//! own tree, which is what every contract speaks of, and put together again from it.
use crate::text::same_text;
use serde_json::Value;
use vstd::prelude::*;

verus! {

// ---------------------------------------------------------------------------------------------
// What comes from serde_json
// ---------------------------------------------------------------------------------------------
#[verifier::external_type_specification]
#[verifier::external_body]
pub struct ExNumber(serde_json::Number);

#[verifier::external_type_specification]
#[verifier::external_body]
pub struct ExValue(serde_json::Value);

#[verifier::external_type_specification]
#[verifier::external_body]
#[verifier::reject_recursive_types(K)]
#[verifier::reject_recursive_types(V)]
pub struct ExObject<K, V>(serde_json::Map<K, V>);

/// What a `serde_json` value holds.
pub uninterp spec fn held(v: Value) -> JsonView;

/// What a `serde_json` object holds.
pub uninterp spec fn members(m: serde_json::Map<String, Value>) -> Map<Seq<char>, JsonView>;

/// The integer that a `serde_json` number is, if it is one.
pub uninterp spec fn integer_of(n: serde_json::Number) -> Option<int>;

/// The document that `serde_json` reads from bytes, where they are one.
pub uninterp spec fn parsed(bytes: Seq<u8>) -> Option<JsonView>;

/// The bytes that `serde_json` writes for a document.
pub uninterp spec fn printed(v: JsonView) -> Seq<u8>;

/// The outermost layer of a value.
pub enum Parts {
    Null,
    Bool(bool),
    Number(serde_json::Number),
    Str(String),
    Array(Vec<Value>),
    Object(Vec<(String, Value)>),
}

/// What a number says: an integer by its value, and any other number by itself.
pub open spec fn number_view(n: serde_json::Number) -> JsonView {
    match integer_of(n) {
        Some(k) => JsonView::Int(k),
        None => JsonView::Other(n),
    }
}

/// What each of several values holds.
pub open spec fn held_by(vs: Seq<Value>) -> Seq<JsonView> {
    Seq::new(vs.len(), |i: int| held(vs[i]))
}

/// What named values hold, one name each.
pub open spec fn held_under(es: Seq<(String, Value)>) -> Map<Seq<char>, JsonView>
    decreases es.len(),
{
    if es.len() == 0 {
        Map::empty()
    } else {
        held_under(es.drop_last()).insert(es.last().0@, held(es.last().1))
    }
}

impl Parts {
    /// No name occurs twice.
    pub open spec fn distinct(&self) -> bool {
        match self {
            Parts::Object(es) => forall|i: int, j: int|
                0 <= i < j < es@.len() ==> (#[trigger] es@[i]).0@ != (#[trigger] es@[j]).0@,
            _ => true,
        }
    }

    /// What a value with this outermost layer holds.
    pub open spec fn view(&self) -> JsonView {
        match self {
            Parts::Null => JsonView::Null,
            Parts::Bool(b) => JsonView::Bool(*b),
            Parts::Number(n) => number_view(*n),
            Parts::Str(s) => JsonView::Str(s@),
            Parts::Array(vs) => JsonView::Array(held_by(vs@)),
            Parts::Object(es) => JsonView::Object(held_under(es@)),
        }
    }
}

/// `serde_json::from_slice` into a `Value`, an error being none: it depends on the bytes alone.
#[verifier::external_body]
fn parse_value(bytes: &[u8]) -> (r: Option<Value>)
    ensures
        match r {
            Some(v) => parsed(bytes@) == Some(held(v)),
            None => parsed(bytes@) is None,
        },
{
    serde_json::from_slice(bytes).ok()
}

/// `serde_json::to_vec` of a `Value`: it depends on what the value holds alone, and it fails on
/// none, since every key is a text.
#[verifier::external_body]
fn print_value(v: &Value) -> (r: Vec<u8>)
    ensures
        r@ == printed(held(*v)),
{
    serde_json::to_vec(v).expect("every key is a text")
}

/// Takes a `serde_json::Value` apart by its variant. An object hands out each of its members once.
#[verifier::external_body]
fn split_value(v: Value) -> (r: Parts)
    ensures
        held(v) == r.view(),
        r.distinct(),
{
    match v {
        Value::Null => Parts::Null,
        Value::Bool(b) => Parts::Bool(b),
        Value::Number(n) => Parts::Number(n),
        Value::String(s) => Parts::Str(s),
        Value::Array(vs) => Parts::Array(vs),
        Value::Object(m) => Parts::Object(m.into_iter().collect()),
    }
}

/// Puts a `serde_json::Value` together that is no object, by its variant.
#[verifier::external_body]
fn make_value(p: Parts) -> (r: Value)
    requires
        !(p is Object),
    ensures
        held(r) == p.view(),
{
    match p {
        Parts::Null => Value::Null,
        Parts::Bool(b) => Value::Bool(b),
        Parts::Number(n) => Value::Number(n),
        Parts::Str(s) => Value::String(s),
        Parts::Array(vs) => Value::Array(vs),
        Parts::Object(es) => Value::Object(es.into_iter().collect()),
    }
}

/// `Value::Object` of a `serde_json::Map`.
#[verifier::external_body]
fn make_object(m: serde_json::Map<String, Value>) -> (r: Value)
    ensures
        held(r) == JsonView::Object(members(m)),
{
    Value::Object(m)
}

/// `serde_json::Map::new`: an object without members.
#[verifier::external_body]
fn new_members() -> (m: serde_json::Map<String, Value>)
    ensures
        members(m) == held_under(Seq::empty()),
{
    serde_json::Map::new()
}

/// `serde_json::Map::insert`: the key leads to the value from then on, whether it was there or
/// not, and no other key is touched.
#[verifier::external_body]
fn insert_member(m: &mut serde_json::Map<String, Value>, key: String, v: Value)
    ensures
        members(*final(m)) == members(*old(m)).insert(key@, held(v)),
{
    m.insert(key, v);
}

/// `serde_json::Number::as_u64`: the integer that a number is, if it is one and fits.
#[verifier::external_body]
fn number_u64(n: &serde_json::Number) -> (r: Option<u64>)
    ensures
        r == number_view(*n).as_u64(),
{
    n.as_u64()
}

/// `serde_json::Number::as_i64`: the integer that a number is, if it is one and fits.
#[verifier::external_body]
fn number_i64(n: &serde_json::Number) -> (r: Option<i64>)
    ensures
        r == number_view(*n).as_i64(),
{
    n.as_i64()
}

/// `serde_json::Number::from` of an unsigned integer: the number that it is.
#[verifier::external_body]
fn unsigned_number(n: u64) -> (r: serde_json::Number)
    ensures
        integer_of(r) == Some(n as int),
{
    serde_json::Number::from(n)
}

/// `serde_json::Number::from` of a signed integer: the number that it is.
#[verifier::external_body]
fn signed_number(n: i64) -> (r: serde_json::Number)
    ensures
        integer_of(r) == Some(n as int),
{
    serde_json::Number::from(n)
}

/// `serde_json::Number::clone`: the same number.
#[verifier::external_body]
fn copy_number(n: &serde_json::Number) -> (r: serde_json::Number)
    ensures
        r == *n,
{
    n.clone()
}

// ---------------------------------------------------------------------------------------------
// The tree
// ---------------------------------------------------------------------------------------------
/// A JSON number: an integer of 64 bits, or any number as `serde_json` holds it.
#[derive(Debug, PartialEq)]
pub enum Num {
    Unsigned(u64),
    Signed(i64),
    Other(serde_json::Number),
}

/// A JSON document. Where an object lists a key more than once, the last entry counts.
#[derive(Debug, PartialEq)]
pub enum Json {
    Null,
    Bool(bool),
    Num(Num),
    Str(String),
    Array(Vec<Json>),
    Object(Vec<(String, Json)>),
}

/// What a JSON document says.
pub enum JsonView {
    Null,
    Bool(bool),
    Int(int),
    Other(serde_json::Number),
    Str(Seq<char>),
    Array(Seq<JsonView>),
    Object(Map<Seq<char>, JsonView>),
}

/// What the items of an array say.
pub open spec fn items_view(items: Seq<Json>) -> Seq<JsonView>
    decreases items,
{
    if items.len() == 0 {
        Seq::empty()
    } else {
        items_view(items.drop_last()).push(items.last().view())
    }
}

/// What the entries of an object say.
pub open spec fn entries_view(entries: Seq<(String, Json)>) -> Map<Seq<char>, JsonView>
    decreases entries,
{
    if entries.len() == 0 {
        Map::empty()
    } else {
        entries_view(entries.drop_last()).insert(entries.last().0@, entries.last().1.view())
    }
}

impl Json {
    pub open spec fn view(&self) -> JsonView
        decreases self,
    {
        match self {
            Json::Null => JsonView::Null,
            Json::Bool(b) => JsonView::Bool(*b),
            Json::Num(Num::Unsigned(n)) => JsonView::Int(*n as int),
            Json::Num(Num::Signed(n)) => JsonView::Int(*n as int),
            Json::Num(Num::Other(n)) => number_view(*n),
            Json::Str(s) => JsonView::Str(s@),
            Json::Array(items) => JsonView::Array(items_view(items@)),
            Json::Object(entries) => JsonView::Object(entries_view(entries@)),
        }
    }
}

impl JsonView {
    /// The member of an object that a key names.
    pub open spec fn get(self, key: Seq<char>) -> Option<JsonView> {
        match self {
            JsonView::Object(m) => if m.contains_key(key) {
                Some(m[key])
            } else {
                None
            },
            _ => None,
        }
    }

    /// The member that two keys lead to.
    pub open spec fn get2(self, a: Seq<char>, b: Seq<char>) -> Option<JsonView> {
        match self.get(a) {
            Some(v) => v.get(b),
            None => None,
        }
    }

    /// The member that three keys lead to.
    pub open spec fn get3(self, a: Seq<char>, b: Seq<char>, c: Seq<char>) -> Option<JsonView> {
        match self.get2(a, b) {
            Some(v) => v.get(c),
            None => None,
        }
    }

    pub open spec fn as_str(self) -> Option<Seq<char>> {
        match self {
            JsonView::Str(s) => Some(s),
            _ => None,
        }
    }

    pub open spec fn as_bool(self) -> Option<bool> {
        match self {
            JsonView::Bool(b) => Some(b),
            _ => None,
        }
    }

    pub open spec fn as_u64(self) -> Option<u64> {
        match self {
            JsonView::Int(n) => if 0 <= n <= u64::MAX {
                Some(n as u64)
            } else {
                None
            },
            _ => None,
        }
    }

    pub open spec fn as_i64(self) -> Option<i64> {
        match self {
            JsonView::Int(n) => if i64::MIN <= n <= i64::MAX {
                Some(n as i64)
            } else {
                None
            },
            _ => None,
        }
    }

    pub open spec fn as_array(self) -> Option<Seq<JsonView>> {
        match self {
            JsonView::Array(items) => Some(items),
            _ => None,
        }
    }
}

/// The text of an optional member.
pub open spec fn str_in(v: Option<JsonView>) -> Option<Seq<char>> {
    match v {
        Some(v) => v.as_str(),
        None => None,
    }
}

/// The unsigned number of an optional member.
pub open spec fn u64_in(v: Option<JsonView>) -> Option<u64> {
    match v {
        Some(v) => v.as_u64(),
        None => None,
    }
}

/// The number of an optional member.
pub open spec fn i64_in(v: Option<JsonView>) -> Option<i64> {
    match v {
        Some(v) => v.as_i64(),
        None => None,
    }
}

/// The items of an optional member.
pub open spec fn array_in(v: Option<JsonView>) -> Option<Seq<JsonView>> {
    match v {
        Some(v) => v.as_array(),
        None => None,
    }
}

/// What an optional document says.
pub open spec fn ref_view(v: Option<&Json>) -> Option<JsonView> {
    match v {
        Some(v) => Some(v@),
        None => None,
    }
}

/// What an optional document says.
pub open spec fn option_view(v: Option<Json>) -> Option<JsonView> {
    match v {
        Some(v) => Some(v@),
        None => None,
    }
}

/// What an optional text spells.
pub open spec fn text_view(s: Option<String>) -> Option<Seq<char>> {
    match s {
        Some(s) => Some(s@),
        None => None,
    }
}

/// What an optional text spells.
pub open spec fn str_view(s: Option<&str>) -> Option<Seq<char>> {
    match s {
        Some(s) => Some(s@),
        None => None,
    }
}

pub broadcast proof fn lemma_items_view(items: Seq<Json>)
    ensures
        (#[trigger] items_view(items)).len() == items.len(),
        forall|i: int| 0 <= i < items.len() ==> #[trigger] items_view(items)[i] == items[i]@,
    decreases items.len(),
{
    if items.len() > 0 {
        lemma_items_view(items.drop_last());
        assert forall|i: int| 0 <= i < items.len() implies #[trigger] items_view(items)[i]
            == items[i]@ by {
            if i < items.len() - 1 {
                assert(items.drop_last()[i] == items[i]);
            }
        }
    }
}

/// Whether a later entry has the key of an entry, so that it does not count.
pub open spec fn shadowed(entries: Seq<(String, Json)>, i: int) -> bool {
    exists|j: int| i < j < entries.len() && (#[trigger] entries[j]).0@ == entries[i].0@
}

proof fn lemma_entries_absent(entries: Seq<(String, Json)>, key: Seq<char>)
    requires
        forall|i: int| 0 <= i < entries.len() ==> (#[trigger] entries[i]).0@ != key,
    ensures
        !entries_view(entries).contains_key(key),
    decreases entries.len(),
{
    if entries.len() > 0 {
        assert forall|i: int| 0 <= i < entries.drop_last().len() implies (
        #[trigger] entries.drop_last()[i]).0@ != key by {
            assert(entries.drop_last()[i] == entries[i]);
        }
        assert(entries[entries.len() - 1].0@ != key);
        lemma_entries_absent(entries.drop_last(), key);
    }
}

/// The last entry with a key is the one that counts.
pub proof fn lemma_entries_last(entries: Seq<(String, Json)>, k: int)
    requires
        0 <= k < entries.len(),
        !shadowed(entries, k),
    ensures
        entries_view(entries).contains_key(entries[k].0@),
        entries_view(entries)[entries[k].0@] == entries[k].1@,
    decreases entries.len(),
{
    let n = entries.len() - 1;
    if k < n {
        assert(entries[n].0@ != entries[k].0@);
        assert forall|i: int| k < i < entries.drop_last().len() implies (
        #[trigger] entries.drop_last()[i]).0@ != entries.drop_last()[k].0@ by {
            assert(entries.drop_last()[i] == entries[i]);
        }
        lemma_entries_last(entries.drop_last(), k);
    }
}

/// Every key of an object comes from an entry that counts.
pub proof fn lemma_entries_key(entries: Seq<(String, Json)>, key: Seq<char>) -> (k: int)
    requires
        entries_view(entries).contains_key(key),
    ensures
        0 <= k < entries.len(),
        entries[k].0@ == key,
        !shadowed(entries, k),
    decreases entries.len(),
{
    let n = entries.len() - 1;
    if entries[n].0@ == key {
        n
    } else {
        let front = entries.drop_last();
        let k = lemma_entries_key(front, key);
        assert forall|j: int| k < j < entries.len() implies (#[trigger] entries[j]).0@
            != entries[k].0@ by {
            if j < n {
                assert(front[j] == entries[j]);
            }
        }
        k
    }
}

/// Overwriting the last entry with a key overwrites what the object says of it.
proof fn lemma_entries_update(entries: Seq<(String, Json)>, k: int, e: (String, Json))
    requires
        0 <= k < entries.len(),
        e.0@ == entries[k].0@,
        forall|i: int| k < i < entries.len() ==> (#[trigger] entries[i]).0@ != e.0@,
    ensures
        entries_view(entries.update(k, e)) == entries_view(entries).insert(e.0@, e.1@),
    decreases entries.len(),
{
    let n = entries.len() - 1;
    let after = entries.update(k, e);
    if k == n {
        assert(after.drop_last() =~= entries.drop_last());
        assert(entries_view(after) =~= entries_view(entries).insert(e.0@, e.1@));
    } else {
        assert(entries[n].0@ != e.0@);
        assert(after.drop_last() =~= entries.drop_last().update(k, e));
        assert forall|i: int| k < i < entries.drop_last().len() implies (
        #[trigger] entries.drop_last()[i]).0@ != e.0@ by {
            assert(entries.drop_last()[i] == entries[i]);
        }
        lemma_entries_update(entries.drop_last(), k, e);
        assert(entries_view(after) =~= entries_view(entries).insert(e.0@, e.1@));
    }
}

// ---------------------------------------------------------------------------------------------
// Reading
// ---------------------------------------------------------------------------------------------
impl Json {
    /// The member of an object that a key names.
    pub fn get(&self, key: &str) -> (r: Option<&Json>)
        ensures
            ref_view(r) == self@.get(key@),
    {
        match self {
            Json::Object(entries) => {
                let mut i: usize = entries.len();
                while i > 0
                    invariant
                        i <= entries.len(),
                        self matches Json::Object(es) && *es == *entries,
                        forall|k: int|
                            i <= k < entries.len() ==> (#[trigger] entries@[k]).0@ != key@,
                    decreases i,
                {
                    i -= 1;
                    if same_text(entries[i].0.as_str(), key) {
                        proof {
                            assert(!shadowed(entries@, i as int));
                            lemma_entries_last(entries@, i as int);
                        }
                        return Some(&entries[i].1);
                    }
                }
                proof {
                    lemma_entries_absent(entries@, key@);
                }
                None
            },
            _ => None,
        }
    }

    /// The member that two keys lead to.
    pub fn get2(&self, a: &str, b: &str) -> (r: Option<&Json>)
        ensures
            ref_view(r) == self@.get2(a@, b@),
    {
        match self.get(a) {
            Some(v) => v.get(b),
            None => None,
        }
    }

    /// The member that three keys lead to.
    pub fn get3(&self, a: &str, b: &str, c: &str) -> (r: Option<&Json>)
        ensures
            ref_view(r) == self@.get3(a@, b@, c@),
    {
        match self.get2(a, b) {
            Some(v) => v.get(c),
            None => None,
        }
    }

    pub fn as_str(&self) -> (r: Option<&str>)
        ensures
            str_view(r) == self@.as_str(),
    {
        match self {
            Json::Str(s) => Some(s.as_str()),
            _ => None,
        }
    }

    pub fn as_bool(&self) -> (r: Option<bool>)
        ensures
            r == self@.as_bool(),
    {
        match self {
            Json::Bool(b) => Some(*b),
            _ => None,
        }
    }

    pub fn as_u64(&self) -> (r: Option<u64>)
        ensures
            r == self@.as_u64(),
    {
        match self {
            Json::Num(Num::Unsigned(n)) => Some(*n),
            Json::Num(Num::Signed(n)) => if *n >= 0 {
                Some(*n as u64)
            } else {
                None
            },
            Json::Num(Num::Other(n)) => number_u64(n),
            _ => None,
        }
    }

    pub fn as_i64(&self) -> (r: Option<i64>)
        ensures
            r == self@.as_i64(),
    {
        match self {
            Json::Num(Num::Unsigned(n)) => if *n <= i64::MAX as u64 {
                Some(*n as i64)
            } else {
                None
            },
            Json::Num(Num::Signed(n)) => Some(*n),
            Json::Num(Num::Other(n)) => number_i64(n),
            _ => None,
        }
    }

    pub fn as_array(&self) -> (r: Option<&Vec<Json>>)
        ensures
            match r {
                Some(items) => self@.as_array() == Some(items_view(items@)),
                None => self@.as_array() is None,
            },
    {
        match self {
            Json::Array(items) => Some(items),
            _ => None,
        }
    }

    pub fn is_null(&self) -> (r: bool)
        ensures
            r == (self@ == JsonView::Null),
    {
        match self {
            Json::Null => true,
            _ => false,
        }
    }

    pub fn is_object(&self) -> (r: bool)
        ensures
            r == (self@ is Object),
    {
        match self {
            Json::Object(_) => true,
            _ => false,
        }
    }

    /// A second copy of the document.
    pub fn copy(&self) -> (r: Json)
        ensures
            r@ == self@,
        decreases self,
    {
        match self {
            Json::Null => Json::Null,
            Json::Bool(b) => Json::Bool(*b),
            Json::Num(n) => Json::Num(n.copy()),
            Json::Str(s) => Json::Str(s.clone()),
            Json::Array(items) => Json::Array(copy_items(items)),
            Json::Object(entries) => {
                let mut out: Vec<(String, Json)> = Vec::new();
                let mut i: usize = 0;
                while i < entries.len()
                    invariant
                        i <= entries.len(),
                        self matches Json::Object(es) && *es == *entries,
                        entries_view(out@) == entries_view(entries@.take(i as int)),
                    decreases entries.len() - i,
                {
                    let ghost before = out@;
                    out.push((entries[i].0.clone(), entries[i].1.copy()));
                    i += 1;
                    assert(out@.drop_last() =~= before);
                    assert(entries@.take(i as int).drop_last() =~= entries@.take(i as int - 1));
                }
                assert(entries@.take(i as int) =~= entries@);
                Json::Object(out)
            },
        }
    }
}

impl Num {
    pub fn copy(&self) -> (r: Num)
        ensures
            r == *self,
    {
        match self {
            Num::Unsigned(n) => Num::Unsigned(*n),
            Num::Signed(n) => Num::Signed(*n),
            Num::Other(n) => Num::Other(copy_number(n)),
        }
    }
}

// ---------------------------------------------------------------------------------------------
// Bytes
// ---------------------------------------------------------------------------------------------
proof fn lemma_held_under(es: Seq<(String, Value)>, i: int)
    requires
        0 <= i < es.len(),
        forall|i: int, j: int|
            0 <= i < j < es.len() ==> (#[trigger] es[i]).0@ != (#[trigger] es[j]).0@,
    ensures
        held_under(es).dom().finite(),
        held_under(es).contains_key(es[i].0@),
        held_under(es)[es[i].0@] == held(es[i].1),
    decreases es.len(),
{
    let n = es.len() - 1;
    let front = es.drop_last();
    assert forall|i: int, j: int| 0 <= i < j < front.len() implies (#[trigger] front[i]).0@ != (
    #[trigger] front[j]).0@ by {
        assert(front[i] == es[i] && front[j] == es[j]);
    }
    if n > 0 {
        lemma_held_under(front, if i < n { i } else { 0 });
    }
    if i < n {
        assert(front[i] == es[i]);
        assert(es[i].0@ != es[n].0@);
    }
}

/// A number, by its value where it is an integer.
fn from_number(n: serde_json::Number) -> (r: Num)
    ensures
        Json::Num(r)@ == number_view(n),
{
    match (number_u64(&n), number_i64(&n)) {
        (Some(u), _) => Num::Unsigned(u),
        (None, Some(i)) => Num::Signed(i),
        (None, None) => Num::Other(n),
    }
}

/// The tree of a value.
fn from_value(v: Value) -> (r: Json)
    ensures
        r@ == held(v),
    decreases held(v),
{
    match split_value(v) {
        Parts::Null => Json::Null,
        Parts::Bool(b) => Json::Bool(b),
        Parts::Number(n) => Json::Num(from_number(n)),
        Parts::Str(s) => Json::Str(s),
        Parts::Array(vs) => {
            let mut out: Vec<Json> = Vec::new();
            let ghost all = vs@;
            for item in it: vs
                invariant
                    it.seq() == all,
                    out.len() == it.index(),
                    forall|k: int| 0 <= k < out.len() ==> (#[trigger] out@[k])@ == held(all[k]),
                    held(v) == JsonView::Array(held_by(all)),
            {
                assert(decreases_to!(held(v) => held(v)->Array_0[it.index()]));
                out.push(from_value(item));
            }
            proof {
                lemma_items_view(out@);
                assert(items_view(out@) =~= held_by(all));
            }
            Json::Array(out)
        },
        Parts::Object(es) => {
            let mut out: Vec<(String, Json)> = Vec::new();
            let ghost all = es@;
            for e in it: es
                invariant
                    it.seq() == all,
                    entries_view(out@) == held_under(all.take(it.index())),
                    held(v) == JsonView::Object(held_under(all)),
                    forall|i: int, j: int|
                        0 <= i < j < all.len() ==> (#[trigger] all[i]).0@ != (#[trigger] all[j]).0@,
            {
                proof {
                    lemma_held_under(all, it.index());
                    assert(decreases_to!(held(v) => held(v)->Object_0[e.0@]));
                }
                let ghost before = out@;
                out.push((e.0, from_value(e.1)));
                assert(out@.drop_last() =~= before);
                assert(all.take(it.index() + 1).drop_last() =~= all.take(it.index()));
            }
            assert(all.take(all.len() as int) =~= all);
            Json::Object(out)
        },
    }
}

/// The value of a tree.
fn to_value(j: &Json) -> (r: Value)
    ensures
        held(r) == j@,
    decreases j,
{
    match j {
        Json::Null => make_value(Parts::Null),
        Json::Bool(b) => make_value(Parts::Bool(*b)),
        Json::Num(Num::Unsigned(n)) => make_value(Parts::Number(unsigned_number(*n))),
        Json::Num(Num::Signed(n)) => make_value(Parts::Number(signed_number(*n))),
        Json::Num(Num::Other(n)) => make_value(Parts::Number(copy_number(n))),
        Json::Str(s) => make_value(Parts::Str(s.clone())),
        Json::Array(items) => {
            let mut out: Vec<Value> = Vec::new();
            let mut i: usize = 0;
            while i < items.len()
                invariant
                    i <= items.len(),
                    out.len() == i,
                    j matches Json::Array(all) && *all == *items,
                    forall|k: int| 0 <= k < out.len() ==> held(#[trigger] out@[k]) == items@[k]@,
                decreases items.len() - i,
            {
                out.push(to_value(&items[i]));
                i += 1;
            }
            proof {
                lemma_items_view(items@);
                assert(held_by(out@) =~= items_view(items@));
            }
            make_value(Parts::Array(out))
        },
        Json::Object(entries) => {
            let mut out = new_members();
            let mut i: usize = 0;
            while i < entries.len()
                invariant
                    i <= entries.len(),
                    j matches Json::Object(all) && *all == *entries,
                    members(out) == entries_view(entries@.take(i as int)),
                decreases entries.len() - i,
            {
                insert_member(&mut out, entries[i].0.clone(), to_value(&entries[i].1));
                i += 1;
                assert(entries@.take(i as int).drop_last() =~= entries@.take(i as int - 1));
            }
            assert(entries@.take(i as int) =~= entries@);
            make_object(out)
        },
    }
}

/// Reads a document from its bytes.
pub fn parse(bytes: &[u8]) -> (r: Option<Json>)
    ensures
        option_view(r) == parsed(bytes@),
{
    match parse_value(bytes) {
        Some(v) => Some(from_value(v)),
        None => None,
    }
}

impl Json {
    /// The bytes of a document.
    pub fn to_bytes(&self) -> (r: Vec<u8>)
        ensures
            r@ == printed(self@),
    {
        print_value(&to_value(self))
    }
}

// ---------------------------------------------------------------------------------------------
// Building
// ---------------------------------------------------------------------------------------------
impl Json {
    /// A text.
    pub fn text(s: &str) -> (r: Json)
        ensures
            r@ == JsonView::Str(s@),
    {
        Json::Str(s.to_string())
    }

    /// A number.
    pub fn number(n: u64) -> (r: Json)
        ensures
            r@ == JsonView::Int(n as int),
    {
        Json::Num(Num::Unsigned(n))
    }

    /// A number that may be below zero.
    pub fn signed(n: i64) -> (r: Json)
        ensures
            r@ == JsonView::Int(n as int),
    {
        Json::Num(Num::Signed(n))
    }

    /// An object without members.
    pub fn object() -> (r: Json)
        ensures
            r@ == JsonView::Object(Map::empty()),
    {
        Json::Object(Vec::new())
    }

    /// An array without items.
    pub fn array() -> (r: Json)
        ensures
            r@ == JsonView::Array(Seq::empty()),
    {
        Json::Array(Vec::new())
    }

    /// The object with a member set; anything else as it is.
    pub fn with(self, key: &str, value: Json) -> (r: Json)
        ensures
            r@ == self@.with(key@, value@),
    {
        let ghost before = self@;
        match self {
            Json::Object(es) => {
                let mut entries = es;
                let mut i: usize = entries.len();
                while i > 0
                    invariant
                        i <= entries.len(),
                        entries@ == es@,
                        before == JsonView::Object(entries_view(es@)),
                        before == self@,
                        forall|k: int|
                            i <= k < entries.len() ==> (#[trigger] entries@[k]).0@ != key@,
                    decreases i,
                {
                    i -= 1;
                    if same_text(entries[i].0.as_str(), key) {
                        let name = key.to_string();
                        proof {
                            lemma_entries_update(entries@, i as int, (name, value));
                        }
                        entries.set(i, (name, value));
                        return Json::Object(entries);
                    }
                }
                entries.push((key.to_string(), value));
                assert(entries@.drop_last() =~= es@);
                Json::Object(entries)
            },
            other => other,
        }
    }
}

impl JsonView {
    /// The object with a member set; anything else as it is.
    pub open spec fn with(self, key: Seq<char>, value: JsonView) -> JsonView {
        match self {
            JsonView::Object(m) => JsonView::Object(m.insert(key, value)),
            other => other,
        }
    }
}

/// A second copy of the items of an array.
pub fn copy_items(items: &Vec<Json>) -> (out: Vec<Json>)
    ensures
        items_view(out@) == items_view(items@),
    decreases items,
{
    let mut out: Vec<Json> = Vec::new();
    let mut i: usize = 0;
    while i < items.len()
        invariant
            i <= items.len(),
            items_view(out@) == items_view(items@.take(i as int)),
        decreases items.len() - i,
    {
        let ghost before = out@;
        out.push(items[i].copy());
        i += 1;
        assert(out@.drop_last() =~= before);
        assert(items@.take(i as int).drop_last() =~= items@.take(i as int - 1));
    }
    assert(items@.take(i as int) =~= items@);
    out
}

/// Appends copies of items.
pub fn push_items(out: &mut Vec<Json>, items: &Vec<Json>)
    ensures
        items_view(final(out)@) == items_view(old(out)@) + items_view(items@),
{
    let mut i: usize = 0;
    assert(items@.take(0) =~= Seq::empty());
    assert(items_view(out@) =~= items_view(old(out)@) + items_view(items@.take(0)));
    while i < items.len()
        invariant
            i <= items.len(),
            items_view(out@) == items_view(old(out)@) + items_view(items@.take(i as int)),
        decreases items.len() - i,
    {
        let ghost before = out@;
        out.push(items[i].copy());
        i += 1;
        assert(out@.drop_last() =~= before);
        assert(items@.take(i as int).drop_last() =~= items@.take(i as int - 1));
        assert(items_view(out@) =~= items_view(old(out)@) + items_view(items@.take(i as int)));
    }
    assert(items@.take(i as int) =~= items@);
}

// ---------------------------------------------------------------------------------------------
// Laws
// ---------------------------------------------------------------------------------------------
/// A member that is set is found under its key, and the others stay; keys one behind the other lead
/// from member to member.
pub proof fn law_members_are_found(
    v: JsonView,
    key: Seq<char>,
    value: JsonView,
    other: Seq<char>,
    third: Seq<char>,
)
    ensures
        v is Object ==> v.with(key, value).get(key) == Some(value),
        v is Object && other != key ==> v.with(key, value).get(other) == v.get(other),
        !(v is Object) ==> v.get(key) is None && v.with(key, value) == v,
        v.get(key) is None ==> v.get2(key, other) is None && v.get3(key, other, third) is None,
        v.get(key) is Some ==> v.get2(key, other) == v.get(key)->0.get(other),
        v.get2(key, other) is Some ==> v.get3(key, other, third) == v.get2(key, other)->0.get(third),
        v.get2(key, other) is None ==> v.get3(key, other, third) is None,
{
}

/// A number is read where it is an integer and fits, and a text, a truth value and a list where
/// they are one.
pub proof fn law_values_are_read(n: int, s: Seq<char>, b: bool, items: Seq<JsonView>)
    ensures
        JsonView::Int(n).as_u64() == if 0 <= n <= u64::MAX {
            Some(n as u64)
        } else {
            None
        },
        JsonView::Int(n).as_i64() == if i64::MIN <= n <= i64::MAX {
            Some(n as i64)
        } else {
            None
        },
        JsonView::Str(s).as_str() == Some(s),
        JsonView::Bool(b).as_bool() == Some(b),
        JsonView::Array(items).as_array() == Some(items),
        JsonView::Str(s).as_u64() is None && JsonView::Bool(b).as_u64() is None,
        JsonView::Int(n).as_str() is None && JsonView::Null.as_str() is None,
        JsonView::Int(n).as_bool() is None && JsonView::Null.as_bool() is None,
{
}

} // verus!
