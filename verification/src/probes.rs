//! The goals that the server was asked for, kept for each version of a document. The cache of a
//! document holds a limited number of them and gives up the one that was not used for the longest
//! time.
use crate::json::{option_view, Json, JsonView};
use crate::text_map::TextMap;
use lru::{DefaultHasher, LruCache};
use std::num::NonZeroUsize;
use vstd::prelude::*;

verus! {

/// A line and a column.
pub type ProbeKey = (u64, u64);

/// How many goals are kept for a document.
pub const MAX_CACHE_ENTRIES_PER_FILE: usize = 2048;

// ---------------------------------------------------------------------------------------------
// What comes from lru
// ---------------------------------------------------------------------------------------------
#[verifier::external_type_specification]
#[verifier::external_body]
#[verifier::reject_recursive_types(K)]
#[verifier::reject_recursive_types(V)]
#[verifier::reject_recursive_types(S)]
pub struct ExLruCache<K, V, S>(lru::LruCache<K, V, S>);

#[verifier::external_type_specification]
#[verifier::external_body]
pub struct ExDefaultHasher(lru::DefaultHasher);

/// What a cache holds, the entry that was used last in front.
pub uninterp spec fn entries_of(
    cache: LruCache<ProbeKey, Option<Json>, DefaultHasher>,
) -> Seq<(ProbeKey, Option<JsonView>)>;

/// How many entries a cache can hold.
pub uninterp spec fn capacity_of(cache: LruCache<ProbeKey, Option<Json>, DefaultHasher>) -> nat;

/// The value under a key.
pub open spec fn value_at(entries: Seq<(ProbeKey, Option<JsonView>)>, key: ProbeKey) -> Option<
    Option<JsonView>,
>
    decreases entries.len(),
{
    if entries.len() == 0 {
        None
    } else if entries[0].0 == key {
        Some(entries[0].1)
    } else {
        value_at(entries.drop_first(), key)
    }
}

/// The entries under other keys, in the same order.
pub open spec fn others(entries: Seq<(ProbeKey, Option<JsonView>)>, key: ProbeKey) -> Seq<
    (ProbeKey, Option<JsonView>),
>
    decreases entries.len(),
{
    if entries.len() == 0 {
        Seq::empty()
    } else if entries[0].0 == key {
        others(entries.drop_first(), key)
    } else {
        seq![entries[0]] + others(entries.drop_first(), key)
    }
}

/// The entries after one was used: it comes to the front.
pub open spec fn used(entries: Seq<(ProbeKey, Option<JsonView>)>, key: ProbeKey) -> Seq<
    (ProbeKey, Option<JsonView>),
> {
    match value_at(entries, key) {
        Some(v) => seq![(key, v)] + others(entries, key),
        None => entries,
    }
}

/// The first entries, as many as there is room for.
pub open spec fn at_most(entries: Seq<(ProbeKey, Option<JsonView>)>, room: int) -> Seq<
    (ProbeKey, Option<JsonView>),
> {
    if entries.len() <= room {
        entries
    } else {
        entries.take(room)
    }
}

/// The entries after one was put in: it comes to the front, and where there is no room the one
/// that was not used for the longest time goes.
pub open spec fn put_in(
    entries: Seq<(ProbeKey, Option<JsonView>)>,
    capacity: nat,
    key: ProbeKey,
    value: Option<JsonView>,
) -> Seq<(ProbeKey, Option<JsonView>)> {
    seq![(key, value)] + at_most(others(entries, key), capacity - 1)
}

/// No entries.
pub open spec fn no_entries() -> Seq<(ProbeKey, Option<JsonView>)> {
    Seq::empty()
}

/// `LruCache::new`: a cache without entries, with room for a number of them. The room is set aside
/// at once, so there is no more of it than a document needs.
#[verifier::external_body]
fn lru_new(capacity: usize) -> (r: LruCache<ProbeKey, Option<Json>, DefaultHasher>)
    requires
        0 < capacity <= MAX_CACHE_ENTRIES_PER_FILE,
    ensures
        entries_of(r) == no_entries(),
        capacity_of(r) == capacity,
{
    LruCache::new(NonZeroUsize::new(capacity).expect("there is room"))
}

/// `LruCache::get`, with a copy of the value that it refers to: the entry under a key, which then
/// counts as the one that was used last.
#[verifier::external_body]
fn lru_get(cache: &mut LruCache<ProbeKey, Option<Json>, DefaultHasher>, key: ProbeKey) -> (r:
    Option<Option<Json>>)
    ensures
        entries_of(*final(cache)) == used(entries_of(*old(cache)), key),
        capacity_of(*final(cache)) == capacity_of(*old(cache)),
        found_view(r) == value_at(entries_of(*old(cache)), key),
{
    cache.get(&key).map(copy_value)
}

/// `LruCache::put`: sets the value under a key, which then counts as the one that was used last.
/// Where there is no room for another key, the entry that was not used for the longest time goes.
#[verifier::external_body]
fn lru_put(
    cache: &mut LruCache<ProbeKey, Option<Json>, DefaultHasher>,
    key: ProbeKey,
    value: Option<Json>,
)
    ensures
        entries_of(*final(cache)) == put_in(
            entries_of(*old(cache)),
            capacity_of(*old(cache)),
            key,
            option_view(value),
        ),
        capacity_of(*final(cache)) == capacity_of(*old(cache)),
{
    cache.put(key, value);
}

/// What a value that was found says.
pub open spec fn found_view(r: Option<Option<Json>>) -> Option<Option<JsonView>> {
    match r {
        Some(v) => Some(option_view(v)),
        None => None,
    }
}

/// A second copy of a value.
pub fn copy_value(v: &Option<Json>) -> (r: Option<Json>)
    ensures
        option_view(r) == option_view(*v),
{
    match v {
        Some(v) => Some(v.copy()),
        None => None,
    }
}

// ---------------------------------------------------------------------------------------------
// The caches of the documents
// ---------------------------------------------------------------------------------------------
/// The goals of a version of a document.
pub struct FileCache {
    version: i64,
    entries: LruCache<ProbeKey, Option<Json>, DefaultHasher>,
}

/// The goals of a version of a document.
pub struct FileView {
    pub version: i64,
    pub entries: Seq<(ProbeKey, Option<JsonView>)>,
    pub capacity: nat,
}

/// A cache for a version of a document, without entries.
pub open spec fn empty_file(version: i64) -> FileView {
    FileView { version, entries: Seq::empty(), capacity: MAX_CACHE_ENTRIES_PER_FILE as nat }
}

impl FileCache {
    pub closed spec fn view(&self) -> FileView {
        FileView {
            version: self.version,
            entries: entries_of(self.entries),
            capacity: capacity_of(self.entries),
        }
    }

    pub fn new(version: i64) -> (r: FileCache)
        ensures
            r.view() == empty_file(version),
    {
        FileCache { version, entries: lru_new(MAX_CACHE_ENTRIES_PER_FILE) }
    }
}

/// The goals of the documents.
pub struct ProbeCache {
    files: TextMap<FileCache>,
}

impl View for ProbeCache {
    type V = Map<Seq<char>, FileView>;

    closed spec fn view(&self) -> Map<Seq<char>, FileView> {
        self.files@.map_values(|f: FileCache| f.view())
    }
}

/// Whether goals of a version of a document are kept.
pub open spec fn has_version(
    files: Map<Seq<char>, FileView>,
    uri: Seq<char>,
    version: i64,
) -> bool {
    files.contains_key(uri) && files[uri].version == version
}

/// The goal at a position in a version of a document, if it is kept.
pub open spec fn kept(
    files: Map<Seq<char>, FileView>,
    uri: Seq<char>,
    version: i64,
    key: ProbeKey,
) -> Option<Option<JsonView>> {
    if has_version(files, uri, version) {
        value_at(files[uri].entries, key)
    } else {
        None
    }
}

/// The caches after a goal was looked up.
pub open spec fn after_lookup(
    files: Map<Seq<char>, FileView>,
    uri: Seq<char>,
    version: i64,
    key: ProbeKey,
) -> Map<Seq<char>, FileView> {
    if has_version(files, uri, version) {
        files.insert(uri, FileView { entries: used(files[uri].entries, key), ..files[uri] })
    } else {
        files
    }
}

/// The caches after a goal was put in. Those of another version of the document go.
pub open spec fn after_store(
    files: Map<Seq<char>, FileView>,
    uri: Seq<char>,
    version: i64,
    key: ProbeKey,
    value: Option<JsonView>,
) -> Map<Seq<char>, FileView> {
    let file = if has_version(files, uri, version) {
        files[uri]
    } else {
        empty_file(version)
    };
    files.insert(
        uri,
        FileView { entries: put_in(file.entries, file.capacity, key, value), ..file },
    )
}

impl ProbeCache {
    pub fn new() -> (r: ProbeCache)
        ensures
            r@ == Map::<Seq<char>, FileView>::empty(),
    {
        let r = ProbeCache { files: TextMap::new() };
        assert(r@ =~= Map::empty());
        r
    }

    /// Forgets the goals of a document that was closed.
    pub fn invalidate(&mut self, uri: &str)
        ensures
            final(self)@ == old(self)@.remove(uri@),
    {
        let _ = self.files.remove(uri);
        assert(self@ =~= old(self)@.remove(uri@));
    }

    /// The goal at a position in a version of a document, if it is kept.
    pub fn lookup(&mut self, uri: &str, version: i64, line: u64, character: u64) -> (r: Option<
        Option<Json>,
    >)
        ensures
            found_view(r) == kept(old(self)@, uri@, version, (line, character)),
            final(self)@ == after_lookup(old(self)@, uri@, version, (line, character)),
    {
        match self.files.remove(uri) {
            Some(file) => {
                let mut file = file;
                let r = if file.version == version {
                    lru_get(&mut file.entries, (line, character))
                } else {
                    None
                };
                let _ = self.files.insert(uri.to_string(), file);
                assert(self@ =~= after_lookup(old(self)@, uri@, version, (line, character)));
                r
            },
            None => {
                assert(self@ =~= old(self)@);
                None
            },
        }
    }

    /// Keeps the goal at a position in a version of a document.
    pub fn store(
        &mut self,
        uri: &str,
        version: i64,
        line: u64,
        character: u64,
        value: Option<Json>,
    )
        ensures
            final(self)@ == after_store(
                old(self)@,
                uri@,
                version,
                (line, character),
                option_view(value),
            ),
    {
        let mut file = match self.files.remove(uri) {
            Some(file) => if file.version == version {
                file
            } else {
                FileCache::new(version)
            },
            None => FileCache::new(version),
        };
        lru_put(&mut file.entries, (line, character), value);
        let _ = self.files.insert(uri.to_string(), file);
        assert(self@ =~= after_store(
            old(self)@,
            uri@,
            version,
            (line, character),
            option_view(value),
        ));
    }
}

/// A goal that was put in is found again, as long as the document keeps its version.
pub proof fn law_stored_goal_is_found(
    files: Map<Seq<char>, FileView>,
    uri: Seq<char>,
    version: i64,
    key: ProbeKey,
    value: Option<JsonView>,
)
    ensures
        kept(after_store(files, uri, version, key, value), uri, version, key) == Some(value),
{
}

/// A goal of one version of a document is never found for another.
pub proof fn law_goals_go_with_their_version(
    files: Map<Seq<char>, FileView>,
    uri: Seq<char>,
    version: i64,
    other: i64,
    key: ProbeKey,
    value: Option<JsonView>,
    asked: ProbeKey,
)
    requires
        other != version,
    ensures
        kept(after_store(files, uri, version, key, value), uri, other, asked) is None,
{
}

/// The cache of a document never holds more than it has room for.
pub proof fn law_cache_stays_in_bounds(
    files: Map<Seq<char>, FileView>,
    uri: Seq<char>,
    version: i64,
    key: ProbeKey,
    value: Option<JsonView>,
)
    requires
        files.contains_key(uri) ==> files[uri].capacity > 0,
    ensures
        ({
            let file = after_store(files, uri, version, key, value)[uri];
            file.entries.len() <= file.capacity
        }),
{
}

proof fn lemma_value_of_others(
    entries: Seq<(ProbeKey, Option<JsonView>)>,
    key: ProbeKey,
    other: ProbeKey,
)
    requires
        other != key,
    ensures
        value_at(others(entries, key), other) == value_at(entries, other),
        others(entries, key).len() <= entries.len(),
    decreases entries.len(),
{
    if entries.len() > 0 {
        let rest = entries.drop_first();
        lemma_value_of_others(rest, key, other);
        let all = others(entries, key);
        if entries[0].0 != key {
            assert(all.drop_first() =~= others(rest, key));
        }
    }
}

/// Looking a goal up, and putting one in where there is room, leave the other goals of the document
/// where they are, and every other document alone.
pub proof fn law_other_goals_stay(
    files: Map<Seq<char>, FileView>,
    uri: Seq<char>,
    version: i64,
    key: ProbeKey,
    value: Option<JsonView>,
    other: ProbeKey,
    other_uri: Seq<char>,
)
    requires
        other != key,
        other_uri != uri,
    ensures
        kept(after_lookup(files, uri, version, key), uri, version, other) == kept(
            files,
            uri,
            version,
            other,
        ),
        kept(after_lookup(files, uri, version, key), uri, version, key) == kept(
            files,
            uri,
            version,
            key,
        ),
        has_version(files, uri, version) && files[uri].entries.len() < files[uri].capacity ==> kept(
            after_store(files, uri, version, key, value),
            uri,
            version,
            other,
        ) == kept(files, uri, version, other),
        after_store(files, uri, version, key, value).contains_key(other_uri) == files.contains_key(
            other_uri,
        ),
        files.contains_key(other_uri) ==> after_store(files, uri, version, key, value)[other_uri]
            == files[other_uri],
        files.contains_key(other_uri) ==> after_lookup(files, uri, version, key)[other_uri]
            == files[other_uri],
{
    if has_version(files, uri, version) {
        let entries = files[uri].entries;
        lemma_value_of_others(entries, key, other);
        if let Some(v) = value_at(entries, key) {
            let now = seq![(key, v)] + others(entries, key);
            assert(now.drop_first() =~= others(entries, key));
        }
        let put = put_in(entries, files[uri].capacity, key, value);
        if entries.len() < files[uri].capacity {
            assert(put.drop_first() =~= others(entries, key));
        }
    }
}

/// Of a document there is room for 2048 goals, and a version that is new starts without any.
pub proof fn law_a_new_version_starts_empty(
    files: Map<Seq<char>, FileView>,
    uri: Seq<char>,
    version: i64,
    key: ProbeKey,
    value: Option<JsonView>,
)
    requires
        !(files.contains_key(uri) && files[uri].version == version),
    ensures
        ({
            let file = after_store(files, uri, version, key, value)[uri];
            &&& file.version == version
            &&& file.capacity == 2048
            &&& file.entries == seq![(key, value)]
        }),
        kept(files, uri, version, key) is None,
{
    let file = empty_file(version);
    assert(put_in(file.entries, file.capacity, key, value) =~= seq![(key, value)]);
}

} // verus!
