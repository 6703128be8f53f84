//! The store behind the commands: plain keys holding frames, and hash keys holding
//! tables of fields, each field holding a frame.
use vstd::prelude::*;
use dashmap::DashMap;
use crate::resp::frame::{FrameModel, RespFrame};

verus! {

#[verifier::external_type_specification]
#[verifier::external_body]
#[verifier::reject_recursive_types(K)]
#[verifier::reject_recursive_types(V)]
#[verifier::reject_recursive_types(S)]
pub struct ExDashMap<K, V, S>(DashMap<K, V, S>);

/// The entries of a table from text keys to frames.
pub uninterp spec fn frame_table(m: DashMap<String, RespFrame>) -> Map<Seq<char>, FrameModel>;

/// The entries of a table from text keys to tables, each inner table by its entries.
pub uninterp spec fn hash_tables(m: DashMap<String, DashMap<String, RespFrame>>) -> Map<
    Seq<char>,
    Map<Seq<char>, FrameModel>,
>;

/// The table stored under `k`, or an empty one when there is none.
pub open spec fn table_or_empty(
    tables: Map<Seq<char>, Map<Seq<char>, FrameModel>>,
    k: Seq<char>,
) -> Map<Seq<char>, FrameModel> {
    if tables.contains_key(k) {
        tables[k]
    } else {
        Map::empty()
    }
}

/// The value of an optional frame.
pub open spec fn frame_option(r: Option<RespFrame>) -> Option<FrameModel> {
    match r {
        Some(f) => Some(f.model()),
        None => None,
    }
}

/// The entry of `m` under `k`, if any.
pub open spec fn entry_of<V>(m: Map<Seq<char>, V>, k: Seq<char>) -> Option<V> {
    if m.contains_key(k) {
        Some(m[k])
    } else {
        None
    }
}

/// `DashMap::new` for a table of frames: the table is empty.
#[verifier::external_body]
fn new_frame_table() -> (r: DashMap<String, RespFrame>)
    ensures
        frame_table(r).dom() == Set::<Seq<char>>::empty(),
{
    DashMap::new()
}

/// `DashMap::new` for a table of tables: the table is empty.
#[verifier::external_body]
fn new_hash_tables() -> (r: DashMap<String, DashMap<String, RespFrame>>)
    ensures
        hash_tables(r).dom() == Set::<Seq<char>>::empty(),
{
    DashMap::new()
}

/// `DashMap::insert`: the key now holds the frame; every other entry stays. The
/// frame that was replaced, which the method hands back, is dropped.
#[verifier::external_body]
fn frame_table_insert(m: &mut DashMap<String, RespFrame>, key: String, value: RespFrame)
    ensures
        frame_table(*final(m)) == frame_table(*old(m)).insert(key@, value.model()),
{
    m.insert(key, value);
}

/// `DashMap::get`, the entry found copied out with `RespFrame::clone`: the frame
/// stored under the key, if any.
#[verifier::external_body]
fn frame_table_get(m: &DashMap<String, RespFrame>, key: &str) -> (r: Option<RespFrame>)
    ensures
        frame_option(r) == entry_of(frame_table(*m), key@),
{
    m.get(key).map(|v| v.value().clone())
}

/// `DashMap::get` on a table of tables, the inner table found copied out with
/// `DashMap::clone` (which copies each frame with `RespFrame::clone`).
#[verifier::external_body]
fn hash_tables_get(m: &DashMap<String, DashMap<String, RespFrame>>, key: &str) -> (r: Option<
    DashMap<String, RespFrame>,
>)
    ensures
        match r {
            Some(t) => hash_tables(*m).contains_key(key@) && frame_table(t) == hash_tables(
                *m,
            )[key@],
            None => !hash_tables(*m).contains_key(key@),
        },
{
    m.get(key).map(|t| t.value().clone())
}

/// `DashMap::get` on a table of tables, then `DashMap::get` on the inner table found,
/// the frame copied out with `RespFrame::clone`: the frame under `field` in the table
/// under `key`, if both are there.
#[verifier::external_body]
fn hash_tables_field(
    m: &DashMap<String, DashMap<String, RespFrame>>,
    key: &str,
    field: &str,
) -> (r: Option<RespFrame>)
    ensures
        frame_option(r) == (if hash_tables(*m).contains_key(key@) {
            entry_of(hash_tables(*m)[key@], field@)
        } else {
            None
        }),
{
    m.get(key)?.get(field).map(|v| v.value().clone())
}

/// `DashMap::entry` with `Entry::or_default` and `DashMap::insert` on the table found,
/// done while the entry holds its shard: the table under `key` (a new empty one when
/// there is none) now holds the frame under `field`; every other entry stays.
#[verifier::external_body]
fn hash_tables_set(
    m: &mut DashMap<String, DashMap<String, RespFrame>>,
    key: String,
    field: String,
    value: RespFrame,
)
    ensures
        hash_tables(*final(m)) == hash_tables(*old(m)).insert(
            key@,
            table_or_empty(hash_tables(*old(m)), key@).insert(field@, value.model()),
        ),
{
    m.entry(key).or_default().insert(field, value);
}

/// `DashMap::iter`, each entry copied out (the key with `String::clone`, the frame with
/// `RespFrame::clone`) and collected: every entry of the table once, in no promised
/// order.
#[verifier::external_body]
pub(crate) fn frame_table_entries(m: &DashMap<String, RespFrame>) -> (r: Vec<(String, RespFrame)>)
    ensures
        forall|i: int, j: int| 0 <= i < j < r@.len() ==> #[trigger] r@[i].0@ != #[trigger] r@[j].0@,
        forall|i: int|
            0 <= i < r@.len() ==> frame_table(*m).contains_key(#[trigger] r@[i].0@)
                && frame_table(*m)[r@[i].0@] == r@[i].1.model(),
        forall|k: Seq<char>|
            frame_table(*m).contains_key(k) ==> exists|i: int|
                0 <= i < r@.len() && #[trigger] r@[i].0@ == k,
{
    m.iter().map(|e| (e.key().clone(), e.value().clone())).collect()
}

/// The store's two tables.
#[derive(Debug)]
pub struct BackendInner {
    map: DashMap<String, RespFrame>,
    hmap: DashMap<String, DashMap<String, RespFrame>>,
}

/// The store.
#[derive(Debug)]
pub struct Backend(BackendInner);

/// The contents of the store: plain keys with their frames, and hash keys with
/// their tables of fields.
pub struct BackendModel {
    pub map: Map<Seq<char>, FrameModel>,
    pub hmap: Map<Seq<char>, Map<Seq<char>, FrameModel>>,
}

impl BackendModel {
    /// A store with nothing in it.
    pub open spec fn empty() -> BackendModel {
        BackendModel { map: Map::empty(), hmap: Map::empty() }
    }

    /// The frame stored under a plain key.
    pub open spec fn value(self, key: Seq<char>) -> Option<FrameModel> {
        entry_of(self.map, key)
    }

    /// The table stored under a hash key.
    pub open spec fn table(self, key: Seq<char>) -> Option<Map<Seq<char>, FrameModel>> {
        entry_of(self.hmap, key)
    }

    /// The frame stored under `field` in the table under `key`.
    pub open spec fn field(self, key: Seq<char>, field: Seq<char>) -> Option<FrameModel> {
        match self.table(key) {
            Some(t) => entry_of(t, field),
            None => None,
        }
    }

    /// The store after a plain key is set.
    pub open spec fn set(self, key: Seq<char>, value: FrameModel) -> BackendModel {
        BackendModel { map: self.map.insert(key, value), hmap: self.hmap }
    }

    /// The store after a field of a hash key is set.
    pub open spec fn hset(self, key: Seq<char>, field: Seq<char>, value: FrameModel) -> BackendModel {
        BackendModel {
            map: self.map,
            hmap: self.hmap.insert(key, table_or_empty(self.hmap, key).insert(field, value)),
        }
    }
}

impl View for BackendInner {
    type V = BackendModel;

    closed spec fn view(&self) -> BackendModel {
        BackendModel { map: frame_table(self.map), hmap: hash_tables(self.hmap) }
    }
}

impl View for Backend {
    type V = BackendModel;

    closed spec fn view(&self) -> BackendModel {
        self.0@
    }
}

impl BackendInner {
    /// Empty tables.
    fn new() -> (r: Self)
        ensures
            r@ == BackendModel::empty(),
    {
        let r = BackendInner { map: new_frame_table(), hmap: new_hash_tables() };
        assert(r@.map =~= Map::<Seq<char>, FrameModel>::empty());
        assert(r@.hmap =~= Map::<Seq<char>, Map<Seq<char>, FrameModel>>::empty());
        r
    }
}

impl Default for BackendInner {
    fn default() -> (r: Self)
        ensures
            r@ == BackendModel::empty(),
    {
        BackendInner::new()
    }
}

impl Default for Backend {
    fn default() -> (r: Self)
        ensures
            r@ == BackendModel::empty(),
    {
        Backend(BackendInner::new())
    }
}

impl core::ops::Deref for Backend {
    type Target = BackendInner;

    fn deref(&self) -> (r: &BackendInner)
        ensures
            r@ == self@,
    {
        &self.0
    }
}

impl Backend {
    /// An empty store.
    pub fn new() -> (r: Self)
        ensures
            r@ == BackendModel::empty(),
    {
        Backend(BackendInner::new())
    }

    /// Stores `value` under the plain key `key`.
    pub fn set(&mut self, key: String, value: RespFrame)
        ensures
            final(self)@ == old(self)@.set(key@, value.model()),
    {
        frame_table_insert(&mut self.0.map, key, value);
    }

    /// The frame stored under the plain key `key`, if any.
    pub fn get(&self, key: &str) -> (r: Option<RespFrame>)
        ensures
            frame_option(r) == self@.value(key@),
    {
        frame_table_get(&self.0.map, key)
    }

    /// Stores `value` under `field` in the table under `key`, creating the table when
    /// there is none.
    pub fn hset(&mut self, key: String, field: String, value: RespFrame)
        ensures
            final(self)@ == old(self)@.hset(key@, field@, value.model()),
    {
        hash_tables_set(&mut self.0.hmap, key, field, value);
    }

    /// The frame stored under `field` in the table under `key`, if any.
    pub fn hget(&self, key: &str, field: &str) -> (r: Option<RespFrame>)
        ensures
            frame_option(r) == self@.field(key@, field@),
    {
        hash_tables_field(&self.0.hmap, key, field)
    }

    /// A copy of the table under `key`, if any.
    pub fn hgetall(&self, key: &str) -> (r: Option<DashMap<String, RespFrame>>)
        ensures
            match r {
                Some(t) => self@.table(key@) == Some(frame_table(t)),
                None => self@.table(key@) is None,
            },
    {
        hash_tables_get(&self.0.hmap, key)
    }
}

/// What `set` stores, `get` gives back; other plain keys and all hash keys keep
/// what they held.
pub proof fn lemma_get_after_set(m: BackendModel, key: Seq<char>, value: FrameModel, other: Seq<char>)
    ensures
        m.set(key, value).value(key) == Some(value),
        other != key ==> m.set(key, value).value(other) == m.value(other),
        m.set(key, value).hmap == m.hmap,
{
}

/// What `hset` stores, `hget` gives back; every other field of every hash key keeps
/// what it held, and plain keys are untouched.
pub proof fn lemma_hget_after_hset(
    m: BackendModel,
    key: Seq<char>,
    field: Seq<char>,
    value: FrameModel,
    other_key: Seq<char>,
    other_field: Seq<char>,
)
    ensures
        m.hset(key, field, value).field(key, field) == Some(value),
        (other_key != key || other_field != field) ==> m.hset(key, field, value).field(
            other_key,
            other_field,
        ) == m.field(other_key, other_field),
        m.hset(key, field, value).map == m.map,
{
}

/// After `hset`, `hgetall` finds the table under the key: it holds the new field and
/// every field the table held before.
pub proof fn lemma_hgetall_after_hset(
    m: BackendModel,
    key: Seq<char>,
    field: Seq<char>,
    value: FrameModel,
)
    ensures
        m.hset(key, field, value).table(key) == Some(
            table_or_empty(m.hmap, key).insert(field, value),
        ),
        forall|f: Seq<char>|
            f != field && #[trigger] m.field(key, f) is Some ==> m.hset(key, field, value).field(
                key,
                f,
            ) == m.field(key, f),
{
}

} // verus!
