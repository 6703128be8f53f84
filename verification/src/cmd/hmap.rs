//! `HGET`, `HGETALL` and `HSET` on hash keys.
use vstd::prelude::*;
use vstd::utf8::*;
use crate::backend::{entry_of, frame_table, frame_table_entries, Backend, BackendModel};
use crate::resp::frame::{
    lemma_models, models, pair_models, BulkString, FrameModel, RespArray, RespFrame, RespNull,
};
use crate::resp::map::{
    lemma_insert_sorted, lemma_lookup_insert, lemma_map_lookup_at, lemma_sorted_unique, map_insert,
    map_lookup, sorted_keys, RespMap,
};
use super::{
    bulk_text, elements_model, is_bulk, name_views, ok_reply, resp_ok, text_arg, valid_args,
    valid_command, CommandError, CommandErrorModel, CommandExecutor, CommandHGet, CommandHGetAll,
    CommandHSet,
};

verus! {

broadcast use vstd::array::group_array_axioms;

/// What `CommandHGet::try_from` makes of a request with `elements`: the key and the
/// field, or the error.
pub open spec fn hget_request(elements: Option<Seq<FrameModel>>) -> Result<
    (Seq<char>, Seq<char>),
    CommandErrorModel,
> {
    match valid_args(elements, seq!["HGET"@], 2) {
        Err(e) => Err(e),
        Ok(args) => if is_bulk(args[0]) && is_bulk(args[1]) {
            match text_arg(args[0], ""@) {
                Err(e) => Err(e),
                Ok(k) => match text_arg(args[1], ""@) {
                    Err(e) => Err(e),
                    Ok(f) => Ok((k, f)),
                },
            }
        } else {
            Err(CommandErrorModel::InvalidArguments("HGET command expect bulk string"@))
        },
    }
}

/// What `CommandHGetAll::try_from` makes of a request with `elements`: the key, or the
/// error.
pub open spec fn hgetall_request(elements: Option<Seq<FrameModel>>) -> Result<
    Seq<char>,
    CommandErrorModel,
> {
    match valid_args(elements, seq!["HGETALL"@], 1) {
        Err(e) => Err(e),
        Ok(args) => text_arg(args[0], "HGETALL command expect bulk string"@),
    }
}

/// What `CommandHSet::try_from` makes of a request with `elements`: the key, the field
/// and the value (any frame), or the error.
pub open spec fn hset_request(elements: Option<Seq<FrameModel>>) -> Result<
    (Seq<char>, Seq<char>, FrameModel),
    CommandErrorModel,
> {
    match valid_args(elements, seq!["HSET"@], 3) {
        Err(e) => Err(e),
        Ok(args) => if is_bulk(args[0]) && is_bulk(args[1]) {
            match text_arg(args[0], ""@) {
                Err(e) => Err(e),
                Ok(k) => match text_arg(args[1], ""@) {
                    Err(e) => Err(e),
                    Ok(f) => Ok((k, f, args[2])),
                },
            }
        } else {
            Err(CommandErrorModel::InvalidArguments("HSET command expect bulk string"@))
        },
    }
}

/// The entries of a table in key order: the one sequence whose keys increase and
/// which finds under every key what the table holds there.
pub open spec fn sorted_entries(t: Map<Seq<char>, FrameModel>) -> Seq<(Seq<char>, FrameModel)> {
    choose|s: Seq<(Seq<char>, FrameModel)>|
        sorted_keys(s) && forall|k: Seq<char>| #[trigger] map_lookup(s, k) == entry_of(t, k)
}

/// A sequence with increasing keys that finds under every key what a finite table
/// holds there.
proof fn lemma_entries_exist(t: Map<Seq<char>, FrameModel>) -> (s: Seq<(Seq<char>, FrameModel)>)
    requires
        t.dom().finite(),
    ensures
        sorted_keys(s),
        forall|k: Seq<char>| #[trigger] map_lookup(s, k) == entry_of(t, k),
    decreases t.dom().len(),
{
    if t.dom().len() == 0 {
        let s = Seq::<(Seq<char>, FrameModel)>::empty();
        assert forall|k: Seq<char>| #[trigger] map_lookup(s, k) == entry_of(t, k) by {
            if t.contains_key(k) {
                assert(t.dom().contains(k));
            }
        }
        s
    } else {
        let k = t.dom().choose();
        let rest = t.remove(k);
        let s2 = lemma_entries_exist(rest);
        lemma_insert_sorted(s2, k, t[k]);
        let s = map_insert(s2, k, t[k]);
        assert forall|x: Seq<char>| #[trigger] map_lookup(s, x) == entry_of(t, x) by {
            lemma_lookup_insert(s2, k, t[k], x);
        }
        s
    }
}

/// Every finite table has its entries in key order: the sequence that
/// [`sorted_entries`] picks has increasing keys and finds under every key what the
/// table holds there.
pub proof fn lemma_sorted_entries(t: Map<Seq<char>, FrameModel>)
    requires
        t.dom().finite(),
    ensures
        sorted_keys(sorted_entries(t)),
        forall|k: Seq<char>| #[trigger] map_lookup(sorted_entries(t), k) == entry_of(t, k),
{
    let s = lemma_entries_exist(t);
    assert(sorted_keys(s) && forall|k: Seq<char>| #[trigger] map_lookup(s, k) == entry_of(t, k));
}

/// The reply items for entries: each key as a bulk string, followed by its frame.
pub open spec fn reply_items(s: Seq<(Seq<char>, FrameModel)>) -> Seq<FrameModel>
    decreases s.len(),
{
    if s.len() == 0 {
        Seq::empty()
    } else {
        reply_items(s.drop_last()) + seq![
            FrameModel::BulkString(Some(encode_utf8(s.last().0))),
            s.last().1,
        ]
    }
}

/// What `HGET key field` does to a store that held `before`: nothing; it replies with
/// the frame under the field, or null.
pub open spec fn hget_outcome(before: BackendModel, key: Seq<char>, field: Seq<char>) -> (
    BackendModel,
    FrameModel,
) {
    (
        before,
        match before.field(key, field) {
            Some(f) => f,
            None => FrameModel::Null,
        },
    )
}

/// What `HSET key field value` does to a store that held `before`: the field of the
/// table under the key holds the value; it replies `OK`.
pub open spec fn hset_outcome(
    before: BackendModel,
    key: Seq<char>,
    field: Seq<char>,
    value: FrameModel,
) -> (BackendModel, FrameModel) {
    (before.hset(key, field, value), ok_reply())
}

/// What `HGETALL key` does to a store that held `before`: nothing; it replies null
/// when there is no table under the key, else an array of each field (as a bulk
/// string) followed by its frame, fields in increasing order.
pub open spec fn hgetall_outcome(before: BackendModel, key: Seq<char>) -> (
    BackendModel,
    FrameModel,
) {
    (
        before,
        match before.table(key) {
            Some(t) => FrameModel::Array(Some(reply_items(sorted_entries(t)))),
            None => FrameModel::Null,
        },
    )
}

impl CommandHGet {
    /// Reads `HGET key field` from a request array.
    pub fn try_from(value: RespArray) -> (r: Result<CommandHGet, CommandError>)
        ensures
            match r {
                Ok(c) => hget_request(elements_model(value)) == Ok::<
                    (Seq<char>, Seq<char>),
                    CommandErrorModel,
                >((c.key@, c.field@)),
                Err(e) => hget_request(elements_model(value)) == Err::<
                    (Seq<char>, Seq<char>),
                    CommandErrorModel,
                >(e@),
            },
    {
        let names: [&'static str; 1] = ["HGET"];
        let names = vstd::array::array_as_slice(&names);
        assert(name_views(names@) =~= seq!["HGET"@]);
        let args = match valid_command(&value, names, 2) {
            Ok(a) => a,
            Err(e) => return Err(e),
        };
        let ghost a = valid_args(elements_model(value), seq!["HGET"@], 2)->Ok_0;
        assert(args@[0].model() == a[0] && args@[1].model() == a[1]);
        match (args[0], args[1]) {
            (
                RespFrame::BulkString(BulkString { content: Some(key) }),
                RespFrame::BulkString(BulkString { content: Some(field) }),
            ) => {
                let key = match bulk_text(key) {
                    Ok(k) => k,
                    Err(e) => return Err(e),
                };
                let field = match bulk_text(field) {
                    Ok(f) => f,
                    Err(e) => return Err(e),
                };
                Ok(CommandHGet { key, field })
            },
            _ => Err(CommandError::InvalidArguments("HGET command expect bulk string".to_owned())),
        }
    }
}

impl CommandHGetAll {
    /// Reads `HGETALL key` from a request array.
    pub fn try_from(value: RespArray) -> (r: Result<CommandHGetAll, CommandError>)
        ensures
            match r {
                Ok(c) => hgetall_request(elements_model(value)) == Ok::<
                    Seq<char>,
                    CommandErrorModel,
                >(c.key@),
                Err(e) => hgetall_request(elements_model(value)) == Err::<
                    Seq<char>,
                    CommandErrorModel,
                >(e@),
            },
    {
        let names: [&'static str; 1] = ["HGETALL"];
        let names = vstd::array::array_as_slice(&names);
        assert(name_views(names@) =~= seq!["HGETALL"@]);
        let args = match valid_command(&value, names, 1) {
            Ok(a) => a,
            Err(e) => return Err(e),
        };
        let ghost a = valid_args(elements_model(value), seq!["HGETALL"@], 1)->Ok_0;
        assert(args@[0].model() == a[0]);
        match args[0] {
            RespFrame::BulkString(BulkString { content: Some(key) }) => match bulk_text(key) {
                Ok(k) => Ok(CommandHGetAll { key: k }),
                Err(e) => Err(e),
            },
            _ => Err(
                CommandError::InvalidArguments("HGETALL command expect bulk string".to_owned()),
            ),
        }
    }
}

impl CommandHSet {
    /// Reads `HSET key field value` from a request array; the value may be any frame.
    pub fn try_from(value: RespArray) -> (r: Result<CommandHSet, CommandError>)
        ensures
            match r {
                Ok(c) => hset_request(elements_model(value)) == Ok::<
                    (Seq<char>, Seq<char>, FrameModel),
                    CommandErrorModel,
                >((c.key@, c.field@, c.value@)),
                Err(e) => hset_request(elements_model(value)) == Err::<
                    (Seq<char>, Seq<char>, FrameModel),
                    CommandErrorModel,
                >(e@),
            },
    {
        let names: [&'static str; 1] = ["HSET"];
        let names = vstd::array::array_as_slice(&names);
        assert(name_views(names@) =~= seq!["HSET"@]);
        let args = match valid_command(&value, names, 3) {
            Ok(a) => a,
            Err(e) => return Err(e),
        };
        let ghost a = valid_args(elements_model(value), seq!["HSET"@], 3)->Ok_0;
        assert(args@[0].model() == a[0] && args@[1].model() == a[1] && args@[2].model() == a[2]);
        match (args[0], args[1], args[2]) {
            (
                RespFrame::BulkString(BulkString { content: Some(key) }),
                RespFrame::BulkString(BulkString { content: Some(field) }),
                frame,
            ) => {
                let key = match bulk_text(key) {
                    Ok(k) => k,
                    Err(e) => return Err(e),
                };
                let field = match bulk_text(field) {
                    Ok(f) => f,
                    Err(e) => return Err(e),
                };
                Ok(CommandHSet { key, field, value: frame.duplicate() })
            },
            _ => Err(CommandError::InvalidArguments("HSET command expect bulk string".to_owned())),
        }
    }
}

impl CommandExecutor for CommandHGet {
    /// The store is unchanged; the reply is the frame under the field, or null.
    open spec fn outcome(&self, before: BackendModel) -> (BackendModel, FrameModel) {
        hget_outcome(before, self.key@, self.field@)
    }

    fn execute(self, backend: &mut Backend) -> (r: RespFrame) {
        match backend.hget(self.key.as_str(), self.field.as_str()) {
            Some(f) => f,
            None => RespFrame::RespNull(RespNull),
        }
    }
}

impl CommandExecutor for CommandHSet {
    /// The field of the table under the key now holds the value; the reply is `OK`.
    open spec fn outcome(&self, before: BackendModel) -> (BackendModel, FrameModel) {
        hset_outcome(before, self.key@, self.field@, self.value@)
    }

    fn execute(self, backend: &mut Backend) -> (r: RespFrame) {
        backend.hset(self.key, self.field, self.value);
        resp_ok()
    }
}

/// A sequence of pairs with distinct keys that lists exactly a table's entries finds
/// under every key what the table holds there.
proof fn lemma_listed_lookup(s: Seq<(Seq<char>, FrameModel)>, t: Map<Seq<char>, FrameModel>)
    requires
        forall|i: int, j: int| 0 <= i < j < s.len() ==> #[trigger] s[i].0 != #[trigger] s[j].0,
        forall|i: int| 0 <= i < s.len() ==> t.contains_key(#[trigger] s[i].0) && t[s[i].0] == s[i].1,
        forall|k: Seq<char>| t.contains_key(k) ==> exists|i: int| 0 <= i < s.len() && #[trigger] s[i].0 == k,
    ensures
        forall|k: Seq<char>| #[trigger] map_lookup(s, k) == entry_of(t, k),
{
    assert forall|k: Seq<char>| #[trigger] map_lookup(s, k) == entry_of(t, k) by {
        if t.contains_key(k) {
            let i = choose|i: int| 0 <= i < s.len() && #[trigger] s[i].0 == k;
            assert forall|j: int| 0 <= j < i implies #[trigger] s[j].0 != k by {
                assert(s[j].0 != s[i].0);
            }
            lemma_map_lookup_at(s, k, i);
        } else {
            assert forall|j: int| 0 <= j < s.len() implies #[trigger] s[j].0 != k by {
                assert(t.contains_key(s[j].0));
            }
            lemma_map_lookup_at(s, k, s.len() as int);
        }
    }
}

/// The entries of a table, in key order.
fn sorted_table(t: &dashmap::DashMap<String, RespFrame>) -> (r: Vec<(String, RespFrame)>)
    ensures
        pair_models(r@) == sorted_entries(frame_table(*t)),
{
    let mut data = frame_table_entries(t);
    let ghost orig = data@;
    let ghost tm = frame_table(*t);
    proof {
        crate::resp::map::lemma_pair_models(orig);
        let p = pair_models(orig);
        assert forall|i: int, j: int| 0 <= i < j < p.len() implies #[trigger] p[i].0 != #[trigger] p[j].0 by {
            assert(orig[i].0@ != orig[j].0@);
        }
        assert forall|i: int| 0 <= i < p.len() implies tm.contains_key(#[trigger] p[i].0) && tm[p[i].0] == p[i].1 by {
            assert(tm.contains_key(orig[i].0@));
        }
        assert forall|k: Seq<char>| tm.contains_key(k) implies exists|i: int| 0 <= i < p.len() && #[trigger] p[i].0 == k by {
            let i = choose|i: int| 0 <= i < orig.len() && #[trigger] orig[i].0@ == k;
            assert(p[i].0 == k);
        }
        lemma_listed_lookup(p, tm);
    }
    let mut sorted = RespMap::new();
    while data.len() > 0
        invariant
            data@ == orig.take(data@.len() as int),
            data@.len() <= orig.len(),
            forall|k: Seq<char>| #[trigger] map_lookup(sorted.entries(), k) == map_lookup(
                pair_models(orig.skip(data@.len() as int)),
                k,
            ),
        decreases data@.len(),
    {
        let ghost n = data@.len();
        let (k, v) = match data.pop() {
            Some(p) => p,
            None => {
                proof {
                    assert(false);
                }
                return Vec::new();
            },
        };
        let ghost before = sorted.entries();
        let ghost kk = k@;
        let ghost vv = v.model();
        sorted.insert(k, v);
        proof {
            let sk = orig.skip(n - 1);
            assert(sk[0] == orig[n - 1]);
            assert(sk.drop_first() =~= orig.skip(n as int));
            assert(orig[n - 1].0@ == kk && orig[n - 1].1.model() == vv);
            assert(pair_models(orig.skip(n - 1)) == seq![(kk, vv)] + pair_models(orig.skip(n as int)));
            assert(data@ =~= orig.take(n - 1));
            assert forall|x: Seq<char>| #[trigger] map_lookup(sorted.entries(), x) == map_lookup(
                pair_models(orig.skip(n - 1)),
                x,
            ) by {
                lemma_lookup_insert(before, kk, vv, x);
                assert((seq![(kk, vv)] + pair_models(orig.skip(n as int))).drop_first()
                    =~= pair_models(orig.skip(n as int)));
            }
        }
    }
    proof {
        assert(orig.skip(0) =~= orig);
    }
    let r = sorted.into_pairs();
    proof {
        let s = pair_models(r@);
        crate::resp::map::lemma_pair_models(r@);
        assert(sorted_keys(s)) by {
            assert forall|i: int, j: int| 0 <= i < j < s.len() implies crate::resp::map::key_lt(
                #[trigger] s[i].0,
                #[trigger] s[j].0,
            ) by {
                assert(crate::resp::map::key_lt(r@[i].0@, r@[j].0@));
            }
        }
        assert(forall|k: Seq<char>| #[trigger] map_lookup(s, k) == entry_of(tm, k));
        let c = sorted_entries(tm);
        assert(sorted_keys(c) && forall|k: Seq<char>| #[trigger] map_lookup(c, k) == entry_of(tm, k));
        lemma_sorted_unique(s, c);
    }
    r
}

/// The reply items for the entries.
fn reply_frames(pairs: &Vec<(String, RespFrame)>) -> (r: Vec<RespFrame>)
    ensures
        models(r@) == reply_items(pair_models(pairs@)),
{
    let mut out: Vec<RespFrame> = Vec::new();
    let mut i: usize = 0;
    proof {
        crate::resp::map::lemma_pair_models(pairs@);
    }
    while i < pairs.len()
        invariant
            i <= pairs@.len(),
            pair_models(pairs@).len() == pairs@.len(),
            forall|j: int| 0 <= j < pairs@.len() ==> #[trigger] pair_models(pairs@)[j] == (pairs@[j].0@, pairs@[j].1.model()),
            models(out@) == reply_items(pair_models(pairs@).take(i as int)),
        decreases pairs@.len() - i,
    {
        let key = BulkString {
            content: Some(vstd::slice::slice_to_vec(pairs[i].0.as_str().as_bytes())),
        };
        let ghost before = out@;
        out.push(RespFrame::BulkString(key));
        out.push(pairs[i].1.duplicate());
        proof {
            let t = pair_models(pairs@).take(i + 1);
            assert(t.drop_last() =~= pair_models(pairs@).take(i as int));
            lemma_models(before);
            lemma_models(out@);
            assert(models(out@) =~= models(before) + seq![
                FrameModel::BulkString(Some(encode_utf8(pairs@[i as int].0@))),
                pairs@[i as int].1.model(),
            ]);
        }
        i = i + 1;
    }
    assert(pair_models(pairs@).take(pairs@.len() as int) =~= pair_models(pairs@));
    out
}

impl CommandExecutor for CommandHGetAll {
    /// The store is unchanged; the reply is null when there is no table under the key,
    /// else an array of each field (as a bulk string) followed by its frame, fields in
    /// increasing order.
    open spec fn outcome(&self, before: BackendModel) -> (BackendModel, FrameModel) {
        hgetall_outcome(before, self.key@)
    }

    fn execute(self, backend: &mut Backend) -> (r: RespFrame) {
        match backend.hgetall(self.key.as_str()) {
            Some(map) => {
                let data = sorted_table(&map);
                let ret = reply_frames(&data);
                RespFrame::Array(RespArray { elements: Some(ret) })
            },
            None => RespFrame::RespNull(RespNull),
        }
    }
}

/// `HGET` after `HSET` of the same key and field replies with the value that was set.
pub proof fn lemma_hget_after_hset_command(m: BackendModel, set: CommandHSet, get: CommandHGet)
    requires
        get.key@ == set.key@,
        get.field@ == set.field@,
    ensures
        get.outcome(set.outcome(m).0).1 == set.value@,
        set.outcome(m).1 == ok_reply(),
{
}

} // verus!
