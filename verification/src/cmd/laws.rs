//! What the commands do to the store, stated over whole requests: a write is read
//! back by the matching read, whatever the store held before, and nothing else
//! changes.
use vstd::prelude::*;
use vstd::utf8::*;
use crate::backend::BackendModel;
use crate::resp::frame::FrameModel;
use crate::resp::laws::lemma_ascii_chars;
use super::{lower_bytes, name_ok, names_check, run_outcome, text_arg, valid_args, CommandErrorModel};
use super::map::{get_request, set_request};
use super::hmap::{
    hget_request, hgetall_outcome, hgetall_request, hset_request, lemma_sorted_entries, reply_items, sorted_entries,
};
use crate::backend::entry_of;
use crate::resp::map::{
    bytes_lt, key_lt, lemma_key_order, lemma_lookup_found, lemma_map_lookup_at, map_lookup,
    sorted_keys,
};

verus! {

broadcast use vstd::utf8::group_utf8_lib;

/// A bulk string with the given bytes.
pub open spec fn bulk(b: Seq<u8>) -> FrameModel {
    FrameModel::BulkString(Some(b))
}

/// A request whose first element spells the single name `name` (ignoring ASCII case)
/// and that has `n_args + 1` elements passes the shape check, giving the rest.
proof fn lemma_shape_ok(es: Seq<FrameModel>, name: Seq<char>, n_args: nat)
    requires
        es.len() == n_args + 1,
        name_ok(es[0], name),
    ensures
        valid_args(Some(es), seq![name], n_args) == Ok::<Seq<FrameModel>, CommandErrorModel>(
            es.skip(1),
        ),
{
    let names = seq![name];
    assert(names[0] == name);
    assert(names_check(es, names, 1) is None);
    assert(names_check(es, names, 0) is None);
}

/// A request of `n_args + 1` elements whose first element does not spell `name`
/// fails the shape check.
proof fn lemma_shape_name_fails(es: Seq<FrameModel>, name: Seq<char>, n_args: nat)
    requires
        es.len() == n_args + 1,
        !name_ok(es[0], name),
    ensures
        valid_args(Some(es), seq![name], n_args) is Err,
{
    let names = seq![name];
    assert(names[0] == name);
    assert(names_check(es, names, 0) is Some);
}

/// The command names, as the bytes that `valid_command` compares after lowering.
proof fn lemma_names()
    ensures
        lower_bytes(encode_utf8("GET"@)) == seq![103u8, 101u8, 116u8],
        lower_bytes(encode_utf8("SET"@)) == seq![115u8, 101u8, 116u8],
        lower_bytes(encode_utf8("HGET"@)) == seq![104u8, 103u8, 101u8, 116u8],
        lower_bytes(encode_utf8("HSET"@)) == seq![104u8, 115u8, 101u8, 116u8],
        lower_bytes(encode_utf8("HGETALL"@)) == seq![
            104u8,
            103u8,
            101u8,
            116u8,
            97u8,
            108u8,
            108u8,
        ],
{
    reveal_strlit("GET");
    reveal_strlit("SET");
    reveal_strlit("HGET");
    reveal_strlit("HSET");
    reveal_strlit("HGETALL");
    lemma_ascii_chars("GET"@, seq![71u8, 69u8, 84u8]);
    lemma_ascii_chars("SET"@, seq![83u8, 69u8, 84u8]);
    lemma_ascii_chars("HGET"@, seq![72u8, 71u8, 69u8, 84u8]);
    lemma_ascii_chars("HSET"@, seq![72u8, 83u8, 69u8, 84u8]);
    lemma_ascii_chars("HGETALL"@, seq![72u8, 71u8, 69u8, 84u8, 65u8, 76u8, 76u8]);
    assert(lower_bytes(seq![71u8, 69u8, 84u8]) =~= seq![103u8, 101u8, 116u8]);
    assert(lower_bytes(seq![83u8, 69u8, 84u8]) =~= seq![115u8, 101u8, 116u8]);
    assert(lower_bytes(seq![72u8, 71u8, 69u8, 84u8]) =~= seq![104u8, 103u8, 101u8, 116u8]);
    assert(lower_bytes(seq![72u8, 83u8, 69u8, 84u8]) =~= seq![104u8, 115u8, 101u8, 116u8]);
    assert(lower_bytes(seq![72u8, 71u8, 69u8, 84u8, 65u8, 76u8, 76u8]) =~= seq![
        104u8,
        103u8,
        101u8,
        116u8,
        97u8,
        108u8,
        108u8,
    ]);
}

/// `GET key` replies with what the store holds under the key's text exactly as sent
/// (or null), and changes nothing.
pub proof fn lemma_get_reads_key(before: BackendModel, get_name: Seq<u8>, key: Seq<u8>)
    requires
        lower_bytes(get_name) == seq![103u8, 101u8, 116u8],
        valid_utf8(key),
    ensures
        run_outcome(Some(seq![bulk(get_name), bulk(key)]), before) == Ok::<
            (BackendModel, FrameModel),
            CommandErrorModel,
        >(
            (
                before,
                match before.value(decode_utf8(key)) {
                    Some(f) => f,
                    None => FrameModel::Null,
                },
            ),
        ),
{
    lemma_names();
    let es = seq![bulk(get_name), bulk(key)];
    assert(name_ok(es[0], "GET"@));
    lemma_shape_ok(es, "GET"@, 1);
    assert(es.skip(1)[0] == bulk(key));
    assert(get_request(Some(es)) == Ok::<Seq<char>, CommandErrorModel>(decode_utf8(key)));
}

/// `SET key value` stores the value under the key's text, whatever was there before,
/// replies `OK` and leaves every other key and every hash alone; a `GET` of the key
/// then replies with the value.
pub proof fn lemma_set_then_get(
    before: BackendModel,
    set_name: Seq<u8>,
    get_name: Seq<u8>,
    key: Seq<u8>,
    value: Seq<u8>,
)
    requires
        lower_bytes(set_name) == seq![115u8, 101u8, 116u8],
        lower_bytes(get_name) == seq![103u8, 101u8, 116u8],
        valid_utf8(key),
    ensures
        ({
            let k = decode_utf8(key);
            match run_outcome(Some(seq![bulk(set_name), bulk(key), bulk(value)]), before) {
                Ok((after, reply)) => {
                    &&& reply == FrameModel::SimpleString("OK"@)
                    &&& after.value(k) == Some(bulk(value))
                    &&& forall|o: Seq<char>| o != k ==> #[trigger] after.value(o) == before.value(o)
                    &&& after.hmap == before.hmap
                    &&& run_outcome(Some(seq![bulk(get_name), bulk(key)]), after) == Ok::<
                        (BackendModel, FrameModel),
                        CommandErrorModel,
                    >((after, bulk(value)))
                },
                Err(_) => false,
            }
        }),
{
    lemma_names();
    let k = decode_utf8(key);
    let es = seq![bulk(set_name), bulk(key), bulk(value)];
    assert(get_request(Some(es)) is Err);
    assert(name_ok(es[0], "SET"@));
    lemma_shape_ok(es, "SET"@, 2);
    assert(es.skip(1)[0] == bulk(key));
    assert(es.skip(1)[1] == bulk(value));
    assert(set_request(Some(es)) == Ok::<(Seq<char>, FrameModel), CommandErrorModel>(
        (k, bulk(value)),
    ));
    if let Ok((after, reply)) = run_outcome(Some(seq![bulk(set_name), bulk(key), bulk(value)]), before) {
        lemma_get_reads_key(after, get_name, key);
    }
}

/// `HGET key field` replies with what the table under the key's text holds under the
/// field's text (or null), and changes nothing.
pub proof fn lemma_hget_reads_field(
    before: BackendModel,
    hget_name: Seq<u8>,
    key: Seq<u8>,
    field: Seq<u8>,
)
    requires
        lower_bytes(hget_name) == seq![104u8, 103u8, 101u8, 116u8],
        valid_utf8(key),
        valid_utf8(field),
    ensures
        run_outcome(Some(seq![bulk(hget_name), bulk(key), bulk(field)]), before) == Ok::<
            (BackendModel, FrameModel),
            CommandErrorModel,
        >(
            (
                before,
                match before.field(decode_utf8(key), decode_utf8(field)) {
                    Some(f) => f,
                    None => FrameModel::Null,
                },
            ),
        ),
{
    lemma_names();
    let es = seq![bulk(hget_name), bulk(key), bulk(field)];
    assert(get_request(Some(es)) is Err);
    assert(lower_bytes(hget_name) != lower_bytes(encode_utf8("SET"@)));
    assert(!name_ok(es[0], "SET"@));
    lemma_shape_name_fails(es, "SET"@, 2);
    assert(set_request(Some(es)) is Err);
    assert(name_ok(es[0], "HGET"@));
    lemma_shape_ok(es, "HGET"@, 2);
    assert(es.skip(1)[0] == bulk(key));
    assert(es.skip(1)[1] == bulk(field));
    assert(hget_request(Some(es)) == Ok::<(Seq<char>, Seq<char>), CommandErrorModel>(
        (decode_utf8(key), decode_utf8(field)),
    ));
}

/// `HSET key field value` stores the value under the field in the table under the
/// key, whatever was there before, replies `OK` and leaves every other field, every
/// other table and every plain key alone; an `HGET` of the field then replies with
/// the value.
pub proof fn lemma_hset_then_hget(
    before: BackendModel,
    hset_name: Seq<u8>,
    hget_name: Seq<u8>,
    key: Seq<u8>,
    field: Seq<u8>,
    value: FrameModel,
)
    requires
        lower_bytes(hset_name) == seq![104u8, 115u8, 101u8, 116u8],
        lower_bytes(hget_name) == seq![104u8, 103u8, 101u8, 116u8],
        valid_utf8(key),
        valid_utf8(field),
    ensures
        ({
            let k = decode_utf8(key);
            let f = decode_utf8(field);
            match run_outcome(Some(seq![bulk(hset_name), bulk(key), bulk(field), value]), before) {
                Ok((after, reply)) => {
                    &&& reply == FrameModel::SimpleString("OK"@)
                    &&& after.field(k, f) == Some(value)
                    &&& forall|k2: Seq<char>, f2: Seq<char>|
                        (k2 != k || f2 != f) ==> #[trigger] after.field(k2, f2) == before.field(
                            k2,
                            f2,
                        )
                    &&& after.map == before.map
                    &&& run_outcome(Some(seq![bulk(hget_name), bulk(key), bulk(field)]), after)
                        == Ok::<(BackendModel, FrameModel), CommandErrorModel>((after, value))
                },
                Err(_) => false,
            }
        }),
{
    lemma_names();
    let es = seq![bulk(hset_name), bulk(key), bulk(field), value];
    assert(get_request(Some(es)) is Err);
    assert(set_request(Some(es)) is Err);
    assert(hget_request(Some(es)) is Err);
    assert(hgetall_request(Some(es)) is Err);
    assert(name_ok(es[0], "HSET"@));
    lemma_shape_ok(es, "HSET"@, 3);
    assert(es.skip(1)[0] == bulk(key));
    assert(es.skip(1)[1] == bulk(field));
    assert(es.skip(1)[2] == value);
    assert(hset_request(Some(es)) == Ok::<(Seq<char>, Seq<char>, FrameModel), CommandErrorModel>(
        (decode_utf8(key), decode_utf8(field), value),
    ));
    if let Ok((after, reply)) = run_outcome(
        Some(seq![bulk(hset_name), bulk(key), bulk(field), value]),
        before,
    ) {
        lemma_hget_reads_field(after, hget_name, key, field);
    }
}

/// `items` lists the table `t` field by field in the order `fields`: each field of
/// the table once, as a bulk string of its bytes followed by its frame, the fields'
/// bytes strictly increasing.
pub open spec fn lists_table(
    t: Map<Seq<char>, FrameModel>,
    fields: Seq<Seq<char>>,
    items: Seq<FrameModel>,
) -> bool {
    &&& items.len() == 2 * fields.len()
    &&& forall|i: int|
        0 <= i < fields.len() ==> {
            &&& t.contains_key(#[trigger] fields[i])
            &&& items[2 * i] == bulk(encode_utf8(fields[i]))
            &&& items[2 * i + 1] == t[fields[i]]
        }
    &&& forall|i: int, j: int|
        0 <= i < j < fields.len() ==> bytes_lt(
            encode_utf8(#[trigger] fields[i]),
            encode_utf8(#[trigger] fields[j]),
        )
    &&& forall|k: Seq<char>|
        #[trigger] t.contains_key(k) ==> exists|i: int| 0 <= i < fields.len() && fields[i] == k
}

/// The elements of an array reply (none for any other frame).
pub open spec fn reply_list(reply: FrameModel) -> Seq<FrameModel> {
    match reply {
        FrameModel::Array(Some(items)) => items,
        _ => Seq::empty(),
    }
}

/// The reply to `HGETALL` for what the store holds under the key: null for no table,
/// else an array that [`lists_table`] the table.
pub open spec fn lists_reply(table: Option<Map<Seq<char>, FrameModel>>, reply: FrameModel) -> bool {
    match table {
        None => reply == FrameModel::Null,
        Some(t) => exists|fields: Seq<Seq<char>>|
            #[trigger] lists_table(t, fields, reply_list(reply)) && reply == FrameModel::Array(
                Some(reply_list(reply)),
            ),
    }
}

/// The reply items of entries: each key as a bulk string, then its frame.
proof fn lemma_reply_items(s: Seq<(Seq<char>, FrameModel)>)
    ensures
        reply_items(s).len() == 2 * s.len(),
        forall|i: int|
            0 <= i < s.len() ==> reply_items(s)[2 * i] == bulk(encode_utf8(#[trigger] s[i].0))
                && reply_items(s)[2 * i + 1] == s[i].1,
    decreases s.len(),
{
    if s.len() > 0 {
        let p = s.drop_last();
        lemma_reply_items(p);
        assert forall|i: int|
            0 <= i < s.len() implies reply_items(s)[2 * i] == bulk(encode_utf8(#[trigger] s[i].0))
            && reply_items(s)[2 * i + 1] == s[i].1 by {
            if i < p.len() {
                assert(s[i] == p[i]);
            }
        }
    }
}

/// `HGETALL key` changes nothing. It replies null when no table is under the key's
/// text, and otherwise an array that lists every field of the table once, each as a
/// bulk string of its bytes followed by the field's frame, in increasing byte order of
/// the fields.
pub proof fn lemma_hgetall_lists_fields(before: BackendModel, hgetall_name: Seq<u8>, key: Seq<u8>)
    requires
        lower_bytes(hgetall_name) == seq![104u8, 103u8, 101u8, 116u8, 97u8, 108u8, 108u8],
        valid_utf8(key),
        before.table(decode_utf8(key)) matches Some(t) ==> t.dom().finite(),
    ensures
        run_outcome(Some(seq![bulk(hgetall_name), bulk(key)]), before) matches Ok((after, reply))
            && after == before && lists_reply(before.table(decode_utf8(key)), reply),
{
    lemma_names();
    let es = seq![bulk(hgetall_name), bulk(key)];
    assert(lower_bytes(hgetall_name) != lower_bytes(encode_utf8("GET"@)));
    assert(!name_ok(es[0], "GET"@));
    lemma_shape_name_fails(es, "GET"@, 1);
    assert(get_request(Some(es)) is Err);
    assert(set_request(Some(es)) is Err);
    assert(hget_request(Some(es)) is Err);
    assert(name_ok(es[0], "HGETALL"@));
    lemma_shape_ok(es, "HGETALL"@, 1);
    assert(es.skip(1)[0] == bulk(key));
    assert(hgetall_request(Some(es)) == Ok::<Seq<char>, CommandErrorModel>(decode_utf8(key)));
    assert(run_outcome(Some(es), before) == Ok::<(BackendModel, FrameModel), CommandErrorModel>(
        hgetall_outcome(before, decode_utf8(key)),
    ));
    if let Some(t) = before.table(decode_utf8(key)) {
        lemma_sorted_entries(t);
        let s = sorted_entries(t);
        lemma_reply_items(s);
        let items = reply_items(s);
        let fields = s.map_values(|p: (Seq<char>, FrameModel)| p.0);
        assert forall|i: int| 0 <= i < fields.len() implies {
            &&& t.contains_key(#[trigger] fields[i])
            &&& items[2 * i] == bulk(encode_utf8(fields[i]))
            &&& items[2 * i + 1] == t[fields[i]]
        } by {
            assert(fields[i] == s[i].0);
            assert forall|j: int| 0 <= j < i implies #[trigger] s[j].0 != s[i].0 by {
                lemma_key_order(s[j].0, s[i].0);
            }
            lemma_map_lookup_at(s, s[i].0, i);
            assert(map_lookup(s, s[i].0) == entry_of(t, s[i].0));
        }
        assert forall|i: int, j: int| 0 <= i < j < fields.len() implies bytes_lt(
            encode_utf8(#[trigger] fields[i]),
            encode_utf8(#[trigger] fields[j]),
        ) by {
            assert(key_lt(s[i].0, s[j].0));
        }
        assert forall|k: Seq<char>| #[trigger] t.contains_key(k) implies exists|i: int|
            0 <= i < fields.len() && fields[i] == k by {
            assert(map_lookup(s, k) == entry_of(t, k));
            let i = lemma_lookup_found(s, k);
            assert(fields[i] == k);
        }
        assert(lists_table(t, fields, items));
        assert(hgetall_outcome(before, decode_utf8(key)).1 == FrameModel::Array(Some(items)));
        assert(lists_reply(Some(t), FrameModel::Array(Some(items)))) by {
            assert(lists_table(t, fields, items));
        }
    } else {
        assert(hgetall_outcome(before, decode_utf8(key)).1 == FrameModel::Null);
    }
}

} // verus!
