//! `%`-frames: a map from text keys to frames, kept in the byte order of its keys
//! with no key twice (what an ordered map of `String` keys holds).
use vstd::prelude::*;
use vstd::utf8::*;
use super::frame::{pair_models, FrameModel, RespFrame};
use super::debug::{frame_debug, pairs_debug_text, str_debug};

verus! {

broadcast use vstd::utf8::group_utf8_lib;

/// Lexicographic order on byte strings (a proper prefix comes first).
pub open spec fn bytes_lt(a: Seq<u8>, b: Seq<u8>) -> bool
    decreases a.len(),
{
    if a.len() == 0 {
        b.len() > 0
    } else if b.len() == 0 {
        false
    } else if a[0] < b[0] {
        true
    } else if a[0] > b[0] {
        false
    } else {
        bytes_lt(a.drop_first(), b.drop_first())
    }
}

/// The order of `String` keys: that of their UTF-8 bytes.
pub open spec fn key_lt(a: Seq<char>, b: Seq<char>) -> bool {
    bytes_lt(encode_utf8(a), encode_utf8(b))
}

/// Keys strictly increase along the sequence.
pub open spec fn sorted_keys<V>(s: Seq<(Seq<char>, V)>) -> bool {
    forall|i: int, j: int| 0 <= i < j < s.len() ==> key_lt(#[trigger] s[i].0, #[trigger] s[j].0)
}

/// The value stored under `k`, if any.
pub open spec fn map_lookup<V>(s: Seq<(Seq<char>, V)>, k: Seq<char>) -> Option<V>
    decreases s.len(),
{
    if s.len() == 0 {
        None
    } else if s[0].0 == k {
        Some(s[0].1)
    } else {
        map_lookup(s.drop_first(), k)
    }
}

/// Inserting `k` with `v`: its entry is replaced when present, otherwise added in
/// front of the first greater key.
pub open spec fn map_insert<V>(s: Seq<(Seq<char>, V)>, k: Seq<char>, v: V) -> Seq<(Seq<char>, V)>
    decreases s.len(),
{
    if s.len() == 0 {
        seq![(k, v)]
    } else if s[0].0 == k {
        seq![(k, v)] + s.drop_first()
    } else if key_lt(k, s[0].0) {
        seq![(k, v)] + s
    } else {
        seq![s[0]] + map_insert(s.drop_first(), k, v)
    }
}

pub proof fn lemma_bytes_lt_irrefl(a: Seq<u8>)
    ensures
        !bytes_lt(a, a),
    decreases a.len(),
{
    if a.len() > 0 {
        lemma_bytes_lt_irrefl(a.drop_first());
    }
}

pub proof fn lemma_bytes_lt_asym(a: Seq<u8>, b: Seq<u8>)
    ensures
        bytes_lt(a, b) ==> !bytes_lt(b, a),
    decreases a.len(),
{
    if a.len() > 0 && b.len() > 0 && a[0] == b[0] {
        lemma_bytes_lt_asym(a.drop_first(), b.drop_first());
    }
}

pub proof fn lemma_bytes_lt_trans(a: Seq<u8>, b: Seq<u8>, c: Seq<u8>)
    requires
        bytes_lt(a, b),
        bytes_lt(b, c),
    ensures
        bytes_lt(a, c),
    decreases a.len(),
{
    if a.len() > 0 && b.len() > 0 && c.len() > 0 && a[0] == b[0] && b[0] == c[0] {
        lemma_bytes_lt_trans(a.drop_first(), b.drop_first(), c.drop_first());
    }
}

pub proof fn lemma_bytes_lt_total(a: Seq<u8>, b: Seq<u8>)
    ensures
        a != b ==> bytes_lt(a, b) || bytes_lt(b, a),
    decreases a.len(),
{
    if a.len() > 0 && b.len() > 0 && a[0] == b[0] {
        lemma_bytes_lt_total(a.drop_first(), b.drop_first());
        if a.drop_first() == b.drop_first() {
            assert(a =~= seq![a[0]] + a.drop_first());
            assert(b =~= seq![b[0]] + b.drop_first());
        }
    } else if a.len() == 0 && b.len() == 0 {
        assert(a =~= b);
    }
}

/// At the first position where two byte strings differ, the one with the smaller
/// byte, compared as a number from 0 to 255, comes first.
pub proof fn lemma_bytes_lt_first_difference(a: Seq<u8>, b: Seq<u8>, i: int)
    requires
        0 <= i < a.len(),
        i < b.len(),
        a.take(i) == b.take(i),
        a[i] != b[i],
    ensures
        bytes_lt(a, b) <==> (a[i] as int) < (b[i] as int),
        bytes_lt(b, a) <==> (b[i] as int) < (a[i] as int),
    decreases i,
{
    if i > 0 {
        assert(a[0] == a.take(i)[0]);
        assert(b[0] == b.take(i)[0]);
        assert(a.drop_first().take(i - 1) =~= a.take(i).drop_first());
        assert(b.drop_first().take(i - 1) =~= b.take(i).drop_first());
        lemma_bytes_lt_first_difference(a.drop_first(), b.drop_first(), i - 1);
    }
}

/// A byte string comes before every longer one that starts with it, and after none.
pub proof fn lemma_bytes_lt_prefix(a: Seq<u8>, b: Seq<u8>)
    requires
        a.len() <= b.len(),
        b.take(a.len() as int) == a,
    ensures
        bytes_lt(a, b) <==> a.len() < b.len(),
        !bytes_lt(b, a),
    decreases a.len(),
{
    if a.len() > 0 {
        assert(a[0] == b.take(a.len() as int)[0]);
        assert(b.drop_first().take(a.len() - 1) =~= a.drop_first());
        lemma_bytes_lt_prefix(a.drop_first(), b.drop_first());
    }
}

/// Distinct texts have distinct UTF-8 encodings.
pub proof fn lemma_encode_injective(a: Seq<char>, b: Seq<char>)
    ensures
        encode_utf8(a) == encode_utf8(b) ==> a == b,
{
    encode_utf8_decode_utf8(a);
    encode_utf8_decode_utf8(b);
}

/// Keys are ordered totally: distinct keys compare one way or the other, never both.
pub proof fn lemma_key_order(a: Seq<char>, b: Seq<char>)
    ensures
        a != b ==> key_lt(a, b) || key_lt(b, a),
        key_lt(a, b) ==> !key_lt(b, a),
        !key_lt(a, a),
{
    lemma_encode_injective(a, b);
    lemma_bytes_lt_total(encode_utf8(a), encode_utf8(b));
    lemma_bytes_lt_asym(encode_utf8(a), encode_utf8(b));
    lemma_bytes_lt_irrefl(encode_utf8(a));
}

pub proof fn lemma_key_trans(a: Seq<char>, b: Seq<char>, c: Seq<char>)
    requires
        key_lt(a, b),
        key_lt(b, c),
    ensures
        key_lt(a, c),
{
    lemma_bytes_lt_trans(encode_utf8(a), encode_utf8(b), encode_utf8(c));
}

/// Inserting at the first key that is not smaller replaces or adds the entry there.
pub proof fn lemma_map_insert_at<V>(s: Seq<(Seq<char>, V)>, k: Seq<char>, v: V, i: int)
    requires
        0 <= i <= s.len(),
        forall|j: int| 0 <= j < i ==> key_lt(#[trigger] s[j].0, k),
        i < s.len() ==> !key_lt(s[i].0, k),
    ensures
        map_insert(s, k, v) == (if i < s.len() && s[i].0 == k {
            s.update(i, (k, v))
        } else {
            s.insert(i, (k, v))
        }),
    decreases s.len(),
{
    if s.len() == 0 {
        assert(s.insert(0, (k, v)) =~= seq![(k, v)]);
    } else if i == 0 {
        lemma_key_order(s[0].0, k);
        if s[0].0 == k {
            assert(seq![(k, v)] + s.drop_first() =~= s.update(0, (k, v)));
        } else {
            assert(seq![(k, v)] + s =~= s.insert(0, (k, v)));
        }
    } else {
        lemma_key_order(s[0].0, k);
        assert(key_lt(s[0].0, k));
        let t = s.drop_first();
        assert forall|j: int| 0 <= j < i - 1 implies key_lt(#[trigger] t[j].0, k) by {
            assert(t[j] == s[j + 1]);
        }
        lemma_map_insert_at(t, k, v, i - 1);
        if i < s.len() && s[i].0 == k {
            assert(seq![s[0]] + t.update(i - 1, (k, v)) =~= s.update(i, (k, v)));
        } else {
            assert(seq![s[0]] + t.insert(i - 1, (k, v)) =~= s.insert(i, (k, v)));
        }
    }
}

/// The entry with key `k` is the first one whose key is `k`.
pub proof fn lemma_map_lookup_at<V>(s: Seq<(Seq<char>, V)>, k: Seq<char>, i: int)
    requires
        0 <= i <= s.len(),
        forall|j: int| 0 <= j < i ==> #[trigger] s[j].0 != k,
        i < s.len() ==> s[i].0 == k,
    ensures
        map_lookup(s, k) == (if i < s.len() {
            Some(s[i].1)
        } else {
            None::<V>
        }),
    decreases s.len(),
{
    if s.len() > 0 && i > 0 {
        let t = s.drop_first();
        assert forall|j: int| 0 <= j < i - 1 implies #[trigger] t[j].0 != k by {
            assert(t[j] == s[j + 1]);
        }
        lemma_map_lookup_at(t, k, i - 1);
    }
}

/// The values of key/value pairs, entry by entry.
pub proof fn lemma_pair_models(s: Seq<(String, RespFrame)>)
    ensures
        pair_models(s).len() == s.len(),
        forall|i: int|
            0 <= i < s.len() ==> #[trigger] pair_models(s)[i] == (s[i].0@, s[i].1.model()),
    decreases s.len(),
{
    if s.len() > 0 {
        lemma_pair_models(s.drop_first());
        assert forall|i: int| 0 <= i < s.len() implies #[trigger] pair_models(s)[i] == (
            s[i].0@,
            s[i].1.model(),
        ) by {
            if i > 0 {
                assert(pair_models(s)[i] == pair_models(s.drop_first())[i - 1]);
            }
        }
    }
}

/// What is inserted under a key is found under it; every other key finds what it
/// found before.
pub proof fn lemma_lookup_insert<V>(s: Seq<(Seq<char>, V)>, k: Seq<char>, v: V, other: Seq<char>)
    ensures
        map_lookup(map_insert(s, k, v), k) == Some(v),
        other != k ==> map_lookup(map_insert(s, k, v), other) == map_lookup(s, other),
    decreases s.len(),
{
    if s.len() > 0 && s[0].0 != k && !key_lt(k, s[0].0) {
        lemma_lookup_insert(s.drop_first(), k, v, other);
        assert((seq![s[0]] + map_insert(s.drop_first(), k, v)).drop_first() =~= map_insert(
            s.drop_first(),
            k,
            v,
        ));
    } else if s.len() > 0 && s[0].0 == k {
        assert((seq![(k, v)] + s.drop_first()).drop_first() =~= s.drop_first());
    } else if s.len() > 0 {
        assert((seq![(k, v)] + s).drop_first() =~= s);
    } else {
        assert(seq![(k, v)].drop_first() =~= s);
    }
}

/// Inserting keeps the keys increasing.
pub proof fn lemma_insert_sorted<V>(s: Seq<(Seq<char>, V)>, k: Seq<char>, v: V)
    requires
        sorted_keys(s),
    ensures
        sorted_keys(map_insert(s, k, v)),
    decreases s.len(),
{
    if s.len() > 0 {
        lemma_key_order(s[0].0, k);
        let t = s.drop_first();
        assert forall|a: int, b: int| 0 <= a < b < t.len() implies key_lt(
            #[trigger] t[a].0,
            #[trigger] t[b].0,
        ) by {
            assert(t[a] == s[a + 1] && t[b] == s[b + 1]);
        }
        if s[0].0 == k {
            let r = seq![(k, v)] + t;
            assert forall|a: int, b: int| 0 <= a < b < r.len() implies key_lt(
                #[trigger] r[a].0,
                #[trigger] r[b].0,
            ) by {
                assert(key_lt(s[a].0, s[b].0));
            }
        } else if key_lt(k, s[0].0) {
            let r = seq![(k, v)] + s;
            assert forall|a: int, b: int| 0 <= a < b < r.len() implies key_lt(
                #[trigger] r[a].0,
                #[trigger] r[b].0,
            ) by {
                if a == 0 {
                    if b > 1 {
                        lemma_key_trans(k, s[0].0, s[b - 1].0);
                    }
                } else {
                    assert(key_lt(s[a - 1].0, s[b - 1].0));
                }
            }
        } else {
            lemma_insert_sorted(t, k, v);
            let m = map_insert(t, k, v);
            let r = seq![s[0]] + m;
            assert forall|x: int| 0 <= x < m.len() implies key_lt(s[0].0, #[trigger] m[x].0) by {
                lemma_insert_keys(t, k, v, x);
                if m[x].0 != k {
                    let j = choose|j: int| 0 <= j < t.len() && t[j].0 == m[x].0;
                    assert(key_lt(s[0].0, s[j + 1].0));
                }
            }
            assert forall|a: int, b: int| 0 <= a < b < r.len() implies key_lt(
                #[trigger] r[a].0,
                #[trigger] r[b].0,
            ) by {
                if a == 0 {
                    assert(r[b] == m[b - 1]);
                } else {
                    assert(r[a] == m[a - 1] && r[b] == m[b - 1]);
                }
            }
        }
    }
}

/// Every key after an insertion is the inserted key or a key that was there.
proof fn lemma_insert_keys<V>(s: Seq<(Seq<char>, V)>, k: Seq<char>, v: V, x: int)
    requires
        0 <= x < map_insert(s, k, v).len(),
    ensures
        map_insert(s, k, v)[x].0 == k || exists|j: int|
            0 <= j < s.len() && #[trigger] s[j].0 == map_insert(s, k, v)[x].0,
    decreases s.len(),
{
    if s.len() > 0 {
        let t = s.drop_first();
        if s[0].0 == k {
            if x > 0 {
                assert(s[x].0 == map_insert(s, k, v)[x].0);
            }
        } else if key_lt(k, s[0].0) {
            if x > 0 {
                assert(s[x - 1].0 == map_insert(s, k, v)[x].0);
            }
        } else if x > 0 {
            lemma_insert_keys(t, k, v, x - 1);
            if map_insert(t, k, v)[x - 1].0 != k {
                let j = choose|j: int| 0 <= j < t.len() && t[j].0 == map_insert(t, k, v)[x - 1].0;
                assert(s[j + 1].0 == t[j].0);
            }
        }
    }
}

/// A lookup in a sequence with one more pair at its end finds what it found before, or
/// else the new pair.
pub proof fn lemma_lookup_push<V>(s: Seq<(Seq<char>, V)>, p: (Seq<char>, V), k: Seq<char>)
    ensures
        map_lookup(s.push(p), k) == (match map_lookup(s, k) {
            Some(x) => Some(x),
            None => if p.0 == k {
                Some(p.1)
            } else {
                None
            },
        }),
    decreases s.len(),
{
    if s.len() > 0 {
        assert(s.push(p).drop_first() =~= s.drop_first().push(p));
        lemma_lookup_push(s.drop_first(), p, k);
    } else {
        assert(s.push(p).drop_first() =~= s);
    }
}

/// The first pair of a sequence whose keys increase holds its least key, and no later
/// pair holds that key.
proof fn lemma_first_least<V>(s: Seq<(Seq<char>, V)>, k: Seq<char>)
    requires
        sorted_keys(s),
        s.len() > 0,
    ensures
        map_lookup(s.drop_first(), s[0].0) is None,
        forall|x: Seq<char>| x != s[0].0 ==> map_lookup(s.drop_first(), x) == map_lookup(s, x),
        sorted_keys(s.drop_first()),
{
    let t = s.drop_first();
    assert forall|j: int| 0 <= j < t.len() implies #[trigger] t[j].0 != s[0].0 by {
        assert(key_lt(s[0].0, s[j + 1].0));
        lemma_key_order(s[0].0, s[0].0);
    }
    lemma_map_lookup_at(t, s[0].0, t.len() as int);
    assert forall|a: int, b: int| 0 <= a < b < t.len() implies key_lt(
        #[trigger] t[a].0,
        #[trigger] t[b].0,
    ) by {
        assert(t[a] == s[a + 1] && t[b] == s[b + 1]);
    }
}

/// A key found by a lookup stands at some index of the sequence.
pub proof fn lemma_lookup_found<V>(s: Seq<(Seq<char>, V)>, k: Seq<char>) -> (i: int)
    requires
        map_lookup(s, k) is Some,
    ensures
        0 <= i < s.len(),
        s[i].0 == k,
        map_lookup(s, k) == Some(s[i].1),
        forall|j: int| 0 <= j < i ==> #[trigger] s[j].0 != k,
    decreases s.len(),
{
    if s[0].0 == k {
        0
    } else {
        let j = lemma_lookup_found(s.drop_first(), k);
        assert(s.drop_first()[j] == s[j + 1]);
        assert forall|x: int| 0 <= x < j + 1 implies #[trigger] s[x].0 != k by {
            if x > 0 {
                assert(s[x] == s.drop_first()[x - 1]);
            }
        }
        j + 1
    }
}

/// Two sequences whose keys increase and which find the same thing under every key
/// are the same sequence.
pub proof fn lemma_sorted_unique<V>(a: Seq<(Seq<char>, V)>, b: Seq<(Seq<char>, V)>)
    requires
        sorted_keys(a),
        sorted_keys(b),
        forall|k: Seq<char>| map_lookup(a, k) == map_lookup(b, k),
    ensures
        a == b,
    decreases a.len(),
{
    if a.len() == 0 {
        if b.len() > 0 {
            assert(map_lookup(b, b[0].0) is Some);
        }
        assert(a =~= b);
    } else {
        assert(map_lookup(a, a[0].0) is Some);
        assert(map_lookup(b, b[0].0) is Some);
        let j = lemma_lookup_found(b, a[0].0);
        let i = lemma_lookup_found(a, b[0].0);
        lemma_key_order(a[0].0, b[0].0);
        if j > 0 {
            assert(key_lt(b[0].0, b[j].0));
            if i > 0 {
                assert(key_lt(a[0].0, a[i].0));
            }
        }
        assert(a[0].0 == b[0].0);
        assert(a[0] == b[0]);
        lemma_first_least(a, a[0].0);
        lemma_first_least(b, b[0].0);
        let ta = a.drop_first();
        let tb = b.drop_first();
        assert forall|k: Seq<char>| map_lookup(ta, k) == map_lookup(tb, k) by {
            if k != a[0].0 {
                assert(map_lookup(a, k) == map_lookup(b, k));
            }
        }
        lemma_sorted_unique(ta, tb);
        assert(a =~= seq![a[0]] + ta);
        assert(b =~= seq![b[0]] + tb);
    }
}

/// Three ways two byte strings compare.
pub enum KeyOrder {
    Less,
    Equal,
    Greater,
}

/// Compares byte strings lexicographically.
pub fn compare_bytes(a: &[u8], b: &[u8]) -> (r: KeyOrder)
    ensures
        r is Less <==> bytes_lt(a@, b@),
        r is Equal <==> a@ == b@,
        r is Greater <==> bytes_lt(b@, a@),
{
    proof {
        lemma_bytes_lt_total(a@, b@);
        lemma_bytes_lt_asym(a@, b@);
        lemma_bytes_lt_irrefl(a@);
    }
    let mut i: usize = 0;
    assert(a@.skip(0) =~= a@ && b@.skip(0) =~= b@);
    while i < a.len() && i < b.len()
        invariant
            i <= a@.len(),
            i <= b@.len(),
            a@.take(i as int) == b@.take(i as int),
            bytes_lt(a@, b@) == bytes_lt(a@.skip(i as int), b@.skip(i as int)),
            bytes_lt(b@, a@) == bytes_lt(b@.skip(i as int), a@.skip(i as int)),
        decreases a@.len() - i,
    {
        if a[i] < b[i] {
            return KeyOrder::Less;
        } else if a[i] > b[i] {
            return KeyOrder::Greater;
        }
        assert(a@.skip(i as int).drop_first() =~= a@.skip(i + 1));
        assert(b@.skip(i as int).drop_first() =~= b@.skip(i + 1));
        assert(a@.take(i + 1) =~= a@.take(i as int).push(a[i as int]));
        assert(b@.take(i + 1) =~= b@.take(i as int).push(b[i as int]));
        i = i + 1;
    }
    if i < b.len() {
        KeyOrder::Less
    } else if i < a.len() {
        KeyOrder::Greater
    } else {
        assert(a@ =~= a@.take(i as int));
        assert(b@ =~= b@.take(i as int));
        KeyOrder::Equal
    }
}

/// A map from text keys to frames, kept in key order.
///
/// The entries are a vector of pairs whose keys strictly increase (the type
/// invariant), rather than a `BTreeMap`: vstd states what a `BTreeMap` does only for
/// key types whose ordering it models, and `String` is not one of them, so nothing
/// could be proved of such a map here.
#[derive(Debug, PartialEq)]
pub struct RespMap {
    pub(crate) pairs: Vec<(String, RespFrame)>,
}

impl RespMap {
    /// Keys strictly increase along the entries.
    #[verifier::type_invariant]
    pub closed spec fn keys_increase(self) -> bool {
        forall|i: int, j: int|
            0 <= i < j < self.pairs@.len() ==> key_lt(
                #[trigger] self.pairs@[i].0@,
                #[trigger] self.pairs@[j].0@,
            )
    }

    /// The entries as values, in key order.
    pub closed spec fn entries(&self) -> Seq<(Seq<char>, FrameModel)>
        decreases self,
    {
        pair_models(self.pairs@)
    }

    /// An empty map.
    pub fn new() -> (m: Self)
        ensures
            m.entries() == Seq::<(Seq<char>, FrameModel)>::empty(),
    {
        let m = RespMap { pairs: Vec::new() };
        assert(m.entries() =~= Seq::<(Seq<char>, FrameModel)>::empty());
        m
    }

    /// The number of entries.
    pub fn len(&self) -> (n: usize)
        ensures
            n == self.entries().len(),
    {
        proof {
            lemma_pair_models(self.pairs@);
        }
        self.pairs.len()
    }

    /// Whether the map has no entry.
    pub fn is_empty(&self) -> (b: bool)
        ensures
            b == (self.entries().len() == 0),
    {
        proof {
            lemma_pair_models(self.pairs@);
        }
        self.pairs.len() == 0
    }

    /// Index of the first entry whose key is not smaller than `key`.
    fn position(&self, key: &[u8]) -> (i: usize)
        requires
            key@ == encode_utf8(key_chars(key@)),
        ensures
            i <= self.pairs@.len(),
            forall|j: int| 0 <= j < i ==> key_lt(#[trigger] self.pairs@[j].0@, key_chars(key@)),
            i < self.pairs@.len() ==> !key_lt(self.pairs@[i as int].0@, key_chars(key@)),
    {
        let mut i: usize = 0;
        while i < self.pairs.len()
            invariant
                i <= self.pairs@.len(),
                key@ == encode_utf8(key_chars(key@)),
                forall|j: int|
                    0 <= j < i ==> key_lt(#[trigger] self.pairs@[j].0@, key_chars(key@)),
            decreases self.pairs@.len() - i,
        {
            let k = self.pairs[i].0.as_str().as_bytes();
            match compare_bytes(k, key) {
                KeyOrder::Less => {},
                _ => {
                    return i;
                },
            }
            i = i + 1;
        }
        i
    }

    /// Looks up the frame stored under `key`.
    pub fn get(&self, key: &str) -> (r: Option<&RespFrame>)
        ensures
            match r {
                Some(f) => map_lookup(self.entries(), key@) == Some(f.model()),
                None => map_lookup(self.entries(), key@) is None,
            },
    {
        proof {
            use_type_invariant(self);
            lemma_pair_models(self.pairs@);
            encode_utf8_decode_utf8(key@);
        }
        let kb = key.as_bytes();
        let i = self.position(kb);
        let found = i < self.pairs.len() && match compare_bytes(self.pairs[i].0.as_str().as_bytes(), kb) {
            KeyOrder::Equal => true,
            _ => false,
        };
        proof {
            let e = self.entries();
            if found {
                lemma_encode_injective(self.pairs@[i as int].0@, key@);
                assert forall|j: int| 0 <= j < i implies #[trigger] e[j].0 != key@ by {
                    lemma_key_order(e[j].0, key@);
                }
                lemma_map_lookup_at(e, key@, i as int);
            } else {
                assert forall|j: int| 0 <= j < e.len() implies #[trigger] e[j].0 != key@ by {
                    lemma_key_order(e[j].0, key@);
                    if j > i {
                        lemma_key_order(e[i as int].0, key@);
                        if e[j].0 == key@ {
                            assert(key_lt(e[i as int].0, e[j].0));
                        }
                    }
                }
                lemma_map_lookup_at(e, key@, e.len() as int);
            }
        }
        if found {
            Some(&self.pairs[i].1)
        } else {
            None
        }
    }

    /// Stores `value` under `key`, returning the frame that was stored there before.
    pub fn insert(&mut self, key: String, value: RespFrame) -> (old_value: Option<RespFrame>)
        ensures
            final(self).entries() == map_insert(old(self).entries(), key@, value.model()),
            sorted_keys(final(self).entries()),
            match old_value {
                Some(f) => map_lookup(old(self).entries(), key@) == Some(f.model()),
                None => map_lookup(old(self).entries(), key@) is None,
            },
    {
        proof {
            use_type_invariant(&*self);
            lemma_pair_models(self.pairs@);
            encode_utf8_decode_utf8(key@);
        }
        let ghost k = key@;
        let ghost old_pairs = self.pairs@;
        let ghost e = self.entries();
        let i = self.position(key.as_str().as_bytes());
        let found = i < self.pairs.len() && match compare_bytes(
            self.pairs[i].0.as_str().as_bytes(),
            key.as_str().as_bytes(),
        ) {
            KeyOrder::Equal => true,
            _ => false,
        };
        proof {
            if found {
                lemma_encode_injective(old_pairs[i as int].0@, k);
            }
            assert forall|j: int| 0 <= j < i implies key_lt(#[trigger] e[j].0, k) by {}
            lemma_map_insert_at(e, k, value.model(), i as int);
            if found {
                assert forall|j: int| 0 <= j < i implies #[trigger] e[j].0 != k by {
                    lemma_key_order(e[j].0, k);
                }
                lemma_map_lookup_at(e, k, i as int);
            } else {
                assert forall|j: int| 0 <= j < e.len() implies #[trigger] e[j].0 != k by {
                    lemma_key_order(e[j].0, k);
                    if j > i {
                        lemma_key_order(e[i as int].0, k);
                        if e[j].0 == k {
                            assert(key_lt(e[i as int].0, e[j].0));
                        }
                    }
                }
                lemma_map_lookup_at(e, k, e.len() as int);
            }
        }
        let mut v: Vec<(String, RespFrame)> = Vec::new();
        std::mem::swap(&mut v, &mut self.pairs);
        let ghost vm = value.model();
        let old_value = if found {
            let (_, prev) = v.remove(i);
            v.insert(i, (key, value));
            Some(prev)
        } else {
            v.insert(i, (key, value));
            None
        };
        proof {
            lemma_pair_models(v@);
            assert(pair_models(v@) =~= (if found {
                e.update(i as int, (k, vm))
            } else {
                e.insert(i as int, (k, vm))
            }));
            assert forall|a: int, b: int| 0 <= a < b < v@.len() implies key_lt(
                #[trigger] v@[a].0@,
                #[trigger] v@[b].0@,
            ) by {
                if found {
                    if a == i {
                        assert(key_lt(old_pairs[a].0@, old_pairs[b].0@));
                    } else if b == i {
                        assert(key_lt(old_pairs[a].0@, old_pairs[b].0@));
                    }
                } else {
                    if a == i {
                        lemma_key_order(old_pairs[i as int].0@, k);
                        if b - 1 > i {
                            lemma_key_trans(k, old_pairs[i as int].0@, old_pairs[b - 1].0@);
                        }
                    } else if b == i {
                    } else if a > i {
                        assert(v@[a] == old_pairs[a - 1]);
                        assert(v@[b] == old_pairs[b - 1]);
                    } else if b > i {
                        assert(v@[b] == old_pairs[b - 1]);
                    }
                }
            }
        }
        self.pairs = v;
        proof {
            lemma_pair_models(self.pairs@);
        }
        old_value
    }
}

/// The text whose UTF-8 encoding is the given bytes.
pub open spec fn key_chars(b: Seq<u8>) -> Seq<char> {
    decode_utf8(b)
}

impl RespMap {
    /// A copy of the map.
    pub fn duplicate(&self) -> (r: Self)
        ensures
            r.entries() == self.entries(),
        decreases self,
    {
        proof {
            use_type_invariant(self);
        }
        let mut out: Vec<(String, RespFrame)> = Vec::new();
        let mut i: usize = 0;
        while i < self.pairs.len()
            invariant
                i <= self.pairs@.len(),
                out@.len() == i,
                forall|j: int|
                    0 <= j < i ==> #[trigger] out@[j].0@ == self.pairs@[j].0@ && out@[j].1.model()
                        == self.pairs@[j].1.model(),
            decreases self.pairs@.len() - i,
        {
            let k = self.pairs[i].0.clone();
            assert(decreases_to!(self => self.pairs@[i as int].1));
            let v = self.pairs[i].1.duplicate();
            out.push((k, v));
            i = i + 1;
        }
        proof {
            lemma_pair_models(out@);
            lemma_pair_models(self.pairs@);
            assert(pair_models(out@) =~= pair_models(self.pairs@));
            assert forall|a: int, b: int| 0 <= a < b < out@.len() implies key_lt(
                #[trigger] out@[a].0@,
                #[trigger] out@[b].0@,
            ) by {
                assert(key_lt(self.pairs@[a].0@, self.pairs@[b].0@));
            }
        }
        RespMap { pairs: out }
    }
}

impl RespMap {
    /// The entries, in key order, taken out of the map.
    pub fn into_pairs(self) -> (r: Vec<(String, RespFrame)>)
        ensures
            pair_models(r@) == self.entries(),
            forall|i: int, j: int|
                0 <= i < j < r@.len() ==> key_lt(#[trigger] r@[i].0@, #[trigger] r@[j].0@),
    {
        proof {
            use_type_invariant(&self);
        }
        self.pairs
    }
}

impl RespMap {
    /// Prints the entries the way `{:?}` prints those of an ordered map:
    /// `"key": frame`, separated by `, `.
    pub fn pairs_debug(&self) -> (r: String)
        ensures
            r@ == pairs_debug_text(self.entries()),
        decreases self,
    {
        proof {
            lemma_pair_models(self.pairs@);
        }
        let ghost e = self.entries();
        let mut m = String::new();
        let mut i: usize = 0;
        while i < self.pairs.len()
            invariant
                i <= self.pairs@.len(),
                e == self.entries(),
                e.len() == self.pairs@.len(),
                forall|j: int|
                    0 <= j < self.pairs@.len() ==> #[trigger] e[j] == (
                        self.pairs@[j].0@,
                        self.pairs@[j].1.model(),
                    ),
                m@ == pairs_debug_text(e.take(i as int)),
            decreases self.pairs@.len() - i,
        {
            assert(decreases_to!(self => self.pairs@[i as int].1));
            let ghost t = e.take(i + 1);
            assert(t.drop_last() =~= e.take(i as int));
            if i > 0 {
                m.append(", ");
            } else {
                assert(e.take(0) =~= Seq::<(Seq<char>, FrameModel)>::empty());
            }
            let k = str_debug(self.pairs[i].0.as_str());
            m.append(k.as_str());
            m.append(": ");
            let d = frame_debug(&self.pairs[i].1);
            m.append(d.as_str());
            i = i + 1;
        }
        assert(e.take(e.len() as int) =~= e);
        m
    }
}

impl core::ops::Deref for RespMap {
    type Target = [(String, RespFrame)];

    fn deref(&self) -> (r: &[(String, RespFrame)])
        ensures
            pair_models(r@) == self.entries(),
    {
        self.pairs.as_slice()
    }
}

impl Clone for RespMap {
    fn clone(&self) -> (r: Self) {
        self.duplicate()
    }
}

impl RespMap {
    /// The entries, in key order.
    pub fn as_slice(&self) -> (r: &[(String, RespFrame)])
        ensures
            pair_models(r@) == self.entries(),
            forall|i: int, j: int|
                0 <= i < j < r@.len() ==> key_lt(#[trigger] r@[i].0@, #[trigger] r@[j].0@),
            forall|i: int| 0 <= i < r@.len() ==> decreases_to!(self => r@[i].1),
    {
        proof {
            use_type_invariant(self);
            assert forall|i: int| 0 <= i < self.pairs@.len() implies decreases_to!(
                self => self.pairs@[i].1
            ) by {
                assert(decreases_to!(self => self.pairs@[i].1));
            }
        }
        self.pairs.as_slice()
    }
}

} // verus!
