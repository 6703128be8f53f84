//! What holds of reading and writing frames together: a frame that is written
//! and then read back comes back unchanged, using exactly its own bytes.
use vstd::prelude::*;
use vstd::utf8::*;
use crate::text::{
    ascii_text, dec, dec_signed, find_from, is_ascii_bytes, is_digit, is_exponent,
    is_float_text, is_mantissa, is_number, lemma_ascii_utf8, lemma_dec, lemma_parse_dec,
    lemma_parse_dec_signed, lower, word_is,
};
use super::{fail, ErrorModel, Halt};
use super::frame::FrameModel;
use super::map::{key_lt, lemma_map_insert_at, map_insert, sorted_keys};
use super::parse::{
    decode_array, decode_boolean, decode_bulk, decode_double, decode_fixed, decode_frame,
    decode_integer, decode_items, decode_map, decode_null, decode_null_array, decode_null_bulk,
    decode_pairs, decode_set, decode_simple_error, decode_simple_string,
};
use super::encode::{header, key_wire, pairs_wire, wire, wires};
use super::decode::{
    crlf, crlf_from, first_crlf, follows_frames, follows_pairs, frame_extent, is_crlf_at,
    item_extent, items_extent, total_length,
    spec_check_len, spec_compute_end, spec_compute_end_with_crlf, spec_extract_len,
    spec_line_content, spec_line_text, spec_line_utf8, lemma_check_len_ok, lemma_crlf_from,
};

verus! {

broadcast use vstd::utf8::group_utf8_lib;

/// No `\r\n` pair inside the bytes.
pub open spec fn no_crlf(a: Seq<u8>) -> bool {
    forall|i: int| 0 <= i && i + 1 < a.len() ==> !(#[trigger] a[i] == 13 && a[i + 1] == 10)
}

/// The UTF-8 encoding of an ASCII literal is its bytes.
pub proof fn lemma_ascii_chars(c: Seq<char>, b: Seq<u8>)
    requires
        c.len() == b.len(),
        forall|i: int| 0 <= i < c.len() ==> b[i] < 128 && #[trigger] c[i] == b[i] as char,
    ensures
        encode_utf8(c) == b,
{
    assert forall|i: int| 0 <= i < b.len() implies #[trigger] b[i] < 128 by {
        assert(c[i] == b[i] as char);
    }
    lemma_ascii_utf8(b);
    assert(ascii_text(b) =~= c);
}

/// The bytes of the literals that the readers look for.
pub proof fn lemma_literals()
    ensures
        encode_utf8("+"@) == seq![43u8],
        encode_utf8("-"@) == seq![45u8],
        encode_utf8(":"@) == seq![58u8],
        encode_utf8("#"@) == seq![35u8],
        encode_utf8(","@) == seq![44u8],
        encode_utf8("$"@) == seq![36u8],
        encode_utf8("*"@) == seq![42u8],
        encode_utf8("%"@) == seq![37u8],
        encode_utf8("~"@) == seq![126u8],
        encode_utf8(""@) == Seq::<u8>::empty(),
        encode_utf8("_\r\n"@) == seq![95u8, 13u8, 10u8],
        encode_utf8("$-1\r\n"@) == seq![36u8, 45u8, 49u8, 13u8, 10u8],
        encode_utf8("*-1\r\n"@) == seq![42u8, 45u8, 49u8, 13u8, 10u8],
{
    reveal_strlit("+");
    reveal_strlit("-");
    reveal_strlit(":");
    reveal_strlit("#");
    reveal_strlit(",");
    reveal_strlit("$");
    reveal_strlit("*");
    reveal_strlit("%");
    reveal_strlit("~");
    reveal_strlit("");
    reveal_strlit("_\r\n");
    reveal_strlit("$-1\r\n");
    reveal_strlit("*-1\r\n");
    lemma_ascii_chars("+"@, seq![43u8]);
    lemma_ascii_chars("-"@, seq![45u8]);
    lemma_ascii_chars(":"@, seq![58u8]);
    lemma_ascii_chars("#"@, seq![35u8]);
    lemma_ascii_chars(","@, seq![44u8]);
    lemma_ascii_chars("$"@, seq![36u8]);
    lemma_ascii_chars("*"@, seq![42u8]);
    lemma_ascii_chars("%"@, seq![37u8]);
    lemma_ascii_chars("~"@, seq![126u8]);
    lemma_ascii_chars("_\r\n"@, seq![95u8, 13u8, 10u8]);
    lemma_ascii_chars("$-1\r\n"@, seq![36u8, 45u8, 49u8, 13u8, 10u8]);
    lemma_ascii_chars("*-1\r\n"@, seq![42u8, 45u8, 49u8, 13u8, 10u8]);
}

/// The search finds the first `\r\n` at `k` when there is none before it.
pub proof fn lemma_crlf_found(s: Seq<u8>, i: nat, k: nat)
    requires
        i <= k,
        is_crlf_at(s, k as int),
        forall|j: int| i <= j < k ==> !#[trigger] is_crlf_at(s, j),
    ensures
        crlf_from(s, i) == Some(k),
    decreases k - i,
{
    if i < k {
        assert(!is_crlf_at(s, i as int));
        lemma_crlf_found(s, i + 1, k);
    }
}

/// A line without `\r\n` inside ends at its `\r\n`.
pub proof fn lemma_line_end(a: Seq<u8>, rest: Seq<u8>)
    requires
        no_crlf(a),
    ensures
        first_crlf(a + crlf() + rest) == Some(a.len()),
{
    let s = a + crlf() + rest;
    assert forall|j: int| 0 <= j < a.len() implies !#[trigger] is_crlf_at(s, j) by {
        if j + 1 < a.len() {
            assert(s[j] == a[j] && s[j + 1] == a[j + 1]);
        } else {
            assert(s[j + 1] == 13);
        }
    }
    assert(is_crlf_at(s, a.len() as int));
    lemma_crlf_found(s, 0, a.len());
}

/// A line `<prefix byte><body>\r\n` is read as its body.
pub proof fn lemma_read_line(
    p: u8,
    pc: Seq<char>,
    kind: Seq<char>,
    body: Seq<u8>,
    rest: Seq<u8>,
)
    requires
        encode_utf8(pc) == seq![p],
        p != 13,
        no_crlf(body),
    ensures
        ({
            let s = seq![p] + body + crlf() + rest;
            &&& spec_compute_end(s, pc, kind) == Ok::<nat, Halt>(body.len() + 1)
            &&& spec_compute_end_with_crlf(s, pc, kind) == Ok::<nat, Halt>(body.len() + 3)
            &&& spec_line_content(s, pc, kind) == (Ok::<Seq<u8>, Halt>(body), body.len() + 3)
            &&& valid_utf8(body) ==> spec_line_text(s, pc, kind) == (
                Ok::<Seq<char>, Halt>(decode_utf8(body)),
                body.len() + 3,
            )
        }),
{
    reveal(spec_compute_end);
    reveal(spec_line_content);
    reveal(spec_line_utf8);
    reveal(spec_line_text);
    let a = seq![p] + body;
    assert(no_crlf(a)) by {
        assert forall|i: int| 0 <= i && i + 1 < a.len() implies !(#[trigger] a[i] == 13 && a[i
            + 1] == 10) by {
            if i > 0 {
                assert(a[i] == body[i - 1] && a[i + 1] == body[i]);
            }
        }
    }
    lemma_line_end(a, rest);
    let s = seq![p] + body + crlf() + rest;
    assert(s =~= a + crlf() + rest);
    assert(s.take(1) =~= seq![p]);
    assert(s.subrange(1, body.len() + 1int) =~= body);
}

/// The digits of a count hold no `\r\n` and are ASCII.
pub proof fn lemma_dec_plain(n: nat)
    ensures
        no_crlf(dec(n)),
        is_ascii_bytes(dec(n)),
        valid_utf8(dec(n)),
        dec(n).len() >= 1,
        is_digit(dec(n)[0]),
{
    lemma_dec(n);
    assert forall|i: int| 0 <= i && i + 1 < dec(n).len() implies !(#[trigger] dec(n)[i] == 13
        && dec(n)[i + 1] == 10) by {
        assert(is_digit(dec(n)[i]));
    }
    assert forall|i: int| 0 <= i < dec(n).len() implies #[trigger] dec(n)[i] < 128 by {
        assert(is_digit(dec(n)[i]));
    }
    lemma_ascii_utf8(dec(n));
}

/// A header line `<prefix byte><count>\r\n` is read as its count.
pub proof fn lemma_read_header(p: u8, pc: Seq<char>, kind: Seq<char>, n: nat, rest: Seq<u8>)
    requires
        encode_utf8(pc) == seq![p],
        p != 13,
        n <= usize::MAX,
    ensures
        spec_extract_len(seq![p] + dec(n) + crlf() + rest, pc, kind) == Ok::<(nat, nat), Halt>(
            (dec(n).len() + 1, n),
        ),
{
    reveal(spec_extract_len);
    lemma_dec_plain(n);
    lemma_read_line(p, pc, kind, dec(n), rest);
    let s = seq![p] + dec(n) + crlf() + rest;
    assert(s.subrange(1, dec(n).len() + 1int) =~= dec(n));
    lemma_parse_dec(n as usize);
}

/// A frame that `RespFrame::expect_length` measures as exactly its own bytes: a simple
/// string, error or double whose text holds no `\r\n`; any integer, boolean, null or
/// bulk string with content; an array (with elements) or a set of such frames; and a
/// map whose keys hold no `\r\n` and whose values are such frames.
pub open spec fn measurable(f: FrameModel) -> bool
    decreases f,
{
    match f {
        FrameModel::SimpleString(c) => no_crlf(encode_utf8(c)),
        FrameModel::SimpleError(c) => no_crlf(encode_utf8(c)),
        FrameModel::Double(t) => no_crlf(encode_utf8(t)),
        FrameModel::Integer(_) => true,
        FrameModel::Boolean(_) => true,
        FrameModel::Null => true,
        FrameModel::BulkString(Some(_)) => true,
        FrameModel::BulkString(None) => false,
        FrameModel::NullBulkString => false,
        FrameModel::Array(Some(items)) => all_measurable(items),
        FrameModel::Array(None) => false,
        FrameModel::NullArray => false,
        FrameModel::RespSet(items) => all_measurable(items),
        FrameModel::RespMap(ps) => pairs_measurable(ps),
    }
}

/// Every frame of the sequence is [`measurable`].
pub open spec fn all_measurable(s: Seq<FrameModel>) -> bool
    decreases s,
{
    s.len() == 0 || (measurable(s[0]) && all_measurable(s.drop_first()))
}

/// Every key holds no `\r\n` and every value is [`measurable`].
pub open spec fn pairs_measurable(ps: Seq<(Seq<char>, FrameModel)>) -> bool
    decreases ps,
{
    ps.len() == 0 || (no_crlf(encode_utf8(ps[0].0)) && measurable(ps[0].1) && pairs_measurable(
        ps.drop_first(),
    ))
}

/// A frame that reads back as itself from the front of a buffer: a simple string or
/// error without `\r\n`; any integer, boolean or null; a double whose text
/// `f64::from_str` accepts; non-empty bulk data without `\r\n` (the reader takes the
/// data up to the first `\r\n` after the length line, and an empty line counts as not
/// complete); the null bulk string and the null array; an array (empty or not), a set,
/// and a map with increasing keys without `\r\n`, whose elements or values are
/// [`measurable`] (the readers measure them first) and read back themselves.
pub open spec fn readable(f: FrameModel) -> bool
    decreases f,
{
    match f {
        FrameModel::SimpleString(c) => no_crlf(encode_utf8(c)),
        FrameModel::SimpleError(c) => no_crlf(encode_utf8(c)),
        FrameModel::Integer(_) => true,
        FrameModel::Boolean(_) => true,
        FrameModel::Null => true,
        FrameModel::Double(t) => is_float_text(encode_utf8(t)),
        FrameModel::BulkString(Some(d)) => no_crlf(d) && d.len() >= 1,
        FrameModel::BulkString(None) => false,
        FrameModel::NullBulkString => true,
        FrameModel::NullArray => true,
        FrameModel::Array(Some(items)) => items_readable(items),
        FrameModel::Array(None) => false,
        FrameModel::RespSet(items) => items_readable(items),
        FrameModel::RespMap(ps) => sorted_keys(ps) && pairs_readable(ps),
    }
}

/// Every frame is [`measurable`] and [`readable`].
pub open spec fn items_readable(s: Seq<FrameModel>) -> bool
    decreases s,
{
    s.len() == 0 || (measurable(s[0]) && readable(s[0]) && items_readable(s.drop_first()))
}

/// Every key holds no `\r\n`, and every value is [`measurable`] and [`readable`].
pub open spec fn pairs_readable(ps: Seq<(Seq<char>, FrameModel)>) -> bool
    decreases ps,
{
    ps.len() == 0 || (no_crlf(encode_utf8(ps[0].0)) && measurable(ps[0].1) && readable(ps[0].1)
        && pairs_readable(ps.drop_first()))
}

/// Readable elements are measurable.
proof fn lemma_items_readable_measurable(s: Seq<FrameModel>)
    requires
        items_readable(s),
    ensures
        all_measurable(s),
    decreases s.len(),
{
    if s.len() > 0 {
        lemma_items_readable_measurable(s.drop_first());
    }
}

/// Readable values are measurable.
proof fn lemma_pairs_readable_measurable(ps: Seq<(Seq<char>, FrameModel)>)
    requires
        pairs_readable(ps),
    ensures
        pairs_measurable(ps),
    decreases ps.len(),
{
    if ps.len() > 0 {
        lemma_pairs_readable_measurable(ps.drop_first());
    }
}

/// Every frame is written with at least one byte.
pub proof fn lemma_wire_nonempty(f: FrameModel)
    ensures
        wire(f).len() >= 1,
        f is Boolean ==> wire(f).len() == 4,
        f is Null ==> wire(f).len() == 3,
{
}

/// Frames written one after another take at least a byte each.
pub proof fn lemma_wires_len(s: Seq<FrameModel>)
    ensures
        wires(s).len() >= s.len(),
    decreases s.len(),
{
    if s.len() > 0 {
        lemma_wire_nonempty(s[0]);
        lemma_wires_len(s.drop_first());
    }
}

/// A header line followed by what comes after it.
proof fn lemma_header_split(p: u8, n: nat, body: Seq<u8>, rest: Seq<u8>)
    ensures
        header(p, n) + body + rest =~= seq![p] + dec(n) + crlf() + (body + rest),
        (header(p, n) + body + rest).skip(dec(n).len() + 3int) =~= body + rest,
        header(p, n).len() == dec(n).len() + 3,
{
}

/// A simple string, error, integer, double, boolean, null or bulk string measures as
/// its own bytes.
proof fn lemma_line_extent(f: FrameModel, rest: Seq<u8>)
    requires
        measurable(f),
        !(f is Array || f is RespSet || f is RespMap),
        (wire(f) + rest).len() <= usize::MAX,
    ensures
        frame_extent(wire(f) + rest) == Ok::<nat, Halt>(wire(f).len()),
{
    lemma_literals();
    let s = wire(f) + rest;
    match f {
        FrameModel::SimpleString(c) => {
            assert(s =~= seq![43u8] + encode_utf8(c) + crlf() + rest);
            lemma_read_line(43, "+"@, "SimpleString"@, encode_utf8(c), rest);
        },
        FrameModel::SimpleError(c) => {
            assert(s =~= seq![45u8] + encode_utf8(c) + crlf() + rest);
            lemma_read_line(45, "-"@, "SimpleError"@, encode_utf8(c), rest);
        },
        FrameModel::Integer(v) => {
            lemma_dec_signed_plain(v);
            assert(s =~= seq![58u8] + dec_signed(v) + crlf() + rest);
            lemma_read_line(58, ":"@, "RespInteger"@, dec_signed(v), rest);
        },
        FrameModel::Double(t) => {
            assert(s =~= seq![44u8] + encode_utf8(t) + crlf() + rest);
            lemma_read_line(44, ","@, "double"@, encode_utf8(t), rest);
        },
        FrameModel::BulkString(Some(d)) => {
            lemma_header_split(36, d.len(), d + crlf(), rest);
            assert(s =~= header(36, d.len()) + (d + crlf()) + rest);
            lemma_read_header(36, "$"@, ""@, d.len(), d + crlf() + rest);
            assert(seq![36u8] + dec(d.len()) + crlf() + (d + crlf() + rest) =~= s);
        },
        _ => {},
    }
}

/// An array (or set, when `set` holds) whose elements measure as their bytes measures
/// as its own bytes.
proof fn lemma_list_extent(items: Seq<FrameModel>, rest: Seq<u8>, set: bool)
    requires
        (wire(FrameModel::RespSet(items)) + rest).len() <= usize::MAX,
        items_extent(wires(items) + rest, items.len(), false) == Ok::<nat, Halt>(
            wires(items).len(),
        ),
    ensures
        set ==> frame_extent(wire(FrameModel::RespSet(items)) + rest) == Ok::<nat, Halt>(
            wire(FrameModel::RespSet(items)).len(),
        ),
        !set ==> frame_extent(wire(FrameModel::Array(Some(items))) + rest) == Ok::<nat, Halt>(
            wire(FrameModel::Array(Some(items))).len(),
        ),
{
    lemma_literals();
    lemma_wires_len(items);
    if set {
        lemma_header_split(126, items.len(), wires(items), rest);
        lemma_read_header(126, "~"@, "RespSet"@, items.len(), wires(items) + rest);
    } else {
        lemma_header_split(42, items.len(), wires(items), rest);
        lemma_read_header(42, "*"@, "RespArray"@, items.len(), wires(items) + rest);
    }
}

/// A map whose pairs measure as their bytes measures as its own bytes.
proof fn lemma_map_extent(ps: Seq<(Seq<char>, FrameModel)>, rest: Seq<u8>)
    requires
        pairs_wire(ps).len() >= ps.len(),
        (wire(FrameModel::RespMap(ps)) + rest).len() <= usize::MAX,
        items_extent(pairs_wire(ps) + rest, ps.len(), true) == Ok::<nat, Halt>(
            pairs_wire(ps).len(),
        ),
    ensures
        frame_extent(wire(FrameModel::RespMap(ps)) + rest) == Ok::<nat, Halt>(
            wire(FrameModel::RespMap(ps)).len(),
        ),
{
    lemma_literals();
    lemma_header_split(37, ps.len(), pairs_wire(ps), rest);
    lemma_read_header(37, "%"@, "RespMaps"@, ps.len(), pairs_wire(ps) + rest);
}

/// What `RespFrame::expect_length` measures for a [`measurable`] frame, followed by
/// anything at all: exactly the frame's bytes.
pub proof fn lemma_extent(f: FrameModel, rest: Seq<u8>)
    requires
        measurable(f),
        (wire(f) + rest).len() <= usize::MAX,
    ensures
        frame_extent(wire(f) + rest) == Ok::<nat, Halt>(wire(f).len()),
    decreases f,
{
    match f {
        FrameModel::Array(Some(items)) => {
            lemma_items_extent(items, rest);
            lemma_list_extent(items, rest, false);
        },
        FrameModel::RespSet(items) => {
            lemma_items_extent(items, rest);
            lemma_list_extent(items, rest, true);
        },
        FrameModel::RespMap(ps) => {
            lemma_pairs_extent(ps, rest);
            lemma_map_extent(ps, rest);
        },
        _ => lemma_line_extent(f, rest),
    }
}

/// [`measurable`] frames written one after another measure as exactly their bytes.
pub proof fn lemma_items_extent(items: Seq<FrameModel>, rest: Seq<u8>)
    requires
        all_measurable(items),
        (wires(items) + rest).len() <= usize::MAX,
    ensures
        items_extent(wires(items) + rest, items.len(), false) == Ok::<nat, Halt>(wires(items).len()),
    decreases items,
{
    if items.len() > 0 {
        let f = items[0];
        let tail = items.drop_first();
        let data = wires(items) + rest;
        assert(data =~= wire(f) + (wires(tail) + rest));
        lemma_extent(f, wires(tail) + rest);
        assert(data.skip(wire(f).len() as int) =~= wires(tail) + rest);
        lemma_items_extent(tail, rest);
        assert(item_extent(data, false) == Ok::<nat, Halt>(wire(f).len()));
        assert(wires(items).len() == wire(f).len() + wires(tail).len());
        assert((items.len() - 1) as nat == tail.len());
    }
}

/// What `calc_total_length` gives for a length line that ends at `end`, followed by
/// [`measurable`] frames of an array or set (or key/value pairs of a map) written one
/// after another and then anything at all: the line and exactly the written bytes.
pub proof fn lemma_total_length_written(
    line: Seq<u8>,
    end: nat,
    prefix: Seq<char>,
    items: Seq<FrameModel>,
    ps: Seq<(Seq<char>, FrameModel)>,
    rest: Seq<u8>,
)
    requires
        line.len() == end + 2,
        follows_frames(prefix) ==> all_measurable(items) && (line + wires(items) + rest).len()
            <= usize::MAX,
        follows_pairs(prefix) ==> pairs_measurable(ps) && (line + pairs_wire(ps) + rest).len()
            <= usize::MAX,
    ensures
        follows_frames(prefix) ==> total_length(line + wires(items) + rest, end, items.len(), prefix)
            == Ok::<nat, Halt>(line.len() + wires(items).len()),
        follows_pairs(prefix) ==> total_length(line + pairs_wire(ps) + rest, end, ps.len(), prefix)
            == Ok::<nat, Halt>(line.len() + pairs_wire(ps).len()),
{
    if follows_frames(prefix) {
        assert((line + wires(items) + rest).skip(end + 2int) =~= wires(items) + rest);
        lemma_items_extent(items, rest);
    }
    if follows_pairs(prefix) {
        assert((line + pairs_wire(ps) + rest).skip(end + 2int) =~= pairs_wire(ps) + rest);
        lemma_pairs_extent(ps, rest);
    }
}

/// Key/value pairs written one after another measure as exactly their bytes.
pub proof fn lemma_pairs_extent(ps: Seq<(Seq<char>, FrameModel)>, rest: Seq<u8>)
    requires
        pairs_measurable(ps),
        (pairs_wire(ps) + rest).len() <= usize::MAX,
    ensures
        items_extent(pairs_wire(ps) + rest, ps.len(), true) == Ok::<nat, Halt>(
            pairs_wire(ps).len(),
        ),
        pairs_wire(ps).len() >= 3 * ps.len(),
    decreases ps,
{
    if ps.len() > 0 {
        lemma_literals();
        let (k, v) = ps[0];
        let tail = ps.drop_first();
        assert(pairs_wire(ps) == key_wire(k) + wire(v) + pairs_wire(tail));
        let data = pairs_wire(ps) + rest;
        let after = wire(v) + pairs_wire(tail) + rest;
        assert(data =~= seq![43u8] + encode_utf8(k) + crlf() + after);
        lemma_read_line(43, "+"@, "SimpleString"@, encode_utf8(k), after);
        let l1 = encode_utf8(k).len() + 3;
        assert(data.skip(l1 as int) =~= wire(v) + (pairs_wire(tail) + rest));
        lemma_extent(v, pairs_wire(tail) + rest);
        let l2 = wire(v).len();
        assert(item_extent(data, true) == Ok::<nat, Halt>(l1 + l2));
        assert(data.skip((l1 + l2) as int) =~= pairs_wire(tail) + rest);
        lemma_pairs_extent(tail, rest);
        assert((ps.len() - 1) as nat == tail.len());
    }
}

/// A signed decimal holds no `\r\n` and is ASCII, and reads back.
pub proof fn lemma_dec_signed_plain(v: i64)
    ensures
        no_crlf(dec_signed(v)),
        valid_utf8(dec_signed(v)),
        is_ascii_bytes(dec_signed(v)),
{
    if v < 0 {
        lemma_dec_plain((-v) as nat);
        let d = dec_signed(v);
        assert forall|i: int| 0 <= i && i + 1 < d.len() implies !(#[trigger] d[i] == 13 && d[i
            + 1] == 10) by {
            assert(d[i + 1] == dec((-v) as nat)[i]);
        }
        assert forall|i: int| 0 <= i < d.len() implies #[trigger] d[i] < 128 by {
            if i > 0 {
                assert(d[i] == dec((-v) as nat)[i - 1]);
            }
        }
        lemma_ascii_utf8(d);
    } else {
        lemma_dec_plain(v as nat);
    }
}


/// A text line `<prefix byte><text>\r\n` reads back as its text.
proof fn lemma_read_text(p: u8, pc: Seq<char>, kind: Seq<char>, c: Seq<char>, rest: Seq<u8>)
    requires
        encode_utf8(pc) == seq![p],
        p != 13,
        no_crlf(encode_utf8(c)),
    ensures
        spec_line_text(seq![p] + encode_utf8(c) + crlf() + rest, pc, kind) == (
            Ok::<Seq<char>, Halt>(c),
            encode_utf8(c).len() + 3,
        ),
{
    lemma_read_line(p, pc, kind, encode_utf8(c), rest);
}

/// A fixed frame reads back as itself from the front of a buffer.
proof fn lemma_read_fixed(prefix: Seq<char>, kind: Seq<char>, f: FrameModel, rest: Seq<u8>)
    ensures
        decode_fixed(encode_utf8(prefix) + rest, prefix, kind, f) == (
            Ok::<FrameModel, Halt>(f),
            encode_utf8(prefix).len(),
        ),
{
    reveal(decode_fixed);
    let s = encode_utf8(prefix) + rest;
    assert(s.take(encode_utf8(prefix).len() as int) =~= encode_utf8(prefix));
}

/// A buffer that starts `<p><digit>` does not start with `<p>-1\r\n`.
proof fn lemma_not_null(prefix: Seq<char>, kind: Seq<char>, f: FrameModel, s: Seq<u8>, p: u8)
    requires
        encode_utf8(prefix) == seq![p, 45u8, 49u8, 13u8, 10u8],
        s.len() >= 2,
        is_digit(s[1]),
    ensures
        decode_fixed(s, prefix, kind, f).0 is Err,
        decode_fixed(s, prefix, kind, f).0 != Err::<FrameModel, Halt>(fail(ErrorModel::NotComplete)),
{
    reveal(decode_fixed);
    if 5 <= s.len() {
        assert(s.take(5)[1] == s[1]);
    }
}

/// A simple string, error, integer, boolean, double or null reads back as itself.
proof fn lemma_line_round_trip(f: FrameModel, rest: Seq<u8>)
    requires
        readable(f),
        f is SimpleString || f is SimpleError || f is Integer || f is Double || f is Boolean
            || f is Null,
    ensures
        decode_frame(wire(f) + rest) == (Ok::<FrameModel, Halt>(f), wire(f).len()),
{
    lemma_literals();
    let s = wire(f) + rest;
    match f {
        FrameModel::SimpleString(c) => {
            reveal(decode_simple_string);
            assert(s =~= seq![43u8] + encode_utf8(c) + crlf() + rest);
            lemma_read_text(43, "+"@, "SimpleString"@, c, rest);
        },
        FrameModel::SimpleError(c) => {
            reveal(decode_simple_error);
            assert(s =~= seq![45u8] + encode_utf8(c) + crlf() + rest);
            lemma_read_text(45, "-"@, "SimpleError"@, c, rest);
        },
        FrameModel::Integer(v) => {
            reveal(decode_integer);
            lemma_dec_signed_plain(v);
            lemma_parse_dec_signed(v);
            assert(s =~= seq![58u8] + dec_signed(v) + crlf() + rest);
            lemma_read_line(58, ":"@, "RespInteger"@, dec_signed(v), rest);
        },
        FrameModel::Double(t) => {
            reveal(decode_double);
            lemma_float_plain(encode_utf8(t));
            assert(s =~= seq![44u8] + encode_utf8(t) + crlf() + rest);
            lemma_read_text(44, ","@, "double"@, t, rest);
        },
        FrameModel::Boolean(b) => {
            reveal(decode_boolean);
            let c = if b {
                seq![116u8]
            } else {
                seq![102u8]
            };
            assert(no_crlf(c));
            assert(s =~= seq![35u8] + c + crlf() + rest);
            lemma_read_line(35, "#"@, "RespBoolean"@, c, rest);
        },
        _ => {
            lemma_read_fixed("_\r\n"@, "RespNull"@, FrameModel::Null, rest);
        },
    }
}

/// Non-empty bulk data without `\r\n` reads back as itself.
proof fn lemma_bulk_round_trip(d: Seq<u8>, rest: Seq<u8>)
    requires
        no_crlf(d),
        d.len() >= 1,
        (wire(FrameModel::BulkString(Some(d))) + rest).len() <= usize::MAX,
    ensures
        decode_frame(wire(FrameModel::BulkString(Some(d))) + rest) == (
            Ok::<FrameModel, Halt>(FrameModel::BulkString(Some(d))),
            wire(FrameModel::BulkString(Some(d))).len(),
        ),
{
    lemma_literals();
    let s = wire(FrameModel::BulkString(Some(d))) + rest;
    let n = d.len();
    lemma_dec_plain(n);
    lemma_not_null("$-1\r\n"@, "RespNullBulkString"@, FrameModel::NullBulkString, s, 36);
    reveal(decode_bulk);
    lemma_header_split(36, n, d + crlf(), rest);
    lemma_read_header(36, "$"@, ""@, n, d + crlf() + rest);
    assert(seq![36u8] + dec(n) + crlf() + (d + crlf() + rest) =~= s);
    let e = dec(n).len() + 1;
    let remain = s.skip(e + 2int);
    assert(remain =~= d + crlf() + rest);
    reveal(spec_compute_end);
    lemma_line_end(d, rest);
    assert(remain.take(0) =~= encode_utf8(""@));
    assert(remain.take(n as int) =~= d);
}

/// An array (or set, when `set` holds) whose items read back and measure as
/// themselves reads back as itself.
proof fn lemma_list_round_trip(items: Seq<FrameModel>, rest: Seq<u8>, set: bool)
    requires
        (wire(FrameModel::Array(Some(items))) + rest).len() <= usize::MAX,
        items_extent(wires(items) + rest, items.len(), false) == Ok::<nat, Halt>(
            wires(items).len(),
        ),
        decode_items(wires(items) + rest, items.len()) == (
            Ok::<Seq<FrameModel>, Halt>(items),
            wires(items).len(),
        ),
    ensures
        set ==> decode_frame(wire(FrameModel::RespSet(items)) + rest) == (
            Ok::<FrameModel, Halt>(FrameModel::RespSet(items)),
            wire(FrameModel::RespSet(items)).len(),
        ),
        !set ==> decode_frame(wire(FrameModel::Array(Some(items))) + rest) == (
            Ok::<FrameModel, Halt>(FrameModel::Array(Some(items))),
            wire(FrameModel::Array(Some(items))).len(),
        ),
{
    lemma_literals();
    let n = items.len();
    lemma_dec_plain(n);
    reveal(spec_check_len);
    lemma_wires_len(items);
    if set {
        lemma_header_split(126, n, wires(items), rest);
        lemma_read_header(126, "~"@, "RespSet"@, n, wires(items) + rest);
    } else {
        let s = wire(FrameModel::Array(Some(items))) + rest;
        lemma_not_null("*-1\r\n"@, "RespNullArray"@, FrameModel::NullArray, s, 42);
        lemma_header_split(42, n, wires(items), rest);
        lemma_read_header(42, "*"@, "RespArray"@, n, wires(items) + rest);
    }
}

/// A map whose entries read back and measure as themselves reads back as itself.
proof fn lemma_map_round_trip(ps: Seq<(Seq<char>, FrameModel)>, rest: Seq<u8>)
    requires
        (wire(FrameModel::RespMap(ps)) + rest).len() <= usize::MAX,
        pairs_wire(ps).len() >= ps.len(),
        items_extent(pairs_wire(ps) + rest, ps.len(), true) == Ok::<nat, Halt>(
            pairs_wire(ps).len(),
        ),
        decode_pairs(pairs_wire(ps) + rest, ps.len(), Seq::empty()) == (
            Ok::<Seq<(Seq<char>, FrameModel)>, Halt>(ps),
            pairs_wire(ps).len(),
        ),
    ensures
        decode_frame(wire(FrameModel::RespMap(ps)) + rest) == (
            Ok::<FrameModel, Halt>(FrameModel::RespMap(ps)),
            wire(FrameModel::RespMap(ps)).len(),
        ),
{
    lemma_literals();
    let n = ps.len();
    lemma_dec_plain(n);
    reveal(spec_check_len);
    lemma_header_split(37, n, pairs_wire(ps), rest);
    lemma_read_header(37, "%"@, "RespMaps"@, n, pairs_wire(ps) + rest);
}

/// What is written reads back: a [`readable`] frame, written and then read from the
/// front of a buffer (followed by `rest`, whatever it holds), gives the same frame and
/// consumes exactly the frame's bytes.
pub proof fn lemma_frame_round_trip(f: FrameModel, rest: Seq<u8>)
    requires
        readable(f),
        (wire(f) + rest).len() <= usize::MAX,
    ensures
        decode_frame(wire(f) + rest) == (Ok::<FrameModel, Halt>(f), wire(f).len()),
    decreases f,
{
    lemma_literals();
    match f {
        FrameModel::BulkString(Some(d)) => lemma_bulk_round_trip(d, rest),
        FrameModel::Array(Some(items)) => {
            lemma_items_readable_measurable(items);
            lemma_items_extent(items, rest);
            lemma_items_round_trip(items, rest);
            lemma_list_round_trip(items, rest, false);
        },
        FrameModel::RespSet(items) => {
            lemma_items_readable_measurable(items);
            lemma_items_extent(items, rest);
            lemma_items_round_trip(items, rest);
            lemma_list_round_trip(items, rest, true);
        },
        FrameModel::RespMap(ps) => {
            lemma_pairs_readable_measurable(ps);
            lemma_pairs_extent(ps, rest);
            assert(Seq::<(Seq<char>, FrameModel)>::empty() + ps =~= ps);
            lemma_pairs_round_trip(ps, Seq::empty(), rest);
            lemma_map_round_trip(ps, rest);
        },
        FrameModel::NullBulkString => {
            lemma_read_fixed("$-1\r\n"@, "RespNullBulkString"@, FrameModel::NullBulkString, rest);
        },
        FrameModel::NullArray => {
            lemma_read_fixed("*-1\r\n"@, "RespNullArray"@, FrameModel::NullArray, rest);
        },
        _ => lemma_line_round_trip(f, rest),
    }
}

/// Frames written one after another, each [`measurable`] and [`readable`] where it
/// stands, read back as the same frames.
pub proof fn lemma_items_round_trip(items: Seq<FrameModel>, rest: Seq<u8>)
    requires
        items_readable(items),
        (wires(items) + rest).len() <= usize::MAX,
    ensures
        decode_items(wires(items) + rest, items.len()) == (
            Ok::<Seq<FrameModel>, Halt>(items),
            wires(items).len(),
        ),
    decreases items,
{
    if items.len() > 0 {
        let f = items[0];
        let tail = items.drop_first();
        let data = wires(items) + rest;
        assert(data =~= wire(f) + (wires(tail) + rest));
        lemma_wire_nonempty(f);
        lemma_wires_len(tail);
        lemma_frame_round_trip(f, wires(tail) + rest);
        assert(data.skip(wire(f).len() as int) =~= wires(tail) + rest);
        lemma_items_round_trip(tail, rest);
        assert(seq![f] + tail =~= items);
        assert((items.len() - 1) as nat == tail.len());
        assert(wires(items).len() == wire(f).len() + wires(tail).len());
    } else {
        assert(items =~= Seq::<FrameModel>::empty());
    }
}

/// Each pair is written with at least three bytes.
proof fn lemma_pairs_wire_len(ps: Seq<(Seq<char>, FrameModel)>)
    ensures
        pairs_wire(ps).len() >= 3 * ps.len(),
    decreases ps.len(),
{
    if ps.len() > 0 {
        lemma_pairs_wire_len(ps.drop_first());
    }
}

/// Inserting the next pair of an increasing sequence into the pairs before it adds it
/// at their end.
proof fn lemma_insert_last(acc: Seq<(Seq<char>, FrameModel)>, ps: Seq<(Seq<char>, FrameModel)>)
    requires
        sorted_keys(acc + ps),
        ps.len() > 0,
    ensures
        map_insert(acc, ps[0].0, ps[0].1) == acc.push(ps[0]),
        acc.push(ps[0]) + ps.drop_first() == acc + ps,
{
    let all = acc + ps;
    let k = ps[0].0;
    assert forall|j: int| 0 <= j < acc.len() implies key_lt(#[trigger] acc[j].0, k) by {
        assert(all[j] == acc[j]);
        assert(all[acc.len() as int] == ps[0]);
    }
    lemma_map_insert_at(acc, k, ps[0].1, acc.len() as int);
    assert(acc.insert(acc.len() as int, (k, ps[0].1)) =~= acc.push(ps[0]));
    assert(acc.push(ps[0]) + ps.drop_first() =~= all);
}

/// Key/value pairs written one after another read back into a map that already holds
/// smaller keys, each added at its end.
#[verifier::rlimit(40)]
pub proof fn lemma_pairs_round_trip(
    ps: Seq<(Seq<char>, FrameModel)>,
    acc: Seq<(Seq<char>, FrameModel)>,
    rest: Seq<u8>,
)
    requires
        sorted_keys(acc + ps),
        pairs_readable(ps),
        (pairs_wire(ps) + rest).len() <= usize::MAX,
    ensures
        decode_pairs(pairs_wire(ps) + rest, ps.len(), acc) == (
            Ok::<Seq<(Seq<char>, FrameModel)>, Halt>(acc + ps),
            pairs_wire(ps).len(),
        ),
    decreases ps,
{
    if ps.len() > 0 {
        lemma_literals();
        let (k, v) = ps[0];
        let tail = ps.drop_first();
        assert(pairs_wire(ps) == key_wire(k) + wire(v) + pairs_wire(tail));
        let data = pairs_wire(ps) + rest;
        let after = wire(v) + pairs_wire(tail) + rest;
        assert(data =~= seq![43u8] + encode_utf8(k) + crlf() + after);
        lemma_read_text(43, "+"@, "SimpleString"@, k, after);
        let n = encode_utf8(k).len() + 3;
        assert(data.skip(n as int) =~= wire(v) + (pairs_wire(tail) + rest));
        lemma_wire_nonempty(v);
        lemma_pairs_wire_len(tail);
        lemma_frame_round_trip(v, pairs_wire(tail) + rest);
        let m = wire(v).len();
        assert(data.skip((n + m) as int) =~= pairs_wire(tail) + rest);
        lemma_insert_last(acc, ps);
        lemma_pairs_round_trip(tail, acc.push((k, v)), rest);
        assert((ps.len() - 1) as nat == tail.len());
    } else {
        assert(acc + ps =~= acc);
    }
}

/// What is written reads back: for every frame that [`readable`] admits, decoding the
/// bytes that `encode` writes, followed by `rest` (whatever it holds), gives the same
/// frame and consumes exactly the frame's bytes.
pub proof fn lemma_decode_encoded(f: FrameModel, rest: Seq<u8>)
    requires
        readable(f),
        (wire(f) + rest).len() <= usize::MAX,
    ensures
        decode_frame(wire(f) + rest) == (Ok::<FrameModel, Halt>(f), wire(f).len()),
{
    lemma_frame_round_trip(f, rest);
}

/// The first byte opens an array, a set or a map whose counted items all stand in
/// the buffer, by the lengths that their own length lines announce.
pub open spec fn items_counted(s: Seq<u8>) -> bool {
    &&& s.len() > 0
    &&& (s[0] == 42 ==> spec_check_len(s, "*"@, "RespArray"@).0 is Ok)
    &&& (s[0] == 126 ==> spec_check_len(s, "~"@, "RespSet"@).0 is Ok)
    &&& (s[0] == 37 ==> spec_check_len(s, "%"@, "RespMaps"@).0 is Ok)
    &&& (s[0] == 42 || s[0] == 126 || s[0] == 37)
}

/// A frame that is not complete yet is left in the buffer: reading it consumes
/// nothing, so that it can be read again once more bytes have arrived. An array, set
/// or map whose counted items all seem to be there consumes its length line before an
/// item turns out to be incomplete; such buffers are left out.
pub proof fn lemma_incomplete_keeps_buffer(s: Seq<u8>)
    requires
        decode_frame(s).0 == Err::<FrameModel, Halt>(fail(ErrorModel::NotComplete)),
        !items_counted(s),
    ensures
        decode_frame(s).1 == 0,
{
    reveal(decode_simple_string);
    reveal(decode_simple_error);
    reveal(decode_integer);
    reveal(decode_boolean);
    reveal(decode_double);
    reveal(decode_fixed);
    reveal(decode_bulk);
    reveal(spec_line_text);
    reveal(spec_line_utf8);
    reveal(spec_line_content);
    reveal(spec_check_len);
}

/// A line with a one-byte prefix is read without aborting, and what it consumes is
/// there in full.
proof fn lemma_line_ok(s: Seq<u8>, prefix: Seq<char>, kind: Seq<char>)
    requires
        encode_utf8(prefix).len() == 1,
    ensures
        spec_line_content(s, prefix, kind).0 != Err::<Seq<u8>, Halt>(Halt::Abort),
        spec_line_text(s, prefix, kind).0 != Err::<Seq<char>, Halt>(Halt::Abort),
        spec_line_content(s, prefix, kind).1 <= s.len(),
        spec_line_text(s, prefix, kind).1 <= s.len(),
        spec_line_content(s, prefix, kind).0 is Ok ==> spec_line_content(s, prefix, kind).1 > 0,
        spec_line_text(s, prefix, kind).0 is Ok ==> spec_line_text(s, prefix, kind).1 > 0,
{
    reveal(spec_line_text);
    reveal(spec_line_utf8);
    reveal(spec_line_content);
    reveal(spec_compute_end);
    lemma_crlf_from(s, 0);
}

/// A bulk string is read without aborting, and what it consumes is there in full.
proof fn lemma_bulk_ok(s: Seq<u8>)
    ensures
        decode_bulk(s).0 != Err::<FrameModel, Halt>(Halt::Abort),
        decode_bulk(s).1 <= s.len(),
        decode_bulk(s).0 is Ok ==> decode_bulk(s).1 > 0,
{
    lemma_literals();
    reveal(decode_bulk);
    reveal(spec_extract_len);
    reveal(spec_compute_end);
    lemma_crlf_from(s, 0);
    if let Ok((e, len)) = spec_extract_len(s, "$"@, ""@) {
        let remain = s.skip(e + 2int);
        lemma_crlf_from(remain, 0);
    }
}

/// Reading a frame never aborts, whatever the bytes are: it gives a frame, a failure
/// or `NotComplete`; a frame read uses some of the bytes, and no more than there are.
pub proof fn lemma_decode_total(s: Seq<u8>)
    ensures
        decode_frame(s).0 != Err::<FrameModel, Halt>(Halt::Abort),
        decode_frame(s).0 is Ok ==> 0 < decode_frame(s).1 <= s.len(),
    decreases s.len(), 3nat, 0nat,
{
    lemma_literals();
    reveal(decode_simple_string);
    reveal(decode_simple_error);
    reveal(decode_integer);
    reveal(decode_boolean);
    reveal(decode_double);
    reveal(decode_fixed);
    if s.len() == 0 {
    } else if s[0] == 43 {
        lemma_line_ok(s, "+"@, "SimpleString"@);
    } else if s[0] == 45 {
        lemma_line_ok(s, "-"@, "SimpleError"@);
    } else if s[0] == 58 {
        lemma_line_ok(s, ":"@, "RespInteger"@);
    } else if s[0] == 35 {
        lemma_line_ok(s, "#"@, "RespBoolean"@);
    } else if s[0] == 44 {
        lemma_line_ok(s, ","@, "double"@);
    } else if s[0] == 36 {
        lemma_bulk_ok(s);
    } else if s[0] == 42 {
        lemma_check_len_ok(s, "*"@, "RespArray"@);
        if let (Ok(len), n) = spec_check_len(s, "*"@, "RespArray"@) {
            lemma_items_total(s.skip(n as int), len);
        }
        assert(decode_array(s).0 != Err::<FrameModel, Halt>(Halt::Abort));
    } else if s[0] == 126 {
        lemma_check_len_ok(s, "~"@, "RespSet"@);
        if let (Ok(len), n) = spec_check_len(s, "~"@, "RespSet"@) {
            lemma_items_total(s.skip(n as int), len);
        }
        assert(decode_set(s).0 != Err::<FrameModel, Halt>(Halt::Abort));
    } else if s[0] == 37 {
        lemma_check_len_ok(s, "%"@, "RespMaps"@);
        if let (Ok(len), n) = spec_check_len(s, "%"@, "RespMaps"@) {
            lemma_pairs_total(s.skip(n as int), len, seq![]);
        }
        assert(decode_map(s).0 != Err::<FrameModel, Halt>(Halt::Abort));
    }
}

/// No reader of a single kind of frame aborts, whatever the bytes are.
pub proof fn lemma_decoders_total(s: Seq<u8>)
    ensures
        decode_simple_string(s).0 != Err::<FrameModel, Halt>(Halt::Abort),
        decode_simple_error(s).0 != Err::<FrameModel, Halt>(Halt::Abort),
        decode_integer(s).0 != Err::<FrameModel, Halt>(Halt::Abort),
        decode_boolean(s).0 != Err::<FrameModel, Halt>(Halt::Abort),
        decode_double(s).0 != Err::<FrameModel, Halt>(Halt::Abort),
        decode_bulk(s).0 != Err::<FrameModel, Halt>(Halt::Abort),
        decode_array(s).0 != Err::<FrameModel, Halt>(Halt::Abort),
        decode_set(s).0 != Err::<FrameModel, Halt>(Halt::Abort),
        decode_map(s).0 != Err::<FrameModel, Halt>(Halt::Abort),
        decode_null(s).0 != Err::<FrameModel, Halt>(Halt::Abort),
        decode_null_bulk(s).0 != Err::<FrameModel, Halt>(Halt::Abort),
        decode_null_array(s).0 != Err::<FrameModel, Halt>(Halt::Abort),
        decode_frame(s).0 != Err::<FrameModel, Halt>(Halt::Abort),
{
    lemma_literals();
    reveal(decode_simple_string);
    reveal(decode_simple_error);
    reveal(decode_integer);
    reveal(decode_boolean);
    reveal(decode_double);
    reveal(decode_fixed);
    lemma_line_ok(s, "+"@, "SimpleString"@);
    lemma_line_ok(s, "-"@, "SimpleError"@);
    lemma_line_ok(s, ":"@, "RespInteger"@);
    lemma_line_ok(s, "#"@, "RespBoolean"@);
    lemma_line_ok(s, ","@, "double"@);
    lemma_bulk_ok(s);
    lemma_check_len_ok(s, "*"@, "RespArray"@);
    if let (Ok(len), n) = spec_check_len(s, "*"@, "RespArray"@) {
        lemma_items_total(s.skip(n as int), len);
    }
    lemma_check_len_ok(s, "~"@, "RespSet"@);
    if let (Ok(len), n) = spec_check_len(s, "~"@, "RespSet"@) {
        lemma_items_total(s.skip(n as int), len);
    }
    lemma_check_len_ok(s, "%"@, "RespMaps"@);
    if let (Ok(len), n) = spec_check_len(s, "%"@, "RespMaps"@) {
        lemma_pairs_total(s.skip(n as int), len, seq![]);
    }
    lemma_decode_total(s);
}

/// Reading counted frames never aborts, and what it consumes is there in full.
pub proof fn lemma_items_total(s: Seq<u8>, count: nat)
    ensures
        decode_items(s, count).0 != Err::<Seq<FrameModel>, Halt>(Halt::Abort),
        decode_items(s, count).0 is Ok ==> decode_items(s, count).1 <= s.len(),
    decreases s.len(), 4nat, count,
{
    if count > 0 {
        lemma_decode_total(s);
        if let (Ok(f), n) = decode_frame(s) {
            lemma_items_total(s.skip(n as int), (count - 1) as nat);
        }
    }
}

/// Reading counted key/value pairs never aborts, and what it consumes is there in full.
pub proof fn lemma_pairs_total(s: Seq<u8>, count: nat, acc: Seq<(Seq<char>, FrameModel)>)
    ensures
        decode_pairs(s, count, acc).0 != Err::<Seq<(Seq<char>, FrameModel)>, Halt>(Halt::Abort),
        decode_pairs(s, count, acc).0 is Ok ==> decode_pairs(s, count, acc).1 <= s.len(),
    decreases s.len(), 4nat, count,
{
    if count > 0 {
        lemma_literals();
        lemma_line_ok(s, "+"@, "SimpleString"@);
        if let (Ok(k), n) = spec_line_text(s, "+"@, "SimpleString"@) {
            let t = s.skip(n as int);
            lemma_decode_total(t);
            if let (Ok(v), m) = decode_frame(t) {
                lemma_pairs_total(s.skip((n + m) as int), (count - 1) as nat, map_insert(acc, k, v));
            }
        }
    }
}

/// Where a search for a byte succeeds, the byte stands there.
proof fn lemma_find_from(s: Seq<u8>, b: u8, i: nat)
    ensures
        find_from(s, b, i) matches Some(j) ==> i <= j < s.len() && s[j as int] == b,
    decreases s.len() - i,
{
    if i < s.len() && s[i as int] != b {
        lemma_find_from(s, b, i + 1);
    }
}

/// No byte of a mantissa is `\r`.
proof fn lemma_mantissa_plain(m: Seq<u8>)
    requires
        is_mantissa(m),
    ensures
        forall|k: int| 0 <= k < m.len() ==> #[trigger] m[k] != 13,
{
    lemma_find_from(m, 46, 0);
    match find_from(m, 46, 0) {
        None => {
            assert forall|k: int| 0 <= k < m.len() implies #[trigger] m[k] != 13 by {
                assert(is_digit(m[k]));
            }
        },
        Some(j) => {
            assert forall|k: int| 0 <= k < m.len() implies #[trigger] m[k] != 13 by {
                if k < j {
                    assert(m[k] == m.take(j as int)[k]);
                    assert(is_digit(m.take(j as int)[k]));
                } else if k > j {
                    assert(m[k] == m.skip(j + 1int)[k - j - 1]);
                    assert(is_digit(m.skip(j + 1int)[k - j - 1]));
                }
            }
        },
    }
}

/// No byte of an exponent is `\r`.
proof fn lemma_exponent_plain(x: Seq<u8>)
    requires
        is_exponent(x),
    ensures
        forall|k: int| 0 <= k < x.len() ==> #[trigger] x[k] != 13,
{
    if x.len() > 0 && (x[0] == 43 || x[0] == 45) {
        assert forall|k: int| 0 <= k < x.len() implies #[trigger] x[k] != 13 by {
            if k > 0 {
                assert(x[k] == x.drop_first()[k - 1]);
                assert(is_digit(x.drop_first()[k - 1]));
            }
        }
    } else {
        assert forall|k: int| 0 <= k < x.len() implies #[trigger] x[k] != 13 by {
            assert(is_digit(x[k]));
        }
    }
}

/// No byte of a number is `\r`.
proof fn lemma_number_plain(s: Seq<u8>)
    requires
        is_number(s),
    ensures
        forall|k: int| 0 <= k < s.len() ==> #[trigger] s[k] != 13,
{
    let low = s.map_values(|b: u8| lower(b));
    lemma_find_from(low, 101, 0);
    match find_from(low, 101, 0) {
        None => lemma_mantissa_plain(s),
        Some(i) => {
            lemma_mantissa_plain(s.take(i as int));
            lemma_exponent_plain(s.skip(i + 1int));
            assert forall|k: int| 0 <= k < s.len() implies #[trigger] s[k] != 13 by {
                if k < i {
                    assert(s[k] == s.take(i as int)[k]);
                } else if k > i {
                    assert(s[k] == s.skip(i + 1int)[k - i - 1]);
                } else {
                    assert(low[k] == lower(s[k]));
                }
            }
        },
    }
}

/// No byte of a word spelt in letters is `\r`.
proof fn lemma_word_plain(s: Seq<u8>, w: Seq<u8>)
    requires
        word_is(s, w),
        forall|k: int| 0 <= k < w.len() ==> #[trigger] w[k] >= 97,
    ensures
        forall|k: int| 0 <= k < s.len() ==> #[trigger] s[k] != 13,
{
    assert forall|k: int| 0 <= k < s.len() implies #[trigger] s[k] != 13 by {
        assert(lower(s[k]) == w[k]);
    }
}

/// Text that `f64::from_str` accepts holds no `\r`.
pub proof fn lemma_float_plain(b: Seq<u8>)
    requires
        is_float_text(b),
    ensures
        no_crlf(b),
{
    let signed = b.len() > 0 && (b[0] == 43 || b[0] == 45);
    let body = if signed {
        b.drop_first()
    } else {
        b
    };
    let inf = seq![105u8, 110u8, 102u8];
    let infinity = seq![105u8, 110u8, 102u8, 105u8, 110u8, 105u8, 116u8, 121u8];
    let nan = seq![110u8, 97u8, 110u8];
    if word_is(body, inf) {
        lemma_word_plain(body, inf);
    } else if word_is(body, infinity) {
        lemma_word_plain(body, infinity);
    } else if word_is(body, nan) {
        lemma_word_plain(body, nan);
    } else {
        lemma_number_plain(body);
    }
    assert forall|i: int| 0 <= i && i + 1 < b.len() implies !(#[trigger] b[i] == 13 && b[i
        + 1] == 10) by {
        if signed {
            if i > 0 {
                assert(b[i] == body[i - 1]);
            }
        } else {
            assert(b[i] == body[i]);
        }
    }
}

} // verus!
