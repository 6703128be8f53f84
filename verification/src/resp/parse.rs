//! Reading frames: what each frame's decoder takes from the front of a buffer.
use vstd::prelude::*;
use vstd::utf8::*;
use vstd::slice::{slice_subrange, slice_to_vec};
use crate::buffer::{bytes_debug, bytes_debug_text};
use crate::text::{
    ascii_text, dec, is_float_text, parse_i64, parse_i64_spec, push_decimal, ascii_to_string,
    lemma_dec_ascii,
};
use bytes::BytesMut;
use crate::buffer::{buffer_advance, buffer_bytes, buffer_slice};
use super::{fail, ErrorModel, Halt, RespDecode, RespError, Stop};
use super::decode::{
    array_extent, array_extent_of, bulk_extent, bulk_extent_of, compute_end_with_crlf_of,
    frame_extent, frame_extent_of, map_extent, map_extent_of, set_extent, set_extent_of,
    spec_compute_end_with_crlf, check_len_of, compute_end_of, extract_len_of, lemma_extents_total,
    line_content,
    line_text, spec_check_len,
    spec_compute_end, spec_extract_len, spec_line_content, spec_line_text, spec_starts_with,
    starts_with,
};
use super::frame::{
    lemma_models, models, BulkString, FrameModel, NullBulkString, RespArray, RespBoolean,
    RespDouble, RespFrame, RespInteger, RespNull, RespNullArray, RespSet, SimpleError,
    SimpleString,
};
use super::map::{map_insert, RespMap};
use super::laws::lemma_decoders_total;

verus! {

broadcast use vstd::utf8::group_utf8_lib;

/// The value of a frame read, with the bytes it used.
pub type Step = (Result<FrameModel, Halt>, nat);

/// Builds a step from an outcome and a byte count.
pub open spec fn step_of(r: Result<FrameModel, Halt>, n: nat) -> Step {
    (r, n)
}

/// What `SimpleString::decode` takes: `+<text>\r\n`.
#[verifier::opaque]
pub open spec fn decode_simple_string(s: Seq<u8>) -> Step {
    match spec_line_text(s, "+"@, "SimpleString"@) {
        (Ok(c), n) => (Ok(FrameModel::SimpleString(c)), n),
        (Err(h), n) => (Err(h), n),
    }
}

/// What `SimpleError::decode` takes: `-<text>\r\n`.
#[verifier::opaque]
pub open spec fn decode_simple_error(s: Seq<u8>) -> Step {
    match spec_line_text(s, "-"@, "SimpleError"@) {
        (Ok(c), n) => (Ok(FrameModel::SimpleError(c)), n),
        (Err(h), n) => (Err(h), n),
    }
}

/// What `RespInteger::decode` takes: `:<integer>\r\n`; text that is not an `i64` is
/// a parse error, after the line is consumed.
#[verifier::opaque]
pub open spec fn decode_integer(s: Seq<u8>) -> Step {
    match spec_line_text(s, ":"@, "RespInteger"@) {
        (Ok(c), n) => match parse_i64_spec(encode_utf8(c)) {
            Some(v) => (Ok(FrameModel::Integer(v)), n),
            None => (Err(fail(ErrorModel::ParseIntError)), n),
        },
        (Err(h), n) => (Err(h), n),
    }
}

/// The message of a boolean frame whose content is neither `t` nor `f`.
pub open spec fn boolean_msg(content: Seq<u8>) -> Seq<char> {
    "RespBoolean expect: #t or #f, but got "@ + bytes_debug_text(content)
}

/// What `RespBoolean::decode` takes: `#t\r\n` or `#f\r\n`.
#[verifier::opaque]
pub open spec fn decode_boolean(s: Seq<u8>) -> Step {
    match spec_line_content(s, "#"@, "RespBoolean"@) {
        (Ok(c), n) => if c == seq![116u8] {
            (Ok(FrameModel::Boolean(true)), n)
        } else if c == seq![102u8] {
            (Ok(FrameModel::Boolean(false)), n)
        } else {
            (Err(fail(ErrorModel::InvalidFrameType(boolean_msg(c)))), n)
        },
        (Err(h), n) => (Err(h), n),
    }
}

/// What `RespDouble::decode` takes: `,<double>\r\n`, where the text must be one that
/// `f64::from_str` accepts.
#[verifier::opaque]
pub open spec fn decode_double(s: Seq<u8>) -> Step {
    match spec_line_text(s, ","@, "double"@) {
        (Ok(c), n) => if is_float_text(encode_utf8(c)) {
            (Ok(FrameModel::Double(c)), n)
        } else {
            (Err(fail(ErrorModel::ParseFloatError)), n)
        },
        (Err(h), n) => (Err(h), n),
    }
}

/// What a fixed frame's decoder takes: exactly its bytes.
#[verifier::opaque]
pub open spec fn decode_fixed(s: Seq<u8>, prefix: Seq<char>, kind: Seq<char>, f: FrameModel) -> Step {
    match spec_starts_with(s, prefix, kind) {
        Ok(_) => (Ok(f), encode_utf8(prefix).len()),
        Err(h) => (Err(h), 0),
    }
}

/// What `RespNull::decode` takes: `_\r\n`.
pub open spec fn decode_null(s: Seq<u8>) -> Step {
    decode_fixed(s, "_\r\n"@, "RespNull"@, FrameModel::Null)
}

/// What `NullBulkString::decode` takes: `$-1\r\n`.
pub open spec fn decode_null_bulk(s: Seq<u8>) -> Step {
    decode_fixed(s, "$-1\r\n"@, "RespNullBulkString"@, FrameModel::NullBulkString)
}

/// What `RespNullArray::decode` takes: `*-1\r\n`.
pub open spec fn decode_null_array(s: Seq<u8>) -> Step {
    decode_fixed(s, "*-1\r\n"@, "RespNullArray"@, FrameModel::NullArray)
}

/// The message of a bulk string whose data line is not as long as announced.
pub open spec fn length_msg(expected: nat, got: nat) -> Seq<char> {
    " expect: "@ + ascii_text(dec(expected)) + " , but got "@ + ascii_text(dec(got))
}

/// What `BulkString::decode` takes: `$<n>\r\n` and a data line of exactly `n` bytes
/// ended by the first `\r\n` after it; with fewer than `n + 2` bytes after the length
/// line the frame is not complete.
#[verifier::opaque]
pub open spec fn decode_bulk(s: Seq<u8>) -> Step {
    match spec_extract_len(s, "$"@, ""@) {
        Err(h) => (Err(h), 0),
        Ok((e, len)) => {
            let remain = s.skip(e + 2int);
            if remain.len() < len + 2 {
                (Err(fail(ErrorModel::NotComplete)), 0)
            } else {
                match spec_compute_end(remain, ""@, ""@) {
                    Err(h) => (Err(h), 0),
                    Ok(end) => if end != len {
                        (Err(fail(ErrorModel::InvalidFrameLength(length_msg(len, end)))), 0)
                    } else {
                        (Ok(FrameModel::BulkString(Some(remain.take(len as int)))), e + 2 + len + 2)
                    },
                }
            }
        },
    }
}

/// The message of a frame with an unknown first byte.
pub open spec fn frame_type_msg(s: Seq<u8>) -> Seq<char> {
    "RespFrame expect: +, -, :, $, *, #, ,, %, ~, _, but got "@ + bytes_debug_text(s)
}

/// What `RespFrame::decode` takes from the front of `s`, chosen by the first byte.
pub open spec fn decode_frame(s: Seq<u8>) -> Step
    decreases s.len(), 3nat, 0nat,
{
    if s.len() == 0 {
        (Err(fail(ErrorModel::NotComplete)), 0)
    } else if s[0] == 43 {
        decode_simple_string(s)
    } else if s[0] == 45 {
        decode_simple_error(s)
    } else if s[0] == 58 {
        decode_integer(s)
    } else if s[0] == 36 {
        match decode_null_bulk(s) {
            (Ok(f), n) => (Ok(f), n),
            (Err(Halt::Fail(ErrorModel::NotComplete)), n) => (
                Err(fail(ErrorModel::NotComplete)),
                n,
            ),
            _ => decode_bulk(s),
        }
    } else if s[0] == 42 {
        match decode_null_array(s) {
            (Ok(f), n) => (Ok(f), n),
            (Err(Halt::Fail(ErrorModel::NotComplete)), n) => (
                Err(fail(ErrorModel::NotComplete)),
                n,
            ),
            _ => decode_array(s),
        }
    } else if s[0] == 35 {
        decode_boolean(s)
    } else if s[0] == 44 {
        decode_double(s)
    } else if s[0] == 37 {
        decode_map(s)
    } else if s[0] == 126 {
        decode_set(s)
    } else if s[0] == 95 {
        decode_null(s)
    } else {
        (Err(fail(ErrorModel::InvalidFrameType(frame_type_msg(s)))), 0)
    }
}

/// What `RespArray::decode` takes: a length line, checked against what follows, then
/// that many frames.
pub open spec fn decode_array(s: Seq<u8>) -> Step
    decreases s.len(), 2nat, 0nat,
{
    match spec_check_len(s, "*"@, "RespArray"@) {
        (Err(h), n) => (Err(h), n),
        (Ok(len), n) => if n == 0 || n > s.len() {
            (Err(Halt::Abort), 0)
        } else {
            match decode_items(s.skip(n as int), len) {
                (Ok(items), m) => (Ok(FrameModel::Array(Some(items))), n + m),
                (Err(h), m) => (Err(h), n + m),
            }
        },
    }
}

/// What `RespSet::decode` takes: a length line, checked against what follows, then
/// that many frames.
pub open spec fn decode_set(s: Seq<u8>) -> Step
    decreases s.len(), 2nat, 0nat,
{
    match spec_check_len(s, "~"@, "RespSet"@) {
        (Err(h), n) => (Err(h), n),
        (Ok(len), n) => if n == 0 || n > s.len() {
            (Err(Halt::Abort), 0)
        } else {
            match decode_items(s.skip(n as int), len) {
                (Ok(items), m) => (Ok(FrameModel::RespSet(items)), n + m),
                (Err(h), m) => (Err(h), n + m),
            }
        },
    }
}

/// What `RespMap::decode` takes: a length line, checked against what follows, then
/// that many simple-string keys each followed by a frame; a later key replaces an
/// earlier equal one.
pub open spec fn decode_map(s: Seq<u8>) -> Step
    decreases s.len(), 2nat, 0nat,
{
    match spec_check_len(s, "%"@, "RespMaps"@) {
        (Err(h), n) => (Err(h), n),
        (Ok(len), n) => if n == 0 || n > s.len() {
            (Err(Halt::Abort), 0)
        } else {
            match decode_pairs(s.skip(n as int), len, seq![]) {
                (Ok(ps), m) => (Ok(FrameModel::RespMap(ps)), n + m),
                (Err(h), m) => (Err(h), n + m),
            }
        },
    }
}

/// `count` frames read one after the other.
pub open spec fn decode_items(s: Seq<u8>, count: nat) -> (Result<Seq<FrameModel>, Halt>, nat)
    decreases s.len(), 4nat, count,
{
    if count == 0 {
        (Ok(seq![]), 0)
    } else {
        match decode_frame(s) {
            (Err(h), n) => (Err(h), n),
            (Ok(f), n) => if n == 0 || n > s.len() {
                (Err(Halt::Abort), 0)
            } else {
                match decode_items(s.skip(n as int), (count - 1) as nat) {
                    (Ok(rest), m) => (Ok(seq![f] + rest), n + m),
                    (Err(h), m) => (Err(h), n + m),
                }
            },
        }
    }
}

/// `count` key/value pairs read one after the other into the map `acc`.
pub open spec fn decode_pairs(s: Seq<u8>, count: nat, acc: Seq<(Seq<char>, FrameModel)>) -> (
    Result<Seq<(Seq<char>, FrameModel)>, Halt>,
    nat,
)
    decreases s.len(), 4nat, count,
{
    if count == 0 {
        (Ok(acc), 0)
    } else {
        match spec_line_text(s, "+"@, "SimpleString"@) {
            (Err(h), n) => (Err(h), n),
            (Ok(k), n) => if n == 0 || n > s.len() {
                (Err(Halt::Abort), 0)
            } else {
                match decode_frame(s.skip(n as int)) {
                    (Err(h), m) => (Err(h), n + m),
                    (Ok(v), m) => if m == 0 || m > s.len() - n {
                        (Err(Halt::Abort), 0)
                    } else {
                        match decode_pairs(
                            s.skip((n + m) as int),
                            (count - 1) as nat,
                            map_insert(acc, k, v),
                        ) {
                            (r, q) => (r, n + m + q),
                        }
                    },
                }
            },
        }
    }
}

/// The value of a typed exec outcome, with the bytes it used.
pub open spec fn typed_step<T>(r: (Result<T, Stop>, usize), f: spec_fn(T) -> FrameModel) -> Step {
    match r.0 {
        Ok(v) => (Ok(f(v)), r.1 as nat),
        Err(e) => (Err(e@), r.1 as nat),
    }
}

/// The value of a frame outcome, with the bytes it used.
pub open spec fn frame_step(r: (Result<RespFrame, Stop>, usize)) -> Step {
    typed_step(r, |f: RespFrame| f.model())
}

/// Reads `+<text>\r\n` (the core of `SimpleString::decode`).
pub fn parse_simple_string(s: &[u8]) -> (r: (Result<SimpleString, Stop>, usize))
    ensures
        typed_step(r, |v: SimpleString| FrameModel::SimpleString(v.content@)) == decode_simple_string(s@),
        r.1 <= s@.len(),
{
    reveal(decode_simple_string);
    let (c, n) = line_text(s, "+", "SimpleString");
    match c {
        Ok(content) => (Ok(SimpleString { content }), n),
        Err(h) => (Err(h), n),
    }
}

/// Reads `-<text>\r\n` (the core of `SimpleError::decode`).
pub fn parse_simple_error(s: &[u8]) -> (r: (Result<SimpleError, Stop>, usize))
    ensures
        typed_step(r, |v: SimpleError| FrameModel::SimpleError(v.msg@)) == decode_simple_error(s@),
        r.1 <= s@.len(),
{
    reveal(decode_simple_error);
    let (c, n) = line_text(s, "-", "SimpleError");
    match c {
        Ok(msg) => (Ok(SimpleError { msg }), n),
        Err(h) => (Err(h), n),
    }
}

/// Reads `:<integer>\r\n` (the core of `RespInteger::decode`).
pub fn parse_integer(s: &[u8]) -> (r: (Result<RespInteger, Stop>, usize))
    ensures
        typed_step(r, |v: RespInteger| FrameModel::Integer(v.value)) == decode_integer(s@),
        r.1 <= s@.len(),
{
    reveal(decode_integer);
    let (c, n) = line_text(s, ":", "RespInteger");
    match c {
        Ok(text) => match parse_i64(text.as_str().as_bytes()) {
            Some(value) => (Ok(RespInteger { value }), n),
            None => (Err(Stop::Fail(RespError::ParseIntError)), n),
        },
        Err(h) => (Err(h), n),
    }
}

/// Reads `#t\r\n` or `#f\r\n` (the core of `RespBoolean::decode`).
pub fn parse_boolean(s: &[u8]) -> (r: (Result<RespBoolean, Stop>, usize))
    ensures
        typed_step(r, |v: RespBoolean| FrameModel::Boolean(v.value)) == decode_boolean(s@),
        r.1 <= s@.len(),
{
    reveal(decode_boolean);
    let (c, n) = line_content(s, "#", "RespBoolean");
    match c {
        Ok(v) => {
            if v.len() == 1 && v[0] == 116 {
                assert(v@ =~= seq![116u8]);
                (Ok(RespBoolean { value: true }), n)
            } else if v.len() == 1 && v[0] == 102 {
                assert(v@ =~= seq![102u8]);
                (Ok(RespBoolean { value: false }), n)
            } else {
                assert(v@ != seq![116u8] && v@ != seq![102u8]) by {
                    if v@.len() == 1 {
                        assert(v@[0] != 116u8 && v@[0] != 102u8);
                    }
                }
                let mut m = String::new();
                m.append("RespBoolean expect: #t or #f, but got ");
                let shown = bytes_debug(v.as_slice());
                m.append(shown.as_str());
                (Err(Stop::Fail(RespError::InvalidFrameType(m))), n)
            }
        },
        Err(h) => (Err(h), n),
    }
}

/// Reads `,<double>\r\n` (the core of `RespDouble::decode`).
pub fn parse_double(s: &[u8]) -> (r: (Result<RespDouble, Stop>, usize))
    ensures
        typed_step(r, |v: RespDouble| FrameModel::Double(v.text_view())) == decode_double(s@),
        r.1 <= s@.len(),
{
    reveal(decode_double);
    let (c, n) = line_text(s, ",", "double");
    match c {
        Ok(text) => match RespDouble::from_text(text) {
            Some(d) => (Ok(d), n),
            None => (Err(Stop::Fail(RespError::ParseFloatError)), n),
        },
        Err(h) => (Err(h), n),
    }
}

/// Reads a fixed frame: exactly the bytes of `prefix`.
pub fn parse_fixed(s: &[u8], prefix: &str, kind: &str, f: Ghost<FrameModel>) -> (r: (
    Result<(), Stop>,
    usize,
))
    ensures
        typed_step(r, |v: ()| f@) == decode_fixed(s@, prefix@, kind@, f@),
        r.1 <= s@.len(),
{
    reveal(decode_fixed);
    match starts_with(s, prefix, kind) {
        Ok(_) => (Ok(()), prefix.as_bytes().len()),
        Err(e) => (Err(Stop::Fail(e)), 0),
    }
}

/// Builds the message of a bulk string whose data line is not as long as announced.
fn length_message(expected: usize, got: usize) -> (m: String)
    ensures
        m@ == length_msg(expected as nat, got as nat),
{
    let mut m = String::new();
    m.append(" expect: ");
    let mut a: Vec<u8> = Vec::new();
    push_decimal(&mut a, expected as u64);
    proof {
        lemma_dec_ascii(expected as nat);
    }
    let a = ascii_to_string(a);
    m.append(a.as_str());
    m.append(" , but got ");
    let mut b: Vec<u8> = Vec::new();
    push_decimal(&mut b, got as u64);
    proof {
        lemma_dec_ascii(got as nat);
    }
    let b = ascii_to_string(b);
    m.append(b.as_str());
    m
}

/// Reads `$<n>\r\n<data>\r\n` (the core of `BulkString::decode`).
pub fn parse_bulk(s: &[u8]) -> (r: (Result<BulkString, Stop>, usize))
    ensures
        typed_step(
            r,
            |v: BulkString|
                FrameModel::BulkString(
                    match v.content {
                        Some(d) => Some(d@),
                        None => None,
                    },
                ),
        ) == decode_bulk(s@),
        r.1 <= s@.len(),
{
    reveal(decode_bulk);
    let blen = s.len();
    let (e, len) = match extract_len_of(s, "$", "") {
        Ok(p) => p,
        Err(h) => return (Err(h), 0),
    };
    let remain = slice_subrange(s, e + 2, blen);
    assert(remain@ =~= s@.skip(e + 2));
    if remain.len() < 2 || remain.len() - 2 < len {
        return (Err(Stop::Fail(RespError::NotComplete)), 0);
    }
    let end = match compute_end_of(remain, "", "") {
        Ok(x) => x,
        Err(h) => return (Err(h), 0),
    };
    if end != len {
        return (Err(Stop::Fail(RespError::InvalidFrameLength(length_message(len, end)))), 0);
    }
    let data = slice_to_vec(slice_subrange(remain, 0, len));
    assert(data@ =~= remain@.take(len as int));
    (Ok(BulkString { content: Some(data) }), e + 2 + len + 2)
}

/// `count` frames read after `used` bytes whose frames are already `acc`.
pub open spec fn after_items(
    acc: Seq<FrameModel>,
    used: nat,
    r: (Result<Seq<FrameModel>, Halt>, nat),
) -> (Result<Seq<FrameModel>, Halt>, nat) {
    match r {
        (Ok(rest), m) => (Ok(acc + rest), used + m),
        (Err(h), m) => (Err(h), used + m),
    }
}

/// Frames read after `used` bytes, continued.
proof fn lemma_after_items_assoc(
    a: Seq<FrameModel>,
    u: nat,
    f: FrameModel,
    m: nat,
    x: (Result<Seq<FrameModel>, Halt>, nat),
)
    ensures
        after_items(a, u, after_items(seq![f], m, x)) == after_items(a + seq![f], u + m, x),
{
    match x {
        (Ok(rest), q) => {
            assert(a + (seq![f] + rest) =~= (a + seq![f]) + rest);
        },
        _ => {},
    }
}

/// Key/value pairs read after `used` bytes.
pub open spec fn after_pairs(
    used: nat,
    r: (Result<Seq<(Seq<char>, FrameModel)>, Halt>, nat),
) -> (Result<Seq<(Seq<char>, FrameModel)>, Halt>, nat) {
    (r.0, r.1 + used)
}

/// Unfolds [`decode_items`] once.
proof fn lemma_items_unfold(s: Seq<u8>, count: nat)
    ensures
        decode_items(s, count) == (if count == 0 {
            (Ok(seq![]), 0)
        } else {
            match decode_frame(s) {
                (Err(h), n) => (Err(h), n),
                (Ok(f), n) => if n == 0 || n > s.len() {
                    (Err(Halt::Abort), 0)
                } else {
                    after_items(seq![f], n, decode_items(s.skip(n as int), (count - 1) as nat))
                },
            }
        }),
{
}

/// Unfolds [`decode_pairs`] once.
proof fn lemma_pairs_unfold(s: Seq<u8>, count: nat, acc: Seq<(Seq<char>, FrameModel)>)
    ensures
        decode_pairs(s, count, acc) == (if count == 0 {
            (Ok(acc), 0)
        } else {
            match spec_line_text(s, "+"@, "SimpleString"@) {
                (Err(h), n) => (Err(h), n),
                (Ok(k), n) => if n == 0 || n > s.len() {
                    (Err(Halt::Abort), 0)
                } else {
                    match decode_frame(s.skip(n as int)) {
                        (Err(h), m) => (Err(h), n + m),
                        (Ok(v), m) => if m == 0 || m > s.len() - n {
                            (Err(Halt::Abort), 0)
                        } else {
                            match decode_pairs(
                                s.skip((n + m) as int),
                                (count - 1) as nat,
                                map_insert(acc, k, v),
                            ) {
                                (r, q) => (r, n + m + q),
                            }
                        },
                    }
                },
            }
        }),
{
}

/// Reads `count` frames one after the other from `s`.
fn parse_items(s: &[u8], count: usize) -> (r: (Result<Vec<RespFrame>, Stop>, usize))
    ensures
        match r.0 {
            Ok(v) => decode_items(s@, count as nat) == (Ok::<Seq<FrameModel>, Halt>(models(v@)), r.1 as nat),
            Err(e) => decode_items(s@, count as nat) == (Err::<Seq<FrameModel>, Halt>(e@), r.1 as nat),
        },
        r.1 <= s@.len(),
    decreases s@.len(), 3nat,
{
    let blen = s.len();
    let mut items: Vec<RespFrame> = Vec::new();
    let mut used: usize = 0;
    let mut left = count;
    assert(s@.skip(0) =~= s@);
    while left > 0
        invariant
            used <= blen,
            blen == s@.len(),
            left <= count,
            decode_items(s@, count as nat) == after_items(
                models(items@),
                used as nat,
                decode_items(s@.skip(used as int), left as nat),
            ),
        decreases left,
    {
        let cur = slice_subrange(s, used, blen);
        assert(cur@ =~= s@.skip(used as int));
        proof {
            lemma_items_unfold(cur@, left as nat);
        }
        let (fr, m) = parse_frame(cur);
        let f = match fr {
            Ok(f) => f,
            Err(h) => return (Err(h), used + m),
        };
        if m == 0 || m > cur.len() {
            return (Err(Stop::Abort), used);
        }
        proof {
            lemma_models(items@);
            lemma_models(items@.push(f));
            assert(models(items@.push(f)) =~= models(items@) + seq![f.model()]);
            assert(cur@.skip(m as int) =~= s@.skip(used + m));
            lemma_after_items_assoc(
                models(items@),
                used as nat,
                f.model(),
                m as nat,
                decode_items(s@.skip(used + m), (left - 1) as nat),
            );
        }
        items.push(f);
        used = used + m;
        left = left - 1;
    }
    proof {
        lemma_items_unfold(s@.skip(used as int), 0);
        assert(models(items@) + Seq::<FrameModel>::empty() =~= models(items@));
    }
    (Ok(items), used)
}

/// Reads a length line and that many frames (the core of `RespArray::decode`).
pub fn parse_array(s: &[u8]) -> (r: (Result<RespArray, Stop>, usize))
    ensures
        typed_step(
            r,
            |v: RespArray|
                FrameModel::Array(
                    match v.elements {
                        Some(e) => Some(models(e@)),
                        None => None,
                    },
                ),
        ) == decode_array(s@),
        r.1 <= s@.len(),
    decreases s@.len(), 1nat,
{
    let blen = s.len();
    let (c, n) = check_len_of(s, "*", "RespArray");
    let len = match c {
        Ok(l) => l,
        Err(h) => return (Err(h), n),
    };
    if n == 0 || n > blen {
        return (Err(Stop::Abort), 0);
    }
    let rest = slice_subrange(s, n, blen);
    assert(rest@ =~= s@.skip(n as int));
    let (items, m) = parse_items(rest, len);
    match items {
        Ok(v) => (Ok(RespArray { elements: Some(v) }), n + m),
        Err(h) => (Err(h), n + m),
    }
}

/// Reads a length line and that many frames (the core of `RespSet::decode`).
pub fn parse_set(s: &[u8]) -> (r: (Result<RespSet, Stop>, usize))
    ensures
        typed_step(r, |v: RespSet| FrameModel::RespSet(models(v.elements@))) == decode_set(s@),
        r.1 <= s@.len(),
    decreases s@.len(), 1nat,
{
    let blen = s.len();
    let (c, n) = check_len_of(s, "~", "RespSet");
    let len = match c {
        Ok(l) => l,
        Err(h) => return (Err(h), n),
    };
    if n == 0 || n > blen {
        return (Err(Stop::Abort), 0);
    }
    let rest = slice_subrange(s, n, blen);
    assert(rest@ =~= s@.skip(n as int));
    let (items, m) = parse_items(rest, len);
    match items {
        Ok(v) => (Ok(RespSet { elements: v }), n + m),
        Err(h) => (Err(h), n + m),
    }
}

/// Reads a length line and that many key/value pairs (the core of `RespMap::decode`).
pub fn parse_map(s: &[u8]) -> (r: (Result<RespMap, Stop>, usize))
    ensures
        typed_step(r, |v: RespMap| FrameModel::RespMap(v.entries())) == decode_map(s@),
        r.1 <= s@.len(),
    decreases s@.len(), 1nat,
{
    let blen = s.len();
    let (c, n) = check_len_of(s, "%", "RespMaps");
    let len = match c {
        Ok(l) => l,
        Err(h) => return (Err(h), n),
    };
    if n == 0 || n > blen {
        return (Err(Stop::Abort), 0);
    }
    let mut map = RespMap::new();
    let mut used: usize = n;
    let mut left = len;
    let ghost start = s@.skip(n as int);
    while left > 0
        invariant
            n <= used <= blen,
            blen == s@.len(),
            0 < n,
            start == s@.skip(n as int),
            spec_check_len(s@, "%"@, "RespMaps"@) == (Ok::<nat, Halt>(len as nat), n as nat),
            decode_pairs(start, len as nat, seq![]) == after_pairs(
                (used - n) as nat,
                decode_pairs(s@.skip(used as int), left as nat, map.entries()),
            ),
        decreases left,
    {
        let cur = slice_subrange(s, used, blen);
        assert(cur@ =~= s@.skip(used as int));
        proof {
            lemma_pairs_unfold(cur@, left as nat, map.entries());
        }
        let (kr, k_used) = line_text(cur, "+", "SimpleString");
        let key = match kr {
            Ok(k) => k,
            Err(h) => return (Err(h), used + k_used),
        };
        if k_used == 0 || k_used > cur.len() {
            return (Err(Stop::Abort), used);
        }
        let vbuf = slice_subrange(cur, k_used, cur.len());
        assert(vbuf@ =~= cur@.skip(k_used as int));
        let (vr, v_used) = parse_frame(vbuf);
        let value = match vr {
            Ok(v) => v,
            Err(h) => return (Err(h), used + k_used + v_used),
        };
        if v_used == 0 || v_used > cur.len() - k_used {
            return (Err(Stop::Abort), used);
        }
        assert(cur@.skip((k_used + v_used) as int) =~= s@.skip(used + k_used + v_used));
        map.insert(key, value);
        used = used + k_used + v_used;
        left = left - 1;
    }
    proof {
        lemma_pairs_unfold(s@.skip(used as int), 0, map.entries());
    }
    (Ok(map), used)
}

/// Reads the frame at the front of `s`, chosen by its first byte (the core of
/// `RespFrame::decode`).
pub fn parse_frame(s: &[u8]) -> (r: (Result<RespFrame, Stop>, usize))
    ensures
        frame_step(r) == decode_frame(s@),
        r.1 <= s@.len(),
    decreases s@.len(), 2nat,
{
    let blen = s.len();
    if blen == 0 {
        return (Err(Stop::Fail(RespError::NotComplete)), 0);
    }
    let b = s[0];
    if b == 43 {
        let (r, n) = parse_simple_string(s);
        match r {
            Ok(v) => (Ok(RespFrame::SimpleString(v)), n),
            Err(h) => (Err(h), n),
        }
    } else if b == 45 {
        let (r, n) = parse_simple_error(s);
        match r {
            Ok(v) => (Ok(RespFrame::SimpleError(v)), n),
            Err(h) => (Err(h), n),
        }
    } else if b == 58 {
        let (r, n) = parse_integer(s);
        match r {
            Ok(v) => (Ok(RespFrame::Integer(v)), n),
            Err(h) => (Err(h), n),
        }
    } else if b == 36 {
        let (r0, n0) = parse_fixed(s, "$-1\r\n", "RespNullBulkString", Ghost(FrameModel::NullBulkString));
        match r0 {
            Ok(_) => (Ok(RespFrame::NullBulkString(NullBulkString)), n0),
            Err(Stop::Fail(RespError::NotComplete)) => (Err(Stop::Fail(RespError::NotComplete)), n0),
            Err(_) => {
                let (r, n) = parse_bulk(s);
                match r {
                    Ok(v) => (Ok(RespFrame::BulkString(v)), n),
                    Err(h) => (Err(h), n),
                }
            },
        }
    } else if b == 42 {
        let (r0, n0) = parse_fixed(s, "*-1\r\n", "RespNullArray", Ghost(FrameModel::NullArray));
        match r0 {
            Ok(_) => (Ok(RespFrame::RespNullArray(RespNullArray)), n0),
            Err(Stop::Fail(RespError::NotComplete)) => (Err(Stop::Fail(RespError::NotComplete)), n0),
            Err(_) => {
                let (r, n) = parse_array(s);
                match r {
                    Ok(v) => (Ok(RespFrame::Array(v)), n),
                    Err(h) => (Err(h), n),
                }
            },
        }
    } else if b == 35 {
        let (r, n) = parse_boolean(s);
        match r {
            Ok(v) => (Ok(RespFrame::Boolean(v)), n),
            Err(h) => (Err(h), n),
        }
    } else if b == 44 {
        let (r, n) = parse_double(s);
        match r {
            Ok(v) => (Ok(RespFrame::Double(v)), n),
            Err(h) => (Err(h), n),
        }
    } else if b == 37 {
        let (r, n) = parse_map(s);
        match r {
            Ok(v) => (Ok(RespFrame::RespMap(v)), n),
            Err(h) => (Err(h), n),
        }
    } else if b == 126 {
        let (r, n) = parse_set(s);
        match r {
            Ok(v) => (Ok(RespFrame::RespSet(v)), n),
            Err(h) => (Err(h), n),
        }
    } else if b == 95 {
        let (r, n) = parse_fixed(s, "_\r\n", "RespNull", Ghost(FrameModel::Null));
        match r {
            Ok(_) => (Ok(RespFrame::RespNull(RespNull)), n),
            Err(h) => (Err(h), n),
        }
    } else {
        let mut m = String::new();
        m.append("RespFrame expect: +, -, :, $, *, #, ,, %, ~, _, but got ");
        let shown = bytes_debug(s);
        m.append(shown.as_str());
        (Err(Stop::Fail(RespError::InvalidFrameType(m))), 0)
    }
}

/// Hands a read value out and consumes the bytes it used.
fn finish<T>(buf: &mut BytesMut, r: (Result<T, Stop>, usize)) -> (out: Result<T, RespError>)
    requires
        r.1 <= buffer_bytes(*old(buf)).len(),
        !(r.0 matches Err(Stop::Abort)),
    ensures
        buffer_bytes(*final(buf)) == buffer_bytes(*old(buf)).skip(r.1 as int),
        match out {
            Ok(v) => r.0 == Ok::<T, Stop>(v),
            Err(e) => r.0 == Err::<T, Stop>(Stop::Fail(e)),
        },
{
    let (res, n) = r;
    buffer_advance(buf, n);
    match res {
        Ok(v) => Ok(v),
        Err(Stop::Fail(e)) => Err(e),
        Err(Stop::Abort) => {
            proof {
                assert(false);
            }
            Err(RespError::NotComplete)
        },
    }
}

/// Hands a measured length out.
fn measured(r: Result<usize, Stop>) -> (out: Result<usize, RespError>)
    requires
        !(r matches Err(Stop::Abort)),
    ensures
        match out {
            Ok(n) => r == Ok::<usize, Stop>(n),
            Err(e) => r == Err::<usize, Stop>(Stop::Fail(e)),
        },
{
    match r {
        Ok(n) => Ok(n),
        Err(Stop::Fail(e)) => Err(e),
        Err(Stop::Abort) => {
            proof {
                assert(false);
            }
            Err(RespError::NotComplete)
        },
    }
}

impl RespDecode for SimpleString {
    open spec fn as_frame(&self) -> FrameModel {
        FrameModel::SimpleString(self.content@)
    }

    open spec fn spec_decode(s: Seq<u8>) -> (Result<FrameModel, Halt>, nat) {
        decode_simple_string(s)
    }

    open spec fn spec_expect_length(s: Seq<u8>) -> Result<nat, Halt> {
        spec_compute_end_with_crlf(s, "+"@, "SimpleString"@)
    }

    fn decode(buf: &mut BytesMut) -> (r: Result<Self, RespError>) {
        proof {
            lemma_decoders_total(buffer_bytes(*buf));
        }
        let r = parse_simple_string(buffer_slice(buf));
        proof {
            assert(typed_step(r, |v: SimpleString| FrameModel::SimpleString(v.content@)) == Self::spec_decode(buffer_bytes(*old(buf))));
        }
        finish(buf, r)
    }

    fn expect_length(buf: &[u8]) -> (r: Result<usize, RespError>) {
        proof {
            lemma_extents_total(buf@);
        }
        let m = compute_end_with_crlf_of(buf, "+", "SimpleString");
        measured(m)
    }
}

impl RespDecode for SimpleError {
    open spec fn as_frame(&self) -> FrameModel {
        FrameModel::SimpleError(self.msg@)
    }

    open spec fn spec_decode(s: Seq<u8>) -> (Result<FrameModel, Halt>, nat) {
        decode_simple_error(s)
    }

    open spec fn spec_expect_length(s: Seq<u8>) -> Result<nat, Halt> {
        spec_compute_end_with_crlf(s, "-"@, "SimpleError"@)
    }

    fn decode(buf: &mut BytesMut) -> (r: Result<Self, RespError>) {
        proof {
            lemma_decoders_total(buffer_bytes(*buf));
        }
        let r = parse_simple_error(buffer_slice(buf));
        proof {
            assert(typed_step(r, |v: SimpleError| FrameModel::SimpleError(v.msg@)) == Self::spec_decode(buffer_bytes(*old(buf))));
        }
        finish(buf, r)
    }

    fn expect_length(buf: &[u8]) -> (r: Result<usize, RespError>) {
        proof {
            lemma_extents_total(buf@);
        }
        let m = compute_end_with_crlf_of(buf, "-", "SimpleError");
        measured(m)
    }
}

impl RespDecode for RespInteger {
    open spec fn as_frame(&self) -> FrameModel {
        FrameModel::Integer(self.value)
    }

    open spec fn spec_decode(s: Seq<u8>) -> (Result<FrameModel, Halt>, nat) {
        decode_integer(s)
    }

    open spec fn spec_expect_length(s: Seq<u8>) -> Result<nat, Halt> {
        spec_compute_end_with_crlf(s, ":"@, "RespInteger"@)
    }

    fn decode(buf: &mut BytesMut) -> (r: Result<Self, RespError>) {
        proof {
            lemma_decoders_total(buffer_bytes(*buf));
        }
        let r = parse_integer(buffer_slice(buf));
        proof {
            assert(typed_step(r, |v: RespInteger| FrameModel::Integer(v.value)) == Self::spec_decode(buffer_bytes(*old(buf))));
        }
        finish(buf, r)
    }

    fn expect_length(buf: &[u8]) -> (r: Result<usize, RespError>) {
        proof {
            lemma_extents_total(buf@);
        }
        let m = compute_end_with_crlf_of(buf, ":", "RespInteger");
        measured(m)
    }
}

impl RespDecode for RespBoolean {
    open spec fn as_frame(&self) -> FrameModel {
        FrameModel::Boolean(self.value)
    }

    open spec fn spec_decode(s: Seq<u8>) -> (Result<FrameModel, Halt>, nat) {
        decode_boolean(s)
    }

    open spec fn spec_expect_length(s: Seq<u8>) -> Result<nat, Halt> {
        Ok(4)
    }

    fn decode(buf: &mut BytesMut) -> (r: Result<Self, RespError>) {
        proof {
            lemma_decoders_total(buffer_bytes(*buf));
        }
        let r = parse_boolean(buffer_slice(buf));
        proof {
            assert(typed_step(r, |v: RespBoolean| FrameModel::Boolean(v.value)) == Self::spec_decode(buffer_bytes(*old(buf))));
        }
        finish(buf, r)
    }

    fn expect_length(buf: &[u8]) -> (r: Result<usize, RespError>) {
        proof {
            lemma_extents_total(buf@);
        }
        let m = Ok(4);
        measured(m)
    }
}

impl RespDecode for RespDouble {
    open spec fn as_frame(&self) -> FrameModel {
        FrameModel::Double(self.text_view())
    }

    open spec fn spec_decode(s: Seq<u8>) -> (Result<FrameModel, Halt>, nat) {
        decode_double(s)
    }

    open spec fn spec_expect_length(s: Seq<u8>) -> Result<nat, Halt> {
        spec_compute_end_with_crlf(s, ","@, "double"@)
    }

    fn decode(buf: &mut BytesMut) -> (r: Result<Self, RespError>) {
        proof {
            lemma_decoders_total(buffer_bytes(*buf));
        }
        let r = parse_double(buffer_slice(buf));
        proof {
            assert(typed_step(r, |v: RespDouble| FrameModel::Double(v.text_view())) == Self::spec_decode(buffer_bytes(*old(buf))));
        }
        finish(buf, r)
    }

    fn expect_length(buf: &[u8]) -> (r: Result<usize, RespError>) {
        proof {
            lemma_extents_total(buf@);
        }
        let m = compute_end_with_crlf_of(buf, ",", "double");
        measured(m)
    }
}

impl RespDecode for BulkString {
    open spec fn as_frame(&self) -> FrameModel {
        FrameModel::BulkString(match self.content { Some(d) => Some(d@), None => None })
    }

    open spec fn spec_decode(s: Seq<u8>) -> (Result<FrameModel, Halt>, nat) {
        decode_bulk(s)
    }

    open spec fn spec_expect_length(s: Seq<u8>) -> Result<nat, Halt> {
        bulk_extent(s)
    }

    fn decode(buf: &mut BytesMut) -> (r: Result<Self, RespError>) {
        proof {
            lemma_decoders_total(buffer_bytes(*buf));
        }
        let r = parse_bulk(buffer_slice(buf));
        proof {
            assert(typed_step(r, |v: BulkString| FrameModel::BulkString(match v.content { Some(d) => Some(d@), None => None })) == Self::spec_decode(buffer_bytes(*old(buf))));
        }
        finish(buf, r)
    }

    fn expect_length(buf: &[u8]) -> (r: Result<usize, RespError>) {
        proof {
            lemma_extents_total(buf@);
        }
        let m = bulk_extent_of(buf);
        measured(m)
    }
}

impl RespDecode for RespArray {
    open spec fn as_frame(&self) -> FrameModel {
        FrameModel::Array(match self.elements { Some(e) => Some(models(e@)), None => None })
    }

    open spec fn spec_decode(s: Seq<u8>) -> (Result<FrameModel, Halt>, nat) {
        decode_array(s)
    }

    open spec fn spec_expect_length(s: Seq<u8>) -> Result<nat, Halt> {
        array_extent(s)
    }

    fn decode(buf: &mut BytesMut) -> (r: Result<Self, RespError>) {
        proof {
            lemma_decoders_total(buffer_bytes(*buf));
        }
        let r = parse_array(buffer_slice(buf));
        proof {
            assert(typed_step(r, |v: RespArray| FrameModel::Array(match v.elements { Some(e) => Some(models(e@)), None => None })) == Self::spec_decode(buffer_bytes(*old(buf))));
        }
        finish(buf, r)
    }

    fn expect_length(buf: &[u8]) -> (r: Result<usize, RespError>) {
        proof {
            lemma_extents_total(buf@);
        }
        let m = array_extent_of(buf);
        measured(m)
    }
}

impl RespDecode for RespSet {
    open spec fn as_frame(&self) -> FrameModel {
        FrameModel::RespSet(models(self.elements@))
    }

    open spec fn spec_decode(s: Seq<u8>) -> (Result<FrameModel, Halt>, nat) {
        decode_set(s)
    }

    open spec fn spec_expect_length(s: Seq<u8>) -> Result<nat, Halt> {
        set_extent(s)
    }

    fn decode(buf: &mut BytesMut) -> (r: Result<Self, RespError>) {
        proof {
            lemma_decoders_total(buffer_bytes(*buf));
        }
        let r = parse_set(buffer_slice(buf));
        proof {
            assert(typed_step(r, |v: RespSet| FrameModel::RespSet(models(v.elements@))) == Self::spec_decode(buffer_bytes(*old(buf))));
        }
        finish(buf, r)
    }

    fn expect_length(buf: &[u8]) -> (r: Result<usize, RespError>) {
        proof {
            lemma_extents_total(buf@);
        }
        let m = set_extent_of(buf);
        measured(m)
    }
}

impl RespDecode for RespMap {
    open spec fn as_frame(&self) -> FrameModel {
        FrameModel::RespMap(self.entries())
    }

    open spec fn spec_decode(s: Seq<u8>) -> (Result<FrameModel, Halt>, nat) {
        decode_map(s)
    }

    open spec fn spec_expect_length(s: Seq<u8>) -> Result<nat, Halt> {
        map_extent(s)
    }

    fn decode(buf: &mut BytesMut) -> (r: Result<Self, RespError>) {
        proof {
            lemma_decoders_total(buffer_bytes(*buf));
        }
        let r = parse_map(buffer_slice(buf));
        proof {
            assert(typed_step(r, |v: RespMap| FrameModel::RespMap(v.entries())) == Self::spec_decode(buffer_bytes(*old(buf))));
        }
        finish(buf, r)
    }

    fn expect_length(buf: &[u8]) -> (r: Result<usize, RespError>) {
        proof {
            lemma_extents_total(buf@);
        }
        let m = map_extent_of(buf);
        measured(m)
    }
}

impl RespDecode for RespFrame {
    open spec fn as_frame(&self) -> FrameModel {
        self.model()
    }

    open spec fn spec_decode(s: Seq<u8>) -> (Result<FrameModel, Halt>, nat) {
        decode_frame(s)
    }

    open spec fn spec_expect_length(s: Seq<u8>) -> Result<nat, Halt> {
        frame_extent(s)
    }

    fn decode(buf: &mut BytesMut) -> (r: Result<Self, RespError>) {
        proof {
            lemma_decoders_total(buffer_bytes(*buf));
        }
        let r = parse_frame(buffer_slice(buf));
        proof {
            assert(typed_step(r, |v: RespFrame| v.model()) == Self::spec_decode(buffer_bytes(*old(buf))));
        }
        finish(buf, r)
    }

    fn expect_length(buf: &[u8]) -> (r: Result<usize, RespError>) {
        proof {
            lemma_extents_total(buf@);
        }
        let m = frame_extent_of(buf);
        measured(m)
    }
}

impl RespDecode for RespNull {
    open spec fn as_frame(&self) -> FrameModel {
        FrameModel::Null
    }

    open spec fn spec_decode(s: Seq<u8>) -> (Result<FrameModel, Halt>, nat) {
        decode_null(s)
    }

    open spec fn spec_expect_length(s: Seq<u8>) -> Result<nat, Halt> {
        Ok(3)
    }

    fn decode(buf: &mut BytesMut) -> (r: Result<Self, RespError>) {
        proof {
            lemma_decoders_total(buffer_bytes(*buf));
        }
        let (c, n) = parse_fixed(buffer_slice(buf), "_\r\n", "RespNull", Ghost(FrameModel::Null));
        let r = match c {
            Ok(_) => (Ok(RespNull), n),
            Err(h) => (Err(h), n),
        };
        finish(buf, r)
    }

    fn expect_length(buf: &[u8]) -> (r: Result<usize, RespError>) {
        proof {
            lemma_extents_total(buf@);
        }
        Ok(3)
    }
}

impl RespDecode for NullBulkString {
    open spec fn as_frame(&self) -> FrameModel {
        FrameModel::NullBulkString
    }

    open spec fn spec_decode(s: Seq<u8>) -> (Result<FrameModel, Halt>, nat) {
        decode_null_bulk(s)
    }

    open spec fn spec_expect_length(s: Seq<u8>) -> Result<nat, Halt> {
        Ok(5)
    }

    fn decode(buf: &mut BytesMut) -> (r: Result<Self, RespError>) {
        proof {
            lemma_decoders_total(buffer_bytes(*buf));
        }
        let (c, n) = parse_fixed(buffer_slice(buf), "$-1\r\n", "RespNullBulkString", Ghost(FrameModel::NullBulkString));
        let r = match c {
            Ok(_) => (Ok(NullBulkString), n),
            Err(h) => (Err(h), n),
        };
        finish(buf, r)
    }

    fn expect_length(buf: &[u8]) -> (r: Result<usize, RespError>) {
        proof {
            lemma_extents_total(buf@);
        }
        Ok(5)
    }
}

impl RespDecode for RespNullArray {
    open spec fn as_frame(&self) -> FrameModel {
        FrameModel::NullArray
    }

    open spec fn spec_decode(s: Seq<u8>) -> (Result<FrameModel, Halt>, nat) {
        decode_null_array(s)
    }

    open spec fn spec_expect_length(s: Seq<u8>) -> Result<nat, Halt> {
        Ok(5)
    }

    fn decode(buf: &mut BytesMut) -> (r: Result<Self, RespError>) {
        proof {
            lemma_decoders_total(buffer_bytes(*buf));
        }
        let (c, n) = parse_fixed(buffer_slice(buf), "*-1\r\n", "RespNullArray", Ghost(FrameModel::NullArray));
        let r = match c {
            Ok(_) => (Ok(RespNullArray), n),
            Err(h) => (Err(h), n),
        };
        finish(buf, r)
    }

    fn expect_length(buf: &[u8]) -> (r: Result<usize, RespError>) {
        proof {
            lemma_extents_total(buf@);
        }
        Ok(5)
    }
}

} // verus!
