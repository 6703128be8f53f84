//! The building blocks of reading frames: finding the line end, reading a
//! length line, taking a line's content, and measuring how many bytes a
//! frame spans before it is read.
use vstd::prelude::*;
use vstd::utf8::*;
use vstd::slice::{slice_subrange, slice_to_vec};
use bytes::BytesMut;
use crate::buffer::{buffer_bytes, buffer_slice, buffer_advance};
use crate::text::{
    ascii_text, list_debug, list_debug_string, parse_usize, parse_usize_spec, utf8_to_string,
};
use super::{count_result, fail, ErrorModel, Halt, RespError, Stop};

verus! {

broadcast use vstd::utf8::group_utf8_lib;

/// The byte pair `\r\n` starts at index `i`.
pub open spec fn is_crlf_at(s: Seq<u8>, i: int) -> bool {
    0 <= i && i + 1 < s.len() && s[i] == 13 && s[i + 1] == 10
}

/// The first index at or after `i` where `\r\n` starts.
pub open spec fn crlf_from(s: Seq<u8>, i: nat) -> Option<nat>
    decreases s.len() - i,
{
    if i + 1 >= s.len() {
        None
    } else if is_crlf_at(s, i as int) {
        Some(i)
    } else {
        crlf_from(s, i + 1)
    }
}

/// The first index where `\r\n` starts.
pub open spec fn first_crlf(s: Seq<u8>) -> Option<nat> {
    crlf_from(s, 0)
}

/// The search result is a `\r\n` at or after the start, and there is none before it.
pub proof fn lemma_crlf_from(s: Seq<u8>, i: nat)
    ensures
        match crlf_from(s, i) {
            Some(e) => i <= e && is_crlf_at(s, e as int) && forall|j: int|
                i <= j < e ==> !#[trigger] is_crlf_at(s, j),
            None => forall|j: int| i <= j ==> !#[trigger] is_crlf_at(s, j),
        },
    decreases s.len() - i,
{
    if i + 1 < s.len() && !is_crlf_at(s, i as int) {
        lemma_crlf_from(s, i + 1);
    }
}

/// The bytes `\r\n`.
pub open spec fn crlf() -> Seq<u8> {
    seq![13u8, 10u8]
}

/// The message of a frame whose first bytes are not the expected prefix:
/// `"<type> expect: <prefix> , but got <bytes as {:?} prints them>"`.
#[verifier::opaque]
pub open spec fn expect_msg(kind: Seq<char>, prefix: Seq<char>, got: Seq<u8>) -> Seq<char> {
    kind + " expect: "@ + prefix + " , but got "@ + ascii_text(list_debug(got))
}

/// What `starts_with` checks: the buffer begins with the prefix's bytes.
pub open spec fn spec_starts_with(s: Seq<u8>, prefix: Seq<char>, kind: Seq<char>) -> Result<
    (),
    Halt,
> {
    if encode_utf8(prefix).len() <= s.len() && s.take(encode_utf8(prefix).len() as int)
        == encode_utf8(prefix) {
        Ok(())
    } else {
        Err(fail(ErrorModel::InvalidFrameType(expect_msg(kind, prefix, s))))
    }
}

/// What `compute_end` finds: the position of the first `\r\n`, which must come after
/// the prefix and not at the very start. An empty buffer with an empty prefix makes
/// the search underflow.
#[verifier::opaque]
pub open spec fn spec_compute_end(s: Seq<u8>, prefix: Seq<char>, kind: Seq<char>) -> Result<
    nat,
    Halt,
> {
    match spec_starts_with(s, prefix, kind) {
        Err(h) => Err(h),
        Ok(_) => if s.len() == 0 {
            Err(Halt::Abort)
        } else {
            match first_crlf(s) {
                Some(e) => if e > 0 {
                    Ok(e)
                } else {
                    Err(fail(ErrorModel::NotComplete))
                },
                None => Err(fail(ErrorModel::NotComplete)),
            }
        },
    }
}

/// The value of an exec outcome without a payload.
pub open spec fn unit_result(r: Result<(), Stop>) -> Result<(), Halt> {
    match r {
        Ok(_) => Ok(()),
        Err(e) => Err(e@),
    }
}

/// Builds the "expect" message of a frame that does not start with its prefix.
pub fn expect_message(kind: &str, prefix: &str, got: &[u8]) -> (m: String)
    ensures
        m@ == expect_msg(kind@, prefix@, got@),
{
    reveal(expect_msg);
    let mut m = String::new();
    m.append(kind);
    m.append(" expect: ");
    m.append(prefix);
    m.append(" , but got ");
    let shown = list_debug_string(got);
    m.append(shown.as_str());
    m
}

/// Checks that the buffer starts with the prefix.
pub fn starts_with(buf: &[u8], prefix: &str, kind: &str) -> (r: Result<(), RespError>)
    ensures
        match r {
            Ok(_) => spec_starts_with(buf@, prefix@, kind@) == Ok::<(), Halt>(()),
            Err(e) => spec_starts_with(buf@, prefix@, kind@) == Err::<(), Halt>(fail(e@)),
        },
{
    let p = prefix.as_bytes();
    let ok = if p.len() > buf.len() {
        false
    } else {
        let mut i: usize = 0;
        let mut same = true;
        assert(buf@.take(0) =~= p@.take(0));
        while i < p.len()
            invariant
                i <= p@.len() <= buf@.len(),
                same == (buf@.take(i as int) == p@.take(i as int)),
            decreases p@.len() - i,
        {
            if buf[i] != p[i] {
                same = false;
                assert(buf@.take(i + 1)[i as int] != p@.take(i + 1)[i as int]);
            } else if same {
                assert(buf@.take(i + 1) =~= p@.take(i + 1));
            } else {
                assert(buf@.take(i + 1) != p@.take(i + 1)) by {
                    assert(buf@.take(i + 1).take(i as int) =~= buf@.take(i as int));
                    assert(p@.take(i + 1).take(i as int) =~= p@.take(i as int));
                }
            }
            i = i + 1;
        }
        assert(p@.take(p@.len() as int) =~= p@);
        same
    };
    if ok {
        Ok(())
    } else {
        Err(RespError::InvalidFrameType(expect_message(kind, prefix, buf)))
    }
}

/// Finds the first `\r\n` at or after `from`.
fn find_crlf(buf: &[u8], from: usize) -> (r: Option<usize>)
    ensures
        match r {
            Some(e) => crlf_from(buf@, from as nat) == Some(e as nat),
            None => crlf_from(buf@, from as nat) is None,
        },
    decreases buf@.len() - from,
{
    if from >= buf.len() || buf.len() - from < 2 {
        None
    } else if buf[from] == 13 && buf[from + 1] == 10 {
        Some(from)
    } else {
        find_crlf(buf, from + 1)
    }
}

/// Computes where the first line ends: the index of its `\r\n` (the core of
/// `compute_end`).
pub fn compute_end_of(buf: &[u8], prefix: &str, kind: &str) -> (r: Result<usize, Stop>)
    ensures
        count_result(r) == spec_compute_end(buf@, prefix@, kind@),
        r matches Ok(e) ==> 0 < e && e + 2 <= buf@.len() <= usize::MAX,
{
    reveal(spec_compute_end);
    proof {
        lemma_crlf_from(buf@, 0);
    }
    if let Err(e) = starts_with(buf, prefix, kind) {
        return Err(Stop::Fail(e));
    }
    if buf.len() == 0 {
        return Err(Stop::Abort);
    }
    match find_crlf(buf, 0) {
        Some(e) => {
            if e > 0 {
                Ok(e)
            } else {
                Err(Stop::Fail(RespError::NotComplete))
            }
        },
        None => Err(Stop::Fail(RespError::NotComplete)),
    }
}

/// Where the first line ends, counting its `\r\n`.
pub open spec fn spec_compute_end_with_crlf(
    s: Seq<u8>,
    prefix: Seq<char>,
    kind: Seq<char>,
) -> Result<nat, Halt> {
    match spec_compute_end(s, prefix, kind) {
        Ok(e) => Ok(e + 2),
        Err(h) => Err(h),
    }
}

/// The length of the first line, counting its `\r\n` (the core of
/// `compute_end_with_crlf`).
pub fn compute_end_with_crlf_of(buf: &[u8], prefix: &str, kind: &str) -> (r: Result<
    usize,
    Stop,
>)
    ensures
        count_result(r) == spec_compute_end_with_crlf(buf@, prefix@, kind@),
{
    let end = compute_end_of(buf, prefix, kind)?;
    Ok(end + 2)
}

/// The first line, `\r\n` included, with the index of its `\r\n`.
pub open spec fn spec_extract_byte_slice(
    s: Seq<u8>,
    prefix: Seq<char>,
    kind: Seq<char>,
) -> Result<(nat, Seq<u8>), Halt> {
    match spec_compute_end(s, prefix, kind) {
        Ok(e) => Ok((e, s.take(e + 2int))),
        Err(h) => Err(h),
    }
}

/// Returns the index of the first `\r\n` and the line up to and including it,
/// without consuming anything (the core of `extract_byte_slice`).
pub fn extract_byte_slice_of<'a>(buf: &'a [u8], prefix: &str, kind: &str) -> (r: Result<
    (usize, &'a [u8]),
    Stop,
>)
    ensures
        match r {
            Ok((e, line)) => spec_extract_byte_slice(buf@, prefix@, kind@) == Ok::<
                (nat, Seq<u8>),
                Halt,
            >((e as nat, line@)),
            Err(h) => spec_extract_byte_slice(buf@, prefix@, kind@) == Err::<
                (nat, Seq<u8>),
                Halt,
            >(h@),
        },
        r matches Ok((e, line)) ==> line@ == buf@.take(e + 2) && 0 < e && e + 2 <= buf@.len(),
{
    let end = compute_end_of(buf, prefix, kind)?;
    let line = slice_subrange(buf, 0, end + 2);
    assert(line@ =~= buf@.take(end + 2));
    Ok((end, line))
}

/// Tells whether the bytes are UTF-8 (`std::str::from_utf8` succeeds on them).
#[verifier::external_body]
pub(crate) fn is_utf8(s: &[u8]) -> (r: bool)
    ensures
        r == valid_utf8(s@),
{
    std::str::from_utf8(s).is_ok()
}

/// What `extract_len` reads: the index of the first `\r\n` and the number written
/// between the prefix and it.
#[verifier::opaque]
pub open spec fn spec_extract_len(s: Seq<u8>, prefix: Seq<char>, kind: Seq<char>) -> Result<
    (nat, nat),
    Halt,
> {
    match spec_compute_end(s, prefix, kind) {
        Err(h) => Err(h),
        Ok(e) => {
            let plen = encode_utf8(prefix).len();
            if plen > e {
                Err(Halt::Abort)
            } else {
                let text = s.subrange(plen as int, e as int);
                if !valid_utf8(text) {
                    Err(fail(ErrorModel::Utf8Error))
                } else {
                    match parse_usize_spec(text) {
                        Some(n) => Ok((e, n as nat)),
                        None => Err(fail(ErrorModel::ParseIntError)),
                    }
                }
            }
        },
    }
}

/// The value of an exec outcome that is a pair of counts.
pub open spec fn pair_result(r: Result<(usize, usize), Stop>) -> Result<(nat, nat), Halt> {
    match r {
        Ok((a, b)) => Ok((a as nat, b as nat)),
        Err(e) => Err(e@),
    }
}

/// Reads the length line of a frame without consuming it: returns the index of its
/// `\r\n` and the number between the prefix and it (the core of `extract_len`).
pub fn extract_len_of(buf: &[u8], prefix: &str, kind: &str) -> (r: Result<(usize, usize), Stop>)
    ensures
        pair_result(r) == spec_extract_len(buf@, prefix@, kind@),
        r matches Ok((e, _)) ==> e + 2 <= buf@.len(),
{
    reveal(spec_extract_len);
    let (end, line) = extract_byte_slice_of(buf, prefix, kind)?;
    let plen = prefix.as_bytes().len();
    if plen > end {
        return Err(Stop::Abort);
    }
    let text = slice_subrange(line, plen, end);
    assert(text@ =~= buf@.subrange(plen as int, end as int));
    if !is_utf8(text) {
        return Err(Stop::Fail(RespError::Utf8Error));
    }
    match parse_usize(text) {
        Some(n) => Ok((end, n)),
        None => Err(Stop::Fail(RespError::ParseIntError)),
    }
}

/// Computes where the first line ends: the index of its `\r\n`. The prefix must be
/// followed by the line, and the line must end after the start.
pub fn compute_end(buf: &[u8], prefix: &str, kind: &str) -> (r: Result<usize, RespError>)
    requires
        spec_compute_end(buf@, prefix@, kind@) != Err::<nat, Halt>(Halt::Abort),
    ensures
        match r {
            Ok(e) => spec_compute_end(buf@, prefix@, kind@) == Ok::<nat, Halt>(e as nat),
            Err(e) => spec_compute_end(buf@, prefix@, kind@) == Err::<nat, Halt>(fail(e@)),
        },
{
    match compute_end_of(buf, prefix, kind) {
        Ok(e) => Ok(e),
        Err(Stop::Fail(e)) => Err(e),
        Err(Stop::Abort) => Err(RespError::NotComplete),
    }
}

/// The length of the first line, counting its `\r\n`.
pub fn compute_end_with_crlf(buf: &[u8], prefix: &str, kind: &str) -> (r: Result<
    usize,
    RespError,
>)
    requires
        spec_compute_end_with_crlf(buf@, prefix@, kind@) != Err::<nat, Halt>(Halt::Abort),
    ensures
        match r {
            Ok(n) => spec_compute_end_with_crlf(buf@, prefix@, kind@) == Ok::<nat, Halt>(
                n as nat,
            ),
            Err(e) => spec_compute_end_with_crlf(buf@, prefix@, kind@) == Err::<nat, Halt>(
                fail(e@),
            ),
        },
{
    match compute_end_with_crlf_of(buf, prefix, kind) {
        Ok(n) => Ok(n),
        Err(Stop::Fail(e)) => Err(e),
        Err(Stop::Abort) => Err(RespError::NotComplete),
    }
}

/// Returns the index of the first `\r\n` and the line up to and including it,
/// without consuming anything.
pub fn extract_byte_slice<'a>(buf: &'a [u8], prefix: &str, kind: &str) -> (r: Result<
    (usize, &'a [u8]),
    RespError,
>)
    requires
        spec_extract_byte_slice(buf@, prefix@, kind@) != Err::<(nat, Seq<u8>), Halt>(
            Halt::Abort,
        ),
    ensures
        match r {
            Ok((e, line)) => spec_extract_byte_slice(buf@, prefix@, kind@) == Ok::<
                (nat, Seq<u8>),
                Halt,
            >((e as nat, line@)),
            Err(e) => spec_extract_byte_slice(buf@, prefix@, kind@) == Err::<
                (nat, Seq<u8>),
                Halt,
            >(fail(e@)),
        },
{
    match extract_byte_slice_of(buf, prefix, kind) {
        Ok(p) => Ok(p),
        Err(Stop::Fail(e)) => Err(e),
        Err(Stop::Abort) => Err(RespError::NotComplete),
    }
}

/// Reads the length line of a frame without consuming it: returns the index of its
/// `\r\n` and the number between the prefix and it.
pub fn extract_len(buf: &[u8], prefix: &str, kind: &str) -> (r: Result<
    (usize, usize),
    RespError,
>)
    requires
        spec_extract_len(buf@, prefix@, kind@) != Err::<(nat, nat), Halt>(Halt::Abort),
    ensures
        match r {
            Ok((e, n)) => spec_extract_len(buf@, prefix@, kind@) == Ok::<(nat, nat), Halt>(
                (e as nat, n as nat),
            ),
            Err(e) => spec_extract_len(buf@, prefix@, kind@) == Err::<(nat, nat), Halt>(
                fail(e@),
            ),
        },
{
    match extract_len_of(buf, prefix, kind) {
        Ok(p) => Ok(p),
        Err(Stop::Fail(e)) => Err(e),
        Err(Stop::Abort) => Err(RespError::NotComplete),
    }
}

/// What `extract_fix` does: the buffer must start with the whole prefix, which is
/// then consumed.
pub open spec fn spec_extract_fix(s: Seq<u8>, prefix: Seq<char>, kind: Seq<char>) -> (
    Result<(), Halt>,
    nat,
) {
    match spec_starts_with(s, prefix, kind) {
        Ok(_) => (Ok(()), encode_utf8(prefix).len()),
        Err(h) => (Err(h), 0),
    }
}

/// Consumes a fixed frame: the buffer must start with `prefix`.
pub fn extract_fix(buf: &mut BytesMut, prefix: &str, kind: &str) -> (r: Result<(), RespError>)
    ensures
        ({
            let (want, used) = spec_extract_fix(buffer_bytes(*old(buf)), prefix@, kind@);
            &&& buffer_bytes(*final(buf)) == buffer_bytes(*old(buf)).skip(used as int)
            &&& match r {
                Ok(_) => want == Ok::<(), Halt>(()),
                Err(e) => want == Err::<(), Halt>(fail(e@)),
            }
        }),
{
    let s = buffer_slice(buf);
    match starts_with(s, prefix, kind) {
        Ok(_) => {
            let n = prefix.as_bytes().len();
            buffer_advance(buf, n);
            Ok(())
        },
        Err(e) => {
            proof {
                assert(buffer_bytes(*buf).skip(0) =~= buffer_bytes(*buf));
            }
            Err(e)
        },
    }
}

/// Copies the first `len` bytes and consumes them together with the `\r\n` after
/// them; the caller guarantees that `len + 2` bytes are there.
pub fn split_vec(buf: &mut BytesMut, len: usize) -> (r: Result<Vec<u8>, RespError>)
    requires
        len + 2 <= buffer_bytes(*old(buf)).len(),
    ensures
        r matches Ok(v) && v@ == buffer_bytes(*old(buf)).take(len as int),
        buffer_bytes(*final(buf)) == buffer_bytes(*old(buf)).skip(len + 2),
{
    let s = buffer_slice(buf);
    let _ = s.len();
    let v = slice_to_vec(slice_subrange(s, 0, len));
    assert(v@ =~= buffer_bytes(*buf).take(len as int));
    buffer_advance(buf, len + 2);
    Ok(v)
}

/// What `consume_byte_mut` takes: the content of the first line (between the prefix
/// and the `\r\n`) and how many bytes the line spans.
#[verifier::opaque]
pub open spec fn spec_line_content(s: Seq<u8>, prefix: Seq<char>, kind: Seq<char>) -> (
    Result<Seq<u8>, Halt>,
    nat,
) {
    match spec_compute_end(s, prefix, kind) {
        Err(h) => (Err(h), 0),
        Ok(e) => {
            let plen = encode_utf8(prefix).len();
            if plen > e {
                (Err(Halt::Abort), 0)
            } else {
                (Ok(s.subrange(plen as int, e as int)), e + 2)
            }
        },
    }
}

/// What `extract_end_vec` takes: the line content, which must be UTF-8; the line is
/// consumed even when it is not.
#[verifier::opaque]
pub open spec fn spec_line_utf8(s: Seq<u8>, prefix: Seq<char>, kind: Seq<char>) -> (
    Result<Seq<u8>, Halt>,
    nat,
) {
    match spec_line_content(s, prefix, kind) {
        (Ok(c), n) => if valid_utf8(c) {
            (Ok(c), n)
        } else {
            (Err(fail(ErrorModel::Utf8Error)), n)
        },
        other => other,
    }
}

/// What `extract_end_string` takes: the line content as text.
#[verifier::opaque]
pub open spec fn spec_line_text(s: Seq<u8>, prefix: Seq<char>, kind: Seq<char>) -> (
    Result<Seq<char>, Halt>,
    nat,
) {
    match spec_line_utf8(s, prefix, kind) {
        (Ok(c), n) => (Ok(decode_utf8(c)), n),
        (Err(h), n) => (Err(h), n),
    }
}

/// The value of an exec outcome that is a byte vector, with the bytes it used.
pub open spec fn bytes_step(r: (Result<Vec<u8>, Stop>, usize)) -> (Result<Seq<u8>, Halt>, nat) {
    match r.0 {
        Ok(v) => (Ok(v@), r.1 as nat),
        Err(e) => (Err(e@), r.1 as nat),
    }
}

/// The value of an exec outcome that is a string, with the bytes it used.
pub open spec fn text_step(r: (Result<String, Stop>, usize)) -> (Result<Seq<char>, Halt>, nat) {
    match r.0 {
        Ok(v) => (Ok(v@), r.1 as nat),
        Err(e) => (Err(e@), r.1 as nat),
    }
}

/// Reads the content of the first line of `buf`, reporting how many bytes the line spans.
pub fn line_content(buf: &[u8], prefix: &str, kind: &str) -> (r: (Result<Vec<u8>, Stop>, usize))
    ensures
        bytes_step(r) == spec_line_content(buf@, prefix@, kind@),
        r.1 <= buf@.len(),
{
    reveal(spec_line_content);
    match compute_end_of(buf, prefix, kind) {
        Err(h) => (Err(h), 0),
        Ok(e) => {
            let plen = prefix.as_bytes().len();
            if plen > e {
                (Err(Stop::Abort), 0)
            } else {
                let c = slice_to_vec(slice_subrange(buf, plen, e));
                assert(c@ =~= buf@.subrange(plen as int, e as int));
                (Ok(c), e + 2)
            }
        },
    }
}

/// Reads the content of the first line of `buf`, which must be UTF-8.
pub fn line_utf8(buf: &[u8], prefix: &str, kind: &str) -> (r: (Result<Vec<u8>, Stop>, usize))
    ensures
        bytes_step(r) == spec_line_utf8(buf@, prefix@, kind@),
        r.1 <= buf@.len(),
{
    reveal(spec_line_utf8);
    let (c, n) = line_content(buf, prefix, kind);
    match c {
        Ok(v) => {
            if is_utf8(v.as_slice()) {
                (Ok(v), n)
            } else {
                (Err(Stop::Fail(RespError::Utf8Error)), n)
            }
        },
        Err(h) => (Err(h), n),
    }
}

/// Reads the content of the first line of `buf` as text.
pub fn line_text(buf: &[u8], prefix: &str, kind: &str) -> (r: (Result<String, Stop>, usize))
    ensures
        text_step(r) == spec_line_text(buf@, prefix@, kind@),
        r.1 <= buf@.len(),
{
    reveal(spec_line_utf8);
    reveal(spec_line_text);
    let (c, n) = line_utf8(buf, prefix, kind);
    match c {
        Ok(v) => {
            let ghost bytes = v@;
            match utf8_to_string(v) {
                Some(s) => (Ok(s), n),
                None => {
                    proof {
                        assert(false);
                    }
                    (Err(Stop::Abort), n)
                },
            }
        },
        Err(h) => (Err(h), n),
    }
}

/// Takes the content of the first line and consumes the line.
pub fn consume_byte_mut(buf: &mut BytesMut, prefix: &str, kind: &str) -> (r: Result<
    Vec<u8>,
    RespError,
>)
    requires
        spec_line_content(buffer_bytes(*old(buf)), prefix@, kind@).0 != Err::<Seq<u8>, Halt>(
            Halt::Abort,
        ),
    ensures
        ({
            let (want, used) = spec_line_content(buffer_bytes(*old(buf)), prefix@, kind@);
            &&& buffer_bytes(*final(buf)) == buffer_bytes(*old(buf)).skip(used as int)
            &&& match r {
                Ok(v) => want == Ok::<Seq<u8>, Halt>(v@),
                Err(e) => want == Err::<Seq<u8>, Halt>(fail(e@)),
            }
        }),
{
    reveal(spec_line_content);
    let (c, n) = line_content(buffer_slice(buf), prefix, kind);
    buffer_advance(buf, n);
    match c {
        Ok(v) => Ok(v),
        Err(Stop::Fail(e)) => Err(e),
        Err(Stop::Abort) => Err(RespError::NotComplete),
    }
}

/// Takes the content of the first line, which must be UTF-8, and consumes the line.
pub fn extract_end_vec(buf: &mut BytesMut, prefix: &str, kind: &str) -> (r: Result<
    Vec<u8>,
    RespError,
>)
    requires
        spec_line_utf8(buffer_bytes(*old(buf)), prefix@, kind@).0 != Err::<Seq<u8>, Halt>(
            Halt::Abort,
        ),
    ensures
        ({
            let (want, used) = spec_line_utf8(buffer_bytes(*old(buf)), prefix@, kind@);
            &&& buffer_bytes(*final(buf)) == buffer_bytes(*old(buf)).skip(used as int)
            &&& match r {
                Ok(v) => want == Ok::<Seq<u8>, Halt>(v@),
                Err(e) => want == Err::<Seq<u8>, Halt>(fail(e@)),
            }
        }),
{
    reveal(spec_line_utf8);
    let (c, n) = line_utf8(buffer_slice(buf), prefix, kind);
    buffer_advance(buf, n);
    match c {
        Ok(v) => Ok(v),
        Err(Stop::Fail(e)) => Err(e),
        Err(Stop::Abort) => Err(RespError::NotComplete),
    }
}

/// Takes the content of the first line as text and consumes the line.
pub fn extract_end_string(buf: &mut BytesMut, prefix: &str, kind: &str) -> (r: Result<
    String,
    RespError,
>)
    requires
        spec_line_text(buffer_bytes(*old(buf)), prefix@, kind@).0 != Err::<Seq<char>, Halt>(
            Halt::Abort,
        ),
    ensures
        ({
            let (want, used) = spec_line_text(buffer_bytes(*old(buf)), prefix@, kind@);
            &&& buffer_bytes(*final(buf)) == buffer_bytes(*old(buf)).skip(used as int)
            &&& match r {
                Ok(v) => want == Ok::<Seq<char>, Halt>(v@),
                Err(e) => want == Err::<Seq<char>, Halt>(fail(e@)),
            }
        }),
{
    reveal(spec_line_text);
    let (c, n) = line_text(buffer_slice(buf), prefix, kind);
    buffer_advance(buf, n);
    match c {
        Ok(v) => Ok(v),
        Err(Stop::Fail(e)) => Err(e),
        Err(Stop::Abort) => Err(RespError::NotComplete),
    }
}

/// A line reader's outcome on a buffer holding `s`: what it read, or why it stopped,
/// with the bytes consumed; nothing is consumed where the reader cannot handle the
/// line (see [`Stop::Abort`]).
pub open spec fn checked_step<T>(r: (Result<T, Halt>, nat)) -> nat {
    match r.0 {
        Err(Halt::Abort) => 0,
        _ => r.1,
    }
}

/// `split_vec` on any buffer: stops with [`Stop::Abort`], consuming nothing, when fewer
/// than `len + 2` bytes are there.
pub fn try_split_vec(buf: &mut BytesMut, len: usize) -> (r: Result<Vec<u8>, Stop>)
    ensures
        len + 2 <= buffer_bytes(*old(buf)).len() ==> (r matches Ok(v) && v@ == buffer_bytes(
            *old(buf),
        ).take(len as int) && buffer_bytes(*final(buf)) == buffer_bytes(*old(buf)).skip(
            len + 2,
        )),
        len + 2 > buffer_bytes(*old(buf)).len() ==> (r matches Err(Stop::Abort) && buffer_bytes(
            *final(buf),
        ) == buffer_bytes(*old(buf))),
{
    let n = buffer_slice(buf).len();
    if n < 2 || n - 2 < len {
        return Err(Stop::Abort);
    }
    match split_vec(buf, len) {
        Ok(v) => Ok(v),
        Err(e) => Err(Stop::Fail(e)),
    }
}

/// `consume_byte_mut` on any buffer: stops with [`Stop::Abort`], consuming nothing,
/// where the line cannot be handled.
pub fn try_consume_byte_mut(buf: &mut BytesMut, prefix: &str, kind: &str) -> (r: Result<
    Vec<u8>,
    Stop,
>)
    ensures
        ({
            let (want, used) = spec_line_content(buffer_bytes(*old(buf)), prefix@, kind@);
            &&& buffer_bytes(*final(buf)) == buffer_bytes(*old(buf)).skip(
                checked_step((want, used)) as int,
            )
            &&& match r {
                Ok(v) => want == Ok::<Seq<u8>, Halt>(v@),
                Err(e) => want == Err::<Seq<u8>, Halt>(e@),
            }
        }),
{
    let (c, n) = line_content(buffer_slice(buf), prefix, kind);
    match c {
        Err(Stop::Abort) => Err(Stop::Abort),
        other => {
            buffer_advance(buf, n);
            other
        },
    }
}

/// `extract_end_vec` on any buffer: stops with [`Stop::Abort`], consuming nothing,
/// where the line cannot be handled.
pub fn try_extract_end_vec(buf: &mut BytesMut, prefix: &str, kind: &str) -> (r: Result<
    Vec<u8>,
    Stop,
>)
    ensures
        ({
            let (want, used) = spec_line_utf8(buffer_bytes(*old(buf)), prefix@, kind@);
            &&& buffer_bytes(*final(buf)) == buffer_bytes(*old(buf)).skip(
                checked_step((want, used)) as int,
            )
            &&& match r {
                Ok(v) => want == Ok::<Seq<u8>, Halt>(v@),
                Err(e) => want == Err::<Seq<u8>, Halt>(e@),
            }
        }),
{
    let (c, n) = line_utf8(buffer_slice(buf), prefix, kind);
    match c {
        Err(Stop::Abort) => Err(Stop::Abort),
        other => {
            buffer_advance(buf, n);
            other
        },
    }
}

/// `extract_end_string` on any buffer: stops with [`Stop::Abort`], consuming nothing,
/// where the line cannot be handled.
pub fn try_extract_end_string(buf: &mut BytesMut, prefix: &str, kind: &str) -> (r: Result<
    String,
    Stop,
>)
    ensures
        ({
            let (want, used) = spec_line_text(buffer_bytes(*old(buf)), prefix@, kind@);
            &&& buffer_bytes(*final(buf)) == buffer_bytes(*old(buf)).skip(
                checked_step((want, used)) as int,
            )
            &&& match r {
                Ok(v) => want == Ok::<Seq<char>, Halt>(v@),
                Err(e) => want == Err::<Seq<char>, Halt>(e@),
            }
        }),
{
    let (c, n) = line_text(buffer_slice(buf), prefix, kind);
    match c {
        Err(Stop::Abort) => Err(Stop::Abort),
        other => {
            buffer_advance(buf, n);
            other
        },
    }
}

} // verus!

verus! {

/// How `calc_total_length` treats what follows a length line: `*` and `~` are
/// followed by that many frames, `%` by that many key/value pairs, and any other
/// prefix by that many bytes and a `\r\n`.
pub open spec fn follows_frames(prefix: Seq<char>) -> bool {
    encode_utf8(prefix) == seq![42u8] || encode_utf8(prefix) == seq![126u8]
}

/// See [`follows_frames`].
pub open spec fn follows_pairs(prefix: Seq<char>) -> bool {
    encode_utf8(prefix) == seq![37u8]
}

/// What `RespFrame::expect_length` computes: how many bytes the frame at the start of
/// `s` spans, judged from its length lines alone.
pub open spec fn frame_extent(s: Seq<u8>) -> Result<nat, Halt>
    decreases s.len(), 2nat, 0nat,
{
    if s.len() == 0 {
        Err(fail(ErrorModel::NotComplete))
    } else if s[0] == 43 {
        spec_compute_end_with_crlf(s, "+"@, "SimpleString"@)
    } else if s[0] == 45 {
        spec_compute_end_with_crlf(s, "-"@, "SimpleError"@)
    } else if s[0] == 58 {
        spec_compute_end_with_crlf(s, ":"@, "RespInteger"@)
    } else if s[0] == 36 {
        bulk_extent(s)
    } else if s[0] == 42 {
        array_extent(s)
    } else if s[0] == 35 {
        Ok(4)
    } else if s[0] == 44 {
        spec_compute_end_with_crlf(s, ","@, "double"@)
    } else if s[0] == 37 {
        map_extent(s)
    } else if s[0] == 126 {
        set_extent(s)
    } else if s[0] == 95 {
        Ok(3)
    } else {
        Err(fail(ErrorModel::NotComplete))
    }
}

/// What `BulkString::expect_length` computes: the length line, the announced number
/// of bytes and a `\r\n`; a length that no buffer can hold is not complete.
pub open spec fn bulk_extent(s: Seq<u8>) -> Result<nat, Halt> {
    match spec_extract_len(s, "$"@, ""@) {
        Ok((e, n)) => if e + 2 + n + 2 > usize::MAX {
            Err(fail(ErrorModel::NotComplete))
        } else {
            Ok(e + 2 + n + 2)
        },
        Err(h) => Err(h),
    }
}

/// What `RespArray::expect_length` computes.
pub open spec fn array_extent(s: Seq<u8>) -> Result<nat, Halt>
    decreases s.len(), 1nat, 1nat,
{
    match spec_extract_len(s, "*"@, "RespArray"@) {
        Ok((e, n)) => total_length(s, e, n, "*"@),
        Err(h) => Err(h),
    }
}

/// What `RespMap::expect_length` computes.
pub open spec fn map_extent(s: Seq<u8>) -> Result<nat, Halt>
    decreases s.len(), 1nat, 1nat,
{
    match spec_extract_len(s, "%"@, "RespMaps"@) {
        Ok((e, n)) => total_length(s, e, n, "%"@),
        Err(h) => Err(h),
    }
}

/// What `RespSet::expect_length` computes.
pub open spec fn set_extent(s: Seq<u8>) -> Result<nat, Halt>
    decreases s.len(), 1nat, 1nat,
{
    match spec_extract_len(s, "~"@, "RespSet"@) {
        Ok((e, n)) => total_length(s, e, n, "~"@),
        Err(h) => Err(h),
    }
}

/// What `calc_total_length` computes: the length line ends at `end`; it is followed
/// by `len` frames, pairs or bytes depending on the prefix. Frames or pairs that run
/// past the end of `s` are not complete; for any other prefix, `len + 2` must fit in
/// a `usize`.
pub open spec fn total_length(s: Seq<u8>, end: nat, len: nat, prefix: Seq<char>) -> Result<
    nat,
    Halt,
>
    decreases s.len(), 1nat, 0nat,
{
    let total = end + 2;
    if total > s.len() {
        Err(fail(ErrorModel::NotComplete))
    } else if follows_frames(prefix) || follows_pairs(prefix) {
        match items_extent(s.skip(total as int), len, follows_pairs(prefix)) {
            Ok(r) => Ok(total + r),
            Err(h) => Err(h),
        }
    } else if len + 2 > usize::MAX {
        Err(Halt::Abort)
    } else {
        Ok(len + 2)
    }
}

/// How many bytes one frame (or one key/value pair) at the start of `data` spans; a
/// measured frame longer than what is left is not complete.
pub open spec fn item_extent(data: Seq<u8>, pairs: bool) -> Result<nat, Halt>
    decreases data.len(), 3nat, 0nat,
{
    if !pairs {
        match frame_extent(data) {
            Err(h) => Err(h),
            Ok(l) => if l > data.len() {
                Err(fail(ErrorModel::NotComplete))
            } else {
                Ok(l)
            },
        }
    } else {
        match spec_compute_end_with_crlf(data, "+"@, "SimpleString"@) {
            Err(h) => Err(h),
            Ok(l1) => if l1 > data.len() {
                Err(fail(ErrorModel::NotComplete))
            } else {
                match frame_extent(data.skip(l1 as int)) {
                    Err(h) => Err(h),
                    Ok(l2) => if l2 > data.len() - l1 {
                        Err(fail(ErrorModel::NotComplete))
                    } else {
                        Ok(l1 + l2)
                    },
                }
            },
        }
    }
}

/// How many bytes `count` consecutive frames (or key/value pairs) span, measured one
/// after the other.
pub open spec fn items_extent(data: Seq<u8>, count: nat, pairs: bool) -> Result<nat, Halt>
    decreases data.len(), 4nat, count,
{
    if count == 0 {
        Ok(0)
    } else {
        match item_extent(data, pairs) {
            Err(h) => Err(h),
            Ok(l) => if l > data.len() {
                Err(fail(ErrorModel::NotComplete))
            } else {
                match items_extent(data.skip(l as int), (count - 1) as nat, pairs) {
                    Ok(r) => Ok(l + r),
                    Err(h) => Err(h),
                }
            },
        }
    }
}

/// Whether a prefix is the single byte `b`.
fn prefix_is(prefix: &str, b: u8) -> (r: bool)
    ensures
        r == (encode_utf8(prefix@) == seq![b]),
{
    let p = prefix.as_bytes();
    if p.len() == 1 && p[0] == b {
        assert(p@ =~= seq![b]);
        true
    } else {
        false
    }
}

/// Shifts a measured extent by a number of bytes already counted.
pub open spec fn shifted(r: Result<nat, Halt>, by: nat) -> Result<nat, Halt> {
    match r {
        Ok(n) => Ok(n + by),
        Err(h) => Err(h),
    }
}

/// Measures a bulk string (the core of `BulkString::expect_length`).
pub fn bulk_extent_of(buf: &[u8]) -> (r: Result<usize, Stop>)
    ensures
        count_result(r) == bulk_extent(buf@),
{
    let (end, len) = extract_len_of(buf, "$", "")?;
    if end > usize::MAX - 2 || len > usize::MAX - 2 - end || 2 > usize::MAX - 2 - end - len {
        return Err(Stop::Fail(RespError::NotComplete));
    }
    Ok(end + 2 + len + 2)
}

/// Measures an array (the core of `RespArray::expect_length`).
pub fn array_extent_of(buf: &[u8]) -> (r: Result<usize, Stop>)
    ensures
        count_result(r) == array_extent(buf@),
    decreases buf@.len(), 1nat,
{
    let (end, len) = extract_len_of(buf, "*", "RespArray")?;
    total_length_of(buf, end, len, "*")
}

/// Measures a map (the core of `RespMap::expect_length`).
pub fn map_extent_of(buf: &[u8]) -> (r: Result<usize, Stop>)
    ensures
        count_result(r) == map_extent(buf@),
    decreases buf@.len(), 1nat,
{
    let (end, size) = extract_len_of(buf, "%", "RespMaps")?;
    total_length_of(buf, end, size, "%")
}

/// Measures a set (the core of `RespSet::expect_length`).
pub fn set_extent_of(buf: &[u8]) -> (r: Result<usize, Stop>)
    ensures
        count_result(r) == set_extent(buf@),
    decreases buf@.len(), 1nat,
{
    let (end, len) = extract_len_of(buf, "~", "RespSet")?;
    total_length_of(buf, end, len, "~")
}

/// Measures the frame at the start of `buf` (the core of `RespFrame::expect_length`).
pub fn frame_extent_of(buf: &[u8]) -> (r: Result<usize, Stop>)
    ensures
        count_result(r) == frame_extent(buf@),
    decreases buf@.len(), 2nat,
{
    let blen = buf.len();
    if blen == 0 {
        return Err(Stop::Fail(RespError::NotComplete));
    }
    let b = buf[0];
    if b == 43 {
        compute_end_with_crlf_of(buf, "+", "SimpleString")
    } else if b == 45 {
        compute_end_with_crlf_of(buf, "-", "SimpleError")
    } else if b == 58 {
        compute_end_with_crlf_of(buf, ":", "RespInteger")
    } else if b == 36 {
        bulk_extent_of(buf)
    } else if b == 42 {
        array_extent_of(buf)
    } else if b == 35 {
        Ok(4)
    } else if b == 44 {
        compute_end_with_crlf_of(buf, ",", "double")
    } else if b == 37 {
        map_extent_of(buf)
    } else if b == 126 {
        set_extent_of(buf)
    } else if b == 95 {
        Ok(3)
    } else {
        Err(Stop::Fail(RespError::NotComplete))
    }
}

/// Measures one frame (or key/value pair) at the start of `data`.
fn item_extent_of(data: &[u8], pairs: bool) -> (r: Result<usize, Stop>)
    ensures
        count_result(r) == item_extent(data@, pairs),
        r matches Ok(l) ==> l <= data@.len(),
    decreases data@.len(), 3nat,
{
    let dlen = data.len();
    if !pairs {
        let l = frame_extent_of(data)?;
        if l > dlen {
            return Err(Stop::Fail(RespError::NotComplete));
        }
        Ok(l)
    } else {
        let l1 = compute_end_with_crlf_of(data, "+", "SimpleString")?;
        if l1 > dlen {
            return Err(Stop::Fail(RespError::NotComplete));
        }
        let rest = slice_subrange(data, l1, dlen);
        assert(rest@ =~= data@.skip(l1 as int));
        let l2 = frame_extent_of(rest)?;
        if l2 > dlen - l1 {
            return Err(Stop::Fail(RespError::NotComplete));
        }
        Ok(l1 + l2)
    }
}

/// Unfolds [`items_extent`] once.
proof fn lemma_items_unfold(data: Seq<u8>, count: nat, pairs: bool)
    ensures
        items_extent(data, count, pairs) == (if count == 0 {
            Ok(0)
        } else {
            match item_extent(data, pairs) {
                Err(h) => Err(h),
                Ok(l) => if l > data.len() {
                    Err(fail(ErrorModel::NotComplete))
                } else {
                    shifted(items_extent(data.skip(l as int), (count - 1) as nat, pairs), l)
                },
            }
        }),
{
}

/// Measures what follows a length line (the core of `calc_total_length`).
pub fn total_length_of(buf: &[u8], end: usize, len: usize, prefix: &str) -> (r: Result<
    usize,
    Stop,
>)
    ensures
        count_result(r) == total_length(buf@, end as nat, len as nat, prefix@),
    decreases buf@.len(), 0nat,
{
    let blen = buf.len();
    if end > blen || blen - end < 2 {
        return Err(Stop::Fail(RespError::NotComplete));
    }
    let total0 = end + 2;
    let frames = prefix_is(prefix, 42) || prefix_is(prefix, 126);
    let pairs = prefix_is(prefix, 37);
    if !frames && !pairs {
        if len > usize::MAX - 2 {
            return Err(Stop::Abort);
        }
        return Ok(len + 2);
    }
    let ghost whole = buf@.skip(total0 as int);
    let mut total = total0;
    let mut left = len;
    while left > 0
        invariant
            total0 <= total <= blen,
            blen == buf@.len(),
            left <= len,
            pairs == follows_pairs(prefix@),
            follows_frames(prefix@) || follows_pairs(prefix@),
            whole == buf@.skip(total0 as int),
            total0 == end + 2,
            shifted(items_extent(whole, len as nat, pairs), total0 as nat) == shifted(
                items_extent(buf@.skip(total as int), left as nat, pairs),
                total as nat,
            ),
        decreases left,
    {
        let data = slice_subrange(buf, total, blen);
        assert(data@ =~= buf@.skip(total as int));
        proof {
            lemma_items_unfold(data@, left as nat, pairs);
        }
        let l = item_extent_of(data, pairs)?;
        assert(data@.skip(l as int) =~= buf@.skip(total + l));
        total = total + l;
        left = left - 1;
    }
    proof {
        lemma_items_unfold(buf@.skip(total as int), 0, pairs);
    }
    Ok(total)
}

/// A line with a non-empty prefix is read without aborting.
proof fn lemma_compute_end_ok(s: Seq<u8>, prefix: Seq<char>, kind: Seq<char>)
    requires
        encode_utf8(prefix).len() > 0,
    ensures
        spec_compute_end(s, prefix, kind) != Err::<nat, Halt>(Halt::Abort),
{
    reveal(spec_compute_end);
}

/// A length line with a one-byte prefix is read without aborting.
proof fn lemma_extract_len_ok(s: Seq<u8>, prefix: Seq<char>, kind: Seq<char>)
    requires
        encode_utf8(prefix).len() == 1,
    ensures
        spec_extract_len(s, prefix, kind) != Err::<(nat, nat), Halt>(Halt::Abort),
{
    reveal(spec_extract_len);
    reveal(spec_compute_end);
}

/// Measuring a frame never aborts.
pub proof fn lemma_frame_extent_ok(s: Seq<u8>)
    ensures
        frame_extent(s) != Err::<nat, Halt>(Halt::Abort),
    decreases s.len(), 2nat, 0nat,
{
    crate::resp::laws::lemma_literals();
    if s.len() > 0 {
        lemma_compute_end_ok(s, "+"@, "SimpleString"@);
        lemma_compute_end_ok(s, "-"@, "SimpleError"@);
        lemma_compute_end_ok(s, ":"@, "RespInteger"@);
        lemma_compute_end_ok(s, ","@, "double"@);
        lemma_extract_len_ok(s, "$"@, ""@);
        lemma_extract_len_ok(s, "*"@, "RespArray"@);
        lemma_extract_len_ok(s, "%"@, "RespMaps"@);
        lemma_extract_len_ok(s, "~"@, "RespSet"@);
        if s[0] == 42 {
            if let Ok((e, n)) = spec_extract_len(s, "*"@, "RespArray"@) {
                lemma_total_length_ok(s, e, n, "*"@);
            }
        } else if s[0] == 37 {
            if let Ok((e, n)) = spec_extract_len(s, "%"@, "RespMaps"@) {
                lemma_total_length_ok(s, e, n, "%"@);
            }
        } else if s[0] == 126 {
            if let Ok((e, n)) = spec_extract_len(s, "~"@, "RespSet"@) {
                lemma_total_length_ok(s, e, n, "~"@);
            }
        }
    }
}

/// Measuring a value never aborts, whatever the bytes are: each measure gives a
/// length or a failure.
pub proof fn lemma_extents_total(s: Seq<u8>)
    ensures
        spec_compute_end_with_crlf(s, "+"@, "SimpleString"@) != Err::<nat, Halt>(Halt::Abort),
        spec_compute_end_with_crlf(s, "-"@, "SimpleError"@) != Err::<nat, Halt>(Halt::Abort),
        spec_compute_end_with_crlf(s, ":"@, "RespInteger"@) != Err::<nat, Halt>(Halt::Abort),
        spec_compute_end_with_crlf(s, ","@, "double"@) != Err::<nat, Halt>(Halt::Abort),
        bulk_extent(s) != Err::<nat, Halt>(Halt::Abort),
        array_extent(s) != Err::<nat, Halt>(Halt::Abort),
        map_extent(s) != Err::<nat, Halt>(Halt::Abort),
        set_extent(s) != Err::<nat, Halt>(Halt::Abort),
        frame_extent(s) != Err::<nat, Halt>(Halt::Abort),
{
    crate::resp::laws::lemma_literals();
    lemma_compute_end_ok(s, "+"@, "SimpleString"@);
    lemma_compute_end_ok(s, "-"@, "SimpleError"@);
    lemma_compute_end_ok(s, ":"@, "RespInteger"@);
    lemma_compute_end_ok(s, ","@, "double"@);
    lemma_extract_len_ok(s, "$"@, ""@);
    lemma_extract_len_ok(s, "*"@, "RespArray"@);
    lemma_extract_len_ok(s, "%"@, "RespMaps"@);
    lemma_extract_len_ok(s, "~"@, "RespSet"@);
    if let Ok((e, n)) = spec_extract_len(s, "*"@, "RespArray"@) {
        lemma_total_length_ok(s, e, n, "*"@);
    }
    if let Ok((e, n)) = spec_extract_len(s, "%"@, "RespMaps"@) {
        lemma_total_length_ok(s, e, n, "%"@);
    }
    if let Ok((e, n)) = spec_extract_len(s, "~"@, "RespSet"@) {
        lemma_total_length_ok(s, e, n, "~"@);
    }
    lemma_frame_extent_ok(s);
}

/// Checking the length line of an array, set or map never aborts; the length line it
/// consumes is there in full.
pub proof fn lemma_check_len_ok(s: Seq<u8>, prefix: Seq<char>, kind: Seq<char>)
    requires
        follows_frames(prefix) || follows_pairs(prefix),
    ensures
        spec_check_len(s, prefix, kind).0 != Err::<nat, Halt>(Halt::Abort),
        spec_check_len(s, prefix, kind).1 <= s.len(),
        spec_check_len(s, prefix, kind).0 is Ok ==> spec_check_len(s, prefix, kind).1 > 0,
{
    reveal(spec_check_len);
    reveal(spec_extract_len);
    reveal(spec_compute_end);
    lemma_extract_len_ok(s, prefix, kind);
    lemma_crlf_from(s, 0);
    if let Ok((e, n)) = spec_extract_len(s, prefix, kind) {
        lemma_total_length_ok(s, e, n, prefix);
    }
}

/// Measuring what follows a length line never aborts, but for a prefix followed by
/// bytes whose count plus two does not fit in a `usize`.
pub proof fn lemma_total_length_ok(s: Seq<u8>, end: nat, len: nat, prefix: Seq<char>)
    requires
        follows_frames(prefix) || follows_pairs(prefix) || len + 2 <= usize::MAX,
    ensures
        total_length(s, end, len, prefix) != Err::<nat, Halt>(Halt::Abort),
    decreases s.len(), 1nat, 0nat,
{
    if end + 2 <= s.len() && (follows_frames(prefix) || follows_pairs(prefix)) {
        lemma_items_extent_ok(s.skip(end + 2int), len, follows_pairs(prefix));
    }
}

/// Measuring one frame or pair never aborts.
proof fn lemma_item_extent_ok(data: Seq<u8>, pairs: bool)
    ensures
        item_extent(data, pairs) != Err::<nat, Halt>(Halt::Abort),
    decreases data.len(), 3nat, 0nat,
{
    crate::resp::laws::lemma_literals();
    lemma_frame_extent_ok(data);
    if pairs {
        lemma_compute_end_ok(data, "+"@, "SimpleString"@);
        if let Ok(l1) = spec_compute_end_with_crlf(data, "+"@, "SimpleString"@) {
            if l1 <= data.len() {
                lemma_frame_extent_ok(data.skip(l1 as int));
            }
        }
    }
}

/// Measuring frames or pairs one after the other never aborts.
proof fn lemma_items_extent_ok(data: Seq<u8>, count: nat, pairs: bool)
    ensures
        items_extent(data, count, pairs) != Err::<nat, Halt>(Halt::Abort),
    decreases data.len(), 4nat, count,
{
    if count > 0 {
        lemma_item_extent_ok(data, pairs);
        if let Ok(l) = item_extent(data, pairs) {
            if l <= data.len() {
                lemma_items_extent_ok(data.skip(l as int), (count - 1) as nat, pairs);
            }
        }
    }
}

/// Measures what follows a length line: the length line ends at `end` and is
/// followed by `len` frames (prefixes `*`, `~`), `len` key/value pairs (`%`), or
/// `len` bytes and a `\r\n` (any other prefix).
pub fn calc_total_length(buf: &[u8], end: usize, len: usize, prefix: &str) -> (r: Result<
    usize,
    RespError,
>)
    requires
        prefix@ == "*"@ || prefix@ == "~"@ || prefix@ == "%"@ || len + 2 <= usize::MAX,
    ensures
        match r {
            Ok(n) => total_length(buf@, end as nat, len as nat, prefix@) == Ok::<nat, Halt>(
                n as nat,
            ),
            Err(e) => total_length(buf@, end as nat, len as nat, prefix@) == Err::<nat, Halt>(
                fail(e@),
            ),
        },
{
    proof {
        crate::resp::laws::lemma_literals();
        lemma_total_length_ok(buf@, end as nat, len as nat, prefix@);
    }
    match total_length_of(buf, end, len, prefix) {
        Ok(n) => Ok(n),
        Err(Stop::Fail(e)) => Err(e),
        Err(Stop::Abort) => Err(RespError::NotComplete),
    }
}

/// What `check_len` does: reads the length line, measures what follows it, and
/// consumes the length line once all of it is there.
#[verifier::opaque]
pub open spec fn spec_check_len(s: Seq<u8>, prefix: Seq<char>, kind: Seq<char>) -> (
    Result<nat, Halt>,
    nat,
) {
    match spec_extract_len(s, prefix, kind) {
        Err(h) => (Err(h), 0),
        Ok((e, n)) => match total_length(s, e, n, prefix) {
            Err(h) => (Err(h), 0),
            Ok(total) => if s.len() < total {
                (Err(fail(ErrorModel::NotComplete)), 0)
            } else {
                (Ok(n), e + 2)
            },
        },
    }
}

/// The value of an exec outcome that is a count, with the bytes it used.
pub open spec fn count_step(r: (Result<usize, Stop>, usize)) -> (Result<nat, Halt>, nat) {
    match r.0 {
        Ok(v) => (Ok(v as nat), r.1 as nat),
        Err(e) => (Err(e@), r.1 as nat),
    }
}

/// Reads a length line and checks that all the frame is there (the core of `check_len`).
pub fn check_len_of(buf: &[u8], prefix: &str, kind: &str) -> (r: (Result<usize, Stop>, usize))
    ensures
        count_step(r) == spec_check_len(buf@, prefix@, kind@),
        r.1 <= buf@.len(),
{
    reveal(spec_check_len);
    let blen = buf.len();
    let (end, len) = match extract_len_of(buf, prefix, kind) {
        Ok(p) => p,
        Err(h) => return (Err(h), 0),
    };
    let total = match total_length_of(buf, end, len, prefix) {
        Ok(t) => t,
        Err(h) => return (Err(h), 0),
    };
    if blen < total {
        return (Err(Stop::Fail(RespError::NotComplete)), 0);
    }
    proof {
        lemma_crlf_from(buf@, 0);
    }
    (Ok(len), end + 2)
}

/// Reads a length line, checks that all the frame is there, and consumes the length line.
pub fn check_len(buf: &mut BytesMut, prefix: &str, kind: &str) -> (r: Result<usize, RespError>)
    requires
        prefix@ == "*"@ || prefix@ == "~"@ || prefix@ == "%"@ || spec_check_len(
            buffer_bytes(*old(buf)),
            prefix@,
            kind@,
        ).0 != Err::<nat, Halt>(Halt::Abort),
    ensures
        ({
            let (want, used) = spec_check_len(buffer_bytes(*old(buf)), prefix@, kind@);
            &&& buffer_bytes(*final(buf)) == buffer_bytes(*old(buf)).skip(used as int)
            &&& match r {
                Ok(n) => want == Ok::<nat, Halt>(n as nat),
                Err(e) => want == Err::<nat, Halt>(fail(e@)),
            }
        }),
{
    proof {
        crate::resp::laws::lemma_literals();
        if prefix@ == "*"@ || prefix@ == "~"@ || prefix@ == "%"@ {
            lemma_check_len_ok(buffer_bytes(*buf), prefix@, kind@);
        }
    }
    reveal(spec_check_len);
    let (c, n) = check_len_of(buffer_slice(buf), prefix, kind);
    buffer_advance(buf, n);
    match c {
        Ok(v) => Ok(v),
        Err(Stop::Fail(e)) => Err(e),
        Err(Stop::Abort) => Err(RespError::NotComplete),
    }
}

/// `check_len` on any buffer: stops with [`Stop::Abort`], consuming nothing, where the
/// length line or the measure cannot be handled.
pub fn try_check_len(buf: &mut BytesMut, prefix: &str, kind: &str) -> (r: Result<usize, Stop>)
    ensures
        ({
            let (want, used) = spec_check_len(buffer_bytes(*old(buf)), prefix@, kind@);
            &&& buffer_bytes(*final(buf)) == buffer_bytes(*old(buf)).skip(
                checked_step((want, used)) as int,
            )
            &&& match r {
                Ok(n) => want == Ok::<nat, Halt>(n as nat),
                Err(e) => want == Err::<nat, Halt>(e@),
            }
        }),
{
    let (c, n) = check_len_of(buffer_slice(buf), prefix, kind);
    match c {
        Err(Stop::Abort) => Err(Stop::Abort),
        other => {
            buffer_advance(buf, n);
            other
        },
    }
}

} // verus!
