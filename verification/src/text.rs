//! Decimal numbers, byte-list rendering and UTF-8 text: the textual pieces
//! that the RESP wire format and its error messages are made of.
use vstd::prelude::*;
use vstd::utf8::*;
use vstd::slice::slice_subrange;

verus! {

broadcast use vstd::utf8::group_utf8_lib;

/// An ASCII decimal digit.
pub open spec fn is_digit(b: u8) -> bool {
    48 <= b <= 57
}

/// Every byte of `s` is an ASCII decimal digit.
pub open spec fn all_digits(s: Seq<u8>) -> bool {
    forall|i: int| 0 <= i < s.len() ==> is_digit(#[trigger] s[i])
}

/// The value of a string of decimal digits, most significant first.
pub open spec fn digits_value(s: Seq<u8>) -> nat
    decreases s.len(),
{
    if s.len() == 0 {
        0
    } else {
        digits_value(s.drop_last()) * 10 + (s.last() - 48) as nat
    }
}

/// The shortest decimal rendering of `n` (what `{}` prints for an unsigned integer).
pub open spec fn dec(n: nat) -> Seq<u8>
    decreases n,
{
    if n < 10 {
        seq![(48 + n) as u8]
    } else {
        dec(n / 10).push((48 + n % 10) as u8)
    }
}

/// What `{}` prints for an `i64`: a minus sign for negative values, then the magnitude.
pub open spec fn dec_signed(v: i64) -> Seq<u8> {
    if v < 0 {
        seq![45u8] + dec((-v) as nat)
    } else {
        dec(v as nat)
    }
}

/// What `str::parse::<usize>` accepts: an optional `+`, then one or more decimal
/// digits whose value fits in a `usize`.
pub open spec fn parse_usize_spec(s: Seq<u8>) -> Option<usize> {
    let d = if s.len() > 0 && s[0] == 43 {
        s.drop_first()
    } else {
        s
    };
    if d.len() > 0 && all_digits(d) && digits_value(d) <= usize::MAX {
        Some(digits_value(d) as usize)
    } else {
        None
    }
}

/// What `str::parse::<i64>` accepts: an optional `+` or `-`, then one or more
/// decimal digits whose signed value fits in an `i64`.
pub open spec fn parse_i64_spec(s: Seq<u8>) -> Option<i64> {
    let neg = s.len() > 0 && s[0] == 45;
    let d = if s.len() > 0 && (s[0] == 43 || s[0] == 45) {
        s.drop_first()
    } else {
        s
    };
    if d.len() > 0 && all_digits(d) {
        let v = digits_value(d) as int;
        if neg && v <= 0x8000_0000_0000_0000 {
            Some((-v) as i64)
        } else if !neg && v <= 0x7fff_ffff_ffff_ffff {
            Some(v as i64)
        } else {
            None
        }
    } else {
        None
    }
}

pub proof fn lemma_digits_value_push(s: Seq<u8>, b: u8)
    ensures
        digits_value(s.push(b)) == digits_value(s) * 10 + (b - 48) as nat,
{
    assert(s.push(b).drop_last() =~= s);
}

/// The decimal rendering is nonempty, made of digits, and reads back as `n`.
pub proof fn lemma_dec(n: nat)
    ensures
        dec(n).len() >= 1,
        all_digits(dec(n)),
        digits_value(dec(n)) == n,
        n < 10 ==> dec(n).len() == 1,
        n >= 10 ==> dec(n).len() >= 2,
        dec(n).len() <= n + 1,
    decreases n,
{
    if n < 10 {
        assert(dec(n).drop_last() =~= Seq::<u8>::empty());
        assert(dec(n).last() == (48 + n) as u8);
        assert(((48 + n) as u8 - 48) as nat == n);
        assert(digits_value(Seq::<u8>::empty()) == 0);
        assert(digits_value(dec(n)) == digits_value(dec(n).drop_last()) * 10 + (dec(n).last() - 48) as nat);
    } else {
        assert(dec(n) == dec(n / 10).push((48 + n % 10) as u8));
        lemma_dec(n / 10);
        lemma_digits_value_push(dec(n / 10), (48 + n % 10) as u8);
        assert(((48 + n % 10) as u8 - 48) as nat == n % 10);
        assert(n == (n / 10) * 10 + n % 10) by (nonlinear_arith);
        assert(digits_value(dec(n)) == digits_value(dec(n / 10)) * 10 + n % 10);
        assert(n / 10 + 1 <= n) by (nonlinear_arith)
            requires
                n >= 10,
        ;
    }
}

/// Parsing the rendering of an unsigned number gives it back.
pub proof fn lemma_parse_dec(n: usize)
    ensures
        parse_usize_spec(dec(n as nat)) == Some(n),
{
    lemma_dec(n as nat);
}

/// Parsing the rendering of a signed number gives it back.
pub proof fn lemma_parse_dec_signed(v: i64)
    ensures
        parse_i64_spec(dec_signed(v)) == Some(v),
{
    if v < 0 {
        lemma_dec((-v) as nat);
        assert((seq![45u8] + dec((-v) as nat)).drop_first() =~= dec((-v) as nat));
    } else {
        lemma_dec(v as nat);
    }
}

/// Appends the decimal rendering of `n`.
pub fn push_decimal(out: &mut Vec<u8>, n: u64)
    ensures
        final(out)@ == old(out)@ + dec(n as nat),
    decreases n,
{
    if n >= 10 {
        push_decimal(out, n / 10);
    }
    let d = (n % 10) as u8;
    out.push(48 + d);
    proof {
        if n >= 10 {
            assert(dec(n as nat) == dec((n / 10) as nat).push((48 + n % 10) as u8));
        }
        assert(final(out)@ =~= old(out)@ + dec(n as nat));
    }
}

/// Appends what `{}` prints for a signed integer.
pub fn push_signed_decimal(out: &mut Vec<u8>, v: i64)
    ensures
        final(out)@ == old(out)@ + dec_signed(v),
{
    if v < 0 {
        out.push(45);
        let m: u64 = if v == i64::MIN {
            0x8000_0000_0000_0000u64
        } else {
            (-v) as u64
        };
        push_decimal(out, m);
        assert(final(out)@ =~= old(out)@ + dec_signed(v));
    } else {
        push_decimal(out, v as u64);
    }
}

/// Reads `s` as an unsigned decimal number the way `str::parse::<usize>` does.
pub fn parse_usize(s: &[u8]) -> (r: Option<usize>)
    ensures
        r == parse_usize_spec(s@),
{
    let n = s.len();
    let start: usize = if n > 0 && s[0] == 43 {
        1
    } else {
        0
    };
    let ghost d = if s@.len() > 0 && s@[0] == 43 {
        s@.drop_first()
    } else {
        s@
    };
    assert(d =~= s@.skip(start as int));
    if start >= n {
        return None;
    }
    let mut acc: usize = 0;
    let mut i = start;
    let mut fits = true;
    while i < n
        invariant
            start <= i <= n,
            n == s@.len(),
            d =~= s@.skip(start as int),
            d == (if s@.len() > 0 && s@[0] == 43 {
                s@.drop_first()
            } else {
                s@
            }),
            all_digits(s@.subrange(start as int, i as int)),
            fits ==> acc == digits_value(s@.subrange(start as int, i as int)),
            !fits ==> digits_value(s@.subrange(start as int, i as int)) > usize::MAX,
        decreases n - i,
    {
        let b = s[i];
        if !(48 <= b && b <= 57) {
            assert(!all_digits(d)) by {
                assert(d[i - start] == b);
                assert(!is_digit(d[i - start]));
            }
            return None;
        }
        proof {
            lemma_digits_value_push(s@.subrange(start as int, i as int), b);
            assert(s@.subrange(start as int, i + 1) =~= s@.subrange(start as int, i as int).push(b));
        }
        if fits {
            if acc > (usize::MAX - (b - 48) as usize) / 10 {
                fits = false;
                assert(acc * 10 + (b - 48) > usize::MAX) by (nonlinear_arith)
                    requires
                        acc > (usize::MAX - (b - 48) as usize) / 10,
                        b >= 48,
                ;
            } else {
                assert(acc * 10 + (b - 48) <= usize::MAX) by (nonlinear_arith)
                    requires
                        acc <= (usize::MAX - (b - 48) as usize) / 10,
                        b >= 48,
                        b <= 57,
                ;
                acc = acc * 10 + (b - 48) as usize;
            }
        } else {
            assert(digits_value(s@.subrange(start as int, i as int)) * 10 + (b - 48) as nat
                > usize::MAX) by (nonlinear_arith)
                requires
                    digits_value(s@.subrange(start as int, i as int)) > usize::MAX,
            ;
        }
        i = i + 1;
    }
    assert(s@.subrange(start as int, n as int) =~= d);
    if fits {
        Some(acc)
    } else {
        None
    }
}

/// Reads `s` as a signed decimal number the way `str::parse::<i64>` does.
pub fn parse_i64(s: &[u8]) -> (r: Option<i64>)
    ensures
        r == parse_i64_spec(s@),
{
    let n = s.len();
    let neg = n > 0 && s[0] == 45;
    let start: usize = if n > 0 && (s[0] == 43 || s[0] == 45) {
        1
    } else {
        0
    };
    let ghost d = if s@.len() > 0 && (s@[0] == 43 || s@[0] == 45) {
        s@.drop_first()
    } else {
        s@
    };
    assert(d =~= s@.skip(start as int));
    if start >= n {
        return None;
    }
    let limit: u64 = if neg {
        0x8000_0000_0000_0000u64
    } else {
        0x7fff_ffff_ffff_ffffu64
    };
    let mut acc: u64 = 0;
    let mut i = start;
    let mut fits = true;
    while i < n
        invariant
            start <= i <= n,
            n == s@.len(),
            d =~= s@.skip(start as int),
            d == (if s@.len() > 0 && (s@[0] == 43 || s@[0] == 45) {
                s@.drop_first()
            } else {
                s@
            }),
            neg == (s@.len() > 0 && s@[0] == 45),
            limit == (if neg { 0x8000_0000_0000_0000u64 } else { 0x7fff_ffff_ffff_ffffu64 }),
            all_digits(s@.subrange(start as int, i as int)),
            limit >= 9,
            fits ==> acc == digits_value(s@.subrange(start as int, i as int)) && acc <= limit,
            !fits ==> digits_value(s@.subrange(start as int, i as int)) > limit,
        decreases n - i,
    {
        let b = s[i];
        if !(48 <= b && b <= 57) {
            assert(!all_digits(d)) by {
                assert(d[i - start] == b);
                assert(!is_digit(d[i - start]));
            }
            return None;
        }
        proof {
            lemma_digits_value_push(s@.subrange(start as int, i as int), b);
            assert(s@.subrange(start as int, i + 1) =~= s@.subrange(start as int, i as int).push(b));
        }
        if fits {
            if acc > (limit - (b - 48) as u64) / 10 {
                fits = false;
                assert(acc * 10 + (b - 48) > limit) by (nonlinear_arith)
                    requires
                        acc > (limit - (b - 48) as u64) / 10,
                        b >= 48,
                        b <= 57,
                        limit >= 9,
                ;
            } else {
                assert(acc * 10 + (b - 48) <= limit) by (nonlinear_arith)
                    requires
                        acc <= (limit - (b - 48) as u64) / 10,
                        b >= 48,
                        b <= 57,
                        limit >= 9,
                ;
                acc = acc * 10 + (b - 48) as u64;
            }
        } else {
            assert(digits_value(s@.subrange(start as int, i as int)) * 10 + (b - 48) as nat
                > limit) by (nonlinear_arith)
                requires
                    digits_value(s@.subrange(start as int, i as int)) > limit,
            ;
        }
        i = i + 1;
    }
    assert(s@.subrange(start as int, n as int) =~= d);
    if !fits {
        None
    } else if neg {
        if acc == 0x8000_0000_0000_0000u64 {
            Some(i64::MIN)
        } else {
            Some(-(acc as i64))
        }
    } else {
        Some(acc as i64)
    }
}

/// The characters whose codes are the given ASCII bytes.
pub open spec fn ascii_text(b: Seq<u8>) -> Seq<char> {
    b.map_values(|x: u8| x as char)
}

/// All bytes are below 128.
pub open spec fn is_ascii_bytes(b: Seq<u8>) -> bool {
    forall|i: int| 0 <= i < b.len() ==> #[trigger] b[i] < 128
}

/// ASCII bytes are valid UTF-8 and decode to the characters with the same codes.
pub proof fn lemma_ascii_utf8(b: Seq<u8>)
    requires
        is_ascii_bytes(b),
    ensures
        encode_utf8(ascii_text(b)) == b,
        valid_utf8(b),
        decode_utf8(b) == ascii_text(b),
{
    let c = ascii_text(b);
    assert(is_ascii_chars(c)) by {
        assert forall|i| 0 <= i < c.len() implies '\0' <= #[trigger] c[i] <= '\u{7f}' by {
            assert(c[i] == b[i] as char);
        }
    }
    is_ascii_chars_encode_utf8(c);
    assert forall|i| 0 <= i < b.len() implies encode_utf8(c)[i] == b[i] by {
        assert(c[i] as u8 == b[i]) by {
            assert(c[i] == b[i] as char);
        }
    }
    assert(encode_utf8(c) =~= b);
    encode_utf8_valid_utf8(c);
    encode_utf8_decode_utf8(c);
}

/// Builds a `String` from bytes when they are UTF-8 (`String::from_utf8`): it succeeds
/// exactly on valid UTF-8, and the string's UTF-8 encoding is then the bytes given.
#[verifier::external_body]
pub(crate) fn string_from_utf8(v: Vec<u8>) -> (r: Option<String>)
    ensures
        r is Some <==> valid_utf8(v@),
        r matches Some(s) ==> encode_utf8(s@) == v@,
{
    String::from_utf8(v).ok()
}

/// Turns UTF-8 bytes into the `String` they encode.
pub fn utf8_to_string(v: Vec<u8>) -> (r: Option<String>)
    ensures
        r is Some <==> valid_utf8(v@),
        r matches Some(s) ==> s@ == decode_utf8(v@),
{
    let ghost bytes = v@;
    let r = string_from_utf8(v);
    proof {
        if r is Some {
            encode_utf8_decode_utf8(r->0@);
        }
    }
    r
}

/// Turns ASCII bytes into the `String` with the same characters.
pub fn ascii_to_string(v: Vec<u8>) -> (s: String)
    requires
        is_ascii_bytes(v@),
    ensures
        s@ == ascii_text(v@),
{
    proof {
        lemma_ascii_utf8(v@);
    }
    let r = utf8_to_string(v);
    match r {
        Some(s) => s,
        None => {
            proof {
                assert(false);
            }
            String::new()
        },
    }
}

/// What `{:?}` prints for a byte slice: the decimal values, comma separated, in brackets.
pub open spec fn list_debug(s: Seq<u8>) -> Seq<u8> {
    seq![91u8] + list_items(s) + seq![93u8]
}

/// The comma separated decimal values of the bytes.
pub open spec fn list_items(s: Seq<u8>) -> Seq<u8>
    decreases s.len(),
{
    if s.len() == 0 {
        seq![]
    } else if s.len() == 1 {
        dec(s[0] as nat)
    } else {
        list_items(s.drop_last()) + seq![44u8, 32u8] + dec(s.last() as nat)
    }
}

pub proof fn lemma_dec_ascii(n: nat)
    ensures
        is_ascii_bytes(dec(n)),
{
    lemma_dec(n);
}

pub proof fn lemma_list_items_ascii(s: Seq<u8>)
    ensures
        is_ascii_bytes(list_items(s)),
    decreases s.len(),
{
    if s.len() == 1 {
        lemma_dec_ascii(s[0] as nat);
    } else if s.len() > 1 {
        lemma_list_items_ascii(s.drop_last());
        lemma_dec_ascii(s.last() as nat);
    }
}

/// Renders a byte slice the way `{:?}` does, as text.
pub fn list_debug_string(s: &[u8]) -> (r: String)
    ensures
        r@ == ascii_text(list_debug(s@)),
{
    let mut out: Vec<u8> = Vec::new();
    out.push(91);
    let mut i: usize = 0;
    while i < s.len()
        invariant
            i <= s@.len(),
            out@ == seq![91u8] + list_items(s@.take(i as int)),
        decreases s@.len() - i,
    {
        if i > 0 {
            out.push(44);
            out.push(32);
        }
        push_decimal(&mut out, s[i] as u64);
        proof {
            let t = s@.take(i + 1);
            assert(t.drop_last() =~= s@.take(i as int));
            if i == 0 {
                assert(list_items(s@.take(0)) =~= Seq::<u8>::empty());
            }
        }
        i = i + 1;
        assert(out@ =~= seq![91u8] + list_items(s@.take(i as int)));
    }
    out.push(93);
    assert(s@.take(s@.len() as int) =~= s@);
    assert(out@ =~= list_debug(s@));
    proof {
        lemma_list_items_ascii(s@);
    }
    ascii_to_string(out)
}

/// The ASCII lowercase of a byte.
pub open spec fn lower(b: u8) -> u8 {
    if 65 <= b <= 90 {
        (b + 32) as u8
    } else {
        b
    }
}

/// The first index where `b` occurs at or after `i`.
pub open spec fn find_from(s: Seq<u8>, b: u8, i: nat) -> Option<nat>
    decreases s.len() - i,
{
    if i >= s.len() {
        None
    } else if s[i as int] == b {
        Some(i)
    } else {
        find_from(s, b, i + 1)
    }
}

/// `s` read case-insensitively is the (lowercase) word `w`.
pub open spec fn word_is(s: Seq<u8>, w: Seq<u8>) -> bool {
    s.len() == w.len() && forall|i: int| 0 <= i < s.len() ==> lower(#[trigger] s[i]) == w[i]
}

/// `Digit* '.' Digit*` with at least one digit, or `Digit+`.
pub open spec fn is_mantissa(m: Seq<u8>) -> bool {
    match find_from(m, 46, 0) {
        None => m.len() >= 1 && all_digits(m),
        Some(j) => m.len() >= 2 && all_digits(m.take(j as int)) && all_digits(m.skip(j + 1int)),
    }
}

/// `Sign? Digit+`
pub open spec fn is_exponent(x: Seq<u8>) -> bool {
    let d = if x.len() > 0 && (x[0] == 43 || x[0] == 45) {
        x.drop_first()
    } else {
        x
    };
    d.len() >= 1 && all_digits(d)
}

/// `Mantissa Exp?` where `Exp ::= 'e' Sign? Digit+` (case-insensitive).
pub open spec fn is_number(s: Seq<u8>) -> bool {
    match find_from(s.map_values(|b: u8| lower(b)), 101, 0) {
        None => is_mantissa(s),
        Some(i) => is_mantissa(s.take(i as int)) && is_exponent(s.skip(i + 1int)),
    }
}

/// What `f64::from_str` accepts, as its documentation gives the grammar:
/// `Sign? ( 'inf' | 'infinity' | 'nan' | Number )`, letters in any case.
pub open spec fn is_float_text(s: Seq<u8>) -> bool {
    let body = if s.len() > 0 && (s[0] == 43 || s[0] == 45) {
        s.drop_first()
    } else {
        s
    };
    word_is(body, seq![105u8, 110u8, 102u8]) || word_is(
        body,
        seq![105u8, 110u8, 102u8, 105u8, 110u8, 105u8, 116u8, 121u8],
    ) || word_is(body, seq![110u8, 97u8, 110u8]) || is_number(body)
}

pub fn lower_byte(b: u8) -> (r: u8)
    ensures
        r == lower(b),
{
    if 65 <= b && b <= 90 {
        b + 32
    } else {
        b
    }
}

/// Finds the first occurrence of `b` (or of a byte whose lowercase is `b`) from `i` on.
fn find_byte(s: &[u8], b: u8, fold: bool, i: usize) -> (r: Option<usize>)
    requires
        i <= s@.len(),
    ensures
        match r {
            Some(j) => (if fold {
                find_from(s@.map_values(|x: u8| lower(x)), b, i as nat)
            } else {
                find_from(s@, b, i as nat)
            }) == Some(j as nat) && j < s@.len(),
            None => (if fold {
                find_from(s@.map_values(|x: u8| lower(x)), b, i as nat)
            } else {
                find_from(s@, b, i as nat)
            }) is None,
        },
    decreases s@.len() - i,
{
    if i >= s.len() {
        return None;
    }
    let c = if fold {
        lower_byte(s[i])
    } else {
        s[i]
    };
    if c == b {
        Some(i)
    } else {
        find_byte(s, b, fold, i + 1)
    }
}

/// Whether every byte of the slice is a digit.
fn digits_only(s: &[u8]) -> (r: bool)
    ensures
        r == all_digits(s@),
{
    let mut i: usize = 0;
    while i < s.len()
        invariant
            i <= s@.len(),
            forall|j: int| 0 <= j < i ==> is_digit(#[trigger] s@[j]),
        decreases s@.len() - i,
    {
        if !(48 <= s[i] && s[i] <= 57) {
            assert(!is_digit(s@[i as int]));
            return false;
        }
        i = i + 1;
    }
    true
}

/// Whether the slice spells the lowercase word `w`, ignoring case.
fn spells(s: &[u8], w: &[u8]) -> (r: bool)
    ensures
        r == word_is(s@, w@),
{
    if s.len() != w.len() {
        return false;
    }
    let mut i: usize = 0;
    while i < s.len()
        invariant
            i <= s@.len(),
            s@.len() == w@.len(),
            forall|j: int| 0 <= j < i ==> lower(#[trigger] s@[j]) == w@[j],
        decreases s@.len() - i,
    {
        if lower_byte(s[i]) != w[i] {
            return false;
        }
        i = i + 1;
    }
    true
}

fn mantissa_ok(m: &[u8]) -> (r: bool)
    ensures
        r == is_mantissa(m@),
{
    match find_byte(m, 46, false, 0) {
        None => m.len() >= 1 && digits_only(m),
        Some(j) => {
            let mlen = m.len();
            let left = slice_subrange(m, 0, j);
            let right = slice_subrange(m, j + 1, m.len());
            assert(left@ =~= m@.take(j as int));
            assert(right@ =~= m@.skip(j + 1));
            m.len() >= 2 && digits_only(left) && digits_only(right)
        },
    }
}

fn exponent_ok(x: &[u8]) -> (r: bool)
    ensures
        r == is_exponent(x@),
{
    let d = if x.len() > 0 && (x[0] == 43 || x[0] == 45) {
        let t = slice_subrange(x, 1, x.len());
        assert(t@ =~= x@.drop_first());
        t
    } else {
        x
    };
    d.len() >= 1 && digits_only(d)
}

/// Checks the syntax that `f64::from_str` accepts.
pub fn is_float(s: &[u8]) -> (r: bool)
    ensures
        r == is_float_text(s@),
{
    let body = if s.len() > 0 && (s[0] == 43 || s[0] == 45) {
        let t = slice_subrange(s, 1, s.len());
        assert(t@ =~= s@.drop_first());
        t
    } else {
        s
    };
    let inf: [u8; 3] = [105, 110, 102];
    let infinity: [u8; 8] = [105, 110, 102, 105, 110, 105, 116, 121];
    let nan: [u8; 3] = [110, 97, 110];
    assert(inf@ =~= seq![105u8, 110u8, 102u8]);
    assert(infinity@ =~= seq![105u8, 110u8, 102u8, 105u8, 110u8, 105u8, 116u8, 121u8]);
    assert(nan@ =~= seq![110u8, 97u8, 110u8]);
    if spells(body, &inf) || spells(body, &infinity) || spells(body, &nan) {
        return true;
    }
    match find_byte(body, 101, true, 0) {
        None => mantissa_ok(body),
        Some(i) => {
            let m = slice_subrange(body, 0, i);
            let x = slice_subrange(body, i + 1, body.len());
            assert(m@ =~= body@.take(i as int));
            assert(x@ =~= body@.skip(i + 1));
            mantissa_ok(m) && exponent_ok(x)
        },
    }
}

/// A search finds nothing where the byte does not occur from `i` on.
pub proof fn lemma_find_none(s: Seq<u8>, b: u8, i: nat)
    requires
        forall|j: int| i <= j < s.len() ==> #[trigger] s[j] != b,
    ensures
        find_from(s, b, i) is None,
    decreases s.len() - i,
{
    if i < s.len() {
        lemma_find_none(s, b, i + 1);
    }
}

/// A search finds the first occurrence of the byte from `i` on.
pub proof fn lemma_find_first(s: Seq<u8>, b: u8, i: nat, k: nat)
    requires
        i <= k < s.len(),
        s[k as int] == b,
        forall|j: int| i <= j < k ==> #[trigger] s[j] != b,
    ensures
        find_from(s, b, i) == Some(k),
    decreases k - i,
{
    if i < k {
        lemma_find_first(s, b, i + 1, k);
    }
}

/// An optional sign: nothing, `+` or `-`.
pub open spec fn is_sign(s: Seq<u8>) -> bool {
    s.len() == 0 || s == seq![43u8] || s == seq![45u8]
}

/// Digits, then (when `point`) a `.` and more digits.
pub open spec fn mantissa_text(whole: Seq<u8>, point: bool, frac: Seq<u8>) -> Seq<u8> {
    if point {
        whole + seq![46u8] + frac
    } else {
        whole
    }
}

/// An exponent part: `e` or `E`, an optional sign and digits; or nothing.
pub open spec fn exponent_text(exp: Option<(u8, Seq<u8>, Seq<u8>)>) -> Seq<u8> {
    match exp {
        Some((e, sign, digits)) => seq![e] + sign + digits,
        None => Seq::empty(),
    }
}

/// The decimal forms of a double are all accepted: an optional sign, digits with
/// or without a `.` and a fraction (at least one digit in all), and an optional
/// exponent (`e` or `E`, an optional sign, at least one digit). In particular a
/// whole number such as `+10` or `3` is a double.
pub proof fn lemma_decimal_is_float(
    sign: Seq<u8>,
    whole: Seq<u8>,
    point: bool,
    frac: Seq<u8>,
    exp: Option<(u8, Seq<u8>, Seq<u8>)>,
)
    requires
        is_sign(sign),
        all_digits(whole),
        all_digits(frac),
        point ==> whole.len() + frac.len() >= 1,
        !point ==> whole.len() >= 1 && frac.len() == 0,
        exp matches Some((e, es, ed)) ==> (e == 101 || e == 69) && is_sign(es) && ed.len() >= 1
            && all_digits(ed),
    ensures
        is_float_text(sign + mantissa_text(whole, point, frac) + exponent_text(exp)),
{
    let m = mantissa_text(whole, point, frac);
    let x = exponent_text(exp);
    let s = sign + m + x;
    let body = m + x;
    assert(m.len() >= 1);
    assert(forall|j: int| 0 <= j < m.len() ==> is_digit(#[trigger] m[j]) || m[j] == 46) by {
        assert forall|j: int| 0 <= j < m.len() implies is_digit(#[trigger] m[j]) || m[j] == 46 by {
            if point && j > whole.len() {
                assert(m[j] == frac[j - whole.len() - 1]);
            } else if j < whole.len() {
                assert(m[j] == whole[j]);
            }
        }
    }
    if sign.len() == 0 {
        assert(s =~= body);
        assert(s[0] == m[0]);
    } else {
        assert(s.drop_first() =~= body);
    }
    let low = body.map_values(|b: u8| lower(b));
    if let Some((e, es, ed)) = exp {
        assert(body[m.len() as int] == e);
        assert(low[m.len() as int] == 101);
        assert forall|j: int| 0 <= j < m.len() implies #[trigger] low[j] != 101 by {
            assert(body[j] == m[j]);
        }
        lemma_find_first(low, 101, 0, m.len());
        assert(body.take(m.len() as int) =~= m);
        assert(body.skip(m.len() + 1int) =~= es + ed);
        let d = es + ed;
        if es.len() > 0 {
            assert(d.drop_first() =~= ed);
        } else {
            assert(d =~= ed);
        }
    } else {
        assert(body =~= m);
        assert forall|j: int| 0 <= j < body.len() implies #[trigger] low[j] != 101 by {
            assert(body[j] == m[j]);
        }
        lemma_find_none(low, 101, 0);
    }
    if point {
        assert(m[whole.len() as int] == 46);
        assert forall|j: int| 0 <= j < whole.len() implies #[trigger] m[j] != 46 by {
            assert(m[j] == whole[j]);
        }
        lemma_find_first(m, 46, 0, whole.len());
        assert(m.take(whole.len() as int) =~= whole);
        assert(m.skip(whole.len() + 1int) =~= frac);
    } else {
        assert forall|j: int| 0 <= j < m.len() implies #[trigger] m[j] != 46 by {
            assert(m[j] == whole[j]);
        }
        lemma_find_none(m, 46, 0);
    }
}

/// Where a search succeeds, the byte stands there.
proof fn lemma_found_at(s: Seq<u8>, b: u8, i: nat)
    ensures
        find_from(s, b, i) matches Some(j) ==> i <= j < s.len() && s[j as int] == b,
    decreases s.len() - i,
{
    if i < s.len() && s[i as int] != b {
        lemma_found_at(s, b, i + 1);
    }
}

/// The parts of a decimal double are well formed: see [`lemma_decimal_is_float`].
pub open spec fn decimal_parts(
    sign: Seq<u8>,
    whole: Seq<u8>,
    point: bool,
    frac: Seq<u8>,
    exp: Option<(u8, Seq<u8>, Seq<u8>)>,
) -> bool {
    &&& is_sign(sign)
    &&& all_digits(whole)
    &&& all_digits(frac)
    &&& (point ==> whole.len() + frac.len() >= 1)
    &&& (!point ==> whole.len() >= 1 && frac.len() == 0)
    &&& (exp matches Some((e, es, ed)) ==> (e == 101 || e == 69) && is_sign(es) && ed.len() >= 1
        && all_digits(ed))
}

/// Nothing else is a double: a text accepted as one is an optional sign followed by
/// `inf`, `infinity` or `nan` in any case, or it is made of the decimal parts that
/// [`lemma_decimal_is_float`] accepts.
pub proof fn lemma_float_text_forms(s: Seq<u8>)
    requires
        is_float_text(s),
    ensures
        (exists|sign: Seq<u8>, w: Seq<u8>|
            #![trigger is_sign(sign), sign + w]
            is_sign(sign) && s == sign + w && (word_is(w, seq![105u8, 110u8, 102u8]) || word_is(
                w,
                seq![105u8, 110u8, 102u8, 105u8, 110u8, 105u8, 116u8, 121u8],
            ) || word_is(w, seq![110u8, 97u8, 110u8]))) || (exists|
            sign: Seq<u8>,
            whole: Seq<u8>,
            point: bool,
            frac: Seq<u8>,
            exp: Option<(u8, Seq<u8>, Seq<u8>)>,
        |
            #[trigger] decimal_parts(sign, whole, point, frac, exp) && s == sign + mantissa_text(
                whole,
                point,
                frac,
            ) + exponent_text(exp)),
{
    let signed = s.len() > 0 && (s[0] == 43 || s[0] == 45);
    let sign = if signed { s.take(1) } else { Seq::<u8>::empty() };
    let body = if signed { s.drop_first() } else { s };
    assert(s =~= sign + body);
    assert(is_sign(sign)) by {
        if signed {
            assert(sign =~= seq![s[0]]);
        }
    }
    if word_is(body, seq![105u8, 110u8, 102u8]) || word_is(
        body,
        seq![105u8, 110u8, 102u8, 105u8, 110u8, 105u8, 116u8, 121u8],
    ) || word_is(body, seq![110u8, 97u8, 110u8]) {
        assert(is_sign(sign) && s == sign + body);
    } else {
        let low = body.map_values(|b: u8| lower(b));
        lemma_found_at(low, 101, 0);
        let (m, exp) = match find_from(low, 101, 0) {
            None => (body, None::<(u8, Seq<u8>, Seq<u8>)>),
            Some(i) => {
                let x = body.skip(i + 1int);
                let e = body[i as int];
                assert(lower(e) == 101);
                let xs = x.len() > 0 && (x[0] == 43 || x[0] == 45);
                let es = if xs { x.take(1) } else { Seq::<u8>::empty() };
                let ed = if xs { x.drop_first() } else { x };
                assert(x =~= es + ed);
                assert(is_sign(es)) by {
                    if xs {
                        assert(es =~= seq![x[0]]);
                    }
                }
                assert(body =~= body.take(i as int) + (seq![e] + es + ed));
                (body.take(i as int), Some((e, es, ed)))
            },
        };
        assert(body =~= m + exponent_text(exp));
        assert(is_mantissa(m));
        lemma_found_at(m, 46, 0);
        match find_from(m, 46, 0) {
            None => {
                assert(mantissa_text(m, false, Seq::<u8>::empty()) == m);
                assert(all_digits(Seq::<u8>::empty()));
                assert(decimal_parts(sign, m, false, Seq::<u8>::empty(), exp));
                assert(s =~= sign + mantissa_text(m, false, Seq::<u8>::empty()) + exponent_text(
                    exp,
                ));
            },
            Some(j) => {
                let whole = m.take(j as int);
                let frac = m.skip(j + 1int);
                assert(m =~= whole + seq![46u8] + frac);
                assert(decimal_parts(sign, whole, true, frac, exp));
                assert(s =~= sign + mantissa_text(whole, true, frac) + exponent_text(exp));
            },
        }
    }
}

} // verus!
