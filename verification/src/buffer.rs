use vstd::prelude::*;
use bytes::{Buf, BytesMut};

verus! {

#[verifier::external_type_specification]
#[verifier::external_body]
pub struct ExBytesMut(bytes::BytesMut);

/// The bytes that a `BytesMut` currently holds, front first.
pub uninterp spec fn buffer_bytes(b: BytesMut) -> Seq<u8>;

/// Borrows the readable bytes of the buffer (`<BytesMut as AsRef<[u8]>>::as_ref`):
/// the slice is exactly the buffer's contents.
#[verifier::external_body]
pub(crate) fn buffer_slice(b: &BytesMut) -> (s: &[u8])
    ensures
        s@ == buffer_bytes(*b),
{
    b.as_ref()
}

/// Drops the first `n` bytes of the buffer (`<BytesMut as Buf>::advance`), which
/// panics when `n` exceeds the length: the rest is kept in order.
#[verifier::external_body]
pub(crate) fn buffer_advance(b: &mut BytesMut, n: usize)
    requires
        n <= buffer_bytes(*old(b)).len(),
    ensures
        buffer_bytes(*final(b)) == buffer_bytes(*old(b)).skip(n as int),
{
    b.advance(n)
}

/// The lowercase hexadecimal digit of a value below 16.
pub open spec fn hex_digit(d: u8) -> char {
    if d < 10 {
        (48 + d) as char
    } else {
        (87 + d) as char
    }
}

/// How the `bytes` crate writes one byte inside its `{:?}` output: the escapes of a
/// Rust byte string literal, printable ASCII as itself, anything else as `\xNN`.
pub open spec fn escape_byte(b: u8) -> Seq<char> {
    if b == 10 {
        seq!['\\', 'n']
    } else if b == 13 {
        seq!['\\', 'r']
    } else if b == 9 {
        seq!['\\', 't']
    } else if b == 92 || b == 34 {
        seq!['\\', b as char]
    } else if b == 0 {
        seq!['\\', '0']
    } else if 0x20 <= b < 0x7f {
        seq![b as char]
    } else {
        seq!['\\', 'x', hex_digit(b / 16), hex_digit(b % 16)]
    }
}

/// The escaped bytes, one after the other.
pub open spec fn escaped(s: Seq<u8>) -> Seq<char>
    decreases s.len(),
{
    if s.len() == 0 {
        seq![]
    } else {
        escaped(s.drop_last()) + escape_byte(s.last())
    }
}

/// What `{:?}` prints for a `Bytes` or `BytesMut`: `b"` + the escaped bytes + `"`.
pub open spec fn bytes_debug_text(s: Seq<u8>) -> Seq<char> {
    seq!['b', '"'] + escaped(s) + seq!['"']
}

/// Formats bytes the way `{:?}` prints a `bytes::Bytes` holding them (the `Debug`
/// impl in the `bytes` crate's `fmt/debug.rs`).
#[verifier::external_body]
pub(crate) fn bytes_debug(s: &[u8]) -> (r: String)
    ensures
        r@ == bytes_debug_text(s@),
{
    format!("{:?}", bytes::Bytes::copy_from_slice(s))
}

/// Appends bytes to the buffer (`BytesMut::extend_from_slice`).
#[verifier::external_body]
pub(crate) fn buffer_extend(b: &mut BytesMut, s: &[u8])
    ensures
        buffer_bytes(*final(b)) == buffer_bytes(*old(b)) + s@,
{
    b.extend_from_slice(s)
}

} // verus!
