//! The byte containers of the `bytes` crate, as this library uses them.
//!
//! `Bytes` holds the payload of frames and the keys and values of the store;
//! `BytesMut` holds what has been read from a connection and not yet parsed.
//! Their contents are named by `bytes_seq` and `bytes_mut_seq`; each method
//! the library calls has a wrapper that states its effect on those contents.
use bytes::{Buf, Bytes, BytesMut};
use vstd::prelude::*;
use vstd::string::StringSliceAdditionalSpecFns;

verus! {

#[verifier::external_type_specification]
#[verifier::external_body]
pub struct ExBytes(bytes::Bytes);

#[verifier::external_type_specification]
#[verifier::external_body]
pub struct ExBytesMut(bytes::BytesMut);

/// The bytes that a `Bytes` value holds.
pub uninterp spec fn bytes_seq(b: Bytes) -> Seq<u8>;

/// The bytes that a `BytesMut` value holds.
pub uninterp spec fn bytes_mut_seq(b: BytesMut) -> Seq<u8>;

/// `Bytes::copy_from_slice`: a new `Bytes` holding a copy of `data`.
#[verifier::external_body]
pub fn bytes_copy_from_slice(data: &[u8]) -> (b: Bytes)
    ensures
        bytes_seq(b) == data@,
{
    Bytes::copy_from_slice(data)
}

/// `<Bytes as Deref>::deref`: the bytes as a slice. Like every slice, it
/// spans at most `isize::MAX` bytes.
#[verifier::external_body]
pub fn bytes_as_slice(b: &Bytes) -> (s: &[u8])
    ensures
        s@ == bytes_seq(*b),
        s@.len() <= isize::MAX,
{
    b
}

/// `<Bytes as Clone>::clone`: another handle on the same bytes.
#[verifier::external_body]
pub fn bytes_clone(b: &Bytes) -> (c: Bytes)
    ensures
        bytes_seq(c) == bytes_seq(*b),
{
    b.clone()
}

/// `<Bytes as PartialEq<str>>::eq`: whether the bytes are the UTF-8 bytes of `s`.
#[verifier::external_body]
pub fn bytes_eq_str(b: &Bytes, s: &str) -> (r: bool)
    ensures
        r == (bytes_seq(*b) == s.spec_bytes()),
{
    *b == *s
}

/// A hexadecimal digit in lower case, for `d` below 16.
pub open spec fn hex_digit(d: int) -> char {
    if d < 10 {
        (48 + d) as char
    } else {
        (87 + d) as char
    }
}

/// How one byte is written inside a byte-string literal: `\n`, `\r`, `\t`,
/// `\\`, `\"` and `\0` escaped, other printable ASCII as itself, and
/// anything else as `\x` with two lower-case hexadecimal digits.
pub open spec fn byte_literal_text(b: u8) -> Seq<char> {
    if b == 10 {
        seq!['\\', 'n']
    } else if b == 13 {
        seq!['\\', 'r']
    } else if b == 9 {
        seq!['\\', 't']
    } else if b == 92 || b == 34 {
        seq!['\\', b as char]
    } else if b == 0 {
        seq!['\\', '0']
    } else if 0x20 <= b < 0x7f {
        seq![b as char]
    } else {
        seq!['\\', 'x', hex_digit(b as int / 16), hex_digit(b as int % 16)]
    }
}

/// The escaped bytes, one after another.
pub open spec fn bytes_literal_body(b: Seq<u8>) -> Seq<char>
    decreases b.len(),
{
    if b.len() == 0 {
        Seq::empty()
    } else {
        bytes_literal_body(b.drop_last()) + byte_literal_text(b.last())
    }
}

/// The text that `<Bytes as Debug>::fmt` writes for the bytes `b`: `b"`,
/// each byte as `byte_literal_text` writes it, and `"`.
pub open spec fn bytes_debug_text(b: Seq<u8>) -> Seq<char> {
    seq!['b', '"'] + bytes_literal_body(b) + seq!['"']
}

/// The value of a lower-case hexadecimal digit character.
pub open spec fn hex_value(c: char) -> int {
    if '0' <= c <= '9' {
        c as int - 48
    } else {
        c as int - 87
    }
}

/// Bytes that are printable ASCII other than `\` and `"` are written as
/// themselves between `b"` and `"`; a byte outside printable ASCII and not
/// one of `\n`, `\r`, `\t`, `\0` is written as `\x` and two lower-case
/// hexadecimal digits whose value is the byte.
pub proof fn law_byte_literal_text(b: Seq<u8>, x: u8)
    ensures
        (forall|i: int| 0 <= i < b.len() ==> 0x20 <= #[trigger] b[i] < 0x7f && b[i] != 92 && b[i] != 34)
            ==> bytes_debug_text(b) == seq!['b', '"'] + Seq::new(b.len(), |i: int| b[i] as char) + seq!['"'],
        !(0x20 <= x < 0x7f) && x != 10 && x != 13 && x != 9 && x != 0 ==> {
            let t = byte_literal_text(x);
            &&& t.len() == 4
            &&& t[0] == '\\' && t[1] == 'x'
            &&& ('0' <= t[2] <= '9' || 'a' <= t[2] <= 'f')
            &&& ('0' <= t[3] <= '9' || 'a' <= t[3] <= 'f')
            &&& 16 * hex_value(t[2]) + hex_value(t[3]) == x
        },
{
    if forall|i: int| 0 <= i < b.len() ==> 0x20 <= #[trigger] b[i] < 0x7f && b[i] != 92 && b[i] != 34 {
        lemma_plain_literal_body(b);
    }
}

/// The body of a literal of plain printable bytes is those bytes.
proof fn lemma_plain_literal_body(b: Seq<u8>)
    requires
        forall|i: int| 0 <= i < b.len() ==> 0x20 <= #[trigger] b[i] < 0x7f && b[i] != 92 && b[i] != 34,
    ensures
        bytes_literal_body(b) == Seq::new(b.len(), |i: int| b[i] as char),
    decreases b.len(),
{
    if b.len() > 0 {
        let c = b.drop_last();
        assert forall|i: int| 0 <= i < c.len() implies 0x20 <= #[trigger] c[i] < 0x7f && c[i] != 92 && c[i]
            != 34 by {
            assert(c[i] == b[i]);
        }
        lemma_plain_literal_body(c);
        assert(bytes_literal_body(b) =~= Seq::new(b.len(), |i: int| b[i] as char));
    } else {
        assert(bytes_literal_body(b) =~= Seq::new(b.len(), |i: int| b[i] as char));
    }
}

/// `format!("{:?}", b)` for a `Bytes`: the byte-string literal that the
/// `bytes` crate writes, as `bytes_debug_text` states it.
#[verifier::external_body]
pub fn bytes_debug(b: &Bytes) -> (s: String)
    ensures
        s@ == bytes_debug_text(bytes_seq(*b)),
{
    format!("{:?}", b)
}

/// `BytesMut::with_capacity`: an empty buffer.
#[verifier::external_body]
pub fn bytes_mut_with_capacity(capacity: usize) -> (b: BytesMut)
    requires
        capacity <= isize::MAX,
    ensures
        bytes_mut_seq(b) == Seq::<u8>::empty(),
{
    BytesMut::with_capacity(capacity)
}

/// `<BytesMut as Deref>::deref`: the buffered bytes as a slice.
#[verifier::external_body]
pub fn bytes_mut_as_slice(b: &BytesMut) -> (s: &[u8])
    ensures
        s@ == bytes_mut_seq(*b),
{
    b
}

/// `<BytesMut as Buf>::advance`: drops the first `n` bytes.
#[verifier::external_body]
pub fn bytes_mut_advance(b: &mut BytesMut, n: usize)
    requires
        n <= bytes_mut_seq(*old(b)).len(),
    ensures
        bytes_mut_seq(*final(b)) == bytes_mut_seq(*old(b)).skip(n as int),
{
    b.advance(n)
}

/// `BytesMut::extend_from_slice`: appends `data`.
#[verifier::external_body]
pub fn bytes_mut_extend_from_slice(b: &mut BytesMut, data: &[u8])
    requires
        bytes_mut_seq(*old(b)).len() + data@.len() <= isize::MAX,
    ensures
        bytes_mut_seq(*final(b)) == bytes_mut_seq(*old(b)) + data@,
{
    b.extend_from_slice(data)
}

} // verus!
