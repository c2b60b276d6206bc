//! Fixed-width integers as they are laid out on disk, and byte strings.

use vstd::prelude::*;
use vstd::utf8::{decode_utf8, encode_utf8, valid_utf8};

verus! {

/// The value of two bytes, least significant first.
pub open spec fn le16(b: Seq<u8>) -> u16 {
    (b[0] + 256 * b[1]) as u16
}

/// The value of four bytes, least significant first.
pub open spec fn le32(b: Seq<u8>) -> u32 {
    (b[0] + 256 * b[1] + 65536 * b[2] + 16777216 * b[3]) as u32
}

/// The two bytes of a value, least significant first.
pub open spec fn le16_bytes(x: u16) -> Seq<u8> {
    seq![(x % 256) as u8, (x / 256) as u8]
}

/// The four bytes of a value, least significant first.
pub open spec fn le32_bytes(x: u32) -> Seq<u8> {
    seq![
        (x % 256) as u8,
        (x / 256 % 256) as u8,
        (x / 65536 % 256) as u8,
        (x / 16777216) as u8,
    ]
}

/// The value whose two bytes are those of `x` in the opposite order.
pub open spec fn swapped16(x: u16) -> u16 {
    ((x % 256) * 256 + x / 256) as u16
}

/// The value whose four bytes are those of `x` in the opposite order.
pub open spec fn swapped32(x: u32) -> u32 {
    ((x % 256) * 16777216 + (x / 256 % 256) * 65536 + (x / 65536 % 256) * 256 + x
        / 16777216) as u32
}

pub proof fn lemma_le16(x: u16)
    ensures
        le16(le16_bytes(x)) == x,
{
}

pub proof fn lemma_le32(x: u32)
    ensures
        le32(le32_bytes(x)) == x,
{
}

pub proof fn lemma_swapped16(x: u16)
    ensures
        swapped16(swapped16(x)) == x,
{
}

pub proof fn lemma_swapped32(x: u32)
    ensures
        swapped32(swapped32(x)) == x,
{
    let b0: int = x as int % 256;
    let b1: int = x as int / 256 % 256;
    let b2: int = x as int / 65536 % 256;
    let b3: int = x as int / 16777216;
    assert(x == b0 + 256 * b1 + 65536 * b2 + 16777216 * b3);
    let y: int = b0 * 16777216 + b1 * 65536 + b2 * 256 + b3;
    assert(0 <= b3 < 256);
    assert(swapped32(x) == y);
    assert(y % 256 == b3);
    assert(y / 256 == b0 * 65536 + b1 * 256 + b2);
    assert(y / 256 % 256 == b2);
    assert(y / 65536 == b0 * 256 + b1);
    assert(y / 65536 % 256 == b1);
    assert(y / 16777216 == b0);
}

/// Decodes two bytes with `zerocopy::byteorder::U16<LittleEndian>`, built by
/// `from_bytes` and read by `get`: the first byte is the least significant.
#[verifier::external_body]
fn decode_le16(b: [u8; 2]) -> (x: u16)
    ensures
        x == le16(b@),
{
    zerocopy::byteorder::little_endian::U16::from_bytes(b).get()
}

/// Decodes four bytes with `zerocopy::byteorder::U32<LittleEndian>`, built by
/// `from_bytes` and read by `get`: the first byte is the least significant.
#[verifier::external_body]
fn decode_le32(b: [u8; 4]) -> (x: u32)
    ensures
        x == le32(b@),
{
    zerocopy::byteorder::little_endian::U32::from_bytes(b).get()
}

/// Encodes a value with `zerocopy::byteorder::U16<LittleEndian>`, built by
/// `new` and taken apart by `to_bytes`: the least significant byte comes first.
#[verifier::external_body]
fn encode_le16(x: u16) -> (b: [u8; 2])
    ensures
        b@ == le16_bytes(x),
{
    zerocopy::byteorder::little_endian::U16::new(x).to_bytes()
}

/// Encodes a value with `zerocopy::byteorder::U32<LittleEndian>`, built by
/// `new` and taken apart by `to_bytes`: the least significant byte comes first.
#[verifier::external_body]
fn encode_le32(x: u32) -> (b: [u8; 4])
    ensures
        b@ == le32_bytes(x),
{
    zerocopy::byteorder::little_endian::U32::new(x).to_bytes()
}

/// Read a little-endian 16-bit value out of a buffer.
pub fn get_u16(data: &[u8], at: usize) -> (x: u16)
    requires
        at + 2 <= data@.len(),
    ensures
        x == le16(data@.subrange(at as int, at + 2)),
{
    let b: [u8; 2] = [data[at], data[at + 1]];
    assert(b@ =~= data@.subrange(at as int, at + 2));
    decode_le16(b)
}

/// Read a little-endian 32-bit value out of a buffer.
pub fn get_u32(data: &[u8], at: usize) -> (x: u32)
    requires
        at + 4 <= data@.len(),
    ensures
        x == le32(data@.subrange(at as int, at + 4)),
{
    let b: [u8; 4] = [data[at], data[at + 1], data[at + 2], data[at + 3]];
    assert(b@ =~= data@.subrange(at as int, at + 4));
    decode_le32(b)
}

/// `s` with the bytes from `at` on replaced by `b`.
pub open spec fn splice(s: Seq<u8>, at: int, b: Seq<u8>) -> Seq<u8> {
    Seq::new(s.len(), |i: int| if at <= i < at + b.len() { b[i - at] } else { s[i] })
}

/// Overwrite part of a buffer with a little-endian 16-bit value.
pub fn put_u16(data: &mut Vec<u8>, at: usize, x: u16)
    requires
        at + 2 <= old(data)@.len(),
    ensures
        final(data)@ == splice(old(data)@, at as int, le16_bytes(x)),
{
    let b: [u8; 2] = encode_le16(x);
    let len: usize = data.len();
    assert(at + 2 <= len);
    data[at] = b[0];
    data[at + 1] = b[1];
    assert(data@ =~= splice(old(data)@, at as int, le16_bytes(x)));
}

/// Overwrite part of a buffer with a little-endian 32-bit value.
pub fn put_u32(data: &mut Vec<u8>, at: usize, x: u32)
    requires
        at + 4 <= old(data)@.len(),
    ensures
        final(data)@ == splice(old(data)@, at as int, le32_bytes(x)),
{
    let b: [u8; 4] = encode_le32(x);
    let len: usize = data.len();
    assert(at + 4 <= len);
    data[at] = b[0];
    data[at + 1] = b[1];
    data[at + 2] = b[2];
    data[at + 3] = b[3];
    assert(data@ =~= splice(old(data)@, at as int, le32_bytes(x)));
}

/// Append a little-endian 16-bit value to a buffer.
pub fn push_u16(data: &mut Vec<u8>, x: u16)
    ensures
        final(data)@ == old(data)@ + le16_bytes(x),
{
    let b: [u8; 2] = encode_le16(x);
    data.push(b[0]);
    data.push(b[1]);
    assert(data@ =~= old(data)@ + le16_bytes(x));
}

/// Append a little-endian 32-bit value to a buffer.
pub fn push_u32(data: &mut Vec<u8>, x: u32)
    ensures
        final(data)@ == old(data)@ + le32_bytes(x),
{
    let b: [u8; 4] = encode_le32(x);
    data.push(b[0]);
    data.push(b[1]);
    data.push(b[2]);
    data.push(b[3]);
    assert(data@ =~= old(data)@ + le32_bytes(x));
}

/// Reverse the bytes of a 16-bit value.
pub fn swap_u16(x: u16) -> (r: u16)
    ensures
        r == swapped16(x),
{
    (x % 256) * 256 + x / 256
}

/// Reverse the bytes of a 32-bit value.
pub fn swap_u32(x: u32) -> (r: u32)
    ensures
        r == swapped32(x),
{
    (x % 256) * 16777216 + (x / 256 % 256) * 65536 + (x / 65536 % 256) * 256 + x / 16777216
}

/// Whether two byte strings are the same.
pub fn bytes_eq(a: &[u8], b: &[u8]) -> (r: bool)
    ensures
        r == (a@ == b@),
{
    if a.len() != b.len() {
        return false;
    }
    let mut i: usize = 0;
    while i < a.len()
        invariant
            i <= a@.len(),
            a@.len() == b@.len(),
            forall|j: int| 0 <= j < i ==> a@[j] == b@[j],
        decreases a@.len() - i,
    {
        if a[i] != b[i] {
            return false;
        }
        i += 1;
    }
    assert(a@ =~= b@);
    true
}

/// Whether two strings are the same.
pub fn str_eq(a: &str, b: &str) -> (r: bool)
    ensures
        r == (a@ == b@),
{
    proof {
        vstd::utf8::encode_utf8_decode_utf8(a@);
        vstd::utf8::encode_utf8_decode_utf8(b@);
    }
    bytes_eq(a.as_bytes(), b.as_bytes())
}

/// A copy of a byte slice.
pub fn to_vec(b: &[u8]) -> (v: Vec<u8>)
    ensures
        v@ == b@,
{
    let mut v: Vec<u8> = Vec::new();
    v.extend_from_slice(b);
    assert(v@ =~= b@);
    v
}

/// `n` zero bytes.
pub open spec fn zeroes(n: nat) -> Seq<u8> {
    Seq::new(n, |i: int| 0u8)
}

/// A buffer of `n` zero bytes.
pub fn zero_vec(n: usize) -> (v: Vec<u8>)
    ensures
        v@ == zeroes(n as nat),
{
    let v = vec![0u8; n];
    assert(v@ =~= zeroes(n as nat));
    v
}

/// Turns bytes into a string with `String::from_utf8`, which accepts exactly
/// the byte strings that are valid UTF-8 and keeps their contents.
#[verifier::external_body]
pub(crate) fn string_from_utf8(bytes: Vec<u8>) -> (s: Option<String>)
    ensures
        s is Some <==> valid_utf8(bytes@),
        s matches Some(t) ==> t@ == decode_utf8(bytes@),
{
    String::from_utf8(bytes).ok()
}

} // verus!
