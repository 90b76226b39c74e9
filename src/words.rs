//! Conversion between 32-bit words and their four bytes in a chosen byte order.
use vstd::prelude::*;

use byteorder::{BigEndian, ByteOrder, LittleEndian};

verus! {

/// The order in which the four bytes of a word are laid out.
#[derive(Clone, Copy, Debug, PartialEq, Eq, Structural)]
pub enum Endian {
    Big,
    Little,
}

/// The word whose big-endian bytes are the first four of `b`.
pub open spec fn be_word(b: Seq<u8>) -> u32 {
    ((b[0] as u32) << 24u32) | ((b[1] as u32) << 16u32) | ((b[2] as u32) << 8u32) | (b[3] as u32)
}

/// The word whose little-endian bytes are the first four of `b`.
pub open spec fn le_word(b: Seq<u8>) -> u32 {
    ((b[3] as u32) << 24u32) | ((b[2] as u32) << 16u32) | ((b[1] as u32) << 8u32) | (b[0] as u32)
}

/// The four bytes of `w`, most significant first.
pub open spec fn be_bytes(w: u32) -> Seq<u8> {
    seq![
        ((w >> 24u32) & 0xffu32) as u8,
        ((w >> 16u32) & 0xffu32) as u8,
        ((w >> 8u32) & 0xffu32) as u8,
        (w & 0xffu32) as u8,
    ]
}

/// The four bytes of `w`, least significant first.
pub open spec fn le_bytes(w: u32) -> Seq<u8> {
    seq![
        (w & 0xffu32) as u8,
        ((w >> 8u32) & 0xffu32) as u8,
        ((w >> 16u32) & 0xffu32) as u8,
        ((w >> 24u32) & 0xffu32) as u8,
    ]
}

/// The word held by the first four bytes of `b` in byte order `order`.
pub open spec fn word_from_bytes(order: Endian, b: Seq<u8>) -> u32 {
    match order {
        Endian::Big => be_word(b),
        Endian::Little => le_word(b),
    }
}

/// The four bytes of `w` in byte order `order`.
pub open spec fn word_to_bytes(order: Endian, w: u32) -> Seq<u8> {
    match order {
        Endian::Big => be_bytes(w),
        Endian::Little => le_bytes(w),
    }
}

/// Relies on byteorder's `BigEndian::read_u32`: the first four bytes of the
/// buffer read as a big-endian word.
#[verifier::external_body]
fn read_u32_be(buf: &[u8; 4]) -> (r: u32)
    ensures
        r == be_word(buf@),
{
    BigEndian::read_u32(buf)
}

/// Relies on byteorder's `LittleEndian::read_u32`: the first four bytes of the
/// buffer read as a little-endian word.
#[verifier::external_body]
fn read_u32_le(buf: &[u8; 4]) -> (r: u32)
    ensures
        r == le_word(buf@),
{
    LittleEndian::read_u32(buf)
}

/// Relies on byteorder's `BigEndian::write_u32`: the word's bytes, most
/// significant first, written into a four-byte buffer.
#[verifier::external_body]
fn write_u32_be(n: u32) -> (r: [u8; 4])
    ensures
        r@ == be_bytes(n),
{
    let mut buf = [0u8; 4];
    BigEndian::write_u32(&mut buf, n);
    buf
}

/// Relies on byteorder's `LittleEndian::write_u32`: the word's bytes, least
/// significant first, written into a four-byte buffer.
#[verifier::external_body]
fn write_u32_le(n: u32) -> (r: [u8; 4])
    ensures
        r@ == le_bytes(n),
{
    let mut buf = [0u8; 4];
    LittleEndian::write_u32(&mut buf, n);
    buf
}

/// Decodes the word held by four bytes in byte order `order`.
pub fn decode_word(order: Endian, bytes: &[u8; 4]) -> (r: u32)
    ensures
        r == word_from_bytes(order, bytes@),
{
    match order {
        Endian::Big => read_u32_be(bytes),
        Endian::Little => read_u32_le(bytes),
    }
}

/// Encodes a word as four bytes in byte order `order`.
pub fn encode_word(order: Endian, w: u32) -> (r: [u8; 4])
    ensures
        r@ == word_to_bytes(order, w),
{
    match order {
        Endian::Big => write_u32_be(w),
        Endian::Little => write_u32_le(w),
    }
}

/// Decoding the bytes of a word gives the word back.
pub proof fn lemma_word_bytes_word(order: Endian, w: u32)
    ensures
        word_to_bytes(order, w).len() == 4,
        word_from_bytes(order, word_to_bytes(order, w)) == w,
{
    let a = ((w >> 24u32) & 0xffu32) as u8;
    let b = ((w >> 16u32) & 0xffu32) as u8;
    let c = ((w >> 8u32) & 0xffu32) as u8;
    let d = (w & 0xffu32) as u8;
    assert(((a as u32) << 24u32) | ((b as u32) << 16u32) | ((c as u32) << 8u32) | (d as u32) == w)
        by (bit_vector)
        requires
            a == ((w >> 24u32) & 0xffu32) as u8,
            b == ((w >> 16u32) & 0xffu32) as u8,
            c == ((w >> 8u32) & 0xffu32) as u8,
            d == (w & 0xffu32) as u8,
    ;
}

/// Encoding the word held by four bytes gives the bytes back.
pub proof fn lemma_bytes_word_bytes(order: Endian, s: Seq<u8>)
    requires
        s.len() == 4,
    ensures
        word_to_bytes(order, word_from_bytes(order, s)) == s,
{
    let (a, b, c, d) = match order {
        Endian::Big => (s[0], s[1], s[2], s[3]),
        Endian::Little => (s[3], s[2], s[1], s[0]),
    };
    let w = ((a as u32) << 24u32) | ((b as u32) << 16u32) | ((c as u32) << 8u32) | (d as u32);
    assert(((w >> 24u32) & 0xffu32) as u8 == a && ((w >> 16u32) & 0xffu32) as u8 == b && ((w
        >> 8u32) & 0xffu32) as u8 == c && (w & 0xffu32) as u8 == d) by (bit_vector)
        requires
            w == ((a as u32) << 24u32) | ((b as u32) << 16u32) | ((c as u32) << 8u32) | (d as u32),
    ;
    assert(word_to_bytes(order, word_from_bytes(order, s)) =~= s);
}

} // verus!
