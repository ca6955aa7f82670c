//! Little-endian encoding of a `u32` as four bytes.

use vstd::prelude::*;

verus! {

/// The little-endian encoding of `w`: its four bytes, least significant first.
pub open spec fn le_bytes(w: u32) -> Seq<u8> {
    seq![
        (w & 0xffu32) as u8,
        ((w >> 8u32) & 0xffu32) as u8,
        ((w >> 16u32) & 0xffu32) as u8,
        ((w >> 24u32) & 0xffu32) as u8,
    ]
}

/// The `u32` whose little-endian encoding is the four bytes `b`.
pub open spec fn le_value(b: Seq<u8>) -> u32 {
    (b[0] as u32) | ((b[1] as u32) << 8u32) | ((b[2] as u32) << 16u32) | ((b[3] as u32) << 24u32)
}

/// The little-endian encoding of `x`.
pub fn u32_to_le_bytes(x: u32) -> (r: [u8; 4])
    ensures
        r@ == le_bytes(x),
{
    proof {
        assert(x & 0xffu32 < 256 && (x >> 8u32) & 0xffu32 < 256 && (x >> 16u32) & 0xffu32 < 256
            && (x >> 24u32) & 0xffu32 < 256) by (bit_vector);
    }
    let r = [
        (x & 0xffu32) as u8,
        ((x >> 8u32) & 0xffu32) as u8,
        ((x >> 16u32) & 0xffu32) as u8,
        ((x >> 24u32) & 0xffu32) as u8,
    ];
    assert(r@ =~= le_bytes(x));
    r
}

/// The `u32` decoded from its little-endian encoding `b`.
pub fn u32_from_le_bytes(b: [u8; 4]) -> (r: u32)
    ensures
        r == le_value(b@),
{
    (b[0] as u32) | ((b[1] as u32) << 8u32) | ((b[2] as u32) << 16u32) | ((b[3] as u32) << 24u32)
}

/// Decoding the little-endian encoding of `x` gives `x` back.
pub proof fn lemma_le_roundtrip(x: u32)
    ensures
        le_value(le_bytes(x)) == x,
{
    assert(((x & 0xffu32) as u8 as u32) | ((((x >> 8u32) & 0xffu32) as u8 as u32) << 8u32) | ((((
    x >> 16u32) & 0xffu32) as u8 as u32) << 16u32) | ((((x >> 24u32) & 0xffu32) as u8 as u32)
        << 24u32) == x) by (bit_vector);
}

/// The little-endian bytes of `x` are its base-256 digits, least
/// significant first.
pub proof fn lemma_le_bytes_digits(x: u32)
    ensures
        le_bytes(x).len() == 4,
        le_bytes(x)[0] == x % 256,
        le_bytes(x)[1] == (x / 256) % 256,
        le_bytes(x)[2] == (x / 65536) % 256,
        le_bytes(x)[3] == (x / 16777216) % 256,
{
    assert(x & 0xffu32 == x % 256) by (bit_vector);
    assert((x >> 8u32) & 0xffu32 == (x / 256) % 256) by (bit_vector);
    assert((x >> 16u32) & 0xffu32 == (x / 65536) % 256) by (bit_vector);
    assert((x >> 24u32) & 0xffu32 == (x / 16777216) % 256) by (bit_vector);
}

} // verus!
