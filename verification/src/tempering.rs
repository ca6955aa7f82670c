//! The tempering transform that turns a raw state word into an output, and
//! its inverse.

use vstd::prelude::*;

verus! {

/// The tempering transform applied to each raw state word on output.
pub open spec fn temper_spec(x: u32) -> u32 {
    let y1 = x ^ (x >> 11u32);
    let y2 = y1 ^ ((y1 << 7u32) & 0x9d2c_5680u32);
    let y3 = y2 ^ ((y2 << 15u32) & 0xefc6_0000u32);
    y3 ^ (y3 >> 18u32)
}

/// The inverse of the tempering transform.
pub open spec fn untemper_spec(x: u32) -> u32 {
    let a1 = x ^ (x >> 18u32);
    let b1 = a1 ^ ((a1 << 15u32) & 0x2fc6_0000u32);
    let b2 = b1 ^ ((b1 << 15u32) & 0xc000_0000u32);
    let c1 = b2 ^ ((b2 << 7u32) & 0x0000_1680u32);
    let c2 = c1 ^ ((c1 << 7u32) & 0x000c_4000u32);
    let c3 = c2 ^ ((c2 << 7u32) & 0x0d20_0000u32);
    let c4 = c3 ^ ((c3 << 7u32) & 0x9000_0000u32);
    let d1 = c4 ^ (c4 >> 11u32);
    d1 ^ (d1 >> 22u32)
}

/// Tempers a raw state word into an output word.
pub fn temper(x: u32) -> (r: u32)
    ensures
        r == temper_spec(x),
{
    let mut y = x;
    y ^= y >> 11u32;
    y ^= (y << 7u32) & 0x9d2c_5680u32;
    y ^= (y << 15u32) & 0xefc6_0000u32;
    y ^= y >> 18u32;
    y
}

/// Recovers the raw state word from which an output word was tempered.
pub fn untemper(x: u32) -> (r: u32)
    ensures
        r == untemper_spec(x),
{
    let mut y = x;
    y ^= y >> 18u32;
    y ^= (y << 15u32) & 0x2fc6_0000u32;
    y ^= (y << 15u32) & 0xc000_0000u32;
    y ^= (y << 7u32) & 0x0000_1680u32;
    y ^= (y << 7u32) & 0x000c_4000u32;
    y ^= (y << 7u32) & 0x0d20_0000u32;
    y ^= (y << 7u32) & 0x9000_0000u32;
    y ^= y >> 11u32;
    y ^= y >> 22u32;
    y
}

/// Untempering undoes tempering: every raw word is recovered from its output.
pub proof fn lemma_untemper_temper(x: u32)
    ensures
        untemper_spec(temper_spec(x)) == x,
{
    assert(untemper_spec(temper_spec(x)) == x) by (bit_vector);
}

/// Tempering undoes untempering: every output word is reproduced from the
/// raw word recovered from it.
pub proof fn lemma_temper_untemper(x: u32)
    ensures
        temper_spec(untemper_spec(x)) == x,
{
    assert(temper_spec(untemper_spec(x)) == x) by (bit_vector);
}

} // verus!
