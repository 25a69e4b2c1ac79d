//! Big-endian 32-bit integers, as the chunk format writes lengths and
//! checksums.

use vstd::prelude::*;

verus! {

/// The number that four bytes spell, most significant byte first.
#[verifier::opaque]
pub open spec fn u32_from_be(bytes: Seq<u8>) -> u32
    recommends
        bytes.len() == 4,
{
    (bytes[0] * 0x100_0000 + bytes[1] * 0x1_0000 + bytes[2] * 0x100 + bytes[3]) as u32
}

/// The four bytes that spell `x`, most significant byte first.
#[verifier::opaque]
pub open spec fn u32_to_be(x: u32) -> Seq<u8> {
    seq![
        (x / 0x100_0000) as u8,
        (x / 0x1_0000 % 0x100) as u8,
        (x / 0x100 % 0x100) as u8,
        (x % 0x100) as u8,
    ]
}

/// Writing a number and reading it back gives the number.
pub proof fn lemma_u32_be_round_trip(x: u32)
    ensures
        u32_to_be(x).len() == 4,
        u32_from_be(u32_to_be(x)) == x,
{
    reveal(u32_from_be);
    reveal(u32_to_be);
    let b0 = (x / 0x100_0000) as u8;
    let b1 = (x / 0x1_0000 % 0x100) as u8;
    let b2 = (x / 0x100 % 0x100) as u8;
    let b3 = (x % 0x100) as u8;
    assert(b0 == x / 0x100_0000 && b1 == x / 0x1_0000 % 0x100 && b2 == x / 0x100 % 0x100 && b3 == x
        % 0x100 ==> b0 * 0x100_0000 + b1 * 0x1_0000 + b2 * 0x100 + b3 == x) by (bit_vector);
}

/// Reading four bytes and writing the number back gives the bytes.
pub proof fn lemma_be_u32_round_trip(bytes: Seq<u8>)
    requires
        bytes.len() == 4,
    ensures
        u32_to_be(u32_from_be(bytes)) == bytes,
{
    reveal(u32_from_be);
    reveal(u32_to_be);
    let b0 = bytes[0];
    let b1 = bytes[1];
    let b2 = bytes[2];
    let b3 = bytes[3];
    let x = u32_from_be(bytes);
    assert(x == b0 * 0x100_0000 + b1 * 0x1_0000 + b2 * 0x100 + b3 ==> x / 0x100_0000 == b0 && x
        / 0x1_0000 % 0x100 == b1 && x / 0x100 % 0x100 == b2 && x % 0x100 == b3) by (bit_vector);
    assert(u32_to_be(x) =~= bytes);
}

/// Reads the big-endian number at `at`.
pub fn read_u32_be(bytes: &[u8], at: usize) -> (x: u32)
    requires
        at + 4 <= bytes@.len(),
    ensures
        x == u32_from_be(bytes@.subrange(at as int, at + 4)),
{
    let b0: u8 = bytes[at];
    let b1: u8 = bytes[at + 1];
    let b2: u8 = bytes[at + 2];
    let b3: u8 = bytes[at + 3];
    proof {
        reveal(u32_from_be);
    }
    assert(((b0 as u32) << 24) | ((b1 as u32) << 16) | ((b2 as u32) << 8) | (b3 as u32) == b0
        * 0x100_0000 + b1 * 0x1_0000 + b2 * 0x100 + b3) by (bit_vector);
    ((b0 as u32) << 24) | ((b1 as u32) << 16) | ((b2 as u32) << 8) | (b3 as u32)
}

/// Appends `x` in big-endian order.
pub fn push_u32_be(out: &mut Vec<u8>, x: u32)
    ensures
        final(out)@ == old(out)@ + u32_to_be(x),
{
    assert((x >> 24) == x / 0x100_0000 && (x >> 16) & 0xff == x / 0x1_0000 % 0x100 && (x >> 8)
        & 0xff == x / 0x100 % 0x100 && x & 0xff == x % 0x100) by (bit_vector);
    out.push((x >> 24) as u8);
    out.push(((x >> 16) & 0xff) as u8);
    out.push(((x >> 8) & 0xff) as u8);
    out.push((x & 0xff) as u8);
    proof {
        reveal(u32_to_be);
    }
    assert(out@ =~= old(out)@ + u32_to_be(x));
}

} // verus!
