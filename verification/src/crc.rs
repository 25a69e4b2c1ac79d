//! CRC-32 checksums.
//!
//! The checksum is the reflected CRC-32 of IEEE 802.3: the register starts
//! with every bit set, each input byte is mixed into the low end of the
//! register and shifted out bit by bit under the generator polynomial, and the
//! result is the complement of the final register.
//!
//! The checksum is specified bit by bit ([`checksum`]). The executable code
//! works a byte at a time through a table of 256 entries and is proved to
//! compute the same value.

use vstd::prelude::*;

verus! {

/// The generator polynomial of CRC-32, bits reversed.
pub const POLYNOMIAL: u32 = 0xEDB8_8320;

/// The register before the first byte, and the mask of the final complement.
pub const ALL_ONES: u32 = 0xFFFF_FFFF;

/// Moves the shift register on by one bit: the lowest bit leaves, and if it
/// was set the polynomial is added.
pub open spec fn shift_bit(r: u32) -> u32 {
    if r & 1 == 1 {
        (r >> 1) ^ POLYNOMIAL
    } else {
        r >> 1
    }
}

/// Moves the shift register on by eight bits.
pub open spec fn shift_byte(r: u32) -> u32 {
    shift_bit(shift_bit(shift_bit(shift_bit(shift_bit(shift_bit(shift_bit(shift_bit(r))))))))
}

/// The register after one more byte of input.
pub open spec fn feed(r: u32, byte: u8) -> u32 {
    shift_byte(r ^ (byte as u32))
}

/// The register after the bytes of `bytes`, in order, for a register that
/// held `start` before them.
pub open spec fn register_after(start: u32, bytes: Seq<u8>) -> u32
    decreases bytes.len(),
{
    if bytes.len() == 0 {
        start
    } else {
        feed(register_after(start, bytes.drop_last()), bytes.last())
    }
}

/// The CRC-32 of a byte sequence.
pub open spec fn checksum(bytes: Seq<u8>) -> u32 {
    register_after(ALL_ONES, bytes) ^ ALL_ONES
}

/// Shifting by a byte is the sum of what the low byte contributes, which is
/// a table entry, and the upper three bytes moved down.
proof fn lemma_shift_byte_splits(r: u32)
    ensures
        shift_byte(r) == shift_byte(r & 0xff) ^ (r >> 8),
        r & 0xff < 256,
{
    assert(shift_byte(r) == shift_byte(r & 0xff) ^ (r >> 8)) by (bit_vector);
    assert(r & 0xff < 256) by (bit_vector);
}

/// A byte mixed into the register leaves the upper three bytes alone.
proof fn lemma_feed_by_table(r: u32, byte: u8)
    ensures
        feed(r, byte) == shift_byte((r ^ (byte as u32)) & 0xff) ^ (r >> 8),
        (r ^ (byte as u32)) & 0xff < 256,
{
    let mixed = r ^ (byte as u32);
    lemma_shift_byte_splits(mixed);
    assert((r ^ (byte as u32)) >> 8 == r >> 8) by (bit_vector);
}

/// One shift loses nothing: the bit that leaves can be read off the top
/// bit of the result, which only the polynomial sets.
proof fn lemma_shift_bit_injective(a: u32, b: u32)
    requires
        shift_bit(a) == shift_bit(b),
    ensures
        a == b,
{
    assert(shift_bit(a) == shift_bit(b) ==> a == b) by (bit_vector);
}

/// Eight shifts lose nothing.
proof fn lemma_shift_byte_injective(a: u32, b: u32)
    requires
        shift_byte(a) == shift_byte(b),
    ensures
        a == b,
{
    let a1 = shift_bit(a);
    let a2 = shift_bit(a1);
    let a3 = shift_bit(a2);
    let a4 = shift_bit(a3);
    let a5 = shift_bit(a4);
    let a6 = shift_bit(a5);
    let a7 = shift_bit(a6);
    let b1 = shift_bit(b);
    let b2 = shift_bit(b1);
    let b3 = shift_bit(b2);
    let b4 = shift_bit(b3);
    let b5 = shift_bit(b4);
    let b6 = shift_bit(b5);
    let b7 = shift_bit(b6);
    lemma_shift_bit_injective(a7, b7);
    lemma_shift_bit_injective(a6, b6);
    lemma_shift_bit_injective(a5, b5);
    lemma_shift_bit_injective(a4, b4);
    lemma_shift_bit_injective(a3, b3);
    lemma_shift_bit_injective(a2, b2);
    lemma_shift_bit_injective(a1, b1);
    lemma_shift_bit_injective(a, b);
}

/// Two registers that differ still differ after any one input byte, and so do
/// the results of feeding two different bytes to one register.
pub proof fn lemma_feed_injective(r1: u32, b1: u8, r2: u32, b2: u8)
    requires
        feed(r1, b1) == feed(r2, b2),
    ensures
        r1 == r2 ==> b1 == b2,
        b1 == b2 ==> r1 == r2,
{
    lemma_shift_byte_injective(r1 ^ (b1 as u32), r2 ^ (b2 as u32));
    assert(r1 ^ (b1 as u32) == r2 ^ (b2 as u32) ==> (r1 == r2 ==> b1 == b2) && (b1 == b2 ==> r1
        == r2)) by (bit_vector);
}

/// Feeding `a` and then `b` is feeding `a + b`.
pub proof fn lemma_register_after_concat(start: u32, a: Seq<u8>, b: Seq<u8>)
    ensures
        register_after(start, a + b) == register_after(register_after(start, a), b),
    decreases b.len(),
{
    if b.len() == 0 {
        assert(a + b =~= a);
    } else {
        assert((a + b).drop_last() =~= a + b.drop_last());
        assert((a + b).last() == b.last());
        lemma_register_after_concat(start, a, b.drop_last());
    }
}

/// Two registers that differ still differ after the same input.
pub proof fn lemma_register_after_injective(r1: u32, r2: u32, bytes: Seq<u8>)
    requires
        r1 != r2,
    ensures
        register_after(r1, bytes) != register_after(r2, bytes),
    decreases bytes.len(),
{
    if bytes.len() > 0 {
        lemma_register_after_injective(r1, r2, bytes.drop_last());
        let left = register_after(r1, bytes.drop_last());
        let right = register_after(r2, bytes.drop_last());
        if feed(left, bytes.last()) == feed(right, bytes.last()) {
            lemma_feed_injective(left, bytes.last(), right, bytes.last());
        }
    }
}

/// The checksum detects every change that is confined to one byte: two
/// inputs of one length that differ at exactly one position have different
/// checksums. A single flipped bit is such a change.
pub proof fn lemma_checksum_detects_change_in_one_byte(a: Seq<u8>, b: Seq<u8>, at: int)
    requires
        a.len() == b.len(),
        0 <= at < a.len(),
        a[at] != b[at],
        forall|i: int| 0 <= i < a.len() && i != at ==> a[i] == b[i],
    ensures
        checksum(a) != checksum(b),
{
    let head = a.take(at);
    let tail = a.skip(at + 1);
    assert(b.take(at) =~= head);
    assert(b.skip(at + 1) =~= tail);
    assert(a =~= (head + seq![a[at]]) + tail);
    assert(b =~= (head + seq![b[at]]) + tail);
    let before = register_after(ALL_ONES, head);
    let ra = register_after(ALL_ONES, head + seq![a[at]]);
    let rb = register_after(ALL_ONES, head + seq![b[at]]);
    assert(ra == feed(before, a[at])) by {
        assert((head + seq![a[at]]).drop_last() =~= head);
    }
    assert(rb == feed(before, b[at])) by {
        assert((head + seq![b[at]]).drop_last() =~= head);
    }
    if ra == rb {
        lemma_feed_injective(before, a[at], before, b[at]);
    }
    lemma_register_after_concat(ALL_ONES, head + seq![a[at]], tail);
    lemma_register_after_concat(ALL_ONES, head + seq![b[at]], tail);
    lemma_register_after_injective(ra, rb, tail);
    let fa = register_after(ALL_ONES, a);
    let fb = register_after(ALL_ONES, b);
    assert(fa != fb);
    assert(fa ^ ALL_ONES == fb ^ ALL_ONES ==> fa == fb) by (bit_vector);
}

/// The table of the byte-wise algorithm: entry `i` is the register that the
/// byte `i` alone leaves after eight shifts.
pub open spec fn table() -> Seq<u32> {
    Seq::new(256, |i: int| shift_byte(i as u32))
}

/// A checksum engine: it holds the table, so that one table serves many
/// checksums.
pub struct Crc32 {
    table: [u32; 256],
}

impl View for Crc32 {
    type V = Seq<u32>;

    closed spec fn view(&self) -> Seq<u32> {
        self.table@
    }
}

impl Crc32 {
    /// Every engine holds the table, entry for entry.
    #[verifier::type_invariant]
    pub open spec fn holds_table(&self) -> bool {
        self@ == table()
    }

    /// Builds the table.
    pub fn new() -> (engine: Crc32)
        ensures
            engine@ == table(),
    {
        let mut table: [u32; 256] = [0u32; 256];
        let mut i: usize = 0;
        while i < 256
            invariant
                i <= 256,
                forall|j: int| 0 <= j < i ==> #[trigger] table@[j] == shift_byte(j as u32),
            decreases 256 - i,
        {
            let r0: u32 = i as u32;
            let r1: u32 = Self::shift(r0);
            let r2: u32 = Self::shift(r1);
            let r3: u32 = Self::shift(r2);
            let r4: u32 = Self::shift(r3);
            let r5: u32 = Self::shift(r4);
            let r6: u32 = Self::shift(r5);
            let r7: u32 = Self::shift(r6);
            table[i] = Self::shift(r7);
            i += 1;
        }
        assert(table@ =~= self::table());
        Crc32 { table }
    }

    fn shift(r: u32) -> (next: u32)
        ensures
            next == shift_bit(r),
    {
        if r & 1 == 1 {
            (r >> 1) ^ POLYNOMIAL
        } else {
            r >> 1
        }
    }

    /// Feeds `bytes` to a register that holds `start`.
    pub fn update(&self, start: u32, bytes: &[u8]) -> (r: u32)
        ensures
            r == register_after(start, bytes@),
    {
        proof {
            use_type_invariant(self);
        }
        let mut r: u32 = start;
        let mut i: usize = 0;
        while i < bytes.len()
            invariant
                i <= bytes.len(),
                r == register_after(start, bytes@.take(i as int)),
                self@ == table(),
            decreases bytes.len() - i,
        {
            let byte: u8 = bytes[i];
            let low: u32 = (r ^ (byte as u32)) & 0xff;
            proof {
                lemma_feed_by_table(r, byte);
                assert(bytes@.take(i + 1).drop_last() =~= bytes@.take(i as int));
            }
            assert(self@[low as int] == shift_byte(low));
            r = self.table[low as usize] ^ (r >> 8);
            i += 1;
        }
        proof {
            assert(bytes@.take(i as int) =~= bytes@);
        }
        r
    }

    /// The CRC-32 of `bytes`.
    pub fn checksum(&self, bytes: &[u8]) -> (crc: u32)
        ensures
            crc == checksum(bytes@),
    {
        self.update(ALL_ONES, bytes) ^ ALL_ONES
    }
}

/// The CRC-32 of `bytes`.
pub fn crc32(bytes: &[u8]) -> (crc: u32)
    ensures
        crc == checksum(bytes@),
{
    Crc32::new().checksum(bytes)
}

} // verus!
