//! LSB-first bit vectors as used by the XVC `shift:` command.

use vstd::prelude::*;

verus! {

/// Bit `i` of the LSB-first bit array `bytes` (bit `i` lives in byte `i / 8`,
/// at position `i % 8`).
pub open spec fn bit_of(bytes: Seq<u8>, i: int) -> bool {
    (bytes[i / 8] >> ((i % 8) as u8)) & 1u8 == 1u8
}

/// Number of bytes that hold `bits` bits.
pub open spec fn bytes_for_bits(bits: int) -> int {
    (bits + 7) / 8
}

/// `bytes` holds exactly the bit sequence `bits`, and zero in every bit past it.
pub open spec fn holds_bits(bytes: Seq<u8>, bits: Seq<bool>) -> bool {
    forall|j: int| 0 <= j < 8 * bytes.len() ==> #[trigger] bit_of(bytes, j) == (j < bits.len() && bits[j])
}

pub proof fn lemma_bit_or(x: u8, b: u8, c: u8)
    requires
        b < 8,
        c < 8,
    ensures
        ((x | (1u8 << b)) >> c) & 1u8 == 1u8 <==> (((x >> c) & 1u8 == 1u8) || c == b),
{
    assert(((x | (1u8 << b)) >> c) & 1u8 == 1u8 <==> (((x >> c) & 1u8 == 1u8) || c == b))
        by (bit_vector)
        requires
            b < 8,
            c < 8,
    ;
}

/// Reads bit `i` of `bytes` as 0 or 1.
pub fn bit_at(bytes: &[u8], i: u32) -> (b: u8)
    requires
        (i as int) / 8 < bytes@.len(),
    ensures
        b <= 1,
        (b == 1) == bit_of(bytes@, i as int),
{
    let byte = bytes[(i / 8) as usize];
    let shift = (i % 8) as u8;
    assert(((byte >> shift) & 1u8) <= 1u8) by (bit_vector);
    (byte >> shift) & 1u8
}

/// Sets bit `i` of `bytes` when `v` holds; leaves every other bit as it was.
pub fn or_bit(bytes: &mut [u8], i: u32, v: bool)
    requires
        (i as int) / 8 < old(bytes)@.len(),
    ensures
        final(bytes)@.len() == old(bytes)@.len(),
        forall|j: int|
            0 <= j < 8 * old(bytes)@.len() ==> #[trigger] bit_of(final(bytes)@, j) == (bit_of(
                old(bytes)@,
                j,
            ) || (v && j == i)),
{
    if v {
        let idx = (i / 8) as usize;
        let shift = (i % 8) as u8;
        let old_byte = bytes[idx];
        bytes[idx] = old_byte | (1u8 << shift);
        assert forall|j: int| 0 <= j < 8 * old(bytes)@.len() implies #[trigger] bit_of(bytes@, j) == (
        bit_of(old(bytes)@, j) || j == i) by {
            if j / 8 == idx as int {
                lemma_bit_or(old_byte, shift, (j % 8) as u8);
            }
        }
    }
}

} // verus!
