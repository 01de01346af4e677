//! Little-endian 32-bit fields of the XVC wire format, read and written with `byteorder`.

use byteorder::{ByteOrder, LittleEndian};
use vstd::prelude::*;

verus! {

/// The value of the little-endian `u32` held in the first four bytes of `b`.
pub open spec fn le_u32(b: Seq<u8>) -> u32 {
    (b[0] as u32) | ((b[1] as u32) << 8u32) | ((b[2] as u32) << 16u32) | ((b[3] as u32) << 24u32)
}

/// The four little-endian bytes of `n`.
pub open spec fn le_bytes(n: u32) -> Seq<u8> {
    seq![(n & 0xffu32) as u8, ((n >> 8u32) & 0xffu32) as u8, ((n >> 16u32) & 0xffu32) as u8, (n >> 24u32) as u8]
}

/// Decoding the encoding of `n` gives `n` back.
pub proof fn lemma_le_roundtrip(n: u32)
    ensures
        le_bytes(n).len() == 4,
        le_u32(le_bytes(n)) == n,
{
    let b = le_bytes(n);
    let b0 = b[0];
    let b1 = b[1];
    let b2 = b[2];
    let b3 = b[3];
    assert(((b0 as u32) | ((b1 as u32) << 8u32) | ((b2 as u32) << 16u32) | ((b3 as u32) << 24u32))
        == n) by (bit_vector)
        requires
            b0 == (n & 0xffu32) as u8,
            b1 == ((n >> 8u32) & 0xffu32) as u8,
            b2 == ((n >> 16u32) & 0xffu32) as u8,
            b3 == (n >> 24u32) as u8,
    ;
}

/// Encoding the value of four bytes gives the same four bytes back.
pub proof fn lemma_le_bytes_of_value(b: Seq<u8>)
    requires
        b.len() == 4,
    ensures
        le_bytes(le_u32(b)) == b,
{
    let n = le_u32(b);
    let b0 = b[0];
    let b1 = b[1];
    let b2 = b[2];
    let b3 = b[3];
    assert((n & 0xffu32) as u8 == b0 && ((n >> 8u32) & 0xffu32) as u8 == b1 && ((n >> 16u32)
        & 0xffu32) as u8 == b2 && (n >> 24u32) as u8 == b3) by (bit_vector)
        requires
            n == (b0 as u32) | ((b1 as u32) << 8u32) | ((b2 as u32) << 16u32) | ((b3 as u32)
                << 24u32),
    ;
    assert(le_bytes(n) =~= b);
}

/// Calls `byteorder`'s `LittleEndian::read_u32`, which decodes the first four
/// bytes of `buf` as a little-endian `u32` and panics on a shorter buffer.
#[verifier::external_body]
pub(crate) fn read_u32_le(buf: &[u8]) -> (n: u32)
    requires
        buf@.len() >= 4,
    ensures
        n == le_u32(buf@),
{
    LittleEndian::read_u32(buf)
}

/// Calls `byteorder`'s `LittleEndian::write_u32`, which stores the little-endian
/// bytes of `n` in the first four bytes of `buf` and panics on a shorter buffer.
#[verifier::external_body]
pub(crate) fn write_u32_le(buf: &mut [u8], n: u32)
    requires
        old(buf)@.len() >= 4,
    ensures
        final(buf)@ == le_bytes(n) + old(buf)@.skip(4),
{
    LittleEndian::write_u32(buf, n)
}

/// The four-byte little-endian encoding of `n`, as sent back for `settck:`.
pub fn encode_u32_le(n: u32) -> (out: Vec<u8>)
    ensures
        out@ == le_bytes(n),
{
    let mut out: Vec<u8> = vec![0u8, 0u8, 0u8, 0u8];
    write_u32_le(out.as_mut_slice(), n);
    assert(out@ =~= le_bytes(n));
    out
}

} // verus!
