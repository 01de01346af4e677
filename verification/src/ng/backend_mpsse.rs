//! MPSSE as `xvcd-ng` drives it: every bit as a single-bit command (0x3B),
//! TDI in bit 7 and TMS in bit 0, the reply bytes taken as TDO as they come.

use crate::backend_mpsse::{lemma_pin_data_bits, mpsse_pin_data};
use crate::bits::{bit_at, bit_of};
use vstd::prelude::*;

verus! {

/// Clock data bits out on -ve edge, in on +ve edge.
pub const NG_MPSSE_CLOCK_BITS_INOUT: u8 = 0x3B;

/// The clock frequency in Hz for a TCK period in nanoseconds.
pub open spec fn ng_mpsse_clock(period_ns: u32) -> int {
    1_000_000_000int / (period_ns as int)
}

/// The clock frequency in Hz for a TCK period in nanoseconds.
pub fn ng_mpsse_frequency(period_ns: u32) -> (f: u32)
    requires
        period_ns > 0,
    ensures
        f == ng_mpsse_clock(period_ns),
{
    let f: u64 = 1_000_000_000u64 / (period_ns as u64);
    assert(f <= 1_000_000_000) by (nonlinear_arith)
        requires
            period_ns > 0,
            f == 1_000_000_000u64 / (period_ns as u64),
    ;
    f as u32
}

/// The commands that clock `bits` bits: three bytes per bit.
pub open spec fn ng_mpsse_commands(tms: Seq<u8>, tdi: Seq<u8>, bits: int) -> Seq<u8> {
    Seq::new(
        (3 * bits) as nat,
        |j: int|
            if j % 3 == 0 {
                0x3bu8
            } else if j % 3 == 1 {
                0x00u8
            } else {
                mpsse_pin_data(bit_of(tms, j / 3), bit_of(tdi, j / 3))
            },
    )
}

/// The frequency is the number of whole periods in a second:
/// `f * period <= 10^9 < (f + 1) * period`.
pub proof fn lemma_ng_frequency(period_ns: u32)
    requires
        period_ns > 0,
    ensures
        ng_mpsse_clock(period_ns) * period_ns <= 1_000_000_000,
        1_000_000_000 < (ng_mpsse_clock(period_ns) + 1) * period_ns,
{
    let p = period_ns as int;
    vstd::arithmetic::div_mod::lemma_fundamental_div_mod(1_000_000_000int, p);
    vstd::arithmetic::div_mod::lemma_mod_bound(1_000_000_000int, p);
    assert((1_000_000_000int / p) * p <= 1_000_000_000 < (1_000_000_000int / p + 1) * p) by (nonlinear_arith)
        requires
            p * (1_000_000_000int / p) + 1_000_000_000int % p == 1_000_000_000int,
            0 <= 1_000_000_000int % p < p,
    ;
}

/// Every bit goes out as its own single-bit command (0x3B, 0x00, data), in
/// order, and the data byte of bit `i` holds TMS bit `i` in bit 0, TDI bit `i`
/// in bit 7, and nothing else.
pub proof fn lemma_ng_commands_bits(tms: Seq<u8>, tdi: Seq<u8>, bits: int)
    requires
        0 <= bits,
    ensures
        ({
            let c = ng_mpsse_commands(tms, tdi, bits);
            &&& c.len() == 3 * bits
            &&& forall|i: int|
                0 <= i < bits ==> {
                    &&& #[trigger] c[3 * i] == 0x3bu8
                    &&& c[3 * i + 1] == 0u8
                    &&& (c[3 * i + 2] & 0x01u8 == 0x01u8) == bit_of(tms, i)
                    &&& (c[3 * i + 2] & 0x80u8 == 0x80u8) == bit_of(tdi, i)
                    &&& c[3 * i + 2] & 0x7eu8 == 0u8
                }
        }),
{
    let c = ng_mpsse_commands(tms, tdi, bits);
    assert forall|i: int| 0 <= i < bits implies {
        &&& #[trigger] c[3 * i] == 0x3bu8
        &&& c[3 * i + 1] == 0u8
        &&& (c[3 * i + 2] & 0x01u8 == 0x01u8) == bit_of(tms, i)
        &&& (c[3 * i + 2] & 0x80u8 == 0x80u8) == bit_of(tdi, i)
        &&& c[3 * i + 2] & 0x7eu8 == 0u8
    } by {
        assert((3 * i) % 3 == 0 && (3 * i) / 3 == i);
        assert((3 * i + 1) % 3 == 1 && (3 * i + 1) / 3 == i);
        assert((3 * i + 2) % 3 == 2 && (3 * i + 2) / 3 == i);
        lemma_pin_data_bits(bit_of(tms, i), bit_of(tdi, i));
    }
}

/// The MPSSE commands that clock `bits` bits of `tms` and `tdi` through the chain.
pub fn ng_mpsse_shift_commands(bits: u32, tms: &[u8], tdi: &[u8]) -> (cmd: Vec<u8>)
    requires
        bits <= 8 * tms@.len(),
        bits <= 8 * tdi@.len(),
    ensures
        cmd@ == ng_mpsse_commands(tms@, tdi@, bits as int),
{
    let mut cmd: Vec<u8> = Vec::new();
    let mut i: u32 = 0;
    while i < bits
        invariant
            i <= bits,
            bits <= 8 * tms@.len(),
            bits <= 8 * tdi@.len(),
            cmd@ == ng_mpsse_commands(tms@, tdi@, i as int),
        decreases bits - i,
    {
        let tms_val = bit_at(tms, i);
        let tdi_val = bit_at(tdi, i);
        assert((tdi_val << 7u8) | tms_val == mpsse_pin_data(tms_val == 1, tdi_val == 1)) by {
            assert((0u8 << 7u8) | 0u8 == 0u8) by (bit_vector);
            assert((0u8 << 7u8) | 1u8 == 1u8) by (bit_vector);
            assert((1u8 << 7u8) | 0u8 == 0x80u8) by (bit_vector);
            assert((1u8 << 7u8) | 1u8 == 0x81u8) by (bit_vector);
        }
        let pin_state = (tdi_val << 7u8) | tms_val;
        cmd.push(NG_MPSSE_CLOCK_BITS_INOUT);
        cmd.push(0x00);
        cmd.push(pin_state);
        i = i + 1;
        assert(cmd@ =~= ng_mpsse_commands(tms@, tdi@, i as int));
    }
    cmd
}

} // verus!
