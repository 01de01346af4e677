//! The hardware interface of the `xvcd-ng` server, and a stand-in adapter for
//! checking the network side without hardware.

use vstd::prelude::*;

verus! {

/// Maps the protocol's commands onto a JTAG adapter.
pub trait JtagController {
    /// Configures the TCK clock from a requested period in nanoseconds; returns
    /// the period put in place.
    fn set_tck_period(&mut self, period_ns: u32) -> u32;

    /// Shifts a sequence of bits through the JTAG chain.
    fn shift(&mut self, bits: u32, tms: &[u8], tdi: &[u8], tdo: &mut [u8])
        ensures
            final(tdo)@.len() == old(tdo)@.len(),
    ;
}

/// An adapter with no hardware behind it: every period is accepted as asked
/// and TDO always reads back as zeros.
pub struct DummyBackend;

impl JtagController for DummyBackend {
    fn set_tck_period(&mut self, period_ns: u32) -> (p: u32)
        ensures
            p == period_ns,
    {
        period_ns
    }

    fn shift(&mut self, bits: u32, tms: &[u8], tdi: &[u8], tdo: &mut [u8])
        ensures
            final(tdo)@.len() == old(tdo)@.len(),
            forall|i: int| 0 <= i < final(tdo)@.len() ==> final(tdo)@[i] == 0,
    {
        let mut i: usize = 0;
        while i < tdo.len()
            invariant
                i <= tdo@.len(),
                tdo@.len() == old(tdo)@.len(),
                forall|k: int| 0 <= k < i ==> tdo@[k] == 0,
            decreases tdo@.len() - i,
        {
            tdo[i] = 0x00;
            i = i + 1;
        }
    }
}

} // verus!
