//! Asynchronous bitbang as `xvcd-ng` drives it: fixed endpoint addresses per
//! channel, the whole shift in one transfer, and TDO read straight from the
//! returned pin samples.

use crate::backend_bitbang::{
    bitbang_samples, decode_bitbang_samples, ControlRequest, FTDI_RESET_REQUEST, FTDI_SET_BITMODE_REQUEST,
    TCK_PIN, TDI_PIN, TMS_PIN,
};
use crate::bits::{bit_of, holds_bits};
use vstd::prelude::*;

verus! {

/// The (OUT, IN) bulk endpoint addresses of interface `channel_index`.
pub fn ng_endpoint_addresses(channel_index: u8) -> (r: (u8, u8))
    requires
        channel_index <= 63,
    ensures
        r.0 == 0x02 + 2 * channel_index,
        r.1 == 0x81 + 2 * channel_index,
{
    (0x02 + channel_index * 2, 0x81 + channel_index * 2)
}

/// The requests that put interface `channel_index` in asynchronous bitbang
/// mode (0x01) with TCK, TDI and TMS as outputs: reset, then bit mode.
pub fn ng_bitbang_setup_requests(channel_index: u8) -> (reqs: Vec<ControlRequest>)
    ensures
        reqs@.len() == 2,
        reqs@[0].request == FTDI_RESET_REQUEST && reqs@[0].value == 0 && reqs@[0].index == (channel_index
            + 1) as u16,
        reqs@[1].request == FTDI_SET_BITMODE_REQUEST && reqs@[1].value == 0x010B && reqs@[1].index == (
        channel_index + 1) as u16,
{
    let index = (channel_index as u16) + 1;
    let direction_mask = TCK_PIN | TDI_PIN | TMS_PIN;
    assert(0x01u8 | 0x02u8 | 0x08u8 == 0x0bu8) by (bit_vector);
    let bitmode_value = (0x01u16 << 8u16) | (direction_mask as u16);
    assert((0x01u16 << 8u16) | (0x0bu8 as u16) == 0x010bu16) by (bit_vector);
    let mut reqs: Vec<ControlRequest> = Vec::new();
    reqs.push(ControlRequest { request: FTDI_RESET_REQUEST, value: 0, index });
    reqs.push(ControlRequest { request: FTDI_SET_BITMODE_REQUEST, value: bitmode_value, index });
    reqs
}

/// Builds the TDO vector of a whole shift from the pin samples the chip
/// returned: `tdo` is cleared, then bit `i` is set from sample `2 * i + 1`.
pub fn ng_bitbang_read_tdo(bits: u32, rx: &[u8], tdo: &mut [u8])
    requires
        2 * bits <= rx@.len(),
        bits <= 8 * old(tdo)@.len(),
    ensures
        final(tdo)@.len() == old(tdo)@.len(),
        holds_bits(final(tdo)@, bitbang_samples(rx@, bits as int)),
{
    let mut i: usize = 0;
    while i < tdo.len()
        invariant
            i <= tdo@.len(),
            tdo@.len() == old(tdo)@.len(),
            forall|k: int| 0 <= k < i ==> tdo@[k] == 0,
        decreases tdo@.len() - i,
    {
        tdo[i] = 0x00;
        i = i + 1;
    }
    assert forall|j: int| 0 <= j < 8 * tdo@.len() implies !#[trigger] bit_of(tdo@, j) by {
        let b = tdo@[j / 8];
        let sh = (j % 8) as u8;
        assert(b == 0);
        assert((0u8 >> sh) & 1u8 == 0u8) by (bit_vector);
    }
    if bits == 0 {
        return;
    }
    decode_bitbang_samples(tdo, rx, 0, bits);
}

} // verus!
