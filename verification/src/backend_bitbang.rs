//! Synchronous bitbang over an FTDI chip: every JTAG bit becomes two pin
//! writes (TCK low, then TCK high), and TDO is read back from the pin state
//! the chip samples on the TCK-high write.

use crate::bits::{bit_at, bit_of, holds_bits, or_bit};
use vstd::prelude::*;
use vstd::slice::slice_subrange;

verus! {

/// TCK, an output on bit 0.
pub const TCK_PIN: u8 = 0x01;

/// TDI, an output on bit 1.
pub const TDI_PIN: u8 = 0x02;

/// TDO, an input on bit 2.
pub const TDO_PIN: u8 = 0x04;

/// TMS, an output on bit 3.
pub const TMS_PIN: u8 = 0x08;

/// Largest number of JTAG bits sent in one USB round trip.
pub const MAX_BIT_CHUNK_SIZE: u32 = 64;

/// Size of the status header the chip puts in front of its replies.
pub const STATUS_HEADER_LEN: usize = 2;

/// The pin byte that drives TMS and TDI to the given levels with TCK low.
pub open spec fn pin_byte(tms: bool, tdi: bool) -> u8 {
    if tms && tdi {
        0x0au8
    } else if tms {
        0x08u8
    } else if tdi {
        0x02u8
    } else {
        0x00u8
    }
}

/// The pin byte of one step of bit `bit`: TCK low (`high == false`) or high.
pub open spec fn bitbang_step(tms: Seq<u8>, tdi: Seq<u8>, bit: int, high: bool) -> u8 {
    let base = pin_byte(bit_of(tms, bit), bit_of(tdi, bit));
    if high {
        (base + 1) as u8
    } else {
        base
    }
}

/// The pin writes that clock bits `start .. start + n`: two per bit.
pub open spec fn bitbang_waveform(tms: Seq<u8>, tdi: Seq<u8>, start: int, n: int) -> Seq<u8> {
    Seq::new((2 * n) as nat, |j: int| bitbang_step(tms, tdi, start + j / 2, j % 2 == 1))
}

/// The TDO levels held in a chunk's pin samples: bit `k` is read from the
/// sample of its TCK-high step, at index `2 * k + 1`.
pub open spec fn bitbang_samples(payload: Seq<u8>, n: int) -> Seq<bool> {
    Seq::new(n as nat, |k: int| payload[2 * k + 1] & 0x04u8 != 0u8)
}

/// Sending the waveform in two pieces sends the same pin writes as sending it whole.
pub proof fn lemma_waveform_split(tms: Seq<u8>, tdi: Seq<u8>, start: int, a: int, b: int)
    requires
        0 <= a,
        0 <= b,
    ensures
        bitbang_waveform(tms, tdi, start, a) + bitbang_waveform(tms, tdi, start + a, b)
            == bitbang_waveform(tms, tdi, start, a + b),
{
    let l = bitbang_waveform(tms, tdi, start, a);
    let r = bitbang_waveform(tms, tdi, start + a, b);
    let w = bitbang_waveform(tms, tdi, start, a + b);
    assert forall|j: int| 0 <= j < w.len() implies (l + r)[j] == w[j] by {
        if j >= 2 * a {
            assert((j - 2 * a) / 2 == j / 2 - a);
            assert((j - 2 * a) % 2 == j % 2);
        }
    }
    assert(l + r =~= w);
}

/// Each bit is clocked by two pin writes: the first with TCK low, TMS and TDI
/// at the bit's levels and every other pin low; the second the same write with
/// TCK raised. The TDO level of a bit is read from the sample taken with the
/// write that raised TCK.
pub proof fn lemma_waveform_pins(tms: Seq<u8>, tdi: Seq<u8>, start: int, n: int, payload: Seq<u8>)
    requires
        0 <= n,
    ensures
        ({
            let w = bitbang_waveform(tms, tdi, start, n);
            &&& w.len() == 2 * n
            &&& forall|j: int|
                0 <= j < 2 * n && j % 2 == 0 ==> {
                    &&& #[trigger] w[j] & TCK_PIN == 0u8
                    &&& w[j + 1] == w[j] | TCK_PIN
                    &&& (w[j] & TMS_PIN == TMS_PIN) == bit_of(tms, start + j / 2)
                    &&& (w[j] & TDI_PIN == TDI_PIN) == bit_of(tdi, start + j / 2)
                    &&& w[j] & 0xf4u8 == 0u8
                }
            &&& forall|j: int|
                0 <= j < 2 * n && #[trigger] w[j] & TCK_PIN == TCK_PIN ==> bitbang_samples(payload, n)[j / 2] == (
                payload[j] & TDO_PIN == TDO_PIN)
        }),
{
    let w = bitbang_waveform(tms, tdi, start, n);
    assert forall|j: int| 0 <= j < 2 * n && j % 2 == 0 implies {
        &&& #[trigger] w[j] & TCK_PIN == 0u8
        &&& w[j + 1] == w[j] | TCK_PIN
        &&& (w[j] & TMS_PIN == TMS_PIN) == bit_of(tms, start + j / 2)
        &&& (w[j] & TDI_PIN == TDI_PIN) == bit_of(tdi, start + j / 2)
        &&& w[j] & 0xf4u8 == 0u8
    } by {
        assert((j + 1) / 2 == j / 2 && (j + 1) % 2 == 1);
        let t = bit_of(tms, start + j / 2);
        let d = bit_of(tdi, start + j / 2);
        let b = pin_byte(t, d);
        assert(w[j] == b);
        assert(w[j + 1] == (b + 1) as u8);
        if t && d {
            assert(0x0au8 & 0x01u8 == 0u8 && 0x0au8 | 0x01u8 == 0x0bu8 && 0x0au8 & 0x08u8 == 0x08u8
                && 0x0au8 & 0x02u8 == 0x02u8 && 0x0au8 & 0xf4u8 == 0u8) by (bit_vector);
        } else if t {
            assert(0x08u8 & 0x01u8 == 0u8 && 0x08u8 | 0x01u8 == 0x09u8 && 0x08u8 & 0x08u8 == 0x08u8
                && 0x08u8 & 0x02u8 == 0u8 && 0x08u8 & 0xf4u8 == 0u8) by (bit_vector);
        } else if d {
            assert(0x02u8 & 0x01u8 == 0u8 && 0x02u8 | 0x01u8 == 0x03u8 && 0x02u8 & 0x08u8 == 0u8
                && 0x02u8 & 0x02u8 == 0x02u8 && 0x02u8 & 0xf4u8 == 0u8) by (bit_vector);
        } else {
            assert(0u8 & 0x01u8 == 0u8 && 0u8 | 0x01u8 == 0x01u8 && 0u8 & 0x08u8 == 0u8 && 0u8 & 0x02u8
                == 0u8 && 0u8 & 0xf4u8 == 0u8) by (bit_vector);
        }
    }
    assert forall|j: int|
        0 <= j < 2 * n && #[trigger] w[j] & TCK_PIN == TCK_PIN implies bitbang_samples(payload, n)[j / 2] == (
    payload[j] & TDO_PIN == TDO_PIN) by {
        if j % 2 == 0 {
            let b = pin_byte(bit_of(tms, start + j / 2), bit_of(tdi, start + j / 2));
            assert(w[j] == b);
            assert(0x0au8 & 0x01u8 == 0u8 && 0x08u8 & 0x01u8 == 0u8 && 0x02u8 & 0x01u8 == 0u8 && 0u8
                & 0x01u8 == 0u8) by (bit_vector);
            assert(false);
        }
        assert(2 * (j / 2) + 1 == j);
        let p = payload[j];
        assert((p & 0x04u8 != 0u8) == (p & 0x04u8 == 0x04u8)) by (bit_vector);
    }
}

proof fn lemma_pin_byte(tms: u8, tdi: u8)
    requires
        tms <= 1,
        tdi <= 1,
    ensures
        ((if tms > 0 { 0x08u8 } else { 0u8 }) | (if tdi > 0 { 0x02u8 } else { 0u8 })) == pin_byte(
            tms == 1,
            tdi == 1,
        ),
        pin_byte(tms == 1, tdi == 1) | 0x01u8 == (pin_byte(tms == 1, tdi == 1) + 1) as u8,
{
    assert(0u8 | 0u8 == 0u8) by (bit_vector);
    assert(0x08u8 | 0u8 == 0x08u8) by (bit_vector);
    assert(0u8 | 0x02u8 == 0x02u8) by (bit_vector);
    assert(0x08u8 | 0x02u8 == 0x0au8) by (bit_vector);
    assert(0x00u8 | 0x01u8 == 0x01u8) by (bit_vector);
    assert(0x02u8 | 0x01u8 == 0x03u8) by (bit_vector);
    assert(0x08u8 | 0x01u8 == 0x09u8) by (bit_vector);
    assert(0x0au8 | 0x01u8 == 0x0bu8) by (bit_vector);
}

/// The pin writes that clock bits `start .. start + n` of `tms` and `tdi`
/// through the chain, TCK low then TCK high for each bit.
pub fn bitbang_waveform_bytes(tms: &[u8], tdi: &[u8], start: u32, n: u32) -> (cmd: Vec<u8>)
    requires
        start + n <= 8 * tms@.len(),
        start + n <= 8 * tdi@.len(),
        start + n <= u32::MAX,
    ensures
        cmd@ == bitbang_waveform(tms@, tdi@, start as int, n as int),
{
    let mut cmd: Vec<u8> = Vec::new();
    let mut i: u32 = 0;
    while i < n
        invariant
            i <= n,
            start + n <= 8 * tms@.len(),
            start + n <= 8 * tdi@.len(),
            start + n <= u32::MAX,
            cmd@ == bitbang_waveform(tms@, tdi@, start as int, i as int),
        decreases n - i,
    {
        let bit = start + i;
        let tms_val = bit_at(tms, bit);
        let tdi_val = bit_at(tdi, bit);
        let mut pin_base: u8 = 0x00;
        if tms_val > 0 {
            pin_base = pin_base | TMS_PIN;
        }
        if tdi_val > 0 {
            pin_base = pin_base | TDI_PIN;
        }
        proof {
            lemma_pin_byte(tms_val, tdi_val);
            assert(0u8 | 0x08u8 == 0x08u8) by (bit_vector);
        }
        let ghost prev = cmd@;
        cmd.push(pin_base);
        cmd.push(pin_base | TCK_PIN);
        proof {
            let w = bitbang_waveform(tms@, tdi@, start as int, (i + 1) as int);
            assert forall|j: int| 0 <= j < w.len() implies cmd@[j] == w[j] by {
                if j < 2 * i {
                    assert(prev[j] == w[j]);
                }
            }
            assert(cmd@ =~= w);
        }
        i = i + 1;
    }
    cmd
}

/// ORs the TDO levels sampled for bits `start .. start + n` into `tdo`.
pub fn decode_bitbang_samples(tdo: &mut [u8], payload: &[u8], start: u32, n: u32)
    requires
        2 * n <= payload@.len(),
        start + n <= 8 * old(tdo)@.len(),
        start + n <= u32::MAX,
    ensures
        final(tdo)@.len() == old(tdo)@.len(),
        forall|j: int|
            0 <= j < 8 * old(tdo)@.len() ==> #[trigger] bit_of(final(tdo)@, j) == (bit_of(
                old(tdo)@,
                j,
            ) || (start <= j < start + n && bitbang_samples(payload@, n as int)[j - start])),
{
    let ghost samples = bitbang_samples(payload@, n as int);
    let payload_len = payload.len();
    let mut i: u32 = 0;
    while i < n
        invariant
            i <= n,
            payload_len == payload@.len(),
            2 * n <= payload@.len(),
            start + n <= 8 * old(tdo)@.len(),
            start + n <= u32::MAX,
            samples == bitbang_samples(payload@, n as int),
            tdo@.len() == old(tdo)@.len(),
            forall|j: int|
                0 <= j < 8 * old(tdo)@.len() ==> #[trigger] bit_of(tdo@, j) == (bit_of(old(tdo)@, j)
                    || (start <= j < start + i && samples[j - start])),
        decreases n - i,
    {
        assert(2 * i + 1 < payload@.len());
        let step_offset = (i as usize) * 2 + 1;
        let sampled_pins = payload[step_offset];
        let high = (sampled_pins & TDO_PIN) > 0;
        assert(high == (samples[i as int])) by {
            assert((sampled_pins & 0x04u8 > 0u8) == (sampled_pins & 0x04u8 != 0u8)) by (bit_vector);
        }
        let ghost before = tdo@;
        or_bit(tdo, start + i, high);
        i = i + 1;
    }
}

/// How many bytes to ask the IN endpoint for, when `expected` bytes are due:
/// a whole number of 512-byte packets, never fewer than one.
pub fn usb_rx_alloc_len(expected: usize) -> (n: usize)
    requires
        expected + 511 <= usize::MAX,
    ensures
        n == if (expected + 511) / 512 * 512 > 512 { (expected + 511) / 512 * 512 } else { 512 },
        n % 512 == 0,
        n >= expected,
        n >= 512,
{
    let aligned = ((expected + 511) / 512) * 512;
    if aligned > 512 {
        aligned
    } else {
        512
    }
}

/// Whether `received` bytes hold the status header and all `expected` sample bytes.
pub fn rx_complete(received: usize, expected: usize) -> (done: bool)
    ensures
        done == (received as int >= expected as int + STATUS_HEADER_LEN as int),
{
    received >= expected && received - expected >= STATUS_HEADER_LEN
}

/// The `expected` sample bytes of a reply, behind its status header.
pub fn strip_status_header(raw: &[u8], expected: usize) -> (payload: &[u8])
    requires
        raw@.len() >= expected + 2,
    ensures
        payload@ == raw@.subrange(2, expected + 2),
{
    let raw_len = raw.len();
    assert(expected + 2 <= raw_len);
    slice_subrange(raw, 2, 2 + expected)
}

/// One `shift` through the bitbang engine, cut into chunks of at most
/// [`MAX_BIT_CHUNK_SIZE`] bits. For each chunk the caller sends the pin writes
/// from [`BitbangShift::next_chunk`], feeds what the IN endpoint returns to
/// [`BitbangShift::push_rx`] until it reports the chunk complete, and then
/// calls [`BitbangShift::finish_chunk`].
pub struct BitbangShift {
    bits: u32,
    processed: u32,
    chunk_bits: u32,
    tms: Vec<u8>,
    tdi: Vec<u8>,
    tdo: Vec<u8>,
    rx: Vec<u8>,
    samples: Ghost<Seq<bool>>,
    sent: Ghost<Seq<u8>>,
}

impl BitbangShift {
    /// All pin writes handed out so far, chunk after chunk.
    pub closed spec fn sent(&self) -> Seq<u8> {
        self.sent@
    }

    pub closed spec fn total_bits(&self) -> u32 {
        self.bits
    }

    /// Bits whose TDO level is known.
    pub closed spec fn processed(&self) -> u32 {
        self.processed
    }

    /// Bits of the chunk in flight; zero when none is.
    pub closed spec fn chunk_bits(&self) -> u32 {
        self.chunk_bits
    }

    pub closed spec fn tms(&self) -> Seq<u8> {
        self.tms@
    }

    pub closed spec fn tdi(&self) -> Seq<u8> {
        self.tdi@
    }

    pub closed spec fn tdo(&self) -> Seq<u8> {
        self.tdo@
    }

    /// Bytes received so far for the chunk in flight.
    pub closed spec fn received(&self) -> Seq<u8> {
        self.rx@
    }

    /// The TDO levels sampled so far, one per processed bit.
    pub closed spec fn samples(&self) -> Seq<bool> {
        self.samples@
    }

    pub closed spec fn wf(&self) -> bool {
        &&& self.processed <= self.bits
        &&& self.chunk_bits <= self.bits - self.processed
        &&& self.chunk_bits <= MAX_BIT_CHUNK_SIZE
        &&& self.bits <= 8 * self.tms@.len()
        &&& self.bits <= 8 * self.tdi@.len()
        &&& self.bits <= 8 * self.tdo@.len()
        &&& self.samples@.len() == self.processed
        &&& self.bits > 0 ==> holds_bits(self.tdo@, self.samples@)
        &&& self.chunk_bits == 0 ==> self.rx@.len() == 0
        &&& self.sent@ == bitbang_waveform(self.tms@, self.tdi@, 0, self.processed + self.chunk_bits)
    }

    /// Starts a shift of `bits` bits. A shift of zero bits leaves `tdo` as it
    /// is; any other starts from an all-zero `tdo`.
    pub fn new(bits: u32, tms: Vec<u8>, tdi: Vec<u8>, tdo: Vec<u8>) -> (s: Self)
        requires
            bits <= 8 * tms@.len(),
            bits <= 8 * tdi@.len(),
            bits <= 8 * tdo@.len(),
        ensures
            s.wf(),
            s.total_bits() == bits,
            s.processed() == 0,
            s.chunk_bits() == 0,
            s.tms() == tms@,
            s.tdi() == tdi@,
            s.tdo().len() == tdo@.len(),
            s.sent() == Seq::<u8>::empty(),
            s.samples() == Seq::<bool>::empty(),
            bits == 0 ==> s.tdo() == tdo@,
            bits > 0 ==> forall|i: int| 0 <= i < tdo@.len() ==> s.tdo()[i] == 0,
    {
        assert(bitbang_waveform(tms@, tdi@, 0, 0) =~= Seq::<u8>::empty());
        let mut tdo = tdo;
        if bits > 0 {
            let mut i: usize = 0;
            let ghost len = tdo@.len();
            while i < tdo.len()
                invariant
                    i <= tdo@.len(),
                    tdo@.len() == len,
                    forall|k: int| 0 <= k < i ==> tdo@[k] == 0,
                decreases tdo@.len() - i,
            {
                tdo.set(i, 0);
                i = i + 1;
            }
            assert forall|j: int| 0 <= j < 8 * tdo@.len() implies #[trigger] bit_of(tdo@, j) == (j
                < Seq::<bool>::empty().len() && Seq::<bool>::empty()[j]) by {
                let b = tdo@[j / 8];
                let sh = (j % 8) as u8;
                assert(b == 0);
                assert((0u8 >> sh) & 1u8 == 0u8) by (bit_vector);
            }
        }
        BitbangShift {
            bits,
            processed: 0,
            chunk_bits: 0,
            tms,
            tdi,
            tdo,
            rx: Vec::new(),
            samples: Ghost(Seq::empty()),
            sent: Ghost(Seq::empty()),
        }
    }

    /// Whether every bit has been clocked and sampled.
    pub fn is_done(&self) -> (done: bool)
        requires
            self.wf(),
        ensures
            done == (self.processed() == self.total_bits()),
    {
        self.processed == self.bits
    }

    /// Starts the next chunk: the pin writes to send for it, or `None` when
    /// every bit has been processed.
    pub fn next_chunk(&mut self) -> (cmd: Option<Vec<u8>>)
        requires
            old(self).wf(),
            old(self).chunk_bits() == 0,
        ensures
            final(self).wf(),
            final(self).total_bits() == old(self).total_bits(),
            final(self).processed() == old(self).processed(),
            final(self).tms() == old(self).tms(),
            final(self).tdi() == old(self).tdi(),
            final(self).tdo() == old(self).tdo(),
            final(self).samples() == old(self).samples(),
            final(self).received() == Seq::<u8>::empty(),
            old(self).processed() == old(self).total_bits() ==> cmd is None && final(self).chunk_bits() == 0
                && final(self).sent() == old(self).sent(),
            old(self).processed() < old(self).total_bits() ==> {
                let chunk = final(self).chunk_bits();
                &&& cmd matches Some(c) && final(self).sent() == old(self).sent() + c@
                &&& chunk as int == if old(self).total_bits() - old(self).processed() < MAX_BIT_CHUNK_SIZE {
                    old(self).total_bits() - old(self).processed()
                } else {
                    MAX_BIT_CHUNK_SIZE as int
                }
                &&& cmd matches Some(c) && c@ == bitbang_waveform(
                    old(self).tms(),
                    old(self).tdi(),
                    old(self).processed() as int,
                    chunk as int,
                )
            },
    {
        if self.processed == self.bits {
            return None;
        }
        let remaining = self.bits - self.processed;
        let chunk = if remaining < MAX_BIT_CHUNK_SIZE {
            remaining
        } else {
            MAX_BIT_CHUNK_SIZE
        };
        let cmd = bitbang_waveform_bytes(self.tms.as_slice(), self.tdi.as_slice(), self.processed, chunk);
        proof {
            lemma_waveform_split(self.tms@, self.tdi@, 0, self.processed as int, chunk as int);
        }
        self.sent = Ghost(self.sent@ + cmd@);
        self.chunk_bits = chunk;
        self.rx = Vec::new();
        Some(cmd)
    }

    /// Bytes of pin samples the chunk in flight brings back (two per bit).
    pub fn expected_rx_len(&self) -> (n: usize)
        requires
            self.wf(),
        ensures
            n == 2 * self.chunk_bits(),
    {
        (self.chunk_bits as usize) * 2
    }

    /// Appends bytes from the IN endpoint; says whether the chunk's reply is
    /// now complete (status header plus two sample bytes per bit).
    pub fn push_rx(&mut self, data: &[u8]) -> (done: bool)
        requires
            old(self).wf(),
            old(self).chunk_bits() > 0,
            old(self).received().len() + data@.len() <= usize::MAX,
        ensures
            final(self).wf(),
            final(self).total_bits() == old(self).total_bits(),
            final(self).processed() == old(self).processed(),
            final(self).chunk_bits() == old(self).chunk_bits(),
            final(self).tms() == old(self).tms(),
            final(self).tdi() == old(self).tdi(),
            final(self).tdo() == old(self).tdo(),
            final(self).samples() == old(self).samples(),
            final(self).sent() == old(self).sent(),
            final(self).received() == old(self).received() + data@,
            done == (final(self).received().len() >= 2 * old(self).chunk_bits() + 2),
    {
        let mut i: usize = 0;
        let ghost before = self.rx@;
        while i < data.len()
            invariant
                i <= data@.len(),
                self.rx@ == before + data@.subrange(0, i as int),
                self.wf(),
                self.bits == old(self).bits,
                self.processed == old(self).processed,
                self.chunk_bits == old(self).chunk_bits,
                self.chunk_bits > 0,
                self.tms == old(self).tms,
                self.tdi == old(self).tdi,
                self.tdo == old(self).tdo,
                self.samples == old(self).samples,
                self.sent == old(self).sent,
            decreases data@.len() - i,
        {
            self.rx.push(data[i]);
            i = i + 1;
            assert(self.rx@ =~= before + data@.subrange(0, i as int));
        }
        assert(data@.subrange(0, data@.len() as int) =~= data@);
        rx_complete(self.rx.len(), self.expected_rx_len())
    }

    /// Reads the TDO levels of the chunk in flight out of its reply, which
    /// must be complete, and closes the chunk.
    pub fn finish_chunk(&mut self)
        requires
            old(self).wf(),
            old(self).chunk_bits() > 0,
            old(self).received().len() >= 2 * old(self).chunk_bits() + 2,
        ensures
            final(self).wf(),
            final(self).total_bits() == old(self).total_bits(),
            final(self).processed() == old(self).processed() + old(self).chunk_bits(),
            final(self).chunk_bits() == 0,
            final(self).tms() == old(self).tms(),
            final(self).tdi() == old(self).tdi(),
            final(self).samples() == old(self).samples() + bitbang_samples(
                old(self).received().skip(2),
                old(self).chunk_bits() as int,
            ),
            final(self).tdo().len() == old(self).tdo().len(),
            final(self).total_bits() > 0 ==> holds_bits(final(self).tdo(), final(self).samples()),
            final(self).sent() == old(self).sent(),
    {
        let chunk = self.chunk_bits;
        let expected = self.expected_rx_len();
        let ghost new_samples = bitbang_samples(self.rx@.skip(2), chunk as int);
        let ghost old_tdo = self.tdo@;
        {
            let payload = strip_status_header(self.rx.as_slice(), expected);
            assert(bitbang_samples(payload@, chunk as int) =~= new_samples);
            decode_bitbang_samples(self.tdo.as_mut_slice(), payload, self.processed, chunk);
        }
        let ghost all = self.samples@ + new_samples;
        assert forall|j: int| 0 <= j < 8 * self.tdo@.len() implies #[trigger] bit_of(self.tdo@, j) == (j
            < all.len() && all[j]) by {
            assert(bit_of(old_tdo, j) == (j < self.samples@.len() && self.samples@[j]));
        }
        self.samples = Ghost(all);
        self.processed = self.processed + chunk;
        self.chunk_bits = 0;
        self.rx = Vec::new();
    }

    /// The TDO vector built so far.
    pub fn tdo_bytes(&self) -> (t: &[u8])
        ensures
            t@ == self.tdo(),
    {
        self.tdo.as_slice()
    }

    /// Once every bit has been processed, the chunks handed out add up to the
    /// pin writes of the whole shift, and the TDO vector holds exactly one sampled
    /// level per bit.
    pub proof fn lemma_complete_shift(&self)
        requires
            self.wf(),
            self.chunk_bits() == 0,
            self.processed() == self.total_bits(),
        ensures
            self.sent() == bitbang_waveform(self.tms(), self.tdi(), 0, self.total_bits() as int),
            self.samples().len() == self.total_bits(),
            self.total_bits() > 0 ==> holds_bits(self.tdo(), self.samples()),
    {
    }
}

/// A vendor control request to the chip.
pub struct ControlRequest {
    pub request: u8,
    pub value: u16,
    pub index: u16,
}

/// FTDI reset.
pub const FTDI_RESET_REQUEST: u8 = 0x00;

/// FTDI latency timer.
pub const FTDI_SET_LATENCY_TIMER_REQUEST: u8 = 0x09;

/// FTDI bit mode.
pub const FTDI_SET_BITMODE_REQUEST: u8 = 0x0B;

/// The FTDI index of interface `channel_index` (channel A is 1).
pub open spec fn ftdi_index(channel_index: u8) -> u16 {
    (channel_index + 1) as u16
}

/// The requests that put interface `channel_index` in synchronous bitbang mode
/// with TCK, TDI and TMS as outputs: reset, a 2 ms latency timer, then bit mode
/// 0x04 with direction mask 0x0B.
pub fn bitbang_setup_requests(channel_index: u8) -> (reqs: Vec<ControlRequest>)
    ensures
        reqs@.len() == 3,
        reqs@[0].request == FTDI_RESET_REQUEST && reqs@[0].value == 0 && reqs@[0].index == ftdi_index(
            channel_index,
        ),
        reqs@[1].request == FTDI_SET_LATENCY_TIMER_REQUEST && reqs@[1].value == 2 && reqs@[1].index
            == ftdi_index(channel_index),
        reqs@[2].request == FTDI_SET_BITMODE_REQUEST && reqs@[2].value == 0x040B && reqs@[2].index
            == ftdi_index(channel_index),
{
    let index = (channel_index as u16) + 1;
    let direction_mask = TCK_PIN | TDI_PIN | TMS_PIN;
    assert(0x01u8 | 0x02u8 | 0x08u8 == 0x0bu8) by (bit_vector);
    let bitmode_value = (0x04u16 << 8u16) | (direction_mask as u16);
    assert((0x04u16 << 8u16) | (0x0bu8 as u16) == 0x040bu16) by (bit_vector);
    let mut reqs: Vec<ControlRequest> = Vec::new();
    reqs.push(ControlRequest { request: FTDI_RESET_REQUEST, value: 0, index });
    reqs.push(ControlRequest { request: FTDI_SET_LATENCY_TIMER_REQUEST, value: 2, index });
    reqs.push(ControlRequest { request: FTDI_SET_BITMODE_REQUEST, value: bitmode_value, index });
    reqs
}

/// An endpoint of the claimed interface, as its descriptor gives it.
pub struct EndpointInfo {
    pub is_in: bool,
    pub address: u8,
}

/// The address of the last endpoint of the given direction, if any.
pub open spec fn last_endpoint(eps: Seq<EndpointInfo>, is_in: bool) -> Option<u8>
    decreases eps.len(),
{
    if eps.len() == 0 {
        None
    } else if eps.last().is_in == is_in {
        Some(eps.last().address)
    } else {
        last_endpoint(eps.drop_last(), is_in)
    }
}

/// Why no endpoint pair could be chosen.
pub enum EndpointError {
    NoOutEndpoint,
    NoInEndpoint,
}

impl EndpointError {
    /// The message for this error.
    pub fn to_string(&self) -> (t: String)
        ensures
            t@ == match self {
                EndpointError::NoOutEndpoint => "Could not resolve OUT endpoint address"@,
                EndpointError::NoInEndpoint => "Could not resolve IN endpoint address"@,
            },
    {
        match self {
            EndpointError::NoOutEndpoint => String::from_str("Could not resolve OUT endpoint address"),
            EndpointError::NoInEndpoint => String::from_str("Could not resolve IN endpoint address"),
        }
    }
}

/// Picks the (OUT, IN) endpoint addresses: the last of each direction.
pub fn select_endpoints(eps: &[EndpointInfo]) -> (r: Result<(u8, u8), EndpointError>)
    ensures
        match (last_endpoint(eps@, false), last_endpoint(eps@, true)) {
            (None, _) => r matches Err(EndpointError::NoOutEndpoint),
            (Some(_), None) => r matches Err(EndpointError::NoInEndpoint),
            (Some(o), Some(i)) => r == Ok::<(u8, u8), EndpointError>((o, i)),
        },
{
    let mut out_addr: Option<u8> = None;
    let mut in_addr: Option<u8> = None;
    let mut k: usize = 0;
    while k < eps.len()
        invariant
            k <= eps@.len(),
            out_addr == last_endpoint(eps@.subrange(0, k as int), false),
            in_addr == last_endpoint(eps@.subrange(0, k as int), true),
        decreases eps@.len() - k,
    {
        let ep = &eps[k];
        if ep.is_in {
            in_addr = Some(ep.address);
        } else {
            out_addr = Some(ep.address);
        }
        assert(eps@.subrange(0, k + 1).drop_last() =~= eps@.subrange(0, k as int));
        k = k + 1;
    }
    assert(eps@.subrange(0, eps@.len() as int) =~= eps@);
    match out_addr {
        None => Err(EndpointError::NoOutEndpoint),
        Some(o) => match in_addr {
            None => Err(EndpointError::NoInEndpoint),
            Some(i) => Ok((o, i)),
        },
    }
}

/// The vendor and product ID of an attached USB device.
pub struct UsbId {
    pub vendor_id: u16,
    pub product_id: u16,
}

/// Index of the first device with the given IDs.
pub fn find_usb_device(devices: &[UsbId], vid: u16, pid: u16) -> (r: Option<usize>)
    ensures
        match r {
            Some(i) => i < devices@.len() && devices@[i as int].vendor_id == vid && devices@[i as int].product_id
                == pid && forall|k: int|
                0 <= k < i ==> !(devices@[k].vendor_id == vid && devices@[k].product_id == pid),
            None => forall|k: int|
                0 <= k < devices@.len() ==> !(devices@[k].vendor_id == vid && devices@[k].product_id == pid),
        },
{
    let mut i: usize = 0;
    while i < devices.len()
        invariant
            i <= devices@.len(),
            forall|k: int| 0 <= k < i ==> !(devices@[k].vendor_id == vid && devices@[k].product_id == pid),
        decreases devices@.len() - i,
    {
        if devices[i].vendor_id == vid && devices[i].product_id == pid {
            return Some(i);
        }
        i = i + 1;
    }
    None
}

/// Index of the first interface descriptor with the given interface number.
pub fn find_interface(numbers: &[u8], interface_number: u8) -> (r: Option<usize>)
    ensures
        match r {
            Some(i) => i < numbers@.len() && numbers@[i as int] == interface_number && forall|k: int|
                0 <= k < i ==> numbers@[k] != interface_number,
            None => forall|k: int| 0 <= k < numbers@.len() ==> numbers@[k] != interface_number,
        },
{
    let mut i: usize = 0;
    while i < numbers.len()
        invariant
            i <= numbers@.len(),
            forall|k: int| 0 <= k < i ==> numbers@[k] != interface_number,
        decreases numbers@.len() - i,
    {
        if numbers[i] == interface_number {
            return Some(i);
        }
        i = i + 1;
    }
    None
}

} // verus!
