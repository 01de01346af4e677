//! JTAG through the FTDI MPSSE command processor. Runs of bits with TMS held
//! low go out as a byte command (0x39); any chunk with a TMS transition is sent
//! bit by bit with the TMS-pin command (0x6B), TDI in bit 7 and TMS in bit 0.

use crate::bits::{bit_at, bit_of, holds_bits, or_bit};
use vstd::prelude::*;
use vstd::slice::slice_subrange;

verus! {

/// Largest number of JTAG bits sent in one command batch.
pub const MPSSE_CHUNK_BITS: u32 = 1024;

/// Clock data bytes out on -ve edge, in on +ve edge, LSB first.
pub const MPSSE_CLOCK_BYTES_INOUT: u8 = 0x39;

/// Clock data to TMS pin, TDO in on +ve edge.
pub const MPSSE_CLOCK_TMS_INOUT: u8 = 0x6B;

/// Send immediate: flush the chip's reply buffer to the host.
pub const MPSSE_SEND_IMMEDIATE: u8 = 0x87;

/// Shortest TCK period that is passed on (about 30 MHz).
pub const MPSSE_MIN_TCK_PERIOD_NS: u32 = 33;

/// Clock the MPSSE engine is initialised with.
pub const MPSSE_INIT_CLOCK_HZ: u32 = 1_000_000;

/// TCK period set up when the adapter is opened.
pub const MPSSE_INITIAL_TCK_PERIOD_NS: u32 = 500;

/// The TCK period put in place for a requested period, and the clock
/// frequency (in Hz) it stands for.
pub open spec fn mpsse_tck(period_ns: u32) -> (u32, u32) {
    let p = if period_ns < 33 { 33u32 } else { period_ns };
    (p, (1_000_000_000int / (p as int)) as u32)
}

/// Clamps a requested TCK period to the engine's limit and derives the clock
/// frequency for it.
pub fn mpsse_tck_for_period(period_ns: u32) -> (r: (u32, u32))
    ensures
        r == mpsse_tck(period_ns),
        r.0 >= MPSSE_MIN_TCK_PERIOD_NS,
        r.0 == period_ns || period_ns < MPSSE_MIN_TCK_PERIOD_NS,
{
    let p = if period_ns < MPSSE_MIN_TCK_PERIOD_NS {
        MPSSE_MIN_TCK_PERIOD_NS
    } else {
        period_ns
    };
    let freq_hz: u64 = 1_000_000_000u64 / (p as u64);
    assert(freq_hz <= 30_303_030) by (nonlinear_arith)
        requires
            p >= 33,
            freq_hz == 1_000_000_000u64 / (p as u64),
    ;
    (p, freq_hz as u32)
}

/// The pin set-up written after opening: low GPIO byte (0x80) with TDI and
/// TMS high and TCK low (0x0A), TCK, TDI and TMS as outputs (0x0B).
pub fn mpsse_init_pins() -> (cmd: Vec<u8>)
    ensures
        cmd@ == seq![0x80u8, 0x0Au8, 0x0Bu8],
{
    let cmd: Vec<u8> = vec![0x80u8, 0x0Au8, 0x0Bu8];
    assert(cmd@ =~= seq![0x80u8, 0x0Au8, 0x0Bu8]);
    cmd
}

/// Whether the `n` bits from `start` can go out as whole bytes: they start and
/// end on byte boundaries and TMS stays low throughout.
pub open spec fn mpsse_byte_mode(tms: Seq<u8>, start: int, n: int) -> bool {
    &&& n % 8 == 0
    &&& start % 8 == 0
    &&& forall|k: int| start / 8 <= k < start / 8 + n / 8 ==> tms[k] == 0
}

/// The data byte of a single-bit TMS command: TDI in bit 7, TMS in bit 0.
pub open spec fn mpsse_pin_data(tms: bool, tdi: bool) -> u8 {
    ((if tdi { 0x80int } else { 0int }) + (if tms { 1int } else { 0int })) as u8
}

/// The commands for bits `start .. start + n`.
pub open spec fn mpsse_chunk_command(tms: Seq<u8>, tdi: Seq<u8>, start: int, n: int) -> Seq<u8> {
    if mpsse_byte_mode(tms, start, n) {
        let fb = n / 8;
        seq![0x39u8, ((fb - 1) % 256) as u8, ((fb - 1) / 256) as u8] + tdi.subrange(start / 8, start / 8 + fb)
            + seq![0x87u8]
    } else {
        Seq::new(
            (3 * n) as nat,
            |j: int|
                if j % 3 == 0 {
                    0x6bu8
                } else if j % 3 == 1 {
                    0x00u8
                } else {
                    mpsse_pin_data(bit_of(tms, start + j / 3), bit_of(tdi, start + j / 3))
                },
        ) + seq![0x87u8]
    }
}

/// Number of reply bytes for the chunk: one per byte in byte mode, one per bit otherwise.
pub open spec fn mpsse_chunk_reply_len(tms: Seq<u8>, start: int, n: int) -> int {
    if mpsse_byte_mode(tms, start, n) {
        n / 8
    } else {
        n
    }
}

/// The TDO levels in a chunk's reply: the bits of the reply bytes in byte
/// mode, bit 7 of each reply byte otherwise.
pub open spec fn mpsse_chunk_samples(tms: Seq<u8>, start: int, n: int, rx: Seq<u8>) -> Seq<bool> {
    if mpsse_byte_mode(tms, start, n) {
        Seq::new(n as nat, |k: int| bit_of(rx, k))
    } else {
        Seq::new(n as nat, |k: int| (rx[k] >> 7u8) & 1u8 == 1u8)
    }
}

proof fn lemma_pin_data(tms: u8, tdi: u8)
    requires
        tms <= 1,
        tdi <= 1,
    ensures
        (tdi << 7u8) | tms == mpsse_pin_data(tms == 1, tdi == 1),
{
    assert((0u8 << 7u8) | 0u8 == 0u8) by (bit_vector);
    assert((0u8 << 7u8) | 1u8 == 1u8) by (bit_vector);
    assert((1u8 << 7u8) | 0u8 == 0x80u8) by (bit_vector);
    assert((1u8 << 7u8) | 1u8 == 0x81u8) by (bit_vector);
}

/// The TCK period put in place is the one asked for, raised to the 33 ns
/// floor, and the clock frequency is the number of whole periods in a second:
/// `f * p <= 10^9 < (f + 1) * p`.
pub proof fn lemma_tck_clock(period_ns: u32)
    ensures
        mpsse_tck(period_ns).0 == if period_ns < 33 { 33 } else { period_ns },
        mpsse_tck(period_ns).1 as int * mpsse_tck(period_ns).0 as int <= 1_000_000_000,
        1_000_000_000 < (mpsse_tck(period_ns).1 as int + 1) * mpsse_tck(period_ns).0 as int,
{
    let p: int = if period_ns < 33 { 33 } else { period_ns as int };
    let q: int = 1_000_000_000int / p;
    vstd::arithmetic::div_mod::lemma_fundamental_div_mod(1_000_000_000int, p);
    vstd::arithmetic::div_mod::lemma_mod_bound(1_000_000_000int, p);
    vstd::arithmetic::div_mod::lemma_div_pos_is_pos(1_000_000_000int, p);
    assert(q * 33 <= 1_000_000_000) by (nonlinear_arith)
        requires
            p >= 33,
            q >= 0,
            p * q + 1_000_000_000int % p == 1_000_000_000int,
            1_000_000_000int % p >= 0,
    ;
    assert(q as u32 as int == q);
    assert(q * p <= 1_000_000_000 < (q + 1) * p) by (nonlinear_arith)
        requires
            p * q + 1_000_000_000int % p == 1_000_000_000int,
            0 <= 1_000_000_000int % p < p,
    ;
}

/// Bit 0 of a TMS-pin command's data byte is the TMS level, bit 7 the TDI
/// level, and no other bit is set.
pub proof fn lemma_pin_data_bits(tms: bool, tdi: bool)
    ensures
        (mpsse_pin_data(tms, tdi) & 0x01u8 == 0x01u8) == tms,
        (mpsse_pin_data(tms, tdi) & 0x80u8 == 0x80u8) == tdi,
        mpsse_pin_data(tms, tdi) & 0x7eu8 == 0u8,
{
    let b = mpsse_pin_data(tms, tdi);
    if tms && tdi {
        assert(b == 0x81u8);
        assert(0x81u8 & 0x01u8 == 0x01u8 && 0x81u8 & 0x80u8 == 0x80u8 && 0x81u8 & 0x7eu8 == 0u8) by (bit_vector);
    } else if tms {
        assert(b == 0x01u8);
        assert(0x01u8 & 0x01u8 == 0x01u8 && 0x01u8 & 0x80u8 == 0u8 && 0x01u8 & 0x7eu8 == 0u8) by (bit_vector);
    } else if tdi {
        assert(b == 0x80u8);
        assert(0x80u8 & 0x01u8 == 0u8 && 0x80u8 & 0x80u8 == 0x80u8 && 0x80u8 & 0x7eu8 == 0u8) by (bit_vector);
    } else {
        assert(b == 0u8);
        assert(0u8 & 0x01u8 == 0u8 && 0u8 & 0x80u8 == 0u8 && 0u8 & 0x7eu8 == 0u8) by (bit_vector);
    }
}

/// TMS is low over the whole of a chunk that starts and ends on byte
/// boundaries: every TMS byte it covers is zero.
pub open spec fn chunk_tms_low_bytes(tms: Seq<u8>, start: int, n: int) -> bool {
    &&& start % 8 == 0
    &&& n % 8 == 0
    &&& forall|k: int| start / 8 <= k < (start + n) / 8 ==> tms[k] == 0u8
}

/// How a chunk of `n` bits from `start` goes out and comes back. It is sent as
/// one byte command (0x39, byte count less one, the TDI bytes) exactly when it
/// starts and ends on byte boundaries and every TMS byte it covers is zero; in
/// particular never when any of its TMS bits is set. Otherwise every bit goes
/// out as its own TMS-pin command (0x6B, 0x00, data) whose data byte carries
/// that bit's TMS level in bit 0, its TDI level in bit 7 and nothing else.
/// Either way send-immediate (0x87) ends it. The chip answers with one byte per
/// covered byte in the first case, whose bits are the TDO levels LSB first, and
/// with one byte per bit otherwise, whose bit 7 is the TDO level.
pub proof fn lemma_chunk_command_shape(tms: Seq<u8>, tdi: Seq<u8>, start: int, n: int, rx: Seq<u8>)
    requires
        0 < n <= MPSSE_CHUNK_BITS,
        0 <= start,
        start + n <= 8 * tms.len(),
        start + n <= 8 * tdi.len(),
    ensures
        ({
            let c = mpsse_chunk_command(tms, tdi, start, n);
            let bytes = chunk_tms_low_bytes(tms, start, n);
            let smp = mpsse_chunk_samples(tms, start, n, rx);
            &&& (c[0] == 0x39u8) == bytes
            &&& (exists|j: int| start <= j < start + n && #[trigger] bit_of(tms, j)) ==> c[0] == 0x6bu8
            &&& c[c.len() - 1] == 0x87u8
            &&& smp.len() == n
            &&& bytes ==> {
                &&& c.len() == n / 8 + 4
                &&& c[1] as int + 256 * (c[2] as int) == n / 8 - 1
                &&& forall|k: int| 0 <= k < n / 8 ==> #[trigger] c[3 + k] == tdi[start / 8 + k]
                &&& mpsse_chunk_reply_len(tms, start, n) == n / 8
                &&& forall|k: int| 0 <= k < n ==> #[trigger] smp[k] == bit_of(rx, k)
            }
            &&& !bytes ==> {
                &&& c.len() == 3 * n + 1
                &&& mpsse_chunk_reply_len(tms, start, n) == n
                &&& forall|i: int|
                    0 <= i < n ==> {
                        &&& #[trigger] c[3 * i] == 0x6bu8
                        &&& c[3 * i + 1] == 0u8
                        &&& (c[3 * i + 2] & 0x01u8 == 0x01u8) == bit_of(tms, start + i)
                        &&& (c[3 * i + 2] & 0x80u8 == 0x80u8) == bit_of(tdi, start + i)
                        &&& c[3 * i + 2] & 0x7eu8 == 0u8
                    }
                &&& forall|k: int| 0 <= k < n ==> #[trigger] smp[k] == (rx[k] & 0x80u8 == 0x80u8)
            }
        }),
{
    let c = mpsse_chunk_command(tms, tdi, start, n);
    let bytes = chunk_tms_low_bytes(tms, start, n);
    assert(bytes == mpsse_byte_mode(tms, start, n)) by {
        if start % 8 == 0 && n % 8 == 0 {
            assert((start + n) / 8 == start / 8 + n / 8);
        }
    }
    if exists|j: int| start <= j < start + n && #[trigger] bit_of(tms, j) {
        let j = choose|j: int| start <= j < start + n && #[trigger] bit_of(tms, j);
        if bytes {
            assert(start / 8 <= j / 8 < (start + n) / 8);
            let b = tms[j / 8];
            let sh = (j % 8) as u8;
            assert(b == 0u8);
            assert((0u8 >> sh) & 1u8 == 0u8) by (bit_vector);
            assert(false);
        }
    }
    if bytes {
        let fb = n / 8;
        assert(c[0] == 0x39u8);
        assert(((fb - 1) % 256) as u8 as int + 256 * (((fb - 1) / 256) as u8 as int) == fb - 1);
        assert forall|k: int| 0 <= k < n / 8 implies #[trigger] c[3 + k] == tdi[start / 8 + k] by {}
        assert forall|k: int| 0 <= k < n implies #[trigger] mpsse_chunk_samples(tms, start, n, rx)[k]
            == bit_of(rx, k) by {}
    } else {
        assert forall|i: int| 0 <= i < n implies {
            &&& #[trigger] c[3 * i] == 0x6bu8
            &&& c[3 * i + 1] == 0u8
            &&& (c[3 * i + 2] & 0x01u8 == 0x01u8) == bit_of(tms, start + i)
            &&& (c[3 * i + 2] & 0x80u8 == 0x80u8) == bit_of(tdi, start + i)
            &&& c[3 * i + 2] & 0x7eu8 == 0u8
        } by {
            assert((3 * i) % 3 == 0 && (3 * i) / 3 == i);
            assert((3 * i + 1) % 3 == 1 && (3 * i + 1) / 3 == i);
            assert((3 * i + 2) % 3 == 2 && (3 * i + 2) / 3 == i);
            lemma_pin_data_bits(bit_of(tms, start + i), bit_of(tdi, start + i));
        }
        assert(c[0] == 0x6bu8) by {
            assert((3 * 0) % 3 == 0);
        }
        assert forall|k: int| 0 <= k < n implies #[trigger] mpsse_chunk_samples(tms, start, n, rx)[k] == (
        rx[k] & 0x80u8 == 0x80u8) by {
            let b = rx[k];
            assert(((b >> 7u8) & 1u8 == 1u8) == (b & 0x80u8 == 0x80u8)) by (bit_vector);
        }
    }
}

/// Whether TMS is low in all of `tms[from..from + count]`.
fn tms_bytes_low(tms: &[u8], from: usize, count: usize) -> (low: bool)
    requires
        from + count <= tms@.len(),
    ensures
        low == forall|k: int| from <= k < from + count ==> tms@[k] == 0,
{
    let _ = tms.len();
    let end = from + count;
    let mut k = from;
    while k < end
        invariant
            from <= k <= end,
            end == from + count,
            end <= tms@.len(),
            forall|m: int| from <= m < k ==> tms@[m] == 0,
        decreases end - k,
    {
        if tms[k] != 0 {
            return false;
        }
        k = k + 1;
    }
    true
}

/// The MPSSE commands that clock bits `start .. start + n`, and whether they
/// use byte mode.
pub fn mpsse_chunk_command_bytes(tms: &[u8], tdi: &[u8], start: u32, n: u32) -> (r: (Vec<u8>, bool))
    requires
        0 < n <= MPSSE_CHUNK_BITS,
        start + n <= 8 * tms@.len(),
        start + n <= 8 * tdi@.len(),
        start + n <= u32::MAX,
    ensures
        r.0@ == mpsse_chunk_command(tms@, tdi@, start as int, n as int),
        r.1 == mpsse_byte_mode(tms@, start as int, n as int),
{
    let full_bytes = (n / 8) as usize;
    let start_byte = (start / 8) as usize;
    let mut byte_mode = n % 8 == 0 && start % 8 == 0;
    if byte_mode {
        byte_mode = tms_bytes_low(tms, start_byte, full_bytes);
    }
    let mut cmd: Vec<u8> = Vec::new();
    if byte_mode {
        let len_minus_1 = (full_bytes - 1) as u16;
        cmd.push(MPSSE_CLOCK_BYTES_INOUT);
        cmd.push((len_minus_1 & 0xFFu16) as u8);
        cmd.push((len_minus_1 >> 8u16) as u8);
        assert((len_minus_1 & 0xFFu16) as u8 == (len_minus_1 % 256) as u8 && (len_minus_1 >> 8u16) as u8
            == (len_minus_1 / 256) as u8) by (bit_vector);
        let data = slice_subrange(tdi, start_byte, start_byte + full_bytes);
        let ghost head = cmd@;
        let mut i: usize = 0;
        while i < data.len()
            invariant
                i <= data@.len(),
                cmd@ == head + data@.subrange(0, i as int),
            decreases data@.len() - i,
        {
            cmd.push(data[i]);
            i = i + 1;
            assert(cmd@ =~= head + data@.subrange(0, i as int));
        }
        cmd.push(MPSSE_SEND_IMMEDIATE);
        assert(cmd@ =~= mpsse_chunk_command(tms@, tdi@, start as int, n as int));
    } else {
        let mut i: u32 = 0;
        while i < n
            invariant
                i <= n,
                start + n <= 8 * tms@.len(),
                start + n <= 8 * tdi@.len(),
                start + n <= u32::MAX,
                cmd@ == Seq::new(
                    (3 * i) as nat,
                    |j: int|
                        if j % 3 == 0 {
                            0x6bu8
                        } else if j % 3 == 1 {
                            0x00u8
                        } else {
                            mpsse_pin_data(bit_of(tms@, start + j / 3), bit_of(tdi@, start + j / 3))
                        },
                ),
            decreases n - i,
        {
            let bit = start + i;
            let tms_val = bit_at(tms, bit);
            let tdi_val = bit_at(tdi, bit);
            proof {
                lemma_pin_data(tms_val, tdi_val);
            }
            let pin_data = (tdi_val << 7u8) | tms_val;
            cmd.push(MPSSE_CLOCK_TMS_INOUT);
            cmd.push(0x00);
            cmd.push(pin_data);
            i = i + 1;
            assert(cmd@ =~= Seq::new(
                (3 * i) as nat,
                |j: int|
                    if j % 3 == 0 {
                        0x6bu8
                    } else if j % 3 == 1 {
                        0x00u8
                    } else {
                        mpsse_pin_data(bit_of(tms@, start + j / 3), bit_of(tdi@, start + j / 3))
                    },
            ));
        }
        cmd.push(MPSSE_SEND_IMMEDIATE);
    }
    (cmd, byte_mode)
}

/// Copies the reply bytes of a byte-mode chunk into `tdo` from byte `start_byte` on.
fn copy_reply_bytes(tdo: &mut [u8], rx: &[u8], start_byte: usize)
    requires
        start_byte + rx@.len() <= old(tdo)@.len(),
    ensures
        final(tdo)@.len() == old(tdo)@.len(),
        forall|k: int| 0 <= k < old(tdo)@.len() ==> #[trigger] final(tdo)@[k] == if start_byte <= k < start_byte
            + rx@.len() {
            rx@[k - start_byte]
        } else {
            old(tdo)@[k]
        },
{
    let _ = tdo.len();
    let mut i: usize = 0;
    while i < rx.len()
        invariant
            i <= rx@.len(),
            start_byte + rx@.len() <= old(tdo)@.len(),
            old(tdo)@.len() <= usize::MAX,
            tdo@.len() == old(tdo)@.len(),
            forall|k: int| 0 <= k < tdo@.len() ==> #[trigger] tdo@[k] == if start_byte <= k < start_byte + i {
                rx@[k - start_byte]
            } else {
                old(tdo)@[k]
            },
        decreases rx@.len() - i,
    {
        tdo[start_byte + i] = rx[i];
        i = i + 1;
    }
}

/// ORs bit 7 of each of the `n` reply bytes into bits `start .. start + n` of `tdo`.
fn or_msb_samples(tdo: &mut [u8], rx: &[u8], start: u32, n: u32)
    requires
        rx@.len() == n,
        start + n <= 8 * old(tdo)@.len(),
        start + n <= u32::MAX,
    ensures
        final(tdo)@.len() == old(tdo)@.len(),
        forall|j: int|
            0 <= j < 8 * old(tdo)@.len() ==> #[trigger] bit_of(final(tdo)@, j) == (bit_of(old(tdo)@, j) || (
            start <= j < start + n && (rx@[j - start] >> 7u8) & 1u8 == 1u8)),
{
    let mut i: u32 = 0;
    while i < n
        invariant
            i <= n,
            rx@.len() == n,
            start + n <= 8 * old(tdo)@.len(),
            start + n <= u32::MAX,
            tdo@.len() == old(tdo)@.len(),
            forall|j: int|
                0 <= j < 8 * old(tdo)@.len() ==> #[trigger] bit_of(tdo@, j) == (bit_of(old(tdo)@, j) || (start
                    <= j < start + i && (rx@[j - start] >> 7u8) & 1u8 == 1u8)),
        decreases n - i,
    {
        let v = (rx[i as usize] >> 7u8) & 1u8;
        or_bit(tdo, start + i, v == 1);
        i = i + 1;
    }
}

/// One `shift` through the MPSSE engine, in chunks of at most
/// [`MPSSE_CHUNK_BITS`] bits. For each chunk the caller writes the commands from
/// [`MpsseShift::next_chunk`], reads exactly [`MpsseShift::expected_rx_len`]
/// bytes back and hands them to [`MpsseShift::complete_chunk`].
pub struct MpsseShift {
    bits: u32,
    processed: u32,
    chunk_bits: u32,
    byte_mode: bool,
    tms: Vec<u8>,
    tdi: Vec<u8>,
    tdo: Vec<u8>,
    samples: Ghost<Seq<bool>>,
}

impl MpsseShift {
    pub closed spec fn total_bits(&self) -> u32 {
        self.bits
    }

    /// Bits whose TDO level is known.
    pub closed spec fn processed(&self) -> u32 {
        self.processed
    }

    /// Bits of the chunk in flight; zero when none is.
    pub closed spec fn chunk_bits(&self) -> u32 {
        self.chunk_bits
    }

    pub closed spec fn tms(&self) -> Seq<u8> {
        self.tms@
    }

    pub closed spec fn tdi(&self) -> Seq<u8> {
        self.tdi@
    }

    pub closed spec fn tdo(&self) -> Seq<u8> {
        self.tdo@
    }

    /// The TDO levels sampled so far, one per processed bit.
    pub closed spec fn samples(&self) -> Seq<bool> {
        self.samples@
    }

    pub closed spec fn wf(&self) -> bool {
        &&& self.processed <= self.bits
        &&& self.chunk_bits <= self.bits - self.processed
        &&& self.chunk_bits <= MPSSE_CHUNK_BITS
        &&& self.bits <= 8 * self.tms@.len()
        &&& self.bits <= 8 * self.tdi@.len()
        &&& self.bits <= 8 * self.tdo@.len()
        &&& self.samples@.len() == self.processed
        &&& self.bits > 0 ==> holds_bits(self.tdo@, self.samples@)
        &&& self.chunk_bits > 0 ==> self.byte_mode == mpsse_byte_mode(
            self.tms@,
            self.processed as int,
            self.chunk_bits as int,
        )
    }

    /// Starts a shift of `bits` bits. A shift of zero bits leaves `tdo` as it
    /// is; any other starts from an all-zero `tdo`.
    pub fn new(bits: u32, tms: Vec<u8>, tdi: Vec<u8>, tdo: Vec<u8>) -> (s: Self)
        requires
            bits <= 8 * tms@.len(),
            bits <= 8 * tdi@.len(),
            bits <= 8 * tdo@.len(),
        ensures
            s.wf(),
            s.total_bits() == bits,
            s.processed() == 0,
            s.chunk_bits() == 0,
            s.tms() == tms@,
            s.tdi() == tdi@,
            s.tdo().len() == tdo@.len(),
            s.samples() == Seq::<bool>::empty(),
            bits == 0 ==> s.tdo() == tdo@,
            bits > 0 ==> forall|i: int| 0 <= i < tdo@.len() ==> s.tdo()[i] == 0,
            bits > 0 ==> holds_bits(s.tdo(), s.samples()),
    {
        let mut tdo = tdo;
        if bits > 0 {
            let mut i: usize = 0;
            let ghost len = tdo@.len();
            while i < tdo.len()
                invariant
                    i <= tdo@.len(),
                    tdo@.len() == len,
                    forall|k: int| 0 <= k < i ==> tdo@[k] == 0,
                decreases tdo@.len() - i,
            {
                tdo.set(i, 0);
                i = i + 1;
            }
            assert forall|j: int| 0 <= j < 8 * tdo@.len() implies #[trigger] bit_of(tdo@, j) == (j
                < Seq::<bool>::empty().len() && Seq::<bool>::empty()[j]) by {
                let b = tdo@[j / 8];
                let sh = (j % 8) as u8;
                assert(b == 0);
                assert((0u8 >> sh) & 1u8 == 0u8) by (bit_vector);
            }
        }
        MpsseShift {
            bits,
            processed: 0,
            chunk_bits: 0,
            byte_mode: false,
            tms,
            tdi,
            tdo,
            samples: Ghost(Seq::empty()),
        }
    }

    /// Whether every bit has been clocked and sampled.
    pub fn is_done(&self) -> (done: bool)
        requires
            self.wf(),
        ensures
            done == (self.processed() == self.total_bits()),
    {
        self.processed == self.bits
    }

    /// Starts the next chunk: the commands to write for it, or `None` when
    /// every bit has been processed.
    pub fn next_chunk(&mut self) -> (cmd: Option<Vec<u8>>)
        requires
            old(self).wf(),
            old(self).chunk_bits() == 0,
        ensures
            final(self).wf(),
            final(self).total_bits() == old(self).total_bits(),
            final(self).processed() == old(self).processed(),
            final(self).tms() == old(self).tms(),
            final(self).tdi() == old(self).tdi(),
            final(self).tdo() == old(self).tdo(),
            final(self).samples() == old(self).samples(),
            old(self).processed() == old(self).total_bits() ==> cmd is None && final(self).chunk_bits() == 0,
            old(self).processed() < old(self).total_bits() ==> {
                let chunk = final(self).chunk_bits();
                &&& chunk as int == if old(self).total_bits() - old(self).processed() < MPSSE_CHUNK_BITS {
                    old(self).total_bits() - old(self).processed()
                } else {
                    MPSSE_CHUNK_BITS as int
                }
                &&& cmd matches Some(c) && c@ == mpsse_chunk_command(
                    old(self).tms(),
                    old(self).tdi(),
                    old(self).processed() as int,
                    chunk as int,
                )
            },
    {
        if self.processed == self.bits {
            return None;
        }
        let remaining = self.bits - self.processed;
        let chunk = if remaining < MPSSE_CHUNK_BITS {
            remaining
        } else {
            MPSSE_CHUNK_BITS
        };
        let (cmd, byte_mode) = mpsse_chunk_command_bytes(
            self.tms.as_slice(),
            self.tdi.as_slice(),
            self.processed,
            chunk,
        );
        self.chunk_bits = chunk;
        self.byte_mode = byte_mode;
        Some(cmd)
    }

    /// Bytes the chip sends back for the chunk in flight.
    pub fn expected_rx_len(&self) -> (n: usize)
        requires
            self.wf(),
        ensures
            self.chunk_bits() > 0 ==> n == mpsse_chunk_reply_len(
                self.tms(),
                self.processed() as int,
                self.chunk_bits() as int,
            ),
    {
        if self.byte_mode {
            (self.chunk_bits / 8) as usize
        } else {
            self.chunk_bits as usize
        }
    }

    /// Takes in the reply to the chunk in flight and closes the chunk.
    pub fn complete_chunk(&mut self, rx: &[u8])
        requires
            old(self).wf(),
            old(self).chunk_bits() > 0,
            rx@.len() == mpsse_chunk_reply_len(
                old(self).tms(),
                old(self).processed() as int,
                old(self).chunk_bits() as int,
            ),
        ensures
            final(self).wf(),
            final(self).total_bits() == old(self).total_bits(),
            final(self).processed() == old(self).processed() + old(self).chunk_bits(),
            final(self).chunk_bits() == 0,
            final(self).tms() == old(self).tms(),
            final(self).tdi() == old(self).tdi(),
            final(self).samples() == old(self).samples() + mpsse_chunk_samples(
                old(self).tms(),
                old(self).processed() as int,
                old(self).chunk_bits() as int,
                rx@,
            ),
            final(self).tdo().len() == old(self).tdo().len(),
            final(self).total_bits() > 0 ==> holds_bits(final(self).tdo(), final(self).samples()),
    {
        let chunk = self.chunk_bits;
        let start = self.processed;
        let ghost new_samples = mpsse_chunk_samples(self.tms@, start as int, chunk as int, rx@);
        let ghost old_tdo = self.tdo@;
        let ghost all = self.samples@ + new_samples;
        if self.byte_mode {
            let start_byte = (start / 8) as usize;
            copy_reply_bytes(self.tdo.as_mut_slice(), rx, start_byte);
            assert forall|j: int| 0 <= j < 8 * self.tdo@.len() implies #[trigger] bit_of(self.tdo@, j)
                == (j < all.len() && all[j]) by {
                assert(bit_of(old_tdo, j) == (j < self.samples@.len() && self.samples@[j]));
                if start <= j < start + chunk {
                    assert((j - start) / 8 == j / 8 - start_byte);
                    assert((j - start) % 8 == j % 8);
                    assert(new_samples[j - start] == bit_of(rx@, j - start));
                } else if j >= start + chunk {
                    assert(j / 8 >= start_byte + rx@.len());
                }
            }
        } else {
            or_msb_samples(self.tdo.as_mut_slice(), rx, start, chunk);
            assert forall|j: int| 0 <= j < 8 * self.tdo@.len() implies #[trigger] bit_of(self.tdo@, j)
                == (j < all.len() && all[j]) by {
                assert(bit_of(old_tdo, j) == (j < self.samples@.len() && self.samples@[j]));
            }
        }
        self.samples = Ghost(all);
        self.processed = start + chunk;
        self.chunk_bits = 0;
    }

    /// The TDO vector built so far.
    pub fn tdo_bytes(&self) -> (t: &[u8])
        ensures
            t@ == self.tdo(),
    {
        self.tdo.as_slice()
    }

    /// Once every bit is processed, one TDO level has been sampled per bit and
    /// the TDO vector holds exactly those levels, with zero in every bit past
    /// the last one.
    pub proof fn lemma_complete_shift(&self)
        requires
            self.wf(),
            self.chunk_bits() == 0,
            self.processed() == self.total_bits(),
        ensures
            self.samples().len() == self.total_bits(),
            self.total_bits() > 0 ==> holds_bits(self.tdo(), self.samples()),
    {
    }
}

/// `b` with its bit order reversed.
pub open spec fn reverse_bits_spec(b: u8) -> u8 {
    ((b & 0x01u8) << 7u8) | ((b & 0x02u8) << 5u8) | ((b & 0x04u8) << 3u8) | ((b & 0x08u8) << 1u8)
        | ((b & 0x10u8) >> 1u8) | ((b & 0x20u8) >> 3u8) | ((b & 0x40u8) >> 5u8) | ((b & 0x80u8) >> 7u8)
}

/// The IDCODE at the head of a scan-chain read-out: the first four TDO bytes,
/// each with its bit order reversed, read as a big-endian `u32`. `None` when
/// fewer than four bytes came back.
pub open spec fn spec_scan_idcode(tdo: Seq<u8>) -> Option<u32> {
    if tdo.len() < 4 {
        None
    } else {
        Some(
            ((reverse_bits_spec(tdo[0]) as u32) << 24u32) | ((reverse_bits_spec(tdo[1]) as u32)
                << 16u32) | ((reverse_bits_spec(tdo[2]) as u32) << 8u32) | (reverse_bits_spec(
                tdo[3],
            ) as u32),
        )
    }
}

/// Reverses the bit order of a byte.
pub fn mirror_byte(b: u8) -> (m: u8)
    ensures
        m == reverse_bits_spec(b),
        forall|i: u8| i < 8 ==> (#[trigger] ((m >> i) & 1u8)) == (b >> ((7 - i) as u8)) & 1u8,
{
    let m = ((b & 0x01u8) << 7u8) | ((b & 0x02u8) << 5u8) | ((b & 0x04u8) << 3u8) | ((b & 0x08u8) << 1u8)
        | ((b & 0x10u8) >> 1u8) | ((b & 0x20u8) >> 3u8) | ((b & 0x40u8) >> 5u8) | ((b & 0x80u8) >> 7u8);
    assert forall|i: u8| i < 8 implies (#[trigger] ((m >> i) & 1u8)) == (b >> ((7 - i) as u8)) & 1u8 by {
        assert(i < 8 ==> ((m >> i) & 1u8) == (b >> ((7 - i) as u8)) & 1u8) by (bit_vector)
            requires
                m == ((b & 0x01u8) << 7u8) | ((b & 0x02u8) << 5u8) | ((b & 0x04u8) << 3u8) | ((b
                    & 0x08u8) << 1u8) | ((b & 0x10u8) >> 1u8) | ((b & 0x20u8) >> 3u8) | ((b & 0x40u8)
                    >> 5u8) | ((b & 0x80u8) >> 7u8),
        ;
    }
    m
}

/// Extracts the IDCODE from the first four bytes of a TDO read-out.
pub fn scan_idcode(tdo: &[u8]) -> (id: Option<u32>)
    ensures
        id == spec_scan_idcode(tdo@),
{
    if tdo.len() < 4 {
        return None;
    }
    let b0 = mirror_byte(tdo[0]);
    let b1 = mirror_byte(tdo[1]);
    let b2 = mirror_byte(tdo[2]);
    let b3 = mirror_byte(tdo[3]);
    Some(((b0 as u32) << 24u32) | ((b1 as u32) << 16u32) | ((b2 as u32) << 8u32) | (b3 as u32))
}

} // verus!
