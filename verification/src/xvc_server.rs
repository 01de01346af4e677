//! The XVC 1.0 protocol as served by the daemon: framing of the byte stream
//! into `getinfo:`, `settck:` and `shift:` requests, and the replies to them.

use crate::bits::bytes_for_bits;
use crate::codec::{encode_u32_le, le_bytes, le_u32, lemma_le_bytes_of_value, lemma_le_roundtrip, read_u32_le};
use vstd::prelude::*;
use vstd::slice::{slice_subrange, slice_to_vec};

verus! {

/// `xvcServer_v1.0:2048\n`: protocol version and the largest shift vector size.
pub open spec fn spec_xvc_info() -> Seq<u8> {
    seq![
        0x78u8, 0x76u8, 0x63u8, 0x53u8, 0x65u8, 0x72u8, 0x76u8, 0x65u8, 0x72u8, 0x5fu8,
        0x76u8, 0x31u8, 0x2eu8, 0x30u8, 0x3au8, 0x32u8, 0x30u8, 0x34u8, 0x38u8, 0x0au8,
    ]
}

/// `getinfo:`
pub open spec fn getinfo_token() -> Seq<u8> {
    seq![0x67u8, 0x65u8, 0x74u8, 0x69u8, 0x6eu8, 0x66u8, 0x6fu8, 0x3au8]
}

/// `settck:`
pub open spec fn settck_token() -> Seq<u8> {
    seq![0x73u8, 0x65u8, 0x74u8, 0x74u8, 0x63u8, 0x6bu8, 0x3au8]
}

/// `shift:`
pub open spec fn shift_token() -> Seq<u8> {
    seq![0x73u8, 0x68u8, 0x69u8, 0x66u8, 0x74u8, 0x3au8]
}

/// Size of the lookahead window: bytes that start with no known token are
/// still waited on while the buffer holds no more than this many.
pub open spec fn lookahead_window() -> int {
    16
}

pub open spec fn starts_with(s: Seq<u8>, t: Seq<u8>) -> bool {
    t.len() <= s.len() && s.subrange(0, t.len() as int) == t
}

/// A request of the XVC protocol, as a mathematical value.
pub enum XvcRequest {
    GetInfo,
    SetTck(u32),
    Shift(u32, Seq<u8>, Seq<u8>),
}

/// A request whose TMS and TDI vectors each hold exactly the bytes its bit count needs.
pub open spec fn request_wf(r: XvcRequest) -> bool {
    match r {
        XvcRequest::Shift(n, tms, tdi) => tms.len() == bytes_for_bits(n as int) && tdi.len()
            == bytes_for_bits(n as int),
        _ => true,
    }
}

/// The bytes a client sends for request `r`.
pub open spec fn encode_request(r: XvcRequest) -> Seq<u8> {
    match r {
        XvcRequest::GetInfo => getinfo_token(),
        XvcRequest::SetTck(p) => settck_token() + le_bytes(p),
        XvcRequest::Shift(n, tms, tdi) => shift_token() + le_bytes(n) + tms + tdi,
    }
}

/// What the front of a receive buffer holds.
pub enum FrameParse {
    /// A whole request, taking up this many bytes.
    Complete(XvcRequest, int),
    /// Not enough bytes yet.
    Incomplete,
    /// More than the lookahead window of bytes that start with no known token.
    Misaligned,
}

pub open spec fn parse_frame(s: Seq<u8>) -> FrameParse {
    if s.len() == 0 {
        FrameParse::Incomplete
    } else if starts_with(s, getinfo_token()) {
        FrameParse::Complete(XvcRequest::GetInfo, 8)
    } else if starts_with(s, settck_token()) {
        if s.len() < 11 {
            FrameParse::Incomplete
        } else {
            FrameParse::Complete(XvcRequest::SetTck(le_u32(s.subrange(7, 11))), 11)
        }
    } else if starts_with(s, shift_token()) {
        if s.len() < 10 {
            FrameParse::Incomplete
        } else {
            let n = le_u32(s.subrange(6, 10));
            let bl = bytes_for_bits(n as int);
            if s.len() < 10 + 2 * bl {
                FrameParse::Incomplete
            } else {
                FrameParse::Complete(
                    XvcRequest::Shift(n, s.subrange(10, 10 + bl), s.subrange(10 + bl, 10 + 2 * bl)),
                    10 + 2 * bl,
                )
            }
        }
    } else if s.len() > lookahead_window() {
        FrameParse::Misaligned
    } else {
        FrameParse::Incomplete
    }
}

/// A well-formed request, followed by anything, is decoded as that request,
/// taking up exactly its own encoding.
pub proof fn lemma_frame_roundtrip(r: XvcRequest, rest: Seq<u8>)
    requires
        request_wf(r),
    ensures
        parse_frame(encode_request(r) + rest) == FrameParse::Complete(r, encode_request(r).len() as int),
{
    let s = encode_request(r) + rest;
    match r {
        XvcRequest::GetInfo => {
            assert(s.subrange(0, 8) =~= getinfo_token());
        },
        XvcRequest::SetTck(p) => {
            lemma_le_roundtrip(p);
            assert(!starts_with(s, getinfo_token())) by {
                assert(s.subrange(0, 8)[0] != getinfo_token()[0]);
            }
            assert(s.subrange(0, 7) =~= settck_token());
            assert(s.subrange(7, 11) =~= le_bytes(p));
        },
        XvcRequest::Shift(n, tms, tdi) => {
            lemma_le_roundtrip(n);
            let bl = bytes_for_bits(n as int);
            assert(!starts_with(s, getinfo_token())) by {
                assert(s.subrange(0, 8)[0] != getinfo_token()[0]);
            }
            assert(!starts_with(s, settck_token())) by {
                assert(s.subrange(0, 7)[1] != settck_token()[1]);
            }
            assert(s.subrange(0, 6) =~= shift_token());
            assert(s.subrange(6, 10) =~= le_bytes(n));
            assert(s.subrange(10, 10 + bl) =~= tms);
            assert(s.subrange(10 + bl, 10 + 2 * bl) =~= tdi);
        },
    }
}

/// A decoded request does not change when more bytes arrive behind it: how the
/// stream is cut into reads does not matter.
pub proof fn lemma_frame_extension(s: Seq<u8>, more: Seq<u8>)
    ensures
        parse_frame(s) is Complete ==> parse_frame(s + more) == parse_frame(s),
        parse_frame(s) is Misaligned ==> parse_frame(s + more) is Misaligned,
{
    let t = s + more;
    if s.len() > 0 {
        assert(starts_with(s, getinfo_token()) ==> starts_with(t, getinfo_token())) by {
            if 8 <= s.len() {
                assert(t.subrange(0, 8) =~= s.subrange(0, 8));
            }
        }
        assert(starts_with(s, settck_token()) ==> starts_with(t, settck_token())) by {
            if 7 <= s.len() {
                assert(t.subrange(0, 7) =~= s.subrange(0, 7));
            }
        }
        assert(starts_with(s, shift_token()) ==> starts_with(t, shift_token())) by {
            if 6 <= s.len() {
                assert(t.subrange(0, 6) =~= s.subrange(0, 6));
            }
        }
        assert(!starts_with(s, getinfo_token()) && s.len() >= 8 ==> !starts_with(t, getinfo_token())) by {
            if s.len() >= 8 {
                assert(t.subrange(0, 8) =~= s.subrange(0, 8));
            }
        }
        assert(!starts_with(s, settck_token()) && s.len() >= 7 ==> !starts_with(t, settck_token())) by {
            if s.len() >= 7 {
                assert(t.subrange(0, 7) =~= s.subrange(0, 7));
            }
        }
        assert(!starts_with(s, shift_token()) && s.len() >= 6 ==> !starts_with(t, shift_token())) by {
            if s.len() >= 6 {
                assert(t.subrange(0, 6) =~= s.subrange(0, 6));
            }
        }
        if s.len() >= 11 {
            assert(t.subrange(7, 11) =~= s.subrange(7, 11));
        }
        if s.len() >= 10 {
            assert(t.subrange(6, 10) =~= s.subrange(6, 10));
            let n = le_u32(s.subrange(6, 10));
            let bl = bytes_for_bits(n as int);
            if s.len() >= 10 + 2 * bl {
                assert(t.subrange(10, 10 + bl) =~= s.subrange(10, 10 + bl));
                assert(t.subrange(10 + bl, 10 + 2 * bl) =~= s.subrange(10 + bl, 10 + 2 * bl));
            }
        }
    }
}

/// Every proper prefix of a well-formed request is waited on, never rejected.
pub proof fn lemma_frame_prefix_incomplete(r: XvcRequest, k: int)
    requires
        request_wf(r),
        0 <= k < encode_request(r).len(),
    ensures
        parse_frame(encode_request(r).subrange(0, k)) is Incomplete,
{
    let e = encode_request(r);
    let p = e.subrange(0, k);
    match r {
        XvcRequest::GetInfo => {
            if k > 0 {
                assert(!starts_with(p, settck_token())) by {
                    if 7 <= k {
                        assert(p.subrange(0, 7)[0] != settck_token()[0]);
                    }
                }
                assert(!starts_with(p, shift_token())) by {
                    if 6 <= k {
                        assert(p.subrange(0, 6)[0] != shift_token()[0]);
                    }
                }
            }
        },
        XvcRequest::SetTck(p_ns) => {
            if k > 0 {
                assert(!starts_with(p, getinfo_token())) by {
                    if 8 <= k {
                        assert(p.subrange(0, 8)[0] != getinfo_token()[0]);
                    }
                }
                if k >= 7 {
                    assert(p.subrange(0, 7) =~= settck_token());
                } else {
                    assert(!starts_with(p, shift_token())) by {
                        if 6 <= k {
                            assert(p.subrange(0, 6)[1] != shift_token()[1]);
                        }
                    }
                }
            }
        },
        XvcRequest::Shift(n, tms, tdi) => {
            lemma_le_roundtrip(n);
            if k > 0 {
                assert(!starts_with(p, getinfo_token())) by {
                    if 8 <= k {
                        assert(p.subrange(0, 8)[0] != getinfo_token()[0]);
                    }
                }
                assert(!starts_with(p, settck_token())) by {
                    if 7 <= k {
                        assert(p.subrange(0, 7)[1] != settck_token()[1]);
                    }
                }
                if k >= 6 {
                    assert(p.subrange(0, 6) =~= shift_token());
                    if k >= 10 {
                        assert(p.subrange(6, 10) =~= le_bytes(n));
                    }
                }
            }
        },
    }
}

/// A decoded request, encoded again, gives back exactly the bytes it was decoded from.
pub proof fn lemma_frame_reencode(s: Seq<u8>)
    ensures
        parse_frame(s) matches FrameParse::Complete(r, n) ==> request_wf(r) && 0 < n <= s.len()
            && encode_request(r) == s.subrange(0, n),
{
    if let FrameParse::Complete(r, n) = parse_frame(s) {
        match r {
            XvcRequest::GetInfo => {
                assert(s.subrange(0, 8) =~= getinfo_token());
            },
            XvcRequest::SetTck(p) => {
                lemma_le_bytes_of_value(s.subrange(7, 11));
                assert(s.subrange(0, 11) =~= settck_token() + s.subrange(7, 11));
            },
            XvcRequest::Shift(nb, tms, tdi) => {
                lemma_le_bytes_of_value(s.subrange(6, 10));
                let bl = bytes_for_bits(nb as int);
                assert(s.subrange(0, 10 + 2 * bl) =~= shift_token() + s.subrange(6, 10) + s.subrange(
                    10,
                    10 + bl,
                ) + s.subrange(10 + bl, 10 + 2 * bl));
            },
        }
    }
}

/// A decoded request.
pub enum XvcCommand {
    GetInfo,
    SetTck { period_ns: u32 },
    Shift { num_bits: u32, tms: Vec<u8>, tdi: Vec<u8> },
}

impl View for XvcCommand {
    type V = XvcRequest;

    open spec fn view(&self) -> XvcRequest {
        match self {
            XvcCommand::GetInfo => XvcRequest::GetInfo,
            XvcCommand::SetTck { period_ns } => XvcRequest::SetTck(*period_ns),
            XvcCommand::Shift { num_bits, tms, tdi } => XvcRequest::Shift(*num_bits, tms@, tdi@),
        }
    }
}

/// The outcome of looking at the front of a receive buffer.
pub enum FrameOutcome {
    Complete(XvcCommand, usize),
    Incomplete,
    Misaligned,
}

impl View for FrameOutcome {
    type V = FrameParse;

    open spec fn view(&self) -> FrameParse {
        match self {
            FrameOutcome::Complete(c, n) => FrameParse::Complete(c@, *n as int),
            FrameOutcome::Incomplete => FrameParse::Incomplete,
            FrameOutcome::Misaligned => FrameParse::Misaligned,
        }
    }
}

/// The `getinfo:` reply.
pub fn xvc_info_string() -> (s: Vec<u8>)
    ensures
        s@ == spec_xvc_info(),
{
    let s: Vec<u8> = vec![
        0x78u8, 0x76u8, 0x63u8, 0x53u8, 0x65u8, 0x72u8, 0x76u8, 0x65u8, 0x72u8, 0x5fu8,
        0x76u8, 0x31u8, 0x2eu8, 0x30u8, 0x3au8, 0x32u8, 0x30u8, 0x34u8, 0x38u8, 0x0au8,
    ];
    assert(s@ =~= spec_xvc_info());
    s
}

/// Whether `s` begins with `t`.
pub fn has_prefix(s: &[u8], t: &[u8]) -> (r: bool)
    ensures
        r == starts_with(s@, t@),
{
    if t.len() > s.len() {
        return false;
    }
    let mut i: usize = 0;
    while i < t.len()
        invariant
            t@.len() <= s@.len(),
            i <= t@.len(),
            forall|k: int| 0 <= k < i ==> s@[k] == t@[k],
        decreases t@.len() - i,
    {
        if s[i] != t[i] {
            assert(s@.subrange(0, t@.len() as int)[i as int] != t@[i as int]);
            return false;
        }
        i = i + 1;
    }
    assert(s@.subrange(0, t@.len() as int) =~= t@);
    true
}

/// Number of bytes that hold `bits` bits, without overflow.
pub fn byte_len_for_bits(bits: u32) -> (n: usize)
    ensures
        n as int == bytes_for_bits(bits as int),
        n <= 0x2000_0000,
{
    let whole = (bits / 8) as usize;
    if bits % 8 != 0 {
        whole + 1
    } else {
        whole
    }
}

/// Decodes the request at the front of `buf`, or says why none can be yet.
pub fn parse_xvc_frame(buf: &[u8]) -> (r: FrameOutcome)
    ensures
        r@ == parse_frame(buf@),
{
    let getinfo: Vec<u8> = vec![0x67u8, 0x65u8, 0x74u8, 0x69u8, 0x6eu8, 0x66u8, 0x6fu8, 0x3au8];
    let settck: Vec<u8> = vec![0x73u8, 0x65u8, 0x74u8, 0x74u8, 0x63u8, 0x6bu8, 0x3au8];
    let shift: Vec<u8> = vec![0x73u8, 0x68u8, 0x69u8, 0x66u8, 0x74u8, 0x3au8];
    assert(getinfo@ =~= getinfo_token());
    assert(settck@ =~= settck_token());
    assert(shift@ =~= shift_token());
    if buf.len() == 0 {
        FrameOutcome::Incomplete
    } else if has_prefix(buf, getinfo.as_slice()) {
        FrameOutcome::Complete(XvcCommand::GetInfo, 8)
    } else if has_prefix(buf, settck.as_slice()) {
        if buf.len() < 11 {
            FrameOutcome::Incomplete
        } else {
            let field = slice_subrange(buf, 7, 11);
            let period_ns = read_u32_le(field);
            FrameOutcome::Complete(XvcCommand::SetTck { period_ns }, 11)
        }
    } else if has_prefix(buf, shift.as_slice()) {
        if buf.len() < 10 {
            FrameOutcome::Incomplete
        } else {
            let field = slice_subrange(buf, 6, 10);
            let num_bits = read_u32_le(field);
            let bl = byte_len_for_bits(num_bits);
            if buf.len() - 10 < 2 * bl {
                FrameOutcome::Incomplete
            } else {
                let tms = slice_to_vec(slice_subrange(buf, 10, 10 + bl));
                let tdi = slice_to_vec(slice_subrange(buf, 10 + bl, 10 + 2 * bl));
                FrameOutcome::Complete(XvcCommand::Shift { num_bits, tms, tdi }, 10 + 2 * bl)
            }
        }
    } else if buf.len() > 16 {
        FrameOutcome::Misaligned
    } else {
        FrameOutcome::Incomplete
    }
}

/// Bytes received from a client and not yet taken up by a request.
pub struct XvcFrameBuffer {
    buf: Vec<u8>,
}

impl View for XvcFrameBuffer {
    type V = Seq<u8>;

    closed spec fn view(&self) -> Seq<u8> {
        self.buf@
    }
}

/// What the buffer offers next.
pub enum XvcStep {
    Request(XvcCommand),
    NeedMore,
    Misaligned,
}

impl XvcFrameBuffer {
    pub fn new() -> (b: Self)
        ensures
            b@ == Seq::<u8>::empty(),
    {
        XvcFrameBuffer { buf: Vec::new() }
    }

    pub fn len(&self) -> (n: usize)
        ensures
            n == self@.len(),
    {
        self.buf.len()
    }

    /// Appends freshly received bytes.
    pub fn push_bytes(&mut self, data: &[u8])
        ensures
            final(self)@ == old(self)@ + data@,
    {
        let mut i: usize = 0;
        while i < data.len()
            invariant
                i <= data@.len(),
                self.buf@ == old(self)@ + data@.subrange(0, i as int),
            decreases data@.len() - i,
        {
            self.buf.push(data[i]);
            i = i + 1;
            assert(self.buf@ =~= old(self)@ + data@.subrange(0, i as int));
        }
        assert(data@.subrange(0, data@.len() as int) =~= data@);
    }

    /// Takes the request at the front of the buffer, if a whole one is there.
    pub fn next_step(&mut self) -> (r: XvcStep)
        ensures
            match parse_frame(old(self)@) {
                FrameParse::Complete(req, n) => r matches XvcStep::Request(c) && c@ == req
                    && final(self)@ == old(self)@.skip(n),
                FrameParse::Incomplete => r is NeedMore && final(self)@ == old(self)@,
                FrameParse::Misaligned => r is Misaligned && final(self)@ == old(self)@,
            },
    {
        proof {
            lemma_frame_reencode(self.buf@);
        }
        match parse_xvc_frame(self.buf.as_slice()) {
            FrameOutcome::Complete(cmd, n) => {
                let rest = self.buf.split_off(n);
                self.buf = rest;
                XvcStep::Request(cmd)
            },
            FrameOutcome::Incomplete => XvcStep::NeedMore,
            FrameOutcome::Misaligned => XvcStep::Misaligned,
        }
    }
}

/// What the hardware answered to a request, as a mathematical value.
pub enum XvcReplyValue {
    Info,
    Period(u32),
    Tdo(Seq<u8>),
}

/// What the hardware answered to a request.
pub enum XvcReply {
    Info,
    Period(u32),
    Tdo(Vec<u8>),
}

impl View for XvcReply {
    type V = XvcReplyValue;

    open spec fn view(&self) -> XvcReplyValue {
        match self {
            XvcReply::Info => XvcReplyValue::Info,
            XvcReply::Period(p) => XvcReplyValue::Period(*p),
            XvcReply::Tdo(t) => XvcReplyValue::Tdo(t@),
        }
    }
}

/// The bytes sent back for a reply.
pub open spec fn encode_reply(r: XvcReplyValue) -> Seq<u8> {
    match r {
        XvcReplyValue::Info => spec_xvc_info(),
        XvcReplyValue::Period(p) => le_bytes(p),
        XvcReplyValue::Tdo(t) => t,
    }
}

/// A reply of the kind the request calls for: the info string for `getinfo:`,
/// a period for `settck:`, and one TDO byte per started group of eight bits for `shift:`.
pub open spec fn reply_answers(q: XvcRequest, r: XvcReplyValue) -> bool {
    match q {
        XvcRequest::GetInfo => r is Info,
        XvcRequest::SetTck(_) => r is Period,
        XvcRequest::Shift(n, _, _) => r matches XvcReplyValue::Tdo(t) && t.len() == bytes_for_bits(
            n as int,
        ),
    }
}

/// The bytes sent back for a reply.
pub fn reply_bytes(r: &XvcReply) -> (out: Vec<u8>)
    ensures
        out@ == encode_reply(r@),
{
    match r {
        XvcReply::Info => xvc_info_string(),
        XvcReply::Period(p) => encode_u32_le(*p),
        XvcReply::Tdo(t) => {
            let out = t.clone();
            assert(out@ =~= t@);
            out
        },
    }
}

/// The requests a client stream holds, in order, up to the first point where
/// no whole request can be decoded.
pub open spec fn stream_requests(s: Seq<u8>) -> Seq<XvcRequest>
    decreases s.len(),
{
    match parse_frame(s) {
        FrameParse::Complete(r, n) => if 0 < n <= s.len() {
            seq![r] + stream_requests(s.skip(n))
        } else {
            seq![]
        },
        _ => seq![],
    }
}

/// Whether the stream, after its last whole request, runs into misaligned bytes.
pub open spec fn stream_misaligned(s: Seq<u8>) -> bool
    decreases s.len(),
{
    match parse_frame(s) {
        FrameParse::Complete(r, n) => if 0 < n <= s.len() {
            stream_misaligned(s.skip(n))
        } else {
            false
        },
        FrameParse::Misaligned => true,
        FrameParse::Incomplete => false,
    }
}

/// The bytes sent back for a sequence of replies.
pub open spec fn encode_replies(rs: Seq<XvcReplyValue>) -> Seq<u8>
    decreases rs.len(),
{
    if rs.len() == 0 {
        seq![]
    } else {
        encode_replies(rs.drop_last()) + encode_reply(rs.last())
    }
}

/// A call made on a JTAG adapter, as a mathematical value.
pub enum JtagCall {
    /// `set_tck_period`: the period asked for and the period returned.
    SetTck(u32, u32),
    /// `shift`: the bit count, TMS, TDI, the TDO buffer as handed in and as it
    /// came back, and what the call returned.
    Shift(u32, Seq<u8>, Seq<u8>, Seq<u8>, Seq<u8>, Result<(), String>),
}

/// A JTAG adapter: sets the TCK period and clocks bit vectors through the chain.
pub trait JtagController: Send + Sync {
    /// The calls made on this adapter so far, oldest first. An adapter that
    /// keeps no such record leaves it empty, and then cannot be verified
    /// against the methods below.
    closed spec fn history(&self) -> Seq<JtagCall> {
        Seq::empty()
    }

    /// Asks for a TCK period in nanoseconds; returns the period put in place.
    fn set_tck_period(&mut self, period_ns: u32) -> (p: u32)
        ensures
            final(self).history() == old(self).history().push(JtagCall::SetTck(period_ns, p)),
    ;

    /// Clocks `bits` bits of TMS and TDI out (LSB first) and fills `tdo` with
    /// the bits sampled on TDO.
    fn shift(&mut self, bits: u32, tms: &[u8], tdi: &[u8], tdo: &mut [u8]) -> (r: Result<(), String>)
        ensures
            final(tdo)@.len() == old(tdo)@.len(),
            final(self).history() == old(self).history().push(
                JtagCall::Shift(bits, tms@, tdi@, old(tdo)@, final(tdo)@, r),
            ),
    ;
}

/// `n` zero bytes.
pub open spec fn zero_bytes(n: int) -> Seq<u8> {
    Seq::new(n as nat, |i: int| 0u8)
}

/// What a request asks of the adapter, as a mathematical value.
pub enum JtagAction {
    Nothing,
    SetTck(u32),
    /// Bit count, TMS, TDI and the TDO buffer handed to the adapter.
    Shift(u32, Seq<u8>, Seq<u8>, Seq<u8>),
}

/// `getinfo:` needs no hardware; `settck:` passes its period on; `shift:`
/// passes its bit count, TMS and TDI on, with an all-zero TDO buffer of one
/// byte per started group of eight bits.
pub open spec fn action_of(q: XvcRequest) -> JtagAction {
    match q {
        XvcRequest::GetInfo => JtagAction::Nothing,
        XvcRequest::SetTck(p) => JtagAction::SetTck(p),
        XvcRequest::Shift(n, tms, tdi) => JtagAction::Shift(n, tms, tdi, zero_bytes(bytes_for_bits(n as int))),
    }
}

/// What a request asks of the adapter.
pub enum HardwareAction {
    Nothing,
    SetTck { period_ns: u32 },
    Shift { num_bits: u32, tms: Vec<u8>, tdi: Vec<u8>, tdo: Vec<u8> },
}

impl View for HardwareAction {
    type V = JtagAction;

    open spec fn view(&self) -> JtagAction {
        match self {
            HardwareAction::Nothing => JtagAction::Nothing,
            HardwareAction::SetTck { period_ns } => JtagAction::SetTck(*period_ns),
            HardwareAction::Shift { num_bits, tms, tdi, tdo } => JtagAction::Shift(*num_bits, tms@, tdi@, tdo@),
        }
    }
}

/// What the adapter answered to an action.
pub enum HardwareAnswer {
    /// Nothing was asked of it.
    Done,
    /// The period put in place.
    Period(u32),
    /// The TDO buffer as the shift left it, and what the shift returned.
    Shifted { tdo: Vec<u8>, result: Result<(), String> },
}

/// Whether `ans` is of the kind that action `a` gets back.
pub open spec fn answer_fits(a: JtagAction, ans: HardwareAnswer) -> bool {
    match a {
        JtagAction::Nothing => ans is Done,
        JtagAction::SetTck(_) => ans is Period,
        JtagAction::Shift(_, _, _, t0) => ans matches HardwareAnswer::Shifted { tdo, .. } && tdo@.len() == t0.len(),
    }
}

/// The call on the adapter that carrying out action `a` with answer `ans` amounts to.
pub open spec fn answer_calls(a: JtagAction, ans: HardwareAnswer) -> Seq<JtagCall> {
    match (a, ans) {
        (JtagAction::SetTck(p), HardwareAnswer::Period(q)) => seq![JtagCall::SetTck(p, q)],
        (JtagAction::Shift(n, tms, tdi, t0), HardwareAnswer::Shifted { tdo, result }) => seq![
            JtagCall::Shift(n, tms, tdi, t0, tdo@, result),
        ],
        _ => seq![],
    }
}

/// What the server does after the adapter answered: reply, or close the
/// session because a shift failed.
pub enum XvcResponse {
    Reply(XvcReply),
    ShiftFailed(String),
}

/// The action the adapter has to carry out for `cmd`.
pub fn hardware_action(cmd: &XvcCommand) -> (a: HardwareAction)
    ensures
        a@ == action_of(cmd@),
{
    match cmd {
        XvcCommand::GetInfo => HardwareAction::Nothing,
        XvcCommand::SetTck { period_ns } => HardwareAction::SetTck { period_ns: *period_ns },
        XvcCommand::Shift { num_bits, tms, tdi } => {
            let len = byte_len_for_bits(*num_bits);
            let tdo: Vec<u8> = vec![0u8; len];
            let tms_copy = tms.clone();
            let tdi_copy = tdi.clone();
            assert(tms_copy@ =~= tms@);
            assert(tdi_copy@ =~= tdi@);
            assert(tdo@ =~= zero_bytes(bytes_for_bits(*num_bits as int)));
            HardwareAction::Shift { num_bits: *num_bits, tms: tms_copy, tdi: tdi_copy, tdo }
        },
    }
}

/// The reply to send for what the adapter answered: the info string when
/// nothing was asked of it, the period it put in place, or the TDO bits it
/// sampled; a failed shift gets no reply and closes the session with its error.
pub fn respond(answer: HardwareAnswer) -> (r: XvcResponse)
    ensures
        match answer {
            HardwareAnswer::Done => r matches XvcResponse::Reply(XvcReply::Info),
            HardwareAnswer::Period(p) => r matches XvcResponse::Reply(XvcReply::Period(q)) && q == p,
            HardwareAnswer::Shifted { tdo, result } => match result {
                Ok(_) => r matches XvcResponse::Reply(XvcReply::Tdo(t)) && t@ == tdo@,
                Err(e) => r == XvcResponse::ShiftFailed(e),
            },
        },
{
    match answer {
        HardwareAnswer::Done => XvcResponse::Reply(XvcReply::Info),
        HardwareAnswer::Period(p) => XvcResponse::Reply(XvcReply::Period(p)),
        HardwareAnswer::Shifted { tdo, result } => match result {
            Ok(()) => XvcResponse::Reply(XvcReply::Tdo(tdo)),
            Err(e) => XvcResponse::ShiftFailed(e),
        },
    }
}

/// Carries out `action` on the adapter: one call for a period or a shift, none otherwise.
fn perform<T: JtagController>(hardware: &mut T, action: HardwareAction) -> (ans: HardwareAnswer)
    ensures
        answer_fits(action@, ans),
        final(hardware).history() == old(hardware).history() + answer_calls(action@, ans),
{
    match action {
        HardwareAction::Nothing => {
            assert(old(hardware).history() + seq![] =~= old(hardware).history());
            HardwareAnswer::Done
        },
        HardwareAction::SetTck { period_ns } => {
            let p = hardware.set_tck_period(period_ns);
            assert(old(hardware).history().push(JtagCall::SetTck(period_ns, p)) =~= old(hardware).history()
                + seq![JtagCall::SetTck(period_ns, p)]);
            HardwareAnswer::Period(p)
        },
        HardwareAction::Shift { num_bits, tms, tdi, tdo } => {
            let mut tdo = tdo;
            let ghost t0 = tdo@;
            let result = hardware.shift(num_bits, tms.as_slice(), tdi.as_slice(), tdo.as_mut_slice());
            let ghost call = JtagCall::Shift(num_bits, tms@, tdi@, t0, tdo@, result);
            assert(old(hardware).history().push(call) =~= old(hardware).history() + seq![call]);
            HardwareAnswer::Shifted { tdo, result }
        },
    }
}

/// Requests decoded from the bytes received so far are never revised by bytes
/// received later, and a misaligned stream stays misaligned.
pub proof fn lemma_stream_prefix(s: Seq<u8>, t: Seq<u8>)
    ensures
        stream_requests(s).len() <= stream_requests(s + t).len(),
        stream_requests(s + t).subrange(0, stream_requests(s).len() as int) == stream_requests(s),
        stream_misaligned(s) ==> stream_misaligned(s + t) && stream_requests(s + t) == stream_requests(s),
    decreases s.len(),
{
    lemma_frame_extension(s, t);
    lemma_frame_reencode(s);
    match parse_frame(s) {
        FrameParse::Complete(r, n) => {
            assert((s + t).skip(n) =~= s.skip(n) + t);
            lemma_stream_prefix(s.skip(n), t);
            let a = stream_requests(s.skip(n));
            let b = stream_requests((s + t).skip(n));
            assert(stream_requests(s + t) == seq![r] + b);
            assert(stream_requests(s) == seq![r] + a);
            assert((seq![r] + b).subrange(0, a.len() + 1int) =~= seq![r] + b.subrange(0, a.len() as int));
        },
        FrameParse::Misaligned => {},
        FrameParse::Incomplete => {},
    }
}

/// The bytes a client sends for a sequence of requests.
pub open spec fn encode_requests(rs: Seq<XvcRequest>) -> Seq<u8>
    decreases rs.len(),
{
    if rs.len() == 0 {
        seq![]
    } else {
        encode_request(rs[0]) + encode_requests(rs.drop_first())
    }
}

/// A client stream of well-formed requests is decoded into exactly those
/// requests, in order, and never found misaligned.
pub proof fn lemma_stream_roundtrip(rs: Seq<XvcRequest>)
    requires
        forall|i: int| 0 <= i < rs.len() ==> request_wf(#[trigger] rs[i]),
    ensures
        stream_requests(encode_requests(rs)) == rs,
        !stream_misaligned(encode_requests(rs)),
    decreases rs.len(),
{
    if rs.len() == 0 {
        assert(encode_requests(rs) =~= Seq::<u8>::empty());
    } else {
        let head = encode_request(rs[0]);
        let tail = encode_requests(rs.drop_first());
        assert(forall|i: int| 0 <= i < rs.drop_first().len() ==> request_wf(#[trigger] rs.drop_first()[i])) by {
            assert forall|i: int| 0 <= i < rs.drop_first().len() implies request_wf(#[trigger] rs.drop_first()[i]) by {
                assert(rs.drop_first()[i] == rs[i + 1]);
            }
        }
        lemma_stream_roundtrip(rs.drop_first());
        lemma_frame_roundtrip(rs[0], tail);
        assert((head + tail).skip(head.len() as int) =~= tail);
        assert(rs =~= seq![rs[0]] + rs.drop_first());
    }
}

/// The bytes of a stream left over after its last whole request.
pub open spec fn stream_rest(s: Seq<u8>) -> Seq<u8>
    decreases s.len(),
{
    match parse_frame(s) {
        FrameParse::Complete(r, n) => if 0 < n <= s.len() {
            stream_rest(s.skip(n))
        } else {
            s
        },
        _ => s,
    }
}

/// Decoding loses nothing: the decoded requests, encoded again, followed by the
/// left-over bytes give back the stream; and the left-over bytes hold no whole
/// request.
pub proof fn lemma_stream_rest(s: Seq<u8>)
    ensures
        encode_requests(stream_requests(s)) + stream_rest(s) == s,
        !(parse_frame(stream_rest(s)) is Complete),
    decreases s.len(),
{
    lemma_frame_reencode(s);
    match parse_frame(s) {
        FrameParse::Complete(r, n) => {
            lemma_stream_rest(s.skip(n));
            let rs = stream_requests(s);
            assert(rs == seq![r] + stream_requests(s.skip(n)));
            assert(rs.drop_first() =~= stream_requests(s.skip(n)));
            assert(encode_requests(rs) == encode_request(r) + encode_requests(stream_requests(s.skip(n))));
            assert(s =~= s.subrange(0, n) + s.skip(n));
        },
        _ => {
            assert(encode_requests(stream_requests(s)) =~= Seq::<u8>::empty());
            assert(Seq::<u8>::empty() + s =~= s);
        },
    }
}

/// Encoding one more request appends its encoding.
proof fn lemma_encode_requests_push(rs: Seq<XvcRequest>, r: XvcRequest)
    ensures
        encode_requests(rs.push(r)) == encode_requests(rs) + encode_request(r),
    decreases rs.len(),
{
    if rs.len() == 0 {
        assert(rs.push(r).drop_first() =~= Seq::<XvcRequest>::empty());
        assert(encode_requests(Seq::<XvcRequest>::empty()) =~= Seq::<u8>::empty());
        assert(encode_requests(rs.push(r)) =~= encode_request(r));
    } else {
        lemma_encode_requests_push(rs.drop_first(), r);
        assert(rs.push(r).drop_first() =~= rs.drop_first().push(r));
        assert(rs.push(r)[0] == rs[0]);
        assert(encode_requests(rs.push(r)) =~= encode_request(rs[0]) + (encode_requests(rs.drop_first())
            + encode_request(r)));
    }
}

/// Bytes that start with the encodings of well-formed requests decode into
/// those requests first, then into what the rest holds.
proof fn lemma_stream_after_encoded(rs: Seq<XvcRequest>, x: Seq<u8>)
    requires
        forall|i: int| 0 <= i < rs.len() ==> request_wf(#[trigger] rs[i]),
    ensures
        stream_requests(encode_requests(rs) + x) == rs + stream_requests(x),
        stream_misaligned(encode_requests(rs) + x) == stream_misaligned(x),
        stream_rest(encode_requests(rs) + x) == stream_rest(x),
    decreases rs.len(),
{
    if rs.len() == 0 {
        assert(encode_requests(rs) + x =~= x);
        assert(rs + stream_requests(x) =~= stream_requests(x));
    } else {
        let head = encode_request(rs[0]);
        let tail = encode_requests(rs.drop_first());
        assert forall|i: int| 0 <= i < rs.drop_first().len() implies request_wf(#[trigger] rs.drop_first()[i]) by {
            assert(rs.drop_first()[i] == rs[i + 1]);
        }
        lemma_stream_after_encoded(rs.drop_first(), x);
        lemma_frame_roundtrip(rs[0], tail + x);
        let s = encode_requests(rs) + x;
        assert(s =~= head + (tail + x));
        assert(s.skip(head.len() as int) =~= tail + x);
        assert(rs =~= seq![rs[0]] + rs.drop_first());
        assert(stream_requests(s) == seq![rs[0]] + stream_requests(tail + x));
        assert(rs + stream_requests(x) =~= seq![rs[0]] + (rs.drop_first() + stream_requests(x)));
    }
}

/// What the requests of a stream ask of the adapter, in order.
pub open spec fn stream_actions(s: Seq<u8>) -> Seq<JtagAction> {
    stream_requests(s).map_values(|q: XvcRequest| action_of(q))
}

/// However the input is cut into reads, the same requests come out, and so the
/// adapter is asked for the same things in the same order: the requests of the
/// first part, then those of its left-over bytes followed by the second part,
/// are the requests of the whole; and the whole is misaligned exactly when the
/// left-over bytes followed by the second part are.
pub proof fn lemma_stream_split(s1: Seq<u8>, s2: Seq<u8>)
    ensures
        stream_requests(s1) + stream_requests(stream_rest(s1) + s2) == stream_requests(s1 + s2),
        stream_actions(s1) + stream_actions(stream_rest(s1) + s2) == stream_actions(s1 + s2),
        stream_misaligned(stream_rest(s1) + s2) == stream_misaligned(s1 + s2),
    decreases s1.len(),
{
    lemma_frame_extension(s1, s2);
    lemma_frame_reencode(s1);
    match parse_frame(s1) {
        FrameParse::Complete(r, n) => {
            assert((s1 + s2).skip(n) =~= s1.skip(n) + s2);
            lemma_stream_split(s1.skip(n), s2);
            assert(stream_requests(s1) == seq![r] + stream_requests(s1.skip(n)));
            assert(stream_requests(s1 + s2) == seq![r] + stream_requests(s1.skip(n) + s2));
            assert(stream_requests(s1) + stream_requests(stream_rest(s1) + s2) =~= seq![r] + (stream_requests(
                s1.skip(n),
            ) + stream_requests(stream_rest(s1.skip(n)) + s2)));
        },
        FrameParse::Misaligned => {
            assert(stream_requests(s1) =~= Seq::<XvcRequest>::empty());
        },
        FrameParse::Incomplete => {
            assert(stream_requests(s1) =~= Seq::<XvcRequest>::empty());
        },
    }
    assert(stream_actions(s1) + stream_actions(stream_rest(s1) + s2) =~= stream_actions(s1 + s2));
}

/// A request together with the reply the hardware gave to it.
pub struct XvcExchange {
    pub request: XvcCommand,
    pub reply: XvcReply,
}

/// Why a session stopped.
pub enum XvcSessionEnd {
    /// The input ended (possibly inside an incomplete request).
    StreamEnded,
    /// More than the lookahead window of bytes started with no known token.
    Misaligned,
    /// The hardware failed a shift; the session is closed without a reply to it.
    ShiftFailed(String),
}

/// The course of a session: the requests answered, the bytes sent back, and why it stopped.
pub struct XvcSessionLog {
    pub exchanges: Vec<XvcExchange>,
    pub output: Vec<u8>,
    pub end: XvcSessionEnd,
}

pub open spec fn exchange_requests(ex: Seq<XvcExchange>) -> Seq<XvcRequest> {
    ex.map_values(|e: XvcExchange| e.request@)
}

pub open spec fn exchange_replies(ex: Seq<XvcExchange>) -> Seq<XvcReplyValue> {
    ex.map_values(|e: XvcExchange| e.reply@)
}

/// The adapter calls behind answering request `q` with reply `r`: none for
/// `getinfo:`; for `settck:` the period asked for and the period `r` carries;
/// for `shift:` the request's bits, an all-zero TDO buffer, the TDO bytes `r`
/// carries, and success.
pub open spec fn reply_calls(q: XvcRequest, r: XvcReplyValue) -> Seq<JtagCall> {
    match (action_of(q), r) {
        (JtagAction::SetTck(p), XvcReplyValue::Period(x)) => seq![JtagCall::SetTck(p, x)],
        (JtagAction::Shift(n, tms, tdi, t0), XvcReplyValue::Tdo(t)) => seq![
            JtagCall::Shift(n, tms, tdi, t0, t, Ok(())),
        ],
        _ => seq![],
    }
}

/// The adapter calls behind a sequence of exchanges, in order.
pub open spec fn exchange_calls(ex: Seq<XvcExchange>) -> Seq<JtagCall>
    decreases ex.len(),
{
    if ex.len() == 0 {
        seq![]
    } else {
        exchange_calls(ex.drop_last()) + reply_calls(ex.last().request@, ex.last().reply@)
    }
}

/// `c` is the adapter call of `shift:` request `q` that failed with error `e`:
/// the request's bits and an all-zero TDO buffer went in, and `e` came back.
pub open spec fn is_failed_shift(c: JtagCall, q: XvcRequest, e: String) -> bool {
    match (action_of(q), c) {
        (JtagAction::Shift(n, tms, tdi, t0), JtagCall::Shift(n2, tms2, tdi2, t02, _, r)) => n2 == n && tms2 == tms
            && tdi2 == tdi && t02 == t0 && r == Err::<(), String>(e),
        _ => false,
    }
}

/// `calls` is `done` followed by one failed call for `shift:` request `q`, which returned error `e`.
pub open spec fn ends_in_failed_shift(calls: Seq<JtagCall>, done: Seq<JtagCall>, q: XvcRequest, e: String) -> bool {
    &&& calls.len() == done.len() + 1
    &&& calls.drop_last() == done
    &&& is_failed_shift(calls.last(), q, e)
}

proof fn lemma_stream_step(s: Seq<u8>)
    ensures
        parse_frame(s) matches FrameParse::Complete(r, n) ==> 0 < n <= s.len() && stream_requests(s)
            == seq![r] + stream_requests(s.skip(n)) && stream_misaligned(s) == stream_misaligned(
            s.skip(n),
        ),
{
    lemma_frame_reencode(s);
}

/// What serving a session over `input` comes to, the adapter's record of calls
/// going from `h0` to `h1`: the requests answered are the stream's requests in
/// order, each with a reply of its kind; the bytes sent are those replies; the
/// adapter was called for the answered requests only, with exactly what they
/// carry, and each reply is what it gave back; the session ends with the input,
/// at misaligned bytes, or at a failed shift, which gets no reply.
pub open spec fn serves_stream(input: Seq<u8>, h0: Seq<JtagCall>, h1: Seq<JtagCall>, log: XvcSessionLog) -> bool {
    let reqs = stream_requests(input);
    let k = log.exchanges@.len();
    let done = h0 + exchange_calls(log.exchanges@);
    &&& k <= reqs.len()
    &&& exchange_requests(log.exchanges@) == reqs.subrange(0, k as int)
    &&& forall|i: int| 0 <= i < k ==> #[trigger] reply_answers(reqs[i], log.exchanges@[i].reply@)
    &&& log.output@ == encode_replies(exchange_replies(log.exchanges@))
    &&& match log.end {
        XvcSessionEnd::StreamEnded => k == reqs.len() && !stream_misaligned(input) && h1 == done,
        XvcSessionEnd::Misaligned => k == reqs.len() && stream_misaligned(input) && h1 == done,
        XvcSessionEnd::ShiftFailed(e) => k < reqs.len() && reqs[k as int] is Shift && ends_in_failed_shift(
            h1,
            done,
            reqs[k as int],
            e,
        ),
    }
}

/// Serves one client session over the whole of its input `input`, answering
/// each request with the hardware, in order.
pub fn process_xvc_stream<T: JtagController>(input: &[u8], hardware: &mut T) -> (log: XvcSessionLog)
    ensures
        serves_stream(input@, old(hardware).history(), final(hardware).history(), log),
{
    let mut pos: usize = 0;
    let mut exchanges: Vec<XvcExchange> = Vec::new();
    let mut output: Vec<u8> = Vec::new();
    let ghost reqs = stream_requests(input@);
    assert(input@.skip(0) =~= input@);
    assert(old(hardware).history() + exchange_calls(exchanges@) =~= old(hardware).history());
    loop
        invariant
            pos <= input@.len(),
            exchanges@.len() <= reqs.len(),
            reqs == stream_requests(input@),
            reqs == exchange_requests(exchanges@) + stream_requests(input@.skip(pos as int)),
            stream_misaligned(input@) == stream_misaligned(input@.skip(pos as int)),
            forall|i: int| 0 <= i < exchanges@.len() ==> #[trigger] reply_answers(reqs[i], exchanges@[i].reply@),
            output@ == encode_replies(exchange_replies(exchanges@)),
            hardware.history() == old(hardware).history() + exchange_calls(exchanges@),
        decreases input@.len() - pos,
    {
        let rest = slice_subrange(input, pos, input.len());
        assert(rest@ =~= input@.skip(pos as int));
        proof {
            lemma_stream_step(rest@);
        }
        match parse_xvc_frame(rest) {
            FrameOutcome::Complete(cmd, n) => {
                let ghost k = exchanges@.len();
                let ghost before_calls = hardware.history();
                assert(reqs[k as int] == cmd@);
                let action = hardware_action(&cmd);
                let answer = perform(hardware, action);
                let ghost ans = answer;
                let reply = match respond(answer) {
                    XvcResponse::Reply(reply) => reply,
                    XvcResponse::ShiftFailed(e) => {
                        assert(ans is Shifted);
                        assert(cmd@ is Shift);
                        assert(exchange_requests(exchanges@) == reqs.subrange(0, k as int));
                        assert(hardware.history().drop_last() =~= before_calls);
                        assert(ends_in_failed_shift(hardware.history(), before_calls, reqs[k as int], e));
                        return XvcSessionLog { exchanges, output, end: XvcSessionEnd::ShiftFailed(e) };
                    },
                };
                proof {
                    match ans {
                        HardwareAnswer::Done => {},
                        HardwareAnswer::Period(p) => {},
                        HardwareAnswer::Shifted { tdo, result } => {
                            assert(result is Ok);
                        assert(result->Ok_0 == ());
                        assert(result == Ok::<(), String>(()));
                            assert(reply@ == XvcReplyValue::Tdo(tdo@));
                        },
                    }
                }
                assert(reply_calls(cmd@, reply@) == answer_calls(action_of(cmd@), ans));
                assert(reply_answers(cmd@, reply@));
                let bytes = reply_bytes(&reply);
                let mut i: usize = 0;
                let ghost before = output@;
                while i < bytes.len()
                    invariant
                        i <= bytes@.len(),
                        output@ == before + bytes@.subrange(0, i as int),
                    decreases bytes@.len() - i,
                {
                    output.push(bytes[i]);
                    i = i + 1;
                    assert(output@ =~= before + bytes@.subrange(0, i as int));
                }
                assert(bytes@.subrange(0, bytes@.len() as int) =~= bytes@);
                let ghost old_ex = exchanges@;
                exchanges.push(XvcExchange { request: cmd, reply });
                proof {
                    assert(exchanges@.drop_last() =~= old_ex);
                    assert(exchange_replies(exchanges@).drop_last() =~= exchange_replies(old_ex));
                    assert(exchange_requests(exchanges@) =~= exchange_requests(old_ex) + seq![reqs[k as int]]);
                    assert(input@.skip(pos as int).skip(n as int) =~= input@.skip(pos + n));
                    assert(hardware.history() =~= old(hardware).history() + exchange_calls(exchanges@));
                }
                pos = pos + n;
            },
            FrameOutcome::Incomplete => {
                assert(exchange_requests(exchanges@) =~= reqs.subrange(0, exchanges@.len() as int));
                return XvcSessionLog { exchanges, output, end: XvcSessionEnd::StreamEnded };
            },
            FrameOutcome::Misaligned => {
                assert(exchange_requests(exchanges@) =~= reqs.subrange(0, exchanges@.len() as int));
                return XvcSessionLog { exchanges, output, end: XvcSessionEnd::Misaligned };
            },
        }
    }
}

/// What a session asks for next.
pub enum SessionStep {
    /// A whole request is in: carry out this action and hand the answer to
    /// [`XvcSession::answer`].
    Act(HardwareAction),
    /// Every whole request has been answered; more bytes are needed.
    NeedMore,
    /// The bytes after the last whole request start with no known token.
    Misaligned,
}

/// A client session fed with bytes as they arrive: it hands out, one request
/// at a time, what the request asks of the adapter, and turns the adapter's
/// answer into the reply.
pub struct XvcSession {
    frames: XvcFrameBuffer,
    pending: Option<XvcCommand>,
    open: bool,
    received: Ghost<Seq<u8>>,
    exchanges: Ghost<Seq<XvcExchange>>,
    output: Ghost<Seq<u8>>,
}

/// The request in flight, if any, as a sequence.
pub open spec fn pending_requests(p: Option<XvcRequest>) -> Seq<XvcRequest> {
    match p {
        Some(r) => seq![r],
        None => seq![],
    }
}

impl XvcSession {
    /// Every byte received so far, in order.
    pub closed spec fn received(&self) -> Seq<u8> {
        self.received@
    }

    /// The requests answered so far, each with its reply.
    pub closed spec fn exchanges(&self) -> Seq<XvcExchange> {
        self.exchanges@
    }

    /// Every byte of reply handed out so far.
    pub closed spec fn output(&self) -> Seq<u8> {
        self.output@
    }

    /// The request whose action is out and not yet answered.
    pub closed spec fn pending_request(&self) -> Option<XvcRequest> {
        match self.pending {
            Some(c) => Some(c@),
            None => None,
        }
    }

    /// Received bytes not yet taken up by a request.
    pub closed spec fn buffered(&self) -> Seq<u8> {
        self.frames@
    }

    /// False once a shift has failed: the session is over.
    pub closed spec fn is_open(&self) -> bool {
        self.open
    }

    pub closed spec fn wf(&self) -> bool {
        let taken = exchange_requests(self.exchanges@) + pending_requests(self.pending_request());
        &&& self.output@ == encode_replies(exchange_replies(self.exchanges@))
        &&& forall|i: int|
            0 <= i < self.exchanges@.len() ==> #[trigger] reply_answers(
                self.exchanges@[i].request@,
                self.exchanges@[i].reply@,
            )
        &&& self.open ==> {
            &&& forall|i: int| 0 <= i < taken.len() ==> request_wf(#[trigger] taken[i])
            &&& self.received@ == encode_requests(taken) + self.frames@
        }
    }

    proof fn lemma_taken(&self)
        requires
            self.wf(),
            self.is_open(),
        ensures
            stream_requests(self.received()) == exchange_requests(self.exchanges()) + pending_requests(
                self.pending_request(),
            ) + stream_requests(self.buffered()),
            stream_misaligned(self.received()) == stream_misaligned(self.buffered()),
            stream_rest(self.received()) == stream_rest(self.buffered()),
    {
        let taken = exchange_requests(self.exchanges@) + pending_requests(self.pending_request());
        lemma_stream_after_encoded(taken, self.frames@);
    }

    /// A session that has received nothing.
    pub fn new() -> (s: Self)
        ensures
            s.wf(),
            s.is_open(),
            s.received() == Seq::<u8>::empty(),
            s.exchanges() == Seq::<XvcExchange>::empty(),
            s.output() == Seq::<u8>::empty(),
            s.pending_request() is None,
    {
        let s = XvcSession {
            frames: XvcFrameBuffer::new(),
            pending: None,
            open: true,
            received: Ghost(Seq::empty()),
            exchanges: Ghost(Seq::empty()),
            output: Ghost(Seq::empty()),
        };
        proof {
            let taken = exchange_requests(s.exchanges@) + pending_requests(s.pending_request());
            assert(taken =~= Seq::<XvcRequest>::empty());
            assert(encode_requests(taken) =~= Seq::<u8>::empty());
            assert(s.received@ =~= encode_requests(taken) + s.frames@);
            assert(exchange_replies(s.exchanges@) =~= Seq::<XvcReplyValue>::empty());
        }
        s
    }

    /// Takes in bytes just received.
    pub fn push_bytes(&mut self, data: &[u8])
        requires
            old(self).wf(),
            old(self).is_open(),
        ensures
            final(self).wf(),
            final(self).is_open(),
            final(self).received() == old(self).received() + data@,
            final(self).exchanges() == old(self).exchanges(),
            final(self).output() == old(self).output(),
            final(self).pending_request() == old(self).pending_request(),
    {
        let ghost taken = exchange_requests(self.exchanges@) + pending_requests(self.pending_request());
        self.frames.push_bytes(data);
        self.received = Ghost(self.received@ + data@);
        assert(self.received@ =~= encode_requests(taken) + self.frames@);
    }

    /// What the session asks for next, once the previous request is answered.
    pub fn next_step(&mut self) -> (r: SessionStep)
        requires
            old(self).wf(),
            old(self).is_open(),
            old(self).pending_request() is None,
        ensures
            final(self).wf(),
            final(self).is_open(),
            final(self).received() == old(self).received(),
            final(self).exchanges() == old(self).exchanges(),
            final(self).output() == old(self).output(),
            ({
                let reqs = stream_requests(old(self).received());
                let k = old(self).exchanges().len();
                match r {
                    SessionStep::Act(a) => k < reqs.len() && a@ == action_of(reqs[k as int])
                        && final(self).pending_request() == Some(reqs[k as int]),
                    SessionStep::NeedMore => k == reqs.len() && !stream_misaligned(old(self).received())
                        && final(self).pending_request() is None,
                    SessionStep::Misaligned => k == reqs.len() && stream_misaligned(old(self).received())
                        && final(self).pending_request() is None,
                }
            }),
    {
        proof {
            self.lemma_taken();
            lemma_stream_step(self.frames@);
        }
        let ghost taken = exchange_requests(self.exchanges@);
        let ghost before = self.frames@;
        assert(taken + pending_requests(self.pending_request()) =~= taken);
        match self.frames.next_step() {
            XvcStep::Request(cmd) => {
                let ghost n = before.len() - self.frames@.len();
                proof {
                    lemma_frame_reencode(before);
                    lemma_encode_requests_push(taken, cmd@);
                    assert(before =~= before.subrange(0, n) + self.frames@);
                    assert(taken + pending_requests(Some(cmd@)) =~= taken.push(cmd@));
                    assert(self.received@ =~= encode_requests(taken.push(cmd@)) + self.frames@);
                    assert forall|i: int| 0 <= i < taken.push(cmd@).len() implies request_wf(
                        #[trigger] taken.push(cmd@)[i],
                    ) by {
                        if i < taken.len() {
                            assert(taken.push(cmd@)[i] == (taken + pending_requests(None))[i]);
                        }
                    }
                }
                let action = hardware_action(&cmd);
                self.pending = Some(cmd);
                SessionStep::Act(action)
            },
            XvcStep::NeedMore => SessionStep::NeedMore,
            XvcStep::Misaligned => SessionStep::Misaligned,
        }
    }

    /// Takes in the adapter's answer to the request in flight: hands back that
    /// request and either its reply, which the session records, or the error
    /// of a failed shift, which ends the session.
    pub fn answer(&mut self, ans: HardwareAnswer) -> (r: (XvcCommand, XvcResponse))
        requires
            old(self).wf(),
            old(self).is_open(),
            old(self).pending_request() matches Some(q) && answer_fits(action_of(q), ans),
        ensures
            final(self).wf(),
            final(self).received() == old(self).received(),
            final(self).pending_request() is None,
            Some(r.0@) == old(self).pending_request(),
            match r.1 {
                XvcResponse::Reply(reply) => {
                    &&& final(self).is_open()
                    &&& final(self).exchanges() == old(self).exchanges().push(
                        (XvcExchange { request: r.0, reply: reply }),
                    )
                    &&& final(self).output() == old(self).output() + encode_reply(reply@)
                    &&& reply_answers(r.0@, reply@)
                    &&& reply_calls(r.0@, reply@) == answer_calls(action_of(r.0@), ans)
                },
                XvcResponse::ShiftFailed(e) => {
                    &&& !final(self).is_open()
                    &&& final(self).exchanges() == old(self).exchanges()
                    &&& final(self).output() == old(self).output()
                    &&& r.0@ is Shift
                    &&& answer_calls(action_of(r.0@), ans).len() == 1
                    &&& is_failed_shift(answer_calls(action_of(r.0@), ans)[0], r.0@, e)
                },
            },
    {
        let cmd = self.pending.take().unwrap();
        let ghost ans_g = ans;
        let ghost taken = exchange_requests(self.exchanges@);
        let response = respond(ans);
        match response {
            XvcResponse::Reply(reply) => {
                proof {
                    match ans_g {
                        HardwareAnswer::Done => {},
                        HardwareAnswer::Period(p) => {},
                        HardwareAnswer::Shifted { tdo, result } => {
                            assert(result->Ok_0 == ());
                            assert(result == Ok::<(), String>(()));
                        },
                    }
                }
                let ghost ex = XvcExchange { request: cmd, reply: reply };
                let ghost old_ex = self.exchanges@;
                self.exchanges = Ghost(self.exchanges@.push(ex));
                self.output = Ghost(self.output@ + encode_reply(reply@));
                proof {
                    assert(self.exchanges@.drop_last() =~= old_ex);
                    assert(exchange_replies(self.exchanges@).drop_last() =~= exchange_replies(old_ex));
                    assert(exchange_requests(self.exchanges@) =~= taken.push(cmd@));
                    assert(exchange_requests(self.exchanges@) + pending_requests(None) =~= taken.push(cmd@));
                    assert(taken + pending_requests(Some(cmd@)) =~= taken.push(cmd@));
                    assert forall|i: int| 0 <= i < self.exchanges@.len() implies #[trigger] reply_answers(
                        self.exchanges@[i].request@,
                        self.exchanges@[i].reply@,
                    ) by {
                        if i < old_ex.len() {
                            assert(self.exchanges@[i] == old_ex[i]);
                        }
                    }
                }
                (cmd, XvcResponse::Reply(reply))
            },
            XvcResponse::ShiftFailed(e) => {
                self.open = false;
                (cmd, XvcResponse::ShiftFailed(e))
            },
        }
    }

    /// A session that has answered every whole request of what it received,
    /// in however many pieces that came, stands where serving the whole input
    /// at once ends: its exchanges are the requests of the input, in order,
    /// its replies those of [`process_xvc_stream`], and it keeps exactly the
    /// bytes after the last whole request.
    pub proof fn lemma_caught_up(&self)
        requires
            self.wf(),
            self.is_open(),
            self.pending_request() is None,
            self.exchanges().len() == stream_requests(self.received()).len(),
        ensures
            exchange_requests(self.exchanges()) == stream_requests(self.received()),
            forall|i: int|
                0 <= i < self.exchanges().len() ==> #[trigger] reply_answers(
                    stream_requests(self.received())[i],
                    self.exchanges()[i].reply@,
                ),
            self.output() == encode_replies(exchange_replies(self.exchanges())),
            self.buffered() == stream_rest(self.received()),
    {
        self.lemma_taken();
        let reqs = stream_requests(self.received());
        assert(exchange_requests(self.exchanges@) + pending_requests(None) =~= exchange_requests(self.exchanges@));
        assert(exchange_requests(self.exchanges@).len() == self.exchanges@.len());
        assert(stream_requests(self.buffered()).len() == 0);
        assert(reqs =~= exchange_requests(self.exchanges@));
        assert forall|i: int| 0 <= i < self.exchanges().len() implies #[trigger] reply_answers(
            stream_requests(self.received())[i],
            self.exchanges()[i].reply@,
        ) by {
            assert(exchange_requests(self.exchanges@)[i] == self.exchanges@[i].request@);
        }
        lemma_frame_reencode(self.frames@);
    }
}

/// The bytes of `pieces`, one after the other.
pub open spec fn concat_pieces(pieces: Seq<Vec<u8>>) -> Seq<u8>
    decreases pieces.len(),
{
    if pieces.len() == 0 {
        seq![]
    } else {
        concat_pieces(pieces.drop_last()) + pieces.last()@
    }
}

proof fn lemma_concat_split(pieces: Seq<Vec<u8>>, j: int)
    requires
        0 <= j <= pieces.len(),
    ensures
        concat_pieces(pieces) == concat_pieces(pieces.subrange(0, j)) + concat_pieces(
            pieces.subrange(j, pieces.len() as int),
        ),
    decreases pieces.len(),
{
    if j == pieces.len() {
        assert(pieces.subrange(0, j) =~= pieces);
        assert(pieces.subrange(j, pieces.len() as int) =~= Seq::<Vec<u8>>::empty());
        assert(concat_pieces(pieces) + Seq::<u8>::empty() =~= concat_pieces(pieces));
    } else {
        let p = pieces.drop_last();
        lemma_concat_split(p, j);
        assert(p.subrange(0, j) =~= pieces.subrange(0, j));
        let tail = pieces.subrange(j, pieces.len() as int);
        assert(tail.drop_last() =~= p.subrange(j, p.len() as int));
        assert(tail.last() == pieces.last());
        assert(concat_pieces(pieces) =~= concat_pieces(pieces.subrange(0, j)) + (concat_pieces(
            p.subrange(j, p.len() as int),
        ) + pieces.last()@));
    }
}

/// Serves one client session whose input arrives in `pieces`, as the daemon
/// reads it from its socket, and ends exactly as [`process_xvc_stream`] does on
/// the whole input at once: however the input is cut, the same requests are
/// answered, the same bytes sent back and the same calls made on the adapter.
pub fn serve_pieces<T: JtagController>(pieces: &[Vec<u8>], hardware: &mut T) -> (log: XvcSessionLog)
    ensures
        serves_stream(concat_pieces(pieces@), old(hardware).history(), final(hardware).history(), log),
{
    let ghost whole = concat_pieces(pieces@);
    let ghost h0 = hardware.history();
    let mut session = XvcSession::new();
    let mut exchanges: Vec<XvcExchange> = Vec::new();
    let mut output: Vec<u8> = Vec::new();
    let mut j: usize = 0;
    assert(pieces@.subrange(0, 0) =~= Seq::<Vec<u8>>::empty());
    assert(h0 + exchange_calls(exchanges@) =~= h0);
    while j < pieces.len()
        invariant
            j <= pieces@.len(),
            whole == concat_pieces(pieces@),
            h0 == old(hardware).history(),
            session.wf(),
            session.is_open(),
            session.pending_request() is None,
            session.received() == concat_pieces(pieces@.subrange(0, j as int)),
            session.exchanges() == exchanges@,
            session.output() == output@,
            exchange_requests(exchanges@) == stream_requests(session.received()),
            !stream_misaligned(session.received()),
            forall|i: int|
                0 <= i < exchanges@.len() ==> #[trigger] reply_answers(exchanges@[i].request@, exchanges@[i].reply@),
            output@ == encode_replies(exchange_replies(exchanges@)),
            hardware.history() == h0 + exchange_calls(exchanges@),
        decreases pieces@.len() - j,
    {
        let ghost before = session.received();
        session.push_bytes(pieces[j].as_slice());
        proof {
            assert(pieces@.subrange(0, j + 1).drop_last() =~= pieces@.subrange(0, j as int));
            lemma_stream_prefix(before, pieces@[j as int]@);
        }
        let ghost reqs = stream_requests(session.received());
        assert(exchange_requests(exchanges@) == reqs.subrange(0, exchanges@.len() as int));
        loop
            invariant
                session.wf(),
                session.is_open(),
                session.pending_request() is None,
                session.received() == concat_pieces(pieces@.subrange(0, j + 1)),
                j < pieces@.len(),
                whole == concat_pieces(pieces@),
                h0 == old(hardware).history(),
                reqs == stream_requests(session.received()),
                session.exchanges() == exchanges@,
                session.output() == output@,
                exchanges@.len() <= reqs.len(),
                exchange_requests(exchanges@) == reqs.subrange(0, exchanges@.len() as int),
                forall|i: int|
                    0 <= i < exchanges@.len() ==> #[trigger] reply_answers(exchanges@[i].request@, exchanges@[i].reply@),
                output@ == encode_replies(exchange_replies(exchanges@)),
                hardware.history() == h0 + exchange_calls(exchanges@),
            ensures
                exchange_requests(exchanges@) == reqs,
                !stream_misaligned(session.received()),
            decreases reqs.len() - exchanges@.len(),
        {
            let ghost k = exchanges@.len();
            match session.next_step() {
                SessionStep::Act(action) => {
                    let ghost before_calls = hardware.history();
                    let answer = perform(hardware, action);
                    let ghost ans = answer;
                    let (cmd, response) = session.answer(answer);
                    match response {
                        XvcResponse::Reply(reply) => {
                            let bytes = reply_bytes(&reply);
                            let mut i: usize = 0;
                            let ghost out_before = output@;
                            while i < bytes.len()
                                invariant
                                    i <= bytes@.len(),
                                    output@ == out_before + bytes@.subrange(0, i as int),
                                decreases bytes@.len() - i,
                            {
                                output.push(bytes[i]);
                                i = i + 1;
                                assert(output@ =~= out_before + bytes@.subrange(0, i as int));
                            }
                            assert(bytes@.subrange(0, bytes@.len() as int) =~= bytes@);
                            let ghost old_ex = exchanges@;
                            exchanges.push(XvcExchange { request: cmd, reply });
                            proof {
                                assert(exchanges@.drop_last() =~= old_ex);
                                assert(exchange_replies(exchanges@).drop_last() =~= exchange_replies(old_ex));
                                assert(exchange_requests(exchanges@) =~= reqs.subrange(0, k + 1 as int));
                                assert(hardware.history() =~= h0 + exchange_calls(exchanges@));
                                assert forall|i: int| 0 <= i < exchanges@.len() implies #[trigger] reply_answers(
                                    exchanges@[i].request@,
                                    exchanges@[i].reply@,
                                ) by {
                                    if i < old_ex.len() {
                                        assert(exchanges@[i] == old_ex[i]);
                                    }
                                }
                            }
                        },
                        XvcResponse::ShiftFailed(e) => {
                            proof {
                                let rest = concat_pieces(pieces@.subrange(j + 1, pieces@.len() as int));
                                lemma_concat_split(pieces@, j + 1);
                                lemma_stream_prefix(session.received(), rest);
                                let all = stream_requests(whole);
                                assert(all.subrange(0, reqs.len() as int) == reqs);
                                assert(all[k as int] == reqs[k as int]);
                                assert(exchange_requests(exchanges@) =~= all.subrange(0, k as int));
                                assert forall|i: int| 0 <= i < k implies #[trigger] reply_answers(
                                    all[i],
                                    exchanges@[i].reply@,
                                ) by {
                                    assert(exchange_requests(exchanges@)[i] == exchanges@[i].request@);
                                }
                                let c = answer_calls(action_of(cmd@), ans);
                                assert(hardware.history() == before_calls + c);
                                assert(hardware.history().drop_last() =~= before_calls);
                                assert(hardware.history().last() == c[0]);
                            }
                            return XvcSessionLog { exchanges, output, end: XvcSessionEnd::ShiftFailed(e) };
                        },
                    }
                },
                SessionStep::NeedMore => {
                    assert(exchange_requests(exchanges@) =~= reqs);
                    break;
                },
                SessionStep::Misaligned => {
                    proof {
                        let rest = concat_pieces(pieces@.subrange(j + 1, pieces@.len() as int));
                        lemma_concat_split(pieces@, j + 1);
                        lemma_stream_prefix(session.received(), rest);
                        let all = stream_requests(whole);
                        assert(exchange_requests(exchanges@) =~= all.subrange(0, k as int));
                        assert forall|i: int| 0 <= i < k implies #[trigger] reply_answers(
                            all[i],
                            exchanges@[i].reply@,
                        ) by {
                            assert(exchange_requests(exchanges@)[i] == exchanges@[i].request@);
                        }
                    }
                    assert(hardware.history() == h0 + exchange_calls(exchanges@));
                    return XvcSessionLog { exchanges, output, end: XvcSessionEnd::Misaligned };
                },
            }
        }
        j = j + 1;
    }
    proof {
        assert(pieces@.subrange(0, j as int) =~= pieces@);
        let all = stream_requests(whole);
        assert(exchange_requests(exchanges@) =~= all.subrange(0, exchanges@.len() as int));
        assert forall|i: int| 0 <= i < exchanges@.len() implies #[trigger] reply_answers(
            all[i],
            exchanges@[i].reply@,
        ) by {
            assert(exchange_requests(exchanges@)[i] == exchanges@[i].request@);
        }
    }
    XvcSessionLog { exchanges, output, end: XvcSessionEnd::StreamEnded }
}

} // verus!
