//! The `xvcd-ng` reading of the XVC protocol: each request is recognised by
//! its first six bytes (`getinf`, `settck`, `shift:`), the bytes up to its
//! fixed fields are skipped, and an unknown prefix ends the session.

use crate::bits::bytes_for_bits;
use crate::codec::{encode_u32_le, le_bytes, le_u32, lemma_le_roundtrip, read_u32_le};
use crate::xvc_server::{
    action_of, answer_calls, answer_fits, byte_len_for_bits, encode_request, encode_requests, hardware_action,
    has_prefix, reply_calls, request_wf, respond, shift_token, HardwareAction, HardwareAnswer, JtagCall,
    XvcCommand, XvcReply, XvcReplyValue, XvcRequest, XvcResponse,
};
use vstd::prelude::*;
use vstd::slice::{slice_subrange, slice_to_vec};

verus! {

/// `xvcServer:v1.0\n`
pub open spec fn spec_ng_info() -> Seq<u8> {
    seq![
        0x78u8, 0x76u8, 0x63u8, 0x53u8, 0x65u8, 0x72u8, 0x76u8, 0x65u8, 0x72u8, 0x3au8,
        0x76u8, 0x31u8, 0x2eu8, 0x30u8, 0x0au8,
    ]
}

/// `getinf`
pub open spec fn getinf_prefix() -> Seq<u8> {
    seq![0x67u8, 0x65u8, 0x74u8, 0x69u8, 0x6eu8, 0x66u8]
}

/// `settck`
pub open spec fn settck_prefix() -> Seq<u8> {
    seq![0x73u8, 0x65u8, 0x74u8, 0x74u8, 0x63u8, 0x6bu8]
}

/// What the front of a session's input holds.
pub enum NgFrame {
    /// A whole request, taking up this many bytes.
    Complete(XvcRequest, int),
    /// Fewer than six bytes are left: the client is done.
    StreamEnd,
    /// A known prefix whose request the input stops inside.
    Truncated,
    /// Six bytes that start no known request.
    UnknownPrefix,
}

pub open spec fn parse_ng_frame(s: Seq<u8>) -> NgFrame {
    if s.len() < 6 {
        NgFrame::StreamEnd
    } else if s.subrange(0, 6) == getinf_prefix() {
        if s.len() < 8 {
            NgFrame::Truncated
        } else {
            NgFrame::Complete(XvcRequest::GetInfo, 8)
        }
    } else if s.subrange(0, 6) == settck_prefix() {
        if s.len() < 11 {
            NgFrame::Truncated
        } else {
            NgFrame::Complete(XvcRequest::SetTck(le_u32(s.subrange(7, 11))), 11)
        }
    } else if s.subrange(0, 6) == shift_token() {
        if s.len() < 10 {
            NgFrame::Truncated
        } else {
            let n = le_u32(s.subrange(6, 10));
            let bl = bytes_for_bits(n as int);
            if s.len() < 10 + 2 * bl {
                NgFrame::Truncated
            } else {
                NgFrame::Complete(
                    XvcRequest::Shift(n, s.subrange(10, 10 + bl), s.subrange(10 + bl, 10 + 2 * bl)),
                    10 + 2 * bl,
                )
            }
        }
    } else {
        NgFrame::UnknownPrefix
    }
}

/// A well-formed request, followed by anything, is decoded as that request,
/// taking up exactly its own encoding: this reading agrees with the daemon's on
/// every well-formed client.
pub proof fn lemma_ng_frame_roundtrip(r: XvcRequest, rest: Seq<u8>)
    requires
        request_wf(r),
    ensures
        parse_ng_frame(encode_request(r) + rest) == NgFrame::Complete(r, encode_request(r).len() as int),
{
    let s = encode_request(r) + rest;
    match r {
        XvcRequest::GetInfo => {
            assert(s.subrange(0, 6) =~= getinf_prefix());
        },
        XvcRequest::SetTck(p) => {
            lemma_le_roundtrip(p);
            assert(s.subrange(0, 6)[0] != getinf_prefix()[0]);
            assert(s.subrange(0, 6) =~= settck_prefix());
            assert(s.subrange(7, 11) =~= le_bytes(p));
        },
        XvcRequest::Shift(n, tms, tdi) => {
            lemma_le_roundtrip(n);
            let bl = bytes_for_bits(n as int);
            assert(s.subrange(0, 6)[0] != getinf_prefix()[0]);
            assert(s.subrange(0, 6)[1] != settck_prefix()[1]);
            assert(s.subrange(0, 6) =~= shift_token());
            assert(s.subrange(6, 10) =~= le_bytes(n));
            assert(s.subrange(10, 10 + bl) =~= tms);
            assert(s.subrange(10 + bl, 10 + 2 * bl) =~= tdi);
        },
    }
}

/// More bytes behind a decoded request, or behind an unknown prefix, change
/// nothing: reading on until a request is whole gives the same requests however
/// the input is cut into reads.
pub proof fn lemma_ng_frame_extension(s: Seq<u8>, more: Seq<u8>)
    ensures
        parse_ng_frame(s) is Complete ==> parse_ng_frame(s + more) == parse_ng_frame(s),
        parse_ng_frame(s) is UnknownPrefix ==> parse_ng_frame(s + more) is UnknownPrefix,
{
    let t = s + more;
    if s.len() >= 6 {
        assert(t.subrange(0, 6) =~= s.subrange(0, 6));
        if s.len() >= 10 {
            assert(t.subrange(6, 10) =~= s.subrange(6, 10));
        }
        if s.len() >= 11 {
            assert(t.subrange(7, 11) =~= s.subrange(7, 11));
        }
        if s.len() >= 10 {
            let n = le_u32(s.subrange(6, 10));
            let bl = bytes_for_bits(n as int);
            if s.len() >= 10 + 2 * bl {
                assert(t.subrange(10, 10 + bl) =~= s.subrange(10, 10 + bl));
                assert(t.subrange(10 + bl, 10 + 2 * bl) =~= s.subrange(10 + bl, 10 + 2 * bl));
            }
        }
    }
}

/// A decoded request is well-formed and lies within the input.
proof fn lemma_ng_frame_bounds(s: Seq<u8>)
    ensures
        parse_ng_frame(s) matches NgFrame::Complete(r, n) ==> request_wf(r) && 0 < n <= s.len(),
{
}

/// The outcome of looking at the front of a session's input.
pub enum NgFrameOutcome {
    Complete(XvcCommand, usize),
    StreamEnd,
    Truncated,
    UnknownPrefix,
}

impl View for NgFrameOutcome {
    type V = NgFrame;

    open spec fn view(&self) -> NgFrame {
        match self {
            NgFrameOutcome::Complete(c, n) => NgFrame::Complete(c@, *n as int),
            NgFrameOutcome::StreamEnd => NgFrame::StreamEnd,
            NgFrameOutcome::Truncated => NgFrame::Truncated,
            NgFrameOutcome::UnknownPrefix => NgFrame::UnknownPrefix,
        }
    }
}

/// Decodes the request at the front of `buf`, or says why there is none.
pub fn parse_ng_xvc_frame(buf: &[u8]) -> (r: NgFrameOutcome)
    ensures
        r@ == parse_ng_frame(buf@),
{
    if buf.len() < 6 {
        return NgFrameOutcome::StreamEnd;
    }
    let getinf: Vec<u8> = vec![0x67u8, 0x65u8, 0x74u8, 0x69u8, 0x6eu8, 0x66u8];
    let settck: Vec<u8> = vec![0x73u8, 0x65u8, 0x74u8, 0x74u8, 0x63u8, 0x6bu8];
    let shift: Vec<u8> = vec![0x73u8, 0x68u8, 0x69u8, 0x66u8, 0x74u8, 0x3au8];
    assert(getinf@ =~= getinf_prefix());
    assert(settck@ =~= settck_prefix());
    assert(shift@ =~= shift_token());
    if has_prefix(buf, getinf.as_slice()) {
        if buf.len() < 8 {
            NgFrameOutcome::Truncated
        } else {
            NgFrameOutcome::Complete(XvcCommand::GetInfo, 8)
        }
    } else if has_prefix(buf, settck.as_slice()) {
        if buf.len() < 11 {
            NgFrameOutcome::Truncated
        } else {
            let period_ns = read_u32_le(slice_subrange(buf, 7, 11));
            NgFrameOutcome::Complete(XvcCommand::SetTck { period_ns }, 11)
        }
    } else if has_prefix(buf, shift.as_slice()) {
        if buf.len() < 10 {
            NgFrameOutcome::Truncated
        } else {
            let num_bits = read_u32_le(slice_subrange(buf, 6, 10));
            let bl = byte_len_for_bits(num_bits);
            if buf.len() - 10 < 2 * bl {
                NgFrameOutcome::Truncated
            } else {
                let tms = slice_to_vec(slice_subrange(buf, 10, 10 + bl));
                let tdi = slice_to_vec(slice_subrange(buf, 10 + bl, 10 + 2 * bl));
                NgFrameOutcome::Complete(XvcCommand::Shift { num_bits, tms, tdi }, 10 + 2 * bl)
            }
        }
    } else {
        NgFrameOutcome::UnknownPrefix
    }
}

/// The `getinfo:` reply of `xvcd-ng`.
pub fn ng_info_string() -> (s: Vec<u8>)
    ensures
        s@ == spec_ng_info(),
{
    let s: Vec<u8> = vec![
        0x78u8, 0x76u8, 0x63u8, 0x53u8, 0x65u8, 0x72u8, 0x76u8, 0x65u8, 0x72u8, 0x3au8,
        0x76u8, 0x31u8, 0x2eu8, 0x30u8, 0x0au8,
    ];
    assert(s@ =~= spec_ng_info());
    s
}

/// The bytes `xvcd-ng` sends back for a reply.
pub open spec fn encode_ng_reply(r: XvcReplyValue) -> Seq<u8> {
    match r {
        XvcReplyValue::Info => spec_ng_info(),
        XvcReplyValue::Period(p) => le_bytes(p),
        XvcReplyValue::Tdo(t) => t,
    }
}

pub open spec fn encode_ng_replies(rs: Seq<XvcReplyValue>) -> Seq<u8>
    decreases rs.len(),
{
    if rs.len() == 0 {
        seq![]
    } else {
        encode_ng_replies(rs.drop_last()) + encode_ng_reply(rs.last())
    }
}

/// The bytes `xvcd-ng` sends back for a reply.
pub fn ng_reply_bytes(r: &XvcReply) -> (out: Vec<u8>)
    ensures
        out@ == encode_ng_reply(r@),
{
    match r {
        XvcReply::Info => ng_info_string(),
        XvcReply::Period(p) => encode_u32_le(*p),
        XvcReply::Tdo(t) => {
            let out = t.clone();
            assert(out@ =~= t@);
            out
        },
    }
}

/// Maps the protocol's commands onto a JTAG adapter.
pub trait JtagController: Send + Sync {
    /// The calls made on this adapter so far, oldest first. An adapter that
    /// keeps no such record leaves it empty, and then cannot be verified
    /// against the methods below.
    closed spec fn history(&self) -> Seq<JtagCall> {
        Seq::empty()
    }

    fn set_tck_period(&mut self, period_ns: u32) -> (p: u32)
        ensures
            final(self).history() == old(self).history().push(JtagCall::SetTck(period_ns, p)),
    ;

    /// A shift cannot fail here: it is recorded as having succeeded.
    fn shift(&mut self, bits: u32, tms: &[u8], tdi: &[u8], tdo: &mut [u8])
        ensures
            final(tdo)@.len() == old(tdo)@.len(),
            final(self).history() == old(self).history().push(
                JtagCall::Shift(bits, tms@, tdi@, old(tdo)@, final(tdo)@, Ok(())),
            ),
    ;
}

/// Carries out `action` on the adapter: one call for a period or a shift, none
/// otherwise; a shift always reports success.
fn ng_perform<T: JtagController>(hardware: &mut T, action: HardwareAction) -> (ans: HardwareAnswer)
    ensures
        answer_fits(action@, ans),
        ans matches HardwareAnswer::Shifted { result, .. } ==> result is Ok,
        final(hardware).history() == old(hardware).history() + answer_calls(action@, ans),
{
    match action {
        HardwareAction::Nothing => {
            assert(old(hardware).history() + seq![] =~= old(hardware).history());
            HardwareAnswer::Done
        },
        HardwareAction::SetTck { period_ns } => {
            let p = hardware.set_tck_period(period_ns);
            assert(old(hardware).history().push(JtagCall::SetTck(period_ns, p)) =~= old(hardware).history()
                + seq![JtagCall::SetTck(period_ns, p)]);
            HardwareAnswer::Period(p)
        },
        HardwareAction::Shift { num_bits, tms, tdi, tdo } => {
            let mut tdo = tdo;
            let ghost t0 = tdo@;
            hardware.shift(num_bits, tms.as_slice(), tdi.as_slice(), tdo.as_mut_slice());
            let ghost call = JtagCall::Shift(num_bits, tms@, tdi@, t0, tdo@, Ok(()));
            assert(old(hardware).history().push(call) =~= old(hardware).history() + seq![call]);
            HardwareAnswer::Shifted { tdo, result: Ok(()) }
        },
    }
}

/// The requests a session's input holds, in order.
pub open spec fn ng_stream_requests(s: Seq<u8>) -> Seq<XvcRequest>
    decreases s.len(),
{
    match parse_ng_frame(s) {
        NgFrame::Complete(r, n) => if 0 < n <= s.len() {
            seq![r] + ng_stream_requests(s.skip(n))
        } else {
            seq![]
        },
        _ => seq![],
    }
}

/// How the input ends after its last whole request.
pub open spec fn ng_stream_end(s: Seq<u8>) -> NgFrame
    decreases s.len(),
{
    match parse_ng_frame(s) {
        NgFrame::Complete(r, n) => if 0 < n <= s.len() {
            ng_stream_end(s.skip(n))
        } else {
            NgFrame::StreamEnd
        },
        other => other,
    }
}

/// A client stream of well-formed requests is decoded into exactly those
/// requests, in order, and ends cleanly: on such a client both servers agree.
pub proof fn lemma_ng_stream_roundtrip(rs: Seq<XvcRequest>)
    requires
        forall|i: int| 0 <= i < rs.len() ==> request_wf(#[trigger] rs[i]),
    ensures
        ng_stream_requests(encode_requests(rs)) == rs,
        ng_stream_end(encode_requests(rs)) is StreamEnd,
    decreases rs.len(),
{
    if rs.len() == 0 {
        assert(encode_requests(rs) =~= Seq::<u8>::empty());
    } else {
        let head = encode_request(rs[0]);
        let tail = encode_requests(rs.drop_first());
        assert forall|i: int| 0 <= i < rs.drop_first().len() implies request_wf(#[trigger] rs.drop_first()[i]) by {
            assert(rs.drop_first()[i] == rs[i + 1]);
        }
        lemma_ng_stream_roundtrip(rs.drop_first());
        lemma_ng_frame_roundtrip(rs[0], tail);
        assert((head + tail).skip(head.len() as int) =~= tail);
        assert(rs =~= seq![rs[0]] + rs.drop_first());
    }
}

/// A request together with the reply the hardware gave to it.
pub struct NgExchange {
    pub request: XvcCommand,
    pub reply: XvcReply,
}

/// Why a session stopped.
pub enum NgSessionEnd {
    /// The client sent nothing more than a partial prefix: a clean close.
    StreamEnded,
    /// A known request was cut off: an unexpected end of the stream.
    Truncated,
    /// Six bytes that start no known request: the session is dropped.
    UnknownPrefix,
}

pub open spec fn ng_end_matches(e: NgSessionEnd, f: NgFrame) -> bool {
    match e {
        NgSessionEnd::StreamEnded => f is StreamEnd,
        NgSessionEnd::Truncated => f is Truncated,
        NgSessionEnd::UnknownPrefix => f is UnknownPrefix,
    }
}

/// The course of a session.
pub struct NgSessionLog {
    pub exchanges: Vec<NgExchange>,
    pub output: Vec<u8>,
    pub end: NgSessionEnd,
}

pub open spec fn ng_exchange_requests(ex: Seq<NgExchange>) -> Seq<XvcRequest> {
    ex.map_values(|e: NgExchange| e.request@)
}

pub open spec fn ng_exchange_replies(ex: Seq<NgExchange>) -> Seq<XvcReplyValue> {
    ex.map_values(|e: NgExchange| e.reply@)
}

/// A reply of the kind the request calls for.
pub open spec fn ng_reply_answers(q: XvcRequest, r: XvcReplyValue) -> bool {
    crate::xvc_server::reply_answers(q, r)
}

/// The adapter calls behind a sequence of exchanges, in order.
pub open spec fn ng_exchange_calls(ex: Seq<NgExchange>) -> Seq<JtagCall>
    decreases ex.len(),
{
    if ex.len() == 0 {
        seq![]
    } else {
        ng_exchange_calls(ex.drop_last()) + reply_calls(ex.last().request@, ex.last().reply@)
    }
}

/// Serves one client session over the whole of its input `input`, answering
/// each request with the hardware, in order, until the input runs out or
/// holds an unknown prefix. The adapter is called for the whole requests
/// only, with exactly what they carry, and each reply is what it gave back.
pub fn process_xvc_stream<T: JtagController>(input: &[u8], hardware: &mut T) -> (log: NgSessionLog)
    ensures
        ng_exchange_requests(log.exchanges@) == ng_stream_requests(input@),
        forall|i: int|
            0 <= i < log.exchanges@.len() ==> #[trigger] ng_reply_answers(
                ng_stream_requests(input@)[i],
                log.exchanges@[i].reply@,
            ),
        log.output@ == encode_ng_replies(ng_exchange_replies(log.exchanges@)),
        ng_end_matches(log.end, ng_stream_end(input@)),
        final(hardware).history() == old(hardware).history() + ng_exchange_calls(log.exchanges@),
{
    let mut pos: usize = 0;
    let mut exchanges: Vec<NgExchange> = Vec::new();
    let mut output: Vec<u8> = Vec::new();
    let ghost reqs = ng_stream_requests(input@);
    assert(input@.skip(0) =~= input@);
    assert(old(hardware).history() + ng_exchange_calls(exchanges@) =~= old(hardware).history());
    loop
        invariant
            pos <= input@.len(),
            reqs == ng_stream_requests(input@),
            reqs == ng_exchange_requests(exchanges@) + ng_stream_requests(input@.skip(pos as int)),
            ng_stream_end(input@) == ng_stream_end(input@.skip(pos as int)),
            forall|i: int| 0 <= i < exchanges@.len() ==> #[trigger] ng_reply_answers(reqs[i], exchanges@[i].reply@),
            output@ == encode_ng_replies(ng_exchange_replies(exchanges@)),
            hardware.history() == old(hardware).history() + ng_exchange_calls(exchanges@),
        decreases input@.len() - pos,
    {
        let rest = slice_subrange(input, pos, input.len());
        assert(rest@ =~= input@.skip(pos as int));
        proof {
            lemma_ng_frame_bounds(rest@);
        }
        match parse_ng_xvc_frame(rest) {
            NgFrameOutcome::Complete(cmd, n) => {
                let ghost k = exchanges@.len();
                let action = hardware_action(&cmd);
                let answer = ng_perform(hardware, action);
                let ghost ans = answer;
                let reply = match respond(answer) {
                    XvcResponse::Reply(reply) => reply,
                    XvcResponse::ShiftFailed(_) => {
                        // every shift here reports success, so this arm is never taken
                        assert(false);
                        XvcReply::Info
                    },
                };
                proof {
                    match ans {
                        HardwareAnswer::Done => {},
                        HardwareAnswer::Period(p) => {},
                        HardwareAnswer::Shifted { tdo, result } => {
                            assert(result->Ok_0 == ());
                            assert(result == Ok::<(), String>(()));
                            assert(reply@ == XvcReplyValue::Tdo(tdo@));
                        },
                    }
                }
                assert(reply_calls(cmd@, reply@) == answer_calls(action_of(cmd@), ans));
                assert(ng_reply_answers(cmd@, reply@));
                let bytes = ng_reply_bytes(&reply);
                let mut i: usize = 0;
                let ghost before = output@;
                while i < bytes.len()
                    invariant
                        i <= bytes@.len(),
                        output@ == before + bytes@.subrange(0, i as int),
                    decreases bytes@.len() - i,
                {
                    output.push(bytes[i]);
                    i = i + 1;
                    assert(output@ =~= before + bytes@.subrange(0, i as int));
                }
                assert(bytes@.subrange(0, bytes@.len() as int) =~= bytes@);
                let ghost old_ex = exchanges@;
                exchanges.push(NgExchange { request: cmd, reply });
                proof {
                    assert(exchanges@.drop_last() =~= old_ex);
                    assert(ng_exchange_replies(exchanges@).drop_last() =~= ng_exchange_replies(old_ex));
                    assert(ng_exchange_requests(exchanges@) =~= ng_exchange_requests(old_ex) + seq![reqs[k as int]]);
                    assert(input@.skip(pos as int).skip(n as int) =~= input@.skip(pos + n));
                    assert(hardware.history() =~= old(hardware).history() + ng_exchange_calls(exchanges@));
                }
                pos = pos + n;
            },
            NgFrameOutcome::StreamEnd => {
                assert(ng_exchange_requests(exchanges@) =~= reqs);
                return NgSessionLog { exchanges, output, end: NgSessionEnd::StreamEnded };
            },
            NgFrameOutcome::Truncated => {
                assert(ng_exchange_requests(exchanges@) =~= reqs);
                return NgSessionLog { exchanges, output, end: NgSessionEnd::Truncated };
            },
            NgFrameOutcome::UnknownPrefix => {
                assert(ng_exchange_requests(exchanges@) =~= reqs);
                return NgSessionLog { exchanges, output, end: NgSessionEnd::UnknownPrefix };
            },
        }
    }
}

} // verus!
