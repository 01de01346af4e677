use xvcd::codec::encode_u32_le;
use xvcd::xvc_server::{
    hardware_action, parse_xvc_frame, process_xvc_stream, reply_bytes, respond, serve_pieces, xvc_info_string,
    FrameOutcome, HardwareAction, HardwareAnswer, JtagController, SessionStep, XvcCommand, XvcFrameBuffer, XvcReply,
    XvcResponse, XvcSession, XvcSessionEnd, XvcStep,
};

struct Recorder {
    periods: Vec<u32>,
    shifts: Vec<(u32, Vec<u8>, Vec<u8>)>,
    fail_shift: bool,
}

impl JtagController for Recorder {
    fn set_tck_period(&mut self, period_ns: u32) -> u32 {
        self.periods.push(period_ns);
        period_ns + 100
    }
    fn shift(&mut self, bits: u32, tms: &[u8], tdi: &[u8], tdo: &mut [u8]) -> Result<(), String> {
        if self.fail_shift {
            return Err("no adapter".to_string());
        }
        self.shifts.push((bits, tms.to_vec(), tdi.to_vec()));
        for (o, i) in tdo.iter_mut().zip(tdi.iter()) {
            *o = !*i;
        }
        Ok(())
    }
}

fn recorder() -> Recorder {
    Recorder { periods: Vec::new(), shifts: Vec::new(), fail_shift: false }
}

#[test]
fn info_string_is_the_protocol_banner() {
    assert_eq!(xvc_info_string(), b"xvcServer_v1.0:2048\n".to_vec());
}

#[test]
fn frames_decode_each_request() {
    match parse_xvc_frame(b"getinfo:rest") {
        FrameOutcome::Complete(XvcCommand::GetInfo, 8) => {},
        _ => panic!("getinfo"),
    }
    let mut settck = b"settck:".to_vec();
    settck.extend_from_slice(&1234u32.to_le_bytes());
    match parse_xvc_frame(&settck) {
        FrameOutcome::Complete(XvcCommand::SetTck { period_ns: 1234 }, 11) => {},
        _ => panic!("settck"),
    }
    let mut shift = b"shift:".to_vec();
    shift.extend_from_slice(&9u32.to_le_bytes());
    shift.extend_from_slice(&[1, 2, 3, 4]);
    match parse_xvc_frame(&shift) {
        FrameOutcome::Complete(XvcCommand::Shift { num_bits: 9, tms, tdi }, 14) => {
            assert_eq!(tms, vec![1, 2]);
            assert_eq!(tdi, vec![3, 4]);
        },
        _ => panic!("shift"),
    }
}

#[test]
fn partial_and_unknown_frames() {
    assert!(matches!(parse_xvc_frame(b""), FrameOutcome::Incomplete));
    assert!(matches!(parse_xvc_frame(b"getin"), FrameOutcome::Incomplete));
    assert!(matches!(parse_xvc_frame(b"settck:\x01\x02"), FrameOutcome::Incomplete));
    assert!(matches!(parse_xvc_frame(b"shift:\x10\x00\x00\x00\xff"), FrameOutcome::Incomplete));
    assert!(matches!(parse_xvc_frame(b"0123456789abcdef"), FrameOutcome::Incomplete));
    assert!(matches!(parse_xvc_frame(b"0123456789abcdefg"), FrameOutcome::Misaligned));
}

#[test]
fn frame_buffer_is_indifferent_to_fragmentation() {
    let mut stream = b"getinfo:settck:".to_vec();
    stream.extend_from_slice(&7u32.to_le_bytes());
    stream.extend_from_slice(b"shift:");
    stream.extend_from_slice(&12u32.to_le_bytes());
    stream.extend_from_slice(&[0xAA, 0x0F, 0x55, 0x03]);

    for cut in 1..stream.len() {
        let mut buf = XvcFrameBuffer::new();
        let mut seen = Vec::new();
        for piece in [&stream[..cut], &stream[cut..]] {
            buf.push_bytes(piece);
            loop {
                match buf.next_step() {
                    XvcStep::Request(c) => seen.push(c),
                    XvcStep::NeedMore => break,
                    XvcStep::Misaligned => panic!("misaligned at cut {}", cut),
                }
            }
        }
        assert_eq!(seen.len(), 3, "cut {}", cut);
        assert!(matches!(seen[0], XvcCommand::GetInfo));
        assert!(matches!(seen[1], XvcCommand::SetTck { period_ns: 7 }));
        match &seen[2] {
            XvcCommand::Shift { num_bits, tms, tdi } => {
                assert_eq!(*num_bits, 12);
                assert_eq!(tms, &vec![0xAA, 0x0F]);
                assert_eq!(tdi, &vec![0x55, 0x03]);
            },
            _ => panic!("shift expected"),
        }
        assert_eq!(buf.len(), 0);
    }
}

#[test]
fn session_answers_in_order() {
    let mut input = b"getinfo:settck:".to_vec();
    input.extend_from_slice(&500u32.to_le_bytes());
    input.extend_from_slice(b"shift:");
    input.extend_from_slice(&8u32.to_le_bytes());
    input.extend_from_slice(&[0xFF, 0x0F]);
    input.extend_from_slice(b"shi");

    let mut hw = recorder();
    let log = process_xvc_stream(&input, &mut hw);
    assert!(matches!(log.end, XvcSessionEnd::StreamEnded));
    assert_eq!(log.exchanges.len(), 3);
    assert_eq!(hw.periods, vec![500]);
    assert_eq!(hw.shifts, vec![(8, vec![0xFF], vec![0x0F])]);

    let mut expected = b"xvcServer_v1.0:2048\n".to_vec();
    expected.extend_from_slice(&600u32.to_le_bytes());
    expected.push(0xF0);
    assert_eq!(log.output, expected);
}

#[test]
fn session_stops_on_misalignment_and_failed_shift() {
    let mut hw = recorder();
    let log = process_xvc_stream(b"getinfo:this is not a command", &mut hw);
    assert!(matches!(log.end, XvcSessionEnd::Misaligned));
    assert_eq!(log.output, b"xvcServer_v1.0:2048\n".to_vec());

    let mut hw = recorder();
    hw.fail_shift = true;
    let mut input = b"shift:".to_vec();
    input.extend_from_slice(&1u32.to_le_bytes());
    input.extend_from_slice(&[1, 1]);
    input.extend_from_slice(b"getinfo:");
    let log = process_xvc_stream(&input, &mut hw);
    match log.end {
        XvcSessionEnd::ShiftFailed(e) => assert_eq!(e, "no adapter"),
        _ => panic!("shift failure expected"),
    }
    assert!(log.exchanges.is_empty());
    assert!(log.output.is_empty());
}

#[test]
fn replies_encode_as_sent() {
    assert_eq!(reply_bytes(&XvcReply::Period(0x01020304)), vec![4, 3, 2, 1]);
    assert_eq!(reply_bytes(&XvcReply::Tdo(vec![9, 8])), vec![9, 8]);
    assert_eq!(encode_u32_le(1000), 1000u32.to_le_bytes().to_vec());
}

#[test]
fn actions_carry_what_the_request_carries() {
    assert!(matches!(hardware_action(&XvcCommand::GetInfo), HardwareAction::Nothing));
    assert!(matches!(
        hardware_action(&XvcCommand::SetTck { period_ns: 250 }),
        HardwareAction::SetTck { period_ns: 250 }
    ));
    let cmd = XvcCommand::Shift { num_bits: 9, tms: vec![0x01, 0x00], tdi: vec![0xFE, 0x01] };
    match hardware_action(&cmd) {
        HardwareAction::Shift { num_bits, tms, tdi, tdo } => {
            assert_eq!(num_bits, 9);
            assert_eq!(tms, vec![0x01, 0x00]);
            assert_eq!(tdi, vec![0xFE, 0x01]);
            assert_eq!(tdo, vec![0x00, 0x00]);
        },
        _ => panic!("shift action expected"),
    }
}

#[test]
fn responses_follow_the_adapter() {
    assert!(matches!(respond(HardwareAnswer::Done), XvcResponse::Reply(XvcReply::Info)));
    assert!(matches!(respond(HardwareAnswer::Period(1234)), XvcResponse::Reply(XvcReply::Period(1234))));
    match respond(HardwareAnswer::Shifted { tdo: vec![0x5A], result: Ok(()) }) {
        XvcResponse::Reply(XvcReply::Tdo(t)) => assert_eq!(t, vec![0x5A]),
        _ => panic!("tdo reply expected"),
    }
    match respond(HardwareAnswer::Shifted { tdo: vec![0x5A], result: Err("cable".to_string()) }) {
        XvcResponse::ShiftFailed(e) => assert_eq!(e, "cable"),
        _ => panic!("failure expected"),
    }
}

#[test]
fn session_hands_the_adapter_what_the_client_sent() {
    let mut input = b"settck:".to_vec();
    input.extend_from_slice(&40u32.to_le_bytes());
    input.extend_from_slice(b"shift:");
    input.extend_from_slice(&12u32.to_le_bytes());
    input.extend_from_slice(&[0x01, 0x08, 0xA5, 0x0C]);

    let mut hw = recorder();
    let log = process_xvc_stream(&input, &mut hw);
    assert!(matches!(log.end, XvcSessionEnd::StreamEnded));
    assert_eq!(hw.periods, vec![40]);
    assert_eq!(hw.shifts, vec![(12, vec![0x01, 0x08], vec![0xA5, 0x0C])]);
    let mut expected = 140u32.to_le_bytes().to_vec();
    expected.extend_from_slice(&[0x5A, 0xF3]);
    assert_eq!(log.output, expected);
}

#[test]
fn session_makes_no_call_for_an_unfinished_request() {
    let mut input = b"getinfo:shift:".to_vec();
    input.extend_from_slice(&16u32.to_le_bytes());
    input.extend_from_slice(&[0x00, 0x00, 0x00]);
    let mut hw = recorder();
    let log = process_xvc_stream(&input, &mut hw);
    assert!(matches!(log.end, XvcSessionEnd::StreamEnded));
    assert!(hw.periods.is_empty());
    assert!(hw.shifts.is_empty());
    assert_eq!(log.output, b"xvcServer_v1.0:2048\n".to_vec());
}

fn sample_stream() -> Vec<u8> {
    let mut stream = b"getinfo:settck:".to_vec();
    stream.extend_from_slice(&77u32.to_le_bytes());
    stream.extend_from_slice(b"shift:");
    stream.extend_from_slice(&12u32.to_le_bytes());
    stream.extend_from_slice(&[0xAA, 0x0F, 0x55, 0x03]);
    stream.extend_from_slice(b"shi");
    stream
}

#[test]
fn sessions_in_pieces_match_the_whole_input() {
    let stream = sample_stream();
    let mut whole_hw = recorder();
    let whole = process_xvc_stream(&stream, &mut whole_hw);
    for a in 0..=stream.len() {
        for b in a..=stream.len() {
            let pieces = vec![stream[..a].to_vec(), stream[a..b].to_vec(), stream[b..].to_vec()];
            let mut hw = recorder();
            let log = serve_pieces(&pieces, &mut hw);
            assert!(matches!(log.end, XvcSessionEnd::StreamEnded), "cut {} {}", a, b);
            assert_eq!(log.output, whole.output, "cut {} {}", a, b);
            assert_eq!(log.exchanges.len(), whole.exchanges.len());
            assert_eq!(hw.periods, whole_hw.periods);
            assert_eq!(hw.shifts, whole_hw.shifts);
        }
    }
}

#[test]
fn pieces_end_on_misalignment_and_failed_shift() {
    let pieces = vec![b"getinfo:this is not".to_vec(), b" a command".to_vec()];
    let mut hw = recorder();
    let log = serve_pieces(&pieces, &mut hw);
    assert!(matches!(log.end, XvcSessionEnd::Misaligned));
    assert_eq!(log.output, b"xvcServer_v1.0:2048\n".to_vec());

    let mut hw = recorder();
    hw.fail_shift = true;
    let mut shift = b"shift:".to_vec();
    shift.extend_from_slice(&1u32.to_le_bytes());
    let pieces = vec![shift, vec![1, 1], b"getinfo:".to_vec()];
    let log = serve_pieces(&pieces, &mut hw);
    match log.end {
        XvcSessionEnd::ShiftFailed(e) => assert_eq!(e, "no adapter"),
        _ => panic!("shift failure expected"),
    }
    assert!(log.output.is_empty());
}

#[test]
fn session_steps_one_request_at_a_time() {
    let mut session = XvcSession::new();
    session.push_bytes(b"settck:");
    assert!(matches!(session.next_step(), SessionStep::NeedMore));
    session.push_bytes(&[0x10, 0, 0, 0]);
    match session.next_step() {
        SessionStep::Act(HardwareAction::SetTck { period_ns: 16 }) => {},
        _ => panic!("settck action expected"),
    }
    match session.answer(HardwareAnswer::Period(20)) {
        (XvcCommand::SetTck { period_ns: 16 }, XvcResponse::Reply(XvcReply::Period(20))) => {},
        _ => panic!("period reply expected"),
    }
    assert!(matches!(session.next_step(), SessionStep::NeedMore));
}
