use xvcd::ng::backend::{DummyBackend, JtagController as BackendController};
use xvcd::ng::xvc_server::{process_xvc_stream, JtagController, NgSessionEnd};

struct MockJtagBackend {
    received_bits: u32,
    configured_period: u32,
}

impl JtagController for MockJtagBackend {
    fn set_tck_period(&mut self, period_ns: u32) -> u32 {
        self.configured_period = period_ns;
        period_ns * 2
    }
    fn shift(&mut self, bits: u32, _tms: &[u8], _tdi: &[u8], tdo: &mut [u8]) {
        self.received_bits = bits;
        for byte in tdo.iter_mut() {
            *byte = 0x55;
        }
    }
}

const XVC_INFO_STRING: &[u8] = b"xvcServer:v1.0\n";

/// The input followed by what the server wrote back, as one buffer.
fn session_buffer(payload: &[u8], output: &[u8]) -> Vec<u8> {
    let mut all = payload.to_vec();
    all.extend_from_slice(output);
    all
}

#[test]
fn test_getinfo_command() {
    let payload = b"getinfo:".to_vec();
    let mut mock_hw = MockJtagBackend { received_bits: 0, configured_period: 0 };

    let log = process_xvc_stream(&payload, &mut mock_hw);
    let inner = session_buffer(&payload, &log.output);
    assert_eq!(&inner[8..], XVC_INFO_STRING);
    assert_eq!(mock_hw.received_bits, 0);
    assert_eq!(mock_hw.configured_period, 0);
}

#[test]
fn test_settck_command() {
    let mut payload = b"settck:".to_vec();
    payload.extend_from_slice(&500u32.to_le_bytes());

    let mut mock_hw = MockJtagBackend { received_bits: 0, configured_period: 0 };

    let log = process_xvc_stream(&payload, &mut mock_hw);
    assert_eq!(mock_hw.configured_period, 500);

    let out = session_buffer(&payload, &log.output);
    let reply_slice = &out[11..15];
    let returned_period = u32::from_le_bytes([reply_slice[0], reply_slice[1], reply_slice[2], reply_slice[3]]);
    assert_eq!(returned_period, 1000);
}

#[test]
fn ng_shift_reply_follows_the_request() {
    let mut payload = b"shift:".to_vec();
    payload.extend_from_slice(&8u32.to_le_bytes()); // 8 bits bitcount
    payload.push(0xFF); // TMS vector
    payload.push(0xAA); // TDI vector

    let mut mock_hw = MockJtagBackend { received_bits: 0, configured_period: 0 };

    let log = process_xvc_stream(&payload, &mut mock_hw);
    assert_eq!(mock_hw.received_bits, 8);

    // The request takes 12 bytes (prefix, bit count, one TMS and one TDI byte);
    // the single TDO byte follows it.
    let out = session_buffer(&payload, &log.output);
    assert_eq!(out.len(), 13);
    assert_eq!(out[12], 0x55);
}

#[test]
fn ng_session_ends() {
    let mut hw = MockJtagBackend { received_bits: 0, configured_period: 0 };
    let log = process_xvc_stream(b"getinfo:get", &mut hw);
    assert!(matches!(log.end, NgSessionEnd::StreamEnded));
    assert_eq!(log.exchanges.len(), 1);

    let log = process_xvc_stream(b"getinfo:settck:\x01", &mut hw);
    assert!(matches!(log.end, NgSessionEnd::Truncated));
    assert_eq!(log.output, XVC_INFO_STRING.to_vec());

    let log = process_xvc_stream(b"bogus!getinfo:", &mut hw);
    assert!(matches!(log.end, NgSessionEnd::UnknownPrefix));
    assert!(log.output.is_empty());
}

#[test]
fn dummy_backend_accepts_period_and_reads_zeros() {
    let mut dummy = DummyBackend;
    assert_eq!(BackendController::set_tck_period(&mut dummy, 1234), 1234);
    let mut tdo = vec![0xAAu8; 3];
    BackendController::shift(&mut dummy, 20, &[0u8; 3], &[0u8; 3], &mut tdo);
    assert_eq!(tdo, vec![0u8; 3]);
}
