use xvcd::backend_bitbang::{bitbang_waveform_bytes, TDO_PIN};
use xvcd::ng::backend_bitbang::{ng_bitbang_read_tdo, ng_bitbang_setup_requests, ng_endpoint_addresses};

#[test]
fn backend_bitbang_test_bitbang_vector_generation_logic() {
    let bits = 2;
    let tms = [0x01u8];
    let tdi = [0x02u8];
    let cmd_buffer = bitbang_waveform_bytes(&tms, &tdi, 0, bits);

    assert_eq!(cmd_buffer.len(), 4);
    assert_eq!(cmd_buffer[0], 0x08); // Low clock: TMS=1, TDI=0
    assert_eq!(cmd_buffer[1], 0x09); // High clock: TCK | TMS
    assert_eq!(cmd_buffer[2], 0x02); // Low clock: TMS=0, TDI=1
}

#[test]
fn ng_endpoints_follow_the_channel() {
    assert_eq!(ng_endpoint_addresses(0), (0x02, 0x81));
    assert_eq!(ng_endpoint_addresses(1), (0x04, 0x83));
}

#[test]
fn ng_setup_selects_async_bitbang() {
    let reqs = ng_bitbang_setup_requests(1);
    assert_eq!(reqs.len(), 2);
    assert_eq!((reqs[0].request, reqs[0].value, reqs[0].index), (0x00, 0, 2));
    assert_eq!((reqs[1].request, reqs[1].value, reqs[1].index), (0x0B, 0x010B, 2));
}

#[test]
fn ng_tdo_is_read_from_the_high_steps() {
    let mut rx = vec![0u8; 6];
    rx[1] = TDO_PIN;
    rx[5] = TDO_PIN;
    let mut tdo = vec![0xFFu8; 1];
    ng_bitbang_read_tdo(3, &rx, &mut tdo);
    assert_eq!(tdo, vec![0x05]);
}
