use xvcd::backend_mpsse::{
    mirror_byte, mpsse_chunk_command_bytes, mpsse_init_pins, mpsse_tck_for_period, scan_idcode, MpsseShift,
};

#[test]
fn tck_period_is_clamped_to_the_engine_limit() {
    assert_eq!(mpsse_tck_for_period(10), (33, 30_303_030));
    assert_eq!(mpsse_tck_for_period(500), (500, 2_000_000));
    assert_eq!(mpsse_tck_for_period(1000), (1000, 1_000_000));
}

#[test]
fn init_pins() {
    assert_eq!(mpsse_init_pins(), vec![0x80, 0x0A, 0x0B]);
}

#[test]
fn byte_mode_when_tms_low() {
    let tms = [0u8, 0u8];
    let tdi = [0x12u8, 0x34u8];
    let (cmd, byte_mode) = mpsse_chunk_command_bytes(&tms, &tdi, 0, 16);
    assert!(byte_mode);
    assert_eq!(cmd, vec![0x39, 0x01, 0x00, 0x12, 0x34, 0x87]);
}

#[test]
fn bit_mode_when_tms_moves() {
    let tms = [0x01u8];
    let tdi = [0x02u8];
    let (cmd, byte_mode) = mpsse_chunk_command_bytes(&tms, &tdi, 0, 2);
    assert!(!byte_mode);
    assert_eq!(cmd, vec![0x6B, 0x00, 0x01, 0x6B, 0x00, 0x80, 0x87]);
}

#[test]
fn mpsse_shift_byte_mode_copies_reply() {
    let mut shift = MpsseShift::new(16, vec![0, 0], vec![0xAB, 0xCD], vec![0xFF, 0xFF]);
    let cmd = shift.next_chunk().unwrap();
    assert_eq!(cmd, vec![0x39, 0x01, 0x00, 0xAB, 0xCD, 0x87]);
    assert_eq!(shift.expected_rx_len(), 2);
    shift.complete_chunk(&[0x5A, 0xA5]);
    assert!(shift.is_done());
    assert!(shift.next_chunk().is_none());
    assert_eq!(shift.tdo_bytes(), &[0x5A, 0xA5]);
}

#[test]
fn mpsse_shift_bit_mode_reads_bit_seven() {
    let mut shift = MpsseShift::new(3, vec![0x07], vec![0x00], vec![0x00]);
    let cmd = shift.next_chunk().unwrap();
    assert_eq!(cmd.len(), 3 * 3 + 1);
    assert_eq!(shift.expected_rx_len(), 3);
    shift.complete_chunk(&[0x80, 0x7F, 0xFF]);
    assert_eq!(shift.tdo_bytes(), &[0x05]);
}

#[test]
fn mpsse_shift_in_chunks() {
    // 1030 bits: a full 1024-bit chunk (byte mode) and a 6-bit tail (bit mode).
    let n = 1030u32;
    let bytes = 129usize;
    let mut shift = MpsseShift::new(n, vec![0u8; bytes], vec![0x11u8; bytes], vec![0u8; bytes]);
    let first = shift.next_chunk().unwrap();
    assert_eq!(first.len(), 3 + 128 + 1);
    assert_eq!(shift.expected_rx_len(), 128);
    shift.complete_chunk(&vec![0xC3u8; 128]);
    let second = shift.next_chunk().unwrap();
    assert_eq!(second.len(), 6 * 3 + 1);
    shift.complete_chunk(&[0x80, 0x00, 0x80, 0x00, 0x80, 0x80]);
    assert!(shift.is_done());
    let tdo = shift.tdo_bytes();
    assert!(tdo[..128].iter().all(|b| *b == 0xC3));
    assert_eq!(tdo[128], 0b110101);
}

#[test]
fn idcode_is_mirrored_big_endian() {
    assert_eq!(mirror_byte(0x01), 0x80);
    assert_eq!(mirror_byte(0b1100_1010), 0b0101_0011);
    assert_eq!(scan_idcode(&[0x01, 0x00, 0x00, 0x80]), Some(0x8000_0001));
    assert_eq!(scan_idcode(&[1, 2, 3]), None);
}

#[test]
fn mpsse_single_bit_uses_the_tms_pin_command() {
    let mut shift = MpsseShift::new(1, vec![0x00], vec![0x01], vec![0x00]);
    assert_eq!(shift.next_chunk().unwrap(), vec![0x6B, 0x00, 0x80, 0x87]);
    assert_eq!(shift.expected_rx_len(), 1);
    shift.complete_chunk(&[0x80]);
    assert!(shift.is_done());
    assert_eq!(shift.tdo_bytes(), &[0x01]);
}

#[test]
fn mpsse_whole_byte_with_tms_low_uses_the_byte_command() {
    let mut shift = MpsseShift::new(8, vec![0x00], vec![0xA5], vec![0x00]);
    assert_eq!(shift.next_chunk().unwrap(), vec![0x39, 0x00, 0x00, 0xA5, 0x87]);
    assert_eq!(shift.expected_rx_len(), 1);
    shift.complete_chunk(&[0x3C]);
    assert_eq!(shift.tdo_bytes(), &[0x3C]);
}

#[test]
fn mpsse_bit_replies_count_only_bit_seven() {
    let mut shift = MpsseShift::new(3, vec![0x07], vec![0x00], vec![0x00]);
    assert_eq!(
        shift.next_chunk().unwrap(),
        vec![0x6B, 0x00, 0x01, 0x6B, 0x00, 0x01, 0x6B, 0x00, 0x01, 0x87]
    );
    shift.complete_chunk(&[0x7F, 0xFF, 0x80]);
    assert_eq!(shift.tdo_bytes(), &[0x06]);
}

#[test]
fn mpsse_zero_bits_leave_tdo_alone() {
    let mut shift = MpsseShift::new(0, vec![], vec![], vec![0xAB]);
    assert!(shift.is_done());
    assert!(shift.next_chunk().is_none());
    assert_eq!(shift.tdo_bytes(), &[0xAB]);
}
