use xvcd::backend_bitbang::{
    bitbang_waveform_bytes, decode_bitbang_samples, rx_complete, strip_status_header, usb_rx_alloc_len,
    BitbangShift, TCK_PIN, TDI_PIN, TDO_PIN, TMS_PIN,
};

#[test]
fn test_bitbang_vector_generation_logic() {
    let bits = 2;
    let tms = [0x01u8];
    let tdi = [0x02u8];
    let cmd_buffer = bitbang_waveform_bytes(&tms, &tdi, 0, bits);

    assert_eq!(cmd_buffer.len(), 4);

    // Bit 0: TMS=1, TDI=0
    assert_eq!(cmd_buffer[0], 0x08); // Low Setup Phase
    assert_eq!(cmd_buffer[1], 0x09); // High Sampling Phase

    // Bit 1: TMS=0, TDI=1
    assert_eq!(cmd_buffer[2], 0x02);
    assert_eq!(cmd_buffer[3], 0x03);
}

#[test]
fn test_bitbang_unpack_alignment_logic() {
    let chunk_bits = 3;
    let mut mock_tdo = vec![0u8; 1];
    let mut mock_payload = vec![0u8; chunk_bits as usize * 2];

    mock_payload[1] = TDO_PIN; // Bit 0 High
    mock_payload[3] = 0x00; // Bit 1 Low
    mock_payload[5] = TDO_PIN; // Bit 2 High

    decode_bitbang_samples(&mut mock_tdo, &mock_payload, 0, chunk_bits);

    assert_eq!(mock_tdo[0], 0x05);
}

#[test]
fn test_jtag_pin_waveform_generation_logic() {
    let chunk_bits = 2;
    let tms = [0x01u8]; // Bit 0 = 1 (TMS High), Bit 1 = 0 (TMS Low)
    let tdi = [0x02u8]; // Bit 0 = 0 (TDI Low),  Bit 1 = 1 (TDI High)

    let cmd_buffer = bitbang_waveform_bytes(&tms, &tdi, 0, chunk_bits);

    assert_eq!(cmd_buffer.len(), 4);
    assert_eq!(cmd_buffer[0], TMS_PIN);
    assert_eq!(cmd_buffer[1], TMS_PIN | TCK_PIN);
    assert_eq!(cmd_buffer[2], TDI_PIN);
    assert_eq!(cmd_buffer[3], TDI_PIN | TCK_PIN);
}

#[test]
fn test_lockstep_payload_parsing_and_status_header_stripping() {
    let chunk_bits = 3u32;
    let expected_pure_bytes = chunk_bits as usize * 2; // 6 bytes

    let mut raw_usb_packet = vec![0u8; 2 + expected_pure_bytes];
    raw_usb_packet[0] = 0x32; // Mock Modem Status
    raw_usb_packet[1] = 0x60; // Mock Line Status

    let pure_offset = 2;
    raw_usb_packet[pure_offset + 1] = TDO_PIN; // Bit 0: High
    raw_usb_packet[pure_offset + 3] = 0x00; // Bit 1: Low
    raw_usb_packet[pure_offset + 5] = TDO_PIN; // Bit 2: High

    assert!(rx_complete(raw_usb_packet.len(), expected_pure_bytes));
    let accumulated_payload = strip_status_header(&raw_usb_packet, expected_pure_bytes);
    assert_eq!(accumulated_payload.len(), expected_pure_bytes);

    let mut mock_tdo = vec![0u8; 1];
    decode_bitbang_samples(&mut mock_tdo, accumulated_payload, 0, chunk_bits);

    assert_eq!(mock_tdo[0], 0x05);
}

#[test]
fn test_asynchronous_microframe_fragmentation_stitching() {
    let chunk_bits = 4u32;
    let expected_pure_bytes = chunk_bits as usize * 2; // 8 data bytes

    let mut shift = BitbangShift::new(chunk_bits, vec![0u8], vec![0u8], vec![0u8]);
    let cmd = shift.next_chunk().expect("one chunk to send");
    assert_eq!(cmd.len(), expected_pure_bytes);
    assert_eq!(shift.expected_rx_len(), expected_pure_bytes);

    // Fragment 1: 2 status bytes + 4 data bytes
    let mut frag_1 = vec![0u8; 2 + 4];
    frag_1[0] = 0x01;
    frag_1[1] = 0x60;
    frag_1[2 + 1] = TDO_PIN; // Bit 0 High
    frag_1[2 + 3] = TDO_PIN; // Bit 1 High
    assert!(!shift.push_rx(&frag_1));

    // Fragment 2: the remaining 4 data bytes
    let mut frag_2 = vec![0u8; 4];
    frag_2[1] = 0x00; // Bit 2 Low
    frag_2[3] = TDO_PIN; // Bit 3 High
    assert!(shift.push_rx(&frag_2));

    shift.finish_chunk();
    assert!(shift.is_done());
    assert!(shift.next_chunk().is_none());

    // Bit0=1, Bit1=1, Bit2=0, Bit3=1 -> 0b1011
    assert_eq!(shift.tdo_bytes()[0], 0x0B);
}

#[test]
fn test_usb_allocation_size_clamping_math() {
    assert_eq!(usb_rx_alloc_len(4), 512);
    assert_eq!(usb_rx_alloc_len(0), 512);
    assert_eq!(usb_rx_alloc_len(513), 1024);
}

#[test]
fn test_multi_byte_cross_boundary_bit_packing() {
    let chunk_bits = 13u32; // Crosses from byte 0 into byte 1
    let mut mock_payload = vec![0u8; chunk_bits as usize * 2];
    for i in 0..chunk_bits as usize {
        mock_payload[(i * 2) + 1] = TDO_PIN;
    }

    let mut mock_tdo = vec![0u8; 2];
    decode_bitbang_samples(&mut mock_tdo, &mock_payload, 0, chunk_bits);

    assert_eq!(mock_tdo[0], 0xFF);
    assert_eq!(mock_tdo[1], 0x1F);
}

#[test]
fn bitbang_shift_runs_in_chunks_of_64_bits() {
    // 100 bits: a 64-bit chunk, then a 36-bit one.
    let bits = 100u32;
    let tms = vec![0u8; 13];
    let mut tdi = vec![0u8; 13];
    tdi[0] = 0x01;
    let mut shift = BitbangShift::new(bits, tms, tdi, vec![0xAAu8; 13]);
    assert!(shift.tdo_bytes().iter().all(|b| *b == 0));

    let first = shift.next_chunk().unwrap();
    assert_eq!(first.len(), 128);
    assert_eq!(first[0], TDI_PIN);
    assert_eq!(first[1], TDI_PIN | TCK_PIN);
    let mut reply = vec![0x31u8, 0x60];
    for k in 0..64 {
        reply.push(0);
        reply.push(if k % 2 == 0 { TDO_PIN } else { 0 });
    }
    assert!(shift.push_rx(&reply));
    shift.finish_chunk();
    assert!(!shift.is_done());

    let second = shift.next_chunk().unwrap();
    assert_eq!(second.len(), 72);
    let mut reply = vec![0x31u8, 0x60];
    for _ in 0..36 {
        reply.push(0);
        reply.push(TDO_PIN);
    }
    assert!(shift.push_rx(&reply));
    shift.finish_chunk();
    assert!(shift.is_done());

    let tdo = shift.tdo_bytes();
    for byte in &tdo[0..8] {
        assert_eq!(*byte, 0x55);
    }
    for byte in &tdo[8..12] {
        assert_eq!(*byte, 0xFF);
    }
    assert_eq!(tdo[12], 0x0F);
}

#[test]
fn bitbang_shift_of_zero_bits_leaves_tdo() {
    let mut shift = BitbangShift::new(0, vec![], vec![], vec![0x12u8]);
    assert!(shift.next_chunk().is_none());
    assert_eq!(shift.tdo_bytes(), &[0x12u8]);
}

#[test]
fn usb_allocation_for_exact_multiple() {
    assert_eq!(usb_rx_alloc_len(1024), 1024);
    assert_eq!(usb_rx_alloc_len(130), 512);
}
