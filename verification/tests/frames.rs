use raptorq_ts::{
    build_data_packet, build_noop_packet, crc32, crc32_table, make_block_oti, parse_packet,
    warm_raptorq, write_frame_crc, BlockEncoder, ContinuityCounter, EncodingPacket, ObjectTransmissionInformation,
    ParseError, ParsedFrame, PayloadId, TsHeader, CRC_SIZE, DEFAULT_BLOCK_SIZE,
    DEFAULT_BLOCK_SYMBOLS, DEFAULT_PID, FRAME_CRC_OFFSET, FRAME_OTI_OFFSET, FRAME_OVERHEAD,
    FRAME_SYMBOL_OFFSET, FRAME_TYPE_DATA, FRAME_TYPE_OFFSET, SYMBOL_SIZE, TS_HEADER_SIZE,
    TS_PACKET_SIZE, TS_PAYLOAD_SIZE,
};

#[test]
fn frame_sizes_fit_ts_packet() {
    assert_eq!(FRAME_OVERHEAD + SYMBOL_SIZE + CRC_SIZE, TS_PAYLOAD_SIZE);
    assert_eq!(FRAME_CRC_OFFSET + CRC_SIZE, TS_PAYLOAD_SIZE);
    assert_eq!(TS_HEADER_SIZE + TS_PAYLOAD_SIZE, TS_PACKET_SIZE);
}

#[test]
fn crc32_matches_known_vector() {
    // "123456789" -> 0xCBF43926 is the standard CRC-32 check value.
    assert_eq!(crc32(b"123456789"), 0xCBF4_3926);
}

#[test]
fn warm_raptorq_runs() {
    // Just exercises the roundtrip path; must not panic for the default geometry.
    warm_raptorq(DEFAULT_BLOCK_SIZE as u64, SYMBOL_SIZE as u16);
}

#[test]
fn crc_rejects_symbol_bit_flip() {
    let block: Vec<u8> = (0..DEFAULT_BLOCK_SIZE).map(|i| (i & 0xFF) as u8).collect();
    let oti = make_block_oti(block.len() as u64, SYMBOL_SIZE as u16);
    let enc = BlockEncoder::new(7, &oti, &block);
    let src = enc.source_packets();
    let mut buf = [0u8; TS_PACKET_SIZE];
    build_data_packet(0x100, 5, &oti, &src[0], &mut buf);

    // Flip one bit in the symbol region; CRC must catch it.
    buf[TS_HEADER_SIZE + FRAME_SYMBOL_OFFSET] ^= 0x01;
    assert!(matches!(parse_packet(&buf, 0x100), Err(ParseError::BadCrc)));
}

#[test]
fn crc_rejects_oti_corruption() {
    // A corrupt OTI would make RaptorQ fail; the CRC rejects it at the frame
    // boundary, before any decoder is made.
    let block: Vec<u8> = (0..DEFAULT_BLOCK_SIZE).map(|i| (i & 0xFF) as u8).collect();
    let oti = make_block_oti(block.len() as u64, SYMBOL_SIZE as u16);
    let enc = BlockEncoder::new(1, &oti, &block);
    let mut buf = [0u8; TS_PACKET_SIZE];
    build_data_packet(0x100, 0, &oti, &enc.source_packets()[0], &mut buf);

    buf[TS_HEADER_SIZE + FRAME_OTI_OFFSET] ^= 0xFF;
    assert!(matches!(parse_packet(&buf, 0x100), Err(ParseError::BadCrc)));
}

#[test]
fn crc_passes_for_clean_noop() {
    let mut buf = [0u8; TS_PACKET_SIZE];
    build_noop_packet(0x100, 1, &mut buf);
    assert!(matches!(parse_packet(&buf, 0x100), Ok(ParsedFrame::Noop { .. })));
    // Corrupt the noop stuffing -> rejected.
    buf[TS_HEADER_SIZE + 1] ^= 0xFF;
    assert!(matches!(parse_packet(&buf, 0x100), Err(ParseError::BadCrc)));
}

#[test]
fn header_roundtrip() {
    let h = TsHeader {
        tei: false,
        payload_unit_start: true,
        priority: false,
        pid: 0x1ABC,
        scrambling: 0,
        adaptation: 1,
        continuity_counter: 7,
    };
    let mut bytes = [0u8; TS_HEADER_SIZE];
    h.write(&mut bytes);
    let parsed = TsHeader::parse(&bytes).unwrap();
    assert_eq!(parsed.pid, 0x1ABC);
    assert!(parsed.payload_unit_start);
    assert_eq!(parsed.continuity_counter, 7);
}

#[test]
fn noop_roundtrip() {
    let mut buf = [0u8; TS_PACKET_SIZE];
    build_noop_packet(0x100, 3, &mut buf);
    match parse_packet(&buf, 0x100).unwrap() {
        ParsedFrame::Noop { cc } => assert_eq!(cc, 3),
        other => panic!("expected noop, got {:?}", other),
    }
}

#[test]
fn data_roundtrip() {
    let block: Vec<u8> = (0..DEFAULT_BLOCK_SIZE).map(|i| (i & 0xFF) as u8).collect();
    let oti = make_block_oti(block.len() as u64, SYMBOL_SIZE as u16);
    let enc = BlockEncoder::new(7, &oti, &block);
    let src = enc.source_packets();
    let mut buf = [0u8; TS_PACKET_SIZE];
    build_data_packet(0x100, 5, &oti, &src[0], &mut buf);
    match parse_packet(&buf, 0x100).unwrap() {
        ParsedFrame::Data {
            cc,
            oti: got_oti,
            payload_id,
            symbol,
        } => {
            assert_eq!(cc, 5);
            assert_eq!(got_oti.transfer_length(), oti.transfer_length());
            assert_eq!(payload_id.source_block_number(), 7);
            assert_eq!(payload_id.encoding_symbol_id(), 0);
            assert_eq!(symbol, src[0].data());
        }
        other => panic!("expected data, got {:?}", other),
    }
}

#[test]
fn wrong_pid_rejected() {
    let mut buf = [0u8; TS_PACKET_SIZE];
    build_noop_packet(0x100, 0, &mut buf);
    match parse_packet(&buf, 0x101) {
        Err(ParseError::WrongPid {
            got: 0x100,
            want: 0x101,
        }) => {}
        other => panic!("expected WrongPid, got {:?}", other),
    }
}

#[test]
fn tei_flag_rejected() {
    let mut buf = [0u8; TS_PACKET_SIZE];
    build_noop_packet(0x100, 0, &mut buf);
    buf[1] |= 0x80;
    match parse_packet(&buf, 0x100) {
        Err(ParseError::TransportError) => {}
        other => panic!("expected TransportError, got {:?}", other),
    }
}

#[test]
fn wire_sizes_are_fixed() {
    assert_eq!(SYMBOL_SIZE, 163);
    assert_eq!(FRAME_CRC_OFFSET, 180);
    assert_eq!(DEFAULT_BLOCK_SIZE, 63_896);
    assert_eq!(DEFAULT_BLOCK_SYMBOLS, 392);
    assert_eq!(DEFAULT_PID, 0x100);
}

#[test]
fn wrong_length_is_reported() {
    assert_eq!(parse_packet(&[], 0x100).unwrap_err(), ParseError::WrongLength(0));
    assert_eq!(parse_packet(&[0x47; 187], 0x100).unwrap_err(), ParseError::WrongLength(187));
    assert_eq!(parse_packet(&[0x47; 189], 0x100).unwrap_err(), ParseError::WrongLength(189));
}

#[test]
fn missing_sync_byte_is_reported() {
    let mut buf = [0u8; TS_PACKET_SIZE];
    build_noop_packet(0x100, 0, &mut buf);
    buf[0] = 0x46;
    assert_eq!(parse_packet(&buf, 0x100).unwrap_err(), ParseError::BadSync);
    assert!(matches!(TsHeader::parse(&[0, 0, 0, 0]), Err(ParseError::BadSync)));
}

#[test]
fn unknown_frame_type_is_reported() {
    let mut buf = [0u8; TS_PACKET_SIZE];
    build_noop_packet(0x100, 0, &mut buf);
    buf[TS_HEADER_SIZE + FRAME_TYPE_OFFSET] = 0x03;
    let crc = crc32(&buf[TS_HEADER_SIZE..TS_HEADER_SIZE + FRAME_CRC_OFFSET]);
    buf[TS_HEADER_SIZE + FRAME_CRC_OFFSET..].copy_from_slice(&crc.to_be_bytes());
    assert_eq!(parse_packet(&buf, 0x100).unwrap_err(), ParseError::UnknownFrameType(3));
}

#[test]
fn every_damaged_byte_is_noticed() {
    let mut buf = [0u8; TS_PACKET_SIZE];
    build_noop_packet(0x100, 9, &mut buf);
    for at in TS_HEADER_SIZE..TS_PACKET_SIZE {
        let mut damaged = buf;
        damaged[at] = damaged[at].wrapping_add(77);
        assert_eq!(parse_packet(&damaged, 0x100).unwrap_err(), ParseError::BadCrc);
    }
}

#[test]
fn bursts_of_four_bytes_are_noticed() {
    let mut buf = [0u8; TS_PACKET_SIZE];
    build_noop_packet(0x100, 9, &mut buf);
    for at in TS_HEADER_SIZE..=TS_HEADER_SIZE + FRAME_CRC_OFFSET - 4 {
        let mut damaged = buf;
        for (i, b) in damaged[at..at + 4].iter_mut().enumerate() {
            *b = b.wrapping_mul(31).wrapping_add((at + i) as u8);
        }
        assert_eq!(parse_packet(&damaged, 0x100).unwrap_err(), ParseError::BadCrc);
    }
}

#[test]
fn crc_goes_by_the_body() {
    let mut buf: [u8; TS_PACKET_SIZE] = std::array::from_fn(|i| i as u8);
    let before = buf;
    write_frame_crc(&mut buf);
    assert_eq!(buf[..184], before[..184]);
    assert_eq!(buf[184..], crc32(&before[4..184]).to_be_bytes());
    let once = buf;
    write_frame_crc(&mut buf);
    assert_eq!(buf, once);
    buf[..4].fill(0xEE);
    buf[184..].fill(0xEE);
    write_frame_crc(&mut buf);
    assert_eq!(buf[184..], once[184..]);
}

#[test]
fn header_fields_are_cut_to_their_width() {
    let h = TsHeader {
        tei: true,
        payload_unit_start: false,
        priority: true,
        pid: 0xFABC,
        scrambling: 7,
        adaptation: 6,
        continuity_counter: 0x2B,
    };
    let mut bytes = [0u8; TS_HEADER_SIZE];
    h.write(&mut bytes);
    assert_eq!(bytes, [0x47, 0xBA, 0xBC, 0xEB]);
    let parsed = TsHeader::parse(&bytes).unwrap();
    assert!(parsed.tei && !parsed.payload_unit_start && parsed.priority);
    assert_eq!(parsed.pid, 0x1ABC);
    assert_eq!((parsed.scrambling, parsed.adaptation, parsed.continuity_counter), (3, 2, 0x0B));
}

#[test]
fn header_bytes_survive_parsing() {
    for b in 0..=255u8 {
        let bytes = [0x47, b, b.wrapping_mul(3), b.wrapping_mul(7)];
        let mut again = [0u8; TS_HEADER_SIZE];
        TsHeader::parse(&bytes).unwrap().write(&mut again);
        assert_eq!(again, bytes);
    }
}

#[test]
fn crc_table_is_the_standard_one() {
    let table = crc32_table();
    assert_eq!(table[0], 0);
    assert_eq!(table[1], 0x7707_3096);
    assert_eq!(table[255], 0x2D02_EF8D);
    assert_eq!(crc32(&[]), 0);
    assert_eq!(crc32(&[0u8]), 0xD202_EF8D);
}

#[test]
fn counter_counts_modulo_sixteen() {
    let mut cc = ContinuityCounter::default();
    let values: Vec<u8> = (0..18).map(|_| cc.advance()).collect();
    assert_eq!(values[..3], [0, 1, 2]);
    assert_eq!(values[14..], [14, 15, 0, 1]);
}

#[test]
fn noop_packet_bytes() {
    let mut buf = [0u8; TS_PACKET_SIZE];
    build_noop_packet(0x1234, 5, &mut buf);
    assert_eq!(buf[..6], [0x47, 0x12, 0x34, 0x15, 0x02, 0xFF]);
    assert_eq!(buf[TS_HEADER_SIZE + FRAME_CRC_OFFSET - 1], 0xFF);
}

#[test]
fn data_packet_bytes() {
    let oti = make_block_oti(2 * 163, 163);
    let symbol: Vec<u8> = (0..163u32).map(|i| i as u8).collect();
    let packet = EncodingPacket::new(PayloadId::new(9, 0x01_0203), symbol.clone());
    let mut buf = [0u8; TS_PACKET_SIZE];
    build_data_packet(0x100, 2, &oti, &packet, &mut buf);
    assert_eq!(buf[..4], [0x47, 0x01, 0x00, 0x12]);
    assert_eq!(buf[4], FRAME_TYPE_DATA);
    assert_eq!(buf[5..17], [0, 0, 0, 0x01, 0x46, 0, 0, 163, 1, 0, 1, 1]);
    assert_eq!(buf[17..21], [9, 1, 2, 3]);
    assert_eq!(buf[21..184], symbol[..]);
}

#[test]
fn oti_wire_form_roundtrip() {
    let wire = [0x12, 0x34, 0x56, 0x78, 0x9A, 0, 0xBC, 0xDE, 3, 0x01, 0x02, 8];
    let oti = ObjectTransmissionInformation::deserialize(&wire);
    assert_eq!(oti.transfer_length(), 0x12_3456_789A);
    assert_eq!(oti.symbol_size(), 0xBCDE);
    assert_eq!(oti.source_blocks(), 3);
    assert_eq!(oti.sub_blocks(), 0x0102);
    assert_eq!(oti.symbol_alignment(), 8);
    assert_eq!(oti.serialize(), wire);

    let made = ObjectTransmissionInformation::new(1000, 100, 1, 2, 4);
    assert_eq!(made.transfer_length(), 1000);
    assert_eq!(made.serialize(), [0, 0, 0, 3, 0xE8, 0, 0, 100, 1, 0, 2, 4]);
}

#[test]
fn payload_id_wire_form_roundtrip() {
    let id = PayloadId::new(200, 0xAB_CDEF);
    assert_eq!(id.serialize(), [200, 0xAB, 0xCD, 0xEF]);
    let again = PayloadId::deserialize(&[200, 0xAB, 0xCD, 0xEF]);
    assert_eq!(again.source_block_number(), 200);
    assert_eq!(again.encoding_symbol_id(), 0xAB_CDEF);
}
