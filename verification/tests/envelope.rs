use telemutter::{
    cbor_bstr_total_len, crc32_ieee, parse_frame, parse_frame_detailed, write_frame, FrameError,
    FrameWrite, Receiver, SchemaEvent, Sid, SidMode, Vft, PROTOCOL_VERSION, SCHEMA_PAD_BYTE,
};

fn vft(schema_start: bool, sid_mode: SidMode) -> u8 {
    Vft {
        version: PROTOCOL_VERSION,
        schema_start,
        sid_mode,
    }
    .encode()
    .unwrap()
}

#[test]
fn crc_check_vector() {
    assert_eq!(crc32_ieee(b"123456789"), 0xCBF4_3926);
}

#[test]
fn parse_sid8_start_x8_s2() {
    let frame = [vft(true, SidMode::Sid8), 0x7A, 0x40, 1, 2, 3, 4, 5];
    let parsed = parse_frame(&frame, 2, PROTOCOL_VERSION).unwrap();
    assert_eq!(parsed.sid, Some(Sid::Sid8(0x7A)));
    assert_eq!(parsed.schema_chunk, &[0x40]);
    assert_eq!(parsed.payload, &[1, 2, 3, 4, 5]);
}

#[test]
fn parse_sid32_start_x8_s5() {
    let frame = [vft(true, SidMode::Sid32), 1, 2, 3, 4, 0x40, 0xAA, 0xBB];
    let parsed = parse_frame(&frame, 5, PROTOCOL_VERSION).unwrap();
    assert_eq!(parsed.sid, Some(Sid::Sid32(0x0403_0201)));
    assert_eq!(parsed.schema_chunk, &[0x40]);
    assert_eq!(parsed.payload, &[0xAA, 0xBB]);
}

#[test]
fn receiver_installs_empty_bstr_sid8() {
    let schema = [0x40u8]; // CBOR empty bstr
    let sid8 = (crc32_ieee(&schema) & 0xFF) as u8;
    let mut r: Receiver<64> = Receiver::new(64, 8);

    let frame = [vft(true, SidMode::Sid8), sid8, 0x40, 1, 2, 3, 4, 5];
    let out = r.process_frame(&frame, 2).unwrap();
    assert_eq!(out.payload, &[1, 2, 3, 4, 5]);
    // Schema fits in one frame, so we get Complete directly.
    assert!(matches!(
        out.event,
        Some(SchemaEvent::Complete {
            sid: Sid::Sid8(_),
            schema_len: 1
        })
    ));

    let frame2 = [
        vft(false, SidMode::Sid8),
        SCHEMA_PAD_BYTE,
        SCHEMA_PAD_BYTE,
        9,
        9,
        9,
        9,
        9,
    ];
    let out2 = r.process_frame(&frame2, 2).unwrap();
    assert!(matches!(
        out2.event,
        Some(SchemaEvent::Complete {
            sid: Sid::Sid8(_),
            schema_len: 1
        })
    ));
}

#[test]
fn receiver_sid32_two_frames() {
    // Schema stream is a bstr containing "{}": 0x41 0xA0
    let schema = [0x41u8, 0xA0];
    let sid = crc32_ieee(&schema);
    let sid_le = sid.to_le_bytes();
    let mut r: Receiver<64> = Receiver::new(64, 8);

    // X=8, S=5: start frame contributes 1 schema byte after sid prefix.
    let f1 = [
        vft(true, SidMode::Sid32),
        sid_le[0],
        sid_le[1],
        sid_le[2],
        sid_le[3],
        schema[0],
        0x11,
        0x22,
    ];
    let out1 = r.process_frame(&f1, 5).unwrap();
    assert_eq!(out1.payload, &[0x11, 0x22]);
    assert!(matches!(
        out1.event,
        Some(SchemaEvent::Started { sid: Sid::Sid32(_) })
    ));

    let f2 = [
        vft(false, SidMode::Sid32),
        schema[1],
        SCHEMA_PAD_BYTE,
        SCHEMA_PAD_BYTE,
        SCHEMA_PAD_BYTE,
        SCHEMA_PAD_BYTE,
        0x33,
        0x44,
    ];
    let out2 = r.process_frame(&f2, 5).unwrap();
    assert!(matches!(
        out2.event,
        Some(SchemaEvent::Complete {
            sid: Sid::Sid32(_),
            schema_len: 2
        })
    ));
    assert_eq!(out2.payload, &[0x33, 0x44]);
}

#[test]
fn vft_parse_rejects_reserved_bits() {
    let bad = 0b0000_0001;
    let err = Vft::parse(bad).unwrap_err();
    assert_eq!(err, FrameError::ReservedBitsSet);
}

#[test]
fn vft_encode_rejects_invalid_version() {
    let v = Vft {
        version: 4,
        schema_start: false,
        sid_mode: SidMode::Sid8,
    };
    let err = v.encode().unwrap_err();
    assert_eq!(err, FrameError::InvalidVersion);
}

#[test]
fn parse_frame_rejects_too_short() {
    let frame = [vft(false, SidMode::Sid8)];
    let err = parse_frame(&frame, 2, PROTOCOL_VERSION).unwrap_err();
    assert_eq!(err, FrameError::FrameTooShort);
}

#[test]
fn parse_frame_rejects_wrong_version() {
    let frame = [vft(false, SidMode::Sid8), 0x40, 1, 2];
    let err = parse_frame(&frame, 2, 1).unwrap_err();
    assert_eq!(err, FrameError::WrongProtocolVersion);
}

#[test]
fn parse_frame_rejects_schema_lane_too_small_for_sid32() {
    let frame = [vft(true, SidMode::Sid32), 1, 2, 3, 4, 5, 6, 7];
    let err = parse_frame(&frame, 4, PROTOCOL_VERSION).unwrap_err();
    assert_eq!(err, FrameError::InvalidSchemaLaneWidth);
}

#[test]
fn parse_frame_rejects_zero_payload() {
    let frame = [vft(false, SidMode::Sid8), 0x40, 0xA5];
    let err = parse_frame(&frame, 2, PROTOCOL_VERSION).unwrap_err();
    assert_eq!(err, FrameError::InvalidPayloadLength);
}

#[test]
fn receiver_exposes_active_sid_and_schema_bytes() {
    let schema = [0x40u8];
    let sid8 = (crc32_ieee(&schema) & 0xFF) as u8;
    let mut r: Receiver<16> = Receiver::new(16, 8);

    let f1 = [vft(true, SidMode::Sid8), sid8, 0x40, 9, 9, 9, 9, 9];
    let _ = r.process_frame(&f1, 2).unwrap();
    assert_eq!(r.active_sid(), Some(Sid::Sid8(sid8)));
    assert_eq!(r.schema_bytes(), Some(&schema[..]));

    let f2 = [
        vft(false, SidMode::Sid8),
        SCHEMA_PAD_BYTE,
        SCHEMA_PAD_BYTE,
        1,
        1,
        1,
        1,
        1,
    ];
    let _ = r.process_frame(&f2, 2).unwrap();
    assert_eq!(r.schema_bytes(), Some(&schema[..]));
}

#[test]
fn receiver_completed_schema_ignores_budget_on_padding_frames() {
    let schema = [0x40u8]; // Empty CBOR bstr: completes on start frame.
    let sid8 = (crc32_ieee(&schema) & 0xFF) as u8;
    let mut r: Receiver<16> = Receiver::new(16, 1);

    let start = [vft(true, SidMode::Sid8), sid8, 0x40, 1, 1, 1, 1, 1];
    let pad = [
        vft(false, SidMode::Sid8),
        SCHEMA_PAD_BYTE,
        SCHEMA_PAD_BYTE,
        2,
        2,
        2,
        2,
        2,
    ];

    let _ = r.process_frame(&start, 2).unwrap();
    assert_eq!(r.schema_bytes(), Some(&schema[..]));

    // Must not fail even though max_schema_frames is already reached.
    let _ = r.process_frame(&pad, 2).unwrap();
    let _ = r.process_frame(&pad, 2).unwrap();
    assert_eq!(r.schema_bytes(), Some(&schema[..]));
}

#[test]
fn receiver_rejects_crc_mismatch_sid32() {
    let mut r: Receiver<16> = Receiver::new(16, 8);
    let bad_sid = 0x1122_3344u32.to_le_bytes();

    // Schema stream len 2 (0x41, 0xA0), so mismatch is detected on second frame.
    let f1 = [
        vft(true, SidMode::Sid32),
        bad_sid[0],
        bad_sid[1],
        bad_sid[2],
        bad_sid[3],
        0x41,
        0,
        0,
    ];
    let _ = r.process_frame(&f1, 5).unwrap();
    let f2 = [
        vft(false, SidMode::Sid32),
        0xA0,
        SCHEMA_PAD_BYTE,
        SCHEMA_PAD_BYTE,
        SCHEMA_PAD_BYTE,
        SCHEMA_PAD_BYTE,
        0,
        0,
    ];
    let err = r.process_frame(&f2, 5).unwrap_err();
    assert_eq!(err, FrameError::SchemaCrcMismatch);
}

#[test]
fn receiver_enforces_frame_budget() {
    // Total len=3 bytes (0x43 xx xx), with S=2 sid8 mode:
    // start gives 1 byte, each non-start gives 2 bytes.
    let schema = [0x43u8, 0xAA, 0xBB];
    let sid8 = (crc32_ieee(&schema) & 0xFF) as u8;
    let mut r: Receiver<16> = Receiver::new(16, 1);

    let f1 = [vft(true, SidMode::Sid8), sid8, 0x43, 9, 9, 9, 9, 9];
    let _ = r.process_frame(&f1, 2).unwrap();

    let f2 = [vft(false, SidMode::Sid8), 0xAA, 0xBB, 1, 1, 1, 1, 1];
    let err = r.process_frame(&f2, 2).unwrap_err();
    assert_eq!(err, FrameError::SchemaFrameBudgetExceeded);
}

#[test]
fn receiver_rejects_schema_too_large_after_len_discovery() {
    // bstr with ai=24, length=2 -> total stream len = 4 (0x58, 0x02, xx, xx)
    let mut r: Receiver<16> = Receiver::new(3, 8);
    let sid8 = 0u8;

    let f1 = [vft(true, SidMode::Sid8), sid8, 0x58, 9, 9, 9, 9, 9];
    let _ = r.process_frame(&f1, 2).unwrap();
    let f2 = [vft(false, SidMode::Sid8), 0x02, 0xAA, 1, 1, 1, 1, 1];
    let err = r.process_frame(&f2, 2).unwrap_err();
    assert_eq!(err, FrameError::SchemaTooLarge);
}

#[test]
fn receiver_progress_event_is_emitted() {
    // Total schema stream len = 11 bytes (0x4A + 10 payload bytes).
    let schema = [0x4Au8, 1, 2, 3, 4, 5, 6, 7, 8, 9, 10];
    let sid = crc32_ieee(&schema).to_le_bytes();
    let mut r: Receiver<64> = Receiver::new(64, 8);

    let f1 = [
        vft(true, SidMode::Sid32),
        sid[0],
        sid[1],
        sid[2],
        sid[3],
        0x4A,
        0,
        0,
    ];
    let _ = r.process_frame(&f1, 5).unwrap();

    let f2 = [vft(false, SidMode::Sid32), 1, 2, 3, 4, 5, 0, 0];
    let out2 = r.process_frame(&f2, 5).unwrap();
    assert!(matches!(
        out2.event,
        Some(SchemaEvent::Progress {
            sid: Sid::Sid32(_),
            received: 6,
            expected_total: Some(11)
        })
    ));
}

#[test]
fn cbor_bstr_len_parser_edges() {
    assert_eq!(cbor_bstr_total_len(&[]).unwrap(), None);
    assert_eq!(
        cbor_bstr_total_len(&[0xA0]).unwrap_err(),
        FrameError::InvalidCborLengthPrefix
    );

    // ai=24
    assert_eq!(cbor_bstr_total_len(&[0x58]).unwrap(), None);
    assert_eq!(cbor_bstr_total_len(&[0x58, 0x02]).unwrap(), Some(4));

    // ai=25
    assert_eq!(cbor_bstr_total_len(&[0x59, 0x00]).unwrap(), None);
    assert_eq!(cbor_bstr_total_len(&[0x59, 0x00, 0x03]).unwrap(), Some(6));

    // ai=26
    assert_eq!(cbor_bstr_total_len(&[0x5A, 0, 0, 0]).unwrap(), None);
    assert_eq!(
        cbor_bstr_total_len(&[0x5A, 0, 0, 0, 0x02]).unwrap(),
        Some(7)
    );
}

#[test]
fn write_then_parse_sid8_start_roundtrip() {
    let mut frame = [0u8; 8];
    write_frame(FrameWrite {
        out_frame: &mut frame,
        schema_lane_bytes: 2,
        schema_start: true,
        sid_mode: SidMode::Sid8,
        sid: Some(Sid::Sid8(0x7A)),
        schema_chunk: &[0x40],
        payload: &[1, 2, 3, 4, 5],
    })
    .unwrap();

    let parsed = parse_frame(&frame, 2, PROTOCOL_VERSION).unwrap();
    assert_eq!(parsed.sid, Some(Sid::Sid8(0x7A)));
    assert_eq!(parsed.schema_chunk, &[0x40]);
    assert_eq!(parsed.payload, &[1, 2, 3, 4, 5]);
}

#[test]
fn write_then_parse_sid32_nonstart_roundtrip_with_padding() {
    let mut frame = [0u8; 8];
    write_frame(FrameWrite {
        out_frame: &mut frame,
        schema_lane_bytes: 5,
        schema_start: false,
        sid_mode: SidMode::Sid32,
        sid: None,
        schema_chunk: &[0x41, 0xA0],
        payload: &[0xAA, 0xBB],
    })
    .unwrap();

    let parsed = parse_frame(&frame, 5, PROTOCOL_VERSION).unwrap();
    assert_eq!(parsed.sid, None);
    assert_eq!(&parsed.schema_chunk[..2], &[0x41, 0xA0]);
    assert_eq!(&parsed.schema_chunk[2..], &[SCHEMA_PAD_BYTE; 3]);
    assert_eq!(parsed.payload, &[0xAA, 0xBB]);
}

#[test]
fn write_frame_rejects_bad_sid_contracts() {
    let mut frame = [0u8; 8];
    let err = write_frame(FrameWrite {
        out_frame: &mut frame,
        schema_lane_bytes: 2,
        schema_start: true,
        sid_mode: SidMode::Sid8,
        sid: None,
        schema_chunk: &[0x40],
        payload: &[1, 2, 3, 4, 5],
    })
    .unwrap_err();
    assert_eq!(err, FrameError::MissingSidOnStart);

    let err2 = write_frame(FrameWrite {
        out_frame: &mut frame,
        schema_lane_bytes: 2,
        schema_start: false,
        sid_mode: SidMode::Sid8,
        sid: Some(Sid::Sid8(1)),
        schema_chunk: &[0x40, 0xA5],
        payload: &[1, 2, 3, 4, 5],
    })
    .unwrap_err();
    assert_eq!(err2, FrameError::UnexpectedSidOnNonStart);
}

#[test]
fn diagnostic_parse_reports_expected_actual() {
    let frame = [0x30, 1, 2, 3, 4, 0x40, 0xAA, 0xBB];
    let err = parse_frame_detailed(&frame, 2, PROTOCOL_VERSION).unwrap_err();
    assert_eq!(err.kind, FrameError::InvalidSchemaLaneWidth);
    assert_eq!(err.expected, Some(5));
    assert_eq!(err.actual, Some(2));
}
