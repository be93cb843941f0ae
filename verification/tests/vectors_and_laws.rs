use telemutter::{
    cbor_bstr_total_len, crc32_ieee, parse_frame, parse_frame_detailed, roundtrip_status_sid32,
    roundtrip_status_sid8, sid_matches_crc, write_frame, write_frame_detailed, FrameError,
    FrameWrite, Receiver, SchemaEvent, Sid, SidMode, Vft, PROTOCOL_VERSION, SCHEMA_PAD_BYTE,
};

fn write(
    len: usize,
    lane: usize,
    start: bool,
    mode: SidMode,
    sid: Option<Sid>,
    chunk: &[u8],
    payload: &[u8],
) -> Result<Vec<u8>, FrameError> {
    let mut out = vec![0u8; len];
    write_frame(FrameWrite {
        out_frame: &mut out,
        schema_lane_bytes: lane,
        schema_start: start,
        sid_mode: mode,
        sid,
        schema_chunk: chunk,
        payload,
    })?;
    Ok(out)
}

#[test]
fn vector_a_sid8_start_writes_and_parses() {
    let f = write(8, 2, true, SidMode::Sid8, Some(Sid::Sid8(0x7A)), &[0x40], &[1, 2, 3, 4, 5]).unwrap();
    assert_eq!(f, vec![0x20, 0x7A, 0x40, 0x01, 0x02, 0x03, 0x04, 0x05]);
    let p = parse_frame(&f, 2, 0).unwrap();
    assert_eq!(p.vft, Vft { version: 0, schema_start: true, sid_mode: SidMode::Sid8 });
    assert_eq!(p.sid, Some(Sid::Sid8(0x7A)));
    assert_eq!(p.schema_chunk, &[0x40]);
    assert_eq!(p.payload, &[1, 2, 3, 4, 5]);
}

#[test]
fn vector_b_sid32_start_writes_and_parses() {
    let payload = [0xA0, 0xA1, 0xA2, 0xA3, 0xA4, 0xA5, 0xA6, 0xA7, 0xA8, 0xA9];
    let f = write(16, 5, true, SidMode::Sid32, Some(Sid::Sid32(0x1234_5678)), &[0x40], &payload).unwrap();
    assert_eq!(
        f,
        vec![0x30, 0x78, 0x56, 0x34, 0x12, 0x40, 0xA0, 0xA1, 0xA2, 0xA3, 0xA4, 0xA5, 0xA6, 0xA7, 0xA8, 0xA9]
    );
    let p = parse_frame(&f, 5, 0).unwrap();
    assert_eq!(p.sid, Some(Sid::Sid32(0x1234_5678)));
    assert_eq!(p.schema_chunk, &[0x40]);
    assert_eq!(p.payload, &payload);
}

#[test]
fn vector_c_sid32_non_start_pads_lane() {
    let payload = [0xB0, 0xB1, 0xB2, 0xB3, 0xB4, 0xB5, 0xB6, 0xB7, 0xB8, 0xB9];
    let f = write(16, 5, false, SidMode::Sid32, None, &[0xC1, 0xC2], &payload).unwrap();
    assert_eq!(
        f,
        vec![0x10, 0xC1, 0xC2, 0xA5, 0xA5, 0xA5, 0xB0, 0xB1, 0xB2, 0xB3, 0xB4, 0xB5, 0xB6, 0xB7, 0xB8, 0xB9]
    );
    let p = parse_frame(&f, 5, 0).unwrap();
    assert_eq!(p.sid, None);
    assert_eq!(p.schema_chunk, &[0xC1, 0xC2, 0xA5, 0xA5, 0xA5]);
}

#[test]
fn vector_d_receiver_installs_sid8_schema() {
    assert_eq!(crc32_ieee(&[0x40]), 0xA4DE_AE1D);
    let f = [0x20, 0x1D, 0x40, 0x01, 0x02, 0x03, 0x04, 0x05];
    let mut r: Receiver<16> = Receiver::new(16, 8);
    let out = r.process_frame(&f, 2).unwrap();
    assert_eq!(out.payload, &[1, 2, 3, 4, 5]);
    assert_eq!(out.event, Some(SchemaEvent::Complete { sid: Sid::Sid8(0x1D), schema_len: 1 }));
    assert_eq!(r.schema_bytes(), Some(&[0x40u8][..]));
    assert_eq!(r.active_sid(), Some(Sid::Sid8(0x1D)));
}

#[test]
fn vector_e_receiver_installs_sid32_two_frame_schema() {
    assert_eq!(crc32_ieee(&[0x43, 0x01, 0x02, 0x03]), 0x0218_71C0);
    let f0 = [0x30, 0xC0, 0x71, 0x18, 0x02, 0x43, 0x10, 0x11, 0x12, 0x13, 0x14, 0x15, 0x16, 0x17, 0x18, 0x19];
    let f1 = [0x10, 0x01, 0x02, 0x03, 0xA5, 0xA5, 0x20, 0x21, 0x22, 0x23, 0x24, 0x25, 0x26, 0x27, 0x28, 0x29];
    let mut r: Receiver<64> = Receiver::new(64, 8);
    let o0 = r.process_frame(&f0, 5).unwrap();
    assert_eq!(o0.event, Some(SchemaEvent::Started { sid: Sid::Sid32(0x0218_71C0) }));
    assert_eq!(r.schema_bytes(), None);
    let o1 = r.process_frame(&f1, 5).unwrap();
    assert_eq!(o1.event, Some(SchemaEvent::Complete { sid: Sid::Sid32(0x0218_71C0), schema_len: 4 }));
    assert_eq!(o1.payload, &[0x20, 0x21, 0x22, 0x23, 0x24, 0x25, 0x26, 0x27, 0x28, 0x29]);
    assert_eq!(r.schema_bytes(), Some(&[0x43u8, 0x01, 0x02, 0x03][..]));
}

#[test]
fn vectors_f_g_cbor_length_edges() {
    let f = [0x20, 0xAA, 0x57, 0, 0, 0, 0, 0];
    let p = parse_frame(&f, 2, 0).unwrap();
    assert_eq!(cbor_bstr_total_len(p.schema_chunk), Ok(Some(24)));
    let g = [0x20, 0xBB, 0x58, 0, 0, 0, 0, 0];
    let p = parse_frame(&g, 2, 0).unwrap();
    assert_eq!(cbor_bstr_total_len(p.schema_chunk), Ok(None));
    assert_eq!(cbor_bstr_total_len(&[0x58, 24]), Ok(Some(26)));
}

#[test]
fn cbor_length_all_header_forms_and_refusals() {
    assert_eq!(cbor_bstr_total_len(&[0x40]), Ok(Some(1)));
    assert_eq!(cbor_bstr_total_len(&[0x57, 9, 9]), Ok(Some(24)));
    assert_eq!(cbor_bstr_total_len(&[0x59, 0x01, 0x00]), Ok(Some(259)));
    assert_eq!(cbor_bstr_total_len(&[0x5A, 0x00, 0x01, 0x00, 0x00]), Ok(Some(65541)));
    assert_eq!(
        cbor_bstr_total_len(&[0x5A, 0xFF, 0xFF, 0xFF, 0xFF]),
        Ok(Some(5 + 0xFFFF_FFFFusize))
    );
    // Reserved additional information and indefinite length.
    assert_eq!(cbor_bstr_total_len(&[0x5B]), Err(FrameError::InvalidCborLengthPrefix));
    assert_eq!(cbor_bstr_total_len(&[0x5F]), Err(FrameError::InvalidCborLengthPrefix));
    // Another major type (text string).
    assert_eq!(cbor_bstr_total_len(&[0x60]), Err(FrameError::InvalidCborLengthPrefix));
}

#[test]
fn cbor_length_is_stable_once_header_is_complete() {
    let head = [0x59u8, 0x00, 0x03];
    let known = cbor_bstr_total_len(&head);
    for extra in 0..8u8 {
        let mut longer = head.to_vec();
        longer.extend(std::iter::repeat(extra).take(extra as usize));
        assert_eq!(cbor_bstr_total_len(&longer), known);
    }
    let bad = [0xA0u8];
    for n in 0..4 {
        let mut longer = bad.to_vec();
        longer.extend(std::iter::repeat(0x40).take(n));
        assert_eq!(cbor_bstr_total_len(&longer), Err(FrameError::InvalidCborLengthPrefix));
    }
}

#[test]
fn vft_every_byte_either_refused_or_reencodes() {
    for b in 0..=255u8 {
        match Vft::parse(b) {
            Ok(v) => assert_eq!(v.encode(), Ok(b)),
            Err(e) => {
                assert_eq!(e, FrameError::ReservedBitsSet);
                assert_ne!(b & 0x0F, 0);
            }
        }
    }
}

#[test]
fn vft_encode_then_parse_roundtrip() {
    for version in 0..4u8 {
        for start in [false, true] {
            for mode in [SidMode::Sid8, SidMode::Sid32] {
                let v = Vft { version, schema_start: start, sid_mode: mode };
                let b = v.encode().unwrap();
                assert_eq!(Vft::parse(b), Ok(v));
            }
        }
    }
    assert_eq!(
        Vft { version: 0, schema_start: true, sid_mode: SidMode::Sid32 }.encode(),
        Ok(0x30)
    );
}

#[test]
fn parse_then_write_reproduces_frame() {
    let frames: [&[u8]; 3] = [
        &[0x20, 0x7A, 0x40, 0x01, 0x02, 0x03, 0x04, 0x05],
        &[0x10, 0xC1, 0xC2, 0x00, 0x11, 0x99, 0xB0, 0xB1],
        &[0x30, 0x78, 0x56, 0x34, 0x12, 0x40, 0xEE],
    ];
    let lanes = [2usize, 5, 5];
    for (f, lane) in frames.iter().zip(lanes) {
        let p = parse_frame(f, lane, PROTOCOL_VERSION).unwrap();
        let w = write(
            f.len(),
            lane,
            p.vft.schema_start,
            p.vft.sid_mode,
            p.sid,
            p.schema_chunk,
            p.payload,
        )
        .unwrap();
        assert_eq!(&w[..], *f);
    }
}

#[test]
fn write_frame_reports_each_error_and_leaves_buffer() {
    let mut out = [7u8; 8];
    let mut run = |lane: usize, start: bool, mode: SidMode, sid: Option<Sid>, chunk: &[u8], payload: &[u8]| {
        let e = write_frame(FrameWrite {
            out_frame: &mut out,
            schema_lane_bytes: lane,
            schema_start: start,
            sid_mode: mode,
            sid,
            schema_chunk: chunk,
            payload,
        })
        .unwrap_err();
        e
    };
    let p5 = [1u8, 2, 3, 4, 5];
    assert_eq!(run(1, false, SidMode::Sid8, None, &[], &p5), FrameError::InvalidSchemaLaneWidth);
    assert_eq!(run(4, false, SidMode::Sid32, None, &[], &p5), FrameError::InvalidSchemaLaneWidth);
    assert_eq!(run(8, false, SidMode::Sid8, None, &[], &p5), FrameError::FrameTooShort);
    assert_eq!(run(7, false, SidMode::Sid8, None, &[], &[]), FrameError::InvalidPayloadLength);
    assert_eq!(run(2, false, SidMode::Sid8, None, &[], &[1]), FrameError::PayloadLenMismatch);
    assert_eq!(run(2, true, SidMode::Sid8, None, &[], &p5), FrameError::MissingSidOnStart);
    assert_eq!(
        run(2, false, SidMode::Sid8, Some(Sid::Sid8(1)), &[], &p5),
        FrameError::UnexpectedSidOnNonStart
    );
    assert_eq!(
        run(2, true, SidMode::Sid8, Some(Sid::Sid32(1)), &[], &p5),
        FrameError::SidModeMismatch
    );
    assert_eq!(
        run(2, true, SidMode::Sid8, Some(Sid::Sid8(1)), &[1, 2], &p5),
        FrameError::SchemaChunkTooLong
    );
    assert_eq!(run(2, false, SidMode::Sid8, None, &[1, 2, 3], &p5), FrameError::SchemaChunkTooLong);
    assert_eq!(out, [7u8; 8]);
    let mut tiny = [0u8; 1];
    let e = write_frame(FrameWrite {
        out_frame: &mut tiny,
        schema_lane_bytes: 2,
        schema_start: false,
        sid_mode: SidMode::Sid8,
        sid: None,
        schema_chunk: &[],
        payload: &[],
    })
    .unwrap_err();
    assert_eq!(e, FrameError::FrameTooShort);
}

#[test]
fn detailed_variants_report_sizes() {
    let e = parse_frame_detailed(&[0x00], 2, 0).unwrap_err();
    assert_eq!((e.kind, e.expected, e.actual), (FrameError::FrameTooShort, Some(4), Some(1)));
    let e = parse_frame_detailed(&[0x60, 0, 0, 0], 2, 0).unwrap_err();
    assert_eq!((e.kind, e.expected, e.actual), (FrameError::WrongProtocolVersion, Some(0), Some(1)));
    let e = parse_frame_detailed(&[0x00, 0x40, 0xA5], 2, 0).unwrap_err();
    assert_eq!((e.kind, e.expected, e.actual), (FrameError::InvalidPayloadLength, Some(1), Some(0)));
    let e = parse_frame_detailed(&[0x01, 0, 0, 0], 2, 0).unwrap_err();
    assert_eq!((e.kind, e.expected, e.actual), (FrameError::ReservedBitsSet, None, None));
    assert!(parse_frame_detailed(&[0x00, 0x40, 0xA5, 9], 2, 0).is_ok());

    let mut out = [0u8; 8];
    let e = write_frame_detailed(FrameWrite {
        out_frame: &mut out,
        schema_lane_bytes: 2,
        schema_start: false,
        sid_mode: SidMode::Sid8,
        sid: None,
        schema_chunk: &[],
        payload: &[1, 2],
    })
    .unwrap_err();
    assert_eq!((e.kind, e.expected, e.actual), (FrameError::PayloadLenMismatch, Some(5), Some(2)));
    let e = write_frame_detailed(FrameWrite {
        out_frame: &mut out,
        schema_lane_bytes: 5,
        schema_start: true,
        sid_mode: SidMode::Sid32,
        sid: Some(Sid::Sid32(9)),
        schema_chunk: &[1, 2],
        payload: &[1, 2],
    })
    .unwrap_err();
    assert_eq!((e.kind, e.expected, e.actual), (FrameError::SchemaChunkTooLong, Some(1), Some(2)));
    let e = write_frame_detailed(FrameWrite {
        out_frame: &mut out,
        schema_lane_bytes: 4,
        schema_start: true,
        sid_mode: SidMode::Sid32,
        sid: Some(Sid::Sid32(9)),
        schema_chunk: &[],
        payload: &[1, 2, 3],
    })
    .unwrap_err();
    assert_eq!((e.kind, e.expected, e.actual), (FrameError::InvalidSchemaLaneWidth, Some(5), Some(4)));
    let e = write_frame_detailed(FrameWrite {
        out_frame: &mut out,
        schema_lane_bytes: 7,
        schema_start: false,
        sid_mode: SidMode::Sid8,
        sid: None,
        schema_chunk: &[],
        payload: &[],
    })
    .unwrap_err();
    assert_eq!((e.kind, e.expected, e.actual), (FrameError::InvalidPayloadLength, Some(1), Some(0)));
    assert!(write_frame_detailed(FrameWrite {
        out_frame: &mut out,
        schema_lane_bytes: 2,
        schema_start: false,
        sid_mode: SidMode::Sid8,
        sid: None,
        schema_chunk: &[0x41],
        payload: &[1, 2, 3, 4, 5],
    })
    .is_ok());
    assert_eq!(out, [0x00, 0x41, SCHEMA_PAD_BYTE, 1, 2, 3, 4, 5]);
}

#[test]
fn sid_matches_crc_compares_low_byte_or_whole_crc() {
    assert!(sid_matches_crc(Sid::Sid8(0x1D), 0xA4DE_AE1D));
    assert!(!sid_matches_crc(Sid::Sid8(0xAE), 0xA4DE_AE1D));
    assert!(sid_matches_crc(Sid::Sid32(0xA4DE_AE1D), 0xA4DE_AE1D));
    assert!(!sid_matches_crc(Sid::Sid32(0x1D), 0xA4DE_AE1D));
}

#[test]
fn crc_of_empty_and_single_bytes() {
    assert_eq!(crc32_ieee(&[]), 0);
    assert_ne!(crc32_ieee(&[0x40]), 0x40);
    assert_eq!(crc32_ieee(b"The quick brown fox jumps over the lazy dog"), 0x414F_A339);
}

#[test]
fn embedded_roundtrip_self_checks_pass() {
    assert_eq!(roundtrip_status_sid8(), 0);
    assert_eq!(roundtrip_status_sid32(), 0);
}

fn sid8_of(schema: &[u8]) -> Sid {
    Sid::Sid8((crc32_ieee(schema) & 0xFF) as u8)
}

#[test]
fn parse_error_leaves_receiver_untouched() {
    let mut r: Receiver<16> = Receiver::new(16, 8);
    let schema = [0x43u8, 1, 2, 3];
    let sid = sid8_of(&schema);
    let f0 = write(8, 2, true, SidMode::Sid8, Some(sid), &[0x43], &[0; 5]).unwrap();
    r.process_frame(&f0, 2).unwrap();
    assert_eq!(r.process_frame(&[0x21, 0, 0, 0, 0, 0, 0, 0], 2).unwrap_err(), FrameError::ReservedBitsSet);
    assert_eq!(r.process_frame(&[0x00], 2).unwrap_err(), FrameError::FrameTooShort);
    assert_eq!(r.active_sid(), Some(sid));
    let f1 = write(8, 2, false, SidMode::Sid8, None, &[1, 2], &[0; 5]).unwrap();
    let f2 = write(8, 2, false, SidMode::Sid8, None, &[3], &[0; 5]).unwrap();
    r.process_frame(&f1, 2).unwrap();
    let out = r.process_frame(&f2, 2).unwrap();
    assert_eq!(out.event, Some(SchemaEvent::Complete { sid, schema_len: 4 }));
    assert_eq!(r.schema_bytes(), Some(&schema[..]));
}

#[test]
fn assembly_errors_abort_and_clear_sid() {
    // Not a byte string.
    let mut r: Receiver<16> = Receiver::new(16, 8);
    let f = write(8, 2, true, SidMode::Sid8, Some(Sid::Sid8(1)), &[0xA0], &[0; 5]).unwrap();
    assert_eq!(r.process_frame(&f, 2).unwrap_err(), FrameError::InvalidCborLengthPrefix);
    assert_eq!(r.active_sid(), None);
    assert_eq!(r.schema_bytes(), None);
    // Larger than the buffer (N = 4) even though the byte budget allows it.
    let mut r: Receiver<4> = Receiver::new(100, 8);
    let f = write(8, 2, true, SidMode::Sid8, Some(Sid::Sid8(1)), &[0x44], &[0; 5]).unwrap();
    assert_eq!(r.process_frame(&f, 2).unwrap_err(), FrameError::SchemaTooLarge);
    assert_eq!(r.active_sid(), None);
    // CRC mismatch on a one-byte schema completes and fails on the start frame.
    let mut r: Receiver<4> = Receiver::new(4, 8);
    let wrong = match sid8_of(&[0x40]) {
        Sid::Sid8(v) => Sid::Sid8(v ^ 1),
        s => s,
    };
    let f = write(8, 2, true, SidMode::Sid8, Some(wrong), &[0x40], &[0; 5]).unwrap();
    assert_eq!(r.process_frame(&f, 2).unwrap_err(), FrameError::SchemaCrcMismatch);
    assert_eq!(r.active_sid(), None);
    assert_eq!(r.schema_bytes(), None);
}

#[test]
fn non_start_frames_without_assembly_change_nothing() {
    let mut r: Receiver<16> = Receiver::new(16, 8);
    let f = write(8, 2, false, SidMode::Sid8, None, &[0x40, 0x40], &[5; 5]).unwrap();
    for _ in 0..3 {
        let out = r.process_frame(&f, 2).unwrap();
        assert_eq!(out.event, None);
        assert_eq!(out.payload, &[5; 5]);
    }
    assert_eq!(r.active_sid(), None);
    assert_eq!(r.schema_bytes(), None);
}

#[test]
fn progress_events_count_received_bytes() {
    let schema = [0x45u8, 1, 2, 3, 4, 5];
    let sid = sid8_of(&schema);
    let mut r: Receiver<16> = Receiver::new(16, 8);
    let f0 = write(8, 2, true, SidMode::Sid8, Some(sid), &schema[..1], &[0; 5]).unwrap();
    assert_eq!(r.process_frame(&f0, 2).unwrap().event, Some(SchemaEvent::Started { sid }));
    let f1 = write(8, 2, false, SidMode::Sid8, None, &schema[1..3], &[0; 5]).unwrap();
    assert_eq!(
        r.process_frame(&f1, 2).unwrap().event,
        Some(SchemaEvent::Progress { sid, received: 3, expected_total: Some(6) })
    );
    let f2 = write(8, 2, false, SidMode::Sid8, None, &schema[3..5], &[0; 5]).unwrap();
    assert_eq!(
        r.process_frame(&f2, 2).unwrap().event,
        Some(SchemaEvent::Progress { sid, received: 5, expected_total: Some(6) })
    );
    let f3 = write(8, 2, false, SidMode::Sid8, None, &schema[5..], &[0; 5]).unwrap();
    assert_eq!(
        r.process_frame(&f3, 2).unwrap().event,
        Some(SchemaEvent::Complete { sid, schema_len: 6 })
    );
    assert_eq!(r.schema_bytes(), Some(&schema[..]));
}

#[test]
fn long_header_is_discovered_across_frames() {
    // A 25-byte body: header 0x58 0x19, total 27 bytes, split one byte at a time.
    let mut schema = vec![0x58u8, 25];
    schema.extend(0..25u8);
    let sid = Sid::Sid32(crc32_ieee(&schema));
    let mut r: Receiver<32> = Receiver::new(32, 64);
    let f0 = write(8, 5, true, SidMode::Sid32, Some(sid), &schema[..1], &[0; 2]).unwrap();
    assert_eq!(
        r.process_frame(&f0, 5).unwrap().event,
        Some(SchemaEvent::Started { sid })
    );
    let mut i = 1;
    while i < schema.len() {
        let j = (i + 5).min(schema.len());
        let f = write(8, 5, false, SidMode::Sid32, None, &schema[i..j], &[0; 2]).unwrap();
        let ev = r.process_frame(&f, 5).unwrap().event;
        if j < schema.len() {
            assert_eq!(ev, Some(SchemaEvent::Progress { sid, received: j, expected_total: Some(27) }));
        } else {
            assert_eq!(ev, Some(SchemaEvent::Complete { sid, schema_len: 27 }));
        }
        i = j;
    }
    assert_eq!(r.schema_bytes(), Some(&schema[..]));
}
