//! Parsing and writing one fixed-size frame: `VFT | schema lane | payload`.

use vstd::prelude::*;
use vstd::slice::slice_subrange;
use crate::vft::{
    lemma_vft_decode_fields, lemma_vft_decode_encode, lemma_vft_encode_decode, sid_fits_mode, sid_prefix_len, vft_byte, vft_decode, FrameError, Sid, SidMode, Vft,
    PROTOCOL_VERSION, SCHEMA_PAD_BYTE,
};

verus! {

/// Little-endian value of four bytes, as the wire carries a `sid32`.
pub open spec fn le32(b0: u8, b1: u8, b2: u8, b3: u8) -> nat {
    (b0 as nat) + (b1 as nat) * 256 + (b2 as nat) * 65536 + (b3 as nat) * 16777216
}

/// The four wire bytes of a `sid32` value, least significant first.
pub open spec fn le32_bytes(v: u32) -> Seq<u8> {
    seq![
        (v % 256) as u8,
        ((v / 256) % 256) as u8,
        ((v / 65536) % 256) as u8,
        (v / 16777216) as u8,
    ]
}

/// Parsed frame view. All slices borrow directly from the input frame.
#[derive(Debug)]
pub struct ParsedFrame<'a> {
    pub vft: Vft,
    pub sid: Option<Sid>,
    pub schema_chunk: &'a [u8],
    pub payload: &'a [u8],
}

/// The content of a parsed frame, as values.
pub struct FrameView {
    pub vft: Vft,
    pub sid: Option<Sid>,
    pub schema_chunk: Seq<u8>,
    pub payload: Seq<u8>,
}

impl<'a> View for ParsedFrame<'a> {
    type V = FrameView;

    open spec fn view(&self) -> FrameView {
        FrameView {
            vft: self.vft,
            sid: self.sid,
            schema_chunk: self.schema_chunk@,
            payload: self.payload@,
        }
    }
}

/// SID and schema chunk carried by a schema lane, given the frame's VFT.
pub open spec fn split_lane(vft: Vft, lane: Seq<u8>) -> (Option<Sid>, Seq<u8>) {
    if vft.schema_start {
        match vft.sid_mode {
            SidMode::Sid8 => (Some(Sid::Sid8(lane[0])), lane.skip(1)),
            SidMode::Sid32 => (
                Some(Sid::Sid32(le32(lane[0], lane[1], lane[2], lane[3]) as u32)),
                lane.skip(4),
            ),
        }
    } else {
        (None, lane)
    }
}

/// What parsing `frame` with lane width `lane_width` gives: the first failing
/// check, in the order the protocol lists them, or the frame's fields.
pub open spec fn frame_parse(frame: Seq<u8>, lane_width: int, expected_version: u8) -> Result<
    FrameView,
    FrameError,
> {
    if frame.len() < 2 {
        Err(FrameError::FrameTooShort)
    } else {
        match vft_decode(frame[0]) {
            Err(e) => Err(e),
            Ok(vft) => {
                if vft.version != expected_version {
                    Err(FrameError::WrongProtocolVersion)
                } else if lane_width < sid_prefix_len(vft.sid_mode) + 1 {
                    Err(FrameError::InvalidSchemaLaneWidth)
                } else if frame.len() < 1 + lane_width {
                    Err(FrameError::FrameTooShort)
                } else if frame.len() == 1 + lane_width {
                    Err(FrameError::InvalidPayloadLength)
                } else {
                    let (sid, chunk) = split_lane(vft, frame.subrange(1, 1 + lane_width));
                    Ok(
                        FrameView {
                            vft,
                            sid,
                            schema_chunk: chunk,
                            payload: frame.subrange(1 + lane_width, frame.len() as int),
                        },
                    )
                }
            },
        }
    }
}

/// Parse one fixed-size frame according to the v1 minimal envelope.
///
/// `schema_lane_bytes` is deployment/epoch configuration (`S`).
pub fn parse_frame<'a>(frame: &'a [u8], schema_lane_bytes: usize, expected_version: u8) -> (r:
    Result<ParsedFrame<'a>, FrameError>)
    ensures
        r matches Ok(p) ==> frame_parse(frame@, schema_lane_bytes as int, expected_version) == Ok::<
            FrameView,
            FrameError,
        >(p@),
        r matches Err(e) ==> frame_parse(frame@, schema_lane_bytes as int, expected_version) == Err::<
            FrameView,
            FrameError,
        >(e),
{
    if frame.len() < 2 {
        return Err(FrameError::FrameTooShort);
    }
    let vft = match Vft::parse(frame[0]) {
        Ok(v) => v,
        Err(e) => return Err(e),
    };
    if vft.version != expected_version {
        return Err(FrameError::WrongProtocolVersion);
    }
    let sid_prefix_len: usize = match vft.sid_mode {
        SidMode::Sid8 => 1,
        SidMode::Sid32 => 4,
    };
    let min_s = sid_prefix_len + 1;
    if schema_lane_bytes < min_s {
        return Err(FrameError::InvalidSchemaLaneWidth);
    }
    // The frame must hold the VFT byte and the whole lane.
    if schema_lane_bytes >= frame.len() {
        return Err(FrameError::FrameTooShort);
    }
    let lane_end = 1 + schema_lane_bytes;
    let payload_len = frame.len() - lane_end;
    if payload_len == 0 {
        return Err(FrameError::InvalidPayloadLength);
    }
    let lane = slice_subrange(frame, 1, lane_end);
    let payload = slice_subrange(frame, lane_end, frame.len());
    let (sid, schema_chunk) = if vft.schema_start {
        match vft.sid_mode {
            SidMode::Sid8 => (Some(Sid::Sid8(lane[0])), slice_subrange(lane, 1, lane.len())),
            SidMode::Sid32 => {
                let sid: u32 = (lane[0] as u32) + (lane[1] as u32) * 256 + (lane[2] as u32) * 65536
                    + (lane[3] as u32) * 16777216;
                (Some(Sid::Sid32(sid)), slice_subrange(lane, 4, lane.len()))
            },
        }
    } else {
        (None, lane)
    };
    let r = ParsedFrame { vft, sid, schema_chunk, payload };
    assert(r@.schema_chunk =~= split_lane(vft, frame@.subrange(1, 1 + schema_lane_bytes)).1);
    Ok(r)
}

/// Inputs for writing one fixed-size frame.
pub struct FrameWrite<'a> {
    pub out_frame: &'a mut [u8],
    pub schema_lane_bytes: usize,
    pub schema_start: bool,
    pub sid_mode: SidMode,
    pub sid: Option<Sid>,
    pub schema_chunk: &'a [u8],
    pub payload: &'a [u8],
}

/// Wire bytes of an optional SID (none on non-start frames).
pub open spec fn sid_wire_bytes(sid: Option<Sid>) -> Seq<u8> {
    match sid {
        None => Seq::empty(),
        Some(Sid::Sid8(v)) => seq![v],
        Some(Sid::Sid32(v)) => le32_bytes(v),
    }
}

/// `n` schema-lane padding bytes.
pub open spec fn pad_bytes(n: nat) -> Seq<u8> {
    Seq::new(n, |i: int| SCHEMA_PAD_BYTE)
}

/// Room for schema bytes in a lane of width `lane_width`.
pub open spec fn chunk_capacity(lane_width: int, schema_start: bool, sid_mode: SidMode) -> int {
    if schema_start {
        lane_width - sid_prefix_len(sid_mode)
    } else {
        lane_width
    }
}

/// What writing a frame of `frame_len` bytes gives: the first failing check,
/// or the frame's bytes: VFT, SID (start frames only), schema chunk, padding
/// up to the lane's end, payload.
pub open spec fn frame_write(
    frame_len: int,
    lane_width: int,
    schema_start: bool,
    sid_mode: SidMode,
    sid: Option<Sid>,
    chunk: Seq<u8>,
    payload: Seq<u8>,
) -> Result<Seq<u8>, FrameError> {
    if lane_width < sid_prefix_len(sid_mode) + 1 {
        Err(FrameError::InvalidSchemaLaneWidth)
    } else if frame_len < 2 {
        Err(FrameError::FrameTooShort)
    } else if frame_len < 1 + lane_width {
        Err(FrameError::FrameTooShort)
    } else if frame_len == 1 + lane_width {
        Err(FrameError::InvalidPayloadLength)
    } else if payload.len() != frame_len - 1 - lane_width {
        Err(FrameError::PayloadLenMismatch)
    } else if schema_start && sid is None {
        Err(FrameError::MissingSidOnStart)
    } else if !schema_start && sid is Some {
        Err(FrameError::UnexpectedSidOnNonStart)
    } else if sid matches Some(s) && !sid_fits_mode(s, sid_mode) {
        Err(FrameError::SidModeMismatch)
    } else if chunk.len() > chunk_capacity(lane_width, schema_start, sid_mode) {
        Err(FrameError::SchemaChunkTooLong)
    } else {
        Ok(
            seq![vft_byte(PROTOCOL_VERSION, schema_start, sid_mode)] + sid_wire_bytes(sid) + chunk
                + pad_bytes(
                (chunk_capacity(lane_width, schema_start, sid_mode) - chunk.len()) as nat,
            ) + payload,
        )
    }
}

/// Write one frame into `out_frame` using the same envelope rules as `parse_frame`.
///
/// - On `schema_start=1`, SID is prefixed inside schema lane.
/// - Unused schema lane bytes are padded with `SCHEMA_PAD_BYTE`.
/// - On error `out_frame` is left untouched.
pub fn write_frame(args: FrameWrite<'_>) -> (r: Result<(), FrameError>)
    ensures
        r matches Ok(_) ==> frame_write(
            old(args.out_frame)@.len() as int,
            args.schema_lane_bytes as int,
            args.schema_start,
            args.sid_mode,
            args.sid,
            args.schema_chunk@,
            args.payload@,
        ) == Ok::<Seq<u8>, FrameError>(final(args.out_frame)@),
        r matches Err(e) ==> frame_write(
            old(args.out_frame)@.len() as int,
            args.schema_lane_bytes as int,
            args.schema_start,
            args.sid_mode,
            args.sid,
            args.schema_chunk@,
            args.payload@,
        ) == Err::<Seq<u8>, FrameError>(e) && final(args.out_frame)@ == old(args.out_frame)@,
{
    let FrameWrite { out_frame, schema_lane_bytes, schema_start, sid_mode, sid, schema_chunk, payload } = args;
    let sid_prefix_len: usize = match sid_mode {
        SidMode::Sid8 => 1,
        SidMode::Sid32 => 4,
    };
    let min_s = sid_prefix_len + 1;
    if schema_lane_bytes < min_s {
        return Err(FrameError::InvalidSchemaLaneWidth);
    }
    if out_frame.len() < 2 {
        return Err(FrameError::FrameTooShort);
    }
    if schema_lane_bytes >= out_frame.len() {
        return Err(FrameError::FrameTooShort);
    }
    let lane_end = 1 + schema_lane_bytes;
    let payload_len = out_frame.len() - lane_end;
    if payload_len == 0 {
        return Err(FrameError::InvalidPayloadLength);
    }
    if payload.len() != payload_len {
        return Err(FrameError::PayloadLenMismatch);
    }
    if schema_start && sid.is_none() {
        return Err(FrameError::MissingSidOnStart);
    }
    if !schema_start && sid.is_some() {
        return Err(FrameError::UnexpectedSidOnNonStart);
    }
    // Validate SID variant matches sid_mode when provided.
    if let Some(s) = sid {
        match (sid_mode, s) {
            (SidMode::Sid8, Sid::Sid8(_)) | (SidMode::Sid32, Sid::Sid32(_)) => {},
            _ => return Err(FrameError::SidModeMismatch),
        }
    }
    let schema_cap = if schema_start {
        schema_lane_bytes - sid_prefix_len
    } else {
        schema_lane_bytes
    };
    if schema_chunk.len() > schema_cap {
        return Err(FrameError::SchemaChunkTooLong);
    }
    let vft = match (Vft { version: PROTOCOL_VERSION, schema_start, sid_mode }).encode() {
        Ok(b) => b,
        Err(e) => return Err(e),
    };
    let ghost expected = frame_write(
        out_frame@.len() as int,
        schema_lane_bytes as int,
        schema_start,
        sid_mode,
        sid,
        schema_chunk@,
        payload@,
    )->Ok_0;
    let ghost n = out_frame@.len();
    assert(expected.len() == n);
    out_frame[0] = vft;
    let mut pos: usize = 1;
    // SID prefix for start frames.
    match sid {
        Some(Sid::Sid8(v)) => {
            out_frame[1] = v;
            pos = 2;
        },
        Some(Sid::Sid32(v)) => {
            out_frame[1] = (v % 256) as u8;
            out_frame[2] = ((v / 256) % 256) as u8;
            out_frame[3] = ((v / 65536) % 256) as u8;
            out_frame[4] = (v / 16777216) as u8;
            pos = 5;
        },
        None => {},
    }
    assert(out_frame@.subrange(0, pos as int) =~= expected.subrange(0, pos as int));
    // Schema chunk.
    let chunk_start = pos;
    let mut i: usize = 0;
    while i < schema_chunk.len()
        invariant
            out_frame@.len() == n,
            expected.len() == n,
            pos == chunk_start + i,
            i <= schema_chunk@.len(),
            chunk_start + schema_chunk@.len() <= lane_end,
            lane_end < n,
            expected.subrange(chunk_start as int, chunk_start + schema_chunk@.len())
                =~= schema_chunk@,
            out_frame@.subrange(0, pos as int) =~= expected.subrange(0, pos as int),
        decreases schema_chunk@.len() - i,
    {
        out_frame[pos] = schema_chunk[i];
        assert(expected[pos as int] == expected.subrange(
            chunk_start as int,
            chunk_start + schema_chunk@.len(),
        )[i as int]);
        pos = pos + 1;
        i = i + 1;
        assert(out_frame@.subrange(0, pos as int) =~= expected.subrange(0, pos as int));
    }
    // Padding up to the end of the lane.
    while pos < lane_end
        invariant
            out_frame@.len() == n,
            expected.len() == n,
            chunk_start + schema_chunk@.len() <= pos <= lane_end,
            lane_end < n,
            forall|k: int|
                chunk_start + schema_chunk@.len() <= k < lane_end ==> #[trigger] expected[k]
                    == SCHEMA_PAD_BYTE,
            out_frame@.subrange(0, pos as int) =~= expected.subrange(0, pos as int),
        decreases lane_end - pos,
    {
        out_frame[pos] = SCHEMA_PAD_BYTE;
        pos = pos + 1;
        assert(out_frame@.subrange(0, pos as int) =~= expected.subrange(0, pos as int));
    }
    // Payload.
    let mut j: usize = 0;
    while j < payload.len()
        invariant
            out_frame@.len() == n,
            expected.len() == n,
            pos == lane_end + j,
            j <= payload@.len(),
            lane_end + payload@.len() == n,
            expected.subrange(lane_end as int, n as int) =~= payload@,
            out_frame@.subrange(0, pos as int) =~= expected.subrange(0, pos as int),
        decreases payload@.len() - j,
    {
        out_frame[pos] = payload[j];
        assert(expected[pos as int] == expected.subrange(lane_end as int, n as int)[j as int]);
        pos = pos + 1;
        j = j + 1;
        assert(out_frame@.subrange(0, pos as int) =~= expected.subrange(0, pos as int));
    }
    assert(out_frame@ =~= out_frame@.subrange(0, pos as int));
    assert(expected =~= expected.subrange(0, pos as int));
    Ok(())
}

/// The four `sid32` wire bytes read back as the value they were written from.
pub proof fn lemma_le32_roundtrip(v: u32)
    ensures
        ({
            let b = le32_bytes(v);
            &&& b.len() == 4
            &&& le32(b[0], b[1], b[2], b[3]) == v
        }),
{
    let b = le32_bytes(v);
    let b0 = (v % 256) as u8;
    let b1 = ((v / 256) % 256) as u8;
    let b2 = ((v / 65536) % 256) as u8;
    let b3 = (v / 16777216) as u8;
    assert(b[0] == b0 && b[1] == b1 && b[2] == b2 && b[3] == b3);
    assert((v % 256) as u8 as u32 + ((v / 256) % 256) as u8 as u32 * 256 + ((v / 65536) % 256) as u8 as u32
        * 65536 + (v / 16777216) as u8 as u32 * 16777216 == v) by (bit_vector);
}

/// Four wire bytes read as a `sid32` value write back as the same bytes.
pub proof fn lemma_le32_bytes_of_value(b0: u8, b1: u8, b2: u8, b3: u8)
    ensures
        le32(b0, b1, b2, b3) <= u32::MAX,
        le32_bytes(le32(b0, b1, b2, b3) as u32) == seq![b0, b1, b2, b3],
{
    let x: u32 = (b0 as u32 + b1 as u32 * 256 + b2 as u32 * 65536 + b3 as u32 * 16777216) as u32;
    assert(b0 as u32 + b1 as u32 * 256 + b2 as u32 * 65536 + b3 as u32 * 16777216 <= 0xffff_ffff)
        by (bit_vector);
    assert(x == b0 as u32 + b1 as u32 * 256 + b2 as u32 * 65536 + b3 as u32 * 16777216 ==> {
        &&& (x % 256) as u8 == b0
        &&& ((x / 256) % 256) as u8 == b1
        &&& ((x / 65536) % 256) as u8 == b2
        &&& (x / 16777216) as u8 == b3
    }) by (bit_vector);
    assert(le32_bytes(x) =~= seq![b0, b1, b2, b3]);
}

/// A frame that `write_frame` produces parses back into what was written: the
/// VFT with the current protocol version, the SID, the schema chunk followed
/// by the lane padding, and the payload.
pub proof fn lemma_write_then_parse(
    frame_len: int,
    lane_width: int,
    schema_start: bool,
    sid_mode: SidMode,
    sid: Option<Sid>,
    chunk: Seq<u8>,
    payload: Seq<u8>,
)
    requires
        frame_write(frame_len, lane_width, schema_start, sid_mode, sid, chunk, payload) is Ok,
    ensures
        frame_parse(
            frame_write(frame_len, lane_width, schema_start, sid_mode, sid, chunk, payload)->Ok_0,
            lane_width,
            PROTOCOL_VERSION,
        ) == Ok::<FrameView, FrameError>(
            FrameView {
                vft: Vft { version: PROTOCOL_VERSION, schema_start, sid_mode },
                sid,
                schema_chunk: chunk + pad_bytes(
                    (chunk_capacity(lane_width, schema_start, sid_mode) - chunk.len()) as nat,
                ),
                payload,
            },
        ),
{
    let bytes = frame_write(frame_len, lane_width, schema_start, sid_mode, sid, chunk, payload)->Ok_0;
    let v = Vft { version: PROTOCOL_VERSION, schema_start, sid_mode };
    lemma_vft_decode_encode(v);
    let cap = chunk_capacity(lane_width, schema_start, sid_mode);
    let pad = pad_bytes((cap - chunk.len()) as nat);
    let sb = sid_wire_bytes(sid);
    assert(bytes[0] == vft_byte(PROTOCOL_VERSION, schema_start, sid_mode));
    let lane = bytes.subrange(1, 1 + lane_width);
    assert(lane =~= sb + chunk + pad);
    assert(bytes.subrange(1 + lane_width, bytes.len() as int) =~= payload);
    if schema_start {
        match sid_mode {
            SidMode::Sid8 => {
                assert(lane.skip(1) =~= chunk + pad);
            },
            SidMode::Sid32 => {
                let s = sid->Some_0;
                let x = s->Sid32_0;
                lemma_le32_roundtrip(x);
                assert(lane.skip(4) =~= chunk + pad);
            },
        }
    }
}

/// Writing back the fields of a parsed frame reproduces the frame byte for
/// byte: the envelope carries nothing beyond those fields.
pub proof fn lemma_parse_then_write(frame: Seq<u8>, lane_width: int)
    requires
        frame_parse(frame, lane_width, PROTOCOL_VERSION) is Ok,
    ensures
        ({
            let p = frame_parse(frame, lane_width, PROTOCOL_VERSION)->Ok_0;
            frame_write(
                frame.len() as int,
                lane_width,
                p.vft.schema_start,
                p.vft.sid_mode,
                p.sid,
                p.schema_chunk,
                p.payload,
            ) == Ok::<Seq<u8>, FrameError>(frame)
        }),
{
    let p = frame_parse(frame, lane_width, PROTOCOL_VERSION)->Ok_0;
    let v = p.vft;
    lemma_vft_encode_decode(frame[0]);
    assert(vft_byte(PROTOCOL_VERSION, v.schema_start, v.sid_mode) == frame[0]);
    let lane = frame.subrange(1, 1 + lane_width);
    let cap = chunk_capacity(lane_width, v.schema_start, v.sid_mode);
    assert(p.schema_chunk.len() == cap);
    assert(pad_bytes(0) =~= Seq::<u8>::empty());
    if v.schema_start {
        match v.sid_mode {
            SidMode::Sid8 => {
                assert(sid_wire_bytes(p.sid) + p.schema_chunk =~= lane);
            },
            SidMode::Sid32 => {
                lemma_le32_bytes_of_value(lane[0], lane[1], lane[2], lane[3]);
                assert(sid_wire_bytes(p.sid) + p.schema_chunk =~= lane);
            },
        }
    } else {
        assert(sid_wire_bytes(p.sid) + p.schema_chunk =~= lane);
    }
    let w = frame_write(
        frame.len() as int,
        lane_width,
        v.schema_start,
        v.sid_mode,
        p.sid,
        p.schema_chunk,
        p.payload,
    )->Ok_0;
    assert(w =~= frame);
}

/// Host-side diagnostic payload for envelope errors: the error and, where it
/// is about a size, the size expected and the size found.
#[derive(Clone, Copy, Debug, PartialEq, Eq, Structural)]
pub struct FrameErrorDetail {
    pub kind: FrameError,
    pub expected: Option<usize>,
    pub actual: Option<usize>,
}

/// The sizes that `parse_frame_detailed` reports with a parse error `kind`.
pub open spec fn parse_error_detail(
    frame: Seq<u8>,
    lane_width: usize,
    expected_version: u8,
    kind: FrameError,
) -> FrameErrorDetail {
    match kind {
        FrameError::FrameTooShort => FrameErrorDetail {
            kind,
            expected: Some(
                if 1 + lane_width + 1 > 2 {
                    (1 + lane_width + 1) as usize
                } else {
                    2
                },
            ),
            actual: Some(frame.len() as usize),
        },
        FrameError::WrongProtocolVersion => FrameErrorDetail {
            kind,
            expected: Some(expected_version as usize),
            actual: if frame.len() > 0 {
                Some(((frame[0] >> 6u8) & 3u8) as usize)
            } else {
                None
            },
        },
        FrameError::InvalidSchemaLaneWidth => FrameErrorDetail {
            kind,
            expected: Some(
                if frame.len() > 0 && (vft_decode(frame[0]) is Ok && vft_decode(frame[0])->Ok_0.sid_mode
                    == SidMode::Sid32) {
                    5
                } else {
                    2
                },
            ),
            actual: Some(lane_width),
        },
        FrameError::InvalidPayloadLength => FrameErrorDetail {
            kind,
            expected: Some(1),
            actual: if frame.len() >= 1 + lane_width {
                Some((frame.len() - 1 - lane_width) as usize)
            } else {
                None
            },
        },
        _ => FrameErrorDetail { kind, expected: None, actual: None },
    }
}

/// Diagnostic variant of [`parse_frame`] with expected/actual size context.
///
/// A frame too short for its lane reports the size it needed, `S + 2`; a lane
/// width within 2 of `usize::MAX` has no such size, so those inputs are left
/// out for that error.
pub fn parse_frame_detailed<'a>(
    frame: &'a [u8],
    schema_lane_bytes: usize,
    expected_version: u8,
) -> (r: Result<ParsedFrame<'a>, FrameErrorDetail>)
    requires
        frame_parse(frame@, schema_lane_bytes as int, expected_version) == Err::<
            FrameView,
            FrameError,
        >(FrameError::FrameTooShort) ==> schema_lane_bytes + 2 <= usize::MAX,
    ensures
        r matches Ok(p) ==> frame_parse(frame@, schema_lane_bytes as int, expected_version) == Ok::<
            FrameView,
            FrameError,
        >(p@),
        r matches Err(d) ==> frame_parse(frame@, schema_lane_bytes as int, expected_version) == Err::<
            FrameView,
            FrameError,
        >(d.kind) && d == parse_error_detail(frame@, schema_lane_bytes, expected_version, d.kind),
{
    match parse_frame(frame, schema_lane_bytes, expected_version) {
        Ok(p) => Ok(p),
        Err(kind) => {
            let d = match kind {
                FrameError::FrameTooShort => {
                    let need = 1 + schema_lane_bytes + 1;
                    FrameErrorDetail {
                        kind,
                        expected: Some(if need > 2 { need } else { 2 }),
                        actual: Some(frame.len()),
                    }
                },
                FrameError::WrongProtocolVersion => {
                    let actual = if frame.len() > 0 {
                        Some(((frame[0] >> 6) & 0b11) as usize)
                    } else {
                        None
                    };
                    FrameErrorDetail { kind, expected: Some(expected_version as usize), actual }
                },
                FrameError::InvalidSchemaLaneWidth => {
                    let sid_mode = if frame.len() > 0 {
                        match Vft::parse(frame[0]) {
                            Ok(v) => v.sid_mode,
                            Err(_) => SidMode::Sid8,
                        }
                    } else {
                        SidMode::Sid8
                    };
                    let min_s: usize = match sid_mode {
                        SidMode::Sid8 => 2,
                        SidMode::Sid32 => 5,
                    };
                    FrameErrorDetail { kind, expected: Some(min_s), actual: Some(schema_lane_bytes) }
                },
                FrameError::InvalidPayloadLength => {
                    let actual = if frame.len() >= 1 + schema_lane_bytes {
                        Some(frame.len() - 1 - schema_lane_bytes)
                    } else {
                        None
                    };
                    FrameErrorDetail { kind, expected: Some(1), actual }
                },
                _ => FrameErrorDetail { kind, expected: None, actual: None },
            };
            Err(d)
        },
    }
}

/// The sizes that `write_frame_detailed` reports with a write error `kind`.
pub open spec fn write_error_detail(
    frame_len: usize,
    lane_width: usize,
    schema_start: bool,
    sid_mode: SidMode,
    chunk_len: usize,
    payload_len: usize,
    kind: FrameError,
) -> FrameErrorDetail {
    let prefix = sid_prefix_len(sid_mode);
    let payload_expected: usize = if frame_len >= 1 + lane_width {
        (frame_len - 1 - lane_width) as usize
    } else {
        0
    };
    let cap: usize = if !schema_start {
        lane_width
    } else if lane_width >= prefix {
        (lane_width - prefix) as usize
    } else {
        0
    };
    match kind {
        FrameError::InvalidSchemaLaneWidth => FrameErrorDetail {
            kind,
            expected: Some((prefix + 1) as usize),
            actual: Some(lane_width),
        },
        FrameError::FrameTooShort => FrameErrorDetail { kind, expected: Some(2), actual: None },
        FrameError::InvalidPayloadLength => FrameErrorDetail {
            kind,
            expected: Some(1),
            actual: Some(payload_expected),
        },
        FrameError::PayloadLenMismatch => FrameErrorDetail {
            kind,
            expected: Some(payload_expected),
            actual: Some(payload_len),
        },
        FrameError::SchemaChunkTooLong => FrameErrorDetail {
            kind,
            expected: Some(cap),
            actual: Some(chunk_len),
        },
        _ => FrameErrorDetail { kind, expected: None, actual: None },
    }
}

/// Diagnostic variant of [`write_frame`] with expected/actual size context.
pub fn write_frame_detailed(args: FrameWrite<'_>) -> (r: Result<(), FrameErrorDetail>)
    requires
        args.schema_lane_bytes < usize::MAX,
    ensures
        r matches Ok(_) ==> frame_write(
            old(args.out_frame)@.len() as int,
            args.schema_lane_bytes as int,
            args.schema_start,
            args.sid_mode,
            args.sid,
            args.schema_chunk@,
            args.payload@,
        ) == Ok::<Seq<u8>, FrameError>(final(args.out_frame)@),
        r matches Err(d) ==> frame_write(
            old(args.out_frame)@.len() as int,
            args.schema_lane_bytes as int,
            args.schema_start,
            args.sid_mode,
            args.sid,
            args.schema_chunk@,
            args.payload@,
        ) == Err::<Seq<u8>, FrameError>(d.kind) && final(args.out_frame)@ == old(args.out_frame)@
            && d == write_error_detail(
            old(args.out_frame)@.len() as usize,
            args.schema_lane_bytes,
            args.schema_start,
            args.sid_mode,
            args.schema_chunk@.len() as usize,
            args.payload@.len() as usize,
            d.kind,
        ),
{
    let sid_prefix_len: usize = match args.sid_mode {
        SidMode::Sid8 => 1,
        SidMode::Sid32 => 4,
    };
    let schema_cap = if args.schema_start {
        args.schema_lane_bytes.saturating_sub(sid_prefix_len)
    } else {
        args.schema_lane_bytes
    };
    let schema_lane_actual = args.schema_lane_bytes;
    let payload_expected = args.out_frame.len().saturating_sub(1 + args.schema_lane_bytes);
    let payload_actual = args.payload.len();
    let schema_chunk_actual = args.schema_chunk.len();
    match write_frame(args) {
        Ok(()) => Ok(()),
        Err(kind) => {
            let d = match kind {
                FrameError::InvalidSchemaLaneWidth => FrameErrorDetail {
                    kind,
                    expected: Some(sid_prefix_len + 1),
                    actual: Some(schema_lane_actual),
                },
                FrameError::FrameTooShort => FrameErrorDetail {
                    kind,
                    expected: Some(2),
                    actual: None,
                },
                FrameError::InvalidPayloadLength => FrameErrorDetail {
                    kind,
                    expected: Some(1),
                    actual: Some(payload_expected),
                },
                FrameError::PayloadLenMismatch => FrameErrorDetail {
                    kind,
                    expected: Some(payload_expected),
                    actual: Some(payload_actual),
                },
                FrameError::SchemaChunkTooLong => FrameErrorDetail {
                    kind,
                    expected: Some(schema_cap),
                    actual: Some(schema_chunk_actual),
                },
                _ => FrameErrorDetail { kind, expected: None, actual: None },
            };
            Err(d)
        },
    }
}

/// A frame parses whenever it passes the envelope's checks: it is long enough
/// for the VFT byte, the lane and at least one payload byte, its reserved
/// bits are clear, its version (the top two bits) is the expected one, and
/// the lane holds the SID its mode announces plus one byte. The fields are
/// then read from the bytes: the flags from the VFT byte, the SID from the
/// lane's first byte (sid8) or first four bytes little-endian (sid32) on start
/// frames, the rest of the lane as schema chunk, and everything after the
/// lane as payload.
pub proof fn lemma_parse_succeeds(frame: Seq<u8>, lane_width: int, expected_version: u8)
    requires
        frame.len() >= lane_width + 2,
        frame[0] % 16 == 0,
        frame[0] / 64 == expected_version,
        lane_width >= (if (frame[0] / 16) % 2 == 1 { 5int } else { 2int }),
    ensures
        frame_parse(frame, lane_width, expected_version) is Ok,
        ({
            let p = frame_parse(frame, lane_width, expected_version)->Ok_0;
            let start = (frame[0] / 32) % 2 == 1;
            let sid32 = (frame[0] / 16) % 2 == 1;
            let at: int = if !start {
                1
            } else if sid32 {
                5
            } else {
                2
            };
            &&& p.vft.version == expected_version
            &&& p.vft.schema_start == start
            &&& p.vft.sid_mode == (if sid32 { SidMode::Sid32 } else { SidMode::Sid8 })
            &&& (!start ==> p.sid is None)
            &&& (start && !sid32 ==> p.sid == Some(Sid::Sid8(frame[1])))
            &&& (start && sid32 ==> p.sid == Some(
                Sid::Sid32(le32(frame[1], frame[2], frame[3], frame[4]) as u32),
            ))
            &&& p.schema_chunk == frame.subrange(at, 1 + lane_width)
            &&& p.payload == frame.subrange(1 + lane_width, frame.len() as int)
        }),
{
    lemma_vft_decode_fields(frame[0]);
    let p = frame_parse(frame, lane_width, expected_version)->Ok_0;
    let lane = frame.subrange(1, 1 + lane_width);
    assert(lane.skip(1) =~= frame.subrange(2, 1 + lane_width));
    if lane_width >= 4 {
        assert(lane.skip(4) =~= frame.subrange(5, 1 + lane_width));
    }
}

/// The version check refuses exactly the frames whose version differs from
/// the expected one: a frame refused as of the wrong version carries another
/// version, and a frame that parses for the current version parses for any
/// expected version once its version bits say so, with the same fields.
pub proof fn lemma_version_check_is_exact(frame: Seq<u8>, lane_width: int, version: u8)
    requires
        version <= 3,
    ensures
        frame_parse(frame, lane_width, version) == Err::<FrameView, FrameError>(
            FrameError::WrongProtocolVersion,
        ) ==> frame.len() >= 2 && frame[0] % 16 == 0 && frame[0] / 64 != version,
        frame_parse(frame, lane_width, PROTOCOL_VERSION) is Ok ==> ({
            let p = frame_parse(frame, lane_width, PROTOCOL_VERSION)->Ok_0;
            let f2 = frame.update(0, (frame[0] % 64 + 64 * version) as u8);
            frame_parse(f2, lane_width, version) == Ok::<FrameView, FrameError>(
                FrameView { vft: Vft { version, ..p.vft }, ..p },
            )
        }),
{
    if frame.len() >= 1 {
        lemma_vft_decode_fields(frame[0]);
    }
    if frame_parse(frame, lane_width, PROTOCOL_VERSION) is Ok {
        let p = frame_parse(frame, lane_width, PROTOCOL_VERSION)->Ok_0;
        let b = frame[0];
        let b2 = (b % 64 + 64 * version) as u8;
        let f2 = frame.update(0, b2);
        lemma_vft_decode_fields(b2);
        assert(b2 % 16 == b % 16 && b2 / 64 == version && (b2 / 32) % 2 == (b / 32) % 2 && (b2 / 16)
            % 2 == (b / 16) % 2) by (nonlinear_arith)
            requires
                b2 == b % 64 + 64 * version,
                version <= 3,
        ;
        lemma_parse_succeeds(frame, lane_width, PROTOCOL_VERSION);
        lemma_parse_succeeds(f2, lane_width, version);
        assert(f2.subrange(1, f2.len() as int) =~= frame.subrange(1, frame.len() as int));
        let q = frame_parse(f2, lane_width, version)->Ok_0;
        if p.vft.schema_start && p.vft.sid_mode == SidMode::Sid32 {
            assert(f2[1] == frame[1] && f2[2] == frame[2] && f2[3] == frame[3] && f2[4] == frame[4]);
        } else if p.vft.schema_start {
            assert(f2[1] == frame[1]);
        }
        let at: int = if !p.vft.schema_start {
            1
        } else if p.vft.sid_mode == SidMode::Sid32 {
            5
        } else {
            2
        };
        assert(q.schema_chunk =~= p.schema_chunk);
        assert(q.payload =~= p.payload);
        assert(q.vft == Vft { version, ..p.vft });
    }
}

/// Writing succeeds whenever the envelope's checks pass: the lane holds the
/// SID its mode announces plus one byte, the frame holds the VFT byte, the
/// lane and at least one payload byte, the payload fills the rest, a SID is
/// given exactly on start frames and has the mode's shape, and the schema chunk
/// fits what the lane leaves after the SID — however short the chunk, on start
/// and non-start frames alike. The frame then holds, in order: a VFT byte that
/// decodes to the current version, the start flag and the mode; the SID (one
/// byte, or four bytes little-endian) on start frames; the chunk; `0xA5` up to
/// the lane's end; the payload.
pub proof fn lemma_write_succeeds(
    frame_len: int,
    lane_width: int,
    schema_start: bool,
    sid_mode: SidMode,
    sid: Option<Sid>,
    chunk: Seq<u8>,
    payload: Seq<u8>,
)
    requires
        lane_width >= sid_prefix_len(sid_mode) + 1,
        frame_len >= lane_width + 2,
        payload.len() == frame_len - 1 - lane_width,
        schema_start <==> sid is Some,
        sid is Some ==> sid_fits_mode(sid->Some_0, sid_mode),
        chunk.len() <= (if schema_start {
            lane_width - sid_prefix_len(sid_mode)
        } else {
            lane_width
        }),
    ensures
        frame_write(frame_len, lane_width, schema_start, sid_mode, sid, chunk, payload) is Ok,
        ({
            let w = frame_write(frame_len, lane_width, schema_start, sid_mode, sid, chunk, payload)->Ok_0;
            let at: int = if schema_start {
                (1 + sid_prefix_len(sid_mode)) as int
            } else {
                1
            };
            &&& w.len() == frame_len
            &&& vft_decode(w[0]) == Ok::<Vft, FrameError>(
                Vft { version: PROTOCOL_VERSION, schema_start, sid_mode },
            )
            &&& (sid matches Some(Sid::Sid8(v)) ==> w[1] == v)
            &&& (sid matches Some(Sid::Sid32(v)) ==> le32(w[1], w[2], w[3], w[4]) == v)
            &&& w.subrange(at, at + chunk.len()) == chunk
            &&& forall|k: int| at + chunk.len() <= k < 1 + lane_width ==> #[trigger] w[k]
                == SCHEMA_PAD_BYTE
            &&& w.subrange(1 + lane_width, frame_len) == payload
        }),
{
    let v = Vft { version: PROTOCOL_VERSION, schema_start, sid_mode };
    lemma_vft_decode_encode(v);
    let w = frame_write(frame_len, lane_width, schema_start, sid_mode, sid, chunk, payload)->Ok_0;
    let cap = chunk_capacity(lane_width, schema_start, sid_mode);
    let sb = sid_wire_bytes(sid);
    let pad = pad_bytes((cap - chunk.len()) as nat);
    let at: int = if schema_start {
        (1 + sid_prefix_len(sid_mode)) as int
    } else {
        1
    };
    assert(w == seq![vft_byte(PROTOCOL_VERSION, schema_start, sid_mode)] + sb + chunk + pad + payload);
    assert(sb.len() == at - 1);
    assert(w.subrange(at, at + chunk.len()) =~= chunk);
    assert(w.subrange(1 + lane_width, frame_len) =~= payload);
    assert forall|k: int| at + chunk.len() <= k < 1 + lane_width implies #[trigger] w[k]
        == SCHEMA_PAD_BYTE by {
        assert(w[k] == pad[k - at - chunk.len()]);
    }
    if sid is Some && sid->Some_0 is Sid32 {
        lemma_le32_roundtrip(sid->Some_0->Sid32_0);
        assert(w[1] == sb[0] && w[2] == sb[1] && w[3] == sb[2] && w[4] == sb[3]);
    }
}

/// A schema chunk longer than what the lane leaves after the SID is refused
/// as too long, once the earlier checks pass.
pub proof fn lemma_write_refuses_long_chunk(
    frame_len: int,
    lane_width: int,
    schema_start: bool,
    sid_mode: SidMode,
    sid: Option<Sid>,
    chunk: Seq<u8>,
    payload: Seq<u8>,
)
    requires
        lane_width >= sid_prefix_len(sid_mode) + 1,
        frame_len >= lane_width + 2,
        payload.len() == frame_len - 1 - lane_width,
        schema_start <==> sid is Some,
        sid is Some ==> sid_fits_mode(sid->Some_0, sid_mode),
        chunk.len() > (if schema_start {
            lane_width - sid_prefix_len(sid_mode)
        } else {
            lane_width
        }),
    ensures
        frame_write(frame_len, lane_width, schema_start, sid_mode, sid, chunk, payload) == Err::<
            Seq<u8>,
            FrameError,
        >(FrameError::SchemaChunkTooLong),
{
}

/// A frame parses only when it passes every check: it holds the VFT byte,
/// the lane and at least one payload byte, its reserved bits are clear, its
/// version is the expected one and the lane holds the SID its mode announces
/// plus one byte.
pub proof fn lemma_parse_only_when_checks_pass(
    frame: Seq<u8>,
    lane_width: int,
    expected_version: u8,
)
    requires
        frame_parse(frame, lane_width, expected_version) is Ok,
    ensures
        frame.len() >= lane_width + 2,
        frame[0] % 16 == 0,
        frame[0] / 64 == expected_version,
        lane_width >= (if (frame[0] / 16) % 2 == 1 { 5int } else { 2int }),
{
    lemma_vft_decode_fields(frame[0]);
}

/// A frame is written only when every check passes: the lane holds the SID
/// its mode announces plus one byte, the frame holds the VFT byte, the lane
/// and at least one payload byte, the payload fills the rest, a SID of the
/// mode's shape is given exactly on start frames, and the chunk fits the lane.
pub proof fn lemma_write_only_when_checks_pass(
    frame_len: int,
    lane_width: int,
    schema_start: bool,
    sid_mode: SidMode,
    sid: Option<Sid>,
    chunk: Seq<u8>,
    payload: Seq<u8>,
)
    requires
        frame_write(frame_len, lane_width, schema_start, sid_mode, sid, chunk, payload) is Ok,
    ensures
        lane_width >= sid_prefix_len(sid_mode) + 1,
        frame_len >= lane_width + 2,
        payload.len() == frame_len - 1 - lane_width,
        schema_start <==> sid is Some,
        sid is Some ==> sid_fits_mode(sid->Some_0, sid_mode),
        chunk.len() <= (if schema_start {
            lane_width - sid_prefix_len(sid_mode)
        } else {
            lane_width
        }),
{
}

} // verus!
