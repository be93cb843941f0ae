//! Self-checks that the embedded entry points run at start-up: one frame is
//! written and parsed back, and a status code reports the outcome.

use vstd::prelude::*;
use crate::frame::{
    chunk_capacity, frame_parse, frame_write, lemma_write_then_parse, pad_bytes, parse_frame,
    write_frame, FrameWrite,
};
use crate::vft::{Sid, SidMode, PROTOCOL_VERSION};

verus! {

/// Byte-wise equality of two slices.
pub fn bytes_equal(a: &[u8], b: &[u8]) -> (r: bool)
    ensures
        r == (a@ == b@),
{
    if a.len() != b.len() {
        return false;
    }
    let mut i: usize = 0;
    while i < a.len()
        invariant
            a@.len() == b@.len(),
            i <= a@.len(),
            forall|k: int| 0 <= k < i ==> a@[k] == b@[k],
        decreases a@.len() - i,
    {
        if a[i] != b[i] {
            return false;
        }
        i = i + 1;
    }
    assert(a@ =~= b@);
    true
}

/// Writes one start frame into `frame`, parses it back and compares payload
/// and schema chunk: 0 on success, 1 when the write fails, 2 when the parsed
/// fields differ, 3 when the parse fails.
fn roundtrip_status(
    frame: &mut [u8],
    schema_lane_bytes: usize,
    sid_mode: SidMode,
    sid: Sid,
    schema_chunk: &[u8],
    payload: &[u8],
) -> (r: u8)
    ensures
        frame_write(
            old(frame)@.len() as int,
            schema_lane_bytes as int,
            true,
            sid_mode,
            Some(sid),
            schema_chunk@,
            payload@,
        ) is Err ==> r == 1,
        frame_write(
            old(frame)@.len() as int,
            schema_lane_bytes as int,
            true,
            sid_mode,
            Some(sid),
            schema_chunk@,
            payload@,
        ) is Ok ==> (r == 0 <==> schema_chunk@.len() == chunk_capacity(
            schema_lane_bytes as int,
            true,
            sid_mode,
        )),
        r == 0 || r == 1 || r == 2,
{
    let write = write_frame(
        FrameWrite {
            out_frame: frame,
            schema_lane_bytes,
            schema_start: true,
            sid_mode,
            sid: Some(sid),
            schema_chunk,
            payload,
        },
    );
    if write.is_err() {
        return 1;
    }
    proof {
        lemma_write_then_parse(
            old(frame)@.len() as int,
            schema_lane_bytes as int,
            true,
            sid_mode,
            Some(sid),
            schema_chunk@,
            payload@,
        );
    }
    let ghost cap = chunk_capacity(schema_lane_bytes as int, true, sid_mode);
    let ghost padded = schema_chunk@ + pad_bytes((cap - schema_chunk@.len()) as nat);
    proof {
        if schema_chunk@.len() == cap {
            assert(padded =~= schema_chunk@);
        }
    }
    match parse_frame(frame, schema_lane_bytes, PROTOCOL_VERSION) {
        Ok(parsed) => {
            if bytes_equal(parsed.payload, payload) && bytes_equal(parsed.schema_chunk, schema_chunk) {
                0
            } else {
                2
            }
        },
        Err(_) => 3,
    }
}

/// Performs one sid8 write+parse roundtrip (8-byte frame, 2-byte lane).
/// Returns 0 on success, non-zero on envelope/protocol error.
pub fn roundtrip_status_sid8() -> (r: u8)
    ensures
        r == 0,
{
    let mut frame = [0u8; 8];
    let payload = [0xA1u8, 0xB2, 0xC3, 0xD4, 0xE5];
    let schema_chunk = [0x40u8];  // empty CBOR bstr
    roundtrip_status(&mut frame, 2, SidMode::Sid8, Sid::Sid8(0x42), &schema_chunk, &payload)
}

/// Performs one sid32 write+parse roundtrip (16-byte frame, 5-byte lane).
/// Returns 0 on success, non-zero on envelope/protocol error.
pub fn roundtrip_status_sid32() -> (r: u8)
    ensures
        r == 0,
{
    let mut frame = [0u8; 16];
    let payload = [0x10u8, 0x20, 0x30, 0x40, 0x50, 0x60, 0x70, 0x80, 0x90, 0xA0];
    let schema_chunk = [0x40u8];  // empty CBOR bstr
    roundtrip_status(
        &mut frame,
        5,
        SidMode::Sid32,
        Sid::Sid32(0x1234_5678),
        &schema_chunk,
        &payload,
    )
}

} // verus!
