//! The receiver state machine: reassembles the schema stream from the schema
//! lanes of successive frames and installs it once its CRC matches the SID.

use vstd::prelude::*;
use vstd::slice::slice_subrange;
use crate::cbor::{
    cbor_bstr_total, cbor_bstr_total_len, cbor_header_len, lemma_cbor_prefixes,
    lemma_cbor_total_header, lemma_cbor_total_prefix_stable,
};
use crate::crc::{crc32_ieee_of, schema_matches_sid, sid_accepts_crc};
use crate::frame::{frame_parse, parse_frame};
use crate::vft::{FrameError, Sid, PROTOCOL_VERSION};

verus! {

/// What the receiver reports about the schema stream after a frame.
#[derive(Clone, Copy, Debug, PartialEq, Eq, Structural)]
pub enum SchemaEvent {
    Started { sid: Sid },
    Progress { sid: Sid, received: usize, expected_total: Option<usize> },
    Complete { sid: Sid, schema_len: usize },
}

/// Result of processing one frame: its payload (borrowed from the frame) and
/// the schema event, if an assembly is under way or complete.
#[derive(Debug)]
pub struct ProcessedFrame<'a> {
    pub payload: &'a [u8],
    pub event: Option<SchemaEvent>,
}

/// An assembly in progress, as values.
pub struct AssemblyModel {
    pub sid: Sid,
    /// Schema-stream bytes received so far.
    pub bytes: Seq<u8>,
    /// Total stream length, once the CBOR header has been read.
    pub expected_total: Option<nat>,
    /// Frames that contributed to this assembly.
    pub frames_seen: nat,
}

/// The receiver's state, as values.
pub struct ReceiverModel {
    pub assembly: Option<AssemblyModel>,
    pub active_sid: Option<Sid>,
    pub max_schema_bytes: nat,
    pub max_schema_frames: nat,
    /// The buffer size `N`.
    pub capacity: nat,
}

/// Largest schema stream the receiver accepts: the byte budget or the buffer size.
pub open spec fn schema_limit(r: ReceiverModel) -> nat {
    if r.max_schema_bytes < r.capacity {
        r.max_schema_bytes
    } else {
        r.capacity
    }
}

/// Whether all announced bytes of the assembly have arrived.
pub open spec fn reached_total(a: AssemblyModel) -> bool {
    a.expected_total is Some && a.bytes.len() >= a.expected_total->Some_0
}

/// Length discovery: starting at `chunk[off]`, bytes are appended to `buf` one at
/// a time until the CBOR header announces the total length or the chunk ends.
/// Gives the bytes, the offset reached and the total if known, or the error
/// that aborts the assembly.
pub open spec fn discover_total(buf: Seq<u8>, chunk: Seq<u8>, off: nat, limit: nat) -> Result<
    (Seq<u8>, nat, Option<nat>),
    FrameError,
>
    decreases chunk.len() - off,
{
    if off >= chunk.len() {
        Ok((buf, off, None))
    } else if buf.len() >= limit {
        Err(FrameError::SchemaTooLarge)
    } else {
        let b2 = buf.push(chunk[off as int]);
        match cbor_bstr_total(b2) {
            Err(e) => Err(e),
            Ok(Some(t)) => if t > limit {
                Err(FrameError::SchemaTooLarge)
            } else {
                Ok((b2, off + 1, Some(t)))
            },
            Ok(None) => discover_total(b2, chunk, off + 1, limit),
        }
    }
}

/// Once the total is known, the rest of the chunk fills the assembly up to it.
pub open spec fn fill_to_total(bytes: Seq<u8>, chunk: Seq<u8>, off: nat, total: Option<nat>) -> Seq<
    u8,
> {
    match total {
        Some(t) => if off < chunk.len() && bytes.len() < t {
            let take = if t - bytes.len() < chunk.len() - off {
                t - bytes.len()
            } else {
                chunk.len() - off
            };
            bytes + chunk.subrange(off as int, off + take)
        } else {
            bytes
        },
        None => bytes,
    }
}

/// Appending one frame's schema chunk to an assembly: a complete assembly
/// ignores it; otherwise the frame counts against the frame budget, the length
/// is discovered if still unknown, the chunk fills up to the total, and a
/// completed stream must match the SID's CRC.
pub open spec fn assembly_append(
    a: AssemblyModel,
    chunk: Seq<u8>,
    max_frames: nat,
    limit: nat,
) -> Result<AssemblyModel, FrameError> {
    if reached_total(a) {
        Ok(a)
    } else if a.frames_seen >= max_frames {
        Err(FrameError::SchemaFrameBudgetExceeded)
    } else {
        let disc = if a.expected_total is None {
            discover_total(a.bytes, chunk, 0, limit)
        } else {
            Ok((a.bytes, 0nat, a.expected_total))
        };
        match disc {
            Err(e) => Err(e),
            Ok((bytes1, off, total)) => {
                let bytes2 = fill_to_total(bytes1, chunk, off, total);
                if total is Some && bytes2.len() == total->Some_0 && !sid_accepts_crc(
                    a.sid,
                    crc32_ieee_of(bytes2),
                ) {
                    Err(FrameError::SchemaCrcMismatch)
                } else {
                    Ok(
                        AssemblyModel {
                            sid: a.sid,
                            bytes: bytes2,
                            expected_total: total,
                            frames_seen: a.frames_seen + 1,
                        },
                    )
                }
            },
        }
    }
}

/// The receiver with no assembly and no active SID (limits unchanged).
pub open spec fn aborted(r: ReceiverModel) -> ReceiverModel {
    ReceiverModel { assembly: None, active_sid: None, ..r }
}

/// Appending a schema chunk to the receiver: nothing happens without an
/// assembly; any error aborts the assembly and clears the active SID.
pub open spec fn receiver_append(r: ReceiverModel, chunk: Seq<u8>) -> (ReceiverModel, Result<
    (),
    FrameError,
>) {
    match r.assembly {
        None => (r, Ok(())),
        Some(a) => match assembly_append(a, chunk, r.max_schema_frames, schema_limit(r)) {
            Ok(a2) => (ReceiverModel { assembly: Some(a2), ..r }, Ok(())),
            Err(e) => (aborted(r), Err(e)),
        },
    }
}

/// The event that describes an assembly: complete once all announced bytes
/// are in, progress otherwise.
pub open spec fn progress_of(work: Option<AssemblyModel>) -> Option<SchemaEvent> {
    match work {
        None => None,
        Some(a) => if a.expected_total == Some(a.bytes.len()) {
            Some(SchemaEvent::Complete { sid: a.sid, schema_len: a.bytes.len() as usize })
        } else {
            Some(
                SchemaEvent::Progress {
                    sid: a.sid,
                    received: a.bytes.len() as usize,
                    expected_total: match a.expected_total {
                        Some(t) => Some(t as usize),
                        None => None,
                    },
                },
            )
        },
    }
}

/// A new, empty assembly for `sid`.
pub open spec fn fresh_assembly(sid: Sid) -> AssemblyModel {
    AssemblyModel { sid, bytes: Seq::empty(), expected_total: None, frames_seen: 0 }
}

/// One receiver step on a frame: a frame that does not parse changes nothing;
/// a start frame aborts any assembly and starts one for its SID; then the
/// schema chunk is appended. Gives the new state and either the payload with
/// the schema event, or the error.
pub open spec fn receiver_step(r: ReceiverModel, frame: Seq<u8>, lane_width: int) -> (
    ReceiverModel,
    Result<(Seq<u8>, Option<SchemaEvent>), FrameError>,
) {
    match frame_parse(frame, lane_width, PROTOCOL_VERSION) {
        Err(e) => (r, Err(e)),
        Ok(p) => if p.vft.schema_start {
            let sid = p.sid->Some_0;
            let r1 = ReceiverModel {
                assembly: Some(fresh_assembly(sid)),
                active_sid: Some(sid),
                ..r
            };
            let (r2, res) = receiver_append(r1, p.schema_chunk);
            match res {
                Err(e) => (r2, Err(e)),
                Ok(_) => {
                    let ev = match progress_of(r2.assembly) {
                        Some(SchemaEvent::Complete { sid: s, schema_len: n }) => Some(
                            SchemaEvent::Complete { sid: s, schema_len: n },
                        ),
                        _ => Some(SchemaEvent::Started { sid }),
                    };
                    (r2, Ok((p.payload, ev)))
                },
            }
        } else {
            let (r2, res) = receiver_append(r, p.schema_chunk);
            match res {
                Err(e) => (r2, Err(e)),
                Ok(_) => (r2, Ok((p.payload, progress_of(r2.assembly)))),
            }
        },
    }
}

/// The schema the receiver has installed, if the assembly is complete.
pub open spec fn installed_schema(r: ReceiverModel) -> Option<Seq<u8>> {
    match r.assembly {
        Some(a) => if a.expected_total == Some(a.bytes.len()) {
            Some(a.bytes)
        } else {
            None
        },
        None => None,
    }
}

/// What every reachable receiver state satisfies: the active SID is the
/// assembly's; an assembly stays within its byte and frame budgets; its bytes
/// start a CBOR byte string whose announced length, once known, covers them;
/// and a complete stream matches its SID's CRC.
pub open spec fn receiver_inv(r: ReceiverModel) -> bool {
    match r.assembly {
        None => r.active_sid is None,
        Some(a) => {
            &&& r.active_sid == Some(a.sid)
            &&& a.bytes.len() <= schema_limit(r)
            &&& a.frames_seen <= r.max_schema_frames
            &&& match a.expected_total {
                None => cbor_bstr_total(a.bytes) == Ok::<Option<nat>, FrameError>(None),
                Some(t) => {
                    &&& cbor_bstr_total(a.bytes) == Ok::<Option<nat>, FrameError>(Some(t))
                    &&& a.bytes.len() <= t
                    &&& t <= schema_limit(r)
                },
            }
            &&& a.expected_total == Some(a.bytes.len()) ==> sid_accepts_crc(
                a.sid,
                crc32_ieee_of(a.bytes),
            )
        },
    }
}

/// An installed schema is authentic and within budget: its CRC matches the
/// active SID, it is one complete CBOR byte string whose header announces
/// exactly its length, and it fits both the byte budget and the buffer.
pub proof fn lemma_installed_schema_authentic(r: ReceiverModel)
    requires
        receiver_inv(r),
        installed_schema(r) is Some,
    ensures
        ({
            let s = installed_schema(r)->Some_0;
            &&& r.active_sid is Some
            &&& sid_accepts_crc(r.active_sid->Some_0, crc32_ieee_of(s))
            &&& cbor_bstr_total(s) == Ok::<Option<nat>, FrameError>(Some(s.len()))
            &&& s.len() <= r.max_schema_bytes
            &&& s.len() <= r.capacity
        }),
{
}

/// A frame that does not parse is rejected with the parse error and leaves
/// the receiver exactly as it was.
pub proof fn lemma_parse_error_keeps_state(r: ReceiverModel, frame: Seq<u8>, lane_width: int)
    requires
        frame_parse(frame, lane_width, PROTOCOL_VERSION) is Err,
    ensures
        receiver_step(r, frame, lane_width) == (
            r,
            Err::<(Seq<u8>, Option<SchemaEvent>), FrameError>(
                frame_parse(frame, lane_width, PROTOCOL_VERSION)->Err_0,
            ),
        ),
{
}

/// Every error on a frame that parses aborts the assembly: no schema stays
/// installed and no SID stays active; the limits are kept.
pub proof fn lemma_assembly_error_aborts(r: ReceiverModel, frame: Seq<u8>, lane_width: int)
    requires
        frame_parse(frame, lane_width, PROTOCOL_VERSION) is Ok,
        receiver_step(r, frame, lane_width).1 is Err,
    ensures
        receiver_step(r, frame, lane_width).0 == aborted(r),
        installed_schema(receiver_step(r, frame, lane_width).0) is None,
{
}

/// A frame that parses always hands its payload to the caller, whatever
/// happens to the schema stream.
pub proof fn lemma_payload_delivered(r: ReceiverModel, frame: Seq<u8>, lane_width: int)
    requires
        frame_parse(frame, lane_width, PROTOCOL_VERSION) is Ok,
        receiver_step(r, frame, lane_width).1 is Ok,
    ensures
        receiver_step(r, frame, lane_width).1->Ok_0.0 == frame_parse(
            frame,
            lane_width,
            PROTOCOL_VERSION,
        )->Ok_0.payload,
{
}

/// Once a schema is installed, non-start frames (typically padding) change
/// nothing, whatever their schema lane holds and whatever the frame budget,
/// and each reports the completed schema.
pub proof fn lemma_installed_schema_ignores_non_start(
    r: ReceiverModel,
    frame: Seq<u8>,
    lane_width: int,
)
    requires
        receiver_inv(r),
        installed_schema(r) is Some,
        frame_parse(frame, lane_width, PROTOCOL_VERSION) is Ok,
        !frame_parse(frame, lane_width, PROTOCOL_VERSION)->Ok_0.vft.schema_start,
    ensures
        receiver_step(r, frame, lane_width) == (
            r,
            Ok::<(Seq<u8>, Option<SchemaEvent>), FrameError>(
                (
                    frame_parse(frame, lane_width, PROTOCOL_VERSION)->Ok_0.payload,
                    Some(
                        SchemaEvent::Complete {
                            sid: r.active_sid->Some_0,
                            schema_len: installed_schema(r)->Some_0.len() as usize,
                        },
                    ),
                ),
            ),
        ),
{
}

/// Without an assembly, non-start frames neither start one nor activate a
/// SID: only a start frame can.
pub proof fn lemma_non_start_without_assembly_is_inert(
    r: ReceiverModel,
    frame: Seq<u8>,
    lane_width: int,
)
    requires
        r.assembly is None,
        frame_parse(frame, lane_width, PROTOCOL_VERSION) is Ok,
        !frame_parse(frame, lane_width, PROTOCOL_VERSION)->Ok_0.vft.schema_start,
    ensures
        receiver_step(r, frame, lane_width) == (
            r,
            Ok::<(Seq<u8>, Option<SchemaEvent>), FrameError>(
                (frame_parse(frame, lane_width, PROTOCOL_VERSION)->Ok_0.payload, None),
            ),
        ),
{
}

/// A start frame abandons whatever was assembled before: afterwards the
/// active SID is the frame's, or, on error, none.
pub proof fn lemma_start_frame_restarts(r: ReceiverModel, frame: Seq<u8>, lane_width: int)
    requires
        frame_parse(frame, lane_width, PROTOCOL_VERSION) is Ok,
        frame_parse(frame, lane_width, PROTOCOL_VERSION)->Ok_0.vft.schema_start,
    ensures
        ({
            let p = frame_parse(frame, lane_width, PROTOCOL_VERSION)->Ok_0;
            let (r2, res) = receiver_step(r, frame, lane_width);
            &&& p.sid is Some
            &&& res is Ok ==> r2.active_sid == p.sid
            &&& res is Ok ==> (res->Ok_0.1 == Some(SchemaEvent::Started { sid: p.sid->Some_0 })
                || (res->Ok_0.1 is Some && res->Ok_0.1->Some_0 is Complete
                && res->Ok_0.1->Some_0->Complete_sid == p.sid->Some_0))
            &&& res is Err ==> r2 == aborted(r)
        }),
{
}

/// Length discovery over bytes that continue a byte string announcing more
/// than `limit` is refused as too large.
proof fn lemma_discover_refuses_oversized(
    stream: Seq<u8>,
    total: nat,
    limit: nat,
    j: int,
    chunk: Seq<u8>,
    off: int,
)
    requires
        cbor_bstr_total(stream) == Ok::<Option<nat>, FrameError>(Some(total)),
        total > limit,
        0 <= j,
        0 <= off <= chunk.len(),
        stream.len() == j + (chunk.len() - off),
        forall|i: int| off <= i < chunk.len() ==> #[trigger] chunk[i] == stream[j + (i - off)],
        j < cbor_header_len(stream[0]),
    ensures
        discover_total(stream.take(j), chunk, off as nat, limit) == Err::<
            (Seq<u8>, nat, Option<nat>),
            FrameError,
        >(FrameError::SchemaTooLarge),
    decreases chunk.len() - off,
{
    lemma_cbor_prefixes(stream, total, j);
    assert(off < chunk.len());
    if j < limit {
        let b2 = stream.take(j).push(chunk[off]);
        assert(chunk[off] == stream[j + (off - off)]);
        assert(b2 =~= stream.take(j + 1));
        lemma_cbor_prefixes(stream, total, j + 1);
        if j + 1 < cbor_header_len(stream[0]) {
            lemma_discover_refuses_oversized(stream, total, limit, j + 1, chunk, off + 1);
        }
    }
}

/// Whether the bytes assembled so far and `chunk` complete a CBOR header that
/// announces more than the byte budget or the buffer allows.
pub open spec fn announces_over_limit(r: ReceiverModel, chunk: Seq<u8>) -> bool {
    let announced = cbor_bstr_total(r.assembly->Some_0.bytes + chunk);
    &&& r.assembly is Some
    &&& announced is Ok
    &&& announced->Ok_0 is Some
    &&& announced->Ok_0->Some_0 > schema_limit(r)
}

/// A declared total above the limit is always refused: when the bytes
/// assembled so far and a new chunk complete a CBOR header that announces more
/// than the byte budget or the buffer allows, appending the chunk aborts the
/// assembly with `SchemaTooLarge`.
pub proof fn lemma_oversized_total_refused(r: ReceiverModel, chunk: Seq<u8>)
    requires
        receiver_inv(r),
        r.assembly is Some,
        r.assembly->Some_0.frames_seen < r.max_schema_frames,
        announces_over_limit(r, chunk),
    ensures
        receiver_append(r, chunk) == (
            aborted(r),
            Err::<(), FrameError>(FrameError::SchemaTooLarge),
        ),
{
    let a = r.assembly->Some_0;
    let s = a.bytes + chunk;
    let t = cbor_bstr_total(s)->Ok_0->Some_0;
    let limit = schema_limit(r);
    if a.expected_total is Some {
        lemma_cbor_total_prefix_stable(a.bytes, chunk);
        assert(false);
    }
    assert(s.take(a.bytes.len() as int) =~= a.bytes);
    lemma_cbor_prefixes(s, t, a.bytes.len() as int);
    if a.bytes.len() >= cbor_header_len(s[0]) {
        assert(false);
    }
    assert(!reached_total(a));
    lemma_discover_refuses_oversized(s, t, limit, a.bytes.len() as int, chunk, 0);
}

/// How one frame moves the active SID: an accepted start frame sets it to the
/// frame's SID, a frame refused by the assembly clears it, and every other
/// frame (one that does not parse, or an accepted non-start frame) leaves it.
pub proof fn lemma_step_active_sid(r: ReceiverModel, frame: Seq<u8>, lane_width: int)
    ensures
        ({
            let p = frame_parse(frame, lane_width, PROTOCOL_VERSION);
            let (r2, res) = receiver_step(r, frame, lane_width);
            &&& (p is Ok && p->Ok_0.vft.schema_start && res is Ok) ==> r2.active_sid
                == p->Ok_0.sid
            &&& (p is Ok && res is Err) ==> r2.active_sid is None
            &&& !(p is Ok && p->Ok_0.vft.schema_start && res is Ok) && !(p is Ok && res is Err)
                ==> r2.active_sid == r.active_sid
        }),
{
    let p = frame_parse(frame, lane_width, PROTOCOL_VERSION);
    if p is Ok {
        if p->Ok_0.vft.schema_start {
            lemma_start_frame_restarts(r, frame, lane_width);
        } else {
            let (r2, res2) = receiver_append(r, p->Ok_0.schema_chunk);
            assert(r2.active_sid == r.active_sid || res2 is Err);
        }
    }
}

/// Length discovery keeps the assembly within the limit, and what it
/// records agrees with the CBOR header of the bytes it gathered.
proof fn lemma_discover_keeps_bounds(buf: Seq<u8>, chunk: Seq<u8>, off: nat, limit: nat)
    requires
        off <= chunk.len(),
        buf.len() <= limit,
        cbor_bstr_total(buf) == Ok::<Option<nat>, FrameError>(None),
    ensures
        discover_total(buf, chunk, off, limit) matches Ok((b, o, t)) ==> {
            &&& b.len() <= limit
            &&& match t {
                None => cbor_bstr_total(b) == Ok::<Option<nat>, FrameError>(None),
                Some(tt) => {
                    &&& cbor_bstr_total(b) == Ok::<Option<nat>, FrameError>(Some(tt))
                    &&& b.len() <= tt <= limit
                },
            }
        },
    decreases chunk.len() - off,
{
    if off < chunk.len() && buf.len() < limit {
        let b2 = buf.push(chunk[off as int]);
        if cbor_bstr_total(b2) is Ok {
            lemma_cbor_total_header(b2);
            if buf.len() > 0 {
                lemma_cbor_total_header(buf);
                assert(buf[0] == b2[0]);
            }
            if cbor_bstr_total(b2)->Ok_0 is None {
                lemma_discover_keeps_bounds(b2, chunk, off + 1, limit);
            }
        }
    }
}

/// Appending a schema chunk keeps the receiver invariant and the limits.
proof fn lemma_append_keeps_inv(r: ReceiverModel, chunk: Seq<u8>)
    requires
        receiver_inv(r),
    ensures
        receiver_inv(receiver_append(r, chunk).0),
        receiver_append(r, chunk).0.max_schema_bytes == r.max_schema_bytes,
        receiver_append(r, chunk).0.max_schema_frames == r.max_schema_frames,
        receiver_append(r, chunk).0.capacity == r.capacity,
{
    if r.assembly is Some {
        let a = r.assembly->Some_0;
        let limit = schema_limit(r);
        if !reached_total(a) && a.frames_seen < r.max_schema_frames {
            let disc = if a.expected_total is None {
                discover_total(a.bytes, chunk, 0, limit)
            } else {
                Ok((a.bytes, 0nat, a.expected_total))
            };
            if a.expected_total is None {
                lemma_discover_keeps_bounds(a.bytes, chunk, 0, limit);
            }
            if disc is Ok {
                let (b, o, t) = disc->Ok_0;
                let b2 = fill_to_total(b, chunk, o, t);
                if t is Some {
                    let rest = b2.subrange(b.len() as int, b2.len() as int);
                    assert(b + rest =~= b2);
                    lemma_cbor_total_prefix_stable(b, rest);
                }
            }
        }
    }
}

/// Every step keeps the receiver invariant and the limits: whatever frames
/// arrive, an assembly stays within its budgets, its bytes agree with the
/// length they announce, and a complete stream matches its SID.
pub proof fn lemma_step_keeps_inv(r: ReceiverModel, frame: Seq<u8>, lane_width: int)
    requires
        receiver_inv(r),
    ensures
        receiver_inv(receiver_step(r, frame, lane_width).0),
        receiver_step(r, frame, lane_width).0.max_schema_bytes == r.max_schema_bytes,
        receiver_step(r, frame, lane_width).0.max_schema_frames == r.max_schema_frames,
        receiver_step(r, frame, lane_width).0.capacity == r.capacity,
{
    let p = frame_parse(frame, lane_width, PROTOCOL_VERSION);
    if p is Ok {
        if p->Ok_0.vft.schema_start {
            let sid = p->Ok_0.sid->Some_0;
            let r1 = ReceiverModel { assembly: Some(fresh_assembly(sid)), active_sid: Some(sid), ..r };
            assert(cbor_bstr_total(Seq::<u8>::empty()) == Ok::<Option<nat>, FrameError>(None));
            lemma_append_keeps_inv(r1, p->Ok_0.schema_chunk);
        } else {
            lemma_append_keeps_inv(r, p->Ok_0.schema_chunk);
        }
    }
}

/// The event a frame reports describes the state it leaves: `Complete` names
/// the active SID and the length of the schema now installed (the length its
/// header announced, whatever padding the lane carried); `Progress` names the
/// active SID, the bytes assembled so far and the announced total if known,
/// with no schema installed yet; `Started` names the active SID with no schema
/// installed yet; no event means no assembly and no active SID.
pub proof fn lemma_event_describes_state(r: ReceiverModel, frame: Seq<u8>, lane_width: int)
    requires
        receiver_inv(r),
        r.capacity <= usize::MAX,
    ensures
        ({
            let (r2, res) = receiver_step(r, frame, lane_width);
            res is Ok ==> match res->Ok_0.1 {
                None => r2.assembly is None && r2.active_sid is None,
                Some(SchemaEvent::Started { sid }) => r2.active_sid == Some(sid) && installed_schema(
                    r2,
                ) is None,
                Some(SchemaEvent::Progress { sid, received, expected_total }) => {
                    &&& r2.active_sid == Some(sid)
                    &&& installed_schema(r2) is None
                    &&& r2.assembly is Some
                    &&& r2.assembly->Some_0.bytes.len() == received as nat
                    &&& match r2.assembly->Some_0.expected_total {
                        None => expected_total is None,
                        Some(t) => expected_total == Some(t as usize) && t <= usize::MAX,
                    }
                },
                Some(SchemaEvent::Complete { sid, schema_len }) => {
                    &&& r2.active_sid == Some(sid)
                    &&& installed_schema(r2) is Some
                    &&& installed_schema(r2)->Some_0.len() == schema_len as nat
                    &&& cbor_bstr_total(installed_schema(r2)->Some_0) == Ok::<
                        Option<nat>,
                        FrameError,
                    >(Some(schema_len as nat))
                },
            }
        }),
{
    lemma_step_keeps_inv(r, frame, lane_width);
}

#[derive(Clone, Copy)]
struct Assembly {
    sid: Sid,
    received: usize,
    expected_total: Option<usize>,
    frames_seen: usize,
}

/// Receiver that reassembles schema stream bytes in a buffer of `N` bytes.
pub struct Receiver<const N: usize> {
    schema_buf: [u8; N],
    assembly: Option<Assembly>,
    active_sid: Option<Sid>,
    max_schema_bytes: usize,
    max_schema_frames: usize,
}

spec fn opt_nat(o: Option<usize>) -> Option<nat> {
    match o {
        Some(t) => Some(t as nat),
        None => None,
    }
}

impl<const N: usize> View for Receiver<N> {
    type V = ReceiverModel;

    closed spec fn view(&self) -> ReceiverModel {
        ReceiverModel {
            assembly: match self.assembly {
                None => None,
                Some(a) => Some(
                    AssemblyModel {
                        sid: a.sid,
                        bytes: self.schema_buf@.subrange(0, a.received as int),
                        expected_total: opt_nat(a.expected_total),
                        frames_seen: a.frames_seen as nat,
                    },
                ),
            },
            active_sid: self.active_sid,
            max_schema_bytes: self.max_schema_bytes as nat,
            max_schema_frames: self.max_schema_frames as nat,
            capacity: N as nat,
        }
    }
}

impl<const N: usize> Receiver<N> {
    /// The receiver's internal consistency: the buffer holds `N` bytes, the
    /// assembly lies within it, and the state satisfies `receiver_inv`.
    pub closed spec fn wf(&self) -> bool {
        &&& self.schema_buf@.len() == N
        &&& (self.assembly matches Some(a) ==> a.received <= N)
        &&& receiver_inv(self@)
    }

    pub fn new(max_schema_bytes: usize, max_schema_frames: usize) -> (r: Self)
        ensures
            r.wf(),
            receiver_inv(r@),
            r@ == (ReceiverModel {
                assembly: None,
                active_sid: None,
                max_schema_bytes: max_schema_bytes as nat,
                max_schema_frames: max_schema_frames as nat,
                capacity: N as nat,
            }),
    {
        let schema_buf = [0u8; N];
        Self { schema_buf, assembly: None, active_sid: None, max_schema_bytes, max_schema_frames }
    }

    pub fn active_sid(&self) -> (r: Option<Sid>)
        ensures
            r == self@.active_sid,
    {
        self.active_sid
    }

    /// The receiver's state satisfies `receiver_inv`, and its capacity is the
    /// buffer size `N`.
    pub proof fn lemma_wf_inv(&self)
        requires
            self.wf(),
        ensures
            receiver_inv(self@),
            self@.capacity == N as nat,
    {
    }

    pub fn schema_bytes(&self) -> (r: Option<&[u8]>)
        requires
            self.wf(),
        ensures
            r matches Some(s) ==> installed_schema(self@) == Some(s@),
            r is None ==> installed_schema(self@) is None,
    {
        match self.assembly {
            Some(a) => {
                if a.expected_total == Some(a.received) {
                    Some(slice_subrange(self.schema_buf.as_slice(), 0, a.received))
                } else {
                    None
                }
            },
            None => None,
        }
    }

    pub fn process_frame<'a>(&mut self, frame: &'a [u8], schema_lane_bytes: usize) -> (r: Result<
        ProcessedFrame<'a>,
        FrameError,
    >)
        requires
            old(self).wf(),
        ensures
            final(self).wf(),
            receiver_inv(final(self)@),
            final(self)@ == receiver_step(old(self)@, frame@, schema_lane_bytes as int).0,
            r matches Ok(pf) ==> receiver_step(old(self)@, frame@, schema_lane_bytes as int).1
                == Ok::<(Seq<u8>, Option<SchemaEvent>), FrameError>((pf.payload@, pf.event)),
            r matches Err(e) ==> receiver_step(old(self)@, frame@, schema_lane_bytes as int).1
                == Err::<(Seq<u8>, Option<SchemaEvent>), FrameError>(e),
    {
        let parsed = match parse_frame(frame, schema_lane_bytes, PROTOCOL_VERSION) {
            Ok(p) => p,
            Err(e) => return Err(e),
        };
        if parsed.vft.schema_start {
            assert(parsed.sid is Some);
            let sid = parsed.sid.unwrap();
            self.assembly = Some(Assembly { sid, received: 0, expected_total: None, frames_seen: 0 });
            self.active_sid = Some(sid);
            assert(self@.assembly->Some_0.bytes =~= Seq::<u8>::empty());
            match self.append_schema_chunk(parsed.schema_chunk) {
                Ok(()) => {},
                Err(e) => return Err(e),
            }
            let event = match self.progress_event() {
                Some(SchemaEvent::Complete { .. }) => self.progress_event(),
                _ => Some(SchemaEvent::Started { sid }),
            };
            return Ok(ProcessedFrame { payload: parsed.payload, event });
        }
        match self.append_schema_chunk(parsed.schema_chunk) {
            Ok(()) => {},
            Err(e) => return Err(e),
        }
        let event = self.progress_event();
        Ok(ProcessedFrame { payload: parsed.payload, event })
    }

    fn abort_assembly(&mut self)
        requires
            old(self).schema_buf@.len() == N,
        ensures
            final(self).wf(),
            final(self)@ == aborted(old(self)@),
    {
        self.assembly = None;
        self.active_sid = None;
    }

    fn progress_event(&self) -> (r: Option<SchemaEvent>)
        requires
            self.wf(),
        ensures
            r == progress_of(self@.assembly),
    {
        let work = match self.assembly {
            Some(a) => a,
            None => return None,
        };
        if work.expected_total == Some(work.received) {
            return Some(SchemaEvent::Complete { sid: work.sid, schema_len: work.received });
        }
        Some(
            SchemaEvent::Progress {
                sid: work.sid,
                received: work.received,
                expected_total: work.expected_total,
            },
        )
    }

    fn append_schema_chunk(&mut self, chunk: &[u8]) -> (r: Result<(), FrameError>)
        requires
            old(self).wf(),
        ensures
            final(self).wf(),
            receiver_inv(final(self)@),
            final(self)@ == receiver_append(old(self)@, chunk@).0,
            r == receiver_append(old(self)@, chunk@).1,
            old(self)@.assembly is Some && old(self)@.assembly->Some_0.frames_seen < old(
                self,
            ).max_schema_frames && announces_over_limit(old(self)@, chunk@) ==> r == Err::<
                (),
                FrameError,
            >(FrameError::SchemaTooLarge) && final(self)@ == aborted(old(self)@),
    {
        proof {
            if old(self)@.assembly is Some && old(self)@.assembly->Some_0.frames_seen < old(
                self,
            ).max_schema_frames && announces_over_limit(old(self)@, chunk@) {
                lemma_oversized_total_refused(old(self)@, chunk@);
            }
        }
        let mut work = match self.assembly {
            Some(a) => a,
            None => return Ok(()),
        };
        // Once complete, ignore subsequent schema-lane bytes (typically padding) with zero work.
        if let Some(total) = work.expected_total {
            if work.received >= total {
                return Ok(());
            }
        }
        if work.frames_seen >= self.max_schema_frames {
            self.abort_assembly();
            return Err(FrameError::SchemaFrameBudgetExceeded);
        }
        work.frames_seen = work.frames_seen + 1;
        let limit: usize = if self.max_schema_bytes < N {
            self.max_schema_bytes
        } else {
            N
        };
        let ghost r0 = self@;
        let ghost a0 = self@.assembly->Some_0;
        let ghost disc = if a0.expected_total is None {
            discover_total(a0.bytes, chunk@, 0, limit as nat)
        } else {
            Ok((a0.bytes, 0nat, a0.expected_total))
        };
        // Prefix-discovery phase: copy byte-by-byte until CBOR bstr total length is known.
        let mut chunk_off: usize = 0;
        while chunk_off < chunk.len() && work.expected_total.is_none()
            invariant
                self.schema_buf@.len() == N,
                old(self).wf(),
                a0.frames_seen < old(self).max_schema_frames && announces_over_limit(
                    old(self)@,
                    chunk@,
                ) ==> receiver_append(old(self)@, chunk@) == (
                    aborted(old(self)@),
                    Err::<(), FrameError>(FrameError::SchemaTooLarge),
                ),
                old(self)@.assembly is Some,
                r0 == old(self)@,
                a0 == old(self)@.assembly->Some_0,
                !reached_total(a0),
                a0.frames_seen < old(self).max_schema_frames,
                disc == (if a0.expected_total is None {
                    discover_total(a0.bytes, chunk@, 0, limit as nat)
                } else {
                    Ok((a0.bytes, 0nat, a0.expected_total))
                }),
                work.expected_total matches Some(t) ==> cbor_bstr_total(
                    self.schema_buf@.subrange(0, work.received as int),
                ) == Ok::<Option<nat>, FrameError>(Some(t as nat)),
                work.expected_total is None ==> cbor_bstr_total(
                    self.schema_buf@.subrange(0, work.received as int),
                ) == Ok::<Option<nat>, FrameError>(None),
                self.assembly == old(self).assembly,
                self.active_sid == old(self).active_sid,
                self.max_schema_bytes == old(self).max_schema_bytes,
                self.max_schema_frames == old(self).max_schema_frames,
                limit as nat == schema_limit(r0),
                limit <= N,
                work.sid == a0.sid,
                work.frames_seen == a0.frames_seen + 1,
                work.received <= limit,
                chunk_off <= chunk@.len(),
                work.expected_total matches Some(t) ==> work.received <= t <= limit,
                work.expected_total is None ==> disc == discover_total(
                    self.schema_buf@.subrange(0, work.received as int),
                    chunk@,
                    chunk_off as nat,
                    limit as nat,
                ),
                work.expected_total is Some ==> disc == Ok::<(Seq<u8>, nat, Option<nat>), FrameError>(
                    (
                        self.schema_buf@.subrange(0, work.received as int),
                        chunk_off as nat,
                        opt_nat(work.expected_total),
                    ),
                ),
            decreases chunk@.len() - chunk_off,
        {
            if work.received >= limit {
                self.abort_assembly();
                return Err(FrameError::SchemaTooLarge);
            }
            let ghost cur = self.schema_buf@.subrange(0, work.received as int);
            self.schema_buf[work.received] = chunk[chunk_off];
            work.received = work.received + 1;
            chunk_off = chunk_off + 1;
            assert(self.schema_buf@.subrange(0, work.received as int) =~= cur.push(chunk@[chunk_off - 1]));
            let prefix = slice_subrange(self.schema_buf.as_slice(), 0, work.received);
            match cbor_bstr_total_len(prefix) {
                Ok(v) => {
                    work.expected_total = v;
                },
                Err(e) => {
                    self.abort_assembly();
                    return Err(e);
                },
            }
            if let Some(total) = work.expected_total {
                if total > limit {
                    self.abort_assembly();
                    return Err(FrameError::SchemaTooLarge);
                }
                proof {
                    let b2 = cur.push(chunk@[chunk_off - 1]);
                    lemma_cbor_total_header(b2);
                    if cur.len() > 0 {
                        lemma_cbor_total_header(cur);
                        assert(cur[0] == b2[0]);
                    }
                }
            }
        }
        let ghost off0 = chunk_off as nat;
        let ghost cur = self.schema_buf@.subrange(0, work.received as int);
        assert(disc == Ok::<(Seq<u8>, nat, Option<nat>), FrameError>(
            (cur, off0, opt_nat(work.expected_total)),
        ));
        // Bulk-copy phase once total length is known.
        if let Some(total) = work.expected_total {
            if chunk_off < chunk.len() && work.received < total {
                let remaining = total - work.received;
                let avail = chunk.len() - chunk_off;
                let take = if remaining < avail {
                    remaining
                } else {
                    avail
                };
                let start = work.received;
                let mut i: usize = 0;
                while i < take
                    invariant
                        self.schema_buf@.len() == N,
                        self.assembly == old(self).assembly,
                        self.active_sid == old(self).active_sid,
                        self.max_schema_bytes == old(self).max_schema_bytes,
                        self.max_schema_frames == old(self).max_schema_frames,
                        start + take <= total <= limit <= N,
                        chunk_off + take <= chunk.len(),
                        cur.len() == start,
                        i <= take,
                        self.schema_buf@.subrange(0, start + i) =~= cur + chunk@.subrange(
                            chunk_off as int,
                            chunk_off + i,
                        ),
                    decreases take - i,
                {
                    let ghost prev = self.schema_buf@;
                    self.schema_buf[start + i] = chunk[chunk_off + i];
                    assert(self.schema_buf@.subrange(0, start + i) =~= prev.subrange(0, start + i));
                    assert(chunk@.subrange(chunk_off as int, chunk_off + i + 1) =~= chunk@.subrange(
                        chunk_off as int,
                        chunk_off + i,
                    ).push(chunk@[chunk_off + i]));
                    i = i + 1;
                    assert(self.schema_buf@.subrange(0, start + i) =~= cur + chunk@.subrange(
                        chunk_off as int,
                        chunk_off + i,
                    ));
                }
                work.received = start + take;
            }
        }
        let ghost bytes2 = self.schema_buf@.subrange(0, work.received as int);
        assert(bytes2 =~= fill_to_total(cur, chunk@, off0, opt_nat(work.expected_total)));
        proof {
            if work.expected_total is Some {
                lemma_cbor_total_prefix_stable(cur, bytes2.subrange(cur.len() as int, bytes2.len() as int));
                assert(cur + bytes2.subrange(cur.len() as int, bytes2.len() as int) =~= bytes2);
            }
        }
        let complete = match work.expected_total {
            Some(total) => work.received == total,
            None => false,
        };
        if complete {
            let schema = slice_subrange(self.schema_buf.as_slice(), 0, work.received);
            if !schema_matches_sid(schema, work.sid) {
                self.abort_assembly();
                return Err(FrameError::SchemaCrcMismatch);
            }
        }
        self.assembly = Some(work);
        Ok(())
    }
}

} // verus!
