//! Laws over sequences of frames: a clean schema epoch — one start frame
//! followed by continuation frames whose lanes carry the schema stream —
//! installs the schema, whatever state the receiver was in before; and, over
//! calls that may each use their own lane width, the active SID is the one of
//! the latest accepted start frame, unless an assembly error came after it.

use vstd::prelude::*;
use crate::cbor::{cbor_bstr_total, cbor_header_len, lemma_cbor_stream_prefix};
use crate::crc::{crc32_ieee_of, sid_accepts_crc};
use crate::frame::frame_parse;
use crate::receiver::{
    assembly_append, discover_total, fill_to_total, installed_schema, lemma_step_active_sid,
    receiver_step, reached_total, schema_limit, AssemblyModel, ReceiverModel,
};
use crate::vft::{FrameError, Sid, PROTOCOL_VERSION};

verus! {

/// The expected total an assembly holding `n` bytes of `stream` has recorded.
pub open spec fn total_after(stream: Seq<u8>, n: int) -> Option<nat> {
    if n < cbor_header_len(stream[0]) {
        None
    } else {
        Some(stream.len())
    }
}

/// Length discovery on bytes that follow `stream` reads exactly the header of
/// `stream`, or the whole chunk if the header is longer.
proof fn lemma_discover_on_stream(stream: Seq<u8>, limit: nat, j: int, chunk: Seq<u8>, off: int)
    requires
        cbor_bstr_total(stream) == Ok::<Option<nat>, FrameError>(Some(stream.len())),
        stream.len() <= limit,
        0 <= j,
        j < cbor_header_len(stream[0]),
        0 <= off <= chunk.len(),
        forall|i: int|
            off <= i < chunk.len() && j + (i - off) < stream.len() ==> #[trigger] chunk[i]
                == stream[j + (i - off)],
    ensures
        discover_total(stream.take(j), chunk, off as nat, limit) == (if chunk.len() - off
            >= cbor_header_len(stream[0]) - j {
            Ok::<(Seq<u8>, nat, Option<nat>), FrameError>(
                (
                    stream.take(cbor_header_len(stream[0]) as int),
                    (off + cbor_header_len(stream[0]) - j) as nat,
                    Some(stream.len()),
                ),
            )
        } else {
            Ok::<(Seq<u8>, nat, Option<nat>), FrameError>(
                (stream.take(j + chunk.len() - off), chunk.len(), None),
            )
        }),
    decreases chunk.len() - off,
{
    lemma_cbor_stream_prefix(stream, j);
    let hdr = cbor_header_len(stream[0]) as int;
    if off < chunk.len() {
        let b2 = stream.take(j).push(chunk[off]);
        assert(chunk[off] == stream[j + (off - off)]);
        assert(b2 =~= stream.take(j + 1));
        lemma_cbor_stream_prefix(stream, j + 1);
        if j + 1 < hdr {
            lemma_discover_on_stream(stream, limit, j + 1, chunk, off + 1);
        }
    } else {
        assert(stream.take(j + chunk.len() - off) =~= stream.take(j));
    }
}

/// Appending a chunk that continues `stream` to an assembly holding a proper
/// prefix of it succeeds and extends the prefix by the chunk, up to the
/// stream's end.
proof fn lemma_append_on_stream(
    a: AssemblyModel,
    chunk: Seq<u8>,
    max_frames: nat,
    limit: nat,
    stream: Seq<u8>,
)
    requires
        cbor_bstr_total(stream) == Ok::<Option<nat>, FrameError>(Some(stream.len())),
        stream.len() <= limit,
        sid_accepts_crc(a.sid, crc32_ieee_of(stream)),
        a.bytes.len() < stream.len(),
        a.bytes == stream.take(a.bytes.len() as int),
        a.expected_total == total_after(stream, a.bytes.len() as int),
        a.frames_seen < max_frames,
        forall|i: int|
            0 <= i < chunk.len() && a.bytes.len() + i < stream.len() ==> #[trigger] chunk[i]
                == stream[a.bytes.len() + i],
    ensures
        ({
            let n2: int = if a.bytes.len() + chunk.len() < stream.len() {
                (a.bytes.len() + chunk.len()) as int
            } else {
                stream.len() as int
            };
            assembly_append(a, chunk, max_frames, limit) == Ok::<AssemblyModel, FrameError>(
                AssemblyModel {
                    sid: a.sid,
                    bytes: stream.take(n2),
                    expected_total: total_after(stream, n2),
                    frames_seen: a.frames_seen + 1,
                },
            )
        }),
{
    let n = a.bytes.len() as int;
    let len = stream.len() as int;
    lemma_cbor_stream_prefix(stream, n);
    let hdr = cbor_header_len(stream[0]) as int;
    let n2: int = if n + chunk.len() < len {
        n + chunk.len()
    } else {
        len
    };
    assert(!reached_total(a));
    if a.expected_total is None {
        assert forall|i: int|
            0 <= i < chunk.len() && n + (i - 0) < len implies #[trigger] chunk[i] == stream[n + (i
            - 0)] by {
            assert(chunk[i] == stream[n + i]);
        }
        lemma_discover_on_stream(stream, limit, n, chunk, 0);
        if chunk.len() >= hdr - n {
            let off = hdr - n;
            let bytes1 = stream.take(hdr);
            let bytes2 = fill_to_total(bytes1, chunk, off as nat, Some(len as nat));
            if off < chunk.len() && hdr < len {
                let take = if len - hdr < chunk.len() - off {
                    len - hdr
                } else {
                    chunk.len() - off
                };
                assert(bytes2 == bytes1 + chunk.subrange(off, off + take));
                assert forall|i: int| 0 <= i < hdr + take implies #[trigger] bytes2[i] == stream.take(
                    n2,
                )[i] by {
                    if i >= hdr {
                        assert(bytes2[i] == chunk[off + (i - hdr)]);
                        assert(chunk[off + (i - hdr)] == stream[n + (off + (i - hdr))]);
                    }
                }
                assert(bytes2 =~= stream.take(n2));
            } else {
                assert(bytes2 =~= stream.take(n2));
            }
            if n2 == len {
                assert(stream.take(n2) =~= stream);
            }
        } else {
            assert(stream.take(n2) =~= stream.take(n + chunk.len() - 0));
        }
    } else {
        let bytes2 = fill_to_total(a.bytes, chunk, 0, Some(len as nat));
        if 0 < chunk.len() {
            let take = if len - n < chunk.len() {
                len - n
            } else {
                chunk.len() as int
            };
            assert forall|i: int| 0 <= i < n + take implies #[trigger] bytes2[i] == stream.take(
                n2,
            )[i] by {
                if i >= n {
                    assert(bytes2[i] == chunk[i - n]);
                }
            }
            assert(bytes2 =~= stream.take(n2));
        } else {
            assert(bytes2 =~= stream.take(n2));
        }
        if n2 == len {
            assert(stream.take(n2) =~= stream);
        }
    }
}

/// The schema-lane chunks laid end to end.
pub open spec fn concat_chunks(chunks: Seq<Seq<u8>>) -> Seq<u8>
    decreases chunks.len(),
{
    if chunks.len() == 0 {
        Seq::empty()
    } else {
        concat_chunks(chunks.drop_last()) + chunks.last()
    }
}

/// The schema chunks that a receiver reads from `frames` with lane width `lane_width`.
pub open spec fn lane_chunks(frames: Seq<Seq<u8>>, lane_width: int) -> Seq<Seq<u8>> {
    Seq::new(
        frames.len(),
        |i: int| frame_parse(frames[i], lane_width, PROTOCOL_VERSION)->Ok_0.schema_chunk,
    )
}

/// The receiver's state after processing `frames` in order, whatever each
/// step returned.
pub open spec fn receiver_run(r: ReceiverModel, frames: Seq<Seq<u8>>, lane_width: int) -> ReceiverModel
    decreases frames.len(),
{
    if frames.len() == 0 {
        r
    } else {
        receiver_step(receiver_run(r, frames.drop_last(), lane_width), frames.last(), lane_width).0
    }
}

/// Chunks laid end to end start with the first `k` of them laid end to end.
proof fn lemma_concat_take(chunks: Seq<Seq<u8>>, k: int)
    requires
        0 <= k <= chunks.len(),
    ensures
        concat_chunks(chunks.take(k)).len() <= concat_chunks(chunks).len(),
        concat_chunks(chunks).take(concat_chunks(chunks.take(k)).len() as int) =~= concat_chunks(
            chunks.take(k),
        ),
    decreases chunks.len(),
{
    if k == chunks.len() {
        assert(chunks.take(k) =~= chunks);
    } else {
        let d = chunks.drop_last();
        lemma_concat_take(d, k);
        assert(d.take(k) =~= chunks.take(k));
        let c = concat_chunks(chunks);
        assert(c == concat_chunks(d) + chunks.last());
        let m = concat_chunks(chunks.take(k)).len() as int;
        assert(c.take(m) =~= concat_chunks(d).take(m));
    }
}

/// A clean epoch installs its schema. From any receiver state, processing a
/// start frame for `sid` followed by continuation frames installs `schema` and
/// leaves `sid` active, provided that the lane chunks of the frames, laid end
/// to end, begin with `schema` and only the last frame completes it; that the
/// schema is one CBOR byte string whose CRC matches `sid`; and that it fits
/// the receiver's byte and frame budgets.
pub proof fn lemma_clean_epoch_installs_schema(
    r: ReceiverModel,
    frames: Seq<Seq<u8>>,
    lane_width: int,
    sid: Sid,
    schema: Seq<u8>,
)
    requires
        1 <= frames.len() <= r.max_schema_frames,
        cbor_bstr_total(schema) == Ok::<Option<nat>, FrameError>(Some(schema.len())),
        schema.len() <= schema_limit(r),
        sid_accepts_crc(sid, crc32_ieee_of(schema)),
        forall|i: int|
            0 <= i < frames.len() ==> #[trigger] frame_parse(frames[i], lane_width, PROTOCOL_VERSION)
                is Ok,
        frame_parse(frames[0], lane_width, PROTOCOL_VERSION)->Ok_0.vft.schema_start,
        frame_parse(frames[0], lane_width, PROTOCOL_VERSION)->Ok_0.sid == Some(sid),
        forall|i: int|
            1 <= i < frames.len() ==> !(#[trigger] frame_parse(
                frames[i],
                lane_width,
                PROTOCOL_VERSION,
            ))->Ok_0.vft.schema_start,
        concat_chunks(lane_chunks(frames, lane_width).drop_last()).len() < schema.len(),
        schema.len() <= concat_chunks(lane_chunks(frames, lane_width)).len(),
        concat_chunks(lane_chunks(frames, lane_width)).take(schema.len() as int) == schema,
    ensures
        installed_schema(receiver_run(r, frames, lane_width)) == Some(schema),
        receiver_run(r, frames, lane_width).active_sid == Some(sid),
{
    lemma_epoch_prefix(r, frames, lane_width, sid, schema, frames.len() as int);
    assert(frames.take(frames.len() as int) =~= frames);
    let chunks = lane_chunks(frames, lane_width);
    assert(chunks.take(frames.len() as int) =~= chunks);
    let len = schema.len() as int;
    assert(schema.take(len) =~= schema);
}

/// After the first `k` frames of a clean epoch, the receiver holds the
/// epoch's schema up to the bytes those frames carried.
proof fn lemma_epoch_prefix(
    r: ReceiverModel,
    frames: Seq<Seq<u8>>,
    lane_width: int,
    sid: Sid,
    schema: Seq<u8>,
    k: int,
)
    requires
        1 <= k <= frames.len() <= r.max_schema_frames,
        cbor_bstr_total(schema) == Ok::<Option<nat>, FrameError>(Some(schema.len())),
        schema.len() <= schema_limit(r),
        sid_accepts_crc(sid, crc32_ieee_of(schema)),
        forall|i: int|
            0 <= i < frames.len() ==> #[trigger] frame_parse(frames[i], lane_width, PROTOCOL_VERSION)
                is Ok,
        frame_parse(frames[0], lane_width, PROTOCOL_VERSION)->Ok_0.vft.schema_start,
        frame_parse(frames[0], lane_width, PROTOCOL_VERSION)->Ok_0.sid == Some(sid),
        forall|i: int|
            1 <= i < frames.len() ==> !(#[trigger] frame_parse(
                frames[i],
                lane_width,
                PROTOCOL_VERSION,
            ))->Ok_0.vft.schema_start,
        concat_chunks(lane_chunks(frames, lane_width).drop_last()).len() < schema.len(),
        schema.len() <= concat_chunks(lane_chunks(frames, lane_width)).len(),
        concat_chunks(lane_chunks(frames, lane_width)).take(schema.len() as int) == schema,
    ensures
        ({
            let rk = receiver_run(r, frames.take(k), lane_width);
            let got = concat_chunks(lane_chunks(frames, lane_width).take(k)).len();
            let n: int = if got < schema.len() {
                got as int
            } else {
                schema.len() as int
            };
            &&& rk.active_sid == Some(sid)
            &&& rk.max_schema_frames == r.max_schema_frames
            &&& schema_limit(rk) == schema_limit(r)
            &&& rk.assembly == Some(
                AssemblyModel {
                    sid,
                    bytes: schema.take(n),
                    expected_total: total_after(schema, n),
                    frames_seen: k as nat,
                },
            )
        }),
    decreases k,
{
    let chunks = lane_chunks(frames, lane_width);
    let len = schema.len() as int;
    lemma_cbor_stream_prefix(schema, 0);
    // The chunks before frame k carry less than the whole schema.
    lemma_concat_take(chunks.drop_last(), k - 1);
    assert(chunks.drop_last().take(k - 1) =~= chunks.take(k - 1));
    let prev = concat_chunks(chunks.take(k - 1));
    let n0 = prev.len() as int;
    assert(n0 < len);
    // Frame k-1 continues the schema where the earlier frames stopped.
    let c = chunks[k - 1];
    lemma_concat_take(chunks, k);
    assert(chunks.take(k).drop_last() =~= chunks.take(k - 1));
    assert(chunks.take(k).last() == c);
    let all = concat_chunks(chunks);
    let upto = concat_chunks(chunks.take(k));
    assert(upto =~= prev + c);
    assert forall|i: int| 0 <= i < c.len() && n0 + i < len implies #[trigger] c[i] == schema[n0
        + i] by {
        assert(upto[n0 + i] == c[i]);
        assert(all.take(upto.len() as int)[n0 + i] == upto[n0 + i]);
        assert(all.take(len)[n0 + i] == all[n0 + i]);
    }
    assert(frames.take(k).drop_last() =~= frames.take(k - 1));
    assert(frames.take(k).last() == frames[k - 1]);
    let p = frame_parse(frames[k - 1], lane_width, PROTOCOL_VERSION)->Ok_0;
    assert(p.schema_chunk == c);
    if k == 1 {
        assert(frames.take(0) =~= Seq::<Seq<u8>>::empty());
        assert(chunks.take(0) =~= Seq::<Seq<u8>>::empty());
        let a = AssemblyModel { sid, bytes: Seq::empty(), expected_total: None, frames_seen: 0 };
        assert(a.bytes =~= schema.take(0));
        lemma_append_on_stream(a, c, r.max_schema_frames, schema_limit(r), schema);
    } else {
        lemma_epoch_prefix(r, frames, lane_width, sid, schema, k - 1);
        let rp = receiver_run(r, frames.take(k - 1), lane_width);
        let a = rp.assembly->Some_0;
        assert(!p.vft.schema_start);
        lemma_append_on_stream(a, c, r.max_schema_frames, schema_limit(r), schema);
    }
}

/// The receiver's state after a sequence of `process_frame` calls, each with
/// its own frame and lane width, whatever each call returned.
pub open spec fn receiver_feed(r: ReceiverModel, calls: Seq<(Seq<u8>, int)>) -> ReceiverModel
    decreases calls.len(),
{
    if calls.len() == 0 {
        r
    } else {
        receiver_step(receiver_feed(r, calls.drop_last()), calls.last().0, calls.last().1).0
    }
}

/// Whether call `i`, made after the calls before it starting from `r`, gave
/// a start frame that the receiver accepted.
#[verifier::opaque]
pub open spec fn accepted_start(r: ReceiverModel, calls: Seq<(Seq<u8>, int)>, i: int) -> bool {
    &&& frame_parse(calls[i].0, calls[i].1, PROTOCOL_VERSION) is Ok
    &&& frame_parse(calls[i].0, calls[i].1, PROTOCOL_VERSION)->Ok_0.vft.schema_start
    &&& receiver_step(receiver_feed(r, calls.take(i)), calls[i].0, calls[i].1).1 is Ok
}

/// Whether call `i`, made after the calls before it starting from `r`, gave
/// a frame that parsed but was refused by the assembly (which aborts it).
#[verifier::opaque]
pub open spec fn refused_by_assembly(r: ReceiverModel, calls: Seq<(Seq<u8>, int)>, i: int) -> bool {
    &&& frame_parse(calls[i].0, calls[i].1, PROTOCOL_VERSION) is Ok
    &&& receiver_step(receiver_feed(r, calls.take(i)), calls[i].0, calls[i].1).1 is Err
}

/// Whether call `i` gave an accepted start frame for `sid` after which no
/// start frame was accepted and no assembly error occurred.
pub open spec fn sid_last_started_at(
    r: ReceiverModel,
    calls: Seq<(Seq<u8>, int)>,
    sid: Sid,
    i: int,
) -> bool {
    &&& 0 <= i < calls.len()
    &&& accepted_start(r, calls, i)
    &&& frame_parse(calls[i].0, calls[i].1, PROTOCOL_VERSION)->Ok_0.sid == Some(sid)
    &&& forall|j: int|
        i < j < calls.len() ==> !accepted_start(r, calls, j) && !refused_by_assembly(r, calls, j)
}

/// Calls after `i` do not change what happened at call `i`.
proof fn lemma_history_prefix(r: ReceiverModel, calls: Seq<(Seq<u8>, int)>, i: int)
    requires
        0 <= i < calls.len() - 1,
    ensures
        accepted_start(r, calls, i) == accepted_start(r, calls.drop_last(), i),
        refused_by_assembly(r, calls, i) == refused_by_assembly(r, calls.drop_last(), i),
        calls[i] == calls.drop_last()[i],
{
    reveal(accepted_start);
    reveal(refused_by_assembly);
    assert(calls.take(i) =~= calls.drop_last().take(i));
}

/// What the last call of a sequence does to the active SID.
proof fn lemma_history_last_step(r: ReceiverModel, calls: Seq<(Seq<u8>, int)>)
    requires
        calls.len() >= 1,
    ensures
        ({
            let n = calls.len() as int;
            let rf = receiver_feed(r, calls);
            let rd = receiver_feed(r, calls.drop_last());
            &&& accepted_start(r, calls, n - 1) ==> rf.active_sid == frame_parse(
                calls[n - 1].0,
                calls[n - 1].1,
                PROTOCOL_VERSION,
            )->Ok_0.sid
            &&& refused_by_assembly(r, calls, n - 1) ==> rf.active_sid is None
            &&& !accepted_start(r, calls, n - 1) && !refused_by_assembly(r, calls, n - 1)
                ==> rf.active_sid == rd.active_sid
        }),
{
    reveal(accepted_start);
    reveal(refused_by_assembly);
    let n = calls.len() as int;
    assert(calls.take(n - 1) =~= calls.drop_last());
    assert(calls.last() == calls[n - 1]);
    lemma_step_active_sid(receiver_feed(r, calls.drop_last()), calls[n - 1].0, calls[n - 1].1);
}

/// The history of the active SID. Starting from a receiver with no active SID
/// (such as a new one), after any sequence of calls, each with its own frame
/// and lane width, the active SID is `sid` exactly when some call gave an
/// accepted start frame carrying `sid` and no later call gave an accepted
/// start frame or a frame refused by the assembly; frames that do not parse
/// leave it alone. In particular a stale start frame rolls it back, and no SID
/// is active without an accepted start frame.
pub proof fn lemma_active_sid_history(r: ReceiverModel, calls: Seq<(Seq<u8>, int)>, sid: Sid)
    requires
        r.active_sid is None,
    ensures
        receiver_feed(r, calls).active_sid == Some(sid) <==> exists|i: int|
            #[trigger] sid_last_started_at(r, calls, sid, i),
    decreases calls.len(),
{
    if calls.len() == 0 {
        return;
    }
    let n = calls.len() as int;
    let d = calls.drop_last();
    lemma_active_sid_history(r, d, sid);
    assert forall|i: int|
        #![trigger accepted_start(r, calls, i)]
        #![trigger accepted_start(r, d, i)]
        #![trigger refused_by_assembly(r, calls, i)]
        #![trigger refused_by_assembly(r, d, i)]
        #![trigger calls[i]]
        #![trigger d[i]]
        0 <= i < n - 1 implies (accepted_start(r, calls, i) == accepted_start(r, d, i)
        && refused_by_assembly(r, calls, i) == refused_by_assembly(r, d, i) && calls[i] == d[i]) by {
        lemma_history_prefix(r, calls, i);
    }
    lemma_history_last_step(r, calls);
    let rd = receiver_feed(r, d);
    let rf = receiver_feed(r, calls);
    // The last call neither starts nor aborts: the history of `d` carries over.
    if !accepted_start(r, calls, n - 1) && !refused_by_assembly(r, calls, n - 1) {
        assert(rf.active_sid == rd.active_sid);
        if exists|i: int| #[trigger] sid_last_started_at(r, calls, sid, i) {
            let i = choose|i: int| #[trigger] sid_last_started_at(r, calls, sid, i);
            assert(i < n - 1);
            assert(calls[i] == d[i]);
            assert forall|j: int| i < j < d.len() implies !accepted_start(r, d, j)
                && !refused_by_assembly(r, d, j) by {
                assert(accepted_start(r, calls, j) == accepted_start(r, d, j));
                assert(refused_by_assembly(r, calls, j) == refused_by_assembly(r, d, j));
            }
            assert(sid_last_started_at(r, d, sid, i));
        }
        if exists|i: int| #[trigger] sid_last_started_at(r, d, sid, i) {
            let i = choose|i: int| #[trigger] sid_last_started_at(r, d, sid, i);
            assert(calls[i] == d[i]);
            assert(accepted_start(r, calls, i) == accepted_start(r, d, i));
            assert forall|j: int| i < j < calls.len() implies !accepted_start(r, calls, j)
                && !refused_by_assembly(r, calls, j) by {
                if j < n - 1 {
                    assert(accepted_start(r, calls, j) == accepted_start(r, d, j));
                    assert(refused_by_assembly(r, calls, j) == refused_by_assembly(r, d, j));
                }
            }
            assert(sid_last_started_at(r, calls, sid, i));
        }
    } else if accepted_start(r, calls, n - 1) {
        assert(rf.active_sid == frame_parse(calls[n - 1].0, calls[n - 1].1, PROTOCOL_VERSION)->Ok_0.sid);
        if rf.active_sid == Some(sid) {
            assert(sid_last_started_at(r, calls, sid, n - 1));
        }
        if exists|i: int| #[trigger] sid_last_started_at(r, calls, sid, i) {
            let i = choose|i: int| #[trigger] sid_last_started_at(r, calls, sid, i);
            if i < n - 1 {
                assert(!accepted_start(r, calls, n - 1));
            }
        }
    } else {
        assert(rf.active_sid is None);
        if exists|i: int| #[trigger] sid_last_started_at(r, calls, sid, i) {
            let i = choose|i: int| #[trigger] sid_last_started_at(r, calls, sid, i);
            if i < n - 1 {
                assert(!refused_by_assembly(r, calls, n - 1));
            }
        }
    }
}

} // verus!
