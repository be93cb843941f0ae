//! Fixed-frame telemetry envelope with an in-band, CRC-checked schema stream.
//!
//! Every frame is `VFT | schema lane | payload`. The schema lane carries, frame by
//! frame, a CBOR byte string describing the payload format; a receiver reassembles
//! it and installs it once its CRC-32 matches the schema identifier (SID).
//!
//! - `vft`: the first byte of a frame, the SID types, the error type;
//! - `frame`: parsing and writing one frame, and their round-trip laws;
//! - `cbor`: length discovery for the schema stream;
//! - `crc`: schema identity (CRC-32/IEEE through `crc_any`);
//! - `receiver`: the reassembly state machine and its laws;
//! - `epoch`: convergence of the receiver on a clean schema epoch;
//! - `targets`: the write-then-parse self-checks of the embedded entry points.

pub mod cbor;
pub mod crc;
pub mod epoch;
pub mod frame;
pub mod receiver;
pub mod targets;
pub mod vft;

pub use cbor::cbor_bstr_total_len;
pub use crc::{crc32_ieee, sid_matches_crc};
pub use frame::{
    parse_frame, parse_frame_detailed, write_frame, write_frame_detailed, FrameErrorDetail,
    FrameWrite, ParsedFrame,
};
pub use receiver::{ProcessedFrame, Receiver, SchemaEvent};
pub use targets::{roundtrip_status_sid32, roundtrip_status_sid8};
pub use vft::{FrameError, Sid, SidMode, Vft, PROTOCOL_VERSION, SCHEMA_PAD_BYTE};
