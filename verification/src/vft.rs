//! The first byte of every frame (`VFT`), the SID types and the error type.

use vstd::prelude::*;

verus! {

/// Protocol version encoded in `VFT.b7..b6`.
pub const PROTOCOL_VERSION: u8 = 0;

/// Sentinel used for schema-lane padding once schema bytes are exhausted.
pub const SCHEMA_PAD_BYTE: u8 = 0xA5;

/// SID encoding mode selected by `VFT.b4`.
#[derive(Clone, Copy, Debug, PartialEq, Eq, Structural)]
pub enum SidMode {
    Sid8,
    Sid32,
}

/// SID value carried on `schema_start` frames.
#[derive(Clone, Copy, Debug, PartialEq, Eq, Structural)]
pub enum Sid {
    Sid8(u8),
    Sid32(u32),
}

/// Errors returned while parsing frames and evolving receiver state.
#[derive(Clone, Copy, Debug, PartialEq, Eq, Structural)]
pub enum FrameError {
    InvalidVersion,
    ReservedBitsSet,
    WrongProtocolVersion,
    FrameTooShort,
    InvalidSchemaLaneWidth,
    InvalidPayloadLength,
    InvalidCborLengthPrefix,
    SchemaTooLarge,
    SchemaFrameBudgetExceeded,
    SidMismatch,
    SchemaCrcMismatch,
    MissingSidOnStart,
    UnexpectedSidOnNonStart,
    SidModeMismatch,
    SchemaChunkTooLong,
    PayloadLenMismatch,
}

/// Parsed VFT fields from the first byte.
#[derive(Clone, Copy, Debug, PartialEq, Eq, Structural)]
pub struct Vft {
    pub version: u8,
    pub schema_start: bool,
    pub sid_mode: SidMode,
}

/// Number of SID bytes that open the schema lane of a start frame.
pub open spec fn sid_prefix_len(mode: SidMode) -> nat {
    match mode {
        SidMode::Sid8 => 1,
        SidMode::Sid32 => 4,
    }
}

/// Whether a SID value has the shape that `mode` announces.
pub open spec fn sid_fits_mode(sid: Sid, mode: SidMode) -> bool {
    match (mode, sid) {
        (SidMode::Sid8, Sid::Sid8(_)) => true,
        (SidMode::Sid32, Sid::Sid32(_)) => true,
        _ => false,
    }
}

/// The VFT byte with the given fields: version in bits 7..6, `schema_start` in
/// bit 5, `sid_mode` in bit 4 (set for `sid32`), reserved bits 3..0 clear.
pub open spec fn vft_byte(version: u8, schema_start: bool, sid_mode: SidMode) -> u8 {
    ((version & 3u8) << 6u8) | (if schema_start { 0x20u8 } else { 0u8 }) | (match sid_mode {
        SidMode::Sid8 => 0u8,
        SidMode::Sid32 => 0x10u8,
    })
}

/// What a VFT byte decodes to: an error when a reserved bit is set, the three
/// fields otherwise.
pub open spec fn vft_decode(byte: u8) -> Result<Vft, FrameError> {
    if byte & 0x0Fu8 != 0 {
        Err(FrameError::ReservedBitsSet)
    } else {
        Ok(
            Vft {
                version: (byte >> 6u8) & 3u8,
                schema_start: (byte >> 5u8) & 1u8 == 1,
                sid_mode: if (byte >> 4u8) & 1u8 == 1 {
                    SidMode::Sid32
                } else {
                    SidMode::Sid8
                },
            },
        )
    }
}

/// What encoding a VFT gives: an error when the version does not fit in two bits.
pub open spec fn vft_encoding(v: Vft) -> Result<u8, FrameError> {
    if v.version > 3 {
        Err(FrameError::InvalidVersion)
    } else {
        Ok(vft_byte(v.version, v.schema_start, v.sid_mode))
    }
}

impl Vft {
    pub fn parse(byte: u8) -> (r: Result<Self, FrameError>)
        ensures
            r == vft_decode(byte),
    {
        let version = (byte >> 6) & 0b11;
        let schema_start = ((byte >> 5) & 0b1) != 0;
        let sid_mode = if ((byte >> 4) & 0b1) != 0 {
            SidMode::Sid32
        } else {
            SidMode::Sid8
        };
        assert(((byte >> 5u8) & 1u8 != 0) == ((byte >> 5u8) & 1u8 == 1)) by (bit_vector);
        assert(((byte >> 4u8) & 1u8 != 0) == ((byte >> 4u8) & 1u8 == 1)) by (bit_vector);
        let reserved = byte & 0x0F;
        if reserved != 0 {
            return Err(FrameError::ReservedBitsSet);
        }
        Ok(Self { version, schema_start, sid_mode })
    }

    pub fn encode(self) -> (r: Result<u8, FrameError>)
        ensures
            r == vft_encoding(self),
    {
        if self.version > 0b11 {
            return Err(FrameError::InvalidVersion);
        }
        let mut out: u8 = (self.version & 0b11) << 6;
        if self.schema_start {
            out = out | (1u8 << 5u8);
        }
        if self.sid_mode == SidMode::Sid32 {
            out = out | (1u8 << 4u8);
        }
        proof {
            let v = self.version;
            assert((1u8 << 5u8) == 0x20u8 && (1u8 << 4u8) == 0x10u8) by (bit_vector);
            assert(((v & 3u8) << 6u8) | 0u8 == ((v & 3u8) << 6u8)) by (bit_vector);
            assert((((v & 3u8) << 6u8) | 0u8) | 0x10u8 == ((v & 3u8) << 6u8) | 0x10u8) by (bit_vector);
            assert((((v & 3u8) << 6u8) | 0x20u8) | 0u8 == ((v & 3u8) << 6u8) | 0x20u8) by (bit_vector);
        }
        Ok(out)
    }
}

/// Decoding an encoded VFT gives back the VFT, for every version that fits in
/// two bits.
pub proof fn lemma_vft_decode_encode(v: Vft)
    requires
        v.version <= 3,
    ensures
        vft_encoding(v) == Ok::<u8, FrameError>(vft_byte(v.version, v.schema_start, v.sid_mode)),
        vft_decode(vft_byte(v.version, v.schema_start, v.sid_mode)) == Ok::<Vft, FrameError>(v),
{
    let ver = v.version;
    let s: u8 = if v.schema_start { 0x20u8 } else { 0u8 };
    let m: u8 = match v.sid_mode {
        SidMode::Sid8 => 0u8,
        SidMode::Sid32 => 0x10u8,
    };
    let b = vft_byte(v.version, v.schema_start, v.sid_mode);
    assert(b == ((ver & 3u8) << 6u8) | s | m);
    assert(ver <= 3 && (s == 0 || s == 0x20) && (m == 0 || m == 0x10) ==> {
        let b2 = ((ver & 3u8) << 6u8) | s | m;
        &&& b2 & 0x0Fu8 == 0
        &&& (b2 >> 6u8) & 3u8 == ver
        &&& ((b2 >> 5u8) & 1u8 == 1) == (s == 0x20)
        &&& ((b2 >> 4u8) & 1u8 == 1) == (m == 0x10)
    }) by (bit_vector);
}

/// Every byte that decodes encodes back to itself: the VFT byte carries
/// nothing beyond its three fields.
pub proof fn lemma_vft_encode_decode(byte: u8)
    requires
        vft_decode(byte) is Ok,
    ensures
        ({
            let v = vft_decode(byte)->Ok_0;
            &&& v.version <= 3
            &&& vft_encoding(v) == Ok::<u8, FrameError>(byte)
        }),
{
    let v = vft_decode(byte)->Ok_0;
    let s: u8 = if v.schema_start { 0x20u8 } else { 0u8 };
    let m: u8 = match v.sid_mode {
        SidMode::Sid8 => 0u8,
        SidMode::Sid32 => 0x10u8,
    };
    assert(byte & 0x0Fu8 == 0 ==> {
        &&& (byte >> 6u8) & 3u8 <= 3
        &&& (((byte >> 6u8) & 3u8) & 3u8) << 6u8 | (if (byte >> 5u8) & 1u8 == 1 { 0x20u8 } else { 0u8 })
            | (if (byte >> 4u8) & 1u8 == 1 { 0x10u8 } else { 0u8 }) == byte
    }) by (bit_vector);
}

/// The VFT byte read as numbers: a byte decodes exactly when its low four
/// (reserved) bits are clear, and then its version is the top two bits, its
/// start flag bit 5 and its SID mode bit 4.
pub proof fn lemma_vft_decode_fields(byte: u8)
    ensures
        vft_decode(byte) is Ok <==> byte % 16 == 0,
        vft_decode(byte) is Err ==> vft_decode(byte) == Err::<Vft, FrameError>(
            FrameError::ReservedBitsSet,
        ),
        vft_decode(byte) is Ok ==> ({
            let v = vft_decode(byte)->Ok_0;
            &&& v.version == byte / 64
            &&& v.schema_start == ((byte / 32) % 2 == 1)
            &&& (v.sid_mode == SidMode::Sid32) == ((byte / 16) % 2 == 1)
        }),
{
    assert((byte & 0x0Fu8 == 0) == (byte % 16 == 0)) by (bit_vector);
    assert((byte >> 6u8) & 3u8 == byte / 64) by (bit_vector);
    assert(((byte >> 5u8) & 1u8 == 1) == ((byte / 32) % 2 == 1)) by (bit_vector);
    assert(((byte >> 4u8) & 1u8 == 1) == ((byte / 16) % 2 == 1)) by (bit_vector);
}

} // verus!
