//! Schema identity: the CRC-32/IEEE of the schema stream, computed by `crc_any`.

use vstd::prelude::*;
use crate::vft::Sid;
use crc_any::CRCu32;

verus! {

/// One step of the reflected CRC-32 shift register: shift right by one bit,
/// and xor in the reflected polynomial (0x04C11DB7 reflected is 0xEDB88320)
/// when the bit shifted out was set.
pub open spec fn crc32_shift(c: u32) -> u32 {
    if c & 1u32 == 1u32 {
        (c >> 1u32) ^ 0xEDB8_8320u32
    } else {
        c >> 1u32
    }
}

/// The register after one input byte (reflected input): the byte is xored into
/// the low bits, then the register shifts eight times.
pub open spec fn crc32_byte(c: u32, b: u8) -> u32 {
    crc32_shift(
        crc32_shift(
            crc32_shift(
                crc32_shift(crc32_shift(crc32_shift(crc32_shift(crc32_shift(c ^ (b as u32)))))),
            ),
        ),
    )
}

/// The register after `data`, starting from the initial value 0xFFFFFFFF.
pub open spec fn crc32_register(data: Seq<u8>) -> u32
    decreases data.len(),
{
    if data.len() == 0 {
        0xFFFF_FFFFu32
    } else {
        crc32_byte(crc32_register(data.drop_last()), data.last())
    }
}

/// CRC-32/IEEE of `data`: poly 0x04C11DB7, init 0xFFFFFFFF, reflected input
/// and output, final xor 0xFFFFFFFF. Opaque: proofs that only pass CRC values
/// around do not unfold it; `reveal(crc32_ieee_of)` gives the definition.
#[verifier::opaque]
pub open spec fn crc32_ieee_of(data: Seq<u8>) -> u32 {
    crc32_register(data) ^ 0xFFFF_FFFFu32
}

/// The CRC-32/IEEE check value: the CRC of the ASCII bytes "123456789" is
/// 0xCBF43926.
pub proof fn lemma_crc32_check_value()
    ensures
        crc32_ieee_of(seq![0x31u8, 0x32, 0x33, 0x34, 0x35, 0x36, 0x37, 0x38, 0x39]) == 0xCBF4_3926u32,
{
    reveal(crc32_ieee_of);
    let d: Seq<u8> = seq![0x31u8, 0x32, 0x33, 0x34, 0x35, 0x36, 0x37, 0x38, 0x39];
    assert(crc32_byte(0xFFFF_FFFFu32, 0x31u8) == 0x7c23_1048u32) by (bit_vector);
    assert(crc32_byte(0x7c23_1048u32, 0x32u8) == 0xb0ac_bb32u32) by (bit_vector);
    assert(crc32_byte(0xb0ac_bb32u32, 0x33u8) == 0x77b7_9c2du32) by (bit_vector);
    assert(crc32_byte(0x77b7_9c2du32, 0x34u8) == 0x641c_1f5cu32) by (bit_vector);
    assert(crc32_byte(0x641c_1f5cu32, 0x35u8) == 0x340a_c5e3u32) by (bit_vector);
    assert(crc32_byte(0x340a_c5e3u32, 0x36u8) == 0xf68d_2c9eu32) by (bit_vector);
    assert(crc32_byte(0xf68d_2c9eu32, 0x37u8) == 0xaffc_9660u32) by (bit_vector);
    assert(crc32_byte(0xaffc_9660u32, 0x38u8) == 0x651f_2550u32) by (bit_vector);
    assert(crc32_byte(0x651f_2550u32, 0x39u8) == 0x340b_c6d9u32) by (bit_vector);
    assert(0x340b_c6d9u32 ^ 0xFFFF_FFFFu32 == 0xCBF4_3926u32) by (bit_vector);
    assert(crc32_register(d.take(0)) == 0xFFFF_FFFFu32);
    assert(d.take(1).drop_last() =~= d.take(0));
    assert(crc32_register(d.take(1)) == 0x7c23_1048u32);
    assert(d.take(2).drop_last() =~= d.take(1));
    assert(crc32_register(d.take(2)) == 0xb0ac_bb32u32);
    assert(d.take(3).drop_last() =~= d.take(2));
    assert(crc32_register(d.take(3)) == 0x77b7_9c2du32);
    assert(d.take(4).drop_last() =~= d.take(3));
    assert(crc32_register(d.take(4)) == 0x641c_1f5cu32);
    assert(d.take(5).drop_last() =~= d.take(4));
    assert(crc32_register(d.take(5)) == 0x340a_c5e3u32);
    assert(d.take(6).drop_last() =~= d.take(5));
    assert(crc32_register(d.take(6)) == 0xf68d_2c9eu32);
    assert(d.take(7).drop_last() =~= d.take(6));
    assert(crc32_register(d.take(7)) == 0xaffc_9660u32);
    assert(d.take(8).drop_last() =~= d.take(7));
    assert(crc32_register(d.take(8)) == 0x651f_2550u32);
    assert(d.take(9).drop_last() =~= d.take(8));
    assert(d.take(9) =~= d);
    assert(crc32_register(d) == 0x340b_c6d9u32);
}

/// Calls `crc_any`: `CRCu32::crc32()`, then `digest(data)`, then `get_crc()`.
/// Trusted: the result is the CRC-32/IEEE of the bytes handed over, as
/// `crc32_ieee_of` defines it (the parameters and check value that `crc_any`
/// documents for `CRCu32::crc32`). The crate computes it byte by byte from a
/// static table of the reflected polynomial, and none of the three calls panics.
#[verifier::external_body]
fn crc_any_crc32(data: &[u8]) -> (r: u32)
    ensures
        r == crc32_ieee_of(data@),
{
    let mut crc = CRCu32::crc32();
    crc.digest(data);
    crc.get_crc()
}

/// CRC-32/IEEE of `data`:
/// poly=0x04C11DB7, init=0xFFFFFFFF, refin=true, refout=true, xorout=0xFFFFFFFF
/// (check value: see `lemma_crc32_check_value`).
pub fn crc32_ieee(data: &[u8]) -> (r: u32)
    ensures
        r == crc32_ieee_of(data@),
{
    crc_any_crc32(data)
}

/// Whether a schema whose CRC-32 is `crc` has the identity `sid`: a `sid32`
/// must equal the full CRC, a `sid8` its low 8 bits.
pub open spec fn sid_accepts_crc(sid: Sid, crc: u32) -> bool {
    match sid {
        Sid::Sid32(expected) => crc == expected,
        Sid::Sid8(expected) => crc % 256 == expected as u32,
    }
}

/// Decides `sid_accepts_crc` for a computed CRC.
pub fn sid_matches_crc(sid: Sid, crc: u32) -> (r: bool)
    ensures
        r == sid_accepts_crc(sid, crc),
{
    match sid {
        Sid::Sid32(expected) => crc == expected,
        Sid::Sid8(expected) => {
            let got = (crc & 0xFF) as u8;
            assert(got == crc % 256) by (bit_vector)
                requires
                    got == (crc & 0xFFu32) as u8,
            ;
            got == expected
        },
    }
}

/// Decides whether `schema` has the identity `sid`.
pub fn schema_matches_sid(schema: &[u8], sid: Sid) -> (r: bool)
    ensures
        r == sid_accepts_crc(sid, crc32_ieee_of(schema@)),
{
    let crc = crc_any_crc32(schema);
    sid_matches_crc(sid, crc)
}

} // verus!
