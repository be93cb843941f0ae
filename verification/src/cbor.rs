//! Length discovery for the schema stream, a CBOR definite-length byte string.

use vstd::prelude::*;
use crate::vft::FrameError;

verus! {

/// Big-endian value of two bytes.
pub open spec fn be16(b1: u8, b2: u8) -> nat {
    (b1 as nat) * 256 + (b2 as nat)
}

/// Big-endian value of four bytes.
pub open spec fn be32(b1: u8, b2: u8, b3: u8, b4: u8) -> nat {
    (b1 as nat) * 16777216 + (b2 as nat) * 65536 + (b3 as nat) * 256 + (b4 as nat)
}

/// Number of bytes of the CBOR byte-string header that starts with `first`
/// (meaningful for major type 2 with additional information at most 26).
pub open spec fn cbor_header_len(first: u8) -> nat {
    let ai = first % 32;
    if ai <= 23 {
        1
    } else if ai == 24 {
        2
    } else if ai == 25 {
        3
    } else {
        5
    }
}

/// Total length (header plus content) of the CBOR definite-length byte string
/// whose first bytes are `buf`: `Ok(None)` while the header is still incomplete,
/// an error when `buf` cannot start such a string (another major type, an
/// indefinite length or a reserved additional-information value).
pub open spec fn cbor_bstr_total(buf: Seq<u8>) -> Result<Option<nat>, FrameError> {
    if buf.len() == 0 {
        Ok(None)
    } else {
        let first = buf[0];
        let ai = first % 32;
        if first / 32 != 2 {
            Err(FrameError::InvalidCborLengthPrefix)
        } else if ai <= 23 {
            Ok(Some(1 + ai as nat))
        } else if ai == 24 {
            if buf.len() < 2 {
                Ok(None)
            } else {
                Ok(Some(2 + buf[1] as nat))
            }
        } else if ai == 25 {
            if buf.len() < 3 {
                Ok(None)
            } else {
                Ok(Some(3 + be16(buf[1], buf[2])))
            }
        } else if ai == 26 {
            if buf.len() < 5 {
                Ok(None)
            } else {
                Ok(Some(5 + be32(buf[1], buf[2], buf[3], buf[4])))
            }
        } else {
            Err(FrameError::InvalidCborLengthPrefix)
        }
    }
}

/// `cbor_bstr_total` as a machine value: a total that does not fit in `usize`
/// is reported as `SchemaTooLarge`, since no schema buffer could hold it.
pub open spec fn cbor_bstr_total_usize(buf: Seq<u8>) -> Result<Option<usize>, FrameError> {
    match cbor_bstr_total(buf) {
        Err(e) => Err(e),
        Ok(None) => Ok(None),
        Ok(Some(t)) => if t <= usize::MAX {
            Ok(Some(t as usize))
        } else {
            Err(FrameError::SchemaTooLarge)
        },
    }
}

/// Decodes only the CBOR byte-string header (at most 5 bytes) at the start of
/// `buf` and returns the total stream length it announces.
pub fn cbor_bstr_total_len(buf: &[u8]) -> (r: Result<Option<usize>, FrameError>)
    ensures
        r == cbor_bstr_total_usize(buf@),
{
    if buf.len() == 0 {
        return Ok(None);
    }
    let first = buf[0];
    let major = first >> 5;
    let ai = first & 0x1F;
    assert(major == first / 32 && ai == first % 32) by (bit_vector)
        requires
            major == first >> 5u8,
            ai == first & 0x1Fu8,
    ;
    if major != 2 {
        return Err(FrameError::InvalidCborLengthPrefix);
    }
    if ai <= 23 {
        Ok(Some(1 + ai as usize))
    } else if ai == 24 {
        if buf.len() < 2 {
            return Ok(None);
        }
        Ok(Some(2 + buf[1] as usize))
    } else if ai == 25 {
        if buf.len() < 3 {
            return Ok(None);
        }
        let n = (buf[1] as usize) * 256 + (buf[2] as usize);
        Ok(Some(3 + n))
    } else if ai == 26 {
        if buf.len() < 5 {
            return Ok(None);
        }
        let n: u64 = (buf[1] as u64) * 16777216 + (buf[2] as u64) * 65536 + (buf[3] as u64) * 256
            + (buf[4] as u64);
        let total: u64 = 5 + n;
        if total > usize::MAX as u64 {
            return Err(FrameError::SchemaTooLarge);
        }
        Ok(Some(total as usize))
    } else {
        Err(FrameError::InvalidCborLengthPrefix)
    }
}

/// Once the header is complete, further bytes do not change the announced
/// length; a refused prefix stays refused whatever follows it.
pub proof fn lemma_cbor_total_prefix_stable(prefix: Seq<u8>, rest: Seq<u8>)
    requires
        cbor_bstr_total(prefix) != Ok::<Option<nat>, FrameError>(None),
    ensures
        cbor_bstr_total(prefix + rest) == cbor_bstr_total(prefix),
{
    let b = prefix + rest;
    assert(b[0] == prefix[0]);
    if prefix.len() >= 2 {
        assert(b[1] == prefix[1]);
    }
    if prefix.len() >= 3 {
        assert(b[2] == prefix[2]);
    }
    if prefix.len() >= 5 {
        assert(b[3] == prefix[3]);
        assert(b[4] == prefix[4]);
    }
}

/// The header is complete exactly when `cbor_header_len` bytes are present,
/// and the announced total always covers the header.
pub proof fn lemma_cbor_total_header(buf: Seq<u8>)
    requires
        buf.len() > 0,
        cbor_bstr_total(buf) is Ok,
    ensures
        cbor_bstr_total(buf) is Ok && cbor_bstr_total(buf)->Ok_0 is None <==> buf.len()
            < cbor_header_len(buf[0]),
        cbor_bstr_total(buf) matches Ok(Some(t)) ==> t >= cbor_header_len(buf[0]),
{
}

/// Every prefix of bytes that start a byte string announcing `total` is
/// still incomplete before the header's end, and announces `total` from there
/// on.
pub proof fn lemma_cbor_prefixes(stream: Seq<u8>, total: nat, k: int)
    requires
        cbor_bstr_total(stream) == Ok::<Option<nat>, FrameError>(Some(total)),
        0 <= k <= stream.len(),
    ensures
        stream.len() >= 1,
        cbor_header_len(stream[0]) <= stream.len(),
        k < cbor_header_len(stream[0]) ==> cbor_bstr_total(stream.take(k)) == Ok::<
            Option<nat>,
            FrameError,
        >(None),
        k >= cbor_header_len(stream[0]) ==> cbor_bstr_total(stream.take(k)) == Ok::<
            Option<nat>,
            FrameError,
        >(Some(total)),
{
    lemma_cbor_total_header(stream);
    let p = stream.take(k);
    if k >= 1 {
        assert(p[0] == stream[0]);
        if k >= 2 {
            assert(p[1] == stream[1]);
        }
        if k >= 3 {
            assert(p[2] == stream[2]);
        }
        if k >= 5 {
            assert(p[3] == stream[3]);
            assert(p[4] == stream[4]);
        }
    }
}

/// Every prefix of a complete byte-string stream announces the stream's
/// length as soon as it holds the whole header, and nothing before.
pub proof fn lemma_cbor_stream_prefix(stream: Seq<u8>, k: int)
    requires
        cbor_bstr_total(stream) == Ok::<Option<nat>, FrameError>(Some(stream.len())),
        0 <= k <= stream.len(),
    ensures
        stream.len() >= 1,
        cbor_header_len(stream[0]) <= stream.len(),
        k < cbor_header_len(stream[0]) ==> cbor_bstr_total(stream.take(k)) == Ok::<
            Option<nat>,
            FrameError,
        >(None),
        k >= cbor_header_len(stream[0]) ==> cbor_bstr_total(stream.take(k)) == Ok::<
            Option<nat>,
            FrameError,
        >(Some(stream.len())),
{
    lemma_cbor_prefixes(stream, stream.len(), k);
}

} // verus!
