//! Split-extraction on byte buffers: materialize the suffix from a discovered
//! offset as its own buffer, and truncate the carrier back to the offset.

use vstd::prelude::*;
use vstd::slice::slice_subrange;
use crate::scan::{is_first_match, no_match, scan_bytes};

verus! {

/// Bounded-memory copy of the bytes of `data` from `offset` to the end.
pub fn extract_suffix(data: &[u8], offset: usize, chunk_size: usize) -> (r: Vec<u8>)
    requires
        offset <= data@.len(),
        chunk_size >= 1,
    ensures
        r@ == data@.skip(offset as int),
{
    let mut out: Vec<u8> = Vec::new();
    let mut pos: usize = offset;
    while pos < data.len()
        invariant
            offset <= pos <= data@.len(),
            chunk_size >= 1,
            out@ == data@.subrange(offset as int, pos as int),
        decreases data@.len() - pos,
    {
        let end = if data.len() - pos < chunk_size {
            data.len()
        } else {
            pos + chunk_size
        };
        let chunk = slice_subrange(data, pos, end);
        out.extend_from_slice(chunk);
        proof {
            assert(out@ =~= data@.subrange(offset as int, end as int));
        }
        pos = end;
    }
    proof {
        assert(out@ =~= data@.skip(offset as int));
    }
    out
}

/// Truncate the carrier buffer in place to exactly `offset` bytes.
pub fn truncate_carrier(data: &mut Vec<u8>, offset: usize)
    requires
        offset <= old(data)@.len(),
    ensures
        final(data)@ == old(data)@.take(offset as int),
{
    data.truncate(offset);
    proof {
        assert(data@ =~= old(data)@.take(offset as int));
    }
}

/// The conceal step on a byte buffer: append the payload container to the
/// end of the carrier, disturbing nothing that is already there.
pub fn append_payload(carrier: &mut Vec<u8>, payload: &[u8])
    ensures
        final(carrier)@ == old(carrier)@ + payload@,
{
    carrier.extend_from_slice(payload);
    proof {
        assert(carrier@ =~= old(carrier)@ + payload@);
    }
}

/// The whole split-extraction on a byte buffer: locate the first occurrence
/// of `sig`, materialize everything from there onward as the payload, then
/// truncate the carrier back to the occurrence — in that order, so the
/// carrier only shrinks once the payload is out.
///
/// Returns the absolute offset and the payload bytes, or `None`, with the
/// carrier untouched, exactly when `sig` does not occur in the buffer.
pub fn split_at_signature(data: &mut Vec<u8>, sig: &[u8], chunk_size: usize) -> (r: Option<
    (u64, Vec<u8>),
>)
    requires
        sig@.len() >= 1,
        chunk_size >= 1,
        old(data)@.len() <= u64::MAX,
    ensures
        match r {
            Some(kp) => {
                &&& is_first_match(old(data)@, sig@, kp.0 as int)
                &&& kp.1@ == old(data)@.skip(kp.0 as int)
                &&& final(data)@ == old(data)@.take(kp.0 as int)
            },
            None => {
                &&& no_match(old(data)@, sig@)
                &&& final(data)@ == old(data)@
            },
        },
{
    // Establishes that the buffer's length, and so the offset found inside
    // it, fits in usize, which justifies the cast below.
    let _data_len: usize = data.len();
    match scan_bytes(data.as_slice(), sig, chunk_size) {
        Some(k) => {
            let off = k as usize;
            let payload = extract_suffix(data.as_slice(), off, chunk_size);
            truncate_carrier(data, off);
            Some((k, payload))
        },
        None => None,
    }
}

} // verus!
