//! The fixed signature that marks the start of the embedded payload
//! container: the conventional start-of-local-file-header marker of the
//! archive format used as the payload representation.

use vstd::prelude::*;
use crate::scan::no_self_overlap;

verus! {

/// The four signature bytes.
pub open spec fn zip_signature() -> Seq<u8> {
    seq![0x50u8, 0x4bu8, 0x03u8, 0x04u8]
}

/// The signature as an executable byte vector.
pub fn zip_signature_bytes() -> (r: Vec<u8>)
    ensures
        r@ == zip_signature(),
        r@.len() == 4,
{
    let mut v: Vec<u8> = Vec::new();
    v.push(0x50);
    v.push(0x4b);
    v.push(0x03);
    v.push(0x04);
    proof {
        assert(v@ =~= zip_signature());
    }
    v
}

/// The signature cannot overlap itself: every shifted copy disagrees with it
/// already in the first byte, since no later byte equals the first one. So no
/// occurrence can straddle the seam between a carrier free of the signature
/// and a payload that begins with it.
pub proof fn lemma_zip_signature_no_self_overlap()
    ensures
        no_self_overlap(zip_signature()),
{
    let m = zip_signature();
    assert forall|t: int| 1 <= t < m.len() implies m.skip(t) != m.take(m.len() - t) by {
        if m.skip(t) == m.take(m.len() - t) {
            assert(m.skip(t)[0] == m.take(m.len() - t)[0]);
            assert(m[t] == m[0]);
            assert(false);
        }
    }
}

} // verus!
