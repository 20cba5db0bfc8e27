//! Validation of index-aligned input arrays.
//!
//! The intensity computation and the peak merger take several arrays
//! that must be aligned index by index.  A mismatch is a caller error to
//! be reported at the boundary, before any computation begins; this
//! check decides it.

use vstd::prelude::*;

verus! {

/// Whether all the given lengths agree, so that arrays of those lengths
/// are index-aligned.
pub fn all_equal(lens: &Vec<usize>) -> (r: bool)
    ensures
        r == forall|i: int, j: int|
            0 <= i < lens@.len() && 0 <= j < lens@.len() ==> #[trigger] lens@[i]
                == #[trigger] lens@[j],
{
    if lens.len() == 0 {
        return true;
    }
    let first = lens[0];
    let mut i: usize = 1;
    while i < lens.len()
        invariant
            lens@.len() > 0,
            first == lens@[0],
            1 <= i <= lens@.len(),
            forall|k: int| 0 <= k < i ==> lens@[k] == first,
        decreases lens@.len() - i,
    {
        if lens[i] != first {
            return false;
        }
        i = i + 1;
    }
    true
}

} // verus!
