//! Clamping a time or observation index into the range of a finite sequence.

use vstd::prelude::*;

verus! {

/// The index `i` clamped into `0..len`: `min(i, len - 1)`.
///
/// Used wherever a stopping time or an observation symbol may run past the
/// end of what was recorded, and the last recorded position stands in for it.
pub fn clamp_index(i: usize, len: usize) -> (r: usize)
    requires
        len > 0,
    ensures
        r < len,
        i < len ==> r == i,
        i >= len ==> r == len - 1,
{
    if i < len - 1 {
        i
    } else {
        len - 1
    }
}

} // verus!
