//! Polygon smoothing helpers for fast mode.
use vstd::prelude::*;

verus! {

/// Midpoint index between two polygon indices, walking forwards round a ring of `n`:
/// half the forward span from `lo` to `hi`, rounded down, past `lo`.
pub fn mid_index(lo: usize, hi: usize, n: usize) -> (res: usize)
    requires
        n > 0,
        lo <= hi + n,
        hi + n <= usize::MAX,
        lo + n <= usize::MAX,
    ensures
        res == (lo + ((hi + n - lo) % (n as int)) / 2) % (n as int),
{
    let span = (hi + n - lo) % n;
    (lo + span / 2) % n
}

} // verus!
