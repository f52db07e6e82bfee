//! The sampling caps every fill fit shares.
use vstd::prelude::*;

verus! {

/// Most samples one fit evaluates.
pub const MAX_FIT_SAMPLES: usize = 4096;

/// Pixels one fit gathers before it is sampled down to [`MAX_FIT_SAMPLES`].
pub const FIT_PIXELS_CAP: usize = 65536;

/// Samples the centre search of a radial fit evaluates.
pub const CENTRE_SEARCH_SAMPLES: usize = 1024;

/// Most samples one fit evaluates; a larger region is strided down to it.
pub fn fit_cap() -> (res: usize)
    ensures
        res == MAX_FIT_SAMPLES,
{
    MAX_FIT_SAMPLES
}

} // verus!
