//! SVG attributes of fill models.
use vstd::prelude::*;

use super::Interp;

verus! {

/// The SVG attribute that selects a gradient's interpolation space: nothing for sRGB,
/// SVG's default, and `color-interpolation="linearRGB"` for linear light.
pub fn interp_attr(interp: Interp) -> (res: &'static str)
    ensures
        interp == Interp::Srgb ==> res@ == ""@,
        interp == Interp::LinearRgb ==> res@ == " color-interpolation=\"linearRGB\""@,
{
    match interp {
        Interp::Srgb => "",
        Interp::LinearRgb => " color-interpolation=\"linearRGB\"",
    }
}

} // verus!
