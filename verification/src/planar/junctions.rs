//! Junction refinement parameters for the planar map, and where its nodes lie.
use vstd::prelude::*;

verus! {

/// Grid corner `(i, j)` of a node id.
///
/// A corner the map split (see [`super::dual::split_corners`]) has two ids one whole grid
/// apart, and both stand for that same corner, so the id is folded back into the grid
/// before it is read.
pub fn node_corner(id: u32, w: usize, h: usize) -> (res: (usize, usize))
    requires
        (w + 1) * (h + 1) <= usize::MAX,
    ensures
        res.0 == (id as int % ((w + 1) * (h + 1))) % (w + 1),
        res.1 == (id as int % ((w + 1) * (h + 1))) / (w + 1),
{
    proof {
        assert(w + 1 <= (w + 1) * (h + 1) && h + 1 <= (w + 1) * (h + 1)) by (nonlinear_arith)
            requires
                w >= 0,
                h >= 0,
        ;
    }
    let plane = (w + 1) * (h + 1);
    let id = (id as usize) % plane;
    (id % (w + 1), id / (w + 1))
}

/// Number of refined interior points, nearest the junction, used to estimate each incident
/// edge's end tangent.
pub fn junction_fit_points() -> (res: usize)
    ensures
        res == 6,
{
    6
}

/// Interior points this close to the junction (in index terms) are skipped: the pixel
/// containing the junction is a three-way mixture, and the two-colour unmixing that placed
/// those points does not know it.
pub fn junction_skip() -> (res: usize)
    ensures
        res == 1,
{
    1
}

/// Interior points, nearest the junction, whose curvature decides whether the boundaries
/// meet tangentially.
pub fn junction_curvature_points() -> (res: usize)
    ensures
        res == 16,
{
    16
}

} // verus!
