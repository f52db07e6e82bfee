//! Diagnostics of the gradient merger.
use vstd::prelude::*;

verus! {

/// The bounding box `[min x, min y, max x, max y]` of the pixels in `px`, folded from
/// `[usize::MAX, usize::MAX, 0, 0]`.
pub open spec fn bbox_of(px: Seq<usize>, w: int) -> (int, int, int, int)
    decreases px.len(),
{
    if px.len() == 0 {
        (usize::MAX as int, usize::MAX as int, 0, 0)
    } else {
        let b = bbox_of(px.drop_last(), w);
        let (x, y) = (px.last() as int % w, px.last() as int / w);
        (
            if x < b.0 { x } else { b.0 },
            if y < b.1 { y } else { b.1 },
            if x > b.2 { x } else { b.2 },
            if y > b.3 { y } else { b.3 },
        )
    }
}

/// Bounding box of a set of pixels in a `w`-wide raster.
pub fn bbox(px: &[usize], w: usize) -> (b: [usize; 4])
    requires
        w > 0,
    ensures
        b@[0] == bbox_of(px@, w as int).0,
        b@[1] == bbox_of(px@, w as int).1,
        b@[2] == bbox_of(px@, w as int).2,
        b@[3] == bbox_of(px@, w as int).3,
{
    let mut b: [usize; 4] = [usize::MAX, usize::MAX, 0, 0];
    let mut i: usize = 0;
    while i < px.len()
        invariant
            w > 0,
            i <= px@.len(),
            b@[0] == bbox_of(px@.subrange(0, i as int), w as int).0,
            b@[1] == bbox_of(px@.subrange(0, i as int), w as int).1,
            b@[2] == bbox_of(px@.subrange(0, i as int), w as int).2,
            b@[3] == bbox_of(px@.subrange(0, i as int), w as int).3,
        decreases px@.len() - i,
    {
        let p = px[i];
        let x = p % w;
        let y = p / w;
        proof {
            assert(px@.subrange(0, i as int + 1).drop_last() =~= px@.subrange(0, i as int));
        }
        if x < b[0] {
            b[0] = x;
        }
        if y < b[1] {
            b[1] = y;
        }
        if x > b[2] {
            b[2] = x;
        }
        if y > b[3] {
            b[3] = y;
        }
        i += 1;
    }
    proof {
        assert(px@.subrange(0, px@.len() as int) =~= px@);
    }
    b
}

} // verus!
