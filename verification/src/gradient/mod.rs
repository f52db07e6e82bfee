//! Fill models: the pieces of the gradient fitter that decide *which pixels* a fit sees.
use vstd::prelude::*;

pub mod bands;
pub mod budget;
pub mod carve;
pub mod debug;
pub mod evidence;
pub mod regions;
pub mod svg;

verus! {

/// The space in which a gradient interpolates between its stops.
///
/// SVG's default is `sRGB`; `linearRGB` is what physical compositing does and what the
/// `color-interpolation` property selects. The two differ visibly across a wide ramp, so
/// the space is a model parameter, not a convention.
#[derive(Debug, Clone, Copy, PartialEq, Eq, Structural)]
pub enum Interp {
    /// Interpolate in linear-light RGB, what physical compositing does.
    LinearRgb,
    /// Interpolate in gamma-encoded sRGB, SVG's default.
    Srgb,
}

/// `f` may be called on any pixel index and always answers the same for the same index.
pub open spec fn pixel_predicate<F: Fn(usize) -> bool>(f: F) -> bool {
    &&& forall|q: usize| #[trigger] f.requires((q,))
    &&& forall|q: usize, a: bool, b: bool| #[trigger] f.ensures((q,), a) && #[trigger] f.ensures((q,), b) ==> a == b
}

/// What the predicate `f` answers for `q`.
pub open spec fn answers<F: Fn(usize) -> bool>(f: F, q: usize) -> bool {
    forall|b: bool| #[trigger] f.ensures((q,), b) ==> b
}

/// Pixel `p` is strictly interior: off the picture edge, and `member` holds for all four
/// neighbours.
pub open spec fn strictly_interior<F: Fn(usize) -> bool>(w: int, h: int, member: F, p: usize) -> bool {
    let (x, y) = (p as int % w, p as int / w);
    &&& x > 0
    &&& x + 1 < w
    &&& y > 0
    &&& y + 1 < h
    &&& answers(member, (p - 1) as usize)
    &&& answers(member, (p + 1) as usize)
    &&& answers(member, (p - w) as usize)
    &&& answers(member, (p + w) as usize)
}

/// How many of the first `k` of `pixels` are strictly interior.
pub open spec fn interior_below<F: Fn(usize) -> bool>(pixels: Seq<usize>, w: int, h: int, member: F, k: int) -> nat
    decreases k,
{
    if k <= 0 {
        0
    } else {
        interior_below(pixels, w, h, member, k - 1) + if strictly_interior(
            w,
            h,
            member,
            pixels[k - 1],
        ) {
            1nat
        } else {
            0nat
        }
    }
}

pub(crate) fn ask<F: Fn(usize) -> bool>(member: &F, q: usize) -> (res: bool)
    requires
        pixel_predicate(*member),
    ensures
        res == answers(*member, q),
{
    let r = member(q);
    proof {
        assert forall|b: bool| #[trigger] member.ensures((q,), b) implies b == r by {}
    }
    r
}

/// How many of `pixels` are strictly interior (every in-image 4-neighbour satisfies
/// `member`).
///
/// The picture edge is a boundary: a pixel on it is half-covered by whatever the icon does
/// off-canvas and testifies to nothing about the fill, so it never counts as interior.
pub fn interior_count<F: Fn(usize) -> bool>(pixels: &[usize], w: usize, h: usize, member: F) -> (res: usize)
    requires
        w > 0,
        w * h <= usize::MAX,
        forall|i: int| 0 <= i < pixels@.len() ==> #[trigger] pixels@[i] < w * h,
        pixel_predicate(member),
    ensures
        res == interior_below(pixels@, w as int, h as int, member, pixels@.len() as int),
{
    let mut count: usize = 0;
    let mut i: usize = 0;
    while i < pixels.len()
        invariant
            w > 0,
            w * h <= usize::MAX,
            forall|j: int| 0 <= j < pixels@.len() ==> #[trigger] pixels@[j] < w * h,
            pixel_predicate(member),
            i <= pixels@.len(),
            count == interior_below(pixels@, w as int, h as int, member, i as int),
            count <= i,
        decreases pixels@.len() - i,
    {
        let p = pixels[i];
        let x = p % w;
        let y = p / w;
        proof {
            crate::grid::lemma_coords(w as int, h as int, p as int);
            crate::grid::lemma_step_intro(w as int, h as int, p as int);
            if y > 0 {
                crate::grid::lemma_step_sym(w as int, h as int, p as int, p - w);
            }
            if y + 1 < h {
                crate::grid::lemma_step_sym(w as int, h as int, p as int, p + w);
            }
        }
        let inside = x > 0 && x + 1 < w && y > 0 && y + 1 < h && ask(&member, p - 1) && ask(
            &member,
            p + 1,
        ) && ask(&member, p - w) && ask(&member, p + w);
        if inside {
            count += 1;
        }
        i += 1;
    }
    count
}


/// Pixel `p` may testify about a fill: `evidence` admits it and, when `strict`, it is
/// strictly interior to the region `member` describes.
pub open spec fn testifies<F: Fn(usize) -> bool, G: Fn(usize) -> bool>(
    w: int,
    h: int,
    member: F,
    evidence: G,
    strict: bool,
    p: usize,
) -> bool {
    answers(evidence, p) && (!strict || strictly_interior(w, h, member, p))
}

/// The pixels among the first `k` of `pixels` that testify, in the order they come.
pub open spec fn testifying<F: Fn(usize) -> bool, G: Fn(usize) -> bool>(
    pixels: Seq<usize>,
    w: int,
    h: int,
    member: F,
    evidence: G,
    strict: bool,
    k: int,
) -> Seq<usize>
    decreases k,
{
    if k <= 0 {
        Seq::empty()
    } else if testifies(w, h, member, evidence, strict, pixels[k - 1]) {
        testifying(pixels, w, h, member, evidence, strict, k - 1).push(pixels[k - 1])
    } else {
        testifying(pixels, w, h, member, evidence, strict, k - 1)
    }
}

/// The pixels a fill is fitted on: those of `pixels` that testify (see [`testifies`]),
/// each as often as it comes, in increasing order.
pub fn sample_pixels<F: Fn(usize) -> bool, G: Fn(usize) -> bool>(
    pixels: &[usize],
    w: usize,
    h: usize,
    member: F,
    evidence: G,
    strict: bool,
) -> (px: Vec<usize>)
    requires
        w > 0,
        w * h <= usize::MAX,
        forall|i: int| 0 <= i < pixels@.len() ==> #[trigger] pixels@[i] < w * h,
        pixel_predicate(member),
        pixel_predicate(evidence),
    ensures
        forall|i: int, j: int| 0 <= i <= j < px@.len() ==> px@[i] <= px@[j],
        px@.to_multiset() == testifying(pixels@, w as int, h as int, member, evidence, strict, pixels@.len() as int).to_multiset(),
{
    broadcast use vstd::seq_lib::group_to_multiset_ensures;

    let ghost (wi, hi) = (w as int, h as int);
    let mut out: Vec<usize> = Vec::new();
    let mut i: usize = 0;
    while i < pixels.len()
        invariant
            w > 0,
            w * h <= usize::MAX,
            wi == w,
            hi == h,
            forall|j: int| 0 <= j < pixels@.len() ==> #[trigger] pixels@[j] < w * h,
            pixel_predicate(member),
            pixel_predicate(evidence),
            i <= pixels@.len(),
            forall|a: int, b: int| 0 <= a <= b < out@.len() ==> out@[a] <= out@[b],
            out@.to_multiset() == testifying(pixels@, wi, hi, member, evidence, strict, i as int).to_multiset(),
        decreases pixels@.len() - i,
    {
        let p = pixels[i];
        let x = p % w;
        let y = p / w;
        proof {
            crate::grid::lemma_coords(wi, hi, p as int);
            if y > 0 {
                assert(p >= w) by (nonlinear_arith)
                    requires
                        p == y * w + x,
                        y >= 1,
                ;
            }
            if y + 1 < h {
                assert(p + w < w * h) by (nonlinear_arith)
                    requires
                        p == y * w + x,
                        x < w,
                        y + 1 < h,
                ;
            }
        }
        let mut keep = ask(&evidence, p);
        if keep && strict {
            keep = x > 0 && x + 1 < w && y > 0 && y + 1 < h && ask(&member, p - 1) && ask(&member, p + 1)
                && ask(&member, p - w) && ask(&member, p + w);
        }
        let ghost prev = testifying(pixels@, wi, hi, member, evidence, strict, i as int);
        proof {
            assert(keep == testifies(wi, hi, member, evidence, strict, p));
            assert(pixels@[i as int] == p);
            if keep {
                assert(testifying(pixels@, wi, hi, member, evidence, strict, i + 1) == prev.push(p));
            } else {
                assert(testifying(pixels@, wi, hi, member, evidence, strict, i + 1) == prev);
            }
        }
        if keep {
            let mut j = out.len();
            while j > 0 && out[j - 1] > p
                invariant
                    j <= out@.len(),
                    forall|k: int| j <= k < out@.len() ==> out@[k] > p,
                decreases j,
            {
                j -= 1;
            }
            let ghost before = out@;
            out.insert(j, p);
            proof {
                assert(out@ == before.insert(j as int, p));
                vstd::seq_lib::to_multiset_insert(before, j as int, p);
                vstd::seq_lib::to_multiset_build(prev, p);
                assert forall|a: int, b: int| 0 <= a <= b < out@.len() implies out@[a] <= out@[b] by {
                    if a < j && b > j {
                        assert(before[a] <= before[j - 1]);
                    } else if a < j && b == j {
                        assert(before[a] <= before[j - 1]);
                    }
                }
            }
        }
        i += 1;
    }
    out
}

} // verus!
