//! Residual features: recover what palette extraction quantised away.
//!
//! The palette sees colours, not features: a two-pixel white seam through a black shape,
//! a pair of dots, the end of a thin stroke all quantise to the ink around them and are
//! labelled as part of it. The pixels a region's fill cannot explain are marked (a
//! floating-point test against the fill), and each 4-connected cluster of marked pixels of
//! one label, large enough, becomes a region of its own.
use vstd::prelude::*;

use crate::components::label_components;
use crate::grid::{
    component_count, component_id, lemma_component_id, lemma_component_onto,
    lemma_connected_label, lemma_coords, lemma_firsts_bound, lemma_index,
};
use crate::regions::{comp_matches, comp_size, comp_sizes};

verus! {

/// Most features carved from one image, a guard against a textured region shattering.
pub const CARVE_MAX: usize = 64;

/// Pixel `p` has all four neighbours inside the raster, each with its label.
pub open spec fn strictly_interior(labels: Seq<u16>, w: int, h: int, p: int) -> bool {
    let (x, y) = (p % w, p / w);
    &&& 0 < x && x + 1 < w && 0 < y && y + 1 < h
    &&& labels[p - 1] == labels[p] && labels[p + 1] == labels[p]
    &&& labels[p - w] == labels[p] && labels[p + w] == labels[p]
}

/// Whether pixel `p` has all four neighbours inside the raster, each with its label.
fn strictly_interior_at(labels: &[u16], w: usize, h: usize, p: usize) -> (res: bool)
    requires
        w * h <= labels@.len(),
        p < w * h,
    ensures
        res == strictly_interior(labels@, w as int, h as int, p as int),
{
    proof {
        lemma_coords(w as int, h as int, p as int);
    }
    let x = p % w;
    let y = p / w;
    if x == 0 || x + 1 >= w || y == 0 || y + 1 >= h {
        return false;
    }
    proof {
        assert(p + w < w * h) by (nonlinear_arith)
            requires
                p == y * w + x,
                y + 1 < h,
                x < w,
        ;
        assert(p >= w) by (nonlinear_arith)
            requires
                p == y * w + x,
                y >= 1,
                x >= 0,
        ;
    }
    let l = labels[p];
    labels[p - 1] == l && labels[p + 1] == l && labels[p - w] == l && labels[p + w] == l
}

/// The 7x7 window centred on pixel `p` lies inside the raster and is all one label.
pub open spec fn deep_inside(labels: Seq<u16>, w: int, h: int, p: int) -> bool {
    let (x, y) = (p % w, p / w);
    &&& 3 <= x && x + 3 < w && 3 <= y && y + 3 < h
    &&& forall|q: int|
        0 <= q < w * h && x - 3 <= q % w <= x + 3 && y - 3 <= q / w <= y + 3 ==> #[trigger] labels[q]
            == labels[p]
}

/// Whether the 7x7 window centred on pixel `p` lies inside the raster and is all one label.
fn deep_inside_at(labels: &[u16], w: usize, h: usize, p: usize) -> (res: bool)
    requires
        w * h <= labels@.len(),
        p < w * h,
    ensures
        res == deep_inside(labels@, w as int, h as int, p as int),
{
    let ghost (lab, wi, hi) = (labels@, w as int, h as int);
    proof {
        lemma_coords(wi, hi, p as int);
    }
    let x = p % w;
    let y = p / w;
    if x < 3 || w - x <= 3 || y < 3 || h - y <= 3 {
        return false;
    }
    let l = labels[p];
    proof {
        assert(labels@.len() == labels.len());
    }
    let mut yy: usize = y - 3;
    while yy <= y + 3
        invariant
            lab == labels@,
            wi == w,
            hi == h,
            w * h <= lab.len(),
            w * h <= usize::MAX,
            x == p as int % wi,
            y == p as int / wi,
            3 <= x && x + 3 < w && 3 <= y && y + 3 < h,
            l == lab[p as int],
            y - 3 <= yy <= y + 4,
            forall|q: int|
                0 <= q < wi * hi && x - 3 <= q % wi <= x + 3 && y - 3 <= q / wi < yy ==> #[trigger] lab[q] == l,
        decreases y + 4 - yy,
    {
        let mut xx: usize = x - 3;
        while xx <= x + 3
            invariant
                lab == labels@,
                wi == w,
                hi == h,
                w * h <= lab.len(),
                w * h <= usize::MAX,
                x == p as int % wi,
                y == p as int / wi,
                3 <= x && x + 3 < w && 3 <= y && y + 3 < h,
                l == lab[p as int],
                y - 3 <= yy <= y + 3,
                x - 3 <= xx <= x + 4,
                forall|q: int|
                    0 <= q < wi * hi && x - 3 <= q % wi <= x + 3 && y - 3 <= q / wi < yy ==> #[trigger] lab[q] == l,
                forall|q: int|
                    0 <= q < wi * hi && x - 3 <= q % wi < xx && q / wi == yy ==> #[trigger] lab[q] == l,
            decreases x + 4 - xx,
        {
            proof {
                lemma_index(wi, hi, xx as int, yy as int);
            }
            if labels[yy * w + xx] != l {
                proof {
                    let q = yy * w + xx;
                    assert(lab[q] != l);
                }
                return false;
            }
            proof {
                assert forall|q: int|
                    0 <= q < wi * hi && x - 3 <= q % wi < xx + 1 && q / wi == yy implies #[trigger] lab[q] == l by {
                    if q % wi == xx {
                        lemma_coords(wi, hi, q);
                        assert(q == yy * w + xx);
                    }
                }
            }
            xx += 1;
        }
        yy += 1;
    }
    true
}

/// Pure, strictly interior pixels of label `l` below index `upto`: the samples a region's
/// own flat colour is read from.
pub open spec fn samples_below(labels: Seq<u16>, pure: Seq<bool>, w: int, h: int, l: int, upto: int) -> nat
    decreases upto,
{
    if upto <= 0 {
        0
    } else {
        samples_below(labels, pure, w, h, l, upto - 1) + if labels[upto - 1] == l && pure[upto - 1]
            && strictly_interior(labels, w, h, upto - 1) {
            1nat
        } else {
            0nat
        }
    }
}

/// Region `l` has a colour of its own: at least eight samples to take a median of.
pub open spec fn own_colour(labels: Seq<u16>, pure: Seq<bool>, w: int, h: int, l: int) -> bool {
    samples_below(labels, pure, w, h, l, w * h) >= 8
}

/// Pixel `p` is marked as a residual feature: a pure, strictly interior pixel of a region
/// below `n_fills` with a colour of its own, which its region's fill does not explain.
/// Whether the fill explains it is `over_base[p]`, or, deep inside a region and where a
/// separate interior test is given, `over_detail[p]`.
pub open spec fn marked(
    labels: Seq<u16>,
    pure: Seq<bool>,
    over_base: Seq<bool>,
    over_detail: Option<Seq<bool>>,
    w: int,
    h: int,
    n_fills: int,
    p: int,
) -> bool {
    let l = labels[p] as int;
    &&& l < n_fills
    &&& own_colour(labels, pure, w, h, l)
    &&& strictly_interior(labels, w, h, p)
    &&& pure[p]
    &&& match over_detail {
        Some(d) => if deep_inside(labels, w, h, p) {
            d[p]
        } else {
            over_base[p]
        },
        None => over_base[p],
    }
}

/// The view of an optional slice.
pub open spec fn opt_view(o: Option<&[bool]>) -> Option<Seq<bool>> {
    match o {
        Some(d) => Some(d@),
        None => None,
    }
}

/// Mark the pixels whose region's fill does not explain them (see [`marked`]).
///
/// `pure[p]` says pixel `p` is within the noise of its own ink and of no blend with a
/// neighbour's; `over_base[p]` that its residual against its region's fill exceeds the
/// threshold; `over_detail`, when given, the same against the threshold used deep inside a
/// region, where compression noise along boundaries must not hide details.
pub fn carve_mask(
    labels: &[u16],
    w: usize,
    h: usize,
    n_fills: usize,
    pure: &[bool],
    over_base: &[bool],
    over_detail: Option<&[bool]>,
) -> (mask: Vec<bool>)
    requires
        w * h <= labels@.len(),
        w * h <= pure@.len(),
        w * h <= over_base@.len(),
        over_detail matches Some(d) ==> w * h <= d@.len(),
    ensures
        mask@.len() == w * h,
        forall|p: int|
            0 <= p < w * h ==> #[trigger] mask@[p] == marked(
                labels@,
                pure@,
                over_base@,
                opt_view(over_detail),
                w as int,
                h as int,
                n_fills as int,
                p,
            ),
{
    let ghost (lab, wi, hi) = (labels@, w as int, h as int);
    proof {
        assert(labels@.len() == labels.len());
    }
    let n = w * h;
    let mut counts: Vec<usize> = Vec::new();
    let mut l: usize = 0;
    while l < n_fills
        invariant
            counts@.len() == l,
            l <= n_fills,
            forall|k: int| 0 <= k < l ==> #[trigger] counts@[k] == 0,
        decreases n_fills - l,
    {
        counts.push(0);
        l += 1;
    }
    let mut p: usize = 0;
    while p < n
        invariant
            lab == labels@,
            wi == w,
            hi == h,
            n == w * h,
            n <= lab.len(),
            n <= pure@.len(),
            counts@.len() == n_fills,
            p <= n,
            forall|k: int| 0 <= k < n_fills ==> #[trigger] counts@[k] == samples_below(lab, pure@, wi, hi, k, p as int),
            forall|k: int| 0 <= k < n_fills ==> #[trigger] counts@[k] <= p,
        decreases n - p,
    {
        let l = labels[p] as usize;
        if l < n_fills && pure[p] && strictly_interior_at(labels, w, h, p) {
            let v = counts[l];
            counts.set(l, v + 1);
        }
        p += 1;
    }
    let mut mask: Vec<bool> = Vec::new();
    let mut p: usize = 0;
    while p < n
        invariant
            lab == labels@,
            wi == w,
            hi == h,
            n == w * h,
            n <= lab.len(),
            n <= pure@.len(),
            n <= over_base@.len(),
            over_detail matches Some(d) ==> n <= d@.len(),
            counts@.len() == n_fills,
            forall|k: int| 0 <= k < n_fills ==> #[trigger] counts@[k] == samples_below(lab, pure@, wi, hi, k, n as int),
            p <= n,
            mask@.len() == p,
            forall|q: int|
                0 <= q < p ==> #[trigger] mask@[q] == marked(
                    lab,
                    pure@,
                    over_base@,
                    opt_view(over_detail),
                    wi,
                    hi,
                    n_fills as int,
                    q,
                ),
        decreases n - p,
    {
        let l = labels[p] as usize;
        let mut m = l < n_fills && pure[p] && strictly_interior_at(labels, w, h, p);
        if m {
            m = counts[l] >= 8;
        }
        if m {
            m = match over_detail {
                Some(d) => if deep_inside_at(labels, w, h, p) {
                    d[p]
                } else {
                    over_base[p]
                },
                None => over_base[p],
            };
        }
        mask.push(m);
        p += 1;
    }
    mask
}

/// The key pixels are clustered by: a marked pixel's label, and `u16::MAX` for every
/// other pixel.
pub open spec fn mask_key(labels: Seq<u16>, mask: Seq<bool>, n: int) -> Seq<u16> {
    Seq::new(
        n as nat,
        |p: int|
            if mask[p] {
                labels[p]
            } else {
                u16::MAX
            },
    )
}

/// Component `c` of `key` is a feature: marked pixels of one label, at least `min` of them.
pub open spec fn is_feature(key: Seq<u16>, w: int, h: int, min: int, c: int) -> bool {
    &&& comp_size(key, w, h, c) >= min
    &&& exists|p: int| 0 <= p < w * h && #[trigger] component_id(key, w, h, p) == c && key[p] != u16::MAX
}

/// How many of the components numbered below `c` are features.
pub open spec fn features_below(key: Seq<u16>, w: int, h: int, min: int, c: int) -> nat
    decreases c,
{
    if c <= 0 {
        0
    } else {
        features_below(key, w, h, min, c - 1) + if is_feature(key, w, h, min, c - 1) {
            1nat
        } else {
            0nat
        }
    }
}

proof fn lemma_features_mono(key: Seq<u16>, w: int, h: int, min: int, a: int, b: int)
    requires
        a <= b,
    ensures
        features_below(key, w, h, min, a) <= features_below(key, w, h, min, b),
    decreases b - a,
{
    if a < b {
        lemma_features_mono(key, w, h, min, a, b - 1);
    }
}

/// How many features can get a label of their own: at most [`CARVE_MAX`], with labels
/// counted up from `n_fills` and kept below `u16::MAX`.
pub open spec fn carve_limit(n_fills: int) -> int {
    if n_fills >= u16::MAX {
        0
    } else if u16::MAX - n_fills < CARVE_MAX {
        u16::MAX - n_fills
    } else {
        CARVE_MAX as int
    }
}

/// The smallest cluster carved: `min_size` pixels, and never fewer than four.
pub open spec fn min_cluster(min_size: int) -> int {
    if min_size < 4 {
        4
    } else {
        min_size
    }
}

/// Component `c` of `key` is carved: a feature, and one of the first [`carve_limit`].
pub open spec fn is_carved(key: Seq<u16>, w: int, h: int, min: int, n_fills: int, c: int) -> bool {
    is_feature(key, w, h, min, c) && features_below(key, w, h, min, c) < carve_limit(n_fills)
}

/// The label pixel `p` ends with: the pixels of a carved cluster take label `n_fills` plus
/// the number of features before it, and every other pixel keeps its label.
pub open spec fn carved_label(
    labels: Seq<u16>,
    mask: Seq<bool>,
    w: int,
    h: int,
    n_fills: int,
    min_size: int,
    p: int,
) -> u16 {
    let key = mask_key(labels, mask, w * h);
    let m = min_cluster(min_size);
    let c = component_id(key, w, h, p);
    if is_carved(key, w, h, m, n_fills, c) {
        (n_fills + features_below(key, w, h, m, c)) as u16
    } else {
        labels[p]
    }
}

/// Carving moves only marked pixels, only pixels of a cluster of at least `min_size` and at
/// least four pixels, and only onto labels from `n_fills` up; two pixels moved onto one
/// label were one cluster, and had one label before.
pub proof fn lemma_carving_moves_only_marked(
    labels: Seq<u16>,
    mask: Seq<bool>,
    w: int,
    h: int,
    n_fills: int,
    min_size: int,
    p: int,
    q: int,
)
    requires
        0 <= p < w * h,
        0 <= q < w * h,
        0 <= n_fills,
    ensures
        carved_label(labels, mask, w, h, n_fills, min_size, p) != labels[p] ==> mask[p]
            && carved_label(labels, mask, w, h, n_fills, min_size, p) >= n_fills
            && carved_label(labels, mask, w, h, n_fills, min_size, p) < n_fills + CARVE_MAX
            && carved_label(labels, mask, w, h, n_fills, min_size, p) < u16::MAX,
        carved_label(labels, mask, w, h, n_fills, min_size, p) != labels[p] ==> ({
            let key = mask_key(labels, mask, w * h);
            let size = comp_size(key, w, h, component_id(key, w, h, p));
            size >= min_size && size >= 4
        }),
        ({
            let key = mask_key(labels, mask, w * h);
            let m = min_cluster(min_size);
            is_carved(key, w, h, m, n_fills, component_id(key, w, h, p)) && is_carved(
                key,
                w,
                h,
                m,
                n_fills,
                component_id(key, w, h, q),
            ) && carved_label(labels, mask, w, h, n_fills, min_size, p) == carved_label(
                labels,
                mask,
                w,
                h,
                n_fills,
                min_size,
                q,
            ) ==> component_id(key, w, h, p) == component_id(key, w, h, q) && labels[p] == labels[q]
        }),
{
    let key = mask_key(labels, mask, w * h);
    let m = min_cluster(min_size);
    let cp = component_id(key, w, h, p);
    let cq = component_id(key, w, h, q);
    if is_carved(key, w, h, m, n_fills, cp) {
        let r = choose|r: int| 0 <= r < w * h && #[trigger] component_id(key, w, h, r) == cp && key[r] != u16::MAX;
        lemma_component_id(key, w, h, p, r);
        lemma_connected_label(key, w, h, p, r);
        if is_carved(key, w, h, m, n_fills, cq) && carved_label(labels, mask, w, h, n_fills, min_size, p)
            == carved_label(labels, mask, w, h, n_fills, min_size, q) {
            // Two carved clusters get two labels.
            if cp < cq {
                lemma_features_strict(key, w, h, m, cp, cq);
            } else if cq < cp {
                lemma_features_strict(key, w, h, m, cq, cp);
            }
            lemma_component_id(key, w, h, p, q);
            lemma_connected_label(key, w, h, p, q);
            let r2 = choose|r2: int| 0 <= r2 < w * h && #[trigger] component_id(key, w, h, r2) == cq && key[r2] != u16::MAX;
            lemma_component_id(key, w, h, q, r2);
            lemma_connected_label(key, w, h, q, r2);
        }
    }
}

/// A feature counts one more feature after it than before it.
proof fn lemma_features_strict(key: Seq<u16>, w: int, h: int, min: int, c1: int, c2: int)
    requires
        0 <= c1 < c2,
        is_feature(key, w, h, min, c1),
    ensures
        features_below(key, w, h, min, c1) < features_below(key, w, h, min, c2),
{
    lemma_features_mono(key, w, h, min, c1 + 1, c2);
}

/// Give each 4-connected cluster of marked pixels of one label its own label.
///
/// Clusters are taken in the order their first pixels appear in scan order; one of fewer
/// than `min_size` pixels (or fewer than four) is left alone. The clusters carved take
/// labels `n_fills`, `n_fills + 1`, ... in turn, at most [`CARVE_MAX`] of them and none at
/// or above `u16::MAX`. Returns the label each carved cluster was cut from, in order:
/// their number is the number of regions minted.
pub fn carve_clusters(
    labels: &mut [u16],
    w: usize,
    h: usize,
    mask: &[bool],
    n_fills: usize,
    min_size: usize,
) -> (parents: Vec<u16>)
    requires
        w * h <= old(labels)@.len(),
        w * h <= mask@.len(),
        w * h < u32::MAX,
    ensures
        final(labels)@.len() == old(labels)@.len(),
        forall|p: int|
            0 <= p < w * h ==> #[trigger] final(labels)@[p] == carved_label(
                old(labels)@,
                mask@,
                w as int,
                h as int,
                n_fills as int,
                min_size as int,
                p,
            ),
        forall|p: int| w * h <= p < old(labels)@.len() ==> #[trigger] final(labels)@[p] == old(labels)@[p],
        forall|p: int|
            0 <= p < w * h && #[trigger] final(labels)@[p] != old(labels)@[p] ==> {
                let key = mask_key(old(labels)@, mask@, w * h);
                let size = comp_size(key, w as int, h as int, component_id(key, w as int, h as int, p));
                &&& mask@[p]
                &&& final(labels)@[p] >= n_fills
                &&& final(labels)@[p] < n_fills + CARVE_MAX
                &&& final(labels)@[p] < u16::MAX
                &&& size >= min_size
                &&& size >= 4
            },
        ({
            let key = mask_key(old(labels)@, mask@, w * h);
            let m = min_cluster(min_size as int);
            let total = features_below(key, w as int, h as int, m, component_count(key, w as int, h as int));
            parents@.len() == if total < carve_limit(n_fills as int) {
                total as int
            } else {
                carve_limit(n_fills as int)
            }
        }),
        forall|p: int|
            0 <= p < w * h && #[trigger] is_carved(
                mask_key(old(labels)@, mask@, w * h),
                w as int,
                h as int,
                min_cluster(min_size as int),
                n_fills as int,
                component_id(mask_key(old(labels)@, mask@, w * h), w as int, h as int, p),
            ) ==> parents@[features_below(
                mask_key(old(labels)@, mask@, w * h),
                w as int,
                h as int,
                min_cluster(min_size as int),
                component_id(mask_key(old(labels)@, mask@, w * h), w as int, h as int, p),
            ) as int] == old(labels)@[p],
{
    let ghost orig = labels@;
    let ghost (wi, hi) = (w as int, h as int);
    let n = w * h;
    let ghost mk = mask_key(orig, mask@, n as int);
    let mut key: Vec<u16> = Vec::new();
    let mut p: usize = 0;
    while p < n
        invariant
            n == w * h,
            n <= orig.len(),
            n <= mask@.len(),
            orig == labels@,
            p <= n,
            key@.len() == p,
            forall|q: int| 0 <= q < p ==> #[trigger] key@[q] == mk[q],
            mk == mask_key(orig, mask@, n as int),
        decreases n - p,
    {
        if mask[p] {
            key.push(labels[p]);
        } else {
            key.push(u16::MAX);
        }
        p += 1;
    }
    proof {
        assert(key@ == mk);
    }
    let (comp, ink) = label_components(&key, w, h, 4294967294);
    let count = ink.len();
    proof {
        lemma_firsts_bound(mk, wi, hi, n as int);
        assert forall|q: int| 0 <= q < n implies #[trigger] comp@[q] as int == component_id(mk, wi, hi, q) by {
            lemma_component_id(mk, wi, hi, q, q);
        }
        assert(comp_matches(comp@, mk, wi, hi));
    }
    let sizes = comp_sizes(&comp, count, Ghost(mk), w, h);
    let m: usize = if min_size < 4 {
        4
    } else {
        min_size
    };
    let limit: usize = if n_fills >= 65535 {
        0
    } else if 65535 - n_fills < CARVE_MAX {
        65535 - n_fills
    } else {
        CARVE_MAX
    };
    let ghost (mi, nf) = (m as int, n_fills as int);
    let mut rank: Vec<u32> = Vec::new();
    let mut parents: Vec<u16> = Vec::new();
    let mut c: usize = 0;
    while c < count
        invariant
            n == w * h,
            n < u32::MAX,
            wi == w,
            hi == h,
            mk.len() == n,
            count == component_count(mk, wi, hi),
            count <= n,
            ink@.len() == count,
            forall|q: int|
                0 <= q < n && component_id(mk, wi, hi, q) < 4294967294 ==> ink@[#[trigger] component_id(
                    mk,
                    wi,
                    hi,
                    q,
                )] == mk[q],
            sizes@.len() == count,
            forall|k: int| 0 <= k < count ==> #[trigger] sizes@[k] == comp_size(mk, wi, hi, k),
            mi == min_cluster(min_size as int),
            m == mi,
            limit == carve_limit(nf),
            c <= count,
            rank@.len() == c,
            parents@.len() == if features_below(mk, wi, hi, mi, c as int) < limit {
                features_below(mk, wi, hi, mi, c as int) as int
            } else {
                limit as int
            },
            forall|k: int|
                0 <= k < c ==> #[trigger] rank@[k] == if is_carved(mk, wi, hi, mi, nf, k) {
                    features_below(mk, wi, hi, mi, k) as u32
                } else {
                    u32::MAX
                },
            forall|k: int|
                0 <= k < c && #[trigger] is_carved(mk, wi, hi, mi, nf, k) ==> parents@[features_below(
                    mk,
                    wi,
                    hi,
                    mi,
                    k,
                ) as int] == ink@[k],
        decreases count - c,
    {
        let ghost p0 = lemma_component_onto(mk, wi, hi, c as int);
        proof {
            assert(ink@[c as int] == mk[p0]);
            assert(is_feature(mk, wi, hi, mi, c as int) == (sizes@[c as int] >= m && ink@[c as int] != u16::MAX))
                by {
                if is_feature(mk, wi, hi, mi, c as int) {
                    let q = choose|q: int|
                        0 <= q < wi * hi && #[trigger] component_id(mk, wi, hi, q) == c && mk[q] != u16::MAX;
                    lemma_component_id(mk, wi, hi, p0, q);
                    lemma_connected_label(mk, wi, hi, p0, q);
                }
            }
        }
        proof {
            assert forall|k: int| 0 <= k < c && #[trigger] is_carved(mk, wi, hi, mi, nf, k) implies features_below(
                mk,
                wi,
                hi,
                mi,
                k,
            ) < parents@.len() by {
                lemma_features_mono(mk, wi, hi, mi, k + 1, c as int);
            }
        }
        if sizes[c] >= m && ink[c] != 65535 && parents.len() < limit {
            rank.push(parents.len() as u32);
            parents.push(ink[c]);
        } else {
            rank.push(u32::MAX);
        }
        c += 1;
    }
    let mut p: usize = 0;
    while p < n
        invariant
            n == w * h,
            n < u32::MAX,
            wi == w,
            hi == h,
            n <= orig.len(),
            n <= mask@.len(),
            mk == mask_key(orig, mask@, n as int),
            labels@.len() == orig.len(),
            count == component_count(mk, wi, hi),
            comp_matches(comp@, mk, wi, hi),
            rank@.len() == count,
            mi == min_cluster(min_size as int),
            limit == carve_limit(nf),
            nf == n_fills,
            forall|k: int|
                0 <= k < count ==> #[trigger] rank@[k] == if is_carved(mk, wi, hi, mi, nf, k) {
                    features_below(mk, wi, hi, mi, k) as u32
                } else {
                    u32::MAX
                },
            p <= n,
            forall|q: int|
                0 <= q < p ==> #[trigger] labels@[q] == carved_label(orig, mask@, wi, hi, nf, min_size as int, q),
            forall|q: int| p <= q < orig.len() ==> #[trigger] labels@[q] == orig[q],
        decreases n - p,
    {
        let k = comp[p] as usize;
        proof {
            lemma_component_id(mk, wi, hi, p as int, p as int);
        }
        let r = rank[k];
        if r != u32::MAX {
            labels[p] = (n_fills + r as usize) as u16;
        }
        p += 1;
    }
    proof {
        let total = features_below(mk, wi, hi, mi, count as int);
        assert forall|q: int|
            0 <= q < n && #[trigger] is_carved(mk, wi, hi, mi, nf, component_id(mk, wi, hi, q)) implies parents@[features_below(
            mk,
            wi,
            hi,
            mi,
            component_id(mk, wi, hi, q),
        ) as int] == orig[q] by {
            lemma_component_id(mk, wi, hi, q, q);
            let k = component_id(mk, wi, hi, q);
            let c0 = choose|c0: int| 0 <= c0 < wi * hi && #[trigger] component_id(mk, wi, hi, c0) == k && mk[c0] != u16::MAX;
            lemma_component_id(mk, wi, hi, c0, q);
            lemma_connected_label(mk, wi, hi, c0, q);
        }
        assert forall|q: int| 0 <= q < n && #[trigger] labels@[q] != orig[q] implies {
            let size = comp_size(mk, wi, hi, component_id(mk, wi, hi, q));
            &&& mask@[q]
            &&& labels@[q] >= n_fills
            &&& labels@[q] < n_fills + CARVE_MAX
            &&& labels@[q] < u16::MAX
            &&& size >= min_size
            &&& size >= 4
        } by {
            lemma_carving_moves_only_marked(orig, mask@, wi, hi, n_fills as int, min_size as int, q, q);
        }
    }
    parents
}

} // verus!
