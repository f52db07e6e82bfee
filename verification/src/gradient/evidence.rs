//! Which pixels testify about a region's fill, and which are blends towards a neighbour.
//!
//! After blend absorption every anti-aliased pixel carries the label of the ink it is
//! mostly made of, so the label map cannot say which pixels are pure. A pixel is a blend
//! when its colour lies on the segment from its own ink to the ink of another label found
//! within two pixels of it, within the noise; pure pixels remain evidence. The two colour
//! tests are made on floats elsewhere and arrive here as predicates: `near_own(p)`, pixel
//! `p` is within the noise of its own ink, and `towards(p, q)`, it lies on the segment
//! from its own ink to the ink of `q`'s label. What is decided here is which neighbours
//! are asked, in what order, and what is recorded.
use vstd::prelude::*;

use super::bands::{ask_pair, keeps, pair_predicate};
use super::{answers, ask, pixel_predicate};
use crate::grid::{lemma_coords, lemma_index};

verus! {

/// The blend-partner mark for a pixel that is evidence for its own fill, and for an unused
/// partner slot.
pub const PURE: u32 = 4294967295u32;

/// The blend-partner mark for a pixel with more blend partners than it records.
pub const FOREIGN: u32 = 4294967294u32;

/// Most blend partners recorded per pixel.
pub const PARTNERS: usize = 3;

/// Most distinct neighbouring labels remembered per pixel; past that, a label seen before
/// may be asked about again.
pub const SEEN: usize = 8;

/// Rows `y0..=y` of the window spanning columns `x0..=x1` of a `w`-wide raster, row by row.
pub open spec fn window_rows(w: int, x0: int, x1: int, y0: int, y: int) -> Seq<int>
    decreases y - y0 + 1,
{
    if y < y0 {
        Seq::empty()
    } else {
        window_rows(w, x0, x1, y0, y - 1) + Seq::new((x1 - x0 + 1) as nat, |c: int| y * w + x0 + c)
    }
}

/// The pixels within two of pixel `p` (clipped to the raster), in scan order.
pub open spec fn window(w: int, h: int, p: int) -> Seq<int> {
    let (x, y) = (p % w, p / w);
    let x0 = if x >= 2 {
        x - 2
    } else {
        0
    };
    let y0 = if y >= 2 {
        y - 2
    } else {
        0
    };
    let x1 = if x + 2 < w {
        x + 2
    } else {
        w - 1
    };
    let y1 = if y + 2 < h {
        y + 2
    } else {
        h - 1
    };
    window_rows(w, x0, x1, y0, y1)
}

/// The scan of pixel `p`'s window after its first `i` pixels: the labels seen (at most
/// [`SEEN`]), how many partners are recorded, the partner slots, and whether the scan has
/// stopped. A neighbour of the pixel's own label, of no ink, or of a label already seen is
/// passed over; otherwise its label is remembered (while there is room) and, if the pixel
/// lies towards it, it is recorded as a partner: the first only, unless `all`; and a
/// partner past [`PARTNERS`] marks the pixel [`FOREIGN`] and stops the scan.
pub open spec fn scan<S: Fn(usize, usize) -> bool>(
    labels: Seq<u16>,
    n_ink: int,
    towards: S,
    all: bool,
    p: int,
    win: Seq<int>,
    i: int,
) -> (Seq<u16>, int, Seq<u32>, bool)
    decreases i,
{
    if i <= 0 {
        (Seq::empty(), 0, seq![PURE, PURE, PURE], false)
    } else {
        let (seen, k, blend, done) = scan(labels, n_ink, towards, all, p, win, i - 1);
        let q = win[i - 1];
        let m = labels[q];
        if done || m == labels[p] || (m as int) >= n_ink || seen.contains(m) {
            (seen, k, blend, done)
        } else {
            let seen2 = if seen.len() < SEEN {
                seen.push(m)
            } else {
                seen
            };
            if keeps(towards, p as usize, q as usize) {
                if k == PARTNERS {
                    (seen2, k, seq![FOREIGN, FOREIGN, FOREIGN], true)
                } else {
                    (seen2, k + 1, blend.update(k, q as u32), !all)
                }
            } else {
                (seen2, k, blend, false)
            }
        }
    }
}

/// Pixel `p`'s partner slots: all [`PURE`] when its label is no ink or it is within the
/// noise of its own ink, and otherwise what the scan of its window records.
pub open spec fn partners_of<N: Fn(usize) -> bool, S: Fn(usize, usize) -> bool>(
    labels: Seq<u16>,
    w: int,
    h: int,
    n_ink: int,
    near_own: N,
    towards: S,
    all: bool,
    p: int,
) -> Seq<u32> {
    if (labels[p] as int) >= n_ink || answers(near_own, p as usize) {
        seq![PURE, PURE, PURE]
    } else {
        let win = window(w, h, p);
        scan(labels, n_ink, towards, all, p, win, win.len() as int).2
    }
}

proof fn lemma_scan_shape<S: Fn(usize, usize) -> bool>(
    labels: Seq<u16>,
    n_ink: int,
    towards: S,
    all: bool,
    p: int,
    win: Seq<int>,
    i: int,
)
    requires
        0 <= i,
    ensures
        scan(labels, n_ink, towards, all, p, win, i).2.len() == 3,
        0 <= scan(labels, n_ink, towards, all, p, win, i).1 <= 3,
        scan(labels, n_ink, towards, all, p, win, i).0.len() <= SEEN,
    decreases i,
{
    if i > 0 {
        lemma_scan_shape(labels, n_ink, towards, all, p, win, i - 1);
    }
}

proof fn lemma_window_rows(w: int, h: int, x0: int, x1: int, y0: int, y: int)
    requires
        0 <= x0 <= x1 < w,
        0 <= y0,
        y0 - 1 <= y < h,
    ensures
        window_rows(w, x0, x1, y0, y).len() == (y - y0 + 1) * (x1 - x0 + 1),
        forall|t: int|
            0 <= t < window_rows(w, x0, x1, y0, y).len() ==> 0 <= #[trigger] window_rows(w, x0, x1, y0, y)[t]
                < w * h,
    decreases y - y0 + 1,
{
    if y >= y0 {
        lemma_window_rows(w, h, x0, x1, y0, y - 1);
        let prev = window_rows(w, x0, x1, y0, y - 1);
        let row = Seq::new((x1 - x0 + 1) as nat, |c: int| y * w + x0 + c);
        assert((y - y0 + 1) * (x1 - x0 + 1) == (y - y0) * (x1 - x0 + 1) + (x1 - x0 + 1)) by (nonlinear_arith);
        assert forall|t: int| 0 <= t < window_rows(w, x0, x1, y0, y).len() implies 0 <= #[trigger] window_rows(
            w,
            x0,
            x1,
            y0,
            y,
        )[t] < w * h by {
            if t >= prev.len() {
                let c = t - prev.len();
                lemma_index(w, h, x0 + c, y);
            }
        }
    } else {
        assert((y - y0 + 1) * (x1 - x0 + 1) == 0) by (nonlinear_arith)
            requires
                y == y0 - 1,
        ;
    }
}

/// The pixels within two of pixel `(x, y)`, in scan order.
fn window_of(w: usize, h: usize, x: usize, y: usize) -> (win: Vec<usize>)
    requires
        x < w,
        y < h,
        w * h <= usize::MAX,
    ensures
        win@.map_values(|q: usize| q as int) == window(w as int, h as int, y * w + x),
        forall|t: int| 0 <= t < win@.len() ==> (#[trigger] win@[t]) < w * h,
{
    proof {
        lemma_index(w as int, h as int, x as int, y as int);
    }
    let x0 = if x >= 2 {
        x - 2
    } else {
        0
    };
    let y0 = if y >= 2 {
        y - 2
    } else {
        0
    };
    let x1 = if w - x > 2 {
        x + 2
    } else {
        w - 1
    };
    let y1 = if h - y > 2 {
        y + 2
    } else {
        h - 1
    };
    let ghost (wi, hi) = (w as int, h as int);
    let mut win: Vec<usize> = Vec::new();
    let mut yy = y0;
    while yy <= y1
        invariant
            0 <= x0 <= x1 < w,
            y0 <= yy <= y1 + 1,
            y1 < h,
            wi == w,
            hi == h,
            w * h <= usize::MAX,
            win@.map_values(|q: usize| q as int) == window_rows(wi, x0 as int, x1 as int, y0 as int, yy - 1),
        decreases y1 + 1 - yy,
    {
        let mut xx = x0;
        while xx <= x1
            invariant
                0 <= x0 <= xx <= x1 + 1,
                x1 < w,
                y0 <= yy <= y1,
                y1 < h,
                wi == w,
                hi == h,
                w * h <= usize::MAX,
                win@.map_values(|q: usize| q as int) == window_rows(wi, x0 as int, x1 as int, y0 as int, yy - 1)
                    + Seq::new((xx - x0) as nat, |c: int| yy * wi + x0 + c),
            decreases x1 + 1 - xx,
        {
            proof {
                lemma_index(wi, hi, xx as int, yy as int);
            }
            let ghost before = win@.map_values(|q: usize| q as int);
            win.push(yy * w + xx);
            proof {
                assert(win@.map_values(|q: usize| q as int) =~= before.push(yy * wi + xx));
                assert(window_rows(wi, x0 as int, x1 as int, y0 as int, yy - 1) + Seq::new(
                    (xx + 1 - x0) as nat,
                    |c: int| yy * wi + x0 + c,
                ) =~= (window_rows(wi, x0 as int, x1 as int, y0 as int, yy - 1) + Seq::new(
                    (xx - x0) as nat,
                    |c: int| yy * wi + x0 + c,
                )).push(yy * wi + xx));
            }
            xx += 1;
        }
        yy += 1;
    }
    proof {
        lemma_coords(wi, hi, y * wi + x);
        lemma_window_rows(wi, hi, x0 as int, x1 as int, y0 as int, y1 as int);
        assert forall|t: int| 0 <= t < win@.len() implies (#[trigger] win@[t]) < w * h by {
            assert(win@.map_values(|q: usize| q as int)[t] == win@[t] as int);
        }
    }
    win
}

/// For each pixel, which pixels' inks it is a blend towards: `[PURE; 3]` for evidence,
/// otherwise the indices of the neighbouring pixels (one per neighbouring label) whose
/// label's ink the pixel lies towards -- only the first unless `all` -- and [`FOREIGN`]
/// throughout when there are more than [`PARTNERS`]. See [`partners_of`].
pub fn blend_partners<N: Fn(usize) -> bool, S: Fn(usize, usize) -> bool>(
    w: usize,
    h: usize,
    labels: &[u16],
    n_ink: usize,
    near_own: N,
    towards: S,
    all: bool,
) -> (res: Vec<[u32; 3]>)
    requires
        w * h <= labels@.len(),
        w * h <= u32::MAX,
        pixel_predicate(near_own),
        pair_predicate(towards),
    ensures
        res@.len() == w * h,
        forall|p: int|
            0 <= p < w * h ==> (#[trigger] res@[p])@ == partners_of(
                labels@,
                w as int,
                h as int,
                n_ink as int,
                near_own,
                towards,
                all,
                p,
            ),
{
    let n = w * h;
    let ghost lab = labels@;
    let mut out: Vec<[u32; 3]> = Vec::new();
    let mut p: usize = 0;
    while p < n
        invariant
            n == w * h,
            n <= lab.len(),
            n <= u32::MAX,
            lab == labels@,
            pixel_predicate(near_own),
            pair_predicate(towards),
            p <= n,
            out@.len() == p,
            forall|q: int|
                0 <= q < p ==> (#[trigger] out@[q])@ == partners_of(
                    lab,
                    w as int,
                    h as int,
                    n_ink as int,
                    near_own,
                    towards,
                    all,
                    q,
                ),
        decreases n - p,
    {
        let l = labels[p];
        if (l as usize) >= n_ink || ask(&near_own, p) {
            out.push([PURE, PURE, PURE]);
            proof {
                assert(out@[p as int]@ =~= seq![PURE, PURE, PURE]);
            }
            p += 1;
            continue;
        }
        proof {
            lemma_coords(w as int, h as int, p as int);
        }
        let x = p % w;
        let y = p / w;
        let win = window_of(w, h, x, y);
        let ghost wv = window(w as int, h as int, p as int);
        proof {
            assert(wv.len() == win@.len());
            assert forall|t: int| 0 <= t < win@.len() implies #[trigger] wv[t] == win@[t] as int by {
                assert(win@.map_values(|q: usize| q as int)[t] == win@[t] as int);
            }
        }
        let mut seen: Vec<u16> = Vec::new();
        let mut k: usize = 0;
        let mut b0: u32 = PURE;
        let mut b1: u32 = PURE;
        let mut b2: u32 = PURE;
        let mut done = false;
        let mut i: usize = 0;
        while i < win.len()
            invariant
                n == w * h,
                n <= lab.len(),
                n <= u32::MAX,
                lab == labels@,
                p < n,
                l == lab[p as int],
                pair_predicate(towards),
                wv.len() == win@.len(),
                forall|t: int| 0 <= t < win@.len() ==> #[trigger] wv[t] == win@[t] as int,
                forall|t: int| 0 <= t < win@.len() ==> (#[trigger] win@[t]) < n,
                i <= win@.len(),
                (seen@, k as int, seq![b0, b1, b2], done) == scan(lab, n_ink as int, towards, all, p as int, wv, i as int),
            decreases win@.len() - i,
        {
            proof {
                lemma_scan_shape(lab, n_ink as int, towards, all, p as int, wv, i as int);
            }
            if !done {
                let q = win[i];
                let m = labels[q];
                let mut known = false;
                let mut r: usize = 0;
                while r < seen.len()
                    invariant
                        r <= seen@.len(),
                        known == exists|z: int| 0 <= z < r && seen@[z] == m,
                    decreases seen@.len() - r,
                {
                    if seen[r] == m {
                        known = true;
                    }
                    r += 1;
                }
                proof {
                    assert(known == seen@.contains(m));
                }
                if !(m == l || (m as usize) >= n_ink || known) {
                    if seen.len() < SEEN {
                        seen.push(m);
                    }
                    if ask_pair(&towards, p, q) {
                        if k == PARTNERS {
                            b0 = FOREIGN;
                            b1 = FOREIGN;
                            b2 = FOREIGN;
                            done = true;
                        } else {
                            let qv = q as u32;
                            if k == 0 {
                                b0 = qv;
                            } else if k == 1 {
                                b1 = qv;
                            } else {
                                b2 = qv;
                            }
                            proof {
                                let prev = scan(lab, n_ink as int, towards, all, p as int, wv, i as int).2;
                                assert(seq![b0, b1, b2] =~= prev.update(k as int, qv));
                            }
                            k += 1;
                            if !all {
                                done = true;
                            }
                        }
                    }
                }
            }
            i += 1;
        }
        out.push([b0, b1, b2]);
        proof {
            assert(out@[p as int]@ =~= seq![b0, b1, b2]);
        }
        p += 1;
    }
    out
}

/// Which pixels are evidence for their region's fill: those [`blend_partners`] marks
/// [`PURE`], asked for the first partner only.
pub fn fill_evidence<N: Fn(usize) -> bool, S: Fn(usize, usize) -> bool>(
    w: usize,
    h: usize,
    labels: &[u16],
    n_ink: usize,
    near_own: N,
    towards: S,
) -> (res: Vec<bool>)
    requires
        w * h <= labels@.len(),
        w * h <= u32::MAX,
        pixel_predicate(near_own),
        pair_predicate(towards),
    ensures
        res@.len() == w * h,
        forall|p: int|
            0 <= p < w * h ==> #[trigger] res@[p] == (partners_of(
                labels@,
                w as int,
                h as int,
                n_ink as int,
                near_own,
                towards,
                false,
                p,
            )[0] == PURE),
{
    let partners = blend_partners(w, h, labels, n_ink, near_own, towards, false);
    let mut res: Vec<bool> = Vec::new();
    let mut p: usize = 0;
    while p < partners.len()
        invariant
            p <= partners@.len(),
            res@.len() == p,
            forall|q: int| 0 <= q < p ==> #[trigger] res@[q] == (partners@[q]@[0] == PURE),
        decreases partners@.len() - p,
    {
        res.push(partners[p][0] == PURE);
        p += 1;
    }
    res
}

} // verus!
