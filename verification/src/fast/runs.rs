//! Horizontal runs of one label: each row cut into maximal intervals of equal labels.
//!
//! Read in order, the runs tile the raster in scan order: each starts where the one before
//! it ended, lies inside one row, carries one label, and ends where the label changes or
//! the row does.
use vstd::prelude::*;

use crate::grid::lemma_index;

verus! {

/// A run: first column, one past its last column, label.
pub type Run = (u32, u32, u16);

/// The first pixel of run `r`, whose row is `rrow[r]`.
pub open spec fn run_start(runs: Seq<Run>, rrow: Seq<int>, w: int, r: int) -> int {
    rrow[r] * w + runs[r].0
}

/// One past the last pixel of run `r`.
pub open spec fn run_end(runs: Seq<Run>, rrow: Seq<int>, w: int, r: int) -> int {
    rrow[r] * w + runs[r].1
}

/// The runs tile pixels `0..n` in scan order; `rrow` is the row of each run and `pix`
/// the run of each pixel.
pub open spec fn runs_tile(
    labels: Seq<u16>,
    w: int,
    h: int,
    runs: Seq<Run>,
    rrow: Seq<int>,
    pix: Seq<int>,
    n: int,
) -> bool {
    &&& rrow.len() == runs.len()
    &&& pix.len() == n
    &&& forall|r: int|
        0 <= r < runs.len() ==> 0 <= #[trigger] rrow[r] < h && runs[r].0 < runs[r].1 <= w
    &&& runs.len() == 0 ==> n == 0
    &&& runs.len() > 0 ==> run_start(runs, rrow, w, 0) == 0 && run_end(
        runs,
        rrow,
        w,
        runs.len() - 1,
    ) == n
    &&& forall|r: int|
        0 < r < runs.len() ==> #[trigger] run_start(runs, rrow, w, r) == run_end(
            runs,
            rrow,
            w,
            r - 1,
        )
    &&& forall|p: int|
        0 <= p < n ==> 0 <= #[trigger] pix[p] < runs.len() && run_start(runs, rrow, w, pix[p])
            <= p < run_end(runs, rrow, w, pix[p])
    &&& forall|r: int, p: int|
        0 <= r < runs.len() && run_start(runs, rrow, w, r) <= p < run_end(runs, rrow, w, r)
            ==> #[trigger] labels[p] == #[trigger] runs[r].2
    &&& forall|r: int|
        0 <= r < runs.len() && #[trigger] runs[r].1 < w ==> labels[rrow[r] * w + runs[r].1]
            != runs[r].2
}

/// `rs[y]` is where row `y`'s runs start, for the first `rows` rows; `rs[rows]`, when
/// present, is where the runs so far end.
pub open spec fn rows_ok(rs: Seq<usize>, rrow: Seq<int>, rows: int, nruns: int) -> bool {
    &&& rs.len() >= rows
    &&& forall|y: int| 0 <= y < rs.len() ==> #[trigger] rs[y] <= nruns
    &&& forall|a: int, b: int| 0 <= a <= b < rs.len() ==> rs[a] <= rs[b]
    &&& rs.len() > 0 ==> rs[0] == 0
    &&& forall|r: int| 0 <= r < nruns ==> 0 <= #[trigger] rrow[r] < rs.len()
    &&& forall|r: int|
        0 <= r < nruns ==> rs[rrow[r]] <= r && (rrow[r] + 1 < rs.len() ==> r < rs[
            #[trigger] rrow[r] + 1])
}

/// Cut every row into maximal runs of one label.
pub fn row_runs(labels: &[u16], w: usize, h: usize) -> (res: (
    Vec<Run>,
    Vec<usize>,
    Ghost<Seq<int>>,
    Ghost<Seq<int>>,
))
    requires
        w * h <= labels@.len(),
        w * h < u32::MAX,
    ensures
        runs_tile(labels@, w as int, h as int, res.0@, res.2@, res.3@, w * h),
        res.1@.len() == h + 1,
        rows_ok(res.1@, res.2@, h + 1, res.0@.len() as int),
        res.1@[h as int] == res.0@.len(),
        res.0@.len() <= w * h,
{
    let ghost lab = labels@;
    let ghost (wi, hi) = (w as int, h as int);
    let mut runs: Vec<Run> = Vec::new();
    let mut row_start: Vec<usize> = Vec::new();
    let ghost mut rrow: Seq<int> = Seq::empty();
    let ghost mut pix: Seq<int> = Seq::empty();
    let mut y: usize = 0;
    while y < h
        invariant
            lab == labels@,
            wi == w,
            hi == h,
            w * h <= lab.len(),
            w * h < u32::MAX,
            y <= h,
            runs_tile(lab, wi, hi, runs@, rrow, pix, y * w),
            row_start@.len() == y,
            rows_ok(row_start@, rrow, y as int, runs@.len() as int),
            forall|r: int| 0 <= r < runs@.len() ==> #[trigger] rrow[r] < y,
            runs@.len() <= y * w,
        decreases h - y,
    {
        let ghost rs0 = row_start@;
        row_start.push(runs.len());
        proof {
            assert(y * w + w <= w * h) by (nonlinear_arith)
                requires
                    y < h,
            ;
            assert forall|a: int, b: int| 0 <= a <= b < row_start@.len() implies row_start@[a]
                <= row_start@[b] by {
                if b < y {
                    assert(row_start@[a] == rs0[a] && row_start@[b] == rs0[b]);
                } else if a < y {
                    assert(row_start@[a] == rs0[a]);
                }
            }
            assert forall|r: int| 0 <= r < runs@.len() implies row_start@[rrow[r]] <= r && (rrow[r]
                + 1 < row_start@.len() ==> r < row_start@[#[trigger] rrow[r] + 1]) by {
                assert(row_start@[rrow[r]] == rs0[rrow[r]]);
                if rrow[r] + 1 < y {
                    assert(row_start@[rrow[r] + 1] == rs0[rrow[r] + 1]);
                }
            }
        }
        let base = y * w;
        let mut x: usize = 0;
        while x < w
            invariant
                lab == labels@,
                wi == w,
                hi == h,
                w * h <= lab.len(),
                w * h < u32::MAX,
                y < h,
                base == y * w,
                base + w <= w * h,
                x <= w,
                runs_tile(lab, wi, hi, runs@, rrow, pix, base + x),
                row_start@.len() == y + 1,
                row_start@[y as int] <= runs@.len(),
                rows_ok(row_start@, rrow, y + 1, runs@.len() as int),
                forall|r: int| 0 <= r < runs@.len() ==> #[trigger] rrow[r] <= y,
                forall|r: int| row_start@[y as int] <= r < runs@.len() ==> #[trigger] rrow[r] == y,
                runs@.len() <= base + x,
            decreases w - x,
        {
            let l = labels[base + x];
            let x0 = x;
            while x < w && labels[base + x] == l
                invariant
                    lab == labels@,
                    base + w <= w * h,
                    w * h <= lab.len(),
                    w * h < u32::MAX,
                    x0 <= x <= w,
                    x0 < w,
                    lab[base + x0] == l,
                    forall|xx: int| x0 <= xx < x ==> #[trigger] lab[base + xx] == l,
                decreases w - x,
            {
                x += 1;
            }
            let ghost r = runs@.len() as int;
            let ghost runs0 = runs@;
            let ghost rrow0 = rrow;
            let ghost pix0 = pix;
            runs.push((x0 as u32, x as u32, l));
            proof {
                rrow = rrow.push(y as int);
                pix = pix + Seq::new((x - x0) as nat, |i: int| r);
                assert(run_start(runs@, rrow, wi, r) == base + x0);
                assert(run_end(runs@, rrow, wi, r) == base + x);
                assert forall|q: int| 0 <= q < r implies #[trigger] run_start(runs@, rrow, wi, q)
                    == run_start(runs0, rrow0, wi, q) && run_end(runs@, rrow, wi, q) == run_end(
                    runs0,
                    rrow0,
                    wi,
                    q,
                ) by {
                    assert(runs@[q] == runs0[q]);
                    assert(rrow[q] == rrow0[q]);
                }
                if r > 0 {
                    assert(run_end(runs0, rrow0, wi, r - 1) == base + x0);
                    assert(run_start(runs@, rrow, wi, r) == run_end(runs@, rrow, wi, r - 1));
                }
                assert forall|p: int| 0 <= p < base + x implies 0 <= #[trigger] pix[p] < runs@.len()
                    && run_start(runs@, rrow, wi, pix[p]) <= p < run_end(runs@, rrow, wi, pix[p]) by {
                    if p < base + x0 {
                        assert(pix[p] == pix0[p]);
                    } else {
                        assert(pix[p] == r);
                    }
                }
                assert forall|q: int, p: int|
                    0 <= q < runs@.len() && run_start(runs@, rrow, wi, q) <= p < run_end(
                        runs@,
                        rrow,
                        wi,
                        q,
                    ) implies #[trigger] lab[p] == #[trigger] runs@[q].2 by {
                    if q < r {
                        assert(runs@[q] == runs0[q]);
                        assert(lab[p] == runs0[q].2);
                    } else {
                        assert(lab[base + (p - base)] == l);
                    }
                }
                assert forall|q: int| 0 <= q < runs@.len() && #[trigger] runs@[q].1 < w implies lab[rrow[q]
                    * wi + runs@[q].1] != runs@[q].2 by {
                    if q < r {
                        assert(runs@[q] == runs0[q]);
                        assert(rrow[q] == rrow0[q]);
                    }
                }
                assert forall|q: int| 0 <= q < runs@.len() implies 0 <= #[trigger] rrow[q] < hi
                    && runs@[q].0 < runs@[q].1 <= w by {
                    if q < r {
                        assert(runs@[q] == runs0[q]);
                        assert(rrow[q] == rrow0[q]);
                    }
                }
                assert forall|q: int| 0 <= q < runs@.len() implies 0 <= #[trigger] rrow[q]
                    < row_start@.len() by {
                    if q < r {
                        assert(rrow[q] == rrow0[q]);
                    }
                }
                assert forall|q: int| 0 <= q < runs@.len() implies row_start@[rrow[q]] <= q && (rrow[q]
                    + 1 < row_start@.len() ==> q < row_start@[#[trigger] rrow[q] + 1]) by {
                    if q < r {
                        assert(rrow[q] == rrow0[q]);
                    }
                }
                assert(runs_tile(lab, wi, hi, runs@, rrow, pix, base + x));
            }
        }
        y += 1;
        proof {
            assert(base + w == y * w) by (nonlinear_arith)
                requires
                    base == (y - 1) * w,
            ;
        }
    }
    let ghost rs1 = row_start@;
    row_start.push(runs.len());
    proof {
        assert forall|a: int, b: int| 0 <= a <= b < row_start@.len() implies row_start@[a]
            <= row_start@[b] by {
            if b < h {
                assert(row_start@[a] == rs1[a] && row_start@[b] == rs1[b]);
            } else if a < h {
                assert(row_start@[a] == rs1[a]);
            }
        }
        assert forall|r: int| 0 <= r < runs@.len() implies row_start@[rrow[r]] <= r && (rrow[r]
            + 1 < row_start@.len() ==> r < row_start@[#[trigger] rrow[r] + 1]) by {
            assert(row_start@[rrow[r]] == rs1[rrow[r]]);
            if rrow[r] + 1 < h {
                assert(row_start@[rrow[r] + 1] == rs1[rrow[r] + 1]);
            }
        }
        assert(h * w == w * h) by (nonlinear_arith);
    }
    (runs, row_start, Ghost(rrow), Ghost(pix))
}

} // verus!

verus! {

/// A run lies in row `y` exactly when its index is in row `y`'s range.
pub proof fn lemma_row_of(rs: Seq<usize>, rrow: Seq<int>, nruns: int, r: int, y: int)
    requires
        rows_ok(rs, rrow, rs.len() as int, nruns),
        0 <= r < nruns,
        0 <= y,
        y + 1 < rs.len(),
        rs[y] <= r < rs[y + 1],
    ensures
        rrow[r] == y,
{
    let ry = rrow[r];
    assert(rs[ry] <= r);
    if ry < y {
        assert(r < rs[ry + 1]);
        assert(rs[ry + 1] <= rs[y]);
    } else if ry > y {
        assert(rs[y + 1] <= rs[ry]);
    }
}

/// Every pixel of a run is connected to the run's first pixel.
pub proof fn lemma_run_connected(
    labels: Seq<u16>,
    w: int,
    h: int,
    runs: Seq<Run>,
    rrow: Seq<int>,
    pix: Seq<int>,
    r: int,
    p: int,
)
    requires
        runs_tile(labels, w, h, runs, rrow, pix, w * h),
        0 <= r < runs.len(),
        run_start(runs, rrow, w, r) <= p < run_end(runs, rrow, w, r),
    ensures
        crate::grid::connected(labels, w, h, run_start(runs, rrow, w, r), p),
    decreases p,
{
    let s = run_start(runs, rrow, w, r);
    let y = rrow[r];
    assert(0 <= y < h && runs[r].0 < runs[r].1 <= w);
    lemma_index(w, h, p - y * w, y);
    if p == s {
        crate::grid::lemma_connected_refl(labels, w, h, p);
    } else {
        lemma_run_connected(labels, w, h, runs, rrow, pix, r, p - 1);
        lemma_index(w, h, p - 1 - y * w, y);
        crate::grid::lemma_step_intro(w, h, p - 1);
        assert(labels[p - 1] == runs[r].2);
        assert(labels[p] == runs[r].2);
        assert(crate::grid::linked(labels, w, h, p - 1, p));
        crate::grid::lemma_connected_linked(labels, w, h, p - 1, p);
        crate::grid::lemma_connected_trans(labels, w, h, s, p - 1, p);
    }
}

} // verus!

verus! {

/// Later runs start where earlier ones have ended.
pub proof fn lemma_runs_ordered(
    labels: Seq<u16>,
    w: int,
    h: int,
    runs: Seq<Run>,
    rrow: Seq<int>,
    pix: Seq<int>,
    n: int,
    a: int,
    b: int,
)
    requires
        runs_tile(labels, w, h, runs, rrow, pix, n),
        0 <= a < b < runs.len(),
    ensures
        run_end(runs, rrow, w, a) <= run_start(runs, rrow, w, b),
    decreases b - a,
{
    assert(run_start(runs, rrow, w, b) == run_end(runs, rrow, w, b - 1));
    if a < b - 1 {
        lemma_runs_ordered(labels, w, h, runs, rrow, pix, n, a, b - 1);
        assert(runs[b - 1].0 < runs[b - 1].1);
    }
}

/// Of two runs in one row, the later lies wholly to the right.
pub proof fn lemma_row_ordered(
    labels: Seq<u16>,
    w: int,
    h: int,
    runs: Seq<Run>,
    rrow: Seq<int>,
    pix: Seq<int>,
    n: int,
    a: int,
    b: int,
)
    requires
        runs_tile(labels, w, h, runs, rrow, pix, n),
        0 <= a < b < runs.len(),
        rrow[a] == rrow[b],
    ensures
        runs[a].1 <= runs[b].0,
{
    lemma_runs_ordered(labels, w, h, runs, rrow, pix, n, a, b);
}

} // verus!

verus! {

/// A pixel of run `r` is in no other run: `pix` names it.
pub proof fn lemma_pix_unique(
    labels: Seq<u16>,
    w: int,
    h: int,
    runs: Seq<Run>,
    rrow: Seq<int>,
    pix: Seq<int>,
    n: int,
    r: int,
    p: int,
)
    requires
        runs_tile(labels, w, h, runs, rrow, pix, n),
        0 <= r < runs.len(),
        run_start(runs, rrow, w, r) <= p < run_end(runs, rrow, w, r),
    ensures
        0 <= p < n,
        pix[p] == r,
{
    if r < runs.len() - 1 {
        lemma_runs_ordered(labels, w, h, runs, rrow, pix, n, r, runs.len() - 1);
        assert(runs[runs.len() - 1].0 < runs[runs.len() - 1].1);
    }
    if r > 0 {
        lemma_runs_ordered(labels, w, h, runs, rrow, pix, n, 0, r);
        assert(runs[0].0 < runs[0].1);
    }
    let q = pix[p];
    if q < r {
        lemma_runs_ordered(labels, w, h, runs, rrow, pix, n, q, r);
    } else if q > r {
        lemma_runs_ordered(labels, w, h, runs, rrow, pix, n, r, q);
    }
}

/// Where a pixel of run `r` sits: its row is the run's, its column inside the run's.
pub proof fn lemma_pix_coords(
    labels: Seq<u16>,
    w: int,
    h: int,
    runs: Seq<Run>,
    rrow: Seq<int>,
    pix: Seq<int>,
    n: int,
    p: int,
)
    requires
        runs_tile(labels, w, h, runs, rrow, pix, n),
        0 <= p < n,
    ensures
        p / w == rrow[pix[p]],
        p % w == p - rrow[pix[p]] * w,
        runs[pix[p]].0 <= p % w < runs[pix[p]].1,
        0 <= p < w * h,
{
    let r = pix[p];
    assert(0 <= rrow[r] < h && runs[r].0 < runs[r].1 <= w);
    lemma_index(w, h, p - rrow[r] * w, rrow[r]);
}

} // verus!
