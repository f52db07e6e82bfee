//! Speckle removal and faces for fast mode, in two linear passes over row runs.
//!
//! [`crate::regions::despeckle`] and [`crate::regions::split_components`] flood-fill
//! pixel by pixel. Here a component is found by union-find over horizontal runs of one
//! label -- a run is joined to the runs above it that overlap it and carry the same label
//! -- so the work is one pass over the pixels plus one over the runs. Components smaller
//! than `min_size` take the label they share the longest border with (the smallest label
//! on a tie), and the faces are the components of the result.
use std::collections::HashMap;
use vstd::prelude::*;

use crate::fast::runs::{
    lemma_pix_coords, lemma_pix_unique, lemma_row_of, lemma_row_ordered, lemma_run_connected,
    lemma_runs_ordered, row_runs, rows_ok, run_end, run_start, runs_tile, Run,
};
use crate::forest::{forest_ok, ids32, lemma_halve, lemma_identity_forest, lemma_link, lemma_root, root};
use crate::grid::{
    component_count, component_id, connected, firsts_below, is_first, lemma_component_id,
    lemma_connected_linked, lemma_connected_sym, lemma_connected_trans, lemma_firsts_bound,
    lemma_first_of_first, lemma_index, lemma_step_intro, linked,
};
use crate::regions::{
    best_of, comp_matches, comp_size, is_best, lemma_best_unique, lemma_tally_bound, size_below,
    tally, tally_below, tally_list, vote_dir, votes,
};

verus! {

/// Components of equal labels (4-connected): the component of every pixel, each
/// component's size and label, in order of first appearance in scan order.
pub struct Components {
    /// Component id per pixel.
    pub comp: Vec<u32>,
    /// Pixels per component.
    pub size: Vec<usize>,
    /// Label of each component.
    pub label: Vec<u16>,
}

/// The root of `x`, halving the path on the way.
pub(crate) fn find(parent: &mut Vec<u32>, x: u32) -> (r: u32)
    requires
        forest_ok(ids32(old(parent)@)),
        x < old(parent)@.len(),
    ensures
        forest_ok(ids32(final(parent)@)),
        final(parent)@.len() == old(parent)@.len(),
        r as int == root(ids32(old(parent)@), x as int),
        forall|z: int| #[trigger] root(ids32(final(parent)@), z) == root(ids32(old(parent)@), z),
{
    let ghost p0 = ids32(parent@);
    let ghost x0 = x as int;
    let mut x = x;
    while parent[x as usize] != x
        invariant
            forest_ok(ids32(parent@)),
            parent@.len() == p0.len(),
            x < parent@.len(),
            root(ids32(parent@), x as int) == root(p0, x0),
            forall|z: int| #[trigger] root(ids32(parent@), z) == root(p0, z),
        decreases x,
    {
        let ghost pv = ids32(parent@);
        let p = parent[x as usize];
        proof {
            assert(pv[x as int] == p);
            assert(0 <= pv[p as int] <= pv[x as int]);
        }
        let gp = parent[p as usize];
        parent[x as usize] = gp;
        proof {
            assert(ids32(parent@) =~= pv.update(x as int, pv[pv[x as int]]));
            assert forall|z: int| #[trigger] root(ids32(parent@), z) == root(p0, z) by {
                lemma_halve(pv, x as int, z);
            }
            lemma_halve(pv, x as int, 0);
            assert(root(pv, x as int) == root(pv, p as int));
        }
        x = p;
    }
    proof {
        assert(ids32(parent@)[x as int] == x);
    }
    x
}

/// Run `a` of the row above and run `b` of the row below share a column and a label.
pub open spec fn joinable(a: Run, b: Run) -> bool {
    a.0 < b.1 && b.0 < a.1 && a.2 == b.2
}

/// Every joinable pair of runs across the seam above row `y` shares a root.
pub open spec fn joined(pf: Seq<int>, runs: Seq<Run>, rs: Seq<usize>, y: int) -> bool {
    forall|a: int, b: int|
        rs[y - 1] <= a < rs[y] && rs[y] <= b < rs[y + 1] && #[trigger] joinable(runs[a], runs[b])
            ==> root(pf, a) == root(pf, b)
}

/// Runs that share a root are connected.
pub open spec fn sound_runs(
    pf: Seq<int>,
    labels: Seq<u16>,
    w: int,
    h: int,
    runs: Seq<Run>,
    rrow: Seq<int>,
) -> bool {
    forall|a: int, b: int|
        0 <= a < runs.len() && 0 <= b < runs.len() && #[trigger] root(pf, a) == #[trigger] root(
            pf,
            b,
        ) ==> connected(labels, w, h, run_start(runs, rrow, w, a), run_start(runs, rrow, w, b))
}

/// Two joinable runs on neighbouring rows are connected.
proof fn lemma_joinable_connected(
    labels: Seq<u16>,
    w: int,
    h: int,
    runs: Seq<Run>,
    rrow: Seq<int>,
    pix: Seq<int>,
    a: int,
    b: int,
)
    requires
        runs_tile(labels, w, h, runs, rrow, pix, w * h),
        0 <= a < runs.len(),
        0 <= b < runs.len(),
        rrow[b] == rrow[a] + 1,
        joinable(runs[a], runs[b]),
    ensures
        connected(labels, w, h, run_start(runs, rrow, w, a), run_start(runs, rrow, w, b)),
{
    let y = rrow[a];
    assert(0 <= rrow[b] < h && runs[b].0 < runs[b].1 <= w);
    assert(0 <= rrow[a] < h && runs[a].0 < runs[a].1 <= w);
    let x: int = if runs[a].0 >= runs[b].0 {
        runs[a].0 as int
    } else {
        runs[b].0 as int
    };
    let p = y * w + x;
    let q = (y + 1) * w + x;
    lemma_index(w, h, x, y);
    lemma_index(w, h, x, y + 1);
    assert(q == p + w) by (nonlinear_arith)
        requires
            p == y * w + x,
            q == (y + 1) * w + x,
    ;
    lemma_step_intro(w, h, p);
    assert(labels[p] == runs[a].2);
    assert(labels[q] == runs[b].2);
    assert(linked(labels, w, h, p, q));
    lemma_connected_linked(labels, w, h, p, q);
    lemma_run_connected(labels, w, h, runs, rrow, pix, a, p);
    lemma_run_connected(labels, w, h, runs, rrow, pix, b, q);
    lemma_connected_sym(labels, w, h, run_start(runs, rrow, w, b), q);
    lemma_connected_trans(labels, w, h, run_start(runs, rrow, w, a), p, q);
    lemma_connected_trans(labels, w, h, run_start(runs, rrow, w, a), q, run_start(runs, rrow, w, b));
}

} // verus!

verus! {

/// The sweep over the seam above row `y` has handled every pair with `a < i` or `b < j`.
pub open spec fn swept(pf: Seq<int>, runs: Seq<Run>, rs: Seq<usize>, y: int, i: int, j: int) -> bool {
    forall|a: int, b: int|
        rs[y - 1] <= a < rs[y] && rs[y] <= b < rs[y + 1] && (a < i || b < j) && #[trigger] joinable(
            runs[a],
            runs[b],
        ) ==> root(pf, a) == root(pf, b)
}

/// Join every pair of joinable runs on neighbouring rows.
fn join_rows(
    runs: &Vec<Run>,
    row_start: &Vec<usize>,
    parent: &mut Vec<u32>,
    h: usize,
    Ghost(labels): Ghost<Seq<u16>>,
    Ghost(w): Ghost<int>,
    Ghost(rrow): Ghost<Seq<int>>,
    Ghost(pix): Ghost<Seq<int>>,
)
    requires
        runs_tile(labels, w, h as int, runs@, rrow, pix, w * h),
        row_start@.len() == h + 1,
        rows_ok(row_start@, rrow, h + 1, runs@.len() as int),
        row_start@[h as int] == runs@.len(),
        runs@.len() < u32::MAX,
        old(parent)@.len() == runs@.len(),
        forest_ok(ids32(old(parent)@)),
        sound_runs(ids32(old(parent)@), labels, w, h as int, runs@, rrow),
    ensures
        final(parent)@.len() == runs@.len(),
        forest_ok(ids32(final(parent)@)),
        sound_runs(ids32(final(parent)@), labels, w, h as int, runs@, rrow),
        forall|y: int| 1 <= y < h ==> joined(ids32(final(parent)@), runs@, row_start@, y),
{
    let ghost hi = h as int;
    let ghost rs = row_start@;
    let mut y: usize = 1;
    while y < h
        invariant
            runs_tile(labels, w, hi, runs@, rrow, pix, w * h),
            hi == h,
            rs == row_start@,
            rs.len() == h + 1,
            rows_ok(rs, rrow, h + 1, runs@.len() as int),
            rs[h as int] == runs@.len(),
            runs@.len() < u32::MAX,
            parent@.len() == runs@.len(),
            forest_ok(ids32(parent@)),
            sound_runs(ids32(parent@), labels, w, hi, runs@, rrow),
            1 <= y,
            forall|yy: int| 1 <= yy < y && yy < h ==> joined(ids32(parent@), runs@, rs, yy),
        decreases h - y,
    {
        let mut i = row_start[y - 1];
        let mut j = row_start[y];
        let ie = row_start[y];
        let je = row_start[y + 1];
        proof {
            assert(rs[y - 1] <= rs[y as int] <= rs[y + 1]);
        }
        while i < ie && j < je
            invariant
                runs_tile(labels, w, hi, runs@, rrow, pix, w * h),
                hi == h,
                rs == row_start@,
                rs.len() == h + 1,
                rows_ok(rs, rrow, h + 1, runs@.len() as int),
                rs[h as int] == runs@.len(),
                runs@.len() < u32::MAX,
                parent@.len() == runs@.len(),
                forest_ok(ids32(parent@)),
                sound_runs(ids32(parent@), labels, w, hi, runs@, rrow),
                1 <= y < h,
                ie == rs[y as int],
                je == rs[y + 1],
                rs[y - 1] <= i <= ie,
                rs[y as int] <= j <= je,
                je <= runs@.len(),
                forall|yy: int| 1 <= yy < y ==> joined(ids32(parent@), runs@, rs, yy),
                swept(ids32(parent@), runs@, rs, y as int, i as int, j as int),
            decreases (ie - i) + (je - j),
        {
            let a = runs[i];
            let b = runs[j];
            proof {
                lemma_row_of(rs, rrow, runs@.len() as int, i as int, y - 1);
                lemma_row_of(rs, rrow, runs@.len() as int, j as int, y as int);
            }
            if a.0 < b.1 && b.0 < a.1 && a.2 == b.2 {
                let ghost p0 = ids32(parent@);
                let ra = find(parent, i as u32);
                let rb = find(parent, j as u32);
                let ghost p1 = ids32(parent@);
                proof {
                    lemma_root(p0, i as int);
                    lemma_root(p0, j as int);
                    assert(root(p1, i as int) == ra);
                    assert(root(p1, j as int) == rb);
                }
                if ra != rb {
                    let lo = if ra < rb { ra } else { rb };
                    let hi_root = if ra < rb { rb } else { ra };
                    proof {
                        lemma_root(p1, i as int);
                        lemma_root(p1, j as int);
                    }
                    parent[hi_root as usize] = lo;
                    let ghost p2 = ids32(parent@);
                    proof {
                        assert(p2 =~= p1.update(hi_root as int, lo as int));
                        lemma_link(p1, lo as int, hi_root as int, 0);
                        assert forall|z: int| #[trigger] root(p2, z) == if root(p1, z) == hi_root {
                            lo as int
                        } else {
                            root(p1, z)
                        } by {
                            lemma_link(p1, lo as int, hi_root as int, z);
                        }
                        lemma_joinable_connected(labels, w, hi, runs@, rrow, pix, i as int, j as int);
                        let si = run_start(runs@, rrow, w, i as int);
                        let sj = run_start(runs@, rrow, w, j as int);
                        assert forall|c: int, d: int|
                            0 <= c < runs@.len() && 0 <= d < runs@.len() && #[trigger] root(p2, c)
                                == #[trigger] root(p2, d) implies connected(
                            labels,
                            w,
                            hi,
                            run_start(runs@, rrow, w, c),
                            run_start(runs@, rrow, w, d),
                        ) by {
                            let sc = run_start(runs@, rrow, w, c);
                            let sd = run_start(runs@, rrow, w, d);
                            if root(p1, c) == root(p1, d) {
                                assert(root(p0, c) == root(p0, d));
                            } else {
                                // One of them was in `i`'s set and the other in `j`'s.
                                let (ci, dj) = if root(p1, c) == ra {
                                    (c, d)
                                } else {
                                    (d, c)
                                };
                                assert(root(p1, ci) == ra && root(p1, dj) == rb);
                                assert(root(p0, ci) == root(p0, i as int));
                                assert(root(p0, dj) == root(p0, j as int));
                                let sci = run_start(runs@, rrow, w, ci);
                                let sdj = run_start(runs@, rrow, w, dj);
                                lemma_connected_trans(labels, w, hi, sci, si, sj);
                                lemma_connected_sym(labels, w, hi, sdj, sj);
                                assert(connected(labels, w, hi, sj, sdj));
                                lemma_connected_trans(labels, w, hi, sci, sj, sdj);
                                if ci != c {
                                    lemma_connected_sym(labels, w, hi, sci, sdj);
                                }
                            }
                        }
                        assert forall|yy: int| 1 <= yy < y implies joined(p2, runs@, rs, yy) by {
                            assert forall|c: int, d: int|
                                rs[yy - 1] <= c < rs[yy] && rs[yy] <= d < rs[yy + 1] && #[trigger] joinable(
                                    runs@[c],
                                    runs@[d],
                                ) implies root(p2, c) == root(p2, d) by {
                                assert(joined(p0, runs@, rs, yy));
                                assert(root(p0, c) == root(p0, d));
                                assert(root(p1, c) == root(p1, d));
                            }
                        }
                        assert forall|c: int, d: int|
                            rs[y - 1] <= c < rs[y as int] && rs[y as int] <= d < rs[y + 1] && (c < i || d
                                < j || (c == i && d == j)) && #[trigger] joinable(
                                runs@[c],
                                runs@[d],
                            ) implies root(p2, c) == root(p2, d) by {
                            if c == i && d == j {
                                assert(root(p1, c) == ra && root(p1, d) == rb);
                            } else {
                                assert(root(p0, c) == root(p0, d));
                                assert(root(p1, c) == root(p1, d));
                            }
                        }
                    }
                } else {
                    proof {
                        assert forall|c: int, d: int|
                            0 <= c < runs@.len() && 0 <= d < runs@.len() && #[trigger] root(p1, c)
                                == #[trigger] root(p1, d) implies connected(
                            labels,
                            w,
                            hi,
                            run_start(runs@, rrow, w, c),
                            run_start(runs@, rrow, w, d),
                        ) by {
                            assert(root(p0, c) == root(p0, d));
                        }
                        assert forall|yy: int| 1 <= yy < y implies joined(p1, runs@, rs, yy) by {
                            assert forall|c: int, d: int|
                                rs[yy - 1] <= c < rs[yy] && rs[yy] <= d < rs[yy + 1] && #[trigger] joinable(
                                    runs@[c],
                                    runs@[d],
                                ) implies root(p1, c) == root(p1, d) by {
                                assert(joined(p0, runs@, rs, yy));
                                assert(root(p0, c) == root(p0, d));
                            }
                        }
                        assert forall|c: int, d: int|
                            rs[y - 1] <= c < rs[y as int] && rs[y as int] <= d < rs[y + 1] && (c < i || d
                                < j || (c == i && d == j)) && #[trigger] joinable(
                                runs@[c],
                                runs@[d],
                            ) implies root(p1, c) == root(p1, d) by {
                            if !(c == i && d == j) {
                                assert(root(p0, c) == root(p0, d));
                            }
                        }
                    }
                }
            }
            let ghost pf = ids32(parent@);
            proof {
                assert forall|c: int, d: int|
                    rs[y - 1] <= c < rs[y as int] && rs[y as int] <= d < rs[y + 1] && (c < i || d < j
                        || (c == i && d == j)) && #[trigger] joinable(runs@[c], runs@[d]) implies root(
                    pf,
                    c,
                ) == root(pf, d) by {
                    if !(c == i && d == j) {
                        assert(swept(pf, runs@, rs, y as int, i as int, j as int));
                    }
                }
            }
            if a.1 <= b.1 {
                proof {
                    assert forall|c: int, d: int|
                        rs[y - 1] <= c < rs[y as int] && rs[y as int] <= d < rs[y + 1] && (c < i + 1
                            || d < j) && #[trigger] joinable(runs@[c], runs@[d]) implies root(pf, c)
                        == root(pf, d) by {
                        if c == i && d > j {
                            lemma_row_of(rs, rrow, runs@.len() as int, d, y as int);
                            lemma_row_ordered(labels, w, hi, runs@, rrow, pix, w * h, j as int, d);
                        }
                    }
                }
                i += 1;
            } else {
                proof {
                    assert forall|c: int, d: int|
                        rs[y - 1] <= c < rs[y as int] && rs[y as int] <= d < rs[y + 1] && (c < i || d
                            < j + 1) && #[trigger] joinable(runs@[c], runs@[d]) implies root(pf, c)
                        == root(pf, d) by {
                        if d == j && c > i {
                            lemma_row_of(rs, rrow, runs@.len() as int, c, y - 1);
                            lemma_row_ordered(labels, w, hi, runs@, rrow, pix, w * h, i as int, c);
                        }
                    }
                }
                j += 1;
            }
        }
        proof {
            assert(joined(ids32(parent@), runs@, rs, y as int));
        }
        y += 1;
    }
}

} // verus!

verus! {

/// What the sweep leaves: runs that tile the raster, their rows, and a forest in which
/// connected runs share roots and joinable runs do.
pub open spec fn swept_all(
    pf: Seq<int>,
    labels: Seq<u16>,
    w: int,
    h: int,
    runs: Seq<Run>,
    rrow: Seq<int>,
    pix: Seq<int>,
    rs: Seq<usize>,
) -> bool {
    &&& runs_tile(labels, w, h, runs, rrow, pix, w * h)
    &&& rs.len() == h + 1
    &&& rows_ok(rs, rrow, h + 1, runs.len() as int)
    &&& rs[h] == runs.len()
    &&& pf.len() == runs.len()
    &&& forest_ok(pf)
    &&& sound_runs(pf, labels, w, h, runs, rrow)
    &&& forall|y: int| 1 <= y < h ==> joined(pf, runs, rs, y)
}

proof fn lemma_linked_forward(
    pf: Seq<int>,
    labels: Seq<u16>,
    w: int,
    h: int,
    runs: Seq<Run>,
    rrow: Seq<int>,
    pix: Seq<int>,
    rs: Seq<usize>,
    p: int,
    q: int,
)
    requires
        swept_all(pf, labels, w, h, runs, rrow, pix, rs),
        linked(labels, w, h, p, q),
        (q == p + 1 && p % w + 1 < w) || (q == p + w && p / w + 1 < h),
    ensures
        root(pf, pix[p]) == root(pf, pix[q]),
{
    crate::grid::lemma_linked_sym(labels, w, h, p, q);
    crate::grid::lemma_step_cases(w, h, p, q);
    lemma_pix_coords(labels, w, h, runs, rrow, pix, w * h, p);
    lemma_pix_coords(labels, w, h, runs, rrow, pix, w * h, q);
    let a = pix[p];
    let b = pix[q];
    let y = rrow[a];
    let x = p % w;
    assert(labels[p] == runs[a].2);
    assert(labels[q] == runs[b].2);
    if q == p + 1 && x + 1 < w {
        if x + 1 < runs[a].1 {
            lemma_pix_unique(labels, w, h, runs, rrow, pix, w * h, a, q);
        } else {
            assert(runs[a].1 < w);
            assert(labels[rrow[a] * w + runs[a].1] != runs[a].2);
            assert(rrow[a] * w + runs[a].1 == q);
        }
    } else {
        lemma_index(w, h, x, y + 1);
        assert(q == (y + 1) * w + x) by (nonlinear_arith)
            requires
                q == p + w,
                p == y * w + x,
        ;
        assert(rrow[b] == y + 1);
        assert(rs[rrow[a]] <= a && a < rs[rrow[a] + 1]);
        assert(rs[rrow[b]] <= b && b < rs[rrow[b] + 1]);
        assert(joinable(runs[a], runs[b]));
        assert(joined(pf, runs, rs, y + 1));
    }
}

/// Linked pixels lie in runs with one root.
proof fn lemma_linked_root(
    pf: Seq<int>,
    labels: Seq<u16>,
    w: int,
    h: int,
    runs: Seq<Run>,
    rrow: Seq<int>,
    pix: Seq<int>,
    rs: Seq<usize>,
    p: int,
    q: int,
)
    requires
        swept_all(pf, labels, w, h, runs, rrow, pix, rs),
        linked(labels, w, h, p, q),
    ensures
        root(pf, pix[p]) == root(pf, pix[q]),
{
    crate::grid::lemma_linked_sym(labels, w, h, p, q);
    crate::grid::lemma_step_cases(w, h, p, q);
    crate::grid::lemma_step_cases(w, h, q, p);
    if q == p + 1 || q == p + w {
        lemma_linked_forward(pf, labels, w, h, runs, rrow, pix, rs, p, q);
    } else {
        lemma_linked_forward(pf, labels, w, h, runs, rrow, pix, rs, q, p);
    }
}

/// Connected pixels lie in runs with one root.
proof fn lemma_connected_root(
    pf: Seq<int>,
    labels: Seq<u16>,
    w: int,
    h: int,
    runs: Seq<Run>,
    rrow: Seq<int>,
    pix: Seq<int>,
    rs: Seq<usize>,
    p: int,
    q: int,
)
    requires
        swept_all(pf, labels, w, h, runs, rrow, pix, rs),
        connected(labels, w, h, p, q),
    ensures
        root(pf, pix[p]) == root(pf, pix[q]),
{
    crate::grid::lemma_connected_range(labels, w, h, p, q);
    let s = Set::new(|z: int| 0 <= z < w * h && root(pf, pix[z]) == root(pf, pix[p]));
    assert forall|c: int, d: int| s.contains(c) && #[trigger] linked(labels, w, h, c, d) implies s.contains(
        d,
    ) by {
        crate::grid::lemma_linked_sym(labels, w, h, c, d);
        lemma_linked_root(pf, labels, w, h, runs, rrow, pix, rs, c, d);
    }
    crate::grid::lemma_closed_set(labels, w, h, s, p, q);
}

} // verus!

verus! {

/// The pixels before run `r`: all of them once `r` is past the last run.
pub open spec fn covered(runs: Seq<Run>, rrow: Seq<int>, w: int, r: int) -> int {
    if r <= 0 {
        0
    } else {
        run_end(runs, rrow, w, r - 1)
    }
}

/// A run's first pixel starts a component exactly when no earlier run shares its root.
proof fn lemma_start_first(
    pf: Seq<int>,
    labels: Seq<u16>,
    w: int,
    h: int,
    runs: Seq<Run>,
    rrow: Seq<int>,
    pix: Seq<int>,
    rs: Seq<usize>,
    r: int,
)
    requires
        swept_all(pf, labels, w, h, runs, rrow, pix, rs),
        0 <= r < runs.len(),
    ensures
        is_first(labels, w, h, run_start(runs, rrow, w, r)) <==> forall|q: int|
            0 <= q < r ==> #[trigger] root(pf, q) != root(pf, r),
{
    let s = run_start(runs, rrow, w, r);
    lemma_pix_unique(labels, w, h, runs, rrow, pix, w * h, r, s);
    if exists|q: int| 0 <= q < r && #[trigger] root(pf, q) == root(pf, r) {
        let q = choose|q: int| 0 <= q < r && #[trigger] root(pf, q) == root(pf, r);
        lemma_runs_ordered(labels, w, h, runs, rrow, pix, w * h, q, r);
        assert(runs[q].0 < runs[q].1);
        assert(connected(labels, w, h, run_start(runs, rrow, w, q), s));
        assert(!is_first(labels, w, h, s));
    } else {
        assert forall|z: int| 0 <= z < s implies !#[trigger] connected(labels, w, h, z, s) by {
            if connected(labels, w, h, z, s) {
                lemma_connected_root(pf, labels, w, h, runs, rrow, pix, rs, z, s);
                let q = pix[z];
                assert(0 <= q < runs.len());
                if q >= r {
                    if q > r {
                        lemma_runs_ordered(labels, w, h, runs, rrow, pix, w * h, r, q);
                    }
                    assert(run_start(runs, rrow, w, q) >= s);
                }
                assert(root(pf, q) == root(pf, r));
            }
        }
    }
}

/// Firsts below a run's end: the run's first pixel may be one, the rest are not.
proof fn lemma_firsts_run(
    labels: Seq<u16>,
    w: int,
    h: int,
    runs: Seq<Run>,
    rrow: Seq<int>,
    pix: Seq<int>,
    r: int,
    p: int,
)
    requires
        runs_tile(labels, w, h, runs, rrow, pix, w * h),
        0 <= r < runs.len(),
        run_start(runs, rrow, w, r) < p <= run_end(runs, rrow, w, r),
    ensures
        firsts_below(labels, w, h, p) == firsts_below(labels, w, h, run_start(runs, rrow, w, r))
            + if is_first(labels, w, h, run_start(runs, rrow, w, r)) {
            1nat
        } else {
            0nat
        },
    decreases p,
{
    let s = run_start(runs, rrow, w, r);
    if p > s + 1 {
        lemma_firsts_run(labels, w, h, runs, rrow, pix, r, p - 1);
        lemma_run_connected(labels, w, h, runs, rrow, pix, r, p - 1);
        assert(!is_first(labels, w, h, p - 1));
    }
}

/// Pixels of run `r` all count towards the component of its first pixel.
proof fn lemma_size_run(
    labels: Seq<u16>,
    w: int,
    h: int,
    runs: Seq<Run>,
    rrow: Seq<int>,
    pix: Seq<int>,
    r: int,
    k: int,
    p: int,
)
    requires
        runs_tile(labels, w, h, runs, rrow, pix, w * h),
        0 <= r < runs.len(),
        run_start(runs, rrow, w, r) <= p <= run_end(runs, rrow, w, r),
    ensures
        size_below(labels, w, h, k, p) == size_below(labels, w, h, k, run_start(runs, rrow, w, r))
            + if component_id(labels, w, h, run_start(runs, rrow, w, r)) == k {
            p - run_start(runs, rrow, w, r)
        } else {
            0
        },
    decreases p,
{
    let s = run_start(runs, rrow, w, r);
    if p > s {
        lemma_size_run(labels, w, h, runs, rrow, pix, r, k, p - 1);
        lemma_run_connected(labels, w, h, runs, rrow, pix, r, p - 1);
        lemma_pix_unique(labels, w, h, runs, rrow, pix, w * h, r, p - 1);
        lemma_component_id(labels, w, h, s, p - 1);
    }
}

/// A component none of whose pixels lies below `upto` has no size there.
proof fn lemma_size_zero(labels: Seq<u16>, w: int, h: int, k: int, upto: int)
    requires
        forall|q: int| 0 <= q < upto ==> component_id(labels, w, h, q) != k,
    ensures
        size_below(labels, w, h, k, upto) == 0,
    decreases upto,
{
    if upto > 0 {
        lemma_size_zero(labels, w, h, k, upto - 1);
    }
}

} // verus!

verus! {

/// What numbering the first `r` runs has produced: `ids` maps a root to its component,
/// `run_comp` each run to its component, and `size` and `label` are each component's so
/// far.
#[verifier::opaque]
pub open spec fn numbered(
    pf: Seq<int>,
    labels: Seq<u16>,
    w: int,
    h: int,
    runs: Seq<Run>,
    rrow: Seq<int>,
    r: int,
    ids: Seq<u32>,
    run_comp: Seq<u32>,
    size: Seq<usize>,
    label: Seq<u16>,
) -> bool {
    &&& ids.len() == runs.len()
    &&& run_comp.len() == runs.len()
    &&& size.len() == firsts_below(labels, w, h, covered(runs, rrow, w, r))
    &&& label.len() == size.len()
    &&& forall|q: int|
        0 <= q < r ==> #[trigger] run_comp[q] as int == component_id(
            labels,
            w,
            h,
            run_start(runs, rrow, w, q),
        )
    &&& forall|q: int|
        0 <= q < r ==> ids[#[trigger] root(pf, q)] as int == component_id(
            labels,
            w,
            h,
            run_start(runs, rrow, w, q),
        )
    &&& forall|z: int|
        0 <= z < runs.len() && #[trigger] ids[z] != u32::MAX ==> exists|q: int|
            0 <= q < r && root(pf, q) == z
    &&& forall|k: int|
        0 <= k < size.len() ==> #[trigger] size[k] == size_below(
            labels,
            w,
            h,
            k,
            covered(runs, rrow, w, r),
        )
    &&& forall|p: int|
        0 <= p < covered(runs, rrow, w, r) ==> component_id(labels, w, h, p) < size.len()
            && label[#[trigger] component_id(labels, w, h, p)] == labels[p]
}

/// Facts about run `r` that both numbering steps use.
proof fn lemma_number_facts(
    pf: Seq<int>,
    labels: Seq<u16>,
    w: int,
    h: int,
    runs: Seq<Run>,
    rrow: Seq<int>,
    pix: Seq<int>,
    rs: Seq<usize>,
    r: int,
)
    requires
        swept_all(pf, labels, w, h, runs, rrow, pix, rs),
        w * h < u32::MAX,
        0 <= r < runs.len(),
    ensures
        covered(runs, rrow, w, r) == run_start(runs, rrow, w, r),
        covered(runs, rrow, w, r + 1) == run_end(runs, rrow, w, r),
        run_start(runs, rrow, w, r) < run_end(runs, rrow, w, r) <= w * h,
        run_end(runs, rrow, w, r) - run_start(runs, rrow, w, r) == runs[r].1 - runs[r].0,
        firsts_below(labels, w, h, run_end(runs, rrow, w, r)) < u32::MAX,
        0 <= root(pf, r) <= r,
        labels[run_start(runs, rrow, w, root(pf, r))] == labels[run_start(runs, rrow, w, r)],
        runs[root(pf, r)].2 == labels[run_start(runs, rrow, w, r)],
        0 <= component_id(labels, w, h, run_start(runs, rrow, w, r)) < u32::MAX,
{
    let s = run_start(runs, rrow, w, r);
    let e = run_end(runs, rrow, w, r);
    assert(runs[r].0 < runs[r].1 <= w);
    lemma_pix_unique(labels, w, h, runs, rrow, pix, w * h, r, s);
    lemma_pix_unique(labels, w, h, runs, rrow, pix, w * h, r, e - 1);
    lemma_firsts_bound(labels, w, h, e);
    lemma_component_id(labels, w, h, s, s);
    lemma_firsts_bound(labels, w, h, w * h);
    let rr = root(pf, r);
    lemma_root(pf, r);
    lemma_root(pf, rr);
    let sr = run_start(runs, rrow, w, rr);
    assert(connected(labels, w, h, sr, s));
    crate::grid::lemma_connected_label(labels, w, h, sr, s);
    assert(runs[rr].0 < runs[rr].1);
    lemma_pix_unique(labels, w, h, runs, rrow, pix, w * h, rr, sr);
    assert(labels[sr] == runs[rr].2);
    assert(labels[s] == runs[r].2);
}

/// A pixel of run `r` is in the component, and carries the label, of its first pixel.
proof fn lemma_run_uniform(
    labels: Seq<u16>,
    w: int,
    h: int,
    runs: Seq<Run>,
    rrow: Seq<int>,
    pix: Seq<int>,
    r: int,
    p: int,
)
    requires
        runs_tile(labels, w, h, runs, rrow, pix, w * h),
        0 <= r < runs.len(),
        run_start(runs, rrow, w, r) <= p < run_end(runs, rrow, w, r),
    ensures
        component_id(labels, w, h, p) == component_id(labels, w, h, run_start(runs, rrow, w, r)),
        labels[p] == labels[run_start(runs, rrow, w, r)],
{
    let s = run_start(runs, rrow, w, r);
    lemma_run_connected(labels, w, h, runs, rrow, pix, r, p);
    lemma_pix_unique(labels, w, h, runs, rrow, pix, w * h, r, p);
    lemma_pix_unique(labels, w, h, runs, rrow, pix, w * h, r, s);
    lemma_component_id(labels, w, h, s, p);
    crate::grid::lemma_connected_label(labels, w, h, s, p);
}

/// Numbering run `r` when its root has no number yet: it starts a new component.
proof fn lemma_number_new(
    pf: Seq<int>,
    labels: Seq<u16>,
    w: int,
    h: int,
    runs: Seq<Run>,
    rrow: Seq<int>,
    pix: Seq<int>,
    rs: Seq<usize>,
    r: int,
    ids: Seq<u32>,
    run_comp: Seq<u32>,
    size: Seq<usize>,
    label: Seq<u16>,
)
    requires
        swept_all(pf, labels, w, h, runs, rrow, pix, rs),
        w * h < u32::MAX,
        0 <= r < runs.len(),
        numbered(pf, labels, w, h, runs, rrow, r, ids, run_comp, size, label),
        ids[root(pf, r)] == u32::MAX,
    ensures
        size.len() < u32::MAX,
        size.len() == component_id(labels, w, h, run_start(runs, rrow, w, r)),
        numbered(
            pf,
            labels,
            w,
            h,
            runs,
            rrow,
            r + 1,
            ids.update(root(pf, r), size.len() as u32),
            run_comp.update(r, size.len() as u32),
            size.push((runs[r].1 - runs[r].0) as usize),
            label.push(runs[root(pf, r)].2),
        ),
{
    reveal(numbered);
    lemma_number_facts(pf, labels, w, h, runs, rrow, pix, rs, r);
    let s = run_start(runs, rrow, w, r);
    let e = run_end(runs, rrow, w, r);
    let rr = root(pf, r);
    let id = size.len();
    assert forall|q: int| 0 <= q < r implies #[trigger] root(pf, q) != root(pf, r) by {
        if root(pf, q) == root(pf, r) {
            lemma_number_facts(pf, labels, w, h, runs, rrow, pix, rs, q);
        }
    }
    lemma_start_first(pf, labels, w, h, runs, rrow, pix, rs, r);
    lemma_first_of_first(labels, w, h, s);
    lemma_firsts_run(labels, w, h, runs, rrow, pix, r, e);
    let ids2 = ids.update(rr, id as u32);
    let rc2 = run_comp.update(r, id as u32);
    let size2 = size.push((runs[r].1 - runs[r].0) as usize);
    let label2 = label.push(runs[rr].2);
    assert forall|q: int| 0 <= q < r + 1 implies ids2[#[trigger] root(pf, q)] as int == component_id(
        labels,
        w,
        h,
        run_start(runs, rrow, w, q),
    ) by {
        if q < r {
            lemma_root(pf, q);
            assert(root(pf, q) != rr);
            assert(ids2[root(pf, q)] == ids[root(pf, q)]);
            assert(ids[root(pf, q)] as int == component_id(labels, w, h, run_start(runs, rrow, w, q)));
        } else {
            assert(ids2[rr] == id as u32);
        }
    }
    assert forall|z: int| 0 <= z < runs.len() && #[trigger] ids2[z] != u32::MAX implies exists|q: int|
        0 <= q < r + 1 && root(pf, q) == z by {
        if z != rr {
            assert(ids[z] != u32::MAX);
        }
    }
    assert forall|k: int| 0 <= k < size2.len() implies #[trigger] size2[k] == size_below(
        labels,
        w,
        h,
        k,
        e,
    ) by {
        lemma_size_run(labels, w, h, runs, rrow, pix, r, k, e);
        if k == id {
            assert forall|q: int| 0 <= q < s implies component_id(labels, w, h, q) != k by {
                if component_id(labels, w, h, q) == k {
                    lemma_component_id(labels, w, h, q, s);
                }
            }
            lemma_size_zero(labels, w, h, k, s);
        } else {
            assert(size[k] == size_below(labels, w, h, k, s));
        }
    }
    assert forall|p: int| 0 <= p < e implies component_id(labels, w, h, p) < size2.len()
        && label2[#[trigger] component_id(labels, w, h, p)] == labels[p] by {
        if p < s {
            assert(component_id(labels, w, h, p) < size.len());
        } else {
            lemma_run_uniform(labels, w, h, runs, rrow, pix, r, p);
        }
    }
}

/// Numbering run `r` when its root already has a number: it joins that component.
#[verifier::rlimit(50)]
#[verifier::spinoff_prover]
proof fn lemma_number_old(
    pf: Seq<int>,
    labels: Seq<u16>,
    w: int,
    h: int,
    runs: Seq<Run>,
    rrow: Seq<int>,
    pix: Seq<int>,
    rs: Seq<usize>,
    r: int,
    ids: Seq<u32>,
    run_comp: Seq<u32>,
    size: Seq<usize>,
    label: Seq<u16>,
)
    requires
        swept_all(pf, labels, w, h, runs, rrow, pix, rs),
        w * h < u32::MAX,
        0 <= r < runs.len(),
        numbered(pf, labels, w, h, runs, rrow, r, ids, run_comp, size, label),
        ids[root(pf, r)] != u32::MAX,
    ensures
        ids[root(pf, r)] < size.len(),
        size[ids[root(pf, r)] as int] + (runs[r].1 - runs[r].0) <= w * h,
        numbered(
            pf,
            labels,
            w,
            h,
            runs,
            rrow,
            r + 1,
            ids,
            run_comp.update(r, ids[root(pf, r)]),
            size.update(
                ids[root(pf, r)] as int,
                (size[ids[root(pf, r)] as int] + (runs[r].1 - runs[r].0)) as usize,
            ),
            label,
        ),
{
    reveal(numbered);
    lemma_number_facts(pf, labels, w, h, runs, rrow, pix, rs, r);
    let s = run_start(runs, rrow, w, r);
    let e = run_end(runs, rrow, w, r);
    let rr = root(pf, r);
    lemma_root(pf, r);
    let q = choose|q: int| 0 <= q < r && root(pf, q) == rr;
    lemma_number_facts(pf, labels, w, h, runs, rrow, pix, rs, q);
    let sq = run_start(runs, rrow, w, q);
    assert(ids[root(pf, q)] as int == component_id(labels, w, h, sq));
    assert(connected(labels, w, h, sq, s));
    lemma_component_id(labels, w, h, sq, s);
    lemma_runs_ordered(labels, w, h, runs, rrow, pix, w * h, q, r);
    assert(sq < covered(runs, rrow, w, r));
    assert(component_id(labels, w, h, sq) < size.len());
    let id = ids[rr];
    assert(id as int == component_id(labels, w, h, s));
    assert(!is_first(labels, w, h, s));
    lemma_firsts_run(labels, w, h, runs, rrow, pix, r, e);
    crate::regions::lemma_size_bound(labels, w, h, id as int, e);
    lemma_size_run(labels, w, h, runs, rrow, pix, r, id as int, e);
    assert(size[id as int] == size_below(labels, w, h, id as int, s));
    let rc2 = run_comp.update(r, id);
    let size2 = size.update(id as int, (size[id as int] + (runs[r].1 - runs[r].0)) as usize);
    assert forall|k: int| 0 <= k < size2.len() implies #[trigger] size2[k] == size_below(
        labels,
        w,
        h,
        k,
        e,
    ) by {
        lemma_size_run(labels, w, h, runs, rrow, pix, r, k, e);
        assert(size[k] == size_below(labels, w, h, k, s));
    }
    assert forall|p: int| 0 <= p < e implies component_id(labels, w, h, p) < size2.len()
        && label[#[trigger] component_id(labels, w, h, p)] == labels[p] by {
        if p >= s {
            lemma_run_uniform(labels, w, h, runs, rrow, pix, r, p);
            assert(label[component_id(labels, w, h, s)] == labels[s]);
        }
    }
}

/// Number the sets of runs in order of first appearance: the component of each run, and
/// each component's size and label.
fn number_runs(
    runs: &Vec<Run>,
    parent: &mut Vec<u32>,
    Ghost(pf): Ghost<Seq<int>>,
    Ghost(labels): Ghost<Seq<u16>>,
    Ghost(w): Ghost<int>,
    Ghost(h): Ghost<int>,
    Ghost(rrow): Ghost<Seq<int>>,
    Ghost(pix): Ghost<Seq<int>>,
    Ghost(rs): Ghost<Seq<usize>>,
) -> (res: (Vec<u32>, Vec<usize>, Vec<u16>))
    requires
        swept_all(pf, labels, w, h, runs@, rrow, pix, rs),
        ids32(old(parent)@) == pf,
        w * h < u32::MAX,
        runs@.len() < u32::MAX,
    ensures
        res.0@.len() == runs@.len(),
        forall|r: int|
            0 <= r < runs@.len() ==> #[trigger] res.0@[r] as int == component_id(
                labels,
                w,
                h,
                run_start(runs@, rrow, w, r),
            ),
        res.1@.len() == component_count(labels, w, h),
        res.2@.len() == component_count(labels, w, h),
        forall|k: int|
            0 <= k < component_count(labels, w, h) ==> #[trigger] res.1@[k] == comp_size(
                labels,
                w,
                h,
                k,
            ),
        forall|p: int|
            0 <= p < w * h ==> res.2@[#[trigger] component_id(labels, w, h, p)] == labels[p],
{
    let n = runs.len();
    let mut id_of_root: Vec<u32> = vec![u32::MAX; n];
    let mut size: Vec<usize> = Vec::new();
    let mut label: Vec<u16> = Vec::new();
    let mut run_comp: Vec<u32> = vec![0u32; n];
    proof {
        assert forall|z: int| 0 <= z < n implies #[trigger] id_of_root@[z] == u32::MAX by {
            assert(cloned(u32::MAX, id_of_root@[z]));
        }
        reveal(numbered);
        assert(numbered(pf, labels, w, h, runs@, rrow, 0, id_of_root@, run_comp@, size@, label@));
    }
    let mut r: usize = 0;
    while r < n
        invariant
            swept_all(pf, labels, w, h, runs@, rrow, pix, rs),
            w * h < u32::MAX,
            n == runs@.len(),
            n < u32::MAX,
            parent@.len() == n,
            id_of_root@.len() == n,
            run_comp@.len() == n,
            forest_ok(ids32(parent@)),
            forall|z: int| #[trigger] root(ids32(parent@), z) == root(pf, z),
            r <= n,
            numbered(pf, labels, w, h, runs@, rrow, r as int, id_of_root@, run_comp@, size@, label@),
        decreases n - r,
    {
        let ghost before = ids32(parent@);
        proof {
            assert(root(before, r as int) == root(pf, r as int));
        }
        let root_r = find(parent, r as u32) as usize;
        proof {
            lemma_root(pf, r as int);
            assert(root_r as int == root(pf, r as int));
        }
        let (x0, x1, _) = runs[r];
        if id_of_root[root_r] == u32::MAX {
            proof {
                lemma_number_new(pf, labels, w, h, runs@, rrow, pix, rs, r as int, id_of_root@, run_comp@, size@, label@);
            }
            let id = size.len() as u32;
            id_of_root.set(root_r, id);
            run_comp.set(r, id);
            size.push((x1 - x0) as usize);
            label.push(runs[root_r].2);
        } else {
            proof {
                lemma_number_old(pf, labels, w, h, runs@, rrow, pix, rs, r as int, id_of_root@, run_comp@, size@, label@);
            }
            let id = id_of_root[root_r];
            run_comp.set(r, id);
            let sz = size[id as usize];
            size.set(id as usize, sz + (x1 - x0) as usize);
        }
        r += 1;
    }
    proof {
        reveal(numbered);
        if n > 0 {
            assert(covered(runs@, rrow, w, n as int) == w * h);
        } else {
            assert(w * h == 0);
        }
        assert forall|k: int| 0 <= k < component_count(labels, w, h) implies #[trigger] size@[k]
            == comp_size(labels, w, h, k) by {
            assert(size@[k] == size_below(labels, w, h, k, covered(runs@, rrow, w, n as int)));
        }
    }
    (run_comp, size, label)
}

} // verus!

verus! {

/// Components of equal labels, 4-connected: the component of every pixel, numbered in
/// order of first appearance in scan order, and each component's size and label.
pub fn components(labels: &[u16], w: usize, h: usize) -> (c: Components)
    requires
        w * h <= labels@.len(),
        w * h < u32::MAX,
    ensures
        c.comp@.len() == w * h,
        c.size@.len() == component_count(labels@, w as int, h as int),
        c.label@.len() == component_count(labels@, w as int, h as int),
        forall|p: int|
            0 <= p < w * h ==> #[trigger] c.comp@[p] as int == component_id(
                labels@,
                w as int,
                h as int,
                p,
            ),
        forall|k: int|
            0 <= k < component_count(labels@, w as int, h as int) ==> #[trigger] c.size@[k]
                == comp_size(labels@, w as int, h as int, k),
        forall|p: int|
            0 <= p < w * h ==> c.label@[#[trigger] component_id(labels@, w as int, h as int, p)]
                == labels@[p],
{
    let ghost (lab, wi, hi) = (labels@, w as int, h as int);
    let (runs, row_start, Ghost(rrow), Ghost(pix)) = row_runs(labels, w, h);
    let n = runs.len();
    let mut parent: Vec<u32> = Vec::new();
    let mut k: usize = 0;
    while k < n
        invariant
            n == runs@.len(),
            n <= w * h,
            w * h < u32::MAX,
            k <= n,
            parent@.len() == k,
            forall|i: int| 0 <= i < k ==> #[trigger] parent@[i] == i,
        decreases n - k,
    {
        parent.push(k as u32);
        k += 1;
    }
    proof {
        let pf0 = ids32(parent@);
        assert forall|i: int| 0 <= i < pf0.len() implies #[trigger] pf0[i] == i by {
            assert(parent@[i] == i);
        }
        lemma_identity_forest(pf0);
        assert forall|a: int, b: int|
            0 <= a < runs@.len() && 0 <= b < runs@.len() && #[trigger] root(pf0, a) == #[trigger] root(
                pf0,
                b,
            ) implies connected(lab, wi, hi, run_start(runs@, rrow, wi, a), run_start(runs@, rrow, wi, b)) by {
            assert(0 <= rrow[a] < hi && runs@[a].0 < runs@[a].1);
            lemma_run_connected(lab, wi, hi, runs@, rrow, pix, a, run_start(runs@, rrow, wi, a));
        }
    }
    join_rows(&runs, &row_start, &mut parent, h, Ghost(lab), Ghost(wi), Ghost(rrow), Ghost(pix));
    let ghost pf = ids32(parent@);
    let (run_comp, size, label) = number_runs(
        &runs,
        &mut parent,
        Ghost(pf),
        Ghost(lab),
        Ghost(wi),
        Ghost(hi),
        Ghost(rrow),
        Ghost(pix),
        Ghost(row_start@),
    );
    let ghost rs = row_start@;
    let mut comp: Vec<u32> = vec![0u32; w * h];
    let mut y: usize = 0;
    while y < h
        invariant
            runs_tile(lab, wi, hi, runs@, rrow, pix, w * h),
            wi == w,
            hi == h,
            lab == labels@,
            rs == row_start@,
            rs.len() == h + 1,
            rows_ok(rs, rrow, h + 1, runs@.len() as int),
            rs[h as int] == runs@.len(),
            w * h < u32::MAX,
            y <= h,
            comp@.len() == w * h,
            run_comp@.len() == runs@.len(),
            forall|r: int|
                0 <= r < runs@.len() ==> #[trigger] run_comp@[r] as int == component_id(
                    lab,
                    wi,
                    hi,
                    run_start(runs@, rrow, wi, r),
                ),
            forall|p: int|
                0 <= p < covered(runs@, rrow, wi, rs[y as int] as int) ==> #[trigger] comp@[p] as int
                    == component_id(lab, wi, hi, p),
        decreases h - y,
    {
        let mut r = row_start[y];
        let re = row_start[y + 1];
        proof {
            assert(rs[y as int] <= rs[y + 1]);
        }
        while r < re
            invariant
                runs_tile(lab, wi, hi, runs@, rrow, pix, w * h),
                wi == w,
                hi == h,
                lab == labels@,
                rs == row_start@,
                rs.len() == h + 1,
                rows_ok(rs, rrow, h + 1, runs@.len() as int),
                rs[h as int] == runs@.len(),
                w * h < u32::MAX,
                y < h,
                rs[y as int] <= r <= re,
                re == rs[y + 1],
                re <= runs@.len(),
                comp@.len() == w * h,
                run_comp@.len() == runs@.len(),
                forall|q: int|
                    0 <= q < runs@.len() ==> #[trigger] run_comp@[q] as int == component_id(
                        lab,
                        wi,
                        hi,
                        run_start(runs@, rrow, wi, q),
                    ),
                forall|p: int|
                    0 <= p < covered(runs@, rrow, wi, r as int) ==> #[trigger] comp@[p] as int
                        == component_id(lab, wi, hi, p),
            decreases re - r,
        {
            let (x0, x1, _) = runs[r];
            let id = run_comp[r];
            let ghost s = run_start(runs@, rrow, wi, r as int);
            let ghost e = run_end(runs@, rrow, wi, r as int);
            proof {
                lemma_row_of(rs, rrow, runs@.len() as int, r as int, y as int);
                assert(runs@[r as int].0 < runs@[r as int].1 <= w);
                lemma_pix_unique(lab, wi, hi, runs@, rrow, pix, w * h, r as int, e - 1);
                if r > 0 {
                    assert(covered(runs@, rrow, wi, r as int) == s);
                }
            }
            let mut x = x0 as usize;
            while x < x1 as usize
                invariant
                    runs_tile(lab, wi, hi, runs@, rrow, pix, w * h),
                    wi == w,
                    hi == h,
                    lab == labels@,
                    0 <= r < runs@.len(),
                    rrow[r as int] == y,
                    s == run_start(runs@, rrow, wi, r as int),
                    e == run_end(runs@, rrow, wi, r as int),
                    x0 == runs@[r as int].0,
                    x1 == runs@[r as int].1,
                    s == y * w + x0,
                    e == y * w + x1,
                    s == covered(runs@, rrow, wi, r as int),
                    e <= w * h,
                    w * h < u32::MAX,
                    x0 <= x <= x1,
                    comp@.len() == w * h,
                    id as int == component_id(lab, wi, hi, s),
                    forall|p: int|
                        0 <= p < y * w + x ==> #[trigger] comp@[p] as int == component_id(
                            lab,
                            wi,
                            hi,
                            p,
                        ),
                decreases x1 - x,
            {
                proof {
                    lemma_run_uniform(lab, wi, hi, runs@, rrow, pix, r as int, y * w + x);
                }
                comp.set(y * w + x, id);
                x += 1;
            }
            r += 1;
        }
        y += 1;
    }
    proof {
        if n > 0 {
            assert(covered(runs@, rrow, wi, n as int) == w * h);
        } else {
            assert(w * h == 0);
        }
    }
    Components { comp, size, label }
}

} // verus!

verus! {

/// What [`despeckle`] leaves: every component smaller than `min_size` that borders
/// anything takes, all at once, the label it shares the longest border with in the
/// labels as they came (the smallest on a tie); a best label of `u16::MAX` leaves it as
/// it was.
pub open spec fn absorbed_at_once(orig: Seq<u16>, w: int, h: int, min_size: int) -> Seq<u16> {
    if min_size <= 1 {
        orig
    } else {
        Seq::new(
            orig.len(),
            |p: int|
                {
                    let k = component_id(orig, w, h, p);
                    if 0 <= p < w * h && comp_size(orig, w, h, k) < min_size && (exists|l: u16|
                        is_best(orig, orig, w, h, k, l)) && (choose|l: u16|
                        is_best(orig, orig, w, h, k, l)) != u16::MAX {
                        choose|l: u16| is_best(orig, orig, w, h, k, l)
                    } else {
                        orig[p]
                    }
                },
        )
    }
}

/// The new label of component `k`, or `u16::MAX` to keep its own.
pub open spec fn target_of(orig: Seq<u16>, w: int, h: int, min_size: int, k: int) -> u16 {
    if comp_size(orig, w, h, k) < min_size && (exists|l: u16| is_best(orig, orig, w, h, k, l)) {
        choose|l: u16| is_best(orig, orig, w, h, k, l)
    } else {
        u16::MAX
    }
}

/// The tally list a map holds for component `j`, empty when it holds none.
pub open spec fn list_of(m: Map<u32, Vec<(u16, u64)>>, j: int) -> Seq<(u16, u64)> {
    if m.contains_key(j as u32) {
        m[j as u32]@
    } else {
        Seq::empty()
    }
}

/// Relabel every component smaller than `min_size` pixels with the neighbouring label it
/// shares the longest border with.
pub fn despeckle(labels: &mut [u16], w: usize, h: usize, min_size: usize)
    requires
        w * h <= old(labels)@.len(),
        w * h < u32::MAX,
    ensures
        final(labels)@ == absorbed_at_once(old(labels)@, w as int, h as int, min_size as int),
{
    broadcast use vstd::std_specs::hash::group_hash_axioms;

    if min_size <= 1 {
        return;
    }
    let ghost (orig, wi, hi) = (labels@, w as int, h as int);
    let n = w * h;
    let c = components(labels, w, h);
    let count = c.size.len();
    proof {
        lemma_firsts_bound(orig, wi, hi, n as int);
        assert forall|q: int| 0 <= q < n implies (#[trigger] c.comp@[q] as int) < count by {
            lemma_component_id(orig, wi, hi, q, q);
        }
    }
    let mut all_big = true;
    let mut k: usize = 0;
    while k < count
        invariant
            k <= count,
            count == c.size@.len(),
            all_big <==> forall|j: int| 0 <= j < k ==> c.size@[j] >= min_size,
        decreases count - k,
    {
        if c.size[k] < min_size {
            all_big = false;
        }
        k += 1;
    }
    if all_big {
        proof {
            assert(labels@ =~= absorbed_at_once(orig, wi, hi, min_size as int)) by {
                assert forall|p: int| 0 <= p < n implies comp_size(
                    orig,
                    wi,
                    hi,
                    component_id(orig, wi, hi, p),
                ) >= min_size by {
                    lemma_component_id(orig, wi, hi, p, p);
                    assert(c.size@[component_id(orig, wi, hi, p)] >= min_size);
                }
            }
        }
        return;
    }
    let mut tallies: HashMap<u32, Vec<(u16, u64)>> = HashMap::new();
    let ghost small = |j: int| comp_size(orig, wi, hi, j) < min_size;
    proof {
        assert forall|j: int| 0 <= j < count && small(j) implies tally_list(
            #[trigger] list_of(tallies@, j),
            |l: u16| tally_below(orig, orig, wi, hi, j, l, 0),
        ) by {
            assert(list_of(tallies@, j) =~= Seq::empty());
        }
    }
    let mut p: usize = 0;
    while p < n
        invariant
            n == w * h,
            n < u32::MAX,
            wi == w,
            hi == h,
            orig == labels@,
            n <= orig.len(),
            min_size > 1,
            small == (|j: int| comp_size(orig, wi, hi, j) < min_size),
            count == c.size@.len(),
            count == component_count(orig, wi, hi),
            comp_matches(c.comp@, orig, wi, hi),
            forall|j: int| 0 <= j < count ==> #[trigger] c.size@[j] == comp_size(orig, wi, hi, j),
            forall|q: int| 0 <= q < n ==> (#[trigger] c.comp@[q] as int) < count,
            count <= n,
            p <= n,
            forall|j: int|
                0 <= j < count && small(j) ==> tally_list(
                    #[trigger] list_of(tallies@, j),
                    |l: u16| tally_below(orig, orig, wi, hi, j, l, p as int),
                ),
        decreases n - p,
    {
        let id = c.comp[p];
        if c.size[id as usize] >= min_size {
            proof {
                assert forall|j: int| 0 <= j < count && small(j) implies tally_list(
                    #[trigger] list_of(tallies@, j),
                    |l: u16| tally_below(orig, orig, wi, hi, j, l, p + 1),
                ) by {
                    assert((|l: u16| tally_below(orig, orig, wi, hi, j, l, p + 1)) =~= (|l: u16|
                        tally_below(orig, orig, wi, hi, j, l, p as int)));
                }
            }
            p += 1;
            continue;
        }
        let ghost base = |l: u16| tally_below(orig, orig, wi, hi, id as int, l, p as int);
        let ghost t0 = tallies@;
        let mut t: Vec<(u16, u64)> = match tallies.remove(&id) {
            Some(t) => t,
            None => Vec::new(),
        };
        proof {
            assert(t@ == list_of(t0, id as int));
            assert forall|l: u16| #[trigger] base(l) <= 4 * (w * h) by {
                lemma_tally_bound(orig, orig, wi, hi, id as int, l, p as int);
            }
            assert(small(id as int));
            assert((|l: u16| base(l) + votes(orig, orig, wi, hi, id as int, p as int, l, 0)) =~= (|l: u16|
                tally_below(orig, orig, wi, hi, id as int, l, p as int)));
        }
        let mut d: usize = 0;
        while d < 4
            invariant
                n == w * h,
                n < u32::MAX,
                wi == w,
                hi == h,
                orig == labels@,
                n <= orig.len(),
                p < n,
                (id as int) < count,
                comp_matches(c.comp@, orig, wi, hi),
                component_id(orig, wi, hi, p as int) == id,
                forall|l: u16| #[trigger] base(l) <= 4 * (w * h),
                d <= 4,
                    tallies@ == t0.remove(id),
                tally_list(
                    t@,
                    |l: u16| base(l) + votes(orig, orig, wi, hi, id as int, p as int, l, d as int),
                ),
            decreases 4 - d,
        {
            vote_dir(&mut t, labels, &c.comp, w, h, id, p, d, Ghost(orig), Ghost(base));
            d += 1;
        }
        tallies.insert(id, t);
        proof {
            assert forall|j: int| 0 <= j < count && small(j) implies tally_list(
                #[trigger] list_of(tallies@, j),
                |l: u16| tally_below(orig, orig, wi, hi, j, l, p + 1),
            ) by {
                if j == id {
                    assert((|l: u16| base(l) + votes(orig, orig, wi, hi, id as int, p as int, l, 4)) =~= (|l: u16|
                        tally_below(orig, orig, wi, hi, j, l, p + 1)));
                } else {
                    assert(j as u32 != id);
                    assert(list_of(tallies@, j) == list_of(t0, j));
                    assert((|l: u16| tally_below(orig, orig, wi, hi, j, l, p + 1)) =~= (|l: u16|
                        tally_below(orig, orig, wi, hi, j, l, p as int)));
                }
            }
        }
        p += 1;
    }
    let mut to: Vec<u16> = Vec::new();
    let mut k: usize = 0;
    while k < count
        invariant
            n == w * h,
            wi == w,
            hi == h,
            min_size > 1,
            count <= n,
            n < u32::MAX,
            small == (|j: int| comp_size(orig, wi, hi, j) < min_size),
            count == c.size@.len(),
            forall|j: int| 0 <= j < count ==> #[trigger] c.size@[j] == comp_size(orig, wi, hi, j),
            forall|j: int|
                0 <= j < count && small(j) ==> tally_list(
                    #[trigger] list_of(tallies@, j),
                    |l: u16| tally_below(orig, orig, wi, hi, j, l, n as int),
                ),
            k <= count,
            to@.len() == k,
            forall|j: int| 0 <= j < k ==> #[trigger] to@[j] == target_of(orig, wi, hi, min_size as int, j),
        decreases count - k,
    {
        if c.size[k] < min_size {
            let ghost f = |l: u16| tally(orig, orig, wi, hi, k as int, l);
            proof {
                assert(small(k as int));
                assert(f =~= (|l: u16| tally_below(orig, orig, wi, hi, k as int, l, n as int)));
            }
            let best = match tallies.get(&(k as u32)) {
                Some(l) => {
                    proof {
                        assert(l@ == list_of(tallies@, k as int));
                    }
                    best_of(l, Ghost(f))
                },
                None => {
                    proof {
                        assert(list_of(tallies@, k as int) =~= Seq::empty());
                        assert forall|m: u16| #[trigger] f(m) == 0 by {
                            if f(m) > 0 {
                                let i = choose|i: int| 0 <= i < list_of(tallies@, k as int).len()
                                    && list_of(tallies@, k as int)[i].0 == m;
                            }
                        }
                    }
                    None
                },
            };
            match best {
                Some(b) => {
                    proof {
                        assert forall|m: u16| #[trigger] tally(orig, orig, wi, hi, k as int, m) > 0 implies tally(
                            orig,
                            orig,
                            wi,
                            hi,
                            k as int,
                            m,
                        ) < tally(orig, orig, wi, hi, k as int, b) || (tally(orig, orig, wi, hi, k as int, m)
                            == tally(orig, orig, wi, hi, k as int, b) && b <= m) by {
                            assert(f(m) > 0);
                        }
                        assert(is_best(orig, orig, wi, hi, k as int, b));
                        let cb = choose|l: u16| is_best(orig, orig, wi, hi, k as int, l);
                        lemma_best_unique(orig, orig, wi, hi, k as int, b, cb);
                    }
                    to.push(b);
                },
                None => {
                    proof {
                        assert(!(exists|l: u16| is_best(orig, orig, wi, hi, k as int, l))) by {
                            if exists|l: u16| is_best(orig, orig, wi, hi, k as int, l) {
                                let l = choose|l: u16| is_best(orig, orig, wi, hi, k as int, l);
                                assert(f(l) == 0);
                            }
                        }
                    }
                    to.push(u16::MAX);
                },
            }
        } else {
            to.push(u16::MAX);
        }
        k += 1;
    }
    let mut p: usize = 0;
    while p < n
        invariant
            n == w * h,
            wi == w,
            hi == h,
            min_size > 1,
            n <= orig.len(),
            labels@.len() == orig.len(),
            count == component_count(orig, wi, hi),
            comp_matches(c.comp@, orig, wi, hi),
            forall|q: int| 0 <= q < n ==> (#[trigger] c.comp@[q] as int) < count,
            to@.len() == count,
            forall|j: int| 0 <= j < count ==> #[trigger] to@[j] == target_of(orig, wi, hi, min_size as int, j),
            p <= n,
            forall|q: int|
                0 <= q < orig.len() ==> #[trigger] labels@[q] == if q < p {
                    absorbed_at_once(orig, wi, hi, min_size as int)[q]
                } else {
                    orig[q]
                },
        decreases n - p,
    {
        let t = to[c.comp[p] as usize];
        if t != u16::MAX {
            labels[p] = t;
        }
        p += 1;
    }
    proof {
        assert(labels@ =~= absorbed_at_once(orig, wi, hi, min_size as int));
    }
}

} // verus!

verus! {

/// Most faces [`faces`] numbers: the components past them are folded into face 0.
pub const FACE_CAP: usize = 65534;

/// The face [`faces`] gives pixel `p`.
pub open spec fn fast_face_of(labels: Seq<u16>, w: int, h: int, p: int) -> int {
    if component_id(labels, w, h, p) < FACE_CAP {
        component_id(labels, w, h, p)
    } else {
        0
    }
}

/// How many faces [`faces`] numbers.
pub open spec fn fast_face_count(labels: Seq<u16>, w: int, h: int) -> int {
    if component_count(labels, w, h) < FACE_CAP {
        component_count(labels, w, h)
    } else {
        FACE_CAP as int
    }
}

/// Faces: the components of `labels`, as a face id per pixel and each face's label. Past
/// `u16::MAX - 1` faces the rest are folded into face 0.
pub fn faces(labels: &[u16], w: usize, h: usize) -> (res: (Vec<u16>, Vec<usize>))
    requires
        w * h <= labels@.len(),
        w * h < u32::MAX,
    ensures
        res.0@.len() == w * h,
        res.1@.len() == fast_face_count(labels@, w as int, h as int),
        forall|p: int|
            0 <= p < w * h ==> #[trigger] res.0@[p] as int == fast_face_of(
                labels@,
                w as int,
                h as int,
                p,
            ),
        forall|p: int|
            0 <= p < w * h && component_id(labels@, w as int, h as int, p) < FACE_CAP ==> res.1@[
            #[trigger] component_id(labels@, w as int, h as int, p)] == labels@[p] as usize,
{
    let c = components(labels, w, h);
    let cap = (u16::MAX - 1) as usize;
    let n = w * h;
    let mut ids: Vec<u16> = Vec::new();
    let mut p: usize = 0;
    while p < n
        invariant
            n == w * h,
            cap == FACE_CAP,
            c.comp@.len() == n,
            forall|q: int|
                0 <= q < n ==> #[trigger] c.comp@[q] as int == component_id(
                    labels@,
                    w as int,
                    h as int,
                    q,
                ),
            p <= n,
            ids@.len() == p,
            forall|q: int|
                0 <= q < p ==> #[trigger] ids@[q] as int == fast_face_of(labels@, w as int, h as int, q),
        decreases n - p,
    {
        let id = c.comp[p];
        ids.push(if (id as usize) < cap { id as u16 } else { 0 });
        p += 1;
    }
    let mut face_label: Vec<usize> = Vec::new();
    let mut k: usize = 0;
    while k < c.label.len() && k < cap
        invariant
            cap == FACE_CAP,
            c.label@.len() == component_count(labels@, w as int, h as int),
            k <= c.label@.len(),
            k <= cap,
            face_label@.len() == k,
            forall|j: int| 0 <= j < k ==> #[trigger] face_label@[j] == c.label@[j] as usize,
        decreases cap - k,
    {
        face_label.push(c.label[k] as usize);
        k += 1;
    }
    proof {
        assert forall|p: int|
            0 <= p < w * h && component_id(labels@, w as int, h as int, p) < FACE_CAP implies face_label@[
            #[trigger] component_id(labels@, w as int, h as int, p)] == labels@[p] as usize by {
            lemma_component_id(labels@, w as int, h as int, p, p);
        }
    }
    (ids, face_label)
}

/// Below the cap, the faces of the run-based union-find are exactly those of the pixel
/// flood fill: the same face for every pixel, and the same number of faces.
pub proof fn lemma_faces_match_flood_fill(labels: Seq<u16>, w: int, h: int)
    requires
        component_count(labels, w, h) <= FACE_CAP,
    ensures
        fast_face_count(labels, w, h) == crate::regions::face_count(labels, w, h),
        forall|p: int|
            0 <= p < w * h ==> #[trigger] fast_face_of(labels, w, h, p) == crate::regions::face_of(
                labels,
                w,
                h,
                p,
            ),
{
    assert forall|p: int| 0 <= p < w * h implies #[trigger] fast_face_of(labels, w, h, p)
        == crate::regions::face_of(labels, w, h, p) by {
        lemma_component_id(labels, w, h, p, p);
    }
}

} // verus!
