//! Band merging: the seam tables the merge of gradient bands works from.
//!
//! Each connected component of the label map gets a table of its neighbours, each with the
//! number of 4-neighbour pixel pairs across their seam. Only pairs that a predicate
//! accepts are counted (band merging restricts it to components whose labels are of one
//! class). The tables are what [`super::regions::is_smooth`] reads and
//! [`super::regions::absorb_counts`] keeps up to date as bands merge.
use std::collections::HashMap;
use vstd::prelude::*;

use super::regions::{absorbed_table, seam, seams_after, seam_base};
use crate::grid::{lemma_coords, lemma_index};

verus! {

/// `keep` may be called on any pixel pair and always answers the same for the same pair.
pub open spec fn pair_predicate<F: Fn(usize, usize) -> bool>(keep: F) -> bool {
    &&& forall|p: usize, q: usize| #[trigger] keep.requires((p, q))
    &&& forall|p: usize, q: usize, a: bool, b: bool|
        #[trigger] keep.ensures((p, q), a) && #[trigger] keep.ensures((p, q), b) ==> a == b
}

/// What `keep` answers for the pixel pair `(p, q)`.
pub open spec fn keeps<F: Fn(usize, usize) -> bool>(keep: F, p: usize, q: usize) -> bool {
    forall|b: bool| #[trigger] keep.ensures((p, q), b) ==> b
}

/// The pixel pair at half-step `t`: pixel `t / 2` with its right neighbour (even `t`) or
/// the one below it (odd `t`), when that neighbour exists.
pub open spec fn pair_at(w: int, h: int, t: int) -> Option<(int, int)> {
    let p = t / 2;
    if t % 2 == 0 {
        if p % w + 1 < w {
            Some((p, p + 1))
        } else {
            None
        }
    } else {
        if p / w + 1 < h {
            Some((p, p + w))
        } else {
            None
        }
    }
}

/// The pair at half-step `t` crosses the seam between components `a` and `b`, in either
/// order, and is kept.
pub open spec fn crosses<F: Fn(usize, usize) -> bool>(comp: Seq<u32>, w: int, h: int, keep: F, a: u32, b: u32, t: int) -> bool {
    match pair_at(w, h, t) {
        Some((p, q)) => comp[p] != comp[q] && ((comp[p] == a && comp[q] == b) || (comp[p] == b && comp[q] == a))
            && keeps(keep, p as usize, q as usize),
        None => false,
    }
}

/// How many of the first `t` half-steps cross the seam between `a` and `b`.
pub open spec fn seam_count<F: Fn(usize, usize) -> bool>(comp: Seq<u32>, w: int, h: int, keep: F, a: u32, b: u32, t: int) -> nat
    decreases t,
{
    if t <= 0 {
        0
    } else {
        seam_count(comp, w, h, keep, a, b, t - 1) + if crosses(comp, w, h, keep, a, b, t - 1) {
            1nat
        } else {
            0nat
        }
    }
}

/// Component `a`'s seam table after the first `t` half-steps: every component it has
/// a counted pair with, and how many.
pub open spec fn seam_table<F: Fn(usize, usize) -> bool>(comp: Seq<u32>, w: int, h: int, keep: F, a: u32, t: int) -> Map<u32, u32> {
    Map::new(
        |b: u32| seam_count(comp, w, h, keep, a, b, t) > 0,
        |b: u32| seam_count(comp, w, h, keep, a, b, t) as u32,
    )
}

proof fn lemma_seam_count_bound<F: Fn(usize, usize) -> bool>(comp: Seq<u32>, w: int, h: int, keep: F, a: u32, b: u32, t: int)
    requires
        0 <= t,
    ensures
        seam_count(comp, w, h, keep, a, b, t) <= t,
    decreases t,
{
    if t > 0 {
        lemma_seam_count_bound(comp, w, h, keep, a, b, t - 1);
    }
}

pub(crate) fn ask_pair<F: Fn(usize, usize) -> bool>(keep: &F, p: usize, q: usize) -> (res: bool)
    requires
        pair_predicate(*keep),
    ensures
        res == keeps(*keep, p, q),
{
    let r = keep(p, q);
    proof {
        assert forall|b: bool| #[trigger] keep.ensures((p, q), b) implies b == r by {}
    }
    r
}

/// Count the pair `(p, q)` on both sides of the seam between `comp[p]` and `comp[q]`.
fn bump(adj: &mut Vec<HashMap<u32, u32>>, a: u32, b: u32)
    requires
        (a as int) < old(adj)@.len(),
        (b as int) < old(adj)@.len(),
        a != b,
        seam(old(adj)@[a as int]@, b) < u32::MAX,
        seam(old(adj)@[b as int]@, a) < u32::MAX,
    ensures
        final(adj)@.len() == old(adj)@.len(),
        final(adj)@[a as int]@ == old(adj)@[a as int]@.insert(b, (seam(old(adj)@[a as int]@, b) + 1) as u32),
        final(adj)@[b as int]@ == old(adj)@[b as int]@.insert(a, (seam(old(adj)@[b as int]@, a) + 1) as u32),
        forall|c: int| 0 <= c < old(adj)@.len() && c != a && c != b ==> #[trigger] final(adj)@[c] == old(adj)@[c],
{
    broadcast use vstd::std_specs::hash::group_hash_axioms;

    let ab = match adj[a as usize].get(&b) {
        Some(v) => *v,
        None => 0,
    };
    adj[a as usize].insert(b, ab + 1);
    let ba = match adj[b as usize].get(&a) {
        Some(v) => *v,
        None => 0,
    };
    adj[b as usize].insert(a, ba + 1);
}

/// Per component, its seam table: for every other component, the number of
/// 4-neighbour pixel pairs `(p, q)` (`q` right of or below `p`) that join the two and
/// that `keep(p, q)` accepts, and no entry where there is none.
///
/// `comp` holds each pixel's component, all below `n_comp`.
pub fn seam_counts<F: Fn(usize, usize) -> bool>(comp: &[u32], n_comp: usize, w: usize, h: usize, keep: F) -> (adj: Vec<
    HashMap<u32, u32>,
>)
    requires
        comp@.len() == w * h,
        2 * (w * h) <= u32::MAX,
        n_comp <= u32::MAX,
        forall|p: int| 0 <= p < w * h ==> (#[trigger] comp@[p] as int) < n_comp,
        pair_predicate(keep),
    ensures
        adj@.len() == n_comp,
        forall|a: int|
            0 <= a < n_comp ==> (#[trigger] adj@[a])@ == seam_table(
                comp@,
                w as int,
                h as int,
                keep,
                a as u32,
                2 * (w * h),
            ),
{
    broadcast use vstd::std_specs::hash::group_hash_axioms;

    let n = w * h;
    let ghost cs = comp@;
    let ghost (wi, hi) = (w as int, h as int);
    let mut adj: Vec<HashMap<u32, u32>> = Vec::new();
    let mut c: usize = 0;
    while c < n_comp
        invariant
            c <= n_comp,
            adj@.len() == c,
            forall|a: int| 0 <= a < c ==> (#[trigger] adj@[a])@ == Map::<u32, u32>::empty(),
        decreases n_comp - c,
    {
        adj.push(HashMap::new());
        c += 1;
    }
    proof {
        assert forall|a: int| 0 <= a < n_comp implies (#[trigger] adj@[a])@ == seam_table(cs, wi, hi, keep, a as u32, 0) by {
            assert(seam_table(cs, wi, hi, keep, a as u32, 0) =~= Map::<u32, u32>::empty());
        }
    }
    let mut p: usize = 0;
    while p < n
        invariant
            n == w * h,
            cs == comp@,
            wi == w,
            hi == h,
            cs.len() == n,
            2 * n <= u32::MAX,
            n_comp <= u32::MAX,
            forall|q: int| 0 <= q < n ==> (#[trigger] cs[q] as int) < n_comp,
            pair_predicate(keep),
            p <= n,
            adj@.len() == n_comp,
            forall|a: int|
                0 <= a < n_comp ==> (#[trigger] adj@[a])@ == seam_table(cs, wi, hi, keep, a as u32, 2 * p),
        decreases n - p,
    {
        proof {
            lemma_coords(wi, hi, p as int);
        }
        let x = p % w;
        let y = p / w;
        // The pair with the right neighbour, then the one with the neighbour below.
        let mut d: usize = 0;
        while d < 2
            invariant
                n == w * h,
                cs == comp@,
                wi == w,
                hi == h,
                cs.len() == n,
                2 * n <= u32::MAX,
                n_comp <= u32::MAX,
                forall|q: int| 0 <= q < n ==> (#[trigger] cs[q] as int) < n_comp,
                pair_predicate(keep),
                p < n,
                x == p % w,
                y == p / w,
                p == y * w + x,
                x < w,
                y < h,
                d <= 2,
                adj@.len() == n_comp,
                forall|a: int|
                    0 <= a < n_comp ==> (#[trigger] adj@[a])@ == seam_table(cs, wi, hi, keep, a as u32, 2 * p + d),
            decreases 2 - d,
        {
            let ghost t = 2 * p + d;
            proof {
                assert(t / 2 == p && t % 2 == d);
            }
            let there = if d == 0 {
                x + 1 < w
            } else {
                y + 1 < h
            };
            let ghost before = adj@;
            if there {
                let q = if d == 0 {
                    proof {
                        lemma_index(wi, hi, x + 1, y as int);
                    }
                    p + 1
                } else {
                    proof {
                        lemma_index(wi, hi, x as int, y + 1);
                        assert((y + 1) * w == y * w + w) by (nonlinear_arith);
                    }
                    p + w
                };
                proof {
                    assert(pair_at(wi, hi, t) == Some((p as int, q as int)));
                }
                let a = comp[p];
                let b = comp[q];
                if a != b && ask_pair(&keep, p, q) {
                    proof {
                        assert(crosses(cs, wi, hi, keep, a, b, t));
                        lemma_seam_count_bound(cs, wi, hi, keep, a, b, t);
                        lemma_seam_count_bound(cs, wi, hi, keep, b, a, t);
                        assert(seam(before[a as int]@, b) == seam_count(cs, wi, hi, keep, a, b, t));
                        assert(seam(before[b as int]@, a) == seam_count(cs, wi, hi, keep, b, a, t));
                    }
                    bump(&mut adj, a, b);
                    proof {
                        assert forall|e: int| 0 <= e < n_comp implies (#[trigger] adj@[e])@ == seam_table(
                            cs,
                            wi,
                            hi,
                            keep,
                            e as u32,
                            t + 1,
                        ) by {
                            assert forall|f: u32| #[trigger] seam_count(cs, wi, hi, keep, e as u32, f, t + 1)
                                == seam_count(cs, wi, hi, keep, e as u32, f, t) + if (e as u32 == a && f == b) || (
                            e as u32 == b && f == a) {
                                1nat
                            } else {
                                0nat
                            } by {}
                            assert(adj@[e]@ =~= seam_table(cs, wi, hi, keep, e as u32, t + 1));
                        }
                    }
                } else {
                    proof {
                        assert forall|e: int| 0 <= e < n_comp implies (#[trigger] adj@[e])@ == seam_table(
                            cs,
                            wi,
                            hi,
                            keep,
                            e as u32,
                            t + 1,
                        ) by {
                            assert forall|f: u32| #[trigger] seam_count(cs, wi, hi, keep, e as u32, f, t + 1)
                                == seam_count(cs, wi, hi, keep, e as u32, f, t) by {}
                            assert(adj@[e]@ =~= seam_table(cs, wi, hi, keep, e as u32, t + 1));
                        }
                    }
                }
            } else {
                proof {
                    assert(pair_at(wi, hi, t) is None);
                    assert forall|e: int| 0 <= e < n_comp implies (#[trigger] adj@[e])@ == seam_table(
                        cs,
                        wi,
                        hi,
                        keep,
                        e as u32,
                        t + 1,
                    ) by {
                        assert forall|f: u32| #[trigger] seam_count(cs, wi, hi, keep, e as u32, f, t + 1)
                            == seam_count(cs, wi, hi, keep, e as u32, f, t) by {}
                        assert(adj@[e]@ =~= seam_table(cs, wi, hi, keep, e as u32, t + 1));
                    }
                }
            }
            d += 1;
        }
        p += 1;
    }
    adj
}


/// The components with every pixel of `b` handed to `a`.
pub open spec fn relabelled(comp: Seq<u32>, a: u32, b: u32) -> Seq<u32> {
    comp.map_values(
        |c: u32|
            if c == b {
                a
            } else {
                c
            },
    )
}

/// The pixel pair of a half-step below `2 w h` lies inside the raster.
proof fn lemma_pair_inside(w: int, h: int, t: int)
    requires
        0 <= w,
        0 <= h,
        0 <= t < 2 * (w * h),
    ensures
        pair_at(w, h, t) matches Some((p, q)) ==> 0 <= p < w * h && 0 <= q < w * h,
{
    let p = t / 2;
    assert(w > 0) by {
        if w == 0 {
            assert(w * h == 0);
        }
    }
    lemma_coords(w, h, p);
    let (x, y) = (p % w, p / w);
    if x + 1 < w {
        lemma_index(w, h, x + 1, y);
    }
    if y + 1 < h {
        lemma_index(w, h, x, y + 1);
        assert((y + 1) * w == y * w + w) by (nonlinear_arith);
    }
}

/// The seam between `x` and `y` is counted the same from either side.
pub proof fn lemma_seam_count_sym<F: Fn(usize, usize) -> bool>(
    comp: Seq<u32>,
    w: int,
    h: int,
    keep: F,
    x: u32,
    y: u32,
    t: int,
)
    ensures
        seam_count(comp, w, h, keep, x, y, t) == seam_count(comp, w, h, keep, y, x, t),
    decreases t,
{
    if t > 0 {
        lemma_seam_count_sym(comp, w, h, keep, x, y, t - 1);
    }
}

/// Seams once `b`'s pixels are handed to `a`: `a` borders what either bordered, with both
/// counts, and nothing borders `b` any more.
proof fn lemma_relabel_count<F: Fn(usize, usize) -> bool>(
    comp: Seq<u32>,
    w: int,
    h: int,
    keep: F,
    a: u32,
    b: u32,
    j: u32,
    k: u32,
    t: int,
)
    requires
        0 <= w,
        0 <= h,
        comp.len() == w * h,
        0 <= t <= 2 * (w * h),
        a != b,
    ensures
        seam_count(relabelled(comp, a, b), w, h, keep, j, k, t) == if j == b || k == b || (j == a && k
            == a) {
            0
        } else if k == a {
            seam_count(comp, w, h, keep, j, a, t) + seam_count(comp, w, h, keep, j, b, t)
        } else if j == a {
            seam_count(comp, w, h, keep, a, k, t) + seam_count(comp, w, h, keep, b, k, t)
        } else {
            seam_count(comp, w, h, keep, j, k, t)
        },
    decreases t,
{
    if t > 0 {
        lemma_relabel_count(comp, w, h, keep, a, b, j, k, t - 1);
        lemma_pair_inside(w, h, t - 1);
    }
}

/// Absorbing region `b` into region `a` keeps seam tables exact: when every region's map
/// is its seam table over a component map, the maps [`super::regions::absorb_counts`]
/// leaves are the seam tables recounted with `b`'s pixels handed to `a`.
pub proof fn lemma_absorb_matches_recount<F: Fn(usize, usize) -> bool>(
    comp: Seq<u32>,
    w: int,
    h: int,
    keep: F,
    m: Seq<Map<u32, u32>>,
    a: int,
    b: int,
)
    requires
        0 <= w,
        0 <= h,
        comp.len() == w * h,
        2 * (w * h) <= u32::MAX,
        0 <= a < m.len(),
        0 <= b < m.len(),
        a != b,
        m.len() <= u32::MAX,
        forall|j: int| 0 <= j < m.len() ==> #[trigger] m[j] == seam_table(comp, w, h, keep, j as u32, 2 * (w * h)),
    ensures
        forall|j: int|
            0 <= j < m.len() ==> #[trigger] absorbed_table(m, a, b)[j] == seam_table(
                relabelled(comp, a as u32, b as u32),
                w,
                h,
                keep,
                j as u32,
                2 * (w * h),
            ),
{
    let tt = 2 * (w * h);
    let (au, bu) = (a as u32, b as u32);
    let c2 = relabelled(comp, au, bu);
    let n = absorbed_table(m, a, b);
    assert forall|j: int| 0 <= j < m.len() implies #[trigger] n[j] == seam_table(c2, w, h, keep, j as u32, tt) by {
        let ju = j as u32;
        let target = seam_table(c2, w, h, keep, ju, tt);
        assert forall|k: u32| #[trigger] n[j].contains_key(k) == target.contains_key(k) && (n[j].contains_key(k)
            ==> n[j][k] == target[k]) by {
            lemma_relabel_count(comp, w, h, keep, au, bu, ju, k, tt);
            lemma_seam_count_bound(comp, w, h, keep, ju, k, tt);
            lemma_seam_count_bound(comp, w, h, keep, au, k, tt);
            lemma_seam_count_bound(comp, w, h, keep, bu, k, tt);
            lemma_seam_count_bound(comp, w, h, keep, ju, au, tt);
            lemma_seam_count_bound(comp, w, h, keep, ju, bu, tt);
            lemma_seam_count_sym(comp, w, h, keep, bu, ju, tt);
            lemma_seam_count_sym(comp, w, h, keep, ju, ju, tt);
            assert(seam_count(comp, w, h, keep, ju, ju, tt) == 0) by {
                lemma_self_count(comp, w, h, keep, ju, tt);
            }
            assert(seam_count(comp, w, h, keep, bu, bu, tt) == 0) by {
                lemma_self_count(comp, w, h, keep, bu, tt);
            }
            assert(m[b] == seam_table(comp, w, h, keep, bu, tt));
            assert(m[a] == seam_table(comp, w, h, keep, au, tt));
            assert(m[j] == seam_table(comp, w, h, keep, ju, tt));
        }
        assert(n[j] =~= target);
    }
}

/// No region has a seam with itself.
proof fn lemma_self_count<F: Fn(usize, usize) -> bool>(comp: Seq<u32>, w: int, h: int, keep: F, x: u32, t: int)
    ensures
        seam_count(comp, w, h, keep, x, x, t) == 0,
    decreases t,
{
    if t > 0 {
        lemma_self_count(comp, w, h, keep, x, t - 1);
    }
}

} // verus!
