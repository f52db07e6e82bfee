//! Reading in a label map the caller supplied.
//!
//! A pixel whose label names none of the `n_labels` labels is unlabelled. Unlabelled
//! pixels are filled in from their labelled 4-neighbours, one ring at a time, so an
//! unlabelled band along a boundary closes from both sides at once rather than being swept
//! in from one. When nothing at all is labelled, the whole raster is one face, label 0.
use vstd::prelude::*;

use crate::grid::{lemma_coords, lemma_index};

verus! {

/// The label the intake reads for pixel `p`: the caller's, when it names one of the
/// `n_labels` labels, and `u16::MAX` (unlabelled) otherwise, a pixel the caller's slice
/// does not reach included.
pub open spec fn read_label(labels: Seq<u16>, n_labels: int, p: int) -> u16 {
    if 0 <= p < labels.len() && (labels[p] as int) < n_labels {
        labels[p]
    } else {
        u16::MAX
    }
}

/// The `n` labels the intake reads.
pub open spec fn read_in(labels: Seq<u16>, n_labels: int, n: int) -> Seq<u16> {
    Seq::new(n as nat, |p: int| read_label(labels, n_labels, p))
}

/// What unlabelled pixel `p` takes in one ring: the label of its first labelled
/// 4-neighbour, looking left, right, up, then down; `u16::MAX` when it has none.
pub open spec fn first_neighbour(s: Seq<u16>, w: int, h: int, p: int) -> u16 {
    let x = p % w;
    let y = p / w;
    if x > 0 && s[p - 1] != u16::MAX {
        s[p - 1]
    } else if x + 1 < w && s[p + 1] != u16::MAX {
        s[p + 1]
    } else if y > 0 && s[p - w] != u16::MAX {
        s[p - w]
    } else if y + 1 < h && s[p + w] != u16::MAX {
        s[p + w]
    } else {
        u16::MAX
    }
}

/// One ring of filling: labelled pixels keep their label, and each unlabelled pixel takes
/// that of its first labelled neighbour, as the labels stood before the ring.
pub open spec fn fill_ring(s: Seq<u16>, w: int, h: int) -> Seq<u16> {
    Seq::new(
        s.len(),
        |p: int|
            if s[p] != u16::MAX {
                s[p]
            } else {
                first_neighbour(s, w, h, p)
            },
    )
}

/// `k` rings of filling.
pub open spec fn fill_rings(s: Seq<u16>, w: int, h: int, k: nat) -> Seq<u16>
    decreases k,
{
    if k == 0 {
        s
    } else {
        fill_ring(fill_rings(s, w, h, (k - 1) as nat), w, h)
    }
}

/// The pixels of `s` that are unlabelled.
pub open spec fn unlabelled(s: Seq<u16>) -> Set<int> {
    Set::new(|p: int| 0 <= p < s.len() && s[p] == u16::MAX)
}

/// The label map the intake hands on: with nothing labelled, label 0 everywhere;
/// otherwise what `w * h` rings of filling leave, by which time every pixel is labelled.
pub open spec fn filled(labels: Seq<u16>, w: int, h: int, n_labels: int) -> Seq<u16> {
    let init = read_in(labels, n_labels, w * h);
    if forall|p: int| 0 <= p < w * h ==> #[trigger] init[p] == u16::MAX {
        Seq::new((w * h) as nat, |p: int| 0u16)
    } else {
        fill_rings(init, w, h, (w * h) as nat)
    }
}

/// The neighbours of pixel `p` that lie inside the raster.
proof fn lemma_neighbours(w: int, h: int, p: int)
    requires
        w > 0,
        0 <= p < w * h,
    ensures
        p % w > 0 ==> 0 <= p - 1 < w * h,
        p % w + 1 < w ==> 0 <= p + 1 < w * h,
        p / w > 0 ==> 0 <= p - w < w * h,
        p / w + 1 < h ==> 0 <= p + w < w * h,
{
    lemma_coords(w, h, p);
    let x = p % w;
    let y = p / w;
    lemma_index(w, h, x, y);
    if x + 1 < w {
        lemma_index(w, h, x + 1, y);
    }
    if y > 0 {
        lemma_index(w, h, x, y - 1);
        assert((y - 1) * w == y * w - w) by (nonlinear_arith);
    }
    if y + 1 < h {
        lemma_index(w, h, x, y + 1);
        assert((y + 1) * w == y * w + w) by (nonlinear_arith);
    }
}

proof fn lemma_unlabelled_bound(s: Seq<u16>)
    ensures
        unlabelled(s).finite(),
        unlabelled(s).len() <= s.len(),
{
    vstd::set_lib::lemma_int_range(0, s.len() as int);
    vstd::set_lib::lemma_len_subset(unlabelled(s), vstd::set_lib::set_int_range(0, s.len() as int));
}

proof fn lemma_ring_keeps(s: Seq<u16>, w: int, h: int, bound: int)
    requires
        w > 0,
        s.len() == w * h,
        forall|p: int| 0 <= p < s.len() && s[p] != u16::MAX ==> (#[trigger] s[p] as int) < bound,
    ensures
        fill_ring(s, w, h).len() == s.len(),
        unlabelled(fill_ring(s, w, h)).subset_of(unlabelled(s)),
        forall|p: int|
            0 <= p < s.len() && fill_ring(s, w, h)[p] != u16::MAX ==> (#[trigger] fill_ring(s, w, h)[p] as int)
                < bound,
        forall|p: int| 0 <= p < s.len() && s[p] != u16::MAX ==> #[trigger] fill_ring(s, w, h)[p] == s[p],
{
    assert forall|p: int|
        0 <= p < s.len() && fill_ring(s, w, h)[p] != u16::MAX implies (#[trigger] fill_ring(s, w, h)[p] as int)
        < bound by {
        lemma_coords(w, h, p);
        if s[p] == u16::MAX {
            let x = p % w;
            let y = p / w;
            lemma_neighbours(w, h, p);
            if x > 0 && s[p - 1] != u16::MAX {
                assert(fill_ring(s, w, h)[p] == s[p - 1]);
            } else if x + 1 < w && s[p + 1] != u16::MAX {
                assert(fill_ring(s, w, h)[p] == s[p + 1]);
            } else if y > 0 && s[p - w] != u16::MAX {
                assert(fill_ring(s, w, h)[p] == s[p - w]);
            } else if y + 1 < h && s[p + w] != u16::MAX {
                assert(fill_ring(s, w, h)[p] == s[p + w]);
            }
        }
    }
}

/// Some unlabelled pixel of row `y` has a labelled neighbour, when column `a` of that row
/// is labelled and column `b` is not.
proof fn lemma_row_frontier(s: Seq<u16>, w: int, h: int, y: int, a: int, b: int)
    requires
        s.len() == w * h,
        0 <= y < h,
        0 <= a < w,
        0 <= b < w,
        s[y * w + a] != u16::MAX,
        s[y * w + b] == u16::MAX,
    ensures
        exists|p: int| 0 <= p < s.len() && s[p] == u16::MAX && #[trigger] first_neighbour(s, w, h, p) != u16::MAX,
    decreases if a < b {
        b - a
    } else {
        a - b
    },
{
    let a2 = if a < b {
        a + 1
    } else {
        a - 1
    };
    lemma_index(w, h, a2, y);
    lemma_index(w, h, a, y);
    let p = y * w + a2;
    if s[p] == u16::MAX {
        assert(first_neighbour(s, w, h, p) != u16::MAX);
    } else {
        lemma_row_frontier(s, w, h, y, a2, b);
    }
}

/// Some unlabelled pixel of column `x` has a labelled neighbour, when row `a` of that
/// column is labelled and row `b` is not.
proof fn lemma_col_frontier(s: Seq<u16>, w: int, h: int, x: int, a: int, b: int)
    requires
        s.len() == w * h,
        0 <= x < w,
        0 <= a < h,
        0 <= b < h,
        s[a * w + x] != u16::MAX,
        s[b * w + x] == u16::MAX,
    ensures
        exists|p: int| 0 <= p < s.len() && s[p] == u16::MAX && #[trigger] first_neighbour(s, w, h, p) != u16::MAX,
    decreases if a < b {
        b - a
    } else {
        a - b
    },
{
    let a2 = if a < b {
        a + 1
    } else {
        a - 1
    };
    lemma_index(w, h, x, a2);
    lemma_index(w, h, x, a);
    let p = a2 * w + x;
    assert(a2 == a + 1 ==> a2 * w == a * w + w) by (nonlinear_arith);
    assert(a2 == a - 1 ==> a2 * w == a * w - w) by (nonlinear_arith);
    if s[p] == u16::MAX {
        assert(first_neighbour(s, w, h, p) != u16::MAX);
    } else {
        lemma_col_frontier(s, w, h, x, a2, b);
    }
}

/// With some pixel labelled and some not, a ring labels at least one more.
proof fn lemma_ring_shrinks(s: Seq<u16>, w: int, h: int, l: int, u: int)
    requires
        w > 0,
        s.len() == w * h,
        0 <= l < s.len(),
        0 <= u < s.len(),
        s[l] != u16::MAX,
        s[u] == u16::MAX,
    ensures
        unlabelled(s).finite(),
        unlabelled(s).len() <= s.len(),
        unlabelled(fill_ring(s, w, h)).len() < unlabelled(s).len(),
{
    lemma_coords(w, h, l);
    lemma_coords(w, h, u);
    let (lx, ly) = (l % w, l / w);
    let (ux, uy) = (u % w, u / w);
    lemma_index(w, h, ux, ly);
    if s[ly * w + ux] == u16::MAX {
        lemma_row_frontier(s, w, h, ly, lx, ux);
    } else {
        lemma_col_frontier(s, w, h, ux, ly, uy);
    }
    let p = choose|p: int| 0 <= p < s.len() && s[p] == u16::MAX && #[trigger] first_neighbour(s, w, h, p) != u16::MAX;
    vstd::set_lib::lemma_int_range(0, s.len() as int);
    vstd::set_lib::lemma_len_subset(unlabelled(s), vstd::set_lib::set_int_range(0, s.len() as int));
    let t = fill_ring(s, w, h);
    assert(unlabelled(t).subset_of(unlabelled(s).remove(p)));
    vstd::set_lib::lemma_len_subset(unlabelled(t), unlabelled(s).remove(p));
}

/// Once nothing is unlabelled, more rings change nothing.
proof fn lemma_settled(s: Seq<u16>, w: int, h: int, k: nat, m: nat)
    requires
        k <= m,
        unlabelled(fill_rings(s, w, h, k)) =~= Set::empty(),
    ensures
        fill_rings(s, w, h, m) == fill_rings(s, w, h, k),
    decreases m,
{
    if m > k {
        lemma_settled(s, w, h, k, (m - 1) as nat);
        let t = fill_rings(s, w, h, k);
        assert forall|p: int| 0 <= p < t.len() implies t[p] != u16::MAX by {
            assert(!unlabelled(t).contains(p));
        }
        assert(fill_ring(t, w, h) =~= t);
    }
}

/// The label `fill_ring` gives pixel `p`.
fn ring_label(cur: &Vec<u16>, w: usize, h: usize, p: usize) -> (res: u16)
    requires
        w > 0,
        w * h <= usize::MAX,
        cur@.len() == w * h,
        p < w * h,
    ensures
        res == fill_ring(cur@, w as int, h as int)[p as int],
{
    if cur[p] != u16::MAX {
        return cur[p];
    }
    proof {
        lemma_coords(w as int, h as int, p as int);
        lemma_neighbours(w as int, h as int, p as int);
    }
    let x = p % w;
    let y = p / w;
    if x > 0 && cur[p - 1] != u16::MAX {
        return cur[p - 1];
    }
    if x + 1 < w && cur[p + 1] != u16::MAX {
        return cur[p + 1];
    }
    if y > 0 && cur[p - w] != u16::MAX {
        return cur[p - w];
    }
    if y + 1 < h && cur[p + w] != u16::MAX {
        return cur[p + w];
    }
    u16::MAX
}

/// Whether any pixel of `cur` is unlabelled.
fn any_unlabelled(cur: &Vec<u16>) -> (res: bool)
    ensures
        res == exists|p: int| 0 <= p < cur@.len() && cur@[p] == u16::MAX,
{
    let mut p: usize = 0;
    while p < cur.len()
        invariant
            p <= cur@.len(),
            forall|q: int| 0 <= q < p ==> cur@[q] != u16::MAX,
        decreases cur@.len() - p,
    {
        if cur[p] == u16::MAX {
            return true;
        }
        p += 1;
    }
    false
}

/// Read in the label map a caller supplied for a `w x h` raster with `n_labels` labels.
///
/// A label that names none of the labels, or a pixel past the end of `labels`, is
/// unlabelled, and unlabelled pixels are filled from their labelled 4-neighbours one ring
/// at a time (see [`fill_ring`]); with nothing labelled at all, every pixel gets label 0.
/// Every pixel comes out labelled, a pixel the caller labelled keeps its label, and every
/// label is one of the `n_labels` (label 0 when there are none).
pub fn fill_unlabelled(labels: &[u16], w: usize, h: usize, n_labels: usize) -> (res: Vec<u16>)
    requires
        w * h <= usize::MAX,
    ensures
        res@ == filled(labels@, w as int, h as int, n_labels as int),
        res@.len() == w * h,
        forall|p: int| 0 <= p < w * h ==> #[trigger] res@[p] != u16::MAX,
        forall|p: int|
            0 <= p < w * h && read_label(labels@, n_labels as int, p) != u16::MAX ==> #[trigger] res@[p]
                == labels@[p],
        forall|p: int|
            0 <= p < w * h ==> (#[trigger] res@[p] as int) < if n_labels == 0 {
                1
            } else {
                n_labels as int
            },
{
    let n = w * h;
    let ghost init = read_in(labels@, n_labels as int, n as int);
    let mut cur: Vec<u16> = Vec::new();
    let mut p: usize = 0;
    let mut any_labelled = false;
    let ghost mut seen: int = -1;
    while p < n
        invariant
            p <= n,
            n == w * h,
            init == read_in(labels@, n_labels as int, n as int),
            cur@ == init.take(p as int),
            any_labelled ==> 0 <= seen < p && init[seen] != u16::MAX,
            !any_labelled ==> forall|q: int| 0 <= q < p ==> #[trigger] init[q] == u16::MAX,
        decreases n - p,
    {
        let l = if p < labels.len() && (labels[p] as usize) < n_labels {
            labels[p]
        } else {
            u16::MAX
        };
        if l != u16::MAX && !any_labelled {
            any_labelled = true;
            proof {
                seen = p as int;
            }
        }
        cur.push(l);
        proof {
            assert(cur@ =~= init.take(p + 1));
        }
        p += 1;
    }
    proof {
        assert(cur@ =~= init);
    }
    if !any_labelled {
        let mut zeros: Vec<u16> = Vec::new();
        let mut q: usize = 0;
        while q < n
            invariant
                q <= n,
                zeros@ == Seq::new(q as nat, |p: int| 0u16),
            decreases n - q,
        {
            zeros.push(0);
            proof {
                assert(zeros@ =~= Seq::new((q + 1) as nat, |p: int| 0u16));
            }
            q += 1;
        }
        proof {
            assert forall|p: int| 0 <= p < w * h implies read_label(labels@, n_labels as int, p) == u16::MAX by {
                assert(init[p] == u16::MAX);
            }
        }
        return zeros;
    }
    proof {
        assert(w > 0) by {
            if w == 0 {
                assert(n == 0);
            }
        }
        assert forall|q: int| 0 <= q < n && init[q] != u16::MAX implies (#[trigger] init[q] as int)
            < n_labels by {}
        lemma_unlabelled_bound(cur@);
    }
    let ghost mut k: nat = 0;
    while any_unlabelled(&cur)
        invariant
            w > 0,
            n == w * h,
            cur@.len() == n,
            cur@ == fill_rings(init, w as int, h as int, k),
            0 <= seen < n,
            cur@[seen] != u16::MAX,
            unlabelled(cur@).finite(),
            unlabelled(cur@).len() + k <= n,
            forall|q: int| 0 <= q < n && cur@[q] != u16::MAX ==> (#[trigger] cur@[q] as int) < n_labels,
            forall|q: int| 0 <= q < n && init[q] != u16::MAX ==> #[trigger] cur@[q] == init[q],
        decreases unlabelled(cur@).len(),
    {
        let ghost before = cur@;
        proof {
            let u = choose|u: int| 0 <= u < before.len() && before[u] == u16::MAX;
            lemma_ring_shrinks(before, w as int, h as int, seen, u);
            lemma_ring_keeps(before, w as int, h as int, n_labels as int);
        }
        let mut next: Vec<u16> = Vec::new();
        let mut q: usize = 0;
        while q < n
            invariant
                w > 0,
                n == w * h,
                before == cur@,
                before.len() == n,
                q <= n,
                next@ == fill_ring(before, w as int, h as int).take(q as int),
            decreases n - q,
        {
            let l = ring_label(&cur, w, h, q);
            next.push(l);
            proof {
                assert(next@ =~= fill_ring(before, w as int, h as int).take(q + 1));
            }
            q += 1;
        }
        proof {
            assert(next@ =~= fill_ring(before, w as int, h as int));
            vstd::set_lib::lemma_len_subset(unlabelled(next@), unlabelled(before));
        }
        cur = next;
        proof {
            k = k + 1;
        }
    }
    proof {
        assert(unlabelled(cur@) =~= Set::empty());
        lemma_settled(init, w as int, h as int, k, n as nat);
        assert(!(forall|p: int| 0 <= p < w * h ==> #[trigger] init[p] == u16::MAX)) by {
            assert(init[seen] != u16::MAX);
        }
    }
    cur
}

} // verus!
