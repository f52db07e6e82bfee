//! The dual grid: boundary segments between pixel corners, and the corners they meet at.
//!
//! Node `(i, j)`, with `i` in `0..=w` and `j` in `0..=h`, is the corner above and to the
//! left of pixel `(i, j)`. A vertical segment from `(i, j)` down to `(i, j + 1)` separates
//! pixel `(i - 1, j)` from `(i, j)`; a horizontal one from `(i, j)` right to `(i + 1, j)`
//! separates pixel `(i, j - 1)` from `(i, j)`. Pixels outside the raster carry the virtual
//! background `u16::MAX`, so shapes touching the border still close.
use vstd::prelude::*;

use super::{label_at, label_at_spec, node_id};

verus! {

/// A boundary segment on the dual grid, separating two pixels of differing label.
/// Walking from `a` to `b`, `left` lies to the left and `right` to the right.
#[derive(Clone, Copy)]
pub struct Seg {
    pub a: u32,
    pub b: u32,
    pub left: u16,
    pub right: u16,
}

/// The id of node `(i, j)`.
pub open spec fn nid(w: int, i: int, j: int) -> int {
    j * (w + 1) + i
}

/// The vertical segment down from node `(i, j)` separates pixels of different labels.
pub open spec fn vpresent(labels: Seq<u16>, w: int, h: int, i: int, j: int) -> bool {
    0 <= i <= w && 0 <= j < h && label_at_spec(labels, w, h, i - 1, j) != label_at_spec(
        labels,
        w,
        h,
        i,
        j,
    )
}

/// The horizontal segment right from node `(i, j)` separates pixels of different labels.
pub open spec fn hpresent(labels: Seq<u16>, w: int, h: int, i: int, j: int) -> bool {
    0 <= i < w && 0 <= j <= h && label_at_spec(labels, w, h, i, j - 1) != label_at_spec(
        labels,
        w,
        h,
        i,
        j,
    )
}

/// The vertical segment down from node `(i, j)`: walking down, pixel `(i, j)` is on the
/// left.
pub open spec fn vseg(labels: Seq<u16>, w: int, h: int, i: int, j: int) -> Seg {
    Seg {
        a: nid(w, i, j) as u32,
        b: nid(w, i, j + 1) as u32,
        left: label_at_spec(labels, w, h, i, j),
        right: label_at_spec(labels, w, h, i - 1, j),
    }
}

/// The horizontal segment right from node `(i, j)`: walking right, the pixel above is on
/// the left.
pub open spec fn hseg(labels: Seq<u16>, w: int, h: int, i: int, j: int) -> Seg {
    Seg {
        a: nid(w, i, j) as u32,
        b: nid(w, i + 1, j) as u32,
        left: label_at_spec(labels, w, h, i, j - 1),
        right: label_at_spec(labels, w, h, i, j),
    }
}

/// Where a segment comes from: vertical or horizontal, and its first node.
pub type Origin = (bool, int, int);

/// The order segments are listed in: all vertical ones, then all horizontal ones, each
/// row by row.
pub open spec fn origin_lt(x: Origin, y: Origin) -> bool {
    (x.0 && !y.0) || (x.0 == y.0 && (x.2 < y.2 || (x.2 == y.2 && x.1 < y.1)))
}

/// The segment a present origin stands for.
pub open spec fn seg_of(labels: Seq<u16>, w: int, h: int, o: Origin) -> Seg {
    if o.0 {
        vseg(labels, w, h, o.1, o.2)
    } else {
        hseg(labels, w, h, o.1, o.2)
    }
}

/// An origin that is a segment of the map.
pub open spec fn present(labels: Seq<u16>, w: int, h: int, o: Origin) -> bool {
    if o.0 {
        vpresent(labels, w, h, o.1, o.2)
    } else {
        hpresent(labels, w, h, o.1, o.2)
    }
}

/// `segs` are the map's segments, listed in order, each with its origin.
pub open spec fn segs_ok(labels: Seq<u16>, w: int, h: int, segs: Seq<Seg>, origin: Seq<Origin>) -> bool {
    &&& origin.len() == segs.len()
    &&& forall|k: int|
        0 <= k < segs.len() ==> present(labels, w, h, #[trigger] origin[k]) && segs[k] == seg_of(
            labels,
            w,
            h,
            origin[k],
        )
    &&& forall|k1: int, k2: int| 0 <= k1 < k2 < segs.len() ==> origin_lt(origin[k1], origin[k2])
    &&& forall|o: Origin|
        #[trigger] present(labels, w, h, o) ==> exists|k: int| 0 <= k < segs.len() && origin[k] == o
}

/// The segments `segs` list so far: those before `(v, i, j)` in order.
pub open spec fn listed_before(
    labels: Seq<u16>,
    w: int,
    h: int,
    segs: Seq<Seg>,
    origin: Seq<Origin>,
    cur: Origin,
) -> bool {
    &&& origin.len() == segs.len()
    &&& forall|k: int|
        0 <= k < segs.len() ==> present(labels, w, h, #[trigger] origin[k]) && segs[k] == seg_of(
            labels,
            w,
            h,
            origin[k],
        ) && origin_lt(origin[k], cur)
    &&& forall|k1: int, k2: int| 0 <= k1 < k2 < segs.len() ==> origin_lt(origin[k1], origin[k2])
    &&& forall|o: Origin|
        #[trigger] present(labels, w, h, o) && origin_lt(o, cur) ==> exists|k: int|
            0 <= k < segs.len() && origin[k] == o
}

/// Every segment of the label map, vertical ones first, each row by row.
pub fn boundary_segs(labels: &[u16], w: usize, h: usize) -> (res: (Vec<Seg>, Ghost<Seq<Origin>>))
    requires
        w * h <= labels@.len(),
        2 * ((w + 1) * (h + 1)) <= u32::MAX,
    ensures
        segs_ok(labels@, w as int, h as int, res.0@, res.1@),
{
    let ghost (lab, wi, hi) = (labels@, w as int, h as int);
    let mut segs: Vec<Seg> = Vec::new();
    let ghost mut origin: Seq<Origin> = Seq::empty();
    proof {
        assert((w + 1) * (h + 1) <= u32::MAX);
        assert(w + 1 <= (w + 1) * (h + 1) && h + 1 <= (w + 1) * (h + 1)) by (nonlinear_arith);
        assert(w <= isize::MAX && h <= isize::MAX);
    }
    let mut j: usize = 0;
    while j < h
        invariant
            lab == labels@,
            wi == w,
            hi == h,
            w * h <= lab.len(),
            2 * ((w + 1) * (h + 1)) <= u32::MAX,
            w <= isize::MAX,
            h <= isize::MAX,
            j <= h,
            listed_before(lab, wi, hi, segs@, origin, (true, 0, j as int)),
        decreases h - j,
    {
        let mut i: usize = 0;
        while i <= w
            invariant
                lab == labels@,
                wi == w,
                hi == h,
                w * h <= lab.len(),
                2 * ((w + 1) * (h + 1)) <= u32::MAX,
                w <= isize::MAX,
                h <= isize::MAX,
                j < h,
                i <= w + 1,
                listed_before(lab, wi, hi, segs@, origin, (true, i as int, j as int)),
            decreases w + 1 - i,
        {
            let l = label_at(labels, w, h, i as isize - 1, j as isize);
            let r = label_at(labels, w, h, i as isize, j as isize);
            proof {
                assert((j + 1) * (w + 1) + i <= (w + 1) * (h + 1)) by (nonlinear_arith)
                    requires
                        j < h,
                        i <= w,
                ;
                assert(j * (w + 1) + i <= (j + 1) * (w + 1) + i) by (nonlinear_arith);
            }
            if l != r {
                let s = Seg { a: node_id(i, j, w), b: node_id(i, j + 1, w), left: r, right: l };
                let ghost s0 = segs@;
                let ghost o0 = origin;
                segs.push(s);
                proof {
                    origin = origin.push((true, i as int, j as int));
                    assert(s == vseg(lab, wi, hi, i as int, j as int));
                    assert forall|k: int| 0 <= k < segs@.len() implies present(lab, wi, hi, #[trigger] origin[k])
                        && segs@[k] == seg_of(lab, wi, hi, origin[k]) && origin_lt(
                        origin[k],
                        (true, i + 1, j as int),
                    ) by {
                        if k < s0.len() {
                            assert(origin[k] == o0[k]);
                            assert(segs@[k] == s0[k]);
                        }
                    }
                    assert forall|o: Origin|
                        #[trigger] present(lab, wi, hi, o) && origin_lt(o, (true, i + 1, j as int)) implies exists|k: int|
                        0 <= k < segs@.len() && origin[k] == o by {
                        if o == (true, i as int, j as int) {
                            assert(origin[s0.len() as int] == o);
                        } else {
                            let k = choose|k: int| 0 <= k < o0.len() && o0[k] == o;
                            assert(origin[k] == o);
                        }
                    }
                }
            } else {
                proof {
                    assert forall|o: Origin|
                        #[trigger] present(lab, wi, hi, o) && origin_lt(o, (true, i + 1, j as int)) implies exists|k: int|
                        0 <= k < segs@.len() && origin[k] == o by {
                        if o == (true, i as int, j as int) {
                            assert(!vpresent(lab, wi, hi, i as int, j as int));
                        }
                    }
                }
            }
            i += 1;
        }
        proof {
            assert forall|o: Origin|
                #[trigger] present(lab, wi, hi, o) && origin_lt(o, (true, 0, j + 1)) implies exists|k: int|
                0 <= k < segs@.len() && origin[k] == o by {
                assert(origin_lt(o, (true, (w + 1) as int, j as int)));
            }
        }
        j += 1;
    }
    proof {
        assert forall|o: Origin|
            #[trigger] present(lab, wi, hi, o) && origin_lt(o, (false, 0, 0)) implies exists|k: int|
            0 <= k < segs@.len() && origin[k] == o by {
            assert(origin_lt(o, (true, 0, h as int)));
        }
    }
    let mut j: usize = 0;
    while j <= h
        invariant
            lab == labels@,
            wi == w,
            hi == h,
            w * h <= lab.len(),
            2 * ((w + 1) * (h + 1)) <= u32::MAX,
            w <= isize::MAX,
            h <= isize::MAX,
            j <= h + 1,
            listed_before(lab, wi, hi, segs@, origin, (false, 0, j as int)),
        decreases h + 1 - j,
    {
        let mut i: usize = 0;
        while i < w
            invariant
                lab == labels@,
                wi == w,
                hi == h,
                w * h <= lab.len(),
                2 * ((w + 1) * (h + 1)) <= u32::MAX,
                w <= isize::MAX,
                h <= isize::MAX,
                j <= h,
                i <= w,
                listed_before(lab, wi, hi, segs@, origin, (false, i as int, j as int)),
            decreases w - i,
        {
            let u = label_at(labels, w, h, i as isize, j as isize - 1);
            let d = label_at(labels, w, h, i as isize, j as isize);
            proof {
                assert(j * (w + 1) + i + 1 <= (w + 1) * (h + 1)) by (nonlinear_arith)
                    requires
                        j <= h,
                        i < w,
                ;
            }
            if u != d {
                let s = Seg { a: node_id(i, j, w), b: node_id(i + 1, j, w), left: u, right: d };
                let ghost s0 = segs@;
                let ghost o0 = origin;
                segs.push(s);
                proof {
                    origin = origin.push((false, i as int, j as int));
                    assert(s == hseg(lab, wi, hi, i as int, j as int));
                    assert forall|k: int| 0 <= k < segs@.len() implies present(lab, wi, hi, #[trigger] origin[k])
                        && segs@[k] == seg_of(lab, wi, hi, origin[k]) && origin_lt(
                        origin[k],
                        (false, i + 1, j as int),
                    ) by {
                        if k < s0.len() {
                            assert(origin[k] == o0[k]);
                            assert(segs@[k] == s0[k]);
                        }
                    }
                    assert forall|o: Origin|
                        #[trigger] present(lab, wi, hi, o) && origin_lt(o, (false, i + 1, j as int)) implies exists|k: int|
                        0 <= k < segs@.len() && origin[k] == o by {
                        if o == (false, i as int, j as int) {
                            assert(origin[s0.len() as int] == o);
                        } else {
                            let k = choose|k: int| 0 <= k < o0.len() && o0[k] == o;
                            assert(origin[k] == o);
                        }
                    }
                }
            } else {
                proof {
                    assert forall|o: Origin|
                        #[trigger] present(lab, wi, hi, o) && origin_lt(o, (false, i + 1, j as int)) implies exists|k: int|
                        0 <= k < segs@.len() && origin[k] == o by {
                        if o == (false, i as int, j as int) {
                            assert(!hpresent(lab, wi, hi, i as int, j as int));
                        }
                    }
                }
            }
            i += 1;
        }
        proof {
            assert forall|o: Origin|
                #[trigger] present(lab, wi, hi, o) && origin_lt(o, (false, 0, j + 1)) implies exists|k: int|
                0 <= k < segs@.len() && origin[k] == o by {
                assert(origin_lt(o, (false, w as int, j as int)));
            }
        }
        j += 1;
    }
    proof {
        assert forall|o: Origin| #[trigger] present(lab, wi, hi, o) implies exists|k: int|
            0 <= k < segs@.len() && origin[k] == o by {
            assert(origin_lt(o, (false, 0, h + 1)));
        }
    }
    (segs, Ghost(origin))
}

/// Segment `k` has an end at node `n`.
pub open spec fn touches(segs: Seq<Seg>, k: int, n: int) -> bool {
    segs[k].a == n || segs[k].b == n
}

/// `inc[n]` lists, in increasing order, the segments with an end at node `n`.
pub open spec fn incidence_ok(segs: Seq<Seg>, inc: Seq<Vec<usize>>, nn: int) -> bool {
    &&& inc.len() == nn
    &&& forall|n: int, t1: int, t2: int|
        0 <= n < nn && 0 <= t1 < t2 < inc[n]@.len() ==> inc[n]@[t1] < inc[n]@[t2]
    &&& forall|n: int, t: int|
        0 <= n < nn && 0 <= t < inc[n]@.len() ==> (#[trigger] inc[n]@[t] as int) < segs.len() && touches(
            segs,
            inc[n]@[t] as int,
            n,
        )
    &&& forall|n: int, k: int|
        0 <= n < nn && 0 <= k < segs.len() && #[trigger] touches(segs, k, n) ==> inc[n]@.contains(
            k as usize,
        )
}

/// Which segments meet at each node.
pub fn incidence(segs: &Vec<Seg>, nn: usize) -> (inc: Vec<Vec<usize>>)
    requires
        forall|k: int| 0 <= k < segs@.len() ==> (#[trigger] segs@[k].a) < nn && segs@[k].b < nn && segs@[k].a
            != segs@[k].b,
    ensures
        incidence_ok(segs@, inc@, nn as int),
{
    let mut inc: Vec<Vec<usize>> = Vec::new();
    let mut n: usize = 0;
    while n < nn
        invariant
            n <= nn,
            inc@.len() == n,
            forall|m: int| 0 <= m < n ==> (#[trigger] inc@[m])@.len() == 0,
        decreases nn - n,
    {
        inc.push(Vec::new());
        n += 1;
    }
    let mut k: usize = 0;
    while k < segs.len()
        invariant
            forall|q: int| 0 <= q < segs@.len() ==> (#[trigger] segs@[q].a) < nn && segs@[q].b < nn
                && segs@[q].a != segs@[q].b,
            k <= segs@.len(),
            inc@.len() == nn,
            forall|m: int, t1: int, t2: int|
                0 <= m < nn && 0 <= t1 < t2 < inc@[m]@.len() ==> inc@[m]@[t1] < inc@[m]@[t2],
            forall|m: int, t: int|
                0 <= m < nn && 0 <= t < inc@[m]@.len() ==> (#[trigger] inc@[m]@[t] as int) < k && touches(
                    segs@,
                    inc@[m]@[t] as int,
                    m,
                ),
            forall|m: int, q: int|
                0 <= m < nn && 0 <= q < k && #[trigger] touches(segs@, q, m) ==> inc@[m]@.contains(
                    q as usize,
                ),
        decreases segs@.len() - k,
    {
        let s = segs[k];
        let ghost i0 = inc@;
        inc[s.a as usize].push(k);
        let ghost i1 = inc@;
        inc[s.b as usize].push(k);
        proof {
            assert forall|m: int| 0 <= m < nn implies (#[trigger] inc@[m])@ == if m == s.a || m == s.b {
                i0[m]@.push(k)
            } else {
                i0[m]@
            } by {
                if m == s.a {
                    assert(i1[m]@ == i0[m]@.push(k));
                }
            }
            assert forall|m: int, q: int|
                0 <= m < nn && 0 <= q < k + 1 && #[trigger] touches(segs@, q, m) implies inc@[m]@.contains(
                q as usize,
            ) by {
                if q < k {
                    assert(i0[m]@.contains(q as usize));
                    let t = choose|t: int| 0 <= t < i0[m]@.len() && i0[m]@[t] == q as usize;
                    assert(inc@[m]@[t] == q as usize);
                } else {
                    assert(inc@[m]@[inc@[m]@.len() - 1] == k);
                }
            }
        }
        k += 1;
    }
    inc
}

/// Node ids of grid corners are distinct.
pub proof fn lemma_nid_injective(w: int, h: int, i1: int, j1: int, i2: int, j2: int)
    requires
        0 <= i1 <= w,
        0 <= i2 <= w,
        nid(w, i1, j1) == nid(w, i2, j2),
    ensures
        i1 == i2,
        j1 == j2,
{
    vstd::arithmetic::div_mod::lemma_fundamental_div_mod_converse(nid(w, i1, j1), w + 1, j1, i1);
    vstd::arithmetic::div_mod::lemma_fundamental_div_mod_converse(nid(w, i2, j2), w + 1, j2, i2);
}

/// Reading a node id back: its column and row.
pub proof fn lemma_nid_coords(w: int, i: int, j: int)
    requires
        0 <= i <= w,
    ensures
        nid(w, i, j) % (w + 1) == i,
        nid(w, i, j) / (w + 1) == j,
{
    vstd::arithmetic::div_mod::lemma_fundamental_div_mod_converse(nid(w, i, j), w + 1, j, i);
}

/// The four segments that can meet at node `(i, j)`, in the order they are listed: the
/// one above, the one below, the one to the left, the one to the right.
pub open spec fn corner_origin(i: int, j: int, c: int) -> Origin {
    if c == 0 {
        (true, i, j - 1)
    } else if c == 1 {
        (true, i, j)
    } else if c == 2 {
        (false, i - 1, j)
    } else {
        (false, i, j)
    }
}

/// All four segments meet at node `(i, j)`.
pub open spec fn four_way(labels: Seq<u16>, w: int, h: int, i: int, j: int) -> bool {
    forall|c: int| 0 <= c < 4 ==> #[trigger] present(labels, w, h, corner_origin(i, j, c))
}

/// A segment of the map with an end at node `(i, j)` is one of its four.
proof fn lemma_corner_rank(labels: Seq<u16>, w: int, h: int, o: Origin, i: int, j: int) -> (c: int)
    requires
        present(labels, w, h, o),
        0 <= i <= w,
        0 <= j <= h,
        2 * ((w + 1) * (h + 1)) <= u32::MAX,
        seg_of(labels, w, h, o).a == nid(w, i, j) || seg_of(labels, w, h, o).b == nid(w, i, j),
    ensures
        0 <= c < 4,
        o == corner_origin(i, j, c),
{
    let (v, i0, j0) = o;
    assert(0 <= nid(w, i, j) < (w + 1) * (h + 1)) by (nonlinear_arith)
        requires
            0 <= i <= w,
            0 <= j <= h,
    ;
    if v {
        assert(0 <= nid(w, i0, j0 + 1) < (w + 1) * (h + 1)) by (nonlinear_arith)
            requires
                0 <= i0 <= w,
                0 <= j0 < h,
        ;
        assert(0 <= nid(w, i0, j0) < (w + 1) * (h + 1)) by (nonlinear_arith)
            requires
                0 <= i0 <= w,
                0 <= j0 < h,
        ;
        if seg_of(labels, w, h, o).a == nid(w, i, j) {
            lemma_nid_injective(w, h, i0, j0, i, j);
            1
        } else {
            lemma_nid_injective(w, h, i0, j0 + 1, i, j);
            0
        }
    } else {
        assert(0 <= nid(w, i0 + 1, j0) < (w + 1) * (h + 1)) by (nonlinear_arith)
            requires
                0 <= i0 < w,
                0 <= j0 <= h,
        ;
        assert(0 <= nid(w, i0, j0) < (w + 1) * (h + 1)) by (nonlinear_arith)
            requires
                0 <= i0 < w,
                0 <= j0 <= h,
        ;
        if seg_of(labels, w, h, o).a == nid(w, i, j) {
            lemma_nid_injective(w, h, i0, j0, i, j);
            3
        } else {
            lemma_nid_injective(w, h, i0 + 1, j0, i, j);
            2
        }
    }
}

/// Each of a node's four segments, when present, has an end there.
proof fn lemma_corner_touch(labels: Seq<u16>, w: int, h: int, i: int, j: int, c: int)
    requires
        0 <= c < 4,
        present(labels, w, h, corner_origin(i, j, c)),
        0 <= i <= w,
        0 <= j <= h,
        2 * ((w + 1) * (h + 1)) <= u32::MAX,
    ensures
        seg_of(labels, w, h, corner_origin(i, j, c)).a == nid(w, i, j) || seg_of(
            labels,
            w,
            h,
            corner_origin(i, j, c),
        ).b == nid(w, i, j),
{
    assert(0 <= nid(w, i, j) < (w + 1) * (h + 1)) by (nonlinear_arith)
        requires
            0 <= i <= w,
            0 <= j <= h,
    ;
}

/// A node's segments, as the incidence lists hold them: each is one of its four, listed in
/// order, and each of the four that is present is listed.
proof fn lemma_corner_ranks(
    labels: Seq<u16>,
    w: int,
    h: int,
    segs: Seq<Seg>,
    origin: Seq<Origin>,
    l: Seq<usize>,
    i: int,
    j: int,
) -> (rank: spec_fn(int) -> int)
    requires
        segs_ok(labels, w, h, segs, origin),
        forall|t1: int, t2: int| 0 <= t1 < t2 < l.len() ==> l[t1] < l[t2],
        forall|t: int|
            0 <= t < l.len() ==> (#[trigger] l[t] as int) < segs.len() && touches(segs, l[t] as int, nid(w, i, j)),
        0 <= i <= w,
        0 <= j <= h,
        2 * ((w + 1) * (h + 1)) <= u32::MAX,
    ensures
        forall|t: int|
            0 <= t < l.len() ==> 0 <= #[trigger] rank(t) < 4 && origin[l[t] as int] == corner_origin(i, j, rank(t)),
        forall|t1: int, t2: int| 0 <= t1 < t2 < l.len() ==> #[trigger] rank(t1) < #[trigger] rank(t2),
{
    let rank = |t: int| choose|c: int| 0 <= c < 4 && origin[l[t] as int] == corner_origin(i, j, c);
    assert forall|t: int| 0 <= t < l.len() implies 0 <= #[trigger] rank(t) < 4 && origin[l[t] as int]
        == corner_origin(i, j, rank(t)) by {
        let k = l[t] as int;
        assert(present(labels, w, h, origin[k]));
        let c = lemma_corner_rank(labels, w, h, origin[k], i, j);
    }
    assert forall|t1: int, t2: int| 0 <= t1 < t2 < l.len() implies #[trigger] rank(t1) < #[trigger] rank(t2) by {
        assert(l[t1] < l[t2]);
        assert(origin_lt(origin[l[t1] as int], origin[l[t2] as int]));
        assert(0 <= rank(t1) < 4 && 0 <= rank(t2) < 4);
    }
    rank
}

/// Where a present one of a node's four segments sits in its incidence list.
proof fn lemma_corner_pos(
    labels: Seq<u16>,
    w: int,
    h: int,
    segs: Seq<Seg>,
    origin: Seq<Origin>,
    l: Seq<usize>,
    i: int,
    j: int,
    rank: spec_fn(int) -> int,
    c: int,
) -> (t: int)
    requires
        segs_ok(labels, w, h, segs, origin),
        forall|k: int|
            0 <= k < segs.len() && #[trigger] touches(segs, k, nid(w, i, j)) ==> l.contains(k as usize),
        forall|t: int|
            0 <= t < l.len() ==> 0 <= #[trigger] rank(t) < 4 && origin[l[t] as int] == corner_origin(i, j, rank(t)),
        0 <= c < 4,
        present(labels, w, h, corner_origin(i, j, c)),
        0 <= i <= w,
        0 <= j <= h,
        2 * ((w + 1) * (h + 1)) <= u32::MAX,
        segs.len() <= usize::MAX,
    ensures
        0 <= t < l.len(),
        rank(t) == c,
{
    let k = choose|k: int| 0 <= k < segs.len() && origin[k] == corner_origin(i, j, c);
    lemma_corner_touch(labels, w, h, i, j, c);
    assert(touches(segs, k, nid(w, i, j)));
    assert(l.contains(k as usize));
    let t = choose|t: int| 0 <= t < l.len() && l[t] == k as usize;
    assert(origin[l[t] as int] == corner_origin(i, j, rank(t)));
    assert(corner_origin(i, j, rank(t)) == corner_origin(i, j, c));
    t
}

/// The segments listed at node `(i, j)`: four exactly when all four meet there, and then
/// the one above, below, left and right, in that order.
pub proof fn lemma_corner_list(
    labels: Seq<u16>,
    w: int,
    h: int,
    segs: Seq<Seg>,
    origin: Seq<Origin>,
    inc: Seq<Vec<usize>>,
    i: int,
    j: int,
)
    requires
        segs_ok(labels, w, h, segs, origin),
        incidence_ok(segs, inc, (w + 1) * (h + 1)),
        0 <= i <= w,
        0 <= j <= h,
        2 * ((w + 1) * (h + 1)) <= u32::MAX,
        segs.len() <= usize::MAX,
    ensures
        0 <= nid(w, i, j) < (w + 1) * (h + 1),
        (inc[nid(w, i, j)]@.len() == 4) == four_way(labels, w, h, i, j),
        four_way(labels, w, h, i, j) ==> forall|c: int|
            0 <= c < 4 ==> origin[#[trigger] inc[nid(w, i, j)]@[c] as int] == corner_origin(i, j, c),
{
    let n = nid(w, i, j);
    assert(0 <= n < (w + 1) * (h + 1)) by (nonlinear_arith)
        requires
            0 <= i <= w,
            0 <= j <= h,
            n == nid(w, i, j),
    ;
    let l = inc[n]@;
    let rank = lemma_corner_ranks(labels, w, h, segs, origin, l, i, j);
    if l.len() > 4 {
        assert(rank(0) < rank(1) < rank(2) < rank(3) < rank(4));
    }
    if l.len() == 4 {
        assert(rank(0) < rank(1) < rank(2) < rank(3));
        assert forall|c: int| 0 <= c < 4 implies #[trigger] present(labels, w, h, corner_origin(i, j, c)) by {
            assert(rank(c) == c);
            assert(present(labels, w, h, origin[l[c] as int]));
        }
    }
    if four_way(labels, w, h, i, j) {
        assert(forall|c: int| 0 <= c < 4 ==> #[trigger] present(labels, w, h, corner_origin(i, j, c)));
        let p0 = lemma_corner_pos(labels, w, h, segs, origin, l, i, j, rank, 0);
        let p1 = lemma_corner_pos(labels, w, h, segs, origin, l, i, j, rank, 1);
        let p2 = lemma_corner_pos(labels, w, h, segs, origin, l, i, j, rank, 2);
        let p3 = lemma_corner_pos(labels, w, h, segs, origin, l, i, j, rank, 3);
        let pos = seq![p0, p1, p2, p3];
        assert(pos[0] < pos[1]) by {
            if pos[0] > pos[1] {
                assert(rank(pos[1]) < rank(pos[0]));
            }
        }
        assert(pos[1] < pos[2]) by {
            if pos[1] > pos[2] {
                assert(rank(pos[2]) < rank(pos[1]));
            }
        }
        assert(pos[2] < pos[3]) by {
            if pos[2] > pos[3] {
                assert(rank(pos[3]) < rank(pos[2]));
            }
        }
        assert(l.len() == 4);
        assert(rank(0) < rank(1) < rank(2) < rank(3));
        assert forall|c: int| 0 <= c < 4 implies origin[#[trigger] l[c] as int] == corner_origin(i, j, c) by {
            assert(rank(c) == c);
        }
    }
}

/// Node `(i, j)` is a four-way corner at which exactly one diagonal of its four pixels is
/// one face.
pub open spec fn saddle(labels: Seq<u16>, w: int, h: int, i: int, j: int) -> bool {
    &&& 0 <= i <= w
    &&& 0 <= j <= h
    &&& four_way(labels, w, h, i, j)
    &&& (label_at_spec(labels, w, h, i - 1, j - 1) == label_at_spec(labels, w, h, i, j)) != (
    label_at_spec(labels, w, h, i, j - 1) == label_at_spec(labels, w, h, i - 1, j))
}

/// At node `(i, j)`, the pixels above right and below left are one face.
pub open spec fn ne_sw(labels: Seq<u16>, w: int, h: int, i: int, j: int) -> bool {
    label_at_spec(labels, w, h, i, j - 1) == label_at_spec(labels, w, h, i - 1, j)
}

/// The corner at node `(i, j)` is split: a saddle, unless its copy would go to the
/// segment to its left and the saddle just left of it has already moved that segment's
/// other end.
pub open spec fn split_at(labels: Seq<u16>, w: int, h: int, i: int, j: int) -> bool {
    saddle(labels, w, h, i, j) && (ne_sw(labels, w, h, i, j) || !(saddle(labels, w, h, i - 1, j)
        && ne_sw(labels, w, h, i - 1, j)))
}

/// Node `(i1, j1)` comes before node `(i2, j2)`, row by row.
pub open spec fn node_lt(i1: int, j1: int, i2: int, j2: int) -> bool {
    j1 < j2 || (j1 == j2 && i1 < i2)
}

/// The first end of segment `o` has moved to its copy once the nodes before `(ci, cj)`
/// are split: it is the segment below a split corner, or the one to its right when the
/// pixels above right and below left are one face.
pub open spec fn moved_a(labels: Seq<u16>, w: int, h: int, o: Origin, ci: int, cj: int) -> bool {
    node_lt(o.1, o.2, ci, cj) && split_at(labels, w, h, o.1, o.2) && (o.0 || ne_sw(labels, w, h, o.1, o.2))
}

/// The second end of segment `o` has moved to its copy once the nodes before `(ci, cj)`
/// are split: it is the segment to the left of a split corner whose pixels above left and
/// below right are one face.
pub open spec fn moved_b(labels: Seq<u16>, w: int, h: int, o: Origin, ci: int, cj: int) -> bool {
    !o.0 && node_lt(o.1 + 1, o.2, ci, cj) && split_at(labels, w, h, o.1 + 1, o.2) && !ne_sw(
        labels,
        w,
        h,
        o.1 + 1,
        o.2,
    )
}

/// Segment `o` once the nodes before `(ci, cj)` are split.
pub open spec fn split_seg(labels: Seq<u16>, w: int, h: int, o: Origin, ci: int, cj: int) -> Seg {
    let s = seg_of(labels, w, h, o);
    let plane = (w + 1) * (h + 1);
    Seg {
        a: if moved_a(labels, w, h, o, ci, cj) {
            (s.a + plane) as u32
        } else {
            s.a
        },
        b: if moved_b(labels, w, h, o, ci, cj) {
            (s.b + plane) as u32
        } else {
            s.b
        },
        left: s.left,
        right: s.right,
    }
}

/// The ends of a present segment are two nodes of the grid.
pub proof fn lemma_seg_nodes(labels: Seq<u16>, w: int, h: int, o: Origin)
    requires
        present(labels, w, h, o),
        2 * ((w + 1) * (h + 1)) <= u32::MAX,
    ensures
        0 <= nid(w, o.1, o.2) < (w + 1) * (h + 1),
        seg_of(labels, w, h, o).a == nid(w, o.1, o.2),
        o.0 ==> seg_of(labels, w, h, o).b == nid(w, o.1, o.2 + 1) && 0 <= nid(w, o.1, o.2 + 1) < (w
            + 1) * (h + 1),
        !o.0 ==> seg_of(labels, w, h, o).b == nid(w, o.1 + 1, o.2) && 0 <= nid(w, o.1 + 1, o.2) < (w
            + 1) * (h + 1),
        seg_of(labels, w, h, o).a != seg_of(labels, w, h, o).b,
        o.0 ==> seg_of(labels, w, h, o).b == seg_of(labels, w, h, o).a + w + 1,
        !o.0 ==> seg_of(labels, w, h, o).b == seg_of(labels, w, h, o).a + 1,
        0 <= o.1 <= w,
        !o.0 ==> o.1 < w,
{
    let (v, i, j) = o;
    assert(nid(w, i, j + 1) == nid(w, i, j) + w + 1) by (nonlinear_arith);
    if v {
        assert(0 <= nid(w, i, j) && nid(w, i, j) < nid(w, i, j + 1) && nid(w, i, j + 1) < (w + 1) * (h
            + 1)) by (nonlinear_arith)
            requires
                0 <= i <= w,
                0 <= j < h,
        ;
    } else {
        assert(0 <= nid(w, i, j) && nid(w, i, j) < nid(w, i + 1, j) && nid(w, i + 1, j) < (w + 1) * (h
            + 1)) by (nonlinear_arith)
            requires
                0 <= i < w,
                0 <= j <= h,
        ;
    }
}

/// A node that is not split leaves every segment as it was.
proof fn lemma_split_skip(labels: Seq<u16>, w: int, h: int, o: Origin, i: int, j: int)
    requires
        !split_at(labels, w, h, i, j),
    ensures
        split_seg(labels, w, h, o, i + 1, j) == split_seg(labels, w, h, o, i, j),
{
}

/// Past the last node of a row is the first node of the next.
proof fn lemma_split_row(labels: Seq<u16>, w: int, h: int, o: Origin, j: int)
    requires
        present(labels, w, h, o),
    ensures
        split_seg(labels, w, h, o, w + 1, j) == split_seg(labels, w, h, o, 0, j + 1),
{
}

/// A moved node id is the same corner one grid further on.
proof fn lemma_copy_coords(w: int, h: int, i: int, j: int)
    requires
        0 <= i <= w,
        0 <= h,
    ensures
        nid(w, i, j) + (w + 1) * (h + 1) == nid(w, i, j + h + 1),
        (nid(w, i, j) + (w + 1) * (h + 1)) % (w + 1) == i,
        (nid(w, i, j) + (w + 1) * (h + 1)) / (w + 1) == j + h + 1,
{
    assert(nid(w, i, j) + (w + 1) * (h + 1) == nid(w, i, j + h + 1)) by (nonlinear_arith);
    lemma_nid_coords(w, i, j + h + 1);
}

/// Move the end of segment `k` that is at node `at` to the node's copy.
fn move_end(segs: &mut Vec<Seg>, k: usize, at: u32, plane: u32)
    requires
        k < old(segs)@.len(),
        old(segs)@[k as int].a == at ==> old(segs)@[k as int].a + plane <= u32::MAX,
        old(segs)@[k as int].a != at ==> old(segs)@[k as int].b + plane <= u32::MAX,
    ensures
        final(segs)@ == old(segs)@.update(
            k as int,
            if old(segs)@[k as int].a == at {
                Seg { a: (old(segs)@[k as int].a + plane) as u32, ..old(segs)@[k as int] }
            } else {
                Seg { b: (old(segs)@[k as int].b + plane) as u32, ..old(segs)@[k as int] }
            },
        ),
{
    let mut s = segs[k];
    if s.a == at {
        s.a = s.a + plane;
    } else {
        s.b = s.b + plane;
    }
    segs.set(k, s);
}

/// Where four pixels meet at a corner and one diagonal is a single face, give the other
/// two pixels' boundaries their own copy of that corner.
///
/// Such a node is where four segments meet, so walking the boundaries would stop there
/// once for each shape that touches it, and the two shapes on the cut diagonal would be
/// welded at one point. Each dual segment separates a known pair of the four pixels: when
/// the pixels above right and below left are one face, the segments to the right and below
/// are the whole of the lower right pixel's boundary at the corner, and they take the copy;
/// when the pixels above left and below right are one face, the segments to the left and
/// below take it. A copy's id is one whole grid further on. A corner whose diagonals are
/// both one face, or neither, is left alone: still a junction.
pub fn split_corners(
    segs: &mut Vec<Seg>,
    labels: &[u16],
    w: usize,
    h: usize,
    Ghost(origin): Ghost<Seq<Origin>>,
)
    requires
        segs_ok(labels@, w as int, h as int, old(segs)@, origin),
        w * h <= labels@.len(),
        2 * ((w + 1) * (h + 1)) <= u32::MAX,
    ensures
        final(segs)@.len() == old(segs)@.len(),
        forall|k: int|
            0 <= k < final(segs)@.len() ==> #[trigger] final(segs)@[k] == split_seg(
                labels@,
                w as int,
                h as int,
                origin[k],
                0,
                h + 1,
            ),
{
    let ghost (lab, wi, hi) = (labels@, w as int, h as int);
    let ghost segs0 = segs@;
    proof {
        assert(segs0.len() == segs.len());
        assert((w + 1) * (h + 1) <= u32::MAX);
        assert(w + 1 <= (w + 1) * (h + 1) && h + 1 <= (w + 1) * (h + 1)) by (nonlinear_arith);
        assert forall|k: int| 0 <= k < segs@.len() implies (#[trigger] segs@[k].a) < (w + 1) * (h + 1)
            && segs@[k].b < (w + 1) * (h + 1) && segs@[k].a != segs@[k].b by {
            assert(present(lab, wi, hi, origin[k]));
            lemma_seg_nodes(lab, wi, hi, origin[k]);
        }
    }
    let plane = ((w + 1) * (h + 1)) as u32;
    let by_node = incidence(segs, plane as usize);
    proof {
        assert forall|k: int| 0 <= k < segs@.len() implies #[trigger] segs@[k] == split_seg(
            lab,
            wi,
            hi,
            origin[k],
            0,
            0,
        ) by {
            assert(present(lab, wi, hi, origin[k]));
        }
    }
    let mut j: usize = 0;
    while j <= h
        invariant
            lab == labels@,
            wi == w,
            hi == h,
            w * h <= lab.len(),
            2 * ((w + 1) * (h + 1)) <= u32::MAX,
            plane == (w + 1) * (h + 1),
            w <= isize::MAX,
            h <= isize::MAX,
            segs_ok(lab, wi, hi, segs0, origin),
            segs0.len() <= usize::MAX,
            incidence_ok(segs0, by_node@, plane as int),
            j <= h + 1,
            segs@.len() == segs0.len(),
            forall|k: int|
                0 <= k < segs@.len() ==> #[trigger] segs@[k] == split_seg(lab, wi, hi, origin[k], 0, j as int),
        decreases h + 1 - j,
    {
        let mut i: usize = 0;
        while i <= w
            invariant
                lab == labels@,
                wi == w,
                hi == h,
                w * h <= lab.len(),
                2 * ((w + 1) * (h + 1)) <= u32::MAX,
                plane == (w + 1) * (h + 1),
                w <= isize::MAX,
                h <= isize::MAX,
                segs_ok(lab, wi, hi, segs0, origin),
                segs0.len() <= usize::MAX,
                incidence_ok(segs0, by_node@, plane as int),
                j <= h,
                i <= w + 1,
                segs@.len() == segs0.len(),
                forall|k: int|
                    0 <= k < segs@.len() ==> #[trigger] segs@[k] == split_seg(
                        lab,
                        wi,
                        hi,
                        origin[k],
                        i as int,
                        j as int,
                    ),
            decreases w + 1 - i,
        {
            proof {
                assert(j * (w + 1) + i < (w + 1) * (h + 1)) by (nonlinear_arith)
                    requires
                        i <= w,
                        j <= h,
                ;
            }
            let at = node_id(i, j, w);
            proof {
                lemma_corner_list(lab, wi, hi, segs0, origin, by_node@, i as int, j as int);
            }
            let here = &by_node[at as usize];
            if here.len() != 4 {
                proof {
                    assert forall|k: int| 0 <= k < segs@.len() implies #[trigger] segs@[k] == split_seg(
                        lab,
                        wi,
                        hi,
                        origin[k],
                        i + 1,
                        j as int,
                    ) by {
                        lemma_split_skip(lab, wi, hi, origin[k], i as int, j as int);
                    }
                }
                i += 1;
                continue;
            }
            let nw = label_at(labels, w, h, i as isize - 1, j as isize - 1);
            let ne = label_at(labels, w, h, i as isize, j as isize - 1);
            let sw = label_at(labels, w, h, i as isize - 1, j as isize);
            let se = label_at(labels, w, h, i as isize, j as isize);
            if (nw == se) == (ne == sw) {
                proof {
                    assert forall|k: int| 0 <= k < segs@.len() implies #[trigger] segs@[k] == split_seg(
                        lab,
                        wi,
                        hi,
                        origin[k],
                        i + 1,
                        j as int,
                    ) by {
                        lemma_split_skip(lab, wi, hi, origin[k], i as int, j as int);
                    }
                }
                i += 1;
                continue;
            }
            // A saddle: name its four segments by where their far end lies.
            let ghost (ii, jj) = (i as int, j as int);
            let ghost l = here@;
            let ghost moved_above = split_at(lab, wi, hi, ii, jj - 1);
            let ghost blocked = saddle(lab, wi, hi, ii - 1, jj) && ne_sw(lab, wi, hi, ii - 1, jj);
            proof {
                assert(four_way(lab, wi, hi, ii, jj));
                assert(saddle(lab, wi, hi, ii, jj));
                assert forall|c: int| 0 <= c < 4 implies #[trigger] present(lab, wi, hi, corner_origin(ii, jj, c)) by {}
                assert(present(lab, wi, hi, corner_origin(ii, jj, 0)));
                assert(present(lab, wi, hi, corner_origin(ii, jj, 3)));
                assert(present(lab, wi, hi, corner_origin(ii, jj, 2)));
                assert(1 <= ii < w && 1 <= jj < h);
            }
            let mut left: Option<usize> = None;
            let mut right: Option<usize> = None;
            let mut below: Option<usize> = None;
            let mut t: usize = 0;
            while t < here.len()
                invariant
                    lab == labels@,
                    wi == w,
                    hi == h,
                    2 * ((w + 1) * (h + 1)) <= u32::MAX,
                    plane == (w + 1) * (h + 1),
                    w <= isize::MAX,
                    segs_ok(lab, wi, hi, segs0, origin),
                    l == here@,
                    l.len() == 4,
                    ii == i,
                    jj == j,
                    1 <= ii < w,
                    1 <= jj < h,
                    at == nid(wi, ii, jj),
                    forall|c: int| 0 <= c < 4 ==> origin[#[trigger] l[c] as int] == corner_origin(ii, jj, c),
                    forall|c: int| 0 <= c < 4 ==> (#[trigger] l[c] as int) < segs@.len(),
                    segs@.len() == segs0.len(),
                    forall|k: int|
                        0 <= k < segs@.len() ==> #[trigger] segs@[k] == split_seg(lab, wi, hi, origin[k], ii, jj),
                    moved_above == split_at(lab, wi, hi, ii, jj - 1),
                    blocked == (saddle(lab, wi, hi, ii - 1, jj) && ne_sw(lab, wi, hi, ii - 1, jj)),
                    t <= 4,
                    right == if t >= 4 {
                        Some(l[3])
                    } else {
                        None::<usize>
                    },
                    left == if t >= 3 && !blocked {
                        Some(l[2])
                    } else {
                        None::<usize>
                    },
                    below == if t >= 2 {
                        Some(l[1])
                    } else if t >= 1 && moved_above {
                        Some(l[0])
                    } else {
                        None::<usize>
                    },
                decreases 4 - t,
            {
                let k = here[t];
                let s = segs[k];
                let other = if s.a == at {
                    s.b
                } else {
                    s.a
                };
                let oi = (other as usize) % (w + 1);
                let oj = (other as usize) / (w + 1);
                proof {
                    let o = corner_origin(ii, jj, t as int);
                    assert(origin[k as int] == o);
                    assert(present(lab, wi, hi, o));
                    lemma_seg_nodes(lab, wi, hi, o);
                    assert(s == split_seg(lab, wi, hi, o, ii, jj));
                    if t == 0 {
                        lemma_nid_coords(wi, ii, jj - 1);
                        lemma_copy_coords(wi, hi, ii, jj - 1);
                        assert(s.b == at);
                        assert(nid(wi, ii, jj - 1) != at);
                        assert(nid(wi, ii, jj - 1) + plane != at);
                    } else if t == 1 {
                        lemma_nid_coords(wi, ii, jj + 1);
                    } else if t == 2 {
                        lemma_nid_coords(wi, ii - 1, jj);
                        lemma_copy_coords(wi, hi, ii - 1, jj);
                        assert(nid(wi, ii - 1, jj) != at);
                        assert(nid(wi, ii - 1, jj) + plane != at);
                        assert(moved_a(lab, wi, hi, o, ii, jj) == blocked);
                    } else {
                        lemma_nid_coords(wi, ii + 1, jj);
                    }
                }
                if oj == j && oi > i {
                    right = Some(k);
                } else if oj == j && oi < i {
                    left = Some(k);
                } else if oi == i && oj > j {
                    below = Some(k);
                }
                t += 1;
            }
            let moved = if ne == sw {
                (right, below)
            } else {
                (left, below)
            };
            let ghost before = segs@;
            match moved {
                (Some(p0), Some(p1)) => {
                    proof {
                        assert(p0 != p1);
                        lemma_seg_nodes(lab, wi, hi, corner_origin(ii, jj, 1));
                        lemma_seg_nodes(lab, wi, hi, corner_origin(ii, jj, 2));
                        lemma_seg_nodes(lab, wi, hi, corner_origin(ii, jj, 3));
                        assert(segs@[l[1] as int] == split_seg(lab, wi, hi, corner_origin(ii, jj, 1), ii, jj));
                        assert(segs@[l[2] as int] == split_seg(lab, wi, hi, corner_origin(ii, jj, 2), ii, jj));
                        assert(segs@[l[3] as int] == split_seg(lab, wi, hi, corner_origin(ii, jj, 3), ii, jj));
                    }
                    move_end(segs, p0, at, plane);
                    move_end(segs, p1, at, plane);
                    proof {
                        assert(split_at(lab, wi, hi, ii, jj));
                        assert forall|k: int| 0 <= k < segs@.len() implies #[trigger] segs@[k] == split_seg(
                            lab,
                            wi,
                            hi,
                            origin[k],
                            ii + 1,
                            jj,
                        ) by {
                            let o = origin[k];
                            assert(present(lab, wi, hi, o));
                            lemma_seg_nodes(lab, wi, hi, o);
                            if k == l[1] || k == l[2] || k == l[3] {
                            } else {
                                assert(segs@[k] == before[k]);
                                if o == corner_origin(ii, jj, 1) {
                                    assert(origin_lt(origin[k], origin[l[1] as int]) || origin_lt(
                                        origin[l[1] as int],
                                        origin[k],
                                    ));
                                }
                                if o == corner_origin(ii, jj, 2) {
                                    assert(origin_lt(origin[k], origin[l[2] as int]) || origin_lt(
                                        origin[l[2] as int],
                                        origin[k],
                                    ));
                                }
                                if o == corner_origin(ii, jj, 3) {
                                    assert(origin_lt(origin[k], origin[l[3] as int]) || origin_lt(
                                        origin[l[3] as int],
                                        origin[k],
                                    ));
                                }
                            }
                        }
                    }
                },
                _ => {
                    proof {
                        assert(!split_at(lab, wi, hi, ii, jj));
                        assert forall|k: int| 0 <= k < segs@.len() implies #[trigger] segs@[k] == split_seg(
                            lab,
                            wi,
                            hi,
                            origin[k],
                            ii + 1,
                            jj,
                        ) by {
                            lemma_split_skip(lab, wi, hi, origin[k], ii, jj);
                        }
                    }
                },
            }
            i += 1;
        }
        proof {
            assert forall|k: int| 0 <= k < segs@.len() implies #[trigger] segs@[k] == split_seg(
                lab,
                wi,
                hi,
                origin[k],
                0,
                j + 1,
            ) by {
                assert(present(lab, wi, hi, origin[k]));
                lemma_split_row(lab, wi, hi, origin[k], j as int);
            }
        }
        j += 1;
    }
}

/// Segment `o` of the finished map: every corner split.
pub open spec fn map_seg(labels: Seq<u16>, w: int, h: int, o: Origin) -> Seg {
    split_seg(labels, w, h, o, 0, h + 1)
}

/// Segment `s` runs between nodes `x` and `y`, one way or the other.
pub open spec fn joins(s: Seg, x: int, y: int) -> bool {
    (s.a == x && s.b == y) || (s.a == y && s.b == x)
}

/// A node id, or its copy, folded back onto the grid.
proof fn lemma_fold(x: int, p: int)
    requires
        0 <= x < p,
    ensures
        x % p == x,
        (x + p) % p == x,
{
    vstd::arithmetic::div_mod::lemma_fundamental_div_mod_converse(x, p, 0, x);
    vstd::arithmetic::div_mod::lemma_fundamental_div_mod_converse(x + p, p, 1, x);
}

/// The ends of a finished segment: its grid ends, each possibly moved to its copy; a
/// segment never has both ends moved, and its ends are two different nodes below twice the
/// grid.
pub proof fn lemma_map_seg_ends(labels: Seq<u16>, w: int, h: int, o: Origin)
    requires
        present(labels, w, h, o),
        2 * ((w + 1) * (h + 1)) <= u32::MAX,
    ensures
        ({
            let s = seg_of(labels, w, h, o);
            let m = map_seg(labels, w, h, o);
            let p = (w + 1) * (h + 1);
            &&& 0 <= s.a < s.b < p
            &&& m.a == s.a || m.a == s.a + p
            &&& m.b == s.b || m.b == s.b + p
            &&& (m.a as int) % p == s.a
            &&& (m.b as int) % p == s.b
            &&& m.a != m.b
            &&& m.a < 2 * p
            &&& m.b < 2 * p
            &&& m.left == s.left
            &&& m.right == s.right
            &&& s.left != s.right
        }),
{
    lemma_seg_nodes(labels, w, h, o);
    let s = seg_of(labels, w, h, o);
    let p = (w + 1) * (h + 1);
    lemma_fold(s.a as int, p);
    lemma_fold(s.b as int, p);
    if !o.0 && moved_a(labels, w, h, o, 0, h + 1) {
        assert(saddle(labels, w, h, o.1, o.2) && ne_sw(labels, w, h, o.1, o.2));
        assert(!moved_b(labels, w, h, o, 0, h + 1));
    }
    assert(s.left != s.right);
}

/// Two present segments whose finished ends are the same two nodes are one segment.
pub proof fn lemma_ends_determine_segment(labels: Seq<u16>, w: int, h: int, o1: Origin, o2: Origin, x: int, y: int)
    requires
        present(labels, w, h, o1),
        present(labels, w, h, o2),
        2 * ((w + 1) * (h + 1)) <= u32::MAX,
        joins(map_seg(labels, w, h, o1), x, y),
        joins(map_seg(labels, w, h, o2), x, y),
    ensures
        o1 == o2,
{
    lemma_map_seg_ends(labels, w, h, o1);
    lemma_map_seg_ends(labels, w, h, o2);
    lemma_seg_nodes(labels, w, h, o1);
    lemma_seg_nodes(labels, w, h, o2);
    let s1 = seg_of(labels, w, h, o1);
    let s2 = seg_of(labels, w, h, o2);
    let p = (w + 1) * (h + 1);
    // Folded, both segments run between the same two grid nodes, the smaller first.
    assert((x as int) % p == s1.a || (x as int) % p == s1.b);
    assert(s1.a == s2.a && s1.b == s2.b);
    if o1.0 != o2.0 {
        assert(w == 0);
    }
    if o1.0 {
        lemma_nid_injective(w, h, o1.1, o1.2, o2.1, o2.2);
    } else {
        lemma_nid_injective(w, h, o1.1, o1.2, o2.1, o2.2);
    }
}


/// Leaving node `n` along segment `s`, the face on the left.
pub open spec fn leave_left(s: Seg, n: int) -> u16 {
    if s.a == n {
        s.left
    } else {
        s.right
    }
}

/// Leaving node `n` along segment `s`, the face on the right.
pub open spec fn leave_right(s: Seg, n: int) -> u16 {
    if s.a == n {
        s.right
    } else {
        s.left
    }
}

/// Two segments leaving node `n` bound the same faces there: the face left of each is
/// the face right of the other.
pub open spec fn turn_ok(s1: Seg, s2: Seg, n: int) -> bool {
    leave_left(s1, n) == leave_right(s2, n) && leave_left(s2, n) == leave_right(s1, n)
}

/// The finished segment `o` has an end at node `n`.
pub open spec fn map_touch(labels: Seq<u16>, w: int, h: int, o: Origin, n: int) -> bool {
    map_seg(labels, w, h, o).a == n || map_seg(labels, w, h, o).b == n
}

/// A node of the finished map where exactly two segments meet: the faces on either side
/// carry on through it.
pub proof fn lemma_pass_sides(labels: Seq<u16>, w: int, h: int, o1: Origin, o2: Origin, n: int)
    requires
        2 * ((w + 1) * (h + 1)) <= u32::MAX,
        present(labels, w, h, o1),
        present(labels, w, h, o2),
        o1 != o2,
        map_touch(labels, w, h, o1, n),
        map_touch(labels, w, h, o2, n),
        forall|o: Origin|
            present(labels, w, h, o) && #[trigger] map_touch(labels, w, h, o, n) ==> o == o1 || o == o2,
    ensures
        turn_ok(map_seg(labels, w, h, o1), map_seg(labels, w, h, o2), n),
{
    let p = (w + 1) * (h + 1);
    lemma_map_seg_ends(labels, w, h, o1);
    lemma_map_seg_ends(labels, w, h, o2);
    let g = n % p;
    let s1 = seg_of(labels, w, h, o1);
    assert(g == s1.a || g == s1.b);
    let i = g % (w + 1);
    let j = g / (w + 1);
    assert(0 <= g < p);
    vstd::arithmetic::div_mod::lemma_fundamental_div_mod(g, w + 1);
    assert(0 <= i <= w);
    assert(0 <= j <= h) by {
        if j > h {
            assert((w + 1) * j >= (w + 1) * (h + 1)) by (nonlinear_arith)
                requires
                    j > h,
                    w >= 0,
            ;
        }
    }
    assert(g == nid(w, i, j)) by (nonlinear_arith)
        requires
            g == (w + 1) * j + i,
    ;
    let c1 = lemma_corner_rank(labels, w, h, o1, i, j);
    let c2 = lemma_corner_rank(labels, w, h, o2, i, j);
    let up = corner_origin(i, j, 0);
    let down = corner_origin(i, j, 1);
    let lt = corner_origin(i, j, 2);
    let rt = corner_origin(i, j, 3);
    let nw = label_at_spec(labels, w, h, i - 1, j - 1);
    let ne = label_at_spec(labels, w, h, i, j - 1);
    let sw = label_at_spec(labels, w, h, i - 1, j);
    let se = label_at_spec(labels, w, h, i, j);
    assert(present(labels, w, h, up) == (nw != ne));
    assert(present(labels, w, h, down) == (sw != se));
    assert(present(labels, w, h, lt) == (nw != sw));
    assert(present(labels, w, h, rt) == (ne != se));
    // Where each of the four finished segments has its end at the corner.
    assert(nid(w, i, j - 1) == g - (w + 1) && nid(w, i, j + 1) == g + (w + 1)) by (nonlinear_arith)
        requires
            g == nid(w, i, j),
    ;
    let split = split_at(labels, w, h, i, j);
    let cross = ne_sw(labels, w, h, i, j);
    if present(labels, w, h, up) {
        lemma_map_seg_ends(labels, w, h, up);
        assert(map_seg(labels, w, h, up).b == g);
        assert(map_seg(labels, w, h, up).a != n);
    }
    if present(labels, w, h, down) {
        lemma_map_seg_ends(labels, w, h, down);
        assert(map_seg(labels, w, h, down).a == if split { g + p } else { g });
        assert(map_seg(labels, w, h, down).b != n);
    }
    if present(labels, w, h, lt) {
        lemma_map_seg_ends(labels, w, h, lt);
        assert(map_seg(labels, w, h, lt).b == if split && !cross { g + p } else { g });
        assert(map_seg(labels, w, h, lt).a != n);
    }
    if present(labels, w, h, rt) {
        lemma_map_seg_ends(labels, w, h, rt);
        assert(map_seg(labels, w, h, rt).a == if split && cross { g + p } else { g });
        assert(map_seg(labels, w, h, rt).b != n);
    }
    assert(present(labels, w, h, up) && map_touch(labels, w, h, up, n) ==> up == o1 || up == o2);
    assert(present(labels, w, h, down) && map_touch(labels, w, h, down, n) ==> down == o1 || down == o2);
    assert(present(labels, w, h, lt) && map_touch(labels, w, h, lt, n) ==> lt == o1 || lt == o2);
    assert(present(labels, w, h, rt) && map_touch(labels, w, h, rt, n) ==> rt == o1 || rt == o2);
    if split {
        assert(present(labels, w, h, corner_origin(i, j, 0)));
        assert(present(labels, w, h, corner_origin(i, j, 1)));
        assert(present(labels, w, h, corner_origin(i, j, 2)));
        assert(present(labels, w, h, corner_origin(i, j, 3)));
    }
}

} // verus!
