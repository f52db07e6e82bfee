//! The pixel grid: 4-neighbourhoods, and which pixels of a label map are one connected
//! component.
//!
//! A raster `w` pixels wide and `h` tall stores pixel `(x, y)` at index `y * w + x`. Two
//! pixels are *linked* when they are 4-neighbours carrying the same label, and *connected*
//! when a chain of links joins them. A component is named by its *first* pixel in scan
//! order, and components are numbered in the order their first pixels appear.
use vstd::prelude::*;

verus! {

/// Pixel `q` is a 4-neighbour of pixel `p`, written from `p`'s side exactly as the scans
/// step: left when `x > 0`, right when `x + 1 < w`, up when `y > 0`, down when `y + 1 < h`.
#[verifier::opaque]
pub open spec fn step(w: int, h: int, p: int, q: int) -> bool {
    &&& w > 0
    &&& 0 <= p < w * h
    &&& {
        ||| (q == p - 1 && p % w > 0)
        ||| (q == p + 1 && p % w + 1 < w)
        ||| (q == p - w && p / w > 0)
        ||| (q == p + w && p / w + 1 < h)
    }
}

/// 4-neighbours carrying one label.
pub open spec fn linked(labels: Seq<u16>, w: int, h: int, p: int, q: int) -> bool {
    step(w, h, p, q) && labels[p] == labels[q]
}

/// A chain of links.
pub open spec fn is_path(labels: Seq<u16>, w: int, h: int, path: Seq<int>) -> bool {
    &&& path.len() >= 1
    &&& forall|i: int| 0 <= i < path.len() ==> 0 <= #[trigger] path[i] < w * h
    &&& forall|i: int|
        0 <= i < path.len() - 1 ==> linked(labels, w, h, #[trigger] path[i], path[i + 1])
}

/// Pixels `p` and `q` lie in one 4-connected component of equal labels.
pub open spec fn connected(labels: Seq<u16>, w: int, h: int, p: int, q: int) -> bool {
    exists|path: Seq<int>|
        #[trigger] is_path(labels, w, h, path) && path[0] == p && path.last() == q
}

/// `m` is the first pixel, in scan order, of its component.
pub open spec fn is_first(labels: Seq<u16>, w: int, h: int, m: int) -> bool {
    &&& 0 <= m < w * h
    &&& forall|q: int| 0 <= q < m ==> !#[trigger] connected(labels, w, h, q, m)
}

/// The first pixel of `p`'s component.
pub open spec fn first_of(labels: Seq<u16>, w: int, h: int, p: int) -> int {
    choose|m: int| is_first(labels, w, h, m) && connected(labels, w, h, m, p)
}

/// How many components start before index `k`.
pub open spec fn firsts_below(labels: Seq<u16>, w: int, h: int, k: int) -> nat
    decreases k,
{
    if k <= 0 {
        0
    } else {
        firsts_below(labels, w, h, k - 1) + if is_first(labels, w, h, k - 1) {
            1nat
        } else {
            0nat
        }
    }
}

/// The number of `p`'s component: components are numbered `0, 1, ...` in the order their
/// first pixels appear in scan order.
pub open spec fn component_id(labels: Seq<u16>, w: int, h: int, p: int) -> int {
    firsts_below(labels, w, h, first_of(labels, w, h, p)) as int
}

/// How many components the label map has.
pub open spec fn component_count(labels: Seq<u16>, w: int, h: int) -> int {
    firsts_below(labels, w, h, w * h) as int
}

/// Index arithmetic of a pixel inside the raster.
pub proof fn lemma_coords(w: int, h: int, p: int)
    requires
        w > 0,
        0 <= p < w * h,
    ensures
        p == (p / w) * w + p % w,
        0 <= p % w < w,
        0 <= p / w < h,
{
    vstd::arithmetic::div_mod::lemma_fundamental_div_mod(p, w);
    vstd::arithmetic::div_mod::lemma_mod_bound(p, w);
    vstd::arithmetic::div_mod::lemma_div_pos_is_pos(p, w);
    assert((p / w) * w == w * (p / w)) by (nonlinear_arith);
    if p / w >= h {
        assert((p / w) * w >= h * w) by (nonlinear_arith)
            requires
                p / w >= h,
                w > 0,
        ;
        assert(h * w == w * h) by (nonlinear_arith);
    }
}

/// Pixel `(x, y)` sits at `y * w + x`, and reads back as `(x, y)`.
pub proof fn lemma_index(w: int, h: int, x: int, y: int)
    requires
        0 <= x < w,
        0 <= y < h,
    ensures
        0 <= y * w + x < w * h,
        (y * w + x) % w == x,
        (y * w + x) / w == y,
{
    vstd::arithmetic::div_mod::lemma_fundamental_div_mod_converse(y * w + x, w, y, x);
    assert(y * w + x < w * h) by (nonlinear_arith)
        requires
            0 <= x < w,
            0 <= y < h,
    ;
    assert(0 <= y * w) by (nonlinear_arith)
        requires
            0 <= y,
            0 < w,
    ;
}

/// The four ways to step out of a pixel.
pub proof fn lemma_step_cases(w: int, h: int, p: int, q: int)
    requires
        step(w, h, p, q),
    ensures
        w > 0,
        0 <= p < w * h,
        (q == p - 1 && p % w > 0) || (q == p + 1 && p % w + 1 < w) || (q == p - w && p / w > 0)
            || (q == p + w && p / w + 1 < h),
{
    reveal(step);
}

/// Stepping left, right, up or down from a pixel of the raster.
pub proof fn lemma_step_intro(w: int, h: int, p: int)
    requires
        w > 0,
        0 <= p < w * h,
    ensures
        p % w > 0 ==> step(w, h, p, p - 1),
        p % w + 1 < w ==> step(w, h, p, p + 1),
        p / w > 0 ==> step(w, h, p, p - w),
        p / w + 1 < h ==> step(w, h, p, p + w),
{
    reveal(step);
}

/// A step lands inside the raster, and can be taken back.
pub proof fn lemma_step_sym(w: int, h: int, p: int, q: int)
    requires
        step(w, h, p, q),
    ensures
        0 <= q < w * h,
        step(w, h, q, p),
{
    reveal(step);
    lemma_coords(w, h, p);
    let (x, y) = (p % w, p / w);
    if q == p - 1 && x > 0 {
        lemma_index(w, h, x - 1, y);
        assert(q == y * w + (x - 1));
    } else if q == p + 1 && x + 1 < w {
        lemma_index(w, h, x + 1, y);
        assert(q == y * w + (x + 1));
    } else if q == p - w && y > 0 {
        lemma_index(w, h, x, y - 1);
        assert(q == (y - 1) * w + x) by (nonlinear_arith)
            requires
                q == p - w,
                p == y * w + x,
        ;
    } else {
        lemma_index(w, h, x, y + 1);
        assert(q == (y + 1) * w + x) by (nonlinear_arith)
            requires
                q == p + w,
                p == y * w + x,
        ;
    }
}

pub proof fn lemma_linked_sym(labels: Seq<u16>, w: int, h: int, p: int, q: int)
    requires
        linked(labels, w, h, p, q),
    ensures
        linked(labels, w, h, q, p),
        0 <= q < w * h,
{
    lemma_step_sym(w, h, p, q);
}

pub proof fn lemma_connected_refl(labels: Seq<u16>, w: int, h: int, p: int)
    requires
        0 <= p < w * h,
    ensures
        connected(labels, w, h, p, p),
{
    let path = seq![p];
    assert(is_path(labels, w, h, path));
}

pub proof fn lemma_connected_linked(labels: Seq<u16>, w: int, h: int, p: int, q: int)
    requires
        linked(labels, w, h, p, q),
    ensures
        connected(labels, w, h, p, q),
{
    lemma_step_cases(w, h, p, q);
    lemma_linked_sym(labels, w, h, p, q);
    let path = seq![p, q];
    assert(is_path(labels, w, h, path));
}

/// Both ends of a connection are pixels of the raster.
pub proof fn lemma_connected_range(labels: Seq<u16>, w: int, h: int, p: int, q: int)
    requires
        connected(labels, w, h, p, q),
    ensures
        0 <= p < w * h,
        0 <= q < w * h,
{
    let path = choose|path: Seq<int>|
        #[trigger] is_path(labels, w, h, path) && path[0] == p && path.last() == q;
    assert(0 <= path[0] < w * h);
    assert(0 <= path[path.len() - 1] < w * h);
}

/// A connection holds one label throughout.
pub proof fn lemma_connected_label(labels: Seq<u16>, w: int, h: int, p: int, q: int)
    requires
        connected(labels, w, h, p, q),
    ensures
        labels[p] == labels[q],
{
    let path = choose|path: Seq<int>|
        #[trigger] is_path(labels, w, h, path) && path[0] == p && path.last() == q;
    assert forall|i: int| 0 <= i < path.len() implies labels[#[trigger] path[i]] == labels[p] by {
        lemma_path_label(labels, w, h, path, i);
    }
    assert(labels[path[path.len() - 1]] == labels[p]);
}

proof fn lemma_path_label(labels: Seq<u16>, w: int, h: int, path: Seq<int>, i: int)
    requires
        is_path(labels, w, h, path),
        0 <= i < path.len(),
    ensures
        labels[path[i]] == labels[path[0]],
    decreases i,
{
    if i > 0 {
        lemma_path_label(labels, w, h, path, i - 1);
        assert(linked(labels, w, h, path[i - 1], path[i - 1 + 1]));
    }
}

pub proof fn lemma_connected_sym(labels: Seq<u16>, w: int, h: int, p: int, q: int)
    requires
        connected(labels, w, h, p, q),
    ensures
        connected(labels, w, h, q, p),
{
    let path = choose|path: Seq<int>|
        #[trigger] is_path(labels, w, h, path) && path[0] == p && path.last() == q;
    let rev = path.reverse();
    assert forall|i: int| 0 <= i < rev.len() - 1 implies linked(
        labels,
        w,
        h,
        #[trigger] rev[i],
        rev[i + 1],
    ) by {
        let j = path.len() - 2 - i;
        assert(linked(labels, w, h, path[j], path[j + 1]));
        lemma_linked_sym(labels, w, h, path[j], path[j + 1]);
    }
    assert(is_path(labels, w, h, rev));
    assert(rev[0] == q);
    assert(rev.last() == p);
}

pub proof fn lemma_connected_trans(labels: Seq<u16>, w: int, h: int, p: int, q: int, r: int)
    requires
        connected(labels, w, h, p, q),
        connected(labels, w, h, q, r),
    ensures
        connected(labels, w, h, p, r),
{
    let a = choose|path: Seq<int>|
        #[trigger] is_path(labels, w, h, path) && path[0] == p && path.last() == q;
    let b = choose|path: Seq<int>|
        #[trigger] is_path(labels, w, h, path) && path[0] == q && path.last() == r;
    let c = a + b.drop_first();
    assert forall|i: int| 0 <= i < c.len() implies 0 <= #[trigger] c[i] < w * h by {
        if i < a.len() {
            assert(c[i] == a[i]);
        } else {
            assert(c[i] == b[i - a.len() + 1]);
        }
    }
    assert forall|i: int| 0 <= i < c.len() - 1 implies linked(
        labels,
        w,
        h,
        #[trigger] c[i],
        c[i + 1],
    ) by {
        if i < a.len() - 1 {
            assert(c[i] == a[i] && c[i + 1] == a[i + 1]);
        } else if i == a.len() - 1 {
            assert(c[i] == a[a.len() - 1]);
            assert(c[i] == b[0]);
            assert(c[i + 1] == b[1]);
            assert(linked(labels, w, h, b[0], b[0int + 1]));
        } else {
            let j = i - a.len() + 1;
            assert(c[i] == b[j] && c[i + 1] == b[j + 1]);
        }
    }
    assert(is_path(labels, w, h, c));
    assert(c[0] == p);
    if b.len() == 1 {
        assert(c.last() == a.last());
    } else {
        assert(c.last() == b.last());
    }
}

/// A set of pixels closed under links holds everything connected to any of its pixels.
pub proof fn lemma_closed_set(labels: Seq<u16>, w: int, h: int, s: Set<int>, p: int, q: int)
    requires
        s.contains(p),
        forall|a: int, b: int| s.contains(a) && #[trigger] linked(labels, w, h, a, b) ==> s.contains(b),
        connected(labels, w, h, p, q),
    ensures
        s.contains(q),
{
    let path = choose|path: Seq<int>|
        #[trigger] is_path(labels, w, h, path) && path[0] == p && path.last() == q;
    lemma_closed_path(labels, w, h, s, path, path.len() - 1);
}

proof fn lemma_closed_path(labels: Seq<u16>, w: int, h: int, s: Set<int>, path: Seq<int>, i: int)
    requires
        is_path(labels, w, h, path),
        s.contains(path[0]),
        forall|a: int, b: int| s.contains(a) && #[trigger] linked(labels, w, h, a, b) ==> s.contains(b),
        0 <= i < path.len(),
    ensures
        s.contains(path[i]),
    decreases i,
{
    if i > 0 {
        lemma_closed_path(labels, w, h, s, path, i - 1);
        assert(linked(labels, w, h, path[i - 1], path[i - 1 + 1]));
    }
}

/// Every pixel has a first pixel of its component, no later than itself.
pub proof fn lemma_first_of(labels: Seq<u16>, w: int, h: int, p: int)
    requires
        0 <= p < w * h,
    ensures
        is_first(labels, w, h, first_of(labels, w, h, p)),
        connected(labels, w, h, first_of(labels, w, h, p), p),
        first_of(labels, w, h, p) <= p,
{
    let m = lemma_first_witness(labels, w, h, p);
    let f = first_of(labels, w, h, p);
    lemma_first_unique(labels, w, h, m, f, p);
}

proof fn lemma_first_witness(labels: Seq<u16>, w: int, h: int, p: int) -> (m: int)
    requires
        0 <= p < w * h,
    ensures
        is_first(labels, w, h, m),
        connected(labels, w, h, m, p),
        m <= p,
    decreases p,
{
    if is_first(labels, w, h, p) {
        lemma_connected_refl(labels, w, h, p);
        p
    } else {
        let q = choose|q: int| 0 <= q < p && #[trigger] connected(labels, w, h, q, p);
        let m = lemma_first_witness(labels, w, h, q);
        lemma_connected_trans(labels, w, h, m, q, p);
        m
    }
}

/// A component has one first pixel.
pub proof fn lemma_first_unique(labels: Seq<u16>, w: int, h: int, a: int, b: int, p: int)
    requires
        is_first(labels, w, h, a),
        is_first(labels, w, h, b),
        connected(labels, w, h, a, p),
        connected(labels, w, h, b, p),
    ensures
        a == b,
{
    lemma_connected_sym(labels, w, h, b, p);
    lemma_connected_trans(labels, w, h, a, p, b);
    lemma_connected_sym(labels, w, h, a, b);
    if a < b {
        assert(!connected(labels, w, h, a, b));
    } else if b < a {
        assert(!connected(labels, w, h, b, a));
    }
}

/// Connected pixels share their first pixel.
pub proof fn lemma_same_first(labels: Seq<u16>, w: int, h: int, p: int, q: int)
    requires
        connected(labels, w, h, p, q),
    ensures
        first_of(labels, w, h, p) == first_of(labels, w, h, q),
{
    lemma_connected_range(labels, w, h, p, q);
    lemma_first_of(labels, w, h, p);
    lemma_first_of(labels, w, h, q);
    lemma_connected_trans(labels, w, h, first_of(labels, w, h, p), p, q);
    lemma_first_unique(labels, w, h, first_of(labels, w, h, p), first_of(labels, w, h, q), q);
}

/// The first pixel of a component is its own first pixel.
pub proof fn lemma_first_of_first(labels: Seq<u16>, w: int, h: int, m: int)
    requires
        is_first(labels, w, h, m),
    ensures
        first_of(labels, w, h, m) == m,
{
    lemma_connected_refl(labels, w, h, m);
    lemma_first_of(labels, w, h, m);
    lemma_first_unique(labels, w, h, m, first_of(labels, w, h, m), m);
}

pub proof fn lemma_firsts_mono(labels: Seq<u16>, w: int, h: int, a: int, b: int)
    requires
        a <= b,
    ensures
        firsts_below(labels, w, h, a) <= firsts_below(labels, w, h, b),
    decreases b - a,
{
    if a < b {
        lemma_firsts_mono(labels, w, h, a, b - 1);
    }
}

pub proof fn lemma_firsts_bound(labels: Seq<u16>, w: int, h: int, k: int)
    requires
        0 <= k,
    ensures
        firsts_below(labels, w, h, k) <= k,
    decreases k,
{
    if k > 0 {
        lemma_firsts_bound(labels, w, h, k - 1);
    }
}

/// Two different firsts get two different numbers.
pub proof fn lemma_firsts_strict(labels: Seq<u16>, w: int, h: int, a: int, b: int)
    requires
        is_first(labels, w, h, a),
        a < b,
    ensures
        firsts_below(labels, w, h, a) < firsts_below(labels, w, h, b),
{
    lemma_firsts_mono(labels, w, h, a + 1, b);
}

/// Below every count of firsts there is the first that count was reached at.
proof fn lemma_first_numbered(labels: Seq<u16>, w: int, h: int, c: int, k: int) -> (m: int)
    requires
        0 <= c < firsts_below(labels, w, h, k),
    ensures
        0 <= m < k,
        is_first(labels, w, h, m),
        firsts_below(labels, w, h, m) == c,
    decreases k,
{
    if c < firsts_below(labels, w, h, k - 1) {
        lemma_first_numbered(labels, w, h, c, k - 1)
    } else {
        k - 1
    }
}

/// Every number below the component count is the number of some pixel's component.
pub proof fn lemma_component_onto(labels: Seq<u16>, w: int, h: int, c: int) -> (p: int)
    requires
        0 <= c < component_count(labels, w, h),
    ensures
        0 <= p < w * h,
        component_id(labels, w, h, p) == c,
{
    let m = lemma_first_numbered(labels, w, h, c, w * h);
    lemma_first_of_first(labels, w, h, m);
    m
}

/// Component numbers are `0..component_count`, and equal exactly for connected pixels.
pub proof fn lemma_component_id(labels: Seq<u16>, w: int, h: int, p: int, q: int)
    requires
        0 <= p < w * h,
        0 <= q < w * h,
    ensures
        0 <= component_id(labels, w, h, p) < component_count(labels, w, h),
        component_id(labels, w, h, p) == component_id(labels, w, h, q) <==> connected(
            labels,
            w,
            h,
            p,
            q,
        ),
{
    lemma_first_of(labels, w, h, p);
    lemma_first_of(labels, w, h, q);
    let (fp, fq) = (first_of(labels, w, h, p), first_of(labels, w, h, q));
    lemma_firsts_strict(labels, w, h, fp, w * h);
    if connected(labels, w, h, p, q) {
        lemma_same_first(labels, w, h, p, q);
    }
    if fp < fq {
        lemma_firsts_strict(labels, w, h, fp, fq);
    } else if fq < fp {
        lemma_firsts_strict(labels, w, h, fq, fp);
    } else {
        lemma_connected_sym(labels, w, h, fp, p);
        lemma_connected_trans(labels, w, h, p, fp, q);
    }
}

} // verus!
