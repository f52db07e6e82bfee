//! Blend slivers: thin components that may be anti-aliasing between inks.
//!
//! A component is a sliver candidate when it is thin (fewer than one pixel in five is
//! interior) and touches other components, and when its three most-touched neighbouring
//! labels account for at least four fifths of its contacts. Whether its pixels are then
//! blends of those inks is a colour question answered elsewhere; here is the tally it is
//! answered against.
use vstd::prelude::*;

use crate::grid::{lemma_coords, lemma_index};

verus! {

/// The `d`-th 4-neighbour of pixel `p` (left, right, up, down), when it is in the raster.
pub open spec fn nbr(w: int, h: int, p: int, d: int) -> Option<int> {
    let (x, y) = (p % w, p / w);
    if d == 0 {
        if x > 0 {
            Some(p - 1)
        } else {
            None
        }
    } else if d == 1 {
        if x + 1 < w {
            Some(p + 1)
        } else {
            None
        }
    } else if d == 2 {
        if y > 0 {
            Some(p - w)
        } else {
            None
        }
    } else {
        if y + 1 < h {
            Some(p + w)
        } else {
            None
        }
    }
}

/// Neighbour `d` of `p` is in the raster and outside component `id`.
pub open spec fn leaves(comp: Seq<u32>, w: int, h: int, id: u32, p: int, d: int) -> bool {
    match nbr(w, h, p, d) {
        Some(q) => comp[q] != id,
        None => false,
    }
}

/// Neighbour `d` of `p` leaves component `id` into a pixel of label `l`.
pub open spec fn touches(labels: Seq<u16>, comp: Seq<u32>, w: int, h: int, id: u32, p: int, d: int, l: int) -> bool {
    leaves(comp, w, h, id, p, d) && labels[nbr(w, h, p, d)->0] as int == l
}

/// How many of the first `d` neighbours of `p` leave the component into label `l`.
pub open spec fn pixel_contacts(labels: Seq<u16>, comp: Seq<u32>, w: int, h: int, id: u32, p: int, l: int, d: int) -> nat
    decreases d,
{
    if d <= 0 {
        0
    } else {
        pixel_contacts(labels, comp, w, h, id, p, l, d - 1) + if touches(labels, comp, w, h, id, p, d - 1, l) {
            1nat
        } else {
            0nat
        }
    }
}

/// How many of the first `d` neighbours of `p` leave the component.
pub open spec fn pixel_foreign(comp: Seq<u32>, w: int, h: int, id: u32, p: int, d: int) -> nat
    decreases d,
{
    if d <= 0 {
        0
    } else {
        pixel_foreign(comp, w, h, id, p, d - 1) + if leaves(comp, w, h, id, p, d - 1) {
            1nat
        } else {
            0nat
        }
    }
}

/// Contacts with label `l` over the first `i` pixels of `group`.
pub open spec fn contacts(labels: Seq<u16>, comp: Seq<u32>, w: int, h: int, id: u32, group: Seq<usize>, l: int, i: int) -> nat
    decreases i,
{
    if i <= 0 {
        0
    } else {
        contacts(labels, comp, w, h, id, group, l, i - 1) + pixel_contacts(labels, comp, w, h, id, group[i - 1] as int, l, 4)
    }
}

/// Contacts with anything outside the component over the first `i` pixels of `group`.
pub open spec fn foreign(comp: Seq<u32>, w: int, h: int, id: u32, group: Seq<usize>, i: int) -> nat
    decreases i,
{
    if i <= 0 {
        0
    } else {
        foreign(comp, w, h, id, group, i - 1) + pixel_foreign(comp, w, h, id, group[i - 1] as int, 4)
    }
}

/// How many of the first `i` pixels of `group` have no neighbour outside the component.
pub open spec fn interior(comp: Seq<u32>, w: int, h: int, id: u32, group: Seq<usize>, i: int) -> nat
    decreases i,
{
    if i <= 0 {
        0
    } else {
        interior(comp, w, h, id, group, i - 1) + if pixel_foreign(comp, w, h, id, group[i - 1] as int, 4) == 0 {
            1nat
        } else {
            0nat
        }
    }
}

/// `(count, label)` `a` ranks before `b`: more contacts, or as many and a smaller label.
pub open spec fn ranks_before(a: (usize, u16), b: (usize, u16)) -> bool {
    a.0 > b.0 || (a.0 == b.0 && a.1 < b.1)
}

/// `top` is the tally of the labels below `m` with contacts: the first three of them in
/// rank order, each with its count.
pub open spec fn is_top(counts: Seq<usize>, top: Seq<(usize, u16)>, m: int) -> bool {
    &&& top.len() <= 3
    &&& forall|i: int|
        0 <= i < top.len() ==> (#[trigger] top[i]).1 < m && counts[top[i].1 as int] == top[i].0 && top[i].0 > 0
    &&& forall|i: int, j: int| 0 <= i < j < top.len() ==> ranks_before(#[trigger] top[i], #[trigger] top[j])
    &&& forall|l: int|
        0 <= l < m && #[trigger] counts[l] > 0 && !(exists|i: int| 0 <= i < top.len() && top[i].1 as int == l)
            ==> top.len() == 3 && ranks_before(top[2], (counts[l], l as u16))
}

/// The total count of a tally.
pub open spec fn covered(top: Seq<(usize, u16)>) -> int
    decreases top.len(),
{
    if top.len() == 0 {
        0
    } else {
        covered(top.drop_last()) + top.last().0 as int
    }
}

/// `group` is component `id`'s pixels: each in the raster and of the component.
pub open spec fn group_ok(comp: Seq<u32>, w: int, h: int, id: u32, group: Seq<usize>) -> bool {
    forall|i: int| 0 <= i < group.len() ==> (#[trigger] group[i] as int) < w * h && comp[group[i] as int] == id
}

proof fn lemma_pixel_bounds(labels: Seq<u16>, comp: Seq<u32>, w: int, h: int, id: u32, p: int, l: int, d: int)
    requires
        0 <= d <= 4,
    ensures
        pixel_contacts(labels, comp, w, h, id, p, l, d) <= pixel_foreign(comp, w, h, id, p, d) <= d,
    decreases d,
{
    if d > 0 {
        lemma_pixel_bounds(labels, comp, w, h, id, p, l, d - 1);
    }
}

proof fn lemma_group_bounds(labels: Seq<u16>, comp: Seq<u32>, w: int, h: int, id: u32, group: Seq<usize>, l: int, i: int)
    requires
        0 <= i <= group.len(),
    ensures
        contacts(labels, comp, w, h, id, group, l, i) <= foreign(comp, w, h, id, group, i) <= 4 * i,
        interior(comp, w, h, id, group, i) <= i,
    decreases i,
{
    if i > 0 {
        lemma_group_bounds(labels, comp, w, h, id, group, l, i - 1);
        lemma_pixel_bounds(labels, comp, w, h, id, group[i - 1] as int, l, 4);
    }
}

/// Neighbour `d` of pixel `p`.
fn neighbour(w: usize, h: usize, p: usize, d: usize) -> (res: Option<usize>)
    requires
        p < w * h,
        w * h <= usize::MAX,
        d < 4,
    ensures
        match res {
            Some(q) => nbr(w as int, h as int, p as int, d as int) == Some(q as int) && q < w * h,
            None => nbr(w as int, h as int, p as int, d as int) is None,
        },
{
    proof {
        if w == 0 {
            assert(w * h == 0);
        }
        lemma_coords(w as int, h as int, p as int);
    }
    let x = p % w;
    let y = p / w;
    proof {
        lemma_index(w as int, h as int, x as int, y as int);
        if x + 1 < w {
            lemma_index(w as int, h as int, x + 1, y as int);
        }
        if y > 0 {
            lemma_index(w as int, h as int, x as int, y - 1);
            assert((y - 1) * w == y * w - w) by (nonlinear_arith);
        }
        if y + 1 < h {
            lemma_index(w as int, h as int, x as int, y + 1);
            assert((y + 1) * w == y * w + w) by (nonlinear_arith);
        }
    }
    if d == 0 {
        if x > 0 {
            Some(p - 1)
        } else {
            None
        }
    } else if d == 1 {
        if x + 1 < w {
            Some(p + 1)
        } else {
            None
        }
    } else if d == 2 {
        if y > 0 {
            Some(p - w)
        } else {
            None
        }
    } else {
        if y + 1 < h {
            Some(p + w)
        } else {
            None
        }
    }
}

/// Put `(c, l)` into a tally of the labels below `l`, keeping the first three in rank order.
fn insert_ranked(top: &mut Vec<(usize, u16)>, counts: Ghost<Seq<usize>>, c: usize, l: u16)
    requires
        is_top(counts@, old(top)@, l as int),
        (l as int) < counts@.len(),
        counts@[l as int] == c,
        c > 0,
    ensures
        is_top(counts@, final(top)@, l + 1),
{
    let ghost t0 = top@;
    let mut i: usize = 0;
    while i < top.len() && top[i].0 >= c
        invariant
            top@ == t0,
            is_top(counts@, t0, l as int),
            i <= top@.len(),
            forall|j: int| 0 <= j < i ==> ranks_before(#[trigger] top@[j], (c, l)),
        decreases top@.len() - i,
    {
        proof {
            assert(top@[i as int].1 < l);
        }
        i += 1;
    }
    // Everything from `i` on ranks after `(c, l)`.
    proof {
        assert forall|j: int| i <= j < t0.len() implies ranks_before((c, l), #[trigger] t0[j]) by {
            if j > i {
                assert(ranks_before(t0[i as int], t0[j]));
            }
        }
    }
    if i < 3 {
        top.insert(i, (c, l));
        if top.len() > 3 {
            top.pop();
        }
        proof {
            let t1 = t0.insert(i as int, (c, l));
            assert(top@ == if t1.len() > 3 {
                t1.drop_last()
            } else {
                t1
            });
            assert forall|a: int, b: int| 0 <= a < b < top@.len() implies ranks_before(
                #[trigger] top@[a],
                #[trigger] top@[b],
            ) by {
                assert(top@[a] == t1[a] && top@[b] == t1[b]);
            }
            assert forall|m: int|
                0 <= m < l + 1 && #[trigger] counts@[m] > 0 && !(exists|j: int|
                    0 <= j < top@.len() && top@[j].1 as int == m) implies top@.len() == 3 && ranks_before(
                top@[2],
                (counts@[m], m as u16),
            ) by {
                if m == l {
                    assert(top@[i as int].1 == l);
                } else if exists|j: int| 0 <= j < t0.len() && t0[j].1 as int == m {
                    let j = choose|j: int| 0 <= j < t0.len() && t0[j].1 as int == m;
                    // It was in the tally and fell off the end.
                    if j < i {
                        assert(top@[j] == t1[j]);
                        assert(top@[j].1 as int == m);
                    }
                    assert(t1[j + 1] == t0[j]);
                    if j + 1 < top@.len() {
                        assert(top@[j + 1] == t1[j + 1]);
                        assert(top@[j + 1].1 as int == m);
                    }
                    assert(t1.len() == 4 && j + 1 == 3);
                    assert(ranks_before(t1[2], t1[3]));
                    assert(top@[2] == t1[2]);
                } else {
                    assert(t0.len() == 3 && ranks_before(t0[2], (counts@[m], m as u16)));
                    if i <= 2 {
                        assert(t1[2] == t0[1] || t1[2] == (c, l));
                        if t1[2] == t0[1] {
                            assert(ranks_before(t0[1], t0[2]));
                        } else {
                            assert(ranks_before((c, l), t0[2]));
                        }
                    }
                }
            }
            assert forall|a: int| 0 <= a < top@.len() implies (#[trigger] top@[a]).1 < l + 1 && counts@[top@[a].1 as int]
                == top@[a].0 && top@[a].0 > 0 by {
                assert(top@[a] == t1[a]);
            }
        }
    } else {
        proof {
            assert(i == 3 && t0.len() == 3);
            assert(ranks_before(t0[2], (c, l)));
        }
    }
}

/// The tally of a thin component's contacts, or `None` when it is no sliver candidate.
///
/// `group` lists component `id`'s pixels. A pixel is interior when all its 4-neighbours in
/// the raster are in the component; each neighbour outside it is a contact with that
/// neighbour's label. The component is a candidate when fewer than one in five of its
/// pixels is interior, it has contacts, and its three most-touched labels (most contacts
/// first, a smaller label first among equals) hold at least four fifths of them. Returns
/// those labels with their counts.
pub fn sliver_tally(labels: &[u16], comp: &[u32], w: usize, h: usize, id: u32, group: &[usize], n_labels: usize) -> (res:
    Option<Vec<(usize, u16)>>)
    requires
        labels@.len() == w * h,
        comp@.len() == w * h,
        group_ok(comp@, w as int, h as int, id, group@),
        forall|p: int| 0 <= p < w * h ==> (#[trigger] labels@[p] as int) < n_labels,
        n_labels <= u16::MAX + 1,
        64 * group@.len() <= usize::MAX,
    ensures
        ({
            let g = group@;
            let n = g.len() as int;
            let fo = foreign(comp@, w as int, h as int, id, g, n);
            let counts = Seq::new(n_labels as nat, |l: int| contacts(labels@, comp@, w as int, h as int, id, g, l, n) as usize);
            match res {
                Some(top) => {
                    &&& 5 * interior(comp@, w as int, h as int, id, g, n) < n
                    &&& fo > 0
                    &&& is_top(counts, top@, n_labels as int)
                    &&& 5 * covered(top@) >= 4 * fo
                },
                None => 5 * interior(comp@, w as int, h as int, id, g, n) >= n || fo == 0 || forall|top: Seq<(usize, u16)>|
                    is_top(counts, top, n_labels as int) ==> 5 * covered(top) < 4 * fo,
            }
        }),
{
    let ghost (wi, hi) = (w as int, h as int);
    let ghost (lab, cm, g) = (labels@, comp@, group@);
    let n_px = labels.len();
    let mut counts: Vec<usize> = Vec::new();
    let mut l: usize = 0;
    while l < n_labels
        invariant
            l <= n_labels,
            counts@.len() == l,
            forall|m: int| 0 <= m < l ==> #[trigger] counts@[m] == 0,
        decreases n_labels - l,
    {
        counts.push(0);
        l += 1;
    }
    let mut inner: usize = 0;
    let mut outside: usize = 0;
    let mut i: usize = 0;
    while i < group.len()
        invariant
            lab == labels@,
            cm == comp@,
            g == group@,
            wi == w,
            hi == h,
            lab.len() == w * h,
            n_px == w * h,
            cm.len() == w * h,
            group_ok(cm, wi, hi, id, g),
            forall|p: int| 0 <= p < w * h ==> (#[trigger] lab[p] as int) < n_labels,
            64 * g.len() <= usize::MAX,
            i <= g.len(),
            counts@.len() == n_labels,
            forall|m: int| 0 <= m < n_labels ==> #[trigger] counts@[m] == contacts(lab, cm, wi, hi, id, g, m, i as int),
            outside == foreign(cm, wi, hi, id, g, i as int),
            inner == interior(cm, wi, hi, id, g, i as int),
        decreases g.len() - i,
    {
        let p = group[i];
        proof {
            assert((p as int) < w * h);
            lemma_group_bounds(lab, cm, wi, hi, id, g, 0, i + 1);
            lemma_group_bounds(lab, cm, wi, hi, id, g, 0, i as int);
        }
        let mut inside = true;
        let mut d: usize = 0;
        while d < 4
            invariant
                lab == labels@,
                cm == comp@,
                g == group@,
                wi == w,
                hi == h,
                lab.len() == w * h,
                n_px == w * h,
                cm.len() == w * h,
                (p as int) < w * h,
                p == g[i as int],
                i < g.len(),
                forall|q: int| 0 <= q < w * h ==> (#[trigger] lab[q] as int) < n_labels,
                64 * g.len() <= usize::MAX,
                outside <= 4 * i + d,
                d <= 4,
                counts@.len() == n_labels,
                forall|m: int|
                    0 <= m < n_labels ==> #[trigger] counts@[m] == contacts(lab, cm, wi, hi, id, g, m, i as int)
                        + pixel_contacts(lab, cm, wi, hi, id, p as int, m, d as int),
                outside == foreign(cm, wi, hi, id, g, i as int) + pixel_foreign(cm, wi, hi, id, p as int, d as int),
                inside == (pixel_foreign(cm, wi, hi, id, p as int, d as int) == 0),
            decreases 4 - d,
        {
            proof {
                lemma_group_bounds(lab, cm, wi, hi, id, g, 0, i as int);
                lemma_pixel_bounds(lab, cm, wi, hi, id, p as int, 0, d as int);
            }
            match neighbour(w, h, p, d) {
                Some(q) => {
                    if comp[q] != id {
                        inside = false;
                        let m = labels[q] as usize;
                        proof {
                            lemma_group_bounds(lab, cm, wi, hi, id, g, m as int, i as int);
                            lemma_pixel_bounds(lab, cm, wi, hi, id, p as int, m as int, d as int);
                        }
                        counts.set(m, counts[m] + 1);
                        outside += 1;
                    }
                },
                None => {},
            }
            d += 1;
        }
        if inside {
            inner += 1;
        }
        proof {
            lemma_group_bounds(lab, cm, wi, hi, id, g, 0, i + 1);
        }
        i += 1;
    }
    let area = group.len();
    let ghost n = g.len() as int;
    let ghost cs = Seq::new(n_labels as nat, |m: int| contacts(lab, cm, wi, hi, id, g, m, n) as usize);
    proof {
        assert(counts@ =~= cs);
        lemma_group_bounds(lab, cm, wi, hi, id, g, 0, n);
    }
    if inner * 5 >= area || outside == 0 {
        return None;
    }
    let mut top: Vec<(usize, u16)> = Vec::new();
    let mut m: usize = 0;
    while m < n_labels
        invariant
            counts@ == cs,
            counts@.len() == n_labels,
            n_labels <= u16::MAX + 1,
            m <= n_labels,
            is_top(cs, top@, m as int),
        decreases n_labels - m,
    {
        if counts[m] > 0 {
            insert_ranked(&mut top, Ghost(cs), counts[m], m as u16);
        } else {
            proof {
                assert(is_top(cs, top@, m + 1));
            }
        }
        m += 1;
    }
    proof {
        assert forall|a: int| 0 <= a < top@.len() implies (#[trigger] top@[a]).0 <= outside by {
            lemma_group_bounds(lab, cm, wi, hi, id, g, top@[a].1 as int, n);
        }
    }
    let mut sum: usize = 0;
    let mut t: usize = 0;
    while t < top.len()
        invariant
            t <= top@.len(),
            top@.len() <= 3,
            forall|a: int| 0 <= a < top@.len() ==> (#[trigger] top@[a]).0 <= outside,
            64 * g.len() <= usize::MAX,
            outside <= 4 * g.len(),
            sum == covered(top@.take(t as int)),
            t == 0 ==> sum == 0,
            t == 1 ==> sum <= outside,
            t == 2 ==> sum <= 2 * outside,
            t == 3 ==> sum <= 3 * outside,
        decreases top@.len() - t,
    {
        proof {
            assert(top@.take(t + 1).drop_last() =~= top@.take(t as int));
        }
        sum = sum + top[t].0;
        t += 1;
    }
    proof {
        assert(top@.take(top@.len() as int) =~= top@);
    }
    if sum * 5 < outside * 4 {
        proof {
            assert forall|other: Seq<(usize, u16)>| is_top(cs, other, n_labels as int) implies 5 * covered(other) < 4
                * outside by {
                lemma_top_unique(cs, top@, other, n_labels as int);
            }
        }
        return None;
    }
    Some(top)
}

/// Where two tallies of the same counts first differ, the first does not rank ahead.
proof fn lemma_top_miss(counts: Seq<usize>, a: Seq<(usize, u16)>, b: Seq<(usize, u16)>, m: int, i: int)
    requires
        is_top(counts, a, m),
        is_top(counts, b, m),
        0 <= i < a.len(),
        i < b.len(),
        forall|j: int| 0 <= j < i ==> a[j] == b[j],
    ensures
        !ranks_before(a[i], b[i]),
{
    if !ranks_before(a[i], b[i]) {
        return;
    }
    let x = a[i].1 as int;
    assert(counts[x] > 0 && x < m && counts[x] == a[i].0);
    if exists|k: int| 0 <= k < b.len() && b[k].1 as int == x {
        let k = choose|k: int| 0 <= k < b.len() && b[k].1 as int == x;
        assert(b[k] == a[i]);
        if k < i {
            assert(a[k] == b[k]);
            assert(ranks_before(a[k], a[i]));
        } else if k > i {
            assert(ranks_before(b[i], b[k]));
        }
    } else {
        assert(b.len() == 3 && ranks_before(b[2], (counts[x], x as u16)));
        if i < 2 {
            assert(ranks_before(b[i], b[2]));
        }
    }
}

proof fn lemma_top_prefix(counts: Seq<usize>, a: Seq<(usize, u16)>, b: Seq<(usize, u16)>, m: int, k: int)
    requires
        is_top(counts, a, m),
        is_top(counts, b, m),
        0 <= k <= a.len(),
        k <= b.len(),
    ensures
        forall|j: int| 0 <= j < k ==> a[j] == b[j],
    decreases k,
{
    if k > 0 {
        lemma_top_prefix(counts, a, b, m, k - 1);
        let i = k - 1;
        if a[i] != b[i] {
            if a[i].1 == b[i].1 {
                assert(a[i].0 == counts[a[i].1 as int] && b[i].0 == counts[b[i].1 as int]);
            } else if ranks_before(a[i], b[i]) {
                lemma_top_miss(counts, a, b, m, i);
            } else {
                lemma_top_miss(counts, b, a, m, i);
            }
        }
    }
}

/// Two tallies of the same counts are the same.
proof fn lemma_top_unique(counts: Seq<usize>, a: Seq<(usize, u16)>, b: Seq<(usize, u16)>, m: int)
    requires
        is_top(counts, a, m),
        is_top(counts, b, m),
    ensures
        a == b,
{
    let k = if a.len() < b.len() {
        a.len() as int
    } else {
        b.len() as int
    };
    lemma_top_prefix(counts, a, b, m, k);
    if a.len() < b.len() {
        let y = b[k].1 as int;
        assert(counts[y] > 0 && y < m);
        if exists|j: int| 0 <= j < a.len() && a[j].1 as int == y {
            let j = choose|j: int| 0 <= j < a.len() && a[j].1 as int == y;
            assert(a[j] == b[j]);
            assert(ranks_before(b[j], b[k]));
        }
    } else if b.len() < a.len() {
        let y = a[k].1 as int;
        assert(counts[y] > 0 && y < m);
        if exists|j: int| 0 <= j < b.len() && b[j].1 as int == y {
            let j = choose|j: int| 0 <= j < b.len() && b[j].1 as int == y;
            assert(a[j] == b[j]);
            assert(ranks_before(a[j], a[k]));
        }
    }
    assert(a =~= b);
}


/// The `d`-th of the eight pixels around one, as a column and row offset, in the order
/// they are read: the row above from left to right, left and right, the row below.
pub open spec fn ring_offset(d: int) -> (int, int) {
    if d == 0 {
        (-1, -1)
    } else if d == 1 {
        (0, -1)
    } else if d == 2 {
        (1, -1)
    } else if d == 3 {
        (-1, 0)
    } else if d == 4 {
        (1, 0)
    } else if d == 5 {
        (-1, 1)
    } else if d == 6 {
        (0, 1)
    } else {
        (1, 1)
    }
}

/// The labels a pixel `p` may be a blend of, once the first `d` of the eight pixels around
/// it are read: its own label first, then each label not yet listed of a pixel around it
/// that lies in the raster, in reading order, four labels at most.
pub open spec fn labels_around(labels: Seq<u16>, w: int, h: int, p: int, d: int) -> Seq<u16>
    decreases d,
{
    if d <= 0 {
        seq![labels[p]]
    } else {
        let before = labels_around(labels, w, h, p, d - 1);
        let (dx, dy) = ring_offset(d - 1);
        let (qx, qy) = (p % w + dx, p / w + dy);
        if qx < 0 || qy < 0 || qx >= w || qy >= h || before.contains(labels[qy * w + qx]) || before.len()
            >= 4 {
            before
        } else {
            before.push(labels[qy * w + qx])
        }
    }
}

proof fn lemma_around_len(labels: Seq<u16>, w: int, h: int, p: int, d: int)
    ensures
        1 <= labels_around(labels, w, h, p, d).len() <= 4,
    decreases d,
{
    if d > 0 {
        lemma_around_len(labels, w, h, p, d - 1);
    }
}

/// The labels pixel `p` may be a blend of (see [`labels_around`]): its own, then those of
/// the eight pixels around it, each once, at most four in all.
pub fn neighbour_labels(labels: &[u16], w: usize, h: usize, p: usize) -> (res: Vec<u16>)
    requires
        w * h <= labels@.len(),
        p < w * h,
    ensures
        res@ == labels_around(labels@, w as int, h as int, p as int, 8),
{
    let ghost (lab, wi, hi) = (labels@, w as int, h as int);
    proof {
        assert(w > 0) by {
            if w == 0 {
                assert(w * h == 0);
            }
        }
        lemma_coords(wi, hi, p as int);
        assert(labels@.len() == labels.len());
    }
    let x = p % w;
    let y = p / w;
    let mut res: Vec<u16> = Vec::new();
    res.push(labels[p]);
    let mut d: usize = 0;
    while d < 8
        invariant
            lab == labels@,
            wi == w,
            hi == h,
            w * h <= lab.len(),
            w * h <= usize::MAX,
            p < w * h,
            x == p as int % wi,
            y == p as int / wi,
            x < w,
            y < h,
            d <= 8,
            res@ == labels_around(lab, wi, hi, p as int, d as int),
        decreases 8 - d,
    {
        proof {
            lemma_around_len(lab, wi, hi, p as int, d as int);
        }
        let (qx, qy): (usize, usize) = if d == 0 {
            (x.wrapping_sub(1), y.wrapping_sub(1))
        } else if d == 1 {
            (x, y.wrapping_sub(1))
        } else if d == 2 {
            (x.wrapping_add(1), y.wrapping_sub(1))
        } else if d == 3 {
            (x.wrapping_sub(1), y)
        } else if d == 4 {
            (x.wrapping_add(1), y)
        } else if d == 5 {
            (x.wrapping_sub(1), y.wrapping_add(1))
        } else if d == 6 {
            (x, y.wrapping_add(1))
        } else {
            (x.wrapping_add(1), y.wrapping_add(1))
        };
        let inside = match d {
            0 => x > 0 && y > 0,
            1 => y > 0,
            2 => x + 1 < w && y > 0,
            3 => x > 0,
            4 => x + 1 < w,
            5 => x > 0 && y + 1 < h,
            6 => y + 1 < h,
            _ => x + 1 < w && y + 1 < h,
        };
        if inside {
            proof {
                lemma_index(wi, hi, qx as int, qy as int);
            }
            let l = labels[qy * w + qx];
            let mut seen = false;
            let mut k: usize = 0;
            while k < res.len()
                invariant
                    k <= res@.len(),
                    seen == exists|i: int| 0 <= i < k && res@[i] == l,
                decreases res@.len() - k,
            {
                if res[k] == l {
                    seen = true;
                }
                k += 1;
            }
            if !seen && res.len() < 4 {
                res.push(l);
            }
        }
        d += 1;
    }
    res
}

} // verus!
