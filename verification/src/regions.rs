//! Connected components and speckle removal on a label map.
//!
//! A face is a *connected region*, not everywhere one colour appears: two disconnected
//! shapes of one ink are two faces. [`split_components`] numbers the 4-connected
//! components of equal labels in scan order; [`despeckle`] absorbs every component smaller
//! than a given size into the neighbouring label it shares the longest border with.
use std::collections::HashMap;
use vstd::std_specs::iter::IteratorSpec;
use vstd::prelude::*;

use crate::components::label_components;
use crate::grid::{
    component_count, component_id, connected, first_of, firsts_below, is_first, lemma_closed_set,
    lemma_component_id, lemma_connected_linked, lemma_connected_range, lemma_connected_refl,
    lemma_connected_trans, lemma_coords, lemma_first_of, lemma_first_unique, lemma_firsts_bound,
    lemma_step_intro, lemma_step_sym, linked,
};

verus! {

/// Most faces [`split_components`] numbers: once this many are found, every pixel of a
/// later component is folded into face 0.
pub const MAX_FACES: usize = 65535;

/// The face number [`split_components`] gives a pixel.
pub open spec fn face_of(labels: Seq<u16>, w: int, h: int, p: int) -> int {
    if component_id(labels, w, h, p) < MAX_FACES {
        component_id(labels, w, h, p)
    } else {
        0
    }
}

/// How many faces [`split_components`] numbers.
pub open spec fn face_count(labels: Seq<u16>, w: int, h: int) -> int {
    if component_count(labels, w, h) < MAX_FACES {
        component_count(labels, w, h)
    } else {
        MAX_FACES as int
    }
}

/// Relabel a palette-indexed image by 4-connected component.
///
/// Returns the face of every pixel, faces numbered in the order their first pixels appear
/// in scan order, and the label each face was cut from.
pub fn split_components(labels: &[u16], w: usize, h: usize) -> (res: (Vec<u16>, Vec<usize>))
    requires
        w * h <= labels@.len(),
        w * h <= usize::MAX,
    ensures
        res.0@.len() == w * h,
        res.1@.len() == face_count(labels@, w as int, h as int),
        forall|p: int|
            0 <= p < w * h ==> #[trigger] res.0@[p] as int == face_of(
                labels@,
                w as int,
                h as int,
                p,
            ),
        forall|p: int|
            0 <= p < w * h && component_id(labels@, w as int, h as int, p) < MAX_FACES ==> res.1@[
            #[trigger] component_id(labels@, w as int, h as int, p)] == labels@[p] as usize,
{
    let n = w * h;
    let (comp, ink) = label_components(labels, w, h, 65535);
    let mut out: Vec<u16> = Vec::new();
    let mut p: usize = 0;
    while p < n
        invariant
            n == w * h,
            comp@.len() == n,
            out@.len() == p,
            p <= n,
            forall|q: int|
                0 <= q < n ==> #[trigger] comp@[q] == if component_id(
                    labels@,
                    w as int,
                    h as int,
                    q,
                ) < 65535 {
                    component_id(labels@, w as int, h as int, q) as u32
                } else {
                    u32::MAX
                },
            forall|q: int|
                0 <= q < p ==> #[trigger] out@[q] as int == face_of(labels@, w as int, h as int, q),
        decreases n - p,
    {
        let c = comp[p];
        if c == u32::MAX {
            out.push(0);
        } else {
            out.push(c as u16);
        }
        p += 1;
    }
    let mut face_color: Vec<usize> = Vec::new();
    let mut k: usize = 0;
    while k < ink.len()
        invariant
            face_color@.len() == k,
            k <= ink@.len(),
            forall|j: int| 0 <= j < k ==> #[trigger] face_color@[j] == ink@[j] as usize,
        decreases ink@.len() - k,
    {
        face_color.push(ink[k] as usize);
        k += 1;
    }
    proof {
        assert forall|p: int|
            0 <= p < n && component_id(labels@, w as int, h as int, p) < MAX_FACES implies face_color@[
            #[trigger] component_id(labels@, w as int, h as int, p)] == labels@[p] as usize by {
            lemma_component_id(labels@, w as int, h as int, p, p);
        }
    }
    (out, face_color)
}

/// The face map [`split_components`] returns, as a label map.
pub open spec fn face_map(labels: Seq<u16>, w: int, h: int) -> Seq<u16> {
    Seq::new((w * h) as nat, |p: int| face_of(labels, w, h, p) as u16)
}

/// Relabelling every pixel with its component's number keeps who is connected to whom.
proof fn lemma_renumbered_connectivity(labels: Seq<u16>, out: Seq<u16>, w: int, h: int, p: int, q: int)
    requires
        0 <= p < w * h,
        forall|x: int| 0 <= x < w * h ==> #[trigger] out[x] as int == component_id(labels, w, h, x),
    ensures
        connected(out, w, h, p, q) == connected(labels, w, h, p, q),
{
    if connected(labels, w, h, p, q) {
        let s = Set::new(|x: int| 0 <= x < w * h && connected(out, w, h, p, x));
        lemma_connected_refl(out, w, h, p);
        assert forall|a: int, b: int| s.contains(a) && #[trigger] linked(labels, w, h, a, b) implies s.contains(b) by {
            lemma_connected_linked(labels, w, h, a, b);
            lemma_connected_range(labels, w, h, a, b);
            lemma_component_id(labels, w, h, a, b);
            assert(linked(out, w, h, a, b));
            lemma_connected_linked(out, w, h, a, b);
            lemma_connected_trans(out, w, h, p, a, b);
        }
        lemma_closed_set(labels, w, h, s, p, q);
    }
    if connected(out, w, h, p, q) {
        let s = Set::new(|x: int| 0 <= x < w * h && component_id(labels, w, h, x) == component_id(labels, w, h, p));
        assert forall|a: int, b: int| s.contains(a) && #[trigger] linked(out, w, h, a, b) implies s.contains(b) by {
            lemma_connected_linked(out, w, h, a, b);
            lemma_connected_range(out, w, h, a, b);
        }
        lemma_closed_set(out, w, h, s, p, q);
        lemma_component_id(labels, w, h, p, q);
    }
}

proof fn lemma_renumbered_firsts(labels: Seq<u16>, out: Seq<u16>, w: int, h: int, k: int)
    requires
        0 <= k <= w * h,
        forall|m: int| 0 <= m < w * h ==> #[trigger] is_first(out, w, h, m) == is_first(labels, w, h, m),
    ensures
        firsts_below(out, w, h, k) == firsts_below(labels, w, h, k),
    decreases k,
{
    if k > 0 {
        lemma_renumbered_firsts(labels, out, w, h, k - 1);
    }
}

/// Splitting an already split map changes nothing: below the face cap, every pixel keeps
/// its face, there are as many faces, and each face is cut from the label that is its own
/// number.
pub proof fn lemma_split_is_idempotent(labels: Seq<u16>, w: int, h: int)
    requires
        w * h <= labels.len(),
        component_count(labels, w, h) < MAX_FACES,
    ensures
        face_count(face_map(labels, w, h), w, h) == face_count(labels, w, h),
        forall|p: int|
            0 <= p < w * h ==> #[trigger] face_of(face_map(labels, w, h), w, h, p) == face_map(labels, w, h)[p]
                && component_id(face_map(labels, w, h), w, h, p) == face_map(labels, w, h)[p],
{
    let out = face_map(labels, w, h);
    assert forall|x: int| 0 <= x < w * h implies #[trigger] out[x] as int == component_id(labels, w, h, x) by {
        lemma_component_id(labels, w, h, x, x);
    }
    assert forall|m: int| 0 <= m < w * h implies #[trigger] is_first(out, w, h, m) == is_first(labels, w, h, m) by {
        if is_first(labels, w, h, m) {
            assert forall|q: int| 0 <= q < m implies !#[trigger] connected(out, w, h, q, m) by {
                lemma_renumbered_connectivity(labels, out, w, h, q, m);
            }
        }
        if is_first(out, w, h, m) {
            assert forall|q: int| 0 <= q < m implies !#[trigger] connected(labels, w, h, q, m) by {
                lemma_renumbered_connectivity(labels, out, w, h, q, m);
            }
        }
    }
    if w * h >= 0 {
        lemma_renumbered_firsts(labels, out, w, h, w * h);
    }
    assert forall|p: int| 0 <= p < w * h implies #[trigger] face_of(out, w, h, p) == out[p] && component_id(out, w, h, p)
        == out[p] by {
        lemma_first_of(out, w, h, p);
        lemma_first_of(labels, w, h, p);
        let f = first_of(out, w, h, p);
        lemma_renumbered_connectivity(labels, out, w, h, f, p);
        lemma_first_unique(labels, w, h, f, first_of(labels, w, h, p), p);
        lemma_renumbered_firsts(labels, out, w, h, f);
        lemma_component_id(out, w, h, p, p);
    }
}

} // verus!

verus! {

/// Pixels of component `k` (of `labels`) below index `upto`.
pub open spec fn size_below(labels: Seq<u16>, w: int, h: int, k: int, upto: int) -> nat
    decreases upto,
{
    if upto <= 0 {
        0
    } else {
        size_below(labels, w, h, k, upto - 1) + if component_id(labels, w, h, upto - 1) == k {
            1nat
        } else {
            0nat
        }
    }
}

/// The number of pixels in component `k`.
pub open spec fn comp_size(labels: Seq<u16>, w: int, h: int, k: int) -> nat {
    size_below(labels, w, h, k, w * h)
}

/// Whether pixel `p` has a neighbour in direction `d` (0 left, 1 right, 2 up, 3 down).
pub open spec fn has_nb(w: int, h: int, p: int, d: int) -> bool {
    if d == 0 {
        p % w > 0
    } else if d == 1 {
        p % w + 1 < w
    } else if d == 2 {
        p / w > 0
    } else {
        p / w + 1 < h
    }
}

/// The neighbour of `p` in direction `d`.
pub open spec fn nb(w: int, p: int, d: int) -> int {
    if d == 0 {
        p - 1
    } else if d == 1 {
        p + 1
    } else if d == 2 {
        p - w
    } else {
        p + w
    }
}

/// Whether the neighbour of `p` in direction `d` is a border vote for label `l`: it lies
/// outside component `k` of `orig` and carries `l` in the current labels `cur`.
pub open spec fn vote(orig: Seq<u16>, cur: Seq<u16>, w: int, h: int, k: int, p: int, d: int, l: u16) -> nat {
    if has_nb(w, h, p, d) && component_id(orig, w, h, nb(w, p, d)) != k && cur[nb(w, p, d)] == l {
        1
    } else {
        0
    }
}

/// Border votes for `l` from the first `dirs` directions of pixel `p`, when `p` is in
/// component `k`.
pub open spec fn votes(orig: Seq<u16>, cur: Seq<u16>, w: int, h: int, k: int, p: int, l: u16, dirs: int) -> nat
    decreases dirs,
{
    if dirs <= 0 || component_id(orig, w, h, p) != k {
        0
    } else {
        votes(orig, cur, w, h, k, p, l, dirs - 1) + vote(orig, cur, w, h, k, p, dirs - 1, l)
    }
}

/// Border length component `k` shares with label `l`, counted over pixels below `upto`:
/// one for every pair of 4-neighbours, one in `k` and one outside it carrying `l`.
pub open spec fn tally_below(orig: Seq<u16>, cur: Seq<u16>, w: int, h: int, k: int, l: u16, upto: int) -> nat
    decreases upto,
{
    if upto <= 0 {
        0
    } else {
        tally_below(orig, cur, w, h, k, l, upto - 1) + votes(orig, cur, w, h, k, upto - 1, l, 4)
    }
}

/// Border length component `k` shares with label `l`.
pub open spec fn tally(orig: Seq<u16>, cur: Seq<u16>, w: int, h: int, k: int, l: u16) -> nat {
    tally_below(orig, cur, w, h, k, l, w * h)
}

/// `l` is the label component `k` shares the longest border with, the smallest label on a
/// tie.
pub open spec fn is_best(orig: Seq<u16>, cur: Seq<u16>, w: int, h: int, k: int, l: u16) -> bool {
    &&& tally(orig, cur, w, h, k, l) > 0
    &&& forall|m: u16|
        #[trigger] tally(orig, cur, w, h, k, m) > 0 ==> tally(orig, cur, w, h, k, m) < tally(
            orig,
            cur,
            w,
            h,
            k,
            l,
        ) || (tally(orig, cur, w, h, k, m) == tally(orig, cur, w, h, k, l) && l <= m)
}

/// One absorption: component `k`, when smaller than `min_size` and bordered by anything,
/// takes its best neighbouring label.
pub open spec fn absorb_one(orig: Seq<u16>, cur: Seq<u16>, w: int, h: int, min_size: int, k: int) -> Seq<u16> {
    if comp_size(orig, w, h, k) >= min_size || !(exists|l: u16| is_best(orig, cur, w, h, k, l)) {
        cur
    } else {
        let b = choose|l: u16| is_best(orig, cur, w, h, k, l);
        Seq::new(
            cur.len(),
            |p: int|
                if 0 <= p < w * h && component_id(orig, w, h, p) == k {
                    b
                } else {
                    cur[p]
                },
        )
    }
}

/// The labels after components `0..k` have had their turn, in order.
pub open spec fn absorb_upto(orig: Seq<u16>, w: int, h: int, min_size: int, k: int) -> Seq<u16>
    decreases k,
{
    if k <= 0 {
        orig
    } else {
        absorb_one(orig, absorb_upto(orig, w, h, min_size, k - 1), w, h, min_size, k - 1)
    }
}

/// What [`despeckle`] leaves: every component, in order, absorbed when small.
pub open spec fn despeckled(orig: Seq<u16>, w: int, h: int, min_size: int) -> Seq<u16> {
    if min_size <= 1 {
        orig
    } else {
        absorb_upto(orig, w, h, min_size, component_count(orig, w, h))
    }
}

} // verus!

verus! {

/// The first index at or after `from` whose entry is `c`, or `u32::MAX` when none is.
pub open spec fn next_member(comp: Seq<u32>, c: int, from: int) -> int
    decreases comp.len() - from,
{
    if from < 0 || from >= comp.len() {
        u32::MAX as int
    } else if comp[from] == c {
        from
    } else {
        next_member(comp, c, from + 1)
    }
}

proof fn lemma_next_member(comp: Seq<u32>, c: int, from: int)
    requires
        0 <= from <= comp.len(),
        comp.len() < u32::MAX,
    ensures
        next_member(comp, c, from) == u32::MAX || (from <= next_member(comp, c, from) < comp.len()
            && comp[next_member(comp, c, from)] == c),
        forall|q: int|
            from <= q < comp.len() && q < next_member(comp, c, from) ==> comp[q] != c,
    decreases comp.len() - from,
{
    if from < comp.len() && comp[from] != c {
        lemma_next_member(comp, c, from + 1);
    }
}

/// Pixels outside component `k` add nothing to its tally.
proof fn lemma_tally_skip(orig: Seq<u16>, cur: Seq<u16>, w: int, h: int, k: int, l: u16, a: int, b: int)
    requires
        0 <= a <= b,
        forall|q: int| a <= q < b ==> component_id(orig, w, h, q) != k,
    ensures
        tally_below(orig, cur, w, h, k, l, b) == tally_below(orig, cur, w, h, k, l, a),
    decreases b - a,
{
    if a < b {
        lemma_tally_skip(orig, cur, w, h, k, l, a, b - 1);
    }
}

pub proof fn lemma_votes_bound(orig: Seq<u16>, cur: Seq<u16>, w: int, h: int, k: int, p: int, l: u16, dirs: int)
    requires
        0 <= dirs,
    ensures
        votes(orig, cur, w, h, k, p, l, dirs) <= dirs,
    decreases dirs,
{
    if dirs > 0 {
        lemma_votes_bound(orig, cur, w, h, k, p, l, dirs - 1);
    }
}

pub proof fn lemma_tally_bound(orig: Seq<u16>, cur: Seq<u16>, w: int, h: int, k: int, l: u16, upto: int)
    requires
        0 <= upto,
    ensures
        tally_below(orig, cur, w, h, k, l, upto) <= 4 * upto,
    decreases upto,
{
    if upto > 0 {
        lemma_tally_bound(orig, cur, w, h, k, l, upto - 1);
        lemma_votes_bound(orig, cur, w, h, k, upto - 1, l, 4);
    }
}

pub proof fn lemma_size_bound(labels: Seq<u16>, w: int, h: int, k: int, upto: int)
    requires
        0 <= upto,
    ensures
        size_below(labels, w, h, k, upto) <= upto,
    decreases upto,
{
    if upto > 0 {
        lemma_size_bound(labels, w, h, k, upto - 1);
    }
}

/// A tally list: one entry per label with a positive count, holding that count.
pub open spec fn tally_list(tl: Seq<(u16, u64)>, f: spec_fn(u16) -> nat) -> bool {
    &&& forall|i: int, j: int| 0 <= i < j < tl.len() ==> tl[i].0 != tl[j].0
    &&& forall|i: int| 0 <= i < tl.len() ==> #[trigger] tl[i].1 == f(tl[i].0) && f(tl[i].0) > 0
    &&& forall|l: u16| #[trigger] f(l) > 0 ==> exists|i: int| 0 <= i < tl.len() && tl[i].0 == l
}

/// Add one vote for `l`.
pub(crate) fn add_vote(tl: &mut Vec<(u16, u64)>, l: u16, Ghost(f): Ghost<spec_fn(u16) -> nat>)
    requires
        tally_list(old(tl)@, f),
        f(l) + 1 < u64::MAX,
    ensures
        tally_list(final(tl)@, |m: u16| f(m) + if m == l { 1nat } else { 0nat }),
{
    let ghost g = |m: u16| f(m) + if m == l { 1nat } else { 0nat };
    let mut i: usize = 0;
    while i < tl.len()
        invariant
            f(l) + 1 < u64::MAX,
            g == (|m: u16| f(m) + if m == l { 1nat } else { 0nat }),
            tally_list(tl@, f),
            i <= tl@.len(),
            forall|j: int| 0 <= j < i ==> tl@[j].0 != l,
        decreases tl@.len() - i,
    {
        if tl[i].0 == l {
            let c = tl[i].1;
            let ghost t0 = tl@;
            proof {
                assert(t0[i as int].1 == f(t0[i as int].0));
            }
            tl.set(i, (l, c + 1));
            proof {
                assert forall|j: int| 0 <= j < tl@.len() implies #[trigger] tl@[j].1 == g(tl@[j].0)
                    && g(tl@[j].0) > 0 by {
                    if j != i {
                        assert(tl@[j] == t0[j]);
                        assert(t0[j].1 == f(t0[j].0));
                        if j < i {
                            assert(t0[j].0 != t0[i as int].0);
                        } else {
                            assert(t0[i as int].0 != t0[j].0);
                        }
                    }
                }
                assert forall|a: int, b: int| 0 <= a < b < tl@.len() implies tl@[a].0 != tl@[b].0 by {
                    assert(t0[a].0 != t0[b].0);
                }
                assert forall|m: u16| #[trigger] g(m) > 0 implies exists|j: int|
                    0 <= j < tl@.len() && tl@[j].0 == m by {
                    if m != l {
                        let j = choose|j: int| 0 <= j < t0.len() && t0[j].0 == m;
                        assert(tl@[j].0 == m);
                    } else {
                        assert(tl@[i as int].0 == m);
                    }
                }
            }
            return;
        }
        i += 1;
    }
    let ghost t0 = tl@;
    proof {
        assert(f(l) == 0) by {
            if f(l) > 0 {
                let j = choose|j: int| 0 <= j < t0.len() && t0[j].0 == l;
            }
        }
    }
    tl.push((l, 1));
    proof {
        assert forall|j: int| 0 <= j < tl@.len() implies #[trigger] tl@[j].1 == g(tl@[j].0) && g(
            tl@[j].0,
        ) > 0 by {
            if j < t0.len() {
                assert(tl@[j] == t0[j]);
                assert(t0[j].1 == f(t0[j].0));
                assert(t0[j].0 != l);
            }
        }
        assert forall|a: int, b: int| 0 <= a < b < tl@.len() implies tl@[a].0 != tl@[b].0 by {
            if b < t0.len() {
                assert(t0[a].0 != t0[b].0);
            } else {
                assert(t0[a].0 != l);
            }
        }
        assert forall|m: u16| #[trigger] g(m) > 0 implies exists|j: int|
            0 <= j < tl@.len() && tl@[j].0 == m by {
            if m != l {
                let j = choose|j: int| 0 <= j < t0.len() && t0[j].0 == m;
                assert(tl@[j].0 == m);
            } else {
                assert(tl@[t0.len() as int].0 == m);
            }
        }
    }
}

/// The label with the largest count, the smallest label on a tie; `None` for an empty
/// tally.
pub(crate) fn best_of(tl: &Vec<(u16, u64)>, Ghost(f): Ghost<spec_fn(u16) -> nat>) -> (res: Option<u16>)
    requires
        tally_list(tl@, f),
    ensures
        match res {
            None => forall|m: u16| #[trigger] f(m) == 0,
            Some(b) => f(b) > 0 && forall|m: u16|
                #[trigger] f(m) > 0 ==> f(m) < f(b) || (f(m) == f(b) && b <= m),
        },
{
    if tl.len() == 0 {
        proof {
            assert forall|m: u16| #[trigger] f(m) == 0 by {
                if f(m) > 0 {
                    let j = choose|j: int| 0 <= j < tl@.len() && tl@[j].0 == m;
                }
            }
        }
        return None;
    }
    let mut best = tl[0];
    proof {
        assert(tl@[0] == best);
        assert(best.1 == f(best.0) && f(best.0) > 0);
    }
    let mut i: usize = 1;
    while i < tl.len()
        invariant
            tally_list(tl@, f),
            1 <= i <= tl@.len(),
            best.1 == f(best.0),
            f(best.0) > 0,
            forall|j: int|
                0 <= j < i ==> tl@[j].1 < best.1 || (tl@[j].1 == best.1 && best.0 <= tl@[j].0),
        decreases tl@.len() - i,
    {
        let e = tl[i];
        if e.1 > best.1 || (e.1 == best.1 && e.0 < best.0) {
            best = e;
        }
        i += 1;
    }
    proof {
        assert forall|m: u16| #[trigger] f(m) > 0 implies f(m) < f(best.0) || (f(m) == f(best.0)
            && best.0 <= m) by {
            let j = choose|j: int| 0 <= j < tl@.len() && tl@[j].0 == m;
            assert(tl@[j].1 == f(m));
        }
    }
    Some(best.0)
}

/// A border tally held in a map: the labels with a positive count `f` are its keys, each
/// holding its count.
pub open spec fn tally_map(m: Map<u16, u64>, f: spec_fn(u16) -> nat) -> bool {
    &&& forall|l: u16| #[trigger] m.contains_key(l) <==> f(l) > 0
    &&& forall|l: u16| #[trigger] m.contains_key(l) ==> m[l] == f(l)
}

/// Add one vote for `l` to a map tally.
fn count_vote(tally: &mut HashMap<u16, u64>, l: u16, Ghost(f): Ghost<spec_fn(u16) -> nat>)
    requires
        tally_map(old(tally)@, f),
        f(l) + 1 < u64::MAX,
    ensures
        tally_map(final(tally)@, |m: u16| f(m) + if m == l { 1nat } else { 0nat }),
{
    broadcast use vstd::std_specs::hash::group_hash_axioms;

    let c: u64 = match tally.get(&l) {
        Some(c) => *c,
        None => 0,
    };
    tally.insert(l, c + 1);
}

/// The label of a map tally with the largest count, the smallest label on a tie; `None`
/// for an empty tally.
fn best_in(tally: &HashMap<u16, u64>, Ghost(f): Ghost<spec_fn(u16) -> nat>) -> (res: Option<u16>)
    requires
        tally_map(tally@, f),
    ensures
        match res {
            None => forall|m: u16| #[trigger] f(m) == 0,
            Some(b) => f(b) > 0 && forall|m: u16|
                #[trigger] f(m) > 0 ==> f(m) < f(b) || (f(m) == f(b) && b <= m),
        },
{
    broadcast use vstd::std_specs::hash::group_hash_axioms;

    let ghost kv = vstd::std_specs::hash::spec_hash_map_iter(tally).remaining();
    let mut best: Option<(u16, u64)> = None;
    for e in it: tally.iter()
        invariant
            it.seq() == kv,
            tally_map(tally@, f),
            it.index() <= kv.len(),
            kv.len() == tally@.dom().len(),
            forall|i: int| 0 <= i < kv.len() ==> #[trigger] tally@.contains_key(*kv[i].0) && tally@[*kv[i].0] == *kv[i].1,
            forall|k: u16| #[trigger] tally@.contains_key(k) ==> kv.contains((&k, &tally@[k])),
            match best {
                None => it.index() == 0,
                Some((b, c)) => tally@.contains_key(b) && tally@[b] == c && forall|j: int|
                    0 <= j < it.index() ==> *(#[trigger] kv[j]).1 < c || (*kv[j].1 == c && b <= *kv[j].0),
            },
    {
        let (l, c) = e;
        proof {
            assert(tally@.contains_key(*kv[it.index() as int].0));
        }
        match best {
            None => {
                best = Some((*l, *c));
            },
            Some((b, bc)) => {
                if *c > bc || (*c == bc && *l < b) {
                    best = Some((*l, *c));
                }
            },
        }
    }
    match best {
        None => {
            proof {
                assert forall|m: u16| #[trigger] f(m) == 0 by {
                    if f(m) > 0 {
                        assert(tally@.contains_key(m));
                        assert(kv.contains((&m, &tally@[m])));
                    }
                }
            }
            None
        },
        Some((b, _)) => {
            proof {
                assert forall|m: u16| #[trigger] f(m) > 0 implies f(m) < f(b) || (f(m) == f(b) && b <= m) by {
                    assert(tally@.contains_key(m));
                    assert(kv.contains((&m, &tally@[m])));
                    let j = choose|j: int| 0 <= j < kv.len() && kv[j] == (&m, &tally@[m]);
                    assert(*kv[j].0 == m);
                }
            }
            Some(b)
        },
    }
}

} // verus!

verus! {

/// The component map agrees with the component numbering of `orig`.
pub open spec fn comp_matches(comp: Seq<u32>, orig: Seq<u16>, w: int, h: int) -> bool {
    &&& comp.len() == w * h
    &&& forall|q: int| 0 <= q < w * h ==> #[trigger] comp[q] as int == component_id(orig, w, h, q)
}

pub(crate) fn comp_sizes(comp: &Vec<u32>, count: usize, Ghost(orig): Ghost<Seq<u16>>, w: usize, h: usize) -> (sizes: Vec<usize>)
    requires
        comp_matches(comp@, orig, w as int, h as int),
        w * h <= usize::MAX,
        count == component_count(orig, w as int, h as int),
    ensures
        sizes@.len() == count,
        forall|k: int| 0 <= k < count ==> #[trigger] sizes@[k] == comp_size(orig, w as int, h as int, k),
{
    let n = w * h;
    let mut sizes: Vec<usize> = Vec::new();
    let mut k: usize = 0;
    while k < count
        invariant
            sizes@.len() == k,
            k <= count,
            forall|j: int| 0 <= j < k ==> sizes@[j] == 0,
        decreases count - k,
    {
        sizes.push(0);
        k += 1;
    }
    let mut p: usize = 0;
    while p < n
        invariant
            n == w * h,
            comp_matches(comp@, orig, w as int, h as int),
            count == component_count(orig, w as int, h as int),
            sizes@.len() == count,
            p <= n,
            forall|j: int| 0 <= j < count ==> #[trigger] sizes@[j] == size_below(orig, w as int, h as int, j, p as int),
        decreases n - p,
    {
        let c = comp[p] as usize;
        proof {
            lemma_component_id(orig, w as int, h as int, p as int, p as int);
            lemma_size_bound(orig, w as int, h as int, c as int, p as int);
        }
        let v = sizes[c];
        sizes.set(c, v + 1);
        p += 1;
    }
    sizes
}

fn member_links(comp: &Vec<u32>, count: usize) -> (res: (Vec<u32>, Vec<u32>))
    requires
        comp@.len() < u32::MAX,
        forall|q: int| 0 <= q < comp@.len() ==> (#[trigger] comp@[q] as int) < count,
    ensures
        res.0@.len() == comp@.len(),
        res.1@.len() == count,
        forall|c: int| 0 <= c < count ==> #[trigger] res.1@[c] as int == next_member(comp@, c, 0),
        forall|q: int|
            0 <= q < comp@.len() ==> #[trigger] res.0@[q] as int == next_member(
                comp@,
                comp@[q] as int,
                q + 1,
            ),
{
    let n = comp.len();
    let mut head: Vec<u32> = Vec::new();
    let mut k: usize = 0;
    while k < count
        invariant
            head@.len() == k,
            k <= count,
            forall|j: int| 0 <= j < k ==> head@[j] == u32::MAX,
        decreases count - k,
    {
        head.push(u32::MAX);
        k += 1;
    }
    let mut next: Vec<u32> = Vec::new();
    let mut p: usize = 0;
    while p < n
        invariant
            next@.len() == p,
            p <= n,
            forall|j: int| 0 <= j < p ==> next@[j] == u32::MAX,
        decreases n - p,
    {
        next.push(u32::MAX);
        p += 1;
    }
    let mut i: usize = n;
    while i > 0
        invariant
            n == comp@.len(),
            n < u32::MAX,
            i <= n,
            head@.len() == count,
            next@.len() == n,
            forall|q: int| 0 <= q < comp@.len() ==> (#[trigger] comp@[q] as int) < count,
            forall|c: int| 0 <= c < count ==> #[trigger] head@[c] as int == next_member(comp@, c, i as int),
            forall|q: int|
                i <= q < n ==> #[trigger] next@[q] as int == next_member(comp@, comp@[q] as int, q + 1),
        decreases i,
    {
        let q = i - 1;
        let c = comp[q] as usize;
        let hc = head[c];
        let ghost head0 = head@;
        next.set(q, hc);
        head.set(c, q as u32);
        proof {
            assert forall|c2: int| 0 <= c2 < count implies #[trigger] head@[c2] as int == next_member(
                comp@,
                c2,
                q as int,
            ) by {
                if c2 != c {
                    assert(head@[c2] == head0[c2]);
                }
            }
        }
        i = q;
    }
    (next, head)
}

/// The label that pixel `p`'s neighbour in direction `d` votes for, if it votes: it
/// exists, lies outside component `k` and carries that label.
fn neighbour_vote(
    labels: &[u16],
    comp: &Vec<u32>,
    w: usize,
    h: usize,
    k: u32,
    p: usize,
    d: usize,
    Ghost(orig): Ghost<Seq<u16>>,
) -> (res: Option<u16>)
    requires
        comp_matches(comp@, orig, w as int, h as int),
        w * h <= labels@.len(),
        w * h < u32::MAX,
        p < w * h,
        d < 4,
        component_id(orig, w as int, h as int, p as int) == k,
    ensures
        forall|l: u16|
            #[trigger] votes(orig, labels@, w as int, h as int, k as int, p as int, l, d + 1) == votes(
                orig,
                labels@,
                w as int,
                h as int,
                k as int,
                p as int,
                l,
                d as int,
            ) + if res == Some(l) { 1nat } else { 0nat },
{
    let ghost (wi, hi, pi, di) = (w as int, h as int, p as int, d as int);
    proof {
        lemma_coords(wi, hi, pi);
        lemma_step_intro(wi, hi, pi);
    }
    let x = p % w;
    let y = p / w;
    let has = if d == 0 {
        x > 0
    } else if d == 1 {
        x + 1 < w
    } else if d == 2 {
        y > 0
    } else {
        y + 1 < h
    };
    if has {
        let q = if d == 0 {
            p - 1
        } else if d == 1 {
            p + 1
        } else if d == 2 {
            proof {
                lemma_step_sym(wi, hi, pi, pi - wi);
            }
            p - w
        } else {
            proof {
                lemma_step_sym(wi, hi, pi, pi + wi);
            }
            p + w
        };
        proof {
            if d == 1 {
                lemma_step_sym(wi, hi, pi, pi + 1);
            }
            if d == 0 {
                lemma_step_sym(wi, hi, pi, pi - 1);
            }
            assert(q as int == nb(wi, pi, di));
            assert(has_nb(wi, hi, pi, di));
        }
        if comp[q] != k {
            Some(labels[q])
        } else {
            None
        }
    } else {
        None
    }
}

/// The vote of pixel `p`'s neighbour in direction `d`.
pub(crate) fn vote_dir(
    tl: &mut Vec<(u16, u64)>,
    labels: &[u16],
    comp: &Vec<u32>,
    w: usize,
    h: usize,
    k: u32,
    p: usize,
    d: usize,
    Ghost(orig): Ghost<Seq<u16>>,
    Ghost(base): Ghost<spec_fn(u16) -> nat>,
)
    requires
        comp_matches(comp@, orig, w as int, h as int),
        w * h <= labels@.len(),
        w * h < u32::MAX,
        p < w * h,
        d < 4,
        component_id(orig, w as int, h as int, p as int) == k,
        forall|l: u16| #[trigger] base(l) <= 4 * (w * h),
        tally_list(
            old(tl)@,
            |l: u16| base(l) + votes(orig, labels@, w as int, h as int, k as int, p as int, l, d as int),
        ),
    ensures
        tally_list(
            final(tl)@,
            |l: u16| base(l) + votes(orig, labels@, w as int, h as int, k as int, p as int, l, d + 1),
        ),
{
    let ghost (wi, hi, cur, ki, pi, di) = (w as int, h as int, labels@, k as int, p as int, d as int);
    let ghost f = |l: u16| base(l) + votes(orig, cur, wi, hi, ki, pi, l, di);
    let ghost g = |l: u16| base(l) + votes(orig, cur, wi, hi, ki, pi, l, di + 1);
    match neighbour_vote(labels, comp, w, h, k, p, d, Ghost(orig)) {
        Some(l) => {
            proof {
                lemma_votes_bound(orig, cur, wi, hi, ki, pi, l, di);
                assert(g =~= (|m: u16| f(m) + if m == l { 1nat } else { 0nat }));
            }
            add_vote(tl, l, Ghost(f));
        },
        None => {
            proof {
                assert(g =~= f);
            }
        },
    }
}

/// Component `k`'s border tally against the current labels.
fn border_tally(
    labels: &[u16],
    comp: &Vec<u32>,
    next: &Vec<u32>,
    head: &Vec<u32>,
    w: usize,
    h: usize,
    k: u32,
    Ghost(orig): Ghost<Seq<u16>>,
) -> (tl: HashMap<u16, u64>)
    requires
        comp_matches(comp@, orig, w as int, h as int),
        w * h <= labels@.len(),
        w * h < u32::MAX,
        (k as int) < component_count(orig, w as int, h as int),
        head@.len() == component_count(orig, w as int, h as int),
        next@.len() == w * h,
        head@[k as int] as int == next_member(comp@, k as int, 0),
        forall|q: int|
            0 <= q < w * h ==> #[trigger] next@[q] as int == next_member(comp@, comp@[q] as int, q + 1),
    ensures
        tally_map(tl@, |l: u16| tally(orig, labels@, w as int, h as int, k as int, l)),
{
    let ghost (wi, hi, cur, ki) = (w as int, h as int, labels@, k as int);
    let n = w * h;
    let mut tl: HashMap<u16, u64> = HashMap::new();
    let mut p: u32 = head[k as usize];
    let ghost mut j: int = 0;
    proof {
        assert(tally_map(tl@, |l: u16| tally_below(orig, cur, wi, hi, ki, l, j)));
        lemma_next_member(comp@, ki, 0);
    }
    while p != u32::MAX
        invariant
            n == w * h,
            n < u32::MAX,
            wi == w,
            hi == h,
            ki == k,
            cur == labels@,
            n <= cur.len(),
            comp_matches(comp@, orig, wi, hi),
            next@.len() == n,
            forall|q: int|
                0 <= q < n ==> #[trigger] next@[q] as int == next_member(comp@, comp@[q] as int, q + 1),
            0 <= j <= n,
            p as int == next_member(comp@, ki, j),
            p == u32::MAX || (j <= p < n && comp@[p as int] == k),
            forall|q: int| j <= q < n && q < p ==> comp@[q] != k,
            tally_map(tl@, |l: u16| tally_below(orig, cur, wi, hi, ki, l, j)),
        decreases n - j,
    {
        let pu = p as usize;
        let ghost base = |l: u16| tally_below(orig, cur, wi, hi, ki, l, pu as int);
        proof {
            assert forall|l: u16| #[trigger] tally_below(orig, cur, wi, hi, ki, l, pu as int)
                == tally_below(orig, cur, wi, hi, ki, l, j) by {
                assert forall|q: int| j <= q < pu implies component_id(orig, wi, hi, q) != ki by {
                    assert(comp@[q] != k);
                }
                lemma_tally_skip(orig, cur, wi, hi, ki, l, j, pu as int);
            }
            assert((|l: u16| base(l) + votes(orig, cur, wi, hi, ki, pu as int, l, 0)) =~= (|l: u16| tally_below(orig, cur, wi, hi, ki, l, j)));
            assert forall|l: u16| #[trigger] base(l) <= 4 * (w * h) by {
                lemma_tally_bound(orig, cur, wi, hi, ki, l, pu as int);
            }
            assert(component_id(orig, wi, hi, pu as int) == ki);
        }
        let mut d: usize = 0;
        while d < 4
            invariant
                n == w * h,
                n < u32::MAX,
                wi == w,
                hi == h,
                ki == k,
                cur == labels@,
                n <= cur.len(),
                pu < n,
                comp_matches(comp@, orig, wi, hi),
                component_id(orig, wi, hi, pu as int) == ki,
                forall|l: u16| #[trigger] base(l) <= 4 * (w * h),
                d <= 4,
                tally_map(tl@, |l: u16| base(l) + votes(orig, cur, wi, hi, ki, pu as int, l, d as int)),
            decreases 4 - d,
        {
            let ghost f = |l: u16| base(l) + votes(orig, cur, wi, hi, ki, pu as int, l, d as int);
            let ghost g = |l: u16| base(l) + votes(orig, cur, wi, hi, ki, pu as int, l, d + 1);
            match neighbour_vote(labels, comp, w, h, k, pu, d, Ghost(orig)) {
                Some(l) => {
                    proof {
                        lemma_votes_bound(orig, cur, wi, hi, ki, pu as int, l, d as int);
                        assert(g =~= (|m: u16| f(m) + if m == l { 1nat } else { 0nat }));
                    }
                    count_vote(&mut tl, l, Ghost(f));
                },
                None => {
                    proof {
                        assert(g =~= f);
                    }
                },
            }
            d += 1;
        }
        proof {
            assert((|l: u16| base(l) + votes(orig, cur, wi, hi, ki, pu as int, l, 4)) =~= (|l: u16| tally_below(orig, cur, wi, hi, ki, l, pu + 1)));
            lemma_next_member(comp@, ki, pu + 1);
            j = pu + 1;
        }
        p = next[pu];
    }
    proof {
        assert forall|l: u16| #[trigger] tally_below(orig, cur, wi, hi, ki, l, n as int)
            == tally_below(orig, cur, wi, hi, ki, l, j) by {
            assert forall|q: int| j <= q < n implies component_id(orig, wi, hi, q) != ki by {
                assert(comp@[q] != k);
            }
            lemma_tally_skip(orig, cur, wi, hi, ki, l, j, n as int);
        }
        assert((|l: u16| tally(orig, cur, wi, hi, ki, l)) =~= (|l: u16| tally_below(orig, cur, wi, hi, ki, l, j)));
    }
    tl
}

} // verus!

verus! {

/// Give every pixel of component `k` the label `b`.
fn relabel(
    labels: &mut [u16],
    comp: &Vec<u32>,
    next: &Vec<u32>,
    head: &Vec<u32>,
    w: usize,
    h: usize,
    k: u32,
    b: u16,
    Ghost(orig): Ghost<Seq<u16>>,
)
    requires
        comp_matches(comp@, orig, w as int, h as int),
        w * h <= old(labels)@.len(),
        w * h < u32::MAX,
        (k as int) < component_count(orig, w as int, h as int),
        head@.len() == component_count(orig, w as int, h as int),
        next@.len() == w * h,
        head@[k as int] as int == next_member(comp@, k as int, 0),
        forall|q: int|
            0 <= q < w * h ==> #[trigger] next@[q] as int == next_member(comp@, comp@[q] as int, q + 1),
    ensures
        final(labels)@ == Seq::new(
            old(labels)@.len(),
            |q: int|
                if 0 <= q < w * h && component_id(orig, w as int, h as int, q) == k {
                    b
                } else {
                    old(labels)@[q]
                },
        ),
{
    let ghost (wi, hi, cur, ki) = (w as int, h as int, labels@, k as int);
    let n = w * h;
    let mut p: u32 = head[k as usize];
    let ghost mut j: int = 0;
    proof {
        lemma_next_member(comp@, ki, 0);
    }
    while p != u32::MAX
        invariant
            n == w * h,
            n < u32::MAX,
            wi == w,
            hi == h,
            ki == k,
            n <= cur.len(),
            labels@.len() == cur.len(),
            comp_matches(comp@, orig, wi, hi),
            next@.len() == n,
            forall|q: int|
                0 <= q < n ==> #[trigger] next@[q] as int == next_member(comp@, comp@[q] as int, q + 1),
            0 <= j <= n,
            p as int == next_member(comp@, ki, j),
            p == u32::MAX || (j <= p < n && comp@[p as int] == k),
            forall|q: int| j <= q < n && q < p ==> comp@[q] != k,
            forall|q: int|
                0 <= q < cur.len() ==> #[trigger] labels@[q] == if 0 <= q < j && comp@[q] == k {
                    b
                } else {
                    cur[q]
                },
        decreases n - j,
    {
        let pu = p as usize;
        labels[pu] = b;
        proof {
            lemma_next_member(comp@, ki, pu + 1);
            j = pu + 1;
        }
        p = next[pu];
    }
    proof {
        assert forall|q: int| 0 <= q < cur.len() implies #[trigger] labels@[q] == (if 0 <= q < w * h
            && component_id(orig, wi, hi, q) == k {
            b
        } else {
            cur[q]
        }) by {
            if 0 <= q < n {
                assert(comp@[q] as int == component_id(orig, wi, hi, q));
            }
        }
        assert(labels@ =~= Seq::new(
            cur.len(),
            |q: int|
                if 0 <= q < w * h && component_id(orig, wi, hi, q) == k {
                    b
                } else {
                    cur[q]
                },
        ));
    }
}

pub proof fn lemma_best_unique(orig: Seq<u16>, cur: Seq<u16>, w: int, h: int, k: int, a: u16, b: u16)
    requires
        is_best(orig, cur, w, h, k, a),
        is_best(orig, cur, w, h, k, b),
    ensures
        a == b,
{
    assert(tally(orig, cur, w, h, k, a) > 0);
    assert(tally(orig, cur, w, h, k, b) > 0);
}

/// Absorb connected components smaller than `min_size` into their largest neighbour.
///
/// Components are taken in order of their first pixel in scan order; each small one takes
/// the neighbouring label it shares the longest border with (the smallest label on a
/// tie), reading the labels as the components before it left them. A component with no
/// neighbour keeps its label.
pub fn despeckle(labels: &mut [u16], w: usize, h: usize, min_size: usize)
    requires
        w * h <= old(labels)@.len(),
        w * h < u32::MAX,
    ensures
        final(labels)@ == despeckled(old(labels)@, w as int, h as int, min_size as int),
{
    if min_size <= 1 {
        return;
    }
    let ghost (orig, wi, hi) = (labels@, w as int, h as int);
    let n = w * h;
    let (comp, ink) = label_components(labels, w, h, 4294967294);
    let count = ink.len();
    proof {
        lemma_firsts_bound(orig, wi, hi, n as int);
        assert forall|q: int| 0 <= q < n implies #[trigger] comp@[q] as int == component_id(orig, wi, hi, q) by {
            lemma_component_id(orig, wi, hi, q, q);
        }
        assert forall|q: int| 0 <= q < comp@.len() implies (#[trigger] comp@[q] as int) < count by {
            lemma_component_id(orig, wi, hi, q, q);
        }
    }
    let sizes = comp_sizes(&comp, count, Ghost(orig), w, h);
    let (next, head) = member_links(&comp, count);
    let mut k: usize = 0;
    while k < count
        invariant
            n == w * h,
            n < u32::MAX,
            wi == w,
            hi == h,
            n <= orig.len(),
            min_size > 1,
            count == component_count(orig, wi, hi),
            count <= n,
            comp_matches(comp@, orig, wi, hi),
            sizes@.len() == count,
            forall|c: int| 0 <= c < count ==> #[trigger] sizes@[c] == comp_size(orig, wi, hi, c),
            head@.len() == count,
            next@.len() == n,
            forall|c: int| 0 <= c < count ==> #[trigger] head@[c] as int == next_member(comp@, c, 0),
            forall|q: int|
                0 <= q < n ==> #[trigger] next@[q] as int == next_member(comp@, comp@[q] as int, q + 1),
            k <= count,
            labels@ == absorb_upto(orig, wi, hi, min_size as int, k as int),
        decreases count - k,
    {
        let ghost cur = labels@;
        if sizes[k] >= min_size {
            k += 1;
            continue;
        }
        proof {
            assert(labels@.len() == orig.len()) by {
                lemma_absorb_len(orig, wi, hi, min_size as int, k as int);
            }
        }
        let tl = border_tally(labels, &comp, &next, &head, w, h, k as u32, Ghost(orig));
        let ghost f = |l: u16| tally(orig, cur, wi, hi, k as int, l);
        proof {
            assert(f =~= (|l: u16| tally(orig, labels@, w as int, h as int, (k as u32) as int, l)));
        }
        let best = best_in(&tl, Ghost(f));
        match best {
            None => {
                proof {
                    assert(!(exists|l: u16| is_best(orig, cur, wi, hi, k as int, l))) by {
                        if exists|l: u16| is_best(orig, cur, wi, hi, k as int, l) {
                            let l = choose|l: u16| is_best(orig, cur, wi, hi, k as int, l);
                            assert(f(l) == 0);
                        }
                    }
                }
            },
            Some(b) => {
                proof {
                    assert(f(b) > 0);
                    assert forall|m: u16| #[trigger] tally(orig, cur, wi, hi, k as int, m) > 0 implies tally(
                        orig,
                        cur,
                        wi,
                        hi,
                        k as int,
                        m,
                    ) < tally(orig, cur, wi, hi, k as int, b) || (tally(orig, cur, wi, hi, k as int, m)
                        == tally(orig, cur, wi, hi, k as int, b) && b <= m) by {
                        assert(f(m) > 0);
                    }
                    assert(is_best(orig, cur, wi, hi, k as int, b));
                    let c = choose|l: u16| is_best(orig, cur, wi, hi, k as int, l);
                    lemma_best_unique(orig, cur, wi, hi, k as int, b, c);
                }
                relabel(labels, &comp, &next, &head, w, h, k as u32, b, Ghost(orig));
            },
        }
        k += 1;
    }
}

/// After the first `k` components have had their turn, a pixel of a later component or of
/// one of at least `min_size` pixels has its label as it came, and two pixels of one
/// component have one label.
proof fn lemma_absorb_upto_shape(orig: Seq<u16>, w: int, h: int, min_size: int, k: int, p: int, q: int)
    requires
        0 <= k,
        w * h <= orig.len(),
        0 <= p < w * h,
        0 <= q < w * h,
    ensures
        (component_id(orig, w, h, p) >= k || comp_size(orig, w, h, component_id(orig, w, h, p)) >= min_size)
            ==> absorb_upto(orig, w, h, min_size, k)[p] == orig[p],
        component_id(orig, w, h, p) == component_id(orig, w, h, q) ==> absorb_upto(orig, w, h, min_size, k)[p]
            == absorb_upto(orig, w, h, min_size, k)[q],
    decreases k,
{
    lemma_absorb_len(orig, w, h, min_size, k);
    if k == 0 {
        if component_id(orig, w, h, p) == component_id(orig, w, h, q) {
            lemma_component_id(orig, w, h, p, q);
            crate::grid::lemma_connected_label(orig, w, h, p, q);
        }
    } else {
        lemma_absorb_upto_shape(orig, w, h, min_size, k - 1, p, q);
        lemma_absorb_len(orig, w, h, min_size, k - 1);
    }
}

/// Speckle removal leaves every component of at least `min_size` pixels as it came, and
/// gives all the pixels of a smaller one one label: a component is absorbed whole or not
/// at all.
pub proof fn lemma_despeckle_keeps_large_components(orig: Seq<u16>, w: int, h: int, min_size: int, p: int, q: int)
    requires
        w * h <= orig.len(),
        0 <= p < w * h,
        0 <= q < w * h,
    ensures
        comp_size(orig, w, h, component_id(orig, w, h, p)) >= min_size ==> despeckled(orig, w, h, min_size)[p]
            == orig[p],
        component_id(orig, w, h, p) == component_id(orig, w, h, q) ==> despeckled(orig, w, h, min_size)[p]
            == despeckled(orig, w, h, min_size)[q],
{
    if min_size <= 1 {
        if component_id(orig, w, h, p) == component_id(orig, w, h, q) {
            lemma_component_id(orig, w, h, p, q);
            crate::grid::lemma_connected_label(orig, w, h, p, q);
        }
    } else {
        lemma_firsts_bound(orig, w, h, w * h);
        lemma_absorb_upto_shape(orig, w, h, min_size, component_count(orig, w, h), p, q);
    }
}

proof fn lemma_absorb_len(orig: Seq<u16>, w: int, h: int, min_size: int, k: int)
    ensures
        absorb_upto(orig, w, h, min_size, k).len() == orig.len(),
    decreases k,
{
    if k > 0 {
        lemma_absorb_len(orig, w, h, min_size, k - 1);
    }
}

} // verus!
