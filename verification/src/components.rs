//! Connected components of a label map by flood fill, numbered in scan order.
use vstd::prelude::*;

use crate::grid::{
    component_count, component_id, connected, first_of, firsts_below, is_first, lemma_closed_set,
    lemma_component_id, lemma_connected_label, lemma_connected_linked, lemma_connected_range,
    lemma_connected_refl, lemma_connected_trans, lemma_coords, lemma_first_of,
    lemma_first_of_first, lemma_firsts_mono, lemma_linked_sym, lemma_same_first,
    lemma_step_cases, lemma_step_intro, lemma_step_sym, linked, step,
};

verus! {

/// The number of unvisited entries (`u32::MAX`) of a component map under construction.
pub open spec fn unvisited(s: Seq<u32>) -> nat
    decreases s.len(),
{
    if s.len() == 0 {
        0
    } else {
        unvisited(s.drop_last()) + if s.last() == u32::MAX {
            1nat
        } else {
            0nat
        }
    }
}

proof fn lemma_unvisited_update(s: Seq<u32>, i: int, v: u32)
    requires
        0 <= i < s.len(),
        s[i] == u32::MAX,
        v != u32::MAX,
    ensures
        unvisited(s.update(i, v)) + 1 == unvisited(s),
    decreases s.len(),
{
    let t = s.update(i, v);
    if i < s.len() - 1 {
        assert(t.drop_last() =~= s.drop_last().update(i, v));
        lemma_unvisited_update(s.drop_last(), i, v);
    } else {
        assert(t.drop_last() =~= s.drop_last());
    }
}

/// Pixels already numbered, other than the component `k` being filled, carry their final
/// component number and label.
pub open spec fn settled(
    labels: Seq<u16>,
    w: int,
    h: int,
    comp: Seq<u32>,
    ink: Seq<u16>,
    seed: int,
    k: int,
) -> bool {
    forall|a: int|
        0 <= a < w * h && #[trigger] comp[a] != u32::MAX && comp[a] != k ==> comp[a] < k
            && comp[a] == component_id(labels, w, h, a) && first_of(labels, w, h, a) < seed
            && ink[comp[a] as int] == labels[a]
}

/// Pixels not yet numbered belong to components that start at or after `seed`.
pub open spec fn unstarted(labels: Seq<u16>, w: int, h: int, comp: Seq<u32>, seed: int) -> bool {
    forall|a: int|
        0 <= a < w * h && #[trigger] comp[a] == u32::MAX ==> first_of(labels, w, h, a) >= seed
}

/// Everything numbered `k` is connected to the seed.
pub open spec fn sound(labels: Seq<u16>, w: int, h: int, comp: Seq<u32>, seed: int, k: int) -> bool {
    forall|a: int| 0 <= a < w * h && #[trigger] comp[a] == k ==> connected(labels, w, h, seed, a)
}

/// Every pixel numbered `k` that is off the stack (and is not `pending`) has no unvisited
/// same-label neighbour.
pub open spec fn frontier(
    labels: Seq<u16>,
    w: int,
    h: int,
    comp: Seq<u32>,
    stack: Seq<usize>,
    k: int,
    pending: int,
) -> bool {
    forall|a: int, b: int|
        0 <= a < w * h && a != pending && #[trigger] comp[a] == k && !stack.contains(a as usize)
            && #[trigger] linked(labels, w, h, a, b) ==> comp[b] != u32::MAX
}

/// What one flood fill from seed `seed`, numbering its component `k`, keeps true while its
/// stack drains. `pending` is the pixel whose neighbours are being visited (or `-1`).
pub open spec fn fill_inv(
    labels: Seq<u16>,
    w: int,
    h: int,
    comp: Seq<u32>,
    stack: Seq<usize>,
    ink: Seq<u16>,
    seed: int,
    k: int,
    pending: int,
) -> bool {
    &&& comp.len() == w * h
    &&& w * h <= usize::MAX
    &&& 0 <= seed < w * h
    &&& 0 <= k < u32::MAX
    &&& ink.len() == k + 1
    &&& ink[k] == labels[seed]
    &&& comp[seed] == k
    &&& is_first(labels, w, h, seed)
    &&& first_of(labels, w, h, seed) == seed
    &&& k == firsts_below(labels, w, h, seed)
    &&& forall|j: int|
        0 <= j < stack.len() ==> 0 <= #[trigger] stack[j] < w * h && comp[stack[j] as int] == k
    &&& sound(labels, w, h, comp, seed, k)
    &&& settled(labels, w, h, comp, ink, seed, k)
    &&& unstarted(labels, w, h, comp, seed)
    &&& frontier(labels, w, h, comp, stack, k, pending)
}

/// What the seed scan keeps true between seeds.
pub open spec fn scan_inv(
    labels: Seq<u16>,
    w: int,
    h: int,
    comp: Seq<u32>,
    ink: Seq<u16>,
    seed: int,
) -> bool {
    &&& comp.len() == w * h
    &&& 0 <= seed <= w * h
    &&& ink.len() == firsts_below(labels, w, h, seed)
    &&& forall|a: int|
        0 <= a < w * h ==> (#[trigger] comp[a] == u32::MAX <==> first_of(labels, w, h, a) >= seed)
    &&& forall|a: int|
        0 <= a < w * h && #[trigger] comp[a] != u32::MAX ==> comp[a] == component_id(
            labels,
            w,
            h,
            a,
        ) && ink[comp[a] as int] == labels[a] && comp[a] < ink.len()
}

/// Marking an unvisited pixel connected to the seed, and pushing it, keeps the fill going.
proof fn lemma_fill_mark(
    labels: Seq<u16>,
    w: int,
    h: int,
    comp: Seq<u32>,
    stack: Seq<usize>,
    ink: Seq<u16>,
    seed: int,
    k: int,
    p: int,
    q: usize,
)
    requires
        fill_inv(labels, w, h, comp, stack, ink, seed, k, p),
        q < w * h,
        comp[q as int] == u32::MAX,
        connected(labels, w, h, seed, q as int),
    ensures
        fill_inv(labels, w, h, comp.update(q as int, k as u32), stack.push(q), ink, seed, k, p),
{
    let c = comp.update(q as int, k as u32);
    let s = stack.push(q);
    assert forall|j: int| 0 <= j < s.len() implies 0 <= #[trigger] s[j] < w * h && c[s[j] as int]
        == k by {
        if j < stack.len() {
            assert(s[j] == stack[j]);
        }
    }
    assert forall|a: int, b: int|
        0 <= a < w * h && a != p && #[trigger] c[a] == k && !s.contains(a as usize)
            && #[trigger] linked(labels, w, h, a, b) implies c[b] != u32::MAX by {
        lemma_linked_sym(labels, w, h, a, b);
        if a != q {
            assert(!stack.contains(a as usize)) by {
                if stack.contains(a as usize) {
                    let j = choose|j: int| 0 <= j < stack.len() && stack[j] == a as usize;
                    assert(s[j] == stack[j]);
                }
            }
            assert(comp[a] == k);
            if b != q {
                assert(comp[b] != u32::MAX);
                assert(c[b] == comp[b]);
            }
        } else {
            assert(s[s.len() - 1] == q);
        }
    }
    assert(frontier(labels, w, h, c, s, k, p));
    assert forall|a: int| 0 <= a < w * h && #[trigger] c[a] == k implies connected(
        labels,
        w,
        h,
        seed,
        a,
    ) by {
        if a != q {
            assert(comp[a] == k);
        }
    }
    assert forall|a: int|
        0 <= a < w * h && #[trigger] c[a] != u32::MAX && c[a] != k implies c[a] < k && c[a]
            == component_id(labels, w, h, a) && first_of(labels, w, h, a) < seed && ink[c[a] as int]
            == labels[a] by {
        assert(comp[a] == c[a]);
    }
    assert forall|a: int| 0 <= a < w * h && #[trigger] c[a] == u32::MAX implies first_of(
        labels,
        w,
        h,
        a,
    ) >= seed by {
        assert(comp[a] == c[a]);
    }
}

/// Popping `p` off the stack: its neighbours are now pending.
proof fn lemma_frontier_pop(
    labels: Seq<u16>,
    w: int,
    h: int,
    comp: Seq<u32>,
    stack: Seq<usize>,
    k: int,
    p: usize,
)
    requires
        frontier(labels, w, h, comp, stack.push(p), k, -1),
        w * h <= usize::MAX,
    ensures
        frontier(labels, w, h, comp, stack, k, p as int),
{
    let s = stack.push(p);
    assert forall|a: int, b: int|
        0 <= a < w * h && a != p && #[trigger] comp[a] == k && !stack.contains(a as usize)
            && #[trigger] linked(labels, w, h, a, b) implies comp[b] != u32::MAX by {
        assert(!s.contains(a as usize)) by {
            if s.contains(a as usize) {
                let j = choose|j: int| 0 <= j < s.len() && s[j] == a as usize;
                if j < stack.len() {
                    assert(stack[j] == a as usize);
                }
            }
        }
    }
}

/// Once all of `p`'s neighbours are visited, `p` is no longer pending.
proof fn lemma_frontier_release(
    labels: Seq<u16>,
    w: int,
    h: int,
    comp: Seq<u32>,
    stack: Seq<usize>,
    k: int,
    p: int,
)
    requires
        frontier(labels, w, h, comp, stack, k, p),
        forall|b: int| #[trigger] linked(labels, w, h, p, b) ==> comp[b] != u32::MAX,
    ensures
        frontier(labels, w, h, comp, stack, k, -1),
{
    assert forall|a: int, b: int|
        0 <= a < w * h && a != -1 && #[trigger] comp[a] == k && !stack.contains(a as usize)
            && #[trigger] linked(labels, w, h, a, b) implies comp[b] != u32::MAX by {
        if a != p {
        }
    }
}

/// Visit neighbour `q` of pixel `p`: mark it and push it when it carries the seed's label
/// and is unvisited.
fn visit(
    labels: &[u16],
    w: usize,
    h: usize,
    comp: &mut Vec<u32>,
    stack: &mut Vec<usize>,
    ink: &Vec<u16>,
    seed: usize,
    k: u32,
    p: usize,
    q: usize,
    lab_here: u16,
)
    requires
        w * h <= labels@.len(),
        fill_inv(
            labels@,
            w as int,
            h as int,
            old(comp)@,
            old(stack)@,
            ink@,
            seed as int,
            k as int,
            p as int,
        ),
        old(comp)@[p as int] == k,
        step(w as int, h as int, p as int, q as int),
        lab_here == labels@[seed as int],
    ensures
        fill_inv(
            labels@,
            w as int,
            h as int,
            final(comp)@,
            final(stack)@,
            ink@,
            seed as int,
            k as int,
            p as int,
        ),
        forall|a: int| 0 <= a < w * h && a != q ==> #[trigger] final(comp)@[a] == old(comp)@[a],
        old(comp)@[q as int] != u32::MAX ==> final(comp)@[q as int] == old(comp)@[q as int],
        labels@[q as int] == lab_here ==> final(comp)@[q as int] != u32::MAX,
        2 * unvisited(final(comp)@) + final(stack)@.len() <= 2 * unvisited(old(comp)@) + old(
            stack,
        )@.len(),
{
    let ghost (lab, wi, hi) = (labels@, w as int, h as int);
    proof {
        lemma_step_sym(wi, hi, p as int, q as int);
        lemma_step_cases(wi, hi, p as int, q as int);
    }
    if comp[q] == u32::MAX && labels[q] == lab_here {
        proof {
            lemma_connected_label(lab, wi, hi, seed as int, p as int);
            assert(linked(lab, wi, hi, p as int, q as int));
            lemma_connected_linked(lab, wi, hi, p as int, q as int);
            lemma_connected_trans(lab, wi, hi, seed as int, p as int, q as int);
            lemma_unvisited_update(comp@, q as int, k);
            lemma_fill_mark(
                lab,
                wi,
                hi,
                comp@,
                stack@,
                ink@,
                seed as int,
                k as int,
                p as int,
                q,
            );
        }
        comp.set(q, k);
        stack.push(q);
    }
}

/// Drain the stack of one flood fill: afterwards every pixel numbered `k` has all its
/// same-label neighbours visited.
fn drain(
    labels: &[u16],
    w: usize,
    h: usize,
    comp: &mut Vec<u32>,
    stack: &mut Vec<usize>,
    ink: &Vec<u16>,
    seed: usize,
    k: u32,
    lab_here: u16,
)
    requires
        w * h <= labels@.len(),
        w * h <= usize::MAX,
        fill_inv(
            labels@,
            w as int,
            h as int,
            old(comp)@,
            old(stack)@,
            ink@,
            seed as int,
            k as int,
            -1,
        ),
        lab_here == labels@[seed as int],
    ensures
        fill_inv(
            labels@,
            w as int,
            h as int,
            final(comp)@,
            final(stack)@,
            ink@,
            seed as int,
            k as int,
            -1,
        ),
        final(stack)@.len() == 0,
{
    let ghost (lab, wi, hi) = (labels@, w as int, h as int);
    while stack.len() > 0
        invariant
            w * h <= labels@.len(),
            w * h <= usize::MAX,
            lab == labels@,
            wi == w,
            hi == h,
            lab_here == labels@[seed as int],
            fill_inv(lab, wi, hi, comp@, stack@, ink@, seed as int, k as int, -1),
        decreases 2 * unvisited(comp@) + stack.len(),
    {
        let ghost stack_before = stack@;
        let p = stack.pop().unwrap();
        proof {
            assert(stack_before == stack@.push(p));
            assert(stack_before[stack_before.len() - 1] == p);
            assert(comp@[p as int] == k);
            lemma_frontier_pop(lab, wi, hi, comp@, stack@, k as int, p);
            lemma_coords(wi, hi, p as int);
            lemma_step_intro(wi, hi, p as int);
            lemma_connected_label(lab, wi, hi, seed as int, p as int);
        }
        let x = p % w;
        let y = p / w;
        let ghost c0 = comp@;
        if x > 0 {
            visit(labels, w, h, comp, stack, ink, seed, k, p, p - 1, lab_here);
        }
        let ghost c1 = comp@;
        if x + 1 < w {
            proof {
                lemma_step_sym(wi, hi, p as int, p as int + 1);
            }
            visit(labels, w, h, comp, stack, ink, seed, k, p, p + 1, lab_here);
        }
        let ghost c2 = comp@;
        if y > 0 {
            proof {
                lemma_step_sym(wi, hi, p as int, p as int - w as int);
            }
            visit(labels, w, h, comp, stack, ink, seed, k, p, p - w, lab_here);
        }
        let ghost c3 = comp@;
        if y + 1 < h {
            proof {
                lemma_step_sym(wi, hi, p as int, p as int + w as int);
            }
            visit(labels, w, h, comp, stack, ink, seed, k, p, p + w, lab_here);
        }
        proof {
            assert forall|b: int| #[trigger] linked(lab, wi, hi, p as int, b) implies comp@[b]
                != u32::MAX by {
                lemma_step_cases(wi, hi, p as int, b);
                lemma_step_sym(wi, hi, p as int, b);
                if b == p - 1 && x > 0 {
                    assert(c1[b] != u32::MAX);
                } else if b == p + 1 && x + 1 < w {
                    assert(c2[b] != u32::MAX);
                } else if b == p - w && y > 0 {
                    assert(c3[b] != u32::MAX);
                }
            }
            lemma_frontier_release(lab, wi, hi, comp@, stack@, k as int, p as int);
        }
    }
}

/// A finished fill numbers exactly the component of its seed, and the scan moves on.
proof fn lemma_fill_done(
    labels: Seq<u16>,
    w: int,
    h: int,
    comp: Seq<u32>,
    ink: Seq<u16>,
    seed: int,
    k: int,
)
    requires
        fill_inv(labels, w, h, comp, Seq::<usize>::empty(), ink, seed, k, -1),
    ensures
        scan_inv(labels, w, h, comp, ink, seed + 1),
{
    let n = w * h;
    let s = Set::new(|a: int| 0 <= a < n && comp[a] == k);
    assert forall|a: int, b: int| s.contains(a) && #[trigger] linked(labels, w, h, a, b) implies s.contains(
        b,
    ) by {
        lemma_linked_sym(labels, w, h, a, b);
        assert(!Seq::<usize>::empty().contains(a as usize));
        assert(comp[b] != u32::MAX);
        if comp[b] != k {
            lemma_connected_linked(labels, w, h, a, b);
            lemma_connected_trans(labels, w, h, seed, a, b);
            lemma_same_first(labels, w, h, seed, b);
        }
    }
    assert forall|a: int| 0 <= a < n implies (#[trigger] comp[a] == k <==> connected(
        labels,
        w,
        h,
        seed,
        a,
    )) by {
        if connected(labels, w, h, seed, a) {
            lemma_closed_set(labels, w, h, s, seed, a);
        }
    }
    assert(firsts_below(labels, w, h, seed + 1) == k + 1);
    assert forall|a: int| 0 <= a < n implies (#[trigger] comp[a] == u32::MAX <==> first_of(
        labels,
        w,
        h,
        a,
    ) >= seed + 1) by {
        lemma_first_of(labels, w, h, a);
        if comp[a] == k {
            lemma_same_first(labels, w, h, seed, a);
        } else if comp[a] == u32::MAX && first_of(labels, w, h, a) == seed {
            lemma_connected_trans(labels, w, h, seed, first_of(labels, w, h, a), a);
        }
    }
    assert forall|a: int| 0 <= a < n && #[trigger] comp[a] != u32::MAX implies comp[a]
        == component_id(labels, w, h, a) && ink[comp[a] as int] == labels[a] && comp[a]
        < ink.len() by {
        if comp[a] == k {
            lemma_same_first(labels, w, h, seed, a);
            lemma_connected_label(labels, w, h, seed, a);
        }
    }
}

/// Starting a fill at an unvisited seed.
proof fn lemma_fill_start(
    labels: Seq<u16>,
    w: int,
    h: int,
    comp: Seq<u32>,
    ink: Seq<u16>,
    seed: int,
    k: u32,
)
    requires
        scan_inv(labels, w, h, comp, ink, seed),
        0 <= seed < w * h,
        w * h <= usize::MAX,
        comp[seed] == u32::MAX,
        k == ink.len(),
        k < u32::MAX,
    ensures
        fill_inv(
            labels,
            w,
            h,
            comp.update(seed, k),
            seq![seed as usize],
            ink.push(labels[seed]),
            seed,
            k as int,
            -1,
        ),
{
    let c = comp.update(seed, k);
    let i = ink.push(labels[seed]);
    let st = seq![seed as usize];
    lemma_first_of(labels, w, h, seed);
    lemma_connected_refl(labels, w, h, seed);
    assert forall|a: int| 0 <= a < w * h && #[trigger] c[a] == k implies a == seed by {
        if a != seed {
            assert(comp[a] == k);
        }
    }
    assert forall|a: int|
        0 <= a < w * h && #[trigger] c[a] != u32::MAX && c[a] != k implies c[a] < k && c[a]
            == component_id(labels, w, h, a) && first_of(labels, w, h, a) < seed && ink.push(
            labels[seed],
        )[c[a] as int] == labels[a] by {
        assert(comp[a] != u32::MAX);
        assert(i[c[a] as int] == ink[c[a] as int]);
    }
    assert forall|a: int, b: int|
        0 <= a < w * h && a != -1 && #[trigger] c[a] == k && !st.contains(a as usize)
            && #[trigger] linked(labels, w, h, a, b) implies c[b] != u32::MAX by {
        assert(st[0] == seed);
    }
    assert(frontier(labels, w, h, c, st, k as int, -1));
    assert forall|a: int| 0 <= a < w * h && #[trigger] c[a] == u32::MAX implies first_of(
        labels,
        w,
        h,
        a,
    ) >= seed by {
        assert(comp[a] == u32::MAX);
    }
}

/// A seed that is already numbered starts no component.
proof fn lemma_scan_skip(
    labels: Seq<u16>,
    w: int,
    h: int,
    comp: Seq<u32>,
    ink: Seq<u16>,
    seed: int,
)
    requires
        scan_inv(labels, w, h, comp, ink, seed),
        0 <= seed < w * h,
        comp[seed] != u32::MAX,
    ensures
        scan_inv(labels, w, h, comp, ink, seed + 1),
{
    lemma_first_of(labels, w, h, seed);
    assert(!is_first(labels, w, h, seed)) by {
        if is_first(labels, w, h, seed) {
            lemma_first_of_first(labels, w, h, seed);
        }
    }
    assert forall|a: int| 0 <= a < w * h implies (#[trigger] comp[a] == u32::MAX <==> first_of(
        labels,
        w,
        h,
        a,
    ) >= seed + 1) by {
        if comp[a] == u32::MAX && first_of(labels, w, h, a) == seed {
            lemma_first_of(labels, w, h, a);
            lemma_same_first(labels, w, h, seed, a);
        }
    }
}

/// Component of every pixel, numbered in order of first appearance in scan order, and
/// the label of each component; at most `limit` components are numbered, and the pixels
/// of any later component are left at `u32::MAX`.
pub fn label_components(labels: &[u16], w: usize, h: usize, limit: u32) -> (res: (
    Vec<u32>,
    Vec<u16>,
))
    requires
        w * h <= labels@.len(),
        w * h <= usize::MAX,
        limit < u32::MAX,
    ensures
        res.0@.len() == w * h,
        res.1@.len() == if component_count(labels@, w as int, h as int) < limit {
            component_count(labels@, w as int, h as int)
        } else {
            limit as int
        },
        forall|p: int|
            0 <= p < w * h ==> #[trigger] res.0@[p] == if component_id(
                labels@,
                w as int,
                h as int,
                p,
            ) < limit {
                component_id(labels@, w as int, h as int, p) as u32
            } else {
                u32::MAX
            },
        forall|p: int|
            0 <= p < w * h && component_id(labels@, w as int, h as int, p) < limit ==> res.1@[
            #[trigger] component_id(labels@, w as int, h as int, p)] == labels@[p],
{
    let n = w * h;
    let ghost lab = labels@;
    let ghost (wi, hi) = (w as int, h as int);
    let mut comp: Vec<u32> = Vec::new();
    let mut i: usize = 0;
    while i < n
        invariant
            n == w * h,
            comp@.len() == i,
            i <= n,
            forall|a: int| 0 <= a < i ==> comp@[a] == u32::MAX,
        decreases n - i,
    {
        comp.push(u32::MAX);
        i += 1;
    }
    let mut ink: Vec<u16> = Vec::new();
    let mut stack: Vec<usize> = Vec::new();
    let mut seed: usize = 0;
    proof {
        assert forall|a: int| 0 <= a < n implies (#[trigger] comp@[a] == u32::MAX <==> first_of(
            lab,
            wi,
            hi,
            a,
        ) >= 0) by {
            lemma_first_of(lab, wi, hi, a);
            lemma_connected_range(lab, wi, hi, first_of(lab, wi, hi, a), a);
        }
    }
    while seed < n
        invariant
            n == w * h,
            n <= labels@.len(),
            lab == labels@,
            wi == w,
            hi == h,
            limit < u32::MAX,
            scan_inv(lab, wi, hi, comp@, ink@, seed as int),
            ink@.len() <= limit,
            stack@.len() == 0,
        ensures
            seed == n || (seed < n && comp@[seed as int] == u32::MAX && ink@.len() == limit),
        decreases n - seed,
    {
        if comp[seed] != u32::MAX {
            proof {
                lemma_scan_skip(lab, wi, hi, comp@, ink@, seed as int);
            }
            seed += 1;
            continue;
        }
        if ink.len() >= limit as usize {
            break;
        }
        let k: u32 = ink.len() as u32;
        let lab_here = labels[seed];
        proof {
            lemma_fill_start(lab, wi, hi, comp@, ink@, seed as int, k);
        }
        ink.push(lab_here);
        comp.set(seed, k);
        stack.push(seed);
        proof {
            assert(stack@ =~= seq![seed]);
        }
        drain(labels, w, h, &mut comp, &mut stack, &ink, seed, k, lab_here);
        proof {
            assert(stack@ =~= Seq::<usize>::empty());
            lemma_fill_done(lab, wi, hi, comp@, ink@, seed as int, k as int);
        }
        seed += 1;
    }
    proof {
        lemma_firsts_mono(lab, wi, hi, seed as int, n as int);
        assert forall|p: int| 0 <= p < n implies #[trigger] comp@[p] == if component_id(
            lab,
            wi,
            hi,
            p,
        ) < limit {
            component_id(lab, wi, hi, p) as u32
        } else {
            u32::MAX
        } by {
            lemma_first_of(lab, wi, hi, p);
            lemma_component_id(lab, wi, hi, p, p);
            if comp@[p] == u32::MAX {
                lemma_firsts_mono(lab, wi, hi, seed as int, first_of(lab, wi, hi, p));
            }
        }
        assert forall|p: int| 0 <= p < n && component_id(lab, wi, hi, p) < limit implies ink@[
            #[trigger] component_id(lab, wi, hi, p)] == lab[p] by {
            assert(comp@[p] != u32::MAX);
        }
    }
    (comp, ink)
}

} // verus!
