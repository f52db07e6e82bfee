//! Walking the boundary segments into curves.
//!
//! A node where exactly two segments meet is a pass-through; every other node is a
//! junction. Curves are walked from each junction along each of its segments not yet
//! taken, through pass-throughs, until the next junction; what is left after that are
//! closed loops of pass-throughs, each walked once round.
use vstd::prelude::*;

use super::dual::{incidence_ok, joins, touches, turn_ok, Seg};

verus! {

/// One boundary curve of the map, as the grid corners it runs through.
///
/// Exactly two faces touch it. Traversed in stored order, `left` lies to the left and
/// `right` to the right.
pub struct Edge {
    /// The corners along the curve, as node ids.
    pub nodes: Vec<u32>,
    /// Face lying to the left, traversed in stored order.
    pub left: u16,
    /// Face lying to the right, traversed in stored order.
    pub right: u16,
    /// Node the curve starts at.
    pub start_node: u32,
    /// Node the curve ends at.
    pub end_node: u32,
    /// True when the curve closes on itself with no junction.
    pub closed: bool,
}

/// The segments are proper: their ends are two different nodes, their sides two different
/// faces, and no two of them run between the same two nodes.
pub open spec fn segs_proper(segs: Seq<Seg>, nn: int) -> bool {
    &&& forall|k: int|
        0 <= k < segs.len() ==> (#[trigger] segs[k]).a < nn && segs[k].b < nn && segs[k].a != segs[k].b
            && segs[k].left != segs[k].right
    &&& forall|k1: int, k2: int, x: int, y: int|
        0 <= k1 < segs.len() && 0 <= k2 < segs.len() && #[trigger] joins(segs[k1], x, y) && #[trigger] joins(
            segs[k2],
            x,
            y,
        ) ==> k1 == k2
}

/// The ends of step `t` of a curve through `nodes`; the step after the last node of a
/// closed curve returns to its first.
pub open spec fn step_ends(nodes: Seq<u32>, t: int) -> (int, int) {
    (nodes[t] as int, if t + 1 < nodes.len() {
        nodes[t + 1] as int
    } else {
        nodes[0] as int
    })
}

/// How many steps a curve through `n` nodes has.
pub open spec fn step_count(n: int, closed: bool) -> int {
    if closed {
        n
    } else {
        n - 1
    }
}

/// Walked from node `x` along segment `s`, the face on the left is `left` and the one on
/// the right `right`.
pub open spec fn step_sided(s: Seg, x: int, left: u16, right: u16) -> bool {
    if s.a == x {
        left == s.left && right == s.right
    } else {
        left == s.right && right == s.left
    }
}

/// Edge `e` is walked along the segments `es`, one per step, and its sides are those of
/// its first segment as it is walked.
pub open spec fn edge_ok(segs: Seq<Seg>, e: Edge, es: Seq<int>) -> bool {
    let n = e.nodes@;
    &&& n.len() >= 2
    &&& es.len() == step_count(n.len() as int, e.closed)
    &&& forall|t: int|
        0 <= t < es.len() ==> 0 <= #[trigger] es[t] < segs.len() && joins(
            segs[es[t]],
            step_ends(n, t).0,
            step_ends(n, t).1,
        )
    &&& e.start_node == n[0]
    &&& e.end_node == if e.closed {
        n[0]
    } else {
        n[n.len() - 1]
    }
    &&& e.closed ==> n.len() >= 3
    &&& step_sided(segs[es[0]], n[0] as int, e.left, e.right)
}

/// Every node inside the curve `e` (all but its first, and its last when it is open) is a
/// pass-through: exactly two segments meet there.
pub open spec fn passes(inc: Seq<Vec<usize>>, e: Edge) -> bool {
    forall|t: int|
        0 < t < step_count(e.nodes@.len() as int, e.closed) ==> #[trigger] inc[e.nodes@[t] as int]@.len() == 2
}

/// The curve `e` runs between junctions: an open one starts and ends where other than two
/// segments meet, and a closed one meets no junction, its first node included.
pub open spec fn ends_ok(inc: Seq<Vec<usize>>, e: Edge) -> bool {
    let n = e.nodes@;
    if e.closed {
        inc[n[0] as int]@.len() == 2
    } else {
        inc[n[0] as int]@.len() != 2 && inc[n[n.len() - 1] as int]@.len() != 2
    }
}

/// Where the curve `e`, walked along the segments `es`, starts: a closed one at the first
/// end of its first-listed segment, stepping along that segment first; an open one at the
/// junction with the smaller id of its two ends.
pub open spec fn loop_start(segs: Seq<Seg>, e: Edge, es: Seq<int>) -> bool {
    &&& e.closed ==> e.nodes@[0] == segs[es[0]].a && forall|t: int| 0 <= t < es.len() ==> es[0] <= #[trigger] es[t]
    &&& !e.closed ==> e.nodes@[0] <= e.nodes@[e.nodes@.len() - 1]
}

/// At every pass-through node the two segments there bound the same two faces.
pub open spec fn carries_over(segs: Seq<Seg>, inc: Seq<Vec<usize>>) -> bool {
    forall|n: int|
        0 <= n < inc.len() && #[trigger] inc[n]@.len() == 2 ==> turn_ok(
            segs[inc[n]@[0] as int],
            segs[inc[n]@[1] as int],
            n,
        )
}

/// Who owns each segment: `owner[k]` is the edge that took segment `k` (the one being
/// walked, `nedges`, included), or `-1`, and `pos[k]` the step it is; `eseg` and `cur`
/// list the segments of the finished edges and of the one being walked.
pub open spec fn owned(
    owner: Seq<int>,
    pos: Seq<int>,
    eseg: Seq<Seq<int>>,
    cur: Seq<int>,
    nedges: int,
    nseg: int,
) -> bool {
    &&& owner.len() == nseg
    &&& pos.len() == nseg
    &&& eseg.len() == nedges
    &&& forall|k: int| 0 <= k < nseg ==> -1 <= #[trigger] owner[k] <= nedges
    &&& forall|e: int, t: int|
        0 <= e < nedges && 0 <= t < eseg[e].len() ==> 0 <= #[trigger] eseg[e][t] < nseg && owner[eseg[e][t]]
            == e && pos[eseg[e][t]] == t
    &&& forall|t: int|
        0 <= t < cur.len() ==> 0 <= #[trigger] cur[t] < nseg && owner[cur[t]] == nedges && pos[cur[t]] == t
    &&& forall|k: int|
        0 <= k < nseg && 0 <= #[trigger] owner[k] < nedges ==> 0 <= pos[k] < eseg[owner[k]].len()
            && eseg[owner[k]][pos[k]] == k
    &&& forall|k: int|
        0 <= k < nseg && #[trigger] owner[k] == nedges ==> 0 <= pos[k] < cur.len() && cur[pos[k]] == k
}

/// Every pass-through node, but the two named, has both its segments taken or neither.
pub open spec fn balanced(inc: Seq<Vec<usize>>, used: Seq<bool>, x1: int, x2: int) -> bool {
    forall|n: int|
        0 <= n < inc.len() && #[trigger] inc[n]@.len() == 2 && n != x1 && n != x2 ==> used[inc[n]@[0] as int]
            == used[inc[n]@[1] as int]
}

/// How many of the first `n` segments are not yet taken.
pub open spec fn free_count(used: Seq<bool>, n: int) -> nat
    decreases n,
{
    if n <= 0 {
        0
    } else {
        free_count(used, n - 1) + if used[n - 1] {
            0nat
        } else {
            1nat
        }
    }
}

proof fn lemma_free_take(used: Seq<bool>, k: int, n: int)
    requires
        0 <= k < n <= used.len(),
        !used[k],
    ensures
        free_count(used.update(k, true), n) + 1 == free_count(used, n),
    decreases n,
{
    if n - 1 != k {
        lemma_free_take(used, k, n - 1);
    } else {
        lemma_free_same(used, used.update(k, true), k);
    }
}

proof fn lemma_free_same(u1: Seq<bool>, u2: Seq<bool>, n: int)
    requires
        0 <= n <= u1.len(),
        n <= u2.len(),
        forall|k: int| 0 <= k < n ==> u1[k] == u2[k],
    ensures
        free_count(u1, n) == free_count(u2, n),
    decreases n,
{
    if n > 0 {
        lemma_free_same(u1, u2, n - 1);
    }
}

/// Taking segment `k` changes the balance only at its two ends.
proof fn lemma_take_balance(
    segs: Seq<Seg>,
    inc: Seq<Vec<usize>>,
    used: Seq<bool>,
    k: int,
    x1: int,
    x2: int,
)
    requires
        incidence_ok(segs, inc, inc.len() as int),
        0 <= k < segs.len(),
        used.len() == segs.len(),
        balanced(inc, used, x1, x2),
    ensures
        forall|n: int|
            0 <= n < inc.len() && #[trigger] inc[n]@.len() == 2 && n != x1 && n != x2 && n != segs[k].a
                && n != segs[k].b ==> used.update(k, true)[inc[n]@[0] as int] == used.update(k, true)[inc[n]@[1] as int],
{
    assert forall|n: int|
        0 <= n < inc.len() && #[trigger] inc[n]@.len() == 2 && n != x1 && n != x2 && n != segs[k].a && n
            != segs[k].b implies used.update(k, true)[inc[n]@[0] as int] == used.update(k, true)[inc[n]@[1] as int] by {
        assert(touches(segs, inc[n]@[0] as int, n));
        assert(touches(segs, inc[n]@[1] as int, n));
    }
}

/// The two segments at a pass-through node `n`: one is `k`, the other is not.
proof fn lemma_pass_through(segs: Seq<Seg>, inc: Seq<Vec<usize>>, n: int, k: int)
    requires
        incidence_ok(segs, inc, inc.len() as int),
        0 <= n < inc.len(),
        inc[n]@.len() == 2,
        0 <= k < segs.len(),
        segs.len() <= usize::MAX,
        touches(segs, k, n),
    ensures
        inc[n]@[0] == k || inc[n]@[1] == k,
        inc[n]@[0] != inc[n]@[1],
        touches(segs, inc[n]@[0] as int, n),
        touches(segs, inc[n]@[1] as int, n),
{
    assert(inc[n]@.contains(k as usize));
    let t = choose|t: int| 0 <= t < inc[n]@.len() && inc[n]@[t] == k as usize;
    assert(inc[n]@[0] < inc[n]@[1]);
    assert(touches(segs, inc[n]@[0] as int, n));
    assert(touches(segs, inc[n]@[1] as int, n));
}

/// Where the two faces carry on through every pass-through node, a curve walked through
/// pass-throughs keeps its two faces on the same sides at every step.
pub proof fn lemma_sides_carry(segs: Seq<Seg>, inc: Seq<Vec<usize>>, e: Edge, es: Seq<int>, t: int)
    requires
        incidence_ok(segs, inc, inc.len() as int),
        segs_proper(segs, inc.len() as int),
        segs.len() <= usize::MAX,
        edge_ok(segs, e, es),
        passes(inc, e),
        carries_over(segs, inc),
        forall|t1: int, t2: int| 0 <= t1 < t2 < es.len() ==> es[t1] != es[t2],
        0 <= t < es.len(),
    ensures
        step_sided(segs[es[t]], e.nodes@[t] as int, e.left, e.right),
    decreases t,
{
    if t > 0 {
        lemma_sides_carry(segs, inc, e, es, t - 1);
        let n = e.nodes@;
        let m = n[t] as int;
        let k1 = es[t - 1];
        let k2 = es[t];
        assert(joins(segs[k1], step_ends(n, t - 1).0, step_ends(n, t - 1).1));
        assert(joins(segs[k2], step_ends(n, t).0, step_ends(n, t).1));
        assert(segs[k2] == segs[es[t]]);
        assert(inc[m]@.len() == 2);
        lemma_pass_through(segs, inc, m, k1);
        lemma_pass_through(segs, inc, m, k2);
        assert(turn_ok(segs[inc[m]@[0] as int], segs[inc[m]@[1] as int], m));
    }
}

/// A segment that is not taken at a pass-through whose balance holds: the other one there
/// is not taken either.
fn other_free(inc: &Vec<Vec<usize>>, used: &Vec<bool>, n: usize, cur_seg: usize) -> (res: Option<usize>)
    requires
        n < inc@.len(),
        forall|t: int| 0 <= t < inc@[n as int]@.len() ==> (#[trigger] inc@[n as int]@[t] as int) < used@.len(),
    ensures
        match res {
            Some(k) => inc@[n as int]@.contains(k) && k != cur_seg && !used@[k as int],
            None => forall|t: int|
                0 <= t < inc@[n as int]@.len() ==> #[trigger] inc@[n as int]@[t] == cur_seg || used@[inc@[n as int]@[t] as int],
        },
{
    let cands = &inc[n];
    let mut t: usize = 0;
    while t < cands.len()
        invariant
            cands@ == inc@[n as int]@,
            forall|q: int| 0 <= q < cands@.len() ==> (#[trigger] cands@[q] as int) < used@.len(),
            t <= cands@.len(),
            forall|q: int| 0 <= q < t ==> #[trigger] cands@[q] == cur_seg || used@[cands@[q] as int],
        decreases cands@.len() - t,
    {
        let k = cands[t];
        if k != cur_seg && !used[k] {
            proof {
                assert(cands@[t as int] == k);
            }
            return Some(k);
        }
        t += 1;
    }
    None
}

/// The segments `cur` are distinct, were free before the walk (`used0`) and are taken now
/// (`used`), and nothing else changed.
pub open spec fn took(used0: Seq<bool>, used: Seq<bool>, cur: Seq<int>) -> bool {
    &&& used.len() == used0.len()
    &&& forall|t1: int, t2: int| 0 <= t1 < t2 < cur.len() ==> cur[t1] != cur[t2]
    &&& forall|t: int| 0 <= t < cur.len() ==> 0 <= #[trigger] cur[t] < used.len() && !used0[cur[t]] && used[cur[t]]
    &&& forall|k: int| 0 <= k < used.len() ==> #[trigger] used[k] == (used0[k] || cur.contains(k))
}

/// The nodes `chain` follow the segments `cur`, one step each.
pub open spec fn follows(segs: Seq<Seg>, chain: Seq<u32>, cur: Seq<int>) -> bool {
    &&& chain.len() == cur.len() + 1
    &&& forall|t: int| 0 <= t < cur.len() ==> joins(segs[#[trigger] cur[t]], chain[t] as int, chain[t + 1] as int)
}

/// Walk one curve from junction `start` along its segment `first`, through pass-through
/// nodes, until a junction (or a pass-through whose other segment is already taken).
fn walk_from(segs: &Vec<Seg>, inc: &Vec<Vec<usize>>, used: &mut Vec<bool>, start: u32, first: usize) -> (res: (
    Vec<u32>,
    u32,
    Ghost<Seq<int>>,
))
    requires
        incidence_ok(segs@, inc@, inc@.len() as int),
        segs_proper(segs@, inc@.len() as int),
        segs@.len() <= usize::MAX,
        old(used)@.len() == segs@.len(),
        (start as int) < inc@.len(),
        inc@[start as int]@.len() != 2,
        first < segs@.len(),
        !old(used)@[first as int],
        touches(segs@, first as int, start as int),
        balanced(inc@, old(used)@, -1, -1),
    ensures
        took(old(used)@, final(used)@, res.2@),
        res.2@.len() >= 1,
        res.2@[0] == first,
        follows(segs@, res.0@, res.2@),
        res.0@[0] == start,
        res.0@[res.0@.len() - 1] == res.1,
        balanced(inc@, final(used)@, -1, -1),
        forall|t: int| 0 < t < res.0@.len() - 1 ==> #[trigger] inc@[res.0@[t] as int]@.len() == 2,
        inc@[res.1 as int]@.len() != 2,
{
    let ghost used0 = used@;
    let ghost nseg = segs@.len() as int;
    let mut chain: Vec<u32> = Vec::new();
    chain.push(start);
    let mut cur_seg = first;
    let mut cur_node = start;
    let ghost mut cur: Seq<int> = Seq::empty();
    loop
        invariant_except_break
            cur_seg < segs@.len(),
            !used@[cur_seg as int],
            touches(segs@, cur_seg as int, cur_node as int),
            (cur_node as int) < inc@.len(),
            balanced(inc@, used@, cur_node as int, -1),
            cur.len() == 0 ==> cur_seg == first && cur_node == start,
            cur.len() >= 1 ==> touches(segs@, cur[cur.len() - 1], cur_node as int),
            chain@[chain@.len() - 1] == cur_node,
            forall|t: int| 0 < t < chain@.len() ==> #[trigger] inc@[chain@[t] as int]@.len() == 2,
        invariant
            incidence_ok(segs@, inc@, inc@.len() as int),
            segs_proper(segs@, inc@.len() as int),
            segs@.len() <= usize::MAX,
            nseg == segs@.len(),
            used0.len() == nseg,
            (start as int) < inc@.len(),
            inc@[start as int]@.len() != 2,
            took(used0, used@, cur),
            follows(segs@, chain@, cur),
            chain@[0] == start,
            cur.len() >= 1 ==> cur[0] == first,
        ensures
            cur.len() >= 1,
            chain@[chain@.len() - 1] == cur_node,
            balanced(inc@, used@, -1, -1),
            forall|t: int| 0 < t < chain@.len() - 1 ==> #[trigger] inc@[chain@[t] as int]@.len() == 2,
            inc@[cur_node as int]@.len() != 2,
        decreases free_count(used@, nseg),
    {
        let ghost u = used@;
        let ghost c0 = cur;
        let ghost ch0 = chain@;
        used.set(cur_seg, true);
        proof {
            cur = cur.push(cur_seg as int);
            lemma_free_take(u, cur_seg as int, nseg);
            lemma_take_balance(segs@, inc@, u, cur_seg as int, cur_node as int, -1);
        }
        let s = segs[cur_seg];
        let next = if s.a == cur_node {
            s.b
        } else {
            s.a
        };
        chain.push(next);
        proof {
            assert(segs@[cur_seg as int] == s);
            assert(joins(s, cur_node as int, next as int));
            assert((next as int) < inc@.len());
            assert forall|t1: int, t2: int| 0 <= t1 < t2 < cur.len() implies cur[t1] != cur[t2] by {
                if t2 == cur.len() - 1 {
                    assert(used@[c0[t1]] && !u[cur_seg as int]);
                }
            }
            assert forall|k: int| 0 <= k < used@.len() implies #[trigger] used@[k] == (used0[k] || cur.contains(k)) by {
                if k == cur_seg {
                    assert(cur[cur.len() - 1] == k);
                } else {
                    assert(u[k] == (used0[k] || c0.contains(k)));
                    if c0.contains(k) {
                        let t = choose|t: int| 0 <= t < c0.len() && c0[t] == k;
                        assert(cur[t] == k);
                    }
                    if cur.contains(k) {
                        let t = choose|t: int| 0 <= t < cur.len() && cur[t] == k;
                        assert(c0[t] == k);
                    }
                }
            }
            assert forall|t: int| 0 <= t < cur.len() implies joins(
                segs@[#[trigger] cur[t]],
                chain@[t] as int,
                chain@[t + 1] as int,
            ) by {
                if t < c0.len() {
                    assert(chain@[t] == ch0[t] && chain@[t + 1] == ch0[t + 1]);
                }
            }
            // The node just left is balanced again: both its segments are taken.
            if inc@[cur_node as int]@.len() == 2 {
                assert(c0.len() >= 1);
                let prev = c0[c0.len() - 1];
                lemma_pass_through(segs@, inc@, cur_node as int, cur_seg as int);
                assert(inc@[cur_node as int]@.contains(prev as usize));
                assert(u[prev]);
            }
            assert(balanced(inc@, used@, next as int, -1));
        }
        if inc[next as usize].len() != 2 {
            cur_node = next;
            break;
        }
        match other_free(inc, used, next as usize, cur_seg) {
            None => {
                proof {
                    // The node reached was balanced before its segment just taken, which
                    // was free: so is the other one there.
                    lemma_pass_through(segs@, inc@, next as int, cur_seg as int);
                    assert(next != cur_node);
                    assert(u[inc@[next as int]@[0] as int] == u[inc@[next as int]@[1] as int]);
                    assert(false);
                }
                break;
            },
            Some(nxt) => {
                proof {
                    let t = choose|t: int| 0 <= t < inc@[next as int]@.len() && inc@[next as int]@[t] == nxt;
                    assert(touches(segs@, nxt as int, next as int));
                }
                cur_seg = nxt;
                cur_node = next;
            },
        }
    }
    (chain, cur_node, Ghost(cur))
}

/// Every segment at a junction is taken.
pub open spec fn junctions_done(inc: Seq<Vec<usize>>, used: Seq<bool>) -> bool {
    forall|n: int, t: int|
        0 <= n < inc.len() && inc[n]@.len() != 2 && 0 <= t < inc[n]@.len() ==> used[#[trigger] inc[n]@[t] as int]
}

/// A free segment's ends are pass-through nodes once every junction's segments are taken.
proof fn lemma_free_ends_pass(segs: Seq<Seg>, inc: Seq<Vec<usize>>, used: Seq<bool>, k: int, n: int)
    requires
        incidence_ok(segs, inc, inc.len() as int),
        segs.len() <= usize::MAX,
        junctions_done(inc, used),
        0 <= k < segs.len(),
        !used[k],
        0 <= n < inc.len(),
        touches(segs, k, n),
    ensures
        inc[n]@.len() == 2,
{
    assert(inc[n]@.contains(k as usize));
    let t = choose|t: int| 0 <= t < inc[n]@.len() && inc[n]@[t] == k as usize;
    if inc[n]@.len() != 2 {
        assert(used[inc[n]@[t] as int]);
    }
}

/// Walk the closed loop of pass-through nodes through the free segment `k`, once round.
fn walk_loop(segs: &Vec<Seg>, inc: &Vec<Vec<usize>>, used: &mut Vec<bool>, k: usize) -> (res: (
    Vec<u32>,
    Ghost<Seq<int>>,
))
    requires
        incidence_ok(segs@, inc@, inc@.len() as int),
        segs_proper(segs@, inc@.len() as int),
        segs@.len() <= usize::MAX,
        old(used)@.len() == segs@.len(),
        k < segs@.len(),
        !old(used)@[k as int],
        junctions_done(inc@, old(used)@),
        balanced(inc@, old(used)@, -1, -1),
    ensures
        took(old(used)@, final(used)@, res.1@),
        res.1@.len() >= 3,
        res.1@[0] == k,
        res.0@.len() == res.1@.len(),
        res.0@[0] == segs@[k as int].a,
        forall|t: int|
            0 <= t < res.1@.len() ==> joins(
                segs@[#[trigger] res.1@[t]],
                step_ends(res.0@, t).0,
                step_ends(res.0@, t).1,
            ),
        balanced(inc@, final(used)@, -1, -1),
        junctions_done(inc@, final(used)@),
        forall|t: int| 0 <= t < res.0@.len() ==> #[trigger] inc@[res.0@[t] as int]@.len() == 2,
{
    let ghost used0 = used@;
    let ghost nseg = segs@.len() as int;
    let s0 = segs[k];
    let mut chain: Vec<u32> = Vec::new();
    chain.push(s0.a);
    let mut cur_seg = k;
    let mut cur_node = s0.a;
    let ghost mut cur: Seq<int> = Seq::empty();
    proof {
        assert(touches(segs@, k as int, s0.a as int));
        lemma_free_ends_pass(segs@, inc@, used0, k as int, s0.a as int);
    }
    loop
        invariant_except_break
            cur_seg < segs@.len(),
            !used@[cur_seg as int],
            touches(segs@, cur_seg as int, cur_node as int),
            (cur_node as int) < inc@.len(),
            balanced(inc@, used@, s0.a as int, cur_node as int),
            cur.len() == 0 ==> cur_seg == k && cur_node == s0.a,
            cur.len() >= 1 ==> touches(segs@, cur[cur.len() - 1], cur_node as int) && cur_node != s0.a,
            follows(segs@, chain@, cur),
            chain@[chain@.len() - 1] == cur_node,
        invariant
            incidence_ok(segs@, inc@, inc@.len() as int),
            segs_proper(segs@, inc@.len() as int),
            segs@.len() <= usize::MAX,
            nseg == segs@.len(),
            used0.len() == nseg,
            junctions_done(inc@, used0),
            !used0[k as int],
            s0 == segs@[k as int],
            (s0.a as int) < inc@.len(),
            took(used0, used@, cur),
            junctions_done(inc@, used@),
            chain@[0] == s0.a,
            cur.len() >= 1 ==> cur[0] == k,
            forall|t: int| 0 <= t < chain@.len() ==> #[trigger] inc@[chain@[t] as int]@.len() == 2,
        ensures
            cur.len() >= 2,
            chain@.len() == cur.len(),
            forall|t: int|
                0 <= t < cur.len() ==> joins(
                    segs@[#[trigger] cur[t]],
                    step_ends(chain@, t).0,
                    step_ends(chain@, t).1,
                ),
            balanced(inc@, used@, -1, -1),
        decreases free_count(used@, nseg),
    {
        let ghost u = used@;
        let ghost c0 = cur;
        let ghost ch0 = chain@;
        proof {
            lemma_free_ends_pass(segs@, inc@, u, cur_seg as int, cur_node as int);
        }
        used.set(cur_seg, true);
        proof {
            cur = cur.push(cur_seg as int);
            lemma_free_take(u, cur_seg as int, nseg);
            lemma_take_balance(segs@, inc@, u, cur_seg as int, s0.a as int, cur_node as int);
            assert forall|n: int, t: int|
                0 <= n < inc@.len() && inc@[n]@.len() != 2 && 0 <= t < inc@[n]@.len() implies used@[
                #[trigger] inc@[n]@[t] as int] by {
                assert(u[inc@[n]@[t] as int]);
            }
            assert forall|t1: int, t2: int| 0 <= t1 < t2 < cur.len() implies cur[t1] != cur[t2] by {
                if t2 == cur.len() - 1 {
                    assert(used@[c0[t1]] && !u[cur_seg as int]);
                }
            }
            assert forall|q: int| 0 <= q < used@.len() implies #[trigger] used@[q] == (used0[q] || cur.contains(q)) by {
                if q == cur_seg {
                    assert(cur[cur.len() - 1] == q);
                } else {
                    assert(u[q] == (used0[q] || c0.contains(q)));
                    if c0.contains(q) {
                        let t = choose|t: int| 0 <= t < c0.len() && c0[t] == q;
                        assert(cur[t] == q);
                    }
                    if cur.contains(q) {
                        let t = choose|t: int| 0 <= t < cur.len() && cur[t] == q;
                        assert(c0[t] == q);
                    }
                }
            }
            // The node just left is balanced again: both its segments are taken.
            if cur_node != s0.a {
                let prev = c0[c0.len() - 1];
                lemma_pass_through(segs@, inc@, cur_node as int, cur_seg as int);
                assert(inc@[cur_node as int]@.contains(prev as usize));
                assert(u[prev]);
            }
        }
        let s = segs[cur_seg];
        let next = if s.a == cur_node {
            s.b
        } else {
            s.a
        };
        proof {
            assert(segs@[cur_seg as int] == s);
            assert(joins(s, cur_node as int, next as int));
            assert((next as int) < inc@.len());
        }
        if next == s0.a {
            proof {
                assert(c0.len() >= 1);
                assert(cur_seg != k);
                assert(cur.len() >= 2);
                // The first node is balanced again: its two segments are the first and the last.
                lemma_free_ends_pass(segs@, inc@, used0, k as int, s0.a as int);
                lemma_pass_through(segs@, inc@, s0.a as int, cur_seg as int);
                assert(touches(segs@, k as int, s0.a as int));
                assert(inc@[s0.a as int]@.contains(k));
                assert(balanced(inc@, used@, -1, -1));
                assert forall|t: int| 0 <= t < cur.len() implies joins(
                    segs@[#[trigger] cur[t]],
                    step_ends(chain@, t).0,
                    step_ends(chain@, t).1,
                ) by {
                    if t < c0.len() {
                        assert(cur[t] == c0[t]);
                    }
                }
            }
            break;
        }
        chain.push(next);
        proof {
            assert forall|t: int| 0 <= t < cur.len() implies joins(
                segs@[#[trigger] cur[t]],
                chain@[t] as int,
                chain@[t + 1] as int,
            ) by {
                if t < c0.len() {
                    assert(chain@[t] == ch0[t] && chain@[t + 1] == ch0[t + 1]);
                }
            }
            // The node reached was balanced, and its segment just taken was free: so is
            // the other one.
            lemma_free_ends_pass(segs@, inc@, u, cur_seg as int, next as int);
            lemma_pass_through(segs@, inc@, next as int, cur_seg as int);
            assert(!u[inc@[next as int]@[0] as int] && !u[inc@[next as int]@[1] as int]);
        }
        match other_free(inc, used, next as usize, cur_seg) {
            None => {
                proof {
                    assert(false);
                }
                break;
            },
            Some(nxt) => {
                proof {
                    let t = choose|t: int| 0 <= t < inc@[next as int]@.len() && inc@[next as int]@[t] == nxt;
                    assert(touches(segs@, nxt as int, next as int));
                }
                cur_seg = nxt;
                cur_node = next;
            },
        }
    }
    proof {
        // Two steps would run between the same two nodes.
        if cur.len() == 2 {
            assert(joins(segs@[cur[0]], chain@[0] as int, chain@[1] as int));
            assert(joins(segs@[cur[1]], chain@[1] as int, chain@[0] as int));
            assert(joins(segs@[cur[1]], chain@[0] as int, chain@[1] as int));
        }
    }
    (chain, Ghost(cur))
}

/// The finished edges, and who owns each segment.
pub open spec fn walk_state(
    segs: Seq<Seg>,
    used: Seq<bool>,
    owner: Seq<int>,
    pos: Seq<int>,
    eseg: Seq<Seq<int>>,
    edges: Seq<Edge>,
) -> bool {
    &&& owned(owner, pos, eseg, Seq::empty(), edges.len() as int, segs.len() as int)
    &&& used.len() == segs.len()
    &&& forall|k: int| 0 <= k < segs.len() ==> #[trigger] used[k] == (owner[k] >= 0)
    &&& forall|e: int| 0 <= e < edges.len() ==> edge_ok(segs, #[trigger] edges[e], eseg[e])
}

/// A walked curve becomes the next finished edge: its segments are owned by it, one per
/// step.
proof fn lemma_emit(
    segs: Seq<Seg>,
    used0: Seq<bool>,
    used: Seq<bool>,
    owner: Seq<int>,
    pos: Seq<int>,
    eseg: Seq<Seq<int>>,
    edges: Seq<Edge>,
    e: Edge,
    cur: Seq<int>,
) -> (res: (Seq<int>, Seq<int>))
    requires
        walk_state(segs, used0, owner, pos, eseg, edges),
        took(used0, used, cur),
        edge_ok(segs, e, cur),
    ensures
        walk_state(segs, used, res.0, res.1, eseg.push(cur), edges.push(e)),
{
    let nseg = segs.len() as int;
    let ne = edges.len() as int;
    let owner2 = Seq::new(nseg as nat, |k: int| if cur.contains(k) { ne } else { owner[k] });
    let pos2 = Seq::new(
        nseg as nat,
        |k: int|
            if cur.contains(k) {
                choose|t: int| 0 <= t < cur.len() && cur[t] == k
            } else {
                pos[k]
            },
    );
    let eseg2 = eseg.push(cur);
    let edges2 = edges.push(e);
    assert forall|k: int| 0 <= k < nseg && cur.contains(k) implies 0 <= pos2[k] < cur.len() && cur[pos2[k]] == k by {}
    assert forall|t: int| 0 <= t < cur.len() implies pos2[cur[t]] == t by {
        assert(cur.contains(cur[t]));
        let t2 = pos2[cur[t]];
        assert(cur[t2] == cur[t]);
    }
    assert forall|ee: int, t: int|
        0 <= ee < ne + 1 && 0 <= t < eseg2[ee].len() implies 0 <= #[trigger] eseg2[ee][t] < nseg
        && owner2[eseg2[ee][t]] == ee && pos2[eseg2[ee][t]] == t by {
        if ee < ne {
            let k = eseg[ee][t];
            assert(owner[k] == ee);
            assert(used0[k]);
            if cur.contains(k) {
                let t2 = choose|t2: int| 0 <= t2 < cur.len() && cur[t2] == k;
                assert(!used0[cur[t2]]);
            }
        } else {
            assert(cur.contains(cur[t]));
        }
    }
    assert forall|k: int| 0 <= k < nseg && 0 <= #[trigger] owner2[k] < ne + 1 implies 0 <= pos2[k]
        < eseg2[owner2[k]].len() && eseg2[owner2[k]][pos2[k]] == k by {
        if !cur.contains(k) {
            assert(owner2[k] == owner[k]);
        }
    }
    assert forall|k: int| 0 <= k < nseg implies #[trigger] used[k] == (owner2[k] >= 0) by {
        assert(used[k] == (used0[k] || cur.contains(k)));
    }
    assert forall|ee: int| 0 <= ee < edges2.len() implies edge_ok(segs, #[trigger] edges2[ee], eseg2[ee]) by {
        if ee < ne {
            assert(edges2[ee] == edges[ee]);
            assert(eseg2[ee] == eseg[ee]);
        }
    }
    (owner2, pos2)
}

/// Segment `k` is a step of some edge.
pub open spec fn in_some_edge(eseg: Seq<Seq<int>>, k: int) -> bool {
    exists|e: int, t: int| 0 <= e < eseg.len() && 0 <= t < eseg[e].len() && #[trigger] eseg[e][t] == k
}

/// Walk every segment into curves: first from each junction, in order of node, along
/// each of its segments not yet taken; then round each closed loop that is left.
///
/// Every segment ends up in exactly one curve, as exactly one of its steps.
pub fn walk(segs: &Vec<Seg>, inc: &Vec<Vec<usize>>) -> (res: (Vec<Edge>, Ghost<Seq<Seq<int>>>))
    requires
        incidence_ok(segs@, inc@, inc@.len() as int),
        segs_proper(segs@, inc@.len() as int),
        inc@.len() <= u32::MAX,
    ensures
        res.1@.len() == res.0@.len(),
        forall|e: int| 0 <= e < res.0@.len() ==> edge_ok(segs@, #[trigger] res.0@[e], res.1@[e]),
        forall|e1: int, t1: int, e2: int, t2: int|
            0 <= e1 < res.0@.len() && 0 <= t1 < res.1@[e1].len() && 0 <= e2 < res.0@.len() && 0 <= t2
                < res.1@[e2].len() && #[trigger] res.1@[e1][t1] == #[trigger] res.1@[e2][t2] ==> e1 == e2 && t1
                == t2,
        forall|k: int| 0 <= k < segs@.len() ==> #[trigger] in_some_edge(res.1@, k),
        forall|e: int| 0 <= e < res.0@.len() ==> passes(inc@, #[trigger] res.0@[e]) && ends_ok(inc@, res.0@[e]),
        forall|e: int| 0 <= e < res.0@.len() ==> loop_start(segs@, #[trigger] res.0@[e], res.1@[e]),
{
    let nn = inc.len();
    let nseg = segs.len();
    let mut used: Vec<bool> = Vec::new();
    let mut q: usize = 0;
    while q < nseg
        invariant
            q <= nseg,
            used@.len() == q,
            forall|k: int| 0 <= k < q ==> !#[trigger] used@[k],
        decreases nseg - q,
    {
        used.push(false);
        q += 1;
    }
    let mut edges: Vec<Edge> = Vec::new();
    let ghost mut owner: Seq<int> = Seq::new(nseg as nat, |k: int| -1);
    let ghost mut pos: Seq<int> = Seq::new(nseg as nat, |k: int| 0);
    let ghost mut eseg: Seq<Seq<int>> = Seq::empty();
    proof {
        assert(walk_state(segs@, used@, owner, pos, eseg, edges@));
        assert(balanced(inc@, used@, -1, -1)) by {
            assert forall|n: int|
                0 <= n < inc@.len() && #[trigger] inc@[n]@.len() == 2 && n != -1 && n != -1 implies used@[
                inc@[n]@[0] as int] == used@[inc@[n]@[1] as int] by {
                assert(touches(segs@, inc@[n]@[0] as int, n));
                assert(touches(segs@, inc@[n]@[1] as int, n));
            }
        }
    }
    let mut start: usize = 0;
    while start < nn
        invariant
            incidence_ok(segs@, inc@, inc@.len() as int),
            segs_proper(segs@, inc@.len() as int),
            nn == inc@.len(),
            nn <= u32::MAX,
            nseg == segs@.len(),
            start <= nn,
            walk_state(segs@, used@, owner, pos, eseg, edges@),
            forall|e: int| 0 <= e < edges@.len() ==> passes(inc@, #[trigger] edges@[e]) && ends_ok(inc@, edges@[e]),
            eseg.len() == edges@.len(),
            forall|e: int| 0 <= e < edges@.len() ==> loop_start(segs@, #[trigger] edges@[e], eseg[e]),
            balanced(inc@, used@, -1, -1),
            forall|n: int, t: int|
                0 <= n < start && inc@[n]@.len() != 2 && 0 <= t < inc@[n]@.len() ==> used@[#[trigger] inc@[n]@[t] as int],
        decreases nn - start,
    {
        if inc[start].len() == 0 || inc[start].len() == 2 {
            start += 1;
            continue;
        }
        let list = &inc[start];
        let mut q: usize = 0;
        while q < list.len()
            invariant
                incidence_ok(segs@, inc@, inc@.len() as int),
                segs_proper(segs@, inc@.len() as int),
                nn == inc@.len(),
                nn <= u32::MAX,
                nseg == segs@.len(),
                start < nn,
                list@ == inc@[start as int]@,
                list@.len() != 2,
                q <= list@.len(),
                walk_state(segs@, used@, owner, pos, eseg, edges@),
                forall|e: int| 0 <= e < edges@.len() ==> passes(inc@, #[trigger] edges@[e]) && ends_ok(inc@, edges@[e]),
                eseg.len() == edges@.len(),
                forall|e: int| 0 <= e < edges@.len() ==> loop_start(segs@, #[trigger] edges@[e], eseg[e]),
                balanced(inc@, used@, -1, -1),
                forall|n: int, t: int|
                    0 <= n < start && inc@[n]@.len() != 2 && 0 <= t < inc@[n]@.len() ==> used@[#[trigger] inc@[n]@[t] as int],
                forall|t: int| 0 <= t < q ==> used@[#[trigger] list@[t] as int],
            decreases list@.len() - q,
        {
            let first = list[q];
            proof {
                assert(touches(segs@, first as int, start as int));
            }
            if !used[first] {
                let s = segs[first];
                let (left, right) = if s.a == start as u32 {
                    (s.left, s.right)
                } else {
                    (s.right, s.left)
                };
                let ghost used0 = used@;
                let (chain, end, Ghost(cur)) = walk_from(segs, inc, &mut used, start as u32, first);
                let e = Edge { nodes: chain, left, right, start_node: start as u32, end_node: end, closed: false };
                proof {
                    assert(edge_ok(segs@, e, cur)) by {
                        assert forall|t: int| 0 <= t < cur.len() implies 0 <= #[trigger] cur[t] < segs@.len()
                            && joins(segs@[cur[t]], step_ends(e.nodes@, t).0, step_ends(e.nodes@, t).1) by {
                            assert(joins(segs@[cur[t]], e.nodes@[t] as int, e.nodes@[t + 1] as int));
                        }
                    }
                    // The walk cannot end at a junction taken before this one: every
                    // segment there is taken, and its last segment was free.
                    if (end as int) < start {
                        let t = cur.len() - 1;
                        assert(joins(segs@[cur[t]], chain@[t] as int, chain@[t + 1] as int));
                        assert(touches(segs@, cur[t], end as int));
                        assert(inc@[end as int]@.contains(cur[t] as usize));
                        let i = choose|i: int| 0 <= i < inc@[end as int]@.len() && inc@[end as int]@[i] == cur[t] as usize;
                        assert(used0[inc@[end as int]@[i] as int]);
                    }
                    let (o2, p2) = lemma_emit(segs@, used0, used@, owner, pos, eseg, edges@, e, cur);
                    owner = o2;
                    pos = p2;
                    eseg = eseg.push(cur);
                }
                edges.push(e);
            }
            proof {
                assert forall|t: int| 0 <= t < q + 1 implies used@[#[trigger] list@[t] as int] by {
                    if t == q {
                        assert(used@[first as int]);
                    }
                }
            }
            q += 1;
        }
        start += 1;
    }
    let mut k: usize = 0;
    while k < nseg
        invariant
            incidence_ok(segs@, inc@, inc@.len() as int),
            segs_proper(segs@, inc@.len() as int),
            nn == inc@.len(),
            nseg == segs@.len(),
            k <= nseg,
            walk_state(segs@, used@, owner, pos, eseg, edges@),
            forall|e: int| 0 <= e < edges@.len() ==> passes(inc@, #[trigger] edges@[e]) && ends_ok(inc@, edges@[e]),
            eseg.len() == edges@.len(),
            forall|e: int| 0 <= e < edges@.len() ==> loop_start(segs@, #[trigger] edges@[e], eseg[e]),
            balanced(inc@, used@, -1, -1),
            junctions_done(inc@, used@),
            forall|q: int| 0 <= q < k ==> #[trigger] used@[q],
        decreases nseg - k,
    {
        if used[k] {
            k += 1;
            continue;
        }
        let s0 = segs[k];
        let (left, right) = (s0.left, s0.right);
        let ghost used0 = used@;
        let (chain, Ghost(cur)) = walk_loop(segs, inc, &mut used, k);
        if chain.len() >= 3 {
            let e = Edge { nodes: chain, left, right, start_node: s0.a, end_node: s0.a, closed: true };
            proof {
                assert forall|t: int| 0 <= t < cur.len() implies cur[0] <= #[trigger] cur[t] by {
                    if cur[t] < k {
                        assert(used0[cur[t]]);
                    }
                }
                let (o2, p2) = lemma_emit(segs@, used0, used@, owner, pos, eseg, edges@, e, cur);
                owner = o2;
                pos = p2;
                eseg = eseg.push(cur);
            }
            edges.push(e);
        }
        proof {
            assert forall|q: int| 0 <= q < k + 1 implies #[trigger] used@[q] by {
                if q < k {
                    assert(used0[q]);
                } else {
                    assert(cur[0] == k);
                }
            }
        }
        k += 1;
    }
    proof {
        assert forall|e1: int, t1: int, e2: int, t2: int|
            0 <= e1 < edges@.len() && 0 <= t1 < eseg[e1].len() && 0 <= e2 < edges@.len() && 0 <= t2
                < eseg[e2].len() && #[trigger] eseg[e1][t1] == #[trigger] eseg[e2][t2] implies e1 == e2 && t1 == t2 by {
            let k1 = eseg[e1][t1];
            assert(owner[k1] == e1 && pos[k1] == t1);
        }
        assert forall|q: int| 0 <= q < segs@.len() implies #[trigger] in_some_edge(eseg, q) by {
            assert(used@[q]);
            assert(owner[q] >= 0);
            assert(eseg[owner[q]][pos[q]] == q);
        }
    }
    (edges, Ghost(eseg))
}

} // verus!
