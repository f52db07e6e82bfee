//! Union-find forests over node indices.
//!
//! A forest is a parent array in which every node points at itself (a root) or at a
//! smaller node, so that following parents always ends, at the node's root. Two nodes are
//! in one set exactly when they share a root. Path halving and linking a larger root under
//! a smaller one both keep the array a forest and change the roots only as intended.
use vstd::prelude::*;

verus! {

/// Every node points at itself or at a smaller node.
pub open spec fn forest_ok(p: Seq<int>) -> bool {
    forall|i: int| 0 <= i < p.len() ==> 0 <= #[trigger] p[i] <= i
}

/// The root of node `x`: where following parents ends.
pub open spec fn root(p: Seq<int>, x: int) -> int
    decreases x,
{
    if 0 <= x < p.len() && 0 <= p[x] < x {
        root(p, p[x])
    } else {
        x
    }
}

/// A parent array of `u32` node numbers, as integers.
pub open spec fn ids32(s: Seq<u32>) -> Seq<int> {
    s.map_values(|v: u32| v as int)
}

/// A parent array of `usize` node numbers, as integers.
pub open spec fn ids_usize(s: Seq<usize>) -> Seq<int> {
    s.map_values(|v: usize| v as int)
}

/// The identity forest: every node its own root.
pub proof fn lemma_identity_forest(p: Seq<int>)
    requires
        forall|i: int| 0 <= i < p.len() ==> #[trigger] p[i] == i,
    ensures
        forest_ok(p),
        forall|y: int| 0 <= y < p.len() ==> #[trigger] root(p, y) == y,
{
}

/// A root is at most its node, points at itself, and is its own root.
pub proof fn lemma_root(p: Seq<int>, x: int)
    requires
        forest_ok(p),
        0 <= x < p.len(),
    ensures
        0 <= root(p, x) <= x,
        p[root(p, x)] == root(p, x),
        root(p, root(p, x)) == root(p, x),
    decreases x,
{
    if p[x] < x {
        lemma_root(p, p[x]);
    }
}

/// Path halving: pointing `x` at its grandparent keeps a forest and every root.
pub proof fn lemma_halve(p: Seq<int>, x: int, y: int)
    requires
        forest_ok(p),
        0 <= x < p.len(),
    ensures
        forest_ok(p.update(x, p[p[x]])),
        root(p.update(x, p[p[x]]), y) == root(p, y),
    decreases y,
{
    let q = p.update(x, p[p[x]]);
    assert(0 <= p[p[x]] <= p[x]);
    if 0 <= y < p.len() {
        if y == x {
            if p[x] < x {
                let g = p[p[x]];
                lemma_halve(p, x, g);
                assert(q[x] == g);
                assert(root(q, x) == root(q, g));
                assert(root(p, x) == root(p, p[x]));
                if g < p[x] {
                    assert(root(p, p[x]) == root(p, g));
                }
            } else {
                assert(q =~= p);
            }
        } else if p[y] < y {
            lemma_halve(p, x, p[y]);
        }
    }
}

/// Linking root `b` under the smaller root `a` keeps a forest, moves every node of `b`'s
/// set to `a`, and leaves every other root alone.
pub proof fn lemma_link(p: Seq<int>, a: int, b: int, y: int)
    requires
        forest_ok(p),
        0 <= a < b < p.len(),
        p[a] == a,
        p[b] == b,
    ensures
        forest_ok(p.update(b, a)),
        root(p.update(b, a), y) == if root(p, y) == b {
            a
        } else {
            root(p, y)
        },
    decreases y,
{
    let q = p.update(b, a);
    if 0 <= y < p.len() {
        if y == b {
            lemma_link(p, a, b, a);
        } else if p[y] < y {
            lemma_link(p, a, b, p[y]);
        }
    }
}

} // verus!
