//! The three-way nodes of a planar map: where exactly three curve ends meet, among three
//! real faces.
//!
//! These are the only nodes a T-junction can be read at. Which of the three faces runs
//! straight through is a matter of the curves' tangents, read elsewhere; here is which
//! nodes qualify, their arms, their faces, and for each face the two arms it lies between.
use std::collections::HashMap;
use vstd::prelude::*;

use crate::pair_keys::sorted_keys;
use crate::planar::Edge;

verus! {

/// A three-way node of the map.
#[derive(Debug)]
pub struct ThreeWay {
    /// The node.
    pub node: u32,
    /// The curve ends at the node, as `(edge, at_start)`, in edge order, an edge's start
    /// before its end.
    pub arms: Vec<(usize, bool)>,
    /// The three faces around the node, in the order the arms name them, left then right.
    pub faces: Vec<u16>,
    /// For each face lying on exactly two of the arms, in face order: the face and its two
    /// arms, by position in `arms`.
    pub pairs: Vec<(u16, usize, usize)>,
}

/// An edge that has ends: not closed, and at least two nodes long.
pub open spec fn has_ends(e: Edge) -> bool {
    !e.closed && e.nodes@.len() >= 2
}

/// The curve ends at node `v` among the first `k` edges, in edge order, start before end.
pub open spec fn arms_at(edges: Seq<Edge>, v: u32, k: int) -> Seq<(usize, bool)>
    decreases k,
{
    if k <= 0 {
        Seq::empty()
    } else {
        let prev = arms_at(edges, v, k - 1);
        let e = edges[k - 1];
        if has_ends(e) {
            let a = if e.start_node == v {
                prev.push(((k - 1) as usize, true))
            } else {
                prev
            };
            if e.end_node == v {
                a.push(((k - 1) as usize, false))
            } else {
                a
            }
        } else {
            prev
        }
    }
}

/// The faces the arms name, left then right, arm by arm.
pub open spec fn named_faces(edges: Seq<Edge>, arms: Seq<(usize, bool)>, i: int) -> Seq<u16>
    decreases i,
{
    if i <= 0 {
        Seq::empty()
    } else {
        let e = edges[arms[i - 1].0 as int];
        named_faces(edges, arms, i - 1).push(e.left).push(e.right)
    }
}

/// The distinct values among the first `i` of `fs`, in order of first appearance.
pub open spec fn distinct(fs: Seq<u16>, i: int) -> Seq<u16>
    decreases i,
{
    if i <= 0 {
        Seq::empty()
    } else if distinct(fs, i - 1).contains(fs[i - 1]) {
        distinct(fs, i - 1)
    } else {
        distinct(fs, i - 1).push(fs[i - 1])
    }
}

/// The faces around a node with these arms.
pub open spec fn faces_around(edges: Seq<Edge>, arms: Seq<(usize, bool)>) -> Seq<u16> {
    distinct(named_faces(edges, arms, arms.len() as int), 2 * arms.len() as int)
}

/// Neither side of the arm's edge is the virtual background (`u16::MAX`) outside the
/// raster.
pub open spec fn on_real_faces(edges: Seq<Edge>, x: (usize, bool)) -> bool {
    edges[x.0 as int].left != u16::MAX && edges[x.0 as int].right != u16::MAX
}

/// Three arms, none on the virtual background, and three distinct faces.
pub open spec fn three_way(edges: Seq<Edge>, arms: Seq<(usize, bool)>) -> bool {
    &&& arms.len() == 3
    &&& forall|i: int| 0 <= i < 3 ==> on_real_faces(edges, #[trigger] arms[i])
    &&& faces_around(edges, arms).len() == 3
}

/// The positions, among the first `i` arms, of the arms face `f` lies on.
pub open spec fn arms_of(edges: Seq<Edge>, arms: Seq<(usize, bool)>, f: u16, i: int) -> Seq<usize>
    decreases i,
{
    if i <= 0 {
        Seq::empty()
    } else {
        let e = edges[arms[i - 1].0 as int];
        if e.left == f || e.right == f {
            arms_of(edges, arms, f, i - 1).push((i - 1) as usize)
        } else {
            arms_of(edges, arms, f, i - 1)
        }
    }
}

/// For each of the first `i` faces lying on exactly two arms: the face and its two arms.
pub open spec fn face_pairs(edges: Seq<Edge>, arms: Seq<(usize, bool)>, faces: Seq<u16>, i: int) -> Seq<
    (u16, usize, usize),
>
    decreases i,
{
    if i <= 0 {
        Seq::empty()
    } else {
        let f = faces[i - 1];
        let idx = arms_of(edges, arms, f, arms.len() as int);
        if idx.len() == 2 {
            face_pairs(edges, arms, faces, i - 1).push((f, idx[0], idx[1]))
        } else {
            face_pairs(edges, arms, faces, i - 1)
        }
    }
}

/// `j` describes the three-way node `j.node` of the map.
pub open spec fn junction_ok(edges: Seq<Edge>, j: ThreeWay) -> bool {
    let arms = arms_at(edges, j.node, edges.len() as int);
    &&& j.arms@ == arms
    &&& three_way(edges, arms)
    &&& j.faces@ == faces_around(edges, arms)
    &&& j.pairs@ == face_pairs(edges, arms, j.faces@, 3)
}

/// What a map of arm lists holds for `v`, empty when it holds nothing.
pub open spec fn listed(m: Map<u32, Vec<(usize, bool)>>, v: u32) -> Seq<(usize, bool)> {
    if m.contains_key(v) {
        m[v]@
    } else {
        Seq::empty()
    }
}

proof fn lemma_arms_at(edges: Seq<Edge>, v: u32, k: int)
    requires
        0 <= k <= edges.len(),
        edges.len() <= usize::MAX,
    ensures
        forall|i: int| 0 <= i < arms_at(edges, v, k).len() ==> (#[trigger] arms_at(edges, v, k)[i]).0 < k,
    decreases k,
{
    if k > 0 {
        lemma_arms_at(edges, v, k - 1);
        let prev = arms_at(edges, v, k - 1);
        let cur = arms_at(edges, v, k);
        assert forall|i: int| 0 <= i < cur.len() implies (#[trigger] cur[i]).0 < k by {
            if i < prev.len() {
                assert(cur[i] == prev[i]);
            }
        }
    }
}

/// Append `x` to the list `m` holds for `v`.
fn push_arm(m: &mut HashMap<u32, Vec<(usize, bool)>>, v: u32, x: (usize, bool))
    ensures
        forall|u: u32| #[trigger] listed(final(m)@, u) == if u == v {
            listed(old(m)@, u).push(x)
        } else {
            listed(old(m)@, u)
        },
{
    broadcast use vstd::std_specs::hash::group_hash_axioms;

    let mut list = match m.remove(&v) {
        Some(l) => l,
        None => Vec::new(),
    };
    list.push(x);
    m.insert(v, list);
}

/// The distinct faces the arms name, and whether none is the virtual background.
fn arm_faces(edges: &Vec<Edge>, arms: &Vec<(usize, bool)>) -> (res: (Vec<u16>, bool))
    requires
        arms@.len() == 3,
        forall|i: int| 0 <= i < 3 ==> (#[trigger] arms@[i]).0 < edges@.len(),
    ensures
        res.0@ == faces_around(edges@, arms@),
        res.1 == forall|i: int| 0 <= i < 3 ==> on_real_faces(edges@, #[trigger] arms@[i]),
{
    let ghost e = edges@;
    let ghost a = arms@;
    let mut faces: Vec<u16> = Vec::new();
    let mut no_void = true;
    let mut i: usize = 0;
    let ghost fs = named_faces(e, a, 3);
    proof {
        reveal_with_fuel(named_faces, 4);
        let (x0, x1, x2) = (e[a[0].0 as int], e[a[1].0 as int], e[a[2].0 as int]);
        assert(named_faces(e, a, 1) =~= seq![x0.left, x0.right]);
        assert(named_faces(e, a, 2) =~= seq![x0.left, x0.right, x1.left, x1.right]);
        assert(fs =~= seq![x0.left, x0.right, x1.left, x1.right, x2.left, x2.right]);
        assert forall|t: int| 0 <= t < 3 implies fs[2 * t] == e[(#[trigger] a[t]).0 as int].left && fs[2 * t + 1]
            == e[a[t].0 as int].right by {
            if t == 0 {
            } else if t == 1 {
            } else {
            }
        }
    }
    while i < 3
        invariant
            e == edges@,
            a == arms@,
            a.len() == 3,
            forall|t: int| 0 <= t < 3 ==> (#[trigger] a[t]).0 < e.len(),
            fs == named_faces(e, a, 3),
            fs.len() == 6,
            forall|t: int| 0 <= t < 3 ==> fs[2 * t] == e[(#[trigger] a[t]).0 as int].left && fs[2 * t + 1] == e[a[
                t].0 as int].right,
            i <= 3,
            faces@ == distinct(fs, 2 * i),
            no_void == forall|t: int| 0 <= t < i ==> on_real_faces(e, #[trigger] a[t]),
        decreases 3 - i,
    {
        let edge = &edges[arms[i].0];
        proof {
            assert(fs[2 * i] == e[a[i as int].0 as int].left && fs[2 * i + 1] == e[a[i as int].0 as int].right);
            assert(on_real_faces(e, a[i as int]) == !(edge.left == u16::MAX || edge.right == u16::MAX));
        }
        let ghost was = no_void;
        if edge.left == u16::MAX || edge.right == u16::MAX {
            no_void = false;
        }
        proof {
            if !on_real_faces(e, a[i as int]) {
                assert(!(forall|t: int| 0 <= t < i + 1 ==> on_real_faces(e, #[trigger] a[t])));
            }
        }
        let mut q: usize = 0;
        while q < 2
            invariant
                e == edges@,
                a == arms@,
                i < 3,
                fs.len() == 6,
                fs[2 * i] == edge.left,
                fs[2 * i + 1] == edge.right,
                q <= 2,
                faces@ == distinct(fs, 2 * i + q),
            decreases 2 - q,
        {
            let f = if q == 0 {
                edge.left
            } else {
                edge.right
            };
            let mut seen = false;
            let mut r: usize = 0;
            while r < faces.len()
                invariant
                    r <= faces@.len(),
                    seen == exists|z: int| 0 <= z < r && faces@[z] == f,
                decreases faces@.len() - r,
            {
                if faces[r] == f {
                    seen = true;
                }
                r += 1;
            }
            proof {
                assert(seen == faces@.contains(f));
                assert(f == fs[2 * i + q]);
            }
            if !seen {
                faces.push(f);
            }
            q += 1;
        }
        i += 1;
    }
    (faces, no_void)
}

/// The arms of face `f`: positions among the three arms of those it lies on.
fn arms_of_face(edges: &Vec<Edge>, arms: &Vec<(usize, bool)>, f: u16) -> (res: Vec<usize>)
    requires
        arms@.len() == 3,
        forall|i: int| 0 <= i < 3 ==> (#[trigger] arms@[i]).0 < edges@.len(),
    ensures
        res@ == arms_of(edges@, arms@, f, 3),
{
    let mut idx: Vec<usize> = Vec::new();
    let mut i: usize = 0;
    while i < 3
        invariant
            arms@.len() == 3,
            forall|t: int| 0 <= t < 3 ==> (#[trigger] arms@[t]).0 < edges@.len(),
            i <= 3,
            idx@ == arms_of(edges@, arms@, f, i as int),
        decreases 3 - i,
    {
        let e = &edges[arms[i].0];
        if e.left == f || e.right == f {
            idx.push(i);
        }
        i += 1;
    }
    idx
}

/// The three-way nodes of the map, in increasing order of node: nodes where exactly
/// three ends of curves that have ends meet, none of whose curves borders the virtual
/// background outside the raster, around exactly three faces.
pub fn three_way_nodes(edges: &Vec<Edge>) -> (out: Vec<ThreeWay>)
    ensures
        forall|i: int| 0 <= i < out@.len() ==> junction_ok(edges@, #[trigger] out@[i]),
        forall|i: int, j: int| 0 <= i < j < out@.len() ==> (#[trigger] out@[i]).node < (#[trigger] out@[j]).node,
        forall|v: u32|
            #[trigger] three_way(edges@, arms_at(edges@, v, edges@.len() as int)) ==> exists|i: int|
                0 <= i < out@.len() && out@[i].node == v,
{
    broadcast use vstd::std_specs::hash::group_hash_axioms;

    let ghost e = edges@;
    let n_edges = edges.len();
    let mut inc: HashMap<u32, Vec<(usize, bool)>> = HashMap::new();
    let mut k: usize = 0;
    while k < edges.len()
        invariant
            e == edges@,
            k <= e.len(),
            forall|v: u32| #[trigger] listed(inc@, v) == arms_at(e, v, k as int),
        decreases e.len() - k,
    {
        let edge = &edges[k];
        if !edge.closed && edge.nodes.len() >= 2 {
            let ghost m0 = inc@;
            push_arm(&mut inc, edge.start_node, (k, true));
            let ghost m1 = inc@;
            push_arm(&mut inc, edge.end_node, (k, false));
            proof {
                assert forall|v: u32| #[trigger] listed(inc@, v) == arms_at(e, v, k + 1) by {
                    assert(listed(m1, v) == if v == edge.start_node {
                        listed(m0, v).push((k, true))
                    } else {
                        listed(m0, v)
                    });
                }
            }
        }
        k += 1;
    }
    let nodes = sorted_keys(&inc);
    let mut out: Vec<ThreeWay> = Vec::new();
    let mut t: usize = 0;
    while t < nodes.len()
        invariant
            e == edges@,
            n_edges == e.len(),
            forall|v: u32| #[trigger] listed(inc@, v) == arms_at(e, v, e.len() as int),
            forall|i: int, j: int| 0 <= i < j < nodes@.len() ==> nodes@[i] < nodes@[j],
            forall|u: u32| inc@.contains_key(u) <==> nodes@.contains(u),
            t <= nodes@.len(),
            forall|i: int| 0 <= i < out@.len() ==> junction_ok(e, #[trigger] out@[i]),
            forall|i: int, j: int| 0 <= i < j < out@.len() ==> (#[trigger] out@[i]).node < (#[trigger] out@[j]).node,
            forall|i: int| 0 <= i < out@.len() ==> exists|q: int| 0 <= q < t && (#[trigger] out@[i]).node == nodes@[q],
            forall|q: int|
                0 <= q < t && #[trigger] three_way(e, arms_at(e, nodes@[q], e.len() as int)) ==> exists|i: int|
                    0 <= i < out@.len() && out@[i].node == nodes@[q],
        decreases nodes@.len() - t,
    {
        let v = nodes[t];
        proof {
            assert(nodes@.contains(v));
            lemma_arms_at(e, v, e.len() as int);
        }
        let incident = match inc.get(&v) {
            Some(l) => l,
            None => {
                proof {
                    assert(false);
                }
                t += 1;
                continue;
            },
        };
        proof {
            assert(incident@ == listed(inc@, v));
        }
        if incident.len() == 3 {
            let mut arms: Vec<(usize, bool)> = Vec::new();
            arms.push(incident[0]);
            arms.push(incident[1]);
            arms.push(incident[2]);
            proof {
                assert(arms@ =~= incident@);
            }
            let (faces, no_void) = arm_faces(edges, &arms);
            if no_void && faces.len() == 3 {
                let mut pairs: Vec<(u16, usize, usize)> = Vec::new();
                let mut fi: usize = 0;
                while fi < 3
                    invariant
                        e == edges@,
                        arms@.len() == 3,
                        forall|i: int| 0 <= i < 3 ==> (#[trigger] arms@[i]).0 < e.len(),
                        faces@.len() == 3,
                        fi <= 3,
                        pairs@ == face_pairs(e, arms@, faces@, fi as int),
                    decreases 3 - fi,
                {
                    let idx = arms_of_face(edges, &arms, faces[fi]);
                    if idx.len() == 2 {
                        pairs.push((faces[fi], idx[0], idx[1]));
                    }
                    fi += 1;
                }
                let ghost before = out@;
                out.push(ThreeWay { node: v, arms, faces, pairs });
                proof {
                    let n = out@.len() - 1;
                    assert(junction_ok(e, out@[n]));
                    assert forall|i: int| 0 <= i < n implies (#[trigger] out@[i]).node < v by {
                        let q = choose|q: int| 0 <= q < t && before[i].node == nodes@[q];
                        assert(out@[i] == before[i]);
                    }
                    assert forall|i: int| 0 <= i < out@.len() implies exists|q: int|
                        0 <= q < t + 1 && (#[trigger] out@[i]).node == nodes@[q] by {
                        if i < n {
                            let q = choose|q: int| 0 <= q < t && before[i].node == nodes@[q];
                            assert(out@[i] == before[i]);
                        } else {
                            assert(out@[i].node == nodes@[t as int]);
                        }
                    }
                    assert forall|q: int|
                        0 <= q < t + 1 && #[trigger] three_way(e, arms_at(e, nodes@[q], e.len() as int)) implies exists|
                        i: int,
                    | 0 <= i < out@.len() && out@[i].node == nodes@[q] by {
                        if q < t {
                            let i = choose|i: int| 0 <= i < before.len() && before[i].node == nodes@[q];
                            assert(out@[i] == before[i]);
                        } else {
                            assert(out@[n].node == nodes@[q]);
                        }
                    }
                }
            }
        }
        t += 1;
    }
    proof {
        assert forall|v: u32| #[trigger] three_way(e, arms_at(e, v, e.len() as int)) implies exists|i: int|
            0 <= i < out@.len() && out@[i].node == v by {
            assert(listed(inc@, v).len() == 3);
            assert(inc@.contains_key(v));
            assert(nodes@.contains(v));
            let q = choose|q: int| 0 <= q < nodes@.len() && nodes@[q] == v;
            assert(three_way(e, arms_at(e, nodes@[q], e.len() as int)));
        }
    }
    out
}

} // verus!
