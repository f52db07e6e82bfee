//! Planar map with genuinely shared edges: the topology, read off the integer label map.
//!
//! A boundary between two regions is stored **once**, and both faces reference the same
//! edge, so seams between neighbouring regions are unrepresentable. Topology is taken from
//! the integer label map and is therefore exact: junctions are grid nodes, and two faces
//! meeting at one refer to the same integer id.
use vstd::prelude::*;

pub mod dual;
pub mod junctions;
pub mod rings;
pub mod walk;

use dual::{
    boundary_segs, incidence, incidence_ok, joins, lemma_ends_determine_segment, lemma_map_seg_ends,
    lemma_pass_sides, map_seg, map_touch, origin_lt, present, segs_ok, split_corners, touches, turn_ok, Origin,
    Seg,
};
use walk::{
    carries_over, edge_ok, ends_ok, in_some_edge, lemma_sides_carry, passes, segs_proper, step_count, step_ends,
    step_sided, walk,
};
pub use walk::Edge;

verus! {

/// Grid node index. Nodes sit at pixel corners: node `(i, j)`, with `i` in `0..=w` and `j`
/// in `0..=h`, is the corner above and to the left of pixel `(i, j)`.
pub fn node_id(i: usize, j: usize, w: usize) -> (res: u32)
    requires
        w < usize::MAX,
        j * (w + 1) + i <= u32::MAX,
    ensures
        res == j * (w + 1) + i,
{
    proof {
        assert(j * (w + 1) <= u32::MAX);
    }
    (j * (w + 1) + i) as u32
}

/// The label `label_at` reads at `(x, y)`: the pixel's, or `u16::MAX` outside the raster,
/// a virtual background that closes the shapes touching the border.
pub open spec fn label_at_spec(labels: Seq<u16>, w: int, h: int, x: int, y: int) -> u16 {
    if x < 0 || y < 0 || x >= w || y >= h {
        u16::MAX
    } else {
        labels[y * w + x]
    }
}

/// Label of pixel `(x, y)`, with out-of-bounds treated as a distinct virtual background so
/// that shapes touching the image border still close.
pub fn label_at(labels: &[u16], w: usize, h: usize, x: isize, y: isize) -> (res: u16)
    requires
        w * h <= labels@.len(),
        w <= isize::MAX,
        h <= isize::MAX,
    ensures
        res == label_at_spec(labels@, w as int, h as int, x as int, y as int),
{
    if x < 0 || y < 0 || x >= w as isize || y >= h as isize {
        u16::MAX
    } else {
        let xu: usize = x as usize;
        let yu: usize = y as usize;
        proof {
            crate::grid::lemma_index(w as int, h as int, xu as int, yu as int);
            assert(labels@.len() == labels.len());
        }
        labels[yu * w + xu]
    }
}

} // verus!

verus! {

/// A planar subdivision of the image into faces, with each shared boundary stored once as
/// an [`Edge`] referenced by both adjacent faces.
pub struct PlanarMap {
    /// The map's boundary curves.
    pub edges: Vec<Edge>,
    /// Image width in pixels.
    pub width: usize,
    /// Image height in pixels.
    pub height: usize,
    /// Number of distinct face labels.
    pub n_labels: usize,
}

/// Steps `t1` of `e1` and `t2` of `e2` run between the same two nodes.
pub open spec fn same_step(e1: Edge, t1: int, e2: Edge, t2: int) -> bool {
    let (x1, y1) = step_ends(e1.nodes@, t1);
    let (x2, y2) = step_ends(e2.nodes@, t2);
    (x1 == x2 && y1 == y2) || (x1 == y2 && y1 == x2)
}

/// Edge `e` of `edges` has a step `t`.
pub open spec fn has_step(edges: Seq<Edge>, e: int, t: int) -> bool {
    &&& 0 <= e < edges.len()
    &&& 0 <= t < step_count(edges[e].nodes@.len() as int, edges[e].closed)
}

/// Some step of some edge runs between nodes `x` and `y`.
pub open spec fn carried(edges: Seq<Edge>, x: int, y: int) -> bool {
    exists|e: int, t: int|
        #[trigger] has_step(edges, e, t) && {
            let (a, b) = step_ends(edges[e].nodes@, t);
            (a == x && b == y) || (a == y && b == x)
        }
}

/// An edge is a curve of at least two nodes (three when closed) whose ends are recorded,
/// with two different faces on its sides.
pub open spec fn edge_shape(ed: Edge) -> bool {
    let n = ed.nodes@;
    &&& n.len() >= 2
    &&& ed.start_node == n[0]
    &&& ed.end_node == if ed.closed {
        n[0]
    } else {
        n[n.len() - 1]
    }
    &&& ed.closed ==> n.len() >= 3
    &&& ed.left != ed.right
}

/// Step `t` of `ed` runs along a boundary segment of the label image, and walked in the
/// edge's order that segment has `ed.left` on its left and `ed.right` on its right.
pub open spec fn step_sides(labels: Seq<u16>, w: int, h: int, ed: Edge, t: int) -> bool {
    let (x, y) = step_ends(ed.nodes@, t);
    exists|o: Origin|
        present(labels, w, h, o) && #[trigger] joins(map_seg(labels, w, h, o), x, y) && step_sided(
            map_seg(labels, w, h, o),
            x,
            ed.left,
            ed.right,
        )
}

/// No segment of the map but `o1` and `o2` has an end at node `n`.
#[verifier::opaque]
pub open spec fn only_two(labels: Seq<u16>, w: int, h: int, n: int, o1: Origin, o2: Origin) -> bool {
    forall|o: Origin| present(labels, w, h, o) && #[trigger] map_touch(labels, w, h, o, n) ==> o == o1 || o == o2
}

/// Exactly two segments of the map meet at node `n`: a pass-through. Every other node a
/// segment ends at is a junction.
pub open spec fn pass_through(labels: Seq<u16>, w: int, h: int, n: int) -> bool {
    exists|o1: Origin, o2: Origin|
        o1 != o2 && present(labels, w, h, o1) && present(labels, w, h, o2) && #[trigger] map_touch(
            labels,
            w,
            h,
            o1,
            n,
        ) && #[trigger] map_touch(labels, w, h, o2, n) && only_two(labels, w, h, n, o1, o2)
}

/// What the finished segments and their incidence lists are: the segments of the label
/// map in order, each with its origin, split at corners.
pub open spec fn finished(
    labels: Seq<u16>,
    w: int,
    h: int,
    segs0: Seq<Seg>,
    segs: Seq<Seg>,
    origin: Seq<Origin>,
    inc: Seq<Vec<usize>>,
) -> bool {
    &&& segs_ok(labels, w, h, segs0, origin)
    &&& segs.len() == segs0.len()
    &&& segs.len() <= usize::MAX
    &&& forall|k: int| 0 <= k < segs.len() ==> #[trigger] segs[k] == map_seg(labels, w, h, origin[k])
    &&& incidence_ok(segs, inc, inc.len() as int)
}

/// Two segments listed at node `n` are two segments meeting there, and no other does.
proof fn lemma_two_listed(
    labels: Seq<u16>,
    w: int,
    h: int,
    segs0: Seq<Seg>,
    segs: Seq<Seg>,
    origin: Seq<Origin>,
    inc: Seq<Vec<usize>>,
    n: int,
)
    requires
        finished(labels, w, h, segs0, segs, origin, inc),
        0 <= n < inc.len(),
        inc[n]@.len() == 2,
    ensures
        pass_through(labels, w, h, n),
{
    let l = inc[n]@;
    let k1 = l[0] as int;
    let k2 = l[1] as int;
    let o1 = origin[k1];
    let o2 = origin[k2];
    assert(origin_lt(o1, o2));
    assert(touches(segs, k1, n) && touches(segs, k2, n));
    assert(map_touch(labels, w, h, o1, n) && map_touch(labels, w, h, o2, n));
    assert(only_two(labels, w, h, n, o1, o2)) by {
        reveal(only_two);
        assert forall|o: Origin| present(labels, w, h, o) && #[trigger] map_touch(labels, w, h, o, n) implies o
            == o1 || o == o2 by {
            let k = choose|k: int| 0 <= k < segs.len() && origin[k] == o;
            assert(touches(segs, k, n));
            assert(l.contains(k as usize));
        }
    }
    assert(present(labels, w, h, o1) && present(labels, w, h, o2));
}

/// Segment `k` is the only one with origin `origin[k]`.
proof fn lemma_origin_unique(labels: Seq<u16>, w: int, h: int, segs0: Seq<Seg>, origin: Seq<Origin>, k1: int, k2: int)
    requires
        segs_ok(labels, w, h, segs0, origin),
        0 <= k1 < segs0.len(),
        0 <= k2 < segs0.len(),
        origin[k1] == origin[k2],
    ensures
        k1 == k2,
{
    if k1 < k2 {
        assert(origin_lt(origin[k1], origin[k2]));
    } else if k2 < k1 {
        assert(origin_lt(origin[k2], origin[k1]));
    }
}

/// At a pass-through, the incidence list holds two entries.
proof fn lemma_pass_listed(
    labels: Seq<u16>,
    w: int,
    h: int,
    segs0: Seq<Seg>,
    segs: Seq<Seg>,
    origin: Seq<Origin>,
    inc: Seq<Vec<usize>>,
    n: int,
)
    requires
        finished(labels, w, h, segs0, segs, origin, inc),
        0 <= n < inc.len(),
        pass_through(labels, w, h, n),
    ensures
        inc[n]@.len() == 2,
{
    let l = inc[n]@;
    let (o1, o2) = choose|o1: Origin, o2: Origin|
        o1 != o2 && present(labels, w, h, o1) && present(labels, w, h, o2) && #[trigger] map_touch(
            labels,
            w,
            h,
            o1,
            n,
        ) && #[trigger] map_touch(labels, w, h, o2, n) && only_two(labels, w, h, n, o1, o2);
    reveal(only_two);
    let k1 = choose|k: int| 0 <= k < segs.len() && origin[k] == o1;
    let k2 = choose|k: int| 0 <= k < segs.len() && origin[k] == o2;
    assert(touches(segs, k1, n) && touches(segs, k2, n));
    assert(l.contains(k1 as usize) && l.contains(k2 as usize));
    // Every entry is one of the two.
    assert forall|t: int| 0 <= t < l.len() implies #[trigger] l[t] == k1 || l[t] == k2 by {
        let k = l[t] as int;
        assert(touches(segs, k, n));
        assert(present(labels, w, h, origin[k]));
        assert(map_touch(labels, w, h, origin[k], n));
        if origin[k] == o1 {
            lemma_origin_unique(labels, w, h, segs0, origin, k, k1);
        } else {
            lemma_origin_unique(labels, w, h, segs0, origin, k, k2);
        }
    }
    let t1 = choose|t: int| 0 <= t < l.len() && l[t] == k1 as usize;
    let t2 = choose|t: int| 0 <= t < l.len() && l[t] == k2 as usize;
    assert(t1 != t2);
    if l.len() >= 3 {
        assert(l[0] < l[1] && l[1] < l[2]);
        assert(l[0] == k1 || l[0] == k2);
        assert(l[1] == k1 || l[1] == k2);
        assert(l[2] == k1 || l[2] == k2);
    }
}

/// A node of a walked edge is a pass-through exactly when the edge is closed or the node
/// lies inside it.
proof fn lemma_every_node(
    labels: Seq<u16>,
    w: int,
    h: int,
    segs0: Seq<Seg>,
    segs: Seq<Seg>,
    origin: Seq<Origin>,
    inc: Seq<Vec<usize>>,
    edges: Seq<Edge>,
    eseg: Seq<Seq<int>>,
)
    requires
        finished(labels, w, h, segs0, segs, origin, inc),
        segs_proper(segs, inc.len() as int),
        eseg.len() == edges.len(),
        forall|e: int| 0 <= e < edges.len() ==> edge_ok(segs, #[trigger] edges[e], eseg[e]),
        forall|e: int| 0 <= e < edges.len() ==> passes(inc, #[trigger] edges[e]) && ends_ok(inc, edges[e]),
    ensures
        forall|e: int, t: int|
            0 <= e < edges.len() && 0 <= t < edges[e].nodes@.len() ==> #[trigger] pass_through(
                labels,
                w,
                h,
                edges[e].nodes@[t] as int,
            ) == (edges[e].closed || 0 < t < edges[e].nodes@.len() - 1),
{
    assert forall|e: int, t: int| 0 <= e < edges.len() && 0 <= t < edges[e].nodes@.len() implies #[trigger] pass_through(
        labels,
        w,
        h,
        edges[e].nodes@[t] as int,
    ) == (edges[e].closed || 0 < t < edges[e].nodes@.len() - 1) by {
        let ed = edges[e];
        let nodes = ed.nodes@;
        let x = nodes[t] as int;
        assert(edge_ok(segs, ed, eseg[e]));
        assert(passes(inc, ed) && ends_ok(inc, ed));
        let sc = step_count(nodes.len() as int, ed.closed);
        // The node is an end of a segment, so it has an incidence list.
        if t < sc {
            assert(joins(segs[eseg[e][t]], step_ends(nodes, t).0, step_ends(nodes, t).1));
        } else {
            assert(joins(segs[eseg[e][t - 1]], step_ends(nodes, t - 1).0, step_ends(nodes, t - 1).1));
        }
        assert(0 <= x < inc.len());
        if inc[x]@.len() == 2 {
            lemma_two_listed(labels, w, h, segs0, segs, origin, inc, x);
        } else if pass_through(labels, w, h, x) {
            lemma_pass_listed(labels, w, h, segs0, segs, origin, inc, x);
        }
    }
}

/// Where exactly two finished segments meet, the faces on either side carry on through
/// the node.
proof fn lemma_turns(
    labels: Seq<u16>,
    w: int,
    h: int,
    segs0: Seq<Seg>,
    segs: Seq<Seg>,
    origin: Seq<Origin>,
    inc: Seq<Vec<usize>>,
)
    requires
        segs_ok(labels, w, h, segs0, origin),
        segs.len() == segs0.len(),
        segs.len() <= usize::MAX,
        forall|k: int| 0 <= k < segs.len() ==> #[trigger] segs[k] == map_seg(labels, w, h, origin[k]),
        incidence_ok(segs, inc, inc.len() as int),
        2 * ((w + 1) * (h + 1)) <= u32::MAX,
    ensures
        carries_over(segs, inc),
{
    assert forall|n: int| 0 <= n < inc.len() && #[trigger] inc[n]@.len() == 2 implies turn_ok(
        segs[inc[n]@[0] as int],
        segs[inc[n]@[1] as int],
        n,
    ) by {
        let k1 = inc[n]@[0] as int;
        let k2 = inc[n]@[1] as int;
        let o1 = origin[k1];
        let o2 = origin[k2];
        assert(origin_lt(o1, o2));
        assert(touches(segs, k1, n) && touches(segs, k2, n));
        assert(map_touch(labels, w, h, o1, n) && map_touch(labels, w, h, o2, n));
        assert forall|o: Origin| present(labels, w, h, o) && #[trigger] map_touch(labels, w, h, o, n) implies o
            == o1 || o == o2 by {
            let k = choose|k: int| 0 <= k < segs.len() && origin[k] == o;
            assert(touches(segs, k, n));
            assert(inc[n]@.contains(k as usize));
        }
        lemma_pass_sides(labels, w, h, o1, o2, n);
    }
}

/// Every step of every walked edge has the edge's two faces on its two sides.
proof fn lemma_every_step(
    labels: Seq<u16>,
    w: int,
    h: int,
    segs: Seq<Seg>,
    origin: Seq<Origin>,
    inc: Seq<Vec<usize>>,
    edges: Seq<Edge>,
    eseg: Seq<Seq<int>>,
)
    requires
        origin.len() == segs.len(),
        segs.len() <= usize::MAX,
        forall|k: int|
            0 <= k < segs.len() ==> present(labels, w, h, origin[k]) && #[trigger] segs[k] == map_seg(
                labels,
                w,
                h,
                origin[k],
            ),
        incidence_ok(segs, inc, inc.len() as int),
        segs_proper(segs, inc.len() as int),
        carries_over(segs, inc),
        eseg.len() == edges.len(),
        forall|e: int| 0 <= e < edges.len() ==> edge_ok(segs, #[trigger] edges[e], eseg[e]),
        forall|e: int| 0 <= e < edges.len() ==> passes(inc, #[trigger] edges[e]),
        forall|e1: int, t1: int, e2: int, t2: int|
            0 <= e1 < edges.len() && 0 <= t1 < eseg[e1].len() && 0 <= e2 < edges.len() && 0 <= t2
                < eseg[e2].len() && #[trigger] eseg[e1][t1] == #[trigger] eseg[e2][t2] ==> e1 == e2 && t1
                == t2,
    ensures
        forall|e: int, t: int| #[trigger] has_step(edges, e, t) ==> step_sides(labels, w, h, edges[e], t),
{
    assert forall|e: int, t: int| #[trigger] has_step(edges, e, t) implies step_sides(labels, w, h, edges[e], t) by {
        assert(edge_ok(segs, edges[e], eseg[e]));
        assert(passes(inc, edges[e]));
        lemma_sides_carry(segs, inc, edges[e], eseg[e], t);
        let k = eseg[e][t];
        assert(present(labels, w, h, origin[k]));
        assert(segs[k] == map_seg(labels, w, h, origin[k]));
        assert(joins(segs[k], step_ends(edges[e].nodes@, t).0, step_ends(edges[e].nodes@, t).1));
    }
}

/// The segment step `t` of `ed` runs along: the one present segment whose ends are the
/// step's two nodes.
pub open spec fn step_origin(labels: Seq<u16>, w: int, h: int, ed: Edge, t: int) -> Origin {
    choose|o: Origin|
        present(labels, w, h, o) && joins(
            map_seg(labels, w, h, o),
            step_ends(ed.nodes@, t).0,
            step_ends(ed.nodes@, t).1,
        )
}

/// Where a curve starts: a closed one at the first end of the first of its segments in
/// the order segments are listed (see [`dual::origin_lt`]), which is its first step; an
/// open one at the end with the smaller node id.
pub open spec fn starts_first(labels: Seq<u16>, w: int, h: int, ed: Edge) -> bool {
    &&& ed.closed ==> {
        &&& map_seg(labels, w, h, step_origin(labels, w, h, ed, 0)).a == ed.nodes@[0]
        &&& forall|t: int|
            0 < t < ed.nodes@.len() ==> origin_lt(
                step_origin(labels, w, h, ed, 0),
                #[trigger] step_origin(labels, w, h, ed, t),
            )
    }
    &&& !ed.closed ==> ed.nodes@[0] <= ed.nodes@[ed.nodes@.len() - 1]
}

/// The origin of step `t`'s segment is the origin it was listed with.
proof fn lemma_step_origin(
    labels: Seq<u16>,
    w: int,
    h: int,
    segs0: Seq<Seg>,
    segs: Seq<Seg>,
    origin: Seq<Origin>,
    inc: Seq<Vec<usize>>,
    ed: Edge,
    es: Seq<int>,
    t: int,
)
    requires
        finished(labels, w, h, segs0, segs, origin, inc),
        2 * ((w + 1) * (h + 1)) <= u32::MAX,
        edge_ok(segs, ed, es),
        0 <= t < es.len(),
    ensures
        step_origin(labels, w, h, ed, t) == origin[es[t]],
{
    let k = es[t];
    let (x, y) = step_ends(ed.nodes@, t);
    assert(joins(segs[k], x, y));
    assert(present(labels, w, h, origin[k]));
    assert(segs[k] == map_seg(labels, w, h, origin[k]));
    let c = step_origin(labels, w, h, ed, t);
    lemma_ends_determine_segment(labels, w, h, c, origin[k], x, y);
}

/// Every curve starts where [`starts_first`] says.
proof fn lemma_loops_start_first(
    labels: Seq<u16>,
    w: int,
    h: int,
    segs0: Seq<Seg>,
    segs: Seq<Seg>,
    origin: Seq<Origin>,
    inc: Seq<Vec<usize>>,
    edges: Seq<Edge>,
    eseg: Seq<Seq<int>>,
)
    requires
        finished(labels, w, h, segs0, segs, origin, inc),
        2 * ((w + 1) * (h + 1)) <= u32::MAX,
        eseg.len() == edges.len(),
        forall|e: int| 0 <= e < edges.len() ==> edge_ok(segs, #[trigger] edges[e], eseg[e]),
        forall|e: int| 0 <= e < edges.len() ==> walk::loop_start(segs, #[trigger] edges[e], eseg[e]),
        forall|e1: int, t1: int, e2: int, t2: int|
            0 <= e1 < edges.len() && 0 <= t1 < eseg[e1].len() && 0 <= e2 < edges.len() && 0 <= t2
                < eseg[e2].len() && #[trigger] eseg[e1][t1] == #[trigger] eseg[e2][t2] ==> e1 == e2 && t1
                == t2,
    ensures
        forall|e: int| 0 <= e < edges.len() ==> starts_first(labels, w, h, #[trigger] edges[e]),
{
    assert forall|e: int| 0 <= e < edges.len() implies starts_first(labels, w, h, #[trigger] edges[e]) by {
        let ed = edges[e];
        let es = eseg[e];
        assert(edge_ok(segs, ed, es));
        assert(walk::loop_start(segs, ed, es));
        if ed.closed {
            lemma_step_origin(labels, w, h, segs0, segs, origin, inc, ed, es, 0);
            assert forall|t: int| 0 < t < ed.nodes@.len() implies origin_lt(
                step_origin(labels, w, h, ed, 0),
                #[trigger] step_origin(labels, w, h, ed, t),
            ) by {
                lemma_step_origin(labels, w, h, segs0, segs, origin, inc, ed, es, t);
                assert(es[0] <= es[t]);
                assert(es[0] != es[t]);
            }
        }
    }
}

/// Build the planar map from an integer label image.
///
/// Every boundary between two pixels of different labels (outside the raster, the
/// virtual background `u16::MAX`) is one segment of the dual grid; corners where one
/// diagonal is a single face are split (see [`dual::split_corners`]); and the segments are
/// walked into curves (see [`walk::walk`]). Every segment is one step of exactly one
/// curve, so every boundary is stored once; walked in stored order, every step of a curve
/// has the curve's `left` face on its left and its `right` face on its right; and a curve
/// runs from junction to junction through pass-throughs only, or, closed, meets no
/// junction at all; a closed curve starts at the first end of the first-listed of its
/// segments and is walked along that segment first, and an open one starts at the end with
/// the smaller node id.
pub fn build(labels: &[u16], w: usize, h: usize, n_labels: usize) -> (map: PlanarMap)
    requires
        w * h <= labels@.len(),
        2 * ((w + 1) * (h + 1)) <= u32::MAX,
    ensures
        map.width == w,
        map.height == h,
        map.n_labels == n_labels,
        forall|e: int| 0 <= e < map.edges@.len() ==> edge_shape(#[trigger] map.edges@[e]),
        forall|e: int| 0 <= e < map.edges@.len() ==> starts_first(labels@, w as int, h as int, #[trigger] map.edges@[e]),
        forall|e: int, t: int|
            #[trigger] has_step(map.edges@, e, t) ==> step_sides(
                labels@,
                w as int,
                h as int,
                map.edges@[e],
                t,
            ),
        forall|e: int, t: int|
            0 <= e < map.edges@.len() && 0 <= t < map.edges@[e].nodes@.len() ==> #[trigger] pass_through(
                labels@,
                w as int,
                h as int,
                map.edges@[e].nodes@[t] as int,
            ) == (map.edges@[e].closed || 0 < t < map.edges@[e].nodes@.len() - 1),
        forall|o: Origin|
            #[trigger] present(labels@, w as int, h as int, o) ==> carried(
                map.edges@,
                map_seg(labels@, w as int, h as int, o).a as int,
                map_seg(labels@, w as int, h as int, o).b as int,
            ),
        forall|e1: int, t1: int, e2: int, t2: int|
            has_step(map.edges@, e1, t1) && has_step(map.edges@, e2, t2) && #[trigger] same_step(
                map.edges@[e1],
                t1,
                map.edges@[e2],
                t2,
            ) ==> e1 == e2 && t1 == t2,
{
    let ghost (lab, wi, hi) = (labels@, w as int, h as int);
    let (mut segs, Ghost(origin)) = boundary_segs(labels, w, h);
    let ghost segs0 = segs@;
    split_corners(&mut segs, labels, w, h, Ghost(origin));
    proof {
        assert((w + 1) * (h + 1) <= u32::MAX);
        assert(w + 1 <= (w + 1) * (h + 1) && h + 1 <= (w + 1) * (h + 1)) by (nonlinear_arith)
            requires
                w >= 0,
                h >= 0,
        ;
    }
    let plane = (w + 1) * (h + 1);
    let nn = 2 * plane;
    proof {
        let p = (w + 1) * (h + 1);
        assert forall|k: int| 0 <= k < segs@.len() implies #[trigger] segs@[k] == map_seg(lab, wi, hi, origin[k]) by {}
        assert forall|k: int| 0 <= k < segs@.len() implies (#[trigger] segs@[k]).a < nn && segs@[k].b < nn
            && segs@[k].a != segs@[k].b && segs@[k].left != segs@[k].right by {
            assert(present(lab, wi, hi, origin[k]));
            lemma_map_seg_ends(lab, wi, hi, origin[k]);
        }
        assert forall|k1: int, k2: int, x: int, y: int|
            0 <= k1 < segs@.len() && 0 <= k2 < segs@.len() && #[trigger] joins(segs@[k1], x, y) && #[trigger] joins(
                segs@[k2],
                x,
                y,
            ) implies k1 == k2 by {
            assert(present(lab, wi, hi, origin[k1]));
            assert(present(lab, wi, hi, origin[k2]));
            lemma_ends_determine_segment(lab, wi, hi, origin[k1], origin[k2], x, y);
            if k1 < k2 {
                assert(origin_lt(origin[k1], origin[k2]));
            } else if k2 < k1 {
                assert(origin_lt(origin[k2], origin[k1]));
            }
        }
        assert(segs_proper(segs@, nn as int));
    }
    let inc = incidence(&segs, nn);
    proof {
        assert(segs@.len() == segs.len());
        lemma_turns(lab, wi, hi, segs0, segs@, origin, inc@);
    }
    let (edges, Ghost(eseg)) = walk(&segs, &inc);
    proof {
        lemma_every_step(lab, wi, hi, segs@, origin, inc@, edges@, eseg);
        assert(finished(lab, wi, hi, segs0, segs@, origin, inc@));
        lemma_every_node(lab, wi, hi, segs0, segs@, origin, inc@, edges@, eseg);
        lemma_loops_start_first(lab, wi, hi, segs0, segs@, origin, inc@, edges@, eseg);
        assert forall|e: int| 0 <= e < edges@.len() implies edge_shape(#[trigger] edges@[e]) by {
            assert(edge_ok(segs@, edges@[e], eseg[e]));
            let k = eseg[e][0];
            assert(present(lab, wi, hi, origin[k]));
            assert(segs@[k] == map_seg(lab, wi, hi, origin[k]));
        }
        assert forall|o: Origin| #[trigger] present(lab, wi, hi, o) implies carried(
            edges@,
            map_seg(lab, wi, hi, o).a as int,
            map_seg(lab, wi, hi, o).b as int,
        ) by {
            let k = choose|k: int| 0 <= k < segs@.len() && origin[k] == o;
            assert(in_some_edge(eseg, k));
            let (e, t) = choose|e: int, t: int| 0 <= e < eseg.len() && 0 <= t < eseg[e].len() && #[trigger] eseg[e][t] == k;
            assert(edge_ok(segs@, edges@[e], eseg[e]));
            assert(has_step(edges@, e, t));
        }
        assert forall|e1: int, t1: int, e2: int, t2: int|
            has_step(edges@, e1, t1) && has_step(edges@, e2, t2) && #[trigger] same_step(
                edges@[e1],
                t1,
                edges@[e2],
                t2,
            ) implies e1 == e2 && t1 == t2 by {
            assert(edge_ok(segs@, edges@[e1], eseg[e1]));
            assert(edge_ok(segs@, edges@[e2], eseg[e2]));
            let k1 = eseg[e1][t1];
            let k2 = eseg[e2][t2];
            let (x, y) = step_ends(edges@[e1].nodes@, t1);
            assert(joins(segs@[k1], x, y));
            assert(joins(segs@[k2], x, y));
            assert(k1 == k2);
        }
    }
    PlanarMap { edges, width: w, height: h, n_labels }
}

} // verus!
