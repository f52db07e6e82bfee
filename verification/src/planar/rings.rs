//! The rings each face's boundary closes into, as references into the map's edges.
//!
//! A face names the edges around it by index, with a flag saying whether it walks the edge
//! backwards. Nothing is copied, so the two faces on either side of a boundary name the
//! same edge and cannot drift apart.
use std::collections::HashMap;
use vstd::prelude::*;

use super::walk::Edge;
use super::PlanarMap;

verus! {

/// Where the reference `x` to an edge starts: the edge's start node, or its end node when
/// it is walked backwards.
pub open spec fn ref_start(edges: Seq<Edge>, x: (usize, bool)) -> u32 {
    if x.1 {
        edges[x.0 as int].end_node
    } else {
        edges[x.0 as int].start_node
    }
}

/// Where the reference `x` to an edge ends.
pub open spec fn ref_end(edges: Seq<Edge>, x: (usize, bool)) -> u32 {
    if x.1 {
        edges[x.0 as int].start_node
    } else {
        edges[x.0 as int].end_node
    }
}

/// The references to face `f` among the first `m` edges, in edge order: `(k, false)` when
/// the face lies to the left of edge `k`, then `(k, true)` when it lies to its right.
pub open spec fn face_refs(edges: Seq<Edge>, f: int, m: int) -> Seq<(usize, bool)>
    decreases m,
{
    if m <= 0 {
        Seq::empty()
    } else {
        let prev = face_refs(edges, f, m - 1);
        let e = edges[m - 1];
        let a = if e.left as int == f {
            prev.push(((m - 1) as usize, false))
        } else {
            prev
        };
        if e.right as int == f {
            a.push(((m - 1) as usize, true))
        } else {
            a
        }
    }
}

/// `s` is the first slot of `refs` whose reference is not in `used`.
pub open spec fn first_free(refs: Seq<(usize, bool)>, used: Seq<(usize, bool)>, s: int) -> bool {
    &&& 0 <= s < refs.len()
    &&& !used.contains(refs[s])
    &&& forall|q: int| 0 <= q < s ==> used.contains(#[trigger] refs[q])
}

/// `s` is the first slot of `refs` that starts at `node` and is not in `used`.
pub open spec fn first_from(
    edges: Seq<Edge>,
    refs: Seq<(usize, bool)>,
    used: Seq<(usize, bool)>,
    node: u32,
    s: int,
) -> bool {
    &&& 0 <= s < refs.len()
    &&& !used.contains(refs[s])
    &&& ref_start(edges, refs[s]) == node
    &&& forall|q: int|
        0 <= q < s && ref_start(edges, #[trigger] refs[q]) == node ==> used.contains(refs[q])
}

/// Every reference in `refs` that starts at `node` is in `used`.
pub open spec fn none_from(edges: Seq<Edge>, refs: Seq<(usize, bool)>, used: Seq<(usize, bool)>, node: u32) -> bool {
    forall|q: int| 0 <= q < refs.len() && ref_start(edges, #[trigger] refs[q]) == node ==> used.contains(refs[q])
}

/// Step `i` of `ring`: the ring has not yet come back to where it started, and its next
/// reference is the first one, in slot order, that starts where reference `i` ends and is
/// not yet taken (by an earlier ring, in `prior`, or earlier in this one).
pub open spec fn ring_step(
    edges: Seq<Edge>,
    refs: Seq<(usize, bool)>,
    prior: Seq<(usize, bool)>,
    ring: Seq<(usize, bool)>,
    i: int,
) -> bool {
    &&& ref_end(edges, ring[i]) != ref_start(edges, ring[0])
    &&& exists|s: int|
        first_from(edges, refs, prior + ring.take(i + 1), ref_end(edges, ring[i]), s) && ring[i + 1]
            == refs[s]
}

/// `ring` is the ring the walk makes when `prior` is already taken: it starts at the first
/// free reference; a closed edge is a ring of its own; otherwise each step takes the first
/// free continuation, until the ring is back at its start or no continuation is free.
pub open spec fn ring_walked(
    edges: Seq<Edge>,
    refs: Seq<(usize, bool)>,
    prior: Seq<(usize, bool)>,
    ring: Seq<(usize, bool)>,
) -> bool {
    &&& ring.len() >= 1
    &&& exists|s: int| first_free(refs, prior, s) && ring[0] == refs[s]
    &&& if edges[ring[0].0 as int].closed {
        ring.len() == 1
    } else {
        &&& forall|i: int| 0 <= i < ring.len() - 1 ==> #[trigger] ring_step(edges, refs, prior, ring, i)
        &&& ref_end(edges, ring.last()) == ref_start(edges, ring[0]) || none_from(
            edges,
            refs,
            prior + ring,
            ref_end(edges, ring.last()),
        )
    }
}

/// `rings` are the rings of a face with references `refs`: each is walked in turn from
/// what the earlier ones left, and together they take every reference.
pub open spec fn rings_ok(edges: Seq<Edge>, refs: Seq<(usize, bool)>, rings: Seq<Seq<(usize, bool)>>) -> bool {
    &&& forall|r: int| 0 <= r < rings.len() ==> ring_walked(edges, refs, rings.take(r).flatten(), #[trigger] rings[r])
    &&& forall|s: int| 0 <= s < refs.len() ==> rings.flatten().contains(#[trigger] refs[s])
}

/// A list of rings, as sequences.
pub open spec fn rings_of(v: Seq<Vec<(usize, bool)>>) -> Seq<Seq<(usize, bool)>> {
    v.map_values(|x: Vec<(usize, bool)>| x@)
}

/// The slots among the first `m` of `refs` that start at `node`, in order.
pub open spec fn slots_from(edges: Seq<Edge>, refs: Seq<(usize, bool)>, node: u32, m: int) -> Seq<usize>
    decreases m,
{
    if m <= 0 {
        Seq::empty()
    } else if ref_start(edges, refs[m - 1]) == node {
        slots_from(edges, refs, node, m - 1).push((m - 1) as usize)
    } else {
        slots_from(edges, refs, node, m - 1)
    }
}

/// What a map of slot lists holds for `node`, empty when it holds nothing.
pub open spec fn listed(m: Map<u32, Vec<usize>>, node: u32) -> Seq<usize> {
    if m.contains_key(node) {
        m[node]@
    } else {
        Seq::empty()
    }
}

/// The slots marked in `c`.
pub open spec fn marked(c: Seq<bool>) -> Set<int> {
    Set::new(|s: int| 0 <= s < c.len() && c[s])
}

proof fn lemma_face_refs(edges: Seq<Edge>, f: int, m: int)
    requires
        0 <= m <= edges.len(),
        edges.len() <= usize::MAX,
    ensures
        face_refs(edges, f, m).no_duplicates(),
        forall|s: int|
            0 <= s < face_refs(edges, f, m).len() ==> {
                let x = #[trigger] face_refs(edges, f, m)[s];
                &&& (x.0 as int) < m
                &&& if x.1 {
                    edges[x.0 as int].right as int == f
                } else {
                    edges[x.0 as int].left as int == f
                }
            },
        forall|k: int|
            0 <= k < m && (#[trigger] edges[k]).left as int == f ==> face_refs(edges, f, m).contains(
                (k as usize, false),
            ),
        forall|k: int|
            0 <= k < m && (#[trigger] edges[k]).right as int == f ==> face_refs(edges, f, m).contains(
                (k as usize, true),
            ),
    decreases m,
{
    if m > 0 {
        lemma_face_refs(edges, f, m - 1);
        let prev = face_refs(edges, f, m - 1);
        let e = edges[m - 1];
        let a = if e.left as int == f {
            prev.push(((m - 1) as usize, false))
        } else {
            prev
        };
        let cur = face_refs(edges, f, m);
        assert(cur == if e.right as int == f {
            a.push(((m - 1) as usize, true))
        } else {
            a
        });
        assert forall|s: int| 0 <= s < a.len() implies (#[trigger] a[s]).0 as int <= m - 1 && (a[s].0 as int
            == m - 1 ==> !a[s].1) && if a[s].1 {
            edges[a[s].0 as int].right as int == f
        } else {
            edges[a[s].0 as int].left as int == f
        } by {
            if s < prev.len() {
                assert(a[s] == prev[s]);
            }
        }
        assert(a.no_duplicates()) by {
            assert forall|s: int, t: int| 0 <= s < t < a.len() implies a[s] != a[t] by {
                if t < prev.len() {
                    assert(a[s] == prev[s] && a[t] == prev[t]);
                } else {
                    assert(a[s] == prev[s]);
                }
            }
        }
        assert(cur.no_duplicates()) by {
            assert forall|s: int, t: int| 0 <= s < t < cur.len() implies cur[s] != cur[t] by {
                if t < a.len() {
                    assert(cur[s] == a[s] && cur[t] == a[t]);
                } else {
                    assert(cur[s] == a[s]);
                }
            }
        }
        assert forall|k: int| 0 <= k < m && (#[trigger] edges[k]).left as int == f implies cur.contains(
            (k as usize, false),
        ) by {
            if k < m - 1 {
                assert(prev.contains((k as usize, false)));
                let j = choose|j: int| 0 <= j < prev.len() && prev[j] == (k as usize, false);
                assert(cur[j] == prev[j]);
            } else {
                assert(cur[prev.len() as int] == (k as usize, false));
            }
        }
        assert forall|k: int| 0 <= k < m && (#[trigger] edges[k]).right as int == f implies cur.contains(
            (k as usize, true),
        ) by {
            if k < m - 1 {
                assert(prev.contains((k as usize, true)));
                let j = choose|j: int| 0 <= j < prev.len() && prev[j] == (k as usize, true);
                assert(cur[j] == prev[j]);
            } else {
                assert(cur[cur.len() - 1] == (k as usize, true));
            }
        }
    }
}

proof fn lemma_slots_from(edges: Seq<Edge>, refs: Seq<(usize, bool)>, node: u32, m: int)
    requires
        0 <= m <= refs.len(),
        refs.len() <= usize::MAX,
    ensures
        forall|j: int|
            0 <= j < slots_from(edges, refs, node, m).len() ==> (#[trigger] slots_from(edges, refs, node, m)[j])
                < m && ref_start(edges, refs[slots_from(edges, refs, node, m)[j] as int]) == node,
        forall|j1: int, j2: int|
            0 <= j1 < j2 < slots_from(edges, refs, node, m).len() ==> #[trigger] slots_from(edges, refs, node, m)[j1]
                < #[trigger] slots_from(edges, refs, node, m)[j2],
        forall|q: int|
            0 <= q < m && ref_start(edges, #[trigger] refs[q]) == node ==> slots_from(edges, refs, node, m).contains(
                q as usize,
            ),
    decreases m,
{
    if m > 0 {
        lemma_slots_from(edges, refs, node, m - 1);
        let prev = slots_from(edges, refs, node, m - 1);
        let cur = slots_from(edges, refs, node, m);
        if ref_start(edges, refs[m - 1]) == node {
            assert(cur == prev.push((m - 1) as usize));
            assert forall|q: int| 0 <= q < m && ref_start(edges, #[trigger] refs[q]) == node implies cur.contains(
                q as usize,
            ) by {
                if q < m - 1 {
                    let j = choose|j: int| 0 <= j < prev.len() && prev[j] == q as usize;
                    assert(cur[j] == prev[j]);
                } else {
                    assert(cur[prev.len() as int] == q as usize);
                }
            }
        }
    }
}

proof fn lemma_marked(c: Seq<bool>)
    ensures
        marked(c).finite(),
        marked(c).len() <= c.len(),
{
    vstd::set_lib::lemma_int_range(0, c.len() as int);
    vstd::set_lib::lemma_len_subset(marked(c), vstd::set_lib::set_int_range(0, c.len() as int));
}

proof fn lemma_mark(c: Seq<bool>, x: int)
    requires
        0 <= x < c.len(),
        !c[x],
    ensures
        marked(c.update(x, true)).len() == marked(c).len() + 1,
        marked(c.update(x, true)).len() <= c.len(),
{
    lemma_marked(c);
    lemma_marked(c.update(x, true));
    assert(marked(c.update(x, true)) =~= marked(c).insert(x));
}

/// Where the reference `x` starts.
fn start_of(edges: &Vec<Edge>, x: (usize, bool)) -> (res: u32)
    requires
        x.0 < edges@.len(),
    ensures
        res == ref_start(edges@, x),
{
    if x.1 {
        edges[x.0].end_node
    } else {
        edges[x.0].start_node
    }
}

/// Where the reference `x` ends.
fn end_of(edges: &Vec<Edge>, x: (usize, bool)) -> (res: u32)
    requires
        x.0 < edges@.len(),
    ensures
        res == ref_end(edges@, x),
{
    if x.1 {
        edges[x.0].start_node
    } else {
        edges[x.0].end_node
    }
}

/// The position in `cands` of the first slot not yet consumed.
fn first_unused(cands: &Vec<usize>, consumed: &Vec<bool>) -> (res: Option<usize>)
    requires
        forall|j: int| 0 <= j < cands@.len() ==> (#[trigger] cands@[j]) < consumed@.len(),
    ensures
        match res {
            Some(j) => j < cands@.len() && !consumed@[cands@[j as int] as int] && forall|q: int|
                0 <= q < j ==> consumed@[#[trigger] cands@[q] as int],
            None => forall|q: int| 0 <= q < cands@.len() ==> consumed@[#[trigger] cands@[q] as int],
        },
{
    let mut j: usize = 0;
    while j < cands.len()
        invariant
            j <= cands@.len(),
            forall|q: int| 0 <= q < cands@.len() ==> (#[trigger] cands@[q]) < consumed@.len(),
            forall|q: int| 0 <= q < j ==> consumed@[#[trigger] cands@[q] as int],
        decreases cands@.len() - j,
    {
        if !consumed[cands[j]] {
            return Some(j);
        }
        j += 1;
    }
    None
}

proof fn lemma_push_contains(a: Seq<(usize, bool)>, x: (usize, bool), y: (usize, bool))
    ensures
        a.push(x).contains(y) == (a.contains(y) || y == x),
{
    if a.contains(y) {
        let j = choose|j: int| 0 <= j < a.len() && a[j] == y;
        assert(a.push(x)[j] == y);
    }
    if y == x {
        assert(a.push(x)[a.len() as int] == y);
    }
    if a.push(x).contains(y) {
        let j = choose|j: int| 0 <= j < a.push(x).len() && a.push(x)[j] == y;
        if j < a.len() {
            assert(a[j] == y);
        }
    }
}

proof fn lemma_step_stable(
    edges: Seq<Edge>,
    refs: Seq<(usize, bool)>,
    prior: Seq<(usize, bool)>,
    ring: Seq<(usize, bool)>,
    x: (usize, bool),
    i: int,
)
    requires
        0 <= i < ring.len() - 1,
        ring_step(edges, refs, prior, ring, i),
    ensures
        ring_step(edges, refs, prior, ring.push(x), i),
{
    assert(ring.push(x).take(i + 1) =~= ring.take(i + 1));
    assert(ring.push(x)[i] == ring[i]);
    assert(ring.push(x)[i + 1] == ring[i + 1]);
    assert(ring.push(x)[0] == ring[0]);
    let s = choose|s: int|
        first_from(edges, refs, prior + ring.take(i + 1), ref_end(edges, ring[i]), s) && ring[i + 1] == refs[s];
    assert(first_from(edges, refs, prior + ring.push(x).take(i + 1), ref_end(edges, ring.push(x)[i]), s));
}

proof fn lemma_first_from(
    edges: Seq<Edge>,
    refs: Seq<(usize, bool)>,
    used: Seq<(usize, bool)>,
    consumed: Seq<bool>,
    node: u32,
    cands: Seq<usize>,
    j: int,
)
    requires
        refs.len() <= usize::MAX,
        cands == slots_from(edges, refs, node, refs.len() as int),
        consumed.len() == refs.len(),
        forall|s: int| 0 <= s < refs.len() ==> consumed[s] == used.contains(#[trigger] refs[s]),
        0 <= j < cands.len(),
        !consumed[cands[j] as int],
        forall|q: int| 0 <= q < j ==> consumed[#[trigger] cands[q] as int],
    ensures
        first_from(edges, refs, used, node, cands[j] as int),
{
    lemma_slots_from(edges, refs, node, refs.len() as int);
    let s = cands[j] as int;
    assert forall|q: int| 0 <= q < s && ref_start(edges, #[trigger] refs[q]) == node implies used.contains(refs[q]) by {
        assert(cands.contains(q as usize));
        let jq = choose|jq: int| 0 <= jq < cands.len() && cands[jq] == q as usize;
        if jq > j {
            assert(cands[j] < cands[jq]);
        }
        assert(consumed[cands[jq] as int]);
    }
}

proof fn lemma_none_from(
    edges: Seq<Edge>,
    refs: Seq<(usize, bool)>,
    used: Seq<(usize, bool)>,
    consumed: Seq<bool>,
    node: u32,
    cands: Seq<usize>,
)
    requires
        refs.len() <= usize::MAX,
        cands == slots_from(edges, refs, node, refs.len() as int),
        consumed.len() == refs.len(),
        forall|s: int| 0 <= s < refs.len() ==> consumed[s] == used.contains(#[trigger] refs[s]),
        forall|q: int| 0 <= q < cands.len() ==> consumed[#[trigger] cands[q] as int],
    ensures
        none_from(edges, refs, used, node),
{
    lemma_slots_from(edges, refs, node, refs.len() as int);
    assert forall|q: int| 0 <= q < refs.len() && ref_start(edges, #[trigger] refs[q]) == node implies used.contains(
        refs[q],
    ) by {
        assert(cands.contains(q as usize));
        let jq = choose|jq: int| 0 <= jq < cands.len() && cands[jq] == q as usize;
        assert(consumed[cands[jq] as int]);
    }
}

/// The rings of one face, whose references to the map's edges are `refs`.
fn face_rings(edges: &Vec<Edge>, refs: &Vec<(usize, bool)>) -> (rings: Vec<Vec<(usize, bool)>>)
    requires
        refs@.no_duplicates(),
        forall|s: int| 0 <= s < refs@.len() ==> (#[trigger] refs@[s]).0 < edges@.len(),
    ensures
        rings_ok(edges@, refs@, rings_of(rings@)),
{
    broadcast use vstd::std_specs::hash::group_hash_axioms;

    let n = refs.len();
    let ghost e = edges@;
    let ghost rs = refs@;
    let mut by_start: HashMap<u32, Vec<usize>> = HashMap::new();
    let mut slot: usize = 0;
    while slot < n
        invariant
            n == rs.len(),
            rs == refs@,
            e == edges@,
            slot <= n,
            forall|s: int| 0 <= s < rs.len() ==> (#[trigger] rs[s]).0 < e.len(),
            forall|node: u32| #[trigger] listed(by_start@, node) == slots_from(e, rs, node, slot as int),
        decreases n - slot,
    {
        let node = start_of(edges, refs[slot]);
        let ghost before = by_start@;
        let mut list = match by_start.remove(&node) {
            Some(v) => v,
            None => Vec::new(),
        };
        proof {
            assert(list@ == listed(before, node));
        }
        list.push(slot);
        by_start.insert(node, list);
        proof {
            assert forall|x: u32| #[trigger] listed(by_start@, x) == slots_from(e, rs, x, slot + 1) by {
                if x != node {
                    assert(listed(by_start@, x) == listed(before, x));
                }
            }
        }
        slot += 1;
    }
    let mut consumed: Vec<bool> = Vec::new();
    let mut q: usize = 0;
    while q < n
        invariant
            q <= n,
            consumed@.len() == q,
            forall|s: int| 0 <= s < q ==> !#[trigger] consumed@[s],
        decreases n - q,
    {
        consumed.push(false);
        q += 1;
    }
    let mut rings: Vec<Vec<(usize, bool)>> = Vec::new();
    proof {
        assert(rings_of(rings@).flatten() =~= Seq::<(usize, bool)>::empty());
    }
    let mut slot0: usize = 0;
    while slot0 < n
        invariant
            n == rs.len(),
            rs == refs@,
            e == edges@,
            rs.no_duplicates(),
            slot0 <= n,
            forall|s: int| 0 <= s < rs.len() ==> (#[trigger] rs[s]).0 < e.len(),
            forall|node: u32| #[trigger] listed(by_start@, node) == slots_from(e, rs, node, n as int),
            consumed@.len() == n,
            forall|s: int| 0 <= s < n ==> consumed@[s] == rings_of(rings@).flatten().contains(#[trigger] rs[s]),
            forall|s: int| 0 <= s < slot0 ==> #[trigger] consumed@[s],
            forall|r: int|
                0 <= r < rings@.len() ==> ring_walked(
                    e,
                    rs,
                    rings_of(rings@).take(r).flatten(),
                    #[trigger] rings_of(rings@)[r],
                ),
        decreases n - slot0,
    {
        if consumed[slot0] {
            slot0 += 1;
            continue;
        }
        let ghost rv = rings_of(rings@);
        let ghost prior = rv.flatten();
        let x0 = refs[slot0];
        proof {
            assert forall|q: int| 0 <= q < slot0 implies prior.contains(#[trigger] rs[q]) by {
                assert(consumed@[q]);
            }
            assert(first_free(rs, prior, slot0 as int));
        }
        let mut ring: Vec<(usize, bool)> = Vec::new();
        ring.push(x0);
        let ghost c0 = consumed@;
        consumed.set(slot0, true);
        proof {
            assert forall|s: int| 0 <= s < n implies consumed@[s] == (prior + ring@).contains(#[trigger] rs[s]) by {
                assert(prior + ring@ =~= prior.push(x0));
                lemma_push_contains(prior, x0, rs[s]);
                if s != slot0 {
                    assert(rs[s] != rs[slot0 as int]);
                    assert(consumed@[s] == c0[s]);
                }
            }
        }
        if !edges[x0.0].closed {
            let start_node = start_of(edges, x0);
            let mut cur = x0;
            loop
                invariant
                    n == rs.len(),
                    rs == refs@,
                    e == edges@,
                    rs.no_duplicates(),
                    forall|s: int| 0 <= s < rs.len() ==> (#[trigger] rs[s]).0 < e.len(),
                    forall|node: u32| #[trigger] listed(by_start@, node) == slots_from(e, rs, node, n as int),
                    consumed@.len() == n,
                    slot0 < n,
                    x0 == rs[slot0 as int],
                    forall|s: int| 0 <= s <= slot0 ==> #[trigger] consumed@[s],
                    ring@.len() >= 1,
                    ring@[0] == x0,
                    !e[x0.0 as int].closed,
                    start_node == ref_start(e, x0),
                    cur == ring@.last(),
                    cur.0 < e.len(),
                    forall|s: int| 0 <= s < n ==> consumed@[s] == (prior + ring@).contains(#[trigger] rs[s]),
                    forall|i: int| 0 <= i < ring@.len() - 1 ==> #[trigger] ring_step(e, rs, prior, ring@, i),
                ensures
                    ref_end(e, ring@.last()) == ref_start(e, ring@[0]) || none_from(
                        e,
                        rs,
                        prior + ring@,
                        ref_end(e, ring@.last()),
                    ),
                decreases n - marked(consumed@).len(),
            {
                let end = end_of(edges, cur);
                if end == start_node {
                    break;
                }
                let ghost used = prior + ring@;
                let found: Option<usize> = match by_start.get(&end) {
                    Some(cands) => {
                        proof {
                            lemma_slots_from(e, rs, end, n as int);
                            assert(cands@ == listed(by_start@, end));
                        }
                        match first_unused(cands, &consumed) {
                            Some(j) => {
                                proof {
                                    lemma_first_from(e, rs, used, consumed@, end, cands@, j as int);
                                }
                                Some(cands[j])
                            },
                            None => {
                                proof {
                                    lemma_none_from(e, rs, used, consumed@, end, cands@);
                                }
                                None
                            },
                        }
                    },
                    None => {
                        proof {
                            assert(listed(by_start@, end) == Seq::<usize>::empty());
                            lemma_none_from(e, rs, used, consumed@, end, Seq::<usize>::empty());
                        }
                        None
                    },
                };
                match found {
                    None => {
                        break;
                    },
                    Some(s) => {
                        let ghost old_ring = ring@;
                        let ghost cc = consumed@;
                        let x = refs[s];
                        consumed.set(s, true);
                        ring.push(x);
                        cur = x;
                        proof {
                            lemma_mark(cc, s as int);
                            assert(ring@ == old_ring.push(x));
                            assert(ring@.take(old_ring.len() as int) =~= old_ring);
                            assert(ring_step(e, rs, prior, ring@, old_ring.len() - 1));
                            assert forall|i: int| 0 <= i < ring@.len() - 1 implies #[trigger] ring_step(
                                e,
                                rs,
                                prior,
                                ring@,
                                i,
                            ) by {
                                if i < old_ring.len() - 1 {
                                    lemma_step_stable(e, rs, prior, old_ring, x, i);
                                }
                            }
                            assert forall|q: int| 0 <= q < n implies consumed@[q] == (prior + ring@).contains(
                                #[trigger] rs[q],
                            ) by {
                                assert(prior + ring@ =~= used.push(x));
                                lemma_push_contains(used, x, rs[q]);
                                if q != s {
                                    assert(rs[q] != rs[s as int]);
                                    assert(consumed@[q] == cc[q]);
                                }
                            }
                        }
                    },
                }
            }
        }
        let ghost fin = ring@;
        rings.push(ring);
        proof {
            let rv2 = rings_of(rings@);
            assert(rv2 =~= rv.push(fin));
            rv.lemma_flatten_push(fin);
            assert(rv2.flatten() =~= prior + fin);
            assert(ring_walked(e, rs, prior, fin));
            assert forall|r: int| 0 <= r < rv2.len() implies ring_walked(
                e,
                rs,
                rv2.take(r).flatten(),
                #[trigger] rv2[r],
            ) by {
                if r < rv.len() {
                    assert(rv2.take(r) =~= rv.take(r));
                    assert(rv2[r] == rv[r]);
                } else {
                    assert(rv2.take(r) =~= rv);
                }
            }
        }
        slot0 += 1;
    }
    rings
}

/// For each face, the ordered list of rings, each ring a sequence of
/// `(edge index, reversed)`.
///
/// A face's references are its edges in edge order, `(k, false)` where it lies to the left
/// of edge `k` and `(k, true)` where it lies to the right (faces `n_labels` and above, the
/// virtual background among them, get none). They are walked into rings in slot order: a
/// closed edge is a ring of its own, and an open ring follows each reference with the
/// first free one that starts where it ends, until it is back at its start or none is
/// free. Every reference ends up in exactly one ring.
pub fn face_edge_order(map: &PlanarMap) -> (out: Vec<Vec<Vec<(usize, bool)>>>)
    ensures
        out@.len() == map.n_labels,
        forall|f: int|
            0 <= f < map.n_labels ==> rings_ok(
                map.edges@,
                face_refs(map.edges@, f, map.edges@.len() as int),
                rings_of(#[trigger] out@[f]@),
            ),
{
    let n_labels = map.n_labels;
    let edges = &map.edges;
    let ghost e = edges@;
    let n_edges = edges.len();
    let mut per_label: Vec<Vec<(usize, bool)>> = Vec::new();
    let mut f: usize = 0;
    while f < n_labels
        invariant
            f <= n_labels,
            per_label@.len() == f,
            forall|g: int| 0 <= g < f ==> (#[trigger] per_label@[g])@ == face_refs(e, g, 0),
        decreases n_labels - f,
    {
        per_label.push(Vec::new());
        f += 1;
    }
    let mut k: usize = 0;
    while k < edges.len()
        invariant
            e == edges@,
            k <= e.len(),
            per_label@.len() == n_labels,
            forall|g: int| 0 <= g < n_labels ==> (#[trigger] per_label@[g])@ == face_refs(e, g, k as int),
        decreases e.len() - k,
    {
        let left = edges[k].left;
        let right = edges[k].right;
        let ghost before = per_label@;
        if (left as usize) < n_labels {
            per_label[left as usize].push((k, false));
        }
        let ghost mid = per_label@;
        if (right as usize) < n_labels {
            per_label[right as usize].push((k, true));
        }
        proof {
            assert forall|g: int| 0 <= g < n_labels implies (#[trigger] per_label@[g])@ == face_refs(
                e,
                g,
                k + 1,
            ) by {
                let prev = face_refs(e, g, k as int);
                let a = if e[k as int].left as int == g {
                    prev.push((k, false))
                } else {
                    prev
                };
                assert(mid[g]@ == a);
            }
        }
        k += 1;
    }
    let mut out: Vec<Vec<Vec<(usize, bool)>>> = Vec::new();
    let mut g: usize = 0;
    while g < n_labels
        invariant
            e == edges@,
            n_edges == e.len(),
            per_label@.len() == n_labels,
            forall|h: int| 0 <= h < n_labels ==> (#[trigger] per_label@[h])@ == face_refs(e, h, e.len() as int),
            g <= n_labels,
            out@.len() == g,
            forall|h: int| 0 <= h < g ==> rings_ok(e, face_refs(e, h, e.len() as int), rings_of(#[trigger] out@[h]@)),
        decreases n_labels - g,
    {
        proof {
            lemma_face_refs(e, g as int, e.len() as int);
            assert(per_label@[g as int]@ == face_refs(e, g as int, e.len() as int));
        }
        let rings = face_rings(edges, &per_label[g]);
        out.push(rings);
        g += 1;
    }
    out
}

proof fn lemma_ring_fresh(
    edges: Seq<Edge>,
    refs: Seq<(usize, bool)>,
    prior: Seq<(usize, bool)>,
    ring: Seq<(usize, bool)>,
)
    requires
        ring_walked(edges, refs, prior, ring),
    ensures
        forall|i: int|
            0 <= i < ring.len() ==> !(prior + ring.take(i)).contains(#[trigger] ring[i]) && refs.contains(ring[i]),
        !edges[ring[0].0 as int].closed ==> forall|i: int|
            1 <= i < ring.len() ==> ref_start(edges, #[trigger] ring[i]) == ref_end(edges, ring[i - 1]),
{
    assert forall|i: int| 0 <= i < ring.len() implies !(prior + ring.take(i)).contains(#[trigger] ring[i])
        && refs.contains(ring[i]) by {
        if i == 0 {
            let s = choose|s: int| first_free(refs, prior, s) && ring[0] == refs[s];
            assert(prior + ring.take(0) =~= prior);
            assert(refs[s] == ring[i]);
        } else {
            assert(ring_step(edges, refs, prior, ring, i - 1));
            let s = choose|s: int|
                first_from(edges, refs, prior + ring.take(i), ref_end(edges, ring[i - 1]), s) && ring[i] == refs[s];
            assert(refs[s] == ring[i]);
        }
    }
    if !edges[ring[0].0 as int].closed {
        assert forall|i: int| 1 <= i < ring.len() implies ref_start(edges, #[trigger] ring[i]) == ref_end(
            edges,
            ring[i - 1],
        ) by {
            assert(ring_step(edges, refs, prior, ring, i - 1));
        }
    }
}

proof fn lemma_fresh_concat(prior: Seq<(usize, bool)>, ring: Seq<(usize, bool)>)
    requires
        prior.no_duplicates(),
        forall|i: int| 0 <= i < ring.len() ==> !(prior + ring.take(i)).contains(#[trigger] ring[i]),
    ensures
        (prior + ring).no_duplicates(),
{
    let c = prior + ring;
    let p = prior.len() as int;
    assert forall|a: int, b: int| 0 <= a < b < c.len() implies c[a] != c[b] by {
        if b < p {
            assert(c[a] == prior[a] && c[b] == prior[b]);
        } else {
            let i = b - p;
            assert(c[b] == ring[i]);
            assert(prior + ring.take(i) =~= c.take(b));
            assert(c.take(b)[a] == c[a]);
        }
    }
}

proof fn lemma_flat_prefix(edges: Seq<Edge>, refs: Seq<(usize, bool)>, rings: Seq<Seq<(usize, bool)>>, r: int)
    requires
        0 <= r <= rings.len(),
        forall|q: int| 0 <= q < rings.len() ==> ring_walked(edges, refs, rings.take(q).flatten(), #[trigger] rings[q]),
    ensures
        rings.take(r).flatten().no_duplicates(),
        forall|x: (usize, bool)| #[trigger] rings.take(r).flatten().contains(x) ==> refs.contains(x),
    decreases r,
{
    if r == 0 {
        assert(rings.take(0) =~= Seq::<Seq<(usize, bool)>>::empty());
        assert(rings.take(0).flatten() =~= Seq::<(usize, bool)>::empty());
    } else {
        lemma_flat_prefix(edges, refs, rings, r - 1);
        let prior = rings.take(r - 1).flatten();
        let ring = rings[r - 1];
        assert(ring_walked(edges, refs, prior, ring));
        lemma_ring_fresh(edges, refs, prior, ring);
        assert(rings.take(r) =~= rings.take(r - 1).push(ring));
        rings.take(r - 1).lemma_flatten_push(ring);
        lemma_fresh_concat(prior, ring);
        assert forall|x: (usize, bool)| rings.take(r).flatten().contains(x) implies refs.contains(x) by {
            assert(rings.take(r).flatten() == prior + ring);
            let j = choose|j: int| 0 <= j < rings.take(r).flatten().len() && rings.take(r).flatten()[j] == x;
            if j < prior.len() {
                assert(prior[j] == x);
                assert(prior.contains(x));
            } else {
                assert(ring[j - prior.len()] == x);
            }
        }
    }
}

/// What a face's rings hold: each edge with the face on its left is named exactly once, as
/// `(k, false)`, each edge with the face on its right exactly once, as `(k, true)`, and
/// nothing else; and along a ring that is not a closed edge, each reference starts where
/// the one before it ends. So two faces that share a boundary both name that one edge.
pub proof fn lemma_rings_name_each_side_once(edges: Seq<Edge>, f: int, rings: Seq<Seq<(usize, bool)>>)
    requires
        edges.len() <= usize::MAX,
        rings_ok(edges, face_refs(edges, f, edges.len() as int), rings),
    ensures
        rings.flatten().no_duplicates(),
        forall|k: int|
            0 <= k < edges.len() ==> (rings.flatten().contains((k as usize, false)) <==> (#[trigger] edges[k]).left
                as int == f),
        forall|k: int|
            0 <= k < edges.len() ==> (rings.flatten().contains((k as usize, true)) <==> (#[trigger] edges[k]).right
                as int == f),
        forall|x: (usize, bool)| #[trigger] rings.flatten().contains(x) ==> (x.0 as int) < edges.len(),
        forall|r: int, i: int|
            0 <= r < rings.len() && 1 <= i < rings[r].len() && !edges[rings[r][0].0 as int].closed ==> ref_start(
                edges,
                #[trigger] rings[r][i],
            ) == ref_end(edges, rings[r][i - 1]),
{
    let refs = face_refs(edges, f, edges.len() as int);
    lemma_face_refs(edges, f, edges.len() as int);
    lemma_flat_prefix(edges, refs, rings, rings.len() as int);
    assert(rings.take(rings.len() as int) =~= rings);
    assert(rings.take(rings.len() as int).flatten() == rings.flatten());
    assert forall|x: (usize, bool)| #[trigger] rings.flatten().contains(x) implies (x.0 as int) < edges.len() by {
        let s = choose|s: int| 0 <= s < refs.len() && refs[s] == x;
    }
    assert forall|k: int| 0 <= k < edges.len() implies (rings.flatten().contains((k as usize, false)) <==> (
    #[trigger] edges[k]).left as int == f) by {
        if rings.flatten().contains((k as usize, false)) {
            let s = choose|s: int| 0 <= s < refs.len() && refs[s] == (k as usize, false);
            assert(refs[s].0 as int == k);
        }
        if edges[k].left as int == f {
            let s = choose|s: int| 0 <= s < refs.len() && refs[s] == (k as usize, false);
        }
    }
    assert forall|k: int| 0 <= k < edges.len() implies (rings.flatten().contains((k as usize, true)) <==> (
    #[trigger] edges[k]).right as int == f) by {
        if rings.flatten().contains((k as usize, true)) {
            let s = choose|s: int| 0 <= s < refs.len() && refs[s] == (k as usize, true);
            assert(refs[s].0 as int == k);
        }
        if edges[k].right as int == f {
            let s = choose|s: int| 0 <= s < refs.len() && refs[s] == (k as usize, true);
        }
    }
    assert forall|r: int, i: int|
        0 <= r < rings.len() && 1 <= i < rings[r].len() && !edges[rings[r][0].0 as int].closed implies ref_start(
        edges,
        #[trigger] rings[r][i],
    ) == ref_end(edges, rings[r][i - 1]) by {
        lemma_ring_fresh(edges, refs, rings.take(r).flatten(), rings[r]);
    }
}

} // verus!
