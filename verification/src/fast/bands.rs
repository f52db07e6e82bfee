//! Fast mode's gradients: which faces touch, and how long a border they share.
//!
//! A smooth gradient has no flat colour, so the palette quantises it into bands, and each
//! band is a face with a boundary of its own. Adjacent faces whose inks are a small step
//! apart are joined into clusters; the clusters are sets of a union-find forest, and the
//! adjacency they are joined along is the contact length between every pair of faces. A
//! cluster that one gradient fits becomes one face, and the faces are numbered again.
use std::collections::HashMap;
use vstd::prelude::*;

use crate::forest::{forest_ok, ids_usize, lemma_halve, root};
use crate::grid::lemma_index;
use crate::pair_keys::{increasing, key_pair, lemma_key_pair, lemma_pair_of_key, pair_key, sorted_keys};

verus! {

/// The root of `x`, halving the path on the way.
pub fn find(parent: &mut Vec<usize>, x: usize) -> (r: usize)
    requires
        forest_ok(ids_usize(old(parent)@)),
        x < old(parent)@.len(),
    ensures
        forest_ok(ids_usize(final(parent)@)),
        final(parent)@.len() == old(parent)@.len(),
        r as int == root(ids_usize(old(parent)@), x as int),
        forall|z: int| #[trigger] root(ids_usize(final(parent)@), z) == root(ids_usize(old(parent)@), z),
{
    let ghost p0 = ids_usize(parent@);
    let ghost x0 = x as int;
    let mut x = x;
    while parent[x] != x
        invariant
            forest_ok(ids_usize(parent@)),
            parent@.len() == p0.len(),
            x < parent@.len(),
            root(ids_usize(parent@), x as int) == root(p0, x0),
            forall|z: int| #[trigger] root(ids_usize(parent@), z) == root(p0, z),
        decreases x,
    {
        let ghost pv = ids_usize(parent@);
        proof {
            assert(pv[x as int] == parent@[x as int]);
            assert(0 <= pv[pv[x as int]] <= pv[x as int]);
        }
        let g = parent[parent[x]];
        parent[x] = g;
        proof {
            assert(ids_usize(parent@) =~= pv.update(x as int, pv[pv[x as int]]));
            assert forall|z: int| #[trigger] root(ids_usize(parent@), z) == root(p0, z) by {
                lemma_halve(pv, x as int, z);
            }
            assert(root(pv, x as int) == root(pv, pv[x as int]));
            if pv[pv[x as int]] < pv[x as int] {
                assert(root(pv, pv[x as int]) == root(pv, g as int));
            }
        }
        x = parent[x];
    }
    proof {
        assert(ids_usize(parent@)[x as int] == x);
    }
    x
}

} // verus!

verus! {

/// The unordered pair of two labels, the smaller first.
pub open spec fn pair_of(a: u16, b: u16) -> (u16, u16) {
    if a <= b {
        (a, b)
    } else {
        (b, a)
    }
}

/// Border that pixel `p` shares with its right and its lower neighbour, counted when the
/// two labels differ and make the pair `(a, b)`.
pub open spec fn touches_at(labels: Seq<u16>, w: int, h: int, p: int, a: u16, b: u16) -> nat {
    (if p % w + 1 < w && labels[p] != labels[p + 1] && pair_of(labels[p], labels[p + 1]) == (a, b) {
        1nat
    } else {
        0nat
    }) + (if p / w + 1 < h && labels[p] != labels[p + w] && pair_of(labels[p], labels[p + w]) == (
    a, b) {
        1nat
    } else {
        0nat
    })
}

/// Border between labels `a` and `b` over the pixels below `upto`.
pub open spec fn contact_below(labels: Seq<u16>, w: int, h: int, a: u16, b: u16, upto: int) -> nat
    decreases upto,
{
    if upto <= 0 {
        0
    } else {
        contact_below(labels, w, h, a, b, upto - 1) + touches_at(labels, w, h, upto - 1, a, b)
    }
}

/// Contact length between labels `a` and `b`: the pairs of 4-neighbours carrying them.
pub open spec fn contact(labels: Seq<u16>, w: int, h: int, a: u16, b: u16) -> nat {
    contact_below(labels, w, h, a, b, w * h)
}

/// A contact map: its keys are those of the pairs with a positive count `f`, each holding
/// that count.
pub open spec fn counted_map(m: Map<u32, u32>, f: spec_fn(u16, u16) -> nat) -> bool {
    &&& forall|k: u32| #[trigger] m.contains_key(k) <==> f(key_pair(k).0, key_pair(k).1) > 0
    &&& forall|k: u32| #[trigger] m.contains_key(k) ==> m[k] == f(key_pair(k).0, key_pair(k).1)
}

} // verus!

verus! {

/// Count a contact between labels `a` and `b`, when they differ.
fn touch(out: &mut HashMap<u32, u32>, a: u16, b: u16, Ghost(f): Ghost<spec_fn(u16, u16) -> nat>)
    requires
        counted_map(old(out)@, f),
        f(pair_of(a, b).0, pair_of(a, b).1) + 1 <= u32::MAX,
    ensures
        counted_map(
            final(out)@,
            |x: u16, y: u16| f(x, y) + if a != b && pair_of(a, b) == (x, y) { 1nat } else { 0nat },
        ),
{
    broadcast use vstd::std_specs::hash::group_hash_axioms;

    let ghost g = |x: u16, y: u16| f(x, y) + if a != b && pair_of(a, b) == (x, y) { 1nat } else { 0nat };
    if a != b {
        let (lo, hi) = if a < b {
            (a, b)
        } else {
            (b, a)
        };
        proof {
            lemma_key_pair(lo, hi);
        }
        let key: u32 = lo as u32 * 65536 + hi as u32;
        let c: u32 = match out.get(&key) {
            Some(c) => *c,
            None => 0,
        };
        proof {
            assert(c == f(lo, hi));
        }
        out.insert(key, c + 1);
        proof {
            assert forall|k: u32| #[trigger] out@.contains_key(k) == (g(key_pair(k).0, key_pair(k).1) > 0)
                && (out@.contains_key(k) ==> out@[k] == g(key_pair(k).0, key_pair(k).1)) by {
                if k != key {
                    assert(key_pair(k) != (lo, hi));
                }
            }
        }
    } else {
        proof {
            assert(g =~= f);
        }
    }
}

proof fn lemma_contact_bound(labels: Seq<u16>, w: int, h: int, a: u16, b: u16, upto: int)
    requires
        0 <= upto,
    ensures
        contact_below(labels, w, h, a, b, upto) <= 2 * upto,
    decreases upto,
{
    if upto > 0 {
        lemma_contact_bound(labels, w, h, a, b, upto - 1);
    }
}

/// Contact length between every pair of adjacent faces, keyed by the pair (the smaller
/// label first, in the high half of the key); a pair that does not touch has no entry.
pub fn contacts(labels: &[u16], w: usize, h: usize) -> (out: HashMap<u32, u32>)
    requires
        w * h <= labels@.len(),
        2 * (w * h) <= u32::MAX,
    ensures
        counted_map(out@, |a: u16, b: u16| contact(labels@, w as int, h as int, a, b)),
{
    broadcast use vstd::std_specs::hash::group_hash_axioms;

    let ghost (lab, wi, hi) = (labels@, w as int, h as int);
    let mut out: HashMap<u32, u32> = HashMap::new();
    proof {
        assert(counted_map(out@, |a: u16, b: u16| contact_below(lab, wi, hi, a, b, 0)));
    }
    let mut y: usize = 0;
    while y < h
        invariant
            lab == labels@,
            wi == w,
            hi == h,
            w * h <= lab.len(),
            2 * (w * h) <= u32::MAX,
            y <= h,
            counted_map(out@, |a: u16, b: u16| contact_below(lab, wi, hi, a, b, y * w)),
        decreases h - y,
    {
        let mut x: usize = 0;
        while x < w
            invariant
                lab == labels@,
                wi == w,
                hi == h,
                w * h <= lab.len(),
                2 * (w * h) <= u32::MAX,
                y < h,
                x <= w,
                counted_map(out@, |a: u16, b: u16| contact_below(lab, wi, hi, a, b, y * w + x)),
            decreases w - x,
        {
            let ghost p0 = y * w + x;
            proof {
                lemma_index(wi, hi, x as int, y as int);
                assert(y * w + x + 1 <= w * h);
                assert forall|a: u16, b: u16| contact_below(lab, wi, hi, a, b, p0) + 2 <= u32::MAX by {
                    lemma_contact_bound(lab, wi, hi, a, b, p0);
                }
            }
            let p = y * w + x;
            let ghost f0 = |a: u16, b: u16| contact_below(lab, wi, hi, a, b, p0);
            let ghost right = |a: u16, b: u16|
                if x + 1 < w && lab[p0] != lab[p0 + 1] && pair_of(lab[p0], lab[p0 + 1]) == (a, b) {
                    1nat
                } else {
                    0nat
                };
            let ghost f1 = |a: u16, b: u16| f0(a, b) + right(a, b);
            if x + 1 < w {
                proof {
                    assert(y * w + w <= w * h) by (nonlinear_arith)
                        requires
                            y < h,
                    ;
                }
                touch(&mut out, labels[p], labels[p + 1], Ghost(f0));
                proof {
                    assert(f1 =~= (|a: u16, b: u16| f0(a, b) + if labels@[p as int] != labels@[p + 1]
                        && pair_of(labels@[p as int], labels@[p + 1]) == (a, b) {
                        1nat
                    } else {
                        0nat
                    }));
                }
            } else {
                proof {
                    assert(f1 =~= f0);
                }
            }
            let ghost f2 = |a: u16, b: u16| contact_below(lab, wi, hi, a, b, p0 + 1);
            if y + 1 < h {
                proof {
                    assert(p + w < w * h) by (nonlinear_arith)
                        requires
                            p == y * w + x,
                            x < w,
                            y + 1 < h,
                    ;
                }
                touch(&mut out, labels[p], labels[p + w], Ghost(f1));
                proof {
                    assert(f2 =~= (|a: u16, b: u16| f1(a, b) + if labels@[p as int] != labels@[p + w]
                        && pair_of(labels@[p as int], labels@[p + w]) == (a, b) {
                        1nat
                    } else {
                        0nat
                    }));
                }
            } else {
                proof {
                    assert(f2 =~= f1);
                }
            }
            x += 1;
        }
        y += 1;
        proof {
            assert((y - 1) * w + w == y * w) by (nonlinear_arith);
        }
    }
    proof {
        assert(h * w == w * h) by (nonlinear_arith);
        assert((|a: u16, b: u16| contact_below(lab, wi, hi, a, b, y * w)) =~= (|a: u16, b: u16|
            contact(labels@, w as int, h as int, a, b)));
    }
    out
}


/// A contact map's entries as `(pair, count)` pairs, in order of the pair.
pub fn contact_pairs(m: &HashMap<u32, u32>) -> (out: Vec<((u16, u16), u32)>)
    ensures
        forall|i: int, j: int| 0 <= i < j < out@.len() ==> pair_key(out@[i].0) < pair_key(out@[j].0),
        forall|i: int|
            0 <= i < out@.len() ==> m@.contains_key(pair_key(#[trigger] out@[i].0) as u32) && m@[pair_key(
                out@[i].0,
            ) as u32] == out@[i].1,
        forall|k: u32| #[trigger] m@.contains_key(k) ==> exists|i: int| 0 <= i < out@.len() && out@[i].0 == key_pair(k),
{
    broadcast use vstd::std_specs::hash::group_hash_axioms;

    let keys = sorted_keys(m);
    proof {
        assert forall|j: int| 0 <= j < keys@.len() implies m@.contains_key(#[trigger] keys@[j]) by {
            assert(keys@.contains(keys@[j]));
        }
    }
    let mut out: Vec<((u16, u16), u32)> = Vec::new();
    let mut i: usize = 0;
    while i < keys.len()
        invariant
            i <= keys@.len(),
            increasing(keys@),
            forall|j: int| 0 <= j < keys@.len() ==> m@.contains_key(#[trigger] keys@[j]),
            out@.len() == i,
            forall|j: int| 0 <= j < i ==> (#[trigger] out@[j]).0 == key_pair(keys@[j]) && out@[j].1 == m@[keys@[j]],
        decreases keys@.len() - i,
    {
        let k = keys[i];
        let c: u32 = match m.get(&k) {
            Some(c) => *c,
            None => 0,
        };
        out.push((((k / 65536) as u16, (k % 65536) as u16), c));
        i += 1;
    }
    proof {
        assert forall|j: int| 0 <= j < out@.len() implies pair_key(#[trigger] out@[j].0) == keys@[j] by {
            lemma_pair_of_key(keys@[j]);
        }
        assert forall|k: u32| #[trigger] m@.contains_key(k) implies exists|i: int|
            0 <= i < out@.len() && out@[i].0 == key_pair(k) by {
            assert(keys@.contains(k));
            let j = choose|j: int| 0 <= j < keys@.len() && keys@[j] == k;
            assert(out@[j].0 == key_pair(k));
        }
    }
    out
}

/// The distinct values among the first `k` of `s`, in order of first appearance.
pub open spec fn first_seen(s: Seq<usize>, k: int) -> Seq<usize>
    decreases k,
{
    if k <= 0 {
        Seq::empty()
    } else if first_seen(s, k - 1).contains(s[k - 1]) {
        first_seen(s, k - 1)
    } else {
        first_seen(s, k - 1).push(s[k - 1])
    }
}

/// Renumber faces after ramps are merged: face `f` becomes face `target[f]` (its cluster's
/// root when the cluster got one fill, itself otherwise), and the faces that remain are
/// numbered `0, 1, ...` in order of first appearance among the targets. Returns, for each
/// new face, the old face it stands for; every pixel's label becomes its new face.
pub fn renumber_faces(labels: &mut [u16], target: &[usize]) -> (kept: Vec<usize>)
    requires
        target@.len() <= u16::MAX,
        forall|f: int| 0 <= f < target@.len() ==> (#[trigger] target@[f] as int) < target@.len(),
        forall|p: int| 0 <= p < old(labels)@.len() ==> (#[trigger] old(labels)@[p] as int) < target@.len(),
    ensures
        kept@ == first_seen(target@, target@.len() as int),
        kept@.no_duplicates(),
        final(labels)@.len() == old(labels)@.len(),
        forall|p: int|
            0 <= p < old(labels)@.len() ==> (#[trigger] final(labels)@[p] as int) < kept@.len()
                && kept@[final(labels)@[p] as int] == target@[old(labels)@[p] as int],
{
    let n = target.len();
    let ghost ts = target@;
    let mut new_id: Vec<u16> = Vec::new();
    let mut f: usize = 0;
    while f < n
        invariant
            f <= n,
            new_id@.len() == f,
            forall|t: int| 0 <= t < f ==> #[trigger] new_id@[t] == u16::MAX,
        decreases n - f,
    {
        new_id.push(u16::MAX);
        f += 1;
    }
    let mut kept: Vec<usize> = Vec::new();
    let mut f: usize = 0;
    while f < n
        invariant
            ts == target@,
            n == ts.len(),
            n <= u16::MAX,
            forall|g: int| 0 <= g < n ==> (#[trigger] ts[g] as int) < n,
            f <= n,
            new_id@.len() == n,
            kept@ == first_seen(ts, f as int),
            kept@.no_duplicates(),
            kept@.len() <= f,
            forall|i: int| 0 <= i < kept@.len() ==> (#[trigger] kept@[i] as int) < n,
            forall|t: int|
                0 <= t < n ==> (#[trigger] new_id@[t] == u16::MAX) == !kept@.contains(t as usize),
            forall|t: int|
                0 <= t < n && #[trigger] new_id@[t] != u16::MAX ==> (new_id@[t] as int) < kept@.len()
                    && kept@[new_id@[t] as int] == t,
        decreases n - f,
    {
        let t = target[f];
        if new_id[t] == u16::MAX {
            let ghost k0 = kept@;
            new_id.set(t, kept.len() as u16);
            kept.push(t);
            proof {
                assert(!k0.contains(t));
                assert forall|i: int, j: int| 0 <= i < j < kept@.len() implies kept@[i] != kept@[j] by {
                    if j == kept@.len() - 1 {
                        assert(k0.contains(k0[i]));
                    }
                }
                assert forall|u: int| 0 <= u < n implies (#[trigger] new_id@[u] == u16::MAX) == !kept@.contains(
                    u as usize,
                ) by {
                    if u != t {
                        if kept@.contains(u as usize) {
                            let i = choose|i: int| 0 <= i < kept@.len() && kept@[i] == u as usize;
                            assert(k0[i] == u as usize);
                        }
                        if k0.contains(u as usize) {
                            let i = choose|i: int| 0 <= i < k0.len() && k0[i] == u as usize;
                            assert(kept@[i] == u as usize);
                        }
                    } else {
                        assert(kept@[k0.len() as int] == t);
                    }
                }
            }
        } else {
            proof {
                assert(kept@.contains(t));
            }
        }
        f += 1;
    }
    let mut p: usize = 0;
    while p < labels.len()
        invariant
            ts == target@,
            n == ts.len(),
            forall|g: int| 0 <= g < n ==> (#[trigger] ts[g] as int) < n,
            new_id@.len() == n,
            kept@ == first_seen(ts, n as int),
            forall|i: int| 0 <= i < kept@.len() ==> (#[trigger] kept@[i] as int) < n,
            forall|t: int|
                0 <= t < n ==> (#[trigger] new_id@[t] == u16::MAX) == !kept@.contains(t as usize),
            forall|t: int|
                0 <= t < n && #[trigger] new_id@[t] != u16::MAX ==> (new_id@[t] as int) < kept@.len()
                    && kept@[new_id@[t] as int] == t,
            labels@.len() == old(labels)@.len(),
            p <= labels@.len(),
            forall|q: int| 0 <= q < old(labels)@.len() ==> (#[trigger] old(labels)@[q] as int) < n,
            forall|q: int| p <= q < labels@.len() ==> #[trigger] labels@[q] == old(labels)@[q],
            forall|q: int|
                0 <= q < p ==> (#[trigger] labels@[q] as int) < kept@.len() && kept@[labels@[q] as int]
                    == ts[old(labels)@[q] as int],
        decreases labels@.len() - p,
    {
        let l = labels[p] as usize;
        let t = target[l];
        proof {
            lemma_first_seen_has(ts, n as int, l as int);
        }
        labels[p] = new_id[t];
        p += 1;
    }
    kept
}

/// Every value among the first `k` of `s` is in their first-seen list.
proof fn lemma_first_seen_has(s: Seq<usize>, k: int, i: int)
    requires
        0 <= i < k <= s.len(),
    ensures
        first_seen(s, k).contains(s[i]),
    decreases k,
{
    if i < k - 1 {
        lemma_first_seen_has(s, k - 1, i);
        if !first_seen(s, k - 1).contains(s[k - 1]) {
            let prev = first_seen(s, k - 1);
            let j = choose|j: int| 0 <= j < prev.len() && #[trigger] prev[j] == s[i];
            assert(first_seen(s, k)[j] == s[i]);
        }
    } else {
        if !first_seen(s, k - 1).contains(s[k - 1]) {
            assert(first_seen(s, k)[first_seen(s, k - 1).len() as int] == s[i]);
        }
    }
}

} // verus!
