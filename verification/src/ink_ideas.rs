//! Ink-grouping research rules: the label-map pieces they share.
use vstd::prelude::*;

use crate::components::label_components;
use crate::grid::{component_count, component_id, lemma_component_id, lemma_firsts_bound, step};

verus! {

/// All four (existing) neighbours carry the same label.
pub open spec fn is_interior(labels: Seq<u16>, w: int, h: int, i: int) -> bool {
    forall|q: int| #[trigger] step(w, h, i, q) ==> labels[q] == labels[i]
}

/// All four (existing) neighbours of pixel `i` carry its label.
pub fn interior(labels: &[u16], w: usize, h: usize, i: usize) -> (res: bool)
    requires
        w * h <= labels@.len(),
        i < w * h,
    ensures
        res == is_interior(labels@, w as int, h as int, i as int),
{
    let ghost (wi, hi) = (w as int, h as int);
    proof {
        crate::grid::lemma_coords(wi, hi, i as int);
        crate::grid::lemma_step_intro(wi, hi, i as int);
    }
    let x = i % w;
    let y = i / w;
    let l = labels[i];
    proof {
        if y > 0 {
            crate::grid::lemma_step_sym(wi, hi, i as int, i - w);
        }
        if y + 1 < h {
            crate::grid::lemma_step_sym(wi, hi, i as int, i + w);
        }
        if x + 1 < w {
            crate::grid::lemma_step_sym(wi, hi, i as int, i + 1);
        }
    }
    let res = (x == 0 || labels[i - 1] == l) && (x + 1 >= w || labels[i + 1] == l) && (y == 0
        || labels[i - w] == l) && (y + 1 >= h || labels[i + w] == l);
    proof {
        assert forall|q: int| #[trigger] step(wi, hi, i as int, q) && res implies labels@[q] == l by {
            crate::grid::lemma_step_cases(wi, hi, i as int, q);
        }
    }
    res
}

/// Connected components of equal label, 4-connected, with `u32` ids in order of first
/// appearance in scan order, and the label of each component.
pub fn components(labels: &[u16], w: usize, h: usize) -> (res: (Vec<u32>, Vec<u16>))
    requires
        w * h <= labels@.len(),
        w * h < u32::MAX,
    ensures
        res.0@.len() == w * h,
        res.1@.len() == component_count(labels@, w as int, h as int),
        forall|p: int|
            0 <= p < w * h ==> #[trigger] res.0@[p] as int == component_id(
                labels@,
                w as int,
                h as int,
                p,
            ),
        forall|p: int|
            0 <= p < w * h ==> res.1@[#[trigger] component_id(labels@, w as int, h as int, p)]
                == labels@[p],
{
    let (comp, ink) = label_components(labels, w, h, 4294967294);
    proof {
        lemma_firsts_bound(labels@, w as int, h as int, w * h);
        assert forall|p: int| 0 <= p < w * h implies #[trigger] comp@[p] as int == component_id(
            labels@,
            w as int,
            h as int,
            p,
        ) by {
            lemma_component_id(labels@, w as int, h as int, p, p);
        }
        assert forall|p: int| 0 <= p < w * h implies ink@[#[trigger] component_id(
            labels@,
            w as int,
            h as int,
            p,
        )] == labels@[p] by {
            lemma_component_id(labels@, w as int, h as int, p, p);
        }
    }
    (comp, ink)
}

/// The state of a batch of merges after the first `i` candidates, cheapest first: which
/// labels have been merged away (`src`), which have received one (`dst`), where each label
/// now goes, and whether any merge was made. A candidate `(s, t)` merges `s` into `t`
/// unless `t` was already merged away, or `s` already received or made a merge.
pub open spec fn batch(k: int, cands: Seq<(usize, usize)>, i: int) -> (Seq<bool>, Seq<bool>, Seq<int>, bool)
    decreases i,
{
    if i <= 0 {
        (Seq::new(k as nat, |z: int| false), Seq::new(k as nat, |z: int| false), Seq::new(k as nat, |z: int| z), false)
    } else {
        let (src, dst, remap, any) = batch(k, cands, i - 1);
        let s = cands[i - 1].0 as int;
        let t = cands[i - 1].1 as int;
        if src[t] || dst[s] || src[s] {
            (src, dst, remap, any)
        } else {
            (src.update(s, true), dst.update(t, true), remap.update(s, t), true)
        }
    }
}

/// The candidates name labels below `k`.
pub open spec fn cands_in(k: int, cands: Seq<(usize, usize)>) -> bool {
    forall|i: int| 0 <= i < cands.len() ==> (#[trigger] cands[i]).0 < k && cands[i].1 < k
}

/// A batch never chains merges: a label that was merged away went to one that was not,
/// so the remapping is idempotent, and a label that was not merged away stays itself.
pub proof fn lemma_batch_never_chains(k: int, cands: Seq<(usize, usize)>, i: int)
    requires
        0 <= k,
        0 <= i <= cands.len(),
        cands_in(k, cands),
    ensures
        batch(k, cands, i).2.len() == k,
        forall|z: int| 0 <= z < k ==> 0 <= #[trigger] batch(k, cands, i).2[z] < k,
        forall|z: int| 0 <= z < k && !batch(k, cands, i).0[z] ==> #[trigger] batch(k, cands, i).2[z] == z,
        forall|z: int| 0 <= z < k ==> batch(k, cands, i).2[#[trigger] batch(k, cands, i).2[z]] == batch(k, cands, i).2[z],
    decreases i,
{
    lemma_batch_shape(k, cands, i);
}

proof fn lemma_batch_shape(k: int, cands: Seq<(usize, usize)>, i: int)
    requires
        0 <= k,
        0 <= i <= cands.len(),
        cands_in(k, cands),
    ensures
        batch(k, cands, i).0.len() == k,
        batch(k, cands, i).1.len() == k,
        batch(k, cands, i).2.len() == k,
        forall|z: int| 0 <= z < k ==> 0 <= #[trigger] batch(k, cands, i).2[z] < k,
        forall|z: int| 0 <= z < k && !batch(k, cands, i).0[z] ==> #[trigger] batch(k, cands, i).2[z] == z,
        forall|z: int|
            0 <= z < k && #[trigger] batch(k, cands, i).2[z] != z ==> batch(k, cands, i).1[batch(k, cands, i).2[z]]
                && !batch(k, cands, i).0[batch(k, cands, i).2[z]],
        forall|z: int| 0 <= z < k ==> batch(k, cands, i).2[#[trigger] batch(k, cands, i).2[z]] == batch(k, cands, i).2[z],
    decreases i,
{
    if i > 0 {
        lemma_batch_shape(k, cands, i - 1);
        assert(cands[i - 1].0 < k && cands[i - 1].1 < k);
        let (src, dst, remap, any) = batch(k, cands, i - 1);
        let s = cands[i - 1].0 as int;
        let t = cands[i - 1].1 as int;
        if !(src[t] || dst[s] || src[s]) {
            let r2 = remap.update(s, t);
            let src2 = src.update(s, true);
            let dst2 = dst.update(t, true);
            assert forall|z: int| 0 <= z < k && #[trigger] r2[z] != z implies dst2[r2[z]] && !src2[r2[z]] by {
                if z != s {
                    assert(remap[z] != z);
                    assert(dst[remap[z]]);
                }
            }
            assert forall|z: int| 0 <= z < k implies r2[#[trigger] r2[z]] == r2[z] by {
                if r2[z] != z {
                    assert(!src2[r2[z]]);
                }
            }
        }
    }
}

/// No candidate before the `i`-th merges its source away, merges into its source, or merges
/// its target away.
pub open spec fn untouched(cands: Seq<(usize, usize)>, i: int) -> bool {
    forall|j: int|
        0 <= j < i ==> (#[trigger] cands[j]).0 != cands[i].0 && cands[j].1 != cands[i].0 && cands[j].0
            != cands[i].1
}

/// A label is merged away, or receives a merge, only by a candidate that names it so.
proof fn lemma_batch_marks(k: int, cands: Seq<(usize, usize)>, i: int, z: int)
    requires
        0 <= k,
        0 <= i <= cands.len(),
        cands_in(k, cands),
        0 <= z < k,
    ensures
        batch(k, cands, i).0[z] ==> exists|j: int| 0 <= j < i && (#[trigger] cands[j]).0 == z,
        batch(k, cands, i).1[z] ==> exists|j: int| 0 <= j < i && (#[trigger] cands[j]).1 == z,
    decreases i,
{
    lemma_batch_shape(k, cands, i);
    if i > 0 {
        lemma_batch_marks(k, cands, i - 1, z);
        lemma_batch_shape(k, cands, i - 1);
        assert(cands[i - 1].0 < k && cands[i - 1].1 < k);
    }
}

/// Once a label is merged away, where it goes is settled: no later candidate moves it
/// again.
pub proof fn lemma_a_merge_is_final(k: int, cands: Seq<(usize, usize)>, i: int, j: int, z: int)
    requires
        0 <= k,
        0 <= i <= j <= cands.len(),
        cands_in(k, cands),
        0 <= z < k,
        batch(k, cands, i).0[z],
    ensures
        batch(k, cands, j).0[z],
        batch(k, cands, j).2[z] == batch(k, cands, i).2[z],
    decreases j - i,
{
    lemma_batch_shape(k, cands, j);
    if j > i {
        lemma_a_merge_is_final(k, cands, i, j - 1, z);
        lemma_batch_shape(k, cands, j - 1);
        assert(cands[j - 1].0 < k && cands[j - 1].1 < k);
    }
}

/// The cheapest candidate is always carried out, so a batch makes a merge exactly when it
/// has a candidate.
proof fn lemma_batch_any(k: int, cands: Seq<(usize, usize)>, i: int)
    requires
        0 <= k,
        0 <= i <= cands.len(),
        cands_in(k, cands),
    ensures
        batch(k, cands, i).3 == (i > 0),
    decreases i,
{
    lemma_batch_shape(k, cands, i);
    if i > 0 {
        lemma_batch_any(k, cands, i - 1);
        lemma_batch_shape(k, cands, i - 1);
        assert(cands[i - 1].0 < k && cands[i - 1].1 < k);
    }
}

/// A candidate that no earlier one touches ([`untouched`]) is carried out, and it is the
/// merge its source ends with, whatever comes after it.
pub proof fn lemma_untouched_candidate_is_final(k: int, cands: Seq<(usize, usize)>, i: int)
    requires
        0 <= k,
        0 <= i < cands.len(),
        cands_in(k, cands),
        untouched(cands, i),
    ensures
        batch(k, cands, cands.len() as int).2[cands[i].0 as int] == cands[i].1,
{
    let s = cands[i].0 as int;
    let t = cands[i].1 as int;
    assert(s < k && t < k);
    lemma_batch_shape(k, cands, i);
    lemma_batch_marks(k, cands, i, s);
    lemma_batch_marks(k, cands, i, t);
    assert(!batch(k, cands, i).0[s]);
    assert(!batch(k, cands, i).1[s]);
    assert(!batch(k, cands, i).0[t]);
    lemma_batch_shape(k, cands, i + 1);
    assert(batch(k, cands, i + 1).0[s]);
    assert(batch(k, cands, i + 1).2[s] == t);
    lemma_a_merge_is_final(k, cands, i + 1, cands.len() as int, s);
}

/// Merge labels in one batch: `cands` are `(s, t)` pairs, cheapest first, each asking to
/// merge label `s` into label `t`; a pair is skipped when `t` was already merged away or
/// `s` has already received or made a merge (see [`batch`]). Every pixel is relabelled
/// with where its label went; returns whether any merge was made.
pub fn batch_merge(labels: &mut Vec<u16>, k: usize, cands: &[(usize, usize)]) -> (any: bool)
    requires
        k <= u16::MAX + 1,
        cands_in(k as int, cands@),
        forall|p: int| 0 <= p < old(labels)@.len() ==> (#[trigger] old(labels)@[p] as int) < k,
    ensures
        any == batch(k as int, cands@, cands@.len() as int).3,
        any == (cands@.len() > 0),
        final(labels)@.len() == old(labels)@.len(),
        forall|p: int|
            0 <= p < old(labels)@.len() ==> #[trigger] final(labels)@[p] as int == batch(
                k as int,
                cands@,
                cands@.len() as int,
            ).2[old(labels)@[p] as int],
        forall|i: int, p: int|
            #![trigger untouched(cands@, i), old(labels)@[p]]
            0 <= i < cands@.len() && untouched(cands@, i) && 0 <= p < old(labels)@.len() && old(labels)@[p]
                == cands@[i].0 ==> final(labels)@[p] == cands@[i].1,
{
    if cands.len() == 0 {
        return false;
    }
    let ghost ks = k as int;
    let ghost cs = cands@;
    let mut src: Vec<bool> = Vec::new();
    let mut dst: Vec<bool> = Vec::new();
    let mut remap: Vec<u16> = Vec::new();
    let mut z: usize = 0;
    while z < k
        invariant
            z <= k,
            k <= u16::MAX + 1,
            src@ == Seq::new(z as nat, |q: int| false),
            dst@ == Seq::new(z as nat, |q: int| false),
            remap@.len() == z,
            forall|q: int| 0 <= q < z ==> #[trigger] remap@[q] as int == q,
        decreases k - z,
    {
        src.push(false);
        dst.push(false);
        remap.push(z as u16);
        proof {
            assert(src@ =~= Seq::new((z + 1) as nat, |q: int| false));
            assert(dst@ =~= Seq::new((z + 1) as nat, |q: int| false));
        }
        z += 1;
    }
    let mut any = false;
    let mut i: usize = 0;
    while i < cands.len()
        invariant
            ks == k,
            cs == cands@,
            cands_in(ks, cs),
            i <= cs.len(),
            k <= u16::MAX + 1,
            remap@.len() == k,
            (src@, dst@, remap@.map_values(|v: u16| v as int), any) == batch(ks, cs, i as int),
        decreases cs.len() - i,
    {
        let (s, t) = cands[i];
        proof {
            assert(cs[i as int].0 < ks && cs[i as int].1 < ks);
            lemma_batch_shape(ks, cs, i as int);
        }
        if !(src[t] || dst[s] || src[s]) {
            src.set(s, true);
            dst.set(t, true);
            remap.set(s, t as u16);
            any = true;
            proof {
                let prev = batch(ks, cs, i as int);
                assert(remap@.map_values(|v: u16| v as int) =~= prev.2.update(s as int, t as int));
            }
        }
        i += 1;
    }
    let ghost r = batch(ks, cs, cs.len() as int).2;
    let ghost l0 = labels@;
    let mut p: usize = 0;
    while p < labels.len()
        invariant
            ks == k,
            remap@.len() == k,
            r == remap@.map_values(|v: u16| v as int),
            labels@.len() == l0.len(),
            forall|q: int| 0 <= q < l0.len() ==> (#[trigger] l0[q] as int) < k,
            p <= labels@.len(),
            forall|q: int|
                0 <= q < labels@.len() ==> #[trigger] labels@[q] as int == if q < p {
                    r[l0[q] as int]
                } else {
                    l0[q] as int
                },
        decreases labels@.len() - p,
    {
        let l = labels[p];
        let v = remap[l as usize];
        labels.set(p, v);
        p += 1;
    }
    proof {
        lemma_batch_any(ks, cs, cs.len() as int);
        assert forall|i: int, p: int|
            #![trigger untouched(cs, i), l0[p]]
            0 <= i < cs.len() && untouched(cs, i) && 0 <= p < l0.len() && l0[p] == cs[i].0 implies labels@[p]
                == cs[i].1 by {
            lemma_untouched_candidate_is_final(ks, cs, i);
        }
    }
    any
}

} // verus!
