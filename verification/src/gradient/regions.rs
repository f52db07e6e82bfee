//! Gradient regions: which neighbouring regions are one smooth fill.
//!
//! Per region, a map from each neighbouring region to how many 4-neighbour pixel pairs
//! their seam has (`adj`), and how many of those pairs are smooth colour steps (`smooth`).
use std::collections::HashMap;
use vstd::std_specs::iter::IteratorSpec;
use vstd::prelude::*;

use super::evidence::{FOREIGN, PURE};
use super::{answers, pixel_predicate};

verus! {

/// The count a seam map holds for region `k`, zero when it holds none.
pub open spec fn seam(m: Map<u32, u32>, k: u32) -> u32 {
    if m.contains_key(k) {
        m[k]
    } else {
        0
    }
}

/// Whether the seam between regions `a` and `b` is mostly smooth steps: it exists, and at
/// least half its pixel pairs are smooth.
pub fn is_smooth(adj: &[HashMap<u32, u32>], smooth: &[HashMap<u32, u32>], a: usize, b: usize) -> (res:
    bool)
    requires
        a < adj@.len(),
        a < smooth@.len(),
    ensures
        res == (seam(adj@[a as int]@, b as u32) > 0 && 2 * seam(smooth@[a as int]@, b as u32) >= seam(
            adj@[a as int]@,
            b as u32,
        )),
{
    broadcast use vstd::std_specs::hash::group_hash_axioms;

    let key = b as u32;
    let shared = match adj[a].get(&key) {
        Some(v) => *v,
        None => 0,
    };
    let calm = match smooth[a].get(&key) {
        Some(v) => *v,
        None => 0,
    };
    shared > 0 && 2 * (calm as u64) >= shared as u64
}

/// Whether the partners before the first `PURE` mark, from index `i` on, all satisfy
/// `inside`.
pub open spec fn partners_inside<F: Fn(usize) -> bool>(partners: Seq<u32>, inside: F, i: int) -> bool
    decreases partners.len() - i,
{
    if i < 0 || i >= partners.len() || partners[i] == PURE {
        true
    } else {
        answers(inside, partners[i] as usize) && partners_inside(partners, inside, i + 1)
    }
}

/// Whether a pixel's recorded blend partners all satisfy `inside`: a blend is evidence for
/// a fit only when nothing outside the fit could have made it. A pixel marked `FOREIGN`
/// has more partners than were recorded, so it never is.
pub fn all_inside<F: Fn(usize) -> bool>(partners: &[u32], inside: F) -> (res: bool)
    requires
        partners@.len() >= 1,
        pixel_predicate(inside),
    ensures
        res == (partners@[0] != FOREIGN && partners_inside(partners@, inside, 0)),
{
    if partners[0] == FOREIGN {
        return false;
    }
    let mut i: usize = 0;
    while i < partners.len()
        invariant
            pixel_predicate(inside),
            partners@[0] != FOREIGN,
            i <= partners@.len(),
            partners_inside(partners@, inside, 0) == partners_inside(partners@, inside, i as int),
        decreases partners@.len() - i,
    {
        let q = partners[i];
        if q == PURE {
            return true;
        }
        let ok = inside(q as usize);
        proof {
            assert forall|b: bool| #[trigger] inside.ensures((q as usize,), b) implies b == ok by {}
        }
        if !ok {
            return false;
        }
        i += 1;
    }
    true
}

} // verus!

verus! {

/// The seam maps as they stand for absorbing `b` into `a`: `b`'s own map is taken away
/// first.
pub open spec fn seam_base(old: Seq<Map<u32, u32>>, b: int, j: int) -> Map<u32, u32> {
    if j == b {
        Map::empty()
    } else {
        old[j]
    }
}

/// Region `j`'s seam map once the neighbours in `done` of absorbed region `b` have been
/// handed to `a` (the final removal of `b` from `a`'s map aside).
pub open spec fn seams_after(old: Seq<Map<u32, u32>>, a: int, b: int, done: Set<u32>, j: int) -> Map<
    u32,
    u32,
> {
    let t = old[b];
    let base = seam_base(old, b, j);
    if j == a {
        Map::new(
            |k: u32| base.contains_key(k) || (done.contains(k) && k != a as u32),
            |k: u32|
                (seam(base, k) + if done.contains(k) && k != a as u32 {
                    t[k]
                } else {
                    0
                }) as u32,
        )
    } else if done.contains(j as u32) {
        base.remove(b as u32).insert(a as u32, (seam(base.remove(b as u32), a as u32) + t[j as u32]) as u32)
    } else {
        base
    }
}

/// The maps of a list of regions, as maps.
pub open spec fn maps_of(counts: Seq<HashMap<u32, u32>>) -> Seq<Map<u32, u32>> {
    counts.map_values(|m: HashMap<u32, u32>| m@)
}

/// Region `b` was absorbed into `a`: move `b`'s seam counts onto `a`.
///
/// Every neighbour `c` of `b` (other than `a`) adds its count to its seam with `a`, on
/// both sides, and forgets `b`; `b` keeps no seams but, when it bordered itself, the one
/// that moved to `a`; and `a` forgets `b`.
pub fn absorb_counts(counts: &mut Vec<HashMap<u32, u32>>, a: usize, b: usize)
    requires
        a < old(counts)@.len(),
        b < old(counts)@.len(),
        old(counts)@.len() <= u32::MAX,
        forall|c: u32| #[trigger] old(counts)@[b as int]@.contains_key(c) ==> (c as int) < old(counts)@.len(),
        forall|c: u32|
            #[trigger] old(counts)@[b as int]@.contains_key(c) && c != a as u32 ==> seam(
                seam_base(maps_of(old(counts)@), b as int, a as int),
                c,
            ) + old(counts)@[b as int]@[c] <= u32::MAX && seam(
                seam_base(maps_of(old(counts)@), b as int, c as int).remove(b as u32),
                a as u32,
            ) + old(counts)@[b as int]@[c] <= u32::MAX,
    ensures
        final(counts)@.len() == old(counts)@.len(),
        final(counts)@[a as int]@ == seams_after(
            maps_of(old(counts)@),
            a as int,
            b as int,
            old(counts)@[b as int]@.dom(),
            a as int,
        ).remove(b as u32),
        forall|j: int|
            0 <= j < old(counts)@.len() && j != a ==> #[trigger] final(counts)@[j]@ == seams_after(
                maps_of(old(counts)@),
                a as int,
                b as int,
                old(counts)@[b as int]@.dom(),
                j,
            ),
        maps_of(final(counts)@) == absorbed_table(maps_of(old(counts)@), a as int, b as int),
{
    broadcast use vstd::std_specs::hash::group_hash_axioms;

    let ghost old_maps = maps_of(counts@);
    let mut taken: HashMap<u32, u32> = HashMap::new();
    std::mem::swap(&mut taken, &mut counts[b]);
    let ghost t = taken@;
    let ghost kseq = vstd::std_specs::hash::spec_keys_iter(&taken).remaining();
    let mut keys: Vec<u32> = Vec::new();
    for c in it: taken.keys()
        invariant
            it.seq() == kseq,
            keys@ == it.seq().unref().take(it.index() as int),
            it.index() <= kseq.len(),
        ensures
            keys@ == kseq.unref(),
    {
        keys.push(*c);
        proof {
            assert(keys@ =~= it.seq().unref().take(it.index() + 1));
        }
    }
    proof {
        assert(keys@.to_set() == t.dom());
        assert(keys@.no_duplicates()) by {
            assert forall|x: int, y: int| 0 <= x < y < keys@.len() implies keys@[x] != keys@[y] by {
                assert(kseq[x] != kseq[y]);
            }
        }
        assert forall|j: int| 0 <= j < counts@.len() implies #[trigger] counts@[j]@ == seams_after(
            old_maps,
            a as int,
            b as int,
            keys@.take(0).to_set(),
            j,
        ) by {
            assert(keys@.take(0).to_set() =~= Set::empty());
            if j == a {
                assert(counts@[j]@ =~= seams_after(old_maps, a as int, b as int, Set::empty(), j));
            }
        }
    }
    let n = keys.len();
    let mut i: usize = 0;
    while i < n
        invariant
            n == keys@.len(),
            i <= n,
            keys@.no_duplicates(),
            keys@.to_set() == t.dom(),
            t == old_maps[b as int],
            taken@ == t,
            counts@.len() == old_maps.len(),
            a < counts@.len(),
            b < counts@.len(),
            counts@.len() <= u32::MAX,
            forall|c: u32| #[trigger] t.contains_key(c) ==> (c as int) < counts@.len(),
            forall|c: u32|
                #[trigger] t.contains_key(c) && c != a as u32 ==> seam(seam_base(old_maps, b as int, a as int), c)
                    + t[c] <= u32::MAX && seam(seam_base(old_maps, b as int, c as int).remove(b as u32), a as u32)
                    + t[c] <= u32::MAX,
            forall|j: int|
                0 <= j < counts@.len() ==> #[trigger] counts@[j]@ == seams_after(
                    old_maps,
                    a as int,
                    b as int,
                    keys@.take(i as int).to_set(),
                    j,
                ),
        decreases n - i,
    {
        let c = keys[i];
        let ghost done = keys@.take(i as int).to_set();
        let ghost done2 = keys@.take(i + 1).to_set();
        proof {
            assert(keys@.take(i + 1) =~= keys@.take(i as int).push(c));
            keys@.take(i as int).lemma_push_to_set_commute(c);
            assert(done2 =~= done.insert(c));
            assert(!done.contains(c)) by {
                if done.contains(c) {
                    let x = choose|x: int| 0 <= x < i && keys@.take(i as int)[x] == c;
                    assert(keys@[x] == keys@[i as int]);
                }
            }
            assert(t.dom().contains(c)) by {
                assert(keys@.to_set().contains(keys@[i as int]));
            }
        }
        let k = match taken.get(&c) {
            Some(v) => *v,
            None => 0,
        };
        if c as usize == a {
            proof {
                assert forall|j: int| 0 <= j < counts@.len() implies #[trigger] counts@[j]@ == seams_after(
                    old_maps,
                    a as int,
                    b as int,
                    done2,
                    j,
                ) by {
                    if j == a {
                        assert(seams_after(old_maps, a as int, b as int, done2, j) =~= seams_after(
                            old_maps,
                            a as int,
                            b as int,
                            done,
                            j,
                        ));
                    } else {
                        assert(j as u32 != c);
                    }
                }
            }
            i += 1;
            continue;
        }
        let ghost before = counts@;
        let cur = match counts[a].get(&c) {
            Some(v) => *v,
            None => 0,
        };
        proof {
            assert(cur == seam(before[a as int]@, c));
            assert(seam(before[a as int]@, c) == seam(seam_base(old_maps, b as int, a as int), c));
        }
        counts[a].insert(c, cur + k);
        let ghost mid = counts@;
        proof {
            assert(mid[a as int]@ =~= seams_after(old_maps, a as int, b as int, done2, a as int));
        }
        let bk = b as u32;
        counts[c as usize].remove(&bk);
        let cur2 = match counts[c as usize].get(&(a as u32)) {
            Some(v) => *v,
            None => 0,
        };
        proof {
            assert(mid[c as int]@ == seam_base(old_maps, b as int, c as int));
            assert(counts@[c as int]@ == seam_base(old_maps, b as int, c as int).remove(bk));
            assert(cur2 == seam(seam_base(old_maps, b as int, c as int).remove(bk), a as u32));
        }
        counts[c as usize].insert(a as u32, cur2 + k);
        proof {
            assert forall|j: int| 0 <= j < counts@.len() implies #[trigger] counts@[j]@ == seams_after(
                old_maps,
                a as int,
                b as int,
                done2,
                j,
            ) by {
                if j != a && j != c {
                    assert(counts@[j] == before[j]);
                    assert(j as u32 != c);
                }
            }
        }
        i += 1;
    }
    let bk = b as u32;
    counts[a].remove(&bk);
    proof {
        assert(keys@.take(n as int) =~= keys@);
        assert(old_maps[b as int].dom() == t.dom());
        assert(maps_of(counts@) =~= absorbed_table(old_maps, a as int, b as int));
    }
}

} // verus!

verus! {

/// A seam table: every region's seams name regions of the table, each seam is recorded on
/// both sides with one count, and no region borders itself.
pub open spec fn seams_symmetric(m: Seq<Map<u32, u32>>) -> bool {
    &&& forall|x: int, k: u32|
        0 <= x < m.len() && #[trigger] m[x].contains_key(k) ==> (k as int) < m.len() && k != x as u32
    &&& forall|x: int, y: int|
        0 <= x < m.len() && 0 <= y < m.len() && #[trigger] m[x].contains_key(y as u32) ==> m[y].contains_key(
            x as u32,
        ) && m[y][x as u32] == m[x][y as u32]
}

/// The seam table after region `b` is absorbed into `a`, as [`absorb_counts`] leaves it.
pub open spec fn absorbed_table(m: Seq<Map<u32, u32>>, a: int, b: int) -> Seq<Map<u32, u32>> {
    Seq::new(
        m.len(),
        |j: int|
            if j == a {
                seams_after(m, a, b, m[b].dom(), a).remove(b as u32)
            } else {
                seams_after(m, a, b, m[b].dom(), j)
            },
    )
}

/// Absorbing one region into another keeps a seam table a seam table: every seam is still
/// recorded on both sides with one count, and the absorbed region borders nothing.
pub proof fn lemma_absorb_keeps_seams_symmetric(m: Seq<Map<u32, u32>>, a: int, b: int)
    requires
        seams_symmetric(m),
        0 <= a < m.len(),
        0 <= b < m.len(),
        a != b,
        m.len() <= u32::MAX,
    ensures
        seams_symmetric(absorbed_table(m, a, b)),
        absorbed_table(m, a, b)[b] =~= Map::<u32, u32>::empty(),
        forall|j: int| 0 <= j < m.len() ==> !#[trigger] absorbed_table(m, a, b)[j].contains_key(b as u32),
{
    let n = absorbed_table(m, a, b);
    let t = m[b];
    let (au, bu) = (a as u32, b as u32);
    assert(!t.contains_key(bu));
    assert forall|x: int, k: u32| 0 <= x < n.len() && #[trigger] n[x].contains_key(k) implies (k as int)
        < n.len() && k != x as u32 by {
        if x == a {
            if !m[a].contains_key(k) {
                assert(t.contains_key(k));
            }
        } else if x != b && t.contains_key(x as u32) {
            if k != au {
                assert(m[x].contains_key(k));
            }
        } else if x == b {
        }
    }
    assert forall|x: int, y: int|
        0 <= x < n.len() && 0 <= y < n.len() && #[trigger] n[x].contains_key(y as u32) implies n[y].contains_key(
        x as u32,
    ) && n[y][x as u32] == n[x][y as u32] by {
        let (xu, yu) = (x as u32, y as u32);
        if x == a {
            assert(y != b);
            if t.contains_key(yu) {
                assert(m[y].contains_key(bu));
                assert(seam(m[y].remove(bu), au) == seam(m[y], au));
                if m[a].contains_key(yu) {
                    assert(m[y][au] == m[a][yu]);
                } else {
                    assert(!m[y].contains_key(au));
                }
            } else {
                assert(m[a].contains_key(yu));
                assert(m[y].contains_key(au));
                if m[y].contains_key(bu) {
                    assert(t.contains_key(yu));
                }
            }
        } else if y == a {
            if t.contains_key(xu) {
                assert(seam(m[x].remove(bu), au) == seam(m[x], au));
                if m[x].contains_key(au) {
                    assert(m[a][xu] == m[x][au]);
                } else {
                    assert(!m[a].contains_key(xu));
                }
            } else {
                assert(x != b);
                assert(m[x].contains_key(au));
                assert(m[a].contains_key(xu));
                assert(m[a][xu] == m[x][au]);
            }
        } else {
            assert(x != b);
            assert(y != b);
            if t.contains_key(xu) {
                assert(m[x].contains_key(yu));
            } else {
                assert(m[x].contains_key(yu));
            }
            assert(m[y].contains_key(xu));
            if t.contains_key(yu) {
                assert(m[y].contains_key(bu));
            }
            if m[x].contains_key(bu) {
                assert(t.contains_key(xu));
            }
        }
    }
    assert forall|j: int| 0 <= j < m.len() implies !#[trigger] n[j].contains_key(bu) by {
        if j != a && j != b && !t.contains_key(j as u32) && m[j].contains_key(bu) {
            assert(t.contains_key(j as u32));
        }
    }
}

} // verus!
