//! T-junction evidence: which face occludes which, corroborated over every junction that
//! names the same pair of faces.
//!
//! A single T-junction is weak evidence in vector art, because aligned edges are often
//! deliberate design rather than occlusion. Agreement across every junction that names a
//! given pair of faces is what turns a plausible local reading into a fact worth acting
//! on, and disagreement names exactly the pairs where the signal must not be trusted.
use std::collections::HashMap;
use vstd::prelude::*;

use crate::pair_keys::{key_pair, lemma_key_pair, lemma_pair_of_key, pair_key, sorted_keys};

pub mod three_way;

verus! {

/// One T-junction reading: `occluder` is locally in front of `occluded`.
#[derive(Debug, Clone, Copy)]
pub struct Claim {
    /// The face whose two edges run straight through the junction.
    pub occluder: u16,
    /// A face adjacent to the occluder along one of those edges.
    pub occluded: u16,
}

/// Per unordered face pair: how many junctions named them, and whether they agreed on
/// which is in front.
#[derive(Debug, Clone, Copy)]
pub struct PairVerdict {
    /// The smaller of the two face ids.
    pub a: u16,
    /// The larger of the two face ids.
    pub b: u16,
    /// `Some(x)` when every junction naming this pair agreed `x` occludes the other; `None`
    /// when they disagreed.
    pub occluder: Option<u16>,
    /// Number of junctions that named `a` as the occluder.
    pub for_a: usize,
    /// Number of junctions that named `b` as the occluder.
    pub for_b: usize,
}

/// The unordered pair a claim concerns, as `(smaller, larger)`.
pub open spec fn pair_of(c: Claim) -> (u16, u16) {
    if c.occluder <= c.occluded {
        (c.occluder, c.occluded)
    } else {
        (c.occluded, c.occluder)
    }
}

/// Among the first `k` claims, how many concern the pair `(a, b)` and name `a` as the
/// occluder (`front_a`), or `b` (`!front_a`).
pub open spec fn votes_for(js: Seq<Claim>, a: u16, b: u16, front_a: bool, k: int) -> nat
    decreases k,
{
    if k <= 0 {
        0
    } else {
        votes_for(js, a, b, front_a, k - 1) + if pair_of(js[k - 1]) == (a, b) && ((
        js[k - 1].occluder == a) == front_a) {
            1nat
        } else {
            0nat
        }
    }
}

/// The order verdicts come in: by `a`, then by `b`.
pub open spec fn key(a: u16, b: u16) -> int {
    a as int * 65536 + b as int
}

/// The verdict for a pair named by `for_a` and `for_b` readings.
pub open spec fn verdict(a: u16, b: u16, for_a: nat, for_b: nat) -> Option<u16> {
    if for_a > 0 && for_b > 0 {
        None
    } else if for_a > 0 {
        Some(a)
    } else {
        Some(b)
    }
}

/// The tally while claims are read: keyed by the pair's key, one entry per pair named so
/// far, holding how many claims name each of its faces in front.
pub open spec fn tally_ok(m: Map<u32, (usize, usize)>, js: Seq<Claim>, k: int) -> bool {
    &&& forall|x: u32| #[trigger] m.contains_key(x) <==> votes_for(js, key_pair(x).0, key_pair(x).1, true, k)
        + votes_for(js, key_pair(x).0, key_pair(x).1, false, k) > 0
    &&& forall|x: u32|
        #[trigger] m.contains_key(x) ==> m[x].0 == votes_for(js, key_pair(x).0, key_pair(x).1, true, k)
            && m[x].1 == votes_for(js, key_pair(x).0, key_pair(x).1, false, k)
}

/// Claims only ever name a pair with the smaller face first.
proof fn lemma_votes_ordered(js: Seq<Claim>, a: u16, b: u16, front_a: bool, k: int)
    requires
        votes_for(js, a, b, front_a, k) > 0,
    ensures
        a <= b,
    decreases k,
{
    if k > 0 && votes_for(js, a, b, front_a, k - 1) > 0 {
        lemma_votes_ordered(js, a, b, front_a, k - 1);
    }
}

proof fn lemma_votes_bound(js: Seq<Claim>, a: u16, b: u16, front_a: bool, k: int)
    requires
        0 <= k,
    ensures
        votes_for(js, a, b, front_a, k) <= k,
    decreases k,
{
    if k > 0 {
        lemma_votes_bound(js, a, b, front_a, k - 1);
    }
}

/// How many of the first `k` claims put face `front` in front of face `back`.
pub open spec fn count_claims(js: Seq<Claim>, front: u16, back: u16, k: int) -> nat
    decreases k,
{
    if k <= 0 {
        0
    } else {
        count_claims(js, front, back, k - 1) + if js[k - 1].occluder == front && js[k - 1].occluded == back {
            1nat
        } else {
            0nat
        }
    }
}

proof fn lemma_count_positive(js: Seq<Claim>, q: int, k: int)
    requires
        0 <= q < k <= js.len(),
    ensures
        count_claims(js, js[q].occluder, js[q].occluded, k) > 0,
    decreases k,
{
    if k - 1 > q {
        lemma_count_positive(js, q, k - 1);
    }
}

/// The tally of a pair counts exactly the claims that name it: for `(a, b)` with `a <= b`,
/// the claims putting `a` in front of `b`, and those putting `b` in front of `a`.
pub proof fn lemma_votes_count_claims(js: Seq<Claim>, a: u16, b: u16, k: int)
    requires
        a <= b,
        0 <= k <= js.len(),
    ensures
        votes_for(js, a, b, true, k) == count_claims(js, a, b, k),
        votes_for(js, a, b, false, k) == if a < b {
            count_claims(js, b, a, k)
        } else {
            0
        },
    decreases k,
{
    if k > 0 {
        lemma_votes_count_claims(js, a, b, k - 1);
    }
}

/// Group T-junction readings by the unordered pair of faces they concern, and report, in
/// order of the pair, how many name each face in front and whether they all agree.
pub fn aggregate(js: &[Claim]) -> (out: Vec<PairVerdict>)
    ensures
        forall|i: int, j: int| 0 <= i < j < out@.len() ==> key(out@[i].a, out@[i].b) < key(out@[j].a, out@[j].b),
        forall|i: int|
            0 <= i < out@.len() ==> {
                let v = #[trigger] out@[i];
                &&& v.a <= v.b
                &&& v.for_a == votes_for(js@, v.a, v.b, true, js@.len() as int)
                &&& v.for_b == votes_for(js@, v.a, v.b, false, js@.len() as int)
                &&& v.for_a + v.for_b > 0
                &&& v.occluder == verdict(v.a, v.b, v.for_a as nat, v.for_b as nat)
            },
        forall|i: int|
            0 <= i < out@.len() ==> {
                let v = #[trigger] out@[i];
                &&& (v.for_a > 0 && v.for_b == 0 ==> v.occluder == Some(v.a))
                &&& (v.for_a == 0 && v.for_b > 0 ==> v.occluder == Some(v.b))
                &&& (v.for_a > 0 && v.for_b > 0 ==> v.occluder is None)
                &&& v.for_a == count_claims(js@, v.a, v.b, js@.len() as int)
                &&& v.for_b == if v.a < v.b {
                    count_claims(js@, v.b, v.a, js@.len() as int)
                } else {
                    0
                }
            },
        forall|a: u16, b: u16|
            #[trigger] votes_for(js@, a, b, true, js@.len() as int) + votes_for(js@, a, b, false, js@.len() as int) > 0
                ==> exists|i: int| 0 <= i < out@.len() && out@[i].a == a && out@[i].b == b,
        forall|q: int|
            0 <= q < js@.len() ==> exists|i: int|
                0 <= i < out@.len() && out@[i].a == (if (#[trigger] js@[q]).occluder <= js@[q].occluded {
                    js@[q].occluder
                } else {
                    js@[q].occluded
                }) && out@[i].b == (if js@[q].occluder <= js@[q].occluded {
                    js@[q].occluded
                } else {
                    js@[q].occluder
                }),
{
    broadcast use vstd::std_specs::hash::group_hash_axioms;

    let mut tally: HashMap<u32, (usize, usize)> = HashMap::new();
    let mut k: usize = 0;
    while k < js.len()
        invariant
            k <= js@.len(),
            tally_ok(tally@, js@, k as int),
        decreases js@.len() - k,
    {
        let c = js[k];
        let (a, b) = if c.occluder <= c.occluded {
            (c.occluder, c.occluded)
        } else {
            (c.occluded, c.occluder)
        };
        proof {
            lemma_key_pair(a, b);
            lemma_votes_bound(js@, a, b, true, k as int);
            lemma_votes_bound(js@, a, b, false, k as int);
        }
        let key: u32 = a as u32 * 65536 + b as u32;
        let (for_a, for_b) = match tally.get(&key) {
            Some(e) => *e,
            None => (0, 0),
        };
        let ghost m0 = tally@;
        if c.occluder == a {
            tally.insert(key, (for_a + 1, for_b));
        } else {
            tally.insert(key, (for_a, for_b + 1));
        }
        proof {
            let k1 = k + 1;
            assert forall|x: u32| #[trigger] tally@.contains_key(x) == (votes_for(js@, key_pair(x).0, key_pair(x).1, true, k1)
                + votes_for(js@, key_pair(x).0, key_pair(x).1, false, k1) > 0) && (tally@.contains_key(x)
                ==> tally@[x].0 == votes_for(js@, key_pair(x).0, key_pair(x).1, true, k1) && tally@[x].1
                == votes_for(js@, key_pair(x).0, key_pair(x).1, false, k1)) by {
                if x != key {
                    assert(key_pair(x) != (a, b));
                }
            }
        }
        k += 1;
    }
    let keys = sorted_keys(&tally);
    proof {
        assert forall|j: int| 0 <= j < keys@.len() implies tally@.contains_key(#[trigger] keys@[j]) by {
            assert(keys@.contains(keys@[j]));
        }
    }
    let mut out: Vec<PairVerdict> = Vec::new();
    let mut i: usize = 0;
    while i < keys.len()
        invariant
            i <= keys@.len(),
            tally_ok(tally@, js@, js@.len() as int),
            forall|j: int| 0 <= j < keys@.len() ==> tally@.contains_key(#[trigger] keys@[j]),
            out@.len() == i,
            forall|j: int|
                0 <= j < i ==> {
                    let v = #[trigger] out@[j];
                    &&& (v.a, v.b) == key_pair(keys@[j])
                    &&& v.for_a == tally@[keys@[j]].0
                    &&& v.for_b == tally@[keys@[j]].1
                    &&& v.occluder == verdict(v.a, v.b, v.for_a as nat, v.for_b as nat)
                },
        decreases keys@.len() - i,
    {
        let x = keys[i];
        let (fa, fb) = match tally.get(&x) {
            Some(e) => *e,
            None => (0, 0),
        };
        let (a, b) = ((x / 65536) as u16, (x % 65536) as u16);
        let occluder = if fa > 0 && fb > 0 {
            None
        } else if fa > 0 {
            Some(a)
        } else {
            Some(b)
        };
        out.push(PairVerdict { a, b, occluder, for_a: fa, for_b: fb });
        i += 1;
    }
    proof {
        let n = js@.len() as int;
        assert forall|j: int| 0 <= j < out@.len() implies key((#[trigger] out@[j]).a, out@[j].b) == keys@[j]
            && out@[j].a <= out@[j].b by {
            lemma_pair_of_key(keys@[j]);
            let (a, b) = key_pair(keys@[j]);
            if votes_for(js@, a, b, true, n) > 0 {
                lemma_votes_ordered(js@, a, b, true, n);
            } else {
                lemma_votes_ordered(js@, a, b, false, n);
            }
        }
        assert forall|j: int| 0 <= j < out@.len() implies {
            let v = #[trigger] out@[j];
            &&& v.for_a == count_claims(js@, v.a, v.b, n)
            &&& v.for_b == if v.a < v.b {
                count_claims(js@, v.b, v.a, n)
            } else {
                0
            }
        } by {
            lemma_pair_of_key(keys@[j]);
            let (a, b) = key_pair(keys@[j]);
            if votes_for(js@, a, b, true, n) > 0 {
                lemma_votes_ordered(js@, a, b, true, n);
            } else {
                lemma_votes_ordered(js@, a, b, false, n);
            }
            lemma_votes_count_claims(js@, out@[j].a, out@[j].b, n);
        }
        assert forall|q: int| 0 <= q < n implies votes_for(
            js@,
            pair_of(#[trigger] js@[q]).0,
            pair_of(js@[q]).1,
            true,
            n,
        ) + votes_for(js@, pair_of(js@[q]).0, pair_of(js@[q]).1, false, n) > 0 by {
            lemma_count_positive(js@, q, n);
            lemma_votes_count_claims(js@, pair_of(js@[q]).0, pair_of(js@[q]).1, n);
        }
        assert forall|a: u16, b: u16| #[trigger] votes_for(js@, a, b, true, n) + votes_for(js@, a, b, false, n)
            > 0 implies exists|i: int| 0 <= i < out@.len() && out@[i].a == a && out@[i].b == b by {
            lemma_key_pair(a, b);
            let x = pair_key((a, b)) as u32;
            assert(tally@.contains_key(x));
            assert(keys@.contains(x));
            let j = choose|j: int| 0 <= j < keys@.len() && keys@[j] == x;
            assert(out@[j].a == a && out@[j].b == b);
        }
    }
    out
}

} // verus!
