//! Pairs of labels kept as one integer key: the first label in the high half, the second
//! in the low half, so that keys order pairs by the first label, then the second.
use std::collections::HashMap;
use vstd::std_specs::iter::IteratorSpec;
use vstd::prelude::*;

verus! {

/// The order pairs are kept in: by the first label, then the second.
pub open spec fn pair_key(k: (u16, u16)) -> int {
    k.0 as int * 65536 + k.1 as int
}

/// The pair of labels that the key `k` stands for: the first label in the high half, the
/// second in the low half.
pub open spec fn key_pair(k: u32) -> (u16, u16) {
    ((k / 65536) as u16, (k % 65536) as u16)
}

/// The key of a pair stands for that pair, and no other key does.
pub proof fn lemma_key_pair(a: u16, b: u16)
    ensures
        0 <= pair_key((a, b)) <= u32::MAX,
        key_pair(pair_key((a, b)) as u32) == (a, b),
        forall|k: u32| #[trigger] key_pair(k) == (a, b) ==> k == pair_key((a, b)),
{
    let k = pair_key((a, b));
    assert(k / 65536 == a && k % 65536 == b);
    assert forall|k2: u32| #[trigger] key_pair(k2) == (a, b) implies k2 == k by {
        assert(k2 as int == (k2 as int / 65536) * 65536 + k2 as int % 65536);
        assert(k2 as int / 65536 < 65536);
    }
}

/// Every key is the key of the pair it stands for.
pub proof fn lemma_pair_of_key(k: u32)
    ensures
        pair_key(key_pair(k)) == k,
{
    assert(k as int == (k as int / 65536) * 65536 + k as int % 65536);
    assert(k as int / 65536 < 65536);
}

/// Whether `s` is strictly increasing.
pub open spec fn increasing(s: Seq<u32>) -> bool {
    forall|i: int, j: int| 0 <= i < j < s.len() ==> s[i] < s[j]
}

/// Put `k`, which `v` does not hold, in its place in the increasing `v`.
fn insert_in_order(v: &mut Vec<u32>, k: u32)
    requires
        increasing(old(v)@),
        !old(v)@.contains(k),
    ensures
        increasing(final(v)@),
        final(v)@.len() == old(v)@.len() + 1,
        forall|x: u32| #[trigger] final(v)@.contains(x) <==> old(v)@.contains(x) || x == k,
{
    let ghost v0 = v@;
    let mut i: usize = 0;
    while i < v.len() && v[i] < k
        invariant
            v@ == v0,
            i <= v0.len(),
            forall|j: int| 0 <= j < i ==> v0[j] < k,
        decreases v0.len() - i,
    {
        i += 1;
    }
    proof {
        if i < v0.len() {
            assert(v0[i as int] != k);
        }
    }
    v.insert(i, k);
    proof {
        assert(v@ == v0.insert(i as int, k));
        assert forall|a: int, b: int| 0 <= a < b < v@.len() implies v@[a] < v@[b] by {
            if b < i {
            } else if b == i {
            } else if a == i {
                assert(v0[i as int] > k);
                if b - 1 > i {
                    assert(v0[i as int] < v0[b - 1]);
                }
            } else if a < i {
                assert(v0[a] < k && v0[i as int] > k);
            } else {
            }
        }
        assert forall|x: u32| #[trigger] v@.contains(x) <==> v0.contains(x) || x == k by {
            if v@.contains(x) {
                let j = choose|j: int| 0 <= j < v@.len() && v@[j] == x;
                if j < i {
                    assert(v0[j] == x);
                } else if j > i {
                    assert(v0[j - 1] == x);
                }
            }
            if v0.contains(x) {
                let j = choose|j: int| 0 <= j < v0.len() && v0[j] == x;
                if j < i {
                    assert(v@[j] == x);
                } else {
                    assert(v@[j + 1] == x);
                }
            }
            if x == k {
                assert(v@[i as int] == x);
            }
        }
    }
}


/// The keys of `m`, in increasing order.
pub(crate) fn sorted_keys<V>(m: &HashMap<u32, V>) -> (keys: Vec<u32>)
    ensures
        increasing(keys@),
        forall|k: u32| #[trigger] keys@.contains(k) <==> m@.contains_key(k),
{
    broadcast use vstd::std_specs::hash::group_hash_axioms;

    let ghost kseq = vstd::std_specs::hash::spec_keys_iter(m).remaining();
    let mut keys: Vec<u32> = Vec::new();
    for k in it: m.keys()
        invariant
            it.seq() == kseq,
            kseq.no_duplicates(),
            it.index() <= kseq.len(),
            increasing(keys@),
            forall|x: u32| #[trigger] keys@.contains(x) <==> it.seq().unref().take(it.index() as int).contains(x),
    {
        let ghost before = it.seq().unref().take(it.index() as int);
        let ghost after = it.seq().unref().take(it.index() + 1);
        proof {
            assert(after =~= before.push(*k));
            assert(!before.contains(*k)) by {
                if before.contains(*k) {
                    let j = choose|j: int| 0 <= j < before.len() && before[j] == *k;
                    assert(kseq[j] == kseq[it.index() as int]);
                }
            }
        }
        insert_in_order(&mut keys, *k);
        proof {
            assert forall|x: u32| #[trigger] keys@.contains(x) <==> after.contains(x) by {
                if x == *k {
                    assert(after[after.len() - 1] == x);
                }
                if after.contains(x) && x != *k {
                    let j = choose|j: int| 0 <= j < after.len() && after[j] == x;
                    assert(before[j] == x);
                }
            }
        }
    }
    proof {
        assert(kseq.unref().take(kseq.len() as int) =~= kseq.unref());
        assert forall|k: u32| #[trigger] keys@.contains(k) <==> m@.contains_key(k) by {
            assert(kseq.unref().to_set().contains(k) == m@.contains_key(k));
        }
    }
    keys
}

} // verus!
