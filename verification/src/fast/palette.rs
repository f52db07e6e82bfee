//! Fast mode's colour bins: which bins are neighbours, and how many pixels each holds.
//!
//! Every pixel is binned by its colour (and, for an image traced with its transparency,
//! its opacity), each channel quantised to a few bits, and the bin's key packs the
//! channels most significant first: red, green, blue, then opacity. Two bins touch when no
//! channel differs by more than one step, which is how noise spreads one ink over
//! neighbouring bins.
//!
//! A bin counts as evidence for an ink only through its flat pixels, those whose four
//! neighbours fall in the same bin: an anti-aliased rim is one pixel wide and has almost
//! none. Bins with enough flat pixels are taken most flat pixels first.
use vstd::prelude::*;

use crate::ink_ideas::{interior, is_interior};

verus! {

/// How pixels are binned: bits per colour channel and for opacity.
#[derive(Clone, Copy)]
pub struct Grid {
    /// Bits per colour channel.
    pub bits: u32,
    /// Bits for opacity; zero when opacity is not binned.
    pub alpha_bits: u32,
}

impl Grid {
    /// Channel widths a key can hold: every shift stays inside a machine word.
    pub open spec fn fits(self) -> bool {
        1 <= self.bits <= 10 && self.alpha_bits <= 10
    }

    /// The channels packed in key `k`: red, green, blue, opacity.
    pub open spec fn channels(self, k: usize) -> Seq<int> {
        let b = self.bits;
        let ab = self.alpha_bits;
        let m = ((1usize << b) - 1) as usize;
        let c = k >> ab;
        seq![
            ((c >> (2 * b) as usize) & m) as int,
            ((c >> b) & m) as int,
            (c & m) as int,
            (k & (((1usize << ab) - 1) as usize)) as int,
        ]
    }

    /// The key of a bin with channels `q0`, `q1`, `q2` (red, green, blue, each `bits` wide)
    /// and opacity `qa` (`alpha_bits` wide): the channels packed most significant first.
    pub open spec fn pack(self, q0: usize, q1: usize, q2: usize, qa: usize) -> usize {
        let b = self.bits as usize;
        let ab = self.alpha_bits as usize;
        ((((q0 << (2 * b) as usize) | (q1 << b)) | q2) << ab) | qa
    }

    /// Reading a key's channels undoes packing them, for keys that fit in 32 bits.
    pub proof fn lemma_parts_undo_packing(self, q0: usize, q1: usize, q2: usize, qa: usize)
        requires
            1 <= self.bits,
            3 * self.bits + self.alpha_bits <= 32,
            q0 < (1usize << self.bits as usize),
            q1 < (1usize << self.bits as usize),
            q2 < (1usize << self.bits as usize),
            qa < (1usize << self.alpha_bits as usize),
        ensures
            self.channels(self.pack(q0, q1, q2, qa)) == seq![q0 as int, q1 as int, q2 as int, qa as int],
    {
        let b = self.bits as usize;
        let ab = self.alpha_bits as usize;
        let k = self.pack(q0, q1, q2, qa);
        let m = ((1usize << b) - 1) as usize;
        let c = k >> ab;
        assert(c == ((q0 << (2 * b) as usize) | (q1 << b)) | q2 && k & (((1usize << ab) - 1) as usize) == qa)
            by (bit_vector)
            requires
                1 <= b,
                3 * b + ab <= 32,
                q0 < (1usize << b),
                q1 < (1usize << b),
                q2 < (1usize << b),
                qa < (1usize << ab),
                k == ((((q0 << (2 * b) as usize) | (q1 << b)) | q2) << ab) | qa,
                c == k >> ab,
        ;
        assert((c >> (2 * b) as usize) & m == q0 && (c >> b) & m == q1 && c & m == q2) by (bit_vector)
            requires
                1 <= b,
                3 * b <= 32,
                q0 < (1usize << b),
                q1 < (1usize << b),
                q2 < (1usize << b),
                m == ((1usize << b) - 1) as usize,
                c == ((q0 << (2 * b) as usize) | (q1 << b)) | q2,
        ;
        assert(self.channels(k) =~= seq![q0 as int, q1 as int, q2 as int, qa as int]);
    }

    /// The channels of bin `k`.
    pub fn parts(self, k: usize) -> (res: [isize; 4])
        requires
            self.fits(),
        ensures
            forall|i: int| 0 <= i < 4 ==> res@[i] as int == #[trigger] self.channels(k)[i],
            forall|i: int| 0 <= i < 4 ==> 0 <= #[trigger] res@[i] <= 0xffff,
    {
        let b = self.bits;
        let ab = self.alpha_bits;
        proof {
            assert(1usize << b >= 1) by (bit_vector)
                requires
                    1 <= b <= 16,
            ;
            assert(1usize << ab >= 1) by (bit_vector)
                requires
                    ab <= 16,
            ;
        }
        let m = (1usize << b) - 1;
        let a = k & ((1usize << ab) - 1);
        let c = k >> ab;
        proof {
            assert(m <= 0xffff) by (bit_vector)
                requires
                    1 <= b <= 16,
                    m == ((1usize << b) - 1) as usize,
            ;
            assert(a <= 0xffff) by (bit_vector)
                requires
                    ab <= 16,
                    a == k & (((1usize << ab) - 1) as usize),
            ;
            let x = c >> (2 * b) as usize;
            assert(x & m <= m) by (bit_vector);
            assert((c >> b) & m <= m) by (bit_vector);
            assert(c & m <= m) by (bit_vector);
        }
        let res = [((c >> (2 * b)) & m) as isize, ((c >> b) & m) as isize, (c & m) as isize, a as isize];
        proof {
            assert(self.channels(k)[0] == ((c >> (2 * b) as usize) & m) as int);
        }
        res
    }

    /// Two bins are neighbours when no channel differs by more than one step.
    pub fn touch(self, a: usize, b: usize) -> (res: bool)
        requires
            self.fits(),
        ensures
            res == forall|i: int|
                0 <= i < 4 ==> -1 <= #[trigger] self.channels(a)[i] - self.channels(b)[i] <= 1,
    {
        let p = self.parts(a);
        let q = self.parts(b);
        let mut i: usize = 0;
        while i < 4
            invariant
                i <= 4,
                forall|j: int| 0 <= j < 4 ==> p@[j] as int == #[trigger] self.channels(a)[j],
                forall|j: int| 0 <= j < 4 ==> q@[j] as int == #[trigger] self.channels(b)[j],
                forall|j: int| 0 <= j < 4 ==> 0 <= #[trigger] p@[j] <= 0xffff,
                forall|j: int| 0 <= j < 4 ==> 0 <= #[trigger] q@[j] <= 0xffff,
                forall|j: int|
                    0 <= j < i ==> -1 <= #[trigger] self.channels(a)[j] - self.channels(b)[j] <= 1,
            decreases 4 - i,
        {
            let d = p[i] - q[i];
            if d < -1 || d > 1 {
                proof {
                    assert(self.channels(a)[i as int] - self.channels(b)[i as int] == d);
                }
                return false;
            }
            i += 1;
        }
        true
    }
}


/// How many bins a 16-bit key addresses.
pub const BINS: usize = 65536;

/// Pixels below index `upto` in bin `k`, all of them (`flat_only` false) or only the flat
/// ones: those whose 4-neighbours in the raster all fall in the same bin. A flat pixel is
/// evidence for an ink; an anti-aliased rim, one pixel wide, has almost none.
pub open spec fn in_bin(keys: Seq<u16>, w: int, h: int, k: int, flat_only: bool, upto: int) -> nat
    decreases upto,
{
    if upto <= 0 {
        0
    } else {
        in_bin(keys, w, h, k, flat_only, upto - 1) + if keys[upto - 1] == k && (!flat_only || is_interior(
            keys,
            w,
            h,
            upto - 1,
        )) {
            1nat
        } else {
            0nat
        }
    }
}

proof fn lemma_in_bin_bound(keys: Seq<u16>, w: int, h: int, k: int, flat_only: bool, upto: int)
    requires
        0 <= upto,
    ensures
        in_bin(keys, w, h, k, flat_only, upto) <= upto,
    decreases upto,
{
    if upto > 0 {
        lemma_in_bin_bound(keys, w, h, k, flat_only, upto - 1);
    }
}

/// Per bin, how many pixels fall in it, and how many of those are flat (see [`in_bin`]).
pub fn bin_counts(keys: &[u16], w: usize, h: usize) -> (res: (Vec<u32>, Vec<u32>))
    requires
        w * h <= keys@.len(),
        w * h <= u32::MAX,
    ensures
        res.0@.len() == BINS,
        res.1@.len() == BINS,
        forall|k: int|
            0 <= k < BINS ==> #[trigger] res.0@[k] == in_bin(keys@, w as int, h as int, k, false, w * h)
                && res.1@[k] == in_bin(keys@, w as int, h as int, k, true, w * h),
{
    let ghost (ks, wi, hi) = (keys@, w as int, h as int);
    let n = w * h;
    let mut count: Vec<u32> = Vec::new();
    let mut flat: Vec<u32> = Vec::new();
    let mut k: usize = 0;
    while k < BINS
        invariant
            k <= BINS,
            count@.len() == k,
            flat@.len() == k,
            forall|j: int| 0 <= j < k ==> #[trigger] count@[j] == 0,
            forall|j: int| 0 <= j < k ==> #[trigger] flat@[j] == 0,
        decreases BINS - k,
    {
        count.push(0);
        flat.push(0);
        k += 1;
    }
    proof {
        assert forall|j: int| 0 <= j < BINS implies #[trigger] count@[j] == in_bin(ks, wi, hi, j, false, 0)
            && flat@[j] == in_bin(ks, wi, hi, j, true, 0) by {
            assert(count@[j] == 0 && flat@[j] == 0);
            assert(in_bin(ks, wi, hi, j, false, 0) == 0);
            assert(in_bin(ks, wi, hi, j, true, 0) == 0);
        }
    }
    let mut p: usize = 0;
    while p < n
        invariant
            ks == keys@,
            wi == w,
            hi == h,
            n == w * h,
            n <= ks.len(),
            n <= u32::MAX,
            p <= n,
            count@.len() == BINS,
            flat@.len() == BINS,
            forall|j: int|
                0 <= j < BINS ==> #[trigger] count@[j] == in_bin(ks, wi, hi, j, false, p as int) && flat@[j]
                    == in_bin(ks, wi, hi, j, true, p as int),
        decreases n - p,
    {
        let kp = keys[p] as usize;
        proof {
            lemma_in_bin_bound(ks, wi, hi, kp as int, false, p as int);
            lemma_in_bin_bound(ks, wi, hi, kp as int, true, p as int);
        }
        let ghost (c0, f0) = (count@, flat@);
        let c = count[kp];
        count.set(kp, c + 1);
        let inside = interior(keys, w, h, p);
        if inside {
            let f = flat[kp];
            flat.set(kp, f + 1);
        }
        proof {
            assert forall|j: int| 0 <= j < BINS implies #[trigger] count@[j] == in_bin(ks, wi, hi, j, false, p + 1)
                && flat@[j] == in_bin(ks, wi, hi, j, true, p + 1) by {
                assert(c0[j] == in_bin(ks, wi, hi, j, false, p as int));
                assert(f0[j] == in_bin(ks, wi, hi, j, true, p as int));
            }
        }
        p += 1;
    }
    (count, flat)
}


/// Bin `a` is taken before bin `b`: it has more flat pixels, or as many and a smaller key.
pub open spec fn bin_before(flat: Seq<u32>, a: usize, b: usize) -> bool {
    flat[a as int] > flat[b as int] || (flat[a as int] == flat[b as int] && a < b)
}

/// The bins that can found an ink, those with at least `min_flat` flat pixels, in the
/// order they are taken: most flat pixels first, the smaller key first on a tie.
pub fn candidate_bins(flat: &[u32], min_flat: u32) -> (c: Vec<usize>)
    ensures
        forall|i: int, j: int| 0 <= i < j < c@.len() ==> bin_before(flat@, #[trigger] c@[i], #[trigger] c@[j]),
        forall|i: int| 0 <= i < c@.len() ==> (#[trigger] c@[i] as int) < flat@.len(),
        forall|k: int| 0 <= k < flat@.len() ==> (c@.contains(k as usize) <==> #[trigger] flat@[k] >= min_flat),
{
    let mut out: Vec<usize> = Vec::new();
    let mut k: usize = 0;
    while k < flat.len()
        invariant
            k <= flat@.len(),
            forall|i: int, j: int| 0 <= i < j < out@.len() ==> bin_before(flat@, #[trigger] out@[i], #[trigger] out@[j]),
            forall|i: int| 0 <= i < out@.len() ==> (#[trigger] out@[i] as int) < k,
            forall|q: int| 0 <= q < k ==> (out@.contains(q as usize) <==> #[trigger] flat@[q] >= min_flat),
        decreases flat@.len() - k,
    {
        let fk = flat[k];
        if fk >= min_flat {
            let mut j = out.len();
            while j > 0 && flat[out[j - 1]] < fk
                invariant
                    j <= out@.len(),
                    k < flat@.len(),
                    fk == flat@[k as int],
                    forall|i: int| 0 <= i < out@.len() ==> (#[trigger] out@[i] as int) < k,
                    forall|q: int| j <= q < out@.len() ==> flat@[#[trigger] out@[q] as int] < fk,
                decreases j,
            {
                j -= 1;
            }
            let ghost before = out@;
            out.insert(j, k);
            proof {
                assert(out@ == before.insert(j as int, k));
                assert forall|a: int, b: int| 0 <= a < b < out@.len() implies bin_before(
                    flat@,
                    #[trigger] out@[a],
                    #[trigger] out@[b],
                ) by {
                    if a < j && b > j {
                        assert(bin_before(flat@, before[a], before[b - 1]) || a == b - 1);
                        assert(bin_before(flat@, before[a], before[j - 1]) || a == j - 1);
                        assert(flat@[before[j - 1] as int] >= fk);
                    } else if a < j && b == j {
                        assert(bin_before(flat@, before[a], before[j - 1]) || a == j - 1);
                        assert(flat@[before[j - 1] as int] >= fk);
                    } else if a == j && b > j {
                        assert(flat@[before[b - 1] as int] < fk);
                    } else if a > j {
                        assert(bin_before(flat@, before[a - 1], before[b - 1]));
                    }
                }
                assert forall|q: int| 0 <= q < k + 1 implies (out@.contains(q as usize) <==> #[trigger] flat@[q]
                    >= min_flat) by {
                    if q < k {
                        if out@.contains(q as usize) {
                            let i = choose|i: int| 0 <= i < out@.len() && out@[i] == q as usize;
                            if i < j {
                                assert(before[i] == q);
                            } else if i > j {
                                assert(before[i - 1] == q);
                            }
                        }
                        if before.contains(q as usize) {
                            let i = choose|i: int| 0 <= i < before.len() && before[i] == q as usize;
                            if i < j {
                                assert(out@[i] == q);
                            } else {
                                assert(out@[i + 1] == q);
                            }
                        }
                    } else {
                        assert(out@[j as int] == k);
                    }
                }
            }
        } else {
            proof {
                assert(!out@.contains(k));
            }
        }
        k += 1;
    }
    out
}

} // verus!
