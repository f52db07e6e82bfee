//! Saddle corners: four pixels meeting at one corner whose two diagonals are two inks.
//!
//! At such a corner the label map cannot say which diagonal is connected: the faces of one
//! diagonal touch there, or those of the other do. The image can say, by where the corner
//! sits between the two inks; that reading is made elsewhere. Here: which corners are such
//! saddles, and the joining of the faces the image says are one shape, each face taking
//! the smallest id of those joined with it.
use vstd::prelude::*;

use crate::fast::faces::find;
use crate::forest::{forest_ok, ids32, lemma_identity_forest, lemma_link, lemma_root, root};

verus! {

/// A saddle corner: the corner above and to the left of pixel `(i, j)`, the faces of the
/// four pixels around it, and the inks of its two diagonals.
#[derive(Debug, Clone, Copy, PartialEq, Eq, Structural)]
pub struct SaddleCorner {
    pub i: usize,
    pub j: usize,
    pub nw: u16,
    pub ne: u16,
    pub sw: u16,
    pub se: u16,
    /// The ink of `nw` and `se`.
    pub ink_a: usize,
    /// The ink of `ne` and `sw`.
    pub ink_c: usize,
}

/// The four faces around the corner above and to the left of pixel `(i, j)`: north-west,
/// north-east, south-west, south-east.
pub open spec fn around(labels: Seq<u16>, w: int, i: int, j: int) -> (u16, u16, u16, u16) {
    (labels[(j - 1) * w + i - 1], labels[(j - 1) * w + i], labels[j * w + i - 1], labels[j * w + i])
}

/// The corner at `(i, j)` is a saddle: no two side-by-side or stacked pixels share a face,
/// every face has an ink, each diagonal is one ink, and the two diagonals' inks differ.
pub open spec fn is_saddle(labels: Seq<u16>, w: int, face_color: Seq<usize>, i: int, j: int) -> bool {
    let (nw, ne, sw, se) = around(labels, w, i, j);
    &&& nw != ne && nw != sw && ne != se && sw != se
    &&& (nw as int) < face_color.len() && (ne as int) < face_color.len()
    &&& (sw as int) < face_color.len() && (se as int) < face_color.len()
    &&& face_color[nw as int] == face_color[se as int]
    &&& face_color[ne as int] == face_color[sw as int]
    &&& face_color[nw as int] != face_color[ne as int]
}

/// `c` describes the saddle at its own corner, an interior corner of a `w x h` raster.
pub open spec fn corner_ok(labels: Seq<u16>, w: int, h: int, face_color: Seq<usize>, c: SaddleCorner) -> bool {
    &&& 1 <= c.i < w
    &&& 1 <= c.j < h
    &&& is_saddle(labels, w, face_color, c.i as int, c.j as int)
    &&& around(labels, w, c.i as int, c.j as int) == (c.nw, c.ne, c.sw, c.se)
    &&& c.ink_a == face_color[c.nw as int]
    &&& c.ink_c == face_color[c.ne as int]
}

/// Corner `(i1, j1)` comes before `(i2, j2)` in scan order.
pub open spec fn scan_before(i1: int, j1: int, i2: int, j2: int) -> bool {
    j1 < j2 || (j1 == j2 && i1 < i2)
}

proof fn lemma_around(w: int, h: int, i: int, j: int)
    requires
        1 <= i < w,
        1 <= j < h,
    ensures
        0 <= (j - 1) * w + i - 1,
        (j - 1) * w + i < w * h,
        0 <= j * w + i - 1,
        j * w + i < w * h,
        (j - 1) * w + i == j * w + i - w,
{
    assert((j - 1) * w == j * w - w) by (nonlinear_arith);
    assert(0 <= (j - 1) * w) by (nonlinear_arith)
        requires
            j >= 1,
            w >= 1,
    ;
    crate::grid::lemma_index(w, h, i, j);
}

/// The saddle corners of a `w x h` label map, in scan order.
pub fn saddle_corners(labels: &[u16], w: usize, h: usize, face_color: &[usize]) -> (out: Vec<SaddleCorner>)
    requires
        w * h <= labels@.len(),
        w * h <= usize::MAX,
    ensures
        forall|k: int| 0 <= k < out@.len() ==> corner_ok(labels@, w as int, h as int, face_color@, #[trigger] out@[k]),
        forall|k: int|
            0 <= k < out@.len() ==> {
                let c = #[trigger] out@[k];
                &&& 1 <= c.i < w && 1 <= c.j < h
                &&& c.nw == labels@[(c.j - 1) * w + c.i - 1] && c.ne == labels@[(c.j - 1) * w + c.i]
                &&& c.sw == labels@[c.j * w + c.i - 1] && c.se == labels@[c.j * w + c.i]
                &&& c.nw != c.ne && c.nw != c.sw && c.ne != c.se && c.sw != c.se
                &&& (c.nw as int) < face_color@.len() && (c.ne as int) < face_color@.len()
                &&& (c.sw as int) < face_color@.len() && (c.se as int) < face_color@.len()
                &&& face_color@[c.nw as int] == c.ink_a && face_color@[c.se as int] == c.ink_a
                &&& face_color@[c.ne as int] == c.ink_c && face_color@[c.sw as int] == c.ink_c
                &&& c.ink_a != c.ink_c
            },
        forall|k1: int, k2: int|
            0 <= k1 < k2 < out@.len() ==> scan_before(
                (#[trigger] out@[k1]).i as int,
                out@[k1].j as int,
                (#[trigger] out@[k2]).i as int,
                out@[k2].j as int,
            ),
        forall|i: int, j: int|
            1 <= i < w && 1 <= j < h && is_saddle(labels@, w as int, face_color@, i, j) ==> exists|k: int|
                0 <= k < out@.len() && (#[trigger] out@[k]).i == i && out@[k].j == j,
        forall|i: int, j: int|
            #![trigger around(labels@, w as int, i, j)]
            1 <= i < w && 1 <= j < h && ({
                let (nw, ne, sw, se) = around(labels@, w as int, i, j);
                &&& nw != ne && nw != sw && ne != se && sw != se
                &&& (nw as int) < face_color@.len() && (ne as int) < face_color@.len()
                &&& (sw as int) < face_color@.len() && (se as int) < face_color@.len()
                &&& face_color@[nw as int] == face_color@[se as int]
                &&& face_color@[ne as int] == face_color@[sw as int]
                &&& face_color@[nw as int] != face_color@[ne as int]
            }) ==> exists|k: int| 0 <= k < out@.len() && (#[trigger] out@[k]).i == i && out@[k].j == j,
{
    let ghost lab = labels@;
    let ghost fc = face_color@;
    let mut out: Vec<SaddleCorner> = Vec::new();
    let mut j: usize = 1;
    while j < h
        invariant
            w * h <= lab.len(),
            w * h <= usize::MAX,
            lab == labels@,
            fc == face_color@,
            1 <= j,
            j <= h || h == 0,
            forall|k: int| 0 <= k < out@.len() ==> corner_ok(lab, w as int, h as int, fc, #[trigger] out@[k]),
            forall|k1: int, k2: int|
                0 <= k1 < k2 < out@.len() ==> scan_before(
                    (#[trigger] out@[k1]).i as int,
                    out@[k1].j as int,
                    (#[trigger] out@[k2]).i as int,
                    out@[k2].j as int,
                ),
            forall|k: int| 0 <= k < out@.len() ==> (#[trigger] out@[k]).j < j,
            forall|i: int, jj: int|
                1 <= i < w && 1 <= jj < j && is_saddle(lab, w as int, fc, i, jj) ==> exists|k: int|
                    0 <= k < out@.len() && (#[trigger] out@[k]).i == i && out@[k].j == jj,
        decreases h - j,
    {
        let mut i: usize = 1;
        while i < w
            invariant
                w * h <= lab.len(),
                w * h <= usize::MAX,
                lab == labels@,
                fc == face_color@,
                1 <= j < h,
                1 <= i,
                i <= w || w == 0,
                forall|k: int| 0 <= k < out@.len() ==> corner_ok(lab, w as int, h as int, fc, #[trigger] out@[k]),
                forall|k1: int, k2: int|
                    0 <= k1 < k2 < out@.len() ==> scan_before(
                        (#[trigger] out@[k1]).i as int,
                        out@[k1].j as int,
                        (#[trigger] out@[k2]).i as int,
                        out@[k2].j as int,
                    ),
                forall|k: int| 0 <= k < out@.len() ==> scan_before((#[trigger] out@[k]).i as int, out@[k].j as int, i as int, j as int),
                forall|ii: int, jj: int|
                    1 <= ii < w && 1 <= jj < h && scan_before(ii, jj, i as int, j as int) && is_saddle(
                        lab,
                        w as int,
                        fc,
                        ii,
                        jj,
                    ) ==> exists|k: int| 0 <= k < out@.len() && (#[trigger] out@[k]).i == ii && out@[k].j == jj,
            decreases w - i,
        {
            proof {
                lemma_around(w as int, h as int, i as int, j as int);
            }
            let ghost before = out@;
            let nw = labels[(j - 1) * w + i - 1];
            let ne = labels[(j - 1) * w + i];
            let sw = labels[j * w + i - 1];
            let se = labels[j * w + i];
            let mut found = false;
            if !(nw == ne || nw == sw || ne == se || sw == se) {
                if (nw as usize) < face_color.len() && (se as usize) < face_color.len() && (ne as usize)
                    < face_color.len() && (sw as usize) < face_color.len() {
                    let a = face_color[nw as usize];
                    let b = face_color[se as usize];
                    let c = face_color[ne as usize];
                    let d = face_color[sw as usize];
                    if !(a != b || c != d || a == c) {
                        let corner = SaddleCorner { i, j, nw, ne, sw, se, ink_a: a, ink_c: c };
                        out.push(corner);
                        found = true;
                        proof {
                            let k = out@.len() - 1;
                            assert(out@[k] == corner);
                        }
                    }
                }
            }
            proof {
                assert(found == is_saddle(lab, w as int, fc, i as int, j as int));
                assert forall|ii: int, jj: int|
                    1 <= ii < w && 1 <= jj < h && scan_before(ii, jj, i + 1, j as int) && is_saddle(
                        lab,
                        w as int,
                        fc,
                        ii,
                        jj,
                    ) implies exists|k: int| 0 <= k < out@.len() && (#[trigger] out@[k]).i == ii && out@[k].j == jj by {
                    if ii == i && jj == j {
                        assert(out@[out@.len() - 1].i == ii);
                    } else {
                        assert(scan_before(ii, jj, i as int, j as int));
                        let k = choose|k: int| 0 <= k < before.len() && (#[trigger] before[k]).i == ii && before[k].j == jj;
                        assert(out@[k] == before[k]);
                    }
                }
            }
            i += 1;
        }
        proof {
            assert forall|k: int| 0 <= k < out@.len() implies (#[trigger] out@[k]).j < j + 1 by {
                assert(scan_before(out@[k].i as int, out@[k].j as int, i as int, j as int));
            }
            assert forall|ii: int, jj: int|
                1 <= ii < w && 1 <= jj < j + 1 && is_saddle(lab, w as int, fc, ii, jj) implies exists|k: int|
                0 <= k < out@.len() && (#[trigger] out@[k]).i == ii && out@[k].j == jj by {
                assert(scan_before(ii, jj, i as int, j as int));
            }
        }
        j += 1;
    }
    proof {
        assert forall|i: int, j: int|
            #![trigger around(lab, w as int, i, j)]
            1 <= i < w && 1 <= j < h && ({
                let (nw, ne, sw, se) = around(lab, w as int, i, j);
                &&& nw != ne && nw != sw && ne != se && sw != se
                &&& (nw as int) < fc.len() && (ne as int) < fc.len()
                &&& (sw as int) < fc.len() && (se as int) < fc.len()
                &&& fc[nw as int] == fc[se as int]
                &&& fc[ne as int] == fc[sw as int]
                &&& fc[nw as int] != fc[ne as int]
            }) implies exists|k: int| 0 <= k < out@.len() && (#[trigger] out@[k]).i == i && out@[k].j == j by {
            assert(is_saddle(lab, w as int, fc, i, j));
        }
    }
    out
}

/// Each face's representative once the first `k` joins are made: joining two faces of
/// different representatives gives all of the larger one's faces the smaller one.
pub open spec fn rep_after(n: int, joins: Seq<(u16, u16)>, k: int) -> Seq<int>
    decreases k,
{
    if k <= 0 {
        Seq::new(n as nat, |z: int| z)
    } else {
        let r = rep_after(n, joins, k - 1);
        let a = r[joins[k - 1].0 as int];
        let b = r[joins[k - 1].1 as int];
        if a == b {
            r
        } else {
            let lo = if a < b {
                a
            } else {
                b
            };
            let hi = if a < b {
                b
            } else {
                a
            };
            Seq::new(n as nat, |z: int| if r[z] == hi { lo } else { r[z] })
        }
    }
}

/// How many of the first `k` joins joined two faces that were not yet one.
pub open spec fn joined_count(n: int, joins: Seq<(u16, u16)>, k: int) -> int
    decreases k,
{
    if k <= 0 {
        0
    } else {
        let r = rep_after(n, joins, k - 1);
        joined_count(n, joins, k - 1) + if r[joins[k - 1].0 as int] == r[joins[k - 1].1 as int] {
            0int
        } else {
            1int
        }
    }
}

/// The joins name faces below `n`.
pub open spec fn joins_in(n: int, joins: Seq<(u16, u16)>) -> bool {
    forall|k: int| 0 <= k < joins.len() ==> (#[trigger] joins[k]).0 < n && joins[k].1 < n
}

/// Representatives are faces below `n`, no larger than the face, their own
/// representatives, and unchanged while nothing has been joined.
proof fn lemma_rep(n: int, joins: Seq<(u16, u16)>, k: int)
    requires
        0 <= n,
        0 <= k <= joins.len(),
        joins_in(n, joins),
    ensures
        rep_after(n, joins, k).len() == n,
        forall|z: int| 0 <= z < n ==> 0 <= #[trigger] rep_after(n, joins, k)[z] <= z,
        forall|z: int| 0 <= z < n ==> rep_after(n, joins, k)[#[trigger] rep_after(n, joins, k)[z]] == rep_after(n, joins, k)[z],
        joined_count(n, joins, k) == 0 ==> forall|z: int| 0 <= z < n ==> #[trigger] rep_after(n, joins, k)[z] == z,
        0 <= joined_count(n, joins, k) <= k,
    decreases k,
{
    if k > 0 {
        lemma_rep(n, joins, k - 1);
        let r = rep_after(n, joins, k - 1);
        let a = r[joins[k - 1].0 as int];
        let b = r[joins[k - 1].1 as int];
        assert(joins[k - 1].0 < n && joins[k - 1].1 < n);
        if a != b {
            let lo = if a < b {
                a
            } else {
                b
            };
            let hi = if a < b {
                b
            } else {
                a
            };
            let s = rep_after(n, joins, k);
            assert forall|z: int| 0 <= z < n implies s[#[trigger] s[z]] == s[z] by {
                assert(r[lo] == lo);
                assert(r[hi] == hi);
                if r[z] == hi {
                    assert(s[z] == lo);
                } else {
                    assert(s[z] == r[z]);
                    assert(r[r[z]] == r[z]);
                }
            }
        }
    }
}

/// Joining faces: after each join the two faces have one representative, the smaller of
/// their two, every face keeps a representative no larger than itself, and a
/// representative represents itself. So the faces of every pair joined end with one
/// label, the smallest of all the faces joined with them.
pub proof fn lemma_joined_faces_share_a_label(n: int, joins: Seq<(u16, u16)>, k: int)
    requires
        0 <= n,
        0 <= k <= joins.len(),
        joins_in(n, joins),
    ensures
        forall|q: int|
            0 <= q < k ==> #[trigger] rep_after(n, joins, k)[joins[q].0 as int] == rep_after(n, joins, k)[joins[q].1 as int],
        forall|z: int| 0 <= z < n ==> 0 <= #[trigger] rep_after(n, joins, k)[z] <= z,
        forall|z: int| 0 <= z < n ==> rep_after(n, joins, k)[#[trigger] rep_after(n, joins, k)[z]] == rep_after(n, joins, k)[z],
    decreases k,
{
    lemma_rep(n, joins, k);
    if k > 0 {
        lemma_joined_faces_share_a_label(n, joins, k - 1);
        let r = rep_after(n, joins, k - 1);
        let s = rep_after(n, joins, k);
        let a = r[joins[k - 1].0 as int];
        let b = r[joins[k - 1].1 as int];
        assert forall|q: int| 0 <= q < k implies #[trigger] s[joins[q].0 as int] == s[joins[q].1 as int] by {
            assert(joins[q].0 < n && joins[q].1 < n);
            if q < k - 1 {
                assert(r[joins[q].0 as int] == r[joins[q].1 as int]);
            }
        }
    }
}

/// Join each pair of faces in `joins`, in order, and relabel every pixel with its face's
/// representative: of the faces joined with it, the smallest. Returns the labels and how
/// many joins joined two faces that were not yet one; with none, the labels are returned
/// as they came.
pub fn join_faces(labels: Vec<u16>, n_faces: usize, joins: &[(u16, u16)]) -> (res: (Vec<u16>, usize))
    requires
        n_faces <= u32::MAX,
        joins@.len() > 0 ==> n_faces <= u16::MAX,
        forall|p: int| 0 <= p < labels@.len() ==> (#[trigger] labels@[p] as int) < n_faces,
        joins_in(n_faces as int, joins@),
    ensures
        res.1 == joined_count(n_faces as int, joins@, joins@.len() as int),
        res.0@.len() == labels@.len(),
        forall|p: int|
            0 <= p < labels@.len() ==> #[trigger] res.0@[p] as int == rep_after(
                n_faces as int,
                joins@,
                joins@.len() as int,
            )[labels@[p] as int],
{
    let ghost nf = n_faces as int;
    let ghost js = joins@;
    let mut parent: Vec<u32> = Vec::new();
    let mut f: usize = 0;
    while f < n_faces
        invariant
            f <= n_faces,
            n_faces <= u32::MAX,
            parent@.len() == f,
            forall|z: int| 0 <= z < f ==> #[trigger] parent@[z] as int == z,
        decreases n_faces - f,
    {
        parent.push(f as u32);
        f += 1;
    }
    proof {
        lemma_identity_forest(ids32(parent@));
        assert forall|z: int| 0 <= z < nf implies #[trigger] root(ids32(parent@), z) == rep_after(nf, js, 0)[z] by {}
    }
    let mut joined: usize = 0;
    let mut k: usize = 0;
    while k < joins.len()
        invariant
            nf == n_faces,
            js == joins@,
            joins_in(nf, js),
            n_faces <= u32::MAX,
            k <= js.len(),
            parent@.len() == n_faces,
            forest_ok(ids32(parent@)),
            forall|z: int| 0 <= z < nf ==> #[trigger] root(ids32(parent@), z) == rep_after(nf, js, k as int)[z],
            joined == joined_count(nf, js, k as int),
        decreases js.len() - k,
    {
        let (x, y) = joins[k];
        proof {
            assert(js[k as int].0 < nf && js[k as int].1 < nf);
            lemma_rep(nf, js, k as int);
        }
        let rx = find(&mut parent, x as u32);
        let ry = find(&mut parent, y as u32);
        if rx != ry {
            let ghost p0 = ids32(parent@);
            let lo = if rx < ry {
                rx
            } else {
                ry
            };
            let hi = if rx < ry {
                ry
            } else {
                rx
            };
            proof {
                lemma_root(p0, x as int);
                lemma_root(p0, y as int);
            }
            parent.set(hi as usize, lo);
            proof {
                assert(ids32(parent@) =~= p0.update(hi as int, lo as int));
                lemma_link(p0, lo as int, hi as int, 0);
                assert forall|z: int| 0 <= z < nf implies #[trigger] root(ids32(parent@), z) == rep_after(
                    nf,
                    js,
                    k + 1,
                )[z] by {
                    lemma_link(p0, lo as int, hi as int, z);
                }
            }
            joined += 1;
        } else {
            proof {
                assert(rep_after(nf, js, k + 1) == rep_after(nf, js, k as int));
            }
        }
        k += 1;
    }
    proof {
        lemma_rep(nf, js, js.len() as int);
    }
    if joined == 0 {
        return (labels, joined);
    }
    let mut labels = labels;
    let ghost l0 = labels@;
    let mut p: usize = 0;
    while p < labels.len()
        invariant
            nf == n_faces,
            js == joins@,
            parent@.len() == n_faces,
            forest_ok(ids32(parent@)),
            forall|z: int| 0 <= z < nf ==> #[trigger] root(ids32(parent@), z) == rep_after(nf, js, js.len() as int)[z],
            forall|z: int| 0 <= z < nf ==> 0 <= #[trigger] rep_after(nf, js, js.len() as int)[z] <= z,
            labels@.len() == l0.len(),
            forall|q: int| 0 <= q < l0.len() ==> (#[trigger] l0[q] as int) < nf,
            p <= labels@.len(),
            forall|q: int|
                0 <= q < labels@.len() ==> #[trigger] labels@[q] as int == if q < p {
                    rep_after(nf, js, js.len() as int)[l0[q] as int]
                } else {
                    l0[q] as int
                },
        decreases labels@.len() - p,
    {
        let l = labels[p];
        let r = find(&mut parent, l as u32);
        labels.set(p, r as u16);
        p += 1;
    }
    (labels, joined)
}

} // verus!
