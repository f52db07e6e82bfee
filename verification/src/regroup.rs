//! Colour groups: several fills a user wants drawn as one.
//!
//! A group lists fills, its members, and says what they become. Which faces a member names
//! is a colour comparison made elsewhere; here it arrives as a table, `names[g][m][f]`, and
//! what is decided is everything that follows from it: a face belongs to the first group
//! that names it, a group that would merge one fill into nothing of its own is left alone,
//! and a group becomes the caller's colour, or its target member: with `Auto`, the member
//! whose faces cover the most of the image.
use vstd::prelude::*;

verus! {

/// What a group is drawn as, its colours aside.
#[derive(Debug, Clone, Copy, PartialEq, Eq, Structural)]
pub enum TargetKind {
    /// The member that covers the most of the image, flat or gradient.
    Auto,
    /// A flat colour of the caller's.
    Colour,
    /// This member, by index.
    Member(usize),
}

/// What the faces of a group are painted with.
#[derive(Debug, Clone, Copy, PartialEq, Eq, Structural)]
pub enum Paint {
    /// The caller's colour.
    Colour,
    /// The flat colour of this member.
    Member(usize),
    /// The first colour of the first member: the target member does not exist.
    FirstMember,
    /// One gradient fitted to each connected region of the group's faces, of the kind of
    /// the target member's largest face.
    Fitted { radial: bool },
}

/// What was decided for one group.
pub struct GroupPlan {
    /// What its faces are painted with; `None` when the group is left alone.
    pub paint: Option<Paint>,
    /// The members that matched faces, by index, in order; empty when the group is left
    /// alone.
    pub merged: Vec<usize>,
    /// The members that matched no face, or only faces an earlier group had already
    /// claimed.
    pub unmatched: Vec<usize>,
}

/// The area of the first `k` faces.
pub open spec fn total(area: Seq<usize>, k: int) -> int
    decreases k,
{
    if k <= 0 {
        0
    } else {
        total(area, k - 1) + area[k - 1] as int
    }
}

/// Face `f` is free (no earlier group has it) and the member is named by it.
pub open spec fn claims(state: Seq<Option<usize>>, named: Seq<bool>, f: int) -> bool {
    state[f] is None && named[f]
}

/// The area of the faces among the first `k` that the member claims.
pub open spec fn claimed_area(area: Seq<usize>, state: Seq<Option<usize>>, named: Seq<bool>, k: int) -> int
    decreases k,
{
    if k <= 0 {
        0
    } else {
        claimed_area(area, state, named, k - 1) + if claims(state, named, k - 1) {
            area[k - 1] as int
        } else {
            0
        }
    }
}

/// The member claims some face among the first `n`.
pub open spec fn has_faces(state: Seq<Option<usize>>, named: Seq<bool>, n: int) -> bool {
    exists|f: int| 0 <= f < n && #[trigger] claims(state, named, f)
}

/// The largest face among the first `k` that the member claims, the last of equals.
pub open spec fn largest(area: Seq<usize>, state: Seq<Option<usize>>, named: Seq<bool>, k: int) -> Option<usize>
    decreases k,
{
    if k <= 0 {
        None
    } else {
        let b = largest(area, state, named, k - 1);
        if claims(state, named, k - 1) {
            match b {
                Some(j) => if area[k - 1] >= area[j as int] {
                    Some((k - 1) as usize)
                } else {
                    b
                },
                None => Some((k - 1) as usize),
            }
        } else {
            b
        }
    }
}

/// Among the first `k` members, the one whose faces cover the most, the last of equals.
pub open spec fn auto_pick(area: Seq<usize>, state: Seq<Option<usize>>, names_g: Seq<Seq<bool>>, k: int) -> Option<
    usize,
>
    decreases k,
{
    if k <= 0 {
        None
    } else {
        let b = auto_pick(area, state, names_g, k - 1);
        match b {
            Some(j) => if claimed_area(area, state, names_g[k - 1], area.len() as int) >= claimed_area(
                area,
                state,
                names_g[j as int],
                area.len() as int,
            ) {
                Some((k - 1) as usize)
            } else {
                b
            },
            None => Some((k - 1) as usize),
        }
    }
}

/// How many of the first `k` members claim a face.
pub open spec fn matched_count(state: Seq<Option<usize>>, names_g: Seq<Seq<bool>>, n: int, k: int) -> int
    decreases k,
{
    if k <= 0 {
        0
    } else {
        matched_count(state, names_g, n, k - 1) + if has_faces(state, names_g[k - 1], n) {
            1int
        } else {
            0
        }
    }
}

/// The first `k` members that claim faces (`want`), or that claim none (`!want`).
pub open spec fn members_with(state: Seq<Option<usize>>, names_g: Seq<Seq<bool>>, n: int, want: bool, k: int) -> Seq<
    usize,
>
    decreases k,
{
    if k <= 0 {
        Seq::empty()
    } else if has_faces(state, names_g[k - 1], n) == want {
        members_with(state, names_g, n, want, k - 1).push((k - 1) as usize)
    } else {
        members_with(state, names_g, n, want, k - 1)
    }
}

/// What a group is painted with when member `i` is its target.
pub open spec fn member_paint(
    area: Seq<usize>,
    state: Seq<Option<usize>>,
    names_g: Seq<Seq<bool>>,
    grad_g: Seq<bool>,
    radial: Seq<bool>,
    i: int,
) -> Paint {
    if 0 <= i < names_g.len() {
        if grad_g[i] {
            Paint::Fitted {
                radial: match largest(area, state, names_g[i], area.len() as int) {
                    Some(f) => radial[f as int],
                    None => false,
                },
            }
        } else {
            Paint::Member(i as usize)
        }
    } else {
        Paint::FirstMember
    }
}

/// What a group is painted with, `None` when it is left alone: when no member claims a
/// face, or just one does and the group has no target of its own.
pub open spec fn group_paint(
    area: Seq<usize>,
    state: Seq<Option<usize>>,
    names_g: Seq<Seq<bool>>,
    grad_g: Seq<bool>,
    radial: Seq<bool>,
    target: TargetKind,
) -> Option<Paint> {
    let matched = matched_count(state, names_g, area.len() as int, names_g.len() as int);
    if matched == 0 || (matched == 1 && target == TargetKind::Auto) {
        None
    } else {
        Some(
            match target {
                TargetKind::Colour => Paint::Colour,
                TargetKind::Member(i) => member_paint(area, state, names_g, grad_g, radial, i as int),
                TargetKind::Auto => match auto_pick(area, state, names_g, names_g.len() as int) {
                    Some(i) => member_paint(area, state, names_g, grad_g, radial, i as int),
                    None => Paint::FirstMember,
                },
            },
        )
    }
}

/// Some member of the group claims face `f`.
pub open spec fn claimed_by_any(state: Seq<Option<usize>>, names_g: Seq<Seq<bool>>, f: int) -> bool {
    exists|m: int| 0 <= m < names_g.len() && #[trigger] claims(state, names_g[m], f)
}

/// Which group each face belongs to after group `g` is decided: if the group is not left
/// alone, every face one of its members claims.
pub open spec fn next_state(state: Seq<Option<usize>>, names_g: Seq<Seq<bool>>, g: int, applied: bool) -> Seq<
    Option<usize>,
> {
    if applied {
        Seq::new(
            state.len(),
            |f: int|
                if claimed_by_any(state, names_g, f) {
                    Some(g as usize)
                } else {
                    state[f]
                },
        )
    } else {
        state
    }
}

/// The names table, as sequences.
pub open spec fn names_of(names: Seq<Vec<Vec<bool>>>) -> Seq<Seq<Seq<bool>>> {
    names.map_values(|v: Vec<Vec<bool>>| v@.map_values(|x: Vec<bool>| x@))
}

/// The gradient flags, as sequences.
pub open spec fn flags_of(gradient: Seq<Vec<bool>>) -> Seq<Seq<bool>> {
    gradient.map_values(|v: Vec<bool>| v@)
}

/// Which group each face belongs to once the first `k` groups are decided.
pub open spec fn state_after(
    area: Seq<usize>,
    names: Seq<Seq<Seq<bool>>>,
    gradient: Seq<Seq<bool>>,
    radial: Seq<bool>,
    targets: Seq<TargetKind>,
    k: int,
) -> Seq<Option<usize>>
    decreases k,
{
    if k <= 0 {
        Seq::new(area.len(), |f: int| None)
    } else {
        let s = state_after(area, names, gradient, radial, targets, k - 1);
        next_state(
            s,
            names[k - 1],
            k - 1,
            group_paint(area, s, names[k - 1], gradient[k - 1], radial, targets[k - 1]) is Some,
        )
    }
}

/// The plan for group `g` is what the rules decide given the faces earlier groups took.
pub open spec fn plan_ok(
    area: Seq<usize>,
    names: Seq<Seq<Seq<bool>>>,
    gradient: Seq<Seq<bool>>,
    radial: Seq<bool>,
    targets: Seq<TargetKind>,
    g: int,
    plan: GroupPlan,
) -> bool {
    let s = state_after(area, names, gradient, radial, targets, g);
    let paint = group_paint(area, s, names[g], gradient[g], radial, targets[g]);
    &&& plan.paint == paint
    &&& plan.merged@ == if paint is Some {
        members_with(s, names[g], area.len() as int, true, names[g].len() as int)
    } else {
        Seq::empty()
    }
    &&& plan.unmatched@ == members_with(s, names[g], area.len() as int, false, names[g].len() as int)
}

proof fn lemma_claimed_area_bound(area: Seq<usize>, state: Seq<Option<usize>>, named: Seq<bool>, k: int)
    requires
        0 <= k,
    ensures
        0 <= claimed_area(area, state, named, k) <= total(area, k),
    decreases k,
{
    if k > 0 {
        lemma_claimed_area_bound(area, state, named, k - 1);
    }
}

proof fn lemma_total_mono(area: Seq<usize>, j: int, k: int)
    requires
        0 <= j <= k,
    ensures
        total(area, j) <= total(area, k),
    decreases k,
{
    if k > j {
        lemma_total_mono(area, j, k - 1);
    }
}

proof fn lemma_largest_claims(area: Seq<usize>, state: Seq<Option<usize>>, named: Seq<bool>, k: int)
    requires
        0 <= k <= usize::MAX,
    ensures
        largest(area, state, named, k) matches Some(f) ==> f < k && claims(state, named, f as int),
    decreases k,
{
    if k > 0 {
        lemma_largest_claims(area, state, named, k - 1);
    }
}

proof fn lemma_auto_pick_in(area: Seq<usize>, state: Seq<Option<usize>>, names_g: Seq<Seq<bool>>, k: int)
    requires
        0 <= k <= usize::MAX,
    ensures
        auto_pick(area, state, names_g, k) matches Some(i) ==> i < k,
        k > 0 ==> auto_pick(area, state, names_g, k) is Some,
    decreases k,
{
    if k > 0 {
        lemma_auto_pick_in(area, state, names_g, k - 1);
    }
}

/// Per member, over the free faces it is named by: whether there are any, their area,
/// and the largest of them.
fn member_faces(area: &[usize], group_of: &Vec<Option<usize>>, named: &Vec<bool>) -> (res: (bool, usize, Option<usize>))
    requires
        group_of@.len() == area@.len(),
        named@.len() == area@.len(),
        total(area@, area@.len() as int) <= usize::MAX,
    ensures
        res.0 == has_faces(group_of@, named@, area@.len() as int),
        res.1 == claimed_area(area@, group_of@, named@, area@.len() as int),
        res.2 == largest(area@, group_of@, named@, area@.len() as int),
{
    let n = area.len();
    let mut has = false;
    let mut sum: usize = 0;
    let mut big: Option<usize> = None;
    let mut f: usize = 0;
    while f < n
        invariant
            n == area@.len(),
            group_of@.len() == n,
            named@.len() == n,
            total(area@, n as int) <= usize::MAX,
            f <= n,
            has == has_faces(group_of@, named@, f as int),
            sum == claimed_area(area@, group_of@, named@, f as int),
            big == largest(area@, group_of@, named@, f as int),
        decreases n - f,
    {
        proof {
            lemma_claimed_area_bound(area@, group_of@, named@, f + 1);
            lemma_total_mono(area@, f + 1, n as int);
            lemma_largest_claims(area@, group_of@, named@, f as int);
        }
        if group_of[f].is_none() && named[f] {
            has = true;
            sum = sum + area[f];
            big = match big {
                Some(j) => if area[f] >= area[j] {
                    Some(f)
                } else {
                    Some(j)
                },
                None => Some(f),
            };
            proof {
                assert(claims(group_of@, named@, f as int));
            }
        } else {
            proof {
                assert(!claims(group_of@, named@, f as int));
                if has_faces(group_of@, named@, f + 1) {
                    let q = choose|q: int| 0 <= q < f + 1 && #[trigger] claims(group_of@, named@, q);
                    assert(q < f);
                }
            }
        }
        f += 1;
    }
    (has, sum, big)
}

/// Decide, group by group, which faces each group takes and what it is painted with.
///
/// `area[f]` is face `f`'s pixel count; `names[g][m][f]` says whether face `f`'s fill is
/// member `m` of group `g`; `gradient[g][m]` whether that member is a gradient;
/// `radial[f]` whether face `f`'s fill is a radial gradient; and `targets[g]` what group
/// `g` is drawn as. A face belongs to the first group that names it and is not left alone.
/// Returns the group of every face and a plan per group.
pub fn plan_groups(
    area: &[usize],
    names: &Vec<Vec<Vec<bool>>>,
    gradient: &Vec<Vec<bool>>,
    radial: &Vec<bool>,
    targets: &Vec<TargetKind>,
) -> (res: (Vec<Option<usize>>, Vec<GroupPlan>))
    requires
        names@.len() == targets@.len(),
        gradient@.len() == targets@.len(),
        forall|g: int| 0 <= g < targets@.len() ==> (#[trigger] gradient@[g])@.len() == names@[g]@.len(),
        forall|g: int, m: int|
            0 <= g < targets@.len() && 0 <= m < names@[g]@.len() ==> (#[trigger] names@[g]@[m])@.len()
                == area@.len(),
        radial@.len() == area@.len(),
        total(area@, area@.len() as int) <= usize::MAX,
    ensures
        res.0@ == state_after(
            area@,
            names_of(names@),
            flags_of(gradient@),
            radial@,
            targets@,
            targets@.len() as int,
        ),
        res.1@.len() == targets@.len(),
        forall|g: int|
            0 <= g < targets@.len() ==> plan_ok(
                area@,
                names_of(names@),
                flags_of(gradient@),
                radial@,
                targets@,
                g,
                #[trigger] res.1@[g],
            ),
        forall|g: int|
            0 <= g < targets@.len() && targets@[g] == TargetKind::Auto ==> paints_the_largest(
                area@,
                names_of(names@),
                flags_of(gradient@),
                radial@,
                targets@,
                g,
                (#[trigger] res.1@[g]).paint,
            ),
{
    let n = area.len();
    let ng = targets.len();
    let ghost nv = names_of(names@);
    let ghost gv = flags_of(gradient@);
    let mut group_of: Vec<Option<usize>> = Vec::new();
    let mut f: usize = 0;
    while f < n
        invariant
            f <= n,
            n == area@.len(),
            group_of@ == Seq::new(f as nat, |q: int| None::<usize>),
        decreases n - f,
    {
        group_of.push(None);
        proof {
            assert(group_of@ =~= Seq::new((f + 1) as nat, |q: int| None::<usize>));
        }
        f += 1;
    }
    let mut plans: Vec<GroupPlan> = Vec::new();
    let mut g: usize = 0;
    while g < ng
        invariant
            ng == targets@.len(),
            n == area@.len(),
            nv == names_of(names@),
            gv == flags_of(gradient@),
            names@.len() == ng,
            gradient@.len() == ng,
            forall|g: int| 0 <= g < ng ==> (#[trigger] gradient@[g])@.len() == names@[g]@.len(),
            forall|g: int, m: int|
                0 <= g < ng && 0 <= m < names@[g]@.len() ==> (#[trigger] names@[g]@[m])@.len() == n,
            radial@.len() == n,
            total(area@, n as int) <= usize::MAX,
            g <= ng,
            group_of@ == state_after(area@, nv, gv, radial@, targets@, g as int),
            plans@.len() == g,
            forall|h: int| 0 <= h < g ==> plan_ok(area@, nv, gv, radial@, targets@, h, #[trigger] plans@[h]),
            forall|h: int| 0 <= h < g ==> (#[trigger] nv[h]).len() <= usize::MAX,
        decreases ng - g,
    {
        let ghost s = group_of@;
        let members = &names[g];
        let nm = members.len();
        let ghost names_g = nv[g as int];
        proof {
            assert(names_g.len() == nm);
            assert forall|m: int| 0 <= m < nm implies #[trigger] names_g[m] == members@[m]@ by {}
            assert(s.len() == n) by {
                lemma_state_len(area@, nv, gv, radial@, targets@, g as int);
            }
        }
        // Per member: does it claim a face, how much area, and its largest face.
        let mut merged: Vec<usize> = Vec::new();
        let mut unmatched: Vec<usize> = Vec::new();
        let mut matched: usize = 0;
        let mut pick_auto: Option<usize> = None;
        let mut pick_area: usize = 0;
        let mut bigs: Vec<Option<usize>> = Vec::new();
        let mut m: usize = 0;
        while m < nm
            invariant
                nm == names_g.len(),
                nm == members@.len(),
                n == area@.len(),
                s == group_of@,
                s.len() == n,
                forall|q: int| 0 <= q < nm ==> (#[trigger] names_g[q]).len() == n,
                forall|q: int| 0 <= q < nm ==> #[trigger] names_g[q] == members@[q]@,
                total(area@, n as int) <= usize::MAX,
                m <= nm,
                merged@ == members_with(s, names_g, n as int, true, m as int),
                unmatched@ == members_with(s, names_g, n as int, false, m as int),
                matched == matched_count(s, names_g, n as int, m as int),
                matched <= m,
                pick_auto == auto_pick(area@, s, names_g, m as int),
                pick_auto matches Some(j) ==> pick_area == claimed_area(area@, s, names_g[j as int], n as int),
                bigs@.len() == m,
                forall|q: int| 0 <= q < m ==> #[trigger] bigs@[q] == largest(area@, s, names_g[q], n as int),
            decreases nm - m,
        {
            proof {
                assert(names_g[m as int] == members@[m as int]@);
            }
            let (has, sum, big) = member_faces(area, &group_of, &members[m]);
            if has {
                merged.push(m);
                matched += 1;
            } else {
                unmatched.push(m);
            }
            match pick_auto {
                Some(_) => {
                    if sum >= pick_area {
                        pick_auto = Some(m);
                        pick_area = sum;
                    }
                },
                None => {
                    pick_auto = Some(m);
                    pick_area = sum;
                },
            }
            bigs.push(big);
            m += 1;
        }
        let target = targets[g];
        let paint: Option<Paint> = if matched == 0 || (matched == 1 && target == TargetKind::Auto) {
            None
        } else {
            let pick: Option<usize> = match target {
                TargetKind::Colour => None,
                TargetKind::Member(i) => Some(i),
                TargetKind::Auto => pick_auto,
            };
            match target {
                TargetKind::Colour => Some(Paint::Colour),
                _ => match pick {
                    Some(i) => {
                        if i < nm {
                            if gradient[g][i] {
                                let radial_fit = match bigs[i] {
                                    Some(f) => {
                                        proof {
                                            lemma_largest_claims(area@, s, names_g[i as int], n as int);
                                        }
                                        radial[f]
                                    },
                                    None => false,
                                };
                                Some(Paint::Fitted { radial: radial_fit })
                            } else {
                                Some(Paint::Member(i))
                            }
                        } else {
                            Some(Paint::FirstMember)
                        }
                    },
                    None => Some(Paint::FirstMember),
                },
            }
        };
        proof {
            assert(paint == group_paint(area@, s, names_g, gv[g as int], radial@, target));
        }
        if paint.is_some() {
            let mut q: usize = 0;
            while q < n
                invariant
                    nm == names_g.len(),
                    nm == members@.len(),
                    n == area@.len(),
                    s.len() == n,
                    group_of@.len() == n,
                    forall|r: int| 0 <= r < nm ==> (#[trigger] names_g[r]).len() == n,
                    forall|r: int| 0 <= r < nm ==> #[trigger] names_g[r] == members@[r]@,
                    q <= n,
                    forall|r: int|
                        0 <= r < n ==> #[trigger] group_of@[r] == if r < q {
                            next_state(s, names_g, g as int, true)[r]
                        } else {
                            s[r]
                        },
                decreases n - q,
            {
                if group_of[q].is_none() {
                    let mut any = false;
                    let mut j: usize = 0;
                    while j < nm
                        invariant
                            nm == names_g.len(),
                            nm == members@.len(),
                            n == area@.len(),
                            q < n,
                            forall|r: int| 0 <= r < nm ==> (#[trigger] names_g[r]).len() == n,
                            forall|r: int| 0 <= r < nm ==> #[trigger] names_g[r] == members@[r]@,
                            s[q as int] is None,
                            j <= nm,
                            any == exists|r: int| 0 <= r < j && #[trigger] claims(s, names_g[r], q as int),
                        decreases nm - j,
                    {
                        proof {
                            assert(names_g[j as int] == members@[j as int]@);
                        }
                        if members[j][q] {
                            any = true;
                            proof {
                                assert(claims(s, names_g[j as int], q as int));
                            }
                        } else {
                            proof {
                                if exists|r: int| 0 <= r < j + 1 && #[trigger] claims(s, names_g[r], q as int) {
                                    let r = choose|r: int| 0 <= r < j + 1 && #[trigger] claims(s, names_g[r], q as int);
                                    assert(r < j);
                                }
                            }
                        }
                        j += 1;
                    }
                    if any {
                        group_of.set(q, Some(g));
                    }
                    proof {
                        assert(any == claimed_by_any(s, names_g, q as int));
                    }
                } else {
                    proof {
                        assert(!claimed_by_any(s, names_g, q as int));
                    }
                }
                q += 1;
            }
            proof {
                assert(group_of@ =~= next_state(s, names_g, g as int, true));
            }
        }
        let plan = GroupPlan {
            paint,
            merged: if paint.is_some() {
                merged
            } else {
                Vec::new()
            },
            unmatched,
        };
        plans.push(plan);
        proof {
            assert(group_of@ == state_after(area@, nv, gv, radial@, targets@, g + 1));
            assert forall|h: int| 0 <= h < g + 1 implies plan_ok(
                area@,
                nv,
                gv,
                radial@,
                targets@,
                h,
                #[trigger] plans@[h],
            ) by {}
            assert(nv[g as int].len() == nm);
        }
        g += 1;
    }
    proof {
        assert forall|g: int| 0 <= g < targets@.len() && targets@[g] == TargetKind::Auto implies paints_the_largest(
            area@,
            nv,
            gv,
            radial@,
            targets@,
            g,
            (#[trigger] plans@[g]).paint,
        ) by {
            assert(nv[g].len() <= usize::MAX);
            lemma_auto_paints_the_largest_member(area@, nv, gv, radial@, targets@, g, plans@[g]);
        }
    }
    (group_of, plans)
}

proof fn lemma_state_len(
    area: Seq<usize>,
    names: Seq<Seq<Seq<bool>>>,
    gradient: Seq<Seq<bool>>,
    radial: Seq<bool>,
    targets: Seq<TargetKind>,
    k: int,
)
    requires
        0 <= k,
    ensures
        state_after(area, names, gradient, radial, targets, k).len() == area.len(),
    decreases k,
{
    if k > 0 {
        lemma_state_len(area, names, gradient, radial, targets, k - 1);
    }
}

/// The area member `m` of group `g` claims: its faces that no earlier group took.
pub open spec fn member_area(
    area: Seq<usize>,
    names: Seq<Seq<Seq<bool>>>,
    gradient: Seq<Seq<bool>>,
    radial: Seq<bool>,
    targets: Seq<TargetKind>,
    g: int,
    m: int,
) -> int {
    claimed_area(area, state_after(area, names, gradient, radial, targets, g), names[g][m], area.len() as int)
}

/// Member `i` of group `g` claims at least as much area as every member of the group, and
/// more than every member after it.
pub open spec fn covers_most(
    area: Seq<usize>,
    names: Seq<Seq<Seq<bool>>>,
    gradient: Seq<Seq<bool>>,
    radial: Seq<bool>,
    targets: Seq<TargetKind>,
    g: int,
    i: int,
) -> bool {
    &&& 0 <= i < names[g].len()
    &&& forall|m: int|
        0 <= m < names[g].len() ==> #[trigger] member_area(area, names, gradient, radial, targets, g, m)
            <= member_area(area, names, gradient, radial, targets, g, i)
    &&& forall|m: int|
        i < m < names[g].len() ==> #[trigger] member_area(area, names, gradient, radial, targets, g, m)
            < member_area(area, names, gradient, radial, targets, g, i)
}

/// A paint that names a member names one that claims the most area (the last of equals):
/// its flat colour, or, for fitted gradients, such a member that is a gradient.
pub open spec fn paints_the_largest(
    area: Seq<usize>,
    names: Seq<Seq<Seq<bool>>>,
    gradient: Seq<Seq<bool>>,
    radial: Seq<bool>,
    targets: Seq<TargetKind>,
    g: int,
    paint: Option<Paint>,
) -> bool {
    match paint {
        Some(Paint::Member(i)) => covers_most(area, names, gradient, radial, targets, g, i as int),
        Some(Paint::Fitted { radial: _ }) => exists|i: int|
            #[trigger] covers_most(area, names, gradient, radial, targets, g, i) && gradient[g][i],
        _ => true,
    }
}

proof fn lemma_auto_pick_max(area: Seq<usize>, state: Seq<Option<usize>>, names_g: Seq<Seq<bool>>, k: int)
    requires
        0 <= k <= usize::MAX,
    ensures
        auto_pick(area, state, names_g, k) matches Some(i) ==> {
            &&& i < k
            &&& forall|m: int|
                0 <= m < k ==> #[trigger] claimed_area(area, state, names_g[m], area.len() as int) <= claimed_area(
                    area,
                    state,
                    names_g[i as int],
                    area.len() as int,
                )
            &&& forall|m: int|
                i < m < k ==> #[trigger] claimed_area(area, state, names_g[m], area.len() as int) < claimed_area(
                    area,
                    state,
                    names_g[i as int],
                    area.len() as int,
                )
        },
    decreases k,
{
    if k > 0 {
        lemma_auto_pick_max(area, state, names_g, k - 1);
    }
}

/// With the target `Auto`, a group painted with a member's flat colour is painted with the
/// member that claims the most area (the last of equals), and a group given fitted
/// gradients takes them from such a member that is a gradient.
pub proof fn lemma_auto_paints_the_largest_member(
    area: Seq<usize>,
    names: Seq<Seq<Seq<bool>>>,
    gradient: Seq<Seq<bool>>,
    radial: Seq<bool>,
    targets: Seq<TargetKind>,
    g: int,
    plan: GroupPlan,
)
    requires
        0 <= g < targets.len(),
        names.len() == targets.len(),
        gradient.len() == targets.len(),
        names[g].len() <= usize::MAX,
        targets[g] == TargetKind::Auto,
        plan_ok(area, names, gradient, radial, targets, g, plan),
    ensures
        paints_the_largest(area, names, gradient, radial, targets, g, plan.paint),
{
    let s = state_after(area, names, gradient, radial, targets, g);
    let k = names[g].len() as int;
    lemma_auto_pick_max(area, s, names[g], k);
    if let Some(i) = auto_pick(area, s, names[g], k) {
        assert forall|m: int| 0 <= m < k implies #[trigger] member_area(area, names, gradient, radial, targets, g, m)
            <= member_area(area, names, gradient, radial, targets, g, i as int) by {
            assert(claimed_area(area, s, names[g][m], area.len() as int) <= claimed_area(
                area,
                s,
                names[g][i as int],
                area.len() as int,
            ));
        }
        assert forall|m: int| i < m < k implies #[trigger] member_area(area, names, gradient, radial, targets, g, m)
            < member_area(area, names, gradient, radial, targets, g, i as int) by {
            assert(claimed_area(area, s, names[g][m], area.len() as int) < claimed_area(
                area,
                s,
                names[g][i as int],
                area.len() as int,
            ));
        }
        assert(covers_most(area, names, gradient, radial, targets, g, i as int));
    }
}

/// Group `h` takes face `f` if it is not left alone and one of its members is named by
/// the face (whether or not an earlier group took the face first).
pub open spec fn names_and_applies(
    area: Seq<usize>,
    names: Seq<Seq<Seq<bool>>>,
    gradient: Seq<Seq<bool>>,
    radial: Seq<bool>,
    targets: Seq<TargetKind>,
    h: int,
    f: int,
) -> bool {
    let s = state_after(area, names, gradient, radial, targets, h);
    &&& group_paint(area, s, names[h], gradient[h], radial, targets[h]) is Some
    &&& exists|m: int| 0 <= m < names[h].len() && #[trigger] names[h][m][f]
}

/// A face belongs to the first group that names it and is not left alone, and to no group
/// when there is none: once the first `k` groups are decided, face `f` is in group `g`
/// exactly when `g` is the first of them that names it and applies.
pub proof fn lemma_face_goes_to_the_first_group(
    area: Seq<usize>,
    names: Seq<Seq<Seq<bool>>>,
    gradient: Seq<Seq<bool>>,
    radial: Seq<bool>,
    targets: Seq<TargetKind>,
    k: int,
    f: int,
)
    requires
        0 <= k <= targets.len(),
        targets.len() <= usize::MAX,
        names.len() == targets.len(),
        0 <= f < area.len(),
    ensures
        match state_after(area, names, gradient, radial, targets, k)[f] {
            Some(g) => 0 <= g < k && names_and_applies(area, names, gradient, radial, targets, g as int, f)
                && forall|h: int| 0 <= h < g ==> !#[trigger] names_and_applies(area, names, gradient, radial, targets, h, f),
            None => forall|h: int| 0 <= h < k ==> !#[trigger] names_and_applies(area, names, gradient, radial, targets, h, f),
        },
    decreases k,
{
    lemma_state_len(area, names, gradient, radial, targets, k);
    if k > 0 {
        lemma_face_goes_to_the_first_group(area, names, gradient, radial, targets, k - 1, f);
        lemma_state_len(area, names, gradient, radial, targets, k - 1);
        let s = state_after(area, names, gradient, radial, targets, k - 1);
        let t = state_after(area, names, gradient, radial, targets, k);
        let names_g = names[k - 1];
        let applied = group_paint(area, s, names_g, gradient[k - 1], radial, targets[k - 1]) is Some;
        assert(t == next_state(s, names_g, k - 1, applied));
        let named = exists|m: int| 0 <= m < names_g.len() && #[trigger] names_g[m][f];
        assert(names_and_applies(area, names, gradient, radial, targets, k - 1, f) == (applied && named));
        if s[f] is Some {
            assert(!claimed_by_any(s, names_g, f));
            assert(t[f] == s[f]);
        } else if applied && claimed_by_any(s, names_g, f) {
            let m = choose|m: int| 0 <= m < names_g.len() && #[trigger] claims(s, names_g[m], f);
            assert(names_g[m][f]);
            assert(t[f] == Some((k - 1) as usize));
        } else {
            assert(t[f] == s[f]);
            if applied {
                assert forall|m: int| 0 <= m < names_g.len() implies !#[trigger] names_g[m][f] by {
                    assert(!claims(s, names_g[m], f));
                }
            }
            assert(!names_and_applies(area, names, gradient, radial, targets, k - 1, f));
        }
    }
}

/// How many of the first `k` pixels carry label `f`.
pub open spec fn label_count(labels: Seq<u16>, f: int, k: int) -> int
    decreases k,
{
    if k <= 0 {
        0
    } else {
        label_count(labels, f, k - 1) + if labels[k - 1] as int == f {
            1int
        } else {
            0
        }
    }
}

proof fn lemma_total_bump(area: Seq<usize>, f: int, k: int)
    requires
        0 <= f < area.len(),
        0 <= k <= area.len(),
        area[f] < usize::MAX,
    ensures
        total(area.update(f, (area[f] + 1) as usize), k) == total(area, k) + if f < k {
            1int
        } else {
            0
        },
    decreases k,
{
    if k > 0 {
        lemma_total_bump(area, f, k - 1);
    }
}

/// The pixel count of each of `n_faces` faces; a pixel whose label is no face counts for
/// none. The counts add up to at most the number of pixels.
pub fn face_areas(labels: &[u16], n_faces: usize) -> (area: Vec<usize>)
    ensures
        area@.len() == n_faces,
        forall|f: int| 0 <= f < n_faces ==> #[trigger] area@[f] == label_count(labels@, f, labels@.len() as int),
        total(area@, n_faces as int) <= labels@.len(),
{
    let mut area: Vec<usize> = Vec::new();
    let mut f: usize = 0;
    while f < n_faces
        invariant
            f <= n_faces,
            area@.len() == f,
            forall|q: int| 0 <= q < f ==> #[trigger] area@[q] == 0,
            total(area@, f as int) == 0,
        decreases n_faces - f,
    {
        let ghost before = area@;
        area.push(0);
        proof {
            assert(total(area@, f as int) == total(before, f as int)) by {
                lemma_total_prefix(before, area@, f as int);
            }
        }
        f += 1;
    }
    let n = labels.len();
    let mut p: usize = 0;
    while p < n
        invariant
            n == labels@.len(),
            p <= n,
            area@.len() == n_faces,
            forall|q: int| 0 <= q < n_faces ==> #[trigger] area@[q] == label_count(labels@, q, p as int),
            total(area@, n_faces as int) <= p,
        decreases n - p,
    {
        let l = labels[p] as usize;
        if l < n_faces {
            let ghost before = area@;
            proof {
                assert(before[l as int] == label_count(labels@, l as int, p as int));
                lemma_label_count_bound(labels@, l as int, p as int);
                lemma_total_bump(before, l as int, n_faces as int);
            }
            area.set(l, area[l] + 1);
            proof {
                assert(area@ == before.update(l as int, (before[l as int] + 1) as usize));
            }
        }
        p += 1;
    }
    area
}

proof fn lemma_label_count_bound(labels: Seq<u16>, f: int, k: int)
    requires
        0 <= k,
    ensures
        0 <= label_count(labels, f, k) <= k,
    decreases k,
{
    if k > 0 {
        lemma_label_count_bound(labels, f, k - 1);
    }
}

proof fn lemma_total_prefix(a: Seq<usize>, b: Seq<usize>, k: int)
    requires
        0 <= k <= a.len(),
        k <= b.len(),
        forall|q: int| 0 <= q < k ==> a[q] == b[q],
    ensures
        total(a, k) == total(b, k),
    decreases k,
{
    if k > 0 {
        lemma_total_prefix(a, b, k - 1);
    }
}

} // verus!
