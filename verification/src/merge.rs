//! The three-way merger: combines two diffs computed from the same base tree,
//! descending both in lock step.  Compatible constructors are combined;
//! anything else is recorded as a conflict and marked in the output with a
//! `Conflict` node, never silently resolved.

use crate::bcst::twh_eq;
use crate::data::meta_eq;
use crate::diff::{Diff, DiffV, diff_eq, diff_wf, no_err};
use vstd::prelude::*;

verus! {

/// A pair of sub-diffs the merger could not combine.
#[derive(Debug, PartialEq, Eq)]
pub struct MergeConflict(pub Diff, pub Diff);

impl View for MergeConflict {
    type V = (DiffV, DiffV);

    open spec fn view(&self) -> (DiffV, DiffV) {
        (self.0@, self.1@)
    }
}

/// Structural size of a diff, the measure the merger descends along.
pub open spec fn dsize(d: DiffV) -> nat
    decreases d,
{
    match d {
        DiffV::Eps => 1,
        DiffV::Conflict(a, b) => 1 + dsize(*a) + dsize(*b),
        DiffV::RMod(_, _, _, _, _) => 1,
        DiffV::TEps(_, x, y) => 1 + dsize(*x) + dsize(*y),
        DiffV::Mod(_, _) => 1,
        DiffV::TMod(_, _, x, y) => 1 + dsize(*x) + dsize(*y),
        DiffV::AddL(_, _, dl) => 1 + dsize(*dl),
        DiffV::AddR(_, dl, _) => 1 + dsize(*dl),
        DiffV::DelL(dl) => 1 + dsize(*dl),
        DiffV::DelR(dl) => 1 + dsize(*dl),
    }
}

/// Equal diffs on both sides merge to that diff; anything else that no rule
/// combines is a conflict, marked in the output.
pub open spec fn spec_merge_other(a: DiffV, b: DiffV) -> DiffV {
    if a == b {
        a
    } else {
        DiffV::Conflict(Box::new(a), Box::new(b))
    }
}

/// The merged diff of two diffs derived from the same base.
pub open spec fn spec_merge(a: DiffV, b: DiffV) -> DiffV
    decreases dsize(a) + dsize(b),
{
    if a is Eps {
        b
    } else if b is Eps {
        a
    } else {
        match (a, b) {
            (DiffV::TEps(i1, l1, r1), DiffV::TEps(i2, l2, r2)) => if i1 == i2 {
                DiffV::TEps(i1, Box::new(spec_merge(*l1, *l2)), Box::new(spec_merge(*r1, *r2)))
            } else {
                spec_merge_other(a, b)
            },
            (DiffV::TMod(i1, j1, l1, r1), DiffV::TMod(i2, j2, l2, r2)) => if i1 == i2 && j1 == j2 {
                DiffV::TMod(
                    i1,
                    j1,
                    Box::new(spec_merge(*l1, *l2)),
                    Box::new(spec_merge(*r1, *r2)),
                )
            } else {
                spec_merge_other(a, b)
            },
            (DiffV::TEps(i1, l1, r1), DiffV::TMod(i2, j, l2, r2)) => if i1 == i2 {
                DiffV::TMod(
                    i1,
                    j,
                    Box::new(spec_merge(*l1, *l2)),
                    Box::new(spec_merge(*r1, *r2)),
                )
            } else {
                spec_merge_other(a, b)
            },
            (DiffV::TMod(i2, j, l2, r2), DiffV::TEps(i1, l1, r1)) => if i1 == i2 {
                DiffV::TMod(
                    i1,
                    j,
                    Box::new(spec_merge(*l1, *l2)),
                    Box::new(spec_merge(*r1, *r2)),
                )
            } else {
                spec_merge_other(a, b)
            },
            (DiffV::TEps(_, _, _), DiffV::AddL(j, t, dl)) => DiffV::AddL(
                j,
                t,
                Box::new(spec_merge(a, *dl)),
            ),
            (DiffV::TEps(_, _, _), DiffV::AddR(j, dl, t)) => DiffV::AddR(
                j,
                Box::new(spec_merge(a, *dl)),
                t,
            ),
            (DiffV::AddL(j, t, dl), DiffV::TEps(_, _, _)) => DiffV::AddL(
                j,
                t,
                Box::new(spec_merge(b, *dl)),
            ),
            (DiffV::AddR(j, dl, t), DiffV::TEps(_, _, _)) => DiffV::AddR(
                j,
                Box::new(spec_merge(b, *dl)),
                t,
            ),
            (DiffV::TEps(_, _, r), DiffV::DelL(dl)) => DiffV::DelL(Box::new(spec_merge(*r, *dl))),
            (DiffV::TEps(_, l, _), DiffV::DelR(dl)) => DiffV::DelR(Box::new(spec_merge(*l, *dl))),
            (DiffV::DelL(dl), DiffV::TEps(_, _, r)) => DiffV::DelL(Box::new(spec_merge(*r, *dl))),
            (DiffV::DelR(dl), DiffV::TEps(_, l, _)) => DiffV::DelR(Box::new(spec_merge(*l, *dl))),
            (DiffV::AddL(i1, t1, d1), DiffV::AddL(i2, t2, d2)) => if i1 == i2 && t1 == t2 {
                DiffV::AddL(i1, t1, Box::new(spec_merge(*d1, *d2)))
            } else {
                spec_merge_other(a, b)
            },
            (DiffV::AddR(i1, d1, t1), DiffV::AddR(i2, d2, t2)) => if i1 == i2 && t1 == t2 {
                DiffV::AddR(i1, Box::new(spec_merge(*d1, *d2)), t1)
            } else {
                spec_merge_other(a, b)
            },
            (DiffV::DelL(d1), DiffV::DelL(d2)) => DiffV::DelL(Box::new(spec_merge(*d1, *d2))),
            (DiffV::DelR(d1), DiffV::DelR(d2)) => DiffV::DelR(Box::new(spec_merge(*d1, *d2))),
            _ => spec_merge_other(a, b),
        }
    }
}

/// The conflicts the merger records, in the order it meets them.
pub open spec fn spec_conflicts(a: DiffV, b: DiffV) -> Seq<(DiffV, DiffV)>
    decreases dsize(a) + dsize(b),
{
    if a is Eps {
        Seq::empty()
    } else if b is Eps {
        Seq::empty()
    } else {
        match (a, b) {
            (DiffV::TEps(i1, l1, r1), DiffV::TEps(i2, l2, r2)) => if i1 == i2 {
                spec_conflicts(*l1, *l2) + spec_conflicts(*r1, *r2)
            } else {
                spec_conflicts_other(a, b)
            },
            (DiffV::TMod(i1, j1, l1, r1), DiffV::TMod(i2, j2, l2, r2)) => if i1 == i2 && j1 == j2 {
                spec_conflicts(*l1, *l2) + spec_conflicts(*r1, *r2)
            } else {
                spec_conflicts_other(a, b)
            },
            (DiffV::TEps(i1, l1, r1), DiffV::TMod(i2, j, l2, r2)) => if i1 == i2 {
                spec_conflicts(*l1, *l2) + spec_conflicts(*r1, *r2)
            } else {
                spec_conflicts_other(a, b)
            },
            (DiffV::TMod(i2, j, l2, r2), DiffV::TEps(i1, l1, r1)) => if i1 == i2 {
                spec_conflicts(*l1, *l2) + spec_conflicts(*r1, *r2)
            } else {
                spec_conflicts_other(a, b)
            },
            (DiffV::TEps(_, _, _), DiffV::AddL(j, t, dl)) => spec_conflicts(a, *dl),
            (DiffV::TEps(_, _, _), DiffV::AddR(j, dl, t)) => spec_conflicts(a, *dl),
            (DiffV::AddL(j, t, dl), DiffV::TEps(_, _, _)) => spec_conflicts(b, *dl),
            (DiffV::AddR(j, dl, t), DiffV::TEps(_, _, _)) => spec_conflicts(b, *dl),
            (DiffV::TEps(_, _, r), DiffV::DelL(dl)) => spec_conflicts(*r, *dl),
            (DiffV::TEps(_, l, _), DiffV::DelR(dl)) => spec_conflicts(*l, *dl),
            (DiffV::DelL(dl), DiffV::TEps(_, _, r)) => spec_conflicts(*r, *dl),
            (DiffV::DelR(dl), DiffV::TEps(_, l, _)) => spec_conflicts(*l, *dl),
            (DiffV::AddL(i1, t1, d1), DiffV::AddL(i2, t2, d2)) => if i1 == i2 && t1 == t2 {
                spec_conflicts(*d1, *d2)
            } else {
                spec_conflicts_other(a, b)
            },
            (DiffV::AddR(i1, d1, t1), DiffV::AddR(i2, d2, t2)) => if i1 == i2 && t1 == t2 {
                spec_conflicts(*d1, *d2)
            } else {
                spec_conflicts_other(a, b)
            },
            (DiffV::DelL(d1), DiffV::DelL(d2)) => spec_conflicts(*d1, *d2),
            (DiffV::DelR(d1), DiffV::DelR(d2)) => spec_conflicts(*d1, *d2),
            _ => spec_conflicts_other(a, b),
        }
    }
}

/// Conflicts of the catch-all rule: none when the two diffs are equal,
/// otherwise the pair itself.
pub open spec fn spec_conflicts_other(a: DiffV, b: DiffV) -> Seq<(DiffV, DiffV)> {
    if a == b {
        Seq::empty()
    } else {
        seq![(a, b)]
    }
}

/// Merging with the identity diff changes nothing, on either side, and
/// records no conflict.
pub proof fn lemma_merge_identity(d: DiffV)
    ensures
        spec_merge(DiffV::Eps, d) == d,
        spec_merge(d, DiffV::Eps) == d,
        spec_conflicts(DiffV::Eps, d) == Seq::<(DiffV, DiffV)>::empty(),
        spec_conflicts(d, DiffV::Eps) == Seq::<(DiffV, DiffV)>::empty(),
{
}


/// The diff-pair views of a conflict list.
pub open spec fn conflicts_view(v: Seq<MergeConflict>) -> Seq<(DiffV, DiffV)> {
    v.map_values(|c: MergeConflict| c@)
}

fn merge_other(left: &Diff, right: &Diff, conflicts: &mut Vec<MergeConflict>) -> (r: Diff)
    ensures
        r@ == spec_merge_other(left@, right@),
        conflicts_view(final(conflicts)@) == conflicts_view(old(conflicts)@) + spec_conflicts_other(
            left@,
            right@,
        ),
        diff_wf(*left) && diff_wf(*right) ==> diff_wf(r),
{
    if diff_eq(left, right) {
        proof {
            assert(conflicts_view(conflicts@) =~= conflicts_view(conflicts@) + spec_conflicts_other(
                left@,
                right@,
            ));
        }
        left.clone()
    } else {
        let c = MergeConflict(left.clone(), right.clone());
        let r = Diff::Conflict(Box::new(left.clone()), Box::new(right.clone()));
        conflicts.push(c);
        proof {
            assert(conflicts_view(conflicts@) =~= conflicts_view(old(conflicts)@)
                + spec_conflicts_other(left@, right@));
        }
        r
    }
}

/// Merges two diffs derived from the same base tree, recording every pair of
/// sub-diffs it cannot combine both in `conflicts` and as a `Conflict` marker
/// in the output.
pub fn merge(left: &Diff, right: &Diff, conflicts: &mut Vec<MergeConflict>) -> (r: Diff)
    requires
        no_err(left@),
        no_err(right@),
    ensures
        r@ == spec_merge(left@, right@),
        conflicts_view(final(conflicts)@) == conflicts_view(old(conflicts)@) + spec_conflicts(
            left@,
            right@,
        ),
        diff_wf(*left) && diff_wf(*right) ==> diff_wf(r),
    decreases dsize(left@) + dsize(right@),
{
    if left.is_eps() {
        proof {
            assert(conflicts_view(conflicts@) =~= conflicts_view(conflicts@) + spec_conflicts(
                left@,
                right@,
            ));
        }
        return right.clone();
    }
    if right.is_eps() {
        proof {
            assert(conflicts_view(conflicts@) =~= conflicts_view(conflicts@) + spec_conflicts(
                left@,
                right@,
            ));
        }
        return left.clone();
    }
    let r: Diff = match (left, right) {
        (Diff::TEps(i1, l1, r1), Diff::TEps(i2, l2, r2)) => {
            if meta_eq(i1, i2) {
                let ml = merge(l1, l2, conflicts);
                let mr = merge(r1, r2, conflicts);
                Diff::TEps(*i1, Box::new(ml), Box::new(mr))
            } else {
                merge_other(left, right, conflicts)
            }
        },
        (Diff::TMod(i1, j1, l1, r1), Diff::TMod(i2, j2, l2, r2)) => {
            if meta_eq(i1, i2) && meta_eq(j1, j2) {
                let ml = merge(l1, l2, conflicts);
                let mr = merge(r1, r2, conflicts);
                Diff::TMod(*i1, *j1, Box::new(ml), Box::new(mr))
            } else {
                merge_other(left, right, conflicts)
            }
        },
        (Diff::TEps(i1, l1, r1), Diff::TMod(i2, j, l2, r2)) => {
            if meta_eq(i1, i2) {
                let ml = merge(l1, l2, conflicts);
                let mr = merge(r1, r2, conflicts);
                Diff::TMod(*i1, *j, Box::new(ml), Box::new(mr))
            } else {
                merge_other(left, right, conflicts)
            }
        },
        (Diff::TMod(i2, j, l2, r2), Diff::TEps(i1, l1, r1)) => {
            if meta_eq(i1, i2) {
                let ml = merge(l1, l2, conflicts);
                let mr = merge(r1, r2, conflicts);
                Diff::TMod(*i1, *j, Box::new(ml), Box::new(mr))
            } else {
                merge_other(left, right, conflicts)
            }
        },
        (Diff::TEps(_, _, _), Diff::AddL(j, t, dl)) => {
            let md = merge(left, dl, conflicts);
            Diff::AddL(*j, t.clone(), Box::new(md))
        },
        (Diff::TEps(_, _, _), Diff::AddR(j, dl, t)) => {
            let md = merge(left, dl, conflicts);
            Diff::AddR(*j, Box::new(md), t.clone())
        },
        (Diff::AddL(j, t, dl), Diff::TEps(_, _, _)) => {
            let md = merge(right, dl, conflicts);
            Diff::AddL(*j, t.clone(), Box::new(md))
        },
        (Diff::AddR(j, dl, t), Diff::TEps(_, _, _)) => {
            let md = merge(right, dl, conflicts);
            Diff::AddR(*j, Box::new(md), t.clone())
        },
        (Diff::TEps(_, _, r1), Diff::DelL(dl)) => {
            let md = merge(r1, dl, conflicts);
            Diff::DelL(Box::new(md))
        },
        (Diff::TEps(_, l1, _), Diff::DelR(dl)) => {
            let md = merge(l1, dl, conflicts);
            Diff::DelR(Box::new(md))
        },
        (Diff::DelL(dl), Diff::TEps(_, _, r1)) => {
            let md = merge(r1, dl, conflicts);
            Diff::DelL(Box::new(md))
        },
        (Diff::DelR(dl), Diff::TEps(_, l1, _)) => {
            let md = merge(l1, dl, conflicts);
            Diff::DelR(Box::new(md))
        },
        (Diff::AddL(i1, t1, d1), Diff::AddL(i2, t2, d2)) => {
            if meta_eq(i1, i2) && twh_eq(t1, t2) {
                let md = merge(d1, d2, conflicts);
                Diff::AddL(*i1, t1.clone(), Box::new(md))
            } else {
                merge_other(left, right, conflicts)
            }
        },
        (Diff::AddR(i1, d1, t1), Diff::AddR(i2, d2, t2)) => {
            if meta_eq(i1, i2) && twh_eq(t1, t2) {
                let md = merge(d1, d2, conflicts);
                Diff::AddR(*i1, Box::new(md), t1.clone())
            } else {
                merge_other(left, right, conflicts)
            }
        },
        (Diff::DelL(d1), Diff::DelL(d2)) => {
            let md = merge(d1, d2, conflicts);
            Diff::DelL(Box::new(md))
        },
        (Diff::DelR(d1), Diff::DelR(d2)) => {
            let md = merge(d1, d2, conflicts);
            Diff::DelR(Box::new(md))
        },
        _ => merge_other(left, right, conflicts),
    };
    proof {
        assert(conflicts_view(conflicts@) =~= conflicts_view(old(conflicts)@) + spec_conflicts(
            left@,
            right@,
        ));
        assert(r@ =~= spec_merge(left@, right@));
    }
    r
}

/// Merging is commutative wherever it records no conflict, and whether a
/// conflict is recorded does not depend on the order of the two sides.
pub proof fn lemma_merge_commutes(a: DiffV, b: DiffV)
    requires
        spec_conflicts(a, b).len() == 0,
    ensures
        spec_conflicts(b, a).len() == 0,
        spec_merge(a, b) == spec_merge(b, a),
    decreases dsize(a) + dsize(b),
{
    if a is Eps || b is Eps {
        return;
    }
    match (a, b) {
        (DiffV::TEps(i1, l1, r1), DiffV::TEps(i2, l2, r2)) => {
            if i1 == i2 {
                lemma_merge_commutes(*l1, *l2);
                lemma_merge_commutes(*r1, *r2);
            }
        },
        (DiffV::TMod(i1, j1, l1, r1), DiffV::TMod(i2, j2, l2, r2)) => {
            if i1 == i2 && j1 == j2 {
                lemma_merge_commutes(*l1, *l2);
                lemma_merge_commutes(*r1, *r2);
            }
        },
        (DiffV::TEps(i1, l1, r1), DiffV::TMod(i2, j, l2, r2)) => {},
        (DiffV::TMod(i2, j, l2, r2), DiffV::TEps(i1, l1, r1)) => {},
        (DiffV::TEps(_, _, _), DiffV::AddL(j, t, dl)) => {
            lemma_merge_commutes(a, *dl);
        },
        (DiffV::TEps(_, _, _), DiffV::AddR(j, dl, t)) => {
            lemma_merge_commutes(a, *dl);
        },
        (DiffV::AddL(j, t, dl), DiffV::TEps(_, _, _)) => {
            lemma_merge_commutes(b, *dl);
        },
        (DiffV::AddR(j, dl, t), DiffV::TEps(_, _, _)) => {
            lemma_merge_commutes(b, *dl);
        },
        (DiffV::TEps(_, _, _), DiffV::DelL(dl)) => {},
        (DiffV::TEps(_, _, _), DiffV::DelR(dl)) => {},
        (DiffV::DelL(dl), DiffV::TEps(_, _, _)) => {},
        (DiffV::DelR(dl), DiffV::TEps(_, _, _)) => {},
        (DiffV::AddL(i1, t1, d1), DiffV::AddL(i2, t2, d2)) => {
            if i1 == i2 && t1 == t2 {
                lemma_merge_commutes(*d1, *d2);
            }
        },
        (DiffV::AddR(i1, d1, t1), DiffV::AddR(i2, d2, t2)) => {
            if i1 == i2 && t1 == t2 {
                lemma_merge_commutes(*d1, *d2);
            }
        },
        (DiffV::DelL(d1), DiffV::DelL(d2)) => {
            lemma_merge_commutes(*d1, *d2);
        },
        (DiffV::DelR(d1), DiffV::DelR(d2)) => {
            lemma_merge_commutes(*d1, *d2);
        },
        _ => {},
    }
}

} // verus!
