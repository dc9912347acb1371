//! The patcher: applies a diff to a tree, yielding either the patched tree or
//! a structured mismatch error.  Patching is all or nothing; no partial
//! result is ever returned.

use crate::bcst::{
    BCSTree, TreeV, Twh, lemma_height_lt_size, mk_leaf, mk_node, tree_eq, tsize, twh_wf,
};
use crate::data::{Data, DataV};
use crate::diff::{Diff, DiffV, diff_wf, spec_ered};
use vstd::prelude::*;

verus! {

/// A diff constructor was applied to an incompatible tree head.  Carries the
/// offending tree and diff.
#[derive(Debug, Clone)]
pub struct PatchError {
    pub tree: BCSTree,
    pub diff: Diff,
}

/// What applying a diff to a tree yields: the patched tree, or nothing when
/// some constructor meets an incompatible head.
pub open spec fn spec_patch(t: TreeV, d: DiffV) -> Option<TreeV>
    decreases d,
{
    match d {
        DiffV::Conflict(_, _) => None,
        DiffV::Eps => Some(t),
        DiffV::RMod(k, sp, bs, be, txt) => match t {
            TreeV::Leaf(x) => Some(
                TreeV::Leaf(
                    DataV {
                        kind: k,
                        span: sp,
                        byte_start: bs,
                        byte_end: be,
                        text: txt,
                        named: x.named,
                    },
                ),
            ),
            _ => None,
        },
        DiffV::Mod(x, y) => if t == *x {
            Some(*y)
        } else {
            None
        },
        DiffV::TEps(m, dx, dy) => match t {
            TreeV::Node(tm, l, r) => if tm == m {
                match (spec_patch(*l, *dx), spec_patch(*r, *dy)) {
                    (Some(px), Some(py)) => Some(TreeV::Node(m, Box::new(px), Box::new(py))),
                    _ => None,
                }
            } else {
                None
            },
            _ => None,
        },
        DiffV::TMod(m0, m1, dx, dy) => match t {
            TreeV::Node(tm, l, r) => if tm == m0 {
                match (spec_patch(*l, *dx), spec_patch(*r, *dy)) {
                    (Some(px), Some(py)) => Some(TreeV::Node(m1, Box::new(px), Box::new(py))),
                    _ => None,
                }
            } else {
                None
            },
            _ => None,
        },
        DiffV::AddL(m, x, dy) => match spec_patch(t, *dy) {
            Some(py) => Some(TreeV::Node(m, x, Box::new(py))),
            None => None,
        },
        DiffV::AddR(m, dx, y) => match spec_patch(t, *dx) {
            Some(px) => Some(TreeV::Node(m, Box::new(px), y)),
            None => None,
        },
        DiffV::DelL(dy) => match t {
            TreeV::Node(_, _, r) => spec_patch(*r, *dy),
            _ => None,
        },
        DiffV::DelR(dx) => match t {
            TreeV::Node(_, l, _) => spec_patch(*l, *dx),
            _ => None,
        },
    }
}

/// Total leaf count of the trees a diff inserts into its output.
pub open spec fn dtrees(d: DiffV) -> nat
    decreases d,
{
    match d {
        DiffV::Eps => 0,
        DiffV::Conflict(_, _) => 0,
        DiffV::RMod(_, _, _, _, _) => 0,
        DiffV::TEps(_, x, y) => dtrees(*x) + dtrees(*y),
        DiffV::Mod(_, y) => tsize(*y),
        DiffV::TMod(_, _, x, y) => dtrees(*x) + dtrees(*y),
        DiffV::AddL(_, t, dl) => tsize(*t) + dtrees(*dl),
        DiffV::AddR(_, dl, t) => tsize(*t) + dtrees(*dl),
        DiffV::DelL(dl) => dtrees(*dl),
        DiffV::DelR(dl) => dtrees(*dl),
    }
}

/// Total leaf count of the trees a diff inserts, capped at `usize::MAX`.
pub fn dtrees_capped(d: &Diff) -> (r: usize)
    ensures
        r as nat == crate::diff::capn(dtrees(d@)),
    decreases *d,
{
    match d {
        Diff::Eps => 0,
        Diff::Conflict(_, _) => 0,
        Diff::RMod(_, _, _, _, _) => 0,
        Diff::TEps(_, x, y) => crate::diff::sat_add(dtrees_capped(x), dtrees_capped(y)),
        Diff::Mod(_, y) => crate::diff::size_capped(&y.t),
        Diff::TMod(_, _, x, y) => crate::diff::sat_add(dtrees_capped(x), dtrees_capped(y)),
        Diff::AddL(_, t, dl) => crate::diff::sat_add(
            crate::diff::size_capped(&t.t),
            dtrees_capped(dl),
        ),
        Diff::AddR(_, dl, t) => crate::diff::sat_add(
            crate::diff::size_capped(&t.t),
            dtrees_capped(dl),
        ),
        Diff::DelL(dl) => dtrees_capped(dl),
        Diff::DelR(dl) => dtrees_capped(dl),
    }
}

/// A patched tree is no larger than the input plus what the diff inserts.
pub proof fn lemma_patch_size(t: TreeV, d: DiffV)
    requires
        spec_patch(t, d) is Some,
    ensures
        tsize(spec_patch(t, d)->Some_0) <= tsize(t) + dtrees(d),
    decreases d,
{
    match d {
        DiffV::TEps(m, dx, dy) => match t {
            TreeV::Node(tm, l, r) => {
                lemma_patch_size(*l, *dx);
                lemma_patch_size(*r, *dy);
            },
            _ => {},
        },
        DiffV::TMod(m0, m1, dx, dy) => match t {
            TreeV::Node(tm, l, r) => {
                lemma_patch_size(*l, *dx);
                lemma_patch_size(*r, *dy);
            },
            _ => {},
        },
        DiffV::AddL(m, x, dy) => {
            lemma_patch_size(t, *dy);
        },
        DiffV::AddR(m, dx, y) => {
            lemma_patch_size(t, *dx);
        },
        DiffV::DelL(dy) => match t {
            TreeV::Node(_, _, r) => {
                lemma_patch_size(*r, *dy);
            },
            _ => {},
        },
        DiffV::DelR(dx) => match t {
            TreeV::Node(_, l, _) => {
                lemma_patch_size(*l, *dx);
            },
            _ => {},
        },
        _ => {},
    }
}

/// Applies a diff to a tree.  Succeeds exactly when every constructor of the
/// diff meets a compatible tree head, and then returns the tree the diff
/// describes, with true cached heights.
pub fn patch(t: &Twh, d: &Diff) -> (r: Result<Twh, PatchError>)
    requires
        twh_wf(*t),
        diff_wf(*d),
        tsize(t@) + dtrees(d@) <= usize::MAX,
    ensures
        match r {
            Ok(out) => spec_patch(t@, d@) == Some(out@) && twh_wf(out),
            Err(e) => spec_patch(t@, d@) is None && spec_patch(e.tree@, e.diff@) is None,
        },
    decreases *d,
{
    match d {
        Diff::Conflict(_, _) => Err(
            PatchError { tree: (*t.t).clone(), diff: d.clone() },
        ),
        Diff::Eps => Ok(t.clone()),
        Diff::RMod(k, sp, bs, be, txt) => match &*t.t {
            BCSTree::Leaf(x) => {
                let nx = Data {
                    kind: *k,
                    span: *sp,
                    byte_start: *bs,
                    byte_end: *be,
                    text: txt.clone(),
                    named: x.named,
                };
                let out = mk_leaf(nx);
                proof {
                    assert(spec_patch(t@, d@) == Some(out@));
                }
                Ok(out)
            },
            _ => Err(PatchError { tree: (*t.t).clone(), diff: d.clone() }),
        },
        Diff::Mod(x, y) => {
            if tree_eq(&t.t, &x.t) {
                proof {
                    lemma_patch_size(t@, d@);
                }
                Ok(y.clone())
            } else {
                Err(PatchError { tree: (*t.t).clone(), diff: d.clone() })
            }
        },
        Diff::TEps(m, dx, dy) => match &*t.t {
            BCSTree::Node(tm, l, r) => {
                if tm.kind == m.kind {
                    let px = match patch(l, dx) {
                        Ok(v) => v,
                        Err(e) => {
                            return Err(e);
                        },
                    };
                    let py = match patch(r, dy) {
                        Ok(v) => v,
                        Err(e) => {
                            return Err(e);
                        },
                    };
                    proof {
                        lemma_patch_size(l@, dx@);
                        lemma_patch_size(r@, dy@);
                        lemma_height_lt_size(px@);
                        lemma_height_lt_size(py@);
                    }
                    let out = mk_node(*m, px, py);
                    proof {
                        assert(spec_patch(t@, d@) == Some(out@));
                    }
                    Ok(out)
                } else {
                    Err(PatchError { tree: (*t.t).clone(), diff: d.clone() })
                }
            },
            _ => Err(PatchError { tree: (*t.t).clone(), diff: d.clone() }),
        },
        Diff::TMod(m0, m1, dx, dy) => match &*t.t {
            BCSTree::Node(tm, l, r) => {
                if tm.kind == m0.kind {
                    let px = match patch(l, dx) {
                        Ok(v) => v,
                        Err(e) => {
                            return Err(e);
                        },
                    };
                    let py = match patch(r, dy) {
                        Ok(v) => v,
                        Err(e) => {
                            return Err(e);
                        },
                    };
                    proof {
                        lemma_patch_size(l@, dx@);
                        lemma_patch_size(r@, dy@);
                        lemma_height_lt_size(px@);
                        lemma_height_lt_size(py@);
                    }
                    let out = mk_node(*m1, px, py);
                    proof {
                        assert(spec_patch(t@, d@) == Some(out@));
                    }
                    Ok(out)
                } else {
                    Err(PatchError { tree: (*t.t).clone(), diff: d.clone() })
                }
            },
            _ => Err(PatchError { tree: (*t.t).clone(), diff: d.clone() }),
        },
        Diff::AddL(m, x, dy) => {
            let py = match patch(t, dy) {
                Ok(v) => v,
                Err(e) => {
                    return Err(e);
                },
            };
            proof {
                lemma_patch_size(t@, dy@);
                lemma_height_lt_size(py@);
                lemma_height_lt_size(x@);
            }
            let out = mk_node(*m, x.clone(), py);
            proof {
                assert(spec_patch(t@, d@) == Some(out@));
            }
            Ok(out)
        },
        Diff::AddR(m, dx, y) => {
            let px = match patch(t, dx) {
                Ok(v) => v,
                Err(e) => {
                    return Err(e);
                },
            };
            proof {
                lemma_patch_size(t@, dx@);
                lemma_height_lt_size(px@);
                lemma_height_lt_size(y@);
            }
            let out = mk_node(*m, px, y.clone());
            proof {
                assert(spec_patch(t@, d@) == Some(out@));
            }
            Ok(out)
        },
        Diff::DelL(dy) => match &*t.t {
            BCSTree::Node(_, _, r) => patch(r, dy),
            _ => Err(PatchError { tree: (*t.t).clone(), diff: d.clone() }),
        },
        Diff::DelR(dx) => match &*t.t {
            BCSTree::Node(_, l, _) => patch(l, dx),
            _ => Err(PatchError { tree: (*t.t).clone(), diff: d.clone() }),
        },
    }
}

/// Epsilon-reduction preserves what a diff does: wherever applying the diff
/// succeeds, applying its reduction gives the same tree.
///
/// The restriction to successful applications is needed: a trivial
/// `Mod(x, x)` fails on every tree other than `x`, while its reduction `Eps`
/// succeeds everywhere.
pub proof fn lemma_patch_ered(t: TreeV, d: DiffV)
    requires
        spec_patch(t, d) is Some,
    ensures
        spec_patch(t, spec_ered(d)) == spec_patch(t, d),
    decreases d,
{
    match d {
        DiffV::TEps(m, dx, dy) => match t {
            TreeV::Node(tm, l, r) => {
                lemma_patch_ered(*l, *dx);
                lemma_patch_ered(*r, *dy);
                let ex = spec_ered(*dx);
                let ey = spec_ered(*dy);
                if ex is Eps && ey is Eps {
                    assert(spec_patch(*l, *dx) == Some(*l));
                    assert(spec_patch(*r, *dy) == Some(*r));
                    assert(TreeV::Node(tm, l, r) =~= t);
                }
            },
            _ => {},
        },
        DiffV::TMod(m0, m1, dx, dy) => match t {
            TreeV::Node(tm, l, r) => {
                lemma_patch_ered(*l, *dx);
                lemma_patch_ered(*r, *dy);
            },
            _ => {},
        },
        DiffV::AddL(m, x, dy) => {
            lemma_patch_ered(t, *dy);
        },
        DiffV::AddR(m, dx, y) => {
            lemma_patch_ered(t, *dx);
        },
        DiffV::DelL(dy) => match t {
            TreeV::Node(_, _, r) => {
                lemma_patch_ered(*r, *dy);
            },
            _ => {},
        },
        DiffV::DelR(dx) => match t {
            TreeV::Node(_, l, _) => {
                lemma_patch_ered(*l, *dx);
            },
            _ => {},
        },
        _ => {},
    }
}

} // verus!
