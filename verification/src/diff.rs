//! The diff algebra: a tagged variant describing how one binary tree differs
//! from another, its weight (the optimisation target of the differ), and the
//! epsilon-reduction that folds no-op sub-diffs.

use crate::bcst::{BCSTree, TreeV, Twh, tsize, twh_eq, twh_wf};
use crate::data::{DataV, Metadata, Span, bytes_eq, kind_eq, meta_eq, span_eq};
use vstd::prelude::*;

verus! {

/// Structural difference between two binary trees.
///
/// `Conflict` is produced only by the merger, to mark a conflict in its output;
/// it is never a valid input to the patcher.
#[derive(Debug, PartialEq, Eq, Hash)]
pub enum Diff {
    Eps,
    Conflict(Box<Diff>, Box<Diff>),
    RMod(Option<u16>, Span, usize, usize, Vec<u8>),
    TEps(Metadata, Box<Diff>, Box<Diff>),
    Mod(Twh, Twh),
    TMod(Metadata, Metadata, Box<Diff>, Box<Diff>),
    AddL(Metadata, Twh, Box<Diff>),
    AddR(Metadata, Box<Diff>, Twh),
    DelL(Box<Diff>),
    DelR(Box<Diff>),
}

/// Mathematical value of a diff: trees appear as pure trees, text as a
/// sequence.
#[verifier::ext_equal]
pub enum DiffV {
    Eps,
    Conflict(Box<DiffV>, Box<DiffV>),
    RMod(Option<u16>, Span, usize, usize, Seq<u8>),
    TEps(Metadata, Box<DiffV>, Box<DiffV>),
    Mod(Box<TreeV>, Box<TreeV>),
    TMod(Metadata, Metadata, Box<DiffV>, Box<DiffV>),
    AddL(Metadata, Box<TreeV>, Box<DiffV>),
    AddR(Metadata, Box<DiffV>, Box<TreeV>),
    DelL(Box<DiffV>),
    DelR(Box<DiffV>),
}

/// View of a diff.
pub open spec fn diff_view(d: Diff) -> DiffV
    decreases d,
{
    match d {
        Diff::Eps => DiffV::Eps,
        Diff::Conflict(a, b) => DiffV::Conflict(Box::new(diff_view(*a)), Box::new(diff_view(*b))),
        Diff::RMod(k, sp, bs, be, txt) => DiffV::RMod(k, sp, bs, be, txt@),
        Diff::TEps(m, x, y) => DiffV::TEps(m, Box::new(diff_view(*x)), Box::new(diff_view(*y))),
        Diff::Mod(x, y) => DiffV::Mod(Box::new(x@), Box::new(y@)),
        Diff::TMod(i, j, x, y) => DiffV::TMod(
            i,
            j,
            Box::new(diff_view(*x)),
            Box::new(diff_view(*y)),
        ),
        Diff::AddL(m, t, dl) => DiffV::AddL(m, Box::new(t@), Box::new(diff_view(*dl))),
        Diff::AddR(m, dl, t) => DiffV::AddR(m, Box::new(diff_view(*dl)), Box::new(t@)),
        Diff::DelL(dl) => DiffV::DelL(Box::new(diff_view(*dl))),
        Diff::DelR(dl) => DiffV::DelR(Box::new(diff_view(*dl))),
    }
}

impl View for Diff {
    type V = DiffV;

    open spec fn view(&self) -> DiffV {
        diff_view(*self)
    }
}

/// Every cached height inside the trees a diff embeds is true.
pub open spec fn diff_wf(d: Diff) -> bool
    decreases d,
{
    match d {
        Diff::Eps => true,
        Diff::Conflict(a, b) => diff_wf(*a) && diff_wf(*b),
        Diff::RMod(_, _, _, _, _) => true,
        Diff::TEps(_, x, y) => diff_wf(*x) && diff_wf(*y),
        Diff::Mod(x, y) => twh_wf(x) && twh_wf(y),
        Diff::TMod(_, _, x, y) => diff_wf(*x) && diff_wf(*y),
        Diff::AddL(_, t, dl) => twh_wf(t) && diff_wf(*dl),
        Diff::AddR(_, dl, t) => twh_wf(t) && diff_wf(*dl),
        Diff::DelL(dl) => diff_wf(*dl),
        Diff::DelR(dl) => diff_wf(*dl),
    }
}

/// A diff carries no conflict marker.
pub open spec fn no_err(d: DiffV) -> bool
    decreases d,
{
    match d {
        DiffV::Eps => true,
        DiffV::Conflict(_, _) => false,
        DiffV::RMod(_, _, _, _, _) => true,
        DiffV::TEps(_, x, y) => no_err(*x) && no_err(*y),
        DiffV::Mod(_, _) => true,
        DiffV::TMod(_, _, x, y) => no_err(*x) && no_err(*y),
        DiffV::AddL(_, _, dl) => no_err(*dl),
        DiffV::AddR(_, dl, _) => no_err(*dl),
        DiffV::DelL(dl) => no_err(*dl),
        DiffV::DelR(dl) => no_err(*dl),
    }
}

/// Weight of a diff: the optimisation target of the differ and a proxy for
/// its size at rest.
pub open spec fn dweight(d: DiffV) -> nat
    decreases d,
{
    match d {
        DiffV::Eps => 0,
        DiffV::Conflict(_, _) => 0,
        DiffV::RMod(_, _, _, _, _) => 0,
        DiffV::TEps(_, x, y) => dweight(*x) + dweight(*y),
        DiffV::Mod(x, y) => 1 + tsize(*x) + tsize(*y),
        DiffV::TMod(_, _, x, y) => 1 + dweight(*x) + dweight(*y),
        DiffV::AddL(_, t, dl) => 1 + tsize(*t) + dweight(*dl),
        DiffV::AddR(_, dl, t) => 1 + tsize(*t) + dweight(*dl),
        DiffV::DelL(dl) => 1 + dweight(*dl),
        DiffV::DelR(dl) => 1 + dweight(*dl),
    }
}

/// `x`, capped at `usize::MAX`.
pub open spec fn capn(x: nat) -> nat {
    if x <= usize::MAX as nat {
        x
    } else {
        usize::MAX as nat
    }
}

/// Addition that stops at `usize::MAX`.
pub fn sat_add(a: usize, b: usize) -> (r: usize)
    ensures
        r as nat == capn(a as nat + b as nat),
{
    if a > usize::MAX - b {
        usize::MAX
    } else {
        a + b
    }
}

/// Leaf count of a tree, capped at `usize::MAX`.
pub fn size_capped(t: &BCSTree) -> (r: usize)
    ensures
        r as nat == capn(tsize(t@)),
    decreases *t,
{
    match t {
        BCSTree::Leaf(_) => 1,
        BCSTree::Node(_, l, r) => {
            let a = size_capped(&l.t);
            let b = size_capped(&r.t);
            sat_add(a, b)
        },
    }
}

/// Weight of a diff, capped at `usize::MAX`.
pub fn weight_capped(d: &Diff) -> (r: usize)
    ensures
        r as nat == capn(dweight(d@)),
    decreases *d,
{
    match d {
        Diff::Eps => 0,
        Diff::Conflict(_, _) => 0,
        Diff::RMod(_, _, _, _, _) => 0,
        Diff::TEps(_, x, y) => sat_add(weight_capped(x), weight_capped(y)),
        Diff::Mod(x, y) => sat_add(1, sat_add(size_capped(&x.t), size_capped(&y.t))),
        Diff::TMod(_, _, x, y) => sat_add(1, sat_add(weight_capped(x), weight_capped(y))),
        Diff::AddL(_, t, dl) => sat_add(1, sat_add(size_capped(&t.t), weight_capped(dl))),
        Diff::AddR(_, dl, t) => sat_add(1, sat_add(size_capped(&t.t), weight_capped(dl))),
        Diff::DelL(dl) => sat_add(1, weight_capped(dl)),
        Diff::DelR(dl) => sat_add(1, weight_capped(dl)),
    }
}

impl Diff {
    /// Weight of the diff.
    pub fn weight(&self) -> (r: usize)
        requires
            dweight(self@) <= usize::MAX,
        ensures
            r == dweight(self@),
    {
        weight_capped(self)
    }

    /// Whether the diff is the identity diff.
    pub fn is_eps(&self) -> (r: bool)
        ensures
            r == (self@ is Eps),
    {
        match self {
            Diff::Eps => true,
            _ => false,
        }
    }
}

/// Compares two diffs structurally.
pub fn diff_eq(a: &Diff, b: &Diff) -> (r: bool)
    ensures
        r == (a@ == b@),
    decreases *a,
{
    let r = match (a, b) {
        (Diff::Eps, Diff::Eps) => true,
        (Diff::Conflict(x0, y0), Diff::Conflict(x1, y1)) => diff_eq(x0, x1) && diff_eq(y0, y1),
        (Diff::RMod(k0, sp0, bs0, be0, t0), Diff::RMod(k1, sp1, bs1, be1, t1)) => kind_eq(k0, k1)
            && span_eq(sp0, sp1) && bs0 == bs1 && be0 == be1 && bytes_eq(t0, t1),
        (Diff::TEps(m0, x0, y0), Diff::TEps(m1, x1, y1)) => meta_eq(m0, m1) && diff_eq(x0, x1)
            && diff_eq(y0, y1),
        (Diff::Mod(x0, y0), Diff::Mod(x1, y1)) => twh_eq(x0, x1) && twh_eq(y0, y1),
        (Diff::TMod(i0, j0, x0, y0), Diff::TMod(i1, j1, x1, y1)) => meta_eq(i0, i1) && meta_eq(
            j0,
            j1,
        ) && diff_eq(x0, x1) && diff_eq(y0, y1),
        (Diff::AddL(m0, t0, d0), Diff::AddL(m1, t1, d1)) => meta_eq(m0, m1) && twh_eq(t0, t1)
            && diff_eq(d0, d1),
        (Diff::AddR(m0, d0, t0), Diff::AddR(m1, d1, t1)) => meta_eq(m0, m1) && twh_eq(t0, t1)
            && diff_eq(d0, d1),
        (Diff::DelL(d0), Diff::DelL(d1)) => diff_eq(d0, d1),
        (Diff::DelR(d0), Diff::DelR(d1)) => diff_eq(d0, d1),
        _ => false,
    };
    proof {
        if r {
            assert(a@ =~= b@);
        }
    }
    r
}

/// Epsilon-reduction: folds sub-diffs that do nothing.  A trivial `Mod`
/// becomes `Eps`; a `TEps` whose reduced children are both `Eps` becomes
/// `Eps`; the other constructors reduce their children in place.
pub open spec fn spec_ered(d: DiffV) -> DiffV
    decreases d,
{
    match d {
        DiffV::Eps => d,
        DiffV::Conflict(_, _) => d,
        DiffV::RMod(_, _, _, _, _) => d,
        DiffV::Mod(x, y) => if *x == *y {
            DiffV::Eps
        } else {
            d
        },
        DiffV::TEps(m, x, y) => {
            let ex = spec_ered(*x);
            let ey = spec_ered(*y);
            if ex is Eps && ey is Eps {
                DiffV::Eps
            } else {
                DiffV::TEps(m, Box::new(ex), Box::new(ey))
            }
        },
        DiffV::TMod(i, j, x, y) => DiffV::TMod(
            i,
            j,
            Box::new(spec_ered(*x)),
            Box::new(spec_ered(*y)),
        ),
        DiffV::AddL(m, t, dl) => DiffV::AddL(m, t, Box::new(spec_ered(*dl))),
        DiffV::AddR(m, dl, t) => DiffV::AddR(m, Box::new(spec_ered(*dl)), t),
        DiffV::DelL(dl) => DiffV::DelL(Box::new(spec_ered(*dl))),
        DiffV::DelR(dl) => DiffV::DelR(Box::new(spec_ered(*dl))),
    }
}

/// Epsilon-reduction is idempotent.
pub proof fn lemma_ered_idempotent(d: DiffV)
    ensures
        spec_ered(spec_ered(d)) == spec_ered(d),
    decreases d,
{
    match d {
        DiffV::TEps(m, x, y) => {
            lemma_ered_idempotent(*x);
            lemma_ered_idempotent(*y);
        },
        DiffV::TMod(i, j, x, y) => {
            lemma_ered_idempotent(*x);
            lemma_ered_idempotent(*y);
        },
        DiffV::AddL(m, t, dl) => {
            lemma_ered_idempotent(*dl);
        },
        DiffV::AddR(m, dl, t) => {
            lemma_ered_idempotent(*dl);
        },
        DiffV::DelL(dl) => {
            lemma_ered_idempotent(*dl);
        },
        DiffV::DelR(dl) => {
            lemma_ered_idempotent(*dl);
        },
        _ => {},
    }
}

impl Clone for Diff {
    fn clone(&self) -> (res: Self)
        ensures
            res@ == self@,
            diff_wf(*self) ==> diff_wf(res),
        decreases *self,
    {
        match self {
            Diff::Eps => Diff::Eps,
            Diff::Conflict(a, b) => Diff::Conflict(Box::new((**a).clone()), Box::new((**b).clone())),
            Diff::RMod(k, sp, bs, be, t) => Diff::RMod(*k, *sp, *bs, *be, t.clone()),
            Diff::TEps(m, x, y) => Diff::TEps(
                *m,
                Box::new((**x).clone()),
                Box::new((**y).clone()),
            ),
            Diff::Mod(x, y) => Diff::Mod(x.clone(), y.clone()),
            Diff::TMod(i, j, x, y) => Diff::TMod(
                *i,
                *j,
                Box::new((**x).clone()),
                Box::new((**y).clone()),
            ),
            Diff::AddL(m, t, dl) => Diff::AddL(*m, t.clone(), Box::new((**dl).clone())),
            Diff::AddR(m, dl, t) => Diff::AddR(*m, Box::new((**dl).clone()), t.clone()),
            Diff::DelL(dl) => Diff::DelL(Box::new((**dl).clone())),
            Diff::DelR(dl) => Diff::DelR(Box::new((**dl).clone())),
        }
    }
}

/// Epsilon-reduces a diff.
pub fn ered(d: &Diff) -> (r: Diff)
    ensures
        r@ == spec_ered(d@),
        diff_wf(*d) ==> diff_wf(r),
    decreases *d,
{
    match d {
        Diff::Eps => d.clone(),
        Diff::Conflict(_, _) => d.clone(),
        Diff::RMod(_, _, _, _, _) => d.clone(),
        Diff::Mod(x, y) => {
            if twh_eq(x, y) {
                Diff::Eps
            } else {
                d.clone()
            }
        },
        Diff::TEps(m, x, y) => {
            let ex = ered(x);
            let ey = ered(y);
            if ex.is_eps() && ey.is_eps() {
                Diff::Eps
            } else {
                Diff::TEps(*m, Box::new(ex), Box::new(ey))
            }
        },
        Diff::TMod(i, j, x, y) => Diff::TMod(*i, *j, Box::new(ered(x)), Box::new(ered(y))),
        Diff::AddL(m, t, dl) => Diff::AddL(*m, t.clone(), Box::new(ered(dl))),
        Diff::AddR(m, dl, t) => Diff::AddR(*m, Box::new(ered(dl)), t.clone()),
        Diff::DelL(dl) => Diff::DelL(Box::new(ered(dl))),
        Diff::DelR(dl) => Diff::DelR(Box::new(ered(dl))),
    }
}

} // verus!
