//! Binary concrete syntax tree: the normal form used by the diff, patch and
//! merge algorithms.
//!
//! Every subtree caches its height, because the differ queries heights per
//! edit-graph edge.  Well-formedness (`twh_wf`) says that every cached height
//! equals the true height of the subtree it annotates.

use crate::data::{Data, DataV, Metadata, data_eq, data_nil, meta_eq, spec_data_nil};
use vstd::prelude::*;

verus! {

/// A subtree together with its cached height.
#[derive(Debug, PartialEq, Eq, Hash)]
pub struct Twh {
    pub t: Box<BCSTree>,
    pub h: usize,
}

/// Binary concrete syntax tree.
#[derive(Debug, PartialEq, Eq, Hash)]
pub enum BCSTree {
    Leaf(Data),
    Node(Metadata, Twh, Twh),
}

/// Mathematical value of a binary tree: the pure tree, without the cached
/// heights.
#[verifier::ext_equal]
pub enum TreeV {
    Leaf(DataV),
    Node(Metadata, Box<TreeV>, Box<TreeV>),
}

/// View of a binary tree.
pub open spec fn tree_view(t: BCSTree) -> TreeV
    decreases t,
{
    match t {
        BCSTree::Leaf(d) => TreeV::Leaf(d@),
        BCSTree::Node(m, l, r) => TreeV::Node(
            m,
            Box::new(tree_view(*l.t)),
            Box::new(tree_view(*r.t)),
        ),
    }
}

impl View for BCSTree {
    type V = TreeV;

    open spec fn view(&self) -> TreeV {
        tree_view(*self)
    }
}

impl View for Twh {
    type V = TreeV;

    open spec fn view(&self) -> TreeV {
        tree_view(*self.t)
    }
}

/// Number of leaves of a tree.
pub open spec fn tsize(t: TreeV) -> nat
    decreases t,
{
    match t {
        TreeV::Leaf(_) => 1,
        TreeV::Node(_, l, r) => tsize(*l) + tsize(*r),
    }
}

/// True height of a tree: leaves have height 0.
pub open spec fn theight(t: TreeV) -> nat
    decreases t,
{
    match t {
        TreeV::Leaf(_) => 0,
        TreeV::Node(_, l, r) => 1 + if theight(*l) >= theight(*r) {
            theight(*l)
        } else {
            theight(*r)
        },
    }
}

/// Every cached height inside the tree equals the true height of the subtree
/// it annotates.
pub open spec fn tree_wf(t: BCSTree) -> bool
    decreases t,
{
    match t {
        BCSTree::Leaf(_) => true,
        BCSTree::Node(_, l, r) => l.h == theight(l@) && r.h == theight(r@) && tree_wf(*l.t)
            && tree_wf(*r.t),
    }
}

/// A tree-with-height is well formed when its own cached height and all the
/// cached heights inside it are true.
pub open spec fn twh_wf(w: Twh) -> bool {
    &&& w.h == theight(w@)
    &&& tree_wf(*w.t)
}

/// Every tree has at least one leaf.
pub proof fn lemma_tsize_pos(t: TreeV)
    ensures
        tsize(t) >= 1,
    decreases t,
{
    match t {
        TreeV::Leaf(_) => {},
        TreeV::Node(_, l, r) => {
            lemma_tsize_pos(*l);
            lemma_tsize_pos(*r);
        },
    }
}

/// The height of a subtree is bounded by its leaf count.
pub proof fn lemma_height_lt_size(t: TreeV)
    ensures
        theight(t) < tsize(t),
    decreases t,
{
    match t {
        TreeV::Leaf(_) => {},
        TreeV::Node(_, l, r) => {
            lemma_height_lt_size(*l);
            lemma_height_lt_size(*r);
        },
    }
}

impl Clone for BCSTree {
    fn clone(&self) -> (res: Self)
        ensures
            res@ == self@,
            tree_wf(*self) ==> tree_wf(res),
        decreases *self,
    {
        match self {
            BCSTree::Leaf(d) => BCSTree::Leaf(d.clone()),
            BCSTree::Node(m, l, r) => BCSTree::Node(*m, l.clone(), r.clone()),
        }
    }
}

impl Clone for Twh {
    fn clone(&self) -> (res: Self)
        ensures
            res@ == self@,
            res.h == self.h,
            twh_wf(*self) ==> twh_wf(res),
        decreases *self,
    {
        Twh { t: Box::new((*self.t).clone()), h: self.h }
    }
}

impl BCSTree {
    /// Number of leaves of the tree.
    pub fn size(&self) -> (r: usize)
        requires
            tsize(self@) <= usize::MAX,
        ensures
            r == tsize(self@),
        decreases *self,
    {
        match self {
            BCSTree::Leaf(_) => 1,
            BCSTree::Node(_, l, r) => {
                let a = l.t.size();
                let b = r.t.size();
                a + b
            },
        }
    }
}

/// Compares two trees structurally; the cached heights do not take part,
/// as well-formedness pins them down.
pub fn tree_eq(a: &BCSTree, b: &BCSTree) -> (r: bool)
    ensures
        r == (a@ == b@),
    decreases *a,
{
    match (a, b) {
        (BCSTree::Leaf(x), BCSTree::Leaf(y)) => {
            let r = data_eq(x, y);
            proof {
                if r {
                    assert(a@ =~= b@);
                }
            }
            r
        },
        (BCSTree::Node(m0, l0, r0), BCSTree::Node(m1, l1, r1)) => {
            let r = meta_eq(m0, m1) && tree_eq(&l0.t, &l1.t) && tree_eq(&r0.t, &r1.t);
            proof {
                if r {
                    assert(a@ =~= b@);
                }
            }
            r
        },
        _ => false,
    }
}

/// Compares two trees-with-heights structurally.
pub fn twh_eq(a: &Twh, b: &Twh) -> (r: bool)
    ensures
        r == (a@ == b@),
{
    tree_eq(&a.t, &b.t)
}

/// Wraps a tree together with its true height; the caller supplies the
/// height of each child.
pub fn mk_node(m: Metadata, l: Twh, r: Twh) -> (out: Twh)
    requires
        twh_wf(l),
        twh_wf(r),
        theight(l@) < usize::MAX,
        theight(r@) < usize::MAX,
    ensures
        out@ == TreeV::Node(m, Box::new(l@), Box::new(r@)),
        twh_wf(out),
        out.h == theight(out@),
{
    let h = if l.h >= r.h {
        l.h
    } else {
        r.h
    };
    Twh { t: Box::new(BCSTree::Node(m, l, r)), h: h + 1 }
}

/// Wraps a leaf, whose height is zero.
pub fn mk_leaf(d: Data) -> (out: Twh)
    ensures
        out@ == TreeV::Leaf(d@),
        twh_wf(out),
{
    Twh { t: Box::new(BCSTree::Leaf(d)), h: 0 }
}

/// The synthetic nil leaf as a tree-with-height.
pub fn nil_twh() -> (out: Twh)
    ensures
        out@ == TreeV::Leaf(spec_data_nil()),
        twh_wf(out),
{
    mk_leaf(data_nil())
}

/// Newlines and spaces needed to move the cursor from `(line, col)` to
/// `(xl, xc)`.
pub open spec fn pad_of(line: nat, col: nat, xl: nat, xc: nat) -> Seq<u8> {
    let nl: nat = if line < xl {
        (xl - line) as nat
    } else {
        0
    };
    let c0: nat = if line < xl {
        0
    } else {
        col
    };
    let sp: nat = if c0 < xc {
        (xc - c0) as nat
    } else {
        0
    };
    Seq::new(nl, |i: int| 10u8) + Seq::new(sp, |i: int| 32u8)
}

/// Text a tree renders to, starting at cursor `(line, col)`, together with
/// the cursor after the walk.  Nil leaves are skipped; any other leaf pads
/// with newlines and spaces to its start position and then emits its text.
pub open spec fn render_of(t: TreeV, line: nat, col: nat) -> (Seq<u8>, nat, nat)
    decreases t,
{
    match t {
        TreeV::Leaf(x) => if x == spec_data_nil() {
            (Seq::<u8>::empty(), line, col)
        } else {
            (
                pad_of(line, col, x.span.row_start as nat, x.span.col_start as nat) + x.text,
                x.span.row_end as nat,
                x.span.col_end as nat,
            )
        },
        TreeV::Node(_, l, r) => {
            let left = render_of(*l, line, col);
            let right = render_of(*r, left.1, left.2);
            (left.0 + right.0, right.1, right.2)
        },
    }
}

fn bcst_to_code_rec(t: &BCSTree, s: &mut Vec<u8>, line: usize, col: usize) -> (pos: (usize, usize))
    ensures
        final(s)@ == old(s)@ + render_of(t@, line as nat, col as nat).0,
        pos.0 as nat == render_of(t@, line as nat, col as nat).1,
        pos.1 as nat == render_of(t@, line as nat, col as nat).2,
    decreases *t,
{
    match t {
        BCSTree::Leaf(x) => {
            let nil = data_nil();
            if data_eq(x, &nil) {
                proof {
                    assert(s@ =~= old(s)@ + render_of(t@, line as nat, col as nat).0);
                }
                return (line, col);
            }
            let xl = x.span.row_start;
            let xc = x.span.col_start;
            let ghost s0 = s@;
            let mut line = line;
            let mut col = col;
            let ghost nl: nat = if (line as nat) < xl as nat {
                (xl as nat - line as nat) as nat
            } else {
                0
            };
            let ghost line_in: nat = line as nat;
            let ghost col_in: nat = col as nat;
            while line < xl
                invariant
                    line_in <= line as nat <= if line_in < xl as nat {
                        xl as nat
                    } else {
                        line_in
                    },
                    line_in < xl as nat || line as nat == line_in,
                    col as nat == if line as nat == line_in {
                        col_in
                    } else {
                        0
                    },
                    s@ == s0 + Seq::new((line - line_in) as nat, |i: int| 10u8),
                decreases xl as int - line as int,
            {
                s.push(10u8);
                line += 1;
                col = 0;
                proof {
                    assert(s@ =~= s0 + Seq::new((line - line_in) as nat, |i: int| 10u8));
                }
            }
            proof {
                assert(s@ =~= s0 + Seq::new(nl, |i: int| 10u8));
            }
            let ghost s1 = s@;
            let ghost c0: nat = col as nat;
            let ghost sp: nat = if c0 < xc as nat {
                (xc as nat - c0) as nat
            } else {
                0
            };
            while col < xc
                invariant
                    c0 <= col as nat <= if c0 < xc as nat {
                        xc as nat
                    } else {
                        c0
                    },
                    s@ == s1 + Seq::new((col - c0) as nat, |i: int| 32u8),
                decreases xc as int - col as int,
            {
                s.push(32u8);
                col += 1;
                proof {
                    assert(s@ =~= s1 + Seq::new((col - c0) as nat, |i: int| 32u8));
                }
            }
            proof {
                assert(s@ =~= s0 + pad_of(line_in, col_in, xl as nat, xc as nat));
            }
            let mut i: usize = 0;
            let ghost s2 = s@;
            while i < x.text.len()
                invariant
                    i <= x.text.len(),
                    s@ == s2 + x.text@.take(i as int),
                decreases x.text.len() - i,
            {
                let b = x.text[i];
                s.push(b);
                i += 1;
                proof {
                    assert(s@ =~= s2 + x.text@.take(i as int));
                }
            }
            proof {
                assert(x.text@.take(x.text@.len() as int) =~= x.text@);
                assert(s@ =~= s0 + render_of(t@, line_in, col_in).0);
            }
            (x.span.row_end, x.span.col_end)
        },
        BCSTree::Node(_, l, r) => {
            let p0 = bcst_to_code_rec(&l.t, s, line, col);
            let p1 = bcst_to_code_rec(&r.t, s, p0.0, p0.1);
            proof {
                assert(s@ =~= old(s)@ + render_of(t@, line as nat, col as nat).0);
            }
            p1
        },
    }
}

/// Renders a tree back to source text.  Provided every leaf carries its
/// original span and text, this yields the original source byte for byte.
pub fn bcst_to_code(t: &BCSTree) -> (s: Vec<u8>)
    ensures
        s@ == render_of(t@, 0, 0).0,
{
    let mut s = Vec::new();
    bcst_to_code_rec(t, &mut s, 0, 0);
    proof {
        assert(s@ =~= render_of(t@, 0, 0).0);
    }
    s
}

} // verus!
