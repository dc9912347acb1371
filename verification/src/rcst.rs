//! Rose concrete syntax tree: the intermediate representation between the
//! parser and the binary tree, together with the conversions in both
//! directions.
//!
//! Encoding a rose node writes its first child on the left and the remaining
//! children down the right spine, each wrapped in a node carrying the
//! synthetic cons metadata and terminated by the synthetic nil leaf.
//! Decoding walks that spine back; on a tree that does not follow the
//! encoding it reports a structural error instead of a children list.

use crate::bcst::{BCSTree, TreeV, Twh, mk_leaf, mk_node, nil_twh, theight, twh_wf};
use crate::data::{Data, DataV, Metadata, data_eq, data_nil, meta_eq, meta_cons, spec_data_nil,
    spec_meta_cons};
use vstd::prelude::*;

verus! {

/// A linked list of children.
#[derive(Debug, PartialEq, Eq, Hash)]
pub enum List<A> {
    Cons(A, Box<List<A>>),
    Nil,
}

/// The head of a list, if any.
pub open spec fn spec_car<A>(l: List<A>) -> Option<A> {
    match l {
        List::Nil => None,
        List::Cons(x, _) => Some(x),
    }
}

/// The tail of a list, if any.
pub open spec fn spec_cdr<A>(l: List<A>) -> Option<List<A>> {
    match l {
        List::Nil => None,
        List::Cons(_, xs) => Some(*xs),
    }
}

impl<A> List<A> {
    /// The first element, or nothing on an empty list.
    pub fn car(&self) -> (r: Option<&A>)
        ensures
            match r {
                None => spec_car(*self) is None,
                Some(x) => spec_car(*self) == Some(*x),
            },
    {
        match self {
            List::Nil => None,
            List::Cons(x, _) => Some(x),
        }
    }

    /// The rest of the list, or nothing on an empty list.
    pub fn cdr(&self) -> (r: Option<&List<A>>)
        ensures
            match r {
                None => spec_cdr(*self) is None,
                Some(xs) => spec_cdr(*self) == Some(*xs),
            },
    {
        match self {
            List::Nil => None,
            List::Cons(_, xs) => Some(xs),
        }
    }
}

/// Rose concrete syntax tree: a leaf, or a node with an ordered children
/// list.
#[derive(Debug, PartialEq, Eq, Hash)]
pub enum RCSTree {
    Leaf(Data),
    Node(Metadata, List<Box<RCSTree>>),
}

/// Mathematical value of a rose tree: children as a sequence.
#[verifier::ext_equal]
pub enum RoseV {
    Leaf(DataV),
    Node(Metadata, Seq<RoseV>),
}

/// View of a rose tree.
pub open spec fn rose_view(t: RCSTree) -> RoseV
    decreases t,
{
    match t {
        RCSTree::Leaf(d) => RoseV::Leaf(d@),
        RCSTree::Node(m, cs) => RoseV::Node(m, list_view(cs)),
    }
}

/// View of a children list.
pub open spec fn list_view(l: List<Box<RCSTree>>) -> Seq<RoseV>
    decreases l,
{
    match l {
        List::Nil => Seq::empty(),
        List::Cons(x, xs) => seq![rose_view(*x)] + list_view(*xs),
    }
}

impl View for RCSTree {
    type V = RoseV;

    open spec fn view(&self) -> RoseV {
        rose_view(*self)
    }
}

/// A rose tree in which every node has at least one child, as the parser
/// produces them: a parser node without children becomes a leaf.
pub open spec fn rose_wf(r: RoseV) -> bool
    decreases r,
{
    match r {
        RoseV::Leaf(_) => true,
        RoseV::Node(_, cs) => cs.len() >= 1 && forall|i: int|
            0 <= i < cs.len() ==> rose_wf(#[trigger] cs[i]),
    }
}

/// Binary encoding of a rose tree.
pub open spec fn bin_of(r: RoseV) -> TreeV
    decreases r,
{
    match r {
        RoseV::Leaf(x) => TreeV::Leaf(x),
        RoseV::Node(m, cs) => if cs.len() == 0 {
            TreeV::Node(
                m,
                Box::new(TreeV::Leaf(spec_data_nil())),
                Box::new(TreeV::Leaf(spec_data_nil())),
            )
        } else {
            TreeV::Node(m, Box::new(bin_of(cs[0])), Box::new(tail_of(cs.skip(1))))
        },
    }
}

/// Binary encoding of the later siblings: the right spine of cons nodes,
/// terminated by the nil leaf.
pub open spec fn tail_of(s: Seq<RoseV>) -> TreeV
    decreases s,
{
    if s.len() == 0 {
        TreeV::Leaf(spec_data_nil())
    } else {
        TreeV::Node(spec_meta_cons(), Box::new(bin_of(s[0])), Box::new(tail_of(s.skip(1))))
    }
}

/// Decodes a binary tree back to a rose tree; nothing on a tree that does
/// not follow the encoding.
pub open spec fn rose_of(t: TreeV) -> Option<RoseV>
    decreases t,
{
    match t {
        TreeV::Leaf(x) => Some(RoseV::Leaf(x)),
        TreeV::Node(m, l, r) => match (rose_of(*l), spine_of(*r)) {
            (Some(c0), Some(rest)) => Some(RoseV::Node(m, seq![c0] + rest)),
            _ => None,
        },
    }
}

/// Decodes the right spine back to the later siblings; nothing when a spine
/// node is not cons-marked or the terminator is not the nil leaf.
pub open spec fn spine_of(t: TreeV) -> Option<Seq<RoseV>>
    decreases t,
{
    if t == TreeV::Leaf(spec_data_nil()) {
        Some(Seq::empty())
    } else {
        match t {
            TreeV::Node(m, a, b) => if m == spec_meta_cons() {
                match (rose_of(*a), spine_of(*b)) {
                    (Some(c), Some(rest)) => Some(seq![c] + rest),
                    _ => None,
                }
            } else {
                None
            },
            _ => None,
        }
    }
}

/// A binary tree that follows the rose encoding: every right child is a
/// well-formed spine.
pub open spec fn tree_rose_wf(t: TreeV) -> bool
    decreases t,
{
    match t {
        TreeV::Leaf(_) => true,
        TreeV::Node(_, l, r) => tree_rose_wf(*l) && spine_wf(*r),
    }
}

/// A well-formed spine: cons nodes whose left children follow the encoding,
/// ended by the nil leaf.
pub open spec fn spine_wf(t: TreeV) -> bool
    decreases t,
{
    if t == TreeV::Leaf(spec_data_nil()) {
        true
    } else {
        match t {
            TreeV::Node(m, a, b) => m == spec_meta_cons() && tree_rose_wf(*a) && spine_wf(*b),
            _ => false,
        }
    }
}

/// Decoding inverts encoding: a rose tree in which every node has children
/// survives the round trip through the binary form unchanged.
pub proof fn lemma_rose_round_trip(r: RoseV)
    requires
        rose_wf(r),
    ensures
        rose_of(bin_of(r)) == Some(r),
    decreases r,
{
    match r {
        RoseV::Leaf(_) => {},
        RoseV::Node(m, cs) => {
            lemma_rose_round_trip(cs[0]);
            lemma_spine_round_trip(cs.skip(1));
            assert(seq![cs[0]] + cs.skip(1) =~= cs);
        },
    }
}

/// Decoding a spine inverts encoding the later siblings.
pub proof fn lemma_spine_round_trip(s: Seq<RoseV>)
    requires
        forall|i: int| 0 <= i < s.len() ==> rose_wf(#[trigger] s[i]),
    ensures
        spine_of(tail_of(s)) == Some(s),
    decreases s,
{
    if s.len() == 0 {
        assert(spine_of(tail_of(s)) == Some(Seq::<RoseV>::empty()));
        assert(Seq::<RoseV>::empty() =~= s);
    } else {
        lemma_rose_round_trip(s[0]);
        lemma_spine_round_trip(s.skip(1));
        assert(tail_of(s) != TreeV::Leaf(spec_data_nil()));
        assert(seq![s[0]] + s.skip(1) =~= s);
    }
}

/// Encoding inverts decoding: a binary tree that follows the encoding
/// decodes to a rose tree whose encoding is the tree itself.
pub proof fn lemma_bin_round_trip(t: TreeV)
    requires
        tree_rose_wf(t),
    ensures
        rose_of(t) is Some,
        bin_of(rose_of(t)->Some_0) == t,
    decreases t,
{
    match t {
        TreeV::Leaf(_) => {},
        TreeV::Node(m, l, r) => {
            lemma_bin_round_trip(*l);
            lemma_spine_bin_round_trip(*r);
            let c0 = rose_of(*l)->Some_0;
            let rest = spine_of(*r)->Some_0;
            let cs = seq![c0] + rest;
            assert(cs[0] == c0);
            assert(cs.skip(1) =~= rest);
            assert(bin_of(RoseV::Node(m, cs)) =~= t);
        },
    }
}

/// Encoding the siblings a spine decodes to rebuilds the spine.
pub proof fn lemma_spine_bin_round_trip(t: TreeV)
    requires
        spine_wf(t),
    ensures
        spine_of(t) is Some,
        tail_of(spine_of(t)->Some_0) == t,
    decreases t,
{
    if t == TreeV::Leaf(spec_data_nil()) {
    } else {
        match t {
            TreeV::Node(m, a, b) => {
                lemma_bin_round_trip(*a);
                lemma_spine_bin_round_trip(*b);
                let c = rose_of(*a)->Some_0;
                let rest = spine_of(*b)->Some_0;
                let s = seq![c] + rest;
                assert(s[0] == c);
                assert(s.skip(1) =~= rest);
                assert(s.len() != 0);
                assert(tail_of(s) =~= t);
            },
            _ => {},
        }
    }
}

/// A structural error: a binary tree handed to the decoder does not follow
/// the rose encoding.
#[derive(Debug, Clone)]
pub struct MalformedTree {
    pub tree: BCSTree,
}

/// Encodes a rose tree into the binary form, computing true cached heights.
pub fn rcst_to_bcst(r: &RCSTree) -> (out: Twh)
    requires
        theight(bin_of(r@)) < usize::MAX,
    ensures
        out@ == bin_of(r@),
        twh_wf(out),
    decreases *r,
{
    match r {
        RCSTree::Leaf(d) => mk_leaf(d.clone()),
        RCSTree::Node(m, cs) => match cs {
            List::Nil => mk_node(*m, nil_twh(), nil_twh()),
            List::Cons(x, xs) => {
                proof {
                    assert(list_view(*cs)[0] == rose_view(**x));
                    assert(list_view(*cs).skip(1) =~= list_view(**xs));
                }
                let left = rcst_to_bcst(x);
                let right = list_tail_to_bcst(xs);
                mk_node(*m, left, right)
            },
        },
    }
}

/// Encodes the later siblings as the right spine.
fn list_tail_to_bcst(l: &List<Box<RCSTree>>) -> (out: Twh)
    requires
        theight(tail_of(list_view(*l))) < usize::MAX,
    ensures
        out@ == tail_of(list_view(*l)),
        twh_wf(out),
    decreases *l,
{
    match l {
        List::Nil => nil_twh(),
        List::Cons(x, xs) => {
            proof {
                assert(list_view(*l)[0] == rose_view(**x));
                assert(list_view(*l).skip(1) =~= list_view(**xs));
            }
            let left = rcst_to_bcst(x);
            let right = list_tail_to_bcst(xs);
            mk_node(meta_cons(), left, right)
        },
    }
}

/// Decodes a binary tree back to a rose tree.  Fails, all or nothing, on a
/// tree that does not follow the rose encoding.
pub fn bcst_to_rcst(t: &BCSTree) -> (out: Result<RCSTree, MalformedTree>)
    ensures
        match out {
            Ok(r) => rose_of(t@) == Some(r@),
            Err(_) => rose_of(t@) is None,
        },
    decreases *t,
{
    match t {
        BCSTree::Leaf(d) => Ok(RCSTree::Leaf(d.clone())),
        BCSTree::Node(m, l, r) => {
            let c0 = match bcst_to_rcst(&l.t) {
                Ok(v) => v,
                Err(e) => {
                    return Err(e);
                },
            };
            let rest = match bcst_spine_to_list(&r.t) {
                Ok(v) => v,
                Err(e) => {
                    return Err(e);
                },
            };
            let out = RCSTree::Node(*m, List::Cons(Box::new(c0), Box::new(rest)));
            proof {
                assert(list_view(List::Cons(Box::new(c0), Box::new(rest))) =~= seq![c0@]
                    + list_view(rest));
            }
            Ok(out)
        },
    }
}

/// Decodes the right spine back to the later siblings.
fn bcst_spine_to_list(t: &BCSTree) -> (out: Result<List<Box<RCSTree>>, MalformedTree>)
    ensures
        match out {
            Ok(l) => spine_of(t@) == Some(list_view(l)),
            Err(_) => spine_of(t@) is None,
        },
    decreases *t,
{
    match t {
        BCSTree::Leaf(d) => {
            let nil = data_nil();
            if data_eq(d, &nil) {
                proof {
                    assert(t@ =~= TreeV::Leaf(spec_data_nil()));
                }
                Ok(List::Nil)
            } else {
                proof {
                    assert(t@ != TreeV::Leaf(spec_data_nil()));
                }
                Err(MalformedTree { tree: t.clone() })
            }
        },
        BCSTree::Node(m, a, b) => {
            let cons = meta_cons();
            if meta_eq(m, &cons) {
                let c = match bcst_to_rcst(&a.t) {
                    Ok(v) => v,
                    Err(e) => {
                        return Err(e);
                    },
                };
                let rest = match bcst_spine_to_list(&b.t) {
                    Ok(v) => v,
                    Err(e) => {
                        return Err(e);
                    },
                };
                let out = List::Cons(Box::new(c), Box::new(rest));
                proof {
                    assert(list_view(List::Cons(Box::new(c), Box::new(rest))) =~= seq![c@]
                        + list_view(rest));
                }
                Ok(out)
            } else {
                Err(MalformedTree { tree: t.clone() })
            }
        },
    }
}

} // verus!
