//! The tree differ: a best-first search over an edit graph whose nodes are
//! pairs of tree positions and whose edges are candidate edit operations.
//!
//! A queue entry carries the pending comparison together with the chain of
//! constructors that will wrap its answer, so a popped terminal yields a
//! complete diff at once.  A joined node spawns two independent sub-searches
//! whose answers become the children of a `TEps` or `TMod`.  The search is
//! bounded by a step budget; whenever it cannot finish, or its answer fails
//! the final validity and weight checks, the shallow `Mod` of the two whole
//! trees stands in, which is always a valid diff.

use crate::bcst::{BCSTree, TreeV, Twh, lemma_tsize_pos, theight, tree_eq, tsize, twh_eq, twh_wf};
use crate::data::{Data, DataV, Metadata, meta_eq, span_eq, bytes_eq};
use crate::diff::{Diff, DiffV, capn, diff_eq, diff_wf, dweight, no_err, sat_add, size_capped,
    weight_capped};
use crate::patch::{dtrees_capped, patch, spec_patch};
use vstd::prelude::*;

verus! {

/// A constructor waiting to wrap the answer of a pending comparison.
enum Frame {
    AddL(Metadata, Twh),
    AddR(Metadata, Twh),
    DelL,
    DelR,
}

/// The trees a frame stores are well formed.
spec fn frame_ok(fr: Frame) -> bool {
    match fr {
        Frame::AddL(_, t) => twh_wf(t),
        Frame::AddR(_, t) => twh_wf(t),
        Frame::DelL => true,
        Frame::DelR => true,
    }
}

spec fn ctx_ok(ctx: Seq<Frame>) -> bool {
    forall|i: int| 0 <= i < ctx.len() ==> frame_ok(#[trigger] ctx[i])
}

/// A search node: a pending comparison, a joined pair of comparisons, or a
/// terminal carrying a finished diff.
enum SearchNode {
    Next(Twh, Twh),
    NextLr(Metadata, Option<Metadata>, Twh, Twh, Twh, Twh),
    Final(Diff),
}

/// Structural soundness of a search node: its trees are well formed, a
/// pending pair is no larger than the search root, and each half of a joined
/// pair is strictly smaller, so that sub-searches terminate.
spec fn node_ok(n: SearchNode, bound: nat) -> bool {
    match n {
        SearchNode::Next(a, b) => twh_wf(a) && twh_wf(b) && tsize(a@) + tsize(b@) <= bound,
        SearchNode::NextLr(_, _, a0, b0, a1, b1) => twh_wf(a0) && twh_wf(b0) && twh_wf(a1)
            && twh_wf(b1) && tsize(a0@) + tsize(b0@) < bound && tsize(a1@) + tsize(b1@) < bound,
        SearchNode::Final(d) => diff_wf(d) && no_err(d@),
    }
}

/// A queue entry: priority, cost so far, the node, and the constructors that
/// will wrap its answer.
struct Entry {
    f: usize,
    g: usize,
    node: SearchNode,
    ctx: Vec<Frame>,
}

spec fn entry_ok(e: Entry, bound: nat) -> bool {
    node_ok(e.node, bound) && ctx_ok(e.ctx@)
}

/// A node paired with the best cost known for it.
struct GScore {
    node: SearchNode,
    g: usize,
}

fn clone_frame(fr: &Frame) -> (out: Frame)
    ensures
        frame_ok(*fr) ==> frame_ok(out),
        frame_v(out) == frame_v(*fr),
{
    match fr {
        Frame::AddL(m, t) => Frame::AddL(*m, t.clone()),
        Frame::AddR(m, t) => Frame::AddR(*m, t.clone()),
        Frame::DelL => Frame::DelL,
        Frame::DelR => Frame::DelR,
    }
}

fn clone_ctx(ctx: &Vec<Frame>) -> (out: Vec<Frame>)
    ensures
        ctx_ok(ctx@) ==> ctx_ok(out@),
        ctx_v(out@) == ctx_v(ctx@),
{
    let mut out: Vec<Frame> = Vec::new();
    let mut i: usize = 0;
    while i < ctx.len()
        invariant
            i <= ctx@.len(),
            out@.len() == i,
            ctx_ok(ctx@) ==> ctx_ok(out@),
            forall|j: int| 0 <= j < i ==> frame_v(out@[j]) == frame_v(#[trigger] ctx@[j]),
        decreases ctx@.len() - i,
    {
        out.push(clone_frame(&ctx[i]));
        i += 1;
    }
    proof {
        assert(ctx_v(out@) =~= ctx_v(ctx@));
    }
    out
}

fn clone_node(n: &SearchNode) -> (out: SearchNode)
    ensures
        node_v(out) == node_v(*n),
        node_wf(*n) ==> node_wf(out),
{
    match n {
        SearchNode::Next(a, b) => SearchNode::Next(a.clone(), b.clone()),
        SearchNode::NextLr(m0, m1, a0, b0, a1, b1) => SearchNode::NextLr(
            *m0,
            *m1,
            a0.clone(),
            b0.clone(),
            a1.clone(),
            b1.clone(),
        ),
        SearchNode::Final(d) => SearchNode::Final(d.clone()),
    }
}

fn opt_meta_eq(a: &Option<Metadata>, b: &Option<Metadata>) -> (r: bool)
    ensures
        r == (a == b),
{
    match (a, b) {
        (None, None) => true,
        (Some(x), Some(y)) => meta_eq(x, y),
        _ => false,
    }
}

/// Structural identity of search nodes, used to collapse two enumerations
/// that reach the same pair.
fn node_eq(a: &SearchNode, b: &SearchNode) -> (r: bool)
    requires
        node_wf(*a),
        node_wf(*b),
    ensures
        r == (node_v(*a) == node_v(*b)),
{
    match (a, b) {
        (SearchNode::Next(a0, b0), SearchNode::Next(a1, b1)) => {
            let r = twh_eq(a0, a1) && twh_eq(b0, b1);
            proof {
                if r {
                    assert(node_v(*a) =~= node_v(*b));
                }
            }
            r
        },
        (
            SearchNode::NextLr(m0, n0, a0, b0, c0, d0),
            SearchNode::NextLr(m1, n1, a1, b1, c1, d1),
        ) => {
            let r = meta_eq(m0, m1) && opt_meta_eq(n0, n1) && twh_eq(a0, a1) && twh_eq(b0, b1)
                && twh_eq(c0, c1) && twh_eq(d0, d1);
            proof {
                if r {
                    assert(node_v(*a) =~= node_v(*b));
                }
            }
            r
        },
        (SearchNode::Final(d0), SearchNode::Final(d1)) => {
            let r = diff_eq(d0, d1);
            proof {
                if r {
                    assert(node_v(*a) =~= node_v(*b));
                }
            }
            r
        },
        _ => false,
    }
}

/// The smaller of two recorded costs, either side possibly missing.
pub open spec fn omin(a: Option<nat>, b: Option<nat>) -> Option<nat> {
    match (a, b) {
        (None, x) => x,
        (Some(v), None) => Some(v),
        (Some(v), Some(w)) => Some(nmin(v, w)),
    }
}

/// The best cost recorded for a node, if any.
#[verifier::loop_isolation(false)]
fn g_lookup(gs: &Vec<GScore>, n: &SearchNode) -> (out: Option<usize>)
    requires
        gs_wf(gs@),
        node_wf(*n),
    ensures
        match out {
            None => g_best(gs_v(gs@), node_v(*n)) is None,
            Some(v) => g_best(gs_v(gs@), node_v(*n)) == Some(v as nat),
        },
{
    let ghost gv = gs_v(gs@);
    let ghost nv = node_v(*n);
    let mut best: Option<usize> = None;
    let mut i: usize = 0;
    proof {
        assert(gv.skip(0) =~= gv);
    }
    while i < gs.len()
        invariant
            i <= gs@.len(),
            g_best(gv, nv) == omin(
                match best {
                    None => None,
                    Some(v) => Some(v as nat),
                },
                g_best(gv.skip(i as int), nv),
            ),
        decreases gs@.len() - i,
    {
        proof {
            assert(gv.skip(i as int)[0] == gv[i as int]);
            assert(gv[i as int] == (node_v(gs@[i as int].node), gs@[i as int].g as nat));
            assert(gv.skip(i as int).skip(1) =~= gv.skip(i as int + 1));
        }
        if node_eq(&gs[i].node, n) {
            best = match best {
                None => Some(gs[i].g),
                Some(b) => if gs[i].g < b {
                    Some(gs[i].g)
                } else {
                    Some(b)
                },
            };
        }
        i += 1;
    }
    proof {
        assert(gv.skip(i as int).len() == 0);
    }
    best
}

/// The admissible heuristic: the smaller height of a pending pair.
fn h_next(a: &Twh, b: &Twh) -> (r: usize)
    requires
        twh_wf(*a),
        twh_wf(*b),
    ensures
        r as nat == spec_hnext(a@, b@),
{
    if a.h <= b.h {
        a.h
    } else {
        b.h
    }
}

/// Removes and returns the entry with the least priority, first in first out
/// among equals: exactly the entry `pop_idx` names.
#[verifier::loop_isolation(false)]
fn pop_min(entries: &mut Vec<Entry>, Ghost(bound): Ghost<nat>) -> (out: Entry)
    requires
        old(entries)@.len() > 0,
        forall|i: int| 0 <= i < old(entries)@.len() ==> entry_ok(#[trigger] old(entries)@[i], bound),
    ensures
        entry_ok(out, bound),
        entry_v(out) == entries_v(old(entries)@)[pop_idx(entries_v(old(entries)@))],
        entries_v(final(entries)@) == entries_v(old(entries)@).remove(
            pop_idx(entries_v(old(entries)@)),
        ),
        final(entries)@.len() == old(entries)@.len() - 1,
        forall|i: int| 0 <= i < final(entries)@.len() ==> entry_ok(#[trigger] final(entries)@[i], bound),
{
    let ghost ev = entries_v(entries@);
    let mut best: usize = 0;
    let mut i: usize = 1;
    while i < entries.len()
        invariant
            best < i || (best == 0 && i <= 1),
            i <= entries@.len(),
            best < entries@.len(),
            forall|j: int| 0 <= j < i ==> entries@[best as int].f <= #[trigger] entries@[j].f,
            forall|j: int| 0 <= j < best ==> #[trigger] entries@[j].f > entries@[best as int].f,
        decreases entries@.len() - i,
    {
        if entries[i].f < entries[best].f {
            best = i;
        }
        i += 1;
    }
    proof {
        lemma_pop_idx(ev);
        let pi = pop_idx(ev);
        assert(forall|j: int| 0 <= j < ev.len() ==> ev[j] == entry_v(#[trigger] entries@[j]));
        if (best as int) < pi {
            assert(ev[best as int].f > ev[pi].f);
            assert(entries@[best as int].f <= entries@[pi].f);
            assert(false);
        }
        if pi < (best as int) {
            assert(entries@[pi].f > entries@[best as int].f);
            assert(ev[pi].f <= ev[best as int].f);
            assert(false);
        }
        assert(best as int == pi);
    }
    let out = entries.remove(best);
    proof {
        assert(entries_v(entries@) =~= entries_v(old(entries)@).remove(best as int));
        assert forall|j: int| 0 <= j < entries@.len() implies entry_ok(
            #[trigger] entries@[j],
            bound,
        ) by {
            if j < best {
                assert(entries@[j] == old(entries)@[j]);
            } else {
                assert(entries@[j] == old(entries)@[j + 1]);
            }
        }
    }
    out
}


/// Mathematical value of a pending constructor.
#[verifier::ext_equal]
pub enum FrameV {
    AddL(Metadata, TreeV),
    AddR(Metadata, TreeV),
    DelL,
    DelR,
}

/// Mathematical value of a search node.
#[verifier::ext_equal]
pub enum NodeV {
    Next(TreeV, TreeV),
    NextLr(Metadata, Option<Metadata>, TreeV, TreeV, TreeV, TreeV),
    Final(DiffV),
}

/// Mathematical value of a queue entry.
#[verifier::ext_equal]
pub struct EntryV {
    pub f: nat,
    pub g: nat,
    pub node: NodeV,
    pub ctx: Seq<FrameV>,
}

spec fn frame_v(fr: Frame) -> FrameV {
    match fr {
        Frame::AddL(m, t) => FrameV::AddL(m, t@),
        Frame::AddR(m, t) => FrameV::AddR(m, t@),
        Frame::DelL => FrameV::DelL,
        Frame::DelR => FrameV::DelR,
    }
}

spec fn ctx_v(ctx: Seq<Frame>) -> Seq<FrameV> {
    ctx.map_values(|fr: Frame| frame_v(fr))
}

spec fn node_v(n: SearchNode) -> NodeV {
    match n {
        SearchNode::Next(a, b) => NodeV::Next(a@, b@),
        SearchNode::NextLr(m0, m1, a0, b0, a1, b1) => NodeV::NextLr(m0, m1, a0@, b0@, a1@, b1@),
        SearchNode::Final(d) => NodeV::Final(d@),
    }
}

spec fn entry_v(e: Entry) -> EntryV {
    EntryV { f: e.f as nat, g: e.g as nat, node: node_v(e.node), ctx: ctx_v(e.ctx@) }
}

spec fn entries_v(s: Seq<Entry>) -> Seq<EntryV> {
    s.map_values(|e: Entry| entry_v(e))
}

spec fn gs_v(s: Seq<GScore>) -> Seq<(NodeV, nat)> {
    s.map_values(|g: GScore| (node_v(g.node), g.g as nat))
}

/// The trees and diffs a search node carries are well formed, so that the
/// cached heights it is judged by are the true ones.
spec fn node_wf(n: SearchNode) -> bool {
    match n {
        SearchNode::Next(a, b) => twh_wf(a) && twh_wf(b),
        SearchNode::NextLr(_, _, a0, b0, a1, b1) => twh_wf(a0) && twh_wf(b0) && twh_wf(a1)
            && twh_wf(b1),
        SearchNode::Final(d) => diff_wf(d),
    }
}

spec fn gs_wf(s: Seq<GScore>) -> bool {
    forall|i: int| 0 <= i < s.len() ==> node_wf(#[trigger] s[i].node)
}

/// The smaller of two numbers.
pub open spec fn nmin(a: nat, b: nat) -> nat {
    if a <= b {
        a
    } else {
        b
    }
}

/// The admissible heuristic of a pending pair: the smaller height.
pub open spec fn spec_hnext(a: TreeV, b: TreeV) -> nat {
    nmin(theight(a), theight(b))
}

/// The best cost the score list records for a node, if any.
pub open spec fn g_best(gs: Seq<(NodeV, nat)>, n: NodeV) -> Option<nat>
    decreases gs.len(),
{
    if gs.len() == 0 {
        None
    } else {
        let rest = g_best(gs.skip(1), n);
        if gs[0].0 == n {
            match rest {
                None => Some(gs[0].1),
                Some(b) => Some(nmin(gs[0].1, b)),
            }
        } else {
            rest
        }
    }
}

/// The entry the queue pops: the first one with the least priority.
pub open spec fn pop_idx(s: Seq<EntryV>) -> int
    decreases s.len(),
{
    if s.len() <= 1 {
        0
    } else {
        let r = pop_idx(s.skip(1));
        if s[0].f <= s.skip(1)[r].f {
            0
        } else {
            r + 1
        }
    }
}

proof fn lemma_pop_idx(s: Seq<EntryV>)
    requires
        s.len() > 0,
    ensures
        0 <= pop_idx(s) < s.len(),
        forall|j: int| 0 <= j < s.len() ==> s[pop_idx(s)].f <= #[trigger] s[j].f,
        forall|j: int| 0 <= j < pop_idx(s) ==> #[trigger] s[j].f > s[pop_idx(s)].f,
    decreases s.len(),
{
    if s.len() > 1 {
        lemma_pop_idx(s.skip(1));
        let r = pop_idx(s.skip(1));
        assert forall|j: int| 1 <= j < s.len() implies s.skip(1)[r].f <= #[trigger] s[j].f by {
            assert(s[j] == s.skip(1)[j - 1]);
        }
        if s[0].f > s.skip(1)[r].f {
            assert(s[pop_idx(s)] == s.skip(1)[r]);
            assert forall|j: int| 0 <= j < pop_idx(s) implies #[trigger] s[j].f > s[pop_idx(
                s,
            )].f by {
                if j > 0 {
                    assert(s[j] == s.skip(1)[j - 1]);
                }
            }
        }
    }
}

/// One constructor wrapped around an answer.
pub open spec fn apply_frame_v(fr: FrameV, d: DiffV) -> DiffV {
    match fr {
        FrameV::AddL(m, t) => DiffV::AddL(m, Box::new(t), Box::new(d)),
        FrameV::AddR(m, t) => DiffV::AddR(m, Box::new(d), Box::new(t)),
        FrameV::DelL => DiffV::DelL(Box::new(d)),
        FrameV::DelR => DiffV::DelR(Box::new(d)),
    }
}

/// An answer wrapped in its entry's constructors, innermost last.
pub open spec fn apply_ctx_v(d: DiffV, ctx: Seq<FrameV>) -> DiffV
    decreases ctx.len(),
{
    if ctx.len() == 0 {
        d
    } else {
        apply_ctx_v(apply_frame_v(ctx.last(), d), ctx.drop_last())
    }
}

/// Admits a neighbour unless a cheaper way to the same node is recorded;
/// its priority is cost so far plus the heuristic.
pub open spec fn spec_push(
    entries: Seq<EntryV>,
    gs: Seq<(NodeV, nat)>,
    node: NodeV,
    ctx: Seq<FrameV>,
    tg: nat,
    h: nat,
) -> (Seq<EntryV>, Seq<(NodeV, nat)>) {
    let better = match g_best(gs, node) {
        None => true,
        Some(kg) => tg < kg,
    };
    if better {
        (entries.push(EntryV { f: capn(tg + h), g: tg, node, ctx }), gs.push((node, tg)))
    } else {
        (entries, gs)
    }
}

/// The neighbours of a pending comparison, admitted in the fixed order the
/// edit graph enumerates them.
pub open spec fn spec_expand(
    entries: Seq<EntryV>,
    gs: Seq<(NodeV, nat)>,
    a: TreeV,
    b: TreeV,
    g: nat,
    ctx: Seq<FrameV>,
) -> (Seq<EntryV>, Seq<(NodeV, nat)>) {
    match (a, b) {
        (TreeV::Leaf(x), TreeV::Leaf(y)) => {
            let d = match spec_diff_leaf(x, y) {
                Some(d) => d,
                None => DiffV::Mod(Box::new(a), Box::new(b)),
            };
            let cost: nat = match d {
                DiffV::Mod(_, _) => capn(theight(a) + theight(b)),
                _ => 0,
            };
            spec_push(entries, gs, NodeV::Final(d), ctx, capn(g + cost), 0)
        },
        (TreeV::Node(ma, x0, y0), TreeV::Node(mb, x1, y1)) => {
            let st1 = spec_push(
                entries,
                gs,
                NodeV::Next(a, *y1),
                ctx.push(FrameV::AddL(mb, *x1)),
                capn(g + 1),
                spec_hnext(a, *y1),
            );
            let st2 = spec_push(
                st1.0,
                st1.1,
                NodeV::Next(a, *x1),
                ctx.push(FrameV::AddR(mb, *y1)),
                capn(g + 1),
                spec_hnext(a, *x1),
            );
            let st3 = spec_push(
                st2.0,
                st2.1,
                NodeV::Next(*y0, b),
                ctx.push(FrameV::DelL),
                capn(g + 1),
                spec_hnext(*y0, b),
            );
            let st4 = spec_push(
                st3.0,
                st3.1,
                NodeV::Next(*x0, b),
                ctx.push(FrameV::DelR),
                capn(g + 1),
                spec_hnext(*x0, b),
            );
            let hlr = nmin(spec_hnext(*x0, *x1), spec_hnext(*y0, *y1));
            if ma == mb {
                spec_push(st4.0, st4.1, NodeV::NextLr(ma, None, *x0, *x1, *y0, *y1), ctx, g, hlr)
            } else {
                let st5 = spec_push(
                    st4.0,
                    st4.1,
                    NodeV::NextLr(ma, Some(mb), *x0, *x1, *y0, *y1),
                    ctx,
                    g,
                    hlr,
                );
                spec_push(
                    st5.0,
                    st5.1,
                    NodeV::Final(DiffV::Mod(Box::new(a), Box::new(b))),
                    ctx,
                    capn(g + capn(theight(a) + theight(b))),
                    0,
                )
            }
        },
        (TreeV::Leaf(_), TreeV::Node(mb, x1, y1)) => {
            let st1 = spec_push(
                entries,
                gs,
                NodeV::Final(DiffV::Mod(Box::new(a), Box::new(b))),
                ctx,
                capn(g + capn(theight(a) + theight(b))),
                0,
            );
            let st2 = spec_push(
                st1.0,
                st1.1,
                NodeV::Next(a, *y1),
                ctx.push(FrameV::AddL(mb, *x1)),
                capn(g + 1),
                spec_hnext(a, *y1),
            );
            spec_push(
                st2.0,
                st2.1,
                NodeV::Next(a, *x1),
                ctx.push(FrameV::AddR(mb, *y1)),
                capn(g + 1),
                spec_hnext(a, *x1),
            )
        },
        (TreeV::Node(_, x0, y0), TreeV::Leaf(_)) => {
            let st1 = spec_push(
                entries,
                gs,
                NodeV::Final(DiffV::Mod(Box::new(a), Box::new(b))),
                ctx,
                capn(g + capn(theight(a) + theight(b))),
                0,
            );
            let st2 = spec_push(
                st1.0,
                st1.1,
                NodeV::Next(*y0, b),
                ctx.push(FrameV::DelL),
                capn(g + 1),
                spec_hnext(*y0, b),
            );
            spec_push(
                st2.0,
                st2.1,
                NodeV::Next(*x0, b),
                ctx.push(FrameV::DelR),
                capn(g + 1),
                spec_hnext(*x0, b),
            )
        },
    }
}

/// One run of the best-first search, step by step: pop the least entry,
/// drop it when a cheaper cost for its node is on record, return a popped
/// terminal wrapped in its constructors, solve a popped joined node by two
/// sub-searches, and otherwise admit the pending pair's neighbours.  On an
/// exhausted budget or queue the shallow whole-tree replacement stands in.
pub open spec fn search_steps(
    l: TreeV,
    r: TreeV,
    entries: Seq<EntryV>,
    gs: Seq<(NodeV, nat)>,
    fuel: nat,
) -> DiffV
    decreases tsize(l) + tsize(r), fuel,
{
    if fuel == 0 || entries.len() == 0 {
        DiffV::Mod(Box::new(l), Box::new(r))
    } else {
        let i = pop_idx(entries);
        let e = entries[i];
        let rest = entries.remove(i);
        let stale = match g_best(gs, e.node) {
            Some(kg) => kg < e.g,
            None => false,
        };
        if stale {
            search_steps(l, r, rest, gs, (fuel - 1) as nat)
        } else {
            match e.node {
                NodeV::Final(d) => apply_ctx_v(d, e.ctx),
                NodeV::NextLr(m0, m1, a0, b0, a1, b1) => if tsize(a0) + tsize(b0) < tsize(l)
                    + tsize(r) && tsize(a1) + tsize(b1) < tsize(l) + tsize(r) {
                    let dl = spec_search(a0, b0);
                    let dr = spec_search(a1, b1);
                    let d = match m1 {
                        None => DiffV::TEps(m0, Box::new(dl), Box::new(dr)),
                        Some(mt) => DiffV::TMod(m0, mt, Box::new(dl), Box::new(dr)),
                    };
                    apply_ctx_v(d, e.ctx)
                } else {
                    DiffV::Mod(Box::new(l), Box::new(r))
                },
                NodeV::Next(a, b) => {
                    let st = spec_expand(rest, gs, a, b, e.g, e.ctx);
                    search_steps(l, r, st.0, st.1, (fuel - 1) as nat)
                },
            }
        }
    }
}

/// The diff the best-first search returns for a pair of trees: a function
/// of the two trees alone, so two runs on equal inputs give equal diffs.
pub open spec fn spec_search(l: TreeV, r: TreeV) -> DiffV
    decreases tsize(l) + tsize(r), SEARCH_FUEL as nat + 1,
{
    let start = EntryV { f: spec_hnext(l, r), g: 0, node: NodeV::Next(l, r), ctx: Seq::empty() };
    search_steps(l, r, seq![start], seq![(NodeV::Next(l, r), 0 as nat)], SEARCH_FUEL as nat)
}

/// What the differ returns, as a function of the two trees alone: the
/// identity diff on equal trees; otherwise the search's answer, gated by
/// the weight envelope and the patch round trip, with the shallow
/// whole-tree replacement standing in wherever a gate fails.
pub open spec fn spec_diff_outcome(l: TreeV, r: TreeV) -> DiffV {
    if l == r {
        DiffV::Eps
    } else {
        let cand = spec_search(l, r);
        let fallback = DiffV::Mod(Box::new(l), Box::new(r));
        let cap = capn(1 + capn(capn(tsize(l)) + capn(tsize(r))));
        if capn(dweight(cand)) > cap {
            fallback
        } else {
            let lsz = capn(tsize(l));
            let dsz = capn(crate::patch::dtrees(cand));
            if dsz == usize::MAX as nat || lsz > usize::MAX as nat - dsz {
                fallback
            } else {
                match spec_patch(l, cand) {
                    Some(p) => if p == r {
                        cand
                    } else {
                        fallback
                    },
                    None => fallback,
                }
            }
        }
    }
}

/// How the edit graph compares two leaves: two anonymous tokens give the
/// identity diff when kind, span and text all agree and a leaf rewrite
/// otherwise; two named leaves of one kind give the identity diff when span
/// and text agree and a leaf rewrite otherwise; a named/anonymous or
/// named-kind mismatch gives nothing, and a whole-tree replacement stands in.
pub open spec fn spec_diff_leaf(x: DataV, y: DataV) -> Option<DiffV> {
    if !x.named && !y.named {
        if x.kind == y.kind && x.span == y.span && x.text == y.text {
            Some(DiffV::Eps)
        } else {
            Some(DiffV::RMod(y.kind, y.span, y.byte_start, y.byte_end, y.text))
        }
    } else if x.named && y.named {
        if x.kind != y.kind {
            None
        } else if x.span != y.span || x.text != y.text {
            Some(DiffV::RMod(y.kind, y.span, y.byte_start, y.byte_end, y.text))
        } else {
            Some(DiffV::Eps)
        }
    } else {
        None
    }
}

/// Compares two leaves, exactly as the edit graph's leaf table says.
fn diff_leaf(x: &Data, y: &Data) -> (out: Option<Diff>)
    ensures
        match out {
            Some(d) => diff_wf(d) && no_err(d@) && spec_diff_leaf(x@, y@) == Some(d@),
            None => spec_diff_leaf(x@, y@) is None,
        },
{
    match (x.named, y.named) {
        (false, false) => {
            if kind_pair_eq(x, y) && span_eq(&x.span, &y.span) && bytes_eq(&x.text, &y.text) {
                Some(Diff::Eps)
            } else {
                let d = Diff::RMod(y.kind, y.span, y.byte_start, y.byte_end, y.text.clone());
                proof {
                    assert(d@ =~= spec_diff_leaf(x@, y@)->Some_0);
                }
                Some(d)
            }
        },
        (true, true) => {
            if !kind_pair_eq(x, y) {
                None
            } else if !span_eq(&x.span, &y.span) || !bytes_eq(&x.text, &y.text) {
                let d = Diff::RMod(y.kind, y.span, y.byte_start, y.byte_end, y.text.clone());
                proof {
                    assert(d@ =~= spec_diff_leaf(x@, y@)->Some_0);
                }
                Some(d)
            } else {
                Some(Diff::Eps)
            }
        },
        _ => None,
    }
}

fn kind_pair_eq(x: &Data, y: &Data) -> (r: bool)
    ensures
        r == (x@.kind == y@.kind),
{
    crate::data::kind_eq(&x.kind, &y.kind)
}

/// Wraps a finished answer in the constructors its entry accumulated,
/// innermost last.
#[verifier::loop_isolation(false)]
fn apply_ctx(d: Diff, ctx: Vec<Frame>) -> (out: Diff)
    requires
        diff_wf(d),
        no_err(d@),
        ctx_ok(ctx@),
    ensures
        diff_wf(out),
        no_err(out@),
        out@ == apply_ctx_v(d@, ctx_v(ctx@)),
{
    let ghost d0 = d@;
    let ghost c0 = ctx_v(ctx@);
    let mut out = d;
    let mut i: usize = ctx.len();
    let mut ctx = ctx;
    while i > 0
        invariant
            i == ctx@.len(),
            diff_wf(out),
            no_err(out@),
            ctx_ok(ctx@),
            apply_ctx_v(out@, ctx_v(ctx@)) == apply_ctx_v(d0, c0),
        decreases i,
    {
        i -= 1;
        let ghost cv = ctx_v(ctx@);
        let fr = ctx.pop().unwrap();
        proof {
            assert(frame_ok(fr));
            assert(frame_v(fr) == cv.last());
            assert(ctx_v(ctx@) =~= cv.drop_last());
        }
        let ghost mid = out@;
        out = match fr {
            Frame::AddL(m, t) => Diff::AddL(m, t, Box::new(out)),
            Frame::AddR(m, t) => Diff::AddR(m, Box::new(out), t),
            Frame::DelL => Diff::DelL(Box::new(out)),
            Frame::DelR => Diff::DelR(Box::new(out)),
        };
        proof {
            assert(out@ =~= apply_frame_v(cv.last(), mid));
        }
    }
    proof {
        assert(ctx_v(ctx@).len() == 0);
    }
    out
}

/// Pushes a neighbour unless a cheaper way to the same node is recorded;
/// the queue and the score list change exactly as `spec_push` says.
fn push_candidate(
    entries: &mut Vec<Entry>,
    gs: &mut Vec<GScore>,
    node: SearchNode,
    ctx: Vec<Frame>,
    tg: usize,
    h: usize,
    Ghost(bound): Ghost<nat>,
)
    requires
        node_ok(node, bound),
        ctx_ok(ctx@),
        gs_wf(old(gs)@),
        forall|i: int| 0 <= i < old(entries)@.len() ==> entry_ok(#[trigger] old(entries)@[i], bound),
    ensures
        gs_wf(final(gs)@),
        forall|i: int| 0 <= i < final(entries)@.len() ==> entry_ok(
            #[trigger] final(entries)@[i],
            bound,
        ),
        (entries_v(final(entries)@), gs_v(final(gs)@)) == spec_push(
            entries_v(old(entries)@),
            gs_v(old(gs)@),
            node_v(node),
            ctx_v(ctx@),
            tg as nat,
            h as nat,
        ),
{
    proof {
        assert(node_wf(node));
    }
    let known = g_lookup(gs, &node);
    let better = match known {
        None => true,
        Some(kg) => tg < kg,
    };
    if better {
        gs.push(GScore { node: clone_node(&node), g: tg });
        let f = sat_add(tg, h);
        entries.push(Entry { f, g: tg, node, ctx });
        proof {
            assert(gs_v(gs@) =~= gs_v(old(gs)@).push((node_v(node), tg as nat)));
            assert(entries_v(entries@) =~= entries_v(old(entries)@).push(
                EntryV { f: capn(tg as nat + h as nat), g: tg as nat, node: node_v(node), ctx: ctx_v(ctx@) },
            ));
        }
    } else {
        proof {
            assert(entries_v(entries@) =~= spec_push(
                entries_v(old(entries)@),
                gs_v(old(gs)@),
                node_v(node),
                ctx_v(ctx@),
                tg as nat,
                h as nat,
            ).0);
            assert(gs_v(gs@) =~= spec_push(
                entries_v(old(entries)@),
                gs_v(old(gs)@),
                node_v(node),
                ctx_v(ctx@),
                tg as nat,
                h as nat,
            ).1);
        }
    }
}

/// The step budget of one search.  On exhaustion the caller falls back to
/// the shallow whole-tree replacement, which is always valid.
pub const SEARCH_FUEL: u64 = 1000000;

/// Best-first search for a low-weight diff between `left` and `right`:
/// exactly the diff `spec_search` names, so the result is a function of the
/// two trees alone.  It embeds only well-formed trees and no conflict
/// marker; the caller checks validity and weight.
#[verifier::rlimit(100)]
#[verifier::loop_isolation(false)]
fn search(left: &Twh, right: &Twh) -> (out: Diff)
    requires
        twh_wf(*left),
        twh_wf(*right),
    ensures
        diff_wf(out),
        no_err(out@),
        out@ == spec_search(left@, right@),
    decreases tsize(left@) + tsize(right@),
{
    let ghost lv = left@;
    let ghost rv = right@;
    let ghost bound: nat = tsize(lv) + tsize(rv);
    let mut entries: Vec<Entry> = Vec::new();
    let mut gs: Vec<GScore> = Vec::new();
    let start = SearchNode::Next(left.clone(), right.clone());
    gs.push(GScore { node: clone_node(&start), g: 0 });
    entries.push(Entry { f: h_next(left, right), g: 0, node: start, ctx: Vec::new() });
    let mut fuel: u64 = SEARCH_FUEL;
    proof {
        assert(ctx_v(Seq::<Frame>::empty()) =~= Seq::<FrameV>::empty());
        assert(entries_v(entries@) =~= seq![
            EntryV { f: spec_hnext(lv, rv), g: 0, node: NodeV::Next(lv, rv), ctx: Seq::empty() },
        ]);
        assert(gs_v(gs@) =~= seq![(NodeV::Next(lv, rv), 0 as nat)]);
    }
    while fuel > 0 && entries.len() > 0
        invariant
            forall|i: int| 0 <= i < entries@.len() ==> entry_ok(#[trigger] entries@[i], bound),
            gs_wf(gs@),
            search_steps(lv, rv, entries_v(entries@), gs_v(gs@), fuel as nat) == spec_search(
                lv,
                rv,
            ),
        decreases fuel,
    {
        let ghost ev0 = entries_v(entries@);
        let ghost gv0 = gs_v(gs@);
        let ghost f0: nat = fuel as nat;
        fuel -= 1;
        let e = pop_min(&mut entries, Ghost(bound));
        let ghost ee = entry_v(e);
        proof {
            assert(ee == ev0[pop_idx(ev0)]);
            assert(entries_v(entries@) == ev0.remove(pop_idx(ev0)));
            assert(node_wf(e.node));
        }
        let stale = match g_lookup(&gs, &e.node) {
            Some(kg) => kg < e.g,
            None => false,
        };
        proof {
            assert(stale == match g_best(gv0, ee.node) {
                Some(kg) => kg < ee.g,
                None => false,
            });
        }
        if !stale {
            match e.node {
                SearchNode::Final(d) => {
                    let ghost dv = d@;
                    let out = apply_ctx(d, e.ctx);
                    proof {
                        assert(ee.node == NodeV::Final(dv));
                        assert(out@ == spec_search(lv, rv));
                    }
                    return out;
                },
                SearchNode::NextLr(m0, m1, a0, b0, a1, b1) => {
                    proof {
                        assert(ee.node == NodeV::NextLr(m0, m1, a0@, b0@, a1@, b1@));
                        assert(tsize(a0@) + tsize(b0@) < tsize(lv) + tsize(rv));
                        assert(tsize(a1@) + tsize(b1@) < tsize(lv) + tsize(rv));
                    }
                    let dl = search(&a0, &b0);
                    let dr = search(&a1, &b1);
                    let d = match m1 {
                        None => Diff::TEps(m0, Box::new(dl), Box::new(dr)),
                        Some(mt) => Diff::TMod(m0, mt, Box::new(dl), Box::new(dr)),
                    };
                    let ghost dv = d@;
                    let out = apply_ctx(d, e.ctx);
                    proof {
                        assert(out@ == spec_search(lv, rv));
                    }
                    return out;
                },
                SearchNode::Next(a, b) => {
                    let g = e.g;
                    let ctx = e.ctx;
                    proof {
                        assert(ee.node == NodeV::Next(a@, b@));
                        assert(ee.ctx == ctx_v(ctx@));
                        assert(ee.g == g as nat);
                    }
                    match (&*a.t, &*b.t) {
                        (BCSTree::Leaf(x), BCSTree::Leaf(y)) => {
                            proof {
                                assert(a@ == TreeV::Leaf(x@));
                                assert(b@ == TreeV::Leaf(y@));
                            }
                            let picked = diff_leaf(x, y);
                            let (d, cost): (Diff, usize) = match picked {
                                Some(dl) => (dl, 0),
                                None => (Diff::Mod(a.clone(), b.clone()), sat_add(a.h, b.h)),
                            };
                            proof {
                                if picked is Some {
                                    assert(spec_diff_leaf(x@, y@) == Some(d@));
                                    assert(!(d@ is Mod));
                                } else {
                                    assert(d@ =~= DiffV::Mod(Box::new(a@), Box::new(b@)));
                                }
                            }
                            push_candidate(
                                &mut entries,
                                &mut gs,
                                SearchNode::Final(d),
                                ctx,
                                sat_add(g, cost),
                                0,
                                Ghost(bound),
                            );
                            proof {
                                assert((entries_v(entries@), gs_v(gs@)) =~= spec_expand(
                                    ev0.remove(pop_idx(ev0)),
                                    gv0,
                                    a@,
                                    b@,
                                    ee.g,
                                    ee.ctx,
                                ));
                            }
                        },
                        (BCSTree::Node(ma, x0, y0), BCSTree::Node(mb, x1, y1)) => {
                            proof {
                                assert(a@ == TreeV::Node(*ma, Box::new(x0@), Box::new(y0@)));
                                assert(b@ == TreeV::Node(*mb, Box::new(x1@), Box::new(y1@)));
                                lemma_tsize_pos(x0@);
                                lemma_tsize_pos(y0@);
                                lemma_tsize_pos(x1@);
                                lemma_tsize_pos(y1@);
                                assert(tsize(a@) == tsize(x0@) + tsize(y0@));
                                assert(tsize(b@) == tsize(x1@) + tsize(y1@));
                            }
                            let mut c = clone_ctx(&ctx);
                            c.push(Frame::AddL(*mb, x1.clone()));
                            proof {
                                assert(ctx_v(c@) =~= ee.ctx.push(FrameV::AddL(*mb, x1@)));
                            }
                            push_candidate(
                                &mut entries,
                                &mut gs,
                                SearchNode::Next(a.clone(), y1.clone()),
                                c,
                                sat_add(g, 1),
                                h_next(&a, y1),
                                Ghost(bound),
                            );
                            let mut c = clone_ctx(&ctx);
                            c.push(Frame::AddR(*mb, y1.clone()));
                            proof {
                                assert(ctx_v(c@) =~= ee.ctx.push(FrameV::AddR(*mb, y1@)));
                            }
                            push_candidate(
                                &mut entries,
                                &mut gs,
                                SearchNode::Next(a.clone(), x1.clone()),
                                c,
                                sat_add(g, 1),
                                h_next(&a, x1),
                                Ghost(bound),
                            );
                            let mut c = clone_ctx(&ctx);
                            c.push(Frame::DelL);
                            proof {
                                assert(ctx_v(c@) =~= ee.ctx.push(FrameV::DelL));
                            }
                            push_candidate(
                                &mut entries,
                                &mut gs,
                                SearchNode::Next(y0.clone(), b.clone()),
                                c,
                                sat_add(g, 1),
                                h_next(y0, &b),
                                Ghost(bound),
                            );
                            let mut c = clone_ctx(&ctx);
                            c.push(Frame::DelR);
                            proof {
                                assert(ctx_v(c@) =~= ee.ctx.push(FrameV::DelR));
                            }
                            push_candidate(
                                &mut entries,
                                &mut gs,
                                SearchNode::Next(x0.clone(), b.clone()),
                                c,
                                sat_add(g, 1),
                                h_next(x0, &b),
                                Ghost(bound),
                            );
                            let hlr = {
                                let h0 = h_next(x0, x1);
                                let h1 = h_next(y0, y1);
                                if h0 <= h1 {
                                    h0
                                } else {
                                    h1
                                }
                            };
                            proof {
                                assert(hlr as nat == nmin(
                                    spec_hnext(x0@, x1@),
                                    spec_hnext(y0@, y1@),
                                ));
                            }
                            if meta_eq(ma, mb) {
                                push_candidate(
                                    &mut entries,
                                    &mut gs,
                                    SearchNode::NextLr(
                                        *ma,
                                        None,
                                        x0.clone(),
                                        x1.clone(),
                                        y0.clone(),
                                        y1.clone(),
                                    ),
                                    clone_ctx(&ctx),
                                    g,
                                    hlr,
                                    Ghost(bound),
                                );
                            } else {
                                push_candidate(
                                    &mut entries,
                                    &mut gs,
                                    SearchNode::NextLr(
                                        *ma,
                                        Some(*mb),
                                        x0.clone(),
                                        x1.clone(),
                                        y0.clone(),
                                        y1.clone(),
                                    ),
                                    clone_ctx(&ctx),
                                    g,
                                    hlr,
                                    Ghost(bound),
                                );
                                push_candidate(
                                    &mut entries,
                                    &mut gs,
                                    SearchNode::Final(Diff::Mod(a.clone(), b.clone())),
                                    ctx,
                                    sat_add(g, sat_add(a.h, b.h)),
                                    0,
                                    Ghost(bound),
                                );
                            }
                            proof {
                                assert((entries_v(entries@), gs_v(gs@)) =~= spec_expand(
                                    ev0.remove(pop_idx(ev0)),
                                    gv0,
                                    a@,
                                    b@,
                                    ee.g,
                                    ee.ctx,
                                ));
                            }
                        },
                        (BCSTree::Leaf(_), BCSTree::Node(mb, x1, y1)) => {
                            proof {
                                assert(b@ == TreeV::Node(*mb, Box::new(x1@), Box::new(y1@)));
                            }
                            push_candidate(
                                &mut entries,
                                &mut gs,
                                SearchNode::Final(Diff::Mod(a.clone(), b.clone())),
                                clone_ctx(&ctx),
                                sat_add(g, sat_add(a.h, b.h)),
                                0,
                                Ghost(bound),
                            );
                            let mut c = clone_ctx(&ctx);
                            c.push(Frame::AddL(*mb, x1.clone()));
                            proof {
                                assert(ctx_v(c@) =~= ee.ctx.push(FrameV::AddL(*mb, x1@)));
                            }
                            push_candidate(
                                &mut entries,
                                &mut gs,
                                SearchNode::Next(a.clone(), y1.clone()),
                                c,
                                sat_add(g, 1),
                                h_next(&a, y1),
                                Ghost(bound),
                            );
                            let mut c = clone_ctx(&ctx);
                            c.push(Frame::AddR(*mb, y1.clone()));
                            proof {
                                assert(ctx_v(c@) =~= ee.ctx.push(FrameV::AddR(*mb, y1@)));
                            }
                            push_candidate(
                                &mut entries,
                                &mut gs,
                                SearchNode::Next(a.clone(), x1.clone()),
                                c,
                                sat_add(g, 1),
                                h_next(&a, x1),
                                Ghost(bound),
                            );
                            proof {
                                assert((entries_v(entries@), gs_v(gs@)) =~= spec_expand(
                                    ev0.remove(pop_idx(ev0)),
                                    gv0,
                                    a@,
                                    b@,
                                    ee.g,
                                    ee.ctx,
                                ));
                            }
                        },
                        (BCSTree::Node(_, x0, y0), BCSTree::Leaf(_)) => {
                            proof {
                                assert(a@ is Node);
                            }
                            push_candidate(
                                &mut entries,
                                &mut gs,
                                SearchNode::Final(Diff::Mod(a.clone(), b.clone())),
                                clone_ctx(&ctx),
                                sat_add(g, sat_add(a.h, b.h)),
                                0,
                                Ghost(bound),
                            );
                            let mut c = clone_ctx(&ctx);
                            c.push(Frame::DelL);
                            proof {
                                assert(ctx_v(c@) =~= ee.ctx.push(FrameV::DelL));
                            }
                            push_candidate(
                                &mut entries,
                                &mut gs,
                                SearchNode::Next(y0.clone(), b.clone()),
                                c,
                                sat_add(g, 1),
                                h_next(y0, &b),
                                Ghost(bound),
                            );
                            let mut c = clone_ctx(&ctx);
                            c.push(Frame::DelR);
                            proof {
                                assert(ctx_v(c@) =~= ee.ctx.push(FrameV::DelR));
                            }
                            push_candidate(
                                &mut entries,
                                &mut gs,
                                SearchNode::Next(x0.clone(), b.clone()),
                                c,
                                sat_add(g, 1),
                                h_next(x0, &b),
                                Ghost(bound),
                            );
                            proof {
                                assert((entries_v(entries@), gs_v(gs@)) =~= spec_expand(
                                    ev0.remove(pop_idx(ev0)),
                                    gv0,
                                    a@,
                                    b@,
                                    ee.g,
                                    ee.ctx,
                                ));
                            }
                        },
                    }
                },
            }
        }
        proof {
            assert(search_steps(lv, rv, entries_v(entries@), gs_v(gs@), fuel as nat)
                == search_steps(lv, rv, ev0, gv0, f0));
        }
    }
    let out = Diff::Mod(left.clone(), right.clone());
    proof {
        assert(out@ =~= DiffV::Mod(Box::new(lv), Box::new(rv)));
        assert(out@ == spec_search(lv, rv));
    }
    out
}

/// Computes a diff between two trees.
///
/// The result is `spec_diff_outcome` of the two trees — a function of the
/// inputs alone, so two runs on structurally equal trees return
/// structurally identical diffs.  It always patches the left tree to the
/// right one, never carries a conflict marker, embeds only well-formed
/// trees, and weighs no more than the trivial whole-tree replacement.
/// Equal trees give the identity diff.
pub fn diff_wrapper(left: &Twh, right: &Twh) -> (out: Diff)
    requires
        twh_wf(*left),
        twh_wf(*right),
        tsize(left@) + tsize(right@) + 1 < usize::MAX,
    ensures
        out@ == spec_diff_outcome(left@, right@),
        spec_patch(left@, out@) == Some(right@),
        diff_wf(out),
        no_err(out@),
        dweight(out@) <= 1 + tsize(left@) + tsize(right@),
        left@ == right@ ==> out@ == DiffV::Eps,
{
    if tree_eq(&left.t, &right.t) {
        return Diff::Eps;
    }
    let cand = search(left, right);
    let fallback = Diff::Mod(left.clone(), right.clone());
    let ghost mod_weight: nat = 1 + tsize(left@) + tsize(right@);
    proof {
        assert(fallback@ =~= DiffV::Mod(Box::new(left@), Box::new(right@)));
        assert(dweight(fallback@) == mod_weight);
        assert(spec_patch(left@, fallback@) == Some(right@));
    }
    // The weight envelope: never worse than the shallow replacement.
    let cap = sat_add(1, sat_add(size_capped(&left.t), size_capped(&right.t)));
    if weight_capped(&cand) > cap {
        return fallback;
    }
    // The round-trip gate: the answer must patch the left tree to the right
    // one.
    let lsz = size_capped(&left.t);
    let dsz = dtrees_capped(&cand);
    if dsz == usize::MAX || lsz > usize::MAX - dsz {
        return fallback;
    }
    match patch(left, &cand) {
        Ok(p) => {
            if tree_eq(&p.t, &right.t) {
                cand
            } else {
                fallback
            }
        },
        Err(_) => fallback,
    }
}

} // verus!
