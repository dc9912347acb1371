//! The diff codec: a deterministic, compact binary serialisation of diffs.
//!
//! Two interning tables capture the redundancy across a diff: one of plain
//! position ranges, for leaves on the `from` side, whose text is rebuilt
//! from the base source at decode time; and one of position ranges together
//! with their text, for leaves in new positions.  Integers are little-endian;
//! kind identifiers are biased by one so that zero encodes the synthetic
//! markers.  Decoding is checked: a stream that violates the format grammar
//! is rejected whole, with the offset of the violation.

use crate::bcst::{BCSTree, TreeV, Twh, theight, tsize, mk_leaf, mk_node};
use crate::data::{Data, DataV, Metadata, Span};
use crate::diff::{Diff, DiffV, diff_wf, no_err};
use crate::wire::{le_bytes16, le_bytes64, le16_at, le64_at, push_le16, push_le64, read_le16,
    read_le64};
use vstd::prelude::*;

verus! {

/// A kind identifier small enough to survive the bias.
pub open spec fn kind_ok(k: Option<u16>) -> bool {
    match k {
        None => true,
        Some(x) => x < 0xFFFF,
    }
}

/// Every kind identifier in the tree is small enough to survive the bias.
pub open spec fn tree_kinds_ok(t: TreeV) -> bool
    decreases t,
{
    match t {
        TreeV::Leaf(d) => kind_ok(d.kind),
        TreeV::Node(m, l, r) => kind_ok(m.kind) && tree_kinds_ok(*l) && tree_kinds_ok(*r),
    }
}

/// Every kind identifier in the diff is small enough to survive the bias.
pub open spec fn diff_kinds_ok(d: DiffV) -> bool
    decreases d,
{
    match d {
        DiffV::Eps => true,
        DiffV::Conflict(_, _) => true,
        DiffV::RMod(k, _, _, _, _) => kind_ok(k),
        DiffV::TEps(m, x, y) => kind_ok(m.kind) && diff_kinds_ok(*x) && diff_kinds_ok(*y),
        DiffV::Mod(x, y) => tree_kinds_ok(*x) && tree_kinds_ok(*y),
        DiffV::TMod(i, j, x, y) => kind_ok(i.kind) && kind_ok(j.kind) && diff_kinds_ok(*x)
            && diff_kinds_ok(*y),
        DiffV::AddL(m, t, dl) => kind_ok(m.kind) && tree_kinds_ok(*t) && diff_kinds_ok(*dl),
        DiffV::AddR(m, dl, t) => kind_ok(m.kind) && tree_kinds_ok(*t) && diff_kinds_ok(*dl),
        DiffV::DelL(dl) => diff_kinds_ok(*dl),
        DiffV::DelR(dl) => diff_kinds_ok(*dl),
    }
}

/// Every leaf of the tree covers a byte range of the source and carries
/// exactly that text.
pub open spec fn tree_src_ok(t: TreeV, src: Seq<u8>) -> bool
    decreases t,
{
    match t {
        TreeV::Leaf(d) => d.byte_start <= d.byte_end && d.byte_end <= src.len() && d.text
            == src.subrange(d.byte_start as int, d.byte_end as int),
        TreeV::Node(_, l, r) => tree_src_ok(*l, src) && tree_src_ok(*r, src),
    }
}

/// Every `from`-side tree of the diff matches the base source, so that its
/// leaf text can be rebuilt at decode time.
pub open spec fn diff_src_ok(d: DiffV, src: Seq<u8>) -> bool
    decreases d,
{
    match d {
        DiffV::Eps => true,
        DiffV::Conflict(_, _) => true,
        DiffV::RMod(_, _, _, _, _) => true,
        DiffV::TEps(_, x, y) => diff_src_ok(*x, src) && diff_src_ok(*y, src),
        DiffV::Mod(x, _) => tree_src_ok(*x, src),
        DiffV::TMod(_, _, x, y) => diff_src_ok(*x, src) && diff_src_ok(*y, src),
        DiffV::AddL(_, _, dl) => diff_src_ok(*dl, src),
        DiffV::AddR(_, dl, _) => diff_src_ok(*dl, src),
        DiffV::DelL(dl) => diff_src_ok(*dl, src),
        DiffV::DelR(dl) => diff_src_ok(*dl, src),
    }
}

/// Biases a kind identifier by one; zero stands for the synthetic markers.
pub open spec fn spec_bias(k: Option<u16>) -> u16 {
    match k {
        None => 0,
        Some(x) => (x + 1) as u16,
    }
}

/// Undoes the bias: zero is the synthetic marker kind.
pub open spec fn spec_unbias(x: u16) -> Option<u16> {
    if x == 0 {
        None
    } else {
        Some((x - 1) as u16)
    }
}

fn bias_kind(k: &Option<u16>) -> (r: u16)
    requires
        kind_ok(*k),
    ensures
        r == spec_bias(*k),
{
    match k {
        None => 0,
        Some(x) => *x + 1,
    }
}

/// Undoes the bias on a decoded kind identifier.
pub fn u16_to_nt(x: u16) -> (r: Option<u16>)
    ensures
        r == spec_unbias(x),
{
    if x == 0 {
        None
    } else {
        Some(x - 1)
    }
}

/// An entry of the plain ranges table.
#[derive(Debug, Clone, Copy, PartialEq, Eq, Hash, Structural)]
pub struct RangeKey {
    pub span: Span,
    pub byte_start: usize,
    pub byte_end: usize,
}

/// An entry of the text ranges table.
#[derive(Debug, Clone, PartialEq, Eq, Hash)]
pub struct TextKey {
    pub span: Span,
    pub byte_start: usize,
    pub byte_end: usize,
    pub text: Vec<u8>,
}

/// Mathematical value of a text table entry.
#[verifier::ext_equal]
pub struct TextKeyV {
    pub span: Span,
    pub byte_start: usize,
    pub byte_end: usize,
    pub text: Seq<u8>,
}

impl View for TextKey {
    type V = TextKeyV;

    open spec fn view(&self) -> TextKeyV {
        TextKeyV {
            span: self.span,
            byte_start: self.byte_start,
            byte_end: self.byte_end,
            text: self.text@,
        }
    }
}

/// The plain ranges table: position = index.
pub type Ranges = Vec<RangeKey>;

/// The text ranges table: position = index.
pub type TextRanges = Vec<TextKey>;

/// The entry views of a text table.
pub open spec fn trs_view(s: Seq<TextKey>) -> Seq<TextKeyV> {
    s.map_values(|k: TextKey| k@)
}

/// The range key of a leaf.
pub open spec fn rkey_of(d: DataV) -> RangeKey {
    RangeKey { span: d.span, byte_start: d.byte_start, byte_end: d.byte_end }
}

/// The text key of a leaf.
pub open spec fn tkey_of(d: DataV) -> TextKeyV {
    TextKeyV { span: d.span, byte_start: d.byte_start, byte_end: d.byte_end, text: d.text }
}

/// First position of a range key in the table, or a negative number.
pub open spec fn find_range(s: Seq<RangeKey>, k: RangeKey) -> int
    decreases s.len(),
{
    if s.len() == 0 {
        -1
    } else if s[0] == k {
        0
    } else {
        let r = find_range(s.skip(1), k);
        if r < 0 {
            -1
        } else {
            r + 1
        }
    }
}

/// First position of a text key in the table, or a negative number.
pub open spec fn find_text(s: Seq<TextKeyV>, k: TextKeyV) -> int
    decreases s.len(),
{
    if s.len() == 0 {
        -1
    } else if s[0] == k {
        0
    } else {
        let r = find_text(s.skip(1), k);
        if r < 0 {
            -1
        } else {
            r + 1
        }
    }
}

proof fn lemma_find_range_at(s: Seq<RangeKey>, k: RangeKey, i: int)
    requires
        0 <= i < s.len(),
        s[i] == k,
        forall|j: int| 0 <= j < i ==> s[j] != k,
    ensures
        find_range(s, k) == i,
    decreases s.len(),
{
    if i > 0 {
        lemma_find_range_at(s.skip(1), k, i - 1);
    }
}

proof fn lemma_find_range_none(s: Seq<RangeKey>, k: RangeKey)
    requires
        forall|j: int| 0 <= j < s.len() ==> s[j] != k,
    ensures
        find_range(s, k) < 0,
    decreases s.len(),
{
    if s.len() > 0 {
        lemma_find_range_none(s.skip(1), k);
    }
}

proof fn lemma_find_text_at(s: Seq<TextKeyV>, k: TextKeyV, i: int)
    requires
        0 <= i < s.len(),
        s[i] == k,
        forall|j: int| 0 <= j < i ==> s[j] != k,
    ensures
        find_text(s, k) == i,
    decreases s.len(),
{
    if i > 0 {
        lemma_find_text_at(s.skip(1), k, i - 1);
    }
}

proof fn lemma_find_text_none(s: Seq<TextKeyV>, k: TextKeyV)
    requires
        forall|j: int| 0 <= j < s.len() ==> s[j] != k,
    ensures
        find_text(s, k) < 0,
    decreases s.len(),
{
    if s.len() > 0 {
        lemma_find_text_none(s.skip(1), k);
    }
}

/// Finds a range key or appends it; either way its position comes back.
pub open spec fn spec_intern_range(s: Seq<RangeKey>, k: RangeKey) -> (Seq<RangeKey>, int) {
    let f = find_range(s, k);
    if f >= 0 {
        (s, f)
    } else {
        (s.push(k), s.len() as int)
    }
}

/// Finds a text key or appends it; either way its position comes back.
pub open spec fn spec_intern_text(s: Seq<TextKeyV>, k: TextKeyV) -> (Seq<TextKeyV>, int) {
    let f = find_text(s, k);
    if f >= 0 {
        (s, f)
    } else {
        (s.push(k), s.len() as int)
    }
}

fn range_key_eq(a: &RangeKey, b: &RangeKey) -> (r: bool)
    ensures
        r == (a == b),
{
    crate::data::span_eq(&a.span, &b.span) && a.byte_start == b.byte_start && a.byte_end
        == b.byte_end
}

fn text_key_eq(a: &TextKey, b: &TextKey) -> (r: bool)
    ensures
        r == (a@ == b@),
{
    let r = crate::data::span_eq(&a.span, &b.span) && a.byte_start == b.byte_start && a.byte_end
        == b.byte_end && crate::data::bytes_eq(&a.text, &b.text);
    proof {
        if r {
            assert(a@ =~= b@);
        }
    }
    r
}

fn intern_range(t: &mut Vec<RangeKey>, k: RangeKey) -> (i: usize)
    ensures
        final(t)@ == spec_intern_range(old(t)@, k).0,
        i as int == spec_intern_range(old(t)@, k).1,
{
    let mut i: usize = 0;
    while i < t.len()
        invariant
            i <= t@.len(),
            forall|j: int| 0 <= j < i ==> t@[j] != k,
        decreases t@.len() - i,
    {
        if range_key_eq(&t[i], &k) {
            proof {
                lemma_find_range_at(t@, k, i as int);
            }
            return i;
        }
        i += 1;
    }
    proof {
        lemma_find_range_none(t@, k);
    }
    t.push(k);
    t.len() - 1
}

fn intern_text(t: &mut Vec<TextKey>, k: TextKey) -> (i: usize)
    ensures
        trs_view(final(t)@) == spec_intern_text(trs_view(old(t)@), k@).0,
        i as int == spec_intern_text(trs_view(old(t)@), k@).1,
{
    let mut i: usize = 0;
    while i < t.len()
        invariant
            i <= t@.len(),
            forall|j: int| 0 <= j < i ==> trs_view(t@)[j] != k@,
        decreases t@.len() - i,
    {
        if text_key_eq(&t[i], &k) {
            proof {
                assert(trs_view(t@)[i as int] == k@);
                lemma_find_text_at(trs_view(t@), k@, i as int);
            }
            return i;
        }
        proof {
            assert(trs_view(t@)[i as int] == t@[i as int]@);
        }
        i += 1;
    }
    proof {
        lemma_find_text_none(trs_view(t@), k@);
    }
    t.push(k);
    proof {
        assert(trs_view(t@) =~= spec_intern_text(trs_view(old(t)@), k@).0);
    }
    t.len() - 1
}

/// The wire form of a leaf: tag, biased kind, table flag, table position,
/// named flag.
pub open spec fn leaf_bytes(d: DataV, txt: bool, idx: int) -> Seq<u8> {
    seq![0u8] + le_bytes16(spec_bias(d.kind)) + seq![
        if txt {
            1u8
        } else {
            0u8
        },
    ] + le_bytes64(idx as u64) + seq![
        if d.named {
            1u8
        } else {
            0u8
        },
    ]
}

/// Serialises a tree, interning each leaf in the table the flag names.
/// Node payload: cached height, biased metadata kind, then the two children.
pub open spec fn ser_tree(t: TreeV, txt: bool, r: Seq<RangeKey>, tr: Seq<TextKeyV>) -> (
    Seq<u8>,
    Seq<RangeKey>,
    Seq<TextKeyV>,
)
    decreases t,
{
    match t {
        TreeV::Leaf(d) => if txt {
            let (tr2, idx) = spec_intern_text(tr, tkey_of(d));
            (leaf_bytes(d, txt, idx), r, tr2)
        } else {
            let (r2, idx) = spec_intern_range(r, rkey_of(d));
            (leaf_bytes(d, txt, idx), r2, tr)
        },
        TreeV::Node(m, l, rr) => {
            let left = ser_tree(*l, txt, r, tr);
            let right = ser_tree(*rr, txt, left.1, left.2);
            (
                seq![1u8] + le_bytes64(theight(t) as u64) + le_bytes16(spec_bias(m.kind)) + left.0
                    + right.0,
                right.1,
                right.2,
            )
        },
    }
}

/// Serialises a diff.  Tags: 0 the identity, 1 a leaf rewrite, 2 a node
/// descent, 3 a whole-tree replacement, 4 a node relabel, 5 and 6 the two
/// insertions, 7 and 8 the two deletions.  A conflict marker has no wire
/// form.
pub open spec fn ser_diff(d: DiffV, r: Seq<RangeKey>, tr: Seq<TextKeyV>) -> (
    Seq<u8>,
    Seq<RangeKey>,
    Seq<TextKeyV>,
)
    decreases d,
{
    match d {
        DiffV::Eps => (seq![0u8], r, tr),
        DiffV::Conflict(_, _) => (Seq::empty(), r, tr),
        DiffV::RMod(k, sp, bs, be, txt) => {
            let key = TextKeyV { span: sp, byte_start: bs, byte_end: be, text: txt };
            let (tr2, idx) = spec_intern_text(tr, key);
            (seq![1u8] + le_bytes16(spec_bias(k)) + le_bytes64(idx as u64), r, tr2)
        },
        DiffV::TEps(m, x, y) => {
            let left = ser_diff(*x, r, tr);
            let right = ser_diff(*y, left.1, left.2);
            (
                seq![2u8] + le_bytes16(spec_bias(m.kind)) + left.0 + right.0,
                right.1,
                right.2,
            )
        },
        DiffV::Mod(x, y) => {
            let from = ser_tree(*x, false, r, tr);
            let to = ser_tree(*y, true, from.1, from.2);
            (seq![3u8] + from.0 + to.0, to.1, to.2)
        },
        DiffV::TMod(i, j, x, y) => {
            let left = ser_diff(*x, r, tr);
            let right = ser_diff(*y, left.1, left.2);
            (
                seq![4u8] + le_bytes16(spec_bias(i.kind)) + le_bytes16(spec_bias(j.kind)) + left.0
                    + right.0,
                right.1,
                right.2,
            )
        },
        DiffV::AddL(m, t, dl) => {
            let tree = ser_tree(*t, true, r, tr);
            let inner = ser_diff(*dl, tree.1, tree.2);
            (
                seq![5u8] + le_bytes16(spec_bias(m.kind)) + tree.0 + inner.0,
                inner.1,
                inner.2,
            )
        },
        DiffV::AddR(m, dl, t) => {
            let tree = ser_tree(*t, true, r, tr);
            let inner = ser_diff(*dl, tree.1, tree.2);
            (
                seq![6u8] + le_bytes16(spec_bias(m.kind)) + tree.0 + inner.0,
                inner.1,
                inner.2,
            )
        },
        DiffV::DelL(dl) => {
            let inner = ser_diff(*dl, r, tr);
            (seq![7u8] + inner.0, inner.1, inner.2)
        },
        DiffV::DelR(dl) => {
            let inner = ser_diff(*dl, r, tr);
            (seq![8u8] + inner.0, inner.1, inner.2)
        },
    }
}


/// Serialisation grows the tables and never rewrites an entry.
pub proof fn lemma_ser_tree_extends(t: TreeV, txt: bool, r: Seq<RangeKey>, tr: Seq<TextKeyV>)
    ensures
        crate::wire::extends(r, ser_tree(t, txt, r, tr).1),
        crate::wire::extends(tr, ser_tree(t, txt, r, tr).2),
    decreases t,
{
    match t {
        TreeV::Leaf(_) => {},
        TreeV::Node(m, l, rr) => {
            lemma_ser_tree_extends(*l, txt, r, tr);
            let left = ser_tree(*l, txt, r, tr);
            lemma_ser_tree_extends(*rr, txt, left.1, left.2);
        },
    }
}

/// Serialisation grows the tables and never rewrites an entry.
pub proof fn lemma_ser_diff_extends(d: DiffV, r: Seq<RangeKey>, tr: Seq<TextKeyV>)
    ensures
        crate::wire::extends(r, ser_diff(d, r, tr).1),
        crate::wire::extends(tr, ser_diff(d, r, tr).2),
    decreases d,
{
    match d {
        DiffV::TEps(_, x, y) => {
            lemma_ser_diff_extends(*x, r, tr);
            let left = ser_diff(*x, r, tr);
            lemma_ser_diff_extends(*y, left.1, left.2);
        },
        DiffV::Mod(x, y) => {
            lemma_ser_tree_extends(*x, false, r, tr);
            let from = ser_tree(*x, false, r, tr);
            lemma_ser_tree_extends(*y, true, from.1, from.2);
        },
        DiffV::TMod(_, _, x, y) => {
            lemma_ser_diff_extends(*x, r, tr);
            let left = ser_diff(*x, r, tr);
            lemma_ser_diff_extends(*y, left.1, left.2);
        },
        DiffV::AddL(_, t, dl) => {
            lemma_ser_tree_extends(*t, true, r, tr);
            let tree = ser_tree(*t, true, r, tr);
            lemma_ser_diff_extends(*dl, tree.1, tree.2);
        },
        DiffV::AddR(_, dl, t) => {
            lemma_ser_tree_extends(*t, true, r, tr);
            let tree = ser_tree(*t, true, r, tr);
            lemma_ser_diff_extends(*dl, tree.1, tree.2);
        },
        DiffV::DelL(dl) => {
            lemma_ser_diff_extends(*dl, r, tr);
        },
        DiffV::DelR(dl) => {
            lemma_ser_diff_extends(*dl, r, tr);
        },
        _ => {},
    }
}

#[verifier::rlimit(60)]
fn serialise_tree_into(
    t: &Twh,
    txt: bool,
    r: &mut Ranges,
    tr: &mut TextRanges,
    out: &mut Vec<u8>,
)
    requires
        crate::bcst::twh_wf(*t),
        tree_kinds_ok(t@),
    ensures
        final(out)@ == old(out)@ + ser_tree(t@, txt, old(r)@, trs_view(old(tr)@)).0,
        final(r)@ == ser_tree(t@, txt, old(r)@, trs_view(old(tr)@)).1,
        trs_view(final(tr)@) == ser_tree(t@, txt, old(r)@, trs_view(old(tr)@)).2,
    decreases *t,
{
    match &*t.t {
        BCSTree::Leaf(d) => {
            let idx: usize = if txt {
                let key = TextKey {
                    span: d.span,
                    byte_start: d.byte_start,
                    byte_end: d.byte_end,
                    text: d.text.clone(),
                };
                proof {
                    assert(key@ =~= tkey_of(d@));
                }
                intern_text(tr, key)
            } else {
                let key = RangeKey {
                    span: d.span,
                    byte_start: d.byte_start,
                    byte_end: d.byte_end,
                };
                intern_range(r, key)
            };
            out.push(0u8);
            push_le16(out, bias_kind(&d.kind));
            out.push(if txt { 1u8 } else { 0u8 });
            push_le64(out, idx as u64);
            out.push(if d.named { 1u8 } else { 0u8 });
            proof {
                assert(out@ =~= old(out)@ + ser_tree(
                    t@,
                    txt,
                    old(r)@,
                    trs_view(old(tr)@),
                ).0);
            }
        },
        BCSTree::Node(m, l, rr) => {
            out.push(1u8);
            push_le64(out, t.h as u64);
            push_le16(out, bias_kind(&m.kind));
            serialise_tree_into(l, txt, r, tr, out);
            serialise_tree_into(rr, txt, r, tr, out);
            proof {
                assert(out@ =~= old(out)@ + ser_tree(
                    t@,
                    txt,
                    old(r)@,
                    trs_view(old(tr)@),
                ).0);
            }
        },
    }
}

#[verifier::rlimit(60)]
fn serialise_into(d: &Diff, r: &mut Ranges, tr: &mut TextRanges, out: &mut Vec<u8>)
    requires
        diff_wf(*d),
        no_err(d@),
        diff_kinds_ok(d@),
    ensures
        final(out)@ == old(out)@ + ser_diff(d@, old(r)@, trs_view(old(tr)@)).0,
        final(r)@ == ser_diff(d@, old(r)@, trs_view(old(tr)@)).1,
        trs_view(final(tr)@) == ser_diff(d@, old(r)@, trs_view(old(tr)@)).2,
    decreases *d,
{
    match d {
        Diff::Eps => {
            out.push(0u8);
            proof {
                assert(out@ =~= old(out)@ + ser_diff(d@, old(r)@, trs_view(old(tr)@)).0);
            }
        },
        Diff::Conflict(_, _) => {
            proof {
                assert(out@ =~= old(out)@ + ser_diff(d@, old(r)@, trs_view(old(tr)@)).0);
            }
        },
        Diff::RMod(k, sp, bs, be, txt) => {
            let key = TextKey { span: *sp, byte_start: *bs, byte_end: *be, text: txt.clone() };
            proof {
                assert(key@ =~= TextKeyV { span: *sp, byte_start: *bs, byte_end: *be, text: txt@ });
            }
            let idx = intern_text(tr, key);
            out.push(1u8);
            push_le16(out, bias_kind(k));
            push_le64(out, idx as u64);
            proof {
                assert(out@ =~= old(out)@ + ser_diff(d@, old(r)@, trs_view(old(tr)@)).0);
            }
        },
        Diff::TEps(m, x, y) => {
            out.push(2u8);
            push_le16(out, bias_kind(&m.kind));
            serialise_into(x, r, tr, out);
            serialise_into(y, r, tr, out);
            proof {
                assert(out@ =~= old(out)@ + ser_diff(d@, old(r)@, trs_view(old(tr)@)).0);
            }
        },
        Diff::Mod(x, y) => {
            out.push(3u8);
            serialise_tree_into(x, false, r, tr, out);
            serialise_tree_into(y, true, r, tr, out);
            proof {
                assert(out@ =~= old(out)@ + ser_diff(d@, old(r)@, trs_view(old(tr)@)).0);
            }
        },
        Diff::TMod(i, j, x, y) => {
            out.push(4u8);
            push_le16(out, bias_kind(&i.kind));
            push_le16(out, bias_kind(&j.kind));
            serialise_into(x, r, tr, out);
            serialise_into(y, r, tr, out);
            proof {
                assert(out@ =~= old(out)@ + ser_diff(d@, old(r)@, trs_view(old(tr)@)).0);
            }
        },
        Diff::AddL(m, t, dl) => {
            out.push(5u8);
            push_le16(out, bias_kind(&m.kind));
            serialise_tree_into(t, true, r, tr, out);
            serialise_into(dl, r, tr, out);
            proof {
                assert(out@ =~= old(out)@ + ser_diff(d@, old(r)@, trs_view(old(tr)@)).0);
            }
        },
        Diff::AddR(m, dl, t) => {
            out.push(6u8);
            push_le16(out, bias_kind(&m.kind));
            serialise_tree_into(t, true, r, tr, out);
            serialise_into(dl, r, tr, out);
            proof {
                assert(out@ =~= old(out)@ + ser_diff(d@, old(r)@, trs_view(old(tr)@)).0);
            }
        },
        Diff::DelL(dl) => {
            out.push(7u8);
            serialise_into(dl, r, tr, out);
            proof {
                assert(out@ =~= old(out)@ + ser_diff(d@, old(r)@, trs_view(old(tr)@)).0);
            }
        },
        Diff::DelR(dl) => {
            out.push(8u8);
            serialise_into(dl, r, tr, out);
            proof {
                assert(out@ =~= old(out)@ + ser_diff(d@, old(r)@, trs_view(old(tr)@)).0);
            }
        },
    }
}

/// Serialises a diff, interning positions and text in the two tables.
pub fn serialise(d: &Diff, r: &mut Ranges, tr: &mut TextRanges) -> (out: Vec<u8>)
    requires
        diff_wf(*d),
        no_err(d@),
        diff_kinds_ok(d@),
    ensures
        out@ == ser_diff(d@, old(r)@, trs_view(old(tr)@)).0,
        final(r)@ == ser_diff(d@, old(r)@, trs_view(old(tr)@)).1,
        trs_view(final(tr)@) == ser_diff(d@, old(r)@, trs_view(old(tr)@)).2,
{
    let mut out: Vec<u8> = Vec::new();
    serialise_into(d, r, tr, &mut out);
    proof {
        assert(out@ =~= ser_diff(d@, old(r)@, trs_view(old(tr)@)).0);
    }
    out
}


/// Decodes a tree at position `i`.  Nothing on a malformed stream: a bad
/// tag, a table position out of range, a byte range outside the source, or
/// a cached height that is not the true height.
pub open spec fn de_tree(b: Seq<u8>, i: int, src: Seq<u8>, r: Seq<RangeKey>, tr: Seq<TextKeyV>) ->
    Option<(TreeV, int)>
    decreases b.len() - i,
{
    if i < 0 || i >= b.len() {
        None
    } else if b[i] == 0 {
        if i + 13 <= b.len() {
            let kind = spec_unbias(le16_at(b, i + 1));
            let txt = b[i + 3] != 0;
            let idx = le64_at(b, i + 4) as int;
            let named = b[i + 12] != 0;
            if txt {
                if idx < tr.len() {
                    let k = tr[idx];
                    Some(
                        (
                            TreeV::Leaf(
                                DataV {
                                    kind,
                                    span: k.span,
                                    byte_start: k.byte_start,
                                    byte_end: k.byte_end,
                                    text: k.text,
                                    named,
                                },
                            ),
                            i + 13,
                        ),
                    )
                } else {
                    None
                }
            } else {
                if idx < r.len() {
                    let k = r[idx];
                    if k.byte_start <= k.byte_end && k.byte_end <= src.len() {
                        Some(
                            (
                                TreeV::Leaf(
                                    DataV {
                                        kind,
                                        span: k.span,
                                        byte_start: k.byte_start,
                                        byte_end: k.byte_end,
                                        text: src.subrange(
                                            k.byte_start as int,
                                            k.byte_end as int,
                                        ),
                                        named,
                                    },
                                ),
                                i + 13,
                            ),
                        )
                    } else {
                        None
                    }
                } else {
                    None
                }
            }
        } else {
            None
        }
    } else if b[i] == 1 {
        if i + 11 <= b.len() {
            let h = le64_at(b, i + 1);
            let m = Metadata { kind: spec_unbias(le16_at(b, i + 9)) };
            match de_tree(b, i + 11, src, r, tr) {
                None => None,
                Some((tl, j)) => if i + 11 < j && j <= b.len() {
                    match de_tree(b, j, src, r, tr) {
                        None => None,
                        Some((trr, j2)) => {
                            let node = TreeV::Node(m, Box::new(tl), Box::new(trr));
                            if theight(node) <= usize::MAX as nat && h as int == theight(node)
                                as int {
                                Some((node, j2))
                            } else {
                                None
                            }
                        },
                    }
                } else {
                    None
                },
            }
        } else {
            None
        }
    } else {
        None
    }
}

/// Decodes a diff at position `i`.  Nothing on a stream that violates the
/// format grammar.
pub open spec fn de_diff(b: Seq<u8>, i: int, src: Seq<u8>, r: Seq<RangeKey>, tr: Seq<TextKeyV>) ->
    Option<(DiffV, int)>
    decreases b.len() - i,
{
    if i < 0 || i >= b.len() {
        None
    } else if b[i] == 0 {
        Some((DiffV::Eps, i + 1))
    } else if b[i] == 1 {
        if i + 11 <= b.len() {
            let kind = spec_unbias(le16_at(b, i + 1));
            let idx = le64_at(b, i + 3) as int;
            if idx < tr.len() {
                let k = tr[idx];
                Some(
                    (DiffV::RMod(kind, k.span, k.byte_start, k.byte_end, k.text), i + 11),
                )
            } else {
                None
            }
        } else {
            None
        }
    } else if b[i] == 2 || b[i] == 4 {
        let hdr: int = if b[i] == 2 {
            3
        } else {
            5
        };
        if i + hdr <= b.len() {
            match de_diff(b, i + hdr, src, r, tr) {
                None => None,
                Some((x, j)) => if i + hdr < j && j <= b.len() {
                    match de_diff(b, j, src, r, tr) {
                        None => None,
                        Some((y, j2)) => if b[i] == 2 {
                            let m = Metadata { kind: spec_unbias(le16_at(b, i + 1)) };
                            Some((DiffV::TEps(m, Box::new(x), Box::new(y)), j2))
                        } else {
                            let mi = Metadata { kind: spec_unbias(le16_at(b, i + 1)) };
                            let mj = Metadata { kind: spec_unbias(le16_at(b, i + 3)) };
                            Some((DiffV::TMod(mi, mj, Box::new(x), Box::new(y)), j2))
                        },
                    }
                } else {
                    None
                },
            }
        } else {
            None
        }
    } else if b[i] == 3 {
        match de_tree(b, i + 1, src, r, tr) {
            None => None,
            Some((x, j)) => if i + 1 < j && j <= b.len() {
                match de_tree(b, j, src, r, tr) {
                    None => None,
                    Some((y, j2)) => Some((DiffV::Mod(Box::new(x), Box::new(y)), j2)),
                }
            } else {
                None
            },
        }
    } else if b[i] == 5 || b[i] == 6 {
        if i + 3 <= b.len() {
            let m = Metadata { kind: spec_unbias(le16_at(b, i + 1)) };
            match de_tree(b, i + 3, src, r, tr) {
                None => None,
                Some((t, j)) => if i + 3 < j && j <= b.len() {
                    match de_diff(b, j, src, r, tr) {
                        None => None,
                        Some((dl, j2)) => if b[i] == 5 {
                            Some((DiffV::AddL(m, Box::new(t), Box::new(dl)), j2))
                        } else {
                            Some((DiffV::AddR(m, Box::new(dl), Box::new(t)), j2))
                        },
                    }
                } else {
                    None
                },
            }
        } else {
            None
        }
    } else if b[i] == 7 || b[i] == 8 {
        match de_diff(b, i + 1, src, r, tr) {
            None => None,
            Some((dl, j)) => if b[i] == 7 {
                Some((DiffV::DelL(Box::new(dl)), j))
            } else {
                Some((DiffV::DelR(Box::new(dl)), j))
            },
        }
    } else {
        None
    }
}

/// A stream that violates the format grammar: carries the offset at which
/// decoding failed.
#[derive(Debug, Clone, Copy, PartialEq, Eq, Structural)]
pub struct DecodeError {
    pub offset: usize,
}

/// The bytes a half-open range of a slice covers.
pub fn bytes_range_pub(src: &[u8], bs: usize, be: usize) -> (out: Vec<u8>)
    requires
        bs <= be,
        be <= src@.len(),
    ensures
        out@ == src@.subrange(bs as int, be as int),
{
    bytes_range(src, bs, be)
}

/// The bytes of the source a range key covers.
fn bytes_range(src: &[u8], bs: usize, be: usize) -> (out: Vec<u8>)
    requires
        bs <= be,
        be <= src@.len(),
    ensures
        out@ == src@.subrange(bs as int, be as int),
{
    let mut out: Vec<u8> = Vec::new();
    let mut i: usize = bs;
    while i < be
        invariant
            bs <= i <= be,
            be <= src@.len(),
            out@ == src@.subrange(bs as int, i as int),
        decreases be - i,
    {
        out.push(src[i]);
        i += 1;
        proof {
            assert(out@ =~= src@.subrange(bs as int, i as int));
        }
    }
    out
}

/// Decodes a tree at `pos`, rebuilding `from`-side leaf text from the base
/// source and checking every cached height.
pub fn deserialise_tree(
    b: &[u8],
    src: &[u8],
    r: &Ranges,
    tr: &TextRanges,
    pos: usize,
) -> (out: Result<(Twh, usize), DecodeError>)
    ensures
        match out {
            Ok(p) => de_tree(b@, pos as int, src@, r@, trs_view(tr@)) == Some((p.0@, p.1 as int))
                && crate::bcst::twh_wf(p.0) && pos < p.1 <= b@.len(),
            Err(_) => de_tree(b@, pos as int, src@, r@, trs_view(tr@)) is None,
        },
    decreases b@.len() - pos,
{
    if pos >= b.len() {
        return Err(DecodeError { offset: pos });
    }
    let tag = b[pos];
    if tag == 0 {
        if b.len() - pos < 13 {
            return Err(DecodeError { offset: pos });
        }
        let kind = u16_to_nt(read_le16(b, pos + 1));
        let txt = b[pos + 3] != 0;
        let idx64 = read_le64(b, pos + 4);
        let named = b[pos + 12] != 0;
        if txt {
            if idx64 < tr.len() as u64 {
                let idx = idx64 as usize;
                let k = &tr[idx];
                proof {
                    assert(trs_view(tr@)[idx as int] == tr@[idx as int]@);
                }
                let d = Data {
                    kind,
                    span: k.span,
                    byte_start: k.byte_start,
                    byte_end: k.byte_end,
                    text: k.text.clone(),
                    named,
                };
                let t = mk_leaf(d);
                proof {
                    assert(t@ =~= de_tree(b@, pos as int, src@, r@, trs_view(tr@))->Some_0.0);
                }
                Ok((t, pos + 13))
            } else {
                proof {
                    assert(le64_at(b@, pos as int + 4) as int >= trs_view(tr@).len());
                }
                Err(DecodeError { offset: pos })
            }
        } else {
            if idx64 < r.len() as u64 {
                let idx = idx64 as usize;
                let k = &r[idx];
                if k.byte_start <= k.byte_end && k.byte_end <= src.len() {
                    let text = bytes_range(src, k.byte_start, k.byte_end);
                    let d = Data {
                        kind,
                        span: k.span,
                        byte_start: k.byte_start,
                        byte_end: k.byte_end,
                        text,
                        named,
                    };
                    let t = mk_leaf(d);
                    proof {
                        assert(t@ =~= de_tree(b@, pos as int, src@, r@, trs_view(tr@))->Some_0.0);
                    }
                    Ok((t, pos + 13))
                } else {
                    Err(DecodeError { offset: pos })
                }
            } else {
                proof {
                    assert(le64_at(b@, pos as int + 4) as int >= r@.len());
                }
                Err(DecodeError { offset: pos })
            }
        }
    } else if tag == 1 {
        if b.len() - pos < 11 {
            return Err(DecodeError { offset: pos });
        }
        let h = read_le64(b, pos + 1);
        let m = Metadata { kind: u16_to_nt(read_le16(b, pos + 9)) };
        let (tl, j) = match deserialise_tree(b, src, r, tr, pos + 11) {
            Ok(p) => p,
            Err(e) => {
                return Err(e);
            },
        };
        let (trr, j2) = match deserialise_tree(b, src, r, tr, j) {
            Ok(p) => p,
            Err(e) => {
                return Err(e);
            },
        };
        let maxh = if tl.h >= trr.h {
            tl.h
        } else {
            trr.h
        };
        if maxh == usize::MAX {
            return Err(DecodeError { offset: pos });
        }
        if h != (maxh + 1) as u64 {
            return Err(DecodeError { offset: pos });
        }
        let node = mk_node(m, tl, trr);
        proof {
            assert(node@ =~= de_tree(b@, pos as int, src@, r@, trs_view(tr@))->Some_0.0);
        }
        Ok((node, j2))
    } else {
        Err(DecodeError { offset: pos })
    }
}

/// Decodes a diff at `pos` against the two tables and the base source.
pub fn deserialise(
    b: &[u8],
    src: &[u8],
    r: &Ranges,
    tr: &TextRanges,
    pos: usize,
) -> (out: Result<(Diff, usize), DecodeError>)
    ensures
        match out {
            Ok(p) => de_diff(b@, pos as int, src@, r@, trs_view(tr@)) == Some((p.0@, p.1 as int))
                && diff_wf(p.0) && no_err(p.0@) && pos < p.1 <= b@.len(),
            Err(_) => de_diff(b@, pos as int, src@, r@, trs_view(tr@)) is None,
        },
    decreases b@.len() - pos,
{
    if pos >= b.len() {
        return Err(DecodeError { offset: pos });
    }
    let tag = b[pos];
    if tag == 0 {
        Ok((Diff::Eps, pos + 1))
    } else if tag == 1 {
        if b.len() - pos < 11 {
            return Err(DecodeError { offset: pos });
        }
        let kind = u16_to_nt(read_le16(b, pos + 1));
        let idx64 = read_le64(b, pos + 3);
        if idx64 < tr.len() as u64 {
            let idx = idx64 as usize;
            let k = &tr[idx];
            proof {
                assert(trs_view(tr@)[idx as int] == tr@[idx as int]@);
            }
            let d = Diff::RMod(kind, k.span, k.byte_start, k.byte_end, k.text.clone());
            proof {
                assert(d@ =~= de_diff(b@, pos as int, src@, r@, trs_view(tr@))->Some_0.0);
            }
            Ok((d, pos + 11))
        } else {
            proof {
                assert(le64_at(b@, pos as int + 3) as int >= trs_view(tr@).len());
            }
            Err(DecodeError { offset: pos })
        }
    } else if tag == 2 || tag == 4 {
        let hdr: usize = if tag == 2 {
            3
        } else {
            5
        };
        if b.len() - pos < hdr {
            return Err(DecodeError { offset: pos });
        }
        let (x, j) = match deserialise(b, src, r, tr, pos + hdr) {
            Ok(p) => p,
            Err(e) => {
                return Err(e);
            },
        };
        let (y, j2) = match deserialise(b, src, r, tr, j) {
            Ok(p) => p,
            Err(e) => {
                return Err(e);
            },
        };
        if tag == 2 {
            let m = Metadata { kind: u16_to_nt(read_le16(b, pos + 1)) };
            let d = Diff::TEps(m, Box::new(x), Box::new(y));
            proof {
                assert(d@ =~= de_diff(b@, pos as int, src@, r@, trs_view(tr@))->Some_0.0);
            }
            Ok((d, j2))
        } else {
            let mi = Metadata { kind: u16_to_nt(read_le16(b, pos + 1)) };
            let mj = Metadata { kind: u16_to_nt(read_le16(b, pos + 3)) };
            let d = Diff::TMod(mi, mj, Box::new(x), Box::new(y));
            proof {
                assert(d@ =~= de_diff(b@, pos as int, src@, r@, trs_view(tr@))->Some_0.0);
            }
            Ok((d, j2))
        }
    } else if tag == 3 {
        let (x, j) = match deserialise_tree(b, src, r, tr, pos + 1) {
            Ok(p) => p,
            Err(e) => {
                return Err(e);
            },
        };
        let (y, j2) = match deserialise_tree(b, src, r, tr, j) {
            Ok(p) => p,
            Err(e) => {
                return Err(e);
            },
        };
        let d = Diff::Mod(x, y);
        proof {
            assert(d@ =~= de_diff(b@, pos as int, src@, r@, trs_view(tr@))->Some_0.0);
        }
        Ok((d, j2))
    } else if tag == 5 || tag == 6 {
        if b.len() - pos < 3 {
            return Err(DecodeError { offset: pos });
        }
        let m = Metadata { kind: u16_to_nt(read_le16(b, pos + 1)) };
        let (t, j) = match deserialise_tree(b, src, r, tr, pos + 3) {
            Ok(p) => p,
            Err(e) => {
                return Err(e);
            },
        };
        let (dl, j2) = match deserialise(b, src, r, tr, j) {
            Ok(p) => p,
            Err(e) => {
                return Err(e);
            },
        };
        if tag == 5 {
            let d = Diff::AddL(m, t, Box::new(dl));
            proof {
                assert(d@ =~= de_diff(b@, pos as int, src@, r@, trs_view(tr@))->Some_0.0);
            }
            Ok((d, j2))
        } else {
            let d = Diff::AddR(m, Box::new(dl), t);
            proof {
                assert(d@ =~= de_diff(b@, pos as int, src@, r@, trs_view(tr@))->Some_0.0);
            }
            Ok((d, j2))
        }
    } else if tag == 7 || tag == 8 {
        let (dl, j) = match deserialise(b, src, r, tr, pos + 1) {
            Ok(p) => p,
            Err(e) => {
                return Err(e);
            },
        };
        if tag == 7 {
            let d = Diff::DelL(Box::new(dl));
            proof {
                assert(d@ =~= de_diff(b@, pos as int, src@, r@, trs_view(tr@))->Some_0.0);
            }
            Ok((d, j))
        } else {
            let d = Diff::DelR(Box::new(dl));
            proof {
                assert(d@ =~= de_diff(b@, pos as int, src@, r@, trs_view(tr@))->Some_0.0);
            }
            Ok((d, j))
        }
    } else {
        Err(DecodeError { offset: pos })
    }
}


proof fn lemma_find_range_valid(s: Seq<RangeKey>, k: RangeKey)
    requires
        find_range(s, k) >= 0,
    ensures
        find_range(s, k) < s.len(),
        s[find_range(s, k)] == k,
    decreases s.len(),
{
    if s.len() > 0 && s[0] != k {
        lemma_find_range_valid(s.skip(1), k);
    }
}

proof fn lemma_find_text_valid(s: Seq<TextKeyV>, k: TextKeyV)
    requires
        find_text(s, k) >= 0,
    ensures
        find_text(s, k) < s.len(),
        s[find_text(s, k)] == k,
    decreases s.len(),
{
    if s.len() > 0 && s[0] != k {
        lemma_find_text_valid(s.skip(1), k);
    }
}

/// The wire form of a tree is never empty.
proof fn lemma_ser_tree_len(t: TreeV, txt: bool, r: Seq<RangeKey>, tr: Seq<TextKeyV>)
    ensures
        ser_tree(t, txt, r, tr).0.len() >= 1,
{
    match t {
        TreeV::Leaf(_) => {},
        TreeV::Node(_, _, _) => {},
    }
}

/// The wire form of a diff other than a conflict marker is never empty.
proof fn lemma_ser_diff_len(d: DiffV, r: Seq<RangeKey>, tr: Seq<TextKeyV>)
    requires
        no_err(d),
    ensures
        ser_diff(d, r, tr).0.len() >= 1,
{
    match d {
        DiffV::Eps => {},
        _ => {},
    }
}

/// Decoding a serialised tree, against any stream that embeds its bytes and
/// any tables that extend those it built, gives the tree back.
#[verifier::rlimit(100)]
#[verifier::spinoff_prover]
proof fn lemma_de_ser_tree(
    t: TreeV,
    txt: bool,
    r0: Seq<RangeKey>,
    tr0: Seq<TextKeyV>,
    s: Seq<u8>,
    i: int,
    r2: Seq<RangeKey>,
    tr2: Seq<TextKeyV>,
    src: Seq<u8>,
)
    requires
        tree_kinds_ok(t),
        theight(t) <= usize::MAX as nat,
        !txt ==> tree_src_ok(t, src),
        crate::wire::seq_at(s, i, ser_tree(t, txt, r0, tr0).0),
        crate::wire::extends(ser_tree(t, txt, r0, tr0).1, r2),
        crate::wire::extends(ser_tree(t, txt, r0, tr0).2, tr2),
        r2.len() <= usize::MAX as nat,
        tr2.len() <= usize::MAX as nat,
    ensures
        de_tree(s, i, src, r2, tr2) == Some((t, i + ser_tree(t, txt, r0, tr0).0.len())),
    decreases t,
{
    let bytes = ser_tree(t, txt, r0, tr0).0;
    match t {
        TreeV::Leaf(d) => {
            let idx: int = if txt {
                spec_intern_text(tr0, tkey_of(d)).1
            } else {
                spec_intern_range(r0, rkey_of(d)).1
            };
            if txt {
                if find_text(tr0, tkey_of(d)) >= 0 {
                    lemma_find_text_valid(tr0, tkey_of(d));
                }
            } else {
                if find_range(r0, rkey_of(d)) >= 0 {
                    lemma_find_range_valid(r0, rkey_of(d));
                }
            }
            let k16 = spec_bias(d.kind);
            let flag: u8 = if txt { 1u8 } else { 0u8 };
            let nb: u8 = if d.named { 1u8 } else { 0u8 };
            let p1 = seq![0u8] + le_bytes16(k16);
            let p2 = p1 + seq![flag];
            let p3 = p2 + le_bytes64(idx as u64);
            assert(bytes =~= p3 + seq![nb]);
            crate::wire::lemma_seq_at_concat(s, i, p3, seq![nb]);
            crate::wire::lemma_seq_at_concat(s, i, p2, le_bytes64(idx as u64));
            crate::wire::lemma_seq_at_concat(s, i, p1, seq![flag]);
            crate::wire::lemma_seq_at_concat(s, i, seq![0u8], le_bytes16(k16));
            assert(s[i + 0] == (seq![0u8])[0]);
            assert(s[i] == 0u8);
            assert((seq![flag])[0] == flag);
            assert(s[i + 3] == flag);
            assert((seq![nb])[0] == nb);
            assert(s[i + 12] == nb);
            crate::wire::lemma_le16_at(s, i + 1, k16);
            crate::wire::lemma_le64_at(s, i + 4, idx as u64);
            assert(spec_unbias(spec_bias(d.kind)) == d.kind);
            assert(bytes.len() == 13);
            if txt {
                assert(idx < tr2.len());
                assert(tr2[idx] == tkey_of(d));
                assert((idx as u64) as int == idx);
                let out = de_tree(s, i, src, r2, tr2);
                assert(out is Some);
                assert(out->Some_0.0 =~= t);
                assert(out->Some_0.1 == i + 13);
            } else {
                assert(idx < r2.len());
                assert(r2[idx] == rkey_of(d));
                assert((idx as u64) as int == idx);
                let out = de_tree(s, i, src, r2, tr2);
                assert(out is Some);
                assert(out->Some_0.0 =~= t);
                assert(out->Some_0.1 == i + 13);
            }
        },
        TreeV::Node(m, l, rr) => {
            let left = ser_tree(*l, txt, r0, tr0);
            let right = ser_tree(*rr, txt, left.1, left.2);
            let h64 = theight(t) as u64;
            let k16 = spec_bias(m.kind);
            let p1 = seq![1u8] + le_bytes64(h64);
            let p2 = p1 + le_bytes16(k16);
            let p3 = p2 + left.0;
            assert(bytes =~= p3 + right.0);
            crate::wire::lemma_seq_at_concat(s, i, p3, right.0);
            crate::wire::lemma_seq_at_concat(s, i, p2, left.0);
            crate::wire::lemma_seq_at_concat(s, i, p1, le_bytes16(k16));
            crate::wire::lemma_seq_at_concat(s, i, seq![1u8], le_bytes64(h64));
            assert(s[i + 0] == (seq![1u8])[0]);
            assert(s[i] == 1u8);
            crate::wire::lemma_le64_at(s, i + 1, h64);
            crate::wire::lemma_le16_at(s, i + 9, k16);
            assert(spec_unbias(spec_bias(m.kind)) == m.kind);
            lemma_ser_tree_extends(*rr, txt, left.1, left.2);
            crate::wire::lemma_extends_trans(left.1, right.1, r2);
            crate::wire::lemma_extends_trans(left.2, right.2, tr2);
            lemma_de_ser_tree(*l, txt, r0, tr0, s, i + 11, r2, tr2, src);
            let j = i + 11 + left.0.len();
            lemma_ser_tree_len(*l, txt, r0, tr0);
            lemma_ser_tree_len(*rr, txt, left.1, left.2);
            lemma_de_ser_tree(*rr, txt, left.1, left.2, s, j, r2, tr2, src);
            let j2 = j + right.0.len();
            let node = TreeV::Node(m, Box::new(*l), Box::new(*rr));
            assert(node =~= t);
            assert(h64 as int == theight(node) as int);
            let out = de_tree(s, i, src, r2, tr2);
            assert(out == Some((t, i + bytes.len())));
        },
    }
}

/// Decoding a serialised diff, against any stream that embeds its bytes and
/// any tables that extend those it built, gives the diff back.
#[verifier::rlimit(100)]
#[verifier::spinoff_prover]
proof fn lemma_dsd_teps(
    d: DiffV,
    r0: Seq<RangeKey>,
    tr0: Seq<TextKeyV>,
    s: Seq<u8>,
    i: int,
    r2: Seq<RangeKey>,
    tr2: Seq<TextKeyV>,
    src: Seq<u8>,
)
    requires
        no_err(d),
        diff_kinds_ok(d),
        diff_heights_ok(d),
        diff_src_ok(d, src),
        crate::wire::seq_at(s, i, ser_diff(d, r0, tr0).0),
        crate::wire::extends(ser_diff(d, r0, tr0).1, r2),
        crate::wire::extends(ser_diff(d, r0, tr0).2, tr2),
        r2.len() <= usize::MAX as nat,
        tr2.len() <= usize::MAX as nat,
        d is TEps,
    ensures
        de_diff(s, i, src, r2, tr2) == Some((d, i + ser_diff(d, r0, tr0).0.len())),
    decreases d, 0int,
{
    let bytes = ser_diff(d, r0, tr0).0;
    match d {
        DiffV::TEps(m, x, y) => {
            let left = ser_diff(*x, r0, tr0);
            let right = ser_diff(*y, left.1, left.2);
            let k16 = spec_bias(m.kind);
            let p1 = seq![2u8] + le_bytes16(k16);
            let p2 = p1 + left.0;
            assert(bytes =~= p2 + right.0);
            crate::wire::lemma_seq_at_concat(s, i, p2, right.0);
            crate::wire::lemma_seq_at_concat(s, i, p1, left.0);
            crate::wire::lemma_seq_at_concat(s, i, seq![2u8], le_bytes16(k16));
            assert(s[i + 0] == (seq![2u8])[0]);
            assert(s[i] == 2u8);
            crate::wire::lemma_le16_at(s, i + 1, k16);
            lemma_ser_diff_extends(*y, left.1, left.2);
            crate::wire::lemma_extends_trans(left.1, right.1, r2);
            crate::wire::lemma_extends_trans(left.2, right.2, tr2);
            lemma_de_ser_diff(*x, r0, tr0, s, i + 3, r2, tr2, src);
            lemma_ser_diff_len(*x, r0, tr0);
            lemma_ser_diff_len(*y, left.1, left.2);
            let j = i + 3 + left.0.len();
            lemma_de_ser_diff(*y, left.1, left.2, s, j, r2, tr2, src);
            let out = de_diff(s, i, src, r2, tr2);
            assert(out->Some_0.0 =~= d);
            assert(out == Some((d, i + bytes.len())));
        },
        _ => {},
    }
}

#[verifier::rlimit(100)]
#[verifier::spinoff_prover]
proof fn lemma_dsd_tmod(
    d: DiffV,
    r0: Seq<RangeKey>,
    tr0: Seq<TextKeyV>,
    s: Seq<u8>,
    i: int,
    r2: Seq<RangeKey>,
    tr2: Seq<TextKeyV>,
    src: Seq<u8>,
)
    requires
        no_err(d),
        diff_kinds_ok(d),
        diff_heights_ok(d),
        diff_src_ok(d, src),
        crate::wire::seq_at(s, i, ser_diff(d, r0, tr0).0),
        crate::wire::extends(ser_diff(d, r0, tr0).1, r2),
        crate::wire::extends(ser_diff(d, r0, tr0).2, tr2),
        r2.len() <= usize::MAX as nat,
        tr2.len() <= usize::MAX as nat,
        d is TMod,
    ensures
        de_diff(s, i, src, r2, tr2) == Some((d, i + ser_diff(d, r0, tr0).0.len())),
    decreases d, 0int,
{
    let bytes = ser_diff(d, r0, tr0).0;
    match d {
        DiffV::TMod(mi, mj, x, y) => {
            let left = ser_diff(*x, r0, tr0);
            let right = ser_diff(*y, left.1, left.2);
            let ki = spec_bias(mi.kind);
            let kj = spec_bias(mj.kind);
            let p1 = seq![4u8] + le_bytes16(ki);
            let p2 = p1 + le_bytes16(kj);
            let p3 = p2 + left.0;
            assert(bytes =~= p3 + right.0);
            crate::wire::lemma_seq_at_concat(s, i, p3, right.0);
            crate::wire::lemma_seq_at_concat(s, i, p2, left.0);
            crate::wire::lemma_seq_at_concat(s, i, p1, le_bytes16(kj));
            crate::wire::lemma_seq_at_concat(s, i, seq![4u8], le_bytes16(ki));
            assert(s[i + 0] == (seq![4u8])[0]);
            assert(s[i] == 4u8);
            crate::wire::lemma_le16_at(s, i + 1, ki);
            crate::wire::lemma_le16_at(s, i + 3, kj);
            lemma_ser_diff_extends(*y, left.1, left.2);
            crate::wire::lemma_extends_trans(left.1, right.1, r2);
            crate::wire::lemma_extends_trans(left.2, right.2, tr2);
            lemma_de_ser_diff(*x, r0, tr0, s, i + 5, r2, tr2, src);
            lemma_ser_diff_len(*x, r0, tr0);
            lemma_ser_diff_len(*y, left.1, left.2);
            let j = i + 5 + left.0.len();
            lemma_de_ser_diff(*y, left.1, left.2, s, j, r2, tr2, src);
            let out = de_diff(s, i, src, r2, tr2);
            assert(out->Some_0.0 =~= d);
            assert(out == Some((d, i + bytes.len())));
        },
        _ => {},
    }
}

#[verifier::rlimit(100)]
#[verifier::spinoff_prover]
proof fn lemma_dsd_modc(
    d: DiffV,
    r0: Seq<RangeKey>,
    tr0: Seq<TextKeyV>,
    s: Seq<u8>,
    i: int,
    r2: Seq<RangeKey>,
    tr2: Seq<TextKeyV>,
    src: Seq<u8>,
)
    requires
        no_err(d),
        diff_kinds_ok(d),
        diff_heights_ok(d),
        diff_src_ok(d, src),
        crate::wire::seq_at(s, i, ser_diff(d, r0, tr0).0),
        crate::wire::extends(ser_diff(d, r0, tr0).1, r2),
        crate::wire::extends(ser_diff(d, r0, tr0).2, tr2),
        r2.len() <= usize::MAX as nat,
        tr2.len() <= usize::MAX as nat,
        d is Mod,
    ensures
        de_diff(s, i, src, r2, tr2) == Some((d, i + ser_diff(d, r0, tr0).0.len())),
    decreases d, 0int,
{
    let bytes = ser_diff(d, r0, tr0).0;
    match d {
        DiffV::Mod(x, y) => {
            let from = ser_tree(*x, false, r0, tr0);
            let to = ser_tree(*y, true, from.1, from.2);
            let p1 = seq![3u8] + from.0;
            assert(bytes =~= p1 + to.0);
            crate::wire::lemma_seq_at_concat(s, i, p1, to.0);
            crate::wire::lemma_seq_at_concat(s, i, seq![3u8], from.0);
            assert(s[i + 0] == (seq![3u8])[0]);
            assert(s[i] == 3u8);
            lemma_ser_tree_extends(*y, true, from.1, from.2);
            crate::wire::lemma_extends_trans(from.1, to.1, r2);
            crate::wire::lemma_extends_trans(from.2, to.2, tr2);
            lemma_de_ser_tree(*x, false, r0, tr0, s, i + 1, r2, tr2, src);
            lemma_ser_tree_len(*x, false, r0, tr0);
            lemma_ser_tree_len(*y, true, from.1, from.2);
            let j = i + 1 + from.0.len();
            lemma_de_ser_tree(*y, true, from.1, from.2, s, j, r2, tr2, src);
            let out = de_diff(s, i, src, r2, tr2);
            assert(out->Some_0.0 =~= d);
            assert(out == Some((d, i + bytes.len())));
        },
        _ => {},
    }
}

#[verifier::rlimit(100)]
#[verifier::spinoff_prover]
proof fn lemma_dsd_addl(
    d: DiffV,
    r0: Seq<RangeKey>,
    tr0: Seq<TextKeyV>,
    s: Seq<u8>,
    i: int,
    r2: Seq<RangeKey>,
    tr2: Seq<TextKeyV>,
    src: Seq<u8>,
)
    requires
        no_err(d),
        diff_kinds_ok(d),
        diff_heights_ok(d),
        diff_src_ok(d, src),
        crate::wire::seq_at(s, i, ser_diff(d, r0, tr0).0),
        crate::wire::extends(ser_diff(d, r0, tr0).1, r2),
        crate::wire::extends(ser_diff(d, r0, tr0).2, tr2),
        r2.len() <= usize::MAX as nat,
        tr2.len() <= usize::MAX as nat,
        d is AddL,
    ensures
        de_diff(s, i, src, r2, tr2) == Some((d, i + ser_diff(d, r0, tr0).0.len())),
    decreases d, 0int,
{
    let bytes = ser_diff(d, r0, tr0).0;
    match d {
        DiffV::AddL(m, t, dl) => {
            let tree = ser_tree(*t, true, r0, tr0);
            let inner = ser_diff(*dl, tree.1, tree.2);
            let k16 = spec_bias(m.kind);
            let p1 = seq![5u8] + le_bytes16(k16);
            let p2 = p1 + tree.0;
            assert(bytes =~= p2 + inner.0);
            crate::wire::lemma_seq_at_concat(s, i, p2, inner.0);
            crate::wire::lemma_seq_at_concat(s, i, p1, tree.0);
            crate::wire::lemma_seq_at_concat(s, i, seq![5u8], le_bytes16(k16));
            assert(s[i + 0] == (seq![5u8])[0]);
            assert(s[i] == 5u8);
            crate::wire::lemma_le16_at(s, i + 1, k16);
            lemma_ser_diff_extends(*dl, tree.1, tree.2);
            crate::wire::lemma_extends_trans(tree.1, inner.1, r2);
            crate::wire::lemma_extends_trans(tree.2, inner.2, tr2);
            lemma_de_ser_tree(*t, true, r0, tr0, s, i + 3, r2, tr2, src);
            lemma_ser_tree_len(*t, true, r0, tr0);
            lemma_ser_diff_len(*dl, tree.1, tree.2);
            let j = i + 3 + tree.0.len();
            lemma_de_ser_diff(*dl, tree.1, tree.2, s, j, r2, tr2, src);
            let out = de_diff(s, i, src, r2, tr2);
            assert(out->Some_0.0 =~= d);
            assert(out == Some((d, i + bytes.len())));
        },
        _ => {},
    }
}

#[verifier::rlimit(100)]
#[verifier::spinoff_prover]
proof fn lemma_dsd_addr(
    d: DiffV,
    r0: Seq<RangeKey>,
    tr0: Seq<TextKeyV>,
    s: Seq<u8>,
    i: int,
    r2: Seq<RangeKey>,
    tr2: Seq<TextKeyV>,
    src: Seq<u8>,
)
    requires
        no_err(d),
        diff_kinds_ok(d),
        diff_heights_ok(d),
        diff_src_ok(d, src),
        crate::wire::seq_at(s, i, ser_diff(d, r0, tr0).0),
        crate::wire::extends(ser_diff(d, r0, tr0).1, r2),
        crate::wire::extends(ser_diff(d, r0, tr0).2, tr2),
        r2.len() <= usize::MAX as nat,
        tr2.len() <= usize::MAX as nat,
        d is AddR,
    ensures
        de_diff(s, i, src, r2, tr2) == Some((d, i + ser_diff(d, r0, tr0).0.len())),
    decreases d, 0int,
{
    let bytes = ser_diff(d, r0, tr0).0;
    match d {
        DiffV::AddR(m, dl, t) => {
            let tree = ser_tree(*t, true, r0, tr0);
            let inner = ser_diff(*dl, tree.1, tree.2);
            let k16 = spec_bias(m.kind);
            let p1 = seq![6u8] + le_bytes16(k16);
            let p2 = p1 + tree.0;
            assert(bytes =~= p2 + inner.0);
            crate::wire::lemma_seq_at_concat(s, i, p2, inner.0);
            crate::wire::lemma_seq_at_concat(s, i, p1, tree.0);
            crate::wire::lemma_seq_at_concat(s, i, seq![6u8], le_bytes16(k16));
            assert(s[i + 0] == (seq![6u8])[0]);
            assert(s[i] == 6u8);
            crate::wire::lemma_le16_at(s, i + 1, k16);
            lemma_ser_diff_extends(*dl, tree.1, tree.2);
            crate::wire::lemma_extends_trans(tree.1, inner.1, r2);
            crate::wire::lemma_extends_trans(tree.2, inner.2, tr2);
            lemma_de_ser_tree(*t, true, r0, tr0, s, i + 3, r2, tr2, src);
            lemma_ser_tree_len(*t, true, r0, tr0);
            lemma_ser_diff_len(*dl, tree.1, tree.2);
            let j = i + 3 + tree.0.len();
            lemma_de_ser_diff(*dl, tree.1, tree.2, s, j, r2, tr2, src);
            let out = de_diff(s, i, src, r2, tr2);
            assert(out->Some_0.0 =~= d);
            assert(out == Some((d, i + bytes.len())));
        },
        _ => {},
    }
}

#[verifier::rlimit(100)]
#[verifier::spinoff_prover]
proof fn lemma_de_ser_diff(
    d: DiffV,
    r0: Seq<RangeKey>,
    tr0: Seq<TextKeyV>,
    s: Seq<u8>,
    i: int,
    r2: Seq<RangeKey>,
    tr2: Seq<TextKeyV>,
    src: Seq<u8>,
)
    requires
        no_err(d),
        diff_kinds_ok(d),
        diff_heights_ok(d),
        diff_src_ok(d, src),
        crate::wire::seq_at(s, i, ser_diff(d, r0, tr0).0),
        crate::wire::extends(ser_diff(d, r0, tr0).1, r2),
        crate::wire::extends(ser_diff(d, r0, tr0).2, tr2),
        r2.len() <= usize::MAX as nat,
        tr2.len() <= usize::MAX as nat,
    ensures
        de_diff(s, i, src, r2, tr2) == Some((d, i + ser_diff(d, r0, tr0).0.len())),
    decreases d, 1int,
{
    let bytes = ser_diff(d, r0, tr0).0;
    match d {
        DiffV::Eps => {
            assert(s[i + 0] == (seq![0u8])[0]);
            assert(s[i] == 0u8);
        },
        DiffV::Conflict(_, _) => {},
        DiffV::RMod(k, sp, bs, be, txt) => {
            let key = TextKeyV { span: sp, byte_start: bs, byte_end: be, text: txt };
            let idx = spec_intern_text(tr0, key).1;
            if find_text(tr0, key) >= 0 {
                lemma_find_text_valid(tr0, key);
            }
            let k16 = spec_bias(k);
            let p1 = seq![1u8] + le_bytes16(k16);
            assert(bytes =~= p1 + le_bytes64(idx as u64));
            crate::wire::lemma_seq_at_concat(s, i, p1, le_bytes64(idx as u64));
            crate::wire::lemma_seq_at_concat(s, i, seq![1u8], le_bytes16(k16));
            assert(s[i + 0] == (seq![1u8])[0]);
            assert(s[i] == 1u8);
            crate::wire::lemma_le16_at(s, i + 1, k16);
            crate::wire::lemma_le64_at(s, i + 3, idx as u64);
            assert(idx < tr2.len());
            assert(tr2[idx] == key);
            assert((idx as u64) as int == idx);
            let out = de_diff(s, i, src, r2, tr2);
            assert(out is Some);
            assert(out->Some_0.0 =~= d);
            assert(out->Some_0.1 == i + 11);
        },
        DiffV::TEps(_, _, _) => {
            lemma_dsd_teps(d, r0, tr0, s, i, r2, tr2, src);
        },
        DiffV::TMod(_, _, _, _) => {
            lemma_dsd_tmod(d, r0, tr0, s, i, r2, tr2, src);
        },
        DiffV::Mod(_, _) => {
            lemma_dsd_modc(d, r0, tr0, s, i, r2, tr2, src);
        },
        DiffV::AddL(_, _, _) => {
            lemma_dsd_addl(d, r0, tr0, s, i, r2, tr2, src);
        },
        DiffV::AddR(_, _, _) => {
            lemma_dsd_addr(d, r0, tr0, s, i, r2, tr2, src);
        },
        DiffV::DelL(dl) => {
            let inner = ser_diff(*dl, r0, tr0);
            assert(bytes =~= seq![7u8] + inner.0);
            crate::wire::lemma_seq_at_concat(s, i, seq![7u8], inner.0);
            assert(s[i + 0] == (seq![7u8])[0]);
            assert(s[i] == 7u8);
            lemma_de_ser_diff(*dl, r0, tr0, s, i + 1, r2, tr2, src);
            let out = de_diff(s, i, src, r2, tr2);
            assert(out->Some_0.0 =~= d);
            assert(out == Some((d, i + bytes.len())));
        },
        DiffV::DelR(dl) => {
            let inner = ser_diff(*dl, r0, tr0);
            assert(bytes =~= seq![8u8] + inner.0);
            crate::wire::lemma_seq_at_concat(s, i, seq![8u8], inner.0);
            assert(s[i + 0] == (seq![8u8])[0]);
            assert(s[i] == 8u8);
            lemma_de_ser_diff(*dl, r0, tr0, s, i + 1, r2, tr2, src);
            let out = de_diff(s, i, src, r2, tr2);
            assert(out->Some_0.0 =~= d);
            assert(out == Some((d, i + bytes.len())));
        },
    }
}
/// Every tree the diff embeds has a height a cached `usize` can hold.
pub open spec fn diff_heights_ok(d: DiffV) -> bool
    decreases d,
{
    match d {
        DiffV::Eps => true,
        DiffV::Conflict(_, _) => true,
        DiffV::RMod(_, _, _, _, _) => true,
        DiffV::TEps(_, x, y) => diff_heights_ok(*x) && diff_heights_ok(*y),
        DiffV::Mod(x, y) => theight(*x) <= usize::MAX as nat && theight(*y) <= usize::MAX as nat,
        DiffV::TMod(_, _, x, y) => diff_heights_ok(*x) && diff_heights_ok(*y),
        DiffV::AddL(_, t, dl) => theight(*t) <= usize::MAX as nat && diff_heights_ok(*dl),
        DiffV::AddR(_, dl, t) => theight(*t) <= usize::MAX as nat && diff_heights_ok(*dl),
        DiffV::DelL(dl) => diff_heights_ok(*dl),
        DiffV::DelR(dl) => diff_heights_ok(*dl),
    }
}


/// Total leaf count of every tree a diff embeds, plus one per leaf rewrite:
/// a bound on how many entries serialisation can intern.
pub open spec fn diff_leaves(d: DiffV) -> nat
    decreases d,
{
    match d {
        DiffV::Eps => 0,
        DiffV::Conflict(_, _) => 0,
        DiffV::RMod(_, _, _, _, _) => 1,
        DiffV::TEps(_, x, y) => diff_leaves(*x) + diff_leaves(*y),
        DiffV::Mod(x, y) => tsize(*x) + tsize(*y),
        DiffV::TMod(_, _, x, y) => diff_leaves(*x) + diff_leaves(*y),
        DiffV::AddL(_, t, dl) => tsize(*t) + diff_leaves(*dl),
        DiffV::AddR(_, dl, t) => tsize(*t) + diff_leaves(*dl),
        DiffV::DelL(dl) => diff_leaves(*dl),
        DiffV::DelR(dl) => diff_leaves(*dl),
    }
}

proof fn lemma_ser_tree_growth(t: TreeV, txt: bool, r: Seq<RangeKey>, tr: Seq<TextKeyV>)
    ensures
        ser_tree(t, txt, r, tr).1.len() <= r.len() + tsize(t),
        ser_tree(t, txt, r, tr).2.len() <= tr.len() + tsize(t),
    decreases t,
{
    match t {
        TreeV::Leaf(_) => {},
        TreeV::Node(_, l, rr) => {
            lemma_ser_tree_growth(*l, txt, r, tr);
            let left = ser_tree(*l, txt, r, tr);
            lemma_ser_tree_growth(*rr, txt, left.1, left.2);
        },
    }
}

proof fn lemma_ser_diff_growth(d: DiffV, r: Seq<RangeKey>, tr: Seq<TextKeyV>)
    ensures
        ser_diff(d, r, tr).1.len() <= r.len() + diff_leaves(d),
        ser_diff(d, r, tr).2.len() <= tr.len() + diff_leaves(d),
    decreases d,
{
    match d {
        DiffV::TEps(_, x, y) => {
            lemma_ser_diff_growth(*x, r, tr);
            let left = ser_diff(*x, r, tr);
            lemma_ser_diff_growth(*y, left.1, left.2);
        },
        DiffV::TMod(_, _, x, y) => {
            lemma_ser_diff_growth(*x, r, tr);
            let left = ser_diff(*x, r, tr);
            lemma_ser_diff_growth(*y, left.1, left.2);
        },
        DiffV::Mod(x, y) => {
            lemma_ser_tree_growth(*x, false, r, tr);
            let from = ser_tree(*x, false, r, tr);
            lemma_ser_tree_growth(*y, true, from.1, from.2);
        },
        DiffV::AddL(_, t, dl) => {
            lemma_ser_tree_growth(*t, true, r, tr);
            let tree = ser_tree(*t, true, r, tr);
            lemma_ser_diff_growth(*dl, tree.1, tree.2);
        },
        DiffV::AddR(_, dl, t) => {
            lemma_ser_tree_growth(*t, true, r, tr);
            let tree = ser_tree(*t, true, r, tr);
            lemma_ser_diff_growth(*dl, tree.1, tree.2);
        },
        DiffV::DelL(dl) => {
            lemma_ser_diff_growth(*dl, r, tr);
        },
        DiffV::DelR(dl) => {
            lemma_ser_diff_growth(*dl, r, tr);
        },
        _ => {},
    }
}

/// The wire form of a plain range entry: the four span fields, the byte
/// range, and the entry's own table position.
pub open spec fn range_entry_bytes(k: RangeKey, idx: int) -> Seq<u8> {
    le_bytes64(k.span.row_start as u64) + le_bytes64(k.span.col_start as u64) + le_bytes64(
        k.span.row_end as u64,
    ) + le_bytes64(k.span.col_end as u64) + le_bytes64(k.byte_start as u64) + le_bytes64(
        k.byte_end as u64,
    ) + le_bytes64(idx as u64)
}

/// The wire form of the plain ranges table from entry `i` on.
pub open spec fn range_table_bytes(r: Seq<RangeKey>, i: int) -> Seq<u8>
    decreases r.len() - i,
{
    if i < 0 || i >= r.len() {
        Seq::empty()
    } else {
        range_entry_bytes(r[i], i) + range_table_bytes(r, i + 1)
    }
}

/// The wire form of a text entry: the range block, the length-prefixed text,
/// and the entry's own table position.
pub open spec fn text_entry_bytes(k: TextKeyV, idx: int) -> Seq<u8> {
    le_bytes64(k.span.row_start as u64) + le_bytes64(k.span.col_start as u64) + le_bytes64(
        k.span.row_end as u64,
    ) + le_bytes64(k.span.col_end as u64) + le_bytes64(k.byte_start as u64) + le_bytes64(
        k.byte_end as u64,
    ) + le_bytes64(k.text.len() as u64) + k.text + le_bytes64(idx as u64)
}

/// The wire form of the text ranges table from entry `i` on.
pub open spec fn text_table_bytes(tr: Seq<TextKeyV>, i: int) -> Seq<u8>
    decreases tr.len() - i,
{
    if i < 0 || i >= tr.len() {
        Seq::empty()
    } else {
        text_entry_bytes(tr[i], i) + text_table_bytes(tr, i + 1)
    }
}

/// The full persisted form of a diff: the two interning tables, each with
/// its entry count first, then the diff byte stream.
pub open spec fn ser_everything(d: DiffV) -> Seq<u8> {
    let res = ser_diff(d, Seq::empty(), Seq::empty());
    le_bytes64(res.1.len() as u64) + range_table_bytes(res.1, 0) + le_bytes64(res.2.len() as u64)
        + text_table_bytes(res.2, 0) + res.0
}

/// Decodes `n` plain range entries; they must come in table order.
pub open spec fn de_range_table(b: Seq<u8>, i: int, n: nat, acc: Seq<RangeKey>) -> Option<
    (Seq<RangeKey>, int),
>
    decreases n,
{
    if n == 0 {
        Some((acc, i))
    } else if 0 <= i && i + 56 <= b.len() {
        let rs = le64_at(b, i);
        let cs = le64_at(b, i + 8);
        let re = le64_at(b, i + 16);
        let ce = le64_at(b, i + 24);
        let bs = le64_at(b, i + 32);
        let be = le64_at(b, i + 40);
        let idx = le64_at(b, i + 48);
        if rs <= usize::MAX as u64 && cs <= usize::MAX as u64 && re <= usize::MAX as u64 && ce
            <= usize::MAX as u64 && bs <= usize::MAX as u64 && be <= usize::MAX as u64 && idx as int
            == acc.len() {
            let k = RangeKey {
                span: Span {
                    row_start: rs as usize,
                    col_start: cs as usize,
                    row_end: re as usize,
                    col_end: ce as usize,
                },
                byte_start: bs as usize,
                byte_end: be as usize,
            };
            de_range_table(b, i + 56, (n - 1) as nat, acc.push(k))
        } else {
            None
        }
    } else {
        None
    }
}

/// Decodes `n` text entries; they must come in table order.
pub open spec fn de_text_table(b: Seq<u8>, i: int, n: nat, acc: Seq<TextKeyV>) -> Option<
    (Seq<TextKeyV>, int),
>
    decreases n,
{
    if n == 0 {
        Some((acc, i))
    } else if 0 <= i && i + 56 <= b.len() {
        let rs = le64_at(b, i);
        let cs = le64_at(b, i + 8);
        let re = le64_at(b, i + 16);
        let ce = le64_at(b, i + 24);
        let bs = le64_at(b, i + 32);
        let be = le64_at(b, i + 40);
        let tl = le64_at(b, i + 48);
        if rs <= usize::MAX as u64 && cs <= usize::MAX as u64 && re <= usize::MAX as u64 && ce
            <= usize::MAX as u64 && bs <= usize::MAX as u64 && be <= usize::MAX as u64 && tl
            <= usize::MAX as u64 && i + 64 + tl <= b.len() {
            let idx = le64_at(b, i + 56 + tl);
            if idx as int == acc.len() {
                let k = TextKeyV {
                    span: Span {
                        row_start: rs as usize,
                        col_start: cs as usize,
                        row_end: re as usize,
                        col_end: ce as usize,
                    },
                    byte_start: bs as usize,
                    byte_end: be as usize,
                    text: b.subrange(i + 56, i + 56 + tl),
                };
                de_text_table(b, i + 64 + tl, (n - 1) as nat, acc.push(k))
            } else {
                None
            }
        } else {
            None
        }
    } else {
        None
    }
}

/// Decodes the full persisted form back to a diff against the base source.
pub open spec fn de_everything(b: Seq<u8>, src: Seq<u8>) -> Option<DiffV> {
    if b.len() < 8 {
        None
    } else {
        let rl = le64_at(b, 0);
        if rl <= usize::MAX as u64 {
            match de_range_table(b, 8, rl as nat, Seq::empty()) {
                None => None,
                Some((r, i)) => if i + 8 <= b.len() {
                    let tl = le64_at(b, i);
                    if tl <= usize::MAX as u64 {
                        match de_text_table(b, i + 8, tl as nat, Seq::empty()) {
                            None => None,
                            Some((tr, j)) => match de_diff(b, j, src, r, tr) {
                                None => None,
                                Some((d, _)) => Some(d),
                            },
                        }
                    } else {
                        None
                    }
                } else {
                    None
                },
            }
        } else {
            None
        }
    }
}

#[verifier::rlimit(100)]
#[verifier::spinoff_prover]
proof fn lemma_range_table_round(r: Seq<RangeKey>, s: Seq<u8>, i: int, k: int)
    requires
        0 <= k <= r.len(),
        r.len() <= usize::MAX as nat,
        crate::wire::seq_at(s, i, range_table_bytes(r, k)),
    ensures
        de_range_table(s, i, (r.len() - k) as nat, r.take(k)) == Some(
            (r, i + range_table_bytes(r, k).len()),
        ),
    decreases r.len() - k,
{
    if k == r.len() {
        assert(r.take(k) =~= r);
    } else {
        let e = range_entry_bytes(r[k], k);
        let rest = range_table_bytes(r, k + 1);
        crate::wire::lemma_seq_at_concat(s, i, e, rest);
        let kk = r[k];
        let p1 = le_bytes64(kk.span.row_start as u64);
        let p2 = p1 + le_bytes64(kk.span.col_start as u64);
        let p3 = p2 + le_bytes64(kk.span.row_end as u64);
        let p4 = p3 + le_bytes64(kk.span.col_end as u64);
        let p5 = p4 + le_bytes64(kk.byte_start as u64);
        let p6 = p5 + le_bytes64(kk.byte_end as u64);
        assert(e =~= p6 + le_bytes64(k as u64));
        crate::wire::lemma_seq_at_concat(s, i, p6, le_bytes64(k as u64));
        crate::wire::lemma_seq_at_concat(s, i, p5, le_bytes64(kk.byte_end as u64));
        crate::wire::lemma_seq_at_concat(s, i, p4, le_bytes64(kk.byte_start as u64));
        crate::wire::lemma_seq_at_concat(s, i, p3, le_bytes64(kk.span.col_end as u64));
        crate::wire::lemma_seq_at_concat(s, i, p2, le_bytes64(kk.span.row_end as u64));
        crate::wire::lemma_seq_at_concat(s, i, p1, le_bytes64(kk.span.col_start as u64));
        crate::wire::lemma_le64_at(s, i, kk.span.row_start as u64);
        crate::wire::lemma_le64_at(s, i + 8, kk.span.col_start as u64);
        crate::wire::lemma_le64_at(s, i + 16, kk.span.row_end as u64);
        crate::wire::lemma_le64_at(s, i + 24, kk.span.col_end as u64);
        crate::wire::lemma_le64_at(s, i + 32, kk.byte_start as u64);
        crate::wire::lemma_le64_at(s, i + 40, kk.byte_end as u64);
        crate::wire::lemma_le64_at(s, i + 48, k as u64);
        lemma_range_table_round(r, s, i + 56, k + 1);
        assert(r.take(k).push(r[k]) =~= r.take(k + 1));
        assert(de_range_table(s, i, (r.len() - k) as nat, r.take(k)) == Some(
            (r, i + range_table_bytes(r, k).len()),
        ));
    }
}

#[verifier::rlimit(100)]
#[verifier::spinoff_prover]
proof fn lemma_text_table_round(tr: Seq<TextKeyV>, s: Seq<u8>, i: int, k: int)
    requires
        0 <= k <= tr.len(),
        tr.len() <= usize::MAX as nat,
        forall|j: int| 0 <= j < tr.len() ==> (#[trigger] tr[j]).text.len() <= usize::MAX as nat,
        crate::wire::seq_at(s, i, text_table_bytes(tr, k)),
    ensures
        de_text_table(s, i, (tr.len() - k) as nat, tr.take(k)) == Some(
            (tr, i + text_table_bytes(tr, k).len()),
        ),
    decreases tr.len() - k,
{
    if k == tr.len() {
        assert(tr.take(k) =~= tr);
    } else {
        let e = text_entry_bytes(tr[k], k);
        let rest = text_table_bytes(tr, k + 1);
        crate::wire::lemma_seq_at_concat(s, i, e, rest);
        let kk = tr[k];
        let tl = kk.text.len() as int;
        let p1 = le_bytes64(kk.span.row_start as u64);
        let p2 = p1 + le_bytes64(kk.span.col_start as u64);
        let p3 = p2 + le_bytes64(kk.span.row_end as u64);
        let p4 = p3 + le_bytes64(kk.span.col_end as u64);
        let p5 = p4 + le_bytes64(kk.byte_start as u64);
        let p6 = p5 + le_bytes64(kk.byte_end as u64);
        let p7 = p6 + le_bytes64(kk.text.len() as u64);
        let p8 = p7 + kk.text;
        assert(e =~= p8 + le_bytes64(k as u64));
        crate::wire::lemma_seq_at_concat(s, i, p8, le_bytes64(k as u64));
        crate::wire::lemma_seq_at_concat(s, i, p7, kk.text);
        crate::wire::lemma_seq_at_concat(s, i, p6, le_bytes64(kk.text.len() as u64));
        crate::wire::lemma_seq_at_concat(s, i, p5, le_bytes64(kk.byte_end as u64));
        crate::wire::lemma_seq_at_concat(s, i, p4, le_bytes64(kk.byte_start as u64));
        crate::wire::lemma_seq_at_concat(s, i, p3, le_bytes64(kk.span.col_end as u64));
        crate::wire::lemma_seq_at_concat(s, i, p2, le_bytes64(kk.span.row_end as u64));
        crate::wire::lemma_seq_at_concat(s, i, p1, le_bytes64(kk.span.col_start as u64));
        crate::wire::lemma_le64_at(s, i, kk.span.row_start as u64);
        crate::wire::lemma_le64_at(s, i + 8, kk.span.col_start as u64);
        crate::wire::lemma_le64_at(s, i + 16, kk.span.row_end as u64);
        crate::wire::lemma_le64_at(s, i + 24, kk.span.col_end as u64);
        crate::wire::lemma_le64_at(s, i + 32, kk.byte_start as u64);
        crate::wire::lemma_le64_at(s, i + 40, kk.byte_end as u64);
        crate::wire::lemma_le64_at(s, i + 48, kk.text.len() as u64);
        crate::wire::lemma_le64_at(s, i + 56 + tl, k as u64);
        assert(s.subrange(i + 56, i + 56 + tl) =~= kk.text);
        lemma_text_table_round(tr, s, i + 56 + tl + 8, k + 1);
        assert(tr.take(k).push(tr[k]) =~= tr.take(k + 1));
        assert(de_text_table(s, i, (tr.len() - k) as nat, tr.take(k)) == Some(
            (tr, i + text_table_bytes(tr, k).len()),
        ));
    }
}

/// The codec round trip: any conflict-free diff whose trees are sized for
/// this machine and whose `from` sides match the base source comes back
/// unchanged from its own persisted form.
#[verifier::rlimit(100)]
#[verifier::spinoff_prover]
pub proof fn lemma_codec_round_trip(d: DiffV, src: Seq<u8>)
    requires
        no_err(d),
        diff_kinds_ok(d),
        diff_heights_ok(d),
        diff_src_ok(d, src),
        diff_leaves(d) <= usize::MAX as nat,
        text_lens_ok(ser_diff(d, Seq::empty(), Seq::empty()).2),
    ensures
        de_everything(ser_everything(d), src) == Some(d),
{
    let res = ser_diff(d, Seq::empty(), Seq::empty());
    let rf = res.1;
    let trf = res.2;
    lemma_ser_diff_growth(d, Seq::empty(), Seq::empty());
    let s = ser_everything(d);
    let c1 = le_bytes64(rf.len() as u64);
    let c2 = range_table_bytes(rf, 0);
    let c3 = le_bytes64(trf.len() as u64);
    let c4 = text_table_bytes(trf, 0);
    assert(s =~= ((((c1 + c2) + c3) + c4) + res.0));
    assert(crate::wire::seq_at(s, 0, s)) by {
        assert(forall|kq: int| 0 <= kq < s.len() ==> s[0 + kq] == #[trigger] s[kq]);
    }
    crate::wire::lemma_seq_at_concat(s, 0, (((c1 + c2) + c3) + c4), res.0);
    crate::wire::lemma_seq_at_concat(s, 0, ((c1 + c2) + c3), c4);
    crate::wire::lemma_seq_at_concat(s, 0, (c1 + c2), c3);
    crate::wire::lemma_seq_at_concat(s, 0, c1, c2);
    crate::wire::lemma_le64_at(s, 0, rf.len() as u64);
    lemma_range_table_round(rf, s, 8, 0);
    assert(Seq::<RangeKey>::empty() =~= rf.take(0));
    let i1: int = 8 + c2.len() as int;
    crate::wire::lemma_le64_at(s, i1, trf.len() as u64);
    lemma_text_table_round(trf, s, i1 + 8, 0);
    assert(Seq::<TextKeyV>::empty() =~= trf.take(0));
    let j: int = i1 + 8 + c4.len() as int;
    lemma_de_ser_diff(d, Seq::empty(), Seq::empty(), s, j, rf, trf, src);
}

/// Every text entry of the table has a machine-sized length.
pub open spec fn text_lens_ok(tr: Seq<TextKeyV>) -> bool {
    forall|j: int| 0 <= j < tr.len() ==> (#[trigger] tr[j]).text.len() <= usize::MAX as nat
}


/// Reads a machine word at `*i`, little-endian, and advances `*i` past it.
pub fn read_usize(i: &mut usize, v: &[u8]) -> (r: usize)
    requires
        *old(i) + 8 <= v@.len(),
        le64_at(v@, *old(i) as int) <= usize::MAX as u64,
    ensures
        r as u64 == le64_at(v@, *old(i) as int),
        *final(i) == *old(i) + 8,
{
    let l = v.len();
    proof {
        assert(*i + 8 <= l);
    }
    let x = read_le64(v, *i);
    *i = *i + 8;
    x as usize
}

/// Serialises a diff together with its two interning tables: each table is
/// written with its entry count first, entries in table order, then the diff
/// byte stream follows.  Two runs on the same diff give identical bytes.
pub fn serialise_everything(d: &Diff) -> (out: Vec<u8>)
    requires
        diff_wf(*d),
        no_err(d@),
        diff_kinds_ok(d@),
    ensures
        out@ == ser_everything(d@),
{
    let mut r: Ranges = Vec::new();
    let mut tr: TextRanges = Vec::new();
    let ds = serialise(d, &mut r, &mut tr);
    proof {
        assert(trs_view(Seq::<TextKey>::empty()) =~= Seq::<TextKeyV>::empty());
        assert(r@ == ser_diff(d@, Seq::empty(), Seq::empty()).1);
        assert(trs_view(tr@) == ser_diff(d@, Seq::empty(), Seq::empty()).2);
    }
    let mut out: Vec<u8> = Vec::new();
    push_le64(&mut out, r.len() as u64);
    let ghost base1 = out@;
    let mut i: usize = 0;
    while i < r.len()
        invariant
            i <= r@.len(),
            out@ + range_table_bytes(r@, i as int) == base1 + range_table_bytes(r@, 0),
        decreases r@.len() - i,
    {
        let k = &r[i];
        let ghost before = out@;
        push_le64(&mut out, k.span.row_start as u64);
        push_le64(&mut out, k.span.col_start as u64);
        push_le64(&mut out, k.span.row_end as u64);
        push_le64(&mut out, k.span.col_end as u64);
        push_le64(&mut out, k.byte_start as u64);
        push_le64(&mut out, k.byte_end as u64);
        push_le64(&mut out, i as u64);
        proof {
            assert(out@ =~= before + range_entry_bytes(r@[i as int], i as int));
            assert(range_table_bytes(r@, i as int) == range_entry_bytes(r@[i as int], i as int)
                + range_table_bytes(r@, i as int + 1));
            assert(out@ + range_table_bytes(r@, i as int + 1) =~= before + range_table_bytes(
                r@,
                i as int,
            ));
        }
        i += 1;
    }
    proof {
        assert(range_table_bytes(r@, r@.len() as int) =~= Seq::<u8>::empty());
        assert(out@ + Seq::<u8>::empty() =~= out@);
        assert(out@ =~= base1 + range_table_bytes(r@, 0));
    }
    push_le64(&mut out, tr.len() as u64);
    let ghost base2 = out@;
    let mut i: usize = 0;
    while i < tr.len()
        invariant
            i <= tr@.len(),
            out@ + text_table_bytes(trs_view(tr@), i as int) == base2 + text_table_bytes(
                trs_view(tr@),
                0,
            ),
        decreases tr@.len() - i,
    {
        let k = &tr[i];
        let ghost before = out@;
        push_le64(&mut out, k.span.row_start as u64);
        push_le64(&mut out, k.span.col_start as u64);
        push_le64(&mut out, k.span.row_end as u64);
        push_le64(&mut out, k.span.col_end as u64);
        push_le64(&mut out, k.byte_start as u64);
        push_le64(&mut out, k.byte_end as u64);
        push_le64(&mut out, k.text.len() as u64);
        let mut q: usize = 0;
        let ghost mid = out@;
        while q < k.text.len()
            invariant
                q <= k.text@.len(),
                out@ == mid + k.text@.take(q as int),
            decreases k.text@.len() - q,
        {
            let byte = k.text[q];
            out.push(byte);
            q += 1;
            proof {
                assert(out@ =~= mid + k.text@.take(q as int));
            }
        }
        proof {
            assert(k.text@.take(k.text@.len() as int) =~= k.text@);
        }
        push_le64(&mut out, i as u64);
        proof {
            assert(trs_view(tr@)[i as int] == tr@[i as int]@);
            assert(out@ =~= before + text_entry_bytes(trs_view(tr@)[i as int], i as int));
            assert(text_table_bytes(trs_view(tr@), i as int) == text_entry_bytes(
                trs_view(tr@)[i as int],
                i as int,
            ) + text_table_bytes(trs_view(tr@), i as int + 1));
            assert(out@ + text_table_bytes(trs_view(tr@), i as int + 1) =~= before
                + text_table_bytes(trs_view(tr@), i as int));
        }
        i += 1;
    }
    proof {
        assert(text_table_bytes(trs_view(tr@), tr@.len() as int) =~= Seq::<u8>::empty());
        assert(out@ + Seq::<u8>::empty() =~= out@);
        assert(out@ =~= base2 + text_table_bytes(trs_view(tr@), 0));
    }
    let mut ds = ds;
    out.append(&mut ds);
    proof {
        assert(out@ =~= ser_everything(d@));
    }
    out
}

/// Reads back a diff from its persisted form alone, against the base
/// source.  Fails, all or nothing, on a stream that violates the format.
#[verifier::rlimit(100)]
#[verifier::spinoff_prover]
#[verifier::loop_isolation(false)]
pub fn deserialise_everything(v: &[u8], src: &[u8]) -> (out: Result<Diff, DecodeError>)
    ensures
        match out {
            Ok(d) => de_everything(v@, src@) == Some(d@) && diff_wf(d) && no_err(d@),
            Err(_) => de_everything(v@, src@) is None,
        },
{
    if v.len() < 8 {
        return Err(DecodeError { offset: 0 });
    }
    let rl64 = read_le64(v, 0);
    if rl64 > usize::MAX as u64 {
        return Err(DecodeError { offset: 0 });
    }
    let rl = rl64 as usize;
    let mut r: Ranges = Vec::new();
    let mut pos: usize = 8;
    let mut n: usize = rl;
    while n > 0
        invariant
            pos <= v@.len(),
            de_range_table(v@, 8, rl as nat, Seq::empty()) == de_range_table(
                v@,
                pos as int,
                n as nat,
                r@,
            ),
            r@.len() + n == rl,
        decreases n,
    {
        if v.len() - pos < 56 {
            return Err(DecodeError { offset: pos });
        }
        let rs = read_le64(v, pos);
        let cs = read_le64(v, pos + 8);
        let re = read_le64(v, pos + 16);
        let ce = read_le64(v, pos + 24);
        let bs = read_le64(v, pos + 32);
        let be = read_le64(v, pos + 40);
        let idx = read_le64(v, pos + 48);
        let um = usize::MAX as u64;
        if rs > um || cs > um || re > um || ce > um || bs > um || be > um {
            return Err(DecodeError { offset: pos });
        }
        if idx != r.len() as u64 {
            return Err(DecodeError { offset: pos });
        }
        let k = RangeKey {
            span: Span {
                row_start: rs as usize,
                col_start: cs as usize,
                row_end: re as usize,
                col_end: ce as usize,
            },
            byte_start: bs as usize,
            byte_end: be as usize,
        };
        let ghost p0 = pos as int;
        let ghost n0 = n as nat;
        let ghost racc = r@;
        r.push(k);
        pos += 56;
        n -= 1;
        proof {
            assert(de_range_table(v@, p0, n0, racc) == de_range_table(
                v@,
                pos as int,
                n as nat,
                r@,
            ));
        }
    }
    if v.len() - pos < 8 {
        return Err(DecodeError { offset: pos });
    }
    let tl64 = read_le64(v, pos);
    if tl64 > usize::MAX as u64 {
        return Err(DecodeError { offset: pos });
    }
    let tl = tl64 as usize;
    let ghost tstart: int = pos as int + 8;
    pos += 8;
    let mut tr: TextRanges = Vec::new();
    proof {
        assert(trs_view(tr@) =~= Seq::<TextKeyV>::empty());
    }
    let mut n: usize = tl;
    while n > 0
        invariant
            pos <= v@.len(),
            de_text_table(v@, tstart, tl as nat, Seq::empty()) == de_text_table(
                v@,
                pos as int,
                n as nat,
                trs_view(tr@),
            ),
            trs_view(tr@).len() + n == tl,
        decreases n,
    {
        if v.len() - pos < 56 {
            return Err(DecodeError { offset: pos });
        }
        let rs = read_le64(v, pos);
        let cs = read_le64(v, pos + 8);
        let re = read_le64(v, pos + 16);
        let ce = read_le64(v, pos + 24);
        let bs = read_le64(v, pos + 32);
        let be = read_le64(v, pos + 40);
        let txl = read_le64(v, pos + 48);
        let um = usize::MAX as u64;
        if rs > um || cs > um || re > um || ce > um || bs > um || be > um || txl > um {
            return Err(DecodeError { offset: pos });
        }
        let txl = txl as usize;
        if txl > v.len() || v.len() - pos < 64 || v.len() - pos - 64 < txl {
            return Err(DecodeError { offset: pos });
        }
        let text = bytes_range(v, pos + 56, pos + 56 + txl);
        let idx = read_le64(v, pos + 56 + txl);
        if idx != tr.len() as u64 {
            return Err(DecodeError { offset: pos });
        }
        let k = TextKey {
            span: Span {
                row_start: rs as usize,
                col_start: cs as usize,
                row_end: re as usize,
                col_end: ce as usize,
            },
            byte_start: bs as usize,
            byte_end: be as usize,
            text,
        };
        let ghost old_trv = trs_view(tr@);
        let ghost p0 = pos as int;
        let ghost n0 = n as nat;
        tr.push(k);
        proof {
            assert(trs_view(tr@) =~= old_trv.push(k@));
        }
        pos += 64 + txl;
        n -= 1;
        proof {
            assert(k@.text =~= v@.subrange(p0 + 56, p0 + 56 + txl as int));
            assert(de_text_table(v@, p0, n0, old_trv) == de_text_table(
                v@,
                pos as int,
                n as nat,
                trs_view(tr@),
            ));
        }
    }
    match deserialise(v, src, &r, &tr, pos) {
        Ok(p) => Ok(p.0),
        Err(e) => Err(e),
    }
}

} // verus!
