//! Leaf data and node metadata of the concrete syntax trees.
//!
//! A leaf carries the parser's kind identifier, its row/column span, its byte
//! range in the source, the text it covers, and the parser's `named` flag.
//! The kind is `None` only for the two synthetic markers: the nil leaf that
//! terminates child lists, and the cons metadata that encodes list structure
//! inside the binary tree.

use vstd::prelude::*;

verus! {

/// Row/column range of a node in the source text.
#[derive(Debug, Clone, Copy, PartialEq, Eq, Hash, Structural)]
pub struct Span {
    pub row_start: usize,
    pub col_start: usize,
    pub row_end: usize,
    pub col_end: usize,
}

/// Metadata of a non-leaf node: its kind identifier, `None` for the
/// synthetic cons marker.
#[derive(Debug, Clone, Copy, PartialEq, Eq, Hash, Structural)]
pub struct Metadata {
    pub kind: Option<u16>,
}

/// Leaf data: kind identifier (`None` only for the synthetic nil leaf),
/// row/column span, byte range, covered text, and the parser's `named` flag.
#[derive(Debug, PartialEq, Eq, Hash)]
pub struct Data {
    pub kind: Option<u16>,
    pub span: Span,
    pub byte_start: usize,
    pub byte_end: usize,
    pub text: Vec<u8>,
    pub named: bool,
}

impl Clone for Data {
    fn clone(&self) -> (res: Self)
        ensures
            res@ == self@,
    {
        let res = Data {
            kind: self.kind,
            span: self.span,
            byte_start: self.byte_start,
            byte_end: self.byte_end,
            text: self.text.clone(),
            named: self.named,
        };
        proof {
            assert(res@ =~= self@);
        }
        res
    }
}

/// Mathematical value of a leaf: as `Data`, with the text as a sequence.
#[verifier::ext_equal]
pub struct DataV {
    pub kind: Option<u16>,
    pub span: Span,
    pub byte_start: usize,
    pub byte_end: usize,
    pub text: Seq<u8>,
    pub named: bool,
}

impl View for Data {
    type V = DataV;

    open spec fn view(&self) -> DataV {
        DataV {
            kind: self.kind,
            span: self.span,
            byte_start: self.byte_start,
            byte_end: self.byte_end,
            text: self.text@,
            named: self.named,
        }
    }
}

/// The span used by the synthetic nil leaf.
pub open spec fn spec_span_zero() -> Span {
    Span { row_start: 0, col_start: 0, row_end: 0, col_end: 0 }
}

/// The synthetic nil leaf that terminates child lists.
pub open spec fn spec_data_nil() -> DataV {
    DataV {
        kind: None,
        span: spec_span_zero(),
        byte_start: 0,
        byte_end: 0,
        text: Seq::empty(),
        named: false,
    }
}

/// The synthetic cons metadata that encodes list structure.
pub open spec fn spec_meta_cons() -> Metadata {
    Metadata { kind: None }
}

/// Builds the synthetic nil leaf.
pub fn data_nil() -> (d: Data)
    ensures
        d@ == spec_data_nil(),
{
    let d = Data {
        kind: None,
        span: Span { row_start: 0, col_start: 0, row_end: 0, col_end: 0 },
        byte_start: 0,
        byte_end: 0,
        text: Vec::new(),
        named: false,
    };
    proof {
        assert(d@ =~= spec_data_nil());
    }
    d
}

/// Builds the synthetic cons metadata.
pub fn meta_cons() -> (m: Metadata)
    ensures
        m == spec_meta_cons(),
{
    Metadata { kind: None }
}

/// Compares two optional kind identifiers.
pub fn kind_eq(a: &Option<u16>, b: &Option<u16>) -> (r: bool)
    ensures
        r == (a == b),
{
    match (a, b) {
        (None, None) => true,
        (Some(x), Some(y)) => x == y,
        _ => false,
    }
}

/// Compares two metadata values.
pub fn meta_eq(a: &Metadata, b: &Metadata) -> (r: bool)
    ensures
        r == (a == b),
{
    kind_eq(&a.kind, &b.kind)
}

/// Compares two byte vectors by contents.
pub fn bytes_eq(a: &Vec<u8>, b: &Vec<u8>) -> (r: bool)
    ensures
        r == (a@ == b@),
{
    if a.len() != b.len() {
        return false;
    }
    let mut i: usize = 0;
    while i < a.len()
        invariant
            i <= a.len(),
            a@.len() == b@.len(),
            forall|j: int| 0 <= j < i ==> a@[j] == b@[j],
        decreases a.len() - i,
    {
        if a[i] != b[i] {
            return false;
        }
        i += 1;
    }
    proof {
        assert(a@ =~= b@);
    }
    true
}

/// Compares two spans.
pub fn span_eq(a: &Span, b: &Span) -> (r: bool)
    ensures
        r == (a == b),
{
    a.row_start == b.row_start && a.col_start == b.col_start && a.row_end == b.row_end
        && a.col_end == b.col_end
}

/// Compares two leaves structurally, over all five attributes.
pub fn data_eq(a: &Data, b: &Data) -> (r: bool)
    ensures
        r == (a@ == b@),
{
    let r = kind_eq(&a.kind, &b.kind) && span_eq(&a.span, &b.span) && a.byte_start == b.byte_start
        && a.byte_end == b.byte_end && bytes_eq(&a.text, &b.text) && a.named == b.named;
    proof {
        if r {
            assert(a@ =~= b@);
        }
    }
    r
}

} // verus!
