use dcg::bcst::Twh;
use dcg::data::{Data, Metadata, Span};
use dcg::diff::ered;
use dcg::differ::diff_wrapper;
use dcg::merge::merge;
use dcg::patch::patch;
use dcg::rcst::{List, RCSTree, bcst_to_rcst, rcst_to_bcst};

fn mk_data(node: tree_sitter::Node, src: &str) -> Data {
    let start = node.start_position();
    let end = node.end_position();
    Data {
        kind: Some(node.kind_id()),
        span: Span {
            row_start: start.row,
            col_start: start.column,
            row_end: end.row,
            col_end: end.column,
        },
        byte_start: node.start_byte(),
        byte_end: node.end_byte(),
        text: src.as_bytes()[node.start_byte()..node.end_byte()].to_vec(),
        named: node.is_named(),
    }
}

fn node_to_rcst(node: tree_sitter::Node, src: &str) -> RCSTree {
    if node.child_count() == 0 {
        RCSTree::Leaf(mk_data(node, src))
    } else {
        let mut children = List::Nil;
        for k in (0..node.child_count()).rev() {
            let child = node.child(k).unwrap();
            children = List::Cons(Box::new(node_to_rcst(child, src)), Box::new(children));
        }
        RCSTree::Node(Metadata { kind: Some(node.kind_id()) }, children)
    }
}

fn parse_rcst(code: &str) -> RCSTree {
    let mut parser = tree_sitter::Parser::new();
    parser
        .set_language(&tree_sitter_rust::LANGUAGE.into())
        .unwrap();
    let tree = parser.parse(code, None).unwrap();
    node_to_rcst(tree.root_node(), code)
}

fn parse_bcst(code: &str) -> Twh {
    rcst_to_bcst(&parse_rcst(code))
}

#[test]
fn no_difference() {
    let code = "pub fn foo() {\n  1\n}";

    let bcst = parse_bcst(code);

    let diff = diff_wrapper(&bcst, &bcst);

    let patched = patch(&bcst, &diff).unwrap();

    assert_eq!(bcst, patched)
}

#[test]
fn bcst_diff0() {
    let left = "pub fn foo() {\n  1\n}";
    let right = "pub fn bar() {\n  1\n}";

    let lbcst = parse_bcst(left);
    let rbcst = parse_bcst(right);

    let diff = diff_wrapper(&lbcst, &rbcst);

    let patched = patch(&lbcst, &diff).unwrap();

    assert_eq!(rbcst, patched)
}

#[test]
fn bcst_diff1() {
    let left = "pub fn foo() {\n  1\n}";
    let right = "pub fn foo() {\nlet x = 5;\n  3\n}";

    let lbcst = parse_bcst(left);
    let rbcst = parse_bcst(right);

    let diff = diff_wrapper(&lbcst, &rbcst);

    let patched = patch(&lbcst, &diff).unwrap();

    assert_eq!(rbcst, patched)
}

#[test]
fn bcst_diff2() {
    let left = "pub fn foo() {\n  1\n}";
    let right = "struct Foo { i: i32 }";

    let lbcst = parse_bcst(left);
    let rbcst = parse_bcst(right);

    let diff = diff_wrapper(&lbcst, &rbcst);

    println!("{:#?}", diff);

    let patched = patch(&lbcst, &diff).unwrap();

    println!("{:#?}", rbcst);
    println!("{:#?}", patched);

    let ps = dcg::bcst::bcst_to_code(&patched.t);

    println!("{}", String::from_utf8_lossy(&ps));

    assert_eq!(rbcst, patched);
}

#[test]
fn bcst_to_code() {
    let code = "pub fn foo() {\n  1\n}";

    let bcst = parse_bcst(code);

    let stred = dcg::bcst::bcst_to_code(&bcst.t);

    assert_eq!(code.as_bytes().to_vec(), stred)
}

#[test]
fn ered0() {
    let left = "pub fn foo() {\n  1\n}";
    let right = "pub fn bar() {\n  1\n}";

    let lbcst = parse_bcst(left);
    let rbcst = parse_bcst(right);

    let diff0 = diff_wrapper(&lbcst, &rbcst);

    let patch0 = patch(&lbcst, &diff0).unwrap();

    let diff1 = ered(&diff0);

    let patch1 = patch(&lbcst, &diff1).unwrap();

    assert_eq!(patch0, patch1)
}

#[test]
fn ered1() {
    let left = "pub fn foo() {\n  1\n}";
    let right = "pub fn foo() {\nlet x = 5;\n  3\n}";

    let lbcst = parse_bcst(left);
    let rbcst = parse_bcst(right);

    let diff0 = diff_wrapper(&lbcst, &rbcst);

    let patch0 = patch(&lbcst, &diff0).unwrap();

    let diff1 = ered(&diff0);

    let patch1 = patch(&lbcst, &diff1).unwrap();

    assert_eq!(patch0, patch1)
}

#[test]
fn merge_merge0() {
    let base = "pub fn foo() { 5 + 6 }";
    let left = "pub fn foo() { 5 + 7 }";
    let right = "pub fn foo() { 5 - 6 }";
    let res = "pub fn foo() { 5 - 7 }";

    let bbcst = parse_bcst(base);
    let lbcst = parse_bcst(left);
    let rbcst = parse_bcst(right);
    let sbcst = parse_bcst(res);

    let diff_bl = diff_wrapper(&bbcst, &lbcst);
    let diff_br = diff_wrapper(&bbcst, &rbcst);
    let diff_bs = diff_wrapper(&bbcst, &sbcst);

    let mut conflicts = Vec::new();

    let diff_m = merge(&diff_bl, &diff_br, &mut conflicts);

    assert!(conflicts.is_empty());

    assert_eq!(diff_bs, diff_m);
}

#[test]
fn merge_merge1() {
    let base = "pub fn foo() { 5 + 6 }";
    let left = "pub fn foo() { 5 + 7 }";
    let right = "pub fn foo() { 5 + 8 }";

    let bbcst = parse_bcst(base);
    let lbcst = parse_bcst(left);
    let rbcst = parse_bcst(right);

    let diff_bl = diff_wrapper(&bbcst, &lbcst);
    let diff_br = diff_wrapper(&bbcst, &rbcst);

    let mut conflicts = Vec::new();

    merge(&diff_bl, &diff_br, &mut conflicts);

    assert_eq!(conflicts.len(), 1);
}

#[test]
fn serde_conservation() {
    let left = "pub fn foo() {\n  1\n}";
    let right = "fn bar() {\n  baz(5); 'c'\n}";

    let lbcst = parse_bcst(left);
    let rbcst = parse_bcst(right);

    let diff = diff_wrapper(&lbcst, &rbcst);

    let mut ranges: dcg::serde::Ranges = Vec::new();
    let mut tranges: dcg::serde::TextRanges = Vec::new();

    let ser = dcg::serde::serialise(&diff, &mut ranges, &mut tranges);

    let (de, _) = dcg::serde::deserialise(&ser, left.as_bytes(), &ranges, &tranges, 0).unwrap();

    assert_eq!(diff, de)
}

#[test]
fn codec_envelope_round_trip() {
    let left = "pub fn foo() {\n  1\n}";
    let right = "pub fn foo() {\nlet x = 5;\n  3\n}";

    let lbcst = parse_bcst(left);
    let rbcst = parse_bcst(right);

    let diff = ered(&diff_wrapper(&lbcst, &rbcst));

    let bytes = dcg::serde::serialise_everything(&diff);
    let de = dcg::serde::deserialise_everything(&bytes, left.as_bytes()).unwrap();

    assert_eq!(diff, de);

    // Two runs give identical bytes.
    let again = dcg::serde::serialise_everything(&diff);
    assert_eq!(bytes, again);
}

#[test]
fn empty_sources_give_eps() {
    let bcst = parse_bcst("");
    let diff = diff_wrapper(&bcst, &bcst);
    assert_eq!(diff, dcg::diff::Diff::Eps);
    assert_eq!(ered(&diff), dcg::diff::Diff::Eps);
}

#[test]
fn identical_inputs_reduce_to_eps() {
    let bcst = parse_bcst("pub fn foo() {\n  1\n}");
    let diff = diff_wrapper(&bcst, &bcst);
    assert_eq!(ered(&diff), dcg::diff::Diff::Eps);
}

#[test]
fn weight_within_replacement() {
    let left = "pub fn foo() {\n  1\n}";
    let right = "struct Foo { i: i32 }";

    let lbcst = parse_bcst(left);
    let rbcst = parse_bcst(right);

    let diff = diff_wrapper(&lbcst, &rbcst);

    let bound = 1 + lbcst.t.size() + rbcst.t.size();
    assert!(diff.weight() <= bound);
}

#[test]
fn rcst_round_trip() {
    let code = "pub fn foo() {\n  1\n}";
    let rcst = parse_rcst(code);
    let twh = rcst_to_bcst(&rcst);
    let back = bcst_to_rcst(&twh.t).unwrap();
    assert_eq!(rcst, back);
}

#[test]
fn patch_mismatch_is_an_error() {
    let a = parse_bcst("pub fn foo() { 1 }");
    let b = parse_bcst("pub fn foo() { 2 }");
    let c = parse_bcst("struct Foo { i: i32 }");

    let d = diff_wrapper(&a, &b);
    // A whole-tree replacement of an unrelated tree must not apply.
    if let dcg::diff::Diff::Mod(_, _) = d {
        assert!(patch(&c, &d).is_err());
    }
    let m = dcg::diff::Diff::Mod(a.clone(), b.clone());
    assert!(patch(&c, &m).is_err());
}

#[test]
fn merge_with_eps_is_identity() {
    let base = parse_bcst("pub fn foo() { 5 + 6 }");
    let left = parse_bcst("pub fn foo() { 5 + 7 }");
    let d = diff_wrapper(&base, &left);
    let mut conflicts = Vec::new();
    let m0 = merge(&dcg::diff::Diff::Eps, &d, &mut conflicts);
    let m1 = merge(&d, &dcg::diff::Diff::Eps, &mut conflicts);
    assert!(conflicts.is_empty());
    assert_eq!(m0, d);
    assert_eq!(m1, d);
}

#[test]
fn merge_commutes_when_clean() {
    let base = parse_bcst("pub fn foo() { 5 + 6 }");
    let left = parse_bcst("pub fn foo() { 5 + 7 }");
    let right = parse_bcst("pub fn foo() { 5 - 6 }");
    let bl = diff_wrapper(&base, &left);
    let br = diff_wrapper(&base, &right);
    let mut c0 = Vec::new();
    let ab = merge(&bl, &br, &mut c0);
    assert!(c0.is_empty());
    let mut c1 = Vec::new();
    let ba = merge(&br, &bl, &mut c1);
    assert!(c1.is_empty());
    assert_eq!(ab, ba);
}

#[test]
fn clean_merge_patches_to_merged_tree() {
    let base = "pub fn foo() { 5 + 6 }";
    let left = "pub fn foo() { 5 + 7 }";
    let right = "pub fn foo() { 5 - 6 }";
    let res = "pub fn foo() { 5 - 7 }";

    let bbcst = parse_bcst(base);
    let lbcst = parse_bcst(left);
    let rbcst = parse_bcst(right);
    let sbcst = parse_bcst(res);

    let bl = diff_wrapper(&bbcst, &lbcst);
    let br = diff_wrapper(&bbcst, &rbcst);
    let mut conflicts = Vec::new();
    let m = merge(&bl, &br, &mut conflicts);
    assert!(conflicts.is_empty());

    let patched = patch(&bbcst, &m).unwrap();
    assert_eq!(sbcst, patched);
}

#[test]
fn decode_rejects_garbage() {
    let garbage = vec![9u8, 1, 2, 3];
    assert!(dcg::serde::deserialise_everything(&garbage, b"").is_err());
}

#[test]
fn differ_is_deterministic() {
    let left = "pub fn foo() {\n  1\n}";
    let right = "pub fn foo() {\nlet x = 5;\n  3\n}";

    let l0 = parse_bcst(left);
    let r0 = parse_bcst(right);
    let l1 = parse_bcst(left);
    let r1 = parse_bcst(right);

    let d0 = diff_wrapper(&l0, &r0);
    let d1 = diff_wrapper(&l1, &r1);

    assert_eq!(d0, d1);
}
