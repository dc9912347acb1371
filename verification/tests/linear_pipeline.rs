use dcg::linear::{LinDiff, deserialise, diff, merge, patch, serialise, split_lines};

fn lines(s: &str) -> Vec<Vec<u8>> {
    split_lines(s.as_bytes())
}

fn join(lines: &[Vec<u8>]) -> String {
    let parts: Vec<String> = lines
        .iter()
        .map(|l| String::from_utf8(l.clone()).unwrap())
        .collect();
    parts.join("\n")
}

#[test]
fn linear_diff0() {
    let left = r#"
first line is the same
second line is different
third line is new
fourth line is the same"#;

    let right = r#"
first line is the same
second line is not the same
fourth line is the same"#;

    let left_lines = lines(left);
    let right_lines = lines(right);

    let diff = diff(left.as_bytes(), right.as_bytes(), &left_lines, &right_lines);
    let patch = patch(&left_lines, &diff).unwrap();

    assert_eq!(right, join(&patch));
}

#[test]
fn linear_diff1() {
    let left = r#""#;

    let right = r#"left one is empty
diff should be full of `Add`s"#;

    let left_lines = lines(left);
    let right_lines = lines(right);

    let diff = diff(left.as_bytes(), right.as_bytes(), &left_lines, &right_lines);
    let patch = patch(&left_lines, &diff).unwrap();

    assert_eq!(right, join(&patch));
}

#[test]
fn linear_diff2() {
    let left = r#"right one is empty
diff should be full of `Del`s"#;

    let right = r#""#;

    let left_lines = lines(left);
    let right_lines = lines(right);

    let diff = diff(left.as_bytes(), right.as_bytes(), &left_lines, &right_lines);
    let patch = patch(&left_lines, &diff).unwrap();

    assert_eq!(right, join(&patch));
}

#[test]
fn linear_merge0() {
    let base = "line one\nline two\n";
    let left = r#"line one
new second line
line two
"#;
    let right = r#"line one
line two
new third line
"#;

    let base_lines = lines(base);
    let left_lines = lines(left);
    let right_lines = lines(right);

    let diff_bl = diff(base.as_bytes(), left.as_bytes(), &base_lines, &left_lines);
    let diff_br = diff(base.as_bytes(), right.as_bytes(), &base_lines, &right_lines);

    println!("bl: {:#?}", diff_bl);
    println!("br: {:#?}", diff_br);

    let mut conflicts = Vec::new();
    let merge = merge(&diff_bl, &diff_br, &mut conflicts);

    println!("m: {:#?}", merge);

    let expected = r#"line one
new second line
line two
new third line"#;

    assert!(conflicts.is_empty());
    assert_eq!(expected, join(&patch(&base_lines, &merge).unwrap()));
}

#[test]
fn linear_merge1() {
    let base = "line one\nline two\n";
    let left = r#"line one
contradictory deletion
"#;
    let right = r#"line one
other contradictory deletion
new third line
"#;

    let base_lines = lines(base);
    let left_lines = lines(left);
    let right_lines = lines(right);

    let diff_bl = diff(base.as_bytes(), left.as_bytes(), &base_lines, &left_lines);
    let diff_br = diff(base.as_bytes(), right.as_bytes(), &base_lines, &right_lines);

    let mut conflicts = Vec::new();
    merge(&diff_bl, &diff_br, &mut conflicts);

    assert!(!conflicts.is_empty());
}

#[test]
fn merge2() {
    let base = "line one\nline two\n";
    let left = r#"line one
deletion and addition
"#;
    let right = r#"line one
line two
third addition
"#;

    let base_lines = lines(base);
    let left_lines = lines(left);
    let right_lines = lines(right);

    let diff_bl = diff(base.as_bytes(), left.as_bytes(), &base_lines, &left_lines);
    let diff_br = diff(base.as_bytes(), right.as_bytes(), &base_lines, &right_lines);

    let mut conflicts = Vec::new();
    let merge = merge(&diff_bl, &diff_br, &mut conflicts);

    println!("{:#?}", merge);

    assert!(!conflicts.is_empty());
}

#[test]
fn merge3() {
    let base = "line one\nline two\n";
    let left = r#"line one
"#;
    let right = r#"line one
test
line two
"#;

    let base_lines = lines(base);
    let left_lines = lines(left);
    let right_lines = lines(right);

    let diff_bl = diff(base.as_bytes(), left.as_bytes(), &base_lines, &left_lines);
    let diff_br = diff(base.as_bytes(), right.as_bytes(), &base_lines, &right_lines);

    println!("bl: {:#?}", diff_bl);
    println!("br: {:#?}", diff_br);

    let mut conflicts = Vec::new();
    let merge = merge(&diff_bl, &diff_br, &mut conflicts);

    println!("{:#?}", merge);

    let expected = r#"line one
test"#;

    assert!(conflicts.is_empty());
    assert_eq!(expected, join(&patch(&base_lines, &merge).unwrap()));
}

#[test]
fn linear_conservation() {
    let left = r#"the
history of all hitherto existing
societies
has been
the history of
class struggle
"#;

    /* grammar mistake is intentional */
    let right = r#"the
industrial revolution and
its consequences
has been
a disaster for the
human race
"#;

    let left_lines = lines(left);
    let right_lines = lines(right);

    let diff = diff(left.as_bytes(), right.as_bytes(), &left_lines, &right_lines);

    assert_eq!(diff, deserialise(&serialise(&diff)).unwrap());
}

#[test]
fn patch_fails_on_short_left_side() {
    let script = vec![LinDiff::Eps, LinDiff::Eps];
    let left: Vec<Vec<u8>> = vec![b"only".to_vec()];
    assert!(patch(&left, &script).is_err());
}

#[test]
fn deserialise_rejects_bad_tag() {
    let mut bytes = serialise(&vec![LinDiff::Del]);
    bytes.push(9);
    assert!(deserialise(&bytes).is_err());
}

#[test]
fn split_lines_matches_std() {
    for s in ["", "a", "a\n", "a\nb", "a\nb\n", "a\r\nb", "\n\n", "x\n\ny\n"] {
        let ours = split_lines(s.as_bytes());
        let std_lines: Vec<Vec<u8>> = s.lines().map(|l| l.as_bytes().to_vec()).collect();
        assert_eq!(ours, std_lines, "on {:?}", s);
    }
}
