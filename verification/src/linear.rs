//! The line pipeline: diff, patch, merge and serialisation at line
//! granularity, used when structural parsing is unavailable or the two
//! inputs speak different languages.
//!
//! The underlying line matching comes from an outside histogram-style
//! differ, behind a trusted wrapper that promises nothing; the script
//! builder checks every flag it is handed against the actual lines, so the
//! script it returns patches the left lines to the right lines whatever the
//! flags said.

use crate::data::bytes_eq;
use crate::serde::DecodeError;
use crate::wire::{le_bytes64, push_le64};
use vstd::prelude::*;

verus! {

/// One element of a line edit script: add a line, delete one, keep one.
#[derive(Debug, PartialEq, Eq, Hash)]
pub enum LinDiff {
    Add(Vec<u8>),
    Del,
    Eps,
}

/// Mathematical value of a script element.
#[verifier::ext_equal]
pub enum LinDiffV {
    Add(Seq<u8>),
    Del,
    Eps,
}

impl View for LinDiff {
    type V = LinDiffV;

    open spec fn view(&self) -> LinDiffV {
        match self {
            LinDiff::Add(x) => LinDiffV::Add(x@),
            LinDiff::Del => LinDiffV::Del,
            LinDiff::Eps => LinDiffV::Eps,
        }
    }
}

impl Clone for LinDiff {
    fn clone(&self) -> (res: Self)
        ensures
            res@ == self@,
    {
        match self {
            LinDiff::Add(x) => LinDiff::Add(x.clone()),
            LinDiff::Del => LinDiff::Del,
            LinDiff::Eps => LinDiff::Eps,
        }
    }
}

/// A script element met an empty left side.
#[derive(Debug)]
pub enum PatchError {
    Empty(LinDiff),
}

/// A pair of script elements the line merger could not combine.
#[derive(Debug, PartialEq, Eq)]
pub struct MergeConflict(pub LinDiff, pub LinDiff);

impl View for MergeConflict {
    type V = (LinDiffV, LinDiffV);

    open spec fn view(&self) -> (LinDiffV, LinDiffV) {
        (self.0@, self.1@)
    }
}

/// The element views of a script.
pub open spec fn script_view(s: Seq<LinDiff>) -> Seq<LinDiffV> {
    s.map_values(|d: LinDiff| d@)
}

/// The line views of a list of lines.
pub open spec fn lines_view(s: Seq<Vec<u8>>) -> Seq<Seq<u8>> {
    s.map_values(|l: Vec<u8>| l@)
}

/// What applying a line script to a list of lines yields: `Add` emits its
/// payload, `Del` consumes a line, `Eps` keeps one.  Nothing when the left
/// side runs dry; lines beyond the script are dropped.
pub open spec fn lin_patch(lines: Seq<Seq<u8>>, script: Seq<LinDiffV>) -> Option<Seq<Seq<u8>>>
    decreases script.len(),
{
    if script.len() == 0 {
        Some(Seq::empty())
    } else {
        match script[0] {
            LinDiffV::Add(x) => match lin_patch(lines, script.skip(1)) {
                Some(rest) => Some(seq![x] + rest),
                None => None,
            },
            LinDiffV::Del => if lines.len() == 0 {
                None
            } else {
                lin_patch(lines.skip(1), script.skip(1))
            },
            LinDiffV::Eps => if lines.len() == 0 {
                None
            } else {
                match lin_patch(lines.skip(1), script.skip(1)) {
                    Some(rest) => Some(seq![lines[0]] + rest),
                    None => None,
                }
            },
        }
    }
}

/// The first script element that tries to consume a line the left side no
/// longer has; meaningful exactly when `lin_patch` gives nothing.
pub open spec fn lin_patch_offender(lines: Seq<Seq<u8>>, script: Seq<LinDiffV>) -> LinDiffV
    decreases script.len(),
{
    if script.len() == 0 {
        LinDiffV::Eps
    } else {
        match script[0] {
            LinDiffV::Add(_) => lin_patch_offender(lines, script.skip(1)),
            LinDiffV::Del => if lines.len() == 0 {
                LinDiffV::Del
            } else {
                lin_patch_offender(lines.skip(1), script.skip(1))
            },
            LinDiffV::Eps => if lines.len() == 0 {
                LinDiffV::Eps
            } else {
                lin_patch_offender(lines.skip(1), script.skip(1))
            },
        }
    }
}

/// Position of the first newline, or a negative number.
pub open spec fn first_nl(s: Seq<u8>) -> int
    decreases s.len(),
{
    if s.len() == 0 {
        -1
    } else if s[0] == 10 {
        0
    } else {
        let r = first_nl(s.skip(1));
        if r < 0 {
            -1
        } else {
            r + 1
        }
    }
}

proof fn lemma_first_nl_at(s: Seq<u8>, k: int)
    requires
        0 <= k < s.len(),
        s[k] == 10,
        forall|j: int| 0 <= j < k ==> s[j] != 10,
    ensures
        first_nl(s) == k,
    decreases s.len(),
{
    if k > 0 {
        lemma_first_nl_at(s.skip(1), k - 1);
    }
}

proof fn lemma_first_nl_none(s: Seq<u8>)
    requires
        forall|j: int| 0 <= j < s.len() ==> s[j] != 10,
    ensures
        first_nl(s) < 0,
    decreases s.len(),
{
    if s.len() > 0 {
        lemma_first_nl_none(s.skip(1));
    }
}

/// A line without its trailing carriage return, if it has one.
pub open spec fn strip_cr(l: Seq<u8>) -> Seq<u8> {
    if l.len() > 0 && l[l.len() - 1] == 13 {
        l.take(l.len() - 1)
    } else {
        l
    }
}

/// The lines of a byte string: split at newlines, each line without its
/// terminator and without a trailing carriage return; a trailing newline
/// yields no empty final line.
pub open spec fn lines_of(s: Seq<u8>) -> Seq<Seq<u8>>
    decreases s.len(),
{
    if s.len() == 0 {
        Seq::empty()
    } else {
        let i = first_nl(s);
        if i < 0 || i >= s.len() {
            seq![strip_cr(s)]
        } else {
            seq![strip_cr(s.take(i))] + lines_of(s.skip(i + 1))
        }
    }
}

fn line_slice(s: &[u8], a: usize, b: usize) -> (out: Vec<u8>)
    requires
        a <= b <= s@.len(),
    ensures
        out@ == strip_cr(s@.subrange(a as int, b as int)),
{
    let end = if b > a && s[b - 1] == 13 {
        b - 1
    } else {
        b
    };
    let mut out: Vec<u8> = Vec::new();
    let mut i: usize = a;
    while i < end
        invariant
            a <= i <= end <= s@.len(),
            out@ == s@.subrange(a as int, i as int),
        decreases end - i,
    {
        out.push(s[i]);
        i += 1;
        proof {
            assert(out@ =~= s@.subrange(a as int, i as int));
        }
    }
    proof {
        assert(out@ =~= strip_cr(s@.subrange(a as int, b as int)));
    }
    out
}

/// Splits a byte string into its lines.
#[verifier::loop_isolation(false)]
pub fn split_lines(s: &[u8]) -> (out: Vec<Vec<u8>>)
    ensures
        lines_view(out@) == lines_of(s@),
{
    let mut out: Vec<Vec<u8>> = Vec::new();
    let mut start: usize = 0;
    let mut i: usize = 0;
    proof {
        assert(lines_view(out@) =~= Seq::<Seq<u8>>::empty());
        assert(s@.skip(0) =~= s@);
        assert(lines_view(out@) + lines_of(s@) =~= lines_of(s@));
    }
    while i < s.len()
        invariant
            start <= i <= s@.len(),
            forall|j: int| start <= j < i ==> s@[j] != 10,
            lines_of(s@) == lines_view(out@) + lines_of(s@.skip(start as int)),
        decreases s@.len() - i,
    {
        if s[i] == 10 {
            let line = line_slice(s, start, i);
            let ghost old_out = lines_view(out@);
            out.push(line);
            proof {
                let rest = s@.skip(start as int);
                assert(rest[i - start as int] == 10);
                assert(forall|j: int| 0 <= j < i - start as int ==> rest[j] != 10);
                lemma_first_nl_at(rest, i - start as int);
                assert(rest.take(i - start as int) =~= s@.subrange(start as int, i as int));
                assert(rest.skip(i - start as int + 1) =~= s@.skip(i as int + 1));
                assert(lines_view(out@) =~= old_out + seq![line@]);
                assert(lines_of(s@) =~= lines_view(out@) + lines_of(s@.skip(i as int + 1)));
            }
            start = i + 1;
        }
        i += 1;
    }
    if start < s.len() {
        let line = line_slice(s, start, s.len());
        let ghost old_out = lines_view(out@);
        out.push(line);
        proof {
            let rest = s@.skip(start as int);
            lemma_first_nl_none(rest);
            assert(rest =~= s@.subrange(start as int, s@.len() as int));
            assert(lines_view(out@) =~= old_out + seq![line@]);
            assert(lines_of(s@) =~= lines_view(out@));
        }
    } else {
        proof {
            assert(lines_of(s@.skip(start as int)) =~= Seq::<Seq<u8>>::empty());
            assert(lines_view(out@) + Seq::<Seq<u8>>::empty() =~= lines_view(out@));
        }
    }
    out
}

/// Relies on imara-diff: interning the two byte strings line by line,
/// computing a histogram diff, postprocessing it for line sliders, and
/// reading out which lines are removed from the left and added on the
/// right.  Nothing is promised of the flags; the caller checks them.
/// imara-diff supports at most `i32::MAX` tokens per side and asserts
/// otherwise; a byte bound dominates the line count, so inputs that large
/// are kept out.
#[verifier::external_body]
fn histogram_flags(left: &[u8], right: &[u8]) -> (Vec<bool>, Vec<bool>)
    requires
        left@.len() < 0x7FFF_FFFF,
        right@.len() < 0x7FFF_FFFF,
{
    let input = imara_diff::InternedInput::new(left, right);
    let mut diff = imara_diff::Diff::compute(imara_diff::Algorithm::Histogram, &input);
    diff.postprocess_lines(&input);
    let removed = (0..input.before.len()).map(|i| diff.is_removed(i as u32)).collect();
    let added = (0..input.after.len()).map(|j| diff.is_added(j as u32)).collect();
    (removed, added)
}

/// The continuation property the script builder maintains: whatever valid
/// script completes the remaining left lines, prefixing what was emitted so
/// far patches the whole left side to the right lines taken so far plus the
/// completion's output.
pub open spec fn diff_inv(
    lv: Seq<Seq<u8>>,
    rv: Seq<Seq<u8>>,
    out: Seq<LinDiffV>,
    i: int,
    j: int,
) -> bool {
    forall|rest: Seq<LinDiffV>|
        (#[trigger] lin_patch(lv.skip(i), rest)) is Some ==> lin_patch(lv, out + rest) == Some(
            rv.take(j) + lin_patch(lv.skip(i), rest)->Some_0,
        )
}

proof fn lemma_inv_start(lv: Seq<Seq<u8>>, rv: Seq<Seq<u8>>)
    ensures
        diff_inv(lv, rv, Seq::empty(), 0, 0),
{
    assert forall|rest: Seq<LinDiffV>| (#[trigger] lin_patch(lv.skip(0), rest)) is Some implies
        lin_patch(lv, Seq::empty() + rest) == Some(
        rv.take(0) + lin_patch(lv.skip(0), rest)->Some_0,
    ) by {
        assert(lv.skip(0) =~= lv);
        assert(Seq::empty() + rest =~= rest);
        assert(rv.take(0) + lin_patch(lv, rest)->Some_0 =~= lin_patch(lv, rest)->Some_0);
    }
}

proof fn lemma_inv_eps(lv: Seq<Seq<u8>>, rv: Seq<Seq<u8>>, out: Seq<LinDiffV>, i: int, j: int)
    requires
        diff_inv(lv, rv, out, i, j),
        0 <= i < lv.len(),
        0 <= j < rv.len(),
        lv[i] == rv[j],
    ensures
        diff_inv(lv, rv, out + seq![LinDiffV::Eps], i + 1, j + 1),
{
    assert forall|rest: Seq<LinDiffV>| (#[trigger] lin_patch(lv.skip(i + 1), rest)) is Some implies
        lin_patch(lv, (out + seq![LinDiffV::Eps]) + rest) == Some(
        rv.take(j + 1) + lin_patch(lv.skip(i + 1), rest)->Some_0,
    ) by {
        let r2 = lin_patch(lv.skip(i + 1), rest)->Some_0;
        let big = seq![LinDiffV::Eps] + rest;
        assert(big[0] == LinDiffV::Eps);
        assert(big.skip(1) =~= rest);
        assert(lv.skip(i).skip(1) =~= lv.skip(i + 1));
        assert(lv.skip(i)[0] == lv[i]);
        assert(lin_patch(lv.skip(i), big) == Some(seq![lv[i]] + r2));
        assert(lin_patch(lv, out + big) == Some(rv.take(j) + (seq![lv[i]] + r2)));
        assert((out + seq![LinDiffV::Eps]) + rest =~= out + big);
        assert(rv.take(j) + (seq![lv[i]] + r2) =~= rv.take(j + 1) + r2);
    }
}

proof fn lemma_inv_del(lv: Seq<Seq<u8>>, rv: Seq<Seq<u8>>, out: Seq<LinDiffV>, i: int, j: int)
    requires
        diff_inv(lv, rv, out, i, j),
        0 <= i < lv.len(),
        0 <= j <= rv.len(),
    ensures
        diff_inv(lv, rv, out + seq![LinDiffV::Del], i + 1, j),
{
    assert forall|rest: Seq<LinDiffV>| (#[trigger] lin_patch(lv.skip(i + 1), rest)) is Some implies
        lin_patch(lv, (out + seq![LinDiffV::Del]) + rest) == Some(
        rv.take(j) + lin_patch(lv.skip(i + 1), rest)->Some_0,
    ) by {
        let r2 = lin_patch(lv.skip(i + 1), rest)->Some_0;
        let big = seq![LinDiffV::Del] + rest;
        assert(big[0] == LinDiffV::Del);
        assert(big.skip(1) =~= rest);
        assert(lv.skip(i).skip(1) =~= lv.skip(i + 1));
        assert(lin_patch(lv.skip(i), big) == Some(r2));
        assert(lin_patch(lv, out + big) == Some(rv.take(j) + r2));
        assert((out + seq![LinDiffV::Del]) + rest =~= out + big);
    }
}

proof fn lemma_inv_add(
    lv: Seq<Seq<u8>>,
    rv: Seq<Seq<u8>>,
    out: Seq<LinDiffV>,
    i: int,
    j: int,
    x: Seq<u8>,
)
    requires
        diff_inv(lv, rv, out, i, j),
        0 <= i <= lv.len(),
        0 <= j < rv.len(),
        x == rv[j],
    ensures
        diff_inv(lv, rv, out + seq![LinDiffV::Add(x)], i, j + 1),
{
    assert forall|rest: Seq<LinDiffV>| (#[trigger] lin_patch(lv.skip(i), rest)) is Some implies
        lin_patch(lv, (out + seq![LinDiffV::Add(x)]) + rest) == Some(
        rv.take(j + 1) + lin_patch(lv.skip(i), rest)->Some_0,
    ) by {
        let r2 = lin_patch(lv.skip(i), rest)->Some_0;
        let big = seq![LinDiffV::Add(x)] + rest;
        assert(big[0] == LinDiffV::Add(x));
        assert(big.skip(1) =~= rest);
        assert(lin_patch(lv.skip(i), big) == Some(seq![x] + r2));
        assert(lin_patch(lv, out + big) == Some(rv.take(j) + (seq![x] + r2)));
        assert((out + seq![LinDiffV::Add(x)]) + rest =~= out + big);
        assert(rv.take(j) + (seq![x] + r2) =~= rv.take(j + 1) + r2);
    }
}

/// Computes a line edit script from `left_lines` to `right_lines`, guided
/// by the outside line differ on the raw texts.  Whatever the differ said,
/// the returned script patches the left lines exactly to the right lines.
#[verifier::loop_isolation(false)]
pub fn diff(
    left: &[u8],
    right: &[u8],
    left_lines: &Vec<Vec<u8>>,
    right_lines: &Vec<Vec<u8>>,
) -> (out: Vec<LinDiff>)
    requires
        left@.len() < 0x7FFF_FFFF,
        right@.len() < 0x7FFF_FFFF,
    ensures
        lin_patch(lines_view(left_lines@), script_view(out@)) == Some(
            lines_view(right_lines@),
        ),
{
    let ghost lv = lines_view(left_lines@);
    let ghost rv = lines_view(right_lines@);
    let flags = histogram_flags(left, right);
    let removed = flags.0;
    let added = flags.1;
    let nl = left_lines.len();
    let nr = right_lines.len();
    let mut out: Vec<LinDiff> = Vec::new();
    let mut i: usize = 0;
    let mut j: usize = 0;
    proof {
        assert(script_view(out@) =~= Seq::<LinDiffV>::empty());
        lemma_inv_start(lv, rv);
    }
    while i < nl || j < nr
        invariant
            i <= nl,
            j <= nr,
            diff_inv(lv, rv, script_view(out@), i as int, j as int),
        decreases nl + nr - i - j,
    {
        let rem = i < nl && i < removed.len() && removed[i];
        let add = j < nr && j < added.len() && added[j];
        let ghost prev = script_view(out@);
        let take_eps = !rem && !add && i < nl && j < nr && bytes_eq(
            &left_lines[i],
            &right_lines[j],
        );
        if take_eps {
            out.push(LinDiff::Eps);
            proof {
                assert(script_view(out@) =~= prev + seq![LinDiffV::Eps]);
                lemma_inv_eps(lv, rv, prev, i as int, j as int);
            }
            i += 1;
            j += 1;
        } else {
            let del_side = i < nl && (rem || !add || j >= nr);
            let add_side = j < nr && (add || !rem || i >= nl);
            if del_side {
                out.push(LinDiff::Del);
                proof {
                    assert(script_view(out@) =~= prev + seq![LinDiffV::Del]);
                    lemma_inv_del(lv, rv, prev, i as int, j as int);
                }
                i += 1;
            }
            let ghost mid = script_view(out@);
            if add_side {
                out.push(LinDiff::Add(right_lines[j].clone()));
                proof {
                    assert(script_view(out@) =~= mid + seq![LinDiffV::Add(rv[j as int])]);
                    lemma_inv_add(lv, rv, mid, i as int, j as int, rv[j as int]);
                }
                j += 1;
            }
            proof {
                assert(del_side || add_side);
            }
        }
    }
    proof {
        assert(lin_patch(lv.skip(i as int), Seq::<LinDiffV>::empty()) == Some(
            Seq::<Seq<u8>>::empty(),
        ));
        assert(script_view(out@) + Seq::<LinDiffV>::empty() =~= script_view(out@));
        assert(rv.take(j as int) + Seq::<Seq<u8>>::empty() =~= rv.take(j as int));
        assert(rv.take(j as int) =~= rv);
    }
    out
}


/// Applies a line script to a list of lines.  Succeeds exactly when no
/// delete or keep meets an exhausted left side.
#[verifier::loop_isolation(false)]
pub fn patch(left: &Vec<Vec<u8>>, script: &Vec<LinDiff>) -> (out: Result<
    Vec<Vec<u8>>,
    PatchError,
>)
    ensures
        match out {
            Ok(r) => lin_patch(lines_view(left@), script_view(script@)) == Some(lines_view(r@)),
            Err(e) => lin_patch(lines_view(left@), script_view(script@)) is None && match e {
                PatchError::Empty(d) => d@ == lin_patch_offender(
                    lines_view(left@),
                    script_view(script@),
                ),
            },
        },
{
    let ghost lv = lines_view(left@);
    let ghost sv = script_view(script@);
    let mut right: Vec<Vec<u8>> = Vec::new();
    let mut i: usize = 0;
    let mut k: usize = 0;
    proof {
        assert(lv.skip(0) =~= lv);
        assert(sv.skip(0) =~= sv);
        assert(lines_view(right@) =~= Seq::<Seq<u8>>::empty());
    }
    while k < script.len()
        invariant
            i <= left@.len(),
            k <= script@.len(),
            lin_patch(lv.skip(i as int), sv.skip(k as int)) is Some ==> lin_patch(lv, sv) == Some(
                lines_view(right@) + lin_patch(lv.skip(i as int), sv.skip(k as int))->Some_0,
            ),
            lin_patch(lv.skip(i as int), sv.skip(k as int)) is None ==> lin_patch(lv, sv) is None
                && lin_patch_offender(lv, sv) == lin_patch_offender(
                lv.skip(i as int),
                sv.skip(k as int),
            ),
        decreases script@.len() - k,
    {
        let d = &script[k];
        let ghost oi = i as int;
        let ghost ok = k as int;
        proof {
            assert(sv.skip(ok)[0] == sv[ok]);
            assert(sv.skip(ok).skip(1) =~= sv.skip(ok + 1));
        }
        let ghost prev = lines_view(right@);
        match d {
            LinDiff::Add(x) => {
                right.push(x.clone());
                proof {
                    assert(lines_view(right@) =~= prev + seq![x@]);
                    let n = lin_patch(lv.skip(oi), sv.skip(ok + 1));
                    if n is Some {
                        assert(lin_patch(lv.skip(oi), sv.skip(ok)) == Some(
                            seq![x@] + n->Some_0,
                        ));
                        assert(prev + (seq![x@] + n->Some_0) =~= lines_view(right@) + n->Some_0);
                    }
                }
            },
            LinDiff::Del => {
                if i >= left.len() {
                    proof {
                        assert(lv.skip(oi).len() == 0);
                    }
                    return Err(PatchError::Empty(d.clone()));
                }
                proof {
                    assert(lv.skip(oi).skip(1) =~= lv.skip(oi + 1));
                }
                i += 1;
            },
            LinDiff::Eps => {
                if i >= left.len() {
                    proof {
                        assert(lv.skip(oi).len() == 0);
                    }
                    return Err(PatchError::Empty(d.clone()));
                }
                proof {
                    assert(lv.skip(oi).skip(1) =~= lv.skip(oi + 1));
                    assert(lv.skip(oi)[0] == lv[oi]);
                }
                let line = left[i].clone();
                right.push(line);
                proof {
                    assert(lines_view(right@) =~= prev + seq![lv[oi]]);
                    let n = lin_patch(lv.skip(oi + 1), sv.skip(ok + 1));
                    if n is Some {
                        assert(lin_patch(lv.skip(oi), sv.skip(ok)) == Some(
                            seq![lv[oi]] + n->Some_0,
                        ));
                        assert(prev + (seq![lv[oi]] + n->Some_0) =~= lines_view(right@)
                            + n->Some_0);
                    }
                }
                i += 1;
            },
        }
        k += 1;
    }
    proof {
        assert(sv.skip(k as int).len() == 0);
        assert(lin_patch(lv.skip(i as int), sv.skip(k as int)) == Some(Seq::<Seq<u8>>::empty()));
        assert(lines_view(right@) + Seq::<Seq<u8>>::empty() =~= lines_view(right@));
    }
    Ok(right)
}

/// The merged script and the recorded collisions of two line scripts
/// derived from the same base: equal heads pass through; an addition beats
/// a delete or keep on the other side; a delete beats a keep; contradictory
/// pairs are recorded and dropped; a leftover tail passes through.
pub open spec fn spec_lin_merge(a: Seq<LinDiffV>, b: Seq<LinDiffV>) -> (
    Seq<LinDiffV>,
    Seq<(LinDiffV, LinDiffV)>,
)
    decreases a.len() + b.len(),
{
    if a.len() == 0 {
        (b, Seq::empty())
    } else if b.len() == 0 {
        (a, Seq::empty())
    } else if a[0] == b[0] {
        let rest = spec_lin_merge(a.skip(1), b.skip(1));
        (seq![a[0]] + rest.0, rest.1)
    } else {
        match (a[0], b[0]) {
            (LinDiffV::Add(x), LinDiffV::Del) => {
                let rest = spec_lin_merge(a.skip(1), b);
                (seq![LinDiffV::Add(x)] + rest.0, rest.1)
            },
            (LinDiffV::Add(x), LinDiffV::Eps) => {
                let rest = spec_lin_merge(a.skip(1), b);
                (seq![LinDiffV::Add(x)] + rest.0, rest.1)
            },
            (LinDiffV::Eps, LinDiffV::Add(x)) => {
                let rest = spec_lin_merge(a, b.skip(1));
                (seq![LinDiffV::Add(x)] + rest.0, rest.1)
            },
            (LinDiffV::Del, LinDiffV::Add(x)) => {
                let rest = spec_lin_merge(a, b.skip(1));
                (seq![LinDiffV::Add(x)] + rest.0, rest.1)
            },
            (LinDiffV::Del, LinDiffV::Eps) => {
                let rest = spec_lin_merge(a.skip(1), b.skip(1));
                (seq![LinDiffV::Del] + rest.0, rest.1)
            },
            (LinDiffV::Eps, LinDiffV::Del) => {
                let rest = spec_lin_merge(a.skip(1), b.skip(1));
                (seq![LinDiffV::Del] + rest.0, rest.1)
            },
            _ => {
                let rest = spec_lin_merge(a.skip(1), b.skip(1));
                (rest.0, seq![(a[0], b[0])] + rest.1)
            },
        }
    }
}

/// The pair views of a conflict list.
pub open spec fn lin_conflicts_view(v: Seq<MergeConflict>) -> Seq<(LinDiffV, LinDiffV)> {
    v.map_values(|c: MergeConflict| c@)
}

/// Merges two line scripts derived from the same base, recording every
/// contradictory pair.
#[verifier::loop_isolation(false)]
#[verifier::rlimit(60)]
pub fn merge(
    left: &Vec<LinDiff>,
    right: &Vec<LinDiff>,
    conflicts: &mut Vec<MergeConflict>,
) -> (out: Vec<LinDiff>)
    ensures
        script_view(out@) == spec_lin_merge(script_view(left@), script_view(right@)).0,
        lin_conflicts_view(final(conflicts)@) == lin_conflicts_view(old(conflicts)@)
            + spec_lin_merge(script_view(left@), script_view(right@)).1,
{
    let ghost av = script_view(left@);
    let ghost bv = script_view(right@);
    let ghost total = spec_lin_merge(av, bv);
    let mut out: Vec<LinDiff> = Vec::new();
    let mut i: usize = 0;
    let mut j: usize = 0;
    proof {
        assert(av.skip(0) =~= av);
        assert(bv.skip(0) =~= bv);
        assert(script_view(out@) =~= Seq::<LinDiffV>::empty());
        assert(lin_conflicts_view(conflicts@) =~= lin_conflicts_view(old(conflicts)@));
    }
    while i < left.len() && j < right.len()
        invariant
            i <= left@.len(),
            j <= right@.len(),
            script_view(out@) + spec_lin_merge(av.skip(i as int), bv.skip(j as int)).0 == total.0,
            lin_conflicts_view(conflicts@) + spec_lin_merge(av.skip(i as int), bv.skip(j as int)).1
                == lin_conflicts_view(old(conflicts)@) + total.1,
        decreases left@.len() + right@.len() - i - j,
    {
        let ld = &left[i];
        let rd = &right[j];
        proof {
            assert(av.skip(i as int)[0] == av[i as int]);
            assert(bv.skip(j as int)[0] == bv[j as int]);
            assert(av.skip(i as int).skip(1) =~= av.skip(i as int + 1));
            assert(bv.skip(j as int).skip(1) =~= bv.skip(j as int + 1));
        }
        let ghost prev = script_view(out@);
        let ghost prevc = lin_conflicts_view(conflicts@);
        let same = lin_eq(ld, rd);
        if same {
            out.push(ld.clone());
            proof {
                assert(script_view(out@) =~= prev + seq![av[i as int]]);
            }
            i += 1;
            j += 1;
        } else {
            match (ld, rd) {
                (LinDiff::Add(x), LinDiff::Del) | (LinDiff::Add(x), LinDiff::Eps) => {
                    out.push(LinDiff::Add(x.clone()));
                    proof {
                        assert(script_view(out@) =~= prev + seq![LinDiffV::Add(x@)]);
                    }
                    i += 1;
                },
                (LinDiff::Eps, LinDiff::Add(x)) | (LinDiff::Del, LinDiff::Add(x)) => {
                    out.push(LinDiff::Add(x.clone()));
                    proof {
                        assert(script_view(out@) =~= prev + seq![LinDiffV::Add(x@)]);
                    }
                    j += 1;
                },
                (LinDiff::Del, LinDiff::Eps) | (LinDiff::Eps, LinDiff::Del) => {
                    out.push(LinDiff::Del);
                    proof {
                        assert(script_view(out@) =~= prev + seq![LinDiffV::Del]);
                    }
                    i += 1;
                    j += 1;
                },
                _ => {
                    conflicts.push(MergeConflict(ld.clone(), rd.clone()));
                    proof {
                        assert(lin_conflicts_view(conflicts@) =~= prevc + seq![
                            (av[i as int], bv[j as int]),
                        ]);
                    }
                    i += 1;
                    j += 1;
                },
            }
        }
    }
    let ghost mid = script_view(out@);
    while i < left.len()
        invariant
            i <= left@.len(),
            j == right@.len() || i == left@.len() || j <= right@.len(),
            j <= right@.len(),
            script_view(out@) + spec_lin_merge(av.skip(i as int), bv.skip(j as int)).0 == total.0,
            lin_conflicts_view(conflicts@) + spec_lin_merge(av.skip(i as int), bv.skip(j as int)).1
                == lin_conflicts_view(old(conflicts)@) + total.1,
            j == right@.len() || i == left@.len(),
        decreases left@.len() - i,
    {
        let ghost prev = script_view(out@);
        proof {
            assert(bv.skip(j as int).len() == 0);
            assert(av.skip(i as int)[0] == av[i as int]);
            assert(av.skip(i as int).skip(1) =~= av.skip(i as int + 1));
            assert(spec_lin_merge(av.skip(i as int), bv.skip(j as int)).0 =~= av.skip(i as int));
            assert(av.skip(i as int) =~= seq![av[i as int]] + av.skip(i as int + 1));
            assert(spec_lin_merge(av.skip(i as int + 1), bv.skip(j as int)).0 =~= av.skip(
                i as int + 1,
            ));
        }
        out.push(left[i].clone());
        proof {
            assert(script_view(out@) =~= prev + seq![av[i as int]]);
        }
        i += 1;
    }
    while j < right.len()
        invariant
            i <= left@.len(),
            j <= right@.len(),
            script_view(out@) + spec_lin_merge(av.skip(i as int), bv.skip(j as int)).0 == total.0,
            lin_conflicts_view(conflicts@) + spec_lin_merge(av.skip(i as int), bv.skip(j as int)).1
                == lin_conflicts_view(old(conflicts)@) + total.1,
            i == left@.len(),
        decreases right@.len() - j,
    {
        let ghost prev = script_view(out@);
        proof {
            assert(av.skip(i as int).len() == 0);
            assert(bv.skip(j as int)[0] == bv[j as int]);
            assert(bv.skip(j as int).skip(1) =~= bv.skip(j as int + 1));
            assert(spec_lin_merge(av.skip(i as int), bv.skip(j as int)).0 =~= bv.skip(j as int));
            assert(bv.skip(j as int) =~= seq![bv[j as int]] + bv.skip(j as int + 1));
            assert(spec_lin_merge(av.skip(i as int), bv.skip(j as int + 1)).0 =~= bv.skip(
                j as int + 1,
            ));
        }
        out.push(right[j].clone());
        proof {
            assert(script_view(out@) =~= prev + seq![bv[j as int]]);
        }
        j += 1;
    }
    proof {
        assert(av.skip(i as int).len() == 0);
        assert(bv.skip(j as int).len() == 0);
        assert(spec_lin_merge(av.skip(i as int), bv.skip(j as int)).0.len() == 0);
        assert(spec_lin_merge(av.skip(i as int), bv.skip(j as int)).1.len() == 0);
        assert(script_view(out@) + spec_lin_merge(av.skip(i as int), bv.skip(j as int)).0 =~=
            script_view(out@));
        assert(lin_conflicts_view(conflicts@) + spec_lin_merge(
            av.skip(i as int),
            bv.skip(j as int),
        ).1 =~= lin_conflicts_view(conflicts@));
    }
    out
}

/// Compares two script elements.
pub fn lin_eq(a: &LinDiff, b: &LinDiff) -> (r: bool)
    ensures
        r == (a@ == b@),
{
    match (a, b) {
        (LinDiff::Add(x), LinDiff::Add(y)) => bytes_eq(x, y),
        (LinDiff::Del, LinDiff::Del) => true,
        (LinDiff::Eps, LinDiff::Eps) => true,
        _ => false,
    }
}

/// The wire form of one script element: a tag byte, and for an addition its
/// line, null-terminated — line payloads never contain the null byte.
pub open spec fn lin_elem_bytes(d: LinDiffV) -> Seq<u8> {
    match d {
        LinDiffV::Eps => seq![0u8],
        LinDiffV::Del => seq![1u8],
        LinDiffV::Add(x) => seq![2u8] + x + seq![0u8],
    }
}

/// The wire form of a script from element `i` on.
pub open spec fn lin_ser_from(dd: Seq<LinDiffV>, i: int) -> Seq<u8>
    decreases dd.len() - i,
{
    if i < 0 || i >= dd.len() {
        Seq::empty()
    } else {
        lin_elem_bytes(dd[i]) + lin_ser_from(dd, i + 1)
    }
}

/// The wire form of a script: its length, then each element in turn.
pub open spec fn lin_ser(dd: Seq<LinDiffV>) -> Seq<u8> {
    le_bytes64(dd.len() as u64) + lin_ser_from(dd, 0)
}

/// Serialises a line script.
#[verifier::loop_isolation(false)]
pub fn serialise(dd: &Vec<LinDiff>) -> (out: Vec<u8>)
    ensures
        out@ == lin_ser(script_view(dd@)),
{
    let ghost sv = script_view(dd@);
    let mut out: Vec<u8> = Vec::new();
    push_le64(&mut out, dd.len() as u64);
    let ghost base = out@;
    let mut i: usize = 0;
    while i < dd.len()
        invariant
            i <= dd@.len(),
            out@ + lin_ser_from(sv, i as int) == base + lin_ser_from(sv, 0),
        decreases dd@.len() - i,
    {
        let ghost prev = out@;
        match &dd[i] {
            LinDiff::Eps => {
                out.push(0u8);
            },
            LinDiff::Del => {
                out.push(1u8);
            },
            LinDiff::Add(x) => {
                out.push(2u8);
                let mut q: usize = 0;
                let ghost mid = out@;
                while q < x.len()
                    invariant
                        q <= x@.len(),
                        out@ == mid + x@.take(q as int),
                    decreases x@.len() - q,
                {
                    let byte = x[q];
                    out.push(byte);
                    q += 1;
                    proof {
                        assert(out@ =~= mid + x@.take(q as int));
                    }
                }
                proof {
                    assert(x@.take(x@.len() as int) =~= x@);
                }
                out.push(0u8);
            },
        }
        proof {
            assert(out@ =~= prev + lin_elem_bytes(sv[i as int]));
            assert(lin_ser_from(sv, i as int) == lin_elem_bytes(sv[i as int]) + lin_ser_from(
                sv,
                i as int + 1,
            ));
            assert(out@ + lin_ser_from(sv, i as int + 1) =~= prev + lin_ser_from(sv, i as int));
        }
        i += 1;
    }
    proof {
        assert(lin_ser_from(sv, sv.len() as int) =~= Seq::<u8>::empty());
        assert(out@ + Seq::<u8>::empty() =~= out@);
        assert(out@ =~= lin_ser(sv));
    }
    out
}

/// Position of the first null byte at or after `i`, or a negative number.
pub open spec fn first_zero(b: Seq<u8>, i: int) -> int
    decreases b.len() - i,
{
    if i < 0 || i >= b.len() {
        -1
    } else if b[i] == 0 {
        i
    } else {
        first_zero(b, i + 1)
    }
}

/// Decodes script elements from position `i` to the end of the stream.
/// Nothing on a bad tag or an unterminated line.
pub open spec fn lin_de_from(b: Seq<u8>, i: int) -> Option<Seq<LinDiffV>>
    decreases b.len() - i,
{
    if i < 0 || i >= b.len() {
        Some(Seq::empty())
    } else if b[i] == 0 {
        match lin_de_from(b, i + 1) {
            Some(rest) => Some(seq![LinDiffV::Eps] + rest),
            None => None,
        }
    } else if b[i] == 1 {
        match lin_de_from(b, i + 1) {
            Some(rest) => Some(seq![LinDiffV::Del] + rest),
            None => None,
        }
    } else if b[i] == 2 {
        let z = first_zero(b, i + 1);
        if z < i + 1 || z >= b.len() {
            None
        } else {
            match lin_de_from(b, z + 1) {
                Some(rest) => Some(seq![LinDiffV::Add(b.subrange(i + 1, z))] + rest),
                None => None,
            }
        }
    } else {
        None
    }
}

/// Decodes a serialised line script: the stored length is advisory, the
/// elements run to the end of the stream.
pub open spec fn lin_de(b: Seq<u8>) -> Option<Seq<LinDiffV>> {
    if b.len() < 8 {
        None
    } else {
        lin_de_from(b, 8)
    }
}

/// Reads back a line script.  Fails, all or nothing, on a malformed stream.
#[verifier::loop_isolation(false)]
pub fn deserialise(b: &[u8]) -> (out: Result<Vec<LinDiff>, DecodeError>)
    ensures
        match out {
            Ok(dd) => lin_de(b@) == Some(script_view(dd@)),
            Err(_) => lin_de(b@) is None,
        },
{
    if b.len() < 8 {
        return Err(DecodeError { offset: 0 });
    }
    let mut out: Vec<LinDiff> = Vec::new();
    let mut i: usize = 8;
    proof {
        assert(script_view(out@) =~= Seq::<LinDiffV>::empty());
    }
    while i < b.len()
        invariant
            8 <= i <= b@.len(),
            lin_de_from(b@, 8) is Some ==> lin_de_from(b@, i as int) is Some && lin_de_from(
                b@,
                8,
            ) == Some(script_view(out@) + lin_de_from(b@, i as int)->Some_0),
            lin_de_from(b@, i as int) is None ==> lin_de_from(b@, 8) is None,
            lin_de_from(b@, i as int) is Some ==> lin_de_from(b@, 8) is Some,
        decreases b@.len() - i,
    {
        let tag = b[i];
        let ghost prev = script_view(out@);
        let ghost oi = i as int;
        if tag == 0 {
            out.push(LinDiff::Eps);
            proof {
                assert(script_view(out@) =~= prev + seq![LinDiffV::Eps]);
                let n = lin_de_from(b@, oi + 1);
                if n is Some {
                    assert(lin_de_from(b@, oi) == Some(seq![LinDiffV::Eps] + n->Some_0));
                    assert(prev + (seq![LinDiffV::Eps] + n->Some_0) =~= script_view(out@)
                        + n->Some_0);
                }
            }
            i += 1;
        } else if tag == 1 {
            out.push(LinDiff::Del);
            proof {
                assert(script_view(out@) =~= prev + seq![LinDiffV::Del]);
                let n = lin_de_from(b@, oi + 1);
                if n is Some {
                    assert(lin_de_from(b@, oi) == Some(seq![LinDiffV::Del] + n->Some_0));
                    assert(prev + (seq![LinDiffV::Del] + n->Some_0) =~= script_view(out@)
                        + n->Some_0);
                }
            }
            i += 1;
        } else if tag == 2 {
            let mut z = i + 1;
            while z < b.len() && b[z] != 0
                invariant
                    i + 1 <= z <= b@.len(),
                    forall|q: int| i + 1 <= q < z ==> b@[q] != 0,
                decreases b@.len() - z,
            {
                z += 1;
            }
            if z >= b.len() {
                proof {
                    lemma_first_zero_none(b@, i as int + 1, z as int);
                }
                return Err(DecodeError { offset: i });
            }
            proof {
                lemma_first_zero_at(b@, i as int + 1, z as int);
            }
            let text = crate::serde::bytes_range_pub(b, i + 1, z);
            out.push(LinDiff::Add(text));
            proof {
                let xs = b@.subrange(oi + 1, z as int);
                assert(script_view(out@) =~= prev + seq![LinDiffV::Add(xs)]);
                let n = lin_de_from(b@, z as int + 1);
                if n is Some {
                    assert(lin_de_from(b@, oi) == Some(seq![LinDiffV::Add(xs)] + n->Some_0));
                    assert(prev + (seq![LinDiffV::Add(xs)] + n->Some_0) =~= script_view(out@)
                        + n->Some_0);
                }
            }
            i = z + 1;
        } else {
            return Err(DecodeError { offset: i });
        }
    }
    proof {
        assert(lin_de_from(b@, i as int) == Some(Seq::<LinDiffV>::empty()));
        assert(script_view(out@) + Seq::<LinDiffV>::empty() =~= script_view(out@));
    }
    Ok(out)
}

proof fn lemma_first_zero_at(b: Seq<u8>, start: int, z: int)
    requires
        0 <= start <= z < b.len(),
        b[z] == 0,
        forall|q: int| start <= q < z ==> b[q] != 0,
    ensures
        first_zero(b, start) == z,
    decreases z - start,
{
    if start < z {
        lemma_first_zero_at(b, start + 1, z);
    }
}

proof fn lemma_first_zero_none(b: Seq<u8>, start: int, z: int)
    requires
        0 <= start,
        z >= b.len(),
        forall|q: int| start <= q < b.len() ==> b[q] != 0,
    ensures
        first_zero(b, start) < 0,
    decreases b.len() - start,
{
    if start < b.len() {
        lemma_first_zero_none(b, start + 1, z);
    }
}


/// No line of the script carries a null byte, the one thing its wire form
/// cannot hold.
pub open spec fn script_clean(dd: Seq<LinDiffV>) -> bool {
    forall|i: int| 0 <= i < dd.len() ==> match #[trigger] dd[i] {
        LinDiffV::Add(x) => forall|k: int| 0 <= k < x.len() ==> x[k] != 0,
        _ => true,
    }
}

proof fn lemma_lin_de_ser_from(dd: Seq<LinDiffV>, k: int, s: Seq<u8>, pos: int)
    requires
        0 <= k <= dd.len(),
        script_clean(dd),
        crate::wire::seq_at(s, pos, lin_ser_from(dd, k)),
        pos + lin_ser_from(dd, k).len() == s.len(),
    ensures
        lin_de_from(s, pos) == Some(dd.skip(k)),
    decreases dd.len() - k,
{
    if k == dd.len() {
        assert(lin_ser_from(dd, k).len() == 0);
        assert(lin_de_from(s, pos) == Some(Seq::<LinDiffV>::empty()));
        assert(dd.skip(k) =~= Seq::<LinDiffV>::empty());
    } else {
        let e = lin_elem_bytes(dd[k]);
        let rest = lin_ser_from(dd, k + 1);
        assert(lin_ser_from(dd, k) == e + rest);
        crate::wire::lemma_seq_at_concat(s, pos, e, rest);
        match dd[k] {
            LinDiffV::Eps => {
                assert(s[pos + 0] == (seq![0u8])[0]);
                assert(s[pos] == 0u8);
                lemma_lin_de_ser_from(dd, k + 1, s, pos + 1);
                assert(seq![LinDiffV::Eps] + dd.skip(k + 1) =~= dd.skip(k));
            },
            LinDiffV::Del => {
                assert(s[pos + 0] == (seq![1u8])[0]);
                assert(s[pos] == 1u8);
                lemma_lin_de_ser_from(dd, k + 1, s, pos + 1);
                assert(seq![LinDiffV::Del] + dd.skip(k + 1) =~= dd.skip(k));
            },
            LinDiffV::Add(x) => {
                let p1 = seq![2u8] + x;
                assert(e =~= p1 + seq![0u8]);
                crate::wire::lemma_seq_at_concat(s, pos, p1, seq![0u8]);
                crate::wire::lemma_seq_at_concat(s, pos, seq![2u8], x);
                assert(s[pos + 0] == (seq![2u8])[0]);
                assert(s[pos] == 2u8);
                let z = pos + 1 + x.len() as int;
                assert(s[z + 0] == (seq![0u8])[0]);
                assert(s[z] == 0u8);
                assert forall|q: int| pos + 1 <= q < z implies s[q] != 0 by {
                    assert(s[q] == x[q - pos - 1]);
                }
                lemma_first_zero_at(s, pos + 1, z);
                assert(s.subrange(pos + 1, z) =~= x);
                lemma_lin_de_ser_from(dd, k + 1, s, z + 1);
                assert(seq![LinDiffV::Add(x)] + dd.skip(k + 1) =~= dd.skip(k));
            },
        }
    }
}

/// The line codec round trip: a script whose lines are free of null bytes
/// comes back unchanged from its own wire form.
pub proof fn lemma_lin_codec_round_trip(dd: Seq<LinDiffV>)
    requires
        script_clean(dd),
    ensures
        lin_de(lin_ser(dd)) == Some(dd),
{
    let s = lin_ser(dd);
    let body = lin_ser_from(dd, 0);
    assert(crate::wire::seq_at(s, 0, s)) by {
        assert(forall|kq: int| 0 <= kq < s.len() ==> s[0 + kq] == #[trigger] s[kq]);
    }
    crate::wire::lemma_seq_at_concat(s, 0, le_bytes64(dd.len() as u64), body);
    lemma_lin_de_ser_from(dd, 0, s, 8);
    assert(dd.skip(0) =~= dd);
}

} // verus!
