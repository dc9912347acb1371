//! The pure core of the version-control layer: language and diff-type codes,
//! commit change entries and their wire form, commit identity hashing, hex
//! text, and configuration merging.  All input and output here are plain
//! values; reading and writing the repository on disk stays outside.

use crate::linear;
use crate::serde::DecodeError;
use crate::wire::{le_bytes64, le64_at, push_le64, read_le64};
use sha2::Digest;
use vstd::prelude::*;

verus! {

/// The languages the tool can name, plus the two fallbacks.
#[derive(Debug, Clone, Copy, PartialEq, Eq, Hash, Structural)]
pub enum Languages {
    Agda,
    Bash,
    CSharp,
    Cpp,
    C,
    Css,
    ErbEjs,
    Go,
    Haskell,
    Html,
    Java,
    Javascript,
    Json,
    Julia,
    Ocaml,
    Php,
    Python,
    Regex,
    Ruby,
    Rust,
    Scala,
    Typescript,
    Verilog,
    PlainText,
    Binary,
}

/// The wire code of a language.
pub open spec fn spec_lang_code(l: Languages) -> u8 {
    match l {
        Languages::Agda => 0,
        Languages::Bash => 1,
        Languages::CSharp => 2,
        Languages::Cpp => 3,
        Languages::C => 4,
        Languages::Css => 5,
        Languages::ErbEjs => 6,
        Languages::Go => 7,
        Languages::Haskell => 8,
        Languages::Html => 9,
        Languages::Java => 10,
        Languages::Javascript => 11,
        Languages::Json => 12,
        Languages::Julia => 13,
        Languages::Ocaml => 14,
        Languages::Php => 15,
        Languages::Python => 16,
        Languages::Regex => 17,
        Languages::Ruby => 18,
        Languages::Rust => 19,
        Languages::Scala => 20,
        Languages::Typescript => 21,
        Languages::Verilog => 22,
        Languages::PlainText => 23,
        Languages::Binary => 24,
    }
}

/// The language a wire code names, if any.
pub open spec fn spec_lang_of(x: u8) -> Option<Languages> {
    if x == 0 {
        Some(Languages::Agda)
    } else if x == 1 {
        Some(Languages::Bash)
    } else if x == 2 {
        Some(Languages::CSharp)
    } else if x == 3 {
        Some(Languages::Cpp)
    } else if x == 4 {
        Some(Languages::C)
    } else if x == 5 {
        Some(Languages::Css)
    } else if x == 6 {
        Some(Languages::ErbEjs)
    } else if x == 7 {
        Some(Languages::Go)
    } else if x == 8 {
        Some(Languages::Haskell)
    } else if x == 9 {
        Some(Languages::Html)
    } else if x == 10 {
        Some(Languages::Java)
    } else if x == 11 {
        Some(Languages::Javascript)
    } else if x == 12 {
        Some(Languages::Json)
    } else if x == 13 {
        Some(Languages::Julia)
    } else if x == 14 {
        Some(Languages::Ocaml)
    } else if x == 15 {
        Some(Languages::Php)
    } else if x == 16 {
        Some(Languages::Python)
    } else if x == 17 {
        Some(Languages::Regex)
    } else if x == 18 {
        Some(Languages::Ruby)
    } else if x == 19 {
        Some(Languages::Rust)
    } else if x == 20 {
        Some(Languages::Scala)
    } else if x == 21 {
        Some(Languages::Typescript)
    } else if x == 22 {
        Some(Languages::Verilog)
    } else if x == 23 {
        Some(Languages::PlainText)
    } else if x == 24 {
        Some(Languages::Binary)
    } else {
        None
    }
}

/// A language code decodes back to its language.
pub proof fn lemma_lang_round_trip(l: Languages)
    ensures
        spec_lang_of(spec_lang_code(l)) == Some(l),
{
}

/// The wire code of a language.
pub fn lang_code(l: Languages) -> (r: u8)
    ensures
        r == spec_lang_code(l),
{
    match l {
        Languages::Agda => 0,
        Languages::Bash => 1,
        Languages::CSharp => 2,
        Languages::Cpp => 3,
        Languages::C => 4,
        Languages::Css => 5,
        Languages::ErbEjs => 6,
        Languages::Go => 7,
        Languages::Haskell => 8,
        Languages::Html => 9,
        Languages::Java => 10,
        Languages::Javascript => 11,
        Languages::Json => 12,
        Languages::Julia => 13,
        Languages::Ocaml => 14,
        Languages::Php => 15,
        Languages::Python => 16,
        Languages::Regex => 17,
        Languages::Ruby => 18,
        Languages::Rust => 19,
        Languages::Scala => 20,
        Languages::Typescript => 21,
        Languages::Verilog => 22,
        Languages::PlainText => 23,
        Languages::Binary => 24,
    }
}

/// The language a wire code names, if any.
pub fn lang_of(x: u8) -> (r: Option<Languages>)
    ensures
        r == spec_lang_of(x),
{
    if x == 0 {
        Some(Languages::Agda)
    } else if x == 1 {
        Some(Languages::Bash)
    } else if x == 2 {
        Some(Languages::CSharp)
    } else if x == 3 {
        Some(Languages::Cpp)
    } else if x == 4 {
        Some(Languages::C)
    } else if x == 5 {
        Some(Languages::Css)
    } else if x == 6 {
        Some(Languages::ErbEjs)
    } else if x == 7 {
        Some(Languages::Go)
    } else if x == 8 {
        Some(Languages::Haskell)
    } else if x == 9 {
        Some(Languages::Html)
    } else if x == 10 {
        Some(Languages::Java)
    } else if x == 11 {
        Some(Languages::Javascript)
    } else if x == 12 {
        Some(Languages::Json)
    } else if x == 13 {
        Some(Languages::Julia)
    } else if x == 14 {
        Some(Languages::Ocaml)
    } else if x == 15 {
        Some(Languages::Php)
    } else if x == 16 {
        Some(Languages::Python)
    } else if x == 17 {
        Some(Languages::Regex)
    } else if x == 18 {
        Some(Languages::Ruby)
    } else if x == 19 {
        Some(Languages::Rust)
    } else if x == 20 {
        Some(Languages::Scala)
    } else if x == 21 {
        Some(Languages::Typescript)
    } else if x == 22 {
        Some(Languages::Verilog)
    } else if x == 23 {
        Some(Languages::PlainText)
    } else if x == 24 {
        Some(Languages::Binary)
    } else {
        None
    }
}

/// How two revisions of a file are compared: structurally in a common
/// language, line by line, or as opaque binary content.
#[derive(Debug, Clone, Copy, PartialEq, Eq, Structural)]
pub enum DiffType {
    Linear(Languages, Languages),
    Tree(Languages),
    Binary,
    FromBinary(Languages),
}

/// The wire form of a diff type.
pub open spec fn spec_dt_bytes(dt: DiffType) -> Seq<u8> {
    match dt {
        DiffType::Binary => seq![0u8],
        DiffType::FromBinary(l) => seq![1u8, spec_lang_code(l)],
        DiffType::Tree(l) => seq![2u8, spec_lang_code(l)],
        DiffType::Linear(l0, l1) => seq![3u8, spec_lang_code(l0), spec_lang_code(l1)],
    }
}

/// The diff type at the front of a stream, with how many bytes it took.
pub open spec fn spec_dt_of(v: Seq<u8>) -> Option<(DiffType, int)> {
    if v.len() == 0 {
        None
    } else if v[0] == 0 {
        Some((DiffType::Binary, 1))
    } else if v[0] == 1 {
        if v.len() >= 2 {
            match spec_lang_of(v[1]) {
                Some(l) => Some((DiffType::FromBinary(l), 2)),
                None => None,
            }
        } else {
            None
        }
    } else if v[0] == 2 {
        if v.len() >= 2 {
            match spec_lang_of(v[1]) {
                Some(l) => Some((DiffType::Tree(l), 2)),
                None => None,
            }
        } else {
            None
        }
    } else if v[0] == 3 {
        if v.len() >= 3 {
            match (spec_lang_of(v[1]), spec_lang_of(v[2])) {
                (Some(l0), Some(l1)) => Some((DiffType::Linear(l0, l1), 3)),
                _ => None,
            }
        } else {
            None
        }
    } else {
        None
    }
}

impl DiffType {
    /// The wire form of the diff type.
    pub fn serialise(self) -> (out: Vec<u8>)
        ensures
            out@ == spec_dt_bytes(self),
    {
        let mut v: Vec<u8> = Vec::new();
        match self {
            DiffType::Binary => {
                v.push(0u8);
            },
            DiffType::FromBinary(l) => {
                v.push(1u8);
                v.push(lang_code(l));
            },
            DiffType::Tree(l) => {
                v.push(2u8);
                v.push(lang_code(l));
            },
            DiffType::Linear(l0, l1) => {
                v.push(3u8);
                v.push(lang_code(l0));
                v.push(lang_code(l1));
            },
        }
        proof {
            assert(v@ =~= spec_dt_bytes(self));
        }
        v
    }

    /// Reads a diff type from the front of a stream, with how many bytes it
    /// took.  Fails on an unknown tag or language code.
    pub fn deserialise(v: &[u8]) -> (out: Result<(DiffType, usize), DecodeError>)
        ensures
            match out {
                Ok(p) => spec_dt_of(v@) == Some((p.0, p.1 as int)),
                Err(_) => spec_dt_of(v@) is None,
            },
    {
        if v.len() == 0 {
            return Err(DecodeError { offset: 0 });
        }
        let tag = v[0];
        if tag == 0 {
            Ok((DiffType::Binary, 1))
        } else if tag == 1 {
            if v.len() < 2 {
                return Err(DecodeError { offset: 1 });
            }
            match lang_of(v[1]) {
                Some(l) => Ok((DiffType::FromBinary(l), 2)),
                None => Err(DecodeError { offset: 1 }),
            }
        } else if tag == 2 {
            if v.len() < 2 {
                return Err(DecodeError { offset: 1 });
            }
            match lang_of(v[1]) {
                Some(l) => Ok((DiffType::Tree(l), 2)),
                None => Err(DecodeError { offset: 1 }),
            }
        } else if tag == 3 {
            if v.len() < 3 {
                return Err(DecodeError { offset: 1 });
            }
            match (lang_of(v[1]), lang_of(v[2])) {
                (Some(l0), Some(l1)) => Ok((DiffType::Linear(l0, l1), 3)),
                _ => Err(DecodeError { offset: 1 }),
            }
        } else {
            Err(DecodeError { offset: 0 })
        }
    }
}

/// A serialised diff type decodes back to itself.
pub proof fn lemma_dt_round_trip(dt: DiffType)
    ensures
        spec_dt_of(spec_dt_bytes(dt)) == Some((dt, spec_dt_bytes(dt).len() as int)),
{
    match dt {
        DiffType::Binary => {},
        DiffType::FromBinary(l) => {
            lemma_lang_round_trip(l);
        },
        DiffType::Tree(l) => {
            lemma_lang_round_trip(l);
        },
        DiffType::Linear(l0, l1) => {
            lemma_lang_round_trip(l0);
            lemma_lang_round_trip(l1);
        },
    }
}

/// How two revisions compare, from their detected languages: binary content
/// wins, a shared parseable language goes to the tree pipeline, anything
/// else goes line by line.
pub open spec fn spec_diff_type_of(lang1: Languages, lang2: Languages) -> DiffType {
    if lang2 == Languages::Binary {
        DiffType::Binary
    } else if lang1 == Languages::Binary {
        DiffType::FromBinary(lang2)
    } else if lang1 == lang2 && lang1 != Languages::PlainText {
        DiffType::Tree(lang1)
    } else {
        DiffType::Linear(lang1, lang2)
    }
}

/// Picks the pipeline for a pair of detected languages.
pub fn diff_type_of(lang1: Languages, lang2: Languages) -> (r: DiffType)
    ensures
        r == spec_diff_type_of(lang1, lang2),
{
    if lang2 == Languages::Binary {
        DiffType::Binary
    } else if lang1 == Languages::Binary {
        DiffType::FromBinary(lang2)
    } else if lang1 == lang2 && lang1 != Languages::PlainText {
        DiffType::Tree(lang1)
    } else {
        DiffType::Linear(lang1, lang2)
    }
}


/// The lowercase hex digit of a value below sixteen.
pub open spec fn hex_digit(n: u8) -> u8 {
    if n < 10 {
        (48 + n) as u8
    } else {
        (87 + n) as u8
    }
}

/// The lowercase hex text of a byte string, two digits per byte.
pub open spec fn hex_of(b: Seq<u8>) -> Seq<u8>
    decreases b.len(),
{
    if b.len() == 0 {
        Seq::empty()
    } else {
        seq![hex_digit(b[0] / 16), hex_digit(b[0] % 16)] + hex_of(b.skip(1))
    }
}

/// Writes a byte string as lowercase hex text.
#[verifier::loop_isolation(false)]
pub fn to_hex(b: &[u8]) -> (out: Vec<u8>)
    ensures
        out@ == hex_of(b@),
{
    let mut out: Vec<u8> = Vec::new();
    let mut i: usize = 0;
    proof {
        assert(b@.skip(0) =~= b@);
        assert(out@ + hex_of(b@) =~= hex_of(b@));
    }
    while i < b.len()
        invariant
            i <= b@.len(),
            out@ + hex_of(b@.skip(i as int)) == hex_of(b@),
        decreases b@.len() - i,
    {
        let ghost prev = out@;
        let x = b[i];
        let hi = x / 16;
        let lo = x % 16;
        out.push(if hi < 10 { 48 + hi } else { 87 + hi });
        out.push(if lo < 10 { 48 + lo } else { 87 + lo });
        proof {
            assert(b@.skip(i as int)[0] == b@[i as int]);
            assert(b@.skip(i as int).skip(1) =~= b@.skip(i as int + 1));
            assert(out@ =~= prev + seq![hex_digit(b@[i as int] / 16), hex_digit(b@[i as int] % 16)]);
            assert(out@ + hex_of(b@.skip(i as int + 1)) =~= prev + hex_of(b@.skip(i as int)));
        }
        i += 1;
    }
    proof {
        assert(hex_of(b@.skip(i as int)) =~= Seq::<u8>::empty());
        assert(out@ + Seq::<u8>::empty() =~= out@);
    }
    out
}

/// The value of a hex digit, upper or lower case, if it is one.
pub open spec fn hex_val(c: u8) -> Option<u8> {
    if 48 <= c && c <= 57 {
        Some((c - 48) as u8)
    } else if 97 <= c && c <= 102 {
        Some((c - 87) as u8)
    } else if 65 <= c && c <= 70 {
        Some((c - 55) as u8)
    } else {
        None
    }
}

/// The bytes hex text spells: nothing on an odd length or a stray letter.
pub open spec fn unhex(s: Seq<u8>) -> Option<Seq<u8>>
    decreases s.len(),
{
    if s.len() == 0 {
        Some(Seq::empty())
    } else if s.len() == 1 {
        None
    } else {
        match (hex_val(s[0]), hex_val(s[1])) {
            (Some(a), Some(b)) => match unhex(s.skip(2)) {
                Some(rest) => Some(seq![(16 * a + b) as u8] + rest),
                None => None,
            },
            _ => None,
        }
    }
}

fn hex_val_exec(c: u8) -> (r: Option<u8>)
    ensures
        r == hex_val(c),
{
    if 48 <= c && c <= 57 {
        Some(c - 48)
    } else if 97 <= c && c <= 102 {
        Some(c - 87)
    } else if 65 <= c && c <= 70 {
        Some(c - 55)
    } else {
        None
    }
}

/// Reads hex text back to bytes.  Fails on an odd length or a stray letter.
#[verifier::loop_isolation(false)]
pub fn from_hex(s: &[u8]) -> (out: Result<Vec<u8>, DecodeError>)
    ensures
        match out {
            Ok(v) => unhex(s@) == Some(v@),
            Err(_) => unhex(s@) is None,
        },
{
    let mut out: Vec<u8> = Vec::new();
    let mut i: usize = 0;
    proof {
        assert(s@.skip(0) =~= s@);
        assert(out@ =~= Seq::<u8>::empty());
    }
    while i < s.len()
        invariant
            i <= s@.len(),
            unhex(s@.skip(i as int)) is Some ==> unhex(s@) == Some(
                out@ + unhex(s@.skip(i as int))->Some_0,
            ),
            unhex(s@.skip(i as int)) is None ==> unhex(s@) is None,
        decreases s@.len() - i,
    {
        let ghost oi = i as int;
        proof {
            assert(s@.skip(oi)[0] == s@[oi]);
        }
        if s.len() - i < 2 {
            proof {
                assert(s@.skip(oi).len() == 1);
            }
            return Err(DecodeError { offset: i });
        }
        proof {
            assert(s@.skip(oi)[1] == s@[oi + 1]);
            assert(s@.skip(oi).skip(2) =~= s@.skip(oi + 2));
        }
        let a = hex_val_exec(s[i]);
        let b = hex_val_exec(s[i + 1]);
        match (a, b) {
            (Some(a), Some(b)) => {
                let ghost prev = out@;
                out.push(16 * a + b);
                proof {
                    assert(out@ =~= prev + seq![(16 * a + b) as u8]);
                    let n = unhex(s@.skip(oi + 2));
                    if n is Some {
                        assert(unhex(s@.skip(oi)) == Some(seq![(16 * a + b) as u8] + n->Some_0));
                        assert(prev + (seq![(16 * a + b) as u8] + n->Some_0) =~= out@ + n->Some_0);
                    }
                }
                i += 2;
            },
            _ => {
                return Err(DecodeError { offset: i });
            },
        }
    }
    proof {
        assert(unhex(s@.skip(i as int)) == Some(Seq::<u8>::empty()));
        assert(out@ + Seq::<u8>::empty() =~= out@);
    }
    Ok(out)
}

/// Whether a file name is not itself a stored hash, so that it names a true
/// indexed file.
pub fn index_true_file(name: &[u8]) -> (r: bool)
    ensures
        r == (unhex(name@) is None),
{
    match from_hex(name) {
        Ok(_) => false,
        Err(_) => true,
    }
}

/// What the outside digest returns on a byte string: a function of the
/// input alone.
pub uninterp spec fn sha256_of(b: Seq<u8>) -> Seq<u8>;

/// Relies on sha2's Sha256: the digest depends on the input bytes alone,
/// and is exactly 32 bytes long.
#[verifier::external_body]
pub fn sha256(b: &[u8]) -> (r: Vec<u8>)
    ensures
        r@ == sha256_of(b@),
        r@.len() == 32,
{
    sha2::Sha256::digest(b).to_vec()
}

/// The decimal digits of a number.
pub open spec fn dec_digits(x: nat) -> Seq<u8>
    decreases x,
{
    if x < 10 {
        seq![(48 + x) as u8]
    } else {
        dec_digits(x / 10) + seq![(48 + x % 10) as u8]
    }
}

/// Writes a number in decimal.
pub fn u64_to_dec(x: u64) -> (out: Vec<u8>)
    ensures
        out@ == dec_digits(x as nat),
    decreases x,
{
    if x < 10 {
        let mut v: Vec<u8> = Vec::new();
        v.push(48 + x as u8);
        proof {
            assert(v@ =~= dec_digits(x as nat));
        }
        v
    } else {
        let mut v = u64_to_dec(x / 10);
        v.push(48 + (x % 10) as u8);
        proof {
            assert(v@ =~= dec_digits(x as nat));
        }
        v
    }
}

/// The stored object hash: the digest of the contents, folded with the file
/// name byte by byte.
pub open spec fn spec_object_hash(h: Seq<u8>, name: Seq<u8>, n: int) -> Seq<u8>
    decreases n,
{
    if n <= 0 || h.len() != 32 {
        h
    } else {
        let prev = spec_object_hash(h, name, n - 1);
        prev.update((n - 1) % 32, prev[(n - 1) % 32] ^ name[n - 1])
    }
}

/// Hashes a file's contents and mixes its name in, so that two files with
/// equal contents under different names store under different hashes.
#[verifier::loop_isolation(false)]
pub fn object_hash(contents: &[u8], name: &[u8]) -> (out: Vec<u8>)
    ensures
        out@ == spec_object_hash(sha256_of(contents@), name@, name@.len() as int),
        out@.len() == 32,
{
    let mut h = sha256(contents);
    let mut i: usize = 0;
    while i < name.len()
        invariant
            i <= name@.len(),
            h@.len() == 32,
            h@ == spec_object_hash(sha256_of(contents@), name@, i as int),
        decreases name@.len() - i,
    {
        let k = i % 32;
        let b = h[k] ^ name[i];
        h.set(k, b);
        i += 1;
    }
    h
}

/// Whom a commit is by.
#[derive(Debug, Clone, PartialEq, Eq)]
pub struct User {
    pub name: Option<Vec<u8>>,
    pub email: Option<Vec<u8>>,
}

/// The errors of the repository layer that the library itself can raise.
#[derive(Debug, Clone, Copy, PartialEq, Eq, Structural)]
pub enum DcgError {
    NoRepository,
    NoAuthor,
    NoEditor,
    FailedToWriteMessage,
    NoChanges,
}

/// What happened to one file in a commit: created with a content hash,
/// deleted, or modified with a diff type, a content hash and the serialised
/// diff.
#[derive(Debug, Clone, PartialEq, Eq)]
pub enum ChangeContent {
    Addition(Vec<u8>),
    Deletion,
    Modification(DiffType, Vec<u8>, Vec<u8>),
}

/// One file's change in a commit: what happened, the stored file bytes, and
/// the file's path.
#[derive(Debug, Clone, PartialEq, Eq)]
pub struct Change {
    pub content: ChangeContent,
    pub file: Vec<u8>,
    pub path: Vec<u8>,
}

/// A content hash is 32 bytes.
pub open spec fn change_wf(c: Change) -> bool {
    match c.content {
        ChangeContent::Addition(h) => h@.len() == 32,
        ChangeContent::Deletion => true,
        ChangeContent::Modification(_, h, _) => h@.len() == 32,
    }
}

/// The wire form of a change entry: a kind letter, the hash (and diff type)
/// where there is one, then the length-prefixed path.  The diff bytes of a
/// modification live in their own file, not in the entry.
pub open spec fn spec_entry_bytes(c: Change) -> Seq<u8> {
    let head: Seq<u8> = match c.content {
        ChangeContent::Deletion => seq![100u8],
        ChangeContent::Addition(h) => seq![97u8] + h@,
        ChangeContent::Modification(dt, h, _) => seq![109u8] + spec_dt_bytes(dt) + h@,
    };
    head + le_bytes64(c.path@.len() as u64) + c.path@
}

impl Change {
    /// The wire form of the change entry.
    #[verifier::loop_isolation(false)]
    pub fn serialise_entry(&self) -> (out: Vec<u8>)
        requires
            change_wf(*self),
        ensures
            out@ == spec_entry_bytes(*self),
    {
        let mut base: Vec<u8> = Vec::new();
        match &self.content {
            ChangeContent::Deletion => {
                base.push(100u8);
            },
            ChangeContent::Addition(h) => {
                base.push(97u8);
                let mut q: usize = 0;
                let ghost mid = base@;
                while q < h.len()
                    invariant
                        q <= h@.len(),
                        base@ == mid + h@.take(q as int),
                    decreases h@.len() - q,
                {
                    let byte = h[q];
                    base.push(byte);
                    q += 1;
                    proof {
                        assert(base@ =~= mid + h@.take(q as int));
                    }
                }
                proof {
                    assert(h@.take(h@.len() as int) =~= h@);
                }
            },
            ChangeContent::Modification(dt, h, _) => {
                base.push(109u8);
                let mut dtb = dt.serialise();
                base.append(&mut dtb);
                let mut q: usize = 0;
                let ghost mid = base@;
                while q < h.len()
                    invariant
                        q <= h@.len(),
                        base@ == mid + h@.take(q as int),
                    decreases h@.len() - q,
                {
                    let byte = h[q];
                    base.push(byte);
                    q += 1;
                    proof {
                        assert(base@ =~= mid + h@.take(q as int));
                    }
                }
                proof {
                    assert(h@.take(h@.len() as int) =~= h@);
                }
            },
        }
        push_le64(&mut base, self.path.len() as u64);
        let mut q: usize = 0;
        let ghost mid = base@;
        while q < self.path.len()
            invariant
                q <= self.path@.len(),
                base@ == mid + self.path@.take(q as int),
            decreases self.path@.len() - q,
        {
            let byte = self.path[q];
            base.push(byte);
            q += 1;
            proof {
                assert(base@ =~= mid + self.path@.take(q as int));
            }
        }
        proof {
            assert(self.path@.take(self.path@.len() as int) =~= self.path@);
            assert(base@ =~= spec_entry_bytes(*self));
        }
        base
    }
}

/// A commit: author, message, the changes it carries, and its date as
/// seconds since the epoch.
#[derive(Debug, Clone, PartialEq, Eq)]
pub struct CommitObject {
    pub author: User,
    pub message: Vec<u8>,
    pub changes: Vec<Change>,
    pub date: u64,
}

/// The bytes a commit's identity is hashed over: its date in decimal, then
/// the author's name and address.
pub open spec fn spec_commit_key(date: u64, name: Seq<u8>, email: Seq<u8>) -> Seq<u8> {
    dec_digits(date as nat) + name + email
}

impl CommitObject {
    /// Builds a commit from its parts; the caller supplies the date.
    pub fn new(author: User, message: Vec<u8>, changes: Vec<Change>, date: u64) -> (out:
        CommitObject)
        ensures
            out.author == author,
            out.message == message,
            out.changes == changes,
            out.date == date,
    {
        CommitObject { author, message, changes, date }
    }

    /// The commit's identity: the digest of its date and author.  Owed
    /// exactly when the author carries both a name and an address; the only
    /// error otherwise is the missing author.
    pub fn hash(&self) -> (out: Result<Vec<u8>, DcgError>)
        ensures
            match out {
                Ok(h) => self.author.name is Some && self.author.email is Some && h@ == sha256_of(
                    spec_commit_key(
                        self.date,
                        self.author.name->Some_0@,
                        self.author.email->Some_0@,
                    ),
                ) && h@.len() == 32,
                Err(e) => e == DcgError::NoAuthor && !(self.author.name is Some
                    && self.author.email is Some),
            },
    {
        match (&self.author.name, &self.author.email) {
            (Some(name), Some(email)) => {
                let mut k = u64_to_dec(self.date);
                let mut n = name.clone();
                let mut e = email.clone();
                k.append(&mut n);
                k.append(&mut e);
                proof {
                    assert(k@ =~= spec_commit_key(
                        self.date,
                        self.author.name->Some_0@,
                        self.author.email->Some_0@,
                    ));
                }
                Ok(sha256(k.as_slice()))
            },
            _ => Err(DcgError::NoAuthor),
        }
    }
}

/// The repository path a commit's tree is stored under: the first hash byte
/// as a directory, then the rest, both in hex.
pub open spec fn spec_commit_path(h: Seq<u8>) -> Seq<u8> {
    hex_of(h.take(1)) + seq![47u8] + hex_of(h.skip(1)) + seq![47u8]
}

/// Lays a commit hash out as its storage path.
pub fn hash_to_commit_path(h: &[u8]) -> (out: Vec<u8>)
    requires
        h@.len() == 32,
    ensures
        out@ == spec_commit_path(h@),
{
    let mut out = to_hex(&h[0..1]);
    out.push(47u8);
    let mut rest = to_hex(&h[1..32]);
    proof {
        assert(h@.subrange(0, 1) =~= h@.take(1));
        assert(h@.subrange(1, 32) =~= h@.skip(1));
    }
    out.append(&mut rest);
    out.push(47u8);
    proof {
        assert(out@ =~= spec_commit_path(h@));
    }
    out
}

/// The file name at the end of a path, by bytes alone: everything after the
/// last slash, and nothing for a path that ends in a slash.
///
/// This is deliberately simpler than platform path resolution, which ignores
/// trailing separators and treats dot components specially: callers hand in
/// clean relative file paths, for which the two agree.
pub open spec fn spec_fname(p: Seq<u8>) -> Seq<u8>
    decreases p.len(),
{
    if p.len() == 0 {
        Seq::empty()
    } else if p[p.len() - 1] == 47 {
        Seq::empty()
    } else {
        spec_fname(p.take(p.len() - 1)) + seq![p[p.len() - 1]]
    }
}

/// The file name at the end of a path.
#[verifier::loop_isolation(false)]
pub fn get_fname(path: &[u8]) -> (out: Vec<u8>)
    ensures
        out@ == spec_fname(path@),
{
    let mut start: usize = path.len();
    proof {
        assert(path@.take(path@.len() as int) =~= path@);
        assert(path@.skip(path@.len() as int) =~= Seq::<u8>::empty());
        assert(spec_fname(path@) + Seq::<u8>::empty() =~= spec_fname(path@));
    }
    while start > 0 && path[start - 1] != 47
        invariant
            start <= path@.len(),
            spec_fname(path@) == spec_fname(path@.take(start as int)) + path@.skip(start as int),
        decreases start,
    {
        proof {
            assert(path@.take(start as int).take(start as int - 1) =~= path@.take(start as int - 1));
            assert(spec_fname(path@.take(start as int)) == spec_fname(path@.take(start as int - 1))
                + seq![path@[start as int - 1]]);
            assert(spec_fname(path@.take(start as int - 1)) + (seq![path@[start as int - 1]]
                + path@.skip(start as int)) =~= spec_fname(path@.take(start as int - 1))
                + seq![path@[start as int - 1]] + path@.skip(start as int));
            assert(seq![path@[start as int - 1]] + path@.skip(start as int) =~= path@.skip(
                start as int - 1,
            ));
        }
        start -= 1;
    }
    proof {
        if start == 0 {
            assert(path@.take(0).len() == 0);
            assert(spec_fname(path@.take(0)) =~= Seq::<u8>::empty());
        } else {
            assert(path@.take(start as int)[start as int - 1] == path@[start as int - 1]);
            assert(spec_fname(path@.take(start as int)) =~= Seq::<u8>::empty());
        }
        assert(spec_fname(path@) =~= path@.skip(start as int));
    }
    crate::serde::bytes_range_pub(path, start, path.len())
}

/// Joining two path pieces: a slash goes between them unless the left side
/// is empty or already ends in one.
pub open spec fn spec_join(a: Seq<u8>, b: Seq<u8>) -> Seq<u8> {
    if a.len() == 0 {
        b
    } else if a[a.len() - 1] == 47 {
        a + b
    } else {
        a + seq![47u8] + b
    }
}

/// Joins two path pieces.
pub fn join_path(a: &[u8], b: &[u8]) -> (out: Vec<u8>)
    ensures
        out@ == spec_join(a@, b@),
{
    let mut out = crate::serde::bytes_range_pub(a, 0, a.len());
    proof {
        assert(a@.subrange(0, a@.len() as int) =~= a@);
    }
    if a.len() > 0 && a[a.len() - 1] != 47 {
        out.push(47u8);
    }
    let mut tail = crate::serde::bytes_range_pub(b, 0, b.len());
    proof {
        assert(b@.subrange(0, b@.len() as int) =~= b@);
    }
    out.append(&mut tail);
    proof {
        assert(out@ =~= spec_join(a@, b@));
    }
    out
}

/// The parent directory of a path, inside the repository index: the working
/// directory joined with the index location and the path's own parent.
pub open spec fn spec_parent(p: Seq<u8>) -> Seq<u8> {
    p.take(p.len() - spec_fname(p).len() as int)
}

/// Where a path's siblings live inside the index.
pub fn get_virtual_parent(wd: &[u8], path: &[u8]) -> (out: Vec<u8>)
    ensures
        out@ == spec_join(spec_join(spec_join(wd@, dcg_dir_spec()), index_dir_spec()), spec_parent(path@)),
{
    let fname = get_fname(path);
    proof {
        lemma_fname_len(path@);
    }
    let parent = crate::serde::bytes_range_pub(path, 0, path.len() - fname.len());
    let d = dcg_dir();
    let i = index_dir();
    let a = join_path(wd, d.as_slice());
    let b = join_path(a.as_slice(), i.as_slice());
    let out = join_path(b.as_slice(), parent.as_slice());
    proof {
        assert(parent@ =~= spec_parent(path@));
    }
    out
}

/// A path's file name is never longer than the path.
proof fn lemma_fname_len(p: Seq<u8>)
    ensures
        spec_fname(p).len() <= p.len(),
    decreases p.len(),
{
    if p.len() > 0 && p[p.len() - 1] != 47 {
        lemma_fname_len(p.take(p.len() - 1));
    }
}

/// The repository directory name.
pub fn dcg_dir() -> (out: Vec<u8>)
    ensures
        out@ == dcg_dir_spec(),
{
    let mut v: Vec<u8> = Vec::new();
    v.push(46u8);
    v.push(100u8);
    v.push(99u8);
    v.push(103u8);
    v.push(47u8);
    proof {
        assert(v@ =~= dcg_dir_spec());
    }
    v
}

/// The repository directory name: a dot, the tool's name, a slash.
pub open spec fn dcg_dir_spec() -> Seq<u8> {
    seq![46u8, 100u8, 99u8, 103u8, 47u8]
}

/// The index directory name.
pub fn index_dir() -> (out: Vec<u8>)
    ensures
        out@ == index_dir_spec(),
{
    let mut v: Vec<u8> = Vec::new();
    v.push(105u8);
    v.push(110u8);
    v.push(100u8);
    v.push(101u8);
    v.push(120u8);
    v.push(47u8);
    proof {
        assert(v@ =~= index_dir_spec());
    }
    v
}

/// The index directory name.
pub open spec fn index_dir_spec() -> Seq<u8> {
    seq![105u8, 110u8, 100u8, 101u8, 120u8, 47u8]
}

/// Settings a configuration file can carry; a later file wins field by
/// field.
#[derive(Debug, Clone, PartialEq, Eq)]
pub struct Config {
    pub user: Option<User>,
    pub init: Option<Vec<u8>>,
    pub editor: Option<Vec<u8>>,
}

impl Config {
    /// Merges a later configuration over this one: every field the other
    /// side carries wins.
    pub fn merge(self, other: Config) -> (out: Config)
        ensures
            out.user == if other.user is Some {
                other.user
            } else {
                self.user
            },
            out.init == if other.init is Some {
                other.init
            } else {
                self.init
            },
            out.editor == if other.editor is Some {
                other.editor
            } else {
                self.editor
            },
    {
        Config {
            user: match other.user {
                Some(u) => Some(u),
                None => self.user,
            },
            init: match other.init {
                Some(i) => Some(i),
                None => self.init,
            },
            editor: match other.editor {
                Some(e) => Some(e),
                None => self.editor,
            },
        }
    }
}

/// Computes the serialised line diff of two texts.  A line break is first
/// added to each side, so that line displacement is handled on whole lines.
/// The bytes always decode to a script that patches the left side's lines
/// to the right side's.
pub fn do_diff_linear(s1: &Vec<u8>, s2: &Vec<u8>) -> (out: Vec<u8>)
    requires
        s1@.len() + 1 < 0x7FFF_FFFF,
        s2@.len() + 1 < 0x7FFF_FFFF,
    ensures
        exists|dd: Seq<linear::LinDiffV>|
            out@ == linear::lin_ser(dd) && #[trigger] linear::lin_patch(
                linear::lines_of(s1@ + seq![10u8]),
                dd,
            ) == Some(linear::lines_of(s2@ + seq![10u8])),
{
    let mut a = s1.clone();
    a.push(10u8);
    let mut b = s2.clone();
    b.push(10u8);
    let l1 = linear::split_lines(a.as_slice());
    let l2 = linear::split_lines(b.as_slice());
    let dd = linear::diff(a.as_slice(), b.as_slice(), &l1, &l2);
    let out = linear::serialise(&dd);
    proof {
        assert(a@ =~= s1@ + seq![10u8]);
        assert(b@ =~= s2@ + seq![10u8]);
        assert(linear::lin_patch(
            linear::lines_of(s1@ + seq![10u8]),
            linear::script_view(dd@),
        ) == Some(linear::lines_of(s2@ + seq![10u8])));
    }
    out
}


/// A known language code encodes back to itself.
pub proof fn lemma_lang_code_of(x: u8)
    requires
        spec_lang_of(x) is Some,
    ensures
        spec_lang_code(spec_lang_of(x)->Some_0) == x,
{
}

/// Whether a stream starts with a well-formed change entry, and how many
/// bytes that entry takes.
pub open spec fn spec_entry_shape(v: Seq<u8>) -> Option<int> {
    if v.len() == 0 {
        None
    } else {
        let after: int = if v[0] == 100 {
            1
        } else if v[0] == 97 {
            if v.len() >= 33 {
                33
            } else {
                -1
            }
        } else if v[0] == 109 {
            match spec_dt_of(v.skip(1)) {
                Some((dt, n)) => if v.len() >= 1 + n + 32 {
                    1 + n + 32
                } else {
                    -1
                },
                None => -1,
            }
        } else {
            -1
        };
        if after < 0 {
            None
        } else if after + 8 <= v.len() {
            let plen = le64_at(v, after);
            if plen <= usize::MAX as u64 && after + 8 + plen <= v.len() {
                Some(after + 8 + plen)
            } else {
                None
            }
        } else {
            None
        }
    }
}

impl Change {
    /// Reads a change entry from the front of a stream, with how many bytes
    /// it took.  The stored file bytes and a modification's diff live
    /// elsewhere, so they come back empty; everything read back re-encodes
    /// to exactly the bytes consumed.
    #[verifier::rlimit(60)]
    pub fn deserialise_entry(v: &[u8]) -> (out: Result<(Change, usize), DecodeError>)
        ensures
            match out {
                Ok(p) => spec_entry_shape(v@) == Some(p.1 as int) && spec_entry_bytes(p.0)
                    == v@.subrange(0, p.1 as int) && change_wf(p.0) && p.1 <= v@.len()
                    && p.0.file@.len() == 0 && match p.0.content {
                    ChangeContent::Modification(_, _, d) => d@.len() == 0,
                    _ => true,
                },
                Err(_) => spec_entry_shape(v@) is None,
            },
    {
        if v.len() == 0 {
            return Err(DecodeError { offset: 0 });
        }
        let tag = v[0];
        let (content, after): (ChangeContent, usize) = if tag == 100 {
            (ChangeContent::Deletion, 1)
        } else if tag == 97 {
            if v.len() < 33 {
                return Err(DecodeError { offset: 1 });
            }
            let h = crate::serde::bytes_range_pub(v, 1, 33);
            (ChangeContent::Addition(h), 33)
        } else if tag == 109 {
            let rest = &v[1..v.len()];
            proof {
                assert(rest@ =~= v@.skip(1));
            }
            let (dt, n) = match DiffType::deserialise(rest) {
                Ok(p) => p,
                Err(_) => {
                    return Err(DecodeError { offset: 1 });
                },
            };
            if v.len() < 33 || v.len() - 33 < n {
                return Err(DecodeError { offset: 1 });
            }
            let h = crate::serde::bytes_range_pub(v, 1 + n, 1 + n + 32);
            (ChangeContent::Modification(dt, h, Vec::new()), 1 + n + 32)
        } else {
            return Err(DecodeError { offset: 0 });
        };
        if v.len() - after < 8 {
            return Err(DecodeError { offset: after });
        }
        let plen64 = read_le64(v, after);
        if plen64 > usize::MAX as u64 {
            return Err(DecodeError { offset: after });
        }
        let plen = plen64 as usize;
        if plen > v.len() || v.len() - after - 8 < plen {
            return Err(DecodeError { offset: after });
        }
        let path = crate::serde::bytes_range_pub(v, after + 8, after + 8 + plen);
        let used = after + 8 + plen;
        let c = Change { content, file: Vec::new(), path };
        proof {
            if v@[0] == 109 {
                let dtp = spec_dt_of(v@.skip(1))->Some_0;
                assert(spec_dt_bytes(dtp.0) =~= v@.subrange(1, 1 + dtp.1)) by {
                    if v@.skip(1)[0] == 1 || v@.skip(1)[0] == 2 {
                        lemma_lang_code_of(v@.skip(1)[1]);
                    }
                    if v@.skip(1)[0] == 3 {
                        lemma_lang_code_of(v@.skip(1)[1]);
                        lemma_lang_code_of(v@.skip(1)[2]);
                    }
                    assert(v@.skip(1)[0] == v@[1]);
                    if 1 < v@.skip(1).len() {
                        assert(v@.skip(1)[1] == v@[2]);
                    }
                    if 2 < v@.skip(1).len() {
                        assert(v@.skip(1)[2] == v@[3]);
                    }
                }
            }
            crate::wire::lemma_le64_bytes_at(v@, after as int);
            assert(le_bytes64(c.path@.len() as u64) =~= v@.subrange(
                after as int,
                after as int + 8,
            ));
            assert(c.path@ =~= v@.subrange(after as int + 8, used as int));
            let head: Seq<u8> = match &c.content {
                ChangeContent::Deletion => seq![100u8],
                ChangeContent::Addition(h) => seq![97u8] + h@,
                ChangeContent::Modification(dt, h, _) => seq![109u8] + spec_dt_bytes(*dt) + h@,
            };
            assert(head =~= v@.subrange(0, after as int));
            assert(v@.subrange(0, after as int) + v@.subrange(after as int, after as int + 8)
                + v@.subrange(after as int + 8, used as int) =~= v@.subrange(0, used as int));
            assert(spec_entry_bytes(c) =~= v@.subrange(0, used as int));
        }
        Ok((c, used))
    }
}


/// Compares a vector's bytes with a slice.
fn slice_eq(a: &[u8], b: &[u8]) -> (r: bool)
    ensures
        r == (a@ == b@),
{
    if a.len() != b.len() {
        return false;
    }
    let mut i: usize = 0;
    while i < a.len()
        invariant
            i <= a@.len(),
            a@.len() == b@.len(),
            forall|j: int| 0 <= j < i ==> a@[j] == b@[j],
        decreases a@.len() - i,
    {
        if a[i] != b[i] {
            return false;
        }
        i += 1;
    }
    proof {
        assert(a@ =~= b@);
    }
    true
}

/// Position of the first dollar sign at or after `i`, or a negative number.
pub open spec fn first_dollar(s: Seq<u8>, i: int) -> int
    decreases s.len() - i,
{
    if i < 0 || i >= s.len() {
        -1
    } else if s[i] == 36 {
        i
    } else {
        first_dollar(s, i + 1)
    }
}

/// The first value a variable list gives a name, or nothing.
pub open spec fn spec_lookup(vars: Seq<(Seq<u8>, Seq<u8>)>, k: Seq<u8>) -> Seq<u8>
    decreases vars.len(),
{
    if vars.len() == 0 {
        Seq::empty()
    } else if vars[0].0 == k {
        vars[0].1
    } else {
        spec_lookup(vars.skip(1), k)
    }
}

/// A template with its variables filled in: the text between a pair of
/// dollar signs names a variable and becomes its value, or nothing when the
/// list does not know it; text outside stays as it is.  A name the template
/// leaves unclosed still counts as a name.
pub open spec fn spec_replace(s: Seq<u8>, i: int, vars: Seq<(Seq<u8>, Seq<u8>)>) -> Seq<u8>
    decreases s.len() - i,
{
    if i < 0 || i > s.len() {
        Seq::empty()
    } else {
        let d = first_dollar(s, i);
        if d < i || d >= s.len() {
            s.subrange(i, s.len() as int)
        } else {
            let lit = s.subrange(i, d);
            let d2 = first_dollar(s, d + 1);
            if d2 < d + 1 || d2 >= s.len() {
                lit + spec_lookup(vars, s.subrange(d + 1, s.len() as int))
            } else {
                lit + spec_lookup(vars, s.subrange(d + 1, d2)) + spec_replace(s, d2 + 1, vars)
            }
        }
    }
}

proof fn lemma_first_dollar_at(s: Seq<u8>, start: int, z: int)
    requires
        0 <= start <= z < s.len(),
        s[z] == 36,
        forall|q: int| start <= q < z ==> s[q] != 36,
    ensures
        first_dollar(s, start) == z,
    decreases z - start,
{
    if start < z {
        lemma_first_dollar_at(s, start + 1, z);
    }
}

proof fn lemma_first_dollar_none(s: Seq<u8>, start: int)
    requires
        0 <= start,
        forall|q: int| start <= q < s.len() ==> s[q] != 36,
    ensures
        first_dollar(s, start) < 0 || first_dollar(s, start) >= s.len(),
    decreases s.len() - start,
{
    if start < s.len() {
        lemma_first_dollar_none(s, start + 1);
    }
}

fn find_dollar(s: &[u8], from: usize) -> (r: usize)
    requires
        from <= s@.len(),
    ensures
        from <= r <= s@.len(),
        r < s@.len() ==> first_dollar(s@, from as int) == r as int && s@[r as int] == 36,
        r == s@.len() ==> first_dollar(s@, from as int) < 0 || first_dollar(s@, from as int)
            >= s@.len(),
{
    let mut i = from;
    while i < s.len() && s[i] != 36
        invariant
            from <= i <= s@.len(),
            forall|q: int| from <= q < i ==> s@[q] != 36,
        decreases s@.len() - i,
    {
        i += 1;
    }
    proof {
        if i < s@.len() {
            lemma_first_dollar_at(s@, from as int, i as int);
        } else {
            lemma_first_dollar_none(s@, from as int);
        }
    }
    i
}

#[verifier::loop_isolation(false)]
fn lookup(vars: &Vec<(Vec<u8>, Vec<u8>)>, k: &[u8]) -> (out: Vec<u8>)
    ensures
        out@ == spec_lookup(
            vars@.map_values(|p: (Vec<u8>, Vec<u8>)| (p.0@, p.1@)),
            k@,
        ),
{
    let ghost vv = vars@.map_values(|p: (Vec<u8>, Vec<u8>)| (p.0@, p.1@));
    let mut i: usize = 0;
    proof {
        assert(vv.skip(0) =~= vv);
    }
    while i < vars.len()
        invariant
            i <= vars@.len(),
            spec_lookup(vv, k@) == spec_lookup(vv.skip(i as int), k@),
        decreases vars@.len() - i,
    {
        proof {
            assert(vv.skip(i as int)[0] == vv[i as int]);
            assert(vv[i as int] == (vars@[i as int].0@, vars@[i as int].1@));
            assert(vv.skip(i as int).skip(1) =~= vv.skip(i as int + 1));
        }
        if slice_eq(vars[i].0.as_slice(), k) {
            return vars[i].1.clone();
        }
        i += 1;
    }
    proof {
        assert(vv.skip(i as int).len() == 0);
    }
    Vec::new()
}

/// Fills a template's variables in from a resolved list: the text between
/// each pair of dollar signs names a variable and is replaced by its value,
/// or dropped when the list does not know it.
#[verifier::loop_isolation(false)]
pub fn replace_variables(s: &[u8], vars: &Vec<(Vec<u8>, Vec<u8>)>) -> (out: Vec<u8>)
    ensures
        out@ == spec_replace(
            s@,
            0,
            vars@.map_values(|p: (Vec<u8>, Vec<u8>)| (p.0@, p.1@)),
        ),
{
    let ghost vv = vars@.map_values(|p: (Vec<u8>, Vec<u8>)| (p.0@, p.1@));
    let mut out: Vec<u8> = Vec::new();
    let mut i: usize = 0;
    proof {
        assert(out@ + spec_replace(s@, 0, vv) =~= spec_replace(s@, 0, vv));
    }
    while i < s.len()
        invariant
            i <= s@.len(),
            out@ + spec_replace(s@, i as int, vv) == spec_replace(s@, 0, vv),
        decreases s@.len() - i,
    {
        let ghost oi = i as int;
        let ghost prev = out@;
        let d = find_dollar(s, i);
        let mut lit = crate::serde::bytes_range_pub(s, i, d);
        out.append(&mut lit);
        if d == s.len() {
            proof {
                assert(spec_replace(s@, oi, vv) =~= s@.subrange(oi, s@.len() as int));
                assert(out@ =~= prev + s@.subrange(oi, s@.len() as int));
                assert(spec_replace(s@, s@.len() as int, vv) =~= Seq::<u8>::empty());
                assert(out@ + Seq::<u8>::empty() =~= out@);
            }
            i = d;
        } else {
            let d2 = find_dollar(s, d + 1);
            if d2 == s.len() {
                let name = crate::serde::bytes_range_pub(s, d + 1, s.len());
                let mut val = lookup(vars, name.as_slice());
                out.append(&mut val);
                proof {
                    assert(out@ =~= prev + (s@.subrange(oi, d as int) + spec_lookup(
                        vv,
                        s@.subrange(d as int + 1, s@.len() as int),
                    )));
                    assert(out@ =~= prev + spec_replace(s@, oi, vv));
                    assert(spec_replace(s@, s@.len() as int, vv) =~= Seq::<u8>::empty());
                    assert(out@ + Seq::<u8>::empty() =~= out@);
                }
                i = s.len();
            } else {
                let name = crate::serde::bytes_range_pub(s, d + 1, d2);
                let mut val = lookup(vars, name.as_slice());
                out.append(&mut val);
                proof {
                    assert(spec_replace(s@, oi, vv) =~= (s@.subrange(oi, d as int) + spec_lookup(
                        vv,
                        s@.subrange(d as int + 1, d2 as int),
                    )) + spec_replace(s@, d2 as int + 1, vv));
                    assert(out@ =~= prev + (s@.subrange(oi, d as int) + spec_lookup(
                        vv,
                        s@.subrange(d as int + 1, d2 as int),
                    )));
                    assert(out@ + spec_replace(s@, d2 as int + 1, vv) =~= prev + spec_replace(
                        s@,
                        oi,
                        vv,
                    ));
                }
                i = d2 + 1;
            }
        }
    }
    proof {
        assert(spec_replace(s@, i as int, vv) =~= Seq::<u8>::empty());
        assert(out@ + Seq::<u8>::empty() =~= out@);
    }
    out
}


/// What happened to one indexed file relative to the last commit.
#[derive(Debug, Clone, Copy, PartialEq, Eq, Structural)]
pub enum ObjStatus {
    Added,
    Deleted,
    Modified,
    Kept,
}

/// The first value an association list gives a key, if any.
pub open spec fn spec_assoc(m: Seq<(Seq<u8>, Seq<u8>)>, k: Seq<u8>) -> Option<Seq<u8>>
    decreases m.len(),
{
    if m.len() == 0 {
        None
    } else if m[0].0 == k {
        Some(m[0].1)
    } else {
        spec_assoc(m.skip(1), k)
    }
}

/// The status of every indexed file: kept or modified when the last commit
/// knows its path, added when it does not.
pub open spec fn spec_status_index(
    index: Seq<(Seq<u8>, Seq<u8>)>,
    last: Seq<(Seq<u8>, Seq<u8>)>,
) -> Seq<(Seq<u8>, ObjStatus)>
    decreases index.len(),
{
    if index.len() == 0 {
        Seq::empty()
    } else {
        let p = index[0];
        let entry = match spec_assoc(last, p.0) {
            Some(v) => (
                p.0,
                if v == p.1 {
                    ObjStatus::Kept
                } else {
                    ObjStatus::Modified
                },
            ),
            None => (p.0, ObjStatus::Added),
        };
        seq![entry] + spec_status_index(index.skip(1), last)
    }
}

/// The files of the last commit the index no longer carries: each one
/// deleted.
pub open spec fn spec_status_deleted(
    last: Seq<(Seq<u8>, Seq<u8>)>,
    index: Seq<(Seq<u8>, Seq<u8>)>,
) -> Seq<(Seq<u8>, ObjStatus)>
    decreases last.len(),
{
    if last.len() == 0 {
        Seq::empty()
    } else {
        let q = last[0];
        let head: Seq<(Seq<u8>, ObjStatus)> = if spec_assoc(index, q.0) is Some {
            Seq::empty()
        } else {
            seq![(q.0, ObjStatus::Deleted)]
        };
        head + spec_status_deleted(last.skip(1), index)
    }
}

/// The status of the whole working set: the indexed files first, in index
/// order, then what the last commit lost, in its order.
pub open spec fn spec_status(
    index: Seq<(Seq<u8>, Seq<u8>)>,
    last: Seq<(Seq<u8>, Seq<u8>)>,
) -> Seq<(Seq<u8>, ObjStatus)> {
    spec_status_index(index, last) + spec_status_deleted(last, index)
}

/// The pair views of a path-to-hash list.
pub open spec fn pairs_view(v: Seq<(Vec<u8>, Vec<u8>)>) -> Seq<(Seq<u8>, Seq<u8>)> {
    v.map_values(|p: (Vec<u8>, Vec<u8>)| (p.0@, p.1@))
}

/// The pair views of a status list.
pub open spec fn status_view(v: Seq<(Vec<u8>, ObjStatus)>) -> Seq<(Seq<u8>, ObjStatus)> {
    v.map_values(|p: (Vec<u8>, ObjStatus)| (p.0@, p.1))
}

#[verifier::loop_isolation(false)]
fn assoc(m: &Vec<(Vec<u8>, Vec<u8>)>, k: &[u8]) -> (out: Option<Vec<u8>>)
    ensures
        match out {
            Some(v) => spec_assoc(pairs_view(m@), k@) == Some(v@),
            None => spec_assoc(pairs_view(m@), k@) is None,
        },
{
    let ghost mv = pairs_view(m@);
    let mut i: usize = 0;
    proof {
        assert(mv.skip(0) =~= mv);
    }
    while i < m.len()
        invariant
            i <= m@.len(),
            spec_assoc(mv, k@) == spec_assoc(mv.skip(i as int), k@),
        decreases m@.len() - i,
    {
        proof {
            assert(mv.skip(i as int)[0] == mv[i as int]);
            assert(mv[i as int] == (m@[i as int].0@, m@[i as int].1@));
            assert(mv.skip(i as int).skip(1) =~= mv.skip(i as int + 1));
        }
        if slice_eq(m[i].0.as_slice(), k) {
            return Some(m[i].1.clone());
        }
        i += 1;
    }
    proof {
        assert(mv.skip(i as int).len() == 0);
    }
    None
}

/// Classifies the working set: each indexed file against the last commit,
/// then each file the commit lost.
#[verifier::loop_isolation(false)]
pub fn status_of(
    index: &Vec<(Vec<u8>, Vec<u8>)>,
    last: &Vec<(Vec<u8>, Vec<u8>)>,
) -> (out: Vec<(Vec<u8>, ObjStatus)>)
    ensures
        status_view(out@) == spec_status(pairs_view(index@), pairs_view(last@)),
{
    let ghost iv = pairs_view(index@);
    let ghost lv = pairs_view(last@);
    let mut out: Vec<(Vec<u8>, ObjStatus)> = Vec::new();
    let mut i: usize = 0;
    proof {
        assert(iv.skip(0) =~= iv);
        assert(status_view(out@) =~= Seq::<(Seq<u8>, ObjStatus)>::empty());
    }
    while i < index.len()
        invariant
            i <= index@.len(),
            status_view(out@) + spec_status_index(iv.skip(i as int), lv) == spec_status_index(
                iv,
                lv,
            ),
        decreases index@.len() - i,
    {
        let ghost prev = status_view(out@);
        proof {
            assert(iv.skip(i as int)[0] == iv[i as int]);
            assert(iv[i as int] == (index@[i as int].0@, index@[i as int].1@));
            assert(iv.skip(i as int).skip(1) =~= iv.skip(i as int + 1));
        }
        let st = match assoc(last, index[i].0.as_slice()) {
            Some(v) => {
                if slice_eq(v.as_slice(), index[i].1.as_slice()) {
                    ObjStatus::Kept
                } else {
                    ObjStatus::Modified
                }
            },
            None => ObjStatus::Added,
        };
        out.push((index[i].0.clone(), st));
        proof {
            assert(status_view(out@) =~= prev + seq![(iv[i as int].0, st)]);
            assert(status_view(out@) + spec_status_index(iv.skip(i as int + 1), lv) =~= prev
                + spec_status_index(iv.skip(i as int), lv));
        }
        i += 1;
    }
    proof {
        assert(spec_status_index(iv.skip(i as int), lv).len() == 0);
        assert(status_view(out@) + spec_status_index(iv.skip(i as int), lv) =~= status_view(out@));
    }
    let ghost base = status_view(out@);
    let mut j: usize = 0;
    proof {
        assert(lv.skip(0) =~= lv);
    }
    while j < last.len()
        invariant
            j <= last@.len(),
            status_view(out@) + spec_status_deleted(lv.skip(j as int), iv) == base
                + spec_status_deleted(lv, iv),
        decreases last@.len() - j,
    {
        let ghost prev = status_view(out@);
        proof {
            assert(lv.skip(j as int)[0] == lv[j as int]);
            assert(lv[j as int] == (last@[j as int].0@, last@[j as int].1@));
            assert(lv.skip(j as int).skip(1) =~= lv.skip(j as int + 1));
        }
        match assoc(index, last[j].0.as_slice()) {
            Some(_) => {
                proof {
                    assert(Seq::<(Seq<u8>, ObjStatus)>::empty() + spec_status_deleted(
                        lv.skip(j as int + 1),
                        iv,
                    ) =~= spec_status_deleted(lv.skip(j as int + 1), iv));
                }
            },
            None => {
                out.push((last[j].0.clone(), ObjStatus::Deleted));
                proof {
                    assert(status_view(out@) =~= prev + seq![(lv[j as int].0, ObjStatus::Deleted)]);
                }
            },
        }
        proof {
            assert(status_view(out@) + spec_status_deleted(lv.skip(j as int + 1), iv) =~= prev
                + spec_status_deleted(lv.skip(j as int), iv));
        }
        j += 1;
    }
    proof {
        assert(spec_status_deleted(lv.skip(j as int), iv).len() == 0);
        assert(status_view(out@) + spec_status_deleted(lv.skip(j as int), iv) =~= status_view(
            out@,
        ));
    }
    out
}

} // verus!
