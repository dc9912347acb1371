//! Little-endian integers on the wire, and how byte strings embed in a
//! larger stream.

use vstd::prelude::*;

verus! {

/// The eight little-endian bytes of a 64-bit integer.
pub open spec fn le_bytes64(x: u64) -> Seq<u8> {
    seq![
        x as u8,
        (x >> 8) as u8,
        (x >> 16) as u8,
        (x >> 24) as u8,
        (x >> 32) as u8,
        (x >> 40) as u8,
        (x >> 48) as u8,
        (x >> 56) as u8,
    ]
}

/// The two little-endian bytes of a 16-bit integer.
pub open spec fn le_bytes16(x: u16) -> Seq<u8> {
    seq![x as u8, (x >> 8) as u8]
}

/// The 64-bit integer whose little-endian bytes stand at `i`.
pub open spec fn le64_at(b: Seq<u8>, i: int) -> u64 {
    (b[i] as u64) | (b[i + 1] as u64) << 8 | (b[i + 2] as u64) << 16 | (b[i + 3] as u64) << 24 | (
    b[i + 4] as u64) << 32 | (b[i + 5] as u64) << 40 | (b[i + 6] as u64) << 48 | (b[i + 7] as u64)
        << 56
}

/// The 16-bit integer whose little-endian bytes stand at `i`.
pub open spec fn le16_at(b: Seq<u8>, i: int) -> u16 {
    (b[i] as u16) | (b[i + 1] as u16) << 8
}

/// Reading eight little-endian bytes back gives the integer they encode.
pub proof fn lemma_le64_round_trip(x: u64)
    ensures
        le64_at(le_bytes64(x), 0) == x,
{
    let b0 = x as u8;
    let b1 = (x >> 8) as u8;
    let b2 = (x >> 16) as u8;
    let b3 = (x >> 24) as u8;
    let b4 = (x >> 32) as u8;
    let b5 = (x >> 40) as u8;
    let b6 = (x >> 48) as u8;
    let b7 = (x >> 56) as u8;
    assert((b0 as u64) | (b1 as u64) << 8 | (b2 as u64) << 16 | (b3 as u64) << 24 | (b4 as u64)
        << 32 | (b5 as u64) << 40 | (b6 as u64) << 48 | (b7 as u64) << 56 == x) by (bit_vector)
        requires
            b0 == x as u8,
            b1 == (x >> 8) as u8,
            b2 == (x >> 16) as u8,
            b3 == (x >> 24) as u8,
            b4 == (x >> 32) as u8,
            b5 == (x >> 40) as u8,
            b6 == (x >> 48) as u8,
            b7 == (x >> 56) as u8,
    ;
}

/// Reading two little-endian bytes back gives the integer they encode.
pub proof fn lemma_le16_round_trip(x: u16)
    ensures
        le16_at(le_bytes16(x), 0) == x,
{
    let b0 = x as u8;
    let b1 = (x >> 8) as u8;
    assert((b0 as u16) | (b1 as u16) << 8 == x) by (bit_vector)
        requires
            b0 == x as u8,
            b1 == (x >> 8) as u8,
    ;
}

/// `sub` stands letter for letter at position `i` of `s`.
pub open spec fn seq_at(s: Seq<u8>, i: int, sub: Seq<u8>) -> bool {
    &&& 0 <= i
    &&& i + sub.len() <= s.len()
    &&& forall|k: int| 0 <= k < sub.len() ==> s[i + k] == #[trigger] sub[k]
}

/// A concatenation stands at `i` exactly as its parts stand in turn.
pub proof fn lemma_seq_at_concat(s: Seq<u8>, i: int, a: Seq<u8>, b: Seq<u8>)
    requires
        seq_at(s, i, a + b),
    ensures
        seq_at(s, i, a),
        seq_at(s, i + a.len(), b),
{
    assert forall|k: int| 0 <= k < a.len() implies s[i + k] == a[k] by {
        assert((a + b)[k] == a[k]);
    }
    assert forall|k: int| 0 <= k < b.len() implies s[i + a.len() + k] == b[k] by {
        assert((a + b)[a.len() + k] == b[k]);
    }
}

/// A 64-bit integer read where its bytes stand is the integer.
pub proof fn lemma_le64_at(s: Seq<u8>, i: int, x: u64)
    requires
        seq_at(s, i, le_bytes64(x)),
    ensures
        le64_at(s, i) == x,
{
    lemma_le64_round_trip(x);
    let b = le_bytes64(x);
    assert(s[i] == b[0]);
    assert(s[i + 1] == b[1]);
    assert(s[i + 2] == b[2]);
    assert(s[i + 3] == b[3]);
    assert(s[i + 4] == b[4]);
    assert(s[i + 5] == b[5]);
    assert(s[i + 6] == b[6]);
    assert(s[i + 7] == b[7]);
}

/// A 16-bit integer read where its bytes stand is the integer.
pub proof fn lemma_le16_at(s: Seq<u8>, i: int, x: u16)
    requires
        seq_at(s, i, le_bytes16(x)),
    ensures
        le16_at(s, i) == x,
{
    lemma_le16_round_trip(x);
    let b = le_bytes16(x);
    assert(s[i] == b[0]);
    assert(s[i + 1] == b[1]);
}

/// Appends the eight little-endian bytes of `x`.
pub fn push_le64(out: &mut Vec<u8>, x: u64)
    ensures
        final(out)@ == old(out)@ + le_bytes64(x),
{
    out.push(#[verifier::truncate] (x as u8));
    out.push(#[verifier::truncate] ((x >> 8) as u8));
    out.push(#[verifier::truncate] ((x >> 16) as u8));
    out.push(#[verifier::truncate] ((x >> 24) as u8));
    out.push(#[verifier::truncate] ((x >> 32) as u8));
    out.push(#[verifier::truncate] ((x >> 40) as u8));
    out.push(#[verifier::truncate] ((x >> 48) as u8));
    out.push(#[verifier::truncate] ((x >> 56) as u8));
    proof {
        assert(out@ =~= old(out)@ + le_bytes64(x));
    }
}

/// Appends the two little-endian bytes of `x`.
pub fn push_le16(out: &mut Vec<u8>, x: u16)
    ensures
        final(out)@ == old(out)@ + le_bytes16(x),
{
    out.push(#[verifier::truncate] (x as u8));
    out.push(#[verifier::truncate] ((x >> 8) as u8));
    proof {
        assert(out@ =~= old(out)@ + le_bytes16(x));
    }
}

/// Reads the 64-bit integer whose little-endian bytes stand at `i`.
pub fn read_le64(b: &[u8], i: usize) -> (r: u64)
    requires
        i + 8 <= b@.len(),
    ensures
        r == le64_at(b@, i as int),
{
    (b[i] as u64) | (b[i + 1] as u64) << 8 | (b[i + 2] as u64) << 16 | (b[i + 3] as u64) << 24 | (
    b[i + 4] as u64) << 32 | (b[i + 5] as u64) << 40 | (b[i + 6] as u64) << 48 | (b[i + 7] as u64)
        << 56
}

/// Reads the 16-bit integer whose little-endian bytes stand at `i`.
pub fn read_le16(b: &[u8], i: usize) -> (r: u16)
    requires
        i + 2 <= b@.len(),
    ensures
        r == le16_at(b@, i as int),
{
    (b[i] as u16) | (b[i + 1] as u16) << 8
}

/// One sequence is a prefix of the other.
pub open spec fn extends<T>(a: Seq<T>, b: Seq<T>) -> bool {
    a.len() <= b.len() && forall|j: int| 0 <= j < a.len() ==> a[j] == #[trigger] b[j]
}

/// The eight bytes at `i` are the little-endian form of the integer they
/// assemble to.
pub proof fn lemma_le64_bytes_at(b: Seq<u8>, i: int)
    requires
        0 <= i,
        i + 8 <= b.len(),
    ensures
        le_bytes64(le64_at(b, i)) =~= b.subrange(i, i + 8),
{
    let x = le64_at(b, i);
    let b0 = b[i];
    let b1 = b[i + 1];
    let b2 = b[i + 2];
    let b3 = b[i + 3];
    let b4 = b[i + 4];
    let b5 = b[i + 5];
    let b6 = b[i + 6];
    let b7 = b[i + 7];
    assert(x as u8 == b0 && (x >> 8) as u8 == b1 && (x >> 16) as u8 == b2 && (x >> 24) as u8 == b3
        && (x >> 32) as u8 == b4 && (x >> 40) as u8 == b5 && (x >> 48) as u8 == b6 && (x >> 56)
        as u8 == b7) by (bit_vector)
        requires
            x == (b0 as u64) | (b1 as u64) << 8 | (b2 as u64) << 16 | (b3 as u64) << 24 | (
            b4 as u64) << 32 | (b5 as u64) << 40 | (b6 as u64) << 48 | (b7 as u64) << 56,
    ;
}

/// Prefixhood is transitive.
pub proof fn lemma_extends_trans<T>(a: Seq<T>, b: Seq<T>, c: Seq<T>)
    requires
        extends(a, b),
        extends(b, c),
    ensures
        extends(a, c),
{
}

} // verus!
