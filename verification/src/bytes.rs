//! Helpers on byte strings: concatenation, equality, fixed-width big-endian
//! integer encoding, and the lexicographic order on labels.

use vstd::prelude::*;

verus! {

/// Append every byte of `src` to `dst`.
pub fn push_all(dst: &mut Vec<u8>, src: &[u8])
    ensures
        final(dst)@ == old(dst)@ + src@,
{
    dst.extend_from_slice(src);
    assert(dst@ =~= old(dst)@ + src@);
}

/// Byte-string equality.
pub fn eq_bytes(a: &[u8], b: &[u8]) -> (r: bool)
    ensures
        r <==> a@ == b@,
{
    if a.len() != b.len() {
        assert(a@ != b@);
        return false;
    }
    let mut i: usize = 0;
    while i < a.len()
        invariant
            i <= a@.len(),
            a@.len() == b@.len(),
            forall|j: int| 0 <= j < i ==> a@[j] == b@[j],
        decreases a@.len() - i,
    {
        if a[i] != b[i] {
            return false;
        }
        i += 1;
    }
    assert(a@ =~= b@);
    true
}

/// The 8-byte big-endian encoding of a 64-bit integer; lexicographic order on
/// these encodings coincides with numeric order.
pub open spec fn be_bytes_m(x: u64) -> Seq<u8> {
    seq![
        ((x >> 56) & 0xff) as u8,
        ((x >> 48) & 0xff) as u8,
        ((x >> 40) & 0xff) as u8,
        ((x >> 32) & 0xff) as u8,
        ((x >> 24) & 0xff) as u8,
        ((x >> 16) & 0xff) as u8,
        ((x >> 8) & 0xff) as u8,
        (x & 0xff) as u8,
    ]
}

/// The executable 8-byte big-endian encoding.
pub fn be_bytes(x: u64) -> (r: Vec<u8>)
    ensures
        r@ == be_bytes_m(x),
{
    let mut r: Vec<u8> = Vec::new();
    r.push(((x >> 56) & 0xff) as u8);
    r.push(((x >> 48) & 0xff) as u8);
    r.push(((x >> 40) & 0xff) as u8);
    r.push(((x >> 32) & 0xff) as u8);
    r.push(((x >> 24) & 0xff) as u8);
    r.push(((x >> 16) & 0xff) as u8);
    r.push(((x >> 8) & 0xff) as u8);
    r.push((x & 0xff) as u8);
    assert(r@ =~= be_bytes_m(x));
    r
}

/// The 64-bit integer read back from 8 big-endian bytes.
pub open spec fn u64_of_be_m(s: Seq<u8>) -> u64
    recommends
        s.len() == 8,
{
    ((s[0] as u64) << 56) | ((s[1] as u64) << 48) | ((s[2] as u64) << 40)
        | ((s[3] as u64) << 32) | ((s[4] as u64) << 24) | ((s[5] as u64) << 16)
        | ((s[6] as u64) << 8) | (s[7] as u64)
}

/// The executable big-endian read of 8 bytes.
pub fn u64_of_be(s: &[u8]) -> (r: u64)
    requires
        s@.len() == 8,
    ensures
        r == u64_of_be_m(s@),
{
    ((s[0] as u64) << 56) | ((s[1] as u64) << 48) | ((s[2] as u64) << 40)
        | ((s[3] as u64) << 32) | ((s[4] as u64) << 24) | ((s[5] as u64) << 16)
        | ((s[6] as u64) << 8) | (s[7] as u64)
}

/// Decoding inverts encoding: the round trip through 8 big-endian bytes is
/// the identity.
pub proof fn lemma_be_round_trip(x: u64)
    ensures
        u64_of_be_m(be_bytes_m(x)) == x,
{
    let b0: u8 = ((x >> 56) & 0xff) as u8;
    let b1: u8 = ((x >> 48) & 0xff) as u8;
    let b2: u8 = ((x >> 40) & 0xff) as u8;
    let b3: u8 = ((x >> 32) & 0xff) as u8;
    let b4: u8 = ((x >> 24) & 0xff) as u8;
    let b5: u8 = ((x >> 16) & 0xff) as u8;
    let b6: u8 = ((x >> 8) & 0xff) as u8;
    let b7: u8 = (x & 0xff) as u8;
    assert(((b0 as u64) << 56) | ((b1 as u64) << 48) | ((b2 as u64) << 40)
        | ((b3 as u64) << 32) | ((b4 as u64) << 24) | ((b5 as u64) << 16)
        | ((b6 as u64) << 8) | (b7 as u64) == x) by (bit_vector)
        requires
            b0 == ((x >> 56) & 0xff) as u8,
            b1 == ((x >> 48) & 0xff) as u8,
            b2 == ((x >> 40) & 0xff) as u8,
            b3 == ((x >> 32) & 0xff) as u8,
            b4 == ((x >> 24) & 0xff) as u8,
            b5 == ((x >> 16) & 0xff) as u8,
            b6 == ((x >> 8) & 0xff) as u8,
            b7 == (x & 0xff) as u8;
}

/// The fixed-width big-endian encoding orders as the integers do: smaller
/// number, lexicographically smaller bytes.
pub proof fn lemma_be_order(x: u64, y: u64)
    requires
        x < y,
    ensures
        lex_less(be_bytes_m(x), be_bytes_m(y)),
{
    let a = be_bytes_m(x);
    let b = be_bytes_m(y);
    let a0: u8 = ((x >> 56) & 0xff) as u8;
    let a1: u8 = ((x >> 48) & 0xff) as u8;
    let a2: u8 = ((x >> 40) & 0xff) as u8;
    let a3: u8 = ((x >> 32) & 0xff) as u8;
    let a4: u8 = ((x >> 24) & 0xff) as u8;
    let a5: u8 = ((x >> 16) & 0xff) as u8;
    let a6: u8 = ((x >> 8) & 0xff) as u8;
    let a7: u8 = (x & 0xff) as u8;
    let b0: u8 = ((y >> 56) & 0xff) as u8;
    let b1: u8 = ((y >> 48) & 0xff) as u8;
    let b2: u8 = ((y >> 40) & 0xff) as u8;
    let b3: u8 = ((y >> 32) & 0xff) as u8;
    let b4: u8 = ((y >> 24) & 0xff) as u8;
    let b5: u8 = ((y >> 16) & 0xff) as u8;
    let b6: u8 = ((y >> 8) & 0xff) as u8;
    let b7: u8 = (y & 0xff) as u8;
    assert((a0 < b0)
        || (a0 == b0 && a1 < b1)
        || (a0 == b0 && a1 == b1 && a2 < b2)
        || (a0 == b0 && a1 == b1 && a2 == b2 && a3 < b3)
        || (a0 == b0 && a1 == b1 && a2 == b2 && a3 == b3 && a4 < b4)
        || (a0 == b0 && a1 == b1 && a2 == b2 && a3 == b3 && a4 == b4 && a5 < b5)
        || (a0 == b0 && a1 == b1 && a2 == b2 && a3 == b3 && a4 == b4 && a5 == b5 && a6 < b6)
        || (a0 == b0 && a1 == b1 && a2 == b2 && a3 == b3 && a4 == b4 && a5 == b5 && a6 == b6
            && a7 < b7)) by (bit_vector)
        requires
            x < y,
            a0 == ((x >> 56) & 0xff) as u8,
            a1 == ((x >> 48) & 0xff) as u8,
            a2 == ((x >> 40) & 0xff) as u8,
            a3 == ((x >> 32) & 0xff) as u8,
            a4 == ((x >> 24) & 0xff) as u8,
            a5 == ((x >> 16) & 0xff) as u8,
            a6 == ((x >> 8) & 0xff) as u8,
            a7 == (x & 0xff) as u8,
            b0 == ((y >> 56) & 0xff) as u8,
            b1 == ((y >> 48) & 0xff) as u8,
            b2 == ((y >> 40) & 0xff) as u8,
            b3 == ((y >> 32) & 0xff) as u8,
            b4 == ((y >> 24) & 0xff) as u8,
            b5 == ((y >> 16) & 0xff) as u8,
            b6 == ((y >> 8) & 0xff) as u8,
            b7 == (y & 0xff) as u8;
    reveal_with_fuel(lex_cmp_from_m, 10);
    assert(a.len() == 8 && b.len() == 8);
}

/// Distinct integers have distinct encodings.
pub proof fn lemma_be_injective(x: u64, y: u64)
    requires
        be_bytes_m(x) == be_bytes_m(y),
    ensures
        x == y,
{
    lemma_be_round_trip(x);
    lemma_be_round_trip(y);
}

/// Three-way outcome of a byte-string comparison.
#[derive(PartialEq, Eq, Structural, Clone, Copy)]
pub enum Ord3 {
    Lt,
    Eq,
    Gt,
}

/// The three-way lexicographic comparison, read from position `i` on, with
/// all earlier positions assumed equal.
pub open spec fn lex_cmp_from_m(a: Seq<u8>, b: Seq<u8>, i: int) -> Ord3
    decreases a.len() - i when 0 <= i
{
    if i >= a.len() {
        if i >= b.len() {
            Ord3::Eq
        } else {
            Ord3::Lt
        }
    } else if i >= b.len() {
        Ord3::Gt
    } else if a[i] < b[i] {
        Ord3::Lt
    } else if a[i] > b[i] {
        Ord3::Gt
    } else {
        lex_cmp_from_m(a, b, i + 1)
    }
}

/// Strict lexicographic order on byte strings, by byte value, shorter
/// prefixes first.
pub open spec fn lex_less(a: Seq<u8>, b: Seq<u8>) -> bool {
    lex_cmp_from_m(a, b, 0) == Ord3::Lt
}

proof fn lemma_lex_cmp_eq_from(a: Seq<u8>, b: Seq<u8>, i: int)
    requires
        0 <= i <= a.len(),
        i <= b.len(),
        lex_cmp_from_m(a, b, i) == Ord3::Eq,
    ensures
        a.len() == b.len(),
        forall|j: int| i <= j < a.len() ==> a[j] == b[j],
    decreases a.len() - i,
{
    if i >= a.len() {
    } else {
        lemma_lex_cmp_eq_from(a, b, i + 1);
    }
}

/// The comparison answers `Eq` exactly on equal strings.
pub proof fn lemma_lex_cmp_eq(a: Seq<u8>, b: Seq<u8>)
    requires
        lex_cmp_from_m(a, b, 0) == Ord3::Eq,
    ensures
        a == b,
{
    lemma_lex_cmp_eq_from(a, b, 0);
    assert(a =~= b);
}

proof fn lemma_lex_cmp_flip_from(a: Seq<u8>, b: Seq<u8>, i: int)
    requires
        0 <= i,
    ensures
        lex_cmp_from_m(a, b, i) == Ord3::Gt <==> lex_cmp_from_m(b, a, i) == Ord3::Lt,
        lex_cmp_from_m(a, b, i) == Ord3::Eq <==> lex_cmp_from_m(b, a, i) == Ord3::Eq,
    decreases a.len() - i,
{
    if i < a.len() && i < b.len() && a[i] == b[i] {
        lemma_lex_cmp_flip_from(a, b, i + 1);
    }
}

/// Swapping the arguments swaps `Lt` and `Gt`.
pub proof fn lemma_lex_cmp_flip(a: Seq<u8>, b: Seq<u8>)
    ensures
        lex_cmp_from_m(a, b, 0) == Ord3::Gt <==> lex_less(b, a),
        lex_cmp_from_m(a, b, 0) == Ord3::Eq <==> lex_cmp_from_m(b, a, 0) == Ord3::Eq,
{
    lemma_lex_cmp_flip_from(a, b, 0);
}

proof fn lemma_lex_trans_from(a: Seq<u8>, b: Seq<u8>, c: Seq<u8>, i: int)
    requires
        0 <= i,
        lex_cmp_from_m(a, b, i) == Ord3::Lt,
        lex_cmp_from_m(b, c, i) == Ord3::Lt,
    ensures
        lex_cmp_from_m(a, c, i) == Ord3::Lt,
    decreases a.len() - i,
{
    if i < a.len() && i < b.len() && i < c.len() && a[i] == b[i] && b[i] == c[i] {
        lemma_lex_trans_from(a, b, c, i + 1);
    }
}

/// The lexicographic order is transitive.
pub proof fn lemma_lex_trans(a: Seq<u8>, b: Seq<u8>, c: Seq<u8>)
    requires
        lex_less(a, b),
        lex_less(b, c),
    ensures
        lex_less(a, c),
{
    lemma_lex_trans_from(a, b, c, 0);
}

fn lex_cmp_from(a: &[u8], b: &[u8], i: usize) -> (r: Ord3)
    requires
        i <= a@.len() || i <= b@.len(),
    ensures
        r == lex_cmp_from_m(a@, b@, i as int),
    decreases a@.len() - i as int,
{
    if i >= a.len() {
        if i >= b.len() {
            Ord3::Eq
        } else {
            Ord3::Lt
        }
    } else if i >= b.len() {
        Ord3::Gt
    } else if a[i] < b[i] {
        Ord3::Lt
    } else if a[i] > b[i] {
        Ord3::Gt
    } else {
        lex_cmp_from(a, b, i + 1)
    }
}

/// Three-way lexicographic comparison of two byte strings.
pub fn lex_cmp(a: &[u8], b: &[u8]) -> (r: Ord3)
    ensures
        r == Ord3::Lt <==> lex_less(a@, b@),
        r == Ord3::Gt <==> lex_less(b@, a@),
        r == Ord3::Eq <==> a@ == b@,
{
    let r = lex_cmp_from(a, b, 0);
    proof {
        lemma_lex_cmp_flip(a@, b@);
        if lex_cmp_from_m(a@, b@, 0) == Ord3::Eq {
            lemma_lex_cmp_eq(a@, b@);
        }
        if a@ == b@ {
            assert(lex_cmp_from_m(a@, b@, 0) == Ord3::Eq) by {
                lemma_lex_cmp_refl(a@, 0);
            }
        }
    }
    r
}

/// Strictly ordered byte strings are distinct.
pub proof fn lemma_lex_less_ne(a: Seq<u8>, b: Seq<u8>)
    requires
        lex_less(a, b),
    ensures
        a != b,
{
    if a == b {
        lemma_lex_cmp_refl(a, 0);
    }
}

proof fn lemma_lex_cmp_refl(a: Seq<u8>, i: int)
    requires
        0 <= i,
    ensures
        lex_cmp_from_m(a, a, i) == Ord3::Eq,
    decreases a.len() - i,
{
    if i < a.len() {
        lemma_lex_cmp_refl(a, i + 1);
    }
}

} // verus!
