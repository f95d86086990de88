//! Canonical, self-describing binary encoding of trees and of the
//! certificate envelope: a one-byte kind tag per node, 8-byte big-endian
//! length prefixes for labels and leaf bytes, a fixed 32-byte digest for
//! pruned nodes. Decoding inverts encoding exactly and rejects every
//! malformed input with a `DecodeError`.

use vstd::prelude::*;
use crate::bytes::{be_bytes, be_bytes_m, lemma_be_round_trip, push_all, u64_of_be, u64_of_be_m};
use crate::tree::{HashTree, TreeModel};
use vstd::slice::slice_subrange;

verus! {

/// Malformed bytes were handed to a decoder.
#[derive(Clone, Copy, PartialEq, Eq, Structural, Debug)]
pub struct DecodeError;

/// A tree whose lengths a fixed-width encoding can carry: labels and leaf
/// byte strings of at most `u64::MAX` bytes, pruned digests of exactly 32.
/// Every tree built by executable code satisfies this.
pub open spec fn wf_m(t: TreeModel) -> bool
    decreases t,
{
    match t {
        TreeModel::Empty => true,
        TreeModel::Leaf(b) => b.len() <= u64::MAX,
        TreeModel::Labeled(l, sub) => l.len() <= u64::MAX && wf_m(*sub),
        TreeModel::Fork(a, b) => wf_m(*a) && wf_m(*b),
        TreeModel::Pruned(d) => d.len() == 32,
    }
}

/// Every tree that executable code holds is well-formed: its byte strings
/// live in vectors, whose lengths fit the length prefix, and its pruned
/// digests are 32-byte arrays.
pub proof fn lemma_tree_wf(t: HashTree)
    ensures
        wf_m(t@),
    decreases t,
{
    broadcast use vstd::std_specs::vec::axiom_spec_len;

    match t {
        HashTree::Empty => {
        },
        HashTree::Leaf(b) => {
            assert(vstd::std_specs::vec::spec_vec_len(&b) == b@.len());
        },
        HashTree::Labeled(l, sub) => {
            assert(vstd::std_specs::vec::spec_vec_len(&l) == l@.len());
            lemma_tree_wf(*sub);
        },
        HashTree::Fork(a, b) => {
            lemma_tree_wf(*a);
            lemma_tree_wf(*b);
        },
        HashTree::Pruned(d) => {
            assert(d@.len() == 32);
        },
    }
}

/// The 8-byte length prefix.
pub open spec fn len8_m(n: int) -> Seq<u8> {
    be_bytes_m(n as u64)
}

/// The encoding of a tree.
pub open spec fn enc_m(t: TreeModel) -> Seq<u8>
    decreases t,
{
    match t {
        TreeModel::Empty => seq![0u8],
        TreeModel::Fork(a, b) => seq![1u8] + enc_m(*a) + enc_m(*b),
        TreeModel::Labeled(l, sub) => seq![2u8] + len8_m(l.len() as int) + l + enc_m(*sub),
        TreeModel::Leaf(b) => seq![3u8] + len8_m(b.len() as int) + b,
        TreeModel::Pruned(d) => seq![4u8] + d,
    }
}

/// Every encoding starts with its tag byte.
pub proof fn lemma_enc_len(t: TreeModel)
    ensures
        enc_m(t).len() >= 1,
{
}

/// The decoder, reading one tree from position `pos` on; yields the tree and
/// the position just past it, or nothing on malformed input. The bound
/// checks double as the termination guards of the recursion.
pub open spec fn dec_m(bytes: Seq<u8>, pos: int) -> Option<(TreeModel, int)>
    decreases bytes.len() - pos when 0 <= pos
{
    if pos < 0 || pos >= bytes.len() {
        None
    } else {
        let tag = bytes[pos];
        if tag == 0u8 {
            Some((TreeModel::Empty, pos + 1))
        } else if tag == 1u8 {
            match dec_m(bytes, pos + 1) {
                None => None,
                Some((a, p2)) => if p2 <= pos + 1 || p2 > bytes.len() {
                    None
                } else {
                    match dec_m(bytes, p2) {
                        None => None,
                        Some((b, p3)) => Some(
                            (TreeModel::Fork(Box::new(a), Box::new(b)), p3),
                        ),
                    }
                },
            }
        } else if tag == 2u8 {
            if pos + 9 > bytes.len() {
                None
            } else {
                let n = u64_of_be_m(bytes.subrange(pos + 1, pos + 9)) as int;
                if pos + 9 + n > bytes.len() {
                    None
                } else {
                    match dec_m(bytes, pos + 9 + n) {
                        None => None,
                        Some((sub, p2)) => Some(
                            (
                                TreeModel::Labeled(
                                    bytes.subrange(pos + 9, pos + 9 + n),
                                    Box::new(sub),
                                ),
                                p2,
                            ),
                        ),
                    }
                }
            }
        } else if tag == 3u8 {
            if pos + 9 > bytes.len() {
                None
            } else {
                let n = u64_of_be_m(bytes.subrange(pos + 1, pos + 9)) as int;
                if pos + 9 + n > bytes.len() {
                    None
                } else {
                    Some((TreeModel::Leaf(bytes.subrange(pos + 9, pos + 9 + n)), pos + 9 + n))
                }
            }
        } else if tag == 4u8 {
            if pos + 33 > bytes.len() {
                None
            } else {
                Some((TreeModel::Pruned(bytes.subrange(pos + 1, pos + 33)), pos + 33))
            }
        } else {
            None
        }
    }
}

/// A whole message holding exactly one tree: trailing bytes are refused.
pub open spec fn dec_tree_m(bytes: Seq<u8>) -> Option<TreeModel> {
    match dec_m(bytes, 0) {
        None => None,
        Some((t, p)) => if p == bytes.len() {
            Some(t)
        } else {
            None
        },
    }
}

/// Decoding inverts encoding wherever the encoding stands inside a larger
/// message.
pub proof fn lemma_enc_dec_at(t: TreeModel, bytes: Seq<u8>, pos: int)
    requires
        wf_m(t),
        0 <= pos,
        pos + enc_m(t).len() <= bytes.len(),
        bytes.subrange(pos, pos + enc_m(t).len() as int) == enc_m(t),
    ensures
        dec_m(bytes, pos) == Some((t, pos + enc_m(t).len() as int)),
    decreases t,
{
    let e = enc_m(t);
    assert(forall|i: int| 0 <= i < e.len() ==> bytes[pos + i] == #[trigger] e[i]) by {
        assert(forall|i: int| 0 <= i < e.len()
            ==> #[trigger] e[i] == bytes.subrange(pos, pos + e.len() as int)[i]);
    }
    assert(bytes[pos] == e[0]);
    match t {
        TreeModel::Empty => {
        },
        TreeModel::Fork(a, b) => {
            let ea = enc_m(*a);
            let eb = enc_m(*b);
            assert(e == seq![1u8] + ea + eb);
            assert(bytes.subrange(pos + 1, pos + 1 + ea.len() as int) =~= ea) by {
                assert(forall|i: int| 0 <= i < ea.len() ==> #[trigger] ea[i] == e[1 + i]);
            }
            lemma_enc_dec_at(*a, bytes, pos + 1);
            let p2 = pos + 1 + ea.len() as int;
            assert(bytes.subrange(p2, p2 + eb.len() as int) =~= eb) by {
                assert(forall|i: int| 0 <= i < eb.len()
                    ==> #[trigger] eb[i] == e[1 + ea.len() + i]);
            }
            lemma_enc_dec_at(*b, bytes, p2);
            lemma_enc_len(*a);
            assert(dec_m(bytes, pos) == Some(
                (TreeModel::Fork(Box::new(*a), Box::new(*b)), p2 + eb.len() as int),
            ));
            assert(TreeModel::Fork(Box::new(*a), Box::new(*b)) == t);
        },
        TreeModel::Labeled(l, sub) => {
            let n = l.len() as int;
            let es = enc_m(*sub);
            assert(e == seq![2u8] + len8_m(n) + l + es);
            assert(bytes.subrange(pos + 1, pos + 9) =~= len8_m(n)) by {
                assert(forall|i: int| 0 <= i < 8 ==> #[trigger] len8_m(n)[i] == e[1 + i]);
            }
            lemma_be_round_trip(l.len() as u64);
            assert(u64_of_be_m(bytes.subrange(pos + 1, pos + 9)) as int == n);
            assert(bytes.subrange(pos + 9, pos + 9 + n) =~= l) by {
                assert(forall|i: int| 0 <= i < n ==> #[trigger] l[i] == e[9 + i]);
            }
            assert(bytes.subrange(pos + 9 + n, pos + 9 + n + es.len() as int) =~= es) by {
                assert(forall|i: int| 0 <= i < es.len() ==> #[trigger] es[i] == e[9 + n + i]);
            }
            lemma_enc_dec_at(*sub, bytes, pos + 9 + n);
            assert(TreeModel::Labeled(bytes.subrange(pos + 9, pos + 9 + n), Box::new(*sub)) == t);
        },
        TreeModel::Leaf(b) => {
            let n = b.len() as int;
            assert(e == seq![3u8] + len8_m(n) + b);
            assert(bytes.subrange(pos + 1, pos + 9) =~= len8_m(n)) by {
                assert(forall|i: int| 0 <= i < 8 ==> #[trigger] len8_m(n)[i] == e[1 + i]);
            }
            lemma_be_round_trip(b.len() as u64);
            assert(bytes.subrange(pos + 9, pos + 9 + n) =~= b) by {
                assert(forall|i: int| 0 <= i < n ==> #[trigger] b[i] == e[9 + i]);
            }
        },
        TreeModel::Pruned(d) => {
            assert(e == seq![4u8] + d);
            assert(bytes.subrange(pos + 1, pos + 33) =~= d) by {
                assert(forall|i: int| 0 <= i < 32 ==> #[trigger] d[i] == e[1 + i]);
            }
        },
    }
}

/// `decode` of `encode` gives the tree back exactly, for every well-formed
/// tree.
pub proof fn lemma_tree_round_trip(t: TreeModel)
    requires
        wf_m(t),
    ensures
        dec_tree_m(enc_m(t)) == Some(t),
{
    let e = enc_m(t);
    assert(e.subrange(0, e.len() as int) =~= e);
    lemma_enc_dec_at(t, e, 0);
}

/// Encode a tree into a fresh buffer.
pub fn encode_tree(t: &HashTree) -> (r: Vec<u8>)
    ensures
        r@ == enc_m(t@),
{
    let mut out: Vec<u8> = Vec::new();
    encode_tree_into(t, &mut out);
    out
}

fn encode_tree_into(t: &HashTree, out: &mut Vec<u8>)
    ensures
        final(out)@ == old(out)@ + enc_m(t@),
    decreases *t,
{
    match t {
        HashTree::Empty => {
            out.push(0u8);
            assert(out@ =~= old(out)@ + enc_m(t@));
        },
        HashTree::Fork(a, b) => {
            out.push(1u8);
            encode_tree_into(a, out);
            encode_tree_into(b, out);
            assert(out@ =~= old(out)@ + enc_m(t@));
        },
        HashTree::Labeled(l, sub) => {
            out.push(2u8);
            let lb = be_bytes(l.len() as u64);
            push_all(out, lb.as_slice());
            push_all(out, l.as_slice());
            encode_tree_into(sub, out);
            assert(out@ =~= old(out)@ + enc_m(t@));
        },
        HashTree::Leaf(b) => {
            out.push(3u8);
            let lb = be_bytes(b.len() as u64);
            push_all(out, lb.as_slice());
            push_all(out, b.as_slice());
            assert(out@ =~= old(out)@ + enc_m(t@));
        },
        HashTree::Pruned(d) => {
            out.push(4u8);
            push_all(out, d.as_slice());
            assert(out@ =~= old(out)@ + enc_m(t@));
        },
    }
}

fn copy_range(bytes: &Vec<u8>, start: usize, n: usize) -> (r: Vec<u8>)
    requires
        start + n <= bytes@.len(),
    ensures
        r@ == bytes@.subrange(start as int, start as int + n as int),
{
    let total = bytes.len();
    let mut r: Vec<u8> = Vec::new();
    let mut i: usize = 0;
    while i < n
        invariant
            i <= n,
            start + n <= bytes@.len(),
            total == bytes@.len(),
            r@.len() == i,
            forall|j: int| 0 <= j < i ==> r@[j] == bytes@[start + j],
        decreases n - i,
    {
        r.push(bytes[start + i]);
        i += 1;
    }
    assert(r@ =~= bytes@.subrange(start as int, start as int + n as int));
    r
}

fn read_digest(bytes: &Vec<u8>, start: usize) -> (r: [u8; 32])
    requires
        start + 32 <= bytes@.len(),
    ensures
        r@ == bytes@.subrange(start as int, start as int + 32),
{
    let total = bytes.len();
    let mut r: [u8; 32] = [0u8; 32];
    let mut i: usize = 0;
    while i < 32
        invariant
            i <= 32,
            start + 32 <= bytes@.len(),
            total == bytes@.len(),
            forall|j: int| 0 <= j < i ==> r@[j] == bytes@[start + j],
        decreases 32 - i,
    {
        r[i] = bytes[start + i];
        i += 1;
    }
    assert(r@ =~= bytes@.subrange(start as int, start as int + 32));
    r
}

/// Decode one whole tree; trailing bytes, a bad tag, or a truncated field
/// are all refused.
pub fn decode_tree(bytes: &Vec<u8>) -> (r: Result<HashTree, DecodeError>)
    ensures
        match r {
            Ok(t) => dec_tree_m(bytes@) == Some(t@),
            Err(_) => dec_tree_m(bytes@) is None,
        },
{
    match decode_at(bytes, 0) {
        Ok((t, p)) => {
            if p == bytes.len() {
                Ok(t)
            } else {
                Err(DecodeError)
            }
        },
        Err(e) => Err(e),
    }
}

fn decode_at(bytes: &Vec<u8>, pos: usize) -> (r: Result<(HashTree, usize), DecodeError>)
    requires
        pos <= bytes@.len(),
    ensures
        match r {
            Ok(p) => dec_m(bytes@, pos as int) == Some((p.0@, p.1 as int)) && pos < p.1
                && p.1 <= bytes@.len(),
            Err(_) => dec_m(bytes@, pos as int) is None,
        },
    decreases bytes@.len() - pos,
{
    if pos >= bytes.len() {
        return Err(DecodeError);
    }
    let tag = bytes[pos];
    if tag == 0 {
        Ok((HashTree::Empty, pos + 1))
    } else if tag == 1 {
        let (a, p2) = match decode_at(bytes, pos + 1) {
            Ok(x) => x,
            Err(e) => {
                return Err(e);
            },
        };
        let (b, p3) = match decode_at(bytes, p2) {
            Ok(x) => x,
            Err(e) => {
                return Err(e);
            },
        };
        Ok((HashTree::Fork(Box::new(a), Box::new(b)), p3))
    } else if tag == 2 {
        if bytes.len() - (pos + 1) < 8 {
            return Err(DecodeError);
        }
        let hdr = slice_subrange(bytes.as_slice(), pos + 1, pos + 9);
        let n64 = u64_of_be(hdr);
        let rem = bytes.len() - (pos + 9);
        if n64 > rem as u64 {
            return Err(DecodeError);
        }
        let n = n64 as usize;
        let label = copy_range(bytes, pos + 9, n);
        let (sub, p2) = match decode_at(bytes, pos + 9 + n) {
            Ok(x) => x,
            Err(e) => {
                return Err(e);
            },
        };
        Ok((HashTree::Labeled(label, Box::new(sub)), p2))
    } else if tag == 3 {
        if bytes.len() - (pos + 1) < 8 {
            return Err(DecodeError);
        }
        let hdr = slice_subrange(bytes.as_slice(), pos + 1, pos + 9);
        let n64 = u64_of_be(hdr);
        let rem = bytes.len() - (pos + 9);
        if n64 > rem as u64 {
            return Err(DecodeError);
        }
        let n = n64 as usize;
        let payload = copy_range(bytes, pos + 9, n);
        Ok((HashTree::Leaf(payload), pos + 9 + n))
    } else if tag == 4 {
        if bytes.len() - (pos + 1) < 32 {
            return Err(DecodeError);
        }
        let d = read_digest(bytes, pos + 1);
        Ok((HashTree::Pruned(d), pos + 33))
    } else {
        Err(DecodeError)
    }
}

/// The certificate envelope: the authority's tree and its signature over
/// that tree's root digest.
pub struct Certificate {
    pub tree: HashTree,
    pub signature: Vec<u8>,
}

/// The encoding of a certificate: the tree, then the length-prefixed
/// signature.
pub open spec fn enc_cert_m(t: TreeModel, sig: Seq<u8>) -> Seq<u8> {
    enc_m(t) + len8_m(sig.len() as int) + sig
}

/// The certificate decoder; the signature must run to the end of the blob.
pub open spec fn dec_cert_m(bytes: Seq<u8>) -> Option<(TreeModel, Seq<u8>)> {
    match dec_m(bytes, 0) {
        None => None,
        Some((t, p)) => if p + 8 > bytes.len() {
            None
        } else {
            let n = u64_of_be_m(bytes.subrange(p, p + 8)) as int;
            if p + 8 + n != bytes.len() {
                None
            } else {
                Some((t, bytes.subrange(p + 8, p + 8 + n)))
            }
        },
    }
}

/// Encode a certificate envelope.
pub fn encode_certificate(c: &Certificate) -> (r: Vec<u8>)
    ensures
        r@ == enc_cert_m(c.tree@, c.signature@),
{
    let mut out = encode_tree(&c.tree);
    let lb = be_bytes(c.signature.len() as u64);
    push_all(&mut out, lb.as_slice());
    push_all(&mut out, c.signature.as_slice());
    assert(out@ =~= enc_cert_m(c.tree@, c.signature@));
    out
}

/// Decode a certificate envelope.
pub fn decode_certificate(bytes: &Vec<u8>) -> (r: Result<Certificate, DecodeError>)
    ensures
        match r {
            Ok(c) => dec_cert_m(bytes@) == Some((c.tree@, c.signature@)),
            Err(_) => dec_cert_m(bytes@) is None,
        },
{
    let (t, p) = match decode_at(bytes, 0) {
        Ok(x) => x,
        Err(e) => {
            return Err(e);
        },
    };
    if bytes.len() - p < 8 {
        return Err(DecodeError);
    }
    let hdr = slice_subrange(bytes.as_slice(), p, p + 8);
    let n64 = u64_of_be(hdr);
    let rem = bytes.len() - (p + 8);
    if n64 != rem as u64 {
        return Err(DecodeError);
    }
    let n = n64 as usize;
    let sig = copy_range(bytes, p + 8, n);
    assert(sig@ =~= bytes@.subrange(p as int + 8, p as int + 8 + n as int));
    Ok(Certificate { tree: t, signature: sig })
}

/// Encoding a certificate and decoding it gives the pieces back exactly.
pub proof fn lemma_cert_round_trip(t: TreeModel, sig: Seq<u8>)
    requires
        wf_m(t),
        sig.len() <= u64::MAX,
    ensures
        dec_cert_m(enc_cert_m(t, sig)) == Some((t, sig)),
{
    let e = enc_m(t);
    let whole = enc_cert_m(t, sig);
    assert(whole.subrange(0, e.len() as int) =~= e);
    lemma_enc_dec_at(t, whole, 0);
    let p = e.len() as int;
    assert(whole.subrange(p, p + 8) =~= len8_m(sig.len() as int));
    lemma_be_round_trip(sig.len() as u64);
    assert(whole.subrange(p + 8, p + 8 + sig.len() as int) =~= sig);
}

} // verus!
