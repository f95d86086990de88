//! Digest computation checked against an independent SHA-256 and against
//! the `ic-certification` crate's hash-tree digests.

use certified_kv::tree::{HashTree, LookupResult};
use sha2::Digest as _;

fn sha(bytes: &[u8]) -> [u8; 32] {
    sha2::Sha256::digest(bytes).into()
}

#[test]
fn empty_digest_is_domain_separated_hash() {
    let t = HashTree::Empty;
    assert_eq!(t.digest(), sha(b"\x11ic-hashtree-empty"));
}

#[test]
fn leaf_digest_is_domain_separated_hash() {
    let t = HashTree::Leaf(b"hello".to_vec());
    let mut buf = b"\x10ic-hashtree-leaf".to_vec();
    buf.extend_from_slice(b"hello");
    assert_eq!(t.digest(), sha(&buf));
}

#[test]
fn empty_leaf_digest() {
    let t = HashTree::Leaf(Vec::new());
    assert_eq!(t.digest(), sha(b"\x10ic-hashtree-leaf"));
}

#[test]
fn labeled_digest_composes_from_child_digest() {
    let leaf = HashTree::Leaf(b"v".to_vec());
    let leaf_digest = leaf.digest();
    let t = HashTree::Labeled(b"k".to_vec(), Box::new(leaf));
    let mut buf = b"\x13ic-hashtree-labeled".to_vec();
    buf.extend_from_slice(b"k");
    buf.extend_from_slice(&leaf_digest);
    assert_eq!(t.digest(), sha(&buf));
}

#[test]
fn pruned_node_is_interchangeable_with_subtree() {
    let sub = HashTree::Labeled(b"x".to_vec(), Box::new(HashTree::Leaf(b"data".to_vec())));
    let d = sub.digest();
    let full = HashTree::Fork(
        Box::new(sub),
        Box::new(HashTree::Leaf(b"other".to_vec())),
    );
    let pruned = HashTree::Fork(
        Box::new(HashTree::Pruned(d)),
        Box::new(HashTree::Leaf(b"other".to_vec())),
    );
    assert_eq!(full.digest(), pruned.digest());
}

#[test]
fn digest_matches_ic_certification_crate() {
    let mine = HashTree::Fork(
        Box::new(HashTree::Labeled(
            b"user".to_vec(),
            Box::new(HashTree::Fork(
                Box::new(HashTree::Labeled(
                    b"a".to_vec(),
                    Box::new(HashTree::Leaf(b"alpha".to_vec())),
                )),
                Box::new(HashTree::Empty),
            )),
        )),
        Box::new(HashTree::Pruned([7u8; 32])),
    );
    let theirs: ic_certification::HashTree = ic_certification::hash_tree::fork(
        ic_certification::hash_tree::label(
            "user",
            ic_certification::hash_tree::fork(
                ic_certification::hash_tree::label(
                    "a",
                    ic_certification::hash_tree::leaf(b"alpha".to_vec()),
                ),
                ic_certification::hash_tree::empty(),
            ),
        ),
        ic_certification::hash_tree::pruned([7u8; 32]),
    );
    assert_eq!(mine.digest(), theirs.digest());
}

#[test]
fn lookup_in_empty_is_absent() {
    let t = HashTree::Empty;
    let path = vec![b"a".to_vec()];
    assert_eq!(t.lookup_path(&path), LookupResult::Absent);
}

#[test]
fn lookup_in_pruned_is_unknown_not_absent() {
    let t = HashTree::Pruned([0u8; 32]);
    let path = vec![b"a".to_vec()];
    assert_eq!(t.lookup_path(&path), LookupResult::Unknown);
    let under = HashTree::Labeled(b"a".to_vec(), Box::new(HashTree::Pruned([0u8; 32])));
    let deep = vec![b"a".to_vec(), b"b".to_vec()];
    assert_eq!(under.lookup_path(&deep), LookupResult::Unknown);
}

#[test]
fn lookup_finds_value_through_forks_and_labels() {
    let t = HashTree::Fork(
        Box::new(HashTree::Labeled(
            b"a".to_vec(),
            Box::new(HashTree::Leaf(b"va".to_vec())),
        )),
        Box::new(HashTree::Labeled(
            b"b".to_vec(),
            Box::new(HashTree::Leaf(b"vb".to_vec())),
        )),
    );
    assert_eq!(
        t.lookup_path(&vec![b"b".to_vec()]),
        LookupResult::Found(b"vb".to_vec())
    );
    assert_eq!(t.lookup_path(&vec![b"c".to_vec()]), LookupResult::Absent);
}

#[test]
fn lookup_past_a_leaf_is_an_error() {
    let t = HashTree::Labeled(b"a".to_vec(), Box::new(HashTree::Leaf(b"v".to_vec())));
    let path = vec![b"a".to_vec(), b"too-deep".to_vec()];
    assert_eq!(t.lookup_path(&path), LookupResult::Error);
}
