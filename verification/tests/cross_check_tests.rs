//! Cross-checks of the digest scheme against a raw SHA-256 and against the
//! `ic-certification` crate, one composite shape per node kind.

use certified_kv::tree::HashTree;
use sha2::Digest as _;

#[test]
fn sha256_matches_the_published_test_vector() {
    let d: [u8; 32] = sha2::Sha256::digest(b"abc").into();
    let expected: [u8; 32] = [
        0xba, 0x78, 0x16, 0xbf, 0x8f, 0x01, 0xcf, 0xea, 0x41, 0x41, 0x40, 0xde, 0x5d, 0xae,
        0x22, 0x23, 0xb0, 0x03, 0x61, 0xa3, 0x96, 0x17, 0x7a, 0x9c, 0xb4, 0x10, 0xff, 0x61,
        0xf2, 0x00, 0x15, 0xad,
    ];
    assert_eq!(d, expected);
}

#[test]
fn fork_digest_matches_manual_and_ic_certification() {
    let a = HashTree::Leaf(b"x".to_vec());
    let b = HashTree::Leaf(b"y".to_vec());
    let da = a.digest();
    let db = b.digest();
    let mut buf = b"\x10ic-hashtree-fork".to_vec();
    buf.extend_from_slice(&da);
    buf.extend_from_slice(&db);
    let manual: [u8; 32] = sha2::Sha256::digest(&buf).into();
    let f = HashTree::Fork(Box::new(a), Box::new(b)).digest();
    assert_eq!(f, manual);
    let theirs = ic_certification::hash_tree::fork::<Vec<u8>>(
        ic_certification::hash_tree::leaf(b"x".to_vec()),
        ic_certification::hash_tree::leaf(b"y".to_vec()),
    )
    .digest();
    assert_eq!(f, theirs);
}

#[test]
fn labeled_digest_matches_ic_certification() {
    let mine = HashTree::Labeled(b"user".to_vec(), Box::new(HashTree::Leaf(b"v".to_vec()))).digest();
    let theirs = ic_certification::hash_tree::label::<Vec<u8>, _, _>(
        "user",
        ic_certification::hash_tree::leaf(b"v".to_vec()),
    )
    .digest();
    assert_eq!(mine, theirs);
}

#[test]
fn fork_over_empty_matches_ic_certification() {
    let mine = HashTree::Fork(
        Box::new(HashTree::Leaf(b"x".to_vec())),
        Box::new(HashTree::Empty),
    )
    .digest();
    let theirs = ic_certification::hash_tree::fork::<Vec<u8>>(
        ic_certification::hash_tree::leaf(b"x".to_vec()),
        ic_certification::hash_tree::empty(),
    )
    .digest();
    assert_eq!(mine, theirs);
}

#[test]
fn fork_over_pruned_matches_ic_certification() {
    let mine = HashTree::Fork(
        Box::new(HashTree::Leaf(b"x".to_vec())),
        Box::new(HashTree::Pruned([7u8; 32])),
    )
    .digest();
    let theirs = ic_certification::hash_tree::fork::<Vec<u8>>(
        ic_certification::hash_tree::leaf(b"x".to_vec()),
        ic_certification::hash_tree::pruned([7u8; 32]),
    )
    .digest();
    assert_eq!(mine, theirs);
}

#[test]
fn labeled_over_fork_matches_ic_certification() {
    let mine = HashTree::Labeled(
        b"user".to_vec(),
        Box::new(HashTree::Fork(
            Box::new(HashTree::Leaf(b"x".to_vec())),
            Box::new(HashTree::Leaf(b"y".to_vec())),
        )),
    )
    .digest();
    let theirs = ic_certification::hash_tree::label::<Vec<u8>, _, _>(
        "user",
        ic_certification::hash_tree::fork(
            ic_certification::hash_tree::leaf(b"x".to_vec()),
            ic_certification::hash_tree::leaf(b"y".to_vec()),
        ),
    )
    .digest();
    assert_eq!(mine, theirs);
}
