//! The canonical encoding round-trips exactly and rejects malformed input.

use certified_kv::codec::{
    decode_certificate, decode_tree, encode_certificate, encode_tree, Certificate,
};
use certified_kv::tree::HashTree;

fn round_trip(t: HashTree) {
    let bytes = encode_tree(&t);
    let back = decode_tree(&bytes).expect("well-formed encoding must decode");
    assert_eq!(back, t);
    assert_eq!(back.digest(), t.digest());
}

#[test]
fn round_trip_empty() {
    round_trip(HashTree::Empty);
}

#[test]
fn round_trip_leaf_with_empty_bytes() {
    round_trip(HashTree::Leaf(Vec::new()));
}

#[test]
fn round_trip_leaf() {
    round_trip(HashTree::Leaf(b"payload".to_vec()));
}

#[test]
fn round_trip_pruned() {
    round_trip(HashTree::Pruned([0xabu8; 32]));
}

#[test]
fn round_trip_two_level_nesting() {
    round_trip(HashTree::Labeled(
        b"user".to_vec(),
        Box::new(HashTree::Fork(
            Box::new(HashTree::Labeled(
                vec![0, 0, 0, 0, 0, 0, 0, 1],
                Box::new(HashTree::Leaf(b"alice".to_vec())),
            )),
            Box::new(HashTree::Labeled(
                vec![0, 0, 0, 0, 0, 0, 0, 2],
                Box::new(HashTree::Leaf(b"bob".to_vec())),
            )),
        )),
    ));
}

#[test]
fn round_trip_all_five_kinds() {
    round_trip(HashTree::Fork(
        Box::new(HashTree::Fork(
            Box::new(HashTree::Empty),
            Box::new(HashTree::Labeled(
                Vec::new(),
                Box::new(HashTree::Leaf(b"x".to_vec())),
            )),
        )),
        Box::new(HashTree::Pruned([1u8; 32])),
    ));
}

#[test]
fn decode_rejects_empty_input() {
    assert!(decode_tree(&Vec::new()).is_err());
}

#[test]
fn decode_rejects_bad_tag() {
    assert!(decode_tree(&vec![9u8]).is_err());
}

#[test]
fn decode_rejects_truncated_leaf() {
    let mut bytes = encode_tree(&HashTree::Leaf(b"payload".to_vec()));
    bytes.pop();
    assert!(decode_tree(&bytes).is_err());
}

#[test]
fn decode_rejects_truncated_pruned() {
    let bytes = vec![4u8, 0, 0, 0];
    assert!(decode_tree(&bytes).is_err());
}

#[test]
fn decode_rejects_trailing_bytes() {
    let mut bytes = encode_tree(&HashTree::Empty);
    bytes.push(0);
    assert!(decode_tree(&bytes).is_err());
}

#[test]
fn certificate_round_trip() {
    let cert = Certificate {
        tree: HashTree::Labeled(b"time".to_vec(), Box::new(HashTree::Leaf(vec![1, 2, 3, 4, 5, 6, 7, 8]))),
        signature: vec![9u8; 48],
    };
    let bytes = encode_certificate(&cert);
    let back = decode_certificate(&bytes).expect("certificate must decode");
    assert_eq!(back.tree, cert.tree);
    assert_eq!(back.signature, cert.signature);
}

#[test]
fn certificate_decode_rejects_truncated_signature() {
    let cert = Certificate { tree: HashTree::Empty, signature: vec![9u8; 48] };
    let mut bytes = encode_certificate(&cert);
    bytes.pop();
    assert!(decode_certificate(&bytes).is_err());
}
