//! Store behavior: assigned indices, reads, and the consistency of the
//! incrementally maintained root digest with a from-scratch recomputation.

use certified_kv::store::AuthenticatedStore;

#[test]
fn indices_start_at_one_and_increase() {
    let mut s = AuthenticatedStore::new();
    let label = b"user".to_vec();
    assert_eq!(s.insert_or_update(&label, b"a".to_vec()), 1);
    assert_eq!(s.insert_or_update(&label, b"b".to_vec()), 2);
    assert_eq!(s.insert_or_update(&b"admin".to_vec(), b"c".to_vec()), 3);
    assert_eq!(s.insert_or_update(&label, b"d".to_vec()), 4);
}

#[test]
fn get_returns_what_was_stored() {
    let mut s = AuthenticatedStore::new();
    let label = b"user".to_vec();
    let i1 = s.insert_or_update(&label, b"alice".to_vec());
    let i2 = s.insert_or_update(&label, b"bob".to_vec());
    assert_eq!(s.get(&label, i1), Some(b"alice".to_vec()));
    assert_eq!(s.get(&label, i2), Some(b"bob".to_vec()));
}

#[test]
fn get_missing_record_is_not_found() {
    let mut s = AuthenticatedStore::new();
    let label = b"user".to_vec();
    assert_eq!(s.get(&label, 1), None);
    s.insert_or_update(&label, b"alice".to_vec());
    assert_eq!(s.get(&label, 2), None);
    assert_eq!(s.get(&b"nosuch".to_vec(), 1), None);
}

#[test]
fn root_digest_equals_from_scratch_digest_after_each_insertion() {
    let mut s = AuthenticatedStore::new();
    assert_eq!(s.root_digest(), s.as_hash_tree().digest());
    let labels: [&[u8]; 5] = [b"user", b"user", b"admin", b"zeta", b"user"];
    for (k, l) in labels.iter().enumerate() {
        s.insert_or_update(&l.to_vec(), vec![k as u8; 3]);
        assert_eq!(s.root_digest(), s.as_hash_tree().digest());
    }
}

#[test]
fn root_digest_changes_with_every_insertion() {
    let mut s = AuthenticatedStore::new();
    let label = b"user".to_vec();
    let d0 = s.root_digest();
    s.insert_or_update(&label, b"alice".to_vec());
    let d1 = s.root_digest();
    assert_ne!(d0, d1);
    s.insert_or_update(&label, b"alice".to_vec());
    let d2 = s.root_digest();
    assert_ne!(d1, d2);
}

#[test]
fn root_digest_is_stable_across_store_instances() {
    // the digest depends on content alone, never on per-process state
    let mut a = AuthenticatedStore::new();
    a.insert_or_update(&b"user".to_vec(), b"v1".to_vec());
    a.insert_or_update(&b"admin".to_vec(), b"v2".to_vec());

    let mut b = AuthenticatedStore::new();
    b.insert_or_update(&b"user".to_vec(), b"v1".to_vec());
    b.insert_or_update(&b"admin".to_vec(), b"v2".to_vec());

    assert_eq!(a.root_digest(), b.root_digest());
}
