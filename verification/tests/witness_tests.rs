//! Witness construction: matching digest and faithful lookup for present
//! and absent paths alike.

use certified_kv::service::record_path;
use certified_kv::store::AuthenticatedStore;
use certified_kv::tree::LookupResult;
use certified_kv::witness::build_witness;

fn filled_store() -> AuthenticatedStore {
    let mut s = AuthenticatedStore::new();
    let user = b"user".to_vec();
    s.insert_or_update(&user, b"alice".to_vec());
    s.insert_or_update(&user, b"bob".to_vec());
    s.insert_or_update(&b"admin".to_vec(), b"root".to_vec());
    s
}

#[test]
fn witness_for_present_path_has_matching_digest_and_value() {
    let s = filled_store();
    let path = record_path(&b"user".to_vec(), 2);
    let w = build_witness(&s, &path);
    assert_eq!(w.digest(), s.root_digest());
    assert_eq!(w.lookup_path(&path), LookupResult::Found(b"bob".to_vec()));
    assert_eq!(w.lookup_path(&path), s.as_hash_tree().lookup_path(&path));
}

#[test]
fn witness_for_absent_index_proves_absence() {
    let s = filled_store();
    let path = record_path(&b"user".to_vec(), 77);
    let w = build_witness(&s, &path);
    assert_eq!(w.digest(), s.root_digest());
    assert_eq!(w.lookup_path(&path), LookupResult::Absent);
}

#[test]
fn witness_for_absent_label_proves_absence() {
    let s = filled_store();
    let path = record_path(&b"nosuch".to_vec(), 1);
    let w = build_witness(&s, &path);
    assert_eq!(w.digest(), s.root_digest());
    assert_eq!(w.lookup_path(&path), LookupResult::Absent);
}

#[test]
fn witness_for_one_record_leaves_other_records_undecided() {
    let s = filled_store();
    let alice_path = record_path(&b"user".to_vec(), 1);
    let bob_path = record_path(&b"user".to_vec(), 2);
    let w = build_witness(&s, &alice_path);
    assert_eq!(w.digest(), s.root_digest());
    assert_eq!(w.lookup_path(&alice_path), LookupResult::Found(b"alice".to_vec()));
    assert_eq!(w.lookup_path(&bob_path), LookupResult::Unknown);
}

#[test]
fn witness_is_a_detached_snapshot() {
    let mut s = filled_store();
    let path = record_path(&b"user".to_vec(), 1);
    let w = build_witness(&s, &path);
    let root_before = s.root_digest();
    s.insert_or_update(&b"user".to_vec(), b"carol".to_vec());
    assert_eq!(w.digest(), root_before);
    assert_ne!(w.digest(), s.root_digest());
}
