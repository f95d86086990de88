//! End-to-end scenarios: a store, a signing authority, and the five-step
//! client verification, with each failure mode triggered on purpose.

use std::collections::BTreeMap;

use certified_kv::bytes::be_bytes;
use certified_kv::codec::{decode_tree, encode_certificate, Certificate};
use certified_kv::service::{get_certified, record_path};
use certified_kv::store::AuthenticatedStore;
use certified_kv::tree::{HashTree, LookupResult};
use certified_kv::verify::{
    verify_query_response, verify_with_signature_outcome, VerifyError, DEFAULT_MAX_SKEW_NS,
};
use ic_verify_bls_signature::PrivateKey;

const NOW_NS: u64 = 1_700_000_000_000_000_000;
const MINUTE_NS: u64 = 60_000_000_000;

fn signing_key() -> PrivateKey {
    let mut raw = [0u8; 32];
    raw[31] = 42;
    PrivateKey::deserialize(&raw).expect("a small scalar is a valid key")
}

fn cbor_user(name: &str, age: u8) -> Vec<u8> {
    let mut m = BTreeMap::new();
    m.insert(
        serde_cbor::Value::Text("name".to_string()),
        serde_cbor::Value::Text(name.to_string()),
    );
    m.insert(
        serde_cbor::Value::Text("age".to_string()),
        serde_cbor::Value::Integer(age as i128),
    );
    serde_cbor::to_vec(&serde_cbor::Value::Map(m)).expect("cbor encoding")
}

fn make_certificate(root: [u8; 32], time_ns: u64, principal: &[u8], sk: &PrivateKey) -> Vec<u8> {
    let tree = HashTree::Fork(
        Box::new(HashTree::Labeled(
            b"canister".to_vec(),
            Box::new(HashTree::Labeled(
                principal.to_vec(),
                Box::new(HashTree::Labeled(
                    b"certified_data".to_vec(),
                    Box::new(HashTree::Leaf(root.to_vec())),
                )),
            )),
        )),
        Box::new(HashTree::Labeled(
            b"time".to_vec(),
            Box::new(HashTree::Leaf(be_bytes(time_ns))),
        )),
    );
    let digest = tree.digest();
    let signature = sk.sign(&digest).serialize().to_vec();
    encode_certificate(&Certificate { tree, signature })
}

struct Scenario {
    value: Vec<u8>,
    cert_bytes: Vec<u8>,
    witness_bytes: Vec<u8>,
    principal: Vec<u8>,
    public_key: Vec<u8>,
    path: Vec<Vec<u8>>,
}

fn scenario(cert_time_ns: u64) -> Scenario {
    let sk = signing_key();
    let principal = b"demo-canister-id".to_vec();
    let mut s = AuthenticatedStore::new();
    let user = b"user".to_vec();
    let alice = cbor_user("Alice", 30);
    let bob = cbor_user("Bob", 25);
    let i1 = s.insert_or_update(&user, alice.clone());
    let i2 = s.insert_or_update(&user, bob);
    assert_eq!(i1, 1);
    assert_eq!(i2, 2);
    let cert_bytes = make_certificate(s.root_digest(), cert_time_ns, &principal, &sk);
    let resp = get_certified(&s, &user, i1, cert_bytes).expect("record exists");
    assert_eq!(resp.value, alice);
    Scenario {
        value: resp.value,
        cert_bytes: resp.certificate,
        witness_bytes: resp.witness,
        principal,
        public_key: sk.public_key().serialize().to_vec(),
        path: record_path(&b"user".to_vec(), i1),
    }
}

#[test]
fn scenario_a_accepts_the_genuine_response() {
    let sc = scenario(NOW_NS - MINUTE_NS);
    let verified = verify_query_response(
        &sc.value,
        &sc.cert_bytes,
        &sc.witness_bytes,
        &sc.principal,
        &sc.public_key,
        &sc.path,
        NOW_NS,
        DEFAULT_MAX_SKEW_NS,
    )
    .expect("genuine response must verify");
    assert_eq!(verified.value, cbor_user("Alice", 30));
}

#[test]
fn scenario_a_witness_carries_the_cbor_record() {
    let sc = scenario(NOW_NS);
    let w = decode_tree(&sc.witness_bytes).expect("witness decodes");
    assert_eq!(
        w.lookup_path(&sc.path),
        LookupResult::Found(cbor_user("Alice", 30))
    );
}

#[test]
fn scenario_b_tampered_value_fails_value_mismatch() {
    let sc = scenario(NOW_NS);
    let mut tampered = sc.value.clone();
    let last = tampered.len() - 1;
    tampered[last] ^= 1;
    let r = verify_query_response(
        &tampered,
        &sc.cert_bytes,
        &sc.witness_bytes,
        &sc.principal,
        &sc.public_key,
        &sc.path,
        NOW_NS,
        DEFAULT_MAX_SKEW_NS,
    );
    assert_eq!(r.unwrap_err(), VerifyError::ValueMismatch);
}

#[test]
fn scenario_c_stale_certificate_fails_freshness() {
    let sc = scenario(NOW_NS - 10 * MINUTE_NS);
    let r = verify_query_response(
        &sc.value,
        &sc.cert_bytes,
        &sc.witness_bytes,
        &sc.principal,
        &sc.public_key,
        &sc.path,
        NOW_NS,
        DEFAULT_MAX_SKEW_NS,
    );
    assert_eq!(r.unwrap_err(), VerifyError::StaleOrFutureCertificate);
}

#[test]
fn scenario_c_slightly_old_certificate_passes() {
    let sc = scenario(NOW_NS - 3 * MINUTE_NS);
    assert!(verify_query_response(
        &sc.value,
        &sc.cert_bytes,
        &sc.witness_bytes,
        &sc.principal,
        &sc.public_key,
        &sc.path,
        NOW_NS,
        DEFAULT_MAX_SKEW_NS,
    )
    .is_ok());
}

#[test]
fn future_certificate_beyond_skew_fails_symmetrically() {
    let sc = scenario(NOW_NS + 10 * MINUTE_NS);
    let r = verify_query_response(
        &sc.value,
        &sc.cert_bytes,
        &sc.witness_bytes,
        &sc.principal,
        &sc.public_key,
        &sc.path,
        NOW_NS,
        DEFAULT_MAX_SKEW_NS,
    );
    assert_eq!(r.unwrap_err(), VerifyError::StaleOrFutureCertificate);
}

#[test]
fn scenario_d_witness_for_another_record_fails_not_witnessed() {
    let sc = scenario(NOW_NS);
    let bob_path = record_path(&b"user".to_vec(), 2);
    let bob_value = cbor_user("Bob", 25);
    let r = verify_query_response(
        &bob_value,
        &sc.cert_bytes,
        &sc.witness_bytes,
        &sc.principal,
        &sc.public_key,
        &bob_path,
        NOW_NS,
        DEFAULT_MAX_SKEW_NS,
    );
    assert_eq!(r.unwrap_err(), VerifyError::ValueNotWitnessed);
}

#[test]
fn corrupted_signature_fails_step_one() {
    let sc = scenario(NOW_NS);
    let mut cert = sc.cert_bytes.clone();
    let last = cert.len() - 1;
    cert[last] ^= 1;
    let r = verify_query_response(
        &sc.value,
        &cert,
        &sc.witness_bytes,
        &sc.principal,
        &sc.public_key,
        &sc.path,
        NOW_NS,
        DEFAULT_MAX_SKEW_NS,
    );
    assert_eq!(r.unwrap_err(), VerifyError::SignatureInvalid);
}

#[test]
fn wrong_principal_fails_certified_data_missing() {
    let sc = scenario(NOW_NS);
    let other = b"other-canister-id".to_vec();
    let r = verify_with_signature_outcome(
        true,
        &sc.value,
        &sc.cert_bytes,
        &sc.witness_bytes,
        &other,
        &sc.path,
        NOW_NS,
        DEFAULT_MAX_SKEW_NS,
    );
    assert_eq!(r.unwrap_err(), VerifyError::CertifiedDataMissing);
}

#[test]
fn witness_against_a_later_root_fails_root_mismatch() {
    let sk = signing_key();
    let principal = b"demo-canister-id".to_vec();
    let mut s = AuthenticatedStore::new();
    let user = b"user".to_vec();
    let alice = cbor_user("Alice", 30);
    let i1 = s.insert_or_update(&user, alice.clone());
    let path = record_path(&user, i1);
    let stale_witness = {
        let resp = get_certified(&s, &user, i1, Vec::new()).expect("record exists");
        resp.witness
    };
    s.insert_or_update(&user, cbor_user("Bob", 25));
    let cert_bytes = make_certificate(s.root_digest(), NOW_NS, &principal, &sk);
    let r = verify_query_response(
        &alice,
        &cert_bytes,
        &stale_witness,
        &principal,
        &sk.public_key().serialize().to_vec(),
        &path,
        NOW_NS,
        DEFAULT_MAX_SKEW_NS,
    );
    assert_eq!(r.unwrap_err(), VerifyError::WitnessRootMismatch);
}

#[test]
fn malformed_certificate_fails_decode() {
    let sc = scenario(NOW_NS);
    let garbage = vec![0xffu8; 10];
    let r = verify_query_response(
        &sc.value,
        &garbage,
        &sc.witness_bytes,
        &sc.principal,
        &sc.public_key,
        &sc.path,
        NOW_NS,
        DEFAULT_MAX_SKEW_NS,
    );
    assert_eq!(r.unwrap_err(), VerifyError::Decode);
}

#[test]
fn malformed_witness_fails_decode() {
    let sc = scenario(NOW_NS);
    let garbage = vec![0xffu8; 10];
    let r = verify_query_response(
        &sc.value,
        &sc.cert_bytes,
        &garbage,
        &sc.principal,
        &sc.public_key,
        &sc.path,
        NOW_NS,
        DEFAULT_MAX_SKEW_NS,
    );
    assert_eq!(r.unwrap_err(), VerifyError::Decode);
}

#[test]
fn rejected_signature_outcome_short_circuits() {
    let sc = scenario(NOW_NS);
    let r = verify_with_signature_outcome(
        false,
        &sc.value,
        &sc.cert_bytes,
        &sc.witness_bytes,
        &sc.principal,
        &sc.path,
        NOW_NS,
        DEFAULT_MAX_SKEW_NS,
    );
    assert_eq!(r.unwrap_err(), VerifyError::SignatureInvalid);
}

#[test]
fn accepted_signature_outcome_runs_the_remaining_steps() {
    let sc = scenario(NOW_NS);
    let r = verify_with_signature_outcome(
        true,
        &sc.value,
        &sc.cert_bytes,
        &sc.witness_bytes,
        &sc.principal,
        &sc.path,
        NOW_NS,
        DEFAULT_MAX_SKEW_NS,
    );
    assert_eq!(r.expect("all later steps pass").value, sc.value);
}
