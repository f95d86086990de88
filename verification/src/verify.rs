//! The client-side verifier: five ordered steps — signature, freshness,
//! root-match, witness-root, path-presence and value-equality — each failing
//! with its own reason and short-circuiting the rest; on success the value
//! is returned under a `Verified` marker.

use vstd::prelude::*;
use crate::bytes::{eq_bytes, u64_of_be, u64_of_be_m};
use crate::codec::{dec_cert_m, dec_tree_m, decode_certificate, decode_tree, Certificate};
use crate::tree::{
    clone_bytes, digest_m, labels_model, lookup_m, LookupM, LookupResult, TreeModel,
};

verus! {

/// The design-default freshness window: five minutes, in nanoseconds.
pub const DEFAULT_MAX_SKEW_NS: u64 = 300_000_000_000;

/// Why a verification attempt was rejected. Every variant is fatal to the
/// attempt; the caller must fetch a fresh certificate and witness to retry.
#[derive(PartialEq, Eq, Structural, Clone, Copy, Debug)]
pub enum VerifyError {
    Decode,
    SignatureInvalid,
    StaleOrFutureCertificate,
    CertifiedDataMissing,
    WitnessRootMismatch,
    ValueNotWitnessed,
    ValueMismatch,
}

/// A value that passed all five steps.
#[derive(Debug)]
pub struct Verified {
    pub value: Vec<u8>,
}

/// Whether `sig` is a valid signature on `msg` under `key` — the signature
/// scheme is a black box; only the trusted wrapper below speaks for it.
pub uninterp spec fn sig_verifies(sig: Seq<u8>, msg: Seq<u8>, key: Seq<u8>) -> bool;

/// Relies on `ic_verify_bls_signature::verify_bls_signature`: whether `sig`
/// is a valid BLS12-381 signature (48 bytes, G1) on `msg` under the 96-byte
/// G2 public key `key` — a pure function of the three byte strings.
#[verifier::external_body]
fn bls_verify(sig: &Vec<u8>, msg: &[u8; 32], key: &Vec<u8>) -> (r: bool)
    ensures
        r == sig_verifies(sig@, msg@, key@),
{
    ic_verify_bls_signature::verify_bls_signature(
        sig.as_slice(),
        msg.as_slice(),
        key.as_slice(),
    ).is_ok()
}

/// The label under which the certificate's tree carries its timestamp.
pub open spec fn time_label_m() -> Seq<u8> {
    seq![116u8, 105u8, 109u8, 101u8]
}

/// The first label of the well-known certified-data path.
pub open spec fn canister_label_m() -> Seq<u8> {
    seq![99u8, 97u8, 110u8, 105u8, 115u8, 116u8, 101u8, 114u8]
}

/// The last label of the well-known certified-data path.
pub open spec fn certified_data_label_m() -> Seq<u8> {
    seq![99u8, 101u8, 114u8, 116u8, 105u8, 102u8, 105u8, 101u8, 100u8, 95u8, 100u8, 97u8, 116u8,
        97u8]
}

/// The path of the certificate's timestamp leaf.
pub open spec fn time_path_m() -> Seq<Seq<u8>> {
    seq![time_label_m()]
}

/// The well-known path at which the certificate's tree publishes the root
/// digest certified for `principal`.
pub open spec fn certified_data_path_m(principal: Seq<u8>) -> Seq<Seq<u8>> {
    seq![canister_label_m(), principal, certified_data_label_m()]
}

fn time_path() -> (p: Vec<Vec<u8>>)
    ensures
        labels_model(p@) == time_path_m(),
{
    let mut l: Vec<u8> = Vec::new();
    l.push(116);
    l.push(105);
    l.push(109);
    l.push(101);
    assert(l@ =~= time_label_m());
    let mut p: Vec<Vec<u8>> = Vec::new();
    p.push(l);
    assert(labels_model(p@) =~= time_path_m());
    p
}

fn certified_data_path(principal: &Vec<u8>) -> (p: Vec<Vec<u8>>)
    ensures
        labels_model(p@) == certified_data_path_m(principal@),
{
    let mut a: Vec<u8> = Vec::new();
    a.push(99);
    a.push(97);
    a.push(110);
    a.push(105);
    a.push(115);
    a.push(116);
    a.push(101);
    a.push(114);
    assert(a@ =~= canister_label_m());
    let mut c: Vec<u8> = Vec::new();
    c.push(99);
    c.push(101);
    c.push(114);
    c.push(116);
    c.push(105);
    c.push(102);
    c.push(105);
    c.push(101);
    c.push(100);
    c.push(95);
    c.push(100);
    c.push(97);
    c.push(116);
    c.push(97);
    assert(c@ =~= certified_data_label_m());
    let mut p: Vec<Vec<u8>> = Vec::new();
    p.push(a);
    p.push(clone_bytes(principal));
    p.push(c);
    assert(labels_model(p@) =~= certified_data_path_m(principal@));
    p
}

/// The timestamp a certificate tree embeds: an 8-byte big-endian leaf at the
/// time path; anything else is a malformed certificate.
pub open spec fn cert_time_m(t: TreeModel) -> Option<u64> {
    match lookup_m(time_path_m(), 0, t) {
        LookupM::Found(b) => if b.len() == 8 {
            Some(u64_of_be_m(b))
        } else {
            None
        },
        _ => None,
    }
}

/// The symmetric freshness window: the certificate's time may lag or lead
/// the caller's clock by at most the skew bound.
pub open spec fn fresh_m(cert_time: u64, now: u64, skew: u64) -> bool {
    if cert_time <= now {
        now - cert_time <= skew
    } else {
        cert_time - now <= skew
    }
}

/// The root digest the certificate's tree publishes for `principal`: a
/// 32-byte leaf found at the well-known path; `Unknown`, `Absent`, `Error`
/// or a wrong width all leave it missing.
pub open spec fn certified_data_m(t: TreeModel, principal: Seq<u8>) -> Option<Seq<u8>> {
    match lookup_m(certified_data_path_m(principal), 0, t) {
        LookupM::Found(d) => if d.len() == 32 {
            Some(d)
        } else {
            None
        },
        _ => None,
    }
}

/// Steps two to five, after the signature check's outcome is fixed: exactly
/// one verdict for every input, in the order freshness, root-match,
/// witness-root, then path-presence and value-equality.
pub open spec fn verdict_given_m(
    sig_ok: bool,
    cert_tree: TreeModel,
    witness_bytes: Seq<u8>,
    value: Seq<u8>,
    principal: Seq<u8>,
    path: Seq<Seq<u8>>,
    now_ns: u64,
    max_skew_ns: u64,
) -> Result<Seq<u8>, VerifyError> {
    if !sig_ok {
        Err(VerifyError::SignatureInvalid)
    } else {
        match cert_time_m(cert_tree) {
            None => Err(VerifyError::Decode),
            Some(t) => if !fresh_m(t, now_ns, max_skew_ns) {
                Err(VerifyError::StaleOrFutureCertificate)
            } else {
                match certified_data_m(cert_tree, principal) {
                    None => Err(VerifyError::CertifiedDataMissing),
                    Some(root) => match dec_tree_m(witness_bytes) {
                        None => Err(VerifyError::Decode),
                        Some(w) => if digest_m(w) != root {
                            Err(VerifyError::WitnessRootMismatch)
                        } else {
                            match lookup_m(path, 0, w) {
                                LookupM::Found(b) => if b == value {
                                    Ok(value)
                                } else {
                                    Err(VerifyError::ValueMismatch)
                                },
                                _ => Err(VerifyError::ValueNotWitnessed),
                            }
                        },
                    },
                }
            },
        }
    }
}

/// The whole protocol over raw bytes, with the signature outcome supplied.
pub open spec fn verdict_with_outcome_m(
    sig_ok: bool,
    value: Seq<u8>,
    cert_bytes: Seq<u8>,
    witness_bytes: Seq<u8>,
    principal: Seq<u8>,
    path: Seq<Seq<u8>>,
    now_ns: u64,
    max_skew_ns: u64,
) -> Result<Seq<u8>, VerifyError> {
    match dec_cert_m(cert_bytes) {
        None => Err(VerifyError::Decode),
        Some((t, _sig)) => verdict_given_m(
            sig_ok,
            t,
            witness_bytes,
            value,
            principal,
            path,
            now_ns,
            max_skew_ns,
        ),
    }
}

/// The whole protocol over raw bytes: decode, then the five steps, with the
/// signature judged on the certificate tree's root digest.
pub open spec fn verdict_m(
    value: Seq<u8>,
    cert_bytes: Seq<u8>,
    witness_bytes: Seq<u8>,
    principal: Seq<u8>,
    public_key: Seq<u8>,
    path: Seq<Seq<u8>>,
    now_ns: u64,
    max_skew_ns: u64,
) -> Result<Seq<u8>, VerifyError> {
    match dec_cert_m(cert_bytes) {
        None => Err(VerifyError::Decode),
        Some((t, sig)) => verdict_given_m(
            sig_verifies(sig, digest_m(t), public_key),
            t,
            witness_bytes,
            value,
            principal,
            path,
            now_ns,
            max_skew_ns,
        ),
    }
}

/// A verification result, at the model level.
pub open spec fn result_m(r: Result<Verified, VerifyError>) -> Result<Seq<u8>, VerifyError> {
    match r {
        Ok(v) => Ok(v.value@),
        Err(e) => Err(e),
    }
}

fn verify_steps(
    sig_ok: bool,
    cert: &Certificate,
    value: &Vec<u8>,
    witness_bytes: &Vec<u8>,
    principal: &Vec<u8>,
    path: &Vec<Vec<u8>>,
    now_ns: u64,
    max_skew_ns: u64,
) -> (r: Result<Verified, VerifyError>)
    ensures
        result_m(r) == verdict_given_m(
            sig_ok,
            cert.tree@,
            witness_bytes@,
            value@,
            principal@,
            labels_model(path@),
            now_ns,
            max_skew_ns,
        ),
{
    if !sig_ok {
        return Err(VerifyError::SignatureInvalid);
    }
    let tp = time_path();
    let ct: u64 = match cert.tree.lookup_path(&tp) {
        LookupResult::Found(b) => {
            if b.len() != 8 {
                return Err(VerifyError::Decode);
            }
            u64_of_be(b.as_slice())
        },
        _ => {
            return Err(VerifyError::Decode);
        },
    };
    let fresh = if ct <= now_ns {
        now_ns - ct <= max_skew_ns
    } else {
        ct - now_ns <= max_skew_ns
    };
    if !fresh {
        return Err(VerifyError::StaleOrFutureCertificate);
    }
    let cp = certified_data_path(principal);
    let cd: Vec<u8> = match cert.tree.lookup_path(&cp) {
        LookupResult::Found(d) => {
            if d.len() != 32 {
                return Err(VerifyError::CertifiedDataMissing);
            }
            d
        },
        _ => {
            return Err(VerifyError::CertifiedDataMissing);
        },
    };
    let w = match decode_tree(witness_bytes) {
        Ok(w) => w,
        Err(_) => {
            return Err(VerifyError::Decode);
        },
    };
    let wd = w.digest();
    if !eq_bytes(wd.as_slice(), cd.as_slice()) {
        return Err(VerifyError::WitnessRootMismatch);
    }
    match w.lookup_path(path) {
        LookupResult::Found(b) => {
            if eq_bytes(b.as_slice(), value.as_slice()) {
                Ok(Verified { value: clone_bytes(value) })
            } else {
                Err(VerifyError::ValueMismatch)
            }
        },
        _ => Err(VerifyError::ValueNotWitnessed),
    }
}

/// Steps two to five with the signature check's outcome taken as given —
/// the verdict is then pinned down for every value of that outcome.
pub fn verify_with_signature_outcome(
    sig_ok: bool,
    value: &Vec<u8>,
    cert_bytes: &Vec<u8>,
    witness_bytes: &Vec<u8>,
    principal: &Vec<u8>,
    path: &Vec<Vec<u8>>,
    now_ns: u64,
    max_skew_ns: u64,
) -> (r: Result<Verified, VerifyError>)
    ensures
        result_m(r) == verdict_with_outcome_m(
            sig_ok,
            value@,
            cert_bytes@,
            witness_bytes@,
            principal@,
            labels_model(path@),
            now_ns,
            max_skew_ns,
        ),
        r matches Ok(v) ==> v.value@ == value@,
{
    let cert = match decode_certificate(cert_bytes) {
        Ok(c) => c,
        Err(_) => {
            return Err(VerifyError::Decode);
        },
    };
    verify_steps(sig_ok, &cert, value, witness_bytes, principal, path, now_ns, max_skew_ns)
}

/// The five-step verification: decode the certificate, check the signature
/// on its tree's root digest under `public_key`, then freshness against
/// `now_ns` within `max_skew_ns`, then the root published for `principal`,
/// then the witness's digest, then the value at `path` in the witness.
/// The verdict — the verified value or the first failing step's error — is
/// exactly `verdict_m` of the inputs.
pub fn verify_query_response(
    value: &Vec<u8>,
    cert_bytes: &Vec<u8>,
    witness_bytes: &Vec<u8>,
    principal: &Vec<u8>,
    public_key: &Vec<u8>,
    path: &Vec<Vec<u8>>,
    now_ns: u64,
    max_skew_ns: u64,
) -> (r: Result<Verified, VerifyError>)
    ensures
        result_m(r) == verdict_m(
            value@,
            cert_bytes@,
            witness_bytes@,
            principal@,
            public_key@,
            labels_model(path@),
            now_ns,
            max_skew_ns,
        ),
        r matches Ok(v) ==> v.value@ == value@,
{
    let cert = match decode_certificate(cert_bytes) {
        Ok(c) => c,
        Err(_) => {
            return Err(VerifyError::Decode);
        },
    };
    let root = cert.tree.digest();
    let sig_ok = bls_verify(&cert.signature, &root, public_key);
    verify_steps(sig_ok, &cert, value, witness_bytes, principal, path, now_ns, max_skew_ns)
}

} // verus!
