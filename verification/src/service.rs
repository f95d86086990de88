//! The query entry point a server exposes: for one record identifier it
//! returns the stored value, the authority's certificate blob as last
//! received, and the encoded witness that proves the value against the
//! store's published root digest.

use vstd::prelude::*;
use crate::bytes::be_bytes;
use crate::codec::{dec_tree_m, encode_tree, lemma_tree_round_trip, lemma_tree_wf};
use crate::store::{record_path_m, store_model, AuthenticatedStore, lemma_store_tree_lookup};
use crate::tree::{digest_m, labels_model, lookup_m, LookupM, TreeModel};
use crate::witness::{build_witness, prunes};

verus! {

/// What a query returns: the value, the certificate vouching for the root
/// digest, and the witness tying the value to that digest.
pub struct CertifiedQueryResponse {
    pub value: Vec<u8>,
    pub certificate: Vec<u8>,
    pub witness: Vec<u8>,
}

/// The executable record path: the group's label, then the index's 8-byte
/// big-endian encoding.
pub fn record_path(top_label: &Vec<u8>, index: u64) -> (p: Vec<Vec<u8>>)
    ensures
        labels_model(p@) == record_path_m(top_label@, index),
{
    let mut p: Vec<Vec<u8>> = Vec::new();
    p.push(crate::tree::clone_bytes(top_label));
    p.push(be_bytes(index));
    assert(labels_model(p@) =~= record_path_m(top_label@, index));
    p
}

/// Answer a query for the record at (`top_label`, `index`): the stored
/// value, the `certificate` blob handed over by the certification authority,
/// and an encoded witness that decodes back to a tree carrying the store's
/// root digest and proving exactly this value at exactly this record's path.
/// Yields nothing where the store holds no such record.
pub fn get_certified(
    s: &AuthenticatedStore,
    top_label: &Vec<u8>,
    index: u64,
    certificate: Vec<u8>,
) -> (r: Option<CertifiedQueryResponse>)
    requires
        s.wf(),
    ensures
        match r {
            Some(resp) => {
                &&& s.as_map().contains_key(top_label@)
                &&& s.as_map()[top_label@].contains_key(index)
                &&& resp.value@ == s.as_map()[top_label@][index]
                &&& resp.certificate@ == certificate@
                &&& exists|w: TreeModel|
                    {
                        &&& #[trigger] dec_tree_m(resp.witness@) == Some(w)
                        &&& prunes(w, store_model(*s))
                        &&& digest_m(w) == digest_m(store_model(*s))
                        &&& lookup_m(record_path_m(top_label@, index), 0, w) == LookupM::Found(
                            resp.value@,
                        )
                    }
            },
            None => !s.as_map().contains_key(top_label@) || !s.as_map()[
                top_label@
            ].contains_key(index),
        },
{
    let value = match s.get(top_label, index) {
        Some(v) => v,
        None => {
            return None;
        },
    };
    let path = record_path(top_label, index);
    let w = build_witness(s, &path);
    let witness_bytes = encode_tree(&w);
    proof {
        lemma_tree_wf(w);
        lemma_tree_round_trip(w@);
        lemma_store_tree_lookup(*s, top_label@, index);
        assert(dec_tree_m(witness_bytes@) == Some(w@));
        assert(lookup_m(record_path_m(top_label@, index), 0, w@) == LookupM::Found(value@));
    }
    Some(CertifiedQueryResponse { value, certificate, witness: witness_bytes })
}

} // verus!
