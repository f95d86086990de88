//! Witness construction: from a store and a requested path, the pruned tree
//! that still carries the store's root digest and decides the path's lookup
//! exactly as the full tree does. Subtrees off the path are replaced by
//! their digests; labels along the traversed levels stay revealed, so that
//! an absent path is proven absent rather than left undecided.

use vstd::prelude::*;
use crate::bytes::{be_bytes, be_bytes_m, eq_bytes};
use crate::store::{
    group_node, groups_model, record_node, record_tree, records_model, records_tree,
    AuthenticatedStore, Group, Record, store_model,
};
use crate::tree::{
    clone_bytes, digest_m, labels_model, lookup_m, HashTree, LookupM, TreeModel,
};

verus! {


/// `w` is `t` with some subtrees replaced by pruned nodes that carry exactly
/// the digests of what they replace: the two are interchangeable under the
/// hash, and `w` reveals nothing that `t` does not hold.
pub open spec fn prunes(w: TreeModel, t: TreeModel) -> bool
    decreases w,
{
    match w {
        TreeModel::Pruned(d) => d == digest_m(t),
        TreeModel::Empty => t == TreeModel::Empty,
        TreeModel::Leaf(b) => t == TreeModel::Leaf(b),
        TreeModel::Labeled(l, s) => match t {
            TreeModel::Labeled(l2, s2) => l2 == l && prunes(*s, *s2),
            _ => false,
        },
        TreeModel::Fork(a, b) => match t {
            TreeModel::Fork(a2, b2) => prunes(*a, *a2) && prunes(*b, *b2),
            _ => false,
        },
    }
}

/// A pruning is reflexive: every tree stands for itself.
pub proof fn lemma_prunes_refl(t: TreeModel)
    ensures
        prunes(t, t),
    decreases t,
{
    match t {
        TreeModel::Labeled(_, s) => {
            lemma_prunes_refl(*s);
        },
        TreeModel::Fork(a, b) => {
            lemma_prunes_refl(*a);
            lemma_prunes_refl(*b);
        },
        _ => {
        },
    }
}

/// Law: a pruning and the tree it stands for have the same digest.
pub proof fn lemma_prunes_same_digest(w: TreeModel, t: TreeModel)
    requires
        prunes(w, t),
    ensures
        digest_m(w) == digest_m(t),
    decreases w,
{
    match w {
        TreeModel::Labeled(_, s) => {
            if let TreeModel::Labeled(_, s2) = t {
                lemma_prunes_same_digest(*s, *s2);
            }
        },
        TreeModel::Fork(a, b) => {
            if let TreeModel::Fork(a2, b2) = t {
                lemma_prunes_same_digest(*a, *a2);
                lemma_prunes_same_digest(*b, *b2);
            }
        },
        _ => {
        },
    }
}

fn witness_record_node(r: &Record, path: &Vec<Vec<u8>>, d: usize) -> (w: HashTree)
    requires
        d <= path@.len(),
    ensures
        prunes(w@, record_node(*r)),
        digest_m(w@) == digest_m(record_node(*r)),
        lookup_m(labels_model(path@), d as int, w@)
            == lookup_m(labels_model(path@), d as int, record_node(*r)),
{
    let key = be_bytes(r.index);
    if d < path.len() && eq_bytes(key.as_slice(), path[d].as_slice()) {
        let w = record_tree(r);
        proof {
            lemma_prunes_refl(record_node(*r));
        }
        w
    } else {
        let leaf = HashTree::Leaf(clone_bytes(&r.value));
        assert(leaf@ == TreeModel::Leaf(r.value@));
        let dig = leaf.digest();
        let pr = HashTree::Pruned(dig);
        assert(pr@ == TreeModel::Pruned(dig@));
        let w = HashTree::Labeled(key, Box::new(pr));
        proof {
            let pm = labels_model(path@);
            assert(w@ == TreeModel::Labeled(
                be_bytes_m(r.index),
                Box::new(TreeModel::Pruned(dig@)),
            ));
            assert(digest_m(pr@) == dig@);
            assert(digest_m(w@) == digest_m(record_node(*r)));
            assert(prunes(pr@, TreeModel::Leaf(r.value@)));
            assert(prunes(w@, record_node(*r)));
            if d < path@.len() {
                assert(pm[d as int] != be_bytes_m(r.index));
            }
        }
        w
    }
}

fn witness_records(rs: &Vec<Record>, i: usize, path: &Vec<Vec<u8>>, d: usize) -> (w: HashTree)
    requires
        i <= rs@.len(),
        d <= path@.len(),
    ensures
        prunes(w@, records_model(rs@, i as int)),
        digest_m(w@) == digest_m(records_model(rs@, i as int)),
        lookup_m(labels_model(path@), d as int, w@)
            == lookup_m(labels_model(path@), d as int, records_model(rs@, i as int)),
    decreases rs@.len() - i,
{
    if i >= rs.len() {
        HashTree::Empty
    } else if i == rs.len() - 1 {
        witness_record_node(&rs[i], path, d)
    } else {
        let a = witness_record_node(&rs[i], path, d);
        let b = witness_records(rs, i + 1, path, d);
        let w = HashTree::Fork(Box::new(a), Box::new(b));
        proof {
            let pm = labels_model(path@);
            let m = records_model(rs@, i as int);
            assert(w@ == TreeModel::Fork(Box::new(a@), Box::new(b@)));
            assert(m == TreeModel::Fork(
                Box::new(record_node(rs@[i as int])),
                Box::new(records_model(rs@, i as int + 1)),
            ));
        }
        w
    }
}

fn witness_group_node(g: &Group, path: &Vec<Vec<u8>>, d: usize) -> (w: HashTree)
    requires
        d <= path@.len(),
    ensures
        prunes(w@, group_node(*g)),
        digest_m(w@) == digest_m(group_node(*g)),
        lookup_m(labels_model(path@), d as int, w@)
            == lookup_m(labels_model(path@), d as int, group_node(*g)),
{
    let label = clone_bytes(&g.label);
    if d < path.len() && eq_bytes(label.as_slice(), path[d].as_slice()) {
        let sub = witness_records(&g.records, 0, path, d + 1);
        let w = HashTree::Labeled(label, Box::new(sub));
        proof {
            let pm = labels_model(path@);
            assert(w@ == TreeModel::Labeled(g.label@, Box::new(sub@)));
            assert(pm[d as int] == g.label@);
        }
        w
    } else {
        let full = records_tree(&g.records, 0);
        let dig = full.digest();
        let pr = HashTree::Pruned(dig);
        assert(pr@ == TreeModel::Pruned(dig@));
        let w = HashTree::Labeled(label, Box::new(pr));
        proof {
            let pm = labels_model(path@);
            assert(w@ == TreeModel::Labeled(g.label@, Box::new(TreeModel::Pruned(dig@))));
            assert(digest_m(pr@) == dig@);
            assert(digest_m(w@) == digest_m(group_node(*g)));
            assert(prunes(pr@, records_model(g.records@, 0)));
            assert(prunes(w@, group_node(*g)));
            if d < path@.len() {
                assert(pm[d as int] != g.label@);
            }
        }
        w
    }
}

fn witness_groups(gs: &Vec<Group>, i: usize, path: &Vec<Vec<u8>>) -> (w: HashTree)
    requires
        i <= gs@.len(),
    ensures
        prunes(w@, groups_model(gs@, i as int)),
        digest_m(w@) == digest_m(groups_model(gs@, i as int)),
        lookup_m(labels_model(path@), 0, w@)
            == lookup_m(labels_model(path@), 0, groups_model(gs@, i as int)),
    decreases gs@.len() - i,
{
    if i >= gs.len() {
        HashTree::Empty
    } else if i == gs.len() - 1 {
        witness_group_node(&gs[i], path, 0)
    } else {
        let a = witness_group_node(&gs[i], path, 0);
        let b = witness_groups(gs, i + 1, path);
        let w = HashTree::Fork(Box::new(a), Box::new(b));
        proof {
            assert(w@ == TreeModel::Fork(Box::new(a@), Box::new(b@)));
            assert(groups_model(gs@, i as int) == TreeModel::Fork(
                Box::new(group_node(gs@[i as int])),
                Box::new(groups_model(gs@, i as int + 1)),
            ));
        }
        w
    }
}

/// Build the witness for `path` against the store's current tree: a pruning
/// of that tree, so its digest equals the store's root digest, and looking
/// the path up in the witness decides exactly as in the full tree — laws
/// that hold for present and absent paths alike.
pub fn build_witness(s: &AuthenticatedStore, path: &Vec<Vec<u8>>) -> (w: HashTree)
    requires
        s.wf(),
    ensures
        prunes(w@, store_model(*s)),
        digest_m(w@) == digest_m(store_model(*s)),
        lookup_m(labels_model(path@), 0, w@)
            == lookup_m(labels_model(path@), 0, store_model(*s)),
{
    witness_groups(&s.groups, 0, path)
}

/// A tree with no pruned nodes: the store's own tree is always such.
pub open spec fn pruned_free(t: TreeModel) -> bool
    decreases t,
{
    match t {
        TreeModel::Empty => true,
        TreeModel::Leaf(_) => true,
        TreeModel::Labeled(_, sub) => pruned_free(*sub),
        TreeModel::Fork(a, b) => pruned_free(*a) && pruned_free(*b),
        TreeModel::Pruned(_) => false,
    }
}

proof fn lemma_records_model_pruned_free(rs: Seq<Record>, i: int)
    requires
        0 <= i,
    ensures
        pruned_free(records_model(rs, i)),
    decreases rs.len() - i,
{
    if i < rs.len() {
        assert(pruned_free(TreeModel::Leaf(rs[i].value@)));
        assert(pruned_free(record_node(rs[i])));
        if i != rs.len() - 1 {
            lemma_records_model_pruned_free(rs, i + 1);
        }
    }
}

proof fn lemma_groups_model_pruned_free(gs: Seq<Group>, i: int)
    requires
        0 <= i,
    ensures
        pruned_free(groups_model(gs, i)),
    decreases gs.len() - i,
{
    if i < gs.len() {
        lemma_records_model_pruned_free(gs[i].records@, 0);
        assert(pruned_free(group_node(gs[i])));
        if i != gs.len() - 1 {
            lemma_groups_model_pruned_free(gs, i + 1);
        }
    }
}

proof fn lemma_lookup_decided(path: Seq<Seq<u8>>, d: int, t: TreeModel)
    requires
        pruned_free(t),
    ensures
        lookup_m(path, d, t) != LookupM::Unknown,
    decreases t,
{
    match t {
        TreeModel::Labeled(l, sub) => {
            if d != path.len() && path[d] == l {
                lemma_lookup_decided(path, d + 1, *sub);
            }
        },
        TreeModel::Fork(a, b) => {
            if d != path.len() {
                lemma_lookup_decided(path, d, *a);
                lemma_lookup_decided(path, d, *b);
            }
        },
        _ => {
        },
    }
}

/// Law: a lookup in the store's own tree is always decided — `Found` or
/// `Absent` or a structural `Error`, never `Unknown`. With the witness laws
/// above, a witness built for an absent path therefore proves the absence.
pub proof fn lemma_store_lookup_decided(s: AuthenticatedStore, path: Seq<Seq<u8>>)
    ensures
        lookup_m(path, 0, store_model(s)) != LookupM::Unknown,
{
    lemma_groups_model_pruned_free(s.groups@, 0);
    lemma_lookup_decided(path, 0, store_model(s));
}

} // verus!
