//! The authenticated hash tree: five node kinds, a content-addressed digest,
//! and path lookup with the `Found` / `Absent` / `Unknown` / `Error` outcomes.

use vstd::prelude::*;
use crate::hash::{sha256, sha256_of};
use crate::bytes::push_all;

verus! {

/// A node of the authenticated tree. `Pruned` carries only a pre-computed
/// digest and stands for a subtree withheld from a witness; it never appears
/// in the authoritative store's own tree.
#[derive(Debug, PartialEq, Eq)]
pub enum HashTree {
    Empty,
    Leaf(Vec<u8>),
    Labeled(Vec<u8>, Box<HashTree>),
    Fork(Box<HashTree>, Box<HashTree>),
    Pruned([u8; 32]),
}

/// The mathematical shape of a tree: the same five kinds over `Seq<u8>`.
pub enum TreeModel {
    Empty,
    Leaf(Seq<u8>),
    Labeled(Seq<u8>, Box<TreeModel>),
    Fork(Box<TreeModel>, Box<TreeModel>),
    Pruned(Seq<u8>),
}

/// The model of an executable tree: byte vectors become byte sequences.
pub open spec fn tree_model(t: HashTree) -> TreeModel
    decreases t,
{
    match t {
        HashTree::Empty => TreeModel::Empty,
        HashTree::Leaf(b) => TreeModel::Leaf(b@),
        HashTree::Labeled(l, sub) => TreeModel::Labeled(l@, Box::new(tree_model(*sub))),
        HashTree::Fork(a, b) => TreeModel::Fork(
            Box::new(tree_model(*a)),
            Box::new(tree_model(*b)),
        ),
        HashTree::Pruned(d) => TreeModel::Pruned(d@),
    }
}

impl View for HashTree {
    type V = TreeModel;

    open spec fn view(&self) -> TreeModel {
        tree_model(*self)
    }
}

/// Domain separator prefixed to the hashed bytes of an empty node: one length
/// byte and the ASCII name.
pub open spec fn dsep_empty() -> Seq<u8> {
    seq![17u8, 105u8, 99u8, 45u8, 104u8, 97u8, 115u8, 104u8, 116u8, 114u8, 101u8, 101u8, 45u8,
        101u8, 109u8, 112u8, 116u8, 121u8]
}

/// Domain separator of a fork node.
pub open spec fn dsep_fork() -> Seq<u8> {
    seq![16u8, 105u8, 99u8, 45u8, 104u8, 97u8, 115u8, 104u8, 116u8, 114u8, 101u8, 101u8, 45u8,
        102u8, 111u8, 114u8, 107u8]
}

/// Domain separator of a labeled node.
pub open spec fn dsep_labeled() -> Seq<u8> {
    seq![19u8, 105u8, 99u8, 45u8, 104u8, 97u8, 115u8, 104u8, 116u8, 114u8, 101u8, 101u8, 45u8,
        108u8, 97u8, 98u8, 101u8, 108u8, 101u8, 100u8]
}

/// Domain separator of a leaf node.
pub open spec fn dsep_leaf() -> Seq<u8> {
    seq![16u8, 105u8, 99u8, 45u8, 104u8, 97u8, 115u8, 104u8, 116u8, 114u8, 101u8, 101u8, 45u8,
        108u8, 101u8, 97u8, 102u8]
}

fn dsep_empty_vec() -> (r: Vec<u8>)
    ensures
        r@ == dsep_empty(),
{
    let mut r: Vec<u8> = Vec::new();
    r.push(17);
    r.push(105);
    r.push(99);
    r.push(45);
    r.push(104);
    r.push(97);
    r.push(115);
    r.push(104);
    r.push(116);
    r.push(114);
    r.push(101);
    r.push(101);
    r.push(45);
    r.push(101);
    r.push(109);
    r.push(112);
    r.push(116);
    r.push(121);
    assert(r@ =~= dsep_empty());
    r
}

fn dsep_fork_vec() -> (r: Vec<u8>)
    ensures
        r@ == dsep_fork(),
{
    let mut r: Vec<u8> = Vec::new();
    r.push(16);
    r.push(105);
    r.push(99);
    r.push(45);
    r.push(104);
    r.push(97);
    r.push(115);
    r.push(104);
    r.push(116);
    r.push(114);
    r.push(101);
    r.push(101);
    r.push(45);
    r.push(102);
    r.push(111);
    r.push(114);
    r.push(107);
    assert(r@ =~= dsep_fork());
    r
}

fn dsep_labeled_vec() -> (r: Vec<u8>)
    ensures
        r@ == dsep_labeled(),
{
    let mut r: Vec<u8> = Vec::new();
    r.push(19);
    r.push(105);
    r.push(99);
    r.push(45);
    r.push(104);
    r.push(97);
    r.push(115);
    r.push(104);
    r.push(116);
    r.push(114);
    r.push(101);
    r.push(101);
    r.push(45);
    r.push(108);
    r.push(97);
    r.push(98);
    r.push(101);
    r.push(108);
    r.push(101);
    r.push(100);
    assert(r@ =~= dsep_labeled());
    r
}

fn dsep_leaf_vec() -> (r: Vec<u8>)
    ensures
        r@ == dsep_leaf(),
{
    let mut r: Vec<u8> = Vec::new();
    r.push(16);
    r.push(105);
    r.push(99);
    r.push(45);
    r.push(104);
    r.push(97);
    r.push(115);
    r.push(104);
    r.push(116);
    r.push(114);
    r.push(101);
    r.push(101);
    r.push(45);
    r.push(108);
    r.push(101);
    r.push(97);
    r.push(102);
    assert(r@ =~= dsep_leaf());
    r
}

/// The digest of a tree: a fixed constant for `Empty`, the domain-separated
/// hash of the contents for `Leaf`, `Labeled` and `Fork` — a composite node's
/// digest depends on its children only through their digests — and the carried
/// digest for `Pruned`.
pub open spec fn digest_m(t: TreeModel) -> Seq<u8>
    decreases t,
{
    match t {
        TreeModel::Empty => sha256_of(dsep_empty()),
        TreeModel::Leaf(b) => sha256_of(dsep_leaf() + b),
        TreeModel::Labeled(l, sub) => sha256_of(dsep_labeled() + l + digest_m(*sub)),
        TreeModel::Fork(a, b) => sha256_of(dsep_fork() + digest_m(*a) + digest_m(*b)),
        TreeModel::Pruned(d) => d,
    }
}

/// The label path of a lookup, as a sequence of byte strings.
pub open spec fn labels_model(path: Seq<Vec<u8>>) -> Seq<Seq<u8>> {
    Seq::new(path.len(), |i: int| path[i]@)
}

/// The outcome of a path lookup, at the model level.
pub enum LookupM {
    Found(Seq<u8>),
    Absent,
    Unknown,
    Error,
}

/// The outcome of a path lookup: the value's bytes, a proven absence, not
/// enough revealed structure to decide (`Unknown`), or a structurally invalid
/// path for this tree (`Error`).
#[derive(Debug, PartialEq, Eq)]
pub enum LookupResult {
    Found(Vec<u8>),
    Absent,
    Unknown,
    Error,
}

impl View for LookupResult {
    type V = LookupM;

    open spec fn view(&self) -> LookupM {
        match self {
            LookupResult::Found(b) => LookupM::Found(b@),
            LookupResult::Absent => LookupM::Absent,
            LookupResult::Unknown => LookupM::Unknown,
            LookupResult::Error => LookupM::Error,
        }
    }
}

/// How the outcomes of the two sides of a fork combine: a hit on either side
/// wins; otherwise a structural error, then an undecided side, dominates, and
/// only two proven absences make an absence.
pub open spec fn combine_m(a: LookupM, b: LookupM) -> LookupM {
    match a {
        LookupM::Found(_) => a,
        _ => match b {
            LookupM::Found(_) => b,
            _ => {
                if a is Error || b is Error {
                    LookupM::Error
                } else if a is Unknown || b is Unknown {
                    LookupM::Unknown
                } else {
                    LookupM::Absent
                }
            },
        },
    }
}

/// Path lookup from depth `d`: walks `Labeled` nodes that match the next
/// path segment and both sides of every `Fork`. A traversal through `Empty`
/// is a proven absence; one that reaches `Pruned` is `Unknown`, never
/// `Absent`; a path that runs out, or runs into a leaf, before the tree does
/// is an `Error`.
pub open spec fn lookup_m(path: Seq<Seq<u8>>, d: int, t: TreeModel) -> LookupM
    decreases t,
{
    match t {
        TreeModel::Empty => LookupM::Absent,
        TreeModel::Pruned(_) => LookupM::Unknown,
        TreeModel::Leaf(b) => if d == path.len() {
            LookupM::Found(b)
        } else {
            LookupM::Error
        },
        TreeModel::Labeled(l, sub) => if d == path.len() {
            LookupM::Error
        } else if path[d] == l {
            lookup_m(path, d + 1, *sub)
        } else {
            LookupM::Absent
        },
        TreeModel::Fork(a, b) => if d == path.len() {
            LookupM::Error
        } else {
            combine_m(lookup_m(path, d, *a), lookup_m(path, d, *b))
        },
    }
}

fn combine(a: LookupResult, b: LookupResult) -> (r: LookupResult)
    ensures
        r@ == combine_m(a@, b@),
{
    match a {
        LookupResult::Found(_) => a,
        _ => match b {
            LookupResult::Found(_) => b,
            _ => {
                if matches!(a, LookupResult::Error) || matches!(b, LookupResult::Error) {
                    LookupResult::Error
                } else if matches!(a, LookupResult::Unknown) || matches!(b, LookupResult::Unknown) {
                    LookupResult::Unknown
                } else {
                    LookupResult::Absent
                }
            },
        },
    }
}

impl HashTree {
    /// The digest of this tree.
    pub fn digest(&self) -> (r: [u8; 32])
        ensures
            r@ == digest_m(self@),
        decreases *self,
    {
        match self {
            HashTree::Empty => {
                let buf = dsep_empty_vec();
                sha256(&buf)
            },
            HashTree::Leaf(b) => {
                let mut buf = dsep_leaf_vec();
                push_all(&mut buf, b.as_slice());
                sha256(&buf)
            },
            HashTree::Labeled(l, sub) => {
                let mut buf = dsep_labeled_vec();
                push_all(&mut buf, l.as_slice());
                let d = sub.digest();
                push_all(&mut buf, d.as_slice());
                assert(buf@ == dsep_labeled() + l@ + digest_m(sub@));
                sha256(&buf)
            },
            HashTree::Fork(a, b) => {
                let mut buf = dsep_fork_vec();
                let da = a.digest();
                push_all(&mut buf, da.as_slice());
                let db = b.digest();
                push_all(&mut buf, db.as_slice());
                assert(buf@ == dsep_fork() + digest_m(a@) + digest_m(b@));
                sha256(&buf)
            },
            HashTree::Pruned(d) => *d,
        }
    }

    /// Look up `path` in this tree, starting at its root.
    pub fn lookup_path(&self, path: &Vec<Vec<u8>>) -> (r: LookupResult)
        ensures
            r@ == lookup_m(labels_model(path@), 0, self@),
    {
        self.lookup_from(path, 0)
    }

    fn lookup_from(&self, path: &Vec<Vec<u8>>, d: usize) -> (r: LookupResult)
        requires
            d <= path@.len(),
        ensures
            r@ == lookup_m(labels_model(path@), d as int, self@),
        decreases *self,
    {
        match self {
            HashTree::Empty => LookupResult::Absent,
            HashTree::Pruned(_) => LookupResult::Unknown,
            HashTree::Leaf(b) => {
                if d == path.len() {
                    LookupResult::Found(clone_bytes(b))
                } else {
                    LookupResult::Error
                }
            },
            HashTree::Labeled(l, sub) => {
                if d == path.len() {
                    LookupResult::Error
                } else if crate::bytes::eq_bytes(l.as_slice(), path[d].as_slice()) {
                    assert(labels_model(path@)[d as int] == l@);
                    sub.lookup_from(path, d + 1)
                } else {
                    assert(labels_model(path@)[d as int] != l@);
                    LookupResult::Absent
                }
            },
            HashTree::Fork(a, b) => {
                if d == path.len() {
                    LookupResult::Error
                } else {
                    let ra = a.lookup_from(path, d);
                    let rb = b.lookup_from(path, d);
                    combine(ra, rb)
                }
            },
        }
    }
}

/// A copy of a byte string.
pub fn clone_bytes(b: &Vec<u8>) -> (r: Vec<u8>)
    ensures
        r@ == b@,
{
    let mut r: Vec<u8> = Vec::new();
    push_all(&mut r, b.as_slice());
    assert(r@ =~= b@);
    r
}

} // verus!
