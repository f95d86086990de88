//! The authenticated store: an ordered two-level mapping — top-level byte
//! labels, each holding records keyed by an assigned 64-bit index — kept in
//! one-to-one correspondence with a hash tree whose root digest is recomputed
//! after every mutation and cached for publication.

use vstd::prelude::*;
use crate::bytes::{
    be_bytes, be_bytes_m, lemma_be_injective, lemma_be_order, lemma_lex_less_ne, lemma_lex_trans,
    lex_cmp, lex_less, Ord3,
};
use crate::tree::{clone_bytes, digest_m, lookup_m, HashTree, LookupM, TreeModel};

verus! {

/// One stored record: the assigned index, whose 8-byte big-endian encoding
/// is the record's label in the tree, and the payload bytes.
pub struct Record {
    pub index: u64,
    pub value: Vec<u8>,
}

/// One top-level entry: a label and its records, ordered by index.
pub struct Group {
    pub label: Vec<u8>,
    pub records: Vec<Record>,
}

/// The store: groups ordered by label, a strictly increasing index counter,
/// and the cached root digest republished after every mutation.
pub struct AuthenticatedStore {
    pub groups: Vec<Group>,
    pub next_index: u64,
    pub root: [u8; 32],
}

/// The tree node of one record: its index's byte encoding over the payload.
pub open spec fn record_node(r: Record) -> TreeModel {
    TreeModel::Labeled(be_bytes_m(r.index), Box::new(TreeModel::Leaf(r.value@)))
}

/// The tree of the records from position `i` on: a right-leaning spine of
/// forks, one labeled node per record, `Empty` for none.
pub open spec fn records_model(rs: Seq<Record>, i: int) -> TreeModel
    decreases rs.len() - i when 0 <= i
{
    if i >= rs.len() {
        TreeModel::Empty
    } else if i == rs.len() - 1 {
        record_node(rs[i])
    } else {
        TreeModel::Fork(Box::new(record_node(rs[i])), Box::new(records_model(rs, i + 1)))
    }
}

/// The tree node of one group: its label over its records' tree.
pub open spec fn group_node(g: Group) -> TreeModel {
    TreeModel::Labeled(g.label@, Box::new(records_model(g.records@, 0)))
}

/// The tree of the groups from position `i` on, shaped as the records' spine.
pub open spec fn groups_model(gs: Seq<Group>, i: int) -> TreeModel
    decreases gs.len() - i when 0 <= i
{
    if i >= gs.len() {
        TreeModel::Empty
    } else if i == gs.len() - 1 {
        group_node(gs[i])
    } else {
        TreeModel::Fork(Box::new(group_node(gs[i])), Box::new(groups_model(gs, i + 1)))
    }
}

/// The whole store as a tree.
pub open spec fn store_model(s: AuthenticatedStore) -> TreeModel {
    groups_model(s.groups@, 0)
}

/// The records of one group as a mapping from index to payload.
pub open spec fn records_map(rs: Seq<Record>) -> Map<u64, Seq<u8>>
    decreases rs.len(),
{
    if rs.len() == 0 {
        Map::empty()
    } else {
        records_map(rs.drop_last()).insert(rs.last().index, rs.last().value@)
    }
}

/// The store's content as a mapping from label to inner mapping.
pub open spec fn groups_map(gs: Seq<Group>) -> Map<Seq<u8>, Map<u64, Seq<u8>>>
    decreases gs.len(),
{
    if gs.len() == 0 {
        Map::empty()
    } else {
        groups_map(gs.drop_last()).insert(gs.last().label@, records_map(gs.last().records@))
    }
}

/// Record indices strictly increase along a group.
pub open spec fn sorted_records(rs: Seq<Record>) -> bool {
    forall|i: int, j: int| 0 <= i < j < rs.len() ==> rs[i].index < rs[j].index
}

/// Group labels strictly increase, in byte-lexicographic order.
pub open spec fn sorted_groups(gs: Seq<Group>) -> bool {
    forall|i: int, j: int| 0 <= i < j < gs.len()
        ==> lex_less(gs[i].label@, gs[j].label@)
}

/// Every record index was assigned from the counter.
pub open spec fn indices_bounded(gs: Seq<Group>, bound: u64) -> bool {
    forall|i: int, j: int| 0 <= i < gs.len() && 0 <= j < gs[i].records@.len()
        ==> gs[i].records@[j].index <= bound
}

impl AuthenticatedStore {
    /// Well-formedness: ordered groups and records, counter-bounded indices,
    /// and a cached root digest equal to the digest of the rebuilt tree.
    pub open spec fn wf(self) -> bool {
        &&& self.root@ == digest_m(store_model(self))
        &&& sorted_groups(self.groups@)
        &&& (forall|i: int| 0 <= i < self.groups@.len()
            ==> sorted_records(#[trigger] self.groups@[i].records@))
        &&& indices_bounded(self.groups@, self.next_index)
    }

    /// The store's content, as nested mappings.
    pub open spec fn as_map(self) -> Map<Seq<u8>, Map<u64, Seq<u8>>> {
        groups_map(self.groups@)
    }

    /// An empty store.
    pub fn new() -> (s: Self)
        ensures
            s.wf(),
            s.as_map() == Map::<Seq<u8>, Map<u64, Seq<u8>>>::empty(),
            s.next_index == 0,
    {
        let t = HashTree::Empty;
        let root = t.digest();
        let s = AuthenticatedStore { groups: Vec::new(), next_index: 0, root };
        proof {
            assert(store_model(s) == TreeModel::Empty);
        }
        s
    }

    /// The published root digest: always that of the full tree.
    pub fn root_digest(&self) -> (r: [u8; 32])
        requires
            self.wf(),
        ensures
            r@ == digest_m(store_model(*self)),
    {
        self.root
    }

    /// Rebuild the full authenticated tree from the store's content.
    pub fn as_hash_tree(&self) -> (t: HashTree)
        ensures
            t@ == store_model(*self),
    {
        groups_tree(&self.groups, 0)
    }
}

pub(crate) fn record_tree(r: &Record) -> (t: HashTree)
    ensures
        t@ == record_node(*r),
{
    let leaf = HashTree::Leaf(clone_bytes(&r.value));
    assert(leaf@ == TreeModel::Leaf(r.value@));
    let t = HashTree::Labeled(be_bytes(r.index), Box::new(leaf));
    assert(t@ == record_node(*r));
    t
}

pub(crate) fn records_tree(rs: &Vec<Record>, i: usize) -> (t: HashTree)
    requires
        i <= rs@.len(),
    ensures
        t@ == records_model(rs@, i as int),
    decreases rs@.len() - i,
{
    if i >= rs.len() {
        HashTree::Empty
    } else if i == rs.len() - 1 {
        record_tree(&rs[i])
    } else {
        HashTree::Fork(
            Box::new(record_tree(&rs[i])),
            Box::new(records_tree(rs, i + 1)),
        )
    }
}

pub(crate) fn group_tree(g: &Group) -> (t: HashTree)
    ensures
        t@ == group_node(*g),
{
    HashTree::Labeled(clone_bytes(&g.label), Box::new(records_tree(&g.records, 0)))
}

pub(crate) fn groups_tree(gs: &Vec<Group>, i: usize) -> (t: HashTree)
    requires
        i <= gs@.len(),
    ensures
        t@ == groups_model(gs@, i as int),
    decreases gs@.len() - i,
{
    if i >= gs.len() {
        HashTree::Empty
    } else if i == gs.len() - 1 {
        group_tree(&gs[i])
    } else {
        HashTree::Fork(
            Box::new(group_tree(&gs[i])),
            Box::new(groups_tree(gs, i + 1)),
        )
    }
}

/// Appending a record updates the group's mapping at its index.
proof fn lemma_records_map_push(rs: Seq<Record>, r: Record)
    ensures
        records_map(rs.push(r)) == records_map(rs).insert(r.index, r.value@),
{
    assert(rs.push(r).drop_last() =~= rs);
    assert(rs.push(r).last() == r);
}

/// An index is in the mapping exactly when some record carries it.
proof fn lemma_records_map_contains(rs: Seq<Record>, k: u64)
    ensures
        records_map(rs).contains_key(k)
            <==> exists|j: int| 0 <= j < rs.len() && rs[j].index == k,
    decreases rs.len(),
{
    if rs.len() == 0 {
    } else {
        lemma_records_map_contains(rs.drop_last(), k);
        if rs.last().index == k {
            assert(rs[rs.len() - 1].index == k);
        } else if records_map(rs).contains_key(k) {
            let j = choose|j: int| 0 <= j < rs.len() - 1 && rs.drop_last()[j].index == k;
            assert(rs[j].index == k);
        } else {
            if exists|j: int| 0 <= j < rs.len() && rs[j].index == k {
                let j = choose|j: int| 0 <= j < rs.len() && rs[j].index == k;
                assert(0 <= j < rs.len() - 1 && rs.drop_last()[j].index == k);
            }
        }
    }
}

/// With distinct indices, the mapping reads back each record's payload.
proof fn lemma_records_map_value(rs: Seq<Record>, j: int)
    requires
        sorted_records(rs),
        0 <= j < rs.len(),
    ensures
        records_map(rs).contains_key(rs[j].index),
        records_map(rs)[rs[j].index] == rs[j].value@,
    decreases rs.len(),
{
    if j == rs.len() - 1 {
    } else {
        assert(rs[j].index < rs.last().index);
        lemma_records_map_value(rs.drop_last(), j);
        assert(rs.drop_last()[j] == rs[j]);
    }
}

/// A label is in the store's mapping exactly when some group carries it.
proof fn lemma_groups_map_contains(gs: Seq<Group>, l: Seq<u8>)
    ensures
        groups_map(gs).contains_key(l)
            <==> exists|j: int| 0 <= j < gs.len() && gs[j].label@ == l,
    decreases gs.len(),
{
    if gs.len() == 0 {
    } else {
        lemma_groups_map_contains(gs.drop_last(), l);
        if gs.last().label@ == l {
            assert(gs[gs.len() - 1].label@ == l);
        } else if groups_map(gs).contains_key(l) {
            let j = choose|j: int| 0 <= j < gs.len() - 1 && gs.drop_last()[j].label@ == l;
            assert(gs[j].label@ == l);
        } else {
            if exists|j: int| 0 <= j < gs.len() && gs[j].label@ == l {
                let j = choose|j: int| 0 <= j < gs.len() && gs[j].label@ == l;
                assert(0 <= j < gs.len() - 1 && gs.drop_last()[j].label@ == l);
            }
        }
    }
}

/// Labels of a sorted group sequence are pairwise distinct.
proof fn lemma_sorted_distinct(gs: Seq<Group>, i: int, j: int)
    requires
        sorted_groups(gs),
        0 <= i < gs.len(),
        0 <= j < gs.len(),
        i != j,
    ensures
        gs[i].label@ != gs[j].label@,
{
    if i < j {
        lemma_lex_less_ne(gs[i].label@, gs[j].label@);
    } else {
        lemma_lex_less_ne(gs[j].label@, gs[i].label@);
    }
}

/// With distinct labels, the store's mapping reads back each group's records.
proof fn lemma_groups_map_value(gs: Seq<Group>, j: int)
    requires
        sorted_groups(gs),
        0 <= j < gs.len(),
    ensures
        groups_map(gs).contains_key(gs[j].label@),
        groups_map(gs)[gs[j].label@] == records_map(gs[j].records@),
    decreases gs.len(),
{
    if j == gs.len() - 1 {
    } else {
        lemma_sorted_distinct(gs, j, gs.len() - 1);
        lemma_groups_map_value(gs.drop_last(), j);
        assert(gs.drop_last()[j] == gs[j]);
    }
}

/// Replacing one group's records updates the mapping at that label alone.
proof fn lemma_groups_map_update(gs: Seq<Group>, p: int, g2: Group)
    requires
        sorted_groups(gs),
        0 <= p < gs.len(),
        g2.label@ == gs[p].label@,
    ensures
        groups_map(gs.update(p, g2))
            == groups_map(gs).insert(gs[p].label@, records_map(g2.records@)),
    decreases gs.len(),
{
    let gs2 = gs.update(p, g2);
    if p == gs.len() - 1 {
        assert(gs2.drop_last() =~= gs.drop_last());
        assert(gs2.last() == g2);
        assert(groups_map(gs2) =~= groups_map(gs).insert(gs[p].label@, records_map(g2.records@)));
    } else {
        assert(gs2.drop_last() =~= gs.drop_last().update(p, g2));
        assert(gs2.last() == gs.last());
        assert(sorted_groups(gs.drop_last()));
        lemma_groups_map_update(gs.drop_last(), p, g2);
        lemma_sorted_distinct(gs, p, gs.len() - 1);
        assert(groups_map(gs2) =~= groups_map(gs).insert(gs[p].label@, records_map(g2.records@)));
    }
}

/// Inserting a group under a fresh label adds one entry to the mapping.
proof fn lemma_groups_map_insert(gs: Seq<Group>, p: int, g: Group)
    requires
        0 <= p <= gs.len(),
        forall|j: int| 0 <= j < gs.len() ==> gs[j].label@ != g.label@,
    ensures
        groups_map(gs.insert(p, g))
            == groups_map(gs).insert(g.label@, records_map(g.records@)),
    decreases gs.len(),
{
    let gs2 = gs.insert(p, g);
    if p == gs.len() {
        assert(gs2.drop_last() =~= gs);
        assert(gs2.last() == g);
        assert(groups_map(gs2) =~= groups_map(gs).insert(g.label@, records_map(g.records@)));
    } else {
        assert(gs2.drop_last() =~= gs.drop_last().insert(p, g));
        assert(gs2.last() == gs.last());
        lemma_groups_map_insert(gs.drop_last(), p, g);
        assert(gs[gs.len() - 1].label@ != g.label@);
        assert(groups_map(gs2) =~= groups_map(gs).insert(g.label@, records_map(g.records@)));
    }
}

/// Where a lookup landed: the position of the label, or the sorted position
/// at which it is provably absent.
fn find_group(groups: &Vec<Group>, label: &Vec<u8>) -> (r: (usize, bool))
    requires
        sorted_groups(groups@),
    ensures
        r.0 <= groups@.len(),
        r.1 ==> r.0 < groups@.len() && groups@[r.0 as int].label@ == label@,
        !r.1 ==> forall|q: int| 0 <= q < groups@.len() ==> groups@[q].label@ != label@,
        !r.1 ==> forall|q: int| 0 <= q < r.0 ==> lex_less(groups@[q].label@, label@),
        !r.1 && r.0 < groups@.len() ==> lex_less(label@, groups@[r.0 as int].label@),
{
    let mut p: usize = 0;
    while p < groups.len()
        invariant
            p <= groups@.len(),
            sorted_groups(groups@),
            forall|q: int| 0 <= q < p ==> lex_less(#[trigger] groups@[q].label@, label@),
        decreases groups@.len() - p,
    {
        let g = &groups[p];
        let c = lex_cmp(g.label.as_slice(), label.as_slice());
        match c {
            Ord3::Eq => {
                return (p, true);
            },
            Ord3::Gt => {
                proof {
                    assert forall|q: int| 0 <= q < groups@.len() implies groups@[q].label@
                        != label@ by {
                        if q < p {
                            lemma_lex_less_ne(groups@[q].label@, label@);
                        } else if q == p {
                            lemma_lex_less_ne(label@, groups@[q].label@);
                        } else {
                            lemma_lex_trans(label@, groups@[p as int].label@, groups@[q].label@);
                            lemma_lex_less_ne(label@, groups@[q].label@);
                        }
                    }
                }
                return (p, false);
            },
            Ord3::Lt => {
                p += 1;
            },
        }
    }
    proof {
        assert forall|q: int| 0 <= q < groups@.len() implies groups@[q].label@ != label@ by {
            lemma_lex_less_ne(groups@[q].label@, label@);
        }
    }
    (p, false)
}

fn find_record(rs: &Vec<Record>, index: u64) -> (r: Option<usize>)
    ensures
        match r {
            Some(j) => j < rs@.len() && rs@[j as int].index == index,
            None => forall|q: int| 0 <= q < rs@.len() ==> rs@[q].index != index,
        },
{
    let mut p: usize = 0;
    while p < rs.len()
        invariant
            p <= rs@.len(),
            forall|q: int| 0 <= q < p ==> rs@[q].index != index,
        decreases rs@.len() - p,
    {
        if rs[p].index == index {
            return Some(p);
        }
        p += 1;
    }
    None
}

/// The inner mapping at a label, or the empty one where the label is new.
pub open spec fn inner_or_empty(m: Map<Seq<u8>, Map<u64, Seq<u8>>>, l: Seq<u8>) -> Map<
    u64,
    Seq<u8>,
> {
    if m.contains_key(l) {
        m[l]
    } else {
        Map::empty()
    }
}

impl AuthenticatedStore {
    /// Insert a value under `top_label`, assigning the next index — indices
    /// start at 1 and increase by one per insertion, store-wide — creating
    /// the group if the label is new, and recompute and republish the root
    /// digest.
    pub fn insert_or_update(&mut self, top_label: &Vec<u8>, value: Vec<u8>) -> (idx: u64)
        requires
            old(self).wf(),
            old(self).next_index < u64::MAX,
        ensures
            final(self).wf(),
            idx == old(self).next_index + 1,
            final(self).next_index == idx,
            final(self).as_map() == old(self).as_map().insert(
                top_label@,
                inner_or_empty(old(self).as_map(), top_label@).insert(idx, value@),
            ),
    {
        let idx = self.next_index + 1;
        let ghost gs0 = self.groups@;
        let ghost m0 = self.as_map();
        let (p, found) = find_group(&self.groups, top_label);
        if found {
            let mut g = self.groups.remove(p);
            g.records.push(Record { index: idx, value });
            self.groups.insert(p, g);
            proof {
                let g2 = self.groups@[p as int];
                assert(self.groups@ =~= gs0.update(p as int, g2));
                assert(g2.records@ == gs0[p as int].records@.push(g2.records@.last()));
                lemma_records_map_push(
                    gs0[p as int].records@,
                    g2.records@.last(),
                );
                lemma_groups_map_value(gs0, p as int);
                lemma_groups_map_update(gs0, p as int, g2);
                assert(self.as_map() =~= m0.insert(
                    top_label@,
                    inner_or_empty(m0, top_label@).insert(idx, g2.records@.last().value@),
                )) by {
                    lemma_groups_map_contains(gs0, top_label@);
                }
                // sortedness of the updated group
                assert forall|i: int, j: int|
                    0 <= i < j < g2.records@.len() implies g2.records@[i].index
                    < g2.records@[j].index by {
                    if j < g2.records@.len() - 1 {
                        assert(gs0[p as int].records@[i].index < gs0[p as int].records@[j].index);
                    }
                }
                assert forall|i: int| 0 <= i < self.groups@.len() implies sorted_records(
                    #[trigger] self.groups@[i].records@,
                ) by {
                    if i != p {
                        assert(self.groups@[i] == gs0[i]);
                    }
                }
            }
        } else {
            let mut records: Vec<Record> = Vec::new();
            records.push(Record { index: idx, value });
            let g = Group { label: clone_bytes(top_label), records };
            self.groups.insert(p, g);
            proof {
                let g2 = self.groups@[p as int];
                assert(self.groups@ =~= gs0.insert(p as int, g2));
                assert(g2.records@ =~= Seq::<Record>::empty().push(g2.records@.last()));
                lemma_records_map_push(Seq::<Record>::empty(), g2.records@.last());
                lemma_groups_map_insert(gs0, p as int, g2);
                lemma_groups_map_contains(gs0, top_label@);
                assert(self.as_map() =~= m0.insert(
                    top_label@,
                    inner_or_empty(m0, top_label@).insert(idx, g2.records@.last().value@),
                ));
                // sortedness of the extended group sequence
                assert forall|i: int, j: int|
                    0 <= i < j < self.groups@.len() implies lex_less(
                    self.groups@[i].label@,
                    self.groups@[j].label@,
                ) by {
                    let gs2 = self.groups@;
                    if j < p {
                        assert(gs2[i] == gs0[i] && gs2[j] == gs0[j]);
                    } else if j == p {
                        assert(gs2[i] == gs0[i]);
                        assert(lex_less(gs0[i].label@, top_label@));
                    } else if i < p {
                        assert(gs2[i] == gs0[i] && gs2[j] == gs0[j - 1]);
                    } else if i == p {
                        assert(gs2[j] == gs0[j - 1]);
                        assert(lex_less(top_label@, gs0[p as int].label@));
                        if j - 1 > p {
                            lemma_lex_trans(
                                top_label@,
                                gs0[p as int].label@,
                                gs0[j - 1].label@,
                            );
                        }
                    } else {
                        assert(gs2[i] == gs0[i - 1] && gs2[j] == gs0[j - 1]);
                    }
                }
                assert forall|i: int| 0 <= i < self.groups@.len() implies sorted_records(
                    #[trigger] self.groups@[i].records@,
                ) by {
                    if i < p {
                        assert(self.groups@[i] == gs0[i]);
                    } else if i > p {
                        assert(self.groups@[i] == gs0[i - 1]);
                    }
                }
            }
        }
        self.next_index = idx;
        let t = groups_tree(&self.groups, 0);
        self.root = t.digest();
        proof {
            assert(indices_bounded(self.groups@, idx)) by {
                assert forall|i: int, j: int|
                    0 <= i < self.groups@.len() && 0 <= j < self.groups@[i].records@.len()
                    implies self.groups@[i].records@[j].index <= idx by {
                    if found {
                        if i == p && j == self.groups@[i].records@.len() - 1 {
                        } else if i == p {
                            assert(self.groups@[i].records@[j] == gs0[i].records@[j]);
                        } else {
                            assert(self.groups@[i] == gs0[i]);
                        }
                    } else {
                        if i < p {
                            assert(self.groups@[i] == gs0[i]);
                        } else if i > p {
                            assert(self.groups@[i] == gs0[i - 1]);
                        }
                    }
                }
            }
        }
        idx
    }

    /// Read the payload stored under `top_label` and `index`, or nothing
    /// where either is absent.
    pub fn get(&self, top_label: &Vec<u8>, index: u64) -> (r: Option<Vec<u8>>)
        requires
            self.wf(),
        ensures
            match r {
                Some(v) => self.as_map().contains_key(top_label@)
                    && self.as_map()[top_label@].contains_key(index)
                    && v@ == self.as_map()[top_label@][index],
                None => !self.as_map().contains_key(top_label@)
                    || !self.as_map()[top_label@].contains_key(index),
            },
    {
        let (p, found) = find_group(&self.groups, top_label);
        if !found {
            proof {
                lemma_groups_map_contains(self.groups@, top_label@);
            }
            return None;
        }
        let g = &self.groups[p];
        proof {
            lemma_groups_map_value(self.groups@, p as int);
        }
        match find_record(&g.records, index) {
            Some(j) => {
                proof {
                    lemma_records_map_value(g.records@, j as int);
                }
                Some(clone_bytes(&g.records[j].value))
            },
            None => {
                proof {
                    lemma_records_map_contains(g.records@, index);
                }
                None
            },
        }
    }
}

/// The two-segment path that identifies one record: the group's label, then
/// the record index's byte encoding.
pub open spec fn record_path_m(label: Seq<u8>, index: u64) -> Seq<Seq<u8>> {
    seq![label, be_bytes_m(index)]
}

proof fn lemma_record_node_lookup(r: Record, path: Seq<Seq<u8>>, index: u64)
    requires
        path.len() == 2,
        path[1] == be_bytes_m(index),
    ensures
        r.index == index ==> lookup_m(path, 1, record_node(r)) == LookupM::Found(r.value@),
        r.index != index ==> lookup_m(path, 1, record_node(r)) == LookupM::Absent,
{
    if r.index == index {
        assert(lookup_m(path, 2, TreeModel::Leaf(r.value@)) == LookupM::Found(r.value@));
    } else {
        if be_bytes_m(r.index) == be_bytes_m(index) {
            lemma_be_injective(r.index, index);
        }
    }
}

proof fn lemma_records_spine_lookup(rs: Seq<Record>, i: int, path: Seq<Seq<u8>>, index: u64)
    requires
        0 <= i,
        sorted_records(rs),
        path.len() == 2,
        path[1] == be_bytes_m(index),
    ensures
        forall|j: int| i <= j < rs.len() && rs[j].index == index
            ==> lookup_m(path, 1, records_model(rs, i)) == LookupM::Found(rs[j].value@),
        (forall|j: int| i <= j < rs.len() ==> rs[j].index != index)
            ==> lookup_m(path, 1, records_model(rs, i)) == LookupM::Absent,
    decreases rs.len() - i,
{
    if i >= rs.len() {
    } else if i == rs.len() - 1 {
        lemma_record_node_lookup(rs[i], path, index);
    } else {
        lemma_record_node_lookup(rs[i], path, index);
        lemma_records_spine_lookup(rs, i + 1, path, index);
        if rs[i].index == index {
            assert(forall|j: int| i + 1 <= j < rs.len() ==> rs[j].index != index);
        }
    }
}

proof fn lemma_group_node_lookup(g: Group, path: Seq<Seq<u8>>, label: Seq<u8>)
    requires
        path.len() == 2,
        path[0] == label,
    ensures
        g.label@ == label ==> lookup_m(path, 0, group_node(g))
            == lookup_m(path, 1, records_model(g.records@, 0)),
        g.label@ != label ==> lookup_m(path, 0, group_node(g)) == LookupM::Absent,
{
}

proof fn lemma_groups_spine_lookup(gs: Seq<Group>, i: int, path: Seq<Seq<u8>>, label: Seq<u8>)
    requires
        0 <= i,
        sorted_groups(gs),
        path.len() == 2,
        path[0] == label,
    ensures
        forall|p: int| i <= p < gs.len() && gs[p].label@ == label
            ==> lookup_m(path, 0, groups_model(gs, i))
            == lookup_m(path, 1, records_model(gs[p].records@, 0)),
        (forall|p: int| i <= p < gs.len() ==> gs[p].label@ != label)
            ==> lookup_m(path, 0, groups_model(gs, i)) == LookupM::Absent,
    decreases gs.len() - i,
{
    if i >= gs.len() {
    } else if i == gs.len() - 1 {
        lemma_group_node_lookup(gs[i], path, label);
    } else {
        lemma_group_node_lookup(gs[i], path, label);
        lemma_groups_spine_lookup(gs, i + 1, path, label);
        if gs[i].label@ == label {
            assert forall|p: int| i + 1 <= p < gs.len() implies gs[p].label@ != label by {
                lemma_lex_less_ne(gs[i].label@, gs[p].label@);
            }
        }
    }
}

/// Law: looking a record's path up in the store's own tree finds exactly
/// what the store's mapping holds there, and where the mapping holds
/// nothing, the tree proves the absence.
pub proof fn lemma_store_tree_lookup(s: AuthenticatedStore, label: Seq<u8>, index: u64)
    requires
        s.wf(),
    ensures
        s.as_map().contains_key(label) && s.as_map()[label].contains_key(index)
            ==> lookup_m(record_path_m(label, index), 0, store_model(s))
            == LookupM::Found(s.as_map()[label][index]),
        !(s.as_map().contains_key(label) && s.as_map()[label].contains_key(index))
            ==> lookup_m(record_path_m(label, index), 0, store_model(s)) == LookupM::Absent,
{
    let path = record_path_m(label, index);
    let gs = s.groups@;
    lemma_groups_map_contains(gs, label);
    lemma_groups_spine_lookup(gs, 0, path, label);
    if s.as_map().contains_key(label) {
        let p = choose|p: int| 0 <= p < gs.len() && gs[p].label@ == label;
        lemma_groups_map_value(gs, p);
        let rs = gs[p].records@;
        lemma_records_map_contains(rs, index);
        lemma_records_spine_lookup(rs, 0, path, index);
        if s.as_map()[label].contains_key(index) {
            let j = choose|j: int| 0 <= j < rs.len() && rs[j].index == index;
            lemma_records_map_value(rs, j);
        }
    }
}

/// Law: records ordered by index are ordered by the byte value of their
/// tree labels too — the fixed-width big-endian key encoding makes the
/// tree's canonical byte order coincide with numeric insertion order.
pub proof fn lemma_record_order_is_byte_order(rs: Seq<Record>)
    requires
        sorted_records(rs),
    ensures
        forall|i: int, j: int| 0 <= i < j < rs.len()
            ==> lex_less(be_bytes_m(rs[i].index), be_bytes_m(rs[j].index)),
{
    assert forall|i: int, j: int| 0 <= i < j < rs.len() implies lex_less(
        be_bytes_m(rs[i].index),
        be_bytes_m(rs[j].index),
    ) by {
        lemma_be_order(rs[i].index, rs[j].index);
    }
}

/// Law: however the store was built up, the cached root digest it publishes
/// equals the digest of the authenticated tree rebuilt from scratch from its
/// content.
pub proof fn lemma_root_matches_rebuilt_tree(s: AuthenticatedStore)
    requires
        s.wf(),
    ensures
        s.root@ == digest_m(store_model(s)),
{
}

} // verus!
