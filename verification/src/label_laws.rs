//! Which nodes carry which labels: what the staged records say, the label
//! lookup and the membership segment say too.

use crate::edge_pass::RelKey;
use crate::edge_pass;
use crate::faults;
use crate::generation::GenerationError;
use crate::id_index::IdEntry;
use crate::id_index;
use crate::label_membership::LabelMembership;
use crate::label_membership;
use crate::live_graph;
use crate::membership_index::LabelEntry;
use crate::membership_index;
use crate::membership_pass;
use crate::records::DeclRecord;
use crate::runs::RecordView;
use crate::sorting;
use crate::staging;
use vstd::prelude::*;

verus! {

/// A staged record lists the labels of a node.
pub open spec fn lists_labels(rec: RecordView, id: u64, labels: Seq<Seq<char>>) -> bool {
    &&& staging::split_row_key(rec.key) is Ok
    &&& staging::split_row_key(rec.key)->Ok_0.1 == id
    &&& staging::decoded_labels(rec.payload) == Ok::<Seq<Seq<char>>, GenerationError>(labels)
}

proof fn lemma_listed(recs: Seq<RecordView>, n: nat)
    requires
        n <= recs.len(),
        live_graph::listed_labels(recs, n) is Ok,
    ensures
        live_graph::listed_labels(recs, n)->Ok_0.len() == n,
        forall|k: int|
            0 <= k < n ==> lists_labels(
                #[trigger] recs[k],
                live_graph::listed_labels(recs, n)->Ok_0[k].0,
                live_graph::listed_labels(recs, n)->Ok_0[k].1,
            ),
    decreases n,
{
    if n > 0 {
        lemma_listed(recs, (n - 1) as nat);
    }
}

proof fn lemma_checked_ascend(v: Seq<LabelEntry>, i: int, j: int)
    requires
        faults::first_fault(v.len(), membership_index::entry_checks(v)) is None,
        0 <= i < j < v.len(),
    ensures
        v[i].0 < v[j].0,
    decreases j - i,
{
    faults::lemma_no_fault(v.len(), membership_index::entry_checks(v));
    assert(membership_index::entry_checks(v)(j) is None);
    if i < j - 1 {
        lemma_checked_ascend(v, i, j - 1);
    }
}

/// A node whose labels a staged record lists carries exactly these, whatever its
/// table; a node of which no record tells carries exactly the label of its
/// table.
pub proof fn lemma_nodes_carry_their_labels(
    physical: Seq<Seq<char>>,
    recs: Seq<RecordView>,
    id: u64,
    table: u16,
    label: Seq<char>,
)
    requires
        live_graph::membership_entries(Some(recs)) is Ok,
    ensures
        forall|k: int, labels: Seq<Seq<char>>|
            0 <= k < recs.len() && #[trigger] lists_labels(recs[k], id, labels) ==> (live_graph::carries_label(
                physical,
                live_graph::membership_entries(Some(recs))->Ok_0,
                id,
                table,
                label,
            ) <==> exists|j: int| 0 <= j < labels.len() && #[trigger] labels[j] == label),
        (forall|k: int, labels: Seq<Seq<char>>|
            0 <= k < recs.len() ==> !(#[trigger] lists_labels(recs[k], id, labels))) ==> (
        live_graph::carries_label(physical, live_graph::membership_entries(Some(recs))->Ok_0, id, table, label) <==> table
            < physical.len() && physical[table as int] == label),
{
    let n = recs.len();
    let v = live_graph::listed_labels(recs, n)->Ok_0;
    let w = live_graph::entries_by_id(v);
    let keys = live_graph::entry_keys(v);
    lemma_listed(recs, n);
    sorting::lemma_stable_order(keys);
    let o = sorting::stable_order(keys);
    assert forall|k: int, labels: Seq<Seq<char>>|
        0 <= k < recs.len() && #[trigger] lists_labels(recs[k], id, labels) implies (live_graph::carries_label(
        physical,
        w,
        id,
        table,
        label,
    ) <==> exists|j: int| 0 <= j < labels.len() && #[trigger] labels[j] == label) by {
        assert(lists_labels(recs[k], v[k].0, v[k].1));
        assert(v[k] == (id, labels));
        assert(o.contains(k));
        let i = choose|i: int| 0 <= i < o.len() && o[i] == k;
        assert(w[i] == v[k]);
        assert(membership_index::has_entry(w, id));
        if membership_index::entry_has_label(w, id, label) {
            let a = choose|a: int| 0 <= a < w.len() && (#[trigger] w[a]).0 == id && w[a].1.contains(
                label,
            );
            if a < i {
                lemma_checked_ascend(w, a, i);
            }
            if i < a {
                lemma_checked_ascend(w, i, a);
            }
            let j = choose|j: int| 0 <= j < w[a].1.len() && w[a].1[j] == label;
            assert(labels[j] == label);
        }
        if exists|j: int| 0 <= j < labels.len() && #[trigger] labels[j] == label {
            let j = choose|j: int| 0 <= j < labels.len() && #[trigger] labels[j] == label;
            assert(w[i].1.contains(label));
        }
    }
    if forall|k: int, labels: Seq<Seq<char>>|
        0 <= k < recs.len() ==> !(#[trigger] lists_labels(recs[k], id, labels)) {
        if membership_index::has_entry(w, id) {
            let i = choose|i: int| 0 <= i < w.len() && (#[trigger] w[i]).0 == id;
            assert(lists_labels(recs[o[i]], v[o[i]].0, v[o[i]].1));
        }
    }
}

/// A record gives a row a label under a code.
pub open spec fn gives_label(
    index: Seq<IdEntry>,
    codes: Map<Seq<char>, u32>,
    rec: RecordView,
    m: LabelMembership,
) -> bool {
    exists|id: u64, labels: Seq<Seq<char>>, j: int|
        {
            &&& #[trigger] lists_labels(rec, id, labels)
            &&& id_index::id_entry_for(index, id) == Some((m.node_table_id, m.node_offset as u64))
            &&& 0 <= j < labels.len()
            &&& codes.dom().contains(#[trigger] labels[j])
            &&& codes[labels[j]] == m.label_code
        }
}

proof fn lemma_node_memberships(
    codes: Map<Seq<char>, u32>,
    table: u16,
    offset: u32,
    labels: Seq<Seq<char>>,
    k: nat,
)
    requires
        k <= labels.len(),
        membership_pass::node_memberships(codes, table, offset, labels, k) is Ok,
    ensures
        membership_pass::node_memberships(codes, table, offset, labels, k)->Ok_0.len() == k,
        forall|j: int|
            0 <= j < k ==> codes.dom().contains(#[trigger] labels[j]) && membership_pass::node_memberships(
                codes,
                table,
                offset,
                labels,
                k,
            )->Ok_0[j] == (LabelMembership {
                node_table_id: table,
                node_offset: offset,
                label_code: codes[labels[j]],
            }),
    decreases k,
{
    if k > 0 {
        lemma_node_memberships(codes, table, offset, labels, (k - 1) as nat);
    }
}

proof fn lemma_record_memberships(
    index: Seq<IdEntry>,
    codes: Map<Seq<char>, u32>,
    rec: RecordView,
    m: LabelMembership,
)
    requires
        membership_pass::record_memberships(index, codes, rec) is Ok,
    ensures
        membership_pass::record_memberships(index, codes, rec)->Ok_0.contains(m) <==> gives_label(
            index,
            codes,
            rec,
            m,
        ),
{
    let id = staging::split_row_key(rec.key)->Ok_0.1;
    let labels = staging::decoded_labels(rec.payload)->Ok_0;
    let x = id_index::id_entry_for(index, id)->0;
    let v = membership_pass::record_memberships(index, codes, rec)->Ok_0;
    assert(lists_labels(rec, id, labels));
    lemma_node_memberships(codes, x.0, x.1 as u32, labels, labels.len());
    if v.contains(m) {
        let j = choose|j: int| 0 <= j < v.len() && v[j] == m;
        assert(codes.dom().contains(labels[j]));
        assert(gives_label(index, codes, rec, m));
    }
    if gives_label(index, codes, rec, m) {
        let (i, l, j) = choose|id: u64, labels: Seq<Seq<char>>, j: int|
            {
                &&& #[trigger] lists_labels(rec, id, labels)
                &&& id_index::id_entry_for(index, id) == Some((m.node_table_id, m.node_offset as u64))
                &&& 0 <= j < labels.len()
                &&& codes.dom().contains(#[trigger] labels[j])
                &&& codes[labels[j]] == m.label_code
            };
        assert(i == id && l == labels);
        assert(codes.dom().contains(labels[j]));
        assert(v[j] == m);
    }
}

proof fn lemma_run_memberships(
    index: Seq<IdEntry>,
    codes: Map<Seq<char>, u32>,
    recs: Seq<RecordView>,
    n: nat,
    m: LabelMembership,
)
    requires
        n <= recs.len(),
        membership_pass::run_memberships(index, codes, recs, n) is Ok,
    ensures
        membership_pass::run_memberships(index, codes, recs, n)->Ok_0.contains(m) <==> exists|k: int|
            0 <= k < n && gives_label(index, codes, #[trigger] recs[k], m),
    decreases n,
{
    if n > 0 {
        let p = (n - 1) as nat;
        lemma_run_memberships(index, codes, recs, p, m);
        lemma_record_memberships(index, codes, recs[n - 1], m);
        let a = membership_pass::run_memberships(index, codes, recs, p)->Ok_0;
        let b = membership_pass::record_memberships(index, codes, recs[n - 1])->Ok_0;
        let c = membership_pass::run_memberships(index, codes, recs, n)->Ok_0;
        assert(c == a + b);
        if a.contains(m) {
            let i = choose|i: int| 0 <= i < a.len() && a[i] == m;
            assert(c[i] == m);
            let k = choose|k: int| 0 <= k < p && gives_label(index, codes, #[trigger] recs[k], m);
            assert(gives_label(index, codes, recs[k], m));
        }
        if b.contains(m) {
            let i = choose|i: int| 0 <= i < b.len() && b[i] == m;
            assert(c[a.len() + i] == m);
            assert(gives_label(index, codes, recs[n - 1], m));
        }
        if c.contains(m) {
            let i = choose|i: int| 0 <= i < c.len() && c[i] == m;
            if i < a.len() {
                assert(a[i] == m);
            } else {
                assert(b[i - a.len()] == m);
            }
        }
        if exists|k: int| 0 <= k < n && gives_label(index, codes, #[trigger] recs[k], m) {
            let k = choose|k: int| 0 <= k < n && gives_label(index, codes, #[trigger] recs[k], m);
            if k < p {
                assert(gives_label(index, codes, recs[k], m));
            }
        }
    }
}

/// The membership segment that is written holds a row under a label exactly
/// where a staged record gives the node of that row the label.
pub proof fn lemma_membership_segment_holds_the_labels(
    index: Seq<IdEntry>,
    codes: Map<Seq<char>, u32>,
    recs: Seq<RecordView>,
    m: LabelMembership,
)
    requires
        membership_pass::membership_bytes(index, codes, recs) is Ok,
    ensures
        label_membership::memberships_of(membership_pass::membership_bytes(index, codes, recs)->Ok_0).contains(m) <==> exists|k: int|
            0 <= k < recs.len() && gives_label(index, codes, #[trigger] recs[k], m),
{
    let v = membership_pass::run_memberships(index, codes, recs, recs.len())->Ok_0;
    let w = membership_pass::sorted_memberships(v);
    let keys = membership_pass::membership_keys(v);
    lemma_run_memberships(index, codes, recs, recs.len(), m);
    label_membership::lemma_membership_segment_round_trip(w);
    sorting::lemma_stable_order(keys);
    let o = sorting::stable_order(keys);
    if v.contains(m) {
        let k = choose|k: int| 0 <= k < v.len() && v[k] == m;
        assert(o.contains(k));
        let i = choose|i: int| 0 <= i < o.len() && o[i] == k;
        assert(w[i] == m);
    }
    if w.contains(m) {
        let i = choose|i: int| 0 <= i < w.len() && w[i] == m;
        assert(v[o[i]] == m);
    }
}

/// A type's declaration is the last one for it; a type without one has none.
pub proof fn lemma_last_declaration_counts(decls: Seq<DeclRecord>, edge_type: Seq<char>)
    ensures
        match edge_pass::declared(decls, edge_type) {
            Some(d) => exists|i: int|
                {
                    &&& 0 <= i < decls.len()
                    &&& #[trigger] decls[i] == d
                    &&& d.edge_type == edge_type
                    &&& forall|j: int|
                        i < j < decls.len() ==> (#[trigger] decls[j]).edge_type != edge_type
                },
            None => forall|j: int|
                0 <= j < decls.len() ==> (#[trigger] decls[j]).edge_type != edge_type,
        },
    decreases decls.len(),
{
    if decls.len() > 0 {
        let w = decls.drop_last();
        if decls.last().edge_type == edge_type {
            assert(decls[decls.len() - 1] == decls.last());
        } else {
            lemma_last_declaration_counts(w, edge_type);
            match edge_pass::declared(w, edge_type) {
                Some(d) => {
                    let i = choose|i: int|
                        {
                            &&& 0 <= i < w.len()
                            &&& #[trigger] w[i] == d
                            &&& d.edge_type == edge_type
                            &&& forall|j: int|
                                i < j < w.len() ==> (#[trigger] w[j]).edge_type != edge_type
                        };
                    assert(decls[i] == d);
                    assert forall|j: int| i < j < decls.len() implies (
                    #[trigger] decls[j]).edge_type != edge_type by {
                        if j < w.len() {
                            assert(w[j] == decls[j]);
                        }
                    }
                },
                None => {
                    assert forall|j: int| 0 <= j < decls.len() implies (
                    #[trigger] decls[j]).edge_type != edge_type by {
                        if j < w.len() {
                            assert(w[j] == decls[j]);
                        }
                    }
                },
            }
        }
    }
}

/// Every edge that was placed joins nodes that carry the labels of its type's
/// declaration, and an edge that does not is refused.
pub proof fn lemma_declared_edges_join_labels(
    index: Seq<IdEntry>,
    keys: Seq<RelKey>,
    physical: Seq<Seq<char>>,
    entries: Seq<LabelEntry>,
    decls: Seq<DeclRecord>,
    recs: Seq<RecordView>,
    n: nat,
)
    requires
        n <= recs.len(),
    ensures
        edge_pass::forward_records(index, keys, physical, entries, decls, recs, n) is Ok <==> forall|k: int|
            0 <= k < n ==> {
                &&& edge_pass::resolved(index, #[trigger] recs[k]) is Ok
                &&& keys.contains(edge_pass::rel_key_of(edge_pass::resolved(index, recs[k])->Ok_0))
                &&& ({
                    let x = edge_pass::resolved(index, recs[k])->Ok_0;
                    edge_pass::declared(decls, x.edge_type) matches Some(d) ==> live_graph::carries_label(
                        physical,
                        entries,
                        x.src,
                        x.from.0,
                        d.src_label,
                    ) && live_graph::carries_label(physical, entries, x.dst, x.to.0, d.dst_label)
                })
            },
    decreases n,
{
    if n > 0 {
        lemma_declared_edges_join_labels(
            index,
            keys,
            physical,
            entries,
            decls,
            recs,
            (n - 1) as nat,
        );
        assert(recs[n - 1] == recs[n - 1]);
    }
}

} // verus!
