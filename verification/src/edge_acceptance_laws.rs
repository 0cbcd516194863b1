//! Which edges the edge stage accepts.

use crate::acceptance_laws;
use crate::edge_pass::RelKey;
use crate::edge_pass;
use crate::edge_placement_laws;
use crate::emit_ids;
use crate::faults;
use crate::id_index::IdEntry;
use crate::id_index;
use crate::label_laws;
use crate::live_graph;
use crate::node_pass;
use crate::records::{DeclRecord, EdgeRecord, NodeRecord};
use crate::runs::RecordView;
use crate::runs;
use crate::sorting;
use crate::stages::NodeStageView;
use crate::stages;
use crate::staging;
use crate::text;
use crate::wire;
use vstd::prelude::*;

verus! {

/// An edge has both ends, and where its type is declared, its ends carry the
/// labels of the declaration.
pub open spec fn edge_fits(n: NodeStageView, decls: Seq<DeclRecord>, e: EdgeRecord) -> bool {
    &&& id_index::id_entry_for(n.index, e.src) is Some
    &&& id_index::id_entry_for(n.index, e.dst) is Some
    &&& edge_pass::declared(decls, e.edge_type) matches Some(d) ==> live_graph::carries_label(
        n.labels,
        n.entries,
        e.src,
        edge_placement_laws::indexed_place(n.index, e.src).0,
        d.src_label,
    ) && live_graph::carries_label(
        n.labels,
        n.entries,
        e.dst,
        edge_placement_laws::indexed_place(n.index, e.dst).0,
        d.dst_label,
    )
}

/// The tables that edges need, one for each type and pair of end tables.
pub open spec fn tables_needed(n: NodeStageView, edges: Seq<EdgeRecord>) -> Set<RelKey> {
    Set::new(|k: RelKey| exists|i: int| 0 <= i < edges.len() && edge_placement_laws::edge_table(n.index, #[trigger] edges[i]) == k)
}

proof fn lemma_edge_row_resolves(index: Seq<IdEntry>, e: EdgeRecord)
    requires
        edge_pass::edge_fault(e) is None,
    ensures
        edge_pass::resolved(index, edge_pass::edge_row(e)) is Ok <==> id_index::id_entry_for(index, e.src) is Some && id_index::id_entry_for(
            index,
            e.dst,
        ) is Some,
        edge_pass::resolved(index, edge_pass::edge_row(e)) matches Ok(x) ==> {
            &&& x.edge_type == e.edge_type
            &&& x.src == e.src
            &&& x.dst == e.dst
            &&& x.from == id_index::id_entry_for(index, e.src)->Some_0
            &&& x.to == id_index::id_entry_for(index, e.dst)->Some_0
            &&& x.props == staging::properties_record(e.properties)
            &&& edge_pass::rel_key_of(x) == edge_placement_laws::edge_table(index, e)
        },
{
    staging::lemma_row_key_round_trip(e.edge_type, e.id);
    staging::lemma_edge_payload_round_trip(e.src, e.dst, staging::properties_record(e.properties));
}

proof fn lemma_set_of_tables(index: Seq<IdEntry>, recs: Seq<RecordView>, k: nat)
    requires
        k <= recs.len(),
    ensures
        edge_pass::rel_table_set(index, recs, k) is Ok <==> forall|j: int|
            0 <= j < k ==> edge_pass::resolved(index, #[trigger] recs[j]) is Ok,
        edge_pass::rel_table_set(index, recs, k) matches Ok(s) ==> forall|x: RelKey| #[trigger]
            s.contains(x) <==> exists|j: int|
                0 <= j < k && edge_pass::rel_key_of(edge_pass::resolved(index, #[trigger] recs[j])->Ok_0) == x,
    decreases k,
{
    if k > 0 {
        let p = (k - 1) as nat;
        lemma_set_of_tables(index, recs, p);
        if edge_pass::rel_table_set(index, recs, k) is Ok {
            let a = edge_pass::rel_table_set(index, recs, p)->Ok_0;
            let s = edge_pass::rel_table_set(index, recs, k)->Ok_0;
            assert(edge_pass::resolved(index, recs[k - 1]) is Ok);
            assert forall|x: RelKey| #[trigger] s.contains(x) <==> exists|j: int|
                0 <= j < k && edge_pass::rel_key_of(edge_pass::resolved(index, #[trigger] recs[j])->Ok_0) == x by {
                assert(a.contains(x) <==> exists|j: int|
                    0 <= j < p && edge_pass::rel_key_of(edge_pass::resolved(index, #[trigger] recs[j])->Ok_0) == x);
                if edge_pass::rel_key_of(edge_pass::resolved(index, recs[k - 1])->Ok_0) == x {
                    assert(s.contains(x));
                }
            }
        } else if forall|j: int| 0 <= j < k ==> edge_pass::resolved(index, #[trigger] recs[j]) is Ok {
            assert(edge_pass::resolved(index, recs[k - 1]) is Ok);
        }
    }
}

proof fn lemma_forward_shapes(
    n: NodeStageView,
    keys: Seq<RelKey>,
    decls: Seq<DeclRecord>,
    recs: Seq<RecordView>,
    k: nat,
)
    requires
        k <= recs.len(),
        edge_pass::forward_records(n.index, keys, n.labels, n.entries, decls, recs, k) is Ok,
        forall|j: int|
            0 <= j < k ==> edge_pass::resolved(n.index, #[trigger] recs[j]) is Ok && node_pass::row_properties(
                edge_pass::resolved(n.index, recs[j])->Ok_0.props,
            ) is Ok,
    ensures
        ({
            let f = edge_pass::forward_records(n.index, keys, n.labels, n.entries, decls, recs, k)->Ok_0;
            f.len() == k && forall|j: int|
                0 <= j < k ==> (#[trigger] f[j]).key.len() == 26 && node_pass::row_properties(
                    f[j].payload,
                ) is Ok
        }),
    decreases k,
{
    broadcast use wire::group_wire;

    if k > 0 {
        lemma_forward_shapes(n, keys, decls, recs, (k - 1) as nat);
        assert(edge_pass::resolved(n.index, recs[k - 1]) is Ok);
    }
}

proof fn lemma_occurrences_go_through(recs: Seq<RecordView>, tagged: bool, k: nat)
    requires
        k <= recs.len(),
        forall|j: int|
            0 <= j < k ==> (#[trigger] recs[j]).key.len() == 26 && node_pass::row_properties(
                recs[j].payload,
            ) is Ok,
    ensures
        edge_pass::occurrences_after(recs, tagged, k) is Ok,
    decreases k,
{
    if k > 0 {
        lemma_occurrences_go_through(recs, tagged, (k - 1) as nat);
        assert(recs[k - 1].key.len() == 26);
    }
}

proof fn lemma_counts_go_through(recs: Seq<RecordView>, tables: nat, k: nat)
    requires
        k <= recs.len(),
        forall|j: int| 0 <= j < k ==> (#[trigger] recs[j]).key.len() == 26,
    ensures
        emit_ids::edge_counts(recs, tables, k) is Ok,
    decreases k,
{
    if k > 0 {
        lemma_counts_go_through(recs, tables, (k - 1) as nat);
        assert(recs[k - 1].key.len() == 26);
    }
}

proof fn lemma_rows_are_the_edges(v: Seq<EdgeRecord>)
    requires
        faults::first_fault(v.len(), edge_pass::edge_checks(v)) is None,
    ensures
        ({
            let rows = runs::sorted_records(edge_pass::staged_edge_rows(v));
            &&& rows.len() == v.len()
            &&& forall|k: int|
                0 <= k < v.len() ==> 0 <= edge_placement_laws::edge_of_row(v, k) < v.len() && (#[trigger] rows[k])
                    == edge_pass::edge_row(v[edge_placement_laws::edge_of_row(v, k)])
        }),
{
    let staged = edge_pass::staged_edge_rows(v);
    let rows = runs::sorted_records(staged);
    let o = sorting::stable_order(runs::record_keys(staged));
    runs::lemma_sorted_records(staged);
    sorting::lemma_stable_order(runs::record_keys(staged));
    assert forall|k: int| 0 <= k < v.len() implies 0 <= edge_placement_laws::edge_of_row(v, k) < v.len() && (
    #[trigger] rows[k]) == edge_pass::edge_row(v[edge_placement_laws::edge_of_row(v, k)]) by {
        assert(0 <= o[k] < v.len());
        assert(rows[k] == staged[o[k]]);
    }
}

proof fn lemma_row_of_edge(v: Seq<EdgeRecord>, i: int) -> (k: int)
    requires
        0 <= i < v.len(),
    ensures
        0 <= k < v.len(),
        edge_placement_laws::edge_of_row(v, k) == i,
{
    let o = sorting::stable_order(runs::record_keys(edge_pass::staged_edge_rows(v)));
    sorting::lemma_stable_order(runs::record_keys(edge_pass::staged_edge_rows(v)));
    assert(o.contains(i));
    choose|k: int| 0 <= k < o.len() && o[k] == i
}

proof fn lemma_rows_fit(n: NodeStageView, edges: Seq<EdgeRecord>, decls: Seq<DeclRecord>)
    requires
        faults::first_fault(edges.len(), edge_pass::edge_checks(edges)) is None,
    ensures
        ({
            let rows = runs::sorted_records(edge_pass::staged_edge_rows(edges));
            &&& (forall|k: int|
                0 <= k < rows.len() ==> edge_pass::resolved(n.index, #[trigger] rows[k]) is Ok && ({
                    let x = edge_pass::resolved(n.index, rows[k])->Ok_0;
                    edge_pass::declared(decls, x.edge_type) matches Some(d) ==> live_graph::carries_label(
                        n.labels,
                        n.entries,
                        x.src,
                        x.from.0,
                        d.src_label,
                    ) && live_graph::carries_label(n.labels, n.entries, x.dst, x.to.0, d.dst_label)
                })) <==> (forall|i: int|
                0 <= i < edges.len() ==> edge_fits(n, decls, #[trigger] edges[i]))
            &&& forall|k: int|
                0 <= k < rows.len() && edge_pass::resolved(n.index, #[trigger] rows[k]) is Ok
                    ==> node_pass::row_properties(edge_pass::resolved(n.index, rows[k])->Ok_0.props) is Ok && edge_pass::rel_key_of(
                    edge_pass::resolved(n.index, rows[k])->Ok_0,
                ) == edge_placement_laws::edge_table(n.index, edges[edge_placement_laws::edge_of_row(edges, k)])
        }),
{
    let rows = runs::sorted_records(edge_pass::staged_edge_rows(edges));
    lemma_rows_are_the_edges(edges);
    faults::lemma_no_fault(edges.len(), edge_pass::edge_checks(edges));
    let good = |k: int|
        edge_pass::resolved(n.index, rows[k]) is Ok && ({
            let x = edge_pass::resolved(n.index, rows[k])->Ok_0;
            edge_pass::declared(decls, x.edge_type) matches Some(d) ==> live_graph::carries_label(
                n.labels,
                n.entries,
                x.src,
                x.from.0,
                d.src_label,
            ) && live_graph::carries_label(n.labels, n.entries, x.dst, x.to.0, d.dst_label)
        });
    assert forall|k: int| 0 <= k < rows.len() implies (good(k) <==> edge_fits(
        n,
        decls,
        edges[edge_placement_laws::edge_of_row(edges, k)],
    )) && (edge_pass::resolved(n.index, #[trigger] rows[k]) is Ok ==> node_pass::row_properties(
        edge_pass::resolved(n.index, rows[k])->Ok_0.props,
    ) is Ok && edge_pass::rel_key_of(edge_pass::resolved(n.index, rows[k])->Ok_0) == edge_placement_laws::edge_table(
        n.index,
        edges[edge_placement_laws::edge_of_row(edges, k)],
    )) by {
        let e = edges[edge_placement_laws::edge_of_row(edges, k)];
        assert(edge_pass::edge_checks(edges)(edge_placement_laws::edge_of_row(edges, k)) is None);
        lemma_edge_row_resolves(n.index, e);
        node_pass::lemma_row_properties_round_trip(e.properties);
    }
    if forall|i: int| 0 <= i < edges.len() ==> edge_fits(n, decls, #[trigger] edges[i]) {
        assert forall|k: int| 0 <= k < rows.len() implies edge_pass::resolved(
            n.index,
            #[trigger] rows[k],
        ) is Ok && good(k) by {
            assert(edge_fits(n, decls, edges[edge_placement_laws::edge_of_row(edges, k)]));
        }
    }
    if forall|k: int| 0 <= k < rows.len() ==> edge_pass::resolved(n.index, #[trigger] rows[k]) is Ok && ({
        let x = edge_pass::resolved(n.index, rows[k])->Ok_0;
        edge_pass::declared(decls, x.edge_type) matches Some(d) ==> live_graph::carries_label(
            n.labels,
            n.entries,
            x.src,
            x.from.0,
            d.src_label,
        ) && live_graph::carries_label(n.labels, n.entries, x.dst, x.to.0, d.dst_label)
    }) {
        assert forall|i: int| 0 <= i < edges.len() implies edge_fits(n, decls, #[trigger] edges[i]) by {
            let k = lemma_row_of_edge(edges, i);
            assert(edge_pass::resolved(n.index, rows[k]) is Ok);
            assert(good(k));
        }
    }
}

/// Edges are accepted exactly where each can be stored, has both its ends, joins
/// nodes with the labels that its type is declared for, and their tables can be
/// numbered.
pub proof fn lemma_edges_are_accepted(
    n: NodeStageView,
    edges: Seq<EdgeRecord>,
    decls: Seq<DeclRecord>,
)
    ensures
        stages::edge_stage(n, edges, decls) is Ok <==> {
            &&& forall|i: int|
                0 <= i < edges.len() ==> acceptance_laws::all_storable((#[trigger] edges[i]).properties) && text::utf8(
                    edges[i].edge_type,
                ).len() < 0x1_0000
            &&& forall|i: int| 0 <= i < edges.len() ==> edge_fits(n, decls, #[trigger] edges[i])
            &&& edge_pass::rel_listing(tables_needed(n, edges)).len() <= 0x1_0000
        },
{
    faults::lemma_no_fault(edges.len(), edge_pass::edge_checks(edges));
    let blank = NodeRecord { id: 0, labels: Seq::empty(), properties: Seq::empty() };
    assert forall|i: int| 0 <= i < edges.len() implies ((#[trigger] edge_pass::edge_checks(edges)(i)) is None
        <==> acceptance_laws::all_storable(edges[i].properties) && text::utf8(edges[i].edge_type).len() < 0x1_0000) by {
        acceptance_laws::lemma_storable_records_are_accepted(blank, edges[i]);
    }
    if forall|i: int|
        0 <= i < edges.len() ==> acceptance_laws::all_storable((#[trigger] edges[i]).properties) && text::utf8(
            edges[i].edge_type,
        ).len() < 0x1_0000 {
        assert forall|i: int| 0 <= i < edges.len() implies (#[trigger] edge_pass::edge_checks(edges)(
            i,
        )) is None by {
            assert(acceptance_laws::all_storable(edges[i].properties));
        }
    }
    if faults::first_fault(edges.len(), edge_pass::edge_checks(edges)) is None {
        assert forall|i: int| 0 <= i < edges.len() implies acceptance_laws::all_storable(
            (#[trigger] edges[i]).properties,
        ) && text::utf8(edges[i].edge_type).len() < 0x1_0000 by {
            assert(edge_pass::edge_checks(edges)(i) is None);
        }
        lemma_accepted_rows(n, edges, decls);
    }
}

proof fn lemma_accepted_rows(n: NodeStageView, edges: Seq<EdgeRecord>, decls: Seq<DeclRecord>)
    requires
        faults::first_fault(edges.len(), edge_pass::edge_checks(edges)) is None,
    ensures
        stages::edge_stage(n, edges, decls) is Ok <==> (forall|i: int|
            0 <= i < edges.len() ==> edge_fits(n, decls, #[trigger] edges[i])) && edge_pass::rel_listing(
            tables_needed(n, edges),
        ).len() <= 0x1_0000,
{
    let rows = runs::sorted_records(edge_pass::staged_edge_rows(edges));
    let k = rows.len();
    lemma_rows_are_the_edges(edges);
    lemma_rows_fit(n, edges, decls);
    lemma_set_of_tables(n.index, rows, k);
    if edge_pass::rel_table_set(n.index, rows, k) is Ok {
        let set = edge_pass::rel_table_set(n.index, rows, k)->Ok_0;
        let keys = edge_pass::rel_listing(set);
        edge_pass::lemma_rel_listing(n.index, rows, k);
        lemma_tables_are_those_needed(n, edges);
        assert(set =~= tables_needed(n, edges));
        label_laws::lemma_declared_edges_join_labels(n.index, keys, n.labels, n.entries, decls, rows, k);
        assert forall|j: int| 0 <= j < k implies keys.contains(
            edge_pass::rel_key_of(edge_pass::resolved(n.index, #[trigger] rows[j])->Ok_0),
        ) by {
            assert(set.contains(edge_pass::rel_key_of(edge_pass::resolved(n.index, rows[j])->Ok_0)));
        }
        if edge_pass::forward_records(n.index, keys, n.labels, n.entries, decls, rows, k) is Ok {
            lemma_forward_shapes(n, keys, decls, rows, k);
            let f = edge_pass::forward_records(n.index, keys, n.labels, n.entries, decls, rows, k)->Ok_0;
            let s = runs::sorted_records(f);
            runs::lemma_sorted_records(f);
            assert forall|j: int| 0 <= j < s.len() implies (#[trigger] s[j]).key.len() == 26
                && node_pass::row_properties(s[j].payload) is Ok by {
                let i = sorting::stable_order(runs::record_keys(f))[j];
                assert(s[j] == f[i]);
            }
            lemma_occurrences_go_through(s, true, s.len());
            lemma_counts_go_through(s, keys.len(), s.len());
        }
    }
}

/// The tables that the staged rows ask for are those that the edges need.
proof fn lemma_tables_are_those_needed(n: NodeStageView, edges: Seq<EdgeRecord>)
    requires
        faults::first_fault(edges.len(), edge_pass::edge_checks(edges)) is None,
        ({
            let rows = runs::sorted_records(edge_pass::staged_edge_rows(edges));
            edge_pass::rel_table_set(n.index, rows, rows.len()) is Ok
        }),
    ensures
        ({
            let rows = runs::sorted_records(edge_pass::staged_edge_rows(edges));
            forall|x: RelKey|
                edge_pass::rel_table_set(n.index, rows, rows.len())->Ok_0.contains(x)
                    == #[trigger] tables_needed(n, edges).contains(x)
        }),
{
    let rows = runs::sorted_records(edge_pass::staged_edge_rows(edges));
    let set = edge_pass::rel_table_set(n.index, rows, rows.len())->Ok_0;
    lemma_rows_are_the_edges(edges);
    lemma_rows_fit(n, edges, Seq::empty());
    lemma_set_of_tables(n.index, rows, rows.len());
    assert forall|x: RelKey| set.contains(x) == #[trigger] tables_needed(n, edges).contains(x) by {
        if set.contains(x) {
            let j = choose|j: int|
                0 <= j < rows.len() && edge_pass::rel_key_of(edge_pass::resolved(n.index, #[trigger] rows[j])->Ok_0) == x;
            assert(edge_pass::resolved(n.index, rows[j]) is Ok);
            assert(edge_placement_laws::edge_table(n.index, edges[edge_placement_laws::edge_of_row(edges, j)]) == x);
        }
        if tables_needed(n, edges).contains(x) {
            let i = choose|i: int|
                0 <= i < edges.len() && edge_placement_laws::edge_table(n.index, #[trigger] edges[i]) == x;
            let k = lemma_row_of_edge(edges, i);
            assert(edge_pass::resolved(n.index, rows[k]) is Ok);
            assert(edge_pass::rel_key_of(edge_pass::resolved(n.index, rows[k])->Ok_0) == x);
        }
    }
}

} // verus!
