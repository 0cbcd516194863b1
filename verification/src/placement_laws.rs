//! Every node gets a row of its own in the table of its first label, and its
//! properties are staged under that row.

use crate::column_laws::PlacedRow;
use crate::column_laws;
use crate::faults;
use crate::generation::GenerationError;
use crate::id_index::IdEntry;
use crate::id_index;
use crate::intern::StringCodeOrder;
use crate::intern;
use crate::node_pass::NodeWalk;
use crate::node_pass;
use crate::records::NodeRecord;
use crate::records;
use crate::runs::RecordView;
use crate::runs;
use crate::sorting;
use crate::stages::NodeStageView;
use crate::stages;
use crate::staging::Property;
use crate::staging;
use crate::stream_plan;
use crate::text;
use crate::wire;
use vstd::prelude::*;

verus! {

broadcast use wire::group_wire;

/// Nodes that can be staged, each with its properties by ascending key.
pub open spec fn nodes_valid(v: Seq<NodeRecord>) -> bool {
    &&& v.len() <= u64::MAX
    &&& faults::first_fault(v.len(), node_pass::node_checks(v)) is None
    &&& forall|i: int| 0 <= i < v.len() ==> text::texts_ascend(column_laws::property_keys((#[trigger] v[i]).properties))
}

/// The first labels of nodes that can be staged fit a row key.
pub proof fn lemma_label_fits(v: Seq<NodeRecord>, i: int)
    requires
        nodes_valid(v),
        0 <= i < v.len(),
    ensures
        text::utf8(v[i].labels[0]).len() <= 0xffff,
{
    faults::lemma_no_fault(v.len(), node_pass::node_checks(v));
    assert(node_pass::node_checks(v)(i) is None);
}

/// The position among the nodes of the one in row `k` of the sorted run.
pub open spec fn node_of_row(v: Seq<NodeRecord>, k: int) -> int {
    sorting::stable_order(runs::record_keys(node_pass::staged_node_rows(v)))[k]
}

/// Table and row of the node in row `k` of the sorted run.
pub open spec fn place_of_row(v: Seq<NodeRecord>, k: int) -> (u16, u64) {
    let label = v[node_of_row(v, k)].labels[0];
    (
        node_pass::label_listing(v).index_of(label) as u16,
        node_pass::rows_with_label(runs::sorted_records(node_pass::staged_node_rows(v)), label, k as nat) as u64,
    )
}

/// The rows of the sorted run with their properties.
pub open spec fn node_places(v: Seq<NodeRecord>) -> Seq<PlacedRow> {
    Seq::new(
        v.len(),
        |k: int|
            PlacedRow {
                place: place_of_row(v, k),
                properties: v[node_of_row(v, k)].properties,
            },
    )
}

/// The tables' labels list the nodes' first labels.
pub proof fn lemma_label_listing(v: Seq<NodeRecord>)
    ensures
        node_pass::lists_set(node_pass::label_listing(v), node_pass::table_labels(v)),
{
    let first = Seq::new(v.len(), |i: int| v[i].labels[0]);
    let d = intern::dictionary(first, StringCodeOrder::Lexicographic);
    intern::lemma_dictionary(first, StringCodeOrder::Lexicographic);
    assert forall|l: Seq<char>| d.contains(l) == node_pass::table_labels(v).contains(l) by {
        if first.contains(l) {
            let i = choose|i: int| 0 <= i < first.len() && first[i] == l;
            assert(v[i].labels[0] == l);
        }
        if node_pass::table_labels(v).contains(l) {
            let i = choose|i: int| 0 <= i < v.len() && (#[trigger] v[i]).labels[0] == l;
            assert(first[i] == l);
        }
    }
    assert(node_pass::lists_set(d, node_pass::table_labels(v)));
}

proof fn lemma_node_rows(v: Seq<NodeRecord>, k: int)
    requires
        nodes_valid(v),
        0 <= k < v.len(),
    ensures
        0 <= node_of_row(v, k) < v.len(),
        runs::sorted_records(node_pass::staged_node_rows(v)).len() == v.len(),
        runs::sorted_records(node_pass::staged_node_rows(v))[k] == node_pass::node_row(v[node_of_row(v, k)]),
        staging::split_row_key(runs::sorted_records(node_pass::staged_node_rows(v))[k].key) == Ok::<
            (Seq<char>, u64),
            GenerationError,
        >((v[node_of_row(v, k)].labels[0], v[node_of_row(v, k)].id)),
{
    let rows = node_pass::staged_node_rows(v);
    runs::lemma_sorted_records(rows);
    let i = sorting::stable_order(runs::record_keys(rows))[k];
    assert(0 <= i < v.len());
    lemma_label_fits(v, i);
    staging::lemma_row_key_round_trip(v[i].labels[0], v[i].id);
}

proof fn lemma_rows_grow(recs: Seq<RecordView>, label: Seq<char>, a: nat, b: nat)
    requires
        a <= b,
    ensures
        node_pass::rows_with_label(recs, label, a) <= node_pass::rows_with_label(recs, label, b) <= node_pass::rows_with_label(
            recs,
            label,
            a,
        ) + (b - a),
    decreases b,
{
    if a < b {
        lemma_rows_grow(recs, label, a, (b - 1) as nat);
    }
}

/// Different rows of the sorted run have different places.
pub proof fn lemma_places_differ(v: Seq<NodeRecord>, a: int, b: int)
    requires
        nodes_valid(v),
        node_pass::label_listing(v).len() <= 0x1_0000,
        0 <= a < b < v.len(),
    ensures
        place_of_row(v, a) != place_of_row(v, b),
{
    let recs = runs::sorted_records(node_pass::staged_node_rows(v));
    let labels = node_pass::label_listing(v);
    lemma_node_rows(v, a);
    lemma_node_rows(v, b);
    lemma_label_listing(v);
    let la = v[node_of_row(v, a)].labels[0];
    let lb = v[node_of_row(v, b)].labels[0];
    assert(node_pass::table_labels(v).contains(la) && node_pass::table_labels(v).contains(lb));
    assert(labels.contains(la) && labels.contains(lb));
    let x = labels.index_of(la);
    let y = labels.index_of(lb);
    assert(labels[x] == la && labels[y] == lb);
    lemma_rows_grow(recs, la, 0, a as nat);
    lemma_rows_grow(recs, la, (a + 1) as nat, b as nat);
    lemma_rows_grow(recs, la, 0, b as nat);
    assert(node_pass::rows_with_label(recs, la, (a + 1) as nat) == node_pass::rows_with_label(recs, la, a as nat) + 1);
}

/// Nodes that were staged have labels and properties that can be written.
pub proof fn lemma_property_fits(v: Seq<NodeRecord>, i: int)
    requires
        faults::first_fault(v.len(), node_pass::node_checks(v)) is None,
        0 <= i < v.len(),
    ensures
        staging::properties_fault(v[i].properties) is None,
        records::labels_valid(v[i].labels),
        v[i].labels.len() > 1 ==> staging::labels_fault(v[i].labels) is None,
        forall|j: int|
            0 <= j < v[i].properties.len() ==> staging::value_fault((#[trigger] v[i].properties[j]).1)
                is None,
{
    faults::lemma_no_fault(v.len(), node_pass::node_checks(v));
    assert(node_pass::node_checks(v)(i) is None);
    let p = v[i].properties;
    faults::lemma_no_fault(p.len(), staging::property_checks(p));
    assert forall|j: int| 0 <= j < p.len() implies staging::value_fault((#[trigger] p[j]).1) is None by {
        assert(staging::property_checks(p)(j) is None);
    }
}

/// The walk stages the occurrences of every row under its place.
proof fn lemma_walk_occurrences(v: Seq<NodeRecord>, n: nat)
    requires
        nodes_valid(v),
        faults::first_fault(v.len(), node_pass::node_checks(v)) is None,
        node_pass::label_listing(v).len() <= 0x1_0000,
        n <= v.len(),
        node_pass::node_walk(node_pass::label_listing(v), runs::sorted_records(node_pass::staged_node_rows(v)), n) is Ok,
    ensures
        ({
            let w = node_pass::node_walk(node_pass::label_listing(v), runs::sorted_records(node_pass::staged_node_rows(v)), n)->Ok_0;
            w.occurrences == column_laws::occurrence_records(column_laws::placed_occurrences(node_places(v), n))
        }),
    decreases n,
{
    let recs = runs::sorted_records(node_pass::staged_node_rows(v));
    let labels = node_pass::label_listing(v);
    let w = node_pass::node_walk(labels, recs, n)->Ok_0;
    if n > 0 {
        let m = (n - 1) as nat;
        assert(node_pass::node_walk(labels, recs, m) is Ok);
        lemma_walk_occurrences(v, m);
        lemma_node_rows(v, m as int);
        lemma_label_listing(v);
        node_pass::lemma_offsets_are_dense(labels, recs, m);
        let u = node_pass::node_walk(labels, recs, m)->Ok_0;
        let i = node_of_row(v, m as int);
        let label = v[i].labels[0];
        let t = labels.index_of(label);
        assert(node_pass::table_labels(v).contains(label));
        assert(labels.contains(label) && labels[t] == label);
        assert(u.counts[t] == node_pass::rows_with_label(recs, labels[t], m));
        lemma_property_fits(v, i);
        node_pass::lemma_row_properties_round_trip(v[i].properties);
        let p = v[i].properties;
        assert(node_places(v)[m as int].properties == p);
        assert(node_pass::row_properties(recs[m as int].payload) == Ok::<Seq<Property>, GenerationError>(p));
        assert(w.occurrences == u.occurrences + node_pass::row_occurrences(t as u16, u.counts[t], p));
        assert(w.occurrences =~= column_laws::occurrence_records(column_laws::placed_occurrences(node_places(v), n)));
    } else {
        assert(w.occurrences =~= column_laws::occurrence_records(column_laws::placed_occurrences(node_places(v), n)));
    }
}

/// An ID index whose bytes are sound ascends.
pub proof fn lemma_sound_index_ascends(v: Seq<IdEntry>)
    requires
        id_index::id_index_fault(id_index::id_records(v)) is None,
    ensures
        id_index::ids_ascend(v),
    decreases v.len(),
{
    let d = id_index::id_records(v);
    id_index::lemma_id_records_round_trip(v);
    faults::lemma_no_fault(v.len(), id_index::id_order_checks(d));
    assert(d.len() / 18 == v.len());
    assert forall|i: int| 0 < i < v.len() implies (#[trigger] v[i]).0 > v[i - 1].0 by {
        assert(id_index::id_order_checks(d)(i) is None);
        assert(id_index::id_entries_of(d)[i] == v[i]);
        assert(id_index::id_entries_of(d)[i - 1] == v[i - 1]);
    }
    lemma_steps_ascend(v);
}

proof fn lemma_steps_ascend(v: Seq<IdEntry>)
    requires
        forall|i: int| 0 < i < v.len() ==> (#[trigger] v[i]).0 > v[i - 1].0,
    ensures
        id_index::ids_ascend(v),
    decreases v.len(),
{
    if v.len() > 1 {
        let w = v.drop_last();
        assert forall|i: int| 0 < i < w.len() implies (#[trigger] w[i]).0 > w[i - 1].0 by {
            assert(w[i] == v[i] && w[i - 1] == v[i - 1]);
        }
        lemma_steps_ascend(w);
        let n = v.len() - 1;
        assert(v[n].0 > v[n - 1].0);
        assert forall|i: int, j: int| 0 <= i < j < v.len() implies #[trigger] v[i].0 < #[trigger] v[
            j].0 by {
            if j < n {
                assert(w[i].0 < w[j].0);
            } else if i < n - 1 {
                assert(w[i].0 < w[n - 1].0);
            }
        }
    }
}

/// The entries of ID-index records are the records' parts.
proof fn lemma_index_entries(recs: Seq<RecordView>, want: Seq<IdEntry>, k: nat)
    requires
        k <= recs.len(),
        want.len() == recs.len(),
        forall|i: int|
            0 <= i < recs.len() ==> (#[trigger] recs[i]) == node_pass::id_index_row(
                want[i].0,
                want[i].1,
                want[i].2,
            ),
    ensures
        stages::index_entries(recs, k) == Ok::<Seq<IdEntry>, GenerationError>(want.take(k as int)),
    decreases k,
{
    if k > 0 {
        lemma_index_entries(recs, want, (k - 1) as nat);
        let r = recs[k - 1];
        let x = want[k - 1];
        assert(r.key.subrange(0, 8) =~= wire::put64_be(x.0));
        assert(r.payload.subrange(0, 2) =~= wire::put16(x.1));
        assert(r.payload.subrange(2, 10) =~= wire::put64(x.2));
        assert(want.take(k as int) =~= want.take(k - 1).push(x));
    } else {
        assert(want.take(0) =~= Seq::empty());
    }
}

/// The rows of the sorted run by ascending id.
spec fn rows_by_id(v: Seq<NodeRecord>, ids: Seq<RecordView>) -> Seq<IdEntry> {
    let order = sorting::stable_order(runs::record_keys(ids));
    Seq::new(
        v.len(),
        |a: int|
            (
                v[node_of_row(v, order[a])].id,
                place_of_row(v, order[a]).0,
                place_of_row(v, order[a]).1,
            ),
    )
}

/// The walk stages the ID-index record of every row.
proof fn lemma_walk_ids(v: Seq<NodeRecord>, w: NodeWalk)
    requires
        nodes_valid(v),
        node_pass::node_walk(node_pass::label_listing(v), runs::sorted_records(node_pass::staged_node_rows(v)), v.len()) == Ok::<
            NodeWalk,
            GenerationError,
        >(w),
    ensures
        w.ids.len() == v.len(),
        forall|k: int|
            0 <= k < v.len() ==> (#[trigger] w.ids[k]) == node_pass::id_index_row(
                v[node_of_row(v, k)].id,
                place_of_row(v, k).0,
                place_of_row(v, k).1,
            ),
{
    let recs = runs::sorted_records(node_pass::staged_node_rows(v));
    runs::lemma_sorted_records(node_pass::staged_node_rows(v));
    lemma_label_listing(v);
    node_pass::lemma_offsets_are_dense(node_pass::label_listing(v), recs, v.len());
    assert forall|k: int| 0 <= k < v.len() implies (#[trigger] w.ids[k]) == node_pass::id_index_row(
        v[node_of_row(v, k)].id,
        place_of_row(v, k).0,
        place_of_row(v, k).1,
    ) by {
        lemma_node_rows(v, k);
        assert(staging::split_row_key(recs[k].key) is Ok);
    }
}

/// The ID index of a walk lists the rows by ascending id.
proof fn lemma_index_of_walk(v: Seq<NodeRecord>, w: NodeWalk, index: Seq<IdEntry>)
    requires
        nodes_valid(v),
        node_pass::node_walk(node_pass::label_listing(v), runs::sorted_records(node_pass::staged_node_rows(v)), v.len()) == Ok::<
            NodeWalk,
            GenerationError,
        >(w),
        stages::materialized(runs::sorted_records(w.ids)) == Ok::<Seq<IdEntry>, GenerationError>(index),
    ensures
        index == rows_by_id(v, w.ids),
        index.len() == v.len(),
        id_index::ids_ascend(index),
        forall|k: int|
            0 <= k < v.len() ==> id_index::id_entry_for(index, v[#[trigger] node_of_row(v, k)].id) == Some(
                place_of_row(v, k),
            ),
{
    let order = sorting::stable_order(runs::record_keys(w.ids));
    let sorted = runs::sorted_records(w.ids);
    let want = rows_by_id(v, w.ids);
    lemma_walk_ids(v, w);
    runs::lemma_sorted_records(w.ids);
    sorting::lemma_stable_order(runs::record_keys(w.ids));
    assert forall|a: int| 0 <= a < v.len() implies (#[trigger] sorted[a]) == node_pass::id_index_row(
        want[a].0,
        want[a].1,
        want[a].2,
    ) by {
        let k = order[a];
        assert(sorted[a] == w.ids[k]);
    }
    lemma_index_entries(sorted, want, v.len());
    assert(want.take(v.len() as int) =~= want);
    id_index::lemma_id_records_round_trip(want);
    lemma_sound_index_ascends(want);
    assert forall|k: int| 0 <= k < v.len() implies id_index::id_entry_for(
        index,
        v[#[trigger] node_of_row(v, k)].id,
    ) == Some(place_of_row(v, k)) by {
        assert(order.contains(k));
        let a = choose|a: int| 0 <= a < order.len() && order[a] == k;
        assert(want[a].0 == v[node_of_row(v, k)].id);
    }
}

/// Every place is a row of the table of the node's first label.
proof fn lemma_place_in_table(v: Seq<NodeRecord>, w: NodeWalk, k: int)
    requires
        nodes_valid(v),
        node_pass::label_listing(v).len() <= 0x1_0000,
        0 <= k < v.len(),
        node_pass::node_walk(node_pass::label_listing(v), runs::sorted_records(node_pass::staged_node_rows(v)), v.len()) == Ok::<
            NodeWalk,
            GenerationError,
        >(w),
    ensures
        w.counts.len() == node_pass::label_listing(v).len(),
        place_of_row(v, k).0 < node_pass::label_listing(v).len(),
        node_pass::label_listing(v)[place_of_row(v, k).0 as int] == v[node_of_row(v, k)].labels[0],
        place_of_row(v, k).1 < w.counts[place_of_row(v, k).0 as int],
        place_of_row(v, k).1 <= k,
{
    let recs = runs::sorted_records(node_pass::staged_node_rows(v));
    let labels = node_pass::label_listing(v);
    runs::lemma_sorted_records(node_pass::staged_node_rows(v));
    lemma_label_listing(v);
    node_pass::lemma_offsets_are_dense(labels, recs, v.len());
    lemma_node_rows(v, k);
    let label = v[node_of_row(v, k)].labels[0];
    assert(node_pass::table_labels(v).contains(label));
    let t = labels.index_of(label);
    assert(labels.contains(label) && labels[t] == label);
    assert(w.counts[t] == node_pass::rows_with_label(recs, labels[t], v.len()));
    lemma_rows_grow(recs, label, 0, k as nat);
    lemma_rows_grow(recs, label, (k + 1) as nat, v.len());
    assert(node_pass::rows_with_label(recs, label, (k + 1) as nat) == node_pass::rows_with_label(recs, label, k as nat)
        + 1);
}

/// Every node is found in the ID index at its place, every place is a row of
/// the table of the node's first label, and the properties of all nodes are
/// staged under their places.
pub proof fn lemma_nodes_are_placed(v: Seq<NodeRecord>, n: NodeStageView)
    requires
        nodes_valid(v),
        stages::node_stage(v) == Ok::<NodeStageView, GenerationError>(n),
    ensures
        n.labels == node_pass::label_listing(v),
        n.labels.len() <= 0x1_0000,
        node_pass::lists_set(n.labels, node_pass::table_labels(v)),
        n.counts.len() == n.labels.len(),
        id_index::ids_ascend(n.index),
        n.index.len() == v.len(),
        n.occurrences == column_laws::occurrence_records(column_laws::placed_occurrences(node_places(v), v.len())),
        n.membership == stages::membership_run(v),
        forall|k: int|
            0 <= k < v.len() ==> id_index::id_entry_for(n.index, v[#[trigger] node_of_row(v, k)].id) == Some(
                place_of_row(v, k),
            ),
        forall|k: int|
            0 <= k < v.len() ==> (#[trigger] place_of_row(v, k)).0 < n.labels.len()
                && n.labels[place_of_row(v, k).0 as int] == v[node_of_row(v, k)].labels[0]
                && place_of_row(v, k).1 < n.counts[place_of_row(v, k).0 as int],
{
    let recs = runs::sorted_records(node_pass::staged_node_rows(v));
    runs::lemma_sorted_records(node_pass::staged_node_rows(v));
    lemma_label_listing(v);
    let w = node_pass::node_walk(node_pass::label_listing(v), recs, recs.len())->Ok_0;
    node_pass::lemma_walk_counts_tables(node_pass::label_listing(v), recs, recs.len());
    lemma_walk_occurrences(v, v.len());
    lemma_index_of_walk(v, w, n.index);
    assert forall|k: int| 0 <= k < v.len() implies (#[trigger] place_of_row(v, k)).0
        < n.labels.len() && n.labels[place_of_row(v, k).0 as int] == v[node_of_row(
        v,
        k,
    )].labels[0] && place_of_row(v, k).1 < n.counts[place_of_row(v, k).0 as int] by {
        lemma_place_in_table(v, w, k);
    }
}

/// A row of the sorted run holds a node.
pub proof fn lemma_node_position(v: Seq<NodeRecord>, k: int)
    requires
        0 <= k < v.len(),
    ensures
        0 <= node_of_row(v, k) < v.len(),
{
    runs::lemma_sorted_records(node_pass::staged_node_rows(v));
    assert(0 <= sorting::stable_order(runs::record_keys(node_pass::staged_node_rows(v)))[k] < v.len());
}

/// Every node is in a row of the sorted run.
pub proof fn lemma_row_of_node(v: Seq<NodeRecord>, i: int) -> (k: int)
    requires
        0 <= i < v.len(),
    ensures
        0 <= k < v.len(),
        node_of_row(v, k) == i,
{
    let keys = runs::record_keys(node_pass::staged_node_rows(v));
    let order = sorting::stable_order(keys);
    sorting::lemma_stable_order(keys);
    assert(order.contains(i));
    choose|k: int| 0 <= k < order.len() && order[k] == i
}

/// Every place in the ID index is a row of a table.
pub proof fn lemma_indexed_place(v: Seq<NodeRecord>, n: NodeStageView, id: u64)
    requires
        nodes_valid(v),
        stages::node_stage(v) == Ok::<NodeStageView, GenerationError>(n),
        id_index::id_entry_for(n.index, id) is Some,
    ensures
        ({
            let x = id_index::id_entry_for(n.index, id)->0;
            x.0 < n.counts.len() && x.1 < n.counts[x.0 as int]
        }),
{
    let recs = runs::sorted_records(node_pass::staged_node_rows(v));
    runs::lemma_sorted_records(node_pass::staged_node_rows(v));
    let w = node_pass::node_walk(node_pass::label_listing(v), recs, recs.len())->Ok_0;
    lemma_index_of_walk(v, w, n.index);
    lemma_walk_ids(v, w);
    sorting::lemma_stable_order(runs::record_keys(w.ids));
    let i = choose|i: int| 0 <= i < n.index.len() && (#[trigger] n.index[i]).0 == id;
    let k = sorting::stable_order(runs::record_keys(w.ids))[i];
    assert(n.index[i] == rows_by_id(v, w.ids)[i]);
    lemma_place_in_table(v, w, k);
}

/// Every entry of the ID index names a row of a table, each its own.
pub proof fn lemma_index_places(v: Seq<NodeRecord>, n: NodeStageView)
    requires
        nodes_valid(v),
        stages::node_stage(v) == Ok::<NodeStageView, GenerationError>(n),
    ensures
        forall|a: int|
            0 <= a < n.index.len() ==> (#[trigger] n.index[a]).1 < n.counts.len() && n.index[a].2
                < n.counts[n.index[a].1 as int],
        forall|a: int, b: int|
            0 <= a < b < n.index.len() ==> (#[trigger] n.index[a]).1 != (#[trigger] n.index[b]).1
                || n.index[a].2 != n.index[b].2,
{
    let recs = runs::sorted_records(node_pass::staged_node_rows(v));
    runs::lemma_sorted_records(node_pass::staged_node_rows(v));
    let w = node_pass::node_walk(node_pass::label_listing(v), recs, recs.len())->Ok_0;
    lemma_index_of_walk(v, w, n.index);
    lemma_walk_ids(v, w);
    sorting::lemma_stable_order(runs::record_keys(w.ids));
    let order = sorting::stable_order(runs::record_keys(w.ids));
    assert forall|a: int| 0 <= a < n.index.len() implies (#[trigger] n.index[a]).1 < n.counts.len()
        && n.index[a].2 < n.counts[n.index[a].1 as int] by {
        assert(n.index[a] == rows_by_id(v, w.ids)[a]);
        lemma_place_in_table(v, w, order[a]);
    }
    assert forall|a: int, b: int| 0 <= a < b < n.index.len() implies (#[trigger] n.index[a]).1 != (
    #[trigger] n.index[b]).1 || n.index[a].2 != n.index[b].2 by {
        assert(n.index[a] == rows_by_id(v, w.ids)[a]);
        assert(n.index[b] == rows_by_id(v, w.ids)[b]);
        assert(order[a] != order[b]);
        if order[a] < order[b] {
            lemma_places_differ(v, order[a], order[b]);
        } else {
            lemma_places_differ(v, order[b], order[a]);
        }
    }
}

/// Every node of a streaming build is found in the ID index at its place, every
/// place is a row of the table of the node's first label, and the properties of
/// all nodes are staged under their places.
pub proof fn lemma_streamed_nodes_are_placed(v: Seq<NodeRecord>, n: NodeStageView)
    requires
        nodes_valid(v),
        node_pass::label_listing(v).len() <= 0x1_0000,
        stream_plan::stream_node_stage(v) == Ok::<NodeStageView, GenerationError>(n),
    ensures
        n.labels == node_pass::label_listing(v),
        n.counts.len() == n.labels.len(),
        id_index::ids_ascend(n.index),
        n.index.len() == v.len(),
        n.occurrences == column_laws::occurrence_records(column_laws::placed_occurrences(node_places(v), v.len())),
        forall|k: int|
            0 <= k < v.len() ==> id_index::id_entry_for(n.index, v[#[trigger] node_of_row(v, k)].id) == Some(
                place_of_row(v, k),
            ),
        forall|k: int|
            0 <= k < v.len() ==> (#[trigger] place_of_row(v, k)).0 < n.labels.len()
                && n.labels[place_of_row(v, k).0 as int] == v[node_of_row(v, k)].labels[0]
                && place_of_row(v, k).1 < n.counts[place_of_row(v, k).0 as int],
{
    let recs = runs::sorted_records(node_pass::staged_node_rows(v));
    runs::lemma_sorted_records(node_pass::staged_node_rows(v));
    lemma_label_listing(v);
    let w = node_pass::node_walk(node_pass::label_listing(v), recs, recs.len())->Ok_0;
    node_pass::lemma_walk_counts_tables(node_pass::label_listing(v), recs, recs.len());
    lemma_walk_occurrences(v, v.len());
    lemma_index_of_walk(v, w, n.index);
    assert forall|k: int| 0 <= k < v.len() implies (#[trigger] place_of_row(v, k)).0
        < n.labels.len() && n.labels[place_of_row(v, k).0 as int] == v[node_of_row(
        v,
        k,
    )].labels[0] && place_of_row(v, k).1 < n.counts[place_of_row(v, k).0 as int] by {
        lemma_place_in_table(v, w, k);
    }
}

} // verus!
