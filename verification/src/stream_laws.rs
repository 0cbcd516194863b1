//! A streaming build holds the properties of its nodes, each in the row of its
//! node, and its store gives their texts back by original id.

use crate::column_laws::Occurrence;
use crate::column_laws;
use crate::emit_columns::CellsView;
use crate::emit_columns;
use crate::faults;
use crate::generation::GenerationError;
use crate::id_index;
use crate::lookup_laws::CellContent;
use crate::lookup_laws;
use crate::node_pass;
use crate::opening_laws;
use crate::orchestrator::PlanView;
use crate::orchestrator;
use crate::placement_laws;
use crate::plan_laws;
use crate::reading_laws;
use crate::records::{EdgeRecord, NodeRecord};
use crate::stages::NodeStageView;
use crate::staging;
use crate::stream_plan;
use crate::tables::{ColumnView, StoreView};
use crate::text;
use crate::value::ZoneView;
use vstd::prelude::*;

verus! {

/// The node columns of a streaming plan.
pub open spec fn node_cells(n: NodeStageView) -> Seq<CellsView> {
    stream_plan::kind_columns(n.counts, n.occurrences)->Ok_0.1
}

proof fn lemma_rel_cells_apart(p: PlanView, nodes: Seq<NodeRecord>, edges: Seq<EdgeRecord>)
    requires
        stream_plan::streaming_plan(nodes, edges) == Ok::<PlanView, GenerationError>(p),
    ensures
        p.base == 0x1_0000,
        node_pass::label_listing(nodes).len() <= 0x1_0000,
        stream_plan::stream_node_stage(nodes) == Ok::<NodeStageView, GenerationError>(p.nodes),
        stream_plan::kind_columns(p.nodes.counts, p.nodes.occurrences) is Ok,
        node_cells(p.nodes).len() <= p.cells.len(),
        forall|i: int|
            0 <= i < node_cells(p.nodes).len() ==> #[trigger] p.cells[i] == node_cells(
                p.nodes,
            )[i],
        forall|i: int|
            node_cells(p.nodes).len() <= i < p.cells.len() ==> (#[trigger] p.cells[i]).table_id
                >= 0x1_0000,
{
    let e = p.edges;
    let d = stream_plan::kind_columns(e.counts, e.occurrences)->Ok_0;
    let recs = node_pass::ranked_records(e.occurrences);
    let g = d.0;
    stream_plan::lemma_layout_ids(g, recs, recs.len());
    let v = emit_columns::layout_after(g, recs, recs.len())->Ok_0;
    assert(d.1 == emit_columns::closed_columns(g, v));
    assert forall|i: int| 0 <= i < d.1.len() implies (#[trigger] d.1[i]).table_id <= 0xffff by {
        assert(v[i].table_id <= 0xffff);
    }
    let n = node_cells(p.nodes).len();
    assert forall|i: int| n <= i < p.cells.len() implies (#[trigger] p.cells[i]).table_id
        >= 0x1_0000 by {
        assert(d.1[i - n].table_id <= 0xffff);
        assert(p.cells[i] == stream_plan::rel_numbered(d.1)[i - n]);
    }
}

proof fn lemma_node_occurrences(nodes: Seq<NodeRecord>, n: NodeStageView)
    requires
        placement_laws::nodes_valid(nodes),
        node_pass::label_listing(nodes).len() <= 0x1_0000,
        stream_plan::stream_node_stage(nodes) == Ok::<NodeStageView, GenerationError>(n),
    ensures
        ({
            let all = column_laws::placed_occurrences(placement_laws::node_places(nodes), nodes.len());
            &&& n.occurrences == column_laws::occurrence_records(all)
            &&& column_laws::occurrences_single(all)
            &&& column_laws::values_fit(all)
        }),
{
    let v = placement_laws::node_places(nodes);
    let all = column_laws::placed_occurrences(v, nodes.len());
    placement_laws::lemma_streamed_nodes_are_placed(nodes, n);
    assert forall|a: int, b: int| 0 <= a < b < v.len() implies (#[trigger] v[a]).place != (
    #[trigger] v[b]).place by {
        placement_laws::lemma_places_differ(nodes, a, b);
    }
    assert forall|a: int| 0 <= a < v.len() implies text::texts_ascend(
        column_laws::property_keys((#[trigger] v[a]).properties),
    ) by {
        placement_laws::lemma_node_position(nodes, a);
        assert(v[a].properties == nodes[placement_laws::node_of_row(nodes, a)].properties);
    }
    column_laws::lemma_placed_single(v, nodes.len());
    assert forall|x: int| 0 <= x < all.len() implies staging::value_fault((#[trigger] all[x]).value) is None by {
        let (r, j) = column_laws::lemma_occurrence_is_placed(v, nodes.len(), x);
        placement_laws::lemma_node_position(nodes, r);
        assert(v[r].properties == nodes[placement_laws::node_of_row(nodes, r)].properties);
        placement_laws::lemma_property_fits(nodes, placement_laws::node_of_row(nodes, r));
        assert(staging::value_fault(nodes[placement_laws::node_of_row(nodes, r)].properties[j].1) is None);
    }
}

proof fn lemma_node_occurs(nodes: Seq<NodeRecord>, n: NodeStageView, o: Occurrence)
    requires
        placement_laws::nodes_valid(nodes),
        node_pass::label_listing(nodes).len() <= 0x1_0000,
        stream_plan::stream_node_stage(nodes) == Ok::<NodeStageView, GenerationError>(n),
    ensures
        column_laws::placed_occurrences(placement_laws::node_places(nodes), nodes.len()).contains(o) <==> plan_laws::is_node_property(
            nodes,
            n.index,
            o,
        ),
{
    let v = placement_laws::node_places(nodes);
    let all = column_laws::placed_occurrences(v, nodes.len());
    placement_laws::lemma_streamed_nodes_are_placed(nodes, n);
    if all.contains(o) {
        let x = choose|x: int| 0 <= x < all.len() && all[x] == o;
        let (r, j) = column_laws::lemma_occurrence_is_placed(v, nodes.len(), x);
        placement_laws::lemma_node_position(nodes, r);
        let i = placement_laws::node_of_row(nodes, r);
        assert(v[r].place == placement_laws::place_of_row(nodes, r));
        assert(nodes[i].properties[j] == (o.key, o.value));
        assert(plan_laws::is_node_property(nodes, n.index, o));
    }
    if plan_laws::is_node_property(nodes, n.index, o) {
        let (i, j) = choose|i: int, j: int|
            0 <= i < nodes.len() && 0 <= j < nodes[i].properties.len() && (
            #[trigger] nodes[i].properties[j]) == (o.key, o.value) && id_index::id_entry_for(
                n.index,
                nodes[i].id,
            ) == Some((o.table_id, o.row));
        let k = placement_laws::lemma_row_of_node(nodes, i);
        assert(v[k].place == placement_laws::place_of_row(nodes, k));
        assert(v[k].properties == nodes[i].properties);
        column_laws::lemma_placed_property_occurs(v, nodes.len(), k, j);
        assert(column_laws::placed_property(v[k], j) == o);
    }
}

/// The columns of a streaming plan hold the properties of the nodes in the
/// nodes' rows, all of them, and under the numbers of node tables nothing else.
pub proof fn lemma_stream_plan_holds_the_properties(
    nodes: Seq<NodeRecord>,
    edges: Seq<EdgeRecord>,
    p: PlanView,
    o: Occurrence,
)
    requires
        placement_laws::nodes_valid(nodes),
        stream_plan::streaming_plan(nodes, edges) == Ok::<PlanView, GenerationError>(p),
    ensures
        column_laws::columns_hold(p.cells, o) <==> plan_laws::is_node_property(nodes, p.nodes.index, o),
{
    lemma_rel_cells_apart(p, nodes, edges);
    let n = p.nodes;
    let c = stream_plan::kind_columns(n.counts, n.occurrences)->Ok_0;
    let all = column_laws::placed_occurrences(placement_laws::node_places(nodes), nodes.len());
    let s = column_laws::sorted_occurrences(all);
    lemma_node_occurrences(nodes, n);
    column_laws::lemma_sorting_keeps_occurrences(all);
    column_laws::lemma_columns_hold_their_occurrences(c.0, s, c.1);
    lemma_node_occurs(nodes, n, o);
    if column_laws::columns_hold(p.cells, o) {
        let i = choose|i: int| 0 <= i < p.cells.len() && column_laws::column_holds(#[trigger] p.cells[i], o);
        assert(i < c.1.len());
        assert(p.cells[i] == c.1[i]);
        assert(c.1[i].cells[o.row as int] is Some);
        assert(column_laws::cell_occurrence(c.1[i], o.row as int) == o);
        assert(s.contains(o));
    }
    if s.contains(o) {
        let a = choose|a: int| 0 <= a < s.len() && s[a] == o;
        assert(column_laws::columns_hold(c.1, s[a]));
        let i = choose|i: int| 0 <= i < c.1.len() && column_laws::column_holds(#[trigger] c.1[i], o);
        assert(p.cells[i] == c.1[i]);
        assert(column_laws::column_holds(p.cells[i], o));
    }
}

proof fn lemma_last_column<V>(cells: Seq<CellsView>, vals: Seq<V>, c: int, k: nat)
    requires
        0 <= c < k <= cells.len(),
        forall|j: int|
            c < j < k ==> (#[trigger] cells[j]).table_id != cells[c].table_id || cells[j].key
                != cells[c].key,
    ensures
        orchestrator::column_map(cells, vals, cells[c].table_id as int, k).dom().contains(cells[c].key),
        orchestrator::column_map(cells, vals, cells[c].table_id as int, k)[cells[c].key] == vals[c],
    decreases k,
{
    if c < k - 1 {
        lemma_last_column(cells, vals, c, (k - 1) as nat);
        assert(cells[k - 1].table_id != cells[c].table_id || cells[k - 1].key != cells[c].key);
    }
}

/// The store of a streaming build gives back every text of a node under the
/// node's original id and the property's key.
pub proof fn lemma_streamed_store_gives_texts_back(
    nodes: Seq<NodeRecord>,
    edges: Seq<EdgeRecord>,
    p: PlanView,
    codecs: Seq<ColumnView>,
    blocks: Seq<Seq<ZoneView>>,
    s: StoreView,
    i: int,
    j: int,
)
    requires
        placement_laws::nodes_valid(nodes),
        stream_plan::streaming_plan(nodes, edges) == Ok::<PlanView, GenerationError>(p),
        orchestrator::assembly_fault(p, codecs) is None,
        orchestrator::built_store(p, codecs, blocks, s),
        0 <= i < nodes.len(),
        0 <= j < nodes[i].properties.len(),
        nodes[i].properties[j].1 is Text,
    ensures
        lookup_laws::store_property(s, nodes[i].id, nodes[i].properties[j].0) == Some(
            CellContent::Text(nodes[i].properties[j].1->Text_0),
        ),
{
    let key = nodes[i].properties[j].0;
    let value = nodes[i].properties[j].1;
    lemma_rel_cells_apart(p, nodes, edges);
    placement_laws::lemma_streamed_nodes_are_placed(nodes, p.nodes);
    let k = placement_laws::lemma_row_of_node(nodes, i);
    let at = placement_laws::place_of_row(nodes, k);
    assert(id_index::id_entry_for(p.nodes.index, nodes[placement_laws::node_of_row(nodes, k)].id) == Some(at));
    reading_laws::lemma_lookup_place(p.nodes.index, nodes[i].id);
    let o = Occurrence { table_id: at.0, key, row: at.1, value };
    assert(nodes[i].properties[j] == (o.key, o.value));
    assert(plan_laws::is_node_property(nodes, p.nodes.index, o));
    lemma_stream_plan_holds_the_properties(nodes, edges, p, o);
    let c = choose|c: int| 0 <= c < p.cells.len() && column_laws::column_holds(#[trigger] p.cells[c], o);
    lemma_node_columns_distinct(nodes, p.nodes);
    assert forall|x: int| c < x < p.cells.len() implies (#[trigger] p.cells[x]).table_id
        != p.cells[c].table_id || p.cells[x].key != p.cells[c].key by {
        if x < node_cells(p.nodes).len() {
            assert(p.cells[x] == node_cells(p.nodes)[x]);
            assert(p.cells[c] == node_cells(p.nodes)[c]);
        }
    }
    lemma_last_column(p.cells, codecs, c, p.cells.len());
    let t = at.0 as int;
    assert(orchestrator::node_built(p, codecs, blocks, t, s.nodes[t]));
    let x = s.nodes[t].columns;
    opening_laws::lemma_map_is_listed(x, orchestrator::column_map(p.cells, codecs, t, p.cells.len()), key);
    reading_laws::lemma_listed_key(x, orchestrator::column_map(p.cells, codecs, t, p.cells.len()), (key, codecs[c]));
    assert(lookup_laws::keys_of_columns(x) =~= Seq::new(x.len(), |n: int| x[n].0));
    faults::lemma_no_fault(p.cells.len(), orchestrator::encoding_checks(p, codecs));
    assert(orchestrator::encoding_checks(p, codecs)(c) is None);
    assert(p.cells[c].cells[at.1 as int] == Some(value));
    assert(orchestrator::text_in_row(codecs[c], at.1 as int) == Some(value->Text_0));
}

proof fn lemma_node_columns_distinct(nodes: Seq<NodeRecord>, n: NodeStageView)
    requires
        placement_laws::nodes_valid(nodes),
        node_pass::label_listing(nodes).len() <= 0x1_0000,
        stream_plan::stream_node_stage(nodes) == Ok::<NodeStageView, GenerationError>(n),
        stream_plan::kind_columns(n.counts, n.occurrences) is Ok,
    ensures
        column_laws::columns_distinct(node_cells(n)),
{
    let c = stream_plan::kind_columns(n.counts, n.occurrences)->Ok_0;
    let all = column_laws::placed_occurrences(placement_laws::node_places(nodes), nodes.len());
    lemma_node_occurrences(nodes, n);
    column_laws::lemma_sorting_keeps_occurrences(all);
    column_laws::lemma_columns_hold_their_occurrences(c.0, column_laws::sorted_occurrences(all), c.1);
}

} // verus!
