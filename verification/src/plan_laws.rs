//! A plan holds the properties of its nodes and edges, all of them and no
//! others, each in the row of its node or at the position of its edge.

use crate::column_laws::{Occurrence, PlacedRow};
use crate::column_laws;
use crate::edge_pass::RelKey;
use crate::edge_pass;
use crate::edge_placement_laws;
use crate::faults;
use crate::generation::GenerationError;
use crate::id_index::IdEntry;
use crate::id_index;
use crate::orchestrator::PlanView;
use crate::orchestrator;
use crate::placement_laws;
use crate::records::{DeclRecord, EdgeRecord, NodeRecord};
use crate::runs::RecordView;
use crate::staging;
use crate::text;
use vstd::prelude::*;

verus! {

/// An occurrence is a property of a node in the node's row.
pub open spec fn is_node_property(nodes: Seq<NodeRecord>, index: Seq<IdEntry>, o: Occurrence) -> bool {
    exists|i: int, j: int|
        0 <= i < nodes.len() && 0 <= j < nodes[i].properties.len() && (
        #[trigger] nodes[i].properties[j]) == (o.key, o.value) && id_index::id_entry_for(index, nodes[i].id)
            == Some((o.table_id, o.row))
}

/// An occurrence is a property of an edge at the edge's position.
pub open spec fn is_edge_property(
    edges: Seq<EdgeRecord>,
    index: Seq<IdEntry>,
    keys: Seq<RelKey>,
    forward: Seq<RecordView>,
    o: Occurrence,
) -> bool {
    exists|m: int, j: int|
        0 <= m < edges.len() && 0 <= j < edges[edge_placement_laws::edge_of_forward(
            index,
            keys,
            edges,
            m,
        )].properties.len() && (#[trigger] edges[edge_placement_laws::edge_of_forward(
            index,
            keys,
            edges,
            m,
        )].properties[j]) == (o.key, o.value) && edge_placement_laws::place_of_forward(forward, m) == (
            o.table_id,
            o.row,
        )
}

/// The rows of a plan's tables with their properties.
pub open spec fn plan_rows(nodes: Seq<NodeRecord>, forward: Seq<RecordView>) -> Seq<PlacedRow> {
    placement_laws::node_places(nodes) + edge_placement_laws::edge_places(forward)
}

/// The occurrences of a plan.
pub open spec fn plan_occurrences(
    nodes: Seq<NodeRecord>,
    forward: Seq<RecordView>,
) -> Seq<Occurrence> {
    column_laws::placed_occurrences(plan_rows(nodes, forward), plan_rows(nodes, forward).len())
}

/// Nodes and edges that a plan can be made of, with no more tables of either
/// kind than table numbers.
pub open spec fn plan_valid(nodes: Seq<NodeRecord>, edges: Seq<EdgeRecord>, p: PlanView) -> bool {
    &&& placement_laws::nodes_valid(nodes)
    &&& edge_placement_laws::edges_valid(edges)
    &&& p.nodes.labels.len() <= 0x8000
    &&& p.edges.keys.len() <= 0x8000
}

/// The rows of a plan have places of their own.
proof fn lemma_plan_rows_distinct(
    nodes: Seq<NodeRecord>,
    edges: Seq<EdgeRecord>,
    decls: Seq<DeclRecord>,
    p: PlanView,
)
    requires
        plan_valid(nodes, edges, p),
        orchestrator::planned(nodes, edges, decls) == Ok::<PlanView, GenerationError>(p),
    ensures
        column_laws::rows_distinct(plan_rows(nodes, p.edges.forward)),
{
    let v = plan_rows(nodes, p.edges.forward);
    let nn = nodes.len() as int;
    placement_laws::lemma_nodes_are_placed(nodes, p.nodes);
    edge_placement_laws::lemma_edges_are_placed(p.nodes, edges, decls, p.edges);
    let f = p.edges.forward;
    assert forall|m: int| 0 <= m < edges.len() implies edge_placement_laws::forward_rel(#[trigger] f[m]) < 0x8000 by {
        assert(edge_placement_laws::edge_placed(p.nodes.index, p.edges.keys, edges, f, m));
        let e = edges[edge_placement_laws::edge_of_forward(p.nodes.index, p.edges.keys, edges, m)];
        let t = edge_placement_laws::edge_table(p.nodes.index, e);
        assert(p.edges.keys[p.edges.keys.index_of(t)] == t);
    }
    assert forall|a: int, b: int| 0 <= a < b < v.len() implies (#[trigger] v[a]).place != (
    #[trigger] v[b]).place by {
        if b < nn {
            placement_laws::lemma_places_differ(nodes, a, b);
            assert(v[a].place == placement_laws::place_of_row(nodes, a));
            assert(v[b].place == placement_laws::place_of_row(nodes, b));
        } else if a < nn {
            assert(v[a].place == placement_laws::place_of_row(nodes, a));
            assert(v[b].place == edge_placement_laws::place_of_forward(f, b - nn));
            assert(placement_laws::place_of_row(nodes, a).0 < p.nodes.labels.len());
            lemma_rel_number(edge_placement_laws::forward_rel(f[b - nn]));
        } else {
            assert(v[a].place == edge_placement_laws::place_of_forward(f, a - nn));
            assert(v[b].place == edge_placement_laws::place_of_forward(f, b - nn));
            edge_placement_laws::lemma_forward_places_differ(f, a - nn, b - nn);
        }
    }
    assert forall|a: int| 0 <= a < v.len() implies text::texts_ascend(
        column_laws::property_keys((#[trigger] v[a]).properties),
    ) by {
        if a < nn {
            placement_laws::lemma_node_position(nodes, a);
            assert(v[a].properties == nodes[placement_laws::node_of_row(nodes, a)].properties);
        } else {
            assert(edge_placement_laws::edge_placed(p.nodes.index, p.edges.keys, edges, f, a - nn));
            let i = edge_placement_laws::edge_of_forward(p.nodes.index, p.edges.keys, edges, a - nn);
            assert(v[a].properties == edges[i].properties);
        }
    }
}

/// The occurrences that a plan's columns are laid out from.
proof fn lemma_plan_occurrences(
    nodes: Seq<NodeRecord>,
    edges: Seq<EdgeRecord>,
    decls: Seq<DeclRecord>,
    p: PlanView,
)
    requires
        plan_valid(nodes, edges, p),
        orchestrator::planned(nodes, edges, decls) == Ok::<PlanView, GenerationError>(p),
    ensures
        ({
            let all = plan_occurrences(nodes, p.edges.forward);
            &&& p.nodes.occurrences + p.edges.occurrences == column_laws::occurrence_records(all)
            &&& column_laws::occurrences_single(all)
            &&& column_laws::values_fit(all)
        }),
{
    let f = p.edges.forward;
    let v = plan_rows(nodes, f);
    let all = plan_occurrences(nodes, f);
    let a = placement_laws::node_places(nodes);
    let b = edge_placement_laws::edge_places(f);
    placement_laws::lemma_nodes_are_placed(nodes, p.nodes);
    edge_placement_laws::lemma_edges_are_placed(p.nodes, edges, decls, p.edges);
    lemma_plan_rows_distinct(nodes, edges, decls, p);
    column_laws::lemma_placed_join(a, b, b.len());
    column_laws::lemma_placed_single(v, v.len());
    assert(p.nodes.occurrences + p.edges.occurrences =~= column_laws::occurrence_records(all));
    assert forall|x: int| 0 <= x < all.len() implies staging::value_fault((#[trigger] all[x]).value) is None by {
        let (r, j) = column_laws::lemma_occurrence_is_placed(v, v.len(), x);
        if r < a.len() {
            placement_laws::lemma_node_position(nodes, r);
            assert(v[r].properties == nodes[placement_laws::node_of_row(nodes, r)].properties);
            placement_laws::lemma_property_fits(nodes, placement_laws::node_of_row(nodes, r));
            assert(staging::value_fault(nodes[placement_laws::node_of_row(nodes, r)].properties[j].1) is None);
        } else {
            assert(edge_placement_laws::edge_placed(p.nodes.index, p.edges.keys, edges, f, r - a.len()));
            let i = edge_placement_laws::edge_of_forward(p.nodes.index, p.edges.keys, edges, r - a.len());
            assert(v[r].properties == edges[i].properties);
            lemma_edge_values_fit(edges, i, j);
        }
    }
}

proof fn lemma_rel_number(rel: u16)
    ensures
        edge_placement_laws::rel_number(rel) >= 0x8000,
{
    assert(0x8000u16 | rel >= 0x8000) by (bit_vector);
}

proof fn lemma_edge_values_fit(v: Seq<EdgeRecord>, i: int, j: int)
    requires
        faults::first_fault(v.len(), edge_pass::edge_checks(v)) is None,
        0 <= i < v.len(),
        0 <= j < v[i].properties.len(),
    ensures
        staging::value_fault(v[i].properties[j].1) is None,
{
    let p = v[i].properties;
    faults::lemma_no_fault(v.len(), edge_pass::edge_checks(v));
    assert(edge_pass::edge_checks(v)(i) is None);
    faults::lemma_no_fault(p.len(), staging::property_checks(p));
    assert(staging::property_checks(p)(j) is None);
}

/// The columns of a plan hold the properties of the nodes in the nodes' rows
/// and those of the edges at the edges' positions, all of them and nothing
/// else.
pub proof fn lemma_plan_holds_the_properties(
    nodes: Seq<NodeRecord>,
    edges: Seq<EdgeRecord>,
    decls: Seq<DeclRecord>,
    p: PlanView,
    o: Occurrence,
)
    requires
        plan_valid(nodes, edges, p),
        orchestrator::planned(nodes, edges, decls) == Ok::<PlanView, GenerationError>(p),
    ensures
        column_laws::columns_hold(p.cells, o) <==> is_node_property(nodes, p.nodes.index, o)
            || is_edge_property(edges, p.nodes.index, p.edges.keys, p.edges.forward, o),
{
    let f = p.edges.forward;
    let v = plan_rows(nodes, f);
    let all = plan_occurrences(nodes, f);
    let s = column_laws::sorted_occurrences(all);
    lemma_plan_occurrences(nodes, edges, decls, p);
    column_laws::lemma_sorting_keeps_occurrences(all);
    column_laws::lemma_columns_hold_their_occurrences(p.geometries, s, p.cells);
    if column_laws::columns_hold(p.cells, o) {
        let c = choose|c: int| 0 <= c < p.cells.len() && column_laws::column_holds(#[trigger] p.cells[c], o);
        assert(p.cells[c].cells[o.row as int] is Some);
        assert(column_laws::cell_occurrence(p.cells[c], o.row as int) == o);
        assert(s.contains(o));
    }
    if s.contains(o) {
        let a = choose|a: int| 0 <= a < s.len() && s[a] == o;
        assert(column_laws::columns_hold(p.cells, s[a]));
    }
    lemma_occurs_is_property(nodes, edges, decls, p, o);
}

/// The occurrences of a plan are the properties of its nodes and edges.
proof fn lemma_occurs_is_property(
    nodes: Seq<NodeRecord>,
    edges: Seq<EdgeRecord>,
    decls: Seq<DeclRecord>,
    p: PlanView,
    o: Occurrence,
)
    requires
        plan_valid(nodes, edges, p),
        orchestrator::planned(nodes, edges, decls) == Ok::<PlanView, GenerationError>(p),
    ensures
        plan_occurrences(nodes, p.edges.forward).contains(o) <==> is_node_property(
            nodes,
            p.nodes.index,
            o,
        ) || is_edge_property(edges, p.nodes.index, p.edges.keys, p.edges.forward, o),
{
    let f = p.edges.forward;
    let v = plan_rows(nodes, f);
    let all = plan_occurrences(nodes, f);
    let nn = nodes.len() as int;
    placement_laws::lemma_nodes_are_placed(nodes, p.nodes);
    edge_placement_laws::lemma_edges_are_placed(p.nodes, edges, decls, p.edges);
    if all.contains(o) {
        let x = choose|x: int| 0 <= x < all.len() && all[x] == o;
        let (r, j) = column_laws::lemma_occurrence_is_placed(v, v.len(), x);
        if r < nn {
            placement_laws::lemma_node_position(nodes, r);
            let i = placement_laws::node_of_row(nodes, r);
            assert(v[r].place == placement_laws::place_of_row(nodes, r));
            assert(nodes[i].properties[j] == (o.key, o.value));
            assert(is_node_property(nodes, p.nodes.index, o));
        } else {
            let m = r - nn;
            assert(edge_placement_laws::edge_placed(p.nodes.index, p.edges.keys, edges, f, m));
            assert(v[r].place == edge_placement_laws::place_of_forward(f, m));
            let i = edge_placement_laws::edge_of_forward(p.nodes.index, p.edges.keys, edges, m);
            assert(edges[i].properties[j] == (o.key, o.value));
            assert(is_edge_property(edges, p.nodes.index, p.edges.keys, f, o));
        }
    }
    if is_node_property(nodes, p.nodes.index, o) {
        let (i, j) = choose|i: int, j: int|
            0 <= i < nodes.len() && 0 <= j < nodes[i].properties.len() && (
            #[trigger] nodes[i].properties[j]) == (o.key, o.value) && id_index::id_entry_for(
                p.nodes.index,
                nodes[i].id,
            ) == Some((o.table_id, o.row));
        let k = placement_laws::lemma_row_of_node(nodes, i);
        assert(v[k].place == placement_laws::place_of_row(nodes, k));
        assert(v[k].properties == nodes[i].properties);
        column_laws::lemma_placed_property_occurs(v, v.len(), k, j);
        assert(column_laws::placed_property(v[k], j) == o);
    }
    if is_edge_property(edges, p.nodes.index, p.edges.keys, f, o) {
        let (m, j) = choose|m: int, j: int|
            0 <= m < edges.len() && 0 <= j < edges[edge_placement_laws::edge_of_forward(
                p.nodes.index,
                p.edges.keys,
                edges,
                m,
            )].properties.len() && (#[trigger] edges[edge_placement_laws::edge_of_forward(
                p.nodes.index,
                p.edges.keys,
                edges,
                m,
            )].properties[j]) == (o.key, o.value) && edge_placement_laws::place_of_forward(f, m) == (
                o.table_id,
                o.row,
            );
        assert(edge_placement_laws::edge_placed(p.nodes.index, p.edges.keys, edges, f, m));
        let r = nn + m;
        assert(v[r].place == edge_placement_laws::place_of_forward(f, m));
        column_laws::lemma_placed_property_occurs(v, v.len(), r, j);
        assert(column_laws::placed_property(v[r], j) == o);
    }
}

/// A plan has one column for every table and property key.
pub proof fn lemma_plan_columns_are_distinct(
    nodes: Seq<NodeRecord>,
    edges: Seq<EdgeRecord>,
    decls: Seq<DeclRecord>,
    p: PlanView,
)
    requires
        plan_valid(nodes, edges, p),
        orchestrator::planned(nodes, edges, decls) == Ok::<PlanView, GenerationError>(p),
    ensures
        column_laws::columns_distinct(p.cells),
{
    let all = plan_occurrences(nodes, p.edges.forward);
    lemma_plan_occurrences(nodes, edges, decls, p);
    column_laws::lemma_sorting_keeps_occurrences(all);
    column_laws::lemma_columns_hold_their_occurrences(p.geometries, column_laws::sorted_occurrences(all), p.cells);
}

/// The columns of a plan stand by table, then by property key.
pub proof fn lemma_plan_columns_ascend(
    nodes: Seq<NodeRecord>,
    edges: Seq<EdgeRecord>,
    decls: Seq<DeclRecord>,
    p: PlanView,
)
    requires
        plan_valid(nodes, edges, p),
        orchestrator::planned(nodes, edges, decls) == Ok::<PlanView, GenerationError>(p),
    ensures
        column_laws::columns_ascend(p.cells),
{
    let all = plan_occurrences(nodes, p.edges.forward);
    lemma_plan_occurrences(nodes, edges, decls, p);
    column_laws::lemma_sorting_keeps_occurrences(all);
    column_laws::lemma_columns_ascend(p.geometries, column_laws::sorted_occurrences(all), p.cells);
}

} // verus!
