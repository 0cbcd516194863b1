//! A build counts what it was handed: its totals are the numbers of nodes and
//! edges, and the same input gives the same bytes.

use crate::adjacency::AdjacencyView;
use crate::adjacency;
use crate::adjacency_laws;
use crate::build_laws;
use crate::builder::StreamingGenerationOutput;
use crate::builder;
use crate::column_pass::GeometryView;
use crate::csr_pass::RelTableGeometry;
use crate::csr_pass;
use crate::edge_pass::RelKey;
use crate::edge_pass;
use crate::emit_columns::CellsView;
use crate::emit_ids;
use crate::generation::GenerationError;
use crate::node_pass;
use crate::opening_laws;
use crate::orchestrator::{GenerationPlan, PlanView};
use crate::orchestrator;
use crate::records::{DeclRecord, EdgeRecord, NodeRecord};
use crate::runs::RecordView;
use crate::runs;
use crate::stages::{EdgeStageView, NodeStageView};
use crate::stages;
use crate::stream_plan;
use crate::tables::{ColumnView, NodeTableView, RelTableView, StoreView};
use crate::v5_write;
use crate::value::ZoneView;
use vstd::prelude::*;

verus! {

proof fn lemma_sum_update(lens: Seq<u64>, t: int, x: u64, n: int)
    requires
        0 <= t < lens.len(),
        0 <= n <= lens.len(),
    ensures
        adjacency::row_start(lens.update(t, x), n) == adjacency::row_start(lens, n) + if t < n {
            x - lens[t]
        } else {
            0
        },
    decreases n,
{
    if n > 0 {
        lemma_sum_update(lens, t, x, n - 1);
    }
}

proof fn lemma_sum_of_zeros(lens: Seq<u64>, n: int)
    requires
        n <= lens.len(),
        forall|t: int| 0 <= t < lens.len() ==> #[trigger] lens[t] == 0,
    ensures
        adjacency::row_start(lens, n) == 0,
    decreases n,
{
    if n > 0 {
        lemma_sum_of_zeros(lens, n - 1);
    }
}

/// The rows of all tables are the rows walked.
proof fn lemma_walk_counts_rows(labels: Seq<Seq<char>>, recs: Seq<RecordView>, k: nat)
    requires
        k <= u64::MAX,
        node_pass::node_walk(labels, recs, k) is Ok,
    ensures
        node_pass::node_walk(labels, recs, k)->Ok_0.counts.len() == labels.len(),
        adjacency::row_start(node_pass::node_walk(labels, recs, k)->Ok_0.counts, labels.len() as int) == k,
    decreases k,
{
    let w = node_pass::node_walk(labels, recs, k)->Ok_0;
    if k == 0 {
        lemma_sum_of_zeros(w.counts, labels.len() as int);
    } else {
        let j = (k - 1) as nat;
        assert(node_pass::node_walk(labels, recs, j) is Ok);
        lemma_walk_counts_rows(labels, recs, j);
        let u = node_pass::node_walk(labels, recs, j)->Ok_0;
        let l = crate::staging::split_row_key(recs[k - 1].key)->Ok_0.0;
        let t = labels.index_of(l);
        assert(labels.contains(l));
        assert(0 <= t < labels.len());
        adjacency::lemma_row_start_grows(u.counts, 0, t);
        adjacency::lemma_row_start_grows(u.counts, t + 1, labels.len() as int);
        assert(adjacency::row_start(u.counts, t + 1) == adjacency::row_start(u.counts, t) + u.counts[t]);
        lemma_sum_update(u.counts, t, (u.counts[t] + 1) as u64, labels.len() as int);
    }
}

proof fn lemma_forward_count(
    n: NodeStageView,
    keys: Seq<RelKey>,
    decls: Seq<DeclRecord>,
    rows: Seq<RecordView>,
    k: nat,
)
    requires
        edge_pass::forward_records(n.index, keys, n.labels, n.entries, decls, rows, k) is Ok,
    ensures
        edge_pass::forward_records(n.index, keys, n.labels, n.entries, decls, rows, k)->Ok_0.len() == k,
    decreases k,
{
    if k > 0 {
        let j = (k - 1) as nat;
        assert(edge_pass::forward_records(n.index, keys, n.labels, n.entries, decls, rows, j) is Ok);
        lemma_forward_count(n, keys, decls, rows, j);
    }
}

proof fn lemma_target_count(g: Seq<RelTableGeometry>, recs: Seq<RecordView>, k: nat)
    requires
        csr_pass::forward_after(g, recs, k) is Ok,
    ensures
        csr_pass::forward_after(g, recs, k)->Ok_0.targets.len() == k,
    decreases k,
{
    if k > 0 {
        assert(csr_pass::forward_after(g, recs, (k - 1) as nat) is Ok);
        lemma_target_count(g, recs, (k - 1) as nat);
    }
}

/// The edges of the edge stage are the rows that it was handed.
proof fn lemma_stage_edge_count(
    n: NodeStageView,
    rows: Seq<RecordView>,
    decls: Seq<DeclRecord>,
    tagged: bool,
    e: EdgeStageView,
)
    requires
        stages::edge_stage_of_rows(n, rows, decls, tagged) == Ok::<EdgeStageView, GenerationError>(e),
    ensures
        e.forward.len() == rows.len(),
{
    let keys = edge_pass::rel_listing(edge_pass::rel_table_set(n.index, rows, rows.len())->Ok_0);
    lemma_forward_count(n, keys, decls, rows, rows.len());
    let f = edge_pass::forward_records(n.index, keys, n.labels, n.entries, decls, rows, rows.len())->Ok_0;
    runs::lemma_sorted_records(f);
}

proof fn lemma_node_sum(s: Seq<NodeTableView>, counts: Seq<u64>, n: int)
    requires
        0 <= n <= s.len(),
        forall|t: int| 0 <= t < s.len() ==> (#[trigger] s[t]).rows == counts[t],
    ensures
        v5_write::node_total(s, n) == adjacency::row_start(counts, n),
    decreases n,
{
    if n > 0 {
        lemma_node_sum(s, counts, n - 1);
        assert(s[n - 1].rows == counts[n - 1]);
    }
}

proof fn lemma_edge_sum(s: Seq<RelTableView>, counts: Seq<u64>, n: int)
    requires
        0 <= n <= s.len(),
        forall|t: int| 0 <= t < s.len() ==> (#[trigger] s[t]).fwd.targets.len() == counts[t],
    ensures
        v5_write::edge_total(s, n) == adjacency::row_start(counts, n),
    decreases n,
{
    if n > 0 {
        lemma_edge_sum(s, counts, n - 1);
        assert(s[n - 1].fwd.targets.len() == counts[n - 1]);
    }
}

/// The tables of a plan's store hold its rows and its edges.
proof fn lemma_store_totals(
    n: NodeStageView,
    e: EdgeStageView,
    p: PlanView,
    codecs: Seq<ColumnView>,
    blocks: Seq<Seq<ZoneView>>,
    s: StoreView,
)
    requires
        n.counts.len() == n.labels.len(),
        p.nodes == n,
        p.edges == e,
        adjacency::table_adjacency(e.keys, n.counts, e.counts, e.forward) == Ok::<
            Seq<AdjacencyView>,
            GenerationError,
        >(p.adjacency),
        emit_ids::edge_counts(e.forward, e.keys.len(), e.forward.len()) == Ok::<Seq<u64>, GenerationError>(
            e.counts,
        ),
        orchestrator::built_store(p, codecs, blocks, s),
    ensures
        v5_write::node_total(s.nodes, s.nodes.len() as int) == adjacency::row_start(n.counts, n.labels.len() as int),
        v5_write::edge_total(s.rels, s.rels.len() as int) == e.forward.len(),
{
    assert forall|t: int| 0 <= t < s.nodes.len() implies (#[trigger] s.nodes[t]).rows
        == n.counts[t] by {
        assert(orchestrator::node_built(p, codecs, blocks, t, s.nodes[t]));
    }
    lemma_node_sum(s.nodes, n.counts, s.nodes.len() as int);
    let g = adjacency::rel_geometries(e.keys, n.counts, e.keys.len())->Ok_0;
    adjacency_laws::lemma_rel_geometries(e.keys, n.counts, e.keys.len());
    opening_laws::lemma_edge_counts_tables(e.forward, e.keys.len(), e.forward.len());
    lemma_target_count(g, e.forward, e.forward.len());
    let a = adjacency::adjacency_arrays(g, e.forward)->Ok_0;
    assert(adjacency::arrays_fit(g, e.counts, a));
    assert forall|t: int| 0 <= t < s.rels.len() implies (#[trigger] s.rels[t]).fwd.targets.len()
        == e.counts[t] by {
        assert(orchestrator::rel_built(p, codecs, blocks, t, s.rels[t]));
        adjacency::lemma_row_start_grows(e.counts, 0, t);
        adjacency::lemma_row_start_grows(e.counts, t + 1, e.counts.len() as int);
        assert(adjacency::row_start(e.counts, t + 1) == adjacency::row_start(e.counts, t) + e.counts[t]);
        assert(p.adjacency[t].fwd.targets == adjacency::split_rows(a.fwd_targets, e.counts)[t]);
    }
    lemma_edge_sum(s.rels, e.counts, s.rels.len() as int);
}

/// A plan's store has as many nodes and edges as the plan was made of.
pub proof fn lemma_built_totals(
    nodes: Seq<NodeRecord>,
    edges: Seq<EdgeRecord>,
    decls: Seq<DeclRecord>,
    p: PlanView,
    codecs: Seq<ColumnView>,
    blocks: Seq<Seq<ZoneView>>,
    s: StoreView,
)
    requires
        nodes.len() <= u64::MAX,
        orchestrator::planned(nodes, edges, decls) == Ok::<PlanView, GenerationError>(p),
        orchestrator::built_store(p, codecs, blocks, s),
    ensures
        v5_write::node_total(s.nodes, s.nodes.len() as int) == nodes.len(),
        v5_write::edge_total(s.rels, s.rels.len() as int) == edges.len(),
{
    let rows = runs::sorted_records(node_pass::staged_node_rows(nodes));
    runs::lemma_sorted_records(node_pass::staged_node_rows(nodes));
    runs::lemma_sorted_records(edge_pass::staged_edge_rows(edges));
    let n = stages::node_stage(nodes)->Ok_0;
    let e = stages::edge_stage(n, edges, decls)->Ok_0;
    lemma_walk_counts_rows(node_pass::label_listing(nodes), rows, rows.len());
    lemma_stage_edge_count(n, runs::sorted_records(edge_pass::staged_edge_rows(edges)), decls, true, e);
    lemma_store_totals(n, e, p, codecs, blocks, s);
}

/// A streaming build's totals are the numbers of nodes and edges that it was
/// handed, and it keeps their ids.
pub proof fn lemma_streamed_totals(
    nodes: Seq<NodeRecord>,
    edges: Seq<EdgeRecord>,
    p: PlanView,
    plan: GenerationPlan,
    codecs: Seq<ColumnView>,
    blocks: Seq<Seq<ZoneView>>,
    x: StreamingGenerationOutput,
)
    requires
        nodes.len() <= u64::MAX,
        stream_plan::streaming_plan(nodes, edges) == Ok::<PlanView, GenerationError>(p),
        plan.spells(p),
        builder::is_streamed(plan.content(), codecs, blocks, Ok(x)),
    ensures
        x.total_nodes == nodes.len(),
        x.total_edges == edges.len(),
        x.preserves_ids,
{
    let q = plan.content();
    let s = choose|s: StoreView| #[trigger]
        orchestrator::built_store(q, codecs, blocks, s) && x.total_nodes == v5_write::node_total(
            s.nodes,
            s.nodes.len() as int,
        ) && x.total_edges == v5_write::edge_total(s.rels, s.rels.len() as int) && x.preserves_ids;
    assert(opening_laws::plans_alike(p, q));
    opening_laws::lemma_alike_stores(p, q, codecs, blocks, s);
    let rows = runs::sorted_records(node_pass::staged_node_rows(nodes));
    runs::lemma_sorted_records(node_pass::staged_node_rows(nodes));
    runs::lemma_sorted_records(edge_pass::staged_edge_rows(edges));
    let n = stream_plan::stream_node_stage(nodes)->Ok_0;
    let e = stages::edge_stage_of_rows(n, stream_plan::stream_edge_rows(edges), Seq::empty(), false)->Ok_0;
    lemma_walk_counts_rows(node_pass::label_listing(nodes), rows, rows.len());
    lemma_stage_edge_count(n, stream_plan::stream_edge_rows(edges), Seq::empty(), false, e);
    lemma_store_totals(n, e, p, codecs, blocks, s);
}

/// The columns of a plan as one encoding gives them, each from its geometry and
/// its rows.
pub open spec fn encoded_by(
    enc: spec_fn(GeometryView, CellsView) -> (ColumnView, Seq<ZoneView>),
    p: PlanView,
    codecs: Seq<ColumnView>,
    blocks: Seq<Seq<ZoneView>>,
) -> bool {
    &&& codecs.len() == p.cells.len()
    &&& blocks.len() == p.cells.len()
    &&& forall|i: int|
        0 <= i < p.cells.len() ==> (#[trigger] codecs[i], blocks[i]) == enc(
            p.geometries[i],
            p.cells[i],
        )
}

proof fn lemma_encoded_once(
    enc: spec_fn(GeometryView, CellsView) -> (ColumnView, Seq<ZoneView>),
    p: PlanView,
    c: Seq<ColumnView>,
    z: Seq<Seq<ZoneView>>,
    d: Seq<ColumnView>,
    y: Seq<Seq<ZoneView>>,
)
    requires
        encoded_by(enc, p, c, z),
        encoded_by(enc, p, d, y),
    ensures
        c == d,
        z == y,
{
    assert forall|i: int| 0 <= i < c.len() implies c[i] == d[i] && z[i] == y[i] by {
        assert((c[i], z[i]) == enc(p.geometries[i], p.cells[i]));
        assert((d[i], y[i]) == enc(p.geometries[i], p.cells[i]));
    }
    assert(c =~= d);
    assert(z =~= y);
}

/// Two streaming builds of the same nodes and edges, under any one way to encode
/// a column, yield the same bytes and totals, or the same error.
pub proof fn lemma_streaming_is_deterministic(
    nodes: Seq<NodeRecord>,
    edges: Seq<EdgeRecord>,
    p: PlanView,
    enc: spec_fn(GeometryView, CellsView) -> (ColumnView, Seq<ZoneView>),
    first: GenerationPlan,
    first_codecs: Seq<ColumnView>,
    first_blocks: Seq<Seq<ZoneView>>,
    a: Result<StreamingGenerationOutput, GenerationError>,
    second: GenerationPlan,
    second_codecs: Seq<ColumnView>,
    second_blocks: Seq<Seq<ZoneView>>,
    b: Result<StreamingGenerationOutput, GenerationError>,
)
    requires
        stream_plan::streaming_plan(nodes, edges) == Ok::<PlanView, GenerationError>(p),
        first.spells(p),
        encoded_by(enc, first.content(), first_codecs, first_blocks),
        builder::is_streaming_build(first.content(), first_codecs, first_blocks, a),
        second.spells(p),
        encoded_by(enc, second.content(), second_codecs, second_blocks),
        builder::is_streaming_build(second.content(), second_codecs, second_blocks, b),
    ensures
        match a {
            Ok(x) => b is Ok && b->Ok_0.payload@ == x.payload@ && b->Ok_0.total_nodes
                == x.total_nodes && b->Ok_0.total_edges == x.total_edges
                && b->Ok_0.preserves_ids == x.preserves_ids,
            Err(e) => b == Err::<StreamingGenerationOutput, GenerationError>(e),
        },
{
    let q = first.content();
    assert(q == second.content());
    lemma_encoded_once(enc, q, first_codecs, first_blocks, second_codecs, second_blocks);
    if orchestrator::assembly_fault(q, first_codecs) is None {
        build_laws::lemma_streaming_build_is_deterministic(q, first_codecs, first_blocks, a, b);
    }
}

/// Two bounded builds of the same nodes and edges, under any one way to encode a
/// column, yield the same bytes, or the same error.
pub proof fn lemma_bounded_is_deterministic(
    nodes: Seq<NodeRecord>,
    edges: Seq<EdgeRecord>,
    decls: Seq<DeclRecord>,
    p: PlanView,
    enc: spec_fn(GeometryView, CellsView) -> (ColumnView, Seq<ZoneView>),
    first: GenerationPlan,
    first_codecs: Seq<ColumnView>,
    first_blocks: Seq<Seq<ZoneView>>,
    a: Result<Seq<u8>, GenerationError>,
    second: GenerationPlan,
    second_codecs: Seq<ColumnView>,
    second_blocks: Seq<Seq<ZoneView>>,
    b: Result<Seq<u8>, GenerationError>,
)
    requires
        orchestrator::planned(nodes, edges, decls) == Ok::<PlanView, GenerationError>(p),
        first.spells(p),
        encoded_by(enc, first.content(), first_codecs, first_blocks),
        orchestrator::is_bounded_build(first.content(), first_codecs, first_blocks, a),
        second.spells(p),
        encoded_by(enc, second.content(), second_codecs, second_blocks),
        orchestrator::is_bounded_build(second.content(), second_codecs, second_blocks, b),
    ensures
        a == b,
{
    let q = first.content();
    assert(q == second.content());
    lemma_encoded_once(enc, q, first_codecs, first_blocks, second_codecs, second_blocks);
    if orchestrator::assembly_fault(q, first_codecs) is None {
        build_laws::lemma_build_is_deterministic(q, first_codecs, first_blocks, a, b);
    }
}

} // verus!
