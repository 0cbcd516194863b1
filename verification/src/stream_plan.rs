//! The plan of a streaming build.
//!
//! Both sides are staged before either is merged. Merging refuses an original
//! id that occurs twice. Columns of node tables and of relationship tables are
//! numbered apart.

use crate::adjacency::{RelAdjacency, build_adjacency};
use crate::adjacency;
use crate::column_pass::{ColumnGeometry, GeometryView};
use crate::column_pass;
use crate::edge_pass::EdgePass;
use crate::edge_pass;
use crate::emit_columns::{CellsView, ColumnCells};
use crate::emit_columns;
use crate::faults;
use crate::generation::GenerationError;
use crate::id_index::MappedNodeIdIndex;
use crate::live_graph::LogicalLabelLookup;
use crate::node_pass::{NodePass, NodePassOutput, NodeSchema, listed, number_labels, rank_occurrences};
use crate::node_pass;
use crate::orchestrator::{GenerationPlan, PlanView};
use crate::records::{EdgeRecord, GenerationEdge, GenerationNode, NodeRecord, RelSchemaDecl};
use crate::records;
use crate::runs::{RecordView, RunSetLease, RunSink, SortRecord};
use crate::runs;
use crate::sorting::sort_keys;
use crate::sorting;
use crate::stages::{EdgeStage, EdgeStageView, NodeStage, NodeStageView, finish_edge_stage, materialize_mapped_id_index, run_column_stage};
use crate::stages;
use crate::staging::{check_label, decode_properties, encode_properties, node_row_key, split_edge_row_key, split_edge_row_payload, split_node_row_key};
use crate::staging;
use crate::text::TextMap;
use crate::text;
use crate::wire::bytes_to_vec;
use std::collections::HashSet;
use vstd::prelude::*;
use vstd::std_specs::hash::*;

verus! {

// ----------------------------------------------------------------- staging

/// Why a node cannot be staged.
pub open spec fn stream_node_fault(n: NodeRecord) -> Option<GenerationError> {
    if !records::labels_valid(n.labels) {
        Some(GenerationError::InvalidLabels { node_id: n.id })
    } else {
        match staging::properties_fault(n.properties) {
            Some(e) => Some(e),
            None => staging::label_fault(n.labels[0]),
        }
    }
}

/// The checks on the nodes, one by one.
pub open spec fn stream_node_checks(v: Seq<NodeRecord>) -> spec_fn(int) -> Option<
    GenerationError,
> {
    |i: int| stream_node_fault(v[i])
}

/// Stages the nodes: their rows, and the names of their tables.
fn stage_nodes(nodes: &[GenerationNode]) -> (r: Result<
    (RunSetLease, TextMap<()>),
    GenerationError,
>)
    ensures
        ({
            let v = records::node_records(nodes@);
            let fault = faults::first_fault(v.len(), stream_node_checks(v));
            match r {
                Ok(x) => fault is None && x.0@ == runs::sorted_records(node_pass::staged_node_rows(v))
                    && x.1@.dom() == node_pass::table_labels(v),
                Err(e) => fault == Some(e),
            }
        }),
{
    let n: usize = nodes.len();
    let ghost v = records::node_records(nodes@);
    assert(n == v.len());
    let mut sink: RunSink = RunSink::new();
    let mut names: TextMap<()> = TextMap::new();
    let mut i: usize = 0;
    assert(sink@ =~= node_pass::staged_node_rows(v.take(0)));
    assert(names@.dom() =~= node_pass::table_labels(v.take(0)));
    while i < n
        invariant
            i <= n,
            n == nodes@.len(),
            v == records::node_records(nodes@),
            sink@ == node_pass::staged_node_rows(v.take(i as int)),
            names@.dom() == node_pass::table_labels(v.take(i as int)),
            faults::first_fault(i as nat, stream_node_checks(v)) is None,
        decreases n - i,
    {
        let node: &GenerationNode = &nodes[i];
        let ghost x = v[i as int];
        let ghost a = v.take(i as int);
        let ghost b = v.take(i as int + 1);
        proof {
            assert(x == node@);
            assert(b =~= a.push(x));
            assert(stream_node_checks(v)(i as int) == stream_node_fault(x));
            if stream_node_fault(x) is Some {
                faults::lemma_first_fault_stays((i + 1) as nat, n as nat, stream_node_checks(v));
            }
        }
        match node.validate_labels() {
            Ok(_) => {},
            Err(e) => return Err(e),
        }
        let props: Vec<u8> = match encode_properties(&node.properties) {
            Ok(p) => p,
            Err(e) => return Err(e),
        };
        let physical: &str = node.physical_label();
        match check_label(physical) {
            Ok(_) => {},
            Err(e) => return Err(e),
        }
        names.insert(physical, ());
        sink.push(SortRecord::new(node_row_key(physical, node.id.0), props));
        proof {
            assert(sink@ =~= node_pass::staged_node_rows(b));
            assert forall|l: Seq<char>| node_pass::table_labels(b).contains(l) == (node_pass::table_labels(a).contains(l)
                || l == x.labels[0]) by {
                if node_pass::table_labels(b).contains(l) && l != x.labels[0] {
                    let k = choose|k: int| 0 <= k < b.len() && (#[trigger] b[k]).labels[0] == l;
                    assert(a[k].labels[0] == l);
                }
                if node_pass::table_labels(a).contains(l) {
                    let k = choose|k: int| 0 <= k < a.len() && (#[trigger] a[k]).labels[0] == l;
                    assert(b[k].labels[0] == l);
                }
                assert(b[i as int].labels[0] == x.labels[0]);
            }
            assert(names@.dom() =~= node_pass::table_labels(b));
        }
        i = i + 1;
    }
    assert(v.take(n as int) =~= v);
    Ok((sink.finish(), names))
}

// ------------------------------------------------------------------- merge

/// The original ids of the first `k` rows.
pub open spec fn row_ids(recs: Seq<RecordView>, k: nat) -> Set<u64>
    decreases k,
{
    if k == 0 {
        Set::empty()
    } else {
        match staging::split_row_key(recs[k - 1].key) {
            Ok(p) => row_ids(recs, (k - 1) as nat).insert(p.1),
            Err(_) => row_ids(recs, (k - 1) as nat),
        }
    }
}

/// The check on a node row: its key, whether its id occurred before, its
/// properties.
pub open spec fn node_merge_checks(recs: Seq<RecordView>) -> spec_fn(int) -> Option<
    GenerationError,
> {
    |i: int|
        match staging::split_row_key(recs[i].key) {
            Err(e) => Some(e),
            Ok(p) => if row_ids(recs, i as nat).contains(p.1) {
                Some(GenerationError::DuplicateNodeId(p.1))
            } else {
                match staging::decoded_properties(recs[i].payload) {
                    Err(e) => Some(e),
                    Ok(_) => None,
                }
            },
        }
}

/// The check on an edge row: its key, whether its id occurred before, its
/// payload, its properties.
pub open spec fn edge_merge_checks(recs: Seq<RecordView>) -> spec_fn(int) -> Option<
    GenerationError,
> {
    |i: int|
        match staging::split_row_key(recs[i].key) {
            Err(e) => Some(e),
            Ok(p) => if row_ids(recs, i as nat).contains(p.1) {
                Some(GenerationError::DuplicateEdgeId(p.1))
            } else {
                match staging::split_edge_payload(recs[i].payload) {
                    Err(e) => Some(e),
                    Ok(x) => match staging::decoded_properties(x.2) {
                        Err(e) => Some(e),
                        Ok(_) => None,
                    },
                }
            },
        }
}

/// Merges the node rows: refuses an id that occurs twice and a row that does
/// not decode.
pub fn merge_nodes(rows: &RunSetLease) -> (r: Result<(), GenerationError>)
    ensures
        match r {
            Ok(_) => faults::first_fault(rows@.len(), node_merge_checks(rows@)) is None,
            Err(e) => faults::first_fault(rows@.len(), node_merge_checks(rows@)) == Some(e),
        },
{
    broadcast use group_hash_axioms;

    let n: usize = rows.len();
    let ghost recs = rows@;
    let mut seen: HashSet<u64> = HashSet::new();
    let mut i: usize = 0;
    while i < n
        invariant
            i <= n,
            n == recs.len(),
            recs == rows@,
            obeys_key_model::<u64>(),
            seen@ == row_ids(recs, i as nat),
            faults::first_fault(i as nat, node_merge_checks(recs)) is None,
        decreases n - i,
    {
        let rec: &SortRecord = rows.record_at(i);
        proof {
            if node_merge_checks(recs)(i as int) is Some {
                faults::lemma_first_fault_stays((i + 1) as nat, n as nat, node_merge_checks(recs));
            }
        }
        let (_, id) = match split_node_row_key(rec.key.as_slice()) {
            Ok(p) => p,
            Err(e) => return Err(e),
        };
        if !seen.insert(id) {
            return Err(GenerationError::DuplicateNodeId(id));
        }
        match decode_properties(rec.payload.as_slice()) {
            Ok(_) => {},
            Err(e) => return Err(e),
        }
        i = i + 1;
    }
    Ok(())
}

/// Merges the edge rows: refuses an id that occurs twice and a row that does
/// not decode.
pub fn merge_edges(rows: &RunSetLease) -> (r: Result<(), GenerationError>)
    ensures
        match r {
            Ok(_) => faults::first_fault(rows@.len(), edge_merge_checks(rows@)) is None,
            Err(e) => faults::first_fault(rows@.len(), edge_merge_checks(rows@)) == Some(e),
        },
{
    broadcast use group_hash_axioms;

    let n: usize = rows.len();
    let ghost recs = rows@;
    let mut seen: HashSet<u64> = HashSet::new();
    let mut i: usize = 0;
    while i < n
        invariant
            i <= n,
            n == recs.len(),
            recs == rows@,
            obeys_key_model::<u64>(),
            seen@ == row_ids(recs, i as nat),
            faults::first_fault(i as nat, edge_merge_checks(recs)) is None,
        decreases n - i,
    {
        let rec: &SortRecord = rows.record_at(i);
        proof {
            if edge_merge_checks(recs)(i as int) is Some {
                faults::lemma_first_fault_stays((i + 1) as nat, n as nat, edge_merge_checks(recs));
            }
        }
        let (_, id) = match split_edge_row_key(rec.key.as_slice()) {
            Ok(p) => p,
            Err(e) => return Err(e),
        };
        if !seen.insert(id) {
            return Err(GenerationError::DuplicateEdgeId(id));
        }
        let (_, _, props) = match split_edge_row_payload(rec.payload.as_slice()) {
            Ok(p) => p,
            Err(e) => return Err(e),
        };
        match decode_properties(props) {
            Ok(_) => {},
            Err(e) => return Err(e),
        }
        i = i + 1;
    }
    Ok(())
}

// ------------------------------------------------------------------- names

/// The name that a row key spells.
pub open spec fn row_name(rec: RecordView) -> Seq<char> {
    staging::split_row_key(rec.key)->Ok_0.0
}

/// The names of rows as sort keys.
pub open spec fn name_keys(recs: Seq<RecordView>) -> Seq<Seq<u8>> {
    Seq::new(recs.len(), |i: int| text::utf8(row_name(recs[i])))
}

/// The rows of the edges, type by type.
pub open spec fn stream_edge_rows(v: Seq<EdgeRecord>) -> Seq<RecordView> {
    let run = runs::sorted_records(edge_pass::staged_edge_rows(v));
    runs::arranged_by(run, name_keys(run))
}

/// Every row key can be split.
pub open spec fn rows_split(recs: Seq<RecordView>) -> bool {
    forall|i: int| 0 <= i < recs.len() ==> staging::split_row_key((#[trigger] recs[i]).key) is Ok
}

/// Rows by name, those of one name in their order.
fn arrange_by_name(rows: &RunSetLease) -> (r: RunSetLease)
    requires
        rows_split(rows@),
    ensures
        r@ == runs::arranged_by(rows@, name_keys(rows@)),
{
    let n: usize = rows.len();
    let mut keys: Vec<Vec<u8>> = Vec::new();
    let mut i: usize = 0;
    while i < n
        invariant
            i <= n,
            n == rows@.len(),
            rows_split(rows@),
            keys@.len() == i,
            forall|k: int| 0 <= k < i ==> (#[trigger] keys@[k])@ == name_keys(rows@)[k],
        decreases n - i,
    {
        let rec: &SortRecord = rows.record_at(i);
        assert(staging::split_row_key(rows@[i as int].key) is Ok);
        let key: Vec<u8> = match split_edge_row_key(rec.key.as_slice()) {
            Ok(p) => bytes_to_vec(p.0.as_bytes()),
            Err(_) => Vec::new(),
        };
        keys.push(key);
        i = i + 1;
    }
    assert(sorting::key_bytes(keys@) =~= name_keys(rows@));
    let order: Vec<usize> = sort_keys(keys.as_slice());
    let r: RunSetLease = rows.picked(order.as_slice());
    assert(r@ =~= runs::arranged_by(rows@, name_keys(rows@)));
    r
}

// -------------------------------------------------------------------- plan

/// The node stage of a streaming build.
pub open spec fn stream_node_stage(v: Seq<NodeRecord>) -> Result<NodeStageView, GenerationError> {
    let rows = runs::sorted_records(node_pass::staged_node_rows(v));
    match node_pass::node_walk(node_pass::label_listing(v), rows, rows.len()) {
        Err(e) => Err(e),
        Ok(w) => match stages::materialized(runs::sorted_records(w.ids)) {
            Err(e) => Err(e),
            Ok(index) => Ok(
                NodeStageView {
                    labels: node_pass::label_listing(v),
                    counts: w.counts,
                    index,
                    occurrences: w.occurrences,
                    membership: None,
                    entries: Seq::empty(),
                },
            ),
        },
    }
}

/// The tables whose ids have no high bit.
pub open spec fn lower_tables(v: Seq<u64>) -> Seq<u64> {
    if v.len() <= 0x8000 {
        v
    } else {
        v.take(0x8000)
    }
}

/// The tables whose ids have a high bit.
pub open spec fn upper_tables(v: Seq<u64>) -> Seq<u64> {
    if v.len() <= 0x8000 {
        Seq::empty()
    } else {
        v.skip(0x8000)
    }
}

/// The columns of tables of one kind, whose ids take both values of the high
/// bit.
pub open spec fn kind_columns(counts: Seq<u64>, occurrences: Seq<RecordView>) -> Result<
    (Seq<GeometryView>, Seq<CellsView>),
    GenerationError,
> {
    stages::column_stage(lower_tables(counts), upper_tables(counts), node_pass::ranked_records(occurrences))
}

/// Columns of relationship tables, numbered behind all node tables.
pub open spec fn rel_numbered(v: Seq<CellsView>) -> Seq<CellsView> {
    Seq::new(
        v.len(),
        |i: int| CellsView { table_id: (v[i].table_id + 0x1_0000) as u32, ..v[i] },
    )
}

/// The plan of a streaming build once nodes and edges are staged: the columns of
/// the node tables, then those of the relationship tables, numbered apart.
pub open spec fn stream_planned_after(n: NodeStageView, e: EdgeStageView) -> Result<
    PlanView,
    GenerationError,
> {
    match kind_columns(n.counts, n.occurrences) {
        Err(f) => Err(f),
        Ok(c) => match kind_columns(e.counts, e.occurrences) {
            Err(f) => Err(f),
            Ok(d) => match adjacency::table_adjacency(e.keys, n.counts, e.counts, e.forward) {
                Err(f) => Err(f),
                Ok(a) => Ok(
                    PlanView {
                        nodes: n,
                        edges: e,
                        geometries: c.0 + d.0,
                        cells: c.1 + rel_numbered(d.1),
                        adjacency: a,
                        base: 0x1_0000,
                    },
                ),
            },
        },
    }
}

/// The plan once both sides are staged.
pub open spec fn streaming_plan_of_rows(nodes: Seq<NodeRecord>, edges: Seq<EdgeRecord>) -> Result<
    PlanView,
    GenerationError,
> {
    let node_run = runs::sorted_records(node_pass::staged_node_rows(nodes));
    let edge_run = runs::sorted_records(edge_pass::staged_edge_rows(edges));
    match faults::first_fault(node_run.len(), node_merge_checks(node_run)) {
        Some(e) => Err(e),
        None => if node_pass::label_listing(nodes).len() > 0x1_0000 {
            Err(node_pass::table_overflow())
        } else {
            match stream_node_stage(nodes) {
                Err(e) => Err(e),
                Ok(n) => match faults::first_fault(edge_run.len(), edge_merge_checks(edge_run)) {
                    Some(e) => Err(e),
                    None => match stages::edge_stage_of_rows(
                        n,
                        stream_edge_rows(edges),
                        Seq::empty(),
                        false,
                    ) {
                        Err(e) => Err(e),
                        Ok(x) => stream_planned_after(n, x),
                    },
                },
            }
        },
    }
}

/// The plan of a streaming build, or why there is none: staging both sides
/// comes before merging either.
pub open spec fn streaming_plan(nodes: Seq<NodeRecord>, edges: Seq<EdgeRecord>) -> Result<
    PlanView,
    GenerationError,
> {
    match faults::first_fault(nodes.len(), stream_node_checks(nodes)) {
        Some(e) => Err(e),
        None => match faults::first_fault(edges.len(), edge_pass::edge_checks(edges)) {
            Some(e) => Err(e),
            None => streaming_plan_of_rows(nodes, edges),
        },
    }
}

/// The node stage of merged rows.
fn place_nodes(run: RunSetLease, names: &TextMap<()>, Ghost(v): Ghost<Seq<NodeRecord>>) -> (r:
    Result<NodeStage, GenerationError>)
    requires
        run@ == runs::sorted_records(node_pass::staged_node_rows(v)),
        names@.dom() == node_pass::table_labels(v),
    ensures
        match r {
            Ok(x) => node_pass::label_listing(v).len() <= 0x1_0000 && stream_node_stage(v) == Ok::<
                NodeStageView,
                GenerationError,
            >(x.content()) && x.lookup.physical() == text::texts(x.schema.labels@)
                && node_pass::labels_numbered(x.schema) && x.schema.total_nodes == v.len()
                && x.schema.table_row_counts@ == x.counts@ && x.counts@.len()
                == x.schema.labels@.len(),
            Err(e) => if node_pass::label_listing(v).len() > 0x1_0000 {
                e == node_pass::table_overflow()
            } else {
                stream_node_stage(v) == Err::<NodeStageView, GenerationError>(e)
            },
        },
{
    let labels: Vec<String> = listed(names);
    proof {
        node_pass::lemma_lists_set_unique(text::texts(labels@), node_pass::label_listing(v), node_pass::table_labels(v));
        assert(text::texts(labels@).len() == labels@.len());
    }
    let label_to_table_id: TextMap<u16> = match number_labels(&labels) {
        Ok(m) => m,
        Err(e) => return Err(e),
    };
    let total: u64 = run.len() as u64;
    let no_ids: RunSink = RunSink::new();
    let mut out = NodePassOutput {
        schema: NodeSchema {
            labels,
            label_to_table_id,
            table_row_counts: Vec::new(),
            total_nodes: total,
        },
        node_rows: run,
        id_runs: no_ids.finish(),
        membership_runs: None,
    };
    let mut occ: RunSink = RunSink::new();
    let mut ids: RunSink = RunSink::new();
    let counts: Vec<u64> = NodePass::new().explode_occurrences(&mut out, &mut occ, &mut ids)?;
    let ghost w = node_pass::node_walk(node_pass::label_listing(v), out.node_rows@, out.node_rows@.len())->Ok_0;
    proof {
        node_pass::lemma_walk_counts_tables(node_pass::label_listing(v), out.node_rows@, out.node_rows@.len());
        assert(occ@ =~= w.occurrences);
        assert(ids@ =~= w.ids);
    }
    let id_lease: RunSetLease = ids.finish();
    let id_index: MappedNodeIdIndex = materialize_mapped_id_index(&id_lease)?;
    let NodePassOutput { schema, node_rows: _, id_runs: _, membership_runs: _ } = out;
    let lookup: LogicalLabelLookup = LogicalLabelLookup::build(&schema.labels, None)?;
    Ok(NodeStage { schema, counts, id_index, occurrences: occ, membership_runs: None, lookup })
}

proof fn lemma_edge_stage_ignores_occurrences(
    n: NodeStageView,
    m: NodeStageView,
    rows: Seq<RecordView>,
)
    requires
        m == (NodeStageView { occurrences: m.occurrences, ..n }),
    ensures
        stages::edge_stage_of_rows(m, rows, Seq::empty(), false) == stages::edge_stage_of_rows(
            n,
            rows,
            Seq::empty(),
            false,
        ),
{
}

/// Columns that are laid out from occurrences name tables by their ids.
pub proof fn lemma_layout_ids(g: Seq<GeometryView>, recs: Seq<RecordView>, k: nat)
    requires
        emit_columns::layout_after(g, recs, k) is Ok,
    ensures
        forall|i: int|
            0 <= i < emit_columns::layout_after(g, recs, k)->Ok_0.len() ==> (#[trigger] emit_columns::layout_after(
                g,
                recs,
                k,
            )->Ok_0[i]).table_id <= 0xffff,
    decreases k,
{
    if k > 0 {
        lemma_layout_ids(g, recs, (k - 1) as nat);
    }
}

/// The columns of tables of one kind.
fn run_kind_columns(occurrences: RunSink, counts: &Vec<u64>) -> (r: Result<
    (Vec<ColumnGeometry>, Vec<ColumnCells>),
    GenerationError,
>)
    ensures
        match r {
            Ok(x) => kind_columns(counts@, occurrences@) == Ok::<
                (Seq<GeometryView>, Seq<CellsView>),
                GenerationError,
            >((column_pass::geometry_views(x.0@), emit_columns::columns_cells(x.1@))) && forall|i: int|
                0 <= i < x.1@.len() ==> (#[trigger] x.1@[i]).table_id <= 0xffff,
            Err(e) => kind_columns(counts@, occurrences@) == Err::<
                (Seq<GeometryView>, Seq<CellsView>),
                GenerationError,
            >(e),
        },
{
    let ranked: RunSetLease = rank_occurrences(occurrences);
    let n: usize = counts.len();
    let m: usize = if n > 0x8000 {
        0x8000
    } else {
        n
    };
    let lower: &[u64] = vstd::slice::slice_subrange(counts.as_slice(), 0, m);
    let upper: &[u64] = vstd::slice::slice_subrange(counts.as_slice(), m, n);
    assert(lower@ =~= lower_tables(counts@));
    assert(upper@ =~= upper_tables(counts@));
    let (geometries, cells) = run_column_stage(&ranked, lower, upper)?;
    proof {
        let g = column_pass::geometry_views(geometries@);
        lemma_layout_ids(g, ranked@, ranked@.len());
        let v = emit_columns::layout_after(g, ranked@, ranked@.len())->Ok_0;
        assert(emit_columns::columns_cells(cells@) == emit_columns::closed_columns(g, v));
        assert(emit_columns::columns_cells(cells@).len() == cells@.len());
        assert forall|i: int| 0 <= i < cells@.len() implies (#[trigger] cells@[i]).table_id
            <= 0xffff by {
            assert(emit_columns::columns_cells(cells@)[i] == cells@[i]@);
            assert(v[i].table_id <= 0xffff);
        }
    }
    Ok((geometries, cells))
}

/// Numbers columns of relationship tables behind all node tables.
fn number_rels(cells: &mut Vec<ColumnCells>)
    requires
        forall|i: int| 0 <= i < old(cells)@.len() ==> (#[trigger] old(cells)@[i]).table_id <= 0xffff,
    ensures
        emit_columns::columns_cells(final(cells)@) == rel_numbered(emit_columns::columns_cells(old(cells)@)),
{
    let ghost all = cells@;
    let n: usize = cells.len();
    let mut i: usize = 0;
    while i < n
        invariant
            i <= n,
            n == all.len(),
            cells@.len() == n,
            forall|k: int| 0 <= k < n ==> (#[trigger] all[k]).table_id <= 0xffff,
            forall|k: int| i <= k < n ==> (#[trigger] cells@[k]) == all[k],
            forall|k: int|
                0 <= k < i ==> (#[trigger] cells@[k])@ == (CellsView {
                    table_id: (all[k].table_id + 0x1_0000) as u32,
                    ..all[k]@
                }),
        decreases n - i,
    {
        let number: u32 = cells[i].table_id + 0x1_0000;
        cells[i].table_id = number;
        i = i + 1;
    }
    assert(emit_columns::columns_cells(cells@) =~= rel_numbered(emit_columns::columns_cells(all)));
}

/// The columns and the adjacency of staged nodes and edges.
fn finish_stream_plan(
    stage: NodeStage,
    occurrences: RunSink,
    edge: EdgeStage,
    Ghost(n): Ghost<NodeStageView>,
    Ghost(e): Ghost<EdgeStageView>,
) -> (r: Result<GenerationPlan, GenerationError>)
    requires
        n == (NodeStageView { occurrences: occurrences@, ..stage.content() }),
        stage.occurrences@ == e.occurrences,
        stage.schema.table_row_counts@ == stage.counts@,
        stage.counts@.len() == stage.schema.labels@.len(),
        edge_pass::rel_keys(edge.keys@) == e.keys,
        edge.forward@ == e.forward,
        edge.counts@ == e.counts,
        edge.counts@.len() == edge.keys@.len(),
        edge.keys@.len() <= 0x1_0000,
    ensures
        match r {
            Ok(x) => stream_planned_after(n, e) is Ok && x.spells(stream_planned_after(n, e)->Ok_0)
                && x.well_formed() && x.schema == stage.schema,
            Err(f) => stream_planned_after(n, e) == Err::<PlanView, GenerationError>(f),
        },
{
    let NodeStage {
        schema,
        counts,
        id_index,
        occurrences: rel_occurrences,
        membership_runs,
        lookup: _,
    } = stage;
    let EdgeStage { keys, forward, counts: rel_counts } = edge;
    let (mut geometries, mut cells) = run_kind_columns(occurrences, &counts)?;
    let (mut edge_geometries, mut edge_cells) = run_kind_columns(rel_occurrences, &rel_counts)?;
    let ghost c = (column_pass::geometry_views(geometries@), emit_columns::columns_cells(cells@));
    let ghost d = (column_pass::geometry_views(edge_geometries@), emit_columns::columns_cells(edge_cells@));
    number_rels(&mut edge_cells);
    geometries.append(&mut edge_geometries);
    cells.append(&mut edge_cells);
    proof {
        assert(column_pass::geometry_views(geometries@) =~= c.0 + d.0);
        assert(emit_columns::columns_cells(cells@) =~= c.1 + rel_numbered(d.1));
    }
    let adjacency: Vec<RelAdjacency> = build_adjacency(
        keys.as_slice(),
        counts.as_slice(),
        &rel_counts,
        &forward,
    )?;
    Ok(
        GenerationPlan {
            schema,
            id_index,
            membership_runs,
            keys,
            rel_counts,
            forward,
            adjacency,
            geometries,
            cells,
            rel_base: 0x1_0000,
        },
    )
}

/// Stages and merges nodes and edges.
pub fn plan_stream(nodes: &[GenerationNode], edges: &[GenerationEdge]) -> (r: Result<
    GenerationPlan,
    GenerationError,
>)
    ensures
        ({
            let want = streaming_plan(records::node_records(nodes@), records::edge_records(edges@));
            match r {
                Ok(x) => want is Ok && x.spells(want->Ok_0) && x.well_formed()
                    && node_pass::labels_numbered(x.schema) && x.schema.total_nodes == nodes@.len(),
                Err(e) => want == Err::<PlanView, GenerationError>(e),
            }
        }),
{
    let ghost nv = records::node_records(nodes@);
    let ghost ev = records::edge_records(edges@);
    let (node_run, labels) = stage_nodes(nodes)?;
    let (edge_run, _) = EdgePass::new().stage(edges)?;
    merge_nodes(&node_run)?;
    let mut stage: NodeStage = place_nodes(node_run, &labels, Ghost(nv))?;
    let ghost n = stage.content();
    merge_edges(&edge_run)?;
    proof {
        faults::lemma_no_fault(edge_run@.len(), edge_merge_checks(edge_run@));
        assert forall|i: int| 0 <= i < edge_run@.len() implies staging::split_row_key(
            (#[trigger] edge_run@[i]).key,
        ) is Ok by {
            assert(edge_merge_checks(edge_run@)(i) is None);
        }
    }
    let edge_rows: RunSetLease = arrange_by_name(&edge_run);
    let decls: Vec<RelSchemaDecl> = Vec::new();
    assert(records::decl_records(decls@) =~= Seq::empty());
    let mut occurrences: RunSink = RunSink::new();
    std::mem::swap(&mut occurrences, &mut stage.occurrences);
    proof {
        lemma_edge_stage_ignores_occurrences(n, stage.content(), edge_rows@);
    }
    let edge: EdgeStage = finish_edge_stage(&mut stage, &edge_rows, decls.as_slice(), false)?;
    let ghost e = stages::edge_stage_of_rows(n, edge_rows@, Seq::empty(), false)->Ok_0;
    assert(stage.occurrences@ =~= e.occurrences);
    finish_stream_plan(stage, occurrences, edge, Ghost(n), Ghost(e))
}

} // verus!
