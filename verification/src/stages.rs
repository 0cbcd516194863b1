//! The stages of a build that run before any column is encoded.
//!
//! The node stage assigns tables and dense offsets, the edge stage resolves
//! the edges and sorts them into adjacency order, and the column stage lays the
//! properties of both out column by column.

use crate::column_pass::{ColumnGeometry, GeometryView, compute_column_geometries};
use crate::column_pass;
use crate::edge_pass::{EdgePass, RelKey, RelTableKey, discover_rel_tables, explode_forward};
use crate::edge_pass;
use crate::emit_columns::{CellsView, ColumnCells, emit_column_bodies};
use crate::emit_columns;
use crate::emit_ids::count_edges_per_rel_table;
use crate::emit_ids;
use crate::faults;
use crate::generation::{CodecError, GenerationError};
use crate::id_index::{IdEntry, MappedNodeIdIndex, write_id_index_record};
use crate::id_index;
use crate::live_graph::LogicalLabelLookup;
use crate::live_graph;
use crate::membership_index::LabelEntry;
use crate::node_pass::{NodePass, NodePassOutput, NodeSchema, NodeWalk};
use crate::node_pass;
use crate::outside::bytes_from_vec;
use crate::records::{DeclRecord, EdgeRecord, GenerationEdge, GenerationNode, NodeRecord, RelSchemaDecl};
use crate::records;
use crate::runs::{RecordView, RunSetLease, RunSink, SortRecord};
use crate::runs;
use crate::text;
use crate::wire::{load_u16, load_u64, load_u64_be};
use crate::wire;
use vstd::prelude::*;

verus! {

// -------------------------------------------------------------- id index

/// The entry that an ID-index record spells.
pub open spec fn index_entry(rec: RecordView) -> Result<IdEntry, GenerationError> {
    if rec.key.len() != 8 {
        Err(GenerationError::Codec(CodecError::KeyWidth(rec.key.len() as usize)))
    } else if rec.payload.len() != 10 {
        Err(GenerationError::Codec(CodecError::PayloadWidth(rec.payload.len() as usize)))
    } else {
        Ok((wire::u64_be_at(rec.key, 0), wire::u16_at(rec.payload, 0), wire::u64_at(rec.payload, 2)))
    }
}

/// The entries of the first `k` ID-index records.
pub open spec fn index_entries(recs: Seq<RecordView>, k: nat) -> Result<
    Seq<IdEntry>,
    GenerationError,
>
    decreases k,
{
    if k == 0 {
        Ok(Seq::empty())
    } else {
        match index_entries(recs, (k - 1) as nat) {
            Err(e) => Err(e),
            Ok(v) => match index_entry(recs[k - 1]) {
                Err(e) => Err(e),
                Ok(x) => Ok(v.push(x)),
            },
        }
    }
}

proof fn lemma_index_entries_fail(recs: Seq<RecordView>, i: nat, n: nat)
    requires
        i <= n,
        index_entries(recs, i) is Err,
    ensures
        index_entries(recs, n) == index_entries(recs, i),
    decreases n,
{
    if i < n {
        lemma_index_entries_fail(recs, i, (n - 1) as nat);
    }
}

/// The ID index of a run, or why there is none.
pub open spec fn materialized(recs: Seq<RecordView>) -> Result<Seq<IdEntry>, GenerationError> {
    match index_entries(recs, recs.len()) {
        Err(e) => Err(e),
        Ok(v) => match id_index::id_index_fault(id_index::id_records(v)) {
            Some(e) => Err(e),
            None => Ok(id_index::id_entries_of(id_index::id_records(v))),
        },
    }
}

/// Lays the sorted ID-index records out as the fixed-width index and opens it.
pub fn materialize_mapped_id_index(id_index_lease: &RunSetLease) -> (r: Result<
    MappedNodeIdIndex,
    GenerationError,
>)
    ensures
        match r {
            Ok(x) => materialized(id_index_lease@) == Ok::<Seq<IdEntry>, GenerationError>(x@),
            Err(e) => materialized(id_index_lease@) == Err::<Seq<IdEntry>, GenerationError>(e),
        },
{
    let n: usize = id_index_lease.len();
    let ghost recs = id_index_lease@;
    let ghost f = |e: IdEntry| id_index::id_record(e);
    let ghost mut v: Seq<IdEntry> = Seq::empty();
    let mut out: Vec<u8> = Vec::new();
    let mut i: usize = 0;
    assert(out@ =~= id_index::id_records(v));
    while i < n
        invariant
            i <= n,
            n == recs.len(),
            recs == id_index_lease@,
            f == (|e: IdEntry| id_index::id_record(e)),
            index_entries(recs, i as nat) == Ok::<Seq<IdEntry>, GenerationError>(v),
            out@ == wire::flat(v, f),
        decreases n - i,
    {
        proof {
            if index_entries(recs, (i + 1) as nat) is Err {
                lemma_index_entries_fail(recs, (i + 1) as nat, n as nat);
            }
        }
        let rec: &SortRecord = id_index_lease.record_at(i);
        if rec.key.len() != 8 {
            return Err(GenerationError::Codec(CodecError::KeyWidth(rec.key.len())));
        }
        if rec.payload.len() != 10 {
            return Err(GenerationError::Codec(CodecError::PayloadWidth(rec.payload.len())));
        }
        let id: u64 = load_u64_be(rec.key.as_slice(), 0);
        let table_id: u16 = load_u16(rec.payload.as_slice(), 0);
        let offset: u64 = load_u64(rec.payload.as_slice(), 2);
        write_id_index_record(&mut out, id, table_id, offset);
        proof {
            wire::lemma_flat_push(v, (id, table_id, offset), f);
            v = v.push((id, table_id, offset));
        }
        i = i + 1;
    }
    MappedNodeIdIndex::new(bytes_from_vec(out))
}

// ------------------------------------------------------------------ nodes

/// What the node stage yields.
pub struct NodeStageView {
    /// Table labels.
    pub labels: Seq<Seq<char>>,
    /// Rows per table.
    pub counts: Seq<u64>,
    /// ID index.
    pub index: Seq<IdEntry>,
    /// Occurrences of node properties.
    pub occurrences: Seq<RecordView>,
    /// Membership run.
    pub membership: Option<Seq<RecordView>>,
    /// Labels of the nodes with more than one.
    pub entries: Seq<LabelEntry>,
}

/// The membership run of nodes.
pub open spec fn membership_run(v: Seq<NodeRecord>) -> Option<Seq<RecordView>> {
    if node_pass::staged_membership_rows(v).len() > 0 {
        Some(runs::sorted_records(node_pass::staged_membership_rows(v)))
    } else {
        None
    }
}

/// The node stage once the rows are walked.
pub open spec fn node_stage_after_walk(v: Seq<NodeRecord>, w: NodeWalk) -> Result<
    NodeStageView,
    GenerationError,
> {
    match materialized(runs::sorted_records(w.ids)) {
        Err(e) => Err(e),
        Ok(index) => match live_graph::membership_entries(membership_run(v)) {
            Err(e) => Err(e),
            Ok(entries) => Ok(
                NodeStageView {
                    labels: node_pass::label_listing(v),
                    counts: w.counts,
                    index,
                    occurrences: w.occurrences,
                    membership: membership_run(v),
                    entries,
                },
            ),
        },
    }
}

/// The node stage, or why it fails.
pub open spec fn node_stage(v: Seq<NodeRecord>) -> Result<NodeStageView, GenerationError> {
    match faults::first_fault(v.len(), node_pass::node_checks(v)) {
        Some(e) => Err(e),
        None => if node_pass::label_listing(v).len() > 0x1_0000 {
            Err(node_pass::table_overflow())
        } else {
            node_stage_of_rows(v)
        },
    }
}

/// What the node stage hands on.
pub struct NodeStage {
    /// Node tables.
    pub schema: NodeSchema,
    /// Rows per table.
    pub counts: Vec<u64>,
    /// ID index.
    pub id_index: MappedNodeIdIndex,
    /// Occurrences of node properties.
    pub occurrences: RunSink,
    /// Membership run.
    pub membership_runs: Option<RunSetLease>,
    /// Labels of the nodes.
    pub lookup: LogicalLabelLookup,
}

/// The content of an optional run.
pub open spec fn optional_run(r: Option<RunSetLease>) -> Option<Seq<RecordView>> {
    match r {
        Some(x) => Some(x@),
        None => None,
    }
}

impl NodeStage {
    /// The content of the stage.
    pub open spec fn content(&self) -> NodeStageView {
        NodeStageView {
            labels: text::texts(self.schema.labels@),
            counts: self.counts@,
            index: self.id_index@,
            occurrences: self.occurrences@,
            membership: optional_run(self.membership_runs),
            entries: self.lookup.entries(),
        }
    }
}

/// The node stage once the nodes are staged.
pub open spec fn node_stage_of_rows(v: Seq<NodeRecord>) -> Result<NodeStageView, GenerationError> {
    let ids = runs::sorted_records(node_pass::staged_id_rows(v));
    let rows = runs::sorted_records(node_pass::staged_node_rows(v));
    match faults::first_fault(ids.len(), node_pass::id_checks(ids)) {
        Some(e) => Err(e),
        None => match node_pass::node_walk(node_pass::label_listing(v), rows, rows.len()) {
            Err(e) => Err(e),
            Ok(w) => node_stage_after_walk(v, w),
        },
    }
}

/// Runs the node stage on staged nodes.
pub(crate) fn finish_node_stage(staged: NodePassOutput, Ghost(v): Ghost<Seq<NodeRecord>>) -> (r: Result<
    NodeStage,
    GenerationError,
>)
    requires
        node_pass::staged_nodes(v, staged),
    ensures
        match r {
            Ok(x) => node_stage_of_rows(v) == Ok::<NodeStageView, GenerationError>(x.content())
                && x.lookup.physical() == text::texts(x.schema.labels@) && node_pass::labels_numbered(x.schema)
                && x.schema.total_nodes == v.len() && x.schema.table_row_counts@ == x.counts@ && x.counts@.len()
                == x.schema.labels@.len(),
            Err(e) => node_stage_of_rows(v) == Err::<NodeStageView, GenerationError>(e),
        },
{
    let mut out: NodePassOutput = staged;
    NodePass::new().reject_duplicate_ids(&out)?;
    let mut occ: RunSink = RunSink::new();
    let mut ids: RunSink = RunSink::new();
    let counts: Vec<u64> = NodePass::new().explode_occurrences(&mut out, &mut occ, &mut ids)?;
    let ghost w = node_pass::node_walk(node_pass::label_listing(v), out.node_rows@, out.node_rows@.len())->Ok_0;
    proof {
        node_pass::lemma_walk_counts_tables(node_pass::label_listing(v), out.node_rows@, out.node_rows@.len());
        assert(text::texts(out.schema.labels@).len() == out.schema.labels@.len());
        assert(occ@ =~= w.occurrences);
        assert(ids@ =~= w.ids);
    }
    let id_lease: RunSetLease = ids.finish();
    let id_index: MappedNodeIdIndex = materialize_mapped_id_index(&id_lease)?;
    let NodePassOutput { schema, node_rows: _, id_runs: _, membership_runs } = out;
    let run: Option<&RunSetLease> = match &membership_runs {
        Some(m) => Some(m),
        None => None,
    };
    let lookup: LogicalLabelLookup = LogicalLabelLookup::build(&schema.labels, run)?;
    Ok(NodeStage { schema, counts, id_index, occurrences: occ, membership_runs, lookup })
}

/// Runs the node stage.
pub fn run_node_stage(nodes: &[GenerationNode]) -> (r: Result<NodeStage, GenerationError>)
    ensures
        match r {
            Ok(x) => node_stage(records::node_records(nodes@)) == Ok::<NodeStageView, GenerationError>(
                x.content(),
            ) && x.lookup.physical() == text::texts(x.schema.labels@) && node_pass::labels_numbered(x.schema)
                && x.schema.total_nodes == nodes@.len() && x.schema.table_row_counts@ == x.counts@ && x.counts@.len()
                == x.schema.labels@.len(),
            Err(e) => node_stage(records::node_records(nodes@)) == Err::<NodeStageView, GenerationError>(e),
        },
{
    let staged: NodePassOutput = NodePass::new().stage(nodes)?;
    assert(text::texts(staged.schema.labels@).len() == staged.schema.labels@.len());
    finish_node_stage(staged, Ghost(records::node_records(nodes@)))
}

// ------------------------------------------------------------------ edges

/// What the edge stage yields.
pub struct EdgeStageView {
    /// Relationship tables.
    pub keys: Seq<RelKey>,
    /// Forward run.
    pub forward: Seq<RecordView>,
    /// Edges per table.
    pub counts: Seq<u64>,
    /// Occurrences of edge properties.
    pub occurrences: Seq<RecordView>,
}

/// The edge stage once the forward run is there.
pub open spec fn edge_stage_after_forward(
    keys: Seq<RelKey>,
    forward: Seq<RecordView>,
    tagged: bool,
) -> Result<EdgeStageView, GenerationError> {
    match edge_pass::occurrences_after(forward, tagged, forward.len()) {
        Err(e) => Err(e),
        Ok(w) => match emit_ids::edge_counts(forward, keys.len(), forward.len()) {
            Err(e) => Err(e),
            Ok(counts) => Ok(EdgeStageView { keys, forward, counts, occurrences: w.out }),
        },
    }
}

/// The edge stage, or why it fails.
pub open spec fn edge_stage(
    n: NodeStageView,
    edges: Seq<EdgeRecord>,
    decls: Seq<DeclRecord>,
) -> Result<EdgeStageView, GenerationError> {
    match faults::first_fault(edges.len(), edge_pass::edge_checks(edges)) {
        Some(e) => Err(e),
        None => edge_stage_of_rows(n, runs::sorted_records(edge_pass::staged_edge_rows(edges)), decls, true),
    }
}

/// What the edge stage hands on.
pub struct EdgeStage {
    /// Relationship tables.
    pub keys: Vec<RelTableKey>,
    /// Forward run.
    pub forward: RunSetLease,
    /// Edges per table.
    pub counts: Vec<u64>,
}

/// The edge stage once the edges are staged.
pub open spec fn edge_stage_of_rows(
    n: NodeStageView,
    rows: Seq<RecordView>,
    decls: Seq<DeclRecord>,
    tagged: bool,
) -> Result<EdgeStageView, GenerationError> {
    match edge_pass::rel_table_set(n.index, rows, rows.len()) {
        Err(e) => Err(e),
        Ok(set) => if edge_pass::rel_listing(set).len() > 0x1_0000 {
            Err(edge_pass::rel_overflow())
        } else {
            match edge_pass::forward_records(
                n.index,
                edge_pass::rel_listing(set),
                n.labels,
                n.entries,
                decls,
                rows,
                rows.len(),
            ) {
                Err(e) => Err(e),
                Ok(f) => edge_stage_after_forward(edge_pass::rel_listing(set), runs::sorted_records(f), tagged),
            }
        },
    }
}

/// Runs the edge stage on staged edges; the occurrences of edge properties
/// join those of the nodes, their tables tagged or not.
pub fn finish_edge_stage(
    nodes: &mut NodeStage,
    rows: &RunSetLease,
    decls: &[RelSchemaDecl],
    tagged: bool,
) -> (r: Result<EdgeStage, GenerationError>)
    requires
        old(nodes).lookup.physical() == text::texts(old(nodes).schema.labels@),
    ensures
        ({
            let want = edge_stage_of_rows(
                old(nodes).content(),
                rows@,
                records::decl_records(decls@),
                tagged,
            );
            match r {
                Ok(x) => want is Ok && edge_pass::rel_keys(x.keys@) == want->Ok_0.keys && x.forward@
                    == want->Ok_0.forward && x.counts@ == want->Ok_0.counts && *final(nodes) == (
                NodeStage { occurrences: final(nodes).occurrences, ..*old(nodes) })
                    && final(nodes).occurrences@ == old(nodes).occurrences@
                    + want->Ok_0.occurrences && x.counts@.len() == x.keys@.len() && x.keys@.len()
                    <= 0x1_0000,
                Err(e) => want == Err::<EdgeStageView, GenerationError>(e),
            }
        }),
{
    let keys: Vec<RelTableKey> = discover_rel_tables(rows, &nodes.id_index)?;
    let mut fwd: RunSink = RunSink::new();
    EdgePass::new().resolve_and_stage_forward(
        rows,
        &nodes.id_index,
        keys.as_slice(),
        &mut fwd,
        &nodes.lookup,
        decls,
    )?;
    proof {
        let f = edge_pass::forward_records(
            nodes.id_index@,
            edge_pass::rel_keys(keys@),
            nodes.lookup.physical(),
            nodes.lookup.entries(),
            records::decl_records(decls@),
            rows@,
            rows@.len(),
        )->Ok_0;
        assert(fwd@ =~= f);
    }
    let forward: RunSetLease = fwd.finish();
    explode_forward(&forward, tagged, &mut nodes.occurrences)?;
    let counts: Vec<u64> = count_edges_per_rel_table(&forward, keys.len())?;
    Ok(EdgeStage { keys, forward, counts })
}

/// Runs the edge stage; the occurrences of edge properties join those of the
/// nodes.
pub fn run_edge_stage(
    nodes: &mut NodeStage,
    edges: &[GenerationEdge],
    decls: &[RelSchemaDecl],
) -> (r: Result<EdgeStage, GenerationError>)
    requires
        old(nodes).lookup.physical() == text::texts(old(nodes).schema.labels@),
    ensures
        ({
            let want = edge_stage(
                old(nodes).content(),
                records::edge_records(edges@),
                records::decl_records(decls@),
            );
            match r {
                Ok(x) => want is Ok && edge_pass::rel_keys(x.keys@) == want->Ok_0.keys && x.forward@
                    == want->Ok_0.forward && x.counts@ == want->Ok_0.counts && *final(nodes) == (
                NodeStage { occurrences: final(nodes).occurrences, ..*old(nodes) })
                    && final(nodes).occurrences@ == old(nodes).occurrences@
                    + want->Ok_0.occurrences && x.counts@.len() == x.keys@.len() && x.keys@.len()
                    <= 0x1_0000,
                Err(e) => want == Err::<EdgeStageView, GenerationError>(e),
            }
        }),
{
    let (rows, _) = EdgePass::new().stage(edges)?;
    finish_edge_stage(nodes, &rows, decls, true)
}

// ---------------------------------------------------------------- columns

/// The columns of a build, or why there are none.
pub open spec fn column_stage(nodes: Seq<u64>, rels: Seq<u64>, occ: Seq<RecordView>) -> Result<
    (Seq<GeometryView>, Seq<CellsView>),
    GenerationError,
> {
    match column_pass::geometries_after(nodes, rels, occ, occ.len()) {
        Err(e) => Err(e),
        Ok(g) => match emit_columns::laid_out_columns(g, occ) {
            Err(e) => Err(e),
            Ok(c) => Ok((g, c)),
        },
    }
}

/// Runs the column stage.
pub fn run_column_stage(occ: &RunSetLease, nodes: &[u64], rels: &[u64]) -> (r: Result<
    (Vec<ColumnGeometry>, Vec<ColumnCells>),
    GenerationError,
>)
    ensures
        ({
            let want = column_stage(nodes@, rels@, occ@);
            match r {
                Ok(x) => want == Ok::<(Seq<GeometryView>, Seq<CellsView>), GenerationError>(
                    (column_pass::geometry_views(x.0@), emit_columns::columns_cells(x.1@)),
                ),
                Err(e) => want == Err::<(Seq<GeometryView>, Seq<CellsView>), GenerationError>(e),
            }
        }),
{
    let geometries: Vec<ColumnGeometry> = compute_column_geometries(occ, nodes, rels)?;
    let cells: Vec<ColumnCells> = emit_column_bodies(occ, geometries.as_slice())?;
    Ok((geometries, cells))
}

} // verus!
