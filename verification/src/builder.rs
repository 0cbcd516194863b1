//! The streaming builder.
//!
//! It merges staged nodes and staged edges, refusing an original id that
//! occurs twice, and writes the store that they make with texts numbered in
//! byte order. Its metadata describes a column by the codec inferred from the
//! first value of the column that is not null.

use crate::emit_columns::{CellsView, ColumnCells};
use crate::emit_columns;
use crate::faults;
use crate::generation::GenerationError;
use crate::intern::StringCodeOrder;
use crate::node_pass;
use crate::orchestrator::{EncodedColumn, GenerationPlan, PlanView, assemble_store};
use crate::orchestrator;
use crate::records::{GenerationEdge, GenerationNode};
use crate::records;
use crate::stream_meta::{StoreCodes, serialize_with_codes};
use crate::stream_meta;
use crate::stream_plan::plan_stream;
use crate::stream_plan;
use crate::tables::{ColumnView, CompactStore, StoreView};
use crate::text::{TextMap, own};
use crate::text;
use crate::v5_write::{total_edges, total_nodes};
use crate::v5_write;
use crate::value::{Value, ValueView, ZoneView};
use crate::value;
use vstd::prelude::*;

verus! {

/// The result of a build.
#[derive(Debug)]
pub struct StreamingGenerationOutput {
    /// Payload.
    pub payload: Vec<u8>,
    /// Nodes in it.
    pub total_nodes: u64,
    /// Edges in it.
    pub total_edges: u64,
    /// Whether it keeps original ids.
    pub preserves_ids: bool,
}

/// Drives a streaming build.
#[derive(Debug)]
pub struct StreamingGenerationBuilder;

// --------------------------------------------------------------- inference

/// What a column is inferred to hold from its first value that is not null:
/// the codec code, by which the metadata describes it before it is encoded.
pub open spec fn inferred_code(cells: Seq<Option<ValueView>>, k: nat) -> u16
    decreases cells.len() - k,
{
    if k >= cells.len() {
        1
    } else {
        match cells[k as int] {
            None => inferred_code(cells, k + 1),
            Some(ValueView::Null) => inferred_code(cells, k + 1),
            Some(ValueView::Bool(_)) => 2,
            Some(ValueView::Int64(n)) => if n >= 0 {
                0
            } else {
                6
            },
            Some(ValueView::Float64(_)) => 4,
            Some(ValueView::Vector(_)) => 5,
            Some(_) => 1,
        }
    }
}

/// The codec and value-type codes inferred from the first value of a column
/// that is not null.
pub fn infer_column_codec(cells: &[Option<Value>]) -> (r: (u16, u16))
    ensures
        r.0 == inferred_code(emit_columns::cell_views(cells@), 0),
        r.1 == r.0,
{
    let ghost v = emit_columns::cell_views(cells@);
    let n: usize = cells.len();
    let mut i: usize = 0;
    while i < n
        invariant
            i <= n,
            n == cells@.len(),
            v == emit_columns::cell_views(cells@),
            inferred_code(v, 0) == inferred_code(v, i as nat),
        decreases n - i,
    {
        assert(v[i as int] == value::optional_view(cells@[i as int]));
        match &cells[i] {
            None => {},
            Some(Value::Null) => {},
            Some(Value::Bool(_)) => return (2, 2),
            Some(Value::Int64(n)) => {
                if *n >= 0 {
                    return (0, 0);
                } else {
                    return (6, 6);
                }
            },
            Some(Value::Float64(_)) => return (4, 4),
            Some(Value::Vector(_)) => return (5, 5),
            Some(_) => return (1, 1),
        }
        i = i + 1;
    }
    (1, 1)
}

/// The codes inferred for columns.
pub open spec fn inferred_codes(cells: Seq<CellsView>) -> Seq<u16> {
    Seq::new(cells.len(), |i: int| inferred_code(cells[i].cells, 0))
}

/// The codes inferred for the first `k` columns, by table.
pub open spec fn codes_after(
    cells: Seq<CellsView>,
    base: int,
    nodes: nat,
    rels: nat,
    k: nat,
) -> StoreCodes {
    StoreCodes {
        nodes: Seq::new(
            nodes,
            |t: int| orchestrator::column_map(cells, inferred_codes(cells), orchestrator::node_number(base, t), k),
        ),
        rels: Seq::new(rels, |t: int| orchestrator::column_map(cells, inferred_codes(cells), base + t, k)),
    }
}

/// The codes inferred for the columns of a plan, by table.
pub open spec fn plan_codes(p: PlanView) -> StoreCodes {
    codes_after(p.cells, p.base, p.nodes.labels.len(), p.edges.keys.len(), p.cells.len())
}

/// Every column belongs to a table.
pub open spec fn columns_placed(cells: Seq<CellsView>, base: int, nodes: nat, rels: nat) -> bool {
    forall|i: int|
        0 <= i < cells.len() ==> {
            let id = (#[trigger] cells[i]).table_id;
            if id >= base {
                id - base < rels
            } else {
                id < nodes
            }
        }
}

/// Infers the codecs of columns, by table.
fn infer_codes(cells: &Vec<ColumnCells>, rel_base: u32, nodes: usize, rels: usize) -> (r: (
    Vec<TextMap<u16>>,
    Vec<TextMap<u16>>,
))
    requires
        columns_placed(emit_columns::columns_cells(cells@), rel_base as int, nodes as nat, rels as nat),
    ensures
        (StoreCodes { nodes: stream_meta::code_maps(r.0@), rels: stream_meta::code_maps(r.1@) }) == codes_after(
            emit_columns::columns_cells(cells@),
            rel_base as int,
            nodes as nat,
            rels as nat,
            cells@.len(),
        ),
{
    let ghost v = emit_columns::columns_cells(cells@);
    let ghost base = rel_base as int;
    let ghost codes = inferred_codes(v);
    let mut node_codes: Vec<TextMap<u16>> = crate::zone_maps::empty_maps::<u16>(nodes);
    let mut rel_codes: Vec<TextMap<u16>> = crate::zone_maps::empty_maps::<u16>(rels);
    let mut i: usize = 0;
    while i < cells.len()
        invariant
            i <= cells@.len(),
            v == emit_columns::columns_cells(cells@),
            codes == inferred_codes(v),
            base == rel_base,
            columns_placed(v, base, nodes as nat, rels as nat),
            node_codes@.len() == nodes,
            rel_codes@.len() == rels,
            forall|t: int|
                0 <= t < nodes ==> (#[trigger] node_codes@[t])@ == orchestrator::column_map(
                    v,
                    codes,
                    orchestrator::node_number(base, t),
                    i as nat,
                ),
            forall|t: int|
                0 <= t < rels ==> (#[trigger] rel_codes@[t])@ == orchestrator::column_map(
                    v,
                    codes,
                    base + t,
                    i as nat,
                ),
        decreases cells@.len() - i,
    {
        let c: &ColumnCells = &cells[i];
        assert(v[i as int] == c@);
        let (code, _) = infer_column_codec(c.cells.as_slice());
        assert(codes[i as int] == code);
        let ghost n0 = node_codes@;
        let ghost r0 = rel_codes@;
        if c.table_id >= rel_base {
            let t: usize = (c.table_id - rel_base) as usize;
            rel_codes[t].insert(c.key.as_str(), code);
            assert(rel_codes@ =~= r0.update(t as int, rel_codes@[t as int]));
        } else {
            let t: usize = c.table_id as usize;
            node_codes[t].insert(c.key.as_str(), code);
            assert(node_codes@ =~= n0.update(t as int, node_codes@[t as int]));
        }
        i = i + 1;
    }
    assert(stream_meta::code_maps(node_codes@) =~= codes_after(v, base, nodes as nat, rels as nat, v.len()).nodes);
    assert(stream_meta::code_maps(rel_codes@) =~= codes_after(v, base, nodes as nat, rels as nat, v.len()).rels);
    (node_codes, rel_codes)
}

proof fn lemma_column_map_keys<V, W>(
    cells: Seq<CellsView>,
    a: Seq<V>,
    b: Seq<W>,
    table: int,
    k: nat,
)
    ensures
        orchestrator::column_map(cells, a, table, k).dom() == orchestrator::column_map(cells, b, table, k).dom(),
    decreases k,
{
    if k > 0 {
        lemma_column_map_keys(cells, a, b, table, (k - 1) as nat);
    }
}

proof fn lemma_listed_columns_coded(
    columns: Seq<(Seq<char>, ColumnView)>,
    m: Map<Seq<char>, ColumnView>,
    codes: Map<Seq<char>, u16>,
)
    requires
        orchestrator::lists_map(columns, m),
        codes.dom() == m.dom(),
    ensures
        stream_meta::columns_coded(columns, codes),
{
    let keys = Seq::new(columns.len(), |i: int| columns[i].0);
    let vals = Seq::new(columns.len(), |i: int| columns[i].1);
    assert forall|i: int| 0 <= i < columns.len() implies codes.dom().contains(
        (#[trigger] columns[i]).0,
    ) by {
        assert(keys[i] == columns[i].0);
        assert(keys.contains(columns[i].0));
        assert(text::text_map_of(keys, vals).dom().contains(columns[i].0));
    }
}

proof fn lemma_built_store_coded(
    p: PlanView,
    codecs: Seq<ColumnView>,
    blocks: Seq<Seq<ZoneView>>,
    s: StoreView,
)
    requires
        orchestrator::built_store(p, codecs, blocks, s),
    ensures
        stream_meta::store_coded(s, plan_codes(p)),
{
    let n = p.cells.len();
    let own = inferred_codes(p.cells);
    let base = p.base;
    assert forall|t: int| 0 <= t < s.nodes.len() implies stream_meta::columns_coded(
        (#[trigger] s.nodes[t]).columns,
        plan_codes(p).nodes[t],
    ) by {
        assert(orchestrator::node_built(p, codecs, blocks, t, s.nodes[t]));
        lemma_column_map_keys(p.cells, codecs, own, orchestrator::node_number(base, t), n);
        lemma_listed_columns_coded(
            s.nodes[t].columns,
            orchestrator::column_map(p.cells, codecs, orchestrator::node_number(base, t), n),
            plan_codes(p).nodes[t],
        );
    }
    assert forall|t: int| 0 <= t < s.rels.len() implies stream_meta::columns_coded(
        (#[trigger] s.rels[t]).columns,
        plan_codes(p).rels[t],
    ) by {
        assert(orchestrator::rel_built(p, codecs, blocks, t, s.rels[t]));
        lemma_column_map_keys(p.cells, codecs, own, base + t, n);
        lemma_listed_columns_coded(
            s.rels[t].columns,
            orchestrator::column_map(p.cells, codecs, base + t, n),
            plan_codes(p).rels[t],
        );
    }
}

/// The columns of a plan that a store can be made of belong to its tables.
pub proof fn lemma_columns_placed(p: PlanView)
    requires
        orchestrator::store_fault(p) is None,
        p.nodes.counts.len() == p.nodes.labels.len(),
        p.edges.counts.len() == p.edges.keys.len(),
    ensures
        columns_placed(p.cells, p.base, p.nodes.labels.len(), p.edges.keys.len()),
{
    faults::lemma_no_fault(p.cells.len(), orchestrator::column_checks(p));
    assert forall|i: int| 0 <= i < p.cells.len() implies ({
        let id = (#[trigger] p.cells[i]).table_id;
        if id >= p.base {
            id - p.base < p.edges.keys.len()
        } else {
            id < p.nodes.labels.len()
        }
    }) by {
        assert(orchestrator::column_checks(p)(i) is None);
    }
}

// ------------------------------------------------------------------- build

/// What a streaming build yields: the payload of the store that the plan and
/// its encoded columns make, its metadata under the inferred codecs.
pub open spec fn is_streamed(
    p: PlanView,
    codecs: Seq<ColumnView>,
    blocks: Seq<Seq<ZoneView>>,
    r: Result<StreamingGenerationOutput, GenerationError>,
) -> bool {
    exists|s: StoreView| #[trigger]
        orchestrator::built_store(p, codecs, blocks, s) && (match r {
            Ok(x) => v5_write::v5_fault(s, StringCodeOrder::Lexicographic) is None && x.payload@
                == stream_meta::coded_image(s, plan_codes(p)) && x.total_nodes == v5_write::node_total(s.nodes, s.nodes.len() as int) && x.total_edges
                == v5_write::edge_total(s.rels, s.rels.len() as int) && x.preserves_ids,
            Err(e) => v5_write::v5_fault(s, StringCodeOrder::Lexicographic) is Some && e
                == GenerationError::Format(v5_write::v5_fault(s, StringCodeOrder::Lexicographic)->0),
        })
}

/// What the second half of a streaming build yields: why the plan and its
/// encoded columns make no store, or what the store is written as.
pub open spec fn is_streaming_build(
    p: PlanView,
    codecs: Seq<ColumnView>,
    blocks: Seq<Seq<ZoneView>>,
    r: Result<StreamingGenerationOutput, GenerationError>,
) -> bool {
    match orchestrator::assembly_fault(p, codecs) {
        Some(e) => r == Err::<StreamingGenerationOutput, GenerationError>(e),
        None => is_streamed(p, codecs, blocks, r),
    }
}

impl StreamingGenerationBuilder {
    /// A builder.
    pub fn new() -> (r: Self)
        ensures
            r == StreamingGenerationBuilder,
    {
        StreamingGenerationBuilder
    }

    /// The first half of a build: stages and merges nodes and edges.
    pub fn plan(&self, nodes: &[GenerationNode], edges: &[GenerationEdge]) -> (r: Result<
        GenerationPlan,
        GenerationError,
    >)
        ensures
            ({
                let want = stream_plan::streaming_plan(records::node_records(nodes@), records::edge_records(edges@));
                match r {
                    Ok(x) => want is Ok && x.spells(want->Ok_0) && x.well_formed()
                        && node_pass::labels_numbered(x.schema) && x.schema.total_nodes == nodes@.len(),
                    Err(e) => want == Err::<PlanView, GenerationError>(e),
                }
            }),
    {
        plan_stream(nodes, edges)
    }

    /// The second half of a build: puts the store together from the encoded
    /// columns and writes it.
    #[verifier::rlimit(60)]
    pub fn build(&self, plan: GenerationPlan, encoded: Vec<EncodedColumn>) -> (r: Result<
        StreamingGenerationOutput,
        GenerationError,
    >)
        requires
            plan.well_formed(),
            encoded@.len() == plan.cells@.len(),
        ensures
            is_streaming_build(plan.content(), orchestrator::codecs_of(encoded@), orchestrator::blocks_of(encoded@), r),
    {
        let ghost p = plan.content();
        let mut plan: GenerationPlan = plan;
        let ghost codecs = orchestrator::codecs_of(encoded@);
        let ghost blocks = orchestrator::blocks_of(encoded@);
        let store: CompactStore = assemble_store(&mut plan, encoded)?;
        proof {
            assert(p.nodes.labels.len() == p.nodes.counts.len());
            assert(p.edges.keys.len() == p.edges.counts.len());
            lemma_columns_placed(p);
            lemma_built_store_coded(p, codecs, blocks, store@);
            assert(store@.nodes.len() == store.node_tables@.len());
            assert(store@.rels.len() == store.rel_tables@.len());
        }
        let (node_codes, rel_codes) = infer_codes(
            &plan.cells,
            plan.rel_base,
            store.node_tables.len(),
            store.rel_tables.len(),
        );
        match serialize_with_codes(&store, &node_codes, &rel_codes) {
            Ok(payload) => Ok(
                StreamingGenerationOutput {
                    payload,
                    total_nodes: total_nodes(&store),
                    total_edges: total_edges(&store),
                    preserves_ids: store.preserves_ids(),
                },
            ),
            Err(e) => Err(GenerationError::Format(e)),
        }
    }
}

} // verus!
