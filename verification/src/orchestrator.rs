//! The build of a generation.
//!
//! A build has two halves. The first takes nodes and edges in and plans the
//! store: tables, dense offsets, relationship tables, adjacency, and every
//! property column laid out row by row. The caller encodes the columns. The
//! second half takes the encoded columns, puts the store together and writes
//! its payload.

use crate::adjacency::{AdjacencyView, RelAdjacency, build_adjacency};
use crate::adjacency;
use crate::bounded_emit::emit_all;
use crate::bounded_emit;
use crate::column_pass::{ColumnGeometry, GeometryView};
use crate::column_pass;
use crate::edge_pass::RelTableKey;
use crate::edge_pass;
use crate::emit_columns::{CellsView, ColumnCells, codec_kind_of, row_nulls, row_presence};
use crate::emit_columns;
use crate::emit_ids::{build_edge_id_lookup, build_edge_original_ids, build_node_id_lookup, build_node_original_ids, table_zone_map};
use crate::emit_ids;
use crate::emit_meta::CodecKind;
use crate::emit_meta;
use crate::faults;
use crate::generation::{CodecError, GenerationError, WireCount};
use crate::id_index::MappedNodeIdIndex;
use crate::id_lookup::LookupEntry;
use crate::node_pass::{NodeSchema, rank_occurrences};
use crate::node_pass;
use crate::presence::BitmapRecord;
use crate::presence;
use crate::records::{DeclRecord, EdgeRecord, GenerationEdge, GenerationNode, NodeRecord, RelSchemaDecl};
use crate::records;
use crate::runs::RunSetLease;
use crate::sorting::reversed;
use crate::stages::{EdgeStage, EdgeStageView, NodeStage, NodeStageView, run_column_stage, run_edge_stage, run_node_stage};
use crate::stages;
use crate::tables::{ColumnCodec, ColumnView, CompactStore, CsrAdjacency, IdsView, NodeTable, NodeTableView, PreservedIds, RelTable, RelTableView, StoreView, codec_disc};
use crate::tables;
use crate::text::{TextMap, own, text_eq};
use crate::text;
use crate::value::{Value, ValueView, ZoneMap, ZoneView};
use crate::value;
use crate::zone_maps;
use vstd::prelude::*;

verus! {

// -------------------------------------------------------------------- plan

/// What the first half of a build yields.
pub struct PlanView {
    /// Node stage.
    pub nodes: NodeStageView,
    /// Edge stage.
    pub edges: EdgeStageView,
    /// Geometries of the columns.
    pub geometries: Seq<GeometryView>,
    /// Columns row by row.
    pub cells: Seq<CellsView>,
    /// Adjacency of the relationship tables.
    pub adjacency: Seq<AdjacencyView>,
    /// Number of the first relationship table among the tables that columns
    /// name.
    pub base: int,
}

/// The plan once nodes and edges are staged.
pub open spec fn planned_after(n: NodeStageView, e: EdgeStageView) -> Result<
    PlanView,
    GenerationError,
> {
    match stages::column_stage(n.counts, e.counts, node_pass::ranked_records(n.occurrences + e.occurrences)) {
        Err(f) => Err(f),
        Ok(c) => match adjacency::table_adjacency(e.keys, n.counts, e.counts, e.forward) {
            Err(f) => Err(f),
            Ok(a) => Ok(
                PlanView {
                    nodes: n,
                    edges: e,
                    geometries: c.0,
                    cells: c.1,
                    adjacency: a,
                    base: 0x8000,
                },
            ),
        },
    }
}

/// The plan of a build, or why there is none.
pub open spec fn planned(
    nodes: Seq<NodeRecord>,
    edges: Seq<EdgeRecord>,
    decls: Seq<DeclRecord>,
) -> Result<PlanView, GenerationError> {
    match stages::node_stage(nodes) {
        Err(f) => Err(f),
        Ok(n) => match stages::edge_stage(n, edges, decls) {
            Err(f) => Err(f),
            Ok(e) => planned_after(n, e),
        },
    }
}

/// The first half of a build.
pub struct GenerationPlan {
    /// Node tables.
    pub schema: NodeSchema,
    /// ID index.
    pub id_index: MappedNodeIdIndex,
    /// Membership run.
    pub membership_runs: Option<RunSetLease>,
    /// Relationship tables.
    pub keys: Vec<RelTableKey>,
    /// Edges per relationship table.
    pub rel_counts: Vec<u64>,
    /// Forward run.
    pub forward: RunSetLease,
    /// Adjacency of the relationship tables.
    pub adjacency: Vec<RelAdjacency>,
    /// Geometries of the columns.
    pub geometries: Vec<ColumnGeometry>,
    /// Columns row by row.
    pub cells: Vec<ColumnCells>,
    /// Number of the first relationship table among the tables that columns
    /// name.
    pub rel_base: u32,
}

impl GenerationPlan {
    /// The plan is the given one.
    pub open spec fn spells(&self, p: PlanView) -> bool {
        &&& text::texts(self.schema.labels@) == p.nodes.labels
        &&& self.schema.table_row_counts@ == p.nodes.counts
        &&& self.id_index@ == p.nodes.index
        &&& stages::optional_run(self.membership_runs) == p.nodes.membership
        &&& edge_pass::rel_keys(self.keys@) == p.edges.keys
        &&& self.rel_counts@ == p.edges.counts
        &&& self.forward@ == p.edges.forward
        &&& adjacency::adjacency_views(self.adjacency@) == p.adjacency
        &&& column_pass::geometry_views(self.geometries@) == p.geometries
        &&& emit_columns::columns_cells(self.cells@) == p.cells
        &&& self.rel_base == p.base
    }

    /// The plan without what its stages left behind on the way.
    pub open spec fn content(&self) -> PlanView {
        PlanView {
            nodes: NodeStageView {
                labels: text::texts(self.schema.labels@),
                counts: self.schema.table_row_counts@,
                index: self.id_index@,
                occurrences: Seq::empty(),
                membership: stages::optional_run(self.membership_runs),
                entries: Seq::empty(),
            },
            edges: EdgeStageView {
                keys: edge_pass::rel_keys(self.keys@),
                forward: self.forward@,
                counts: self.rel_counts@,
                occurrences: Seq::empty(),
            },
            geometries: column_pass::geometry_views(self.geometries@),
            cells: emit_columns::columns_cells(self.cells@),
            adjacency: adjacency::adjacency_views(self.adjacency@),
            base: self.rel_base as int,
        }
    }

    /// Every table has its row count and its adjacency.
    pub open spec fn well_formed(&self) -> bool {
        &&& self.schema.table_row_counts@.len() == self.schema.labels@.len()
        &&& self.rel_counts@.len() == self.keys@.len()
        &&& self.adjacency@.len() == self.keys@.len()
    }

    /// The codec of a column.
    pub fn codec_kind(&self, column: usize) -> (r: CodecKind)
        requires
            column < self.geometries@.len(),
        ensures
            r == emit_columns::kind_of(self.geometries@[column as int]@),
    {
        codec_kind_of(&self.geometries[column])
    }
}

/// A configured build.
#[derive(Debug)]
pub struct BoundedBuildConfig {
    /// Declared endpoints of edge types.
    pub rel_schemas: Vec<RelSchemaDecl>,
    /// Frozen overlay epoch that the payload belongs to.
    pub frozen_epoch: u64,
}

/// Drives a build.
#[derive(Debug)]
pub struct BoundedGenerationBuilder {
    config: BoundedBuildConfig,
}

// ------------------------------------------------------------------- store

/// A column as the caller encoded it.
pub struct EncodedColumn {
    /// Encoded column.
    pub codec: ColumnCodec,
    /// Zone maps of its blocks.
    pub blocks: Vec<ZoneMap>,
}

/// The codecs of encoded columns.
pub open spec fn codecs_of(v: Seq<EncodedColumn>) -> Seq<ColumnView> {
    Seq::new(v.len(), |i: int| v[i].codec@)
}

/// The block zone maps of encoded columns.
pub open spec fn blocks_of(v: Seq<EncodedColumn>) -> Seq<Seq<ZoneView>> {
    Seq::new(v.len(), |i: int| zone_maps::zone_views(v[i].blocks@))
}

/// The zone maps of whole columns.
pub open spec fn zones_of(g: Seq<GeometryView>) -> Seq<ZoneView> {
    Seq::new(g.len(), |i: int| emit_ids::geometry_zone(g[i]))
}

/// What the first `k` columns give to one table, by property key.
pub open spec fn column_map<V>(cells: Seq<CellsView>, vals: Seq<V>, table: int, k: nat) -> Map<
    Seq<char>,
    V,
>
    decreases k,
{
    if k == 0 {
        Map::empty()
    } else {
        let m = column_map(cells, vals, table, (k - 1) as nat);
        if cells[k - 1].table_id == table {
            m.insert(cells[k - 1].key, vals[k - 1])
        } else {
            m
        }
    }
}

/// The pairs, by strictly ascending key, are those of the map.
pub open spec fn lists_map<V>(p: Seq<(Seq<char>, V)>, m: Map<Seq<char>, V>) -> bool {
    let keys = Seq::new(p.len(), |i: int| p[i].0);
    let vals = Seq::new(p.len(), |i: int| p[i].1);
    text::texts_ascend(keys) && text::text_map_of(keys, vals) == m
}

/// The number by which the columns of a node table name it. Node tables that
/// would be numbered as relationship tables have no columns.
pub open spec fn node_number(base: int, t: int) -> int {
    if t < base {
        t
    } else {
        -1
    }
}

/// The rows of the table with a number: node tables by their id, relationship
/// tables from `base` on.
pub open spec fn numbered_rows(nodes: Seq<u64>, rels: Seq<u64>, base: int, number: u32) -> Option<
    u64,
> {
    if number >= base {
        if number - base < rels.len() {
            Some(rels[number - base])
        } else {
            None
        }
    } else if number < nodes.len() {
        Some(nodes[number as int])
    } else {
        None
    }
}

/// The rows of the table with a number.
pub fn rows_numbered(nodes: &[u64], rels: &[u64], base: u32, number: u32) -> (r: Option<u64>)
    ensures
        r == numbered_rows(nodes@, rels@, base as int, number),
{
    if number >= base {
        let rel: usize = (number - base) as usize;
        if rel < rels.len() {
            Some(rels[rel])
        } else {
            None
        }
    } else if (number as usize) < nodes.len() {
        Some(nodes[number as usize])
    } else {
        None
    }
}

/// A node table of the built store.
pub open spec fn node_built(p: PlanView, codecs: Seq<ColumnView>, blocks: Seq<Seq<ZoneView>>, t: int,
    x: NodeTableView,
) -> bool {
    let own = node_number(p.base, t);
    let n = p.cells.len();
    &&& x.label == p.nodes.labels[t]
    &&& x.rows == p.nodes.counts[t]
    &&& lists_map(x.columns, column_map(p.cells, codecs, own, n))
    &&& lists_map(x.zones, column_map(p.cells, zones_of(p.geometries), own, n))
    &&& lists_map(x.blocks, column_map(p.cells, blocks, own, n))
}

/// A relationship table of the built store.
pub open spec fn rel_built(p: PlanView, codecs: Seq<ColumnView>, blocks: Seq<Seq<ZoneView>>, t: int,
    x: RelTableView,
) -> bool {
    let own = p.base + t;
    let n = p.cells.len();
    &&& x.edge_type == p.edges.keys[t].0
    &&& x.src == p.edges.keys[t].1
    &&& x.dst == p.edges.keys[t].2
    &&& x.fwd == p.adjacency[t].fwd
    &&& x.bwd == Some(p.adjacency[t].bwd)
    &&& lists_map(x.columns, column_map(p.cells, codecs, own, n))
    &&& lists_map(x.zones, column_map(p.cells, zones_of(p.geometries), own, n))
    &&& lists_map(x.blocks, column_map(p.cells, blocks, own, n))
}

/// The identifiers of the built store.
pub open spec fn built_ids(p: PlanView) -> Result<IdsView, GenerationError> {
    match emit_ids::edge_walk(p.edges.forward, p.edges.forward.len()) {
        Err(e) => Err(e),
        Ok(w) => Ok(
            IdsView {
                nodes: emit_ids::node_lookup(p.nodes.index),
                edges: w.entries,
                node_ids: emit_ids::placed_ids(p.nodes.counts, p.nodes.index, p.nodes.index.len()),
                edge_ids: emit_ids::ids_by_table(w.entries, p.edges.keys.len(), w.entries.len()),
            },
        ),
    }
}

/// The store that a plan and its encoded columns make.
pub open spec fn built_store(
    p: PlanView,
    codecs: Seq<ColumnView>,
    blocks: Seq<Seq<ZoneView>>,
    s: StoreView,
) -> bool {
    &&& s.nodes.len() == p.nodes.labels.len()
    &&& s.rels.len() == p.edges.keys.len()
    &&& forall|t: int|
        0 <= t < s.nodes.len() ==> node_built(p, codecs, blocks, t, #[trigger] s.nodes[t])
    &&& forall|t: int|
        0 <= t < s.rels.len() ==> rel_built(p, codecs, blocks, t, #[trigger] s.rels[t])
    &&& built_ids(p) is Ok
    &&& s.ids == Some(built_ids(p)->Ok_0)
}

/// Why a column cannot join the store.
pub open spec fn column_checks(p: PlanView) -> spec_fn(int) -> Option<GenerationError> {
    |i: int|
        if numbered_rows(p.nodes.counts, p.edges.counts, p.base, p.cells[i].table_id) is None {
            Some(GenerationError::Codec(CodecError::UnknownColumn))
        } else if p.cells[i].cells.len() != p.geometries[i].row_count {
            Some(GenerationError::Codec(CodecError::RowsBeyondTable))
        } else if p.geometries[i].row_count > 0xffff_ffff || p.geometries[i].null_count
            > 0xffff_ffff {
            Some(
                GenerationError::WireWidthOverflow {
                    what: WireCount::RowCount,
                    count: p.geometries[i].row_count,
                    max: 0xffff_ffff,
                },
            )
        } else {
            None
        }
}

/// The rows of a node table are too many for its field.
pub open spec fn rows_checks(counts: Seq<u64>) -> spec_fn(int) -> Option<GenerationError> {
    |i: int|
        if counts[i] > 0xffff_ffff {
            Some(
                GenerationError::WireWidthOverflow {
                    what: WireCount::RowCount,
                    count: counts[i],
                    max: 0xffff_ffff,
                },
            )
        } else {
            None
        }
}

/// Why a plan cannot become a store.
pub open spec fn store_fault(p: PlanView) -> Option<GenerationError> {
    if p.cells.len() != p.geometries.len() {
        Some(GenerationError::Codec(CodecError::ColumnOrder))
    } else if p.cells.len() > 0xffff_ffff {
        Some(crate::staging::over32(WireCount::Collection, p.cells.len()))
    } else {
        match faults::first_fault(p.cells.len(), column_checks(p)) {
            Some(e) => Some(e),
            None => match faults::first_fault(p.nodes.counts.len(), rows_checks(p.nodes.counts)) {
                Some(e) => Some(e),
                None => match built_ids(p) {
                    Err(e) => Some(e),
                    Ok(_) => None,
                },
            },
        }
    }
}

/// The views of a map's values.
pub open spec fn codec_views(m: Map<Seq<char>, ColumnCodec>) -> Map<Seq<char>, ColumnView> {
    m.map_values(|c: ColumnCodec| c@)
}

/// The views of a map's zone maps.
pub open spec fn zone_map_views(m: Map<Seq<char>, ZoneMap>) -> Map<Seq<char>, ZoneView> {
    m.map_values(|z: ZoneMap| z@)
}

/// The views of a map's block zone maps.
pub open spec fn block_map_views(m: Map<Seq<char>, Vec<ZoneMap>>) -> Map<
    Seq<char>,
    Seq<ZoneView>,
> {
    m.map_values(|z: Vec<ZoneMap>| zone_maps::zone_views(z@))
}

/// The columns, zone maps and block zone maps of one table.
struct TableMaps {
    columns: TextMap<ColumnCodec>,
    zones: TextMap<ZoneMap>,
    blocks: TextMap<Vec<ZoneMap>>,
}

impl TableMaps {
    fn new() -> (r: Self)
        ensures
            codec_views(r.columns@) == Map::<Seq<char>, ColumnView>::empty(),
            zone_map_views(r.zones@) == Map::<Seq<char>, ZoneView>::empty(),
            block_map_views(r.blocks@) == Map::<Seq<char>, Seq<ZoneView>>::empty(),
    {
        let r = TableMaps {
            columns: TextMap::new(),
            zones: TextMap::new(),
            blocks: TextMap::new(),
        };
        assert(codec_views(r.columns@) =~= Map::<Seq<char>, ColumnView>::empty());
        assert(zone_map_views(r.zones@) =~= Map::<Seq<char>, ZoneView>::empty());
        assert(block_map_views(r.blocks@) =~= Map::<Seq<char>, Seq<ZoneView>>::empty());
        r
    }

    spec fn holds(
        &self,
        cells: Seq<CellsView>,
        codecs: Seq<ColumnView>,
        zones: Seq<ZoneView>,
        blocks: Seq<Seq<ZoneView>>,
        table: int,
        k: nat,
    ) -> bool {
        &&& codec_views(self.columns@) == column_map(cells, codecs, table, k)
        &&& zone_map_views(self.zones@) == column_map(cells, zones, table, k)
        &&& block_map_views(self.blocks@) == column_map(cells, blocks, table, k)
    }

    fn add(&mut self, key: &str, codec: ColumnCodec, zone: ZoneMap, blocks: Vec<ZoneMap>)
        ensures
            codec_views(final(self).columns@) == codec_views(old(self).columns@).insert(
                key@,
                codec@,
            ),
            zone_map_views(final(self).zones@) == zone_map_views(old(self).zones@).insert(
                key@,
                zone@,
            ),
            block_map_views(final(self).blocks@) == block_map_views(old(self).blocks@).insert(
                key@,
                zone_maps::zone_views(blocks@),
            ),
    {
        let ghost c0 = self.columns@;
        let ghost z0 = self.zones@;
        let ghost b0 = self.blocks@;
        self.columns.insert(key, codec);
        self.zones.insert(key, zone);
        self.blocks.insert(key, blocks);
        assert(codec_views(self.columns@) =~= codec_views(c0).insert(key@, codec@));
        assert(zone_map_views(self.zones@) =~= zone_map_views(z0).insert(key@, zone@));
        assert(block_map_views(self.blocks@) =~= block_map_views(b0).insert(
            key@,
            zone_maps::zone_views(blocks@),
        ));
    }
}

fn empty_maps(n: usize) -> (r: Vec<TableMaps>)
    ensures
        r@.len() == n,
        forall|i: int|
            0 <= i < n ==> codec_views((#[trigger] r@[i]).columns@) == Map::<
                Seq<char>,
                ColumnView,
            >::empty() && zone_map_views(r@[i].zones@) == Map::<Seq<char>, ZoneView>::empty()
                && block_map_views(r@[i].blocks@) == Map::<Seq<char>, Seq<ZoneView>>::empty(),
{
    let mut out: Vec<TableMaps> = Vec::new();
    let mut i: usize = 0;
    while i < n
        invariant
            i <= n,
            out@.len() == i,
            forall|k: int|
                0 <= k < i ==> codec_views((#[trigger] out@[k]).columns@) == Map::<
                    Seq<char>,
                    ColumnView,
                >::empty() && zone_map_views(out@[k].zones@) == Map::<Seq<char>, ZoneView>::empty()
                    && block_map_views(out@[k].blocks@) == Map::<Seq<char>, Seq<ZoneView>>::empty(),
        decreases n - i,
    {
        out.push(TableMaps::new());
        i = i + 1;
    }
    out
}

/// Checks the columns of a plan.
fn check_columns(plan: &GenerationPlan, Ghost(p): Ghost<PlanView>) -> (r: Result<
    (),
    GenerationError,
>)
    requires
        plan.spells(p),
    ensures
        ({
            let fault = if p.cells.len() != p.geometries.len() {
                Some(GenerationError::Codec(CodecError::ColumnOrder))
            } else if p.cells.len() > 0xffff_ffff {
                Some(crate::staging::over32(WireCount::Collection, p.cells.len()))
            } else {
                match faults::first_fault(p.cells.len(), column_checks(p)) {
                    Some(e) => Some(e),
                    None => faults::first_fault(p.nodes.counts.len(), rows_checks(p.nodes.counts)),
                }
            };
            match r {
                Ok(_) => fault is None,
                Err(e) => fault == Some(e),
            }
        }),
{
    let n: usize = plan.cells.len();
    assert(n == p.cells.len());
    assert(plan.geometries@.len() == p.geometries.len());
    if n != plan.geometries.len() {
        return Err(GenerationError::Codec(CodecError::ColumnOrder));
    }
    if n as u64 > 0xffff_ffff {
        return Err(
            GenerationError::WireWidthOverflow {
                what: WireCount::Collection,
                count: n as u64,
                max: 0xffff_ffff,
            },
        );
    }
    let mut i: usize = 0;
    while i < n
        invariant
            i <= n,
            n == p.cells.len(),
            n == p.geometries.len(),
            n <= 0xffff_ffff,
            plan.spells(p),
            faults::first_fault(i as nat, column_checks(p)) is None,
        decreases n - i,
    {
        let c: &ColumnCells = &plan.cells[i];
        let g: &ColumnGeometry = &plan.geometries[i];
        proof {
            assert(c@ == p.cells[i as int]);
            assert(g@ == p.geometries[i as int]);
            if column_checks(p)(i as int) is Some {
                faults::lemma_first_fault_stays((i + 1) as nat, n as nat, column_checks(p));
            }
        }
        if rows_numbered(
            plan.schema.table_row_counts.as_slice(),
            plan.rel_counts.as_slice(),
            plan.rel_base,
            c.table_id,
        ).is_none() {
            return Err(GenerationError::Codec(CodecError::UnknownColumn));
        }
        if c.cells.len() as u64 != g.row_count {
            return Err(GenerationError::Codec(CodecError::RowsBeyondTable));
        }
        if g.row_count > 0xffff_ffff || g.null_count > 0xffff_ffff {
            return Err(
                GenerationError::WireWidthOverflow {
                    what: WireCount::RowCount,
                    count: g.row_count,
                    max: 0xffff_ffff,
                },
            );
        }
        i = i + 1;
    }
    let counts: &Vec<u64> = &plan.schema.table_row_counts;
    let mut t: usize = 0;
    while t < counts.len()
        invariant
            t <= counts@.len(),
            counts@ == p.nodes.counts,
            faults::first_fault(t as nat, rows_checks(p.nodes.counts)) is None,
            n == p.cells.len(),
            n == p.geometries.len(),
            n <= 0xffff_ffff,
            faults::first_fault(n as nat, column_checks(p)) is None,
        decreases counts@.len() - t,
    {
        proof {
            if rows_checks(p.nodes.counts)(t as int) is Some {
                faults::lemma_first_fault_stays(
                    (t + 1) as nat,
                    counts@.len(),
                    rows_checks(p.nodes.counts),
                );
            }
        }
        if counts[t] > 0xffff_ffff {
            return Err(
                GenerationError::WireWidthOverflow {
                    what: WireCount::RowCount,
                    count: counts[t],
                    max: 0xffff_ffff,
                },
            );
        }
        t = t + 1;
    }
    Ok(())
}

/// Hands every column to its table.
fn share_columns(
    plan: &GenerationPlan,
    encoded: Vec<EncodedColumn>,
    Ghost(p): Ghost<PlanView>,
) -> (r: (Vec<TableMaps>, Vec<TableMaps>))
    requires
        plan.spells(p),
        p.cells.len() == p.geometries.len(),
        encoded@.len() == p.cells.len(),
        faults::first_fault(p.cells.len(), column_checks(p)) is None,
        p.nodes.counts.len() == p.nodes.labels.len(),
        p.edges.counts.len() == p.edges.keys.len(),
    ensures
        r.0@.len() == p.nodes.labels.len(),
        r.1@.len() == p.edges.keys.len(),
        forall|t: int|
            0 <= t < r.0@.len() ==> (#[trigger] r.0@[t]).holds(
                p.cells,
                codecs_of(encoded@),
                zones_of(p.geometries),
                blocks_of(encoded@),
                node_number(p.base, t),
                p.cells.len(),
            ),
        forall|t: int|
            0 <= t < r.1@.len() ==> (#[trigger] r.1@[t]).holds(
                p.cells,
                codecs_of(encoded@),
                zones_of(p.geometries),
                blocks_of(encoded@),
                p.base + t,
                p.cells.len(),
            ),
{
    let n: usize = plan.cells.len();
    let ghost codecs = codecs_of(encoded@);
    let ghost blocks = blocks_of(encoded@);
    let ghost zones = zones_of(p.geometries);
    let ghost all = encoded@;
    assert(n == p.cells.len());
    assert(text::texts(plan.schema.labels@).len() == plan.schema.labels@.len());
    assert(edge_pass::rel_keys(plan.keys@).len() == plan.keys@.len());
    let mut node_maps: Vec<TableMaps> = empty_maps(plan.schema.labels.len());
    let mut rel_maps: Vec<TableMaps> = empty_maps(plan.keys.len());
    let mut left: Vec<EncodedColumn> = reversed(encoded);
    let mut i: usize = 0;
    while i < n
        invariant
            i <= n,
            n == p.cells.len(),
            n == p.geometries.len(),
            n == all.len(),
            plan.spells(p),
            codecs == codecs_of(all),
            blocks == blocks_of(all),
            zones == zones_of(p.geometries),
            left@ == all.reverse().take(n - i),
            faults::first_fault(p.cells.len(), column_checks(p)) is None,
            node_maps@.len() == p.nodes.labels.len(),
            rel_maps@.len() == p.edges.keys.len(),
            p.nodes.counts.len() == p.nodes.labels.len(),
            p.edges.counts.len() == p.edges.keys.len(),
            forall|t: int|
                0 <= t < node_maps@.len() ==> (#[trigger] node_maps@[t]).holds(
                    p.cells,
                    codecs,
                    zones,
                    blocks,
                    node_number(p.base, t),
                    i as nat,
                ),
            forall|t: int|
                0 <= t < rel_maps@.len() ==> (#[trigger] rel_maps@[t]).holds(
                    p.cells,
                    codecs,
                    zones,
                    blocks,
                    p.base + t,
                    i as nat,
                ),
        decreases n - i,
    {
        let c: &ColumnCells = &plan.cells[i];
        let g: &ColumnGeometry = &plan.geometries[i];
        proof {
            assert(c@ == p.cells[i as int]);
            assert(g@ == p.geometries[i as int]);
            faults::lemma_no_fault(p.cells.len(), column_checks(p));
            assert(column_checks(p)(i as int) is None);
        }
        let ghost before = left@;
        let x: EncodedColumn = left.pop().unwrap();
        proof {
            assert(x == all.reverse()[n - i - 1]);
            assert(x == all[i as int]);
            assert(left@ =~= all.reverse().take(n - i - 1));
            assert(codecs[i as int] == x.codec@);
            assert(blocks[i as int] == zone_maps::zone_views(x.blocks@));
        }
        let zone: ZoneMap = table_zone_map(g);
        assert(zones[i as int] == zone@);
        let EncodedColumn { codec, blocks: own_blocks } = x;
        let ghost node0 = node_maps@;
        let ghost rel0 = rel_maps@;
        if c.table_id >= plan.rel_base {
            let t: usize = (c.table_id - plan.rel_base) as usize;
            rel_maps[t].add(c.key.as_str(), codec, zone, own_blocks);
            assert(rel_maps@ =~= rel0.update(t as int, rel_maps@[t as int]));
        } else {
            let t: usize = c.table_id as usize;
            node_maps[t].add(c.key.as_str(), codec, zone, own_blocks);
            assert(node_maps@ =~= node0.update(t as int, node_maps@[t as int]));
        }
        i = i + 1;
    }
    (node_maps, rel_maps)
}

proof fn lemma_columns_listed(m: TextMap<ColumnCodec>)
    requires
        m@ == text::text_map_of(m.key_seq(), m.val_seq()),
        m.key_seq().len() == m.val_seq().len(),
        text::texts_ascend(m.key_seq()),
    ensures
        lists_map(tables::columns_view(m), codec_views(m@)),
{
    let p = tables::columns_view(m);
    let keys = Seq::new(p.len(), |i: int| p[i].0);
    let vals = Seq::new(p.len(), |i: int| p[i].1);
    assert(keys =~= m.key_seq());
    assert(text::text_map_of(keys, vals) =~= codec_views(m@)) by {
        assert forall|k: Seq<char>| keys.contains(k) implies vals[keys.index_of(k)] == m.val_seq()[
        keys.index_of(k)]@ by {
            assert(keys[keys.index_of(k)] == k);
        }
    }
}

proof fn lemma_zones_listed(m: TextMap<ZoneMap>)
    requires
        m@ == text::text_map_of(m.key_seq(), m.val_seq()),
        m.key_seq().len() == m.val_seq().len(),
        text::texts_ascend(m.key_seq()),
    ensures
        lists_map(tables::zone_pairs(m), zone_map_views(m@)),
{
    let p = tables::zone_pairs(m);
    let keys = Seq::new(p.len(), |i: int| p[i].0);
    let vals = Seq::new(p.len(), |i: int| p[i].1);
    assert(keys =~= m.key_seq());
    assert(text::text_map_of(keys, vals) =~= zone_map_views(m@)) by {
        assert forall|k: Seq<char>| keys.contains(k) implies vals[keys.index_of(k)] == m.val_seq()[
        keys.index_of(k)]@ by {
            assert(keys[keys.index_of(k)] == k);
        }
    }
}

proof fn lemma_blocks_listed(m: TextMap<Vec<ZoneMap>>)
    requires
        m@ == text::text_map_of(m.key_seq(), m.val_seq()),
        m.key_seq().len() == m.val_seq().len(),
        text::texts_ascend(m.key_seq()),
    ensures
        lists_map(tables::block_pairs(m), block_map_views(m@)),
{
    let p = tables::block_pairs(m);
    let keys = Seq::new(p.len(), |i: int| p[i].0);
    let vals = Seq::new(p.len(), |i: int| p[i].1);
    assert(keys =~= m.key_seq());
    assert(text::text_map_of(keys, vals) =~= block_map_views(m@)) by {
        assert forall|k: Seq<char>| keys.contains(k) implies vals[keys.index_of(k)] == zone_maps::zone_views(
            m.val_seq()[keys.index_of(k)]@,
        ) by {
            assert(keys[keys.index_of(k)] == k);
        }
    }
}

fn make_node_tables(
    plan: &GenerationPlan,
    maps: Vec<TableMaps>,
    Ghost(p): Ghost<PlanView>,
    Ghost(codecs): Ghost<Seq<ColumnView>>,
    Ghost(blocks): Ghost<Seq<Seq<ZoneView>>>,
) -> (r: Vec<NodeTable>)
    requires
        plan.spells(p),
        p.nodes.counts.len() == p.nodes.labels.len(),
        maps@.len() == p.nodes.labels.len(),
        faults::first_fault(p.nodes.counts.len(), rows_checks(p.nodes.counts)) is None,
        forall|t: int|
            0 <= t < maps@.len() ==> (#[trigger] maps@[t]).holds(
                p.cells,
                codecs,
                zones_of(p.geometries),
                blocks,
                node_number(p.base, t),
                p.cells.len(),
            ),
    ensures
        r@.len() == p.nodes.labels.len(),
        forall|t: int|
            0 <= t < r@.len() ==> node_built(p, codecs, blocks, t, (#[trigger] r@[t])@),
{
    let n: usize = maps.len();
    let mut left: Vec<TableMaps> = maps;
    let ghost all = left@;
    let mut out: Vec<NodeTable> = Vec::new();
    let mut t: usize = 0;
    assert(text::texts(plan.schema.labels@).len() == plan.schema.labels@.len());
    while t < n
        invariant
            t <= n,
            n == all.len(),
            n == p.nodes.labels.len(),
            n == plan.schema.labels@.len(),
            left@.len() == n,
            plan.spells(p),
            p.nodes.counts.len() == p.nodes.labels.len(),
            faults::first_fault(p.nodes.counts.len(), rows_checks(p.nodes.counts)) is None,
            forall|k: int| t <= k < n ==> (#[trigger] left@[k]) == all[k],
            forall|k: int|
                0 <= k < n ==> (#[trigger] all[k]).holds(
                    p.cells,
                    codecs,
                    zones_of(p.geometries),
                    blocks,
                    node_number(p.base, k),
                    p.cells.len(),
                ),
            out@.len() == t,
            forall|k: int|
                0 <= k < t ==> node_built(p, codecs, blocks, k, (#[trigger] out@[k])@),
        decreases n - t,
    {
        let mut m: TableMaps = TableMaps::new();
        left.set_and_swap(t, &mut m);
        assert(m == all[t as int]);
        let TableMaps { columns, zones, blocks: own } = m;
        let _ = columns.len();
        let _ = zones.len();
        let _ = own.len();
        proof {
            lemma_columns_listed(columns);
            lemma_zones_listed(zones);
            lemma_blocks_listed(own);
            faults::lemma_no_fault(p.nodes.counts.len(), rows_checks(p.nodes.counts));
            assert(rows_checks(p.nodes.counts)(t as int) is None);
            assert(text::texts(plan.schema.labels@)[t as int] == plan.schema.labels@[t as int]@);
        }
        let table = NodeTable {
            label: own_label(&plan.schema.labels, t),
            rows: plan.schema.table_row_counts[t] as usize,
            columns,
            zone_maps: zones,
            block_zone_maps: own,
        };
        assert(node_built(p, codecs, blocks, t as int, table@));
        out.push(table);
        t = t + 1;
    }
    out
}

fn own_label(labels: &Vec<String>, t: usize) -> (r: String)
    requires
        t < labels@.len(),
    ensures
        r@ == labels@[t as int]@,
{
    own(labels[t].as_str())
}

fn make_rel_tables(
    keys: Vec<RelTableKey>,
    adjacency: Vec<RelAdjacency>,
    maps: Vec<TableMaps>,
    Ghost(p): Ghost<PlanView>,
    Ghost(codecs): Ghost<Seq<ColumnView>>,
    Ghost(blocks): Ghost<Seq<Seq<ZoneView>>>,
) -> (r: Vec<RelTable>)
    requires
        edge_pass::rel_keys(keys@) == p.edges.keys,
        adjacency::adjacency_views(adjacency@) == p.adjacency,
        maps@.len() == keys@.len(),
        adjacency@.len() == keys@.len(),
        forall|t: int|
            0 <= t < maps@.len() ==> (#[trigger] maps@[t]).holds(
                p.cells,
                codecs,
                zones_of(p.geometries),
                blocks,
                p.base + t,
                p.cells.len(),
            ),
    ensures
        r@.len() == p.edges.keys.len(),
        forall|t: int| 0 <= t < r@.len() ==> rel_built(p, codecs, blocks, t, (#[trigger] r@[t])@),
{
    let n: usize = keys.len();
    let mut left: Vec<TableMaps> = maps;
    let ghost all = left@;
    let ghost kv = keys@;
    let ghost av = adjacency@;
    let mut arrays: Vec<RelAdjacency> = adjacency;
    let mut out: Vec<RelTable> = Vec::new();
    let mut t: usize = 0;
    assert(edge_pass::rel_keys(keys@).len() == keys@.len());
    while t < n
        invariant
            t <= n,
            n == all.len(),
            n == kv.len(),
            n == av.len(),
            kv == keys@,
            edge_pass::rel_keys(kv) == p.edges.keys,
            adjacency::adjacency_views(av) == p.adjacency,
            left@.len() == n,
            arrays@.len() == n,
            forall|k: int| t <= k < n ==> (#[trigger] left@[k]) == all[k],
            forall|k: int| t <= k < n ==> (#[trigger] arrays@[k]) == av[k],
            forall|k: int|
                0 <= k < n ==> (#[trigger] all[k]).holds(
                    p.cells,
                    codecs,
                    zones_of(p.geometries),
                    blocks,
                    p.base + k,
                    p.cells.len(),
                ),
            out@.len() == t,
            forall|k: int| 0 <= k < t ==> rel_built(p, codecs, blocks, k, (#[trigger] out@[k])@),
        decreases n - t,
    {
        let mut m: TableMaps = TableMaps::new();
        left.set_and_swap(t, &mut m);
        assert(m == all[t as int]);
        let mut a: RelAdjacency = no_adjacency();
        arrays.set_and_swap(t, &mut a);
        assert(a == av[t as int]);
        let TableMaps { columns, zones, blocks: own_blocks } = m;
        let _ = columns.len();
        let _ = zones.len();
        let _ = own_blocks.len();
        proof {
            lemma_columns_listed(columns);
            lemma_zones_listed(zones);
            lemma_blocks_listed(own_blocks);
            assert(edge_pass::rel_keys(kv)[t as int] == kv[t as int]@);
            assert(adjacency::adjacency_views(av)[t as int] == (AdjacencyView {
                fwd: av[t as int].fwd@,
                bwd: av[t as int].bwd@,
            }));
        }
        let table = RelTable {
            edge_type: own(keys[t].edge_type.as_str()),
            src_table_id: keys[t].src_table_id,
            dst_table_id: keys[t].dst_table_id,
            fwd: a.fwd,
            bwd: Some(a.bwd),
            properties: columns,
            zone_maps: zones,
            block_zone_maps: own_blocks,
        };
        assert(rel_built(p, codecs, blocks, t as int, table@));
        out.push(table);
        t = t + 1;
    }
    out
}

fn no_adjacency() -> RelAdjacency {
    RelAdjacency {
        fwd: CsrAdjacency { offsets: Vec::new(), targets: Vec::new(), edge_data: None },
        bwd: CsrAdjacency { offsets: Vec::new(), targets: Vec::new(), edge_data: None },
    }
}

fn make_ids(plan: &GenerationPlan, Ghost(p): Ghost<PlanView>) -> (r: Result<
    PreservedIds,
    GenerationError,
>)
    requires
        plan.spells(p),
        faults::first_fault(p.nodes.counts.len(), rows_checks(p.nodes.counts)) is None,
    ensures
        match r {
            Ok(x) => built_ids(p) == Ok::<IdsView, GenerationError>(x@),
            Err(e) => built_ids(p) == Err::<IdsView, GenerationError>(e),
        },
{
    let edges: Vec<LookupEntry> = build_edge_id_lookup(&plan.forward)?;
    let nodes: Vec<LookupEntry> = build_node_id_lookup(&plan.id_index);
    let node_ids: Vec<Vec<u64>> = match build_node_original_ids(
        &plan.id_index,
        plan.schema.table_row_counts.as_slice(),
    ) {
        Some(v) => v,
        None => {
            proof {
                let t = choose|t: int|
                    0 <= t < p.nodes.counts.len() && (#[trigger] p.nodes.counts[t]) > usize::MAX;
                faults::lemma_no_fault(p.nodes.counts.len(), rows_checks(p.nodes.counts));
                assert(rows_checks(p.nodes.counts)(t) is None);
                assert(false);
            }
            Vec::new()
        },
    };
    assert(edge_pass::rel_keys(plan.keys@).len() == plan.keys@.len());
    let edge_ids: Vec<Vec<u64>> = build_edge_original_ids(edges.as_slice(), plan.keys.len());
    Ok(PreservedIds { nodes, edges, node_ids, edge_ids })
}

// -------------------------------------------------------------- companions

/// A bitmap record by its content.
pub type BitmapRow = (u32, u32, Seq<bool>);

/// The contents of bitmap records.
pub open spec fn bitmap_rows(v: Seq<BitmapRecord>) -> Seq<BitmapRow> {
    Seq::new(v.len(), |i: int| (v[i].0, v[i].1, v[i].2@))
}

/// The presence records of the first `k` columns: of those with a row without
/// an entry.
pub open spec fn presence_rows(p: PlanView, k: nat) -> Seq<BitmapRow>
    decreases k,
{
    if k == 0 {
        Seq::empty()
    } else {
        let v = presence_rows(p, (k - 1) as nat);
        if p.geometries[k - 1].present_count < p.geometries[k - 1].row_count {
            v.push(
                (
                    (k - 1) as u32,
                    p.cells[k - 1].cells.len() as u32,
                    emit_columns::presence_bits(p.cells[k - 1].cells),
                ),
            )
        } else {
            v
        }
    }
}

/// The null records of the first `k` columns: of those with a null.
pub open spec fn null_rows(p: PlanView, k: nat) -> Seq<BitmapRow>
    decreases k,
{
    if k == 0 {
        Seq::empty()
    } else {
        let v = null_rows(p, (k - 1) as nat);
        if p.geometries[k - 1].null_count > 0 {
            v.push(
                (
                    (k - 1) as u32,
                    p.cells[k - 1].cells.len() as u32,
                    emit_columns::null_bits(p.cells[k - 1].cells),
                ),
            )
        } else {
            v
        }
    }
}

fn make_companions(
    cells: &Vec<ColumnCells>,
    geometries: &Vec<ColumnGeometry>,
    Ghost(p): Ghost<PlanView>,
) -> (r: (Vec<BitmapRecord>, Vec<BitmapRecord>))
    requires
        emit_columns::columns_cells(cells@) == p.cells,
        column_pass::geometry_views(geometries@) == p.geometries,
        p.cells.len() == p.geometries.len(),
        p.cells.len() <= 0xffff_ffff,
        faults::first_fault(p.cells.len(), column_checks(p)) is None,
    ensures
        bitmap_rows(r.0@) == presence_rows(p, p.cells.len()),
        bitmap_rows(r.1@) == null_rows(p, p.cells.len()),
        forall|i: int| 0 <= i < r.0@.len() ==> presence::bitmap_record_fits(#[trigger] r.0@[i]),
        forall|i: int| 0 <= i < r.1@.len() ==> presence::bitmap_record_fits(#[trigger] r.1@[i]),
{
    let n: usize = cells.len();
    assert(n == p.cells.len());
    let mut presence: Vec<BitmapRecord> = Vec::new();
    let mut nulls: Vec<BitmapRecord> = Vec::new();
    let mut i: usize = 0;
    assert(bitmap_rows(presence@) =~= Seq::empty());
    assert(bitmap_rows(nulls@) =~= Seq::empty());
    while i < n
        invariant
            i <= n,
            n == p.cells.len(),
            n == p.geometries.len(),
            n <= 0xffff_ffff,
            emit_columns::columns_cells(cells@) == p.cells,
            column_pass::geometry_views(geometries@) == p.geometries,
            faults::first_fault(p.cells.len(), column_checks(p)) is None,
            bitmap_rows(presence@) == presence_rows(p, i as nat),
            bitmap_rows(nulls@) == null_rows(p, i as nat),
            forall|k: int| 0 <= k < presence@.len() ==> presence::bitmap_record_fits(#[trigger] presence@[k]),
            forall|k: int| 0 <= k < nulls@.len() ==> presence::bitmap_record_fits(#[trigger] nulls@[k]),
        decreases n - i,
    {
        let c: &ColumnCells = &cells[i];
        let g: &ColumnGeometry = &geometries[i];
        proof {
            assert(c@ == p.cells[i as int]);
            assert(g@ == p.geometries[i as int]);
            faults::lemma_no_fault(p.cells.len(), column_checks(p));
            assert(column_checks(p)(i as int) is None);
            assert(c.cells@.len() == c@.cells.len());
        }
        let rows: u32 = c.cells.len() as u32;
        if g.needs_presence() {
            let ghost before = bitmap_rows(presence@);
            let bits: Vec<bool> = row_presence(c);
            let ghost bv = bits@;
            presence.push((i as u32, rows, bits));
            assert(bitmap_rows(presence@) =~= before.push((i as u32, rows, bv)));
        }
        if g.needs_null() {
            let ghost before = bitmap_rows(nulls@);
            let bits: Vec<bool> = row_nulls(c);
            let ghost bv = bits@;
            nulls.push((i as u32, rows, bits));
            assert(bitmap_rows(nulls@) =~= before.push((i as u32, rows, bv)));
        }
        i = i + 1;
    }
    (presence, nulls)
}

// ------------------------------------------------------------------- build

/// The payload of a plan and its encoded columns: that of the store that they
/// make, with the companions of the columns and of the membership run.
pub open spec fn is_built_payload(
    p: PlanView,
    codecs: Seq<ColumnView>,
    blocks: Seq<Seq<ZoneView>>,
    r: Result<Seq<u8>, GenerationError>,
) -> bool {
    exists|s: StoreView, presence: Seq<BitmapRecord>, nulls: Seq<BitmapRecord>|
        built_store(p, codecs, blocks, s) && bitmap_rows(presence) == presence_rows(
            p,
            p.cells.len(),
        ) && bitmap_rows(nulls) == null_rows(p, p.cells.len()) && r == #[trigger] bounded_emit::built_payload(
            s,
            p.nodes.index,
            p.nodes.membership,
            presence,
            nulls,
        )
}

/// A result with its bytes by content.
pub open spec fn payload_result(r: Result<Vec<u8>, GenerationError>) -> Result<
    Seq<u8>,
    GenerationError,
> {
    match r {
        Ok(v) => Ok(v@),
        Err(e) => Err(e),
    }
}

/// The plan of staged nodes and edges.
pub(crate) fn finish_plan(
    stage: NodeStage,
    edge: EdgeStage,
    Ghost(n): Ghost<NodeStageView>,
    Ghost(e): Ghost<EdgeStageView>,
) -> (r: Result<GenerationPlan, GenerationError>)
    requires
        stage.content() == (NodeStageView { occurrences: n.occurrences + e.occurrences, ..n }),
        stage.schema.table_row_counts@ == stage.counts@,
        stage.counts@.len() == stage.schema.labels@.len(),
        edge_pass::rel_keys(edge.keys@) == e.keys,
        edge.forward@ == e.forward,
        edge.counts@ == e.counts,
        edge.counts@.len() == edge.keys@.len(),
        edge.keys@.len() <= 0x1_0000,
    ensures
        match r {
            Ok(x) => planned_after(n, e) is Ok && x.spells(planned_after(n, e)->Ok_0)
                && x.well_formed() && x.schema == stage.schema,
            Err(f) => planned_after(n, e) == Err::<PlanView, GenerationError>(f),
        },
{
    let NodeStage { schema, counts, id_index, occurrences, membership_runs, lookup: _ } = stage;
    let EdgeStage { keys, forward, counts: rel_counts } = edge;
    let occ: RunSetLease = rank_occurrences(occurrences);
    let (geometries, cells) = run_column_stage(&occ, counts.as_slice(), rel_counts.as_slice())?;
    let adjacency: Vec<RelAdjacency> = build_adjacency(
        keys.as_slice(),
        counts.as_slice(),
        &rel_counts,
        &forward,
    )?;
    Ok(
        GenerationPlan {
            schema,
            id_index,
            membership_runs,
            keys,
            rel_counts,
            forward,
            adjacency,
            geometries,
            cells,
            rel_base: 0x8000,
        },
    )
}

/// The text in a row of a column.
pub open spec fn text_in_row(c: ColumnView, i: int) -> Option<Seq<char>> {
    match c {
        ColumnView::Dict { entries, codes } => if 0 <= i < codes.len() && codes[i]
            < entries.len() {
            Some(entries[codes[i] as int])
        } else {
            None
        },
        ColumnView::Flat { .. } => None,
    }
}

/// A column has in every row that holds a text that text.
pub open spec fn texts_kept(c: ColumnView, cells: Seq<Option<ValueView>>) -> bool {
    forall|i: int|
        0 <= i < cells.len() ==> ((#[trigger] cells[i]) matches Some(ValueView::Text(t))
            ==> text_in_row(c, i) == Some(t))
}

/// Why encoded columns are not those of a plan: every column has as many rows
/// as its geometry, under the codec that its geometry asks for, and it
/// has the texts of its rows.
pub open spec fn encoding_checks(p: PlanView, codecs: Seq<ColumnView>) -> spec_fn(int) -> Option<
    GenerationError,
> {
    |i: int|
        if tables::column_rows(codecs[i]) != p.geometries[i].row_count {
            Some(GenerationError::Codec(CodecError::EncodedRows { column: i as usize }))
        } else if tables::column_disc(codecs[i]) != emit_meta::codec_code(emit_columns::kind_of(p.geometries[i])) {
            Some(GenerationError::Codec(CodecError::EncodedKind { column: i as usize }))
        } else if !texts_kept(codecs[i], p.cells[i].cells) {
            Some(GenerationError::Codec(CodecError::EncodedTexts { column: i as usize }))
        } else {
            None
        }
}

/// The first encoded column that is not the plan's.
pub open spec fn encoding_fault(p: PlanView, codecs: Seq<ColumnView>) -> Option<GenerationError> {
    faults::first_fault(p.cells.len(), encoding_checks(p, codecs))
}

/// Why a plan and its encoded columns make no store.
pub open spec fn assembly_fault(p: PlanView, codecs: Seq<ColumnView>) -> Option<GenerationError> {
    match store_fault(p) {
        Some(e) => Some(e),
        None => encoding_fault(p, codecs),
    }
}

fn row_has_text(codec: &ColumnCodec, i: usize, t: &str) -> (r: bool)
    ensures
        r == (text_in_row(codec@, i as int) == Some(t@)),
{
    match codec {
        ColumnCodec::Flat(_) => false,
        ColumnCodec::Dict(d) => {
            assert(text::texts(d.entries@).len() == d.entries@.len());
            if i >= d.codes.len() {
                return false;
            }
            let code: usize = d.codes[i] as usize;
            code < d.entries.len() && text_eq(d.entries[code].as_str(), t)
        },
    }
}

fn keeps_texts(codec: &ColumnCodec, cells: &Vec<Option<Value>>) -> (r: bool)
    ensures
        r == texts_kept(codec@, emit_columns::cell_views(cells@)),
{
    let ghost v = emit_columns::cell_views(cells@);
    let mut i: usize = 0;
    while i < cells.len()
        invariant
            i <= cells@.len(),
            v == emit_columns::cell_views(cells@),
            forall|k: int|
                0 <= k < i ==> ((#[trigger] v[k]) matches Some(ValueView::Text(t))
                    ==> text_in_row(codec@, k) == Some(t)),
        decreases cells@.len() - i,
    {
        assert(v[i as int] == value::optional_view(cells@[i as int]));
        if let Some(Value::String(t)) = &cells[i] {
            if !row_has_text(codec, i, t.as_str()) {
                return false;
            }
        }
        i = i + 1;
    }
    true
}

fn check_encoding(plan: &GenerationPlan, encoded: &Vec<EncodedColumn>, Ghost(p): Ghost<PlanView>)
    -> (r: Result<(), GenerationError>)
    requires
        plan.spells(p),
        p.cells.len() == p.geometries.len(),
        encoded@.len() == p.cells.len(),
    ensures
        match r {
            Ok(_) => encoding_fault(p, codecs_of(encoded@)) is None,
            Err(e) => encoding_fault(p, codecs_of(encoded@)) == Some(e),
        },
{
    let ghost codecs = codecs_of(encoded@);
    let n: usize = encoded.len();
    let mut i: usize = 0;
    while i < n
        invariant
            i <= n,
            n == encoded@.len(),
            n == p.geometries.len(),
            n == p.cells.len(),
            codecs == codecs_of(encoded@),
            column_pass::geometry_views(plan.geometries@) == p.geometries,
            emit_columns::columns_cells(plan.cells@) == p.cells,
            faults::first_fault(i as nat, encoding_checks(p, codecs)) is None,
        decreases n - i,
    {
        proof {
            assert(column_pass::geometry_views(plan.geometries@).len() == plan.geometries@.len());
            assert(plan.geometries@[i as int]@ == p.geometries[i as int]);
            assert(emit_columns::columns_cells(plan.cells@).len() == plan.cells@.len());
            assert(plan.cells@[i as int]@ == p.cells[i as int]);
            assert(codecs[i as int] == encoded@[i as int].codec@);
            if encoding_checks(p, codecs)(i as int) is Some {
                faults::lemma_first_fault_stays((i + 1) as nat, n as nat, encoding_checks(p, codecs));
            }
        }
        let g: &ColumnGeometry = &plan.geometries[i];
        if encoded[i].codec.len() as u64 != g.row_count {
            return Err(GenerationError::Codec(CodecError::EncodedRows { column: i }));
        }
        if codec_disc(&encoded[i].codec) != codec_kind_of(g).disc() {
            return Err(GenerationError::Codec(CodecError::EncodedKind { column: i }));
        }
        if !keeps_texts(&encoded[i].codec, &plan.cells[i].cells) {
            return Err(GenerationError::Codec(CodecError::EncodedTexts { column: i }));
        }
        i = i + 1;
    }
    Ok(())
}

/// What the second half of a build yields: why the plan and its encoded columns
/// make no store, or the payload of that store.
pub open spec fn is_bounded_build(
    p: PlanView,
    codecs: Seq<ColumnView>,
    blocks: Seq<Seq<ZoneView>>,
    r: Result<Seq<u8>, GenerationError>,
) -> bool {
    match assembly_fault(p, codecs) {
        Some(e) => r == Err::<Seq<u8>, GenerationError>(e),
        None => is_built_payload(p, codecs, blocks, r),
    }
}

/// Puts the store together from a plan and its encoded columns.
pub fn assemble_store(plan: &mut GenerationPlan, encoded: Vec<EncodedColumn>) -> (r: Result<
    CompactStore,
    GenerationError,
>)
    requires
        old(plan).well_formed(),
        encoded@.len() == old(plan).cells@.len(),
    ensures
        match r {
            Ok(s) => assembly_fault(old(plan).content(), codecs_of(encoded@)) is None
                && built_store(
                old(plan).content(),
                codecs_of(encoded@),
                blocks_of(encoded@),
                s@,
            ) && final(plan).id_index == old(plan).id_index && final(plan).membership_runs
                == old(plan).membership_runs && final(plan).geometries == old(plan).geometries
                && final(plan).cells == old(plan).cells && final(plan).rel_base == old(plan).rel_base,
            Err(e) => assembly_fault(old(plan).content(), codecs_of(encoded@)) == Some(e),
        },
{
    let ghost p = plan.content();
    let ghost codecs = codecs_of(encoded@);
    let ghost blocks = blocks_of(encoded@);
    check_columns(plan, Ghost(p))?;
    let ids: PreservedIds = make_ids(plan, Ghost(p))?;
    assert(emit_columns::columns_cells(plan.cells@).len() == plan.cells@.len());
    check_encoding(plan, &encoded, Ghost(p))?;
    let (node_maps, rel_maps) = share_columns(plan, encoded, Ghost(p));
    let node_tables: Vec<NodeTable> = make_node_tables(
        plan,
        node_maps,
        Ghost(p),
        Ghost(codecs),
        Ghost(blocks),
    );
    proof {
        assert(edge_pass::rel_keys(plan.keys@).len() == plan.keys@.len());
        assert(adjacency::adjacency_views(plan.adjacency@).len() == plan.adjacency@.len());
    }
    let mut keys: Vec<RelTableKey> = Vec::new();
    let mut arrays: Vec<RelAdjacency> = Vec::new();
    std::mem::swap(&mut keys, &mut plan.keys);
    std::mem::swap(&mut arrays, &mut plan.adjacency);
    let rel_tables: Vec<RelTable> = make_rel_tables(
        keys,
        arrays,
        rel_maps,
        Ghost(p),
        Ghost(codecs),
        Ghost(blocks),
    );
    Ok(CompactStore { node_tables, rel_tables, ids: Some(ids) })
}

impl BoundedGenerationBuilder {
    /// The declared endpoints of edge types.
    pub closed spec fn decls(&self) -> Seq<DeclRecord> {
        records::decl_records(self.config.rel_schemas@)
    }

    /// The frozen overlay epoch that the payload belongs to.
    pub closed spec fn epoch(&self) -> u64 {
        self.config.frozen_epoch
    }

    /// A builder.
    pub fn new(config: BoundedBuildConfig) -> (r: Self)
        ensures
            r.decls() == records::decl_records(config.rel_schemas@),
            r.epoch() == config.frozen_epoch,
    {
        BoundedGenerationBuilder { config }
    }

    /// The frozen overlay epoch that the payload belongs to.
    pub fn frozen_epoch(&self) -> (r: u64)
        ensures
            r == self.epoch(),
    {
        self.config.frozen_epoch
    }

    /// The first half of a build: takes nodes and edges in.
    pub fn plan(&self, nodes: &[GenerationNode], edges: &[GenerationEdge]) -> (r: Result<
        GenerationPlan,
        GenerationError,
    >)
        ensures
            ({
                let want = planned(records::node_records(nodes@), records::edge_records(edges@), self.decls());
                match r {
                    Ok(x) => want is Ok && x.spells(want->Ok_0) && x.well_formed()
                        && node_pass::labels_numbered(x.schema) && x.schema.total_nodes == nodes@.len(),
                    Err(e) => want == Err::<PlanView, GenerationError>(e),
                }
            }),
    {
        let mut stage: NodeStage = run_node_stage(nodes)?;
        let ghost n = stage.content();
        let edge: EdgeStage = run_edge_stage(&mut stage, edges, self.config.rel_schemas.as_slice())?;
        let ghost e = stages::edge_stage(n, records::edge_records(edges@), self.decls())->Ok_0;
        finish_plan(stage, edge, Ghost(n), Ghost(e))
    }

    /// The second half of a build: puts the store together from the encoded
    /// columns and writes its payload.
    pub fn build(
        &self,
        plan: GenerationPlan,
        encoded: Vec<EncodedColumn>,
    ) -> (r: Result<Vec<u8>, GenerationError>)
        requires
            plan.well_formed(),
            encoded@.len() == plan.cells@.len(),
        ensures
            is_bounded_build(
                plan.content(),
                codecs_of(encoded@),
                blocks_of(encoded@),
                payload_result(r),
            ),
    {
        let ghost p = plan.content();
        let ghost codecs = codecs_of(encoded@);
        let ghost blocks = blocks_of(encoded@);
        let mut plan: GenerationPlan = plan;
        let store: CompactStore = assemble_store(&mut plan, encoded)?;
        let (presence, nulls) = make_companions(&plan.cells, &plan.geometries, Ghost(p));
        let run: Option<&RunSetLease> = match &plan.membership_runs {
            Some(m) => Some(m),
            None => None,
        };
        assert(built_store(p, codecs, blocks, store@));
        let out = emit_all(&store, &plan.id_index, run, presence.as_slice(), nulls.as_slice());
        assert(payload_result(out) == bounded_emit::built_payload(
            store@,
            p.nodes.index,
            p.nodes.membership,
            presence@,
            nulls@,
        ));
        out
    }
}

} // verus!
