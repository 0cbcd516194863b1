//! A compact store as it is handed to the serializers: tables of encoded
//! columns, adjacency arrays, zone maps and preserved identifiers.

use crate::id_lookup::LookupEntry;
use crate::text::TextMap;
use crate::text;
use crate::value::{ZoneMap, ZoneView};
use crate::zone_maps;
use vstd::prelude::*;

verus! {

/// The logical type of a column.
#[derive(Debug, Clone, Copy, PartialEq, Eq, Structural)]
pub enum ColumnType {
    /// Unsigned integers of some bits.
    UInt {
        /// Bits of a value.
        bits: u32,
    },
    /// Texts.
    DictString,
    /// Truth values.
    Bool,
    /// Vectors of 8-bit integers.
    Int8Vector {
        /// Components of a vector.
        dimensions: u32,
    },
    /// 64-bit floats.
    Float64,
    /// Vectors of 32-bit floats.
    Float32Vector {
        /// Components of a vector.
        dimensions: u32,
    },
    /// Signed 64-bit integers.
    Int64,
}

/// The encodings of a column that carry their own bytes.
#[derive(Debug, Clone, Copy, PartialEq, Eq, Structural)]
pub enum FlatKind {
    /// Bit-packed integers.
    BitPacked,
    /// A bitmap of truth values.
    Bitmap,
    /// Vectors of 8-bit integers.
    Int8Vector,
    /// 64-bit floats.
    Float64,
    /// Vectors of 32-bit floats.
    Float32Vector,
    /// Plain 64-bit integers.
    RawI64,
}

/// The encoding number of a flat column.
pub open spec fn flat_disc(k: FlatKind) -> u16 {
    match k {
        FlatKind::BitPacked => 0,
        FlatKind::Bitmap => 2,
        FlatKind::Int8Vector => 3,
        FlatKind::Float64 => 4,
        FlatKind::Float32Vector => 5,
        FlatKind::RawI64 => 6,
    }
}

/// A column of texts: distinct texts, and for every row the position of its
/// text.
#[derive(Debug)]
pub struct DictColumn {
    /// Distinct texts.
    pub entries: Vec<String>,
    /// Position of each row's text.
    pub codes: Vec<u32>,
}

/// A column in an encoding that carries its own bytes.
#[derive(Debug)]
pub struct FlatColumn {
    /// Encoding.
    pub kind: FlatKind,
    /// Number of rows.
    pub rows: usize,
    /// Encoded bytes, the encoding number first.
    pub body: Vec<u8>,
}

/// An encoded column.
#[derive(Debug)]
pub enum ColumnCodec {
    /// Texts by position.
    Dict(DictColumn),
    /// Any other encoding.
    Flat(FlatColumn),
}

/// What a column holds.
pub enum ColumnView {
    /// Texts by position.
    Dict {
        /// Distinct texts.
        entries: Seq<Seq<char>>,
        /// Position of each row's text.
        codes: Seq<u32>,
    },
    /// Any other encoding.
    Flat {
        /// Encoding.
        kind: FlatKind,
        /// Number of rows.
        rows: usize,
        /// Encoded bytes.
        body: Seq<u8>,
    },
}

impl View for ColumnCodec {
    type V = ColumnView;

    open spec fn view(&self) -> ColumnView {
        match self {
            ColumnCodec::Dict(d) => ColumnView::Dict {
                entries: text::texts(d.entries@),
                codes: d.codes@,
            },
            ColumnCodec::Flat(f) => ColumnView::Flat { kind: f.kind, rows: f.rows, body: f.body@ },
        }
    }
}

/// The encoding number of a column.
pub open spec fn column_disc(c: ColumnView) -> u16 {
    match c {
        ColumnView::Dict { .. } => 1,
        ColumnView::Flat { kind, .. } => flat_disc(kind),
    }
}

/// The number of rows of a column.
pub open spec fn column_rows(c: ColumnView) -> int {
    match c {
        ColumnView::Dict { codes, .. } => codes.len() as int,
        ColumnView::Flat { rows, .. } => rows as int,
    }
}

/// The encoding number of a column.
pub fn codec_disc(codec: &ColumnCodec) -> (r: u16)
    ensures
        r == column_disc(codec@),
{
    match codec {
        ColumnCodec::Dict(_) => 1,
        ColumnCodec::Flat(f) => match f.kind {
            FlatKind::BitPacked => 0,
            FlatKind::Bitmap => 2,
            FlatKind::Int8Vector => 3,
            FlatKind::Float64 => 4,
            FlatKind::Float32Vector => 5,
            FlatKind::RawI64 => 6,
        },
    }
}

/// The value type number of a column: its encoding number.
pub fn value_type_code(codec: &ColumnCodec) -> (r: u16)
    ensures
        r == column_disc(codec@),
{
    codec_disc(codec)
}

impl ColumnCodec {
    /// Number of rows.
    pub fn len(&self) -> (r: usize)
        ensures
            r == column_rows(self@),
    {
        match self {
            ColumnCodec::Dict(d) => d.codes.len(),
            ColumnCodec::Flat(f) => f.rows,
        }
    }
}

/// Adjacency in compressed rows: where each row's targets start, the targets,
/// and a word per target.
#[derive(Debug)]
pub struct CsrAdjacency {
    /// Where the targets of each row start, and where the last ones end.
    pub offsets: Vec<u32>,
    /// Targets, row by row.
    pub targets: Vec<u32>,
    /// A word per target.
    pub edge_data: Option<Vec<u32>>,
}

/// What an adjacency holds.
pub struct CsrView {
    /// Where the targets of each row start, and where the last ones end.
    pub offsets: Seq<u32>,
    /// Targets, row by row.
    pub targets: Seq<u32>,
    /// A word per target.
    pub edge_data: Option<Seq<u32>>,
}

impl View for CsrAdjacency {
    type V = CsrView;

    open spec fn view(&self) -> CsrView {
        CsrView {
            offsets: self.offsets@,
            targets: self.targets@,
            edge_data: match self.edge_data {
                Some(v) => Some(v@),
                None => None,
            },
        }
    }
}

/// The columns of a table with their keys, by ascending key.
pub open spec fn columns_view(m: TextMap<ColumnCodec>) -> Seq<(Seq<char>, ColumnView)> {
    Seq::new(m.key_seq().len(), |i: int| (m.key_seq()[i], m.val_seq()[i]@))
}

/// The zone maps of a table with their columns, by ascending column.
pub open spec fn zone_pairs(m: TextMap<ZoneMap>) -> Seq<(Seq<char>, ZoneView)> {
    Seq::new(m.key_seq().len(), |i: int| (m.key_seq()[i], m.val_seq()[i]@))
}

/// The block zone maps of a table with their columns, by ascending column.
pub open spec fn block_pairs(m: TextMap<Vec<ZoneMap>>) -> Seq<(Seq<char>, Seq<ZoneView>)> {
    Seq::new(m.key_seq().len(), |i: int| (m.key_seq()[i], zone_maps::zone_views(m.val_seq()[i]@)))
}

/// A table of nodes.
#[derive(Debug)]
pub struct NodeTable {
    /// Label of its nodes.
    pub label: String,
    /// Number of rows.
    pub rows: usize,
    /// Columns by key.
    pub columns: TextMap<ColumnCodec>,
    /// Zone maps by column.
    pub zone_maps: TextMap<ZoneMap>,
    /// Zone maps of the blocks of each column.
    pub block_zone_maps: TextMap<Vec<ZoneMap>>,
}

/// What a table of nodes holds.
pub struct NodeTableView {
    /// Label of its nodes.
    pub label: Seq<char>,
    /// Number of rows.
    pub rows: usize,
    /// Columns by ascending key.
    pub columns: Seq<(Seq<char>, ColumnView)>,
    /// Zone maps by ascending column.
    pub zones: Seq<(Seq<char>, ZoneView)>,
    /// Zone maps of the blocks, by ascending column.
    pub blocks: Seq<(Seq<char>, Seq<ZoneView>)>,
}

impl View for NodeTable {
    type V = NodeTableView;

    open spec fn view(&self) -> NodeTableView {
        NodeTableView {
            label: self.label@,
            rows: self.rows,
            columns: columns_view(self.columns),
            zones: zone_pairs(self.zone_maps),
            blocks: block_pairs(self.block_zone_maps),
        }
    }
}

/// A table of relationships.
#[derive(Debug)]
pub struct RelTable {
    /// Type of its edges.
    pub edge_type: String,
    /// Node table of the sources.
    pub src_table_id: u16,
    /// Node table of the destinations.
    pub dst_table_id: u16,
    /// Edges by source.
    pub fwd: CsrAdjacency,
    /// Edges by destination.
    pub bwd: Option<CsrAdjacency>,
    /// Columns by key.
    pub properties: TextMap<ColumnCodec>,
    /// Zone maps by column.
    pub zone_maps: TextMap<ZoneMap>,
    /// Zone maps of the blocks of each column.
    pub block_zone_maps: TextMap<Vec<ZoneMap>>,
}

/// What a table of relationships holds.
pub struct RelTableView {
    /// Type of its edges.
    pub edge_type: Seq<char>,
    /// Node table of the sources.
    pub src: u16,
    /// Node table of the destinations.
    pub dst: u16,
    /// Edges by source.
    pub fwd: CsrView,
    /// Edges by destination.
    pub bwd: Option<CsrView>,
    /// Columns by ascending key.
    pub columns: Seq<(Seq<char>, ColumnView)>,
    /// Zone maps by ascending column.
    pub zones: Seq<(Seq<char>, ZoneView)>,
    /// Zone maps of the blocks, by ascending column.
    pub blocks: Seq<(Seq<char>, Seq<ZoneView>)>,
}

/// An optional adjacency as a value.
pub open spec fn optional_csr(c: Option<CsrAdjacency>) -> Option<CsrView> {
    match c {
        Some(x) => Some(x@),
        None => None,
    }
}

impl View for RelTable {
    type V = RelTableView;

    open spec fn view(&self) -> RelTableView {
        RelTableView {
            edge_type: self.edge_type@,
            src: self.src_table_id,
            dst: self.dst_table_id,
            fwd: self.fwd@,
            bwd: optional_csr(self.bwd),
            columns: columns_view(self.properties),
            zones: zone_pairs(self.zone_maps),
            blocks: block_pairs(self.block_zone_maps),
        }
    }
}

/// Identifiers that a store keeps from the graph it was built from.
#[derive(Debug)]
pub struct PreservedIds {
    /// Node identifier, table and row, in no particular order.
    pub nodes: Vec<LookupEntry>,
    /// Edge identifier, table and position, in no particular order.
    pub edges: Vec<LookupEntry>,
    /// Node identifiers by table and row.
    pub node_ids: Vec<Vec<u64>>,
    /// Edge identifiers by table and position.
    pub edge_ids: Vec<Vec<u64>>,
}

/// The identifiers that a store keeps, as values.
pub struct IdsView {
    /// Node identifier, table and row.
    pub nodes: Seq<LookupEntry>,
    /// Edge identifier, table and position.
    pub edges: Seq<LookupEntry>,
    /// Node identifiers by table and row.
    pub node_ids: Seq<Seq<u64>>,
    /// Edge identifiers by table and position.
    pub edge_ids: Seq<Seq<u64>>,
}

/// The rows of a row of rows.
pub open spec fn id_rows(v: Seq<Vec<u64>>) -> Seq<Seq<u64>> {
    Seq::new(v.len(), |i: int| v[i]@)
}

impl View for PreservedIds {
    type V = IdsView;

    open spec fn view(&self) -> IdsView {
        IdsView {
            nodes: self.nodes@,
            edges: self.edges@,
            node_ids: id_rows(self.node_ids@),
            edge_ids: id_rows(self.edge_ids@),
        }
    }
}

/// A store built on the heap.
#[derive(Debug)]
pub struct CompactStore {
    /// Node tables.
    pub node_tables: Vec<NodeTable>,
    /// Relationship tables.
    pub rel_tables: Vec<RelTable>,
    /// Preserved identifiers, if the store keeps them.
    pub ids: Option<PreservedIds>,
}

/// What a store holds.
pub struct StoreView {
    /// Node tables.
    pub nodes: Seq<NodeTableView>,
    /// Relationship tables.
    pub rels: Seq<RelTableView>,
    /// Preserved identifiers, if the store keeps them.
    pub ids: Option<IdsView>,
}

/// Node tables as values.
pub open spec fn node_views(v: Seq<NodeTable>) -> Seq<NodeTableView> {
    Seq::new(v.len(), |i: int| v[i]@)
}

/// Relationship tables as values.
pub open spec fn rel_views(v: Seq<RelTable>) -> Seq<RelTableView> {
    Seq::new(v.len(), |i: int| v[i]@)
}

impl View for CompactStore {
    type V = StoreView;

    open spec fn view(&self) -> StoreView {
        StoreView {
            nodes: node_views(self.node_tables@),
            rels: rel_views(self.rel_tables@),
            ids: match self.ids {
                Some(x) => Some(x@),
                None => None,
            },
        }
    }
}

impl CompactStore {
    /// True when the store keeps the identifiers of the graph it was built
    /// from.
    pub fn preserves_ids(&self) -> (r: bool)
        ensures
            r == (self@.ids is Some),
    {
        self.ids.is_some()
    }
}

} // verus!
