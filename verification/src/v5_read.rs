//! Opening a payload of mapped segments.
//!
//! Adjacency, dictionaries, identifier lookups and column bodies stay views
//! over the payload; only names, keys and zone maps are copied out of it.

use crate::accounting::{CompactMemoryAccounting, SCHEMA_OWNER_BUDGET_BYTES};
use crate::accounting;
use crate::code_index::DictionaryCodeIndex;
use crate::code_index;
use crate::directory::{HEADER_LEN, REQUIRES_COLUMN_NULL, REQUIRES_COLUMN_PRESENCE, REQUIRES_LABEL_MEMBERSHIP, SegmentDirectory, SegmentKind, parse_segment_directory, slice_segment_checked};
use crate::directory;
use crate::error::FormatError;
use crate::id_lookup::{LookupEntry, MappedEdgeIdLookup, MappedNodeIdLookup, MappedOriginalIds};
use crate::id_lookup;
use crate::intern::sort_texts;
use crate::intern;
use crate::label_membership::{LabelMembership, LabelMembershipView};
use crate::label_membership;
use crate::outside::{bytes_as_slice, bytes_slice, crc32};
use crate::outside;
use crate::payload::require_companion;
use crate::payload;
use crate::presence::{RowBitmapRecord, RowBitmapView};
use crate::presence;
use crate::string_dict::MappedStringDictionary;
use crate::string_dict;
use crate::text::{TextMap, own};
use crate::text;
use crate::v5_meta::{MetaColumn, MetaColumnView, MetaNodeTable, MetaNodeView, MetaRelTable, MetaRelView, MetaView, Metadata, parse_metadata, read_node_table_record, read_rel_table_record};
use crate::v5_meta;
use crate::value::{ZoneMap, ZoneView, clone_zone_map};
use crate::views::U32View;
use crate::views;
use crate::wire::load_u32;
use crate::wire;
use crate::zone_maps::{empty_maps, parse_block_zone_maps, parse_table_zone_maps};
use crate::zone_maps;
use crate::tables::ColumnType;
use bytes::Bytes;
use vstd::prelude::*;
use vstd::string::*;

verus! {

broadcast use wire::group_wire;

/// The column type of an encoding number.
pub open spec fn type_of_disc(disc: u16) -> ColumnType {
    if disc == 0 || disc == 6 {
        ColumnType::Int64
    } else if disc == 2 {
        ColumnType::Bool
    } else if disc == 4 {
        ColumnType::Float64
    } else {
        ColumnType::DictString
    }
}

/// The column type of an encoding number.
pub fn column_type_from_disc(disc: u16) -> (r: ColumnType)
    ensures
        r == type_of_disc(disc),
{
    match disc {
        0 => ColumnType::Int64,
        6 => ColumnType::Int64,
        1 => ColumnType::DictString,
        2 => ColumnType::Bool,
        4 => ColumnType::Float64,
        _ => ColumnType::DictString,
    }
}

/// The body of a mapped column.
#[derive(Debug)]
pub enum MappedBody {
    /// For every row the code of its text.
    Codes(U32View),
    /// A body in an encoding of its own.
    Encoded(Bytes),
}

/// The body of a mapped column, as a value.
pub enum BodyView {
    /// For every row the code of its text.
    Codes(Seq<u32>),
    /// A body in an encoding of its own.
    Encoded(Seq<u8>),
}

impl View for MappedBody {
    type V = BodyView;

    open spec fn view(&self) -> BodyView {
        match self {
            MappedBody::Codes(v) => BodyView::Codes(v@),
            MappedBody::Encoded(b) => BodyView::Encoded(outside::bytes_content(*b)),
        }
    }
}

/// A mapped column.
#[derive(Debug)]
pub struct MappedColumn {
    /// Key.
    pub key: String,
    /// Type of its values.
    pub column_type: ColumnType,
    /// Body.
    pub body: MappedBody,
}

/// A mapped column, as a value.
pub struct MappedColumnView {
    /// Key.
    pub key: Seq<char>,
    /// Type of its values.
    pub column_type: ColumnType,
    /// Body.
    pub body: BodyView,
}

impl View for MappedColumn {
    type V = MappedColumnView;

    open spec fn view(&self) -> MappedColumnView {
        MappedColumnView { key: self.key@, column_type: self.column_type, body: self.body@ }
    }
}

/// Mapped columns as values.
pub open spec fn mapped_column_views(v: Seq<MappedColumn>) -> Seq<MappedColumnView> {
    Seq::new(v.len(), |i: int| v[i]@)
}

/// The bytes of column `i`.
pub open spec fn body_of_column(blocks: Seq<u8>, bodies: Seq<u8>, i: int) -> Result<
    Seq<u8>,
    FormatError,
> {
    let start = wire::u32_at(blocks, 12 * i) as int;
    let len = wire::u32_at(blocks, 12 * i + 4) as int;
    if 12 * i + 12 > blocks.len() {
        Err(FormatError::BlockIndexTruncated)
    } else if start + len > bodies.len() {
        Err(FormatError::ColumnBodyRange)
    } else {
        Ok(bodies.subrange(start, start + len))
    }
}

/// The bytes of a column.
pub fn column_body_slice(block_index: &Bytes, bodies: &Bytes, col_idx: u64) -> (r: Result<
    Bytes,
    FormatError,
>)
    ensures
        match r {
            Ok(x) => body_of_column(
                outside::bytes_content(*block_index),
                outside::bytes_content(*bodies),
                col_idx as int,
            ) == Ok::<Seq<u8>, FormatError>(outside::bytes_content(x)),
            Err(e) => body_of_column(
                outside::bytes_content(*block_index),
                outside::bytes_content(*bodies),
                col_idx as int,
            ) == Err::<Seq<u8>, FormatError>(e),
        },
{
    let d: &[u8] = bytes_as_slice(block_index);
    assert(d@.len() == d.len());
    if col_idx >= (d.len() / 12) as u64 {
        return Err(FormatError::BlockIndexTruncated);
    }
    let o: usize = 12 * (col_idx as usize);
    let start: u64 = load_u32(d, o) as u64;
    let len: u64 = load_u32(d, o + 4) as u64;
    let all: usize = bytes_as_slice(bodies).len();
    if start + len > all as u64 {
        return Err(FormatError::ColumnBodyRange);
    }
    Ok(bytes_slice(bodies, start as usize, (start + len) as usize))
}

/// What a column body holds.
pub open spec fn body_read(d: Seq<u8>) -> Result<BodyView, FormatError> {
    if d.len() == 0 {
        Err(FormatError::ColumnBodyEmpty)
    } else if d[0] != 1 {
        Ok(BodyView::Encoded(d))
    } else if d.len() < 5 || 5 + 4 * wire::u32_at(d, 1) > d.len() {
        Err(FormatError::ColumnCodesTruncated)
    } else {
        Ok(BodyView::Codes(views::u32s_of(d.subrange(5, 5 + 4 * wire::u32_at(d, 1)))))
    }
}

/// Reads a column body: the rows of a text column, or the bytes of any other.
pub fn read_column_body(body: &Bytes) -> (r: Result<MappedBody, FormatError>)
    ensures
        match r {
            Ok(x) => body_read(outside::bytes_content(*body)) == Ok::<BodyView, FormatError>(x@),
            Err(e) => body_read(outside::bytes_content(*body)) == Err::<BodyView, FormatError>(e),
        },
{
    let d: &[u8] = bytes_as_slice(body);
    assert(d@.len() == d.len());
    if d.len() == 0 {
        return Err(FormatError::ColumnBodyEmpty);
    }
    if d[0] != 1 {
        return Ok(MappedBody::Encoded(body.clone()));
    }
    if d.len() < 5 {
        return Err(FormatError::ColumnCodesTruncated);
    }
    let need: u64 = 4 * load_u32(d, 1) as u64;
    if need > (d.len() - 5) as u64 {
        return Err(FormatError::ColumnCodesTruncated);
    }
    let codes = bytes_slice(body, 5, 5 + need as usize);
    let view = U32View::new(codes)?;
    Ok(MappedBody::Codes(view))
}

/// The first `n` columns of a table whose columns start at `start`.
pub open spec fn columns_read(
    metas: Seq<MetaColumnView>,
    blocks: Seq<u8>,
    bodies: Seq<u8>,
    start: int,
    n: int,
) -> Result<Seq<MappedColumnView>, FormatError>
    decreases n,
{
    if n <= 0 {
        Ok(Seq::empty())
    } else {
        match columns_read(metas, blocks, bodies, start, n - 1) {
            Err(e) => Err(e),
            Ok(s) => if n - 1 >= metas.len() {
                Err(FormatError::MetadataColumnMissing)
            } else {
                match body_of_column(blocks, bodies, start + n - 1) {
                    Err(e) => Err(e),
                    Ok(b) => match body_read(b) {
                        Err(e) => Err(e),
                        Ok(body) => Ok(
                            s.push(
                                MappedColumnView {
                                    key: metas[n - 1].key,
                                    column_type: type_of_disc(metas[n - 1].disc),
                                    body,
                                },
                            ),
                        ),
                    },
                }
            },
        }
    }
}

proof fn lemma_columns_read_fail(
    metas: Seq<MetaColumnView>,
    blocks: Seq<u8>,
    bodies: Seq<u8>,
    start: int,
    i: int,
    n: int,
)
    requires
        0 <= i <= n,
        columns_read(metas, blocks, bodies, start, i) is Err,
    ensures
        columns_read(metas, blocks, bodies, start, n) == columns_read(
            metas,
            blocks,
            bodies,
            start,
            i,
        ),
    decreases n,
{
    if i < n {
        lemma_columns_read_fail(metas, blocks, bodies, start, i, n - 1);
    }
}

fn read_column(
    metas: &Vec<MetaColumn>,
    blocks: &Bytes,
    bodies: &Bytes,
    start: u32,
    i: u32,
) -> (r: Result<MappedColumn, FormatError>)
    ensures
        ({
            let mv = v5_meta::meta_column_views(metas@);
            let bl = outside::bytes_content(*blocks);
            let bo = outside::bytes_content(*bodies);
            columns_read(mv, bl, bo, start as int, i as int) matches Ok(s) ==> match r {
                Ok(x) => columns_read(mv, bl, bo, start as int, i + 1) == Ok::<
                    Seq<MappedColumnView>,
                    FormatError,
                >(s.push(x@)),
                Err(e) => columns_read(mv, bl, bo, start as int, i + 1) == Err::<
                    Seq<MappedColumnView>,
                    FormatError,
                >(e),
            }
        }),
{
    if (i as u64) >= metas.len() as u64 {
        return Err(FormatError::MetadataColumnMissing);
    }
    let meta: &MetaColumn = &metas[i as usize];
    assert(meta@ == v5_meta::meta_column_views(metas@)[i as int]);
    let bytes = column_body_slice(blocks, bodies, start as u64 + i as u64)?;
    let body = read_column_body(&bytes)?;
    Ok(
        MappedColumn {
            key: own(meta.key.as_str()),
            column_type: column_type_from_disc(meta.disc),
            body,
        },
    )
}

fn read_columns(
    metas: &Vec<MetaColumn>,
    blocks: &Bytes,
    bodies: &Bytes,
    start: u32,
    n: u32,
) -> (r: Result<Vec<MappedColumn>, FormatError>)
    ensures
        ({
            let spec_r = columns_read(
                v5_meta::meta_column_views(metas@),
                outside::bytes_content(*blocks),
                outside::bytes_content(*bodies),
                start as int,
                n as int,
            );
            match r {
                Ok(x) => spec_r == Ok::<Seq<MappedColumnView>, FormatError>(
                    mapped_column_views(x@),
                ),
                Err(e) => spec_r == Err::<Seq<MappedColumnView>, FormatError>(e),
            }
        }),
{
    let ghost mv = v5_meta::meta_column_views(metas@);
    let ghost bl = outside::bytes_content(*blocks);
    let ghost bo = outside::bytes_content(*bodies);
    let mut out: Vec<MappedColumn> = Vec::new();
    let mut i: u32 = 0;
    assert(mapped_column_views(out@) =~= Seq::empty());
    while i < n
        invariant
            i <= n,
            mv == v5_meta::meta_column_views(metas@),
            bl == outside::bytes_content(*blocks),
            bo == outside::bytes_content(*bodies),
            columns_read(mv, bl, bo, start as int, i as int) == Ok::<
                Seq<MappedColumnView>,
                FormatError,
            >(mapped_column_views(out@)),
        decreases n - i,
    {
        match read_column(metas, blocks, bodies, start, i) {
            Ok(c) => {
                let ghost before = mapped_column_views(out@);
                let ghost cv = c@;
                out.push(c);
                assert(mapped_column_views(out@) =~= before.push(cv));
            },
            Err(e) => {
                proof {
                    lemma_columns_read_fail(mv, bl, bo, start as int, i + 1, n as int);
                }
                return Err(e);
            },
        }
        i = i + 1;
    }
    Ok(out)
}

/// A mapped node table.
#[derive(Debug)]
pub struct MappedNodeTable {
    /// Label.
    pub label: String,
    /// Number of rows.
    pub row_count: usize,
    /// Columns.
    pub columns: Vec<MappedColumn>,
    /// Zone maps by column.
    pub zone_maps: TextMap<ZoneMap>,
    /// Zone maps of the blocks of each column.
    pub block_zone_maps: TextMap<Vec<ZoneMap>>,
}

/// A mapped node table, as a value.
pub struct MappedNodeView {
    /// Label.
    pub label: Seq<char>,
    /// Number of rows.
    pub rows: usize,
    /// Columns.
    pub columns: Seq<MappedColumnView>,
    /// Zone maps by column.
    pub zones: Map<Seq<char>, ZoneView>,
    /// Zone maps of the blocks of each column.
    pub blocks: Map<Seq<char>, Seq<ZoneView>>,
}

impl View for MappedNodeTable {
    type V = MappedNodeView;

    open spec fn view(&self) -> MappedNodeView {
        MappedNodeView {
            label: self.label@,
            rows: self.row_count,
            columns: mapped_column_views(self.columns@),
            zones: zone_maps::zones_view(self.zone_maps@),
            blocks: zone_maps::blocks_view(self.block_zone_maps@),
        }
    }
}

/// Mapped node tables as values.
pub open spec fn mapped_node_views(v: Seq<MappedNodeTable>) -> Seq<MappedNodeView> {
    Seq::new(v.len(), |i: int| v[i]@)
}

/// A mapped adjacency.
#[derive(Debug)]
pub struct MappedCsr {
    /// Where the targets of each row start, and where the last ones end.
    pub offsets: U32View,
    /// Targets, row by row.
    pub targets: U32View,
    /// A word per target.
    pub edge_data: Option<U32View>,
}

/// A mapped adjacency, as a value.
pub struct MappedCsrView {
    /// Where the targets of each row start, and where the last ones end.
    pub offsets: Seq<u32>,
    /// Targets, row by row.
    pub targets: Seq<u32>,
    /// A word per target.
    pub edge_data: Option<Seq<u32>>,
}

impl View for MappedCsr {
    type V = MappedCsrView;

    open spec fn view(&self) -> MappedCsrView {
        MappedCsrView {
            offsets: self.offsets@,
            targets: self.targets@,
            edge_data: match self.edge_data {
                Some(v) => Some(v@),
                None => None,
            },
        }
    }
}

/// An optional adjacency as a value.
pub open spec fn optional_mapped_csr(c: Option<MappedCsr>) -> Option<MappedCsrView> {
    match c {
        Some(x) => Some(x@),
        None => None,
    }
}

/// A mapped relationship table.
#[derive(Debug)]
pub struct MappedRelTable {
    /// Edge type.
    pub edge_type: String,
    /// Node table of the sources.
    pub src_table_id: u16,
    /// Node table of the destinations.
    pub dst_table_id: u16,
    /// Edges by source.
    pub fwd: MappedCsr,
    /// Edges by destination.
    pub bwd: Option<MappedCsr>,
    /// Columns.
    pub columns: Vec<MappedColumn>,
    /// Zone maps by column.
    pub zone_maps: TextMap<ZoneMap>,
    /// Zone maps of the blocks of each column.
    pub block_zone_maps: TextMap<Vec<ZoneMap>>,
}

/// A mapped relationship table, as a value.
pub struct MappedRelView {
    /// Edge type.
    pub edge_type: Seq<char>,
    /// Node table of the sources.
    pub src: u16,
    /// Node table of the destinations.
    pub dst: u16,
    /// Edges by source.
    pub fwd: MappedCsrView,
    /// Edges by destination.
    pub bwd: Option<MappedCsrView>,
    /// Columns.
    pub columns: Seq<MappedColumnView>,
    /// Zone maps by column.
    pub zones: Map<Seq<char>, ZoneView>,
    /// Zone maps of the blocks of each column.
    pub blocks: Map<Seq<char>, Seq<ZoneView>>,
}

impl View for MappedRelTable {
    type V = MappedRelView;

    open spec fn view(&self) -> MappedRelView {
        MappedRelView {
            edge_type: self.edge_type@,
            src: self.src_table_id,
            dst: self.dst_table_id,
            fwd: self.fwd@,
            bwd: optional_mapped_csr(self.bwd),
            columns: mapped_column_views(self.columns@),
            zones: zone_maps::zones_view(self.zone_maps@),
            blocks: zone_maps::blocks_view(self.block_zone_maps@),
        }
    }
}

/// Mapped relationship tables as values.
pub open spec fn mapped_rel_views(v: Seq<MappedRelTable>) -> Seq<MappedRelView> {
    Seq::new(v.len(), |i: int| v[i]@)
}

/// The zone maps of all tables, as values.
pub struct ZonesView {
    /// Table zone maps of the node tables.
    pub nodes: Seq<Map<Seq<char>, ZoneView>>,
    /// Table zone maps of the relationship tables.
    pub rels: Seq<Map<Seq<char>, ZoneView>>,
    /// Block zone maps of the node tables.
    pub node_blocks: Seq<Map<Seq<char>, Seq<ZoneView>>>,
    /// Block zone maps of the relationship tables.
    pub rel_blocks: Seq<Map<Seq<char>, Seq<ZoneView>>>,
}

/// The segments from which tables are read, as byte strings.
pub struct PartsView {
    /// Node table directory.
    pub node_dir: Seq<u8>,
    /// Relationship table directory.
    pub rel_dir: Seq<u8>,
    /// Block index.
    pub blocks: Seq<u8>,
    /// Column bodies.
    pub bodies: Seq<u8>,
    /// Forward offsets.
    pub fwd_off: Seq<u8>,
    /// Forward targets.
    pub fwd_tgt: Seq<u8>,
    /// Reverse offsets, reverse targets and forward positions, where a
    /// payload has all three.
    pub rev: Option<(Seq<u8>, Seq<u8>, Seq<u8>)>,
}

/// Node table `i`.
pub open spec fn node_read(m: MetaNodeView, p: PartsView, z: ZonesView, i: int) -> Result<
    MappedNodeView,
    FormatError,
> {
    match v5_meta::node_rec_at(p.node_dir, i) {
        Err(e) => Err(e),
        Ok(rec) => if rec.id != i {
            Err(
                FormatError::TableRecordId {
                    kind: SegmentKind::NodeTableDirectory,
                    id: rec.id,
                    index: i as usize,
                },
            )
        } else if rec.row_count != m.rows {
            Err(FormatError::TableRowCount)
        } else {
            match columns_read(
                m.columns,
                p.blocks,
                p.bodies,
                rec.column_start as int,
                rec.column_count as int,
            ) {
                Err(e) => Err(e),
                Ok(columns) => Ok(
                    MappedNodeView {
                        label: m.label,
                        rows: m.rows,
                        columns,
                        zones: z.nodes[i],
                        blocks: z.node_blocks[i],
                    },
                ),
            }
        },
    }
}

/// The first `n` node tables.
pub open spec fn nodes_read(m: Seq<MetaNodeView>, p: PartsView, z: ZonesView, n: int) -> Result<
    Seq<MappedNodeView>,
    FormatError,
>
    decreases n,
{
    if n <= 0 {
        Ok(Seq::empty())
    } else {
        match nodes_read(m, p, z, n - 1) {
            Err(e) => Err(e),
            Ok(s) => match node_read(m[n - 1], p, z, n - 1) {
                Err(e) => Err(e),
                Ok(t) => Ok(s.push(t)),
            },
        }
    }
}

proof fn lemma_nodes_read_fail(m: Seq<MetaNodeView>, p: PartsView, z: ZonesView, i: int, n: int)
    requires
        0 <= i <= n,
        nodes_read(m, p, z, i) is Err,
    ensures
        nodes_read(m, p, z, n) == nodes_read(m, p, z, i),
    decreases n,
{
    if i < n {
        lemma_nodes_read_fail(m, p, z, i, n - 1);
    }
}

/// How far the adjacency segments have been used, in words.
pub struct CursorView {
    /// Forward offsets.
    pub fwd_off: int,
    /// Forward targets.
    pub fwd_tgt: int,
    /// Reverse offsets.
    pub rev_off: int,
    /// Reverse targets, and forward positions.
    pub rev_tgt: int,
}

/// `count` words of a segment from word `start` on.
pub open spec fn words_at(d: Seq<u8>, start: int, count: int) -> Result<Seq<u32>, FormatError> {
    if 4 * (start + count) > d.len() {
        Err(
            FormatError::CsrRange {
                start: start as u64,
                count: count as u64,
                words: (d.len() / 4) as u64,
            },
        )
    } else {
        Ok(views::u32s_of(d.subrange(4 * start, 4 * (start + count))))
    }
}

/// Offsets that ascend to the number of targets.
pub open spec fn csr_shaped(offsets: Seq<u32>, edges: int) -> bool {
    &&& offsets.len() > 0
    &&& forall|i: int, j: int|
        0 <= i <= j < offsets.len() ==> #[trigger] offsets[i] <= #[trigger] offsets[j]
    &&& offsets[offsets.len() - 1] == edges
}

/// An adjacency of `rows` rows and `edges` targets.
pub open spec fn csr_read(
    off: Seq<u8>,
    tgt: Seq<u8>,
    o: int,
    t: int,
    rows: int,
    edges: int,
) -> Result<(Seq<u32>, Seq<u32>), FormatError> {
    match words_at(off, o, rows + 1) {
        Err(e) => Err(e),
        Ok(a) => match words_at(tgt, t, edges) {
            Err(e) => Err(e),
            Ok(b) => if csr_shaped(a, edges) {
                Ok((a, b))
            } else {
                Err(FormatError::CsrOffsets)
            },
        },
    }
}

/// The reverse adjacency of a table.
pub open spec fn reverse_read(
    rev: Option<(Seq<u8>, Seq<u8>, Seq<u8>)>,
    c: CursorView,
    rows: int,
    edges: int,
) -> Result<Option<MappedCsrView>, FormatError> {
    match rev {
        None => Ok(None),
        Some(x) => match csr_read(x.0, x.1, c.rev_off, c.rev_tgt, rows, edges) {
            Err(e) => Err(e),
            Ok(p) => match words_at(x.2, c.rev_tgt, edges) {
                Err(e) => Err(e),
                Ok(w) => Ok(
                    Some(MappedCsrView { offsets: p.0, targets: p.1, edge_data: Some(w) }),
                ),
            },
        },
    }
}

/// The cursors behind a table.
pub open spec fn advanced(
    c: CursorView,
    src_rows: int,
    dst_rows: int,
    edges: int,
    reverse: bool,
) -> CursorView {
    CursorView {
        fwd_off: c.fwd_off + src_rows + 1,
        fwd_tgt: c.fwd_tgt + edges,
        rev_off: if reverse {
            c.rev_off + dst_rows + 1
        } else {
            c.rev_off
        },
        rev_tgt: if reverse {
            c.rev_tgt + edges
        } else {
            c.rev_tgt
        },
    }
}

/// Relationship table `i`, and the cursors behind it.
pub open spec fn rel_read(
    nodes: Seq<MetaNodeView>,
    m: MetaRelView,
    p: PartsView,
    z: ZonesView,
    c: CursorView,
    i: int,
) -> Result<(MappedRelView, CursorView), FormatError> {
    match v5_meta::rel_rec_at(p.rel_dir, i) {
        Err(e) => Err(e),
        Ok(rec) => if rec.id != i {
            Err(
                FormatError::TableRecordId {
                    kind: SegmentKind::RelTableDirectory,
                    id: rec.id,
                    index: i as usize,
                },
            )
        } else if rec.src_tid >= nodes.len() {
            Err(FormatError::SourceTableMissing(rec.src_tid))
        } else if rec.dst_tid >= nodes.len() {
            Err(FormatError::DestinationTableMissing(rec.dst_tid))
        } else {
            let src_rows = nodes[rec.src_tid as int].rows as int;
            let dst_rows = nodes[rec.dst_tid as int].rows as int;
            let edges = rec.edge_count as int;
            match csr_read(p.fwd_off, p.fwd_tgt, c.fwd_off, c.fwd_tgt, src_rows, edges) {
                Err(e) => Err(e),
                Ok(f) => match reverse_read(p.rev, c, dst_rows, edges) {
                    Err(e) => Err(e),
                    Ok(bwd) => match columns_read(
                        m.columns,
                        p.blocks,
                        p.bodies,
                        rec.column_start as int,
                        rec.column_count as int,
                    ) {
                        Err(e) => Err(e),
                        Ok(columns) => Ok(
                            (
                                MappedRelView {
                                    edge_type: m.edge_type,
                                    src: rec.src_tid,
                                    dst: rec.dst_tid,
                                    fwd: MappedCsrView {
                                        offsets: f.0,
                                        targets: f.1,
                                        edge_data: None,
                                    },
                                    bwd,
                                    columns,
                                    zones: z.rels[i],
                                    blocks: z.rel_blocks[i],
                                },
                                advanced(c, src_rows, dst_rows, edges, p.rev is Some),
                            ),
                        ),
                    },
                },
            }
        },
    }
}

/// The first `n` relationship tables, and the cursors behind them.
pub open spec fn rels_read(
    nodes: Seq<MetaNodeView>,
    m: Seq<MetaRelView>,
    p: PartsView,
    z: ZonesView,
    n: int,
) -> Result<(Seq<MappedRelView>, CursorView), FormatError>
    decreases n,
{
    if n <= 0 {
        Ok((Seq::empty(), CursorView { fwd_off: 0, fwd_tgt: 0, rev_off: 0, rev_tgt: 0 }))
    } else {
        match rels_read(nodes, m, p, z, n - 1) {
            Err(e) => Err(e),
            Ok(s) => match rel_read(nodes, m[n - 1], p, z, s.1, n - 1) {
                Err(e) => Err(e),
                Ok(t) => Ok((s.0.push(t.0), t.1)),
            },
        }
    }
}

proof fn lemma_rels_read_fail(
    nodes: Seq<MetaNodeView>,
    m: Seq<MetaRelView>,
    p: PartsView,
    z: ZonesView,
    i: int,
    n: int,
)
    requires
        0 <= i <= n,
        rels_read(nodes, m, p, z, i) is Err,
    ensures
        rels_read(nodes, m, p, z, n) == rels_read(nodes, m, p, z, i),
    decreases n,
{
    if i < n {
        lemma_rels_read_fail(nodes, m, p, z, i, n - 1);
    }
}

/// A segment of a payload with a sound directory.
pub open spec fn segment_of(d: Seq<u8>, kind: SegmentKind) -> Result<Seq<u8>, FormatError> {
    match directory::find_kind(directory::entries_of(d), kind) {
        None => Err(FormatError::MissingSegment(kind)),
        Some(e) => match directory::slice_fault(d, e) {
            Some(f) => Err(f),
            None => Ok(d.subrange(e.offset as int, e.offset + e.length)),
        },
    }
}

/// A segment of a payload with a sound directory, where it has it.
pub open spec fn optional_segment(d: Seq<u8>, kind: SegmentKind) -> Result<
    Option<Seq<u8>>,
    FormatError,
> {
    match directory::find_kind(directory::entries_of(d), kind) {
        None => Ok(None),
        Some(e) => match directory::slice_fault(d, e) {
            Some(f) => Err(f),
            None => Ok(Some(d.subrange(e.offset as int, e.offset + e.length))),
        },
    }
}

/// The content of an optional buffer.
pub open spec fn optional_content(b: Option<Bytes>) -> Option<Seq<u8>> {
    match b {
        Some(x) => Some(outside::bytes_content(x)),
        None => None,
    }
}

fn fetch(data: &Bytes, dir: &SegmentDirectory, kind: SegmentKind) -> (r: Result<
    Bytes,
    FormatError,
>)
    requires
        dir.entries@ == directory::entries_of(outside::bytes_content(*data)),
    ensures
        match r {
            Ok(x) => segment_of(outside::bytes_content(*data), kind) == Ok::<Seq<u8>, FormatError>(
                outside::bytes_content(x),
            ),
            Err(e) => segment_of(outside::bytes_content(*data), kind) == Err::<Seq<u8>, FormatError>(e),
        },
{
    let entry = dir.require(kind)?;
    slice_segment_checked(data, entry)
}

fn fetch_optional(data: &Bytes, dir: &SegmentDirectory, kind: SegmentKind) -> (r: Result<
    Option<Bytes>,
    FormatError,
>)
    requires
        dir.entries@ == directory::entries_of(outside::bytes_content(*data)),
    ensures
        match r {
            Ok(x) => optional_segment(outside::bytes_content(*data), kind) == Ok::<
                Option<Seq<u8>>,
                FormatError,
            >(optional_content(x)),
            Err(e) => optional_segment(outside::bytes_content(*data), kind) == Err::<
                Option<Seq<u8>>,
                FormatError,
            >(e),
        },
{
    match dir.get(kind) {
        Some(entry) => {
            let b = slice_segment_checked(data, entry)?;
            Ok(Some(b))
        },
        None => Ok(None),
    }
}

/// The bytes of `count` words from word `start_elem` on.
pub fn slice_u32_range(bytes: &Bytes, start_elem: u64, count: u64) -> (r: Result<
    Bytes,
    FormatError,
>)
    ensures
        r is Ok <==> 4 * (start_elem + count) <= outside::bytes_content(*bytes).len(),
        r matches Ok(x) ==> outside::bytes_content(x) == outside::bytes_content(*bytes).subrange(
            4 * start_elem as int,
            4 * (start_elem + count),
        ),
        r matches Err(e) ==> e == (FormatError::CsrRange {
            start: start_elem,
            count,
            words: (outside::bytes_content(*bytes).len() / 4) as u64,
        }),
{
    let n: usize = bytes_as_slice(bytes).len();
    let total: u64 = (n / 4) as u64;
    if start_elem > total || count > total - start_elem {
        return Err(FormatError::CsrRange { start: start_elem, count, words: total });
    }
    let start: usize = start_elem as usize;
    let end: usize = start + count as usize;
    Ok(bytes_slice(bytes, 4 * start, 4 * end))
}

fn words(bytes: &Bytes, start: u64, count: u64) -> (r: Result<U32View, FormatError>)
    ensures
        match r {
            Ok(x) => words_at(outside::bytes_content(*bytes), start as int, count as int) == Ok::<
                Seq<u32>,
                FormatError,
            >(x@) && 4 * (start + count) <= outside::bytes_content(*bytes).len() && x@.len() == count,
            Err(e) => words_at(outside::bytes_content(*bytes), start as int, count as int) == Err::<
                Seq<u32>,
                FormatError,
            >(e),
        },
{
    let part = slice_u32_range(bytes, start, count)?;
    assert(outside::bytes_content(part).len() == 4 * count);
    U32View::new(part)
}

/// The segments from which tables are read.
struct Parts {
    node_dir: Bytes,
    rel_dir: Bytes,
    blocks: Bytes,
    bodies: Bytes,
    fwd_off: Bytes,
    fwd_tgt: Bytes,
    rev: Option<(Bytes, Bytes, Bytes)>,
}

impl View for Parts {
    type V = PartsView;

    closed spec fn view(&self) -> PartsView {
        PartsView {
            node_dir: outside::bytes_content(self.node_dir),
            rel_dir: outside::bytes_content(self.rel_dir),
            blocks: outside::bytes_content(self.blocks),
            bodies: outside::bytes_content(self.bodies),
            fwd_off: outside::bytes_content(self.fwd_off),
            fwd_tgt: outside::bytes_content(self.fwd_tgt),
            rev: match self.rev {
                Some(x) => Some((outside::bytes_content(x.0), outside::bytes_content(x.1), outside::bytes_content(x.2))),
                None => None,
            },
        }
    }
}

/// The zone maps of all tables.
struct Zones {
    nodes: Vec<TextMap<ZoneMap>>,
    rels: Vec<TextMap<ZoneMap>>,
    node_blocks: Vec<TextMap<Vec<ZoneMap>>>,
    rel_blocks: Vec<TextMap<Vec<ZoneMap>>>,
}

/// The zone maps of a row of tables.
pub open spec fn zones_views(v: Seq<TextMap<ZoneMap>>) -> Seq<Map<Seq<char>, ZoneView>> {
    Seq::new(v.len(), |i: int| zone_maps::zones_view(v[i]@))
}

/// The block zone maps of a row of tables.
pub open spec fn blocks_views(v: Seq<TextMap<Vec<ZoneMap>>>) -> Seq<
    Map<Seq<char>, Seq<ZoneView>>,
> {
    Seq::new(v.len(), |i: int| zone_maps::blocks_view(v[i]@))
}

impl View for Zones {
    type V = ZonesView;

    closed spec fn view(&self) -> ZonesView {
        ZonesView {
            nodes: zones_views(self.nodes@),
            rels: zones_views(self.rels@),
            node_blocks: blocks_views(self.node_blocks@),
            rel_blocks: blocks_views(self.rel_blocks@),
        }
    }
}

/// Empty maps.
pub open spec fn no_maps<V>(n: nat) -> Seq<Map<Seq<char>, V>> {
    Seq::new(n, |i: int| Map::empty())
}

/// The table zone maps of a payload; none where it has no segment for them.
pub open spec fn table_zones_read(
    d: Seq<u8>,
    dict: Seq<Seq<char>>,
    nodes: nat,
    rels: nat,
) -> Result<(Seq<Map<Seq<char>, ZoneView>>, Seq<Map<Seq<char>, ZoneView>>), FormatError> {
    match optional_segment(d, SegmentKind::TableZoneMaps) {
        Err(e) => Err(e),
        Ok(None) => Ok((no_maps(nodes), no_maps(rels))),
        Ok(Some(b)) => match zone_maps::table_zones_fault(b, dict, nodes, rels) {
            Some(e) => Err(e),
            None => {
                let rows = zone_maps::zone_rows_of(b, dict);
                Ok(
                    (
                        Seq::new(
                            nodes,
                            |i: int| zone_maps::zones_for(rows, rows.len() as int, zone_maps::node_zone_id(i)),
                        ),
                        Seq::new(rels, |i: int| zone_maps::zones_for(rows, rows.len() as int, zone_maps::rel_zone_id(i))),
                    ),
                )
            },
        },
    }
}

/// The block zone maps of a payload; none where it has no segment for them.
pub open spec fn block_zones_read(
    d: Seq<u8>,
    dict: Seq<Seq<char>>,
    nodes: nat,
    rels: nat,
) -> Result<
    (Seq<Map<Seq<char>, Seq<ZoneView>>>, Seq<Map<Seq<char>, Seq<ZoneView>>>),
    FormatError,
> {
    match optional_segment(d, SegmentKind::BlockZoneMaps) {
        Err(e) => Err(e),
        Ok(None) => Ok((no_maps(nodes), no_maps(rels))),
        Ok(Some(b)) => match zone_maps::block_zones_fault(b, dict, nodes, rels) {
            Some(e) => Err(e),
            None => {
                let rows = zone_maps::zone_rows_of(b, dict);
                Ok(
                    (
                        Seq::new(nodes, |i: int| zone_maps::all_block_zones(zone_maps::node_blocks(rows, nodes)[i])),
                        Seq::new(rels, |i: int| zone_maps::all_block_zones(zone_maps::rel_blocks(rows, rels)[i])),
                    ),
                )
            },
        },
    }
}

/// The zone maps of a payload.
pub open spec fn zones_read(d: Seq<u8>, dict: Seq<Seq<char>>, nodes: nat, rels: nat) -> Result<
    ZonesView,
    FormatError,
> {
    match table_zones_read(d, dict, nodes, rels) {
        Err(e) => Err(e),
        Ok(t) => match block_zones_read(d, dict, nodes, rels) {
            Err(e) => Err(e),
            Ok(b) => Ok(
                ZonesView { nodes: t.0, rels: t.1, node_blocks: b.0, rel_blocks: b.1 },
            ),
        },
    }
}

fn read_table_zones(
    data: &Bytes,
    dir: &SegmentDirectory,
    dict: &MappedStringDictionary,
    nodes: usize,
    rels: usize,
) -> (r: Result<(Vec<TextMap<ZoneMap>>, Vec<TextMap<ZoneMap>>), FormatError>)
    requires
        dir.entries@ == directory::entries_of(outside::bytes_content(*data)),
    ensures
        ({
            let want = table_zones_read(outside::bytes_content(*data), dict@, nodes as nat, rels as nat);
            match r {
                Ok(x) => want == Ok::<
                    (Seq<Map<Seq<char>, ZoneView>>, Seq<Map<Seq<char>, ZoneView>>),
                    FormatError,
                >((zones_views(x.0@), zones_views(x.1@))) && x.0@.len() == nodes && x.1@.len()
                    == rels,
                Err(e) => want == Err::<
                    (Seq<Map<Seq<char>, ZoneView>>, Seq<Map<Seq<char>, ZoneView>>),
                    FormatError,
                >(e),
            }
        }),
{
    match fetch_optional(data, dir, SegmentKind::TableZoneMaps)? {
        None => {
            let a: Vec<TextMap<ZoneMap>> = empty_maps(nodes);
            let b: Vec<TextMap<ZoneMap>> = empty_maps(rels);
            proof {
                assert forall|i: int| 0 <= i < a@.len() implies #[trigger] zones_views(a@)[i]
                    == Map::<Seq<char>, ZoneView>::empty() by {
                    assert(zone_maps::zones_view(a@[i]@) =~= Map::empty());
                }
                assert forall|i: int| 0 <= i < b@.len() implies #[trigger] zones_views(b@)[i]
                    == Map::<Seq<char>, ZoneView>::empty() by {
                    assert(zone_maps::zones_view(b@[i]@) =~= Map::empty());
                }
                assert(zones_views(a@) =~= no_maps(nodes as nat));
                assert(zones_views(b@) =~= no_maps(rels as nat));
            }
            Ok((a, b))
        },
        Some(bytes) => {
            let (a, b) = parse_table_zone_maps(bytes_as_slice(&bytes), dict, nodes, rels)?;
            proof {
                let rows = zone_maps::zone_rows_of(outside::bytes_content(bytes), dict@);
                assert(zones_views(a@) =~= Seq::new(
                    nodes as nat,
                    |i: int| zone_maps::zones_for(rows, rows.len() as int, zone_maps::node_zone_id(i)),
                ));
                assert(zones_views(b@) =~= Seq::new(
                    rels as nat,
                    |i: int| zone_maps::zones_for(rows, rows.len() as int, zone_maps::rel_zone_id(i)),
                ));
            }
            Ok((a, b))
        },
    }
}

fn read_block_zones(
    data: &Bytes,
    dir: &SegmentDirectory,
    dict: &MappedStringDictionary,
    nodes: usize,
    rels: usize,
) -> (r: Result<(Vec<TextMap<Vec<ZoneMap>>>, Vec<TextMap<Vec<ZoneMap>>>), FormatError>)
    requires
        dir.entries@ == directory::entries_of(outside::bytes_content(*data)),
    ensures
        ({
            let want = block_zones_read(outside::bytes_content(*data), dict@, nodes as nat, rels as nat);
            match r {
                Ok(x) => want == Ok::<
                    (Seq<Map<Seq<char>, Seq<ZoneView>>>, Seq<Map<Seq<char>, Seq<ZoneView>>>),
                    FormatError,
                >((blocks_views(x.0@), blocks_views(x.1@))) && x.0@.len() == nodes && x.1@.len()
                    == rels,
                Err(e) => want == Err::<
                    (Seq<Map<Seq<char>, Seq<ZoneView>>>, Seq<Map<Seq<char>, Seq<ZoneView>>>),
                    FormatError,
                >(e),
            }
        }),
{
    match fetch_optional(data, dir, SegmentKind::BlockZoneMaps)? {
        None => {
            let a: Vec<TextMap<Vec<ZoneMap>>> = empty_maps(nodes);
            let b: Vec<TextMap<Vec<ZoneMap>>> = empty_maps(rels);
            proof {
                assert forall|i: int| 0 <= i < a@.len() implies #[trigger] blocks_views(a@)[i]
                    == Map::<Seq<char>, Seq<ZoneView>>::empty() by {
                    assert(zone_maps::blocks_view(a@[i]@) =~= Map::empty());
                }
                assert forall|i: int| 0 <= i < b@.len() implies #[trigger] blocks_views(b@)[i]
                    == Map::<Seq<char>, Seq<ZoneView>>::empty() by {
                    assert(zone_maps::blocks_view(b@[i]@) =~= Map::empty());
                }
                assert(blocks_views(a@) =~= no_maps(nodes as nat));
                assert(blocks_views(b@) =~= no_maps(rels as nat));
            }
            Ok((a, b))
        },
        Some(bytes) => {
            let (a, b) = parse_block_zone_maps(bytes_as_slice(&bytes), dict, nodes, rels)?;
            proof {
                let rows = zone_maps::zone_rows_of(outside::bytes_content(bytes), dict@);
                assert(blocks_views(a@) =~= Seq::new(
                    nodes as nat,
                    |i: int| zone_maps::all_block_zones(zone_maps::node_blocks(rows, nodes as nat)[i]),
                ));
                assert(blocks_views(b@) =~= Seq::new(
                    rels as nat,
                    |i: int| zone_maps::all_block_zones(zone_maps::rel_blocks(rows, rels as nat)[i]),
                ));
            }
            Ok((a, b))
        },
    }
}

fn read_zones(
    data: &Bytes,
    dir: &SegmentDirectory,
    dict: &MappedStringDictionary,
    nodes: usize,
    rels: usize,
) -> (r: Result<Zones, FormatError>)
    requires
        dir.entries@ == directory::entries_of(outside::bytes_content(*data)),
    ensures
        ({
            let want = zones_read(outside::bytes_content(*data), dict@, nodes as nat, rels as nat);
            match r {
                Ok(x) => want == Ok::<ZonesView, FormatError>(x@) && x.nodes@.len() == nodes
                    && x.node_blocks@.len() == nodes && x.rels@.len() == rels
                    && x.rel_blocks@.len() == rels,
                Err(e) => want == Err::<ZonesView, FormatError>(e),
            }
        }),
{
    let t = read_table_zones(data, dir, dict, nodes, rels)?;
    let b = read_block_zones(data, dir, dict, nodes, rels)?;
    Ok(Zones { nodes: t.0, rels: t.1, node_blocks: b.0, rel_blocks: b.1 })
}

/// A copy of the zone maps of a table.
fn copy_zones(m: &TextMap<ZoneMap>) -> (r: TextMap<ZoneMap>)
    ensures
        zone_maps::zones_view(r@) == zone_maps::zones_view(m@),
{
    let n: usize = m.len();
    let ghost keys = m.key_seq();
    let ghost vals = m.val_seq();
    let mut out: TextMap<ZoneMap> = TextMap::new();
    let mut i: usize = 0;
    while i < n
        invariant
            i <= n,
            n == keys.len(),
            keys == m.key_seq(),
            vals == m.val_seq(),
            keys.len() == vals.len(),
            text::texts_ascend(keys),
            m@ == text::text_map_of(keys, vals),
            forall|q: Seq<char>|
                #[trigger] out@.dom().contains(q) <==> exists|j: int|
                    0 <= j < i && #[trigger] keys[j] == q,
            forall|q: Seq<char>| #[trigger] out@.dom().contains(q) ==> out@[q]@ == m@[q]@,
        decreases n - i,
    {
        let ghost before = out@;
        out.insert(m.key_at(i), clone_zone_map(m.val_at(i)));
        proof {
            let key = keys[i as int];
            assert(keys.contains(key));
            text::lemma_ascending_distinct(keys, keys.index_of(key), i as int);
            assert forall|q: Seq<char>| #[trigger] out@.dom().contains(q) <==> exists|j: int|
                0 <= j < i + 1 && #[trigger] keys[j] == q by {
                if before.dom().contains(q) {
                    let j = choose|j: int| 0 <= j < i && #[trigger] keys[j] == q;
                    assert(keys[j] == q);
                }
                if q == key {
                    assert(keys[i as int] == q);
                }
            }
        }
        i = i + 1;
    }
    proof {
        assert forall|q: Seq<char>| out@.dom().contains(q) <==> m@.dom().contains(q) by {
            if m@.dom().contains(q) {
                assert(keys[keys.index_of(q)] == q);
            }
            if out@.dom().contains(q) {
                let j = choose|j: int| 0 <= j < i && #[trigger] keys[j] == q;
                assert(keys.contains(q));
            }
        }
        assert(zone_maps::zones_view(out@) =~= zone_maps::zones_view(m@));
    }
    out
}

fn copy_zone_row(v: &Vec<ZoneMap>) -> (r: Vec<ZoneMap>)
    ensures
        zone_maps::zone_views(r@) == zone_maps::zone_views(v@),
{
    let mut out: Vec<ZoneMap> = Vec::new();
    let mut i: usize = 0;
    while i < v.len()
        invariant
            i <= v@.len(),
            out@.len() == i,
            forall|k: int| 0 <= k < i ==> (#[trigger] out@[k])@ == v@[k]@,
        decreases v@.len() - i,
    {
        out.push(clone_zone_map(&v[i]));
        i = i + 1;
    }
    assert(zone_maps::zone_views(out@) =~= zone_maps::zone_views(v@));
    out
}

/// A copy of the block zone maps of a table.
fn copy_blocks(m: &TextMap<Vec<ZoneMap>>) -> (r: TextMap<Vec<ZoneMap>>)
    ensures
        zone_maps::blocks_view(r@) == zone_maps::blocks_view(m@),
{
    let n: usize = m.len();
    let ghost keys = m.key_seq();
    let ghost vals = m.val_seq();
    let mut out: TextMap<Vec<ZoneMap>> = TextMap::new();
    let mut i: usize = 0;
    while i < n
        invariant
            i <= n,
            n == keys.len(),
            keys == m.key_seq(),
            vals == m.val_seq(),
            keys.len() == vals.len(),
            text::texts_ascend(keys),
            m@ == text::text_map_of(keys, vals),
            forall|q: Seq<char>|
                #[trigger] out@.dom().contains(q) <==> exists|j: int|
                    0 <= j < i && #[trigger] keys[j] == q,
            forall|q: Seq<char>|
                #[trigger] out@.dom().contains(q) ==> zone_maps::zone_views(out@[q]@) == zone_maps::zone_views(m@[q]@),
        decreases n - i,
    {
        let ghost before = out@;
        out.insert(m.key_at(i), copy_zone_row(m.val_at(i)));
        proof {
            let key = keys[i as int];
            assert(keys.contains(key));
            text::lemma_ascending_distinct(keys, keys.index_of(key), i as int);
            assert forall|q: Seq<char>| #[trigger] out@.dom().contains(q) <==> exists|j: int|
                0 <= j < i + 1 && #[trigger] keys[j] == q by {
                if before.dom().contains(q) {
                    let j = choose|j: int| 0 <= j < i && #[trigger] keys[j] == q;
                    assert(keys[j] == q);
                }
                if q == key {
                    assert(keys[i as int] == q);
                }
            }
        }
        i = i + 1;
    }
    proof {
        assert forall|q: Seq<char>| out@.dom().contains(q) <==> m@.dom().contains(q) by {
            if m@.dom().contains(q) {
                assert(keys[keys.index_of(q)] == q);
            }
            if out@.dom().contains(q) {
                let j = choose|j: int| 0 <= j < i && #[trigger] keys[j] == q;
                assert(keys.contains(q));
            }
        }
        assert(zone_maps::blocks_view(out@) =~= zone_maps::blocks_view(m@));
    }
    out
}

fn read_node_table(m: &MetaNodeTable, p: &Parts, z: &Zones, i: usize) -> (r: Result<
    MappedNodeTable,
    FormatError,
>)
    requires
        i < z.nodes@.len(),
        i < z.node_blocks@.len(),
    ensures
        match r {
            Ok(x) => node_read(m@, p@, z@, i as int) == Ok::<MappedNodeView, FormatError>(x@),
            Err(e) => node_read(m@, p@, z@, i as int) == Err::<MappedNodeView, FormatError>(e),
        },
{
    let rec = read_node_table_record(bytes_as_slice(&p.node_dir), i)?;
    if rec.id as usize != i {
        return Err(
            FormatError::TableRecordId {
                kind: SegmentKind::NodeTableDirectory,
                id: rec.id,
                index: i,
            },
        );
    }
    if rec.row_count != m.row_count as u64 {
        return Err(FormatError::TableRowCount);
    }
    let columns = read_columns(
        &m.columns,
        &p.blocks,
        &p.bodies,
        rec.column_start,
        rec.column_count,
    )?;
    Ok(
        MappedNodeTable {
            label: own(m.label.as_str()),
            row_count: m.row_count,
            columns,
            zone_maps: copy_zones(&z.nodes[i]),
            block_zone_maps: copy_blocks(&z.node_blocks[i]),
        },
    )
}

fn read_node_tables(m: &Vec<MetaNodeTable>, p: &Parts, z: &Zones) -> (r: Result<
    Vec<MappedNodeTable>,
    FormatError,
>)
    requires
        m@.len() == z.nodes@.len(),
        m@.len() == z.node_blocks@.len(),
    ensures
        ({
            let want = nodes_read(v5_meta::meta_node_views(m@), p@, z@, m@.len() as int);
            match r {
                Ok(x) => want == Ok::<Seq<MappedNodeView>, FormatError>(mapped_node_views(x@)),
                Err(e) => want == Err::<Seq<MappedNodeView>, FormatError>(e),
            }
        }),
{
    let ghost mv = v5_meta::meta_node_views(m@);
    let mut out: Vec<MappedNodeTable> = Vec::new();
    let mut i: usize = 0;
    assert(mapped_node_views(out@) =~= Seq::empty());
    while i < m.len()
        invariant
            i <= m@.len(),
            m@.len() == z.nodes@.len(),
            m@.len() == z.node_blocks@.len(),
            mv == v5_meta::meta_node_views(m@),
            nodes_read(mv, p@, z@, i as int) == Ok::<Seq<MappedNodeView>, FormatError>(
                mapped_node_views(out@),
            ),
        decreases m@.len() - i,
    {
        assert(mv[i as int] == m@[i as int]@);
        match read_node_table(&m[i], p, z, i) {
            Ok(t) => {
                let ghost before = mapped_node_views(out@);
                let ghost tv = t@;
                out.push(t);
                assert(mapped_node_views(out@) =~= before.push(tv));
            },
            Err(e) => {
                proof {
                    lemma_nodes_read_fail(mv, p@, z@, i + 1, mv.len() as int);
                }
                return Err(e);
            },
        }
        i = i + 1;
    }
    Ok(out)
}

/// How far the adjacency segments have been used, in words.
struct Cursors {
    fwd_off: u64,
    fwd_tgt: u64,
    rev_off: u64,
    rev_tgt: u64,
}

impl View for Cursors {
    type V = CursorView;

    closed spec fn view(&self) -> CursorView {
        CursorView {
            fwd_off: self.fwd_off as int,
            fwd_tgt: self.fwd_tgt as int,
            rev_off: self.rev_off as int,
            rev_tgt: self.rev_tgt as int,
        }
    }
}

impl Cursors {
    spec fn within(&self, p: Parts) -> bool {
        &&& 4 * self.fwd_off <= p@.fwd_off.len()
        &&& 4 * self.fwd_tgt <= p@.fwd_tgt.len()
        &&& p.rev matches Some(x) ==> 4 * self.rev_off <= outside::bytes_content(x.0).len() && 4
            * self.rev_tgt <= outside::bytes_content(x.1).len()
    }
}

/// True for offsets that ascend to the number of targets.
fn is_csr_shaped(offsets: &U32View, edges: u64) -> (r: bool)
    ensures
        r == csr_shaped(offsets@, edges as int),
{
    let n: usize = offsets.len();
    if n == 0 {
        return false;
    }
    let mut last: u32 = 0;
    let mut i: usize = 0;
    while i < n
        invariant
            i <= n,
            n == offsets@.len(),
            i > 0 ==> last == offsets@[i - 1],
            forall|a: int, b: int|
                0 <= a <= b < i ==> #[trigger] offsets@[a] <= #[trigger] offsets@[b],
        decreases n - i,
    {
        let next: u32 = match offsets.get(i) {
            Some(v) => v,
            None => return false,
        };
        if i > 0 && next < last {
            assert(offsets@[i - 1] > offsets@[i as int]);
            return false;
        }
        last = next;
        i = i + 1;
    }
    last as u64 == edges
}

fn read_csr(
    off: &Bytes,
    tgt: &Bytes,
    o: u64,
    t: u64,
    rows: u64,
    edges: u64,
) -> (r: Result<(U32View, U32View), FormatError>)
    requires
        rows <= u32::MAX,
    ensures
        ({
            let want = csr_read(
                outside::bytes_content(*off),
                outside::bytes_content(*tgt),
                o as int,
                t as int,
                rows as int,
                edges as int,
            );
            match r {
                Ok(x) => want == Ok::<(Seq<u32>, Seq<u32>), FormatError>((x.0@, x.1@)) && 4 * (o
                    + rows + 1) <= outside::bytes_content(*off).len() && 4 * (t + edges) <= outside::bytes_content(
                    *tgt,
                ).len(),
                Err(e) => want == Err::<(Seq<u32>, Seq<u32>), FormatError>(e),
            }
        }),
{
    let a = words(off, o, rows + 1)?;
    let b = words(tgt, t, edges)?;
    if !is_csr_shaped(&a, edges) {
        return Err(FormatError::CsrOffsets);
    }
    Ok((a, b))
}

fn read_reverse(p: &Parts, c: &Cursors, rows: u64, edges: u64) -> (r: Result<
    Option<MappedCsr>,
    FormatError,
>)
    requires
        rows <= u32::MAX,
    ensures
        ({
            let want = reverse_read(p@.rev, c@, rows as int, edges as int);
            match r {
                Ok(x) => want == Ok::<Option<MappedCsrView>, FormatError>(optional_mapped_csr(x))
                    && (p.rev matches Some(q) ==> 4 * (c.rev_off + rows + 1) <= outside::bytes_content(
                    q.0,
                ).len() && 4 * (c.rev_tgt + edges) <= outside::bytes_content(q.1).len()),
                Err(e) => want == Err::<Option<MappedCsrView>, FormatError>(e),
            }
        }),
{
    match &p.rev {
        None => Ok(None),
        Some(x) => {
            let (offsets, targets) = read_csr(&x.0, &x.1, c.rev_off, c.rev_tgt, rows, edges)?;
            let w = words(&x.2, c.rev_tgt, edges)?;
            Ok(Some(MappedCsr { offsets, targets, edge_data: Some(w) }))
        },
    }
}

fn read_rel_table(
    nodes: &Vec<MetaNodeTable>,
    m: &MetaRelTable,
    p: &Parts,
    z: &Zones,
    c: &Cursors,
    i: usize,
) -> (r: Result<(MappedRelTable, Cursors), FormatError>)
    requires
        i < z.rels@.len(),
        i < z.rel_blocks@.len(),
        c.within(*p),
        v5_meta::rows_are_short(v5_meta::meta_node_views(nodes@)),
    ensures
        ({
            let want = rel_read(v5_meta::meta_node_views(nodes@), m@, p@, z@, c@, i as int);
            match r {
                Ok(x) => want == Ok::<(MappedRelView, CursorView), FormatError>((x.0@, x.1@))
                    && x.1.within(*p),
                Err(e) => want == Err::<(MappedRelView, CursorView), FormatError>(e),
            }
        }),
{
    let ghost nv = v5_meta::meta_node_views(nodes@);
    let rec = read_rel_table_record(bytes_as_slice(&p.rel_dir), i)?;
    if rec.id as usize != i {
        return Err(
            FormatError::TableRecordId {
                kind: SegmentKind::RelTableDirectory,
                id: rec.id,
                index: i,
            },
        );
    }
    if rec.src_tid as usize >= nodes.len() {
        return Err(FormatError::SourceTableMissing(rec.src_tid));
    }
    if rec.dst_tid as usize >= nodes.len() {
        return Err(FormatError::DestinationTableMissing(rec.dst_tid));
    }
    assert(nv[rec.src_tid as int] == nodes@[rec.src_tid as int]@);
    assert(nv[rec.dst_tid as int] == nodes@[rec.dst_tid as int]@);
    assert(nv[rec.src_tid as int].rows <= u32::MAX);
    assert(nv[rec.dst_tid as int].rows <= u32::MAX);
    let src_rows: u64 = nodes[rec.src_tid as usize].row_count as u64;
    let dst_rows: u64 = nodes[rec.dst_tid as usize].row_count as u64;
    let edges: u64 = rec.edge_count;
    let (offsets, targets) = read_csr(
        &p.fwd_off,
        &p.fwd_tgt,
        c.fwd_off,
        c.fwd_tgt,
        src_rows,
        edges,
    )?;
    let bwd = read_reverse(p, c, dst_rows, edges)?;
    let columns = read_columns(
        &m.columns,
        &p.blocks,
        &p.bodies,
        rec.column_start,
        rec.column_count,
    )?;
    let fo_len: usize = bytes_as_slice(&p.fwd_off).len();
    let ft_len: usize = bytes_as_slice(&p.fwd_tgt).len();
    let mut next = Cursors {
        fwd_off: c.fwd_off + src_rows + 1,
        fwd_tgt: c.fwd_tgt + edges,
        rev_off: c.rev_off,
        rev_tgt: c.rev_tgt,
    };
    match &p.rev {
        Some(x) => {
            let ro_len: usize = bytes_as_slice(&x.0).len();
            let rt_len: usize = bytes_as_slice(&x.1).len();
            next.rev_off = c.rev_off + dst_rows + 1;
            next.rev_tgt = c.rev_tgt + edges;
        },
        None => {},
    }
    Ok(
        (
            MappedRelTable {
                edge_type: own(m.edge_type.as_str()),
                src_table_id: rec.src_tid,
                dst_table_id: rec.dst_tid,
                fwd: MappedCsr { offsets, targets, edge_data: None },
                bwd,
                columns,
                zone_maps: copy_zones(&z.rels[i]),
                block_zone_maps: copy_blocks(&z.rel_blocks[i]),
            },
            next,
        ),
    )
}

/// The relationship tables of a payload.
pub open spec fn rel_tables_read(
    nodes: Seq<MetaNodeView>,
    m: Seq<MetaRelView>,
    p: PartsView,
    z: ZonesView,
) -> Result<Seq<MappedRelView>, FormatError> {
    match rels_read(nodes, m, p, z, m.len() as int) {
        Err(e) => Err(e),
        Ok(x) => Ok(x.0),
    }
}

fn read_rel_tables(meta: &Metadata, p: &Parts, z: &Zones) -> (r: Result<
    Vec<MappedRelTable>,
    FormatError,
>)
    requires
        meta.rel_tables@.len() == z.rels@.len(),
        meta.rel_tables@.len() == z.rel_blocks@.len(),
        v5_meta::rows_are_short(meta@.nodes),
    ensures
        ({
            let want = rel_tables_read(meta@.nodes, meta@.rels, p@, z@);
            match r {
                Ok(x) => want == Ok::<Seq<MappedRelView>, FormatError>(mapped_rel_views(x@)),
                Err(e) => want == Err::<Seq<MappedRelView>, FormatError>(e),
            }
        }),
{
    let ghost nv = meta@.nodes;
    let ghost mv = meta@.rels;
    let mut out: Vec<MappedRelTable> = Vec::new();
    let mut c = Cursors { fwd_off: 0, fwd_tgt: 0, rev_off: 0, rev_tgt: 0 };
    let mut i: usize = 0;
    assert(mapped_rel_views(out@) =~= Seq::empty());
    while i < meta.rel_tables.len()
        invariant
            i <= meta.rel_tables@.len(),
            meta.rel_tables@.len() == z.rels@.len(),
            meta.rel_tables@.len() == z.rel_blocks@.len(),
            nv == meta@.nodes,
            mv == meta@.rels,
            v5_meta::rows_are_short(nv),
            c.within(*p),
            rels_read(nv, mv, p@, z@, i as int) == Ok::<
                (Seq<MappedRelView>, CursorView),
                FormatError,
            >((mapped_rel_views(out@), c@)),
        decreases meta.rel_tables@.len() - i,
    {
        assert(mv[i as int] == meta.rel_tables@[i as int]@);
        match read_rel_table(&meta.node_tables, &meta.rel_tables[i], p, z, &c, i) {
            Ok(t) => {
                let ghost before = mapped_rel_views(out@);
                let ghost tv = t.0@;
                out.push(t.0);
                c = t.1;
                assert(mapped_rel_views(out@) =~= before.push(tv));
            },
            Err(e) => {
                proof {
                    lemma_rels_read_fail(nv, mv, p@, z@, i + 1, mv.len() as int);
                }
                return Err(e);
            },
        }
        i = i + 1;
    }
    Ok(out)
}

/// The dictionary, the code index and the metadata of a payload.
pub struct HeadView {
    /// Dictionary.
    pub dict: Seq<Seq<char>>,
    /// Codes by ascending text, where the payload has a code index.
    pub codes: Option<Seq<u32>>,
    /// Metadata.
    pub meta: MetaView,
}

/// The dictionary of a payload.
pub open spec fn dict_read(d: Seq<u8>) -> Result<(Seq<Seq<char>>, nat), FormatError> {
    match segment_of(d, SegmentKind::StringOffsets) {
        Err(e) => Err(e),
        Ok(o) => match segment_of(d, SegmentKind::StringBytes) {
            Err(e) => Err(e),
            Ok(b) => match string_dict::dict_fault(o, b) {
                Some(e) => Err(e),
                None => Ok((string_dict::dict_texts(o, b), b.len())),
            },
        },
    }
}

/// The code index of a payload.
pub open spec fn codes_read(d: Seq<u8>, dict: Seq<Seq<char>>, blob: nat) -> Result<
    Option<Seq<u32>>,
    FormatError,
> {
    match optional_segment(d, SegmentKind::DictionaryCodeIndex) {
        Err(e) => Err(e),
        Ok(None) => Ok(None),
        Ok(Some(c)) => match code_index::code_index_fault(c, dict, blob) {
            Some(e) => Err(e),
            None => Ok(Some(code_index::codes_of(c))),
        },
    }
}

/// The dictionary, the code index and the metadata of a payload.
pub open spec fn head_read(d: Seq<u8>) -> Result<HeadView, FormatError> {
    match dict_read(d) {
        Err(e) => Err(e),
        Ok(x) => match codes_read(d, x.0, x.1) {
            Err(e) => Err(e),
            Ok(codes) => match segment_of(d, SegmentKind::Metadata) {
                Err(e) => Err(e),
                Ok(m) => match v5_meta::metadata_of(m, x.0) {
                    Err(e) => Err(e),
                    Ok(meta) => Ok(HeadView { dict: x.0, codes, meta }),
                },
            },
        },
    }
}

/// An optional code index as a value.
pub open spec fn optional_codes(c: Option<DictionaryCodeIndex>) -> Option<Seq<u32>> {
    match c {
        Some(x) => Some(x@),
        None => None,
    }
}

struct Head {
    dict: MappedStringDictionary,
    codes: Option<DictionaryCodeIndex>,
    meta: Metadata,
}

fn read_codes(data: &Bytes, dir: &SegmentDirectory, dict: &MappedStringDictionary) -> (r: Result<
    Option<DictionaryCodeIndex>,
    FormatError,
>)
    requires
        dir.entries@ == directory::entries_of(outside::bytes_content(*data)),
    ensures
        ({
            let want = codes_read(outside::bytes_content(*data), dict@, dict.raw_bytes().len());
            match r {
                Ok(x) => want == Ok::<Option<Seq<u32>>, FormatError>(optional_codes(x)),
                Err(e) => want == Err::<Option<Seq<u32>>, FormatError>(e),
            }
        }),
{
    match fetch_optional(data, dir, SegmentKind::DictionaryCodeIndex)? {
        Some(b) => {
            let c = DictionaryCodeIndex::new(b, dict)?;
            Ok(Some(c))
        },
        None => Ok(None),
    }
}

fn read_head(data: &Bytes, dir: &SegmentDirectory) -> (r: Result<Head, FormatError>)
    requires
        dir.entries@ == directory::entries_of(outside::bytes_content(*data)),
    ensures
        match r {
            Ok(x) => head_read(outside::bytes_content(*data)) == Ok::<HeadView, FormatError>(
                HeadView { dict: x.dict@, codes: optional_codes(x.codes), meta: x.meta@ },
            ) && v5_meta::rows_are_short(x.meta@.nodes),
            Err(e) => head_read(outside::bytes_content(*data)) == Err::<HeadView, FormatError>(e),
        },
{
    let offsets = fetch(data, dir, SegmentKind::StringOffsets)?;
    let blob = fetch(data, dir, SegmentKind::StringBytes)?;
    let dict = MappedStringDictionary::new(offsets, blob)?;
    let codes = read_codes(data, dir, &dict)?;
    let m = fetch(data, dir, SegmentKind::Metadata)?;
    let meta = parse_metadata(bytes_as_slice(&m), &dict)?;
    Ok(Head { dict, codes, meta })
}

/// The reverse adjacency segments of a payload; all three or none count.
pub open spec fn rev_read(d: Seq<u8>) -> Result<
    Option<(Seq<u8>, Seq<u8>, Seq<u8>)>,
    FormatError,
> {
    match optional_segment(d, SegmentKind::ReverseCsrOffsets) {
        Err(e) => Err(e),
        Ok(a) => match optional_segment(d, SegmentKind::ReverseCsrTargets) {
            Err(e) => Err(e),
            Ok(b) => match optional_segment(d, SegmentKind::ForwardPositions) {
                Err(e) => Err(e),
                Ok(c) => Ok(
                    if a is Some && b is Some && c is Some {
                        Some((a->0, b->0, c->0))
                    } else {
                        None
                    },
                ),
            },
        },
    }
}

/// The segments of a payload from which tables are read.
pub open spec fn parts_read(d: Seq<u8>) -> Result<PartsView, FormatError> {
    match segment_of(d, SegmentKind::NodeTableDirectory) {
        Err(e) => Err(e),
        Ok(node_dir) => match segment_of(d, SegmentKind::RelTableDirectory) {
            Err(e) => Err(e),
            Ok(rel_dir) => match segment_of(d, SegmentKind::ColumnDirectory) {
                Err(e) => Err(e),
                Ok(_) => match segment_of(d, SegmentKind::ColumnBlockIndex) {
                    Err(e) => Err(e),
                    Ok(blocks) => match segment_of(d, SegmentKind::ColumnBodies) {
                        Err(e) => Err(e),
                        Ok(bodies) => csr_parts_read(d, node_dir, rel_dir, blocks, bodies),
                    },
                },
            },
        },
    }
}

/// The adjacency segments of a payload, beside those read before.
pub open spec fn csr_parts_read(
    d: Seq<u8>,
    node_dir: Seq<u8>,
    rel_dir: Seq<u8>,
    blocks: Seq<u8>,
    bodies: Seq<u8>,
) -> Result<PartsView, FormatError> {
    match segment_of(d, SegmentKind::ForwardCsrOffsets) {
        Err(e) => Err(e),
        Ok(fwd_off) => match segment_of(d, SegmentKind::ForwardCsrTargets) {
            Err(e) => Err(e),
            Ok(fwd_tgt) => match rev_read(d) {
                Err(e) => Err(e),
                Ok(rev) => Ok(
                    PartsView { node_dir, rel_dir, blocks, bodies, fwd_off, fwd_tgt, rev },
                ),
            },
        },
    }
}

fn read_parts(data: &Bytes, dir: &SegmentDirectory) -> (r: Result<Parts, FormatError>)
    requires
        dir.entries@ == directory::entries_of(outside::bytes_content(*data)),
    ensures
        match r {
            Ok(x) => parts_read(outside::bytes_content(*data)) == Ok::<PartsView, FormatError>(x@),
            Err(e) => parts_read(outside::bytes_content(*data)) == Err::<PartsView, FormatError>(e),
        },
{
    let node_dir = fetch(data, dir, SegmentKind::NodeTableDirectory)?;
    let rel_dir = fetch(data, dir, SegmentKind::RelTableDirectory)?;
    let column_dir = fetch(data, dir, SegmentKind::ColumnDirectory)?;
    let blocks = fetch(data, dir, SegmentKind::ColumnBlockIndex)?;
    let bodies = fetch(data, dir, SegmentKind::ColumnBodies)?;
    let fwd_off = fetch(data, dir, SegmentKind::ForwardCsrOffsets)?;
    let fwd_tgt = fetch(data, dir, SegmentKind::ForwardCsrTargets)?;
    let rev_off = fetch_optional(data, dir, SegmentKind::ReverseCsrOffsets)?;
    let rev_tgt = fetch_optional(data, dir, SegmentKind::ReverseCsrTargets)?;
    let fwd_pos = fetch_optional(data, dir, SegmentKind::ForwardPositions)?;
    let rev: Option<(Bytes, Bytes, Bytes)> = match (rev_off, rev_tgt, fwd_pos) {
        (Some(a), Some(b), Some(c)) => Some((a, b, c)),
        _ => None,
    };
    Ok(Parts { node_dir, rel_dir, blocks, bodies, fwd_off, fwd_tgt, rev })
}

/// Preserved identifiers over mapped segments.
#[derive(Debug)]
pub struct MappedIds {
    /// Table and row by node identifier.
    pub nodes: MappedNodeIdLookup,
    /// Table and position by edge identifier.
    pub edges: MappedEdgeIdLookup,
    /// Node identifiers by table and row.
    pub node_ids: MappedOriginalIds,
    /// Edge identifiers by table and position.
    pub edge_ids: MappedOriginalIds,
}

/// Preserved identifiers, as values.
pub struct MappedIdsView {
    /// Table and row by node identifier.
    pub nodes: Seq<LookupEntry>,
    /// Table and position by edge identifier.
    pub edges: Seq<LookupEntry>,
    /// Node identifiers by table and row.
    pub node_ids: Seq<u64>,
    /// Edge identifiers by table and position.
    pub edge_ids: Seq<u64>,
}

impl View for MappedIds {
    type V = MappedIdsView;

    open spec fn view(&self) -> MappedIdsView {
        MappedIdsView {
            nodes: self.nodes@,
            edges: self.edges@,
            node_ids: self.node_ids@,
            edge_ids: self.edge_ids@,
        }
    }
}

/// A lookup segment of a payload.
pub open spec fn lookup_read(d: Seq<u8>, kind: SegmentKind) -> Result<
    Seq<LookupEntry>,
    FormatError,
> {
    match segment_of(d, kind) {
        Err(e) => Err(e),
        Ok(b) => match id_lookup::lookup_fault(b, kind) {
            Some(e) => Err(e),
            None => Ok(id_lookup::lookup_entries_of(b)),
        },
    }
}

/// The preserved identifiers of a payload, where its header says it has them.
/// Of a segment of identifiers the whole words count; bytes behind the last
/// whole word are not read.
pub open spec fn ids_read(d: Seq<u8>) -> Result<Option<MappedIdsView>, FormatError> {
    if directory::header_of(d).flags % 2 == 0 {
        Ok(None)
    } else {
        match lookup_read(d, SegmentKind::NodeIdLookup) {
            Err(e) => Err(e),
            Ok(nodes) => match lookup_read(d, SegmentKind::EdgeIdLookup) {
                Err(e) => Err(e),
                Ok(edges) => match segment_of(d, SegmentKind::NodeOriginalIds) {
                    Err(e) => Err(e),
                    Ok(n) => match segment_of(d, SegmentKind::EdgeOriginalIds) {
                        Err(e) => Err(e),
                        Ok(m) => Ok(
                            Some(
                                MappedIdsView {
                                    nodes,
                                    edges,
                                    node_ids: views::u64s_of(n),
                                    edge_ids: views::u64s_of(m),
                                },
                            ),
                        ),
                    },
                },
            },
        }
    }
}

/// Optional identifiers as values.
pub open spec fn optional_ids(x: Option<MappedIds>) -> Option<MappedIdsView> {
    match x {
        Some(v) => Some(v@),
        None => None,
    }
}

/// The identifiers that a segment holds.
fn whole_words(b: Bytes) -> (r: MappedOriginalIds)
    ensures
        r@ == views::u64s_of(outside::bytes_content(b)),
{
    let n: usize = bytes_as_slice(&b).len();
    let end: usize = n - n % 8;
    let words = bytes_slice(&b, 0, end);
    proof {
        let all = outside::bytes_content(b);
        let part = outside::bytes_content(words);
        assert forall|i: int| 0 <= i < all.len() / 8 implies #[trigger] wire::u64_at(part, i * 8)
            == wire::u64_at(all, i * 8) by {
            assert(part.subrange(i * 8, i * 8 + 8) =~= all.subrange(i * 8, i * 8 + 8));
        }
        assert(views::u64s_of(part) =~= views::u64s_of(all));
    }
    match MappedOriginalIds::new(words) {
        Ok(x) => x,
        Err(_) => MappedOriginalIds::empty(),
    }
}

fn read_ids(data: &Bytes, dir: &SegmentDirectory) -> (r: Result<Option<MappedIds>, FormatError>)
    requires
        dir.entries@ == directory::entries_of(outside::bytes_content(*data)),
        dir.header == directory::header_of(outside::bytes_content(*data)),
    ensures
        match r {
            Ok(x) => ids_read(outside::bytes_content(*data)) == Ok::<Option<MappedIdsView>, FormatError>(
                optional_ids(x),
            ),
            Err(e) => ids_read(outside::bytes_content(*data)) == Err::<Option<MappedIdsView>, FormatError>(
                e,
            ),
        },
{
    if !dir.header.preserves_ids() {
        return Ok(None);
    }
    let node_bytes = fetch(data, dir, SegmentKind::NodeIdLookup)?;
    let nodes = MappedNodeIdLookup::new(node_bytes)?;
    let edge_bytes = fetch(data, dir, SegmentKind::EdgeIdLookup)?;
    let edges = MappedEdgeIdLookup::new(edge_bytes)?;
    let n = fetch(data, dir, SegmentKind::NodeOriginalIds)?;
    let m = fetch(data, dir, SegmentKind::EdgeOriginalIds)?;
    let node_ids = whole_words(n);
    let edge_ids = whole_words(m);
    Ok(Some(MappedIds { nodes, edges, node_ids, edge_ids }))
}

/// Label memberships, row presence and row nulls, where a payload has them.
#[derive(Debug)]
pub struct Companions {
    /// Labels of nodes beyond the label of their table.
    pub membership: Option<LabelMembershipView>,
    /// Rows that are present, by column, with the bytes they are read from.
    pub presence: Option<(RowBitmapView, Bytes)>,
    /// Rows that are null, by column, with the bytes they are read from.
    pub null: Option<(RowBitmapView, Bytes)>,
}

/// Companions as values.
pub struct CompanionsView {
    /// Labels of nodes beyond the label of their table.
    pub membership: Option<Seq<LabelMembership>>,
    /// Rows that are present, by column, with the bytes they are read from.
    pub presence: Option<(Seq<RowBitmapRecord>, Seq<u8>)>,
    /// Rows that are null, by column, with the bytes they are read from.
    pub null: Option<(Seq<RowBitmapRecord>, Seq<u8>)>,
}

/// An optional bitmap companion as a value.
pub open spec fn optional_bitmap(x: Option<(RowBitmapView, Bytes)>) -> Option<
    (Seq<RowBitmapRecord>, Seq<u8>),
> {
    match x {
        Some(p) => Some((p.0@, outside::bytes_content(p.1))),
        None => None,
    }
}

impl View for Companions {
    type V = CompanionsView;

    open spec fn view(&self) -> CompanionsView {
        CompanionsView {
            membership: match self.membership {
                Some(x) => Some(x@),
                None => None,
            },
            presence: optional_bitmap(self.presence),
            null: optional_bitmap(self.null),
        }
    }
}

/// A bitmap companion.
pub open spec fn bitmap_read(b: Option<Seq<u8>>, kind: SegmentKind) -> Result<
    Option<(Seq<RowBitmapRecord>, Seq<u8>)>,
    FormatError,
> {
    match b {
        None => Ok(None),
        Some(x) => match presence::bitmap_walk(x, kind, 0, Seq::empty()) {
            Err(e) => Err(e),
            Ok(v) => Ok(Some((v, x))),
        },
    }
}

/// The label memberships.
pub open spec fn membership_read(b: Option<Seq<u8>>) -> Result<
    Option<Seq<LabelMembership>>,
    FormatError,
> {
    match b {
        None => Ok(None),
        Some(x) => match label_membership::membership_fault(x) {
            Some(e) => Err(e),
            None => Ok(Some(label_membership::memberships_of(x))),
        },
    }
}

/// The companions that the layout flags ask for but that are not there.
pub open spec fn companion_fault(flags: u32, m: bool, p: bool, n: bool) -> Option<FormatError> {
    if payload::flag_set(flags, REQUIRES_LABEL_MEMBERSHIP) && !m {
        Some(FormatError::MissingCompanion(SegmentKind::NodeLabelMembership))
    } else if payload::flag_set(flags, REQUIRES_COLUMN_PRESENCE) && !p {
        Some(FormatError::MissingCompanion(SegmentKind::ColumnRowPresence))
    } else if payload::flag_set(flags, REQUIRES_COLUMN_NULL) && !n {
        Some(FormatError::MissingCompanion(SegmentKind::ColumnRowNull))
    } else {
        None
    }
}

/// The companions of their segments.
pub open spec fn companions_of(
    m: Option<Seq<u8>>,
    p: Option<Seq<u8>>,
    n: Option<Seq<u8>>,
) -> Result<CompanionsView, FormatError> {
    match membership_read(m) {
        Err(e) => Err(e),
        Ok(membership) => match bitmap_read(p, SegmentKind::ColumnRowPresence) {
            Err(e) => Err(e),
            Ok(presence) => match bitmap_read(n, SegmentKind::ColumnRowNull) {
                Err(e) => Err(e),
                Ok(null) => Ok(CompanionsView { membership, presence, null }),
            },
        },
    }
}

/// The companions of a payload.
pub open spec fn companions_read(d: Seq<u8>) -> Result<CompanionsView, FormatError> {
    match optional_segment(d, SegmentKind::NodeLabelMembership) {
        Err(e) => Err(e),
        Ok(m) => match optional_segment(d, SegmentKind::ColumnRowPresence) {
            Err(e) => Err(e),
            Ok(p) => match optional_segment(d, SegmentKind::ColumnRowNull) {
                Err(e) => Err(e),
                Ok(n) => match companion_fault(
                    directory::header_of(d).layout_flags,
                    m is Some,
                    p is Some,
                    n is Some,
                ) {
                    Some(e) => Err(e),
                    None => companions_of(m, p, n),
                },
            },
        },
    }
}

fn read_bitmap(b: Option<Bytes>, kind: SegmentKind) -> (r: Result<
    Option<(RowBitmapView, Bytes)>,
    FormatError,
>)
    ensures
        match r {
            Ok(x) => bitmap_read(optional_content(b), kind) == Ok::<
                Option<(Seq<RowBitmapRecord>, Seq<u8>)>,
                FormatError,
            >(optional_bitmap(x)),
            Err(e) => bitmap_read(optional_content(b), kind) == Err::<
                Option<(Seq<RowBitmapRecord>, Seq<u8>)>,
                FormatError,
            >(e),
        },
{
    match b {
        None => Ok(None),
        Some(bytes) => {
            let v = RowBitmapView::parse(&bytes, kind)?;
            Ok(Some((v, bytes)))
        },
    }
}

fn read_membership(b: Option<Bytes>) -> (r: Result<Option<LabelMembershipView>, FormatError>)
    ensures
        match r {
            Ok(x) => membership_read(optional_content(b)) == Ok::<
                Option<Seq<LabelMembership>>,
                FormatError,
            >(
                match x {
                    Some(v) => Some(v@),
                    None => None,
                },
            ),
            Err(e) => membership_read(optional_content(b)) == Err::<
                Option<Seq<LabelMembership>>,
                FormatError,
            >(e),
        },
{
    match b {
        None => Ok(None),
        Some(bytes) => {
            let v = LabelMembershipView::parse(&bytes)?;
            Ok(Some(v))
        },
    }
}

fn read_companions(data: &Bytes, dir: &SegmentDirectory) -> (r: Result<Companions, FormatError>)
    requires
        dir.entries@ == directory::entries_of(outside::bytes_content(*data)),
        dir.header == directory::header_of(outside::bytes_content(*data)),
    ensures
        match r {
            Ok(x) => companions_read(outside::bytes_content(*data)) == Ok::<CompanionsView, FormatError>(
                x@,
            ),
            Err(e) => companions_read(outside::bytes_content(*data)) == Err::<CompanionsView, FormatError>(
                e,
            ),
        },
{
    let m = fetch_optional(data, dir, SegmentKind::NodeLabelMembership)?;
    let p = fetch_optional(data, dir, SegmentKind::ColumnRowPresence)?;
    let n = fetch_optional(data, dir, SegmentKind::ColumnRowNull)?;
    let flags: u32 = dir.header.layout_flags;
    require_companion(
        flags,
        REQUIRES_LABEL_MEMBERSHIP,
        SegmentKind::NodeLabelMembership,
        m.is_some(),
    )?;
    require_companion(
        flags,
        REQUIRES_COLUMN_PRESENCE,
        SegmentKind::ColumnRowPresence,
        p.is_some(),
    )?;
    require_companion(flags, REQUIRES_COLUMN_NULL, SegmentKind::ColumnRowNull, n.is_some())?;
    let membership = read_membership(m)?;
    let presence = read_bitmap(p, SegmentKind::ColumnRowPresence)?;
    let null = read_bitmap(n, SegmentKind::ColumnRowNull)?;
    Ok(Companions { membership, presence, null })
}

/// The heap bytes of the labels of the first `n` tables.
pub open spec fn label_bytes(v: Seq<MappedNodeView>, n: int) -> int
    decreases n,
{
    if n <= 0 {
        0
    } else {
        label_bytes(v, n - 1) + text::utf8(v[n - 1].label).len() + 32 + 256
    }
}

/// The heap bytes of the edge types of the first `n` tables.
pub open spec fn type_bytes(v: Seq<MappedRelView>, n: int) -> int
    decreases n,
{
    if n <= 0 {
        0
    } else {
        type_bytes(v, n - 1) + text::utf8(v[n - 1].edge_type).len() + 32 + 256
    }
}

/// A lower bound of the heap bytes of the schema: names, a fixed share per
/// table, and a fixed share.
pub open spec fn schema_bytes(nodes: Seq<MappedNodeView>, rels: Seq<MappedRelView>) -> int {
    4096 + label_bytes(nodes, nodes.len() as int) + type_bytes(rels, rels.len() as int)
}

/// Estimates the heap bytes of the schema.
pub fn estimate_schema_bytes(nodes: &Vec<MappedNodeTable>, rels: &Vec<MappedRelTable>) -> (r: usize)
    ensures
        r == accounting::saturating(schema_bytes(mapped_node_views(nodes@), mapped_rel_views(rels@))),
{
    let ghost nv = mapped_node_views(nodes@);
    let ghost rv = mapped_rel_views(rels@);
    let mut sum: usize = 4096;
    let mut i: usize = 0;
    while i < nodes.len()
        invariant
            i <= nodes@.len(),
            nv == mapped_node_views(nodes@),
            label_bytes(nv, i as int) >= 0,
            sum == accounting::saturating(4096 + label_bytes(nv, i as int)),
        decreases nodes@.len() - i,
    {
        assert(nv[i as int] == nodes@[i as int]@);
        sum = sum.saturating_add(nodes[i].label.as_str().as_bytes().len()).saturating_add(288);
        i = i + 1;
    }
    let ghost base = label_bytes(nv, nv.len() as int);
    let mut k: usize = 0;
    while k < rels.len()
        invariant
            k <= rels@.len(),
            rv == mapped_rel_views(rels@),
            base >= 0,
            type_bytes(rv, k as int) >= 0,
            sum == accounting::saturating(4096 + base + type_bytes(rv, k as int)),
        decreases rels@.len() - k,
    {
        assert(rv[k as int] == rels@[k as int]@);
        sum = sum.saturating_add(rels[k].edge_type.as_str().as_bytes().len()).saturating_add(288);
        k = k + 1;
    }
    sum
}

/// An opened payload.
#[derive(Debug)]
pub struct MappedStore {
    /// Dictionary.
    pub dict: MappedStringDictionary,
    /// Way from texts to codes, where the payload has one.
    pub code_index: Option<DictionaryCodeIndex>,
    /// Node tables.
    pub node_tables: Vec<MappedNodeTable>,
    /// Relationship tables.
    pub rel_tables: Vec<MappedRelTable>,
    /// All nodes.
    pub total_nodes: u64,
    /// All edges.
    pub total_edges: u64,
    /// Preserved identifiers, where the payload has them.
    pub ids: Option<MappedIds>,
    /// Companions.
    pub companions: Companions,
    /// Memory by category.
    pub accounting: CompactMemoryAccounting,
    /// Columns in payload order, by key: those of the node tables.
    pub node_column_keys: Vec<Vec<String>>,
    /// Columns in payload order, by key: those of the relationship tables.
    pub rel_column_keys: Vec<Vec<String>>,
}

/// An opened payload, as a value.
pub struct MappedStoreView {
    /// Dictionary.
    pub dict: Seq<Seq<char>>,
    /// Codes by ascending text, where the payload has a code index.
    pub codes: Option<Seq<u32>>,
    /// Node tables.
    pub nodes: Seq<MappedNodeView>,
    /// Relationship tables.
    pub rels: Seq<MappedRelView>,
    /// All nodes.
    pub total_nodes: u64,
    /// All edges.
    pub total_edges: u64,
    /// Preserved identifiers, where the payload has them.
    pub ids: Option<MappedIdsView>,
    /// Companions.
    pub companions: CompanionsView,
    /// Memory by category.
    pub accounting: CompactMemoryAccounting,
    /// Columns in payload order, by key: those of the node tables.
    pub node_keys: Seq<Seq<Seq<char>>>,
    /// Columns in payload order, by key: those of the relationship tables.
    pub rel_keys: Seq<Seq<Seq<char>>>,
}

/// Rows of texts.
pub open spec fn text_rows(v: Seq<Vec<String>>) -> Seq<Seq<Seq<char>>> {
    Seq::new(v.len(), |i: int| text::texts(v[i]@))
}

impl View for MappedStore {
    type V = MappedStoreView;

    open spec fn view(&self) -> MappedStoreView {
        MappedStoreView {
            dict: self.dict@,
            codes: optional_codes(self.code_index),
            nodes: mapped_node_views(self.node_tables@),
            rels: mapped_rel_views(self.rel_tables@),
            total_nodes: self.total_nodes,
            total_edges: self.total_edges,
            ids: optional_ids(self.ids),
            companions: self.companions@,
            accounting: self.accounting,
            node_keys: text_rows(self.node_column_keys@),
            rel_keys: text_rows(self.rel_column_keys@),
        }
    }
}

/// The keys of some columns by their bytes.
pub open spec fn sorted_keys(columns: Seq<MetaColumnView>) -> Seq<Seq<char>> {
    intern::by_bytes(Seq::new(columns.len(), |i: int| columns[i].key))
}

/// The column keys of the node tables.
pub open spec fn node_keys_of(m: Seq<MetaNodeView>) -> Seq<Seq<Seq<char>>> {
    Seq::new(m.len(), |i: int| sorted_keys(m[i].columns))
}

/// The column keys of the relationship tables.
pub open spec fn rel_keys_of(m: Seq<MetaRelView>) -> Seq<Seq<Seq<char>>> {
    Seq::new(m.len(), |i: int| sorted_keys(m[i].columns))
}

/// The accounting of an opened payload.
pub open spec fn accounting_of(d: Seq<u8>, schema: int) -> CompactMemoryAccounting {
    CompactMemoryAccounting {
        mapped_payload_index_bytes: d.len() as usize,
        anonymous_owner_schema_bytes: accounting::saturating(schema) as usize,
        anonymous_proportional_structure_bytes: 0,
        read_cache_bytes: 0,
        query_scratch_high_water_bytes: 0,
        schema_owner_budget_bytes: 16777216,
    }
}

/// The tables of a payload.
pub open spec fn tables_read(d: Seq<u8>, h: HeadView) -> Result<
    (Seq<MappedNodeView>, Seq<MappedRelView>),
    FormatError,
> {
    match parts_read(d) {
        Err(e) => Err(e),
        Ok(p) => match zones_read(d, h.dict, h.meta.nodes.len(), h.meta.rels.len()) {
            Err(e) => Err(e),
            Ok(z) => match nodes_read(h.meta.nodes, p, z, h.meta.nodes.len() as int) {
                Err(e) => Err(e),
                Ok(nodes) => match rel_tables_read(h.meta.nodes, h.meta.rels, p, z) {
                    Err(e) => Err(e),
                    Ok(rels) => Ok((nodes, rels)),
                },
            },
        },
    }
}

/// What a payload with a sound directory holds.
pub open spec fn store_read(d: Seq<u8>) -> Result<MappedStoreView, FormatError> {
    match head_read(d) {
        Err(e) => Err(e),
        Ok(h) => match tables_read(d, h) {
            Err(e) => Err(e),
            Ok(t) => match ids_read(d) {
                Err(e) => Err(e),
                Ok(ids) => if schema_bytes(t.0, t.1) > 16777216 {
                    Err(
                        FormatError::SchemaBudget {
                            bytes: accounting::saturating(schema_bytes(t.0, t.1)) as usize,
                            budget: 16777216,
                        },
                    )
                } else {
                    match companions_read(d) {
                        Err(e) => Err(e),
                        Ok(companions) => Ok(
                            MappedStoreView {
                                dict: h.dict,
                                codes: h.codes,
                                nodes: t.0,
                                rels: t.1,
                                total_nodes: h.meta.total_nodes,
                                total_edges: h.meta.total_edges,
                                ids,
                                companions,
                                accounting: accounting_of(d, schema_bytes(t.0, t.1)),
                                node_keys: node_keys_of(h.meta.nodes),
                                rel_keys: rel_keys_of(h.meta.rels),
                            },
                        ),
                    }
                },
            },
        },
    }
}

/// What a payload holds, or the first thing that is wrong with it.
pub open spec fn v5_read(d: Seq<u8>) -> Result<MappedStoreView, FormatError> {
    let n = (d.len() - 4) as int;
    if d.len() < 68 {
        Err(FormatError::PayloadTooShort)
    } else if wire::u32_at(d, n) != outside::crc32_of(d.subrange(0, n)) {
        Err(
            FormatError::PayloadCrc {
                stored: wire::u32_at(d, n),
                computed: outside::crc32_of(d.subrange(0, n)),
            },
        )
    } else if directory::directory_fault(d, n as u64) is Some {
        Err(directory::directory_fault(d, n as u64)->0)
    } else {
        store_read(d)
    }
}

fn keys_in_order(columns: &Vec<MetaColumn>) -> (r: Vec<String>)
    ensures
        text::texts(r@) == sorted_keys(v5_meta::meta_column_views(columns@)),
{
    let ghost cv = v5_meta::meta_column_views(columns@);
    let mut keys: Vec<String> = Vec::new();
    let mut i: usize = 0;
    while i < columns.len()
        invariant
            i <= columns@.len(),
            cv == v5_meta::meta_column_views(columns@),
            keys@.len() == i,
            forall|k: int| 0 <= k < i ==> (#[trigger] keys@[k])@ == cv[k].key,
        decreases columns@.len() - i,
    {
        assert(cv[i as int] == columns@[i as int]@);
        keys.push(own(columns[i].key.as_str()));
        i = i + 1;
    }
    assert(text::texts(keys@) =~= Seq::new(cv.len(), |i: int| cv[i].key));
    sort_texts(&keys)
}

fn node_keys_in_order(m: &Vec<MetaNodeTable>) -> (r: Vec<Vec<String>>)
    ensures
        text_rows(r@) == node_keys_of(v5_meta::meta_node_views(m@)),
{
    let ghost mv = v5_meta::meta_node_views(m@);
    let mut out: Vec<Vec<String>> = Vec::new();
    let mut i: usize = 0;
    while i < m.len()
        invariant
            i <= m@.len(),
            mv == v5_meta::meta_node_views(m@),
            out@.len() == i,
            forall|k: int| 0 <= k < i ==> text::texts((#[trigger] out@[k])@) == sorted_keys(mv[k].columns),
        decreases m@.len() - i,
    {
        assert(mv[i as int] == m@[i as int]@);
        out.push(keys_in_order(&m[i].columns));
        i = i + 1;
    }
    assert(text_rows(out@) =~= node_keys_of(mv));
    out
}

fn rel_keys_in_order(m: &Vec<MetaRelTable>) -> (r: Vec<Vec<String>>)
    ensures
        text_rows(r@) == rel_keys_of(v5_meta::meta_rel_views(m@)),
{
    let ghost mv = v5_meta::meta_rel_views(m@);
    let mut out: Vec<Vec<String>> = Vec::new();
    let mut i: usize = 0;
    while i < m.len()
        invariant
            i <= m@.len(),
            mv == v5_meta::meta_rel_views(m@),
            out@.len() == i,
            forall|k: int| 0 <= k < i ==> text::texts((#[trigger] out@[k])@) == sorted_keys(mv[k].columns),
        decreases m@.len() - i,
    {
        assert(mv[i as int] == m@[i as int]@);
        out.push(keys_in_order(&m[i].columns));
        i = i + 1;
    }
    assert(text_rows(out@) =~= rel_keys_of(mv));
    out
}

fn read_tables(data: &Bytes, dir: &SegmentDirectory, h: &Head) -> (r: Result<
    (Vec<MappedNodeTable>, Vec<MappedRelTable>),
    FormatError,
>)
    requires
        dir.entries@ == directory::entries_of(outside::bytes_content(*data)),
        v5_meta::rows_are_short(h.meta@.nodes),
    ensures
        ({
            let want = tables_read(
                outside::bytes_content(*data),
                HeadView { dict: h.dict@, codes: optional_codes(h.codes), meta: h.meta@ },
            );
            match r {
                Ok(x) => want == Ok::<(Seq<MappedNodeView>, Seq<MappedRelView>), FormatError>(
                    (mapped_node_views(x.0@), mapped_rel_views(x.1@)),
                ),
                Err(e) => want == Err::<(Seq<MappedNodeView>, Seq<MappedRelView>), FormatError>(e),
            }
        }),
{
    let p = read_parts(data, dir)?;
    let z = read_zones(
        data,
        dir,
        &h.dict,
        h.meta.node_tables.len(),
        h.meta.rel_tables.len(),
    )?;
    let nodes = read_node_tables(&h.meta.node_tables, &p, &z)?;
    let rels = read_rel_tables(&h.meta, &p, &z)?;
    Ok((nodes, rels))
}

fn read_store(data: &Bytes, dir: &SegmentDirectory) -> (r: Result<MappedStore, FormatError>)
    requires
        dir.entries@ == directory::entries_of(outside::bytes_content(*data)),
        dir.header == directory::header_of(outside::bytes_content(*data)),
    ensures
        match r {
            Ok(x) => store_read(outside::bytes_content(*data)) == Ok::<MappedStoreView, FormatError>(x@),
            Err(e) => store_read(outside::bytes_content(*data)) == Err::<MappedStoreView, FormatError>(e),
        },
{
    let h = read_head(data, dir)?;
    let (node_tables, rel_tables) = read_tables(data, dir, &h)?;
    let ids = read_ids(data, dir)?;
    let mut accounting = CompactMemoryAccounting::with_defaults();
    accounting.mapped_payload_index_bytes = bytes_as_slice(data).len();
    accounting.anonymous_owner_schema_bytes = estimate_schema_bytes(&node_tables, &rel_tables);
    if accounting.schema_budget_exceeded() {
        return Err(
            FormatError::SchemaBudget {
                bytes: accounting.anonymous_owner_schema_bytes,
                budget: SCHEMA_OWNER_BUDGET_BYTES,
            },
        );
    }
    let companions = read_companions(data, dir)?;
    let node_column_keys = node_keys_in_order(&h.meta.node_tables);
    let rel_column_keys = rel_keys_in_order(&h.meta.rel_tables);
    Ok(
        MappedStore {
            dict: h.dict,
            code_index: h.codes,
            node_tables,
            rel_tables,
            total_nodes: h.meta.total_nodes,
            total_edges: h.meta.total_edges,
            ids,
            companions,
            accounting,
            node_column_keys,
            rel_column_keys,
        },
    )
}

/// Opens a payload: checks its checksum and its directory, and reads its
/// tables, identifiers and companions. A failure exposes nothing.
pub fn deserialize_v5(data_bytes: &Bytes) -> (r: Result<MappedStore, FormatError>)
    ensures
        match r {
            Ok(x) => v5_read(outside::bytes_content(*data_bytes)) == Ok::<MappedStoreView, FormatError>(x@),
            Err(e) => v5_read(outside::bytes_content(*data_bytes)) == Err::<MappedStoreView, FormatError>(
                e,
            ),
        },
{
    let data: &[u8] = bytes_as_slice(data_bytes);
    assert(data@.len() == data.len());
    if data.len() < HEADER_LEN + 4 {
        return Err(FormatError::PayloadTooShort);
    }
    let n: usize = data.len() - 4;
    let stored: u32 = load_u32(data, n);
    let computed: u32 = crc32(vstd::slice::slice_subrange(data, 0, n));
    if stored != computed {
        return Err(FormatError::PayloadCrc { stored, computed });
    }
    let dir = parse_segment_directory(data_bytes, n)?;
    read_store(data_bytes, &dir)
}

} // verus!
