//! The metadata segment and the table directories of a payload.

use crate::directory::SegmentKind;
use crate::error::FormatError;
use crate::string_dict::MappedStringDictionary;
use crate::text::own;
use crate::wire::{load_u16, load_u32, load_u64};
use crate::wire;
use vstd::prelude::*;

verus! {

broadcast use wire::group_wire;

/// A column in the metadata.
#[derive(Debug)]
pub struct MetaColumn {
    /// Key.
    pub key: String,
    /// Encoding number.
    pub disc: u16,
}

/// A column in the metadata, as a value.
pub struct MetaColumnView {
    /// Key.
    pub key: Seq<char>,
    /// Encoding number.
    pub disc: u16,
}

impl View for MetaColumn {
    type V = MetaColumnView;

    open spec fn view(&self) -> MetaColumnView {
        MetaColumnView { key: self.key@, disc: self.disc }
    }
}

/// Columns as values.
pub open spec fn meta_column_views(v: Seq<MetaColumn>) -> Seq<MetaColumnView> {
    Seq::new(v.len(), |i: int| v[i]@)
}

/// A node table in the metadata.
#[derive(Debug)]
pub struct MetaNodeTable {
    /// Label.
    pub label: String,
    /// Number of rows.
    pub row_count: usize,
    /// Columns.
    pub columns: Vec<MetaColumn>,
}

/// A node table in the metadata, as a value.
pub struct MetaNodeView {
    /// Label.
    pub label: Seq<char>,
    /// Number of rows.
    pub rows: usize,
    /// Columns.
    pub columns: Seq<MetaColumnView>,
}

impl View for MetaNodeTable {
    type V = MetaNodeView;

    open spec fn view(&self) -> MetaNodeView {
        MetaNodeView {
            label: self.label@,
            rows: self.row_count,
            columns: meta_column_views(self.columns@),
        }
    }
}

/// A relationship table in the metadata.
#[derive(Debug)]
pub struct MetaRelTable {
    /// Edge type.
    pub edge_type: String,
    /// Columns.
    pub columns: Vec<MetaColumn>,
}

/// A relationship table in the metadata, as a value.
pub struct MetaRelView {
    /// Edge type.
    pub edge_type: Seq<char>,
    /// Columns.
    pub columns: Seq<MetaColumnView>,
}

impl View for MetaRelTable {
    type V = MetaRelView;

    open spec fn view(&self) -> MetaRelView {
        MetaRelView { edge_type: self.edge_type@, columns: meta_column_views(self.columns@) }
    }
}

/// The metadata of a payload.
#[derive(Debug)]
pub struct Metadata {
    /// Node tables.
    pub node_tables: Vec<MetaNodeTable>,
    /// Relationship tables.
    pub rel_tables: Vec<MetaRelTable>,
    /// All nodes.
    pub total_nodes: u64,
    /// All edges.
    pub total_edges: u64,
}

/// The metadata of a payload, as a value.
pub struct MetaView {
    /// Node tables.
    pub nodes: Seq<MetaNodeView>,
    /// Relationship tables.
    pub rels: Seq<MetaRelView>,
    /// All nodes.
    pub total_nodes: u64,
    /// All edges.
    pub total_edges: u64,
}

/// Node tables as values.
pub open spec fn meta_node_views(v: Seq<MetaNodeTable>) -> Seq<MetaNodeView> {
    Seq::new(v.len(), |i: int| v[i]@)
}

/// Relationship tables as values.
pub open spec fn meta_rel_views(v: Seq<MetaRelTable>) -> Seq<MetaRelView> {
    Seq::new(v.len(), |i: int| v[i]@)
}

impl View for Metadata {
    type V = MetaView;

    open spec fn view(&self) -> MetaView {
        MetaView {
            nodes: meta_node_views(self.node_tables@),
            rels: meta_rel_views(self.rel_tables@),
            total_nodes: self.total_nodes,
            total_edges: self.total_edges,
        }
    }
}

/// The text of a code.
pub open spec fn coded(dict: Seq<Seq<char>>, code: u32) -> Result<Seq<char>, FormatError> {
    if code < dict.len() {
        Ok(dict[code as int])
    } else {
        Err(FormatError::MetadataCode(code))
    }
}

/// The column that stands at `pos`.
pub open spec fn column_at(d: Seq<u8>, dict: Seq<Seq<char>>, pos: int) -> Result<
    MetaColumnView,
    FormatError,
> {
    if pos + 4 > d.len() {
        Err(FormatError::MetadataTruncated)
    } else {
        match coded(dict, wire::u32_at(d, pos)) {
            Err(e) => Err(e),
            Ok(key) => if pos + 8 > d.len() {
                Err(FormatError::MetadataTruncated)
            } else {
                Ok(MetaColumnView { key, disc: wire::u16_at(d, pos + 4) })
            },
        }
    }
}

/// The `n` columns from `pos` on; they take 8 bytes each.
pub open spec fn columns_at(d: Seq<u8>, dict: Seq<Seq<char>>, pos: int, n: int) -> Result<
    Seq<MetaColumnView>,
    FormatError,
>
    decreases n,
{
    if n <= 0 {
        Ok(Seq::empty())
    } else {
        match columns_at(d, dict, pos, n - 1) {
            Err(e) => Err(e),
            Ok(s) => match column_at(d, dict, pos + 8 * (n - 1)) {
                Err(e) => Err(e),
                Ok(c) => Ok(s.push(c)),
            },
        }
    }
}

/// The node table that stands at `pos`; it takes 14 bytes and its columns.
pub open spec fn node_at(d: Seq<u8>, dict: Seq<Seq<char>>, pos: int) -> Result<
    MetaNodeView,
    FormatError,
> {
    if pos + 6 > d.len() {
        Err(FormatError::MetadataTruncated)
    } else {
        match coded(dict, wire::u32_at(d, pos + 2)) {
            Err(e) => Err(e),
            Ok(label) => if pos + 14 > d.len() {
                Err(FormatError::MetadataTruncated)
            } else {
                match columns_at(d, dict, pos + 14, wire::u32_at(d, pos + 10) as int) {
                    Err(e) => Err(e),
                    Ok(columns) => Ok(
                        MetaNodeView { label, rows: wire::u32_at(d, pos + 6) as usize, columns },
                    ),
                }
            },
        }
    }
}

/// The `n` node tables from `pos` on, and where they end.
pub open spec fn nodes_at(d: Seq<u8>, dict: Seq<Seq<char>>, pos: int, n: int) -> Result<
    (Seq<MetaNodeView>, int),
    FormatError,
>
    decreases n,
{
    if n <= 0 {
        Ok((Seq::empty(), pos))
    } else {
        match nodes_at(d, dict, pos, n - 1) {
            Err(e) => Err(e),
            Ok(p) => match node_at(d, dict, p.1) {
                Err(e) => Err(e),
                Ok(t) => Ok((p.0.push(t), p.1 + 14 + 8 * t.columns.len())),
            },
        }
    }
}

/// The relationship table that stands at `pos`; it takes 18 bytes and its
/// columns.
pub open spec fn rel_at(d: Seq<u8>, dict: Seq<Seq<char>>, pos: int) -> Result<
    MetaRelView,
    FormatError,
> {
    if pos + 10 > d.len() {
        Err(FormatError::MetadataTruncated)
    } else {
        match coded(dict, wire::u32_at(d, pos + 6)) {
            Err(e) => Err(e),
            Ok(edge_type) => if pos + 18 > d.len() {
                Err(FormatError::MetadataTruncated)
            } else {
                match columns_at(d, dict, pos + 18, wire::u32_at(d, pos + 14) as int) {
                    Err(e) => Err(e),
                    Ok(columns) => Ok(MetaRelView { edge_type, columns }),
                }
            },
        }
    }
}

/// The `n` relationship tables from `pos` on, and where they end.
pub open spec fn rels_at(d: Seq<u8>, dict: Seq<Seq<char>>, pos: int, n: int) -> Result<
    (Seq<MetaRelView>, int),
    FormatError,
>
    decreases n,
{
    if n <= 0 {
        Ok((Seq::empty(), pos))
    } else {
        match rels_at(d, dict, pos, n - 1) {
            Err(e) => Err(e),
            Ok(p) => match rel_at(d, dict, p.1) {
                Err(e) => Err(e),
                Ok(t) => Ok((p.0.push(t), p.1 + 18 + 8 * t.columns.len())),
            },
        }
    }
}

/// The metadata that some bytes spell.
pub open spec fn metadata_of(d: Seq<u8>, dict: Seq<Seq<char>>) -> Result<MetaView, FormatError> {
    if d.len() < 4 {
        Err(FormatError::MetadataTruncated)
    } else {
        match nodes_at(d, dict, 4, wire::u32_at(d, 0) as int) {
            Err(e) => Err(e),
            Ok(p) => if p.1 + 4 > d.len() {
                Err(FormatError::MetadataTruncated)
            } else {
                match rels_at(d, dict, p.1 + 4, wire::u32_at(d, p.1) as int) {
                    Err(e) => Err(e),
                    Ok(q) => if q.1 + 16 > d.len() {
                        Err(FormatError::MetadataTruncated)
                    } else {
                        Ok(
                            MetaView {
                                nodes: p.0,
                                rels: q.0,
                                total_nodes: wire::u64_at(d, q.1),
                                total_edges: wire::u64_at(d, q.1 + 8),
                            },
                        )
                    },
                }
            },
        }
    }
}

fn text_of_code(dict: &MappedStringDictionary, code: u32) -> (r: Result<String, FormatError>)
    ensures
        match r {
            Ok(x) => coded(dict@, code) == Ok::<Seq<char>, FormatError>(x@),
            Err(e) => coded(dict@, code) == Err::<Seq<char>, FormatError>(e),
        },
{
    match dict.get(code) {
        Some(s) => Ok(own(s)),
        None => Err(FormatError::MetadataCode(code)),
    }
}

proof fn lemma_columns_fail(d: Seq<u8>, dict: Seq<Seq<char>>, pos: int, i: int, n: int)
    requires
        0 <= i <= n,
        columns_at(d, dict, pos, i) is Err,
    ensures
        columns_at(d, dict, pos, n) == columns_at(d, dict, pos, i),
    decreases n,
{
    if i < n {
        lemma_columns_fail(d, dict, pos, i, n - 1);
    }
}

proof fn lemma_nodes_fail(d: Seq<u8>, dict: Seq<Seq<char>>, pos: int, i: int, n: int)
    requires
        0 <= i <= n,
        nodes_at(d, dict, pos, i) is Err,
    ensures
        nodes_at(d, dict, pos, n) == nodes_at(d, dict, pos, i),
    decreases n,
{
    if i < n {
        lemma_nodes_fail(d, dict, pos, i, n - 1);
    }
}

proof fn lemma_rels_fail(d: Seq<u8>, dict: Seq<Seq<char>>, pos: int, i: int, n: int)
    requires
        0 <= i <= n,
        rels_at(d, dict, pos, i) is Err,
    ensures
        rels_at(d, dict, pos, n) == rels_at(d, dict, pos, i),
    decreases n,
{
    if i < n {
        lemma_rels_fail(d, dict, pos, i, n - 1);
    }
}

fn read_column(d: &[u8], dict: &MappedStringDictionary, pos: usize) -> (r: Result<
    MetaColumn,
    FormatError,
>)
    requires
        pos <= d@.len(),
    ensures
        match r {
            Ok(x) => column_at(d@, dict@, pos as int) == Ok::<MetaColumnView, FormatError>(x@),
            Err(e) => column_at(d@, dict@, pos as int) == Err::<MetaColumnView, FormatError>(e),
        },
{
    assert(d@.len() == d.len());
    if d.len() - pos < 4 {
        return Err(FormatError::MetadataTruncated);
    }
    let key = text_of_code(dict, load_u32(d, pos))?;
    if d.len() - pos < 8 {
        return Err(FormatError::MetadataTruncated);
    }
    Ok(MetaColumn { key, disc: load_u16(d, pos + 4) })
}

fn read_columns(d: &[u8], dict: &MappedStringDictionary, pos: usize, n: u32) -> (r: Result<
    Vec<MetaColumn>,
    FormatError,
>)
    requires
        pos <= d@.len(),
    ensures
        match r {
            Ok(x) => columns_at(d@, dict@, pos as int, n as int) == Ok::<
                Seq<MetaColumnView>,
                FormatError,
            >(meta_column_views(x@)) && x@.len() == n && pos + 8 * n <= d@.len(),
            Err(e) => columns_at(d@, dict@, pos as int, n as int) == Err::<
                Seq<MetaColumnView>,
                FormatError,
            >(e),
        },
{
    assert(d@.len() == d.len());
    let mut out: Vec<MetaColumn> = Vec::new();
    let mut i: u32 = 0;
    let mut at: usize = pos;
    assert(meta_column_views(out@) =~= Seq::empty());
    while i < n
        invariant
            i <= n,
            at == pos + 8 * i,
            at <= d@.len(),
            d@.len() == d.len(),
            out@.len() == i,
            columns_at(d@, dict@, pos as int, i as int) == Ok::<Seq<MetaColumnView>, FormatError>(
                meta_column_views(out@),
            ),
        decreases n - i,
    {
        match read_column(d, dict, at) {
            Ok(c) => {
                let ghost before = meta_column_views(out@);
                let ghost cv = c@;
                out.push(c);
                assert(meta_column_views(out@) =~= before.push(cv));
            },
            Err(e) => {
                proof {
                    lemma_columns_fail(d@, dict@, pos as int, i + 1, n as int);
                }
                return Err(e);
            },
        }
        at = at + 8;
        i = i + 1;
    }
    Ok(out)
}

fn read_node(d: &[u8], dict: &MappedStringDictionary, pos: usize) -> (r: Result<
    MetaNodeTable,
    FormatError,
>)
    requires
        pos <= d@.len(),
    ensures
        match r {
            Ok(x) => node_at(d@, dict@, pos as int) == Ok::<MetaNodeView, FormatError>(x@) && pos
                + 14 + 8 * x.columns@.len() <= d@.len() && x.row_count <= u32::MAX,
            Err(e) => node_at(d@, dict@, pos as int) == Err::<MetaNodeView, FormatError>(e),
        },
{
    assert(d@.len() == d.len());
    if d.len() - pos < 6 {
        return Err(FormatError::MetadataTruncated);
    }
    let label = text_of_code(dict, load_u32(d, pos + 2))?;
    if d.len() - pos < 14 {
        return Err(FormatError::MetadataTruncated);
    }
    let columns = read_columns(d, dict, pos + 14, load_u32(d, pos + 10))?;
    Ok(MetaNodeTable { label, row_count: load_u32(d, pos + 6) as usize, columns })
}

fn read_rel(d: &[u8], dict: &MappedStringDictionary, pos: usize) -> (r: Result<
    MetaRelTable,
    FormatError,
>)
    requires
        pos <= d@.len(),
    ensures
        match r {
            Ok(x) => rel_at(d@, dict@, pos as int) == Ok::<MetaRelView, FormatError>(x@) && pos + 18
                + 8 * x.columns@.len() <= d@.len(),
            Err(e) => rel_at(d@, dict@, pos as int) == Err::<MetaRelView, FormatError>(e),
        },
{
    assert(d@.len() == d.len());
    if d.len() - pos < 10 {
        return Err(FormatError::MetadataTruncated);
    }
    let edge_type = text_of_code(dict, load_u32(d, pos + 6))?;
    if d.len() - pos < 18 {
        return Err(FormatError::MetadataTruncated);
    }
    let columns = read_columns(d, dict, pos + 18, load_u32(d, pos + 14))?;
    Ok(MetaRelTable { edge_type, columns })
}

/// All row counts are numbers of 32 bits.
pub open spec fn rows_are_short(v: Seq<MetaNodeView>) -> bool {
    forall|i: int| 0 <= i < v.len() ==> (#[trigger] v[i]).rows <= u32::MAX
}

fn read_nodes(d: &[u8], dict: &MappedStringDictionary, pos: usize, n: u32) -> (r: Result<
    (Vec<MetaNodeTable>, usize),
    FormatError,
>)
    requires
        pos <= d@.len(),
    ensures
        match r {
            Ok(x) => nodes_at(d@, dict@, pos as int, n as int) == Ok::<
                (Seq<MetaNodeView>, int),
                FormatError,
            >((meta_node_views(x.0@), x.1 as int)) && x.1 <= d@.len() && rows_are_short(
                meta_node_views(x.0@),
            ),
            Err(e) => nodes_at(d@, dict@, pos as int, n as int) == Err::<
                (Seq<MetaNodeView>, int),
                FormatError,
            >(e),
        },
{
    assert(d@.len() == d.len());
    let mut out: Vec<MetaNodeTable> = Vec::new();
    let mut i: u32 = 0;
    let mut at: usize = pos;
    assert(meta_node_views(out@) =~= Seq::empty());
    while i < n
        invariant
            i <= n,
            at <= d@.len(),
            d@.len() == d.len(),
            nodes_at(d@, dict@, pos as int, i as int) == Ok::<
                (Seq<MetaNodeView>, int),
                FormatError,
            >((meta_node_views(out@), at as int)),
            rows_are_short(meta_node_views(out@)),
        decreases n - i,
    {
        match read_node(d, dict, at) {
            Ok(t) => {
                let ghost before = meta_node_views(out@);
                let ghost tv = t@;
                at = at + 14 + 8 * t.columns.len();
                out.push(t);
                assert(meta_node_views(out@) =~= before.push(tv));
            },
            Err(e) => {
                proof {
                    lemma_nodes_fail(d@, dict@, pos as int, i + 1, n as int);
                }
                return Err(e);
            },
        }
        i = i + 1;
    }
    Ok((out, at))
}

fn read_rels(d: &[u8], dict: &MappedStringDictionary, pos: usize, n: u32) -> (r: Result<
    (Vec<MetaRelTable>, usize),
    FormatError,
>)
    requires
        pos <= d@.len(),
    ensures
        match r {
            Ok(x) => rels_at(d@, dict@, pos as int, n as int) == Ok::<
                (Seq<MetaRelView>, int),
                FormatError,
            >((meta_rel_views(x.0@), x.1 as int)) && x.1 <= d@.len(),
            Err(e) => rels_at(d@, dict@, pos as int, n as int) == Err::<
                (Seq<MetaRelView>, int),
                FormatError,
            >(e),
        },
{
    assert(d@.len() == d.len());
    let mut out: Vec<MetaRelTable> = Vec::new();
    let mut i: u32 = 0;
    let mut at: usize = pos;
    assert(meta_rel_views(out@) =~= Seq::empty());
    while i < n
        invariant
            i <= n,
            at <= d@.len(),
            d@.len() == d.len(),
            rels_at(d@, dict@, pos as int, i as int) == Ok::<(Seq<MetaRelView>, int), FormatError>(
                (meta_rel_views(out@), at as int),
            ),
        decreases n - i,
    {
        match read_rel(d, dict, at) {
            Ok(t) => {
                let ghost before = meta_rel_views(out@);
                let ghost tv = t@;
                at = at + 18 + 8 * t.columns.len();
                out.push(t);
                assert(meta_rel_views(out@) =~= before.push(tv));
            },
            Err(e) => {
                proof {
                    lemma_rels_fail(d@, dict@, pos as int, i + 1, n as int);
                }
                return Err(e);
            },
        }
        i = i + 1;
    }
    Ok((out, at))
}

/// Reads the metadata segment.
pub fn parse_metadata(data: &[u8], dict: &MappedStringDictionary) -> (r: Result<
    Metadata,
    FormatError,
>)
    ensures
        match r {
            Ok(x) => metadata_of(data@, dict@) == Ok::<MetaView, FormatError>(x@)
                && rows_are_short(x@.nodes),
            Err(e) => metadata_of(data@, dict@) == Err::<MetaView, FormatError>(e),
        },
{
    assert(data@.len() == data.len());
    if data.len() < 4 {
        return Err(FormatError::MetadataTruncated);
    }
    let (node_tables, p) = read_nodes(data, dict, 4, load_u32(data, 0))?;
    if data.len() - p < 4 {
        return Err(FormatError::MetadataTruncated);
    }
    let (rel_tables, q) = read_rels(data, dict, p + 4, load_u32(data, p))?;
    if data.len() - q < 16 {
        return Err(FormatError::MetadataTruncated);
    }
    Ok(
        Metadata {
            node_tables,
            rel_tables,
            total_nodes: load_u64(data, q),
            total_edges: load_u64(data, q + 8),
        },
    )
}

/// A record of the node table directory.
#[derive(Debug, Clone, Copy, PartialEq, Eq, Structural)]
pub struct NodeTableRec {
    /// Table number.
    pub id: u16,
    /// First column.
    pub column_start: u32,
    /// Number of columns.
    pub column_count: u32,
    /// Number of rows.
    pub row_count: u64,
}

/// The record of node table `i`.
pub open spec fn node_rec_at(d: Seq<u8>, i: int) -> Result<NodeTableRec, FormatError> {
    let o = 24 * i;
    if o + 24 > d.len() {
        Err(FormatError::TableRecordTruncated(SegmentKind::NodeTableDirectory))
    } else if wire::u16_at(d, o + 2) != 0 || wire::u32_at(d, o + 20) != 0 {
        Err(FormatError::TableRecordReserved(SegmentKind::NodeTableDirectory))
    } else {
        Ok(
            NodeTableRec {
                id: wire::u16_at(d, o),
                column_start: wire::u32_at(d, o + 4),
                column_count: wire::u32_at(d, o + 8),
                row_count: wire::u64_at(d, o + 12),
            },
        )
    }
}

/// Reads the record of a node table.
pub fn read_node_table_record(d: &[u8], index: usize) -> (r: Result<NodeTableRec, FormatError>)
    ensures
        r == node_rec_at(d@, index as int),
{
    assert(d@.len() == d.len());
    if index >= d.len() / 24 {
        return Err(FormatError::TableRecordTruncated(SegmentKind::NodeTableDirectory));
    }
    let o: usize = 24 * index;
    if load_u16(d, o + 2) != 0 || load_u32(d, o + 20) != 0 {
        return Err(FormatError::TableRecordReserved(SegmentKind::NodeTableDirectory));
    }
    Ok(
        NodeTableRec {
            id: load_u16(d, o),
            column_start: load_u32(d, o + 4),
            column_count: load_u32(d, o + 8),
            row_count: load_u64(d, o + 12),
        },
    )
}

/// A record of the relationship table directory.
#[derive(Debug, Clone, Copy, PartialEq, Eq, Structural)]
pub struct RelTableRec {
    /// Table number.
    pub id: u16,
    /// Node table of the sources.
    pub src_tid: u16,
    /// Node table of the destinations.
    pub dst_tid: u16,
    /// First column.
    pub column_start: u32,
    /// Number of columns.
    pub column_count: u32,
    /// Number of edges.
    pub edge_count: u64,
}

/// The record of relationship table `i`.
pub open spec fn rel_rec_at(d: Seq<u8>, i: int) -> Result<RelTableRec, FormatError> {
    let o = 24 * i;
    if o + 24 > d.len() {
        Err(FormatError::TableRecordTruncated(SegmentKind::RelTableDirectory))
    } else if wire::u16_at(d, o + 6) != 0 {
        Err(FormatError::TableRecordReserved(SegmentKind::RelTableDirectory))
    } else {
        Ok(
            RelTableRec {
                id: wire::u16_at(d, o),
                src_tid: wire::u16_at(d, o + 2),
                dst_tid: wire::u16_at(d, o + 4),
                column_start: wire::u32_at(d, o + 8),
                column_count: wire::u32_at(d, o + 12),
                edge_count: wire::u64_at(d, o + 16),
            },
        )
    }
}

/// Reads the record of a relationship table.
pub fn read_rel_table_record(d: &[u8], index: usize) -> (r: Result<RelTableRec, FormatError>)
    ensures
        r == rel_rec_at(d@, index as int),
{
    assert(d@.len() == d.len());
    if index >= d.len() / 24 {
        return Err(FormatError::TableRecordTruncated(SegmentKind::RelTableDirectory));
    }
    let o: usize = 24 * index;
    if load_u16(d, o + 6) != 0 {
        return Err(FormatError::TableRecordReserved(SegmentKind::RelTableDirectory));
    }
    Ok(
        RelTableRec {
            id: load_u16(d, o),
            src_tid: load_u16(d, o + 2),
            dst_tid: load_u16(d, o + 4),
            column_start: load_u32(d, o + 8),
            column_count: load_u32(d, o + 12),
            edge_count: load_u64(d, o + 16),
        },
    )
}

} // verus!
