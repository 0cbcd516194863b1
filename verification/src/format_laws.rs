//! Where the fields of fixed-width records stand.

use crate::code_index;
use crate::csr_pass;
use crate::dict_pass::ChunkView;
use crate::dict_pass;
use crate::directory::SegmentEntry;
use crate::directory;
use crate::emit_columns;
use crate::emit_meta::CodecKind;
use crate::emit_meta;
use crate::id_index::IdEntry;
use crate::id_index;
use crate::id_lookup;
use crate::label_membership::LabelMembership;
use crate::label_membership;
use crate::node_pass;
use crate::payload::SegmentView;
use crate::payload;
use crate::presence;
use crate::staging;
use crate::string_dict;
use crate::tables::{ColumnView, NodeTableView, RelTableView};
use crate::tables;
use crate::text;
use crate::v5_write::{total_edges, total_nodes};
use crate::v5_write;
use crate::value::{ValueView, ZoneView};
use crate::wire;
use crate::zone_maps;
use vstd::prelude::*;

verus! {

broadcast use wire::group_wire;

/// The bytes of a number go from the lowest to the highest; the other order is
/// the reverse.
pub proof fn lemma_lowest_byte_first(x: u16, y: u32, z: u64)
    ensures
        wire::put16(x)[0] + 256 * wire::put16(x)[1] == x,
        wire::put32(y)[0] + 256 * wire::put32(y)[1] + 65536 * wire::put32(y)[2] + 16777216 * wire::put32(y)[3] == y,
        wire::u32_at(wire::put64(z), 0) + 0x1_0000_0000 * wire::u32_at(wire::put64(z), 4) == z,
        wire::put16_be(x)[0] == wire::put16(x)[1],
        wire::put16_be(x)[1] == wire::put16(x)[0],
        forall|i: int| 0 <= i < 4 ==> #[trigger] wire::put32_be(y)[i] == wire::put32(y)[3 - i],
        forall|i: int| 0 <= i < 8 ==> #[trigger] wire::put64_be(z)[i] == wire::put64(z)[7 - i],
{
    reveal(wire::put16);
    reveal(wire::put32);
    reveal(wire::put64);
    let lo = (z % 0x1_0000_0000) as u32;
    let hi = (z / 0x1_0000_0000) as u32;
    assert(wire::put64(z).subrange(0, 4) =~= wire::put32(lo));
    assert(wire::put64(z).subrange(4, 8) =~= wire::put32(hi));
}

/// The fields of an id-index record and of an id-lookup record.
pub proof fn lemma_id_record_fields(e: IdEntry)
    ensures
        id_index::id_record(e).len() == 18,
        wire::u64_at(id_index::id_record(e), 0) == e.0,
        wire::u16_at(id_index::id_record(e), 8) == e.1,
        wire::u64_at(id_index::id_record(e), 10) == e.2,
        id_lookup::lookup_record(e).len() == 24,
        wire::u64_at(id_lookup::lookup_record(e), 0) == e.0,
        wire::u16_at(id_lookup::lookup_record(e), 8) == e.1,
        wire::u16_at(id_lookup::lookup_record(e), 10) == 0,
        wire::u32_at(id_lookup::lookup_record(e), 12) == 0,
        wire::u64_at(id_lookup::lookup_record(e), 16) == e.2,
{
    let d = id_index::id_record(e);
    assert(d.subrange(0, 8) =~= wire::put64(e.0));
    assert(d.subrange(8, 10) =~= wire::put16(e.1));
    assert(d.subrange(10, 18) =~= wire::put64(e.2));
    let l = id_lookup::lookup_record(e);
    assert(l.subrange(0, 8) =~= wire::put64(e.0));
    assert(l.subrange(8, 10) =~= wire::put16(e.1));
    assert(l.subrange(10, 12) =~= wire::put16(0));
    assert(l.subrange(12, 16) =~= wire::put32(0));
    assert(l.subrange(16, 24) =~= wire::put64(e.2));
}

/// The fields of a membership record.
pub proof fn lemma_membership_record_fields(m: LabelMembership)
    ensures
        label_membership::membership_record(m).len() == 16,
        wire::u16_at(label_membership::membership_record(m), 0) == m.node_table_id,
        wire::u32_at(label_membership::membership_record(m), 2) == m.node_offset,
        wire::u32_at(label_membership::membership_record(m), 6) == m.label_code,
        wire::u32_at(label_membership::membership_record(m), 10) == 0,
        wire::u16_at(label_membership::membership_record(m), 14) == 0,
{
    let d = label_membership::membership_record(m);
    assert(d.subrange(0, 2) =~= wire::put16(m.node_table_id));
    assert(d.subrange(2, 6) =~= wire::put32(m.node_offset));
    assert(d.subrange(6, 10) =~= wire::put32(m.label_code));
    assert(d.subrange(10, 14) =~= wire::put32(0));
    assert(d.subrange(14, 16) =~= wire::put16(0));
}

/// The fields of a record of the code index: where the text stands among all
/// texts, how long it is, and its code.
pub proof fn lemma_code_record_fields(v: Seq<Seq<char>>, p: int)
    requires
        0 <= p < v.len(),
        code_index::code_index_fits(v),
    ensures
        code_index::code_record(v, p).len() == 16,
        wire::u64_at(code_index::code_record(v, p), 0) == string_dict::text_offset(v, p),
        wire::u32_at(code_index::code_record(v, p), 8) == text::utf8(v[p]).len(),
        wire::u32_at(code_index::code_record(v, p), 12) == p,
{
    let d = code_index::code_record(v, p);
    string_dict::lemma_text_blob(v, p);
    string_dict::lemma_text_blob_len(v);
    assert(d.subrange(0, 8) =~= wire::put64(string_dict::text_offset(v, p) as u64));
    assert(d.subrange(8, 12) =~= wire::put32(text::utf8(v[p]).len() as u32));
    assert(d.subrange(12, 16) =~= wire::put32(p as u32));
}

/// The fields of a bitmap record.
pub proof fn lemma_bitmap_record_fields(column: u32, rows: u32, bits: Seq<bool>)
    ensures
        wire::u32_at(presence::bitmap_record(column, rows, bits), 0) == column,
        wire::u32_at(presence::bitmap_record(column, rows, bits), 4) == rows,
        presence::bitmap_record(column, rows, bits).skip(8) == presence::packed(bits),
{
    let d = presence::bitmap_record(column, rows, bits);
    assert(d.subrange(0, 4) =~= wire::put32(column));
    assert(d.subrange(4, 8) =~= wire::put32(rows));
    assert(d.skip(8) =~= presence::packed(bits));
}

/// The fields of a zone-map record.
pub proof fn lemma_zone_record_fields(
    table: u16,
    column: u32,
    block: u32,
    z: ZoneView,
    index: Map<Seq<char>, u32>,
)
    requires
        z.null_count <= u32::MAX,
        z.row_count <= u32::MAX,
    ensures
        ({
            let d = zone_maps::zone_record(table, column, block, z, index);
            &&& d.len() == 40
            &&& wire::u16_at(d, 0) == table
            &&& wire::u16_at(d, 2) == 0
            &&& wire::u32_at(d, 4) == column
            &&& wire::u32_at(d, 8) == block
            &&& wire::u32_at(d, 12) == z.null_count
            &&& wire::u32_at(d, 16) == z.row_count
            &&& wire::u16_at(d, 22) == 0
            &&& bound_stands(z.min, d[20], wire::u64_at(d, 24), index)
            &&& bound_stands(z.max, d[21], wire::u64_at(d, 32), index)
        }),
{
    let d = zone_maps::zone_record(table, column, block, z, index);
    assert(d.subrange(0, 2) =~= wire::put16(table));
    assert(d.subrange(2, 4) =~= wire::put16(0));
    assert(d.subrange(4, 8) =~= wire::put32(column));
    assert(d.subrange(8, 12) =~= wire::put32(block));
    assert(d.subrange(12, 16) =~= wire::put32(z.null_count as u32));
    assert(d.subrange(16, 20) =~= wire::put32(z.row_count as u32));
    assert(d.subrange(22, 24) =~= wire::put16(0));
    assert(d.subrange(24, 32) =~= wire::put64(zone_maps::value_payload(z.min, index)));
    assert(d.subrange(32, 40) =~= wire::put64(zone_maps::value_payload(z.max, index)));
}

/// A tag and a word stand for a bound: nothing, an integer by its bits, a truth
/// value, a text by its code or a float by its bits.
pub open spec fn bound_stands(
    v: Option<ValueView>,
    tag: u8,
    word: u64,
    index: Map<Seq<char>, u32>,
) -> bool {
    match v {
        None => tag == 0 && word == 0,
        Some(ValueView::Int64(n)) => tag == 1 && word == n as u64,
        Some(ValueView::Bool(b)) => tag == 2 && (word == 1 <==> b) && word <= 1,
        Some(ValueView::Text(s)) => tag == 3 && word == index[s],
        Some(ValueView::Float64(f)) => tag == 4 && word == f,
        _ => true,
    }
}

/// The fields of an entry of the segment directory.
pub proof fn lemma_entry_fields(e: SegmentEntry)
    ensures
        payload::entry_bytes(e).len() == 48,
        wire::u16_at(payload::entry_bytes(e), 0) == directory::kind_code(e.kind),
        wire::u16_at(payload::entry_bytes(e), 2) == e.encoding_version,
        wire::u16_at(payload::entry_bytes(e), 4) == e.flags,
        wire::u16_at(payload::entry_bytes(e), 6) == e.alignment,
        wire::u64_at(payload::entry_bytes(e), 8) == e.offset,
        wire::u64_at(payload::entry_bytes(e), 16) == e.length,
        wire::u32_at(payload::entry_bytes(e), 24) == e.element_width,
        wire::u32_at(payload::entry_bytes(e), 28) == e.element_count,
        wire::u32_at(payload::entry_bytes(e), 32) == e.crc32,
{
    let d = payload::entry_bytes(e);
    assert(d.subrange(0, 2) =~= wire::put16(directory::kind_code(e.kind)));
    assert(d.subrange(2, 4) =~= wire::put16(e.encoding_version));
    assert(d.subrange(4, 6) =~= wire::put16(e.flags));
    assert(d.subrange(6, 8) =~= wire::put16(e.alignment));
    assert(d.subrange(8, 16) =~= wire::put64(e.offset));
    assert(d.subrange(16, 24) =~= wire::put64(e.length));
    assert(d.subrange(24, 28) =~= wire::put32(e.element_width));
    assert(d.subrange(28, 32) =~= wire::put32(e.element_count));
    assert(d.subrange(32, 36) =~= wire::put32(e.crc32));
}

/// The fields of the header of a payload.
pub proof fn lemma_header_fields(
    s: Seq<SegmentView>,
    flags: u8,
    total_nodes: u64,
    total_edges: u64,
)
    requires
        s.len() <= u16::MAX,
    ensures
        ({
            let d = payload::header_image(s, flags, total_nodes, total_edges);
            &&& d.len() == 64
            &&& d[0] == 0x47 && d[1] == 0x43 && d[2] == 0x53 && d[3] == 0x54
            &&& d[4] == 5
            &&& d[5] == flags
            &&& wire::u16_at(d, 6) == 64
            &&& wire::u16_at(d, 8) == s.len()
            &&& wire::u16_at(d, 10) == 48
            &&& wire::u32_at(d, 12) == payload::layout_flags_of(s)
            &&& wire::u64_at(d, 16) == 64
            &&& wire::u64_at(d, 24) == 48 * s.len()
            &&& wire::u64_at(d, 32) == 64 + 48 * s.len()
            &&& wire::u64_at(d, 40) == total_nodes
            &&& wire::u64_at(d, 48) == total_edges
            &&& wire::u32_at(d, 60) == 0
        }),
{
    let d = payload::header_image(s, flags, total_nodes, total_edges);
    assert(payload::header_front(s, flags).len() == 24);
    assert(d.subrange(6, 8) =~= wire::put16(64));
    assert(d.subrange(8, 10) =~= wire::put16(s.len() as u16));
    assert(d.subrange(10, 12) =~= wire::put16(48));
    assert(d.subrange(12, 16) =~= wire::put32(payload::layout_flags_of(s)));
    assert(d.subrange(16, 24) =~= wire::put64(64));
    assert(d.subrange(24, 32) =~= wire::put64((48 * s.len()) as u64));
    assert(d.subrange(32, 40) =~= wire::put64((64 + 48 * s.len()) as u64));
    assert(d.subrange(40, 48) =~= wire::put64(total_nodes));
    assert(d.subrange(48, 56) =~= wire::put64(total_edges));
    assert(d.subrange(60, 64) =~= wire::put32(0));
}

/// The fields of the directory records of node tables, relationship tables and
/// columns, and of the block index.
pub proof fn lemma_directory_record_fields(
    id: u16,
    first: u32,
    n: NodeTableView,
    r: RelTableView,
    c: ColumnView,
    start: u32,
    len: u32,
    rows: u32,
)
    requires
        n.columns.len() <= u32::MAX,
        r.columns.len() <= u32::MAX,
        r.fwd.targets.len() <= u64::MAX,
        0 <= tables::column_rows(c) <= u64::MAX,
    ensures
        ({
            let d = v5_write::node_dir_record(id, first, n);
            &&& wire::u16_at(d, 0) == id
            &&& wire::u32_at(d, 4) == first
            &&& wire::u32_at(d, 8) == n.columns.len()
            &&& wire::u64_at(d, 12) == n.rows
        }),
        ({
            let d = v5_write::rel_dir_record(id, first, r);
            &&& wire::u16_at(d, 0) == id
            &&& wire::u16_at(d, 2) == r.src
            &&& wire::u16_at(d, 4) == r.dst
            &&& wire::u32_at(d, 8) == first
            &&& wire::u32_at(d, 12) == r.columns.len()
            &&& wire::u64_at(d, 16) == r.fwd.targets.len()
        }),
        ({
            let d = v5_write::column_dir_record(c, first);
            &&& wire::u16_at(d, 0) == tables::column_disc(c)
            &&& wire::u32_at(d, 4) == first
            &&& wire::u32_at(d, 8) == 1
            &&& wire::u64_at(d, 12) == tables::column_rows(c)
        }),
        ({
            let d = v5_write::block_index_record(start, len, rows);
            &&& wire::u32_at(d, 0) == start
            &&& wire::u32_at(d, 4) == len
            &&& wire::u32_at(d, 8) == rows
        }),
{
    let a = v5_write::node_dir_record(id, first, n);
    assert(a.subrange(0, 2) =~= wire::put16(id));
    assert(a.subrange(4, 8) =~= wire::put32(first));
    assert(a.subrange(8, 12) =~= wire::put32(n.columns.len() as u32));
    assert(a.subrange(12, 20) =~= wire::put64(n.rows as u64));
    let b = v5_write::rel_dir_record(id, first, r);
    assert(b.subrange(0, 2) =~= wire::put16(id));
    assert(b.subrange(2, 4) =~= wire::put16(r.src));
    assert(b.subrange(4, 6) =~= wire::put16(r.dst));
    assert(b.subrange(8, 12) =~= wire::put32(first));
    assert(b.subrange(12, 16) =~= wire::put32(r.columns.len() as u32));
    assert(b.subrange(16, 24) =~= wire::put64(r.fwd.targets.len() as u64));
    let e = v5_write::column_dir_record(c, first);
    assert(e.subrange(0, 2) =~= wire::put16(tables::column_disc(c)));
    assert(e.subrange(4, 8) =~= wire::put32(first));
    assert(e.subrange(8, 12) =~= wire::put32(1));
    assert(e.subrange(12, 20) =~= wire::put64(tables::column_rows(c) as u64));
    let f = v5_write::block_index_record(start, len, rows);
    assert(f.subrange(0, 4) =~= wire::put32(start));
    assert(f.subrange(4, 8) =~= wire::put32(len));
    assert(f.subrange(8, 12) =~= wire::put32(rows));
}

/// The fields of the metadata of a table before its columns, and of a column.
pub proof fn lemma_metadata_fields(
    id: u16,
    n: NodeTableView,
    r: RelTableView,
    c: (Seq<char>, ColumnView),
    index: Map<Seq<char>, u32>,
)
    requires
        n.rows <= u32::MAX,
        n.columns.len() <= u32::MAX,
        r.columns.len() <= u32::MAX,
        r.fwd.targets.len() <= u32::MAX,
    ensures
        ({
            let d = v5_write::meta_node_head(id, n, index);
            &&& d.len() == 14
            &&& wire::u16_at(d, 0) == id
            &&& wire::u32_at(d, 2) == index[n.label]
            &&& wire::u32_at(d, 6) == n.rows
            &&& wire::u32_at(d, 10) == n.columns.len()
        }),
        ({
            let d = v5_write::meta_rel_head(id, r, index);
            &&& d.len() == 18
            &&& wire::u16_at(d, 0) == id
            &&& wire::u16_at(d, 2) == r.src
            &&& wire::u16_at(d, 4) == r.dst
            &&& wire::u32_at(d, 6) == index[r.edge_type]
            &&& wire::u32_at(d, 10) == r.fwd.targets.len()
            &&& wire::u32_at(d, 14) == r.columns.len()
        }),
        ({
            let d = v5_write::meta_column(c, index);
            &&& d.len() == 8
            &&& wire::u32_at(d, 0) == index[c.0]
            &&& wire::u16_at(d, 4) == tables::column_disc(c.1)
            &&& wire::u16_at(d, 6) == tables::column_disc(c.1)
        }),
{
    let a = v5_write::meta_node_head(id, n, index);
    assert(a.subrange(0, 2) =~= wire::put16(id));
    assert(a.subrange(2, 6) =~= wire::put32(index[n.label]));
    assert(a.subrange(6, 10) =~= wire::put32(n.rows as u32));
    assert(a.subrange(10, 14) =~= wire::put32(n.columns.len() as u32));
    let b = v5_write::meta_rel_head(id, r, index);
    assert(b.subrange(0, 2) =~= wire::put16(id));
    assert(b.subrange(2, 4) =~= wire::put16(r.src));
    assert(b.subrange(4, 6) =~= wire::put16(r.dst));
    assert(b.subrange(6, 10) =~= wire::put32(index[r.edge_type]));
    assert(b.subrange(10, 14) =~= wire::put32(r.fwd.targets.len() as u32));
    assert(b.subrange(14, 18) =~= wire::put32(r.columns.len() as u32));
    let e = v5_write::meta_column(c, index);
    assert(e.subrange(0, 4) =~= wire::put32(index[c.0]));
    assert(e.subrange(4, 6) =~= wire::put16(tables::column_disc(c.1)));
    assert(e.subrange(6, 8) =~= wire::put16(tables::column_disc(c.1)));
}

/// The fields of the records that place emitted columns and of a dictionary's
/// catalog entry.
pub proof fn lemma_emitted_fields(
    kind: CodecKind,
    column: u32,
    rows: u32,
    start: u32,
    len: u32,
    c: ChunkView,
    name: Seq<char>,
)
    requires
        c.prop.len() < 0x1_0000,
        text::utf8(name).len() < 0x1_0000,
    ensures
        ({
            let d = emit_columns::column_record(kind, column, rows);
            &&& wire::u16_at(d, 0) == emit_meta::codec_code(kind)
            &&& wire::u16_at(d, 2) == emit_meta::codec_code(kind)
            &&& wire::u32_at(d, 4) == column
            &&& wire::u32_at(d, 8) == 1
            &&& wire::u64_at(d, 12) == rows
        }),
        ({
            let d = emit_columns::block_record(start, len, rows);
            &&& wire::u32_at(d, 0) == start
            &&& wire::u32_at(d, 4) == len
            &&& wire::u32_at(d, 8) == rows
        }),
        ({
            let d = dict_pass::catalog_record(c, name);
            let n = c.prop.len() as int;
            &&& wire::u16_at(d, 0) == c.table_id
            &&& wire::u16_at(d, 2) == n
            &&& d.subrange(4, 4 + n) == c.prop
            &&& wire::u16_at(d, 4 + n) == text::utf8(name).len()
            &&& d.skip(6 + n) == text::utf8(name)
        }),
{
    let a = emit_columns::column_record(kind, column, rows);
    assert(a.subrange(0, 2) =~= wire::put16(emit_meta::codec_code(kind)));
    assert(a.subrange(2, 4) =~= wire::put16(emit_meta::codec_code(kind)));
    assert(a.subrange(4, 8) =~= wire::put32(column));
    assert(a.subrange(8, 12) =~= wire::put32(1));
    assert(a.subrange(12, 20) =~= wire::put64(rows as u64));
    let b = emit_columns::block_record(start, len, rows);
    assert(b.subrange(0, 4) =~= wire::put32(start));
    assert(b.subrange(4, 8) =~= wire::put32(len));
    assert(b.subrange(8, 12) =~= wire::put32(rows));
    let d = dict_pass::catalog_record(c, name);
    let n = c.prop.len() as int;
    assert(d.subrange(0, 2) =~= wire::put16(c.table_id));
    assert(d.subrange(2, 4) =~= wire::put16(n as u16));
    assert(d.subrange(4, 4 + n) =~= c.prop);
    assert(d.subrange(4 + n, 6 + n) =~= wire::put16(text::utf8(name).len() as u16));
    assert(d.skip(6 + n) =~= text::utf8(name));
}

/// The fields of the keys that staged rows are sorted by: text and id of a node
/// or an edge, table, row, column and edge of an adjacency entry, and table,
/// property and row of a value.
pub proof fn lemma_key_fields(
    text: Seq<char>,
    id: u64,
    rel: u16,
    row: u64,
    col: u64,
    edge: u64,
)
    requires
        text::utf8(text).len() < 0x1_0000,
    ensures
        ({
            let d = staging::row_key(text, id);
            let n = text::utf8(text).len() as int;
            &&& d.len() == 2 + n + 8
            &&& d.subrange(2, 2 + n) == text::utf8(text)
            &&& wire::u64_be_at(d, 2 + n) == id
        }),
        ({
            let d = csr_pass::edge_key(rel, row, col, edge);
            &&& d.len() == 26
            &&& wire::u16_be_at(d, 0) == rel
            &&& wire::u64_be_at(d, 2) == row
            &&& wire::u64_be_at(d, 10) == col
            &&& wire::u64_be_at(d, 18) == edge
        }),
        ({
            let d = node_pass::occ_key(rel, text, row);
            let n = text::utf8(text).len() as int;
            &&& wire::u16_be_at(d, 0) == rel
            &&& d.subrange(2, 2 + n) == text::utf8(text)
            &&& wire::u64_be_at(d, 2 + n) == row
        }),
{
    let n = text::utf8(text).len() as int;
    let a = staging::row_key(text, id);
    assert(a.subrange(2, 2 + n) =~= text::utf8(text));
    assert(a.subrange(2 + n, 2 + n + 8) =~= wire::put64_be(id));
    let b = csr_pass::edge_key(rel, row, col, edge);
    assert(b.subrange(0, 2) =~= wire::put16_be(rel));
    assert(b.subrange(2, 10) =~= wire::put64_be(row));
    assert(b.subrange(10, 18) =~= wire::put64_be(col));
    assert(b.subrange(18, 26) =~= wire::put64_be(edge));
    let c = node_pass::occ_key(rel, text, row);
    assert(c.subrange(0, 2) =~= wire::put16_be(rel));
    assert(c.subrange(2, 2 + n) =~= text::utf8(text));
    assert(c.subrange(2 + n, 2 + n + 8) =~= wire::put64_be(row));
}

/// The fields of the adjacency keys, of an edge's staged ends and of an id's
/// place.
pub proof fn lemma_staged_fields(
    rel: u16,
    a: u32,
    b: u32,
    pos: u32,
    edge: u64,
    src: u64,
    dst: u64,
    props: Seq<u8>,
)
    ensures
        ({
            let d = staging::fwd_key(rel, a, b, edge);
            &&& d.len() == 18
            &&& wire::u16_be_at(d, 0) == rel
            &&& wire::u32_be_at(d, 2) == a
            &&& wire::u32_be_at(d, 6) == b
            &&& wire::u64_be_at(d, 10) == edge
        }),
        ({
            let d = staging::rev_key(rel, a, b, pos);
            &&& d.len() == 14
            &&& wire::u16_be_at(d, 0) == rel
            &&& wire::u32_be_at(d, 2) == a
            &&& wire::u32_be_at(d, 6) == b
            &&& wire::u32_be_at(d, 10) == pos
        }),
        ({
            let d = staging::edge_payload(src, dst, props);
            &&& wire::u64_be_at(d, 0) == src
            &&& wire::u64_be_at(d, 8) == dst
            &&& d.skip(16) == props
        }),
        ({
            let d = staging::id_payload(rel, src);
            &&& d.len() == 10
            &&& wire::u16_at(d, 0) == rel
            &&& wire::u64_at(d, 2) == src
        }),
{
    let f = staging::fwd_key(rel, a, b, edge);
    assert(f.subrange(0, 2) =~= wire::put16_be(rel));
    assert(f.subrange(2, 6) =~= wire::put32_be(a));
    assert(f.subrange(6, 10) =~= wire::put32_be(b));
    assert(f.subrange(10, 18) =~= wire::put64_be(edge));
    let g = staging::rev_key(rel, a, b, pos);
    assert(g.subrange(0, 2) =~= wire::put16_be(rel));
    assert(g.subrange(2, 6) =~= wire::put32_be(a));
    assert(g.subrange(6, 10) =~= wire::put32_be(b));
    assert(g.subrange(10, 14) =~= wire::put32_be(pos));
    let h = staging::edge_payload(src, dst, props);
    assert(h.subrange(0, 8) =~= wire::put64_be(src));
    assert(h.subrange(8, 16) =~= wire::put64_be(dst));
    assert(h.skip(16) =~= props);
    let i = staging::id_payload(rel, src);
    assert(i.subrange(0, 2) =~= wire::put16(rel));
    assert(i.subrange(2, 10) =~= wire::put64(src));
}

} // verus!
