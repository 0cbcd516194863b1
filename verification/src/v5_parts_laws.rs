//! What the parts of a payload give back of what was written into them.

use crate::error::FormatError;
use crate::tables::{ColumnView, NodeTableView, RelTableView, StoreView};
use crate::tables;
use crate::text::own;
use crate::v5_meta::{MetaColumnView, MetaNodeView, MetaRelView, MetaView, NodeTableRec, RelTableRec};
use crate::v5_meta;
use crate::v5_read::{BodyView, MappedColumnView};
use crate::v5_read;
use crate::v5_write::{total_edges, total_nodes};
use crate::v5_write;
use crate::views;
use crate::wire;
use crate::zone_maps;
use vstd::prelude::*;

verus! {

broadcast use wire::group_wire;

/// The columns of a table as its metadata gives them.
pub open spec fn meta_of_columns(columns: Seq<(Seq<char>, ColumnView)>) -> Seq<MetaColumnView> {
    Seq::new(
        columns.len(),
        |i: int| MetaColumnView { key: columns[i].0, disc: tables::column_disc(columns[i].1) },
    )
}

/// A node table as the metadata gives it.
pub open spec fn meta_of_node(t: NodeTableView) -> MetaNodeView {
    MetaNodeView { label: t.label, rows: t.rows, columns: meta_of_columns(t.columns) }
}

/// A relationship table as the metadata gives it.
pub open spec fn meta_of_rel(t: RelTableView) -> MetaRelView {
    MetaRelView { edge_type: t.edge_type, columns: meta_of_columns(t.columns) }
}

/// Node tables as the metadata gives them.
pub open spec fn meta_of_nodes(v: Seq<NodeTableView>) -> Seq<MetaNodeView> {
    Seq::new(v.len(), |i: int| meta_of_node(v[i]))
}

/// Relationship tables as the metadata gives them.
pub open spec fn meta_of_rels(v: Seq<RelTableView>) -> Seq<MetaRelView> {
    Seq::new(v.len(), |i: int| meta_of_rel(v[i]))
}

/// The metadata of a store.
pub open spec fn meta_of_store(s: StoreView) -> MetaView {
    MetaView {
        nodes: meta_of_nodes(s.nodes),
        rels: meta_of_rels(s.rels),
        total_nodes: v5_write::node_total(s.nodes, s.nodes.len() as int) as u64,
        total_edges: v5_write::edge_total(s.rels, s.rels.len() as int) as u64,
    }
}

proof fn lemma_at32(d: Seq<u8>, pos: int, v: u32)
    requires
        wire::holds_at(d, pos, wire::put32(v)),
    ensures
        wire::u32_at(d, pos) == v,
        pos + 4 <= d.len(),
{
}

proof fn lemma_at16(d: Seq<u8>, pos: int, v: u16)
    requires
        wire::holds_at(d, pos, wire::put16(v)),
    ensures
        wire::u16_at(d, pos) == v,
        pos + 2 <= d.len(),
{
}

proof fn lemma_at64(d: Seq<u8>, pos: int, v: u64)
    requires
        wire::holds_at(d, pos, wire::put64(v)),
    ensures
        wire::u64_at(d, pos) == v,
        pos + 8 <= d.len(),
{
}

proof fn lemma_meta_columns_read(
    d: Seq<u8>,
    pos: int,
    columns: Seq<(Seq<char>, ColumnView)>,
    index: Map<Seq<char>, u32>,
    dict: Seq<Seq<char>>,
    n: int,
)
    requires
        wire::holds_at(d, pos, v5_write::meta_columns(columns, index)),
        zone_maps::index_matches(index, dict),
        forall|i: int| 0 <= i < columns.len() ==> index.dom().contains((#[trigger] columns[i]).0),
        0 <= n <= columns.len(),
    ensures
        v5_write::meta_columns(columns, index).len() == 8 * columns.len(),
        v5_meta::columns_at(d, dict, pos, n) == Ok::<Seq<MetaColumnView>, FormatError>(
            meta_of_columns(columns).take(n),
        ),
    decreases n,
{
    let f = |c: (Seq<char>, ColumnView)| v5_write::meta_column(c, index);
    wire::lemma_flat_len(columns, f, 8);
    let want = meta_of_columns(columns);
    if n == 0 {
        assert(want.take(0) =~= Seq::empty());
    } else {
        lemma_meta_columns_read(d, pos, columns, index, dict, n - 1);
        let i = n - 1;
        let c = columns[i];
        wire::lemma_flat_at(columns, f, 8, i);
        wire::lemma_holds_within(d, pos, v5_write::meta_columns(columns, index), 8 * i, 8 * i + 8);
        let at = pos + 8 * i;
        assert(wire::holds_at(d, at, v5_write::meta_column(c, index)));
        let head = wire::put32(index[c.0]) + wire::put16(tables::column_disc(c.1));
        wire::lemma_holds_split(d, at, head, wire::put16(tables::column_disc(c.1)));
        wire::lemma_holds_split(d, at, wire::put32(index[c.0]), wire::put16(tables::column_disc(c.1)));
        lemma_at32(d, at, index[c.0]);
        lemma_at16(d, at + 4, tables::column_disc(c.1));
        assert(index[c.0] < dict.len());
        assert(want.take(n) =~= want.take(n - 1).push(want[i]));
    }
}

proof fn lemma_meta_node_read(
    d: Seq<u8>,
    pos: int,
    t: NodeTableView,
    tid: u16,
    index: Map<Seq<char>, u32>,
    dict: Seq<Seq<char>>,
)
    requires
        wire::holds_at(d, pos, v5_write::meta_node_head(tid, t, index) + v5_write::meta_columns(t.columns, index)),
        zone_maps::index_matches(index, dict),
        v5_write::table_indexed(t.label, t.columns, index),
        t.rows <= u32::MAX,
        t.columns.len() <= u32::MAX,
    ensures
        v5_meta::node_at(d, dict, pos) == Ok::<MetaNodeView, FormatError>(meta_of_node(t)),
        (v5_write::meta_node_head(tid, t, index) + v5_write::meta_columns(t.columns, index)).len() == 14 + 8
            * t.columns.len(),
{
    let head = v5_write::meta_node_head(tid, t, index);
    wire::lemma_holds_split(d, pos, head, v5_write::meta_columns(t.columns, index));
    let c = wire::put32(t.columns.len() as u32);
    let b = wire::put32(t.rows as u32);
    let a = wire::put32(index[t.label]);
    let z = wire::put16(tid);
    wire::lemma_holds_split(d, pos, z + a + b, c);
    wire::lemma_holds_split(d, pos, z + a, b);
    wire::lemma_holds_split(d, pos, z, a);
    lemma_at32(d, pos + 2, index[t.label]);
    lemma_at32(d, pos + 6, t.rows as u32);
    lemma_at32(d, pos + 10, t.columns.len() as u32);
    assert(index[t.label] < dict.len());
    lemma_meta_columns_read(d, pos + 14, t.columns, index, dict, t.columns.len() as int);
    assert(meta_of_columns(t.columns).take(t.columns.len() as int) =~= meta_of_columns(t.columns));
}

proof fn lemma_meta_rel_read(
    d: Seq<u8>,
    pos: int,
    t: RelTableView,
    rid: u16,
    index: Map<Seq<char>, u32>,
    dict: Seq<Seq<char>>,
)
    requires
        wire::holds_at(d, pos, v5_write::meta_rel_head(rid, t, index) + v5_write::meta_columns(t.columns, index)),
        zone_maps::index_matches(index, dict),
        v5_write::table_indexed(t.edge_type, t.columns, index),
        t.columns.len() <= u32::MAX,
    ensures
        v5_meta::rel_at(d, dict, pos) == Ok::<MetaRelView, FormatError>(meta_of_rel(t)),
        (v5_write::meta_rel_head(rid, t, index) + v5_write::meta_columns(t.columns, index)).len() == 18 + 8
            * t.columns.len(),
{
    let head = v5_write::meta_rel_head(rid, t, index);
    wire::lemma_holds_split(d, pos, head, v5_write::meta_columns(t.columns, index));
    let p1 = wire::put16(rid);
    let p2 = wire::put16(t.src);
    let p3 = wire::put16(t.dst);
    let p4 = wire::put32(index[t.edge_type]);
    let p5 = wire::put32(t.fwd.targets.len() as u32);
    let p6 = wire::put32(t.columns.len() as u32);
    wire::lemma_holds_split(d, pos, p1 + p2 + p3 + p4 + p5, p6);
    wire::lemma_holds_split(d, pos, p1 + p2 + p3 + p4, p5);
    wire::lemma_holds_split(d, pos, p1 + p2 + p3, p4);
    lemma_at32(d, pos + 6, index[t.edge_type]);
    lemma_at32(d, pos + 14, t.columns.len() as u32);
    assert(index[t.edge_type] < dict.len());
    lemma_meta_columns_read(d, pos + 18, t.columns, index, dict, t.columns.len() as int);
    assert(meta_of_columns(t.columns).take(t.columns.len() as int) =~= meta_of_columns(t.columns));
}

/// A node table within the widths of the wire, its name and keys coded.
pub open spec fn node_writable(t: NodeTableView, index: Map<Seq<char>, u32>) -> bool {
    &&& v5_write::table_indexed(t.label, t.columns, index)
    &&& t.rows <= u32::MAX
    &&& t.columns.len() <= u32::MAX
}

/// A relationship table within the widths of the wire, its name and keys
/// coded.
pub open spec fn rel_writable(t: RelTableView, index: Map<Seq<char>, u32>) -> bool {
    &&& v5_write::table_indexed(t.edge_type, t.columns, index)
    &&& t.fwd.targets.len() <= u32::MAX
    &&& t.columns.len() <= u32::MAX
}

proof fn lemma_meta_nodes_read(
    d: Seq<u8>,
    pos: int,
    v: Seq<NodeTableView>,
    index: Map<Seq<char>, u32>,
    dict: Seq<Seq<char>>,
    n: int,
)
    requires
        0 <= n <= v.len(),
        wire::holds_at(d, pos, v5_write::meta_nodes(v, n, index)),
        zone_maps::index_matches(index, dict),
        forall|i: int| 0 <= i < v.len() ==> node_writable(#[trigger] v[i], index),
    ensures
        v5_meta::nodes_at(d, dict, pos, n) == Ok::<(Seq<MetaNodeView>, int), FormatError>(
            (meta_of_nodes(v).take(n), pos + v5_write::meta_nodes(v, n, index).len()),
        ),
    decreases n,
{
    let want = meta_of_nodes(v);
    if n == 0 {
        assert(want.take(0) =~= Seq::empty());
    } else {
        let front = v5_write::meta_nodes(v, n - 1, index);
        let own = v5_write::meta_node_head((n - 1) as u16, v[n - 1], index) + v5_write::meta_columns(
            v[n - 1].columns,
            index,
        );
        wire::lemma_holds_split(d, pos, front, own);
        lemma_meta_nodes_read(d, pos, v, index, dict, n - 1);
        assert(node_writable(v[n - 1], index));
        lemma_meta_node_read(d, pos + front.len(), v[n - 1], (n - 1) as u16, index, dict);
        assert(want.take(n) =~= want.take(n - 1).push(want[n - 1]));
    }
}

proof fn lemma_meta_rels_read(
    d: Seq<u8>,
    pos: int,
    v: Seq<RelTableView>,
    index: Map<Seq<char>, u32>,
    dict: Seq<Seq<char>>,
    n: int,
)
    requires
        0 <= n <= v.len(),
        wire::holds_at(d, pos, v5_write::meta_rels(v, n, index)),
        zone_maps::index_matches(index, dict),
        forall|i: int| 0 <= i < v.len() ==> rel_writable(#[trigger] v[i], index),
    ensures
        v5_meta::rels_at(d, dict, pos, n) == Ok::<(Seq<MetaRelView>, int), FormatError>(
            (meta_of_rels(v).take(n), pos + v5_write::meta_rels(v, n, index).len()),
        ),
    decreases n,
{
    let want = meta_of_rels(v);
    if n == 0 {
        assert(want.take(0) =~= Seq::empty());
    } else {
        let front = v5_write::meta_rels(v, n - 1, index);
        let own = v5_write::meta_rel_head((n - 1) as u16, v[n - 1], index) + v5_write::meta_columns(
            v[n - 1].columns,
            index,
        );
        wire::lemma_holds_split(d, pos, front, own);
        lemma_meta_rels_read(d, pos, v, index, dict, n - 1);
        assert(rel_writable(v[n - 1], index));
        lemma_meta_rel_read(d, pos + front.len(), v[n - 1], (n - 1) as u16, index, dict);
        assert(want.take(n) =~= want.take(n - 1).push(want[n - 1]));
    }
}

/// Metadata that was written reads back as the names, keys, encodings and
/// counts of the store.
pub proof fn lemma_metadata_round_trip(
    s: StoreView,
    index: Map<Seq<char>, u32>,
    dict: Seq<Seq<char>>,
)
    requires
        zone_maps::index_matches(index, dict),
        s.nodes.len() <= u32::MAX,
        s.rels.len() <= u32::MAX,
        forall|i: int| 0 <= i < s.nodes.len() ==> node_writable(#[trigger] s.nodes[i], index),
        forall|i: int| 0 <= i < s.rels.len() ==> rel_writable(#[trigger] s.rels[i], index),
    ensures
        v5_meta::metadata_of(v5_write::metadata_image(s, index), dict) == Ok::<MetaView, FormatError>(
            meta_of_store(s),
        ),
{
    let d = v5_write::metadata_image(s, index);
    let nn = s.nodes.len() as int;
    let nr = s.rels.len() as int;
    let a = wire::put32(s.nodes.len() as u32);
    let b = v5_write::meta_nodes(s.nodes, nn, index);
    let c = wire::put32(s.rels.len() as u32);
    let e = v5_write::meta_rels(s.rels, nr, index);
    let f = wire::put64(v5_write::node_total(s.nodes, nn) as u64);
    let g = wire::put64(v5_write::edge_total(s.rels, nr) as u64);
    wire::lemma_holds_all(d);
    wire::lemma_holds_split(d, 0, a + b + c + e + f, g);
    wire::lemma_holds_split(d, 0, a + b + c + e, f);
    wire::lemma_holds_split(d, 0, a + b + c, e);
    wire::lemma_holds_split(d, 0, a + b, c);
    wire::lemma_holds_split(d, 0, a, b);
    lemma_at32(d, 0, s.nodes.len() as u32);
    lemma_meta_nodes_read(d, 4, s.nodes, index, dict, nn);
    assert(meta_of_nodes(s.nodes).take(nn) =~= meta_of_nodes(s.nodes));
    lemma_at32(d, 4int + b.len(), s.rels.len() as u32);
    lemma_meta_rels_read(d, 8int + b.len(), s.rels, index, dict, nr);
    assert(meta_of_rels(s.rels).take(nr) =~= meta_of_rels(s.rels));
    lemma_at64(d, 8int + b.len() + e.len(), v5_write::node_total(s.nodes, nn) as u64);
    lemma_at64(d, 16int + b.len() + e.len(), v5_write::edge_total(s.rels, nr) as u64);
}

proof fn lemma_node_dir_at(v: Seq<NodeTableView>, n: int, i: int)
    requires
        0 <= n,
    ensures
        v5_write::node_dir_image(v, n).len() == 24 * n,
        0 <= i < n ==> wire::holds_at(
            v5_write::node_dir_image(v, n),
            24 * i,
            v5_write::node_dir_record(i as u16, v5_write::node_columns(v, i).len() as u32, v[i]),
        ),
    decreases n,
{
    if n > 0 {
        lemma_node_dir_at(v, n - 1, i);
        let front = v5_write::node_dir_image(v, n - 1);
        let rec = v5_write::node_dir_record(
            (n - 1) as u16,
            v5_write::node_columns(v, n - 1).len() as u32,
            v[n - 1],
        );
        let d = v5_write::node_dir_image(v, n);
        if i == n - 1 {
            assert(d.subrange(24 * i, 24 * i + rec.len()) =~= rec);
        } else if 0 <= i < n - 1 {
            let r = v5_write::node_dir_record(i as u16, v5_write::node_columns(v, i).len() as u32, v[i]);
            assert(d.subrange(24 * i, 24 * i + 24) =~= front.subrange(24 * i, 24 * i + 24));
        }
    }
}

/// A record of the node table directory reads back.
pub proof fn lemma_node_rec(v: Seq<NodeTableView>, n: int, i: int)
    requires
        0 <= i < n <= v.len(),
    ensures
        v5_meta::node_rec_at(v5_write::node_dir_image(v, n), i) == Ok::<NodeTableRec, FormatError>(
            NodeTableRec {
                id: i as u16,
                column_start: v5_write::node_columns(v, i).len() as u32,
                column_count: v[i].columns.len() as u32,
                row_count: v[i].rows as u64,
            },
        ),
{
    let d = v5_write::node_dir_image(v, n);
    lemma_node_dir_at(v, n, i);
    let o = 24 * i;
    let a = wire::put16(i as u16);
    let b = wire::put16(0);
    let c = wire::put32(v5_write::node_columns(v, i).len() as u32);
    let e = wire::put32(v[i].columns.len() as u32);
    let f = wire::put64(v[i].rows as u64);
    let g = wire::put32(0);
    wire::lemma_holds_split(d, o, a + b + c + e + f, g);
    wire::lemma_holds_split(d, o, a + b + c + e, f);
    wire::lemma_holds_split(d, o, a + b + c, e);
    wire::lemma_holds_split(d, o, a + b, c);
    wire::lemma_holds_split(d, o, a, b);
    lemma_at16(d, o, i as u16);
    lemma_at16(d, o + 2, 0);
    lemma_at32(d, o + 4, v5_write::node_columns(v, i).len() as u32);
    lemma_at32(d, o + 8, v[i].columns.len() as u32);
    lemma_at64(d, o + 12, v[i].rows as u64);
    lemma_at32(d, o + 20, 0);
}

proof fn lemma_rel_dir_at(v: Seq<RelTableView>, n: int, base: int, i: int)
    requires
        0 <= n,
    ensures
        v5_write::rel_dir_image(v, n, base).len() == 24 * n,
        0 <= i < n ==> wire::holds_at(
            v5_write::rel_dir_image(v, n, base),
            24 * i,
            v5_write::rel_dir_record(i as u16, (base + v5_write::rel_columns(v, i).len()) as u32, v[i]),
        ),
    decreases n,
{
    if n > 0 {
        lemma_rel_dir_at(v, n - 1, base, i);
        let front = v5_write::rel_dir_image(v, n - 1, base);
        let rec = v5_write::rel_dir_record(
            (n - 1) as u16,
            (base + v5_write::rel_columns(v, n - 1).len()) as u32,
            v[n - 1],
        );
        let d = v5_write::rel_dir_image(v, n, base);
        if i == n - 1 {
            assert(d.subrange(24 * i, 24 * i + rec.len()) =~= rec);
        } else if 0 <= i < n - 1 {
            assert(d.subrange(24 * i, 24 * i + 24) =~= front.subrange(24 * i, 24 * i + 24));
        }
    }
}

/// A record of the relationship table directory reads back.
pub proof fn lemma_rel_rec(v: Seq<RelTableView>, n: int, base: int, i: int)
    requires
        0 <= i < n <= v.len(),
    ensures
        v5_meta::rel_rec_at(v5_write::rel_dir_image(v, n, base), i) == Ok::<RelTableRec, FormatError>(
            RelTableRec {
                id: i as u16,
                src_tid: v[i].src,
                dst_tid: v[i].dst,
                column_start: (base + v5_write::rel_columns(v, i).len()) as u32,
                column_count: v[i].columns.len() as u32,
                edge_count: v[i].fwd.targets.len() as u64,
            },
        ),
{
    let d = v5_write::rel_dir_image(v, n, base);
    lemma_rel_dir_at(v, n, base, i);
    let o = 24 * i;
    let a = wire::put16(i as u16);
    let b = wire::put16(v[i].src);
    let c = wire::put16(v[i].dst);
    let z = wire::put16(0);
    let e = wire::put32((base + v5_write::rel_columns(v, i).len()) as u32);
    let f = wire::put32(v[i].columns.len() as u32);
    let g = wire::put64(v[i].fwd.targets.len() as u64);
    wire::lemma_holds_split(d, o, a + b + c + z + e + f, g);
    wire::lemma_holds_split(d, o, a + b + c + z + e, f);
    wire::lemma_holds_split(d, o, a + b + c + z, e);
    wire::lemma_holds_split(d, o, a + b + c, z);
    wire::lemma_holds_split(d, o, a + b, c);
    wire::lemma_holds_split(d, o, a, b);
    lemma_at16(d, o, i as u16);
    lemma_at16(d, o + 2, v[i].src);
    lemma_at16(d, o + 4, v[i].dst);
    lemma_at16(d, o + 6, 0);
    lemma_at32(d, o + 8, (base + v5_write::rel_columns(v, i).len()) as u32);
    lemma_at32(d, o + 12, v[i].columns.len() as u32);
    lemma_at64(d, o + 16, v[i].fwd.targets.len() as u64);
}

proof fn lemma_bodies_at(cols: Seq<ColumnView>, index: Map<Seq<char>, u32>, i: int)
    requires
        0 <= i < cols.len(),
    ensures
        wire::holds_at(
            v5_write::bodies_image(cols, index),
            v5_write::bodies_image(cols.take(i), index).len() as int,
            v5_write::column_body(cols[i], index),
        ),
        wire::holds_at(
            v5_write::block_index_image(cols, index),
            12 * i,
            v5_write::block_index_record(
                v5_write::bodies_image(cols.take(i), index).len() as u32,
                v5_write::column_body(cols[i], index).len() as u32,
                tables::column_rows(cols[i]) as u32,
            ),
        ),
        v5_write::block_index_image(cols, index).len() == 12 * cols.len(),
        v5_write::bodies_image(cols.take(i), index).len() <= v5_write::bodies_image(cols, index).len(),
    decreases cols.len(),
{
    let w = cols.drop_last();
    let n = cols.len() - 1;
    let bd = v5_write::bodies_image(cols, index);
    let bi = v5_write::block_index_image(cols, index);
    let fd = v5_write::bodies_image(w, index);
    let fi = v5_write::block_index_image(w, index);
    lemma_block_index_len(w, index);
    if i == n {
        assert(cols.take(i) =~= w);
        let c = v5_write::column_body(cols[i], index);
        assert(bd.subrange(fd.len() as int, fd.len() as int + c.len()) =~= c);
        let r = v5_write::block_index_record(
            fd.len() as u32,
            c.len() as u32,
            tables::column_rows(cols[i]) as u32,
        );
        assert(bi.subrange(12 * i, 12 * i + r.len()) =~= r);
    } else {
        lemma_bodies_at(w, index, i);
        assert(w.take(i) =~= cols.take(i));
        let p = v5_write::bodies_image(cols.take(i), index).len() as int;
        let c = v5_write::column_body(cols[i], index);
        assert(bd.subrange(p, p + c.len()) =~= fd.subrange(p, p + c.len()));
        assert(bi.subrange(12 * i, 12 * i + 12) =~= fi.subrange(12 * i, 12 * i + 12));
    }
}

proof fn lemma_block_index_len(cols: Seq<ColumnView>, index: Map<Seq<char>, u32>)
    ensures
        v5_write::block_index_image(cols, index).len() == 12 * cols.len(),
    decreases cols.len(),
{
    if cols.len() > 0 {
        lemma_block_index_len(cols.drop_last(), index);
    }
}

/// The body of a column is found through the block index.
pub proof fn lemma_body_found(cols: Seq<ColumnView>, index: Map<Seq<char>, u32>, i: int)
    requires
        0 <= i < cols.len(),
        v5_write::bodies_image(cols, index).len() <= u32::MAX,
    ensures
        v5_read::body_of_column(v5_write::block_index_image(cols, index), v5_write::bodies_image(cols, index), i) == Ok::<
            Seq<u8>,
            FormatError,
        >(v5_write::column_body(cols[i], index)),
{
    lemma_bodies_at(cols, index, i);
    let d = v5_write::block_index_image(cols, index);
    let start = v5_write::bodies_image(cols.take(i), index).len();
    let c = v5_write::column_body(cols[i], index);
    let a = wire::put32(start as u32);
    let b = wire::put32(c.len() as u32);
    let e = wire::put32(tables::column_rows(cols[i]) as u32);
    wire::lemma_holds_split(d, 12 * i, a + b, e);
    wire::lemma_holds_split(d, 12 * i, a, b);
    lemma_at32(d, 12 * i, start as u32);
    lemma_at32(d, 12 * i + 4, c.len() as u32);
}

/// A column whose encoded bytes start with its encoding number.
pub open spec fn column_tagged(c: ColumnView) -> bool {
    c matches ColumnView::Flat { kind, body, .. } ==> body.len() > 0 && body[0] == tables::flat_disc(kind)
}

/// What a column body reads as.
pub open spec fn body_of(c: ColumnView, index: Map<Seq<char>, u32>) -> BodyView {
    match c {
        ColumnView::Dict { entries, codes } => BodyView::Codes(
            v5_write::global_codes(entries, codes, index),
        ),
        ColumnView::Flat { body, .. } => BodyView::Encoded(body),
    }
}

/// A column body reads back: the codes of a text column, the bytes of any
/// other.
pub proof fn lemma_body_read(c: ColumnView, index: Map<Seq<char>, u32>)
    requires
        column_tagged(c),
        tables::column_rows(c) <= u32::MAX,
    ensures
        v5_read::body_read(v5_write::column_body(c, index)) == Ok::<BodyView, FormatError>(body_of(c, index)),
{
    match c {
        ColumnView::Dict { entries, codes } => {
            let g = v5_write::global_codes(entries, codes, index);
            let d = v5_write::text_column_body(codes.len(), g);
            let a = seq![1u8];
            let b = wire::put32(codes.len() as u32);
            let e = views::bytes_of_u32s(g);
            wire::lemma_holds_all(d);
            wire::lemma_holds_split(d, 0, a + b, e);
            wire::lemma_holds_split(d, 0, a, b);
            lemma_at32(d, 1, codes.len() as u32);
            assert(d[0] == 1);
            views::lemma_u32s_round_trip(g);
            wire::lemma_flat_len(g, |v: u32| wire::put32(v), 4);
        },
        ColumnView::Flat { kind, rows, body } => {},
    }
}

/// The columns of a table as they are opened.
pub open spec fn opened_columns(
    columns: Seq<(Seq<char>, ColumnView)>,
    index: Map<Seq<char>, u32>,
) -> Seq<MappedColumnView> {
    Seq::new(
        columns.len(),
        |i: int|
            MappedColumnView {
                key: columns[i].0,
                column_type: v5_read::type_of_disc(tables::column_disc(columns[i].1)),
                body: body_of(columns[i].1, index),
            },
    )
}

/// Columns that can be read back.
pub open spec fn columns_tagged(columns: Seq<(Seq<char>, ColumnView)>) -> bool {
    forall|i: int|
        0 <= i < columns.len() ==> column_tagged((#[trigger] columns[i]).1) && tables::column_rows(
            columns[i].1,
        ) <= u32::MAX
}

/// The columns of a table read back, wherever they stand among all columns.
pub proof fn lemma_columns_read_back(
    columns: Seq<(Seq<char>, ColumnView)>,
    cols: Seq<ColumnView>,
    index: Map<Seq<char>, u32>,
    start: int,
    n: int,
)
    requires
        0 <= n <= columns.len(),
        0 <= start,
        start + columns.len() <= cols.len(),
        forall|i: int| 0 <= i < columns.len() ==> cols[start + i] == (#[trigger] columns[i]).1,
        v5_write::bodies_image(cols, index).len() <= u32::MAX,
        columns_tagged(columns),
    ensures
        v5_read::columns_read(
            meta_of_columns(columns),
            v5_write::block_index_image(cols, index),
            v5_write::bodies_image(cols, index),
            start,
            n,
        ) == Ok::<Seq<MappedColumnView>, FormatError>(opened_columns(columns, index).take(n)),
    decreases n,
{
    let want = opened_columns(columns, index);
    if n == 0 {
        assert(want.take(0) =~= Seq::empty());
    } else {
        lemma_columns_read_back(columns, cols, index, start, n - 1);
        let c = columns[n - 1];
        assert(cols[start + (n - 1)] == c.1);
        lemma_body_found(cols, index, start + n - 1);
        lemma_body_read(c.1, index);
        assert(want.take(n) =~= want.take(n - 1).push(want[n - 1]));
    }
}

proof fn lemma_words_at(a: Seq<u32>, w: Seq<u32>, b: Seq<u32>)
    ensures
        v5_read::words_at(views::bytes_of_u32s(a + w + b), a.len() as int, w.len() as int) == Ok::<
            Seq<u32>,
            FormatError,
        >(w),
{
    let all = a + w + b;
    let d = views::bytes_of_u32s(all);
    let f = |v: u32| wire::put32(v);
    wire::lemma_flat_add(a + w, b, f);
    wire::lemma_flat_add(a, w, f);
    wire::lemma_flat_len(a, f, 4);
    wire::lemma_flat_len(w, f, 4);
    wire::lemma_flat_len(b, f, 4);
    views::lemma_u32s_round_trip(w);
    let k = a.len() as int;
    assert(d.subrange(4 * k, 4 * (k + w.len())) =~= views::bytes_of_u32s(w));
}

proof fn lemma_csr_prefix(v: Seq<RelTableView>, i: int, n: int)
    requires
        0 <= i <= n <= v.len(),
    ensures
        exists|r: Seq<u32>| v5_write::fwd_offsets(v, n) == #[trigger] (v5_write::fwd_offsets(v, i) + r),
        exists|r: Seq<u32>| v5_write::fwd_targets(v, n) == #[trigger] (v5_write::fwd_targets(v, i) + r),
        exists|r: Seq<u32>| v5_write::rev_offsets(v, n) == #[trigger] (v5_write::rev_offsets(v, i) + r),
        exists|r: Seq<u32>| v5_write::rev_targets(v, n) == #[trigger] (v5_write::rev_targets(v, i) + r),
        exists|r: Seq<u32>| v5_write::rev_positions(v, n) == #[trigger] (v5_write::rev_positions(v, i) + r),
    decreases n,
{
    if i == n {
        let e = Seq::<u32>::empty();
        assert(v5_write::fwd_offsets(v, n) =~= v5_write::fwd_offsets(v, i) + e);
        assert(v5_write::fwd_targets(v, n) =~= v5_write::fwd_targets(v, i) + e);
        assert(v5_write::rev_offsets(v, n) =~= v5_write::rev_offsets(v, i) + e);
        assert(v5_write::rev_targets(v, n) =~= v5_write::rev_targets(v, i) + e);
        assert(v5_write::rev_positions(v, n) =~= v5_write::rev_positions(v, i) + e);
    } else {
        lemma_csr_prefix(v, i, n - 1);
        let t = v[n - 1];
        let r1 = choose|r: Seq<u32>|
            v5_write::fwd_offsets(v, n - 1) == #[trigger] (v5_write::fwd_offsets(v, i) + r);
        assert(v5_write::fwd_offsets(v, n) =~= v5_write::fwd_offsets(v, i) + (r1 + t.fwd.offsets));
        let r2 = choose|r: Seq<u32>|
            v5_write::fwd_targets(v, n - 1) == #[trigger] (v5_write::fwd_targets(v, i) + r);
        assert(v5_write::fwd_targets(v, n) =~= v5_write::fwd_targets(v, i) + (r2 + t.fwd.targets));
        let r3 = choose|r: Seq<u32>|
            v5_write::rev_offsets(v, n - 1) == #[trigger] (v5_write::rev_offsets(v, i) + r);
        assert(v5_write::rev_offsets(v, n) =~= v5_write::rev_offsets(v, i) + (r3 + v5_write::csr_offsets(t.bwd)));
        let r4 = choose|r: Seq<u32>|
            v5_write::rev_targets(v, n - 1) == #[trigger] (v5_write::rev_targets(v, i) + r);
        assert(v5_write::rev_targets(v, n) =~= v5_write::rev_targets(v, i) + (r4 + v5_write::csr_targets(t.bwd)));
        let r5 = choose|r: Seq<u32>|
            v5_write::rev_positions(v, n - 1) == #[trigger] (v5_write::rev_positions(v, i) + r);
        assert(v5_write::rev_positions(v, n) =~= v5_write::rev_positions(v, i) + (r5 + v5_write::csr_positions(t.bwd)));
    }
}

/// The adjacency of table `i` reads back from where it starts.
pub proof fn lemma_csr_read_back(v: Seq<RelTableView>, n: int, i: int)
    requires
        0 <= i < n <= v.len(),
    ensures
        v5_read::words_at(
            views::bytes_of_u32s(v5_write::fwd_offsets(v, n)),
            v5_write::fwd_offsets(v, i).len() as int,
            v[i].fwd.offsets.len() as int,
        ) == Ok::<Seq<u32>, FormatError>(v[i].fwd.offsets),
        v5_read::words_at(
            views::bytes_of_u32s(v5_write::fwd_targets(v, n)),
            v5_write::fwd_targets(v, i).len() as int,
            v[i].fwd.targets.len() as int,
        ) == Ok::<Seq<u32>, FormatError>(v[i].fwd.targets),
        v5_read::words_at(
            views::bytes_of_u32s(v5_write::rev_offsets(v, n)),
            v5_write::rev_offsets(v, i).len() as int,
            v5_write::csr_offsets(v[i].bwd).len() as int,
        ) == Ok::<Seq<u32>, FormatError>(v5_write::csr_offsets(v[i].bwd)),
        v5_read::words_at(
            views::bytes_of_u32s(v5_write::rev_targets(v, n)),
            v5_write::rev_targets(v, i).len() as int,
            v5_write::csr_targets(v[i].bwd).len() as int,
        ) == Ok::<Seq<u32>, FormatError>(v5_write::csr_targets(v[i].bwd)),
        v5_read::words_at(
            views::bytes_of_u32s(v5_write::rev_positions(v, n)),
            v5_write::rev_positions(v, i).len() as int,
            v5_write::csr_positions(v[i].bwd).len() as int,
        ) == Ok::<Seq<u32>, FormatError>(v5_write::csr_positions(v[i].bwd)),
{
    lemma_csr_prefix(v, i + 1, n);
    let t = v[i];
    let r1 = choose|r: Seq<u32>| v5_write::fwd_offsets(v, n) == #[trigger] (v5_write::fwd_offsets(v, i + 1) + r);
    lemma_words_at(v5_write::fwd_offsets(v, i), t.fwd.offsets, r1);
    let r2 = choose|r: Seq<u32>| v5_write::fwd_targets(v, n) == #[trigger] (v5_write::fwd_targets(v, i + 1) + r);
    lemma_words_at(v5_write::fwd_targets(v, i), t.fwd.targets, r2);
    let r3 = choose|r: Seq<u32>| v5_write::rev_offsets(v, n) == #[trigger] (v5_write::rev_offsets(v, i + 1) + r);
    lemma_words_at(v5_write::rev_offsets(v, i), v5_write::csr_offsets(t.bwd), r3);
    let r4 = choose|r: Seq<u32>| v5_write::rev_targets(v, n) == #[trigger] (v5_write::rev_targets(v, i + 1) + r);
    lemma_words_at(v5_write::rev_targets(v, i), v5_write::csr_targets(t.bwd), r4);
    let r5 = choose|r: Seq<u32>| v5_write::rev_positions(v, n) == #[trigger] (v5_write::rev_positions(v, i + 1) + r);
    lemma_words_at(v5_write::rev_positions(v, i), v5_write::csr_positions(t.bwd), r5);
}

} // verus!
