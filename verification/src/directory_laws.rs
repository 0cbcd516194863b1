//! The directories and the metadata written from the passes of a build are
//! those of the serialized store.

use crate::column_pass::GeometryView;
use crate::edge_pass::RelKey;
use crate::emit_columns::{BodySize, EmittedColumn, TableColumns};
use crate::emit_columns;
use crate::emit_meta;
use crate::emit_metadata::Described;
use crate::emit_metadata;
use crate::generation::GenerationError;
use crate::tables::{ColumnView, NodeTableView, RelTableView, StoreView};
use crate::tables;
use crate::v5_write;
use crate::wire;
use vstd::prelude::*;

verus! {

/// The columns of a table are numbered one after the other from `start`.
pub open spec fn numbered_from(t: TableColumns, start: int, count: nat) -> bool {
    t.columns@.len() == count && (count > 0 ==> t.columns@[0] == start)
}

/// The tables are a store's node tables.
pub open spec fn lists_node_tables(v: Seq<TableColumns>, s: StoreView) -> bool {
    &&& v.len() == s.nodes.len()
    &&& forall|t: int|
        0 <= t < v.len() ==> (#[trigger] v[t]).table_id == t && v[t].rows == s.nodes[t].rows
            && numbered_from(
            v[t],
            v5_write::node_columns(s.nodes, t).len() as int,
            s.nodes[t].columns.len(),
        )
}

/// The tables are a store's relationship tables.
pub open spec fn lists_rel_tables(v: Seq<TableColumns>, s: StoreView) -> bool {
    let base = v5_write::node_columns(s.nodes, s.nodes.len() as int).len();
    &&& v.len() == s.rels.len()
    &&& forall|t: int|
        0 <= t < v.len() ==> (#[trigger] v[t]).table_id == t && v[t].src == s.rels[t].src
            && v[t].dst == s.rels[t].dst && v[t].rows == s.rels[t].fwd.targets.len()
            && numbered_from(
            v[t],
            (base + v5_write::rel_columns(s.rels, t).len()) as int,
            s.rels[t].columns.len(),
        )
}

/// The columns are a store's columns, their bodies one behind the other.
pub open spec fn lists_columns(
    v: Seq<EmittedColumn>,
    cols: Seq<ColumnView>,
    index: Map<Seq<char>, u32>,
) -> bool {
    &&& v.len() == cols.len()
    &&& forall|i: int|
        0 <= i < v.len() ==> emit_meta::codec_code((#[trigger] v[i]).kind) == tables::column_disc(cols[i])
            && v[i].column_index == i && v[i].codec_len == tables::column_rows(cols[i]) && v[i].body_start
            == v5_write::bodies_image(cols.take(i), index).len() && v[i].body_len == v5_write::column_body(
            cols[i],
            index,
        ).len()
}

proof fn lemma_node_directory(v: Seq<TableColumns>, s: StoreView, n: int)
    requires
        lists_node_tables(v, s),
        0 <= n <= v.len(),
        s.nodes.len() <= u16::MAX,
    ensures
        emit_columns::node_records_of(v, n) == v5_write::node_dir_image(s.nodes, n),
        emit_columns::running_column(v, n, 0) == v5_write::node_columns(s.nodes, n).len(),
    decreases n,
{
    if n > 0 {
        lemma_node_directory(v, s, n - 1);
        assert(v[n - 1].table_id == n - 1);
    }
}

proof fn lemma_rel_directory(v: Seq<TableColumns>, s: StoreView, n: int)
    requires
        lists_rel_tables(v, s),
        0 <= n <= v.len(),
        s.rels.len() <= u16::MAX,
    ensures
        ({
            let base = v5_write::node_columns(s.nodes, s.nodes.len() as int).len() as int;
            &&& emit_columns::rel_records_of(v, n, base) == v5_write::rel_dir_image(s.rels, n, base)
            &&& emit_columns::running_column(v, n, base) == base + v5_write::rel_columns(s.rels, n).len()
        }),
    decreases n,
{
    if n > 0 {
        lemma_rel_directory(v, s, n - 1);
        assert(v[n - 1].table_id == n - 1);
    }
}

proof fn lemma_column_directory(
    v: Seq<EmittedColumn>,
    cols: Seq<ColumnView>,
    index: Map<Seq<char>, u32>,
    n: int,
)
    requires
        lists_columns(v, cols, index),
        0 <= n <= v.len(),
    ensures
        emit_columns::column_records(v.take(n)) == v5_write::column_dir_image(cols.take(n)),
        emit_columns::block_records(v.take(n)) == v5_write::block_index_image(cols.take(n), index),
    decreases n,
{
    if n > 0 {
        let f = |c: EmittedColumn| emit_columns::column_record(c.kind, c.column_index, c.codec_len);
        let h = |c: EmittedColumn| emit_columns::block_record(c.body_start, c.body_len, c.codec_len);
        lemma_column_directory(v, cols, index, n - 1);
        let x = v[n - 1];
        assert(x.column_index == n - 1);
        wire::lemma_flat_push(v.take(n - 1), x, f);
        wire::lemma_flat_push(v.take(n - 1), x, h);
        assert(v.take(n) =~= v.take(n - 1).push(x));
        assert(cols.take(n).drop_last() =~= cols.take(n - 1));
        assert(cols.take(n).last() == cols[n - 1]);
    } else {
        assert(v.take(0) =~= Seq::empty());
        assert(cols.take(0) =~= Seq::empty());
    }
}

/// Directories written from a store's tables and emitted columns are, byte for
/// byte, those of the serialized store.
pub proof fn lemma_directories_are_the_serialized(
    columns: Seq<EmittedColumn>,
    node_tables: Seq<TableColumns>,
    rel_tables: Seq<TableColumns>,
    s: StoreView,
    index: Map<Seq<char>, u32>,
)
    requires
        s.nodes.len() <= u16::MAX,
        s.rels.len() <= u16::MAX,
        lists_columns(columns, v5_write::all_columns(s), index),
        lists_node_tables(node_tables, s),
        lists_rel_tables(rel_tables, s),
    ensures
        emit_columns::column_records(columns) == v5_write::column_dir_image(v5_write::all_columns(s)),
        emit_columns::block_records(columns) == v5_write::block_index_image(v5_write::all_columns(s), index),
        emit_columns::node_records_of(node_tables, node_tables.len() as int) == v5_write::node_dir_image(
            s.nodes,
            s.nodes.len() as int,
        ),
        emit_columns::rel_records_of(
            rel_tables,
            rel_tables.len() as int,
            emit_columns::running_column(node_tables, node_tables.len() as int, 0),
        ) == v5_write::rel_dir_image(
            s.rels,
            s.rels.len() as int,
            v5_write::node_columns(s.nodes, s.nodes.len() as int).len() as int,
        ),
{
    let cols = v5_write::all_columns(s);
    lemma_node_directory(node_tables, s, node_tables.len() as int);
    lemma_rel_directory(rel_tables, s, rel_tables.len() as int);
    lemma_column_directory(columns, cols, index, columns.len() as int);
    assert(columns.take(columns.len() as int) =~= columns);
    assert(cols.take(cols.len() as int) =~= cols);
}

/// Placed columns list a store's columns where the geometries tell the stored
/// encodings and the sizes are those of the bodies.
pub proof fn lemma_placed_columns_are_listed(
    columns: Seq<EmittedColumn>,
    geometries: Seq<GeometryView>,
    sizes: Seq<BodySize>,
    cols: Seq<ColumnView>,
    index: Map<Seq<char>, u32>,
)
    requires
        columns.len() == geometries.len(),
        sizes.len() == geometries.len(),
        cols.len() == geometries.len(),
        cols.len() <= u32::MAX,
        forall|i: int|
            0 <= i < columns.len() ==> emit_columns::is_placed(#[trigger] columns[i], geometries[i], sizes, i),
        forall|i: int|
            0 <= i < cols.len() ==> emit_meta::codec_code(emit_columns::kind_of(geometries[i])) == tables::column_disc(
                #[trigger] cols[i],
            ) && sizes[i].bytes == v5_write::column_body(cols[i], index).len() && sizes[i].rows
                == tables::column_rows(cols[i]),
    ensures
        lists_columns(columns, cols, index),
{
    assert forall|i: int| 0 <= i < columns.len() implies emit_meta::codec_code((#[trigger] columns[i]).kind)
        == tables::column_disc(cols[i]) && columns[i].column_index == i && columns[i].codec_len
        == tables::column_rows(cols[i]) && columns[i].body_start == v5_write::bodies_image(
        cols.take(i),
        index,
    ).len() && columns[i].body_len == v5_write::column_body(cols[i], index).len() by {
        assert(emit_columns::is_placed(columns[i], geometries[i], sizes, i));
        assert(cols[i] == cols[i]);
        lemma_body_start(sizes, cols, index, i);
    }
}

proof fn lemma_body_start(
    sizes: Seq<BodySize>,
    cols: Seq<ColumnView>,
    index: Map<Seq<char>, u32>,
    n: int,
)
    requires
        sizes.len() == cols.len(),
        0 <= n <= cols.len(),
        forall|i: int|
            0 <= i < cols.len() ==> sizes[i].bytes == v5_write::column_body(#[trigger] cols[i], index).len(),
    ensures
        emit_columns::body_start(sizes, n) == v5_write::bodies_image(cols.take(n), index).len(),
    decreases n,
{
    if n > 0 {
        lemma_body_start(sizes, cols, index, n - 1);
        assert(cols.take(n).drop_last() =~= cols.take(n - 1));
        assert(cols.take(n).last() == cols[n - 1]);
    }
}

// ---------------------------------------------------------------- metadata

/// A table's columns are described as they are stored: every key has a code,
/// and the geometry listed for it tells the stored encoding.
pub open spec fn columns_described(
    d: Described,
    table: u16,
    keys: Seq<Seq<char>>,
    columns: Seq<(Seq<char>, ColumnView)>,
) -> bool {
    &&& keys.len() == columns.len()
    &&& forall|i: int|
        0 <= i < columns.len() ==> (#[trigger] columns[i]).0 == keys[i] && d.index.dom().contains(
            keys[i],
        ) && emit_meta::codec_code(emit_metadata::listed_kind(d.geometries, table, keys[i], d.geometries.len() as int))
            == tables::column_disc(columns[i].1)
}

proof fn lemma_described_columns(
    d: Described,
    table: u16,
    keys: Seq<Seq<char>>,
    columns: Seq<(Seq<char>, ColumnView)>,
    n: int,
)
    requires
        columns_described(d, table, keys, columns),
        0 <= n <= columns.len(),
    ensures
        emit_metadata::described_columns(d, table, keys, n) == Ok::<Seq<u8>, GenerationError>(
            v5_write::meta_columns(columns.take(n), d.index),
        ),
    decreases n,
{
    let f = |c: (Seq<char>, ColumnView)| v5_write::meta_column(c, d.index);
    if n > 0 {
        lemma_described_columns(d, table, keys, columns, n - 1);
        let c = columns[n - 1];
        assert(c.0 == keys[n - 1]);
        wire::lemma_flat_push(columns.take(n - 1), c, f);
        assert(columns.take(n) =~= columns.take(n - 1).push(c));
        assert(emit_metadata::described_columns(d, table, keys, n)->Ok_0 =~= v5_write::meta_columns(
            columns.take(n),
            d.index,
        ));
    } else {
        assert(columns.take(0) =~= Seq::empty());
        assert(emit_metadata::described_columns(d, table, keys, 0)->Ok_0 =~= v5_write::meta_columns(
            columns.take(0),
            d.index,
        ));
    }
}

/// The node tables of a build as a store holds them.
pub open spec fn nodes_described(
    d: Described,
    labels: Seq<Seq<char>>,
    counts: Seq<u64>,
    keys: Seq<Seq<Seq<char>>>,
    v: Seq<NodeTableView>,
) -> bool {
    &&& labels.len() == v.len()
    &&& v.len() <= u16::MAX
    &&& forall|t: int|
        0 <= t < v.len() ==> (#[trigger] v[t]).label == labels[t] && v[t].rows == counts[t]
            && d.index.dom().contains(labels[t]) && columns_described(
            d,
            t as u16,
            keys[t],
            v[t].columns,
        )
}

/// The relationship tables of a build as a store holds them.
pub open spec fn rels_described(
    d: Described,
    tables: Seq<RelKey>,
    counts: Seq<u64>,
    keys: Seq<Seq<Seq<char>>>,
    v: Seq<RelTableView>,
) -> bool {
    &&& tables.len() == v.len()
    &&& v.len() <= u16::MAX
    &&& forall|t: int|
        0 <= t < v.len() ==> (#[trigger] v[t]).edge_type == tables[t].0 && v[t].src == tables[t].1
            && v[t].dst == tables[t].2 && v[t].fwd.targets.len() == counts[t]
            && d.index.dom().contains(tables[t].0) && columns_described(
            d,
            0x8000u16 | (t as u16),
            keys[t],
            v[t].columns,
        )
}

proof fn lemma_described_nodes(
    d: Described,
    labels: Seq<Seq<char>>,
    counts: Seq<u64>,
    keys: Seq<Seq<Seq<char>>>,
    v: Seq<NodeTableView>,
    n: int,
)
    requires
        nodes_described(d, labels, counts, keys, v),
        0 <= n <= v.len(),
    ensures
        emit_metadata::described_nodes(d, labels, counts, keys, n) == Ok::<Seq<u8>, GenerationError>(
            v5_write::meta_nodes(v, n, d.index),
        ),
    decreases n,
{
    if n > 0 {
        let t = v[n - 1];
        lemma_described_nodes(d, labels, counts, keys, v, n - 1);
        assert(t.label == labels[n - 1]);
        lemma_described_columns(
            d,
            (n - 1) as u16,
            keys[n - 1],
            t.columns,
            t.columns.len() as int,
        );
        assert(t.columns.take(t.columns.len() as int) =~= t.columns);
        assert(emit_metadata::described_nodes(d, labels, counts, keys, n)->Ok_0 =~= v5_write::meta_nodes(v, n, d.index));
    }
}

proof fn lemma_described_rels(
    d: Described,
    tables: Seq<RelKey>,
    counts: Seq<u64>,
    keys: Seq<Seq<Seq<char>>>,
    v: Seq<RelTableView>,
    n: int,
)
    requires
        rels_described(d, tables, counts, keys, v),
        0 <= n <= v.len(),
    ensures
        emit_metadata::described_rels(d, tables, counts, keys, n) == Ok::<Seq<u8>, GenerationError>(
            v5_write::meta_rels(v, n, d.index),
        ),
    decreases n,
{
    if n > 0 {
        let t = v[n - 1];
        lemma_described_rels(d, tables, counts, keys, v, n - 1);
        assert(t.edge_type == tables[n - 1].0);
        lemma_described_columns(
            d,
            0x8000u16 | ((n - 1) as u16),
            keys[n - 1],
            t.columns,
            t.columns.len() as int,
        );
        assert(t.columns.take(t.columns.len() as int) =~= t.columns);
        assert(emit_metadata::described_rels(d, tables, counts, keys, n)->Ok_0 =~= v5_write::meta_rels(v, n, d.index));
    }
}

/// The metadata built from the passes of a build is, byte for byte, that of
/// the serialized store.
pub proof fn lemma_metadata_is_the_serialized(
    d: Described,
    labels: Seq<Seq<char>>,
    node_counts: Seq<u64>,
    node_rows: Seq<Seq<Seq<char>>>,
    tables: Seq<RelKey>,
    rel_counts: Seq<u64>,
    rel_rows: Seq<Seq<Seq<char>>>,
    s: StoreView,
)
    requires
        nodes_described(d, labels, node_counts, node_rows, s.nodes),
        rels_described(d, tables, rel_counts, rel_rows, s.rels),
    ensures
        emit_metadata::described_build(
            d,
            labels,
            node_counts,
            node_rows,
            tables,
            rel_counts,
            rel_rows,
            v5_write::node_total(s.nodes, s.nodes.len() as int) as u64,
            v5_write::edge_total(s.rels, s.rels.len() as int) as u64,
        ) == Ok::<Seq<u8>, GenerationError>(v5_write::metadata_image(s, d.index)),
{
    lemma_described_nodes(d, labels, node_counts, node_rows, s.nodes, s.nodes.len() as int);
    lemma_described_rels(d, tables, rel_counts, rel_rows, s.rels, s.rels.len() as int);
}

} // verus!
