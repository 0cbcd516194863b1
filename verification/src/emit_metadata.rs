//! The metadata segment from what the passes of a build yield.

use crate::column_pass::{ColumnGeometry, GeometryView};
use crate::column_pass;
use crate::edge_pass::{RelKey, RelTableKey};
use crate::edge_pass;
use crate::emit_columns::codec_kind_of;
use crate::emit_columns;
use crate::emit_meta::{CodecKind, w16, w32, w64};
use crate::emit_meta;
use crate::generation::{CodecError, GenerationError};
use crate::text::{TextMap, text_eq};
use crate::text;
use crate::wire;
use vstd::prelude::*;

verus! {

/// The codec of a table's column: that of its last geometry among the first
/// `n`, texts where it has none.
pub open spec fn listed_kind(
    geometries: Seq<GeometryView>,
    table: u16,
    key: Seq<char>,
    n: int,
) -> CodecKind
    decreases n,
{
    if n <= 0 {
        CodecKind::Dict
    } else if geometries[n - 1].table_id == table && geometries[n - 1].key == key {
        emit_columns::kind_of(geometries[n - 1])
    } else {
        listed_kind(geometries, table, key, n - 1)
    }
}

/// Finds the codec of a table's column.
fn find_kind(geometries: &[ColumnGeometry], table: u16, key: &str) -> (r: CodecKind)
    ensures
        r == listed_kind(column_pass::geometry_views(geometries@), table, key@, geometries@.len() as int),
{
    let ghost v = column_pass::geometry_views(geometries@);
    let mut kind: CodecKind = CodecKind::Dict;
    let mut i: usize = 0;
    while i < geometries.len()
        invariant
            i <= geometries@.len(),
            v == column_pass::geometry_views(geometries@),
            kind == listed_kind(v, table, key@, i as int),
        decreases geometries@.len() - i,
    {
        let g: &ColumnGeometry = &geometries[i];
        assert(v[i as int] == g@);
        if g.table_id == table && text_eq(g.key.as_str(), key) {
            kind = codec_kind_of(g);
        }
        i = i + 1;
    }
    kind
}

/// What describes the columns of a build.
pub struct Described {
    /// Codes of the texts.
    pub index: Map<Seq<char>, u32>,
    /// Geometries of the columns.
    pub geometries: Seq<GeometryView>,
}

/// The description of the first `n` columns of a table, or why there is none:
/// key, codec, value type.
pub open spec fn described_columns(
    d: Described,
    table: u16,
    keys: Seq<Seq<char>>,
    n: int,
) -> Result<Seq<u8>, GenerationError>
    decreases n,
{
    if n <= 0 {
        Ok(Seq::empty())
    } else {
        match described_columns(d, table, keys, n - 1) {
            Err(e) => Err(e),
            Ok(b) => if !d.index.dom().contains(keys[n - 1]) {
                Err(GenerationError::Codec(CodecError::NotInterned))
            } else {
                let code = emit_meta::codec_code(
                    listed_kind(d.geometries, table, keys[n - 1], d.geometries.len() as int),
                );
                Ok(b + (wire::put32(d.index[keys[n - 1]]) + wire::put16(code) + wire::put16(code)))
            },
        }
    }
}

/// The description of the first `n` node tables, or why there is none.
pub open spec fn described_nodes(
    d: Described,
    labels: Seq<Seq<char>>,
    counts: Seq<u64>,
    keys: Seq<Seq<Seq<char>>>,
    n: int,
) -> Result<Seq<u8>, GenerationError>
    decreases n,
{
    if n <= 0 {
        Ok(Seq::empty())
    } else {
        let t = n - 1;
        match described_nodes(d, labels, counts, keys, t) {
            Err(e) => Err(e),
            Ok(b) => if !d.index.dom().contains(labels[t]) {
                Err(GenerationError::Codec(CodecError::NotInterned))
            } else {
                match described_columns(d, t as u16, keys[t], keys[t].len() as int) {
                    Err(e) => Err(e),
                    Ok(c) => Ok(
                        b + (wire::put16(t as u16) + wire::put32(d.index[labels[t]]) + wire::put32(counts[t] as u32)
                            + wire::put32(keys[t].len() as u32) + c),
                    ),
                }
            },
        }
    }
}

/// The description of the first `n` relationship tables, or why there is none.
pub open spec fn described_rels(
    d: Described,
    tables: Seq<RelKey>,
    counts: Seq<u64>,
    keys: Seq<Seq<Seq<char>>>,
    n: int,
) -> Result<Seq<u8>, GenerationError>
    decreases n,
{
    if n <= 0 {
        Ok(Seq::empty())
    } else {
        let t = n - 1;
        match described_rels(d, tables, counts, keys, t) {
            Err(e) => Err(e),
            Ok(b) => if !d.index.dom().contains(tables[t].0) {
                Err(GenerationError::Codec(CodecError::NotInterned))
            } else {
                match described_columns(d, 0x8000u16 | (t as u16), keys[t], keys[t].len() as int) {
                    Err(e) => Err(e),
                    Ok(c) => Ok(
                        b + (wire::put16(t as u16) + wire::put16(tables[t].1) + wire::put16(tables[t].2) + wire::put32(
                            d.index[tables[t].0],
                        ) + wire::put32(counts[t] as u32) + wire::put32(keys[t].len() as u32) + c),
                    ),
                }
            },
        }
    }
}

/// The contents of rows of texts.
pub open spec fn key_rows(v: Seq<Vec<String>>) -> Seq<Seq<Seq<char>>> {
    Seq::new(v.len(), |i: int| text::texts(v[i]@))
}

proof fn lemma_columns_fail(d: Described, table: u16, keys: Seq<Seq<char>>, i: int, n: int)
    requires
        i <= n,
        described_columns(d, table, keys, i) is Err,
    ensures
        described_columns(d, table, keys, n) == described_columns(d, table, keys, i),
    decreases n,
{
    if i < n {
        lemma_columns_fail(d, table, keys, i, n - 1);
    }
}

proof fn lemma_nodes_fail(
    d: Described,
    labels: Seq<Seq<char>>,
    counts: Seq<u64>,
    keys: Seq<Seq<Seq<char>>>,
    i: int,
    n: int,
)
    requires
        i <= n,
        described_nodes(d, labels, counts, keys, i) is Err,
    ensures
        described_nodes(d, labels, counts, keys, n) == described_nodes(d, labels, counts, keys, i),
    decreases n,
{
    if i < n {
        lemma_nodes_fail(d, labels, counts, keys, i, n - 1);
    }
}

proof fn lemma_rels_fail(
    d: Described,
    tables: Seq<RelKey>,
    counts: Seq<u64>,
    keys: Seq<Seq<Seq<char>>>,
    i: int,
    n: int,
)
    requires
        i <= n,
        described_rels(d, tables, counts, keys, i) is Err,
    ensures
        described_rels(d, tables, counts, keys, n) == described_rels(d, tables, counts, keys, i),
    decreases n,
{
    if i < n {
        lemma_rels_fail(d, tables, counts, keys, i, n - 1);
    }
}

fn write_columns(
    out: &mut Vec<u8>,
    table: u16,
    keys: &Vec<String>,
    index: &TextMap<u32>,
    geometries: &[ColumnGeometry],
) -> (r: Result<(), GenerationError>)
    ensures
        ({
            let want = described_columns(
                (Described { index: index@, geometries: column_pass::geometry_views(geometries@) }),
                table,
                text::texts(keys@),
                keys@.len() as int,
            );
            match r {
                Ok(_) => want is Ok && final(out)@ == old(out)@ + want->Ok_0,
                Err(e) => want == Err::<Seq<u8>, GenerationError>(e),
            }
        }),
{
    let ghost d = Described { index: index@, geometries: column_pass::geometry_views(geometries@) };
    let ghost k = text::texts(keys@);
    let ghost start = out@;
    let mut i: usize = 0;
    assert(start + Seq::<u8>::empty() =~= start);
    while i < keys.len()
        invariant
            i <= keys@.len(),
            k == text::texts(keys@),
            d == (Described { index: index@, geometries: column_pass::geometry_views(geometries@) }),
            described_columns(d, table, k, i as int) is Ok,
            out@ == start + described_columns(d, table, k, i as int)->Ok_0,
        decreases keys@.len() - i,
    {
        proof {
            assert(k[i as int] == keys@[i as int]@);
            if described_columns(d, table, k, i + 1) is Err {
                lemma_columns_fail(d, table, k, i + 1, k.len() as int);
            }
        }
        let code: u32 = match index.get(keys[i].as_str()) {
            Some(c) => *c,
            None => return Err(GenerationError::Codec(CodecError::NotInterned)),
        };
        let kind: CodecKind = find_kind(geometries, table, keys[i].as_str());
        w32(out, code);
        w16(out, kind.disc());
        w16(out, kind.value_type());
        assert(out@ =~= start + described_columns(d, table, k, i + 1)->Ok_0);
        i = i + 1;
    }
    Ok(())
}

/// The metadata of a build, or why there is none: the node tables with their
/// columns, the relationship tables with theirs, and the totals.
pub open spec fn described_build(
    d: Described,
    labels: Seq<Seq<char>>,
    node_counts: Seq<u64>,
    node_keys: Seq<Seq<Seq<char>>>,
    tables: Seq<RelKey>,
    rel_counts: Seq<u64>,
    property_rows: Seq<Seq<Seq<char>>>,
    total_nodes: u64,
    total_edges: u64,
) -> Result<Seq<u8>, GenerationError> {
    match described_nodes(d, labels, node_counts, node_keys, labels.len() as int) {
        Err(e) => Err(e),
        Ok(a) => match described_rels(d, tables, rel_counts, property_rows, tables.len() as int) {
            Err(e) => Err(e),
            Ok(b) => Ok(
                wire::put32(labels.len() as u32) + a + wire::put32(tables.len() as u32) + b + wire::put64(total_nodes)
                    + wire::put64(total_edges),
            ),
        },
    }
}

fn write_nodes(
    out: &mut Vec<u8>,
    labels: &[String],
    counts: &[u64],
    keys: &[Vec<String>],
    index: &TextMap<u32>,
    geometries: &[ColumnGeometry],
) -> (r: Result<(), GenerationError>)
    requires
        counts@.len() == labels@.len(),
        keys@.len() == labels@.len(),
    ensures
        ({
            let want = described_nodes(
                (Described { index: index@, geometries: column_pass::geometry_views(geometries@) }),
                text::texts(labels@),
                counts@,
                key_rows(keys@),
                labels@.len() as int,
            );
            match r {
                Ok(_) => want is Ok && final(out)@ == old(out)@ + want->Ok_0,
                Err(e) => want == Err::<Seq<u8>, GenerationError>(e),
            }
        }),
{
    let ghost d = Described { index: index@, geometries: column_pass::geometry_views(geometries@) };
    let ghost l = text::texts(labels@);
    let ghost k = key_rows(keys@);
    let ghost start = out@;
    let mut i: usize = 0;
    assert(start + Seq::<u8>::empty() =~= start);
    while i < labels.len()
        invariant
            i <= labels@.len(),
            counts@.len() == labels@.len(),
            keys@.len() == labels@.len(),
            l == text::texts(labels@),
            k == key_rows(keys@),
            d == (Described { index: index@, geometries: column_pass::geometry_views(geometries@) }),
            described_nodes(d, l, counts@, k, i as int) is Ok,
            out@ == start + described_nodes(d, l, counts@, k, i as int)->Ok_0,
        decreases labels@.len() - i,
    {
        proof {
            assert(l[i as int] == labels@[i as int]@);
            assert(k[i as int] == text::texts(keys@[i as int]@));
            if described_nodes(d, l, counts@, k, i + 1) is Err {
                lemma_nodes_fail(d, l, counts@, k, i + 1, l.len() as int);
            }
        }
        let code: u32 = match index.get(labels[i].as_str()) {
            Some(c) => *c,
            None => return Err(GenerationError::Codec(CodecError::NotInterned)),
        };
        w16(out, i as u16);
        w32(out, code);
        w32(out, counts[i] as u32);
        w32(out, keys[i].len() as u32);
        write_columns(out, i as u16, &keys[i], index, geometries)?;
        assert(out@ =~= start + described_nodes(d, l, counts@, k, i + 1)->Ok_0);
        i = i + 1;
    }
    Ok(())
}

fn write_rels(
    out: &mut Vec<u8>,
    tables: &[RelTableKey],
    counts: &[u64],
    keys: &[Vec<String>],
    index: &TextMap<u32>,
    geometries: &[ColumnGeometry],
) -> (r: Result<(), GenerationError>)
    requires
        counts@.len() == tables@.len(),
        keys@.len() == tables@.len(),
    ensures
        ({
            let want = described_rels(
                (Described { index: index@, geometries: column_pass::geometry_views(geometries@) }),
                edge_pass::rel_keys(tables@),
                counts@,
                key_rows(keys@),
                tables@.len() as int,
            );
            match r {
                Ok(_) => want is Ok && final(out)@ == old(out)@ + want->Ok_0,
                Err(e) => want == Err::<Seq<u8>, GenerationError>(e),
            }
        }),
{
    let ghost d = Described { index: index@, geometries: column_pass::geometry_views(geometries@) };
    let ghost l = edge_pass::rel_keys(tables@);
    let ghost k = key_rows(keys@);
    let ghost start = out@;
    let mut i: usize = 0;
    assert(start + Seq::<u8>::empty() =~= start);
    while i < tables.len()
        invariant
            i <= tables@.len(),
            counts@.len() == tables@.len(),
            keys@.len() == tables@.len(),
            l == edge_pass::rel_keys(tables@),
            k == key_rows(keys@),
            d == (Described { index: index@, geometries: column_pass::geometry_views(geometries@) }),
            described_rels(d, l, counts@, k, i as int) is Ok,
            out@ == start + described_rels(d, l, counts@, k, i as int)->Ok_0,
        decreases tables@.len() - i,
    {
        proof {
            assert(l[i as int] == tables@[i as int]@);
            assert(k[i as int] == text::texts(keys@[i as int]@));
            if described_rels(d, l, counts@, k, i + 1) is Err {
                lemma_rels_fail(d, l, counts@, k, i + 1, l.len() as int);
            }
        }
        let t: &RelTableKey = &tables[i];
        let code: u32 = match index.get(t.edge_type.as_str()) {
            Some(c) => *c,
            None => return Err(GenerationError::Codec(CodecError::NotInterned)),
        };
        w16(out, i as u16);
        w16(out, t.src_table_id);
        w16(out, t.dst_table_id);
        w32(out, code);
        w32(out, counts[i] as u32);
        w32(out, keys[i].len() as u32);
        write_columns(out, 0x8000u16 | (i as u16), &keys[i], index, geometries)?;
        assert(out@ =~= start + described_rels(d, l, counts@, k, i + 1)->Ok_0);
        i = i + 1;
    }
    Ok(())
}

/// Builds the metadata segment: the node tables with their columns, the
/// relationship tables with theirs, and the totals. A text without a code is
/// an error.
pub fn build_metadata(
    node_labels: &[String],
    node_row_counts: &[u64],
    node_col_keys: &[Vec<String>],
    rel_tables: &[RelTableKey],
    rel_edge_counts: &[u64],
    rel_col_keys: &[Vec<String>],
    string_index: &TextMap<u32>,
    geometries: &[ColumnGeometry],
    total_nodes: u64,
    total_edges: u64,
) -> (r: Result<Vec<u8>, GenerationError>)
    requires
        node_row_counts@.len() == node_labels@.len(),
        node_col_keys@.len() == node_labels@.len(),
        rel_edge_counts@.len() == rel_tables@.len(),
        rel_col_keys@.len() == rel_tables@.len(),
    ensures
        ({
            let want = described_build(
                (Described { index: string_index@, geometries: column_pass::geometry_views(geometries@) }),
                text::texts(node_labels@),
                node_row_counts@,
                key_rows(node_col_keys@),
                edge_pass::rel_keys(rel_tables@),
                rel_edge_counts@,
                key_rows(rel_col_keys@),
                total_nodes,
                total_edges,
            );
            match r {
                Ok(b) => want == Ok::<Seq<u8>, GenerationError>(b@),
                Err(e) => want == Err::<Seq<u8>, GenerationError>(e),
            }
        }),
{
    let mut meta: Vec<u8> = Vec::new();
    w32(&mut meta, node_labels.len() as u32);
    write_nodes(
        &mut meta,
        node_labels,
        node_row_counts,
        node_col_keys,
        string_index,
        geometries,
    )?;
    w32(&mut meta, rel_tables.len() as u32);
    write_rels(
        &mut meta,
        rel_tables,
        rel_edge_counts,
        rel_col_keys,
        string_index,
        geometries,
    )?;
    w64(&mut meta, total_nodes);
    w64(&mut meta, total_edges);
    proof {
        let d = Described { index: string_index@, geometries: column_pass::geometry_views(geometries@) };
        let l = text::texts(node_labels@);
        let t = edge_pass::rel_keys(rel_tables@);
        let a = described_nodes(
            d,
            l,
            node_row_counts@,
            key_rows(node_col_keys@),
            l.len() as int,
        )->Ok_0;
        let b = described_rels(
            d,
            t,
            rel_edge_counts@,
            key_rows(rel_col_keys@),
            t.len() as int,
        )->Ok_0;
        assert(meta@ =~= wire::put32(l.len() as u32) + a + wire::put32(t.len() as u32) + b + wire::put64(total_nodes)
            + wire::put64(total_edges));
    }
    Ok(meta)
}

} // verus!
