//! A payload whose metadata states the encodings of the columns as they were
//! inferred, in place of those that their bodies have.

use crate::error::{FormatError, WireField};
use crate::intern::{StringCodeOrder, index_strings};
use crate::intern;
use crate::payload::{Segment, SegmentView, assemble_payload};
use crate::payload;
use crate::tables::{ColumnCodec, ColumnView, CompactStore, NodeTable, NodeTableView, RelTable, RelTableView, StoreView};
use crate::tables;
use crate::text::TextMap;
use crate::v5_write::{build_dictionary, check_limits, check_texts_short, code_of, collect_with, push_index_segments, total_edges, total_nodes};
use crate::v5_write;
use crate::wire::{push_u16, push_u32, push_u64};
use crate::wire;
use crate::zone_maps::build_zone_map_segments;
use vstd::prelude::*;

verus! {

/// The metadata of a column under a stated encoding: key, encoding, value type.
pub open spec fn coded_column(key: Seq<char>, code: u16, index: Map<Seq<char>, u32>) -> Seq<u8> {
    wire::put32(index[key]) + wire::put16(code) + wire::put16(code)
}

/// The metadata of a row of columns under stated encodings.
pub open spec fn coded_columns(
    columns: Seq<(Seq<char>, ColumnView)>,
    codes: Map<Seq<char>, u16>,
    index: Map<Seq<char>, u32>,
) -> Seq<u8> {
    wire::flat(columns, |c: (Seq<char>, ColumnView)| coded_column(c.0, codes[c.0], index))
}

/// The metadata of the first `n` node tables under stated encodings.
pub open spec fn coded_nodes(
    v: Seq<NodeTableView>,
    codes: Seq<Map<Seq<char>, u16>>,
    n: int,
    index: Map<Seq<char>, u32>,
) -> Seq<u8>
    decreases n,
{
    if n <= 0 {
        Seq::empty()
    } else {
        coded_nodes(v, codes, n - 1, index) + (v5_write::meta_node_head((n - 1) as u16, v[n - 1], index)
            + coded_columns(v[n - 1].columns, codes[n - 1], index))
    }
}

/// The metadata of the first `n` relationship tables under stated encodings.
pub open spec fn coded_rels(
    v: Seq<RelTableView>,
    codes: Seq<Map<Seq<char>, u16>>,
    n: int,
    index: Map<Seq<char>, u32>,
) -> Seq<u8>
    decreases n,
{
    if n <= 0 {
        Seq::empty()
    } else {
        coded_rels(v, codes, n - 1, index) + (v5_write::meta_rel_head((n - 1) as u16, v[n - 1], index)
            + coded_columns(v[n - 1].columns, codes[n - 1], index))
    }
}

/// The stated encodings of the columns of a store, by table.
pub struct StoreCodes {
    /// Of the node tables.
    pub nodes: Seq<Map<Seq<char>, u16>>,
    /// Of the relationship tables.
    pub rels: Seq<Map<Seq<char>, u16>>,
}

/// The metadata segment under stated encodings.
pub open spec fn coded_metadata(s: StoreView, codes: StoreCodes, index: Map<Seq<char>, u32>) -> Seq<
    u8,
> {
    wire::put32(s.nodes.len() as u32) + coded_nodes(s.nodes, codes.nodes, s.nodes.len() as int, index)
        + wire::put32(s.rels.len() as u32) + coded_rels(
        s.rels,
        codes.rels,
        s.rels.len() as int,
        index,
    ) + wire::put64(v5_write::node_total(s.nodes, s.nodes.len() as int) as u64) + wire::put64(
        v5_write::edge_total(s.rels, s.rels.len() as int) as u64,
    )
}

/// Every column of a table has a stated encoding.
pub open spec fn columns_coded(
    columns: Seq<(Seq<char>, ColumnView)>,
    codes: Map<Seq<char>, u16>,
) -> bool {
    forall|i: int| 0 <= i < columns.len() ==> codes.dom().contains((#[trigger] columns[i]).0)
}

/// Every column of a store has a stated encoding.
pub open spec fn store_coded(s: StoreView, codes: StoreCodes) -> bool {
    &&& codes.nodes.len() == s.nodes.len()
    &&& codes.rels.len() == s.rels.len()
    &&& forall|t: int|
        0 <= t < s.nodes.len() ==> columns_coded((#[trigger] s.nodes[t]).columns, codes.nodes[t])
    &&& forall|t: int|
        0 <= t < s.rels.len() ==> columns_coded((#[trigger] s.rels[t]).columns, codes.rels[t])
}

/// The stated encoding of a column.
fn stated_code(codes: &TextMap<u16>, key: &str) -> (r: u16)
    requires
        codes@.dom().contains(key@),
    ensures
        r == codes@[key@],
{
    match codes.get(key) {
        Some(c) => *c,
        None => 0,
    }
}

#[verifier::loop_isolation(false)]
fn write_coded_columns(
    out: &mut Vec<u8>,
    m: &TextMap<ColumnCodec>,
    codes: &TextMap<u16>,
    index: &TextMap<u32>,
)
    requires
        columns_coded(tables::columns_view(*m), codes@),
        forall|i: int|
            0 <= i < tables::columns_view(*m).len() ==> index@.dom().contains(
                (#[trigger] tables::columns_view(*m)[i]).0,
            ),
    ensures
        final(out)@ == old(out)@ + coded_columns(tables::columns_view(*m), codes@, index@),
{
    let ghost cv = tables::columns_view(*m);
    let ghost f = |c: (Seq<char>, ColumnView)| coded_column(c.0, codes@[c.0], index@);
    let n: usize = m.len();
    let mut i: usize = 0;
    assert(cv.take(0) =~= Seq::empty());
    assert(out@ =~= old(out)@ + wire::flat(cv.take(0), f));
    while i < n
        invariant
            i <= n,
            out@ == old(out)@ + wire::flat(cv.take(i as int), f),
        decreases n - i,
    {
        assert(index@.dom().contains(cv[i as int].0));
        assert(codes@.dom().contains(cv[i as int].0));
        let ghost before = out@;
        let code: u16 = stated_code(codes, m.key_at(i));
        push_u32(out, code_of(index, m.key_at(i)));
        push_u16(out, code);
        push_u16(out, code);
        proof {
            assert(out@ =~= before + f(cv[i as int]));
            wire::lemma_flat_push(cv.take(i as int), cv[i as int], f);
            assert(cv.take(i as int).push(cv[i as int]) =~= cv.take(i + 1));
            assert(out@ =~= old(out)@ + wire::flat(cv.take(i + 1), f));
        }
        i = i + 1;
    }
    assert(cv.take(n as int) =~= cv);
}

/// The maps of some texts to codes.
pub open spec fn code_maps(v: Seq<TextMap<u16>>) -> Seq<Map<Seq<char>, u16>> {
    Seq::new(v.len(), |i: int| v[i]@)
}

/// Writes the metadata of the node tables under stated encodings.
fn write_coded_nodes(
    out: &mut Vec<u8>,
    store: &CompactStore,
    codes: &Vec<TextMap<u16>>,
    index: &TextMap<u32>,
)
    requires
        v5_write::limits_fault(store@) is None,
        v5_write::store_indexed(store@, index@),
        codes@.len() == store.node_tables@.len(),
        forall|i: int|
            0 <= i < codes@.len() ==> columns_coded(
                (#[trigger] store@.nodes[i]).columns,
                codes@[i]@,
            ),
    ensures
        final(out)@ == old(out)@ + coded_nodes(
            store@.nodes,
            code_maps(codes@),
            codes@.len() as int,
            index@,
        ),
{
    let ghost a = out@;
    let ghost nc = code_maps(codes@);
    let mut i: usize = 0;
    assert(out@ =~= a + coded_nodes(store@.nodes, nc, 0, index@));
    while i < store.node_tables.len()
        invariant
            i <= store.node_tables@.len(),
            v5_write::limits_fault(store@) is None,
            v5_write::store_indexed(store@, index@),
            nc == code_maps(codes@),
            codes@.len() == store.node_tables@.len(),
            forall|i: int|
                0 <= i < codes@.len() ==> columns_coded(
                    (#[trigger] store@.nodes[i]).columns,
                    codes@[i]@,
                ),
            out@ == a + coded_nodes(store@.nodes, nc, i as int, index@),
        decreases store.node_tables@.len() - i,
    {
        let t: &NodeTable = &store.node_tables[i];
        assert(store@.nodes[i as int] == t@);
        assert(v5_write::table_indexed(t@.label, t@.columns, index@));
        assert(columns_coded(t@.columns, nc[i as int]));
        push_u16(out, i as u16);
        push_u32(out, code_of(index, t.label.as_str()));
        push_u32(out, t.rows as u32);
        push_u32(out, t.columns.len() as u32);
        write_coded_columns(out, &t.columns, &codes[i], index);
        assert(out@ =~= a + coded_nodes(store@.nodes, nc, i + 1, index@));
        i = i + 1;
    }
}

/// Writes the metadata of the relationship tables under stated encodings.
fn write_coded_rels(
    out: &mut Vec<u8>,
    store: &CompactStore,
    codes: &Vec<TextMap<u16>>,
    index: &TextMap<u32>,
)
    requires
        v5_write::limits_fault(store@) is None,
        v5_write::store_indexed(store@, index@),
        codes@.len() == store.rel_tables@.len(),
        forall|i: int|
            0 <= i < codes@.len() ==> columns_coded(
                (#[trigger] store@.rels[i]).columns,
                codes@[i]@,
            ),
    ensures
        final(out)@ == old(out)@ + coded_rels(
            store@.rels,
            code_maps(codes@),
            codes@.len() as int,
            index@,
        ),
{
    let ghost a = out@;
    let ghost rc = code_maps(codes@);
    let mut k: usize = 0;
    assert(out@ =~= a + coded_rels(store@.rels, rc, 0, index@));
    while k < store.rel_tables.len()
        invariant
            k <= store.rel_tables@.len(),
            v5_write::limits_fault(store@) is None,
            v5_write::store_indexed(store@, index@),
            rc == code_maps(codes@),
            codes@.len() == store.rel_tables@.len(),
            forall|i: int|
                0 <= i < codes@.len() ==> columns_coded(
                    (#[trigger] store@.rels[i]).columns,
                    codes@[i]@,
                ),
            out@ == a + coded_rels(store@.rels, rc, k as int, index@),
        decreases store.rel_tables@.len() - k,
    {
        let t: &RelTable = &store.rel_tables[k];
        assert(store@.rels[k as int] == t@);
        assert(v5_write::table_indexed(t@.edge_type, t@.columns, index@));
        assert(columns_coded(t@.columns, rc[k as int]));
        push_u16(out, k as u16);
        push_u16(out, t.src_table_id);
        push_u16(out, t.dst_table_id);
        push_u32(out, code_of(index, t.edge_type.as_str()));
        push_u32(out, t.fwd.targets.len() as u32);
        push_u32(out, t.properties.len() as u32);
        write_coded_columns(out, &t.properties, &codes[k], index);
        assert(out@ =~= a + coded_rels(store@.rels, rc, k + 1, index@));
        k = k + 1;
    }
}

/// Writes the metadata segment under stated encodings.
pub fn write_coded_metadata(
    store: &CompactStore,
    node_codes: &Vec<TextMap<u16>>,
    rel_codes: &Vec<TextMap<u16>>,
    index: &TextMap<u32>,
) -> (out: Vec<u8>)
    requires
        v5_write::limits_fault(store@) is None,
        v5_write::store_indexed(store@, index@),
        store_coded(
            store@,
            (StoreCodes { nodes: code_maps(node_codes@), rels: code_maps(rel_codes@) }),
        ),
    ensures
        out@ == coded_metadata(
            store@,
            (StoreCodes { nodes: code_maps(node_codes@), rels: code_maps(rel_codes@) }),
            index@,
        ),
{
    let mut out: Vec<u8> = Vec::new();
    push_u32(&mut out, store.node_tables.len() as u32);
    write_coded_nodes(&mut out, store, node_codes, index);
    push_u32(&mut out, store.rel_tables.len() as u32);
    write_coded_rels(&mut out, store, rel_codes, index);
    push_u64(&mut out, total_nodes(store));
    push_u64(&mut out, total_edges(store));
    out
}

// ----------------------------------------------------------------- payload

/// All segments of a store's payload, texts in byte order, under stated
/// encodings.
pub open spec fn coded_segments(s: StoreView, codes: StoreCodes) -> Seq<SegmentView> {
    let dict = intern::dictionary(intern::store_texts(s), StringCodeOrder::Lexicographic);
    v5_write::tables_with(coded_metadata(s, codes, intern::codes_of_texts(dict)), s, dict) + v5_write::forward_segments(s)
        + v5_write::reverse_segments(s) + v5_write::id_segments(s) + v5_write::lookup_segments(s, dict)
}

/// The payload of a store, texts in byte order, under stated encodings.
pub open spec fn coded_image(s: StoreView, codes: StoreCodes) -> Seq<u8> {
    payload::payload_image(
        coded_segments(s, codes),
        if s.ids is Some {
            1
        } else {
            0
        },
        v5_write::node_total(s.nodes, s.nodes.len() as int) as u64,
        v5_write::edge_total(s.rels, s.rels.len() as int) as u64,
    )
}

proof fn lemma_coded_segments_aligned(s: StoreView, codes: StoreCodes)
    ensures
        payload::segments_aligned(coded_segments(s, codes)),
        coded_segments(s, codes).len() <= 20,
{
}

/// Serializes a store into a payload, texts in byte order, under stated
/// encodings.
pub fn serialize_with_codes(
    store: &CompactStore,
    node_codes: &Vec<TextMap<u16>>,
    rel_codes: &Vec<TextMap<u16>>,
) -> (r: Result<Vec<u8>, FormatError>)
    requires
        store_coded(
            store@,
            (StoreCodes { nodes: code_maps(node_codes@), rels: code_maps(rel_codes@) }),
        ),
    ensures
        r is Ok <==> v5_write::v5_fault(store@, StringCodeOrder::Lexicographic) is None,
        r matches Ok(p) ==> p@ == coded_image(
            store@,
            (StoreCodes { nodes: code_maps(node_codes@), rels: code_maps(rel_codes@) }),
        ),
        r matches Err(e) ==> v5_write::v5_fault(store@, StringCodeOrder::Lexicographic) == Some(e),
{
    let ghost s = store@;
    let ghost codes = StoreCodes {
        nodes: code_maps(node_codes@),
        rels: code_maps(rel_codes@),
    };
    check_limits(store)?;
    let strings = build_dictionary(store, StringCodeOrder::Lexicographic);
    if strings.len() > u32::MAX as usize {
        return Err(FormatError::WireLimit(WireField::Texts));
    }
    if !check_texts_short(&strings) {
        return Err(FormatError::WireLimit(WireField::TextBytes));
    }
    proof {
        intern::lemma_dictionary(intern::store_texts(s), StringCodeOrder::Lexicographic);
        v5_write::lemma_store_indexed(s, StringCodeOrder::Lexicographic);
        lemma_coded_segments_aligned(s, codes);
    }
    let index = index_strings(&strings);
    let meta = write_coded_metadata(store, node_codes, rel_codes, &index);
    let mut segments: Vec<Segment> = collect_with(
        meta,
        store,
        &strings,
        &index,
        false,
    )?;
    let (zones_body, blocks_body) = build_zone_map_segments(store, &index)?;
    push_index_segments(&mut segments, zones_body, blocks_body, &strings, false);
    let flags: u8 = if store.preserves_ids() {
        1
    } else {
        0
    };
    assemble_payload(&segments, flags, total_nodes(store), total_edges(store))
}

// -------------------------------------------------------------------- laws

/// The stated encodings of the columns of a table are those of their bodies.
pub open spec fn columns_truly_coded(
    columns: Seq<(Seq<char>, ColumnView)>,
    codes: Map<Seq<char>, u16>,
) -> bool {
    forall|i: int| 0 <= i < columns.len() ==> codes[(#[trigger] columns[i]).0] == tables::column_disc(columns[i].1)
}

/// The stated encodings of a store are those of its column bodies.
pub open spec fn store_truly_coded(s: StoreView, codes: StoreCodes) -> bool {
    &&& forall|t: int|
        0 <= t < s.nodes.len() ==> columns_truly_coded(
            (#[trigger] s.nodes[t]).columns,
            codes.nodes[t],
        )
    &&& forall|t: int|
        0 <= t < s.rels.len() ==> columns_truly_coded(
            (#[trigger] s.rels[t]).columns,
            codes.rels[t],
        )
}

proof fn lemma_true_columns(
    columns: Seq<(Seq<char>, ColumnView)>,
    codes: Map<Seq<char>, u16>,
    index: Map<Seq<char>, u32>,
)
    requires
        columns_truly_coded(columns, codes),
    ensures
        coded_columns(columns, codes, index) == v5_write::meta_columns(columns, index),
    decreases columns.len(),
{
    let f = |c: (Seq<char>, ColumnView)| coded_column(c.0, codes[c.0], index);
    let g = |c: (Seq<char>, ColumnView)| v5_write::meta_column(c, index);
    if columns.len() > 0 {
        let rest = columns.drop_last();
        assert forall|i: int| 0 <= i < rest.len() implies codes[(#[trigger] rest[i]).0]
            == tables::column_disc(rest[i].1) by {
            assert(rest[i] == columns[i]);
        }
        lemma_true_columns(rest, codes, index);
        wire::lemma_flat_push(rest, columns.last(), f);
        wire::lemma_flat_push(rest, columns.last(), g);
        assert(rest.push(columns.last()) =~= columns);
        assert(columns.last() == columns[columns.len() - 1]);
    }
}

proof fn lemma_true_nodes(
    v: Seq<NodeTableView>,
    codes: Seq<Map<Seq<char>, u16>>,
    n: int,
    index: Map<Seq<char>, u32>,
)
    requires
        n <= v.len(),
        forall|t: int|
            0 <= t < v.len() ==> columns_truly_coded((#[trigger] v[t]).columns, codes[t]),
    ensures
        coded_nodes(v, codes, n, index) == v5_write::meta_nodes(v, n, index),
    decreases n,
{
    if n > 0 {
        lemma_true_nodes(v, codes, n - 1, index);
        lemma_true_columns(v[n - 1].columns, codes[n - 1], index);
    }
}

proof fn lemma_true_rels(
    v: Seq<RelTableView>,
    codes: Seq<Map<Seq<char>, u16>>,
    n: int,
    index: Map<Seq<char>, u32>,
)
    requires
        n <= v.len(),
        forall|t: int|
            0 <= t < v.len() ==> columns_truly_coded((#[trigger] v[t]).columns, codes[t]),
    ensures
        coded_rels(v, codes, n, index) == v5_write::meta_rels(v, n, index),
    decreases n,
{
    if n > 0 {
        lemma_true_rels(v, codes, n - 1, index);
        lemma_true_columns(v[n - 1].columns, codes[n - 1], index);
    }
}

/// Where the stated encodings are those of the bodies, the payload is the one
/// that the serializer writes.
pub proof fn lemma_true_codes_give_the_serialized_store(s: StoreView, codes: StoreCodes)
    requires
        store_truly_coded(s, codes),
    ensures
        coded_image(s, codes) == v5_write::v5_image(s, StringCodeOrder::Lexicographic),
{
    let dict = intern::dictionary(intern::store_texts(s), StringCodeOrder::Lexicographic);
    let index = intern::codes_of_texts(dict);
    lemma_true_nodes(s.nodes, codes.nodes, s.nodes.len() as int, index);
    lemma_true_rels(s.rels, codes.rels, s.rels.len() as int, index);
    assert(coded_metadata(s, codes, index) == v5_write::metadata_image(s, index));
}

} // verus!
