//! Serialization of a store into a payload of mapped segments.

use crate::code_index::build_dictionary_code_index;
use crate::code_index;
use crate::directory::SegmentKind;
use crate::error::{FormatError, WireField};
use crate::faults;
use crate::id_lookup::{LookupEntry, write_edge_id_record, write_node_id_record};
use crate::id_lookup;
use crate::intern::{StringCodeOrder, TextCollector, index_strings, sort_texts};
use crate::intern;
use crate::payload::{Segment, SegmentView, assemble_payload, make_segment};
use crate::payload;
use crate::sorting::sort_keys;
use crate::sorting;
use crate::string_dict::build_string_segments;
use crate::string_dict;
use crate::tables::{ColumnCodec, ColumnView, CompactStore, CsrView, NodeTable, NodeTableView, RelTable, RelTableView, StoreView, codec_disc, value_type_code};
use crate::tables;
use crate::text::{TextMap, borrow_all, own};
use crate::text;
use crate::views;
use crate::wire::{push_bytes, push_u16, push_u32, push_u64, push_u64_be};
use crate::wire;
use crate::zone_maps::build_zone_map_segments;
use crate::zone_maps;
use vstd::prelude::*;
use vstd::string::*;

verus! {

broadcast use wire::group_wire;

/// A column with more rows than a record can count.
pub open spec fn column_limit_checks(columns: Seq<(Seq<char>, ColumnView)>) -> spec_fn(
    int,
) -> Option<FormatError> {
    |i: int|
        if tables::column_rows(columns[i].1) > u32::MAX {
            Some(FormatError::WireLimit(WireField::Rows))
        } else {
            None
        }
}

/// Columns that a table cannot hold.
pub open spec fn columns_limit(columns: Seq<(Seq<char>, ColumnView)>) -> Option<FormatError> {
    if columns.len() > u32::MAX {
        Some(FormatError::WireLimit(WireField::Columns))
    } else {
        faults::first_fault(columns.len(), column_limit_checks(columns))
    }
}

/// A node table beyond the widths of the wire.
pub open spec fn node_limit(t: NodeTableView) -> Option<FormatError> {
    if t.rows > u32::MAX {
        Some(FormatError::WireLimit(WireField::Rows))
    } else {
        columns_limit(t.columns)
    }
}

/// A relationship table beyond the widths of the wire.
pub open spec fn rel_limit(t: RelTableView) -> Option<FormatError> {
    if t.fwd.targets.len() > u32::MAX {
        Some(FormatError::WireLimit(WireField::Edges))
    } else {
        columns_limit(t.columns)
    }
}

/// Node tables beyond the widths of the wire, by position.
pub open spec fn node_limit_checks(v: Seq<NodeTableView>) -> spec_fn(int) -> Option<FormatError> {
    |i: int| node_limit(v[i])
}

/// Relationship tables beyond the widths of the wire, by position.
pub open spec fn rel_limit_checks(v: Seq<RelTableView>) -> spec_fn(int) -> Option<FormatError> {
    |i: int| rel_limit(v[i])
}

/// The first table of a store beyond the widths of the wire.
pub open spec fn limits_fault(s: StoreView) -> Option<FormatError> {
    if s.nodes.len() > 0x1_0000 {
        Some(FormatError::WireLimit(WireField::NodeTables))
    } else if s.rels.len() > 0x1_0000 {
        Some(FormatError::WireLimit(WireField::RelTables))
    } else {
        match faults::first_fault(s.nodes.len(), node_limit_checks(s.nodes)) {
            Some(e) => Some(e),
            None => faults::first_fault(s.rels.len(), rel_limit_checks(s.rels)),
        }
    }
}

#[verifier::loop_isolation(false)]
fn check_columns_limit(m: &TextMap<ColumnCodec>) -> (r: Result<(), FormatError>)
    ensures
        r is Ok <==> columns_limit(tables::columns_view(*m)) is None,
        r matches Err(e) ==> columns_limit(tables::columns_view(*m)) == Some(e),
{
    let ghost cv = tables::columns_view(*m);
    let ghost checks = column_limit_checks(cv);
    let n: usize = m.len();
    if n > u32::MAX as usize {
        return Err(FormatError::WireLimit(WireField::Columns));
    }
    let mut i: usize = 0;
    while i < n
        invariant
            i <= n,
            faults::first_fault(i as nat, checks) is None,
        decreases n - i,
    {
        let ghost fault = checks(i as int);
        assert(faults::first_fault((i + 1) as nat, checks) == fault);
        if m.val_at(i).len() > u32::MAX as usize {
            proof {
                faults::lemma_first_fault_stays((i + 1) as nat, n as nat, checks);
            }
            return Err(FormatError::WireLimit(WireField::Rows));
        }
        i = i + 1;
    }
    Ok(())
}

#[verifier::loop_isolation(false)]
/// Checks that every count of a store fits its field.
pub fn check_limits(store: &CompactStore) -> (r: Result<(), FormatError>)
    ensures
        r is Ok <==> limits_fault(store@) is None,
        r matches Err(e) ==> limits_fault(store@) == Some(e),
{
    let ghost s = store@;
    if store.node_tables.len() > 0x1_0000 {
        return Err(FormatError::WireLimit(WireField::NodeTables));
    }
    if store.rel_tables.len() > 0x1_0000 {
        return Err(FormatError::WireLimit(WireField::RelTables));
    }
    let ghost nc = node_limit_checks(s.nodes);
    let ghost rc = rel_limit_checks(s.rels);
    let mut i: usize = 0;
    while i < store.node_tables.len()
        invariant
            i <= store.node_tables@.len(),
            faults::first_fault(i as nat, nc) is None,
        decreases store.node_tables@.len() - i,
    {
        let t: &NodeTable = &store.node_tables[i];
        assert(t@ == s.nodes[i as int]);
        let ghost fault = nc(i as int);
        assert(faults::first_fault((i + 1) as nat, nc) == fault);
        proof {
            if fault is Some {
                faults::lemma_first_fault_stays((i + 1) as nat, s.nodes.len(), nc);
            }
        }
        if t.rows > u32::MAX as usize {
            return Err(FormatError::WireLimit(WireField::Rows));
        }
        check_columns_limit(&t.columns)?;
        i = i + 1;
    }
    let mut k: usize = 0;
    while k < store.rel_tables.len()
        invariant
            k <= store.rel_tables@.len(),
            faults::first_fault(k as nat, rc) is None,
        decreases store.rel_tables@.len() - k,
    {
        let t: &RelTable = &store.rel_tables[k];
        assert(t@ == s.rels[k as int]);
        let ghost fault = rc(k as int);
        assert(faults::first_fault((k + 1) as nat, rc) == fault);
        proof {
            if fault is Some {
                faults::lemma_first_fault_stays((k + 1) as nat, s.rels.len(), rc);
            }
        }
        if t.fwd.targets.len() > u32::MAX as usize {
            return Err(FormatError::WireLimit(WireField::Edges));
        }
        check_columns_limit(&t.properties)?;
        k = k + 1;
    }
    Ok(())
}

/// The metadata of a column: key, encoding, value type.
pub open spec fn meta_column(c: (Seq<char>, ColumnView), index: Map<Seq<char>, u32>) -> Seq<u8> {
    wire::put32(index[c.0]) + wire::put16(tables::column_disc(c.1)) + wire::put16(tables::column_disc(c.1))
}

/// The metadata of a row of columns.
pub open spec fn meta_columns(
    columns: Seq<(Seq<char>, ColumnView)>,
    index: Map<Seq<char>, u32>,
) -> Seq<u8> {
    wire::flat(columns, |c: (Seq<char>, ColumnView)| meta_column(c, index))
}

/// The metadata of a node table before its columns.
pub open spec fn meta_node_head(
    tid: u16,
    t: NodeTableView,
    index: Map<Seq<char>, u32>,
) -> Seq<u8> {
    wire::put16(tid) + wire::put32(index[t.label]) + wire::put32(t.rows as u32) + wire::put32(t.columns.len() as u32)
}

/// The metadata of the first `n` node tables.
pub open spec fn meta_nodes(v: Seq<NodeTableView>, n: int, index: Map<Seq<char>, u32>) -> Seq<u8>
    decreases n,
{
    if n <= 0 {
        Seq::empty()
    } else {
        meta_nodes(v, n - 1, index) + (meta_node_head((n - 1) as u16, v[n - 1], index)
            + meta_columns(v[n - 1].columns, index))
    }
}

/// The metadata of a relationship table before its columns.
pub open spec fn meta_rel_head(rid: u16, t: RelTableView, index: Map<Seq<char>, u32>) -> Seq<u8> {
    wire::put16(rid) + wire::put16(t.src) + wire::put16(t.dst) + wire::put32(index[t.edge_type]) + wire::put32(
        t.fwd.targets.len() as u32,
    ) + wire::put32(t.columns.len() as u32)
}

/// The metadata of the first `n` relationship tables.
pub open spec fn meta_rels(v: Seq<RelTableView>, n: int, index: Map<Seq<char>, u32>) -> Seq<u8>
    decreases n,
{
    if n <= 0 {
        Seq::empty()
    } else {
        meta_rels(v, n - 1, index) + (meta_rel_head((n - 1) as u16, v[n - 1], index)
            + meta_columns(v[n - 1].columns, index))
    }
}

/// All rows of the first `n` node tables.
pub open spec fn node_total(v: Seq<NodeTableView>, n: int) -> int
    decreases n,
{
    if n <= 0 {
        0
    } else {
        node_total(v, n - 1) + v[n - 1].rows
    }
}

/// All edges of the first `n` relationship tables.
pub open spec fn edge_total(v: Seq<RelTableView>, n: int) -> int
    decreases n,
{
    if n <= 0 {
        0
    } else {
        edge_total(v, n - 1) + v[n - 1].fwd.targets.len()
    }
}

/// The metadata segment.
pub open spec fn metadata_image(s: StoreView, index: Map<Seq<char>, u32>) -> Seq<u8> {
    wire::put32(s.nodes.len() as u32) + meta_nodes(s.nodes, s.nodes.len() as int, index) + wire::put32(
        s.rels.len() as u32,
    ) + meta_rels(s.rels, s.rels.len() as int, index) + wire::put64(
        node_total(s.nodes, s.nodes.len() as int) as u64,
    ) + wire::put64(edge_total(s.rels, s.rels.len() as int) as u64)
}

/// The names and keys of a table have codes.
pub open spec fn table_indexed(
    name: Seq<char>,
    columns: Seq<(Seq<char>, ColumnView)>,
    index: Map<Seq<char>, u32>,
) -> bool {
    &&& index.dom().contains(name)
    &&& forall|i: int| 0 <= i < columns.len() ==> index.dom().contains((#[trigger] columns[i]).0)
}

/// The names and keys of all tables have codes.
pub open spec fn store_indexed(s: StoreView, index: Map<Seq<char>, u32>) -> bool {
    &&& forall|i: int|
        0 <= i < s.nodes.len() ==> table_indexed(
            (#[trigger] s.nodes[i]).label,
            s.nodes[i].columns,
            index,
        )
    &&& forall|i: int|
        0 <= i < s.rels.len() ==> table_indexed(
            (#[trigger] s.rels[i]).edge_type,
            s.rels[i].columns,
            index,
        )
}

/// The code of a text that has one.
pub fn code_of(index: &TextMap<u32>, s: &str) -> (r: u32)
    requires
        index@.dom().contains(s@),
    ensures
        r == index@[s@],
{
    match index.get(s) {
        Some(c) => *c,
        None => 0,
    }
}

#[verifier::loop_isolation(false)]
fn write_meta_columns(out: &mut Vec<u8>, m: &TextMap<ColumnCodec>, index: &TextMap<u32>)
    requires
        forall|i: int|
            0 <= i < tables::columns_view(*m).len() ==> index@.dom().contains(
                (#[trigger] tables::columns_view(*m)[i]).0,
            ),
    ensures
        final(out)@ == old(out)@ + meta_columns(tables::columns_view(*m), index@),
{
    let ghost cv = tables::columns_view(*m);
    let ghost f = |c: (Seq<char>, ColumnView)| meta_column(c, index@);
    let n: usize = m.len();
    let mut i: usize = 0;
    assert(cv.take(0) =~= Seq::empty());
    assert(out@ =~= old(out)@ + wire::flat(cv.take(0), f));
    while i < n
        invariant
            i <= n,
            out@ == old(out)@ + wire::flat(cv.take(i as int), f),
        decreases n - i,
    {
        assert(index@.dom().contains(cv[i as int].0));
        let ghost before = out@;
        push_u32(out, code_of(index, m.key_at(i)));
        push_u16(out, codec_disc(m.val_at(i)));
        push_u16(out, value_type_code(m.val_at(i)));
        proof {
            assert(out@ =~= before + meta_column(cv[i as int], index@));
            wire::lemma_flat_push(cv.take(i as int), cv[i as int], f);
            assert(cv.take(i as int).push(cv[i as int]) =~= cv.take(i + 1));
            assert(out@ =~= old(out)@ + wire::flat(cv.take(i + 1), f));
        }
        i = i + 1;
    }
    assert(cv.take(n as int) =~= cv);
}

fn write_meta_node(out: &mut Vec<u8>, tid: u16, t: &NodeTable, index: &TextMap<u32>)
    requires
        table_indexed(t@.label, t@.columns, index@),
    ensures
        final(out)@ == old(out)@ + (meta_node_head(tid, t@, index@) + meta_columns(
            t@.columns,
            index@,
        )),
{
    push_u16(out, tid);
    push_u32(out, code_of(index, t.label.as_str()));
    push_u32(out, t.rows as u32);
    push_u32(out, t.columns.len() as u32);
    assert(out@ =~= old(out)@ + meta_node_head(tid, t@, index@));
    write_meta_columns(out, &t.columns, index);
    assert(out@ =~= old(out)@ + (meta_node_head(tid, t@, index@) + meta_columns(
        t@.columns,
        index@,
    )));
}

fn write_meta_rel(out: &mut Vec<u8>, rid: u16, t: &RelTable, index: &TextMap<u32>)
    requires
        table_indexed(t@.edge_type, t@.columns, index@),
    ensures
        final(out)@ == old(out)@ + (meta_rel_head(rid, t@, index@) + meta_columns(
            t@.columns,
            index@,
        )),
{
    push_u16(out, rid);
    push_u16(out, t.src_table_id);
    push_u16(out, t.dst_table_id);
    push_u32(out, code_of(index, t.edge_type.as_str()));
    push_u32(out, t.fwd.targets.len() as u32);
    push_u32(out, t.properties.len() as u32);
    assert(out@ =~= old(out)@ + meta_rel_head(rid, t@, index@));
    write_meta_columns(out, &t.properties, index);
    assert(out@ =~= old(out)@ + (meta_rel_head(rid, t@, index@) + meta_columns(
        t@.columns,
        index@,
    )));
}

pub proof fn lemma_totals(s: StoreView, n: int, m: int)
    requires
        limits_fault(s) is None,
        0 <= n <= s.nodes.len(),
        0 <= m <= s.rels.len(),
    ensures
        0 <= node_total(s.nodes, n) <= n * 0xffff_ffff,
        0 <= edge_total(s.rels, m) <= m * 0xffff_ffff,
    decreases n + m,
{
    faults::lemma_no_fault(s.nodes.len(), node_limit_checks(s.nodes));
    faults::lemma_no_fault(s.rels.len(), rel_limit_checks(s.rels));
    if n > 0 {
        lemma_totals(s, n - 1, m);
        assert(node_limit_checks(s.nodes)(n - 1) is None);
    } else if m > 0 {
        lemma_totals(s, n, m - 1);
        assert(rel_limit_checks(s.rels)(m - 1) is None);
    }
}

/// Sums up the rows of all node tables.
pub fn total_nodes(store: &CompactStore) -> (r: u64)
    requires
        limits_fault(store@) is None,
    ensures
        r == node_total(store@.nodes, store@.nodes.len() as int),
{
    let ghost s = store@;
    let mut sum: u64 = 0;
    let mut i: usize = 0;
    while i < store.node_tables.len()
        invariant
            i <= store.node_tables@.len(),
            store.node_tables@.len() <= 0x1_0000,
            s == store@,
            limits_fault(s) is None,
            sum == node_total(s.nodes, i as int),
        decreases store.node_tables@.len() - i,
    {
        proof {
            lemma_totals(s, i + 1, 0);
            assert(s.nodes[i as int] == store.node_tables@[i as int]@);
        }
        sum = sum + store.node_tables[i].rows as u64;
        i = i + 1;
    }
    sum
}

/// Sums up the edges of all relationship tables.
pub fn total_edges(store: &CompactStore) -> (r: u64)
    requires
        limits_fault(store@) is None,
    ensures
        r == edge_total(store@.rels, store@.rels.len() as int),
{
    let ghost s = store@;
    let mut sum: u64 = 0;
    let mut i: usize = 0;
    while i < store.rel_tables.len()
        invariant
            i <= store.rel_tables@.len(),
            store.rel_tables@.len() <= 0x1_0000,
            s == store@,
            limits_fault(s) is None,
            sum == edge_total(s.rels, i as int),
        decreases store.rel_tables@.len() - i,
    {
        proof {
            lemma_totals(s, 0, i + 1);
            assert(s.rels[i as int] == store.rel_tables@[i as int]@);
        }
        sum = sum + store.rel_tables[i].fwd.targets.len() as u64;
        i = i + 1;
    }
    sum
}

/// Writes the metadata segment.
#[verifier::loop_isolation(false)]
pub fn write_metadata(store: &CompactStore, index: &TextMap<u32>) -> (out: Vec<u8>)
    requires
        limits_fault(store@) is None,
        store_indexed(store@, index@),
    ensures
        out@ == metadata_image(store@, index@),
{
    let ghost s = store@;
    let mut out: Vec<u8> = Vec::new();
    push_u32(&mut out, store.node_tables.len() as u32);
    let ghost a = out@;
    let mut i: usize = 0;
    assert(out@ =~= a + meta_nodes(s.nodes, 0, index@));
    while i < store.node_tables.len()
        invariant
            i <= store.node_tables@.len(),
            out@ == a + meta_nodes(s.nodes, i as int, index@),
        decreases store.node_tables@.len() - i,
    {
        assert(s.nodes[i as int] == store.node_tables@[i as int]@);
        write_meta_node(&mut out, i as u16, &store.node_tables[i], index);
        assert(out@ =~= a + meta_nodes(s.nodes, i + 1, index@));
        i = i + 1;
    }
    push_u32(&mut out, store.rel_tables.len() as u32);
    let ghost b = out@;
    let mut k: usize = 0;
    assert(out@ =~= b + meta_rels(s.rels, 0, index@));
    while k < store.rel_tables.len()
        invariant
            k <= store.rel_tables@.len(),
            out@ == b + meta_rels(s.rels, k as int, index@),
        decreases store.rel_tables@.len() - k,
    {
        assert(s.rels[k as int] == store.rel_tables@[k as int]@);
        write_meta_rel(&mut out, k as u16, &store.rel_tables[k], index);
        assert(out@ =~= b + meta_rels(s.rels, k + 1, index@));
        k = k + 1;
    }
    push_u64(&mut out, total_nodes(store));
    push_u64(&mut out, total_edges(store));
    assert(a =~= wire::put32(s.nodes.len() as u32));
    assert(out@ =~= metadata_image(s, index@));
    out
}

/// The words of a text column's rows, the global codes of their texts.
pub open spec fn global_codes(
    entries: Seq<Seq<char>>,
    codes: Seq<u32>,
    index: Map<Seq<char>, u32>,
) -> Seq<u32> {
    Seq::new(codes.len(), |i: int| index[entries[codes[i] as int]])
}

/// The body of a text column of `rows` rows, the first ones written.
pub open spec fn text_column_body(rows: nat, codes: Seq<u32>) -> Seq<u8> {
    seq![1u8] + wire::put32(rows as u32) + views::bytes_of_u32s(codes)
}

/// The body of a column.
pub open spec fn column_body(c: ColumnView, index: Map<Seq<char>, u32>) -> Seq<u8> {
    match c {
        ColumnView::Dict { entries, codes } => text_column_body(
            codes.len(),
            global_codes(entries, codes, index),
        ),
        ColumnView::Flat { body, .. } => body,
    }
}

/// The rows of a text column that cannot be written, by position.
pub open spec fn text_row_checks(
    entries: Seq<Seq<char>>,
    codes: Seq<u32>,
    index: Map<Seq<char>, u32>,
) -> spec_fn(int) -> Option<FormatError> {
    |i: int|
        if codes[i] >= entries.len() {
            Some(FormatError::ColumnCode)
        } else if !index.dom().contains(entries[codes[i] as int]) {
            Some(FormatError::ColumnText)
        } else {
            None
        }
}

/// The first row of a column that cannot be written.
pub open spec fn column_fault(c: ColumnView, index: Map<Seq<char>, u32>) -> Option<FormatError> {
    match c {
        ColumnView::Dict { entries, codes } => faults::first_fault(
            codes.len(),
            text_row_checks(entries, codes, index),
        ),
        ColumnView::Flat { .. } => None,
    }
}

/// Writes the body of a column: a text column as the codes of its texts, any
/// other as its own bytes. Rows before a faulty one stay written.
#[verifier::loop_isolation(false)]
pub fn write_column_body(
    buf: &mut Vec<u8>,
    codec: &ColumnCodec,
    string_index: &TextMap<u32>,
) -> (r: Result<(), FormatError>)
    ensures
        r is Ok <==> column_fault(codec@, string_index@) is None,
        r is Ok ==> final(buf)@ == old(buf)@ + column_body(codec@, string_index@),
        r matches Err(e) ==> column_fault(codec@, string_index@) == Some(e) && (codec@
            matches ColumnView::Dict { entries, codes } && exists|k: int|
            0 <= k < codes.len() && faults::first_fault(
                k as nat,
                text_row_checks(entries, codes, string_index@),
            ) is None && text_row_checks(entries, codes, string_index@)(k) == Some(e)
                && final(buf)@ == old(buf)@ + #[trigger] text_column_body(
                codes.len(),
                global_codes(entries, codes, string_index@).take(k),
            )),
{
    match codec {
        ColumnCodec::Dict(d) => {
            let ghost entries = text::texts(d.entries@);
            let ghost codes = d.codes@;
            let ghost all = global_codes(entries, codes, string_index@);
            let ghost checks = text_row_checks(entries, codes, string_index@);
            let ghost f = |v: u32| wire::put32(v);
            buf.push(1);
            push_u32(buf, d.codes.len() as u32);
            assert(all.take(0) =~= Seq::empty());
            assert(buf@ =~= old(buf)@ + text_column_body(codes.len(), all.take(0)));
            let mut i: usize = 0;
            while i < d.codes.len()
                invariant
                    i <= d.codes@.len(),
                    faults::first_fault(i as nat, checks) is None,
                    buf@ == old(buf)@ + text_column_body(codes.len(), all.take(i as int)),
                decreases d.codes@.len() - i,
            {
                let ghost fault = checks(i as int);
                assert(faults::first_fault((i + 1) as nat, checks) == fault);
                proof {
                    if fault is Some {
                        faults::lemma_first_fault_stays((i + 1) as nat, codes.len(), checks);
                    }
                }
                let local: u32 = d.codes[i];
                if (local as u64) >= d.entries.len() as u64 {
                    return Err(FormatError::ColumnCode);
                }
                assert(entries[local as int] == d.entries@[local as int]@);
                let code: u32 = match string_index.get(d.entries[local as usize].as_str()) {
                    Some(c) => *c,
                    None => {
                        return Err(FormatError::ColumnText);
                    },
                };
                push_u32(buf, code);
                proof {
                    assert(all[i as int] == code);
                    wire::lemma_flat_push(all.take(i as int), all[i as int], f);
                    assert(all.take(i as int).push(all[i as int]) =~= all.take(i + 1));
                    assert(buf@ =~= old(buf)@ + text_column_body(codes.len(), all.take(i + 1)));
                }
                i = i + 1;
            }
            assert(all.take(codes.len() as int) =~= all);
        },
        ColumnCodec::Flat(x) => {
            push_bytes(buf, x.body.as_slice());
        },
    }
    Ok(())
}

/// The columns of the first `n` node tables.
pub open spec fn node_columns(v: Seq<NodeTableView>, n: int) -> Seq<ColumnView>
    decreases n,
{
    if n <= 0 {
        Seq::empty()
    } else {
        node_columns(v, n - 1) + bare_columns(v[n - 1].columns)
    }
}

/// The columns of the first `n` relationship tables.
pub open spec fn rel_columns(v: Seq<RelTableView>, n: int) -> Seq<ColumnView>
    decreases n,
{
    if n <= 0 {
        Seq::empty()
    } else {
        rel_columns(v, n - 1) + bare_columns(v[n - 1].columns)
    }
}

/// Columns without their keys.
pub open spec fn bare_columns(columns: Seq<(Seq<char>, ColumnView)>) -> Seq<ColumnView> {
    Seq::new(columns.len(), |i: int| columns[i].1)
}

/// All columns of a store, in payload order.
pub open spec fn all_columns(s: StoreView) -> Seq<ColumnView> {
    node_columns(s.nodes, s.nodes.len() as int) + rel_columns(s.rels, s.rels.len() as int)
}

/// The bodies of the columns, end to end.
pub open spec fn bodies_image(cols: Seq<ColumnView>, index: Map<Seq<char>, u32>) -> Seq<u8>
    decreases cols.len(),
{
    if cols.len() == 0 {
        Seq::empty()
    } else {
        bodies_image(cols.drop_last(), index) + column_body(cols.last(), index)
    }
}

/// The column directory.
pub open spec fn column_dir_image(cols: Seq<ColumnView>) -> Seq<u8>
    decreases cols.len(),
{
    if cols.len() == 0 {
        Seq::empty()
    } else {
        column_dir_image(cols.drop_last()) + column_dir_record(
            cols.last(),
            (cols.len() - 1) as u32,
        )
    }
}

/// A record of the column directory: encoding, value type, first block,
/// number of blocks, rows.
pub open spec fn column_dir_record(c: ColumnView, at: u32) -> Seq<u8> {
    wire::put16(tables::column_disc(c)) + wire::put16(tables::column_disc(c)) + wire::put32(at) + wire::put32(1) + wire::put64(
        tables::column_rows(c) as u64,
    ) + wire::put32(0)
}

/// The block index: where each body starts, its length, its rows.
pub open spec fn block_index_image(cols: Seq<ColumnView>, index: Map<Seq<char>, u32>) -> Seq<u8>
    decreases cols.len(),
{
    if cols.len() == 0 {
        Seq::empty()
    } else {
        block_index_image(cols.drop_last(), index) + block_index_record(
            bodies_image(cols.drop_last(), index).len() as u32,
            column_body(cols.last(), index).len() as u32,
            tables::column_rows(cols.last()) as u32,
        )
    }
}

/// A record of the block index.
pub open spec fn block_index_record(start: u32, len: u32, rows: u32) -> Seq<u8> {
    wire::put32(start) + wire::put32(len) + wire::put32(rows)
}

/// Column `i` of a row of columns cannot be written.
pub open spec fn column_write_fault(
    cols: Seq<ColumnView>,
    index: Map<Seq<char>, u32>,
    i: int,
) -> Option<FormatError> {
    if i >= u32::MAX {
        Some(FormatError::WireLimit(WireField::Columns))
    } else if column_fault(cols[i], index) is Some {
        column_fault(cols[i], index)
    } else if bodies_image(cols.take(i + 1), index).len() > u32::MAX {
        Some(FormatError::WireLimit(WireField::ColumnBytes))
    } else {
        None
    }
}

/// The columns that cannot be written, by position.
pub open spec fn column_write_checks(
    cols: Seq<ColumnView>,
    index: Map<Seq<char>, u32>,
) -> spec_fn(int) -> Option<FormatError> {
    |i: int| column_write_fault(cols, index, i)
}

/// The first column that cannot be written.
pub open spec fn columns_fault(cols: Seq<ColumnView>, index: Map<Seq<char>, u32>) -> Option<
    FormatError,
> {
    faults::first_fault(cols.len(), column_write_checks(cols, index))
}

/// The columns written so far.
struct ColumnSegments {
    dir: Vec<u8>,
    blocks: Vec<u8>,
    bodies: Vec<u8>,
    count: u32,
}

impl ColumnSegments {
    spec fn holds(&self, cols: Seq<ColumnView>, index: Map<Seq<char>, u32>) -> bool {
        &&& self.count == cols.len()
        &&& self.dir@ == column_dir_image(cols)
        &&& self.blocks@ == block_index_image(cols, index)
        &&& self.bodies@ == bodies_image(cols, index)
        &&& self.bodies@.len() <= u32::MAX
    }
}

fn write_column(
    seg: &mut ColumnSegments,
    codec: &ColumnCodec,
    index: &TextMap<u32>,
    Ghost(cols): Ghost<Seq<ColumnView>>,
) -> (r: Result<(), FormatError>)
    requires
        old(seg).holds(cols, index@),
        tables::column_rows(codec@) <= u32::MAX,
    ensures
        ({
            let now = cols.push(codec@);
            let fault = column_write_fault(now, index@, cols.len() as int);
            &&& r is Ok <==> fault is None
            &&& r is Ok ==> final(seg).holds(now, index@)
            &&& r matches Err(e) ==> fault == Some(e)
        }),
{
    let ghost now = cols.push(codec@);
    assert(now.drop_last() =~= cols);
    assert(now.take(now.len() as int) =~= now);
    if seg.count == u32::MAX {
        return Err(FormatError::WireLimit(WireField::Columns));
    }
    let body_start: usize = seg.bodies.len();
    write_column_body(&mut seg.bodies, codec, index)?;
    assert(seg.bodies@ == bodies_image(now, index@));
    if seg.bodies.len() > u32::MAX as usize {
        return Err(FormatError::WireLimit(WireField::ColumnBytes));
    }
    let body_len: usize = seg.bodies.len() - body_start;
    let disc: u16 = codec_disc(codec);
    let ghost d0 = seg.dir@;
    push_u16(&mut seg.dir, disc);
    push_u16(&mut seg.dir, value_type_code(codec));
    push_u32(&mut seg.dir, seg.count);
    push_u32(&mut seg.dir, 1);
    push_u64(&mut seg.dir, codec.len() as u64);
    push_u32(&mut seg.dir, 0);
    assert(seg.dir@ =~= d0 + column_dir_record(codec@, seg.count));
    let ghost b0 = seg.blocks@;
    push_u32(&mut seg.blocks, body_start as u32);
    push_u32(&mut seg.blocks, body_len as u32);
    push_u32(&mut seg.blocks, codec.len() as u32);
    assert(seg.blocks@ =~= b0 + block_index_record(
        body_start as u32,
        body_len as u32,
        tables::column_rows(codec@) as u32,
    ));
    seg.count = seg.count + 1;
    Ok(())
}

proof fn lemma_column_checks_prefix(
    cols: Seq<ColumnView>,
    more: Seq<ColumnView>,
    index: Map<Seq<char>, u32>,
    n: nat,
)
    requires
        n <= cols.len(),
    ensures
        faults::first_fault(n, column_write_checks(cols + more, index)) == faults::first_fault(
            n,
            column_write_checks(cols, index),
        ),
    decreases n,
{
    if n > 0 {
        lemma_column_checks_prefix(cols, more, index, (n - 1) as nat);
        assert((cols + more).take(n as int) =~= cols.take(n as int));
        assert((cols + more)[n - 1] == cols[n - 1]);
    }
}

/// Writes the columns of a table.
#[verifier::loop_isolation(false)]
fn write_columns(
    seg: &mut ColumnSegments,
    m: &TextMap<ColumnCodec>,
    index: &TextMap<u32>,
    Ghost(cols): Ghost<Seq<ColumnView>>,
) -> (r: Result<(), FormatError>)
    requires
        old(seg).holds(cols, index@),
        columns_limit(tables::columns_view(*m)) is None,
        columns_fault(cols, index@) is None,
    ensures
        ({
            let now = cols + bare_columns(tables::columns_view(*m));
            let fault = columns_fault(now, index@);
            &&& r is Ok <==> fault is None
            &&& r is Ok ==> final(seg).holds(now, index@)
            &&& r matches Err(e) ==> fault == Some(e)
        }),
{
    let ghost cv = tables::columns_view(*m);
    let ghost own = bare_columns(cv);
    let ghost now = cols + own;
    let ghost checks = column_write_checks(now, index@);
    let n: usize = m.len();
    proof {
        faults::lemma_no_fault(cv.len(), column_limit_checks(cv));
        lemma_column_checks_prefix(cols, own, index@, cols.len());
        assert(cols + own.take(0) =~= cols);
    }
    let mut i: usize = 0;
    while i < n
        invariant
            i <= n,
            seg.holds(cols + own.take(i as int), index@),
            faults::first_fault((cols.len() + i) as nat, checks) is None,
        decreases n - i,
    {
        let ghost done = cols + own.take(i as int);
        proof {
            assert(column_limit_checks(cv)(i as int) is None);
            assert(done.push(own[i as int]) =~= cols + own.take(i + 1));
            let at = cols.len() + i;
            assert(now.take(at + 1) =~= (cols + own.take(i + 1)).take(at + 1));
            assert(now[at] == own[i as int]);
            assert(checks(at) == column_write_fault(cols + own.take(i + 1), index@, at));
            assert(faults::first_fault((at + 1) as nat, checks) == checks(at));
            if checks(at) is Some {
                faults::lemma_first_fault_stays((at + 1) as nat, now.len(), checks);
            }
        }
        write_column(seg, m.val_at(i), index, Ghost(done))?;
        i = i + 1;
    }
    assert(own.take(n as int) =~= own);
    Ok(())
}

/// A record of the node table directory.
pub open spec fn node_dir_record(tid: u16, col_start: u32, t: NodeTableView) -> Seq<u8> {
    wire::put16(tid) + wire::put16(0) + wire::put32(col_start) + wire::put32(t.columns.len() as u32) + wire::put64(t.rows as u64)
        + wire::put32(0)
}

/// The node table directory of the first `n` tables.
pub open spec fn node_dir_image(v: Seq<NodeTableView>, n: int) -> Seq<u8>
    decreases n,
{
    if n <= 0 {
        Seq::empty()
    } else {
        node_dir_image(v, n - 1) + node_dir_record(
            (n - 1) as u16,
            node_columns(v, n - 1).len() as u32,
            v[n - 1],
        )
    }
}

/// A record of the relationship table directory.
pub open spec fn rel_dir_record(rid: u16, col_start: u32, t: RelTableView) -> Seq<u8> {
    wire::put16(rid) + wire::put16(t.src) + wire::put16(t.dst) + wire::put16(0) + wire::put32(col_start) + wire::put32(
        t.columns.len() as u32,
    ) + wire::put64(t.fwd.targets.len() as u64)
}

/// The relationship table directory of the first `n` tables, their columns
/// behind `base` others.
pub open spec fn rel_dir_image(v: Seq<RelTableView>, n: int, base: int) -> Seq<u8>
    decreases n,
{
    if n <= 0 {
        Seq::empty()
    } else {
        rel_dir_image(v, n - 1, base) + rel_dir_record(
            (n - 1) as u16,
            (base + rel_columns(v, n - 1).len()) as u32,
            v[n - 1],
        )
    }
}

/// The table directories and column segments of a store.
pub struct TableSegments {
    /// Node table directory.
    pub node_dir: Vec<u8>,
    /// Relationship table directory.
    pub rel_dir: Vec<u8>,
    /// Column directory.
    pub column_dir: Vec<u8>,
    /// Block index.
    pub block_index: Vec<u8>,
    /// Column bodies.
    pub bodies: Vec<u8>,
}

fn push_node_dir_record(out: &mut Vec<u8>, tid: u16, col_start: u32, t: &NodeTable)
    ensures
        final(out)@ == old(out)@ + node_dir_record(tid, col_start, t@),
{
    push_u16(out, tid);
    push_u16(out, 0);
    push_u32(out, col_start);
    push_u32(out, t.columns.len() as u32);
    push_u64(out, t.rows as u64);
    push_u32(out, 0);
    assert(out@ =~= old(out)@ + node_dir_record(tid, col_start, t@));
}

fn push_rel_dir_record(out: &mut Vec<u8>, rid: u16, col_start: u32, t: &RelTable)
    ensures
        final(out)@ == old(out)@ + rel_dir_record(rid, col_start, t@),
{
    push_u16(out, rid);
    push_u16(out, t.src_table_id);
    push_u16(out, t.dst_table_id);
    push_u16(out, 0);
    push_u32(out, col_start);
    push_u32(out, t.properties.len() as u32);
    push_u64(out, t.fwd.targets.len() as u64);
    assert(out@ =~= old(out)@ + rel_dir_record(rid, col_start, t@));
}

fn write_node_tables(seg: &mut ColumnSegments, tables: &Vec<NodeTable>, index: &TextMap<u32>) -> (r:
    Result<Vec<u8>, FormatError>)
    requires
        old(seg).holds(Seq::empty(), index@),
        tables@.len() <= 0x1_0000,
        faults::first_fault(tables@.len(), node_limit_checks(tables::node_views(tables@))) is None,
    ensures
        ({
            let v = tables::node_views(tables@);
            let cols = node_columns(v, v.len() as int);
            &&& r is Ok <==> columns_fault(cols, index@) is None
            &&& r matches Ok(x) ==> final(seg).holds(cols, index@) && x@ == node_dir_image(
                v,
                v.len() as int,
            )
            &&& r matches Err(e) ==> columns_fault(cols, index@) == Some(e)
        }),
{
    let ghost v = tables::node_views(tables@);
    let mut dir: Vec<u8> = Vec::new();
    proof {
        faults::lemma_no_fault(v.len(), node_limit_checks(v));
    }
    let mut i: usize = 0;
    while i < tables.len()
        invariant
            i <= tables@.len(),
            tables@.len() <= 0x1_0000,
            v == tables::node_views(tables@),
            forall|k: int| 0 <= k < v.len() ==> (#[trigger] node_limit_checks(v)(k)) is None,
            seg.holds(node_columns(v, i as int), index@),
            columns_fault(node_columns(v, i as int), index@) is None,
            dir@ == node_dir_image(v, i as int),
        decreases tables@.len() - i,
    {
        let t: &NodeTable = &tables[i];
        assert(t@ == v[i as int]);
        assert(node_limit_checks(v)(i as int) is None);
        let col_start: u32 = seg.count;
        match write_columns(seg, &t.columns, index, Ghost(node_columns(v, i as int))) {
            Ok(_) => {},
            Err(e) => {
                proof {
                    lemma_node_columns_prefix(v, i + 1, v.len() as int);
                    let cols = node_columns(v, v.len() as int);
                    assert(cols + Seq::<ColumnView>::empty() =~= cols);
                    lemma_columns_fault_stays(
                        node_columns(v, i + 1),
                        cols,
                        Seq::empty(),
                        index@,
                    );
                }
                return Err(e);
            },
        }
        push_node_dir_record(&mut dir, i as u16, col_start, t);
        i = i + 1;
    }
    Ok(dir)
}

fn write_rel_tables(
    seg: &mut ColumnSegments,
    tables: &Vec<RelTable>,
    index: &TextMap<u32>,
    Ghost(base): Ghost<Seq<ColumnView>>,
) -> (r: Result<Vec<u8>, FormatError>)
    requires
        old(seg).holds(base, index@),
        columns_fault(base, index@) is None,
        tables@.len() <= 0x1_0000,
        faults::first_fault(tables@.len(), rel_limit_checks(tables::rel_views(tables@))) is None,
    ensures
        ({
            let v = tables::rel_views(tables@);
            let cols = base + rel_columns(v, v.len() as int);
            &&& r is Ok <==> columns_fault(cols, index@) is None
            &&& r matches Ok(x) ==> final(seg).holds(cols, index@) && x@ == rel_dir_image(
                v,
                v.len() as int,
                base.len() as int,
            )
            &&& r matches Err(e) ==> columns_fault(cols, index@) == Some(e)
        }),
{
    let ghost v = tables::rel_views(tables@);
    let mut dir: Vec<u8> = Vec::new();
    proof {
        faults::lemma_no_fault(v.len(), rel_limit_checks(v));
    }
    assert(base + rel_columns(v, 0) =~= base);
    let mut i: usize = 0;
    while i < tables.len()
        invariant
            i <= tables@.len(),
            tables@.len() <= 0x1_0000,
            v == tables::rel_views(tables@),
            forall|k: int| 0 <= k < v.len() ==> (#[trigger] rel_limit_checks(v)(k)) is None,
            seg.holds(base + rel_columns(v, i as int), index@),
            columns_fault(base + rel_columns(v, i as int), index@) is None,
            dir@ == rel_dir_image(v, i as int, base.len() as int),
        decreases tables@.len() - i,
    {
        let t: &RelTable = &tables[i];
        assert(t@ == v[i as int]);
        assert(rel_limit_checks(v)(i as int) is None);
        let col_start: u32 = seg.count;
        let ghost done = base + rel_columns(v, i as int);
        assert(done + bare_columns(t@.columns) =~= base + rel_columns(v, i + 1));
        match write_columns(seg, &t.properties, index, Ghost(done)) {
            Ok(_) => {},
            Err(e) => {
                proof {
                    lemma_rel_columns_prefix(v, i + 1, v.len() as int);
                    let part = base + rel_columns(v, i + 1);
                    let cols = base + rel_columns(v, v.len() as int);
                    assert(cols.take(part.len() as int) =~= part);
                    assert(cols + Seq::<ColumnView>::empty() =~= cols);
                    lemma_columns_fault_stays(part, cols, Seq::empty(), index@);
                }
                return Err(e);
            },
        }
        push_rel_dir_record(&mut dir, i as u16, col_start, t);
        i = i + 1;
    }
    Ok(dir)
}

/// Writes the table directories and the columns of all tables.
pub fn write_table_segments(store: &CompactStore, index: &TextMap<u32>) -> (r: Result<
    TableSegments,
    FormatError,
>)
    requires
        limits_fault(store@) is None,
    ensures
        ({
            let s = store@;
            let cols = all_columns(s);
            &&& r is Ok <==> columns_fault(cols, index@) is None
            &&& r matches Ok(x) ==> {
                &&& x.node_dir@ == node_dir_image(s.nodes, s.nodes.len() as int)
                &&& x.rel_dir@ == rel_dir_image(
                    s.rels,
                    s.rels.len() as int,
                    node_columns(s.nodes, s.nodes.len() as int).len() as int,
                )
                &&& x.column_dir@ == column_dir_image(cols)
                &&& x.block_index@ == block_index_image(cols, index@)
                &&& x.bodies@ == bodies_image(cols, index@)
                &&& cols.len() <= u32::MAX
                &&& x.bodies@.len() <= u32::MAX
            }
            &&& r matches Err(e) ==> columns_fault(cols, index@) == Some(e)
        }),
{
    let ghost s = store@;
    let ghost base = node_columns(s.nodes, s.nodes.len() as int);
    let mut seg = ColumnSegments {
        dir: Vec::new(),
        blocks: Vec::new(),
        bodies: Vec::new(),
        count: 0,
    };
    let node_dir = match write_node_tables(&mut seg, &store.node_tables, index) {
        Ok(x) => x,
        Err(e) => {
            proof {
                assert(base.take(base.len() as int) =~= base);
                lemma_columns_fault_stays(
                    base,
                    base,
                    rel_columns(s.rels, s.rels.len() as int),
                    index@,
                );
            }
            return Err(e);
        },
    };
    let rel_dir = write_rel_tables(&mut seg, &store.rel_tables, index, Ghost(base))?;
    Ok(
        TableSegments {
            node_dir,
            rel_dir,
            column_dir: seg.dir,
            block_index: seg.blocks,
            bodies: seg.bodies,
        },
    )
}

proof fn lemma_node_columns_prefix(v: Seq<NodeTableView>, n: int, m: int)
    requires
        0 <= n <= m,
    ensures
        node_columns(v, n).len() <= node_columns(v, m).len(),
        node_columns(v, m).take(node_columns(v, n).len() as int) == node_columns(v, n),
    decreases m,
{
    if n < m {
        lemma_node_columns_prefix(v, n, m - 1);
        assert(node_columns(v, m).take(node_columns(v, n).len() as int) =~= node_columns(
            v,
            m - 1,
        ).take(node_columns(v, n).len() as int));
    } else {
        assert(node_columns(v, m).take(node_columns(v, n).len() as int) =~= node_columns(v, n));
    }
}

proof fn lemma_rel_columns_prefix(v: Seq<RelTableView>, n: int, m: int)
    requires
        0 <= n <= m,
    ensures
        rel_columns(v, n).len() <= rel_columns(v, m).len(),
        rel_columns(v, m).take(rel_columns(v, n).len() as int) == rel_columns(v, n),
    decreases m,
{
    if n < m {
        lemma_rel_columns_prefix(v, n, m - 1);
        assert(rel_columns(v, m).take(rel_columns(v, n).len() as int) =~= rel_columns(
            v,
            m - 1,
        ).take(rel_columns(v, n).len() as int));
    } else {
        assert(rel_columns(v, m).take(rel_columns(v, n).len() as int) =~= rel_columns(v, n));
    }
}

proof fn lemma_columns_fault_stays(
    part: Seq<ColumnView>,
    whole: Seq<ColumnView>,
    more: Seq<ColumnView>,
    index: Map<Seq<char>, u32>,
)
    requires
        part.len() <= whole.len(),
        whole.take(part.len() as int) == part,
        columns_fault(part, index) is Some,
    ensures
        columns_fault(whole + more, index) == columns_fault(part, index),
{
    let rest = whole.skip(part.len() as int) + more;
    assert(part + rest =~= whole + more);
    lemma_column_checks_prefix(part, rest, index, part.len());
    faults::lemma_first_fault_stays(
        part.len(),
        (whole + more).len(),
        column_write_checks(whole + more, index),
    );
}

/// The forward offsets of the first `n` tables.
pub open spec fn fwd_offsets(v: Seq<RelTableView>, n: int) -> Seq<u32>
    decreases n,
{
    if n <= 0 {
        Seq::empty()
    } else {
        fwd_offsets(v, n - 1) + v[n - 1].fwd.offsets
    }
}

/// The forward targets of the first `n` tables.
pub open spec fn fwd_targets(v: Seq<RelTableView>, n: int) -> Seq<u32>
    decreases n,
{
    if n <= 0 {
        Seq::empty()
    } else {
        fwd_targets(v, n - 1) + v[n - 1].fwd.targets
    }
}

/// The offsets of an optional adjacency.
pub open spec fn csr_offsets(c: Option<CsrView>) -> Seq<u32> {
    match c {
        Some(x) => x.offsets,
        None => Seq::empty(),
    }
}

/// The targets of an optional adjacency.
pub open spec fn csr_targets(c: Option<CsrView>) -> Seq<u32> {
    match c {
        Some(x) => x.targets,
        None => Seq::empty(),
    }
}

/// The words per target of an optional adjacency; zeros where it has none.
pub open spec fn csr_positions(c: Option<CsrView>) -> Seq<u32> {
    match c {
        Some(x) => match x.edge_data {
            Some(w) => w,
            None => Seq::new(x.targets.len(), |i: int| 0u32),
        },
        None => Seq::empty(),
    }
}

/// The reverse offsets of the first `n` tables.
pub open spec fn rev_offsets(v: Seq<RelTableView>, n: int) -> Seq<u32>
    decreases n,
{
    if n <= 0 {
        Seq::empty()
    } else {
        rev_offsets(v, n - 1) + csr_offsets(v[n - 1].bwd)
    }
}

/// The reverse targets of the first `n` tables.
pub open spec fn rev_targets(v: Seq<RelTableView>, n: int) -> Seq<u32>
    decreases n,
{
    if n <= 0 {
        Seq::empty()
    } else {
        rev_targets(v, n - 1) + csr_targets(v[n - 1].bwd)
    }
}

/// The forward positions of the reverse edges of the first `n` tables.
pub open spec fn rev_positions(v: Seq<RelTableView>, n: int) -> Seq<u32>
    decreases n,
{
    if n <= 0 {
        Seq::empty()
    } else {
        rev_positions(v, n - 1) + csr_positions(v[n - 1].bwd)
    }
}

/// Some of the first `n` tables has a reverse adjacency.
pub open spec fn any_reverse(v: Seq<RelTableView>, n: int) -> bool
    decreases n,
{
    n > 0 && (any_reverse(v, n - 1) || v[n - 1].bwd is Some)
}

/// Appends a row of words.
pub fn append_u32_array(buf: &mut Vec<u8>, values: &[u32])
    ensures
        final(buf)@ == old(buf)@ + views::bytes_of_u32s(values@),
{
    let ghost f = |v: u32| wire::put32(v);
    let mut i: usize = 0;
    assert(values@.take(0) =~= Seq::empty());
    assert(buf@ =~= old(buf)@ + views::bytes_of_u32s(values@.take(0)));
    while i < values.len()
        invariant
            i <= values@.len(),
            f == (|v: u32| wire::put32(v)),
            buf@ == old(buf)@ + views::bytes_of_u32s(values@.take(i as int)),
        decreases values@.len() - i,
    {
        push_u32(buf, values[i]);
        proof {
            wire::lemma_flat_push(values@.take(i as int), values@[i as int], f);
            assert(values@.take(i as int).push(values@[i as int]) =~= values@.take(i + 1));
            assert(buf@ =~= old(buf)@ + views::bytes_of_u32s(values@.take(i + 1)));
        }
        i = i + 1;
    }
    assert(values@.take(i as int) =~= values@);
}

fn append_u64_array(buf: &mut Vec<u8>, values: &[u64])
    ensures
        final(buf)@ == old(buf)@ + views::bytes_of_u64s(values@),
{
    let ghost f = |v: u64| wire::put64(v);
    let mut i: usize = 0;
    assert(values@.take(0) =~= Seq::empty());
    assert(buf@ =~= old(buf)@ + views::bytes_of_u64s(values@.take(0)));
    while i < values.len()
        invariant
            i <= values@.len(),
            f == (|v: u64| wire::put64(v)),
            buf@ == old(buf)@ + views::bytes_of_u64s(values@.take(i as int)),
        decreases values@.len() - i,
    {
        push_u64(buf, values[i]);
        proof {
            wire::lemma_flat_push(values@.take(i as int), values@[i as int], f);
            assert(values@.take(i as int).push(values@[i as int]) =~= values@.take(i + 1));
            assert(buf@ =~= old(buf)@ + views::bytes_of_u64s(values@.take(i + 1)));
        }
        i = i + 1;
    }
    assert(values@.take(i as int) =~= values@);
}

proof fn lemma_u32_bytes_add(a: Seq<u32>, b: Seq<u32>)
    ensures
        views::bytes_of_u32s(a + b) == views::bytes_of_u32s(a) + views::bytes_of_u32s(b),
{
    wire::lemma_flat_add(a, b, |v: u32| wire::put32(v));
}

fn append_zero_words(buf: &mut Vec<u8>, n: usize)
    ensures
        final(buf)@ == old(buf)@ + views::bytes_of_u32s(Seq::new(n as nat, |i: int| 0u32)),
{
    let ghost f = |v: u32| wire::put32(v);
    let mut i: usize = 0;
    assert(buf@ =~= old(buf)@ + views::bytes_of_u32s(Seq::new(0, |i: int| 0u32)));
    while i < n
        invariant
            i <= n,
            f == (|v: u32| wire::put32(v)),
            buf@ == old(buf)@ + views::bytes_of_u32s(Seq::new(i as nat, |i: int| 0u32)),
        decreases n - i,
    {
        push_u32(buf, 0);
        proof {
            let z = Seq::new(i as nat, |i: int| 0u32);
            let z1 = Seq::new((i + 1) as nat, |i: int| 0u32);
            wire::lemma_flat_push(z, 0u32, f);
            assert(z.push(0u32) =~= z1);
            assert(buf@ =~= old(buf)@ + views::bytes_of_u32s(z1));
        }
        i = i + 1;
    }
}

/// The adjacency segments of a store.
pub struct CsrSegments {
    /// Forward offsets.
    pub fwd_offsets: Vec<u8>,
    /// Forward targets.
    pub fwd_targets: Vec<u8>,
    /// Reverse offsets.
    pub rev_offsets: Vec<u8>,
    /// Reverse targets.
    pub rev_targets: Vec<u8>,
    /// Forward positions of the reverse edges.
    pub fwd_positions: Vec<u8>,
    /// Some table has a reverse adjacency.
    pub has_reverse: bool,
}

/// Writes the adjacency of all relationship tables.
pub fn write_csr_segments(tables: &Vec<RelTable>) -> (r: CsrSegments)
    ensures
        ({
            let v = tables::rel_views(tables@);
            let n = v.len() as int;
            &&& r.fwd_offsets@ == views::bytes_of_u32s(fwd_offsets(v, n))
            &&& r.fwd_targets@ == views::bytes_of_u32s(fwd_targets(v, n))
            &&& r.rev_offsets@ == views::bytes_of_u32s(rev_offsets(v, n))
            &&& r.rev_targets@ == views::bytes_of_u32s(rev_targets(v, n))
            &&& r.fwd_positions@ == views::bytes_of_u32s(rev_positions(v, n))
            &&& r.has_reverse == any_reverse(v, n)
        }),
{
    let ghost v = tables::rel_views(tables@);
    let mut fo: Vec<u8> = Vec::new();
    let mut ft: Vec<u8> = Vec::new();
    let mut ro: Vec<u8> = Vec::new();
    let mut rt: Vec<u8> = Vec::new();
    let mut fp: Vec<u8> = Vec::new();
    let mut has_reverse: bool = false;
    let mut i: usize = 0;
    while i < tables.len()
        invariant
            i <= tables@.len(),
            v == tables::rel_views(tables@),
            fo@ == views::bytes_of_u32s(fwd_offsets(v, i as int)),
            ft@ == views::bytes_of_u32s(fwd_targets(v, i as int)),
            ro@ == views::bytes_of_u32s(rev_offsets(v, i as int)),
            rt@ == views::bytes_of_u32s(rev_targets(v, i as int)),
            fp@ == views::bytes_of_u32s(rev_positions(v, i as int)),
            has_reverse == any_reverse(v, i as int),
        decreases tables@.len() - i,
    {
        let t: &RelTable = &tables[i];
        assert(t@ == v[i as int]);
        proof {
            let x = v[i as int];
            lemma_u32_bytes_add(fwd_offsets(v, i as int), x.fwd.offsets);
            lemma_u32_bytes_add(fwd_targets(v, i as int), x.fwd.targets);
            lemma_u32_bytes_add(rev_offsets(v, i as int), csr_offsets(x.bwd));
            lemma_u32_bytes_add(rev_targets(v, i as int), csr_targets(x.bwd));
            lemma_u32_bytes_add(rev_positions(v, i as int), csr_positions(x.bwd));
        }
        append_u32_array(&mut fo, t.fwd.offsets.as_slice());
        append_u32_array(&mut ft, t.fwd.targets.as_slice());
        match &t.bwd {
            Some(b) => {
                has_reverse = true;
                append_u32_array(&mut ro, b.offsets.as_slice());
                append_u32_array(&mut rt, b.targets.as_slice());
                match &b.edge_data {
                    Some(w) => {
                        append_u32_array(&mut fp, w.as_slice());
                    },
                    None => {
                        append_zero_words(&mut fp, b.targets.len());
                    },
                }
            },
            None => {
                assert(ro@ + views::bytes_of_u32s(Seq::empty()) =~= ro@);
                assert(rt@ + views::bytes_of_u32s(Seq::empty()) =~= rt@);
                assert(fp@ + views::bytes_of_u32s(Seq::empty()) =~= fp@);
            },
        }
        i = i + 1;
    }
    CsrSegments {
        fwd_offsets: fo,
        fwd_targets: ft,
        rev_offsets: ro,
        rev_targets: rt,
        fwd_positions: fp,
        has_reverse,
    }
}

/// The sort keys of lookup entries.
pub open spec fn lookup_keys(v: Seq<LookupEntry>) -> Seq<Seq<u8>> {
    Seq::new(v.len(), |i: int| wire::put64_be(v[i].0))
}

/// Lookup entries by identifier.
pub open spec fn by_id(v: Seq<LookupEntry>) -> Seq<LookupEntry> {
    Seq::new(v.len(), |i: int| v[sorting::stable_order(lookup_keys(v))[i]])
}

/// Entries by identifier are sorted, and are the entries handed in.
pub proof fn lemma_by_id(v: Seq<LookupEntry>)
    ensures
        by_id(v).len() == v.len(),
        id_lookup::lookup_sorted(by_id(v)),
        forall|e: LookupEntry| #[trigger] by_id(v).contains(e) <==> v.contains(e),
{
    let keys = lookup_keys(v);
    let so = sorting::stable_order(keys);
    sorting::lemma_stable_order(keys);
    let b = by_id(v);
    assert forall|i: int, j: int| 0 <= i < j < b.len() implies #[trigger] b[i].0
        <= #[trigger] b[j].0 by {
        let leq = sorting::key_leq(keys);
        assert(leq(so[i], so[j]));
        wire::lemma_be64_order(v[so[i]].0, v[so[j]].0);
        wire::lemma_be64_order(v[so[j]].0, v[so[i]].0);
        if keys[so[i]] == keys[so[j]] {
            wire::lemma_get_put64_be(v[so[i]].0);
            wire::lemma_get_put64_be(v[so[j]].0);
        }
    }
    assert forall|e: LookupEntry| #[trigger] b.contains(e) <==> v.contains(e) by {
        if b.contains(e) {
            let i = b.index_of(e);
            assert(v[so[i]] == e);
        }
        if v.contains(e) {
            let x = v.index_of(e);
            assert(so.contains(x));
            let i = so.index_of(x);
            assert(b[i] == e);
        }
    }
}

fn sort_by_id(v: &Vec<LookupEntry>) -> (r: Vec<LookupEntry>)
    ensures
        r@ == by_id(v@),
{
    let mut keys: Vec<Vec<u8>> = Vec::new();
    let mut i: usize = 0;
    while i < v.len()
        invariant
            i <= v@.len(),
            keys@.len() == i,
            forall|k: int| 0 <= k < i ==> (#[trigger] keys@[k])@ == wire::put64_be(v@[k].0),
        decreases v@.len() - i,
    {
        let mut key: Vec<u8> = Vec::new();
        push_u64_be(&mut key, v[i].0);
        assert(key@ =~= wire::put64_be(v@[i as int].0));
        keys.push(key);
        i = i + 1;
    }
    assert(sorting::key_bytes(keys@) =~= lookup_keys(v@));
    let order: Vec<usize> = sort_keys(keys.as_slice());
    let ghost so = sorting::stable_order(lookup_keys(v@));
    proof {
        sorting::lemma_stable_order(lookup_keys(v@));
    }
    assert(sorting::as_ints(order@).len() == v@.len());
    let mut out: Vec<LookupEntry> = Vec::new();
    let mut k: usize = 0;
    while k < order.len()
        invariant
            k <= order@.len(),
            order@.len() == v@.len(),
            sorting::as_ints(order@) == so,
            so == sorting::stable_order(lookup_keys(v@)),
            forall|j: int| 0 <= j < v@.len() ==> 0 <= #[trigger] so[j] < v@.len(),
            out@.len() == k,
            forall|j: int| 0 <= j < k ==> #[trigger] out@[j] == v@[so[j]],
        decreases order@.len() - k,
    {
        assert(sorting::as_ints(order@)[k as int] == so[k as int]);
        out.push(v[order[k]]);
        k = k + 1;
    }
    assert(out@ =~= by_id(v@));
    out
}

/// The rows of the first `n` tables, end to end.
pub open spec fn joined(v: Seq<Seq<u64>>, n: int) -> Seq<u64>
    decreases n,
{
    if n <= 0 {
        Seq::empty()
    } else {
        joined(v, n - 1) + v[n - 1]
    }
}

fn write_original_ids(rows: &Vec<Vec<u64>>) -> (out: Vec<u8>)
    ensures
        out@ == views::bytes_of_u64s(joined(tables::id_rows(rows@), rows@.len() as int)),
{
    let ghost v = tables::id_rows(rows@);
    let mut out: Vec<u8> = Vec::new();
    let mut i: usize = 0;
    while i < rows.len()
        invariant
            i <= rows@.len(),
            v == tables::id_rows(rows@),
            out@ == views::bytes_of_u64s(joined(v, i as int)),
        decreases rows@.len() - i,
    {
        proof {
            assert(v[i as int] == rows@[i as int]@);
            wire::lemma_flat_add(joined(v, i as int), v[i as int], |v: u64| wire::put64(v));
        }
        append_u64_array(&mut out, rows[i].as_slice());
        i = i + 1;
    }
    out
}

fn write_lookup(entries: &Vec<LookupEntry>, nodes: bool) -> (out: Vec<u8>)
    ensures
        out@ == id_lookup::lookup_records(by_id(entries@)),
{
    let sorted = sort_by_id(entries);
    let ghost f = |e: LookupEntry| id_lookup::lookup_record(e);
    let mut out: Vec<u8> = Vec::new();
    let mut i: usize = 0;
    assert(sorted@.take(0) =~= Seq::empty());
    while i < sorted.len()
        invariant
            i <= sorted@.len(),
            f == (|e: LookupEntry| id_lookup::lookup_record(e)),
            out@ == id_lookup::lookup_records(sorted@.take(i as int)),
        decreases sorted@.len() - i,
    {
        let e: LookupEntry = sorted[i];
        if nodes {
            write_node_id_record(&mut out, e.0, e.1, e.2);
        } else {
            write_edge_id_record(&mut out, e.0, e.1, e.2);
        }
        proof {
            wire::lemma_flat_push(sorted@.take(i as int), sorted@[i as int], f);
            assert(sorted@.take(i as int).push(sorted@[i as int]) =~= sorted@.take(i + 1));
        }
        i = i + 1;
    }
    assert(sorted@.take(i as int) =~= sorted@);
    out
}

/// The segments of metadata, texts, table directories and columns.
pub open spec fn table_part(
    meta: Seq<u8>,
    offsets: Seq<u8>,
    blob: Seq<u8>,
    node_dir: Seq<u8>,
    rel_dir: Seq<u8>,
    column_dir: Seq<u8>,
    block_index: Seq<u8>,
    bodies: Seq<u8>,
) -> Seq<SegmentView> {
    seq![
        payload::required_segment(SegmentKind::Metadata, 1, 0, meta),
        payload::required_segment(SegmentKind::StringOffsets, 8, 8, offsets),
        payload::required_segment(SegmentKind::StringBytes, 1, 1, blob),
        payload::required_segment(SegmentKind::NodeTableDirectory, 8, 24, node_dir),
        payload::required_segment(SegmentKind::RelTableDirectory, 8, 24, rel_dir),
        payload::required_segment(SegmentKind::ColumnDirectory, 8, 24, column_dir),
        payload::required_segment(SegmentKind::ColumnBlockIndex, 4, 12, block_index),
        payload::required_segment(SegmentKind::ColumnBodies, 1, 0, bodies),
    ]
}

/// The segments of the forward adjacency.
pub open spec fn forward_segments(s: StoreView) -> Seq<SegmentView> {
    let nr = s.rels.len() as int;
    seq![
        payload::required_segment(
            SegmentKind::ForwardCsrOffsets,
            4,
            4,
            views::bytes_of_u32s(fwd_offsets(s.rels, nr)),
        ),
        payload::required_segment(
            SegmentKind::ForwardCsrTargets,
            4,
            4,
            views::bytes_of_u32s(fwd_targets(s.rels, nr)),
        ),
    ]
}

/// The segments of metadata, texts, table directories and columns of a store.
pub open spec fn base_segments(s: StoreView, dict: Seq<Seq<char>>) -> Seq<SegmentView> {
    let index = intern::codes_of_texts(dict);
    let cols = all_columns(s);
    let nn = s.nodes.len() as int;
    let nr = s.rels.len() as int;
    table_part(
        metadata_image(s, index),
        views::bytes_of_u64s(string_dict::text_offsets(dict)),
        string_dict::text_blob(dict),
        node_dir_image(s.nodes, nn),
        rel_dir_image(s.rels, nr, node_columns(s.nodes, nn).len() as int),
        column_dir_image(cols),
        block_index_image(cols, index),
        bodies_image(cols, index),
    )
}

/// The segments of metadata, texts, table directories and columns of a store,
/// the metadata given.
pub open spec fn tables_with(meta: Seq<u8>, s: StoreView, dict: Seq<Seq<char>>) -> Seq<
    SegmentView,
> {
    let index = intern::codes_of_texts(dict);
    let cols = all_columns(s);
    let nn = s.nodes.len() as int;
    let nr = s.rels.len() as int;
    table_part(
        meta,
        views::bytes_of_u64s(string_dict::text_offsets(dict)),
        string_dict::text_blob(dict),
        node_dir_image(s.nodes, nn),
        rel_dir_image(s.rels, nr, node_columns(s.nodes, nn).len() as int),
        column_dir_image(cols),
        block_index_image(cols, index),
        bodies_image(cols, index),
    )
}

/// The segments of the reverse adjacency.
pub open spec fn whole_reverse(s: StoreView) -> Seq<SegmentView> {
    let nr = s.rels.len() as int;
    seq![
        payload::required_segment(
            SegmentKind::ReverseCsrOffsets,
            4,
            4,
            views::bytes_of_u32s(rev_offsets(s.rels, nr)),
        ),
        payload::required_segment(
            SegmentKind::ReverseCsrTargets,
            4,
            4,
            views::bytes_of_u32s(rev_targets(s.rels, nr)),
        ),
        payload::required_segment(
            SegmentKind::ForwardPositions,
            4,
            4,
            views::bytes_of_u32s(rev_positions(s.rels, nr)),
        ),
    ]
}

/// The segments of the reverse adjacency, where there is one.
pub open spec fn reverse_segments(s: StoreView) -> Seq<SegmentView> {
    if any_reverse(s.rels, s.rels.len() as int) {
        whole_reverse(s)
    } else {
        Seq::empty()
    }
}

/// The segments of the reverse adjacency: in any case, or where there is one.
pub open spec fn reverse_part(s: StoreView, always: bool) -> Seq<SegmentView> {
    if always {
        whole_reverse(s)
    } else {
        reverse_segments(s)
    }
}

/// The segments of the preserved identifiers, where the store keeps them.
pub open spec fn id_segments(s: StoreView) -> Seq<SegmentView> {
    match s.ids {
        Some(x) => seq![
            payload::required_segment(SegmentKind::NodeIdLookup, 8, 24, id_lookup::lookup_records(by_id(x.nodes))),
            payload::required_segment(SegmentKind::EdgeIdLookup, 8, 24, id_lookup::lookup_records(by_id(x.edges))),
            payload::required_segment(
                SegmentKind::NodeOriginalIds,
                8,
                8,
                views::bytes_of_u64s(joined(x.node_ids, x.node_ids.len() as int)),
            ),
            payload::required_segment(
                SegmentKind::EdgeOriginalIds,
                8,
                8,
                views::bytes_of_u64s(joined(x.edge_ids, x.edge_ids.len() as int)),
            ),
        ],
        None => Seq::empty(),
    }
}

/// A segment, unless its body is empty.
pub open spec fn nonempty_segment(kind: SegmentKind, width: u32, body: Seq<u8>) -> Seq<SegmentView> {
    if body.len() == 0 {
        Seq::empty()
    } else {
        seq![payload::required_segment(kind, 8, width, body)]
    }
}

/// The zone map segments and the code index, where they hold anything.
pub open spec fn lookup_segments(s: StoreView, dict: Seq<Seq<char>>) -> Seq<SegmentView> {
    let index = intern::codes_of_texts(dict);
    let nn = s.nodes.len() as int;
    nonempty_segment(
        SegmentKind::TableZoneMaps,
        40,
        zone_maps::zone_segment(zone_maps::table_zone_rows(s.nodes, nn), index),
    ) + nonempty_segment(
        SegmentKind::BlockZoneMaps,
        40,
        zone_maps::zone_segment(zone_maps::block_zone_rows(s.nodes, nn), index),
    ) + nonempty_segment(SegmentKind::DictionaryCodeIndex, 16, code_index::code_index_of(dict))
}

/// All segments of a store's payload.
pub open spec fn v5_segments(s: StoreView, order: StringCodeOrder) -> Seq<SegmentView> {
    let dict = intern::dictionary(intern::store_texts(s), order);
    base_segments(s, dict) + forward_segments(s) + reverse_segments(s) + id_segments(s)
        + lookup_segments(s, dict)
}

/// The payload of a store.
pub open spec fn v5_image(s: StoreView, order: StringCodeOrder) -> Seq<u8> {
    payload::payload_image(
        v5_segments(s, order),
        if s.ids is Some {
            1
        } else {
            0
        },
        node_total(s.nodes, s.nodes.len() as int) as u64,
        edge_total(s.rels, s.rels.len() as int) as u64,
    )
}

/// Every text is short enough for a length field.
pub open spec fn texts_short(d: Seq<Seq<char>>) -> bool {
    forall|i: int| 0 <= i < d.len() ==> text::utf8(#[trigger] d[i]).len() <= u32::MAX
}

/// The first thing that keeps a store from being written.
pub open spec fn v5_fault(s: StoreView, order: StringCodeOrder) -> Option<FormatError> {
    let dict = intern::dictionary(intern::store_texts(s), order);
    let index = intern::codes_of_texts(dict);
    if limits_fault(s) is Some {
        limits_fault(s)
    } else if dict.len() > u32::MAX {
        Some(FormatError::WireLimit(WireField::Texts))
    } else if !texts_short(dict) {
        Some(FormatError::WireLimit(WireField::TextBytes))
    } else if columns_fault(all_columns(s), index) is Some {
        columns_fault(all_columns(s), index)
    } else {
        zone_maps::zones_write_fault(s.nodes, index)
    }
}

/// Whether every text is short enough for a length field.
pub fn check_texts_short(strings: &Vec<String>) -> (r: bool)
    ensures
        r == texts_short(text::texts(strings@)),
{
    let ghost d = text::texts(strings@);
    let mut i: usize = 0;
    while i < strings.len()
        invariant
            i <= strings@.len(),
            d == text::texts(strings@),
            forall|k: int| 0 <= k < i ==> text::utf8(#[trigger] d[k]).len() <= u32::MAX,
        decreases strings@.len() - i,
    {
        assert(d[i as int] == strings@[i as int]@);
        if strings[i].as_str().as_bytes().len() > u32::MAX as usize {
            return false;
        }
        i = i + 1;
    }
    true
}

/// The dictionary of a store has a code for every name and key.
pub proof fn lemma_store_indexed(s: StoreView, order: StringCodeOrder)
    ensures
        store_indexed(s, intern::codes_of_texts(intern::dictionary(intern::store_texts(s), order))),
{
    let list = intern::store_texts(s);
    let dict = intern::dictionary(list, order);
    let index = intern::codes_of_texts(dict);
    intern::lemma_dictionary(list, order);
    assert forall|i: int| 0 <= i < s.nodes.len() implies table_indexed(
        (#[trigger] s.nodes[i]).label,
        s.nodes[i].columns,
        index,
    ) by {
        let t = s.nodes[i];
        intern::lemma_table_texts(t.label, t.columns, t.zones, t.blocks);
        intern::lemma_store_has_node_text(s, i, t.label);
        assert(dict.contains(t.label));
        assert forall|k: int| 0 <= k < t.columns.len() implies index.dom().contains(
            (#[trigger] t.columns[k]).0,
        ) by {
            intern::lemma_store_has_node_text(s, i, t.columns[k].0);
            assert(dict.contains(t.columns[k].0));
        }
    }
    assert forall|i: int| 0 <= i < s.rels.len() implies table_indexed(
        (#[trigger] s.rels[i]).edge_type,
        s.rels[i].columns,
        index,
    ) by {
        let t = s.rels[i];
        intern::lemma_table_texts(t.edge_type, t.columns, t.zones, t.blocks);
        intern::lemma_store_has_rel_text(s, i, t.edge_type);
        assert(dict.contains(t.edge_type));
        assert forall|k: int| 0 <= k < t.columns.len() implies index.dom().contains(
            (#[trigger] t.columns[k]).0,
        ) by {
            intern::lemma_store_has_rel_text(s, i, t.columns[k].0);
            assert(dict.contains(t.columns[k].0));
        }
    }
}

/// The dictionary of a store.
pub fn build_dictionary(store: &CompactStore, string_order: StringCodeOrder) -> (r: Vec<String>)
    ensures
        text::texts(r@) == intern::dictionary(intern::store_texts(store@), string_order),
{
    let mut collector = TextCollector::new();
    collector.intern_store(store);
    let strings = collector.finish();
    if string_order == StringCodeOrder::Lexicographic {
        sort_texts(&strings)
    } else {
        strings
    }
}

fn base_part(meta: Vec<u8>, offsets: Vec<u8>, blob: Vec<u8>, tables: TableSegments) -> (out: Vec<
    Segment,
>)
    ensures
        payload::segment_views(out@) == table_part(
            meta@,
            offsets@,
            blob@,
            tables.node_dir@,
            tables.rel_dir@,
            tables.column_dir@,
            tables.block_index@,
            tables.bodies@,
        ),
{
    let mut out: Vec<Segment> = Vec::new();
    out.push(make_segment(SegmentKind::Metadata, 1, 0, meta));
    out.push(make_segment(SegmentKind::StringOffsets, 8, 8, offsets));
    out.push(make_segment(SegmentKind::StringBytes, 1, 1, blob));
    out.push(make_segment(SegmentKind::NodeTableDirectory, 8, 24, tables.node_dir));
    out.push(make_segment(SegmentKind::RelTableDirectory, 8, 24, tables.rel_dir));
    out.push(make_segment(SegmentKind::ColumnDirectory, 8, 24, tables.column_dir));
    out.push(make_segment(SegmentKind::ColumnBlockIndex, 4, 12, tables.block_index));
    out.push(make_segment(SegmentKind::ColumnBodies, 1, 0, tables.bodies));
    assert(payload::segment_views(out@) =~= table_part(
        meta@,
        offsets@,
        blob@,
        tables.node_dir@,
        tables.rel_dir@,
        tables.column_dir@,
        tables.block_index@,
        tables.bodies@,
    ));
    out
}

/// Appends a segment.
pub fn push_segment(out: &mut Vec<Segment>, kind: SegmentKind, alignment: u16, width: u32, body: Vec<u8>)
    ensures
        payload::segment_views(final(out)@) == payload::segment_views(old(out)@).push(
            payload::required_segment(kind, alignment, width, body@),
        ),
{
    out.push(make_segment(kind, alignment, width, body));
    assert(payload::segment_views(out@) =~= payload::segment_views(old(out)@).push(
        payload::required_segment(kind, alignment, width, body@),
    ));
}

fn push_csr_segments(out: &mut Vec<Segment>, store: &CompactStore, always: bool)
    ensures
        payload::segment_views(final(out)@) == payload::segment_views(old(out)@) + forward_segments(store@)
            + reverse_part(store@, always),
{
    let ghost s = store@;
    let ghost start = payload::segment_views(out@);
    let csr = write_csr_segments(&store.rel_tables);
    push_segment(out, SegmentKind::ForwardCsrOffsets, 4, 4, csr.fwd_offsets);
    push_segment(out, SegmentKind::ForwardCsrTargets, 4, 4, csr.fwd_targets);
    let ghost before = payload::segment_views(out@);
    assert(before =~= start + forward_segments(s));
    if csr.has_reverse || always {
        push_segment(out, SegmentKind::ReverseCsrOffsets, 4, 4, csr.rev_offsets);
        push_segment(out, SegmentKind::ReverseCsrTargets, 4, 4, csr.rev_targets);
        push_segment(out, SegmentKind::ForwardPositions, 4, 4, csr.fwd_positions);
    }
    assert(payload::segment_views(out@) =~= before + reverse_part(s, always));
}

fn push_id_segments(out: &mut Vec<Segment>, store: &CompactStore)
    ensures
        payload::segment_views(final(out)@) == payload::segment_views(old(out)@) + id_segments(store@),
{
    let ghost before = payload::segment_views(out@);
    match &store.ids {
        Some(x) => {
            push_segment(out, SegmentKind::NodeIdLookup, 8, 24, write_lookup(&x.nodes, true));
            push_segment(out, SegmentKind::EdgeIdLookup, 8, 24, write_lookup(&x.edges, false));
            push_segment(
                out,
                SegmentKind::NodeOriginalIds,
                8,
                8,
                write_original_ids(&x.node_ids),
            );
            push_segment(
                out,
                SegmentKind::EdgeOriginalIds,
                8,
                8,
                write_original_ids(&x.edge_ids),
            );
        },
        None => {},
    }
    assert(payload::segment_views(out@) =~= before + id_segments(store@));
}

fn push_nonempty(out: &mut Vec<Segment>, kind: SegmentKind, width: u32, body: Vec<u8>)
    ensures
        payload::segment_views(final(out)@) == payload::segment_views(old(out)@) + nonempty_segment(
            kind,
            width,
            body@,
        ),
{
    let ghost before = payload::segment_views(out@);
    if body.len() > 0 {
        push_segment(out, kind, 8, width, body);
    }
    assert(payload::segment_views(out@) =~= before + nonempty_segment(kind, width, body@));
}

proof fn lemma_v5_segments_aligned(s: StoreView, order: StringCodeOrder)
    ensures
        payload::segments_aligned(v5_segments(s, order)),
        v5_segments(s, order).len() <= 20,
{
}

/// The segments of a store but for zone maps and code index, given its
/// metadata and its dictionary. Those of the reverse adjacency come in any
/// case, or where there is one.
pub fn collect_with(
    meta: Vec<u8>,
    store: &CompactStore,
    strings: &Vec<String>,
    index: &TextMap<u32>,
    always: bool,
) -> (r: Result<Vec<Segment>, FormatError>)
    requires
        limits_fault(store@) is None,
        strings@.len() <= u32::MAX,
        texts_short(text::texts(strings@)),
        index@ == intern::codes_of_texts(text::texts(strings@)),
        store_indexed(store@, index@),
    ensures
        ({
            let s = store@;
            let dict = text::texts(strings@);
            &&& r is Ok <==> columns_fault(all_columns(s), index@) is None
            &&& r matches Ok(x) ==> payload::segment_views(x@) == tables_with(meta@, s, dict)
                + forward_segments(s) + reverse_part(s, always) + id_segments(s) && code_index::code_index_fits(
                dict,
            )
            &&& r matches Err(e) ==> columns_fault(all_columns(s), index@) == Some(e)
        }),
{
    let ghost s = store@;
    let ghost dict = text::texts(strings@);
    let refs = borrow_all(strings);
    let tables = write_table_segments(store, index)?;
    let (offsets, blob) = build_string_segments(refs.as_slice());
    proof {
        string_dict::lemma_text_blob_len(dict);
        assert(blob@.len() == blob.len());
    }
    let ghost m = meta@;
    let mut segments: Vec<Segment> = base_part(meta, offsets, blob, tables);
    assert(payload::segment_views(segments@) == tables_with(m, s, dict));
    push_csr_segments(&mut segments, store, always);
    push_id_segments(&mut segments, store);
    Ok(segments)
}

/// The segments of a store but for zone maps and code index, given its
/// dictionary. Those of the reverse adjacency come in any case, or where there
/// is one.
pub fn collect_base(
    store: &CompactStore,
    strings: &Vec<String>,
    index: &TextMap<u32>,
    always: bool,
) -> (r: Result<Vec<Segment>, FormatError>)
    requires
        limits_fault(store@) is None,
        strings@.len() <= u32::MAX,
        texts_short(text::texts(strings@)),
        index@ == intern::codes_of_texts(text::texts(strings@)),
        store_indexed(store@, index@),
    ensures
        ({
            let s = store@;
            let dict = text::texts(strings@);
            &&& r is Ok <==> columns_fault(all_columns(s), index@) is None
            &&& r matches Ok(x) ==> payload::segment_views(x@) == base_segments(s, dict)
                + forward_segments(s) + reverse_part(s, always) + id_segments(s) && code_index::code_index_fits(
                dict,
            )
            &&& r matches Err(e) ==> columns_fault(all_columns(s), index@) == Some(e)
        }),
{
    let meta = write_metadata(store, index);
    collect_with(meta, store, strings, index, always)
}

/// The zone map segments where they hold anything, and the code index: in any
/// case, or where it holds anything.
pub open spec fn index_segments(
    zones: Seq<u8>,
    blocks: Seq<u8>,
    dict: Seq<Seq<char>>,
    always: bool,
) -> Seq<SegmentView> {
    nonempty_segment(SegmentKind::TableZoneMaps, 40, zones) + nonempty_segment(
        SegmentKind::BlockZoneMaps,
        40,
        blocks,
    ) + if always {
        seq![payload::required_segment(SegmentKind::DictionaryCodeIndex, 8, 16, code_index::code_index_of(dict))]
    } else {
        nonempty_segment(SegmentKind::DictionaryCodeIndex, 16, code_index::code_index_of(dict))
    }
}

/// Appends the zone map segments and the code index.
pub fn push_index_segments(
    segments: &mut Vec<Segment>,
    zones_body: Vec<u8>,
    blocks_body: Vec<u8>,
    strings: &Vec<String>,
    always: bool,
)
    requires
        code_index::code_index_fits(text::texts(strings@)),
    ensures
        payload::segment_views(final(segments)@) == payload::segment_views(old(segments)@) + index_segments(
            zones_body@,
            blocks_body@,
            text::texts(strings@),
            always,
        ),
{
    let ghost before = payload::segment_views(segments@);
    let refs = borrow_all(strings);
    let codes_body = build_dictionary_code_index(refs.as_slice());
    push_nonempty(segments, SegmentKind::TableZoneMaps, 40, zones_body);
    push_nonempty(segments, SegmentKind::BlockZoneMaps, 40, blocks_body);
    if always {
        push_segment(segments, SegmentKind::DictionaryCodeIndex, 8, 16, codes_body);
    } else {
        push_nonempty(segments, SegmentKind::DictionaryCodeIndex, 16, codes_body);
    }
    assert(payload::segment_views(segments@) =~= before + index_segments(
        zones_body@,
        blocks_body@,
        text::texts(strings@),
        always,
    ));
}

/// All segments of a store's payload, given its dictionary.
fn collect_segments(store: &CompactStore, strings: &Vec<String>, index: &TextMap<u32>) -> (r:
    Result<Vec<Segment>, FormatError>)
    requires
        limits_fault(store@) is None,
        strings@.len() <= u32::MAX,
        texts_short(text::texts(strings@)),
        index@ == intern::codes_of_texts(text::texts(strings@)),
        store_indexed(store@, index@),
    ensures
        ({
            let s = store@;
            let dict = text::texts(strings@);
            let fault = if columns_fault(all_columns(s), index@) is Some {
                columns_fault(all_columns(s), index@)
            } else {
                zone_maps::zones_write_fault(s.nodes, index@)
            };
            &&& r is Ok <==> fault is None
            &&& r matches Ok(x) ==> payload::segment_views(x@) == base_segments(s, dict)
                + forward_segments(s) + reverse_segments(s) + id_segments(s) + lookup_segments(
                s,
                dict,
            )
            &&& r matches Err(e) ==> fault == Some(e)
        }),
{
    let mut segments: Vec<Segment> = collect_base(store, strings, index, false)?;
    let (zones_body, blocks_body) = build_zone_map_segments(store, index)?;
    push_index_segments(&mut segments, zones_body, blocks_body, strings, false);
    Ok(segments)
}

/// Serializes a store into a payload, texts numbered by the given policy.
pub fn serialize_v5_with_string_order(store: &CompactStore, string_order: StringCodeOrder) -> (r:
    Result<Vec<u8>, FormatError>)
    ensures
        r is Ok <==> v5_fault(store@, string_order) is None,
        r matches Ok(p) ==> p@ == v5_image(store@, string_order) && payload::segments_fit(
            v5_segments(store@, string_order),
        ),
        r matches Err(e) ==> v5_fault(store@, string_order) == Some(e),
{
    let ghost s = store@;
    check_limits(store)?;
    let strings = build_dictionary(store, string_order);
    if strings.len() > u32::MAX as usize {
        return Err(FormatError::WireLimit(WireField::Texts));
    }
    if !check_texts_short(&strings) {
        return Err(FormatError::WireLimit(WireField::TextBytes));
    }
    proof {
        intern::lemma_dictionary(intern::store_texts(s), string_order);
        lemma_store_indexed(s, string_order);
        lemma_v5_segments_aligned(s, string_order);
    }
    let index = index_strings(&strings);
    let segments = collect_segments(store, &strings, &index)?;
    let flags: u8 = if store.preserves_ids() {
        1
    } else {
        0
    };
    assemble_payload(&segments, flags, total_nodes(store), total_edges(store))
}

/// Serializes a store into a payload, texts numbered in first-seen order.
pub fn serialize_v5(store: &CompactStore) -> (r: Result<Vec<u8>, FormatError>)
    ensures
        r is Ok <==> v5_fault(store@, StringCodeOrder::Insertion) is None,
        r matches Ok(p) ==> p@ == v5_image(store@, StringCodeOrder::Insertion) && payload::segments_fit(
            v5_segments(store@, StringCodeOrder::Insertion),
        ),
        r matches Err(e) ==> v5_fault(store@, StringCodeOrder::Insertion) == Some(e),
{
    serialize_v5_with_string_order(store, StringCodeOrder::Insertion)
}

} // verus!
