//! Zone map segments: least and greatest value per table column, and per
//! block of a column.
//!
//! Records have a fixed width. Texts are codes of the payload's dictionary;
//! numbers and truth values stand in the record itself. A value of any other
//! type is stored as absent.

use crate::faults;
use crate::sorting::sort_keys;
use crate::sorting;
use crate::string_dict::MappedStringDictionary;
use crate::tables::{CompactStore, NodeTable, NodeTableView, RelTable, RelTableView, StoreView};
use crate::tables;
use crate::text::{TextMap, own};
use crate::text;
use crate::value::{Value, ValueView, ZoneMap, ZoneView, clone_zone_map};
use crate::value;
use crate::wire::{load_u16, load_u32, load_u64, push_u16, push_u32, push_u32_be, push_u64};
use crate::wire;
use crate::error::FormatError;
use vstd::prelude::*;

verus! {

broadcast use wire::group_wire;

/// Wire size of one zone map record.
pub const ZONE_MAP_RECORD_LEN: usize = 40;

/// Block number of a table-level zone map.
pub const TABLE_ZONE_BLOCK_SENTINEL: u32 = 0xffff_ffff;

/// One zone map record.
pub struct ZoneRow {
    /// Table; relationship tables count from 0x8000.
    pub table: u16,
    /// Column.
    pub key: Seq<char>,
    /// Block, or the sentinel.
    pub block: u32,
    /// What the record says.
    pub zone: ZoneView,
}

/// The type tag of a zone map value.
pub open spec fn value_tag(v: Option<ValueView>) -> u8 {
    match v {
        Some(ValueView::Int64(_)) => 1,
        Some(ValueView::Bool(_)) => 2,
        Some(ValueView::Text(_)) => 3,
        Some(ValueView::Float64(_)) => 4,
        _ => 0,
    }
}

/// The payload word of a zone map value.
pub open spec fn value_payload(v: Option<ValueView>, index: Map<Seq<char>, u32>) -> u64 {
    match v {
        Some(ValueView::Int64(n)) => n as u64,
        Some(ValueView::Bool(b)) => if b {
            1
        } else {
            0
        },
        Some(ValueView::Text(s)) => index[s] as u64,
        Some(ValueView::Float64(f)) => f,
        _ => 0,
    }
}

/// A zone map value that cannot be written.
pub open spec fn value_fault(v: Option<ValueView>, index: Map<Seq<char>, u32>) -> Option<
    FormatError,
> {
    match v {
        Some(ValueView::Text(s)) => if index.dom().contains(s) {
            None
        } else {
            Some(FormatError::ZoneText)
        },
        Some(ValueView::Null) | Some(ValueView::Vector(_)) | Some(ValueView::Other(_)) => Some(
            FormatError::ZoneValue,
        ),
        _ => None,
    }
}

/// A zone map that cannot be written.
pub open spec fn zone_fault(z: ZoneView, index: Map<Seq<char>, u32>) -> Option<FormatError> {
    if z.null_count > u32::MAX {
        Some(FormatError::ZoneNullCount)
    } else if z.row_count > u32::MAX {
        Some(FormatError::ZoneRowCount)
    } else if value_fault(z.min, index) is Some {
        value_fault(z.min, index)
    } else {
        value_fault(z.max, index)
    }
}

/// The place of a record: table, reserved field, column, block.
pub open spec fn zone_place(table: u16, column: u32, block: u32) -> Seq<u8> {
    wire::put16(table) + wire::put16(0) + wire::put32(column) + wire::put32(block)
}

/// The counts of a record.
pub open spec fn zone_counts(z: ZoneView) -> Seq<u8> {
    wire::put32(z.null_count as u32) + wire::put32(z.row_count as u32)
}

/// The values of a record.
pub open spec fn zone_values(z: ZoneView, index: Map<Seq<char>, u32>) -> Seq<u8> {
    seq![value_tag(z.min), value_tag(z.max)] + wire::put16(0) + wire::put64(value_payload(z.min, index))
        + wire::put64(value_payload(z.max, index))
}

/// The bytes of a zone map record.
pub open spec fn zone_record(
    table: u16,
    column: u32,
    block: u32,
    z: ZoneView,
    index: Map<Seq<char>, u32>,
) -> Seq<u8> {
    zone_place(table, column, block) + zone_counts(z) + zone_values(z, index)
}

/// The bytes of the record of a row.
pub open spec fn zone_row_record(r: ZoneRow, index: Map<Seq<char>, u32>) -> Seq<u8> {
    zone_record(r.table, index[r.key], r.block, r.zone, index)
}

/// The bytes of a row of records.
pub open spec fn zone_segment(rows: Seq<ZoneRow>, index: Map<Seq<char>, u32>) -> Seq<u8> {
    wire::flat(rows, |r: ZoneRow| zone_row_record(r, index))
}

fn encode_value(v: &Option<Value>, string_index: &TextMap<u32>) -> (r: Result<
    (u8, u64),
    FormatError,
>)
    ensures
        r is Ok <==> value_fault(value::optional_view(*v), string_index@) is None,
        r matches Ok(x) ==> x.0 == value_tag(value::optional_view(*v)) && x.1 == value_payload(
            value::optional_view(*v),
            string_index@,
        ),
        r matches Err(e) ==> value_fault(value::optional_view(*v), string_index@) == Some(e),
{
    match v {
        None => Ok((0, 0)),
        Some(Value::Int64(n)) => Ok((1, *n as u64)),
        Some(Value::Bool(b)) => Ok((2, if *b {
            1
        } else {
            0
        })),
        Some(Value::String(s)) => match string_index.get(s.as_str()) {
            Some(code) => Ok((3, *code as u64)),
            None => Err(FormatError::ZoneText),
        },
        Some(Value::Float64(f)) => Ok((4, *f)),
        Some(_) => Err(FormatError::ZoneValue),
    }
}

/// Writes one zone map record. A count that does not fit leaves the record's
/// place behind, a bound that cannot be written its place and counts.
pub fn write_zone_map_record(
    buf: &mut Vec<u8>,
    table_id: u16,
    column_key_code: u32,
    block_index: u32,
    zm: &ZoneMap,
    string_index: &TextMap<u32>,
) -> (r: Result<(), FormatError>)
    ensures
        r is Ok <==> zone_fault(zm@, string_index@) is None,
        r is Ok ==> final(buf)@ == old(buf)@ + zone_record(
            table_id,
            column_key_code,
            block_index,
            zm@,
            string_index@,
        ),
        r matches Err(e) ==> zone_fault(zm@, string_index@) == Some(e) && final(buf)@ == old(buf)@
            + zone_place(table_id, column_key_code, block_index) + (if zm.null_count > u32::MAX
            || zm.row_count > u32::MAX {
            Seq::empty()
        } else {
            zone_counts(zm@)
        }),
{
    push_u16(buf, table_id);
    push_u16(buf, 0);
    push_u32(buf, column_key_code);
    push_u32(buf, block_index);
    assert(buf@ =~= old(buf)@ + zone_place(table_id, column_key_code, block_index));
    if zm.null_count > u32::MAX as usize {
        assert(buf@ =~= buf@ + Seq::<u8>::empty());
        return Err(FormatError::ZoneNullCount);
    }
    if zm.row_count > u32::MAX as usize {
        assert(buf@ =~= buf@ + Seq::<u8>::empty());
        return Err(FormatError::ZoneRowCount);
    }
    let ghost placed = buf@;
    push_u32(buf, zm.null_count as u32);
    push_u32(buf, zm.row_count as u32);
    assert(buf@ =~= placed + zone_counts(zm@));
    let (min_tag, min_payload) = encode_value(&zm.min, string_index)?;
    let (max_tag, max_payload) = encode_value(&zm.max, string_index)?;
    let ghost counted = buf@;
    buf.push(min_tag);
    buf.push(max_tag);
    push_u16(buf, 0);
    push_u64(buf, min_payload);
    push_u64(buf, max_payload);
    assert(buf@ =~= counted + zone_values(zm@, string_index@));
    assert(buf@ =~= old(buf)@ + zone_record(
        table_id,
        column_key_code,
        block_index,
        zm@,
        string_index@,
    ));
    Ok(())
}

/// The value that a tag and a payload word spell.
pub open spec fn zone_value(tag: u8, payload: u64, dict: Seq<Seq<char>>) -> Option<ValueView> {
    if tag == 1 {
        Some(ValueView::Int64(payload as i64))
    } else if tag == 2 {
        Some(ValueView::Bool(payload != 0))
    } else if tag == 3 {
        Some(ValueView::Text(dict[payload as int]))
    } else if tag == 4 {
        Some(ValueView::Float64(payload))
    } else {
        None
    }
}

/// What is wrong with a tag and a payload word.
pub open spec fn zone_value_fault(tag: u8, payload: u64, dict: Seq<Seq<char>>) -> Option<
    FormatError,
> {
    if tag == 3 {
        if payload > u32::MAX {
            Some(FormatError::ZoneTextCode(payload))
        } else if payload >= dict.len() {
            Some(FormatError::ZoneTextMissing(payload as u32))
        } else {
            None
        }
    } else if tag > 4 {
        Some(FormatError::ZoneTag(tag))
    } else {
        None
    }
}

fn decode_value(tag: u8, payload: u64, dict: &MappedStringDictionary) -> (r: Result<
    Option<Value>,
    FormatError,
>)
    ensures
        r is Ok <==> zone_value_fault(tag, payload, dict@) is None,
        r matches Ok(x) ==> value::optional_view(x) == zone_value(tag, payload, dict@),
        r matches Err(e) ==> zone_value_fault(tag, payload, dict@) == Some(e),
{
    if tag == 0 {
        Ok(None)
    } else if tag == 1 {
        Ok(Some(Value::Int64(payload as i64)))
    } else if tag == 2 {
        Ok(Some(Value::Bool(payload != 0)))
    } else if tag == 3 {
        if payload > u32::MAX as u64 {
            return Err(FormatError::ZoneTextCode(payload));
        }
        match dict.get(payload as u32) {
            Some(s) => Ok(Some(Value::String(own(s)))),
            None => Err(FormatError::ZoneTextMissing(payload as u32)),
        }
    } else if tag == 4 {
        Ok(Some(Value::Float64(payload)))
    } else {
        Err(FormatError::ZoneTag(tag))
    }
}

/// One decoded zone map record.
#[derive(Debug)]
pub struct RawZoneRecord {
    /// Table; relationship tables count from 0x8000.
    pub table_id: u16,
    /// Column.
    pub column_key: String,
    /// Block, or the sentinel.
    pub block_index: u32,
    /// What the record says.
    pub zone_map: ZoneMap,
}

impl View for RawZoneRecord {
    type V = ZoneRow;

    open spec fn view(&self) -> ZoneRow {
        ZoneRow {
            table: self.table_id,
            key: self.column_key@,
            block: self.block_index,
            zone: self.zone_map@,
        }
    }
}

/// The record that stands at `o`.
pub open spec fn zone_row_at(d: Seq<u8>, dict: Seq<Seq<char>>, o: int) -> ZoneRow {
    ZoneRow {
        table: wire::u16_at(d, o),
        key: dict[wire::u32_at(d, o + 4) as int],
        block: wire::u32_at(d, o + 8),
        zone: ZoneView {
            min: zone_value(d[o + 20], wire::u64_at(d, o + 24), dict),
            max: zone_value(d[o + 21], wire::u64_at(d, o + 32), dict),
            null_count: wire::u32_at(d, o + 12) as usize,
            row_count: wire::u32_at(d, o + 16) as usize,
        },
    }
}

/// What is wrong with the record that stands at `o`.
pub open spec fn zone_row_fault(d: Seq<u8>, dict: Seq<Seq<char>>, o: int) -> Option<FormatError> {
    let min = zone_value_fault(d[o + 20], wire::u64_at(d, o + 24), dict);
    if wire::u16_at(d, o + 2) != 0 {
        Some(FormatError::ZoneReserved(o as usize))
    } else if wire::u16_at(d, o + 22) != 0 {
        Some(FormatError::ZonePad(o as usize))
    } else if wire::u32_at(d, o + 4) >= dict.len() {
        Some(FormatError::ZoneColumnCode(wire::u32_at(d, o + 4)))
    } else if min is Some {
        min
    } else {
        zone_value_fault(d[o + 21], wire::u64_at(d, o + 32), dict)
    }
}

/// The checks of all records, by index.
pub open spec fn zone_row_checks(d: Seq<u8>, dict: Seq<Seq<char>>) -> spec_fn(int) -> Option<
    FormatError,
> {
    |i: int| zone_row_fault(d, dict, 40 * i)
}

/// The first thing that is wrong with a zone map segment.
pub open spec fn zone_rows_fault(d: Seq<u8>, dict: Seq<Seq<char>>) -> Option<FormatError> {
    if d.len() % 40 != 0 {
        Some(FormatError::ZoneLength(d.len() as usize))
    } else {
        faults::first_fault(d.len() / 40, zone_row_checks(d, dict))
    }
}

/// The records of a zone map segment.
pub open spec fn zone_rows_of(d: Seq<u8>, dict: Seq<Seq<char>>) -> Seq<ZoneRow> {
    Seq::new(d.len() / 40, |i: int| zone_row_at(d, dict, 40 * i))
}

/// The records as values.
pub open spec fn zone_row_views(v: Seq<RawZoneRecord>) -> Seq<ZoneRow> {
    Seq::new(v.len(), |i: int| v[i]@)
}

fn read_record(data: &[u8], off: usize, dict: &MappedStringDictionary) -> (r: Result<
    RawZoneRecord,
    FormatError,
>)
    requires
        off + 40 <= data@.len(),
    ensures
        r is Ok <==> zone_row_fault(data@, dict@, off as int) is None,
        r matches Ok(x) ==> x@ == zone_row_at(data@, dict@, off as int),
        r matches Err(e) ==> zone_row_fault(data@, dict@, off as int) == Some(e),
{
    assert(data@.len() == data.len());
    if load_u16(data, off + 2) != 0 {
        return Err(FormatError::ZoneReserved(off));
    }
    if load_u16(data, off + 22) != 0 {
        return Err(FormatError::ZonePad(off));
    }
    let code: u32 = load_u32(data, off + 4);
    let key: String = match dict.get(code) {
        Some(s) => own(s),
        None => {
            return Err(FormatError::ZoneColumnCode(code));
        },
    };
    let min = decode_value(data[off + 20], load_u64(data, off + 24), dict)?;
    let max = decode_value(data[off + 21], load_u64(data, off + 32), dict)?;
    Ok(
        RawZoneRecord {
            table_id: load_u16(data, off),
            column_key: key,
            block_index: load_u32(data, off + 8),
            zone_map: ZoneMap {
                min,
                max,
                null_count: load_u32(data, off + 12) as usize,
                row_count: load_u32(data, off + 16) as usize,
            },
        },
    )
}

/// Decodes all records of a zone map segment.
#[verifier::loop_isolation(false)]
pub fn parse_records(data: &[u8], dict: &MappedStringDictionary) -> (r: Result<
    Vec<RawZoneRecord>,
    FormatError,
>)
    ensures
        r is Ok <==> zone_rows_fault(data@, dict@) is None,
        r matches Ok(x) ==> zone_row_views(x@) == zone_rows_of(data@, dict@),
        r matches Err(e) ==> zone_rows_fault(data@, dict@) == Some(e),
{
    assert(data@.len() == data.len());
    if data.len() % ZONE_MAP_RECORD_LEN != 0 {
        return Err(FormatError::ZoneLength(data.len()));
    }
    let n: usize = data.len() / ZONE_MAP_RECORD_LEN;
    let ghost checks = zone_row_checks(data@, dict@);
    let mut out: Vec<RawZoneRecord> = Vec::new();
    let mut i: usize = 0;
    while i < n
        invariant
            i <= n,
            out@.len() == i,
            faults::first_fault(i as nat, checks) is None,
            forall|k: int| 0 <= k < i ==> (#[trigger] out@[k])@ == zone_row_at(data@, dict@, 40 * k),
        decreases n - i,
    {
        match read_record(data, 40 * i, dict) {
            Ok(x) => {
                out.push(x);
            },
            Err(e) => {
                proof {
                    assert(checks(i as int) == Some(e));
                    assert(faults::first_fault((i + 1) as nat, checks) == Some(e));
                    faults::lemma_first_fault_stays((i + 1) as nat, n as nat, checks);
                }
                return Err(e);
            },
        }
        assert(checks(i as int) is None);
        assert(faults::first_fault((i + 1) as nat, checks) is None);
        i = i + 1;
    }
    assert(zone_row_views(out@) =~= zone_rows_of(data@, dict@));
    Ok(out)
}

/// The zone maps of a map of columns.
pub open spec fn zones_view(m: Map<Seq<char>, ZoneMap>) -> Map<Seq<char>, ZoneView> {
    m.map_values(|z: ZoneMap| z@)
}

/// The zone maps of a row.
pub open spec fn zone_views(v: Seq<ZoneMap>) -> Seq<ZoneView> {
    Seq::new(v.len(), |i: int| v[i]@)
}

/// The block zone maps of a map of columns.
pub open spec fn blocks_view(m: Map<Seq<char>, Vec<ZoneMap>>) -> Map<Seq<char>, Seq<ZoneView>> {
    m.map_values(|v: Vec<ZoneMap>| zone_views(v@))
}

/// The table zone maps that the first `n` records give a table: the last one
/// of a column stays.
pub open spec fn zones_for(rows: Seq<ZoneRow>, n: int, id: int) -> Map<Seq<char>, ZoneView>
    decreases n,
{
    if n <= 0 {
        Map::empty()
    } else {
        let m = zones_for(rows, n - 1, id);
        if rows[n - 1].table == id {
            m.insert(rows[n - 1].key, rows[n - 1].zone)
        } else {
            m
        }
    }
}

/// What is wrong with the table of a record.
pub open spec fn zone_table_fault(r: ZoneRow, tables: nat, rels: nat) -> Option<FormatError> {
    if r.table >= 0x8000 {
        if r.table - 0x8000 >= rels {
            Some(FormatError::ZoneTable(r.table))
        } else {
            None
        }
    } else if r.table >= tables {
        Some(FormatError::ZoneTable(r.table))
    } else {
        None
    }
}

/// What is wrong with a record of table zone maps.
pub open spec fn table_zone_fault(r: ZoneRow, tables: nat, rels: nat) -> Option<FormatError> {
    if r.block != TABLE_ZONE_BLOCK_SENTINEL {
        Some(FormatError::TableZoneBlock(r.block))
    } else {
        zone_table_fault(r, tables, rels)
    }
}

/// What is wrong with a record of block zone maps.
pub open spec fn block_zone_fault(r: ZoneRow, tables: nat, rels: nat) -> Option<FormatError> {
    if r.block == TABLE_ZONE_BLOCK_SENTINEL {
        Some(FormatError::BlockZoneSentinel)
    } else {
        zone_table_fault(r, tables, rels)
    }
}

/// The checks of table zone map records, by index.
pub open spec fn table_zone_checks(rows: Seq<ZoneRow>, tables: nat, rels: nat) -> spec_fn(
    int,
) -> Option<FormatError> {
    |i: int| table_zone_fault(rows[i], tables, rels)
}

/// The checks of block zone map records, by index.
pub open spec fn block_zone_checks(rows: Seq<ZoneRow>, tables: nat, rels: nat) -> spec_fn(
    int,
) -> Option<FormatError> {
    |i: int| block_zone_fault(rows[i], tables, rels)
}

/// The first thing that is wrong with a segment of table zone maps.
pub open spec fn table_zones_fault(
    d: Seq<u8>,
    dict: Seq<Seq<char>>,
    tables: nat,
    rels: nat,
) -> Option<FormatError> {
    let rows = zone_rows_of(d, dict);
    if zone_rows_fault(d, dict) is Some {
        zone_rows_fault(d, dict)
    } else {
        faults::first_fault(rows.len(), table_zone_checks(rows, tables, rels))
    }
}

/// The record number of node table `i`; from 0x8000 on there is none.
pub open spec fn node_zone_id(i: int) -> int {
    if i < 0x8000 {
        i
    } else {
        -1
    }
}

/// The record number of relationship table `i`.
pub open spec fn rel_zone_id(i: int) -> int {
    0x8000 + i
}

/// `n` empty maps.
pub fn empty_maps<V>(n: usize) -> (r: Vec<TextMap<V>>)
    ensures
        r@.len() == n,
        forall|i: int| 0 <= i < n ==> (#[trigger] r@[i])@ == Map::<Seq<char>, V>::empty(),
{
    let mut out: Vec<TextMap<V>> = Vec::new();
    let mut i: usize = 0;
    while i < n
        invariant
            i <= n,
            out@.len() == i,
            forall|k: int| 0 <= k < i ==> (#[trigger] out@[k])@ == Map::<Seq<char>, V>::empty(),
        decreases n - i,
    {
        out.push(TextMap::new());
        i = i + 1;
    }
    out
}

/// The tables hold what the first `n` records give them.
pub open spec fn zones_installed(
    nodes: Seq<TextMap<ZoneMap>>,
    rels: Seq<TextMap<ZoneMap>>,
    rows: Seq<ZoneRow>,
    n: int,
) -> bool {
    &&& forall|i: int|
        0 <= i < nodes.len() ==> zones_view((#[trigger] nodes[i])@) == zones_for(
            rows,
            n,
            node_zone_id(i),
        )
    &&& forall|i: int|
        0 <= i < rels.len() ==> zones_view((#[trigger] rels[i])@) == zones_for(
            rows,
            n,
            rel_zone_id(i),
        )
}

/// Table zone maps by node table and by relationship table. Record numbers
/// from 0x8000 on name relationship tables.
#[verifier::loop_isolation(false)]
pub fn parse_table_zone_maps(
    data: &[u8],
    dict: &MappedStringDictionary,
    table_count: usize,
    rel_count: usize,
) -> (r: Result<(Vec<TextMap<ZoneMap>>, Vec<TextMap<ZoneMap>>), FormatError>)
    ensures
        r is Ok <==> table_zones_fault(data@, dict@, table_count as nat, rel_count as nat) is None,
        r matches Ok(x) ==> {
            let rows = zone_rows_of(data@, dict@);
            &&& x.0@.len() == table_count
            &&& x.1@.len() == rel_count
            &&& zones_installed(x.0@, x.1@, rows, rows.len() as int)
        },
        r matches Err(e) ==> table_zones_fault(
            data@,
            dict@,
            table_count as nat,
            rel_count as nat,
        ) == Some(e),
{
    let records = parse_records(data, dict)?;
    let ghost rows = zone_rows_of(data@, dict@);
    assert(zone_row_views(records@) == rows);
    let ghost checks = table_zone_checks(rows, table_count as nat, rel_count as nat);
    let mut nodes: Vec<TextMap<ZoneMap>> = empty_maps(table_count);
    let mut rels: Vec<TextMap<ZoneMap>> = empty_maps(rel_count);
    proof {
        assert forall|i: int| 0 <= i < nodes@.len() implies zones_view((#[trigger] nodes@[i])@)
            == zones_for(rows, 0, node_zone_id(i)) by {
            assert(zones_view(nodes@[i]@) =~= Map::empty());
        }
        assert forall|i: int| 0 <= i < rels@.len() implies zones_view((#[trigger] rels@[i])@)
            == zones_for(rows, 0, rel_zone_id(i)) by {
            assert(zones_view(rels@[i]@) =~= Map::empty());
        }
    }
    let mut n: usize = 0;
    while n < records.len()
        invariant
            n <= records@.len(),
            nodes@.len() == table_count,
            rels@.len() == rel_count,
            faults::first_fault(n as nat, checks) is None,
            zones_installed(nodes@, rels@, rows, n as int),
        decreases records@.len() - n,
    {
        let rec: &RawZoneRecord = &records[n];
        assert(rec@ == rows[n as int]);
        let ghost fault = checks(n as int);
        assert(faults::first_fault((n + 1) as nat, checks) == fault);
        proof {
            if fault is Some {
                faults::lemma_first_fault_stays((n + 1) as nat, rows.len(), checks);
            }
        }
        if rec.block_index != TABLE_ZONE_BLOCK_SENTINEL {
            return Err(FormatError::TableZoneBlock(rec.block_index));
        }
        let ghost old_nodes = nodes@;
        let ghost old_rels = rels@;
        if rec.table_id >= 0x8000 {
            let rid: usize = (rec.table_id - 0x8000) as usize;
            if rid >= rel_count {
                return Err(FormatError::ZoneTable(rec.table_id));
            }
            rels[rid].insert(rec.column_key.as_str(), clone_zone_map(&rec.zone_map));
            proof {
                assert(rels@ =~= old_rels.update(rid as int, rels@[rid as int]));
                lemma_zones_insert(old_rels[rid as int]@, rels@[rid as int]@, *rec);
            }
        } else {
            let tid: usize = rec.table_id as usize;
            if tid >= table_count {
                return Err(FormatError::ZoneTable(rec.table_id));
            }
            nodes[tid].insert(rec.column_key.as_str(), clone_zone_map(&rec.zone_map));
            proof {
                assert(nodes@ =~= old_nodes.update(tid as int, nodes@[tid as int]));
                lemma_zones_insert(old_nodes[tid as int]@, nodes@[tid as int]@, *rec);
            }
        }
        proof {
            assert forall|i: int| 0 <= i < nodes@.len() implies zones_view((#[trigger] nodes@[i])@)
                == zones_for(rows, n + 1, node_zone_id(i)) by {
                assert(zones_view(old_nodes[i]@) == zones_for(rows, n as int, node_zone_id(i)));
            }
            assert forall|i: int| 0 <= i < rels@.len() implies zones_view((#[trigger] rels@[i])@)
                == zones_for(rows, n + 1, rel_zone_id(i)) by {
                assert(zones_view(old_rels[i]@) == zones_for(rows, n as int, rel_zone_id(i)));
            }
        }
        n = n + 1;
    }
    Ok((nodes, rels))
}

proof fn lemma_zones_insert(
    before: Map<Seq<char>, ZoneMap>,
    after: Map<Seq<char>, ZoneMap>,
    rec: RawZoneRecord,
)
    requires
        exists|z: ZoneMap|
            z@ == rec.zone_map@ && after == #[trigger] before.insert(rec.column_key@, z),
    ensures
        zones_view(after) == zones_view(before).insert(rec.column_key@, rec.zone_map@),
{
    assert(zones_view(after) =~= zones_view(before).insert(rec.column_key@, rec.zone_map@));
}

/// The block records that the first `n` records give a table, by column and
/// in record order.
pub open spec fn blocks_for(rows: Seq<ZoneRow>, n: int, id: int) -> Map<
    Seq<char>,
    Seq<(u32, ZoneView)>,
>
    decreases n,
{
    if n <= 0 {
        Map::empty()
    } else {
        let m = blocks_for(rows, n - 1, id);
        let r = rows[n - 1];
        if r.table == id {
            m.insert(
                r.key,
                (if m.dom().contains(r.key) {
                    m[r.key]
                } else {
                    Seq::empty()
                }).push((r.block, r.zone)),
            )
        } else {
            m
        }
    }
}

/// The sort keys of block records.
pub open spec fn block_keys(pairs: Seq<(u32, ZoneView)>) -> Seq<Seq<u8>> {
    Seq::new(pairs.len(), |i: int| wire::put32_be(pairs[i].0))
}

/// The block records of a column by block number.
pub open spec fn by_block(pairs: Seq<(u32, ZoneView)>) -> Seq<(u32, ZoneView)> {
    Seq::new(pairs.len(), |i: int| pairs[sorting::stable_order(block_keys(pairs))[i]])
}

/// The checks that sorted block records number their blocks from zero.
pub open spec fn block_number_checks(pairs: Seq<(u32, ZoneView)>, table: int) -> spec_fn(
    int,
) -> Option<FormatError> {
    |i: int|
        if by_block(pairs)[i].0 != i {
            Some(
                FormatError::ZoneBlocks {
                    table: table as usize,
                    expected: i as usize,
                    found: by_block(pairs)[i].0,
                },
            )
        } else {
            None
        }
}

/// The first gap or repetition among the blocks of a column.
pub open spec fn block_number_fault(pairs: Seq<(u32, ZoneView)>, table: int) -> Option<
    FormatError,
> {
    faults::first_fault(pairs.len(), block_number_checks(pairs, table))
}

/// The zone maps of a column by block number.
pub open spec fn block_zones(pairs: Seq<(u32, ZoneView)>) -> Seq<ZoneView> {
    Seq::new(pairs.len(), |i: int| by_block(pairs)[i].1)
}

/// The block zone maps of all columns of a table.
pub open spec fn all_block_zones(m: Map<Seq<char>, Seq<(u32, ZoneView)>>) -> Map<
    Seq<char>,
    Seq<ZoneView>,
> {
    m.map_values(|p: Seq<(u32, ZoneView)>| block_zones(p))
}

/// Every column of a table numbers its blocks from zero.
pub open spec fn blocks_numbered(m: Map<Seq<char>, Seq<(u32, ZoneView)>>) -> bool {
    forall|k: Seq<char>|
        m.dom().contains(k) ==> block_number_fault(#[trigger] m[k], 0) is None
}

/// The least column of a table that does not number its blocks from zero.
pub open spec fn least_faulty(m: Map<Seq<char>, Seq<(u32, ZoneView)>>, k: Seq<char>) -> bool {
    &&& m.dom().contains(k)
    &&& block_number_fault(m[k], 0) is Some
    &&& forall|q: Seq<char>|
        m.dom().contains(q) && text::text_lt(q, k) ==> block_number_fault(#[trigger] m[q], 0) is None
}

/// The fault of the least column of a table that does not number its blocks
/// from zero.
pub open spec fn table_block_fault(m: Map<Seq<char>, Seq<(u32, ZoneView)>>, table: int) -> Option<
    FormatError,
> {
    if blocks_numbered(m) {
        None
    } else {
        block_number_fault(m[choose|k: Seq<char>| least_faulty(m, k)], table)
    }
}

proof fn lemma_least_faulty(
    m: Map<Seq<char>, Seq<(u32, ZoneView)>>,
    k: Seq<char>,
    table: int,
    e: FormatError,
)
    requires
        least_faulty(m, k),
        block_number_fault(m[k], table) == Some(e),
    ensures
        table_block_fault(m, table) == Some(e),
{
    let c = choose|k: Seq<char>| least_faulty(m, k);
    assert(least_faulty(m, c));
    wire::lemma_lex_total(text::utf8(c), text::utf8(k));
    if text::utf8(c) == text::utf8(k) {
        text::lemma_utf8_injective(c, k);
    } else if text::text_lt(c, k) {
        assert(block_number_fault(m[c], 0) is None);
    } else {
        assert(block_number_fault(m[k], 0) is None);
    }
    assert(!blocks_numbered(m)) by {
        assert(block_number_fault(m[k], 0) is Some);
    }
}

/// Block records as values.
pub open spec fn pair_views(v: Seq<(u32, ZoneMap)>) -> Seq<(u32, ZoneView)> {
    Seq::new(v.len(), |i: int| (v[i].0, v[i].1@))
}

/// Collected block records as values.
pub open spec fn staged_view(m: Map<Seq<char>, Vec<(u32, ZoneMap)>>) -> Map<
    Seq<char>,
    Seq<(u32, ZoneView)>,
> {
    m.map_values(|v: Vec<(u32, ZoneMap)>| pair_views(v@))
}

proof fn lemma_block_fault_any_table(pairs: Seq<(u32, ZoneView)>, a: int, b: int)
    ensures
        block_number_fault(pairs, a) is None <==> block_number_fault(pairs, b) is None,
{
    let ca = block_number_checks(pairs, a);
    let cb = block_number_checks(pairs, b);
    faults::lemma_no_fault(pairs.len(), ca);
    faults::lemma_no_fault(pairs.len(), cb);
    assert forall|i: int| (#[trigger] ca(i)) is None <==> cb(i) is None by {}
    if forall|i: int| 0 <= i < pairs.len() ==> (#[trigger] ca(i)) is None {
        assert forall|i: int| 0 <= i < pairs.len() implies (#[trigger] cb(i)) is None by {
            assert(ca(i) is None);
        }
    }
    if forall|i: int| 0 <= i < pairs.len() ==> (#[trigger] cb(i)) is None {
        assert forall|i: int| 0 <= i < pairs.len() implies (#[trigger] ca(i)) is None by {
            assert(cb(i) is None);
        }
    }
}

/// Puts the block records of a column in order and checks their numbers.
#[verifier::loop_isolation(false)]
fn number_blocks(pairs: &Vec<(u32, ZoneMap)>, table: usize) -> (r: Result<
    Vec<ZoneMap>,
    FormatError,
>)
    ensures
        r is Ok <==> block_number_fault(pair_views(pairs@), table as int) is None,
        r matches Ok(x) ==> zone_views(x@) == block_zones(pair_views(pairs@)),
        r matches Err(e) ==> block_number_fault(pair_views(pairs@), table as int) == Some(e),
{
    let ghost pv = pair_views(pairs@);
    let mut keys: Vec<Vec<u8>> = Vec::new();
    let mut i: usize = 0;
    while i < pairs.len()
        invariant
            i <= pairs@.len(),
            keys@.len() == i,
            forall|k: int| 0 <= k < i ==> (#[trigger] keys@[k])@ == wire::put32_be(pairs@[k].0),
        decreases pairs@.len() - i,
    {
        let mut key: Vec<u8> = Vec::new();
        push_u32_be(&mut key, pairs[i].0);
        assert(key@ =~= wire::put32_be(pairs@[i as int].0));
        keys.push(key);
        i = i + 1;
    }
    assert(sorting::key_bytes(keys@) =~= block_keys(pv));
    let order: Vec<usize> = sort_keys(keys.as_slice());
    proof {
        sorting::lemma_stable_order(block_keys(pv));
    }
    let ghost checks = block_number_checks(pv, table as int);
    let mut out: Vec<ZoneMap> = Vec::new();
    let mut k: usize = 0;
    assert(sorting::as_ints(order@).len() == pv.len());
    while k < order.len()
        invariant
            k <= order@.len(),
            out@.len() == k,
            faults::first_fault(k as nat, checks) is None,
            forall|j: int| 0 <= j < k ==> (#[trigger] out@[j])@ == by_block(pv)[j].1,
        decreases order@.len() - k,
    {
        assert(sorting::as_ints(order@)[k as int] == sorting::stable_order(block_keys(pv))[k as int]);
        let p: usize = order[k];
        assert(by_block(pv)[k as int] == pv[p as int]);
        let ghost fault = checks(k as int);
        assert(faults::first_fault((k + 1) as nat, checks) == fault);
        if pairs[p].0 as usize != k {
            proof {
                faults::lemma_first_fault_stays((k + 1) as nat, pv.len(), checks);
            }
            return Err(
                FormatError::ZoneBlocks { table, expected: k, found: pairs[p].0 },
            );
        }
        out.push(clone_zone_map(&pairs[p].1));
        k = k + 1;
    }
    assert(zone_views(out@) =~= block_zones(pv));
    Ok(out)
}

/// Orders the block records of a table.
#[verifier::loop_isolation(false)]
fn finalize_table(cols: &TextMap<Vec<(u32, ZoneMap)>>, table: usize) -> (r: Result<
    TextMap<Vec<ZoneMap>>,
    FormatError,
>)
    ensures
        r is Ok <==> blocks_numbered(staged_view(cols@)),
        r matches Ok(x) ==> blocks_view(x@) == all_block_zones(staged_view(cols@)),
        r matches Err(e) ==> table_block_fault(staged_view(cols@), table as int) == Some(e),
{
    let ghost sv = staged_view(cols@);
    let n: usize = cols.len();
    let ghost keys = cols.key_seq();
    let ghost vals = cols.val_seq();
    let mut out: TextMap<Vec<ZoneMap>> = TextMap::new();
    let mut k: usize = 0;
    while k < n
        invariant
            k <= n,
            forall|q: Seq<char>|
                #[trigger] out@.dom().contains(q) <==> exists|j: int|
                    0 <= j < k && #[trigger] keys[j] == q,
            forall|j: int|
                0 <= j < k ==> block_number_fault(sv[#[trigger] keys[j]], 0) is None,
            forall|q: Seq<char>|
                #[trigger] out@.dom().contains(q) ==> zone_views(out@[q]@) == block_zones(sv[q]),
        decreases n - k,
    {
        let ghost key = keys[k as int];
        proof {
            assert(keys.contains(key));
            text::lemma_ascending_distinct(keys, keys.index_of(key), k as int);
            assert(cols@.dom().contains(key));
            assert(cols@[key] == vals[k as int]);
            assert(sv[key] == pair_views(vals[k as int]@));
            lemma_block_fault_any_table(sv[key], table as int, 0);
        }
        match number_blocks(cols.val_at(k), table) {
            Ok(z) => {
                let ghost before = out@;
                out.insert(cols.key_at(k), z);
                proof {
                    assert forall|q: Seq<char>| #[trigger] out@.dom().contains(q) <==> exists|
                        j: int,
                    |
                        0 <= j < k + 1 && #[trigger] keys[j] == q by {
                        if before.dom().contains(q) {
                            let j = choose|j: int| 0 <= j < k && #[trigger] keys[j] == q;
                            assert(keys[j] == q);
                        }
                        if q == key {
                            assert(keys[k as int] == q);
                        }
                    }
                    assert forall|q: Seq<char>| #[trigger] out@.dom().contains(q) implies zone_views(
                        out@[q]@,
                    ) == block_zones(sv[q]) by {
                        if q != key {
                            assert(before.dom().contains(q));
                        }
                    }
                }
            },
            Err(e) => {
                proof {
                    assert forall|q: Seq<char>|
                        sv.dom().contains(q) && text::text_lt(q, key) implies block_number_fault(
                        #[trigger] sv[q],
                        0,
                    ) is None by {
                        let j = keys.index_of(q);
                        assert(keys[j] == q);
                        if j > k {
                            assert(text::text_lt(keys[k as int], keys[j]));
                            wire::lemma_lex_transitive(text::utf8(q), text::utf8(key), text::utf8(q));
                            wire::lemma_lex_irreflexive(text::utf8(q));
                        } else if j == k {
                            wire::lemma_lex_irreflexive(text::utf8(q));
                        }
                    }
                    assert(least_faulty(sv, key));
                    lemma_least_faulty(sv, key, table as int, e);
                }
                return Err(e);
            },
        }
        k = k + 1;
    }
    proof {
        assert forall|q: Seq<char>| sv.dom().contains(q) implies block_number_fault(
            #[trigger] sv[q],
            0,
        ) is None by {
            let j = keys.index_of(q);
            assert(keys[j] == q);
        }
        assert forall|q: Seq<char>| out@.dom().contains(q) <==> cols@.dom().contains(q) by {
            if cols@.dom().contains(q) {
                let j = keys.index_of(q);
                assert(keys[j] == q);
            }
            if out@.dom().contains(q) {
                let j = choose|j: int| 0 <= j < k && #[trigger] keys[j] == q;
                assert(keys.contains(q));
            }
        }
        assert(blocks_view(out@) =~= all_block_zones(sv));
    }
    Ok(out)
}

/// The tables whose columns do not number their blocks from zero, by position.
pub open spec fn staged_checks(
    staged: Seq<Map<Seq<char>, Seq<(u32, ZoneView)>>>,
) -> spec_fn(int) -> Option<FormatError> {
    |i: int| table_block_fault(staged[i], i)
}

/// Collected block records of a row of tables as values.
pub open spec fn staged_views(v: Seq<TextMap<Vec<(u32, ZoneMap)>>>) -> Seq<
    Map<Seq<char>, Seq<(u32, ZoneView)>>,
> {
    Seq::new(v.len(), |i: int| staged_view(v[i]@))
}

/// Orders the block records of a row of tables.
#[verifier::loop_isolation(false)]
fn finalize_block_maps(staged: &Vec<TextMap<Vec<(u32, ZoneMap)>>>) -> (r: Result<
    Vec<TextMap<Vec<ZoneMap>>>,
    FormatError,
>)
    ensures
        ({
            let sv = staged_views(staged@);
            let fault = faults::first_fault(sv.len(), staged_checks(sv));
            &&& r is Ok <==> fault is None
            &&& r matches Ok(x) ==> x@.len() == sv.len() && forall|i: int|
                0 <= i < sv.len() ==> blocks_view((#[trigger] x@[i])@) == all_block_zones(sv[i])
            &&& r matches Err(e) ==> fault == Some(e)
        }),
{
    let ghost sv = staged_views(staged@);
    let ghost checks = staged_checks(sv);
    let mut out: Vec<TextMap<Vec<ZoneMap>>> = Vec::new();
    let mut i: usize = 0;
    while i < staged.len()
        invariant
            i <= staged@.len(),
            out@.len() == i,
            faults::first_fault(i as nat, checks) is None,
            forall|j: int|
                0 <= j < i ==> blocks_view((#[trigger] out@[j])@) == all_block_zones(sv[j]),
        decreases staged@.len() - i,
    {
        assert(sv[i as int] == staged_view(staged@[i as int]@));
        let ghost fault = checks(i as int);
        assert(faults::first_fault((i + 1) as nat, checks) == fault);
        match finalize_table(&staged[i], i) {
            Ok(t) => {
                out.push(t);
            },
            Err(e) => {
                proof {
                    faults::lemma_first_fault_stays((i + 1) as nat, sv.len(), checks);
                }
                return Err(e);
            },
        }
        i = i + 1;
    }
    Ok(out)
}

/// The tables hold the block records that the first `n` records give them.
pub open spec fn blocks_staged(
    nodes: Seq<TextMap<Vec<(u32, ZoneMap)>>>,
    rels: Seq<TextMap<Vec<(u32, ZoneMap)>>>,
    rows: Seq<ZoneRow>,
    n: int,
) -> bool {
    &&& forall|i: int|
        0 <= i < nodes.len() ==> staged_view((#[trigger] nodes[i])@) == blocks_for(
            rows,
            n,
            node_zone_id(i),
        )
    &&& forall|i: int|
        0 <= i < rels.len() ==> staged_view((#[trigger] rels[i])@) == blocks_for(
            rows,
            n,
            rel_zone_id(i),
        )
}

proof fn lemma_blocks_append(
    before: Map<Seq<char>, Vec<(u32, ZoneMap)>>,
    after: Map<Seq<char>, Vec<(u32, ZoneMap)>>,
    rec: RawZoneRecord,
    z: ZoneMap,
)
    requires
        z@ == rec.zone_map@,
        after.dom() == before.dom().insert(rec.column_key@),
        after[rec.column_key@]@ == (if before.dom().contains(rec.column_key@) {
            before[rec.column_key@]@.push((rec.block_index, z))
        } else {
            seq![(rec.block_index, z)]
        }),
        forall|k: Seq<char>|
            k != rec.column_key@ && before.dom().contains(k) ==> #[trigger] after[k] == before[k],
    ensures
        ({
            let m = staged_view(before);
            staged_view(after) == m.insert(
                rec.column_key@,
                (if m.dom().contains(rec.column_key@) {
                    m[rec.column_key@]
                } else {
                    Seq::empty()
                }).push((rec.block_index, rec.zone_map@)),
            )
        }),
{
    let m = staged_view(before);
    let key = rec.column_key@;
    let row = (if m.dom().contains(key) {
        m[key]
    } else {
        Seq::empty()
    }).push((rec.block_index, rec.zone_map@));
    assert(pair_views(after[key]@) =~= row);
    assert(staged_view(after) =~= m.insert(key, row));
}

/// The segment's records are sound and name tables that are there.
pub open spec fn block_rows_fault(
    d: Seq<u8>,
    dict: Seq<Seq<char>>,
    tables: nat,
    rels: nat,
) -> Option<FormatError> {
    let rows = zone_rows_of(d, dict);
    if zone_rows_fault(d, dict) is Some {
        zone_rows_fault(d, dict)
    } else {
        faults::first_fault(rows.len(), block_zone_checks(rows, tables, rels))
    }
}

/// The block records of the node tables.
pub open spec fn node_blocks(rows: Seq<ZoneRow>, tables: nat) -> Seq<
    Map<Seq<char>, Seq<(u32, ZoneView)>>,
> {
    Seq::new(tables, |i: int| blocks_for(rows, rows.len() as int, node_zone_id(i)))
}

/// The block records of the relationship tables.
pub open spec fn rel_blocks(rows: Seq<ZoneRow>, rels: nat) -> Seq<
    Map<Seq<char>, Seq<(u32, ZoneView)>>,
> {
    Seq::new(rels, |i: int| blocks_for(rows, rows.len() as int, rel_zone_id(i)))
}

/// The first thing that is wrong with a segment of block zone maps.
pub open spec fn block_zones_fault(
    d: Seq<u8>,
    dict: Seq<Seq<char>>,
    tables: nat,
    rels: nat,
) -> Option<FormatError> {
    let rows = zone_rows_of(d, dict);
    let nodes = faults::first_fault(tables, staged_checks(node_blocks(rows, tables)));
    if block_rows_fault(d, dict, tables, rels) is Some {
        block_rows_fault(d, dict, tables, rels)
    } else if nodes is Some {
        nodes
    } else {
        faults::first_fault(rels, staged_checks(rel_blocks(rows, rels)))
    }
}

/// Block zone maps by node table and by relationship table.
#[verifier::loop_isolation(false)]
pub fn parse_block_zone_maps(
    data: &[u8],
    dict: &MappedStringDictionary,
    table_count: usize,
    rel_count: usize,
) -> (r: Result<(Vec<TextMap<Vec<ZoneMap>>>, Vec<TextMap<Vec<ZoneMap>>>), FormatError>)
    ensures
        r is Ok <==> block_zones_fault(data@, dict@, table_count as nat, rel_count as nat) is None,
        r matches Err(e) ==> block_zones_fault(
            data@,
            dict@,
            table_count as nat,
            rel_count as nat,
        ) == Some(e),
        r matches Ok(x) ==> {
            let rows = zone_rows_of(data@, dict@);
            &&& x.0@.len() == table_count
            &&& x.1@.len() == rel_count
            &&& forall|i: int|
                0 <= i < table_count ==> blocks_view((#[trigger] x.0@[i])@) == all_block_zones(
                    node_blocks(rows, table_count as nat)[i],
                )
            &&& forall|i: int|
                0 <= i < rel_count ==> blocks_view((#[trigger] x.1@[i])@) == all_block_zones(
                    rel_blocks(rows, rel_count as nat)[i],
                )
        },
{
    let records = parse_records(data, dict)?;
    let ghost rows = zone_rows_of(data@, dict@);
    assert(zone_row_views(records@) == rows);
    let ghost checks = block_zone_checks(rows, table_count as nat, rel_count as nat);
    let mut nodes: Vec<TextMap<Vec<(u32, ZoneMap)>>> = empty_maps(table_count);
    let mut rels: Vec<TextMap<Vec<(u32, ZoneMap)>>> = empty_maps(rel_count);
    proof {
        assert forall|i: int| 0 <= i < nodes@.len() implies staged_view((#[trigger] nodes@[i])@)
            == blocks_for(rows, 0, node_zone_id(i)) by {
            assert(staged_view(nodes@[i]@) =~= Map::empty());
        }
        assert forall|i: int| 0 <= i < rels@.len() implies staged_view((#[trigger] rels@[i])@)
            == blocks_for(rows, 0, rel_zone_id(i)) by {
            assert(staged_view(rels@[i]@) =~= Map::empty());
        }
    }
    let mut n: usize = 0;
    while n < records.len()
        invariant
            n <= records@.len(),
            nodes@.len() == table_count,
            rels@.len() == rel_count,
            faults::first_fault(n as nat, checks) is None,
            blocks_staged(nodes@, rels@, rows, n as int),
        decreases records@.len() - n,
    {
        let rec: &RawZoneRecord = &records[n];
        assert(rec@ == rows[n as int]);
        let ghost fault = checks(n as int);
        assert(faults::first_fault((n + 1) as nat, checks) == fault);
        proof {
            if fault is Some {
                faults::lemma_first_fault_stays((n + 1) as nat, rows.len(), checks);
            }
        }
        if rec.block_index == TABLE_ZONE_BLOCK_SENTINEL {
            return Err(FormatError::BlockZoneSentinel);
        }
        let ghost old_nodes = nodes@;
        let ghost old_rels = rels@;
        let zone = clone_zone_map(&rec.zone_map);
        let ghost zg = zone;
        if rec.table_id >= 0x8000 {
            let rid: usize = (rec.table_id - 0x8000) as usize;
            if rid >= rel_count {
                return Err(FormatError::ZoneTable(rec.table_id));
            }
            rels[rid].append(rec.column_key.as_str(), (rec.block_index, zone));
            proof {
                assert(rels@ =~= old_rels.update(rid as int, rels@[rid as int]));
                lemma_blocks_append(old_rels[rid as int]@, rels@[rid as int]@, *rec, zg);
            }
        } else {
            let tid: usize = rec.table_id as usize;
            if tid >= table_count {
                return Err(FormatError::ZoneTable(rec.table_id));
            }
            nodes[tid].append(rec.column_key.as_str(), (rec.block_index, zone));
            proof {
                assert(nodes@ =~= old_nodes.update(tid as int, nodes@[tid as int]));
                lemma_blocks_append(old_nodes[tid as int]@, nodes@[tid as int]@, *rec, zg);
            }
        }
        proof {
            assert forall|i: int| 0 <= i < nodes@.len() implies staged_view((#[trigger] nodes@[i])@)
                == blocks_for(rows, n + 1, node_zone_id(i)) by {
                assert(staged_view(old_nodes[i]@) == blocks_for(rows, n as int, node_zone_id(i)));
            }
            assert forall|i: int| 0 <= i < rels@.len() implies staged_view((#[trigger] rels@[i])@)
                == blocks_for(rows, n + 1, rel_zone_id(i)) by {
                assert(staged_view(old_rels[i]@) == blocks_for(rows, n as int, rel_zone_id(i)));
            }
        }
        n = n + 1;
    }
    assert(staged_views(nodes@) =~= node_blocks(rows, table_count as nat));
    assert(staged_views(rels@) =~= rel_blocks(rows, rel_count as nat));
    let node_zones = finalize_block_maps(&nodes)?;
    let rel_zones = finalize_block_maps(&rels)?;
    Ok((node_zones, rel_zones))
}

/// Every code of the index stands for its text in the dictionary.
pub open spec fn index_matches(index: Map<Seq<char>, u32>, dict: Seq<Seq<char>>) -> bool {
    forall|s: Seq<char>|
        index.dom().contains(s) ==> (#[trigger] index[s]) < dict.len() && dict[index[s] as int]
            == s
}

/// A row that can be written.
pub open spec fn zone_row_fits(r: ZoneRow, index: Map<Seq<char>, u32>) -> bool {
    index.dom().contains(r.key) && zone_fault(r.zone, index) is None
}

proof fn lemma_zone_value(v: Option<ValueView>, index: Map<Seq<char>, u32>, dict: Seq<Seq<char>>)
    requires
        index_matches(index, dict),
        value_fault(v, index) is None,
    ensures
        zone_value_fault(value_tag(v), value_payload(v, index), dict) is None,
        zone_value(value_tag(v), value_payload(v, index), dict) == v,
{
    match v {
        Some(ValueView::Int64(n)) => {
            assert((n as u64) as i64 == n) by (bit_vector);
        },
        Some(ValueView::Text(s)) => {
            assert(index[s] < dict.len());
        },
        _ => {},
    }
}

proof fn lemma_zone_record_fields(
    table: u16,
    column: u32,
    block: u32,
    z: ZoneView,
    index: Map<Seq<char>, u32>,
)
    ensures
        ({
            let r = zone_record(table, column, block, z, index);
            &&& r.len() == 40
            &&& wire::u16_at(r, 0) == table
            &&& wire::u16_at(r, 2) == 0
            &&& wire::u32_at(r, 4) == column
            &&& wire::u32_at(r, 8) == block
            &&& wire::u32_at(r, 12) == z.null_count as u32
            &&& wire::u32_at(r, 16) == z.row_count as u32
            &&& r[20] == value_tag(z.min)
            &&& r[21] == value_tag(z.max)
            &&& wire::u16_at(r, 22) == 0
            &&& wire::u64_at(r, 24) == value_payload(z.min, index)
            &&& wire::u64_at(r, 32) == value_payload(z.max, index)
        }),
{
    let r = zone_record(table, column, block, z, index);
    let p = zone_place(table, column, block);
    let c = zone_counts(z);
    let v = zone_values(z, index);
    assert(p.subrange(0, 2) =~= wire::put16(table));
    assert(p.subrange(2, 4) =~= wire::put16(0));
    assert(p.subrange(4, 8) =~= wire::put32(column));
    assert(p.subrange(8, 12) =~= wire::put32(block));
    assert(c.subrange(0, 4) =~= wire::put32(z.null_count as u32));
    assert(c.subrange(4, 8) =~= wire::put32(z.row_count as u32));
    assert(v.subrange(2, 4) =~= wire::put16(0));
    assert(v.subrange(4, 12) =~= wire::put64(value_payload(z.min, index)));
    assert(v.subrange(12, 20) =~= wire::put64(value_payload(z.max, index)));
    assert(r.subrange(0, 2) =~= p.subrange(0, 2));
    assert(r.subrange(2, 4) =~= p.subrange(2, 4));
    assert(r.subrange(4, 8) =~= p.subrange(4, 8));
    assert(r.subrange(8, 12) =~= p.subrange(8, 12));
    assert(r.subrange(12, 16) =~= c.subrange(0, 4));
    assert(r.subrange(16, 20) =~= c.subrange(4, 8));
    assert(r.subrange(22, 24) =~= v.subrange(2, 4));
    assert(r.subrange(24, 32) =~= v.subrange(4, 12));
    assert(r.subrange(32, 40) =~= v.subrange(12, 20));
}

proof fn lemma_zone_row_at(d: Seq<u8>, o: int, dict: Seq<Seq<char>>, r: Seq<u8>)
    requires
        r.len() == 40,
        wire::holds_at(d, o, r),
    ensures
        zone_row_at(d, dict, o) == zone_row_at(r, dict, 0),
        zone_row_fault(r, dict, 0) is None ==> zone_row_fault(d, dict, o) is None,
{
    assert(d.subrange(o, o + 2) =~= r.subrange(0, 2));
    assert(d.subrange(o + 2, o + 4) =~= r.subrange(2, 4));
    assert(d.subrange(o + 4, o + 8) =~= r.subrange(4, 8));
    assert(d.subrange(o + 8, o + 12) =~= r.subrange(8, 12));
    assert(d.subrange(o + 12, o + 16) =~= r.subrange(12, 16));
    assert(d.subrange(o + 16, o + 20) =~= r.subrange(16, 20));
    assert(d.subrange(o + 22, o + 24) =~= r.subrange(22, 24));
    assert(d.subrange(o + 24, o + 32) =~= r.subrange(24, 32));
    assert(d.subrange(o + 32, o + 40) =~= r.subrange(32, 40));
    assert(d.subrange(o, o + 40)[20] == r[20]);
    assert(d.subrange(o, o + 40)[21] == r[21]);
}

/// Zone map records that were written decode to what was written.
pub proof fn lemma_zone_segment_round_trip(
    rows: Seq<ZoneRow>,
    index: Map<Seq<char>, u32>,
    dict: Seq<Seq<char>>,
)
    requires
        index_matches(index, dict),
        forall|i: int| 0 <= i < rows.len() ==> zone_row_fits(#[trigger] rows[i], index),
    ensures
        zone_rows_fault(zone_segment(rows, index), dict) is None,
        zone_rows_of(zone_segment(rows, index), dict) == rows,
{
    let f = |r: ZoneRow| zone_row_record(r, index);
    let d = zone_segment(rows, index);
    assert forall|i: int| 0 <= i < rows.len() implies f(#[trigger] rows[i]).len() == 40 by {
        let r = rows[i];
        lemma_zone_record_fields(r.table, index[r.key], r.block, r.zone, index);
    }
    wire::lemma_flat_len(rows, f, 40);
    let checks = zone_row_checks(d, dict);
    assert forall|i: int| 0 <= i < rows.len() implies (#[trigger] checks(i)) is None
        && zone_row_at(d, dict, 40 * i) == rows[i] by {
        let r = rows[i];
        let rec = f(r);
        assert(zone_row_fits(r, index));
        wire::lemma_flat_at(rows, f, 40, i);
        lemma_zone_record_fields(r.table, index[r.key], r.block, r.zone, index);
        assert(wire::holds_at(d, 40 * i, rec));
        lemma_zone_row_at(d, 40 * i, dict, rec);
        lemma_zone_value(r.zone.min, index, dict);
        lemma_zone_value(r.zone.max, index, dict);
        assert(index[r.key] < dict.len());
        assert(zone_row_at(rec, dict, 0) == r);
    }
    faults::lemma_no_fault(rows.len(), checks);
    assert forall|i: int| 0 <= i < rows.len() implies #[trigger] zone_rows_of(d, dict)[i]
        == rows[i] by {
        assert(checks(i) is None);
    }
    assert(zone_rows_of(d, dict) =~= rows);
}

/// The rows of a table's zone maps.
pub open spec fn zone_rows_of_table(t: u16, zones: Seq<(Seq<char>, ZoneView)>) -> Seq<ZoneRow> {
    Seq::new(
        zones.len(),
        |i: int|
            ZoneRow {
                table: t,
                key: zones[i].0,
                block: TABLE_ZONE_BLOCK_SENTINEL,
                zone: zones[i].1,
            },
    )
}

/// The rows of the zone maps of the first `n` tables.
pub open spec fn table_zone_rows(v: Seq<NodeTableView>, n: int) -> Seq<ZoneRow>
    decreases n,
{
    if n <= 0 {
        Seq::empty()
    } else {
        table_zone_rows(v, n - 1) + zone_rows_of_table((n - 1) as u16, v[n - 1].zones)
    }
}

/// The rows of the blocks of a column.
pub open spec fn block_rows_of_column(t: u16, key: Seq<char>, zs: Seq<ZoneView>) -> Seq<ZoneRow> {
    Seq::new(zs.len(), |i: int| ZoneRow { table: t, key, block: i as u32, zone: zs[i] })
}

/// The rows of the blocks of the first `n` columns of a table.
pub open spec fn block_rows_of_table(
    t: u16,
    blocks: Seq<(Seq<char>, Seq<ZoneView>)>,
    n: int,
) -> Seq<ZoneRow>
    decreases n,
{
    if n <= 0 {
        Seq::empty()
    } else {
        block_rows_of_table(t, blocks, n - 1) + block_rows_of_column(
            t,
            blocks[n - 1].0,
            blocks[n - 1].1,
        )
    }
}

/// The rows of the blocks of the first `n` tables.
pub open spec fn block_zone_rows(v: Seq<NodeTableView>, n: int) -> Seq<ZoneRow>
    decreases n,
{
    if n <= 0 {
        Seq::empty()
    } else {
        block_zone_rows(v, n - 1) + block_rows_of_table(
            (n - 1) as u16,
            v[n - 1].blocks,
            v[n - 1].blocks.len() as int,
        )
    }
}

/// A zone map of a column that cannot be written.
pub open spec fn zone_pair_fault(p: (Seq<char>, ZoneView), index: Map<Seq<char>, u32>) -> Option<
    FormatError,
> {
    if !index.dom().contains(p.0) {
        Some(FormatError::ZoneKey)
    } else {
        zone_fault(p.1, index)
    }
}

/// A block of a column that cannot be written.
pub open spec fn block_checks(zs: Seq<ZoneView>, index: Map<Seq<char>, u32>) -> spec_fn(
    int,
) -> Option<FormatError> {
    |i: int|
        if i > u32::MAX {
            Some(FormatError::ZoneBlockIndex)
        } else {
            zone_fault(zs[i], index)
        }
}

/// The first block of a column that cannot be written.
pub open spec fn block_pair_fault(
    p: (Seq<char>, Seq<ZoneView>),
    index: Map<Seq<char>, u32>,
) -> Option<FormatError> {
    if !index.dom().contains(p.0) {
        Some(FormatError::ZoneKey)
    } else {
        faults::first_fault(p.1.len(), block_checks(p.1, index))
    }
}

/// The zone maps of a table that cannot be written, by position.
pub open spec fn zone_pair_checks(
    zones: Seq<(Seq<char>, ZoneView)>,
    index: Map<Seq<char>, u32>,
) -> spec_fn(int) -> Option<FormatError> {
    |i: int| zone_pair_fault(zones[i], index)
}

/// The block zone maps of a table that cannot be written, by position.
pub open spec fn block_pair_checks(
    blocks: Seq<(Seq<char>, Seq<ZoneView>)>,
    index: Map<Seq<char>, u32>,
) -> spec_fn(int) -> Option<FormatError> {
    |i: int| block_pair_fault(blocks[i], index)
}

/// The first zone map of a table that cannot be written.
pub open spec fn table_zones_write_fault(t: NodeTableView, index: Map<Seq<char>, u32>) -> Option<
    FormatError,
> {
    match faults::first_fault(t.zones.len(), zone_pair_checks(t.zones, index)) {
        Some(e) => Some(e),
        None => faults::first_fault(t.blocks.len(), block_pair_checks(t.blocks, index)),
    }
}

/// The tables whose zone maps cannot be written, by position.
pub open spec fn zones_write_checks(
    v: Seq<NodeTableView>,
    index: Map<Seq<char>, u32>,
) -> spec_fn(int) -> Option<FormatError> {
    |i: int| table_zones_write_fault(v[i], index)
}

/// The first zone map of a row of tables that cannot be written.
pub open spec fn zones_write_fault(v: Seq<NodeTableView>, index: Map<Seq<char>, u32>) -> Option<
    FormatError,
> {
    faults::first_fault(v.len(), zones_write_checks(v, index))
}

#[verifier::loop_isolation(false)]
fn write_table_zones(
    out: &mut Vec<u8>,
    table_id: u16,
    zones: &TextMap<ZoneMap>,
    string_index: &TextMap<u32>,
    Ghost(rows): Ghost<Seq<ZoneRow>>,
) -> (r: Result<(), FormatError>)
    requires
        old(out)@ == zone_segment(rows, string_index@),
    ensures
        ({
            let zp = tables::zone_pairs(*zones);
            let fault = faults::first_fault(zp.len(), zone_pair_checks(zp, string_index@));
            &&& r is Ok <==> fault is None
            &&& r is Ok ==> final(out)@ == zone_segment(
                rows + zone_rows_of_table(table_id, zp),
                string_index@,
            )
            &&& r matches Err(e) ==> fault == Some(e)
        }),
{
    let ghost zp = tables::zone_pairs(*zones);
    let ghost own = zone_rows_of_table(table_id, zp);
    let ghost checks = zone_pair_checks(zp, string_index@);
    let ghost f = |r: ZoneRow| zone_row_record(r, string_index@);
    let n: usize = zones.len();
    assert(rows + own.take(0) =~= rows);
    let mut i: usize = 0;
    while i < n
        invariant
            i <= n,
            faults::first_fault(i as nat, checks) is None,
            out@ == zone_segment(rows + own.take(i as int), string_index@),
        decreases n - i,
    {
        let ghost fault = checks(i as int);
        assert(faults::first_fault((i + 1) as nat, checks) == fault);
        proof {
            if fault is Some {
                faults::lemma_first_fault_stays((i + 1) as nat, n as nat, checks);
            }
        }
        let code: u32 = match string_index.get(zones.key_at(i)) {
            Some(c) => *c,
            None => {
                return Err(FormatError::ZoneKey);
            },
        };
        write_zone_map_record(
            out,
            table_id,
            code,
            TABLE_ZONE_BLOCK_SENTINEL,
            zones.val_at(i),
            string_index,
        )?;
        proof {
            wire::lemma_flat_push(rows + own.take(i as int), own[i as int], f);
            assert((rows + own.take(i as int)).push(own[i as int]) =~= rows + own.take(i + 1));
        }
        i = i + 1;
    }
    assert(own.take(n as int) =~= own);
    Ok(())
}

#[verifier::loop_isolation(false)]
fn write_column_blocks(
    out: &mut Vec<u8>,
    table_id: u16,
    key: &str,
    zones: &Vec<ZoneMap>,
    string_index: &TextMap<u32>,
    Ghost(rows): Ghost<Seq<ZoneRow>>,
) -> (r: Result<(), FormatError>)
    requires
        old(out)@ == zone_segment(rows, string_index@),
    ensures
        ({
            let zs = zone_views(zones@);
            let fault = block_pair_fault((key@, zs), string_index@);
            &&& r is Ok <==> fault is None
            &&& r is Ok ==> final(out)@ == zone_segment(
                rows + block_rows_of_column(table_id, key@, zs),
                string_index@,
            )
            &&& r matches Err(e) ==> fault == Some(e)
        }),
{
    let ghost zs = zone_views(zones@);
    let ghost own = block_rows_of_column(table_id, key@, zs);
    let ghost checks = block_checks(zs, string_index@);
    let ghost f = |r: ZoneRow| zone_row_record(r, string_index@);
    let code: u32 = match string_index.get(key) {
        Some(c) => *c,
        None => {
            return Err(FormatError::ZoneKey);
        },
    };
    assert(rows + own.take(0) =~= rows);
    let mut i: usize = 0;
    while i < zones.len()
        invariant
            i <= zones@.len(),
            faults::first_fault(i as nat, checks) is None,
            out@ == zone_segment(rows + own.take(i as int), string_index@),
        decreases zones@.len() - i,
    {
        let ghost fault = checks(i as int);
        assert(faults::first_fault((i + 1) as nat, checks) == fault);
        proof {
            if fault is Some {
                faults::lemma_first_fault_stays((i + 1) as nat, zones@.len(), checks);
            }
        }
        if i > u32::MAX as usize {
            return Err(FormatError::ZoneBlockIndex);
        }
        write_zone_map_record(out, table_id, code, i as u32, &zones[i], string_index)?;
        proof {
            wire::lemma_flat_push(rows + own.take(i as int), own[i as int], f);
            assert((rows + own.take(i as int)).push(own[i as int]) =~= rows + own.take(i + 1));
        }
        i = i + 1;
    }
    assert(own.take(zones@.len() as int) =~= own);
    Ok(())
}

#[verifier::loop_isolation(false)]
fn write_table_blocks(
    out: &mut Vec<u8>,
    table_id: u16,
    blocks: &TextMap<Vec<ZoneMap>>,
    string_index: &TextMap<u32>,
    Ghost(rows): Ghost<Seq<ZoneRow>>,
) -> (r: Result<(), FormatError>)
    requires
        old(out)@ == zone_segment(rows, string_index@),
    ensures
        ({
            let bp = tables::block_pairs(*blocks);
            let fault = faults::first_fault(bp.len(), block_pair_checks(bp, string_index@));
            &&& r is Ok <==> fault is None
            &&& r is Ok ==> final(out)@ == zone_segment(
                rows + block_rows_of_table(table_id, bp, bp.len() as int),
                string_index@,
            )
            &&& r matches Err(e) ==> fault == Some(e)
        }),
{
    let ghost bp = tables::block_pairs(*blocks);
    let ghost checks = block_pair_checks(bp, string_index@);
    let n: usize = blocks.len();
    assert(rows + block_rows_of_table(table_id, bp, 0) =~= rows);
    let mut i: usize = 0;
    while i < n
        invariant
            i <= n,
            faults::first_fault(i as nat, checks) is None,
            out@ == zone_segment(
                rows + block_rows_of_table(table_id, bp, i as int),
                string_index@,
            ),
        decreases n - i,
    {
        let ghost fault = checks(i as int);
        assert(faults::first_fault((i + 1) as nat, checks) == fault);
        proof {
            if fault is Some {
                faults::lemma_first_fault_stays((i + 1) as nat, n as nat, checks);
            }
        }
        let ghost before = block_rows_of_table(table_id, bp, i as int);
        write_column_blocks(
            out,
            table_id,
            blocks.key_at(i),
            blocks.val_at(i),
            string_index,
            Ghost(rows + before),
        )?;
        assert(rows + before + block_rows_of_column(table_id, bp[i as int].0, bp[i as int].1)
            =~= rows + block_rows_of_table(table_id, bp, i + 1));
        i = i + 1;
    }
    Ok(())
}

/// Builds the segments of table zone maps and of block zone maps for all node
/// tables, columns by ascending key.
#[verifier::loop_isolation(false)]
pub fn build_zone_map_segments(store: &CompactStore, string_index: &TextMap<u32>) -> (r: Result<
    (Vec<u8>, Vec<u8>),
    FormatError,
>)
    ensures
        ({
            let v = store@.nodes;
            &&& r is Ok <==> zones_write_fault(v, string_index@) is None
            &&& r matches Ok(x) ==> x.0@ == zone_segment(
                table_zone_rows(v, v.len() as int),
                string_index@,
            ) && x.1@ == zone_segment(block_zone_rows(v, v.len() as int), string_index@)
            &&& r matches Err(e) ==> zones_write_fault(v, string_index@) == Some(e)
        }),
{
    let ghost v = store@.nodes;
    let ghost checks = zones_write_checks(v, string_index@);
    let mut table_seg: Vec<u8> = Vec::new();
    let mut block_seg: Vec<u8> = Vec::new();
    let mut i: usize = 0;
    while i < store.node_tables.len()
        invariant
            i <= store.node_tables@.len(),
            faults::first_fault(i as nat, checks) is None,
            table_seg@ == zone_segment(table_zone_rows(v, i as int), string_index@),
            block_seg@ == zone_segment(block_zone_rows(v, i as int), string_index@),
        decreases store.node_tables@.len() - i,
    {
        let t: &NodeTable = &store.node_tables[i];
        assert(t@ == v[i as int]);
        let ghost fault = checks(i as int);
        assert(faults::first_fault((i + 1) as nat, checks) == fault);
        proof {
            if fault is Some {
                faults::lemma_first_fault_stays((i + 1) as nat, v.len(), checks);
            }
        }
        write_table_zones(
            &mut table_seg,
            i as u16,
            &t.zone_maps,
            string_index,
            Ghost(table_zone_rows(v, i as int)),
        )?;
        write_table_blocks(
            &mut block_seg,
            i as u16,
            &t.block_zone_maps,
            string_index,
            Ghost(block_zone_rows(v, i as int)),
        )?;
        i = i + 1;
    }
    Ok((table_seg, block_seg))
}

/// The number under which zone maps list a relationship table.
pub open spec fn rel_zone_table(n: int) -> u16 {
    0x8000u16 | (n as u16)
}

/// The rows of the table zone maps of the first `n` relationship tables.
pub open spec fn rel_zone_rows(v: Seq<RelTableView>, n: int) -> Seq<ZoneRow>
    decreases n,
{
    if n <= 0 {
        Seq::empty()
    } else {
        rel_zone_rows(v, n - 1) + zone_rows_of_table(rel_zone_table(n - 1), v[n - 1].zones)
    }
}

/// The rows of the block zone maps of the first `n` relationship tables.
pub open spec fn rel_block_rows(v: Seq<RelTableView>, n: int) -> Seq<ZoneRow>
    decreases n,
{
    if n <= 0 {
        Seq::empty()
    } else {
        rel_block_rows(v, n - 1) + block_rows_of_table(
            rel_zone_table(n - 1),
            v[n - 1].blocks,
            v[n - 1].blocks.len() as int,
        )
    }
}

/// The relationship tables whose zone maps cannot be written, by position.
pub open spec fn rel_zones_write_checks(
    v: Seq<RelTableView>,
    index: Map<Seq<char>, u32>,
) -> spec_fn(int) -> Option<FormatError> {
    |i: int|
        match faults::first_fault(v[i].zones.len(), zone_pair_checks(v[i].zones, index)) {
            Some(e) => Some(e),
            None => faults::first_fault(v[i].blocks.len(), block_pair_checks(v[i].blocks, index)),
        }
}

/// The first zone map of a store that cannot be written: of a node table, then
/// of a relationship table.
pub open spec fn all_zones_write_fault(s: StoreView, index: Map<Seq<char>, u32>) -> Option<
    FormatError,
> {
    match zones_write_fault(s.nodes, index) {
        Some(e) => Some(e),
        None => faults::first_fault(s.rels.len(), rel_zones_write_checks(s.rels, index)),
    }
}

/// All rows of a store's table zone maps.
pub open spec fn all_zone_rows(s: StoreView) -> Seq<ZoneRow> {
    table_zone_rows(s.nodes, s.nodes.len() as int) + rel_zone_rows(s.rels, s.rels.len() as int)
}

/// All rows of a store's block zone maps.
pub open spec fn all_block_rows(s: StoreView) -> Seq<ZoneRow> {
    block_zone_rows(s.nodes, s.nodes.len() as int) + rel_block_rows(s.rels, s.rels.len() as int)
}

/// Builds the segments of table zone maps and of block zone maps for all node
/// tables and then all relationship tables.
#[verifier::loop_isolation(false)]
pub fn build_all_zone_map_segments(store: &CompactStore, string_index: &TextMap<u32>) -> (r: Result<
    (Vec<u8>, Vec<u8>),
    FormatError,
>)
    ensures
        r is Ok <==> all_zones_write_fault(store@, string_index@) is None,
        r matches Ok(x) ==> x.0@ == zone_segment(all_zone_rows(store@), string_index@) && x.1@
            == zone_segment(all_block_rows(store@), string_index@),
        r matches Err(e) ==> all_zones_write_fault(store@, string_index@) == Some(e),
{
    let ghost s = store@;
    let ghost v = s.rels;
    let ghost checks = rel_zones_write_checks(v, string_index@);
    let ghost zr = table_zone_rows(s.nodes, s.nodes.len() as int);
    let ghost br = block_zone_rows(s.nodes, s.nodes.len() as int);
    let (mut table_seg, mut block_seg) = build_zone_map_segments(store, string_index)?;
    assert(zr + rel_zone_rows(v, 0) =~= zr);
    assert(br + rel_block_rows(v, 0) =~= br);
    let mut i: usize = 0;
    while i < store.rel_tables.len()
        invariant
            i <= store.rel_tables@.len(),
            faults::first_fault(i as nat, checks) is None,
            table_seg@ == zone_segment(zr + rel_zone_rows(v, i as int), string_index@),
            block_seg@ == zone_segment(br + rel_block_rows(v, i as int), string_index@),
        decreases store.rel_tables@.len() - i,
    {
        let t: &RelTable = &store.rel_tables[i];
        assert(t@ == v[i as int]);
        let ghost fault = checks(i as int);
        assert(faults::first_fault((i + 1) as nat, checks) == fault);
        proof {
            if fault is Some {
                faults::lemma_first_fault_stays((i + 1) as nat, v.len(), checks);
            }
        }
        let table_id: u16 = 0x8000u16 | (i as u16);
        write_table_zones(
            &mut table_seg,
            table_id,
            &t.zone_maps,
            string_index,
            Ghost(zr + rel_zone_rows(v, i as int)),
        )?;
        write_table_blocks(
            &mut block_seg,
            table_id,
            &t.block_zone_maps,
            string_index,
            Ghost(br + rel_block_rows(v, i as int)),
        )?;
        proof {
            assert(zr + rel_zone_rows(v, i as int) + zone_rows_of_table(table_id, t@.zones) =~= zr
                + rel_zone_rows(v, i + 1));
            assert(br + rel_block_rows(v, i as int) + block_rows_of_table(
                table_id,
                t@.blocks,
                t@.blocks.len() as int,
            ) =~= br + rel_block_rows(v, i + 1));
        }
        i = i + 1;
    }
    Ok((table_seg, block_seg))
}

} // verus!
