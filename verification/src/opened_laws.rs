//! What holds of every payload and every section that opens, and which texts a
//! store puts into its dictionary.

use crate::dict_pass::{ChunkView, RemapWalk, StringUseKind};
use crate::dict_pass;
use crate::directory::SegmentKind;
use crate::directory;
use crate::generation::GenerationError;
use crate::intern;
use crate::outside;
use crate::runs::RecordView;
use crate::section;
use crate::section_read::BlockExtent;
use crate::section_read;
use crate::string_laws;
use crate::table_laws;
use crate::tables::{ColumnType, ColumnView};
use crate::tables;
use crate::text;
use crate::v5_meta::MetaColumnView;
use crate::v5_read;
use crate::value::{ValueView, ZoneView};
use crate::wire;
use vstd::prelude::*;

verus! {

// --------------------------------------------------------------------- opening

/// A payload that opens ends with the checksum of all before it, has a sound
/// directory, texts and metadata, and every companion that its flags announce.
pub proof fn lemma_opened_payload_is_sound(d: Seq<u8>)
    requires
        v5_read::v5_read(d) is Ok,
    ensures
        d.len() >= 68,
        wire::u32_at(d, d.len() - 4) == outside::crc32_of(d.subrange(0, d.len() - 4)),
        directory::directory_fault(d, (d.len() - 4) as u64) is None,
        lists_kind(d, SegmentKind::Metadata),
        lists_kind(d, SegmentKind::StringOffsets),
        lists_kind(d, SegmentKind::StringBytes),
        directory::header_of(d).layout_flags % 2 == 1 ==> lists_kind(d, SegmentKind::NodeLabelMembership),
        (directory::header_of(d).layout_flags / 2) % 2 == 1 ==> lists_kind(d, SegmentKind::ColumnRowPresence),
        (directory::header_of(d).layout_flags / 4) % 2 == 1 ==> lists_kind(d, SegmentKind::ColumnRowNull),
{
    let e = directory::entries_of(d);
    table_laws::lemma_first_of_kind_is_found(e, SegmentKind::Metadata);
    table_laws::lemma_first_of_kind_is_found(e, SegmentKind::StringOffsets);
    table_laws::lemma_first_of_kind_is_found(e, SegmentKind::StringBytes);
    table_laws::lemma_first_of_kind_is_found(e, SegmentKind::NodeLabelMembership);
    table_laws::lemma_first_of_kind_is_found(e, SegmentKind::ColumnRowPresence);
    table_laws::lemma_first_of_kind_is_found(e, SegmentKind::ColumnRowNull);
    assert(v5_read::dict_read(d) is Ok);
}

/// The directory lists a segment of a kind.
pub open spec fn lists_kind(d: Seq<u8>, kind: SegmentKind) -> bool {
    exists|i: int| 0 <= i < directory::entries_of(d).len() && (#[trigger] directory::entries_of(d)[i]).kind == kind
}

/// A section that opens ends with the checksum of all before it, starts with the
/// mark of a section and has a version from the first to the last.
pub proof fn lemma_opened_section_is_sound(d: Seq<u8>, blocks: Seq<BlockExtent>)
    requires
        section_read::section_read(d, blocks) is Ok,
    ensures
        d.len() >= 10,
        wire::u32_at(d, d.len() - 4) == outside::crc32_of(d.subrange(0, d.len() - 4)),
        wire::u32_at(d, 0) == 0x5453_4347,
        1 <= d[4] <= 4,
{
}

/// The keys of a table that opens are those of its columns, no key before a
/// lesser one.
pub proof fn lemma_opened_keys(columns: Seq<MetaColumnView>)
    ensures
        v5_read::sorted_keys(columns).len() == columns.len(),
        forall|k: Seq<char>| #[trigger]
            v5_read::sorted_keys(columns).contains(k) <==> exists|i: int|
                0 <= i < columns.len() && (#[trigger] columns[i]).key == k,
        forall|i: int, j: int|
            0 <= i < j < columns.len() ==> !text::text_lt(
                #[trigger] v5_read::sorted_keys(columns)[j],
                #[trigger] v5_read::sorted_keys(columns)[i],
            ),
{
    let d = Seq::new(columns.len(), |i: int| columns[i].key);
    string_laws::lemma_sorting_texts(d);
    assert forall|k: Seq<char>| #[trigger] v5_read::sorted_keys(columns).contains(k) <==> exists|i: int|
        0 <= i < columns.len() && (#[trigger] columns[i]).key == k by {
        if d.contains(k) {
            let i = choose|i: int| 0 <= i < d.len() && d[i] == k;
            assert(columns[i].key == k);
        }
        if exists|i: int| 0 <= i < columns.len() && (#[trigger] columns[i]).key == k {
            let i = choose|i: int| 0 <= i < columns.len() && (#[trigger] columns[i]).key == k;
            assert(d[i] == k);
        }
    }
}

/// The type of a column that opens is that of its encoding, as far as the number
/// of the encoding tells it: packed integers count as integers, and vectors as
/// texts.
pub proof fn lemma_types_go_with_encodings(c: ColumnView, width: u32)
    ensures
        v5_read::type_of_disc(tables::column_disc(c)) == (match section::column_type(c, width) {
            ColumnType::UInt { .. } => ColumnType::Int64,
            ColumnType::Int8Vector { .. } => ColumnType::DictString,
            ColumnType::Float32Vector { .. } => ColumnType::DictString,
            t => t,
        }),
{
}

// ----------------------------------------------------------------------- texts

/// A zone map has a text as a bound.
pub open spec fn bounded_by_text(z: ZoneView, s: Seq<char>) -> bool {
    z.min == Some(ValueView::Text(s)) || z.max == Some(ValueView::Text(s))
}

/// A table uses a text: as its name, a key, an entry of a dictionary, or a bound
/// of a zone map of the table or of a block.
pub open spec fn table_uses(
    name: Seq<char>,
    columns: Seq<(Seq<char>, ColumnView)>,
    zones: Seq<(Seq<char>, ZoneView)>,
    blocks: Seq<(Seq<char>, Seq<ZoneView>)>,
    s: Seq<char>,
) -> bool {
    ||| s == name
    ||| exists|i: int| 0 <= i < columns.len() && (#[trigger] columns[i]).0 == s
    ||| exists|i: int|
        0 <= i < columns.len() && ((#[trigger] columns[i]).1 matches ColumnView::Dict {
            entries,
            ..
        } && entries.contains(s))
    ||| exists|i: int| 0 <= i < zones.len() && bounded_by_text((#[trigger] zones[i]).1, s)
    ||| exists|i: int, j: int|
        #![trigger blocks[i].1[j]]
        0 <= i < blocks.len() && 0 <= j < blocks[i].1.len() && bounded_by_text(blocks[i].1[j], s)
}

proof fn lemma_zone_texts(z: ZoneView, s: Seq<char>)
    ensures
        intern::zone_texts(z).contains(s) <==> bounded_by_text(z, s),
{
    let v = intern::zone_texts(z);
    if v.contains(s) {
        let i = choose|i: int| 0 <= i < v.len() && v[i] == s;
    }
    if z.min == Some(ValueView::Text(s)) {
        assert(v[0] == s);
    }
    if z.max == Some(ValueView::Text(s)) {
        assert(v[v.len() - 1] == s);
    }
}

proof fn lemma_entry_texts(columns: Seq<(Seq<char>, ColumnView)>, n: int, s: Seq<char>)
    requires
        0 <= n <= columns.len(),
    ensures
        intern::entry_texts(columns, n).contains(s) <==> exists|i: int|
            0 <= i < n && ((#[trigger] columns[i]).1 matches ColumnView::Dict { entries, .. }
                && entries.contains(s)),
    decreases n,
{
    if n > 0 {
        lemma_entry_texts(columns, n - 1, s);
        let a = intern::entry_texts(columns, n - 1);
        let b = intern::column_texts(columns[n - 1].1);
        string_laws::lemma_either(a, b, s);
        if exists|i: int|
            0 <= i < n && ((#[trigger] columns[i]).1 matches ColumnView::Dict { entries, .. }
                && entries.contains(s)) {
            let i = choose|i: int|
                0 <= i < n && ((#[trigger] columns[i]).1 matches ColumnView::Dict { entries, .. }
                    && entries.contains(s));
            if i < n - 1 {
                assert(columns[i].1 is Dict);
            }
        }
        if b.contains(s) {
            assert(columns[n - 1].1 is Dict);
        }
    }
}

proof fn lemma_table_zone_texts(v: Seq<(Seq<char>, ZoneView)>, n: int, s: Seq<char>)
    requires
        0 <= n <= v.len(),
    ensures
        intern::table_zone_texts(v, n).contains(s) <==> exists|i: int|
            0 <= i < n && bounded_by_text((#[trigger] v[i]).1, s),
    decreases n,
{
    if n > 0 {
        lemma_table_zone_texts(v, n - 1, s);
        lemma_zone_texts(v[n - 1].1, s);
        string_laws::lemma_either(intern::table_zone_texts(v, n - 1), intern::zone_texts(v[n - 1].1), s);
        if exists|i: int| 0 <= i < n && bounded_by_text((#[trigger] v[i]).1, s) {
            let i = choose|i: int| 0 <= i < n && bounded_by_text((#[trigger] v[i]).1, s);
            if i < n - 1 {
                assert(bounded_by_text(v[i].1, s));
            }
        }
        if bounded_by_text(v[n - 1].1, s) {
            assert(bounded_by_text(v[n - 1].1, s));
        }
    }
}

proof fn lemma_zone_row_texts(v: Seq<ZoneView>, n: int, s: Seq<char>)
    requires
        0 <= n <= v.len(),
    ensures
        intern::zone_row_texts(v, n).contains(s) <==> exists|i: int|
            0 <= i < n && bounded_by_text(#[trigger] v[i], s),
    decreases n,
{
    if n > 0 {
        lemma_zone_row_texts(v, n - 1, s);
        lemma_zone_texts(v[n - 1], s);
        string_laws::lemma_either(intern::zone_row_texts(v, n - 1), intern::zone_texts(v[n - 1]), s);
        if exists|i: int| 0 <= i < n && bounded_by_text(#[trigger] v[i], s) {
            let i = choose|i: int| 0 <= i < n && bounded_by_text(#[trigger] v[i], s);
            if i < n - 1 {
                assert(bounded_by_text(v[i], s));
            }
        }
    }
}

proof fn lemma_block_zone_texts(v: Seq<(Seq<char>, Seq<ZoneView>)>, n: int, s: Seq<char>)
    requires
        0 <= n <= v.len(),
    ensures
        intern::block_zone_texts(v, n).contains(s) <==> exists|i: int, j: int|
            #![trigger v[i].1[j]]
            0 <= i < n && 0 <= j < v[i].1.len() && bounded_by_text(v[i].1[j], s),
    decreases n,
{
    if n > 0 {
        let row = v[n - 1].1;
        let m = row.len() as int;
        lemma_block_zone_texts(v, n - 1, s);
        lemma_zone_row_texts(row, m, s);
        string_laws::lemma_either(intern::block_zone_texts(v, n - 1), intern::zone_row_texts(row, m), s);
        if exists|i: int, j: int|
            #![trigger v[i].1[j]]
            0 <= i < n && 0 <= j < v[i].1.len() && bounded_by_text(v[i].1[j], s) {
            let (i, j) = choose|i: int, j: int|
                #![trigger v[i].1[j]]
                0 <= i < n && 0 <= j < v[i].1.len() && bounded_by_text(v[i].1[j], s);
            if i < n - 1 {
                assert(bounded_by_text(v[i].1[j], s));
            } else {
                assert(bounded_by_text(row[j], s));
            }
        }
        if intern::zone_row_texts(row, m).contains(s) {
            let j = choose|j: int| 0 <= j < m && bounded_by_text(#[trigger] row[j], s);
            assert(bounded_by_text(v[n - 1].1[j], s));
        }
    }
}

/// The texts of a table are those that it uses, and no others.
pub proof fn lemma_tables_name_their_texts(
    name: Seq<char>,
    columns: Seq<(Seq<char>, ColumnView)>,
    zones: Seq<(Seq<char>, ZoneView)>,
    blocks: Seq<(Seq<char>, Seq<ZoneView>)>,
    s: Seq<char>,
)
    ensures
        intern::table_texts(name, columns, zones, blocks).contains(s) <==> table_uses(
            name,
            columns,
            zones,
            blocks,
            s,
        ),
{
    let a = seq![name];
    let b = intern::key_texts(columns);
    let c = intern::entry_texts(columns, columns.len() as int);
    let d = intern::table_zone_texts(zones, zones.len() as int);
    let e = intern::block_zone_texts(blocks, blocks.len() as int);
    string_laws::lemma_either(a, b, s);
    string_laws::lemma_either(a + b, c, s);
    string_laws::lemma_either(a + b + c, d, s);
    string_laws::lemma_either(a + b + c + d, e, s);
    lemma_entry_texts(columns, columns.len() as int, s);
    lemma_table_zone_texts(zones, zones.len() as int, s);
    lemma_block_zone_texts(blocks, blocks.len() as int, s);
    assert(a.contains(s) <==> s == name) by {
        assert(a[0] == name);
    }
    if b.contains(s) {
        let i = choose|i: int| 0 <= i < b.len() && b[i] == s;
        assert(columns[i].0 == s);
    }
    if exists|i: int| 0 <= i < columns.len() && (#[trigger] columns[i]).0 == s {
        let i = choose|i: int| 0 <= i < columns.len() && (#[trigger] columns[i]).0 == s;
        assert(b[i] == s);
    }
}

// ----------------------------------------------------------------------- codes

/// A text of a column's dictionary has a code.
pub open spec fn column_codes(
    v: Seq<ChunkView>,
    table: u16,
    prop: Seq<u8>,
    text: Seq<u8>,
    code: u32,
) -> bool {
    exists|c: int, e: int|
        #![trigger v[c].entries[e]]
        0 <= c < v.len() && v[c].table_id == table && v[c].prop == prop && 0 <= e
            < v[c].entries.len() && v[c].entries[e] == (text, code)
}

/// A text of a column's dictionaries has the code of a record that gives it to
/// the column.
pub proof fn lemma_remap_keeps_codes(
    recs: Seq<RecordView>,
    n: nat,
    table: u16,
    prop: Seq<u8>,
    text: Seq<u8>,
    code: u32,
)
    requires
        n <= recs.len(),
        dict_pass::remap_walk(recs, n) is Ok,
        column_codes(dict_pass::remap_walk(recs, n)->Ok_0.chunks, table, prop, text, code),
    ensures
        exists|i: int|
            0 <= i < n && string_laws::gives_column_text(#[trigger] recs[i], table, prop, text) && wire::u32_at(
                recs[i].payload,
                0,
            ) == code,
    decreases n,
{
    let z = dict_pass::remap_walk(recs, n)->Ok_0;
    if n > 0 {
        let p = (n - 1) as nat;
        let w = dict_pass::remap_walk(recs, p)->Ok_0;
        let rec = recs[n - 1];
        let k = rec.key;
        assert(dict_pass::remap_step(w, rec) == Ok::<RemapWalk, GenerationError>(z));
        if column_codes(w.chunks, table, prop, text, code) {
            lemma_remap_keeps_codes(recs, p, table, prop, text, code);
            let i = choose|i: int|
                0 <= i < p && string_laws::gives_column_text(#[trigger] recs[i], table, prop, text) && wire::u32_at(
                    recs[i].payload,
                    0,
                ) == code;
            assert(string_laws::gives_column_text(recs[i], table, prop, text));
        } else {
            let v = w.chunks;
            let (c, e) = choose|c: int, e: int|
                #![trigger z.chunks[c].entries[e]]
                0 <= c < z.chunks.len() && z.chunks[c].table_id == table && z.chunks[c].prop == prop
                    && 0 <= e < z.chunks[c].entries.len() && z.chunks[c].entries[e] == (text, code);
            assert(k[0] == dict_pass::use_number(StringUseKind::DictValue)) by {
                if z.chunks == v {
                    assert(v[c].entries[e] == (text, code));
                }
            }
            let m = wire::u16_be_at(k, 3) as int;
            let t = wire::u16_be_at(k, 1);
            let key = k.subrange(5, 5 + m);
            let open = if v.len() > 0 && v.last().table_id == t && v.last().prop == key {
                v
            } else {
                v.push(dict_pass::fresh_chunk(t, key))
            };
            let last = open.len() - 1;
            assert(z.chunks[last].table_id == t && z.chunks[last].prop == key);
            if c < last {
                assert(v[c].entries[e] == (text, code));
            } else {
                if e < open[last].entries.len() {
                    assert(open[last].entries[e] == (text, code));
                    assert(v[c].entries[e] == (text, code));
                }
            }
            assert(string_laws::gives_column_text(recs[n - 1], table, prop, text));
        }
    }
}

} // verus!
