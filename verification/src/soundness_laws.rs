//! What readers and writers accept, told by the bytes and the numbers.

use crate::directory::{SegmentEntry, SegmentKind};
use crate::directory;
use crate::faults;
use crate::id_lookup;
use crate::label_membership;
use crate::membership_index::LabelEntry;
use crate::orchestrator::PlanView;
use crate::orchestrator;
use crate::outside;
use crate::section_codec;
use crate::staging;
use crate::tables::{ColumnView, StoreView};
use crate::tables;
use crate::text;
use crate::v5_write;
use crate::value::ValueView;
use crate::wire;
use vstd::prelude::*;
use vstd::utf8::*;

verus! {

// --------------------------------------------------------------------- lookups

proof fn lemma_lookup_pair(d: Seq<u8>, kind: SegmentKind, i: int, j: int)
    requires
        id_lookup::lookup_fault(d, kind) is None,
        0 <= i < j < id_lookup::lookup_entries_of(d).len(),
    ensures
        id_lookup::lookup_entries_of(d)[i].0 <= id_lookup::lookup_entries_of(d)[j].0,
    decreases j - i,
{
    let n = d.len() / 24;
    faults::lemma_no_fault((n - 1) as nat, id_lookup::lookup_order_checks(d, kind));
    assert(id_lookup::lookup_order_checks(d, kind)(j - 1) is None);
    if i < j - 1 {
        lemma_lookup_pair(d, kind, i, j - 1);
    }
}

/// An id lookup is sound exactly where it is a whole number of records, whose
/// spare bytes are zero and whose ids do not descend.
pub proof fn lemma_sound_lookup(d: Seq<u8>, kind: SegmentKind)
    ensures
        id_lookup::lookup_fault(d, kind) is None <==> {
            &&& d.len() % 24 == 0
            &&& forall|i: int|
                0 <= i < d.len() / 24 ==> wire::u16_at(d, #[trigger] (i * 24) + 10) == 0 && wire::u32_at(
                    d,
                    i * 24 + 12,
                ) == 0
            &&& forall|i: int, j: int|
                0 <= i < j < id_lookup::lookup_entries_of(d).len() ==> (#[trigger] id_lookup::lookup_entries_of(d)[i]).0
                    <= (#[trigger] id_lookup::lookup_entries_of(d)[j]).0
        },
{
    let n = d.len() / 24;
    let v = id_lookup::lookup_entries_of(d);
    faults::lemma_no_fault(n, id_lookup::reserved_checks(d, kind));
    if n > 0 {
        faults::lemma_no_fault((n - 1) as nat, id_lookup::lookup_order_checks(d, kind));
    }
    if id_lookup::lookup_fault(d, kind) is None {
        assert forall|i: int| 0 <= i < n implies wire::u16_at(d, #[trigger] (i * 24) + 10) == 0 && wire::u32_at(
            d,
            i * 24 + 12,
        ) == 0 by {
            assert(id_lookup::reserved_checks(d, kind)(i) is None);
        }
        assert forall|i: int, j: int| 0 <= i < j < v.len() implies (#[trigger] v[i]).0 <= (
        #[trigger] v[j]).0 by {
            lemma_lookup_pair(d, kind, i, j);
        }
    }
    if d.len() % 24 == 0 && (forall|i: int|
        0 <= i < n ==> wire::u16_at(d, #[trigger] (i * 24) + 10) == 0 && wire::u32_at(d, i * 24 + 12) == 0) && (
    forall|i: int, j: int|
        0 <= i < j < v.len() ==> (#[trigger] v[i]).0 <= (#[trigger] v[j]).0) {
        assert forall|i: int| 0 <= i < n implies (#[trigger] id_lookup::reserved_checks(d, kind)(
            i,
        )) is None by {
            let x = i * 24;
            assert(wire::u16_at(d, x + 10) == 0);
        }
        if n > 0 {
            assert forall|i: int| 0 <= i < n - 1 implies (#[trigger] id_lookup::lookup_order_checks(d, kind)(
                i,
            )) is None by {
                assert(v[i].0 <= v[i + 1].0);
            }
        }
    }
}

// ----------------------------------------------------------------- memberships

proof fn lemma_membership_pair(d: Seq<u8>, i: int, j: int)
    requires
        label_membership::membership_fault(d) is None,
        0 <= i < j < label_membership::memberships_of(d).len(),
    ensures
        label_membership::membership_lt(label_membership::memberships_of(d)[i], label_membership::memberships_of(d)[j]),
    decreases j - i,
{
    let v = label_membership::memberships_of(d);
    faults::lemma_no_fault(wire::u32_at(d, 0) as nat, label_membership::membership_checks(d));
    assert(label_membership::membership_checks(d)(j) is None);
    assert(label_membership::membership_lt(v[j - 1], v[j]));
    if i < j - 1 {
        lemma_membership_pair(d, i, j - 1);
    }
}

/// A membership segment is sound exactly where it has as many records as its
/// head says, and they ascend strictly.
pub proof fn lemma_sound_memberships(d: Seq<u8>)
    ensures
        label_membership::membership_fault(d) is None <==> {
            &&& d.len() >= 8
            &&& d.len() == 8 + 16 * wire::u32_at(d, 0)
            &&& forall|i: int, j: int|
                0 <= i < j < label_membership::memberships_of(d).len() ==> label_membership::membership_lt(
                    #[trigger] label_membership::memberships_of(d)[i],
                    #[trigger] label_membership::memberships_of(d)[j],
                )
        },
{
    let v = label_membership::memberships_of(d);
    faults::lemma_no_fault(wire::u32_at(d, 0) as nat, label_membership::membership_checks(d));
    if label_membership::membership_fault(d) is None {
        assert forall|i: int, j: int| 0 <= i < j < v.len() implies label_membership::membership_lt(
            #[trigger] v[i],
            #[trigger] v[j],
        ) by {
            lemma_membership_pair(d, i, j);
        }
    }
    if d.len() >= 8 && d.len() == 8 + 16 * wire::u32_at(d, 0) && forall|i: int, j: int|
        0 <= i < j < v.len() ==> label_membership::membership_lt(#[trigger] v[i], #[trigger] v[j]) {
        assert forall|i: int| 0 <= i < wire::u32_at(d, 0) implies (#[trigger] label_membership::membership_checks(d)(
            i,
        )) is None by {
            if i > 0 {
                assert(label_membership::membership_lt(v[i - 1], v[i]));
            }
        }
    }
}

proof fn lemma_entries_pair(v: Seq<LabelEntry>, i: int, j: int)
    requires
        faults::first_fault(v.len(), crate::membership_index::entry_checks(v)) is None,
        0 <= i < j < v.len(),
    ensures
        v[i].0 < v[j].0,
    decreases j - i,
{
    faults::lemma_no_fault(v.len(), crate::membership_index::entry_checks(v));
    assert(crate::membership_index::entry_checks(v)(j) is None);
    if i < j - 1 {
        lemma_entries_pair(v, i, j - 1);
    }
}

/// Label entries are taken exactly where their ids ascend strictly and their
/// labels can be stored.
pub proof fn lemma_sound_label_entries(v: Seq<LabelEntry>)
    ensures
        faults::first_fault(v.len(), crate::membership_index::entry_checks(v)) is None <==> {
            &&& forall|i: int, j: int|
                0 <= i < j < v.len() ==> (#[trigger] v[i]).0 < (#[trigger] v[j]).0
            &&& forall|i: int| 0 <= i < v.len() ==> staging::labels_fault((#[trigger] v[i]).1) is None
        },
{
    faults::lemma_no_fault(v.len(), crate::membership_index::entry_checks(v));
    if faults::first_fault(v.len(), crate::membership_index::entry_checks(v)) is None {
        assert forall|i: int, j: int| 0 <= i < j < v.len() implies (#[trigger] v[i]).0 < (
        #[trigger] v[j]).0 by {
            lemma_entries_pair(v, i, j);
        }
        assert forall|i: int| 0 <= i < v.len() implies staging::labels_fault(
            (#[trigger] v[i]).1,
        ) is None by {
            assert(crate::membership_index::entry_checks(v)(i) is None);
        }
    }
    if (forall|i: int, j: int|
        0 <= i < j < v.len() ==> (#[trigger] v[i]).0 < (#[trigger] v[j]).0) && (forall|i: int|
        0 <= i < v.len() ==> staging::labels_fault((#[trigger] v[i]).1) is None) {
        assert forall|i: int| 0 <= i < v.len() implies (
        #[trigger] crate::membership_index::entry_checks(v)(i)) is None by {
            if i > 0 {
                assert(v[i - 1].0 < v[i].0);
            }
        }
    }
}

// ----------------------------------------------------------------- directories

proof fn lemma_segment_pair(d: Seq<u8>, payload: u64, i: int, j: int)
    requires
        directory::directory_fault(d, payload) is None,
        0 <= i < j < directory::entries_of(d).len(),
    ensures
        directory::entries_of(d)[i].offset + directory::entries_of(d)[i].length <= directory::entries_of(d)[j].offset,
        directory::entry_kind_at(directory::directory_bytes_of(d), i) < directory::entry_kind_at(directory::directory_bytes_of(d), j),
    decreases j - i,
{
    let dir = directory::directory_bytes_of(d);
    let h = directory::header_of(d);
    faults::lemma_no_fault(
        h.segment_count as nat,
        crate::directory::entry_checks(dir, payload, h.data_offset),
    );
    assert(crate::directory::entry_checks(dir, payload, h.data_offset)(j) is None);
    if i < j - 1 {
        lemma_segment_pair(d, payload, i, j - 1);
    }
}

/// The segments of a directory that is taken lie apart from each other, behind
/// the directory and within the payload, each kind once, and the directory is
/// the one whose checksum the header holds.
pub proof fn lemma_sound_directory(d: Seq<u8>, payload: u64)
    requires
        directory::directory_fault(d, payload) is None,
    ensures
        d.len() >= 64 + 48 * directory::header_of(d).segment_count,
        d[0] == 0x47 && d[1] == 0x43 && d[2] == 0x53 && d[3] == 0x54 && d[4] == 5,
        outside::crc32_of(d.subrange(64, 64 + 48 * directory::header_of(d).segment_count)) == wire::u32_at(d, 56),
        directory::header_of(d).data_offset >= 64 + 48 * directory::header_of(d).segment_count,
        forall|i: int|
            0 <= i < directory::entries_of(d).len() ==> directory::header_of(d).data_offset <= (
            #[trigger] directory::entries_of(d)[i]).offset && directory::entries_of(d)[i].offset
                + directory::entries_of(d)[i].length <= payload,
        forall|i: int, j: int|
            0 <= i < j < directory::entries_of(d).len() ==> (#[trigger] directory::entries_of(d)[i]).offset
                + directory::entries_of(d)[i].length <= (#[trigger] directory::entries_of(d)[j]).offset
                && directory::entries_of(d)[i].kind != directory::entries_of(d)[j].kind,
{
    let dir = directory::directory_bytes_of(d);
    let h = directory::header_of(d);
    let v = directory::entries_of(d);
    let check = crate::directory::entry_checks(dir, payload, h.data_offset);
    faults::lemma_no_fault(h.segment_count as nat, check);
    assert(d.subrange(0, 4) == directory::magic());
    assert(d.subrange(0, 4)[0] == d[0] && d.subrange(0, 4)[1] == d[1] && d.subrange(0, 4)[2] == d[2]
        && d.subrange(0, 4)[3] == d[3]);
    assert(h.segment_count * 48 == 48 * h.segment_count);
    assert forall|i: int| 0 <= i < v.len() implies directory::header_of(d).data_offset <= (
    #[trigger] v[i]).offset && v[i].offset + v[i].length <= payload by {
        assert(check(i) is None);
    }
    assert forall|i: int, j: int| 0 <= i < j < v.len() implies (#[trigger] v[i]).offset
        + v[i].length <= (#[trigger] v[j]).offset && v[i].kind != v[j].kind by {
        assert(check(i) is None && check(j) is None);
        lemma_segment_pair(d, payload, i, j);
        lemma_kinds_of_codes(directory::entry_kind_at(dir, i));
        lemma_kinds_of_codes(directory::entry_kind_at(dir, j));
    }
}

proof fn lemma_kinds_of_codes(code: u16)
    requires
        code < directory::kind_count(),
    ensures
        directory::kind_code(directory::kind_of_code(code)) == code,
{
    let k = if code == 0 {
        SegmentKind::Metadata
    } else if code == 1 {
        SegmentKind::StringOffsets
    } else if code == 2 {
        SegmentKind::StringBytes
    } else if code == 3 {
        SegmentKind::NodeTableDirectory
    } else if code == 4 {
        SegmentKind::RelTableDirectory
    } else if code == 5 {
        SegmentKind::NodeRelationshipDirectory
    } else if code == 6 {
        SegmentKind::ColumnDirectory
    } else if code == 7 {
        SegmentKind::ColumnBlockIndex
    } else if code == 8 {
        SegmentKind::ColumnBodies
    } else if code == 9 {
        SegmentKind::ForwardCsrOffsets
    } else if code == 10 {
        SegmentKind::ForwardCsrTargets
    } else if code == 11 {
        SegmentKind::ReverseCsrOffsets
    } else if code == 12 {
        SegmentKind::ReverseCsrTargets
    } else if code == 13 {
        SegmentKind::ForwardPositions
    } else if code == 14 {
        SegmentKind::NodeIdLookup
    } else if code == 15 {
        SegmentKind::EdgeIdLookup
    } else if code == 16 {
        SegmentKind::NodeOriginalIds
    } else if code == 17 {
        SegmentKind::EdgeOriginalIds
    } else if code == 18 {
        SegmentKind::TableZoneMaps
    } else if code == 19 {
        SegmentKind::BlockZoneMaps
    } else if code == 20 {
        SegmentKind::DictionaryCodeIndex
    } else if code == 21 {
        SegmentKind::NodeLabelMembership
    } else if code == 22 {
        SegmentKind::ColumnRowPresence
    } else {
        SegmentKind::ColumnRowNull
    };
    assert(directory::kind_code(k) == code);
}

/// A segment is handed out exactly where it lies within the data and its bytes
/// have the checksum that the directory holds.
pub proof fn lemma_sound_slice(d: Seq<u8>, e: SegmentEntry)
    ensures
        directory::slice_fault(d, e) is None <==> e.offset + e.length <= d.len() && outside::crc32_of(
            d.subrange(e.offset as int, e.offset + e.length),
        ) == e.crc32,
{
}

// ----------------------------------------------------------------------- texts

/// A text of a section is read exactly where the version is known, its length
/// and its bytes are all there, and they are UTF-8; it then has these bytes, and
/// reading goes on behind them.
pub proof fn lemma_texts_are_read(d: Seq<u8>, pos: int, version: u8)
    requires
        0 <= pos,
    ensures
        ({
            let w: int = if version == 4 {
                4
            } else {
                2
            };
            let n: int = if version == 4 {
                wire::u32_at(d, pos) as int
            } else {
                wire::u16_at(d, pos) as int
            };
            &&& section_codec::text_read(d, pos, version) is Ok <==> {
                &&& 1 <= version <= 4
                &&& pos + w + n <= d.len()
                &&& pos + w <= d.len()
                &&& valid_utf8(d.subrange(pos + w, pos + w + n))
            }
            &&& section_codec::text_read(d, pos, version) matches Ok(r) ==> text::utf8(r.0) == d.subrange(
                pos + w,
                pos + w + n,
            ) && r.1 == pos + w + n
        }),
{
    if section_codec::text_read(d, pos, version) is Ok {
        let w: int = if version == 4 {
            4
        } else {
            2
        };
        let n: int = if version == 4 {
            wire::u32_at(d, pos) as int
        } else {
            wire::u16_at(d, pos) as int
        };
        text::lemma_utf8_text_of(d.subrange(pos + w, pos + w + n));
    }
}

/// A text of a section is written exactly where the version is known and the
/// length fits its prefix: four bytes in the last version, two before.
pub proof fn lemma_texts_are_written(n: int, version: u8)
    requires
        0 <= n,
    ensures
        section_codec::length_fault(n, version) is None <==> 1 <= version <= 4 && n < (if version == 4 {
            0x1_0000_0000int
        } else {
            0x1_0000
        }),
        section_codec::length_prefix(n, version).len() == (if version == 4 {
            4int
        } else {
            2
        }),
{
    broadcast use wire::group_wire;

}

/// A bound of a section's zone map is written behind its tag, or left out where
/// it is neither an integer, nor a truth value, nor a text.
pub proof fn lemma_bounds_are_tagged(v: Option<ValueView>, version: u8)
    ensures
        match v {
            Some(ValueView::Int64(n)) => section_codec::bound_bytes(v, version).len() == 9 && section_codec::bound_bytes(
                v,
                version,
            )[0] == 1 && wire::u64_at(section_codec::bound_bytes(v, version), 1) == n as u64,
            Some(ValueView::Bool(b)) => section_codec::bound_bytes(v, version).len() == 2 && section_codec::bound_bytes(
                v,
                version,
            )[0] == 2 && (section_codec::bound_bytes(v, version)[1] == 1 <==> b),
            Some(ValueView::Text(s)) => section_codec::bound_bytes(v, version)[0] == 3 && section_codec::bound_bytes(
                v,
                version,
            ).skip(1) == section_codec::section_text(s, version),
            _ => section_codec::bound_bytes(v, version).len() == 1 && section_codec::bound_bytes(v, version)[0] == 0,
        },
{
    broadcast use wire::group_wire;

    let d = section_codec::bound_bytes(v, version);
    match v {
        Some(ValueView::Int64(n)) => {
            assert(d.subrange(1, 9) =~= wire::put64(n as u64));
        },
        Some(ValueView::Text(s)) => {
            assert(d.skip(1) =~= section_codec::section_text(s, version));
        },
        _ => {},
    }
}

/// A staged value stands behind its tag.
pub proof fn lemma_values_are_tagged(v: ValueView)
    requires
        staging::value_fault(v) is None,
    ensures
        ({
            let d = staging::value_record(v);
            match v {
                ValueView::Null => d.len() == 1 && d[0] == 0,
                ValueView::Int64(n) => d.len() == 9 && d[0] == 1 && wire::u64_at(d, 1) == n as u64,
                ValueView::Bool(b) => d.len() == 2 && d[0] == 2 && (d[1] == 1 <==> b),
                ValueView::Text(s) => d[0] == 3 && wire::u32_at(d, 1) == text::utf8(s).len() && d.skip(5)
                    == text::utf8(s),
                ValueView::Float64(f) => d.len() == 9 && d[0] == 4 && wire::u64_at(d, 1) == f,
                ValueView::Vector(w) => d[0] == 5 && wire::u16_at(d, 1) == w.len() && d.len() == 3 + 4
                    * w.len(),
                ValueView::Other(_) => true,
            }
        }),
{
    broadcast use wire::group_wire;

    let d = staging::value_record(v);
    match v {
        ValueView::Int64(n) => {
            assert(d.subrange(1, 9) =~= wire::put64(n as u64));
        },
        ValueView::Float64(f) => {
            assert(d.subrange(1, 9) =~= wire::put64(f));
        },
        ValueView::Text(s) => {
            assert(d.subrange(1, 5) =~= wire::put32(text::utf8(s).len() as u32));
            assert(d.skip(5) =~= text::utf8(s));
        },
        ValueView::Vector(w) => {
            let f = |x: u32| wire::put32(x);
            assert forall|i: int| 0 <= i < w.len() implies f(#[trigger] w[i]).len() == 4 by {}
            wire::lemma_flat_len(w, f, 4);
            assert(d.subrange(1, 3) =~= wire::put16(w.len() as u16));
        },
        _ => {},
    }
}

// --------------------------------------------------------------------- columns

/// A column can be written exactly where every row's code leads to a text that
/// has a code of its own.
pub proof fn lemma_writable_columns(
    entries: Seq<Seq<char>>,
    codes: Seq<u32>,
    index: Map<Seq<char>, u32>,
)
    ensures
        v5_write::column_fault(ColumnView::Dict { entries, codes }, index) is None <==> forall|i: int|
            0 <= i < codes.len() ==> (#[trigger] codes[i]) < entries.len() && index.dom().contains(
                entries[codes[i] as int],
            ),
{
    let check = v5_write::text_row_checks(entries, codes, index);
    faults::lemma_no_fault(codes.len(), check);
    if faults::first_fault(codes.len(), check) is None {
        assert forall|i: int| 0 <= i < codes.len() implies (#[trigger] codes[i]) < entries.len()
            && index.dom().contains(entries[codes[i] as int]) by {
            assert(check(i) is None);
        }
    }
    if forall|i: int|
        0 <= i < codes.len() ==> (#[trigger] codes[i]) < entries.len() && index.dom().contains(
            entries[codes[i] as int],
        ) {
        assert forall|i: int| 0 <= i < codes.len() implies (#[trigger] check(i)) is None by {
            assert(codes[i] < entries.len());
        }
    }
}

/// Columns fit a table: their number and the rows of each fit four bytes.
pub open spec fn columns_fit(columns: Seq<(Seq<char>, ColumnView)>) -> bool {
    &&& columns.len() < 0x1_0000_0000
    &&& forall|i: int| 0 <= i < columns.len() ==> tables::column_rows((#[trigger] columns[i]).1)
        < 0x1_0000_0000
}

proof fn lemma_columns_fit(columns: Seq<(Seq<char>, ColumnView)>)
    ensures
        v5_write::columns_limit(columns) is None <==> columns_fit(columns),
{
    let check = v5_write::column_limit_checks(columns);
    faults::lemma_no_fault(columns.len(), check);
    if v5_write::columns_limit(columns) is None {
        assert forall|i: int| 0 <= i < columns.len() implies tables::column_rows((#[trigger] columns[i]).1)
            < 0x1_0000_0000 by {
            assert(check(i) is None);
        }
    }
    if columns_fit(columns) {
        assert forall|i: int| 0 <= i < columns.len() implies (#[trigger] check(i)) is None by {
            assert(tables::column_rows(columns[i].1) < 0x1_0000_0000);
        }
    }
}

/// A store is within the limits of the format exactly where its tables can be
/// numbered in two bytes, and its rows, edges and columns in four.
pub proof fn lemma_stores_within_the_limits(s: StoreView)
    ensures
        v5_write::limits_fault(s) is None <==> {
            &&& s.nodes.len() <= 0x1_0000
            &&& s.rels.len() <= 0x1_0000
            &&& forall|t: int|
                0 <= t < s.nodes.len() ==> (#[trigger] s.nodes[t]).rows < 0x1_0000_0000
                    && columns_fit(s.nodes[t].columns)
            &&& forall|t: int|
                0 <= t < s.rels.len() ==> (#[trigger] s.rels[t]).fwd.targets.len() < 0x1_0000_0000
                    && columns_fit(s.rels[t].columns)
        },
{
    let a = v5_write::node_limit_checks(s.nodes);
    let b = v5_write::rel_limit_checks(s.rels);
    faults::lemma_no_fault(s.nodes.len(), a);
    faults::lemma_no_fault(s.rels.len(), b);
    assert forall|t: int| 0 <= t < s.nodes.len() implies ((#[trigger] a(t)) is None
        <==> s.nodes[t].rows < 0x1_0000_0000 && columns_fit(s.nodes[t].columns)) by {
        lemma_columns_fit(s.nodes[t].columns);
    }
    assert forall|t: int| 0 <= t < s.rels.len() implies ((#[trigger] b(t)) is None
        <==> s.rels[t].fwd.targets.len() < 0x1_0000_0000 && columns_fit(s.rels[t].columns)) by {
        lemma_columns_fit(s.rels[t].columns);
    }
    if v5_write::limits_fault(s) is None {
        assert forall|t: int| 0 <= t < s.nodes.len() implies (#[trigger] s.nodes[t]).rows
            < 0x1_0000_0000 && columns_fit(s.nodes[t].columns) by {
            assert(a(t) is None);
        }
        assert forall|t: int| 0 <= t < s.rels.len() implies (#[trigger] s.rels[t]).fwd.targets.len()
            < 0x1_0000_0000 && columns_fit(s.rels[t].columns) by {
            assert(b(t) is None);
        }
    }
    if (forall|t: int|
        0 <= t < s.nodes.len() ==> (#[trigger] s.nodes[t]).rows < 0x1_0000_0000 && columns_fit(
            s.nodes[t].columns,
        )) && (forall|t: int|
        0 <= t < s.rels.len() ==> (#[trigger] s.rels[t]).fwd.targets.len() < 0x1_0000_0000
            && columns_fit(s.rels[t].columns)) {
        assert forall|t: int| 0 <= t < s.nodes.len() implies (#[trigger] a(t)) is None by {
            assert(s.nodes[t].rows < 0x1_0000_0000);
        }
        assert forall|t: int| 0 <= t < s.rels.len() implies (#[trigger] b(t)) is None by {
            assert(s.rels[t].fwd.targets.len() < 0x1_0000_0000);
        }
    }
}

/// A plan can be assembled exactly where each column has a geometry, a table and
/// as many cells as rows, no count is beyond four bytes, and its edges have ids.
pub proof fn lemma_assembled_plans(p: PlanView)
    ensures
        orchestrator::store_fault(p) is None <==> {
            &&& p.cells.len() == p.geometries.len()
            &&& p.cells.len() < 0x1_0000_0000
            &&& forall|i: int|
                0 <= i < p.cells.len() ==> {
                    &&& orchestrator::numbered_rows(
                        p.nodes.counts,
                        p.edges.counts,
                        p.base,
                        (#[trigger] p.cells[i]).table_id,
                    ) is Some
                    &&& p.cells[i].cells.len() == p.geometries[i].row_count
                    &&& p.geometries[i].row_count < 0x1_0000_0000
                    &&& p.geometries[i].null_count < 0x1_0000_0000
                }
            &&& forall|t: int|
                0 <= t < p.nodes.counts.len() ==> (#[trigger] p.nodes.counts[t]) < 0x1_0000_0000
            &&& orchestrator::built_ids(p) is Ok
        },
{
    let a = orchestrator::column_checks(p);
    let b = orchestrator::rows_checks(p.nodes.counts);
    faults::lemma_no_fault(p.cells.len(), a);
    faults::lemma_no_fault(p.nodes.counts.len(), b);
    assert forall|i: int| 0 <= i < p.cells.len() implies ((#[trigger] a(i)) is None
        <==> orchestrator::numbered_rows(p.nodes.counts, p.edges.counts, p.base, p.cells[i].table_id) is Some
        && p.cells[i].cells.len() == p.geometries[i].row_count && p.geometries[i].row_count
        < 0x1_0000_0000 && p.geometries[i].null_count < 0x1_0000_0000) by {}
    if orchestrator::store_fault(p) is None {
        assert forall|i: int| 0 <= i < p.cells.len() implies orchestrator::numbered_rows(
            p.nodes.counts,
            p.edges.counts,
            p.base,
            (#[trigger] p.cells[i]).table_id,
        ) is Some && p.cells[i].cells.len() == p.geometries[i].row_count
            && p.geometries[i].row_count < 0x1_0000_0000 && p.geometries[i].null_count
            < 0x1_0000_0000 by {
            assert(a(i) is None);
        }
        assert forall|t: int| 0 <= t < p.nodes.counts.len() implies (#[trigger] p.nodes.counts[t])
            < 0x1_0000_0000 by {
            assert(b(t) is None);
        }
    }
    if forall|i: int|
        0 <= i < p.cells.len() ==> {
            &&& orchestrator::numbered_rows(
                p.nodes.counts,
                p.edges.counts,
                p.base,
                (#[trigger] p.cells[i]).table_id,
            ) is Some
            &&& p.cells[i].cells.len() == p.geometries[i].row_count
            &&& p.geometries[i].row_count < 0x1_0000_0000
            &&& p.geometries[i].null_count < 0x1_0000_0000
        } {
        assert forall|i: int| 0 <= i < p.cells.len() implies (#[trigger] a(i)) is None by {
            assert(p.cells[i].cells.len() == p.geometries[i].row_count);
        }
    }
}

/// A table number leads to the rows of a node table below the base, and of a
/// relationship table from it on.
pub proof fn lemma_numbers_lead_to_tables(nodes: Seq<u64>, rels: Seq<u64>, base: u32, t: int)
    ensures
        0 <= t < nodes.len() && t < base ==> orchestrator::numbered_rows(nodes, rels, base as int, t as u32)
            == Some(nodes[t]),
        0 <= t < rels.len() && base + t <= u32::MAX ==> orchestrator::numbered_rows(
            nodes,
            rels,
            base as int,
            (base + t) as u32,
        ) == Some(rels[t]),
{
}

} // verus!
