//! Payload header and checked segment directory.
//!
//! A payload is a fixed header, a directory with one entry for each segment in
//! ascending kind order, and the segment bodies. Every offset and length is
//! checked before a segment can be sliced, and every slice is checksummed.

use crate::faults;
use crate::outside::{bytes_as_slice, bytes_slice, crc32};
use crate::outside;
use crate::wire::{load_u16, load_u32, load_u64};
use crate::wire;
use crate::error::FormatError;
use bytes::Bytes;
use vstd::prelude::*;

verus! {

broadcast use wire::group_wire;

/// Payload version of the segment layout.
pub const FORMAT_VERSION_V5: u8 = 5;

/// Header length in bytes.
pub const HEADER_LEN: usize = 64;

/// Header length under the name that says which layout it belongs to.
pub const V5_HEADER_LEN: usize = 64;

/// Directory entry length in bytes.
pub const DIRECTORY_ENTRY_LEN: usize = 48;

/// Layout flag: the payload carries a label membership segment.
pub const REQUIRES_LABEL_MEMBERSHIP: u32 = 1;

/// Layout flag: the payload carries a row presence segment.
pub const REQUIRES_COLUMN_PRESENCE: u32 = 2;

/// Layout flag: the payload carries a row null segment.
pub const REQUIRES_COLUMN_NULL: u32 = 4;

/// Segment kinds, in ascending emission order.
#[derive(Debug, Clone, Copy, PartialEq, Eq, Hash, Structural)]
pub enum SegmentKind {
    /// Store metadata (table/column descriptors).
    Metadata,
    /// String dictionary offset table.
    StringOffsets,
    /// String dictionary byte pool.
    StringBytes,
    /// Per-node-table directory entries.
    NodeTableDirectory,
    /// Per-rel-table directory entries.
    RelTableDirectory,
    /// Node-to-relationship adjacency directory.
    NodeRelationshipDirectory,
    /// Per-column directory entries.
    ColumnDirectory,
    /// Per-column block index.
    ColumnBlockIndex,
    /// Column body payloads.
    ColumnBodies,
    /// Forward CSR row offsets.
    ForwardCsrOffsets,
    /// Forward CSR edge targets.
    ForwardCsrTargets,
    /// Reverse CSR row offsets.
    ReverseCsrOffsets,
    /// Reverse CSR edge targets.
    ReverseCsrTargets,
    /// Forward edge position array.
    ForwardPositions,
    /// Node ID lookup index.
    NodeIdLookup,
    /// Edge ID lookup index.
    EdgeIdLookup,
    /// Node original-ID mapping.
    NodeOriginalIds,
    /// Edge original-ID mapping.
    EdgeOriginalIds,
    /// Table-level zone maps.
    TableZoneMaps,
    /// Per-block zone maps.
    BlockZoneMaps,
    /// Dictionary code index.
    DictionaryCodeIndex,
    /// Logical label memberships.
    NodeLabelMembership,
    /// Rows that carry a column's property.
    ColumnRowPresence,
    /// Rows whose property is null.
    ColumnRowNull,
}

/// The number of a kind on the wire.
pub open spec fn kind_code(k: SegmentKind) -> u16 {
    match k {
        SegmentKind::Metadata => 0,
        SegmentKind::StringOffsets => 1,
        SegmentKind::StringBytes => 2,
        SegmentKind::NodeTableDirectory => 3,
        SegmentKind::RelTableDirectory => 4,
        SegmentKind::NodeRelationshipDirectory => 5,
        SegmentKind::ColumnDirectory => 6,
        SegmentKind::ColumnBlockIndex => 7,
        SegmentKind::ColumnBodies => 8,
        SegmentKind::ForwardCsrOffsets => 9,
        SegmentKind::ForwardCsrTargets => 10,
        SegmentKind::ReverseCsrOffsets => 11,
        SegmentKind::ReverseCsrTargets => 12,
        SegmentKind::ForwardPositions => 13,
        SegmentKind::NodeIdLookup => 14,
        SegmentKind::EdgeIdLookup => 15,
        SegmentKind::NodeOriginalIds => 16,
        SegmentKind::EdgeOriginalIds => 17,
        SegmentKind::TableZoneMaps => 18,
        SegmentKind::BlockZoneMaps => 19,
        SegmentKind::DictionaryCodeIndex => 20,
        SegmentKind::NodeLabelMembership => 21,
        SegmentKind::ColumnRowPresence => 22,
        SegmentKind::ColumnRowNull => 23,
    }
}

/// One past the highest kind number.
pub open spec fn kind_count() -> u16 {
    24
}

/// The kind with a given number.
pub open spec fn kind_of_code(v: u16) -> SegmentKind {
    choose|k: SegmentKind| kind_code(k) == v
}

impl SegmentKind {
    /// Parses a kind number, failing closed on unknown values.
    pub fn from_u16(v: u16) -> (r: Result<Self, FormatError>)
        ensures
            r is Ok <==> v < kind_count(),
            r matches Ok(k) ==> kind_code(k) == v && k == kind_of_code(v),
            r matches Err(e) ==> e == FormatError::UnknownKind(v),
    {
        let k = match v {
            0 => SegmentKind::Metadata,
            1 => SegmentKind::StringOffsets,
            2 => SegmentKind::StringBytes,
            3 => SegmentKind::NodeTableDirectory,
            4 => SegmentKind::RelTableDirectory,
            5 => SegmentKind::NodeRelationshipDirectory,
            6 => SegmentKind::ColumnDirectory,
            7 => SegmentKind::ColumnBlockIndex,
            8 => SegmentKind::ColumnBodies,
            9 => SegmentKind::ForwardCsrOffsets,
            10 => SegmentKind::ForwardCsrTargets,
            11 => SegmentKind::ReverseCsrOffsets,
            12 => SegmentKind::ReverseCsrTargets,
            13 => SegmentKind::ForwardPositions,
            14 => SegmentKind::NodeIdLookup,
            15 => SegmentKind::EdgeIdLookup,
            16 => SegmentKind::NodeOriginalIds,
            17 => SegmentKind::EdgeOriginalIds,
            18 => SegmentKind::TableZoneMaps,
            19 => SegmentKind::BlockZoneMaps,
            20 => SegmentKind::DictionaryCodeIndex,
            21 => SegmentKind::NodeLabelMembership,
            22 => SegmentKind::ColumnRowPresence,
            23 => SegmentKind::ColumnRowNull,
            _ => {
                return Err(FormatError::UnknownKind(v));
            },
        };
        proof {
            lemma_kind_code(k);
        }
        Ok(k)
    }

    /// Wire number.
    pub fn as_u16(self) -> (r: u16)
        ensures
            r == kind_code(self),
    {
        match self {
            SegmentKind::Metadata => 0,
            SegmentKind::StringOffsets => 1,
            SegmentKind::StringBytes => 2,
            SegmentKind::NodeTableDirectory => 3,
            SegmentKind::RelTableDirectory => 4,
            SegmentKind::NodeRelationshipDirectory => 5,
            SegmentKind::ColumnDirectory => 6,
            SegmentKind::ColumnBlockIndex => 7,
            SegmentKind::ColumnBodies => 8,
            SegmentKind::ForwardCsrOffsets => 9,
            SegmentKind::ForwardCsrTargets => 10,
            SegmentKind::ReverseCsrOffsets => 11,
            SegmentKind::ReverseCsrTargets => 12,
            SegmentKind::ForwardPositions => 13,
            SegmentKind::NodeIdLookup => 14,
            SegmentKind::EdgeIdLookup => 15,
            SegmentKind::NodeOriginalIds => 16,
            SegmentKind::EdgeOriginalIds => 17,
            SegmentKind::TableZoneMaps => 18,
            SegmentKind::BlockZoneMaps => 19,
            SegmentKind::DictionaryCodeIndex => 20,
            SegmentKind::NodeLabelMembership => 21,
            SegmentKind::ColumnRowPresence => 22,
            SegmentKind::ColumnRowNull => 23,
        }
    }
}

/// The number of a kind leads back to the kind.
pub proof fn lemma_kind_code(k: SegmentKind)
    ensures
        kind_code(k) < kind_count(),
        kind_of_code(kind_code(k)) == k,
{
    let c = kind_of_code(kind_code(k));
    assert(kind_code(c) == kind_code(k));
}

/// One checked directory entry.
#[derive(Debug, Clone, Copy, PartialEq, Eq, Structural)]
pub struct SegmentEntry {
    /// Segment kind.
    pub kind: SegmentKind,
    /// Per-kind encoding version.
    pub encoding_version: u16,
    /// Flags (bit 0 = required).
    pub flags: u16,
    /// Required alignment, a power of two.
    pub alignment: u16,
    /// Payload-relative byte offset.
    pub offset: u64,
    /// Byte length of the segment.
    pub length: u64,
    /// Fixed element width, or 0 for variable.
    pub element_width: u32,
    /// Element count for fixed-width segments.
    pub element_count: u32,
    /// CRC-32 of the segment bytes.
    pub crc32: u32,
}

impl SegmentEntry {
    /// True when the required flag (bit 0) is set.
    pub fn is_required(&self) -> (r: bool)
        ensures
            r == (self.flags % 2 == 1),
    {
        self.flags % 2 == 1
    }

    /// Byte end, exclusive; `None` where it does not fit.
    pub fn end(&self) -> (r: Option<u64>)
        ensures
            r == (if self.offset + self.length <= u64::MAX {
                Some((self.offset + self.length) as u64)
            } else {
                None
            }),
    {
        self.offset.checked_add(self.length)
    }
}

/// Parsed header fields.
#[derive(Debug, Clone, Copy, PartialEq, Eq, Structural)]
pub struct V5Header {
    /// Header flags (bit 0 = preserves original IDs).
    pub flags: u8,
    /// Number of directory entries.
    pub segment_count: u16,
    /// Which companion segments the payload carries.
    pub layout_flags: u32,
    /// Directory byte offset.
    pub directory_offset: u64,
    /// Directory byte length.
    pub directory_length: u64,
    /// First segment data offset, 8-byte aligned.
    pub data_offset: u64,
    /// Logical node count.
    pub logical_node_count: u64,
    /// Logical edge count.
    pub logical_edge_count: u64,
    /// CRC-32 of the directory bytes.
    pub directory_crc32: u32,
}

impl V5Header {
    /// True when original IDs are preserved (flags bit 0).
    pub fn preserves_ids(&self) -> (r: bool)
        ensures
            r == (self.flags % 2 == 1),
    {
        self.flags % 2 == 1
    }
}

/// The four magic bytes.
pub open spec fn magic() -> Seq<u8> {
    seq![71u8, 67u8, 83u8, 84u8]
}

/// The header fields that a payload's first bytes spell.
pub open spec fn header_of(d: Seq<u8>) -> V5Header {
    V5Header {
        flags: d[5],
        segment_count: wire::u16_at(d, 8),
        layout_flags: wire::u32_at(d, 12),
        directory_offset: wire::u64_at(d, 16),
        directory_length: wire::u64_at(d, 24),
        data_offset: wire::u64_at(d, 32),
        logical_node_count: wire::u64_at(d, 40),
        logical_edge_count: wire::u64_at(d, 48),
        directory_crc32: wire::u32_at(d, 56),
    }
}

/// The first thing that is wrong with a payload's header.
pub open spec fn header_fault(d: Seq<u8>) -> Option<FormatError> {
    let h = header_of(d);
    let expected = h.segment_count * DIRECTORY_ENTRY_LEN;
    if d.len() < HEADER_LEN {
        Some(FormatError::TruncatedHeader)
    } else if d.subrange(0, 4) != magic() {
        Some(FormatError::BadMagic)
    } else if d[4] != FORMAT_VERSION_V5 {
        Some(FormatError::UnsupportedVersion(d[4]))
    } else if wire::u16_at(d, 6) != HEADER_LEN {
        Some(FormatError::HeaderLength(wire::u16_at(d, 6)))
    } else if wire::u16_at(d, 10) != DIRECTORY_ENTRY_LEN {
        Some(FormatError::DirectoryEntryLength(wire::u16_at(d, 10)))
    } else if h.layout_flags > 7 {
        Some(FormatError::LayoutFlags(h.layout_flags))
    } else if h.directory_offset != HEADER_LEN {
        Some(FormatError::DirectoryOffset(h.directory_offset))
    } else if wire::u32_at(d, 60) != 0 {
        Some(FormatError::HeaderReserved(wire::u32_at(d, 60)))
    } else if h.directory_length != expected {
        Some(FormatError::DirectoryLength { found: h.directory_length, expected: expected as u64 })
    } else if h.data_offset < HEADER_LEN + h.directory_length {
        Some(FormatError::DataOverlapsDirectory)
    } else if h.data_offset % 8 != 0 {
        Some(FormatError::DataMisaligned(h.data_offset))
    } else {
        None
    }
}

/// Parses and validates the header.
pub fn parse_v5_header(data: &[u8]) -> (r: Result<V5Header, FormatError>)
    ensures
        r is Ok <==> header_fault(data@) is None,
        r matches Ok(h) ==> h == header_of(data@),
        r matches Err(e) ==> header_fault(data@) == Some(e),
{
    if data.len() < HEADER_LEN {
        return Err(FormatError::TruncatedHeader);
    }
    let ghost d = data@;
    if data[0] != 71 || data[1] != 67 || data[2] != 83 || data[3] != 84 {
        proof {
            if d.subrange(0, 4) == magic() {
                let s = d.subrange(0, 4);
                assert(d[0] == s[0] && d[1] == s[1] && d[2] == s[2] && d[3] == s[3]);
            }
        }
        return Err(FormatError::BadMagic);
    }
    assert(d.subrange(0, 4) =~= magic());
    if data[4] != FORMAT_VERSION_V5 {
        return Err(FormatError::UnsupportedVersion(data[4]));
    }
    let header_length: u16 = load_u16(data, 6);
    if header_length as usize != HEADER_LEN {
        return Err(FormatError::HeaderLength(header_length));
    }
    let segment_count: u16 = load_u16(data, 8);
    let entry_length: u16 = load_u16(data, 10);
    if entry_length as usize != DIRECTORY_ENTRY_LEN {
        return Err(FormatError::DirectoryEntryLength(entry_length));
    }
    let layout_flags: u32 = load_u32(data, 12);
    if layout_flags > 7 {
        return Err(FormatError::LayoutFlags(layout_flags));
    }
    let directory_offset: u64 = load_u64(data, 16);
    if directory_offset != HEADER_LEN as u64 {
        return Err(FormatError::DirectoryOffset(directory_offset));
    }
    let directory_length: u64 = load_u64(data, 24);
    let data_offset: u64 = load_u64(data, 32);
    let logical_node_count: u64 = load_u64(data, 40);
    let logical_edge_count: u64 = load_u64(data, 48);
    let directory_crc32: u32 = load_u32(data, 56);
    let reserved: u32 = load_u32(data, 60);
    if reserved != 0 {
        return Err(FormatError::HeaderReserved(reserved));
    }
    let expected: u64 = segment_count as u64 * DIRECTORY_ENTRY_LEN as u64;
    if directory_length != expected {
        return Err(FormatError::DirectoryLength { found: directory_length, expected });
    }
    if data_offset < directory_offset + directory_length {
        return Err(FormatError::DataOverlapsDirectory);
    }
    if data_offset % 8 != 0 {
        return Err(FormatError::DataMisaligned(data_offset));
    }
    Ok(
        V5Header {
            flags: data[5],
            segment_count,
            layout_flags,
            directory_offset,
            directory_length,
            data_offset,
            logical_node_count,
            logical_edge_count,
            directory_crc32,
        },
    )
}

/// The alignment that an entry asks for; none counts as one.
pub open spec fn alignment_of(e: SegmentEntry) -> u16 {
    if e.alignment == 0 {
        1
    } else {
        e.alignment
    }
}

/// The first thing that is wrong with an entry's range.
pub open spec fn range_fault(
    e: SegmentEntry,
    payload_len: u64,
    data_offset: u64,
) -> Option<FormatError> {
    let end = e.offset + e.length;
    let a = alignment_of(e);
    let need = e.element_count * e.element_width;
    if e.offset < data_offset {
        Some(FormatError::SegmentBeforeData { kind: e.kind, offset: e.offset, data_offset })
    } else if end > u64::MAX {
        Some(FormatError::SegmentEndOverflow(e.kind))
    } else if end > payload_len {
        Some(
            FormatError::SegmentBeyondPayload {
                kind: e.kind,
                offset: e.offset,
                end: end as u64,
                payload: payload_len,
            },
        )
    } else if !(a == 1 || a == 2 || a == 4 || a == 8 || a == 16) {
        Some(FormatError::SegmentAlignment { kind: e.kind, alignment: a })
    } else if e.offset % (a as u64) != 0 {
        Some(FormatError::SegmentMisaligned { kind: e.kind, offset: e.offset, alignment: a })
    } else if e.element_width > 0 && need > e.length {
        Some(FormatError::SegmentElements { kind: e.kind, need: need as u64, length: e.length })
    } else {
        None
    }
}

/// Validates a segment range against the payload without its trailing
/// checksum.
pub fn validate_segment_range(
    entry: &SegmentEntry,
    payload_len_without_crc: u64,
    data_offset: u64,
) -> (r: Result<(), FormatError>)
    ensures
        r is Ok <==> range_fault(*entry, payload_len_without_crc, data_offset) is None,
        r matches Err(e) ==> range_fault(*entry, payload_len_without_crc, data_offset) == Some(e),
{
    if entry.offset < data_offset {
        return Err(
            FormatError::SegmentBeforeData { kind: entry.kind, offset: entry.offset, data_offset },
        );
    }
    let end: u64 = match entry.end() {
        Some(end) => end,
        None => {
            return Err(FormatError::SegmentEndOverflow(entry.kind));
        },
    };
    if end > payload_len_without_crc {
        return Err(
            FormatError::SegmentBeyondPayload {
                kind: entry.kind,
                offset: entry.offset,
                end,
                payload: payload_len_without_crc,
            },
        );
    }
    let a: u16 = if entry.alignment == 0 {
        1
    } else {
        entry.alignment
    };
    if !(a == 1 || a == 2 || a == 4 || a == 8 || a == 16) {
        return Err(FormatError::SegmentAlignment { kind: entry.kind, alignment: a });
    }
    if entry.offset % (a as u64) != 0 {
        return Err(
            FormatError::SegmentMisaligned { kind: entry.kind, offset: entry.offset, alignment: a },
        );
    }
    if entry.element_width > 0 {
        assert(entry.element_count * entry.element_width <= u64::MAX) by (nonlinear_arith)
            requires
                entry.element_count <= u32::MAX,
                entry.element_width <= u32::MAX,
        ;
        let need: u64 = entry.element_count as u64 * entry.element_width as u64;
        if need > entry.length {
            return Err(
                FormatError::SegmentElements { kind: entry.kind, need, length: entry.length },
            );
        }
    }
    Ok(())
}

/// A parsed directory: header, entries in ascending kind order, and the
/// directory bytes themselves.
#[derive(Debug)]
pub struct SegmentDirectory {
    /// Header fields.
    pub header: V5Header,
    /// Entries in ascending kind order.
    pub entries: Vec<SegmentEntry>,
    /// The directory bytes.
    pub directory_bytes: Bytes,
}

/// The first entry of a kind.
pub open spec fn find_kind(entries: Seq<SegmentEntry>, kind: SegmentKind) -> Option<SegmentEntry>
    decreases entries.len(),
{
    if entries.len() == 0 {
        None
    } else {
        match find_kind(entries.drop_last(), kind) {
            Some(e) => Some(e),
            None => if entries.last().kind == kind {
                Some(entries.last())
            } else {
                None
            },
        }
    }
}

/// An entry found among the first ones is the entry found.
pub proof fn lemma_find_kind_stays(entries: Seq<SegmentEntry>, kind: SegmentKind, i: int)
    requires
        0 <= i <= entries.len(),
        find_kind(entries.take(i), kind) is Some,
    ensures
        find_kind(entries, kind) == find_kind(entries.take(i), kind),
    decreases entries.len(),
{
    if i < entries.len() {
        assert(entries.drop_last().take(i) =~= entries.take(i));
        lemma_find_kind_stays(entries.drop_last(), kind, i);
    } else {
        assert(entries.take(i) =~= entries);
    }
}

impl SegmentDirectory {
    /// The first entry of `kind`.
    pub fn get(&self, kind: SegmentKind) -> (r: Option<&SegmentEntry>)
        ensures
            r.is_some() == find_kind(self.entries@, kind).is_some(),
            r.is_some() ==> *r->0 == find_kind(self.entries@, kind)->0,
    {
        let mut i: usize = 0;
        while i < self.entries.len()
            invariant
                i <= self.entries@.len(),
                find_kind(self.entries@.take(i as int), kind) is None,
            decreases self.entries@.len() - i,
        {
            assert(self.entries@.take(i + 1).drop_last() =~= self.entries@.take(i as int));
            if self.entries[i].kind == kind {
                proof {
                    lemma_find_kind_stays(self.entries@, kind, i + 1);
                }
                return Some(&self.entries[i]);
            }
            i = i + 1;
        }
        assert(self.entries@.take(i as int) =~= self.entries@);
        None
    }

    /// The first entry of `kind`, or an error when there is none.
    pub fn require(&self, kind: SegmentKind) -> (r: Result<&SegmentEntry, FormatError>)
        ensures
            r is Ok <==> find_kind(self.entries@, kind) is Some,
            r matches Ok(e) ==> *e == find_kind(self.entries@, kind)->0,
            r matches Err(e) ==> e == FormatError::MissingSegment(kind),
    {
        match self.get(kind) {
            Some(e) => Ok(e),
            None => Err(FormatError::MissingSegment(kind)),
        }
    }
}

/// The number of the kind of entry `i`, as it stands in the directory.
pub open spec fn entry_kind_at(dir: Seq<u8>, i: int) -> u16 {
    wire::u16_at(dir, i * 48)
}

/// The fields of entry `i`, as they stand in the directory.
pub open spec fn entry_at(dir: Seq<u8>, i: int) -> SegmentEntry {
    SegmentEntry {
        kind: kind_of_code(entry_kind_at(dir, i)),
        encoding_version: wire::u16_at(dir, i * 48 + 2),
        flags: wire::u16_at(dir, i * 48 + 4),
        alignment: wire::u16_at(dir, i * 48 + 6),
        offset: wire::u64_at(dir, i * 48 + 8),
        length: wire::u64_at(dir, i * 48 + 16),
        element_width: wire::u32_at(dir, i * 48 + 24),
        element_count: wire::u32_at(dir, i * 48 + 28),
        crc32: wire::u32_at(dir, i * 48 + 32),
    }
}

/// Where the data before entry `i` ends.
pub open spec fn prev_end_at(dir: Seq<u8>, i: int, data_offset: u64) -> int {
    if i == 0 {
        data_offset as int
    } else {
        entry_at(dir, i - 1).offset + entry_at(dir, i - 1).length
    }
}

/// The first thing that is wrong with entry `i`, those before it being in
/// order.
pub open spec fn entry_fault(
    dir: Seq<u8>,
    i: int,
    payload_len: u64,
    data_offset: u64,
) -> Option<FormatError> {
    let code = entry_kind_at(dir, i);
    let prev = entry_kind_at(dir, i - 1);
    let e = entry_at(dir, i);
    let prev_end = prev_end_at(dir, i, data_offset);
    if code >= kind_count() {
        Some(FormatError::UnknownKind(code))
    } else if i > 0 && code < prev {
        Some(FormatError::KindOrder { code, prev })
    } else if i > 0 && code == prev {
        Some(FormatError::DuplicateKind(code))
    } else if wire::u32_at(dir, i * 48 + 36) != 0 || wire::u64_at(dir, i * 48 + 40) != 0 {
        Some(FormatError::EntryReserved(e.kind))
    } else if range_fault(e, payload_len, data_offset) is Some {
        range_fault(e, payload_len, data_offset)
    } else if e.offset < prev_end {
        Some(
            FormatError::SegmentOverlap {
                kind: e.kind,
                offset: e.offset,
                prev_end: prev_end as u64,
            },
        )
    } else {
        None
    }
}

/// The checks of all entries, by index.
pub open spec fn entry_checks(dir: Seq<u8>, payload_len: u64, data_offset: u64) -> spec_fn(
    int,
) -> Option<FormatError> {
    |i: int| entry_fault(dir, i, payload_len, data_offset)
}

/// The directory bytes of a payload with a sound header.
pub open spec fn directory_bytes_of(d: Seq<u8>) -> Seq<u8> {
    d.subrange(64, 64 + header_of(d).segment_count * 48)
}

/// The entries that a payload's directory spells.
pub open spec fn entries_of(d: Seq<u8>) -> Seq<SegmentEntry> {
    Seq::new(header_of(d).segment_count as nat, |i: int| entry_at(directory_bytes_of(d), i))
}

/// The first thing that is wrong with a payload's header or directory.
pub open spec fn directory_fault(d: Seq<u8>, payload_len: u64) -> Option<FormatError> {
    let h = header_of(d);
    let dir = directory_bytes_of(d);
    if header_fault(d) is Some {
        header_fault(d)
    } else if 64 + h.segment_count * 48 > d.len() {
        Some(FormatError::TruncatedDirectory)
    } else if outside::crc32_of(dir) != h.directory_crc32 {
        Some(FormatError::DirectoryCrc { stored: h.directory_crc32, computed: outside::crc32_of(dir) })
    } else {
        faults::first_fault(h.segment_count as nat, entry_checks(dir, payload_len, h.data_offset))
    }
}

/// Parses the header and the directory and validates every entry.
pub fn parse_segment_directory(data: &Bytes, payload_len_without_crc: usize) -> (r: Result<
    SegmentDirectory,
    FormatError,
>)
    ensures
        r is Ok <==> directory_fault(outside::bytes_content(*data), payload_len_without_crc as u64) is None,
        r matches Ok(s) ==> s.header == header_of(outside::bytes_content(*data)) && s.entries@
            == entries_of(outside::bytes_content(*data)) && outside::bytes_content(s.directory_bytes)
            == directory_bytes_of(outside::bytes_content(*data)),
        r matches Err(e) ==> directory_fault(outside::bytes_content(*data), payload_len_without_crc as u64)
            == Some(e),
{
    let all: &[u8] = bytes_as_slice(data);
    let ghost d = all@;
    let header = parse_v5_header(all)?;
    let count: usize = header.segment_count as usize;
    let dir_len: usize = count * 48;
    if dir_len > all.len() - 64 {
        return Err(FormatError::TruncatedDirectory);
    }
    let directory_bytes = bytes_slice(data, 64, 64 + dir_len);
    let dir: &[u8] = bytes_as_slice(&directory_bytes);
    let ghost ds = dir@;
    assert(ds == directory_bytes_of(d));
    let computed: u32 = crc32(dir);
    if computed != header.directory_crc32 {
        return Err(FormatError::DirectoryCrc { stored: header.directory_crc32, computed });
    }
    let plen: u64 = payload_len_without_crc as u64;
    let ghost checks = entry_checks(ds, plen, header.data_offset);
    let mut entries: Vec<SegmentEntry> = Vec::with_capacity(count);
    let mut prev_kind: u16 = 0;
    let mut prev_end: u64 = header.data_offset;
    let mut i: usize = 0;
    while i < count
        invariant
            i <= count,
            ds == dir@,
            ds.len() == count * 48,
            count <= 65535,
            checks == entry_checks(ds, plen, header.data_offset),
            faults::first_fault(i as nat, checks) is None,
            entries@ == Seq::new(i as nat, |k: int| entry_at(ds, k)),
            i > 0 ==> prev_kind == entry_kind_at(ds, i - 1),
            prev_end == prev_end_at(ds, i as int, header.data_offset),
            count == header.segment_count,
            directory_fault(d, plen) == faults::first_fault(count as nat, checks),
            d == outside::bytes_content(*data),
            plen == payload_len_without_crc as u64,
        decreases count - i,
    {
        let base: usize = i * 48;
        proof {
            assert(checks(i as int) == entry_fault(ds, i as int, plen, header.data_offset));
            if checks(i as int) is Some {
                faults::lemma_first_fault_stays((i + 1) as nat, count as nat, checks);
            }
        }
        let kind_raw: u16 = load_u16(dir, base);
        let kind = SegmentKind::from_u16(kind_raw)?;
        if i > 0 && kind_raw < prev_kind {
            return Err(FormatError::KindOrder { code: kind_raw, prev: prev_kind });
        }
        if i > 0 && kind_raw == prev_kind {
            return Err(FormatError::DuplicateKind(kind_raw));
        }
        let entry = SegmentEntry {
            kind,
            encoding_version: load_u16(dir, base + 2),
            flags: load_u16(dir, base + 4),
            alignment: load_u16(dir, base + 6),
            offset: load_u64(dir, base + 8),
            length: load_u64(dir, base + 16),
            element_width: load_u32(dir, base + 24),
            element_count: load_u32(dir, base + 28),
            crc32: load_u32(dir, base + 32),
        };
        assert(entry == entry_at(ds, i as int));
        let reserved_a: u32 = load_u32(dir, base + 36);
        let reserved_b: u64 = load_u64(dir, base + 40);
        if reserved_a != 0 || reserved_b != 0 {
            return Err(FormatError::EntryReserved(kind));
        }
        validate_segment_range(&entry, plen, header.data_offset)?;
        if entry.offset < prev_end {
            return Err(FormatError::SegmentOverlap { kind, offset: entry.offset, prev_end });
        }
        prev_end = entry.offset + entry.length;
        prev_kind = kind_raw;
        entries.push(entry);
        i = i + 1;
        assert(entries@ =~= Seq::new(i as nat, |k: int| entry_at(ds, k)));
    }
    assert(entries@ =~= entries_of(d));
    Ok(SegmentDirectory { header, entries, directory_bytes })
}

/// The first thing that keeps a segment from being sliced.
pub open spec fn slice_fault(d: Seq<u8>, e: SegmentEntry) -> Option<FormatError> {
    let body = d.subrange(e.offset as int, e.offset + e.length);
    if e.offset + e.length > d.len() {
        Some(FormatError::SegmentOutOfBounds(e.kind))
    } else if outside::crc32_of(body) != e.crc32 {
        Some(FormatError::SegmentCrc { kind: e.kind, stored: e.crc32, computed: outside::crc32_of(body) })
    } else {
        None
    }
}

/// A segment's bytes, after checking them against their checksum.
pub fn slice_segment_checked(data: &Bytes, entry: &SegmentEntry) -> (r: Result<Bytes, FormatError>)
    ensures
        r is Ok <==> slice_fault(outside::bytes_content(*data), *entry) is None,
        r matches Ok(b) ==> outside::bytes_content(b) == outside::bytes_content(*data).subrange(
            entry.offset as int,
            entry.offset + entry.length,
        ),
        r matches Err(e) ==> slice_fault(outside::bytes_content(*data), *entry) == Some(e),
{
    let all: &[u8] = bytes_as_slice(data);
    let n: u64 = all.len() as u64;
    if entry.offset > n || entry.length > n - entry.offset {
        return Err(FormatError::SegmentOutOfBounds(entry.kind));
    }
    let start: usize = entry.offset as usize;
    let end: usize = start + entry.length as usize;
    let body = bytes_slice(data, start, end);
    let computed: u32 = crc32(bytes_as_slice(&body));
    if computed != entry.crc32 {
        return Err(
            FormatError::SegmentCrc { kind: entry.kind, stored: entry.crc32, computed },
        );
    }
    Ok(body)
}

} // verus!
