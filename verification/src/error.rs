//! Errors of the payload formats.

use crate::directory::SegmentKind;
use vstd::prelude::*;

verus! {

/// A count that a payload stores in a field of limited width.
#[derive(Debug, Clone, Copy, PartialEq, Eq, Structural)]
pub enum WireField {
    /// Node tables.
    NodeTables,
    /// Relationship tables.
    RelTables,
    /// Rows of a table or of a column.
    Rows,
    /// Edges of a table.
    Edges,
    /// Columns of a table or of all tables.
    Columns,
    /// Bytes of all column bodies.
    ColumnBytes,
    /// Texts of the dictionary.
    Texts,
    /// Bytes of one text.
    TextBytes,
}

/// What is wrong with a payload, or with the values that should fill one.
#[derive(Debug)]
#[allow(inconsistent_fields)]
pub enum FormatError {
    /// Fewer bytes than a payload header.
    TruncatedHeader,
    /// The first four bytes are not the payload magic.
    BadMagic,
    /// A payload version that the segment layout does not cover.
    UnsupportedVersion(u8),
    /// The header names a length of its own other than the fixed one.
    HeaderLength(u16),
    /// The header names a directory entry length other than the fixed one.
    DirectoryEntryLength(u16),
    /// The layout flags hold a bit that no companion segment owns.
    LayoutFlags(u32),
    /// The directory does not start behind the header.
    DirectoryOffset(u64),
    /// The reserved header word is not zero.
    HeaderReserved(u32),
    /// The directory length does not fit the segment count.
    DirectoryLength {
        /// Length that the header gives.
        found: u64,
        /// Length that the segment count asks for.
        expected: u64,
    },
    /// The data area starts inside the directory.
    DataOverlapsDirectory,
    /// The data area is not aligned.
    DataMisaligned(u64),
    /// The directory reaches beyond the payload.
    TruncatedDirectory,
    /// The directory bytes do not match their checksum.
    DirectoryCrc {
        /// Checksum in the header.
        stored: u32,
        /// Checksum of the bytes.
        computed: u32,
    },
    /// A segment kind that is not known.
    UnknownKind(u16),
    /// A segment kind below the one before it.
    KindOrder {
        /// This kind.
        code: u16,
        /// The kind before it.
        prev: u16,
    },
    /// A segment kind twice.
    DuplicateKind(u16),
    /// Reserved directory fields are not zero.
    EntryReserved(SegmentKind),
    /// A segment before the data area.
    SegmentBeforeData {
        /// Segment.
        kind: SegmentKind,
        /// Where it starts.
        offset: u64,
        /// Where data starts.
        data_offset: u64,
    },
    /// Offset and length of a segment overflow.
    SegmentEndOverflow(SegmentKind),
    /// A segment beyond the payload.
    SegmentBeyondPayload {
        /// Segment.
        kind: SegmentKind,
        /// Where it starts.
        offset: u64,
        /// Where it ends.
        end: u64,
        /// Payload length.
        payload: u64,
    },
    /// A segment alignment that is no small power of two.
    SegmentAlignment {
        /// Segment.
        kind: SegmentKind,
        /// Its alignment.
        alignment: u16,
    },
    /// A segment off its alignment.
    SegmentMisaligned {
        /// Segment.
        kind: SegmentKind,
        /// Where it starts.
        offset: u64,
        /// Its alignment.
        alignment: u16,
    },
    /// More elements than the segment holds.
    SegmentElements {
        /// Segment.
        kind: SegmentKind,
        /// Bytes that the elements need.
        need: u64,
        /// Bytes that the segment has.
        length: u64,
    },
    /// A segment that starts before the previous one ends.
    SegmentOverlap {
        /// Segment.
        kind: SegmentKind,
        /// Where it starts.
        offset: u64,
        /// Where the previous one ends.
        prev_end: u64,
    },
    /// A segment that must be there is not.
    MissingSegment(SegmentKind),
    /// A segment range outside the buffer.
    SegmentOutOfBounds(SegmentKind),
    /// The segment bytes do not match their checksum.
    SegmentCrc {
        /// Segment.
        kind: SegmentKind,
        /// Checksum in the directory.
        stored: u32,
        /// Checksum of the bytes.
        computed: u32,
    },
    /// A mapped array whose length is no multiple of its element width.
    ViewLength {
        /// Element width in bytes.
        width: usize,
    },
    /// An element range outside a mapped array.
    ViewRange,
    /// ID lookup records do not fill the segment.
    LookupLength {
        /// Which lookup.
        kind: SegmentKind,
        /// Segment length.
        found: usize,
    },
    /// Reserved fields of an ID lookup record are not zero.
    LookupReserved {
        /// Which lookup.
        kind: SegmentKind,
        /// Record index.
        record: usize,
    },
    /// ID lookup records are not sorted.
    LookupOrder(SegmentKind),
    /// More label memberships than the header can count.
    MembershipCount(usize),
    /// Label membership records do not ascend strictly.
    MembershipUnsorted,
    /// A label membership segment without room for its header.
    MembershipHeader(usize),
    /// A label membership segment whose body does not fit its record count.
    MembershipBody {
        /// Body length.
        body: usize,
        /// Record count in the header.
        count: usize,
    },
    /// A label membership record that does not follow the one before it.
    MembershipOrder(usize),
    /// A bitmap record whose bits do not fit its row count.
    BitmapRows {
        /// Row count of the record.
        rows: u32,
        /// Bits handed in.
        bits: usize,
    },
    /// A bitmap record header cut short.
    BitmapHeader {
        /// Which companion.
        kind: SegmentKind,
        /// Where the record starts.
        at: usize,
    },
    /// Bitmap records whose columns do not ascend strictly.
    BitmapOrder {
        /// Which companion.
        kind: SegmentKind,
        /// This column.
        column: u32,
        /// The column before it.
        prev_column: u32,
    },
    /// A bitmap cut short.
    BitmapBody {
        /// Which companion.
        kind: SegmentKind,
        /// Its column.
        column: u32,
    },
    /// A string offset table without its sentinel.
    DictSentinel,
    /// String offsets that descend.
    DictOrder {
        /// Entry that descends.
        index: usize,
        /// Its offset.
        offset: u64,
        /// The offset before it.
        prev: u64,
    },
    /// A string offset beyond the string bytes.
    DictRange {
        /// Entry.
        index: usize,
        /// Its offset.
        offset: u64,
        /// Length of the string bytes.
        blob: usize,
    },
    /// A dictionary string that is not UTF-8.
    DictUtf8(usize),
    /// A code index that does not consist of whole records.
    CodeIndexLength(usize),
    /// A code index with a record count other than the dictionary's.
    CodeIndexCount {
        /// Records.
        count: usize,
        /// Dictionary strings.
        dict: usize,
    },
    /// Offset and length of a code index record overflow.
    CodeIndexOverflow,
    /// A code index record beyond the string bytes.
    CodeIndexRange,
    /// A code index record with a code that the dictionary lacks.
    CodeIndexCode(u32),
    /// A code index record whose length is not that of its string.
    CodeIndexTextLen {
        /// Length in the record.
        length: u32,
        /// Length of the string.
        text: usize,
        /// Its code.
        code: u32,
    },
    /// A code index that is not sorted.
    CodeIndexOrder,
    /// More segments than a directory can count.
    TooManySegments(usize),
    /// The layout flags ask for a companion segment that is not there.
    MissingCompanion(SegmentKind),
    /// A zone map with more rows without a value than a record can count.
    ZoneNullCount,
    /// A zone map with more rows than a record can count.
    ZoneRowCount,
    /// A zone map text that has no code.
    ZoneText,
    /// A zone map bound of a kind that a record does not hold.
    ZoneValue,
    /// A zone map column that has no code.
    ZoneKey,
    /// More block zone maps than a record can number.
    ZoneBlockIndex,
    /// A zone map segment that does not consist of whole records.
    ZoneLength(usize),
    /// The reserved field of a zone map record is not zero.
    ZoneReserved(usize),
    /// The padding of a zone map record is not zero.
    ZonePad(usize),
    /// A zone map column code that the dictionary lacks.
    ZoneColumnCode(u32),
    /// A zone map text code that is no code at all.
    ZoneTextCode(u64),
    /// A zone map text code that the dictionary lacks.
    ZoneTextMissing(u32),
    /// A zone map value of an unknown type.
    ZoneTag(u8),
    /// A table zone map with a block number.
    TableZoneBlock(u32),
    /// A block zone map without a block number.
    BlockZoneSentinel,
    /// A zone map of a table that is not there.
    ZoneTable(u16),
    /// Block zone maps that do not number their blocks from zero.
    ZoneBlocks {
        /// Table, counted among its kind.
        table: usize,
        /// Block that should come next.
        expected: usize,
        /// Block that comes next.
        found: u32,
    },
    /// A count beyond the width of its field.
    WireLimit(WireField),
    /// A column of texts with a position that its texts lack.
    ColumnCode,
    /// A column of texts with a text that has no code.
    ColumnText,
    /// Fewer bytes than a payload with its checksum.
    PayloadTooShort,
    /// The payload bytes do not match their checksum.
    PayloadCrc {
        /// Checksum behind the payload.
        stored: u32,
        /// Checksum of the bytes.
        computed: u32,
    },
    /// Metadata cut short.
    MetadataTruncated,
    /// A name or key code in the metadata that the dictionary lacks.
    MetadataCode(u32),
    /// A table directory without a record for the table.
    TableRecordTruncated(SegmentKind),
    /// Reserved fields of a table record are not zero.
    TableRecordReserved(SegmentKind),
    /// A table record with another number than its place.
    TableRecordId {
        /// Which directory.
        kind: SegmentKind,
        /// Number in the record.
        id: u16,
        /// Place of the record.
        index: usize,
    },
    /// A node table record with another row count than the metadata.
    TableRowCount,
    /// A table record with more columns than the metadata.
    MetadataColumnMissing,
    /// A block index without a record for the column.
    BlockIndexTruncated,
    /// A column body beyond the bodies.
    ColumnBodyRange,
    /// A column body without bytes.
    ColumnBodyEmpty,
    /// A text column cut short.
    ColumnCodesTruncated,
    /// A relationship table whose source table is not there.
    SourceTableMissing(u16),
    /// A relationship table whose destination table is not there.
    DestinationTableMissing(u16),
    /// An adjacency range beyond its segment.
    CsrRange {
        /// First word.
        start: u64,
        /// Number of words.
        count: u64,
        /// Words in the segment.
        words: u64,
    },
    /// Offsets that do not ascend to the number of targets.
    CsrOffsets,
    /// Schema bytes beyond their budget.
    SchemaBudget {
        /// Estimated bytes.
        bytes: usize,
        /// Budget.
        budget: usize,
    },
}

/// The fixed part of the text of an error.
pub open spec fn format_message(e: FormatError) -> Seq<char> {
    match e {
        FormatError::TruncatedHeader => "truncated CompactStore v5 header"@,
        FormatError::BadMagic => "bad CompactStore magic"@,
        FormatError::UnsupportedVersion(_) => "unsupported CompactStore section version"@,
        FormatError::HeaderLength(_) => "v5 header_length must be the fixed one"@,
        FormatError::DirectoryEntryLength(_) => "v5 directory_entry_length must be the fixed one"@,
        FormatError::LayoutFlags(_) => "v5 layout_flags has unknown bits set"@,
        FormatError::DirectoryOffset(_) => "v5 directory_offset must be the header length"@,
        FormatError::HeaderReserved(_) => "v5 header reserved must be zero"@,
        FormatError::DirectoryLength { .. } => "v5 directory_length does not fit segment_count"@,
        FormatError::DataOverlapsDirectory => "v5 data_offset overlaps directory"@,
        FormatError::DataMisaligned(_) => "v5 data_offset is not 8-byte aligned"@,
        FormatError::TruncatedDirectory => "truncated v5 directory"@,
        FormatError::DirectoryCrc { .. } => "v5 directory CRC mismatch"@,
        FormatError::UnknownKind(_) => "unknown CompactStore v5 segment kind"@,
        FormatError::KindOrder { .. } => "v5 directory not in ascending kind order"@,
        FormatError::DuplicateKind(_) => "duplicate v5 segment kind"@,
        FormatError::EntryReserved(_) => "v5 segment reserved fields must be zero"@,
        FormatError::SegmentBeforeData { .. } => "segment offset before data_offset"@,
        FormatError::SegmentEndOverflow(_) => "segment offset+length overflow"@,
        FormatError::SegmentBeyondPayload { .. } => "segment range exceeds payload"@,
        FormatError::SegmentAlignment { .. } => "segment alignment must be a power of two up to 16"@,
        FormatError::SegmentMisaligned { .. } => "segment offset not aligned"@,
        FormatError::SegmentElements { .. } => "segment element_count x width exceeds length"@,
        FormatError::SegmentOverlap { .. } => "v5 segment overlaps previous range"@,
        FormatError::MissingSegment(_) => "required v5 segment missing"@,
        FormatError::SegmentOutOfBounds(_) => "segment out of bounds"@,
        FormatError::SegmentCrc { .. } => "segment CRC mismatch"@,
        FormatError::ViewLength { width } => if width == 4 {
            "U32View length is not a multiple of 4"@
        } else {
            "U64View length is not a multiple of 8"@
        },
        FormatError::ViewRange => "element range out of bounds"@,
        FormatError::LookupLength { .. } => "id lookup length is not a multiple of its record length"@,
        FormatError::LookupReserved { .. } => "id lookup record has non-zero reserved fields"@,
        FormatError::LookupOrder(_) => "id lookup records are not sorted ascending by id"@,
        FormatError::MembershipCount(_) => "label_membership_count exceeds u32::MAX"@,
        FormatError::MembershipUnsorted => "label membership records not strictly ascending"@,
        FormatError::MembershipHeader(_) => "label membership truncated header"@,
        FormatError::MembershipBody { .. } => "label membership body length does not fit record_count"@,
        FormatError::MembershipOrder(_) => "label membership records not strictly ascending"@,
        FormatError::BitmapRows { .. } => "presence/null bitmap row_count differs from bits"@,
        FormatError::BitmapHeader { .. } => "truncated record header"@,
        FormatError::BitmapOrder { .. } => "column indices not strictly ascending"@,
        FormatError::BitmapBody { .. } => "truncated bitmap"@,
        FormatError::DictSentinel => "StringOffsets must contain at least a sentinel"@,
        FormatError::DictOrder { .. } => "StringOffsets not monotonic"@,
        FormatError::DictRange { .. } => "StringOffsets exceeds StringBytes length"@,
        FormatError::DictUtf8(_) => "invalid UTF-8 in StringBytes"@,
        FormatError::CodeIndexLength(_) => "DictionaryCodeIndex length not a multiple of its record length"@,
        FormatError::CodeIndexCount { .. } => "DictionaryCodeIndex count differs from dictionary len"@,
        FormatError::CodeIndexOverflow => "code index range overflow"@,
        FormatError::CodeIndexRange => "code index string range exceeds StringBytes"@,
        FormatError::CodeIndexCode(_) => "code index code missing from dictionary"@,
        FormatError::CodeIndexTextLen { .. } => "code index len differs from dictionary string len"@,
        FormatError::CodeIndexOrder => "DictionaryCodeIndex not sorted by UTF-8 content"@,
        FormatError::TooManySegments(_) => "too many v5 segments"@,
        FormatError::MissingCompanion(_) => "companion segment missing"@,
        FormatError::ZoneNullCount => "zone map null_count exceeds its field"@,
        FormatError::ZoneRowCount => "zone map row_count exceeds its field"@,
        FormatError::ZoneText => "zone map string not interned"@,
        FormatError::ZoneValue => "zone map value of an unsupported type"@,
        FormatError::ZoneKey => "zone map key not interned"@,
        FormatError::ZoneBlockIndex => "block index overflow"@,
        FormatError::ZoneLength(_) => "zone map segment length not a multiple of its record length"@,
        FormatError::ZoneReserved(_) => "zone map reserved non-zero"@,
        FormatError::ZonePad(_) => "zone map pad non-zero"@,
        FormatError::ZoneColumnCode(_) => "zone map column code missing"@,
        FormatError::ZoneTextCode(_) => "zone map string code exceeds its field"@,
        FormatError::ZoneTextMissing(_) => "zone map string code missing from dictionary"@,
        FormatError::ZoneTag(_) => "unknown zone map value tag"@,
        FormatError::TableZoneBlock(_) => "TableZoneMaps record has non-sentinel block_index"@,
        FormatError::BlockZoneSentinel => "BlockZoneMaps record has table-level sentinel block_index"@,
        FormatError::ZoneTable(_) => "zone map table_id out of range"@,
        FormatError::ZoneBlocks { .. } => "BlockZoneMaps out of block order"@,
        FormatError::WireLimit(_) => "count exceeds its wire field"@,
        FormatError::ColumnCode => "column key not interned"@,
        FormatError::ColumnText => "column string not interned"@,
        FormatError::PayloadTooShort => "v5 payload too short"@,
        FormatError::PayloadCrc { .. } => "v5 payload CRC mismatch"@,
        FormatError::MetadataTruncated => "truncated v5 metadata"@,
        FormatError::MetadataCode(_) => "metadata string code missing from dictionary"@,
        FormatError::TableRecordTruncated(_) => "truncated table record"@,
        FormatError::TableRecordReserved(_) => "table record reserved fields must be zero"@,
        FormatError::TableRecordId { .. } => "table record id differs from its index"@,
        FormatError::TableRowCount => "table row count exceeds its field"@,
        FormatError::MetadataColumnMissing => "metadata column missing"@,
        FormatError::BlockIndexTruncated => "truncated block index"@,
        FormatError::ColumnBodyRange => "column body out of range"@,
        FormatError::ColumnBodyEmpty => "column body empty"@,
        FormatError::ColumnCodesTruncated => "truncated column codes"@,
        FormatError::SourceTableMissing(_) => "source table missing"@,
        FormatError::DestinationTableMissing(_) => "destination table missing"@,
        FormatError::CsrRange { .. } => "CSR range out of bounds"@,
        FormatError::CsrOffsets => "CSR offsets do not ascend to the target count"@,
        FormatError::SchemaBudget { .. } => "schema exceeds its budget"@,
    }
}

impl FormatError {
    /// The fixed part of the text of the error; the numbers are in its fields.
    pub fn message(&self) -> (r: &'static str)
        ensures
            r@ == format_message(*self),
    {
        match self {
            FormatError::TruncatedHeader => "truncated CompactStore v5 header",
            FormatError::BadMagic => "bad CompactStore magic",
            FormatError::UnsupportedVersion(_) => "unsupported CompactStore section version",
            FormatError::HeaderLength(_) => "v5 header_length must be the fixed one",
            FormatError::DirectoryEntryLength(_) => "v5 directory_entry_length must be the fixed one",
            FormatError::LayoutFlags(_) => "v5 layout_flags has unknown bits set",
            FormatError::DirectoryOffset(_) => "v5 directory_offset must be the header length",
            FormatError::HeaderReserved(_) => "v5 header reserved must be zero",
            FormatError::DirectoryLength { .. } => "v5 directory_length does not fit segment_count",
            FormatError::DataOverlapsDirectory => "v5 data_offset overlaps directory",
            FormatError::DataMisaligned(_) => "v5 data_offset is not 8-byte aligned",
            FormatError::TruncatedDirectory => "truncated v5 directory",
            FormatError::DirectoryCrc { .. } => "v5 directory CRC mismatch",
            FormatError::UnknownKind(_) => "unknown CompactStore v5 segment kind",
            FormatError::KindOrder { .. } => "v5 directory not in ascending kind order",
            FormatError::DuplicateKind(_) => "duplicate v5 segment kind",
            FormatError::EntryReserved(_) => "v5 segment reserved fields must be zero",
            FormatError::SegmentBeforeData { .. } => "segment offset before data_offset",
            FormatError::SegmentEndOverflow(_) => "segment offset+length overflow",
            FormatError::SegmentBeyondPayload { .. } => "segment range exceeds payload",
            FormatError::SegmentAlignment { .. } => "segment alignment must be a power of two up to 16",
            FormatError::SegmentMisaligned { .. } => "segment offset not aligned",
            FormatError::SegmentElements { .. } => "segment element_count x width exceeds length",
            FormatError::SegmentOverlap { .. } => "v5 segment overlaps previous range",
            FormatError::MissingSegment(_) => "required v5 segment missing",
            FormatError::SegmentOutOfBounds(_) => "segment out of bounds",
            FormatError::SegmentCrc { .. } => "segment CRC mismatch",
            FormatError::ViewLength { width } => if *width == 4 {
                "U32View length is not a multiple of 4"
            } else {
                "U64View length is not a multiple of 8"
            },
            FormatError::ViewRange => "element range out of bounds",
            FormatError::LookupLength { .. } => "id lookup length is not a multiple of its record length",
            FormatError::LookupReserved { .. } => "id lookup record has non-zero reserved fields",
            FormatError::LookupOrder(_) => "id lookup records are not sorted ascending by id",
            FormatError::MembershipCount(_) => "label_membership_count exceeds u32::MAX",
            FormatError::MembershipUnsorted => "label membership records not strictly ascending",
            FormatError::MembershipHeader(_) => "label membership truncated header",
            FormatError::MembershipBody { .. } => "label membership body length does not fit record_count",
            FormatError::MembershipOrder(_) => "label membership records not strictly ascending",
            FormatError::BitmapRows { .. } => "presence/null bitmap row_count differs from bits",
            FormatError::BitmapHeader { .. } => "truncated record header",
            FormatError::BitmapOrder { .. } => "column indices not strictly ascending",
            FormatError::BitmapBody { .. } => "truncated bitmap",
            FormatError::DictSentinel => "StringOffsets must contain at least a sentinel",
            FormatError::DictOrder { .. } => "StringOffsets not monotonic",
            FormatError::DictRange { .. } => "StringOffsets exceeds StringBytes length",
            FormatError::DictUtf8(_) => "invalid UTF-8 in StringBytes",
            FormatError::CodeIndexLength(_) => "DictionaryCodeIndex length not a multiple of its record length",
            FormatError::CodeIndexCount { .. } => "DictionaryCodeIndex count differs from dictionary len",
            FormatError::CodeIndexOverflow => "code index range overflow",
            FormatError::CodeIndexRange => "code index string range exceeds StringBytes",
            FormatError::CodeIndexCode(_) => "code index code missing from dictionary",
            FormatError::CodeIndexTextLen { .. } => "code index len differs from dictionary string len",
            FormatError::CodeIndexOrder => "DictionaryCodeIndex not sorted by UTF-8 content",
            FormatError::TooManySegments(_) => "too many v5 segments",
            FormatError::MissingCompanion(_) => "companion segment missing",
            FormatError::ZoneNullCount => "zone map null_count exceeds its field",
            FormatError::ZoneRowCount => "zone map row_count exceeds its field",
            FormatError::ZoneText => "zone map string not interned",
            FormatError::ZoneValue => "zone map value of an unsupported type",
            FormatError::ZoneKey => "zone map key not interned",
            FormatError::ZoneBlockIndex => "block index overflow",
            FormatError::ZoneLength(_) => "zone map segment length not a multiple of its record length",
            FormatError::ZoneReserved(_) => "zone map reserved non-zero",
            FormatError::ZonePad(_) => "zone map pad non-zero",
            FormatError::ZoneColumnCode(_) => "zone map column code missing",
            FormatError::ZoneTextCode(_) => "zone map string code exceeds its field",
            FormatError::ZoneTextMissing(_) => "zone map string code missing from dictionary",
            FormatError::ZoneTag(_) => "unknown zone map value tag",
            FormatError::TableZoneBlock(_) => "TableZoneMaps record has non-sentinel block_index",
            FormatError::BlockZoneSentinel => "BlockZoneMaps record has table-level sentinel block_index",
            FormatError::ZoneTable(_) => "zone map table_id out of range",
            FormatError::ZoneBlocks { .. } => "BlockZoneMaps out of block order",
            FormatError::WireLimit(_) => "count exceeds its wire field",
            FormatError::ColumnCode => "column key not interned",
            FormatError::ColumnText => "column string not interned",
            FormatError::PayloadTooShort => "v5 payload too short",
            FormatError::PayloadCrc { .. } => "v5 payload CRC mismatch",
            FormatError::MetadataTruncated => "truncated v5 metadata",
            FormatError::MetadataCode(_) => "metadata string code missing from dictionary",
            FormatError::TableRecordTruncated(_) => "truncated table record",
            FormatError::TableRecordReserved(_) => "table record reserved fields must be zero",
            FormatError::TableRecordId { .. } => "table record id differs from its index",
            FormatError::TableRowCount => "table row count exceeds its field",
            FormatError::MetadataColumnMissing => "metadata column missing",
            FormatError::BlockIndexTruncated => "truncated block index",
            FormatError::ColumnBodyRange => "column body out of range",
            FormatError::ColumnBodyEmpty => "column body empty",
            FormatError::ColumnCodesTruncated => "truncated column codes",
            FormatError::SourceTableMissing(_) => "source table missing",
            FormatError::DestinationTableMissing(_) => "destination table missing",
            FormatError::CsrRange { .. } => "CSR range out of bounds",
            FormatError::CsrOffsets => "CSR offsets do not ascend to the target count",
            FormatError::SchemaBudget { .. } => "schema exceeds its budget",
        }
    }
}

} // verus!
