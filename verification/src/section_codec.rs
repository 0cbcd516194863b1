//! The parts of a `GCST` section: numbers, texts whose length prefix depends
//! on the section version, and zone maps.
//!
//! Versions 1 to 3 prefix a text with a `u16` length, version 4 with a `u32`.

use crate::text::{decode_text, own};
use crate::text;
use crate::value::{Value, ValueView, ZoneMap, ZoneView};
use crate::value;
use crate::wire::{load_u16, load_u32, load_u64, push_bytes, push_u16, push_u32, push_u64};
use crate::wire;
use vstd::prelude::*;
use vstd::utf8::*;

verus! {

broadcast use wire::group_wire;

/// The first four bytes of a section: `GCST`.
pub const SECTION_MAGIC: u32 = 0x5453_4347;

/// The section version that is written by default.
pub const FORMAT_VERSION: u8 = 4;

/// Block zone maps, texts of at most 65535 bytes.
pub const FORMAT_VERSION_V3: u8 = 3;

/// Blocks without zone maps.
pub const FORMAT_VERSION_V2: u8 = 2;

/// Flat columns.
pub const FORMAT_VERSION_V1: u8 = 1;

/// Bytes of one entry of an identifier map.
pub const ID_MAP_ENTRY_WIRE_BYTES: usize = 18;

/// What a section counts.
#[derive(Debug, Clone, Copy, PartialEq, Eq, Structural)]
pub enum SectionPart {
    /// Node tables.
    NodeTables,
    /// Columns of a node table.
    NodeColumns,
    /// Relationship tables.
    RelTables,
    /// Properties of a relationship table.
    RelProperties,
    /// Entries of the node identifier map.
    NodeIdMap,
    /// Entries of the edge identifier map.
    EdgeIdMap,
}

/// Which bound of a zone map.
#[derive(Debug, Clone, Copy, PartialEq, Eq, Structural)]
pub enum ZoneBound {
    /// The least value.
    Min,
    /// The greatest value.
    Max,
}

/// What is wrong with a section, or with the values that should fill one.
#[derive(Debug, Clone, Copy, PartialEq, Eq, Structural)]
#[allow(inconsistent_fields)]
pub enum SectionError {
    /// Too few bytes for a header and a checksum.
    TooShort,
    /// The bytes do not match their checksum.
    Crc {
        /// Checksum at the end of the section.
        stored: u32,
        /// Checksum of the bytes.
        computed: u32,
    },
    /// The first four bytes are not the section magic.
    BadMagic,
    /// A version that is not known.
    UnsupportedVersion(u8),
    /// More tables than table numbers.
    TableCount {
        /// Which tables.
        part: SectionPart,
        /// How many.
        count: u32,
    },
    /// More items than the remaining bytes can hold.
    CountBeyondPayload {
        /// Which items.
        part: SectionPart,
        /// How many.
        count: u32,
        /// Bytes left.
        remaining: usize,
    },
    /// A `u16` is cut off.
    TruncatedU16,
    /// A `u32` is cut off.
    TruncatedU32,
    /// A `u64` is cut off.
    TruncatedU64,
    /// A text is cut off.
    TruncatedText,
    /// A text is not UTF-8.
    InvalidText,
    /// The flag in front of a zone map is cut off.
    TruncatedZoneFlag,
    /// The flag in front of a reverse adjacency is cut off.
    TruncatedReverseFlag,
    /// The tag of a value is cut off.
    TruncatedValueTag,
    /// An integer value is cut off.
    TruncatedInt,
    /// A truth value is cut off.
    TruncatedBool,
    /// A value tag that is not known.
    UnknownValueTag(u8),
    /// A column or an adjacency that ends before it starts or beyond the
    /// section.
    BlockExtent {
        /// Where it starts.
        start: usize,
        /// Where it is said to end.
        end: usize,
    },
    /// An identifier map entry in a table that does not exist.
    UnknownTable {
        /// Which map.
        part: SectionPart,
        /// The table.
        table: u16,
        /// How many tables there are.
        tables: usize,
    },
    /// An identifier map entry beyond its table.
    OffsetBeyondTable {
        /// Which map.
        part: SectionPart,
        /// The row or position.
        offset: u64,
        /// The table.
        table: u16,
        /// How many rows or edges it has.
        len: usize,
    },
    /// A text longer than its length prefix can say.
    TextTooLong {
        /// Bytes of the text.
        len: usize,
        /// The section version.
        version: u8,
    },
    /// A bound of the zone map of a column, longer than its length prefix can
    /// say.
    BoundTooLong {
        /// Bytes of the text.
        len: usize,
        /// The section version.
        version: u8,
        /// Which bound.
        bound: ZoneBound,
        /// The node table.
        table: usize,
        /// The column of the table.
        column: usize,
    },
    /// There is no store to write.
    NoStore,
}

/// The fixed part of the text of an error.
pub open spec fn section_message(e: SectionError) -> Seq<char> {
    match e {
        SectionError::TooShort => "data too short for CompactStore section"@,
        SectionError::Crc { .. } => "CRC32 mismatch"@,
        SectionError::BadMagic => "bad magic"@,
        SectionError::UnsupportedVersion(_) => "unsupported CompactStore section version"@,
        SectionError::TableCount { part, .. } => if part == SectionPart::NodeTables {
            "node_tables count exceeds u16::MAX"@
        } else {
            "rel_tables count exceeds u16::MAX"@
        },
        SectionError::CountBeyondPayload { .. } => "count exceeds remaining payload"@,
        SectionError::TruncatedU16 => "truncated u16"@,
        SectionError::TruncatedU32 => "truncated u32"@,
        SectionError::TruncatedU64 => "truncated u64"@,
        SectionError::TruncatedText => "truncated string"@,
        SectionError::InvalidText => "invalid UTF-8"@,
        SectionError::TruncatedZoneFlag => "truncated zone map flag"@,
        SectionError::TruncatedReverseFlag => "truncated bwd flag"@,
        SectionError::TruncatedValueTag => "truncated value tag"@,
        SectionError::TruncatedInt => "truncated i64 value"@,
        SectionError::TruncatedBool => "truncated bool"@,
        SectionError::UnknownValueTag(_) => "unknown value tag"@,
        SectionError::BlockExtent { .. } => "codec: block ends outside the section"@,
        SectionError::UnknownTable { part, .. } => if part == SectionPart::NodeIdMap {
            "node_id_map unknown table id"@
        } else {
            "edge_id_map unknown rel table id"@
        },
        SectionError::OffsetBeyondTable { part, .. } => if part == SectionPart::NodeIdMap {
            "node_id_map offset out of range"@
        } else {
            "edge_id_map csr_pos out of range"@
        },
        SectionError::TextTooLong { version, .. } => if version == FORMAT_VERSION {
            "string length exceeds u32::MAX"@
        } else {
            "string length exceeds u16::MAX (65535)"@
        },
        SectionError::BoundTooLong { bound, .. } => if bound == ZoneBound::Min {
            "string length exceeds its prefix (zone_map_min)"@
        } else {
            "string length exceeds its prefix (zone_map_max)"@
        },
        SectionError::NoStore => "no CompactStore to serialize"@,
    }
}

impl SectionError {
    /// The fixed part of the text of the error; the numbers are in its fields.
    pub fn message(&self) -> (r: &'static str)
        ensures
            r@ == section_message(*self),
    {
        match self {
            SectionError::TooShort => "data too short for CompactStore section",
            SectionError::Crc { .. } => "CRC32 mismatch",
            SectionError::BadMagic => "bad magic",
            SectionError::UnsupportedVersion(_) => "unsupported CompactStore section version",
            SectionError::TableCount { part, .. } => match part {
                SectionPart::NodeTables => "node_tables count exceeds u16::MAX",
                _ => "rel_tables count exceeds u16::MAX",
            },
            SectionError::CountBeyondPayload { .. } => "count exceeds remaining payload",
            SectionError::TruncatedU16 => "truncated u16",
            SectionError::TruncatedU32 => "truncated u32",
            SectionError::TruncatedU64 => "truncated u64",
            SectionError::TruncatedText => "truncated string",
            SectionError::InvalidText => "invalid UTF-8",
            SectionError::TruncatedZoneFlag => "truncated zone map flag",
            SectionError::TruncatedReverseFlag => "truncated bwd flag",
            SectionError::TruncatedValueTag => "truncated value tag",
            SectionError::TruncatedInt => "truncated i64 value",
            SectionError::TruncatedBool => "truncated bool",
            SectionError::UnknownValueTag(_) => "unknown value tag",
            SectionError::BlockExtent { .. } => "codec: block ends outside the section",
            SectionError::UnknownTable { part, .. } => match part {
                SectionPart::NodeIdMap => "node_id_map unknown table id",
                _ => "edge_id_map unknown rel table id",
            },
            SectionError::OffsetBeyondTable { part, .. } => match part {
                SectionPart::NodeIdMap => "node_id_map offset out of range",
                _ => "edge_id_map csr_pos out of range",
            },
            SectionError::TextTooLong { version, .. } => if *version == FORMAT_VERSION {
                "string length exceeds u32::MAX"
            } else {
                "string length exceeds u16::MAX (65535)"
            },
            SectionError::BoundTooLong { bound, .. } => match bound {
                ZoneBound::Min => "string length exceeds its prefix (zone_map_min)",
                ZoneBound::Max => "string length exceeds its prefix (zone_map_max)",
            },
            SectionError::NoStore => "no CompactStore to serialize",
        }
    }
}

/// The signed integer with the given bits.
pub open spec fn int_of_bits(bits: u64) -> i64 {
    bits as i64
}

/// The versions that are read and written.
pub open spec fn known_version(v: u8) -> bool {
    1 <= v <= 4
}

/// True for a version that is read and written.
pub fn is_known_version(v: u8) -> (r: bool)
    ensures
        r == known_version(v),
{
    1 <= v && v <= 4
}

/// Bytes of the length prefix of a text.
pub open spec fn prefix_width(version: u8) -> int {
    if version == FORMAT_VERSION {
        4
    } else {
        2
    }
}

/// The length prefix of a text.
pub open spec fn length_prefix(n: int, version: u8) -> Seq<u8> {
    if version == FORMAT_VERSION {
        wire::put32(n as u32)
    } else {
        wire::put16(n as u16)
    }
}

/// The longest text that a version takes.
pub open spec fn text_limit(version: u8) -> int {
    if version == FORMAT_VERSION {
        0xffff_ffff
    } else {
        0xffff
    }
}

/// The error, if any, of a text of `n` bytes.
pub open spec fn length_fault(n: int, version: u8) -> Option<SectionError> {
    if !known_version(version) {
        Some(SectionError::UnsupportedVersion(version))
    } else if n > text_limit(version) {
        Some(SectionError::TextTooLong { len: n as usize, version })
    } else {
        None
    }
}

/// The bytes of a text: the length prefix, then the UTF-8 bytes.
pub open spec fn section_text(s: Seq<char>, version: u8) -> Seq<u8> {
    length_prefix(text::utf8(s).len() as int, version) + text::utf8(s)
}

/// Appends the length prefix of a text of `len` bytes. Nothing is appended
/// when the length does not fit.
pub fn write_string_len(buf: &mut Vec<u8>, len: usize, version: u8) -> (r: Result<
    (),
    SectionError,
>)
    ensures
        match r {
            Ok(_) => length_fault(len as int, version) is None && final(buf)@ == old(buf)@
                + length_prefix(len as int, version),
            Err(e) => length_fault(len as int, version) == Some(e) && final(buf)@ == old(buf)@,
        },
{
    if !is_known_version(version) {
        return Err(SectionError::UnsupportedVersion(version));
    }
    if version == FORMAT_VERSION {
        if len as u64 > 0xffff_ffff {
            return Err(SectionError::TextTooLong { len, version });
        }
        push_u32(buf, len as u32);
    } else {
        if len > 0xffff {
            return Err(SectionError::TextTooLong { len, version });
        }
        push_u16(buf, len as u16);
    }
    Ok(())
}

/// Appends a text with its length prefix. Nothing is appended when the length
/// does not fit.
pub fn write_string(buf: &mut Vec<u8>, value: &str, version: u8) -> (r: Result<(), SectionError>)
    ensures
        match r {
            Ok(_) => length_fault(text::utf8(value@).len() as int, version) is None && final(buf)@
                == old(buf)@ + section_text(value@, version),
            Err(e) => length_fault(text::utf8(value@).len() as int, version) == Some(e) && final(buf)@
                == old(buf)@,
        },
{
    let bytes: &[u8] = value.as_bytes();
    assert(bytes@.len() == bytes.len());
    write_string_len(buf, bytes.len(), version)?;
    push_bytes(buf, bytes);
    assert(buf@ =~= old(buf)@ + section_text(value@, version));
    Ok(())
}

/// The bytes of an optional value: a tag, then the content. Values other than
/// integers, truth values and texts are written as absent.
pub open spec fn bound_bytes(v: Option<ValueView>, version: u8) -> Seq<u8> {
    match v {
        Some(ValueView::Int64(n)) => seq![1u8] + wire::put64(n as u64),
        Some(ValueView::Bool(b)) => seq![2u8, if b { 1u8 } else { 0u8 }],
        Some(ValueView::Text(s)) => seq![3u8] + section_text(s, version),
        _ => seq![0u8],
    }
}

/// What is left of an optional value that is written and read: integers,
/// truth values and texts.
pub open spec fn kept_bound(v: Option<ValueView>) -> Option<ValueView> {
    match v {
        Some(ValueView::Int64(n)) => v,
        Some(ValueView::Bool(b)) => v,
        Some(ValueView::Text(s)) => v,
        _ => None,
    }
}

/// The error, if any, of an optional value.
pub open spec fn bound_fault(v: Option<ValueView>, version: u8) -> Option<SectionError> {
    match v {
        Some(ValueView::Text(s)) => length_fault(text::utf8(s).len() as int, version),
        _ => None,
    }
}

/// Appends an optional value.
pub fn write_optional_value(buf: &mut Vec<u8>, v: &Option<Value>, version: u8) -> (r: Result<
    (),
    SectionError,
>)
    ensures
        match r {
            Ok(_) => bound_fault(value::optional_view(*v), version) is None && final(buf)@ == old(buf)@
                + bound_bytes(value::optional_view(*v), version),
            Err(e) => bound_fault(value::optional_view(*v), version) == Some(e),
        },
{
    let ghost before = buf@;
    match v {
        Some(Value::Int64(n)) => {
            buf.push(1);
            push_u64(buf, *n as u64);
        },
        Some(Value::Bool(b)) => {
            buf.push(2);
            buf.push(
                if *b {
                    1
                } else {
                    0
                },
            );
        },
        Some(Value::String(s)) => {
            buf.push(3);
            write_string(buf, s.as_str(), version)?;
        },
        _ => {
            buf.push(0);
        },
    }
    assert(buf@ =~= before + bound_bytes(value::optional_view(*v), version));
    Ok(())
}

/// The bytes of a zone map.
pub open spec fn zone_bytes(z: ZoneView, version: u8) -> Seq<u8> {
    wire::put32(z.null_count as u32) + wire::put32(z.row_count as u32) + bound_bytes(z.min, version)
        + bound_bytes(z.max, version)
}

/// The error of a bound, with the place of its zone map.
pub open spec fn placed_fault(
    fault: Option<SectionError>,
    bound: ZoneBound,
    table: usize,
    column: usize,
) -> Option<SectionError> {
    match fault {
        Some(SectionError::TextTooLong { len, version }) => Some(
            SectionError::BoundTooLong { len, version, bound, table, column },
        ),
        other => other,
    }
}

/// The error, if any, of a zone map: that of the least value, then that of the
/// greatest.
pub open spec fn zone_fault(z: ZoneView, version: u8, table: usize, column: usize) -> Option<
    SectionError,
> {
    match placed_fault(bound_fault(z.min, version), ZoneBound::Min, table, column) {
        Some(e) => Some(e),
        None => placed_fault(bound_fault(z.max, version), ZoneBound::Max, table, column),
    }
}

/// A zone map's counts fit the section.
pub open spec fn zone_counts_fit(z: ZoneView) -> bool {
    z.null_count <= 0xffff_ffff && z.row_count <= 0xffff_ffff
}

fn wrap_zone_map_context(e: SectionError, bound: ZoneBound, table: usize, column: usize) -> (r:
    SectionError)
    ensures
        placed_fault(Some(e), bound, table, column) == Some(r),
{
    match e {
        SectionError::TextTooLong { len, version } => SectionError::BoundTooLong {
            len,
            version,
            bound,
            table,
            column,
        },
        other => other,
    }
}

/// Appends a zone map. A bound that is too long is reported with the column
/// it belongs to.
pub fn write_zone_map(
    buf: &mut Vec<u8>,
    zm: &ZoneMap,
    version: u8,
    table: usize,
    column: usize,
) -> (r: Result<(), SectionError>)
    requires
        zone_counts_fit(zm@),
    ensures
        match r {
            Ok(_) => zone_fault(zm@, version, table, column) is None && final(buf)@ == old(buf)@
                + zone_bytes(zm@, version),
            Err(e) => zone_fault(zm@, version, table, column) == Some(e),
        },
{
    let ghost before = buf@;
    push_u32(buf, zm.null_count as u32);
    push_u32(buf, zm.row_count as u32);
    match write_optional_value(buf, &zm.min, version) {
        Ok(_) => {},
        Err(e) => {
            return Err(wrap_zone_map_context(e, ZoneBound::Min, table, column));
        },
    }
    match write_optional_value(buf, &zm.max, version) {
        Ok(_) => {},
        Err(e) => {
            return Err(wrap_zone_map_context(e, ZoneBound::Max, table, column));
        },
    }
    assert(buf@ =~= before + zone_bytes(zm@, version));
    Ok(())
}

/// The outcome of reading something at a place: the value and where it ends.
pub type Reading<T> = Result<(T, int), SectionError>;

/// A `u16` at `pos`.
pub open spec fn u16_read(d: Seq<u8>, pos: int) -> Reading<u16> {
    if pos + 2 > d.len() {
        Err(SectionError::TruncatedU16)
    } else {
        Ok((wire::u16_at(d, pos), pos + 2))
    }
}

/// A `u32` at `pos`.
pub open spec fn u32_read(d: Seq<u8>, pos: int) -> Reading<u32> {
    if pos + 4 > d.len() {
        Err(SectionError::TruncatedU32)
    } else {
        Ok((wire::u32_at(d, pos), pos + 4))
    }
}

/// A `u64` at `pos`.
pub open spec fn u64_read(d: Seq<u8>, pos: int) -> Reading<u64> {
    if pos + 8 > d.len() {
        Err(SectionError::TruncatedU64)
    } else {
        Ok((wire::u64_at(d, pos), pos + 8))
    }
}

/// The length prefix of a text at `pos`.
pub open spec fn length_read(d: Seq<u8>, pos: int, version: u8) -> Reading<int> {
    if !known_version(version) {
        Err(SectionError::UnsupportedVersion(version))
    } else if version == FORMAT_VERSION {
        match u32_read(d, pos) {
            Ok((n, p)) => Ok((n as int, p)),
            Err(e) => Err(e),
        }
    } else {
        match u16_read(d, pos) {
            Ok((n, p)) => Ok((n as int, p)),
            Err(e) => Err(e),
        }
    }
}

/// A text at `pos`.
pub open spec fn text_read(d: Seq<u8>, pos: int, version: u8) -> Reading<Seq<char>> {
    match length_read(d, pos, version) {
        Err(e) => Err(e),
        Ok((n, p)) => if p + n > d.len() {
            Err(SectionError::TruncatedText)
        } else if !valid_utf8(d.subrange(p, p + n)) {
            Err(SectionError::InvalidText)
        } else {
            Ok((text::text_of(d.subrange(p, p + n)), p + n))
        },
    }
}

/// An optional value at `pos`.
pub open spec fn bound_read(d: Seq<u8>, pos: int, version: u8) -> Reading<Option<ValueView>> {
    if pos + 1 > d.len() {
        Err(SectionError::TruncatedValueTag)
    } else if d[pos] == 0 {
        Ok((None, pos + 1))
    } else if d[pos] == 1 {
        if pos + 9 > d.len() {
            Err(SectionError::TruncatedInt)
        } else {
            Ok((Some(ValueView::Int64(int_of_bits(wire::u64_at(d, pos + 1)))), pos + 9))
        }
    } else if d[pos] == 2 {
        if pos + 2 > d.len() {
            Err(SectionError::TruncatedBool)
        } else {
            Ok((Some(ValueView::Bool(d[pos + 1] != 0)), pos + 2))
        }
    } else if d[pos] == 3 {
        match text_read(d, pos + 1, version) {
            Ok((s, p)) => Ok((Some(ValueView::Text(s)), p)),
            Err(e) => Err(e),
        }
    } else {
        Err(SectionError::UnknownValueTag(d[pos]))
    }
}

/// A zone map at `pos`.
pub open spec fn zone_read(d: Seq<u8>, pos: int, version: u8) -> Reading<ZoneView> {
    match u32_read(d, pos) {
        Err(e) => Err(e),
        Ok((nulls, p1)) => match u32_read(d, p1) {
            Err(e) => Err(e),
            Ok((rows, p2)) => match bound_read(d, p2, version) {
                Err(e) => Err(e),
                Ok((min, p3)) => match bound_read(d, p3, version) {
                    Err(e) => Err(e),
                    Ok((max, p4)) => Ok(
                        (
                            ZoneView {
                                min,
                                max,
                                null_count: nulls as usize,
                                row_count: rows as usize,
                            },
                            p4,
                        ),
                    ),
                },
            },
        },
    }
}

/// Reads a `u16` and steps over it.
pub fn read_u16(data: &[u8], pos: &mut usize) -> (r: Result<u16, SectionError>)
    ensures
        match r {
            Ok(v) => u16_read(data@, *old(pos) as int) == Ok::<(u16, int), SectionError>(
                (v, *final(pos) as int),
            ),
            Err(e) => u16_read(data@, *old(pos) as int) == Err::<(u16, int), SectionError>(e)
                && *final(pos) == *old(pos),
        },
{
    assert(data@.len() == data.len());
    if data.len() < 2 || *pos > data.len() - 2 {
        return Err(SectionError::TruncatedU16);
    }
    let v: u16 = load_u16(data, *pos);
    *pos = *pos + 2;
    Ok(v)
}

/// Reads a `u32` and steps over it.
pub fn read_u32(data: &[u8], pos: &mut usize) -> (r: Result<u32, SectionError>)
    ensures
        match r {
            Ok(v) => u32_read(data@, *old(pos) as int) == Ok::<(u32, int), SectionError>(
                (v, *final(pos) as int),
            ),
            Err(e) => u32_read(data@, *old(pos) as int) == Err::<(u32, int), SectionError>(e)
                && *final(pos) == *old(pos),
        },
{
    assert(data@.len() == data.len());
    if data.len() < 4 || *pos > data.len() - 4 {
        return Err(SectionError::TruncatedU32);
    }
    let v: u32 = load_u32(data, *pos);
    *pos = *pos + 4;
    Ok(v)
}

/// Reads a `u64` and steps over it.
pub fn read_u64(data: &[u8], pos: &mut usize) -> (r: Result<u64, SectionError>)
    ensures
        match r {
            Ok(v) => u64_read(data@, *old(pos) as int) == Ok::<(u64, int), SectionError>(
                (v, *final(pos) as int),
            ),
            Err(e) => u64_read(data@, *old(pos) as int) == Err::<(u64, int), SectionError>(e)
                && *final(pos) == *old(pos),
        },
{
    assert(data@.len() == data.len());
    if data.len() < 8 || *pos > data.len() - 8 {
        return Err(SectionError::TruncatedU64);
    }
    let v: u64 = load_u64(data, *pos);
    *pos = *pos + 8;
    Ok(v)
}

/// Reads a text and steps over it.
pub fn read_string(data: &[u8], pos: &mut usize, version: u8) -> (r: Result<String, SectionError>)
    ensures
        match r {
            Ok(v) => text_read(data@, *old(pos) as int, version) == Ok::<
                (Seq<char>, int),
                SectionError,
            >((v@, *final(pos) as int)),
            Err(e) => text_read(data@, *old(pos) as int, version) == Err::<
                (Seq<char>, int),
                SectionError,
            >(e) && *final(pos) == *old(pos),
        },
{
    assert(data@.len() == data.len());
    if !is_known_version(version) {
        return Err(SectionError::UnsupportedVersion(version));
    }
    let mut at: usize = *pos;
    let n: usize = if version == FORMAT_VERSION {
        read_u32(data, &mut at)? as usize
    } else {
        read_u16(data, &mut at)? as usize
    };
    if n > data.len() - at {
        return Err(SectionError::TruncatedText);
    }
    let bytes: &[u8] = vstd::slice::slice_subrange(data, at, at + n);
    match decode_text(bytes) {
        Some(s) => {
            *pos = at + n;
            Ok(own(s))
        },
        None => Err(SectionError::InvalidText),
    }
}

/// Reads an optional value and steps over it.
pub fn read_optional_value(data: &[u8], pos: &mut usize, version: u8) -> (r: Result<
    Option<Value>,
    SectionError,
>)
    ensures
        match r {
            Ok(v) => bound_read(data@, *old(pos) as int, version) == Ok::<
                (Option<ValueView>, int),
                SectionError,
            >((value::optional_view(v), *final(pos) as int)),
            Err(e) => bound_read(data@, *old(pos) as int, version) == Err::<
                (Option<ValueView>, int),
                SectionError,
            >(e) && *final(pos) == *old(pos),
        },
{
    assert(data@.len() == data.len());
    let at: usize = *pos;
    if at >= data.len() {
        return Err(SectionError::TruncatedValueTag);
    }
    let tag: u8 = data[at];
    if tag == 0 {
        *pos = at + 1;
        Ok(None)
    } else if tag == 1 {
        if data.len() < 9 || at > data.len() - 9 {
            return Err(SectionError::TruncatedInt);
        }
        let v: u64 = load_u64(data, at + 1);
        *pos = at + 9;
        Ok(Some(Value::Int64(v as i64)))
    } else if tag == 2 {
        if data.len() < 2 || at > data.len() - 2 {
            return Err(SectionError::TruncatedBool);
        }
        let b: bool = data[at + 1] != 0;
        *pos = at + 2;
        Ok(Some(Value::Bool(b)))
    } else if tag == 3 {
        let mut p: usize = at + 1;
        let s: String = read_string(data, &mut p, version)?;
        *pos = p;
        Ok(Some(Value::String(s)))
    } else {
        Err(SectionError::UnknownValueTag(tag))
    }
}

/// Reads a zone map and steps over it.
pub fn read_zone_map(data: &[u8], pos: &mut usize, version: u8) -> (r: Result<
    ZoneMap,
    SectionError,
>)
    ensures
        match r {
            Ok(v) => zone_read(data@, *old(pos) as int, version) == Ok::<
                (ZoneView, int),
                SectionError,
            >((v@, *final(pos) as int)),
            Err(e) => zone_read(data@, *old(pos) as int, version) == Err::<
                (ZoneView, int),
                SectionError,
            >(e) && *final(pos) == *old(pos),
        },
{
    let mut at: usize = *pos;
    let null_count: usize = read_u32(data, &mut at)? as usize;
    let row_count: usize = read_u32(data, &mut at)? as usize;
    let min: Option<Value> = read_optional_value(data, &mut at, version)?;
    let max: Option<Value> = read_optional_value(data, &mut at, version)?;
    *pos = at;
    Ok(ZoneMap { min, max, null_count, row_count })
}

/// Every item takes at least `min_item` bytes, so that `count` of them fit
/// what is left behind `pos`.
pub open spec fn count_fits(count: int, pos: int, len: int, min_item: int) -> bool {
    count * min_item <= len - pos
}

/// The bytes behind a position, none where it lies beyond the end.
pub open spec fn left_behind(pos: int, len: int) -> int {
    if pos <= len {
        len - pos
    } else {
        0
    }
}

/// Checks that `count` items can stand in what is left of the section.
pub fn checked_count_for_alloc(
    count: u32,
    pos: usize,
    data_len: usize,
    min_item_bytes: usize,
    part: SectionPart,
) -> (r: Result<(), SectionError>)
    requires
        min_item_bytes >= 1,
    ensures
        r is Ok <==> count * min_item_bytes <= left_behind(pos as int, data_len as int),
        r matches Err(e) ==> e == (SectionError::CountBeyondPayload {
            part,
            count,
            remaining: left_behind(pos as int, data_len as int) as usize,
        }),
{
    let remaining: usize = if pos <= data_len {
        data_len - pos
    } else {
        0
    };
    let fits: bool = match (count as u64).checked_mul(min_item_bytes as u64) {
        Some(need) => need <= remaining as u64,
        None => false,
    };
    if !fits {
        return Err(SectionError::CountBeyondPayload { part, count, remaining });
    }
    Ok(())
}

/// Fewest bytes of a node table: the label prefix and two counts.
pub fn min_node_table_wire_bytes(version: u8) -> (r: usize)
    ensures
        r == prefix_width(version) + 8,
{
    if version == FORMAT_VERSION {
        12
    } else {
        10
    }
}

/// Fewest bytes of a relationship table: the type prefix, two table numbers,
/// an empty adjacency, a flag and a count.
pub fn min_rel_table_wire_bytes(version: u8) -> (r: usize)
    ensures
        r == prefix_width(version) + 18,
{
    if version == FORMAT_VERSION {
        22
    } else {
        20
    }
}

/// Fewest bytes of a column: the key prefix and one byte.
pub fn min_column_entry_wire_bytes(version: u8) -> (r: usize)
    ensures
        r == prefix_width(version) + 1,
{
    if version == FORMAT_VERSION {
        5
    } else {
        3
    }
}

/// Reading a text that was written gives the text and steps over it.
pub proof fn lemma_section_text_read(d: Seq<u8>, pos: int, s: Seq<char>, version: u8)
    requires
        length_fault(text::utf8(s).len() as int, version) is None,
        wire::holds_at(d, pos, section_text(s, version)),
    ensures
        text_read(d, pos, version) == Ok::<(Seq<char>, int), SectionError>(
            (s, pos + section_text(s, version).len()),
        ),
{
    let n = text::utf8(s).len() as int;
    let pre = length_prefix(n, version);
    wire::lemma_holds_split(d, pos, pre, text::utf8(s));
    text::lemma_text_of_utf8(s);
    if version == FORMAT_VERSION {
        assert(d.subrange(pos, pos + 4) == wire::put32(n as u32));
    } else {
        assert(d.subrange(pos, pos + 2) == wire::put16(n as u16));
    }
}

/// Reading a bound that was written gives what is kept of it and steps over
/// it.
pub proof fn lemma_bound_read(d: Seq<u8>, pos: int, v: Option<ValueView>, version: u8)
    requires
        bound_fault(v, version) is None,
        wire::holds_at(d, pos, bound_bytes(v, version)),
    ensures
        bound_read(d, pos, version) == Ok::<(Option<ValueView>, int), SectionError>(
            (kept_bound(v), pos + bound_bytes(v, version).len()),
        ),
{
    let b = bound_bytes(v, version);
    let s = d.subrange(pos, pos + b.len());
    assert(s[0] == d[pos]);
    match v {
        Some(ValueView::Int64(n)) => {
            wire::lemma_holds_split(d, pos, seq![1u8], wire::put64(n as u64));
            assert(d.subrange(pos + 1, pos + 9) == wire::put64(n as u64));
            assert((n as u64) as i64 == n) by (bit_vector);
        },
        Some(ValueView::Bool(x)) => {
            assert(s[1] == d[pos + 1]);
        },
        Some(ValueView::Text(t)) => {
            wire::lemma_holds_split(d, pos, seq![3u8], section_text(t, version));
            lemma_section_text_read(d, pos + 1, t, version);
        },
        _ => {},
    }
}

/// What is left of a zone map that is written and read.
pub open spec fn kept_zone(z: ZoneView) -> ZoneView {
    ZoneView { min: kept_bound(z.min), max: kept_bound(z.max), ..z }
}

/// Reading a zone map that was written gives what is kept of it and steps over
/// it.
pub proof fn lemma_section_zone_read(
    d: Seq<u8>,
    pos: int,
    z: ZoneView,
    version: u8,
    table: usize,
    column: usize,
)
    requires
        zone_counts_fit(z),
        zone_fault(z, version, table, column) is None,
        wire::holds_at(d, pos, zone_bytes(z, version)),
    ensures
        zone_read(d, pos, version) == Ok::<(ZoneView, int), SectionError>(
            (kept_zone(z), pos + zone_bytes(z, version).len()),
        ),
{
    let a = wire::put32(z.null_count as u32);
    let b = wire::put32(z.row_count as u32);
    let c = bound_bytes(z.min, version);
    let e = bound_bytes(z.max, version);
    wire::lemma_holds_split(d, pos, a + b + c, e);
    wire::lemma_holds_split(d, pos, a + b, c);
    wire::lemma_holds_split(d, pos, a, b);
    assert(d.subrange(pos, pos + 4) == a);
    assert(d.subrange(pos + 4, pos + 8) == b);
    lemma_bound_read(d, pos + 8, z.min, version);
    lemma_bound_read(d, pos + 8 + c.len(), z.max, version);
}

} // verus!
