//! Reading the frame of a `GCST` section.
//!
//! Columns and adjacencies have formats of their own, and their length is
//! known only once they are decoded. So a frame is read against the extents of
//! the blocks decoded so far: it either comes out whole, or the reading stops
//! at the next block, whose kind and place it tells.

use crate::id_lookup::LookupEntry;
use crate::outside::{bytes_as_slice, bytes_slice, crc32};
use crate::outside;
use crate::section_codec::{ID_MAP_ENTRY_WIRE_BYTES, Reading, SECTION_MAGIC, SectionError, SectionPart, checked_count_for_alloc, is_known_version, min_column_entry_wire_bytes, min_node_table_wire_bytes, min_rel_table_wire_bytes, read_string, read_u16, read_u32, read_u64, read_zone_map};
use crate::section_codec;
use crate::section_frame::{SectionColumn, SectionColumnView, SectionFrame, SectionIds, SectionIdsView, SectionNodeTable, SectionNodeView, SectionProperty, SectionPropertyView, SectionRelTable, SectionRelView, SectionView};
use crate::section_frame;
use crate::value::{ZoneMap, ZoneView};
use crate::wire::load_u32;
use crate::wire;
use bytes::Bytes;
use vstd::prelude::*;

verus! {

broadcast use wire::group_wire;

/// What kind of block stands at a place.
#[derive(Debug, Clone, Copy, PartialEq, Eq, Structural)]
pub enum BlockKind {
    /// A column of a node table.
    Column,
    /// An adjacency by source.
    Forward,
    /// An adjacency by destination.
    Reverse,
    /// A property column of a relationship table.
    Property,
}

/// A decoded block: where it ends, and how many edges it has where it is an
/// adjacency by source.
#[derive(Debug, Clone, Copy, PartialEq, Eq, Structural)]
pub struct BlockExtent {
    /// Where the block ends.
    pub end: usize,
    /// Its edges.
    pub edges: usize,
}

/// Why a frame did not come out.
#[derive(Debug, Clone, Copy, PartialEq, Eq, Structural)]
pub enum SectionStop {
    /// The section is malformed.
    Fail(SectionError),
    /// The next block has to be decoded first.
    Block {
        /// Its kind.
        kind: BlockKind,
        /// Where it starts.
        start: usize,
    },
}

/// Where a reading stands: the byte, and the blocks passed.
pub struct Cursor {
    /// The byte.
    pub pos: int,
    /// Blocks passed.
    pub used: int,
}

/// The outcome of reading something at a cursor.
pub type Step<T> = Result<(T, Cursor), SectionStop>;

/// A plain reading at a cursor.
pub open spec fn plain<T>(r: Reading<T>, c: Cursor) -> Step<T> {
    match r {
        Ok((x, p)) => Ok((x, Cursor { pos: p, used: c.used })),
        Err(e) => Err(SectionStop::Fail(e)),
    }
}

/// The block at a cursor: its bytes and its edges.
pub open spec fn block_read(d: Seq<u8>, bl: Seq<BlockExtent>, c: Cursor, kind: BlockKind) -> Step<
    (Seq<u8>, usize),
> {
    if c.used >= bl.len() {
        Err(SectionStop::Block { kind, start: c.pos as usize })
    } else {
        let b = bl[c.used];
        if b.end < c.pos || b.end > d.len() {
            Err(
                SectionStop::Fail(
                    SectionError::BlockExtent { start: c.pos as usize, end: b.end },
                ),
            )
        } else {
            Ok(
                (
                    (d.subrange(c.pos, b.end as int), b.edges),
                    Cursor { pos: b.end as int, used: c.used + 1 },
                ),
            )
        }
    }
}

/// `n` things one behind the other; what stops one of them stops all.
pub open spec fn repeat<T>(f: spec_fn(Cursor) -> Step<T>, c: Cursor, n: int) -> Step<Seq<T>>
    decreases n,
{
    if n <= 0 {
        Ok((Seq::empty(), c))
    } else {
        match repeat(f, c, n - 1) {
            Err(s) => Err(s),
            Ok((xs, c1)) => match f(c1) {
                Err(s) => Err(s),
                Ok((x, c2)) => Ok((xs.push(x), c2)),
            },
        }
    }
}

/// What stops the first things stops all.
pub proof fn lemma_repeat_fail<T>(f: spec_fn(Cursor) -> Step<T>, c: Cursor, k: int, n: int)
    requires
        k <= n,
        repeat(f, c, k) is Err,
    ensures
        repeat(f, c, n) == repeat(f, c, k),
    decreases n,
{
    if k < n {
        lemma_repeat_fail(f, c, k, n - 1);
    }
}

/// An optional zone map at a cursor: a flag, and the zone map where it is 1.
pub open spec fn zone_option_read(d: Seq<u8>, version: u8, c: Cursor) -> Step<Option<ZoneView>> {
    if c.pos >= d.len() {
        Err(SectionStop::Fail(SectionError::TruncatedZoneFlag))
    } else if d[c.pos] == 1 {
        match section_codec::zone_read(d, c.pos + 1, version) {
            Err(e) => Err(SectionStop::Fail(e)),
            Ok((z, p)) => Ok((Some(z), Cursor { pos: p, used: c.used })),
        }
    } else {
        Ok((None, Cursor { pos: c.pos + 1, used: c.used }))
    }
}

/// A column at a cursor.
pub open spec fn column_read(d: Seq<u8>, version: u8, bl: Seq<BlockExtent>, c: Cursor) -> Step<
    SectionColumnView,
> {
    match plain(section_codec::text_read(d, c.pos, version), c) {
        Err(s) => Err(s),
        Ok((key, c1)) => match zone_option_read(d, version, c1) {
            Err(s) => Err(s),
            Ok((zone, c2)) => match block_read(d, bl, c2, BlockKind::Column) {
                Err(s) => Err(s),
                Ok((b, c3)) => Ok((SectionColumnView { key, zone, body: b.0 }, c3)),
            },
        },
    }
}

/// The reader of columns.
pub open spec fn column_reader(d: Seq<u8>, version: u8, bl: Seq<BlockExtent>) -> spec_fn(
    Cursor,
) -> Step<SectionColumnView> {
    |c: Cursor| column_read(d, version, bl, c)
}

/// A count at a cursor, of items that take at least `min_item` bytes each.
pub open spec fn count_read(d: Seq<u8>, c: Cursor, min_item: int, part: SectionPart) -> Step<u32> {
    match section_codec::u32_read(d, c.pos) {
        Err(e) => Err(SectionStop::Fail(e)),
        Ok((n, p)) => if section_codec::count_fits(n as int, p, d.len() as int, min_item) {
            Ok((n, Cursor { pos: p, used: c.used }))
        } else {
            Err(
                SectionStop::Fail(
                    SectionError::CountBeyondPayload {
                        part,
                        count: n,
                        remaining: (d.len() - p) as usize,
                    },
                ),
            )
        },
    }
}

/// A node table at a cursor.
pub open spec fn node_read(d: Seq<u8>, version: u8, bl: Seq<BlockExtent>, c: Cursor) -> Step<
    SectionNodeView,
> {
    match plain(section_codec::text_read(d, c.pos, version), c) {
        Err(s) => Err(s),
        Ok((label, c1)) => match plain(section_codec::u32_read(d, c1.pos), c1) {
            Err(s) => Err(s),
            Ok((rows, c2)) => match count_read(
                d,
                c2,
                section_codec::prefix_width(version) + 1,
                SectionPart::NodeColumns,
            ) {
                Err(s) => Err(s),
                Ok((n, c3)) => match repeat(column_reader(d, version, bl), c3, n as int) {
                    Err(s) => Err(s),
                    Ok((columns, c4)) => Ok((SectionNodeView { label, rows, columns }, c4)),
                },
            },
        },
    }
}

/// The reader of node tables.
pub open spec fn node_reader(d: Seq<u8>, version: u8, bl: Seq<BlockExtent>) -> spec_fn(
    Cursor,
) -> Step<SectionNodeView> {
    |c: Cursor| node_read(d, version, bl, c)
}

/// A property at a cursor.
pub open spec fn property_read(d: Seq<u8>, version: u8, bl: Seq<BlockExtent>, c: Cursor) -> Step<
    SectionPropertyView,
> {
    match plain(section_codec::text_read(d, c.pos, version), c) {
        Err(s) => Err(s),
        Ok((key, c1)) => match block_read(d, bl, c1, BlockKind::Property) {
            Err(s) => Err(s),
            Ok((b, c2)) => Ok((SectionPropertyView { key, body: b.0 }, c2)),
        },
    }
}

/// The reader of properties.
pub open spec fn property_reader(d: Seq<u8>, version: u8, bl: Seq<BlockExtent>) -> spec_fn(
    Cursor,
) -> Step<SectionPropertyView> {
    |c: Cursor| property_read(d, version, bl, c)
}

/// An optional adjacency by destination at a cursor: a flag, and the adjacency
/// where it is 1.
pub open spec fn reverse_read(d: Seq<u8>, bl: Seq<BlockExtent>, c: Cursor) -> Step<
    Option<Seq<u8>>,
> {
    if c.pos >= d.len() {
        Err(SectionStop::Fail(SectionError::TruncatedReverseFlag))
    } else if d[c.pos] == 1 {
        match block_read(d, bl, Cursor { pos: c.pos + 1, used: c.used }, BlockKind::Reverse) {
            Err(s) => Err(s),
            Ok((b, c1)) => Ok((Some(b.0), c1)),
        }
    } else {
        Ok((None, Cursor { pos: c.pos + 1, used: c.used }))
    }
}

/// What stands in front of the properties of a relationship table.
pub open spec fn rel_head_read(d: Seq<u8>, version: u8, bl: Seq<BlockExtent>, c: Cursor) -> Step<
    SectionRelView,
> {
    match plain(section_codec::text_read(d, c.pos, version), c) {
        Err(s) => Err(s),
        Ok((edge_type, c1)) => match plain(section_codec::u16_read(d, c1.pos), c1) {
            Err(s) => Err(s),
            Ok((src, c2)) => match plain(section_codec::u16_read(d, c2.pos), c2) {
                Err(s) => Err(s),
                Ok((dst, c3)) => match block_read(d, bl, c3, BlockKind::Forward) {
                    Err(s) => Err(s),
                    Ok((b, c4)) => match reverse_read(d, bl, c4) {
                        Err(s) => Err(s),
                        Ok((bwd, c5)) => Ok(
                            (
                                SectionRelView {
                                    edge_type,
                                    src,
                                    dst,
                                    fwd: b.0,
                                    edges: b.1,
                                    bwd,
                                    properties: Seq::empty(),
                                },
                                c5,
                            ),
                        ),
                    },
                },
            },
        },
    }
}

/// A relationship table at a cursor.
pub open spec fn rel_read(d: Seq<u8>, version: u8, bl: Seq<BlockExtent>, c: Cursor) -> Step<
    SectionRelView,
> {
    match rel_head_read(d, version, bl, c) {
        Err(s) => Err(s),
        Ok((head, c1)) => match count_read(
            d,
            c1,
            section_codec::prefix_width(version) + 1,
            SectionPart::RelProperties,
        ) {
            Err(s) => Err(s),
            Ok((n, c2)) => match repeat(property_reader(d, version, bl), c2, n as int) {
                Err(s) => Err(s),
                Ok((properties, c3)) => Ok((SectionRelView { properties, ..head }, c3)),
            },
        },
    }
}

/// The reader of relationship tables.
pub open spec fn rel_reader(d: Seq<u8>, version: u8, bl: Seq<BlockExtent>) -> spec_fn(
    Cursor,
) -> Step<SectionRelView> {
    |c: Cursor| rel_read(d, version, bl, c)
}

/// A count of tables at a cursor: as many as there are table numbers at most.
pub open spec fn table_count_read(d: Seq<u8>, c: Cursor, min_item: int, part: SectionPart) -> Step<
    u32,
> {
    match section_codec::u32_read(d, c.pos) {
        Err(e) => Err(SectionStop::Fail(e)),
        Ok((n, _)) => if n > 0xffff {
            Err(SectionStop::Fail(SectionError::TableCount { part, count: n }))
        } else {
            count_read(d, c, min_item, part)
        },
    }
}

/// An entry of an identifier map at a cursor: its table must be one of those
/// whose lengths are given, its offset inside that table.
pub open spec fn id_entry_read(d: Seq<u8>, part: SectionPart, lens: Seq<usize>, c: Cursor) -> Step<
    LookupEntry,
> {
    match plain(section_codec::u64_read(d, c.pos), c) {
        Err(s) => Err(s),
        Ok((id, c1)) => match plain(section_codec::u16_read(d, c1.pos), c1) {
            Err(s) => Err(s),
            Ok((table, c2)) => match plain(section_codec::u64_read(d, c2.pos), c2) {
                Err(s) => Err(s),
                Ok((offset, c3)) => if table >= lens.len() {
                    Err(
                        SectionStop::Fail(
                            SectionError::UnknownTable { part, table, tables: lens.len() as usize },
                        ),
                    )
                } else if offset >= lens[table as int] {
                    Err(
                        SectionStop::Fail(
                            SectionError::OffsetBeyondTable {
                                part,
                                offset,
                                table,
                                len: lens[table as int],
                            },
                        ),
                    )
                } else {
                    Ok(((id, table, offset), c3))
                },
            },
        },
    }
}

/// The reader of identifier map entries.
pub open spec fn id_entry_reader(d: Seq<u8>, part: SectionPart, lens: Seq<usize>) -> spec_fn(
    Cursor,
) -> Step<LookupEntry> {
    |c: Cursor| id_entry_read(d, part, lens, c)
}

/// An identifier map at a cursor.
pub open spec fn id_map_read(d: Seq<u8>, part: SectionPart, lens: Seq<usize>, c: Cursor) -> Step<
    Seq<LookupEntry>,
> {
    match count_read(d, c, ID_MAP_ENTRY_WIRE_BYTES as int, part) {
        Err(s) => Err(s),
        Ok((n, c1)) => repeat(id_entry_reader(d, part, lens), c1, n as int),
    }
}

/// The lengths of node tables.
pub open spec fn node_lens(v: Seq<SectionNodeView>) -> Seq<usize> {
    Seq::new(v.len(), |i: int| v[i].rows as usize)
}

/// The edges of relationship tables.
pub open spec fn rel_lens(v: Seq<SectionRelView>) -> Seq<usize> {
    Seq::new(v.len(), |i: int| v[i].edges)
}

/// The identifier maps at a cursor.
pub open spec fn ids_read(
    d: Seq<u8>,
    nodes: Seq<SectionNodeView>,
    rels: Seq<SectionRelView>,
    c: Cursor,
) -> Step<SectionIdsView> {
    match id_map_read(d, SectionPart::NodeIdMap, node_lens(nodes), c) {
        Err(s) => Err(s),
        Ok((n, c1)) => match id_map_read(d, SectionPart::EdgeIdMap, rel_lens(rels), c1) {
            Err(s) => Err(s),
            Ok((e, c2)) => Ok((SectionIdsView { nodes: n, edges: e }, c2)),
        },
    }
}

/// What a section's ends say: its version, and whether it keeps identifiers.
pub open spec fn section_opened(d: Seq<u8>) -> Result<(u8, bool), SectionError> {
    if d.len() < 10 {
        Err(SectionError::TooShort)
    } else {
        let stored = wire::u32_at(d, d.len() - 4);
        let computed = outside::crc32_of(d.subrange(0, d.len() - 4));
        if stored != computed {
            Err(SectionError::Crc { stored, computed })
        } else if wire::u32_at(d, 0) != SECTION_MAGIC {
            Err(SectionError::BadMagic)
        } else if !section_codec::known_version(d[4]) {
            Err(SectionError::UnsupportedVersion(d[4]))
        } else {
            Ok((d[4], d[5] % 2 == 1))
        }
    }
}

/// The node tables of a section.
pub open spec fn nodes_read(d: Seq<u8>, version: u8, bl: Seq<BlockExtent>) -> Step<
    Seq<SectionNodeView>,
> {
    match table_count_read(
        d,
        Cursor { pos: 6, used: 0 },
        section_codec::prefix_width(version) + 8,
        SectionPart::NodeTables,
    ) {
        Err(s) => Err(s),
        Ok((n, c1)) => repeat(node_reader(d, version, bl), c1, n as int),
    }
}

/// The relationship tables at a cursor.
pub open spec fn rels_read(d: Seq<u8>, version: u8, bl: Seq<BlockExtent>, c: Cursor) -> Step<
    Seq<SectionRelView>,
> {
    match table_count_read(d, c, section_codec::prefix_width(version) + 18, SectionPart::RelTables) {
        Err(s) => Err(s),
        Ok((n, c1)) => repeat(rel_reader(d, version, bl), c1, n as int),
    }
}

/// The frame behind an accepted header.
pub open spec fn frame_read(d: Seq<u8>, version: u8, preserves: bool, bl: Seq<BlockExtent>) -> Result<
    SectionView,
    SectionStop,
> {
    match nodes_read(d, version, bl) {
        Err(s) => Err(s),
        Ok((nodes, c1)) => match rels_read(d, version, bl, c1) {
            Err(s) => Err(s),
            Ok((rels, c2)) => if preserves {
                match ids_read(d, nodes, rels, c2) {
                    Err(s) => Err(s),
                    Ok((ids, _)) => Ok(SectionView { nodes, rels, ids: Some(ids) }),
                }
            } else {
                Ok(SectionView { nodes, rels, ids: None })
            },
        },
    }
}

/// The frame of a section, read against the blocks decoded so far.
pub open spec fn section_read(d: Seq<u8>, bl: Seq<BlockExtent>) -> Result<SectionView, SectionStop> {
    match section_opened(d) {
        Err(e) => Err(SectionStop::Fail(e)),
        Ok((version, preserves)) => frame_read(d, version, preserves, bl),
    }
}

/// A reading in progress.
struct Walk {
    pos: usize,
    used: usize,
}

spec fn cursor(w: Walk) -> Cursor {
    Cursor { pos: w.pos as int, used: w.used as int }
}

spec fn walk_inside(d: Seq<u8>, bl: Seq<BlockExtent>, w: Walk) -> bool {
    w.pos <= d.len() && w.used <= bl.len()
}

fn stop<T>(e: SectionError) -> (r: Result<T, SectionStop>)
    ensures
        r == Err::<T, SectionStop>(SectionStop::Fail(e)),
{
    Err(SectionStop::Fail(e))
}

fn next_block(data: &Bytes, bl: &[BlockExtent], w: &mut Walk, kind: BlockKind) -> (r: Result<
    (Bytes, usize),
    SectionStop,
>)
    requires
        walk_inside(outside::bytes_content(*data), bl@, *old(w)),
    ensures
        match r {
            Ok(x) => walk_inside(outside::bytes_content(*data), bl@, *final(w)) && block_read(
                outside::bytes_content(*data),
                bl@,
                cursor(*old(w)),
                kind,
            ) == Ok::<((Seq<u8>, usize), Cursor), SectionStop>(
                ((outside::bytes_content(x.0), x.1), cursor(*final(w))),
            ),
            Err(s) => block_read(outside::bytes_content(*data), bl@, cursor(*old(w)), kind) == Err::<
                ((Seq<u8>, usize), Cursor),
                SectionStop,
            >(s),
        },
{
    assert(bl@.len() == bl.len());
    if w.used >= bl.len() {
        return Err(SectionStop::Block { kind, start: w.pos });
    }
    let b: BlockExtent = bl[w.used];
    let d: &[u8] = bytes_as_slice(data);
    if b.end < w.pos || b.end > d.len() {
        return stop(SectionError::BlockExtent { start: w.pos, end: b.end });
    }
    let body: Bytes = bytes_slice(data, w.pos, b.end);
    w.pos = b.end;
    w.used = w.used + 1;
    Ok((body, b.edges))
}

fn next_text(d: &[u8], version: u8, w: &mut Walk) -> (r: Result<String, SectionStop>)
    requires
        old(w).pos <= d@.len(),
    ensures
        final(w).used == old(w).used,
        match r {
            Ok(x) => final(w).pos <= d@.len() && plain(
                section_codec::text_read(d@, old(w).pos as int, version),
                cursor(*old(w)),
            ) == Ok::<(Seq<char>, Cursor), SectionStop>((x@, cursor(*final(w)))),
            Err(s) => plain(section_codec::text_read(d@, old(w).pos as int, version), cursor(*old(w))) == Err::<
                (Seq<char>, Cursor),
                SectionStop,
            >(s),
        },
{
    let mut at: usize = w.pos;
    match read_string(d, &mut at, version) {
        Ok(s) => {
            w.pos = at;
            Ok(s)
        },
        Err(e) => stop(e),
    }
}

fn next_u16(d: &[u8], w: &mut Walk) -> (r: Result<u16, SectionStop>)
    requires
        old(w).pos <= d@.len(),
    ensures
        final(w).used == old(w).used,
        match r {
            Ok(x) => final(w).pos <= d@.len() && plain(
                section_codec::u16_read(d@, old(w).pos as int),
                cursor(*old(w)),
            ) == Ok::<(u16, Cursor), SectionStop>((x, cursor(*final(w)))),
            Err(s) => plain(section_codec::u16_read(d@, old(w).pos as int), cursor(*old(w))) == Err::<
                (u16, Cursor),
                SectionStop,
            >(s),
        },
{
    let mut at: usize = w.pos;
    match read_u16(d, &mut at) {
        Ok(x) => {
            w.pos = at;
            Ok(x)
        },
        Err(e) => stop(e),
    }
}

fn next_u32(d: &[u8], w: &mut Walk) -> (r: Result<u32, SectionStop>)
    requires
        old(w).pos <= d@.len(),
    ensures
        final(w).used == old(w).used,
        match r {
            Ok(x) => final(w).pos <= d@.len() && plain(
                section_codec::u32_read(d@, old(w).pos as int),
                cursor(*old(w)),
            ) == Ok::<(u32, Cursor), SectionStop>((x, cursor(*final(w)))),
            Err(s) => plain(section_codec::u32_read(d@, old(w).pos as int), cursor(*old(w))) == Err::<
                (u32, Cursor),
                SectionStop,
            >(s),
        },
{
    let mut at: usize = w.pos;
    match read_u32(d, &mut at) {
        Ok(x) => {
            w.pos = at;
            Ok(x)
        },
        Err(e) => stop(e),
    }
}

fn next_u64(d: &[u8], w: &mut Walk) -> (r: Result<u64, SectionStop>)
    requires
        old(w).pos <= d@.len(),
    ensures
        final(w).used == old(w).used,
        match r {
            Ok(x) => final(w).pos <= d@.len() && plain(
                section_codec::u64_read(d@, old(w).pos as int),
                cursor(*old(w)),
            ) == Ok::<(u64, Cursor), SectionStop>((x, cursor(*final(w)))),
            Err(s) => plain(section_codec::u64_read(d@, old(w).pos as int), cursor(*old(w))) == Err::<
                (u64, Cursor),
                SectionStop,
            >(s),
        },
{
    let mut at: usize = w.pos;
    match read_u64(d, &mut at) {
        Ok(x) => {
            w.pos = at;
            Ok(x)
        },
        Err(e) => stop(e),
    }
}

fn next_count(d: &[u8], w: &mut Walk, min_item: usize, part: SectionPart) -> (r: Result<
    u32,
    SectionStop,
>)
    requires
        old(w).pos <= d@.len(),
        1 <= min_item <= 0x1000,
    ensures
        final(w).used == old(w).used,
        match r {
            Ok(x) => final(w).pos <= d@.len() && count_read(
                d@,
                cursor(*old(w)),
                min_item as int,
                part,
            ) == Ok::<(u32, Cursor), SectionStop>((x, cursor(*final(w)))),
            Err(s) => count_read(d@, cursor(*old(w)), min_item as int, part) == Err::<
                (u32, Cursor),
                SectionStop,
            >(s),
        },
{
    let n: u32 = next_u32(d, w)?;
    assert(d@.len() == d.len());
    match checked_count_for_alloc(n, w.pos, d.len(), min_item, part) {
        Ok(_) => Ok(n),
        Err(e) => stop(e),
    }
}

fn next_table_count(d: &[u8], w: &mut Walk, min_item: usize, part: SectionPart) -> (r: Result<
    u32,
    SectionStop,
>)
    requires
        old(w).pos <= d@.len(),
        1 <= min_item <= 0x1000,
    ensures
        final(w).used == old(w).used,
        match r {
            Ok(x) => final(w).pos <= d@.len() && table_count_read(
                d@,
                cursor(*old(w)),
                min_item as int,
                part,
            ) == Ok::<(u32, Cursor), SectionStop>((x, cursor(*final(w)))),
            Err(s) => table_count_read(d@, cursor(*old(w)), min_item as int, part) == Err::<
                (u32, Cursor),
                SectionStop,
            >(s),
        },
{
    let mut ahead = Walk { pos: w.pos, used: w.used };
    let n: u32 = next_u32(d, &mut ahead)?;
    if n > 0xffff {
        return stop(SectionError::TableCount { part, count: n });
    }
    next_count(d, w, min_item, part)
}

fn next_zone(d: &[u8], version: u8, w: &mut Walk) -> (r: Result<Option<ZoneMap>, SectionStop>)
    requires
        old(w).pos <= d@.len(),
    ensures
        final(w).used == old(w).used,
        match r {
            Ok(x) => final(w).pos <= d@.len() && zone_option_read(d@, version, cursor(*old(w)))
                == Ok::<(Option<ZoneView>, Cursor), SectionStop>(
                (section_frame::optional_zone(x), cursor(*final(w))),
            ),
            Err(s) => zone_option_read(d@, version, cursor(*old(w))) == Err::<
                (Option<ZoneView>, Cursor),
                SectionStop,
            >(s),
        },
{
    assert(d@.len() == d.len());
    if w.pos >= d.len() {
        return stop(SectionError::TruncatedZoneFlag);
    }
    let flag: u8 = d[w.pos];
    let mut at: usize = w.pos + 1;
    if flag == 1 {
        match read_zone_map(d, &mut at, version) {
            Ok(z) => {
                proof {
                    lemma_zone_read_inside(d@, w.pos + 1, version);
                }
                w.pos = at;
                Ok(Some(z))
            },
            Err(e) => stop(e),
        }
    } else {
        w.pos = at;
        Ok(None)
    }
}

proof fn lemma_zone_read_inside(d: Seq<u8>, pos: int, version: u8)
    requires
        0 <= pos <= d.len(),
    ensures
        section_codec::zone_read(d, pos, version) matches Ok((_, p)) ==> p <= d.len(),
{
}

/// Reads a column.
fn next_column(data: &Bytes, d: &[u8], version: u8, bl: &[BlockExtent], w: &mut Walk) -> (r: Result<
    SectionColumn,
    SectionStop,
>)
    requires
        d@ == outside::bytes_content(*data),
        walk_inside(d@, bl@, *old(w)),
    ensures
        match r {
            Ok(x) => walk_inside(d@, bl@, *final(w)) && column_read(
                d@,
                version,
                bl@,
                cursor(*old(w)),
            ) == Ok::<(SectionColumnView, Cursor), SectionStop>((x@, cursor(*final(w)))),
            Err(s) => column_read(d@, version, bl@, cursor(*old(w))) == Err::<
                (SectionColumnView, Cursor),
                SectionStop,
            >(s),
        },
{
    let key: String = next_text(d, version, w)?;
    let zone: Option<ZoneMap> = next_zone(d, version, w)?;
    let (body, _) = next_block(data, bl, w, BlockKind::Column)?;
    Ok(SectionColumn { key, zone, body })
}

/// Reads a node table.
fn next_node_table(data: &Bytes, d: &[u8], version: u8, bl: &[BlockExtent], w: &mut Walk) -> (r:
    Result<SectionNodeTable, SectionStop>)
    requires
        d@ == outside::bytes_content(*data),
        walk_inside(d@, bl@, *old(w)),
    ensures
        match r {
            Ok(x) => walk_inside(d@, bl@, *final(w)) && node_read(
                d@,
                version,
                bl@,
                cursor(*old(w)),
            ) == Ok::<(SectionNodeView, Cursor), SectionStop>((x@, cursor(*final(w)))),
            Err(s) => node_read(d@, version, bl@, cursor(*old(w))) == Err::<
                (SectionNodeView, Cursor),
                SectionStop,
            >(s),
        },
{
    let ghost c0 = cursor(*w);
    let ghost f = column_reader(d@, version, bl@);
    let label: String = next_text(d, version, w)?;
    let rows: u32 = next_u32(d, w)?;
    let n: u32 = next_count(
        d,
        w,
        min_column_entry_wire_bytes(version),
        SectionPart::NodeColumns,
    )?;
    let ghost c3 = cursor(*w);
    let mut columns: Vec<SectionColumn> = Vec::new();
    assert(section_frame::section_columns(columns@) =~= Seq::<SectionColumnView>::empty());
    let ghost all = repeat(f, c3, n as int);
    assert(all is Err ==> node_read(d@, version, bl@, c0) == Err::<
        (SectionNodeView, Cursor),
        SectionStop,
    >(all->Err_0));
    let mut i: u32 = 0;
    while i < n
        invariant
            i <= n,
            d@ == outside::bytes_content(*data),
            walk_inside(d@, bl@, *w),
            f == column_reader(d@, version, bl@),
            c0 == cursor(*old(w)),
            all == repeat(f, c3, n as int),
            all is Err ==> node_read(d@, version, bl@, c0) == Err::<
                (SectionNodeView, Cursor),
                SectionStop,
            >(all->Err_0),
            repeat(f, c3, i as int) == Ok::<(Seq<SectionColumnView>, Cursor), SectionStop>(
                (section_frame::section_columns(columns@), cursor(*w)),
            ),
        decreases n - i,
    {
        proof {
            if repeat(f, c3, i + 1) is Err {
                lemma_repeat_fail(f, c3, i + 1, n as int);
            }
        }
        let c: SectionColumn = next_column(data, d, version, bl, w)?;
        let ghost before = section_frame::section_columns(columns@);
        columns.push(c);
        assert(section_frame::section_columns(columns@) =~= before.push(c@));
        i = i + 1;
    }
    Ok(SectionNodeTable { label, rows, columns })
}

fn next_property(data: &Bytes, d: &[u8], version: u8, bl: &[BlockExtent], w: &mut Walk) -> (r:
    Result<SectionProperty, SectionStop>)
    requires
        d@ == outside::bytes_content(*data),
        walk_inside(d@, bl@, *old(w)),
    ensures
        match r {
            Ok(x) => walk_inside(d@, bl@, *final(w)) && property_read(
                d@,
                version,
                bl@,
                cursor(*old(w)),
            ) == Ok::<(SectionPropertyView, Cursor), SectionStop>((x@, cursor(*final(w)))),
            Err(s) => property_read(d@, version, bl@, cursor(*old(w))) == Err::<
                (SectionPropertyView, Cursor),
                SectionStop,
            >(s),
        },
{
    let key: String = next_text(d, version, w)?;
    let (body, _) = next_block(data, bl, w, BlockKind::Property)?;
    Ok(SectionProperty { key, body })
}

fn next_reverse(data: &Bytes, d: &[u8], bl: &[BlockExtent], w: &mut Walk) -> (r: Result<
    Option<Bytes>,
    SectionStop,
>)
    requires
        d@ == outside::bytes_content(*data),
        walk_inside(d@, bl@, *old(w)),
    ensures
        match r {
            Ok(x) => walk_inside(d@, bl@, *final(w)) && reverse_read(d@, bl@, cursor(*old(w)))
                == Ok::<(Option<Seq<u8>>, Cursor), SectionStop>(
                (section_frame::optional_content(x), cursor(*final(w))),
            ),
            Err(s) => reverse_read(d@, bl@, cursor(*old(w))) == Err::<
                (Option<Seq<u8>>, Cursor),
                SectionStop,
            >(s),
        },
{
    assert(d@.len() == d.len());
    if w.pos >= d.len() {
        return stop(SectionError::TruncatedReverseFlag);
    }
    let flag: u8 = d[w.pos];
    w.pos = w.pos + 1;
    if flag == 1 {
        let (body, _) = next_block(data, bl, w, BlockKind::Reverse)?;
        Ok(Some(body))
    } else {
        Ok(None)
    }
}

/// Reads a relationship table.
fn next_rel_table(data: &Bytes, d: &[u8], version: u8, bl: &[BlockExtent], w: &mut Walk) -> (r:
    Result<SectionRelTable, SectionStop>)
    requires
        d@ == outside::bytes_content(*data),
        walk_inside(d@, bl@, *old(w)),
    ensures
        match r {
            Ok(x) => walk_inside(d@, bl@, *final(w)) && rel_read(d@, version, bl@, cursor(*old(w)))
                == Ok::<(SectionRelView, Cursor), SectionStop>((x@, cursor(*final(w)))),
            Err(s) => rel_read(d@, version, bl@, cursor(*old(w))) == Err::<
                (SectionRelView, Cursor),
                SectionStop,
            >(s),
        },
{
    let ghost c0 = cursor(*w);
    let ghost f = property_reader(d@, version, bl@);
    let edge_type: String = next_text(d, version, w)?;
    let src: u16 = next_u16(d, w)?;
    let dst: u16 = next_u16(d, w)?;
    let (fwd, edges) = next_block(data, bl, w, BlockKind::Forward)?;
    let bwd: Option<Bytes> = next_reverse(data, d, bl, w)?;
    let n: u32 = next_count(
        d,
        w,
        min_column_entry_wire_bytes(version),
        SectionPart::RelProperties,
    )?;
    let ghost c2 = cursor(*w);
    let mut properties: Vec<SectionProperty> = Vec::new();
    assert(section_frame::section_properties(properties@) =~= Seq::<SectionPropertyView>::empty());
    let ghost all = repeat(f, c2, n as int);
    assert(all is Err ==> rel_read(d@, version, bl@, c0) == Err::<
        (SectionRelView, Cursor),
        SectionStop,
    >(all->Err_0));
    let mut i: u32 = 0;
    while i < n
        invariant
            i <= n,
            d@ == outside::bytes_content(*data),
            walk_inside(d@, bl@, *w),
            f == property_reader(d@, version, bl@),
            c0 == cursor(*old(w)),
            all == repeat(f, c2, n as int),
            all is Err ==> rel_read(d@, version, bl@, c0) == Err::<
                (SectionRelView, Cursor),
                SectionStop,
            >(all->Err_0),
            repeat(f, c2, i as int) == Ok::<(Seq<SectionPropertyView>, Cursor), SectionStop>(
                (section_frame::section_properties(properties@), cursor(*w)),
            ),
        decreases n - i,
    {
        proof {
            if repeat(f, c2, i + 1) is Err {
                lemma_repeat_fail(f, c2, i + 1, n as int);
            }
        }
        let p: SectionProperty = next_property(data, d, version, bl, w)?;
        let ghost before = section_frame::section_properties(properties@);
        properties.push(p);
        assert(section_frame::section_properties(properties@) =~= before.push(p@));
        i = i + 1;
    }
    Ok(SectionRelTable { edge_type, src, dst, fwd, edges, bwd, properties })
}

fn next_id_entry(d: &[u8], part: SectionPart, lens: &Vec<usize>, w: &mut Walk) -> (r: Result<
    LookupEntry,
    SectionStop,
>)
    requires
        old(w).pos <= d@.len(),
    ensures
        final(w).used == old(w).used,
        match r {
            Ok(x) => final(w).pos <= d@.len() && id_entry_read(d@, part, lens@, cursor(*old(w)))
                == Ok::<(LookupEntry, Cursor), SectionStop>((x, cursor(*final(w)))),
            Err(s) => id_entry_read(d@, part, lens@, cursor(*old(w))) == Err::<
                (LookupEntry, Cursor),
                SectionStop,
            >(s),
        },
{
    let id: u64 = next_u64(d, w)?;
    let table: u16 = next_u16(d, w)?;
    let offset: u64 = next_u64(d, w)?;
    let at: usize = table as usize;
    assert(lens@.len() == lens.len());
    if at >= lens.len() {
        return stop(SectionError::UnknownTable { part, table, tables: lens.len() });
    }
    if offset >= lens[at] as u64 {
        return stop(SectionError::OffsetBeyondTable { part, offset, table, len: lens[at] });
    }
    Ok((id, table, offset))
}

/// Reads an identifier map.
fn next_id_map(d: &[u8], part: SectionPart, lens: &Vec<usize>, w: &mut Walk) -> (r: Result<
    Vec<LookupEntry>,
    SectionStop,
>)
    requires
        old(w).pos <= d@.len(),
    ensures
        final(w).used == old(w).used,
        match r {
            Ok(x) => final(w).pos <= d@.len() && id_map_read(d@, part, lens@, cursor(*old(w)))
                == Ok::<(Seq<LookupEntry>, Cursor), SectionStop>((x@, cursor(*final(w)))),
            Err(s) => id_map_read(d@, part, lens@, cursor(*old(w))) == Err::<
                (Seq<LookupEntry>, Cursor),
                SectionStop,
            >(s),
        },
{
    let ghost f = id_entry_reader(d@, part, lens@);
    let ghost used = w.used;
    let n: u32 = next_count(d, w, ID_MAP_ENTRY_WIRE_BYTES, part)?;
    let ghost c1 = cursor(*w);
    let ghost c0 = cursor(*old(w));
    assert(id_map_read(d@, part, lens@, c0) == repeat(f, c1, n as int));
    let mut out: Vec<LookupEntry> = Vec::new();
    let mut i: u32 = 0;
    while i < n
        invariant
            i <= n,
            w.pos <= d@.len(),
            w.used == used,
            used == old(w).used,
            c0 == cursor(*old(w)),
            f == id_entry_reader(d@, part, lens@),
            id_map_read(d@, part, lens@, c0) == repeat(f, c1, n as int),
            repeat(f, c1, i as int) == Ok::<(Seq<LookupEntry>, Cursor), SectionStop>(
                (out@, cursor(*w)),
            ),
        decreases n - i,
    {
        proof {
            if repeat(f, c1, i + 1) is Err {
                lemma_repeat_fail(f, c1, i + 1, n as int);
            }
        }
        let e: LookupEntry = next_id_entry(d, part, lens, w)?;
        out.push(e);
        i = i + 1;
    }
    Ok(out)
}

fn read_nodes(data: &Bytes, d: &[u8], version: u8, bl: &[BlockExtent], w: &mut Walk) -> (r: Result<
    Vec<SectionNodeTable>,
    SectionStop,
>)
    requires
        d@ == outside::bytes_content(*data),
        walk_inside(d@, bl@, *old(w)),
        cursor(*old(w)) == (Cursor { pos: 6, used: 0 }),
    ensures
        match r {
            Ok(x) => walk_inside(d@, bl@, *final(w)) && nodes_read(d@, version, bl@) == Ok::<
                (Seq<SectionNodeView>, Cursor),
                SectionStop,
            >((section_frame::section_nodes(x@), cursor(*final(w)))),
            Err(s) => nodes_read(d@, version, bl@) == Err::<
                (Seq<SectionNodeView>, Cursor),
                SectionStop,
            >(s),
        },
{
    let ghost f = node_reader(d@, version, bl@);
    let n: u32 = next_table_count(
        d,
        w,
        min_node_table_wire_bytes(version),
        SectionPart::NodeTables,
    )?;
    let ghost c1 = cursor(*w);
    assert(nodes_read(d@, version, bl@) == repeat(f, c1, n as int));
    let mut out: Vec<SectionNodeTable> = Vec::new();
    assert(section_frame::section_nodes(out@) =~= Seq::<SectionNodeView>::empty());
    let mut i: u32 = 0;
    while i < n
        invariant
            i <= n,
            d@ == outside::bytes_content(*data),
            walk_inside(d@, bl@, *w),
            f == node_reader(d@, version, bl@),
            nodes_read(d@, version, bl@) == repeat(f, c1, n as int),
            repeat(f, c1, i as int) == Ok::<(Seq<SectionNodeView>, Cursor), SectionStop>(
                (section_frame::section_nodes(out@), cursor(*w)),
            ),
        decreases n - i,
    {
        proof {
            if repeat(f, c1, i + 1) is Err {
                lemma_repeat_fail(f, c1, i + 1, n as int);
            }
        }
        let t: SectionNodeTable = next_node_table(data, d, version, bl, w)?;
        let ghost before = section_frame::section_nodes(out@);
        out.push(t);
        assert(section_frame::section_nodes(out@) =~= before.push(t@));
        i = i + 1;
    }
    Ok(out)
}

fn read_rels(data: &Bytes, d: &[u8], version: u8, bl: &[BlockExtent], w: &mut Walk) -> (r: Result<
    Vec<SectionRelTable>,
    SectionStop,
>)
    requires
        d@ == outside::bytes_content(*data),
        walk_inside(d@, bl@, *old(w)),
    ensures
        match r {
            Ok(x) => walk_inside(d@, bl@, *final(w)) && rels_read(
                d@,
                version,
                bl@,
                cursor(*old(w)),
            ) == Ok::<(Seq<SectionRelView>, Cursor), SectionStop>(
                (section_frame::section_rels(x@), cursor(*final(w))),
            ),
            Err(s) => rels_read(d@, version, bl@, cursor(*old(w))) == Err::<
                (Seq<SectionRelView>, Cursor),
                SectionStop,
            >(s),
        },
{
    let ghost f = rel_reader(d@, version, bl@);
    let ghost c0 = cursor(*w);
    let n: u32 = next_table_count(
        d,
        w,
        min_rel_table_wire_bytes(version),
        SectionPart::RelTables,
    )?;
    let ghost c1 = cursor(*w);
    assert(rels_read(d@, version, bl@, c0) == repeat(f, c1, n as int));
    let mut out: Vec<SectionRelTable> = Vec::new();
    assert(section_frame::section_rels(out@) =~= Seq::<SectionRelView>::empty());
    let mut i: u32 = 0;
    while i < n
        invariant
            i <= n,
            d@ == outside::bytes_content(*data),
            walk_inside(d@, bl@, *w),
            f == rel_reader(d@, version, bl@),
            c0 == cursor(*old(w)),
            rels_read(d@, version, bl@, c0) == repeat(f, c1, n as int),
            repeat(f, c1, i as int) == Ok::<(Seq<SectionRelView>, Cursor), SectionStop>(
                (section_frame::section_rels(out@), cursor(*w)),
            ),
        decreases n - i,
    {
        proof {
            if repeat(f, c1, i + 1) is Err {
                lemma_repeat_fail(f, c1, i + 1, n as int);
            }
        }
        let t: SectionRelTable = next_rel_table(data, d, version, bl, w)?;
        let ghost before = section_frame::section_rels(out@);
        out.push(t);
        assert(section_frame::section_rels(out@) =~= before.push(t@));
        i = i + 1;
    }
    Ok(out)
}

fn lens_of_nodes(v: &Vec<SectionNodeTable>) -> (r: Vec<usize>)
    ensures
        r@ == node_lens(section_frame::section_nodes(v@)),
{
    let mut out: Vec<usize> = Vec::new();
    let mut i: usize = 0;
    while i < v.len()
        invariant
            i <= v@.len(),
            out@ == node_lens(section_frame::section_nodes(v@)).take(i as int),
        decreases v@.len() - i,
    {
        out.push(v[i].rows as usize);
        i = i + 1;
        assert(out@ =~= node_lens(section_frame::section_nodes(v@)).take(i as int));
    }
    assert(node_lens(section_frame::section_nodes(v@)).take(i as int) =~= node_lens(section_frame::section_nodes(v@)));
    out
}

fn lens_of_rels(v: &Vec<SectionRelTable>) -> (r: Vec<usize>)
    ensures
        r@ == rel_lens(section_frame::section_rels(v@)),
{
    let mut out: Vec<usize> = Vec::new();
    let mut i: usize = 0;
    while i < v.len()
        invariant
            i <= v@.len(),
            out@ == rel_lens(section_frame::section_rels(v@)).take(i as int),
        decreases v@.len() - i,
    {
        out.push(v[i].edges);
        i = i + 1;
        assert(out@ =~= rel_lens(section_frame::section_rels(v@)).take(i as int));
    }
    assert(rel_lens(section_frame::section_rels(v@)).take(i as int) =~= rel_lens(section_frame::section_rels(v@)));
    out
}

/// An accepted section: its checksum, magic and version have been checked.
#[derive(Debug)]
pub struct OpenSection {
    data: Bytes,
    version: u8,
    preserves: bool,
}

impl OpenSection {
    #[verifier::type_invariant]
    spec fn inv(&self) -> bool {
        section_opened(outside::bytes_content(self.data)) == Ok::<(u8, bool), SectionError>(
            (self.version, self.preserves),
        )
    }

    /// The bytes of the section.
    pub closed spec fn raw(&self) -> Seq<u8> {
        outside::bytes_content(self.data)
    }

    /// Checks the checksum, the magic and the version of a section.
    pub fn open(data: &Bytes) -> (r: Result<Self, SectionError>)
        ensures
            match r {
                Ok(s) => section_opened(outside::bytes_content(*data)) is Ok && s.raw() == outside::bytes_content(
                    *data,
                ),
                Err(e) => section_opened(outside::bytes_content(*data)) == Err::<(u8, bool), SectionError>(
                    e,
                ),
            },
    {
        let d: &[u8] = bytes_as_slice(data);
        assert(d@.len() == d.len());
        if d.len() < 10 {
            return Err(SectionError::TooShort);
        }
        let stored: u32 = load_u32(d, d.len() - 4);
        let computed: u32 = crc32(vstd::slice::slice_subrange(d, 0, d.len() - 4));
        if stored != computed {
            return Err(SectionError::Crc { stored, computed });
        }
        if load_u32(d, 0) != SECTION_MAGIC {
            return Err(SectionError::BadMagic);
        }
        let version: u8 = d[4];
        if !is_known_version(version) {
            return Err(SectionError::UnsupportedVersion(version));
        }
        let preserves: bool = d[5] % 2 == 1;
        Ok(OpenSection { data: data.clone(), version, preserves })
    }

    /// The version of the section: it says how its blocks are encoded.
    pub fn version(&self) -> (r: u8)
        ensures
            section_opened(self.raw()) is Ok,
            r == section_opened(self.raw())->Ok_0.0,
    {
        proof {
            use_type_invariant(self);
        }
        self.version
    }

    /// Reads the frame against the blocks decoded so far.
    pub fn read(&self, blocks: &[BlockExtent]) -> (r: Result<SectionFrame, SectionStop>)
        ensures
            match r {
                Ok(f) => section_read(self.raw(), blocks@) == Ok::<SectionView, SectionStop>(f@),
                Err(s) => section_read(self.raw(), blocks@) == Err::<SectionView, SectionStop>(s),
            },
    {
        proof {
            use_type_invariant(self);
        }
        let d: &[u8] = bytes_as_slice(&self.data);
        let mut w = Walk { pos: 6, used: 0 };
        let nodes: Vec<SectionNodeTable> = read_nodes(
            &self.data,
            d,
            self.version,
            blocks,
            &mut w,
        )?;
        let rels: Vec<SectionRelTable> = read_rels(&self.data, d, self.version, blocks, &mut w)?;
        if !self.preserves {
            return Ok(SectionFrame { nodes, rels, ids: None });
        }
        let node_map: Vec<LookupEntry> = next_id_map(
            d,
            SectionPart::NodeIdMap,
            &lens_of_nodes(&nodes),
            &mut w,
        )?;
        let edge_map: Vec<LookupEntry> = next_id_map(
            d,
            SectionPart::EdgeIdMap,
            &lens_of_rels(&rels),
            &mut w,
        )?;
        Ok(SectionFrame { nodes, rels, ids: Some(SectionIds { nodes: node_map, edges: edge_map }) })
    }
}

/// Opens a section and reads its frame against the blocks decoded so far.
pub fn deserialize_compact_store(data: &Bytes, blocks: &[BlockExtent]) -> (r: Result<SectionFrame, SectionStop>)
    ensures
        match r {
            Ok(f) => section_read(outside::bytes_content(*data), blocks@) == Ok::<SectionView, SectionStop>(
                f@,
            ),
            Err(s) => section_read(outside::bytes_content(*data), blocks@) == Err::<
                SectionView,
                SectionStop,
            >(s),
        },
{
    match OpenSection::open(data) {
        Ok(s) => s.read(blocks),
        Err(e) => stop(e),
    }
}

} // verus!
