//! The frame of a `GCST` section: tables, keys, zone maps and identifier maps
//! around encoded columns and adjacencies, whose bytes the frame carries
//! unread. Writing it.

use crate::id_lookup::LookupEntry;
use crate::outside::{bytes_as_slice, crc32};
use crate::outside;
use crate::section_codec::{SECTION_MAGIC, SectionError, is_known_version, write_string, write_zone_map};
use crate::section_codec;
use crate::text;
use crate::value::{ZoneMap, ZoneView};
use crate::wire::{push_bytes, push_u16, push_u32, push_u64};
use crate::wire;
use bytes::Bytes;
use vstd::prelude::*;

verus! {

broadcast use wire::group_wire;

/// A column of a node table: its key, its zone map and its encoded bytes.
#[derive(Debug)]
pub struct SectionColumn {
    /// Key.
    pub key: String,
    /// Zone map, if any.
    pub zone: Option<ZoneMap>,
    /// Encoded bytes.
    pub body: Bytes,
}

/// A column of a node table, as a value.
pub struct SectionColumnView {
    /// Key.
    pub key: Seq<char>,
    /// Zone map, if any.
    pub zone: Option<ZoneView>,
    /// Encoded bytes.
    pub body: Seq<u8>,
}

/// What an optional zone map says.
pub open spec fn optional_zone(z: Option<ZoneMap>) -> Option<ZoneView> {
    match z {
        Some(x) => Some(x@),
        None => None,
    }
}

impl View for SectionColumn {
    type V = SectionColumnView;

    open spec fn view(&self) -> SectionColumnView {
        SectionColumnView {
            key: self.key@,
            zone: optional_zone(self.zone),
            body: outside::bytes_content(self.body),
        }
    }
}

/// A node table.
#[derive(Debug)]
pub struct SectionNodeTable {
    /// Label.
    pub label: String,
    /// Number of rows.
    pub rows: u32,
    /// Columns.
    pub columns: Vec<SectionColumn>,
}

/// A node table, as a value.
pub struct SectionNodeView {
    /// Label.
    pub label: Seq<char>,
    /// Number of rows.
    pub rows: u32,
    /// Columns.
    pub columns: Seq<SectionColumnView>,
}

/// Columns as values.
pub open spec fn section_columns(v: Seq<SectionColumn>) -> Seq<SectionColumnView> {
    Seq::new(v.len(), |i: int| v[i]@)
}

impl View for SectionNodeTable {
    type V = SectionNodeView;

    open spec fn view(&self) -> SectionNodeView {
        SectionNodeView {
            label: self.label@,
            rows: self.rows,
            columns: section_columns(self.columns@),
        }
    }
}

/// A property of a relationship table: its key and its encoded bytes.
#[derive(Debug)]
pub struct SectionProperty {
    /// Key.
    pub key: String,
    /// Encoded bytes.
    pub body: Bytes,
}

/// A property of a relationship table, as a value.
pub struct SectionPropertyView {
    /// Key.
    pub key: Seq<char>,
    /// Encoded bytes.
    pub body: Seq<u8>,
}

impl View for SectionProperty {
    type V = SectionPropertyView;

    open spec fn view(&self) -> SectionPropertyView {
        SectionPropertyView { key: self.key@, body: outside::bytes_content(self.body) }
    }
}

/// A relationship table.
#[derive(Debug)]
pub struct SectionRelTable {
    /// Edge type.
    pub edge_type: String,
    /// Node table of the sources.
    pub src: u16,
    /// Node table of the destinations.
    pub dst: u16,
    /// Encoded adjacency by source.
    pub fwd: Bytes,
    /// Edges of that adjacency.
    pub edges: usize,
    /// Encoded adjacency by destination, if any.
    pub bwd: Option<Bytes>,
    /// Properties.
    pub properties: Vec<SectionProperty>,
}

/// A relationship table, as a value.
pub struct SectionRelView {
    /// Edge type.
    pub edge_type: Seq<char>,
    /// Node table of the sources.
    pub src: u16,
    /// Node table of the destinations.
    pub dst: u16,
    /// Encoded adjacency by source.
    pub fwd: Seq<u8>,
    /// Edges of that adjacency.
    pub edges: usize,
    /// Encoded adjacency by destination, if any.
    pub bwd: Option<Seq<u8>>,
    /// Properties.
    pub properties: Seq<SectionPropertyView>,
}

/// Properties as values.
pub open spec fn section_properties(v: Seq<SectionProperty>) -> Seq<SectionPropertyView> {
    Seq::new(v.len(), |i: int| v[i]@)
}

/// What an optional buffer holds.
pub open spec fn optional_content(b: Option<Bytes>) -> Option<Seq<u8>> {
    match b {
        Some(x) => Some(outside::bytes_content(x)),
        None => None,
    }
}

impl View for SectionRelTable {
    type V = SectionRelView;

    open spec fn view(&self) -> SectionRelView {
        SectionRelView {
            edge_type: self.edge_type@,
            src: self.src,
            dst: self.dst,
            fwd: outside::bytes_content(self.fwd),
            edges: self.edges,
            bwd: optional_content(self.bwd),
            properties: section_properties(self.properties@),
        }
    }
}

/// The identifier maps.
#[derive(Debug)]
pub struct SectionIds {
    /// Node identifier, table and row.
    pub nodes: Vec<LookupEntry>,
    /// Edge identifier, table and position.
    pub edges: Vec<LookupEntry>,
}

/// The identifier maps, as values.
pub struct SectionIdsView {
    /// Node identifier, table and row.
    pub nodes: Seq<LookupEntry>,
    /// Edge identifier, table and position.
    pub edges: Seq<LookupEntry>,
}

impl View for SectionIds {
    type V = SectionIdsView;

    open spec fn view(&self) -> SectionIdsView {
        SectionIdsView { nodes: self.nodes@, edges: self.edges@ }
    }
}

/// The frame of a section.
#[derive(Debug)]
pub struct SectionFrame {
    /// Node tables.
    pub nodes: Vec<SectionNodeTable>,
    /// Relationship tables.
    pub rels: Vec<SectionRelTable>,
    /// Identifier maps, if the store keeps identifiers.
    pub ids: Option<SectionIds>,
}

/// The frame of a section, as a value.
pub struct SectionView {
    /// Node tables.
    pub nodes: Seq<SectionNodeView>,
    /// Relationship tables.
    pub rels: Seq<SectionRelView>,
    /// Identifier maps, if the store keeps identifiers.
    pub ids: Option<SectionIdsView>,
}

/// Node tables as values.
pub open spec fn section_nodes(v: Seq<SectionNodeTable>) -> Seq<SectionNodeView> {
    Seq::new(v.len(), |i: int| v[i]@)
}

/// Relationship tables as values.
pub open spec fn section_rels(v: Seq<SectionRelTable>) -> Seq<SectionRelView> {
    Seq::new(v.len(), |i: int| v[i]@)
}

/// What optional identifier maps hold.
pub open spec fn optional_ids(v: Option<SectionIds>) -> Option<SectionIdsView> {
    match v {
        Some(x) => Some(x@),
        None => None,
    }
}

impl View for SectionFrame {
    type V = SectionView;

    open spec fn view(&self) -> SectionView {
        SectionView {
            nodes: section_nodes(self.nodes@),
            rels: section_rels(self.rels@),
            ids: optional_ids(self.ids),
        }
    }
}

/// Bytes, or the first error on the way to them.
pub type Image = Result<Seq<u8>, SectionError>;

/// The images of the first `n` items, one behind the other; the first error
/// ends it.
pub open spec fn joined<T>(items: Seq<T>, f: spec_fn(int, T) -> Image, n: int) -> Image
    decreases n,
{
    if n <= 0 {
        Ok(Seq::empty())
    } else {
        match joined(items, f, n - 1) {
            Err(e) => Err(e),
            Ok(a) => match f(n - 1, items[n - 1]) {
                Err(e) => Err(e),
                Ok(b) => Ok(a + b),
            },
        }
    }
}

/// The error of the first items is the error of all.
pub proof fn lemma_joined_fail<T>(items: Seq<T>, f: spec_fn(int, T) -> Image, k: int, n: int)
    requires
        k <= n,
        joined(items, f, k) is Err,
    ensures
        joined(items, f, n) == joined(items, f, k),
    decreases n,
{
    if k < n {
        lemma_joined_fail(items, f, k, n - 1);
    }
}

/// The image of a text.
pub open spec fn text_image(s: Seq<char>, version: u8) -> Image {
    match section_codec::length_fault(text::utf8(s).len() as int, version) {
        Some(e) => Err(e),
        None => Ok(section_codec::section_text(s, version)),
    }
}

/// The image of an optional zone map: a flag, then the zone map.
pub open spec fn zone_image(z: Option<ZoneView>, version: u8, table: usize, column: usize) -> Image {
    match z {
        None => Ok(seq![0u8]),
        Some(x) => match section_codec::zone_fault(x, version, table, column) {
            Some(e) => Err(e),
            None => Ok(seq![1u8] + section_codec::zone_bytes(x, version)),
        },
    }
}

/// The image of a column.
pub open spec fn column_image(c: SectionColumnView, version: u8, table: usize, column: usize) -> Image {
    match text_image(c.key, version) {
        Err(e) => Err(e),
        Ok(key) => match zone_image(c.zone, version, table, column) {
            Err(e) => Err(e),
            Ok(zone) => Ok(key + zone + c.body),
        },
    }
}

/// The images of columns.
pub open spec fn column_imager(version: u8, table: usize) -> spec_fn(int, SectionColumnView) -> Image {
    |i: int, c: SectionColumnView| column_image(c, version, table, i as usize)
}

/// What stands in front of the columns of a node table.
pub open spec fn node_head(t: SectionNodeView, version: u8) -> Seq<u8> {
    section_codec::section_text(t.label, version) + wire::put32(t.rows) + wire::put32(t.columns.len() as u32)
}

/// The image of a node table.
pub open spec fn node_image(t: SectionNodeView, version: u8, table: usize) -> Image {
    match text_image(t.label, version) {
        Err(e) => Err(e),
        Ok(_) => match joined(t.columns, column_imager(version, table), t.columns.len() as int) {
            Err(e) => Err(e),
            Ok(cols) => Ok(node_head(t, version) + cols),
        },
    }
}

/// The images of node tables.
pub open spec fn node_imager(version: u8) -> spec_fn(int, SectionNodeView) -> Image {
    |i: int, t: SectionNodeView| node_image(t, version, i as usize)
}

/// The image of a property.
pub open spec fn property_image(p: SectionPropertyView, version: u8) -> Image {
    match text_image(p.key, version) {
        Err(e) => Err(e),
        Ok(key) => Ok(key + p.body),
    }
}

/// The images of properties.
pub open spec fn property_imager(version: u8) -> spec_fn(int, SectionPropertyView) -> Image {
    |i: int, p: SectionPropertyView| property_image(p, version)
}

/// The bytes of an optional adjacency: a flag, then the adjacency.
pub open spec fn reverse_bytes(b: Option<Seq<u8>>) -> Seq<u8> {
    match b {
        None => seq![0u8],
        Some(x) => seq![1u8] + x,
    }
}

/// What stands in front of the properties of a relationship table.
pub open spec fn rel_head(t: SectionRelView, version: u8) -> Seq<u8> {
    section_codec::section_text(t.edge_type, version) + wire::put16(t.src) + wire::put16(t.dst) + t.fwd + reverse_bytes(t.bwd)
        + wire::put32(t.properties.len() as u32)
}

/// The image of a relationship table.
pub open spec fn rel_image(t: SectionRelView, version: u8) -> Image {
    match text_image(t.edge_type, version) {
        Err(e) => Err(e),
        Ok(_) => match joined(t.properties, property_imager(version), t.properties.len() as int) {
            Err(e) => Err(e),
            Ok(props) => Ok(rel_head(t, version) + props),
        },
    }
}

/// The images of relationship tables.
pub open spec fn rel_imager(version: u8) -> spec_fn(int, SectionRelView) -> Image {
    |i: int, t: SectionRelView| rel_image(t, version)
}

/// The bytes of an identifier map entry.
pub open spec fn id_entry_bytes(e: LookupEntry) -> Seq<u8> {
    wire::put64(e.0) + wire::put16(e.1) + wire::put64(e.2)
}

/// The encoder of identifier map entries.
pub open spec fn id_entry_encoder() -> spec_fn(LookupEntry) -> Seq<u8> {
    |e: LookupEntry| id_entry_bytes(e)
}

/// The bytes of an identifier map: a count, then the entries.
pub open spec fn id_map_bytes(v: Seq<LookupEntry>) -> Seq<u8> {
    wire::put32(v.len() as u32) + wire::flat(v, id_entry_encoder())
}

/// The bytes of the optional identifier maps.
pub open spec fn ids_bytes(ids: Option<SectionIdsView>) -> Seq<u8> {
    match ids {
        None => Seq::empty(),
        Some(x) => id_map_bytes(x.nodes) + id_map_bytes(x.edges),
    }
}

/// The six bytes of the section header.
pub open spec fn section_header(version: u8, preserves: bool) -> Seq<u8> {
    wire::put32(SECTION_MAGIC) + seq![version, if preserves { 1u8 } else { 0u8 }]
}

/// A section without its checksum.
pub open spec fn section_body(s: SectionView, version: u8) -> Image {
    if !section_codec::known_version(version) {
        Err(SectionError::UnsupportedVersion(version))
    } else {
        match joined(s.nodes, node_imager(version), s.nodes.len() as int) {
            Err(e) => Err(e),
            Ok(nodes) => match joined(s.rels, rel_imager(version), s.rels.len() as int) {
                Err(e) => Err(e),
                Ok(rels) => Ok(
                    section_header(version, s.ids is Some) + wire::put32(s.nodes.len() as u32) + nodes
                        + wire::put32(s.rels.len() as u32) + rels + ids_bytes(s.ids),
                ),
            },
        }
    }
}

/// A whole section: the body and its checksum.
pub open spec fn section_image(s: SectionView, version: u8) -> Image {
    match section_body(s, version) {
        Err(e) => Err(e),
        Ok(b) => Ok(b + wire::put32(outside::crc32_of(b))),
    }
}

/// The counts of a frame fit the section's `u32` fields.
pub open spec fn section_counts_fit(s: SectionView) -> bool {
    &&& s.nodes.len() <= 0xffff_ffff
    &&& s.rels.len() <= 0xffff_ffff
    &&& forall|i: int| #![trigger s.nodes[i]] 0 <= i < s.nodes.len() ==> node_counts_fit(s.nodes[i])
    &&& forall|i: int|
        #![trigger s.rels[i]]
        0 <= i < s.rels.len() ==> s.rels[i].properties.len() <= 0xffff_ffff
    &&& s.ids matches Some(x) ==> x.nodes.len() <= 0xffff_ffff && x.edges.len() <= 0xffff_ffff
}

/// The counts of a node table fit the section's `u32` fields.
pub open spec fn node_counts_fit(t: SectionNodeView) -> bool {
    &&& t.columns.len() <= 0xffff_ffff
    &&& forall|i: int|
        #![trigger t.columns[i]]
        0 <= i < t.columns.len() ==> (t.columns[i].zone matches Some(z) ==> section_codec::zone_counts_fit(z))
}

fn write_column(
    buf: &mut Vec<u8>,
    c: &SectionColumn,
    version: u8,
    table: usize,
    column: usize,
) -> (r: Result<(), SectionError>)
    requires
        c@.zone matches Some(z) ==> section_codec::zone_counts_fit(z),
    ensures
        match r {
            Ok(_) => column_image(c@, version, table, column) is Ok && final(buf)@ == old(buf)@
                + column_image(c@, version, table, column)->Ok_0,
            Err(e) => column_image(c@, version, table, column) == Err::<Seq<u8>, SectionError>(e),
        },
{
    let ghost before = buf@;
    write_string(buf, c.key.as_str(), version)?;
    match &c.zone {
        None => {
            buf.push(0);
        },
        Some(z) => {
            buf.push(1);
            write_zone_map(buf, z, version, table, column)?;
        },
    }
    push_bytes(buf, bytes_as_slice(&c.body));
    assert(buf@ =~= before + column_image(c@, version, table, column)->Ok_0);
    Ok(())
}

fn write_node_table(buf: &mut Vec<u8>, t: &SectionNodeTable, version: u8, table: usize) -> (r:
    Result<(), SectionError>)
    requires
        node_counts_fit(t@),
    ensures
        match r {
            Ok(_) => node_image(t@, version, table) is Ok && final(buf)@ == old(buf)@ + node_image(
                t@,
                version,
                table,
            )->Ok_0,
            Err(e) => node_image(t@, version, table) == Err::<Seq<u8>, SectionError>(e),
        },
{
    let ghost before = buf@;
    let ghost f = column_imager(version, table);
    let ghost cols = t@.columns;
    write_string(buf, t.label.as_str(), version)?;
    push_u32(buf, t.rows);
    assert(t.columns@.len() == t.columns.len());
    push_u32(buf, t.columns.len() as u32);
    let ghost start = buf@;
    assert(start =~= before + node_head(t@, version));
    let mut i: usize = 0;
    assert(start =~= start + Seq::<u8>::empty());
    while i < t.columns.len()
        invariant
            i <= t.columns@.len(),
            cols == t@.columns,
            node_counts_fit(t@),
            f == column_imager(version, table),
            text_image(t@.label, version) is Ok,
            joined(cols, f, i as int) is Ok,
            buf@ == start + joined(cols, f, i as int)->Ok_0,
        decreases t.columns@.len() - i,
    {
        assert(cols[i as int] == t.columns@[i as int]@);
        proof {
            if joined(cols, f, i + 1) is Err {
                lemma_joined_fail(cols, f, i + 1, cols.len() as int);
            }
        }
        let ghost now = buf@;
        write_column(buf, &t.columns[i], version, table, i)?;
        assert(buf@ =~= start + joined(cols, f, i + 1)->Ok_0);
        i = i + 1;
    }
    assert(buf@ =~= before + node_image(t@, version, table)->Ok_0);
    Ok(())
}

fn write_property(buf: &mut Vec<u8>, p: &SectionProperty, version: u8) -> (r: Result<
    (),
    SectionError,
>)
    ensures
        match r {
            Ok(_) => property_image(p@, version) is Ok && final(buf)@ == old(buf)@
                + property_image(p@, version)->Ok_0,
            Err(e) => property_image(p@, version) == Err::<Seq<u8>, SectionError>(e),
        },
{
    let ghost before = buf@;
    write_string(buf, p.key.as_str(), version)?;
    push_bytes(buf, bytes_as_slice(&p.body));
    assert(buf@ =~= before + property_image(p@, version)->Ok_0);
    Ok(())
}

fn write_rel_table(buf: &mut Vec<u8>, t: &SectionRelTable, version: u8) -> (r: Result<
    (),
    SectionError,
>)
    requires
        t@.properties.len() <= 0xffff_ffff,
    ensures
        match r {
            Ok(_) => rel_image(t@, version) is Ok && final(buf)@ == old(buf)@ + rel_image(
                t@,
                version,
            )->Ok_0,
            Err(e) => rel_image(t@, version) == Err::<Seq<u8>, SectionError>(e),
        },
{
    let ghost before = buf@;
    let ghost f = property_imager(version);
    let ghost props = t@.properties;
    write_string(buf, t.edge_type.as_str(), version)?;
    push_u16(buf, t.src);
    push_u16(buf, t.dst);
    push_bytes(buf, bytes_as_slice(&t.fwd));
    match &t.bwd {
        None => {
            buf.push(0);
        },
        Some(b) => {
            buf.push(1);
            push_bytes(buf, bytes_as_slice(b));
        },
    }
    assert(t.properties@.len() == t.properties.len());
    push_u32(buf, t.properties.len() as u32);
    let ghost start = buf@;
    assert(start =~= before + rel_head(t@, version));
    let mut i: usize = 0;
    assert(start =~= start + Seq::<u8>::empty());
    while i < t.properties.len()
        invariant
            i <= t.properties@.len(),
            props == t@.properties,
            f == property_imager(version),
            text_image(t@.edge_type, version) is Ok,
            joined(props, f, i as int) is Ok,
            buf@ == start + joined(props, f, i as int)->Ok_0,
        decreases t.properties@.len() - i,
    {
        assert(props[i as int] == t.properties@[i as int]@);
        proof {
            if joined(props, f, i + 1) is Err {
                lemma_joined_fail(props, f, i + 1, props.len() as int);
            }
        }
        write_property(buf, &t.properties[i], version)?;
        assert(buf@ =~= start + joined(props, f, i + 1)->Ok_0);
        i = i + 1;
    }
    assert(buf@ =~= before + rel_image(t@, version)->Ok_0);
    Ok(())
}

fn write_id_map(buf: &mut Vec<u8>, v: &Vec<LookupEntry>)
    requires
        v@.len() <= 0xffff_ffff,
    ensures
        final(buf)@ == old(buf)@ + id_map_bytes(v@),
{
    let ghost before = buf@;
    assert(v@.len() == v.len());
    push_u32(buf, v.len() as u32);
    let ghost f = id_entry_encoder();
    let ghost start = buf@;
    let mut i: usize = 0;
    assert(v@.take(0) =~= Seq::<LookupEntry>::empty());
    assert(start =~= start + Seq::<u8>::empty());
    while i < v.len()
        invariant
            i <= v@.len(),
            f == id_entry_encoder(),
            buf@ == start + wire::flat(v@.take(i as int), f),
        decreases v@.len() - i,
    {
        let e: LookupEntry = v[i];
        push_u64(buf, e.0);
        push_u16(buf, e.1);
        push_u64(buf, e.2);
        assert(v@.take(i + 1) =~= v@.take(i as int).push(e));
        proof {
            wire::lemma_flat_push(v@.take(i as int), e, f);
        }
        assert(buf@ =~= start + wire::flat(v@.take(i + 1), f));
        i = i + 1;
    }
    assert(v@.take(i as int) =~= v@);
    assert(buf@ =~= before + id_map_bytes(v@));
}

/// Appends the identifier maps, where there are any, and the checksum of
/// everything so far.
pub fn append_id_maps_and_crc(buf: Vec<u8>, ids: &Option<SectionIds>) -> (r: Vec<u8>)
    requires
        ids matches Some(x) ==> x@.nodes.len() <= 0xffff_ffff && x@.edges.len() <= 0xffff_ffff,
    ensures
        r@ == buf@ + ids_bytes(optional_ids(*ids)) + wire::put32(
            outside::crc32_of(buf@ + ids_bytes(optional_ids(*ids))),
        ),
{
    let mut buf = buf;
    let ghost before = buf@;
    match ids {
        None => {},
        Some(x) => {
            write_id_map(&mut buf, &x.nodes);
            write_id_map(&mut buf, &x.edges);
        },
    }
    assert(buf@ =~= before + ids_bytes(optional_ids(*ids)));
    let crc: u32 = crc32(buf.as_slice());
    push_u32(&mut buf, crc);
    buf
}

fn write_tables(buf: &mut Vec<u8>, s: &SectionFrame, version: u8) -> (r: Result<(), SectionError>)
    requires
        section_counts_fit(s@),
    ensures
        match r {
            Ok(_) => {
                let nodes = joined(s@.nodes, node_imager(version), s@.nodes.len() as int);
                let rels = joined(s@.rels, rel_imager(version), s@.rels.len() as int);
                &&& nodes is Ok
                &&& rels is Ok
                &&& final(buf)@ == old(buf)@ + wire::put32(s@.nodes.len() as u32) + nodes->Ok_0 + wire::put32(
                    s@.rels.len() as u32,
                ) + rels->Ok_0
            },
            Err(e) => {
                let nodes = joined(s@.nodes, node_imager(version), s@.nodes.len() as int);
                let rels = joined(s@.rels, rel_imager(version), s@.rels.len() as int);
                ||| nodes == Err::<Seq<u8>, SectionError>(e)
                ||| nodes is Ok && rels == Err::<Seq<u8>, SectionError>(e)
            },
        },
{
    let ghost f = node_imager(version);
    let ghost g = rel_imager(version);
    let ghost nodes = s@.nodes;
    let ghost rels = s@.rels;
    assert(s.nodes@.len() == s.nodes.len() && s.rels@.len() == s.rels.len());
    push_u32(buf, s.nodes.len() as u32);
    let ghost start = buf@;
    let mut i: usize = 0;
    assert(start =~= start + Seq::<u8>::empty());
    while i < s.nodes.len()
        invariant
            i <= s.nodes@.len(),
            section_counts_fit(s@),
            nodes == s@.nodes,
            f == node_imager(version),
            joined(nodes, f, i as int) is Ok,
            buf@ == start + joined(nodes, f, i as int)->Ok_0,
        decreases s.nodes@.len() - i,
    {
        assert(nodes[i as int] == s.nodes@[i as int]@);
        proof {
            if joined(nodes, f, i + 1) is Err {
                lemma_joined_fail(nodes, f, i + 1, nodes.len() as int);
            }
        }
        write_node_table(buf, &s.nodes[i], version, i)?;
        assert(buf@ =~= start + joined(nodes, f, i + 1)->Ok_0);
        i = i + 1;
    }
    push_u32(buf, s.rels.len() as u32);
    let ghost middle = buf@;
    let mut k: usize = 0;
    assert(middle =~= middle + Seq::<u8>::empty());
    while k < s.rels.len()
        invariant
            k <= s.rels@.len(),
            section_counts_fit(s@),
            nodes == s@.nodes,
            rels == s@.rels,
            f == node_imager(version),
            g == rel_imager(version),
            joined(nodes, f, nodes.len() as int) is Ok,
            joined(rels, g, k as int) is Ok,
            buf@ == middle + joined(rels, g, k as int)->Ok_0,
        decreases s.rels@.len() - k,
    {
        assert(rels[k as int] == s.rels@[k as int]@);
        proof {
            if joined(rels, g, k + 1) is Err {
                lemma_joined_fail(rels, g, k + 1, rels.len() as int);
            }
        }
        write_rel_table(buf, &s.rels[k], version)?;
        assert(buf@ =~= middle + joined(rels, g, k + 1)->Ok_0);
        k = k + 1;
    }
    Ok(())
}

/// The bytes of a frame as a section of the given version.
pub fn serialize_with_version(s: &SectionFrame, version: u8) -> (r: Result<Vec<u8>, SectionError>)
    requires
        section_counts_fit(s@),
    ensures
        match r {
            Ok(v) => section_image(s@, version) == Ok::<Seq<u8>, SectionError>(v@),
            Err(e) => section_image(s@, version) == Err::<Seq<u8>, SectionError>(e),
        },
{
    if !is_known_version(version) {
        return Err(SectionError::UnsupportedVersion(version));
    }
    let mut buf: Vec<u8> = Vec::new();
    push_u32(&mut buf, SECTION_MAGIC);
    buf.push(version);
    buf.push(
        if s.ids.is_some() {
            1
        } else {
            0
        },
    );
    let ghost head = buf@;
    assert(head =~= section_header(version, s@.ids is Some));
    write_tables(&mut buf, s, version)?;
    let ghost tables = buf@;
    let out: Vec<u8> = append_id_maps_and_crc(buf, &s.ids);
    assert(tables + ids_bytes(s@.ids) == section_body(s@, version)->Ok_0);
    Ok(out)
}

} // verus!
