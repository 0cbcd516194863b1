//! A store out of a `GCST` section: its tables, the ways from labels, types
//! and identifiers to them, and its statistics.

use crate::id_lookup::LookupEntry;
use crate::outside;
use crate::section_codec::{FORMAT_VERSION, SectionError, is_known_version};
use crate::section_codec;
use crate::section_frame::{SectionColumn, SectionFrame, SectionNodeTable, SectionNodeView, SectionProperty, SectionRelTable, SectionRelView, SectionView, serialize_with_version};
use crate::section_frame;
use crate::section_read::{BlockExtent, SectionStop, deserialize_compact_store};
use crate::section_read;
use crate::tables::{ColumnCodec, ColumnType, ColumnView, CompactStore, CsrAdjacency, FlatKind, NodeTable, RelTable};
use crate::text::TextMap;
use crate::value::ZoneMap;
use bytes::Bytes;
use std::collections::HashMap;
use vstd::prelude::*;
use vstd::std_specs::hash::*;

verus! {

broadcast use group_hash_axioms;

/// The kinds of sections of a container that this library knows.
#[derive(Debug, Clone, Copy, PartialEq, Eq, Structural)]
pub enum SectionType {
    /// A compact store.
    CompactStore,
}

/// The logical type of a column of the given encoding; `width` is the number of
/// bits of a packed integer or the number of components of a vector.
pub open spec fn column_type(c: ColumnView, width: u32) -> ColumnType {
    match c {
        ColumnView::Dict { .. } => ColumnType::DictString,
        ColumnView::Flat { kind, .. } => match kind {
            FlatKind::BitPacked => ColumnType::UInt { bits: width },
            FlatKind::Bitmap => ColumnType::Bool,
            FlatKind::Int8Vector => ColumnType::Int8Vector { dimensions: width },
            FlatKind::Float64 => ColumnType::Float64,
            FlatKind::Float32Vector => ColumnType::Float32Vector { dimensions: width },
            FlatKind::RawI64 => ColumnType::Int64,
        },
    }
}

/// The logical type of a column, from its encoding; `width` is the number of
/// bits of a packed integer or the number of components of a vector.
pub fn infer_column_type_from_codec(codec: &ColumnCodec, width: u32) -> (r: ColumnType)
    ensures
        r == column_type(codec@, width),
{
    match codec {
        ColumnCodec::Dict(_) => ColumnType::DictString,
        ColumnCodec::Flat(f) => match f.kind {
            FlatKind::BitPacked => ColumnType::UInt { bits: width },
            FlatKind::Bitmap => ColumnType::Bool,
            FlatKind::Int8Vector => ColumnType::Int8Vector { dimensions: width },
            FlatKind::Float64 => ColumnType::Float64,
            FlatKind::Float32Vector => ColumnType::Float32Vector { dimensions: width },
            FlatKind::RawI64 => ColumnType::Int64,
        },
    }
}

/// A decoded column with the zone maps of its blocks, where the section has
/// them.
#[derive(Debug)]
pub struct DecodedColumn {
    /// The column.
    pub codec: ColumnCodec,
    /// Zone maps of its blocks.
    pub stats: Option<Vec<ZoneMap>>,
}

/// What was decoded of a relationship table.
#[derive(Debug)]
pub struct DecodedRel {
    /// Adjacency by source.
    pub fwd: CsrAdjacency,
    /// Adjacency by destination.
    pub bwd: Option<CsrAdjacency>,
    /// Properties, in the order of the frame.
    pub properties: Vec<ColumnCodec>,
}

/// The values of the first `n` keys; of equal keys the last counts, and one
/// without a value does not.
pub open spec fn put_all<V>(keys: Seq<Seq<char>>, vals: Seq<Option<V>>, n: int) -> Map<Seq<char>, V>
    decreases n,
{
    if n <= 0 {
        Map::empty()
    } else {
        let m = put_all(keys, vals, n - 1);
        match vals[n - 1] {
            Some(v) => m.insert(keys[n - 1], v),
            None => m,
        }
    }
}

/// The keys of columns.
pub open spec fn keys_of(v: Seq<SectionColumn>) -> Seq<Seq<char>> {
    Seq::new(v.len(), |i: int| v[i].key@)
}

/// The zone maps of columns.
pub open spec fn zones_of(v: Seq<SectionColumn>) -> Seq<Option<ZoneMap>> {
    Seq::new(v.len(), |i: int| v[i].zone)
}

/// The decoded columns.
pub open spec fn codecs_of(v: Seq<DecodedColumn>) -> Seq<Option<ColumnCodec>> {
    Seq::new(v.len(), |i: int| Some(v[i].codec))
}

/// The zone maps of the blocks of decoded columns.
pub open spec fn stats_of(v: Seq<DecodedColumn>) -> Seq<Option<Vec<ZoneMap>>> {
    Seq::new(v.len(), |i: int| v[i].stats)
}

/// The keys of properties.
pub open spec fn property_keys(v: Seq<SectionProperty>) -> Seq<Seq<char>> {
    Seq::new(v.len(), |i: int| v[i].key@)
}

/// Some of each.
pub open spec fn all_some<V>(v: Seq<V>) -> Seq<Option<V>> {
    Seq::new(v.len(), |i: int| Some(v[i]))
}

/// `r` is the table of a frame's node table and its decoded columns.
pub open spec fn is_node_table(r: NodeTable, t: SectionNodeTable, cols: Seq<DecodedColumn>) -> bool {
    let n = t.columns@.len() as int;
    &&& r.label@ == t.label@
    &&& r.rows == t.rows
    &&& r.columns@ == put_all(keys_of(t.columns@), codecs_of(cols), n)
    &&& r.zone_maps@ == put_all(keys_of(t.columns@), zones_of(t.columns@), n)
    &&& r.block_zone_maps@ == put_all(keys_of(t.columns@), stats_of(cols), n)
}

/// `r` is the table of a frame's relationship table and what was decoded of
/// it.
pub open spec fn is_rel_table(r: RelTable, t: SectionRelTable, p: DecodedRel) -> bool {
    let n = t.properties@.len() as int;
    &&& r.edge_type@ == t.edge_type@
    &&& r.src_table_id == t.src
    &&& r.dst_table_id == t.dst
    &&& r.fwd == p.fwd
    &&& r.bwd == p.bwd
    &&& r.properties@ == put_all(property_keys(t.properties@), all_some(p.properties@), n)
    &&& r.zone_maps@ == Map::<Seq<char>, ZoneMap>::empty()
    &&& r.block_zone_maps@ == Map::<Seq<char>, Vec<ZoneMap>>::empty()
}

/// The node table of a frame's node table and its decoded columns.
pub fn assemble_node_table(t: SectionNodeTable, cols: Vec<DecodedColumn>) -> (r: NodeTable)
    requires
        cols@.len() == t.columns@.len(),
    ensures
        is_node_table(r, t, cols@),
{
    let ghost n = t.columns@.len() as int;
    let ghost keys = keys_of(t.columns@);
    let ghost codec_row = codecs_of(cols@);
    let ghost zone_row = zones_of(t.columns@);
    let ghost stat_row = stats_of(cols@);
    let ghost frame_cols = t.columns@;
    let ghost decoded = cols@;
    let mut columns: TextMap<ColumnCodec> = TextMap::new();
    let mut zone_maps: TextMap<ZoneMap> = TextMap::new();
    let mut block_zone_maps: TextMap<Vec<ZoneMap>> = TextMap::new();
    let mut heads: Vec<SectionColumn> = t.columns;
    let mut bodies: Vec<DecodedColumn> = cols;
    reverse(&mut heads);
    reverse(&mut bodies);
    let ghost mut done: int = 0;
    while heads.len() > 0 && bodies.len() > 0
        invariant
            0 <= done <= n,
            n == frame_cols.len() == decoded.len(),
            heads@ == frame_cols.reverse().take(n - done),
            bodies@ == decoded.reverse().take(n - done),
            keys == keys_of(frame_cols),
            codec_row == codecs_of(decoded),
            zone_row == zones_of(frame_cols),
            stat_row == stats_of(decoded),
            columns@ == put_all(keys, codec_row, done),
            zone_maps@ == put_all(keys, zone_row, done),
            block_zone_maps@ == put_all(keys, stat_row, done),
        decreases heads@.len(),
    {
        let h: Option<SectionColumn> = heads.pop();
        let b: Option<DecodedColumn> = bodies.pop();
        match (h, b) {
            (Some(head), Some(body)) => {
                assert(head == frame_cols[done]);
                assert(body == decoded[done]);
                assert(keys[done] == head.key@);
                match head.zone {
                    Some(z) => {
                        zone_maps.insert(head.key.as_str(), z);
                    },
                    None => {},
                }
                match body.stats {
                    Some(s) => {
                        block_zone_maps.insert(head.key.as_str(), s);
                    },
                    None => {},
                }
                columns.insert(head.key.as_str(), body.codec);
                proof {
                    done = done + 1;
                    assert(heads@ =~= frame_cols.reverse().take(n - done));
                    assert(bodies@ =~= decoded.reverse().take(n - done));
                }
            },
            _ => {},
        }
    }
    NodeTable { label: t.label, rows: t.rows as usize, columns, zone_maps, block_zone_maps }
}

fn reverse<T>(v: &mut Vec<T>)
    ensures
        final(v)@ == old(v)@.reverse(),
{
    let ghost whole = v@;
    let mut out: Vec<T> = Vec::new();
    while v.len() > 0
        invariant
            v@ == whole.take(whole.len() - out@.len()),
            out@ == whole.reverse().take(out@.len() as int),
            out@.len() <= whole.len(),
        decreases v@.len(),
    {
        let x: Option<T> = v.pop();
        match x {
            Some(y) => {
                out.push(y);
                assert(v@ =~= whole.take(whole.len() - out@.len()));
                assert(out@ =~= whole.reverse().take(out@.len() as int));
            },
            None => {},
        }
    }
    assert(whole.reverse().take(out@.len() as int) =~= whole.reverse());
    std::mem::swap(v, &mut out);
}

/// The relationship table of a frame's relationship table and what was decoded
/// of it.
pub fn assemble_rel_table(t: SectionRelTable, p: DecodedRel) -> (r: RelTable)
    requires
        p.properties@.len() == t.properties@.len(),
    ensures
        is_rel_table(r, t, p),
{
    let ghost n = t.properties@.len() as int;
    let ghost keys = property_keys(t.properties@);
    let ghost row = all_some(p.properties@);
    let ghost frame_props = t.properties@;
    let ghost decoded = p.properties@;
    let mut properties: TextMap<ColumnCodec> = TextMap::new();
    let mut bodies: Vec<ColumnCodec> = p.properties;
    reverse(&mut bodies);
    let mut i: usize = 0;
    while i < t.properties.len()
        invariant
            i <= n,
            n == frame_props.len() == decoded.len(),
            t.properties@ == frame_props,
            bodies@ == decoded.reverse().take(n - i),
            keys == property_keys(frame_props),
            row == all_some(decoded),
            properties@ == put_all(keys, row, i as int),
        decreases n - i,
    {
        let b: Option<ColumnCodec> = bodies.pop();
        match b {
            Some(body) => {
                assert(body == decoded[i as int]);
                properties.insert(t.properties[i].key.as_str(), body);
            },
            None => {},
        }
        i = i + 1;
        assert(bodies@ =~= decoded.reverse().take(n - i));
    }
    RelTable {
        edge_type: t.edge_type,
        src_table_id: t.src,
        dst_table_id: t.dst,
        fwd: p.fwd,
        bwd: p.bwd,
        properties,
        zone_maps: TextMap::new(),
        block_zone_maps: TextMap::new(),
    }
}

/// The entries of an identifier map by identifier; of equal identifiers the
/// last counts.
pub open spec fn id_places(v: Seq<LookupEntry>, n: int) -> Map<u64, (u16, u64)>
    decreases n,
{
    if n <= 0 {
        Map::empty()
    } else {
        id_places(v, n - 1).insert(v[n - 1].0, (v[n - 1].1, v[n - 1].2))
    }
}

/// A row of identifiers with one more of them placed; rows in between are left
/// without one.
pub open spec fn placed(row: Seq<Option<u64>>, at: int, id: u64) -> Seq<Option<u64>> {
    let len = if row.len() <= at {
        at + 1
    } else {
        row.len() as int
    };
    Seq::new(
        len as nat,
        |i: int|
            if i == at {
                Some(id)
            } else if i < row.len() {
                row[i]
            } else {
                None
            },
    )
}

/// The identifiers of the rows of each of `tables` tables, after the first `n`
/// entries.
pub open spec fn reverse_rows(v: Seq<LookupEntry>, tables: int, n: int) -> Seq<Seq<Option<u64>>>
    decreases n,
{
    if n <= 0 {
        Seq::new(tables as nat, |i: int| Seq::empty())
    } else {
        let rows = reverse_rows(v, tables, n - 1);
        let t = v[n - 1].1 as int;
        rows.update(t, placed(rows[t], v[n - 1].2 as int, v[n - 1].0))
    }
}

/// Rows of rows as values.
pub open spec fn row_views(v: Seq<Vec<Option<u64>>>) -> Seq<Seq<Option<u64>>> {
    Seq::new(v.len(), |i: int| v[i]@)
}

/// An identifier map in both directions.
#[derive(Debug)]
pub struct IdMap {
    /// Table and row or position by identifier.
    pub places: HashMap<u64, (u16, u64)>,
    /// Identifiers by table and row or position.
    pub rows: Vec<Vec<Option<u64>>>,
}

fn place(row: &mut Vec<Option<u64>>, at: usize, id: u64)
    requires
        at < usize::MAX,
    ensures
        final(row)@ == placed(old(row)@, at as int, id),
{
    let ghost before = row@;
    while row.len() <= at
        invariant
            at < usize::MAX,
            row@.len() <= at + 1 || row@ == before,
            row@.len() >= before.len(),
            forall|i: int| 0 <= i < before.len() ==> row@[i] == before[i],
            forall|i: int| before.len() <= i < row@.len() ==> row@[i] is None,
        decreases at + 1 - row@.len(),
    {
        row.push(None);
    }
    row.set(at, Some(id));
    assert(row@ =~= placed(before, at as int, id));
}

/// The identifier map of some entries over `lens.len()` tables of the given
/// lengths.
pub fn build_id_map(v: &Vec<LookupEntry>, lens: &Vec<usize>) -> (r: IdMap)
    requires
        forall|i: int|
            #![trigger v@[i]]
            0 <= i < v@.len() ==> v@[i].1 < lens@.len() && v@[i].2 < lens@[v@[i].1 as int],
    ensures
        r.places@ == id_places(v@, v@.len() as int),
        row_views(r.rows@) == reverse_rows(v@, lens@.len() as int, v@.len() as int),
{
    let mut places: HashMap<u64, (u16, u64)> = HashMap::new();
    let mut rows: Vec<Vec<Option<u64>>> = Vec::new();
    let ghost tables = lens@.len() as int;
    let mut k: usize = 0;
    while k < lens.len()
        invariant
            k <= lens@.len(),
            rows@.len() == k,
            forall|i: int| 0 <= i < k ==> (#[trigger] rows@[i])@ == Seq::<Option<u64>>::empty(),
        decreases lens@.len() - k,
    {
        rows.push(Vec::new());
        k = k + 1;
    }
    assert(row_views(rows@) =~= reverse_rows(v@, tables, 0));
    let mut i: usize = 0;
    while i < v.len()
        invariant
            i <= v@.len(),
            tables == lens@.len(),
            rows@.len() == tables,
            obeys_key_model::<u64>(),
            forall|j: int|
                #![trigger v@[j]]
                0 <= j < v@.len() ==> v@[j].1 < lens@.len() && v@[j].2 < lens@[v@[j].1 as int],
            places@ == id_places(v@, i as int),
            row_views(rows@) == reverse_rows(v@, tables, i as int),
        decreases v@.len() - i,
    {
        let e: LookupEntry = v[i];
        let t: usize = e.1 as usize;
        assert(e == v@[i as int]);
        let at: usize = e.2 as usize;
        let ghost old_rows = rows@;
        let mut row: Vec<Option<u64>> = Vec::new();
        rows.set_and_swap(t, &mut row);
        place(&mut row, at, e.0);
        rows.set(t, row);
        places.insert(e.0, (e.1, e.2));
        proof {
            assert(row_views(old_rows)[t as int] == old_rows[t as int]@);
            assert(row_views(rows@) =~= reverse_rows(v@, tables, i + 1));
        }
        i = i + 1;
    }
    IdMap { places, rows }
}

/// The rows of the first `n` node tables.
pub open spec fn node_total(v: Seq<SectionNodeView>, n: int) -> int
    decreases n,
{
    if n <= 0 {
        0
    } else {
        node_total(v, n - 1) + v[n - 1].rows
    }
}

/// The edges of the first `n` relationship tables.
pub open spec fn edge_total(v: Seq<SectionRelView>, n: int) -> int
    decreases n,
{
    if n <= 0 {
        0
    } else {
        edge_total(v, n - 1) + v[n - 1].edges
    }
}

/// The edges of one type in the first `n` relationship tables.
pub open spec fn type_total(v: Seq<SectionRelView>, edge_type: Seq<char>, n: int) -> int
    decreases n,
{
    if n <= 0 {
        0
    } else {
        type_total(v, edge_type, n - 1) + if v[n - 1].edge_type == edge_type {
            v[n - 1].edges as int
        } else {
            0
        }
    }
}

/// The labels of node tables.
pub open spec fn section_labels(v: Seq<SectionNodeView>) -> Seq<Seq<char>> {
    Seq::new(v.len(), |i: int| v[i].label)
}

/// The numbers of node tables.
pub open spec fn table_numbers(v: Seq<SectionNodeView>) -> Seq<Option<u16>> {
    Seq::new(v.len(), |i: int| Some(i as u16))
}

/// The rows of node tables.
pub open spec fn row_counts(v: Seq<SectionNodeView>) -> Seq<Option<u64>> {
    Seq::new(v.len(), |i: int| Some(v[i].rows as u64))
}

/// How many nodes and edges a section has, by label and by type.
#[derive(Debug)]
pub struct SectionStatistics {
    /// All nodes.
    pub total_nodes: u64,
    /// All edges.
    pub total_edges: u64,
    /// Nodes by label; of tables with one label the last counts.
    pub label_counts: TextMap<u64>,
    /// Edges by type, over all tables of the type.
    pub type_counts: TextMap<u64>,
    /// Node table by label; of tables with one label the last counts.
    pub label_tables: TextMap<u16>,
}

/// The types among the first `n` relationship tables.
pub open spec fn has_type(v: Seq<SectionRelView>, edge_type: Seq<char>, n: int) -> bool {
    exists|i: int| 0 <= i < n && (#[trigger] v[i]).edge_type == edge_type
}

proof fn lemma_type_total_bounded(v: Seq<SectionRelView>, edge_type: Seq<char>, n: int)
    ensures
        0 <= type_total(v, edge_type, n) <= edge_total(v, n),
    decreases n,
{
    if n > 0 {
        lemma_type_total_bounded(v, edge_type, n - 1);
    }
}

proof fn lemma_edge_total_monotonic(v: Seq<SectionRelView>, k: int, n: int)
    requires
        k <= n,
    ensures
        edge_total(v, k) <= edge_total(v, n),
    decreases n - k,
{
    if k < n {
        lemma_edge_total_monotonic(v, k, n - 1);
    }
}

proof fn lemma_type_total_absent(v: Seq<SectionRelView>, edge_type: Seq<char>, n: int)
    requires
        !has_type(v, edge_type, n),
    ensures
        type_total(v, edge_type, n) == 0,
    decreases n,
{
    if n > 0 {
        assert(v[n - 1].edge_type != edge_type);
        assert(!has_type(v, edge_type, n - 1)) by {
            if has_type(v, edge_type, n - 1) {
                let i = choose|i: int| 0 <= i < n - 1 && (#[trigger] v[i]).edge_type == edge_type;
                assert(v[i].edge_type == edge_type);
            }
        }
        lemma_type_total_absent(v, edge_type, n - 1);
    }
}

/// The statistics of a frame.
pub fn compute_statistics(f: &SectionFrame) -> (r: SectionStatistics)
    requires
        f@.nodes.len() <= 0x1_0000,
        edge_total(f@.rels, f@.rels.len() as int) <= u64::MAX,
    ensures
        r.total_nodes == node_total(f@.nodes, f@.nodes.len() as int),
        r.total_edges == edge_total(f@.rels, f@.rels.len() as int),
        r.label_counts@ == put_all(
            section_labels(f@.nodes),
            row_counts(f@.nodes),
            f@.nodes.len() as int,
        ),
        r.label_tables@ == put_all(
            section_labels(f@.nodes),
            table_numbers(f@.nodes),
            f@.nodes.len() as int,
        ),
        forall|t: Seq<char>|
            r.type_counts@.dom().contains(t) <==> has_type(f@.rels, t, f@.rels.len() as int),
        forall|t: Seq<char>|
            r.type_counts@.dom().contains(t) ==> #[trigger] r.type_counts@[t] == type_total(
                f@.rels,
                t,
                f@.rels.len() as int,
            ),
{
    let ghost nodes = f@.nodes;
    let ghost rels = f@.rels;
    let mut total_nodes: u64 = 0;
    let mut label_counts: TextMap<u64> = TextMap::new();
    let mut label_tables: TextMap<u16> = TextMap::new();
    let mut i: usize = 0;
    while i < f.nodes.len()
        invariant
            i <= f.nodes@.len(),
            nodes == f@.nodes,
            nodes.len() <= 0x1_0000,
            total_nodes == node_total(nodes, i as int),
            total_nodes <= i * 0xffff_ffff,
            label_counts@ == put_all(section_labels(nodes), row_counts(nodes), i as int),
            label_tables@ == put_all(section_labels(nodes), table_numbers(nodes), i as int),
        decreases f.nodes@.len() - i,
    {
        assert(nodes[i as int] == f.nodes@[i as int]@);
        assert(i * 0xffff_ffff + 0xffff_ffff == (i + 1) * 0xffff_ffff) by (nonlinear_arith);
        total_nodes = total_nodes + f.nodes[i].rows as u64;
        label_counts.insert(f.nodes[i].label.as_str(), f.nodes[i].rows as u64);
        label_tables.insert(f.nodes[i].label.as_str(), i as u16);
        i = i + 1;
    }
    let mut total_edges: u64 = 0;
    let mut type_counts: TextMap<u64> = TextMap::new();
    let mut k: usize = 0;
    while k < f.rels.len()
        invariant
            k <= f.rels@.len(),
            rels == f@.rels,
            edge_total(rels, rels.len() as int) <= u64::MAX,
            total_edges == edge_total(rels, k as int),
            forall|t: Seq<char>| type_counts@.dom().contains(t) <==> has_type(rels, t, k as int),
            forall|t: Seq<char>|
                type_counts@.dom().contains(t) ==> #[trigger] type_counts@[t] == type_total(
                    rels,
                    t,
                    k as int,
                ),
        decreases f.rels@.len() - k,
    {
        let t: &SectionRelTable = &f.rels[k];
        let ghost name = t.edge_type@;
        let ghost before = type_counts@;
        assert(rels[k as int] == f.rels@[k as int]@);
        proof {
            lemma_edge_total_monotonic(rels, k + 1, rels.len() as int);
            lemma_type_total_bounded(rels, name, k + 1);
        }
        let so_far: u64 = match type_counts.get(t.edge_type.as_str()) {
            Some(n) => *n,
            None => {
                proof {
                    lemma_type_total_absent(rels, name, k as int);
                }
                0
            },
        };
        assert(so_far == type_total(rels, name, k as int));
        type_counts.insert(t.edge_type.as_str(), so_far + t.edges as u64);
        total_edges = total_edges + t.edges as u64;
        proof {
            assert forall|x: Seq<char>| type_counts@.dom().contains(x) <==> has_type(
                rels,
                x,
                k + 1,
            ) by {
                if x == name {
                    assert(rels[k as int].edge_type == x);
                } else {
                    if has_type(rels, x, k + 1) {
                        let j = choose|j: int| 0 <= j < k + 1 && (#[trigger] rels[j]).edge_type == x;
                        assert(rels[j].edge_type == x);
                        assert(has_type(rels, x, k as int));
                    }
                    if has_type(rels, x, k as int) {
                        let j = choose|j: int| 0 <= j < k && (#[trigger] rels[j]).edge_type == x;
                        assert(rels[j].edge_type == x);
                    }
                }
            }
            assert forall|x: Seq<char>| type_counts@.dom().contains(x) implies #[trigger] type_counts@[x]
                == type_total(rels, x, k + 1) by {
                if x != name {
                    assert(before.dom().contains(x));
                    assert(type_counts@[x] == before[x]);
                }
            }
        }
        k = k + 1;
    }
    SectionStatistics { total_nodes, total_edges, label_counts, type_counts, label_tables }
}

/// A section of a container: a frame, if one was given or read, and whether it
/// has changed since it was last saved.
#[derive(Debug)]
pub struct CompactStoreSection {
    store: Option<SectionFrame>,
    dirty: bool,
    backing: Option<Bytes>,
}

/// The frame of an optional frame.
pub open spec fn optional_frame(f: Option<SectionFrame>) -> Option<SectionView> {
    match f {
        Some(x) => Some(x@),
        None => None,
    }
}

impl CompactStoreSection {
    /// The frame of the section.
    pub closed spec fn frame(&self) -> Option<SectionView> {
        optional_frame(self.store)
    }

    /// Whether the section has changed.
    pub closed spec fn changed(&self) -> bool {
        self.dirty
    }

    /// The mapping that the section keeps alive.
    pub closed spec fn mapping(&self) -> Option<Seq<u8>> {
        section_frame::optional_content(self.backing)
    }

    /// A section around a frame, unchanged.
    pub fn new(store: SectionFrame) -> (r: Self)
        ensures
            r.frame() == Some(store@),
            !r.changed(),
            r.mapping() is None,
    {
        CompactStoreSection { store: Some(store), dirty: false, backing: None }
    }

    /// A section without a frame, to be read into.
    pub fn empty() -> (r: Self)
        ensures
            r.frame() is None,
            !r.changed(),
            r.mapping() is None,
    {
        CompactStoreSection { store: None, dirty: false, backing: None }
    }

    /// Marks the section as changed.
    pub fn mark_dirty(&mut self)
        ensures
            final(self).frame() == old(self).frame(),
            final(self).mapping() == old(self).mapping(),
            final(self).changed(),
    {
        self.dirty = true;
    }

    /// Marks the section as unchanged.
    pub fn mark_clean(&mut self)
        ensures
            final(self).frame() == old(self).frame(),
            final(self).mapping() == old(self).mapping(),
            !final(self).changed(),
    {
        self.dirty = false;
    }

    /// True when the section has changed.
    pub fn is_dirty(&self) -> (r: bool)
        ensures
            r == self.changed(),
    {
        self.dirty
    }

    /// The frame, if there is one.
    pub fn store(&self) -> (r: Option<&SectionFrame>)
        ensures
            match r {
                Some(f) => self.frame() == Some(f@),
                None => self.frame() is None,
            },
    {
        match &self.store {
            Some(f) => Some(f),
            None => None,
        }
    }

    /// What kind of section this is.
    pub fn section_type(&self) -> (r: SectionType)
        ensures
            r == SectionType::CompactStore,
    {
        SectionType::CompactStore
    }

    /// The version that is written by default.
    pub fn version(&self) -> (r: u8)
        ensures
            r == FORMAT_VERSION,
    {
        FORMAT_VERSION
    }

    /// Bytes that the section keeps in memory: those of its store, which its
    /// owner counts, and none without a store.
    pub fn memory_usage(&self, store_bytes: usize) -> (r: usize)
        ensures
            r == (if self.frame() is Some {
                store_bytes
            } else {
                0
            }),
    {
        if self.store.is_some() {
            store_bytes
        } else {
            0
        }
    }

    /// The bytes of the section in the given version.
    pub fn serialize_with_version(&self, version: u8) -> (r: Result<Vec<u8>, SectionError>)
        requires
            self.frame() matches Some(f) ==> section_frame::section_counts_fit(f),
        ensures
            match r {
                Ok(v) => self.frame() matches Some(f) && section_frame::section_image(f, version) == Ok::<
                    Seq<u8>,
                    SectionError,
                >(v@),
                Err(e) => if !section_codec::known_version(version) {
                    e == SectionError::UnsupportedVersion(version)
                } else {
                    match self.frame() {
                        None => e == SectionError::NoStore,
                        Some(f) => section_frame::section_image(f, version) == Err::<Seq<u8>, SectionError>(e),
                    }
                },
            },
    {
        if !is_known_version(version) {
            return Err(SectionError::UnsupportedVersion(version));
        }
        match &self.store {
            None => Err(SectionError::NoStore),
            Some(f) => serialize_with_version(f, version),
        }
    }

    /// The bytes of the section in the default version.
    pub fn serialize(&self) -> (r: Result<Vec<u8>, SectionError>)
        requires
            self.frame() matches Some(f) ==> section_frame::section_counts_fit(f),
        ensures
            match r {
                Ok(v) => self.frame() matches Some(f) && section_frame::section_image(f, FORMAT_VERSION) == Ok::<
                    Seq<u8>,
                    SectionError,
                >(v@),
                Err(e) => match self.frame() {
                    None => e == SectionError::NoStore,
                    Some(f) => section_frame::section_image(f, FORMAT_VERSION) == Err::<Seq<u8>, SectionError>(e),
                },
            },
    {
        self.serialize_with_version(FORMAT_VERSION)
    }

    /// Reads the section out of a buffer, against the blocks decoded so far.
    /// A section that does not come out leaves this one as it was.
    pub fn deserialize_from_bytes(&mut self, data: &Bytes, blocks: &[BlockExtent]) -> (r: Result<
        (),
        SectionStop,
    >)
        ensures
            final(self).changed() == old(self).changed(),
            match r {
                Ok(_) => section_read::section_read(outside::bytes_content(*data), blocks@) is Ok && final(self).frame()
                    == Some(section_read::section_read(outside::bytes_content(*data), blocks@)->Ok_0)
                    && final(self).mapping() is None,
                Err(s) => section_read::section_read(outside::bytes_content(*data), blocks@) == Err::<
                    SectionView,
                    SectionStop,
                >(s) && final(self).frame() == old(self).frame() && final(self).mapping() == old(
                    self,
                ).mapping(),
            },
    {
        let f: SectionFrame = deserialize_compact_store(data, blocks)?;
        self.store = Some(f);
        self.backing = None;
        Ok(())
    }

    /// Reads the section out of a mapping and keeps the mapping alive with it.
    /// A section that does not come out leaves this one as it was.
    pub fn deserialize_from_mapped_bytes(&mut self, data: &Bytes, blocks: &[BlockExtent]) -> (r:
        Result<(), SectionStop>)
        ensures
            final(self).changed() == old(self).changed(),
            match r {
                Ok(_) => section_read::section_read(outside::bytes_content(*data), blocks@) is Ok && final(self).frame()
                    == Some(section_read::section_read(outside::bytes_content(*data), blocks@)->Ok_0)
                    && final(self).mapping() == Some(outside::bytes_content(*data)),
                Err(s) => section_read::section_read(outside::bytes_content(*data), blocks@) == Err::<
                    SectionView,
                    SectionStop,
                >(s) && final(self).frame() == old(self).frame() && final(self).mapping() == old(
                    self,
                ).mapping(),
            },
    {
        let f: SectionFrame = deserialize_compact_store(data, blocks)?;
        self.store = Some(f);
        self.backing = Some(data.clone());
        Ok(())
    }
}

} // verus!
