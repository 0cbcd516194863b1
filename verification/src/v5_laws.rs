//! A payload that was written opens again as the store it was written from.

use crate::accounting;
use crate::code_index;
use crate::directory::SegmentKind;
use crate::error::FormatError;
use crate::faults;
use crate::id_lookup;
use crate::intern::StringCodeOrder;
use crate::intern;
use crate::layout_laws::Layout;
use crate::layout_laws;
use crate::payload;
use crate::string_dict;
use crate::tables::{ColumnView, NodeTableView, RelTableView, StoreView};
use crate::v5_parts_laws;
use crate::v5_read::{CompanionsView, MappedCsrView, MappedNodeView, MappedRelView, MappedStoreView, ZonesView};
use crate::v5_read;
use crate::v5_write::{total_edges, total_nodes};
use crate::v5_write;
use crate::value::ZoneView;
use crate::views;
use crate::wire;
use crate::zone_laws;
use crate::zone_maps;
use vstd::prelude::*;

verus! {

broadcast use wire::group_wire;

proof fn lemma_base_kinds(s: StoreView, dict: Seq<Seq<char>>)
    ensures
        payload::kinds_ascend(v5_write::base_segments(s, dict)),
        layout_laws::kinds_within(v5_write::base_segments(s, dict), 0, 9),
{
}

proof fn lemma_forward_kinds(s: StoreView)
    ensures
        payload::kinds_ascend(v5_write::forward_segments(s)),
        layout_laws::kinds_within(v5_write::forward_segments(s), 9, 11),
{
}

proof fn lemma_reverse_kinds(s: StoreView)
    ensures
        payload::kinds_ascend(v5_write::reverse_segments(s)),
        layout_laws::kinds_within(v5_write::reverse_segments(s), 11, 14),
{
}

proof fn lemma_id_kinds(s: StoreView)
    ensures
        payload::kinds_ascend(v5_write::id_segments(s)),
        layout_laws::kinds_within(v5_write::id_segments(s), 14, 18),
{
}

proof fn lemma_lookup_kinds(s: StoreView, dict: Seq<Seq<char>>)
    ensures
        payload::kinds_ascend(v5_write::lookup_segments(s, dict)),
        layout_laws::kinds_within(v5_write::lookup_segments(s, dict), 18, 21),
{
    let index = intern::codes_of_texts(dict);
    let nn = s.nodes.len() as int;
    let a = v5_write::nonempty_segment(
        SegmentKind::TableZoneMaps,
        40,
        zone_maps::zone_segment(zone_maps::table_zone_rows(s.nodes, nn), index),
    );
    let b = v5_write::nonempty_segment(
        SegmentKind::BlockZoneMaps,
        40,
        zone_maps::zone_segment(zone_maps::block_zone_rows(s.nodes, nn), index),
    );
    let c = v5_write::nonempty_segment(SegmentKind::DictionaryCodeIndex, 16, code_index::code_index_of(dict));
    layout_laws::lemma_ascend_add(a, b, 18, 19, 20);
    layout_laws::lemma_ascend_add(a + b, c, 18, 20, 21);
}

/// The kinds of a store's segments ascend.
pub proof fn lemma_v5_kinds(s: StoreView, order: StringCodeOrder)
    ensures
        payload::kinds_ascend(v5_write::v5_segments(s, order)),
        layout_laws::kinds_within(v5_write::v5_segments(s, order), 0, 21),
{
    let dict = intern::dictionary(intern::store_texts(s), order);
    let a = v5_write::base_segments(s, dict);
    let b = v5_write::forward_segments(s);
    let c = v5_write::reverse_segments(s);
    let e = v5_write::id_segments(s);
    let f = v5_write::lookup_segments(s, dict);
    lemma_base_kinds(s, dict);
    lemma_forward_kinds(s);
    lemma_reverse_kinds(s);
    lemma_id_kinds(s);
    lemma_lookup_kinds(s, dict);
    layout_laws::lemma_ascend_add(a, b, 0, 9, 11);
    layout_laws::lemma_ascend_add(a + b, c, 0, 11, 14);
    layout_laws::lemma_ascend_add(a + b + c, e, 0, 14, 18);
    layout_laws::lemma_ascend_add(a + b + c + e, f, 0, 18, 21);
}

proof fn lemma_base_carries(s: StoreView, dict: Seq<Seq<char>>)
    ensures
        ({
            let index = intern::codes_of_texts(dict);
            let cols = v5_write::all_columns(s);
            let nn = s.nodes.len() as int;
            let nr = s.rels.len() as int;
            let b = v5_write::base_segments(s, dict);
            &&& layout_laws::carries(b, SegmentKind::Metadata, v5_write::metadata_image(s, index))
            &&& layout_laws::carries(b, SegmentKind::StringOffsets, views::bytes_of_u64s(string_dict::text_offsets(dict)))
            &&& layout_laws::carries(b, SegmentKind::StringBytes, string_dict::text_blob(dict))
            &&& layout_laws::carries(b, SegmentKind::NodeTableDirectory, v5_write::node_dir_image(s.nodes, nn))
            &&& layout_laws::carries(
                b,
                SegmentKind::RelTableDirectory,
                v5_write::rel_dir_image(s.rels, nr, v5_write::node_columns(s.nodes, nn).len() as int),
            )
            &&& layout_laws::carries(b, SegmentKind::ColumnDirectory, v5_write::column_dir_image(cols))
            &&& layout_laws::carries(b, SegmentKind::ColumnBlockIndex, v5_write::block_index_image(cols, index))
            &&& layout_laws::carries(b, SegmentKind::ColumnBodies, v5_write::bodies_image(cols, index))
        }),
{
    let b = v5_write::base_segments(s, dict);
    assert(b[0].kind == SegmentKind::Metadata);
    assert(b[1].kind == SegmentKind::StringOffsets);
    assert(b[2].kind == SegmentKind::StringBytes);
    assert(b[3].kind == SegmentKind::NodeTableDirectory);
    assert(b[4].kind == SegmentKind::RelTableDirectory);
    assert(b[5].kind == SegmentKind::ColumnDirectory);
    assert(b[6].kind == SegmentKind::ColumnBlockIndex);
    assert(b[7].kind == SegmentKind::ColumnBodies);
}

proof fn lemma_in_v5(s: StoreView, order: StringCodeOrder, kind: SegmentKind, body: Seq<u8>)
    ensures
        ({
            let dict = intern::dictionary(intern::store_texts(s), order);
            let v = v5_write::v5_segments(s, order);
            &&& layout_laws::carries(v5_write::base_segments(s, dict), kind, body) ==> layout_laws::carries(v, kind, body)
            &&& layout_laws::carries(v5_write::forward_segments(s), kind, body) ==> layout_laws::carries(v, kind, body)
            &&& layout_laws::carries(v5_write::reverse_segments(s), kind, body) ==> layout_laws::carries(v, kind, body)
            &&& layout_laws::carries(v5_write::id_segments(s), kind, body) ==> layout_laws::carries(v, kind, body)
            &&& layout_laws::carries(v5_write::lookup_segments(s, dict), kind, body) ==> layout_laws::carries(v, kind, body)
            &&& payload::has_kind(v, kind) <==> payload::has_kind(v5_write::base_segments(s, dict), kind) || payload::has_kind(
                v5_write::forward_segments(s),
                kind,
            ) || payload::has_kind(v5_write::reverse_segments(s), kind) || payload::has_kind(v5_write::id_segments(s), kind) || payload::has_kind(
                v5_write::lookup_segments(s, dict),
                kind,
            )
        }),
{
    let dict = intern::dictionary(intern::store_texts(s), order);
    let a = v5_write::base_segments(s, dict);
    let b = v5_write::forward_segments(s);
    let c = v5_write::reverse_segments(s);
    let e = v5_write::id_segments(s);
    let f = v5_write::lookup_segments(s, dict);
    layout_laws::lemma_carries_add(a, b, kind, body);
    layout_laws::lemma_carries_add(a + b, c, kind, body);
    layout_laws::lemma_carries_add(a + b + c, e, kind, body);
    layout_laws::lemma_carries_add(a + b + c + e, f, kind, body);
}

/// A store whose parts fit together: columns carry their encoding number,
/// zone map columns ascend, adjacency fits its tables, and the tables have a
/// reverse adjacency all or none.
pub open spec fn store_sound(s: StoreView) -> bool {
    &&& s.nodes.len() <= 0x8000
    &&& zone_laws::blocks_countable(s.nodes)
    &&& forall|t: int|
        0 <= t < s.nodes.len() ==> zone_laws::zone_columns_ascend(#[trigger] s.nodes[t]) && v5_parts_laws::columns_tagged(
            s.nodes[t].columns,
        )
    &&& forall|t: int| 0 <= t < s.rels.len() ==> layout_laws::rel_sound(#[trigger] s.rels[t], s.nodes)
    &&& (forall|t: int| 0 <= t < s.rels.len() ==> (#[trigger] s.rels[t]).bwd is Some) || (forall|
        t: int,
    |
        0 <= t < s.rels.len() ==> (#[trigger] s.rels[t]).bwd is None)
}

/// A node table as it is opened.
pub open spec fn opened_node(t: NodeTableView, index: Map<Seq<char>, u32>) -> MappedNodeView {
    MappedNodeView {
        label: t.label,
        rows: t.rows,
        columns: v5_parts_laws::opened_columns(t.columns, index),
        zones: zone_laws::stored_zone_map(t.zones),
        blocks: zone_laws::stored_block_map(t.blocks),
    }
}

/// A relationship table as it is opened. Its zone maps are not part of the
/// payload.
pub open spec fn opened_rel(t: RelTableView, index: Map<Seq<char>, u32>) -> MappedRelView {
    MappedRelView {
        edge_type: t.edge_type,
        src: t.src,
        dst: t.dst,
        fwd: MappedCsrView {
            offsets: t.fwd.offsets,
            targets: t.fwd.targets,
            edge_data: None,
        },
        bwd: match t.bwd {
            Some(b) => Some(
                MappedCsrView {
                    offsets: b.offsets,
                    targets: b.targets,
                    edge_data: Some(v5_write::csr_positions(t.bwd)),
                },
            ),
            None => None,
        },
        columns: v5_parts_laws::opened_columns(t.columns, index),
        zones: Map::empty(),
        blocks: Map::empty(),
    }
}

/// Node tables as they are opened.
pub open spec fn opened_nodes(v: Seq<NodeTableView>, index: Map<Seq<char>, u32>) -> Seq<
    MappedNodeView,
> {
    Seq::new(v.len(), |i: int| opened_node(v[i], index))
}

/// Relationship tables as they are opened.
pub open spec fn opened_rels(v: Seq<RelTableView>, index: Map<Seq<char>, u32>) -> Seq<
    MappedRelView,
> {
    Seq::new(v.len(), |i: int| opened_rel(v[i], index))
}

/// The codes of a dictionary by ascending text; an empty dictionary has no
/// code index.
pub open spec fn opened_codes(dict: Seq<Seq<char>>) -> Option<Seq<u32>> {
    if dict.len() == 0 {
        None
    } else {
        Some(code_index::codes_of(code_index::code_index_of(dict)))
    }
}

/// A store as it is opened from its payload.
pub open spec fn opened_store(s: StoreView, order: StringCodeOrder) -> MappedStoreView {
    let dict = intern::dictionary(intern::store_texts(s), order);
    let index = intern::codes_of_texts(dict);
    let nodes = opened_nodes(s.nodes, index);
    let rels = opened_rels(s.rels, index);
    let meta = v5_parts_laws::meta_of_store(s);
    MappedStoreView {
        dict,
        codes: opened_codes(dict),
        nodes,
        rels,
        total_nodes: meta.total_nodes,
        total_edges: meta.total_edges,
        ids: layout_laws::opened_ids(s.ids),
        companions: CompanionsView { membership: None, presence: None, null: None },
        accounting: v5_read::accounting_of(v5_write::v5_image(s, order), v5_read::schema_bytes(nodes, rels)),
        node_keys: v5_read::node_keys_of(meta.nodes),
        rel_keys: v5_read::rel_keys_of(meta.rels),
    }
}

/// The store can be written and its payload fits the machine.
pub open spec fn v5_written(s: StoreView, order: StringCodeOrder) -> bool {
    &&& v5_write::v5_fault(s, order) is None
    &&& payload::segments_fit(v5_write::v5_segments(s, order))
    &&& v5_write::v5_image(s, order).len() <= u64::MAX
}

proof fn lemma_nonempty(kind: SegmentKind, width: u32, body: Seq<u8>)
    ensures
        body.len() > 0 ==> layout_laws::carries(v5_write::nonempty_segment(kind, width, body), kind, body),
        payload::has_kind(v5_write::nonempty_segment(kind, width, body), kind) <==> body.len() > 0,
        forall|k: SegmentKind|
            k != kind ==> !#[trigger] payload::has_kind(v5_write::nonempty_segment(kind, width, body), k),
{
    let n = v5_write::nonempty_segment(kind, width, body);
    if body.len() > 0 {
        assert(n[0].kind == kind);
    }
}

/// The segments of zone maps and codes are there when they hold anything.
proof fn lemma_lookup_carries(s: StoreView, order: StringCodeOrder)
    ensures
        ({
            let dict = intern::dictionary(intern::store_texts(s), order);
            let index = intern::codes_of_texts(dict);
            let nn = s.nodes.len() as int;
            let a = zone_maps::zone_segment(zone_maps::table_zone_rows(s.nodes, nn), index);
            let b = zone_maps::zone_segment(zone_maps::block_zone_rows(s.nodes, nn), index);
            let c = code_index::code_index_of(dict);
            let v = v5_write::v5_segments(s, order);
            &&& a.len() > 0 ==> layout_laws::carries(v, SegmentKind::TableZoneMaps, a)
            &&& b.len() > 0 ==> layout_laws::carries(v, SegmentKind::BlockZoneMaps, b)
            &&& c.len() > 0 ==> layout_laws::carries(v, SegmentKind::DictionaryCodeIndex, c)
            &&& a.len() == 0 ==> !payload::has_kind(v, SegmentKind::TableZoneMaps)
            &&& b.len() == 0 ==> !payload::has_kind(v, SegmentKind::BlockZoneMaps)
            &&& c.len() == 0 ==> !payload::has_kind(v, SegmentKind::DictionaryCodeIndex)
        }),
{
    let dict = intern::dictionary(intern::store_texts(s), order);
    let index = intern::codes_of_texts(dict);
    let nn = s.nodes.len() as int;
    let a = zone_maps::zone_segment(zone_maps::table_zone_rows(s.nodes, nn), index);
    let b = zone_maps::zone_segment(zone_maps::block_zone_rows(s.nodes, nn), index);
    let c = code_index::code_index_of(dict);
    let ka = SegmentKind::TableZoneMaps;
    let kb = SegmentKind::BlockZoneMaps;
    let kc = SegmentKind::DictionaryCodeIndex;
    let na = v5_write::nonempty_segment(ka, 40, a);
    let nb = v5_write::nonempty_segment(kb, 40, b);
    let nc = v5_write::nonempty_segment(kc, 16, c);
    lemma_nonempty(ka, 40, a);
    lemma_nonempty(kb, 40, b);
    lemma_nonempty(kc, 16, c);
    layout_laws::lemma_carries_add(na, nb, ka, a);
    layout_laws::lemma_carries_add(na + nb, nc, ka, a);
    lemma_in_v5(s, order, ka, a);
    layout_laws::lemma_carries_add(na, nb, kb, b);
    layout_laws::lemma_carries_add(na + nb, nc, kb, b);
    lemma_in_v5(s, order, kb, b);
    layout_laws::lemma_carries_add(na, nb, kc, c);
    layout_laws::lemma_carries_add(na + nb, nc, kc, c);
    lemma_in_v5(s, order, kc, c);
    lemma_base_kinds(s, dict);
    lemma_forward_kinds(s);
    lemma_reverse_kinds(s);
    lemma_id_kinds(s);
    layout_laws::lemma_no_kind(v5_write::base_segments(s, dict), 0, 9);
    layout_laws::lemma_no_kind(v5_write::forward_segments(s), 9, 11);
    layout_laws::lemma_no_kind(v5_write::reverse_segments(s), 11, 14);
    layout_laws::lemma_no_kind(v5_write::id_segments(s), 14, 18);
}

/// The layout of a store's payload.
pub open spec fn v5_layout(s: StoreView, order: StringCodeOrder) -> Layout {
    Layout { dict: intern::dictionary(intern::store_texts(s), order), segs: v5_write::v5_segments(s, order) }
}

proof fn lemma_any_reverse(v: Seq<RelTableView>, n: int)
    requires
        0 <= n <= v.len(),
    ensures
        v5_write::any_reverse(v, n) <==> exists|t: int| 0 <= t < n && (#[trigger] v[t]).bwd is Some,
    decreases n,
{
    if n > 0 {
        lemma_any_reverse(v, n - 1);
        if v5_write::any_reverse(v, n - 1) {
            let t = choose|t: int| 0 <= t < n - 1 && (#[trigger] v[t]).bwd is Some;
            assert(v[t].bwd is Some);
        }
        if exists|t: int| 0 <= t < n && (#[trigger] v[t]).bwd is Some {
            let t = choose|t: int| 0 <= t < n && (#[trigger] v[t]).bwd is Some;
            if t < n - 1 {
                assert(v[t].bwd is Some);
            }
        }
    }
}

proof fn lemma_v5_tables(s: StoreView, order: StringCodeOrder)
    ensures
        layout_laws::carries_tables(s, v5_layout(s, order)),
        layout_laws::carries_ids(s, v5_layout(s, order)),
{
    let dict = intern::dictionary(intern::store_texts(s), order);
    let index = intern::codes_of_texts(dict);
    let cols = v5_write::all_columns(s);
    let nn = s.nodes.len() as int;
    let nr = s.rels.len() as int;
    let f = v5_write::forward_segments(s);
    lemma_base_carries(s, dict);
    lemma_in_v5(s, order, SegmentKind::Metadata, v5_write::metadata_image(s, index));
    lemma_in_v5(s, order, SegmentKind::StringOffsets, views::bytes_of_u64s(string_dict::text_offsets(dict)));
    lemma_in_v5(s, order, SegmentKind::StringBytes, string_dict::text_blob(dict));
    lemma_in_v5(s, order, SegmentKind::NodeTableDirectory, v5_write::node_dir_image(s.nodes, nn));
    lemma_in_v5(
        s,
        order,
        SegmentKind::RelTableDirectory,
        v5_write::rel_dir_image(s.rels, nr, v5_write::node_columns(s.nodes, nn).len() as int),
    );
    lemma_in_v5(s, order, SegmentKind::ColumnDirectory, v5_write::column_dir_image(cols));
    lemma_in_v5(s, order, SegmentKind::ColumnBlockIndex, v5_write::block_index_image(cols, index));
    lemma_in_v5(s, order, SegmentKind::ColumnBodies, v5_write::bodies_image(cols, index));
    assert(f[0].kind == SegmentKind::ForwardCsrOffsets);
    assert(f[1].kind == SegmentKind::ForwardCsrTargets);
    lemma_in_v5(
        s,
        order,
        SegmentKind::ForwardCsrOffsets,
        views::bytes_of_u32s(v5_write::fwd_offsets(s.rels, nr)),
    );
    lemma_in_v5(
        s,
        order,
        SegmentKind::ForwardCsrTargets,
        views::bytes_of_u32s(v5_write::fwd_targets(s.rels, nr)),
    );
    if let Some(x) = s.ids {
        let e = v5_write::id_segments(s);
        let a = id_lookup::lookup_records(v5_write::by_id(x.nodes));
        let b = id_lookup::lookup_records(v5_write::by_id(x.edges));
        let n = views::bytes_of_u64s(v5_write::joined(x.node_ids, x.node_ids.len() as int));
        let m = views::bytes_of_u64s(v5_write::joined(x.edge_ids, x.edge_ids.len() as int));
        assert(e[0].kind == SegmentKind::NodeIdLookup && e[0].body == a);
        assert(e[1].kind == SegmentKind::EdgeIdLookup && e[1].body == b);
        assert(e[2].kind == SegmentKind::NodeOriginalIds && e[2].body == n);
        assert(e[3].kind == SegmentKind::EdgeOriginalIds && e[3].body == m);
        lemma_in_v5(s, order, SegmentKind::NodeIdLookup, a);
        lemma_in_v5(s, order, SegmentKind::EdgeIdLookup, b);
        lemma_in_v5(s, order, SegmentKind::NodeOriginalIds, n);
        lemma_in_v5(s, order, SegmentKind::EdgeOriginalIds, m);
    }
}

proof fn lemma_v5_reverse(s: StoreView, order: StringCodeOrder)
    requires
        store_sound(s),
    ensures
        layout_laws::carries_reverse(s, v5_layout(s, order)),
{
    let dict = intern::dictionary(intern::store_texts(s), order);
    let nr = s.rels.len() as int;
    let a = views::bytes_of_u32s(v5_write::rev_offsets(s.rels, nr));
    let b = views::bytes_of_u32s(v5_write::rev_targets(s.rels, nr));
    let c = views::bytes_of_u32s(v5_write::rev_positions(s.rels, nr));
    let ka = SegmentKind::ReverseCsrOffsets;
    let kb = SegmentKind::ReverseCsrTargets;
    let kc = SegmentKind::ForwardPositions;
    let r = v5_write::reverse_segments(s);
    lemma_in_v5(s, order, ka, a);
    lemma_in_v5(s, order, kb, b);
    lemma_in_v5(s, order, kc, c);
    lemma_any_reverse(s.rels, nr);
    lemma_base_kinds(s, dict);
    lemma_forward_kinds(s);
    lemma_id_kinds(s);
    lemma_lookup_kinds(s, dict);
    layout_laws::lemma_no_kind(v5_write::base_segments(s, dict), 0, 9);
    layout_laws::lemma_no_kind(v5_write::forward_segments(s), 9, 11);
    layout_laws::lemma_no_kind(v5_write::id_segments(s), 14, 18);
    layout_laws::lemma_no_kind(v5_write::lookup_segments(s, dict), 18, 21);
    if v5_write::any_reverse(s.rels, nr) {
        assert(r[0].kind == ka);
        assert(r[1].kind == kb);
        assert(r[2].kind == kc);
        assert forall|t: int| 0 <= t < s.rels.len() implies (#[trigger] s.rels[t]).bwd is Some by {
            let k = choose|k: int| 0 <= k < nr && (#[trigger] s.rels[k]).bwd is Some;
            assert(s.rels[k].bwd is Some);
        }
    } else {
        assert forall|t: int| 0 <= t < s.rels.len() implies (#[trigger] s.rels[t]).bwd is None by {}
    }
}

proof fn lemma_v5_laid_out(s: StoreView, order: StringCodeOrder)
    requires
        v5_written(s, order),
        store_sound(s),
    ensures
        layout_laws::laid_out(s, v5_layout(s, order)),
        layout_laws::layout_image(s, v5_layout(s, order)) == v5_write::v5_image(s, order),
{
    reveal(layout_laws::laid_out);
    intern::lemma_dictionary(intern::store_texts(s), order);
    v5_write::lemma_store_indexed(s, order);
    lemma_v5_kinds(s, order);
    lemma_v5_tables(s, order);
    lemma_v5_reverse(s, order);
    lemma_lookup_carries(s, order);
}

/// The zone maps of a store's payload.
pub open spec fn zones_of_store(s: StoreView) -> ZonesView {
    ZonesView {
        nodes: Seq::new(s.nodes.len(), |i: int| zone_laws::stored_zone_map(s.nodes[i].zones)),
        rels: v5_read::no_maps(s.rels.len()),
        node_blocks: Seq::new(s.nodes.len(), |i: int| zone_laws::stored_block_map(s.nodes[i].blocks)),
        rel_blocks: v5_read::no_maps(s.rels.len()),
    }
}

proof fn lemma_zones_read(s: StoreView, order: StringCodeOrder)
    requires
        v5_written(s, order),
        store_sound(s),
    ensures
        v5_read::zones_read(
            v5_write::v5_image(s, order),
            intern::dictionary(intern::store_texts(s), order),
            s.nodes.len(),
            s.rels.len(),
        ) == Ok::<ZonesView, FormatError>(zones_of_store(s)),
{
    let d = v5_write::v5_image(s, order);
    let dict = intern::dictionary(intern::store_texts(s), order);
    let index = intern::codes_of_texts(dict);
    let v = s.nodes;
    let n = v.len() as int;
    let nr = s.rels.len();
    let a = zone_maps::zone_segment(zone_maps::table_zone_rows(v, n), index);
    let b = zone_maps::zone_segment(zone_maps::block_zone_rows(v, n), index);
    intern::lemma_dictionary(intern::store_texts(s), order);
    intern::lemma_codes_match(dict);
    lemma_lookup_carries(s, order);
    lemma_v5_laid_out(s, order);
    zone_laws::lemma_zone_maps_round_trip(v, nr, index, dict);
    let want = zones_of_store(s);
    let tr = zone_maps::zone_rows_of(a, dict);
    let br = zone_maps::zone_rows_of(b, dict);
    assert forall|t: int| 0 <= t < n implies #[trigger] want.nodes[t] == zone_maps::zones_for(
        tr,
        tr.len() as int,
        zone_maps::node_zone_id(t),
    ) by {}
    assert forall|t: int| 0 <= t < n implies #[trigger] want.node_blocks[t] == zone_maps::all_block_zones(
        zone_maps::blocks_for(br, br.len() as int, zone_maps::node_zone_id(t)),
    ) by {}
    assert forall|t: int| 0 <= t < nr implies zone_maps::all_block_zones(
        #[trigger] zone_maps::blocks_for(br, br.len() as int, zone_maps::rel_zone_id(t)),
    ) == Map::<Seq<char>, Seq<ZoneView>>::empty() by {
        assert(zone_maps::all_block_zones(Map::<Seq<char>, Seq<(u32, ZoneView)>>::empty()) =~= Map::empty());
    }
    if a.len() > 0 {
        layout_laws::lemma_found(s, v5_layout(s, order), SegmentKind::TableZoneMaps, a);
        assert(Seq::new(v.len(), |i: int| zone_maps::zones_for(tr, tr.len() as int, zone_maps::node_zone_id(i)))
            =~= want.nodes);
        assert(Seq::new(nr, |i: int| zone_maps::zones_for(tr, tr.len() as int, zone_maps::rel_zone_id(i)))
            =~= want.rels);
    } else {
        layout_laws::lemma_absent(s, v5_layout(s, order), SegmentKind::TableZoneMaps);
        assert(tr.len() == 0);
        assert forall|t: int| 0 <= t < n implies #[trigger] want.nodes[t] == Map::<
            Seq<char>,
            ZoneView,
        >::empty() by {
            assert(zone_maps::zones_for(tr, tr.len() as int, zone_maps::node_zone_id(t)) == Map::<
                Seq<char>,
                ZoneView,
            >::empty());
        }
        assert(v5_read::no_maps(v.len()) =~= want.nodes);
    }
    if b.len() > 0 {
        layout_laws::lemma_found(s, v5_layout(s, order), SegmentKind::BlockZoneMaps, b);
        assert(Seq::new(v.len(), |i: int| zone_maps::all_block_zones(zone_maps::node_blocks(br, v.len())[i]))
            =~= want.node_blocks);
        assert(Seq::new(nr, |i: int| zone_maps::all_block_zones(zone_maps::rel_blocks(br, nr)[i])) =~= want.rel_blocks);
    } else {
        layout_laws::lemma_absent(s, v5_layout(s, order), SegmentKind::BlockZoneMaps);
        assert(br.len() == 0);
        assert forall|t: int| 0 <= t < n implies #[trigger] want.node_blocks[t] == Map::<
            Seq<char>,
            Seq<ZoneView>,
        >::empty() by {
            assert(zone_maps::blocks_for(br, br.len() as int, zone_maps::node_zone_id(t)) == Map::<
                Seq<char>,
                Seq<(u32, ZoneView)>,
            >::empty());
            assert(zone_maps::all_block_zones(Map::<Seq<char>, Seq<(u32, ZoneView)>>::empty())
                =~= Map::empty());
        }
        assert(v5_read::no_maps(v.len()) =~= want.node_blocks);
    }
}

proof fn lemma_no_companions(s: StoreView, order: StringCodeOrder)
    requires
        v5_written(s, order),
        store_sound(s),
    ensures
        v5_read::companions_read(v5_write::v5_image(s, order)) == Ok::<CompanionsView, FormatError>(
            CompanionsView { membership: None, presence: None, null: None },
        ),
{
    let v = v5_write::v5_segments(s, order);
    let w = v5_layout(s, order);
    lemma_v5_laid_out(s, order);
    layout_laws::lemma_layout_frame(s, w);
    lemma_v5_kinds(s, order);
    layout_laws::lemma_no_kind(v, 0, 21);
    assert(!payload::has_kind(v, SegmentKind::NodeLabelMembership));
    assert(!payload::has_kind(v, SegmentKind::ColumnRowPresence));
    assert(!payload::has_kind(v, SegmentKind::ColumnRowNull));
    assert(payload::layout_flags_of(v) == 0);
    layout_laws::lemma_absent(s, w, SegmentKind::NodeLabelMembership);
    layout_laws::lemma_absent(s, w, SegmentKind::ColumnRowPresence);
    layout_laws::lemma_absent(s, w, SegmentKind::ColumnRowNull);
}

/// A payload opens as the store it was written from: the same tables with the
/// same labels, rows, columns, adjacency and zone maps, the same identifiers
/// and totals, under either numbering of texts.
#[verifier::rlimit(80)]
#[verifier::spinoff_prover]
pub proof fn lemma_v5_round_trip(s: StoreView, order: StringCodeOrder)
    requires
        store_sound(s),
        v5_written(s, order),
        ({
            let index = intern::codes_of_texts(intern::dictionary(intern::store_texts(s), order));
            v5_read::schema_bytes(opened_nodes(s.nodes, index), opened_rels(s.rels, index)) <= 16777216
        }),
    ensures
        v5_read::v5_read(v5_write::v5_image(s, order)) == Ok::<MappedStoreView, FormatError>(opened_store(s, order)),
{
    let w = v5_layout(s, order);
    let index = intern::codes_of_texts(w.dict);
    let z = zones_of_store(s);
    let c = CompanionsView { membership: None, presence: None, null: None };
    lemma_v5_laid_out(s, order);
    lemma_zones_read(s, order);
    lemma_no_companions(s, order);
    assert(layout_laws::layout_nodes(s, w, z) =~= opened_nodes(s.nodes, index));
    assert(layout_laws::layout_rels(s, w, z) =~= opened_rels(s.rels, index));
    layout_laws::lemma_layout_reads(s, w, z, c);
    lemma_lookup_carries(s, order);
    code_index::lemma_code_index_len(w.dict);
    assert(layout_laws::has_codes(w) == (w.dict.len() > 0));
}

/// The codes of an opened text column stand for the texts of its rows.
pub proof fn lemma_opened_texts(
    entries: Seq<Seq<char>>,
    codes: Seq<u32>,
    dict: Seq<Seq<char>>,
    i: int,
)
    requires
        dict.no_duplicates(),
        dict.len() <= u32::MAX,
        v5_write::column_fault(ColumnView::Dict { entries, codes }, intern::codes_of_texts(dict)) is None,
        0 <= i < codes.len(),
    ensures
        ({
            let g = v5_write::global_codes(entries, codes, intern::codes_of_texts(dict));
            &&& g[i] < dict.len()
            &&& dict[g[i] as int] == entries[codes[i] as int]
        }),
{
    intern::lemma_codes_match(dict);
    let checks = v5_write::text_row_checks(entries, codes, intern::codes_of_texts(dict));
    faults::lemma_no_fault(codes.len(), checks);
    assert(checks(i) is None);
    assert(intern::codes_of_texts(dict)[entries[codes[i] as int]] < dict.len());
}

// --------------------------------------------------------------- accounting

proof fn lemma_schema_not_negative(nodes: Seq<MappedNodeView>, rels: Seq<MappedRelView>, n: int, m: int)
    ensures
        v5_read::label_bytes(nodes, n) >= 0,
        v5_read::type_bytes(rels, m) >= 0,
    decreases n, m,
{
    if n > 0 {
        lemma_schema_not_negative(nodes, rels, n - 1, m);
    } else if m > 0 {
        lemma_schema_not_negative(nodes, rels, n, m - 1);
    }
}

/// Whatever opens is served from its payload: all its bytes are accounted as
/// mapped, no heap bytes grow with the graph, and the schema is within its
/// budget.
pub proof fn lemma_opened_is_disk_native(d: Seq<u8>, m: MappedStoreView)
    requires
        v5_read::v5_read(d) == Ok::<MappedStoreView, FormatError>(m),
        d.len() <= usize::MAX,
    ensures
        m.accounting.mapped_payload_index_bytes == d.len(),
        m.accounting.anonymous_proportional_structure_bytes == 0,
        accounting::disk_native(m.accounting),
{
    lemma_schema_not_negative(m.nodes, m.rels, m.nodes.len() as int, m.rels.len() as int);
}

/// What is opened from a store's payload is the store: its totals, the labels
/// and rows of its node tables, the types and ends of its relationship tables,
/// and whether it keeps original ids.
pub proof fn lemma_opened_is_the_store(s: StoreView, order: StringCodeOrder, m: MappedStoreView)
    requires
        store_sound(s),
        v5_written(s, order),
        v5_read::v5_read(v5_write::v5_image(s, order)) == Ok::<MappedStoreView, FormatError>(m),
        ({
            let index = intern::codes_of_texts(intern::dictionary(intern::store_texts(s), order));
            v5_read::schema_bytes(opened_nodes(s.nodes, index), opened_rels(s.rels, index)) <= 16777216
        }),
    ensures
        m.total_nodes == v5_write::node_total(s.nodes, s.nodes.len() as int),
        m.total_edges == v5_write::edge_total(s.rels, s.rels.len() as int),
        m.nodes.len() == s.nodes.len(),
        forall|t: int|
            0 <= t < s.nodes.len() ==> (#[trigger] m.nodes[t]).label == s.nodes[t].label
                && m.nodes[t].rows == s.nodes[t].rows,
        m.rels.len() == s.rels.len(),
        forall|t: int|
            0 <= t < s.rels.len() ==> (#[trigger] m.rels[t]).edge_type == s.rels[t].edge_type
                && m.rels[t].src == s.rels[t].src && m.rels[t].dst == s.rels[t].dst
                && m.rels[t].fwd.offsets == s.rels[t].fwd.offsets && m.rels[t].fwd.targets
                == s.rels[t].fwd.targets,
        m.ids is Some == s.ids is Some,
{
    lemma_v5_round_trip(s, order);
    v5_write::lemma_totals(s, s.nodes.len() as int, s.rels.len() as int);
}

} // verus!
