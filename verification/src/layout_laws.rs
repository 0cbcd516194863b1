//! A payload reads back as what its segments spell, whatever wrote them.

use crate::code_index;
use crate::directory::SegmentKind;
use crate::directory;
use crate::error::FormatError;
use crate::faults;
use crate::id_lookup::LookupEntry;
use crate::id_lookup;
use crate::intern;
use crate::outside;
use crate::payload::SegmentView;
use crate::payload;
use crate::string_dict;
use crate::tables::{IdsView, NodeTableView, RelTableView, StoreView};
use crate::v5_parts_laws;
use crate::v5_read::{CompanionsView, CursorView, HeadView, MappedCsrView, MappedIdsView, MappedNodeView, MappedRelView, MappedStoreView, PartsView, ZonesView};
use crate::v5_read;
use crate::v5_write::{total_edges, total_nodes};
use crate::v5_write;
use crate::value::ZoneView;
use crate::views;
use crate::wire;
use vstd::prelude::*;

verus! {

broadcast use wire::group_wire;

/// Some segment has the kind and the body.
pub open spec fn carries(s: Seq<SegmentView>, kind: SegmentKind, body: Seq<u8>) -> bool {
    exists|i: int| 0 <= i < s.len() && (#[trigger] s[i]).kind == kind && s[i].body == body
}

/// What two rows of segments carry, they carry together.
pub proof fn lemma_carries_add(
    a: Seq<SegmentView>,
    b: Seq<SegmentView>,
    kind: SegmentKind,
    body: Seq<u8>,
)
    ensures
        carries(a, kind, body) ==> carries(a + b, kind, body),
        carries(b, kind, body) ==> carries(a + b, kind, body),
        payload::has_kind(a + b, kind) <==> payload::has_kind(a, kind) || payload::has_kind(b, kind),
{
    let s = a + b;
    if carries(a, kind, body) {
        let i = choose|i: int|
            0 <= i < a.len() && (#[trigger] a[i]).kind == kind && a[i].body == body;
        assert(s[i] == a[i]);
    }
    if carries(b, kind, body) {
        let i = choose|i: int|
            0 <= i < b.len() && (#[trigger] b[i]).kind == kind && b[i].body == body;
        assert(s[a.len() + i] == b[i]);
    }
    if payload::has_kind(a, kind) {
        let i = choose|i: int| 0 <= i < a.len() && (#[trigger] a[i]).kind == kind;
        assert(s[i] == a[i]);
    }
    if payload::has_kind(b, kind) {
        let i = choose|i: int| 0 <= i < b.len() && (#[trigger] b[i]).kind == kind;
        assert(s[a.len() + i] == b[i]);
    }
    if payload::has_kind(s, kind) {
        let i = choose|i: int| 0 <= i < s.len() && (#[trigger] s[i]).kind == kind;
        if i < a.len() {
            assert(a[i] == s[i]);
        } else {
            assert(b[i - a.len()] == s[i]);
        }
    }
}

/// The kinds of a row lie within bounds.
pub open spec fn kinds_within(s: Seq<SegmentView>, lo: int, hi: int) -> bool {
    forall|i: int| 0 <= i < s.len() ==> lo <= directory::kind_code((#[trigger] s[i]).kind) < hi
}

/// Rows of segments whose kinds follow one another ascend together.
pub proof fn lemma_ascend_add(a: Seq<SegmentView>, b: Seq<SegmentView>, lo: int, mid: int, hi: int)
    requires
        payload::kinds_ascend(a),
        payload::kinds_ascend(b),
        kinds_within(a, lo, mid),
        kinds_within(b, mid, hi),
        lo <= mid <= hi,
    ensures
        payload::kinds_ascend(a + b),
        kinds_within(a + b, lo, hi),
{
    let s = a + b;
    assert forall|i: int, j: int| 0 <= i < j < s.len() implies directory::kind_code((#[trigger] s[i]).kind)
        < directory::kind_code((#[trigger] s[j]).kind) by {
        if j < a.len() {
            assert(s[i] == a[i] && s[j] == a[j]);
        } else if i < a.len() {
            assert(s[i] == a[i] && s[j] == b[j - a.len()]);
        } else {
            assert(s[i] == b[i - a.len()] && s[j] == b[j - a.len()]);
        }
    }
    assert forall|i: int| 0 <= i < s.len() implies lo <= directory::kind_code((#[trigger] s[i]).kind)
        < hi by {
        if i < a.len() {
            assert(s[i] == a[i]);
        } else {
            assert(s[i] == b[i - a.len()]);
        }
    }
}

/// A row of segments within bounds has no kind outside them.
pub proof fn lemma_no_kind(s: Seq<SegmentView>, lo: int, hi: int)
    requires
        kinds_within(s, lo, hi),
    ensures
        forall|k: SegmentKind|
            !(lo <= directory::kind_code(k) < hi) ==> !#[trigger] payload::has_kind(s, k),
{
}

/// A segment of a payload is what was handed in under its kind.
pub proof fn lemma_segment_found(
    s: Seq<SegmentView>,
    flags: u8,
    total_nodes: u64,
    total_edges: u64,
    kind: SegmentKind,
    body: Seq<u8>,
)
    requires
        payload::segments_fit(s),
        payload::kinds_ascend(s),
        payload::payload_image(s, flags, total_nodes, total_edges).len() <= u64::MAX,
        carries(s, kind, body),
    ensures
        ({
            let d = payload::payload_image(s, flags, total_nodes, total_edges);
            &&& v5_read::segment_of(d, kind) == Ok::<Seq<u8>, FormatError>(body)
            &&& v5_read::optional_segment(d, kind) == Ok::<Option<Seq<u8>>, FormatError>(Some(body))
        }),
        body.len() <= u64::MAX,
{
    payload::lemma_assembled_payload_parses(s, flags, total_nodes, total_edges);
    let i = choose|i: int| 0 <= i < s.len() && (#[trigger] s[i]).kind == kind && s[i].body == body;
    assert(s[i].kind == kind);
}

/// A kind that was not handed in is not found.
pub proof fn lemma_segment_absent(
    s: Seq<SegmentView>,
    flags: u8,
    total_nodes: u64,
    total_edges: u64,
    kind: SegmentKind,
)
    requires
        payload::segments_fit(s),
        payload::kinds_ascend(s),
        payload::payload_image(s, flags, total_nodes, total_edges).len() <= u64::MAX,
        !payload::has_kind(s, kind),
    ensures
        v5_read::optional_segment(payload::payload_image(s, flags, total_nodes, total_edges), kind) == Ok::<
            Option<Seq<u8>>,
            FormatError,
        >(None),
{
    payload::lemma_assembled_payload_parses(s, flags, total_nodes, total_edges);
}

/// The reverse adjacency of a table fits the table and its destinations.
pub open spec fn reverse_sound(t: RelTableView, nodes: Seq<NodeTableView>) -> bool {
    t.bwd matches Some(b) ==> {
        &&& b.offsets.len() == nodes[t.dst as int].rows + 1
        &&& b.targets.len() == t.fwd.targets.len()
        &&& v5_read::csr_shaped(b.offsets, b.targets.len() as int)
        &&& b.edge_data matches Some(w) ==> w.len() == b.targets.len()
    }
}

/// A relationship table whose tables are there and whose adjacency fits them.
pub open spec fn rel_sound(t: RelTableView, nodes: Seq<NodeTableView>) -> bool {
    &&& t.src < nodes.len()
    &&& t.dst < nodes.len()
    &&& t.fwd.offsets.len() == nodes[t.src as int].rows + 1
    &&& v5_read::csr_shaped(t.fwd.offsets, t.fwd.targets.len() as int)
    &&& reverse_sound(t, nodes)
    &&& v5_parts_laws::columns_tagged(t.columns)
}

/// Tables whose parts fit together: columns carry their encoding number, and
/// adjacency fits its tables.
pub open spec fn tables_sound(s: StoreView) -> bool {
    &&& forall|t: int| 0 <= t < s.nodes.len() ==> v5_parts_laws::columns_tagged((#[trigger] s.nodes[t]).columns)
    &&& forall|t: int| 0 <= t < s.rels.len() ==> rel_sound(#[trigger] s.rels[t], s.nodes)
}

/// What a payload is made of: its dictionary and its segments.
pub struct Layout {
    /// Texts by their codes.
    pub dict: Seq<Seq<char>>,
    /// Segments.
    pub segs: Seq<SegmentView>,
}

/// The flags of a store's payload.
pub open spec fn store_flags(s: StoreView) -> u8 {
    if s.ids is Some {
        1
    } else {
        0
    }
}

/// The payload of a layout.
pub open spec fn layout_image(s: StoreView, w: Layout) -> Seq<u8> {
    payload::payload_image(
        w.segs,
        store_flags(s),
        v5_write::node_total(s.nodes, s.nodes.len() as int) as u64,
        v5_write::edge_total(s.rels, s.rels.len() as int) as u64,
    )
}

/// The segments hold metadata, texts, table directories and columns of a store.
pub open spec fn carries_tables(s: StoreView, w: Layout) -> bool {
    let index = intern::codes_of_texts(w.dict);
    let cols = v5_write::all_columns(s);
    let nn = s.nodes.len() as int;
    let nr = s.rels.len() as int;
    &&& carries(w.segs, SegmentKind::Metadata, v5_write::metadata_image(s, index))
    &&& carries(w.segs, SegmentKind::StringOffsets, views::bytes_of_u64s(string_dict::text_offsets(w.dict)))
    &&& carries(w.segs, SegmentKind::StringBytes, string_dict::text_blob(w.dict))
    &&& carries(w.segs, SegmentKind::NodeTableDirectory, v5_write::node_dir_image(s.nodes, nn))
    &&& carries(
        w.segs,
        SegmentKind::RelTableDirectory,
        v5_write::rel_dir_image(s.rels, nr, v5_write::node_columns(s.nodes, nn).len() as int),
    )
    &&& carries(w.segs, SegmentKind::ColumnDirectory, v5_write::column_dir_image(cols))
    &&& carries(w.segs, SegmentKind::ColumnBlockIndex, v5_write::block_index_image(cols, index))
    &&& carries(w.segs, SegmentKind::ColumnBodies, v5_write::bodies_image(cols, index))
    &&& carries(
        w.segs,
        SegmentKind::ForwardCsrOffsets,
        views::bytes_of_u32s(v5_write::fwd_offsets(s.rels, nr)),
    )
    &&& carries(
        w.segs,
        SegmentKind::ForwardCsrTargets,
        views::bytes_of_u32s(v5_write::fwd_targets(s.rels, nr)),
    )
}

/// The segments hold a reverse adjacency.
pub open spec fn has_reverse(w: Layout) -> bool {
    payload::has_kind(w.segs, SegmentKind::ReverseCsrOffsets)
}

/// The segments hold the reverse adjacency of all relationship tables, or none
/// where no table has one.
pub open spec fn carries_reverse(s: StoreView, w: Layout) -> bool {
    let nr = s.rels.len() as int;
    if has_reverse(w) {
        &&& carries(
            w.segs,
            SegmentKind::ReverseCsrOffsets,
            views::bytes_of_u32s(v5_write::rev_offsets(s.rels, nr)),
        )
        &&& carries(
            w.segs,
            SegmentKind::ReverseCsrTargets,
            views::bytes_of_u32s(v5_write::rev_targets(s.rels, nr)),
        )
        &&& carries(
            w.segs,
            SegmentKind::ForwardPositions,
            views::bytes_of_u32s(v5_write::rev_positions(s.rels, nr)),
        )
        &&& forall|t: int| 0 <= t < s.rels.len() ==> (#[trigger] s.rels[t]).bwd is Some
    } else {
        &&& !payload::has_kind(w.segs, SegmentKind::ReverseCsrTargets)
        &&& !payload::has_kind(w.segs, SegmentKind::ForwardPositions)
        &&& forall|t: int| 0 <= t < s.rels.len() ==> (#[trigger] s.rels[t]).bwd is None
    }
}

/// The segments hold the identifiers of a store, where it keeps them.
pub open spec fn carries_ids(s: StoreView, w: Layout) -> bool {
    s.ids matches Some(x) ==> {
        &&& carries(w.segs, SegmentKind::NodeIdLookup, id_lookup::lookup_records(v5_write::by_id(x.nodes)))
        &&& carries(w.segs, SegmentKind::EdgeIdLookup, id_lookup::lookup_records(v5_write::by_id(x.edges)))
        &&& carries(
            w.segs,
            SegmentKind::NodeOriginalIds,
            views::bytes_of_u64s(v5_write::joined(x.node_ids, x.node_ids.len() as int)),
        )
        &&& carries(
            w.segs,
            SegmentKind::EdgeOriginalIds,
            views::bytes_of_u64s(v5_write::joined(x.edge_ids, x.edge_ids.len() as int)),
        )
    }
}

/// The segments hold a code index.
pub open spec fn has_codes(w: Layout) -> bool {
    payload::has_kind(w.segs, SegmentKind::DictionaryCodeIndex)
}

/// A layout of a store that was written: its dictionary covers the store, its
/// segments are in order, and they hold the parts of the store.
#[verifier::opaque]
pub open spec fn laid_out(s: StoreView, w: Layout) -> bool {
    let index = intern::codes_of_texts(w.dict);
    &&& w.dict.no_duplicates()
    &&& w.dict.len() <= u32::MAX
    &&& v5_write::texts_short(w.dict)
    &&& v5_write::store_indexed(s, index)
    &&& v5_write::limits_fault(s) is None
    &&& v5_write::columns_fault(v5_write::all_columns(s), index) is None
    &&& payload::segments_fit(w.segs)
    &&& payload::kinds_ascend(w.segs)
    &&& layout_image(s, w).len() <= u64::MAX
    &&& carries_tables(s, w)
    &&& carries_reverse(s, w)
    &&& carries_ids(s, w)
    &&& has_codes(w) ==> carries(
        w.segs,
        SegmentKind::DictionaryCodeIndex,
        code_index::code_index_of(w.dict),
    )
}

/// A node table as it is opened, its zone maps given.
pub open spec fn opened_node_with(
    t: NodeTableView,
    index: Map<Seq<char>, u32>,
    zones: Map<Seq<char>, ZoneView>,
    blocks: Map<Seq<char>, Seq<ZoneView>>,
) -> MappedNodeView {
    MappedNodeView {
        label: t.label,
        rows: t.rows,
        columns: v5_parts_laws::opened_columns(t.columns, index),
        zones,
        blocks,
    }
}

/// A relationship table as it is opened, its zone maps given.
pub open spec fn opened_rel_with(
    t: RelTableView,
    index: Map<Seq<char>, u32>,
    zones: Map<Seq<char>, ZoneView>,
    blocks: Map<Seq<char>, Seq<ZoneView>>,
) -> MappedRelView {
    MappedRelView {
        edge_type: t.edge_type,
        src: t.src,
        dst: t.dst,
        fwd: MappedCsrView {
            offsets: t.fwd.offsets,
            targets: t.fwd.targets,
            edge_data: None,
        },
        bwd: match t.bwd {
            Some(b) => Some(
                MappedCsrView {
                    offsets: b.offsets,
                    targets: b.targets,
                    edge_data: Some(v5_write::csr_positions(t.bwd)),
                },
            ),
            None => None,
        },
        columns: v5_parts_laws::opened_columns(t.columns, index),
        zones,
        blocks,
    }
}

/// Node tables as they are opened.
pub open spec fn layout_nodes(s: StoreView, w: Layout, z: ZonesView) -> Seq<MappedNodeView> {
    Seq::new(
        s.nodes.len(),
        |i: int|
            opened_node_with(
                s.nodes[i],
                intern::codes_of_texts(w.dict),
                z.nodes[i],
                z.node_blocks[i],
            ),
    )
}

/// Relationship tables as they are opened.
pub open spec fn layout_rels(s: StoreView, w: Layout, z: ZonesView) -> Seq<MappedRelView> {
    Seq::new(
        s.rels.len(),
        |i: int|
            opened_rel_with(s.rels[i], intern::codes_of_texts(w.dict), z.rels[i], z.rel_blocks[i]),
    )
}

/// Preserved identifiers as they are opened.
pub open spec fn opened_ids(x: Option<IdsView>) -> Option<MappedIdsView> {
    match x {
        Some(v) => Some(
            MappedIdsView {
                nodes: v5_write::by_id(v.nodes),
                edges: v5_write::by_id(v.edges),
                node_ids: v5_write::joined(v.node_ids, v.node_ids.len() as int),
                edge_ids: v5_write::joined(v.edge_ids, v.edge_ids.len() as int),
            },
        ),
        None => None,
    }
}

/// The codes of a dictionary by ascending text, where the payload has them.
pub open spec fn layout_codes(w: Layout) -> Option<Seq<u32>> {
    if has_codes(w) {
        Some(code_index::codes_of(code_index::code_index_of(w.dict)))
    } else {
        None
    }
}

/// A store as it is opened from its payload, zone maps and companions given.
pub open spec fn opened_layout(s: StoreView, w: Layout, z: ZonesView, c: CompanionsView) -> MappedStoreView {
    let nodes = layout_nodes(s, w, z);
    let rels = layout_rels(s, w, z);
    let meta = v5_parts_laws::meta_of_store(s);
    MappedStoreView {
        dict: w.dict,
        codes: layout_codes(w),
        nodes,
        rels,
        total_nodes: meta.total_nodes,
        total_edges: meta.total_edges,
        ids: opened_ids(s.ids),
        companions: c,
        accounting: v5_read::accounting_of(layout_image(s, w), v5_read::schema_bytes(nodes, rels)),
        node_keys: v5_read::node_keys_of(meta.nodes),
        rel_keys: v5_read::rel_keys_of(meta.rels),
    }
}

/// A segment of a layout is found in its payload.
pub proof fn lemma_found(s: StoreView, w: Layout, kind: SegmentKind, body: Seq<u8>)
    requires
        laid_out(s, w),
        carries(w.segs, kind, body),
    ensures
        v5_read::segment_of(layout_image(s, w), kind) == Ok::<Seq<u8>, FormatError>(body),
        v5_read::optional_segment(layout_image(s, w), kind) == Ok::<Option<Seq<u8>>, FormatError>(
            Some(body),
        ),
        body.len() <= u64::MAX,
{
    reveal(laid_out);
    let tn = v5_write::node_total(s.nodes, s.nodes.len() as int) as u64;
    let te = v5_write::edge_total(s.rels, s.rels.len() as int) as u64;
    lemma_segment_found(w.segs, store_flags(s), tn, te, kind, body);
}

/// A kind that a layout has not is not found in its payload.
pub proof fn lemma_absent(s: StoreView, w: Layout, kind: SegmentKind)
    requires
        laid_out(s, w),
        !payload::has_kind(w.segs, kind),
    ensures
        v5_read::optional_segment(layout_image(s, w), kind) == Ok::<Option<Seq<u8>>, FormatError>(None),
{
    reveal(laid_out);
    let tn = v5_write::node_total(s.nodes, s.nodes.len() as int) as u64;
    let te = v5_write::edge_total(s.rels, s.rels.len() as int) as u64;
    lemma_segment_absent(w.segs, store_flags(s), tn, te, kind);
}

proof fn lemma_tables_writable(s: StoreView, w: Layout)
    requires
        laid_out(s, w),
    ensures
        ({
            let index = intern::codes_of_texts(w.dict);
            &&& forall|i: int|
                0 <= i < s.nodes.len() ==> v5_parts_laws::node_writable(#[trigger] s.nodes[i], index)
            &&& forall|i: int| 0 <= i < s.rels.len() ==> v5_parts_laws::rel_writable(#[trigger] s.rels[i], index)
        }),
{
    reveal(laid_out);
    let index = intern::codes_of_texts(w.dict);
    faults::lemma_no_fault(s.nodes.len(), v5_write::node_limit_checks(s.nodes));
    faults::lemma_no_fault(s.rels.len(), v5_write::rel_limit_checks(s.rels));
    assert forall|i: int| 0 <= i < s.nodes.len() implies v5_parts_laws::node_writable(
        #[trigger] s.nodes[i],
        index,
    ) by {
        assert(v5_write::node_limit_checks(s.nodes)(i) is None);
    }
    assert forall|i: int| 0 <= i < s.rels.len() implies v5_parts_laws::rel_writable(
        #[trigger] s.rels[i],
        index,
    ) by {
        assert(v5_write::rel_limit_checks(s.rels)(i) is None);
    }
}

proof fn lemma_head_reads(s: StoreView, w: Layout)
    requires
        laid_out(s, w),
    ensures
        v5_read::head_read(layout_image(s, w)) == Ok::<HeadView, FormatError>(
            HeadView { dict: w.dict, codes: layout_codes(w), meta: v5_parts_laws::meta_of_store(s) },
        ),
{
    reveal(laid_out);
    let dict = w.dict;
    let index = intern::codes_of_texts(dict);
    let offs = views::bytes_of_u64s(string_dict::text_offsets(dict));
    let blob = string_dict::text_blob(dict);
    lemma_found(s, w, SegmentKind::StringOffsets, offs);
    lemma_found(s, w, SegmentKind::StringBytes, blob);
    lemma_found(s, w, SegmentKind::Metadata, v5_write::metadata_image(s, index));
    string_dict::lemma_text_blob_len(dict);
    string_dict::lemma_dict_round_trip(dict);
    intern::lemma_codes_match(dict);
    lemma_tables_writable(s, w);
    v5_parts_laws::lemma_metadata_round_trip(s, index, dict);
    code_index::lemma_code_index_round_trip(dict);
    if has_codes(w) {
        lemma_found(s, w, SegmentKind::DictionaryCodeIndex, code_index::code_index_of(dict));
    } else {
        lemma_absent(s, w, SegmentKind::DictionaryCodeIndex);
    }
}

/// The segments of a payload from which tables are read.
pub open spec fn layout_parts(s: StoreView, w: Layout) -> PartsView {
    let index = intern::codes_of_texts(w.dict);
    let cols = v5_write::all_columns(s);
    let nn = s.nodes.len() as int;
    let nr = s.rels.len() as int;
    PartsView {
        node_dir: v5_write::node_dir_image(s.nodes, nn),
        rel_dir: v5_write::rel_dir_image(s.rels, nr, v5_write::node_columns(s.nodes, nn).len() as int),
        blocks: v5_write::block_index_image(cols, index),
        bodies: v5_write::bodies_image(cols, index),
        fwd_off: views::bytes_of_u32s(v5_write::fwd_offsets(s.rels, nr)),
        fwd_tgt: views::bytes_of_u32s(v5_write::fwd_targets(s.rels, nr)),
        rev: if has_reverse(w) {
            Some(
                (
                    views::bytes_of_u32s(v5_write::rev_offsets(s.rels, nr)),
                    views::bytes_of_u32s(v5_write::rev_targets(s.rels, nr)),
                    views::bytes_of_u32s(v5_write::rev_positions(s.rels, nr)),
                ),
            )
        } else {
            None
        },
    }
}

proof fn lemma_parts_read(s: StoreView, w: Layout)
    requires
        laid_out(s, w),
    ensures
        v5_read::parts_read(layout_image(s, w)) == Ok::<PartsView, FormatError>(layout_parts(s, w)),
{
    reveal(laid_out);
    let p = layout_parts(s, w);
    let cols = v5_write::all_columns(s);
    let nr = s.rels.len() as int;
    lemma_found(s, w, SegmentKind::NodeTableDirectory, p.node_dir);
    lemma_found(s, w, SegmentKind::RelTableDirectory, p.rel_dir);
    lemma_found(s, w, SegmentKind::ColumnDirectory, v5_write::column_dir_image(cols));
    lemma_found(s, w, SegmentKind::ColumnBlockIndex, p.blocks);
    lemma_found(s, w, SegmentKind::ColumnBodies, p.bodies);
    lemma_found(s, w, SegmentKind::ForwardCsrOffsets, p.fwd_off);
    lemma_found(s, w, SegmentKind::ForwardCsrTargets, p.fwd_tgt);
    if has_reverse(w) {
        lemma_found(
            s,
            w,
            SegmentKind::ReverseCsrOffsets,
            views::bytes_of_u32s(v5_write::rev_offsets(s.rels, nr)),
        );
        lemma_found(
            s,
            w,
            SegmentKind::ReverseCsrTargets,
            views::bytes_of_u32s(v5_write::rev_targets(s.rels, nr)),
        );
        lemma_found(
            s,
            w,
            SegmentKind::ForwardPositions,
            views::bytes_of_u32s(v5_write::rev_positions(s.rels, nr)),
        );
    } else {
        lemma_absent(s, w, SegmentKind::ReverseCsrOffsets);
        lemma_absent(s, w, SegmentKind::ReverseCsrTargets);
        lemma_absent(s, w, SegmentKind::ForwardPositions);
    }
}

proof fn lemma_node_columns_at(v: Seq<NodeTableView>, n: int, t: int, c: int)
    requires
        0 <= t < n <= v.len(),
        0 <= c < v[t].columns.len(),
    ensures
        v5_write::node_columns(v, t).len() + v[t].columns.len() <= v5_write::node_columns(v, n).len(),
        v5_write::node_columns(v, n)[v5_write::node_columns(v, t).len() + c] == v[t].columns[c].1,
    decreases n,
{
    if t < n - 1 {
        lemma_node_columns_at(v, n - 1, t, c);
    }
}

proof fn lemma_node_columns_len(v: Seq<NodeTableView>, n: int, t: int)
    requires
        0 <= t < n <= v.len(),
    ensures
        v5_write::node_columns(v, t).len() + v[t].columns.len() <= v5_write::node_columns(v, n).len(),
    decreases n,
{
    if t < n - 1 {
        lemma_node_columns_len(v, n - 1, t);
    }
}

proof fn lemma_rel_columns_at(v: Seq<RelTableView>, n: int, t: int, c: int)
    requires
        0 <= t < n <= v.len(),
        0 <= c < v[t].columns.len(),
    ensures
        v5_write::rel_columns(v, n)[v5_write::rel_columns(v, t).len() + c] == v[t].columns[c].1,
        v5_write::rel_columns(v, t).len() + v[t].columns.len() <= v5_write::rel_columns(v, n).len(),
    decreases n,
{
    if t < n - 1 {
        lemma_rel_columns_at(v, n - 1, t, c);
    }
}

proof fn lemma_rel_columns_len(v: Seq<RelTableView>, n: int, t: int)
    requires
        0 <= t < n <= v.len(),
    ensures
        v5_write::rel_columns(v, t).len() + v[t].columns.len() <= v5_write::rel_columns(v, n).len(),
    decreases n,
{
    if t < n - 1 {
        lemma_rel_columns_len(v, n - 1, t);
    }
}

/// All columns of a store that can be written fit their fields.
proof fn lemma_columns_fit(s: StoreView, w: Layout)
    requires
        laid_out(s, w),
    ensures
        ({
            let index = intern::codes_of_texts(w.dict);
            let cols = v5_write::all_columns(s);
            &&& v5_write::bodies_image(cols, index).len() <= u32::MAX
            &&& cols.len() <= u32::MAX
        }),
{
    reveal(laid_out);
    let index = intern::codes_of_texts(w.dict);
    let cols = v5_write::all_columns(s);
    faults::lemma_no_fault(cols.len(), v5_write::column_write_checks(cols, index));
    if cols.len() > 0 {
        let i = cols.len() - 1;
        assert(v5_write::column_write_checks(cols, index)(i) is None);
        assert(cols.take(i + 1) =~= cols);
    }
}

proof fn lemma_node_reads(s: StoreView, w: Layout, z: ZonesView, i: int)
    requires
        laid_out(s, w),
        tables_sound(s),
        0 <= i < s.nodes.len(),
    ensures
        ({
            let index = intern::codes_of_texts(w.dict);
            v5_read::node_read(
                v5_parts_laws::meta_of_node(s.nodes[i]),
                layout_parts(s, w),
                z,
                i,
            ) == Ok::<MappedNodeView, FormatError>(opened_node_with(s.nodes[i], index, z.nodes[i], z.node_blocks[i]))
        }),
{
    reveal(laid_out);
    let index = intern::codes_of_texts(w.dict);
    let v = s.nodes;
    let n = v.len() as int;
    let cols = v5_write::all_columns(s);
    let t = v[i];
    lemma_tables_writable(s, w);
    assert(v5_parts_laws::node_writable(t, index));
    lemma_columns_fit(s, w);
    v5_parts_laws::lemma_node_rec(v, n, i);
    lemma_node_columns_len(v, n, i);
    let start = v5_write::node_columns(v, i).len() as int;
    assert forall|c: int| 0 <= c < t.columns.len() implies cols[start + c] == (
    #[trigger] t.columns[c]).1 by {
        lemma_node_columns_at(v, n, i, c);
    }
    assert(v5_parts_laws::columns_tagged(t.columns));
    v5_parts_laws::lemma_columns_read_back(t.columns, cols, index, start, t.columns.len() as int);
    let oc = v5_parts_laws::opened_columns(t.columns, index);
    assert(oc.take(t.columns.len() as int) =~= oc);
}

proof fn lemma_nodes_reads(s: StoreView, w: Layout, z: ZonesView, n: int)
    requires
        laid_out(s, w),
        tables_sound(s),
        0 <= n <= s.nodes.len(),
    ensures
        ({
            let index = intern::codes_of_texts(w.dict);
            v5_read::nodes_read(
                v5_parts_laws::meta_of_nodes(s.nodes),
                layout_parts(s, w),
                z,
                n,
            ) == Ok::<Seq<MappedNodeView>, FormatError>(layout_nodes(s, w, z).take(n))
        }),
    decreases n,
{
    let index = intern::codes_of_texts(w.dict);
    let want = layout_nodes(s, w, z);
    if n == 0 {
        assert(want.take(0) =~= Seq::empty());
    } else {
        lemma_nodes_reads(s, w, z, n - 1);
        lemma_node_reads(s, w, z, n - 1);
        assert(want.take(n) =~= want.take(n - 1).push(want[n - 1]));
    }
}

/// The cursors behind the first `n` tables.
pub open spec fn cursor_at(v: Seq<RelTableView>, n: int) -> CursorView {
    CursorView {
        fwd_off: v5_write::fwd_offsets(v, n).len() as int,
        fwd_tgt: v5_write::fwd_targets(v, n).len() as int,
        rev_off: v5_write::rev_offsets(v, n).len() as int,
        rev_tgt: v5_write::rev_targets(v, n).len() as int,
    }
}

proof fn lemma_rev_lengths(s: StoreView, n: int)
    requires
        tables_sound(s),
        0 <= n <= s.rels.len(),
    ensures
        v5_write::rev_positions(s.rels, n).len() == v5_write::rev_targets(s.rels, n).len(),
        v5_write::any_reverse(s.rels, n) <==> exists|t: int|
            0 <= t < n && (#[trigger] s.rels[t]).bwd is Some,
    decreases n,
{
    if n > 0 {
        lemma_rev_lengths(s, n - 1);
        assert(rel_sound(s.rels[n - 1], s.nodes));
        if v5_write::any_reverse(s.rels, n - 1) {
            let t = choose|t: int| 0 <= t < n - 1 && (#[trigger] s.rels[t]).bwd is Some;
            assert(s.rels[t].bwd is Some);
        }
        if exists|t: int| 0 <= t < n && (#[trigger] s.rels[t]).bwd is Some {
            let t = choose|t: int| 0 <= t < n && (#[trigger] s.rels[t]).bwd is Some;
            if t < n - 1 {
                assert(s.rels[t].bwd is Some);
            }
        }
    }
}

#[verifier::rlimit(80)]
#[verifier::spinoff_prover]
proof fn lemma_rel_reads(s: StoreView, w: Layout, z: ZonesView, i: int)
    requires
        laid_out(s, w),
        tables_sound(s),
        0 <= i < s.rels.len(),
    ensures
        ({
            let index = intern::codes_of_texts(w.dict);
            v5_read::rel_read(
                v5_parts_laws::meta_of_nodes(s.nodes),
                v5_parts_laws::meta_of_rel(s.rels[i]),
                layout_parts(s, w),
                z,
                cursor_at(s.rels, i),
                i,
            ) == Ok::<(MappedRelView, CursorView), FormatError>(
                (opened_rel_with(s.rels[i], index, z.rels[i], z.rel_blocks[i]), cursor_at(s.rels, i + 1)),
            )
        }),
{
    reveal(laid_out);
    let index = intern::codes_of_texts(w.dict);
    let v = s.rels;
    let n = v.len() as int;
    let cols = v5_write::all_columns(s);
    let t = v[i];
    let base = v5_write::node_columns(s.nodes, s.nodes.len() as int);
    let p = layout_parts(s, w);
    let c = cursor_at(v, i);
    lemma_tables_writable(s, w);
    assert(v5_parts_laws::rel_writable(t, index));
    assert(rel_sound(t, s.nodes));
    lemma_columns_fit(s, w);
    v5_parts_laws::lemma_rel_rec(v, n, base.len() as int, i);
    lemma_rel_columns_len(v, n, i);
    v5_parts_laws::lemma_csr_read_back(v, n, i);
    lemma_rev_lengths(s, i);
    lemma_rev_lengths(s, n);
    let start = base.len() + v5_write::rel_columns(v, i).len();
    assert forall|k: int| 0 <= k < t.columns.len() implies cols[start + k] == (
    #[trigger] t.columns[k]).1 by {
        lemma_rel_columns_at(v, n, i, k);
    }
    v5_parts_laws::lemma_columns_read_back(t.columns, cols, index, start as int, t.columns.len() as int);
    let oc = v5_parts_laws::opened_columns(t.columns, index);
    assert(oc.take(t.columns.len() as int) =~= oc);
    let nodes = v5_parts_laws::meta_of_nodes(s.nodes);
    assert(nodes[t.src as int].rows == s.nodes[t.src as int].rows);
    assert(nodes[t.dst as int].rows == s.nodes[t.dst as int].rows);
    let src_rows = nodes[t.src as int].rows as int;
    let dst_rows = nodes[t.dst as int].rows as int;
    let edges = t.fwd.targets.len() as int;
    assert(v5_read::csr_read(p.fwd_off, p.fwd_tgt, c.fwd_off, c.fwd_tgt, src_rows, edges) == Ok::<
        (Seq<u32>, Seq<u32>),
        FormatError,
    >((t.fwd.offsets, t.fwd.targets)));
    let bwd = opened_rel_with(t, index, z.rels[i], z.rel_blocks[i]).bwd;
    assert(v5_read::reverse_read(p.rev, c, dst_rows, edges) == Ok::<Option<MappedCsrView>, FormatError>(
        bwd,
    )) by {
        if t.bwd is Some {
            assert(v5_write::any_reverse(v, n));
            assert(v5_write::csr_positions(t.bwd).len() == edges);
        } else {
            if v5_write::any_reverse(v, n) {
                let k = choose|k: int| 0 <= k < n && (#[trigger] v[k]).bwd is Some;
                assert(s.rels[k].bwd is Some);
                assert(s.rels[i].bwd is None);
            }
        }
    }
    assert(v5_read::advanced(c, src_rows, dst_rows, edges, p.rev is Some) == cursor_at(v, i + 1)) by {
        if t.bwd is None && v5_write::any_reverse(v, n) {
            let k = choose|k: int| 0 <= k < n && (#[trigger] v[k]).bwd is Some;
            assert(s.rels[k].bwd is Some);
            assert(s.rels[i].bwd is None);
        }
        if t.bwd is Some {
            assert(v5_write::any_reverse(v, n));
        }
    }
}

proof fn lemma_rels_reads(s: StoreView, w: Layout, z: ZonesView, n: int)
    requires
        laid_out(s, w),
        tables_sound(s),
        0 <= n <= s.rels.len(),
    ensures
        ({
            let index = intern::codes_of_texts(w.dict);
            v5_read::rels_read(
                v5_parts_laws::meta_of_nodes(s.nodes),
                v5_parts_laws::meta_of_rels(s.rels),
                layout_parts(s, w),
                z,
                n,
            ) == Ok::<(Seq<MappedRelView>, CursorView), FormatError>(
                (layout_rels(s, w, z).take(n), cursor_at(s.rels, n)),
            )
        }),
    decreases n,
{
    let index = intern::codes_of_texts(w.dict);
    let want = layout_rels(s, w, z);
    if n == 0 {
        assert(want.take(0) =~= Seq::empty());
    } else {
        lemma_rels_reads(s, w, z, n - 1);
        lemma_rel_reads(s, w, z, n - 1);
        assert(v5_parts_laws::meta_of_rels(s.rels)[n - 1] == v5_parts_laws::meta_of_rel(s.rels[n - 1]));
        assert(want.take(n) =~= want.take(n - 1).push(want[n - 1]));
    }
}

/// Checksum, directory and header of the payload of a layout are sound.
pub proof fn lemma_layout_frame(s: StoreView, w: Layout)
    requires
        laid_out(s, w),
    ensures
        ({
            let d = layout_image(s, w);
            let n = (d.len() - 4) as int;
            &&& d.len() >= 68
            &&& wire::u32_at(d, n) == outside::crc32_of(d.subrange(0, n))
            &&& directory::directory_fault(d, n as u64) is None
            &&& directory::header_of(d).flags == store_flags(s)
            &&& directory::header_of(d).layout_flags == payload::layout_flags_of(w.segs)
        }),
{
    reveal(laid_out);
    let tn = v5_write::node_total(s.nodes, s.nodes.len() as int) as u64;
    let te = v5_write::edge_total(s.rels, s.rels.len() as int) as u64;
    payload::lemma_assembled_payload_parses(w.segs, store_flags(s), tn, te);
}

proof fn lemma_lookup_reads(v: Seq<LookupEntry>, kind: SegmentKind)
    ensures
        id_lookup::lookup_fault(id_lookup::lookup_records(v5_write::by_id(v)), kind) is None,
        id_lookup::lookup_entries_of(id_lookup::lookup_records(v5_write::by_id(v))) == v5_write::by_id(v),
{
    v5_write::lemma_by_id(v);
    id_lookup::lemma_lookup_records_round_trip(v5_write::by_id(v));
    id_lookup::lemma_sorted_lookup_is_sound(v5_write::by_id(v), kind);
}

proof fn lemma_ids_read(s: StoreView, w: Layout)
    requires
        laid_out(s, w),
    ensures
        v5_read::ids_read(layout_image(s, w)) == Ok::<Option<MappedIdsView>, FormatError>(
            opened_ids(s.ids),
        ),
{
    reveal(laid_out);
    lemma_layout_frame(s, w);
    match s.ids {
        Some(x) => {
            lemma_found(s, w, SegmentKind::NodeIdLookup, id_lookup::lookup_records(v5_write::by_id(x.nodes)));
            lemma_found(s, w, SegmentKind::EdgeIdLookup, id_lookup::lookup_records(v5_write::by_id(x.edges)));
            lemma_found(
                s,
                w,
                SegmentKind::NodeOriginalIds,
                views::bytes_of_u64s(v5_write::joined(x.node_ids, x.node_ids.len() as int)),
            );
            lemma_found(
                s,
                w,
                SegmentKind::EdgeOriginalIds,
                views::bytes_of_u64s(v5_write::joined(x.edge_ids, x.edge_ids.len() as int)),
            );
            lemma_lookup_reads(x.nodes, SegmentKind::NodeIdLookup);
            lemma_lookup_reads(x.edges, SegmentKind::EdgeIdLookup);
            views::lemma_u64s_round_trip(v5_write::joined(x.node_ids, x.node_ids.len() as int));
            views::lemma_u64s_round_trip(v5_write::joined(x.edge_ids, x.edge_ids.len() as int));
        },
        None => {},
    }
}

/// A payload opens as the store that its segments were laid out from, with the
/// zone maps and the companions that are read from it.
#[verifier::rlimit(80)]
#[verifier::spinoff_prover]
pub proof fn lemma_layout_reads(s: StoreView, w: Layout, z: ZonesView, c: CompanionsView)
    requires
        laid_out(s, w),
        tables_sound(s),
        v5_read::zones_read(layout_image(s, w), w.dict, s.nodes.len(), s.rels.len()) == Ok::<
            ZonesView,
            FormatError,
        >(z),
        v5_read::companions_read(layout_image(s, w)) == Ok::<CompanionsView, FormatError>(c),
        v5_read::schema_bytes(layout_nodes(s, w, z), layout_rels(s, w, z)) <= 16777216,
    ensures
        v5_read::v5_read(layout_image(s, w)) == Ok::<MappedStoreView, FormatError>(
            opened_layout(s, w, z, c),
        ),
{
    lemma_layout_frame(s, w);
    lemma_head_reads(s, w);
    lemma_parts_read(s, w);
    lemma_nodes_reads(s, w, z, s.nodes.len() as int);
    lemma_rels_reads(s, w, z, s.rels.len() as int);
    lemma_ids_read(s, w);
    let on = layout_nodes(s, w, z);
    let or = layout_rels(s, w, z);
    assert(on.take(s.nodes.len() as int) =~= on);
    assert(or.take(s.rels.len() as int) =~= or);
}

} // verus!
