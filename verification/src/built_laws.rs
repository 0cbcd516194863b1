//! A built payload opens again as the store it was built from, with the labels
//! of its nodes and the rows of its columns that are present or null.

use crate::bounded_emit;
use crate::built_zone_laws;
use crate::code_index;
use crate::directory::SegmentKind;
use crate::error::FormatError;
use crate::intern::StringCodeOrder;
use crate::intern;
use crate::label_membership::LabelMembership;
use crate::label_membership;
use crate::layout_laws::Layout;
use crate::layout_laws;
use crate::payload::SegmentView;
use crate::payload;
use crate::presence::{BitmapRecord, RowBitmapRecord};
use crate::presence;
use crate::tables::StoreView;
use crate::v5_read::{CompanionsView, MappedStoreView, ZonesView};
use crate::v5_read;
use crate::v5_write;
use crate::value::ZoneView;
use crate::views;
use crate::wire;
use crate::zone_laws;
use crate::zone_maps;
use vstd::prelude::*;

verus! {

broadcast use wire::group_wire;

/// The membership segment of some memberships, where there are any.
pub open spec fn membership_body(m: Option<Seq<LabelMembership>>) -> Option<Seq<u8>> {
    match m {
        Some(v) => Some(label_membership::membership_segment(v)),
        None => None,
    }
}

/// The layout of a built payload.
pub open spec fn built_layout(
    s: StoreView,
    dict: Seq<Seq<char>>,
    m: Option<Seq<LabelMembership>>,
    presence: Seq<BitmapRecord>,
    nulls: Seq<BitmapRecord>,
) -> Layout {
    Layout { dict, segs: bounded_emit::built_segments(s, dict, membership_body(m), presence, nulls) }
}

/// A store whose parts fit together as those of a build do: every table has its
/// number, every relationship table its reverse adjacency.
pub open spec fn build_sound(s: StoreView) -> bool {
    &&& s.nodes.len() <= 0x8000
    &&& s.rels.len() <= 0x8000
    &&& layout_laws::tables_sound(s)
    &&& forall|t: int| 0 <= t < s.rels.len() ==> (#[trigger] s.rels[t]).bwd is Some
    &&& forall|k: int|
        0 <= k < built_zone_laws::numbered_tables(s).len() ==> built_zone_laws::numbered_ascend(#[trigger] built_zone_laws::numbered_tables(s)[k])
    &&& built_zone_laws::numbered_countable(built_zone_laws::numbered_tables(s))
}

/// Companions that can be written.
pub open spec fn companions_sound(
    m: Option<Seq<LabelMembership>>,
    presence: Seq<BitmapRecord>,
    nulls: Seq<BitmapRecord>,
) -> bool {
    &&& m matches Some(v) ==> v.len() <= u32::MAX && label_membership::memberships_ascend(v)
    &&& presence::bitmap_input_ascends(presence)
    &&& presence::bitmap_input_ascends(nulls)
    &&& forall|i: int| 0 <= i < presence.len() ==> presence::bitmap_record_fits(#[trigger] presence[i])
    &&& forall|i: int| 0 <= i < nulls.len() ==> presence::bitmap_record_fits(#[trigger] nulls[i])
}

/// Bitmaps as they are opened: where each column's bits stand, and the bytes.
pub open spec fn opened_bitmaps(v: Seq<BitmapRecord>) -> Option<(Seq<RowBitmapRecord>, Seq<u8>)> {
    if v.len() == 0 {
        None
    } else {
        Some((presence::bitmap_places(v, v.len() as int), presence::bitmap_records(v, v.len() as int)))
    }
}

/// Companions as they are opened.
pub open spec fn opened_companions(
    m: Option<Seq<LabelMembership>>,
    presence: Seq<BitmapRecord>,
    nulls: Seq<BitmapRecord>,
) -> CompanionsView {
    CompanionsView {
        membership: m,
        presence: opened_bitmaps(presence),
        null: opened_bitmaps(nulls),
    }
}

/// The zone maps of a built payload.
pub open spec fn built_zones(s: StoreView) -> ZonesView {
    ZonesView {
        nodes: Seq::new(s.nodes.len(), |i: int| zone_laws::stored_zone_map(s.nodes[i].zones)),
        rels: Seq::new(s.rels.len(), |i: int| zone_laws::stored_zone_map(s.rels[i].zones)),
        node_blocks: Seq::new(s.nodes.len(), |i: int| zone_laws::stored_block_map(s.nodes[i].blocks)),
        rel_blocks: Seq::new(s.rels.len(), |i: int| zone_laws::stored_block_map(s.rels[i].blocks)),
    }
}

// ------------------------------------------------------------------- kinds

/// The segments up to the identifiers.
spec fn front(s: StoreView, dict: Seq<Seq<char>>) -> Seq<SegmentView> {
    v5_write::base_segments(s, dict) + v5_write::forward_segments(s) + v5_write::whole_reverse(s) + v5_write::id_segments(s)
}

/// The zone maps and the code index.
spec fn lookups(s: StoreView, dict: Seq<Seq<char>>) -> Seq<SegmentView> {
    let index = intern::codes_of_texts(dict);
    v5_write::index_segments(
        zone_maps::zone_segment(zone_maps::all_zone_rows(s), index),
        zone_maps::zone_segment(zone_maps::all_block_rows(s), index),
        dict,
        true,
    )
}

/// The companions.
spec fn companions(
    m: Option<Seq<LabelMembership>>,
    presence: Seq<BitmapRecord>,
    nulls: Seq<BitmapRecord>,
) -> Seq<SegmentView> {
    bounded_emit::membership_segment_of(membership_body(m)) + bounded_emit::bitmap_segment_of(
        SegmentKind::ColumnRowPresence,
        presence,
    ) + bounded_emit::bitmap_segment_of(SegmentKind::ColumnRowNull, nulls)
}

proof fn lemma_built_parts(
    s: StoreView,
    dict: Seq<Seq<char>>,
    m: Option<Seq<LabelMembership>>,
    presence: Seq<BitmapRecord>,
    nulls: Seq<BitmapRecord>,
)
    ensures
        bounded_emit::built_segments(s, dict, membership_body(m), presence, nulls) == front(s, dict) + lookups(
            s,
            dict,
        ) + companions(m, presence, nulls),
{
    assert(bounded_emit::built_segments(s, dict, membership_body(m), presence, nulls) =~= front(s, dict)
        + lookups(s, dict) + companions(m, presence, nulls));
}

proof fn lemma_front_kinds(s: StoreView, dict: Seq<Seq<char>>)
    ensures
        payload::kinds_ascend(front(s, dict)),
        layout_laws::kinds_within(front(s, dict), 0, 18),
{
    let a = v5_write::base_segments(s, dict);
    let b = v5_write::forward_segments(s);
    let c = v5_write::whole_reverse(s);
    let e = v5_write::id_segments(s);
    layout_laws::lemma_ascend_add(a, b, 0, 9, 11);
    layout_laws::lemma_ascend_add(a + b, c, 0, 11, 14);
    layout_laws::lemma_ascend_add(a + b + c, e, 0, 14, 18);
}

proof fn lemma_lookups_kinds(s: StoreView, dict: Seq<Seq<char>>)
    ensures
        payload::kinds_ascend(lookups(s, dict)),
        layout_laws::kinds_within(lookups(s, dict), 18, 21),
{
    let index = intern::codes_of_texts(dict);
    let a = v5_write::nonempty_segment(
        SegmentKind::TableZoneMaps,
        40,
        zone_maps::zone_segment(zone_maps::all_zone_rows(s), index),
    );
    let b = v5_write::nonempty_segment(
        SegmentKind::BlockZoneMaps,
        40,
        zone_maps::zone_segment(zone_maps::all_block_rows(s), index),
    );
    let c = seq![payload::required_segment(SegmentKind::DictionaryCodeIndex, 8, 16, code_index::code_index_of(dict))];
    layout_laws::lemma_ascend_add(a, b, 18, 19, 20);
    layout_laws::lemma_ascend_add(a + b, c, 18, 20, 21);
}

proof fn lemma_companions_kinds(
    m: Option<Seq<LabelMembership>>,
    presence: Seq<BitmapRecord>,
    nulls: Seq<BitmapRecord>,
)
    ensures
        payload::kinds_ascend(companions(m, presence, nulls)),
        layout_laws::kinds_within(companions(m, presence, nulls), 21, 24),
{
    let a = bounded_emit::membership_segment_of(membership_body(m));
    let b = bounded_emit::bitmap_segment_of(SegmentKind::ColumnRowPresence, presence);
    let c = bounded_emit::bitmap_segment_of(SegmentKind::ColumnRowNull, nulls);
    layout_laws::lemma_ascend_add(a, b, 21, 22, 23);
    layout_laws::lemma_ascend_add(a + b, c, 21, 23, 24);
}

proof fn lemma_built_kinds(
    s: StoreView,
    dict: Seq<Seq<char>>,
    m: Option<Seq<LabelMembership>>,
    presence: Seq<BitmapRecord>,
    nulls: Seq<BitmapRecord>,
)
    ensures
        payload::kinds_ascend(bounded_emit::built_segments(s, dict, membership_body(m), presence, nulls)),
{
    let a = front(s, dict);
    let b = lookups(s, dict);
    let c = companions(m, presence, nulls);
    lemma_built_parts(s, dict, m, presence, nulls);
    lemma_front_kinds(s, dict);
    lemma_lookups_kinds(s, dict);
    lemma_companions_kinds(m, presence, nulls);
    layout_laws::lemma_ascend_add(a, b, 0, 18, 21);
    layout_laws::lemma_ascend_add(a + b, c, 0, 21, 24);
}

/// What one part carries, the payload carries.
proof fn lemma_in_built(
    s: StoreView,
    dict: Seq<Seq<char>>,
    m: Option<Seq<LabelMembership>>,
    presence: Seq<BitmapRecord>,
    nulls: Seq<BitmapRecord>,
    kind: SegmentKind,
    body: Seq<u8>,
)
    ensures
        ({
            let v = bounded_emit::built_segments(s, dict, membership_body(m), presence, nulls);
            &&& layout_laws::carries(front(s, dict), kind, body) ==> layout_laws::carries(v, kind, body)
            &&& layout_laws::carries(lookups(s, dict), kind, body) ==> layout_laws::carries(v, kind, body)
            &&& layout_laws::carries(companions(m, presence, nulls), kind, body) ==> layout_laws::carries(v, kind, body)
            &&& payload::has_kind(v, kind) <==> payload::has_kind(front(s, dict), kind) || payload::has_kind(
                lookups(s, dict),
                kind,
            ) || payload::has_kind(companions(m, presence, nulls), kind)
        }),
{
    let a = front(s, dict);
    let b = lookups(s, dict);
    let c = companions(m, presence, nulls);
    lemma_built_parts(s, dict, m, presence, nulls);
    layout_laws::lemma_carries_add(a, b, kind, body);
    layout_laws::lemma_carries_add(a + b, c, kind, body);
}

/// What one part of the front carries, the front carries.
proof fn lemma_in_front(s: StoreView, dict: Seq<Seq<char>>, kind: SegmentKind, body: Seq<u8>)
    ensures
        ({
            let v = front(s, dict);
            &&& layout_laws::carries(v5_write::base_segments(s, dict), kind, body) ==> layout_laws::carries(v, kind, body)
            &&& layout_laws::carries(v5_write::forward_segments(s), kind, body) ==> layout_laws::carries(v, kind, body)
            &&& layout_laws::carries(v5_write::whole_reverse(s), kind, body) ==> layout_laws::carries(v, kind, body)
            &&& layout_laws::carries(v5_write::id_segments(s), kind, body) ==> layout_laws::carries(v, kind, body)
        }),
{
    let a = v5_write::base_segments(s, dict);
    let b = v5_write::forward_segments(s);
    let c = v5_write::whole_reverse(s);
    let e = v5_write::id_segments(s);
    layout_laws::lemma_carries_add(a, b, kind, body);
    layout_laws::lemma_carries_add(a + b, c, kind, body);
    layout_laws::lemma_carries_add(a + b + c, e, kind, body);
}

proof fn lemma_built_tables(
    s: StoreView,
    dict: Seq<Seq<char>>,
    m: Option<Seq<LabelMembership>>,
    presence: Seq<BitmapRecord>,
    nulls: Seq<BitmapRecord>,
)
    requires
        forall|t: int| 0 <= t < s.rels.len() ==> (#[trigger] s.rels[t]).bwd is Some,
    ensures
        layout_laws::carries_tables(s, built_layout(s, dict, m, presence, nulls)),
        layout_laws::carries_reverse(s, built_layout(s, dict, m, presence, nulls)),
        layout_laws::carries_ids(s, built_layout(s, dict, m, presence, nulls)),
{
    let w = built_layout(s, dict, m, presence, nulls);
    assert forall|kind: SegmentKind, body: Seq<u8>|
        layout_laws::carries(v5_write::base_segments(s, dict), kind, body) || layout_laws::carries(v5_write::forward_segments(s), kind, body)
            || layout_laws::carries(v5_write::whole_reverse(s), kind, body) || layout_laws::carries(
            v5_write::id_segments(s),
            kind,
            body,
        ) implies #[trigger] layout_laws::carries(w.segs, kind, body) by {
        lemma_in_front(s, dict, kind, body);
        lemma_in_built(s, dict, m, presence, nulls, kind, body);
    }
    let b = v5_write::base_segments(s, dict);
    let f = v5_write::forward_segments(s);
    let r = v5_write::whole_reverse(s);
    assert(b[0].kind == SegmentKind::Metadata);
    assert(b[1].kind == SegmentKind::StringOffsets);
    assert(b[2].kind == SegmentKind::StringBytes);
    assert(b[3].kind == SegmentKind::NodeTableDirectory);
    assert(b[4].kind == SegmentKind::RelTableDirectory);
    assert(b[5].kind == SegmentKind::ColumnDirectory);
    assert(b[6].kind == SegmentKind::ColumnBlockIndex);
    assert(b[7].kind == SegmentKind::ColumnBodies);
    assert(f[0].kind == SegmentKind::ForwardCsrOffsets);
    assert(f[1].kind == SegmentKind::ForwardCsrTargets);
    assert(r[0].kind == SegmentKind::ReverseCsrOffsets);
    assert(r[1].kind == SegmentKind::ReverseCsrTargets);
    assert(r[2].kind == SegmentKind::ForwardPositions);
    let ro = views::bytes_of_u32s(v5_write::rev_offsets(s.rels, s.rels.len() as int));
    assert(layout_laws::carries(r, SegmentKind::ReverseCsrOffsets, ro));
    assert(layout_laws::carries(w.segs, SegmentKind::ReverseCsrOffsets, ro));
    assert(layout_laws::has_reverse(w)) by {
        let i = choose|i: int|
            0 <= i < w.segs.len() && (#[trigger] w.segs[i]).kind == SegmentKind::ReverseCsrOffsets
                && w.segs[i].body == ro;
        assert(w.segs[i].kind == SegmentKind::ReverseCsrOffsets);
    }
    if let Some(x) = s.ids {
        let e = v5_write::id_segments(s);
        assert(e[0].kind == SegmentKind::NodeIdLookup);
        assert(e[1].kind == SegmentKind::EdgeIdLookup);
        assert(e[2].kind == SegmentKind::NodeOriginalIds);
        assert(e[3].kind == SegmentKind::EdgeOriginalIds);
    }
}

proof fn lemma_built_lookups(
    s: StoreView,
    dict: Seq<Seq<char>>,
    m: Option<Seq<LabelMembership>>,
    presence: Seq<BitmapRecord>,
    nulls: Seq<BitmapRecord>,
)
    ensures
        ({
            let w = built_layout(s, dict, m, presence, nulls);
            let index = intern::codes_of_texts(dict);
            let a = zone_maps::zone_segment(zone_maps::all_zone_rows(s), index);
            let b = zone_maps::zone_segment(zone_maps::all_block_rows(s), index);
            &&& a.len() > 0 ==> layout_laws::carries(w.segs, SegmentKind::TableZoneMaps, a)
            &&& b.len() > 0 ==> layout_laws::carries(w.segs, SegmentKind::BlockZoneMaps, b)
            &&& a.len() == 0 ==> !payload::has_kind(w.segs, SegmentKind::TableZoneMaps)
            &&& b.len() == 0 ==> !payload::has_kind(w.segs, SegmentKind::BlockZoneMaps)
            &&& layout_laws::carries(w.segs, SegmentKind::DictionaryCodeIndex, code_index::code_index_of(dict))
            &&& layout_laws::has_codes(w)
        }),
{
    let index = intern::codes_of_texts(dict);
    let a = zone_maps::zone_segment(zone_maps::all_zone_rows(s), index);
    let b = zone_maps::zone_segment(zone_maps::all_block_rows(s), index);
    let c = code_index::code_index_of(dict);
    let ka = SegmentKind::TableZoneMaps;
    let kb = SegmentKind::BlockZoneMaps;
    let kc = SegmentKind::DictionaryCodeIndex;
    let na = v5_write::nonempty_segment(ka, 40, a);
    let nb = v5_write::nonempty_segment(kb, 40, b);
    let nc = seq![payload::required_segment(kc, 8, 16, c)];
    assert(a.len() > 0 ==> na[0].kind == ka);
    assert(b.len() > 0 ==> nb[0].kind == kb);
    assert(nc[0].kind == kc);
    layout_laws::lemma_carries_add(na, nb, ka, a);
    layout_laws::lemma_carries_add(na + nb, nc, ka, a);
    lemma_in_built(s, dict, m, presence, nulls, ka, a);
    layout_laws::lemma_carries_add(na, nb, kb, b);
    layout_laws::lemma_carries_add(na + nb, nc, kb, b);
    lemma_in_built(s, dict, m, presence, nulls, kb, b);
    layout_laws::lemma_carries_add(na, nb, kc, c);
    layout_laws::lemma_carries_add(na + nb, nc, kc, c);
    lemma_in_built(s, dict, m, presence, nulls, kc, c);
    lemma_front_kinds(s, dict);
    lemma_companions_kinds(m, presence, nulls);
    layout_laws::lemma_no_kind(front(s, dict), 0, 18);
    layout_laws::lemma_no_kind(companions(m, presence, nulls), 21, 24);
}

proof fn lemma_built_laid_out(
    s: StoreView,
    labels: Seq<Seq<char>>,
    m: Option<Seq<LabelMembership>>,
    presence: Seq<BitmapRecord>,
    nulls: Seq<BitmapRecord>,
)
    requires
        build_sound(s),
        bounded_emit::built_fault(s, bounded_emit::built_dictionary(s, labels)) is None,
        payload::segments_fit(
            bounded_emit::built_segments(s, bounded_emit::built_dictionary(s, labels), membership_body(m), presence, nulls),
        ),
        bounded_emit::payload_of(
            s,
            bounded_emit::built_dictionary(s, labels),
            membership_body(m),
            presence,
            nulls,
        ).len() <= u64::MAX,
    ensures
        ({
            let w = built_layout(s, bounded_emit::built_dictionary(s, labels), m, presence, nulls);
            &&& layout_laws::laid_out(s, w)
            &&& layout_laws::layout_image(s, w) == bounded_emit::payload_of(
                s,
                bounded_emit::built_dictionary(s, labels),
                membership_body(m),
                presence,
                nulls,
            )
        }),
{
    reveal(layout_laws::laid_out);
    let dict = bounded_emit::built_dictionary(s, labels);
    intern::lemma_dictionary(intern::store_texts(s) + labels, StringCodeOrder::Lexicographic);
    bounded_emit::lemma_built_dictionary(s, labels);
    lemma_built_kinds(s, dict, m, presence, nulls);
    lemma_built_tables(s, dict, m, presence, nulls);
    lemma_built_lookups(s, dict, m, presence, nulls);
}

proof fn lemma_built_zones_read(
    s: StoreView,
    labels: Seq<Seq<char>>,
    m: Option<Seq<LabelMembership>>,
    presence: Seq<BitmapRecord>,
    nulls: Seq<BitmapRecord>,
)
    requires
        build_sound(s),
        bounded_emit::built_fault(s, bounded_emit::built_dictionary(s, labels)) is None,
        layout_laws::laid_out(s, built_layout(s, bounded_emit::built_dictionary(s, labels), m, presence, nulls)),
    ensures
        ({
            let w = built_layout(s, bounded_emit::built_dictionary(s, labels), m, presence, nulls);
            v5_read::zones_read(layout_laws::layout_image(s, w), w.dict, s.nodes.len(), s.rels.len()) == Ok::<
                ZonesView,
                FormatError,
            >(built_zones(s))
        }),
{
    let dict = bounded_emit::built_dictionary(s, labels);
    let w = built_layout(s, dict, m, presence, nulls);
    let index = intern::codes_of_texts(dict);
    let nn = s.nodes.len();
    let nr = s.rels.len();
    let a = zone_maps::zone_segment(zone_maps::all_zone_rows(s), index);
    let b = zone_maps::zone_segment(zone_maps::all_block_rows(s), index);
    let want = built_zones(s);
    let tr = zone_maps::zone_rows_of(a, dict);
    let br = zone_maps::zone_rows_of(b, dict);
    intern::lemma_dictionary(intern::store_texts(s) + labels, StringCodeOrder::Lexicographic);
    intern::lemma_codes_match(dict);
    lemma_built_lookups(s, dict, m, presence, nulls);
    built_zone_laws::lemma_all_zone_maps_round_trip(s, index, dict);
    assert forall|t: int| 0 <= t < nn implies #[trigger] want.nodes[t] == zone_maps::zones_for(
        tr,
        tr.len() as int,
        zone_maps::node_zone_id(t),
    ) by {}
    assert forall|t: int| 0 <= t < nr implies #[trigger] want.rels[t] == zone_maps::zones_for(
        tr,
        tr.len() as int,
        zone_maps::rel_zone_id(t),
    ) by {}
    assert forall|t: int| 0 <= t < nn implies #[trigger] want.node_blocks[t] == zone_maps::all_block_zones(
        zone_maps::blocks_for(br, br.len() as int, zone_maps::node_zone_id(t)),
    ) by {}
    assert forall|t: int| 0 <= t < nr implies #[trigger] want.rel_blocks[t] == zone_maps::all_block_zones(
        zone_maps::blocks_for(br, br.len() as int, zone_maps::rel_zone_id(t)),
    ) by {}
    let none = Map::<Seq<char>, Seq<(u32, ZoneView)>>::empty();
    assert(zone_maps::all_block_zones(none) =~= Map::<Seq<char>, Seq<ZoneView>>::empty());
    if a.len() > 0 {
        layout_laws::lemma_found(s, w, SegmentKind::TableZoneMaps, a);
        assert(Seq::new(nn, |i: int| zone_maps::zones_for(tr, tr.len() as int, zone_maps::node_zone_id(i)))
            =~= want.nodes);
        assert(Seq::new(nr, |i: int| zone_maps::zones_for(tr, tr.len() as int, zone_maps::rel_zone_id(i)))
            =~= want.rels);
    } else {
        layout_laws::lemma_absent(s, w, SegmentKind::TableZoneMaps);
        assert(tr.len() == 0);
        assert(v5_read::no_maps(nn) =~= want.nodes);
        assert(v5_read::no_maps(nr) =~= want.rels);
    }
    if b.len() > 0 {
        layout_laws::lemma_found(s, w, SegmentKind::BlockZoneMaps, b);
        assert(Seq::new(nn, |i: int| zone_maps::all_block_zones(zone_maps::node_blocks(br, nn)[i]))
            =~= want.node_blocks);
        assert(Seq::new(nr, |i: int| zone_maps::all_block_zones(zone_maps::rel_blocks(br, nr)[i])) =~= want.rel_blocks);
    } else {
        layout_laws::lemma_absent(s, w, SegmentKind::BlockZoneMaps);
        assert(br.len() == 0);
        assert(v5_read::no_maps(nn) =~= want.node_blocks);
        assert(v5_read::no_maps(nr) =~= want.rel_blocks);
    }
}

proof fn lemma_built_companions_read(
    s: StoreView,
    dict: Seq<Seq<char>>,
    m: Option<Seq<LabelMembership>>,
    presence: Seq<BitmapRecord>,
    nulls: Seq<BitmapRecord>,
)
    requires
        companions_sound(m, presence, nulls),
        layout_laws::laid_out(s, built_layout(s, dict, m, presence, nulls)),
    ensures
        v5_read::companions_read(layout_laws::layout_image(s, built_layout(s, dict, m, presence, nulls))) == Ok::<
            CompanionsView,
            FormatError,
        >(opened_companions(m, presence, nulls)),
{
    let w = built_layout(s, dict, m, presence, nulls);
    let km = SegmentKind::NodeLabelMembership;
    let kp = SegmentKind::ColumnRowPresence;
    let kn = SegmentKind::ColumnRowNull;
    let a = bounded_emit::membership_segment_of(membership_body(m));
    let b = bounded_emit::bitmap_segment_of(kp, presence);
    let c = bounded_emit::bitmap_segment_of(kn, nulls);
    let pb = presence::bitmap_records(presence, presence.len() as int);
    let nb = presence::bitmap_records(nulls, nulls.len() as int);
    let mb = if let Some(v) = m {
        label_membership::membership_segment(v)
    } else {
        Seq::empty()
    };
    assert(m is Some ==> a[0].kind == km);
    assert(presence.len() > 0 ==> b[0].kind == kp);
    assert(nulls.len() > 0 ==> c[0].kind == kn);
    layout_laws::lemma_carries_add(a, b, km, mb);
    layout_laws::lemma_carries_add(a + b, c, km, mb);
    lemma_in_built(s, dict, m, presence, nulls, km, mb);
    layout_laws::lemma_carries_add(a, b, kp, pb);
    layout_laws::lemma_carries_add(a + b, c, kp, pb);
    lemma_in_built(s, dict, m, presence, nulls, kp, pb);
    layout_laws::lemma_carries_add(a, b, kn, nb);
    layout_laws::lemma_carries_add(a + b, c, kn, nb);
    lemma_in_built(s, dict, m, presence, nulls, kn, nb);
    lemma_front_kinds(s, dict);
    lemma_lookups_kinds(s, dict);
    layout_laws::lemma_no_kind(front(s, dict), 0, 18);
    layout_laws::lemma_no_kind(lookups(s, dict), 18, 21);
    layout_laws::lemma_layout_frame(s, w);
    if let Some(v) = m {
        layout_laws::lemma_found(s, w, km, mb);
        label_membership::lemma_written_membership_is_sound(v);
    } else {
        layout_laws::lemma_absent(s, w, km);
    }
    if presence.len() > 0 {
        layout_laws::lemma_found(s, w, kp, pb);
        presence::lemma_bitmap_segment_parses(presence, kp);
    } else {
        layout_laws::lemma_absent(s, w, kp);
    }
    if nulls.len() > 0 {
        layout_laws::lemma_found(s, w, kn, nb);
        presence::lemma_bitmap_segment_parses(nulls, kn);
    } else {
        layout_laws::lemma_absent(s, w, kn);
    }
}

/// A built payload opens as the store it was built from: the same tables with
/// the same labels, rows, columns, adjacency and zone maps, those of
/// relationship columns among them, the same identifiers and totals, every
/// label of the nodes that have several, and for every column which rows are
/// present and which are null.
pub proof fn lemma_built_payload_round_trip(
    s: StoreView,
    labels: Seq<Seq<char>>,
    m: Option<Seq<LabelMembership>>,
    presence: Seq<BitmapRecord>,
    nulls: Seq<BitmapRecord>,
)
    requires
        build_sound(s),
        companions_sound(m, presence, nulls),
        bounded_emit::built_fault(s, bounded_emit::built_dictionary(s, labels)) is None,
        payload::segments_fit(
            bounded_emit::built_segments(s, bounded_emit::built_dictionary(s, labels), membership_body(m), presence, nulls),
        ),
        bounded_emit::payload_of(
            s,
            bounded_emit::built_dictionary(s, labels),
            membership_body(m),
            presence,
            nulls,
        ).len() <= u64::MAX,
        ({
            let w = built_layout(s, bounded_emit::built_dictionary(s, labels), m, presence, nulls);
            let z = built_zones(s);
            v5_read::schema_bytes(layout_laws::layout_nodes(s, w, z), layout_laws::layout_rels(s, w, z)) <= 16777216
        }),
    ensures
        v5_read::v5_read(
            bounded_emit::payload_of(s, bounded_emit::built_dictionary(s, labels), membership_body(m), presence, nulls),
        ) == Ok::<MappedStoreView, FormatError>(
            layout_laws::opened_layout(
                s,
                built_layout(s, bounded_emit::built_dictionary(s, labels), m, presence, nulls),
                built_zones(s),
                opened_companions(m, presence, nulls),
            ),
        ),
{
    let dict = bounded_emit::built_dictionary(s, labels);
    let w = built_layout(s, dict, m, presence, nulls);
    lemma_built_laid_out(s, labels, m, presence, nulls);
    lemma_built_zones_read(s, labels, m, presence, nulls);
    lemma_built_companions_read(s, dict, m, presence, nulls);
    layout_laws::lemma_layout_reads(s, w, built_zones(s), opened_companions(m, presence, nulls));
}

} // verus!
