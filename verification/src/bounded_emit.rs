//! The emission stage of a build.
//!
//! A built store goes out as the serializer writes it, texts numbered in byte
//! order, with three additions: the zone maps of relationship columns, the
//! membership companion of nodes with more than one label, and the presence
//! and null companions of columns that need them.

use crate::code_index;
use crate::directory::SegmentKind;
use crate::error::{FormatError, WireField};
use crate::faults;
use crate::generation::GenerationError;
use crate::id_index::{IdEntry, MappedNodeIdIndex};
use crate::intern::{StringCodeOrder, TextCollector, index_strings, sort_texts};
use crate::intern;
use crate::live_graph;
use crate::membership_index::LabelEntry;
use crate::membership_pass::emit_membership_segment;
use crate::membership_pass;
use crate::payload::{Segment, SegmentView, assemble_payload};
use crate::payload;
use crate::presence::{BitmapRecord, write_null_segment, write_presence_segment};
use crate::presence;
use crate::runs::{RecordView, RunSetLease, SortRecord};
use crate::staging::{decode_labels, split_node_row_key};
use crate::tables::{CompactStore, RelTableView, StoreView};
use crate::text::TextMap;
use crate::text;
use crate::v5_write::{check_limits, check_texts_short, collect_base, push_index_segments, push_segment, total_edges, total_nodes};
use crate::v5_write;
use crate::zone_maps::{ZoneRow, build_all_zone_map_segments};
use crate::zone_maps;
use vstd::prelude::*;

verus! {

// -------------------------------------------------------------- dictionary

/// The labels of the first `n` entries, one after the other.
pub open spec fn entry_label_texts(v: Seq<LabelEntry>, n: int) -> Seq<Seq<char>>
    decreases n,
{
    if n <= 0 {
        Seq::empty()
    } else {
        entry_label_texts(v, n - 1) + v[n - 1].1
    }
}

/// The labels of the membership run.
pub open spec fn membership_texts(run: Option<Seq<RecordView>>) -> Result<
    Seq<Seq<char>>,
    GenerationError,
> {
    match run {
        None => Ok(Seq::empty()),
        Some(recs) => match live_graph::listed_labels(recs, recs.len()) {
            Err(e) => Err(e),
            Ok(v) => Ok(entry_label_texts(v, v.len() as int)),
        },
    }
}

/// The records of an optional run.
pub open spec fn run_view(run: Option<&RunSetLease>) -> Option<Seq<RecordView>> {
    match run {
        Some(r) => Some(r@),
        None => None,
    }
}

/// The dictionary of a store and the labels of its membership run, in byte
/// order.
pub open spec fn built_dictionary(s: StoreView, labels: Seq<Seq<char>>) -> Seq<Seq<char>> {
    intern::dictionary(intern::store_texts(s) + labels, StringCodeOrder::Lexicographic)
}

/// The dictionary of a build has a code for every name and key of its store.
pub proof fn lemma_built_dictionary(s: StoreView, labels: Seq<Seq<char>>)
    ensures
        v5_write::store_indexed(s, intern::codes_of_texts(built_dictionary(s, labels))),
        zone_maps::index_matches(intern::codes_of_texts(built_dictionary(s, labels)), built_dictionary(s, labels))
            || built_dictionary(s, labels).len() > u32::MAX,
{
    let list = intern::store_texts(s) + labels;
    let dict = built_dictionary(s, labels);
    let index = intern::codes_of_texts(dict);
    intern::lemma_dictionary(list, StringCodeOrder::Lexicographic);
    if dict.len() <= u32::MAX {
        intern::lemma_codes_match(dict);
    }
    assert forall|x: Seq<char>| intern::store_texts(s).contains(x) implies dict.contains(x) by {
        let i = intern::store_texts(s).index_of(x);
        assert(intern::store_texts(s)[i] == x);
        assert(list[i] == x);
        assert(list.contains(x));
    }
    assert forall|i: int| 0 <= i < s.nodes.len() implies v5_write::table_indexed(
        (#[trigger] s.nodes[i]).label,
        s.nodes[i].columns,
        index,
    ) by {
        let t = s.nodes[i];
        intern::lemma_table_texts(t.label, t.columns, t.zones, t.blocks);
        intern::lemma_store_has_node_text(s, i, t.label);
        assert(dict.contains(t.label));
        assert forall|k: int| 0 <= k < t.columns.len() implies index.dom().contains(
            (#[trigger] t.columns[k]).0,
        ) by {
            intern::lemma_store_has_node_text(s, i, t.columns[k].0);
            assert(dict.contains(t.columns[k].0));
        }
    }
    assert forall|i: int| 0 <= i < s.rels.len() implies v5_write::table_indexed(
        (#[trigger] s.rels[i]).edge_type,
        s.rels[i].columns,
        index,
    ) by {
        let t = s.rels[i];
        intern::lemma_table_texts(t.edge_type, t.columns, t.zones, t.blocks);
        intern::lemma_store_has_rel_text(s, i, t.edge_type);
        assert(dict.contains(t.edge_type));
        assert forall|k: int| 0 <= k < t.columns.len() implies index.dom().contains(
            (#[trigger] t.columns[k]).0,
        ) by {
            intern::lemma_store_has_rel_text(s, i, t.columns[k].0);
            assert(dict.contains(t.columns[k].0));
        }
    }
}

/// Adds the labels of a membership run to a collection of texts.
fn collect_labels(collector: &mut TextCollector, run: Option<&RunSetLease>) -> (r: Result<
    (),
    GenerationError,
>)
    ensures
        match r {
            Ok(_) => membership_texts(run_view(run)) is Ok && final(collector)@ == intern::gather(
                old(collector)@,
                membership_texts(run_view(run))->Ok_0,
            ),
            Err(e) => membership_texts(run_view(run)) == Err::<Seq<Seq<char>>, GenerationError>(
                e,
            ),
        },
{
    let ghost start = collector@;
    let lease: &RunSetLease = match run {
        Some(l) => l,
        None => return Ok(()),
    };
    let n: usize = lease.len();
    let ghost recs = lease@;
    let ghost mut v: Seq<LabelEntry> = Seq::empty();
    let mut i: usize = 0;
    while i < n
        invariant
            i <= n,
            n == recs.len(),
            recs == lease@,
            run == Some(lease),
            live_graph::listed_labels(recs, i as nat) == Ok::<Seq<LabelEntry>, GenerationError>(v),
            collector@ == intern::gather(start, entry_label_texts(v, v.len() as int)),
        decreases n - i,
    {
        proof {
            if live_graph::listed_labels(recs, (i + 1) as nat) is Err {
                live_graph::lemma_listed_fail(recs, (i + 1) as nat, n as nat);
            }
        }
        let rec: &SortRecord = lease.record_at(i);
        let (_, id) = match split_node_row_key(rec.key.as_slice()) {
            Ok(p) => p,
            Err(e) => return Err(e),
        };
        let labels: Vec<String> = match decode_labels(rec.payload.as_slice()) {
            Ok(l) => l,
            Err(e) => return Err(e),
        };
        let ghost l = text::texts(labels@);
        collector.intern_all(&labels);
        proof {
            let before = v;
            intern::lemma_gather_add(start, entry_label_texts(v, v.len() as int), l);
            v = v.push((id, l));
            lemma_label_texts_prefix(before, (id, l), before.len() as int);
        }
        i = i + 1;
    }
    Ok(())
}

proof fn lemma_label_texts_prefix(v: Seq<LabelEntry>, x: LabelEntry, n: int)
    requires
        n <= v.len(),
    ensures
        entry_label_texts(v.push(x), n) == entry_label_texts(v, n),
    decreases n,
{
    if n > 0 {
        lemma_label_texts_prefix(v, x, n - 1);
    }
}

// ----------------------------------------------------------------- payload

/// A companion segment of bitmaps, where a column has one.
pub open spec fn bitmap_segment_of(kind: SegmentKind, v: Seq<BitmapRecord>) -> Seq<SegmentView> {
    if v.len() == 0 {
        Seq::empty()
    } else {
        seq![payload::required_segment(kind, 1, 0, presence::bitmap_records(v, v.len() as int))]
    }
}

/// The membership companion, where there is one.
pub open spec fn membership_segment_of(body: Option<Seq<u8>>) -> Seq<SegmentView> {
    match body {
        None => Seq::empty(),
        Some(b) => seq![payload::required_segment(SegmentKind::NodeLabelMembership, 8, 16, b)],
    }
}

/// All segments of a built store.
pub open spec fn built_segments(
    s: StoreView,
    dict: Seq<Seq<char>>,
    membership: Option<Seq<u8>>,
    presence: Seq<BitmapRecord>,
    nulls: Seq<BitmapRecord>,
) -> Seq<SegmentView> {
    let index = intern::codes_of_texts(dict);
    v5_write::base_segments(s, dict) + v5_write::forward_segments(s) + v5_write::whole_reverse(s) + v5_write::id_segments(s)
        + v5_write::index_segments(
        zone_maps::zone_segment(zone_maps::all_zone_rows(s), index),
        zone_maps::zone_segment(zone_maps::all_block_rows(s), index),
        dict,
        true,
    ) + membership_segment_of(membership) + bitmap_segment_of(
        SegmentKind::ColumnRowPresence,
        presence,
    ) + bitmap_segment_of(SegmentKind::ColumnRowNull, nulls)
}

/// What keeps a built store from being written, its dictionary given.
pub open spec fn built_fault(s: StoreView, dict: Seq<Seq<char>>) -> Option<FormatError> {
    let index = intern::codes_of_texts(dict);
    if v5_write::limits_fault(s) is Some {
        v5_write::limits_fault(s)
    } else if dict.len() > u32::MAX {
        Some(FormatError::WireLimit(WireField::Texts))
    } else if !v5_write::texts_short(dict) {
        Some(FormatError::WireLimit(WireField::TextBytes))
    } else if v5_write::columns_fault(v5_write::all_columns(s), index) is Some {
        v5_write::columns_fault(v5_write::all_columns(s), index)
    } else {
        zone_maps::all_zones_write_fault(s, index)
    }
}

/// The payload of a built store, or why there is none.
pub open spec fn built_payload(
    s: StoreView,
    index: Seq<IdEntry>,
    run: Option<Seq<RecordView>>,
    presence: Seq<BitmapRecord>,
    nulls: Seq<BitmapRecord>,
) -> Result<Seq<u8>, GenerationError> {
    match membership_texts(run) {
        Err(e) => Err(e),
        Ok(labels) => {
            let dict = built_dictionary(s, labels);
            match built_fault(s, dict) {
                Some(f) => Err(GenerationError::Format(f)),
                None => match run {
                    None => Ok(payload_of(s, dict, None, presence, nulls)),
                    Some(recs) => match membership_pass::membership_bytes(index, intern::codes_of_texts(dict), recs) {
                        Err(e) => Err(e),
                        Ok(b) => Ok(payload_of(s, dict, Some(b), presence, nulls)),
                    },
                },
            }
        },
    }
}

/// The payload of a built store with its companions.
pub open spec fn payload_of(
    s: StoreView,
    dict: Seq<Seq<char>>,
    membership: Option<Seq<u8>>,
    presence: Seq<BitmapRecord>,
    nulls: Seq<BitmapRecord>,
) -> Seq<u8> {
    payload::payload_image(
        built_segments(s, dict, membership, presence, nulls),
        if s.ids is Some {
            1
        } else {
            0
        },
        v5_write::node_total(s.nodes, s.nodes.len() as int) as u64,
        v5_write::edge_total(s.rels, s.rels.len() as int) as u64,
    )
}

proof fn lemma_built_aligned(
    s: StoreView,
    dict: Seq<Seq<char>>,
    membership: Option<Seq<u8>>,
    presence: Seq<BitmapRecord>,
    nulls: Seq<BitmapRecord>,
)
    ensures
        payload::segments_aligned(built_segments(s, dict, membership, presence, nulls)),
        built_segments(s, dict, membership, presence, nulls).len() <= 23,
{
}

/// The content of optional bytes.
pub open spec fn optional_bytes(b: Option<Vec<u8>>) -> Option<Seq<u8>> {
    match b {
        Some(v) => Some(v@),
        None => None,
    }
}

fn push_companions(
    segments: &mut Vec<Segment>,
    membership: Option<Vec<u8>>,
    presence: &[BitmapRecord],
    nulls: &[BitmapRecord],
) -> (r: Result<(), FormatError>)
    requires
        forall|i: int| 0 <= i < presence@.len() ==> presence::bitmap_record_fits(#[trigger] presence@[i]),
        forall|i: int| 0 <= i < nulls@.len() ==> presence::bitmap_record_fits(#[trigger] nulls@[i]),
    ensures
        r is Ok,
        payload::segment_views(final(segments)@) == payload::segment_views(old(segments)@) + membership_segment_of(
            optional_bytes(membership),
        ) + bitmap_segment_of(SegmentKind::ColumnRowPresence, presence@) + bitmap_segment_of(
            SegmentKind::ColumnRowNull,
            nulls@,
        ),
{
    let ghost a = payload::segment_views(segments@);
    let ghost mb = optional_bytes(membership);
    match membership {
        Some(b) => {
            push_segment(segments, SegmentKind::NodeLabelMembership, 8, 16, b);
        },
        None => {},
    }
    let ghost b = payload::segment_views(segments@);
    assert(b =~= a + membership_segment_of(mb));
    if presence.len() > 0 {
        let mut body: Vec<u8> = Vec::new();
        write_presence_segment(&mut body, presence)?;
        assert(body@ =~= presence::bitmap_records(presence@, presence@.len() as int));
        push_segment(segments, SegmentKind::ColumnRowPresence, 1, 0, body);
    }
    let ghost c = payload::segment_views(segments@);
    assert(c =~= b + bitmap_segment_of(SegmentKind::ColumnRowPresence, presence@));
    if nulls.len() > 0 {
        let mut body: Vec<u8> = Vec::new();
        write_null_segment(&mut body, nulls)?;
        assert(body@ =~= presence::bitmap_records(nulls@, nulls@.len() as int));
        push_segment(segments, SegmentKind::ColumnRowNull, 1, 0, body);
    }
    assert(payload::segment_views(segments@) =~= c + bitmap_segment_of(
        SegmentKind::ColumnRowNull,
        nulls@,
    ));
    Ok(())
}

/// The segments of a built store up to its code index.
fn main_segments(store: &CompactStore, strings: &Vec<String>, index: &TextMap<u32>) -> (r: Result<
    Vec<Segment>,
    FormatError,
>)
    requires
        v5_write::limits_fault(store@) is None,
        strings@.len() <= u32::MAX,
        v5_write::texts_short(text::texts(strings@)),
        index@ == intern::codes_of_texts(text::texts(strings@)),
        v5_write::store_indexed(store@, index@),
    ensures
        ({
            let s = store@;
            let dict = text::texts(strings@);
            let fault = if v5_write::columns_fault(v5_write::all_columns(s), index@) is Some {
                v5_write::columns_fault(v5_write::all_columns(s), index@)
            } else {
                zone_maps::all_zones_write_fault(s, index@)
            };
            &&& r is Ok <==> fault is None
            &&& r matches Ok(x) ==> payload::segment_views(x@) == v5_write::base_segments(s, dict)
                + v5_write::forward_segments(s) + v5_write::whole_reverse(s) + v5_write::id_segments(s) + v5_write::index_segments(
                zone_maps::zone_segment(zone_maps::all_zone_rows(s), index@),
                zone_maps::zone_segment(zone_maps::all_block_rows(s), index@),
                dict,
                true,
            )
            &&& r matches Err(e) ==> fault == Some(e)
        }),
{
    let mut segments: Vec<Segment> = collect_base(store, strings, index, true)?;
    let (zones_body, blocks_body) = build_all_zone_map_segments(store, index)?;
    push_index_segments(&mut segments, zones_body, blocks_body, strings, true);
    Ok(segments)
}

/// The dictionary of a store and of its membership run, with the code of every
/// text.
fn number_texts(store: &CompactStore, membership_runs: Option<&RunSetLease>) -> (r: Result<
    (Vec<String>, TextMap<u32>),
    GenerationError,
>)
    ensures
        ({
            let labels = membership_texts(run_view(membership_runs));
            match r {
                Ok(x) => {
                    let dict = built_dictionary(store@, labels->Ok_0);
                    &&& labels is Ok
                    &&& v5_write::limits_fault(store@) is None
                    &&& text::texts(x.0@) == dict
                    &&& x.1@ == intern::codes_of_texts(dict)
                    &&& dict.len() <= u32::MAX
                    &&& v5_write::texts_short(dict)
                    &&& v5_write::store_indexed(store@, x.1@)
                },
                Err(e) => match labels {
                    Err(f) => e == f,
                    Ok(l) => {
                        let dict = built_dictionary(store@, l);
                        e == GenerationError::Format(
                            if v5_write::limits_fault(store@) is Some {
                                v5_write::limits_fault(store@)->0
                            } else if dict.len() > u32::MAX {
                                FormatError::WireLimit(WireField::Texts)
                            } else {
                                FormatError::WireLimit(WireField::TextBytes)
                            },
                        ) && (v5_write::limits_fault(store@) is Some || dict.len() > u32::MAX
                            || !v5_write::texts_short(dict))
                    },
                },
            }
        }),
{
    let ghost s = store@;
    let mut collector = TextCollector::new();
    collector.intern_store(store);
    collect_labels(&mut collector, membership_runs)?;
    let ghost labels = membership_texts(run_view(membership_runs))->Ok_0;
    match check_limits(store) {
        Ok(_) => {},
        Err(e) => return Err(GenerationError::Format(e)),
    }
    proof {
        intern::lemma_gather_add(Seq::empty(), intern::store_texts(s), labels);
    }
    let seen: Vec<String> = collector.finish();
    let strings: Vec<String> = sort_texts(&seen);
    assert(text::texts(strings@) == built_dictionary(s, labels));
    if strings.len() > u32::MAX as usize {
        return Err(GenerationError::Format(FormatError::WireLimit(WireField::Texts)));
    }
    if !check_texts_short(&strings) {
        return Err(GenerationError::Format(FormatError::WireLimit(WireField::TextBytes)));
    }
    proof {
        intern::lemma_dictionary(intern::store_texts(s) + labels, StringCodeOrder::Lexicographic);
        lemma_built_dictionary(s, labels);
    }
    let index: TextMap<u32> = index_strings(&strings);
    Ok((strings, index))
}

/// Writes a built store: its segments, the zone maps of relationship columns,
/// and the companions.
pub fn emit_all(
    store: &CompactStore,
    id_index: &MappedNodeIdIndex,
    membership_runs: Option<&RunSetLease>,
    presence: &[BitmapRecord],
    nulls: &[BitmapRecord],
) -> (r: Result<Vec<u8>, GenerationError>)
    requires
        forall|i: int| 0 <= i < presence@.len() ==> presence::bitmap_record_fits(#[trigger] presence@[i]),
        forall|i: int| 0 <= i < nulls@.len() ==> presence::bitmap_record_fits(#[trigger] nulls@[i]),
    ensures
        ({
            let want = built_payload(
                store@,
                id_index@,
                run_view(membership_runs),
                presence@,
                nulls@,
            );
            match r {
                Ok(p) => want == Ok::<Seq<u8>, GenerationError>(p@),
                Err(e) => want == Err::<Seq<u8>, GenerationError>(e),
            }
        }),
{
    let ghost s = store@;
    let (strings, index) = number_texts(store, membership_runs)?;
    let ghost dict = text::texts(strings@);
    let mut segments: Vec<Segment> = match main_segments(store, &strings, &index) {
        Ok(x) => x,
        Err(e) => return Err(GenerationError::Format(e)),
    };
    let ghost mut body: Option<Seq<u8>> = None;
    let membership: Option<Vec<u8>> = match membership_runs {
        Some(run) => {
            let b: Vec<u8> = emit_membership_segment(run, id_index, &index)?;
            proof {
                body = Some(b@);
            }
            Some(b)
        },
        None => None,
    };
    match push_companions(&mut segments, membership, presence, nulls) {
        Ok(_) => {},
        Err(e) => {
            assert(false);
            return Err(GenerationError::Format(e));
        },
    }
    proof {
        assert(payload::segment_views(segments@) =~= built_segments(s, dict, body, presence@, nulls@));
        lemma_built_aligned(s, dict, body, presence@, nulls@);
    }
    let flags: u8 = if store.preserves_ids() {
        1
    } else {
        0
    };
    match assemble_payload(&segments, flags, total_nodes(store), total_edges(store)) {
        Ok(p) => Ok(p),
        Err(e) => {
            assert(false);
            Err(GenerationError::Format(e))
        },
    }
}

// -------------------------------------------------------------------- laws

/// No relationship column has a zone map.
pub open spec fn rels_without_zones(v: Seq<RelTableView>) -> bool {
    forall|i: int| 0 <= i < v.len() ==> (#[trigger] v[i]).zones.len() == 0 && v[i].blocks.len() == 0
}

proof fn lemma_no_rel_zones(v: Seq<RelTableView>, index: Map<Seq<char>, u32>, n: int)
    requires
        rels_without_zones(v),
        0 <= n <= v.len(),
    ensures
        zone_maps::rel_zone_rows(v, n) == Seq::<ZoneRow>::empty(),
        zone_maps::rel_block_rows(v, n) == Seq::<ZoneRow>::empty(),
        faults::first_fault(n as nat, zone_maps::rel_zones_write_checks(v, index)) is None,
    decreases n,
{
    if n > 0 {
        lemma_no_rel_zones(v, index, n - 1);
        assert(v[n - 1].zones.len() == 0);
        assert(zone_maps::rel_zone_rows(v, n) =~= Seq::<ZoneRow>::empty());
        assert(zone_maps::rel_block_rows(v, n) =~= Seq::<ZoneRow>::empty());
        assert(zone_maps::rel_zones_write_checks(v, index)(n - 1) is None);
    }
}

/// Where every node has one label, every row has an entry that is no null, no
/// relationship column has a zone map and some edge can be followed back, a
/// build emits byte for byte what the serializer writes of the same store with
/// texts in byte order, and fails where it fails.
pub proof fn lemma_dense_payload_is_the_serialized_store(s: StoreView, index: Seq<IdEntry>)
    requires
        rels_without_zones(s.rels),
        v5_write::any_reverse(s.rels, s.rels.len() as int),
    ensures
        built_payload(s, index, None, Seq::empty(), Seq::empty()) == (match v5_write::v5_fault(
            s,
            StringCodeOrder::Lexicographic,
        ) {
            None => Ok::<Seq<u8>, GenerationError>(v5_write::v5_image(s, StringCodeOrder::Lexicographic)),
            Some(f) => Err::<Seq<u8>, GenerationError>(GenerationError::Format(f)),
        }),
{
    let labels = Seq::<Seq<char>>::empty();
    assert(intern::store_texts(s) + labels =~= intern::store_texts(s));
    let dict = built_dictionary(s, labels);
    let codes = intern::codes_of_texts(dict);
    lemma_no_rel_zones(s.rels, codes, s.rels.len() as int);
    assert(dict.len() > 0) by {
        let t = s.rels[0];
        intern::lemma_dictionary(intern::store_texts(s), StringCodeOrder::Lexicographic);
        intern::lemma_table_texts(t.edge_type, t.columns, t.zones, t.blocks);
        intern::lemma_store_has_rel_text(s, 0, t.edge_type);
        assert(dict.contains(t.edge_type));
    }
    code_index::lemma_code_index_len(dict);
    assert(zone_maps::all_zone_rows(s) =~= zone_maps::table_zone_rows(s.nodes, s.nodes.len() as int));
    assert(zone_maps::all_block_rows(s) =~= zone_maps::block_zone_rows(s.nodes, s.nodes.len() as int));
    assert(built_segments(s, dict, None, Seq::empty(), Seq::empty()) =~= v5_write::v5_segments(
        s,
        StringCodeOrder::Lexicographic,
    ));
}

} // verus!
