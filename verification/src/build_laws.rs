//! Builds are deterministic.

use crate::bounded_emit;
use crate::builder::StreamingGenerationOutput;
use crate::builder;
use crate::directory::SegmentKind;
use crate::generation::GenerationError;
use crate::intern::StringCodeOrder;
use crate::node_pass;
use crate::orchestrator::PlanView;
use crate::orchestrator;
use crate::presence::BitmapRecord;
use crate::presence;
use crate::stream_meta;
use crate::tables::{ColumnView, StoreView};
use crate::text::own;
use crate::text;
use crate::v5_write;
use crate::value::ZoneView;
use vstd::prelude::*;

verus! {

/// A map has one listing by ascending key.
pub proof fn lemma_lists_map_unique<V>(
    a: Seq<(Seq<char>, V)>,
    b: Seq<(Seq<char>, V)>,
    m: Map<Seq<char>, V>,
)
    requires
        orchestrator::lists_map(a, m),
        orchestrator::lists_map(b, m),
    ensures
        a == b,
{
    let ka = Seq::new(a.len(), |i: int| a[i].0);
    let va = Seq::new(a.len(), |i: int| a[i].1);
    let kb = Seq::new(b.len(), |i: int| b[i].0);
    let vb = Seq::new(b.len(), |i: int| b[i].1);
    assert forall|l: Seq<char>| ka.contains(l) == m.dom().contains(l) by {
        assert(text::text_map_of(ka, va).dom().contains(l) == ka.contains(l));
    }
    assert forall|l: Seq<char>| kb.contains(l) == m.dom().contains(l) by {
        assert(text::text_map_of(kb, vb).dom().contains(l) == kb.contains(l));
    }
    node_pass::lemma_lists_set_unique(ka, kb, m.dom());
    assert forall|i: int| 0 <= i < a.len() implies a[i] == b[i] by {
        let k = ka[i];
        assert(ka.contains(k) && kb.contains(k));
        let x = ka.index_of(k);
        assert(ka[x] == k);
        text::lemma_ascending_distinct(ka, x, i);
        assert(text::text_map_of(ka, va)[k] == va[i]);
        assert(text::text_map_of(kb, vb)[k] == vb[i]);
        assert(a[i].0 == kb[i]);
    }
    assert(a =~= b);
}

/// A plan and its encoded columns make one store.
pub proof fn lemma_built_store_unique(
    p: PlanView,
    codecs: Seq<ColumnView>,
    blocks: Seq<Seq<ZoneView>>,
    a: StoreView,
    b: StoreView,
)
    requires
        orchestrator::built_store(p, codecs, blocks, a),
        orchestrator::built_store(p, codecs, blocks, b),
    ensures
        a == b,
{
    let n = p.cells.len();
    let zones = orchestrator::zones_of(p.geometries);
    assert forall|t: int| 0 <= t < a.nodes.len() implies a.nodes[t] == b.nodes[t] by {
        let own = orchestrator::node_number(p.base, t);
        assert(orchestrator::node_built(p, codecs, blocks, t, a.nodes[t]));
        assert(orchestrator::node_built(p, codecs, blocks, t, b.nodes[t]));
        lemma_lists_map_unique(
            a.nodes[t].columns,
            b.nodes[t].columns,
            orchestrator::column_map(p.cells, codecs, own, n),
        );
        lemma_lists_map_unique(
            a.nodes[t].zones,
            b.nodes[t].zones,
            orchestrator::column_map(p.cells, zones, own, n),
        );
        lemma_lists_map_unique(
            a.nodes[t].blocks,
            b.nodes[t].blocks,
            orchestrator::column_map(p.cells, blocks, own, n),
        );
    }
    assert forall|t: int| 0 <= t < a.rels.len() implies a.rels[t] == b.rels[t] by {
        let own = p.base + t;
        assert(orchestrator::rel_built(p, codecs, blocks, t, a.rels[t]));
        assert(orchestrator::rel_built(p, codecs, blocks, t, b.rels[t]));
        lemma_lists_map_unique(
            a.rels[t].columns,
            b.rels[t].columns,
            orchestrator::column_map(p.cells, codecs, own, n),
        );
        lemma_lists_map_unique(
            a.rels[t].zones,
            b.rels[t].zones,
            orchestrator::column_map(p.cells, zones, own, n),
        );
        lemma_lists_map_unique(
            a.rels[t].blocks,
            b.rels[t].blocks,
            orchestrator::column_map(p.cells, blocks, own, n),
        );
    }
    assert(a.nodes =~= b.nodes);
    assert(a.rels =~= b.rels);
}

/// Two streaming builds from one plan and the same encoded columns yield the
/// same bytes, or the same error.
pub proof fn lemma_streaming_build_is_deterministic(
    p: PlanView,
    codecs: Seq<ColumnView>,
    blocks: Seq<Seq<ZoneView>>,
    a: Result<StreamingGenerationOutput, GenerationError>,
    b: Result<StreamingGenerationOutput, GenerationError>,
)
    requires
        builder::is_streamed(p, codecs, blocks, a),
        builder::is_streamed(p, codecs, blocks, b),
    ensures
        match a {
            Ok(x) => b is Ok && b->Ok_0.payload@ == x.payload@ && b->Ok_0.total_nodes
                == x.total_nodes && b->Ok_0.total_edges == x.total_edges
                && b->Ok_0.preserves_ids == x.preserves_ids,
            Err(e) => b == Err::<StreamingGenerationOutput, GenerationError>(e),
        },
{
    let order = StringCodeOrder::Lexicographic;
    let s = choose|s: StoreView| #[trigger]
        orchestrator::built_store(p, codecs, blocks, s) && (match a {
            Ok(x) => v5_write::v5_fault(s, order) is None && x.payload@ == stream_meta::coded_image(s, builder::plan_codes(p))
                && x.total_nodes == v5_write::node_total(s.nodes, s.nodes.len() as int) && x.total_edges
                == v5_write::edge_total(s.rels, s.rels.len() as int) && x.preserves_ids,
            Err(e) => v5_write::v5_fault(s, order) is Some && e == GenerationError::Format(
                v5_write::v5_fault(s, order)->0,
            ),
        });
    let t = choose|s: StoreView| #[trigger]
        orchestrator::built_store(p, codecs, blocks, s) && (match b {
            Ok(x) => v5_write::v5_fault(s, order) is None && x.payload@ == stream_meta::coded_image(s, builder::plan_codes(p))
                && x.total_nodes == v5_write::node_total(s.nodes, s.nodes.len() as int) && x.total_edges
                == v5_write::edge_total(s.rels, s.rels.len() as int) && x.preserves_ids,
            Err(e) => v5_write::v5_fault(s, order) is Some && e == GenerationError::Format(
                v5_write::v5_fault(s, order)->0,
            ),
        });
    lemma_built_store_unique(p, codecs, blocks, s, t);
}

/// Where the inferred codecs are those that the columns were encoded with, a
/// streaming build writes what the serializer writes.
pub proof fn lemma_streaming_build_is_the_serialized_store(
    p: PlanView,
    codecs: Seq<ColumnView>,
    blocks: Seq<Seq<ZoneView>>,
    s: StoreView,
    r: StreamingGenerationOutput,
)
    requires
        builder::is_streamed(p, codecs, blocks, Ok(r)),
        orchestrator::built_store(p, codecs, blocks, s),
        stream_meta::store_truly_coded(s, builder::plan_codes(p)),
    ensures
        r.payload@ == v5_write::v5_image(s, StringCodeOrder::Lexicographic),
{
    let order = StringCodeOrder::Lexicographic;
    let t = choose|t: StoreView| #[trigger]
        orchestrator::built_store(p, codecs, blocks, t) && v5_write::v5_fault(t, order) is None && r.payload@
            == stream_meta::coded_image(t, builder::plan_codes(p));
    lemma_built_store_unique(p, codecs, blocks, s, t);
    stream_meta::lemma_true_codes_give_the_serialized_store(s, builder::plan_codes(p));
}

proof fn lemma_bitmaps_by_content(a: Seq<BitmapRecord>, b: Seq<BitmapRecord>, n: int)
    requires
        orchestrator::bitmap_rows(a) == orchestrator::bitmap_rows(b),
        0 <= n <= a.len(),
    ensures
        a.len() == b.len(),
        presence::bitmap_records(a, n) == presence::bitmap_records(b, n),
    decreases n,
{
    assert(orchestrator::bitmap_rows(a).len() == a.len());
    assert(orchestrator::bitmap_rows(b).len() == b.len());
    if n > 0 {
        lemma_bitmaps_by_content(a, b, n - 1);
        assert(orchestrator::bitmap_rows(a)[n - 1] == orchestrator::bitmap_rows(b)[n - 1]);
    }
}

/// Two builds from one plan and the same encoded columns yield the same bytes,
/// or the same error.
pub proof fn lemma_build_is_deterministic(
    p: PlanView,
    codecs: Seq<ColumnView>,
    blocks: Seq<Seq<ZoneView>>,
    a: Result<Seq<u8>, GenerationError>,
    b: Result<Seq<u8>, GenerationError>,
)
    requires
        orchestrator::is_built_payload(p, codecs, blocks, a),
        orchestrator::is_built_payload(p, codecs, blocks, b),
    ensures
        a == b,
{
    let n = p.cells.len();
    let (s, sp, sn) = choose|
        s: StoreView,
        presence: Seq<BitmapRecord>,
        nulls: Seq<BitmapRecord>,
    |
        orchestrator::built_store(p, codecs, blocks, s) && orchestrator::bitmap_rows(presence) == orchestrator::presence_rows(p, n)
            && orchestrator::bitmap_rows(nulls) == orchestrator::null_rows(p, n) && a == #[trigger] bounded_emit::built_payload(
            s,
            p.nodes.index,
            p.nodes.membership,
            presence,
            nulls,
        );
    let (t, tp, tn) = choose|
        s: StoreView,
        presence: Seq<BitmapRecord>,
        nulls: Seq<BitmapRecord>,
    |
        orchestrator::built_store(p, codecs, blocks, s) && orchestrator::bitmap_rows(presence) == orchestrator::presence_rows(p, n)
            && orchestrator::bitmap_rows(nulls) == orchestrator::null_rows(p, n) && b == #[trigger] bounded_emit::built_payload(
            s,
            p.nodes.index,
            p.nodes.membership,
            presence,
            nulls,
        );
    lemma_built_store_unique(p, codecs, blocks, s, t);
    lemma_bitmaps_by_content(sp, tp, sp.len() as int);
    lemma_bitmaps_by_content(sn, tn, sn.len() as int);
    assert(bounded_emit::bitmap_segment_of(SegmentKind::ColumnRowPresence, sp) == bounded_emit::bitmap_segment_of(
        SegmentKind::ColumnRowPresence,
        tp,
    ));
    assert(bounded_emit::bitmap_segment_of(SegmentKind::ColumnRowNull, sn) == bounded_emit::bitmap_segment_of(
        SegmentKind::ColumnRowNull,
        tn,
    ));
}

} // verus!
