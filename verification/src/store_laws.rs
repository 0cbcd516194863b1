//! What batches give, what an encoding must keep, how bodies are placed, and what
//! the statistics of a section count.

use crate::column_pass::GeometryView;
use crate::emit_columns::{BodySize, EmittedColumn};
use crate::emit_columns;
use crate::emit_meta;
use crate::faults;
use crate::freeze;
use crate::graph_store;
use crate::orchestrator::PlanView;
use crate::orchestrator;
use crate::records::GenerationNode;
use crate::section;
use crate::section_frame::SectionNodeView;
use crate::table_laws;
use crate::tables::ColumnView;
use crate::tables;
use crate::value::{Value, ValueView, WholeValue};
use crate::value;
use vstd::prelude::*;

verus! {

// --------------------------------------------------------------------- batches

/// A batch gives a key exactly where it was asked for and has a value, and then
/// that value.
pub proof fn lemma_batch_gives_what_was_asked(
    keys: Seq<String>,
    value: spec_fn(Seq<char>) -> Option<WholeValue>,
    k: Seq<char>,
)
    ensures
        graph_store::selected(keys, keys.len() as int, value).dom().contains(k) <==> (exists|j: int|
            0 <= j < keys.len() && (#[trigger] keys[j])@ == k) && value(k) is Some,
        graph_store::selected(keys, keys.len() as int, value).dom().contains(k) ==> Some(
            graph_store::selected(keys, keys.len() as int, value)[k],
        ) == value(k),
{
}

/// The properties of a node are its values under their keys; where there is no
/// node, there are none.
pub proof fn lemma_properties_of_nodes(n: Option<GenerationNode>, k: Seq<char>)
    ensures
        n matches Some(x) ==> (graph_store::stored_properties(graph_store::stored_node(n)).dom().contains(k)
            <==> x.properties@.dom().contains(k)) && (x.properties@.dom().contains(k)
            ==> graph_store::stored_properties(graph_store::stored_node(n))[k] == value::whole(x.properties@[k])),
        n is None ==> !graph_store::stored_properties(graph_store::stored_node(n)).dom().contains(k),
        n matches Some(x) ==> graph_store::stored_node(n)->0.id == x.id && graph_store::stored_node(n)->0.labels.len()
            == x.labels@.len() && forall|i: int|
            0 <= i < x.labels@.len() ==> (#[trigger] graph_store::stored_node(n)->0.labels[i])
                == x.labels@[i]@,
        n is None <==> graph_store::stored_node(n) is None,
{
}

/// Of several pairs with one key the last one counts.
pub proof fn lemma_last_pair_counts(v: Seq<(String, Value)>, n: int)
    requires
        0 <= n <= v.len(),
    ensures
        forall|k: Seq<char>| #[trigger]
            freeze::map_of_pairs(v, n).dom().contains(k) <==> exists|i: int|
                0 <= i < n && (#[trigger] v[i]).0@ == k,
        forall|i: int|
            0 <= i < n && (forall|j: int| i < j < n ==> v[j].0@ != v[i].0@) ==> freeze::map_of_pairs(v, n)[(
            #[trigger] v[i]).0@] == v[i].1,
    decreases n,
{
    if n > 0 {
        lemma_last_pair_counts(v, n - 1);
        let m = freeze::map_of_pairs(v, n - 1);
        let r = freeze::map_of_pairs(v, n);
        assert forall|k: Seq<char>| #[trigger] r.dom().contains(k) <==> exists|i: int|
            0 <= i < n && (#[trigger] v[i]).0@ == k by {
            assert(m.dom().contains(k) <==> exists|i: int|
                0 <= i < n - 1 && (#[trigger] v[i]).0@ == k);
            if v[n - 1].0@ == k {
                assert(v[n - 1].0@ == k);
            }
        }
        assert forall|i: int|
            0 <= i < n && (forall|j: int| i < j < n ==> v[j].0@ != v[i].0@) implies r[(
        #[trigger] v[i]).0@] == v[i].1 by {
            if i < n - 1 {
                assert(v[n - 1].0@ != v[i].0@);
                assert(m[v[i].0@] == v[i].1);
            }
        }
    }
}

// ------------------------------------------------------------------- encodings

/// A row of a column's dictionary leads to a text.
pub open spec fn leads_to(codec: ColumnView, r: int, t: Seq<char>) -> bool {
    match codec {
        ColumnView::Dict { entries, codes } => r < codes.len() && codes[r] < entries.len()
            && entries[codes[r] as int] == t,
        ColumnView::Flat { .. } => false,
    }
}

/// An encoding keeps a column: it has as many rows, the codec that the values
/// call for, and in every row with a text that text.
pub open spec fn keeps_column(
    codec: ColumnView,
    g: GeometryView,
    cells: Seq<Option<ValueView>>,
) -> bool {
    &&& tables::column_rows(codec) == g.row_count
    &&& tables::column_disc(codec) == emit_meta::codec_code(emit_columns::kind_of(g))
    &&& forall|r: int|
        0 <= r < cells.len() ==> match (#[trigger] cells[r]) {
            Some(ValueView::Text(t)) => leads_to(codec, r, t),
            _ => true,
        }
}

/// Encodings are taken exactly where each keeps its column.
pub proof fn lemma_kept_columns_are_taken(p: PlanView, codecs: Seq<ColumnView>)
    ensures
        orchestrator::encoding_fault(p, codecs) is None <==> forall|i: int|
            0 <= i < p.cells.len() ==> keeps_column(
                codecs[i],
                p.geometries[i],
                (#[trigger] p.cells[i]).cells,
            ),
{
    faults::lemma_no_fault(p.cells.len(), orchestrator::encoding_checks(p, codecs));
    assert forall|i: int| 0 <= i < p.cells.len() implies ((orchestrator::encoding_checks(p, codecs)(i)) is None
        <==> keeps_column(codecs[i], p.geometries[i], (#[trigger] p.cells[i]).cells)) by {
        let c = p.cells[i].cells;
        if orchestrator::texts_kept(codecs[i], c) {
            assert forall|r: int| 0 <= r < c.len() implies match (#[trigger] c[r]) {
                Some(ValueView::Text(t)) => leads_to(codecs[i], r, t),
                _ => true,
            } by {
                if let Some(ValueView::Text(t)) = c[r] {
                    assert(orchestrator::text_in_row(codecs[i], r) == Some(t));
                }
            }
        }
    }
    if forall|i: int|
        0 <= i < p.cells.len() ==> keeps_column(
            codecs[i],
            p.geometries[i],
            (#[trigger] p.cells[i]).cells,
        ) {
        assert forall|i: int| 0 <= i < p.cells.len() implies (#[trigger] orchestrator::encoding_checks(p, codecs)(
            i,
        )) is None by {
            assert(keeps_column(codecs[i], p.geometries[i], p.cells[i].cells));
        }
    }
    if orchestrator::encoding_fault(p, codecs) is None {
        assert forall|i: int| 0 <= i < p.cells.len() implies keeps_column(
            codecs[i],
            p.geometries[i],
            (#[trigger] p.cells[i]).cells,
        ) by {
            assert(orchestrator::encoding_checks(p, codecs)(i) is None);
        }
    }
}

// ---------------------------------------------------------------------- bodies

/// Placed bodies lie one behind the other from the start on, without a gap.
pub proof fn lemma_bodies_lie_end_to_end(
    c: EmittedColumn,
    d: EmittedColumn,
    g: GeometryView,
    h: GeometryView,
    sizes: Seq<BodySize>,
    i: int,
)
    requires
        0 <= i < sizes.len() - 1,
        emit_columns::is_placed(c, g, sizes, i),
        emit_columns::is_placed(d, h, sizes, i + 1),
    ensures
        d.body_start == c.body_start + c.body_len,
        i == 0 ==> c.body_start == 0,
        c.body_len == sizes[i].bytes,
        c.codec_len == sizes[i].rows,
        c.table_id == g.table_id,
        c.key@ == g.key,
{
    assert(emit_columns::body_start(sizes, 0) == 0);
}

// ------------------------------------------------------------------ statistics

/// The statistics of a section whose tables have labels of their own give every
/// label the number of its table and the rows of its table.
pub proof fn lemma_labels_count_their_rows(v: Seq<SectionNodeView>, t: int)
    requires
        0 <= t < v.len() <= 0x1_0000,
        forall|i: int, j: int|
            0 <= i < j < v.len() ==> (#[trigger] v[i]).label != (#[trigger] v[j]).label,
    ensures
        ({
            let n = v.len() as int;
            let counts = section::put_all(section::section_labels(v), section::row_counts(v), n);
            let tables = section::put_all(section::section_labels(v), section::table_numbers(v), n);
            &&& counts.dom().contains(v[t].label) && counts[v[t].label] == v[t].rows as u64
            &&& tables.dom().contains(v[t].label) && tables[v[t].label] == t
            &&& forall|k: Seq<char>| #[trigger]
                counts.dom().contains(k) <==> exists|i: int|
                    0 <= i < v.len() && (#[trigger] v[i]).label == k
        }),
{
    let n = v.len() as int;
    let keys = section::section_labels(v);
    table_laws::lemma_last_put_counts(keys, section::row_counts(v), n);
    table_laws::lemma_last_put_counts(keys, section::table_numbers(v), n);
    assert(keys[t] == v[t].label);
    assert forall|j: int| t < j < n implies keys[j] != keys[t] by {
        assert(v[t].label != v[j].label);
    }
    let counts = section::put_all(keys, section::row_counts(v), n);
    assert(counts[keys[t]] == section::row_counts(v)[t]->0);
    assert forall|k: Seq<char>| #[trigger] counts.dom().contains(k) <==> exists|i: int|
        0 <= i < v.len() && (#[trigger] v[i]).label == k by {
        if exists|i: int| 0 <= i < v.len() && (#[trigger] v[i]).label == k {
            let i = choose|i: int| 0 <= i < v.len() && (#[trigger] v[i]).label == k;
            assert(keys[i] == k && section::row_counts(v)[i] is Some);
        }
        if counts.dom().contains(k) {
            let i = choose|i: int|
                0 <= i < n && #[trigger] keys[i] == k && section::row_counts(v)[i] is Some;
            assert(v[i].label == k);
        }
    }
}

} // verus!
