//! The geometry of a column sums its values up: bounds, counts, family and codec
//! are those of the values that the column holds, and so is its zone map.

use crate::column_pass::{Family, GeometryView};
use crate::column_pass;
use crate::emit_columns::CellsView;
use crate::emit_columns;
use crate::emit_ids;
use crate::emit_meta::CodecKind;
use crate::generation::GenerationError;
use crate::node_pass;
use crate::orchestrator::PlanView;
use crate::orchestrator;
use crate::records::{DeclRecord, EdgeRecord, NodeRecord};
use crate::runs::RecordView;
use crate::stages;
use crate::stream_plan;
use crate::text;
use crate::value::{ValueView, ZoneView};
use crate::wire;
use vstd::arithmetic::power2::*;
use vstd::prelude::*;

verus! {

/// A row of the column holds a value.
pub open spec fn has(cells: Seq<Option<ValueView>>, v: ValueView) -> bool {
    exists|r: int| 0 <= r < cells.len() && #[trigger] cells[r] == Some(v)
}

/// How many rows of the column hold an entry.
pub open spec fn entries_in(cells: Seq<Option<ValueView>>) -> nat {
    cells.filter(|c: Option<ValueView>| c is Some).len()
}

/// How many rows of the column hold a null.
pub open spec fn nulls_in(cells: Seq<Option<ValueView>>) -> nat {
    cells.filter(|c: Option<ValueView>| c == Some(ValueView::Null)).len()
}

/// The text bounds are texts of the column, and none of its texts lies outside
/// them.
pub open spec fn texts_bounded(g: GeometryView, cells: Seq<Option<ValueView>>) -> bool {
    &&& forall|t: Seq<char>| #[trigger]
        has(cells, ValueView::Text(t)) ==> g.has_string && g.min_str is Some && g.max_str is Some
            && !text::text_lt(t, g.min_str->0) && !text::text_lt(g.max_str->0, t)
    &&& g.min_str matches Some(t) ==> has(cells, ValueView::Text(t))
    &&& g.max_str matches Some(t) ==> has(cells, ValueView::Text(t))
    &&& g.has_string ==> g.min_str is Some && g.max_str is Some
}

/// The integer bounds are integers of the column, and none of its integers lies
/// outside them; the sign and the width are those of its integers.
pub open spec fn integers_bounded(g: GeometryView, cells: Seq<Option<ValueView>>) -> bool {
    &&& forall|n: i64| #[trigger]
        has(cells, ValueView::Int64(n)) ==> g.min_int is Some && g.max_int is Some
            && g.min_int->0 <= n <= g.max_int->0
    &&& g.min_int matches Some(n) ==> has(cells, ValueView::Int64(n))
    &&& g.max_int matches Some(n) ==> has(cells, ValueView::Int64(n))
    &&& g.saw_signed_int == (g.min_int is Some && g.min_int->0 < 0)
    &&& g.max_int_bits >= 0
    &&& g.max_int is Some && g.max_int->0 >= 0 ==> g.max_int_bits >= 1 && g.max_int->0 < pow2(
        g.max_int_bits as nat,
    )
    &&& g.max_int_bits > 1 ==> g.max_int is Some && g.max_int->0 >= pow2(
        (g.max_int_bits - 1) as nat,
    )
}

/// The float bounds are numbers of the column, and none of its numbers lies
/// outside them.
pub open spec fn floats_bounded(g: GeometryView, cells: Seq<Option<ValueView>>) -> bool {
    &&& forall|f: u64| #[trigger]
        has(cells, ValueView::Float64(f)) && !column_pass::is_nan_bits(f) ==> g.min_float is Some
            && g.max_float is Some && column_pass::float_rank(g.min_float->0) <= column_pass::float_rank(f) <= column_pass::float_rank(
            g.max_float->0,
        )
    &&& g.min_float matches Some(f) ==> has(cells, ValueView::Float64(f)) && !column_pass::is_nan_bits(f)
    &&& g.max_float matches Some(f) ==> has(cells, ValueView::Float64(f)) && !column_pass::is_nan_bits(f)
}

/// The truth values seen are those of the column, and the vectors of the column
/// have the one length that is kept.
pub open spec fn others_seen(g: GeometryView, cells: Seq<Option<ValueView>>) -> bool {
    &&& g.saw_true == has(cells, ValueView::Bool(true))
    &&& g.saw_false == has(cells, ValueView::Bool(false))
    &&& forall|w: Seq<u32>| #[trigger]
        has(cells, ValueView::Vector(w)) ==> g.vector_dims is Some && w.len() == g.vector_dims->0
    &&& g.vector_dims is Some ==> exists|w: Seq<u32>| #[trigger] has(cells, ValueView::Vector(w))
}

/// All values but nulls are of the family.
pub open spec fn one_family(g: GeometryView, cells: Seq<Option<ValueView>>) -> bool {
    &&& forall|v: ValueView| #[trigger]
        has(cells, v) ==> match v {
            ValueView::Null => true,
            ValueView::Bool(_) => g.family == Some(Family::Bool),
            ValueView::Int64(_) => g.family == Some(Family::Int64),
            ValueView::Float64(_) => g.family == Some(Family::Float64),
            ValueView::Text(_) => g.family == Some(Family::Text),
            ValueView::Vector(_) => g.family == Some(Family::Vector),
            ValueView::Other(_) => false,
        }
    &&& g.family is Some ==> exists|v: ValueView| #[trigger] has(cells, v) && !(v is Null)
}

/// The geometry sums the column up.
pub open spec fn sums_up(g: GeometryView, cells: Seq<Option<ValueView>>) -> bool {
    &&& texts_bounded(g, cells)
    &&& integers_bounded(g, cells)
    &&& floats_bounded(g, cells)
    &&& others_seen(g, cells)
    &&& one_family(g, cells)
    &&& g.present_count == entries_in(cells)
    &&& g.null_count == nulls_in(cells)
}

proof fn lemma_padded_has(c: Seq<Option<ValueView>>, n: int, v: ValueView)
    ensures
        has(emit_columns::padded(c, n), v) == has(c, v),
{
    let d = emit_columns::padded(c, n);
    if has(c, v) {
        let r = choose|r: int| 0 <= r < c.len() && #[trigger] c[r] == Some(v);
        assert(d[r] == Some(v));
    }
    if has(d, v) {
        let r = choose|r: int| 0 <= r < d.len() && #[trigger] d[r] == Some(v);
        assert(c[r] == Some(v));
    }
}

proof fn lemma_pushed_has(c: Seq<Option<ValueView>>, x: ValueView, v: ValueView)
    ensures
        has(c.push(Some(x)), v) == (has(c, v) || v == x),
{
    let d = c.push(Some(x));
    if has(c, v) {
        let r = choose|r: int| 0 <= r < c.len() && #[trigger] c[r] == Some(v);
        assert(d[r] == Some(v));
    }
    if v == x {
        assert(d[c.len() as int] == Some(v));
    }
    if has(d, v) {
        let r = choose|r: int| 0 <= r < d.len() && #[trigger] d[r] == Some(v);
        if r < c.len() {
            assert(c[r] == Some(v));
        }
    }
}

proof fn lemma_filter_push<A>(c: Seq<A>, x: A, f: spec_fn(A) -> bool)
    ensures
        c.push(x).filter(f).len() == c.filter(f).len() + if f(x) {
            1nat
        } else {
            0
        },
{
    reveal(Seq::filter);
    assert(c.push(x).drop_last() =~= c);
}

proof fn lemma_padded_counts(c: Seq<Option<ValueView>>, n: int)
    ensures
        entries_in(emit_columns::padded(c, n)) == entries_in(c),
        nulls_in(emit_columns::padded(c, n)) == nulls_in(c),
    decreases n - c.len(),
{
    if c.len() < n {
        let d = c.push(None);
        lemma_padded_counts(d, n);
        assert(emit_columns::padded(d, n) =~= emit_columns::padded(c, n));
        lemma_filter_push(c, None, |x: Option<ValueView>| x is Some);
        lemma_filter_push(c, None, |x: Option<ValueView>| x == Some(ValueView::Null));
    } else {
        assert(emit_columns::padded(c, n) =~= c);
    }
}

proof fn lemma_padded_sums_up(g: GeometryView, c: Seq<Option<ValueView>>, n: int)
    requires
        sums_up(g, c),
    ensures
        sums_up(g, emit_columns::padded(c, n)),
{
    let d = emit_columns::padded(c, n);
    lemma_padded_counts(c, n);
    assert forall|v: ValueView| #[trigger] has(d, v) == has(c, v) by {
        lemma_padded_has(c, n, v);
    }
    if g.vector_dims is Some {
        let w = choose|w: Seq<u32>| #[trigger] has(c, ValueView::Vector(w));
        assert(has(d, ValueView::Vector(w)));
    }
    if g.family is Some {
        let v = choose|v: ValueView| #[trigger] has(c, v) && !(v is Null);
        assert(has(d, v));
    }
}

proof fn lemma_bit_length(n: int)
    requires
        n > 0,
    ensures
        column_pass::bit_length(n) >= 1,
        pow2((column_pass::bit_length(n) - 1) as nat) <= n < pow2(column_pass::bit_length(n) as nat),
    decreases n,
{
    if n == 1 {
        assert(column_pass::bit_length(0) == 0);
        lemma2_to64();
    } else {
        lemma_bit_length(n / 2);
        lemma_pow2_unfold(column_pass::bit_length(n) as nat);
        lemma_pow2_unfold((column_pass::bit_length(n) - 1) as nat);
    }
}

proof fn lemma_text_step(g: GeometryView, h: GeometryView, c: Seq<Option<ValueView>>, v: ValueView)
    requires
        texts_bounded(g, c),
        column_pass::geometry_step(g, v) == Ok::<GeometryView, GenerationError>(h),
    ensures
        texts_bounded(h, c.push(Some(v))),
{
    let d = c.push(Some(v));
    assert forall|x: ValueView| #[trigger] has(d, x) == (has(c, x) || x == v) by {
        lemma_pushed_has(c, v, x);
    }
    assert forall|t: Seq<char>| #[trigger] has(d, ValueView::Text(t)) implies h.has_string
        && h.min_str is Some && h.max_str is Some && !text::text_lt(t, h.min_str->0) && !text::text_lt(
        h.max_str->0,
        t,
    ) by {
        wire::lemma_lex_irreflexive(text::utf8(t));
        if v is Text && has(c, ValueView::Text(t)) {
            let s = v->Text_0;
            let m = g.min_str->0;
            let x = g.max_str->0;
            if text::text_lt(t, s) && text::text_lt(s, m) {
                wire::lemma_lex_transitive(text::utf8(t), text::utf8(s), text::utf8(m));
            }
            if text::text_lt(s, t) && text::text_lt(x, s) {
                wire::lemma_lex_transitive(text::utf8(x), text::utf8(s), text::utf8(t));
            }
        }
        if v is Text && v->Text_0 == t && g.min_str is Some && g.max_str is Some {
            let m = g.min_str->0;
            let x = g.max_str->0;
            assert(has(c, ValueView::Text(m)));
            assert(has(c, ValueView::Text(x)));
        }
    }
}

proof fn lemma_integer_step(
    g: GeometryView,
    h: GeometryView,
    c: Seq<Option<ValueView>>,
    v: ValueView,
)
    requires
        integers_bounded(g, c),
        column_pass::geometry_step(g, v) == Ok::<GeometryView, GenerationError>(h),
    ensures
        integers_bounded(h, c.push(Some(v))),
{
    let d = c.push(Some(v));
    assert forall|x: ValueView| #[trigger] has(d, x) == (has(c, x) || x == v) by {
        lemma_pushed_has(c, v, x);
    }
    if let ValueView::Int64(n) = v {
        lemma2_to64();
        if g.min_int is Some {
            assert(has(c, ValueView::Int64(g.min_int->0)));
        }
        if g.max_int is Some {
            assert(has(c, ValueView::Int64(g.max_int->0)));
        }
        if n > 0 {
            lemma_bit_length(n as int);
        }
        if n >= 0 && g.max_int_bits > column_pass::bit_length(n as int) {
            lemma_pow2_grows(column_pass::bit_length(n as int) as nat, (g.max_int_bits - 1) as nat);
        }
        if n >= 0 && g.max_int is Some && g.max_int->0 >= 0 && g.max_int_bits < column_pass::bit_length(
            n as int,
        ) {
            lemma_pow2_grows(g.max_int_bits as nat, (column_pass::bit_length(n as int) - 1) as nat);
        }
        if n >= 0 && g.max_int is Some {
            lemma_pow2_grows(0, g.max_int_bits as nat);
            lemma_width_step(g.max_int->0 as int, g.max_int_bits, n as int);
        }
    }
}

/// The wider of two widths is that of the larger number.
proof fn lemma_width_step(m: int, b: int, n: int)
    requires
        n >= 0,
        b >= 0,
        m >= 0 ==> b >= 1 && m < pow2(b as nat),
        b > 1 ==> m >= pow2((b - 1) as nat),
    ensures
        ({
            let top = if m >= n {
                m
            } else {
                n
            };
            let w = column_pass::larger(b, column_pass::larger(column_pass::bit_length(n), 1));
            &&& w >= 1
            &&& top < pow2(w as nat)
            &&& w > 1 ==> top >= pow2((w - 1) as nat)
        }),
{
    lemma2_to64();
    let k = column_pass::bit_length(n);
    if n > 0 {
        lemma_bit_length(n);
    } else {
        assert(k == 0);
    }
    if b < k {
        lemma_pow2_grows(b as nat, k as nat);
    } else {
        lemma_pow2_grows(k as nat, b as nat);
    }
    lemma_pow2_grows(1, column_pass::larger(b, column_pass::larger(k, 1)) as nat);
}

proof fn lemma_pow2_grows(a: nat, b: nat)
    requires
        a <= b,
    ensures
        pow2(a) <= pow2(b),
{
    if a < b {
        lemma_pow2_strictly_increases(a, b);
    }
}

proof fn lemma_float_step(
    g: GeometryView,
    h: GeometryView,
    c: Seq<Option<ValueView>>,
    v: ValueView,
)
    requires
        floats_bounded(g, c),
        column_pass::geometry_step(g, v) == Ok::<GeometryView, GenerationError>(h),
    ensures
        floats_bounded(h, c.push(Some(v))),
{
    let d = c.push(Some(v));
    assert forall|x: ValueView| #[trigger] has(d, x) == (has(c, x) || x == v) by {
        lemma_pushed_has(c, v, x);
    }
    if g.min_float is Some {
        assert(has(c, ValueView::Float64(g.min_float->0)));
    }
    if g.max_float is Some {
        assert(has(c, ValueView::Float64(g.max_float->0)));
    }
}

proof fn lemma_other_step(
    g: GeometryView,
    h: GeometryView,
    c: Seq<Option<ValueView>>,
    v: ValueView,
)
    requires
        others_seen(g, c),
        one_family(g, c),
        column_pass::geometry_step(g, v) == Ok::<GeometryView, GenerationError>(h),
    ensures
        others_seen(h, c.push(Some(v))),
        one_family(h, c.push(Some(v))),
{
    let d = c.push(Some(v));
    assert forall|x: ValueView| #[trigger] has(d, x) == (has(c, x) || x == v) by {
        lemma_pushed_has(c, v, x);
    }
    assert(has(d, v));
    if g.vector_dims is Some {
        let w = choose|w: Seq<u32>| #[trigger] has(c, ValueView::Vector(w));
        assert(has(d, ValueView::Vector(w)));
    }
    if g.family is Some {
        let x = choose|x: ValueView| #[trigger] has(c, x) && !(x is Null);
        assert(has(d, x));
    }
    if let ValueView::Vector(w) = v {
        assert(has(d, ValueView::Vector(w)));
    }
    assert forall|x: ValueView| #[trigger] has(d, x) implies match x {
        ValueView::Null => true,
        ValueView::Bool(_) => h.family == Some(Family::Bool),
        ValueView::Int64(_) => h.family == Some(Family::Int64),
        ValueView::Float64(_) => h.family == Some(Family::Float64),
        ValueView::Text(_) => h.family == Some(Family::Text),
        ValueView::Vector(_) => h.family == Some(Family::Vector),
        ValueView::Other(_) => false,
    } by {
        assert(has(c, x) || x == v);
    }
}

proof fn lemma_sums_up_step(
    g: GeometryView,
    h: GeometryView,
    c: Seq<Option<ValueView>>,
    n: int,
    v: ValueView,
)
    requires
        sums_up(g, c),
        column_pass::geometry_step(g, v) == Ok::<GeometryView, GenerationError>(h),
    ensures
        sums_up(h, emit_columns::padded(c, n).push(Some(v))),
        h.table_id == g.table_id,
        h.key == g.key,
        h.row_count == g.row_count,
{
    let d = emit_columns::padded(c, n);
    lemma_padded_sums_up(g, c, n);
    lemma_text_step(g, h, d, v);
    lemma_integer_step(g, h, d, v);
    lemma_float_step(g, h, d, v);
    lemma_other_step(g, h, d, v);
    lemma_filter_push(d, Some(v), |x: Option<ValueView>| x is Some);
    lemma_filter_push(d, Some(v), |x: Option<ValueView>| x == Some(ValueView::Null));
}

proof fn lemma_blank_sums_up(t: u16, key: Seq<char>, n: u64)
    ensures
        sums_up(column_pass::blank_geometry(t, key, n), Seq::empty()),
{
    reveal(Seq::filter);
}

/// Geometries and columns go side by side, and every geometry sums its column
/// up.
pub open spec fn side_by_side(g: Seq<GeometryView>, c: Seq<CellsView>) -> bool {
    &&& g.len() == c.len()
    &&& forall|i: int|
        0 <= i < c.len() ==> (#[trigger] g[i]).table_id == c[i].table_id && g[i].key == c[i].key
            && sums_up(g[i], c[i].cells)
}

proof fn lemma_walk_side_by_side(
    nodes: Seq<u64>,
    rels: Seq<u64>,
    g: Seq<GeometryView>,
    recs: Seq<RecordView>,
    k: nat,
)
    requires
        k <= recs.len(),
        column_pass::geometries_after(nodes, rels, recs, k) is Ok,
        emit_columns::layout_after(g, recs, k) is Ok,
    ensures
        side_by_side(column_pass::geometries_after(nodes, rels, recs, k)->Ok_0, emit_columns::layout_after(g, recs, k)->Ok_0),
        forall|i: int|
            0 <= i < column_pass::geometries_after(nodes, rels, recs, k)->Ok_0.len() ==> column_pass::rows_of_table(
                nodes,
                rels,
                (#[trigger] column_pass::geometries_after(nodes, rels, recs, k)->Ok_0[i]).table_id,
            ) == Some(column_pass::geometries_after(nodes, rels, recs, k)->Ok_0[i].row_count),
    decreases k,
{
    if k > 0 {
        let m = (k - 1) as nat;
        lemma_walk_side_by_side(nodes, rels, g, recs, m);
        let a = column_pass::geometries_after(nodes, rels, recs, m)->Ok_0;
        let b = emit_columns::layout_after(g, recs, m)->Ok_0;
        let x = column_pass::geometries_after(nodes, rels, recs, k)->Ok_0;
        let y = emit_columns::layout_after(g, recs, k)->Ok_0;
        let key = node_pass::split_occ(recs[k - 1].key)->Ok_0;
        let v = column_pass::occ_value(recs[k - 1].payload)->Ok_0;
        let n = a.len() as int;
        if n > 0 {
            assert(a[n - 1].table_id == b[n - 1].table_id);
            assert(a[n - 1].key == b[n - 1].key);
        }
        let same = n > 0 && a.last().table_id == key.0 && a.last().key == key.1;
        if same {
            let h = column_pass::geometry_step(a.last(), v)->Ok_0;
            lemma_sums_up_step(a.last(), h, b.last().cells, key.2 as int, v);
            assert forall|i: int| 0 <= i < y.len() implies (#[trigger] x[i]).table_id
                == y[i].table_id && x[i].key == y[i].key && sums_up(x[i], y[i].cells) by {
                if i < n - 1 {
                    assert(x[i] == a[i] && y[i] == b[i]);
                }
            }
            assert forall|i: int| 0 <= i < x.len() implies column_pass::rows_of_table(
                nodes,
                rels,
                (#[trigger] x[i]).table_id,
            ) == Some(x[i].row_count) by {
                if i < n - 1 {
                    assert(x[i] == a[i]);
                } else {
                    assert(column_pass::rows_of_table(nodes, rels, a[n - 1].table_id) == Some(
                        a[n - 1].row_count,
                    ));
                }
            }
        } else {
            let rows = column_pass::rows_of_table(nodes, rels, key.0)->0;
            let blank = column_pass::blank_geometry(key.0, key.1, rows);
            let h = column_pass::geometry_step(blank, v)->Ok_0;
            lemma_blank_sums_up(key.0, key.1, rows);
            lemma_sums_up_step(blank, h, Seq::empty(), key.2 as int, v);
            let z = emit_columns::closed_columns(g, b);
            assert forall|i: int| 0 <= i < y.len() implies (#[trigger] x[i]).table_id
                == y[i].table_id && x[i].key == y[i].key && sums_up(x[i], y[i].cells) by {
                if i < n {
                    assert(x[i] == a[i] && y[i] == z[i]);
                    if i == n - 1 {
                        lemma_padded_sums_up(a[i], b[i].cells, g[i].row_count as int);
                    } else {
                        assert(z[i] == b[i]);
                    }
                }
            }
            assert forall|i: int| 0 <= i < x.len() implies column_pass::rows_of_table(
                nodes,
                rels,
                (#[trigger] x[i]).table_id,
            ) == Some(x[i].row_count) by {
                if i < n {
                    assert(x[i] == a[i]);
                }
            }
        }
    }
}

/// The columns that occurrences are laid out in and their geometries go side by
/// side: every geometry has the bounds, counts, family and rows of its column.
pub proof fn lemma_columns_are_summed_up(
    nodes: Seq<u64>,
    rels: Seq<u64>,
    occ: Seq<RecordView>,
    g: Seq<GeometryView>,
    c: Seq<CellsView>,
)
    requires
        stages::column_stage(nodes, rels, occ) == Ok::<(Seq<GeometryView>, Seq<CellsView>), GenerationError>(
            (g, c),
        ),
    ensures
        side_by_side(g, c),
        forall|i: int|
            0 <= i < g.len() ==> column_pass::rows_of_table(nodes, rels, (#[trigger] g[i]).table_id) == Some(
                g[i].row_count,
            ),
{
    lemma_walk_side_by_side(nodes, rels, g, occ, occ.len());
    let b = emit_columns::layout_after(g, occ, occ.len())->Ok_0;
    assert(c == emit_columns::closed_columns(g, b));
    assert forall|i: int| 0 <= i < c.len() implies (#[trigger] g[i]).table_id == c[i].table_id
        && g[i].key == c[i].key && sums_up(g[i], c[i].cells) by {
        if i == b.len() - 1 {
            lemma_padded_sums_up(g[i], b[i].cells, g[i].row_count as int);
        } else {
            assert(c[i] == b[i]);
        }
    }
}

/// The columns of a plan are summed up by its geometries.
pub proof fn lemma_plan_is_summed_up(
    nodes: Seq<NodeRecord>,
    edges: Seq<EdgeRecord>,
    decls: Seq<DeclRecord>,
    p: PlanView,
)
    requires
        orchestrator::planned(nodes, edges, decls) == Ok::<PlanView, GenerationError>(p),
    ensures
        side_by_side(p.geometries, p.cells),
{
    lemma_columns_are_summed_up(
        p.nodes.counts,
        p.edges.counts,
        node_pass::ranked_records(p.nodes.occurrences + p.edges.occurrences),
        p.geometries,
        p.cells,
    );
}

/// The columns of a streaming plan are summed up by its geometries.
pub proof fn lemma_stream_plan_is_summed_up(
    nodes: Seq<NodeRecord>,
    edges: Seq<EdgeRecord>,
    p: PlanView,
)
    requires
        stream_plan::streaming_plan(nodes, edges) == Ok::<PlanView, GenerationError>(p),
    ensures
        p.geometries.len() == p.cells.len(),
        forall|i: int|
            0 <= i < p.cells.len() ==> (#[trigger] p.geometries[i]).key == p.cells[i].key
                && sums_up(p.geometries[i], p.cells[i].cells),
{
    let n = p.nodes;
    let e = p.edges;
    let c = stream_plan::kind_columns(n.counts, n.occurrences)->Ok_0;
    let d = stream_plan::kind_columns(e.counts, e.occurrences)->Ok_0;
    lemma_columns_are_summed_up(
        stream_plan::lower_tables(n.counts),
        stream_plan::upper_tables(n.counts),
        node_pass::ranked_records(n.occurrences),
        c.0,
        c.1,
    );
    lemma_columns_are_summed_up(
        stream_plan::lower_tables(e.counts),
        stream_plan::upper_tables(e.counts),
        node_pass::ranked_records(e.occurrences),
        d.0,
        d.1,
    );
    let k = c.0.len() as int;
    assert forall|i: int| 0 <= i < p.cells.len() implies (#[trigger] p.geometries[i]).key
        == p.cells[i].key && sums_up(p.geometries[i], p.cells[i].cells) by {
        if i < k {
            assert(p.geometries[i] == c.0[i] && p.cells[i] == c.1[i]);
        } else {
            assert(p.geometries[i] == d.0[i - k]);
            assert(p.cells[i] == stream_plan::rel_numbered(d.1)[i - k]);
            assert(d.0[i - k].key == d.1[i - k].key);
        }
    }
}

/// A zone map covers a column: no value of the column lies outside its bounds,
/// both bounds are values of the column, and it counts the column's nulls.
pub open spec fn zone_covers(z: ZoneView, cells: Seq<Option<ValueView>>) -> bool {
    &&& forall|t: Seq<char>| #[trigger]
        has(cells, ValueView::Text(t)) ==> {
            &&& z.min matches Some(ValueView::Text(a)) && !text::text_lt(t, a)
            &&& z.max matches Some(ValueView::Text(b)) && !text::text_lt(b, t)
        }
    &&& forall|n: i64| #[trigger]
        has(cells, ValueView::Int64(n)) ==> {
            &&& z.min matches Some(ValueView::Int64(a)) && a <= n
            &&& z.max matches Some(ValueView::Int64(b)) && n <= b
        }
    &&& forall|f: u64| #[trigger]
        has(cells, ValueView::Float64(f)) && !column_pass::is_nan_bits(f) ==> {
            &&& z.min matches Some(ValueView::Float64(a)) && column_pass::float_rank(a) <= column_pass::float_rank(f)
            &&& z.max matches Some(ValueView::Float64(b)) && column_pass::float_rank(f) <= column_pass::float_rank(b)
        }
    &&& forall|x: bool| #[trigger]
        has(cells, ValueView::Bool(x)) ==> {
            &&& z.min matches Some(ValueView::Bool(a)) && (a ==> x)
            &&& z.max matches Some(ValueView::Bool(b)) && (x ==> b)
        }
    &&& z.min matches Some(v) ==> has(cells, v)
    &&& z.max matches Some(v) ==> has(cells, v)
    &&& z.null_count == nulls_in(cells)
}

/// The zone map of a geometry covers the column that the geometry sums up.
pub proof fn lemma_zone_covers_its_column(g: GeometryView, cells: Seq<Option<ValueView>>)
    requires
        sums_up(g, cells),
        g.null_count <= usize::MAX,
        g.row_count <= usize::MAX,
    ensures
        zone_covers(emit_ids::geometry_zone(g), cells),
        emit_ids::geometry_zone(g).row_count == g.row_count,
{
    let z = emit_ids::geometry_zone(g);
    if g.min_str is Some {
        assert(has(cells, ValueView::Text(g.min_str->0)));
    }
    if g.max_str is Some {
        assert(has(cells, ValueView::Text(g.max_str->0)));
    }
    if g.min_int is Some {
        assert(has(cells, ValueView::Int64(g.min_int->0)));
    }
    if g.max_int is Some {
        assert(has(cells, ValueView::Int64(g.max_int->0)));
    }
    if g.min_float is Some {
        assert(has(cells, ValueView::Float64(g.min_float->0)));
    }
    if g.max_float is Some {
        assert(has(cells, ValueView::Float64(g.max_float->0)));
    }
}

/// The codec of a column goes by its values: texts share a dictionary, vectors
/// keep their words, integers are raw as soon as one is negative and packed
/// otherwise, floats and truth values have codecs of their own, and a column of
/// nulls has a dictionary.
pub proof fn lemma_codec_goes_by_the_values(g: GeometryView, cells: Seq<Option<ValueView>>)
    requires
        sums_up(g, cells),
    ensures
        forall|t: Seq<char>| #[trigger]
            has(cells, ValueView::Text(t)) ==> emit_columns::kind_of(g) == CodecKind::Dict,
        forall|w: Seq<u32>| #[trigger]
            has(cells, ValueView::Vector(w)) ==> emit_columns::kind_of(g) == CodecKind::Float32Vector,
        forall|f: u64| #[trigger]
            has(cells, ValueView::Float64(f)) ==> emit_columns::kind_of(g) == CodecKind::Float64,
        forall|b: bool| #[trigger]
            has(cells, ValueView::Bool(b)) ==> emit_columns::kind_of(g) == CodecKind::Bitmap,
        forall|n: i64| #[trigger]
            has(cells, ValueView::Int64(n)) && n < 0 ==> emit_columns::kind_of(g) == CodecKind::RawI64,
        (exists|n: i64| #[trigger] has(cells, ValueView::Int64(n))) && (forall|n: i64| #[trigger]
            has(cells, ValueView::Int64(n)) ==> n >= 0) ==> emit_columns::kind_of(g) == CodecKind::BitPacked,
        (forall|v: ValueView| #[trigger] has(cells, v) ==> v is Null) ==> emit_columns::kind_of(g)
            == CodecKind::Dict,
{
    if g.has_string {
        assert(has(cells, ValueView::Text(g.min_str->0)));
    }
    if g.min_str is Some {
        assert(has(cells, ValueView::Text(g.min_str->0)));
    }
    if g.vector_dims is Some {
        let w = choose|w: Seq<u32>| #[trigger] has(cells, ValueView::Vector(w));
        assert(has(cells, ValueView::Vector(w)));
    }
    if g.min_int is Some {
        assert(has(cells, ValueView::Int64(g.min_int->0)));
    }
    if g.max_int is Some {
        assert(has(cells, ValueView::Int64(g.max_int->0)));
    }
    if g.family is Some {
        let v = choose|v: ValueView| #[trigger] has(cells, v) && !(v is Null);
        assert(has(cells, v));
    }
    assert(g.saw_true ==> has(cells, ValueView::Bool(true)));
    assert(g.saw_false ==> has(cells, ValueView::Bool(false)));
}

} // verus!
