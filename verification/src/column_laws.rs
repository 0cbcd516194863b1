//! The columns of a build hold every property occurrence at its row, and
//! nothing else.

use crate::column_pass::GeometryView;
use crate::column_pass;
use crate::emit_columns::CellsView;
use crate::emit_columns;
use crate::generation::GenerationError;
use crate::node_pass;
use crate::runs::RecordView;
use crate::sorting;
use crate::staging::Property;
use crate::staging;
use crate::text::own;
use crate::text;
use crate::value::ValueView;
use crate::wire;
use vstd::prelude::*;

verus! {

broadcast use wire::group_wire;

/// A property of a row.
pub struct Occurrence {
    /// Table.
    pub table_id: u16,
    /// Property key.
    pub key: Seq<char>,
    /// Row of the table.
    pub row: u64,
    /// Value.
    pub value: ValueView,
}

/// The record of an occurrence.
pub open spec fn occurrence_record(o: Occurrence) -> RecordView {
    node_pass::occurrence(o.table_id, o.row, (o.key, o.value))
}

/// The records of occurrences.
pub open spec fn occurrence_records(v: Seq<Occurrence>) -> Seq<RecordView> {
    Seq::new(v.len(), |i: int| occurrence_record(v[i]))
}

/// Two occurrences belong to one column.
pub open spec fn one_column(a: Occurrence, b: Occurrence) -> bool {
    a.table_id == b.table_id && a.key == b.key
}

/// The values of occurrences can be written.
pub open spec fn values_fit(v: Seq<Occurrence>) -> bool {
    forall|i: int| 0 <= i < v.len() ==> staging::value_fault((#[trigger] v[i]).value) is None
}

/// Later occurrences of a column stand in later rows.
pub open spec fn rows_ascend(v: Seq<Occurrence>) -> bool {
    forall|a: int, b: int|
        0 <= a < b < v.len() && one_column(v[a], v[b]) ==> (#[trigger] v[a]).row < (
        #[trigger] v[b]).row
}

/// Between two occurrences of a column there are only occurrences of it.
#[verifier::opaque]
pub open spec fn columns_together(v: Seq<Occurrence>) -> bool {
    forall|a: int, b: int, c: int|
        #![trigger v[a], v[b], v[c]]
        0 <= a < b < c < v.len() && one_column(v[a], v[c]) ==> one_column(v[a], v[b])
}

/// A column holds a value at a row.
pub open spec fn column_holds(c: CellsView, o: Occurrence) -> bool {
    &&& c.table_id == o.table_id
    &&& c.key == o.key
    &&& o.row < c.cells.len()
    &&& c.cells[o.row as int] == Some(o.value)
}

/// One of the columns holds a value at a row.
pub open spec fn columns_hold(c: Seq<CellsView>, o: Occurrence) -> bool {
    exists|i: int| 0 <= i < c.len() && column_holds(#[trigger] c[i], o)
}

/// The occurrence that a filled cell stands for.
pub open spec fn cell_occurrence(c: CellsView, r: int) -> Occurrence {
    Occurrence { table_id: c.table_id as u16, key: c.key, row: r as u64, value: c.cells[r]->0 }
}

/// Every filled cell of the columns is one of the first `k` occurrences.
pub open spec fn cells_come_from(c: Seq<CellsView>, v: Seq<Occurrence>, k: nat) -> bool {
    forall|i: int, r: int|
        0 <= i < c.len() && 0 <= r < c[i].cells.len() && (#[trigger] c[i].cells[r]) is Some
            ==> v.take(k as int).contains(cell_occurrence(c[i], r))
}

/// Every column is that of one of the first `k` occurrences.
#[verifier::opaque]
pub open spec fn columns_come_from(c: Seq<CellsView>, v: Seq<Occurrence>, k: nat) -> bool {
    forall|i: int|
        0 <= i < c.len() ==> exists|a: int|
            0 <= a < k && (#[trigger] v[a]).table_id == (#[trigger] c[i]).table_id && v[a].key
                == c[i].key
}

/// No two columns have one table and one key.
pub open spec fn columns_distinct(c: Seq<CellsView>) -> bool {
    forall|i: int, j: int|
        0 <= i < j < c.len() ==> (#[trigger] c[i]).table_id != (#[trigger] c[j]).table_id
            || c[i].key != c[j].key
}

/// The column under construction is that of the last occurrence and ends with
/// its row.
spec fn open_at(c: Seq<CellsView>, o: Occurrence) -> bool {
    &&& c.len() > 0
    &&& c.last().table_id == o.table_id
    &&& c.last().key == o.key
    &&& c.last().cells.len() == o.row + 1
}

proof fn lemma_occurrence_read(o: Occurrence)
    requires
        staging::value_fault(o.value) is None,
    ensures
        node_pass::split_occ(occurrence_record(o).key) == Ok::<(u16, Seq<char>, u64), GenerationError>(
            (o.table_id, o.key, o.row),
        ),
        column_pass::occ_value(occurrence_record(o).payload) == Ok::<ValueView, GenerationError>(o.value),
{
    node_pass::lemma_occ_key_round_trip(o.table_id, o.key, o.row);
    column_pass::lemma_occ_value_round_trip(o.value);
}

/// Closing the last column keeps what the columns hold.
proof fn lemma_closed_columns(
    g: Seq<GeometryView>,
    c: Seq<CellsView>,
    v: Seq<Occurrence>,
    k: nat,
)
    requires
        cells_come_from(c, v, k),
        columns_come_from(c, v, k),
    ensures
        emit_columns::closed_columns(g, c).len() == c.len(),
        forall|i: int|
            0 <= i < c.len() ==> (#[trigger] emit_columns::closed_columns(g, c)[i]).table_id == c[i].table_id
                && emit_columns::closed_columns(g, c)[i].key == c[i].key,
        forall|o: Occurrence| #[trigger] columns_hold(c, o) ==> columns_hold(emit_columns::closed_columns(g, c), o),
        cells_come_from(emit_columns::closed_columns(g, c), v, k),
        columns_come_from(emit_columns::closed_columns(g, c), v, k),
{
    reveal(columns_come_from);
    let d = emit_columns::closed_columns(g, c);
    assert forall|i: int| 0 <= i < c.len() implies (#[trigger] d[i]).table_id == c[i].table_id
        && d[i].key == c[i].key by {}
    assert forall|o: Occurrence| #[trigger] columns_hold(c, o) implies columns_hold(d, o) by {
        let i = choose|i: int| 0 <= i < c.len() && column_holds(#[trigger] c[i], o);
        assert(column_holds(d[i], o));
    }
    assert forall|i: int, r: int|
        0 <= i < d.len() && 0 <= r < d[i].cells.len() && (
        #[trigger] d[i].cells[r]) is Some implies v.take(k as int).contains(
        cell_occurrence(d[i], r),
    ) by {
        assert(r < c[i].cells.len());
        assert(c[i].cells[r] == d[i].cells[r]);
        assert(cell_occurrence(d[i], r) == cell_occurrence(c[i], r));
    }
    assert forall|i: int| 0 <= i < d.len() implies exists|a: int|
        0 <= a < k && (#[trigger] v[a]).table_id == (#[trigger] d[i]).table_id && v[a].key
            == d[i].key by {
        let a = choose|a: int|
            0 <= a < k && (#[trigger] v[a]).table_id == c[i].table_id && v[a].key == c[i].key;
        assert(v[a].table_id == d[i].table_id);
    }
}

/// One more occurrence goes into its column, at its row.
proof fn lemma_layout_step(
    g: Seq<GeometryView>,
    c: Seq<CellsView>,
    v: Seq<Occurrence>,
    k: nat,
)
    requires
        k < v.len(),
        staging::value_fault(v[k as int].value) is None,
        rows_ascend(v),
        cells_come_from(c, v, k),
        columns_come_from(c, v, k),
        k > 0 ==> open_at(c, v[k - 1]),
        k == 0 ==> c.len() == 0,
        emit_columns::layout_step(g, c, occurrence_record(v[k as int])) is Ok,
    ensures
        ({
            let d = emit_columns::layout_step(g, c, occurrence_record(v[k as int]))->Ok_0;
            &&& columns_hold(d, v[k as int])
            &&& forall|o: Occurrence| #[trigger] columns_hold(c, o) ==> columns_hold(d, o)
            &&& cells_come_from(d, v, k + 1)
            &&& columns_come_from(d, v, k + 1)
            &&& open_at(d, v[k as int])
            &&& columns_distinct(c) && columns_together(v) ==> columns_distinct(d)
        }),
{
    reveal(columns_come_from);
    reveal(columns_together);
    let o = v[k as int];
    let d = emit_columns::layout_step(g, c, occurrence_record(o))->Ok_0;
    lemma_occurrence_read(o);
    let same = c.len() > 0 && c.last().table_id == o.table_id && c.last().key == o.key;
    let base = if same {
        c
    } else {
        emit_columns::closed_columns(g, c)
    };
    if !same {
        lemma_closed_columns(g, c, v, k);
    }
    let last = d.len() - 1;
    if same {
        assert(one_column(v[k - 1], o));
        assert(v[k - 1].row < o.row);
        assert(d.len() == c.len());
        assert forall|i: int| 0 <= i < last implies d[i] == c[i] by {}
        assert(d[last].cells.len() == o.row + 1);
        assert forall|r: int| 0 <= r < c[last].cells.len() implies d[last].cells[r]
            == c[last].cells[r] by {}
    } else {
        assert(d =~= base.push(d[last]));
        assert(d[last].cells.len() == o.row + 1);
    }
    assert(column_holds(d[last], o));
    assert forall|x: Occurrence| #[trigger] columns_hold(c, x) implies columns_hold(d, x) by {
        assert(columns_hold(base, x));
        let i = choose|i: int| 0 <= i < base.len() && column_holds(#[trigger] base[i], x);
        assert(column_holds(d[i], x));
    }
    let before = v.take(k as int);
    let after = v.take((k + 1) as int);
    assert forall|x: Occurrence| before.contains(x) implies #[trigger] after.contains(x) by {
        let j = choose|j: int| 0 <= j < before.len() && before[j] == x;
        assert(after[j] == x);
    }
    assert(after[k as int] == o);
    assert forall|i: int, r: int|
        0 <= i < d.len() && 0 <= r < d[i].cells.len() && (
        #[trigger] d[i].cells[r]) is Some implies after.contains(cell_occurrence(d[i], r)) by {
        if i == last && r == o.row {
            assert(cell_occurrence(d[i], r) == o);
        } else {
            assert(i < base.len());
            assert(r < base[i].cells.len());
            assert(base[i].cells[r] == d[i].cells[r]);
            assert(cell_occurrence(d[i], r) == cell_occurrence(base[i], r));
        }
    }
    assert forall|i: int| 0 <= i < d.len() implies exists|a: int|
        0 <= a < k + 1 && (#[trigger] v[a]).table_id == (#[trigger] d[i]).table_id && v[a].key
            == d[i].key by {
        if i == last {
            assert(v[k as int].table_id == d[i].table_id);
        } else {
            let a = choose|a: int|
                0 <= a < k && (#[trigger] v[a]).table_id == base[i].table_id && v[a].key
                    == base[i].key;
            assert(v[a].table_id == d[i].table_id);
        }
    }
    if columns_distinct(c) && columns_together(v) {
        assert forall|i: int, j: int| 0 <= i < j < d.len() implies (#[trigger] d[i]).table_id != (
        #[trigger] d[j]).table_id || d[i].key != d[j].key by {
            assert(d[i].table_id == c[i].table_id && d[i].key == c[i].key);
            if j < c.len() {
                assert(d[j].table_id == c[j].table_id && d[j].key == c[j].key);
            } else if d[i].table_id == o.table_id && d[i].key == o.key {
                let a = choose|a: int|
                    0 <= a < k && (#[trigger] v[a]).table_id == c[i].table_id && v[a].key
                        == c[i].key;
                assert(one_column(v[a], o));
                if a < k - 1 {
                    assert(one_column(v[a], v[k - 1]));
                }
                assert(one_column(v[k - 1], o));
            }
        }
    }
}

/// What holds of the columns after the first `k` occurrences.
#[verifier::opaque]
spec fn laid_so_far(c: Seq<CellsView>, v: Seq<Occurrence>, k: nat) -> bool {
    &&& forall|a: int| 0 <= a < k ==> columns_hold(c, #[trigger] v[a])
    &&& cells_come_from(c, v, k)
    &&& columns_come_from(c, v, k)
    &&& k > 0 ==> open_at(c, v[k - 1])
    &&& k == 0 ==> c.len() == 0
    &&& columns_together(v) ==> columns_distinct(c)
}

proof fn lemma_laid_step(g: Seq<GeometryView>, c: Seq<CellsView>, v: Seq<Occurrence>, k: nat)
    requires
        k < v.len(),
        values_fit(v),
        rows_ascend(v),
        laid_so_far(c, v, k),
        emit_columns::layout_step(g, c, occurrence_record(v[k as int])) is Ok,
    ensures
        laid_so_far(emit_columns::layout_step(g, c, occurrence_record(v[k as int]))->Ok_0, v, k + 1),
{
    reveal(laid_so_far);
    lemma_layout_step(g, c, v, k);
    let d = emit_columns::layout_step(g, c, occurrence_record(v[k as int]))->Ok_0;
    assert forall|a: int| 0 <= a < k + 1 implies columns_hold(d, #[trigger] v[a]) by {
        if a < k {
            assert(columns_hold(c, v[a]));
        }
    }
}

proof fn lemma_layout_holds(g: Seq<GeometryView>, v: Seq<Occurrence>, k: nat)
    requires
        k <= v.len(),
        values_fit(v),
        rows_ascend(v),
        emit_columns::layout_after(g, occurrence_records(v), k) is Ok,
    ensures
        laid_so_far(emit_columns::layout_after(g, occurrence_records(v), k)->Ok_0, v, k),
    decreases k,
{
    if k > 0 {
        let j = (k - 1) as nat;
        let recs = occurrence_records(v);
        assert(emit_columns::layout_after(g, recs, j) is Ok);
        lemma_layout_holds(g, v, j);
        let c = emit_columns::layout_after(g, recs, j)->Ok_0;
        assert(recs[j as int] == occurrence_record(v[j as int]));
        lemma_laid_step(g, c, v, j);
    } else {
        reveal(laid_so_far);
        reveal(columns_come_from);
    }
}

/// Laid-out columns hold every occurrence at its row, and every filled cell is
/// an occurrence. Where the occurrences of each column stand together, no
/// column occurs twice.
pub proof fn lemma_columns_hold_their_occurrences(
    g: Seq<GeometryView>,
    v: Seq<Occurrence>,
    c: Seq<CellsView>,
)
    requires
        values_fit(v),
        rows_ascend(v),
        emit_columns::laid_out_columns(g, occurrence_records(v)) == Ok::<Seq<CellsView>, GenerationError>(c),
    ensures
        forall|a: int| 0 <= a < v.len() ==> columns_hold(c, #[trigger] v[a]),
        forall|i: int, r: int|
            0 <= i < c.len() && 0 <= r < c[i].cells.len() && (#[trigger] c[i].cells[r]) is Some
                ==> v.contains(cell_occurrence(c[i], r)),
        columns_together(v) ==> columns_distinct(c),
{
    let recs = occurrence_records(v);
    let n = v.len();
    lemma_layout_holds(g, v, n);
    reveal(laid_so_far);
    let d = emit_columns::layout_after(g, recs, n)->Ok_0;
    lemma_closed_columns(g, d, v, n);
    assert(v.take(n as int) =~= v);
    assert forall|a: int| 0 <= a < v.len() implies columns_hold(c, #[trigger] v[a]) by {
        assert(columns_hold(d, v[a]));
    }
    if columns_together(v) {
        assert forall|i: int, j: int| 0 <= i < j < c.len() implies (#[trigger] c[i]).table_id != (
        #[trigger] c[j]).table_id || c[i].key != c[j].key by {
            assert(c[i].table_id == d[i].table_id && c[i].key == d[i].key);
            assert(c[j].table_id == d[j].table_id && c[j].key == d[j].key);
        }
    }
}

// ----------------------------------------------------------------- sorting

/// No property of a row occurs twice.
pub open spec fn occurrences_single(v: Seq<Occurrence>) -> bool {
    forall|a: int, b: int|
        0 <= a < b < v.len() ==> !one_column(#[trigger] v[a], #[trigger] v[b]) || v[a].row
            != v[b].row
}

/// Sorted occurrences ascend by row in every column and stand together by
/// column.
pub proof fn lemma_sorted_occurrences(v: Seq<Occurrence>)
    requires
        occurrences_single(v),
        sorting::keys_sorted(node_pass::occ_ranks(occurrence_records(v))),
    ensures
        rows_ascend(v),
        columns_together(v),
        occurrences_ranked(v),
{
    reveal(columns_together);
    reveal(occurrences_ranked);
    let ranks = node_pass::occ_ranks(occurrence_records(v));
    assert forall|a: int, b: int| 0 <= a < b < v.len() implies ranks_before(
        #[trigger] v[a],
        #[trigger] v[b],
    ) by {
        assert(wire::lex_le(ranks[a], ranks[b]));
        assert(ranks[a] == node_pass::occ_rank(occurrence_record(v[a]).key));
        assert(ranks[b] == node_pass::occ_rank(occurrence_record(v[b]).key));
        node_pass::lemma_occ_rank_order(
            (v[a].table_id, v[a].key, v[a].row),
            (v[b].table_id, v[b].key, v[b].row),
        );
        node_pass::lemma_occ_rank_order(
            (v[b].table_id, v[b].key, v[b].row),
            (v[a].table_id, v[a].key, v[a].row),
        );
        wire::lemma_lex_irreflexive(ranks[a]);
        wire::lemma_lex_total(text::utf8(v[a].key), text::utf8(v[b].key));
        if text::utf8(v[a].key) == text::utf8(v[b].key) {
            text::lemma_utf8_injective(v[a].key, v[b].key);
        }
    }
    assert forall|a: int, b: int|
        0 <= a < b < v.len() && one_column(v[a], v[b]) implies (#[trigger] v[a]).row < (
    #[trigger] v[b]).row by {
        assert(ranks_before(v[a], v[b]));
        wire::lemma_lex_irreflexive(text::utf8(v[a].key));
    }
    assert forall|a: int, b: int, c: int|
        #![trigger v[a], v[b], v[c]]
        0 <= a < b < c < v.len() && one_column(v[a], v[c]) implies one_column(v[a], v[b]) by {
        assert(ranks_before(v[a], v[b]));
        assert(ranks_before(v[b], v[c]));
        wire::lemma_lex_total(text::utf8(v[a].key), text::utf8(v[b].key));
    }
}

/// An occurrence stands before another: by table, then key, then row.
pub open spec fn ranks_before(a: Occurrence, b: Occurrence) -> bool {
    a.table_id < b.table_id || (a.table_id == b.table_id && (text::text_lt(a.key, b.key) || (a.key
        == b.key && a.row < b.row)))
}

/// Every occurrence stands before those behind it.
#[verifier::opaque]
pub open spec fn occurrences_ranked(v: Seq<Occurrence>) -> bool {
    forall|a: int, b: int|
        0 <= a < b < v.len() ==> ranks_before(#[trigger] v[a], #[trigger] v[b])
}

/// A column stands before another: by table, then key.
pub open spec fn column_before(a: CellsView, b: CellsView) -> bool {
    a.table_id < b.table_id || (a.table_id == b.table_id && text::text_lt(a.key, b.key))
}

/// Columns by table and key.
pub open spec fn columns_ascend(c: Seq<CellsView>) -> bool {
    forall|i: int, j: int| 0 <= i < j < c.len() ==> column_before(#[trigger] c[i], #[trigger] c[j])
}

proof fn lemma_layout_ascends(g: Seq<GeometryView>, v: Seq<Occurrence>, k: nat)
    requires
        k <= v.len(),
        values_fit(v),
        occurrences_ranked(v),
        emit_columns::layout_after(g, occurrence_records(v), k) is Ok,
    ensures
        ({
            let c = emit_columns::layout_after(g, occurrence_records(v), k)->Ok_0;
            &&& columns_ascend(c)
            &&& k == 0 ==> c.len() == 0
            &&& k > 0 ==> c.len() > 0 && c.last().table_id == v[k - 1].table_id && c.last().key
                == v[k - 1].key
        }),
    decreases k,
{
    if k > 0 {
        let recs = occurrence_records(v);
        let j = (k - 1) as nat;
        let o = v[j as int];
        assert(emit_columns::layout_after(g, recs, j) is Ok);
        lemma_layout_ascends(g, v, j);
        let c = emit_columns::layout_after(g, recs, j)->Ok_0;
        let d = emit_columns::layout_after(g, recs, k)->Ok_0;
        assert(recs[j as int] == occurrence_record(o));
        assert(staging::value_fault(o.value) is None);
        lemma_occurrence_read(o);
        let same = c.len() > 0 && c.last().table_id == o.table_id && c.last().key == o.key;
        assert forall|i: int| 0 <= i < c.len() implies (#[trigger] d[i]).table_id == c[i].table_id
            && d[i].key == c[i].key by {}
        assert forall|a: int, b: int| 0 <= a < b < d.len() implies column_before(
            #[trigger] d[a],
            #[trigger] d[b],
        ) by {
            if b < c.len() {
                assert(column_before(c[a], c[b]));
            } else {
                reveal(occurrences_ranked);
                let last = c.len() - 1;
                assert(j > 0);
                assert(ranks_before(v[j - 1], o));
                assert(column_before(c[last], d[b]));
                if a < last {
                    assert(column_before(c[a], c[last]));
                    if c[a].table_id == c[last].table_id && c[last].table_id == d[b].table_id {
                        wire::lemma_lex_transitive(text::utf8(c[a].key), text::utf8(c[last].key), text::utf8(d[b].key));
                    }
                }
            }
        }
    }
}

/// Columns laid out from ranked occurrences stand by table and key.
pub proof fn lemma_columns_ascend(g: Seq<GeometryView>, v: Seq<Occurrence>, c: Seq<CellsView>)
    requires
        values_fit(v),
        occurrences_ranked(v),
        emit_columns::laid_out_columns(g, occurrence_records(v)) == Ok::<Seq<CellsView>, GenerationError>(c),
    ensures
        columns_ascend(c),
{
    lemma_layout_ascends(g, v, v.len());
    let d = emit_columns::layout_after(g, occurrence_records(v), v.len())->Ok_0;
    assert forall|i: int| 0 <= i < d.len() implies (#[trigger] c[i]).table_id == d[i].table_id
        && c[i].key == d[i].key by {}
    assert forall|i: int, j: int| 0 <= i < j < c.len() implies column_before(
        #[trigger] c[i],
        #[trigger] c[j],
    ) by {
        assert(column_before(d[i], d[j]));
    }
}

// -------------------------------------------------------------------- rows

/// A row of a table with its properties.
pub struct PlacedRow {
    /// Table and row.
    pub place: (u16, u64),
    /// Properties by ascending key.
    pub properties: Seq<Property>,
}

/// The keys of properties.
pub open spec fn property_keys(p: Seq<Property>) -> Seq<Seq<char>> {
    Seq::new(p.len(), |i: int| p[i].0)
}

/// The occurrence of a row's property.
pub open spec fn placed_property(r: PlacedRow, j: int) -> Occurrence {
    Occurrence {
        table_id: r.place.0,
        key: r.properties[j].0,
        row: r.place.1,
        value: r.properties[j].1,
    }
}

/// The occurrences of a row's properties.
pub open spec fn placed_properties(r: PlacedRow) -> Seq<Occurrence> {
    Seq::new(r.properties.len(), |j: int| placed_property(r, j))
}

/// The occurrences of the first `n` rows.
pub open spec fn placed_occurrences(v: Seq<PlacedRow>, n: nat) -> Seq<Occurrence>
    decreases n,
{
    if n == 0 {
        Seq::empty()
    } else {
        placed_occurrences(v, (n - 1) as nat) + placed_properties(v[n - 1])
    }
}

/// Rows with places of their own, each with its properties by ascending key.
pub open spec fn rows_distinct(v: Seq<PlacedRow>) -> bool {
    &&& forall|a: int, b: int|
        0 <= a < b < v.len() ==> (#[trigger] v[a]).place != (#[trigger] v[b]).place
    &&& forall|a: int|
        0 <= a < v.len() ==> text::texts_ascend(property_keys((#[trigger] v[a]).properties))
}

/// Every property of a row is among the occurrences.
pub proof fn lemma_placed_property_occurs(v: Seq<PlacedRow>, n: nat, a: int, j: int)
    requires
        0 <= a < n <= v.len(),
        0 <= j < v[a].properties.len(),
    ensures
        placed_occurrences(v, n).contains(placed_property(v[a], j)),
    decreases n,
{
    let before = placed_occurrences(v, (n - 1) as nat);
    let own = placed_properties(v[n - 1]);
    let all = placed_occurrences(v, n);
    let o = placed_property(v[a], j);
    if a < n - 1 {
        lemma_placed_property_occurs(v, (n - 1) as nat, a, j);
        let i = choose|i: int| 0 <= i < before.len() && before[i] == o;
        assert(all[i] == o);
    } else {
        assert(own[j] == o);
        assert(all[before.len() + j] == o);
    }
}

/// Every occurrence is a property of a row.
pub proof fn lemma_occurrence_is_placed(v: Seq<PlacedRow>, n: nat, i: int) -> (r: (int, int))
    requires
        n <= v.len(),
        0 <= i < placed_occurrences(v, n).len(),
    ensures
        0 <= r.0 < n,
        0 <= r.1 < v[r.0].properties.len(),
        placed_occurrences(v, n)[i] == placed_property(v[r.0], r.1),
    decreases n,
{
    let before = placed_occurrences(v, (n - 1) as nat);
    if i < before.len() {
        lemma_occurrence_is_placed(v, (n - 1) as nat, i)
    } else {
        assert(placed_occurrences(v, n)[i] == placed_properties(v[n - 1])[i - before.len()]);
        (n - 1, i - before.len())
    }
}

/// Rows with places of their own have no property twice.
pub proof fn lemma_placed_single(v: Seq<PlacedRow>, n: nat)
    requires
        n <= v.len(),
        rows_distinct(v),
    ensures
        occurrences_single(placed_occurrences(v, n)),
    decreases n,
{
    if n > 0 {
        let m = (n - 1) as nat;
        let before = placed_occurrences(v, m);
        let own = placed_properties(v[m as int]);
        let all = placed_occurrences(v, n);
        lemma_placed_single(v, m);
        assert forall|a: int, b: int| 0 <= a < b < all.len() implies !one_column(
            #[trigger] all[a],
            #[trigger] all[b],
        ) || all[a].row != all[b].row by {
            if b < before.len() {
                assert(all[a] == before[a] && all[b] == before[b]);
            } else if a < before.len() {
                let (r, j) = lemma_occurrence_is_placed(v, m, a);
                assert(all[a] == before[a]);
                assert(all[b] == own[b - before.len()]);
                assert(v[r].place != v[m as int].place);
            } else {
                let x = a - before.len();
                let y = b - before.len();
                assert(all[a] == own[x] && all[b] == own[y]);
                let keys = property_keys(v[m as int].properties);
                assert(keys[x] == all[a].key && keys[y] == all[b].key);
                if keys[x] == keys[y] {
                    text::lemma_ascending_distinct(keys, x, y);
                }
            }
        }
    }
}

/// The occurrences of two lists of rows are those of the one and then those of
/// the other.
pub proof fn lemma_placed_join(a: Seq<PlacedRow>, b: Seq<PlacedRow>, n: nat)
    requires
        n <= b.len(),
    ensures
        placed_occurrences(a + b, a.len() + n) == placed_occurrences(a, a.len())
            + placed_occurrences(b, n),
    decreases n,
{
    if n > 0 {
        lemma_placed_join(a, b, (n - 1) as nat);
        assert((a + b)[a.len() + n - 1] == b[n - 1]);
        assert(placed_occurrences(a + b, a.len() + n) =~= placed_occurrences(a, a.len())
            + placed_occurrences(b, n));
    } else {
        lemma_placed_prefix(a, b, a.len());
        assert(placed_occurrences(a, a.len()) + placed_occurrences(b, 0) =~= placed_occurrences(
            a,
            a.len(),
        ));
    }
}

proof fn lemma_placed_prefix(a: Seq<PlacedRow>, b: Seq<PlacedRow>, n: nat)
    requires
        n <= a.len(),
    ensures
        placed_occurrences(a + b, n) == placed_occurrences(a, n),
    decreases n,
{
    if n > 0 {
        lemma_placed_prefix(a, b, (n - 1) as nat);
        assert((a + b)[n - 1] == a[n - 1]);
    }
}

/// Occurrences in the order in which their records sort.
pub open spec fn sorted_occurrences(v: Seq<Occurrence>) -> Seq<Occurrence> {
    let order = sorting::stable_order(node_pass::occ_ranks(occurrence_records(v)));
    Seq::new(v.len(), |i: int| v[order[i]])
}

/// Sorting occurrences keeps them all, once each.
pub proof fn lemma_sorting_keeps_occurrences(v: Seq<Occurrence>)
    requires
        occurrences_single(v),
        values_fit(v),
    ensures
        occurrence_records(sorted_occurrences(v)) == node_pass::ranked_records(occurrence_records(v)),
        forall|o: Occurrence| #[trigger]
            sorted_occurrences(v).contains(o) <==> v.contains(o),
        values_fit(sorted_occurrences(v)),
        rows_ascend(sorted_occurrences(v)),
        columns_together(sorted_occurrences(v)),
        occurrences_ranked(sorted_occurrences(v)),
{
    let recs = occurrence_records(v);
    let keys = node_pass::occ_ranks(recs);
    let order = sorting::stable_order(keys);
    let s = sorted_occurrences(v);
    sorting::lemma_stable_order(keys);
    assert(occurrence_records(s) =~= node_pass::ranked_records(recs));
    assert forall|i: int, j: int| 0 <= i < j < s.len() implies wire::lex_le(
        #[trigger] node_pass::occ_ranks(occurrence_records(s))[i],
        #[trigger] node_pass::occ_ranks(occurrence_records(s))[j],
    ) by {
        assert(sorting::key_leq(keys)(order[i], order[j]));
        assert(keys[order[i]] == node_pass::occ_rank(occurrence_record(v[order[i]]).key));
        assert(keys[order[j]] == node_pass::occ_rank(occurrence_record(v[order[j]]).key));
    }
    assert forall|o: Occurrence| #[trigger] s.contains(o) <==> v.contains(o) by {
        if s.contains(o) {
            let i = choose|i: int| 0 <= i < s.len() && s[i] == o;
            assert(v[order[i]] == o);
        }
        if v.contains(o) {
            let i = choose|i: int| 0 <= i < v.len() && v[i] == o;
            assert(order.contains(i));
            let k = choose|k: int| 0 <= k < order.len() && order[k] == i;
            assert(s[k] == o);
        }
    }
    assert forall|i: int| 0 <= i < s.len() implies staging::value_fault((#[trigger] s[i]).value) is None by {
        assert(s[i] == v[order[i]]);
    }
    assert forall|a: int, b: int| 0 <= a < b < s.len() implies !one_column(
        #[trigger] s[a],
        #[trigger] s[b],
    ) || s[a].row != s[b].row by {
        let x = order[a];
        let y = order[b];
        assert(x != y);
        assert(s[a] == v[x] && s[b] == v[y]);
        if x > y {
            assert(!one_column(v[y], v[x]) || v[y].row != v[x].row);
        }
    }
    lemma_sorted_occurrences(s);
}

} // verus!
