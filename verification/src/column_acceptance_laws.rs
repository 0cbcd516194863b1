//! Which occurrences the column stage accepts.

use crate::acceptance_laws;
use crate::column_pass::GeometryView;
use crate::column_pass;
use crate::emit_columns;
use crate::node_pass;
use crate::runs::RecordView;
use crate::stages;
use crate::value::ValueView;
use vstd::prelude::*;

verus! {

/// The column of an occurrence.
pub open spec fn column_of(rec: RecordView) -> (u16, Seq<char>) {
    (node_pass::split_occ(rec.key)->Ok_0.0, node_pass::split_occ(rec.key)->Ok_0.1)
}

/// The value of an occurrence.
pub open spec fn value_of(rec: RecordView) -> ValueView {
    column_pass::occ_value(rec.payload)->Ok_0
}

/// A value can stand in a column: it is of a known kind, and the length of a
/// vector fits two bytes.
pub open spec fn fits_alone(v: ValueView) -> bool {
    &&& !(v is Other)
    &&& v is Vector ==> v->Vector_0.len() < 0x1_0000
}

/// Two values can stand in one column: they are of one family, unless one is
/// null, and as vectors of one length.
pub open spec fn fit_together(a: ValueView, b: ValueView) -> bool {
    &&& acceptance_laws::family_of(a) is Some && acceptance_laws::family_of(b) is Some ==> acceptance_laws::family_of(a) == acceptance_laws::family_of(b)
    &&& a is Vector && b is Vector ==> a->Vector_0.len() == b->Vector_0.len()
}

/// The first `k` occurrences can be read, are of known tables, and hold values
/// that can stand in their columns.
pub open spec fn occurrences_fit(
    nodes: Seq<u64>,
    rels: Seq<u64>,
    occ: Seq<RecordView>,
    k: int,
) -> bool {
    &&& forall|i: int|
        0 <= i < k ==> node_pass::split_occ((#[trigger] occ[i]).key) is Ok && column_pass::occ_value(occ[i].payload) is Ok
            && column_pass::rows_of_table(nodes, rels, column_of(occ[i]).0) is Some && fits_alone(
            value_of(occ[i]),
        )
    &&& forall|i: int, j: int|
        0 <= i < j < k && column_of(#[trigger] occ[i]) == column_of(#[trigger] occ[j])
            ==> fit_together(value_of(occ[i]), value_of(occ[j]))
}

/// Occurrences of one column stand together.
pub open spec fn columns_stand_together(occ: Seq<RecordView>) -> bool {
    forall|i: int, j: int, m: int|
        0 <= i < j < m < occ.len() && column_of(#[trigger] occ[i]) == column_of(#[trigger] occ[m])
            ==> column_of(#[trigger] occ[j]) == column_of(occ[i])
}

/// A geometry tells of the values of a column among the first `k` occurrences.
spec fn tells(g: GeometryView, occ: Seq<RecordView>, k: int, c: (u16, Seq<char>)) -> bool {
    &&& g.table_id == c.0
    &&& g.key == c.1
    &&& forall|i: int|
        0 <= i < k && column_of(#[trigger] occ[i]) == c && acceptance_laws::family_of(value_of(occ[i])) is Some
            ==> g.family == acceptance_laws::family_of(value_of(occ[i]))
    &&& g.family is Some ==> exists|i: int|
        0 <= i < k && column_of(#[trigger] occ[i]) == c && acceptance_laws::family_of(value_of(occ[i])) is Some
    &&& forall|i: int|
        0 <= i < k && column_of(#[trigger] occ[i]) == c && value_of(occ[i]) is Vector
            ==> g.vector_dims == Some(value_of(occ[i])->Vector_0.len() as u16)
    &&& g.vector_dims is Some ==> exists|i: int|
        0 <= i < k && column_of(#[trigger] occ[i]) == c && value_of(occ[i]) is Vector
}

proof fn lemma_step_fits(g: GeometryView, occ: Seq<RecordView>, p: int)
    requires
        0 <= p < occ.len(),
        tells(g, occ, p, column_of(occ[p])),
        forall|i: int| 0 <= i < p ==> fits_alone(value_of(#[trigger] occ[i])),
    ensures
        column_pass::geometry_step(g, value_of(occ[p])) is Ok <==> fits_alone(value_of(occ[p])) && forall|i: int|
            0 <= i < p && column_of(#[trigger] occ[i]) == column_of(occ[p]) ==> fit_together(
                value_of(occ[i]),
                value_of(occ[p]),
            ),
        column_pass::geometry_step(g, value_of(occ[p])) matches Ok(h) ==> tells(
            h,
            occ,
            p + 1,
            column_of(occ[p]),
        ) && h.row_count == g.row_count,
{
    let x = value_of(occ[p]);
    let c = column_of(occ[p]);
    let all = forall|i: int|
        0 <= i < p && column_of(#[trigger] occ[i]) == c ==> fit_together(value_of(occ[i]), x);
    if fits_alone(x) && all {
        if g.family is Some && acceptance_laws::family_of(x) is Some {
            let i = choose|i: int|
                0 <= i < p && column_of(#[trigger] occ[i]) == c && acceptance_laws::family_of(
                    value_of(occ[i]),
                ) is Some;
            assert(fit_together(value_of(occ[i]), x));
        }
        if g.vector_dims is Some && x is Vector {
            let i = choose|i: int|
                0 <= i < p && column_of(#[trigger] occ[i]) == c && value_of(occ[i]) is Vector;
            assert(fit_together(value_of(occ[i]), x));
        }
        assert(column_pass::geometry_step(g, x) is Ok);
    }
    if column_pass::geometry_step(g, x) is Ok {
        let h = column_pass::geometry_step(g, x)->Ok_0;
        assert(fits_alone(x));
        assert forall|i: int| 0 <= i < p && column_of(#[trigger] occ[i]) == c implies fit_together(
            value_of(occ[i]),
            x,
        ) by {
            assert(fits_alone(value_of(occ[i])));
        }
        if acceptance_laws::family_of(x) is Some {
            assert(column_of(occ[p]) == c && acceptance_laws::family_of(value_of(occ[p])) is Some);
        } else if g.family is Some {
            let i = choose|i: int|
                0 <= i < p && column_of(#[trigger] occ[i]) == c && acceptance_laws::family_of(
                    value_of(occ[i]),
                ) is Some;
            assert(column_of(occ[i]) == c && acceptance_laws::family_of(value_of(occ[i])) is Some);
        }
        if x is Vector {
            assert(column_of(occ[p]) == c && value_of(occ[p]) is Vector);
        } else if g.vector_dims is Some {
            let i = choose|i: int|
                0 <= i < p && column_of(#[trigger] occ[i]) == c && value_of(occ[i]) is Vector;
            assert(column_of(occ[i]) == c && value_of(occ[i]) is Vector);
        }
    }
}

proof fn lemma_blank_tells(occ: Seq<RecordView>, p: int, rows: u64)
    requires
        0 <= p < occ.len(),
        forall|i: int| 0 <= i < p ==> column_of(#[trigger] occ[i]) != column_of(occ[p]),
    ensures
        tells(
            column_pass::blank_geometry(column_of(occ[p]).0, column_of(occ[p]).1, rows),
            occ,
            p,
            column_of(occ[p]),
        ),
{
}

proof fn lemma_geometries_accept(nodes: Seq<u64>, rels: Seq<u64>, occ: Seq<RecordView>, k: nat)
    requires
        k <= occ.len(),
        columns_stand_together(occ),
    ensures
        column_pass::geometries_after(nodes, rels, occ, k) is Ok <==> occurrences_fit(
            nodes,
            rels,
            occ,
            k as int,
        ),
        column_pass::geometries_after(nodes, rels, occ, k) matches Ok(v) ==> (k == 0 ==> v.len() == 0) && (k > 0
            ==> v.len() > 0 && tells(v.last(), occ, k as int, column_of(occ[k - 1]))),
    decreases k,
{
    if k > 0 {
        let p = (k - 1) as nat;
        lemma_geometries_accept(nodes, rels, occ, p);
        let rec = occ[k - 1];
        let c = column_of(rec);
        if occurrences_fit(nodes, rels, occ, k as int) {
            assert(occurrences_fit(nodes, rels, occ, p as int));
            assert(node_pass::split_occ(rec.key) is Ok);
        }
        if column_pass::geometries_after(nodes, rels, occ, p) is Ok && node_pass::split_occ(rec.key) is Ok && column_pass::occ_value(
            rec.payload,
        ) is Ok {
            let v = column_pass::geometries_after(nodes, rels, occ, p)->Ok_0;
            let same = v.len() > 0 && v.last().table_id == c.0 && v.last().key == c.1;
            assert(same <==> p > 0 && column_of(occ[p - 1]) == c);
            if p > 0 && same {
                assert(column_pass::rows_of_table(nodes, rels, column_of(occ[p - 1]).0) is Some);
                lemma_step_fits(v.last(), occ, p as int);
            } else {
                assert forall|i: int| 0 <= i < p implies column_of(#[trigger] occ[i]) != column_of(
                    occ[p as int],
                ) by {
                    if column_of(occ[i]) == c && i < p - 1 {
                        assert(column_of(occ[p - 1]) == column_of(occ[i]));
                    }
                }
                if let Some(n) = column_pass::rows_of_table(nodes, rels, c.0) {
                    lemma_blank_tells(occ, p as int, n);
                    lemma_step_fits(column_pass::blank_geometry(c.0, c.1, n), occ, p as int);
                }
            }
        }
        lemma_fit_split(nodes, rels, occ, p as int);
    }
}

proof fn lemma_fit_split(nodes: Seq<u64>, rels: Seq<u64>, occ: Seq<RecordView>, p: int)
    requires
        0 <= p < occ.len(),
    ensures
        occurrences_fit(nodes, rels, occ, p + 1) <==> {
            &&& occurrences_fit(nodes, rels, occ, p)
            &&& node_pass::split_occ(occ[p].key) is Ok
            &&& column_pass::occ_value(occ[p].payload) is Ok
            &&& column_pass::rows_of_table(nodes, rels, column_of(occ[p]).0) is Some
            &&& fits_alone(value_of(occ[p]))
            &&& forall|i: int|
                0 <= i < p && column_of(#[trigger] occ[i]) == column_of(occ[p]) ==> fit_together(
                    value_of(occ[i]),
                    value_of(occ[p]),
                )
        },
{
    if occurrences_fit(nodes, rels, occ, p + 1) {
        assert(node_pass::split_occ(occ[p].key) is Ok);
    }
}

proof fn lemma_columns_settle(
    nodes: Seq<u64>,
    rels: Seq<u64>,
    occ: Seq<RecordView>,
    k: nat,
    n: nat,
)
    requires
        k <= n <= occ.len(),
        column_pass::geometries_after(nodes, rels, occ, n) is Ok,
    ensures
        column_pass::geometries_after(nodes, rels, occ, k) is Ok,
        ({
            let v = column_pass::geometries_after(nodes, rels, occ, k)->Ok_0;
            let g = column_pass::geometries_after(nodes, rels, occ, n)->Ok_0;
            &&& v.len() <= g.len()
            &&& forall|j: int|
                0 <= j < v.len() ==> (#[trigger] v[j]).table_id == g[j].table_id && v[j].key
                    == g[j].key && v[j].row_count == g[j].row_count
        }),
    decreases n - k,
{
    if k < n {
        let m = (k + 1) as nat;
        lemma_columns_settle(nodes, rels, occ, m, n);
        assert(column_pass::geometries_after(nodes, rels, occ, k) is Ok);
        let v = column_pass::geometries_after(nodes, rels, occ, k)->Ok_0;
        let w = column_pass::geometries_after(nodes, rels, occ, m)->Ok_0;
        let g = column_pass::geometries_after(nodes, rels, occ, n)->Ok_0;
        assert(v.len() <= w.len());
        assert forall|j: int| 0 <= j < v.len() implies (#[trigger] v[j]).table_id == g[j].table_id
            && v[j].key == g[j].key && v[j].row_count == g[j].row_count by {
            assert(w[j].table_id == v[j].table_id && w[j].key == v[j].key && w[j].row_count
                == v[j].row_count);
        }
    }
}

proof fn lemma_layout_accepts(nodes: Seq<u64>, rels: Seq<u64>, occ: Seq<RecordView>, k: nat)
    requires
        k <= occ.len(),
        columns_stand_together(occ),
        column_pass::geometries_after(nodes, rels, occ, occ.len()) is Ok,
    ensures
        ({
            let g = column_pass::geometries_after(nodes, rels, occ, occ.len())->Ok_0;
            let c = emit_columns::layout_after(g, occ, k);
            &&& c is Ok <==> forall|i: int|
                0 <= i < k ==> column_pass::rows_of_table(nodes, rels, column_of(#[trigger] occ[i]).0)->Some_0
                    <= 0xffff_ffff
            &&& c matches Ok(v) ==> {
                &&& v.len() == column_pass::geometries_after(nodes, rels, occ, k)->Ok_0.len()
                &&& k > 0 ==> v.len() > 0 && v.last().table_id == column_of(occ[k - 1]).0
                    && v.last().key == column_of(occ[k - 1]).1
            }
        }),
    decreases k,
{
    let n = occ.len();
    let g = column_pass::geometries_after(nodes, rels, occ, n)->Ok_0;
    if k > 0 {
        let p = (k - 1) as nat;
        let rec = occ[k - 1];
        let col = column_of(rec);
        lemma_layout_accepts(nodes, rels, occ, p);
        lemma_columns_settle(nodes, rels, occ, p, n);
        lemma_columns_settle(nodes, rels, occ, k, n);
        lemma_geometries_accept(nodes, rels, occ, p);
        lemma_geometries_accept(nodes, rels, occ, k);
        assert(node_pass::split_occ(rec.key) is Ok && column_pass::occ_value(rec.payload) is Ok);
        let a = column_pass::geometries_after(nodes, rels, occ, p)->Ok_0;
        let b = column_pass::geometries_after(nodes, rels, occ, k)->Ok_0;
        if emit_columns::layout_after(g, occ, p) is Ok {
            let v = emit_columns::layout_after(g, occ, p)->Ok_0;
            let same = v.len() > 0 && v.last().table_id == col.0 && v.last().key == col.1;
            if p > 0 {
                assert(a.last().table_id == column_of(occ[p - 1]).0);
            }
            if same {
                assert(column_of(occ[p - 1]) == col);
                assert(column_pass::rows_of_table(nodes, rels, column_of(occ[p - 1]).0)->Some_0 <= 0xffff_ffff);
            } else {
                assert(b.len() == a.len() + 1);
                let j = v.len() as int;
                assert(b[j].table_id == col.0 && b[j].key == col.1 && Some(b[j].row_count)
                    == column_pass::rows_of_table(nodes, rels, col.0));
                assert(g[j].table_id == col.0 && g[j].key == col.1 && g[j].row_count
                    == b[j].row_count);
            }
        }
        if forall|i: int|
            0 <= i < k ==> column_pass::rows_of_table(nodes, rels, column_of(#[trigger] occ[i]).0)->Some_0
                <= 0xffff_ffff {
            assert(column_pass::rows_of_table(nodes, rels, column_of(occ[k - 1]).0)->Some_0 <= 0xffff_ffff);
        }
    }
}

/// Occurrences that stand together by column are accepted exactly where they can
/// be read, are of known tables whose rows fit four bytes, and hold values that
/// go together in their columns.
pub proof fn lemma_occurrences_are_accepted(nodes: Seq<u64>, rels: Seq<u64>, occ: Seq<RecordView>)
    requires
        columns_stand_together(occ),
    ensures
        stages::column_stage(nodes, rels, occ) is Ok <==> occurrences_fit(
            nodes,
            rels,
            occ,
            occ.len() as int,
        ) && forall|i: int|
            0 <= i < occ.len() ==> column_pass::rows_of_table(nodes, rels, column_of(#[trigger] occ[i]).0)->Some_0
                <= 0xffff_ffff,
{
    lemma_geometries_accept(nodes, rels, occ, occ.len());
    if column_pass::geometries_after(nodes, rels, occ, occ.len()) is Ok {
        lemma_layout_accepts(nodes, rels, occ, occ.len());
    }
}

} // verus!
