//! The adjacency arrays of a run of edges, taken apart by table, are the
//! edges: offsets count the edges in earlier rows, and every edge stands among
//! those of its row.

use crate::adjacency;
use crate::csr_pass::OffsetWalk;
use crate::csr_pass;
use crate::edge_placement_laws;
use crate::emit_ids;
use crate::generation::GenerationError;
use crate::runs::RecordView;
use crate::wire;
use vstd::prelude::*;

verus! {

/// The row of a record's edge.
pub open spec fn edge_row_at(rec: RecordView) -> u64 {
    wire::u64_be_at(rec.key, 2)
}

/// Edges by table and row.
pub open spec fn run_sorted(recs: Seq<RecordView>) -> bool {
    &&& edge_placement_laws::rels_sorted(recs)
    &&& forall|a: int, b: int|
        0 <= a < b < recs.len() && edge_placement_laws::forward_rel(recs[a]) == edge_placement_laws::forward_rel(recs[b]) ==> edge_row_at(
            #[trigger] recs[a],
        ) <= edge_row_at(#[trigger] recs[b])
}

/// Every one of the tables has an edge, and no other has.
pub open spec fn run_covers(recs: Seq<RecordView>, tables: nat) -> bool {
    &&& forall|a: int| 0 <= a < recs.len() ==> edge_placement_laws::forward_rel(#[trigger] recs[a]) < tables
    &&& forall|t: int|
        #![trigger table_seen(recs, t)]
        0 <= t < tables ==> table_seen(recs, t)
}

/// A table has an edge.
pub open spec fn table_seen(recs: Seq<RecordView>, t: int) -> bool {
    exists|a: int| 0 <= a < recs.len() && edge_placement_laws::forward_rel(#[trigger] recs[a]) == t
}

/// Every edge lies in a row of its table.
pub open spec fn rows_inside(rows: Seq<u64>, recs: Seq<RecordView>) -> bool {
    forall|a: int|
        0 <= a < recs.len() ==> edge_placement_laws::forward_rel(#[trigger] recs[a]) < rows.len() && edge_row_at(recs[a])
            < rows[edge_placement_laws::forward_rel(recs[a]) as int]
}

/// Number of the first `k` edges that lie in a table's rows before `r`.
pub open spec fn rows_before(recs: Seq<RecordView>, rel: u16, r: int, k: nat) -> nat
    decreases k,
{
    if k == 0 {
        0
    } else {
        rows_before(recs, rel, r, (k - 1) as nat) + if edge_placement_laws::forward_rel(recs[k - 1]) == rel
            && edge_row_at(recs[k - 1]) < r {
            1nat
        } else {
            0nat
        }
    }
}

/// The rows of a table.
pub open spec fn rows_at(rows: Seq<u64>, rel: u16) -> Option<u64> {
    if rel < rows.len() {
        Some(rows[rel as int])
    } else {
        None
    }
}

/// The offset walk behind the first `k` edges.
pub open spec fn walk_offsets(rows: Seq<u64>, recs: Seq<RecordView>, k: nat) -> Result<
    OffsetWalk,
    GenerationError,
>
    decreases k,
{
    if k == 0 {
        Ok(csr_pass::no_offsets())
    } else {
        match walk_offsets(rows, recs, (k - 1) as nat) {
            Err(e) => Err(e),
            Ok(w) => {
                let rec = recs[k - 1];
                csr_pass::offset_step(w, edge_placement_laws::forward_rel(rec), rows_at(rows, edge_placement_laws::forward_rel(rec)), edge_row_at(rec))
            },
        }
    }
}

/// One more than the rows of each table.
pub open spec fn offset_lens(rows: Seq<u64>) -> Seq<u64> {
    Seq::new(rows.len(), |t: int| (rows[t] + 1) as u64)
}

/// The offsets that each table has: one more than its rows where it has an
/// edge, else none.
pub open spec fn seen_lens(rows: Seq<u64>, recs: Seq<RecordView>) -> Seq<u64> {
    Seq::new(
        rows.len(),
        |t: int|
            if table_seen(recs, t) {
                (rows[t] + 1) as u64
            } else {
                0
            },
    )
}

/// Where the offsets of a table start.
pub open spec fn offset_start(rows: Seq<u64>, recs: Seq<RecordView>, t: int) -> int {
    adjacency::row_start(seen_lens(rows, recs), t)
}

proof fn lemma_rows_before_bound(recs: Seq<RecordView>, rel: u16, r: int, k: nat)
    ensures
        rows_before(recs, rel, r, k) <= edge_placement_laws::rels_before(recs, rel, k) <= k,
    decreases k,
{
    if k > 0 {
        lemma_rows_before_bound(recs, rel, r, (k - 1) as nat);
    }
}

/// All edges of a table lie before a row behind them all.
pub proof fn lemma_rows_before_all(recs: Seq<RecordView>, rel: u16, r: int, k: nat)
    requires
        k <= recs.len(),
        forall|a: int|
            0 <= a < k && edge_placement_laws::forward_rel(recs[a]) == rel ==> edge_row_at(#[trigger] recs[a]) < r,
    ensures
        rows_before(recs, rel, r, k) == edge_placement_laws::rels_before(recs, rel, k),
    decreases k,
{
    if k > 0 {
        lemma_rows_before_all(recs, rel, r, (k - 1) as nat);
    }
}

/// What holds of the offset walk behind the first `k` edges.
#[verifier::opaque]
spec fn walked(rows: Seq<u64>, recs: Seq<RecordView>, k: nat, w: OffsetWalk) -> bool {
    let t = edge_placement_laws::forward_rel(recs[k - 1]);
    &&& k > 0
    &&& w.rel == Some(t)
    &&& w.rows == rows[t as int]
    &&& w.pos == edge_placement_laws::rels_before(recs, t, k)
    &&& w.pos <= 0xffff_ffff
    &&& w.next == edge_row_at(recs[k - 1]) + 1
    &&& w.offsets.len() == offset_start(rows, recs, t as int) + w.next
    &&& forall|a: int|
        0 <= a < k ==> rows[edge_placement_laws::forward_rel(#[trigger] recs[a]) as int] <= 0xffff_ffff
    &&& forall|u: u16, r: int|
        u < t && table_seen(recs, u as int) && 0 <= r <= rows[u as int] ==> w.offsets[offset_start(
            rows,
            recs,
            u as int,
        ) + r] == #[trigger] rows_before(recs, u, r, k)
    &&& forall|r: int|
        0 <= r < w.next ==> w.offsets[offset_start(rows, recs, t as int) + r]
            == #[trigger] rows_before(recs, t, r, k)
}

proof fn lemma_start_step(rows: Seq<u64>, recs: Seq<RecordView>, t: int)
    requires
        0 <= t < rows.len(),
        table_seen(recs, t) ==> rows[t] <= 0xffff_ffff,
    ensures
        offset_start(rows, recs, t + 1) == offset_start(rows, recs, t) + if table_seen(recs, t) {
            rows[t] + 1
        } else {
            0
        },
{
}

proof fn lemma_starts(rows: Seq<u64>, recs: Seq<RecordView>, a: int, b: int)
    requires
        0 <= a < b <= rows.len(),
        table_seen(recs, a),
        rows[a] <= 0xffff_ffff,
    ensures
        0 <= offset_start(rows, recs, a),
        offset_start(rows, recs, a) + rows[a] + 1 <= offset_start(rows, recs, b),
    decreases b,
{
    lemma_start_nonnegative(rows, recs, a);
    lemma_start_step(rows, recs, a);
    if a + 1 < b {
        lemma_starts(rows, recs, a, b - 1);
    }
}

proof fn lemma_start_nonnegative(rows: Seq<u64>, recs: Seq<RecordView>, a: int)
    ensures
        0 <= offset_start(rows, recs, a),
    decreases a,
{
    if a > 0 {
        lemma_start_nonnegative(rows, recs, a - 1);
    }
}

/// Tables without edges have no offsets.
proof fn lemma_start_gap(rows: Seq<u64>, recs: Seq<RecordView>, a: int, b: int)
    requires
        0 <= a <= b <= rows.len(),
        forall|t: int| a <= t < b ==> !table_seen(recs, t),
    ensures
        offset_start(rows, recs, a) == offset_start(rows, recs, b),
    decreases b,
{
    if a < b {
        lemma_start_gap(rows, recs, a, b - 1);
        assert(!table_seen(recs, b - 1));
        lemma_start_step(rows, recs, b - 1);
    }
}

/// Every edge of a table that occurs among the first `k` edges and before
/// another table is one of them.
proof fn lemma_seen_early(recs: Seq<RecordView>, u: int, k: int)
    requires
        edge_placement_laws::rels_sorted(recs),
        0 < k <= recs.len(),
        table_seen(recs, u),
        u <= edge_placement_laws::forward_rel(recs[k - 1]),
    ensures
        exists|a: int| 0 <= a < k && edge_placement_laws::forward_rel(#[trigger] recs[a]) == u,
{
    let a = choose|a: int| 0 <= a < recs.len() && edge_placement_laws::forward_rel(#[trigger] recs[a]) == u;
    if a >= k {
        assert(edge_placement_laws::forward_rel(recs[k - 1]) <= edge_placement_laws::forward_rel(recs[a]));
        assert(edge_placement_laws::forward_rel(recs[k - 1]) == u);
    }
}

/// Offsets behind the closed table.
proof fn lemma_closed_table(rows: Seq<u64>, recs: Seq<RecordView>, k: nat, w: OffsetWalk)
    requires
        0 < k <= recs.len(),
        run_sorted(recs),
        rows_inside(rows, recs),
        walked(rows, recs, k, w),
    ensures
        ({
            let t = edge_placement_laws::forward_rel(recs[k - 1]);
            let c = csr_pass::closed_offsets(w);
            &&& c.len() == offset_start(rows, recs, t + 1)
            &&& forall|u: u16, r: int|
                u <= t && table_seen(recs, u as int) && 0 <= r <= rows[u as int] ==> c[offset_start(rows, recs, u as int) + r]
                    == #[trigger] rows_before(recs, u, r, k)
        }),
{
    reveal(walked);
    let t = edge_placement_laws::forward_rel(recs[k - 1]);
    let c = csr_pass::closed_offsets(w);
    assert(edge_placement_laws::forward_rel(recs[k - 1]) == t);
    assert(table_seen(recs, t as int));
    lemma_start_step(rows, recs, t as int);
    lemma_start_nonnegative(rows, recs, t as int);
    assert(w.next <= rows[t as int]);
    assert forall|u: u16, r: int| u <= t && table_seen(recs, u as int) && 0 <= r <= rows[u as int] implies c[offset_start(
        rows,
        recs,
        u as int,
    ) + r] == #[trigger] rows_before(recs, u, r, k) by {
        lemma_start_nonnegative(rows, recs, u as int);
        if u < t {
            lemma_seen_early(recs, u as int, k as int);
            lemma_starts(rows, recs, u as int, t as int);
            assert(c[offset_start(rows, recs, u as int) + r] == w.offsets[offset_start(rows, recs, u as int)
                + r]);
        } else if r < w.next {
            assert(c[offset_start(rows, recs, u as int) + r] == w.offsets[offset_start(rows, recs, u as int)
                + r]);
        } else {
            assert forall|a: int|
                0 <= a < k && edge_placement_laws::forward_rel(recs[a]) == t implies edge_row_at(#[trigger] recs[a])
                < r by {
                if a < k - 1 {
                    assert(edge_row_at(recs[a]) <= edge_row_at(recs[k - 1]));
                }
            }
            lemma_rows_before_all(recs, t, r, k);
            lemma_rows_before_bound(recs, t, r, k);
        }
    }
}

/// The offsets of the next edge's table start where those of the tables so
/// far end.
proof fn lemma_next_table(rows: Seq<u64>, recs: Seq<RecordView>, k: int)
    requires
        run_sorted(recs),
        rows_inside(rows, recs),
        0 <= k < recs.len(),
        k > 0 ==> edge_placement_laws::forward_rel(recs[k - 1]) != edge_placement_laws::forward_rel(recs[k]),
    ensures
        k > 0 ==> edge_placement_laws::forward_rel(recs[k - 1]) < edge_placement_laws::forward_rel(recs[k]),
        offset_start(rows, recs, edge_placement_laws::forward_rel(recs[k]) as int) == if k == 0 {
            0
        } else {
            offset_start(rows, recs, edge_placement_laws::forward_rel(recs[k - 1]) + 1)
        },
{
    let rel = edge_placement_laws::forward_rel(recs[k]) as int;
    let from = if k == 0 {
        0
    } else {
        edge_placement_laws::forward_rel(recs[k - 1]) + 1
    };
    assert forall|t: int| from <= t < rel implies !table_seen(recs, t) by {
        if table_seen(recs, t) {
            let a = choose|a: int| 0 <= a < recs.len() && edge_placement_laws::forward_rel(#[trigger] recs[a]) == t;
            if a < k - 1 {
                assert(edge_placement_laws::forward_rel(recs[a]) <= edge_placement_laws::forward_rel(recs[k - 1]));
            } else if a > k {
                assert(edge_placement_laws::forward_rel(recs[k]) <= edge_placement_laws::forward_rel(recs[a]));
            }
        }
    }
    if k > 0 {
        assert(edge_placement_laws::forward_rel(recs[k - 1]) <= edge_placement_laws::forward_rel(recs[k]));
    }
    lemma_start_gap(rows, recs, from, rel);
    assert(offset_start(rows, recs, 0) == 0);
}

proof fn lemma_walk_step(rows: Seq<u64>, recs: Seq<RecordView>, k: nat, w: OffsetWalk)
    requires
        k < recs.len(),
        run_sorted(recs),
        rows_inside(rows, recs),
        k == 0 ==> w == csr_pass::no_offsets(),
        k > 0 ==> walked(rows, recs, k, w),
    ensures
        ({
            let rec = recs[k as int];
            let v = csr_pass::offset_step(
                w,
                edge_placement_laws::forward_rel(rec),
                rows_at(rows, edge_placement_laws::forward_rel(rec)),
                edge_row_at(rec),
            );
            v is Ok ==> walked(rows, recs, k + 1, v->Ok_0)
        }),
{
    reveal(walked);
    let rec = recs[k as int];
    let rel = edge_placement_laws::forward_rel(rec);
    let row = edge_row_at(rec);
    let n = k + 1;
    let step = csr_pass::offset_step(w, rel, rows_at(rows, rel), row);
    assert(rel < rows.len());
    assert(table_seen(recs, rel as int));
    if step is Ok {
        let v = step->Ok_0;
        let start = offset_start(rows, recs, rel as int);
        lemma_start_nonnegative(rows, recs, rel as int);
        assert forall|a: int| 0 <= a < n implies rows[edge_placement_laws::forward_rel(#[trigger] recs[a]) as int]
            <= 0xffff_ffff by {
            if a == k && k > 0 && w.rel == Some(rel) {
                assert(rows[edge_placement_laws::forward_rel(recs[k - 1]) as int] <= 0xffff_ffff);
            }
        }
        if w.rel == Some(rel) {
            assert(edge_row_at(recs[k - 1]) <= row);
            assert forall|u: u16, r: int|
                u < rel && table_seen(recs, u as int) && 0 <= r <= rows[u as int] implies v.offsets[
            offset_start(rows, recs, u as int) + r] == #[trigger] rows_before(recs, u, r, n) by {
                lemma_seen_early(recs, u as int, k as int);
                lemma_starts(rows, recs, u as int, rel as int);
                assert(rows_before(recs, u, r, n) == rows_before(recs, u, r, k));
            }
            assert forall|r: int| 0 <= r < v.next implies v.offsets[start + r]
                == #[trigger] rows_before(recs, rel, r, n) by {
                assert(rows_before(recs, rel, r, n) == rows_before(recs, rel, r, k));
                if r < w.next {
                    assert(v.offsets[start + r] == w.offsets[start + r]);
                } else {
                    assert forall|a: int|
                        0 <= a < k && edge_placement_laws::forward_rel(recs[a]) == rel implies edge_row_at(
                        #[trigger] recs[a],
                    ) < r by {
                        if a < k - 1 {
                            assert(edge_row_at(recs[a]) <= edge_row_at(recs[k - 1]));
                        }
                    }
                    lemma_rows_before_all(recs, rel, r, k);
                    lemma_rows_before_bound(recs, rel, r, k);
                }
            }
        } else {
            lemma_next_table(rows, recs, k as int);
            if k > 0 {
                lemma_closed_table(rows, recs, k, w);
                edge_placement_laws::lemma_next_position(recs, k);
            }
            let c = csr_pass::closed_offsets(w);
            assert(c.len() == start);
            assert forall|u: u16, r: int|
                u < rel && table_seen(recs, u as int) && 0 <= r <= rows[u as int] implies v.offsets[
            offset_start(rows, recs, u as int) + r] == #[trigger] rows_before(recs, u, r, n) by {
                lemma_seen_early(recs, u as int, n as int);
                let a = choose|a: int| 0 <= a < n && edge_placement_laws::forward_rel(#[trigger] recs[a]) == u;
                assert(a < k);
                assert(u <= edge_placement_laws::forward_rel(recs[k - 1]));
                lemma_starts(rows, recs, u as int, rel as int);
                assert(rows_before(recs, u, r, n) == rows_before(recs, u, r, k));
                assert(v.offsets[offset_start(rows, recs, u as int) + r] == c[offset_start(
                    rows,
                    recs,
                    u as int,
                ) + r]);
            }
            assert forall|r: int| 0 <= r < v.next implies v.offsets[start + r]
                == #[trigger] rows_before(recs, rel, r, n) by {
                lemma_rows_before_bound(recs, rel, r, k);
                assert(rows_before(recs, rel, r, n) == rows_before(recs, rel, r, k));
            }
            assert(v.rows == rows[rel as int]);
            assert(edge_placement_laws::rels_before(recs, rel, k) == 0);
            assert(edge_placement_laws::forward_rel(recs[n - 1]) == rel);
            assert(v.pos == edge_placement_laws::rels_before(recs, rel, n));
            assert(v.next == row + 1);
            assert(v.offsets.len() == start + v.next);
        }
    }
}

proof fn lemma_walk(rows: Seq<u64>, recs: Seq<RecordView>, k: nat)
    requires
        0 < k <= recs.len(),
        run_sorted(recs),
        rows_inside(rows, recs),
        walk_offsets(rows, recs, k) is Ok,
    ensures
        walked(rows, recs, k, walk_offsets(rows, recs, k)->Ok_0),
    decreases k,
{
    let j = (k - 1) as nat;
    assert(walk_offsets(rows, recs, j) is Ok);
    if j > 0 {
        lemma_walk(rows, recs, j);
    }
    lemma_walk_step(rows, recs, j, walk_offsets(rows, recs, j)->Ok_0);
}

/// The offsets of every table that has an edge count its edges in earlier
/// rows, whatever the other tables hold.
pub proof fn lemma_offsets_count_the_edges(rows: Seq<u64>, recs: Seq<RecordView>, t: u16, r: int)
    requires
        run_sorted(recs),
        rows_inside(rows, recs),
        walk_offsets(rows, recs, recs.len()) is Ok,
        table_seen(recs, t as int),
        0 <= r <= rows[t as int],
    ensures
        csr_pass::closed_offsets(walk_offsets(rows, recs, recs.len())->Ok_0)[offset_start(
            rows,
            recs,
            t as int,
        ) + r] == rows_before(recs, t, r, recs.len()),
{
    let n = recs.len();
    let a = choose|a: int| 0 <= a < recs.len() && edge_placement_laws::forward_rel(#[trigger] recs[a]) == t;
    lemma_walk(rows, recs, n);
    let w = walk_offsets(rows, recs, n)->Ok_0;
    lemma_closed_table(rows, recs, n, w);
    if a < n - 1 {
        assert(edge_placement_laws::forward_rel(recs[a]) <= edge_placement_laws::forward_rel(recs[n - 1]));
    }
    assert(csr_pass::closed_offsets(w)[offset_start(rows, recs, t as int) + r] == rows_before(recs, t, r, n));
}

/// The offsets are those of the tables that have an edge, one more than each
/// has rows: a table without an edge writes nothing.
pub proof fn lemma_offsets_of_the_seen(rows: Seq<u64>, recs: Seq<RecordView>)
    requires
        run_sorted(recs),
        rows_inside(rows, recs),
        walk_offsets(rows, recs, recs.len()) is Ok,
    ensures
        csr_pass::closed_offsets(walk_offsets(rows, recs, recs.len())->Ok_0).len() == offset_start(
            rows,
            recs,
            rows.len() as int,
        ),
{
    let n = recs.len();
    if n == 0 {
        lemma_start_gap(rows, recs, 0, rows.len() as int);
        assert(offset_start(rows, recs, 0) == 0);
    } else {
        lemma_walk(rows, recs, n);
        lemma_closed_table(rows, recs, n, walk_offsets(rows, recs, n)->Ok_0);
        let last = edge_placement_laws::forward_rel(recs[n - 1]);
        assert forall|t: int| last + 1 <= t < rows.len() implies !table_seen(recs, t) by {
            if table_seen(recs, t) {
                let a = choose|a: int| 0 <= a < recs.len() && edge_placement_laws::forward_rel(#[trigger] recs[a]) == t;
                if a < n - 1 {
                    assert(edge_placement_laws::forward_rel(recs[a]) <= edge_placement_laws::forward_rel(recs[n - 1]));
                }
            }
        }
        lemma_start_gap(rows, recs, last + 1, rows.len() as int);
    }
}

/// Where every table has an edge, each has offsets.
pub proof fn lemma_covered_starts(rows: Seq<u64>, recs: Seq<RecordView>, t: int)
    requires
        run_covers(recs, rows.len()),
    ensures
        offset_start(rows, recs, t) == adjacency::row_start(offset_lens(rows), t),
{
    assert forall|u: int| 0 <= u < rows.len() implies table_seen(recs, u) by {}
    assert(seen_lens(rows, recs) =~= offset_lens(rows));
}

// --------------------------------------------------------------- positions

/// Number of the first `k` edges in tables before one.
spec fn tables_before(recs: Seq<RecordView>, t: int, k: nat) -> nat
    decreases k,
{
    if k == 0 {
        0
    } else {
        tables_before(recs, t, (k - 1) as nat) + if edge_placement_laws::forward_rel(recs[k - 1]) < t {
            1nat
        } else {
            0nat
        }
    }
}

proof fn lemma_tables_before_next(recs: Seq<RecordView>, t: u16, k: nat)
    ensures
        tables_before(recs, t + 1, k) == tables_before(recs, t as int, k) + edge_placement_laws::rels_before(recs, t, k),
    decreases k,
{
    if k > 0 {
        lemma_tables_before_next(recs, t, (k - 1) as nat);
    }
}

proof fn lemma_tables_before_first(recs: Seq<RecordView>, k: nat)
    ensures
        tables_before(recs, 0, k) == 0,
    decreases k,
{
    if k > 0 {
        lemma_tables_before_first(recs, (k - 1) as nat);
    }
}

/// The edges per table of a run.
pub open spec fn run_counts(recs: Seq<RecordView>, tables: nat, counts: Seq<u64>) -> bool {
    &&& counts.len() == tables
    &&& forall|t: int|
        0 <= t < tables ==> (#[trigger] counts[t]) == edge_placement_laws::rels_before(recs, t as u16, recs.len())
}

proof fn lemma_count_start(recs: Seq<RecordView>, tables: nat, counts: Seq<u64>, t: int)
    requires
        run_counts(recs, tables, counts),
        tables <= 0x1_0000,
        0 <= t <= tables,
    ensures
        adjacency::row_start(counts, t) == tables_before(recs, t, recs.len()),
    decreases t,
{
    if t > 0 {
        lemma_count_start(recs, tables, counts, t - 1);
        lemma_tables_before_next(recs, (t - 1) as u16, recs.len());
        assert(counts[t - 1] == edge_placement_laws::rels_before(recs, (t - 1) as u16, recs.len()));
    } else {
        lemma_tables_before_first(recs, recs.len());
    }
}

/// Behind an edge there are no edges of earlier tables.
proof fn lemma_tables_before_stay(recs: Seq<RecordView>, t: int, m: nat, k: nat)
    requires
        m <= k <= recs.len(),
        forall|a: int| m <= a < recs.len() ==> edge_placement_laws::forward_rel(#[trigger] recs[a]) >= t,
    ensures
        tables_before(recs, t, k) == tables_before(recs, t, m),
    decreases k,
{
    if m < k {
        lemma_tables_before_stay(recs, t, m, (k - 1) as nat);
    }
}

/// Before an edge there are only edges of earlier tables and of its own.
proof fn lemma_tables_up_to(recs: Seq<RecordView>, t: u16, m: nat)
    requires
        m <= recs.len(),
        forall|a: int| 0 <= a < m ==> edge_placement_laws::forward_rel(#[trigger] recs[a]) <= t,
    ensures
        tables_before(recs, t as int, m) + edge_placement_laws::rels_before(recs, t, m) == m,
    decreases m,
{
    if m > 0 {
        lemma_tables_up_to(recs, t, (m - 1) as nat);
    }
}

/// An edge's place in the run is the start of its table and its position in
/// the table.
pub proof fn lemma_run_position(recs: Seq<RecordView>, tables: nat, counts: Seq<u64>, m: int)
    requires
        run_sorted(recs),
        run_counts(recs, tables, counts),
        tables <= 0x1_0000,
        0 <= m < recs.len(),
        edge_placement_laws::forward_rel(recs[m]) < tables,
    ensures
        adjacency::row_start(counts, edge_placement_laws::forward_rel(recs[m]) as int) + edge_placement_laws::rels_before(
            recs,
            edge_placement_laws::forward_rel(recs[m]),
            m as nat,
        ) == m,
        edge_placement_laws::rels_before(recs, edge_placement_laws::forward_rel(recs[m]), m as nat) < counts[edge_placement_laws::forward_rel(recs[m]) as int],
{
    let t = edge_placement_laws::forward_rel(recs[m]);
    lemma_count_start(recs, tables, counts, t as int);
    assert forall|a: int| m <= a < recs.len() implies edge_placement_laws::forward_rel(#[trigger] recs[a]) >= t by {
        if a > m {
            assert(edge_placement_laws::forward_rel(recs[m]) <= edge_placement_laws::forward_rel(recs[a]));
        }
    }
    lemma_tables_before_stay(recs, t as int, m as nat, recs.len());
    assert forall|a: int| 0 <= a < m implies edge_placement_laws::forward_rel(#[trigger] recs[a]) <= t by {
        assert(edge_placement_laws::forward_rel(recs[a]) <= edge_placement_laws::forward_rel(recs[m]));
    }
    lemma_tables_up_to(recs, t, m as nat);
    edge_placement_laws::lemma_rels_grow(recs, t, (m + 1) as nat, recs.len());
    assert(edge_placement_laws::rels_before(recs, t, (m + 1) as nat) == edge_placement_laws::rels_before(recs, t, m as nat) + 1);
    assert(counts[t as int] == edge_placement_laws::rels_before(recs, t, recs.len()));
}

/// Later rows have no fewer edges before them.
pub proof fn lemma_rows_before_up(recs: Seq<RecordView>, rel: u16, a: int, b: int, k: nat)
    requires
        a <= b,
    ensures
        rows_before(recs, rel, a, k) <= rows_before(recs, rel, b, k),
    decreases k,
{
    if k > 0 {
        lemma_rows_before_up(recs, rel, a, b, (k - 1) as nat);
    }
}

proof fn lemma_rows_before_grow(recs: Seq<RecordView>, rel: u16, r: int, a: nat, b: nat)
    requires
        a <= b,
    ensures
        rows_before(recs, rel, r, a) <= rows_before(recs, rel, r, b),
    decreases b,
{
    if a < b {
        lemma_rows_before_grow(recs, rel, r, a, (b - 1) as nat);
    }
}

proof fn lemma_rows_before_stay(recs: Seq<RecordView>, rel: u16, r: int, a: nat, b: nat)
    requires
        a <= b <= recs.len(),
        forall|i: int|
            a <= i < b ==> edge_placement_laws::forward_rel(#[trigger] recs[i]) != rel || edge_row_at(recs[i]) >= r,
    ensures
        rows_before(recs, rel, r, b) == rows_before(recs, rel, r, a),
    decreases b,
{
    if a < b {
        lemma_rows_before_stay(recs, rel, r, a, (b - 1) as nat);
    }
}

/// An edge's position lies between the offsets of its row and of the next.
pub proof fn lemma_edge_in_its_row(recs: Seq<RecordView>, m: int)
    requires
        run_sorted(recs),
        0 <= m < recs.len(),
    ensures
        ({
            let t = edge_placement_laws::forward_rel(recs[m]);
            let row = edge_row_at(recs[m]) as int;
            let pos = edge_placement_laws::rels_before(recs, t, m as nat);
            rows_before(recs, t, row, recs.len()) <= pos < rows_before(
                recs,
                t,
                row + 1,
                recs.len(),
            )
        }),
{
    let t = edge_placement_laws::forward_rel(recs[m]);
    let row = edge_row_at(recs[m]) as int;
    let n = recs.len();
    assert forall|i: int| m <= i < n implies edge_placement_laws::forward_rel(#[trigger] recs[i]) != t || edge_row_at(
        recs[i],
    ) >= row by {
        if i > m && edge_placement_laws::forward_rel(recs[i]) == t {
            assert(edge_row_at(recs[m]) <= edge_row_at(recs[i]));
        }
    }
    lemma_rows_before_stay(recs, t, row, m as nat, n);
    lemma_rows_before_bound(recs, t, row, m as nat);
    assert forall|a: int| 0 <= a < m + 1 && edge_placement_laws::forward_rel(recs[a]) == t implies edge_row_at(
        #[trigger] recs[a],
    ) < row + 1 by {
        if a < m {
            assert(edge_row_at(recs[a]) <= edge_row_at(recs[m]));
        }
    }
    lemma_rows_before_all(recs, t, row + 1, (m + 1) as nat);
    lemma_rows_before_grow(recs, t, row + 1, (m + 1) as nat, n);
    assert(edge_placement_laws::rels_before(recs, t, (m + 1) as nat) == edge_placement_laws::rels_before(recs, t, m as nat) + 1);
}

/// The counted edges are those per table.
pub proof fn lemma_edge_counts(recs: Seq<RecordView>, tables: nat, k: nat)
    requires
        k <= recs.len(),
        recs.len() <= u64::MAX,
        tables <= 0x1_0000,
        emit_ids::edge_counts(recs, tables, k) is Ok,
    ensures
        emit_ids::edge_counts(recs, tables, k)->Ok_0.len() == tables,
        forall|t: int|
            0 <= t < tables ==> (#[trigger] emit_ids::edge_counts(recs, tables, k)->Ok_0[t]) == edge_placement_laws::rels_before(
                recs,
                t as u16,
                k,
            ),
    decreases k,
{
    if k > 0 {
        let j = (k - 1) as nat;
        assert(emit_ids::edge_counts(recs, tables, j) is Ok);
        lemma_edge_counts(recs, tables, j);
        let v = emit_ids::edge_counts(recs, tables, j)->Ok_0;
        let w = emit_ids::edge_counts(recs, tables, k)->Ok_0;
        assert forall|t: int| 0 <= t < tables implies (#[trigger] w[t]) == edge_placement_laws::rels_before(
            recs,
            t as u16,
            k,
        ) by {
            assert(v[t] == edge_placement_laws::rels_before(recs, t as u16, j));
            edge_placement_laws::lemma_rels_grow(recs, t as u16, 0, j);
        }
    }
}

/// Behind an edge the walk has counted the edges of its table so far.
pub proof fn lemma_walk_position(rows: Seq<u64>, recs: Seq<RecordView>, k: nat)
    requires
        0 < k <= recs.len(),
        run_sorted(recs),
        rows_inside(rows, recs),
        walk_offsets(rows, recs, k) is Ok,
    ensures
        walk_offsets(rows, recs, k)->Ok_0.pos == edge_placement_laws::rels_before(recs, edge_placement_laws::forward_rel(recs[k - 1]), k),
        walk_offsets(rows, recs, k)->Ok_0.pos <= 0xffff_ffff,
{
    lemma_walk(rows, recs, k);
    reveal(walked);
}

// ------------------------------------------------------------ permutations

/// The first `k` edges in a table.
spec fn rel_set(recs: Seq<RecordView>, rel: u16, k: int) -> Set<int> {
    Set::new(|i: int| 0 <= i < k && edge_placement_laws::forward_rel(recs[i]) == rel)
}

proof fn lemma_rel_set(recs: Seq<RecordView>, rel: u16, k: nat)
    requires
        k <= recs.len(),
    ensures
        rel_set(recs, rel, k as int).finite(),
        rel_set(recs, rel, k as int).len() == edge_placement_laws::rels_before(recs, rel, k),
    decreases k,
{
    let s = rel_set(recs, rel, k as int);
    if k > 0 {
        lemma_rel_set(recs, rel, (k - 1) as nat);
        let old = rel_set(recs, rel, k - 1);
        if edge_placement_laws::forward_rel(recs[k - 1]) == rel {
            assert(s =~= old.insert(k - 1));
        } else {
            assert(s =~= old);
        }
    } else {
        assert(s =~= Set::empty());
    }
}

/// Runs of the same edges in different orders have as many edges per table.
pub proof fn lemma_reordered_counts(
    a: Seq<RecordView>,
    b: Seq<RecordView>,
    order: Seq<int>,
    rel: u16,
)
    requires
        a.len() == b.len(),
        order.len() == a.len(),
        order.no_duplicates(),
        forall|q: int|
            0 <= q < b.len() ==> 0 <= #[trigger] order[q] < a.len() && edge_placement_laws::forward_rel(b[q])
                == edge_placement_laws::forward_rel(a[order[q]]),
        forall|m: int| 0 <= m < a.len() ==> #[trigger] order.contains(m),
    ensures
        edge_placement_laws::rels_before(b, rel, b.len()) == edge_placement_laws::rels_before(a, rel, a.len()),
{
    let n = a.len();
    let x = rel_set(b, rel, n as int);
    let y = rel_set(a, rel, n as int);
    lemma_rel_set(a, rel, n);
    lemma_rel_set(b, rel, n);
    let f = |q: int| order[q];
    assert forall|q: int| x.contains(q) implies y.contains(#[trigger] f(q)) by {}
    assert forall|m: int| y.contains(m) implies exists|q: int| #[trigger]
        x.contains(q) && f(q) == m by {
        assert(order.contains(m));
        let q = choose|q: int| 0 <= q < order.len() && order[q] == m;
        assert(0 <= order[q] < a.len());
        assert(x.contains(q));
    }
    assert forall|q1: int, q2: int| x.contains(q1) && x.contains(q2) && #[trigger] f(q1)
        == #[trigger] f(q2) implies q1 == q2 by {}
    assert(x.map(f) =~= y) by {
        assert forall|m: int| x.map(f).contains(m) == y.contains(m) by {
            if y.contains(m) {
                let q = choose|q: int| #[trigger] x.contains(q) && f(q) == m;
                assert(x.map(f).contains(f(q)));
            }
        }
    }
    vstd::set_lib::lemma_map_size(x, y, f);
}

} // verus!
