//! The adjacency of a plan is its edges: every edge leads from its source's
//! row to its destination's, and back with its position.

use crate::adjacency;
use crate::csr_laws;
use crate::csr_pass::{OffsetWalk, RelTableGeometry};
use crate::csr_pass;
use crate::edge_pass::RelKey;
use crate::edge_placement_laws;
use crate::generation::GenerationError;
use crate::orchestrator::PlanView;
use crate::orchestrator;
use crate::placement_laws;
use crate::records::{DeclRecord, EdgeRecord, NodeRecord};
use crate::runs::RecordView;
use crate::runs;
use crate::sorting;
use crate::tables::CsrView;
use crate::v5_read;
use crate::wire;
use vstd::prelude::*;

verus! {

broadcast use wire::group_wire;

/// The parts of an edge key.
pub type EdgeParts = (u16, u64, u64, u64);

/// The key of an edge's parts.
pub open spec fn parts_key(p: EdgeParts) -> Seq<u8> {
    csr_pass::edge_key(p.0, p.1, p.2, p.3)
}

/// Records whose keys are those of the given parts.
pub open spec fn keys_spell(recs: Seq<RecordView>, parts: Seq<EdgeParts>) -> bool {
    &&& recs.len() == parts.len()
    &&& forall|m: int| 0 <= m < recs.len() ==> (#[trigger] recs[m]).key == parts_key(parts[m])
}

proof fn lemma_parts(recs: Seq<RecordView>, parts: Seq<EdgeParts>, m: int)
    requires
        keys_spell(recs, parts),
        0 <= m < recs.len(),
    ensures
        recs[m].key.len() == 26,
        csr_pass::split_edge_key(recs[m].key) == Ok::<EdgeParts, GenerationError>(parts[m]),
        edge_placement_laws::forward_rel(recs[m]) == parts[m].0,
        csr_laws::edge_row_at(recs[m]) == parts[m].1,
        wire::u64_be_at(recs[m].key, 10) == parts[m].2,
{
    csr_pass::lemma_edge_key_round_trip(parts[m].0, parts[m].1, parts[m].2, parts[m].3);
}

/// Sorted edge records go by table and row.
proof fn lemma_run_sorted(recs: Seq<RecordView>, parts: Seq<EdgeParts>)
    requires
        keys_spell(recs, parts),
        sorting::keys_sorted(runs::record_keys(recs)),
    ensures
        csr_laws::run_sorted(recs),
{
    let keys = runs::record_keys(recs);
    assert forall|a: int, b: int| 0 <= a < b < recs.len() implies edge_placement_laws::forward_rel(#[trigger] recs[a])
        <= edge_placement_laws::forward_rel(#[trigger] recs[b]) && (edge_placement_laws::forward_rel(recs[a]) == edge_placement_laws::forward_rel(recs[b])
        ==> csr_laws::edge_row_at(recs[a]) <= csr_laws::edge_row_at(recs[b])) by {
        lemma_parts(recs, parts, a);
        lemma_parts(recs, parts, b);
        assert(wire::lex_le(keys[a], keys[b]));
        csr_pass::lemma_edge_key_order(parts[a], parts[b]);
    }
    assert forall|a: int| 0 <= a < recs.len() implies (#[trigger] recs[a]).key.len() == 26 by {
        lemma_parts(recs, parts, a);
    }
}

/// The rows on the source sides.
pub open spec fn src_rows(g: Seq<RelTableGeometry>) -> Seq<u64> {
    Seq::new(g.len(), |t: int| g[t].src_rows)
}

/// The rows on the destination sides.
pub open spec fn dst_rows(g: Seq<RelTableGeometry>) -> Seq<u64> {
    Seq::new(g.len(), |t: int| g[t].dst_rows)
}

/// No table has too many rows.
pub open spec fn rows_fit(rows: Seq<u64>) -> bool {
    forall|t: int| 0 <= t < rows.len() ==> (#[trigger] rows[t]) <= 0xffff_ffff
}

/// A run by table and row, of edges in the rows of all the tables.
pub open spec fn run_sound(rows: Seq<u64>, recs: Seq<RecordView>) -> bool {
    &&& csr_laws::run_sorted(recs)
    &&& csr_laws::run_covers(recs, rows.len())
    &&& csr_laws::rows_inside(rows, recs)
    &&& rows_fit(rows)
}

/// A sorted run of edges, each in a row of its table on the source side.
pub open spec fn is_forward_run(
    g: Seq<RelTableGeometry>,
    recs: Seq<RecordView>,
    parts: Seq<EdgeParts>,
) -> bool {
    &&& keys_spell(recs, parts)
    &&& sorting::keys_sorted(runs::record_keys(recs))
    &&& forall|m: int|
        0 <= m < parts.len() ==> (#[trigger] parts[m]).0 < g.len() && parts[m].1
            < g[parts[m].0 as int].src_rows
}

proof fn lemma_forward_run(g: Seq<RelTableGeometry>, recs: Seq<RecordView>, parts: Seq<EdgeParts>)
    requires
        is_forward_run(g, recs, parts),
    ensures
        csr_laws::run_sorted(recs),
        csr_laws::rows_inside(src_rows(g), recs),
{
    lemma_run_sorted(recs, parts);
    assert forall|m: int| 0 <= m < recs.len() implies edge_placement_laws::forward_rel(#[trigger] recs[m]) < g.len()
        && csr_laws::edge_row_at(recs[m]) < src_rows(g)[edge_placement_laws::forward_rel(recs[m]) as int] by {
        lemma_parts(recs, parts, m);
        assert(parts[m].0 < g.len());
    }
}

/// The forward walk writes the offsets, the destinations and the reverse
/// records of the edges.
proof fn lemma_forward_after(
    g: Seq<RelTableGeometry>,
    recs: Seq<RecordView>,
    parts: Seq<EdgeParts>,
    k: nat,
)
    requires
        k <= recs.len(),
        keys_spell(recs, parts),
        csr_laws::run_sorted(recs),
        csr_laws::rows_inside(src_rows(g), recs),
        csr_pass::forward_after(g, recs, k) is Ok,
    ensures
        ({
            let w = csr_pass::forward_after(g, recs, k)->Ok_0;
            &&& csr_laws::walk_offsets(src_rows(g), recs, k) == Ok::<OffsetWalk, GenerationError>(w.offsets)
            &&& w.targets.len() == k
            &&& w.reverse.len() == k
            &&& forall|m: int|
                0 <= m < k ==> (#[trigger] w.targets[m]) == parts[m].2
            &&& forall|m: int|
                0 <= m < k ==> (#[trigger] w.reverse[m]) == csr_pass::reverse_record(
                    parts[m],
                    edge_placement_laws::rels_before(recs, parts[m].0, m as nat) as int,
                ) && edge_placement_laws::rels_before(recs, parts[m].0, m as nat) <= 0xffff_ffff
        }),
    decreases k,
{
    if k > 0 {
        let j = (k - 1) as nat;
        assert(csr_pass::forward_after(g, recs, j) is Ok);
        lemma_forward_after(g, recs, parts, j);
        lemma_parts(recs, parts, j as int);
        let u = csr_pass::forward_after(g, recs, j)->Ok_0;
        let w = csr_pass::forward_after(g, recs, k)->Ok_0;
        assert(csr_pass::src_rows_of(g, parts[j as int].0) == csr_laws::rows_at(src_rows(g), parts[j as int].0));
        csr_laws::lemma_walk_position(src_rows(g), recs, k);
        assert(edge_placement_laws::rels_before(recs, parts[j as int].0, k) == edge_placement_laws::rels_before(recs, parts[j as int].0, j)
            + 1);
        assert forall|m: int| 0 <= m < k implies (#[trigger] w.reverse[m]) == csr_pass::reverse_record(
            parts[m],
            edge_placement_laws::rels_before(recs, parts[m].0, m as nat) as int,
        ) && edge_placement_laws::rels_before(recs, parts[m].0, m as nat) <= 0xffff_ffff by {
            if m < j {
                assert(w.reverse[m] == u.reverse[m]);
            }
        }
        assert forall|m: int| 0 <= m < k implies (#[trigger] w.targets[m]) == parts[m].2 by {
            if m < j {
                assert(w.targets[m] == u.targets[m]);
            }
        }
    }
}

/// The reverse walk writes the offsets, the sources and the positions.
proof fn lemma_reverse_after(
    g: Seq<RelTableGeometry>,
    recs: Seq<RecordView>,
    parts: Seq<EdgeParts>,
    k: nat,
)
    requires
        k <= recs.len(),
        keys_spell(recs, parts),
        csr_pass::reverse_after(g, recs, k) is Ok,
    ensures
        ({
            let w = csr_pass::reverse_after(g, recs, k)->Ok_0;
            &&& csr_laws::walk_offsets(dst_rows(g), recs, k) == Ok::<OffsetWalk, GenerationError>(w.offsets)
            &&& w.targets.len() == k
            &&& w.positions.len() == k
            &&& forall|m: int| 0 <= m < k ==> (#[trigger] w.targets[m]) == parts[m].2
            &&& forall|m: int|
                0 <= m < k ==> (#[trigger] w.positions[m]) == wire::u32_at(recs[m].payload, 0)
        }),
    decreases k,
{
    if k > 0 {
        let j = (k - 1) as nat;
        assert(csr_pass::reverse_after(g, recs, j) is Ok);
        lemma_reverse_after(g, recs, parts, j);
        lemma_parts(recs, parts, j as int);
        let u = csr_pass::reverse_after(g, recs, j)->Ok_0;
        let w = csr_pass::reverse_after(g, recs, k)->Ok_0;
        assert(csr_pass::dst_rows_of(g, parts[j as int].0) == csr_laws::rows_at(dst_rows(g), parts[j as int].0));
        assert forall|m: int| 0 <= m < k implies (#[trigger] w.targets[m]) == parts[m].2 by {
            if m < j {
                assert(w.targets[m] == u.targets[m]);
            }
        }
        assert forall|m: int| 0 <= m < k implies (#[trigger] w.positions[m]) == wire::u32_at(
            recs[m].payload,
            0,
        ) by {
            if m < j {
                assert(w.positions[m] == u.positions[m]);
            }
        }
    }
}

/// What an array cut by table holds.
proof fn lemma_cut_at(all: Seq<u32>, lens: Seq<u64>, t: int, i: int)
    requires
        adjacency::rows_fill(all, lens),
        0 <= t < lens.len(),
        0 <= i < lens[t],
    ensures
        adjacency::split_rows(all, lens)[t].len() == lens[t],
        adjacency::split_rows(all, lens)[t][i] == all[adjacency::row_start(lens, t) + i],
{
    adjacency::lemma_row_start_grows(lens, 0, t);
    adjacency::lemma_row_start_grows(lens, t + 1, lens.len() as int);
    assert(adjacency::row_start(lens, t + 1) == adjacency::row_start(lens, t) + lens[t]);
}

/// An edge stands among those of a row: at its position between the row's
/// offset and the next, with its other end as the target.
pub open spec fn edge_listed(a: CsrView, row: u64, pos: int, other: u64) -> bool {
    &&& row + 1 < a.offsets.len()
    &&& 0 <= pos < a.targets.len()
    &&& a.offsets[row as int] <= pos < a.offsets[row + 1]
    &&& a.targets[pos] == other
}

/// An edge of a run stands in its table's arrays.
proof fn lemma_edge_listed(
    rows: Seq<u64>,
    recs: Seq<RecordView>,
    parts: Seq<EdgeParts>,
    counts: Seq<u64>,
    offsets: Seq<u32>,
    targets: Seq<u32>,
    m: int,
)
    requires
        run_sound(rows, recs),
        keys_spell(recs, parts),
        rows.len() <= 0x1_0000,
        csr_laws::run_counts(recs, rows.len(), counts),
        csr_laws::walk_offsets(rows, recs, recs.len()) is Ok,
        offsets == csr_pass::closed_offsets(csr_laws::walk_offsets(rows, recs, recs.len())->Ok_0),
        adjacency::rows_fill(offsets, csr_laws::offset_lens(rows)),
        adjacency::rows_fill(targets, counts),
        targets.len() == recs.len(),
        forall|i: int| 0 <= i < targets.len() ==> (#[trigger] targets[i]) == parts[i].2,
        0 <= m < recs.len(),
    ensures
        ({
            let t = parts[m].0 as int;
            edge_listed(
                CsrView {
                    offsets: adjacency::split_rows(offsets, csr_laws::offset_lens(rows))[t],
                    targets: adjacency::split_rows(targets, counts)[t],
                    edge_data: None,
                },
                parts[m].1,
                edge_placement_laws::rels_before(recs, parts[m].0, m as nat) as int,
                parts[m].2,
            )
        }),
        adjacency::split_rows(targets, counts)[parts[m].0 as int].len() == counts[parts[m].0 as int],
        adjacency::row_start(counts, parts[m].0 as int) + edge_placement_laws::rels_before(recs, parts[m].0, m as nat) == m,
{
    lemma_parts(recs, parts, m);
    let t = parts[m].0;
    let row = parts[m].1 as int;
    let pos = edge_placement_laws::rels_before(recs, t, m as nat) as int;
    let lens = csr_laws::offset_lens(rows);
    assert(edge_placement_laws::forward_rel(recs[m]) < rows.len());
    assert(csr_laws::edge_row_at(recs[m]) < rows[t as int]);
    assert(rows[t as int] <= 0xffff_ffff);
    csr_laws::lemma_run_position(recs, rows.len(), counts, m);
    csr_laws::lemma_edge_in_its_row(recs, m);
    assert(csr_laws::table_seen(recs, t as int));
    csr_laws::lemma_covered_starts(rows, recs, t as int);
    csr_laws::lemma_offsets_count_the_edges(rows, recs, t, row);
    csr_laws::lemma_offsets_count_the_edges(rows, recs, t, row + 1);
    lemma_cut_at(offsets, lens, t as int, row);
    lemma_cut_at(offsets, lens, t as int, row + 1);
    lemma_cut_at(targets, counts, t as int, pos);
    assert(targets[m] == parts[m].2);
}

/// The offsets of a table ascend to the number of its edges.
proof fn lemma_table_shaped(
    rows: Seq<u64>,
    recs: Seq<RecordView>,
    counts: Seq<u64>,
    offsets: Seq<u32>,
    t: u16,
)
    requires
        run_sound(rows, recs),
        rows.len() <= 0x1_0000,
        csr_laws::run_counts(recs, rows.len(), counts),
        csr_laws::walk_offsets(rows, recs, recs.len()) is Ok,
        offsets == csr_pass::closed_offsets(csr_laws::walk_offsets(rows, recs, recs.len())->Ok_0),
        adjacency::rows_fill(offsets, csr_laws::offset_lens(rows)),
        t < rows.len(),
    ensures
        v5_read::csr_shaped(adjacency::split_rows(offsets, csr_laws::offset_lens(rows))[t as int], counts[t as int] as int),
{
    let lens = csr_laws::offset_lens(rows);
    let o = adjacency::split_rows(offsets, lens)[t as int];
    let n = recs.len();
    assert(rows[t as int] <= 0xffff_ffff);
    assert(csr_laws::table_seen(recs, t as int));
    csr_laws::lemma_covered_starts(rows, recs, t as int);
    lemma_cut_at(offsets, lens, t as int, 0);
    assert forall|r: int| 0 <= r < o.len() implies (#[trigger] o[r]) == csr_laws::rows_before(
        recs,
        t,
        r,
        n,
    ) by {
        lemma_cut_at(offsets, lens, t as int, r);
        csr_laws::lemma_offsets_count_the_edges(rows, recs, t, r);
    }
    assert forall|i: int, j: int| 0 <= i <= j < o.len() implies #[trigger] o[i]
        <= #[trigger] o[j] by {
        csr_laws::lemma_rows_before_up(recs, t, i, j, n);
    }
    csr_laws::lemma_rows_before_all(recs, t, rows[t as int] as int, n);
    assert(counts[t as int] == edge_placement_laws::rels_before(recs, t, n));
    assert(o[rows[t as int] as int] == csr_laws::rows_before(recs, t, rows[t as int] as int, n));
}

// -------------------------------------------------------------------- runs

/// The forward arrays of a sorted run are its edges: the offsets of a table
/// that has an edge count its edges in earlier rows, tables without an edge
/// have no offsets, and the targets are the destinations.
pub proof fn lemma_forward_csr_is_the_edges(
    g: Seq<RelTableGeometry>,
    recs: Seq<RecordView>,
    parts: Seq<EdgeParts>,
    t: u16,
    r: int,
)
    requires
        is_forward_run(g, recs, parts),
        csr_pass::forward_after(g, recs, recs.len()) is Ok,
    ensures
        ({
            let w = csr_pass::forward_after(g, recs, recs.len())->Ok_0;
            let offsets = csr_pass::closed_offsets(w.offsets);
            &&& offsets.len() == csr_laws::offset_start(src_rows(g), recs, g.len() as int)
            &&& csr_laws::table_seen(recs, t as int) && 0 <= r <= g[t as int].src_rows
                ==> offsets[csr_laws::offset_start(src_rows(g), recs, t as int) + r] == csr_laws::rows_before(
                recs,
                t,
                r,
                recs.len(),
            )
            &&& w.targets.len() == recs.len()
            &&& forall|m: int| 0 <= m < recs.len() ==> (#[trigger] w.targets[m]) == parts[m].2
        }),
{
    lemma_forward_run(g, recs, parts);
    lemma_forward_after(g, recs, parts, recs.len());
    csr_laws::lemma_offsets_of_the_seen(src_rows(g), recs);
    if csr_laws::table_seen(recs, t as int) && 0 <= r <= g[t as int].src_rows {
        let a = choose|a: int| 0 <= a < recs.len() && edge_placement_laws::forward_rel(#[trigger] recs[a]) == t;
        assert(t < src_rows(g).len());
        csr_laws::lemma_offsets_count_the_edges(src_rows(g), recs, t, r);
    }
}

/// The reverse run that the forward walk stages.
pub open spec fn reverse_run(g: Seq<RelTableGeometry>, recs: Seq<RecordView>) -> Seq<RecordView> {
    runs::sorted_records(csr_pass::forward_after(g, recs, recs.len())->Ok_0.reverse)
}

/// The place in the forward run of the edge at `q` of the reverse run.
pub open spec fn turned_from(g: Seq<RelTableGeometry>, recs: Seq<RecordView>, q: int) -> int {
    sorting::stable_order(runs::record_keys(csr_pass::forward_after(g, recs, recs.len())->Ok_0.reverse))[q]
}

proof fn lemma_reverse_run(g: Seq<RelTableGeometry>, recs: Seq<RecordView>, parts: Seq<EdgeParts>)
    requires
        is_forward_run(g, recs, parts),
        csr_pass::forward_after(g, recs, recs.len()) is Ok,
    ensures
        ({
            let w = csr_pass::forward_after(g, recs, recs.len())->Ok_0;
            let order = sorting::stable_order(runs::record_keys(w.reverse));
            let back = reverse_run(g, recs);
            &&& back.len() == recs.len()
            &&& order.len() == recs.len()
            &&& order.no_duplicates()
            &&& forall|m: int| 0 <= m < recs.len() ==> #[trigger] order.contains(m)
            &&& keys_spell(back, turned(parts, order))
            &&& csr_laws::run_sorted(back)
            &&& forall|q: int|
                0 <= q < recs.len() ==> 0 <= (#[trigger] order[q]) < recs.len()
                    && edge_placement_laws::forward_rel(back[q]) == parts[order[q]].0 && edge_placement_laws::forward_rel(recs[order[q]])
                    == parts[order[q]].0 && back[q].payload == wire::put32(
                    edge_placement_laws::rels_before(recs, parts[order[q]].0, order[q] as nat) as u32,
                ) && edge_placement_laws::rels_before(recs, parts[order[q]].0, order[q] as nat) <= 0xffff_ffff
        }),
{
    let w = csr_pass::forward_after(g, recs, recs.len())->Ok_0;
    let order = sorting::stable_order(runs::record_keys(w.reverse));
    let back = reverse_run(g, recs);
    lemma_forward_run(g, recs, parts);
    lemma_forward_after(g, recs, parts, recs.len());
    runs::lemma_sorted_records(w.reverse);
    sorting::lemma_stable_order(runs::record_keys(w.reverse));
    assert forall|q: int| 0 <= q < recs.len() implies 0 <= (#[trigger] order[q]) < recs.len()
        && back[q] == w.reverse[order[q]] && back[q].key == parts_key(turned(parts, order)[q]) by {}
    assert forall|q: int| 0 <= q < back.len() implies (#[trigger] back[q]).key == parts_key(
        turned(parts, order)[q],
    ) by {
        assert(0 <= order[q] < recs.len());
    }
    lemma_run_sorted(back, turned(parts, order));
    assert forall|q: int| 0 <= q < recs.len() implies 0 <= (#[trigger] order[q]) < recs.len()
        && edge_placement_laws::forward_rel(back[q]) == parts[order[q]].0 && edge_placement_laws::forward_rel(recs[order[q]])
        == parts[order[q]].0 && back[q].payload == wire::put32(
        edge_placement_laws::rels_before(recs, parts[order[q]].0, order[q] as nat) as u32,
    ) && edge_placement_laws::rels_before(recs, parts[order[q]].0, order[q] as nat) <= 0xffff_ffff by {
        lemma_parts(back, turned(parts, order), q);
        lemma_parts(recs, parts, order[q]);
    }
}

/// The edge at `q` of the reverse run points back: its target is its source,
/// and beside it stands its position among the edges of its table.
pub proof fn lemma_reverse_csr_points_back(
    g: Seq<RelTableGeometry>,
    recs: Seq<RecordView>,
    parts: Seq<EdgeParts>,
    q: int,
)
    requires
        is_forward_run(g, recs, parts),
        csr_pass::forward_after(g, recs, recs.len()) is Ok,
        csr_pass::reverse_after(g, reverse_run(g, recs), recs.len()) is Ok,
        0 <= q < recs.len(),
    ensures
        ({
            let v = csr_pass::reverse_after(g, reverse_run(g, recs), recs.len())->Ok_0;
            let m = turned_from(g, recs, q);
            &&& 0 <= m < recs.len()
            &&& v.targets.len() == recs.len()
            &&& v.positions.len() == recs.len()
            &&& edge_placement_laws::forward_rel(reverse_run(g, recs)[q]) == parts[m].0
            &&& v.targets[q] == parts[m].1
            &&& v.positions[q] == edge_placement_laws::rels_before(recs, parts[m].0, m as nat)
            &&& v.positions[q] < edge_placement_laws::rels_before(recs, parts[m].0, recs.len())
        }),
{
    let back = reverse_run(g, recs);
    let order = sorting::stable_order(
        runs::record_keys(csr_pass::forward_after(g, recs, recs.len())->Ok_0.reverse),
    );
    let m = order[q];
    lemma_reverse_run(g, recs, parts);
    assert(0 <= order[q] < recs.len());
    lemma_reverse_after(g, back, turned(parts, order), recs.len());
    let v = csr_pass::reverse_after(g, back, recs.len())->Ok_0;
    let pos = edge_placement_laws::rels_before(recs, parts[m].0, m as nat);
    assert(back[q].payload.subrange(0, 4) =~= wire::put32(pos as u32));
    assert(v.positions[q] == wire::u32_at(back[q].payload, 0));
    assert(v.targets[q] == turned(parts, order)[q].2);
    edge_placement_laws::lemma_rels_grow(recs, parts[m].0, (m + 1) as nat, recs.len());
    assert(edge_placement_laws::rels_before(recs, parts[m].0, (m + 1) as nat) == pos + 1);
}

/// The edge with a given position in its table.
proof fn lemma_edge_at_position(recs: Seq<RecordView>, t: u16, pos: int, k: nat) -> (m: int)
    requires
        k <= recs.len(),
        0 <= pos < edge_placement_laws::rels_before(recs, t, k),
    ensures
        0 <= m < k,
        edge_placement_laws::forward_rel(recs[m]) == t,
        edge_placement_laws::rels_before(recs, t, m as nat) == pos,
    decreases k,
{
    let j = (k - 1) as nat;
    if pos < edge_placement_laws::rels_before(recs, t, j) {
        lemma_edge_at_position(recs, t, pos, j)
    } else {
        j as int
    }
}

/// The positions of a table in the reverse arrays are a permutation: every
/// position of an edge of the table stands there, and stands there once.
pub proof fn lemma_reverse_positions_permute(
    g: Seq<RelTableGeometry>,
    recs: Seq<RecordView>,
    parts: Seq<EdgeParts>,
    t: u16,
    pos: int,
)
    requires
        is_forward_run(g, recs, parts),
        csr_pass::forward_after(g, recs, recs.len()) is Ok,
        csr_pass::reverse_after(g, reverse_run(g, recs), recs.len()) is Ok,
        0 <= pos < edge_placement_laws::rels_before(recs, t, recs.len()),
    ensures
        ({
            let v = csr_pass::reverse_after(g, reverse_run(g, recs), recs.len())->Ok_0;
            let back = reverse_run(g, recs);
            &&& exists|q: int|
                0 <= q < recs.len() && edge_placement_laws::forward_rel(#[trigger] back[q]) == t && v.positions[q] == pos
            &&& forall|q1: int, q2: int|
                0 <= q1 < recs.len() && 0 <= q2 < recs.len() && edge_placement_laws::forward_rel(#[trigger] back[q1])
                    == t && edge_placement_laws::forward_rel(#[trigger] back[q2]) == t && v.positions[q1] == pos
                    && v.positions[q2] == pos ==> q1 == q2
        }),
{
    let v = csr_pass::reverse_after(g, reverse_run(g, recs), recs.len())->Ok_0;
    let back = reverse_run(g, recs);
    let order = sorting::stable_order(
        runs::record_keys(csr_pass::forward_after(g, recs, recs.len())->Ok_0.reverse),
    );
    lemma_reverse_run(g, recs, parts);
    let m = lemma_edge_at_position(recs, t, pos, recs.len());
    lemma_parts(recs, parts, m);
    assert(order.contains(m));
    let q = choose|q: int| 0 <= q < order.len() && order[q] == m;
    lemma_reverse_csr_points_back(g, recs, parts, q);
    assert(edge_placement_laws::forward_rel(back[q]) == t && v.positions[q] == pos);
    assert forall|q1: int, q2: int|
        0 <= q1 < recs.len() && 0 <= q2 < recs.len() && edge_placement_laws::forward_rel(#[trigger] back[q1]) == t
            && edge_placement_laws::forward_rel(#[trigger] back[q2]) == t && v.positions[q1] == pos && v.positions[q2]
            == pos implies q1 == q2 by {
        lemma_reverse_csr_points_back(g, recs, parts, q1);
        lemma_reverse_csr_points_back(g, recs, parts, q2);
        lemma_parts(recs, parts, order[q1]);
        lemma_parts(recs, parts, order[q2]);
        if order[q1] < order[q2] {
            edge_placement_laws::lemma_rels_grow(recs, t, (order[q1] + 1) as nat, order[q2] as nat);
        } else if order[q2] < order[q1] {
            edge_placement_laws::lemma_rels_grow(recs, t, (order[q2] + 1) as nat, order[q1] as nat);
        }
    }
}

/// The offsets of the reverse arrays count, for a table that has an edge, its
/// edges to earlier rows; tables without an edge have no offsets.
pub proof fn lemma_reverse_csr_counts_the_edges(
    g: Seq<RelTableGeometry>,
    recs: Seq<RecordView>,
    parts: Seq<EdgeParts>,
    t: u16,
    r: int,
)
    requires
        is_forward_run(g, recs, parts),
        forall|m: int|
            0 <= m < parts.len() ==> (#[trigger] parts[m]).2 < g[parts[m].0 as int].dst_rows,
        csr_pass::forward_after(g, recs, recs.len()) is Ok,
        csr_pass::reverse_after(g, reverse_run(g, recs), recs.len()) is Ok,
    ensures
        ({
            let back = reverse_run(g, recs);
            let offsets = csr_pass::closed_offsets(csr_pass::reverse_after(g, back, recs.len())->Ok_0.offsets);
            &&& offsets.len() == csr_laws::offset_start(dst_rows(g), back, g.len() as int)
            &&& csr_laws::table_seen(back, t as int) && 0 <= r <= g[t as int].dst_rows
                ==> offsets[csr_laws::offset_start(dst_rows(g), back, t as int) + r] == csr_laws::rows_before(
                back,
                t,
                r,
                recs.len(),
            )
        }),
{
    let back = reverse_run(g, recs);
    let order = sorting::stable_order(
        runs::record_keys(csr_pass::forward_after(g, recs, recs.len())->Ok_0.reverse),
    );
    lemma_reverse_run(g, recs, parts);
    lemma_reverse_after(g, back, turned(parts, order), recs.len());
    assert forall|q: int| 0 <= q < back.len() implies edge_placement_laws::forward_rel(#[trigger] back[q]) < dst_rows(
        g,
    ).len() && csr_laws::edge_row_at(back[q]) < dst_rows(g)[edge_placement_laws::forward_rel(back[q]) as int] by {
        assert(0 <= order[q] < recs.len());
        lemma_parts(back, turned(parts, order), q);
        assert(parts[order[q]].0 < g.len());
        assert(parts[order[q]].2 < g[parts[order[q]].0 as int].dst_rows);
    }
    csr_laws::lemma_offsets_of_the_seen(dst_rows(g), back);
    if csr_laws::table_seen(back, t as int) && 0 <= r <= g[t as int].dst_rows {
        let a = choose|a: int| 0 <= a < back.len() && edge_placement_laws::forward_rel(#[trigger] back[a]) == t;
        assert(t < dst_rows(g).len());
        csr_laws::lemma_offsets_count_the_edges(dst_rows(g), back, t, r);
    }
}

// -------------------------------------------------------------------- plan

/// The parts of the edges in the order of the forward run.
pub open spec fn forward_parts(p: PlanView, edges: Seq<EdgeRecord>) -> Seq<EdgeParts> {
    let index = p.nodes.index;
    let keys = p.edges.keys;
    Seq::new(
        edges.len(),
        |m: int|
            {
                let e = edges[edge_placement_laws::edge_of_forward(index, keys, edges, m)];
                (
                    keys.index_of(edge_placement_laws::edge_table(index, e)) as u16,
                    edge_placement_laws::indexed_place(index, e.src).1,
                    edge_placement_laws::indexed_place(index, e.dst).1,
                    e.id,
                )
            },
    )
}

/// The parts with source and destination turned round, in another order.
spec fn turned(parts: Seq<EdgeParts>, order: Seq<int>) -> Seq<EdgeParts> {
    Seq::new(
        parts.len(),
        |q: int|
            (parts[order[q]].0, parts[order[q]].2, parts[order[q]].1, parts[order[q]].3),
    )
}

/// The row counts on both sides of a plan's tables.
spec fn plan_geometries(p: PlanView) -> Seq<RelTableGeometry> {
    adjacency::rel_geometries(p.edges.keys, p.nodes.counts, p.edges.keys.len())->Ok_0
}

/// The row counts of relationship tables are those of their node tables.
pub proof fn lemma_rel_geometries(keys: Seq<RelKey>, counts: Seq<u64>, k: nat)
    requires
        k <= keys.len(),
        adjacency::rel_geometries(keys, counts, k) is Ok,
    ensures
        adjacency::rel_geometries(keys, counts, k)->Ok_0.len() == k,
        forall|t: int|
            0 <= t < k ==> (#[trigger] keys[t]).1 < counts.len() && keys[t].2 < counts.len()
                && adjacency::rel_geometries(keys, counts, k)->Ok_0[t].src_rows == counts[keys[t].1 as int]
                && adjacency::rel_geometries(keys, counts, k)->Ok_0[t].dst_rows == counts[keys[t].2 as int],
    decreases k,
{
    if k > 0 {
        assert(adjacency::rel_geometries(keys, counts, (k - 1) as nat) is Ok);
        lemma_rel_geometries(keys, counts, (k - 1) as nat);
    }
}

/// The forward run of a plan is sound.
proof fn lemma_forward_sound(
    nodes: Seq<NodeRecord>,
    edges: Seq<EdgeRecord>,
    decls: Seq<DeclRecord>,
    p: PlanView,
)
    requires
        placement_laws::nodes_valid(nodes),
        edge_placement_laws::edges_valid(edges),
        orchestrator::planned(nodes, edges, decls) == Ok::<PlanView, GenerationError>(p),
    ensures
        ({
            let f = p.edges.forward;
            let g = plan_geometries(p);
            let parts = forward_parts(p, edges);
            &&& p.edges.keys.len() <= 0x1_0000
            &&& g.len() == p.edges.keys.len()
            &&& f.len() == edges.len()
            &&& keys_spell(f, parts)
            &&& run_sound(src_rows(g), f)
            &&& rows_fit(dst_rows(g))
            &&& csr_laws::run_counts(f, g.len(), p.edges.counts)
            &&& forall|m: int|
                0 <= m < edges.len() ==> (#[trigger] parts[m]).2 < dst_rows(g)[parts[m].0 as int]
        }),
{
    let f = p.edges.forward;
    let g = plan_geometries(p);
    let keys = p.edges.keys;
    let parts = forward_parts(p, edges);
    let index = p.nodes.index;
    edge_placement_laws::lemma_edges_are_placed(p.nodes, edges, decls, p.edges);
    runs::lemma_sorted_records(edge_placement_laws::edges_forward(index, keys, edges));
    lemma_rel_geometries(keys, p.nodes.counts, keys.len());
    csr_laws::lemma_edge_counts(f, keys.len(), f.len());
    assert forall|m: int| 0 <= m < f.len() implies (#[trigger] f[m]).key == parts_key(
        parts[m],
    ) by {
        assert(edge_placement_laws::edge_placed(index, keys, edges, f, m));
    }
    lemma_run_sorted(f, parts);
    assert forall|m: int| 0 <= m < f.len() implies edge_placement_laws::forward_rel(#[trigger] f[m]) < g.len()
        && csr_laws::edge_row_at(f[m]) < src_rows(g)[edge_placement_laws::forward_rel(f[m]) as int] && parts[m].2 < dst_rows(
        g,
    )[parts[m].0 as int] by {
        assert(edge_placement_laws::edge_placed(index, keys, edges, f, m));
        lemma_parts(f, parts, m);
        let e = edges[edge_placement_laws::edge_of_forward(index, keys, edges, m)];
        let t = keys.index_of(edge_placement_laws::edge_table(index, e));
        assert(keys[t] == edge_placement_laws::edge_table(index, e));
        placement_laws::lemma_indexed_place(nodes, p.nodes, e.src);
        placement_laws::lemma_indexed_place(nodes, p.nodes, e.dst);
    }
    assert forall|t: int| 0 <= t < g.len() implies #[trigger] csr_laws::table_seen(f, t) by {
        let m = edge_placement_laws::lemma_table_has_an_edge(p.nodes, edges, decls, p.edges, t);
        assert(edge_placement_laws::forward_rel(f[m]) == t);
    }
    assert forall|m: int| 0 <= m < edges.len() implies (#[trigger] parts[m]).2 < dst_rows(
        g,
    )[parts[m].0 as int] by {
        assert(edge_placement_laws::forward_rel(f[m]) < g.len());
    }
    let a = adjacency::adjacency_arrays(g, f)->Ok_0;
    assert(adjacency::arrays_fit(g, p.edges.counts, a));
    assert forall|t: int| 0 <= t < g.len() implies (#[trigger] src_rows(g)[t]) <= 0xffff_ffff by {
        assert(g[t].src_rows <= 0xffff_ffff);
    }
    assert forall|t: int| 0 <= t < g.len() implies (#[trigger] dst_rows(g)[t]) <= 0xffff_ffff by {
        assert(g[t].src_rows <= 0xffff_ffff);
    }
}

/// The reverse run of a plan is sound.
proof fn lemma_reverse_sound(
    g: Seq<RelTableGeometry>,
    f: Seq<RecordView>,
    parts: Seq<EdgeParts>,
    counts: Seq<u64>,
    staged: Seq<RecordView>,
)
    requires
        keys_spell(f, parts),
        run_sound(src_rows(g), f),
        rows_fit(dst_rows(g)),
        g.len() <= 0x1_0000,
        csr_laws::run_counts(f, g.len(), counts),
        staged.len() == f.len(),
        forall|m: int|
            0 <= m < f.len() ==> (#[trigger] parts[m]).2 < dst_rows(g)[parts[m].0 as int],
        forall|m: int|
            0 <= m < f.len() ==> (#[trigger] staged[m]).key == csr_pass::edge_key(
                parts[m].0,
                parts[m].2,
                parts[m].1,
                parts[m].3,
            ),
    ensures
        ({
            let order = sorting::stable_order(runs::record_keys(staged));
            let r = runs::sorted_records(staged);
            &&& keys_spell(r, turned(parts, order))
            &&& run_sound(dst_rows(g), r)
            &&& csr_laws::run_counts(r, g.len(), counts)
        }),
{
    let order = sorting::stable_order(runs::record_keys(staged));
    let r = runs::sorted_records(staged);
    let back = turned(parts, order);
    runs::lemma_sorted_records(staged);
    sorting::lemma_stable_order(runs::record_keys(staged));
    assert forall|q: int| 0 <= q < r.len() implies (#[trigger] r[q]).key == parts_key(back[q]) by {
        assert(r[q] == staged[order[q]]);
    }
    lemma_run_sorted(r, back);
    assert forall|q: int| 0 <= q < r.len() implies 0 <= #[trigger] order[q] < f.len()
        && edge_placement_laws::forward_rel(r[q]) == edge_placement_laws::forward_rel(f[order[q]]) && csr_laws::edge_row_at(r[q])
        == parts[order[q]].2 by {
        lemma_parts(r, back, q);
        lemma_parts(f, parts, order[q]);
    }
    assert forall|q: int| 0 <= q < r.len() implies edge_placement_laws::forward_rel(#[trigger] r[q]) < g.len()
        && csr_laws::edge_row_at(r[q]) < dst_rows(g)[edge_placement_laws::forward_rel(r[q]) as int] by {
        let m = order[q];
        lemma_parts(f, parts, m);
        assert(edge_placement_laws::forward_rel(f[m]) < g.len());
        assert(parts[m].2 < dst_rows(g)[parts[m].0 as int]);
    }
    assert forall|t: int| 0 <= t < g.len() implies #[trigger] csr_laws::table_seen(r, t) by {
        assert(csr_laws::table_seen(f, t));
        let m = choose|m: int| 0 <= m < f.len() && edge_placement_laws::forward_rel(#[trigger] f[m]) == t;
        assert(order.contains(m));
        let q = choose|q: int| 0 <= q < order.len() && order[q] == m;
        assert(0 <= order[q] < f.len());
        assert(edge_placement_laws::forward_rel(r[q]) == t);
    }
    assert forall|t: int| 0 <= t < g.len() implies (#[trigger] counts[t]) == edge_placement_laws::rels_before(
        r,
        t as u16,
        r.len(),
    ) by {
        csr_laws::lemma_reordered_counts(f, r, order, t as u16);
    }
}

/// The edge at `m` of the forward run stands in the adjacency of its table:
/// among those of its source, with its destination as target, and among those
/// that lead to its destination, with its source as target and its position
/// beside it.
pub open spec fn edge_connects(p: PlanView, edges: Seq<EdgeRecord>, m: int) -> bool {
    let e = edges[edge_placement_laws::edge_of_forward(p.nodes.index, p.edges.keys, edges, m)];
    let t = edge_placement_laws::forward_rel(p.edges.forward[m]);
    let pos = edge_placement_laws::place_of_forward(p.edges.forward, m).1;
    let from = edge_placement_laws::indexed_place(p.nodes.index, e.src);
    let to = edge_placement_laws::indexed_place(p.nodes.index, e.dst);
    let a = p.adjacency[t as int];
    &&& edge_listed(a.fwd, from.1, pos as int, to.1)
    &&& a.bwd.edge_data is Some
    &&& exists|q: int|
        #[trigger] edge_listed(a.bwd, to.1, q, from.1) && q < a.bwd.edge_data->0.len()
            && a.bwd.edge_data->0[q] == pos
}

/// Every edge of a plan leads, in the adjacency of its table, from its
/// source's row to its destination's, and from its destination's row back to
/// its source's with its position; a table has as many targets as edges.
#[verifier::spinoff_prover]
#[verifier::rlimit(60)]
pub proof fn lemma_plan_adjacency_is_the_edges(
    nodes: Seq<NodeRecord>,
    edges: Seq<EdgeRecord>,
    decls: Seq<DeclRecord>,
    p: PlanView,
    m: int,
)
    requires
        placement_laws::nodes_valid(nodes),
        edge_placement_laws::edges_valid(edges),
        orchestrator::planned(nodes, edges, decls) == Ok::<PlanView, GenerationError>(p),
        0 <= m < edges.len(),
    ensures
        edge_connects(p, edges, m),
        p.adjacency[edge_placement_laws::forward_rel(p.edges.forward[m]) as int].fwd.targets.len() == edge_placement_laws::rels_before(
            p.edges.forward,
            edge_placement_laws::forward_rel(p.edges.forward[m]),
            edges.len(),
        ),
{
    let f = p.edges.forward;
    let g = plan_geometries(p);
    let parts = forward_parts(p, edges);
    let counts = p.edges.counts;
    lemma_forward_sound(nodes, edges, decls, p);
    let w = csr_pass::forward_after(g, f, f.len())->Ok_0;
    lemma_forward_after(g, f, parts, f.len());
    let r = runs::sorted_records(w.reverse);
    let order = sorting::stable_order(runs::record_keys(w.reverse));
    let back = turned(parts, order);
    sorting::lemma_stable_order(runs::record_keys(w.reverse));
    runs::lemma_sorted_records(w.reverse);
    lemma_reverse_sound(g, f, parts, counts, w.reverse);
    lemma_reverse_after(g, r, back, r.len());
    let v = csr_pass::reverse_after(g, r, r.len())->Ok_0;
    let arrays = adjacency::adjacency_arrays(g, f)->Ok_0;
    assert(adjacency::arrays_fit(g, counts, arrays));
    assert(adjacency::src_lens(g) =~= csr_laws::offset_lens(src_rows(g)));
    assert(adjacency::dst_lens(g) =~= csr_laws::offset_lens(dst_rows(g)));
    lemma_edge_listed(src_rows(g), f, parts, counts, arrays.fwd_offsets, arrays.fwd_targets, m);
    lemma_parts(f, parts, m);
    assert(order.contains(m));
    let q = choose|q: int| 0 <= q < order.len() && order[q] == m;
    lemma_edge_listed(dst_rows(g), r, back, counts, arrays.rev_offsets, arrays.rev_targets, q);
    lemma_parts(r, back, q);
    let t = parts[m].0 as int;
    let at = edge_placement_laws::rels_before(r, parts[m].0, q as nat) as int;
    let pos = edge_placement_laws::rels_before(f, parts[m].0, m as nat) as int;
    lemma_cut_at(arrays.positions, counts, t, at);
    assert(r[q] == w.reverse[m]);
    assert(r[q].payload.subrange(0, 4) =~= wire::put32(pos as u32));
    assert(v.positions[q] == pos);
    let a = p.adjacency[t];
    assert(edge_listed(a.fwd, parts[m].1, pos, parts[m].2));
    assert(edge_listed(a.bwd, parts[m].2, at, parts[m].1));
    assert(counts[t] == edge_placement_laws::rels_before(f, t as u16, f.len()));
}

/// The offsets of a plan's adjacency ascend, one way and the other, to the
/// number of edges of the table.
#[verifier::spinoff_prover]
#[verifier::rlimit(30)]
pub proof fn lemma_plan_offsets_shaped(
    nodes: Seq<NodeRecord>,
    edges: Seq<EdgeRecord>,
    decls: Seq<DeclRecord>,
    p: PlanView,
    t: int,
)
    requires
        placement_laws::nodes_valid(nodes),
        edge_placement_laws::edges_valid(edges),
        orchestrator::planned(nodes, edges, decls) == Ok::<PlanView, GenerationError>(p),
        0 <= t < p.edges.keys.len(),
    ensures
        v5_read::csr_shaped(p.adjacency[t].fwd.offsets, p.edges.counts[t] as int),
        v5_read::csr_shaped(p.adjacency[t].bwd.offsets, p.edges.counts[t] as int),
{
    let f = p.edges.forward;
    let g = plan_geometries(p);
    let parts = forward_parts(p, edges);
    let counts = p.edges.counts;
    lemma_forward_sound(nodes, edges, decls, p);
    let w = csr_pass::forward_after(g, f, f.len())->Ok_0;
    lemma_forward_after(g, f, parts, f.len());
    let r = runs::sorted_records(w.reverse);
    let order = sorting::stable_order(runs::record_keys(w.reverse));
    sorting::lemma_stable_order(runs::record_keys(w.reverse));
    runs::lemma_sorted_records(w.reverse);
    lemma_reverse_sound(g, f, parts, counts, w.reverse);
    lemma_reverse_after(g, r, turned(parts, order), r.len());
    let arrays = adjacency::adjacency_arrays(g, f)->Ok_0;
    assert(adjacency::arrays_fit(g, counts, arrays));
    assert(adjacency::src_lens(g) =~= csr_laws::offset_lens(src_rows(g)));
    assert(adjacency::dst_lens(g) =~= csr_laws::offset_lens(dst_rows(g)));
    lemma_table_shaped(src_rows(g), f, counts, arrays.fwd_offsets, t as u16);
    lemma_table_shaped(dst_rows(g), r, counts, arrays.rev_offsets, t as u16);
}

} // verus!
