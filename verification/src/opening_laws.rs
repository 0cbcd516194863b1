//! What a build writes opens as what the build was given.

use crate::adjacency;
use crate::adjacency_laws;
use crate::bounded_emit;
use crate::built_laws;
use crate::built_zone_laws;
use crate::column_laws;
use crate::edge_placement_laws;
use crate::emit_columns::CellsView;
use crate::emit_ids;
use crate::error::FormatError;
use crate::faults;
use crate::generation::GenerationError;
use crate::id_index::IdEntry;
use crate::id_index;
use crate::intern::StringCodeOrder;
use crate::intern;
use crate::label_membership::LabelMembership;
use crate::layout_laws;
use crate::membership_pass;
use crate::node_pass;
use crate::orchestrator::{BitmapRow, GenerationPlan, PlanView};
use crate::orchestrator;
use crate::payload;
use crate::placement_laws;
use crate::plan_laws;
use crate::presence::BitmapRecord;
use crate::presence;
use crate::records::{DeclRecord, EdgeRecord, NodeRecord};
use crate::records;
use crate::runs::RecordView;
use crate::runs;
use crate::sorting;
use crate::stages::NodeStageView;
use crate::stages;
use crate::staging;
use crate::tables::{ColumnView, StoreView};
use crate::tables;
use crate::text::own;
use crate::text;
use crate::v5_parts_laws;
use crate::v5_read::MappedStoreView;
use crate::v5_read;
use crate::value::ZoneView;
use crate::wire;
use crate::zone_laws;
use vstd::prelude::*;

verus! {

// --------------------------------------------------------------- adjacency

/// The adjacency of a plan's tables fits the tables.
pub open spec fn adjacency_fits(p: PlanView) -> bool {
    &&& p.nodes.counts.len() == p.nodes.labels.len()
    &&& p.adjacency.len() == p.edges.keys.len()
    &&& forall|t: int|
        0 <= t < p.edges.keys.len() ==> {
            let k = #[trigger] p.edges.keys[t];
            let a = p.adjacency[t];
            &&& k.1 < p.nodes.labels.len()
            &&& k.2 < p.nodes.labels.len()
            &&& a.fwd.offsets.len() == p.nodes.counts[k.1 as int] + 1
            &&& a.bwd.offsets.len() == p.nodes.counts[k.2 as int] + 1
            &&& a.bwd.targets.len() == a.fwd.targets.len()
            &&& v5_read::csr_shaped(a.fwd.offsets, a.fwd.targets.len() as int)
            &&& v5_read::csr_shaped(a.bwd.offsets, a.bwd.targets.len() as int)
            &&& a.bwd.edge_data matches Some(w) && w.len() == a.bwd.targets.len()
        }
}

proof fn lemma_split_row_len(all: Seq<u32>, lens: Seq<u64>, t: int)
    requires
        adjacency::rows_fill(all, lens),
        0 <= t < lens.len(),
    ensures
        adjacency::split_rows(all, lens)[t].len() == lens[t],
{
    adjacency::lemma_row_start_grows(lens, 0, t);
    adjacency::lemma_row_start_grows(lens, t + 1, lens.len() as int);
    assert(adjacency::row_start(lens, t + 1) == adjacency::row_start(lens, t) + lens[t]);
}

/// Edges are counted for every table.
pub proof fn lemma_edge_counts_tables(recs: Seq<RecordView>, tables: nat, k: nat)
    requires
        emit_ids::edge_counts(recs, tables, k) is Ok,
    ensures
        emit_ids::edge_counts(recs, tables, k)->Ok_0.len() == tables,
    decreases k,
{
    if k > 0 {
        assert(emit_ids::edge_counts(recs, tables, (k - 1) as nat) is Ok);
        lemma_edge_counts_tables(recs, tables, (k - 1) as nat);
    }
}

/// The adjacency of a plan fits its tables: every relationship table has both
/// its node tables, an offset more than either has rows, and as many targets
/// one way as the other.
pub proof fn lemma_plan_adjacency_fits(
    nodes: Seq<NodeRecord>,
    edges: Seq<EdgeRecord>,
    decls: Seq<DeclRecord>,
    p: PlanView,
)
    requires
        placement_laws::nodes_valid(nodes),
        edge_placement_laws::edges_valid(edges),
        orchestrator::planned(nodes, edges, decls) == Ok::<PlanView, GenerationError>(p),
    ensures
        adjacency_fits(p),
{
    let recs = runs::sorted_records(node_pass::staged_node_rows(nodes));
    node_pass::lemma_walk_counts_tables(node_pass::label_listing(nodes), recs, recs.len());
    let keys = p.edges.keys;
    let counts = p.nodes.counts;
    let rel_counts = p.edges.counts;
    lemma_edge_counts_tables(p.edges.forward, keys.len(), p.edges.forward.len());
    adjacency_laws::lemma_rel_geometries(keys, counts, keys.len());
    let g = adjacency::rel_geometries(keys, counts, keys.len())->Ok_0;
    let a = adjacency::adjacency_arrays(g, p.edges.forward)->Ok_0;
    assert(p.adjacency == adjacency::cut_adjacency(g, rel_counts, a));
    assert forall|t: int| 0 <= t < keys.len() implies {
        let k = #[trigger] keys[t];
        let x = p.adjacency[t];
        &&& k.1 < p.nodes.labels.len()
        &&& k.2 < p.nodes.labels.len()
        &&& x.fwd.offsets.len() == counts[k.1 as int] + 1
        &&& x.bwd.offsets.len() == counts[k.2 as int] + 1
        &&& x.bwd.targets.len() == x.fwd.targets.len()
        &&& v5_read::csr_shaped(x.fwd.offsets, x.fwd.targets.len() as int)
        &&& v5_read::csr_shaped(x.bwd.offsets, x.bwd.targets.len() as int)
        &&& x.bwd.edge_data matches Some(w) && w.len() == x.bwd.targets.len()
    } by {
        assert(g[t].src_rows <= 0xffff_ffff);
        lemma_split_row_len(a.fwd_offsets, adjacency::src_lens(g), t);
        lemma_split_row_len(a.rev_offsets, adjacency::dst_lens(g), t);
        lemma_split_row_len(a.fwd_targets, rel_counts, t);
        lemma_split_row_len(a.rev_targets, rel_counts, t);
        adjacency_laws::lemma_plan_offsets_shaped(nodes, edges, decls, p, t);
        lemma_split_row_len(a.positions, rel_counts, t);
    }
}

// ------------------------------------------------------------------- store

proof fn lemma_column_map_values<V>(
    cells: Seq<CellsView>,
    vals: Seq<V>,
    table: int,
    k: nat,
    key: Seq<char>,
)
    requires
        orchestrator::column_map(cells, vals, table, k).dom().contains(key),
    ensures
        exists|c: int|
            0 <= c < k && orchestrator::column_map(cells, vals, table, k)[key] == #[trigger] vals[c],
    decreases k,
{
    if k > 0 {
        if cells[k - 1].table_id == table && cells[k - 1].key == key {
            assert(orchestrator::column_map(cells, vals, table, k)[key] == vals[k - 1]);
        } else {
            lemma_column_map_values(cells, vals, table, (k - 1) as nat, key);
            let c = choose|c: int|
                0 <= c < k - 1 && orchestrator::column_map(cells, vals, table, (k - 1) as nat)[key]
                    == #[trigger] vals[c];
            assert(orchestrator::column_map(cells, vals, table, k)[key] == vals[c]);
        }
    }
}

/// What a table lists is what some column gave it.
proof fn lemma_listed_value<V>(
    x: Seq<(Seq<char>, V)>,
    cells: Seq<CellsView>,
    vals: Seq<V>,
    table: int,
    k: nat,
    i: int,
)
    requires
        orchestrator::lists_map(x, orchestrator::column_map(cells, vals, table, k)),
        0 <= i < x.len(),
    ensures
        exists|c: int| 0 <= c < k && x[i].1 == #[trigger] vals[c],
{
    let keys = Seq::new(x.len(), |j: int| x[j].0);
    let own = Seq::new(x.len(), |j: int| x[j].1);
    let m = orchestrator::column_map(cells, vals, table, k);
    let key = x[i].0;
    assert(keys[i] == key);
    assert(keys.contains(key));
    let at = keys.index_of(key);
    assert(keys[at] == key);
    text::lemma_ascending_distinct(keys, at, i);
    assert(text::text_map_of(keys, own).dom().contains(key));
    assert(m[key] == own[i]);
    lemma_column_map_values(cells, vals, table, k, key);
}

/// Encoded columns that carry their encoding number and can be counted.
pub open spec fn columns_encoded(codecs: Seq<ColumnView>, blocks: Seq<Seq<ZoneView>>, n: nat) -> bool {
    &&& codecs.len() == n
    &&& blocks.len() == n
    &&& forall|c: int|
        0 <= c < n ==> v5_parts_laws::column_tagged(#[trigger] codecs[c]) && tables::column_rows(codecs[c]) <= u32::MAX
    &&& forall|c: int| 0 <= c < n ==> (#[trigger] blocks[c]).len() <= u32::MAX
}

proof fn lemma_listed_columns_tagged(
    x: Seq<(Seq<char>, ColumnView)>,
    cells: Seq<CellsView>,
    codecs: Seq<ColumnView>,
    blocks: Seq<Seq<ZoneView>>,
    table: int,
)
    requires
        columns_encoded(codecs, blocks, cells.len()),
        orchestrator::lists_map(x, orchestrator::column_map(cells, codecs, table, cells.len())),
    ensures
        v5_parts_laws::columns_tagged(x),
{
    assert forall|i: int| 0 <= i < x.len() implies v5_parts_laws::column_tagged((#[trigger] x[i]).1)
        && tables::column_rows(x[i].1) <= u32::MAX by {
        lemma_listed_value(x, cells, codecs, table, cells.len(), i);
        let c = choose|c: int| 0 <= c < cells.len() && x[i].1 == #[trigger] codecs[c];
        assert(v5_parts_laws::column_tagged(codecs[c]));
    }
}

proof fn lemma_listed_blocks_countable(
    x: Seq<(Seq<char>, Seq<ZoneView>)>,
    cells: Seq<CellsView>,
    codecs: Seq<ColumnView>,
    blocks: Seq<Seq<ZoneView>>,
    table: int,
    i: int,
)
    requires
        columns_encoded(codecs, blocks, cells.len()),
        orchestrator::lists_map(x, orchestrator::column_map(cells, blocks, table, cells.len())),
        0 <= i < x.len(),
    ensures
        x[i].1.len() <= u32::MAX,
{
    lemma_listed_value(x, cells, blocks, table, cells.len(), i);
    let c = choose|c: int| 0 <= c < cells.len() && x[i].1 == #[trigger] blocks[c];
    assert(blocks[c].len() <= u32::MAX);
}

/// The store of a plan fits together.
pub proof fn lemma_built_store_is_sound(
    p: PlanView,
    codecs: Seq<ColumnView>,
    blocks: Seq<Seq<ZoneView>>,
    s: StoreView,
)
    requires
        adjacency_fits(p),
        p.nodes.labels.len() <= p.base,
        p.nodes.labels.len() <= 0x8000,
        p.edges.keys.len() <= 0x8000,
        columns_encoded(codecs, blocks, p.cells.len()),
        orchestrator::built_store(p, codecs, blocks, s),
    ensures
        built_laws::build_sound(s),
{
    let v = built_zone_laws::numbered_tables(s);
    let nn = s.nodes.len() as int;
    assert forall|t: int| 0 <= t < s.nodes.len() implies v5_parts_laws::columns_tagged(
        (#[trigger] s.nodes[t]).columns,
    ) by {
        assert(orchestrator::node_built(p, codecs, blocks, t, s.nodes[t]));
        lemma_listed_columns_tagged(s.nodes[t].columns, p.cells, codecs, blocks, t);
    }
    assert forall|t: int| 0 <= t < s.rels.len() implies layout_laws::rel_sound(#[trigger] s.rels[t], s.nodes)
        && s.rels[t].bwd is Some by {
        assert(orchestrator::rel_built(p, codecs, blocks, t, s.rels[t]));
        lemma_listed_columns_tagged(s.rels[t].columns, p.cells, codecs, blocks, p.base + t);
        let k = p.edges.keys[t];
        assert(orchestrator::node_built(p, codecs, blocks, k.1 as int, s.nodes[k.1 as int]));
        assert(orchestrator::node_built(p, codecs, blocks, k.2 as int, s.nodes[k.2 as int]));
    }
    assert forall|k: int| 0 <= k < v.len() implies built_zone_laws::numbered_ascend(#[trigger] v[k]) by {
        if k < nn {
            assert(orchestrator::node_built(p, codecs, blocks, k, s.nodes[k]));
            assert(zone_laws::zone_keys(v[k].zones) =~= Seq::new(
                v[k].zones.len(),
                |i: int| v[k].zones[i].0,
            ));
            assert(zone_laws::block_zone_keys(v[k].blocks) =~= Seq::new(
                v[k].blocks.len(),
                |i: int| v[k].blocks[i].0,
            ));
        } else {
            assert(orchestrator::rel_built(p, codecs, blocks, k - nn, s.rels[k - nn]));
            assert(zone_laws::zone_keys(v[k].zones) =~= Seq::new(
                v[k].zones.len(),
                |i: int| v[k].zones[i].0,
            ));
            assert(zone_laws::block_zone_keys(v[k].blocks) =~= Seq::new(
                v[k].blocks.len(),
                |i: int| v[k].blocks[i].0,
            ));
        }
    }
    assert forall|t: int, c: int| 0 <= t < v.len() && 0 <= c < v[t].blocks.len() implies (
    #[trigger] v[t].blocks[c]).1.len() <= u32::MAX by {
        if t < nn {
            assert(orchestrator::node_built(p, codecs, blocks, t, s.nodes[t]));
            lemma_listed_blocks_countable(s.nodes[t].blocks, p.cells, codecs, blocks, t, c);
        } else {
            assert(orchestrator::rel_built(p, codecs, blocks, t - nn, s.rels[t - nn]));
            lemma_listed_blocks_countable(
                s.rels[t - nn].blocks,
                p.cells,
                codecs,
                blocks,
                p.base + (t - nn),
                c,
            );
        }
    }
}

/// A column's value stands in the map of its table.
pub proof fn lemma_column_map_at<V>(
    cells: Seq<CellsView>,
    vals: Seq<V>,
    k: nat,
    c: int,
)
    requires
        column_laws::columns_distinct(cells),
        0 <= c < k <= cells.len(),
    ensures
        orchestrator::column_map(cells, vals, cells[c].table_id as int, k).dom().contains(cells[c].key),
        orchestrator::column_map(cells, vals, cells[c].table_id as int, k)[cells[c].key] == vals[c],
    decreases k,
{
    if c < k - 1 {
        lemma_column_map_at(cells, vals, (k - 1) as nat, c);
        assert(cells[c].table_id != cells[k - 1].table_id || cells[c].key != cells[k - 1].key);
    }
}

/// What a map holds, its listing has.
pub proof fn lemma_map_is_listed<V>(x: Seq<(Seq<char>, V)>, m: Map<Seq<char>, V>, key: Seq<char>)
    requires
        orchestrator::lists_map(x, m),
        m.dom().contains(key),
    ensures
        x.contains((key, m[key])),
{
    let keys = Seq::new(x.len(), |j: int| x[j].0);
    let vals = Seq::new(x.len(), |j: int| x[j].1);
    assert(text::text_map_of(keys, vals).dom().contains(key));
    let i = keys.index_of(key);
    assert(keys[i] == key);
    assert(x[i] == (key, m[key]));
}

/// Every encoded column of a plan stands in the store: under its key in its
/// table.
pub proof fn lemma_store_holds_every_column(
    p: PlanView,
    codecs: Seq<ColumnView>,
    blocks: Seq<Seq<ZoneView>>,
    s: StoreView,
    c: int,
)
    requires
        column_laws::columns_distinct(p.cells),
        p.nodes.labels.len() <= p.base,
        orchestrator::built_store(p, codecs, blocks, s),
        0 <= c < p.cells.len(),
    ensures
        ({
            let t = p.cells[c].table_id as int;
            let key = p.cells[c].key;
            &&& t < s.nodes.len() ==> s.nodes[t].columns.contains((key, codecs[c]))
                && s.nodes[t].blocks.contains((key, blocks[c])) && (c < p.geometries.len()
                ==> s.nodes[t].zones.contains((key, emit_ids::geometry_zone(p.geometries[c]))))
            &&& p.base <= t < p.base + s.rels.len() ==> s.rels[t - p.base].columns.contains(
                (key, codecs[c]),
            ) && s.rels[t - p.base].blocks.contains((key, blocks[c])) && (c < p.geometries.len()
                ==> s.rels[t - p.base].zones.contains((key, emit_ids::geometry_zone(p.geometries[c]))))
        }),
{
    let t = p.cells[c].table_id as int;
    let key = p.cells[c].key;
    let n = p.cells.len();
    lemma_column_map_at(p.cells, codecs, n, c);
    lemma_column_map_at(p.cells, blocks, n, c);
    let zones = orchestrator::zones_of(p.geometries);
    lemma_column_map_at(p.cells, zones, n, c);
    if t < s.nodes.len() {
        assert(orchestrator::node_built(p, codecs, blocks, t, s.nodes[t]));
        lemma_map_is_listed(s.nodes[t].columns, orchestrator::column_map(p.cells, codecs, t, n), key);
        lemma_map_is_listed(s.nodes[t].blocks, orchestrator::column_map(p.cells, blocks, t, n), key);
        lemma_map_is_listed(s.nodes[t].zones, orchestrator::column_map(p.cells, zones, t, n), key);
    }
    if p.base <= t < p.base + s.rels.len() {
        let r = t - p.base;
        assert(orchestrator::rel_built(p, codecs, blocks, r, s.rels[r]));
        lemma_map_is_listed(s.rels[r].columns, orchestrator::column_map(p.cells, codecs, t, n), key);
        lemma_map_is_listed(s.rels[r].blocks, orchestrator::column_map(p.cells, blocks, t, n), key);
        lemma_map_is_listed(s.rels[r].zones, orchestrator::column_map(p.cells, zones, t, n), key);
    }
}

// -------------------------------------------------------------- companions

/// Bitmap records that belong to some of the first `k` columns, by ascending
/// column.
spec fn rows_of_columns(v: Seq<BitmapRow>, k: nat) -> bool {
    &&& forall|i: int| 0 <= i < v.len() ==> (#[trigger] v[i]).0 < k && v[i].2.len() == v[i].1
    &&& forall|i: int, j: int| 0 <= i < j < v.len() ==> (#[trigger] v[i]).0 < (#[trigger] v[j]).0
}

proof fn lemma_bitmap_rows_of_columns(p: PlanView, k: nat)
    requires
        k <= p.cells.len() <= 0xffff_ffff,
        forall|c: int| 0 <= c < p.cells.len() ==> (#[trigger] p.cells[c]).cells.len() <= u32::MAX,
    ensures
        rows_of_columns(orchestrator::presence_rows(p, k), k),
        rows_of_columns(orchestrator::null_rows(p, k), k),
    decreases k,
{
    if k > 0 {
        lemma_bitmap_rows_of_columns(p, (k - 1) as nat);
        assert(p.cells[k - 1].cells.len() <= u32::MAX);
    }
}

proof fn lemma_bitmaps_sound(v: Seq<BitmapRecord>, k: nat)
    requires
        rows_of_columns(orchestrator::bitmap_rows(v), k),
    ensures
        presence::bitmap_input_ascends(v),
        forall|i: int| 0 <= i < v.len() ==> presence::bitmap_record_fits(#[trigger] v[i]),
{
    let w = orchestrator::bitmap_rows(v);
    assert forall|i: int| 0 <= i < v.len() implies presence::bitmap_record_fits(#[trigger] v[i]) by {
        assert(w[i].2.len() == w[i].1);
    }
    assert forall|i: int, j: int| 0 <= i < j < v.len() implies (#[trigger] v[i]).0 < (
    #[trigger] v[j]).0 by {
        assert(w[i].0 < w[j].0);
    }
}

/// The positions of the nodes with more than one label.
pub open spec fn labelled_again(v: Seq<NodeRecord>) -> Seq<int>
    decreases v.len(),
{
    if v.len() == 0 {
        Seq::empty()
    } else {
        let init = labelled_again(v.drop_last());
        if v.last().labels.len() > 1 {
            init.push(v.len() - 1)
        } else {
            init
        }
    }
}

/// The membership rows are those of the nodes with more than one label, in their
/// order.
pub proof fn lemma_labelled_again(v: Seq<NodeRecord>)
    ensures
        node_pass::staged_membership_rows(v).len() == labelled_again(v).len(),
        forall|a: int|
            0 <= a < labelled_again(v).len() ==> 0 <= (#[trigger] labelled_again(v)[a]) < v.len()
                && v[labelled_again(v)[a]].labels.len() > 1 && node_pass::staged_membership_rows(v)[a]
                == node_pass::membership_row(v[labelled_again(v)[a]]),
        forall|a: int, b: int|
            0 <= a < b < labelled_again(v).len() ==> (#[trigger] labelled_again(v)[a]) < (
            #[trigger] labelled_again(v)[b]),
    decreases v.len(),
{
    if v.len() > 0 {
        let w = v.drop_last();
        lemma_labelled_again(w);
        let l = labelled_again(v);
        let m = labelled_again(w);
        assert forall|a: int| 0 <= a < l.len() implies 0 <= (#[trigger] l[a]) < v.len()
            && v[l[a]].labels.len() > 1 && node_pass::staged_membership_rows(v)[a] == node_pass::membership_row(
            v[l[a]],
        ) by {
            if a < m.len() {
                assert(l[a] == m[a]);
                assert(w[m[a]] == v[m[a]]);
            }
        }
        assert forall|a: int, b: int| 0 <= a < b < l.len() implies (#[trigger] l[a]) < (
        #[trigger] l[b]) by {
            assert(l[a] == m[a]);
            if b < m.len() {
                assert(l[b] == m[b]);
            }
        }
    }
}

/// The position of the node of record `a` of the membership run.
spec fn run_node(v: Seq<NodeRecord>, a: int) -> int {
    labelled_again(v)[sorting::stable_order(runs::record_keys(node_pass::staged_membership_rows(v)))[a]]
}

proof fn lemma_run_nodes(v: Seq<NodeRecord>, a: int)
    requires
        0 <= a < node_pass::staged_membership_rows(v).len(),
    ensures
        0 <= run_node(v, a) < v.len(),
        v[run_node(v, a)].labels.len() > 1,
        runs::sorted_records(node_pass::staged_membership_rows(v)).len() == node_pass::staged_membership_rows(v).len(),
        runs::sorted_records(node_pass::staged_membership_rows(v))[a] == node_pass::membership_row(v[run_node(v, a)]),
        forall|b: int| 0 <= b < a ==> run_node(v, b) != run_node(v, a),
{
    let rows = node_pass::staged_membership_rows(v);
    let order = sorting::stable_order(runs::record_keys(rows));
    lemma_labelled_again(v);
    runs::lemma_sorted_records(rows);
    sorting::lemma_stable_order(runs::record_keys(rows));
    assert(0 <= order[a] < rows.len());
    assert forall|b: int| 0 <= b < a implies run_node(v, b) != run_node(v, a) by {
        assert(0 <= order[b] < rows.len());
        let x = order[a];
        let y = order[b];
        assert(x != y);
        if x < y {
            assert(labelled_again(v)[x] < labelled_again(v)[y]);
        } else {
            assert(labelled_again(v)[y] < labelled_again(v)[x]);
        }
    }
}

/// Different nodes have different places.
pub proof fn lemma_node_places_differ(v: Seq<NodeRecord>, n: NodeStageView, i: int, j: int)
    requires
        placement_laws::nodes_valid(v),
        stages::node_stage(v) == Ok::<NodeStageView, GenerationError>(n),
        0 <= i < v.len(),
        0 <= j < v.len(),
        i != j,
    ensures
        id_index::id_entry_for(n.index, v[i].id) is Some,
        id_index::id_entry_for(n.index, v[j].id) is Some,
        id_index::id_entry_for(n.index, v[i].id) != id_index::id_entry_for(n.index, v[j].id),
{
    placement_laws::lemma_nodes_are_placed(v, n);
    let a = placement_laws::lemma_row_of_node(v, i);
    let b = placement_laws::lemma_row_of_node(v, j);
    assert(id_index::id_entry_for(n.index, v[placement_laws::node_of_row(v, a)].id) == Some(placement_laws::place_of_row(v, a)));
    assert(id_index::id_entry_for(n.index, v[placement_laws::node_of_row(v, b)].id) == Some(placement_laws::place_of_row(v, b)));
    if a < b {
        placement_laws::lemma_places_differ(v, a, b);
    } else {
        placement_laws::lemma_places_differ(v, b, a);
    }
}

/// The membership of a row's label.
spec fn label_membership(
    codes: Map<Seq<char>, u32>,
    table_id: u16,
    offset: u32,
    label: Seq<char>,
) -> LabelMembership {
    LabelMembership { node_table_id: table_id, node_offset: offset, label_code: codes[label] }
}

/// The memberships of a node are its labels, each once.
proof fn lemma_node_memberships(
    codes: Map<Seq<char>, u32>,
    table_id: u16,
    offset: u32,
    labels: Seq<Seq<char>>,
    k: nat,
    w: Seq<LabelMembership>,
)
    requires
        k <= labels.len(),
        membership_pass::node_memberships(codes, table_id, offset, labels, k) == Ok::<
            Seq<LabelMembership>,
            GenerationError,
        >(w),
    ensures
        w == Seq::new(k, |a: int| label_membership(codes, table_id, offset, labels[a])),
        forall|a: int| 0 <= a < k ==> codes.dom().contains(#[trigger] labels[a]),
    decreases k,
{
    if k > 0 {
        let j = (k - 1) as nat;
        assert(membership_pass::node_memberships(codes, table_id, offset, labels, j) is Ok);
        lemma_node_memberships(
            codes,
            table_id,
            offset,
            labels,
            j,
            membership_pass::node_memberships(codes, table_id, offset, labels, j)->Ok_0,
        );
    }
    assert(w =~= Seq::new(k, |a: int| label_membership(codes, table_id, offset, labels[a])));
}

proof fn lemma_labels_ascend(labels: Seq<Seq<char>>, a: int, b: int)
    requires
        records::labels_valid(labels),
        0 <= a < b < labels.len(),
    ensures
        labels[a] != labels[b],
        text::text_lt(labels[a], labels[b]),
    decreases b - a,
{
    if a < b - 1 {
        lemma_labels_ascend(labels, a, b - 1);
        assert(text::text_lt(labels[b - 1], labels[b]));
        wire::lemma_lex_transitive(text::utf8(labels[a]), text::utf8(labels[b - 1]), text::utf8(labels[b]));
    }
    wire::lemma_lex_irreflexive(text::utf8(labels[a]));
}

/// Nodes with labels that can be written, each indexed at a place of its own.
#[verifier::opaque]
spec fn labels_placed(v: Seq<NodeRecord>, index: Seq<IdEntry>) -> bool {
    &&& forall|i: int|
        0 <= i < v.len() ==> records::labels_valid((#[trigger] v[i]).labels) && text::utf8(v[i].labels[0]).len()
            <= 0xffff && (v[i].labels.len() > 1 ==> staging::labels_fault(v[i].labels) is None)
            && id_index::id_entry_for(index, v[i].id) is Some
    &&& forall|i: int, j: int|
        0 <= i < v.len() && 0 <= j < v.len() && i != j ==> id_index::id_entry_for(
            index,
            (#[trigger] v[i]).id,
        ) != id_index::id_entry_for(index, (#[trigger] v[j]).id)
}

proof fn lemma_labels_accepted(v: Seq<NodeRecord>, i: int)
    requires
        faults::first_fault(v.len(), node_pass::node_checks(v)) is None,
        0 <= i < v.len(),
    ensures
        records::labels_valid(v[i].labels),
        v[i].labels.len() > 1 ==> staging::labels_fault(v[i].labels) is None,
{
    faults::lemma_no_fault(v.len(), node_pass::node_checks(v));
    assert(node_pass::node_checks(v)(i) is None);
}

proof fn lemma_labels_placed(v: Seq<NodeRecord>, n: NodeStageView)
    requires
        placement_laws::nodes_valid(v),
        stages::node_stage(v) == Ok::<NodeStageView, GenerationError>(n),
    ensures
        labels_placed(v, n.index),
{
    reveal(labels_placed);
    assert forall|i: int| 0 <= i < v.len() implies records::labels_valid((#[trigger] v[i]).labels) && text::utf8(
        v[i].labels[0],
    ).len() <= 0xffff && (v[i].labels.len() > 1 ==> staging::labels_fault(v[i].labels) is None)
        && id_index::id_entry_for(n.index, v[i].id) is Some by {
        lemma_labels_accepted(v, i);
        placement_laws::lemma_label_fits(v, i);
        placement_laws::lemma_nodes_are_placed(v, n);
        let k = placement_laws::lemma_row_of_node(v, i);
        assert(id_index::id_entry_for(n.index, v[placement_laws::node_of_row(v, k)].id) == Some(placement_laws::place_of_row(v, k)));
    }
    assert forall|i: int, j: int|
        0 <= i < v.len() && 0 <= j < v.len() && i != j implies id_index::id_entry_for(
        n.index,
        (#[trigger] v[i]).id,
    ) != id_index::id_entry_for(n.index, (#[trigger] v[j]).id) by {
        lemma_node_places_differ(v, n, i, j);
    }
}

proof fn lemma_labels_of_node(v: Seq<NodeRecord>, index: Seq<IdEntry>, i: int)
    requires
        labels_placed(v, index),
        0 <= i < v.len(),
    ensures
        records::labels_valid(v[i].labels),
        text::utf8(v[i].labels[0]).len() <= 0xffff,
        v[i].labels.len() > 1 ==> staging::labels_fault(v[i].labels) is None,
        id_index::id_entry_for(index, v[i].id) is Some,
{
    reveal(labels_placed);
}

proof fn lemma_labels_apart(v: Seq<NodeRecord>, index: Seq<IdEntry>, i: int, j: int)
    requires
        labels_placed(v, index),
        0 <= i < v.len(),
        0 <= j < v.len(),
        i != j,
    ensures
        id_index::id_entry_for(index, v[i].id) != id_index::id_entry_for(index, v[j].id),
{
    reveal(labels_placed);
    assert(v[i].id == v[i].id && v[j].id == v[j].id);
}

/// The memberships of a node's record are distinct and stand at its place.
proof fn lemma_record_memberships(
    v: Seq<NodeRecord>,
    index: Seq<IdEntry>,
    dict: Seq<Seq<char>>,
    a: int,
)
    requires
        labels_placed(v, index),
        dict.no_duplicates(),
        dict.len() <= u32::MAX,
        0 <= a < node_pass::staged_membership_rows(v).len(),
        membership_pass::record_memberships(
            index,
            intern::codes_of_texts(dict),
            runs::sorted_records(node_pass::staged_membership_rows(v))[a],
        ) is Ok,
    ensures
        ({
            let w = membership_pass::record_memberships(
                index,
                intern::codes_of_texts(dict),
                runs::sorted_records(node_pass::staged_membership_rows(v))[a],
            )->Ok_0;
            &&& w.no_duplicates()
            &&& forall|i: int|
                0 <= i < w.len() ==> id_index::id_entry_for(index, v[run_node(v, a)].id) == Some(
                    (
                        (#[trigger] w[i]).node_table_id,
                        w[i].node_offset as u64,
                    ),
                )
        }),
{
    let codes = intern::codes_of_texts(dict);
    let rec = runs::sorted_records(node_pass::staged_membership_rows(v))[a];
    lemma_run_nodes(v, a);
    let i = run_node(v, a);
    lemma_labels_of_node(v, index, i);
    staging::lemma_row_key_round_trip(v[i].labels[0], v[i].id);
    staging::lemma_labels_round_trip(v[i].labels);
    let x = id_index::id_entry_for(index, v[i].id)->0;
    let labels = v[i].labels;
    let w = membership_pass::record_memberships(index, codes, rec)->Ok_0;
    assert(membership_pass::node_memberships(codes, x.0, x.1 as u32, labels, labels.len()) == Ok::<
        Seq<LabelMembership>,
        GenerationError,
    >(w));
    lemma_node_memberships(codes, x.0, x.1 as u32, labels, labels.len(), w);
    assert forall|b: int, c: int| 0 <= b < c < w.len() implies w[b] != w[c] by {
        lemma_labels_ascend(labels, b, c);
        assert(dict.contains(labels[b]) && dict.contains(labels[c]));
        assert(dict[dict.index_of(labels[b])] == labels[b]);
        assert(dict[dict.index_of(labels[c])] == labels[c]);
    }
}

/// The memberships of a run are distinct.
proof fn lemma_run_memberships(v: Seq<NodeRecord>, index: Seq<IdEntry>, dict: Seq<Seq<char>>, k: nat)
    requires
        labels_placed(v, index),
        dict.no_duplicates(),
        dict.len() <= u32::MAX,
        k <= node_pass::staged_membership_rows(v).len(),
        membership_pass::run_memberships(
            index,
            intern::codes_of_texts(dict),
            runs::sorted_records(node_pass::staged_membership_rows(v)),
            k,
        ) is Ok,
    ensures
        ({
            let w = membership_pass::run_memberships(
                index,
                intern::codes_of_texts(dict),
                runs::sorted_records(node_pass::staged_membership_rows(v)),
                k,
            )->Ok_0;
            &&& w.no_duplicates()
            &&& forall|i: int|
                0 <= i < w.len() ==> exists|a: int|
                    0 <= a < k && id_index::id_entry_for(index, v[#[trigger] run_node(v, a)].id) == Some(
                        ((#[trigger] w[i]).node_table_id, w[i].node_offset as u64),
                    )
        }),
    decreases k,
{
    let codes = intern::codes_of_texts(dict);
    let recs = runs::sorted_records(node_pass::staged_membership_rows(v));
    if k > 0 {
        let j = (k - 1) as nat;
        assert(membership_pass::run_memberships(index, codes, recs, j) is Ok);
        lemma_run_memberships(v, index, dict, j);
        lemma_record_memberships(v, index, dict, j as int);
        lemma_run_nodes(v, j as int);
        let old = membership_pass::run_memberships(index, codes, recs, j)->Ok_0;
        let own = membership_pass::record_memberships(index, codes, recs[j as int])->Ok_0;
        let all = old + own;
        let last = run_node(v, j as int);
        assert forall|i: int| 0 <= i < all.len() implies exists|a: int|
            0 <= a < k && id_index::id_entry_for(index, v[#[trigger] run_node(v, a)].id) == Some(
                ((#[trigger] all[i]).node_table_id, all[i].node_offset as u64),
            ) by {
            if i < old.len() {
                assert(all[i] == old[i]);
                let a = choose|a: int|
                    0 <= a < j && id_index::id_entry_for(index, v[#[trigger] run_node(v, a)].id) == Some(
                        (old[i].node_table_id, old[i].node_offset as u64),
                    );
                assert(id_index::id_entry_for(index, v[run_node(v, a)].id) == Some(
                    (all[i].node_table_id, all[i].node_offset as u64),
                ));
            } else {
                assert(all[i] == own[i - old.len()]);
                assert(id_index::id_entry_for(index, v[run_node(v, j as int)].id) == Some(
                    (all[i].node_table_id, all[i].node_offset as u64),
                ));
            }
        }
        assert forall|b: int, c: int| 0 <= b < c < all.len() implies all[b] != all[c] by {
            if c < old.len() {
                assert(all[b] == old[b] && all[c] == old[c]);
            } else if b >= old.len() {
                assert(all[b] == own[b - old.len()] && all[c] == own[c - old.len()]);
            } else {
                assert(all[b] == old[b] && all[c] == own[c - old.len()]);
                let a = choose|a: int|
                    0 <= a < j && id_index::id_entry_for(index, v[#[trigger] run_node(v, a)].id) == Some(
                        (old[b].node_table_id, old[b].node_offset as u64),
                    );
                lemma_run_nodes(v, a);
                lemma_labels_apart(v, index, run_node(v, a), last);
            }
        }
    }
}

/// The memberships that a plan's payload carries.
pub open spec fn plan_memberships(p: PlanView, dict: Seq<Seq<char>>) -> Option<
    Seq<LabelMembership>,
> {
    match p.nodes.membership {
        None => None,
        Some(recs) => Some(
            membership_pass::sorted_memberships(
                membership_pass::run_memberships(p.nodes.index, intern::codes_of_texts(dict), recs, recs.len())->Ok_0,
            ),
        ),
    }
}

/// The labels that a plan's membership run names.
pub open spec fn plan_labels(p: PlanView) -> Seq<Seq<char>> {
    bounded_emit::membership_texts(p.nodes.membership)->Ok_0
}

/// The companions of a plan can be written.
pub proof fn lemma_plan_companions_sound(
    nodes: Seq<NodeRecord>,
    edges: Seq<EdgeRecord>,
    decls: Seq<DeclRecord>,
    p: PlanView,
    s: StoreView,
    presence: Seq<BitmapRecord>,
    nulls: Seq<BitmapRecord>,
)
    requires
        placement_laws::nodes_valid(nodes),
        orchestrator::planned(nodes, edges, decls) == Ok::<PlanView, GenerationError>(p),
        orchestrator::store_fault(p) is None,
        orchestrator::bitmap_rows(presence) == orchestrator::presence_rows(p, p.cells.len()),
        orchestrator::bitmap_rows(nulls) == orchestrator::null_rows(p, p.cells.len()),
        bounded_emit::built_payload(s, p.nodes.index, p.nodes.membership, presence, nulls) is Ok,
    ensures
        ({
            let dict = bounded_emit::built_dictionary(s, plan_labels(p));
            let m = plan_memberships(p, dict);
            &&& built_laws::companions_sound(m, presence, nulls)
            &&& bounded_emit::built_fault(s, dict) is None
            &&& bounded_emit::built_payload(s, p.nodes.index, p.nodes.membership, presence, nulls) == Ok::<
                Seq<u8>,
                GenerationError,
            >(bounded_emit::payload_of(s, dict, built_laws::membership_body(m), presence, nulls))
        }),
{
    let n = p.cells.len();
    let dict = bounded_emit::built_dictionary(s, plan_labels(p));
    faults::lemma_no_fault(n, orchestrator::column_checks(p));
    assert forall|c: int| 0 <= c < n implies (#[trigger] p.cells[c]).cells.len() <= u32::MAX by {
        assert(orchestrator::column_checks(p)(c) is None);
    }
    lemma_bitmap_rows_of_columns(p, n);
    lemma_bitmaps_sound(presence, n);
    lemma_bitmaps_sound(nulls, n);
    placement_laws::lemma_nodes_are_placed(nodes, p.nodes);
    if let Some(recs) = p.nodes.membership {
        intern::lemma_dictionary(intern::store_texts(s) + plan_labels(p), StringCodeOrder::Lexicographic);
        runs::lemma_sorted_records(node_pass::staged_membership_rows(nodes));
        lemma_labels_placed(nodes, p.nodes);
        lemma_run_memberships(nodes, p.nodes.index, dict, recs.len());
        let w = membership_pass::run_memberships(p.nodes.index, intern::codes_of_texts(dict), recs, recs.len())->Ok_0;
        membership_pass::lemma_sorted_memberships_ascend(w);
    }
}

/// The payload of a plan is within the limits of the format.
pub open spec fn payload_fits(
    p: PlanView,
    s: StoreView,
    presence: Seq<BitmapRecord>,
    nulls: Seq<BitmapRecord>,
) -> bool {
    let dict = bounded_emit::built_dictionary(s, plan_labels(p));
    let w = built_laws::built_layout(s, dict, plan_memberships(p, dict), presence, nulls);
    let z = built_laws::built_zones(s);
    &&& payload::segments_fit(w.segs)
    &&& v5_read::schema_bytes(layout_laws::layout_nodes(s, w, z), layout_laws::layout_rels(s, w, z)) <= 16777216
}

/// The bytes open as the store of a plan with its companions.
pub open spec fn opens_as(
    p: PlanView,
    s: StoreView,
    presence: Seq<BitmapRecord>,
    nulls: Seq<BitmapRecord>,
    d: Seq<u8>,
) -> bool {
    let dict = bounded_emit::built_dictionary(s, plan_labels(p));
    let m = plan_memberships(p, dict);
    v5_read::v5_read(d) == Ok::<MappedStoreView, FormatError>(
        layout_laws::opened_layout(
            s,
            built_laws::built_layout(s, dict, m, presence, nulls),
            built_laws::built_zones(s),
            built_laws::opened_companions(m, presence, nulls),
        ),
    )
}

/// A build's payload opens as the store of its plan: the nodes' tables and
/// rows, the edges' tables and positions, the columns and their zone maps, the
/// identifiers, every label of the nodes that have several, and for every
/// column which rows are present and which are null.
pub proof fn lemma_build_opens(
    nodes: Seq<NodeRecord>,
    edges: Seq<EdgeRecord>,
    decls: Seq<DeclRecord>,
    p: PlanView,
    codecs: Seq<ColumnView>,
    blocks: Seq<Seq<ZoneView>>,
    s: StoreView,
    presence: Seq<BitmapRecord>,
    nulls: Seq<BitmapRecord>,
    d: Seq<u8>,
)
    requires
        plan_laws::plan_valid(nodes, edges, p),
        orchestrator::planned(nodes, edges, decls) == Ok::<PlanView, GenerationError>(p),
        columns_encoded(codecs, blocks, p.cells.len()),
        orchestrator::store_fault(p) is None,
        orchestrator::built_store(p, codecs, blocks, s),
        orchestrator::bitmap_rows(presence) == orchestrator::presence_rows(p, p.cells.len()),
        orchestrator::bitmap_rows(nulls) == orchestrator::null_rows(p, p.cells.len()),
        bounded_emit::built_payload(s, p.nodes.index, p.nodes.membership, presence, nulls) == Ok::<
            Seq<u8>,
            GenerationError,
        >(d),
        d.len() <= u64::MAX,
        payload_fits(p, s, presence, nulls),
    ensures
        opens_as(p, s, presence, nulls, d),
{
    let dict = bounded_emit::built_dictionary(s, plan_labels(p));
    let m = plan_memberships(p, dict);
    lemma_plan_adjacency_fits(nodes, edges, decls, p);
    lemma_built_store_is_sound(p, codecs, blocks, s);
    lemma_plan_companions_sound(nodes, edges, decls, p, s, presence, nulls);
    built_laws::lemma_built_payload_round_trip(s, plan_labels(p), m, presence, nulls);
}

/// Two plans that differ only in what their stages left behind on the way.
pub open spec fn plans_alike(p: PlanView, q: PlanView) -> bool {
    &&& p.nodes.labels == q.nodes.labels
    &&& p.nodes.counts == q.nodes.counts
    &&& p.nodes.index == q.nodes.index
    &&& p.nodes.membership == q.nodes.membership
    &&& p.edges.keys == q.edges.keys
    &&& p.edges.forward == q.edges.forward
    &&& p.edges.counts == q.edges.counts
    &&& p.geometries == q.geometries
    &&& p.cells == q.cells
    &&& p.adjacency == q.adjacency
    &&& p.base == q.base
}

proof fn lemma_alike_bitmaps(p: PlanView, q: PlanView, k: nat)
    requires
        plans_alike(p, q),
    ensures
        orchestrator::presence_rows(p, k) == orchestrator::presence_rows(q, k),
        orchestrator::null_rows(p, k) == orchestrator::null_rows(q, k),
    decreases k,
{
    if k > 0 {
        lemma_alike_bitmaps(p, q, (k - 1) as nat);
    }
}

/// Such plans build alike.
pub proof fn lemma_alike_stores(
    p: PlanView,
    q: PlanView,
    codecs: Seq<ColumnView>,
    blocks: Seq<Seq<ZoneView>>,
    s: StoreView,
)
    requires
        plans_alike(p, q),
        orchestrator::built_store(q, codecs, blocks, s),
    ensures
        orchestrator::built_store(p, codecs, blocks, s),
{
    assert(orchestrator::built_ids(p) == orchestrator::built_ids(q));
    assert forall|t: int| 0 <= t < s.nodes.len() implies orchestrator::node_built(
        p,
        codecs,
        blocks,
        t,
        #[trigger] s.nodes[t],
    ) by {
        assert(orchestrator::node_built(q, codecs, blocks, t, s.nodes[t]));
    }
    assert forall|t: int| 0 <= t < s.rels.len() implies orchestrator::rel_built(
        p,
        codecs,
        blocks,
        t,
        #[trigger] s.rels[t],
    ) by {
        assert(orchestrator::rel_built(q, codecs, blocks, t, s.rels[t]));
    }
}

proof fn lemma_alike_faults(p: PlanView, q: PlanView)
    requires
        plans_alike(p, q),
        orchestrator::store_fault(q) is None,
    ensures
        orchestrator::store_fault(p) is None,
{
    let n = p.cells.len();
    faults::lemma_no_fault(n, orchestrator::column_checks(q));
    faults::lemma_no_fault(n, orchestrator::column_checks(p));
    assert forall|i: int| 0 <= i < n implies (#[trigger] orchestrator::column_checks(p)(i)) is None by {
        assert(orchestrator::column_checks(q)(i) is None);
    }
    assert(orchestrator::built_ids(p) == orchestrator::built_ids(q));
}

/// What a builder made of its nodes and edges opens as their store: the one
/// that their plan and the encoded columns make.
pub proof fn lemma_what_was_built_opens(
    nodes: Seq<NodeRecord>,
    edges: Seq<EdgeRecord>,
    decls: Seq<DeclRecord>,
    p: PlanView,
    plan: GenerationPlan,
    codecs: Seq<ColumnView>,
    blocks: Seq<Seq<ZoneView>>,
    d: Seq<u8>,
)
    requires
        plan_laws::plan_valid(nodes, edges, p),
        orchestrator::planned(nodes, edges, decls) == Ok::<PlanView, GenerationError>(p),
        plan.spells(p),
        columns_encoded(codecs, blocks, p.cells.len()),
        orchestrator::store_fault(plan.content()) is None,
        orchestrator::is_built_payload(plan.content(), codecs, blocks, Ok::<Seq<u8>, GenerationError>(d)),
        d.len() <= u64::MAX,
    ensures
        exists|s: StoreView, presence: Seq<BitmapRecord>, nulls: Seq<BitmapRecord>|
            orchestrator::built_store(p, codecs, blocks, s) && orchestrator::bitmap_rows(presence) == orchestrator::presence_rows(
                p,
                p.cells.len(),
            ) && orchestrator::bitmap_rows(nulls) == orchestrator::null_rows(p, p.cells.len()) && (payload_fits(
                p,
                s,
                presence,
                nulls,
            ) ==> #[trigger] opens_as(p, s, presence, nulls, d)),
{
    let q = plan.content();
    let (s, presence, nulls) = choose|
        s: StoreView,
        presence: Seq<BitmapRecord>,
        nulls: Seq<BitmapRecord>,
    |
        orchestrator::built_store(q, codecs, blocks, s) && orchestrator::bitmap_rows(presence) == orchestrator::presence_rows(
            q,
            q.cells.len(),
        ) && orchestrator::bitmap_rows(nulls) == orchestrator::null_rows(q, q.cells.len()) && Ok::<Seq<u8>, GenerationError>(d)
            == #[trigger] bounded_emit::built_payload(s, q.nodes.index, q.nodes.membership, presence, nulls);
    assert(plans_alike(p, q));
    lemma_alike_stores(p, q, codecs, blocks, s);
    lemma_alike_bitmaps(p, q, p.cells.len());
    lemma_alike_faults(p, q);
    if payload_fits(p, s, presence, nulls) {
        lemma_build_opens(nodes, edges, decls, p, codecs, blocks, s, presence, nulls, d);
    }
    assert(payload_fits(p, s, presence, nulls) ==> opens_as(p, s, presence, nulls, d));
}

} // verus!
