//! The columns of a built store are its plan's, in the plan's order: column
//! numbers mean the same in both.

use crate::build_laws;
use crate::builder;
use crate::column_laws;
use crate::emit_columns::CellsView;
use crate::generation::GenerationError;
use crate::opening_laws;
use crate::orchestrator::PlanView;
use crate::orchestrator;
use crate::plan_laws;
use crate::records::{DeclRecord, EdgeRecord, NodeRecord};
use crate::tables::{ColumnView, StoreView};
use crate::text::own;
use crate::text;
use crate::v5_write;
use crate::value::ZoneView;
use crate::wire;
use vstd::prelude::*;

verus! {

/// Number of the first `n` columns that belong to tables below `t`.
pub open spec fn columns_below(cells: Seq<CellsView>, t: int, n: int) -> int
    decreases n,
{
    if n <= 0 {
        0
    } else {
        columns_below(cells, t, n - 1) + if cells[n - 1].table_id < t {
            1int
        } else {
            0int
        }
    }
}

/// The columns of the tables below `t` are the first ones.
proof fn lemma_below(cells: Seq<CellsView>, t: int, n: int)
    requires
        column_laws::columns_ascend(cells),
        0 <= n <= cells.len(),
    ensures
        0 <= columns_below(cells, t, n) <= n,
        forall|i: int| 0 <= i < n ==> ((#[trigger] cells[i]).table_id < t <==> i < columns_below(
            cells,
            t,
            n,
        )),
    decreases n,
{
    if n > 0 {
        lemma_below(cells, t, n - 1);
        assert forall|i: int| 0 <= i < n implies ((#[trigger] cells[i]).table_id < t <==> i
            < columns_below(cells, t, n)) by {
            if i < n - 1 {
                assert(column_laws::column_before(cells[i], cells[n - 1]));
            }
        }
        if cells[n - 1].table_id < t && columns_below(cells, t, n - 1) < n - 1 {
            let i = columns_below(cells, t, n - 1);
            assert(column_laws::column_before(cells[i], cells[n - 1]));
        }
    }
}

/// The columns of table `t` with their values, one after the other.
pub open spec fn table_listing<V>(cells: Seq<CellsView>, vals: Seq<V>, t: int) -> Seq<
    (Seq<char>, V),
> {
    let n = cells.len() as int;
    let from = columns_below(cells, t, n);
    Seq::new(
        (columns_below(cells, t + 1, n) - from) as nat,
        |i: int| (cells[from + i].key, vals[from + i]),
    )
}

proof fn lemma_column_map_has<V>(
    cells: Seq<CellsView>,
    vals: Seq<V>,
    t: int,
    k: nat,
    key: Seq<char>,
) -> (c: int)
    requires
        k <= cells.len(),
        orchestrator::column_map(cells, vals, t, k).dom().contains(key),
    ensures
        0 <= c < k,
        cells[c].table_id == t,
        cells[c].key == key,
    decreases k,
{
    if cells[k - 1].table_id == t && cells[k - 1].key == key {
        k - 1
    } else {
        lemma_column_map_has(cells, vals, t, (k - 1) as nat, key)
    }
}

/// The listing of a table's columns lists their map.
proof fn lemma_table_listing<V>(cells: Seq<CellsView>, vals: Seq<V>, t: int)
    requires
        column_laws::columns_ascend(cells),
    ensures
        orchestrator::lists_map(table_listing(cells, vals, t), orchestrator::column_map(cells, vals, t, cells.len())),
{
    let n = cells.len() as int;
    let from = columns_below(cells, t, n);
    let to = columns_below(cells, t + 1, n);
    let l = table_listing(cells, vals, t);
    let keys = Seq::new(l.len(), |i: int| l[i].0);
    let items = Seq::new(l.len(), |i: int| l[i].1);
    let m = orchestrator::column_map(cells, vals, t, cells.len());
    lemma_below(cells, t, n);
    lemma_below(cells, t + 1, n);
    if to < from {
        assert(cells[to].table_id < t);
    }
    assert forall|i: int| from <= i < to implies (#[trigger] cells[i]).table_id == t by {}
    assert forall|i: int, j: int| 0 <= i < j < keys.len() implies text::text_lt(
        #[trigger] keys[i],
        #[trigger] keys[j],
    ) by {
        assert(column_laws::column_before(cells[from + i], cells[from + j]));
    }
    assert(column_laws::columns_distinct(cells)) by {
        assert forall|i: int, j: int| 0 <= i < j < cells.len() implies (
        #[trigger] cells[i]).table_id != (#[trigger] cells[j]).table_id || cells[i].key
            != cells[j].key by {
            assert(column_laws::column_before(cells[i], cells[j]));
            wire::lemma_lex_irreflexive(text::utf8(cells[i].key));
        }
    }
    let a = text::text_map_of(keys, items);
    assert forall|key: Seq<char>| keys.contains(key) implies #[trigger] m.dom().contains(key)
        && a[key] == m[key] by {
        let i = keys.index_of(key);
        assert(keys[i] == key);
        opening_laws::lemma_column_map_at(cells, vals, cells.len(), from + i);
        assert(items[i] == vals[from + i]);
    }
    assert forall|key: Seq<char>| #[trigger] m.dom().contains(key) implies keys.contains(key) by {
        let c = lemma_column_map_has(cells, vals, t, cells.len(), key);
        assert(keys[c - from] == key);
    }
    assert(a.dom() =~= m.dom());
    assert(a =~= m);
}

proof fn lemma_table_columns(cells: Seq<CellsView>, vals: Seq<ColumnView>, t: int)
    requires
        column_laws::columns_ascend(cells),
        vals.len() == cells.len(),
    ensures
        ({
            let n = cells.len() as int;
            &&& 0 <= columns_below(cells, t, n) <= columns_below(cells, t + 1, n) <= n
            &&& v5_write::bare_columns(table_listing(cells, vals, t)) == vals.subrange(
                columns_below(cells, t, n),
                columns_below(cells, t + 1, n),
            )
        }),
{
    let n = cells.len() as int;
    lemma_below(cells, t, n);
    lemma_below(cells, t + 1, n);
    let to = columns_below(cells, t + 1, n);
    if to < columns_below(cells, t, n) {
        assert(cells[to].table_id < t);
    }
    assert(v5_write::bare_columns(table_listing(cells, vals, t)) =~= vals.subrange(
        columns_below(cells, t, n),
        columns_below(cells, t + 1, n),
    ));
}

proof fn lemma_node_columns(
    p: PlanView,
    codecs: Seq<ColumnView>,
    blocks: Seq<Seq<ZoneView>>,
    s: StoreView,
    t: int,
)
    requires
        column_laws::columns_ascend(p.cells),
        codecs.len() == p.cells.len(),
        p.nodes.labels.len() <= p.base,
        orchestrator::built_store(p, codecs, blocks, s),
        0 <= t <= s.nodes.len(),
    ensures
        0 <= columns_below(p.cells, t, p.cells.len() as int) <= p.cells.len(),
        v5_write::node_columns(s.nodes, t) == codecs.take(columns_below(p.cells, t, p.cells.len() as int)),
    decreases t,
{
    let n = p.cells.len() as int;
    lemma_below(p.cells, t, n);
    if t > 0 {
        let x = s.nodes[t - 1];
        lemma_node_columns(p, codecs, blocks, s, t - 1);
        assert(orchestrator::node_built(p, codecs, blocks, t - 1, x));
        lemma_table_listing(p.cells, codecs, t - 1);
        build_laws::lemma_lists_map_unique(
            x.columns,
            table_listing(p.cells, codecs, t - 1),
            orchestrator::column_map(p.cells, codecs, t - 1, p.cells.len()),
        );
        lemma_table_columns(p.cells, codecs, t - 1);
        assert(v5_write::node_columns(s.nodes, t) =~= codecs.take(columns_below(p.cells, t, n)));
    } else {
        if columns_below(p.cells, 0, n) > 0 {
            assert(p.cells[0].table_id < 0);
        }
        assert(v5_write::node_columns(s.nodes, 0) =~= codecs.take(0));
    }
}

proof fn lemma_rel_columns(
    p: PlanView,
    codecs: Seq<ColumnView>,
    blocks: Seq<Seq<ZoneView>>,
    s: StoreView,
    t: int,
)
    requires
        column_laws::columns_ascend(p.cells),
        codecs.len() == p.cells.len(),
        orchestrator::built_store(p, codecs, blocks, s),
        0 <= t <= s.rels.len(),
    ensures
        ({
            let n = p.cells.len() as int;
            &&& 0 <= columns_below(p.cells, p.base, n) <= columns_below(p.cells, p.base + t, n) <= n
            &&& v5_write::rel_columns(s.rels, t) == codecs.subrange(
                columns_below(p.cells, p.base, n),
                columns_below(p.cells, p.base + t, n),
            )
        }),
    decreases t,
{
    let n = p.cells.len() as int;
    lemma_below(p.cells, p.base, n);
    if t > 0 {
        let x = s.rels[t - 1];
        let own = p.base + (t - 1);
        lemma_rel_columns(p, codecs, blocks, s, t - 1);
        assert(orchestrator::rel_built(p, codecs, blocks, t - 1, x));
        lemma_table_listing(p.cells, codecs, own);
        build_laws::lemma_lists_map_unique(
            x.columns,
            table_listing(p.cells, codecs, own),
            orchestrator::column_map(p.cells, codecs, own, p.cells.len()),
        );
        lemma_table_columns(p.cells, codecs, own);
        assert(v5_write::rel_columns(s.rels, t) =~= codecs.subrange(
            columns_below(p.cells, p.base, n),
            columns_below(p.cells, p.base + t, n),
        ));
    } else {
        let from = columns_below(p.cells, p.base, n);
        assert(v5_write::rel_columns(s.rels, 0) =~= codecs.subrange(from, from));
    }
}

/// The columns of a built store are the encoded columns of its plan in the
/// plan's order.
proof fn lemma_columns_of_the_plan(
    p: PlanView,
    codecs: Seq<ColumnView>,
    blocks: Seq<Seq<ZoneView>>,
    s: StoreView,
)
    requires
        column_laws::columns_ascend(p.cells),
        codecs.len() == p.cells.len(),
        p.nodes.labels.len() <= p.base,
        p.nodes.counts.len() == p.nodes.labels.len(),
        p.edges.counts.len() == p.edges.keys.len(),
        orchestrator::store_fault(p) is None,
        orchestrator::built_store(p, codecs, blocks, s),
    ensures
        v5_write::all_columns(s) == codecs,
{
    let n = p.cells.len() as int;
    let nodes = s.nodes.len() as int;
    let rels = s.rels.len() as int;
    builder::lemma_columns_placed(p);
    lemma_node_columns(p, codecs, blocks, s, nodes);
    lemma_rel_columns(p, codecs, blocks, s, rels);
    lemma_below(p.cells, nodes, n);
    lemma_below(p.cells, p.base, n);
    lemma_below(p.cells, p.base + rels, n);
    let a = columns_below(p.cells, nodes, n);
    let b = columns_below(p.cells, p.base, n);
    let c = columns_below(p.cells, p.base + rels, n);
    if a < b {
        assert(p.cells[a].table_id < p.base);
        assert(p.cells[a].table_id < p.nodes.labels.len());
    } else if b < a {
        assert(p.cells[b].table_id < nodes);
    }
    if c < n {
        assert(p.cells[c].table_id >= p.base + rels);
        assert(p.cells[c].table_id - p.base < p.edges.keys.len());
    }
    assert(v5_write::all_columns(s) =~= codecs);
}

/// The columns of a built store are the encoded columns of its plan in the
/// plan's order: the number by which a companion names a column is the
/// column's place in the payload.
pub proof fn lemma_columns_keep_their_numbers(
    nodes: Seq<NodeRecord>,
    edges: Seq<EdgeRecord>,
    decls: Seq<DeclRecord>,
    p: PlanView,
    codecs: Seq<ColumnView>,
    blocks: Seq<Seq<ZoneView>>,
    s: StoreView,
)
    requires
        plan_laws::plan_valid(nodes, edges, p),
        orchestrator::planned(nodes, edges, decls) == Ok::<PlanView, GenerationError>(p),
        codecs.len() == p.cells.len(),
        orchestrator::store_fault(p) is None,
        orchestrator::built_store(p, codecs, blocks, s),
    ensures
        v5_write::all_columns(s) == codecs,
{
    plan_laws::lemma_plan_columns_ascend(nodes, edges, decls, p);
    opening_laws::lemma_plan_adjacency_fits(nodes, edges, decls, p);
    opening_laws::lemma_edge_counts_tables(p.edges.forward, p.edges.keys.len(), p.edges.forward.len());
    lemma_columns_of_the_plan(p, codecs, blocks, s);
}

} // verus!
