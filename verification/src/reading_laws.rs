//! What a build wrote is read back by original id: a node's place, its texts,
//! and the nodes that its edges lead to.

use crate::adjacency_laws;
use crate::bounded_emit;
use crate::built_laws;
use crate::column_laws::Occurrence;
use crate::column_laws;
use crate::edge_placement_laws;
use crate::emit_ids;
use crate::error::FormatError;
use crate::faults;
use crate::generation::GenerationError;
use crate::id_index::IdEntry;
use crate::id_index;
use crate::id_lookup;
use crate::intern::StringCodeOrder;
use crate::intern;
use crate::layout_laws;
use crate::lookup_laws::CellContent;
use crate::lookup_laws;
use crate::opening_laws;
use crate::orchestrator::PlanView;
use crate::orchestrator;
use crate::placement_laws;
use crate::plan_laws;
use crate::presence::BitmapRecord;
use crate::records::{DeclRecord, EdgeRecord, NodeRecord};
use crate::stages::NodeStageView;
use crate::stages;
use crate::tables::{ColumnView, StoreView};
use crate::text;
use crate::v5_read::MappedStoreView;
use crate::v5_read;
use crate::value::ZoneView;
use vstd::prelude::*;

verus! {

proof fn lemma_placed_lens(counts: Seq<u64>, index: Seq<IdEntry>, k: nat)
    requires
        k <= index.len(),
    ensures
        emit_ids::placed_ids(counts, index, k).len() == counts.len(),
        forall|t: int|
            0 <= t < counts.len() ==> (#[trigger] emit_ids::placed_ids(counts, index, k)[t]).len()
                == counts[t],
    decreases k,
{
    if k > 0 {
        lemma_placed_lens(counts, index, (k - 1) as nat);
    }
}

/// The identifiers of a built store fit its tables.
pub proof fn lemma_built_ids_fit(
    nodes: Seq<NodeRecord>,
    edges: Seq<EdgeRecord>,
    decls: Seq<DeclRecord>,
    p: PlanView,
    codecs: Seq<ColumnView>,
    blocks: Seq<Seq<ZoneView>>,
    s: StoreView,
)
    requires
        placement_laws::nodes_valid(nodes),
        orchestrator::planned(nodes, edges, decls) == Ok::<PlanView, GenerationError>(p),
        orchestrator::built_store(p, codecs, blocks, s),
    ensures
        lookup_laws::ids_fit(s),
{
    placement_laws::lemma_nodes_are_placed(nodes, p.nodes);
    lemma_placed_lens(p.nodes.counts, p.nodes.index, p.nodes.index.len());
    let x = s.ids->0;
    assert forall|t: int| 0 <= t < s.nodes.len() implies (#[trigger] x.node_ids[t]).len()
        == s.nodes[t].rows by {
        assert(orchestrator::node_built(p, codecs, blocks, t, s.nodes[t]));
    }
    let v = x.nodes;
    assert forall|i: int, j: int|
        0 <= i < v.len() && 0 <= j < v.len() && #[trigger] v[i].0 == #[trigger] v[j].0 implies i
        == j by {
        let a = p.nodes.index;
        if i < j {
            assert(a[i].0 < a[j].0);
        } else if j < i {
            assert(a[j].0 < a[i].0);
        }
    }
}

/// A lookup made of an ID index has every id where the index has it.
pub proof fn lemma_lookup_place(a: Seq<IdEntry>, id: u64)
    requires
        id_index::ids_ascend(a),
    ensures
        lookup_laws::place_in(emit_ids::node_lookup(a), id) == id_index::id_entry_for(a, id),
{
    let v = emit_ids::node_lookup(a);
    if id_lookup::lookup_has(v, id) {
        let i = lookup_laws::entry_with(v, id);
        assert(v[i].0 == id);
        assert(a[i].0 == id);
        let j = choose|j: int| 0 <= j < a.len() && (#[trigger] a[j]).0 == id;
        assert(a[j].0 == id);
        assert(i == j) by {
            if i < j {
                assert(a[i].0 < a[j].0);
            } else if j < i {
                assert(a[j].0 < a[i].0);
            }
        }
    } else if exists|j: int| 0 <= j < a.len() && (#[trigger] a[j]).0 == id {
        let j = choose|j: int| 0 <= j < a.len() && (#[trigger] a[j]).0 == id;
        assert(v[j].0 == id);
    }
}

/// A built store has every node where the plan's ID index has it.
pub proof fn lemma_built_place(
    nodes: Seq<NodeRecord>,
    edges: Seq<EdgeRecord>,
    decls: Seq<DeclRecord>,
    p: PlanView,
    codecs: Seq<ColumnView>,
    blocks: Seq<Seq<ZoneView>>,
    s: StoreView,
    id: u64,
)
    requires
        placement_laws::nodes_valid(nodes),
        orchestrator::planned(nodes, edges, decls) == Ok::<PlanView, GenerationError>(p),
        orchestrator::built_store(p, codecs, blocks, s),
    ensures
        lookup_laws::store_place(s, id) == id_index::id_entry_for(p.nodes.index, id),
{
    placement_laws::lemma_nodes_are_placed(nodes, p.nodes);
    lemma_lookup_place(p.nodes.index, id);
}

/// A pair of a listing stands where its key stands.
pub proof fn lemma_listed_key<V>(x: Seq<(Seq<char>, V)>, m: Map<Seq<char>, V>, e: (Seq<char>, V))
    requires
        orchestrator::lists_map(x, m),
        x.contains(e),
    ensures
        ({
            let keys = Seq::new(x.len(), |i: int| x[i].0);
            keys.contains(e.0) && x[keys.index_of(e.0)] == e
        }),
{
    let keys = Seq::new(x.len(), |i: int| x[i].0);
    let i = choose|i: int| 0 <= i < x.len() && x[i] == e;
    assert(keys[i] == e.0);
    let j = keys.index_of(e.0);
    assert(keys.contains(e.0));
    assert(keys[j] == e.0);
    if i < j {
        text::lemma_ascending_distinct(keys, i, j);
    } else if j < i {
        text::lemma_ascending_distinct(keys, j, i);
    }
}

/// A built store gives back every text of a node under the node's original id
/// and the property's key.
pub proof fn lemma_store_gives_texts_back(
    nodes: Seq<NodeRecord>,
    edges: Seq<EdgeRecord>,
    decls: Seq<DeclRecord>,
    p: PlanView,
    codecs: Seq<ColumnView>,
    blocks: Seq<Seq<ZoneView>>,
    s: StoreView,
    i: int,
    j: int,
)
    requires
        plan_laws::plan_valid(nodes, edges, p),
        orchestrator::planned(nodes, edges, decls) == Ok::<PlanView, GenerationError>(p),
        orchestrator::assembly_fault(p, codecs) is None,
        orchestrator::built_store(p, codecs, blocks, s),
        0 <= i < nodes.len(),
        0 <= j < nodes[i].properties.len(),
        nodes[i].properties[j].1 is Text,
    ensures
        lookup_laws::store_property(s, nodes[i].id, nodes[i].properties[j].0) == Some(
            CellContent::Text(nodes[i].properties[j].1->Text_0),
        ),
{
    let id = nodes[i].id;
    let key = nodes[i].properties[j].0;
    let value = nodes[i].properties[j].1;
    placement_laws::lemma_nodes_are_placed(nodes, p.nodes);
    let k = placement_laws::lemma_row_of_node(nodes, i);
    let at = placement_laws::place_of_row(nodes, k);
    assert(id_index::id_entry_for(p.nodes.index, nodes[placement_laws::node_of_row(nodes, k)].id) == Some(at));
    lemma_built_place(nodes, edges, decls, p, codecs, blocks, s, id);
    let o = Occurrence { table_id: at.0, key, row: at.1, value };
    assert(nodes[i].properties[j] == (o.key, o.value));
    assert(plan_laws::is_node_property(nodes, p.nodes.index, o));
    plan_laws::lemma_plan_holds_the_properties(nodes, edges, decls, p, o);
    let c = choose|c: int| 0 <= c < p.cells.len() && column_laws::column_holds(#[trigger] p.cells[c], o);
    plan_laws::lemma_plan_columns_are_distinct(nodes, edges, decls, p);
    opening_laws::lemma_store_holds_every_column(p, codecs, blocks, s, c);
    let t = at.0 as int;
    assert(orchestrator::node_built(p, codecs, blocks, t, s.nodes[t]));
    let x = s.nodes[t].columns;
    lemma_listed_key(x, orchestrator::column_map(p.cells, codecs, t, p.cells.len()), (key, codecs[c]));
    assert(lookup_laws::keys_of_columns(x) =~= Seq::new(x.len(), |n: int| x[n].0));
    faults::lemma_no_fault(p.cells.len(), orchestrator::encoding_checks(p, codecs));
    assert(orchestrator::encoding_checks(p, codecs)(c) is None);
    assert(p.cells[c].cells[at.1 as int] == Some(value));
    assert(orchestrator::text_in_row(codecs[c], at.1 as int) == Some(value->Text_0));
}

proof fn lemma_placed_at(counts: Seq<u64>, index: Seq<IdEntry>, k: nat, j: int)
    requires
        0 <= j < k <= index.len(),
        forall|a: int|
            0 <= a < index.len() ==> (#[trigger] index[a]).1 < counts.len() && index[a].2
                < counts[index[a].1 as int],
        forall|a: int, b: int|
            0 <= a < b < index.len() ==> (#[trigger] index[a]).1 != (#[trigger] index[b]).1
                || index[a].2 != index[b].2,
    ensures
        emit_ids::placed_ids(counts, index, k)[index[j].1 as int][index[j].2 as int] == index[j].0,
    decreases k,
{
    let m = (k - 1) as nat;
    lemma_placed_lens(counts, index, m);
    let v = emit_ids::placed_ids(counts, index, m);
    let e = index[k - 1];
    assert(v[e.1 as int].len() == counts[e.1 as int]);
    if j < k - 1 {
        lemma_placed_at(counts, index, m, j);
        assert(index[j].1 != e.1 || index[j].2 != e.2);
    }
}

proof fn lemma_indexed_row_id(nodes: Seq<NodeRecord>, n: NodeStageView, id: u64)
    requires
        placement_laws::nodes_valid(nodes),
        stages::node_stage(nodes) == Ok::<NodeStageView, GenerationError>(n),
        id_index::id_entry_for(n.index, id) is Some,
    ensures
        ({
            let at = id_index::id_entry_for(n.index, id)->0;
            let rows = emit_ids::placed_ids(n.counts, n.index, n.index.len());
            &&& at.0 < rows.len()
            &&& at.1 < rows[at.0 as int].len()
            &&& rows[at.0 as int][at.1 as int] == id
        }),
{
    let index = n.index;
    placement_laws::lemma_nodes_are_placed(nodes, n);
    placement_laws::lemma_index_places(nodes, n);
    lemma_placed_lens(n.counts, index, index.len());
    let j = choose|j: int| 0 <= j < index.len() && (#[trigger] index[j]).0 == id;
    lemma_placed_at(n.counts, index, index.len(), j);
    assert(index[j].1 < n.counts.len());
    assert(emit_ids::placed_ids(n.counts, index, index.len())[index[j].1 as int].len()
        == n.counts[index[j].1 as int]);
}

/// A built store has the original id of every node in the node's row.
pub proof fn lemma_built_row_id(
    nodes: Seq<NodeRecord>,
    edges: Seq<EdgeRecord>,
    decls: Seq<DeclRecord>,
    p: PlanView,
    codecs: Seq<ColumnView>,
    blocks: Seq<Seq<ZoneView>>,
    s: StoreView,
    id: u64,
)
    requires
        placement_laws::nodes_valid(nodes),
        orchestrator::planned(nodes, edges, decls) == Ok::<PlanView, GenerationError>(p),
        orchestrator::built_store(p, codecs, blocks, s),
        id_index::id_entry_for(p.nodes.index, id) is Some,
    ensures
        ({
            let at = id_index::id_entry_for(p.nodes.index, id)->0;
            lookup_laws::store_id(s, at.0 as int, at.1 as int) == Some(id)
        }),
{
    lemma_indexed_row_id(nodes, p.nodes, id);
    assert(s.ids->0.node_ids == emit_ids::placed_ids(p.nodes.counts, p.nodes.index, p.nodes.index.len()));
}

proof fn lemma_target_listed(s: StoreView, t: u16, row: u64, n: int, r: int, pos: int)
    requires
        0 <= r < n <= s.rels.len(),
        s.rels[r].src == t,
        row + 1 < s.rels[r].fwd.offsets.len(),
        s.rels[r].fwd.offsets[row as int] <= pos < s.rels[r].fwd.offsets[row + 1],
        s.rels[r].fwd.offsets[row + 1] <= s.rels[r].fwd.targets.len(),
    ensures
        lookup_laws::store_targets(s, t, row, n).contains(
            lookup_laws::store_id(s, s.rels[r].dst as int, s.rels[r].fwd.targets[pos] as int),
        ),
    decreases n,
{
    let x = s.rels[n - 1];
    let hits = lookup_laws::row_targets(x.fwd.offsets, x.fwd.targets, row);
    let before = lookup_laws::store_targets(s, t, row, n - 1);
    let all = lookup_laws::store_targets(s, t, row, n);
    let want = lookup_laws::store_id(s, s.rels[r].dst as int, s.rels[r].fwd.targets[pos] as int);
    if r == n - 1 {
        let k = pos - x.fwd.offsets[row as int];
        assert(hits[k] == x.fwd.targets[pos]);
        assert(all[before.len() + k] == want);
    } else {
        lemma_target_listed(s, t, row, n - 1, r, pos);
        let k = choose|k: int| 0 <= k < before.len() && before[k] == want;
        assert(all[k] == want);
    }
}

/// A built store leads along every edge: the destination's original id is among
/// those that the source's lookup gives.
pub proof fn lemma_store_leads_along_edges(
    nodes: Seq<NodeRecord>,
    edges: Seq<EdgeRecord>,
    decls: Seq<DeclRecord>,
    p: PlanView,
    codecs: Seq<ColumnView>,
    blocks: Seq<Seq<ZoneView>>,
    s: StoreView,
    i: int,
)
    requires
        plan_laws::plan_valid(nodes, edges, p),
        orchestrator::planned(nodes, edges, decls) == Ok::<PlanView, GenerationError>(p),
        orchestrator::built_store(p, codecs, blocks, s),
        0 <= i < edges.len(),
    ensures
        lookup_laws::store_neighbors(s, edges[i].src).contains(Some(edges[i].dst)),
{
    let e = edges[i];
    let index = p.nodes.index;
    let m = edge_placement_laws::lemma_edge_has_a_position(index, p.edges.keys, edges, i);
    edge_placement_laws::lemma_edges_are_placed(p.nodes, edges, decls, p.edges);
    assert(edge_placement_laws::edge_placed(index, p.edges.keys, edges, p.edges.forward, m));
    adjacency_laws::lemma_plan_adjacency_is_the_edges(nodes, edges, decls, p, m);
    let r = edge_placement_laws::forward_rel(p.edges.forward[m]) as int;
    let table = edge_placement_laws::edge_table(index, e);
    assert(p.edges.keys.contains(table));
    assert(p.edges.keys[r] == table);
    lemma_built_place(nodes, edges, decls, p, codecs, blocks, s, e.src);
    lemma_built_row_id(nodes, edges, decls, p, codecs, blocks, s, e.dst);
    let from = edge_placement_laws::indexed_place(index, e.src);
    let pos = edge_placement_laws::place_of_forward(p.edges.forward, m).1 as int;
    assert(orchestrator::rel_built(p, codecs, blocks, r, s.rels[r]));
    opening_laws::lemma_plan_adjacency_fits(nodes, edges, decls, p);
    lemma_target_listed(s, from.0, from.1, s.rels.len() as int, r, pos);
}

/// What a build wrote opens with the tables of its store.
pub proof fn lemma_built_payload_opens_tables(
    nodes: Seq<NodeRecord>,
    edges: Seq<EdgeRecord>,
    decls: Seq<DeclRecord>,
    p: PlanView,
    codecs: Seq<ColumnView>,
    blocks: Seq<Seq<ZoneView>>,
    s: StoreView,
    presence: Seq<BitmapRecord>,
    nulls: Seq<BitmapRecord>,
    d: Seq<u8>,
    m: MappedStoreView,
)
    requires
        plan_laws::plan_valid(nodes, edges, p),
        orchestrator::planned(nodes, edges, decls) == Ok::<PlanView, GenerationError>(p),
        opening_laws::columns_encoded(codecs, blocks, p.cells.len()),
        orchestrator::assembly_fault(p, codecs) is None,
        orchestrator::built_store(p, codecs, blocks, s),
        orchestrator::bitmap_rows(presence) == orchestrator::presence_rows(p, p.cells.len()),
        orchestrator::bitmap_rows(nulls) == orchestrator::null_rows(p, p.cells.len()),
        bounded_emit::built_payload(s, p.nodes.index, p.nodes.membership, presence, nulls) == Ok::<
            Seq<u8>,
            GenerationError,
        >(d),
        d.len() <= u64::MAX,
        opening_laws::payload_fits(p, s, presence, nulls),
        v5_read::v5_read(d) == Ok::<MappedStoreView, FormatError>(m),
    ensures
        lookup_laws::opens_tables(s, bounded_emit::built_dictionary(s, opening_laws::plan_labels(p)), m),
{
    let dict = bounded_emit::built_dictionary(s, opening_laws::plan_labels(p));
    let w = built_laws::built_layout(s, dict, opening_laws::plan_memberships(p, dict), presence, nulls);
    opening_laws::lemma_build_opens(nodes, edges, decls, p, codecs, blocks, s, presence, nulls, d);
    assert(m == layout_laws::opened_layout(
        s,
        w,
        built_laws::built_zones(s),
        built_laws::opened_companions(opening_laws::plan_memberships(p, dict), presence, nulls),
    ));
    opening_laws::lemma_plan_companions_sound(nodes, edges, decls, p, s, presence, nulls);
    intern::lemma_dictionary(intern::store_texts(s) + opening_laws::plan_labels(p), StringCodeOrder::Lexicographic);
}

/// What a build wrote answers lookups by original id as its store does: it has
/// every node where the plan has it, gives back every text of a node, and leads
/// along every edge.
#[verifier::rlimit(40)]
#[verifier::spinoff_prover]
pub proof fn lemma_built_payload_answers(
    nodes: Seq<NodeRecord>,
    edges: Seq<EdgeRecord>,
    decls: Seq<DeclRecord>,
    p: PlanView,
    codecs: Seq<ColumnView>,
    blocks: Seq<Seq<ZoneView>>,
    s: StoreView,
    presence: Seq<BitmapRecord>,
    nulls: Seq<BitmapRecord>,
    d: Seq<u8>,
    m: MappedStoreView,
    id: u64,
    key: Seq<char>,
)
    requires
        plan_laws::plan_valid(nodes, edges, p),
        orchestrator::planned(nodes, edges, decls) == Ok::<PlanView, GenerationError>(p),
        opening_laws::columns_encoded(codecs, blocks, p.cells.len()),
        orchestrator::assembly_fault(p, codecs) is None,
        orchestrator::built_store(p, codecs, blocks, s),
        orchestrator::bitmap_rows(presence) == orchestrator::presence_rows(p, p.cells.len()),
        orchestrator::bitmap_rows(nulls) == orchestrator::null_rows(p, p.cells.len()),
        bounded_emit::built_payload(s, p.nodes.index, p.nodes.membership, presence, nulls) == Ok::<
            Seq<u8>,
            GenerationError,
        >(d),
        d.len() <= u64::MAX,
        opening_laws::payload_fits(p, s, presence, nulls),
        v5_read::v5_read(d) == Ok::<MappedStoreView, FormatError>(m),
    ensures
        lookup_laws::opened_place(m, id) == id_index::id_entry_for(p.nodes.index, id),
        lookup_laws::opened_property(m, id, key) == lookup_laws::store_property(s, id, key),
        lookup_laws::opened_neighbors(m, id) == lookup_laws::store_neighbors(s, id),
        forall|i: int, j: int|
            0 <= i < nodes.len() && 0 <= j < nodes[i].properties.len() && (
            #[trigger] nodes[i].properties[j]).1 is Text && nodes[i].id == id
                && nodes[i].properties[j].0 == key ==> lookup_laws::opened_property(m, id, key) == Some(
                CellContent::Text(nodes[i].properties[j].1->Text_0),
            ),
        forall|i: int|
            0 <= i < edges.len() && (#[trigger] edges[i]).src == id ==> lookup_laws::opened_neighbors(
                m,
                id,
            ).contains(Some(edges[i].dst)),
{
    lemma_built_payload_opens_tables(
        nodes,
        edges,
        decls,
        p,
        codecs,
        blocks,
        s,
        presence,
        nulls,
        d,
        m,
    );
    lemma_built_ids_fit(nodes, edges, decls, p, codecs, blocks, s);
    lemma_built_place(nodes, edges, decls, p, codecs, blocks, s, id);
    lookup_laws::lemma_answers_alike(s, bounded_emit::built_dictionary(s, opening_laws::plan_labels(p)), m, id, key);
    assert forall|i: int, j: int|
        0 <= i < nodes.len() && 0 <= j < nodes[i].properties.len() && (
        #[trigger] nodes[i].properties[j]).1 is Text && nodes[i].id == id
            && nodes[i].properties[j].0 == key implies lookup_laws::opened_property(m, id, key) == Some(
        CellContent::Text(nodes[i].properties[j].1->Text_0),
    ) by {
        lemma_store_gives_texts_back(nodes, edges, decls, p, codecs, blocks, s, i, j);
    }
    assert forall|i: int| 0 <= i < edges.len() && (#[trigger] edges[i]).src
        == id implies lookup_laws::opened_neighbors(m, id).contains(Some(edges[i].dst)) by {
        lemma_store_leads_along_edges(nodes, edges, decls, p, codecs, blocks, s, i);
    }
}

} // verus!
