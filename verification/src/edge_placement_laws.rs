//! Every edge gets a position of its own in the table of its type and its
//! endpoints' tables, and its properties are staged under that position.

use crate::column_laws::PlacedRow;
use crate::column_laws;
use crate::csr_pass;
use crate::edge_pass::RelKey;
use crate::edge_pass;
use crate::emit_ids;
use crate::faults;
use crate::generation::GenerationError;
use crate::id_index::IdEntry;
use crate::id_index;
use crate::node_pass;
use crate::records::{DeclRecord, EdgeRecord};
use crate::runs::RecordView;
use crate::runs;
use crate::sorting;
use crate::stages::{EdgeStageView, NodeStageView};
use crate::stages;
use crate::staging::Property;
use crate::staging;
use crate::text;
use crate::wire;
use vstd::prelude::*;

verus! {

broadcast use wire::group_wire;

/// Edges that can be staged, each with its properties by ascending key.
pub open spec fn edges_valid(v: Seq<EdgeRecord>) -> bool {
    &&& v.len() <= u64::MAX
    &&& faults::first_fault(v.len(), edge_pass::edge_checks(v)) is None
    &&& forall|i: int| 0 <= i < v.len() ==> text::texts_ascend(column_laws::property_keys((#[trigger] v[i]).properties))
}

/// The position among the edges of the one in row `k` of the sorted run.
pub open spec fn edge_of_row(v: Seq<EdgeRecord>, k: int) -> int {
    sorting::stable_order(runs::record_keys(edge_pass::staged_edge_rows(v)))[k]
}

/// The place of an indexed node.
pub open spec fn indexed_place(index: Seq<IdEntry>, id: u64) -> (u16, u64) {
    id_index::id_entry_for(index, id)->0
}

/// The table of an edge: its type and the tables of its endpoints.
pub open spec fn edge_table(index: Seq<IdEntry>, e: EdgeRecord) -> RelKey {
    (e.edge_type, indexed_place(index, e.src).0, indexed_place(index, e.dst).0)
}

/// The forward record of an edge.
pub open spec fn edge_forward(index: Seq<IdEntry>, keys: Seq<RelKey>, e: EdgeRecord) -> RecordView {
    RecordView {
        key: csr_pass::edge_key(
            keys.index_of(edge_table(index, e)) as u16,
            indexed_place(index, e.src).1,
            indexed_place(index, e.dst).1,
            e.id,
        ),
        payload: staging::properties_record(e.properties),
    }
}

/// The forward records of the edges in the order of the sorted run.
pub open spec fn edges_forward(
    index: Seq<IdEntry>,
    keys: Seq<RelKey>,
    v: Seq<EdgeRecord>,
) -> Seq<RecordView> {
    Seq::new(v.len(), |k: int| edge_forward(index, keys, v[edge_of_row(v, k)]))
}

/// The position among the edges of the one at `m` in the forward run.
pub open spec fn edge_of_forward(
    index: Seq<IdEntry>,
    keys: Seq<RelKey>,
    v: Seq<EdgeRecord>,
    m: int,
) -> int {
    edge_of_row(v, sorting::stable_order(runs::record_keys(edges_forward(index, keys, v)))[m])
}

/// The endpoints of an edge are indexed, and its table is one of the tables.
pub open spec fn edge_resolves(index: Seq<IdEntry>, keys: Seq<RelKey>, e: EdgeRecord) -> bool {
    &&& id_index::id_entry_for(index, e.src) is Some
    &&& id_index::id_entry_for(index, e.dst) is Some
    &&& keys.contains(edge_table(index, e))
}

/// The table number of a forward record.
pub open spec fn forward_rel(rec: RecordView) -> u16 {
    wire::u16_be_at(rec.key, 0)
}

/// Number of the first `k` forward records in a table.
pub open spec fn rels_before(recs: Seq<RecordView>, rel: u16, k: nat) -> nat
    decreases k,
{
    if k == 0 {
        0
    } else {
        rels_before(recs, rel, (k - 1) as nat) + if forward_rel(recs[k - 1]) == rel {
            1nat
        } else {
            0nat
        }
    }
}

/// The number of a relationship table among all tables.
pub open spec fn rel_number(rel: u16) -> u16 {
    0x8000u16 | rel
}

/// Table and position of the edge at `m` in the forward run.
pub open spec fn place_of_forward(recs: Seq<RecordView>, m: int) -> (u16, u64) {
    let rel = forward_rel(recs[m]);
    (rel_number(rel), rels_before(recs, rel, m as nat) as u64)
}

/// The forward run with its properties.
pub open spec fn edge_places(recs: Seq<RecordView>) -> Seq<PlacedRow> {
    Seq::new(
        recs.len(),
        |m: int|
            PlacedRow {
                place: place_of_forward(recs, m),
                properties: node_pass::row_properties(recs[m].payload)->Ok_0,
            },
    )
}

/// The tables of a forward run ascend.
pub open spec fn rels_sorted(recs: Seq<RecordView>) -> bool {
    &&& forall|a: int, b: int|
        0 <= a < b < recs.len() ==> forward_rel(#[trigger] recs[a]) <= forward_rel(
            #[trigger] recs[b],
        )
    &&& forall|a: int| 0 <= a < recs.len() ==> (#[trigger] recs[a]).key.len() == 26
}

/// Later records have no fewer of a table before them.
pub proof fn lemma_rels_grow(recs: Seq<RecordView>, rel: u16, a: nat, b: nat)
    requires
        a <= b,
    ensures
        rels_before(recs, rel, a) <= rels_before(recs, rel, b) <= rels_before(recs, rel, a) + (b
            - a),
    decreases b,
{
    if a < b {
        lemma_rels_grow(recs, rel, a, (b - 1) as nat);
    }
}

proof fn lemma_no_rels(recs: Seq<RecordView>, rel: u16, k: nat)
    requires
        k <= recs.len(),
        forall|a: int| 0 <= a < k ==> forward_rel(#[trigger] recs[a]) != rel,
    ensures
        rels_before(recs, rel, k) == 0,
    decreases k,
{
    if k > 0 {
        lemma_no_rels(recs, rel, (k - 1) as nat);
    }
}

/// The first record of a table has none of it before it.
pub proof fn lemma_next_position(recs: Seq<RecordView>, k: nat)
    requires
        rels_sorted(recs),
        k < recs.len(),
        k > 0,
        forward_rel(recs[k - 1]) != forward_rel(recs[k as int]),
    ensures
        rels_before(recs, forward_rel(recs[k as int]), k) == 0,
{
    let rel = forward_rel(recs[k as int]);
    assert forall|a: int| 0 <= a < k implies forward_rel(#[trigger] recs[a]) != rel by {
        if a < k - 1 {
            assert(forward_rel(recs[a]) <= forward_rel(recs[k - 1]));
        }
        assert(forward_rel(recs[k - 1]) <= rel);
    }
    lemma_no_rels(recs, rel, k);
}

/// Both walks over the forward run give every edge the number of earlier edges
/// of its table as its position.
proof fn lemma_forward_walks(recs: Seq<RecordView>, k: nat)
    requires
        rels_sorted(recs),
        recs.len() <= u64::MAX,
        k <= recs.len(),
        edge_pass::occurrences_after(recs, true, k) is Ok,
    ensures
        ({
            let w = edge_pass::occurrences_after(recs, true, k)->Ok_0;
            &&& emit_ids::edge_walk(recs, k) is Ok
            &&& emit_ids::edge_walk(recs, k)->Ok_0.rel == w.rel
            &&& emit_ids::edge_walk(recs, k)->Ok_0.pos == w.pos
            &&& emit_ids::edge_walk(recs, k)->Ok_0.entries.len() == k
            &&& k == 0 ==> w.rel is None
            &&& k > 0 ==> w.rel == Some(forward_rel(recs[k - 1])) && w.pos == rels_before(
                recs,
                forward_rel(recs[k - 1]),
                k,
            )
            &&& w.out == column_laws::occurrence_records(column_laws::placed_occurrences(edge_places(recs), k))
            &&& forall|m: int|
                0 <= m < k ==> (#[trigger] emit_ids::edge_walk(recs, k)->Ok_0.entries[m]) == (
                    wire::u64_be_at(recs[m].key, 18),
                    forward_rel(recs[m]),
                    place_of_forward(recs, m).1,
                )
        }),
    decreases k,
{
    if k > 0 {
        let j = (k - 1) as nat;
        assert(edge_pass::occurrences_after(recs, true, j) is Ok);
        lemma_forward_walks(recs, j);
        let u = edge_pass::occurrences_after(recs, true, j)->Ok_0;
        let w = edge_pass::occurrences_after(recs, true, k)->Ok_0;
        let rel = forward_rel(recs[j as int]);
        lemma_rels_grow(recs, rel, 0, j);
        if j > 0 && u.rel != Some(rel) {
            lemma_next_position(recs, j);
        }
        let row = edge_places(recs)[j as int];
        assert(w.out =~= column_laws::occurrence_records(column_laws::placed_occurrences(edge_places(recs), k))) by {
            assert(w.out == u.out + node_pass::row_occurrences(
                rel_number(rel),
                rels_before(recs, rel, j) as u64,
                row.properties,
            ));
            assert(column_laws::placed_occurrences(edge_places(recs), k) == column_laws::placed_occurrences(
                edge_places(recs),
                j,
            ) + column_laws::placed_properties(row));
        }
        let e = emit_ids::edge_walk(recs, k)->Ok_0.entries;
        let d = emit_ids::edge_walk(recs, j)->Ok_0.entries;
        assert forall|m: int| 0 <= m < k implies (#[trigger] e[m]) == (
            wire::u64_be_at(recs[m].key, 18),
            forward_rel(recs[m]),
            place_of_forward(recs, m).1,
        ) by {
            if m < j {
                assert(e[m] == d[m]);
            }
        }
    } else {
        assert(edge_pass::occurrences_after(recs, true, 0)->Ok_0.out =~= column_laws::occurrence_records(
            column_laws::placed_occurrences(edge_places(recs), 0),
        ));
    }
}

/// Different edges of the forward run have different places.
pub proof fn lemma_forward_places_differ(recs: Seq<RecordView>, a: int, b: int)
    requires
        recs.len() <= u64::MAX,
        0 <= a < b < recs.len(),
        forward_rel(recs[a]) < 0x8000,
        forward_rel(recs[b]) < 0x8000,
    ensures
        place_of_forward(recs, a) != place_of_forward(recs, b),
        place_of_forward(recs, a).0 >= 0x8000,
        place_of_forward(recs, a).1 <= a,
{
    let x = forward_rel(recs[a]);
    let y = forward_rel(recs[b]);
    assert(x < 0x8000 && y < 0x8000 && x != y ==> 0x8000u16 | x != 0x8000u16 | y) by (bit_vector);
    assert(0x8000u16 | x >= 0x8000) by (bit_vector);
    lemma_rels_grow(recs, x, 0, a as nat);
    lemma_rels_grow(recs, x, (a + 1) as nat, b as nat);
    lemma_rels_grow(recs, x, 0, b as nat);
    lemma_rels_grow(recs, y, 0, b as nat);
    assert(rels_before(recs, x, (a + 1) as nat) == rels_before(recs, x, a as nat) + 1);
}

proof fn lemma_edge_rows(v: Seq<EdgeRecord>, k: int)
    requires
        edges_valid(v),
        0 <= k < v.len(),
    ensures
        0 <= edge_of_row(v, k) < v.len(),
        runs::sorted_records(edge_pass::staged_edge_rows(v)).len() == v.len(),
        runs::sorted_records(edge_pass::staged_edge_rows(v))[k] == edge_pass::edge_row(v[edge_of_row(v, k)]),
        staging::split_row_key(runs::sorted_records(edge_pass::staged_edge_rows(v))[k].key) == Ok::<
            (Seq<char>, u64),
            GenerationError,
        >((v[edge_of_row(v, k)].edge_type, v[edge_of_row(v, k)].id)),
        staging::split_edge_payload(runs::sorted_records(edge_pass::staged_edge_rows(v))[k].payload) == Ok::<
            (u64, u64, Seq<u8>),
            GenerationError,
        >(
            (
                v[edge_of_row(v, k)].src,
                v[edge_of_row(v, k)].dst,
                staging::properties_record(v[edge_of_row(v, k)].properties),
            ),
        ),
{
    let rows = edge_pass::staged_edge_rows(v);
    runs::lemma_sorted_records(rows);
    let i = sorting::stable_order(runs::record_keys(rows))[k];
    assert(0 <= i < v.len());
    faults::lemma_no_fault(v.len(), edge_pass::edge_checks(v));
    assert(edge_pass::edge_checks(v)(i) is None);
    staging::lemma_row_key_round_trip(v[i].edge_type, v[i].id);
    staging::lemma_edge_payload_round_trip(v[i].src, v[i].dst, staging::properties_record(v[i].properties));
}

/// The forward records of edge rows are those of the edges.
proof fn lemma_forward_records(
    n: NodeStageView,
    keys: Seq<RelKey>,
    decls: Seq<DeclRecord>,
    v: Seq<EdgeRecord>,
    k: nat,
)
    requires
        edges_valid(v),
        k <= v.len(),
        edge_pass::forward_records(
            n.index,
            keys,
            n.labels,
            n.entries,
            decls,
            runs::sorted_records(edge_pass::staged_edge_rows(v)),
            k,
        ) is Ok,
    ensures
        edge_pass::forward_records(
            n.index,
            keys,
            n.labels,
            n.entries,
            decls,
            runs::sorted_records(edge_pass::staged_edge_rows(v)),
            k,
        )->Ok_0 == edges_forward(n.index, keys, v).take(k as int),
        forall|a: int|
            0 <= a < k ==> edge_resolves(n.index, keys, v[#[trigger] edge_of_row(v, a)]),
    decreases k,
{
    let rows = runs::sorted_records(edge_pass::staged_edge_rows(v));
    let all = edges_forward(n.index, keys, v);
    if k > 0 {
        let j = (k - 1) as nat;
        assert(edge_pass::forward_records(n.index, keys, n.labels, n.entries, decls, rows, j) is Ok);
        lemma_forward_records(n, keys, decls, v, j);
        lemma_edge_rows(v, j as int);
        assert(all.take(k as int) =~= all.take(j as int).push(all[j as int]));
    } else {
        assert(all.take(0) =~= Seq::empty());
    }
}

/// What holds of the edge at `m` in the forward run.
pub open spec fn edge_placed(
    index: Seq<IdEntry>,
    keys: Seq<RelKey>,
    v: Seq<EdgeRecord>,
    recs: Seq<RecordView>,
    m: int,
) -> bool {
    let i = edge_of_forward(index, keys, v, m);
    &&& 0 <= i < v.len()
    &&& edge_resolves(index, keys, v[i])
    &&& recs[m] == edge_forward(index, keys, v[i])
    &&& forward_rel(recs[m]) == keys.index_of(edge_table(index, v[i]))
    &&& wire::u64_be_at(recs[m].key, 18) == v[i].id
    &&& node_pass::row_properties(recs[m].payload) == Ok::<Seq<Property>, GenerationError>(v[i].properties)
}

proof fn lemma_edge_placed(index: Seq<IdEntry>, keys: Seq<RelKey>, v: Seq<EdgeRecord>, m: int)
    requires
        edges_valid(v),
        keys.len() <= 0x1_0000,
        0 <= m < v.len(),
        faults::first_fault(v.len(), edge_pass::edge_checks(v)) is None,
        forall|a: int|
            0 <= a < v.len() ==> edge_resolves(index, keys, v[#[trigger] edge_of_row(v, a)]),
    ensures
        edge_placed(index, keys, v, runs::sorted_records(edges_forward(index, keys, v)), m),
        runs::sorted_records(edges_forward(index, keys, v))[m].key.len() == 26,
{
    let f = edges_forward(index, keys, v);
    let recs = runs::sorted_records(f);
    runs::lemma_sorted_records(f);
    let k = sorting::stable_order(runs::record_keys(f))[m];
    lemma_edge_rows(v, k);
    let i = edge_of_row(v, k);
    let e = v[i];
    assert(edge_resolves(index, keys, e));
    let rel = keys.index_of(edge_table(index, e));
    assert(keys[rel] == edge_table(index, e));
    csr_pass::lemma_edge_key_round_trip(
        rel as u16,
        indexed_place(index, e.src).1,
        indexed_place(index, e.dst).1,
        e.id,
    );
    faults::lemma_no_fault(v.len(), edge_pass::edge_checks(v));
    assert(edge_pass::edge_checks(v)(i) is None);
    node_pass::lemma_row_properties_round_trip(e.properties);
}

/// Every edge is in the forward run once, in the table of its type and its
/// endpoints' tables, between the rows of its endpoints; the edge lookup gives
/// it its position there, and the properties of all edges are staged under
/// their positions.
pub proof fn lemma_edges_are_placed(
    n: NodeStageView,
    v: Seq<EdgeRecord>,
    decls: Seq<DeclRecord>,
    e: EdgeStageView,
)
    requires
        edges_valid(v),
        stages::edge_stage(n, v, decls) == Ok::<EdgeStageView, GenerationError>(e),
    ensures
        e.keys.len() <= 0x1_0000,
        e.forward == runs::sorted_records(edges_forward(n.index, e.keys, v)),
        e.forward.len() == v.len(),
        rels_sorted(e.forward),
        forall|m: int|
            0 <= m < v.len() ==> #[trigger] edge_placed(n.index, e.keys, v, e.forward, m),
        e.occurrences == column_laws::occurrence_records(column_laws::placed_occurrences(edge_places(e.forward), v.len())),
        emit_ids::edge_walk(e.forward, v.len()) is Ok,
        forall|m: int|
            0 <= m < v.len() ==> (#[trigger] emit_ids::edge_walk(e.forward, v.len())->Ok_0.entries[m]) == (
                wire::u64_be_at(e.forward[m].key, 18),
                forward_rel(e.forward[m]),
                place_of_forward(e.forward, m).1,
            ),
{
    let rows = runs::sorted_records(edge_pass::staged_edge_rows(v));
    runs::lemma_sorted_records(edge_pass::staged_edge_rows(v));
    let f = edges_forward(n.index, e.keys, v);
    lemma_forward_records(n, e.keys, decls, v, v.len());
    assert(f.take(v.len() as int) =~= f);
    runs::lemma_sorted_records(f);
    assert forall|m: int| 0 <= m < v.len() implies #[trigger] edge_placed(
        n.index,
        e.keys,
        v,
        e.forward,
        m,
    ) && e.forward[m].key.len() == 26 by {
        lemma_edge_placed(n.index, e.keys, v, m);
    }
    let keys = runs::record_keys(e.forward);
    assert forall|a: int| 0 <= a < v.len() implies (#[trigger] e.forward[a]).key.len() == 26 by {
        assert(edge_placed(n.index, e.keys, v, e.forward, a));
    }
    assert forall|a: int, b: int| 0 <= a < b < v.len() implies forward_rel(
        #[trigger] e.forward[a],
    ) <= forward_rel(#[trigger] e.forward[b]) by {
        assert(edge_placed(n.index, e.keys, v, e.forward, a));
        assert(edge_placed(n.index, e.keys, v, e.forward, b));
        let x = v[edge_of_forward(n.index, e.keys, v, a)];
        let y = v[edge_of_forward(n.index, e.keys, v, b)];
        assert(wire::lex_le(keys[a], keys[b]));
        csr_pass::lemma_edge_key_order(
            (
                e.keys.index_of(edge_table(n.index, x)) as u16,
                indexed_place(n.index, x.src).1,
                indexed_place(n.index, x.dst).1,
                x.id,
            ),
            (
                e.keys.index_of(edge_table(n.index, y)) as u16,
                indexed_place(n.index, y.src).1,
                indexed_place(n.index, y.dst).1,
                y.id,
            ),
        );
        assert(e.keys[e.keys.index_of(edge_table(n.index, x))] == edge_table(n.index, x));
        assert(e.keys[e.keys.index_of(edge_table(n.index, y))] == edge_table(n.index, y));
    }
    lemma_forward_walks(e.forward, v.len());
}

/// Every edge is somewhere in the forward run.
pub proof fn lemma_edge_has_a_position(
    index: Seq<IdEntry>,
    keys: Seq<RelKey>,
    v: Seq<EdgeRecord>,
    i: int,
) -> (m: int)
    requires
        0 <= i < v.len(),
    ensures
        0 <= m < v.len(),
        edge_of_forward(index, keys, v, m) == i,
{
    let rows = runs::record_keys(edge_pass::staged_edge_rows(v));
    sorting::lemma_stable_order(rows);
    assert(sorting::stable_order(rows).contains(i));
    let k = choose|k: int| 0 <= k < rows.len() && sorting::stable_order(rows)[k] == i;
    lemma_row_has_a_position(index, keys, v, k)
}

proof fn lemma_row_has_a_position(
    index: Seq<IdEntry>,
    keys: Seq<RelKey>,
    v: Seq<EdgeRecord>,
    k: int,
) -> (m: int)
    requires
        0 <= k < v.len(),
    ensures
        0 <= m < v.len(),
        edge_of_forward(index, keys, v, m) == edge_of_row(v, k),
{
    let f = runs::record_keys(edges_forward(index, keys, v));
    sorting::lemma_stable_order(f);
    assert(sorting::stable_order(f).contains(k));
    choose|m: int| 0 <= m < f.len() && sorting::stable_order(f)[m] == k
}

/// Every relationship table has an edge.
pub proof fn lemma_table_has_an_edge(
    n: NodeStageView,
    v: Seq<EdgeRecord>,
    decls: Seq<DeclRecord>,
    e: EdgeStageView,
    t: int,
) -> (m: int)
    requires
        edges_valid(v),
        stages::edge_stage(n, v, decls) == Ok::<EdgeStageView, GenerationError>(e),
        0 <= t < e.keys.len(),
    ensures
        0 <= m < v.len(),
        forward_rel(e.forward[m]) == t,
{
    let rows = runs::sorted_records(edge_pass::staged_edge_rows(v));
    lemma_edges_are_placed(n, v, decls, e);
    runs::lemma_sorted_records(edge_pass::staged_edge_rows(v));
    edge_pass::lemma_rel_listing(n.index, rows, rows.len());
    let set = edge_pass::rel_table_set(n.index, rows, rows.len())->Ok_0;
    let x = e.keys[t];
    assert(e.keys.contains(x));
    assert(set.contains(x));
    edge_pass::lemma_table_has_a_row(n.index, rows, rows.len(), x);
    let a = choose|a: int|
        0 <= a < rows.len() && edge_pass::resolved(n.index, #[trigger] rows[a]) is Ok && edge_pass::rel_key_of(
            edge_pass::resolved(n.index, rows[a])->Ok_0,
        ) == x;
    lemma_edge_rows(v, a);
    let m = lemma_row_has_a_position(n.index, e.keys, v, a);
    assert(edge_placed(n.index, e.keys, v, e.forward, m));
    assert(edge_table(n.index, v[edge_of_row(v, a)]) == x);
    let at = e.keys.index_of(x);
    assert(e.keys[at] == x);
    if at != t {
        edge_pass::lemma_rel_distinct(e.keys, at, t);
    }
    m
}

} // verus!
