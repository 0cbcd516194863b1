//! What the stages accept: they refuse what cannot be stored or contradicts
//! itself, and nothing else.

use crate::column_pass::{Family, GeometryView};
use crate::column_pass;
use crate::edge_pass;
use crate::faults;
use crate::generation::GenerationError;
use crate::id_index;
use crate::live_graph;
use crate::membership_index::LabelEntry;
use crate::membership_index;
use crate::node_laws;
use crate::node_pass;
use crate::opening_laws;
use crate::placement_laws;
use crate::records::{EdgeRecord, NodeRecord};
use crate::runs::RecordView;
use crate::runs;
use crate::sorting;
use crate::stages;
use crate::staging::Property;
use crate::staging;
use crate::stream_plan;
use crate::table_laws;
use crate::text;
use crate::value::ValueView;
use crate::wire;
use vstd::prelude::*;

verus! {

// -------------------------------------------------------------------- storable

/// A value can be stored: a null, a truth value, a number, a text whose length
/// fits four bytes or a vector whose length fits two.
pub open spec fn storable(v: ValueView) -> bool {
    match v {
        ValueView::Text(s) => text::utf8(s).len() < 0x1_0000_0000,
        ValueView::Vector(w) => w.len() < 0x1_0000,
        ValueView::Other(_) => false,
        _ => true,
    }
}

/// Properties can be stored: their number fits four bytes, the length of every
/// key two, and every value can be stored.
pub open spec fn all_storable(p: Seq<Property>) -> bool {
    &&& p.len() < 0x1_0000_0000
    &&& forall|i: int|
        0 <= i < p.len() ==> text::utf8((#[trigger] p[i]).0).len() < 0x1_0000 && storable(p[i].1)
}

/// Properties are refused exactly where they cannot be stored.
pub proof fn lemma_storable_properties_are_accepted(p: Seq<Property>)
    ensures
        staging::properties_fault(p) is None <==> all_storable(p),
{
    faults::lemma_no_fault(p.len(), staging::property_checks(p));
    assert forall|i: int| 0 <= i < p.len() implies ((#[trigger] staging::property_checks(p)(i)) is None
        <==> text::utf8(p[i].0).len() < 0x1_0000 && storable(p[i].1)) by {}
    if all_storable(p) {
        assert forall|i: int| 0 <= i < p.len() implies (#[trigger] staging::property_checks(p)(
            i,
        )) is None by {
            assert(text::utf8(p[i].0).len() < 0x1_0000 && storable(p[i].1));
        }
    }
    if staging::properties_fault(p) is None {
        assert forall|i: int| 0 <= i < p.len() implies text::utf8((#[trigger] p[i]).0).len() < 0x1_0000
            && storable(p[i].1) by {
            assert(staging::property_checks(p)(i) is None);
        }
    }
}

/// A row of labels is refused exactly where their number or the length of one
/// does not fit two bytes.
pub proof fn lemma_short_labels_are_accepted(labels: Seq<Seq<char>>)
    ensures
        staging::labels_fault(labels) is None <==> labels.len() < 0x1_0000 && forall|i: int|
            0 <= i < labels.len() ==> text::utf8(#[trigger] labels[i]).len() < 0x1_0000,
{
    faults::lemma_no_fault(labels.len(), staging::label_checks(labels));
    if staging::labels_fault(labels) is None {
        assert forall|i: int| 0 <= i < labels.len() implies text::utf8(#[trigger] labels[i]).len()
            < 0x1_0000 by {
            assert(staging::label_checks(labels)(i) is None);
        }
    }
}

/// A node can be stored: it has labels, in ascending order, its properties can
/// be stored, and its first label, or all of several, and their number fit two
/// bytes.
pub open spec fn node_storable(n: NodeRecord) -> bool {
    &&& n.labels.len() > 0
    &&& forall|i: int, j: int|
        0 <= i < j < n.labels.len() ==> text::text_lt(#[trigger] n.labels[i], #[trigger] n.labels[j])
    &&& all_storable(n.properties)
    &&& forall|i: int|
        0 <= i < n.labels.len() ==> text::utf8(#[trigger] n.labels[i]).len() < 0x1_0000
    &&& n.labels.len() < 0x1_0000
}

/// A node is refused exactly where it cannot be stored, and so is an edge.
pub proof fn lemma_storable_records_are_accepted(n: NodeRecord, e: EdgeRecord)
    ensures
        node_pass::node_fault(n) is None <==> node_storable(n),
        edge_pass::edge_fault(e) is None <==> all_storable(e.properties) && text::utf8(e.edge_type).len() < 0x1_0000,
{
    node_laws::lemma_labels_in_order(n.labels);
    lemma_storable_properties_are_accepted(n.properties);
    lemma_storable_properties_are_accepted(e.properties);
    lemma_short_labels_are_accepted(n.labels);
    if node_pass::node_fault(n) is None && n.labels.len() == 1 {
        assert forall|i: int| 0 <= i < n.labels.len() implies text::utf8(#[trigger] n.labels[i]).len()
            < 0x1_0000 by {
            assert(i == 0);
        }
    }
    if node_storable(n) {
        assert(text::utf8(n.labels[0]).len() < 0x1_0000);
    }
}

// ----------------------------------------------------------------------- nodes

proof fn lemma_walk_goes_through(v: Seq<NodeRecord>, k: nat)
    requires
        faults::first_fault(v.len(), node_pass::node_checks(v)) is None,
        k <= v.len(),
    ensures
        ({
            let rows = runs::sorted_records(node_pass::staged_node_rows(v));
            let w = node_pass::node_walk(node_pass::label_listing(v), rows, k);
            &&& rows.len() == v.len()
            &&& w is Ok
            &&& w->Ok_0.ids.len() == k
            &&& forall|j: int|
                0 <= j < k ==> (#[trigger] w->Ok_0.ids[j]).key == wire::put64_be(
                    v[placement_laws::node_of_row(v, j)].id,
                ) && w->Ok_0.ids[j].payload.len() == 10
        }),
    decreases k,
{
    broadcast use wire::group_wire;

    let staged = node_pass::staged_node_rows(v);
    let rows = runs::sorted_records(staged);
    runs::lemma_sorted_records(staged);
    if k > 0 {
        lemma_walk_goes_through(v, (k - 1) as nat);
        let i = placement_laws::node_of_row(v, k - 1);
        assert(0 <= i < v.len());
        assert(rows[k - 1] == node_pass::node_row(v[i]));
        faults::lemma_no_fault(v.len(), node_pass::node_checks(v));
        assert(node_pass::node_checks(v)(i) is None);
        staging::lemma_row_key_round_trip(v[i].labels[0], v[i].id);
        node_pass::lemma_row_properties_round_trip(v[i].properties);
        placement_laws::lemma_label_listing(v);
        assert(node_pass::table_labels(v).contains(v[i].labels[0]));
        assert(node_pass::label_listing(v).contains(v[i].labels[0]));
    }
}

proof fn lemma_entries_read(recs: Seq<RecordView>, k: nat)
    requires
        k <= recs.len(),
        forall|j: int|
            0 <= j < k ==> (#[trigger] recs[j]).key.len() == 8 && recs[j].payload.len() == 10,
    ensures
        stages::index_entries(recs, k) is Ok,
        stages::index_entries(recs, k)->Ok_0.len() == k,
        forall|j: int|
            0 <= j < k ==> (#[trigger] stages::index_entries(recs, k)->Ok_0[j]).0 == wire::u64_be_at(
                recs[j].key,
                0,
            ),
    decreases k,
{
    if k > 0 {
        lemma_entries_read(recs, (k - 1) as nat);
        assert(recs[k - 1].key.len() == 8);
    }
}

proof fn lemma_be_key(x: u64)
    ensures
        wire::put64_be(x).len() == 8,
        wire::u64_be_at(wire::put64_be(x), 0) == x,
{
    broadcast use wire::group_wire;

    assert(wire::put64_be(x).subrange(0, 8) =~= wire::put64_be(x));
}

/// No two nodes share an id.
pub open spec fn ids_differ(v: Seq<NodeRecord>) -> bool {
    forall|i: int, j: int| 0 <= i < j < v.len() ==> (#[trigger] v[i]).id != (#[trigger] v[j]).id
}

proof fn lemma_index_materializes(v: Seq<NodeRecord>, ids: Seq<RecordView>)
    requires
        ids_differ(v),
        ids.len() == v.len(),
        forall|j: int|
            0 <= j < v.len() ==> (#[trigger] ids[j]).key == wire::put64_be(v[placement_laws::node_of_row(v, j)].id)
                && ids[j].payload.len() == 10,
    ensures
        stages::materialized(runs::sorted_records(ids)) is Ok,
{
    let keys = runs::record_keys(ids);
    let o = sorting::stable_order(keys);
    let s = runs::sorted_records(ids);
    let n = v.len();
    runs::lemma_sorted_records(ids);
    sorting::lemma_stable_order(keys);
    sorting::lemma_stable_order(runs::record_keys(node_pass::staged_node_rows(v)));
    assert forall|a: int| 0 <= a < n implies 0 <= #[trigger] o[a] < n && 0 <= placement_laws::node_of_row(v, o[a])
        < n && s[a].key == wire::put64_be(v[placement_laws::node_of_row(v, o[a])].id) && s[a].key.len() == 8
        && s[a].payload.len() == 10 by {
        assert(s[a] == ids[o[a]]);
        lemma_be_key(v[placement_laws::node_of_row(v, o[a])].id);
    }
    assert forall|j: int| 0 <= j < n implies (#[trigger] s[j]).key.len() == 8 && s[j].payload.len()
        == 10 by {
        assert(0 <= o[j] < n);
    }
    lemma_entries_read(s, n);
    let e = stages::index_entries(s, n)->Ok_0;
    let d = id_index::id_records(e);
    id_index::lemma_id_records_round_trip(e);
    assert forall|a: int, b: int| 0 <= a < b < e.len() implies (#[trigger] e[a]).0 < (
    #[trigger] e[b]).0 by {
        assert(0 <= o[a] < n && 0 <= o[b] < n);
        let x = placement_laws::node_of_row(v, o[a]);
        let y = placement_laws::node_of_row(v, o[b]);
        lemma_be_key(v[x].id);
        lemma_be_key(v[y].id);
        assert(e[a].0 == v[x].id && e[b].0 == v[y].id);
        assert(o[a] != o[b]);
        let r = sorting::stable_order(runs::record_keys(node_pass::staged_node_rows(v)));
        assert(r[o[a]] == x && r[o[b]] == y);
        assert(x != y);
        if x < y {
            assert(v[x].id != v[y].id);
        } else {
            assert(v[y].id != v[x].id);
        }
        assert(wire::lex_le(runs::record_keys(s)[a], runs::record_keys(s)[b]));
        wire::lemma_be64_order(v[x].id, v[y].id);
    }
    table_laws::lemma_sound_index(d);
}

proof fn lemma_listing_goes_through(recs: Seq<RecordView>, n: nat)
    requires
        n <= recs.len(),
        forall|k: int|
            0 <= k < n ==> staging::split_row_key((#[trigger] recs[k]).key) is Ok && staging::decoded_labels(
                recs[k].payload,
            ) is Ok,
    ensures
        live_graph::listed_labels(recs, n) is Ok,
        live_graph::listed_labels(recs, n)->Ok_0.len() == n,
        forall|k: int|
            0 <= k < n ==> (#[trigger] live_graph::listed_labels(recs, n)->Ok_0[k]) == (
                staging::split_row_key(recs[k].key)->Ok_0.1,
                staging::decoded_labels(recs[k].payload)->Ok_0,
            ),
    decreases n,
{
    if n > 0 {
        lemma_listing_goes_through(recs, (n - 1) as nat);
        assert(staging::split_row_key(recs[n - 1].key) is Ok);
    }
}

/// The node of a record of the membership run.
spec fn listed_node(v: Seq<NodeRecord>, k: int) -> int {
    opening_laws::labelled_again(v)[sorting::stable_order(runs::record_keys(node_pass::staged_membership_rows(v)))[k]]
}

proof fn lemma_run_entries(v: Seq<NodeRecord>)
    requires
        faults::first_fault(v.len(), node_pass::node_checks(v)) is None,
    ensures
        ({
            let run = runs::sorted_records(node_pass::staged_membership_rows(v));
            let e = live_graph::listed_labels(run, run.len());
            &&& e is Ok
            &&& e->Ok_0.len() == run.len()
            &&& forall|k: int|
                0 <= k < run.len() ==> 0 <= listed_node(v, k) < v.len() && (#[trigger] e->Ok_0[k])
                    == (v[listed_node(v, k)].id, v[listed_node(v, k)].labels) && staging::labels_fault(
                    v[listed_node(v, k)].labels,
                ) is None
            &&& forall|a: int, b: int|
                0 <= a < b < run.len() ==> #[trigger] listed_node(v, a) != #[trigger] listed_node(
                    v,
                    b,
                )
        }),
{
    let rows = node_pass::staged_membership_rows(v);
    let run = runs::sorted_records(rows);
    let o = sorting::stable_order(runs::record_keys(rows));
    let l = opening_laws::labelled_again(v);
    runs::lemma_sorted_records(rows);
    sorting::lemma_stable_order(runs::record_keys(rows));
    opening_laws::lemma_labelled_again(v);
    faults::lemma_no_fault(v.len(), node_pass::node_checks(v));
    assert forall|k: int| 0 <= k < run.len() implies 0 <= listed_node(v, k) < v.len()
        && staging::labels_fault(v[listed_node(v, k)].labels) is None && staging::split_row_key(
        (#[trigger] run[k]).key,
    ) == Ok::<(Seq<char>, u64), GenerationError>(
        (v[listed_node(v, k)].labels[0], v[listed_node(v, k)].id),
    ) && staging::decoded_labels(run[k].payload) == Ok::<Seq<Seq<char>>, GenerationError>(
        v[listed_node(v, k)].labels,
    ) by {
        assert(0 <= o[k] < rows.len());
        assert(run[k] == rows[o[k]]);
        let i = l[o[k]];
        assert(rows[o[k]] == node_pass::membership_row(v[i]));
        assert(node_pass::node_checks(v)(i) is None);
        staging::lemma_row_key_round_trip(v[i].labels[0], v[i].id);
        staging::lemma_labels_round_trip(v[i].labels);
    }
    lemma_listing_goes_through(run, run.len());
    let e = live_graph::listed_labels(run, run.len())->Ok_0;
    assert forall|k: int| 0 <= k < run.len() implies 0 <= listed_node(v, k) < v.len() && (
    #[trigger] e[k]) == (v[listed_node(v, k)].id, v[listed_node(v, k)].labels) && staging::labels_fault(
        v[listed_node(v, k)].labels,
    ) is None by {
        assert(staging::split_row_key(run[k].key) is Ok);
    }
    assert forall|a: int, b: int| 0 <= a < b < run.len() implies #[trigger] listed_node(v, a)
        != #[trigger] listed_node(v, b) by {
        let x = o[a];
        let y = o[b];
        assert(0 <= x < rows.len() && 0 <= y < rows.len() && x != y);
        if x < y {
            assert(l[x] < l[y]);
        } else {
            assert(l[y] < l[x]);
        }
    }
}

proof fn lemma_distinct_entries_pass(e: Seq<LabelEntry>)
    requires
        forall|a: int, b: int| 0 <= a < b < e.len() ==> (#[trigger] e[a]).0 != (#[trigger] e[b]).0,
        forall|a: int| 0 <= a < e.len() ==> staging::labels_fault((#[trigger] e[a]).1) is None,
    ensures
        faults::first_fault(e.len(), membership_index::entry_checks(live_graph::entries_by_id(e))) is None,
{
    let keys = live_graph::entry_keys(e);
    let o = sorting::stable_order(keys);
    let w = live_graph::entries_by_id(e);
    sorting::lemma_stable_order(keys);
    faults::lemma_no_fault(e.len(), membership_index::entry_checks(w));
    assert forall|a: int| 0 <= a < e.len() implies (#[trigger] membership_index::entry_checks(w)(a)) is None by {
        assert(0 <= o[a] < e.len());
        assert(w[a] == e[o[a]]);
        if a > 0 {
            let x = o[a - 1];
            let y = o[a];
            assert(0 <= x < e.len() && x != y);
            assert(w[a - 1] == e[x]);
            if x < y {
                assert(e[x].0 != e[y].0);
            } else {
                assert(e[y].0 != e[x].0);
            }
            assert(sorting::key_leq(keys)(x, y));
            wire::lemma_be64_order(e[x].0, e[y].0);
            lemma_be_key(e[x].0);
            lemma_be_key(e[y].0);
        }
    }
}

proof fn lemma_memberships_go_through(v: Seq<NodeRecord>)
    requires
        faults::first_fault(v.len(), node_pass::node_checks(v)) is None,
        ids_differ(v),
    ensures
        live_graph::membership_entries(stages::membership_run(v)) is Ok,
{
    let rows = node_pass::staged_membership_rows(v);
    if rows.len() > 0 {
        let run = runs::sorted_records(rows);
        lemma_run_entries(v);
        runs::lemma_sorted_records(rows);
        let e = live_graph::listed_labels(run, run.len())->Ok_0;
        assert forall|a: int, b: int| 0 <= a < b < e.len() implies (#[trigger] e[a]).0 != (
        #[trigger] e[b]).0 by {
            let i = listed_node(v, a);
            let j = listed_node(v, b);
            assert(i != j);
            assert(e[a] == (v[i].id, v[i].labels) && e[b] == (v[j].id, v[j].labels));
            if i < j {
                assert(v[i].id != v[j].id);
            } else {
                assert(v[j].id != v[i].id);
            }
        }
        lemma_distinct_entries_pass(e);
    }
}

/// Nodes are accepted exactly where each can be stored, no two share an id and
/// their tables can be numbered.
pub proof fn lemma_nodes_are_accepted(v: Seq<NodeRecord>)
    ensures
        stages::node_stage(v) is Ok <==> {
            &&& forall|i: int| 0 <= i < v.len() ==> node_storable(#[trigger] v[i])
            &&& ids_differ(v)
            &&& node_pass::label_listing(v).len() <= 0x1_0000
        },
{
    faults::lemma_no_fault(v.len(), node_pass::node_checks(v));
    assert forall|i: int| 0 <= i < v.len() implies (node_storable(#[trigger] v[i]) <==> (
    node_pass::node_checks(v)(i)) is None) by {
        let e = EdgeRecord {
            id: 0,
            src: 0,
            dst: 0,
            edge_type: Seq::empty(),
            properties: Seq::empty(),
        };
        lemma_storable_records_are_accepted(v[i], e);
    }
    if forall|i: int| 0 <= i < v.len() ==> node_storable(#[trigger] v[i]) {
        assert forall|i: int| 0 <= i < v.len() implies (#[trigger] node_pass::node_checks(v)(i)) is None by {
            assert(node_storable(v[i]));
        }
    }
    if faults::first_fault(v.len(), node_pass::node_checks(v)) is None {
        assert forall|i: int| 0 <= i < v.len() implies node_storable(#[trigger] v[i]) by {
            assert(node_pass::node_checks(v)(i) is None);
        }
        node_laws::lemma_shared_ids_are_refused(v);
        if ids_differ(v) {
            lemma_walk_goes_through(v, v.len());
            let rows = runs::sorted_records(node_pass::staged_node_rows(v));
            let w = node_pass::node_walk(node_pass::label_listing(v), rows, rows.len())->Ok_0;
            lemma_index_materializes(v, w.ids);
            lemma_memberships_go_through(v);
        }
    }
}

// --------------------------------------------------------------------- columns

/// The family of a value; a null has none.
pub open spec fn family_of(v: ValueView) -> Option<Family> {
    match v {
        ValueView::Bool(_) => Some(Family::Bool),
        ValueView::Int64(_) => Some(Family::Int64),
        ValueView::Float64(_) => Some(Family::Float64),
        ValueView::Text(_) => Some(Family::Text),
        ValueView::Vector(_) => Some(Family::Vector),
        _ => None,
    }
}

/// Values go into one column: none is of an unknown kind, all but nulls are of
/// one family, and vectors are of one length, which fits two bytes.
pub open spec fn go_together(vals: Seq<ValueView>, n: int) -> bool {
    &&& forall|i: int| 0 <= i < n ==> !((#[trigger] vals[i]) is Other)
    &&& forall|i: int, j: int|
        0 <= i < j < n && family_of(#[trigger] vals[i]) is Some && family_of(
            #[trigger] vals[j],
        ) is Some ==> family_of(vals[i]) == family_of(vals[j])
    &&& forall|i: int|
        0 <= i < n && (#[trigger] vals[i]) is Vector ==> vals[i]->Vector_0.len() < 0x1_0000
    &&& forall|i: int, j: int|
        0 <= i < j < n && (#[trigger] vals[i]) is Vector && (#[trigger] vals[j]) is Vector
            ==> vals[i]->Vector_0.len() == vals[j]->Vector_0.len()
}

/// A column accepts values exactly where they go together.
pub proof fn lemma_column_accepts(table: u16, key: Seq<char>, rows: u64, vals: Seq<ValueView>, n: nat)
    requires
        n <= vals.len(),
    ensures
        column_pass::geometry_of(column_pass::blank_geometry(table, key, rows), vals, n) is Ok <==> go_together(
            vals,
            n as int,
        ),
        column_pass::geometry_of(column_pass::blank_geometry(table, key, rows), vals, n) matches Ok(g) ==> {
            &&& forall|i: int|
                0 <= i < n && family_of(#[trigger] vals[i]) is Some ==> g.family == family_of(
                    vals[i],
                )
            &&& g.family is Some ==> exists|i: int|
                0 <= i < n && family_of(#[trigger] vals[i]) is Some
            &&& forall|i: int|
                0 <= i < n && (#[trigger] vals[i]) is Vector ==> g.vector_dims == Some(
                    vals[i]->Vector_0.len() as u16,
                )
            &&& g.vector_dims is Some ==> exists|i: int|
                0 <= i < n && (#[trigger] vals[i]) is Vector
        },
    decreases n,
{
    let b = column_pass::blank_geometry(table, key, rows);
    if n > 0 {
        let p = (n - 1) as nat;
        lemma_column_accepts(table, key, rows, vals, p);
        let x = vals[n - 1];
        if go_together(vals, n as int) {
            assert(go_together(vals, p as int));
            let g = column_pass::geometry_of(b, vals, p)->Ok_0;
            assert(!(vals[n - 1] is Other));
            if g.family is Some && family_of(x) is Some {
                let i = choose|i: int| 0 <= i < p && family_of(#[trigger] vals[i]) is Some;
                assert(family_of(vals[i]) == family_of(vals[n - 1]));
            }
            if g.vector_dims is Some && x is Vector {
                let i = choose|i: int| 0 <= i < p && (#[trigger] vals[i]) is Vector;
                assert(vals[i]->Vector_0.len() == vals[n - 1]->Vector_0.len());
            }
        }
        if column_pass::geometry_of(b, vals, n) is Ok {
            let g = column_pass::geometry_of(b, vals, p)->Ok_0;
            let h = column_pass::geometry_of(b, vals, n)->Ok_0;
            assert(column_pass::geometry_step(g, x) == Ok::<GeometryView, GenerationError>(h));
            assert forall|i: int, j: int|
                0 <= i < j < n && family_of(#[trigger] vals[i]) is Some && family_of(
                    #[trigger] vals[j],
                ) is Some implies family_of(vals[i]) == family_of(vals[j]) by {
                if j == n - 1 {
                    assert(g.family == family_of(vals[i]));
                }
            }
            assert forall|i: int, j: int|
                0 <= i < j < n && (#[trigger] vals[i]) is Vector && (
                #[trigger] vals[j]) is Vector implies vals[i]->Vector_0.len()
                == vals[j]->Vector_0.len() by {
                if j == n - 1 {
                    assert(g.vector_dims == Some(vals[i]->Vector_0.len() as u16));
                    assert(vals[i]->Vector_0.len() < 0x1_0000);
                }
            }
            assert(go_together(vals, n as int));
            if family_of(x) is Some {
                assert(family_of(vals[n - 1]) is Some);
            }
            if x is Vector {
                assert(vals[n - 1] is Vector);
            }
        }
    }
}

// ------------------------------------------------------------------- streaming

/// The ids of staged rows are those that the rows are keyed by.
pub proof fn lemma_row_ids(recs: Seq<RecordView>, k: nat, id: u64)
    requires
        k <= recs.len(),
    ensures
        stream_plan::row_ids(recs, k).contains(id) <==> exists|i: int|
            0 <= i < k && staging::split_row_key((#[trigger] recs[i]).key) is Ok && staging::split_row_key(
                recs[i].key,
            )->Ok_0.1 == id,
    decreases k,
{
    if k > 0 {
        lemma_row_ids(recs, (k - 1) as nat, id);
        if exists|i: int|
            0 <= i < k && staging::split_row_key((#[trigger] recs[i]).key) is Ok && staging::split_row_key(
                recs[i].key,
            )->Ok_0.1 == id {
            let i = choose|i: int|
                0 <= i < k && staging::split_row_key((#[trigger] recs[i]).key) is Ok && staging::split_row_key(
                    recs[i].key,
                )->Ok_0.1 == id;
            if i < k - 1 {
                assert(staging::split_row_key(recs[i].key) is Ok);
            }
        }
        if staging::split_row_key(recs[k - 1].key) is Ok && staging::split_row_key(recs[k - 1].key)->Ok_0.1 == id {
            assert(staging::split_row_key(recs[k - 1].key) is Ok);
        }
    }
}

/// Merged rows share an id with no row before them, and can be read.
pub proof fn lemma_merged_rows_differ(recs: Seq<RecordView>)
    ensures
        faults::first_fault(recs.len(), stream_plan::node_merge_checks(recs)) is None <==> {
            &&& forall|i: int|
                0 <= i < recs.len() ==> staging::split_row_key((#[trigger] recs[i]).key) is Ok
                    && staging::decoded_properties(recs[i].payload) is Ok
            &&& forall|i: int, j: int|
                0 <= i < j < recs.len() ==> staging::split_row_key((#[trigger] recs[i]).key)->Ok_0.1
                    != staging::split_row_key((#[trigger] recs[j]).key)->Ok_0.1
        },
        faults::first_fault(recs.len(), stream_plan::edge_merge_checks(recs)) is None <==> {
            &&& forall|i: int|
                0 <= i < recs.len() ==> staging::split_row_key((#[trigger] recs[i]).key) is Ok
                    && staging::split_edge_payload(recs[i].payload) is Ok && staging::decoded_properties(
                    staging::split_edge_payload(recs[i].payload)->Ok_0.2,
                ) is Ok
            &&& forall|i: int, j: int|
                0 <= i < j < recs.len() ==> staging::split_row_key((#[trigger] recs[i]).key)->Ok_0.1
                    != staging::split_row_key((#[trigger] recs[j]).key)->Ok_0.1
        },
{
    let n = recs.len();
    faults::lemma_no_fault(n, stream_plan::node_merge_checks(recs));
    faults::lemma_no_fault(n, stream_plan::edge_merge_checks(recs));
    assert forall|i: int, j: int|
        0 <= i < j < n && faults::first_fault(n, stream_plan::node_merge_checks(recs)) is None implies staging::split_row_key(
        (#[trigger] recs[i]).key,
    )->Ok_0.1 != staging::split_row_key((#[trigger] recs[j]).key)->Ok_0.1 by {
        assert(stream_plan::node_merge_checks(recs)(i) is None && stream_plan::node_merge_checks(recs)(j) is None);
        lemma_row_ids(recs, j as nat, staging::split_row_key(recs[j].key)->Ok_0.1);
    }
    assert forall|i: int, j: int|
        0 <= i < j < n && faults::first_fault(n, stream_plan::edge_merge_checks(recs)) is None implies staging::split_row_key(
        (#[trigger] recs[i]).key,
    )->Ok_0.1 != staging::split_row_key((#[trigger] recs[j]).key)->Ok_0.1 by {
        assert(stream_plan::edge_merge_checks(recs)(i) is None && stream_plan::edge_merge_checks(recs)(j) is None);
        lemma_row_ids(recs, j as nat, staging::split_row_key(recs[j].key)->Ok_0.1);
    }
    if faults::first_fault(n, stream_plan::node_merge_checks(recs)) is None {
        assert forall|i: int| 0 <= i < n implies staging::split_row_key((#[trigger] recs[i]).key) is Ok
            && staging::decoded_properties(recs[i].payload) is Ok by {
            assert(stream_plan::node_merge_checks(recs)(i) is None);
        }
    }
    if faults::first_fault(n, stream_plan::edge_merge_checks(recs)) is None {
        assert forall|i: int| 0 <= i < n implies staging::split_row_key((#[trigger] recs[i]).key) is Ok
            && staging::split_edge_payload(recs[i].payload) is Ok && staging::decoded_properties(
            staging::split_edge_payload(recs[i].payload)->Ok_0.2,
        ) is Ok by {
            assert(stream_plan::edge_merge_checks(recs)(i) is None);
        }
    }
    assert forall|i: int|
        0 <= i < n && staging::split_row_key(recs[i].key) is Ok && (forall|a: int, b: int|
            0 <= a < b < n ==> staging::split_row_key((#[trigger] recs[a]).key)->Ok_0.1 != staging::split_row_key(
                (#[trigger] recs[b]).key,
            )->Ok_0.1) implies !(#[trigger] stream_plan::row_ids(recs, i as nat)).contains(
        staging::split_row_key(recs[i].key)->Ok_0.1,
    ) by {
        lemma_row_ids(recs, i as nat, staging::split_row_key(recs[i].key)->Ok_0.1);
    }
}

} // verus!
