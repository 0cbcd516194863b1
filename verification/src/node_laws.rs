//! What the node stage accepts, and what it keeps of nodes with several labels.

use crate::faults;
use crate::label_laws;
use crate::node_pass;
use crate::opening_laws;
use crate::records::NodeRecord;
use crate::records;
use crate::runs;
use crate::sorting;
use crate::staging;
use crate::text;
use crate::wire;
use vstd::prelude::*;

verus! {

proof fn lemma_valid_pair(labels: Seq<Seq<char>>, i: int, j: int)
    requires
        records::labels_valid(labels),
        0 <= i < j < labels.len(),
    ensures
        text::text_lt(labels[i], labels[j]),
    decreases j - i,
{
    assert(text::text_lt(labels[j - 1], labels[j]));
    if i < j - 1 {
        lemma_valid_pair(labels, i, j - 1);
        wire::lemma_lex_transitive(text::utf8(labels[i]), text::utf8(labels[j - 1]), text::utf8(labels[j]));
    }
}

/// Labels are in order exactly where there is one and every later label lies
/// above every earlier one, so that none stands twice.
pub proof fn lemma_labels_in_order(labels: Seq<Seq<char>>)
    ensures
        records::labels_valid(labels) <==> labels.len() > 0 && forall|i: int, j: int|
            0 <= i < j < labels.len() ==> text::text_lt(#[trigger] labels[i], #[trigger] labels[j]),
        records::labels_valid(labels) ==> labels.no_duplicates(),
{
    if records::labels_valid(labels) {
        assert forall|i: int, j: int| 0 <= i < j < labels.len() implies text::text_lt(
            #[trigger] labels[i],
            #[trigger] labels[j],
        ) by {
            lemma_valid_pair(labels, i, j);
        }
        assert forall|i: int, j: int|
            0 <= i < labels.len() && 0 <= j < labels.len() && i != j implies labels[i]
            != labels[j] by {
            wire::lemma_lex_irreflexive(text::utf8(labels[i]));
            if i < j {
                lemma_valid_pair(labels, i, j);
            } else {
                lemma_valid_pair(labels, j, i);
            }
        }
    }
}

proof fn lemma_id_row(x: u64)
    ensures
        wire::put64_be(x).len() == 8,
        wire::u64_be_at(wire::put64_be(x), 0) == x,
{
    broadcast use wire::group_wire;

    assert(wire::put64_be(x).subrange(0, 8) =~= wire::put64_be(x));
}

/// Nodes are refused for a shared id exactly where two of them share one.
pub proof fn lemma_shared_ids_are_refused(v: Seq<NodeRecord>)
    ensures
        ({
            let ids = runs::sorted_records(node_pass::staged_id_rows(v));
            &&& faults::first_fault(ids.len(), node_pass::id_checks(ids)) is None <==> forall|i: int, j: int|
                0 <= i < j < v.len() ==> (#[trigger] v[i]).id != (#[trigger] v[j]).id
        }),
{
    let rows = node_pass::staged_id_rows(v);
    let ids = runs::sorted_records(rows);
    let o = sorting::stable_order(runs::record_keys(rows));
    let n = v.len();
    runs::lemma_sorted_records(rows);
    sorting::lemma_stable_order(runs::record_keys(rows));
    faults::lemma_no_fault(ids.len(), node_pass::id_checks(ids));
    assert forall|a: int| 0 <= a < n implies 0 <= #[trigger] o[a] < n && ids[a].key == wire::put64_be(
        v[o[a]].id,
    ) && ids[a].key.len() == 8 && wire::u64_be_at(ids[a].key, 0) == v[o[a]].id by {
        assert(ids[a] == rows[o[a]]);
        lemma_id_row(v[o[a]].id);
    }
    assert forall|a: int, b: int| 0 <= a < b < n implies v[#[trigger] o[a]].id
        <= v[#[trigger] o[b]].id by {
        let x = v[o[a]].id;
        let y = v[o[b]].id;
        assert(wire::lex_le(runs::record_keys(ids)[a], runs::record_keys(ids)[b]));
        wire::lemma_be64_order(x, y);
        lemma_id_row(x);
        lemma_id_row(y);
    }
    if faults::first_fault(ids.len(), node_pass::id_checks(ids)) is None {
        assert forall|i: int, j: int| 0 <= i < j < v.len() implies (#[trigger] v[i]).id != (
        #[trigger] v[j]).id by {
            if v[i].id == v[j].id {
                assert(o.contains(i) && o.contains(j));
                let a = choose|a: int| 0 <= a < o.len() && o[a] == i;
                let b = choose|b: int| 0 <= b < o.len() && o[b] == j;
                let lo = if a < b {
                    a
                } else {
                    b
                };
                let hi = if a < b {
                    b
                } else {
                    a
                };
                assert(lo < hi);
                assert(node_pass::id_checks(ids)(hi) is None);
                assert(v[o[hi - 1]].id <= v[o[hi]].id);
                assert(wire::u64_be_at(ids[hi - 1].key, 0) == v[o[hi - 1]].id);
                assert(wire::u64_be_at(ids[hi].key, 0) == v[o[hi]].id);
                if lo < hi - 1 {
                    assert(v[o[lo]].id <= v[o[hi - 1]].id);
                }
            }
        }
    }
    if forall|i: int, j: int|
        0 <= i < j < v.len() ==> (#[trigger] v[i]).id != (#[trigger] v[j]).id {
        assert forall|a: int| 0 <= a < ids.len() implies (#[trigger] node_pass::id_checks(ids)(a)) is None by {
            assert(ids[a].key.len() == 8);
            assert(0 <= o[a] < n);
            if a > 0 {
                assert(0 <= o[a - 1] < n);
                assert(o[a - 1] != o[a]);
                assert(v[o[a - 1]].id != v[o[a]].id) by {
                    if o[a - 1] < o[a] {
                        assert(v[o[a - 1]].id != v[o[a]].id);
                    } else {
                        assert(v[o[a]].id != v[o[a - 1]].id);
                    }
                }
            }
        }
    }
}

proof fn lemma_again_complete(v: Seq<NodeRecord>, i: int)
    requires
        0 <= i < v.len(),
        v[i].labels.len() > 1,
    ensures
        opening_laws::labelled_again(v).contains(i),
    decreases v.len(),
{
    let w = v.drop_last();
    let l = opening_laws::labelled_again(v);
    if i < w.len() {
        lemma_again_complete(w, i);
        let m = opening_laws::labelled_again(w);
        let a = choose|a: int| 0 <= a < m.len() && m[a] == i;
        assert(l[a] == i);
    } else {
        assert(l[l.len() - 1] == i);
    }
}

proof fn lemma_row_lists(n: NodeRecord)
    requires
        node_pass::node_fault(n) is None,
        n.labels.len() > 1,
    ensures
        label_laws::lists_labels(node_pass::membership_row(n), n.id, n.labels),
{
    staging::lemma_row_key_round_trip(n.labels[0], n.id);
    staging::lemma_labels_round_trip(n.labels);
}

/// The membership run lists the labels of exactly the nodes that have more than
/// one.
pub proof fn lemma_membership_run_lists_the_nodes(v: Seq<NodeRecord>)
    requires
        faults::first_fault(v.len(), node_pass::node_checks(v)) is None,
    ensures
        ({
            let run = runs::sorted_records(node_pass::staged_membership_rows(v));
            &&& forall|i: int|
                0 <= i < v.len() && (#[trigger] v[i]).labels.len() > 1 ==> exists|k: int|
                    0 <= k < run.len() && label_laws::lists_labels(#[trigger] run[k], v[i].id, v[i].labels)
            &&& forall|k: int|
                0 <= k < run.len() ==> exists|i: int|
                    0 <= i < v.len() && (#[trigger] v[i]).labels.len() > 1 && label_laws::lists_labels(
                        #[trigger] run[k],
                        v[i].id,
                        v[i].labels,
                    )
        }),
{
    let rows = node_pass::staged_membership_rows(v);
    let run = runs::sorted_records(rows);
    let o = sorting::stable_order(runs::record_keys(rows));
    runs::lemma_sorted_records(rows);
    sorting::lemma_stable_order(runs::record_keys(rows));
    opening_laws::lemma_labelled_again(v);
    faults::lemma_no_fault(v.len(), node_pass::node_checks(v));
    let l = opening_laws::labelled_again(v);
    assert forall|i: int| 0 <= i < v.len() && (#[trigger] v[i]).labels.len() > 1 implies exists|
        k: int,
    |
        0 <= k < run.len() && label_laws::lists_labels(#[trigger] run[k], v[i].id, v[i].labels) by {
        assert(node_pass::node_checks(v)(i) is None);
        lemma_again_complete(v, i);
        let a = choose|a: int| 0 <= a < l.len() && l[a] == i;
        assert(rows[a] == node_pass::membership_row(v[l[a]]));
        assert(o.contains(a));
        let k = choose|k: int| 0 <= k < o.len() && o[k] == a;
        assert(run[k] == rows[o[k]]);
        lemma_row_lists(v[i]);
        assert(label_laws::lists_labels(run[k], v[i].id, v[i].labels));
    }
    assert forall|k: int| 0 <= k < run.len() implies exists|i: int|
        0 <= i < v.len() && (#[trigger] v[i]).labels.len() > 1 && label_laws::lists_labels(
            #[trigger] run[k],
            v[i].id,
            v[i].labels,
        ) by {
        assert(0 <= o[k] < rows.len());
        assert(run[k] == rows[o[k]]);
        let i = l[o[k]];
        assert(0 <= i < v.len() && v[i].labels.len() > 1 && rows[o[k]] == node_pass::membership_row(v[i]));
        assert(node_pass::node_checks(v)(i) is None);
        lemma_row_lists(v[i]);
        assert(label_laws::lists_labels(run[k], v[i].id, v[i].labels));
    }
}

} // verus!
