//! Directories, id maps and statistics by what they list.

use crate::chain_laws;
use crate::directory::{SegmentEntry, SegmentKind};
use crate::directory;
use crate::faults;
use crate::id_index::IdEntry;
use crate::id_index;
use crate::id_lookup::LookupEntry;
use crate::payload;
use crate::section;
use crate::section_frame::{SectionNodeView, SectionRelView};
use vstd::prelude::*;

verus! {

// ---------------------------------------------------------------------- faults

/// What is reported is wrong with the first place at which anything is wrong.
pub proof fn lemma_first_fault_is_first<E>(n: nat, check: spec_fn(int) -> Option<E>)
    ensures
        match faults::first_fault(n, check) {
            Some(e) => exists|i: int|
                {
                    &&& 0 <= i < n
                    &&& #[trigger] check(i) == Some(e)
                    &&& forall|j: int| 0 <= j < i ==> (#[trigger] check(j)) is None
                },
            None => forall|j: int| 0 <= j < n ==> (#[trigger] check(j)) is None,
        },
    decreases n,
{
    if n > 0 {
        lemma_first_fault_is_first((n - 1) as nat, check);
        if faults::first_fault((n - 1) as nat, check) is None {
            assert(check(n - 1) == check(n - 1));
        }
    }
}

// ----------------------------------------------------------------- directories

/// A segment of a kind is found exactly where the directory lists one, and it is
/// the first of them.
pub proof fn lemma_first_of_kind_is_found(entries: Seq<SegmentEntry>, kind: SegmentKind)
    ensures
        match directory::find_kind(entries, kind) {
            Some(e) => exists|i: int|
                {
                    &&& 0 <= i < entries.len()
                    &&& #[trigger] entries[i] == e
                    &&& e.kind == kind
                    &&& forall|j: int| 0 <= j < i ==> (#[trigger] entries[j]).kind != kind
                },
            None => forall|j: int| 0 <= j < entries.len() ==> (#[trigger] entries[j]).kind != kind,
        },
    decreases entries.len(),
{
    if entries.len() > 0 {
        let w = entries.drop_last();
        lemma_first_of_kind_is_found(w, kind);
        assert(forall|j: int| 0 <= j < w.len() ==> w[j] == entries[j]);
        match directory::find_kind(w, kind) {
            Some(e) => {
                let i = choose|i: int|
                    {
                        &&& 0 <= i < w.len()
                        &&& #[trigger] w[i] == e
                        &&& e.kind == kind
                        &&& forall|j: int| 0 <= j < i ==> (#[trigger] w[j]).kind != kind
                    };
                assert(entries[i] == e);
                assert forall|j: int| 0 <= j < i implies (#[trigger] entries[j]).kind != kind by {
                    assert(w[j] == entries[j]);
                }
            },
            None => {
                assert forall|j: int| 0 <= j < w.len() implies (#[trigger] entries[j]).kind
                    != kind by {
                    assert(w[j] == entries[j]);
                }
                assert(entries[entries.len() - 1] == entries.last());
            },
        }
    }
}

/// A segment is within its payload exactly where it starts no earlier than the
/// data, ends no later than the payload, starts at a multiple of its alignment,
/// which is a power of two up to sixteen, and has room for its elements.
pub proof fn lemma_segments_within_the_payload(e: SegmentEntry, payload_len: u64, data_offset: u64)
    ensures
        directory::range_fault(e, payload_len, data_offset) is None <==> {
            let a = if e.alignment == 0 {
                1u16
            } else {
                e.alignment
            };
            &&& data_offset <= e.offset
            &&& e.offset + e.length <= payload_len
            &&& a == 1 || a == 2 || a == 4 || a == 8 || a == 16
            &&& e.offset % (a as u64) == 0
            &&& e.element_width == 0 || e.element_count * e.element_width <= e.length
        },
{
}

/// A flag is set for each companion that is there, and for no other.
pub proof fn lemma_flags_tell_the_companions(membership: bool, presence: bool, null: bool)
    ensures
        payload::flag_set(payload::companion_flags(membership, presence, null), 1) == membership,
        payload::flag_set(payload::companion_flags(membership, presence, null), 2) == presence,
        payload::flag_set(payload::companion_flags(membership, presence, null), 4) == null,
        payload::companion_flags(membership, presence, null) < 8,
{
}

/// An alignment is the least multiple that is not below.
pub proof fn lemma_alignment_is_least(value: int, align: int, other: int)
    requires
        value >= 0,
        align > 0,
        other % align == 0,
        other >= value,
    ensures
        value <= payload::aligned(value, align) <= other,
        payload::aligned(value, align) % align == 0,
{
    payload::lemma_aligned(value, align);
    let r = payload::aligned(value, align);
    if other < r {
        let x = r / align;
        let y = other / align;
        assert(r == align * x && other == align * y) by (nonlinear_arith)
            requires
                r % align == 0,
                other % align == 0,
                x == r / align,
                y == other / align,
                align > 0,
        ;
        assert(align * x - align * y >= align) by (nonlinear_arith)
            requires
                align * y < align * x,
                align > 0,
        ;
    }
}

// -------------------------------------------------------------------- indexes

proof fn lemma_index_step(d: Seq<u8>, i: int, j: int)
    requires
        id_index::id_index_fault(d) is None,
        0 <= i < j < id_index::id_entries_of(d).len(),
    ensures
        id_index::id_entries_of(d)[i].0 < id_index::id_entries_of(d)[j].0,
    decreases j - i,
{
    faults::lemma_no_fault(d.len() / 18, id_index::id_order_checks(d));
    assert(id_index::id_order_checks(d)(j) is None);
    if i < j - 1 {
        lemma_index_step(d, i, j - 1);
    }
}

/// An id index is sound exactly where it is a whole number of records whose ids
/// ascend strictly.
pub proof fn lemma_sound_index(d: Seq<u8>)
    ensures
        id_index::id_index_fault(d) is None <==> d.len() % 18 == 0 && forall|i: int, j: int|
            0 <= i < j < id_index::id_entries_of(d).len() ==> (#[trigger] id_index::id_entries_of(d)[i]).0 < (
            #[trigger] id_index::id_entries_of(d)[j]).0,
{
    let v = id_index::id_entries_of(d);
    faults::lemma_no_fault(d.len() / 18, id_index::id_order_checks(d));
    if id_index::id_index_fault(d) is None {
        assert forall|i: int, j: int| 0 <= i < j < v.len() implies (#[trigger] v[i]).0 < (
        #[trigger] v[j]).0 by {
            lemma_index_step(d, i, j);
        }
    }
    if d.len() % 18 == 0 && forall|i: int, j: int|
        0 <= i < j < v.len() ==> (#[trigger] v[i]).0 < (#[trigger] v[j]).0 {
        assert forall|i: int| 0 <= i < d.len() / 18 implies (#[trigger] id_index::id_order_checks(
            d,
        )(i)) is None by {
            if i > 0 {
                assert(v[i - 1].0 < v[i].0);
            }
        }
    }
}

/// An index finds an id exactly where a record has it, and gives that record's
/// place.
pub proof fn lemma_index_finds(v: Seq<IdEntry>, id: u64)
    requires
        forall|i: int, j: int| 0 <= i < j < v.len() ==> (#[trigger] v[i]).0 < (#[trigger] v[j]).0,
    ensures
        forall|i: int|
            0 <= i < v.len() && (#[trigger] v[i]).0 == id ==> id_index::id_entry_for(v, id) == Some(
                (v[i].1, v[i].2),
            ),
        id_index::id_entry_for(v, id) is Some ==> exists|i: int|
            0 <= i < v.len() && (#[trigger] v[i]).0 == id,
{
    assert forall|i: int| 0 <= i < v.len() && (#[trigger] v[i]).0 == id implies id_index::id_entry_for(v, id)
        == Some((v[i].1, v[i].2)) by {
        let k = choose|k: int| 0 <= k < v.len() && (#[trigger] v[k]).0 == id;
        if k < i {
            assert(v[k].0 < v[i].0);
        }
        if i < k {
            assert(v[i].0 < v[k].0);
        }
    }
}

// ----------------------------------------------------------------------- maps

/// A map that is filled in order holds under each key the last value that was
/// put there, and keys without a value do not occur.
pub proof fn lemma_last_put_counts<V>(keys: Seq<Seq<char>>, vals: Seq<Option<V>>, n: int)
    requires
        0 <= n <= keys.len(),
        n <= vals.len(),
    ensures
        forall|k: Seq<char>| #[trigger]
            section::put_all(keys, vals, n).dom().contains(k) <==> exists|i: int|
                0 <= i < n && #[trigger] keys[i] == k && vals[i] is Some,
        forall|i: int|
            0 <= i < n && vals[i] is Some && (forall|j: int|
                i < j < n ==> keys[j] != keys[i] || vals[j] is None) ==> section::put_all(
                keys,
                vals,
                n,
            )[#[trigger] keys[i]] == vals[i]->0,
    decreases n,
{
    if n > 0 {
        lemma_last_put_counts(keys, vals, n - 1);
        let m = section::put_all(keys, vals, n - 1);
        let r = section::put_all(keys, vals, n);
        assert forall|k: Seq<char>| #[trigger] r.dom().contains(k) <==> exists|i: int|
            0 <= i < n && #[trigger] keys[i] == k && vals[i] is Some by {
            assert(m.dom().contains(k) <==> exists|i: int|
                0 <= i < n - 1 && #[trigger] keys[i] == k && vals[i] is Some);
            if vals[n - 1] is Some && keys[n - 1] == k {
                assert(keys[n - 1] == k);
            }
        }
        assert forall|i: int|
            0 <= i < n && vals[i] is Some && (forall|j: int|
                i < j < n ==> keys[j] != keys[i] || vals[j] is None) implies r[#[trigger] keys[i]]
            == vals[i]->0 by {
            if i < n - 1 {
                assert(keys[n - 1] != keys[i] || vals[n - 1] is None);
                assert(m[keys[i]] == vals[i]->0);
            }
        }
    }
}

/// A node or an edge with an id is placed where its last entry says, and ids
/// without an entry have no place.
pub proof fn lemma_ids_have_their_places(v: Seq<LookupEntry>, n: int)
    requires
        0 <= n <= v.len(),
    ensures
        forall|id: u64| #[trigger]
            section::id_places(v, n).dom().contains(id) <==> exists|i: int|
                0 <= i < n && (#[trigger] v[i]).0 == id,
        forall|i: int|
            0 <= i < n && (forall|j: int| i < j < n ==> v[j].0 != v[i].0) ==> section::id_places(v, n)[(
            #[trigger] v[i]).0] == (v[i].1, v[i].2),
    decreases n,
{
    if n > 0 {
        lemma_ids_have_their_places(v, n - 1);
        let m = section::id_places(v, n - 1);
        let r = section::id_places(v, n);
        assert forall|id: u64| #[trigger] r.dom().contains(id) <==> exists|i: int|
            0 <= i < n && (#[trigger] v[i]).0 == id by {
            assert(m.dom().contains(id) <==> exists|i: int|
                0 <= i < n - 1 && (#[trigger] v[i]).0 == id);
            if v[n - 1].0 == id {
                assert(v[n - 1].0 == id);
            }
        }
        assert forall|i: int|
            0 <= i < n && (forall|j: int| i < j < n ==> v[j].0 != v[i].0) implies r[(
        #[trigger] v[i]).0] == (v[i].1, v[i].2) by {
            if i < n - 1 {
                assert(v[n - 1].0 != v[i].0);
                assert(m[v[i].0] == (v[i].1, v[i].2));
            }
        }
    }
}

/// A row has the id that its last entry says, and a row without an entry has
/// none: what is looked up by id is found again by place.
pub proof fn lemma_rows_have_their_ids(v: Seq<LookupEntry>, tables: int, n: int)
    requires
        0 <= n <= v.len(),
        0 <= tables,
        forall|i: int| 0 <= i < v.len() ==> (#[trigger] v[i]).1 < tables,
    ensures
        section::reverse_rows(v, tables, n).len() == tables,
        forall|i: int|
            0 <= i < n && (forall|j: int| i < j < n ==> v[j].1 != v[i].1 || v[j].2 != v[i].2) ==> {
                &&& (#[trigger] v[i]).2 < section::reverse_rows(v, tables, n)[v[i].1 as int].len()
                &&& section::reverse_rows(v, tables, n)[v[i].1 as int][v[i].2 as int] == Some(v[i].0)
            },
        forall|t: int, o: int|
            #![trigger section::reverse_rows(v, tables, n)[t][o]]
            0 <= t < tables && 0 <= o < section::reverse_rows(v, tables, n)[t].len() && section::reverse_rows(
                v,
                tables,
                n,
            )[t][o] is Some ==> exists|i: int|
                0 <= i < n && #[trigger] v[i] == (
                    section::reverse_rows(v, tables, n)[t][o]->0,
                    t as u16,
                    o as u64,
                ),
    decreases n,
{
    let r = section::reverse_rows(v, tables, n);
    if n > 0 {
        lemma_rows_have_their_ids(v, tables, n - 1);
        let q = section::reverse_rows(v, tables, n - 1);
        let e = v[n - 1];
        assert(e.1 < tables);
        let row = section::placed(q[e.1 as int], e.2 as int, e.0);
        assert(r == q.update(e.1 as int, row));
        assert forall|i: int|
            0 <= i < n && (forall|j: int|
                i < j < n ==> v[j].1 != v[i].1 || v[j].2 != v[i].2) implies (#[trigger] v[i]).2
            < r[v[i].1 as int].len() && r[v[i].1 as int][v[i].2 as int] == Some(v[i].0) by {
            if i < n - 1 {
                assert(v[n - 1].1 != v[i].1 || v[n - 1].2 != v[i].2);
                assert(v[i].1 < tables);
                assert(v[i].2 < q[v[i].1 as int].len() && q[v[i].1 as int][v[i].2 as int] == Some(
                    v[i].0,
                ));
            }
        }
        assert forall|t: int, o: int|
            #![trigger r[t][o]]
            0 <= t < tables && 0 <= o < r[t].len() && r[t][o] is Some implies exists|i: int|
            0 <= i < n && #[trigger] v[i] == (r[t][o]->0, t as u16, o as u64) by {
            if t == e.1 && o == e.2 {
                assert(v[n - 1] == (r[t][o]->0, t as u16, o as u64));
            } else {
                if t == e.1 {
                    assert(o < q[t].len());
                    assert(r[t][o] == q[t][o]);
                } else {
                    assert(r[t] == q[t]);
                }
                let i = choose|i: int|
                    0 <= i < n - 1 && #[trigger] v[i] == (q[t][o]->0, t as u16, o as u64);
                assert(v[i] == (r[t][o]->0, t as u16, o as u64));
            }
        }
    }
}

// ------------------------------------------------------------------ statistics

/// The counts of a section add up: its nodes table by table, its edges table by
/// table, and those of a type over the tables of that type.
pub proof fn lemma_totals_add_up(
    nodes: Seq<SectionNodeView>,
    rels: Seq<SectionRelView>,
    edge_type: Seq<char>,
)
    ensures
        section::node_total(nodes, nodes.len() as int) >= 0,
        section::edge_total(rels, rels.len() as int) >= 0,
        section::type_total(rels, edge_type, rels.len() as int) >= 0,
        chain_laws::adds_up(
            section::node_total(nodes, nodes.len() as int) as nat,
            Seq::new(nodes.len(), |i: int| nodes[i].rows as nat),
            0,
        ),
        chain_laws::adds_up(
            section::edge_total(rels, rels.len() as int) as nat,
            Seq::new(rels.len(), |i: int| rels[i].edges as nat),
            0,
        ),
        chain_laws::adds_up(
            section::type_total(rels, edge_type, rels.len() as int) as nat,
            Seq::new(
                rels.len(),
                |i: int|
                    if rels[i].edge_type == edge_type {
                        rels[i].edges as nat
                    } else {
                        0
                    },
            ),
            0,
        ),
{
    let a = Seq::new(nodes.len(), |i: int| nodes[i].rows as nat);
    let x = Seq::new(nodes.len() + 1, |i: int| section::node_total(nodes, i) as nat);
    assert forall|i: int| 0 <= i <= nodes.len() implies section::node_total(nodes, i) >= 0 by {
        lemma_node_total_sign(nodes, i);
    }
    assert(chain_laws::are_sums(x, a));
    let b = Seq::new(rels.len(), |i: int| rels[i].edges as nat);
    let y = Seq::new(rels.len() + 1, |i: int| section::edge_total(rels, i) as nat);
    assert forall|i: int| 0 <= i <= rels.len() implies section::edge_total(rels, i) >= 0 && section::type_total(
        rels,
        edge_type,
        i,
    ) >= 0 by {
        lemma_edge_total_sign(rels, edge_type, i);
    }
    assert(chain_laws::are_sums(y, b));
    let c = Seq::new(
        rels.len(),
        |i: int|
            if rels[i].edge_type == edge_type {
                rels[i].edges as nat
            } else {
                0
            },
    );
    let z = Seq::new(rels.len() + 1, |i: int| section::type_total(rels, edge_type, i) as nat);
    assert forall|i: int| #![trigger c[i]] 0 <= i < c.len() implies z[i + 1] == z[i] + c[i] by {
        lemma_edge_total_sign(rels, edge_type, i);
        lemma_edge_total_sign(rels, edge_type, i + 1);
        assert(z[i] == section::type_total(rels, edge_type, i));
        assert(z[i + 1] == section::type_total(rels, edge_type, i + 1));
    }
    assert(chain_laws::are_sums(z, c));
    assert(x[a.len() as int] == section::node_total(nodes, nodes.len() as int));
    assert(y[b.len() as int] == section::edge_total(rels, rels.len() as int));
    assert(z[c.len() as int] == section::type_total(rels, edge_type, rels.len() as int));
}

proof fn lemma_node_total_sign(v: Seq<SectionNodeView>, n: int)
    ensures
        section::node_total(v, n) >= 0,
    decreases n,
{
    if n > 0 {
        lemma_node_total_sign(v, n - 1);
    }
}

proof fn lemma_edge_total_sign(v: Seq<SectionRelView>, t: Seq<char>, n: int)
    ensures
        section::edge_total(v, n) >= 0,
        section::type_total(v, t, n) >= 0,
    decreases n,
{
    if n > 0 {
        lemma_edge_total_sign(v, t, n - 1);
    }
}

} // verus!
