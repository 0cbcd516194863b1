//! Which texts are collected and numbered, and where their codes end up.

use crate::code_index;
use crate::column_pass::GeometryView;
use crate::dict_pass::{ChunkView, OccurrenceView, RemapWalk, StringUseKind};
use crate::dict_pass;
use crate::generation::GenerationError;
use crate::intern;
use crate::node_pass;
use crate::runs::RecordView;
use crate::sorting;
use crate::staging;
use crate::text;
use crate::wire;
use vstd::prelude::*;

verus! {

// ------------------------------------------------------------------ collection

/// A text is used without an owner.
pub open spec fn plainly(x: OccurrenceView, s: Seq<char>, kind: StringUseKind) -> bool {
    x.text == text::utf8(s) && x.kind == kind && x.owner.len() == 0
}

/// A record of an occurrence uses a text: the name of its property, or the text
/// that it holds, which belongs to the column.
pub open spec fn occurrence_uses(rec: RecordView, x: OccurrenceView) -> bool {
    node_pass::split_occ(rec.key) matches Ok(k) && (plainly(x, k.1, StringUseKind::PropertyKey) || (
    dict_pass::staged_text(rec.payload) == Some(x.text) && x.kind == StringUseKind::DictValue && x.owner
        == dict_pass::column_owner(k.0, k.1)))
}

/// A membership record uses a text: one of its labels.
pub open spec fn membership_uses_text(rec: RecordView, x: OccurrenceView) -> bool {
    staging::decoded_labels(rec.payload) matches Ok(l) && exists|j: int|
        0 <= j < l.len() && plainly(x, #[trigger] l[j], StringUseKind::Label)
}

/// A text is used by a label, a type, a membership record or an occurrence.
pub open spec fn used(
    labels: Seq<Seq<char>>,
    types: Seq<Seq<char>>,
    membership: Seq<RecordView>,
    occ: Seq<RecordView>,
    x: OccurrenceView,
) -> bool {
    ||| exists|i: int|
        0 <= i < labels.len() && plainly(x, #[trigger] labels[i], StringUseKind::Label)
    ||| exists|i: int|
        0 <= i < types.len() && plainly(x, #[trigger] types[i], StringUseKind::EdgeType)
    ||| exists|i: int| 0 <= i < membership.len() && membership_uses_text(#[trigger] membership[i], x)
    ||| exists|i: int| 0 <= i < occ.len() && occurrence_uses(#[trigger] occ[i], x)
}

proof fn lemma_free_uses(v: Seq<Seq<char>>, kind: StringUseKind, x: OccurrenceView)
    ensures
        dict_pass::free_uses(v, kind).contains(x) <==> exists|i: int|
            0 <= i < v.len() && plainly(x, #[trigger] v[i], kind),
{
    let u = dict_pass::free_uses(v, kind);
    if u.contains(x) {
        let i = choose|i: int| 0 <= i < u.len() && u[i] == x;
        assert(plainly(x, v[i], kind));
    }
    if exists|i: int| 0 <= i < v.len() && plainly(x, #[trigger] v[i], kind) {
        let i = choose|i: int| 0 <= i < v.len() && plainly(x, #[trigger] v[i], kind);
        assert(x.owner =~= Seq::<u8>::empty());
        assert(u[i] == x);
    }
}

/// What two lists hold together, one of them holds.
pub proof fn lemma_either<A>(a: Seq<A>, b: Seq<A>, x: A)
    ensures
        (a + b).contains(x) <==> a.contains(x) || b.contains(x),
{
    let c = a + b;
    if a.contains(x) {
        let i = choose|i: int| 0 <= i < a.len() && a[i] == x;
        assert(c[i] == x);
    }
    if b.contains(x) {
        let i = choose|i: int| 0 <= i < b.len() && b[i] == x;
        assert(c[a.len() + i] == x);
    }
    if c.contains(x) {
        let i = choose|i: int| 0 <= i < c.len() && c[i] == x;
        if i < a.len() {
            assert(a[i] == x);
        } else {
            assert(b[i - a.len()] == x);
        }
    }
}

proof fn lemma_membership_uses(recs: Seq<RecordView>, n: nat, x: OccurrenceView)
    requires
        n <= recs.len(),
        dict_pass::membership_uses(recs, n) is Ok,
    ensures
        dict_pass::membership_uses(recs, n)->Ok_0.contains(x) <==> exists|i: int|
            0 <= i < n && membership_uses_text(#[trigger] recs[i], x),
    decreases n,
{
    if n > 0 {
        let p = (n - 1) as nat;
        lemma_membership_uses(recs, p, x);
        let a = dict_pass::membership_uses(recs, p)->Ok_0;
        let l = staging::decoded_labels(recs[n - 1].payload)->Ok_0;
        let b = dict_pass::free_uses(l, StringUseKind::Label);
        lemma_free_uses(l, StringUseKind::Label, x);
        lemma_either(a, b, x);
        if exists|i: int| 0 <= i < n && membership_uses_text(#[trigger] recs[i], x) {
            let i = choose|i: int| 0 <= i < n && membership_uses_text(#[trigger] recs[i], x);
            if i < p {
                assert(membership_uses_text(recs[i], x));
            }
        }
        if b.contains(x) {
            assert(membership_uses_text(recs[n - 1], x));
        }
    }
}

proof fn lemma_property_uses(rec: RecordView, x: OccurrenceView)
    requires
        dict_pass::property_uses(rec) is Ok,
    ensures
        dict_pass::property_uses(rec)->Ok_0.contains(x) <==> occurrence_uses(rec, x),
{
    let u = dict_pass::property_uses(rec)->Ok_0;
    let k = node_pass::split_occ(rec.key)->Ok_0;
    if u.contains(x) {
        let i = choose|i: int| 0 <= i < u.len() && u[i] == x;
        assert(i == 0 || i == 1);
    }
    if occurrence_uses(rec, x) {
        if plainly(x, k.1, StringUseKind::PropertyKey) {
            assert(x.owner =~= Seq::<u8>::empty());
            assert(u[0] == x);
        } else {
            assert(u[1] == x);
        }
    }
}

proof fn lemma_all_property_uses(recs: Seq<RecordView>, n: nat, x: OccurrenceView)
    requires
        n <= recs.len(),
        dict_pass::all_property_uses(recs, n) is Ok,
    ensures
        dict_pass::all_property_uses(recs, n)->Ok_0.contains(x) <==> exists|i: int|
            0 <= i < n && occurrence_uses(#[trigger] recs[i], x),
    decreases n,
{
    if n > 0 {
        let p = (n - 1) as nat;
        lemma_all_property_uses(recs, p, x);
        let a = dict_pass::all_property_uses(recs, p)->Ok_0;
        let b = dict_pass::property_uses(recs[n - 1])->Ok_0;
        lemma_property_uses(recs[n - 1], x);
        lemma_either(a, b, x);
        if exists|i: int| 0 <= i < n && occurrence_uses(#[trigger] recs[i], x) {
            let i = choose|i: int| 0 <= i < n && occurrence_uses(#[trigger] recs[i], x);
            if i < p {
                assert(occurrence_uses(recs[i], x));
            }
        }
        if b.contains(x) {
            assert(occurrence_uses(recs[n - 1], x));
        }
    }
}

/// Every text that is used is collected, and no other.
pub proof fn lemma_used_texts_are_collected(
    labels: Seq<Seq<char>>,
    types: Seq<Seq<char>>,
    membership: Seq<RecordView>,
    occ: Seq<RecordView>,
    x: OccurrenceView,
)
    requires
        dict_pass::string_uses(labels, types, membership, occ) is Ok,
    ensures
        dict_pass::string_uses(labels, types, membership, occ)->Ok_0.contains(x) <==> used(
            labels,
            types,
            membership,
            occ,
            x,
        ),
{
    let m = dict_pass::membership_uses(membership, membership.len())->Ok_0;
    let p = dict_pass::all_property_uses(occ, occ.len())->Ok_0;
    let a = dict_pass::free_uses(labels, StringUseKind::Label);
    let b = dict_pass::free_uses(types, StringUseKind::EdgeType);
    lemma_free_uses(labels, StringUseKind::Label, x);
    lemma_free_uses(types, StringUseKind::EdgeType, x);
    lemma_membership_uses(membership, membership.len(), x);
    lemma_all_property_uses(occ, occ.len(), x);
    lemma_either(a, b, x);
    lemma_either(a + b, m, x);
    lemma_either(a + b + m, p, x);
}

// ------------------------------------------------------------------- numbering

/// A record gives the code of a text of the schema.
pub open spec fn codes_schema_text(rec: RecordView, s: Seq<char>, code: u32) -> bool {
    let p = rec.payload;
    let n = wire::u32_at(p, 0) as int;
    rec.key.len() > 0 && rec.key[0] < dict_pass::use_number(StringUseKind::DictValue) && p.len() == 4 + n + 4
        && text::text_of(p.subrange(4, 4 + n)) == s && wire::u32_at(p, 4 + n) == code
}

/// The schema text of a record.
pub open spec fn names_schema_text(rec: RecordView, s: Seq<char>) -> bool {
    codes_schema_text(rec, s, wire::u32_at(rec.payload, rec.payload.len() - 4))
}

/// A record gives a text of a column.
pub open spec fn gives_column_text(
    rec: RecordView,
    table: u16,
    prop: Seq<u8>,
    text: Seq<u8>,
) -> bool {
    let k = rec.key;
    k.len() >= 5 && k[0] == dict_pass::use_number(StringUseKind::DictValue) && wire::u16_be_at(k, 1) == table
        && k.len() >= 5 + wire::u16_be_at(k, 3) && k.subrange(5, 5 + wire::u16_be_at(k, 3) as int) == prop
        && k.subrange(5 + wire::u16_be_at(k, 3) as int, k.len() as int) == text
}

/// A text stands in a dictionary of a column.
pub open spec fn column_has(v: Seq<ChunkView>, table: u16, prop: Seq<u8>, text: Seq<u8>) -> bool {
    exists|c: int, e: int|
        #![trigger v[c].entries[e]]
        0 <= c < v.len() && v[c].table_id == table && v[c].prop == prop && 0 <= e
            < v[c].entries.len() && v[c].entries[e].0 == text
}

proof fn lemma_chunks_with(
    v: Seq<ChunkView>,
    table: u16,
    prop: Seq<u8>,
    text: Seq<u8>,
    code: u32,
    t: u16,
    p: Seq<u8>,
    x: Seq<u8>,
)
    requires
        dict_pass::chunks_with(v, table, prop, text, code) is Ok,
    ensures
        column_has(dict_pass::chunks_with(v, table, prop, text, code)->Ok_0, t, p, x) <==> column_has(
            v,
            t,
            p,
            x,
        ) || (t == table && p == prop && x == text),
{
    let open = if v.len() > 0 && v.last().table_id == table && v.last().prop == prop {
        v
    } else {
        v.push(dict_pass::fresh_chunk(table, prop))
    };
    let last = open.len() - 1;
    let old_chunk = open[last];
    let c = dict_pass::with_entry(open.last(), text, code)->Ok_0;
    let w = dict_pass::chunks_with(v, table, prop, text, code)->Ok_0;
    assert(w == open.update(last, c));
    assert(w[last] == c);
    assert(c.table_id == table && c.prop == prop);
    if column_has(v, t, p, x) {
        let (i, e) = choose|i: int, e: int|
            #![trigger v[i].entries[e]]
            0 <= i < v.len() && v[i].table_id == t && v[i].prop == p && 0 <= e
                < v[i].entries.len() && v[i].entries[e].0 == x;
        assert(open[i] == v[i]);
        if i == last {
            assert(c.entries[e] == old_chunk.entries[e]);
        }
        assert(w[i].entries[e].0 == x);
    }
    if t == table && p == prop && x == text {
        let e = c.entries.len() - 1;
        assert(w[last].entries[e].0 == text);
    }
    if column_has(w, t, p, x) {
        let (i, e) = choose|i: int, e: int|
            #![trigger w[i].entries[e]]
            0 <= i < w.len() && w[i].table_id == t && w[i].prop == p && 0 <= e
                < w[i].entries.len() && w[i].entries[e].0 == x;
        if i < last {
            assert(v[i].entries[e].0 == x);
        } else {
            if e < old_chunk.entries.len() {
                assert(c.entries[e] == old_chunk.entries[e]);
                assert(old_chunk.entries.len() > 0);
                assert(v[i].entries[e].0 == x);
            }
        }
    }
}

/// The schema knows a text exactly where a record names it, under the code of
/// the last record that does; a column's dictionaries hold a text exactly where
/// a record gives it to the column.
pub proof fn lemma_remap_keeps_every_text(
    recs: Seq<RecordView>,
    n: nat,
    s: Seq<char>,
    table: u16,
    prop: Seq<u8>,
    text: Seq<u8>,
)
    requires
        n <= recs.len(),
        dict_pass::remap_walk(recs, n) is Ok,
    ensures
        dict_pass::remap_walk(recs, n)->Ok_0.schema.dom().contains(s) <==> exists|i: int|
            0 <= i < n && names_schema_text(#[trigger] recs[i], s),
        forall|i: int|
            0 <= i < n && names_schema_text(#[trigger] recs[i], s) && (forall|j: int|
                i < j < n ==> !names_schema_text(#[trigger] recs[j], s)) ==> codes_schema_text(
                recs[i],
                s,
                dict_pass::remap_walk(recs, n)->Ok_0.schema[s],
            ),
        column_has(dict_pass::remap_walk(recs, n)->Ok_0.chunks, table, prop, text) <==> exists|i: int|
            0 <= i < n && gives_column_text(#[trigger] recs[i], table, prop, text),
    decreases n,
{
    if n > 0 {
        let p = (n - 1) as nat;
        lemma_remap_keeps_every_text(recs, p, s, table, prop, text);
        let w = dict_pass::remap_walk(recs, p)->Ok_0;
        let z = dict_pass::remap_walk(recs, n)->Ok_0;
        let rec = recs[n - 1];
        let k = rec.key;
        assert(dict_pass::remap_step(w, rec) == Ok::<RemapWalk, GenerationError>(z));
        let dict = k[0] == dict_pass::use_number(StringUseKind::DictValue);
        if dict {
            let m = wire::u16_be_at(k, 3) as int;
            lemma_chunks_with(
                w.chunks,
                wire::u16_be_at(k, 1),
                k.subrange(5, 5 + m),
                k.subrange(5 + m, k.len() as int),
                wire::u32_at(rec.payload, 0),
                table,
                prop,
                text,
            );
            assert(!names_schema_text(rec, s));
            assert(z.schema == w.schema);
        } else {
            assert(!gives_column_text(rec, table, prop, text));
            assert(z.chunks == w.chunks);
        }
        assert(gives_column_text(rec, table, prop, text) || column_has(
            w.chunks,
            table,
            prop,
            text,
        ) <==> column_has(z.chunks, table, prop, text));
        if exists|i: int| 0 <= i < n && gives_column_text(#[trigger] recs[i], table, prop, text) {
            let i = choose|i: int|
                0 <= i < n && gives_column_text(#[trigger] recs[i], table, prop, text);
            if i < p {
                assert(gives_column_text(recs[i], table, prop, text));
            }
        }
        if names_schema_text(rec, s) {
            assert(z.schema.dom().contains(s));
        }
        if z.schema.dom().contains(s) && !w.schema.dom().contains(s) {
            assert(names_schema_text(rec, s));
        }
        if exists|i: int| 0 <= i < n && names_schema_text(#[trigger] recs[i], s) {
            let i = choose|i: int| 0 <= i < n && names_schema_text(#[trigger] recs[i], s);
            if i < p {
                assert(w.schema.dom().contains(s));
            }
        }
        assert forall|i: int|
            0 <= i < n && names_schema_text(#[trigger] recs[i], s) && (forall|j: int|
                i < j < n ==> !names_schema_text(#[trigger] recs[j], s)) implies codes_schema_text(
            recs[i],
            s,
            z.schema[s],
        ) by {
            if i < p {
                assert(!names_schema_text(recs[n - 1], s));
                assert(z.schema[s] == w.schema[s]);
            }
        }
    }
}

// ----------------------------------------------------------------- column keys

/// The keys of a table are those of its geometries, and no others.
pub proof fn lemma_keys_are_those_of_the_geometries(
    v: Seq<GeometryView>,
    table: int,
    n: int,
    key: Seq<char>,
)
    requires
        0 <= n <= v.len(),
    ensures
        dict_pass::table_keys(v, table, n).contains(key) <==> exists|i: int|
            0 <= i < n && (#[trigger] v[i]).table_id == table && v[i].key == key,
    decreases n,
{
    if n > 0 {
        lemma_keys_are_those_of_the_geometries(v, table, n - 1, key);
        let a = dict_pass::table_keys(v, table, n - 1);
        let b = dict_pass::table_keys(v, table, n);
        if v[n - 1].table_id == table {
            lemma_either(a, seq![v[n - 1].key], key);
            assert(b =~= a + seq![v[n - 1].key]);
            assert(seq![v[n - 1].key][0] == v[n - 1].key);
            if v[n - 1].key == key {
                assert(v[n - 1].table_id == table);
                assert(seq![v[n - 1].key].contains(key));
            }
        }
        if exists|i: int| 0 <= i < n && (#[trigger] v[i]).table_id == table && v[i].key == key {
            let i = choose|i: int|
                0 <= i < n && (#[trigger] v[i]).table_id == table && v[i].key == key;
            if i < n - 1 {
                assert(v[i].table_id == table);
            }
        }
    }
}

/// Sorting texts by their bytes keeps every text as often as it was, and puts no
/// text before a lesser one.
pub proof fn lemma_sorting_texts(d: Seq<Seq<char>>)
    ensures
        intern::by_bytes(d).len() == d.len(),
        forall|s: Seq<char>| #[trigger] intern::by_bytes(d).contains(s) <==> d.contains(s),
        forall|i: int, j: int|
            0 <= i < j < d.len() ==> !text::text_lt(#[trigger] intern::by_bytes(d)[j], #[trigger] intern::by_bytes(d)[i]),
{
    let keys = code_index::text_keys(d);
    let o = sorting::stable_order(keys);
    let w = intern::by_bytes(d);
    sorting::lemma_stable_order(keys);
    assert forall|s: Seq<char>| #[trigger] w.contains(s) <==> d.contains(s) by {
        if w.contains(s) {
            let i = choose|i: int| 0 <= i < w.len() && w[i] == s;
            assert(d[o[i]] == s);
        }
        if d.contains(s) {
            let k = choose|k: int| 0 <= k < d.len() && d[k] == s;
            assert(o.contains(k));
            let i = choose|i: int| 0 <= i < o.len() && o[i] == k;
            assert(w[i] == s);
        }
    }
    assert forall|i: int, j: int| 0 <= i < j < d.len() implies !text::text_lt(
        #[trigger] w[j],
        #[trigger] w[i],
    ) by {
        assert(sorting::key_leq(keys)(o[i], o[j]));
        assert(keys[o[i]] == text::utf8(w[i]) && keys[o[j]] == text::utf8(w[j]));
        wire::lemma_lex_total(text::utf8(w[i]), text::utf8(w[j]));
    }
}

} // verus!
