//! What an estimate covers and how estimates add up, when a record is made, and
//! which ids rows have.

use crate::generation::{CodecError, GenerationError};
use crate::outside;
use crate::overlay_cost;
use crate::source_view::ReverseIds;
use crate::source_view;
use crate::staging::Property;
use crate::staging;
use crate::text::TextMap;
use crate::text;
use crate::value::{Value, ValueView};
use crate::views;
use crate::wire;
use vstd::prelude::*;

verus! {

// ------------------------------------------------------------ staged estimates

/// The estimate of a property is the bytes of its key and of its staged value,
/// and for a null or a truth value those of a number.
pub proof fn lemma_estimate_is_the_staged_size(p: Property)
    ensures
        p.1 is Text || p.1 is Vector || p.1 is Int64 || p.1 is Float64 ==> source_view::property_bytes(p)
            == text::utf8(p.0).len() + staging::value_record(p.1).len(),
        p.1 is Null || p.1 is Bool ==> forall|n: i64|
            source_view::property_bytes(p) == #[trigger] source_view::property_bytes((p.0, ValueView::Int64(n))),
        source_view::property_bytes(p) >= text::utf8(p.0).len() + staging::value_record(p.1).len(),
{
    broadcast use wire::group_wire;

    if let ValueView::Vector(w) = p.1 {
        let f = |x: u32| wire::put32(x);
        assert forall|i: int| 0 <= i < w.len() implies f(#[trigger] w[i]).len() == 4 by {}
        wire::lemma_flat_len(w, f, 4);
    }
}

proof fn lemma_props_prefix(a: Seq<Property>, b: Seq<Property>, n: int)
    requires
        n <= a.len(),
        n <= b.len(),
        forall|i: int| 0 <= i < n ==> a[i] == b[i],
    ensures
        source_view::props_bytes(a, n) == source_view::props_bytes(b, n),
    decreases n,
{
    if n > 0 {
        lemma_props_prefix(a, b, n - 1);
    }
}

proof fn lemma_labels_prefix(a: Seq<Seq<char>>, b: Seq<Seq<char>>, n: int)
    requires
        n <= a.len(),
        n <= b.len(),
        forall|i: int| 0 <= i < n ==> a[i] == b[i],
    ensures
        source_view::label_bytes(a, n) == source_view::label_bytes(b, n),
    decreases n,
{
    if n > 0 {
        lemma_labels_prefix(a, b, n - 1);
    }
}

/// A further property or label adds its own bytes to an estimate, and the
/// estimate of nothing is nothing.
pub proof fn lemma_estimates_add_up(
    props: Seq<Property>,
    p: Property,
    labels: Seq<Seq<char>>,
    label: Seq<char>,
)
    ensures
        source_view::props_bytes(Seq::empty(), 0) == 0,
        source_view::props_bytes(props.push(p), props.len() as int + 1) == source_view::props_bytes(
            props,
            props.len() as int,
        ) + source_view::property_bytes(p),
        source_view::label_bytes(Seq::empty(), 0) == 0,
        source_view::label_bytes(labels.push(label), labels.len() as int + 1) == source_view::label_bytes(
            labels,
            labels.len() as int,
        ) + text::utf8(label).len(),
{
    lemma_props_prefix(props.push(p), props, props.len() as int);
    lemma_labels_prefix(labels.push(label), labels, labels.len() as int);
}

/// A node or an edge is made exactly where its labels or its type and its
/// properties are estimated at no more than a record may hold; it is made of
/// what was given, unchanged.
pub proof fn lemma_records_within_the_limit_are_made(
    id: u64,
    src: u64,
    dst: u64,
    labels: Seq<Seq<char>>,
    edge_type: Seq<char>,
    m: TextMap<Value>,
    max: u64,
)
    requires
        source_view::label_bytes(labels, labels.len() as int) + source_view::props_bytes(
            staging::properties_of(m),
            staging::properties_of(m).len() as int,
        ) <= u64::MAX,
        text::utf8(edge_type).len() + source_view::props_bytes(staging::properties_of(m), staging::properties_of(m).len() as int)
            <= u64::MAX,
    ensures
        source_view::node_record_made(id, labels, m, max) is Ok <==> source_view::label_bytes(labels, labels.len() as int)
            + source_view::props_bytes(staging::properties_of(m), staging::properties_of(m).len() as int) <= max,
        source_view::node_record_made(id, labels, m, max) matches Ok(n) ==> n.id == id && n.labels == labels
            && n.properties == staging::properties_of(m),
        source_view::edge_record_made(id, src, dst, edge_type, m, max) is Ok <==> text::utf8(edge_type).len()
            + source_view::props_bytes(staging::properties_of(m), staging::properties_of(m).len() as int) <= max,
        source_view::edge_record_made(id, src, dst, edge_type, m, max) matches Ok(e) ==> e.id == id && e.src
            == src && e.dst == dst && e.edge_type == edge_type && e.properties == staging::properties_of(m),
{
    lemma_estimates_are_counts(
        staging::properties_of(m),
        staging::properties_of(m).len() as int,
        labels,
        labels.len() as int,
    );
}

proof fn lemma_estimates_are_counts(p: Seq<Property>, n: int, labels: Seq<Seq<char>>, k: int)
    ensures
        source_view::props_bytes(p, n) >= 0,
        source_view::label_bytes(labels, k) >= 0,
    decreases n, k,
{
    if n > 0 {
        lemma_estimates_are_counts(p, n - 1, labels, k);
    }
    if n <= 0 && k > 0 {
        lemma_estimates_are_counts(p, n, labels, k - 1);
    }
}

// -------------------------------------------------------------------- row ids

/// Words of a buffer hold the ids of rows, table behind table, each table from
/// its base on.
pub open spec fn holds_rows(words: Seq<u64>, bases: Seq<usize>, rows: Seq<Seq<u64>>) -> bool {
    &&& bases.len() == rows.len()
    &&& forall|t: int, r: int|
        #![trigger rows[t][r]]
        0 <= t < rows.len() && 0 <= r < rows[t].len() ==> bases[t] + r < words.len() && words[bases[t]
            + r] == rows[t][r]
}

/// Ids that are read off a buffer are those that the rows have.
pub proof fn lemma_mapped_ids_are_the_rows(ids: ReverseIds, rows: Seq<Seq<u64>>, t: int, r: int)
    requires
        ids matches ReverseIds::Mapped { bytes, bases } && holds_rows(
            views::u64s_of(outside::bytes_content(bytes)),
            bases@,
            rows,
        ),
        0 <= t < rows.len(),
        0 <= r < rows[t].len(),
    ensures
        source_view::id_of_row(ids, t, r) == Some(rows[t][r]),
{
    if let ReverseIds::Mapped { bytes, bases } = ids {
        let d = outside::bytes_content(bytes);
        let w = views::u64s_of(d);
        assert(rows[t][r] == rows[t][r]);
        let i = bases@[t] + r;
        assert(w[i] == rows[t][r]);
        assert(i < d.len() / 8);
        assert(8 * i + 8 <= d.len());
        assert(i * 8 == 8 * i);
    }
}

/// Ids that are kept row by row are those of the rows, and no others have one.
pub proof fn lemma_kept_ids_are_the_rows(ids: ReverseIds, t: int, r: int)
    ensures
        ids matches ReverseIds::Rows(v) ==> (source_view::id_of_row(ids, t, r) is Some <==> 0 <= t < v@.len()
            && 0 <= r < v@[t]@.len()) && (0 <= t < v@.len() && 0 <= r < v@[t]@.len()
            ==> source_view::id_of_row(ids, t, r) == Some(v@[t]@[r])),
        ids is Absent ==> source_view::id_of_row(ids, t, r) is None,
{
}

/// An edge gets the ids of the rows at its ends, source first; it gets none
/// where an end is unknown or its row has no id, and the source is looked at
/// first.
pub proof fn lemma_ends_are_those_of_the_rows(
    ids: ReverseIds,
    src: Option<(u16, u64)>,
    dst: Option<(u16, u64)>,
)
    ensures
        match (src, dst) {
            (Some(a), Some(b)) => match (
                source_view::id_of_row(ids, a.0 as int, a.1 as int),
                source_view::id_of_row(ids, b.0 as int, b.1 as int),
            ) {
                (Some(x), Some(y)) => source_view::endpoints(ids, src, dst) == Ok::<(u64, u64), GenerationError>(
                    (x, y),
                ),
                _ => source_view::endpoints(ids, src, dst) is Err,
            },
            _ => source_view::endpoints(ids, src, dst) is Err,
        },
        src is None ==> source_view::endpoints(ids, src, dst) == Err::<(u64, u64), GenerationError>(
            GenerationError::Codec(CodecError::NoSource),
        ),
        src is Some && dst is None ==> source_view::endpoints(ids, src, dst) == Err::<
            (u64, u64),
            GenerationError,
        >(GenerationError::Codec(CodecError::NoDestination)),
{
}

// ---------------------------------------------------------- retained estimates

proof fn lemma_values_prefix(a: Seq<Value>, b: Seq<Value>, n: int)
    requires
        n <= a.len(),
        n <= b.len(),
        forall|i: int| 0 <= i < n ==> a[i] == b[i],
    ensures
        overlay_cost::values_cost(a, n) == overlay_cost::values_cost(b, n),
    decreases n,
{
    if n > 0 {
        lemma_values_prefix(a, b, n - 1);
    }
}

proof fn lemma_fields_prefix(a: Seq<(String, Value)>, b: Seq<(String, Value)>, n: int)
    requires
        n <= a.len(),
        n <= b.len(),
        forall|i: int| 0 <= i < n ==> a[i] == b[i],
    ensures
        overlay_cost::fields_cost(a, n) == overlay_cost::fields_cost(b, n),
    decreases n,
{
    if n > 0 {
        lemma_fields_prefix(a, b, n - 1);
    }
}

proof fn lemma_counts_prefix(a: Seq<(String, u64)>, b: Seq<(String, u64)>, n: int)
    requires
        n <= a.len(),
        n <= b.len(),
        forall|i: int| 0 <= i < n ==> a[i] == b[i],
    ensures
        overlay_cost::counts_cost(a, n) == overlay_cost::counts_cost(b, n),
    decreases n,
{
    if n > 0 {
        lemma_counts_prefix(a, b, n - 1);
    }
}

/// A value retains what an empty list does and what it holds: a list grows by
/// its items, an object by its keys and values, a counter by its names and a
/// word for each.
pub proof fn lemma_containers_add_up(
    items: Vec<Value>,
    more: Vec<Value>,
    fields: Vec<(String, Value)>,
    more_fields: Vec<(String, Value)>,
    counts: Vec<(String, u64)>,
    more_counts: Vec<(String, u64)>,
)
    ensures
        items@.len() == 0 ==> overlay_cost::value_cost(Value::List(items)) == overlay_cost::value_cost(Value::Null),
        fields@.len() == 0 ==> overlay_cost::value_cost(Value::Object(fields)) == overlay_cost::value_cost(Value::Null),
        counts@.len() == 0 ==> overlay_cost::value_cost(Value::GCounter(counts)) == overlay_cost::value_cost(Value::Null),
        more@.len() > 0 && items@ == more@.drop_last() ==> overlay_cost::value_cost(Value::List(more))
            == overlay_cost::value_cost(Value::List(items)) + overlay_cost::value_cost(more@.last()),
        more_fields@.len() > 0 && fields@ == more_fields@.drop_last() ==> overlay_cost::value_cost(
            Value::Object(more_fields),
        ) == overlay_cost::value_cost(Value::Object(fields)) + text::utf8(more_fields@.last().0@).len() + overlay_cost::value_cost(
            more_fields@.last().1,
        ),
        more_counts@.len() > 0 && counts@ == more_counts@.drop_last() ==> overlay_cost::value_cost(
            Value::GCounter(more_counts),
        ) == overlay_cost::value_cost(Value::GCounter(counts)) + text::utf8(more_counts@.last().0@).len() + 8,
        overlay_cost::value_cost(Value::Path { nodes: items, edges: more }) == overlay_cost::value_cost(Value::List(items))
            + overlay_cost::value_cost(Value::List(more)) - overlay_cost::value_cost(Value::Null),
        overlay_cost::value_cost(Value::OnCounter { pos: counts, neg: more_counts }) == overlay_cost::value_cost(
            Value::GCounter(counts),
        ) + overlay_cost::value_cost(Value::GCounter(more_counts)) - overlay_cost::value_cost(Value::Null),
{
    if more@.len() > 0 && items@ == more@.drop_last() {
        lemma_values_prefix(items@, more@, items@.len() as int);
    }
    if more_fields@.len() > 0 && fields@ == more_fields@.drop_last() {
        lemma_fields_prefix(fields@, more_fields@, fields@.len() as int);
    }
    if more_counts@.len() > 0 && counts@ == more_counts@.drop_last() {
        lemma_counts_prefix(counts@, more_counts@, counts@.len() as int);
    }
}

/// A simple value retains one slot, a text, a blob or a vector its bytes on top
/// of it, and a time of any kind as much as any other.
pub proof fn lemma_plain_values_cost(b: bool, n: i64, f: u64, s: String, blob: Vec<u8>, w: Vec<u32>)
    ensures
        overlay_cost::value_cost(Value::Bool(b)) == overlay_cost::value_cost(Value::Null),
        overlay_cost::value_cost(Value::Int64(n)) == overlay_cost::value_cost(Value::Null),
        overlay_cost::value_cost(Value::Float64(f)) == overlay_cost::value_cost(Value::Null),
        overlay_cost::value_cost(Value::String(s)) == overlay_cost::value_cost(Value::Null) + text::utf8(s@).len(),
        overlay_cost::value_cost(Value::Blob(blob)) == overlay_cost::value_cost(Value::Null) + blob@.len(),
        overlay_cost::value_cost(Value::Vector(w)) == overlay_cost::value_cost(Value::Null) + 4 * w@.len(),
        overlay_cost::value_cost(Value::Timestamp(n)) == overlay_cost::value_cost(Value::Null) + 32,
        overlay_cost::value_cost(Value::Date(n)) == overlay_cost::value_cost(Value::Timestamp(n)),
        overlay_cost::value_cost(Value::Time(n)) == overlay_cost::value_cost(Value::Timestamp(n)),
        overlay_cost::value_cost(Value::Duration(n)) == overlay_cost::value_cost(Value::Timestamp(n)),
        overlay_cost::value_cost(Value::ZonedDatetime(n)) == overlay_cost::value_cost(Value::Timestamp(n)),
{
}

} // verus!
