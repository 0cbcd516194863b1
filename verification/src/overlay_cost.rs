//! Estimates of the bytes that a change to the overlay retains.
//!
//! A change retains its node or edge, its labels or its type, its properties
//! and the entries of the sets that track it. The estimates round up, so that
//! a limit on their sum limits what is retained.

use crate::outside::arc_as_str;
use crate::outside;
use crate::text;
use crate::value::Value;
use arcstr::ArcStr;
use vstd::layout::*;
use vstd::prelude::*;

verus! {

/// Fixed bytes of a node.
pub const NODE_FIXED_OVERHEAD: usize = 64;

/// Fixed bytes of an edge.
pub const EDGE_FIXED_OVERHEAD: usize = 80;

/// Fixed bytes of a property.
pub const PROPERTY_ENTRY_OVERHEAD: usize = 48;

/// Bytes of an entry of a set of identifiers.
pub const SET_ENTRY_BYTES: usize = 16;

/// Bytes of a value itself.
pub open spec fn value_slot() -> int {
    size_of::<Value>() as int
}

/// Bytes of the replica names and counts of the first `n` entries of a
/// counter.
pub open spec fn counts_cost(v: Seq<(String, u64)>, n: int) -> int
    decreases n,
{
    if n <= 0 {
        0
    } else {
        counts_cost(v, n - 1) + text::utf8(v[n - 1].0@).len() + 8
    }
}

/// Bytes that a value retains: its own, those of its content, and those of the
/// values inside it.
pub open spec fn value_cost(v: Value) -> int
    decreases v, 0int,
{
    match v {
        Value::Null => value_slot(),
        Value::Bool(_) => value_slot(),
        Value::Int64(_) => value_slot(),
        Value::Float64(_) => value_slot(),
        Value::String(s) => value_slot() + text::utf8(s@).len(),
        Value::Blob(b) => value_slot() + b@.len(),
        Value::Vector(x) => value_slot() + x@.len() * 4,
        Value::Timestamp(_) => value_slot() + 32,
        Value::Date(_) => value_slot() + 32,
        Value::Time(_) => value_slot() + 32,
        Value::Duration(_) => value_slot() + 32,
        Value::ZonedDatetime(_) => value_slot() + 32,
        Value::List(items) => value_slot() + values_cost(items@, items@.len() as int),
        Value::Object(fields) => value_slot() + fields_cost(fields@, fields@.len() as int),
        Value::Path { nodes, edges } => value_slot() + values_cost(nodes@, nodes@.len() as int)
            + values_cost(edges@, edges@.len() as int),
        Value::GCounter(m) => value_slot() + counts_cost(m@, m@.len() as int),
        Value::OnCounter { pos, neg } => value_slot() + counts_cost(pos@, pos@.len() as int)
            + counts_cost(neg@, neg@.len() as int),
    }
}

/// Bytes that the first `n` values retain.
pub open spec fn values_cost(v: Seq<Value>, n: int) -> int
    decreases v, n,
{
    if n <= 0 || n > v.len() {
        0
    } else {
        values_cost(v, n - 1) + value_cost(v[n - 1])
    }
}

/// Bytes that the first `n` fields retain.
pub open spec fn fields_cost(v: Seq<(String, Value)>, n: int) -> int
    decreases v, n,
{
    if n <= 0 || n > v.len() {
        0
    } else {
        fields_cost(v, n - 1) + text::utf8(v[n - 1].0@).len() + value_cost(v[n - 1].1)
    }
}

proof fn lemma_counts_monotonic(v: Seq<(String, u64)>, k: int, n: int)
    requires
        0 <= k <= n,
    ensures
        0 <= counts_cost(v, k) <= counts_cost(v, n),
    decreases n,
{
    if k < n {
        lemma_counts_monotonic(v, k, n - 1);
    } else if n > 0 {
        lemma_counts_monotonic(v, k - 1, n - 1);
    }
}

/// A value retains at least its own bytes.
pub proof fn lemma_value_cost_floor(v: Value)
    ensures
        value_cost(v) >= value_slot() >= 0,
    decreases v, 0int,
{
    match v {
        Value::List(items) => {
            lemma_values_monotonic(items@, 0, items@.len() as int);
        },
        Value::Object(fields) => {
            lemma_fields_monotonic(fields@, 0, fields@.len() as int);
        },
        Value::Path { nodes, edges } => {
            lemma_values_monotonic(nodes@, 0, nodes@.len() as int);
            lemma_values_monotonic(edges@, 0, edges@.len() as int);
        },
        Value::GCounter(m) => {
            lemma_counts_monotonic(m@, 0, m@.len() as int);
        },
        Value::OnCounter { pos, neg } => {
            lemma_counts_monotonic(pos@, 0, pos@.len() as int);
            lemma_counts_monotonic(neg@, 0, neg@.len() as int);
        },
        _ => {},
    }
}

proof fn lemma_values_monotonic(v: Seq<Value>, k: int, n: int)
    requires
        0 <= k <= n <= v.len(),
    ensures
        0 <= values_cost(v, k) <= values_cost(v, n),
    decreases v, n,
{
    if n > 0 {
        lemma_value_cost_floor(v[n - 1]);
        if k < n {
            lemma_values_monotonic(v, k, n - 1);
        } else {
            lemma_values_monotonic(v, k - 1, n - 1);
        }
    }
}

proof fn lemma_fields_monotonic(v: Seq<(String, Value)>, k: int, n: int)
    requires
        0 <= k <= n <= v.len(),
    ensures
        0 <= fields_cost(v, k) <= fields_cost(v, n),
    decreases v, n,
{
    if n > 0 {
        lemma_value_cost_floor(v[n - 1].1);
        if k < n {
            lemma_fields_monotonic(v, k, n - 1);
        } else {
            lemma_fields_monotonic(v, k - 1, n - 1);
        }
    }
}

/// A value inside a list retains no more than the list, less the list's own
/// bytes.
pub proof fn lemma_list_covers_items(items: Vec<Value>, i: int)
    requires
        0 <= i < items@.len(),
    ensures
        value_cost(items@[i]) + value_slot() <= value_cost(Value::List(items)),
{
    lemma_values_monotonic(items@, i + 1, items@.len() as int);
    lemma_values_monotonic(items@, 0, i);
}

fn counts_bytes(v: &Vec<(String, u64)>) -> (r: usize)
    requires
        counts_cost(v@, v@.len() as int) <= usize::MAX,
    ensures
        r == counts_cost(v@, v@.len() as int),
{
    let mut sum: usize = 0;
    let mut i: usize = 0;
    while i < v.len()
        invariant
            i <= v@.len(),
            counts_cost(v@, v@.len() as int) <= usize::MAX,
            sum == counts_cost(v@, i as int),
        decreases v@.len() - i,
    {
        proof {
            lemma_counts_monotonic(v@, i + 1, v@.len() as int);
        }
        let b: &[u8] = v[i].0.as_str().as_bytes();
        assert(b@.len() == b.len());
        sum = sum + b.len() + 8;
        i = i + 1;
    }
    sum
}

fn values_bytes(v: &Vec<Value>) -> (r: usize)
    requires
        values_cost(v@, v@.len() as int) <= usize::MAX,
    ensures
        r == values_cost(v@, v@.len() as int),
    decreases v, 0int,
{
    let mut sum: usize = 0;
    let mut i: usize = 0;
    while i < v.len()
        invariant
            i <= v@.len(),
            values_cost(v@, v@.len() as int) <= usize::MAX,
            sum == values_cost(v@, i as int),
        decreases v@.len() - i,
    {
        proof {
            lemma_values_monotonic(v@, i + 1, v@.len() as int);
            lemma_values_monotonic(v@, 0, i as int);
        }
        sum = sum + value_retained_bytes(&v[i]);
        i = i + 1;
    }
    sum
}

fn fields_bytes(v: &Vec<(String, Value)>) -> (r: usize)
    requires
        fields_cost(v@, v@.len() as int) <= usize::MAX,
    ensures
        r == fields_cost(v@, v@.len() as int),
    decreases v, 0int,
{
    let mut sum: usize = 0;
    let mut i: usize = 0;
    while i < v.len()
        invariant
            i <= v@.len(),
            fields_cost(v@, v@.len() as int) <= usize::MAX,
            sum == fields_cost(v@, i as int),
        decreases v@.len() - i,
    {
        proof {
            lemma_fields_monotonic(v@, i + 1, v@.len() as int);
            lemma_fields_monotonic(v@, 0, i as int);
            lemma_value_cost_floor(v@[i as int].1);
        }
        let b: &[u8] = v[i].0.as_str().as_bytes();
        assert(b@.len() == b.len());
        sum = sum + b.len() + value_retained_bytes(&v[i].1);
        i = i + 1;
    }
    sum
}

/// Bytes that a value retains.
pub fn value_retained_bytes(value: &Value) -> (r: usize)
    requires
        value_cost(*value) <= usize::MAX,
    ensures
        r == value_cost(*value),
    decreases value, 1int,
{
    let slot: usize = std::mem::size_of::<Value>();
    match value {
        Value::Null => slot,
        Value::Bool(_) => slot,
        Value::Int64(_) => slot,
        Value::Float64(_) => slot,
        Value::String(s) => {
            let b: &[u8] = s.as_str().as_bytes();
            assert(b@.len() == b.len());
            slot + b.len()
        },
        Value::Blob(b) => {
            assert(b@.len() == b.len());
            slot + b.len()
        },
        Value::Vector(x) => {
            assert(x@.len() == x.len());
            slot + x.len() * 4
        },
        Value::Timestamp(_) => slot + 32,
        Value::Date(_) => slot + 32,
        Value::Time(_) => slot + 32,
        Value::Duration(_) => slot + 32,
        Value::ZonedDatetime(_) => slot + 32,
        Value::List(items) => slot + values_bytes(items),
        Value::Object(fields) => slot + fields_bytes(fields),
        Value::Path { nodes, edges } => {
            proof {
                lemma_values_monotonic(nodes@, 0, nodes@.len() as int);
                lemma_values_monotonic(edges@, 0, edges@.len() as int);
            }
            slot + values_bytes(nodes) + values_bytes(edges)
        },
        Value::GCounter(m) => slot + counts_bytes(m),
        Value::OnCounter { pos, neg } => {
            proof {
                lemma_counts_monotonic(pos@, 0, pos@.len() as int);
                lemma_counts_monotonic(neg@, 0, neg@.len() as int);
            }
            slot + counts_bytes(pos) + counts_bytes(neg)
        },
    }
}

/// Bytes of the first `n` texts.
pub open spec fn texts_cost(v: Seq<&str>, n: int) -> int
    decreases n,
{
    if n <= 0 {
        0
    } else {
        texts_cost(v, n - 1) + text::utf8(v[n - 1]@).len()
    }
}

proof fn lemma_texts_monotonic(v: Seq<&str>, k: int, n: int)
    requires
        0 <= k <= n,
    ensures
        0 <= texts_cost(v, k) <= texts_cost(v, n),
    decreases n,
{
    if k < n {
        lemma_texts_monotonic(v, k, n - 1);
    } else if n > 0 {
        lemma_texts_monotonic(v, k - 1, n - 1);
    }
}

/// Bytes that a new node retains: its own, its labels and an entry of a set.
pub open spec fn node_cost(labels: Seq<&str>) -> int {
    NODE_FIXED_OVERHEAD + texts_cost(labels, labels.len() as int) + SET_ENTRY_BYTES
}

/// Bytes that a new node retains.
pub fn node_creation_retained_bytes(labels: &[&str]) -> (r: usize)
    requires
        node_cost(labels@) <= usize::MAX,
    ensures
        r == node_cost(labels@),
{
    let mut sum: usize = 0;
    let mut i: usize = 0;
    while i < labels.len()
        invariant
            i <= labels@.len(),
            node_cost(labels@) <= usize::MAX,
            sum == texts_cost(labels@, i as int),
        decreases labels@.len() - i,
    {
        proof {
            lemma_texts_monotonic(labels@, i + 1, labels@.len() as int);
        }
        let b: &[u8] = labels[i].as_bytes();
        assert(b@.len() == b.len());
        sum = sum + b.len();
        i = i + 1;
    }
    NODE_FIXED_OVERHEAD + sum + SET_ENTRY_BYTES
}

/// A further label never makes a node cheaper, and one with text makes it
/// dearer.
pub proof fn lemma_labels_add_up(labels: Seq<&str>, more: &str)
    ensures
        node_cost(labels.push(more)) == node_cost(labels) + text::utf8(more@).len(),
{
    lemma_texts_prefix(labels, more, labels.len() as int);
}

proof fn lemma_texts_prefix(labels: Seq<&str>, more: &str, n: int)
    requires
        n <= labels.len(),
    ensures
        texts_cost(labels.push(more), n) == texts_cost(labels, n),
    decreases n,
{
    if n > 0 {
        lemma_texts_prefix(labels, more, n - 1);
    }
}

/// Bytes that a new edge retains: its own, its type and an entry of a set.
pub fn edge_creation_retained_bytes(edge_type: &str) -> (r: usize)
    requires
        EDGE_FIXED_OVERHEAD + text::utf8(edge_type@).len() + SET_ENTRY_BYTES <= usize::MAX,
    ensures
        r == EDGE_FIXED_OVERHEAD + text::utf8(edge_type@).len() + SET_ENTRY_BYTES,
{
    let b: &[u8] = edge_type.as_bytes();
    assert(b@.len() == b.len());
    EDGE_FIXED_OVERHEAD + b.len() + SET_ENTRY_BYTES
}

/// Bytes that a property retains: its own, its key and its value.
pub fn property_retained_bytes(key: &str, value: &Value) -> (r: usize)
    requires
        PROPERTY_ENTRY_OVERHEAD + text::utf8(key@).len() + value_cost(*value) <= usize::MAX,
    ensures
        r == PROPERTY_ENTRY_OVERHEAD + text::utf8(key@).len() + value_cost(*value),
{
    proof {
        lemma_value_cost_floor(*value);
    }
    let b: &[u8] = key.as_bytes();
    assert(b@.len() == b.len());
    PROPERTY_ENTRY_OVERHEAD + b.len() + value_retained_bytes(value)
}

/// Bytes that a deletion retains: an entry of a set.
pub fn deletion_entry_retained_bytes() -> (r: usize)
    ensures
        r == SET_ENTRY_BYTES,
{
    SET_ENTRY_BYTES
}

/// Bytes of a shared label.
pub fn label_retained_bytes(label: &ArcStr) -> (r: usize)
    ensures
        r == text::utf8(outside::arc_text(*label)).len(),
{
    let b: &[u8] = arc_as_str(label).as_bytes();
    assert(b@.len() == b.len());
    b.len()
}

} // verus!
