//! Property values and zone maps.
//!
//! Floating-point payloads are held as their bit patterns: the library moves
//! and compares them as bits and never computes with them.

use crate::text::own;
use crate::wire::bytes_to_vec;
use vstd::prelude::*;

verus! {

/// A property value.
#[derive(Debug)]
pub enum Value {
    /// No value.
    Null,
    /// A truth value.
    Bool(bool),
    /// A signed integer.
    Int64(i64),
    /// The bits of a 64-bit float.
    Float64(u64),
    /// A text.
    String(String),
    /// Raw bytes.
    Blob(Vec<u8>),
    /// The bits of a row of 32-bit floats.
    Vector(Vec<u32>),
    /// A point in time.
    Timestamp(i64),
    /// A calendar day.
    Date(i64),
    /// A time of day.
    Time(i64),
    /// A span of time.
    Duration(i64),
    /// A point in time in a zone.
    ZonedDatetime(i64),
    /// A list.
    List(Vec<Value>),
    /// A map.
    Object(Vec<(String, Value)>),
    /// A path through the graph.
    Path {
        /// Its nodes.
        nodes: Vec<Value>,
        /// Its edges.
        edges: Vec<Value>,
    },
    /// A grow-only counter.
    GCounter(Vec<(String, u64)>),
    /// A counter that grows and shrinks.
    OnCounter {
        /// Increments by replica.
        pos: Vec<(String, u64)>,
        /// Decrements by replica.
        neg: Vec<(String, u64)>,
    },
}

/// Which of the values that columns do not store.
#[derive(Debug, Clone, Copy, PartialEq, Eq, Structural)]
pub enum ValueKind {
    /// Raw bytes.
    Blob,
    /// A point in time.
    Timestamp,
    /// A calendar day.
    Date,
    /// A time of day.
    Time,
    /// A span of time.
    Duration,
    /// A point in time in a zone.
    ZonedDatetime,
    /// A list.
    List,
    /// A map.
    Object,
    /// A path through the graph.
    Path,
    /// A grow-only counter.
    GCounter,
    /// A counter that grows and shrinks.
    OnCounter,
}

/// What a value is to the formats: the storable ones in full, the others by
/// their kind.
pub enum ValueView {
    /// No value.
    Null,
    /// A truth value.
    Bool(bool),
    /// A signed integer.
    Int64(i64),
    /// The bits of a 64-bit float.
    Float64(u64),
    /// A text.
    Text(Seq<char>),
    /// The bits of a row of 32-bit floats.
    Vector(Seq<u32>),
    /// A value that columns do not store.
    Other(ValueKind),
}

impl View for Value {
    type V = ValueView;

    open spec fn view(&self) -> ValueView {
        match self {
            Value::Null => ValueView::Null,
            Value::Bool(b) => ValueView::Bool(*b),
            Value::Int64(n) => ValueView::Int64(*n),
            Value::Float64(f) => ValueView::Float64(*f),
            Value::String(s) => ValueView::Text(s@),
            Value::Blob(_) => ValueView::Other(ValueKind::Blob),
            Value::Vector(v) => ValueView::Vector(v@),
            Value::Timestamp(_) => ValueView::Other(ValueKind::Timestamp),
            Value::Date(_) => ValueView::Other(ValueKind::Date),
            Value::Time(_) => ValueView::Other(ValueKind::Time),
            Value::Duration(_) => ValueView::Other(ValueKind::Duration),
            Value::ZonedDatetime(_) => ValueView::Other(ValueKind::ZonedDatetime),
            Value::List(_) => ValueView::Other(ValueKind::List),
            Value::Object(_) => ValueView::Other(ValueKind::Object),
            Value::Path { .. } => ValueView::Other(ValueKind::Path),
            Value::GCounter(_) => ValueView::Other(ValueKind::GCounter),
            Value::OnCounter { .. } => ValueView::Other(ValueKind::OnCounter),
        }
    }
}

/// A value with all that it holds.
pub enum WholeValue {
    /// No value.
    Null,
    /// A truth value.
    Bool(bool),
    /// A signed integer.
    Int64(i64),
    /// The bits of a 64-bit float.
    Float64(u64),
    /// A text.
    Text(Seq<char>),
    /// Raw bytes.
    Blob(Seq<u8>),
    /// The bits of a row of 32-bit floats.
    Vector(Seq<u32>),
    /// A point in time.
    Timestamp(i64),
    /// A calendar day.
    Date(i64),
    /// A time of day.
    Time(i64),
    /// A span of time.
    Duration(i64),
    /// A point in time in a zone.
    ZonedDatetime(i64),
    /// A list.
    List(Seq<WholeValue>),
    /// A map.
    Object(Seq<(Seq<char>, WholeValue)>),
    /// A path through the graph.
    Path {
        /// Its nodes.
        nodes: Seq<WholeValue>,
        /// Its edges.
        edges: Seq<WholeValue>,
    },
    /// A grow-only counter.
    GCounter(Seq<(Seq<char>, u64)>),
    /// A counter that grows and shrinks.
    OnCounter {
        /// Increments by replica.
        pos: Seq<(Seq<char>, u64)>,
        /// Decrements by replica.
        neg: Seq<(Seq<char>, u64)>,
    },
}

/// Counts per replica.
pub open spec fn whole_counts(v: Seq<(String, u64)>) -> Seq<(Seq<char>, u64)> {
    Seq::new(v.len(), |i: int| (v[i].0@, v[i].1))
}

/// Values with all that they hold.
pub open spec fn whole_values(v: Seq<Value>) -> Seq<WholeValue>
    decreases v,
{
    Seq::new(
        v.len(),
        |i: int|
            if 0 <= i < v.len() {
                whole(v[i])
            } else {
                WholeValue::Null
            },
    )
}

/// Fields with all that they hold.
pub open spec fn whole_fields(v: Seq<(String, Value)>) -> Seq<(Seq<char>, WholeValue)>
    decreases v,
{
    Seq::new(
        v.len(),
        |i: int|
            if 0 <= i < v.len() {
                (v[i].0@, whole(v[i].1))
            } else {
                (Seq::empty(), WholeValue::Null)
            },
    )
}

/// A value with all that it holds.
pub open spec fn whole(v: Value) -> WholeValue
    decreases v,
{
    match v {
        Value::Null => WholeValue::Null,
        Value::Bool(b) => WholeValue::Bool(b),
        Value::Int64(n) => WholeValue::Int64(n),
        Value::Float64(f) => WholeValue::Float64(f),
        Value::String(s) => WholeValue::Text(s@),
        Value::Blob(b) => WholeValue::Blob(b@),
        Value::Vector(x) => WholeValue::Vector(x@),
        Value::Timestamp(t) => WholeValue::Timestamp(t),
        Value::Date(t) => WholeValue::Date(t),
        Value::Time(t) => WholeValue::Time(t),
        Value::Duration(t) => WholeValue::Duration(t),
        Value::ZonedDatetime(t) => WholeValue::ZonedDatetime(t),
        Value::List(x) => WholeValue::List(whole_values(x@)),
        Value::Object(x) => WholeValue::Object(whole_fields(x@)),
        Value::Path { nodes, edges } => WholeValue::Path {
            nodes: whole_values(nodes@),
            edges: whole_values(edges@),
        },
        Value::GCounter(x) => WholeValue::GCounter(whole_counts(x@)),
        Value::OnCounter { pos, neg } => WholeValue::OnCounter {
            pos: whole_counts(pos@),
            neg: whole_counts(neg@),
        },
    }
}

fn clone_counts(v: &Vec<(String, u64)>) -> (r: Vec<(String, u64)>)
    ensures
        whole_counts(r@) == whole_counts(v@),
{
    let mut out: Vec<(String, u64)> = Vec::new();
    let mut i: usize = 0;
    while i < v.len()
        invariant
            i <= v@.len(),
            out@.len() == i,
            forall|k: int|
                0 <= k < i ==> (#[trigger] out@[k]).0@ == v@[k].0@ && out@[k].1 == v@[k].1,
        decreases v@.len() - i,
    {
        out.push((own(v[i].0.as_str()), v[i].1));
        i = i + 1;
    }
    assert(whole_counts(out@) =~= whole_counts(v@));
    out
}

fn clone_u32s(v: &Vec<u32>) -> (r: Vec<u32>)
    ensures
        r@ == v@,
{
    let mut out: Vec<u32> = Vec::with_capacity(v.len());
    let mut i: usize = 0;
    while i < v.len()
        invariant
            i <= v@.len(),
            out@ == v@.take(i as int),
        decreases v@.len() - i,
    {
        out.push(v[i]);
        i = i + 1;
        assert(out@ =~= v@.take(i as int));
    }
    assert(v@.take(i as int) =~= v@);
    out
}

fn clone_values(v: &Vec<Value>) -> (r: Vec<Value>)
    ensures
        whole_values(r@) == whole_values(v@),
    decreases v,
{
    let mut out: Vec<Value> = Vec::new();
    let mut i: usize = 0;
    while i < v.len()
        invariant
            i <= v@.len(),
            out@.len() == i,
            forall|k: int| 0 <= k < i ==> whole(#[trigger] out@[k]) == whole(v@[k]),
        decreases v@.len() - i,
    {
        out.push(clone_value(&v[i]));
        i = i + 1;
    }
    assert(whole_values(out@) =~= whole_values(v@));
    out
}

fn clone_fields(v: &Vec<(String, Value)>) -> (r: Vec<(String, Value)>)
    ensures
        whole_fields(r@) == whole_fields(v@),
    decreases v,
{
    let mut out: Vec<(String, Value)> = Vec::new();
    let mut i: usize = 0;
    while i < v.len()
        invariant
            i <= v@.len(),
            out@.len() == i,
            forall|k: int|
                0 <= k < i ==> (#[trigger] out@[k]).0@ == v@[k].0@ && whole(out@[k].1) == whole(
                    v@[k].1,
                ),
        decreases v@.len() - i,
    {
        out.push((own(v[i].0.as_str()), clone_value(&v[i].1)));
        i = i + 1;
    }
    assert(whole_fields(out@) =~= whole_fields(v@));
    out
}

/// A copy of a value.
pub fn clone_value(v: &Value) -> (r: Value)
    ensures
        r@ == v@,
        whole(r) == whole(*v),
    decreases v,
{
    match v {
        Value::Null => Value::Null,
        Value::Bool(b) => Value::Bool(*b),
        Value::Int64(n) => Value::Int64(*n),
        Value::Float64(f) => Value::Float64(*f),
        Value::String(s) => Value::String(own(s.as_str())),
        Value::Blob(b) => Value::Blob(bytes_to_vec(b.as_slice())),
        Value::Vector(x) => Value::Vector(clone_u32s(x)),
        Value::Timestamp(t) => Value::Timestamp(*t),
        Value::Date(t) => Value::Date(*t),
        Value::Time(t) => Value::Time(*t),
        Value::Duration(t) => Value::Duration(*t),
        Value::ZonedDatetime(t) => Value::ZonedDatetime(*t),
        Value::List(x) => Value::List(clone_values(x)),
        Value::Object(x) => Value::Object(clone_fields(x)),
        Value::Path { nodes, edges } => Value::Path {
            nodes: clone_values(nodes),
            edges: clone_values(edges),
        },
        Value::GCounter(x) => Value::GCounter(clone_counts(x)),
        Value::OnCounter { pos, neg } => Value::OnCounter {
            pos: clone_counts(pos),
            neg: clone_counts(neg),
        },
    }
}

/// Least and greatest value of a run of rows, and how many rows it has.
#[derive(Debug)]
pub struct ZoneMap {
    /// Least value, if any.
    pub min: Option<Value>,
    /// Greatest value, if any.
    pub max: Option<Value>,
    /// Rows without a value.
    pub null_count: usize,
    /// All rows.
    pub row_count: usize,
}

/// What a zone map says.
pub struct ZoneView {
    /// Least value, if any.
    pub min: Option<ValueView>,
    /// Greatest value, if any.
    pub max: Option<ValueView>,
    /// Rows without a value.
    pub null_count: usize,
    /// All rows.
    pub row_count: usize,
}

/// What an optional value is.
pub open spec fn optional_view(v: Option<Value>) -> Option<ValueView> {
    match v {
        Some(x) => Some(x@),
        None => None,
    }
}

impl View for ZoneMap {
    type V = ZoneView;

    open spec fn view(&self) -> ZoneView {
        ZoneView {
            min: optional_view(self.min),
            max: optional_view(self.max),
            null_count: self.null_count,
            row_count: self.row_count,
        }
    }
}

fn clone_optional(v: &Option<Value>) -> (r: Option<Value>)
    ensures
        optional_view(r) == optional_view(*v),
{
    match v {
        Some(x) => Some(clone_value(x)),
        None => None,
    }
}

/// A copy of a zone map.
pub fn clone_zone_map(z: &ZoneMap) -> (r: ZoneMap)
    ensures
        r@ == z@,
{
    ZoneMap {
        min: clone_optional(&z.min),
        max: clone_optional(&z.max),
        null_count: z.null_count,
        row_count: z.row_count,
    }
}

} // verus!
