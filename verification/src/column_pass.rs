//! Column geometry.
//!
//! The occurrence run lists the values of every column in row order. A first
//! replay of it finds, for each column, what its codec, its companions and its
//! zone map need to know before a body is written.

use crate::generation::{CodecError, GenerationError, Mixture, WireCount};
use crate::node_pass::split_occ_key;
use crate::node_pass;
use crate::runs::{RecordView, RunSetLease, SortRecord};
use crate::staging::decode_value;
use crate::staging;
use crate::text::{own, text_eq, text_less};
use crate::text;
use crate::value::{Value, ValueKind, ValueView};
use crate::wire;
use vstd::prelude::*;

verus! {

/// The family of a column's values.
#[derive(Debug, Clone, Copy, PartialEq, Eq, Structural)]
pub enum Family {
    /// Signed integers.
    Int64,
    /// Floats.
    Float64,
    /// Truth values.
    Bool,
    /// Texts.
    Text,
    /// Rows of floats.
    Vector,
}

/// What one replay of a column's values shows.
#[derive(Debug)]
pub struct ColumnGeometry {
    /// Table of the column.
    pub table_id: u16,
    /// Property key.
    pub key: String,
    /// Rows of the table.
    pub row_count: u64,
    /// Rows with a value or a null.
    pub present_count: u64,
    /// Rows with a null.
    pub null_count: u64,
    /// Whether a text occurs.
    pub has_string: bool,
    /// Whether a negative integer occurs.
    pub saw_signed_int: bool,
    /// Dimensions of the vectors.
    pub vector_dims: Option<u16>,
    /// Family of the values.
    pub family: Option<Family>,
    /// Bits of the widest non-negative integer, at least one.
    pub max_int_bits: u8,
    /// Least integer.
    pub min_int: Option<i64>,
    /// Greatest integer.
    pub max_int: Option<i64>,
    /// Bits of the least float that is a number.
    pub min_float: Option<u64>,
    /// Bits of the greatest float that is a number.
    pub max_float: Option<u64>,
    /// Whether `false` occurs.
    pub saw_false: bool,
    /// Whether `true` occurs.
    pub saw_true: bool,
    /// Least text by its bytes.
    pub min_str: Option<String>,
    /// Greatest text by its bytes.
    pub max_str: Option<String>,
}

/// The content of a geometry.
pub struct GeometryView {
    /// Table of the column.
    pub table_id: u16,
    /// Property key.
    pub key: Seq<char>,
    /// Rows of the table.
    pub row_count: u64,
    /// Rows with a value or a null.
    pub present_count: int,
    /// Rows with a null.
    pub null_count: int,
    /// Whether a text occurs.
    pub has_string: bool,
    /// Whether a negative integer occurs.
    pub saw_signed_int: bool,
    /// Dimensions of the vectors.
    pub vector_dims: Option<u16>,
    /// Family of the values.
    pub family: Option<Family>,
    /// Bits of the widest non-negative integer, at least one.
    pub max_int_bits: int,
    /// Least integer.
    pub min_int: Option<i64>,
    /// Greatest integer.
    pub max_int: Option<i64>,
    /// Bits of the least float that is a number.
    pub min_float: Option<u64>,
    /// Bits of the greatest float that is a number.
    pub max_float: Option<u64>,
    /// Whether `false` occurs.
    pub saw_false: bool,
    /// Whether `true` occurs.
    pub saw_true: bool,
    /// Least text by its bytes.
    pub min_str: Option<Seq<char>>,
    /// Greatest text by its bytes.
    pub max_str: Option<Seq<char>>,
}

/// The text of an optional string.
pub open spec fn optional_text(s: Option<String>) -> Option<Seq<char>> {
    match s {
        Some(x) => Some(x@),
        None => None,
    }
}

impl View for ColumnGeometry {
    type V = GeometryView;

    open spec fn view(&self) -> GeometryView {
        GeometryView {
            table_id: self.table_id,
            key: self.key@,
            row_count: self.row_count,
            present_count: self.present_count as int,
            null_count: self.null_count as int,
            has_string: self.has_string,
            saw_signed_int: self.saw_signed_int,
            vector_dims: self.vector_dims,
            family: self.family,
            max_int_bits: self.max_int_bits as int,
            min_int: self.min_int,
            max_int: self.max_int,
            min_float: self.min_float,
            max_float: self.max_float,
            saw_false: self.saw_false,
            saw_true: self.saw_true,
            min_str: optional_text(self.min_str),
            max_str: optional_text(self.max_str),
        }
    }
}

/// The contents of a row of geometries.
pub open spec fn geometry_views(v: Seq<ColumnGeometry>) -> Seq<GeometryView> {
    Seq::new(v.len(), |i: int| v[i]@)
}

/// The geometry of a column before its first value.
pub open spec fn blank_geometry(table_id: u16, key: Seq<char>, row_count: u64) -> GeometryView {
    GeometryView {
        table_id,
        key,
        row_count,
        present_count: 0,
        null_count: 0,
        has_string: false,
        saw_signed_int: false,
        vector_dims: None,
        family: None,
        max_int_bits: 0,
        min_int: None,
        max_int: None,
        min_float: None,
        max_float: None,
        saw_false: false,
        saw_true: false,
        min_str: None,
        max_str: None,
    }
}

impl ColumnGeometry {
    fn new(table_id: u16, key: String, row_count: u64) -> (r: Self)
        ensures
            r@ == blank_geometry(table_id, key@, row_count),
    {
        ColumnGeometry {
            table_id,
            key,
            row_count,
            present_count: 0,
            null_count: 0,
            has_string: false,
            saw_signed_int: false,
            vector_dims: None,
            family: None,
            max_int_bits: 0,
            min_int: None,
            max_int: None,
            min_float: None,
            max_float: None,
            saw_false: false,
            saw_true: false,
            min_str: None,
            max_str: None,
        }
    }

    /// Whether some row has neither a value nor a null.
    pub fn needs_presence(&self) -> (r: bool)
        ensures
            r == (self@.present_count < self@.row_count),
    {
        self.present_count < self.row_count
    }

    /// Whether some row has a null.
    pub fn needs_null(&self) -> (r: bool)
        ensures
            r == (self@.null_count > 0),
    {
        self.null_count > 0
    }

    /// Whether the column holds floats.
    pub fn is_float64_family(&self) -> (r: bool)
        ensures
            r == (self@.family == Some(Family::Float64)),
    {
        match self.family {
            Some(Family::Float64) => true,
            _ => false,
        }
    }
}

// ---------------------------------------------------------------- values

/// The value of an occurrence. A truth value without its byte is `false`.
pub open spec fn occ_value(d: Seq<u8>) -> Result<ValueView, GenerationError> {
    if d.len() == 1 && d[0] == 2 {
        Ok(ValueView::Bool(false))
    } else {
        match staging::value_at(d, 0) {
            Ok(p) => Ok(p.0),
            Err(e) => Err(e),
        }
    }
}

/// Reads the value of an occurrence.
pub fn decode_occ_value(payload: &[u8]) -> (r: Result<Value, GenerationError>)
    ensures
        match r {
            Ok(v) => occ_value(payload@) == Ok::<ValueView, GenerationError>(v@),
            Err(e) => occ_value(payload@) == Err::<ValueView, GenerationError>(e),
        },
{
    assert(payload@.len() == payload.len());
    if payload.len() == 1 && payload[0] == 2 {
        return Ok(Value::Bool(false));
    }
    match decode_value(payload, 0) {
        Ok(p) => Ok(p.0),
        Err(e) => Err(e),
    }
}

/// The value of an occurrence is the one that was staged.
pub proof fn lemma_occ_value_round_trip(v: ValueView)
    requires
        staging::value_fault(v) is None,
    ensures
        occ_value(staging::value_record(v)) == Ok::<ValueView, GenerationError>(v),
{
    wire::lemma_holds_all(staging::value_record(v));
    staging::lemma_value_round_trip(staging::value_record(v), 0, v);
}

/// Number of bits of an integer.
pub open spec fn bit_length(n: int) -> int
    decreases n,
{
    if n <= 0 {
        0
    } else {
        1 + bit_length(n / 2)
    }
}

fn int_bits(n: u64) -> (r: u8)
    ensures
        r == bit_length(n as int),
        r <= 64,
{
    let mut left: u64 = n;
    let mut bits: u8 = 0;
    let ghost mut bound: int = 0x1_0000_0000_0000_0000;
    proof {
        vstd::arithmetic::power2::lemma2_to64();
    }
    while left > 0
        invariant
            bits + bit_length(left as int) == bit_length(n as int),
            left < bound,
            bits <= 64,
            bound == vstd::arithmetic::power2::pow2((64 - bits) as nat),
        decreases left,
    {
        proof {
            if bits == 64 {
                vstd::arithmetic::power2::lemma2_to64();
            }
            vstd::arithmetic::power2::lemma_pow2_unfold((64 - bits) as nat);
            bound = vstd::arithmetic::power2::pow2((63 - bits) as nat) as int;
        }
        left = left / 2;
        bits = bits + 1;
    }
    bits
}

/// A float's bits are those of no number.
pub open spec fn is_nan_bits(bits: u64) -> bool {
    bits % 0x8000_0000_0000_0000 > 0x7ff0_0000_0000_0000
}

/// The place of a number in the order of floats, by its bits: the magnitude,
/// negative where the sign bit is set. Both zeros have the same place.
pub open spec fn float_rank(bits: u64) -> int {
    if bits < 0x8000_0000_0000_0000 {
        bits as int
    } else {
        0x8000_0000_0000_0000 - bits
    }
}

fn float_less(a: u64, b: u64) -> (r: bool)
    ensures
        r == (float_rank(a) < float_rank(b)),
{
    let sign: u64 = 0x8000_0000_0000_0000;
    if a < sign && b < sign {
        a < b
    } else if a < sign {
        false
    } else if b < sign {
        a > sign || b > 0
    } else {
        a > b
    }
}

// -------------------------------------------------------------- geometry

/// The refusal of a column whose values differ.
pub open spec fn mixed(g: GeometryView, kinds: Mixture) -> GenerationError {
    GenerationError::MixedColumnTypes { table_id: g.table_id, kinds }
}

/// The geometry with its family settled, or the mixture of two.
pub open spec fn with_family(g: GeometryView, f: Family) -> Result<GeometryView, GenerationError> {
    if g.family is None || g.family == Some(f) {
        Ok(GeometryView { family: Some(f), ..g })
    } else {
        Err(mixed(g, Mixture::Families(g.family->0, f)))
    }
}

/// The larger of two numbers.
pub open spec fn larger(a: int, b: int) -> int {
    if a < b {
        b
    } else {
        a
    }
}

/// The geometry after one more value.
pub open spec fn geometry_step(g: GeometryView, v: ValueView) -> Result<
    GeometryView,
    GenerationError,
> {
    let seen = GeometryView { present_count: g.present_count + 1, ..g };
    match v {
        ValueView::Null => Ok(GeometryView { null_count: g.null_count + 1, ..seen }),
        ValueView::Int64(n) => with_family(
            GeometryView {
                saw_signed_int: g.saw_signed_int || n < 0,
                max_int_bits: if n < 0 {
                    g.max_int_bits
                } else {
                    larger(g.max_int_bits, larger(bit_length(n as int), 1))
                },
                min_int: match g.min_int {
                    Some(m) => if m <= n {
                        Some(m)
                    } else {
                        Some(n)
                    },
                    None => Some(n),
                },
                max_int: match g.max_int {
                    Some(m) => if m >= n {
                        Some(m)
                    } else {
                        Some(n)
                    },
                    None => Some(n),
                },
                ..seen
            },
            Family::Int64,
        ),
        ValueView::Float64(f) => with_family(
            GeometryView {
                min_float: match g.min_float {
                    _ if is_nan_bits(f) => g.min_float,
                    Some(m) => if float_rank(f) < float_rank(m) {
                        Some(f)
                    } else {
                        Some(m)
                    },
                    None => Some(f),
                },
                max_float: match g.max_float {
                    _ if is_nan_bits(f) => g.max_float,
                    Some(m) => if float_rank(m) < float_rank(f) {
                        Some(f)
                    } else {
                        Some(m)
                    },
                    None => Some(f),
                },
                ..seen
            },
            Family::Float64,
        ),
        ValueView::Bool(b) => with_family(
            GeometryView {
                saw_true: g.saw_true || b,
                saw_false: g.saw_false || !b,
                ..seen
            },
            Family::Bool,
        ),
        ValueView::Text(s) => with_family(
            GeometryView {
                has_string: true,
                min_str: match g.min_str {
                    Some(m) => if text::text_lt(s, m) {
                        Some(s)
                    } else {
                        Some(m)
                    },
                    None => Some(s),
                },
                max_str: match g.max_str {
                    Some(m) => if text::text_lt(m, s) {
                        Some(s)
                    } else {
                        Some(m)
                    },
                    None => Some(s),
                },
                ..seen
            },
            Family::Text,
        ),
        ValueView::Vector(w) => if w.len() > 0xffff {
            Err(staging::over16(WireCount::VectorLength, w.len()))
        } else if g.vector_dims is Some && g.vector_dims != Some(w.len() as u16) {
            Err(mixed(g, Mixture::VectorLengths))
        } else {
            with_family(
                GeometryView { vector_dims: Some(w.len() as u16), ..seen },
                Family::Vector,
            )
        },
        ValueView::Other(k) => Err(GenerationError::UnsupportedValue(k)),
    }
}

fn check_family(g: &mut ColumnGeometry, family: Family) -> (r: Result<(), GenerationError>)
    ensures
        match r {
            Ok(_) => with_family(old(g)@, family) == Ok::<GeometryView, GenerationError>(
                final(g)@,
            ),
            Err(e) => with_family(old(g)@, family) == Err::<GeometryView, GenerationError>(e),
        },
{
    match g.family {
        None => {
            g.family = Some(family);
            Ok(())
        },
        Some(f) => {
            if f == family {
                Ok(())
            } else {
                Err(
                    GenerationError::MixedColumnTypes {
                        table_id: g.table_id,
                        kinds: Mixture::Families(f, family),
                    },
                )
            }
        },
    }
}

fn add_int(g: &mut ColumnGeometry, n: i64) -> (r: Result<(), GenerationError>)
    requires
        old(g).present_count < u64::MAX,
    ensures
        match r {
            Ok(_) => geometry_step(old(g)@, ValueView::Int64(n)) == Ok::<
                GeometryView,
                GenerationError,
            >(final(g)@),
            Err(e) => geometry_step(old(g)@, ValueView::Int64(n)) == Err::<
                GeometryView,
                GenerationError,
            >(e),
        },
{
    g.present_count = g.present_count + 1;
    if n < 0 {
        g.saw_signed_int = true;
    } else {
        let bits: u8 = int_bits(n as u64);
        let wide: u8 = if bits < 1 {
            1
        } else {
            bits
        };
        if g.max_int_bits < wide {
            g.max_int_bits = wide;
        }
    }
    match g.min_int {
        Some(m) => {
            if !(m <= n) {
                g.min_int = Some(n);
            }
        },
        None => {
            g.min_int = Some(n);
        },
    }
    match g.max_int {
        Some(m) => {
            if !(m >= n) {
                g.max_int = Some(n);
            }
        },
        None => {
            g.max_int = Some(n);
        },
    }
    check_family(g, Family::Int64)
}

fn add_float(g: &mut ColumnGeometry, f: u64) -> (r: Result<(), GenerationError>)
    requires
        old(g).present_count < u64::MAX,
    ensures
        match r {
            Ok(_) => geometry_step(old(g)@, ValueView::Float64(f)) == Ok::<
                GeometryView,
                GenerationError,
            >(final(g)@),
            Err(e) => geometry_step(old(g)@, ValueView::Float64(f)) == Err::<
                GeometryView,
                GenerationError,
            >(e),
        },
{
    g.present_count = g.present_count + 1;
    if !(f % 0x8000_0000_0000_0000 > 0x7ff0_0000_0000_0000) {
        match g.min_float {
            Some(m) => {
                if float_less(f, m) {
                    g.min_float = Some(f);
                }
            },
            None => {
                g.min_float = Some(f);
            },
        }
        match g.max_float {
            Some(m) => {
                if float_less(m, f) {
                    g.max_float = Some(f);
                }
            },
            None => {
                g.max_float = Some(f);
            },
        }
    }
    check_family(g, Family::Float64)
}

fn add_text(g: &mut ColumnGeometry, s: &str) -> (r: Result<(), GenerationError>)
    requires
        old(g).present_count < u64::MAX,
    ensures
        match r {
            Ok(_) => geometry_step(old(g)@, ValueView::Text(s@)) == Ok::<
                GeometryView,
                GenerationError,
            >(final(g)@),
            Err(e) => geometry_step(old(g)@, ValueView::Text(s@)) == Err::<
                GeometryView,
                GenerationError,
            >(e),
        },
{
    g.present_count = g.present_count + 1;
    g.has_string = true;
    let lower: bool = match &g.min_str {
        Some(m) => text_less(s, m.as_str()),
        None => true,
    };
    if lower {
        g.min_str = Some(own(s));
    }
    let higher: bool = match &g.max_str {
        Some(m) => text_less(m.as_str(), s),
        None => true,
    };
    if higher {
        g.max_str = Some(own(s));
    }
    check_family(g, Family::Text)
}

/// Adds a value to a geometry.
fn add_value(g: &mut ColumnGeometry, v: &Value) -> (r: Result<(), GenerationError>)
    requires
        old(g).present_count < u64::MAX,
        old(g).null_count <= old(g).present_count,
    ensures
        match r {
            Ok(_) => geometry_step(old(g)@, v@) == Ok::<GeometryView, GenerationError>(final(g)@)
                && final(g).present_count == old(g).present_count + 1 && final(g).null_count
                <= final(g).present_count,
            Err(e) => geometry_step(old(g)@, v@) == Err::<GeometryView, GenerationError>(e),
        },
{
    match v {
        Value::Null => {
            g.null_count = g.null_count + 1;
            g.present_count = g.present_count + 1;
            Ok(())
        },
        Value::Int64(n) => add_int(g, *n),
        Value::Float64(f) => add_float(g, *f),
        Value::Bool(b) => {
            g.present_count = g.present_count + 1;
            if *b {
                g.saw_true = true;
            } else {
                g.saw_false = true;
            }
            check_family(g, Family::Bool)
        },
        Value::String(s) => add_text(g, s.as_str()),
        Value::Vector(w) => {
            let n: usize = w.len();
            assert(n == w@.len());
            if n > 0xffff {
                return Err(
                    GenerationError::WireWidthOverflow {
                        what: WireCount::VectorLength,
                        count: n as u64,
                        max: 0xffff,
                    },
                );
            }
            match g.vector_dims {
                Some(d) => {
                    if d != n as u16 {
                        return Err(
                            GenerationError::MixedColumnTypes {
                                table_id: g.table_id,
                                kinds: Mixture::VectorLengths,
                            },
                        );
                    }
                },
                None => {},
            }
            g.present_count = g.present_count + 1;
            g.vector_dims = Some(n as u16);
            check_family(g, Family::Vector)
        },
        Value::Blob(_) => Err(GenerationError::UnsupportedValue(ValueKind::Blob)),
        Value::Timestamp(_) => Err(GenerationError::UnsupportedValue(ValueKind::Timestamp)),
        Value::Date(_) => Err(GenerationError::UnsupportedValue(ValueKind::Date)),
        Value::Time(_) => Err(GenerationError::UnsupportedValue(ValueKind::Time)),
        Value::Duration(_) => Err(GenerationError::UnsupportedValue(ValueKind::Duration)),
        Value::ZonedDatetime(_) => Err(GenerationError::UnsupportedValue(ValueKind::ZonedDatetime)),
        Value::List(_) => Err(GenerationError::UnsupportedValue(ValueKind::List)),
        Value::Object(_) => Err(GenerationError::UnsupportedValue(ValueKind::Object)),
        Value::Path { .. } => Err(GenerationError::UnsupportedValue(ValueKind::Path)),
        Value::GCounter(_) => Err(GenerationError::UnsupportedValue(ValueKind::GCounter)),
        Value::OnCounter { .. } => Err(GenerationError::UnsupportedValue(ValueKind::OnCounter)),
    }
}

// ---------------------------------------------------------------- replay

/// The rows of a table: node tables by their id, relationship tables by theirs
/// with the high bit set.
pub open spec fn rows_of_table(nodes: Seq<u64>, rels: Seq<u64>, table_id: u16) -> Option<u64> {
    if table_id >= 0x8000 {
        if table_id - 0x8000 < rels.len() {
            Some(rels[table_id - 0x8000])
        } else {
            None
        }
    } else if table_id < nodes.len() {
        Some(nodes[table_id as int])
    } else {
        None
    }
}

/// The rows of a table.
pub fn table_rows(nodes: &[u64], rels: &[u64], table_id: u16) -> (r: Option<u64>)
    ensures
        r == rows_of_table(nodes@, rels@, table_id),
{
    if table_id >= 0x8000 {
        let rel: usize = (table_id - 0x8000) as usize;
        if rel < rels.len() {
            Some(rels[rel])
        } else {
            None
        }
    } else if (table_id as usize) < nodes.len() {
        Some(nodes[table_id as usize])
    } else {
        None
    }
}

/// The geometries after one more occurrence: the last one goes on, or a new
/// one begins.
pub open spec fn geometries_step(
    nodes: Seq<u64>,
    rels: Seq<u64>,
    v: Seq<GeometryView>,
    rec: RecordView,
) -> Result<Seq<GeometryView>, GenerationError> {
    match node_pass::split_occ(rec.key) {
        Err(e) => Err(e),
        Ok(k) => match occ_value(rec.payload) {
            Err(e) => Err(e),
            Ok(x) => {
                let same = v.len() > 0 && v.last().table_id == k.0 && v.last().key == k.1;
                if same {
                    match geometry_step(v.last(), x) {
                        Err(e) => Err(e),
                        Ok(g) => Ok(v.drop_last().push(g)),
                    }
                } else {
                    match rows_of_table(nodes, rels, k.0) {
                        None => Err(GenerationError::Codec(CodecError::UnknownColumn)),
                        Some(n) => match geometry_step(blank_geometry(k.0, k.1, n), x) {
                            Err(e) => Err(e),
                            Ok(g) => Ok(v.push(g)),
                        },
                    }
                }
            },
        },
    }
}

/// The geometries after the first `k` occurrences.
pub open spec fn geometries_after(
    nodes: Seq<u64>,
    rels: Seq<u64>,
    recs: Seq<RecordView>,
    k: nat,
) -> Result<Seq<GeometryView>, GenerationError>
    decreases k,
{
    if k == 0 {
        Ok(Seq::empty())
    } else {
        match geometries_after(nodes, rels, recs, (k - 1) as nat) {
            Err(e) => Err(e),
            Ok(v) => geometries_step(nodes, rels, v, recs[k - 1]),
        }
    }
}

proof fn lemma_geometries_fail(
    nodes: Seq<u64>,
    rels: Seq<u64>,
    recs: Seq<RecordView>,
    i: nat,
    n: nat,
)
    requires
        i <= n,
        geometries_after(nodes, rels, recs, i) is Err,
    ensures
        geometries_after(nodes, rels, recs, n) == geometries_after(nodes, rels, recs, i),
    decreases n,
{
    if i < n {
        lemma_geometries_fail(nodes, rels, recs, i, (n - 1) as nat);
    }
}

/// Replays the occurrences: the geometry of every column, in the order of the
/// run.
pub fn compute_column_geometries(
    occ_lease: &RunSetLease,
    node_rows: &[u64],
    rel_rows: &[u64],
) -> (r: Result<Vec<ColumnGeometry>, GenerationError>)
    ensures
        ({
            let want = geometries_after(node_rows@, rel_rows@, occ_lease@, occ_lease@.len());
            match r {
                Ok(v) => want == Ok::<Seq<GeometryView>, GenerationError>(geometry_views(v@)),
                Err(e) => want == Err::<Seq<GeometryView>, GenerationError>(e),
            }
        }),
{
    let n: usize = occ_lease.len();
    let ghost recs = occ_lease@;
    let ghost nr = node_rows@;
    let ghost rr = rel_rows@;
    let mut done: Vec<ColumnGeometry> = Vec::new();
    let mut current: Option<ColumnGeometry> = None;
    let ghost mut v: Seq<GeometryView> = Seq::empty();
    let mut i: usize = 0;
    assert(geometry_views(done@) =~= Seq::empty());
    while i < n
        invariant
            i <= n,
            n == recs.len(),
            recs == occ_lease@,
            nr == node_rows@,
            rr == rel_rows@,
            geometries_after(nr, rr, recs, i as nat) == Ok::<Seq<GeometryView>, GenerationError>(v),
            match current {
                None => v.len() == 0 && done@.len() == 0,
                Some(g) => v == geometry_views(done@).push(g@) && g.present_count <= i
                    && g.null_count <= g.present_count,
            },
        decreases n - i,
    {
        proof {
            if geometries_after(nr, rr, recs, (i + 1) as nat) is Err {
                lemma_geometries_fail(nr, rr, recs, (i + 1) as nat, n as nat);
            }
        }
        let rec: &SortRecord = occ_lease.record_at(i);
        let (tid, prop, _) = match split_occ_key(rec.key.as_slice()) {
            Ok(p) => p,
            Err(e) => return Err(e),
        };
        let value: Value = match decode_occ_value(rec.payload.as_slice()) {
            Ok(x) => x,
            Err(e) => return Err(e),
        };
        let ghost before = v;
        let ghost goes_on = v.len() > 0 && v.last().table_id == tid && v.last().key == prop@;
        let mut taken: Option<ColumnGeometry> = None;
        std::mem::swap(&mut taken, &mut current);
        let mut g: ColumnGeometry = match taken {
            Some(g) => {
                if g.table_id == tid && text_eq(g.key.as_str(), prop) {
                    proof {
                        assert(v.last() == g@);
                        assert(v.drop_last() =~= geometry_views(done@));
                    }
                    g
                } else {
                    assert(v.last() == g@);
                    done.push(g);
                    assert(geometry_views(done@) =~= v);
                    match table_rows(node_rows, rel_rows, tid) {
                        Some(rows) => ColumnGeometry::new(tid, own(prop), rows),
                        None => return Err(GenerationError::Codec(CodecError::UnknownColumn)),
                    }
                }
            },
            None => match table_rows(node_rows, rel_rows, tid) {
                Some(rows) => {
                    assert(geometry_views(done@) =~= v);
                    ColumnGeometry::new(tid, own(prop), rows)
                },
                None => return Err(GenerationError::Codec(CodecError::UnknownColumn)),
            },
        };
        let ghost start = g@;
        assert(goes_on ==> start == before.last() && geometry_views(done@) == before.drop_last());
        assert(!goes_on ==> geometry_views(done@) == before && rows_of_table(nr, rr, tid) is Some
            && start == blank_geometry(tid, prop@, rows_of_table(nr, rr, tid)->0));
        match add_value(&mut g, &value) {
            Ok(_) => {},
            Err(e) => return Err(e),
        }
        proof {
            v = geometry_views(done@).push(g@);
            assert(geometries_step(nr, rr, before, recs[i as int]) == Ok::<
                Seq<GeometryView>,
                GenerationError,
            >(v));
        }
        current = Some(g);
        i = i + 1;
    }
    match current {
        Some(g) => {
            done.push(g);
            assert(geometry_views(done@) =~= v);
        },
        None => {
            assert(v =~= geometry_views(done@));
        },
    }
    Ok(done)
}

// ------------------------------------------------------------------ laws

/// The geometry of the first `k` values of a column.
pub open spec fn geometry_of(g: GeometryView, vals: Seq<ValueView>, k: nat) -> Result<
    GeometryView,
    GenerationError,
>
    decreases k,
{
    if k == 0 {
        Ok(g)
    } else {
        match geometry_of(g, vals, (k - 1) as nat) {
            Err(e) => Err(e),
            Ok(h) => geometry_step(h, vals[k - 1]),
        }
    }
}

/// A column of one family keeps one codec: the first value that is not null
/// decides the family, and every later one has it.
pub proof fn lemma_family_is_kept(g: GeometryView, vals: Seq<ValueView>, k: nat, n: nat)
    requires
        k <= n <= vals.len(),
        geometry_of(g, vals, n) is Ok,
        geometry_of(g, vals, k) matches Ok(h) && h.family is Some,
    ensures
        geometry_of(g, vals, n)->Ok_0.family == geometry_of(g, vals, k)->Ok_0.family,
    decreases n,
{
    if k < n {
        lemma_family_is_kept(g, vals, k, (n - 1) as nat);
    }
}

/// The integer bounds of a column lie on either side of all its integers.
pub proof fn lemma_integer_bounds(g: GeometryView, vals: Seq<ValueView>, n: nat, i: int)
    requires
        n <= vals.len(),
        0 <= i < n,
        geometry_of(g, vals, n) is Ok,
        vals[i] is Int64,
    ensures
        ({
            let h = geometry_of(g, vals, n)->Ok_0;
            &&& h.min_int is Some
            &&& h.max_int is Some
            &&& h.min_int->0 <= vals[i]->Int64_0 <= h.max_int->0
        }),
    decreases n,
{
    if i < n - 1 {
        lemma_integer_bounds(g, vals, (n - 1) as nat, i);
    }
}

/// Present and null rows are counted: as many present rows as values, and as
/// many nulls among them as there are.
pub proof fn lemma_presence_counts(g: GeometryView, vals: Seq<ValueView>, n: nat)
    requires
        n <= vals.len(),
        geometry_of(g, vals, n) is Ok,
    ensures
        geometry_of(g, vals, n)->Ok_0.present_count == g.present_count + n,
        geometry_of(g, vals, n)->Ok_0.null_count == g.null_count + vals.take(n as int).filter(
            |v: ValueView| v is Null,
        ).len(),
    decreases n,
{
    let nulls = |v: ValueView| v is Null;
    if n == 0 {
        assert(vals.take(0).filter(nulls).len() == 0) by {
            reveal(Seq::filter);
            assert(vals.take(0) =~= Seq::empty());
        }
    } else {
        lemma_presence_counts(g, vals, (n - 1) as nat);
        assert(vals.take(n as int).drop_last() =~= vals.take(n - 1));
        reveal(Seq::filter);
    }
}

} // verus!
