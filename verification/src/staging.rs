//! Records of the sort domains that the generation passes drive.
//!
//! Every domain is a row of records, each a byte-lexicographic sort key and a
//! payload. Identifiers enter a key big-endian, so that byte order is numeric
//! order.
//!
//! - node row: `label_len u16 || label || original_id u64 BE`, payload the
//!   properties;
//! - edge row: `type_len u16 || type || original_id u64 BE`, payload
//!   `src u64 BE || dst u64 BE || properties`;
//! - id map: `original_id u64 BE`, payload `table_id u16 || position u64`;
//! - forward adjacency: `rel_table_id u16 BE || src u32 BE || dst u32 BE ||
//!   original_edge_id u64 BE`;
//! - reverse adjacency: `rel_table_id u16 BE || dst u32 BE || src u32 BE ||
//!   forward_position u32 BE`.

use crate::faults;
use crate::generation::{CodecError, GenerationError, WireCount};
use crate::text::{TextMap, decode_text, own};
use crate::text;
use crate::value::{Value, ValueKind, ValueView};
use crate::wire::{load_u16, load_u16_be, load_u32, load_u32_be, load_u64, load_u64_be, push_bytes, push_u16, push_u16_be, push_u32, push_u32_be, push_u64, push_u64_be};
use crate::wire;
use vstd::prelude::*;
use vstd::slice::*;
use vstd::utf8::*;

verus! {

/// Version of the record encodings.
pub const STAGING_VERSION: u32 = 1;

// ---------------------------------------------------------------- values

/// A property: its key and its value.
pub type Property = (Seq<char>, ValueView);

/// The overflow of a count past the largest `u16`.
pub open spec fn over16(what: WireCount, n: nat) -> GenerationError {
    GenerationError::WireWidthOverflow { what, count: n as u64, max: 0xffff }
}

/// The overflow of a count past the largest `u32`.
pub open spec fn over32(what: WireCount, n: nat) -> GenerationError {
    GenerationError::WireWidthOverflow { what, count: n as u64, max: 0xffff_ffff }
}

/// Why a value has no record.
pub open spec fn value_fault(v: ValueView) -> Option<GenerationError> {
    match v {
        ValueView::Text(s) => if text::utf8(s).len() > 0xffff_ffff {
            Some(over32(WireCount::TextLength, text::utf8(s).len()))
        } else {
            None
        },
        ValueView::Vector(w) => if w.len() > 0xffff {
            Some(over16(WireCount::VectorLength, w.len()))
        } else {
            None
        },
        ValueView::Other(k) => Some(GenerationError::Codec(CodecError::UnsupportedValue(k))),
        _ => None,
    }
}

/// The refusal of a value that has no record.
fn unsupported(k: ValueKind) -> (r: GenerationError)
    ensures
        r == GenerationError::Codec(CodecError::UnsupportedValue(k)),
{
    GenerationError::Codec(CodecError::UnsupportedValue(k))
}

/// The record of a value: its tag, then its content.
pub open spec fn value_record(v: ValueView) -> Seq<u8> {
    match v {
        ValueView::Null => seq![0u8],
        ValueView::Int64(n) => seq![1u8] + wire::put64(n as u64),
        ValueView::Bool(b) => seq![2u8, if b { 1u8 } else { 0u8 }],
        ValueView::Text(s) => seq![3u8] + wire::put32(text::utf8(s).len() as u32) + text::utf8(s),
        ValueView::Float64(f) => seq![4u8] + wire::put64(f),
        ValueView::Vector(w) => seq![5u8] + wire::put16(w.len() as u16) + wire::flat(w, |x: u32| wire::put32(x)),
        ValueView::Other(_) => Seq::empty(),
    }
}

/// The signed integer with the given bits.
pub open spec fn signed(bits: u64) -> i64 {
    bits as i64
}

/// The value whose record stands at `pos`, and where the record ends.
pub open spec fn value_at(d: Seq<u8>, pos: int) -> Result<(ValueView, int), GenerationError> {
    let cut = Err(GenerationError::Codec(CodecError::Truncated));
    if pos + 1 > d.len() {
        cut
    } else if d[pos] == 0 {
        Ok((ValueView::Null, pos + 1))
    } else if d[pos] == 1 {
        if pos + 9 > d.len() {
            cut
        } else {
            Ok((ValueView::Int64(signed(wire::u64_at(d, pos + 1))), pos + 9))
        }
    } else if d[pos] == 2 {
        if pos + 2 > d.len() {
            cut
        } else {
            Ok((ValueView::Bool(d[pos + 1] != 0), pos + 2))
        }
    } else if d[pos] == 3 {
        if pos + 5 > d.len() {
            cut
        } else {
            let n = wire::u32_at(d, pos + 1) as int;
            if pos + 5 + n > d.len() {
                cut
            } else {
                let b = d.subrange(pos + 5, pos + 5 + n);
                if valid_utf8(b) {
                    Ok((ValueView::Text(text::text_of(b)), pos + 5 + n))
                } else {
                    Err(GenerationError::Codec(CodecError::InvalidText))
                }
            }
        }
    } else if d[pos] == 4 {
        if pos + 9 > d.len() {
            cut
        } else {
            Ok((ValueView::Float64(wire::u64_at(d, pos + 1)), pos + 9))
        }
    } else if d[pos] == 5 {
        if pos + 3 > d.len() {
            cut
        } else {
            let n = wire::u16_at(d, pos + 1) as int;
            if pos + 3 + 4 * n > d.len() {
                cut
            } else {
                Ok(
                    (
                        ValueView::Vector(Seq::new(n as nat, |i: int| wire::u32_at(d, pos + 3 + 4 * i))),
                        pos + 3 + 4 * n,
                    ),
                )
            }
        }
    } else {
        Err(GenerationError::Codec(CodecError::UnknownTag(d[pos])))
    }
}

/// Appends the record of a value.
pub fn encode_value(out: &mut Vec<u8>, v: &Value) -> (r: Result<(), GenerationError>)
    ensures
        match r {
            Ok(_) => value_fault(v@) is None && final(out)@ == old(out)@ + value_record(v@),
            Err(e) => value_fault(v@) == Some(e),
        },
{
    let ghost before = out@;
    match v {
        Value::Null => {
            out.push(0);
            assert(out@ =~= before + value_record(v@));
            Ok(())
        },
        Value::Bool(b) => {
            out.push(2);
            out.push(
                if *b {
                    1
                } else {
                    0
                },
            );
            assert(out@ =~= before + value_record(v@));
            Ok(())
        },
        Value::Int64(n) => {
            out.push(1);
            push_u64(out, *n as u64);
            assert(out@ =~= before + value_record(v@));
            Ok(())
        },
        Value::Float64(f) => {
            out.push(4);
            push_u64(out, *f);
            assert(out@ =~= before + value_record(v@));
            Ok(())
        },
        Value::String(s) => {
            let b: &[u8] = s.as_str().as_bytes();
            assert(b@.len() == b.len());
            if b.len() as u64 > 0xffff_ffff {
                return Err(
                    GenerationError::WireWidthOverflow {
                        what: WireCount::TextLength,
                        count: b.len() as u64,
                        max: 0xffff_ffff,
                    },
                );
            }
            out.push(3);
            push_u32(out, b.len() as u32);
            push_bytes(out, b);
            assert(out@ =~= before + value_record(v@));
            Ok(())
        },
        Value::Vector(w) => {
            let n: usize = w.len();
            assert(w@.len() == n);
            if n > 0xffff {
                return Err(
                    GenerationError::WireWidthOverflow {
                        what: WireCount::VectorLength,
                        count: n as u64,
                        max: 0xffff,
                    },
                );
            }
            out.push(5);
            push_u16(out, n as u16);
            let ghost head = out@;
            let ghost f = |x: u32| wire::put32(x);
            let mut i: usize = 0;
            assert(head + wire::flat(w@.take(0), f) =~= head);
            while i < n
                invariant
                    i <= n,
                    n == w@.len(),
                    f == (|x: u32| wire::put32(x)),
                    out@ == head + wire::flat(w@.take(i as int), f),
                decreases n - i,
            {
                push_u32(out, w[i]);
                proof {
                    wire::lemma_flat_push(w@.take(i as int), w@[i as int], f);
                    assert(w@.take(i as int + 1) =~= w@.take(i as int).push(w@[i as int]));
                }
                i = i + 1;
                assert(out@ =~= head + wire::flat(w@.take(i as int), f));
            }
            assert(w@.take(n as int) =~= w@);
            assert(out@ =~= before + value_record(v@));
            Ok(())
        },
        Value::Blob(_) => Err(unsupported(ValueKind::Blob)),
        Value::Timestamp(_) => Err(unsupported(ValueKind::Timestamp)),
        Value::Date(_) => Err(unsupported(ValueKind::Date)),
        Value::Time(_) => Err(unsupported(ValueKind::Time)),
        Value::Duration(_) => Err(unsupported(ValueKind::Duration)),
        Value::ZonedDatetime(_) => Err(unsupported(ValueKind::ZonedDatetime)),
        Value::List(_) => Err(unsupported(ValueKind::List)),
        Value::Object(_) => Err(unsupported(ValueKind::Object)),
        Value::Path { .. } => Err(unsupported(ValueKind::Path)),
        Value::GCounter(_) => Err(unsupported(ValueKind::GCounter)),
        Value::OnCounter { .. } => Err(unsupported(ValueKind::OnCounter)),
    }
}

fn truncated() -> (e: GenerationError)
    ensures
        e == GenerationError::Codec(CodecError::Truncated),
{
    GenerationError::Codec(CodecError::Truncated)
}

/// The value whose record stands at `pos`, and where the record ends.
pub fn decode_value(d: &[u8], pos: usize) -> (r: Result<(Value, usize), GenerationError>)
    requires
        pos <= d@.len(),
    ensures
        match r {
            Ok(p) => value_at(d@, pos as int) == Ok::<(ValueView, int), GenerationError>(
                (p.0@, p.1 as int),
            ) && p.1 <= d@.len(),
            Err(e) => value_at(d@, pos as int) == Err::<(ValueView, int), GenerationError>(e),
        },
{
    let n: usize = d.len();
    assert(n == d@.len());
    if n - pos < 1 {
        return Err(truncated());
    }
    let tag: u8 = d[pos];
    if tag == 0 {
        Ok((Value::Null, pos + 1))
    } else if tag == 1 {
        if n - pos < 9 {
            return Err(truncated());
        }
        let bits: u64 = load_u64(d, pos + 1);
        Ok((Value::Int64(bits as i64), pos + 9))
    } else if tag == 2 {
        if n - pos < 2 {
            return Err(truncated());
        }
        Ok((Value::Bool(d[pos + 1] != 0), pos + 2))
    } else if tag == 3 {
        if n - pos < 5 {
            return Err(truncated());
        }
        let len32: u32 = load_u32(d, pos + 1);
        if ((n - pos - 5) as u64) < len32 as u64 {
            return Err(truncated());
        }
        let len: usize = len32 as usize;
        let b: &[u8] = slice_subrange(d, pos + 5, pos + 5 + len);
        match decode_text(b) {
            Some(s) => Ok((Value::String(own(s)), pos + 5 + len)),
            None => Err(GenerationError::Codec(CodecError::InvalidText)),
        }
    } else if tag == 4 {
        if n - pos < 9 {
            return Err(truncated());
        }
        Ok((Value::Float64(load_u64(d, pos + 1)), pos + 9))
    } else if tag == 5 {
        if n - pos < 3 {
            return Err(truncated());
        }
        let dims: usize = load_u16(d, pos + 1) as usize;
        if n - pos - 3 < 4 * dims {
            return Err(truncated());
        }
        let mut w: Vec<u32> = Vec::with_capacity(dims);
        let mut i: usize = 0;
        while i < dims
            invariant
                i <= dims <= 0xffff,
                n == d@.len(),
                pos + 3 + 4 * dims <= n,
                w@ == Seq::new(i as nat, |k: int| wire::u32_at(d@, pos + 3 + 4 * k)),
            decreases dims - i,
        {
            w.push(load_u32(d, pos + 3 + 4 * i));
            i = i + 1;
            assert(w@ =~= Seq::new(i as nat, |k: int| wire::u32_at(d@, pos + 3 + 4 * k)));
        }
        Ok((Value::Vector(w), pos + 3 + 4 * dims))
    } else {
        Err(GenerationError::Codec(CodecError::UnknownTag(tag)))
    }
}

/// Reading a value's record gives the value back.
pub proof fn lemma_value_round_trip(d: Seq<u8>, pos: int, v: ValueView)
    requires
        value_fault(v) is None,
        wire::holds_at(d, pos, value_record(v)),
    ensures
        value_at(d, pos) == Ok::<(ValueView, int), GenerationError>(
            (v, pos + value_record(v).len()),
        ),
{
    broadcast use wire::group_wire;

    let rec = value_record(v);
    assert(rec.len() >= 1);
    assert(d[pos] == d.subrange(pos, pos + rec.len())[0]);
    match v {
        ValueView::Null => {},
        ValueView::Bool(b) => {
            assert(d[pos + 1] == d.subrange(pos, pos + rec.len())[1]);
        },
        ValueView::Int64(n) => {
            wire::lemma_holds_split(d, pos, seq![1u8], wire::put64(n as u64));
            assert(n as u64 as i64 == n) by (bit_vector);
        },
        ValueView::Float64(f) => {
            wire::lemma_holds_split(d, pos, seq![4u8], wire::put64(f));
        },
        ValueView::Text(s) => {
            let head = seq![3u8] + wire::put32(text::utf8(s).len() as u32);
            wire::lemma_holds_split(d, pos, head, text::utf8(s));
            wire::lemma_holds_split(d, pos, seq![3u8], wire::put32(text::utf8(s).len() as u32));
            text::lemma_text_of_utf8(s);
        },
        ValueView::Vector(w) => {
            let f = |x: u32| wire::put32(x);
            let head = seq![5u8] + wire::put16(w.len() as u16);
            wire::lemma_holds_split(d, pos, head, wire::flat(w, f));
            wire::lemma_holds_split(d, pos, seq![5u8], wire::put16(w.len() as u16));
            wire::lemma_flat_len(w, f, 4);
            assert forall|i: int| 0 <= i < w.len() implies wire::u32_at(d, pos + 3 + 4 * i) == w[i] by {
                wire::lemma_flat_at(w, f, 4, i);
                wire::lemma_holds_within(d, pos + 3, wire::flat(w, f), i * 4, i * 4 + 4);
            }
            assert(Seq::new(w.len(), |i: int| wire::u32_at(d, pos + 3 + 4 * i)) =~= w);
        },
        ValueView::Other(_) => {},
    }
}

// ------------------------------------------------------------ properties

/// The properties of a map in ascending key order.
pub open spec fn properties_of(m: TextMap<Value>) -> Seq<Property> {
    Seq::new(m.key_seq().len(), |i: int| (m.key_seq()[i], m.val_seq()[i]@))
}

/// A map of values by what the values are.
pub open spec fn value_views(m: Map<Seq<char>, Value>) -> Map<Seq<char>, ValueView> {
    m.map_values(|v: Value| v@)
}

/// The map that properties spell; of two with one key the later counts.
pub open spec fn property_map(p: Seq<Property>) -> Map<Seq<char>, ValueView>
    decreases p.len(),
{
    if p.len() == 0 {
        Map::empty()
    } else {
        property_map(p.drop_last()).insert(p.last().0, p.last().1)
    }
}

/// The record of a property.
pub open spec fn property_record(p: Property) -> Seq<u8> {
    wire::put16(text::utf8(p.0).len() as u16) + text::utf8(p.0) + value_record(p.1)
}

/// The record of a property, as a function.
pub open spec fn property_records() -> spec_fn(Property) -> Seq<u8> {
    |p: Property| property_record(p)
}

/// The record of a row of properties.
pub open spec fn properties_record(p: Seq<Property>) -> Seq<u8> {
    wire::put32(p.len() as u32) + wire::flat(p, property_records())
}

/// Why a property has no record.
pub open spec fn property_fault(p: Property) -> Option<GenerationError> {
    if text::utf8(p.0).len() > 0xffff {
        Some(over16(WireCount::KeyLength, text::utf8(p.0).len()))
    } else {
        value_fault(p.1)
    }
}

/// The checks on the properties, one by one.
pub open spec fn property_checks(p: Seq<Property>) -> spec_fn(int) -> Option<GenerationError> {
    |i: int| property_fault(p[i])
}

/// Why a row of properties has no record.
pub open spec fn properties_fault(p: Seq<Property>) -> Option<GenerationError> {
    if p.len() > 0xffff_ffff {
        Some(over32(WireCount::PropertyCount, p.len()))
    } else {
        faults::first_fault(p.len(), property_checks(p))
    }
}

/// Serializes a property map with its keys in ascending order.
pub fn encode_properties(props: &TextMap<Value>) -> (r: Result<Vec<u8>, GenerationError>)
    ensures
        match r {
            Ok(b) => properties_fault(properties_of(*props)) is None && b@ == properties_record(
                properties_of(*props),
            ),
            Err(e) => properties_fault(properties_of(*props)) == Some(e),
        },
{
    let n: usize = props.len();
    let ghost p = properties_of(*props);
    let ghost f = property_records();
    if n as u64 > 0xffff_ffff {
        return Err(
            GenerationError::WireWidthOverflow {
                what: WireCount::PropertyCount,
                count: n as u64,
                max: 0xffff_ffff,
            },
        );
    }
    let mut out: Vec<u8> = Vec::new();
    push_u32(&mut out, n as u32);
    let ghost head = out@;
    let mut i: usize = 0;
    assert(head =~= wire::put32(n as u32));
    assert(head + wire::flat(p.take(0), f) =~= head);
    while i < n
        invariant
            i <= n,
            n == p.len(),
            n <= 0xffff_ffff,
            p == properties_of(*props),
            f == property_records(),
            head == wire::put32(n as u32),
            out@ == head + wire::flat(p.take(i as int), f),
            faults::first_fault(i as nat, property_checks(p)) is None,
        decreases n - i,
    {
        let ghost before = out@;
        let key: &[u8] = props.key_at(i).as_bytes();
        assert(key@.len() == key.len());
        proof {
            assert(p[i as int].0 == props.key_seq()[i as int]);
        }
        if key.len() > 0xffff {
            proof {
                assert(property_checks(p)(i as int) == Some(
                    over16(WireCount::KeyLength, key@.len()),
                ));
                faults::lemma_first_fault_stays((i + 1) as nat, n as nat, property_checks(p));
            }
            return Err(
                GenerationError::WireWidthOverflow {
                    what: WireCount::KeyLength,
                    count: key.len() as u64,
                    max: 0xffff,
                },
            );
        }
        push_u16(&mut out, key.len() as u16);
        push_bytes(&mut out, key);
        let v: &Value = props.val_at(i);
        match encode_value(&mut out, v) {
            Ok(_) => {},
            Err(e) => {
                proof {
                    assert(property_checks(p)(i as int) == Some(e));
                    faults::lemma_first_fault_stays((i + 1) as nat, n as nat, property_checks(p));
                }
                return Err(e);
            },
        }
        proof {
            assert(property_checks(p)(i as int) is None);
            wire::lemma_flat_push(p.take(i as int), p[i as int], f);
            assert(p.take(i as int + 1) =~= p.take(i as int).push(p[i as int]));
            assert(out@ =~= before + property_record(p[i as int]));
        }
        i = i + 1;
        assert(out@ =~= head + wire::flat(p.take(i as int), f));
    }
    assert(p.take(n as int) =~= p);
    Ok(out)
}

/// The property whose record stands at `pos`, and where the record ends.
pub open spec fn property_at(d: Seq<u8>, pos: int) -> Result<(Property, int), GenerationError> {
    if pos + 2 > d.len() {
        Err(GenerationError::Codec(CodecError::Truncated))
    } else {
        let n = wire::u16_at(d, pos) as int;
        if pos + 2 + n > d.len() {
            Err(GenerationError::Codec(CodecError::Truncated))
        } else {
            let b = d.subrange(pos + 2, pos + 2 + n);
            if !valid_utf8(b) {
                Err(GenerationError::Codec(CodecError::InvalidText))
            } else {
                match value_at(d, pos + 2 + n) {
                    Ok(v) => Ok(((text::text_of(b), v.0), v.1)),
                    Err(e) => Err(e),
                }
            }
        }
    }
}

/// The first `k` properties of a record, and where the last of them ends.
pub open spec fn properties_after(d: Seq<u8>, k: nat) -> Result<
    (Seq<Property>, int),
    GenerationError,
>
    decreases k,
{
    if k == 0 {
        Ok((Seq::empty(), 4))
    } else {
        match properties_after(d, (k - 1) as nat) {
            Err(e) => Err(e),
            Ok(s) => match property_at(d, s.1) {
                Err(e) => Err(e),
                Ok(p) => Ok((s.0.push(p.0), p.1)),
            },
        }
    }
}

/// The properties that a record holds.
pub open spec fn decoded_properties(d: Seq<u8>) -> Result<
    Map<Seq<char>, ValueView>,
    GenerationError,
> {
    if d.len() < 4 {
        Err(GenerationError::Codec(CodecError::Truncated))
    } else {
        match properties_after(d, wire::u32_at(d, 0) as nat) {
            Ok(s) => Ok(property_map(s.0)),
            Err(e) => Err(e),
        }
    }
}

/// What fails among the first properties fails for all.
pub proof fn lemma_properties_fail(d: Seq<u8>, i: nat, n: nat)
    requires
        i <= n,
        properties_after(d, i) is Err,
    ensures
        properties_after(d, n) == properties_after(d, i),
    decreases n,
{
    if i < n {
        lemma_properties_fail(d, i, (n - 1) as nat);
    }
}

/// Reads a property map back.
pub fn decode_properties(bytes: &[u8]) -> (r: Result<TextMap<Value>, GenerationError>)
    ensures
        match r {
            Ok(m) => decoded_properties(bytes@) == Ok::<
                Map<Seq<char>, ValueView>,
                GenerationError,
            >(value_views(m@)),
            Err(e) => decoded_properties(bytes@) == Err::<
                Map<Seq<char>, ValueView>,
                GenerationError,
            >(e),
        },
{
    let n: usize = bytes.len();
    assert(n == bytes@.len());
    if n < 4 {
        return Err(truncated());
    }
    let count: u32 = load_u32(bytes, 0);
    let mut map: TextMap<Value> = TextMap::new();
    let mut pos: usize = 4;
    let mut i: u32 = 0;
    let ghost mut read: Seq<Property> = Seq::empty();
    assert(value_views(map@) =~= property_map(read));
    while i < count
        invariant
            i <= count,
            n == bytes@.len(),
            4 <= pos <= n,
            properties_after(bytes@, i as nat) == Ok::<(Seq<Property>, int), GenerationError>(
                (read, pos as int),
            ),
            value_views(map@) == property_map(read),
            count == wire::u32_at(bytes@, 0),
            n >= 4,
        decreases count - i,
    {
        let ghost before = map@;
        proof {
            if properties_after(bytes@, (i + 1) as nat) is Err {
                lemma_properties_fail(bytes@, (i + 1) as nat, count as nat);
            }
        }
        if n - pos < 2 {
            return Err(truncated());
        }
        let klen: usize = load_u16(bytes, pos) as usize;
        if n - pos - 2 < klen {
            return Err(truncated());
        }
        let kb: &[u8] = slice_subrange(bytes, pos + 2, pos + 2 + klen);
        let key: &str = match decode_text(kb) {
            Some(s) => s,
            None => return Err(GenerationError::Codec(CodecError::InvalidText)),
        };
        let (value, next) = match decode_value(bytes, pos + 2 + klen) {
            Ok(p) => p,
            Err(e) => return Err(e),
        };
        let ghost vv = value@;
        map.insert(key, value);
        proof {
            let grown = read.push((key@, vv));
            assert(grown.drop_last() =~= read);
            assert(property_map(grown) == property_map(read).insert(key@, vv));
            read = grown;
            assert(value_views(map@) =~= value_views(before).insert(key@, vv));
        }
        pos = next;
        i = i + 1;
    }
    Ok(map)
}

/// What stands in a row of records.
proof fn lemma_property_holds(d: Seq<u8>, p: Seq<Property>, k: int)
    requires
        d == properties_record(p),
        0 <= k < p.len(),
    ensures
        wire::holds_at(d, 4 + wire::flat(p.take(k), property_records()).len() as int, property_record(p[k])),
        wire::flat(p.take(k + 1), property_records()).len() == wire::flat(
            p.take(k),
            property_records(),
        ).len() + property_record(p[k]).len(),
{
    broadcast use wire::group_wire;

    let f = property_records();
    let a = p.take(k + 1);
    let b = p.skip(k + 1);
    assert(a + b =~= p);
    wire::lemma_flat_add(a, b, f);
    assert(a =~= p.take(k).push(p[k]));
    wire::lemma_flat_push(p.take(k), p[k], f);
    wire::lemma_holds_all(d);
    assert(d =~= wire::put32(p.len() as u32) + (wire::flat(p.take(k), f) + (property_record(p[k]) + wire::flat(
        b,
        f,
    ))));
    wire::lemma_holds_split(
        d,
        0,
        wire::put32(p.len() as u32),
        wire::flat(p.take(k), f) + (property_record(p[k]) + wire::flat(b, f)),
    );
    wire::lemma_holds_split(d, 4, wire::flat(p.take(k), f), property_record(p[k]) + wire::flat(b, f));
    wire::lemma_holds_split(
        d,
        4 + wire::flat(p.take(k), f).len() as int,
        property_record(p[k]),
        wire::flat(b, f),
    );
}

/// Reading the first properties of a record gives those that were encoded.
pub proof fn lemma_properties_read(d: Seq<u8>, p: Seq<Property>, k: nat)
    requires
        d == properties_record(p),
        properties_fault(p) is None,
        k <= p.len(),
    ensures
        properties_after(d, k) == Ok::<(Seq<Property>, int), GenerationError>(
            (p.take(k as int), 4 + wire::flat(p.take(k as int), property_records()).len() as int),
        ),
    decreases k,
{
    broadcast use wire::group_wire;

    if k == 0 {
        assert(p.take(0) =~= Seq::empty());
    } else {
        let j = k - 1;
        lemma_properties_read(d, p, j as nat);
        lemma_property_holds(d, p, j);
        faults::lemma_no_fault(p.len(), property_checks(p));
        assert(property_checks(p)(j) is None);
        let pos = 4 + wire::flat(p.take(j), property_records()).len() as int;
        let q = p[j];
        let head = wire::put16(text::utf8(q.0).len() as u16);
        assert(property_record(q) =~= head + (text::utf8(q.0) + value_record(q.1)));
        wire::lemma_holds_split(d, pos, head, text::utf8(q.0) + value_record(q.1));
        wire::lemma_holds_split(d, pos + 2, text::utf8(q.0), value_record(q.1));
        text::lemma_text_of_utf8(q.0);
        lemma_value_round_trip(d, pos + 2 + text::utf8(q.0).len(), q.1);
        assert(p.take(k as int) =~= p.take(j).push(q));
    }
}

/// Reading the record of a row of properties gives the map that they spell.
pub proof fn lemma_properties_round_trip(p: Seq<Property>)
    requires
        properties_fault(p) is None,
    ensures
        decoded_properties(properties_record(p)) == Ok::<
            Map<Seq<char>, ValueView>,
            GenerationError,
        >(property_map(p)),
{
    broadcast use wire::group_wire;

    let d = properties_record(p);
    wire::lemma_holds_all(d);
    wire::lemma_holds_split(d, 0, wire::put32(p.len() as u32), wire::flat(p, property_records()));
    lemma_properties_read(d, p, p.len());
    assert(p.take(p.len() as int) =~= p);
}

/// The properties of a map spell the map.
pub proof fn lemma_properties_spell(keys: Seq<Seq<char>>, vals: Seq<Value>)
    requires
        text::texts_ascend(keys),
        keys.len() == vals.len(),
    ensures
        property_map(Seq::new(keys.len(), |i: int| (keys[i], vals[i]@))) == value_views(
            text::text_map_of(keys, vals),
        ),
    decreases keys.len(),
{
    let p = Seq::new(keys.len(), |i: int| (keys[i], vals[i]@));
    let m = text::text_map_of(keys, vals);
    if keys.len() == 0 {
        assert(property_map(p) =~= value_views(m));
    } else {
        let k0 = keys.drop_last();
        let v0 = vals.drop_last();
        lemma_properties_spell(k0, v0);
        assert(p.drop_last() =~= Seq::new(k0.len(), |i: int| (k0[i], v0[i]@)));
        let m0 = text::text_map_of(k0, v0);
        let last = keys.len() - 1;
        assert forall|k: Seq<char>| #[trigger] keys.contains(k) implies if k == keys[last] {
            keys.index_of(k) == last
        } else {
            k0.contains(k) && keys.index_of(k) == k0.index_of(k)
        } by {
            let i = keys.index_of(k);
            assert(keys[i] == k);
            if k == keys[last] {
                text::lemma_ascending_distinct(keys, i, last);
            } else {
                assert(k0[i] == k);
                assert(k0.contains(k));
                let j = k0.index_of(k);
                assert(k0[j] == k);
                text::lemma_ascending_distinct(keys, i, j);
            }
        }
        assert forall|k: Seq<char>| #[trigger] k0.contains(k) implies keys.contains(k) && k
            != keys[last] by {
            let i = k0.index_of(k);
            assert(k0[i] == k);
            assert(keys[i] == k);
            if k == keys[last] {
                text::lemma_ascending_distinct(keys, i, last);
            }
        }
        assert(keys.contains(keys[last]));
        assert(value_views(m) =~= value_views(m0).insert(keys[last], vals[last]@));
    }
}

// ---------------------------------------------------------------- labels

/// The record of one label.
pub open spec fn label_record() -> spec_fn(Seq<char>) -> Seq<u8> {
    |l: Seq<char>| wire::put16(text::utf8(l).len() as u16) + text::utf8(l)
}

/// The record of a row of labels.
pub open spec fn labels_record(labels: Seq<Seq<char>>) -> Seq<u8> {
    wire::put16(labels.len() as u16) + wire::flat(labels, label_record())
}

/// Why a label has no record: its length does not fit.
pub open spec fn label_fault(label: Seq<char>) -> Option<GenerationError> {
    if text::utf8(label).len() > 0xffff {
        Some(GenerationError::Codec(CodecError::LabelLength(text::utf8(label).len() as usize)))
    } else {
        None
    }
}

/// The checks on the lengths of labels, one by one.
pub open spec fn label_checks(labels: Seq<Seq<char>>) -> spec_fn(int) -> Option<GenerationError> {
    |i: int| label_fault(labels[i])
}

/// Why a row of labels has no record.
pub open spec fn labels_fault(labels: Seq<Seq<char>>) -> Option<GenerationError> {
    if labels.len() > 0xffff {
        Some(GenerationError::Codec(CodecError::LabelCount(labels.len() as usize)))
    } else {
        faults::first_fault(labels.len(), label_checks(labels))
    }
}

/// Serializes a row of labels.
pub fn encode_labels(labels: &[String]) -> (r: Result<Vec<u8>, GenerationError>)
    ensures
        match r {
            Ok(b) => labels_fault(text::texts(labels@)) is None && b@ == labels_record(text::texts(labels@)),
            Err(e) => labels_fault(text::texts(labels@)) == Some(e),
        },
{
    let n: usize = labels.len();
    let ghost p = text::texts(labels@);
    let ghost f = label_record();
    assert(n == p.len());
    if n > 0xffff {
        return Err(GenerationError::Codec(CodecError::LabelCount(n)));
    }
    let mut out: Vec<u8> = Vec::new();
    push_u16(&mut out, n as u16);
    let ghost head = out@;
    assert(head =~= wire::put16(n as u16));
    assert(head + wire::flat(p.take(0), f) =~= head);
    let mut i: usize = 0;
    while i < n
        invariant
            i <= n,
            n == p.len(),
            n <= 0xffff,
            p == text::texts(labels@),
            f == label_record(),
            head == wire::put16(n as u16),
            out@ == head + wire::flat(p.take(i as int), f),
            faults::first_fault(i as nat, label_checks(p)) is None,
        decreases n - i,
    {
        let ghost before = out@;
        let b: &[u8] = labels[i].as_str().as_bytes();
        assert(b@.len() == b.len());
        assert(b@ == text::utf8(p[i as int]));
        if b.len() > 0xffff {
            proof {
                assert(label_checks(p)(i as int) == label_fault(p[i as int]));
                faults::lemma_first_fault_stays((i + 1) as nat, n as nat, label_checks(p));
            }
            return Err(GenerationError::Codec(CodecError::LabelLength(b.len())));
        }
        push_u16(&mut out, b.len() as u16);
        push_bytes(&mut out, b);
        proof {
            assert(label_checks(p)(i as int) is None);
            wire::lemma_flat_push(p.take(i as int), p[i as int], f);
            assert(p.take(i as int + 1) =~= p.take(i as int).push(p[i as int]));
            assert(out@ =~= before + f(p[i as int]));
        }
        i = i + 1;
        assert(out@ =~= head + wire::flat(p.take(i as int), f));
    }
    assert(p.take(n as int) =~= p);
    Ok(out)
}

/// The label whose record stands at `pos`, and where the record ends.
pub open spec fn label_at(d: Seq<u8>, pos: int) -> Result<(Seq<char>, int), GenerationError> {
    if pos + 2 > d.len() {
        Err(GenerationError::Codec(CodecError::Truncated))
    } else {
        let n = wire::u16_at(d, pos) as int;
        if pos + 2 + n > d.len() {
            Err(GenerationError::Codec(CodecError::Truncated))
        } else {
            let b = d.subrange(pos + 2, pos + 2 + n);
            if valid_utf8(b) {
                Ok((text::text_of(b), pos + 2 + n))
            } else {
                Err(GenerationError::Codec(CodecError::InvalidText))
            }
        }
    }
}

/// The first `k` labels of a record, and where the last of them ends.
pub open spec fn labels_after(d: Seq<u8>, k: nat) -> Result<(Seq<Seq<char>>, int), GenerationError>
    decreases k,
{
    if k == 0 {
        Ok((Seq::empty(), 2))
    } else {
        match labels_after(d, (k - 1) as nat) {
            Err(e) => Err(e),
            Ok(s) => match label_at(d, s.1) {
                Err(e) => Err(e),
                Ok(p) => Ok((s.0.push(p.0), p.1)),
            },
        }
    }
}

/// The labels that a record holds.
pub open spec fn decoded_labels(d: Seq<u8>) -> Result<Seq<Seq<char>>, GenerationError> {
    if d.len() < 2 {
        Err(GenerationError::Codec(CodecError::Truncated))
    } else {
        match labels_after(d, wire::u16_at(d, 0) as nat) {
            Ok(s) => Ok(s.0),
            Err(e) => Err(e),
        }
    }
}

proof fn lemma_labels_fail(d: Seq<u8>, i: nat, n: nat)
    requires
        i <= n,
        labels_after(d, i) is Err,
    ensures
        labels_after(d, n) == labels_after(d, i),
    decreases n,
{
    if i < n {
        lemma_labels_fail(d, i, (n - 1) as nat);
    }
}

/// The text that stands at `pos` behind its `u16` length, and where it ends.
fn read_text16(d: &[u8], pos: usize) -> (r: Result<(&str, usize), GenerationError>)
    requires
        pos <= d@.len(),
    ensures
        match r {
            Ok(p) => label_at(d@, pos as int) == Ok::<(Seq<char>, int), GenerationError>(
                (p.0@, p.1 as int),
            ) && p.1 <= d@.len() && text::utf8(p.0@) == d@.subrange(pos + 2, p.1 as int),
            Err(e) => label_at(d@, pos as int) == Err::<(Seq<char>, int), GenerationError>(e),
        },
{
    let n: usize = d.len();
    assert(n == d@.len());
    if n - pos < 2 {
        return Err(truncated());
    }
    let len: usize = load_u16(d, pos) as usize;
    if n - pos - 2 < len {
        return Err(truncated());
    }
    let b: &[u8] = slice_subrange(d, pos + 2, pos + 2 + len);
    match decode_text(b) {
        Some(s) => Ok((s, pos + 2 + len)),
        None => Err(GenerationError::Codec(CodecError::InvalidText)),
    }
}

/// Reads a row of labels back.
pub fn decode_labels(bytes: &[u8]) -> (r: Result<Vec<String>, GenerationError>)
    ensures
        match r {
            Ok(v) => decoded_labels(bytes@) == Ok::<Seq<Seq<char>>, GenerationError>(text::texts(v@)),
            Err(e) => decoded_labels(bytes@) == Err::<Seq<Seq<char>>, GenerationError>(e),
        },
{
    let n: usize = bytes.len();
    assert(n == bytes@.len());
    if n < 2 {
        return Err(truncated());
    }
    let count: u16 = load_u16(bytes, 0);
    let mut out: Vec<String> = Vec::new();
    let mut pos: usize = 2;
    let mut i: u16 = 0;
    assert(text::texts(out@) =~= Seq::empty());
    while i < count
        invariant
            i <= count,
            n == bytes@.len(),
            2 <= pos <= n,
            count == wire::u16_at(bytes@, 0),
            labels_after(bytes@, i as nat) == Ok::<(Seq<Seq<char>>, int), GenerationError>(
                (text::texts(out@), pos as int),
            ),
        decreases count - i,
    {
        let ghost before = text::texts(out@);
        proof {
            if labels_after(bytes@, (i + 1) as nat) is Err {
                lemma_labels_fail(bytes@, (i + 1) as nat, count as nat);
            }
        }
        let (s, next) = match read_text16(bytes, pos) {
            Ok(p) => p,
            Err(e) => return Err(e),
        };
        out.push(own(s));
        pos = next;
        i = i + 1;
        assert(text::texts(out@) =~= before.push(s@));
    }
    Ok(out)
}

proof fn lemma_label_holds(labels: Seq<Seq<char>>, k: int)
    requires
        0 <= k < labels.len(),
    ensures
        wire::holds_at(
            labels_record(labels),
            2 + wire::flat(labels.take(k), label_record()).len() as int,
            label_record()(labels[k]),
        ),
        wire::flat(labels.take(k + 1), label_record()).len() == wire::flat(
            labels.take(k),
            label_record(),
        ).len() + label_record()(labels[k]).len(),
{
    broadcast use wire::group_wire;

    let d = labels_record(labels);
    let f = label_record();
    let a = labels.take(k);
    let b = labels.skip(k + 1);
    assert(labels.take(k + 1) =~= a.push(labels[k]));
    assert(a.push(labels[k]) + b =~= labels);
    wire::lemma_flat_add(a.push(labels[k]), b, f);
    wire::lemma_flat_push(a, labels[k], f);
    let head = wire::put16(labels.len() as u16);
    let rest = wire::flat(a, f) + (f(labels[k]) + wire::flat(b, f));
    assert(d =~= head + rest);
    wire::lemma_holds_all(d);
    wire::lemma_holds_split(d, 0, head, rest);
    wire::lemma_holds_split(d, 2, wire::flat(a, f), f(labels[k]) + wire::flat(b, f));
    wire::lemma_holds_split(d, 2 + wire::flat(a, f).len() as int, f(labels[k]), wire::flat(b, f));
}

proof fn lemma_label_read(d: Seq<u8>, pos: int, q: Seq<char>)
    requires
        wire::holds_at(d, pos, label_record()(q)),
        text::utf8(q).len() <= 0xffff,
    ensures
        label_at(d, pos) == Ok::<(Seq<char>, int), GenerationError>(
            (q, pos + label_record()(q).len()),
        ),
{
    broadcast use wire::group_wire;

    let len = wire::put16(text::utf8(q).len() as u16);
    wire::lemma_holds_split(d, pos, len, text::utf8(q));
    text::lemma_text_of_utf8(q);
}

/// Reading the first labels of a record gives those that were encoded.
pub proof fn lemma_labels_read(d: Seq<u8>, labels: Seq<Seq<char>>, k: nat)
    requires
        wire::holds_at(d, 0, labels_record(labels)),
        labels_fault(labels) is None,
        k <= labels.len(),
    ensures
        labels_after(d, k) == Ok::<(Seq<Seq<char>>, int), GenerationError>(
            (labels.take(k as int), 2 + wire::flat(labels.take(k as int), label_record()).len() as int),
        ),
    decreases k,
{
    if k == 0 {
        assert(labels.take(0) =~= Seq::empty());
    } else {
        let j = k - 1;
        let rec = labels_record(labels);
        lemma_labels_read(d, labels, j as nat);
        faults::lemma_no_fault(labels.len(), label_checks(labels));
        assert(label_checks(labels)(j) is None);
        lemma_label_holds(labels, j);
        let pos = 2 + wire::flat(labels.take(j), label_record()).len() as int;
        wire::lemma_holds_within(d, 0, rec, pos, pos + label_record()(labels[j]).len());
        lemma_label_read(d, pos, labels[j]);
        assert(labels.take(k as int) =~= labels.take(j).push(labels[j]));
    }
}

/// Bytes that begin with the record of a row of labels hold the labels.
pub proof fn lemma_labels_lead(d: Seq<u8>, labels: Seq<Seq<char>>)
    requires
        wire::holds_at(d, 0, labels_record(labels)),
        labels_fault(labels) is None,
    ensures
        decoded_labels(d) == Ok::<Seq<Seq<char>>, GenerationError>(labels),
{
    broadcast use wire::group_wire;

    wire::lemma_holds_split(d, 0, wire::put16(labels.len() as u16), wire::flat(labels, label_record()));
    lemma_labels_read(d, labels, labels.len());
    assert(labels.take(labels.len() as int) =~= labels);
}

/// Reading the record of a row of labels gives the labels back.
pub proof fn lemma_labels_round_trip(labels: Seq<Seq<char>>)
    requires
        labels_fault(labels) is None,
    ensures
        decoded_labels(labels_record(labels)) == Ok::<Seq<Seq<char>>, GenerationError>(labels),
{
    wire::lemma_holds_all(labels_record(labels));
    lemma_labels_lead(labels_record(labels), labels);
}

// ------------------------------------------------------------------ keys

/// Why an edge type does not fit a row key.
pub open spec fn type_fault(edge_type: Seq<char>) -> Option<GenerationError> {
    if text::utf8(edge_type).len() > 0xffff {
        Some(GenerationError::Codec(CodecError::EdgeTypeLength(text::utf8(edge_type).len() as usize)))
    } else {
        None
    }
}

/// Refuses a label that does not fit a row key.
pub fn check_label(label: &str) -> (r: Result<(), GenerationError>)
    ensures
        match r {
            Ok(_) => label_fault(label@) is None,
            Err(e) => label_fault(label@) == Some(e),
        },
{
    let len: usize = label.as_bytes().len();
    assert(len == text::utf8(label@).len());
    if len > 0xffff {
        return Err(GenerationError::Codec(CodecError::LabelLength(len)));
    }
    Ok(())
}

/// Refuses an edge type that does not fit a row key.
pub fn check_edge_type(edge_type: &str) -> (r: Result<(), GenerationError>)
    ensures
        match r {
            Ok(_) => type_fault(edge_type@) is None,
            Err(e) => type_fault(edge_type@) == Some(e),
        },
{
    let len: usize = edge_type.as_bytes().len();
    assert(len == text::utf8(edge_type@).len());
    if len > 0xffff {
        return Err(GenerationError::Codec(CodecError::EdgeTypeLength(len)));
    }
    Ok(())
}

/// The sort key of a row: its text behind the low 16 bits of its length, then
/// its original id.
pub open spec fn row_key(text: Seq<char>, id: u64) -> Seq<u8> {
    wire::put16((text::utf8(text).len() % 0x1_0000) as u16) + text::utf8(text) + wire::put64_be(id)
}

/// The text and the original id of a row key.
pub open spec fn split_row_key(d: Seq<u8>) -> Result<(Seq<char>, u64), GenerationError> {
    match label_at(d, 0) {
        Err(e) => Err(e),
        Ok(p) => if p.1 + 8 > d.len() {
            Err(GenerationError::Codec(CodecError::Truncated))
        } else {
            Ok((p.0, wire::u64_be_at(d, p.1)))
        },
    }
}

fn text_row_key(text: &str, original_id: u64) -> (r: Vec<u8>)
    ensures
        r@ == row_key(text@, original_id),
{
    let b: &[u8] = text.as_bytes();
    assert(b@.len() == b.len());
    let mut key: Vec<u8> = Vec::new();
    push_u16(&mut key, (b.len() % 0x1_0000) as u16);
    push_bytes(&mut key, b);
    push_u64_be(&mut key, original_id);
    assert(key@ =~= row_key(text@, original_id));
    key
}

fn split_text_row_key(key: &[u8]) -> (r: Result<(&str, u64), GenerationError>)
    ensures
        match r {
            Ok(p) => split_row_key(key@) == Ok::<(Seq<char>, u64), GenerationError>((p.0@, p.1)),
            Err(e) => split_row_key(key@) == Err::<(Seq<char>, u64), GenerationError>(e),
        },
{
    match read_text16(key, 0) {
        Err(e) => Err(e),
        Ok((s, pos)) => {
            if key.len() - pos < 8 {
                return Err(truncated());
            }
            Ok((s, load_u64_be(key, pos)))
        },
    }
}

/// The sort key of a node row: rows of one label sort by original id.
pub fn node_row_key(label: &str, original_id: u64) -> (r: Vec<u8>)
    ensures
        r@ == row_key(label@, original_id),
{
    text_row_key(label, original_id)
}

/// The label and the original id of a node-row key.
pub fn split_node_row_key(key: &[u8]) -> (r: Result<(&str, u64), GenerationError>)
    ensures
        match r {
            Ok(p) => split_row_key(key@) == Ok::<(Seq<char>, u64), GenerationError>((p.0@, p.1)),
            Err(e) => split_row_key(key@) == Err::<(Seq<char>, u64), GenerationError>(e),
        },
{
    split_text_row_key(key)
}

/// The sort key of an edge row: rows of one type sort by original id.
pub fn edge_row_key(edge_type: &str, original_id: u64) -> (r: Vec<u8>)
    ensures
        r@ == row_key(edge_type@, original_id),
{
    text_row_key(edge_type, original_id)
}

/// The edge type and the original id of an edge-row key.
pub fn split_edge_row_key(key: &[u8]) -> (r: Result<(&str, u64), GenerationError>)
    ensures
        match r {
            Ok(p) => split_row_key(key@) == Ok::<(Seq<char>, u64), GenerationError>((p.0@, p.1)),
            Err(e) => split_row_key(key@) == Err::<(Seq<char>, u64), GenerationError>(e),
        },
{
    split_text_row_key(key)
}

/// Splitting a row key gives the text and the id back.
pub proof fn lemma_row_key_round_trip(text: Seq<char>, id: u64)
    requires
        text::utf8(text).len() <= 0xffff,
    ensures
        split_row_key(row_key(text, id)) == Ok::<(Seq<char>, u64), GenerationError>((text, id)),
{
    broadcast use wire::group_wire;

    let d = row_key(text, id);
    let head = wire::put16(text::utf8(text).len() as u16);
    assert(d =~= head + (text::utf8(text) + wire::put64_be(id)));
    wire::lemma_holds_all(d);
    wire::lemma_holds_split(d, 0, head, text::utf8(text) + wire::put64_be(id));
    wire::lemma_holds_split(d, 2, text::utf8(text), wire::put64_be(id));
    text::lemma_text_of_utf8(text);
}

/// Rows of one label or type sort by their original ids.
pub proof fn lemma_row_key_order(text: Seq<char>, a: u64, b: u64)
    ensures
        wire::lex_lt(row_key(text, a), row_key(text, b)) == (a < b),
{
    let head = wire::put16((text::utf8(text).len() % 0x1_0000) as u16) + text::utf8(text);
    wire::lemma_lex_common_prefix(head, wire::put64_be(a), wire::put64_be(b));
    wire::lemma_be64_order(a, b);
}

/// The payload of an edge row.
pub open spec fn edge_payload(src: u64, dst: u64, props: Seq<u8>) -> Seq<u8> {
    wire::put64_be(src) + wire::put64_be(dst) + props
}

/// The endpoints and the properties of an edge-row payload.
pub open spec fn split_edge_payload(d: Seq<u8>) -> Result<(u64, u64, Seq<u8>), GenerationError> {
    if d.len() < 16 {
        Err(GenerationError::Codec(CodecError::Truncated))
    } else {
        Ok((wire::u64_be_at(d, 0), wire::u64_be_at(d, 8), d.skip(16)))
    }
}

/// Builds an edge-row payload.
pub fn edge_row_payload(src: u64, dst: u64, props_bytes: &[u8]) -> (r: Vec<u8>)
    ensures
        r@ == edge_payload(src, dst, props_bytes@),
{
    let mut p: Vec<u8> = Vec::new();
    push_u64_be(&mut p, src);
    push_u64_be(&mut p, dst);
    push_bytes(&mut p, props_bytes);
    assert(p@ =~= edge_payload(src, dst, props_bytes@));
    p
}

/// Splits an edge-row payload.
pub fn split_edge_row_payload(payload: &[u8]) -> (r: Result<(u64, u64, &[u8]), GenerationError>)
    ensures
        match r {
            Ok(p) => split_edge_payload(payload@) == Ok::<(u64, u64, Seq<u8>), GenerationError>(
                (p.0, p.1, p.2@),
            ),
            Err(e) => split_edge_payload(payload@) == Err::<(u64, u64, Seq<u8>), GenerationError>(
                e,
            ),
        },
{
    let n: usize = payload.len();
    assert(n == payload@.len());
    if n < 16 {
        return Err(truncated());
    }
    let rest: &[u8] = slice_subrange(payload, 16, n);
    assert(rest@ =~= payload@.skip(16));
    Ok((load_u64_be(payload, 0), load_u64_be(payload, 8), rest))
}

/// Splitting an edge-row payload gives its parts back.
pub proof fn lemma_edge_payload_round_trip(src: u64, dst: u64, props: Seq<u8>)
    ensures
        split_edge_payload(edge_payload(src, dst, props)) == Ok::<
            (u64, u64, Seq<u8>),
            GenerationError,
        >((src, dst, props)),
{
    broadcast use wire::group_wire;

    let d = edge_payload(src, dst, props);
    assert(d.subrange(0, 8) =~= wire::put64_be(src));
    assert(d.subrange(8, 16) =~= wire::put64_be(dst));
    assert(d.skip(16) =~= props);
}

/// The sort key of a forward adjacency.
pub open spec fn fwd_key(rel: u16, src: u32, dst: u32, edge: u64) -> Seq<u8> {
    wire::put16_be(rel) + (wire::put32_be(src) + (wire::put32_be(dst) + wire::put64_be(edge)))
}

/// The parts of a forward-adjacency key.
pub open spec fn split_fwd(d: Seq<u8>) -> Result<(u16, u32, u32, u64), GenerationError> {
    if d.len() < 18 {
        Err(GenerationError::Codec(CodecError::Truncated))
    } else {
        Ok((wire::u16_be_at(d, 0), wire::u32_be_at(d, 2), wire::u32_be_at(d, 6), wire::u64_be_at(d, 10)))
    }
}

/// Builds a forward-adjacency sort key.
pub fn fwd_csr_key(rel_table_id: u16, src_off: u32, dst_off: u32, original_edge_id: u64) -> (r: Vec<
    u8,
>)
    ensures
        r@ == fwd_key(rel_table_id, src_off, dst_off, original_edge_id),
{
    let mut key: Vec<u8> = Vec::new();
    push_u16_be(&mut key, rel_table_id);
    push_u32_be(&mut key, src_off);
    push_u32_be(&mut key, dst_off);
    push_u64_be(&mut key, original_edge_id);
    assert(key@ =~= fwd_key(rel_table_id, src_off, dst_off, original_edge_id));
    key
}

/// Splits a forward-adjacency key.
pub fn split_fwd_csr_key(key: &[u8]) -> (r: Result<(u16, u32, u32, u64), GenerationError>)
    ensures
        r == split_fwd(key@),
{
    assert(key@.len() == key.len());
    if key.len() < 18 {
        return Err(truncated());
    }
    Ok((load_u16_be(key, 0), load_u32_be(key, 2), load_u32_be(key, 6), load_u64_be(key, 10)))
}

/// Splitting a forward-adjacency key gives its parts back.
pub proof fn lemma_fwd_key_round_trip(rel: u16, src: u32, dst: u32, edge: u64)
    ensures
        split_fwd(fwd_key(rel, src, dst, edge)) == Ok::<(u16, u32, u32, u64), GenerationError>(
            (rel, src, dst, edge),
        ),
{
    broadcast use wire::group_wire;

    let d = fwd_key(rel, src, dst, edge);
    assert(d.subrange(0, 2) =~= wire::put16_be(rel));
    assert(d.subrange(2, 6) =~= wire::put32_be(src));
    assert(d.subrange(6, 10) =~= wire::put32_be(dst));
    assert(d.subrange(10, 18) =~= wire::put64_be(edge));
}

/// Forward-adjacency keys sort by table, then source, then destination, then
/// edge.
pub proof fn lemma_fwd_key_order(a: (u16, u32, u32, u64), b: (u16, u32, u32, u64))
    ensures
        wire::lex_lt(fwd_key(a.0, a.1, a.2, a.3), fwd_key(b.0, b.1, b.2, b.3)) == (a.0 < b.0 || (a.0
            == b.0 && (a.1 < b.1 || (a.1 == b.1 && (a.2 < b.2 || (a.2 == b.2 && a.3 < b.3)))))),
{
    broadcast use wire::group_wire;

    let a3 = wire::put64_be(a.3);
    let b3 = wire::put64_be(b.3);
    let a2 = wire::put32_be(a.2);
    let b2 = wire::put32_be(b.2);
    let a1 = wire::put32_be(a.1);
    let b1 = wire::put32_be(b.1);
    let a0 = wire::put16_be(a.0);
    let b0 = wire::put16_be(b.0);
    wire::lemma_lex_heads(a0, b0, a1 + (a2 + a3), b1 + (b2 + b3));
    wire::lemma_lex_heads(a1, b1, a2 + a3, b2 + b3);
    wire::lemma_lex_heads(a2, b2, a3, b3);
    wire::lemma_be16_order(a.0, b.0);
    wire::lemma_be32_order(a.1, b.1);
    wire::lemma_be32_order(a.2, b.2);
    wire::lemma_be64_order(a.3, b.3);
    assert(wire::get16_be(a0) == a.0 && wire::get16_be(b0) == b.0);
    assert(wire::get32_be(a1) == a.1 && wire::get32_be(b1) == b.1);
    assert(wire::get32_be(a2) == a.2 && wire::get32_be(b2) == b.2);
}

/// The sort key of a reverse adjacency.
pub open spec fn rev_key(rel: u16, dst: u32, src: u32, pos: u32) -> Seq<u8> {
    wire::put16_be(rel) + (wire::put32_be(dst) + (wire::put32_be(src) + wire::put32_be(pos)))
}

/// The parts of a reverse-adjacency key.
pub open spec fn split_rev(d: Seq<u8>) -> Result<(u16, u32, u32, u32), GenerationError> {
    if d.len() < 14 {
        Err(GenerationError::Codec(CodecError::Truncated))
    } else {
        Ok((wire::u16_be_at(d, 0), wire::u32_be_at(d, 2), wire::u32_be_at(d, 6), wire::u32_be_at(d, 10)))
    }
}

/// Builds a reverse-adjacency sort key.
pub fn rev_csr_key(rel_table_id: u16, dst_off: u32, src_off: u32, forward_pos: u32) -> (r: Vec<u8>)
    ensures
        r@ == rev_key(rel_table_id, dst_off, src_off, forward_pos),
{
    let mut key: Vec<u8> = Vec::new();
    push_u16_be(&mut key, rel_table_id);
    push_u32_be(&mut key, dst_off);
    push_u32_be(&mut key, src_off);
    push_u32_be(&mut key, forward_pos);
    assert(key@ =~= rev_key(rel_table_id, dst_off, src_off, forward_pos));
    key
}

/// Splits a reverse-adjacency key.
pub fn split_rev_csr_key(key: &[u8]) -> (r: Result<(u16, u32, u32, u32), GenerationError>)
    ensures
        r == split_rev(key@),
{
    assert(key@.len() == key.len());
    if key.len() < 14 {
        return Err(truncated());
    }
    Ok((load_u16_be(key, 0), load_u32_be(key, 2), load_u32_be(key, 6), load_u32_be(key, 10)))
}

/// Splitting a reverse-adjacency key gives its parts back.
pub proof fn lemma_rev_key_round_trip(rel: u16, dst: u32, src: u32, pos: u32)
    ensures
        split_rev(rev_key(rel, dst, src, pos)) == Ok::<(u16, u32, u32, u32), GenerationError>(
            (rel, dst, src, pos),
        ),
{
    broadcast use wire::group_wire;

    let d = rev_key(rel, dst, src, pos);
    assert(d.subrange(0, 2) =~= wire::put16_be(rel));
    assert(d.subrange(2, 6) =~= wire::put32_be(dst));
    assert(d.subrange(6, 10) =~= wire::put32_be(src));
    assert(d.subrange(10, 14) =~= wire::put32_be(pos));
}

/// Reverse-adjacency keys sort by table, then destination, then source, then
/// forward position.
pub proof fn lemma_rev_key_order(a: (u16, u32, u32, u32), b: (u16, u32, u32, u32))
    ensures
        wire::lex_lt(rev_key(a.0, a.1, a.2, a.3), rev_key(b.0, b.1, b.2, b.3)) == (a.0 < b.0 || (a.0
            == b.0 && (a.1 < b.1 || (a.1 == b.1 && (a.2 < b.2 || (a.2 == b.2 && a.3 < b.3)))))),
{
    broadcast use wire::group_wire;

    let a3 = wire::put32_be(a.3);
    let b3 = wire::put32_be(b.3);
    let a2 = wire::put32_be(a.2);
    let b2 = wire::put32_be(b.2);
    let a1 = wire::put32_be(a.1);
    let b1 = wire::put32_be(b.1);
    let a0 = wire::put16_be(a.0);
    let b0 = wire::put16_be(b.0);
    wire::lemma_lex_heads(a0, b0, a1 + (a2 + a3), b1 + (b2 + b3));
    wire::lemma_lex_heads(a1, b1, a2 + a3, b2 + b3);
    wire::lemma_lex_heads(a2, b2, a3, b3);
    wire::lemma_be16_order(a.0, b.0);
    wire::lemma_be32_order(a.1, b.1);
    wire::lemma_be32_order(a.2, b.2);
    wire::lemma_be32_order(a.3, b.3);
    assert(wire::get16_be(a0) == a.0 && wire::get16_be(b0) == b.0);
    assert(wire::get32_be(a1) == a.1 && wire::get32_be(b1) == b.1);
    assert(wire::get32_be(a2) == a.2 && wire::get32_be(b2) == b.2);
}

/// Builds an ID-map key; it sorts by original id.
pub fn idmap_key(original_id: u64) -> (r: Vec<u8>)
    ensures
        r@ == wire::put64_be(original_id),
{
    let mut key: Vec<u8> = Vec::new();
    push_u64_be(&mut key, original_id);
    assert(key@ =~= wire::put64_be(original_id));
    key
}

/// The payload of an ID-map record.
pub open spec fn id_payload(table_id: u16, position: u64) -> Seq<u8> {
    wire::put16(table_id) + wire::put64(position)
}

/// The parts of an ID-map payload.
pub open spec fn split_id_payload(d: Seq<u8>) -> Result<(u16, u64), GenerationError> {
    if d.len() < 10 {
        Err(GenerationError::Codec(CodecError::Truncated))
    } else {
        Ok((wire::u16_at(d, 0), wire::u64_at(d, 2)))
    }
}

/// Builds an ID-map payload.
pub fn idmap_payload(table_id: u16, position: u64) -> (r: Vec<u8>)
    ensures
        r@ == id_payload(table_id, position),
{
    let mut p: Vec<u8> = Vec::new();
    push_u16(&mut p, table_id);
    push_u64(&mut p, position);
    assert(p@ =~= id_payload(table_id, position));
    p
}

/// Splits an ID-map payload.
pub fn split_idmap_payload(payload: &[u8]) -> (r: Result<(u16, u64), GenerationError>)
    ensures
        r == split_id_payload(payload@),
{
    assert(payload@.len() == payload.len());
    if payload.len() < 10 {
        return Err(truncated());
    }
    Ok((load_u16(payload, 0), load_u64(payload, 2)))
}

/// Splitting an ID-map payload gives its parts back.
pub proof fn lemma_id_payload_round_trip(table_id: u16, position: u64)
    ensures
        split_id_payload(id_payload(table_id, position)) == Ok::<(u16, u64), GenerationError>(
            (table_id, position),
        ),
{
    broadcast use wire::group_wire;

    let d = id_payload(table_id, position);
    assert(d.subrange(0, 2) =~= wire::put16(table_id));
    assert(d.subrange(2, 10) =~= wire::put64(position));
}

/// A decoded node row.
#[derive(Debug)]
pub struct StagedNode {
    /// Table of the node.
    pub table_id: u16,
    /// Dense row offset within the table.
    pub offset: u64,
    /// Original node id.
    pub original_id: u64,
    /// Properties.
    pub properties: TextMap<Value>,
}

/// A decoded edge row with dense endpoints.
#[derive(Debug)]
pub struct StagedEdge {
    /// Relationship table of the edge.
    pub rel_table_id: u16,
    /// Original edge id.
    pub original_id: u64,
    /// Dense source offset.
    pub src_off: u32,
    /// Dense destination offset.
    pub dst_off: u32,
    /// Properties.
    pub properties: TextMap<Value>,
}

} // verus!
