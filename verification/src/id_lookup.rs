//! Sorted ID lookup segments: `id -> (table, position)` for nodes and edges.
//!
//! A record is the id (`u64`), the table (`u16`), six reserved zero bytes and
//! the position (`u64`), little-endian, 24 bytes; ids do not descend.

use crate::faults;
use crate::outside::bytes_as_slice;
use crate::outside;
use crate::types::{EdgeId, NodeId};
use crate::views::U64View;
use crate::views;
use crate::wire::{load_u16, load_u32, load_u64, push_u16, push_u32, push_u64};
use crate::wire;
use crate::directory::SegmentKind;
use crate::error::FormatError;
use bytes::Bytes;
use vstd::prelude::*;

verus! {

broadcast use wire::group_wire;

/// One lookup record: id, table, position.
pub type LookupEntry = (u64, u16, u64);

/// The bytes of one record.
pub open spec fn lookup_record(e: LookupEntry) -> Seq<u8> {
    wire::put64(e.0) + wire::put16(e.1) + wire::put16(0) + wire::put32(0) + wire::put64(e.2)
}

/// The bytes of a row of records.
pub open spec fn lookup_records(v: Seq<LookupEntry>) -> Seq<u8> {
    wire::flat(v, |e: LookupEntry| lookup_record(e))
}

/// Record `i` of some bytes.
pub open spec fn lookup_entry_at(d: Seq<u8>, i: int) -> LookupEntry {
    (wire::u64_at(d, i * 24), wire::u16_at(d, i * 24 + 8), wire::u64_at(d, i * 24 + 16))
}

/// The records that some bytes hold.
pub open spec fn lookup_entries_of(d: Seq<u8>) -> Seq<LookupEntry> {
    Seq::new(d.len() / 24, |i: int| lookup_entry_at(d, i))
}

/// Ids do not descend.
pub open spec fn lookup_sorted(v: Seq<LookupEntry>) -> bool {
    forall|i: int, j: int| 0 <= i < j < v.len() ==> #[trigger] v[i].0 <= #[trigger] v[j].0
}

/// Some record of `v` has the id.
pub open spec fn lookup_has(v: Seq<LookupEntry>, id: u64) -> bool {
    exists|i: int| 0 <= i < v.len() && (#[trigger] v[i]).0 == id
}

/// Reserved fields of record `i` are not zero.
pub open spec fn reserved_fault(d: Seq<u8>, kind: SegmentKind, i: int) -> Option<FormatError> {
    if wire::u16_at(d, i * 24 + 10) != 0 || wire::u32_at(d, i * 24 + 12) != 0 {
        Some(FormatError::LookupReserved { kind, record: i as usize })
    } else {
        None
    }
}

/// Record `i + 1` has a smaller id than record `i`.
pub open spec fn lookup_order_fault(d: Seq<u8>, kind: SegmentKind, i: int) -> Option<FormatError> {
    if lookup_entry_at(d, i + 1).0 < lookup_entry_at(d, i).0 {
        Some(FormatError::LookupOrder(kind))
    } else {
        None
    }
}

/// The reserved-field checks by record.
pub open spec fn reserved_checks(d: Seq<u8>, kind: SegmentKind) -> spec_fn(int) -> Option<
    FormatError,
> {
    |i: int| reserved_fault(d, kind, i)
}

/// The order checks by pair of neighbours.
pub open spec fn lookup_order_checks(d: Seq<u8>, kind: SegmentKind) -> spec_fn(int) -> Option<
    FormatError,
> {
    |i: int| lookup_order_fault(d, kind, i)
}

/// The first thing that is wrong with a lookup segment.
pub open spec fn lookup_fault(d: Seq<u8>, kind: SegmentKind) -> Option<FormatError> {
    let n = d.len() / 24;
    if d.len() % 24 != 0 {
        Some(FormatError::LookupLength { kind, found: d.len() as usize })
    } else if faults::first_fault(n, reserved_checks(d, kind)) is Some {
        faults::first_fault(n, reserved_checks(d, kind))
    } else if n == 0 {
        None
    } else {
        faults::first_fault((n - 1) as nat, lookup_order_checks(d, kind))
    }
}

proof fn lemma_sorted_from_neighbours(v: Seq<LookupEntry>)
    requires
        forall|i: int| 0 <= i < v.len() - 1 ==> (#[trigger] v[i]).0 <= v[i + 1].0,
    ensures
        lookup_sorted(v),
    decreases v.len(),
{
    if v.len() > 1 {
        let w = v.drop_last();
        lemma_sorted_from_neighbours(w);
        let n = w.len() - 1;
        assert(v[n].0 <= v[n + 1].0);
        assert forall|i: int, j: int| 0 <= i < j < v.len() implies #[trigger] v[i].0
            <= #[trigger] v[j].0 by {
            if j == n + 1 {
                if i < n {
                    assert(w[i].0 <= w[n].0);
                }
            } else {
                assert(w[i].0 <= w[j].0);
            }
        }
    }
}

/// Records read back as they were written, with their reserved fields zero.
pub proof fn lemma_lookup_records_round_trip(v: Seq<LookupEntry>)
    ensures
        lookup_records(v).len() == 24 * v.len(),
        lookup_entries_of(lookup_records(v)) == v,
        forall|i: int|
            0 <= i < v.len() ==> wire::u16_at(lookup_records(v), i * 24 + 10) == 0 && wire::u32_at(
                lookup_records(v),
                #[trigger] (i * 24) + 12,
            ) == 0,
{
    let f = |e: LookupEntry| lookup_record(e);
    let d = lookup_records(v);
    wire::lemma_flat_len(v, f, 24);
    assert forall|i: int| 0 <= i < v.len() implies lookup_entry_at(d, i) == v[i] && wire::u16_at(
        d,
        i * 24 + 10,
    ) == 0 && wire::u32_at(d, #[trigger] (i * 24) + 12) == 0 by {
        wire::lemma_flat_at(v, f, 24, i);
        let rec = lookup_record(v[i]);
        assert(d.subrange(i * 24, i * 24 + 8) =~= rec.subrange(0, 8));
        assert(d.subrange(i * 24 + 8, i * 24 + 10) =~= rec.subrange(8, 10));
        assert(d.subrange(i * 24 + 10, i * 24 + 12) =~= rec.subrange(10, 12));
        assert(d.subrange(i * 24 + 12, i * 24 + 16) =~= rec.subrange(12, 16));
        assert(d.subrange(i * 24 + 16, i * 24 + 24) =~= rec.subrange(16, 24));
        assert(rec.subrange(0, 8) =~= wire::put64(v[i].0));
        assert(rec.subrange(8, 10) =~= wire::put16(v[i].1));
        assert(rec.subrange(10, 12) =~= wire::put16(0));
        assert(rec.subrange(12, 16) =~= wire::put32(0));
        assert(rec.subrange(16, 24) =~= wire::put64(v[i].2));
    }
    assert(lookup_entries_of(d) =~= v);
}

/// The bytes of sorted records are a sound lookup segment.
pub proof fn lemma_sorted_lookup_is_sound(v: Seq<LookupEntry>, kind: SegmentKind)
    requires
        lookup_sorted(v),
    ensures
        lookup_fault(lookup_records(v), kind) is None,
{
    let d = lookup_records(v);
    lemma_lookup_records_round_trip(v);
    assert forall|i: int| 0 <= i < v.len() implies (#[trigger] reserved_checks(d, kind)(i)) is None by {
        assert(wire::u32_at(d, (i * 24) + 12) == 0);
    }
    faults::lemma_no_fault(v.len(), reserved_checks(d, kind));
    if v.len() > 0 {
        assert forall|i: int| 0 <= i < v.len() - 1 implies (#[trigger] lookup_order_checks(
            d,
            kind,
        )(i)) is None by {
            assert(lookup_entries_of(d)[i] == v[i]);
            assert(lookup_entries_of(d)[i + 1] == v[i + 1]);
        }
        faults::lemma_no_fault((v.len() - 1) as nat, lookup_order_checks(d, kind));
    }
}

/// Checks a lookup segment: whole records, zero reserved fields, order.
fn check_lookup(d: &[u8], kind: SegmentKind) -> (r: Result<usize, FormatError>)
    ensures
        r is Ok <==> lookup_fault(d@, kind) is None,
        r matches Ok(n) ==> d@.len() == 24 * n && lookup_sorted(lookup_entries_of(d@)),
        r matches Err(e) ==> lookup_fault(d@, kind) == Some(e),
{
    let n: usize = d.len();
    if n % 24 != 0 {
        return Err(FormatError::LookupLength { kind, found: n });
    }
    let count: usize = n / 24;
    let ghost rc = reserved_checks(d@, kind);
    let mut i: usize = 0;
    while i < count
        invariant
            i <= count,
            d@.len() == count * 24,
            rc == reserved_checks(d@, kind),
            faults::first_fault(i as nat, rc) is None,
            faults::first_fault(count as nat, rc) is Some ==> lookup_fault(d@, kind) == faults::first_fault(
                count as nat,
                rc,
            ),
            d@.len() <= usize::MAX,
        decreases count - i,
    {
        proof {
            assert(rc(i as int) == reserved_fault(d@, kind, i as int));
            if rc(i as int) is Some {
                faults::lemma_first_fault_stays((i + 1) as nat, count as nat, rc);
            }
        }
        let reserved_a: u16 = load_u16(d, i * 24 + 10);
        let reserved_b: u32 = load_u32(d, i * 24 + 12);
        if reserved_a != 0 || reserved_b != 0 {
            return Err(FormatError::LookupReserved { kind, record: i });
        }
        i = i + 1;
    }
    let ghost oc = lookup_order_checks(d@, kind);
    let ghost v = lookup_entries_of(d@);
    let mut k: usize = 1;
    while k < count
        invariant
            1 <= k,
            count > 0 ==> k <= count,
            d@.len() == count * 24,
            oc == lookup_order_checks(d@, kind),
            v == lookup_entries_of(d@),
            faults::first_fault((k - 1) as nat, oc) is None,
            count > 0 ==> lookup_fault(d@, kind) == faults::first_fault((count - 1) as nat, oc),
            forall|i: int| 0 <= i < k - 1 ==> (#[trigger] v[i]).0 <= v[i + 1].0,
            d@.len() <= usize::MAX,
        decreases count - k,
    {
        proof {
            assert(oc(k - 1) == lookup_order_fault(d@, kind, k - 1));
            if oc(k - 1) is Some {
                faults::lemma_first_fault_stays(k as nat, (count - 1) as nat, oc);
            }
        }
        let prev: u64 = load_u64(d, (k - 1) * 24);
        let cur: u64 = load_u64(d, k * 24);
        assert(v[k - 1].0 == prev && v[k as int].0 == cur);
        if cur < prev {
            return Err(FormatError::LookupOrder(kind));
        }
        k = k + 1;
    }
    proof {
        lemma_sorted_from_neighbours(v);
    }
    Ok(count)
}

/// Binary search in a checked lookup segment.
fn search_lookup(d: &[u8], len: usize, target: u64) -> (r: Option<(u16, u64)>)
    requires
        d@.len() == 24 * len,
        lookup_sorted(lookup_entries_of(d@)),
    ensures
        r.is_some() == lookup_has(lookup_entries_of(d@), target),
        r.is_some() ==> lookup_entries_of(d@).contains((target, r.unwrap().0, r.unwrap().1)),
{
    let ghost v = lookup_entries_of(d@);
    let mut lo: usize = 0;
    let mut hi: usize = len;
    assert(d@.len() == d.len());
    while lo < hi
        invariant
            lo <= hi <= len,
            d@.len() == 24 * len,
            d@.len() <= usize::MAX,
            v == lookup_entries_of(d@),
            lookup_sorted(v),
            v.len() == len,
            forall|i: int| 0 <= i < lo ==> (#[trigger] v[i]).0 < target,
            forall|i: int| hi <= i < len ==> (#[trigger] v[i]).0 > target,
        decreases hi - lo,
    {
        let mid: usize = lo + (hi - lo) / 2;
        let base: usize = mid * 24;
        let id: u64 = load_u64(d, base);
        assert(v[mid as int].0 == id);
        if id < target {
            lo = mid + 1;
        } else if id > target {
            hi = mid;
        } else {
            let t: u16 = load_u16(d, base + 8);
            let o: u64 = load_u64(d, base + 16);
            assert(v[mid as int] == (id, t, o));
            return Some((t, o));
        }
    }
    None
}

/// Sorted node lookup over 24-byte records.
#[derive(Debug)]
pub struct MappedNodeIdLookup {
    bytes: Bytes,
    len: usize,
}

impl View for MappedNodeIdLookup {
    type V = Seq<LookupEntry>;

    closed spec fn view(&self) -> Seq<LookupEntry> {
        lookup_entries_of(outside::bytes_content(self.bytes))
    }
}

impl MappedNodeIdLookup {
    #[verifier::type_invariant]
    spec fn inv(&self) -> bool {
        &&& outside::bytes_content(self.bytes).len() == 24 * self.len
        &&& lookup_sorted(lookup_entries_of(outside::bytes_content(self.bytes)))
    }

    /// A checked view over `bytes`.
    pub fn new(bytes: Bytes) -> (r: Result<Self, FormatError>)
        ensures
            r is Ok <==> lookup_fault(outside::bytes_content(bytes), SegmentKind::NodeIdLookup) is None,
            r matches Ok(x) ==> x@ == lookup_entries_of(outside::bytes_content(bytes)) && lookup_sorted(x@),
            r matches Err(e) ==> lookup_fault(outside::bytes_content(bytes), SegmentKind::NodeIdLookup)
                == Some(e),
    {
        let len: usize = check_lookup(bytes_as_slice(&bytes), SegmentKind::NodeIdLookup)?;
        Ok(MappedNodeIdLookup { bytes, len })
    }

    /// Number of records.
    pub fn len(&self) -> (r: usize)
        ensures
            r == self@.len(),
    {
        proof {
            use_type_invariant(self);
        }
        self.len
    }

    /// True when empty.
    pub fn is_empty(&self) -> (r: bool)
        ensures
            r == (self@.len() == 0),
    {
        proof {
            use_type_invariant(self);
        }
        self.len == 0
    }

    /// Byte length.
    pub fn byte_len(&self) -> (r: usize)
        ensures
            r == 24 * self@.len(),
    {
        proof {
            use_type_invariant(self);
        }
        bytes_as_slice(&self.bytes).len()
    }

    /// Binary search: found exactly when a record has the id, and then with
    /// the table and offset of such a record.
    pub fn lookup(&self, id: NodeId) -> (r: Option<(u16, u64)>)
        ensures
            r.is_some() == lookup_has(self@, id.0),
            r.is_some() ==> self@.contains((id.0, r.unwrap().0, r.unwrap().1)),
    {
        proof {
            use_type_invariant(self);
        }
        search_lookup(bytes_as_slice(&self.bytes), self.len, id.as_u64())
    }
}

/// Sorted edge lookup over 24-byte records.
#[derive(Debug)]
pub struct MappedEdgeIdLookup {
    bytes: Bytes,
    len: usize,
}

impl View for MappedEdgeIdLookup {
    type V = Seq<LookupEntry>;

    closed spec fn view(&self) -> Seq<LookupEntry> {
        lookup_entries_of(outside::bytes_content(self.bytes))
    }
}

impl MappedEdgeIdLookup {
    #[verifier::type_invariant]
    spec fn inv(&self) -> bool {
        &&& outside::bytes_content(self.bytes).len() == 24 * self.len
        &&& lookup_sorted(lookup_entries_of(outside::bytes_content(self.bytes)))
    }

    /// A checked view over `bytes`.
    pub fn new(bytes: Bytes) -> (r: Result<Self, FormatError>)
        ensures
            r is Ok <==> lookup_fault(outside::bytes_content(bytes), SegmentKind::EdgeIdLookup) is None,
            r matches Ok(x) ==> x@ == lookup_entries_of(outside::bytes_content(bytes)) && lookup_sorted(x@),
            r matches Err(e) ==> lookup_fault(outside::bytes_content(bytes), SegmentKind::EdgeIdLookup)
                == Some(e),
    {
        let len: usize = check_lookup(bytes_as_slice(&bytes), SegmentKind::EdgeIdLookup)?;
        Ok(MappedEdgeIdLookup { bytes, len })
    }

    /// Number of records.
    pub fn len(&self) -> (r: usize)
        ensures
            r == self@.len(),
    {
        proof {
            use_type_invariant(self);
        }
        self.len
    }

    /// True when empty.
    pub fn is_empty(&self) -> (r: bool)
        ensures
            r == (self@.len() == 0),
    {
        proof {
            use_type_invariant(self);
        }
        self.len == 0
    }

    /// Byte length.
    pub fn byte_len(&self) -> (r: usize)
        ensures
            r == 24 * self@.len(),
    {
        proof {
            use_type_invariant(self);
        }
        bytes_as_slice(&self.bytes).len()
    }

    /// Binary search: found exactly when a record has the id, and then with
    /// the table and position of such a record.
    pub fn lookup(&self, id: EdgeId) -> (r: Option<(u16, u64)>)
        ensures
            r.is_some() == lookup_has(self@, id.0),
            r.is_some() ==> self@.contains((id.0, r.unwrap().0, r.unwrap().1)),
    {
        proof {
            use_type_invariant(self);
        }
        search_lookup(bytes_as_slice(&self.bytes), self.len, id.as_u64())
    }
}

/// Original ids by absolute index.
#[derive(Debug)]
pub struct MappedOriginalIds {
    view: U64View,
}

impl View for MappedOriginalIds {
    type V = Seq<u64>;

    closed spec fn view(&self) -> Seq<u64> {
        self.view@
    }
}

impl MappedOriginalIds {
    /// Wraps an array of ids; its length must be a multiple of 8.
    pub fn new(bytes: Bytes) -> (r: Result<Self, FormatError>)
        ensures
            r is Ok <==> outside::bytes_content(bytes).len() % 8 == 0,
            r matches Ok(x) ==> x@ == views::u64s_of(outside::bytes_content(bytes)),
            r matches Err(e) ==> e == (FormatError::ViewLength { width: 8 }),
    {
        let view = U64View::new(bytes)?;
        Ok(MappedOriginalIds { view })
    }

    /// No ids.
    pub fn empty() -> (r: Self)
        ensures
            r@ == Seq::<u64>::empty(),
    {
        MappedOriginalIds { view: U64View::empty() }
    }

    /// Number of ids.
    pub fn len(&self) -> (r: usize)
        ensures
            r == self@.len(),
    {
        self.view.len()
    }

    /// Byte length.
    pub fn byte_len(&self) -> (r: usize)
        ensures
            r == 8 * self@.len(),
    {
        self.view.byte_len()
    }

    /// The id at an absolute index.
    pub fn get(&self, index: usize) -> (r: Option<u64>)
        ensures
            r == (if index < self@.len() {
                Some(self@[index as int])
            } else {
                None
            }),
    {
        self.view.get(index)
    }
}

/// Writes one node lookup record.
pub fn write_node_id_record(buf: &mut Vec<u8>, id: u64, table: u16, internal_offset: u64)
    ensures
        final(buf)@ == old(buf)@ + lookup_record((id, table, internal_offset)),
{
    push_u64(buf, id);
    push_u16(buf, table);
    push_u16(buf, 0);
    push_u32(buf, 0);
    push_u64(buf, internal_offset);
    assert(buf@ =~= old(buf)@ + lookup_record((id, table, internal_offset)));
}

/// Writes one edge lookup record.
pub fn write_edge_id_record(buf: &mut Vec<u8>, id: u64, rel_table: u16, csr_position: u64)
    ensures
        final(buf)@ == old(buf)@ + lookup_record((id, rel_table, csr_position)),
{
    push_u64(buf, id);
    push_u16(buf, rel_table);
    push_u16(buf, 0);
    push_u32(buf, 0);
    push_u64(buf, csr_position);
    assert(buf@ =~= old(buf)@ + lookup_record((id, rel_table, csr_position)));
}

} // verus!
