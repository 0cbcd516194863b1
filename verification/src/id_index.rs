//! Sorted node-ID index: the builder's `original id -> (table, offset)` map as
//! fixed-width records in a byte buffer, searched in place.
//!
//! A record is the original id (`u64`), the table (`u16`) and the dense row
//! offset (`u64`), little-endian, 18 bytes; ids ascend strictly.

use crate::faults;
use crate::generation::{CodecError, GenerationError};
use crate::outside::bytes_as_slice;
use crate::outside;
use crate::wire::{load_u16, load_u64, push_u16, push_u64};
use crate::wire;
use bytes::Bytes;
use vstd::prelude::*;

verus! {

broadcast use wire::group_wire;

/// Width of one record.
pub const ID_INDEX_RECORD_LEN: usize = 18;

/// One record of the index: original id, table, dense offset.
pub type IdEntry = (u64, u16, u64);

/// The bytes of one record.
pub open spec fn id_record(e: IdEntry) -> Seq<u8> {
    wire::put64(e.0) + wire::put16(e.1) + wire::put64(e.2)
}

/// The bytes of a row of records.
pub open spec fn id_records(v: Seq<IdEntry>) -> Seq<u8> {
    wire::flat(v, |e: IdEntry| id_record(e))
}

/// Record `i` of some bytes.
pub open spec fn id_entry_at(d: Seq<u8>, i: int) -> IdEntry {
    (wire::u64_at(d, i * 18), wire::u16_at(d, i * 18 + 8), wire::u64_at(d, i * 18 + 10))
}

/// The records that some bytes hold.
pub open spec fn id_entries_of(d: Seq<u8>) -> Seq<IdEntry> {
    Seq::new(d.len() / 18, |i: int| id_entry_at(d, i))
}

/// Ids ascend strictly.
pub open spec fn ids_ascend(v: Seq<IdEntry>) -> bool {
    forall|i: int, j: int| 0 <= i < j < v.len() ==> #[trigger] v[i].0 < #[trigger] v[j].0
}

/// The index entry of an id.
pub open spec fn id_entry_for(v: Seq<IdEntry>, id: u64) -> Option<(u16, u64)> {
    if exists|i: int| 0 <= i < v.len() && (#[trigger] v[i]).0 == id {
        let i = choose|i: int| 0 <= i < v.len() && (#[trigger] v[i]).0 == id;
        Some((v[i].1, v[i].2))
    } else {
        None
    }
}

/// Records read back as they were written.
pub proof fn lemma_id_records_round_trip(v: Seq<IdEntry>)
    ensures
        id_records(v).len() == 18 * v.len(),
        id_entries_of(id_records(v)) == v,
{
    let f = |e: IdEntry| id_record(e);
    let d = id_records(v);
    wire::lemma_flat_len(v, f, 18);
    assert forall|i: int| 0 <= i < v.len() implies id_entry_at(d, i) == v[i] by {
        wire::lemma_flat_at(v, f, 18, i);
        let rec = id_record(v[i]);
        assert(d.subrange(i * 18, i * 18 + 8) =~= rec.subrange(0, 8));
        assert(d.subrange(i * 18 + 8, i * 18 + 10) =~= rec.subrange(8, 10));
        assert(d.subrange(i * 18 + 10, i * 18 + 18) =~= rec.subrange(10, 18));
        assert(rec.subrange(0, 8) =~= wire::put64(v[i].0));
        assert(rec.subrange(8, 10) =~= wire::put16(v[i].1));
        assert(rec.subrange(10, 18) =~= wire::put64(v[i].2));
    }
    assert(id_entries_of(d) =~= v);
}

/// Writes one record.
pub fn write_id_index_record(
    out: &mut Vec<u8>,
    original_id: u64,
    table_id: u16,
    dense_offset: u64,
)
    ensures
        final(out)@ == old(out)@ + id_record((original_id, table_id, dense_offset)),
{
    push_u64(out, original_id);
    push_u16(out, table_id);
    push_u64(out, dense_offset);
    assert(out@ =~= old(out)@ + id_record((original_id, table_id, dense_offset)));
}

/// One record as bytes of its own.
pub fn id_index_record_bytes(original_id: u64, table_id: u16, dense_offset: u64) -> (r: Vec<u8>)
    ensures
        r@ == id_record((original_id, table_id, dense_offset)),
        r@.len() == ID_INDEX_RECORD_LEN,
{
    let mut out: Vec<u8> = Vec::with_capacity(ID_INDEX_RECORD_LEN);
    write_id_index_record(&mut out, original_id, table_id, dense_offset);
    assert(out@ =~= id_record((original_id, table_id, dense_offset)));
    out
}

/// What is wrong with record `i` next to the one before it.
pub open spec fn id_order_fault(d: Seq<u8>, i: int) -> Option<GenerationError> {
    let id = id_entry_at(d, i).0;
    let prev = id_entry_at(d, i - 1).0;
    if i > 0 && id == prev {
        Some(GenerationError::DuplicateNodeId(id))
    } else if i > 0 && id < prev {
        Some(
            GenerationError::Codec(CodecError::IdIndexOrder { record: i as usize, id, prev }),
        )
    } else {
        None
    }
}

/// The order checks by record.
pub open spec fn id_order_checks(d: Seq<u8>) -> spec_fn(int) -> Option<GenerationError> {
    |i: int| id_order_fault(d, i)
}

/// The first thing that is wrong with the bytes of an index.
pub open spec fn id_index_fault(d: Seq<u8>) -> Option<GenerationError> {
    if d.len() % 18 != 0 {
        Some(GenerationError::Codec(CodecError::IdIndexLength(d.len() as usize)))
    } else {
        faults::first_fault(d.len() / 18, id_order_checks(d))
    }
}

/// The bytes of records whose ids ascend strictly are a sound index.
pub proof fn lemma_sorted_records_are_sound(v: Seq<IdEntry>)
    requires
        ids_ascend(v),
    ensures
        id_index_fault(id_records(v)) is None,
{
    let d = id_records(v);
    lemma_id_records_round_trip(v);
    assert forall|i: int| 0 <= i < v.len() implies (#[trigger] id_order_checks(d)(i)) is None by {
        assert(id_entries_of(d)[i] == v[i]);
        if i > 0 {
            assert(id_entries_of(d)[i - 1] == v[i - 1]);
        }
    }
    faults::lemma_no_fault(v.len(), id_order_checks(d));
}

/// A checked view over a completed, sorted index.
#[derive(Debug)]
pub struct MappedNodeIdIndex {
    data: Bytes,
}

impl View for MappedNodeIdIndex {
    type V = Seq<IdEntry>;

    closed spec fn view(&self) -> Seq<IdEntry> {
        id_entries_of(outside::bytes_content(self.data))
    }
}

impl Clone for MappedNodeIdIndex {
    fn clone(&self) -> (r: Self)
        ensures
            r@ == self@,
    {
        proof {
            use_type_invariant(self);
        }
        MappedNodeIdIndex { data: self.data.clone() }
    }
}

impl MappedNodeIdIndex {
    #[verifier::type_invariant]
    spec fn inv(&self) -> bool {
        &&& outside::bytes_content(self.data).len() % 18 == 0
        &&& ids_ascend(id_entries_of(outside::bytes_content(self.data)))
    }

    /// Validates and wraps a completed index.
    pub fn new(data: Bytes) -> (r: Result<Self, GenerationError>)
        ensures
            r is Ok <==> id_index_fault(outside::bytes_content(data)) is None,
            r matches Ok(x) ==> x@ == id_entries_of(outside::bytes_content(data)) && ids_ascend(x@),
            r matches Err(e) ==> id_index_fault(outside::bytes_content(data)) == Some(e),
    {
        let d: &[u8] = bytes_as_slice(&data);
        let n: usize = d.len();
        if n % 18 != 0 {
            return Err(GenerationError::Codec(CodecError::IdIndexLength(n)));
        }
        let count: usize = n / 18;
        let ghost v = id_entries_of(d@);
        let ghost checks = id_order_checks(d@);
        let mut prev: u64 = 0;
        let mut i: usize = 0;
        while i < count
            invariant
                i <= count,
                d@.len() == n,
                n == count * 18,
                v == id_entries_of(d@),
                d@ == outside::bytes_content(data),
                checks == id_order_checks(d@),
                id_index_fault(d@) == faults::first_fault(count as nat, checks),
                faults::first_fault(i as nat, checks) is None,
                i > 0 ==> prev == v[i - 1].0,
                forall|a: int, b: int| 0 <= a < b < i ==> #[trigger] v[a].0 < #[trigger] v[b].0,
            decreases count - i,
        {
            proof {
                assert(checks(i as int) == id_order_fault(d@, i as int));
                if checks(i as int) is Some {
                    faults::lemma_first_fault_stays((i + 1) as nat, count as nat, checks);
                }
            }
            let id: u64 = load_u64(d, i * 18);
            if i > 0 {
                if id == prev {
                    return Err(GenerationError::DuplicateNodeId(id));
                }
                if id < prev {
                    return Err(
                        GenerationError::Codec(CodecError::IdIndexOrder { record: i, id, prev }),
                    );
                }
            }
            prev = id;
            i = i + 1;
        }
        Ok(MappedNodeIdIndex { data })
    }

    /// Number of indexed nodes.
    pub fn len(&self) -> (r: usize)
        ensures
            r == self@.len(),
    {
        proof {
            use_type_invariant(self);
        }
        bytes_as_slice(&self.data).len() / 18
    }

    /// True when empty.
    pub fn is_empty(&self) -> (r: bool)
        ensures
            r == (self@.len() == 0),
    {
        proof {
            use_type_invariant(self);
        }
        bytes_as_slice(&self.data).len() == 0
    }

    /// Byte length of the index.
    pub fn byte_len(&self) -> (r: usize)
        ensures
            r == 18 * self@.len(),
    {
        proof {
            use_type_invariant(self);
        }
        bytes_as_slice(&self.data).len()
    }

    /// Resolves an original id by binary search.
    pub fn lookup(&self, original_id: u64) -> (r: Option<(u16, u64)>)
        ensures
            r == id_entry_for(self@, original_id),
    {
        proof {
            use_type_invariant(self);
        }
        let d: &[u8] = bytes_as_slice(&self.data);
        let ghost v = self@;
        assert(v == id_entries_of(d@));
        let count: usize = d.len() / 18;
        let mut lo: usize = 0;
        let mut hi: usize = count;
        while lo < hi
            invariant
                lo <= hi <= count,
                d@.len() == count * 18,
                v == id_entries_of(d@),
                ids_ascend(v),
                v.len() == count,
                d@.len() <= usize::MAX,
                forall|i: int| 0 <= i < lo ==> (#[trigger] v[i]).0 < original_id,
                forall|i: int| hi <= i < count ==> (#[trigger] v[i]).0 > original_id,
                v == self@,
            decreases hi - lo,
        {
            let mid: usize = lo + (hi - lo) / 2;
            let base: usize = mid * 18;
            let id: u64 = load_u64(d, base);
            assert(v[mid as int].0 == id);
            if id == original_id {
                let t: u16 = load_u16(d, base + 8);
                let o: u64 = load_u64(d, base + 10);
                assert(v[mid as int] == (id, t, o));
                assert(exists|i: int| 0 <= i < v.len() && (#[trigger] v[i]).0 == id);
                assert(forall|i: int| 0 <= i < v.len() && (#[trigger] v[i]).0 == id ==> i == mid);
                return Some((t, o));
            } else if id < original_id {
                lo = mid + 1;
            } else {
                hi = mid;
            }
        }
        None
    }

    /// Table and offset of record `i`.
    pub fn lookup_at(&self, i: usize) -> (r: Option<(u16, u64)>)
        ensures
            r == (if i < self@.len() {
                Some((self@[i as int].1, self@[i as int].2))
            } else {
                None
            }),
    {
        proof {
            use_type_invariant(self);
        }
        let d: &[u8] = bytes_as_slice(&self.data);
        let count: usize = d.len() / 18;
        if i >= count {
            return None;
        }
        Some((load_u16(d, i * 18 + 8), load_u64(d, i * 18 + 10)))
    }

    /// Original id of record `i`.
    pub fn original_id_at(&self, i: usize) -> (r: u64)
        requires
            i < self@.len(),
        ensures
            r == self@[i as int].0,
    {
        proof {
            use_type_invariant(self);
        }
        let d: &[u8] = bytes_as_slice(&self.data);
        assert(d@.len() == d.len());
        load_u64(d, i * 18)
    }
}

/// What was written and sorted is found again: every id of the index resolves
/// to its table and offset, and no other id resolves.
pub proof fn lemma_lookup_finds_what_was_written(v: Seq<IdEntry>, id: u64)
    requires
        ids_ascend(v),
    ensures
        forall|i: int|
            0 <= i < v.len() && (#[trigger] v[i]).0 == id ==> id_entry_for(
                id_entries_of(id_records(v)),
                id,
            ) == Some((v[i].1, v[i].2)),
        (forall|i: int| 0 <= i < v.len() ==> (#[trigger] v[i]).0 != id) ==> id_entry_for(
            id_entries_of(id_records(v)),
            id,
        ) is None,
{
    lemma_id_records_round_trip(v);
}

} // verus!
