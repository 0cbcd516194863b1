//! Checked little-endian array views over a byte buffer, and cursor reads.

use crate::outside::{bytes_as_slice, bytes_empty};
use crate::outside;
use crate::wire::{load_u16, load_u32, load_u64};
use crate::wire;
use crate::error::FormatError;
use bytes::Bytes;
use vstd::prelude::*;

verus! {

broadcast use wire::group_wire;

/// The little-endian `u32` values that some bytes hold.
pub open spec fn u32s_of(d: Seq<u8>) -> Seq<u32> {
    Seq::new(d.len() / 4, |i: int| wire::u32_at(d, i * 4))
}

/// The little-endian `u64` values that some bytes hold.
pub open spec fn u64s_of(d: Seq<u8>) -> Seq<u64> {
    Seq::new(d.len() / 8, |i: int| wire::u64_at(d, i * 8))
}

/// The bytes of a row of `u32` values.
pub open spec fn bytes_of_u32s(v: Seq<u32>) -> Seq<u8> {
    wire::flat(v, |x: u32| wire::put32(x))
}

/// The bytes of a row of `u64` values.
pub open spec fn bytes_of_u64s(v: Seq<u64>) -> Seq<u8> {
    wire::flat(v, |x: u64| wire::put64(x))
}

/// A row of `u32` values reads back as it was written.
pub proof fn lemma_u32s_round_trip(v: Seq<u32>)
    ensures
        bytes_of_u32s(v).len() == 4 * v.len(),
        u32s_of(bytes_of_u32s(v)) == v,
{
    let f = |x: u32| wire::put32(x);
    let d = bytes_of_u32s(v);
    wire::lemma_flat_len(v, f, 4);
    assert forall|i: int| 0 <= i < v.len() implies wire::u32_at(d, i * 4) == v[i] by {
        wire::lemma_flat_at(v, f, 4, i);
    }
    assert(u32s_of(d) =~= v);
}

/// A row of `u64` values reads back as it was written.
pub proof fn lemma_u64s_round_trip(v: Seq<u64>)
    ensures
        bytes_of_u64s(v).len() == 8 * v.len(),
        u64s_of(bytes_of_u64s(v)) == v,
{
    let f = |x: u64| wire::put64(x);
    let d = bytes_of_u64s(v);
    wire::lemma_flat_len(v, f, 8);
    assert forall|i: int| 0 <= i < v.len() implies wire::u64_at(d, i * 8) == v[i] by {
        wire::lemma_flat_at(v, f, 8, i);
    }
    assert(u64s_of(d) =~= v);
}

/// Fixed-width little-endian `u32` view over a byte range.
#[derive(Debug)]
pub struct U32View {
    bytes: Bytes,
    len: usize,
}

impl Clone for U32View {
    fn clone(&self) -> (r: Self)
        ensures
            r@ == self@,
            r.raw() == self.raw(),
    {
        proof {
            use_type_invariant(self);
        }
        U32View { bytes: self.bytes.clone(), len: self.len }
    }
}

impl View for U32View {
    type V = Seq<u32>;

    closed spec fn view(&self) -> Seq<u32> {
        u32s_of(outside::bytes_content(self.bytes))
    }
}

impl U32View {
    #[verifier::type_invariant]
    spec fn inv(&self) -> bool {
        outside::bytes_content(self.bytes).len() == 4 * self.len
    }

    /// The bytes under the view.
    pub closed spec fn raw(&self) -> Seq<u8> {
        outside::bytes_content(self.bytes)
    }

    /// A view over `bytes`, whose length must be a multiple of 4.
    pub fn new(bytes: Bytes) -> (r: Result<Self, FormatError>)
        ensures
            r is Ok <==> outside::bytes_content(bytes).len() % 4 == 0,
            r matches Ok(v) ==> v@ == u32s_of(outside::bytes_content(bytes)) && v.raw() == outside::bytes_content(
                bytes,
            ),
            r matches Err(e) ==> e == (FormatError::ViewLength { width: 4 }),
    {
        let n: usize = bytes_as_slice(&bytes).len();
        if n % 4 != 0 {
            return Err(FormatError::ViewLength { width: 4 });
        }
        Ok(U32View { bytes, len: n / 4 })
    }

    /// A view of no elements.
    pub fn empty() -> (r: Self)
        ensures
            r@ == Seq::<u32>::empty(),
            r.raw() == Seq::<u8>::empty(),
    {
        let r = U32View { bytes: bytes_empty(), len: 0 };
        assert(r@ =~= Seq::<u32>::empty());
        r
    }

    /// Number of elements.
    pub fn len(&self) -> (r: usize)
        ensures
            r == self@.len(),
    {
        proof {
            use_type_invariant(self);
        }
        self.len
    }

    /// True when there are no elements.
    pub fn is_empty(&self) -> (r: bool)
        ensures
            r == (self@.len() == 0),
    {
        proof {
            use_type_invariant(self);
        }
        self.len == 0
    }

    /// Byte length of the view.
    pub fn byte_len(&self) -> (r: usize)
        ensures
            r == self.raw().len(),
            r == 4 * self@.len(),
    {
        proof {
            use_type_invariant(self);
        }
        bytes_as_slice(&self.bytes).len()
    }

    /// The element at `idx`, or `None` when out of range.
    pub fn get(&self, idx: usize) -> (r: Option<u32>)
        ensures
            r == (if idx < self@.len() {
                Some(self@[idx as int])
            } else {
                None
            }),
    {
        proof {
            use_type_invariant(self);
        }
        if idx < self.len {
            let d: &[u8] = bytes_as_slice(&self.bytes);
            assert(d@.len() == d.len());
            Some(load_u32(d, idx * 4))
        } else {
            None
        }
    }

    /// The bytes of the elements `start..end`.
    pub fn element_bytes(&self, start: usize, end: usize) -> (r: Result<&[u8], FormatError>)
        ensures
            r is Ok <==> start <= end <= self@.len(),
            r matches Ok(b) ==> b@ == self.raw().subrange(4 * start, 4 * end) && u32s_of(b@)
                == self@.subrange(start as int, end as int),
            r matches Err(e) ==> e == FormatError::ViewRange,
    {
        proof {
            use_type_invariant(self);
        }
        if start > end || end > self.len {
            return Err(FormatError::ViewRange);
        }
        let d: &[u8] = bytes_as_slice(&self.bytes);
        assert(d@.len() == d.len());
        let b: &[u8] = vstd::slice::slice_subrange(d, start * 4, end * 4);
        proof {
            let n = end - start;
            assert forall|i: int| 0 <= i < n implies #[trigger] wire::u32_at(b@, i * 4) == wire::u32_at(
                d@,
                (start + i) * 4,
            ) by {
                assert(b@.subrange(i * 4, i * 4 + 4) =~= d@.subrange(
                    (start + i) * 4,
                    (start + i) * 4 + 4,
                ));
            }
            assert(u32s_of(b@) =~= self@.subrange(start as int, end as int));
        }
        Ok(b)
    }

    /// Decodes the elements `start..end` into `scratch`; false, and `scratch`
    /// untouched, when the range is out of bounds.
    pub fn copy_range_into(&self, start: usize, end: usize, scratch: &mut Vec<u32>) -> (r: bool)
        ensures
            r == (start <= end <= self@.len()),
            r ==> final(scratch)@ == self@.subrange(start as int, end as int),
            !r ==> final(scratch)@ == old(scratch)@,
    {
        proof {
            use_type_invariant(self);
        }
        if start > end || end > self.len {
            return false;
        }
        let d: &[u8] = bytes_as_slice(&self.bytes);
        assert(d@.len() == d.len());
        scratch.clear();
        let mut i: usize = start;
        while i < end
            invariant
                start <= i <= end <= self.len,
                d@ == outside::bytes_content(self.bytes),
                d@.len() == 4 * self.len,
                d@.len() <= usize::MAX,
                scratch@ == self@.subrange(start as int, i as int),
            decreases end - i,
        {
            scratch.push(load_u32(d, i * 4));
            i = i + 1;
            assert(scratch@ =~= self@.subrange(start as int, i as int));
        }
        true
    }

    /// The buffer under the view.
    pub fn bytes(&self) -> (r: &Bytes)
        ensures
            outside::bytes_content(*r) == self.raw(),
    {
        &self.bytes
    }
}

/// Fixed-width little-endian `u64` view over a byte range.
#[derive(Debug)]
pub struct U64View {
    bytes: Bytes,
    len: usize,
}

impl Clone for U64View {
    fn clone(&self) -> (r: Self)
        ensures
            r@ == self@,
            r.raw() == self.raw(),
    {
        proof {
            use_type_invariant(self);
        }
        U64View { bytes: self.bytes.clone(), len: self.len }
    }
}

impl View for U64View {
    type V = Seq<u64>;

    closed spec fn view(&self) -> Seq<u64> {
        u64s_of(outside::bytes_content(self.bytes))
    }
}

impl U64View {
    #[verifier::type_invariant]
    spec fn inv(&self) -> bool {
        outside::bytes_content(self.bytes).len() == 8 * self.len
    }

    /// The bytes under the view.
    pub closed spec fn raw(&self) -> Seq<u8> {
        outside::bytes_content(self.bytes)
    }

    /// A view over `bytes`, whose length must be a multiple of 8.
    pub fn new(bytes: Bytes) -> (r: Result<Self, FormatError>)
        ensures
            r is Ok <==> outside::bytes_content(bytes).len() % 8 == 0,
            r matches Ok(v) ==> v@ == u64s_of(outside::bytes_content(bytes)) && v.raw() == outside::bytes_content(
                bytes,
            ),
            r matches Err(e) ==> e == (FormatError::ViewLength { width: 8 }),
    {
        let n: usize = bytes_as_slice(&bytes).len();
        if n % 8 != 0 {
            return Err(FormatError::ViewLength { width: 8 });
        }
        Ok(U64View { bytes, len: n / 8 })
    }

    /// A view of no elements.
    pub fn empty() -> (r: Self)
        ensures
            r@ == Seq::<u64>::empty(),
            r.raw() == Seq::<u8>::empty(),
    {
        let r = U64View { bytes: bytes_empty(), len: 0 };
        assert(r@ =~= Seq::<u64>::empty());
        r
    }

    /// Number of elements.
    pub fn len(&self) -> (r: usize)
        ensures
            r == self@.len(),
    {
        proof {
            use_type_invariant(self);
        }
        self.len
    }

    /// True when there are no elements.
    pub fn is_empty(&self) -> (r: bool)
        ensures
            r == (self@.len() == 0),
    {
        proof {
            use_type_invariant(self);
        }
        self.len == 0
    }

    /// Byte length of the view.
    pub fn byte_len(&self) -> (r: usize)
        ensures
            r == self.raw().len(),
            r == 8 * self@.len(),
    {
        proof {
            use_type_invariant(self);
        }
        bytes_as_slice(&self.bytes).len()
    }

    /// The element at `idx`, or `None` when out of range.
    pub fn get(&self, idx: usize) -> (r: Option<u64>)
        ensures
            r == (if idx < self@.len() {
                Some(self@[idx as int])
            } else {
                None
            }),
    {
        proof {
            use_type_invariant(self);
        }
        if idx < self.len {
            let d: &[u8] = bytes_as_slice(&self.bytes);
            assert(d@.len() == d.len());
            Some(load_u64(d, idx * 8))
        } else {
            None
        }
    }

    /// The buffer under the view.
    pub fn bytes(&self) -> (r: &Bytes)
        ensures
            outside::bytes_content(*r) == self.raw(),
    {
        &self.bytes
    }
}

/// Reads a little-endian `u16` at `pos` and advances; on truncation `pos`
/// stays.
pub fn read_u16_le(data: &[u8], pos: &mut usize) -> (r: Result<u16, &'static str>)
    ensures
        r is Ok <==> *old(pos) + 2 <= data@.len(),
        r matches Ok(v) ==> v == wire::u16_at(data@, *old(pos) as int) && *final(pos) == *old(pos) + 2,
        r matches Err(e) ==> e@ == "truncated u16"@ && *final(pos) == *old(pos),
{
    if data.len() < 2 || *pos > data.len() - 2 {
        return Err("truncated u16");
    }
    let v: u16 = load_u16(data, *pos);
    *pos = *pos + 2;
    Ok(v)
}

/// Reads a little-endian `u32` at `pos` and advances; on truncation `pos`
/// stays.
pub fn read_u32_le(data: &[u8], pos: &mut usize) -> (r: Result<u32, &'static str>)
    ensures
        r is Ok <==> *old(pos) + 4 <= data@.len(),
        r matches Ok(v) ==> v == wire::u32_at(data@, *old(pos) as int) && *final(pos) == *old(pos) + 4,
        r matches Err(e) ==> e@ == "truncated u32"@ && *final(pos) == *old(pos),
{
    if data.len() < 4 || *pos > data.len() - 4 {
        return Err("truncated u32");
    }
    let v: u32 = load_u32(data, *pos);
    *pos = *pos + 4;
    Ok(v)
}

/// Reads a little-endian `u64` at `pos` and advances; on truncation `pos`
/// stays.
pub fn read_u64_le(data: &[u8], pos: &mut usize) -> (r: Result<u64, &'static str>)
    ensures
        r is Ok <==> *old(pos) + 8 <= data@.len(),
        r matches Ok(v) ==> v == wire::u64_at(data@, *old(pos) as int) && *final(pos) == *old(pos) + 8,
        r matches Err(e) ==> e@ == "truncated u64"@ && *final(pos) == *old(pos),
{
    if data.len() < 8 || *pos > data.len() - 8 {
        return Err("truncated u64");
    }
    let v: u64 = load_u64(data, *pos);
    *pos = *pos + 8;
    Ok(v)
}

} // verus!
