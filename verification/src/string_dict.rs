//! String dictionary over two segments: a table of `u64` offsets with a
//! trailing sentinel, and the UTF-8 bytes of all strings end to end.

use crate::faults;
use crate::outside::{bytes_as_slice, bytes_empty, bytes_from_vec};
use crate::outside;
use crate::text::{decode_text, text_eq};
use crate::text;
use crate::views::U64View;
use crate::views;
use crate::wire::{push_bytes, push_u64};
use crate::wire;
use crate::error::FormatError;
use bytes::Bytes;
use vstd::prelude::*;
use vstd::string::*;
use vstd::utf8::*;

verus! {

broadcast use wire::group_wire;

/// Bytes of the texts before text `i`.
pub open spec fn text_offset(v: Seq<Seq<char>>, i: int) -> nat
    decreases i,
{
    if i <= 0 {
        0
    } else {
        text_offset(v, i - 1) + text::utf8(v[i - 1]).len()
    }
}

/// The offset table of some texts, sentinel included.
pub open spec fn text_offsets(v: Seq<Seq<char>>) -> Seq<u64> {
    Seq::new(v.len() + 1, |i: int| text_offset(v, i) as u64)
}

/// The bytes of all texts end to end.
pub open spec fn text_blob(v: Seq<Seq<char>>) -> Seq<u8> {
    wire::flat(v, |t: Seq<char>| text::utf8(t))
}

/// What is wrong with offset `i`.
pub open spec fn offset_fault(offs: Seq<u64>, blob: nat, i: int) -> Option<FormatError> {
    if i > 0 && offs[i] < offs[i - 1] {
        Some(FormatError::DictOrder { index: i as usize, offset: offs[i], prev: offs[i - 1] })
    } else if offs[i] > blob {
        Some(FormatError::DictRange { index: i as usize, offset: offs[i], blob: blob as usize })
    } else {
        None
    }
}

/// The offset checks by entry.
pub open spec fn offset_checks(offs: Seq<u64>, blob: nat) -> spec_fn(int) -> Option<FormatError> {
    |i: int| offset_fault(offs, blob, i)
}

/// The bytes of string `i`.
pub open spec fn string_slice(offs: Seq<u64>, b: Seq<u8>, i: int) -> Seq<u8> {
    b.subrange(offs[i] as int, offs[i + 1] as int)
}

/// String `i` is not UTF-8.
pub open spec fn utf8_fault(offs: Seq<u64>, b: Seq<u8>, i: int) -> Option<FormatError> {
    if valid_utf8(string_slice(offs, b, i)) {
        None
    } else {
        Some(FormatError::DictUtf8(i as usize))
    }
}

/// The UTF-8 checks by string.
pub open spec fn utf8_checks(offs: Seq<u64>, b: Seq<u8>) -> spec_fn(int) -> Option<FormatError> {
    |i: int| utf8_fault(offs, b, i)
}

/// The first thing that is wrong with a dictionary.
pub open spec fn dict_fault(o: Seq<u8>, b: Seq<u8>) -> Option<FormatError> {
    let offs = views::u64s_of(o);
    if o.len() % 8 != 0 {
        Some(FormatError::ViewLength { width: 8 })
    } else if offs.len() < 1 {
        Some(FormatError::DictSentinel)
    } else if faults::first_fault(offs.len(), offset_checks(offs, b.len())) is Some {
        faults::first_fault(offs.len(), offset_checks(offs, b.len()))
    } else {
        faults::first_fault((offs.len() - 1) as nat, utf8_checks(offs, b))
    }
}

/// The strings of a sound dictionary.
pub open spec fn dict_texts(o: Seq<u8>, b: Seq<u8>) -> Seq<Seq<char>> {
    let offs = views::u64s_of(o);
    Seq::new((offs.len() - 1) as nat, |i: int| text::text_of(string_slice(offs, b, i)))
}

/// In a sound dictionary every string has a range inside the bytes.
pub proof fn lemma_dict_sound(o: Seq<u8>, b: Seq<u8>)
    requires
        dict_fault(o, b) is None,
    ensures
        views::u64s_of(o).len() >= 1,
        forall|i: int| 0 <= i < views::u64s_of(o).len() ==> #[trigger] views::u64s_of(o)[i] <= b.len(),
        forall|i: int|
            0 <= i < views::u64s_of(o).len() - 1 ==> #[trigger] views::u64s_of(o)[i] <= views::u64s_of(o)[i + 1]
                && valid_utf8(string_slice(views::u64s_of(o), b, i)),
{
    let offs = views::u64s_of(o);
    let oc = offset_checks(offs, b.len());
    let uc = utf8_checks(offs, b);
    faults::lemma_no_fault(offs.len(), oc);
    faults::lemma_no_fault((offs.len() - 1) as nat, uc);
    assert forall|i: int| 0 <= i < offs.len() implies #[trigger] offs[i] <= b.len() by {
        assert(oc(i) is None);
    }
    assert forall|i: int| 0 <= i < offs.len() - 1 implies #[trigger] offs[i] <= offs[i + 1]
        && valid_utf8(string_slice(offs, b, i)) by {
        assert(oc(i + 1) is None);
        assert(uc(i) is None);
    }
}

proof fn lemma_text_offset_monotonic(v: Seq<Seq<char>>, i: int, j: int)
    requires
        0 <= i <= j,
    ensures
        text_offset(v, i) <= text_offset(v, j),
    decreases j,
{
    if i < j {
        lemma_text_offset_monotonic(v, i, j - 1);
    }
}

proof fn lemma_text_offset_take(v: Seq<Seq<char>>, n: int, i: int)
    requires
        0 <= i <= n <= v.len(),
    ensures
        text_offset(v.take(n), i) == text_offset(v, i),
    decreases i,
{
    if i > 0 {
        lemma_text_offset_take(v, n, i - 1);
    }
}

/// Each text lies in the blob between its offset and the next.
pub proof fn lemma_text_blob(v: Seq<Seq<char>>, i: int)
    requires
        0 <= i < v.len(),
    ensures
        text_blob(v).len() == text_offset(v, v.len() as int),
        text_offset(v, i) <= text_offset(v, i + 1) <= text_blob(v).len(),
        text_blob(v).subrange(text_offset(v, i) as int, text_offset(v, i + 1) as int) == text::utf8(
            v[i],
        ),
    decreases v.len(),
{
    let w = v.drop_last();
    assert(w =~= v.take(v.len() - 1));
    let a = text_blob(w);
    let f = |t: Seq<char>| text::utf8(t);
    lemma_text_blob_len(w);
    lemma_text_blob_len(v);
    lemma_text_offset_take(v, v.len() - 1, v.len() - 1);
    lemma_text_offset_monotonic(v, i + 1, v.len() as int);
    if i < w.len() {
        lemma_text_blob(w, i);
        lemma_text_offset_take(v, v.len() - 1, i);
        lemma_text_offset_take(v, v.len() - 1, i + 1);
        assert(text_blob(v).subrange(text_offset(v, i) as int, text_offset(v, i + 1) as int)
            =~= a.subrange(text_offset(v, i) as int, text_offset(v, i + 1) as int));
    } else {
        assert(text_blob(v).subrange(text_offset(v, i) as int, text_offset(v, i + 1) as int)
            =~= text::utf8(v[i]));
    }
}

/// The blob is as long as its texts.
pub proof fn lemma_text_blob_len(v: Seq<Seq<char>>)
    ensures
        text_blob(v).len() == text_offset(v, v.len() as int),
    decreases v.len(),
{
    if v.len() > 0 {
        let w = v.drop_last();
        assert(w =~= v.take(v.len() - 1));
        lemma_text_blob_len(w);
        lemma_text_offset_take(v, v.len() - 1, v.len() - 1);
    }
}

/// The segments built from some texts are a sound dictionary of those texts.
pub proof fn lemma_dict_round_trip(v: Seq<Seq<char>>)
    requires
        text_offset(v, v.len() as int) <= u64::MAX,
    ensures
        dict_fault(views::bytes_of_u64s(text_offsets(v)), text_blob(v)) is None,
        dict_texts(views::bytes_of_u64s(text_offsets(v)), text_blob(v)) == v,
{
    let offs = text_offsets(v);
    let o = views::bytes_of_u64s(offs);
    let b = text_blob(v);
    views::lemma_u64s_round_trip(offs);
    lemma_text_blob_len(v);
    let oc = offset_checks(offs, b.len());
    let uc = utf8_checks(offs, b);
    assert forall|i: int| 0 <= i <= v.len() implies #[trigger] offs[i] == text_offset(v, i)
        && text_offset(v, i) <= b.len() by {
        lemma_text_offset_monotonic(v, i, v.len() as int);
    }
    assert forall|i: int| 0 <= i < offs.len() implies (#[trigger] oc(i)) is None by {
        assert(offs[i] <= b.len());
        if i > 0 {
            lemma_text_offset_monotonic(v, i - 1, i);
            assert(offs[i - 1] == text_offset(v, i - 1));
        }
    }
    faults::lemma_no_fault(offs.len(), oc);
    assert forall|i: int| 0 <= i < v.len() implies string_slice(offs, b, i) == #[trigger] text::utf8(
        v[i],
    ) by {
        lemma_text_blob(v, i);
        assert(offs[i] == text_offset(v, i) && offs[i + 1] == text_offset(v, i + 1));
    }
    assert forall|i: int| 0 <= i < v.len() implies (#[trigger] uc(i)) is None by {
        text::lemma_text_of_utf8(v[i]);
        assert(string_slice(offs, b, i) == text::utf8(v[i]));
    }
    faults::lemma_no_fault(v.len(), uc);
    assert forall|i: int| 0 <= i < v.len() implies text::text_of(string_slice(offs, b, i)) == v[i] by {
        text::lemma_text_of_utf8(v[i]);
        assert(string_slice(offs, b, i) == text::utf8(v[i]));
    }
    assert(dict_texts(o, b) =~= v);
}

/// Dictionary backed by offset and byte segments.
#[derive(Debug)]
pub struct MappedStringDictionary {
    offsets: U64View,
    bytes: Bytes,
}

impl View for MappedStringDictionary {
    type V = Seq<Seq<char>>;

    closed spec fn view(&self) -> Seq<Seq<char>> {
        dict_texts(self.offsets.raw(), outside::bytes_content(self.bytes))
    }
}

impl Clone for MappedStringDictionary {
    fn clone(&self) -> (r: Self)
        ensures
            r@ == self@,
            r.raw_offsets() == self.raw_offsets(),
            r.raw_bytes() == self.raw_bytes(),
    {
        proof {
            use_type_invariant(self);
        }
        MappedStringDictionary { offsets: self.offsets.clone(), bytes: self.bytes.clone() }
    }
}

impl MappedStringDictionary {
    #[verifier::type_invariant]
    spec fn inv(&self) -> bool {
        &&& dict_fault(self.offsets.raw(), outside::bytes_content(self.bytes)) is None
        &&& self.offsets@ == views::u64s_of(self.offsets.raw())
    }

    /// The offset table's bytes.
    pub closed spec fn raw_offsets(&self) -> Seq<u8> {
        self.offsets.raw()
    }

    /// The string bytes.
    pub closed spec fn raw_bytes(&self) -> Seq<u8> {
        outside::bytes_content(self.bytes)
    }

    /// A dictionary over an offset table and string bytes; every offset and
    /// every string is checked.
    #[verifier::loop_isolation(false)]
    pub fn new(offsets_bytes: Bytes, string_bytes: Bytes) -> (r: Result<Self, FormatError>)
        ensures
            r is Ok <==> dict_fault(outside::bytes_content(offsets_bytes), outside::bytes_content(string_bytes)) is None,
            r matches Ok(x) ==> x@ == dict_texts(
                outside::bytes_content(offsets_bytes),
                outside::bytes_content(string_bytes),
            ) && x.raw_offsets() == outside::bytes_content(offsets_bytes) && x.raw_bytes() == outside::bytes_content(
                string_bytes,
            ),
            r matches Err(e) ==> dict_fault(
                outside::bytes_content(offsets_bytes),
                outside::bytes_content(string_bytes),
            ) == Some(e),
    {
        let ghost o = outside::bytes_content(offsets_bytes);
        let ghost b = outside::bytes_content(string_bytes);
        let offsets = U64View::new(offsets_bytes)?;
        let ghost offs = offsets@;
        let n: usize = offsets.len();
        if n < 1 {
            return Err(FormatError::DictSentinel);
        }
        let blob: &[u8] = bytes_as_slice(&string_bytes);
        let blen: usize = blob.len();
        let ghost oc = offset_checks(offs, b.len());
        let ghost uc = utf8_checks(offs, b);
        let mut prev: u64 = 0;
        let mut i: usize = 0;
        while i < n
            invariant
                i <= n,
                n == offs.len(),
                offs == offsets@,
                blen == b.len(),
                oc == offset_checks(offs, b.len()),
                faults::first_fault(i as nat, oc) is None,
                faults::first_fault(n as nat, oc) is Some ==> dict_fault(o, b) == faults::first_fault(
                    n as nat,
                    oc,
                ),
                i > 0 ==> prev == offs[i - 1],
                i == 0 ==> prev == 0,
            decreases n - i,
        {
            proof {
                assert(oc(i as int) == offset_fault(offs, b.len(), i as int));
                if oc(i as int) is Some {
                    faults::lemma_first_fault_stays((i + 1) as nat, n as nat, oc);
                }
            }
            let off: u64 = offsets.get(i).unwrap();
            if off < prev {
                return Err(FormatError::DictOrder { index: i, offset: off, prev });
            }
            if off > blen as u64 {
                return Err(FormatError::DictRange { index: i, offset: off, blob: blen });
            }
            prev = off;
            i = i + 1;
        }
        proof {
            faults::lemma_no_fault(n as nat, oc);
        }
        let mut k: usize = 0;
        while k < n - 1
            invariant
                k <= n - 1,
                n == offs.len(),
                n >= 1,
                offs == offsets@,
                blob@ == b,
                uc == utf8_checks(offs, b),
                oc == offset_checks(offs, b.len()),
                forall|i: int| 0 <= i < n ==> (#[trigger] oc(i)) is None,
                faults::first_fault(k as nat, uc) is None,
                dict_fault(o, b) == faults::first_fault((n - 1) as nat, uc),
            decreases n - 1 - k,
        {
            proof {
                assert(oc(k as int) is None);
                assert(oc(k + 1) is None);
                assert(uc(k as int) == utf8_fault(offs, b, k as int));
                if uc(k as int) is Some {
                    faults::lemma_first_fault_stays((k + 1) as nat, (n - 1) as nat, uc);
                }
            }
            let start: usize = offsets.get(k).unwrap() as usize;
            let end: usize = offsets.get(k + 1).unwrap() as usize;
            let s: &[u8] = vstd::slice::slice_subrange(blob, start, end);
            assert(s@ == string_slice(offs, b, k as int));
            if decode_text(s).is_none() {
                return Err(FormatError::DictUtf8(k));
            }
            k = k + 1;
        }
        Ok(MappedStringDictionary { offsets, bytes: string_bytes })
    }

    /// A dictionary of no strings.
    pub fn empty() -> (r: Self)
        ensures
            r@ == Seq::<Seq<char>>::empty(),
    {
        let mut o: Vec<u8> = Vec::new();
        push_u64(&mut o, 0);
        let ghost v = Seq::<Seq<char>>::empty();
        proof {
            let offs = text_offsets(v);
            assert(offs =~= seq![0u64]);
            let f = |x: u64| wire::put64(x);
            assert(wire::flat(offs.drop_last(), f) =~= Seq::empty()) by {
                assert(offs.drop_last() =~= Seq::empty());
            }
            assert(offs.last() == 0u64);
            assert(views::bytes_of_u64s(offs) =~= o@);
            assert(text_blob(v) =~= Seq::empty());
            lemma_dict_round_trip(v);
            views::lemma_u64s_round_trip(offs);
        }
        let ob = bytes_from_vec(o);
        match U64View::new(ob) {
            Ok(offsets) => MappedStringDictionary { offsets, bytes: bytes_empty() },
            Err(_) => {
                assert(false);
                MappedStringDictionary { offsets: U64View::empty(), bytes: bytes_empty() }
            },
        }
    }

    /// Number of strings.
    pub fn len(&self) -> (r: usize)
        ensures
            r == self@.len(),
            8 * (r + 1) == self.raw_offsets().len(),
    {
        proof {
            use_type_invariant(self);
            lemma_dict_sound(self.offsets.raw(), outside::bytes_content(self.bytes));
        }
        self.offsets.len() - 1
    }

    /// True when there are no strings.
    pub fn is_empty(&self) -> (r: bool)
        ensures
            r == (self@.len() == 0),
    {
        self.len() == 0
    }

    /// Bytes of offsets and strings together.
    pub fn mapped_bytes(&self) -> (r: usize)
        requires
            self.raw_offsets().len() + self.raw_bytes().len() <= usize::MAX,
        ensures
            r == self.raw_offsets().len() + self.raw_bytes().len(),
    {
        self.offsets.byte_len() + bytes_as_slice(&self.bytes).len()
    }

    /// The string of a code.
    pub fn get(&self, code: u32) -> (r: Option<&str>)
        ensures
            r.is_some() == (code < self@.len()),
            r.is_some() ==> r->0@ == self@[code as int],
    {
        let idx: usize = code as usize;
        if idx >= self.len() {
            return None;
        }
        Some(self.text_at(idx))
    }

    /// The string at a position.
    fn text_at(&self, idx: usize) -> (r: &str)
        requires
            idx < self@.len(),
        ensures
            r@ == self@[idx as int],
    {
        proof {
            use_type_invariant(self);
            lemma_dict_sound(self.offsets.raw(), outside::bytes_content(self.bytes));
        }
        let ghost offs = self.offsets@;
        assert(offs[idx as int] <= offs[idx + 1]);
        assert(offs[idx + 1] <= outside::bytes_content(self.bytes).len());
        let blob: &[u8] = bytes_as_slice(&self.bytes);
        assert(blob@.len() == blob.len());
        let count: usize = self.offsets.len();
        assert(idx < count - 1);
        let start: usize = self.offsets.get(idx).unwrap() as usize;
        let end: usize = self.offsets.get(idx + 1).unwrap() as usize;
        let s: &[u8] = vstd::slice::slice_subrange(blob, start, end);
        assert(s@ == string_slice(offs, outside::bytes_content(self.bytes), idx as int));
        match decode_text(s) {
            Some(t) => t,
            None => {
                assert(false);
                ""
            },
        }
    }

    /// The first code of a string, by linear scan.
    pub fn encode(&self, value: &str) -> (r: Option<u32>)
        ensures
            match r {
                Some(c) => c < self@.len() && self@[c as int] == value@ && (forall|i: int|
                    0 <= i < c ==> #[trigger] self@[i] != value@),
                None => forall|i: int|
                    0 <= i < self@.len() && i <= u32::MAX ==> #[trigger] self@[i] != value@,
            },
    {
        let n: usize = self.len();
        let mut i: usize = 0;
        while i < n && i <= u32::MAX as usize
            invariant
                i <= n,
                n == self@.len(),
                forall|k: int| 0 <= k < i ==> #[trigger] self@[k] != value@,
            decreases n - i,
        {
            if text_eq(self.text_at(i), value) {
                return Some(i as u32);
            }
            i = i + 1;
        }
        None
    }

    /// The offset table's buffer.
    pub fn offsets_bytes(&self) -> (r: Bytes)
        ensures
            outside::bytes_content(r) == self.raw_offsets(),
    {
        self.offsets.bytes().clone()
    }

    /// The string bytes' buffer.
    pub fn string_bytes(&self) -> (r: Bytes)
        ensures
            outside::bytes_content(r) == self.raw_bytes(),
    {
        self.bytes.clone()
    }
}

/// Builds the offset and byte segments of a row of strings.
pub fn build_string_segments(strings: &[&str]) -> (r: (Vec<u8>, Vec<u8>))
    ensures
        r.0@ == views::bytes_of_u64s(text_offsets(text::str_texts(strings@))),
        r.1@ == text_blob(text::str_texts(strings@)),
{
    let ghost v = text::str_texts(strings@);
    let ghost f = |t: Seq<char>| text::utf8(t);
    let ghost g = |x: u64| wire::put64(x);
    let ghost offs = text_offsets(v);
    let mut offsets: Vec<u8> = Vec::new();
    let mut bytes: Vec<u8> = Vec::new();
    assert(v.take(0) =~= Seq::empty());
    assert(offs.take(0) =~= Seq::empty());
    let mut i: usize = 0;
    while i < strings.len()
        invariant
            i <= strings@.len(),
            v == text::str_texts(strings@),
            offs == text_offsets(v),
            f == |t: Seq<char>| text::utf8(t),
            g == |x: u64| wire::put64(x),
            offsets@ == wire::flat(offs.take(i as int), g),
            bytes@ == wire::flat(v.take(i as int), f),
            bytes@.len() == text_offset(v, i as int),
        decreases strings@.len() - i,
    {
        push_u64(&mut offsets, bytes.len() as u64);
        push_bytes(&mut bytes, strings[i].as_bytes());
        proof {
            wire::lemma_flat_push(offs.take(i as int), offs[i as int], g);
            assert(offs.take(i as int).push(offs[i as int]) =~= offs.take(i + 1));
            wire::lemma_flat_push(v.take(i as int), v[i as int], f);
            assert(v.take(i as int).push(v[i as int]) =~= v.take(i + 1));
        }
        i = i + 1;
    }
    push_u64(&mut offsets, bytes.len() as u64);
    proof {
        wire::lemma_flat_push(offs.take(i as int), offs[i as int], g);
        assert(offs.take(i as int).push(offs[i as int]) =~= offs);
        assert(v.take(i as int) =~= v);
    }
    (offsets, bytes)
}

} // verus!
