//! Dictionary code index: the way from a string to its code by binary search.
//!
//! A record is the string's offset (`u64`) and length (`u32`) in the string
//! bytes and its code (`u32`), 16 bytes; records are sorted by the strings'
//! UTF-8 bytes.

use crate::faults;
use crate::outside::bytes_as_slice;
use crate::outside;
use crate::sorting::sort_keys;
use crate::sorting;
use crate::string_dict::MappedStringDictionary;
use crate::string_dict;
use crate::text::{text_eq, text_less};
use crate::text;
use crate::wire::{bytes_to_vec, load_u32, load_u64, push_u32, push_u64};
use crate::wire;
use crate::error::FormatError;
use bytes::Bytes;
use vstd::prelude::*;
use vstd::relations::*;
use vstd::string::*;

verus! {

broadcast use wire::group_wire;

/// Width of one record.
pub const CODE_INDEX_RECORD_LEN: usize = 16;

/// The UTF-8 keys of some texts.
pub open spec fn text_keys(v: Seq<Seq<char>>) -> Seq<Seq<u8>> {
    Seq::new(v.len(), |i: int| text::utf8(v[i]))
}

/// The record of text `p`.
pub open spec fn code_record(v: Seq<Seq<char>>, p: int) -> Seq<u8> {
    wire::put64(string_dict::text_offset(v, p) as u64) + wire::put32(text::utf8(v[p]).len() as u32) + wire::put32(p as u32)
}

/// The code index of some texts, code `i` being text `i`.
pub open spec fn code_index_of(v: Seq<Seq<char>>) -> Seq<u8> {
    wire::flat(sorting::stable_order(text_keys(v)), |p: int| code_record(v, p))
}

/// The sizes that the records can hold.
pub open spec fn code_index_fits(v: Seq<Seq<char>>) -> bool {
    &&& v.len() <= u32::MAX
    &&& string_dict::text_offset(v, v.len() as int) <= u64::MAX
    &&& forall|i: int| 0 <= i < v.len() ==> text::utf8(#[trigger] v[i]).len() <= u32::MAX
}

/// Offset, length and code in record `i` of some bytes.
pub open spec fn code_record_at(d: Seq<u8>, i: int) -> (u64, u32, u32) {
    (wire::u64_at(d, i * 16), wire::u32_at(d, i * 16 + 8), wire::u32_at(d, i * 16 + 12))
}

/// Builds the code index of a row of strings.
pub fn build_dictionary_code_index(strings: &[&str]) -> (r: Vec<u8>)
    requires
        code_index_fits(text::str_texts(strings@)),
    ensures
        r@ == code_index_of(text::str_texts(strings@)),
{
    let ghost v = text::str_texts(strings@);
    let n: usize = strings.len();
    let mut keys: Vec<Vec<u8>> = Vec::with_capacity(n);
    let mut offsets: Vec<u64> = Vec::with_capacity(n);
    let mut offset: u64 = 0;
    let mut i: usize = 0;
    while i < n
        invariant
            i <= n,
            n == strings@.len(),
            v == text::str_texts(strings@),
            code_index_fits(v),
            offset == string_dict::text_offset(v, i as int),
            keys@.len() == i,
            offsets@.len() == i,
            forall|k: int| 0 <= k < i ==> (#[trigger] keys@[k])@ == text::utf8(v[k]),
            forall|k: int| 0 <= k < i ==> #[trigger] offsets@[k] == string_dict::text_offset(v, k),
        decreases n - i,
    {
        let bytes: &[u8] = strings[i].as_bytes();
        assert(bytes@ == text::utf8(v[i as int]));
        proof {
            lemma_offset_bound(v, i + 1);
        }
        keys.push(bytes_to_vec(bytes));
        offsets.push(offset);
        offset = offset + bytes.len() as u64;
        i = i + 1;
    }
    let order: Vec<usize> = sort_keys(keys.as_slice());
    let ghost kb = text_keys(v);
    assert(sorting::key_bytes(keys@) =~= kb);
    let ghost so = sorting::stable_order(kb);
    let ghost f = |p: int| code_record(v, p);
    let mut out: Vec<u8> = Vec::with_capacity(0);
    assert(so.take(0) =~= Seq::empty());
    let mut j: usize = 0;
    while j < n
        invariant
            j <= n,
            n == strings@.len(),
            n == v.len(),
            v == text::str_texts(strings@),
            code_index_fits(v),
            so == sorting::stable_order(kb),
            sorting::as_ints(order@) == so,
            order@.len() == n,
            keys@.len() == n,
            offsets@.len() == n,
            forall|i: int| 0 <= i < order@.len() ==> (#[trigger] order@[i]) < n,
            forall|k: int| 0 <= k < n ==> (#[trigger] keys@[k])@ == text::utf8(v[k]),
            forall|k: int| 0 <= k < n ==> #[trigger] offsets@[k] == string_dict::text_offset(v, k),
            f == |p: int| code_record(v, p),
            out@ == wire::flat(so.take(j as int), f),
        decreases n - j,
    {
        let p: usize = order[j];
        assert(so[j as int] == p);
        assert(text::utf8(v[p as int]).len() <= u32::MAX);
        push_u64(&mut out, offsets[p]);
        push_u32(&mut out, keys[p].len() as u32);
        push_u32(&mut out, p as u32);
        proof {
            wire::lemma_flat_push(so.take(j as int), so[j as int], f);
            assert(so.take(j as int).push(so[j as int]) =~= so.take(j + 1));
            assert(out@ =~= wire::flat(so.take(j as int), f) + code_record(v, p as int));
        }
        j = j + 1;
    }
    assert(so.take(n as int) =~= so);
    out
}

proof fn lemma_offset_bound(v: Seq<Seq<char>>, i: int)
    requires
        0 <= i <= v.len(),
    ensures
        string_dict::text_offset(v, i) <= string_dict::text_offset(v, v.len() as int),
    decreases v.len() - i,
{
    if i < v.len() {
        lemma_offset_bound(v, i + 1);
    }
}

/// What is wrong with record `i` of a code index over a dictionary of `texts`
/// whose bytes are `blob` long.
pub open spec fn code_fault(
    d: Seq<u8>,
    dict: Seq<Seq<char>>,
    blob: nat,
    i: int,
) -> Option<FormatError> {
    let (off, len, code) = code_record_at(d, i);
    let prev = code_record_at(d, i - 1).2;
    if off + len > u64::MAX {
        Some(FormatError::CodeIndexOverflow)
    } else if off + len > blob {
        Some(FormatError::CodeIndexRange)
    } else if code >= dict.len() {
        Some(FormatError::CodeIndexCode(code))
    } else if text::utf8(dict[code as int]).len() != len {
        Some(
            FormatError::CodeIndexTextLen {
                length: len,
                text: text::utf8(dict[code as int]).len() as usize,
                code,
            },
        )
    } else if i > 0 && text::text_lt(dict[code as int], dict[prev as int]) {
        Some(FormatError::CodeIndexOrder)
    } else {
        None
    }
}

/// The record checks by index.
pub open spec fn code_checks(d: Seq<u8>, dict: Seq<Seq<char>>, blob: nat) -> spec_fn(int) -> Option<
    FormatError,
> {
    |i: int| code_fault(d, dict, blob, i)
}

/// The first thing that is wrong with a code index.
pub open spec fn code_index_fault(
    d: Seq<u8>,
    dict: Seq<Seq<char>>,
    blob: nat,
) -> Option<FormatError> {
    if d.len() % 16 != 0 {
        Some(FormatError::CodeIndexLength(d.len() as usize))
    } else if d.len() / 16 != dict.len() {
        Some(
            FormatError::CodeIndexCount {
                count: (d.len() / 16) as usize,
                dict: dict.len() as usize,
            },
        )
    } else {
        faults::first_fault(dict.len(), code_checks(d, dict, blob))
    }
}

/// The codes of an index name strings of `dict`, in ascending order.
pub open spec fn codes_sorted(codes: Seq<u32>, dict: Seq<Seq<char>>) -> bool {
    &&& forall|i: int| 0 <= i < codes.len() ==> (#[trigger] codes[i]) < dict.len()
    &&& forall|i: int, j: int|
        0 <= i < j < codes.len() ==> !text::text_lt(
            dict[#[trigger] codes[j] as int],
            dict[#[trigger] codes[i] as int],
        )
}

/// The codes in record order.
pub open spec fn codes_of(d: Seq<u8>) -> Seq<u32> {
    Seq::new(d.len() / 16, |i: int| code_record_at(d, i).2)
}

proof fn lemma_not_lt_transitive(a: Seq<char>, b: Seq<char>, c: Seq<char>)
    requires
        !text::text_lt(b, a),
        !text::text_lt(c, b),
    ensures
        !text::text_lt(c, a),
{
    wire::lemma_lex_total(text::utf8(a), text::utf8(b));
    wire::lemma_lex_total(text::utf8(b), text::utf8(c));
    if text::text_lt(c, a) {
        if text::utf8(a) != text::utf8(b) {
            wire::lemma_lex_transitive(text::utf8(c), text::utf8(a), text::utf8(b));
        }
    }
}

/// Binary-searchable code index.
#[derive(Debug)]
pub struct DictionaryCodeIndex {
    data: Bytes,
}

impl View for DictionaryCodeIndex {
    type V = Seq<u32>;

    closed spec fn view(&self) -> Seq<u32> {
        codes_of(outside::bytes_content(self.data))
    }
}

impl Clone for DictionaryCodeIndex {
    fn clone(&self) -> (r: Self)
        ensures
            r@ == self@,
            r.raw() == self.raw(),
    {
        DictionaryCodeIndex { data: self.data.clone() }
    }
}

impl DictionaryCodeIndex {
    /// The bytes of the index.
    pub closed spec fn raw(&self) -> Seq<u8> {
        outside::bytes_content(self.data)
    }

    /// Parses and checks a code index against its dictionary.
    #[verifier::loop_isolation(false)]
    pub fn new(data: Bytes, dict: &MappedStringDictionary) -> (r: Result<Self, FormatError>)
        ensures
            r is Ok <==> code_index_fault(outside::bytes_content(data), dict@, dict.raw_bytes().len()) is None,
            r matches Ok(x) ==> x.raw() == outside::bytes_content(data) && x@ == codes_of(
                outside::bytes_content(data),
            ) && codes_sorted(x@, dict@),
            r matches Err(e) ==> code_index_fault(
                outside::bytes_content(data),
                dict@,
                dict.raw_bytes().len(),
            ) == Some(e),
    {
        let d: &[u8] = bytes_as_slice(&data);
        let n: usize = d.len();
        if n % 16 != 0 {
            return Err(FormatError::CodeIndexLength(n));
        }
        let count: usize = n / 16;
        let dict_len: usize = dict.len();
        if count != dict_len {
            return Err(FormatError::CodeIndexCount { count, dict: dict_len });
        }
        let blob_bytes = dict.string_bytes();
        let blob: usize = bytes_as_slice(&blob_bytes).len();
        let ghost checks = code_checks(d@, dict@, blob as nat);
        let ghost codes = codes_of(d@);
        let mut prev_code: u32 = 0;
        let mut i: usize = 0;
        while i < count
            invariant
                i <= count,
                faults::first_fault(i as nat, checks) is None,
                forall|k: int| 0 <= k < i ==> (#[trigger] codes[k]) < dict@.len(),
                forall|a: int, b: int|
                    0 <= a < b < i ==> !text::text_lt(
                        dict@[#[trigger] codes[b] as int],
                        dict@[#[trigger] codes[a] as int],
                    ),
                i > 0 ==> prev_code == codes[i - 1],
            decreases count - i,
        {
            proof {
                assert(checks(i as int) == code_fault(d@, dict@, blob as nat, i as int));
                if checks(i as int) is Some {
                    faults::lemma_first_fault_stays((i + 1) as nat, count as nat, checks);
                }
            }
            let off: u64 = load_u64(d, i * 16);
            let len: u32 = load_u32(d, i * 16 + 8);
            let code: u32 = load_u32(d, i * 16 + 12);
            assert(codes[i as int] == code);
            let end: u64 = match off.checked_add(len as u64) {
                Some(end) => end,
                None => {
                    return Err(FormatError::CodeIndexOverflow);
                },
            };
            if end > blob as u64 {
                return Err(FormatError::CodeIndexRange);
            }
            let s: &str = match dict.get(code) {
                Some(s) => s,
                None => {
                    return Err(FormatError::CodeIndexCode(code));
                },
            };
            let text_len: usize = s.as_bytes().len();
            if text_len as u64 != len as u64 {
                return Err(FormatError::CodeIndexTextLen { length: len, text: text_len, code });
            }
            if i > 0 {
                let p: &str = dict.get(prev_code).unwrap();
                if text_less(s, p) {
                    return Err(FormatError::CodeIndexOrder);
                }
                proof {
                    assert forall|a: int| 0 <= a < i implies !text::text_lt(
                        dict@[code as int],
                        dict@[#[trigger] codes[a] as int],
                    ) by {
                        if a < i - 1 {
                            assert(!text::text_lt(dict@[codes[i - 1] as int], dict@[codes[a] as int]));
                            lemma_not_lt_transitive(
                                dict@[codes[a] as int],
                                dict@[codes[i - 1] as int],
                                dict@[code as int],
                            );
                        }
                    }
                }
            }
            prev_code = code;
            i = i + 1;
        }
        Ok(DictionaryCodeIndex { data })
    }

    /// The code of a string. A code found names the string; in the dictionary
    /// the index was checked against, a string that any record names is found.
    pub fn lookup(&self, dict: &MappedStringDictionary, value: &str) -> (r: Option<u32>)
        ensures
            r matches Some(c) ==> c < dict@.len() && dict@[c as int] == value@ && self@.contains(c),
            codes_sorted(self@, dict@) && (exists|i: int|
                0 <= i < self@.len() && dict@[#[trigger] self@[i] as int] == value@)
                ==> r is Some,
    {
        let d: &[u8] = bytes_as_slice(&self.data);
        let count: usize = d.len() / 16;
        let ghost codes = self@;
        assert(codes == codes_of(d@));
        let ghost sorted = codes_sorted(codes, dict@);
        let mut lo: usize = 0;
        let mut hi: usize = count;
        while lo < hi
            invariant
                lo <= hi <= count,
                count * 16 <= d@.len() <= usize::MAX,
                count == codes.len(),
                codes == codes_of(d@),
                codes == self@,
                sorted == codes_sorted(codes, dict@),
                sorted ==> forall|i: int|
                    0 <= i < lo ==> text::text_lt(dict@[#[trigger] codes[i] as int], value@),
                sorted ==> forall|i: int|
                    hi <= i < count ==> text::text_lt(value@, dict@[#[trigger] codes[i] as int]),
            decreases hi - lo,
        {
            let mid: usize = lo + (hi - lo) / 2;
            let code: u32 = load_u32(d, mid * 16 + 12);
            assert(codes[mid as int] == code);
            let s: &str = match dict.get(code) {
                Some(s) => s,
                None => {
                    return None;
                },
            };
            if text_eq(s, value) {
                return Some(code);
            }
            proof {
                wire::lemma_lex_total(text::utf8(s@), text::utf8(value@));
                if text::utf8(s@) == text::utf8(value@) {
                    text::lemma_utf8_injective(s@, value@);
                }
            }
            if text_less(s, value) {
                proof {
                    if sorted {
                        assert forall|i: int| 0 <= i < mid + 1 implies text::text_lt(
                            dict@[#[trigger] codes[i] as int],
                            value@,
                        ) by {
                            if i < mid {
                                let t = dict@[codes[i] as int];
                                assert(!text::text_lt(dict@[codes[mid as int] as int], t));
                                wire::lemma_lex_total(text::utf8(t), text::utf8(s@));
                                if text::utf8(t) != text::utf8(s@) {
                                    wire::lemma_lex_transitive(text::utf8(t), text::utf8(s@), text::utf8(value@));
                                }
                            }
                        }
                    }
                }
                lo = mid + 1;
            } else {
                proof {
                    if sorted {
                        assert forall|i: int| mid <= i < count implies text::text_lt(
                            value@,
                            dict@[#[trigger] codes[i] as int],
                        ) by {
                            if i > mid {
                                let t = dict@[codes[i] as int];
                                assert(!text::text_lt(t, dict@[codes[mid as int] as int]));
                                wire::lemma_lex_total(text::utf8(t), text::utf8(s@));
                                if text::utf8(t) != text::utf8(s@) {
                                    wire::lemma_lex_transitive(text::utf8(value@), text::utf8(s@), text::utf8(t));
                                }
                            }
                        }
                    }
                }
                hi = mid;
            }
        }
        proof {
            wire::lemma_lex_irreflexive(text::utf8(value@));
        }
        None
    }

    /// Byte length.
    pub fn mapped_bytes(&self) -> (r: usize)
        ensures
            r == self.raw().len(),
    {
        bytes_as_slice(&self.data).len()
    }

    /// The buffer of the index.
    pub fn bytes(&self) -> (r: Bytes)
        ensures
            outside::bytes_content(r) == self.raw(),
    {
        self.data.clone()
    }
}

/// The code index has a record for every text.
pub proof fn lemma_code_index_len(v: Seq<Seq<char>>)
    ensures
        code_index_of(v).len() == 16 * v.len(),
{
    sorting::lemma_stable_order(text_keys(v));
    wire::lemma_flat_len(sorting::stable_order(text_keys(v)), |p: int| code_record(v, p), 16);
}

/// The index built from some texts is sound for their dictionary, and names
/// every one of their codes.
pub proof fn lemma_code_index_round_trip(v: Seq<Seq<char>>)
    requires
        code_index_fits(v),
    ensures
        code_index_of(v).len() == 16 * v.len(),
        code_index_fault(code_index_of(v), v, string_dict::text_blob(v).len()) is None,
        codes_sorted(codes_of(code_index_of(v)), v),
        forall|c: u32| c < v.len() ==> #[trigger] codes_of(code_index_of(v)).contains(c),
{
    let kb = text_keys(v);
    let so = sorting::stable_order(kb);
    let f = |p: int| code_record(v, p);
    let d = code_index_of(v);
    sorting::lemma_stable_order(kb);
    wire::lemma_flat_len(so, f, 16);
    assert forall|i: int| 0 <= i < v.len() implies #[trigger] code_record_at(d, i) == (
        string_dict::text_offset(v, so[i]) as u64,
        text::utf8(v[so[i]]).len() as u32,
        so[i] as u32,
    ) by {
        wire::lemma_flat_at(so, f, 16, i);
        let rec = code_record(v, so[i]);
        assert(d.subrange(i * 16, i * 16 + 8) =~= rec.subrange(0, 8));
        assert(d.subrange(i * 16 + 8, i * 16 + 12) =~= rec.subrange(8, 12));
        assert(d.subrange(i * 16 + 12, i * 16 + 16) =~= rec.subrange(12, 16));
        assert(rec.subrange(0, 8) =~= wire::put64(string_dict::text_offset(v, so[i]) as u64));
        assert(rec.subrange(8, 12) =~= wire::put32(text::utf8(v[so[i]]).len() as u32));
        assert(rec.subrange(12, 16) =~= wire::put32(so[i] as u32));
    }
    let checks = code_checks(d, v, string_dict::text_blob(v).len());
    let leq = sorting::key_leq(kb);
    assert forall|i: int, j: int| 0 <= i < j < v.len() implies !text::text_lt(
        v[#[trigger] so[j]],
        v[#[trigger] so[i]],
    ) by {
        assert(leq(so[i], so[j]));
        wire::lemma_lex_total(kb[so[i]], kb[so[j]]);
        wire::lemma_lex_irreflexive(kb[so[i]]);
    }
    assert forall|i: int| 0 <= i < v.len() implies (#[trigger] checks(i)) is None by {
        string_dict::lemma_text_blob(v, so[i]);
        assert(code_record_at(d, i).2 == so[i] as u32);
        lemma_offset_bound(v, so[i] + 1);
        assert(text::utf8(v[so[i]]).len() <= u32::MAX);
        if i > 0 {
            assert(code_record_at(d, i - 1).2 == so[i - 1] as u32);
            assert(!text::text_lt(v[so[i]], v[so[i - 1]]));
        }
    }
    faults::lemma_no_fault(v.len(), checks);
    let codes = codes_of(d);
    assert forall|i: int| 0 <= i < v.len() implies (#[trigger] codes[i]) == so[i] by {
        assert(code_record_at(d, i).2 == so[i] as u32);
    }
    assert forall|c: u32| c < v.len() implies #[trigger] codes.contains(c) by {
        assert(so.contains(c as int));
        let k = choose|k: int| 0 <= k < so.len() && so[k] == c as int;
        assert(codes[k] == c);
    }
}

} // verus!
