//! The calls into other crates and into the parts of std that carry no
//! specification of their own. Every contract in this file is believed
//! without proof; nothing else in the library is.

use arcstr::ArcStr;
use bytes::Bytes;
use vstd::prelude::*;
use vstd::string::*;
use vstd::utf8::*;

verus! {

/// `bytes::Bytes`, a reference-counted immutable byte buffer. Opaque: what a
/// value holds is spoken of through [`bytes_content`] only.
#[verifier::external_type_specification]
#[verifier::external_body]
pub struct ExBytes(bytes::Bytes);

/// The bytes that a buffer holds.
pub uninterp spec fn bytes_content(b: Bytes) -> Seq<u8>;

/// `Bytes::from(Vec<u8>)`: the buffer holds the bytes of the vector.
#[verifier::external_body]
pub(crate) fn bytes_from_vec(v: Vec<u8>) -> (b: Bytes)
    ensures
        bytes_content(b) == v@,
{
    Bytes::from(v)
}

/// `Bytes::new()`: a buffer that holds nothing.
#[verifier::external_body]
pub(crate) fn bytes_empty() -> (b: Bytes)
    ensures
        bytes_content(b) == Seq::<u8>::empty(),
{
    Bytes::new()
}

/// `Bytes::as_ref`: the held bytes as a slice.
#[verifier::external_body]
pub(crate) fn bytes_as_slice(b: &Bytes) -> (s: &[u8])
    ensures
        s@ == bytes_content(*b),
{
    b.as_ref()
}

/// `Bytes::slice` on a range inside the buffer: the sub-buffer holds that
/// range. Out of range it panics, so the range is required to lie inside.
#[verifier::external_body]
pub(crate) fn bytes_slice(b: &Bytes, start: usize, end: usize) -> (r: Bytes)
    requires
        start <= end <= bytes_content(*b).len(),
    ensures
        bytes_content(r) == bytes_content(*b).subrange(start as int, end as int),
{
    b.slice(start..end)
}

/// `Bytes::clone`: another handle on the same bytes.
pub assume_specification[ <Bytes as Clone>::clone ](b: &Bytes) -> (r: Bytes)
    ensures
        bytes_content(r) == bytes_content(*b),
;

/// `arcstr::ArcStr`, a reference-counted immutable text. Opaque: what a value
/// spells is spoken of through [`arc_text`] only.
#[verifier::external_type_specification]
#[verifier::external_body]
pub struct ExArcStr(arcstr::ArcStr);

/// The text that a shared text holds.
pub uninterp spec fn arc_text(s: ArcStr) -> Seq<char>;

/// `ArcStr::as_str`: the held text.
#[verifier::external_body]
pub(crate) fn arc_as_str(s: &ArcStr) -> (r: &str)
    ensures
        r@ == arc_text(*s),
{
    s.as_str()
}

/// The CRC-32 (IEEE) checksum that `crc32fast::hash` computes of some bytes.
pub uninterp spec fn crc32_of(data: Seq<u8>) -> u32;

/// `crc32fast::hash`: a function of the bytes alone.
#[verifier::external_body]
pub(crate) fn crc32(data: &[u8]) -> (r: u32)
    ensures
        r == crc32_of(data@),
{
    crc32fast::hash(data)
}

/// `std::str::from_utf8`: succeeds exactly on valid UTF-8, and the text then
/// has the given bytes as its encoding.
#[verifier::external_body]
pub(crate) fn utf8_text<'a>(v: &'a [u8]) -> (r: Option<&'a str>)
    ensures
        r.is_some() == valid_utf8(v@),
        r.is_some() ==> r->0.spec_bytes() == v@,
{
    std::str::from_utf8(v).ok()
}

} // verus!
