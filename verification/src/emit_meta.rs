//! Little-endian writers and codec codes of the emission stage.

use crate::wire::{push_u16, push_u32, push_u64};
use crate::wire;
use vstd::prelude::*;

verus! {

/// Appends a little-endian `u16`.
pub fn w16(buf: &mut Vec<u8>, v: u16)
    ensures
        final(buf)@ == old(buf)@ + wire::put16(v),
{
    push_u16(buf, v)
}

/// Appends a little-endian `u32`.
pub fn w32(buf: &mut Vec<u8>, v: u32)
    ensures
        final(buf)@ == old(buf)@ + wire::put32(v),
{
    push_u32(buf, v)
}

/// Appends a little-endian `u64`.
pub fn w64(buf: &mut Vec<u8>, v: u64)
    ensures
        final(buf)@ == old(buf)@ + wire::put64(v),
{
    push_u64(buf, v)
}

/// How a column is stored.
#[derive(Debug, Clone, Copy, PartialEq, Eq, Structural)]
pub enum CodecKind {
    /// Bit-packed unsigned integers.
    BitPacked,
    /// Dictionary codes of texts.
    Dict,
    /// A bitmap of truth values.
    Bitmap,
    /// Signed integers.
    RawI64,
    /// Floats.
    Float64,
    /// Rows of 32-bit floats.
    Float32Vector,
}

/// The code of a codec.
pub open spec fn codec_code(k: CodecKind) -> u16 {
    match k {
        CodecKind::BitPacked => 0,
        CodecKind::Dict => 1,
        CodecKind::Bitmap => 2,
        CodecKind::Float64 => 4,
        CodecKind::Float32Vector => 5,
        CodecKind::RawI64 => 6,
    }
}

impl CodecKind {
    /// The codec code.
    pub fn disc(self) -> (r: u16)
        ensures
            r == codec_code(self),
    {
        match self {
            CodecKind::BitPacked => 0,
            CodecKind::Dict => 1,
            CodecKind::Bitmap => 2,
            CodecKind::Float64 => 4,
            CodecKind::Float32Vector => 5,
            CodecKind::RawI64 => 6,
        }
    }

    /// The value-type code, which is the codec code.
    pub fn value_type(self) -> (r: u16)
        ensures
            r == codec_code(self),
    {
        self.disc()
    }
}

} // verus!
