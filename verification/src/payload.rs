//! Assembly of a payload from its segments.
//!
//! A payload is the header, the directory, the segment bodies at their
//! alignments with zero padding between them, and a trailing CRC-32 of all
//! that. What is assembled here parses back: see
//! [`lemma_assembled_payload_parses`].

use crate::directory::{FORMAT_VERSION_V5, REQUIRES_COLUMN_NULL, REQUIRES_COLUMN_PRESENCE, REQUIRES_LABEL_MEMBERSHIP, SegmentEntry, SegmentKind, V5Header};
use crate::directory;
use crate::faults;
use crate::outside::crc32;
use crate::outside;
use crate::wire::{push_bytes, push_u16, push_u32, push_u64};
use crate::wire;
use crate::error::FormatError;
use vstd::prelude::*;

verus! {

broadcast use wire::group_wire;

/// One segment to be written.
#[derive(Debug)]
pub struct Segment {
    /// Segment kind.
    pub kind: SegmentKind,
    /// Per-kind encoding version.
    pub encoding_version: u16,
    /// Flags (bit 0 = required).
    pub flags: u16,
    /// Alignment of the body in the payload.
    pub alignment: u16,
    /// Element width, or 0 for variable.
    pub element_width: u32,
    /// The segment's bytes.
    pub body: Vec<u8>,
}

/// A segment as a value.
pub struct SegmentView {
    /// Segment kind.
    pub kind: SegmentKind,
    /// Per-kind encoding version.
    pub encoding_version: u16,
    /// Flags (bit 0 = required).
    pub flags: u16,
    /// Alignment of the body in the payload.
    pub alignment: u16,
    /// Element width, or 0 for variable.
    pub element_width: u32,
    /// The segment's bytes.
    pub body: Seq<u8>,
}

impl View for Segment {
    type V = SegmentView;

    open spec fn view(&self) -> SegmentView {
        SegmentView {
            kind: self.kind,
            encoding_version: self.encoding_version,
            flags: self.flags,
            alignment: self.alignment,
            element_width: self.element_width,
            body: self.body@,
        }
    }
}

/// The segments of a row, as values.
pub open spec fn segment_views(v: Seq<Segment>) -> Seq<SegmentView> {
    Seq::new(v.len(), |i: int| v[i]@)
}

/// A required segment of encoding version 1.
pub open spec fn required_segment(
    kind: SegmentKind,
    alignment: u16,
    element_width: u32,
    body: Seq<u8>,
) -> SegmentView {
    SegmentView { kind, encoding_version: 1, flags: 1, alignment, element_width, body }
}

/// A required segment of encoding version 1.
pub fn make_segment(kind: SegmentKind, alignment: u16, element_width: u32, body: Vec<u8>) -> (r:
    Segment)
    ensures
        r@ == required_segment(kind, alignment, element_width, body@),
{
    Segment { kind, encoding_version: 1, flags: 1, alignment, element_width, body }
}

/// An alignment that a segment may have.
pub open spec fn alignment_ok(a: u16) -> bool {
    a == 1 || a == 2 || a == 4 || a == 8 || a == 16
}

/// The least multiple of `align` at or above `value`.
pub open spec fn aligned(value: int, align: int) -> int {
    (value + align - 1) / align * align
}

proof fn lemma_aligned_const(value: int, align: int)
    requires
        value >= 0,
        align == 1 || align == 2 || align == 4 || align == 8 || align == 16,
    ensures
        value <= aligned(value, align) < value + align,
        aligned(value, align) % align == 0,
{
    let q = (value + align - 1) / align;
    if align == 1 {
        assert(q * align == q) by (nonlinear_arith)
            requires
                align == 1,
        ;
    } else if align == 2 {
        assert(q * align == 2 * q) by (nonlinear_arith)
            requires
                align == 2,
        ;
    } else if align == 4 {
        assert(q * align == 4 * q) by (nonlinear_arith)
            requires
                align == 4,
        ;
    } else if align == 8 {
        assert(q * align == 8 * q) by (nonlinear_arith)
            requires
                align == 8,
        ;
    } else {
        assert(q * align == 16 * q) by (nonlinear_arith)
            requires
                align == 16,
        ;
    }
}

/// Rounds up to a multiple of a power of two: the result is a multiple, not
/// below the value, and less than one step above it.
pub proof fn lemma_aligned(value: int, align: int)
    requires
        value >= 0,
        align > 0,
    ensures
        value <= aligned(value, align) < value + align,
        aligned(value, align) % align == 0,
{
    let x = value + align - 1;
    vstd::arithmetic::div_mod::lemma_fundamental_div_mod(x, align);
    vstd::arithmetic::mul::lemma_mul_is_commutative(align, x / align);
    vstd::arithmetic::div_mod::lemma_mod_multiples_basic(x / align, align);
    assert(0 <= x % align < align) by (nonlinear_arith)
        requires
            align > 0,
    ;
}

/// Rounds up to a multiple of `align`.
pub fn align_up(value: u64, align: u64) -> (r: u64)
    requires
        align > 0,
        value + align - 1 <= u64::MAX,
    ensures
        r == aligned(value as int, align as int),
{
    let x: u64 = value + (align - 1);
    proof {
        lemma_aligned(value as int, align as int);
        vstd::arithmetic::div_mod::lemma_fundamental_div_mod(x as int, align as int);
        vstd::arithmetic::mul::lemma_mul_is_commutative(align as int, x as int / align as int);
        assert(0 <= x as int % align as int) by (nonlinear_arith)
            requires
                align > 0,
        ;
    }
    x / align * align
}

/// Where the first `n` segments end, data starting at `start`.
pub open spec fn segments_end(s: Seq<SegmentView>, start: int, n: int) -> int
    decreases n,
{
    if n <= 0 {
        start
    } else {
        aligned(segments_end(s, start, n - 1), s[n - 1].alignment as int) + s[n - 1].body.len()
    }
}

/// Where segment `i` starts.
pub open spec fn segment_start(s: Seq<SegmentView>, start: int, i: int) -> int {
    aligned(segments_end(s, start, i), s[i].alignment as int)
}

/// `n` zero bytes.
pub open spec fn zeros(n: int) -> Seq<u8> {
    Seq::new(n as nat, |i: int| 0u8)
}

/// The bodies of the first `n` segments at their places.
pub open spec fn segments_data(s: Seq<SegmentView>, start: int, n: int) -> Seq<u8>
    decreases n,
{
    if n <= 0 {
        Seq::empty()
    } else {
        segments_data(s, start, n - 1) + zeros(
            segment_start(s, start, n - 1) - segments_end(s, start, n - 1),
        ) + s[n - 1].body
    }
}

/// The directory entry of segment `i`.
pub open spec fn segment_entry(s: Seq<SegmentView>, start: int, i: int) -> SegmentEntry {
    SegmentEntry {
        kind: s[i].kind,
        encoding_version: s[i].encoding_version,
        flags: s[i].flags,
        alignment: s[i].alignment,
        offset: segment_start(s, start, i) as u64,
        length: s[i].body.len() as u64,
        element_width: s[i].element_width,
        element_count: (if s[i].element_width > 0 {
            (s[i].body.len() / s[i].element_width as nat) as u32
        } else {
            0
        }),
        crc32: outside::crc32_of(s[i].body),
    }
}

/// The bytes of a directory entry.
pub open spec fn entry_bytes(e: SegmentEntry) -> Seq<u8> {
    wire::put16(directory::kind_code(e.kind)) + wire::put16(e.encoding_version) + wire::put16(e.flags) + wire::put16(e.alignment)
        + wire::put64(e.offset) + wire::put64(e.length) + wire::put32(e.element_width) + wire::put32(e.element_count)
        + wire::put32(e.crc32) + wire::put32(0) + wire::put64(0)
}

/// Where data starts behind `n` directory entries.
pub open spec fn data_start(n: int) -> int {
    64 + 48 * n
}

/// The entries of a payload's directory.
pub open spec fn segment_entries(s: Seq<SegmentView>) -> Seq<SegmentEntry> {
    Seq::new(s.len(), |i: int| segment_entry(s, data_start(s.len() as int), i))
}

/// The bytes of a payload's directory.
pub open spec fn directory_image(s: Seq<SegmentView>) -> Seq<u8> {
    wire::flat(segment_entries(s), |e: SegmentEntry| entry_bytes(e))
}

/// The layout flags of a payload: one bit for each companion it carries.
pub open spec fn companion_flags(membership: bool, presence: bool, null: bool) -> u32 {
    ((if membership {
        1int
    } else {
        0
    }) + (if presence {
        2int
    } else {
        0
    }) + (if null {
        4int
    } else {
        0
    })) as u32
}

/// Some segment has the kind.
pub open spec fn has_kind(s: Seq<SegmentView>, kind: SegmentKind) -> bool {
    exists|i: int| 0 <= i < s.len() && (#[trigger] s[i]).kind == kind
}

/// The layout flags of a row of segments.
pub open spec fn layout_flags_of(s: Seq<SegmentView>) -> u32 {
    companion_flags(
        has_kind(s, SegmentKind::NodeLabelMembership),
        has_kind(s, SegmentKind::ColumnRowPresence),
        has_kind(s, SegmentKind::ColumnRowNull),
    )
}

/// The first half of a payload's header.
pub open spec fn header_front(s: Seq<SegmentView>, flags: u8) -> Seq<u8> {
    directory::magic() + seq![5u8, flags] + wire::put16(64) + wire::put16(s.len() as u16) + wire::put16(48) + wire::put32(
        layout_flags_of(s),
    ) + wire::put64(64)
}

/// The second half of a payload's header.
pub open spec fn header_back(s: Seq<SegmentView>, total_nodes: u64, total_edges: u64) -> Seq<u8> {
    wire::put64((48 * s.len()) as u64) + wire::put64(data_start(s.len() as int) as u64) + wire::put64(total_nodes)
        + wire::put64(total_edges) + wire::put32(outside::crc32_of(directory_image(s))) + wire::put32(0)
}

/// The header of a payload.
pub open spec fn header_image(
    s: Seq<SegmentView>,
    flags: u8,
    total_nodes: u64,
    total_edges: u64,
) -> Seq<u8> {
    header_front(s, flags) + header_back(s, total_nodes, total_edges)
}

/// A payload without its trailing checksum.
pub open spec fn payload_body(
    s: Seq<SegmentView>,
    flags: u8,
    total_nodes: u64,
    total_edges: u64,
) -> Seq<u8> {
    header_image(s, flags, total_nodes, total_edges) + directory_image(s) + segments_data(
        s,
        data_start(s.len() as int),
        s.len() as int,
    )
}

/// A whole payload.
pub open spec fn payload_image(
    s: Seq<SegmentView>,
    flags: u8,
    total_nodes: u64,
    total_edges: u64,
) -> Seq<u8> {
    let body = payload_body(s, flags, total_nodes, total_edges);
    body + wire::put32(outside::crc32_of(body))
}

/// The layout flags that the companions of a payload ask for.
pub fn from_companion_segments(membership: bool, presence: bool, null: bool) -> (r: u32)
    ensures
        r == companion_flags(membership, presence, null),
{
    let a: u32 = if membership {
        REQUIRES_LABEL_MEMBERSHIP
    } else {
        0
    };
    let b: u32 = if presence {
        REQUIRES_COLUMN_PRESENCE
    } else {
        0
    };
    let c: u32 = if null {
        REQUIRES_COLUMN_NULL
    } else {
        0
    };
    a + b + c
}

/// Flag `bit` (1, 2 or 4) of some layout flags.
pub open spec fn flag_set(flags: u32, bit: u32) -> bool {
    (flags / bit) % 2 == 1
}

/// Fails when a companion that the flags ask for is not there.
pub fn require_companion(flags: u32, bit: u32, kind: SegmentKind, present: bool) -> (r: Result<
    (),
    FormatError,
>)
    requires
        bit > 0,
    ensures
        r is Ok <==> (flag_set(flags, bit) ==> present),
        r matches Err(e) ==> e == FormatError::MissingCompanion(kind),
{
    if (flags / bit) % 2 == 1 && !present {
        return Err(FormatError::MissingCompanion(kind));
    }
    Ok(())
}

fn contains_kind(segments: &Vec<Segment>, kind: SegmentKind) -> (r: bool)
    ensures
        r == has_kind(segment_views(segments@), kind),
{
    let ghost s = segment_views(segments@);
    let mut i: usize = 0;
    while i < segments.len()
        invariant
            i <= segments@.len(),
            s == segment_views(segments@),
            forall|k: int| 0 <= k < i ==> (#[trigger] s[k]).kind != kind,
        decreases segments@.len() - i,
    {
        assert(s[i as int].kind == segments@[i as int].kind);
        if segments[i].kind == kind {
            return true;
        }
        i = i + 1;
    }
    false
}

/// All segments have an alignment that a payload takes.
pub open spec fn segments_aligned(s: Seq<SegmentView>) -> bool {
    forall|i: int| 0 <= i < s.len() ==> alignment_ok((#[trigger] s[i]).alignment)
}

/// The sizes that fit a payload, and the alignments it takes.
pub open spec fn segments_fit(s: Seq<SegmentView>) -> bool {
    &&& s.len() <= u16::MAX
    &&& segments_aligned(s)
    &&& segments_end(s, data_start(s.len() as int), s.len() as int) <= u64::MAX
}

proof fn lemma_segments_end_monotonic(s: Seq<SegmentView>, start: int, i: int, n: int)
    requires
        0 <= i <= n <= s.len(),
        start >= 0,
        forall|k: int| 0 <= k < s.len() ==> alignment_ok((#[trigger] s[k]).alignment),
    ensures
        start <= segments_end(s, start, i) <= segments_end(s, start, n),
        i < n ==> segment_start(s, start, i) + s[i].body.len() <= segments_end(s, start, n),
        i < n ==> segments_end(s, start, i) <= segment_start(s, start, i),
    decreases n,
{
    if n > 0 {
        if i < n {
            lemma_segments_end_monotonic(s, start, i, n - 1);
            assert(alignment_ok(s[n - 1].alignment));
            lemma_aligned_const(segments_end(s, start, n - 1), s[n - 1].alignment as int);
            if i < n - 1 {
                assert(alignment_ok(s[i].alignment));
            }
        } else {
            lemma_segments_end_monotonic(s, start, i - 1, n - 1);
            assert(alignment_ok(s[n - 1].alignment));
            lemma_aligned_const(segments_end(s, start, n - 1), s[n - 1].alignment as int);
        }
    }
}

proof fn lemma_segments_data_len(s: Seq<SegmentView>, start: int, n: int)
    requires
        0 <= n <= s.len(),
        start >= 0,
        forall|k: int| 0 <= k < s.len() ==> alignment_ok((#[trigger] s[k]).alignment),
    ensures
        segments_data(s, start, n).len() == segments_end(s, start, n) - start,
    decreases n,
{
    if n > 0 {
        lemma_segments_data_len(s, start, n - 1);
        lemma_segments_end_monotonic(s, start, n - 1, n);
    }
}

proof fn lemma_segments_data_at(s: Seq<SegmentView>, start: int, n: int, i: int)
    requires
        0 <= i < n <= s.len(),
        start >= 0,
        forall|k: int| 0 <= k < s.len() ==> alignment_ok((#[trigger] s[k]).alignment),
    ensures
        start <= segment_start(s, start, i),
        segment_start(s, start, i) - start + s[i].body.len() <= segments_data(s, start, n).len(),
        segments_data(s, start, n).subrange(
            segment_start(s, start, i) - start,
            segment_start(s, start, i) - start + s[i].body.len(),
        ) == s[i].body,
    decreases n,
{
    lemma_segments_data_len(s, start, n);
    lemma_segments_data_len(s, start, n - 1);
    lemma_segments_end_monotonic(s, start, i, n);
    let a = segment_start(s, start, i) - start;
    let b = a + s[i].body.len();
    if i < n - 1 {
        lemma_segments_data_at(s, start, n - 1, i);
        assert(segments_data(s, start, n).subrange(a, b) =~= segments_data(
            s,
            start,
            n - 1,
        ).subrange(a, b));
    } else {
        assert(segments_data(s, start, n).subrange(a, b) =~= s[i].body);
    }
}

fn push_entry(out: &mut Vec<u8>, e: &SegmentEntry)
    ensures
        final(out)@ == old(out)@ + entry_bytes(*e),
{
    push_u16(out, e.kind.as_u16());
    push_u16(out, e.encoding_version);
    push_u16(out, e.flags);
    push_u16(out, e.alignment);
    push_u64(out, e.offset);
    push_u64(out, e.length);
    push_u32(out, e.element_width);
    push_u32(out, e.element_count);
    push_u32(out, e.crc32);
    push_u32(out, 0);
    push_u64(out, 0);
    assert(out@ =~= old(out)@ + entry_bytes(*e));
}

fn push_zeros(out: &mut Vec<u8>, n: u64)
    ensures
        final(out)@ == old(out)@ + zeros(n as int),
{
    let mut k: u64 = 0;
    assert(out@ =~= old(out)@ + zeros(0));
    while k < n
        invariant
            k <= n,
            out@ == old(out)@ + zeros(k as int),
        decreases n - k,
    {
        out.push(0);
        k = k + 1;
        assert(out@ =~= old(out)@ + zeros(k as int));
    }
}

/// Writes the directory, and the bodies behind room for the header and the
/// directory.
fn write_bodies(segments: &Vec<Segment>) -> (r: (Vec<u8>, Vec<u8>))
    requires
        segments@.len() <= u16::MAX,
        segments_aligned(segment_views(segments@)),
    ensures
        ({
            let s = segment_views(segments@);
            let start = data_start(s.len() as int);
            &&& r.0@ == directory_image(s)
            &&& r.1@ == zeros(start) + segments_data(s, start, s.len() as int)
            &&& r.1@.len() == segments_end(s, start, s.len() as int)
        }),
{
    let n: usize = segments.len();
    let ghost s = segment_views(segments@);
    let ghost start = data_start(n as int);
    let ghost es = segment_entries(s);
    let ghost f = |e: SegmentEntry| entry_bytes(e);
    let mut dir: Vec<u8> = Vec::new();
    let mut data: Vec<u8> = Vec::new();
    push_zeros(&mut data, 64 + 48 * n as u64);
    assert(data@ =~= zeros(start) + segments_data(s, start, 0));
    assert(es.take(0) =~= Seq::empty());
    let mut i: usize = 0;
    while i < n
        invariant
            i <= n,
            n == segments@.len(),
            s == segment_views(segments@),
            segments_aligned(s),
            start == data_start(n as int),
            es == segment_entries(s),
            f == (|e: SegmentEntry| entry_bytes(e)),
            data@ == zeros(start) + segments_data(s, start, i as int),
            data@.len() == segments_end(s, start, i as int),
            dir@ == wire::flat(es.take(i as int), f),
        decreases n - i,
    {
        let seg: &Segment = &segments[i];
        assert(seg@ == s[i as int]);
        assert(alignment_ok(s[i as int].alignment));
        let a: usize = seg.alignment as usize;
        let rest: usize = data.len() % a;
        let pad: usize = if rest == 0 {
            0
        } else {
            a - rest
        };
        assert(data@.len() + pad == segment_start(s, start, i as int)) by {
            lemma_pad(data@.len() as int, seg.alignment as int);
        }
        push_zeros(&mut data, pad as u64);
        let offset: usize = data.len();
        push_bytes(&mut data, seg.body.as_slice());
        let length: u64 = seg.body.len() as u64;
        let element_count: u32 = if seg.element_width > 0 {
            (length / seg.element_width as u64) as u32
        } else {
            0
        };
        let entry = SegmentEntry {
            kind: seg.kind,
            encoding_version: seg.encoding_version,
            flags: seg.flags,
            alignment: seg.alignment,
            offset: offset as u64,
            length,
            element_width: seg.element_width,
            element_count,
            crc32: crc32(seg.body.as_slice()),
        };
        assert(entry == es[i as int]);
        push_entry(&mut dir, &entry);
        proof {
            wire::lemma_flat_push(es.take(i as int), es[i as int], f);
            assert(es.take(i as int).push(es[i as int]) =~= es.take(i + 1));
            assert(data@ =~= zeros(start) + segments_data(s, start, i + 1));
        }
        i = i + 1;
    }
    assert(es.take(n as int) =~= es);
    (dir, data)
}

/// Writes the header of a payload.
fn write_header(
    segments: &Vec<Segment>,
    flags: u8,
    total_nodes: u64,
    total_edges: u64,
    directory_crc: u32,
) -> (out: Vec<u8>)
    requires
        segments@.len() <= u16::MAX,
        directory_crc == outside::crc32_of(directory_image(segment_views(segments@))),
    ensures
        out@ == header_image(segment_views(segments@), flags, total_nodes, total_edges),
{
    let n: usize = segments.len();
    let ghost s = segment_views(segments@);
    let layout: u32 = from_companion_segments(
        contains_kind(segments, SegmentKind::NodeLabelMembership),
        contains_kind(segments, SegmentKind::ColumnRowPresence),
        contains_kind(segments, SegmentKind::ColumnRowNull),
    );
    let mut out: Vec<u8> = Vec::new();
    out.push(71);
    out.push(67);
    out.push(83);
    out.push(84);
    out.push(FORMAT_VERSION_V5);
    out.push(flags);
    assert(out@ =~= directory::magic() + seq![5u8, flags]);
    push_u16(&mut out, 64);
    push_u16(&mut out, n as u16);
    push_u16(&mut out, 48);
    push_u32(&mut out, layout);
    push_u64(&mut out, 64);
    assert(out@ == header_front(s, flags));
    let mut back: Vec<u8> = Vec::new();
    push_u64(&mut back, 48 * n as u64);
    push_u64(&mut back, 64 + 48 * n as u64);
    push_u64(&mut back, total_nodes);
    push_u64(&mut back, total_edges);
    push_u32(&mut back, directory_crc);
    push_u32(&mut back, 0);
    assert(back@ =~= header_back(s, total_nodes, total_edges));
    push_bytes(&mut out, back.as_slice());
    out
}

/// Assembles a payload from its segments.
pub fn assemble_payload(
    segments: &Vec<Segment>,
    flags: u8,
    total_nodes: u64,
    total_edges: u64,
) -> (r: Result<Vec<u8>, FormatError>)
    requires
        segments_aligned(segment_views(segments@)),
    ensures
        r is Ok <==> segments@.len() <= u16::MAX,
        r matches Ok(p) ==> segments_fit(segment_views(segments@)) && p@ == payload_image(
            segment_views(segments@),
            flags,
            total_nodes,
            total_edges,
        ),
        r matches Err(e) ==> e == FormatError::TooManySegments(segments@.len() as usize),
{
    let n: usize = segments.len();
    if n > u16::MAX as usize {
        return Err(FormatError::TooManySegments(n));
    }
    let ghost s = segment_views(segments@);
    let ghost start = data_start(n as int);
    let (dir, data) = write_bodies(segments);
    assert(data@.len() == data.len());
    let mut out: Vec<u8> = write_header(
        segments,
        flags,
        total_nodes,
        total_edges,
        crc32(dir.as_slice()),
    );
    push_bytes(&mut out, dir.as_slice());
    let bodies: &[u8] = vstd::slice::slice_subrange(data.as_slice(), 64 + 48 * n, data.len());
    assert(bodies@ =~= segments_data(s, start, n as int));
    push_bytes(&mut out, bodies);
    assert(out@ == payload_body(s, flags, total_nodes, total_edges));
    let crc: u32 = crc32(out.as_slice());
    push_u32(&mut out, crc);
    Ok(out)
}

proof fn lemma_pad(v: int, a: int)
    requires
        v >= 0,
        a == 1 || a == 2 || a == 4 || a == 8 || a == 16,
    ensures
        v + (if v % a == 0 {
            0
        } else {
            a - v % a
        }) == aligned(v, a),
{
    if a == 1 {
        assert(aligned(v, 1) == v);
    } else if a == 2 {
        assert(aligned(v, 2) == v + v % 2);
    } else if a == 4 {
        assert(aligned(v, 4) == v + (if v % 4 == 0 {
            0
        } else {
            4 - v % 4
        }));
    } else if a == 8 {
        assert(aligned(v, 8) == v + (if v % 8 == 0 {
            0
        } else {
            8 - v % 8
        }));
    } else {
        assert(aligned(v, 16) == v + (if v % 16 == 0 {
            0
        } else {
            16 - v % 16
        }));
    }
}

/// The kinds of a row of segments ascend strictly.
pub open spec fn kinds_ascend(s: Seq<SegmentView>) -> bool {
    forall|i: int, j: int|
        0 <= i < j < s.len() ==> directory::kind_code((#[trigger] s[i]).kind) < directory::kind_code(
            (#[trigger] s[j]).kind,
        )
}

/// The fields of an entry's bytes.
pub proof fn lemma_entry_bytes(e: SegmentEntry)
    ensures
        entry_bytes(e).len() == 48,
        directory::entry_at(entry_bytes(e), 0) == e,
        directory::entry_kind_at(entry_bytes(e), 0) == directory::kind_code(e.kind),
        wire::u32_at(entry_bytes(e), 36) == 0,
        wire::u64_at(entry_bytes(e), 40) == 0,
{
    let d = entry_bytes(e);
    directory::lemma_kind_code(e.kind);
    assert(d.subrange(0, 2) =~= wire::put16(directory::kind_code(e.kind)));
    assert(d.subrange(2, 4) =~= wire::put16(e.encoding_version));
    assert(d.subrange(4, 6) =~= wire::put16(e.flags));
    assert(d.subrange(6, 8) =~= wire::put16(e.alignment));
    assert(d.subrange(8, 16) =~= wire::put64(e.offset));
    assert(d.subrange(16, 24) =~= wire::put64(e.length));
    assert(d.subrange(24, 28) =~= wire::put32(e.element_width));
    assert(d.subrange(28, 32) =~= wire::put32(e.element_count));
    assert(d.subrange(32, 36) =~= wire::put32(e.crc32));
    assert(d.subrange(36, 40) =~= wire::put32(0));
    assert(d.subrange(40, 48) =~= wire::put64(0));
}

proof fn lemma_entry_in_directory(es: Seq<SegmentEntry>, i: int)
    requires
        0 <= i < es.len(),
    ensures
        ({
            let d = wire::flat(es, |e: SegmentEntry| entry_bytes(e));
            &&& d.len() == 48 * es.len()
            &&& directory::entry_at(d, i) == es[i]
            &&& directory::entry_kind_at(d, i) == directory::kind_code(es[i].kind)
            &&& wire::u32_at(d, i * 48 + 36) == 0
            &&& wire::u64_at(d, i * 48 + 40) == 0
        }),
{
    let f = |e: SegmentEntry| entry_bytes(e);
    let d = wire::flat(es, f);
    assert forall|k: int| 0 <= k < es.len() implies f(#[trigger] es[k]).len() == 48 by {
        lemma_entry_bytes(es[k]);
    }
    wire::lemma_flat_len(es, f, 48);
    wire::lemma_flat_at(es, f, 48, i);
    lemma_entry_bytes(es[i]);
    let r = entry_bytes(es[i]);
    let o = i * 48;
    assert(d.subrange(o, o + 48) == r);
    assert(d.subrange(o, o + 2) =~= r.subrange(0, 2));
    assert(d.subrange(o + 2, o + 4) =~= r.subrange(2, 4));
    assert(d.subrange(o + 4, o + 6) =~= r.subrange(4, 6));
    assert(d.subrange(o + 6, o + 8) =~= r.subrange(6, 8));
    assert(d.subrange(o + 8, o + 16) =~= r.subrange(8, 16));
    assert(d.subrange(o + 16, o + 24) =~= r.subrange(16, 24));
    assert(d.subrange(o + 24, o + 28) =~= r.subrange(24, 28));
    assert(d.subrange(o + 28, o + 32) =~= r.subrange(28, 32));
    assert(d.subrange(o + 32, o + 36) =~= r.subrange(32, 36));
    assert(d.subrange(o + 36, o + 40) =~= r.subrange(36, 40));
    assert(d.subrange(o + 40, o + 48) =~= r.subrange(40, 48));
}

proof fn lemma_header_fields(
    s: Seq<SegmentView>,
    flags: u8,
    total_nodes: u64,
    total_edges: u64,
    d: Seq<u8>,
)
    requires
        wire::holds_at(d, 0, header_image(s, flags, total_nodes, total_edges)),
    ensures
        d.len() >= 64,
        d.subrange(0, 4) == directory::magic(),
        d[4] == 5,
        d[5] == flags,
        wire::u16_at(d, 6) == 64,
        wire::u16_at(d, 8) == s.len() as u16,
        wire::u16_at(d, 10) == 48,
        wire::u32_at(d, 12) == layout_flags_of(s),
        wire::u64_at(d, 16) == 64,
        wire::u64_at(d, 24) == (48 * s.len()) as u64,
        wire::u64_at(d, 32) == data_start(s.len() as int) as u64,
        wire::u64_at(d, 40) == total_nodes,
        wire::u64_at(d, 48) == total_edges,
        wire::u32_at(d, 56) == outside::crc32_of(directory_image(s)),
        wire::u32_at(d, 60) == 0,
{
    let p = header_front(s, flags);
    let q = header_back(s, total_nodes, total_edges);
    lemma_header_front(s, flags);
    lemma_header_back(s, total_nodes, total_edges);
    wire::lemma_holds_split(d, 0, p, q);
    wire::lemma_holds_within(d, 0, p, 0, 4);
    assert(d.subrange(0, 24)[4] == p[4] && d.subrange(0, 24)[5] == p[5]);
    wire::lemma_holds_within(d, 0, p, 6, 8);
    wire::lemma_holds_within(d, 0, p, 8, 10);
    wire::lemma_holds_within(d, 0, p, 10, 12);
    wire::lemma_holds_within(d, 0, p, 12, 16);
    wire::lemma_holds_within(d, 0, p, 16, 24);
    wire::lemma_holds_within(d, 24, q, 0, 8);
    wire::lemma_holds_within(d, 24, q, 8, 16);
    wire::lemma_holds_within(d, 24, q, 16, 24);
    wire::lemma_holds_within(d, 24, q, 24, 32);
    wire::lemma_holds_within(d, 24, q, 32, 36);
    wire::lemma_holds_within(d, 24, q, 36, 40);
}

/// The fields that a header image spells.
pub proof fn lemma_header_image(
    s: Seq<SegmentView>,
    flags: u8,
    total_nodes: u64,
    total_edges: u64,
    rest: Seq<u8>,
)
    requires
        s.len() <= u16::MAX,
    ensures
        ({
            let h = header_image(s, flags, total_nodes, total_edges);
            let d = h + rest;
            &&& h.len() == 64
            &&& directory::header_fault(d) is None
            &&& directory::header_of(d) == (V5Header {
                flags,
                segment_count: s.len() as u16,
                layout_flags: layout_flags_of(s),
                directory_offset: 64,
                directory_length: (48 * s.len()) as u64,
                data_offset: data_start(s.len() as int) as u64,
                logical_node_count: total_nodes,
                logical_edge_count: total_edges,
                directory_crc32: outside::crc32_of(directory_image(s)),
            })
        }),
{
    let h = header_image(s, flags, total_nodes, total_edges);
    let d = h + rest;
    lemma_header_front(s, flags);
    lemma_header_back(s, total_nodes, total_edges);
    assert(d.subrange(0, 64) =~= h);
    lemma_header_fields(s, flags, total_nodes, total_edges, d);
}

proof fn lemma_header_front(s: Seq<SegmentView>, flags: u8)
    ensures
        ({
            let p = header_front(s, flags);
            &&& p.len() == 24
            &&& p.subrange(0, 4) == directory::magic()
            &&& p[4] == 5
            &&& p[5] == flags
            &&& p.subrange(6, 8) == wire::put16(64)
            &&& p.subrange(8, 10) == wire::put16(s.len() as u16)
            &&& p.subrange(10, 12) == wire::put16(48)
            &&& p.subrange(12, 16) == wire::put32(layout_flags_of(s))
            &&& p.subrange(16, 24) == wire::put64(64)
        }),
{
    let p = header_front(s, flags);
    assert(p.subrange(0, 4) =~= directory::magic());
    assert(p.subrange(6, 8) =~= wire::put16(64));
    assert(p.subrange(8, 10) =~= wire::put16(s.len() as u16));
    assert(p.subrange(10, 12) =~= wire::put16(48));
    assert(p.subrange(12, 16) =~= wire::put32(layout_flags_of(s)));
    assert(p.subrange(16, 24) =~= wire::put64(64));
}

proof fn lemma_header_back(s: Seq<SegmentView>, total_nodes: u64, total_edges: u64)
    ensures
        ({
            let q = header_back(s, total_nodes, total_edges);
            &&& q.len() == 40
            &&& q.subrange(0, 8) == wire::put64((48 * s.len()) as u64)
            &&& q.subrange(8, 16) == wire::put64(data_start(s.len() as int) as u64)
            &&& q.subrange(16, 24) == wire::put64(total_nodes)
            &&& q.subrange(24, 32) == wire::put64(total_edges)
            &&& q.subrange(32, 36) == wire::put32(outside::crc32_of(directory_image(s)))
            &&& q.subrange(36, 40) == wire::put32(0)
        }),
{
    let q = header_back(s, total_nodes, total_edges);
    assert(q.subrange(0, 8) =~= wire::put64((48 * s.len()) as u64));
    assert(q.subrange(8, 16) =~= wire::put64(data_start(s.len() as int) as u64));
    assert(q.subrange(16, 24) =~= wire::put64(total_nodes));
    assert(q.subrange(24, 32) =~= wire::put64(total_edges));
    assert(q.subrange(32, 36) =~= wire::put32(outside::crc32_of(directory_image(s))));
    assert(q.subrange(36, 40) =~= wire::put32(0));
}

/// Where the first segment of a kind stands in a directory.
proof fn lemma_find_kind_at(es: Seq<SegmentEntry>, i: int)
    requires
        0 <= i < es.len(),
        forall|k: int| 0 <= k < i ==> (#[trigger] es[k]).kind != es[i].kind,
    ensures
        directory::find_kind(es, es[i].kind) == Some(es[i]),
{
    let kind = es[i].kind;
    lemma_find_kind_none(es.take(i), kind);
    assert(es.take(i + 1).drop_last() =~= es.take(i));
    directory::lemma_find_kind_stays(es, kind, i + 1);
}

proof fn lemma_find_kind_none(es: Seq<SegmentEntry>, kind: SegmentKind)
    requires
        forall|k: int| 0 <= k < es.len() ==> (#[trigger] es[k]).kind != kind,
    ensures
        directory::find_kind(es, kind) is None,
    decreases es.len(),
{
    if es.len() > 0 {
        assert(es[es.len() - 1].kind != kind);
        assert forall|k: int| 0 <= k < es.drop_last().len() implies (
        #[trigger] es.drop_last()[k]).kind != kind by {
            assert(es[k].kind != kind);
        }
        lemma_find_kind_none(es.drop_last(), kind);
    }
}

/// What is assembled parses back: the checksum matches, the directory is
/// sound, every segment is found under its kind with the bytes that were
/// handed in, and no other kind is found.
pub proof fn lemma_assembled_payload_parses(
    s: Seq<SegmentView>,
    flags: u8,
    total_nodes: u64,
    total_edges: u64,
)
    requires
        segments_fit(s),
        kinds_ascend(s),
        payload_image(s, flags, total_nodes, total_edges).len() <= u64::MAX,
    ensures
        ({
            let d = payload_image(s, flags, total_nodes, total_edges);
            let n = (d.len() - 4) as int;
            &&& d.len() >= 68
            &&& wire::u32_at(d, n) == outside::crc32_of(d.subrange(0, n))
            &&& directory::directory_fault(d, n as u64) is None
            &&& directory::header_of(d).flags == flags
            &&& directory::header_of(d).layout_flags == layout_flags_of(s)
            &&& directory::header_of(d).logical_node_count == total_nodes
            &&& directory::header_of(d).logical_edge_count == total_edges
            &&& directory::entries_of(d) == segment_entries(s)
            &&& forall|i: int|
                0 <= i < s.len() ==> {
                    &&& directory::find_kind(directory::entries_of(d), (#[trigger] s[i]).kind) == Some(
                        segment_entries(s)[i],
                    )
                    &&& directory::slice_fault(d, segment_entries(s)[i]) is None
                    &&& d.subrange(
                        segment_entries(s)[i].offset as int,
                        segment_entries(s)[i].offset + segment_entries(s)[i].length,
                    ) == s[i].body
                }
            &&& forall|kind: SegmentKind|
                !has_kind(s, kind) ==> (#[trigger] directory::find_kind(directory::entries_of(d), kind)) is None
        }),
{
    let body = payload_body(s, flags, total_nodes, total_edges);
    let d = payload_image(s, flags, total_nodes, total_edges);
    let n = body.len() as int;
    let count = s.len() as int;
    let start = data_start(count);
    let es = segment_entries(s);
    let dir = directory_image(s);
    lemma_payload_shape(s, flags, total_nodes, total_edges);
    let checks = directory::entry_checks(dir, n as u64, start as u64);
    assert forall|i: int| 0 <= i < count implies (#[trigger] checks(i)) is None by {
        lemma_payload_entry(s, i);
    }
    faults::lemma_no_fault(count as nat, checks);
    assert forall|i: int| 0 <= i < count implies #[trigger] directory::entry_at(dir, i) == es[i] by {
        lemma_payload_entry(s, i);
    }
    assert(directory::entries_of(d) =~= es);
    assert forall|i: int| 0 <= i < s.len() implies {
        &&& directory::find_kind(directory::entries_of(d), (#[trigger] s[i]).kind) == Some(es[i])
        &&& directory::slice_fault(d, es[i]) is None
        &&& d.subrange(es[i].offset as int, es[i].offset + es[i].length) == s[i].body
    } by {
        assert forall|k: int| 0 <= k < i implies (#[trigger] es[k]).kind != es[i].kind by {
            assert(directory::kind_code(s[k].kind) < directory::kind_code(s[i].kind));
        }
        lemma_find_kind_at(es, i);
        lemma_payload_slice(s, flags, total_nodes, total_edges, i);
    }
    assert forall|kind: SegmentKind| !has_kind(s, kind) implies (#[trigger] directory::find_kind(
        directory::entries_of(d),
        kind,
    )) is None by {
        assert forall|k: int| 0 <= k < es.len() implies (#[trigger] es[k]).kind != kind by {
            assert(s[k].kind != kind);
        }
        lemma_find_kind_none(es, kind);
    }
}

proof fn lemma_payload_shape(
    s: Seq<SegmentView>,
    flags: u8,
    total_nodes: u64,
    total_edges: u64,
)
    requires
        segments_fit(s),
    ensures
        ({
            let body = payload_body(s, flags, total_nodes, total_edges);
            let d = payload_image(s, flags, total_nodes, total_edges);
            let n = body.len() as int;
            let start = data_start(s.len() as int);
            &&& d.len() == n + 4
            &&& n == segments_end(s, start, s.len() as int)
            &&& n >= start
            &&& d.subrange(0, n) == body
            &&& wire::u32_at(d, n) == outside::crc32_of(body)
            &&& directory::header_fault(d) is None
            &&& directory::header_of(d) == (V5Header {
                flags,
                segment_count: s.len() as u16,
                layout_flags: layout_flags_of(s),
                directory_offset: 64,
                directory_length: (48 * s.len()) as u64,
                data_offset: start as u64,
                logical_node_count: total_nodes,
                logical_edge_count: total_edges,
                directory_crc32: outside::crc32_of(directory_image(s)),
            })
            &&& directory::directory_bytes_of(d) == directory_image(s)
            &&& d.subrange(start, n) == segments_data(s, start, s.len() as int)
        }),
{
    let body = payload_body(s, flags, total_nodes, total_edges);
    let d = payload_image(s, flags, total_nodes, total_edges);
    let n = body.len() as int;
    let count = s.len() as int;
    let start = data_start(count);
    let es = segment_entries(s);
    let dir = directory_image(s);
    let h = header_image(s, flags, total_nodes, total_edges);
    let data = segments_data(s, start, count);
    let f = |e: SegmentEntry| entry_bytes(e);
    let crc = wire::put32(outside::crc32_of(body));
    assert(d.subrange(0, n) =~= body);
    assert(d.subrange(n, n + 4) =~= crc);
    let rest = dir + data + crc;
    assert(d =~= h + rest);
    lemma_header_image(s, flags, total_nodes, total_edges, rest);
    assert forall|k: int| 0 <= k < es.len() implies f(#[trigger] es[k]).len() == 48 by {
        lemma_entry_bytes(es[k]);
    }
    wire::lemma_flat_len(es, f, 48);
    lemma_segments_data_len(s, start, count);
    lemma_segments_end_monotonic(s, start, 0, count);
    assert(directory::directory_bytes_of(d) =~= dir);
    assert(d.subrange(start, n) =~= data);
}

proof fn lemma_payload_entry(s: Seq<SegmentView>, i: int)
    requires
        segments_fit(s),
        kinds_ascend(s),
        0 <= i < s.len(),
    ensures
        ({
            let dir = directory_image(s);
            let start = data_start(s.len() as int);
            let n = segments_end(s, start, s.len() as int);
            &&& directory::entry_at(dir, i) == segment_entries(s)[i]
            &&& directory::entry_fault(dir, i, n as u64, start as u64) is None
        }),
{
    let count = s.len() as int;
    let start = data_start(count);
    let es = segment_entries(s);
    let dir = directory_image(s);
    lemma_entry_in_directory(es, i);
    directory::lemma_kind_code(s[i].kind);
    assert(alignment_ok(s[i].alignment));
    lemma_segments_end_monotonic(s, start, i, count);
    lemma_aligned_const(segments_end(s, start, i), s[i].alignment as int);
    let e = es[i];
    assert(e.offset == segment_start(s, start, i));
    if e.element_width > 0 {
        let w = e.element_width as int;
        let l = e.length as int;
        let q = s[i].body.len() / e.element_width as nat;
        assert(q * w <= l && q <= l) by (nonlinear_arith)
            requires
                q == l / w,
                w > 0,
                l >= 0,
        ;
        let q64 = q as u64;
        assert(q64 as u32 <= q64) by (bit_vector);
        assert(e.element_count * w <= q * w) by (nonlinear_arith)
            requires
                e.element_count <= q,
                w > 0,
        ;
    }
    if i > 0 {
        lemma_entry_in_directory(es, i - 1);
        assert(directory::kind_code(s[i - 1].kind) < directory::kind_code(s[i].kind));
        lemma_segments_end_monotonic(s, start, i - 1, count);
        assert(segments_end(s, start, i) == segment_start(s, start, i - 1) + s[i - 1].body.len());
    }
}

proof fn lemma_payload_slice(
    s: Seq<SegmentView>,
    flags: u8,
    total_nodes: u64,
    total_edges: u64,
    i: int,
)
    requires
        segments_fit(s),
        0 <= i < s.len(),
    ensures
        ({
            let d = payload_image(s, flags, total_nodes, total_edges);
            let e = segment_entries(s)[i];
            &&& directory::slice_fault(d, e) is None
            &&& d.subrange(e.offset as int, e.offset + e.length) == s[i].body
        }),
{
    let d = payload_image(s, flags, total_nodes, total_edges);
    let count = s.len() as int;
    let start = data_start(count);
    let data = segments_data(s, start, count);
    let n = segments_end(s, start, count);
    lemma_payload_shape(s, flags, total_nodes, total_edges);
    lemma_segments_data_at(s, start, count, i);
    lemma_segments_end_monotonic(s, start, i, count);
    let a = segment_start(s, start, i);
    let b = a + s[i].body.len();
    assert(d.subrange(a, b) =~= d.subrange(start, n).subrange(a - start, b - start));
}

} // verus!
