//! Row presence and row null companions of columns.
//!
//! Both segments are a row of records, one for each column that needs the
//! companion, by ascending column: column index (`u32`), row count (`u32`),
//! and a bitmap of the rows, least significant bit first. A column without a
//! record has every row present, or none null.

use crate::outside::bytes_as_slice;
use crate::outside;
use crate::wire::{load_u32, push_bytes, push_u32};
use crate::wire;
use crate::directory::SegmentKind;
use crate::error::FormatError;
use bytes::Bytes;
use vstd::prelude::*;

verus! {

broadcast use wire::group_wire;

/// Byte length of one record header.
pub const PRESENCE_RECORD_HEADER_LEN: usize = 8;

/// Bytes that the bitmap of `rows` rows takes.
pub open spec fn bitmap_len(rows: int) -> int {
    (rows + 7) / 8
}

/// Byte length of the bitmap of `row_count` rows.
pub fn bitmap_bytes(row_count: u32) -> (r: usize)
    ensures
        r == bitmap_len(row_count as int),
{
    row_count as usize / 8 + (if row_count % 8 == 0 {
        0
    } else {
        1
    })
}

/// The value of bit `k` of a byte.
pub open spec fn weight(k: int) -> int {
    if k == 0 {
        1
    } else if k == 1 {
        2
    } else if k == 2 {
        4
    } else if k == 3 {
        8
    } else if k == 4 {
        16
    } else if k == 5 {
        32
    } else if k == 6 {
        64
    } else {
        128
    }
}

fn weight_of(k: usize) -> (r: u8)
    requires
        k < 8,
    ensures
        r == weight(k as int),
{
    if k == 0 {
        1
    } else if k == 1 {
        2
    } else if k == 2 {
        4
    } else if k == 3 {
        8
    } else if k == 4 {
        16
    } else if k == 5 {
        32
    } else if k == 6 {
        64
    } else {
        128
    }
}

/// Bit `i` of some bytes, least significant bit of each byte first; bytes
/// that are not there count as zero.
pub open spec fn bit_at(d: Seq<u8>, i: int) -> bool {
    i / 8 < d.len() && (d[i / 8] as int / weight(i % 8)) % 2 == 1
}

/// The value of the first `k` bits of byte `j` of a bitmap.
pub open spec fn packed_low(bits: Seq<bool>, j: int, k: int) -> int
    decreases k,
{
    if k <= 0 {
        0
    } else {
        packed_low(bits, j, k - 1) + (if j * 8 + k - 1 < bits.len() && bits[j * 8 + k - 1] {
            weight(k - 1)
        } else {
            0
        })
    }
}

/// Booleans packed into bytes, least significant bit first.
pub open spec fn packed(bits: Seq<bool>) -> Seq<u8> {
    Seq::new(bitmap_len(bits.len() as int) as nat, |j: int| packed_low(bits, j, 8) as u8)
}

proof fn lemma_packed_low_bound(bits: Seq<bool>, j: int, k: int)
    requires
        0 <= k <= 8,
    ensures
        0 <= packed_low(bits, j, k),
        k < 8 ==> packed_low(bits, j, k) < weight(k),
        k == 8 ==> packed_low(bits, j, k) < 256,
    decreases k,
{
    if k > 0 {
        lemma_packed_low_bound(bits, j, k - 1);
    }
}

proof fn lemma_weight_split(a: int, b: int)
    requires
        0 <= b < a < 8,
    ensures
        weight(a) == weight(a - b) * weight(b),
        weight(a - b) % 2 == 0,
{
    let x = weight(a - b);
    let y = weight(b);
    if b == 0 {
        assert(weight(a) == x);
    } else if b == 1 {
        assert(weight(a) == 2 * x);
    } else if b == 2 {
        assert(weight(a) == 4 * x);
    } else if b == 3 {
        assert(weight(a) == 8 * x);
    } else if b == 4 {
        assert(weight(a) == 16 * x);
    } else if b == 5 {
        assert(weight(a) == 32 * x);
    } else {
        assert(weight(a) == 64 * x);
    }
    assert(weight(a) == x * y) by (nonlinear_arith)
        requires
            weight(a) == y * x,
    ;
}

proof fn lemma_packed_bit(bits: Seq<bool>, j: int, k: int, m: int)
    requires
        0 <= m < k <= 8,
    ensures
        (packed_low(bits, j, k) / weight(m)) % 2 == (if j * 8 + m < bits.len() && bits[j * 8 + m] {
            1int
        } else {
            0int
        }),
    decreases k,
{
    lemma_packed_low_bound(bits, j, k - 1);
    let low = packed_low(bits, j, k - 1);
    let b: int = if j * 8 + k - 1 < bits.len() && bits[j * 8 + k - 1] {
        1
    } else {
        0
    };
    assert(packed_low(bits, j, k) == low + b * weight(k - 1));
    if m == k - 1 {
        let w = weight(m);
        assert((low + b * w) / w == b) by (nonlinear_arith)
            requires
                0 <= low < w,
                b == 0 || b == 1,
        ;
    } else {
        lemma_packed_bit(bits, j, k - 1, m);
        let w = weight(m);
        let q = weight(k - 1 - m);
        lemma_weight_split(k - 1, m);
        assert((low + b * (q * w)) / w == low / w + b * q) by (nonlinear_arith)
            requires
                w > 0,
                0 <= low,
                b == 0 || b == 1,
        ;
        assert((low / w + b * q) % 2 == (low / w) % 2);
    }
}

/// Packing keeps every bit.
pub proof fn lemma_packed_bits(bits: Seq<bool>, i: int)
    requires
        0 <= i < bits.len(),
    ensures
        bit_at(packed(bits), i) == bits[i],
{
    let j = i / 8;
    lemma_packed_low_bound(bits, j, 8);
    lemma_packed_bit(bits, j, 8, i % 8);
    assert(j * 8 + i % 8 == i);
}

/// Packs booleans into bytes, least significant bit first.
pub fn pack_bits(bits: &[bool]) -> (r: Vec<u8>)
    ensures
        r@ == packed(bits@),
{
    let n: usize = bits.len();
    let bytes: usize = n / 8 + (if n % 8 == 0 {
        0
    } else {
        1
    });
    let mut out: Vec<u8> = Vec::with_capacity(bytes);
    let mut j: usize = 0;
    while j < bytes
        invariant
            j <= bytes,
            n == bits@.len(),
            bytes == bitmap_len(n as int),
            out@ == packed(bits@).take(j as int),
        decreases bytes - j,
    {
        let mut byte: u8 = 0;
        let mut k: usize = 0;
        while k < 8
            invariant
                k <= 8,
                j < bytes,
                n == bits@.len(),
                bytes == bitmap_len(n as int),
                byte == packed_low(bits@, j as int, k as int),
            decreases 8 - k,
        {
            proof {
                lemma_packed_low_bound(bits@, j as int, k as int);
                lemma_packed_low_bound(bits@, j as int, k + 1);
            }
            if j * 8 + k < n && bits[j * 8 + k] {
                byte = byte + weight_of(k);
            }
            k = k + 1;
        }
        out.push(byte);
        j = j + 1;
        assert(out@ =~= packed(bits@).take(j as int));
    }
    assert(packed(bits@).take(j as int) =~= packed(bits@));
    out
}

/// Unpacks the first `row_count` bits; bytes that are not there count as zero.
pub fn unpack_bits(bytes: &[u8], row_count: usize) -> (r: Vec<bool>)
    ensures
        r@ == Seq::new(row_count as nat, |i: int| bit_at(bytes@, i)),
{
    let mut out: Vec<bool> = Vec::with_capacity(row_count);
    let mut i: usize = 0;
    while i < row_count
        invariant
            i <= row_count,
            out@ == Seq::new(i as nat, |k: int| bit_at(bytes@, k)),
        decreases row_count - i,
    {
        let bit: bool = if i / 8 < bytes.len() {
            (bytes[i / 8] / weight_of(i % 8)) % 2 == 1
        } else {
            false
        };
        out.push(bit);
        i = i + 1;
        assert(out@ =~= Seq::new(i as nat, |k: int| bit_at(bytes@, k)));
    }
    out
}

/// Unpacking what was packed gives the booleans back.
pub proof fn lemma_pack_unpack(bits: Seq<bool>)
    ensures
        Seq::new(bits.len(), |i: int| bit_at(packed(bits), i)) == bits,
{
    assert forall|i: int| 0 <= i < bits.len() implies bit_at(packed(bits), i) == bits[i] by {
        lemma_packed_bits(bits, i);
    }
    assert(Seq::new(bits.len(), |i: int| bit_at(packed(bits), i)) =~= bits);
}

/// A companion record: column, row count, and its rows' bits.
pub type BitmapRecord = (u32, u32, Vec<bool>);

/// The bytes of one record.
pub open spec fn bitmap_record(column: u32, rows: u32, bits: Seq<bool>) -> Seq<u8> {
    wire::put32(column) + wire::put32(rows) + packed(bits)
}

/// The bytes of the first `n` records.
pub open spec fn bitmap_records(v: Seq<BitmapRecord>, n: int) -> Seq<u8>
    decreases n,
{
    if n <= 0 {
        Seq::empty()
    } else {
        bitmap_records(v, n - 1) + bitmap_record(v[n - 1].0, v[n - 1].1, v[n - 1].2@)
    }
}

/// A record has as many bits as rows.
pub open spec fn bitmap_record_fits(r: BitmapRecord) -> bool {
    r.2@.len() == r.1
}

/// Appends the records of a presence or null segment. A record whose bits do
/// not fit its row count is refused; those before it have been appended.
fn write_bitmap_segment(out: &mut Vec<u8>, records: &[BitmapRecord]) -> (r: Result<(), FormatError>)
    ensures
        r is Ok <==> forall|i: int|
            0 <= i < records@.len() ==> bitmap_record_fits(#[trigger] records@[i]),
        r is Ok ==> final(out)@ == old(out)@ + bitmap_records(records@, records@.len() as int),
        r matches Err(e) ==> exists|k: int|
            0 <= k < records@.len() && !bitmap_record_fits(#[trigger] records@[k]) && (forall|i: int|

                0 <= i < k ==> bitmap_record_fits(#[trigger] records@[i])) && final(out)@ == old(
                out,
            )@ + bitmap_records(records@, k) && e == (FormatError::BitmapRows {
                rows: records@[k].1,
                bits: records@[k].2@.len() as usize,
            }),
{
    assert(out@ =~= old(out)@ + bitmap_records(records@, 0));
    let mut i: usize = 0;
    while i < records.len()
        invariant
            i <= records@.len(),
            out@ == old(out)@ + bitmap_records(records@, i as int),
            forall|k: int| 0 <= k < i ==> bitmap_record_fits(#[trigger] records@[k]),
        decreases records@.len() - i,
    {
        let rec: &BitmapRecord = &records[i];
        assert(*rec == records@[i as int]);
        if rec.2.len() as u64 != rec.1 as u64 {
            assert(!bitmap_record_fits(records@[i as int]));
            return Err(FormatError::BitmapRows { rows: rec.1, bits: rec.2.len() });
        }
        push_u32(out, rec.0);
        push_u32(out, rec.1);
        let body: Vec<u8> = pack_bits(rec.2.as_slice());
        push_bytes(out, body.as_slice());
        i = i + 1;
        assert(out@ =~= old(out)@ + bitmap_records(records@, i as int));
    }
    Ok(())
}

/// Appends the presence records of all columns.
pub fn write_presence_segment(out: &mut Vec<u8>, records: &[BitmapRecord]) -> (r: Result<
    (),
    FormatError,
>)
    ensures
        r is Ok <==> forall|i: int|
            0 <= i < records@.len() ==> bitmap_record_fits(#[trigger] records@[i]),
        r is Ok ==> final(out)@ == old(out)@ + bitmap_records(records@, records@.len() as int),
        r matches Err(e) ==> exists|k: int|
            0 <= k < records@.len() && !bitmap_record_fits(#[trigger] records@[k]) && (forall|i: int|

                0 <= i < k ==> bitmap_record_fits(#[trigger] records@[i])) && final(out)@ == old(
                out,
            )@ + bitmap_records(records@, k) && e == (FormatError::BitmapRows {
                rows: records@[k].1,
                bits: records@[k].2@.len() as usize,
            }),
{
    write_bitmap_segment(out, records)
}

/// Appends the null records of all columns.
pub fn write_null_segment(out: &mut Vec<u8>, records: &[BitmapRecord]) -> (r: Result<
    (),
    FormatError,
>)
    ensures
        r is Ok <==> forall|i: int|
            0 <= i < records@.len() ==> bitmap_record_fits(#[trigger] records@[i]),
        r is Ok ==> final(out)@ == old(out)@ + bitmap_records(records@, records@.len() as int),
        r matches Err(e) ==> exists|k: int|
            0 <= k < records@.len() && !bitmap_record_fits(#[trigger] records@[k]) && (forall|i: int|

                0 <= i < k ==> bitmap_record_fits(#[trigger] records@[i])) && final(out)@ == old(
                out,
            )@ + bitmap_records(records@, k) && e == (FormatError::BitmapRows {
                rows: records@[k].1,
                bits: records@[k].2@.len() as usize,
            }),
{
    write_bitmap_segment(out, records)
}

/// Where a parsed record lies: column, row count, offset of its bitmap.
#[derive(Debug, Clone, Copy, PartialEq, Eq, Structural)]
pub struct RowBitmapRecord {
    column_index: u32,
    row_count: u32,
    bitmap_offset: usize,
}

impl RowBitmapRecord {
    /// Column of the record.
    pub closed spec fn column(self) -> u32 {
        self.column_index
    }

    /// Rows of the record.
    pub closed spec fn rows(self) -> u32 {
        self.row_count
    }

    /// Where its bitmap starts in the segment.
    pub closed spec fn offset(self) -> int {
        self.bitmap_offset as int
    }

    /// The record with given fields.
    pub closed spec fn of(column: u32, rows: u32, offset: int) -> RowBitmapRecord {
        RowBitmapRecord {
            column_index: column,
            row_count: rows,
            bitmap_offset: offset as usize,
        }
    }
}

/// What a walk over a segment from byte `cursor` finds, after the records
/// `acc` before it.
pub open spec fn bitmap_walk(
    d: Seq<u8>,
    kind: SegmentKind,
    cursor: int,
    acc: Seq<RowBitmapRecord>,
) -> Result<Seq<RowBitmapRecord>, FormatError>
    decreases d.len() - cursor,
{
    let column = wire::u32_at(d, cursor);
    let rows = wire::u32_at(d, cursor + 4);
    if cursor >= d.len() {
        Ok(acc)
    } else if cursor + 8 > d.len() {
        Err(FormatError::BitmapHeader { kind, at: cursor as usize })
    } else if acc.len() > 0 && column <= acc.last().column() {
        Err(FormatError::BitmapOrder { kind, column, prev_column: acc.last().column() })
    } else if cursor + 8 + bitmap_len(rows as int) > d.len() {
        Err(FormatError::BitmapBody { kind, column })
    } else {
        bitmap_walk(
            d,
            kind,
            cursor + 8 + bitmap_len(rows as int),
            acc.push(RowBitmapRecord::of(column, rows, cursor + 8)),
        )
    }
}

/// Columns of records ascend strictly.
pub open spec fn bitmap_columns_ascend(v: Seq<RowBitmapRecord>) -> bool {
    forall|i: int, j: int|
        0 <= i < j < v.len() ==> (#[trigger] v[i]).column() < (#[trigger] v[j]).column()
}

/// A parsed presence or null segment.
#[derive(Debug)]
pub struct RowBitmapView {
    records: Vec<RowBitmapRecord>,
}

impl View for RowBitmapView {
    type V = Seq<RowBitmapRecord>;

    closed spec fn view(&self) -> Seq<RowBitmapRecord> {
        self.records@
    }
}

/// The bit of a row of a column, given the segment and its records.
pub open spec fn bitmap_lookup(
    v: Seq<RowBitmapRecord>,
    d: Seq<u8>,
    column: u32,
    row: u32,
) -> Option<bool> {
    if exists|i: int| 0 <= i < v.len() && (#[trigger] v[i]).column() == column {
        let i = choose|i: int| 0 <= i < v.len() && (#[trigger] v[i]).column() == column;
        if row < v[i].rows() && v[i].offset() + row / 8 < d.len() {
            Some((d[v[i].offset() + row / 8] as int / weight((row % 8) as int)) % 2 == 1)
        } else {
            None
        }
    } else {
        None
    }
}

impl RowBitmapView {
    #[verifier::type_invariant]
    spec fn inv(&self) -> bool {
        bitmap_columns_ascend(self.records@)
    }

    /// Parses and validates a segment.
    pub fn parse(bytes: &Bytes, kind: SegmentKind) -> (r: Result<Self, FormatError>)
        ensures
            match r {
                Ok(x) => bitmap_walk(outside::bytes_content(*bytes), kind, 0, Seq::empty()) == Ok::<
                    Seq<RowBitmapRecord>,
                    FormatError,
                >(x@) && bitmap_columns_ascend(x@),
                Err(e) => bitmap_walk(outside::bytes_content(*bytes), kind, 0, Seq::empty()) == Err::<
                    Seq<RowBitmapRecord>,
                    FormatError,
                >(e),
            },
    {
        let d: &[u8] = bytes_as_slice(bytes);
        let n: usize = d.len();
        let mut records: Vec<RowBitmapRecord> = Vec::new();
        let mut cursor: usize = 0;
        while cursor < n
            invariant
                cursor <= n,
                n == d@.len(),
                n <= usize::MAX,
                d@ == outside::bytes_content(*bytes),
                bitmap_columns_ascend(records@),
                bitmap_walk(d@, kind, 0, Seq::empty()) == bitmap_walk(
                    d@,
                    kind,
                    cursor as int,
                    records@,
                ),
            decreases n - cursor,
        {
            if n - cursor < 8 {
                return Err(FormatError::BitmapHeader { kind, at: cursor });
            }
            let column: u32 = load_u32(d, cursor);
            let rows: u32 = load_u32(d, cursor + 4);
            if records.len() > 0 {
                let prev_column: u32 = records[records.len() - 1].column_index;
                if column <= prev_column {
                    return Err(FormatError::BitmapOrder { kind, column, prev_column });
                }
            }
            let body: usize = bitmap_bytes(rows);
            if n - cursor - 8 < body {
                return Err(FormatError::BitmapBody { kind, column });
            }
            let rec = RowBitmapRecord {
                column_index: column,
                row_count: rows,
                bitmap_offset: cursor + 8,
            };
            let ghost before = records@;
            records.push(rec);
            cursor = cursor + 8 + body;
            proof {
                assert forall|i: int, j: int| 0 <= i < j < records@.len() implies (
                #[trigger] records@[i]).column() < (#[trigger] records@[j]).column() by {
                    if j == before.len() && i < before.len() - 1 {
                        assert(before[i].column() < before.last().column());
                    }
                }
            }
        }
        Ok(RowBitmapView { records })
    }

    /// True when no column has a record.
    pub fn is_empty(&self) -> (r: bool)
        ensures
            r == (self@.len() == 0),
    {
        self.records.len() == 0
    }

    /// The bit of a row of a column; `None` when the column has no record or
    /// the row is out of range.
    pub fn get(&self, bytes: &Bytes, column_index: u32, row: u32) -> (r: Option<bool>)
        ensures
            r == bitmap_lookup(self@, outside::bytes_content(*bytes), column_index, row),
    {
        proof {
            use_type_invariant(self);
        }
        let ghost v = self@;
        let mut lo: usize = 0;
        let mut hi: usize = self.records.len();
        while lo < hi
            invariant
                lo <= hi <= self.records@.len(),
                v == self.records@,
                v == self@,
                bitmap_columns_ascend(v),
                forall|i: int| 0 <= i < lo ==> (#[trigger] v[i]).column() < column_index,
                forall|i: int| hi <= i < v.len() ==> (#[trigger] v[i]).column() > column_index,
            decreases hi - lo,
        {
            let mid: usize = lo + (hi - lo) / 2;
            let rec: RowBitmapRecord = self.records[mid];
            assert(v[mid as int] == rec);
            if rec.column_index < column_index {
                lo = mid + 1;
            } else if rec.column_index > column_index {
                hi = mid;
            } else {
                assert(forall|i: int|
                    0 <= i < v.len() && (#[trigger] v[i]).column() == column_index ==> i == mid);
                if row >= rec.row_count {
                    return None;
                }
                let d: &[u8] = bytes_as_slice(bytes);
                let at: usize = row as usize / 8;
                if rec.bitmap_offset >= d.len() || at >= d.len() - rec.bitmap_offset {
                    return None;
                }
                let byte: u8 = d[rec.bitmap_offset + at];
                return Some((byte / weight_of(row as usize % 8)) % 2 == 1);
            }
        }
        None
    }

    /// Number of records.
    pub fn record_count(&self) -> (r: usize)
        ensures
            r == self@.len(),
    {
        self.records.len()
    }
}

/// The places of the first `n` records of a written segment.
pub open spec fn bitmap_places(v: Seq<BitmapRecord>, n: int) -> Seq<RowBitmapRecord>
    decreases n,
{
    if n <= 0 {
        Seq::empty()
    } else {
        bitmap_places(v, n - 1).push(
            RowBitmapRecord::of(
                v[n - 1].0,
                v[n - 1].1,
                bitmap_records(v, n - 1).len() as int + 8,
            ),
        )
    }
}

/// Columns of records to be written ascend strictly.
pub open spec fn bitmap_input_ascends(v: Seq<BitmapRecord>) -> bool {
    forall|i: int, j: int| 0 <= i < j < v.len() ==> (#[trigger] v[i]).0 < (#[trigger] v[j]).0
}

proof fn lemma_bitmap_records_prefix(v: Seq<BitmapRecord>, k: int, n: int)
    requires
        0 <= k <= n,
    ensures
        bitmap_records(v, k).len() <= bitmap_records(v, n).len(),
        bitmap_records(v, n).subrange(0, bitmap_records(v, k).len() as int) == bitmap_records(v, k),
    decreases n,
{
    if k < n {
        lemma_bitmap_records_prefix(v, k, n - 1);
        let a = bitmap_records(v, n - 1);
        let m = bitmap_records(v, k).len() as int;
        assert(bitmap_records(v, n).subrange(0, m) =~= a.subrange(0, m));
    } else {
        assert(bitmap_records(v, n).subrange(0, bitmap_records(v, n).len() as int)
            =~= bitmap_records(v, n));
    }
}

proof fn lemma_bitmap_record_fields(v: Seq<BitmapRecord>, k: int)
    requires
        0 <= k < v.len(),
        bitmap_record_fits(v[k]),
    ensures
        ({
            let d = bitmap_records(v, v.len() as int);
            let o = bitmap_records(v, k).len() as int;
            let m = bitmap_len(v[k].1 as int);
            &&& wire::u32_at(d, o) == v[k].0
            &&& wire::u32_at(d, o + 4) == v[k].1
            &&& o + 8 + m == bitmap_records(v, k + 1).len()
            &&& o + 8 + m <= d.len()
            &&& d.subrange(o + 8, o + 8 + m) == packed(v[k].2@)
        }),
{
    let n = v.len() as int;
    let d = bitmap_records(v, n);
    let a = bitmap_records(v, k);
    let b = bitmap_records(v, k + 1);
    let o = a.len() as int;
    let m = bitmap_len(v[k].1 as int);
    lemma_bitmap_records_prefix(v, k + 1, n);
    let rec = bitmap_record(v[k].0, v[k].1, v[k].2@);
    assert(b == a + rec);
    assert(packed(v[k].2@).len() == m);
    assert(d.subrange(o, o + 4) =~= d.subrange(0, b.len() as int).subrange(o, o + 4));
    assert(b.subrange(o, o + 4) =~= wire::put32(v[k].0));
    assert(d.subrange(o + 4, o + 8) =~= d.subrange(0, b.len() as int).subrange(o + 4, o + 8));
    assert(b.subrange(o + 4, o + 8) =~= wire::put32(v[k].1));
    assert(d.subrange(o + 8, o + 8 + m) =~= d.subrange(0, b.len() as int).subrange(
        o + 8,
        o + 8 + m,
    ));
    assert(b.subrange(o + 8, o + 8 + m) =~= packed(v[k].2@));
}

proof fn lemma_bitmap_walk_from(v: Seq<BitmapRecord>, kind: SegmentKind, k: int)
    requires
        0 <= k <= v.len(),
        bitmap_input_ascends(v),
        forall|i: int| 0 <= i < v.len() ==> bitmap_record_fits(#[trigger] v[i]),
    ensures
        bitmap_walk(
            bitmap_records(v, v.len() as int),
            kind,
            bitmap_records(v, k).len() as int,
            bitmap_places(v, k),
        ) == Ok::<Seq<RowBitmapRecord>, FormatError>(bitmap_places(v, v.len() as int)),
    decreases v.len() - k,
{
    if k < v.len() {
        lemma_bitmap_walk_from(v, kind, k + 1);
        lemma_bitmap_record_fields(v, k);
        if k > 0 {
            assert(bitmap_places(v, k).last().column() == v[k - 1].0);
            assert(v[k - 1].0 < v[k].0);
        }
    }
}

/// A written segment parses to a record for each record written, in order.
pub proof fn lemma_bitmap_segment_parses(v: Seq<BitmapRecord>, kind: SegmentKind)
    requires
        bitmap_input_ascends(v),
        forall|i: int| 0 <= i < v.len() ==> bitmap_record_fits(#[trigger] v[i]),
    ensures
        bitmap_walk(bitmap_records(v, v.len() as int), kind, 0, Seq::empty()) == Ok::<
            Seq<RowBitmapRecord>,
            FormatError,
        >(bitmap_places(v, v.len() as int)),
{
    lemma_bitmap_walk_from(v, kind, 0);
}

proof fn lemma_bitmap_places(v: Seq<BitmapRecord>, n: int, i: int)
    requires
        0 <= i < n <= v.len(),
        forall|k: int| 0 <= k < v.len() ==> bitmap_record_fits(#[trigger] v[k]),
        bitmap_records(v, v.len() as int).len() <= usize::MAX,
    ensures
        bitmap_places(v, n).len() == n,
        bitmap_places(v, n)[i].column() == v[i].0,
        bitmap_places(v, n)[i].rows() == v[i].1,
        bitmap_places(v, n)[i].offset() == bitmap_records(v, i).len() + 8,
    decreases n,
{
    if i == n - 1 {
        lemma_bitmap_record_fields(v, i);
        lemma_bitmap_places_len(v, n - 1);
    } else {
        lemma_bitmap_places(v, n - 1, i);
    }
}

proof fn lemma_bitmap_places_len(v: Seq<BitmapRecord>, n: int)
    requires
        0 <= n,
    ensures
        bitmap_places(v, n).len() == n,
    decreases n,
{
    if n > 0 {
        lemma_bitmap_places_len(v, n - 1);
    }
}

/// Every bit written is read back: row `row` of record `k` looks up as the bit
/// handed in. A column without a record looks up as nothing.
pub proof fn lemma_bitmap_lookup_after_write(
    v: Seq<BitmapRecord>,
    kind: SegmentKind,
    column: u32,
    row: u32,
)
    requires
        bitmap_input_ascends(v),
        forall|i: int| 0 <= i < v.len() ==> bitmap_record_fits(#[trigger] v[i]),
        bitmap_records(v, v.len() as int).len() <= usize::MAX,
    ensures
        forall|k: int|
            0 <= k < v.len() && (#[trigger] v[k]).0 == column && row < v[k].1 ==> bitmap_lookup(
                bitmap_places(v, v.len() as int),
                bitmap_records(v, v.len() as int),
                column,
                row,
            ) == Some(v[k].2@[row as int]),
        (forall|k: int| 0 <= k < v.len() ==> (#[trigger] v[k]).0 != column) ==> bitmap_lookup(
            bitmap_places(v, v.len() as int),
            bitmap_records(v, v.len() as int),
            column,
            row,
        ) is None,
{
    let n = v.len() as int;
    let places = bitmap_places(v, n);
    let d = bitmap_records(v, n);
    lemma_bitmap_places_len(v, n);
    assert forall|i: int| 0 <= i < n implies (#[trigger] places[i]).column() == v[i].0
        && places[i].rows() == v[i].1 && places[i].offset() == bitmap_records(v, i).len() + 8 by {
        lemma_bitmap_places(v, n, i);
    }
    assert forall|k: int|
        0 <= k < v.len() && (#[trigger] v[k]).0 == column && row < v[k].1 implies bitmap_lookup(
        places,
        d,
        column,
        row,
    ) == Some(v[k].2@[row as int]) by {
        lemma_bitmap_record_fields(v, k);
        assert(places[k].column() == column);
        let i = choose|i: int| 0 <= i < places.len() && (#[trigger] places[i]).column() == column;
        assert(i == k) by {
            if i < k {
                assert(v[i].0 < v[k].0);
            } else if k < i {
                assert(v[k].0 < v[i].0);
            }
        }
        let o = bitmap_records(v, k).len() as int;
        let m = bitmap_len(v[k].1 as int);
        let body = d.subrange(o + 8, o + 8 + m);
        assert(row / 8 < m);
        assert(body[(row / 8) as int] == d[o + 8 + row / 8]);
        lemma_packed_bits(v[k].2@, row as int);
    }
}

} // verus!
