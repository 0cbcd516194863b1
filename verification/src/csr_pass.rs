//! Streaming adjacency emission.
//!
//! A first walk over the forward run, which is sorted by `(table, source,
//! destination, edge)`, writes the forward offsets and targets of every
//! relationship table and stages one reverse record per edge with the position
//! that the edge got. A second walk, over the sorted reverse run, writes the
//! reverse offsets, the reverse targets and those positions. Only the running
//! cursor of the current table is kept.

use crate::generation::{CodecError, GenerationError, WireCount};
use crate::runs::{RecordView, RunSetLease, RunSink, SortRecord};
use crate::views;
use crate::wire::{load_u16_be, load_u32, load_u64_be, push_u16_be, push_u32, push_u64_be};
use crate::wire;
use vstd::prelude::*;

verus! {

/// Row counts of the two tables that a relationship table connects.
#[derive(Debug, Clone, Copy)]
pub struct RelTableGeometry {
    /// Relationship table.
    pub rel_id: u16,
    /// Rows of the source table.
    pub src_rows: u64,
    /// Rows of the destination table.
    pub dst_rows: u64,
}

/// The sort key of an edge in one direction.
pub open spec fn edge_key(rel: u16, row: u64, col: u64, edge: u64) -> Seq<u8> {
    wire::put16_be(rel) + (wire::put64_be(row) + (wire::put64_be(col) + wire::put64_be(edge)))
}

/// The parts of an edge key: table, row, column, edge.
pub open spec fn split_edge_key(d: Seq<u8>) -> Result<(u16, u64, u64, u64), GenerationError> {
    if d.len() != 26 {
        Err(GenerationError::Codec(CodecError::KeyWidth(d.len() as usize)))
    } else {
        Ok((wire::u16_be_at(d, 0), wire::u64_be_at(d, 2), wire::u64_be_at(d, 10), wire::u64_be_at(d, 18)))
    }
}

/// Builds an edge key.
pub fn make_edge_key(rel: u16, row: u64, col: u64, edge: u64) -> (r: Vec<u8>)
    ensures
        r@ == edge_key(rel, row, col, edge),
{
    let mut key: Vec<u8> = Vec::new();
    push_u16_be(&mut key, rel);
    push_u64_be(&mut key, row);
    push_u64_be(&mut key, col);
    push_u64_be(&mut key, edge);
    assert(key@ =~= edge_key(rel, row, col, edge));
    key
}

/// Splits a forward sort key into table, source, destination and edge.
pub fn split_fwd_key(key: &[u8]) -> (r: Result<(u16, u64, u64, u64), GenerationError>)
    ensures
        r == split_edge_key(key@),
{
    assert(key@.len() == key.len());
    if key.len() != 26 {
        return Err(GenerationError::Codec(CodecError::KeyWidth(key.len())));
    }
    Ok((load_u16_be(key, 0), load_u64_be(key, 2), load_u64_be(key, 10), load_u64_be(key, 18)))
}

/// Splits a reverse sort key into table, destination, source and edge.
pub fn split_rev_key(key: &[u8]) -> (r: Result<(u16, u64, u64, u64), GenerationError>)
    ensures
        r == split_edge_key(key@),
{
    split_fwd_key(key)
}

/// Splitting an edge key gives its parts back.
pub proof fn lemma_edge_key_round_trip(rel: u16, row: u64, col: u64, edge: u64)
    ensures
        split_edge_key(edge_key(rel, row, col, edge)) == Ok::<
            (u16, u64, u64, u64),
            GenerationError,
        >((rel, row, col, edge)),
{
    broadcast use wire::group_wire;

    let d = edge_key(rel, row, col, edge);
    assert(d.subrange(0, 2) =~= wire::put16_be(rel));
    assert(d.subrange(2, 10) =~= wire::put64_be(row));
    assert(d.subrange(10, 18) =~= wire::put64_be(col));
    assert(d.subrange(18, 26) =~= wire::put64_be(edge));
}

/// Edge keys sort by table, then row, then column, then edge.
pub proof fn lemma_edge_key_order(a: (u16, u64, u64, u64), b: (u16, u64, u64, u64))
    ensures
        wire::lex_lt(edge_key(a.0, a.1, a.2, a.3), edge_key(b.0, b.1, b.2, b.3)) == (a.0 < b.0 || (a.0
            == b.0 && (a.1 < b.1 || (a.1 == b.1 && (a.2 < b.2 || (a.2 == b.2 && a.3 < b.3)))))),
{
    broadcast use wire::group_wire;

    let a3 = wire::put64_be(a.3);
    let b3 = wire::put64_be(b.3);
    let a2 = wire::put64_be(a.2);
    let b2 = wire::put64_be(b.2);
    let a1 = wire::put64_be(a.1);
    let b1 = wire::put64_be(b.1);
    let a0 = wire::put16_be(a.0);
    let b0 = wire::put16_be(b.0);
    wire::lemma_lex_heads(a0, b0, a1 + (a2 + a3), b1 + (b2 + b3));
    wire::lemma_lex_heads(a1, b1, a2 + a3, b2 + b3);
    wire::lemma_lex_heads(a2, b2, a3, b3);
    wire::lemma_be16_order(a.0, b.0);
    wire::lemma_be64_order(a.1, b.1);
    wire::lemma_be64_order(a.2, b.2);
    wire::lemma_be64_order(a.3, b.3);
    assert(wire::get16_be(a0) == a.0 && wire::get16_be(b0) == b.0);
    assert(wire::get64_be(a1) == a.1 && wire::get64_be(b1) == b.1);
    assert(wire::get64_be(a2) == a.2 && wire::get64_be(b2) == b.2);
}

// --------------------------------------------------------------- offsets

/// The offset walk: the current table with its rows, the next row whose
/// offset is due, the edges of the table so far, and the offsets written.
pub struct OffsetWalk {
    /// Current table.
    pub rel: Option<u16>,
    /// Its rows.
    pub rows: int,
    /// Next row without an offset.
    pub next: int,
    /// Edges of the table so far.
    pub pos: int,
    /// Offsets written.
    pub offsets: Seq<u32>,
}

/// The walk before any edge.
pub open spec fn no_offsets() -> OffsetWalk {
    OffsetWalk { rel: None, rows: 0, next: 0, pos: 0, offsets: Seq::empty() }
}

/// One offset for each row of `next..end`.
pub open spec fn fill(pos: int, next: int, end: int) -> Seq<u32> {
    Seq::new(
        if next < end {
            (end - next) as nat
        } else {
            0
        },
        |i: int| pos as u32,
    )
}

/// The offsets once the current table is closed by its sentinel.
pub open spec fn closed_offsets(w: OffsetWalk) -> Seq<u32> {
    if w.rel is Some {
        w.offsets + fill(w.pos, w.next, w.rows + 1)
    } else {
        w.offsets
    }
}

/// The overflow of an adjacency position.
pub open spec fn position_overflow(n: u64) -> GenerationError {
    GenerationError::WireWidthOverflow { what: WireCount::CsrPosition, count: n, max: 0xffff_ffff }
}

/// The walk at the table of an edge: still the current one, or a fresh one
/// with the sentinel of the last one behind it.
pub open spec fn at_table(w: OffsetWalk, rel: u16, rows: Option<u64>) -> Result<
    OffsetWalk,
    GenerationError,
> {
    if w.rel == Some(rel) {
        Ok(w)
    } else {
        match rows {
            None => Err(GenerationError::Codec(CodecError::UnknownRelTable)),
            Some(n) => if n > 0xffff_ffff {
                Err(
                    GenerationError::WireWidthOverflow {
                        what: WireCount::RowCount,
                        count: n,
                        max: 0xffff_ffff,
                    },
                )
            } else {
                Ok(
                    OffsetWalk {
                        rel: Some(rel),
                        rows: n as int,
                        next: 0,
                        pos: 0,
                        offsets: closed_offsets(w),
                    },
                )
            },
        }
    }
}

/// The walk behind an edge at `row` of its table: every row up to it has its
/// offset.
pub open spec fn offset_step(w: OffsetWalk, rel: u16, rows: Option<u64>, row: u64) -> Result<
    OffsetWalk,
    GenerationError,
> {
    match at_table(w, rel, rows) {
        Err(e) => Err(e),
        Ok(w) => if row > 0xffff_ffff {
            Err(position_overflow(row))
        } else if w.pos >= 0xffff_ffff {
            Err(position_overflow(w.pos as u64))
        } else {
            Ok(
                OffsetWalk {
                    next: if w.next <= row {
                        row + 1
                    } else {
                        w.next
                    },
                    pos: w.pos + 1,
                    offsets: w.offsets + fill(w.pos, w.next, row + 1),
                    ..w
                },
            )
        },
    }
}

/// The cursor of an offset walk.
struct OffsetCursor {
    rel: Option<u16>,
    rows: u64,
    next: u64,
    pos: u64,
}

impl OffsetCursor {
    spec fn follows(&self, w: OffsetWalk) -> bool {
        &&& self.rel == w.rel
        &&& self.rows == w.rows
        &&& self.next == w.next
        &&& self.pos == w.pos
        &&& self.rows <= 0xffff_ffff
        &&& self.next <= 0x1_0000_0000
        &&& self.pos <= 0xffff_ffff
    }

    fn new() -> (r: Self)
        ensures
            r.follows(no_offsets()),
    {
        OffsetCursor { rel: None, rows: 0, next: 0, pos: 0 }
    }

    /// Writes the offset of each row before `end`.
    fn fill_to(&self, end: u64, out: &mut Vec<u8>)
        requires
            self.pos <= 0xffff_ffff,
        ensures
            final(out)@ == old(out)@ + views::bytes_of_u32s(
                fill(self.pos as int, self.next as int, end as int),
            ),
    {
        let ghost start = out@;
        let mut row: u64 = self.next;
        assert(fill(self.pos as int, self.next as int, row as int) =~= Seq::<u32>::empty());
        assert(start + views::bytes_of_u32s(Seq::<u32>::empty()) =~= start);
        while row < end
            invariant
                self.next <= row,
                row <= end || row == self.next,
                self.pos <= 0xffff_ffff,
                out@ == start + views::bytes_of_u32s(
                    fill(self.pos as int, self.next as int, row as int),
                ),
            decreases end - row,
        {
            push_u32(out, self.pos as u32);
            proof {
                let before = fill(self.pos as int, self.next as int, row as int);
                let after = fill(self.pos as int, self.next as int, row + 1);
                assert(after =~= before.push(self.pos as u32));
                wire::lemma_flat_push(before, self.pos as u32, |v: u32| wire::put32(v));
            }
            row = row + 1;
            assert(out@ =~= start + views::bytes_of_u32s(
                fill(self.pos as int, self.next as int, row as int),
            ));
        }
        assert(fill(self.pos as int, self.next as int, row as int) =~= fill(
            self.pos as int,
            self.next as int,
            end as int,
        ));
    }

    /// Writes the sentinel of the current table.
    fn close(&self, out: &mut Vec<u8>, Ghost(w): Ghost<OffsetWalk>)
        requires
            self.follows(w),
        ensures
            final(out)@.len() >= old(out)@.len(),
            forall|start: Seq<u8>|
                old(out)@ == #[trigger] (start + views::bytes_of_u32s(w.offsets)) ==> final(out)@ == start
                    + views::bytes_of_u32s(closed_offsets(w)),
    {
        let ghost before = out@;
        if self.rel.is_some() {
            self.fill_to(self.rows + 1, out);
            proof {
                let f = fill(w.pos, w.next, w.rows + 1);
                wire::lemma_flat_add(w.offsets, f, |v: u32| wire::put32(v));
                assert forall|start: Seq<u8>|
                    before == #[trigger] (start + views::bytes_of_u32s(w.offsets)) implies out@ == start
                    + views::bytes_of_u32s(closed_offsets(w)) by {
                    assert(out@ =~= start + (views::bytes_of_u32s(w.offsets) + views::bytes_of_u32s(f)));
                }
            }
        }
    }

    /// Steps over an edge.
    fn step(
        &mut self,
        rel: u16,
        rows: Option<u64>,
        row: u64,
        out: &mut Vec<u8>,
        Ghost(w): Ghost<OffsetWalk>,
        Ghost(start): Ghost<Seq<u8>>,
    ) -> (r: Result<(), GenerationError>)
        requires
            old(self).follows(w),
            old(out)@ == start + views::bytes_of_u32s(w.offsets),
        ensures
            match r {
                Ok(_) => offset_step(w, rel, rows, row) is Ok && final(self).follows(
                    offset_step(w, rel, rows, row)->Ok_0,
                ) && final(out)@ == start + views::bytes_of_u32s(
                    offset_step(w, rel, rows, row)->Ok_0.offsets,
                ),
                Err(e) => offset_step(w, rel, rows, row) == Err::<OffsetWalk, GenerationError>(e),
            },
    {
        let ghost mut now = w;
        let same: bool = match self.rel {
            Some(r) => r == rel,
            None => false,
        };
        if !same {
            let n: u64 = match rows {
                Some(n) => n,
                None => return Err(GenerationError::Codec(CodecError::UnknownRelTable)),
            };
            if n > 0xffff_ffff {
                return Err(
                    GenerationError::WireWidthOverflow {
                        what: WireCount::RowCount,
                        count: n,
                        max: 0xffff_ffff,
                    },
                );
            }
            self.close(out, Ghost(w));
            self.rel = Some(rel);
            self.rows = n;
            self.next = 0;
            self.pos = 0;
            proof {
                now = at_table(w, rel, rows)->Ok_0;
            }
        }
        assert(at_table(w, rel, rows) == Ok::<OffsetWalk, GenerationError>(now));
        if row > 0xffff_ffff {
            return Err(
                GenerationError::WireWidthOverflow {
                    what: WireCount::CsrPosition,
                    count: row,
                    max: 0xffff_ffff,
                },
            );
        }
        if self.pos >= 0xffff_ffff {
            return Err(
                GenerationError::WireWidthOverflow {
                    what: WireCount::CsrPosition,
                    count: self.pos,
                    max: 0xffff_ffff,
                },
            );
        }
        let ghost before = out@;
        self.fill_to(row + 1, out);
        proof {
            let f = fill(now.pos, now.next, row + 1);
            wire::lemma_flat_add(now.offsets, f, |v: u32| wire::put32(v));
            assert(out@ =~= start + (views::bytes_of_u32s(now.offsets) + views::bytes_of_u32s(f)));
        }
        if self.next <= row {
            self.next = row + 1;
        }
        self.pos = self.pos + 1;
        Ok(())
    }
}

// --------------------------------------------------------------- forward

/// The rows on the source side of a table.
pub open spec fn src_rows_of(g: Seq<RelTableGeometry>, rel: u16) -> Option<u64> {
    if rel < g.len() {
        Some(g[rel as int].src_rows)
    } else {
        None
    }
}

/// The rows on the destination side of a table.
pub open spec fn dst_rows_of(g: Seq<RelTableGeometry>, rel: u16) -> Option<u64> {
    if rel < g.len() {
        Some(g[rel as int].dst_rows)
    } else {
        None
    }
}

/// The forward walk: offsets, targets and the reverse records staged.
pub struct ForwardWalk {
    /// Offsets.
    pub offsets: OffsetWalk,
    /// Destination of each edge.
    pub targets: Seq<u32>,
    /// Reverse record of each edge.
    pub reverse: Seq<RecordView>,
}

/// The reverse record of an edge: its key turned round, and its position.
pub open spec fn reverse_record(p: (u16, u64, u64, u64), pos: int) -> RecordView {
    RecordView { key: edge_key(p.0, p.2, p.1, p.3), payload: wire::put32(pos as u32) }
}

/// The forward walk behind one more record.
pub open spec fn forward_step(g: Seq<RelTableGeometry>, w: ForwardWalk, rec: RecordView) -> Result<
    ForwardWalk,
    GenerationError,
> {
    match split_edge_key(rec.key) {
        Err(e) => Err(e),
        Ok(p) => match offset_step(w.offsets, p.0, src_rows_of(g, p.0), p.1) {
            Err(e) => Err(e),
            Ok(o) => if p.2 > 0xffff_ffff {
                Err(position_overflow(p.2))
            } else {
                Ok(
                    ForwardWalk {
                        offsets: o,
                        targets: w.targets.push(p.2 as u32),
                        reverse: w.reverse.push(reverse_record(p, o.pos - 1)),
                    },
                )
            },
        },
    }
}

/// The forward walk behind the first `k` records.
pub open spec fn forward_after(g: Seq<RelTableGeometry>, recs: Seq<RecordView>, k: nat) -> Result<
    ForwardWalk,
    GenerationError,
>
    decreases k,
{
    if k == 0 {
        Ok(ForwardWalk { offsets: no_offsets(), targets: Seq::empty(), reverse: Seq::empty() })
    } else {
        match forward_after(g, recs, (k - 1) as nat) {
            Err(e) => Err(e),
            Ok(w) => forward_step(g, w, recs[k - 1]),
        }
    }
}

proof fn lemma_forward_fail(g: Seq<RelTableGeometry>, recs: Seq<RecordView>, i: nat, n: nat)
    requires
        i <= n,
        forward_after(g, recs, i) is Err,
    ensures
        forward_after(g, recs, n) == forward_after(g, recs, i),
    decreases n,
{
    if i < n {
        lemma_forward_fail(g, recs, i, (n - 1) as nat);
    }
}

/// Walks the forward run: writes offsets and targets and stages the reverse
/// records.
pub fn stream_forward_csr(
    fwd_lease: &RunSetLease,
    geometry: &[RelTableGeometry],
    fwd_offsets: &mut Vec<u8>,
    fwd_targets: &mut Vec<u8>,
    rev_sink: &mut RunSink,
) -> (r: Result<(), GenerationError>)
    ensures
        match r {
            Ok(_) => {
                let w = forward_after(geometry@, fwd_lease@, fwd_lease@.len());
                &&& w is Ok
                &&& final(fwd_offsets)@ == old(fwd_offsets)@ + views::bytes_of_u32s(
                    closed_offsets(w->Ok_0.offsets),
                )
                &&& final(fwd_targets)@ == old(fwd_targets)@ + views::bytes_of_u32s(w->Ok_0.targets)
                &&& final(rev_sink)@ == old(rev_sink)@ + w->Ok_0.reverse
            },
            Err(e) => forward_after(geometry@, fwd_lease@, fwd_lease@.len()) == Err::<
                ForwardWalk,
                GenerationError,
            >(e),
        },
{
    let n: usize = fwd_lease.len();
    let ghost recs = fwd_lease@;
    let ghost g = geometry@;
    let ghost off0 = fwd_offsets@;
    let ghost tgt0 = fwd_targets@;
    let ghost rev0 = rev_sink@;
    let ghost mut w = ForwardWalk {
        offsets: no_offsets(),
        targets: Seq::empty(),
        reverse: Seq::empty(),
    };
    let mut cursor: OffsetCursor = OffsetCursor::new();
    let mut i: usize = 0;
    assert(off0 + views::bytes_of_u32s(w.offsets.offsets) =~= off0);
    assert(tgt0 + views::bytes_of_u32s(w.targets) =~= tgt0);
    assert(rev0 + w.reverse =~= rev0);
    while i < n
        invariant
            i <= n,
            n == recs.len(),
            recs == fwd_lease@,
            g == geometry@,
            forward_after(g, recs, i as nat) == Ok::<ForwardWalk, GenerationError>(w),
            cursor.follows(w.offsets),
            fwd_offsets@ == off0 + views::bytes_of_u32s(w.offsets.offsets),
            fwd_targets@ == tgt0 + views::bytes_of_u32s(w.targets),
            rev_sink@ == rev0 + w.reverse,
        decreases n - i,
    {
        proof {
            if forward_after(g, recs, (i + 1) as nat) is Err {
                lemma_forward_fail(g, recs, (i + 1) as nat, n as nat);
            }
        }
        let rec: &SortRecord = fwd_lease.record_at(i);
        let (rel, src, dst, edge) = match split_fwd_key(rec.key.as_slice()) {
            Ok(p) => p,
            Err(e) => return Err(e),
        };
        let rows: Option<u64> = if (rel as usize) < geometry.len() {
            Some(geometry[rel as usize].src_rows)
        } else {
            None
        };
        match cursor.step(rel, rows, src, fwd_offsets, Ghost(w.offsets), Ghost(off0)) {
            Ok(_) => {},
            Err(e) => return Err(e),
        }
        if dst > 0xffff_ffff {
            return Err(
                GenerationError::WireWidthOverflow {
                    what: WireCount::CsrPosition,
                    count: dst,
                    max: 0xffff_ffff,
                },
            );
        }
        push_u32(fwd_targets, dst as u32);
        let mut payload: Vec<u8> = Vec::new();
        push_u32(&mut payload, (cursor.pos - 1) as u32);
        let ghost pv = payload@;
        rev_sink.push(SortRecord::new(make_edge_key(rel, dst, src, edge), payload));
        proof {
            let next = forward_step(g, w, recs[i as int])->Ok_0;
            wire::lemma_flat_push(w.targets, dst as u32, |v: u32| wire::put32(v));
            assert(fwd_targets@ =~= tgt0 + views::bytes_of_u32s(next.targets));
            assert(pv =~= wire::put32((cursor.pos - 1) as u32));
            assert(rev_sink@ =~= rev0 + next.reverse);
            w = next;
        }
        i = i + 1;
    }
    cursor.close(fwd_offsets, Ghost(w.offsets));
    Ok(())
}

// --------------------------------------------------------------- reverse

/// The reverse walk: offsets, sources and forward positions.
pub struct ReverseWalk {
    /// Offsets.
    pub offsets: OffsetWalk,
    /// Source of each edge.
    pub targets: Seq<u32>,
    /// Forward position of each edge.
    pub positions: Seq<u32>,
}

/// The reverse walk behind one more record.
pub open spec fn reverse_step(g: Seq<RelTableGeometry>, w: ReverseWalk, rec: RecordView) -> Result<
    ReverseWalk,
    GenerationError,
> {
    match split_edge_key(rec.key) {
        Err(e) => Err(e),
        Ok(p) => if rec.payload.len() != 4 {
            Err(GenerationError::Codec(CodecError::PayloadWidth(rec.payload.len() as usize)))
        } else {
            match offset_step(w.offsets, p.0, dst_rows_of(g, p.0), p.1) {
                Err(e) => Err(e),
                Ok(o) => if p.2 > 0xffff_ffff {
                    Err(position_overflow(p.2))
                } else {
                    Ok(
                        ReverseWalk {
                            offsets: o,
                            targets: w.targets.push(p.2 as u32),
                            positions: w.positions.push(wire::u32_at(rec.payload, 0)),
                        },
                    )
                },
            }
        },
    }
}

/// The reverse walk behind the first `k` records.
pub open spec fn reverse_after(g: Seq<RelTableGeometry>, recs: Seq<RecordView>, k: nat) -> Result<
    ReverseWalk,
    GenerationError,
>
    decreases k,
{
    if k == 0 {
        Ok(ReverseWalk { offsets: no_offsets(), targets: Seq::empty(), positions: Seq::empty() })
    } else {
        match reverse_after(g, recs, (k - 1) as nat) {
            Err(e) => Err(e),
            Ok(w) => reverse_step(g, w, recs[k - 1]),
        }
    }
}

proof fn lemma_reverse_fail(g: Seq<RelTableGeometry>, recs: Seq<RecordView>, i: nat, n: nat)
    requires
        i <= n,
        reverse_after(g, recs, i) is Err,
    ensures
        reverse_after(g, recs, n) == reverse_after(g, recs, i),
    decreases n,
{
    if i < n {
        lemma_reverse_fail(g, recs, i, (n - 1) as nat);
    }
}

/// Walks the sorted reverse run: writes reverse offsets, reverse targets and
/// the forward positions.
pub fn stream_reverse_csr(
    rev_lease: &RunSetLease,
    geometry: &[RelTableGeometry],
    rev_offsets: &mut Vec<u8>,
    rev_targets: &mut Vec<u8>,
    fwd_positions: &mut Vec<u8>,
) -> (r: Result<(), GenerationError>)
    ensures
        match r {
            Ok(_) => {
                let w = reverse_after(geometry@, rev_lease@, rev_lease@.len());
                &&& w is Ok
                &&& final(rev_offsets)@ == old(rev_offsets)@ + views::bytes_of_u32s(
                    closed_offsets(w->Ok_0.offsets),
                )
                &&& final(rev_targets)@ == old(rev_targets)@ + views::bytes_of_u32s(w->Ok_0.targets)
                &&& final(fwd_positions)@ == old(fwd_positions)@ + views::bytes_of_u32s(
                    w->Ok_0.positions,
                )
            },
            Err(e) => reverse_after(geometry@, rev_lease@, rev_lease@.len()) == Err::<
                ReverseWalk,
                GenerationError,
            >(e),
        },
{
    let n: usize = rev_lease.len();
    let ghost recs = rev_lease@;
    let ghost g = geometry@;
    let ghost off0 = rev_offsets@;
    let ghost tgt0 = rev_targets@;
    let ghost pos0 = fwd_positions@;
    let ghost mut w = ReverseWalk {
        offsets: no_offsets(),
        targets: Seq::empty(),
        positions: Seq::empty(),
    };
    let mut cursor: OffsetCursor = OffsetCursor::new();
    let mut i: usize = 0;
    assert(off0 + views::bytes_of_u32s(w.offsets.offsets) =~= off0);
    assert(tgt0 + views::bytes_of_u32s(w.targets) =~= tgt0);
    assert(pos0 + views::bytes_of_u32s(w.positions) =~= pos0);
    while i < n
        invariant
            i <= n,
            n == recs.len(),
            recs == rev_lease@,
            g == geometry@,
            reverse_after(g, recs, i as nat) == Ok::<ReverseWalk, GenerationError>(w),
            cursor.follows(w.offsets),
            rev_offsets@ == off0 + views::bytes_of_u32s(w.offsets.offsets),
            rev_targets@ == tgt0 + views::bytes_of_u32s(w.targets),
            fwd_positions@ == pos0 + views::bytes_of_u32s(w.positions),
        decreases n - i,
    {
        proof {
            if reverse_after(g, recs, (i + 1) as nat) is Err {
                lemma_reverse_fail(g, recs, (i + 1) as nat, n as nat);
            }
        }
        let rec: &SortRecord = rev_lease.record_at(i);
        let (rel, dst, src, edge) = match split_rev_key(rec.key.as_slice()) {
            Ok(p) => p,
            Err(e) => return Err(e),
        };
        if rec.payload.len() != 4 {
            return Err(GenerationError::Codec(CodecError::PayloadWidth(rec.payload.len())));
        }
        let at: u32 = load_u32(rec.payload.as_slice(), 0);
        let rows: Option<u64> = if (rel as usize) < geometry.len() {
            Some(geometry[rel as usize].dst_rows)
        } else {
            None
        };
        match cursor.step(rel, rows, dst, rev_offsets, Ghost(w.offsets), Ghost(off0)) {
            Ok(_) => {},
            Err(e) => return Err(e),
        }
        if src > 0xffff_ffff {
            return Err(
                GenerationError::WireWidthOverflow {
                    what: WireCount::CsrPosition,
                    count: src,
                    max: 0xffff_ffff,
                },
            );
        }
        push_u32(rev_targets, src as u32);
        push_u32(fwd_positions, at);
        proof {
            let next = reverse_step(g, w, recs[i as int])->Ok_0;
            wire::lemma_flat_push(w.targets, src as u32, |v: u32| wire::put32(v));
            wire::lemma_flat_push(w.positions, at, |v: u32| wire::put32(v));
            assert(rev_targets@ =~= tgt0 + views::bytes_of_u32s(next.targets));
            assert(fwd_positions@ =~= pos0 + views::bytes_of_u32s(next.positions));
            w = next;
        }
        i = i + 1;
    }
    cursor.close(rev_offsets, Ghost(w.offsets));
    Ok(())
}

// ------------------------------------------------------------------ laws

/// The rows of the first `k` edges of one table, as the offset walk sees them.
pub open spec fn table_walk(rel: u16, rows: u64, at: Seq<u64>, k: nat) -> Result<
    OffsetWalk,
    GenerationError,
>
    decreases k,
{
    if k == 0 {
        Ok(no_offsets())
    } else {
        match table_walk(rel, rows, at, (k - 1) as nat) {
            Err(e) => Err(e),
            Ok(w) => offset_step(w, rel, Some(rows), at[k - 1]),
        }
    }
}

/// Number of the first `k` edges that lie in rows before `row`.
pub open spec fn edges_before(at: Seq<u64>, row: int, k: nat) -> nat
    decreases k,
{
    if k == 0 {
        0
    } else {
        edges_before(at, row, (k - 1) as nat) + if at[k - 1] < row {
            1nat
        } else {
            0nat
        }
    }
}

proof fn lemma_edges_before_all(at: Seq<u64>, row: int, k: nat)
    requires
        forall|i: int| 0 <= i < k ==> (#[trigger] at[i]) < row,
    ensures
        edges_before(at, row, k) == k,
    decreases k,
{
    if k > 0 {
        lemma_edges_before_all(at, row, (k - 1) as nat);
    }
}

proof fn lemma_edges_before_last(at: Seq<u64>, row: int, k: nat)
    requires
        0 < k <= at.len(),
        row <= at[k - 1],
    ensures
        edges_before(at, row, k) == edges_before(at, row, (k - 1) as nat),
{
}

proof fn lemma_table_walk(rel: u16, rows: u64, at: Seq<u64>, k: nat)
    requires
        rows <= 0xffff_ffff,
        0 < k <= at.len(),
        at.len() <= 0xffff_ffff,
        forall|i: int| 0 <= i < at.len() ==> (#[trigger] at[i]) < rows,
        forall|i: int, j: int| 0 <= i < j < at.len() ==> (#[trigger] at[i]) <= (#[trigger] at[j]),
    ensures
        table_walk(rel, rows, at, k) matches Ok(w) && w.rel == Some(rel) && w.rows == rows
            && w.pos == k && w.next == at[k - 1] + 1 && w.offsets.len() == w.next && forall|r: int|
            0 <= r < w.next ==> (#[trigger] w.offsets[r]) == edges_before(at, r, k),
    decreases k,
{
    if k == 1 {
        assert(table_walk(rel, rows, at, 0) == Ok::<OffsetWalk, GenerationError>(no_offsets()));
        let w = table_walk(rel, rows, at, k)->Ok_0;
        assert forall|r: int| 0 <= r < w.next implies (#[trigger] w.offsets[r]) == edges_before(
            at,
            r,
            k,
        ) by {
            lemma_edges_before_last(at, r, k);
            assert(edges_before(at, r, 0) == 0);
        }
    } else {
        lemma_table_walk(rel, rows, at, (k - 1) as nat);
        let v = table_walk(rel, rows, at, (k - 1) as nat)->Ok_0;
        let w = table_walk(rel, rows, at, k)->Ok_0;
        assert(at[k - 2] <= at[k - 1]);
        assert forall|r: int| 0 <= r < w.next implies (#[trigger] w.offsets[r]) == edges_before(
            at,
            r,
            k,
        ) by {
            lemma_edges_before_last(at, r, k);
            if r < v.next {
                assert(w.offsets[r] == v.offsets[r]);
            } else {
                lemma_edges_before_all(at, r, (k - 1) as nat);
            }
        }
    }
}

/// The offsets of a table whose edges come in row order: for every row, and
/// for the sentinel behind the last one, the number of edges in the rows
/// before it.
pub proof fn lemma_offsets_count_edges(rel: u16, rows: u64, at: Seq<u64>)
    requires
        rows <= 0xffff_ffff,
        0 < at.len() <= 0xffff_ffff,
        forall|i: int| 0 <= i < at.len() ==> (#[trigger] at[i]) < rows,
        forall|i: int, j: int| 0 <= i < j < at.len() ==> (#[trigger] at[i]) <= (#[trigger] at[j]),
    ensures
        table_walk(rel, rows, at, at.len()) is Ok,
        closed_offsets(table_walk(rel, rows, at, at.len())->Ok_0) == Seq::new(
            (rows + 1) as nat,
            |r: int| edges_before(at, r, at.len()) as u32,
        ),
{
    let n = at.len();
    lemma_table_walk(rel, rows, at, n);
    let w = table_walk(rel, rows, at, n)->Ok_0;
    assert(at[n - 1] < rows);
    let c = closed_offsets(w);
    let want = Seq::new((rows + 1) as nat, |r: int| edges_before(at, r, n) as u32);
    assert forall|r: int| 0 <= r < rows + 1 implies c[r] == want[r] by {
        if r < w.next {
            assert(c[r] == w.offsets[r]);
        } else {
            assert forall|i: int| 0 <= i < n implies (#[trigger] at[i]) < r by {
                if i < n - 1 {
                    assert(at[i] <= at[n - 1]);
                }
            }
            lemma_edges_before_all(at, r, n);
        }
    }
    assert(c =~= want);
}

/// The reverse record of an edge carries the position of the edge in its
/// table, and its key turned round: walking the reverse run puts that
/// position beside the source.
pub proof fn lemma_reverse_record_carries_position(
    g: Seq<RelTableGeometry>,
    w: ReverseWalk,
    p: (u16, u64, u64, u64),
    pos: int,
)
    requires
        0 <= pos <= 0xffff_ffff,
        p.1 <= 0xffff_ffff,
        offset_step(w.offsets, p.0, dst_rows_of(g, p.0), p.2) is Ok,
    ensures
        reverse_step(g, w, reverse_record(p, pos)) matches Ok(v) && v.targets == w.targets.push(
            p.1 as u32,
        ) && v.positions == w.positions.push(pos as u32),
{
    broadcast use wire::group_wire;

    lemma_edge_key_round_trip(p.0, p.2, p.1, p.3);
    let rec = reverse_record(p, pos);
    assert(rec.payload.subrange(0, 4) =~= wire::put32(pos as u32));
}

} // verus!
