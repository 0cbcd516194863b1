//! Logical label memberships of physically stored nodes.
//!
//! A node is stored once, in the table of its first label. This segment lists
//! every `(table, offset, label code)` of the nodes that carry more than one
//! label: a header with the record count and four zero bytes, then 16-byte
//! records in strictly ascending order.

use crate::faults;
use crate::outside::bytes_as_slice;
use crate::outside;
use crate::wire::{load_u16, load_u32, push_bytes, push_u16, push_u32};
use crate::wire;
use crate::error::FormatError;
use bytes::Bytes;
use vstd::prelude::*;

verus! {

broadcast use wire::group_wire;

/// Byte length of the segment header.
pub const MEMBERSHIP_HEADER_LEN: usize = 8;

/// Byte length of one record.
pub const MEMBERSHIP_RECORD_LEN: usize = 16;

/// One logical label membership of a physical node row.
#[derive(Debug, Clone, Copy, PartialEq, Eq, PartialOrd, Ord, Structural)]
pub struct LabelMembership {
    /// Node table in which the row is stored.
    pub node_table_id: u16,
    /// Row offset within the table.
    pub node_offset: u32,
    /// Dictionary code of the label.
    pub label_code: u32,
}

/// The order of records: by table, then offset, then label code.
pub open spec fn membership_lt(a: LabelMembership, b: LabelMembership) -> bool {
    ||| a.node_table_id < b.node_table_id
    ||| a.node_table_id == b.node_table_id && a.node_offset < b.node_offset
    ||| a.node_table_id == b.node_table_id && a.node_offset == b.node_offset && a.label_code
        < b.label_code
}

/// Records ascend strictly.
pub open spec fn memberships_ascend(v: Seq<LabelMembership>) -> bool {
    forall|i: int, j: int| 0 <= i < j < v.len() ==> membership_lt(#[trigger] v[i], #[trigger] v[j])
}

/// The bytes of one record.
pub open spec fn membership_record(m: LabelMembership) -> Seq<u8> {
    wire::put16(m.node_table_id) + wire::put32(m.node_offset) + wire::put32(m.label_code) + wire::put32(0) + wire::put16(0)
}

/// The record that sixteen bytes at `o` spell.
pub open spec fn membership_at(d: Seq<u8>, o: int) -> LabelMembership {
    LabelMembership {
        node_table_id: wire::u16_at(d, o),
        node_offset: wire::u32_at(d, o + 2),
        label_code: wire::u32_at(d, o + 6),
    }
}

/// The bytes of a whole segment.
pub open spec fn membership_segment(v: Seq<LabelMembership>) -> Seq<u8> {
    wire::put32(v.len() as u32) + wire::put32(0) + wire::flat(v, |m: LabelMembership| membership_record(m))
}

/// The records that follow a segment's header.
pub open spec fn memberships_of(d: Seq<u8>) -> Seq<LabelMembership> {
    Seq::new(((d.len() - 8) / 16) as nat, |i: int| membership_at(d, 8 + i * 16))
}

fn less(a: &LabelMembership, b: &LabelMembership) -> (r: bool)
    ensures
        r == membership_lt(*a, *b),
{
    a.node_table_id < b.node_table_id || (a.node_table_id == b.node_table_id && (a.node_offset
        < b.node_offset || (a.node_offset == b.node_offset && a.label_code < b.label_code)))
}

fn load_membership(d: &[u8], o: usize) -> (r: LabelMembership)
    requires
        o + 16 <= d@.len(),
    ensures
        r == membership_at(d@, o as int),
{
    assert(d@.len() == d.len());
    LabelMembership {
        node_table_id: load_u16(d, o),
        node_offset: load_u32(d, o + 2),
        label_code: load_u32(d, o + 6),
    }
}

impl LabelMembership {
    /// Encodes one record.
    pub fn to_bytes(&self) -> (r: Vec<u8>)
        ensures
            r@ == membership_record(*self),
            r@.len() == MEMBERSHIP_RECORD_LEN,
    {
        let mut out: Vec<u8> = Vec::with_capacity(MEMBERSHIP_RECORD_LEN);
        push_u16(&mut out, self.node_table_id);
        push_u32(&mut out, self.node_offset);
        push_u32(&mut out, self.label_code);
        push_u32(&mut out, 0);
        push_u16(&mut out, 0);
        assert(out@ =~= membership_record(*self));
        out
    }

    /// Decodes one record, or `None` on truncation.
    pub fn from_bytes(bytes: &[u8]) -> (r: Option<Self>)
        ensures
            r == (if bytes@.len() >= 16 {
                Some(membership_at(bytes@, 0))
            } else {
                None
            }),
    {
        if bytes.len() < MEMBERSHIP_RECORD_LEN {
            return None;
        }
        Some(load_membership(bytes, 0))
    }
}

/// A record decodes to what was encoded.
pub proof fn lemma_membership_round_trip(m: LabelMembership, pre: Seq<u8>, post: Seq<u8>)
    ensures
        membership_record(m).len() == 16,
        membership_at(pre + membership_record(m) + post, pre.len() as int) == m,
{
    let rec = membership_record(m);
    let d = pre + rec + post;
    let o = pre.len() as int;
    assert(d.subrange(o, o + 2) =~= wire::put16(m.node_table_id));
    assert(d.subrange(o + 2, o + 6) =~= wire::put32(m.node_offset));
    assert(d.subrange(o + 6, o + 10) =~= wire::put32(m.label_code));
}

/// A segment reads back as the memberships it was written from.
pub proof fn lemma_membership_segment_round_trip(v: Seq<LabelMembership>)
    ensures
        membership_segment(v).len() == 8 + 16 * v.len(),
        memberships_of(membership_segment(v)) == v,
{
    let f = |m: LabelMembership| membership_record(m);
    let d = membership_segment(v);
    let body = wire::flat(v, f);
    assert forall|i: int| 0 <= i < v.len() implies f(#[trigger] v[i]).len() == 16 by {
        lemma_membership_round_trip(v[i], Seq::empty(), Seq::empty());
    }
    wire::lemma_flat_len(v, f, 16);
    assert forall|i: int| 0 <= i < v.len() implies membership_at(d, 8 + i * 16) == v[i] by {
        wire::lemma_flat_at(v, f, 16, i);
        let o = 8 + i * 16;
        let rec = membership_record(v[i]);
        lemma_membership_round_trip(v[i], Seq::empty(), Seq::empty());
        assert(Seq::empty() + rec + Seq::empty() =~= rec);
        assert(d.subrange(o, o + 16) =~= body.subrange(i * 16, i * 16 + 16));
        assert(d.subrange(o, o + 2) =~= rec.subrange(0, 2));
        assert(d.subrange(o + 2, o + 6) =~= rec.subrange(2, 6));
        assert(d.subrange(o + 6, o + 10) =~= rec.subrange(6, 10));
    }
    assert(memberships_of(d) =~= v);
}

proof fn lemma_ascend_from_neighbours(v: Seq<LabelMembership>, n: int)
    requires
        0 <= n <= v.len(),
        forall|i: int| 0 <= i < n - 1 ==> membership_lt(#[trigger] v[i], v[i + 1]),
    ensures
        forall|i: int, j: int|
            0 <= i < j < n ==> membership_lt(#[trigger] v[i], #[trigger] v[j]),
    decreases n,
{
    if n > 1 {
        lemma_ascend_from_neighbours(v, n - 1);
        assert(membership_lt(v[n - 2], v[n - 1]));
        assert forall|i: int, j: int| 0 <= i < j < n implies membership_lt(
            #[trigger] v[i],
            #[trigger] v[j],
        ) by {
            if j == n - 1 && i < n - 2 {
                assert(membership_lt(v[i], v[n - 2]));
            }
        }
    }
}

/// Appends a membership segment. The memberships must ascend strictly; on any
/// error nothing is appended.
pub fn write_membership_segment(out: &mut Vec<u8>, memberships: &[LabelMembership]) -> (r: Result<
    (),
    FormatError,
>)
    ensures
        r is Ok <==> memberships@.len() <= u32::MAX && memberships_ascend(memberships@),
        r is Ok ==> final(out)@ == old(out)@ + membership_segment(memberships@),
        r matches Err(e) ==> final(out)@ == old(out)@ && e == (if memberships@.len() > u32::MAX {
            FormatError::MembershipCount(memberships@.len() as usize)
        } else {
            FormatError::MembershipUnsorted
        }),
{
    let n: usize = memberships.len();
    if n > u32::MAX as usize {
        return Err(FormatError::MembershipCount(n));
    }
    let ghost v = memberships@;
    let mut k: usize = 1;
    while k < n
        invariant
            1 <= k,
            n > 0 ==> k <= n,
            n == memberships@.len(),
            n <= u32::MAX,
            v == memberships@,
            forall|i: int| 0 <= i < k - 1 ==> membership_lt(#[trigger] v[i], v[i + 1]),
            out@ == old(out)@,
        decreases n - k,
    {
        if !less(&memberships[k - 1], &memberships[k]) {
            assert(!membership_lt(v[k - 1], v[k as int]));
            return Err(FormatError::MembershipUnsorted);
        }
        k = k + 1;
    }
    proof {
        lemma_ascend_from_neighbours(v, v.len() as int);
    }
    let ghost f = |m: LabelMembership| membership_record(m);
    push_u32(out, n as u32);
    push_u32(out, 0);
    let ghost head = wire::put32(n as u32) + wire::put32(0);
    assert(v.take(0) =~= Seq::empty());
    assert(out@ =~= old(out)@ + head + wire::flat(v.take(0), f));
    let mut i: usize = 0;
    while i < n
        invariant
            i <= n,
            n == memberships@.len(),
            v == memberships@,
            f == |m: LabelMembership| membership_record(m),
            out@ == old(out)@ + head + wire::flat(v.take(i as int), f),
        decreases n - i,
    {
        let rec: Vec<u8> = memberships[i].to_bytes();
        push_bytes(out, rec.as_slice());
        proof {
            wire::lemma_flat_push(v.take(i as int), v[i as int], f);
            assert(v.take(i as int).push(v[i as int]) =~= v.take(i + 1));
            assert(out@ =~= old(out)@ + head + wire::flat(v.take(i + 1), f));
        }
        i = i + 1;
    }
    assert(v.take(n as int) =~= v);
    assert(out@ =~= old(out)@ + membership_segment(v));
    Ok(())
}

/// Record `i` does not follow the record before it.
pub open spec fn membership_order_fault(d: Seq<u8>, i: int) -> Option<FormatError> {
    if i > 0 && !membership_lt(membership_at(d, 8 + (i - 1) * 16), membership_at(d, 8 + i * 16)) {
        Some(FormatError::MembershipOrder(i as usize))
    } else {
        None
    }
}

/// The order checks by record.
pub open spec fn membership_checks(d: Seq<u8>) -> spec_fn(int) -> Option<FormatError> {
    |i: int| membership_order_fault(d, i)
}

/// The first thing that is wrong with a membership segment.
pub open spec fn membership_fault(d: Seq<u8>) -> Option<FormatError> {
    let count = wire::u32_at(d, 0);
    if d.len() < 8 {
        Some(FormatError::MembershipHeader(d.len() as usize))
    } else if d.len() - 8 != count * 16 {
        Some(
            FormatError::MembershipBody { body: (d.len() - 8) as usize, count: count as usize },
        )
    } else {
        faults::first_fault(count as nat, membership_checks(d))
    }
}

/// What [`write_membership_segment`] writes is a sound segment.
pub proof fn lemma_written_membership_is_sound(v: Seq<LabelMembership>)
    requires
        v.len() <= u32::MAX,
        memberships_ascend(v),
    ensures
        membership_fault(membership_segment(v)) is None,
        memberships_of(membership_segment(v)) == v,
{
    let d = membership_segment(v);
    lemma_membership_segment_round_trip(v);
    assert(d.subrange(0, 4) =~= wire::put32(v.len() as u32));
    assert forall|i: int| 0 <= i < v.len() implies (#[trigger] membership_checks(d)(i)) is None by {
        assert(memberships_of(d)[i] == v[i]);
        if i > 0 {
            assert(memberships_of(d)[i - 1] == v[i - 1]);
        }
    }
    faults::lemma_no_fault(v.len(), membership_checks(d));
}

/// The label codes of one row, in record order.
pub open spec fn labels_for(v: Seq<LabelMembership>, table: u16, offset: u32) -> Seq<u32>
    decreases v.len(),
{
    if v.len() == 0 {
        Seq::empty()
    } else {
        let rest = labels_for(v.drop_last(), table, offset);
        if v.last().node_table_id == table && v.last().node_offset == offset {
            rest.push(v.last().label_code)
        } else {
            rest
        }
    }
}

/// The rows that carry a label, in record order.
pub open spec fn rows_with(v: Seq<LabelMembership>, label: u32) -> Seq<(u16, u32)>
    decreases v.len(),
{
    if v.len() == 0 {
        Seq::empty()
    } else {
        let rest = rows_with(v.drop_last(), label);
        if v.last().label_code == label {
            rest.push((v.last().node_table_id, v.last().node_offset))
        } else {
            rest
        }
    }
}

proof fn lemma_labels_for_none(v: Seq<LabelMembership>, table: u16, offset: u32)
    requires
        forall|i: int|
            0 <= i < v.len() ==> !((#[trigger] v[i]).node_table_id == table && v[i].node_offset
                == offset),
    ensures
        labels_for(v, table, offset) == Seq::<u32>::empty(),
    decreases v.len(),
{
    if v.len() > 0 {
        assert forall|i: int| 0 <= i < v.drop_last().len() implies !((
        #[trigger] v.drop_last()[i]).node_table_id == table && v.drop_last()[i].node_offset
            == offset) by {
            assert(v.drop_last()[i] == v[i]);
        }
        lemma_labels_for_none(v.drop_last(), table, offset);
    }
}

proof fn lemma_labels_for_tail_none(v: Seq<LabelMembership>, n: int, table: u16, offset: u32)
    requires
        0 <= n <= v.len(),
        forall|i: int|
            n <= i < v.len() ==> !((#[trigger] v[i]).node_table_id == table && v[i].node_offset
                == offset),
    ensures
        labels_for(v, table, offset) == labels_for(v.take(n), table, offset),
    decreases v.len(),
{
    if n < v.len() {
        let w = v.drop_last();
        assert forall|i: int| n <= i < w.len() implies !((#[trigger] w[i]).node_table_id == table
            && w[i].node_offset == offset) by {
            assert(w[i] == v[i]);
        }
        lemma_labels_for_tail_none(w, n, table, offset);
        assert(w.take(n) =~= v.take(n));
        assert(v[v.len() - 1] == v.last());
    } else {
        assert(v.take(n) =~= v);
    }
}

/// Rows ascend strictly, by table, then offset.
pub open spec fn rows_ascend(v: Seq<(u16, u32)>) -> bool {
    forall|i: int, j: int|
        0 <= i < j < v.len() ==> (#[trigger] v[i]).0 < (#[trigger] v[j]).0 || (v[i].0 == v[j].0
            && v[i].1 < v[j].1)
}

/// Codes ascend strictly.
pub open spec fn codes_ascend(v: Seq<u32>) -> bool {
    forall|i: int, j: int| 0 <= i < j < v.len() ==> #[trigger] v[i] < #[trigger] v[j]
}

/// The rows of a label are exactly those that some record gives it, in
/// ascending order, so each once.
pub proof fn lemma_rows_with(v: Seq<LabelMembership>, label: u32)
    requires
        memberships_ascend(v),
    ensures
        rows_ascend(rows_with(v, label)),
        forall|t: u16, o: u32| #[trigger]
            rows_with(v, label).contains((t, o)) <==> v.contains(
                LabelMembership { node_table_id: t, node_offset: o, label_code: label },
            ),
    decreases v.len(),
{
    if v.len() > 0 {
        let w = v.drop_last();
        let z = v.last();
        let a = rows_with(w, label);
        let b = rows_with(v, label);
        assert forall|i: int, j: int| 0 <= i < j < w.len() implies membership_lt(
            #[trigger] w[i],
            #[trigger] w[j],
        ) by {
            assert(membership_lt(v[i], v[j]));
        }
        lemma_rows_with(w, label);
        assert forall|t: u16, o: u32| #[trigger] b.contains((t, o)) <==> v.contains(
            LabelMembership { node_table_id: t, node_offset: o, label_code: label },
        ) by {
            let m = LabelMembership { node_table_id: t, node_offset: o, label_code: label };
            assert(a.contains((t, o)) == w.contains(m));
            assert(v =~= w.push(z));
            if w.contains(m) {
                let i = choose|i: int| 0 <= i < w.len() && w[i] == m;
                assert(v[i] == m);
            }
            if v.contains(m) {
                let i = choose|i: int| 0 <= i < v.len() && v[i] == m;
                if i < w.len() {
                    assert(w[i] == m);
                }
            }
            if a.contains((t, o)) {
                let i = choose|i: int| 0 <= i < a.len() && a[i] == (t, o);
                assert(b[i] == (t, o));
            }
            if b.contains((t, o)) {
                let i = choose|i: int| 0 <= i < b.len() && b[i] == (t, o);
                if i < a.len() {
                    assert(a[i] == (t, o));
                }
            }
            if z == m {
                assert(v[v.len() - 1] == m);
                assert(b[a.len() as int] == (t, o));
            }
        }
        if z.label_code == label {
            assert forall|i: int| 0 <= i < a.len() implies (#[trigger] a[i]).0 < z.node_table_id
                || (a[i].0 == z.node_table_id && a[i].1 < z.node_offset) by {
                assert(a.contains((a[i].0, a[i].1)));
                let m = LabelMembership {
                    node_table_id: a[i].0,
                    node_offset: a[i].1,
                    label_code: label,
                };
                assert(w.contains(m));
                let k = choose|k: int| 0 <= k < w.len() && w[k] == m;
                assert(membership_lt(v[k], v[v.len() - 1]));
            }
        }
    }
}

/// The labels of a row are exactly those that some record gives it, in
/// ascending order, so each once.
pub proof fn lemma_labels_for(v: Seq<LabelMembership>, table: u16, offset: u32)
    requires
        memberships_ascend(v),
    ensures
        codes_ascend(labels_for(v, table, offset)),
        forall|l: u32| #[trigger]
            labels_for(v, table, offset).contains(l) <==> v.contains(
                LabelMembership { node_table_id: table, node_offset: offset, label_code: l },
            ),
    decreases v.len(),
{
    if v.len() > 0 {
        let w = v.drop_last();
        let z = v.last();
        let a = labels_for(w, table, offset);
        let b = labels_for(v, table, offset);
        assert forall|i: int, j: int| 0 <= i < j < w.len() implies membership_lt(
            #[trigger] w[i],
            #[trigger] w[j],
        ) by {
            assert(membership_lt(v[i], v[j]));
        }
        lemma_labels_for(w, table, offset);
        assert forall|l: u32| #[trigger] b.contains(l) <==> v.contains(
            LabelMembership { node_table_id: table, node_offset: offset, label_code: l },
        ) by {
            let m = LabelMembership { node_table_id: table, node_offset: offset, label_code: l };
            assert(a.contains(l) == w.contains(m));
            if w.contains(m) {
                let i = choose|i: int| 0 <= i < w.len() && w[i] == m;
                assert(v[i] == m);
            }
            if v.contains(m) {
                let i = choose|i: int| 0 <= i < v.len() && v[i] == m;
                if i < w.len() {
                    assert(w[i] == m);
                }
            }
            if a.contains(l) {
                let i = choose|i: int| 0 <= i < a.len() && a[i] == l;
                assert(b[i] == l);
            }
            if b.contains(l) {
                let i = choose|i: int| 0 <= i < b.len() && b[i] == l;
                if i < a.len() {
                    assert(a[i] == l);
                }
            }
            if z == m {
                assert(v[v.len() - 1] == m);
                assert(b[a.len() as int] == l);
            }
        }
        if z.node_table_id == table && z.node_offset == offset {
            assert forall|i: int| 0 <= i < a.len() implies #[trigger] a[i] < z.label_code by {
                assert(a.contains(a[i]));
                let m = LabelMembership {
                    node_table_id: table,
                    node_offset: offset,
                    label_code: a[i],
                };
                assert(w.contains(m));
                let k = choose|k: int| 0 <= k < w.len() && w[k] == m;
                assert(membership_lt(v[k], v[v.len() - 1]));
            }
        }
    }
}

/// A row has a label exactly when the label has the row, and both exactly when
/// the records say so.
pub proof fn lemma_rows_and_labels_agree(
    v: Seq<LabelMembership>,
    table: u16,
    offset: u32,
    label: u32,
)
    requires
        memberships_ascend(v),
    ensures
        rows_with(v, label).contains((table, offset)) <==> labels_for(v, table, offset).contains(
            label,
        ),
        rows_with(v, label).contains((table, offset)) <==> exists|i: int|
            0 <= i < v.len() && (#[trigger] v[i]).node_table_id == table && v[i].node_offset
                == offset && v[i].label_code == label,
{
    lemma_rows_with(v, label);
    lemma_labels_for(v, table, offset);
    let m = LabelMembership { node_table_id: table, node_offset: offset, label_code: label };
    assert(rows_with(v, label).contains((table, offset)) == v.contains(m));
    assert(labels_for(v, table, offset).contains(label) == v.contains(m));
    if v.contains(m) {
        let i = choose|i: int| 0 <= i < v.len() && v[i] == m;
        assert(v[i].node_table_id == table);
    }
    if exists|i: int|
        0 <= i < v.len() && (#[trigger] v[i]).node_table_id == table && v[i].node_offset == offset
            && v[i].label_code == label {
        let i = choose|i: int|
            0 <= i < v.len() && (#[trigger] v[i]).node_table_id == table && v[i].node_offset
                == offset && v[i].label_code == label;
        assert(v[i] == m);
    }
}

/// A checked view over a membership segment.
#[derive(Debug)]
pub struct LabelMembershipView {
    bytes: Bytes,
    count: usize,
}

impl View for LabelMembershipView {
    type V = Seq<LabelMembership>;

    closed spec fn view(&self) -> Seq<LabelMembership> {
        memberships_of(outside::bytes_content(self.bytes))
    }
}

impl LabelMembershipView {
    #[verifier::type_invariant]
    spec fn inv(&self) -> bool {
        &&& outside::bytes_content(self.bytes).len() == 8 + 16 * self.count
        &&& memberships_ascend(memberships_of(outside::bytes_content(self.bytes)))
    }

    /// Parses and validates a segment.
    pub fn parse(bytes: &Bytes) -> (r: Result<Self, FormatError>)
        ensures
            r is Ok <==> membership_fault(outside::bytes_content(*bytes)) is None,
            r matches Ok(x) ==> x@ == memberships_of(outside::bytes_content(*bytes)) && memberships_ascend(
                x@,
            ),
            r matches Err(e) ==> membership_fault(outside::bytes_content(*bytes)) == Some(e),
    {
        let d: &[u8] = bytes_as_slice(bytes);
        let n: usize = d.len();
        if n < MEMBERSHIP_HEADER_LEN {
            return Err(FormatError::MembershipHeader(n));
        }
        let count: usize = load_u32(d, 0) as usize;
        let body: usize = n - MEMBERSHIP_HEADER_LEN;
        if body as u64 != count as u64 * 16 {
            return Err(FormatError::MembershipBody { body, count });
        }
        let ghost v = memberships_of(d@);
        let ghost checks = membership_checks(d@);
        let mut i: usize = 0;
        while i < count
            invariant
                i <= count,
                d@.len() == 8 + 16 * count,
                d@.len() <= usize::MAX,
                v == memberships_of(d@),
                v.len() == count,
                d@ == outside::bytes_content(*bytes),
                checks == membership_checks(d@),
                membership_fault(d@) == faults::first_fault(count as nat, checks),
                faults::first_fault(i as nat, checks) is None,
                forall|k: int| 0 <= k < i - 1 ==> membership_lt(#[trigger] v[k], v[k + 1]),
            decreases count - i,
        {
            proof {
                assert(checks(i as int) == membership_order_fault(d@, i as int));
                if checks(i as int) is Some {
                    faults::lemma_first_fault_stays((i + 1) as nat, count as nat, checks);
                }
            }
            if i > 0 {
                let prev = load_membership(d, 8 + (i - 1) * 16);
                let cur = load_membership(d, 8 + i * 16);
                if !less(&prev, &cur) {
                    return Err(FormatError::MembershipOrder(i));
                }
                assert(v[i - 1] == prev && v[i as int] == cur);
            }
            i = i + 1;
        }
        proof {
            lemma_ascend_from_neighbours(v, v.len() as int);
        }
        Ok(LabelMembershipView { bytes: bytes.clone(), count })
    }

    /// True when there are no records.
    pub fn is_empty(&self) -> (r: bool)
        ensures
            r == (self@.len() == 0),
    {
        proof {
            use_type_invariant(self);
        }
        self.count == 0
    }

    /// All label codes of one row, ascending.
    pub fn labels_of(&self, node_table_id: u16, node_offset: u32) -> (r: Vec<u32>)
        ensures
            r@ == labels_for(self@, node_table_id, node_offset),
            codes_ascend(r@),
            forall|l: u32| #[trigger]
                r@.contains(l) <==> self@.contains(
                    LabelMembership { node_table_id, node_offset, label_code: l },
                ),
    {
        proof {
            use_type_invariant(self);
            lemma_labels_for(self@, node_table_id, node_offset);
        }
        let ghost v = self@;
        let mut out: Vec<u32> = Vec::new();
        let mut lo: usize = 0;
        let mut hi: usize = self.count;
        while lo < hi
            invariant
                lo <= hi <= self.count,
                v == self@,
                v.len() == self.count,
                memberships_ascend(v),
                forall|i: int|
                    0 <= i < lo ==> (#[trigger] v[i]).node_table_id < node_table_id || (
                    v[i].node_table_id == node_table_id && v[i].node_offset < node_offset),
                forall|i: int|
                    hi <= i < self.count ==> !((#[trigger] v[i]).node_table_id < node_table_id || (
                    v[i].node_table_id == node_table_id && v[i].node_offset < node_offset)),
            decreases hi - lo,
        {
            let mid: usize = lo + (hi - lo) / 2;
            let rec = self.record_at(mid);
            if rec.node_table_id < node_table_id || (rec.node_table_id == node_table_id
                && rec.node_offset < node_offset) {
                lo = mid + 1;
            } else {
                hi = mid;
            }
        }
        let ghost start = lo as int;
        proof {
            lemma_labels_for_none(v.take(start), node_table_id, node_offset);
        }
        let mut i: usize = lo;
        while i < self.count
            invariant_except_break
                forall|k: int|
                    start <= k < i ==> (#[trigger] v[k]).node_table_id == node_table_id
                        && v[k].node_offset == node_offset,
            invariant
                start <= i <= self.count,
                v == self@,
                v.len() == self.count,
                memberships_ascend(v),
                out@ == labels_for(v.take(i as int), node_table_id, node_offset),
                forall|k: int|
                    start <= k < self.count ==> !((#[trigger] v[k]).node_table_id < node_table_id
                        || (v[k].node_table_id == node_table_id && v[k].node_offset
                        < node_offset)),
            ensures
                forall|k: int|
                    i <= k < v.len() ==> !((#[trigger] v[k]).node_table_id == node_table_id
                        && v[k].node_offset == node_offset),
            decreases self.count - i,
        {
            let rec = self.record_at(i);
            if rec.node_table_id != node_table_id || rec.node_offset != node_offset {
                proof {
                    assert forall|k: int| i <= k < v.len() implies !((#[trigger] v[k]).node_table_id
                        == node_table_id && v[k].node_offset == node_offset) by {
                        if k > i {
                            assert(membership_lt(v[i as int], v[k]));
                        }
                    }
                }
                break;
            }
            out.push(rec.label_code);
            assert(v.take(i + 1).drop_last() =~= v.take(i as int));
            i = i + 1;
        }
        proof {
            lemma_labels_for_tail_none(v, i as int, node_table_id, node_offset);
        }
        out
    }

    /// All rows that carry a label code, ascending.
    pub fn nodes_with(&self, label_code: u32) -> (r: Vec<(u16, u32)>)
        ensures
            r@ == rows_with(self@, label_code),
            rows_ascend(r@),
            forall|t: u16, o: u32| #[trigger]
                r@.contains((t, o)) <==> self@.contains(
                    LabelMembership { node_table_id: t, node_offset: o, label_code },
                ),
    {
        proof {
            use_type_invariant(self);
            lemma_rows_with(self@, label_code);
        }
        let ghost v = self@;
        let mut out: Vec<(u16, u32)> = Vec::new();
        let mut i: usize = 0;
        while i < self.count
            invariant
                i <= self.count,
                v == self@,
                v.len() == self.count,
                out@ == rows_with(v.take(i as int), label_code),
            decreases self.count - i,
        {
            let rec = self.record_at(i);
            if rec.label_code == label_code {
                out.push((rec.node_table_id, rec.node_offset));
            }
            assert(v.take(i + 1).drop_last() =~= v.take(i as int));
            i = i + 1;
        }
        assert(v.take(i as int) =~= v);
        out
    }

    /// Number of records.
    pub fn record_count(&self) -> (r: usize)
        ensures
            r == self@.len(),
    {
        proof {
            use_type_invariant(self);
        }
        self.count
    }

    /// Number of records.
    pub fn len(&self) -> (r: usize)
        ensures
            r == self@.len(),
    {
        self.record_count()
    }

    /// The record at index `i`.
    pub fn record_at(&self, i: usize) -> (r: LabelMembership)
        requires
            i < self@.len(),
        ensures
            r == self@[i as int],
    {
        proof {
            use_type_invariant(self);
        }
        let d: &[u8] = bytes_as_slice(&self.bytes);
        assert(d@.len() == d.len());
        load_membership(d, 8 + i * 16)
    }
}

/// Looking a row up in the parsed form of a written segment gives exactly the
/// labels that were written for it, and looking a label up its rows.
pub proof fn lemma_membership_lookup_after_write(
    v: Seq<LabelMembership>,
    table: u16,
    offset: u32,
    label: u32,
)
    requires
        v.len() <= u32::MAX,
        memberships_ascend(v),
    ensures
        labels_for(memberships_of(membership_segment(v)), table, offset) == labels_for(
            v,
            table,
            offset,
        ),
        rows_with(memberships_of(membership_segment(v)), label) == rows_with(v, label),
        labels_for(memberships_of(membership_segment(v)), table, offset).contains(label)
            <==> v.contains(
            LabelMembership { node_table_id: table, node_offset: offset, label_code: label },
        ),
        rows_with(memberships_of(membership_segment(v)), label).contains((table, offset))
            <==> v.contains(
            LabelMembership { node_table_id: table, node_offset: offset, label_code: label },
        ),
{
    lemma_membership_segment_round_trip(v);
    lemma_rows_with(v, label);
    lemma_labels_for(v, table, offset);
}

} // verus!
