//! The membership segment of the nodes with more than one label.
//!
//! The membership run lists such nodes by table label and original id. Every
//! label of a node becomes one record of the segment, and the records are
//! sorted by table, row and label code.

use crate::generation::{CodecError, GenerationError, WireCount};
use crate::id_index::{IdEntry, MappedNodeIdIndex};
use crate::id_index;
use crate::label_membership::LabelMembership;
use crate::label_membership;
use crate::runs::{RecordView, RunSetLease, SortRecord};
use crate::sorting::sort_keys;
use crate::sorting;
use crate::staging::{decode_labels, split_node_row_key};
use crate::staging;
use crate::text::TextMap;
use crate::text;
use crate::wire::{push_bytes, push_u16_be, push_u32, push_u32_be};
use crate::wire;
use vstd::prelude::*;

verus! {

/// The memberships of one node: a record for each of its labels, up to the
/// first label without a code.
pub open spec fn node_memberships(
    codes: Map<Seq<char>, u32>,
    table_id: u16,
    offset: u32,
    labels: Seq<Seq<char>>,
    k: nat,
) -> Result<Seq<LabelMembership>, GenerationError>
    decreases k,
{
    if k == 0 {
        Ok(Seq::empty())
    } else {
        match node_memberships(codes, table_id, offset, labels, (k - 1) as nat) {
            Err(e) => Err(e),
            Ok(v) => if codes.dom().contains(labels[k - 1]) {
                Ok(
                    v.push(
                        LabelMembership {
                            node_table_id: table_id,
                            node_offset: offset,
                            label_code: codes[labels[k - 1]],
                        },
                    ),
                )
            } else {
                Err(GenerationError::Codec(CodecError::NotInterned))
            },
        }
    }
}

/// The memberships of one record of the run.
pub open spec fn record_memberships(
    index: Seq<IdEntry>,
    codes: Map<Seq<char>, u32>,
    rec: RecordView,
) -> Result<Seq<LabelMembership>, GenerationError> {
    match staging::split_row_key(rec.key) {
        Err(e) => Err(e),
        Ok(p) => match staging::decoded_labels(rec.payload) {
            Err(e) => Err(e),
            Ok(labels) => match id_index::id_entry_for(index, p.1) {
                None => Err(GenerationError::Codec(CodecError::UnknownNode(p.1))),
                Some(x) => if x.1 > 0xffff_ffff {
                    Err(
                        GenerationError::WireWidthOverflow {
                            what: WireCount::RowCount,
                            count: x.1,
                            max: 0xffff_ffff,
                        },
                    )
                } else {
                    node_memberships(codes, x.0, x.1 as u32, labels, labels.len())
                },
            },
        },
    }
}

/// The memberships of the first `k` records of the run.
pub open spec fn run_memberships(
    index: Seq<IdEntry>,
    codes: Map<Seq<char>, u32>,
    recs: Seq<RecordView>,
    k: nat,
) -> Result<Seq<LabelMembership>, GenerationError>
    decreases k,
{
    if k == 0 {
        Ok(Seq::empty())
    } else {
        match run_memberships(index, codes, recs, (k - 1) as nat) {
            Err(e) => Err(e),
            Ok(v) => match record_memberships(index, codes, recs[k - 1]) {
                Err(e) => Err(e),
                Ok(w) => Ok(v + w),
            },
        }
    }
}

/// The sort key of a membership.
pub open spec fn membership_key(m: LabelMembership) -> Seq<u8> {
    wire::put16_be(m.node_table_id) + (wire::put32_be(m.node_offset) + wire::put32_be(m.label_code))
}

/// The sort keys of memberships.
pub open spec fn membership_keys(v: Seq<LabelMembership>) -> Seq<Seq<u8>> {
    Seq::new(v.len(), |i: int| membership_key(v[i]))
}

/// Memberships by table, row and label code.
pub open spec fn sorted_memberships(v: Seq<LabelMembership>) -> Seq<LabelMembership> {
    Seq::new(v.len(), |i: int| v[sorting::stable_order(membership_keys(v))[i]])
}

/// The membership segment that a run spells.
pub open spec fn membership_bytes(
    index: Seq<IdEntry>,
    codes: Map<Seq<char>, u32>,
    recs: Seq<RecordView>,
) -> Result<Seq<u8>, GenerationError> {
    match run_memberships(index, codes, recs, recs.len()) {
        Err(e) => Err(e),
        Ok(v) => if v.len() > 0xffff_ffff {
            Err(staging::over32(WireCount::Collection, v.len()))
        } else {
            Ok(label_membership::membership_segment(sorted_memberships(v)))
        },
    }
}

proof fn lemma_node_memberships_fail(
    codes: Map<Seq<char>, u32>,
    table_id: u16,
    offset: u32,
    labels: Seq<Seq<char>>,
    i: nat,
    n: nat,
)
    requires
        i <= n,
        node_memberships(codes, table_id, offset, labels, i) is Err,
    ensures
        node_memberships(codes, table_id, offset, labels, n) == node_memberships(
            codes,
            table_id,
            offset,
            labels,
            i,
        ),
    decreases n,
{
    if i < n {
        lemma_node_memberships_fail(codes, table_id, offset, labels, i, (n - 1) as nat);
    }
}

proof fn lemma_run_memberships_fail(
    index: Seq<IdEntry>,
    codes: Map<Seq<char>, u32>,
    recs: Seq<RecordView>,
    i: nat,
    n: nat,
)
    requires
        i <= n,
        run_memberships(index, codes, recs, i) is Err,
    ensures
        run_memberships(index, codes, recs, n) == run_memberships(index, codes, recs, i),
    decreases n,
{
    if i < n {
        lemma_run_memberships_fail(index, codes, recs, i, (n - 1) as nat);
    }
}

/// Membership keys sort by table, then row, then label code.
pub proof fn lemma_membership_key_order(a: LabelMembership, b: LabelMembership)
    ensures
        wire::lex_lt(membership_key(a), membership_key(b)) == label_membership::membership_lt(a, b),
{
    broadcast use wire::group_wire;

    let a1 = wire::put32_be(a.node_offset);
    let b1 = wire::put32_be(b.node_offset);
    let a2 = wire::put32_be(a.label_code);
    let b2 = wire::put32_be(b.label_code);
    let a0 = wire::put16_be(a.node_table_id);
    let b0 = wire::put16_be(b.node_table_id);
    wire::lemma_lex_heads(a0, b0, a1 + a2, b1 + b2);
    wire::lemma_lex_heads(a1, b1, a2, b2);
    wire::lemma_be16_order(a.node_table_id, b.node_table_id);
    wire::lemma_be32_order(a.node_offset, b.node_offset);
    wire::lemma_be32_order(a.label_code, b.label_code);
    assert(wire::get16_be(a0) == a.node_table_id && wire::get16_be(b0) == b.node_table_id);
    assert(wire::get32_be(a1) == a.node_offset && wire::get32_be(b1) == b.node_offset);
}

/// Distinct memberships ascend strictly once they are sorted, so that the
/// segment can be searched.
pub proof fn lemma_sorted_memberships_ascend(v: Seq<LabelMembership>)
    requires
        v.no_duplicates(),
    ensures
        label_membership::memberships_ascend(sorted_memberships(v)),
        sorted_memberships(v).len() == v.len(),
{
    let keys = membership_keys(v);
    let order = sorting::stable_order(keys);
    let s = sorted_memberships(v);
    sorting::lemma_stable_order(keys);
    assert forall|i: int, j: int| 0 <= i < j < s.len() implies label_membership::membership_lt(
        #[trigger] s[i],
        #[trigger] s[j],
    ) by {
        assert(sorting::key_leq(keys)(order[i], order[j]));
        assert(order[i] != order[j]);
        assert(v[order[i]] != v[order[j]]);
        lemma_membership_key_order(s[i], s[j]);
        lemma_membership_key_order(s[j], s[i]);
        if keys[order[i]] == keys[order[j]] {
            wire::lemma_lex_irreflexive(keys[order[i]]);
            assert(!label_membership::membership_lt(s[i], s[j]) && !label_membership::membership_lt(s[j], s[i]));
            assert(s[i] == s[j]);
        }
    }
}

fn push_memberships(
    out: &mut Vec<LabelMembership>,
    codes: &TextMap<u32>,
    table_id: u16,
    offset: u32,
    labels: &Vec<String>,
) -> (r: Result<(), GenerationError>)
    ensures
        ({
            let l = text::texts(labels@);
            let want = node_memberships(codes@, table_id, offset, l, l.len());
            match r {
                Ok(_) => want is Ok && final(out)@ == old(out)@ + want->Ok_0,
                Err(e) => want == Err::<Seq<LabelMembership>, GenerationError>(e),
            }
        }),
{
    let ghost l = text::texts(labels@);
    let ghost start = out@;
    let n: usize = labels.len();
    let mut i: usize = 0;
    let ghost mut v: Seq<LabelMembership> = Seq::empty();
    assert(start + v =~= start);
    while i < n
        invariant
            i <= n,
            n == l.len(),
            l == text::texts(labels@),
            node_memberships(codes@, table_id, offset, l, i as nat) == Ok::<
                Seq<LabelMembership>,
                GenerationError,
            >(v),
            out@ == start + v,
        decreases n - i,
    {
        proof {
            if node_memberships(codes@, table_id, offset, l, (i + 1) as nat) is Err {
                lemma_node_memberships_fail(
                    codes@,
                    table_id,
                    offset,
                    l,
                    (i + 1) as nat,
                    n as nat,
                );
            }
        }
        let code: u32 = match codes.get(labels[i].as_str()) {
            Some(c) => *c,
            None => return Err(GenerationError::Codec(CodecError::NotInterned)),
        };
        let m = LabelMembership { node_table_id: table_id, node_offset: offset, label_code: code };
        out.push(m);
        proof {
            v = v.push(m);
            assert(out@ =~= start + v);
        }
        i = i + 1;
    }
    Ok(())
}

fn sort_memberships(v: &Vec<LabelMembership>) -> (r: Vec<LabelMembership>)
    ensures
        r@ == sorted_memberships(v@),
{
    let n: usize = v.len();
    let mut keys: Vec<Vec<u8>> = Vec::new();
    let mut i: usize = 0;
    while i < n
        invariant
            i <= n,
            n == v@.len(),
            keys@.len() == i,
            forall|k: int| 0 <= k < i ==> (#[trigger] keys@[k])@ == membership_key(v@[k]),
        decreases n - i,
    {
        let m: LabelMembership = v[i];
        let mut key: Vec<u8> = Vec::new();
        push_u16_be(&mut key, m.node_table_id);
        push_u32_be(&mut key, m.node_offset);
        push_u32_be(&mut key, m.label_code);
        assert(key@ =~= membership_key(m));
        keys.push(key);
        i = i + 1;
    }
    let order: Vec<usize> = sort_keys(keys.as_slice());
    assert(sorting::key_bytes(keys@) =~= membership_keys(v@));
    let mut out: Vec<LabelMembership> = Vec::new();
    let mut j: usize = 0;
    while j < n
        invariant
            j <= n,
            n == v@.len(),
            order@.len() == n,
            sorting::as_ints(order@) == sorting::stable_order(membership_keys(v@)),
            forall|k: int| 0 <= k < n ==> (#[trigger] order@[k]) < n,
            out@ == sorted_memberships(v@).take(j as int),
        decreases n - j,
    {
        out.push(v[order[j]]);
        assert(sorting::as_ints(order@)[j as int] == order@[j as int]);
        j = j + 1;
        assert(out@ =~= sorted_memberships(v@).take(j as int));
    }
    assert(out@ =~= sorted_memberships(v@));
    out
}

fn membership_image(v: &Vec<LabelMembership>) -> (out: Vec<u8>)
    requires
        v@.len() <= 0xffff_ffff,
    ensures
        out@ == label_membership::membership_segment(v@),
{
    let n: usize = v.len();
    let ghost f = |m: LabelMembership| label_membership::membership_record(m);
    let mut out: Vec<u8> = Vec::new();
    push_u32(&mut out, n as u32);
    push_u32(&mut out, 0);
    let ghost head = out@;
    assert(head =~= wire::put32(n as u32) + wire::put32(0));
    assert(head + wire::flat(v@.take(0), f) =~= head);
    let mut i: usize = 0;
    while i < n
        invariant
            i <= n,
            n == v@.len(),
            f == (|m: LabelMembership| label_membership::membership_record(m)),
            out@ == head + wire::flat(v@.take(i as int), f),
        decreases n - i,
    {
        let rec: Vec<u8> = v[i].to_bytes();
        push_bytes(&mut out, rec.as_slice());
        proof {
            wire::lemma_flat_push(v@.take(i as int), v@[i as int], f);
            assert(v@.take(i as int + 1) =~= v@.take(i as int).push(v@[i as int]));
        }
        i = i + 1;
        assert(out@ =~= head + wire::flat(v@.take(i as int), f));
    }
    assert(v@.take(n as int) =~= v@);
    out
}

/// Builds the membership segment from the membership run, with the codes that
/// the dictionary gives to the labels.
pub fn emit_membership_segment(
    membership_lease: &RunSetLease,
    id_index: &MappedNodeIdIndex,
    schema_strings: &TextMap<u32>,
) -> (r: Result<Vec<u8>, GenerationError>)
    ensures
        ({
            let want = membership_bytes(id_index@, schema_strings@, membership_lease@);
            match r {
                Ok(b) => want == Ok::<Seq<u8>, GenerationError>(b@),
                Err(e) => want == Err::<Seq<u8>, GenerationError>(e),
            }
        }),
{
    let n: usize = membership_lease.len();
    let ghost recs = membership_lease@;
    let ghost index = id_index@;
    let ghost codes = schema_strings@;
    let mut all: Vec<LabelMembership> = Vec::new();
    let mut i: usize = 0;
    while i < n
        invariant
            i <= n,
            n == recs.len(),
            recs == membership_lease@,
            index == id_index@,
            codes == schema_strings@,
            run_memberships(index, codes, recs, i as nat) == Ok::<
                Seq<LabelMembership>,
                GenerationError,
            >(all@),
        decreases n - i,
    {
        proof {
            if run_memberships(index, codes, recs, (i + 1) as nat) is Err {
                lemma_run_memberships_fail(index, codes, recs, (i + 1) as nat, n as nat);
            }
        }
        let rec: &SortRecord = membership_lease.record_at(i);
        let (_, id) = match split_node_row_key(rec.key.as_slice()) {
            Ok(p) => p,
            Err(e) => return Err(e),
        };
        let labels: Vec<String> = match decode_labels(rec.payload.as_slice()) {
            Ok(l) => l,
            Err(e) => return Err(e),
        };
        let (table_id, dense) = match id_index.lookup(id) {
            Some(x) => x,
            None => return Err(GenerationError::Codec(CodecError::UnknownNode(id))),
        };
        if dense > 0xffff_ffff {
            return Err(
                GenerationError::WireWidthOverflow {
                    what: WireCount::RowCount,
                    count: dense,
                    max: 0xffff_ffff,
                },
            );
        }
        match push_memberships(&mut all, schema_strings, table_id, dense as u32, &labels) {
            Ok(_) => {},
            Err(e) => return Err(e),
        }
        i = i + 1;
    }
    assert(all@.len() == all.len());
    if all.len() as u64 > 0xffff_ffff {
        return Err(
            GenerationError::WireWidthOverflow {
                what: WireCount::Collection,
                count: all.len() as u64,
                max: 0xffff_ffff,
            },
        );
    }
    let sorted: Vec<LabelMembership> = sort_memberships(&all);
    Ok(membership_image(&sorted))
}

} // verus!
