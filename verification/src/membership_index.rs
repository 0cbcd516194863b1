//! An index of the nodes that carry more than one label.
//!
//! The data buffer holds one record per node, `original_id u64`, `label_count
//! u16` and the labels, each behind its `u16` length. The sparse index holds
//! `original_id u64` and the `u64` offset of the record, ascending by id, and
//! is searched by bisection.

use crate::faults;
use crate::generation::{CodecError, GenerationError};
use crate::outside::{bytes_as_slice, bytes_from_vec};
use crate::outside;
use crate::staging::{decode_labels, encode_labels};
use crate::staging;
use crate::text::text_eq;
use crate::text;
use crate::wire::{load_u64, push_bytes, push_u64};
use crate::wire;
use bytes::Bytes;
use vstd::prelude::*;
use vstd::slice::*;

verus! {

/// Width of an entry of the sparse index.
const SPARSE_ENTRY_LEN: usize = 16;

/// A node's original id and its labels.
pub type LabelEntry = (u64, Seq<Seq<char>>);

/// The contents of index entries.
pub open spec fn label_entries(v: Seq<(u64, Vec<String>)>) -> Seq<LabelEntry> {
    Seq::new(v.len(), |i: int| (v[i].0, text::texts(v[i].1@)))
}

/// The check on an entry: its place in the order, then its labels.
pub open spec fn entry_checks(v: Seq<LabelEntry>) -> spec_fn(int) -> Option<GenerationError> {
    |i: int|
        if i > 0 && v[i].0 == v[i - 1].0 {
            Some(GenerationError::DuplicateNodeId(v[i].0))
        } else if i > 0 && v[i].0 < v[i - 1].0 {
            Some(
                GenerationError::Codec(
                    CodecError::IdIndexOrder { record: i as usize, id: v[i].0, prev: v[i - 1].0 },
                ),
            )
        } else {
            staging::labels_fault(v[i].1)
        }
}

/// The data record of a node.
pub open spec fn entry_record() -> spec_fn(LabelEntry) -> Seq<u8> {
    |e: LabelEntry| wire::put64(e.0) + staging::labels_record(e.1)
}

/// Where the data record of a node starts.
pub open spec fn entry_offset(v: Seq<LabelEntry>, i: int) -> int {
    wire::flat(v.take(i), entry_record()).len() as int
}

/// The sparse index of nodes.
pub open spec fn sparse_entry(v: Seq<LabelEntry>, i: int) -> Seq<u8> {
    wire::put64(v[i].0) + wire::put64(entry_offset(v, i) as u64)
}

/// The ids ascend strictly.
pub open spec fn entries_ascend(v: Seq<LabelEntry>) -> bool {
    forall|i: int, j: int| 0 <= i < j < v.len() ==> (#[trigger] v[i]).0 < (#[trigger] v[j]).0
}

/// A node has an entry.
pub open spec fn has_entry(v: Seq<LabelEntry>, id: u64) -> bool {
    exists|i: int| 0 <= i < v.len() && (#[trigger] v[i]).0 == id
}

/// A node has an entry that lists the label.
pub open spec fn entry_has_label(v: Seq<LabelEntry>, id: u64, label: Seq<char>) -> bool {
    exists|i: int| 0 <= i < v.len() && (#[trigger] v[i]).0 == id && v[i].1.contains(label)
}

/// A read-only index from original ids to labels.
pub struct MappedLabelMembershipIndex {
    data: Bytes,
    sparse: Bytes,
    entries: Ghost<Seq<LabelEntry>>,
}

impl View for MappedLabelMembershipIndex {
    type V = Seq<LabelEntry>;

    closed spec fn view(&self) -> Seq<LabelEntry> {
        self.entries@
    }
}

spec fn laid_out(data: Seq<u8>, sparse: Seq<u8>, v: Seq<LabelEntry>) -> bool {
    &&& data == wire::flat(v, entry_record())
    &&& sparse.len() == 16 * v.len()
    &&& data.len() <= usize::MAX
    &&& forall|i: int|
        0 <= i < v.len() ==> wire::holds_at(sparse, 16 * i, #[trigger] sparse_entry(v, i))
    &&& entries_ascend(v)
    &&& forall|i: int| 0 <= i < v.len() ==> staging::labels_fault((#[trigger] v[i]).1) is None
}

proof fn lemma_offset_step(v: Seq<LabelEntry>, i: int)
    requires
        0 <= i < v.len(),
    ensures
        wire::holds_at(wire::flat(v, entry_record()), entry_offset(v, i), entry_record()(v[i])),
{
    let f = entry_record();
    let a = v.take(i);
    let b = v.skip(i + 1);
    assert(a.push(v[i]) + b =~= v);
    wire::lemma_flat_add(a.push(v[i]), b, f);
    wire::lemma_flat_push(a, v[i], f);
    let d = wire::flat(v, f);
    assert(d =~= wire::flat(a, f) + (f(v[i]) + wire::flat(b, f)));
    wire::lemma_holds_all(d);
    wire::lemma_holds_split(d, 0, wire::flat(a, f), f(v[i]) + wire::flat(b, f));
    wire::lemma_holds_split(d, wire::flat(a, f).len() as int, f(v[i]), wire::flat(b, f));
}

impl MappedLabelMembershipIndex {
    #[verifier::type_invariant]
    spec fn inv(&self) -> bool {
        laid_out(outside::bytes_content(self.data), outside::bytes_content(self.sparse), self.entries@)
    }

    /// Builds the index from nodes in ascending id order.
    pub fn from_sorted(entries: &[(u64, Vec<String>)]) -> (r: Result<Self, GenerationError>)
        ensures
            match r {
                Ok(x) => faults::first_fault(
                    entries@.len(),
                    entry_checks(label_entries(entries@)),
                ) is None && x@ == label_entries(entries@),
                Err(e) => faults::first_fault(entries@.len(), entry_checks(label_entries(entries@)))
                    == Some(e),
            },
    {
        let n: usize = entries.len();
        let ghost v = label_entries(entries@);
        let ghost f = entry_record();
        assert(n == v.len());
        let mut data: Vec<u8> = Vec::new();
        let mut sparse: Vec<u8> = Vec::new();
        let mut i: usize = 0;
        assert(data@ =~= wire::flat(v.take(0), f));
        while i < n
            invariant
                i <= n,
                n == entries@.len(),
                v == label_entries(entries@),
                f == entry_record(),
                data@ == wire::flat(v.take(i as int), f),
                sparse@.len() == 16 * i,
                forall|k: int|
                    0 <= k < i ==> wire::holds_at(sparse@, 16 * k, #[trigger] sparse_entry(v, k)),
                faults::first_fault(i as nat, entry_checks(v)) is None,
                forall|a: int, b: int|
                    0 <= a < b < i ==> (#[trigger] v[a]).0 < (#[trigger] v[b]).0,
                forall|k: int| 0 <= k < i ==> staging::labels_fault((#[trigger] v[k]).1) is None,
            decreases n - i,
        {
            let id: u64 = entries[i].0;
            let labels: &Vec<String> = &entries[i].1;
            proof {
                assert(v[i as int] == (id, text::texts(labels@)));
                if entry_checks(v)(i as int) is Some {
                    faults::lemma_first_fault_stays((i + 1) as nat, n as nat, entry_checks(v));
                }
            }
            if i > 0 {
                let prev: u64 = entries[i - 1].0;
                assert(v[i - 1].0 == prev);
                if id == prev {
                    return Err(GenerationError::DuplicateNodeId(id));
                }
                if id < prev {
                    return Err(
                        GenerationError::Codec(
                            CodecError::IdIndexOrder { record: i, id, prev },
                        ),
                    );
                }
            }
            let record: Vec<u8> = match encode_labels(labels.as_slice()) {
                Ok(b) => b,
                Err(e) => return Err(e),
            };
            let ghost old_sparse = sparse@;
            let ghost old_data = data@;
            push_u64(&mut sparse, id);
            push_u64(&mut sparse, data.len() as u64);
            push_u64(&mut data, id);
            push_bytes(&mut data, record.as_slice());
            proof {
                broadcast use wire::group_wire;

                wire::lemma_flat_push(v.take(i as int), v[i as int], f);
                assert(v.take(i as int + 1) =~= v.take(i as int).push(v[i as int]));
                assert(data@ =~= old_data + f(v[i as int]));
                assert(sparse@ =~= old_sparse + sparse_entry(v, i as int));
                assert forall|k: int| 0 <= k < i + 1 implies wire::holds_at(
                    sparse@,
                    16 * k,
                    #[trigger] sparse_entry(v, k),
                ) by {
                    if k < i {
                        assert(sparse@.subrange(16 * k, 16 * k + 16) =~= old_sparse.subrange(
                            16 * k,
                            16 * k + 16,
                        ));
                    } else {
                        assert(sparse@.subrange(16 * k, 16 * k + 16) =~= sparse_entry(v, k));
                    }
                }
                assert forall|a: int, b: int| 0 <= a < b < i + 1 implies (#[trigger] v[a]).0 < (
                #[trigger] v[b]).0 by {
                    if b == i && a < i - 1 {
                        assert(v[a].0 < v[i - 1].0);
                    }
                }
            }
            i = i + 1;
        }
        assert(v.take(n as int) =~= v);
        assert(data@.len() == data.len());
        Ok(
            MappedLabelMembershipIndex {
                data: bytes_from_vec(data),
                sparse: bytes_from_vec(sparse),
                entries: Ghost(v),
            },
        )
    }

    /// Number of nodes in the index.
    pub fn len(&self) -> (r: usize)
        ensures
            r == self@.len(),
    {
        proof {
            use_type_invariant(self);
        }
        bytes_as_slice(&self.sparse).len() / SPARSE_ENTRY_LEN
    }

    /// Whether the index is empty.
    pub fn is_empty(&self) -> (r: bool)
        ensures
            r == (self@.len() == 0),
    {
        self.len() == 0
    }

    /// The position of a node in the index.
    fn find(&self, original_id: u64) -> (r: Option<usize>)
        ensures
            match r {
                Some(i) => i < self@.len() && self@[i as int].0 == original_id,
                None => !has_entry(self@, original_id),
            },
    {
        proof {
            use_type_invariant(self);
        }
        let ghost v = self@;
        let sparse: &[u8] = bytes_as_slice(&self.sparse);
        let n: usize = self.len();
        assert(sparse@.len() == sparse.len());
        let mut lo: usize = 0;
        let mut hi: usize = n;
        while lo < hi
            invariant
                lo <= hi <= n,
                n == v.len(),
                v == self@,
                16 * n <= usize::MAX,
                laid_out(outside::bytes_content(self.data), sparse@, v),
                forall|k: int| 0 <= k < lo ==> (#[trigger] v[k]).0 < original_id,
                forall|k: int| hi <= k < n ==> (#[trigger] v[k]).0 > original_id,
            decreases hi - lo,
        {
            let mid: usize = lo + (hi - lo) / 2;
            proof {
                broadcast use wire::group_wire;

                assert(wire::holds_at(sparse@, 16 * (mid as int), sparse_entry(v, mid as int)));
                wire::lemma_holds_split(
                    sparse@,
                    16 * (mid as int),
                    wire::put64(v[mid as int].0),
                    wire::put64(entry_offset(v, mid as int) as u64),
                );
            }
            let id: u64 = load_u64(sparse, mid * 16);
            assert(id == v[mid as int].0);
            if id == original_id {
                return Some(mid);
            } else if id < original_id {
                lo = mid + 1;
            } else {
                hi = mid;
            }
        }
        None
    }

    /// Whether a node is in the index.
    pub fn contains_node(&self, original_id: u64) -> (r: bool)
        ensures
            r == has_entry(self@, original_id),
    {
        self.find(original_id).is_some()
    }

    /// Whether a node is in the index with a label; false for a node that the
    /// index does not hold.
    pub fn has_label(&self, original_id: u64, label: &str) -> (r: bool)
        ensures
            r == entry_has_label(self@, original_id, label@),
    {
        proof {
            use_type_invariant(self);
        }
        let ghost v = self@;
        let at: usize = match self.find(original_id) {
            Some(i) => i,
            None => return false,
        };
        let sparse: &[u8] = bytes_as_slice(&self.sparse);
        let data: &[u8] = bytes_as_slice(&self.data);
        assert(sparse@.len() == sparse.len());
        assert(data@.len() == data.len());
        proof {
            broadcast use wire::group_wire;

            let o = entry_offset(v, at as int);
            assert(wire::holds_at(sparse@, 16 * (at as int), sparse_entry(v, at as int)));
            wire::lemma_holds_split(
                sparse@,
                16 * (at as int),
                wire::put64(v[at as int].0),
                wire::put64(o as u64),
            );
            lemma_offset_step(v, at as int);
            wire::lemma_holds_split(data@, o, wire::put64(v[at as int].0), staging::labels_record(v[at as int].1));
        }
        let off: usize = load_u64(sparse, at * 16 + 8) as usize;
        let rest: &[u8] = slice_subrange(data, off + 8, data.len());
        proof {
            let rec = staging::labels_record(v[at as int].1);
            assert(rest@.subrange(0, rec.len() as int) =~= data@.subrange(
                off + 8,
                off + 8 + rec.len(),
            ));
            staging::lemma_labels_lead(rest@, v[at as int].1);
        }
        let labels: Vec<String> = match decode_labels(rest) {
            Ok(l) => l,
            Err(_) => {
                assert(false);
                return false;
            },
        };
        let mut i: usize = 0;
        while i < labels.len()
            invariant
                i <= labels@.len(),
                text::texts(labels@) == v[at as int].1,
                forall|k: int| 0 <= k < i ==> (#[trigger] labels@[k])@ != label@,
                at < v.len(),
                v[at as int].0 == original_id,
                v == self@,
            decreases labels@.len() - i,
        {
            if text_eq(labels[i].as_str(), label) {
                assert(v[at as int].1[i as int] == label@);
                assert(v[at as int].1.contains(label@));
                return true;
            }
            i = i + 1;
        }
        proof {
            if entry_has_label(v, original_id, label@) {
                let k = choose|k: int|
                    0 <= k < v.len() && (#[trigger] v[k]).0 == original_id && v[k].1.contains(
                        label@,
                    );
                if k < at {
                    assert(v[k].0 < v[at as int].0);
                } else if k > at {
                    assert(v[at as int].0 < v[k].0);
                }
                let j = v[k].1.index_of(label@);
                assert(v[k].1[j] == label@);
                assert(labels@[j]@ == label@);
            }
        }
        false
    }
}

} // verus!
