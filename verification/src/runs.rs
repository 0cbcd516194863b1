//! Runs of sort records.
//!
//! A pass pushes records in any order and finishes with a run that lists them
//! by ascending key, records with one key in the order of their arrival.

use crate::sorting::sort_keys;
use crate::sorting;
use crate::wire::bytes_to_vec;
use crate::wire;
use vstd::prelude::*;

verus! {

/// A record: its sort key and its payload.
#[derive(Debug)]
pub struct SortRecord {
    /// Sort key.
    pub key: Vec<u8>,
    /// Payload.
    pub payload: Vec<u8>,
}

/// The content of a record.
pub struct RecordView {
    /// Sort key.
    pub key: Seq<u8>,
    /// Payload.
    pub payload: Seq<u8>,
}

impl View for SortRecord {
    type V = RecordView;

    open spec fn view(&self) -> RecordView {
        RecordView { key: self.key@, payload: self.payload@ }
    }
}

impl SortRecord {
    /// A record of a key and a payload.
    pub fn new(key: Vec<u8>, payload: Vec<u8>) -> (r: Self)
        ensures
            r@ == (RecordView { key: key@, payload: payload@ }),
    {
        SortRecord { key, payload }
    }
}

/// The contents of a row of records.
pub open spec fn record_views(v: Seq<SortRecord>) -> Seq<RecordView> {
    Seq::new(v.len(), |i: int| v[i]@)
}

/// The keys of a row of records.
pub open spec fn record_keys(v: Seq<RecordView>) -> Seq<Seq<u8>> {
    Seq::new(v.len(), |i: int| v[i].key)
}

/// The records in the order of keys that stand for them, those with one key in
/// their given order.
pub open spec fn arranged_by(v: Seq<RecordView>, keys: Seq<Seq<u8>>) -> Seq<RecordView> {
    Seq::new(v.len(), |i: int| v[sorting::stable_order(keys)[i]])
}

/// The records by ascending key, those with one key in their given order.
pub open spec fn sorted_records(v: Seq<RecordView>) -> Seq<RecordView> {
    arranged_by(v, record_keys(v))
}

/// Sorting lists every record once, by ascending key.
pub proof fn lemma_sorted_records(v: Seq<RecordView>)
    ensures
        sorted_records(v).len() == v.len(),
        sorting::keys_sorted(record_keys(sorted_records(v))),
        forall|i: int|
            0 <= i < v.len() ==> 0 <= #[trigger] sorting::stable_order(record_keys(v))[i] < v.len()
                && sorted_records(v)[i] == v[sorting::stable_order(record_keys(v))[i]],
        sorting::stable_order(record_keys(v)).no_duplicates(),
        forall|x: int| 0 <= x < v.len() ==> #[trigger] sorting::stable_order(record_keys(v)).contains(x),
{
    let keys = record_keys(v);
    let order = sorting::stable_order(keys);
    sorting::lemma_stable_order(keys);
    let s = record_keys(sorted_records(v));
    assert forall|i: int, j: int| 0 <= i < j < s.len() implies wire::lex_le(
        #[trigger] s[i],
        #[trigger] s[j],
    ) by {
        assert(sorting::key_leq(keys)(order[i], order[j]));
        assert(s[i] == keys[order[i]]);
        assert(s[j] == keys[order[j]]);
    }
}

/// Records that are sorted already stay where they are.
pub proof fn lemma_sorted_records_stay(v: Seq<RecordView>)
    requires
        sorting::keys_sorted(record_keys(v)),
    ensures
        sorted_records(v) == v,
{
    sorting::lemma_sorted_stay(record_keys(v));
    assert(sorted_records(v) =~= v);
}

/// The records at some positions.
pub open spec fn picked_records(v: Seq<RecordView>, at: Seq<int>) -> Seq<RecordView> {
    Seq::new(at.len(), |i: int| v[at[i]])
}

/// A run under construction.
#[derive(Debug)]
pub struct RunSink {
    records: Vec<SortRecord>,
}

impl View for RunSink {
    type V = Seq<RecordView>;

    closed spec fn view(&self) -> Seq<RecordView> {
        record_views(self.records@)
    }
}

impl RunSink {
    /// A run without records.
    pub fn new() -> (r: Self)
        ensures
            r@ == Seq::<RecordView>::empty(),
    {
        let r = RunSink { records: Vec::new() };
        assert(r@ =~= Seq::<RecordView>::empty());
        r
    }

    /// Adds a record.
    pub fn push(&mut self, record: SortRecord)
        ensures
            final(self)@ == old(self)@.push(record@),
    {
        let ghost before = self@;
        let ghost x = record@;
        self.records.push(record);
        assert(self@ =~= before.push(x));
    }

    /// Number of records.
    pub fn len(&self) -> (r: usize)
        ensures
            r == self@.len(),
    {
        self.records.len()
    }

    /// The record at a position.
    pub fn record_at(&self, i: usize) -> (r: &SortRecord)
        requires
            i < self@.len(),
        ensures
            r@ == self@[i as int],
    {
        &self.records[i]
    }

    /// Sorts the records.
    pub fn finish(self) -> (r: RunSetLease)
        ensures
            r@ == sorted_records(self@),
    {
        let n: usize = self.records.len();
        let ghost v = self@;
        let mut keys: Vec<Vec<u8>> = Vec::new();
        let mut i: usize = 0;
        while i < n
            invariant
                i <= n,
                n == self.records@.len(),
                keys@.len() == i,
                forall|k: int| 0 <= k < i ==> (#[trigger] keys@[k])@ == self.records@[k].key@,
            decreases n - i,
        {
            keys.push(bytes_to_vec(self.records[i].key.as_slice()));
            i = i + 1;
        }
        assert(sorting::key_bytes(keys@) =~= record_keys(v));
        self.finish_by(keys)
    }

    /// Sorts the records by keys that stand for them.
    pub fn finish_by(self, keys: Vec<Vec<u8>>) -> (r: RunSetLease)
        requires
            keys@.len() == self@.len(),
        ensures
            r@ == arranged_by(self@, sorting::key_bytes(keys@)),
    {
        let n: usize = self.records.len();
        let ghost v = self@;
        let order: Vec<usize> = sort_keys(keys.as_slice());
        proof {
            sorting::lemma_stable_order(sorting::key_bytes(keys@));
        }
        let mut slots: Vec<Option<SortRecord>> = Vec::new();
        let RunSink { records: mut left } = self;
        let ghost all = left@;
        while left.len() > 0
            invariant
                slots@.len() + left@.len() == n,
                all.len() == n,
                left@ == all.take(left@.len() as int),
                forall|k: int|
                    0 <= k < slots@.len() ==> (#[trigger] slots@[k]) == Some(all[n - 1 - k]),
            decreases left@.len(),
        {
            let ghost before = left@;
            let x = left.pop().unwrap();
            assert(left@ =~= all.take(left@.len() as int));
            assert(x == all[before.len() - 1]);
            slots.push(Some(x));
        }
        let mut out: Vec<SortRecord> = Vec::new();
        let mut j: usize = 0;
        while j < n
            invariant
                j <= n,
                slots@.len() == n,
                all.len() == n,
                order@.len() == n,
                out@.len() == j,
                sorting::as_ints(order@).no_duplicates(),
                forall|k: int| 0 <= k < n ==> (#[trigger] order@[k]) < n,
                forall|k: int|
                    0 <= k < n && !sorting::as_ints(order@).take(j as int).contains(n - 1 - k) ==> (
                    #[trigger] slots@[k]) == Some(all[n - 1 - k]),
                forall|k: int| 0 <= k < j ==> (#[trigger] out@[k]) == all[order@[k] as int],
            decreases n - j,
        {
            let at: usize = n - 1 - order[j];
            let ghost taken = sorting::as_ints(order@).take(j as int);
            proof {
                let o = sorting::as_ints(order@);
                assert(o[j as int] == order@[j as int]);
                if taken.contains(n - 1 - at) {
                    let q = choose|q: int| 0 <= q < taken.len() && taken[q] == n - 1 - at;
                    assert(o[q] == o[j as int]);
                }
            }
            let mut slot: Option<SortRecord> = None;
            let ghost before = slots@;
            slots.set_and_swap(at, &mut slot);
            assert(slot == before[at as int]);
            match slot {
                Some(x) => {
                    out.push(x);
                },
                None => {
                    assert(false);
                },
            }
            proof {
                let o = sorting::as_ints(order@);
                let now = o.take(j as int + 1);
                assert(now =~= taken.push(o[j as int]));
                assert forall|k: int|
                    0 <= k < n && !now.contains(n - 1 - k) implies (#[trigger] slots@[k]) == Some(
                    all[n - 1 - k],
                ) by {
                    assert(now[j as int] == n - 1 - at);
                    assert(k != at) by {
                        if k == at {
                            assert(now.contains(n - 1 - k));
                        }
                    }
                    if taken.contains(n - 1 - k) {
                        let q = choose|q: int| 0 <= q < taken.len() && taken[q] == n - 1 - k;
                        assert(now[q] == n - 1 - k);
                    }
                }
            }
            j = j + 1;
        }
        let r = RunSetLease { records: out };
        proof {
            let want = arranged_by(v, sorting::key_bytes(keys@));
            assert forall|i: int| 0 <= i < n implies (#[trigger] r@[i]) == want[i] by {
                assert(sorting::as_ints(order@)[i] == order@[i]);
                assert(v[order@[i] as int] == all[order@[i] as int]@);
            }
            assert(r@ =~= want);
        }
        r
    }
}

/// A sorted run.
#[derive(Debug)]
pub struct RunSetLease {
    records: Vec<SortRecord>,
}

impl View for RunSetLease {
    type V = Seq<RecordView>;

    closed spec fn view(&self) -> Seq<RecordView> {
        record_views(self.records@)
    }
}

impl RunSetLease {
    /// Number of records.
    pub fn len(&self) -> (r: usize)
        ensures
            r == self@.len(),
    {
        self.records.len()
    }

    /// The record at a position of the sorted order.
    pub fn record_at(&self, i: usize) -> (r: &SortRecord)
        requires
            i < self@.len(),
        ensures
            r@ == self@[i as int],
    {
        &self.records[i]
    }

    /// The records at some positions.
    pub fn picked(&self, at: &[usize]) -> (r: RunSetLease)
        requires
            forall|i: int| 0 <= i < at@.len() ==> (#[trigger] at@[i]) < self@.len(),
        ensures
            r@ == picked_records(self@, sorting::as_ints(at@)),
    {
        let mut out: Vec<SortRecord> = Vec::new();
        let mut i: usize = 0;
        while i < at.len()
            invariant
                i <= at@.len(),
                forall|k: int| 0 <= k < at@.len() ==> (#[trigger] at@[k]) < self@.len(),
                out@.len() == i,
                forall|k: int| 0 <= k < i ==> (#[trigger] out@[k])@ == self@[at@[k] as int],
            decreases at@.len() - i,
        {
            let rec: &SortRecord = self.record_at(at[i]);
            out.push(
                SortRecord::new(
                    bytes_to_vec(rec.key.as_slice()),
                    bytes_to_vec(rec.payload.as_slice()),
                ),
            );
            i = i + 1;
        }
        let r = RunSetLease { records: out };
        proof {
            let want = picked_records(self@, sorting::as_ints(at@));
            assert forall|k: int| 0 <= k < at@.len() implies (#[trigger] r@[k]) == want[k] by {
                assert(sorting::as_ints(at@)[k] == at@[k]);
                assert(out@[k]@ == self@[at@[k] as int]);
            }
            assert(r@ =~= want);
        }
        r
    }
}

} // verus!
