//! Stable sorting by byte-string keys.
//!
//! Every order in this crate is byte-lexicographic on some key; numbers enter
//! a key big-endian. Sorting yields positions, so that whatever the keys were
//! taken from can be put in order.

use crate::wire::bytes_lt;
use crate::wire;
use vstd::prelude::*;
use vstd::relations::*;
use vstd::seq_lib::*;

verus! {

/// Position `a` stands before or at `b` in the stable order of `keys`.
pub open spec fn key_leq(keys: Seq<Seq<u8>>) -> spec_fn(int, int) -> bool {
    |a: int, b: int| wire::lex_lt(keys[a], keys[b]) || (keys[a] == keys[b] && a <= b)
}

/// The positions `lo..hi`.
pub open spec fn positions(lo: int, hi: int) -> Seq<int> {
    Seq::new((hi - lo) as nat, |i: int| lo + i)
}

/// The positions of `keys` in ascending key order, equal keys in their given
/// order.
pub open spec fn stable_order(keys: Seq<Seq<u8>>) -> Seq<int> {
    positions(0, keys.len() as int).sort_by(key_leq(keys))
}

/// The keys as byte sequences.
pub open spec fn key_bytes(keys: Seq<Vec<u8>>) -> Seq<Seq<u8>> {
    Seq::new(keys.len(), |i: int| keys[i]@)
}

/// Machine positions as integers.
pub open spec fn as_ints(v: Seq<usize>) -> Seq<int> {
    Seq::new(v.len(), |i: int| v[i] as int)
}

/// The stable order is a total order on positions.
pub proof fn lemma_key_leq_total(keys: Seq<Seq<u8>>)
    ensures
        total_ordering(key_leq(keys)),
{
    let leq = key_leq(keys);
    assert forall|x: int, y: int| #[trigger] leq(x, y) && #[trigger] leq(y, x) implies x == y by {
        wire::lemma_lex_total(keys[x], keys[y]);
        wire::lemma_lex_irreflexive(keys[x]);
    }
    assert forall|x: int, y: int, z: int| #[trigger]
        leq(x, y) && #[trigger] leq(y, z) implies leq(x, z) by {
        if wire::lex_lt(keys[x], keys[y]) && wire::lex_lt(keys[y], keys[z]) {
            wire::lemma_lex_transitive(keys[x], keys[y], keys[z]);
        }
    }
    assert forall|x: int, y: int| #[trigger] leq(x, y) || #[trigger] leq(y, x) by {
        wire::lemma_lex_total(keys[x], keys[y]);
    }
}

/// The stable order lists every position once, in ascending key order.
pub proof fn lemma_stable_order(keys: Seq<Seq<u8>>)
    ensures
        stable_order(keys).len() == keys.len(),
        sorted_by(stable_order(keys), key_leq(keys)),
        forall|i: int|
            0 <= i < keys.len() ==> 0 <= #[trigger] stable_order(keys)[i] < keys.len(),
        stable_order(keys).no_duplicates(),
        forall|x: int| 0 <= x < keys.len() ==> #[trigger] stable_order(keys).contains(x),
{
    let p = positions(0, keys.len() as int);
    let s = stable_order(keys);
    lemma_key_leq_total(keys);
    p.lemma_sort_by_ensures(key_leq(keys));
    broadcast use group_to_multiset_ensures;

    assert(p.no_duplicates());
    p.lemma_multiset_has_no_duplicates();
    s.lemma_multiset_has_no_duplicates_conv();
    assert(s.to_multiset().len() == p.to_multiset().len());
    assert forall|i: int| 0 <= i < keys.len() implies 0 <= #[trigger] s[i] < keys.len() by {
        assert(s.contains(s[i]));
        assert(s.to_multiset().contains(s[i]));
        assert(p.contains(s[i]));
    }
    assert forall|x: int| 0 <= x < keys.len() implies #[trigger] s.contains(x) by {
        assert(p[x] == x);
        assert(p.contains(x));
        assert(p.to_multiset().contains(x));
    }
}

/// Ascending keys, later ones nowhere before earlier ones.
pub open spec fn keys_sorted(keys: Seq<Seq<u8>>) -> bool {
    forall|i: int, j: int| 0 <= i < j < keys.len() ==> wire::lex_le(#[trigger] keys[i], #[trigger] keys[j])
}

/// Keys that are sorted already stay where they are.
pub proof fn lemma_sorted_stay(keys: Seq<Seq<u8>>)
    requires
        keys_sorted(keys),
    ensures
        stable_order(keys) == positions(0, keys.len() as int),
{
    let p = positions(0, keys.len() as int);
    lemma_key_leq_total(keys);
    p.lemma_sort_by_ensures(key_leq(keys));
    assert(sorted_by(p, key_leq(keys)));
    lemma_sorted_unique(stable_order(keys), p, key_leq(keys));
}

fn merge(keys: &[Vec<u8>], a: &Vec<usize>, b: &Vec<usize>) -> (r: Vec<usize>)
    requires
        forall|i: int| 0 <= i < a@.len() ==> (#[trigger] a@[i]) < keys@.len(),
        forall|i: int| 0 <= i < b@.len() ==> (#[trigger] b@[i]) < keys@.len(),
        sorted_by(as_ints(a@), key_leq(key_bytes(keys@))),
        sorted_by(as_ints(b@), key_leq(key_bytes(keys@))),
        forall|i: int, j: int|
            0 <= i < a@.len() && 0 <= j < b@.len() ==> #[trigger] a@[i] < #[trigger] b@[j],
    ensures
        sorted_by(as_ints(r@), key_leq(key_bytes(keys@))),
        as_ints(r@).to_multiset() == (as_ints(a@) + as_ints(b@)).to_multiset(),
        forall|i: int| 0 <= i < r@.len() ==> (#[trigger] r@[i]) < keys@.len(),
{
    let ghost kb = key_bytes(keys@);
    let ghost leq = key_leq(kb);
    let ghost ai = as_ints(a@);
    let ghost bi = as_ints(b@);
    proof {
        lemma_key_leq_total(kb);
    }
    let mut out: Vec<usize> = Vec::new();
    let mut i: usize = 0;
    let mut j: usize = 0;
    assert(as_ints(out@) =~= ai.take(0) + bi.take(0));
    while i < a.len() || j < b.len()
        invariant
            i <= a@.len(),
            j <= b@.len(),
            kb == key_bytes(keys@),
            leq == key_leq(kb),
            ai == as_ints(a@),
            bi == as_ints(b@),
            total_ordering(leq),
            sorted_by(ai, leq),
            sorted_by(bi, leq),
            forall|i: int| 0 <= i < a@.len() ==> (#[trigger] a@[i]) < keys@.len(),
            forall|i: int| 0 <= i < b@.len() ==> (#[trigger] b@[i]) < keys@.len(),
            forall|i: int, j: int|
                0 <= i < a@.len() && 0 <= j < b@.len() ==> #[trigger] a@[i] < #[trigger] b@[j],
            sorted_by(as_ints(out@), leq),
            as_ints(out@).to_multiset() == (ai.take(i as int) + bi.take(j as int)).to_multiset(),
            forall|k: int| 0 <= k < out@.len() ==> (#[trigger] out@[k]) < keys@.len(),
            forall|k: int, m: int|
                0 <= k < out@.len() && i <= m < a@.len() ==> #[trigger] leq(
                    as_ints(out@)[k],
                    ai[m],
                ),
            forall|k: int, m: int|
                0 <= k < out@.len() && j <= m < b@.len() ==> #[trigger] leq(
                    as_ints(out@)[k],
                    bi[m],
                ),
        decreases a@.len() - i + b@.len() - j,
    {
        let take_a: bool = if i >= a.len() {
            false
        } else if j >= b.len() {
            true
        } else {
            !bytes_lt(keys[b[j]].as_slice(), keys[a[i]].as_slice())
        };
        let ghost before = out@;
        let ghost oi = as_ints(before);
        if take_a {
            proof {
                if j < b@.len() {
                    wire::lemma_lex_total(kb[ai[i as int]], kb[bi[j as int]]);
                    assert(leq(ai[i as int], bi[j as int]));
                    assert forall|m: int| j <= m < b@.len() implies #[trigger] leq(
                        ai[i as int],
                        bi[m],
                    ) by {
                        if m > j {
                            assert(leq(bi[j as int], bi[m]));
                        }
                    }
                }
            }
            let x: usize = a[i];
            out.push(x);
            i = i + 1;
            proof {
                let ghost ta = ai.take(i - 1);
                let ghost tb = bi.take(j as int);
                assert(ai.take(i as int) =~= ta.push(x as int));
                assert(as_ints(out@) =~= oi.push(x as int));
                lemma_multiset_commutative(ta, tb);
                lemma_multiset_commutative(ta.push(x as int), tb);
                to_multiset_build(ta, x as int);
                to_multiset_build(oi, x as int);
                assert(as_ints(out@).to_multiset() =~= (ai.take(i as int) + tb).to_multiset());
                let no = as_ints(out@);
                assert forall|k: int, m: int| 0 <= k < m < no.len() implies #[trigger] leq(
                    no[k],
                    no[m],
                ) by {
                    if m < oi.len() {
                        assert(leq(oi[k], oi[m]));
                    } else {
                        assert(leq(oi[k], ai[i - 1]));
                    }
                }
                assert forall|k: int, m: int|
                    0 <= k < no.len() && i <= m < a@.len() implies #[trigger] leq(no[k], ai[m]) by {
                    if k < oi.len() {
                        assert(leq(oi[k], ai[m]));
                    } else {
                        assert(leq(ai[i - 1], ai[m]));
                    }
                }
                assert forall|k: int, m: int|
                    0 <= k < no.len() && j <= m < b@.len() implies #[trigger] leq(no[k], bi[m]) by {
                    if k < oi.len() {
                        assert(leq(oi[k], bi[m]));
                    } else {
                        assert(leq(ai[i - 1], bi[m]));
                    }
                }
            }
        } else {
            proof {
                if i < a@.len() {
                    assert(wire::lex_lt(kb[bi[j as int]], kb[ai[i as int]]));
                    assert(leq(bi[j as int], ai[i as int]));
                    assert forall|m: int| i <= m < a@.len() implies #[trigger] leq(
                        bi[j as int],
                        ai[m],
                    ) by {
                        if m > i {
                            assert(leq(ai[i as int], ai[m]));
                        }
                    }
                }
            }
            let x: usize = b[j];
            out.push(x);
            j = j + 1;
            proof {
                let ghost ta = ai.take(i as int);
                let ghost tb = bi.take(j - 1);
                assert(bi.take(j as int) =~= tb.push(x as int));
                assert(as_ints(out@) =~= oi.push(x as int));
                lemma_multiset_commutative(ta, tb);
                lemma_multiset_commutative(ta, tb.push(x as int));
                to_multiset_build(tb, x as int);
                to_multiset_build(oi, x as int);
                assert(as_ints(out@).to_multiset() =~= (ta + bi.take(j as int)).to_multiset());
                let no = as_ints(out@);
                assert forall|k: int, m: int| 0 <= k < m < no.len() implies #[trigger] leq(
                    no[k],
                    no[m],
                ) by {
                    if m < oi.len() {
                        assert(leq(oi[k], oi[m]));
                    } else {
                        assert(leq(oi[k], bi[j - 1]));
                    }
                }
                assert forall|k: int, m: int|
                    0 <= k < no.len() && i <= m < a@.len() implies #[trigger] leq(no[k], ai[m]) by {
                    if k < oi.len() {
                        assert(leq(oi[k], ai[m]));
                    } else {
                        assert(leq(bi[j - 1], ai[m]));
                    }
                }
                assert forall|k: int, m: int|
                    0 <= k < no.len() && j <= m < b@.len() implies #[trigger] leq(no[k], bi[m]) by {
                    if k < oi.len() {
                        assert(leq(oi[k], bi[m]));
                    } else {
                        assert(leq(bi[j - 1], bi[m]));
                    }
                }
            }
        }
    }
    assert(ai.take(i as int) =~= ai);
    assert(bi.take(j as int) =~= bi);
    out
}

fn sort_range(keys: &[Vec<u8>], lo: usize, hi: usize) -> (r: Vec<usize>)
    requires
        lo <= hi <= keys@.len(),
    ensures
        sorted_by(as_ints(r@), key_leq(key_bytes(keys@))),
        as_ints(r@).to_multiset() == positions(lo as int, hi as int).to_multiset(),
        forall|i: int| 0 <= i < r@.len() ==> lo <= (#[trigger] r@[i]) < hi,
    decreases hi - lo,
{
    if hi - lo <= 1 {
        let mut out: Vec<usize> = Vec::new();
        if lo < hi {
            out.push(lo);
        }
        assert(as_ints(out@) =~= positions(lo as int, hi as int));
        return out;
    }
    let mid: usize = lo + (hi - lo) / 2;
    let a: Vec<usize> = sort_range(keys, lo, mid);
    let b: Vec<usize> = sort_range(keys, mid, hi);
    let r: Vec<usize> = merge(keys, &a, &b);
    proof {
        let pa = positions(lo as int, mid as int);
        let pb = positions(mid as int, hi as int);
        let p = positions(lo as int, hi as int);
        assert(pa + pb =~= p);
        lemma_multiset_commutative(as_ints(a@), as_ints(b@));
        lemma_multiset_commutative(pa, pb);
        broadcast use group_to_multiset_ensures;

        assert forall|i: int| 0 <= i < r@.len() implies lo <= (#[trigger] r@[i]) < hi by {
            let ri = as_ints(r@);
            assert(ri[i] == r@[i]);
            assert(ri.contains(r@[i] as int));
            assert(ri.to_multiset().contains(r@[i] as int));
            assert(p.contains(r@[i] as int));
        }
    }
    r
}

/// Sorts by key: the positions of `keys` in their stable order.
pub fn sort_keys(keys: &[Vec<u8>]) -> (r: Vec<usize>)
    ensures
        as_ints(r@) == stable_order(key_bytes(keys@)),
        r@.len() == keys@.len(),
        forall|i: int| 0 <= i < r@.len() ==> (#[trigger] r@[i]) < keys@.len(),
{
    let r: Vec<usize> = sort_range(keys, 0, keys.len());
    proof {
        let kb = key_bytes(keys@);
        let p = positions(0, kb.len() as int);
        lemma_key_leq_total(kb);
        p.lemma_sort_by_ensures(key_leq(kb));
        lemma_sorted_unique(as_ints(r@), stable_order(kb), key_leq(kb));
        lemma_stable_order(kb);
    }
    r
}

/// Reverses a row, so that the first is the last.
pub fn reversed<T>(v: Vec<T>) -> (r: Vec<T>)
    ensures
        r@ == v@.reverse(),
{
    let ghost all = v@;
    let mut left: Vec<T> = v;
    let mut out: Vec<T> = Vec::new();
    while left.len() > 0
        invariant
            left@ == all.take(left@.len() as int),
            out@.len() + left@.len() == all.len(),
            forall|k: int| 0 <= k < out@.len() ==> (#[trigger] out@[k]) == all[all.len() - 1 - k],
        decreases left@.len(),
    {
        let ghost before = left@;
        let x = left.pop().unwrap();
        assert(left@ =~= all.take(left@.len() as int));
        assert(x == all[before.len() - 1]);
        out.push(x);
    }
    assert(out@ =~= all.reverse());
    out
}

} // verus!
