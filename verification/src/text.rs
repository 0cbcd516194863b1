//! Text: its UTF-8 form, its order, and maps keyed by it.

use crate::outside::utf8_text;
use crate::wire::{bytes_eq, bytes_lt};
use crate::wire;
use vstd::prelude::*;
use vstd::string::*;
use vstd::utf8::*;

verus! {

/// The UTF-8 bytes of a text.
pub open spec fn utf8(s: Seq<char>) -> Seq<u8> {
    encode_utf8(s)
}

/// Texts with the same bytes are the same.
pub proof fn lemma_utf8_injective(a: Seq<char>, b: Seq<char>)
    requires
        utf8(a) == utf8(b),
    ensures
        a == b,
{
    encode_utf8_decode_utf8(a);
    encode_utf8_decode_utf8(b);
}

/// `a` precedes `b` by their UTF-8 bytes.
pub open spec fn text_lt(a: Seq<char>, b: Seq<char>) -> bool {
    wire::lex_lt(utf8(a), utf8(b))
}

/// True when the texts are equal.
pub fn text_eq(a: &str, b: &str) -> (r: bool)
    ensures
        r == (a@ == b@),
{
    let r: bool = bytes_eq(a.as_bytes(), b.as_bytes());
    proof {
        if r {
            lemma_utf8_injective(a@, b@);
        }
    }
    r
}

/// True when `a` precedes `b` by their UTF-8 bytes.
pub fn text_less(a: &str, b: &str) -> (r: bool)
    ensures
        r == text_lt(a@, b@),
{
    bytes_lt(a.as_bytes(), b.as_bytes())
}

/// The text that some bytes spell.
pub open spec fn text_of(d: Seq<u8>) -> Seq<char> {
    decode_utf8(d)
}

/// Bytes of a text spell the text.
pub proof fn lemma_text_of_utf8(s: Seq<char>)
    ensures
        valid_utf8(utf8(s)),
        text_of(utf8(s)) == s,
{
    encode_utf8_valid_utf8(s);
    encode_utf8_decode_utf8(s);
}

/// Valid bytes are the bytes of the text they spell.
pub proof fn lemma_utf8_text_of(d: Seq<u8>)
    requires
        valid_utf8(d),
    ensures
        utf8(text_of(d)) == d,
{
    decode_utf8_encode_utf8(d);
}

/// The text that some bytes spell, or `None` when they are not UTF-8.
pub fn decode_text(d: &[u8]) -> (r: Option<&str>)
    ensures
        r.is_some() == valid_utf8(d@),
        r.is_some() ==> r->0@ == text_of(d@) && utf8(r->0@) == d@,
{
    let r = utf8_text(d);
    proof {
        if let Some(s) = r {
            encode_utf8_decode_utf8(s@);
        }
    }
    r
}

/// An owned copy of a text.
pub fn own(s: &str) -> (r: String)
    ensures
        r@ == s@,
{
    s.to_owned()
}

/// The texts of a row of strings.
pub open spec fn texts(v: Seq<String>) -> Seq<Seq<char>> {
    Seq::new(v.len(), |i: int| v[i]@)
}

/// The texts of a row of borrowed strings.
pub open spec fn str_texts(v: Seq<&str>) -> Seq<Seq<char>> {
    Seq::new(v.len(), |i: int| v[i]@)
}

/// Borrows every string of a row.
pub fn borrow_all(v: &Vec<String>) -> (r: Vec<&str>)
    ensures
        str_texts(r@) == texts(v@),
{
    let mut out: Vec<&str> = Vec::with_capacity(v.len());
    let mut i: usize = 0;
    while i < v.len()
        invariant
            i <= v@.len(),
            out@.len() == i,
            forall|k: int| 0 <= k < i ==> (#[trigger] out@[k])@ == v@[k]@,
        decreases v@.len() - i,
    {
        out.push(v[i].as_str());
        i = i + 1;
    }
    assert(str_texts(out@) =~= texts(v@));
    out
}

/// Copies a row of strings.
pub fn clone_all(v: &Vec<String>) -> (r: Vec<String>)
    ensures
        texts(r@) == texts(v@),
{
    let mut out: Vec<String> = Vec::with_capacity(v.len());
    let mut i: usize = 0;
    while i < v.len()
        invariant
            i <= v@.len(),
            out@.len() == i,
            forall|k: int| 0 <= k < i ==> (#[trigger] out@[k])@ == v@[k]@,
        decreases v@.len() - i,
    {
        out.push(own(v[i].as_str()));
        i = i + 1;
    }
    assert(texts(out@) =~= texts(v@));
    out
}

/// Texts ascend strictly.
pub open spec fn texts_ascend(v: Seq<Seq<char>>) -> bool {
    forall|i: int, j: int| 0 <= i < j < v.len() ==> text_lt(#[trigger] v[i], #[trigger] v[j])
}

/// A map from texts, its keys kept in ascending order.
#[derive(Debug)]
#[verifier::reject_recursive_types(V)]
pub struct TextMap<V> {
    keys: Vec<String>,
    vals: Vec<V>,
}

/// The map that a row of keys and a row of values spell.
pub open spec fn text_map_of<V>(keys: Seq<Seq<char>>, vals: Seq<V>) -> Map<Seq<char>, V> {
    Map::new(|k: Seq<char>| keys.contains(k), |k: Seq<char>| vals[keys.index_of(k)])
}

impl<V> View for TextMap<V> {
    type V = Map<Seq<char>, V>;

    closed spec fn view(&self) -> Map<Seq<char>, V> {
        text_map_of(texts(self.keys@), self.vals@)
    }
}

/// Ascending texts are distinct.
pub proof fn lemma_ascending_distinct(v: Seq<Seq<char>>, i: int, j: int)
    requires
        texts_ascend(v),
        0 <= i < v.len(),
        0 <= j < v.len(),
        v[i] == v[j],
    ensures
        i == j,
{
    if i < j {
        wire::lemma_lex_irreflexive(utf8(v[i]));
        assert(text_lt(v[i], v[j]));
    } else if j < i {
        wire::lemma_lex_irreflexive(utf8(v[i]));
        assert(text_lt(v[j], v[i]));
    }
}

impl<V> TextMap<V> {
    #[verifier::type_invariant]
    spec fn inv(&self) -> bool {
        &&& self.keys@.len() == self.vals@.len()
        &&& texts_ascend(texts(self.keys@))
    }

    /// The keys in ascending order.
    pub closed spec fn key_seq(&self) -> Seq<Seq<char>> {
        texts(self.keys@)
    }

    /// The values in the order of their keys.
    pub closed spec fn val_seq(&self) -> Seq<V> {
        self.vals@
    }

    /// An empty map.
    pub fn new() -> (r: Self)
        ensures
            r@ == Map::<Seq<char>, V>::empty(),
            r.key_seq() == Seq::<Seq<char>>::empty(),
            r.val_seq() == Seq::<V>::empty(),
    {
        let r = TextMap { keys: Vec::new(), vals: Vec::new() };
        assert(r@ =~= Map::<Seq<char>, V>::empty());
        assert(r.key_seq() =~= Seq::<Seq<char>>::empty());
        r
    }

    /// Number of entries. The map is what its keys and values spell, and its
    /// keys ascend strictly.
    pub fn len(&self) -> (r: usize)
        ensures
            r == self.key_seq().len(),
            self@ == text_map_of(self.key_seq(), self.val_seq()),
            self.key_seq().len() == self.val_seq().len(),
            texts_ascend(self.key_seq()),
    {
        proof {
            use_type_invariant(self);
        }
        self.keys.len()
    }

    /// The key at a position of the ascending order.
    pub fn key_at(&self, i: usize) -> (r: &str)
        requires
            i < self.key_seq().len(),
        ensures
            r@ == self.key_seq()[i as int],
    {
        self.keys[i].as_str()
    }

    /// The value at a position of the ascending key order.
    pub fn val_at(&self, i: usize) -> (r: &V)
        requires
            i < self.key_seq().len(),
        ensures
            *r == self.val_seq()[i as int],
    {
        proof {
            use_type_invariant(self);
        }
        &self.vals[i]
    }

    /// The first position whose key does not precede `key`.
    fn lower_bound(&self, key: &str) -> (r: usize)
        ensures
            r <= self.keys@.len(),
            forall|i: int| 0 <= i < r ==> text_lt(#[trigger] self.keys@[i]@, key@),
            forall|i: int| r <= i < self.keys@.len() ==> !text_lt(#[trigger] self.keys@[i]@, key@),
    {
        proof {
            use_type_invariant(self);
        }
        let ghost ks = texts(self.keys@);
        let mut lo: usize = 0;
        let mut hi: usize = self.keys.len();
        while lo < hi
            invariant
                lo <= hi <= self.keys@.len(),
                ks == texts(self.keys@),
                texts_ascend(ks),
                forall|i: int| 0 <= i < lo ==> text_lt(#[trigger] self.keys@[i]@, key@),
                forall|i: int|
                    hi <= i < self.keys@.len() ==> !text_lt(#[trigger] self.keys@[i]@, key@),
            decreases hi - lo,
        {
            let mid: usize = lo + (hi - lo) / 2;
            if text_less(self.keys[mid].as_str(), key) {
                proof {
                    assert forall|i: int| 0 <= i < mid + 1 implies text_lt(
                        #[trigger] self.keys@[i]@,
                        key@,
                    ) by {
                        if i < mid {
                            assert(text_lt(ks[i], ks[mid as int]));
                            wire::lemma_lex_transitive(utf8(ks[i]), utf8(ks[mid as int]), utf8(key@));
                        }
                    }
                }
                lo = mid + 1;
            } else {
                proof {
                    assert forall|i: int| mid <= i < self.keys@.len() implies !text_lt(
                        #[trigger] self.keys@[i]@,
                        key@,
                    ) by {
                        if i > mid && text_lt(ks[i], key@) {
                            assert(text_lt(ks[mid as int], ks[i]));
                            wire::lemma_lex_transitive(utf8(ks[mid as int]), utf8(ks[i]), utf8(key@));
                        }
                    }
                }
                hi = mid;
            }
        }
        lo
    }

    proof fn lemma_absent(&self, key: Seq<char>, at: int)
        requires
            texts_ascend(texts(self.keys@)),
            0 <= at <= self.keys@.len(),
            forall|i: int| 0 <= i < at ==> text_lt(#[trigger] self.keys@[i]@, key),
            forall|i: int| at <= i < self.keys@.len() ==> !text_lt(#[trigger] self.keys@[i]@, key),
            at < self.keys@.len() ==> self.keys@[at]@ != key,
        ensures
            !texts(self.keys@).contains(key),
            forall|i: int| at <= i < self.keys@.len() ==> text_lt(key, #[trigger] self.keys@[i]@),
    {
        let ks = texts(self.keys@);
        assert forall|i: int| at <= i < self.keys@.len() implies text_lt(
            key,
            #[trigger] self.keys@[i]@,
        ) by {
            wire::lemma_lex_total(utf8(ks[i]), utf8(key));
            if utf8(ks[i]) == utf8(key) {
                lemma_utf8_injective(ks[i], key);
                assert(i != at);
                assert(text_lt(ks[at], ks[i]));
            }
        }
        if ks.contains(key) {
            let i = choose|i: int| 0 <= i < ks.len() && ks[i] == key;
            wire::lemma_lex_irreflexive(utf8(key));
            assert(self.keys@[i]@ == key);
        }
    }

    /// The value of a key.
    pub fn get(&self, key: &str) -> (r: Option<&V>)
        ensures
            r.is_some() == self@.dom().contains(key@),
            r.is_some() ==> *r->0 == self@[key@],
    {
        proof {
            use_type_invariant(self);
        }
        let ghost ks = texts(self.keys@);
        let at: usize = self.lower_bound(key);
        if at < self.keys.len() && text_eq(self.keys[at].as_str(), key) {
            proof {
                assert(ks[at as int] == key@);
                assert(ks.contains(key@));
                lemma_ascending_distinct(ks, ks.index_of(key@), at as int);
            }
            Some(&self.vals[at])
        } else {
            proof {
                self.lemma_absent(key@, at as int);
            }
            None
        }
    }

    /// Sets the value of a key.
    pub fn insert(&mut self, key: &str, value: V)
        ensures
            final(self)@ == old(self)@.insert(key@, value),
    {
        proof {
            use_type_invariant(&*self);
        }
        let ghost ks = texts(self.keys@);
        let ghost vs = self.vals@;
        let ghost before = *self;
        let at: usize = self.lower_bound(key);
        let found: bool = at < self.keys.len() && text_eq(self.keys[at].as_str(), key);
        let mut taken = TextMap { keys: Vec::new(), vals: Vec::new() };
        std::mem::swap(&mut taken, self);
        let TextMap { mut keys, mut vals } = taken;
        if found {
            vals.set(at, value);
            proof {
                assert(ks[at as int] == key@);
                assert forall|k: Seq<char>| ks.contains(k) && k != key@ implies ks.index_of(k)
                    != at by {
                    assert(ks[ks.index_of(k)] == k);
                }
                lemma_ascending_distinct(ks, ks.index_of(key@), at as int);
                assert(text_map_of(ks, vals@) =~= before@.insert(key@, value));
            }
        } else {
            proof {
                before.lemma_absent(key@, at as int);
            }
            keys.insert(at, own(key));
            vals.insert(at, value);
            proof {
                let nk = texts(keys@);
                assert(nk =~= ks.insert(at as int, key@));
                assert forall|i: int, j: int| 0 <= i < j < nk.len() implies text_lt(
                    #[trigger] nk[i],
                    #[trigger] nk[j],
                ) by {
                    if i == at {
                        assert(before.keys@[j - 1]@ == nk[j]);
                    } else if j == at {
                        assert(before.keys@[i]@ == nk[i]);
                    } else if i < at && j < at {
                        assert(text_lt(ks[i], ks[j]));
                    } else if i < at {
                        assert(text_lt(ks[i], ks[j - 1]));
                    } else {
                        assert(text_lt(ks[i - 1], ks[j - 1]));
                    }
                }
                let m = text_map_of(nk, vals@);
                let want = before@.insert(key@, value);
                assert(nk[at as int] == key@);
                assert forall|k: Seq<char>| nk.contains(k) <==> (ks.contains(k) || k == key@) by {
                    if ks.contains(k) {
                        let i = ks.index_of(k);
                        if i < at {
                            assert(nk[i] == k);
                        } else {
                            assert(nk[i + 1] == k);
                        }
                    }
                    if nk.contains(k) && k != key@ {
                        let i = nk.index_of(k);
                        if i < at {
                            assert(ks[i] == k);
                        } else {
                            assert(ks[i - 1] == k);
                        }
                    }
                }
                assert forall|k: Seq<char>| nk.contains(k) implies #[trigger] m[k] == want[k] by {
                    let i = nk.index_of(k);
                    if k == key@ {
                        lemma_ascending_distinct(nk, i, at as int);
                    } else {
                        let j = ks.index_of(k);
                        let j2 = if j < at {
                            j
                        } else {
                            j + 1
                        };
                        assert(nk[j2] == k);
                        lemma_ascending_distinct(nk, i, j2);
                    }
                }
                assert(m =~= want);
            }
        }
        *self = TextMap { keys, vals };
    }
}

impl<T> TextMap<Vec<T>> {
    /// Appends an item to the row of a key; a key without a row gets one.
    pub fn append(&mut self, key: &str, item: T)
        ensures
            final(self)@.dom() == old(self)@.dom().insert(key@),
            final(self)@[key@]@ == (if old(self)@.dom().contains(key@) {
                old(self)@[key@]@.push(item)
            } else {
                seq![item]
            }),
            forall|k: Seq<char>|
                k != key@ && old(self)@.dom().contains(k) ==> #[trigger] final(self)@[k] == old(
                    self,
                )@[k],
    {
        proof {
            use_type_invariant(&*self);
        }
        let ghost ks = texts(self.keys@);
        let ghost before = *self;
        let at: usize = self.lower_bound(key);
        let found: bool = at < self.keys.len() && text_eq(self.keys[at].as_str(), key);
        if !found {
            proof {
                self.lemma_absent(key@, at as int);
            }
            let mut row: Vec<T> = Vec::new();
            row.push(item);
            self.insert(key, row);
            return;
        }
        let mut taken: TextMap<Vec<T>> = TextMap { keys: Vec::new(), vals: Vec::new() };
        std::mem::swap(&mut taken, self);
        let TextMap { keys, mut vals } = taken;
        let mut row: Vec<T> = vals.remove(at);
        row.push(item);
        vals.insert(at, row);
        proof {
            assert(vals@ =~= before.vals@.update(at as int, row));
            assert(ks[at as int] == key@);
            assert(ks.contains(key@));
            lemma_ascending_distinct(ks, ks.index_of(key@), at as int);
            assert forall|k: Seq<char>| ks.contains(k) && k != key@ implies ks.index_of(k)
                != at by {
                assert(ks[ks.index_of(k)] == k);
            }
            assert(text_map_of(ks, vals@).dom() =~= before@.dom().insert(key@));
        }
        *self = TextMap { keys, vals };
    }
}

} // verus!
