//! Fixed-width integers on the wire, both byte orders, and cursor reads.
//!
//! `put*` give the bytes of a number and `get*` the number that some bytes
//! stand for; the lemmas say that each undoes the other. Payload bodies are
//! little-endian, external sort keys big-endian.

use vstd::prelude::*;

verus! {

/// Little-endian bytes of a `u16`.
#[verifier::opaque]
pub open spec fn put16(v: u16) -> Seq<u8> {
    seq![(v % 256) as u8, (v / 256) as u8]
}

/// Little-endian bytes of a `u32`.
#[verifier::opaque]
pub open spec fn put32(v: u32) -> Seq<u8> {
    seq![
        (v % 256) as u8,
        (v / 256 % 256) as u8,
        (v / 65536 % 256) as u8,
        (v / 16777216) as u8,
    ]
}

/// Little-endian bytes of a `u64`: the low half, then the high half.
#[verifier::opaque]
pub open spec fn put64(v: u64) -> Seq<u8> {
    put32((v % 0x1_0000_0000) as u32) + put32((v / 0x1_0000_0000) as u32)
}

/// The `u16` that two little-endian bytes stand for.
#[verifier::opaque]
pub open spec fn get16(s: Seq<u8>) -> u16 {
    (s[0] + 0x100 * s[1]) as u16
}

/// The `u32` that four little-endian bytes stand for.
#[verifier::opaque]
pub open spec fn get32(s: Seq<u8>) -> u32 {
    (s[0] + 0x100 * s[1] + 0x1_0000 * s[2] + 0x100_0000 * s[3]) as u32
}

/// The `u64` that eight little-endian bytes stand for.
#[verifier::opaque]
pub open spec fn get64(s: Seq<u8>) -> u64 {
    (get32(s.subrange(0, 4)) + 0x1_0000_0000 * get32(s.subrange(4, 8))) as u64
}

/// Big-endian bytes of a `u16`.
pub open spec fn put16_be(v: u16) -> Seq<u8> {
    put16(v).reverse()
}

/// Big-endian bytes of a `u32`.
pub open spec fn put32_be(v: u32) -> Seq<u8> {
    put32(v).reverse()
}

/// Big-endian bytes of a `u64`.
pub open spec fn put64_be(v: u64) -> Seq<u8> {
    put64(v).reverse()
}

/// The `u16` that two big-endian bytes stand for.
pub open spec fn get16_be(s: Seq<u8>) -> u16 {
    get16(s.reverse())
}

/// The `u32` that four big-endian bytes stand for.
pub open spec fn get32_be(s: Seq<u8>) -> u32 {
    get32(s.reverse())
}

/// The `u64` that eight big-endian bytes stand for.
pub open spec fn get64_be(s: Seq<u8>) -> u64 {
    get64(s.reverse())
}

/// The little-endian `u16` at byte `o` of `d`.
pub open spec fn u16_at(d: Seq<u8>, o: int) -> u16 {
    get16(d.subrange(o, o + 2))
}

/// The little-endian `u32` at byte `o` of `d`.
pub open spec fn u32_at(d: Seq<u8>, o: int) -> u32 {
    get32(d.subrange(o, o + 4))
}

/// The little-endian `u64` at byte `o` of `d`.
pub open spec fn u64_at(d: Seq<u8>, o: int) -> u64 {
    get64(d.subrange(o, o + 8))
}

/// The big-endian `u16` at byte `o` of `d`.
pub open spec fn u16_be_at(d: Seq<u8>, o: int) -> u16 {
    get16_be(d.subrange(o, o + 2))
}

/// The big-endian `u32` at byte `o` of `d`.
pub open spec fn u32_be_at(d: Seq<u8>, o: int) -> u32 {
    get32_be(d.subrange(o, o + 4))
}

/// The big-endian `u64` at byte `o` of `d`.
pub open spec fn u64_be_at(d: Seq<u8>, o: int) -> u64 {
    get64_be(d.subrange(o, o + 8))
}

/// A `u16` occupies two bytes.
pub broadcast proof fn lemma_put16_len(v: u16)
    ensures
        (#[trigger] put16(v)).len() == 2,
{
    reveal(put16);
}

/// A `u32` occupies four bytes.
pub broadcast proof fn lemma_put32_len(v: u32)
    ensures
        (#[trigger] put32(v)).len() == 4,
{
    reveal(put32);
}

/// A `u64` occupies eight bytes.
pub broadcast proof fn lemma_put64_len(v: u64)
    ensures
        (#[trigger] put64(v)).len() == 8,
{
    reveal(put64);
    reveal(put32);
}

/// Reading what was written gives the number back (`u16`).
pub broadcast proof fn lemma_get_put16(v: u16)
    ensures
        get16(#[trigger] put16(v)) == v,
{
    reveal(put16);
    reveal(get16);
}

/// Reading what was written gives the number back (`u32`).
pub broadcast proof fn lemma_get_put32(v: u32)
    ensures
        get32(#[trigger] put32(v)) == v,
{
    reveal(put32);
    reveal(get32);
}

/// Reading what was written gives the number back (`u64`).
pub broadcast proof fn lemma_get_put64(v: u64)
    ensures
        get64(#[trigger] put64(v)) == v,
{
    reveal(put64);
    reveal(get64);
    broadcast use {lemma_put32_len, lemma_get_put32};
    assert(put64(v).subrange(0, 4) =~= put32((v % 0x1_0000_0000) as u32));
    assert(put64(v).subrange(4, 8) =~= put32((v / 0x1_0000_0000) as u32));
}

/// Reading big-endian bytes gives the number back (`u16`).
pub broadcast proof fn lemma_get_put16_be(v: u16)
    ensures
        get16_be(#[trigger] put16_be(v)) == v,
        put16_be(v).len() == 2,
{
    lemma_get_put16(v);
    lemma_put16_len(v);
    assert(put16(v).reverse().reverse() =~= put16(v));
}

/// Reading big-endian bytes gives the number back (`u32`).
pub broadcast proof fn lemma_get_put32_be(v: u32)
    ensures
        get32_be(#[trigger] put32_be(v)) == v,
        put32_be(v).len() == 4,
{
    lemma_get_put32(v);
    lemma_put32_len(v);
    assert(put32(v).reverse().reverse() =~= put32(v));
}

/// Reading big-endian bytes gives the number back (`u64`).
pub broadcast proof fn lemma_get_put64_be(v: u64)
    ensures
        get64_be(#[trigger] put64_be(v)) == v,
        put64_be(v).len() == 8,
{
    lemma_get_put64(v);
    lemma_put64_len(v);
    assert(put64(v).reverse().reverse() =~= put64(v));
}

/// Lengths and round trips of every fixed-width integer.
pub broadcast group group_wire {
    lemma_put16_len,
    lemma_put32_len,
    lemma_put64_len,
    lemma_get_put16,
    lemma_get_put32,
    lemma_get_put64,
    lemma_get_put16_be,
    lemma_get_put32_be,
    lemma_get_put64_be,
}

/// Appends a little-endian `u16`.
pub fn push_u16(buf: &mut Vec<u8>, v: u16)
    ensures
        final(buf)@ == old(buf)@ + put16(v),
{
    buf.push((v % 256) as u8);
    buf.push((v / 256) as u8);
    proof {
        reveal(put16);
    }
    assert(buf@ =~= old(buf)@ + put16(v));
}

/// Appends a little-endian `u32`.
pub fn push_u32(buf: &mut Vec<u8>, v: u32)
    ensures
        final(buf)@ == old(buf)@ + put32(v),
{
    buf.push((v % 256) as u8);
    buf.push((v / 256 % 256) as u8);
    buf.push((v / 65536 % 256) as u8);
    buf.push((v / 16777216) as u8);
    proof {
        reveal(put32);
    }
    assert(buf@ =~= old(buf)@ + put32(v));
}

/// Appends a little-endian `u64`.
pub fn push_u64(buf: &mut Vec<u8>, v: u64)
    ensures
        final(buf)@ == old(buf)@ + put64(v),
{
    push_u32(buf, (v % 0x1_0000_0000) as u32);
    push_u32(buf, (v / 0x1_0000_0000) as u32);
    proof {
        reveal(put64);
    }
    assert(buf@ =~= old(buf)@ + put64(v));
}

/// Appends a big-endian `u16`.
pub fn push_u16_be(buf: &mut Vec<u8>, v: u16)
    ensures
        final(buf)@ == old(buf)@ + put16_be(v),
{
    buf.push((v / 256) as u8);
    buf.push((v % 256) as u8);
    proof {
        reveal(put16);
    }
    assert(buf@ =~= old(buf)@ + put16_be(v));
}

/// Appends a big-endian `u32`.
pub fn push_u32_be(buf: &mut Vec<u8>, v: u32)
    ensures
        final(buf)@ == old(buf)@ + put32_be(v),
{
    buf.push((v / 16777216) as u8);
    buf.push((v / 65536 % 256) as u8);
    buf.push((v / 256 % 256) as u8);
    buf.push((v % 256) as u8);
    proof {
        reveal(put32);
    }
    assert(buf@ =~= old(buf)@ + put32_be(v));
}

/// Appends a big-endian `u64`.
pub fn push_u64_be(buf: &mut Vec<u8>, v: u64)
    ensures
        final(buf)@ == old(buf)@ + put64_be(v),
{
    push_u32_be(buf, (v / 0x1_0000_0000) as u32);
    push_u32_be(buf, (v % 0x1_0000_0000) as u32);
    proof {
        reveal(put64);
        broadcast use lemma_put32_len;

    }
    assert(buf@ =~= old(buf)@ + put64_be(v));
}

/// Appends a run of bytes.
pub fn push_bytes(buf: &mut Vec<u8>, bytes: &[u8])
    ensures
        final(buf)@ == old(buf)@ + bytes@,
{
    let mut i: usize = 0;
    while i < bytes.len()
        invariant
            i <= bytes@.len(),
            buf@ == old(buf)@ + bytes@.take(i as int),
        decreases bytes@.len() - i,
    {
        buf.push(bytes[i]);
        i = i + 1;
        assert(bytes@.take(i as int) =~= bytes@.take(i - 1).push(bytes@[i - 1]));
        assert(buf@ =~= old(buf)@ + bytes@.take(i as int));
    }
    assert(bytes@.take(i as int) =~= bytes@);
}

/// The little-endian `u16` at byte `o`.
pub fn load_u16(d: &[u8], o: usize) -> (v: u16)
    requires
        o + 2 <= d@.len(),
    ensures
        v == u16_at(d@, o as int),
{
    assert(o + 2 <= d.len());
    proof {
        reveal(get16);
    }
    let ghost s = d@.subrange(o as int, o + 2);
    assert(s[0] == d@[o as int] && s[1] == d@[o + 1]);
    (d[o] as u16) + 0x100 * (d[o + 1] as u16)
}

/// The little-endian `u32` at byte `o`.
pub fn load_u32(d: &[u8], o: usize) -> (v: u32)
    requires
        o + 4 <= d@.len(),
    ensures
        v == u32_at(d@, o as int),
{
    assert(o + 4 <= d.len());
    proof {
        reveal(get32);
    }
    let ghost s = d@.subrange(o as int, o + 4);
    assert(s[0] == d@[o as int] && s[1] == d@[o + 1] && s[2] == d@[o + 2] && s[3] == d@[o + 3]);
    (d[o] as u32) + 0x100 * (d[o + 1] as u32) + 0x1_0000 * (d[o + 2] as u32) + 0x100_0000 * (
    d[o + 3] as u32)
}

/// The little-endian `u64` at byte `o`.
pub fn load_u64(d: &[u8], o: usize) -> (v: u64)
    requires
        o + 8 <= d@.len(),
    ensures
        v == u64_at(d@, o as int),
{
    assert(o + 8 <= d.len());
    proof {
        reveal(get64);
    }
    let ghost s = d@.subrange(o as int, o + 8);
    assert(s.subrange(0, 4) =~= d@.subrange(o as int, o + 4));
    assert(s.subrange(4, 8) =~= d@.subrange(o + 4, o + 8));
    let lo: u64 = load_u32(d, o) as u64;
    let hi: u64 = load_u32(d, o + 4) as u64;
    lo + 0x1_0000_0000 * hi
}

/// The big-endian `u16` at byte `o`.
pub fn load_u16_be(d: &[u8], o: usize) -> (v: u16)
    requires
        o + 2 <= d@.len(),
    ensures
        v == u16_be_at(d@, o as int),
{
    assert(o + 2 <= d.len());
    proof {
        reveal(get16);
    }
    let ghost s = d@.subrange(o as int, o + 2).reverse();
    assert(s[1] == d@[o as int] && s[0] == d@[o + 1]);
    (d[o + 1] as u16) + 0x100 * (d[o] as u16)
}

/// The big-endian `u32` at byte `o`.
pub fn load_u32_be(d: &[u8], o: usize) -> (v: u32)
    requires
        o + 4 <= d@.len(),
    ensures
        v == u32_be_at(d@, o as int),
{
    assert(o + 4 <= d.len());
    proof {
        reveal(get32);
    }
    let ghost s = d@.subrange(o as int, o + 4).reverse();
    assert(s[3] == d@[o as int] && s[2] == d@[o + 1] && s[1] == d@[o + 2] && s[0] == d@[o + 3]);
    (d[o + 3] as u32) + 0x100 * (d[o + 2] as u32) + 0x1_0000 * (d[o + 1] as u32) + 0x100_0000 * (
    d[o] as u32)
}

/// The big-endian `u64` at byte `o`.
pub fn load_u64_be(d: &[u8], o: usize) -> (v: u64)
    requires
        o + 8 <= d@.len(),
    ensures
        v == u64_be_at(d@, o as int),
{
    assert(o + 8 <= d.len());
    proof {
        reveal(get64);
    }
    let ghost s = d@.subrange(o as int, o + 8).reverse();
    assert(s.subrange(0, 4) =~= d@.subrange(o + 4, o + 8).reverse());
    assert(s.subrange(4, 8) =~= d@.subrange(o as int, o + 4).reverse());
    let hi: u64 = load_u32_be(d, o) as u64;
    let lo: u64 = load_u32_be(d, o + 4) as u64;
    lo + 0x1_0000_0000 * hi
}

/// Strict byte-lexicographic order.
pub open spec fn lex_lt(a: Seq<u8>, b: Seq<u8>) -> bool
    decreases a.len(),
{
    if b.len() == 0 {
        false
    } else if a.len() == 0 {
        true
    } else if a[0] != b[0] {
        a[0] < b[0]
    } else {
        lex_lt(a.skip(1), b.skip(1))
    }
}

/// Byte-lexicographic order, equality included.
pub open spec fn lex_le(a: Seq<u8>, b: Seq<u8>) -> bool {
    a == b || lex_lt(a, b)
}

/// No byte string precedes itself.
pub proof fn lemma_lex_irreflexive(a: Seq<u8>)
    ensures
        !lex_lt(a, a),
    decreases a.len(),
{
    if a.len() > 0 {
        lemma_lex_irreflexive(a.skip(1));
    }
}

/// The lexicographic order is transitive.
pub proof fn lemma_lex_transitive(a: Seq<u8>, b: Seq<u8>, c: Seq<u8>)
    requires
        lex_lt(a, b),
        lex_lt(b, c),
    ensures
        lex_lt(a, c),
    decreases a.len(),
{
    if a.len() > 0 && a[0] == b[0] && b[0] == c[0] {
        lemma_lex_transitive(a.skip(1), b.skip(1), c.skip(1));
    }
}

/// Of two byte strings one precedes the other unless they are equal.
pub proof fn lemma_lex_total(a: Seq<u8>, b: Seq<u8>)
    ensures
        a == b || lex_lt(a, b) || lex_lt(b, a),
        !(lex_lt(a, b) && lex_lt(b, a)),
        lex_lt(a, b) ==> a != b,
    decreases a.len(),
{
    if a.len() > 0 && b.len() > 0 && a[0] == b[0] {
        lemma_lex_total(a.skip(1), b.skip(1));
        if a.skip(1) == b.skip(1) {
            assert(a =~= seq![a[0]] + a.skip(1));
            assert(b =~= seq![b[0]] + b.skip(1));
        }
        if a == b {
            lemma_lex_irreflexive(a);
        }
    } else if a.len() == 0 && b.len() == 0 {
        assert(a =~= b);
    }
}

/// A common prefix does not decide the order.
pub proof fn lemma_lex_common_prefix(p: Seq<u8>, a: Seq<u8>, b: Seq<u8>)
    ensures
        lex_lt(p + a, p + b) == lex_lt(a, b),
    decreases p.len(),
{
    if p.len() == 0 {
        assert(p + a =~= a);
        assert(p + b =~= b);
    } else {
        lemma_lex_common_prefix(p.skip(1), a, b);
        assert((p + a).skip(1) =~= p.skip(1) + a);
        assert((p + b).skip(1) =~= p.skip(1) + b);
    }
}

/// Two heads of one length decide the order unless they are equal.
pub proof fn lemma_lex_heads(p: Seq<u8>, q: Seq<u8>, a: Seq<u8>, b: Seq<u8>)
    requires
        p.len() == q.len(),
    ensures
        lex_lt(p + a, q + b) == (lex_lt(p, q) || (p == q && lex_lt(a, b))),
    decreases p.len(),
{
    if p == q {
        lemma_lex_common_prefix(p, a, b);
        lemma_lex_irreflexive(p);
    } else if p.len() == 0 {
        assert(p =~= q);
    } else {
        assert((p + a).skip(1) =~= p.skip(1) + a);
        assert((q + b).skip(1) =~= q.skip(1) + b);
        lemma_lex_heads(p.skip(1), q.skip(1), a, b);
        if p[0] == q[0] && p.skip(1) == q.skip(1) {
            assert(p =~= seq![p[0]] + p.skip(1));
            assert(q =~= seq![q[0]] + q.skip(1));
        }
    }
}

/// Big-endian keys sort as their numbers do (`u16`).
pub proof fn lemma_be16_order(x: u16, y: u16)
    ensures
        lex_lt(put16_be(x), put16_be(y)) == (x < y),
{
    reveal(put16);
    let a = put16_be(x);
    let b = put16_be(y);
    assert(a =~= seq![(x / 256) as u8, (x % 256) as u8]);
    assert(b =~= seq![(y / 256) as u8, (y % 256) as u8]);
    reveal_with_fuel(lex_lt, 3);
}

/// Big-endian keys sort as their numbers do (`u32`).
pub proof fn lemma_be32_order(x: u32, y: u32)
    ensures
        lex_lt(put32_be(x), put32_be(y)) == (x < y),
{
    let xh = (x / 65536) as u16;
    let xl = (x % 65536) as u16;
    let yh = (y / 65536) as u16;
    let yl = (y % 65536) as u16;
    lemma_be32_halves(x);
    lemma_be32_halves(y);
    lemma_get_put16_be(xh);
    lemma_get_put16_be(yh);
    lemma_lex_heads(put16_be(xh), put16_be(yh), put16_be(xl), put16_be(yl));
    lemma_be16_order(xh, yh);
    lemma_be16_order(xl, yl);
    assert(put16_be(xh) == put16_be(yh) ==> xh == yh);
}

proof fn lemma_be32_halves(x: u32)
    ensures
        put32_be(x) == put16_be((x / 65536) as u16) + put16_be((x % 65536) as u16),
{
    reveal(put32);
    reveal(put16);
    let h = (x / 65536) as u16;
    let l = (x % 65536) as u16;
    assert(h / 256 == x / 16777216);
    assert(h % 256 == x / 65536 % 256);
    assert(l / 256 == x / 256 % 256);
    assert(l % 256 == x % 256);
    assert(put32_be(x) =~= put16_be(h) + put16_be(l));
}

/// Big-endian keys sort as their numbers do (`u64`).
pub proof fn lemma_be64_order(x: u64, y: u64)
    ensures
        lex_lt(put64_be(x), put64_be(y)) == (x < y),
{
    reveal(put64);
    broadcast use {lemma_put32_len, lemma_get_put32_be};

    let xh = (x / 0x1_0000_0000) as u32;
    let xl = (x % 0x1_0000_0000) as u32;
    let yh = (y / 0x1_0000_0000) as u32;
    let yl = (y % 0x1_0000_0000) as u32;
    assert(put64_be(x) =~= put32_be(xh) + put32_be(xl));
    assert(put64_be(y) =~= put32_be(yh) + put32_be(yl));
    lemma_lex_heads(put32_be(xh), put32_be(yh), put32_be(xl), put32_be(yl));
    lemma_be32_order(xh, yh);
    lemma_be32_order(xl, yl);
    assert(put32_be(xh) == put32_be(yh) ==> xh == yh) by {
        assert(get32_be(put32_be(xh)) == xh);
        assert(get32_be(put32_be(yh)) == yh);
    }
}

/// True when `a` precedes `b` byte-lexicographically.
pub fn bytes_lt(a: &[u8], b: &[u8]) -> (r: bool)
    ensures
        r == lex_lt(a@, b@),
{
    let mut i: usize = 0;
    assert(a@.skip(0) =~= a@ && b@.skip(0) =~= b@);
    while i < a.len() && i < b.len() && a[i] == b[i]
        invariant
            i <= a@.len(),
            i <= b@.len(),
            lex_lt(a@, b@) == lex_lt(a@.skip(i as int), b@.skip(i as int)),
        decreases a@.len() - i,
    {
        i = i + 1;
        assert(a@.skip(i - 1).skip(1) =~= a@.skip(i as int));
        assert(b@.skip(i - 1).skip(1) =~= b@.skip(i as int));
    }
    if i >= b.len() {
        false
    } else if i >= a.len() {
        true
    } else {
        a[i] < b[i]
    }
}

/// True when the two byte strings are equal.
pub fn bytes_eq(a: &[u8], b: &[u8]) -> (r: bool)
    ensures
        r == (a@ == b@),
{
    if a.len() != b.len() {
        return false;
    }
    let mut i: usize = 0;
    while i < a.len()
        invariant
            i <= a@.len(),
            a@.len() == b@.len(),
            forall|k: int| 0 <= k < i ==> a@[k] == b@[k],
        decreases a@.len() - i,
    {
        if a[i] != b[i] {
            return false;
        }
        i = i + 1;
    }
    assert(a@ =~= b@);
    true
}

/// Copies a slice of bytes into a vector of its own.
pub fn bytes_to_vec(s: &[u8]) -> (v: Vec<u8>)
    ensures
        v@ == s@,
{
    let mut v: Vec<u8> = Vec::new();
    push_bytes(&mut v, s);
    assert(v@ =~= s@);
    v
}

/// The concatenation of the encodings of `items`.
pub open spec fn flat<T>(items: Seq<T>, f: spec_fn(T) -> Seq<u8>) -> Seq<u8>
    decreases items.len(),
{
    if items.len() == 0 {
        Seq::empty()
    } else {
        flat(items.drop_last(), f) + f(items.last())
    }
}

/// Appending an item appends its encoding.
pub proof fn lemma_flat_push<T>(items: Seq<T>, x: T, f: spec_fn(T) -> Seq<u8>)
    ensures
        flat(items.push(x), f) == flat(items, f) + f(x),
{
    assert(items.push(x).drop_last() =~= items);
}

/// Records of one width fill a multiple of it.
pub proof fn lemma_flat_len<T>(items: Seq<T>, f: spec_fn(T) -> Seq<u8>, w: int)
    requires
        forall|i: int| 0 <= i < items.len() ==> f(#[trigger] items[i]).len() == w,
    ensures
        flat(items, f).len() == items.len() * w,
    decreases items.len(),
{
    if items.len() > 0 {
        let init = items.drop_last();
        assert forall|i: int| 0 <= i < init.len() implies f(#[trigger] init[i]).len() == w by {
            assert(init[i] == items[i]);
        }
        lemma_flat_len(init, f, w);
        assert(items.len() * w == init.len() * w + w) by (nonlinear_arith)
            requires
                items.len() == init.len() + 1,
        ;
    } else {
        assert(items.len() * w == 0) by (nonlinear_arith)
            requires
                items.len() == 0,
        ;
    }
}

/// Records of one width lie at multiples of it.
pub proof fn lemma_flat_at<T>(items: Seq<T>, f: spec_fn(T) -> Seq<u8>, w: int, i: int)
    requires
        forall|k: int| 0 <= k < items.len() ==> f(#[trigger] items[k]).len() == w,
        0 <= i < items.len(),
        w >= 0,
    ensures
        0 <= i * w,
        i * w + w <= flat(items, f).len(),
        flat(items, f).subrange(i * w, i * w + w) == f(items[i]),
    decreases items.len(),
{
    let init = items.drop_last();
    assert forall|k: int| 0 <= k < init.len() implies f(#[trigger] init[k]).len() == w by {
        assert(init[k] == items[k]);
    }
    assert(0 <= i * w) by (nonlinear_arith)
        requires
            i >= 0,
            w >= 0,
    ;
    lemma_flat_len(init, f, w);
    if i < init.len() {
        lemma_flat_at(init, f, w, i);
        assert(flat(items, f).subrange(i * w, i * w + w) =~= flat(init, f).subrange(
            i * w,
            i * w + w,
        ));
    } else {
        assert(f(items[i]).len() == w);
        assert(flat(items, f).subrange(i * w, i * w + w) =~= f(items[i]));
    }
}

/// The bytes of two rows are those of the one and then those of the other.
pub proof fn lemma_flat_add<T>(a: Seq<T>, b: Seq<T>, f: spec_fn(T) -> Seq<u8>)
    ensures
        flat(a + b, f) == flat(a, f) + flat(b, f),
    decreases b.len(),
{
    if b.len() == 0 {
        assert(a + b =~= a);
        assert(flat(a, f) + flat(b, f) =~= flat(a, f));
    } else {
        lemma_flat_add(a, b.drop_last(), f);
        assert((a + b).drop_last() =~= a + b.drop_last());
        assert((a + b).last() == b.last());
        assert(flat(a + b, f) =~= flat(a, f) + flat(b, f));
    }
}

/// The bytes `piece` stand at `pos`.
pub open spec fn holds_at(d: Seq<u8>, pos: int, piece: Seq<u8>) -> bool {
    &&& 0 <= pos
    &&& pos + piece.len() <= d.len()
    &&& d.subrange(pos, pos + piece.len()) == piece
}

/// What stands at a place stands there in two parts.
pub proof fn lemma_holds_split(d: Seq<u8>, pos: int, a: Seq<u8>, b: Seq<u8>)
    requires
        holds_at(d, pos, a + b),
    ensures
        holds_at(d, pos, a),
        holds_at(d, pos + a.len(), b),
{
    let s = d.subrange(pos, pos + (a + b).len());
    assert(d.subrange(pos, pos + a.len()) =~= s.subrange(0, a.len() as int));
    assert(s.subrange(0, a.len() as int) =~= a);
    assert(d.subrange(pos + a.len(), pos + a.len() + b.len()) =~= s.subrange(
        a.len() as int,
        (a + b).len() as int,
    ));
    assert(s.subrange(a.len() as int, (a + b).len() as int) =~= b);
}

/// Parts of what stands at a place stand there.
pub proof fn lemma_holds_within(d: Seq<u8>, pos: int, piece: Seq<u8>, lo: int, hi: int)
    requires
        holds_at(d, pos, piece),
        0 <= lo <= hi <= piece.len(),
    ensures
        holds_at(d, pos + lo, piece.subrange(lo, hi)),
{
    let s = d.subrange(pos, pos + piece.len());
    assert(d.subrange(pos + lo, pos + hi) =~= s.subrange(lo, hi));
}

/// A whole byte string stands at its start.
pub proof fn lemma_holds_all(d: Seq<u8>)
    ensures
        holds_at(d, 0, d),
{
    assert(d.subrange(0, d.len() as int) =~= d);
}

} // verus!
