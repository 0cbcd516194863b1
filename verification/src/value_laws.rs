//! Floats by their numbers, codecs by the first value, bits by their weights,
//! and the companions and zone maps of a column by its rows.

use crate::builder;
use crate::column_laws;
use crate::column_pass::GeometryView;
use crate::column_pass;
use crate::opening_laws;
use crate::orchestrator::{BitmapRow, PlanView};
use crate::orchestrator;
use crate::presence;
use crate::summary_laws;
use crate::tables::{ColumnView, StoreView};
use crate::value::{ValueView, ZoneView};
use vstd::arithmetic::mul::*;
use vstd::arithmetic::power2::*;
use vstd::prelude::*;

verus! {

// -------------------------------------------------------------------- floats

/// The magnitude of a float, in units of the least positive one: a fraction of
/// fifty-two bits under an exponent, with a leading one unless the exponent is
/// zero. Infinity stands above every number.
pub open spec fn float_magnitude(mag: int) -> int {
    let exponent = mag / 0x10_0000_0000_0000;
    let fraction = mag % 0x10_0000_0000_0000;
    if exponent == 0 {
        fraction
    } else {
        (0x10_0000_0000_0000 + fraction) * pow2((exponent - 1) as nat)
    }
}

/// The number that the bits of a float stand for, in units of the least
/// positive one.
pub open spec fn float_number(bits: u64) -> int {
    if bits < 0x8000_0000_0000_0000 {
        float_magnitude(bits as int)
    } else {
        -float_magnitude(bits - 0x8000_0000_0000_0000)
    }
}

proof fn lemma_magnitude_grows(a: int, b: int)
    requires
        0 <= a < b,
    ensures
        0 <= float_magnitude(a) < float_magnitude(b),
{
    let w: int = 0x10_0000_0000_0000;
    let x = a / w;
    let y = b / w;
    let f = a % w;
    let g = b % w;
    assert(a == w * x + f && b == w * y + g && 0 <= f < w && 0 <= g < w);
    assert(x <= y) by (nonlinear_arith)
        requires
            a < b,
            a == w * x + f,
            b == w * y + g,
            0 <= f < w,
            0 <= g < w,
            w == 0x10_0000_0000_0000,
    ;
    if y > 0 {
        lemma_pow2_pos((y - 1) as nat);
    }
    if x > 0 {
        lemma_pow2_pos((x - 1) as nat);
        let q = pow2((x - 1) as nat) as int;
        assert((w + f) * q >= 0) by (nonlinear_arith)
            requires
                w + f >= 0,
                q > 0,
        ;
    }
    if x == y {
        assert(f < g);
        if x > 0 {
            let q = pow2((x - 1) as nat) as int;
            assert((w + f) * q < (w + g) * q) by (nonlinear_arith)
                requires
                    f < g,
                    q > 0,
            ;
        }
    } else {
        let q = pow2((y - 1) as nat) as int;
        assert((w + g) * q >= w * q) by (nonlinear_arith)
            requires
                g >= 0,
                q > 0,
        ;
        if x == 0 {
            assert(w * q >= w) by (nonlinear_arith)
                requires
                    q >= 1,
                    w > 0,
            ;
        } else {
            let p = pow2((x - 1) as nat) as int;
            lemma_pow2_unfold(x as nat);
            if x < y - 1 {
                lemma_pow2_strictly_increases(x as nat, (y - 1) as nat);
            }
            assert(2 * p <= q);
            assert((w + f) * p < w * (2 * p)) by (nonlinear_arith)
                requires
                    f < w,
                    p > 0,
            ;
            assert(w * (2 * p) <= w * q) by (nonlinear_arith)
                requires
                    2 * p <= q,
                    w > 0,
            ;
        }
    }
}

/// Floats that are numbers are ordered as their numbers are: both zeros alike,
/// the infinities beyond all others.
pub proof fn lemma_floats_are_ordered_as_numbers(a: u64, b: u64)
    ensures
        column_pass::float_rank(a) < column_pass::float_rank(b) <==> float_number(a) < float_number(b),
        column_pass::float_rank(a) == column_pass::float_rank(b) <==> float_number(a) == float_number(b),
{
    let s: int = 0x8000_0000_0000_0000;
    let x = if a < s {
        a as int
    } else {
        a - s
    };
    let y = if b < s {
        b as int
    } else {
        b - s
    };
    assert(float_magnitude(0) == 0);
    if x > 0 {
        lemma_magnitude_grows(0, x);
    }
    if y > 0 {
        lemma_magnitude_grows(0, y);
    }
    if x < y {
        lemma_magnitude_grows(x, y);
    }
    if y < x {
        lemma_magnitude_grows(y, x);
    }
}

/// Bits are those of no number exactly where the exponent is all ones and the
/// fraction is not zero.
pub proof fn lemma_no_number(bits: u64)
    ensures
        column_pass::is_nan_bits(bits) <==> bits as int / 0x10_0000_0000_0000 % 0x800 == 0x7ff && bits as int
            % 0x10_0000_0000_0000 != 0,
{
}

// -------------------------------------------------------------------- codecs

/// The codec that is inferred for a column goes by its first value that is not
/// null: packed for an integer that is not negative, raw for a negative one, one
/// of its own for a truth value, a float or a vector, and a dictionary for all
/// others and where there is no such value.
pub proof fn lemma_first_value_decides(cells: Seq<Option<ValueView>>, k: nat, i: int)
    requires
        k <= i <= cells.len(),
        forall|j: int|
            k <= j < i ==> (#[trigger] cells[j]) is None || cells[j] == Some(ValueView::Null),
        i < cells.len() ==> cells[i] is Some && cells[i] != Some(ValueView::Null),
    ensures
        i == cells.len() ==> builder::inferred_code(cells, k) == 1,
        i < cells.len() ==> match cells[i]->0 {
            ValueView::Bool(_) => builder::inferred_code(cells, k) == 2,
            ValueView::Int64(n) => (n >= 0 ==> builder::inferred_code(cells, k) == 0) && (n < 0
                ==> builder::inferred_code(cells, k) == 6),
            ValueView::Float64(_) => builder::inferred_code(cells, k) == 4,
            ValueView::Vector(_) => builder::inferred_code(cells, k) == 5,
            _ => builder::inferred_code(cells, k) == 1,
        },
    decreases i - k,
{
    if k < i {
        assert(cells[k as int] is None || cells[k as int] == Some(ValueView::Null));
        lemma_first_value_decides(cells, k + 1, i);
    }
}

// ---------------------------------------------------------------------- bits

/// A bit of a byte has the weight of its place, the lowest first.
pub proof fn lemma_weights_are_powers(k: int)
    requires
        0 <= k < 8,
    ensures
        presence::weight(k) == pow2(k as nat),
{
    lemma2_to64();
}

/// A packed row is told by one bit: that of its place in its byte.
pub proof fn lemma_packed_row(bits: Seq<bool>, i: int)
    requires
        0 <= i < bits.len(),
    ensures
        presence::packed(bits).len() == (bits.len() + 7) / 8,
        (presence::packed(bits)[i / 8] as int / pow2((i % 8) as nat) as int) % 2 == (if bits[i] {
            1int
        } else {
            0
        }),
{
    lemma_weights_are_powers(i % 8);
    presence::lemma_packed_bits(bits, i);
}

// ---------------------------------------------------------------- companions

proof fn lemma_filter_all<A>(s: Seq<A>, f: spec_fn(A) -> bool)
    ensures
        s.filter(f).len() <= s.len(),
        s.filter(f).len() == s.len() <==> forall|i: int| 0 <= i < s.len() ==> f(#[trigger] s[i]),
        s.filter(f).len() == 0 <==> forall|i: int| 0 <= i < s.len() ==> !f(#[trigger] s[i]),
    decreases s.len(),
{
    reveal(Seq::filter);
    if s.len() > 0 {
        let w = s.drop_last();
        lemma_filter_all(w, f);
        assert(forall|i: int| 0 <= i < w.len() ==> w[i] == s[i]);
        if f(s.last()) {
            if w.filter(f).len() == w.len() {
                assert forall|i: int| 0 <= i < s.len() implies f(#[trigger] s[i]) by {
                    if i < w.len() {
                        assert(f(w[i]));
                    }
                }
            } else {
                let i = choose|i: int| 0 <= i < w.len() && !f(#[trigger] w[i]);
                assert(!f(s[i]));
            }
            assert(f(s[s.len() - 1]));
        } else {
            assert(!f(s[s.len() - 1]));
            if w.filter(f).len() == 0 {
                assert forall|i: int| 0 <= i < s.len() implies !f(#[trigger] s[i]) by {
                    if i < w.len() {
                        assert(!f(w[i]));
                    }
                }
            } else {
                let i = choose|i: int| 0 <= i < w.len() && f(#[trigger] w[i]);
                assert(f(s[i]));
            }
        }
    }
}

/// A geometry counts fewer entries than rows exactly where a row is without one,
/// and nulls exactly where a row holds one.
pub proof fn lemma_counts_tell(g: GeometryView, cells: Seq<Option<ValueView>>)
    requires
        summary_laws::sums_up(g, cells),
        g.row_count == cells.len(),
    ensures
        g.present_count < g.row_count <==> exists|r: int|
            0 <= r < cells.len() && (#[trigger] cells[r]) is None,
        g.null_count > 0 <==> summary_laws::has(cells, ValueView::Null),
{
    let f = |c: Option<ValueView>| c is Some;
    let h = |c: Option<ValueView>| c == Some(ValueView::Null);
    lemma_filter_all(cells, f);
    lemma_filter_all(cells, h);
    if exists|r: int| 0 <= r < cells.len() && (#[trigger] cells[r]) is None {
        let r = choose|r: int| 0 <= r < cells.len() && (#[trigger] cells[r]) is None;
        assert(!f(cells[r]));
    }
    if summary_laws::has(cells, ValueView::Null) {
        let r = choose|r: int| 0 <= r < cells.len() && #[trigger] cells[r] == Some(ValueView::Null);
        assert(h(cells[r]));
    }
}

/// A record of a bitmap tells of every row of a column whether it meets a test.
pub open spec fn tells_rows(
    row: BitmapRow,
    cells: Seq<Option<ValueView>>,
    test: spec_fn(Option<ValueView>) -> bool,
) -> bool {
    &&& row.1 == cells.len()
    &&& row.2.len() == cells.len()
    &&& forall|r: int| 0 <= r < cells.len() ==> #[trigger] row.2[r] == test(cells[r])
}

/// Columns of a plan whose geometries sum them up, row for row.
pub open spec fn columns_summed(p: PlanView) -> bool {
    &&& p.cells.len() == p.geometries.len()
    &&& p.cells.len() <= u32::MAX
    &&& forall|i: int|
        0 <= i < p.cells.len() ==> summary_laws::sums_up(p.geometries[i], (#[trigger] p.cells[i]).cells)
            && p.geometries[i].row_count == p.cells[i].cells.len() && p.cells[i].cells.len()
            <= u32::MAX
}

/// The presence companion has one record, by ascending column, for exactly the
/// columns with a row that has no entry, and it tells which rows have one; the
/// null companion has one for exactly the columns with a null, and tells which
/// rows hold it.
pub proof fn lemma_companions_tell_the_rows(p: PlanView, k: nat)
    requires
        columns_summed(p),
        k <= p.cells.len(),
    ensures
        forall|i: int|
            0 <= i < k ==> ((exists|r: int|
                0 <= r < p.cells[i].cells.len() && p.cells[i].cells[r] is None) <==> (exists|
                j: int,
            |
                0 <= j < orchestrator::presence_rows(p, k).len() && #[trigger] orchestrator::presence_rows(p, k)[j].0 == i)) && (
            summary_laws::has((#[trigger] p.cells[i]).cells, ValueView::Null) <==> (exists|j: int|
                0 <= j < orchestrator::null_rows(p, k).len() && #[trigger] orchestrator::null_rows(p, k)[j].0 == i)),
        forall|j: int|
            0 <= j < orchestrator::presence_rows(p, k).len() ==> (#[trigger] orchestrator::presence_rows(p, k)[j]).0 < k
                && tells_rows(
                orchestrator::presence_rows(p, k)[j],
                p.cells[orchestrator::presence_rows(p, k)[j].0 as int].cells,
                |c: Option<ValueView>| c is Some,
            ),
        forall|j: int|
            0 <= j < orchestrator::null_rows(p, k).len() ==> (#[trigger] orchestrator::null_rows(p, k)[j]).0 < k && tells_rows(
                orchestrator::null_rows(p, k)[j],
                p.cells[orchestrator::null_rows(p, k)[j].0 as int].cells,
                |c: Option<ValueView>| c == Some(ValueView::Null),
            ),
        forall|a: int, b: int|
            0 <= a < b < orchestrator::presence_rows(p, k).len() ==> (#[trigger] orchestrator::presence_rows(p, k)[a]).0 < (
            #[trigger] orchestrator::presence_rows(p, k)[b]).0,
        forall|a: int, b: int|
            0 <= a < b < orchestrator::null_rows(p, k).len() ==> (#[trigger] orchestrator::null_rows(p, k)[a]).0 < (
            #[trigger] orchestrator::null_rows(p, k)[b]).0,
    decreases k,
{
    if k > 0 {
        let h = (k - 1) as nat;
        lemma_companions_tell_the_rows(p, h);
        let c = p.cells[k - 1].cells;
        lemma_counts_tell(p.geometries[k - 1], c);
        let a = orchestrator::presence_rows(p, h);
        let b = orchestrator::presence_rows(p, k);
        let d = orchestrator::null_rows(p, h);
        let e = orchestrator::null_rows(p, k);
        assert forall|j: int| 0 <= j < a.len() implies #[trigger] b[j] == a[j] by {}
        assert forall|j: int| 0 <= j < d.len() implies #[trigger] e[j] == d[j] by {}
        if b.len() > a.len() {
            assert(b[a.len() as int].0 == k - 1);
        }
        if e.len() > d.len() {
            assert(e[d.len() as int].0 == k - 1);
        }
        assert forall|i: int| 0 <= i < k implies ((exists|r: int|
            0 <= r < p.cells[i].cells.len() && p.cells[i].cells[r] is None) <==> (exists|j: int|
            0 <= j < b.len() && #[trigger] b[j].0 == i)) && (summary_laws::has(
            (#[trigger] p.cells[i]).cells,
            ValueView::Null,
        ) <==> (exists|j: int| 0 <= j < e.len() && #[trigger] e[j].0 == i)) by {
            if i < h {
                if exists|j: int| 0 <= j < a.len() && #[trigger] a[j].0 == i {
                    let j = choose|j: int| 0 <= j < a.len() && #[trigger] a[j].0 == i;
                    assert(b[j].0 == i);
                }
                if exists|j: int| 0 <= j < b.len() && #[trigger] b[j].0 == i {
                    let j = choose|j: int| 0 <= j < b.len() && #[trigger] b[j].0 == i;
                    assert(a[j].0 == i);
                }
                if exists|j: int| 0 <= j < d.len() && #[trigger] d[j].0 == i {
                    let j = choose|j: int| 0 <= j < d.len() && #[trigger] d[j].0 == i;
                    assert(e[j].0 == i);
                }
                if exists|j: int| 0 <= j < e.len() && #[trigger] e[j].0 == i {
                    let j = choose|j: int| 0 <= j < e.len() && #[trigger] e[j].0 == i;
                    assert(d[j].0 == i);
                }
            } else {
                if exists|j: int| 0 <= j < b.len() && #[trigger] b[j].0 == i {
                    let j = choose|j: int| 0 <= j < b.len() && #[trigger] b[j].0 == i;
                    if j < a.len() {
                        assert(a[j].0 < h);
                    }
                }
                if exists|j: int| 0 <= j < e.len() && #[trigger] e[j].0 == i {
                    let j = choose|j: int| 0 <= j < e.len() && #[trigger] e[j].0 == i;
                    if j < d.len() {
                        assert(d[j].0 < h);
                    }
                }
            }
        }
    }
}

// ----------------------------------------------------------------- zone maps

/// Every column of a built store has a zone map that covers its values.
pub proof fn lemma_built_zones_cover(
    p: PlanView,
    codecs: Seq<ColumnView>,
    blocks: Seq<Seq<ZoneView>>,
    s: StoreView,
    c: int,
)
    requires
        column_laws::columns_distinct(p.cells),
        columns_summed(p),
        p.nodes.labels.len() <= p.base,
        orchestrator::built_store(p, codecs, blocks, s),
        0 <= c < p.cells.len(),
        p.geometries[c].null_count <= u32::MAX,
    ensures
        ({
            let t = p.cells[c].table_id as int;
            let key = p.cells[c].key;
            &&& t < s.nodes.len() ==> exists|z: ZoneView|
                s.nodes[t].zones.contains((key, z)) && #[trigger] summary_laws::zone_covers(z, p.cells[c].cells)
                    && z.row_count == p.cells[c].cells.len()
            &&& p.base <= t < p.base + s.rels.len() ==> exists|z: ZoneView|
                s.rels[t - p.base].zones.contains((key, z)) && #[trigger] summary_laws::zone_covers(
                    z,
                    p.cells[c].cells,
                ) && z.row_count == p.cells[c].cells.len()
        }),
{
    assert(summary_laws::sums_up(p.geometries[c], p.cells[c].cells));
    opening_laws::lemma_store_holds_every_column(p, codecs, blocks, s, c);
    summary_laws::lemma_zone_covers_its_column(p.geometries[c], p.cells[c].cells);
}

} // verus!
