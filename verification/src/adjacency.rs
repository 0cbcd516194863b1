//! The adjacency arrays of all relationship tables, table by table.

use crate::csr_pass::{RelTableGeometry, stream_forward_csr, stream_reverse_csr};
use crate::csr_pass;
use crate::edge_pass::{RelKey, RelTableKey};
use crate::edge_pass;
use crate::generation::{CodecError, GenerationError};
use crate::runs::{RecordView, RunSetLease, RunSink};
use crate::runs;
use crate::tables::{CsrAdjacency, CsrView};
use crate::views;
use crate::wire::load_u32;
use vstd::prelude::*;

verus! {

/// The row counts on both sides of the first `k` relationship tables.
pub open spec fn rel_geometries(keys: Seq<RelKey>, counts: Seq<u64>, k: nat) -> Result<
    Seq<RelTableGeometry>,
    GenerationError,
>
    decreases k,
{
    if k == 0 {
        Ok(Seq::empty())
    } else {
        match rel_geometries(keys, counts, (k - 1) as nat) {
            Err(e) => Err(e),
            Ok(v) => {
                let t = keys[k - 1];
                if t.1 < counts.len() && t.2 < counts.len() {
                    Ok(
                        v.push(
                            RelTableGeometry {
                                rel_id: (k - 1) as u16,
                                src_rows: counts[t.1 as int],
                                dst_rows: counts[t.2 as int],
                            },
                        ),
                    )
                } else {
                    Err(GenerationError::Codec(CodecError::UnknownRelTable))
                }
            },
        }
    }
}

proof fn lemma_rel_geometries_fail(keys: Seq<RelKey>, counts: Seq<u64>, i: nat, n: nat)
    requires
        i <= n,
        rel_geometries(keys, counts, i) is Err,
    ensures
        rel_geometries(keys, counts, n) == rel_geometries(keys, counts, i),
    decreases n,
{
    if i < n {
        lemma_rel_geometries_fail(keys, counts, i, (n - 1) as nat);
    }
}

fn make_geometries(keys: &[RelTableKey], counts: &[u64]) -> (r: Result<
    Vec<RelTableGeometry>,
    GenerationError,
>)
    requires
        keys@.len() <= 0x1_0000,
    ensures
        ({
            let want = rel_geometries(edge_pass::rel_keys(keys@), counts@, keys@.len());
            match r {
                Ok(v) => want == Ok::<Seq<RelTableGeometry>, GenerationError>(v@) && v@.len()
                    == keys@.len(),
                Err(e) => want == Err::<Seq<RelTableGeometry>, GenerationError>(e),
            }
        }),
{
    let n: usize = keys.len();
    let ghost k = edge_pass::rel_keys(keys@);
    let mut out: Vec<RelTableGeometry> = Vec::new();
    let mut i: usize = 0;
    while i < n
        invariant
            i <= n,
            n == keys@.len(),
            n <= 0x1_0000,
            k == edge_pass::rel_keys(keys@),
            out@.len() == i,
            rel_geometries(k, counts@, i as nat) == Ok::<Seq<RelTableGeometry>, GenerationError>(
                out@,
            ),
        decreases n - i,
    {
        proof {
            if rel_geometries(k, counts@, (i + 1) as nat) is Err {
                lemma_rel_geometries_fail(k, counts@, (i + 1) as nat, n as nat);
            }
        }
        let src: usize = keys[i].src_table_id as usize;
        let dst: usize = keys[i].dst_table_id as usize;
        assert(k[i as int] == keys@[i as int]@);
        if src >= counts.len() || dst >= counts.len() {
            return Err(GenerationError::Codec(CodecError::UnknownRelTable));
        }
        out.push(
            RelTableGeometry { rel_id: i as u16, src_rows: counts[src], dst_rows: counts[dst] },
        );
        i = i + 1;
    }
    Ok(out)
}

/// The concatenated adjacency arrays of all tables.
pub struct ArraysView {
    /// Forward offsets.
    pub fwd_offsets: Seq<u32>,
    /// Forward targets.
    pub fwd_targets: Seq<u32>,
    /// Reverse offsets.
    pub rev_offsets: Seq<u32>,
    /// Reverse targets.
    pub rev_targets: Seq<u32>,
    /// Forward positions.
    pub positions: Seq<u32>,
}

/// The adjacency arrays that a forward run spells.
pub open spec fn adjacency_arrays(g: Seq<RelTableGeometry>, forward: Seq<RecordView>) -> Result<
    ArraysView,
    GenerationError,
> {
    match csr_pass::forward_after(g, forward, forward.len()) {
        Err(e) => Err(e),
        Ok(w) => {
            let reverse = runs::sorted_records(w.reverse);
            match csr_pass::reverse_after(g, reverse, reverse.len()) {
                Err(e) => Err(e),
                Ok(v) => Ok(
                    ArraysView {
                        fwd_offsets: csr_pass::closed_offsets(w.offsets),
                        fwd_targets: w.targets,
                        rev_offsets: csr_pass::closed_offsets(v.offsets),
                        rev_targets: v.targets,
                        positions: v.positions,
                    },
                ),
            }
        },
    }
}

/// The numbers that some bytes spell.
fn words(bytes: &Vec<u8>, Ghost(v): Ghost<Seq<u32>>) -> (r: Vec<u32>)
    requires
        bytes@ == views::bytes_of_u32s(v),
    ensures
        r@ == v,
{
    proof {
        views::lemma_u32s_round_trip(v);
    }
    let n: usize = bytes.len() / 4;
    let mut out: Vec<u32> = Vec::new();
    let mut i: usize = 0;
    while i < n
        invariant
            i <= n,
            4 * n <= bytes@.len(),
            n == bytes@.len() / 4,
            out@ == views::u32s_of(bytes@).take(i as int),
        decreases n - i,
    {
        assert(bytes@.len() == bytes.len());
        out.push(load_u32(bytes.as_slice(), 4 * i));
        i = i + 1;
        assert(out@ =~= views::u32s_of(bytes@).take(i as int));
    }
    assert(out@ =~= views::u32s_of(bytes@));
    out
}

struct Arrays {
    fwd_offsets: Vec<u32>,
    fwd_targets: Vec<u32>,
    rev_offsets: Vec<u32>,
    rev_targets: Vec<u32>,
    positions: Vec<u32>,
}

impl Arrays {
    spec fn content(&self) -> ArraysView {
        ArraysView {
            fwd_offsets: self.fwd_offsets@,
            fwd_targets: self.fwd_targets@,
            rev_offsets: self.rev_offsets@,
            rev_targets: self.rev_targets@,
            positions: self.positions@,
        }
    }
}

fn walk_arrays(forward: &RunSetLease, geometry: &[RelTableGeometry]) -> (r: Result<
    Arrays,
    GenerationError,
>)
    ensures
        ({
            let want = adjacency_arrays(geometry@, forward@);
            match r {
                Ok(x) => want == Ok::<ArraysView, GenerationError>(x.content()),
                Err(e) => want == Err::<ArraysView, GenerationError>(e),
            }
        }),
{
    let mut fo: Vec<u8> = Vec::new();
    let mut ft: Vec<u8> = Vec::new();
    let mut rev: RunSink = RunSink::new();
    stream_forward_csr(forward, geometry, &mut fo, &mut ft, &mut rev)?;
    let ghost w = csr_pass::forward_after(geometry@, forward@, forward@.len())->Ok_0;
    proof {
        assert(fo@ =~= views::bytes_of_u32s(csr_pass::closed_offsets(w.offsets)));
        assert(ft@ =~= views::bytes_of_u32s(w.targets));
        assert(rev@ =~= w.reverse);
    }
    let reverse: RunSetLease = rev.finish();
    let mut ro: Vec<u8> = Vec::new();
    let mut rt: Vec<u8> = Vec::new();
    let mut fp: Vec<u8> = Vec::new();
    stream_reverse_csr(&reverse, geometry, &mut ro, &mut rt, &mut fp)?;
    let ghost v = csr_pass::reverse_after(geometry@, reverse@, reverse@.len())->Ok_0;
    proof {
        assert(ro@ =~= views::bytes_of_u32s(csr_pass::closed_offsets(v.offsets)));
        assert(rt@ =~= views::bytes_of_u32s(v.targets));
        assert(fp@ =~= views::bytes_of_u32s(v.positions));
    }
    Ok(
        Arrays {
            fwd_offsets: words(&fo, Ghost(csr_pass::closed_offsets(w.offsets))),
            fwd_targets: words(&ft, Ghost(w.targets)),
            rev_offsets: words(&ro, Ghost(csr_pass::closed_offsets(v.offsets))),
            rev_targets: words(&rt, Ghost(v.targets)),
            positions: words(&fp, Ghost(v.positions)),
        },
    )
}

// ------------------------------------------------------------- splitting

/// Where row `t` starts when rows of the given lengths stand one after the
/// other.
pub open spec fn row_start(lens: Seq<u64>, t: int) -> int
    decreases t,
{
    if t <= 0 {
        0
    } else {
        row_start(lens, t - 1) + lens[t - 1]
    }
}

/// The rows of the given lengths that stand one after the other.
pub open spec fn split_rows(all: Seq<u32>, lens: Seq<u64>) -> Seq<Seq<u32>> {
    Seq::new(
        lens.len(),
        |t: int| all.subrange(row_start(lens, t), row_start(lens, t) + lens[t]),
    )
}

/// The rows fill the array.
pub open spec fn rows_fill(all: Seq<u32>, lens: Seq<u64>) -> bool {
    row_start(lens, lens.len() as int) == all.len()
}

/// The contents of rows.
pub open spec fn word_rows(v: Seq<Vec<u32>>) -> Seq<Seq<u32>> {
    Seq::new(v.len(), |i: int| v[i]@)
}

/// Later rows start no earlier.
pub proof fn lemma_row_start_grows(lens: Seq<u64>, a: int, b: int)
    requires
        0 <= a <= b <= lens.len(),
    ensures
        0 <= row_start(lens, a) <= row_start(lens, b),
    decreases b,
{
    if a < b {
        lemma_row_start_grows(lens, a, b - 1);
    } else if a > 0 {
        lemma_row_start_grows(lens, a - 1, b - 1);
    }
}

fn cut(all: &Vec<u32>, lens: &Vec<u64>) -> (r: Option<Vec<Vec<u32>>>)
    ensures
        match r {
            Some(v) => rows_fill(all@, lens@) && word_rows(v@) == split_rows(all@, lens@),
            None => !rows_fill(all@, lens@),
        },
{
    let n: usize = lens.len();
    let ghost l = lens@;
    let mut out: Vec<Vec<u32>> = Vec::new();
    let mut pos: usize = 0;
    let mut t: usize = 0;
    while t < n
        invariant
            t <= n,
            n == l.len(),
            l == lens@,
            pos == row_start(l, t as int),
            pos <= all@.len(),
            word_rows(out@) == split_rows(all@, l).take(t as int),
        decreases n - t,
    {
        if ((all.len() - pos) as u64) < lens[t] {
            proof {
                lemma_row_start_grows(l, t as int + 1, n as int);
            }
            return None;
        }
        let len: usize = lens[t] as usize;
        let mut row: Vec<u32> = Vec::new();
        let mut i: usize = 0;
        while i < len
            invariant
                i <= len,
                pos + len <= all@.len(),
                row@ == all@.subrange(pos as int, pos + i),
            decreases len - i,
        {
            assert(all@.len() == all.len());
            row.push(all[pos + i]);
            i = i + 1;
            assert(row@ =~= all@.subrange(pos as int, pos + i));
        }
        let ghost before = word_rows(out@);
        let ghost rv = row@;
        out.push(row);
        pos = pos + len;
        assert(word_rows(out@) =~= before.push(rv));
        t = t + 1;
        assert(word_rows(out@) =~= split_rows(all@, l).take(t as int));
    }
    assert(split_rows(all@, l).take(n as int) =~= split_rows(all@, l));
    if pos == all.len() {
        Some(out)
    } else {
        None
    }
}

/// One more than the rows of each table's source side.
pub open spec fn src_lens(g: Seq<RelTableGeometry>) -> Seq<u64> {
    Seq::new(g.len(), |i: int| (g[i].src_rows + 1) as u64)
}

/// One more than the rows of each table's destination side.
pub open spec fn dst_lens(g: Seq<RelTableGeometry>) -> Seq<u64> {
    Seq::new(g.len(), |i: int| (g[i].dst_rows + 1) as u64)
}

/// The rows of every table fit the arrays, and no table has too many.
pub open spec fn arrays_fit(g: Seq<RelTableGeometry>, counts: Seq<u64>, a: ArraysView) -> bool {
    &&& forall|i: int|
        0 <= i < g.len() ==> (#[trigger] g[i]).src_rows <= 0xffff_ffff && g[i].dst_rows
            <= 0xffff_ffff
    &&& rows_fill(a.fwd_offsets, src_lens(g))
    &&& rows_fill(a.fwd_targets, counts)
    &&& rows_fill(a.rev_offsets, dst_lens(g))
    &&& rows_fill(a.rev_targets, counts)
    &&& rows_fill(a.positions, counts)
}

/// The adjacency of every table in both directions.
pub struct RelAdjacency {
    /// From source to destination.
    pub fwd: CsrAdjacency,
    /// From destination to source, with forward positions.
    pub bwd: CsrAdjacency,
}

/// The content of a table's adjacency.
pub struct AdjacencyView {
    /// From source to destination.
    pub fwd: CsrView,
    /// From destination to source, with forward positions.
    pub bwd: CsrView,
}

/// The contents of adjacencies.
pub open spec fn adjacency_views(v: Seq<RelAdjacency>) -> Seq<AdjacencyView> {
    Seq::new(v.len(), |i: int| AdjacencyView { fwd: v[i].fwd@, bwd: v[i].bwd@ })
}

/// The adjacency of every table, cut out of the arrays.
pub open spec fn cut_adjacency(
    g: Seq<RelTableGeometry>,
    counts: Seq<u64>,
    a: ArraysView,
) -> Seq<AdjacencyView> {
    Seq::new(
        g.len(),
        |i: int|
            AdjacencyView {
                fwd: CsrView {
                    offsets: split_rows(a.fwd_offsets, src_lens(g))[i],
                    targets: split_rows(a.fwd_targets, counts)[i],
                    edge_data: None,
                },
                bwd: CsrView {
                    offsets: split_rows(a.rev_offsets, dst_lens(g))[i],
                    targets: split_rows(a.rev_targets, counts)[i],
                    edge_data: Some(split_rows(a.positions, counts)[i]),
                },
            },
    )
}

/// The adjacency of every relationship table, or why there is none.
pub open spec fn table_adjacency(
    keys: Seq<RelKey>,
    counts: Seq<u64>,
    rel_counts: Seq<u64>,
    forward: Seq<RecordView>,
) -> Result<Seq<AdjacencyView>, GenerationError> {
    match rel_geometries(keys, counts, keys.len()) {
        Err(e) => Err(e),
        Ok(g) => match adjacency_arrays(g, forward) {
            Err(e) => Err(e),
            Ok(a) => if arrays_fit(g, rel_counts, a) {
                Ok(cut_adjacency(g, rel_counts, a))
            } else {
                Err(GenerationError::Codec(CodecError::AdjacencyLength))
            },
        },
    }
}

fn side_lens(g: &Vec<RelTableGeometry>) -> (r: Option<(Vec<u64>, Vec<u64>)>)
    ensures
        match r {
            Some(x) => x.0@ == src_lens(g@) && x.1@ == dst_lens(g@) && forall|i: int|
                0 <= i < g@.len() ==> (#[trigger] g@[i]).src_rows <= 0xffff_ffff && g@[i].dst_rows
                    <= 0xffff_ffff,
            None => exists|i: int|
                0 <= i < g@.len() && ((#[trigger] g@[i]).src_rows > 0xffff_ffff || g@[i].dst_rows
                    > 0xffff_ffff),
        },
{
    let mut src: Vec<u64> = Vec::new();
    let mut dst: Vec<u64> = Vec::new();
    let mut i: usize = 0;
    while i < g.len()
        invariant
            i <= g@.len(),
            src@ == src_lens(g@).take(i as int),
            dst@ == dst_lens(g@).take(i as int),
            forall|k: int|
                0 <= k < i ==> (#[trigger] g@[k]).src_rows <= 0xffff_ffff && g@[k].dst_rows
                    <= 0xffff_ffff,
        decreases g@.len() - i,
    {
        if g[i].src_rows > 0xffff_ffff || g[i].dst_rows > 0xffff_ffff {
            return None;
        }
        src.push(g[i].src_rows + 1);
        dst.push(g[i].dst_rows + 1);
        i = i + 1;
        assert(src@ =~= src_lens(g@).take(i as int));
        assert(dst@ =~= dst_lens(g@).take(i as int));
    }
    assert(src@ =~= src_lens(g@));
    assert(dst@ =~= dst_lens(g@));
    Some((src, dst))
}

fn take_row(rows: &mut Vec<Vec<u32>>, i: usize) -> (r: Vec<u32>)
    requires
        i < old(rows)@.len(),
    ensures
        r@ == old(rows)@[i as int]@,
        final(rows)@.len() == old(rows)@.len(),
        forall|k: int|
            0 <= k < old(rows)@.len() && k != i ==> (#[trigger] final(rows)@[k]) == old(rows)@[k],
{
    let mut row: Vec<u32> = Vec::new();
    rows.set_and_swap(i, &mut row);
    row
}

/// The adjacency of every relationship table.
pub fn build_adjacency(
    keys: &[RelTableKey],
    counts: &[u64],
    rel_counts: &Vec<u64>,
    forward: &RunSetLease,
) -> (r: Result<Vec<RelAdjacency>, GenerationError>)
    requires
        keys@.len() <= 0x1_0000,
        rel_counts@.len() == keys@.len(),
    ensures
        ({
            let want = table_adjacency(edge_pass::rel_keys(keys@), counts@, rel_counts@, forward@);
            match r {
                Ok(v) => want == Ok::<Seq<AdjacencyView>, GenerationError>(adjacency_views(v@))
                    && v@.len() == keys@.len(),
                Err(e) => want == Err::<Seq<AdjacencyView>, GenerationError>(e),
            }
        }),
{
    let n: usize = keys.len();
    let g: Vec<RelTableGeometry> = make_geometries(keys, counts)?;
    let a: Arrays = walk_arrays(forward, g.as_slice())?;
    let ghost av = a.content();
    let ghost gv = g@;
    let ghost cv = rel_counts@;
    let (src, dst) = match side_lens(&g) {
        Some(x) => x,
        None => return Err(GenerationError::Codec(CodecError::AdjacencyLength)),
    };
    let parts = (
        cut(&a.fwd_offsets, &src),
        cut(&a.fwd_targets, rel_counts),
        cut(&a.rev_offsets, &dst),
        cut(&a.rev_targets, rel_counts),
        cut(&a.positions, rel_counts),
    );
    let (mut fo, mut ft, mut ro, mut rt, mut fp) = match parts {
        (Some(b), Some(c), Some(d), Some(e), Some(f)) => (b, c, d, e, f),
        _ => return Err(GenerationError::Codec(CodecError::AdjacencyLength)),
    };
    let ghost (fo0, ft0, ro0, rt0, fp0) = (
        word_rows(fo@),
        word_rows(ft@),
        word_rows(ro@),
        word_rows(rt@),
        word_rows(fp@),
    );
    proof {
        assert(fo0.len() == n && ft0.len() == n && ro0.len() == n && rt0.len() == n && fp0.len()
            == n);
    }
    let mut out: Vec<RelAdjacency> = Vec::new();
    let mut i: usize = 0;
    while i < n
        invariant
            i <= n,
            n == gv.len(),
            out@.len() == i,
            fo@.len() == n,
            ft@.len() == n,
            ro@.len() == n,
            rt@.len() == n,
            fp@.len() == n,
            fo0 == split_rows(av.fwd_offsets, src_lens(gv)),
            ft0 == split_rows(av.fwd_targets, cv),
            ro0 == split_rows(av.rev_offsets, dst_lens(gv)),
            rt0 == split_rows(av.rev_targets, cv),
            fp0 == split_rows(av.positions, cv),
            forall|k: int| i <= k < n ==> (#[trigger] fo@[k])@ == fo0[k],
            forall|k: int| i <= k < n ==> (#[trigger] ft@[k])@ == ft0[k],
            forall|k: int| i <= k < n ==> (#[trigger] ro@[k])@ == ro0[k],
            forall|k: int| i <= k < n ==> (#[trigger] rt@[k])@ == rt0[k],
            forall|k: int| i <= k < n ==> (#[trigger] fp@[k])@ == fp0[k],
            adjacency_views(out@) == cut_adjacency(gv, cv, av).take(i as int),
        decreases n - i,
    {
        let ghost before = adjacency_views(out@);
        let fwd = CsrAdjacency {
            offsets: take_row(&mut fo, i),
            targets: take_row(&mut ft, i),
            edge_data: None,
        };
        let bwd = CsrAdjacency {
            offsets: take_row(&mut ro, i),
            targets: take_row(&mut rt, i),
            edge_data: Some(take_row(&mut fp, i)),
        };
        let ghost x = AdjacencyView { fwd: fwd@, bwd: bwd@ };
        out.push(RelAdjacency { fwd, bwd });
        proof {
            assert(adjacency_views(out@) =~= before.push(x));
            assert(x == cut_adjacency(gv, cv, av)[i as int]);
        }
        i = i + 1;
        assert(adjacency_views(out@) =~= cut_adjacency(gv, cv, av).take(i as int));
    }
    assert(adjacency_views(out@) =~= cut_adjacency(gv, cv, av));
    Ok(out)
}

} // verus!
