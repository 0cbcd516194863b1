//! Identifiers, edge counts and zone maps of the emission stage.

use crate::column_pass::{ColumnGeometry, GeometryView};
use crate::generation::{CodecError, GenerationError};
use crate::id_index::{IdEntry, MappedNodeIdIndex};
use crate::id_lookup::LookupEntry;
use crate::runs::{RecordView, RunSetLease, SortRecord};
use crate::tables;
use crate::text::own;
use crate::value::{Value, ValueView, ZoneMap, ZoneView};
use crate::wire::{load_u16_be, load_u64_be};
use crate::wire;
use vstd::prelude::*;

verus! {

// ----------------------------------------------------------------- nodes

/// The lookup entries of an ID index, by ascending original id.
pub open spec fn node_lookup(index: Seq<IdEntry>) -> Seq<LookupEntry> {
    Seq::new(
        index.len(),
        |i: int|
            (index[i].0, index[i].1, index[i].2),
    )
}

/// The lookup entries of the nodes.
pub fn build_node_id_lookup(id_index: &MappedNodeIdIndex) -> (r: Vec<LookupEntry>)
    ensures
        r@ == node_lookup(id_index@),
{
    let n: usize = id_index.len();
    let mut out: Vec<LookupEntry> = Vec::new();
    let mut i: usize = 0;
    while i < n
        invariant
            i <= n,
            n == id_index@.len(),
            out@ == node_lookup(id_index@).take(i as int),
        decreases n - i,
    {
        let (table, position) = match id_index.lookup_at(i) {
            Some(p) => p,
            None => {
                assert(false);
                return out;
            },
        };
        out.push((id_index.original_id_at(i), table, position));
        i = i + 1;
        assert(out@ =~= node_lookup(id_index@).take(i as int));
    }
    assert(out@ =~= node_lookup(id_index@));
    out
}

/// Rows of ids, all zero.
pub open spec fn zero_ids(counts: Seq<u64>) -> Seq<Seq<u64>> {
    Seq::new(counts.len(), |t: int| Seq::new(counts[t] as nat, |o: int| 0u64))
}

/// The id rows with the first `k` nodes of the index in their places; a node
/// without a place is passed over.
pub open spec fn placed_ids(counts: Seq<u64>, index: Seq<IdEntry>, k: nat) -> Seq<Seq<u64>>
    decreases k,
{
    if k == 0 {
        zero_ids(counts)
    } else {
        let v = placed_ids(counts, index, (k - 1) as nat);
        let e = index[k - 1];
        if e.1 < v.len() && e.2 < v[e.1 as int].len() {
            v.update(e.1 as int, v[e.1 as int].update(e.2 as int, e.0))
        } else {
            v
        }
    }
}

fn zero_rows(counts: &[u64]) -> (r: Option<Vec<Vec<u64>>>)
    ensures
        match r {
            Some(v) => tables::id_rows(v@) == zero_ids(counts@),
            None => exists|t: int| 0 <= t < counts@.len() && (#[trigger] counts@[t]) > usize::MAX,
        },
{
    let mut out: Vec<Vec<u64>> = Vec::new();
    let mut t: usize = 0;
    while t < counts.len()
        invariant
            t <= counts@.len(),
            tables::id_rows(out@) == zero_ids(counts@).take(t as int),
        decreases counts@.len() - t,
    {
        if counts[t] > usize::MAX as u64 {
            return None;
        }
        let n: usize = counts[t] as usize;
        let mut row: Vec<u64> = Vec::new();
        let mut i: usize = 0;
        while i < n
            invariant
                i <= n,
                row@ == Seq::new(i as nat, |o: int| 0u64),
            decreases n - i,
        {
            row.push(0);
            i = i + 1;
            assert(row@ =~= Seq::new(i as nat, |o: int| 0u64));
        }
        let ghost before = tables::id_rows(out@);
        let ghost rv = row@;
        out.push(row);
        assert(tables::id_rows(out@) =~= before.push(rv));
        t = t + 1;
        assert(tables::id_rows(out@) =~= zero_ids(counts@).take(t as int));
    }
    assert(zero_ids(counts@).take(t as int) =~= zero_ids(counts@));
    Some(out)
}

/// The original ids of the nodes, table by table and row by row. `None` when
/// a table has more rows than memory has addresses.
pub fn build_node_original_ids(id_index: &MappedNodeIdIndex, counts: &[u64]) -> (r: Option<
    Vec<Vec<u64>>,
>)
    ensures
        match r {
            Some(v) => tables::id_rows(v@) == placed_ids(counts@, id_index@, id_index@.len()),
            None => exists|t: int| 0 <= t < counts@.len() && (#[trigger] counts@[t]) > usize::MAX,
        },
{
    let mut out: Vec<Vec<u64>> = match zero_rows(counts) {
        Some(v) => v,
        None => return None,
    };
    let ghost index = id_index@;
    let n: usize = id_index.len();
    let mut i: usize = 0;
    while i < n
        invariant
            i <= n,
            n == index.len(),
            index == id_index@,
            tables::id_rows(out@) == placed_ids(counts@, index, i as nat),
        decreases n - i,
    {
        let ghost before = tables::id_rows(out@);
        let (table, offset) = match id_index.lookup_at(i) {
            Some(p) => p,
            None => {
                assert(false);
                return None;
            },
        };
        let id: u64 = id_index.original_id_at(i);
        let t: usize = table as usize;
        if t < out.len() {
            assert(out@[t as int]@ == before[t as int]);
            let len: usize = out[t].len();
            if offset < len as u64 {
                let mut row: Vec<u64> = Vec::new();
                out.set_and_swap(t, &mut row);
                row.set(offset as usize, id);
                let ghost rv = row@;
                out.set_and_swap(t, &mut row);
                assert(tables::id_rows(out@) =~= before.update(t as int, rv));
            }
        }
        i = i + 1;
    }
    Some(out)
}

/// A dense index fills its rows: every node's id stands in the row of its
/// place.
pub proof fn lemma_placed_ids(counts: Seq<u64>, index: Seq<IdEntry>, k: nat, i: int)
    requires
        0 <= i < k <= index.len(),
        index[i].1 < counts.len(),
        index[i].2 < counts[index[i].1 as int],
        forall|a: int, b: int|
            0 <= a < b < index.len() ==> (#[trigger] index[a]).1 != (#[trigger] index[b]).1
                || index[a].2 != index[b].2,
    ensures
        placed_ids(counts, index, k).len() == counts.len(),
        forall|t: int|
            0 <= t < counts.len() ==> (#[trigger] placed_ids(counts, index, k)[t]).len()
                == counts[t],
        placed_ids(counts, index, k)[index[i].1 as int][index[i].2 as int]
            == index[i].0,
    decreases k,
{
    lemma_placed_lens(counts, index, (k - 1) as nat);
    lemma_placed_lens(counts, index, k);
    if i < k - 1 {
        lemma_placed_ids(counts, index, (k - 1) as nat, i);
        assert(index[i].1 != index[k - 1].1 || index[i].2 != index[k - 1].2);
    }
}

proof fn lemma_placed_lens(counts: Seq<u64>, index: Seq<IdEntry>, k: nat)
    requires
        k <= index.len(),
    ensures
        placed_ids(counts, index, k).len() == counts.len(),
        forall|t: int|
            0 <= t < counts.len() ==> (#[trigger] placed_ids(counts, index, k)[t]).len()
                == counts[t],
    decreases k,
{
    if k > 0 {
        lemma_placed_lens(counts, index, (k - 1) as nat);
    }
}

// ----------------------------------------------------------------- edges

/// The edge id of a forward key.
pub fn forward_csr_edge_id(rec: &SortRecord) -> (r: Result<u64, GenerationError>)
    ensures
        r == (if rec@.key.len() < 26 {
            Err::<u64, GenerationError>(
                GenerationError::Codec(CodecError::KeyWidth(rec@.key.len() as usize)),
            )
        } else {
            Ok::<u64, GenerationError>(wire::u64_be_at(rec@.key, 18))
        }),
{
    if rec.key.len() < 26 {
        return Err(GenerationError::Codec(CodecError::KeyWidth(rec.key.len())));
    }
    Ok(load_u64_be(rec.key.as_slice(), 18))
}

/// The walk over the forward run that numbers the edges of every table.
pub struct EdgeWalk {
    /// Current table.
    pub rel: Option<u16>,
    /// Its edges so far.
    pub pos: int,
    /// Lookup entries so far.
    pub entries: Seq<LookupEntry>,
}

/// The walk behind one more record.
pub open spec fn edge_walk_step(w: EdgeWalk, rec: RecordView) -> Result<EdgeWalk, GenerationError> {
    if rec.key.len() < 26 {
        Err(GenerationError::Codec(CodecError::KeyWidth(rec.key.len() as usize)))
    } else {
        let rel = wire::u16_be_at(rec.key, 0);
        let pos = if w.rel == Some(rel) {
            w.pos
        } else {
            0
        };
        Ok(
            EdgeWalk {
                rel: Some(rel),
                pos: pos + 1,
                entries: w.entries.push(
                    (wire::u64_be_at(rec.key, 18), rel, pos as u64),
                ),
            },
        )
    }
}

/// The walk behind the first `k` records.
pub open spec fn edge_walk(recs: Seq<RecordView>, k: nat) -> Result<EdgeWalk, GenerationError>
    decreases k,
{
    if k == 0 {
        Ok(EdgeWalk { rel: None, pos: 0, entries: Seq::empty() })
    } else {
        match edge_walk(recs, (k - 1) as nat) {
            Err(e) => Err(e),
            Ok(w) => edge_walk_step(w, recs[k - 1]),
        }
    }
}

proof fn lemma_edge_walk_fail(recs: Seq<RecordView>, i: nat, n: nat)
    requires
        i <= n,
        edge_walk(recs, i) is Err,
    ensures
        edge_walk(recs, n) == edge_walk(recs, i),
    decreases n,
{
    if i < n {
        lemma_edge_walk_fail(recs, i, (n - 1) as nat);
    }
}

/// The lookup entries of the edges in the order of the forward run: original
/// id, relationship table, position in the table.
pub fn build_edge_id_lookup(fwd_lease: &RunSetLease) -> (r: Result<
    Vec<LookupEntry>,
    GenerationError,
>)
    ensures
        match r {
            Ok(v) => edge_walk(fwd_lease@, fwd_lease@.len()) matches Ok(w) && v@ == w.entries,
            Err(e) => edge_walk(fwd_lease@, fwd_lease@.len()) == Err::<EdgeWalk, GenerationError>(
                e,
            ),
        },
{
    let n: usize = fwd_lease.len();
    let ghost recs = fwd_lease@;
    let ghost mut w = EdgeWalk { rel: None, pos: 0, entries: Seq::empty() };
    let mut out: Vec<LookupEntry> = Vec::new();
    let mut cur: Option<u16> = None;
    let mut pos: u64 = 0;
    let mut i: usize = 0;
    while i < n
        invariant
            i <= n,
            n == recs.len(),
            recs == fwd_lease@,
            edge_walk(recs, i as nat) == Ok::<EdgeWalk, GenerationError>(w),
            cur == w.rel,
            pos == w.pos,
            pos <= i,
            out@ == w.entries,
        decreases n - i,
    {
        proof {
            if edge_walk(recs, (i + 1) as nat) is Err {
                lemma_edge_walk_fail(recs, (i + 1) as nat, n as nat);
            }
        }
        let rec: &SortRecord = fwd_lease.record_at(i);
        let id: u64 = match forward_csr_edge_id(rec) {
            Ok(x) => x,
            Err(e) => return Err(e),
        };
        let rel: u16 = load_u16_be(rec.key.as_slice(), 0);
        let same: bool = match cur {
            Some(c) => c == rel,
            None => false,
        };
        if !same {
            cur = Some(rel);
            pos = 0;
        }
        out.push((id, rel, pos));
        proof {
            w = edge_walk_step(w, recs[i as int])->Ok_0;
        }
        pos = pos + 1;
        i = i + 1;
    }
    Ok(out)
}

/// The edge ids of the first `k` entries, table by table.
pub open spec fn ids_by_table(entries: Seq<LookupEntry>, tables: nat, k: nat) -> Seq<Seq<u64>>
    decreases k,
{
    if k == 0 {
        Seq::new(tables, |t: int| Seq::<u64>::empty())
    } else {
        let v = ids_by_table(entries, tables, (k - 1) as nat);
        let e = entries[k - 1];
        if e.1 < tables {
            v.update(e.1 as int, v[e.1 as int].push(e.0))
        } else {
            v
        }
    }
}

/// The original ids of the edges, table by table and position by position.
pub fn build_edge_original_ids(entries: &[LookupEntry], tables: usize) -> (r: Vec<Vec<u64>>)
    ensures
        tables::id_rows(r@) == ids_by_table(entries@, tables as nat, entries@.len()),
        r@.len() == tables,
{
    let mut out: Vec<Vec<u64>> = Vec::new();
    let mut t: usize = 0;
    while t < tables
        invariant
            t <= tables,
            tables::id_rows(out@) == Seq::new(t as nat, |k: int| Seq::<u64>::empty()),
        decreases tables - t,
    {
        let ghost before = tables::id_rows(out@);
        let row: Vec<u64> = Vec::new();
        assert(row@ =~= Seq::<u64>::empty());
        out.push(row);
        assert(tables::id_rows(out@) =~= before.push(Seq::<u64>::empty()));
        t = t + 1;
        assert(tables::id_rows(out@) =~= Seq::new(t as nat, |k: int| Seq::<u64>::empty()));
    }
    let ghost v = entries@;
    let mut i: usize = 0;
    while i < entries.len()
        invariant
            i <= v.len(),
            v == entries@,
            out@.len() == tables,
            tables::id_rows(out@) == ids_by_table(v, tables as nat, i as nat),
        decreases v.len() - i,
    {
        let ghost before = tables::id_rows(out@);
        let at: usize = entries[i].1 as usize;
        if at < out.len() {
            let mut row: Vec<u64> = Vec::new();
            assert(out@[at as int]@ == before[at as int]);
            out.set_and_swap(at, &mut row);
            row.push(entries[i].0);
            let ghost rv = row@;
            out.set_and_swap(at, &mut row);
            assert(tables::id_rows(out@) =~= before.update(at as int, rv));
        }
        i = i + 1;
    }
    out
}

/// The edges of each table among the first `k` forward records.
pub open spec fn edge_counts(recs: Seq<RecordView>, tables: nat, k: nat) -> Result<
    Seq<u64>,
    GenerationError,
>
    decreases k,
{
    if k == 0 {
        Ok(Seq::new(tables, |t: int| 0u64))
    } else {
        match edge_counts(recs, tables, (k - 1) as nat) {
            Err(e) => Err(e),
            Ok(v) => if recs[k - 1].key.len() < 26 {
                Err(GenerationError::Codec(CodecError::KeyWidth(recs[k - 1].key.len() as usize)))
            } else {
                let t = wire::u16_be_at(recs[k - 1].key, 0) as int;
                if t < tables {
                    Ok(v.update(t, (v[t] + 1) as u64))
                } else {
                    Ok(v)
                }
            },
        }
    }
}

proof fn lemma_edge_counts_fail(recs: Seq<RecordView>, tables: nat, i: nat, n: nat)
    requires
        i <= n,
        edge_counts(recs, tables, i) is Err,
    ensures
        edge_counts(recs, tables, n) == edge_counts(recs, tables, i),
    decreases n,
{
    if i < n {
        lemma_edge_counts_fail(recs, tables, i, (n - 1) as nat);
    }
}

/// The number of edges of every relationship table.
pub fn count_edges_per_rel_table(fwd_lease: &RunSetLease, n_rel_tables: usize) -> (r: Result<
    Vec<u64>,
    GenerationError,
>)
    ensures
        ({
            let want = edge_counts(fwd_lease@, n_rel_tables as nat, fwd_lease@.len());
            match r {
                Ok(v) => want == Ok::<Seq<u64>, GenerationError>(v@) && v@.len() == n_rel_tables,
                Err(e) => want == Err::<Seq<u64>, GenerationError>(e),
            }
        }),
{
    let n: usize = fwd_lease.len();
    let ghost recs = fwd_lease@;
    let mut counts: Vec<u64> = Vec::new();
    let mut t: usize = 0;
    while t < n_rel_tables
        invariant
            t <= n_rel_tables,
            counts@ == Seq::new(t as nat, |k: int| 0u64),
        decreases n_rel_tables - t,
    {
        counts.push(0);
        t = t + 1;
        assert(counts@ =~= Seq::new(t as nat, |k: int| 0u64));
    }
    let mut i: usize = 0;
    while i < n
        invariant
            i <= n,
            n == recs.len(),
            recs == fwd_lease@,
            counts@.len() == n_rel_tables,
            edge_counts(recs, n_rel_tables as nat, i as nat) == Ok::<Seq<u64>, GenerationError>(
                counts@,
            ),
            forall|k: int| 0 <= k < counts@.len() ==> (#[trigger] counts@[k]) <= i,
        decreases n - i,
    {
        proof {
            if edge_counts(recs, n_rel_tables as nat, (i + 1) as nat) is Err {
                lemma_edge_counts_fail(recs, n_rel_tables as nat, (i + 1) as nat, n as nat);
            }
        }
        let rec: &SortRecord = fwd_lease.record_at(i);
        if rec.key.len() < 26 {
            return Err(GenerationError::Codec(CodecError::KeyWidth(rec.key.len())));
        }
        let rel: usize = load_u16_be(rec.key.as_slice(), 0) as usize;
        if rel < n_rel_tables {
            let c: u64 = counts[rel];
            counts.set(rel, c + 1);
        }
        i = i + 1;
    }
    Ok(counts)
}

// ------------------------------------------------------------- zone maps

/// The least value that a geometry shows.
pub open spec fn geometry_min(g: GeometryView) -> Option<ValueView> {
    if g.min_str is Some {
        Some(ValueView::Text(g.min_str->0))
    } else if g.min_int is Some {
        Some(ValueView::Int64(g.min_int->0))
    } else if g.min_float is Some {
        Some(ValueView::Float64(g.min_float->0))
    } else if g.saw_false || g.saw_true {
        Some(ValueView::Bool(!g.saw_false))
    } else {
        None
    }
}

/// The greatest value that a geometry shows.
pub open spec fn geometry_max(g: GeometryView) -> Option<ValueView> {
    if g.max_str is Some {
        Some(ValueView::Text(g.max_str->0))
    } else if g.max_int is Some {
        Some(ValueView::Int64(g.max_int->0))
    } else if g.max_float is Some {
        Some(ValueView::Float64(g.max_float->0))
    } else if g.saw_false || g.saw_true {
        Some(ValueView::Bool(g.saw_true))
    } else {
        None
    }
}

/// The zone map of a whole column.
pub open spec fn geometry_zone(g: GeometryView) -> ZoneView {
    ZoneView {
        min: geometry_min(g),
        max: geometry_max(g),
        null_count: g.null_count as usize,
        row_count: g.row_count as usize,
    }
}

/// The zone map of a whole column from its geometry.
pub fn table_zone_map(g: &ColumnGeometry) -> (r: ZoneMap)
    requires
        g.null_count <= usize::MAX,
        g.row_count <= usize::MAX,
    ensures
        r@ == geometry_zone(g@),
{
    let min: Option<Value> = match &g.min_str {
        Some(s) => Some(Value::String(own(s.as_str()))),
        None => match g.min_int {
            Some(n) => Some(Value::Int64(n)),
            None => match g.min_float {
                Some(f) => Some(Value::Float64(f)),
                None => if g.saw_false || g.saw_true {
                    Some(Value::Bool(!g.saw_false))
                } else {
                    None
                },
            },
        },
    };
    let max: Option<Value> = match &g.max_str {
        Some(s) => Some(Value::String(own(s.as_str()))),
        None => match g.max_int {
            Some(n) => Some(Value::Int64(n)),
            None => match g.max_float {
                Some(f) => Some(Value::Float64(f)),
                None => if g.saw_false || g.saw_true {
                    Some(Value::Bool(g.saw_true))
                } else {
                    None
                },
            },
        },
    };
    ZoneMap { min, max, null_count: g.null_count as usize, row_count: g.row_count as usize }
}

} // verus!
