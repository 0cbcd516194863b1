//! Column emission.
//!
//! A second replay of the occurrence run, beside the geometries of the first,
//! lays every column out row by row: a row has a value, a null, or nothing.
//! From the layout come the presence and null companions and the directory
//! records of the columns.

use crate::column_pass::{ColumnGeometry, Family, GeometryView, decode_occ_value};
use crate::column_pass;
use crate::directory::SegmentKind;
use crate::emit_meta::{CodecKind, w16, w32, w64};
use crate::emit_meta;
use crate::faults;
use crate::generation::{CodecError, GenerationError, WireCount};
use crate::node_pass::split_occ_key;
use crate::node_pass;
use crate::runs::{RecordView, RunSetLease, SortRecord};
use crate::text::{own, text_eq};
use crate::value::{Value, ValueView};
use crate::value;
use crate::wire;
use vstd::prelude::*;

verus! {

/// The codec of a column with a given geometry.
pub open spec fn kind_of(g: GeometryView) -> CodecKind {
    if g.has_string {
        CodecKind::Dict
    } else if g.vector_dims is Some {
        CodecKind::Float32Vector
    } else if g.saw_signed_int {
        CodecKind::RawI64
    } else if g.family == Some(Family::Float64) {
        CodecKind::Float64
    } else if g.min_int is Some || g.max_int is Some {
        CodecKind::BitPacked
    } else if g.saw_true || g.saw_false {
        CodecKind::Bitmap
    } else {
        CodecKind::Dict
    }
}

/// The codec of a column.
pub fn codec_kind_of(g: &ColumnGeometry) -> (r: CodecKind)
    ensures
        r == kind_of(g@),
{
    if g.has_string {
        CodecKind::Dict
    } else if g.vector_dims.is_some() {
        CodecKind::Float32Vector
    } else if g.saw_signed_int {
        CodecKind::RawI64
    } else if g.is_float64_family() {
        CodecKind::Float64
    } else if g.min_int.is_some() || g.max_int.is_some() {
        CodecKind::BitPacked
    } else if g.saw_true || g.saw_false {
        CodecKind::Bitmap
    } else {
        CodecKind::Dict
    }
}

// ---------------------------------------------------------------- layout

/// A column row by row. `None` stands for a row without an entry, a null
/// value for a row whose entry is null.
#[derive(Debug)]
pub struct ColumnCells {
    /// Number of the column's table.
    pub table_id: u32,
    /// Property key.
    pub key: String,
    /// Rows.
    pub cells: Vec<Option<Value>>,
}

/// The content of a laid-out column.
pub struct CellsView {
    /// Number of the column's table.
    pub table_id: u32,
    /// Property key.
    pub key: Seq<char>,
    /// Rows.
    pub cells: Seq<Option<ValueView>>,
}

/// The contents of rows.
pub open spec fn cell_views(v: Seq<Option<Value>>) -> Seq<Option<ValueView>> {
    Seq::new(v.len(), |i: int| value::optional_view(v[i]))
}

impl View for ColumnCells {
    type V = CellsView;

    open spec fn view(&self) -> CellsView {
        CellsView { table_id: self.table_id, key: self.key@, cells: cell_views(self.cells@) }
    }
}

/// The contents of a row of laid-out columns.
pub open spec fn columns_cells(v: Seq<ColumnCells>) -> Seq<CellsView> {
    Seq::new(v.len(), |i: int| v[i]@)
}

/// Rows without an entry up to row `n`.
pub open spec fn padded(c: Seq<Option<ValueView>>, n: int) -> Seq<Option<ValueView>> {
    c + Seq::new(
        if c.len() < n {
            (n - c.len()) as nat
        } else {
            0
        },
        |i: int| None::<ValueView>,
    )
}

/// The column with all rows of its table.
pub open spec fn padded_column(c: CellsView, n: int) -> CellsView {
    CellsView { cells: padded(c.cells, n), ..c }
}

/// The columns once the last one has all rows of its table.
pub open spec fn closed_columns(g: Seq<GeometryView>, v: Seq<CellsView>) -> Seq<CellsView> {
    if v.len() == 0 {
        v
    } else {
        v.drop_last().push(padded_column(v.last(), g[v.len() - 1].row_count as int))
    }
}

/// The columns after one more occurrence.
pub open spec fn layout_step(g: Seq<GeometryView>, v: Seq<CellsView>, rec: RecordView) -> Result<
    Seq<CellsView>,
    GenerationError,
> {
    match node_pass::split_occ(rec.key) {
        Err(e) => Err(e),
        Ok(k) => match column_pass::occ_value(rec.payload) {
            Err(e) => Err(e),
            Ok(x) => {
                let same = v.len() > 0 && v.last().table_id == k.0 && v.last().key == k.1;
                if same {
                    Ok(
                        v.drop_last().push(
                            CellsView {
                                cells: padded(v.last().cells, k.2 as int).push(Some(x)),
                                ..v.last()
                            },
                        ),
                    )
                } else if v.len() >= g.len() {
                    Err(GenerationError::Codec(CodecError::UnknownColumn))
                } else if g[v.len() as int].table_id != k.0 || g[v.len() as int].key != k.1 {
                    Err(GenerationError::Codec(CodecError::ColumnOrder))
                } else if g[v.len() as int].row_count > 0xffff_ffff {
                    Err(
                        GenerationError::WireWidthOverflow {
                            what: WireCount::RowCount,
                            count: g[v.len() as int].row_count,
                            max: 0xffff_ffff,
                        },
                    )
                } else {
                    Ok(
                        closed_columns(g, v).push(
                            CellsView {
                                table_id: k.0 as u32,
                                key: k.1,
                                cells: padded(Seq::empty(), k.2 as int).push(Some(x)),
                            },
                        ),
                    )
                }
            },
        },
    }
}

/// The columns after the first `k` occurrences.
pub open spec fn layout_after(g: Seq<GeometryView>, recs: Seq<RecordView>, k: nat) -> Result<
    Seq<CellsView>,
    GenerationError,
>
    decreases k,
{
    if k == 0 {
        Ok(Seq::empty())
    } else {
        match layout_after(g, recs, (k - 1) as nat) {
            Err(e) => Err(e),
            Ok(v) => layout_step(g, v, recs[k - 1]),
        }
    }
}

/// The columns that the occurrences lay out.
pub open spec fn laid_out_columns(g: Seq<GeometryView>, recs: Seq<RecordView>) -> Result<
    Seq<CellsView>,
    GenerationError,
> {
    match layout_after(g, recs, recs.len()) {
        Err(e) => Err(e),
        Ok(v) => Ok(closed_columns(g, v)),
    }
}

proof fn lemma_layout_fail(g: Seq<GeometryView>, recs: Seq<RecordView>, i: nat, n: nat)
    requires
        i <= n,
        layout_after(g, recs, i) is Err,
    ensures
        layout_after(g, recs, n) == layout_after(g, recs, i),
    decreases n,
{
    if i < n {
        lemma_layout_fail(g, recs, i, (n - 1) as nat);
    }
}

/// Adds rows without an entry up to row `n`.
fn pad_to(cells: &mut Vec<Option<Value>>, n: u64)
    ensures
        cell_views(final(cells)@) == padded(cell_views(old(cells)@), n as int),
{
    let ghost start = cell_views(cells@);
    assert(padded(start, start.len() as int) =~= start);
    while (cells.len() as u64) < n
        invariant
            cells@.len() >= start.len(),
            cells@.len() <= n || cells@.len() == start.len(),
            cell_views(cells@) == padded(start, cells@.len() as int),
        decreases n - cells@.len(),
    {
        let ghost before = cell_views(cells@);
        cells.push(None);
        assert(cell_views(cells@) =~= before.push(None));
        assert(cell_views(cells@) =~= padded(start, cells@.len() as int));
    }
    assert(padded(start, cells@.len() as int) =~= padded(start, n as int));
}

/// Replays the occurrences beside the geometries and lays every column out.
pub fn emit_column_bodies(occ_lease: &RunSetLease, geometries: &[ColumnGeometry]) -> (r: Result<
    Vec<ColumnCells>,
    GenerationError,
>)
    ensures
        match r {
            Ok(v) => laid_out_columns(column_pass::geometry_views(geometries@), occ_lease@) == Ok::<
                Seq<CellsView>,
                GenerationError,
            >(columns_cells(v@)),
            Err(e) => laid_out_columns(column_pass::geometry_views(geometries@), occ_lease@) == Err::<
                Seq<CellsView>,
                GenerationError,
            >(e),
        },
{
    let n: usize = occ_lease.len();
    let ghost recs = occ_lease@;
    let ghost g = column_pass::geometry_views(geometries@);
    let mut done: Vec<ColumnCells> = Vec::new();
    let mut current: Option<ColumnCells> = None;
    let ghost mut v: Seq<CellsView> = Seq::empty();
    let mut i: usize = 0;
    assert(columns_cells(done@) =~= Seq::empty());
    while i < n
        invariant
            i <= n,
            n == recs.len(),
            recs == occ_lease@,
            g == column_pass::geometry_views(geometries@),
            layout_after(g, recs, i as nat) == Ok::<Seq<CellsView>, GenerationError>(v),
            match current {
                None => v.len() == 0 && done@.len() == 0,
                Some(c) => v == columns_cells(done@).push(c@),
            },
            v.len() <= g.len(),
        decreases n - i,
    {
        proof {
            if layout_after(g, recs, (i + 1) as nat) is Err {
                lemma_layout_fail(g, recs, (i + 1) as nat, n as nat);
            }
        }
        let ghost before = v;
        let rec: &SortRecord = occ_lease.record_at(i);
        let (tid, prop, row) = match split_occ_key(rec.key.as_slice()) {
            Ok(p) => p,
            Err(e) => return Err(e),
        };
        let value: Value = match decode_occ_value(rec.payload.as_slice()) {
            Ok(x) => x,
            Err(e) => return Err(e),
        };
        let ghost x = value@;
        let same: bool = match &current {
            Some(c) => c.table_id == tid as u32 && text_eq(c.key.as_str(), prop),
            None => false,
        };
        proof {
            if current is Some {
                assert(v.last() == current->0@);
                assert(v.drop_last() =~= columns_cells(done@));
            }
        }
        let mut taken: Option<ColumnCells> = None;
        std::mem::swap(&mut taken, &mut current);
        let mut c: ColumnCells = match taken {
            Some(c) if same => c,
            other => {
                match other {
                    Some(mut last) => {
                        let at: usize = done.len();
                        assert(geometries@[at as int]@ == g[at as int]);
                        let ghost lv = last@;
                        pad_to(&mut last.cells, geometries[at].row_count);
                        let ghost closed = columns_cells(done@);
                        done.push(last);
                        assert(columns_cells(done@) =~= closed.push(
                            padded_column(lv, g[at as int].row_count as int),
                        ));
                    },
                    None => {
                        assert(columns_cells(done@) =~= closed_columns(g, v));
                    },
                }
                assert(columns_cells(done@) == closed_columns(g, before));
                let at: usize = done.len();
                assert(at == before.len());
                if at >= geometries.len() {
                    return Err(GenerationError::Codec(CodecError::UnknownColumn));
                }
                let geo: &ColumnGeometry = &geometries[at];
                assert(geo@ == g[at as int]);
                if geo.table_id != tid || !text_eq(geo.key.as_str(), prop) {
                    return Err(GenerationError::Codec(CodecError::ColumnOrder));
                }
                if geo.row_count > 0xffff_ffff {
                    return Err(
                        GenerationError::WireWidthOverflow {
                            what: WireCount::RowCount,
                            count: geo.row_count,
                            max: 0xffff_ffff,
                        },
                    );
                }
                let fresh = ColumnCells { table_id: tid as u32, key: own(prop), cells: Vec::new() };
                assert(fresh@.cells =~= Seq::empty());
                fresh
            },
        };
        let ghost cv = c@;
        pad_to(&mut c.cells, row);
        let ghost pv = cell_views(c.cells@);
        c.cells.push(Some(value));
        proof {
            assert(cell_views(c.cells@) =~= pv.push(Some(x)));
            v = columns_cells(done@).push(c@);
            assert(layout_step(g, before, recs[i as int]) == Ok::<Seq<CellsView>, GenerationError>(
                v,
            ));
        }
        current = Some(c);
        i = i + 1;
    }
    match current {
        Some(mut last) => {
            let at: usize = done.len();
            let ghost lv = last@;
            assert(geometries@[at as int]@ == g[at as int]);
            pad_to(&mut last.cells, geometries[at].row_count);
            let ghost closed = columns_cells(done@);
            done.push(last);
            proof {
                assert(v.last() == lv);
                assert(v.drop_last() =~= closed);
                assert(columns_cells(done@) =~= closed_columns(g, v));
            }
        },
        None => {
            assert(columns_cells(done@) =~= closed_columns(g, v));
        },
    }
    Ok(done)
}

// ------------------------------------------------------------ companions

/// Which rows have an entry.
pub open spec fn presence_bits(c: Seq<Option<ValueView>>) -> Seq<bool> {
    Seq::new(c.len(), |i: int| c[i] is Some)
}

/// Which rows have a null.
pub open spec fn null_bits(c: Seq<Option<ValueView>>) -> Seq<bool> {
    Seq::new(c.len(), |i: int| c[i] == Some(ValueView::Null))
}

/// The rows of a column with an entry.
pub fn row_presence(c: &ColumnCells) -> (r: Vec<bool>)
    ensures
        r@ == presence_bits(c@.cells),
{
    let mut out: Vec<bool> = Vec::new();
    let mut i: usize = 0;
    while i < c.cells.len()
        invariant
            i <= c.cells@.len(),
            out@ == presence_bits(c@.cells).take(i as int),
        decreases c.cells@.len() - i,
    {
        out.push(c.cells[i].is_some());
        i = i + 1;
        assert(out@ =~= presence_bits(c@.cells).take(i as int));
    }
    assert(out@ =~= presence_bits(c@.cells));
    out
}

/// The rows of a column with a null.
pub fn row_nulls(c: &ColumnCells) -> (r: Vec<bool>)
    ensures
        r@ == null_bits(c@.cells),
{
    let mut out: Vec<bool> = Vec::new();
    let mut i: usize = 0;
    while i < c.cells.len()
        invariant
            i <= c.cells@.len(),
            out@ == null_bits(c@.cells).take(i as int),
        decreases c.cells@.len() - i,
    {
        let null: bool = match &c.cells[i] {
            Some(Value::Null) => true,
            _ => false,
        };
        assert(c@.cells[i as int] == value::optional_view(c.cells@[i as int]));
        out.push(null);
        i = i + 1;
        assert(out@ =~= null_bits(c@.cells).take(i as int));
    }
    assert(out@ =~= null_bits(c@.cells));
    out
}

// ------------------------------------------------------------ directories

/// A column whose body has its place.
#[derive(Debug)]
pub struct EmittedColumn {
    /// Position among the columns.
    pub column_index: u32,
    /// Table of the column.
    pub table_id: u16,
    /// Property key.
    pub key: String,
    /// Codec.
    pub kind: CodecKind,
    /// Bytes of the body.
    pub body_len: u32,
    /// Where the body starts.
    pub body_start: u32,
    /// Rows that the codec holds.
    pub codec_len: u32,
}

/// The directory record of a column.
pub open spec fn column_record(kind: CodecKind, index: u32, rows: u32) -> Seq<u8> {
    wire::put16(emit_meta::codec_code(kind)) + wire::put16(emit_meta::codec_code(kind)) + wire::put32(index) + wire::put32(1) + wire::put64(rows as u64)
        + wire::put32(0)
}

/// The block record of a column.
pub open spec fn block_record(start: u32, len: u32, rows: u32) -> Seq<u8> {
    wire::put32(start) + wire::put32(len) + wire::put32(rows)
}

/// The directory records of columns.
pub open spec fn column_records(v: Seq<EmittedColumn>) -> Seq<u8> {
    wire::flat(v, |c: EmittedColumn| column_record(c.kind, c.column_index, c.codec_len))
}

/// The block records of columns.
pub open spec fn block_records(v: Seq<EmittedColumn>) -> Seq<u8> {
    wire::flat(v, |c: EmittedColumn| block_record(c.body_start, c.body_len, c.codec_len))
}

/// A table and its columns, as the directories list it.
pub struct TableColumns {
    /// Table.
    pub table_id: u16,
    /// Source table of a relationship table.
    pub src: u16,
    /// Destination table of a relationship table.
    pub dst: u16,
    /// Rows.
    pub rows: u64,
    /// Columns, one after the other from the first.
    pub columns: Vec<u32>,
}

/// Where the columns of a table start: at its first one, or where the last
/// table's ended.
pub open spec fn first_column(t: TableColumns, running: int) -> int {
    if t.columns@.len() > 0 {
        t.columns@[0] as int
    } else {
        running
    }
}

/// Where the columns behind the first `n` tables start.
pub open spec fn running_column(v: Seq<TableColumns>, n: int, base: int) -> int
    decreases n,
{
    if n <= 0 {
        base
    } else {
        first_column(v[n - 1], running_column(v, n - 1, base)) + v[n - 1].columns@.len()
    }
}

/// The directory records of the first `n` node tables.
pub open spec fn node_records_of(v: Seq<TableColumns>, n: int) -> Seq<u8>
    decreases n,
{
    if n <= 0 {
        Seq::empty()
    } else {
        let t = v[n - 1];
        node_records_of(v, n - 1) + (wire::put16(t.table_id) + wire::put16(0) + wire::put32(
            first_column(t, running_column(v, n - 1, 0)) as u32,
        ) + wire::put32(t.columns@.len() as u32) + wire::put64(t.rows) + wire::put32(0))
    }
}

/// The directory records of the first `n` relationship tables.
pub open spec fn rel_records_of(v: Seq<TableColumns>, n: int, base: int) -> Seq<u8>
    decreases n,
{
    if n <= 0 {
        Seq::empty()
    } else {
        let t = v[n - 1];
        rel_records_of(v, n - 1, base) + (wire::put16(t.table_id) + wire::put16(t.src) + wire::put16(t.dst) + wire::put16(
            0,
        ) + wire::put32(first_column(t, running_column(v, n - 1, base)) as u32) + wire::put32(
            t.columns@.len() as u32,
        ) + wire::put64(t.rows))
    }
}

/// No table's columns end past the last column number.
pub open spec fn columns_numbered(v: Seq<TableColumns>, base: int) -> bool {
    forall|n: int| 0 <= n <= v.len() ==> 0 <= #[trigger] running_column(v, n, base) <= 0xffff_ffff
}

/// Writes the column directory, the block index and the table directories.
pub fn write_directory_segments(
    columns: &[EmittedColumn],
    node_tables: &[TableColumns],
    rel_tables: &[TableColumns],
    node_dir: &mut Vec<u8>,
    rel_dir: &mut Vec<u8>,
    col_dir: &mut Vec<u8>,
    col_block_index: &mut Vec<u8>,
)
    requires
        columns_numbered(node_tables@, 0),
        columns_numbered(
            rel_tables@,
            running_column(node_tables@, node_tables@.len() as int, 0),
        ),
    ensures
        final(col_dir)@ == old(col_dir)@ + column_records(columns@),
        final(col_block_index)@ == old(col_block_index)@ + block_records(columns@),
        final(node_dir)@ == old(node_dir)@ + node_records_of(
            node_tables@,
            node_tables@.len() as int,
        ),
        final(rel_dir)@ == old(rel_dir)@ + rel_records_of(
            rel_tables@,
            rel_tables@.len() as int,
            running_column(node_tables@, node_tables@.len() as int, 0),
        ),
{
    write_column_records(columns, col_dir, col_block_index);
    let ghost nd = node_dir@;
    let ghost nt = node_tables@;
    let mut running: u32 = 0;
    let mut i: usize = 0;
    assert(nd + node_records_of(nt, 0) =~= nd);
    while i < node_tables.len()
        invariant
            i <= nt.len(),
            nt == node_tables@,
            columns_numbered(nt, 0),
            running == running_column(nt, i as int, 0),
            node_dir@ == nd + node_records_of(nt, i as int),
        decreases nt.len() - i,
    {
        let t: &TableColumns = &node_tables[i];
        let ghost before = node_dir@;
        let count: usize = t.columns.len();
        assert(count == t.columns@.len());
        proof {
            assert(0 <= running_column(nt, i + 1, 0) <= 0xffff_ffff);
        }
        let start: u32 = if count > 0 {
            t.columns[0]
        } else {
            running
        };
        w16(node_dir, t.table_id);
        w16(node_dir, 0);
        w32(node_dir, start);
        w32(node_dir, count as u32);
        w64(node_dir, t.rows);
        w32(node_dir, 0);
        running = start + count as u32;
        i = i + 1;
        assert(node_dir@ =~= nd + node_records_of(nt, i as int));
    }
    let ghost rd = rel_dir@;
    let ghost rt = rel_tables@;
    let ghost base = running as int;
    let mut j: usize = 0;
    assert(rd + rel_records_of(rt, 0, base) =~= rd);
    while j < rel_tables.len()
        invariant
            j <= rt.len(),
            rt == rel_tables@,
            columns_numbered(rt, base),
            running == running_column(rt, j as int, base),
            rel_dir@ == rd + rel_records_of(rt, j as int, base),
        decreases rt.len() - j,
    {
        let t: &TableColumns = &rel_tables[j];
        let count: usize = t.columns.len();
        assert(count == t.columns@.len());
        proof {
            assert(0 <= running_column(rt, j + 1, base) <= 0xffff_ffff);
        }
        let start: u32 = if count > 0 {
            t.columns[0]
        } else {
            running
        };
        w16(rel_dir, t.table_id);
        w16(rel_dir, t.src);
        w16(rel_dir, t.dst);
        w16(rel_dir, 0);
        w32(rel_dir, start);
        w32(rel_dir, count as u32);
        w64(rel_dir, t.rows);
        running = start + count as u32;
        j = j + 1;
        assert(rel_dir@ =~= rd + rel_records_of(rt, j as int, base));
    }
}

fn write_column_records(
    columns: &[EmittedColumn],
    col_dir: &mut Vec<u8>,
    col_block_index: &mut Vec<u8>,
)
    ensures
        final(col_dir)@ == old(col_dir)@ + column_records(columns@),
        final(col_block_index)@ == old(col_block_index)@ + block_records(columns@),
{
    let ghost cd = col_dir@;
    let ghost cb = col_block_index@;
    let ghost v = columns@;
    let ghost f = |c: EmittedColumn| column_record(c.kind, c.column_index, c.codec_len);
    let ghost h = |c: EmittedColumn| block_record(c.body_start, c.body_len, c.codec_len);
    let mut i: usize = 0;
    assert(cd + wire::flat(v.take(0), f) =~= cd);
    assert(cb + wire::flat(v.take(0), h) =~= cb);
    while i < columns.len()
        invariant
            i <= v.len(),
            v == columns@,
            f == (|c: EmittedColumn| column_record(c.kind, c.column_index, c.codec_len)),
            h == (|c: EmittedColumn| block_record(c.body_start, c.body_len, c.codec_len)),
            col_dir@ == cd + wire::flat(v.take(i as int), f),
            col_block_index@ == cb + wire::flat(v.take(i as int), h),
        decreases v.len() - i,
    {
        let c: &EmittedColumn = &columns[i];
        let ghost d0 = col_dir@;
        let ghost b0 = col_block_index@;
        w16(col_dir, c.kind.disc());
        w16(col_dir, c.kind.value_type());
        w32(col_dir, c.column_index);
        w32(col_dir, 1);
        w64(col_dir, c.codec_len as u64);
        w32(col_dir, 0);
        w32(col_block_index, c.body_start);
        w32(col_block_index, c.body_len);
        w32(col_block_index, c.codec_len);
        proof {
            assert(col_dir@ =~= d0 + f(v[i as int]));
            assert(col_block_index@ =~= b0 + h(v[i as int]));
            wire::lemma_flat_push(v.take(i as int), v[i as int], f);
            wire::lemma_flat_push(v.take(i as int), v[i as int], h);
            assert(v.take(i as int + 1) =~= v.take(i as int).push(v[i as int]));
        }
        i = i + 1;
        assert(col_dir@ =~= cd + wire::flat(v.take(i as int), f));
        assert(col_block_index@ =~= cb + wire::flat(v.take(i as int), h));
    }
    assert(v.take(v.len() as int) =~= v);
}

/// The segment kinds that hold the columns.
pub fn column_segment_kinds() -> (r: (SegmentKind, SegmentKind, SegmentKind))
    ensures
        r == (
            SegmentKind::ColumnDirectory,
            SegmentKind::ColumnBlockIndex,
            SegmentKind::ColumnBodies,
        ),
{
    (SegmentKind::ColumnDirectory, SegmentKind::ColumnBlockIndex, SegmentKind::ColumnBodies)
}

// ------------------------------------------------------------ placing

/// What the column bodies of a build are placed as.
#[derive(Debug)]
pub struct ColumnEmissionResult {
    /// Columns in directory order.
    pub columns: Vec<EmittedColumn>,
    /// Whether some column has rows without an entry.
    pub emitted_presence: bool,
    /// Whether some column has a null.
    pub emitted_null: bool,
}

/// Length and rows of an encoded column body.
pub struct BodySize {
    /// Bytes of the body.
    pub bytes: u64,
    /// Rows that the codec holds.
    pub rows: u32,
}

/// Where body `n` starts: behind those before it.
pub open spec fn body_start(sizes: Seq<BodySize>, n: int) -> int
    decreases n,
{
    if n <= 0 {
        0
    } else {
        body_start(sizes, n - 1) + sizes[n - 1].bytes
    }
}

/// The checks on the places of columns, one by one: rows, length, start.
pub open spec fn place_checks(
    geometries: Seq<GeometryView>,
    sizes: Seq<BodySize>,
) -> spec_fn(int) -> Option<GenerationError> {
    |i: int|
        if geometries[i].row_count > 0xffff_ffff {
            Some(
                GenerationError::WireWidthOverflow {
                    what: WireCount::RowCount,
                    count: geometries[i].row_count,
                    max: 0xffff_ffff,
                },
            )
        } else if sizes[i].bytes > 0xffff_ffff {
            Some(
                GenerationError::WireWidthOverflow {
                    what: WireCount::ColumnBodyLength,
                    count: sizes[i].bytes,
                    max: 0xffff_ffff,
                },
            )
        } else if body_start(sizes, i) > 0xffff_ffff {
            Some(
                GenerationError::WireWidthOverflow {
                    what: WireCount::ColumnBodyOffset,
                    count: body_start(sizes, i) as u64,
                    max: 0xffff_ffff,
                },
            )
        } else {
            None::<GenerationError>
        }
}

/// A column stands in its place.
pub open spec fn is_placed(c: EmittedColumn, g: GeometryView, sizes: Seq<BodySize>, i: int) -> bool {
    &&& c.column_index == i as u32
    &&& c.table_id == g.table_id
    &&& c.key@ == g.key
    &&& c.kind == kind_of(g)
    &&& c.body_len == sizes[i].bytes
    &&& c.body_start == body_start(sizes, i)
    &&& c.codec_len == sizes[i].rows
}

/// Gives the encoded bodies of columns their places, one behind the other, and
/// tells which companions the columns need.
pub fn place_columns(geometries: &[ColumnGeometry], sizes: &[BodySize]) -> (r: Result<
    ColumnEmissionResult,
    GenerationError,
>)
    requires
        geometries@.len() == sizes@.len(),
    ensures
        ({
            let g = column_pass::geometry_views(geometries@);
            match r {
                Ok(x) => faults::first_fault(g.len(), place_checks(g, sizes@)) is None && x.columns@.len()
                    == g.len() && (forall|i: int|
                    0 <= i < g.len() ==> is_placed(#[trigger] x.columns@[i], g[i], sizes@, i))
                    && x.emitted_presence == (exists|i: int|
                    0 <= i < g.len() && (#[trigger] g[i]).present_count < g[i].row_count)
                    && x.emitted_null == (exists|i: int|
                    0 <= i < g.len() && (#[trigger] g[i]).null_count > 0),
                Err(e) => faults::first_fault(g.len(), place_checks(g, sizes@)) == Some(e),
            }
        }),
{
    let ghost g = column_pass::geometry_views(geometries@);
    let ghost checks = place_checks(g, sizes@);
    let n: usize = geometries.len();
    let mut columns: Vec<EmittedColumn> = Vec::new();
    let mut emitted_presence: bool = false;
    let mut emitted_null: bool = false;
    let mut start: u64 = 0;
    let mut i: usize = 0;
    while i < n
        invariant
            i <= n,
            n == geometries@.len(),
            n == sizes@.len(),
            g == column_pass::geometry_views(geometries@),
            checks == place_checks(g, sizes@),
            faults::first_fault(i as nat, checks) is None,
            columns@.len() == i,
            start == body_start(sizes@, i as int),
            start <= 0x1_ffff_fffe,
            forall|k: int| 0 <= k < i ==> is_placed(#[trigger] columns@[k], g[k], sizes@, k),
            emitted_presence == (exists|k: int|
                0 <= k < i && (#[trigger] g[k]).present_count < g[k].row_count),
            emitted_null == (exists|k: int| 0 <= k < i && (#[trigger] g[k]).null_count > 0),
        decreases n - i,
    {
        let x: &ColumnGeometry = &geometries[i];
        proof {
            assert(g[i as int] == x@);
            if checks(i as int) is Some {
                faults::lemma_first_fault_stays((i + 1) as nat, n as nat, checks);
            }
        }
        if x.row_count > 0xffff_ffff {
            return Err(
                GenerationError::WireWidthOverflow {
                    what: WireCount::RowCount,
                    count: x.row_count,
                    max: 0xffff_ffff,
                },
            );
        }
        if sizes[i].bytes > 0xffff_ffff {
            return Err(
                GenerationError::WireWidthOverflow {
                    what: WireCount::ColumnBodyLength,
                    count: sizes[i].bytes,
                    max: 0xffff_ffff,
                },
            );
        }
        if start > 0xffff_ffff {
            return Err(
                GenerationError::WireWidthOverflow {
                    what: WireCount::ColumnBodyOffset,
                    count: start,
                    max: 0xffff_ffff,
                },
            );
        }
        columns.push(
            EmittedColumn {
                column_index: i as u32,
                table_id: x.table_id,
                key: own(x.key.as_str()),
                kind: codec_kind_of(x),
                body_len: sizes[i].bytes as u32,
                body_start: start as u32,
                codec_len: sizes[i].rows,
            },
        );
        if x.needs_presence() {
            emitted_presence = true;
        }
        if x.needs_null() {
            emitted_null = true;
        }
        start = start + sizes[i].bytes;
        i = i + 1;
    }
    Ok(ColumnEmissionResult { columns, emitted_presence, emitted_null })
}

} // verus!
