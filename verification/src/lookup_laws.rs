//! Lookups by original id: a store and what its payload opens as answer alike.

use crate::error::FormatError;
use crate::faults;
use crate::id_lookup::LookupEntry;
use crate::id_lookup;
use crate::intern::StringCodeOrder;
use crate::intern;
use crate::layout_laws;
use crate::tables::{ColumnType, ColumnView, NodeTableView, StoreView};
use crate::tables;
use crate::v5_laws;
use crate::v5_parts_laws;
use crate::v5_read::{BodyView, MappedColumnView, MappedNodeView, MappedStoreView};
use crate::v5_read;
use crate::v5_write;
use vstd::prelude::*;

verus! {

/// The value in a row of a column: a text, or a row of an encoded body.
pub enum CellContent {
    /// A text.
    Text(Seq<char>),
    /// A row of a body in an encoding of its hits.
    Encoded {
        /// Type of the column's values.
        column_type: ColumnType,
        /// The column's body.
        body: Seq<u8>,
        /// The row.
        row: u64,
    },
}

/// An entry of a lookup that has an id.
pub open spec fn entry_with(v: Seq<LookupEntry>, id: u64) -> int {
    choose|i: int| 0 <= i < v.len() && (#[trigger] v[i]).0 == id
}

/// Table and row that a lookup has under an id.
pub open spec fn place_in(v: Seq<LookupEntry>, id: u64) -> Option<(u16, u64)> {
    if id_lookup::lookup_has(v, id) {
        Some((v[entry_with(v, id)].1, v[entry_with(v, id)].2))
    } else {
        None
    }
}

/// No two entries of a lookup have one id.
pub open spec fn lookup_distinct(v: Seq<LookupEntry>) -> bool {
    forall|i: int, j: int|
        0 <= i < v.len() && 0 <= j < v.len() && #[trigger] v[i].0 == #[trigger] v[j].0 ==> i == j
}

/// Position of a key.
pub open spec fn key_place(keys: Seq<Seq<char>>, key: Seq<char>) -> Option<int> {
    if keys.contains(key) {
        Some(keys.index_of(key))
    } else {
        None
    }
}

// ------------------------------------------------------------------- places

/// Where a store has the node with an original id.
pub open spec fn store_place(s: StoreView, id: u64) -> Option<(u16, u64)> {
    match s.ids {
        Some(x) => place_in(x.nodes, id),
        None => None,
    }
}

/// Where an opened store has the node with an original id.
pub open spec fn opened_place(m: MappedStoreView, id: u64) -> Option<(u16, u64)> {
    match m.ids {
        Some(x) => place_in(x.nodes, id),
        None => None,
    }
}

// --------------------------------------------------------------- properties

/// The keys of columns.
pub open spec fn keys_of_columns(v: Seq<(Seq<char>, ColumnView)>) -> Seq<Seq<char>> {
    Seq::new(v.len(), |i: int| v[i].0)
}

/// The keys of opened columns.
pub open spec fn keys_of_opened(v: Seq<MappedColumnView>) -> Seq<Seq<char>> {
    Seq::new(v.len(), |i: int| v[i].key)
}

/// The value in a row of a column.
pub open spec fn cell_of(c: ColumnView, row: u64) -> Option<CellContent> {
    match c {
        ColumnView::Dict { entries, codes } => if row < codes.len() {
            Some(CellContent::Text(entries[codes[row as int] as int]))
        } else {
            None
        },
        ColumnView::Flat { body, .. } => Some(
            CellContent::Encoded { column_type: v5_read::type_of_disc(tables::column_disc(c)), body, row },
        ),
    }
}

/// The value in a row of an opened column.
pub open spec fn opened_cell(dict: Seq<Seq<char>>, c: MappedColumnView, row: u64) -> Option<
    CellContent,
> {
    match c.body {
        BodyView::Codes(codes) => if row < codes.len() {
            Some(CellContent::Text(dict[codes[row as int] as int]))
        } else {
            None
        },
        BodyView::Encoded(body) => Some(
            CellContent::Encoded { column_type: c.column_type, body, row },
        ),
    }
}

/// A property of the node with an original id, out of a store.
pub open spec fn store_property(s: StoreView, id: u64, key: Seq<char>) -> Option<CellContent> {
    match store_place(s, id) {
        Some((t, row)) => if t < s.nodes.len() && row < s.nodes[t as int].rows {
            match key_place(keys_of_columns(s.nodes[t as int].columns), key) {
                Some(c) => cell_of(s.nodes[t as int].columns[c].1, row),
                None => None,
            }
        } else {
            None
        },
        None => None,
    }
}

/// A property of the node with an original id, out of an opened store.
pub open spec fn opened_property(m: MappedStoreView, id: u64, key: Seq<char>) -> Option<
    CellContent,
> {
    match opened_place(m, id) {
        Some((t, row)) => if t < m.nodes.len() && row < m.nodes[t as int].rows {
            match key_place(keys_of_opened(m.nodes[t as int].columns), key) {
                Some(c) => opened_cell(m.dict, m.nodes[t as int].columns[c], row),
                None => None,
            }
        } else {
            None
        },
        None => None,
    }
}

// --------------------------------------------------------------- neighbours

/// Rows of the node tables before one.
pub open spec fn rows_before(v: Seq<MappedNodeView>, t: int) -> int
    decreases t,
{
    if t <= 0 {
        0
    } else {
        rows_before(v, t - 1) + v[t - 1].rows
    }
}

/// The original id of a row, out of a store.
pub open spec fn store_id(s: StoreView, t: int, row: int) -> Option<u64> {
    match s.ids {
        Some(x) => if 0 <= t < x.node_ids.len() && 0 <= row < x.node_ids[t].len() {
            Some(x.node_ids[t][row])
        } else {
            None
        },
        None => None,
    }
}

/// The original id of a row, out of an opened store.
pub open spec fn opened_id(m: MappedStoreView, t: int, row: int) -> Option<u64> {
    match m.ids {
        Some(x) => if 0 <= t < m.nodes.len() && 0 <= row < m.nodes[t].rows {
            Some(x.node_ids[rows_before(m.nodes, t) + row])
        } else {
            None
        },
        None => None,
    }
}

/// The targets of a row of an adjacency.
pub open spec fn row_targets(offsets: Seq<u32>, targets: Seq<u32>, row: u64) -> Seq<u32> {
    if row + 1 < offsets.len() {
        targets.subrange(offsets[row as int] as int, offsets[row + 1] as int)
    } else {
        Seq::empty()
    }
}

/// The nodes that the edges of the first `n` relationship tables lead to from a
/// row, out of a store.
pub open spec fn store_targets(s: StoreView, t: u16, row: u64, n: int) -> Seq<Option<u64>>
    decreases n,
{
    if n <= 0 {
        Seq::empty()
    } else {
        let r = s.rels[n - 1];
        let hits = row_targets(r.fwd.offsets, r.fwd.targets, row);
        store_targets(s, t, row, n - 1) + (if r.src == t {
            Seq::new(hits.len(), |i: int| store_id(s, r.dst as int, hits[i] as int))
        } else {
            Seq::empty()
        })
    }
}

/// The nodes that the edges of the first `n` relationship tables lead to from a
/// row, out of an opened store.
pub open spec fn opened_targets(m: MappedStoreView, t: u16, row: u64, n: int) -> Seq<Option<u64>>
    decreases n,
{
    if n <= 0 {
        Seq::empty()
    } else {
        let r = m.rels[n - 1];
        let hits = row_targets(r.fwd.offsets, r.fwd.targets, row);
        opened_targets(m, t, row, n - 1) + (if r.src == t {
            Seq::new(hits.len(), |i: int| opened_id(m, r.dst as int, hits[i] as int))
        } else {
            Seq::empty()
        })
    }
}

/// The original ids of the nodes that edges lead to from the node with an
/// original id, out of a store.
pub open spec fn store_neighbors(s: StoreView, id: u64) -> Seq<Option<u64>> {
    match store_place(s, id) {
        Some((t, row)) => store_targets(s, t, row, s.rels.len() as int),
        None => Seq::empty(),
    }
}

/// The original ids of the nodes that edges lead to from the node with an
/// original id, out of an opened store.
pub open spec fn opened_neighbors(m: MappedStoreView, id: u64) -> Seq<Option<u64>> {
    match opened_place(m, id) {
        Some((t, row)) => opened_targets(m, t, row, m.rels.len() as int),
        None => Seq::empty(),
    }
}

// --------------------------------------------------------------------- laws

/// The identifiers of a store fit its tables: one entry per node id, one id per
/// row.
pub open spec fn ids_fit(s: StoreView) -> bool {
    s.ids matches Some(x) ==> {
        &&& lookup_distinct(x.nodes)
        &&& x.node_ids.len() == s.nodes.len()
        &&& forall|t: int|
            0 <= t < s.nodes.len() ==> (#[trigger] x.node_ids[t]).len() == s.nodes[t].rows
    }
}

proof fn lemma_place_sorted(v: Seq<LookupEntry>, id: u64)
    requires
        lookup_distinct(v),
    ensures
        place_in(v5_write::by_id(v), id) == place_in(v, id),
{
    v5_write::lemma_by_id(v);
    let w = v5_write::by_id(v);
    if id_lookup::lookup_has(v, id) {
        let i = entry_with(v, id);
        assert(v.contains(v[i]));
        assert(w.contains(v[i]));
        let k = choose|k: int| 0 <= k < w.len() && w[k] == v[i];
        assert(w[k].0 == id);
        let h = entry_with(w, id);
        assert(w.contains(w[h]));
        assert(v.contains(w[h]));
        let j = choose|j: int| 0 <= j < v.len() && v[j] == w[h];
        assert(v[j].0 == v[i].0);
    } else if id_lookup::lookup_has(w, id) {
        let h = entry_with(w, id);
        assert(w.contains(w[h]));
        assert(v.contains(w[h]));
        let j = choose|j: int| 0 <= j < v.len() && v[j] == w[h];
        assert(v[j].0 == id);
    }
}

proof fn lemma_node_column_listed(v: Seq<NodeTableView>, n: int, t: int, c: int) -> (i: int)
    requires
        0 <= t < n <= v.len(),
        0 <= c < v[t].columns.len(),
    ensures
        0 <= i < v5_write::node_columns(v, n).len(),
        v5_write::node_columns(v, n)[i] == v[t].columns[c].1,
    decreases n,
{
    if t == n - 1 {
        v5_write::node_columns(v, n - 1).len() + c
    } else {
        lemma_node_column_listed(v, n - 1, t, c)
    }
}

proof fn lemma_joined_at(v: Seq<Seq<u64>>, nodes: Seq<MappedNodeView>, n: int, t: int, row: int)
    requires
        0 <= t < n <= v.len(),
        v.len() == nodes.len(),
        forall|k: int| 0 <= k < v.len() ==> (#[trigger] v[k]).len() == nodes[k].rows,
        0 <= row < v[t].len(),
    ensures
        rows_before(nodes, t) >= 0,
        rows_before(nodes, t) + row < v5_write::joined(v, n).len(),
        v5_write::joined(v, n)[rows_before(nodes, t) + row] == v[t][row],
        v5_write::joined(v, n).len() == rows_before(nodes, n),
    decreases n,
{
    lemma_joined_len(v, nodes, n);
    lemma_joined_len(v, nodes, n - 1);
    lemma_joined_len(v, nodes, t);
    if t < n - 1 {
        lemma_joined_at(v, nodes, n - 1, t, row);
    }
}

proof fn lemma_joined_len(v: Seq<Seq<u64>>, nodes: Seq<MappedNodeView>, n: int)
    requires
        0 <= n <= v.len(),
        v.len() == nodes.len(),
        forall|k: int| 0 <= k < v.len() ==> (#[trigger] v[k]).len() == nodes[k].rows,
    ensures
        v5_write::joined(v, n).len() == rows_before(nodes, n),
    decreases n,
{
    if n > 0 {
        lemma_joined_len(v, nodes, n - 1);
        assert(v[n - 1].len() == nodes[n - 1].rows);
    }
}

/// An opened store with a store's dictionary, tables and identifiers.
pub open spec fn opens_tables(s: StoreView, dict: Seq<Seq<char>>, m: MappedStoreView) -> bool {
    let index = intern::codes_of_texts(dict);
    &&& dict.no_duplicates()
    &&& dict.len() <= u32::MAX
    &&& v5_write::columns_fault(v5_write::all_columns(s), index) is None
    &&& m.dict == dict
    &&& m.ids == layout_laws::opened_ids(s.ids)
    &&& m.nodes.len() == s.nodes.len()
    &&& forall|t: int|
        0 <= t < s.nodes.len() ==> (#[trigger] m.nodes[t]).rows == s.nodes[t].rows
            && m.nodes[t].columns == v5_parts_laws::opened_columns(s.nodes[t].columns, index)
    &&& m.rels.len() == s.rels.len()
    &&& forall|t: int|
        0 <= t < s.rels.len() ==> (#[trigger] m.rels[t]).src == s.rels[t].src && m.rels[t].dst
            == s.rels[t].dst && m.rels[t].fwd.offsets == s.rels[t].fwd.offsets
            && m.rels[t].fwd.targets == s.rels[t].fwd.targets
}

proof fn lemma_ids_alike(s: StoreView, dict: Seq<Seq<char>>, m: MappedStoreView, t: int, row: int)
    requires
        ids_fit(s),
        opens_tables(s, dict, m),
    ensures
        opened_id(m, t, row) == store_id(s, t, row),
{
    if let Some(x) = s.ids {
        if 0 <= t < s.nodes.len() {
            assert(x.node_ids[t].len() == s.nodes[t].rows);
            assert(m.nodes[t].rows == s.nodes[t].rows);
            if 0 <= row < s.nodes[t].rows {
                assert forall|k: int| 0 <= k < x.node_ids.len() implies (
                #[trigger] x.node_ids[k]).len() == m.nodes[k].rows by {
                    assert(m.nodes[k].rows == s.nodes[k].rows);
                }
                lemma_joined_at(x.node_ids, m.nodes, x.node_ids.len() as int, t, row);
            }
        }
    }
}

proof fn lemma_targets_alike(
    s: StoreView,
    dict: Seq<Seq<char>>,
    m: MappedStoreView,
    t: u16,
    row: u64,
    n: int,
)
    requires
        ids_fit(s),
        opens_tables(s, dict, m),
        n <= s.rels.len(),
    ensures
        opened_targets(m, t, row, n) == store_targets(s, t, row, n),
    decreases n,
{
    if n > 0 {
        lemma_targets_alike(s, dict, m, t, row, n - 1);
        let r = s.rels[n - 1];
        let hits = row_targets(r.fwd.offsets, r.fwd.targets, row);
        assert(m.rels[n - 1].fwd.offsets == r.fwd.offsets);
        let a = Seq::new(hits.len(), |i: int| opened_id(m, r.dst as int, hits[i] as int));
        let b = Seq::new(hits.len(), |i: int| store_id(s, r.dst as int, hits[i] as int));
        assert forall|i: int| 0 <= i < hits.len() implies a[i] == b[i] by {
            lemma_ids_alike(s, dict, m, r.dst as int, hits[i] as int);
        }
        assert(a =~= b);
    }
}

proof fn lemma_cell_alike(
    s: StoreView,
    dict: Seq<Seq<char>>,
    m: MappedStoreView,
    t: int,
    c: int,
    row: u64,
)
    requires
        opens_tables(s, dict, m),
        0 <= t < s.nodes.len(),
        0 <= c < s.nodes[t].columns.len(),
    ensures
        opened_cell(m.dict, m.nodes[t].columns[c], row) == cell_of(s.nodes[t].columns[c].1, row),
{
    let index = intern::codes_of_texts(dict);
    let cols = v5_write::all_columns(s);
    let i = lemma_node_column_listed(s.nodes, s.nodes.len() as int, t, c);
    assert(cols[i] == s.nodes[t].columns[c].1);
    faults::lemma_no_fault(cols.len(), v5_write::column_write_checks(cols, index));
    assert(v5_write::column_write_checks(cols, index)(i) is None);
    assert(m.nodes[t].columns == v5_parts_laws::opened_columns(s.nodes[t].columns, index));
    if let ColumnView::Dict { entries, codes } = s.nodes[t].columns[c].1 {
        if row < codes.len() {
            v5_laws::lemma_opened_texts(entries, codes, dict, row as int);
        }
    }
}

/// An opened store with a store's tables answers lookups by original id as the
/// store does: it has every node in the same place, gives the same value for
/// every property of it, and leads along its edges to the same nodes in the
/// same order.
pub proof fn lemma_answers_alike(
    s: StoreView,
    dict: Seq<Seq<char>>,
    m: MappedStoreView,
    id: u64,
    key: Seq<char>,
)
    requires
        ids_fit(s),
        opens_tables(s, dict, m),
    ensures
        opened_place(m, id) == store_place(s, id),
        opened_property(m, id, key) == store_property(s, id, key),
        opened_neighbors(m, id) == store_neighbors(s, id),
{
    if let Some(x) = s.ids {
        lemma_place_sorted(x.nodes, id);
    }
    if let Some((t, row)) = store_place(s, id) {
        lemma_targets_alike(s, dict, m, t, row, s.rels.len() as int);
        if t < s.nodes.len() {
            assert(m.nodes[t as int].rows == s.nodes[t as int].rows);
            let a = keys_of_columns(s.nodes[t as int].columns);
            let b = keys_of_opened(m.nodes[t as int].columns);
            assert(a =~= b);
            if a.contains(key) {
                lemma_cell_alike(s, dict, m, t as int, a.index_of(key), row);
            }
        }
    }
}

/// What is opened from a store's payload answers lookups by original id as the
/// store does.
pub proof fn lemma_opened_answers_alike(
    s: StoreView,
    order: StringCodeOrder,
    m: MappedStoreView,
    id: u64,
    key: Seq<char>,
)
    requires
        v5_laws::store_sound(s),
        ids_fit(s),
        v5_laws::v5_written(s, order),
        v5_read::v5_read(v5_write::v5_image(s, order)) == Ok::<MappedStoreView, FormatError>(m),
        ({
            let index = intern::codes_of_texts(intern::dictionary(intern::store_texts(s), order));
            v5_read::schema_bytes(v5_laws::opened_nodes(s.nodes, index), v5_laws::opened_rels(s.rels, index)) <= 16777216
        }),
    ensures
        opened_place(m, id) == store_place(s, id),
        opened_property(m, id, key) == store_property(s, id, key),
        opened_neighbors(m, id) == store_neighbors(s, id),
{
    let dict = intern::dictionary(intern::store_texts(s), order);
    v5_laws::lemma_v5_round_trip(s, order);
    intern::lemma_dictionary(intern::store_texts(s), order);
    assert(m == v5_laws::opened_store(s, order));
    lemma_answers_alike(s, dict, m, id, key);
}

} // verus!
