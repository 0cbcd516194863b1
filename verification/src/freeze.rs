//! One frozen epoch of the overlay, and the rows that a generation streams
//! under it: first the base rows that the overlay neither replaces nor deletes,
//! then the overlay's own.

use crate::generation::{CodecError, GenerationError};
use crate::sorting::reversed;
use crate::source_view::{GenerationSourceView, ReverseIds, reverse_id};
use crate::source_view;
use crate::text::TextMap;
use crate::value::Value;
use vstd::prelude::*;

verus! {

/// A set of identifiers, kept in ascending order.
#[derive(Debug)]
pub struct IdSet {
    ids: Vec<u64>,
}

/// Identifiers ascend strictly.
pub open spec fn ids_ascend(v: Seq<u64>) -> bool {
    forall|i: int, j: int| 0 <= i < j < v.len() ==> #[trigger] v[i] < #[trigger] v[j]
}

impl View for IdSet {
    type V = Set<u64>;

    closed spec fn view(&self) -> Set<u64> {
        self.ids@.to_set()
    }
}

impl IdSet {
    #[verifier::type_invariant]
    spec fn inv(&self) -> bool {
        ids_ascend(self.ids@)
    }

    /// The identifiers in ascending order.
    pub closed spec fn listing(&self) -> Seq<u64> {
        self.ids@
    }

    /// The empty set.
    pub fn new() -> (r: Self)
        ensures
            r@ == Set::<u64>::empty(),
            r.listing() == Seq::<u64>::empty(),
    {
        let r = IdSet { ids: Vec::new() };
        assert(r@ =~= Set::<u64>::empty());
        r
    }

    /// How many identifiers. They are listed in ascending order, each once.
    pub fn len(&self) -> (r: usize)
        ensures
            r == self.listing().len(),
            self@ == self.listing().to_set(),
            ids_ascend(self.listing()),
    {
        proof {
            use_type_invariant(self);
        }
        self.ids.len()
    }

    /// The identifier at a position of the ascending order.
    pub fn at(&self, i: usize) -> (r: u64)
        requires
            i < self.listing().len(),
        ensures
            r == self.listing()[i as int],
    {
        self.ids[i]
    }

    fn lower_bound(&self, id: u64) -> (r: usize)
        ensures
            r <= self.ids@.len(),
            forall|i: int| 0 <= i < r ==> #[trigger] self.ids@[i] < id,
            forall|i: int| r <= i < self.ids@.len() ==> #[trigger] self.ids@[i] >= id,
    {
        proof {
            use_type_invariant(self);
        }
        let mut lo: usize = 0;
        let mut hi: usize = self.ids.len();
        while lo < hi
            invariant
                lo <= hi <= self.ids@.len(),
                ids_ascend(self.ids@),
                forall|i: int| 0 <= i < lo ==> #[trigger] self.ids@[i] < id,
                forall|i: int| hi <= i < self.ids@.len() ==> #[trigger] self.ids@[i] >= id,
            decreases hi - lo,
        {
            let mid: usize = lo + (hi - lo) / 2;
            if self.ids[mid] < id {
                lo = mid + 1;
            } else {
                hi = mid;
            }
        }
        lo
    }

    /// True when an identifier is in the set.
    pub fn contains(&self, id: u64) -> (r: bool)
        ensures
            r == self@.contains(id),
    {
        let at: usize = self.lower_bound(id);
        let r: bool = at < self.ids.len() && self.ids[at] == id;
        proof {
            if r {
                assert(self.ids@[at as int] == id);
            } else if self.ids@.contains(id) {
                let i = choose|i: int| 0 <= i < self.ids@.len() && self.ids@[i] == id;
                use_type_invariant(self);
                assert(self.ids@[i] == id);
            }
        }
        r
    }

    /// Puts an identifier into the set.
    pub fn insert(&mut self, id: u64)
        ensures
            final(self)@ == old(self)@.insert(id),
    {
        proof {
            use_type_invariant(&*self);
        }
        let at: usize = self.lower_bound(id);
        if at < self.ids.len() && self.ids[at] == id {
            proof {
                assert(self.ids@[at as int] == id);
                assert(self@ =~= old(self)@.insert(id));
            }
            return;
        }
        let ghost before = self.ids@;
        let mut ids: Vec<u64> = Vec::new();
        std::mem::swap(&mut ids, &mut self.ids);
        ids.insert(at, id);
        proof {
            let now = ids@;
            assert(now =~= before.insert(at as int, id));
            assert forall|i: int, j: int| 0 <= i < j < now.len() implies #[trigger] now[i]
                < #[trigger] now[j] by {
                let a = if i < at { i } else { i - 1 };
                let b = if j < at { j } else { j - 1 };
                if i != at && j != at {
                    assert(before[a] < before[b]);
                }
            }
            assert forall|x: u64| now.to_set().contains(x) == before.to_set().insert(id).contains(
                x,
            ) by {
                if now.contains(x) {
                    let i = choose|i: int| 0 <= i < now.len() && now[i] == x;
                    if i < at {
                        assert(before[i] == x);
                    } else if i > at {
                        assert(before[i - 1] == x);
                    }
                }
                if before.contains(x) {
                    let i = choose|i: int| 0 <= i < before.len() && before[i] == x;
                    if i < at {
                        assert(now[i] == x);
                    } else {
                        assert(now[i + 1] == x);
                    }
                }
                assert(now[at as int] == id);
            }
            assert(now.to_set() =~= before.to_set().insert(id));
        }
        self.ids = ids;
    }
}

/// The listing of a set holds its members.
pub proof fn lemma_listed_members(ids: IdSet)
    ensures
        ids@ == ids.listing().to_set(),
{
}

/// The changes of the overlay at one instant: which nodes and edges it created
/// or changed, and which of the base it deleted.
#[derive(Debug)]
pub struct FrozenOverlayEpoch {
    /// Epoch of the capture.
    pub epoch: u64,
    /// Nodes created or changed.
    pub overlay_node_ids: IdSet,
    /// Edges created or changed.
    pub overlay_edge_ids: IdSet,
    /// Nodes of the base that were deleted.
    pub deleted_base_node_ids: IdSet,
    /// Edges of the base that were deleted.
    pub deleted_base_edge_ids: IdSet,
}

impl FrozenOverlayEpoch {
    /// The base nodes that the epoch hides: changed or deleted.
    pub open spec fn hidden_nodes(&self) -> Set<u64> {
        self.overlay_node_ids@.union(self.deleted_base_node_ids@)
    }

    /// The base edges that the epoch hides: changed or deleted.
    pub open spec fn hidden_edges(&self) -> Set<u64> {
        self.overlay_edge_ids@.union(self.deleted_base_edge_ids@)
    }

    /// An epoch without an overlay.
    pub fn base_only() -> (r: Self)
        ensures
            r.epoch == 0,
            r.overlay_node_ids@ == Set::<u64>::empty(),
            r.overlay_edge_ids@ == Set::<u64>::empty(),
            r.hidden_nodes() == Set::<u64>::empty(),
            r.hidden_edges() == Set::<u64>::empty(),
            r.deleted_base_node_ids@ == Set::<u64>::empty(),
            r.deleted_base_edge_ids@ == Set::<u64>::empty(),
    {
        let r = FrozenOverlayEpoch {
            epoch: 0,
            overlay_node_ids: IdSet::new(),
            overlay_edge_ids: IdSet::new(),
            deleted_base_node_ids: IdSet::new(),
            deleted_base_edge_ids: IdSet::new(),
        };
        assert(r.hidden_nodes() =~= Set::<u64>::empty());
        assert(r.hidden_edges() =~= Set::<u64>::empty());
        r
    }

    /// True when a base node is hidden.
    pub fn node_shadowed(&self, original_id: u64) -> (r: bool)
        ensures
            r == self.hidden_nodes().contains(original_id),
            r == (self.overlay_node_ids@.contains(original_id)
                || self.deleted_base_node_ids@.contains(original_id)),
    {
        self.overlay_node_ids.contains(original_id) || self.deleted_base_node_ids.contains(
            original_id,
        )
    }

    /// True when a base edge is hidden.
    pub fn edge_shadowed(&self, original_id: u64) -> (r: bool)
        ensures
            r == self.hidden_edges().contains(original_id),
            r == (self.overlay_edge_ids@.contains(original_id)
                || self.deleted_base_edge_ids@.contains(original_id)),
    {
        self.overlay_edge_ids.contains(original_id) || self.deleted_base_edge_ids.contains(
            original_id,
        )
    }
}

/// A row of a base table and its original id.
#[derive(Debug, Clone, Copy, PartialEq, Eq, Structural)]
pub struct BaseRow {
    /// The table.
    pub table: usize,
    /// The row or position.
    pub row: usize,
    /// The original id.
    pub id: u64,
}

/// Where a walk over base tables stands: table and row.
pub type RowPlace = (int, int);

/// The next base row from a place on that is not hidden, and the place behind
/// it. A row without an original id is an error.
pub open spec fn next_base_row(
    lens: Seq<usize>,
    ids: ReverseIds,
    hidden: Set<u64>,
    table: int,
    row: int,
) -> (Result<Option<BaseRow>, GenerationError>, RowPlace)
    decreases lens.len() - table, lens[table] - row,
{
    if table < 0 || table >= lens.len() {
        (Ok(None), (table, row))
    } else if row >= lens[table] {
        next_base_row(lens, ids, hidden, table + 1, 0)
    } else {
        match source_view::id_of_row(ids, table, row) {
            None => (
                Err(
                    GenerationError::Codec(
                        CodecError::NoOriginalId { table: table as usize, row: row as usize },
                    ),
                ),
                (table, row + 1),
            ),
            Some(id) => if hidden.contains(id) {
                next_base_row(lens, ids, hidden, table, row + 1)
            } else {
                (
                    Ok(Some(BaseRow { table: table as usize, row: row as usize, id })),
                    (table, row + 1),
                )
            },
        }
    }
}

/// A base row that a walk gives lies in its table, has its original id, and is
/// not hidden.
pub proof fn lemma_base_rows_survive(
    lens: Seq<usize>,
    ids: ReverseIds,
    hidden: Set<u64>,
    table: int,
    row: int,
)
    requires
        0 <= table,
        0 <= row,
        lens.len() <= usize::MAX,
    ensures
        next_base_row(lens, ids, hidden, table, row).0 matches Ok(Some(b)) ==> {
            &&& b.table < lens.len()
            &&& b.row < lens[b.table as int]
            &&& source_view::id_of_row(ids, b.table as int, b.row as int) == Some(b.id)
            &&& !hidden.contains(b.id)
        },
    decreases lens.len() - table, lens[table] - row,
{
    if table < lens.len() {
        if row >= lens[table] {
            lemma_base_rows_survive(lens, ids, hidden, table + 1, 0);
        } else if source_view::id_of_row(ids, table, row) matches Some(id) && hidden.contains(id) {
            lemma_base_rows_survive(lens, ids, hidden, table, row + 1);
        }
    }
}

/// A walk passes over no row that has an id and is not hidden: whatever row it
/// gives, all rows of the same table between its start and that row are hidden.
pub proof fn lemma_base_rows_complete(
    lens: Seq<usize>,
    ids: ReverseIds,
    hidden: Set<u64>,
    table: int,
    row: int,
    skipped: int,
)
    requires
        0 <= table < lens.len(),
        0 <= row <= skipped < lens[table],
        lens.len() <= usize::MAX,
        next_base_row(lens, ids, hidden, table, row).1.0 > table || next_base_row(
            lens,
            ids,
            hidden,
            table,
            row,
        ).1.1 > skipped + 1,
    ensures
        source_view::id_of_row(ids, table, skipped) matches Some(id) && hidden.contains(id),
    decreases lens[table] - row,
{
    if source_view::id_of_row(ids, table, row) matches Some(id) && hidden.contains(id) {
        if row < skipped {
            lemma_base_rows_complete(lens, ids, hidden, table, row + 1, skipped);
        }
    }
}

/// Walks base tables row by row, past hidden rows.
#[derive(Debug)]
pub struct BaseCursor {
    table: usize,
    row: usize,
}

impl BaseCursor {
    /// Where the walk stands.
    pub closed spec fn place(&self) -> RowPlace {
        (self.table as int, self.row as int)
    }

    /// A walk that starts at the first row of the first table.
    pub fn new() -> (r: Self)
        ensures
            r.place() == (0int, 0int),
    {
        BaseCursor { table: 0, row: 0 }
    }

    fn next(&mut self, lens: &Vec<usize>, ids: &ReverseIds, changed: &IdSet, deleted: &IdSet) -> (r:
        Result<Option<BaseRow>, GenerationError>)
        ensures
            (r, final(self).place()) == next_base_row(
                lens@,
                *ids,
                changed@.union(deleted@),
                old(self).place().0,
                old(self).place().1,
            ),
    {
        let ghost hidden = changed@.union(deleted@);
        let ghost all = next_base_row(lens@, *ids, hidden, self.table as int, self.row as int);
        while self.table < lens.len()
            invariant
                hidden == changed@.union(deleted@),
                all == next_base_row(
                    lens@,
                    *ids,
                    changed@.union(deleted@),
                    old(self).place().0,
                    old(self).place().1,
                ),
                all == next_base_row(lens@, *ids, hidden, self.table as int, self.row as int),
            decreases lens@.len() - self.table, usize::MAX - self.row,
        {
            let n: usize = lens[self.table];
            if self.row >= n {
                self.table = self.table + 1;
                self.row = 0;
                continue;
            }
            let at: usize = self.row;
            let t: usize = self.table;
            self.row = at + 1;
            match reverse_id(ids, t, at as u64) {
                None => {
                    return Err(
                        GenerationError::Codec(CodecError::NoOriginalId { table: t, row: at }),
                    );
                },
                Some(id) => {
                    if !(changed.contains(id) || deleted.contains(id)) {
                        return Ok(Some(BaseRow { table: t, row: at, id }));
                    }
                },
            }
        }
        Ok(None)
    }
}

/// Walks the base nodes that survive a frozen epoch.
#[derive(Debug)]
pub struct BaseNodeCursor {
    cursor: BaseCursor,
}

impl BaseNodeCursor {
    /// Where the walk stands.
    pub closed spec fn place(&self) -> RowPlace {
        self.cursor.place()
    }

    /// A walk from the first row.
    pub fn new() -> (r: Self)
        ensures
            r.place() == (0int, 0int),
    {
        BaseNodeCursor { cursor: BaseCursor::new() }
    }

    /// The next node of the base that the epoch does not hide.
    pub fn next_node(&mut self, base: &GenerationSourceView, freeze: &FrozenOverlayEpoch) -> (r:
        Result<Option<BaseRow>, GenerationError>)
        ensures
            (r, final(self).place()) == next_base_row(
                base.node_lens@,
                base.node_ids,
                freeze.hidden_nodes(),
                old(self).place().0,
                old(self).place().1,
            ),
    {
        self.cursor.next(
            &base.node_lens,
            &base.node_ids,
            &freeze.overlay_node_ids,
            &freeze.deleted_base_node_ids,
        )
    }
}

/// Walks the base edges that survive a frozen epoch.
#[derive(Debug)]
pub struct BaseEdgeCursor {
    cursor: BaseCursor,
}

impl BaseEdgeCursor {
    /// Where the walk stands.
    pub closed spec fn place(&self) -> RowPlace {
        self.cursor.place()
    }

    /// A walk from the first edge.
    pub fn new() -> (r: Self)
        ensures
            r.place() == (0int, 0int),
    {
        BaseEdgeCursor { cursor: BaseCursor::new() }
    }

    /// The next edge of the base that the epoch does not hide.
    pub fn next_edge(&mut self, base: &GenerationSourceView, freeze: &FrozenOverlayEpoch) -> (r:
        Result<Option<BaseRow>, GenerationError>)
        ensures
            (r, final(self).place()) == next_base_row(
                base.edge_lens@,
                base.edge_ids,
                freeze.hidden_edges(),
                old(self).place().0,
                old(self).place().1,
            ),
    {
        self.cursor.next(
            &base.edge_lens,
            &base.edge_ids,
            &freeze.overlay_edge_ids,
            &freeze.deleted_base_edge_ids,
        )
    }
}

/// A row of the merged graph: of the base, or of the overlay by its id.
#[derive(Debug, Clone, Copy, PartialEq, Eq, Structural)]
pub enum MergedRow {
    /// A row of the base.
    Base(BaseRow),
    /// A node or an edge of the overlay.
    Overlay(u64),
}

/// The place of a merged walk: the base walk, whether it is done, and how many
/// overlay ids were given.
pub struct MergedPlace {
    /// The base walk.
    pub base: RowPlace,
    /// Whether the base is done.
    pub base_done: bool,
    /// Whether there is an overlay.
    pub has_overlay: bool,
    /// Overlay ids given.
    pub given: int,
}

/// The next row of the merged graph: base rows first, then the overlay's ids
/// in ascending order.
pub open spec fn next_merged_row(
    lens: Seq<usize>,
    ids: ReverseIds,
    hidden: Set<u64>,
    overlay: Seq<u64>,
    p: MergedPlace,
) -> (Result<Option<MergedRow>, GenerationError>, MergedPlace) {
    let (r, base) = next_base_row(lens, ids, hidden, p.base.0, p.base.1);
    let rest = |q: MergedPlace|
        if q.has_overlay && q.given < overlay.len() {
            (
                Ok(Some(MergedRow::Overlay(overlay[q.given]))),
                MergedPlace { given: q.given + 1, ..q },
            )
        } else {
            (Ok(None), q)
        };
    if p.base_done {
        rest(p)
    } else {
        match r {
            Err(e) => (Err(e), MergedPlace { base, ..p }),
            Ok(Some(b)) => (Ok(Some(MergedRow::Base(b))), MergedPlace { base, ..p }),
            Ok(None) => rest(MergedPlace { base, base_done: true, ..p }),
        }
    }
}

/// Streams the merged nodes of a base and an overlay.
#[derive(Debug)]
pub struct MergedNodeSource {
    cursor: BaseNodeCursor,
    base_done: bool,
    has_overlay: bool,
    given: usize,
}

impl MergedNodeSource {
    /// Where the stream stands.
    pub closed spec fn place(&self) -> MergedPlace {
        MergedPlace {
            base: self.cursor.place(),
            base_done: self.base_done,
            has_overlay: self.has_overlay,
            given: self.given as int,
        }
    }

    /// A stream from the start, over a base, an overlay, both or neither.
    pub fn new(has_base: bool, has_overlay: bool) -> (r: Self)
        ensures
            r.place() == (MergedPlace {
                base: (0int, 0int),
                base_done: !has_base,
                has_overlay,
                given: 0,
            }),
    {
        MergedNodeSource { cursor: BaseNodeCursor::new(), base_done: !has_base, has_overlay, given: 0 }
    }

    /// The next node of the merged graph.
    pub fn next_node(&mut self, base: &GenerationSourceView, freeze: &FrozenOverlayEpoch) -> (r:
        Result<Option<MergedRow>, GenerationError>)
        ensures
            (r, final(self).place()) == next_merged_row(
                base.node_lens@,
                base.node_ids,
                freeze.hidden_nodes(),
                freeze.overlay_node_ids.listing(),
                old(self).place(),
            ),
            r matches Ok(Some(MergedRow::Base(b))) ==> !freeze.overlay_node_ids@.contains(b.id)
                && !freeze.deleted_base_node_ids@.contains(b.id),
            r matches Ok(Some(MergedRow::Overlay(id))) ==> freeze.overlay_node_ids@.contains(id),
    {
        proof {
            assert(base.node_lens.len() == base.node_lens@.len());
            lemma_base_rows_survive(
                base.node_lens@,
                base.node_ids,
                freeze.hidden_nodes(),
                self.place().base.0,
                self.place().base.1,
            );
        }
        if !self.base_done {
            match self.cursor.next_node(base, freeze) {
                Err(e) => {
                    return Err(e);
                },
                Ok(Some(b)) => {
                    return Ok(Some(MergedRow::Base(b)));
                },
                Ok(None) => {
                    self.base_done = true;
                },
            }
        }
        if self.has_overlay && self.given < freeze.overlay_node_ids.len() {
            let id: u64 = freeze.overlay_node_ids.at(self.given);
            self.given = self.given + 1;
            Ok(Some(MergedRow::Overlay(id)))
        } else {
            Ok(None)
        }
    }
}

/// Streams the merged edges of a base and an overlay.
#[derive(Debug)]
pub struct MergedEdgeSource {
    cursor: BaseEdgeCursor,
    base_done: bool,
    has_overlay: bool,
    given: usize,
}

impl MergedEdgeSource {
    /// Where the stream stands.
    pub closed spec fn place(&self) -> MergedPlace {
        MergedPlace {
            base: self.cursor.place(),
            base_done: self.base_done,
            has_overlay: self.has_overlay,
            given: self.given as int,
        }
    }

    /// A stream from the start, over a base, an overlay, both or neither.
    pub fn new(has_base: bool, has_overlay: bool) -> (r: Self)
        ensures
            r.place() == (MergedPlace {
                base: (0int, 0int),
                base_done: !has_base,
                has_overlay,
                given: 0,
            }),
    {
        MergedEdgeSource { cursor: BaseEdgeCursor::new(), base_done: !has_base, has_overlay, given: 0 }
    }

    /// The next edge of the merged graph.
    pub fn next_edge(&mut self, base: &GenerationSourceView, freeze: &FrozenOverlayEpoch) -> (r:
        Result<Option<MergedRow>, GenerationError>)
        ensures
            (r, final(self).place()) == next_merged_row(
                base.edge_lens@,
                base.edge_ids,
                freeze.hidden_edges(),
                freeze.overlay_edge_ids.listing(),
                old(self).place(),
            ),
            r matches Ok(Some(MergedRow::Base(b))) ==> !freeze.overlay_edge_ids@.contains(b.id)
                && !freeze.deleted_base_edge_ids@.contains(b.id),
            r matches Ok(Some(MergedRow::Overlay(id))) ==> freeze.overlay_edge_ids@.contains(id),
    {
        proof {
            assert(base.edge_lens.len() == base.edge_lens@.len());
            lemma_base_rows_survive(
                base.edge_lens@,
                base.edge_ids,
                freeze.hidden_edges(),
                self.place().base.0,
                self.place().base.1,
            );
        }
        if !self.base_done {
            match self.cursor.next_edge(base, freeze) {
                Err(e) => {
                    return Err(e);
                },
                Ok(Some(b)) => {
                    return Ok(Some(MergedRow::Base(b)));
                },
                Ok(None) => {
                    self.base_done = true;
                },
            }
        }
        if self.has_overlay && self.given < freeze.overlay_edge_ids.len() {
            let id: u64 = freeze.overlay_edge_ids.at(self.given);
            self.given = self.given + 1;
            Ok(Some(MergedRow::Overlay(id)))
        } else {
            Ok(None)
        }
    }
}

/// A stream of no nodes.
#[derive(Debug, Clone, Copy)]
pub struct EmptyNodeSource;

impl EmptyNodeSource {
    /// There is no next node.
    pub fn next_node(&self) -> (r: Option<MergedRow>)
        ensures
            r is None,
    {
        None
    }
}

/// A stream of no edges.
#[derive(Debug, Clone, Copy)]
pub struct EmptyEdgeSource;

impl EmptyEdgeSource {
    /// There is no next edge.
    pub fn next_edge(&self) -> (r: Option<MergedRow>)
        ensures
            r is None,
    {
        None
    }
}

/// The overlay wins: a base row of the merged graph is none that the overlay
/// has or has deleted.
pub proof fn lemma_overlay_wins(
    lens: Seq<usize>,
    ids: ReverseIds,
    changed: Set<u64>,
    deleted: Set<u64>,
    overlay: Seq<u64>,
    p: MergedPlace,
)
    requires
        lens.len() <= usize::MAX,
        0 <= p.base.0,
        0 <= p.base.1,
        overlay.to_set() == changed,
    ensures
        next_merged_row(lens, ids, changed.union(deleted), overlay, p).0 matches Ok(
            Some(MergedRow::Base(b)),
        ) ==> !overlay.contains(b.id) && !deleted.contains(b.id),
{
    lemma_base_rows_survive(lens, ids, changed.union(deleted), p.base.0, p.base.1);
    let r = next_merged_row(lens, ids, changed.union(deleted), overlay, p).0;
    if let Ok(Some(MergedRow::Base(b))) = r {
        assert(!changed.union(deleted).contains(b.id));
        assert(overlay.to_set().contains(b.id) == overlay.contains(b.id));
    }
}

/// The map that the first `n` pairs spell, the last pair of a key winning.
pub open spec fn map_of_pairs(v: Seq<(String, Value)>, n: int) -> Map<Seq<char>, Value>
    decreases n,
{
    if n <= 0 {
        Map::empty()
    } else {
        map_of_pairs(v, n - 1).insert(v[n - 1].0@, v[n - 1].1)
    }
}

/// Collects pairs into a property map, the last pair of a key winning.
pub fn clone_properties(src: Vec<(String, Value)>) -> (r: TextMap<Value>)
    ensures
        r@ == map_of_pairs(src@, src@.len() as int),
{
    let ghost all = src@;
    let mut left: Vec<(String, Value)> = reversed(src);
    let mut out: TextMap<Value> = TextMap::new();
    while left.len() > 0
        invariant
            left@.len() <= all.len(),
            left@ == all.reverse().take(left@.len() as int),
            out@ == map_of_pairs(all, all.len() - left@.len()),
        decreases left@.len(),
    {
        let ghost n = left@.len();
        let (key, value) = left.pop().unwrap();
        proof {
            assert(left@ =~= all.reverse().take(left@.len() as int));
            assert((key, value) == all.reverse()[n - 1]);
            assert((key, value) == all[all.len() - n]);
        }
        out.insert(key.as_str(), value);
    }
    out
}

} // verus!
