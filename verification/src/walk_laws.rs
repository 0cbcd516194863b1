//! The walk over a base and an overlay as a whole: every surviving row of the
//! base and every id of the overlay, each once.

use crate::freeze::{BaseRow, FrozenOverlayEpoch, IdSet, MergedPlace, MergedRow};
use crate::freeze;
use crate::generation::GenerationError;
use crate::source_view::{GenerationSourceView, ReverseIds};
use crate::source_view;
use vstd::prelude::*;

verus! {

/// Where a walk stands after `n` steps.
pub open spec fn walked_place(
    lens: Seq<usize>,
    ids: ReverseIds,
    hidden: Set<u64>,
    overlay: Seq<u64>,
    p: MergedPlace,
    n: nat,
) -> MergedPlace
    decreases n,
{
    if n == 0 {
        p
    } else {
        freeze::next_merged_row(
            lens,
            ids,
            hidden,
            overlay,
            walked_place(lens, ids, hidden, overlay, p, (n - 1) as nat),
        ).1
    }
}

/// What step `n` of a walk gives, the first step being step 0.
pub open spec fn walked_row(
    lens: Seq<usize>,
    ids: ReverseIds,
    hidden: Set<u64>,
    overlay: Seq<u64>,
    p: MergedPlace,
    n: nat,
) -> Result<Option<MergedRow>, GenerationError> {
    freeze::next_merged_row(lens, ids, hidden, overlay, walked_place(lens, ids, hidden, overlay, p, n)).0
}

/// The place from which a base, an overlay, both or neither are walked.
pub open spec fn walk_start(has_base: bool, has_overlay: bool) -> MergedPlace {
    MergedPlace { base: (0, 0), base_done: !has_base, has_overlay, given: 0 }
}

/// Every row of the base has an original id.
pub open spec fn rows_have_ids(lens: Seq<usize>, ids: ReverseIds) -> bool {
    forall|t: int, r: int|
        0 <= t < lens.len() && 0 <= r < lens[t] ==> (#[trigger] source_view::id_of_row(ids, t, r)) is Some
}

/// No two rows of the base have one original id.
pub open spec fn rows_differ(lens: Seq<usize>, ids: ReverseIds) -> bool {
    forall|t: int, r: int, u: int, s: int|
        0 <= t < lens.len() && 0 <= r < lens[t] && 0 <= u < lens.len() && 0 <= s < lens[u]
            && #[trigger] source_view::id_of_row(ids, t, r) == #[trigger] source_view::id_of_row(ids, u, s) ==> t == u && r
            == s
}

/// The base rows from a place on whose ids are not hidden, table by table.
pub open spec fn surviving_rows(
    lens: Seq<usize>,
    ids: ReverseIds,
    hidden: Set<u64>,
    table: int,
    row: int,
) -> Seq<BaseRow>
    decreases lens.len() - table, lens[table] - row,
{
    if table < 0 || table >= lens.len() {
        Seq::empty()
    } else if row >= lens[table] {
        surviving_rows(lens, ids, hidden, table + 1, 0)
    } else {
        let rest = surviving_rows(lens, ids, hidden, table, row + 1);
        match source_view::id_of_row(ids, table, row) {
            Some(id) => if hidden.contains(id) {
                rest
            } else {
                seq![BaseRow { table: table as usize, row: row as usize, id }] + rest
            },
            None => rest,
        }
    }
}

/// All rows of the merged graph: the surviving rows of the base, then the ids
/// of the overlay.
pub open spec fn merged_rows(
    lens: Seq<usize>,
    ids: ReverseIds,
    hidden: Set<u64>,
    overlay: Seq<u64>,
    has_base: bool,
    has_overlay: bool,
) -> Seq<MergedRow> {
    let base = surviving_rows(lens, ids, hidden, 0, 0);
    (if has_base {
        Seq::new(base.len(), |i: int| MergedRow::Base(base[i]))
    } else {
        Seq::empty()
    }) + (if has_overlay {
        Seq::new(overlay.len(), |i: int| MergedRow::Overlay(overlay[i]))
    } else {
        Seq::empty()
    })
}

/// The original id of a row of the merged graph.
pub open spec fn merged_id(m: MergedRow) -> u64 {
    match m {
        MergedRow::Base(b) => b.id,
        MergedRow::Overlay(id) => id,
    }
}

spec fn before(t: int, r: int, b: BaseRow) -> bool {
    t < b.table || (t == b.table && r <= b.row)
}

proof fn lemma_step(lens: Seq<usize>, ids: ReverseIds, hidden: Set<u64>, table: int, row: int)
    requires
        0 <= table,
        0 <= row,
        lens.len() <= usize::MAX,
        rows_have_ids(lens, ids),
    ensures
        ({
            let all = surviving_rows(lens, ids, hidden, table, row);
            let (r, q) = freeze::next_base_row(lens, ids, hidden, table, row);
            if all.len() == 0 {
                r == Ok::<Option<BaseRow>, GenerationError>(None)
            } else {
                &&& r == Ok::<Option<BaseRow>, GenerationError>(Some(all[0]))
                &&& surviving_rows(lens, ids, hidden, q.0, q.1) == all.skip(1)
                &&& 0 <= q.0
                &&& 0 <= q.1
            }
        }),
    decreases lens.len() - table, lens[table] - row,
{
    if table < lens.len() {
        if row >= lens[table] {
            lemma_step(lens, ids, hidden, table + 1, 0);
        } else {
            assert(source_view::id_of_row(ids, table, row) is Some);
            let id = source_view::id_of_row(ids, table, row)->0;
            if hidden.contains(id) {
                lemma_step(lens, ids, hidden, table, row + 1);
            } else {
                let rest = surviving_rows(lens, ids, hidden, table, row + 1);
                assert(surviving_rows(lens, ids, hidden, table, row).skip(1) =~= rest);
            }
        }
    }
}

/// The surviving rows lie in their tables, have their ids, are not hidden, and
/// stand in the order of tables and rows.
proof fn lemma_survivors(lens: Seq<usize>, ids: ReverseIds, hidden: Set<u64>, table: int, row: int)
    requires
        0 <= table,
        0 <= row,
        lens.len() <= usize::MAX,
    ensures
        ({
            let all = surviving_rows(lens, ids, hidden, table, row);
            &&& forall|i: int|
                0 <= i < all.len() ==> {
                    let b = #[trigger] all[i];
                    &&& before(table, row, b)
                    &&& b.table < lens.len()
                    &&& b.row < lens[b.table as int]
                    &&& source_view::id_of_row(ids, b.table as int, b.row as int) == Some(b.id)
                    &&& !hidden.contains(b.id)
                }
            &&& forall|i: int, j: int|
                0 <= i < j < all.len() ==> before(
                    (#[trigger] all[i]).table as int,
                    all[i].row + 1,
                    #[trigger] all[j],
                )
        }),
    decreases lens.len() - table, lens[table] - row,
{
    if table < lens.len() {
        if row >= lens[table] {
            lemma_survivors(lens, ids, hidden, table + 1, 0);
        } else {
            lemma_survivors(lens, ids, hidden, table, row + 1);
            let all = surviving_rows(lens, ids, hidden, table, row);
            let rest = surviving_rows(lens, ids, hidden, table, row + 1);
            if all.len() != rest.len() {
                assert forall|i: int| 1 <= i < all.len() implies #[trigger] all[i] == rest[i - 1] by {
                }
            }
        }
    }
}

/// A row that is not hidden is among the surviving ones.
proof fn lemma_survivor_listed(
    lens: Seq<usize>,
    ids: ReverseIds,
    hidden: Set<u64>,
    table: int,
    row: int,
    b: BaseRow,
)
    requires
        0 <= table,
        0 <= row,
        lens.len() <= usize::MAX,
        before(table, row, b),
        b.table < lens.len(),
        b.row < lens[b.table as int],
        source_view::id_of_row(ids, b.table as int, b.row as int) == Some(b.id),
        !hidden.contains(b.id),
    ensures
        surviving_rows(lens, ids, hidden, table, row).contains(b),
    decreases lens.len() - table, lens[table] - row,
{
    let all = surviving_rows(lens, ids, hidden, table, row);
    if row >= lens[table] {
        lemma_survivor_listed(lens, ids, hidden, table + 1, 0, b);
    } else if table == b.table && row == b.row {
        assert(all[0] == b);
    } else {
        let rest = surviving_rows(lens, ids, hidden, table, row + 1);
        lemma_survivor_listed(lens, ids, hidden, table, row + 1, b);
        let k = choose|k: int| 0 <= k < rest.len() && rest[k] == b;
        assert(all[k + (all.len() - rest.len())] == b);
    }
}

/// The surviving rows of a base are exactly its rows whose ids are not hidden,
/// none of them twice.
pub proof fn lemma_surviving_rows_are_all(
    lens: Seq<usize>,
    ids: ReverseIds,
    hidden: Set<u64>,
    b: BaseRow,
)
    requires
        lens.len() <= usize::MAX,
    ensures
        surviving_rows(lens, ids, hidden, 0, 0).contains(b) <==> (b.table < lens.len() && b.row
            < lens[b.table as int] && source_view::id_of_row(ids, b.table as int, b.row as int) == Some(b.id)
            && !hidden.contains(b.id)),
        surviving_rows(lens, ids, hidden, 0, 0).no_duplicates(),
{
    lemma_survivors(lens, ids, hidden, 0, 0);
    let all = surviving_rows(lens, ids, hidden, 0, 0);
    assert forall|i: int, j: int| 0 <= i < all.len() && 0 <= j < all.len() && i != j implies all[i]
        != all[j] by {
        if i < j {
            assert(before(all[i].table as int, all[i].row + 1, all[j]));
        } else {
            assert(before(all[j].table as int, all[j].row + 1, all[i]));
        }
    }
    if b.table < lens.len() && b.row < lens[b.table as int] && source_view::id_of_row(
        ids,
        b.table as int,
        b.row as int,
    ) == Some(b.id) && !hidden.contains(b.id) {
        lemma_survivor_listed(lens, ids, hidden, 0, 0, b);
    }
}

proof fn lemma_walk_place(
    lens: Seq<usize>,
    ids: ReverseIds,
    hidden: Set<u64>,
    overlay: Seq<u64>,
    has_base: bool,
    has_overlay: bool,
    n: nat,
)
    requires
        lens.len() <= usize::MAX,
        rows_have_ids(lens, ids),
    ensures
        ({
            let base = surviving_rows(lens, ids, hidden, 0, 0);
            let b = if has_base {
                base.len()
            } else {
                0
            };
            let q = walked_place(
                lens,
                ids,
                hidden,
                overlay,
                walk_start(has_base, has_overlay),
                n,
            );
            &&& q.has_overlay == has_overlay
            &&& 0 <= q.base.0
            &&& 0 <= q.base.1
            &&& n <= b && has_base ==> surviving_rows(lens, ids, hidden, q.base.0, q.base.1)
                == base.skip(n as int)
            &&& n <= b ==> q.base_done == !has_base && q.given == 0
            &&& n > b ==> q.base_done && q.given == (if !has_overlay {
                0
            } else if n - b <= overlay.len() {
                n - b
            } else {
                overlay.len() as int
            })
        }),
    decreases n,
{
    let base = surviving_rows(lens, ids, hidden, 0, 0);
    let b = if has_base {
        base.len()
    } else {
        0
    };
    let start = walk_start(has_base, has_overlay);
    if n == 0 {
        assert(base.skip(0) =~= base);
    } else {
        let m = (n - 1) as nat;
        lemma_walk_place(lens, ids, hidden, overlay, has_base, has_overlay, m);
        let q = walked_place(lens, ids, hidden, overlay, start, m);
        if !q.base_done {
            lemma_step(lens, ids, hidden, q.base.0, q.base.1);
            if m < b {
                assert(base.skip(m as int).skip(1) =~= base.skip(n as int));
            } else {
                lemma_next_place(lens, ids, hidden, q.base.0, q.base.1);
            }
        }
    }
}

proof fn lemma_next_place(lens: Seq<usize>, ids: ReverseIds, hidden: Set<u64>, table: int, row: int)
    requires
        0 <= table,
        0 <= row,
    ensures
        freeze::next_base_row(lens, ids, hidden, table, row).1.0 >= 0,
        freeze::next_base_row(lens, ids, hidden, table, row).1.1 >= 0,
    decreases lens.len() - table, lens[table] - row,
{
    if table < lens.len() {
        if row >= lens[table] {
            lemma_next_place(lens, ids, hidden, table + 1, 0);
        } else if source_view::id_of_row(ids, table, row) matches Some(id) && hidden.contains(id) {
            lemma_next_place(lens, ids, hidden, table, row + 1);
        }
    }
}

/// A walk over a base and an overlay gives every surviving row of the base and
/// every id of the overlay exactly once: step by step the rows of the merged
/// graph, then nothing more, and no original id twice. The rows of the base
/// have ids, each its own; what the overlay has is hidden in the base.
pub proof fn lemma_walk_gives_each_once(
    lens: Seq<usize>,
    ids: ReverseIds,
    hidden: Set<u64>,
    overlay: Seq<u64>,
    has_base: bool,
    has_overlay: bool,
)
    requires
        lens.len() <= usize::MAX,
        rows_have_ids(lens, ids),
        rows_differ(lens, ids),
        freeze::ids_ascend(overlay),
        overlay.to_set().subset_of(hidden),
    ensures
        ({
            let start = walk_start(has_base, has_overlay);
            let all = merged_rows(lens, ids, hidden, overlay, has_base, has_overlay);
            &&& forall|n: nat|
                n < all.len() ==> #[trigger] walked_row(lens, ids, hidden, overlay, start, n)
                    == Ok::<Option<MergedRow>, GenerationError>(Some(all[n as int]))
            &&& forall|n: nat|
                n >= all.len() ==> #[trigger] walked_row(lens, ids, hidden, overlay, start, n)
                    == Ok::<Option<MergedRow>, GenerationError>(None)
            &&& forall|i: int, j: int|
                0 <= i < all.len() && 0 <= j < all.len() && i != j ==> merged_id(
                    #[trigger] all[i],
                ) != merged_id(#[trigger] all[j])
        }),
{
    let start = walk_start(has_base, has_overlay);
    let all = merged_rows(lens, ids, hidden, overlay, has_base, has_overlay);
    let base = surviving_rows(lens, ids, hidden, 0, 0);
    let b = if has_base {
        base.len()
    } else {
        0
    };
    assert forall|n: nat| true implies #[trigger] walked_row(
        lens,
        ids,
        hidden,
        overlay,
        start,
        n,
    ) == Ok::<Option<MergedRow>, GenerationError>(
        if n < all.len() {
            Some(all[n as int])
        } else {
            None
        },
    ) by {
        lemma_walk_place(lens, ids, hidden, overlay, has_base, has_overlay, n);
        let q = walked_place(lens, ids, hidden, overlay, start, n);
        if !q.base_done {
            lemma_step(lens, ids, hidden, q.base.0, q.base.1);
            if n < b {
                assert(base.skip(n as int)[0] == base[n as int]);
            }
        }
    }
    lemma_survivors(lens, ids, hidden, 0, 0);
    assert forall|i: int, j: int| 0 <= i < all.len() && 0 <= j < all.len() && i < j implies merged_id(
        #[trigger] all[i],
    ) != merged_id(#[trigger] all[j]) by {
        if j < b {
            let x = base[i];
            let y = base[j];
            assert(before(x.table as int, x.row + 1, y));
            assert(source_view::id_of_row(ids, x.table as int, x.row as int) == Some(x.id));
            assert(source_view::id_of_row(ids, y.table as int, y.row as int) == Some(y.id));
        } else if i < b {
            assert(!hidden.contains(base[i].id));
            assert(overlay.to_set().contains(overlay[j - b]));
        } else {
            assert(overlay[i - b] < overlay[j - b]);
        }
    }
}

// ---------------------------------------------------------- frozen epochs

/// A set of identifiers lists exactly its members.
pub proof fn lemma_listing_is_the_set(ids: IdSet, x: u64)
    ensures
        ids@.contains(x) <==> ids.listing().contains(x),
{
    freeze::lemma_listed_members(ids);
    assert(ids.listing().to_set().contains(x) == ids.listing().contains(x));
}

/// What a walk from its start gives: every row of the base whose id is in
/// neither set, every id of the changed set, nothing of the base whose id is in
/// one of the sets, and no id twice; after all of them nothing more.
pub open spec fn walk_is_the_merge(
    lens: Seq<usize>,
    ids: ReverseIds,
    hidden: Set<u64>,
    overlay: Seq<u64>,
    changed: Set<u64>,
    deleted: Set<u64>,
) -> bool {
    let start = MergedPlace { base: (0, 0), base_done: false, has_overlay: true, given: 0 };
    let step = |n: nat| walked_row(lens, ids, hidden, overlay, start, n);
    &&& forall|t: int, r: int, x: u64|
        0 <= t < lens.len() && 0 <= r < lens[t] && #[trigger] source_view::id_of_row(ids, t, r) == Some(x)
            && !(#[trigger] changed.contains(x)) && !deleted.contains(x) ==> exists|n: nat|
            #[trigger] step(n) == Ok::<Option<MergedRow>, GenerationError>(
                Some(MergedRow::Base(BaseRow { table: t as usize, row: r as usize, id: x })),
            )
    &&& forall|x: u64| #[trigger]
        changed.contains(x) ==> exists|n: nat| #[trigger]
            step(n) == Ok::<Option<MergedRow>, GenerationError>(Some(MergedRow::Overlay(x)))
    &&& forall|n: nat|
        (#[trigger] step(n)) matches Ok(Some(MergedRow::Base(b))) ==> !changed.contains(b.id)
            && !deleted.contains(b.id) && b.table < lens.len() && b.row < lens[b.table as int]
            && source_view::id_of_row(ids, b.table as int, b.row as int) == Some(b.id)
    &&& forall|n: nat|
        (#[trigger] step(n)) matches Ok(Some(MergedRow::Overlay(x))) ==> changed.contains(x)
    &&& forall|n: nat, m: nat|
        n != m && (#[trigger] step(n)) is Ok && step(n)->Ok_0 is Some && (#[trigger] step(m)) is Ok
            && step(m)->Ok_0 is Some ==> merged_id(step(n)->Ok_0->0) != merged_id(
            step(m)->Ok_0->0,
        )
    &&& forall|n: nat| (#[trigger] step(n)) is Ok
    &&& exists|end: nat| #[trigger] step(end) == Ok::<Option<MergedRow>, GenerationError>(None)
    &&& forall|n: nat, m: nat|
        n <= m && #[trigger] step(n) == Ok::<Option<MergedRow>, GenerationError>(None)
            ==> #[trigger] step(m) == Ok::<Option<MergedRow>, GenerationError>(None)
}

proof fn lemma_walk_merges(
    lens: Seq<usize>,
    ids: ReverseIds,
    hidden: Set<u64>,
    overlay: Seq<u64>,
    changed: Set<u64>,
    deleted: Set<u64>,
)
    requires
        lens.len() <= usize::MAX,
        rows_have_ids(lens, ids),
        rows_differ(lens, ids),
        freeze::ids_ascend(overlay),
        forall|x: u64| #[trigger] hidden.contains(x) <==> changed.contains(x) || deleted.contains(x),
        forall|x: u64| #[trigger] changed.contains(x) <==> overlay.contains(x),
    ensures
        walk_is_the_merge(lens, ids, hidden, overlay, changed, deleted),
{
    let start = walk_start(true, true);
    let step = |n: nat| walked_row(lens, ids, hidden, overlay, start, n);
    let base = surviving_rows(lens, ids, hidden, 0, 0);
    let all = merged_rows(lens, ids, hidden, overlay, true, true);
    assert forall|x: u64| overlay.to_set().contains(x) implies hidden.contains(x) by {
        assert(overlay.contains(x));
        assert(changed.contains(x));
    }
    lemma_walk_gives_each_once(lens, ids, hidden, overlay, true, true);
    assert forall|n: nat| #[trigger] step(n) == Ok::<Option<MergedRow>, GenerationError>(
        if n < all.len() {
            Some(all[n as int])
        } else {
            None
        },
    ) by {
        assert(step(n) == walked_row(lens, ids, hidden, overlay, start, n));
    }
    assert forall|t: int, r: int, x: u64|
        0 <= t < lens.len() && 0 <= r < lens[t] && #[trigger] source_view::id_of_row(ids, t, r) == Some(x) && !(
        #[trigger] changed.contains(x)) && !deleted.contains(x) implies exists|n: nat|
        #[trigger] step(n) == Ok::<Option<MergedRow>, GenerationError>(
            Some(MergedRow::Base(BaseRow { table: t as usize, row: r as usize, id: x })),
        ) by {
        let b = BaseRow { table: t as usize, row: r as usize, id: x };
        assert(!hidden.contains(x));
        lemma_surviving_rows_are_all(lens, ids, hidden, b);
        let k = choose|k: int| 0 <= k < base.len() && base[k] == b;
        assert(all[k] == MergedRow::Base(b));
        assert(step(k as nat) == Ok::<Option<MergedRow>, GenerationError>(
            Some(MergedRow::Base(b)),
        ));
    }
    assert forall|x: u64| #[trigger] changed.contains(x) implies exists|n: nat| #[trigger]
        step(n) == Ok::<Option<MergedRow>, GenerationError>(Some(MergedRow::Overlay(x))) by {
        assert(overlay.contains(x));
        let k = choose|k: int| 0 <= k < overlay.len() && overlay[k] == x;
        assert(all[base.len() + k] == MergedRow::Overlay(x));
        assert(step((base.len() + k) as nat) == Ok::<Option<MergedRow>, GenerationError>(
            Some(MergedRow::Overlay(x)),
        ));
    }
    assert forall|n: nat|
        (#[trigger] step(n)) is Ok && step(n)->Ok_0 is Some && step(n)->Ok_0->0 is Base implies {
        let b = step(n)->Ok_0->0->Base_0;
        !changed.contains(b.id) && !deleted.contains(b.id) && b.table < lens.len() && b.row
            < lens[b.table as int] && source_view::id_of_row(ids, b.table as int, b.row as int) == Some(b.id)
    } by {
        let b = base[n as int];
        assert(all[n as int] == MergedRow::Base(b));
        assert(base.contains(b));
        lemma_surviving_rows_are_all(lens, ids, hidden, b);
        assert(!hidden.contains(b.id));
    }
    assert forall|n: nat|
        (#[trigger] step(n)) is Ok && step(n)->Ok_0 is Some
            && step(n)->Ok_0->0 is Overlay implies changed.contains(
        step(n)->Ok_0->0->Overlay_0,
    ) by {
        assert(overlay.contains(overlay[n - base.len()]));
    }
    assert(step(all.len()) == Ok::<Option<MergedRow>, GenerationError>(None));
}

/// The merged nodes of a base and a frozen epoch: every base node that the epoch
/// neither changed nor deleted, every changed node once and from the overlay.
pub proof fn lemma_node_stream_is_the_merge(base: GenerationSourceView, e: FrozenOverlayEpoch)
    requires
        rows_have_ids(base.node_lens@, base.node_ids),
        rows_differ(base.node_lens@, base.node_ids),
        freeze::ids_ascend(e.overlay_node_ids.listing()),
    ensures
        walk_is_the_merge(
            base.node_lens@,
            base.node_ids,
            e.hidden_nodes(),
            e.overlay_node_ids.listing(),
            e.overlay_node_ids@,
            e.deleted_base_node_ids@,
        ),
{
    assert forall|x: u64| #[trigger] e.overlay_node_ids@.contains(
        x,
    ) == e.overlay_node_ids.listing().contains(x) by {
        lemma_listing_is_the_set(e.overlay_node_ids, x);
    }
    assert(base.node_lens@.len() == base.node_lens.len());
    lemma_walk_merges(
        base.node_lens@,
        base.node_ids,
        e.hidden_nodes(),
        e.overlay_node_ids.listing(),
        e.overlay_node_ids@,
        e.deleted_base_node_ids@,
    );
}

/// The merged edges of a base and a frozen epoch: every base edge that the epoch
/// neither changed nor deleted, every changed edge once and from the overlay.
pub proof fn lemma_edge_stream_is_the_merge(base: GenerationSourceView, e: FrozenOverlayEpoch)
    requires
        rows_have_ids(base.edge_lens@, base.edge_ids),
        rows_differ(base.edge_lens@, base.edge_ids),
        freeze::ids_ascend(e.overlay_edge_ids.listing()),
    ensures
        walk_is_the_merge(
            base.edge_lens@,
            base.edge_ids,
            e.hidden_edges(),
            e.overlay_edge_ids.listing(),
            e.overlay_edge_ids@,
            e.deleted_base_edge_ids@,
        ),
{
    assert forall|x: u64| #[trigger] e.overlay_edge_ids@.contains(
        x,
    ) == e.overlay_edge_ids.listing().contains(x) by {
        lemma_listing_is_the_set(e.overlay_edge_ids, x);
    }
    assert(base.edge_lens@.len() == base.edge_lens.len());
    lemma_walk_merges(
        base.edge_lens@,
        base.edge_ids,
        e.hidden_edges(),
        e.overlay_edge_ids.listing(),
        e.overlay_edge_ids@,
        e.deleted_base_edge_ids@,
    );
}

/// The epoch hides exactly what it changed and what it deleted.
pub proof fn lemma_epoch_hides_its_changes(e: FrozenOverlayEpoch, x: u64)
    ensures
        e.hidden_nodes().contains(x) <==> e.overlay_node_ids@.contains(x)
            || e.deleted_base_node_ids@.contains(x),
        e.hidden_edges().contains(x) <==> e.overlay_edge_ids@.contains(x)
            || e.deleted_base_edge_ids@.contains(x),
{
}

} // verus!
