//! A chain of tiers under an overlay, as a builder reads it: the tiers hold
//! disjoint ranges of ids in ascending order, the overlay holds what is newer.
//!
//! A lookup asks the tier that covers the id and then the overlay; a listing
//! is that of the tiers in order and then that of the overlay.

use crate::graph_store::{CompareOp, Direction, GraphContent, GraphStore, Moment, StoredEdge, StoredNode};
use crate::graph_store;
use crate::intern::TextCollector;
use crate::intern;
use crate::records::{GenerationEdge, GenerationNode};
use crate::text::own;
use crate::text;
use crate::types::{EdgeId, NodeId};
use crate::value::{Value, WholeValue};
use crate::value;
use arcstr::ArcStr;
use vstd::prelude::*;

verus! {

// ------------------------------------------------------------------ ranges

/// The range of a tier's node ids, which it lists in ascending order.
pub open spec fn node_range(ids: Seq<NodeId>) -> (u64, u64) {
    if ids.len() == 0 {
        (u64::MAX, u64::MAX)
    } else {
        (ids[0].0, ids[ids.len() - 1].0)
    }
}

/// The range of a tier's node ids: from the first to the last.
pub fn tier_node_range<T: GraphStore>(store: &T) -> (r: (u64, u64))
    ensures
        r == node_range(store.content().ids),
{
    let ids: Vec<NodeId> = store.node_ids();
    if ids.len() == 0 {
        (u64::MAX, u64::MAX)
    } else {
        (ids[0].as_u64(), ids[ids.len() - 1].as_u64())
    }
}

/// A range widened to hold an id.
pub open spec fn widened(r: (u64, u64), id: u64) -> (u64, u64) {
    (if id < r.0 {
        id
    } else {
        r.0
    }, if id > r.1 {
        id
    } else {
        r.1
    })
}

/// A range widened to hold the edges of the first `n` links.
pub open spec fn links_range(r: (u64, u64), links: Seq<(NodeId, EdgeId)>, n: int) -> (u64, u64)
    decreases n,
{
    if n <= 0 {
        r
    } else {
        widened(links_range(r, links, n - 1), links[n - 1].1.0)
    }
}

/// The range of the edges that leave the first `n` nodes of a store.
pub open spec fn edge_range<T: GraphStore>(store: T, n: int) -> (u64, u64)
    decreases n,
{
    if n <= 0 {
        (u64::MAX, 0u64)
    } else {
        let links = (store.content().links)(store.content().ids[n - 1], Direction::Outgoing);
        links_range(edge_range(store, n - 1), links, links.len() as int)
    }
}

/// The range of all edges of a store.
pub open spec fn whole_edge_range<T: GraphStore>(store: T) -> (u64, u64) {
    edge_range(store, store.content().ids.len() as int)
}

/// The range of a tier's edge ids, from the edges that leave its nodes.
pub fn tier_edge_range<T: GraphStore>(store: &T) -> (r: (u64, u64))
    ensures
        r == whole_edge_range(*store),
{
    let ids: Vec<NodeId> = store.node_ids();
    let mut min: u64 = u64::MAX;
    let mut max: u64 = 0;
    let mut i: usize = 0;
    while i < ids.len()
        invariant
            i <= ids@.len(),
            ids@ == store.content().ids,
            (min, max) == edge_range(*store, i as int),
        decreases ids@.len() - i,
    {
        let links: Vec<(NodeId, EdgeId)> = store.edges_from(ids[i], Direction::Outgoing);
        let ghost before = (min, max);
        let mut j: usize = 0;
        while j < links.len()
            invariant
                j <= links@.len(),
                (min, max) == links_range(before, links@, j as int),
            decreases links@.len() - j,
        {
            let v: u64 = links[j].1.as_u64();
            if v < min {
                min = v;
            }
            if v > max {
                max = v;
            }
            j = j + 1;
        }
        i = i + 1;
    }
    (min, max)
}

/// A range covers an id.
pub open spec fn covers(r: (u64, u64), id: u64) -> bool {
    r.0 <= id <= r.1
}

/// An edge tier covers an id; an empty one covers none.
pub open spec fn edge_tier_covers(r: (u64, u64), id: u64) -> bool {
    covers(r, id) && r.0 != u64::MAX
}

/// Ranges are disjoint and in ascending order.
pub open spec fn ranges_ascend(v: Seq<(u64, u64)>) -> bool {
    &&& forall|i: int| 0 <= i < v.len() ==> (#[trigger] v[i]).0 <= v[i].1
    &&& forall|i: int, j: int| 0 <= i < j < v.len() ==> (#[trigger] v[i]).1 < (#[trigger] v[j]).0
}

/// The range that a search by halves of `v[lo..hi]` ends at.
pub open spec fn searched(v: Seq<(u64, u64)>, id: u64, lo: int, hi: int) -> Option<int>
    decreases hi - lo,
{
    if lo >= hi {
        None
    } else {
        let mid = (lo + hi) / 2;
        if id < v[mid].0 {
            searched(v, id, lo, mid)
        } else if id > v[mid].1 {
            searched(v, id, mid + 1, hi)
        } else {
            Some(mid)
        }
    }
}

/// The node ranges of tiers.
pub open spec fn tier_ranges_of<T: GraphStore>(tiers: Seq<T>) -> Seq<(u64, u64)> {
    Seq::new(tiers.len(), |i: int| node_range(tiers[i].content().ids))
}

/// The tier that a lookup of a node asks.
pub open spec fn node_tier<T: GraphStore>(tiers: Seq<T>, id: NodeId) -> Option<int> {
    searched(tier_ranges_of(tiers), id.0, 0, tiers.len() as int)
}

/// The first tier from the `k`-th on whose edges cover an id.
pub open spec fn edge_tier_from<T: GraphStore>(tiers: Seq<T>, id: EdgeId, k: int) -> Option<int>
    decreases tiers.len() - k,
{
    if k >= tiers.len() {
        None
    } else if edge_tier_covers(whole_edge_range(tiers[k]), id.0) {
        Some(k)
    } else {
        edge_tier_from(tiers, id, k + 1)
    }
}

/// The tier that a lookup of an edge asks.
pub open spec fn edge_tier<T: GraphStore>(tiers: Seq<T>, id: EdgeId) -> Option<int> {
    edge_tier_from(tiers, id, 0)
}

// ------------------------------------------------------------ what a chain holds

/// What the asked tier has, or else what the overlay has.
pub open spec fn first_of<A>(tier: Option<A>, overlay: Option<A>) -> Option<A> {
    if tier is Some {
        tier
    } else {
        overlay
    }
}

/// What the tier asked for a node says.
pub open spec fn tier_answer<T, A>(
    tiers: Seq<T>,
    at: Option<int>,
    f: spec_fn(T) -> Option<A>,
) -> Option<A> {
    match at {
        Some(i) => f(tiers[i]),
        None => None,
    }
}

/// Whether the tier asked says yes.
pub open spec fn tier_says<T>(tiers: Seq<T>, at: Option<int>, f: spec_fn(T) -> bool) -> bool {
    match at {
        Some(i) => f(tiers[i]),
        None => false,
    }
}

/// The lists of the first `n` tiers, one behind the other.
pub open spec fn joined_lists<T, A>(tiers: Seq<T>, f: spec_fn(T) -> Seq<A>, n: int) -> Seq<A>
    decreases n,
{
    if n <= 0 {
        Seq::empty()
    } else {
        joined_lists(tiers, f, n - 1) + f(tiers[n - 1])
    }
}

/// The list of a chain: those of the tiers in order, then that of the overlay.
pub open spec fn chain_list<T, A>(tiers: Seq<T>, f: spec_fn(T) -> Seq<A>, top: Seq<A>) -> Seq<A> {
    joined_lists(tiers, f, tiers.len() as int) + top
}

/// The sum of the counts of the first `n` tiers.
pub open spec fn summed<T>(tiers: Seq<T>, f: spec_fn(T) -> nat, n: int) -> nat
    decreases n,
{
    if n <= 0 {
        0
    } else {
        summed(tiers, f, n - 1) + f(tiers[n - 1])
    }
}

/// The count of a chain: those of the tiers and that of the overlay together.
pub open spec fn chain_total<T>(tiers: Seq<T>, f: spec_fn(T) -> nat, top: nat) -> nat {
    summed(tiers, f, tiers.len() as int) + top
}

/// Some tier says yes.
pub open spec fn any_tier<T>(tiers: Seq<T>, f: spec_fn(T) -> bool) -> bool {
    exists|i: int| 0 <= i < tiers.len() && f(#[trigger] tiers[i])
}

proof fn lemma_summed_monotonic<T>(tiers: Seq<T>, f: spec_fn(T) -> nat, k: int, n: int)
    requires
        0 <= k < n,
    ensures
        summed(tiers, f, k) + f(tiers[k]) <= summed(tiers, f, n),
    decreases n - k,
{
    if k + 1 < n {
        lemma_summed_monotonic(tiers, f, k, n - 1);
    }
}

/// What a tier has under a node id.
pub open spec fn node_in<T: GraphStore>(id: NodeId, at: Moment) -> spec_fn(
    T,
) -> Option<StoredNode> {
    |t: T| (t.content().node_of)(id, at)
}

/// What a tier has under an edge id.
pub open spec fn edge_in<T: GraphStore>(id: EdgeId, at: Moment) -> spec_fn(
    T,
) -> Option<StoredEdge> {
    |t: T| (t.content().edge_of)(id, at)
}

/// What a tier has as a property of a node.
pub open spec fn node_value_in<T: GraphStore>(id: NodeId, key: Seq<char>) -> spec_fn(
    T,
) -> Option<WholeValue> {
    |t: T| (t.content().node_value)(id, key)
}

/// What a tier has as a property of an edge.
pub open spec fn edge_value_in<T: GraphStore>(id: EdgeId, key: Seq<char>) -> spec_fn(
    T,
) -> Option<WholeValue> {
    |t: T| (t.content().edge_value)(id, key)
}

/// What a tier has as the type of an edge.
pub open spec fn type_in<T: GraphStore>(id: EdgeId) -> spec_fn(T) -> Option<Seq<char>> {
    |t: T| (t.content().type_of)(id)
}

/// Whether a tier shows a node.
pub open spec fn node_seen_in<T: GraphStore>(id: NodeId, at: Moment) -> spec_fn(T) -> bool {
    |t: T| (t.content().node_visible)(id, at)
}

/// Whether a tier shows an edge.
pub open spec fn edge_seen_in<T: GraphStore>(id: EdgeId, at: Moment) -> spec_fn(T) -> bool {
    |t: T| (t.content().edge_visible)(id, at)
}

/// The neighbours of a node in a tier.
pub open spec fn adjacent_in<T: GraphStore>(node: NodeId, direction: Direction) -> spec_fn(
    T,
) -> Seq<NodeId> {
    |t: T| (t.content().adjacent)(node, direction)
}

/// The links of a node in a tier.
pub open spec fn links_in<T: GraphStore>(node: NodeId, direction: Direction) -> spec_fn(
    T,
) -> Seq<(NodeId, EdgeId)> {
    |t: T| (t.content().links)(node, direction)
}

/// How many edges leave a node in a tier.
pub open spec fn leaving_in<T: GraphStore>(node: NodeId) -> spec_fn(T) -> nat {
    |t: T| (t.content().leaving)(node)
}

/// How many edges reach a node in a tier.
pub open spec fn reaching_in<T: GraphStore>(node: NodeId) -> spec_fn(T) -> nat {
    |t: T| (t.content().reaching)(node)
}

/// The nodes of a tier.
pub open spec fn ids_in<T: GraphStore>() -> spec_fn(T) -> Seq<NodeId> {
    |t: T| t.content().ids
}

/// The nodes of a tier with a label.
pub open spec fn labelled_in<T: GraphStore>(label: Seq<char>) -> spec_fn(T) -> Seq<NodeId> {
    |t: T| (t.content().labelled)(label)
}

/// How many nodes of a tier have a label.
pub open spec fn labelled_total_in<T: GraphStore>(label: Seq<char>) -> spec_fn(T) -> nat {
    |t: T| (t.content().labelled_total)(label)
}

/// How many nodes a tier has.
pub open spec fn nodes_total_in<T: GraphStore>() -> spec_fn(T) -> nat {
    |t: T| t.content().nodes_total
}

/// How many edges a tier has.
pub open spec fn edges_total_in<T: GraphStore>() -> spec_fn(T) -> nat {
    |t: T| t.content().edges_total
}

/// The nodes of a tier with a value.
pub open spec fn found_in<T: GraphStore>(property: Seq<char>, value: WholeValue) -> spec_fn(
    T,
) -> Seq<NodeId> {
    |t: T| (t.content().found)(property, value)
}

/// The nodes of a tier with several values.
pub open spec fn found_all_in<T: GraphStore>(conditions: Seq<(Seq<char>, WholeValue)>) -> spec_fn(
    T,
) -> Seq<NodeId> {
    |t: T| (t.content().found_all)(conditions)
}

/// The nodes of a tier with a value in a range.
pub open spec fn found_between_in<T: GraphStore>(
    property: Seq<char>,
    min: Option<WholeValue>,
    max: Option<WholeValue>,
    min_inclusive: bool,
    max_inclusive: bool,
) -> spec_fn(T) -> Seq<NodeId> {
    |t: T| (t.content().found_between)(property, min, max, min_inclusive, max_inclusive)
}

/// Whether some node of a tier might compare so.
pub open spec fn node_may_match_in<T: GraphStore>(
    property: Seq<char>,
    op: CompareOp,
    value: WholeValue,
) -> spec_fn(
    T,
) -> bool {
    |t: T| (t.content().node_may_match)(property, op, value)
}

/// Whether some edge of a tier might compare so.
pub open spec fn edge_may_match_in<T: GraphStore>(
    property: Seq<char>,
    op: CompareOp,
    value: WholeValue,
) -> spec_fn(
    T,
) -> bool {
    |t: T| (t.content().edge_may_match)(property, op, value)
}

/// The labels of a tier.
pub open spec fn labels_in<T: GraphStore>() -> spec_fn(T) -> Seq<Seq<char>> {
    |t: T| t.content().labels_known
}

/// The edge types of a tier.
pub open spec fn types_in<T: GraphStore>() -> spec_fn(T) -> Seq<Seq<char>> {
    |t: T| t.content().types_known
}

/// The property keys of a tier.
pub open spec fn keys_in<T: GraphStore>() -> spec_fn(T) -> Seq<Seq<char>> {
    |t: T| t.content().keys_known
}

// ----------------------------------------------------------------- the chain

/// Tiers under an overlay.
#[derive(Debug)]
#[verifier::reject_recursive_types(T)]
#[verifier::reject_recursive_types(O)]
pub struct TierChainView<T: GraphStore, O: GraphStore> {
    tiers: Vec<T>,
    overlay: O,
    tier_ranges: Vec<(u64, u64)>,
}

impl<T: GraphStore, O: GraphStore> TierChainView<T, O> {
    #[verifier::type_invariant]
    spec fn inv(&self) -> bool {
        self.tier_ranges@ == tier_ranges_of(self.tiers@)
    }

    /// The tiers, in ascending order of their ids.
    pub closed spec fn chain(&self) -> Seq<T> {
        self.tiers@
    }

    /// The overlay.
    pub closed spec fn top(&self) -> O {
        self.overlay
    }

    /// A chain of tiers under an overlay.
    pub fn new(tiers: Vec<T>, overlay: O) -> (r: Self)
        ensures
            r.chain() == tiers@,
            r.top() == overlay,
    {
        let mut tier_ranges: Vec<(u64, u64)> = Vec::new();
        let mut i: usize = 0;
        while i < tiers.len()
            invariant
                i <= tiers@.len(),
                tier_ranges@ == tier_ranges_of(tiers@).take(i as int),
            decreases tiers@.len() - i,
        {
            tier_ranges.push(tier_node_range(&tiers[i]));
            i = i + 1;
            assert(tier_ranges@ =~= tier_ranges_of(tiers@).take(i as int));
        }
        assert(tier_ranges@ =~= tier_ranges_of(tiers@));
        TierChainView { tiers, overlay, tier_ranges }
    }

    /// The tier that a lookup of a node asks.
    pub fn tier_for_node(&self, id: NodeId) -> (r: Option<usize>)
        ensures
            match r {
                Some(i) => i < self.chain().len() && node_tier(self.chain(), id) == Some(i as int),
                None => node_tier(self.chain(), id) is None,
            },
    {
        proof {
            use_type_invariant(self);
        }
        let target: u64 = id.as_u64();
        let ghost v = self.tier_ranges@;
        let mut lo: usize = 0;
        let mut hi: usize = self.tier_ranges.len();
        while lo < hi
            invariant
                lo <= hi <= v.len(),
                v == self.tier_ranges@,
                v == tier_ranges_of(self.tiers@),
                target == id.0,
                node_tier(self.tiers@, id) == searched(v, target, lo as int, hi as int),
            decreases hi - lo,
        {
            let mid: usize = lo + (hi - lo) / 2;
            assert(mid == (lo + hi) as int / 2);
            let range: (u64, u64) = self.tier_ranges[mid];
            if target < range.0 {
                hi = mid;
            } else if target > range.1 {
                lo = mid + 1;
            } else {
                return Some(mid);
            }
        }
        None
    }

    /// The tier that a lookup of an edge asks.
    pub fn tier_for_edge(&self, id: EdgeId) -> (r: Option<usize>)
        ensures
            match r {
                Some(i) => i < self.chain().len() && edge_tier(self.chain(), id) == Some(i as int),
                None => edge_tier(self.chain(), id) is None,
            },
    {
        let target: u64 = id.as_u64();
        let mut i: usize = 0;
        while i < self.tiers.len()
            invariant
                i <= self.tiers@.len(),
                target == id.0,
                edge_tier(self.tiers@, id) == edge_tier_from(self.tiers@, id, i as int),
            decreases self.tiers@.len() - i,
        {
            let range: (u64, u64) = tier_edge_range(&self.tiers[i]);
            if range.0 <= target && target <= range.1 && range.0 != u64::MAX {
                return Some(i);
            }
            i = i + 1;
        }
        None
    }
}

impl<T: GraphStore, O: GraphStore> GraphStore for TierChainView<T, O> {
    open spec fn content(&self) -> GraphContent {
        let v = self.chain();
        let top = self.top().content();
        GraphContent {
            node_of: |id: NodeId, at: Moment|
                first_of(
                    tier_answer(v, node_tier(v, id), node_in::<T>(id, at)),
                    (top.node_of)(id, at),
                ),
            edge_of: |id: EdgeId, at: Moment|
                first_of(
                    tier_answer(v, edge_tier(v, id), edge_in::<T>(id, at)),
                    (top.edge_of)(id, at),
                ),
            node_visible: |id: NodeId, at: Moment|
                tier_says(v, node_tier(v, id), node_seen_in::<T>(id, at))
                    || (top.node_visible)(id, at),
            edge_visible: |id: EdgeId, at: Moment|
                tier_says(v, edge_tier(v, id), edge_seen_in::<T>(id, at))
                    || (top.edge_visible)(id, at),
            node_value: |id: NodeId, key: Seq<char>|
                first_of(
                    tier_answer(v, node_tier(v, id), node_value_in::<T>(id, key)),
                    (top.node_value)(id, key),
                ),
            edge_value: |id: EdgeId, key: Seq<char>|
                first_of(
                    tier_answer(v, edge_tier(v, id), edge_value_in::<T>(id, key)),
                    (top.edge_value)(id, key),
                ),
            type_of: |id: EdgeId|
                first_of(
                    tier_answer(v, edge_tier(v, id), type_in::<T>(id)),
                    (top.type_of)(id),
                ),
            adjacent: |node: NodeId, direction: Direction|
                chain_list(
                    v,
                    adjacent_in::<T>(node, direction),
                    (top.adjacent)(node, direction),
                ),
            links: |node: NodeId, direction: Direction|
                chain_list(v, links_in::<T>(node, direction), (top.links)(node, direction)),
            leaving: |node: NodeId|
                chain_total(v, leaving_in::<T>(node), (top.leaving)(node)),
            reaching: |node: NodeId|
                chain_total(v, reaching_in::<T>(node), (top.reaching)(node)),
            ids: chain_list(v, ids_in::<T>(), top.ids),
            labelled: |label: Seq<char>|
                chain_list(v, labelled_in::<T>(label), (top.labelled)(label)),
            labelled_total: |label: Seq<char>|
                chain_total(v, labelled_total_in::<T>(label), (top.labelled_total)(label)),
            nodes_total: chain_total(v, nodes_total_in::<T>(), top.nodes_total),
            edges_total: chain_total(v, edges_total_in::<T>(), top.edges_total),
            found: |property: Seq<char>, value: WholeValue|
                chain_list(v, found_in::<T>(property, value), (top.found)(property, value)),
            found_all: |conditions: Seq<(Seq<char>, WholeValue)>|
                chain_list(v, found_all_in::<T>(conditions), (top.found_all)(conditions)),
            found_between: |
                property: Seq<char>,
                min: Option<WholeValue>,
                max: Option<WholeValue>,
                low: bool,
                high: bool,
            |
                chain_list(
                    v,
                    found_between_in::<T>(property, min, max, low, high),
                    (top.found_between)(property, min, max, low, high),
                ),
            node_may_match: |property: Seq<char>, op: CompareOp, value: WholeValue|
                any_tier(v, node_may_match_in::<T>(property, op, value))
                    || (top.node_may_match)(property, op, value),
            edge_may_match: |property: Seq<char>, op: CompareOp, value: WholeValue|
                any_tier(v, edge_may_match_in::<T>(property, op, value))
                    || (top.edge_may_match)(property, op, value),
            labels_known: intern::gather(Seq::empty(), chain_list(v, labels_in::<T>(), top.labels_known)),
            types_known: intern::gather(Seq::empty(), chain_list(v, types_in::<T>(), top.types_known)),
            keys_known: intern::gather(Seq::empty(), chain_list(v, keys_in::<T>(), top.keys_known)),
            epoch_now: top.epoch_now,
            backward: top.backward,
        }
    }

    fn get_node(&self, id: NodeId) -> (r: Option<GenerationNode>) {
        if let Some(i) = self.tier_for_node(id) {
            if let Some(x) = self.tiers[i].get_node(id) {
                return Some(x);
            }
        }
        self.overlay.get_node(id)
    }

    fn get_edge(&self, id: EdgeId) -> (r: Option<GenerationEdge>) {
        if let Some(i) = self.tier_for_edge(id) {
            if let Some(x) = self.tiers[i].get_edge(id) {
                return Some(x);
            }
        }
        self.overlay.get_edge(id)
    }

    fn get_node_versioned(&self, id: NodeId, epoch: u64, transaction_id: u64) -> (r: Option<
        GenerationNode,
    >) {
        if let Some(i) = self.tier_for_node(id) {
            if let Some(x) = self.tiers[i].get_node_versioned(id, epoch, transaction_id) {
                return Some(x);
            }
        }
        self.overlay.get_node_versioned(id, epoch, transaction_id)
    }

    fn get_edge_versioned(&self, id: EdgeId, epoch: u64, transaction_id: u64) -> (r: Option<
        GenerationEdge,
    >) {
        if let Some(i) = self.tier_for_edge(id) {
            if let Some(x) = self.tiers[i].get_edge_versioned(id, epoch, transaction_id) {
                return Some(x);
            }
        }
        self.overlay.get_edge_versioned(id, epoch, transaction_id)
    }

    fn get_node_at_epoch(&self, id: NodeId, epoch: u64) -> (r: Option<GenerationNode>) {
        if let Some(i) = self.tier_for_node(id) {
            if let Some(x) = self.tiers[i].get_node_at_epoch(id, epoch) {
                return Some(x);
            }
        }
        self.overlay.get_node_at_epoch(id, epoch)
    }

    fn get_edge_at_epoch(&self, id: EdgeId, epoch: u64) -> (r: Option<GenerationEdge>) {
        if let Some(i) = self.tier_for_edge(id) {
            if let Some(x) = self.tiers[i].get_edge_at_epoch(id, epoch) {
                return Some(x);
            }
        }
        self.overlay.get_edge_at_epoch(id, epoch)
    }

    fn get_node_property(&self, id: NodeId, key: &str) -> (r: Option<Value>) {
        if let Some(i) = self.tier_for_node(id) {
            if let Some(x) = self.tiers[i].get_node_property(id, key) {
                return Some(x);
            }
        }
        self.overlay.get_node_property(id, key)
    }

    fn get_edge_property(&self, id: EdgeId, key: &str) -> (r: Option<Value>) {
        if let Some(i) = self.tier_for_edge(id) {
            if let Some(x) = self.tiers[i].get_edge_property(id, key) {
                return Some(x);
            }
        }
        self.overlay.get_edge_property(id, key)
    }

    fn neighbors(&self, node: NodeId, direction: Direction) -> (r: Vec<NodeId>) {
        let mut out: Vec<NodeId> = Vec::new();
        let mut i: usize = 0;
        while i < self.tiers.len()
            invariant
                i <= self.tiers@.len(),
                out@ == joined_lists(self.tiers@, adjacent_in::<T>(node, direction), i as int),
            decreases self.tiers@.len() - i,
        {
            let mut part: Vec<NodeId> = self.tiers[i].neighbors(node, direction);
            out.append(&mut part);
            i = i + 1;
        }
        let mut part: Vec<NodeId> = self.overlay.neighbors(node, direction);
        out.append(&mut part);
        out
    }

    fn edges_from(&self, node: NodeId, direction: Direction) -> (r: Vec<(NodeId, EdgeId)>) {
        let mut out: Vec<(NodeId, EdgeId)> = Vec::new();
        let mut i: usize = 0;
        while i < self.tiers.len()
            invariant
                i <= self.tiers@.len(),
                out@ == joined_lists(self.tiers@, links_in::<T>(node, direction), i as int),
            decreases self.tiers@.len() - i,
        {
            let mut part: Vec<(NodeId, EdgeId)> = self.tiers[i].edges_from(node, direction);
            out.append(&mut part);
            i = i + 1;
        }
        let mut part: Vec<(NodeId, EdgeId)> = self.overlay.edges_from(node, direction);
        out.append(&mut part);
        out
    }

    fn out_degree(&self, node: NodeId) -> (r: usize) {
        let ghost f = leaving_in::<T>(node);
        let ghost len = self.tiers@.len() as int;
        let mut n: usize = 0;
        let mut i: usize = 0;
        while i < self.tiers.len()
            invariant
                i <= self.tiers@.len(),
                len == self.tiers@.len(),
                f == leaving_in::<T>(node),
                (self.content().leaving)(node) <= usize::MAX,
                n == summed(self.tiers@, f, i as int),
            decreases self.tiers@.len() - i,
        {
            proof {
                lemma_summed_monotonic(self.tiers@, f, i as int, len);
            }
            n = n + self.tiers[i].out_degree(node);
            i = i + 1;
        }
        n + self.overlay.out_degree(node)
    }

    fn in_degree(&self, node: NodeId) -> (r: usize) {
        let ghost f = reaching_in::<T>(node);
        let ghost len = self.tiers@.len() as int;
        let mut n: usize = 0;
        let mut i: usize = 0;
        while i < self.tiers.len()
            invariant
                i <= self.tiers@.len(),
                len == self.tiers@.len(),
                f == reaching_in::<T>(node),
                (self.content().reaching)(node) <= usize::MAX,
                n == summed(self.tiers@, f, i as int),
            decreases self.tiers@.len() - i,
        {
            proof {
                lemma_summed_monotonic(self.tiers@, f, i as int, len);
            }
            n = n + self.tiers[i].in_degree(node);
            i = i + 1;
        }
        n + self.overlay.in_degree(node)
    }

    fn has_backward_adjacency(&self) -> (r: bool) {
        self.overlay.has_backward_adjacency()
    }

    fn node_ids(&self) -> (r: Vec<NodeId>) {
        let mut out: Vec<NodeId> = Vec::new();
        let mut i: usize = 0;
        while i < self.tiers.len()
            invariant
                i <= self.tiers@.len(),
                out@ == joined_lists(self.tiers@, ids_in::<T>(), i as int),
            decreases self.tiers@.len() - i,
        {
            let mut part: Vec<NodeId> = self.tiers[i].node_ids();
            out.append(&mut part);
            i = i + 1;
        }
        let mut part: Vec<NodeId> = self.overlay.node_ids();
        out.append(&mut part);
        out
    }

    fn nodes_by_label(&self, label: &str) -> (r: Vec<NodeId>) {
        let mut out: Vec<NodeId> = Vec::new();
        let mut i: usize = 0;
        while i < self.tiers.len()
            invariant
                i <= self.tiers@.len(),
                out@ == joined_lists(self.tiers@, labelled_in::<T>(label@), i as int),
            decreases self.tiers@.len() - i,
        {
            let mut part: Vec<NodeId> = self.tiers[i].nodes_by_label(label);
            out.append(&mut part);
            i = i + 1;
        }
        let mut part: Vec<NodeId> = self.overlay.nodes_by_label(label);
        out.append(&mut part);
        out
    }

    fn nodes_by_label_count(&self, label: &str) -> (r: usize) {
        let ghost f = labelled_total_in::<T>(label@);
        let ghost len = self.tiers@.len() as int;
        let mut n: usize = 0;
        let mut i: usize = 0;
        while i < self.tiers.len()
            invariant
                i <= self.tiers@.len(),
                len == self.tiers@.len(),
                f == labelled_total_in::<T>(label@),
                (self.content().labelled_total)(label@) <= usize::MAX,
                n == summed(self.tiers@, f, i as int),
            decreases self.tiers@.len() - i,
        {
            proof {
                lemma_summed_monotonic(self.tiers@, f, i as int, len);
            }
            n = n + self.tiers[i].nodes_by_label_count(label);
            i = i + 1;
        }
        n + self.overlay.nodes_by_label_count(label)
    }

    fn node_count(&self) -> (r: usize) {
        let ghost f = nodes_total_in::<T>();
        let ghost len = self.tiers@.len() as int;
        let mut n: usize = 0;
        let mut i: usize = 0;
        while i < self.tiers.len()
            invariant
                i <= self.tiers@.len(),
                len == self.tiers@.len(),
                f == nodes_total_in::<T>(),
                self.content().nodes_total <= usize::MAX,
                n == summed(self.tiers@, f, i as int),
            decreases self.tiers@.len() - i,
        {
            proof {
                lemma_summed_monotonic(self.tiers@, f, i as int, len);
            }
            n = n + self.tiers[i].node_count();
            i = i + 1;
        }
        n + self.overlay.node_count()
    }

    fn edge_count(&self) -> (r: usize) {
        let ghost f = edges_total_in::<T>();
        let ghost len = self.tiers@.len() as int;
        let mut n: usize = 0;
        let mut i: usize = 0;
        while i < self.tiers.len()
            invariant
                i <= self.tiers@.len(),
                len == self.tiers@.len(),
                f == edges_total_in::<T>(),
                self.content().edges_total <= usize::MAX,
                n == summed(self.tiers@, f, i as int),
            decreases self.tiers@.len() - i,
        {
            proof {
                lemma_summed_monotonic(self.tiers@, f, i as int, len);
            }
            n = n + self.tiers[i].edge_count();
            i = i + 1;
        }
        n + self.overlay.edge_count()
    }

    fn edge_type(&self, id: EdgeId) -> (r: Option<ArcStr>) {
        if let Some(i) = self.tier_for_edge(id) {
            if let Some(x) = self.tiers[i].edge_type(id) {
                return Some(x);
            }
        }
        self.overlay.edge_type(id)
    }

    fn find_nodes_by_property(&self, property: &str, value: &Value) -> (r: Vec<NodeId>) {
        let mut out: Vec<NodeId> = Vec::new();
        let mut i: usize = 0;
        while i < self.tiers.len()
            invariant
                i <= self.tiers@.len(),
                out@ == joined_lists(self.tiers@, found_in::<T>(property@, value::whole(*value)), i as int),
            decreases self.tiers@.len() - i,
        {
            let mut part: Vec<NodeId> = self.tiers[i].find_nodes_by_property(property, value);
            out.append(&mut part);
            i = i + 1;
        }
        let mut part: Vec<NodeId> = self.overlay.find_nodes_by_property(property, value);
        out.append(&mut part);
        out
    }

    fn find_nodes_by_properties(&self, conditions: &[(String, Value)]) -> (r: Vec<NodeId>) {
        let mut out: Vec<NodeId> = Vec::new();
        let mut i: usize = 0;
        while i < self.tiers.len()
            invariant
                i <= self.tiers@.len(),
                out@ == joined_lists(self.tiers@, found_all_in::<T>(value::whole_fields(conditions@)), i as int),
            decreases self.tiers@.len() - i,
        {
            let mut part: Vec<NodeId> = self.tiers[i].find_nodes_by_properties(conditions);
            out.append(&mut part);
            i = i + 1;
        }
        let mut part: Vec<NodeId> = self.overlay.find_nodes_by_properties(conditions);
        out.append(&mut part);
        out
    }

    fn find_nodes_in_range(
        &self,
        property: &str,
        min: Option<&Value>,
        max: Option<&Value>,
        min_inclusive: bool,
        max_inclusive: bool,
    ) -> (r: Vec<NodeId>) {
        let mut out: Vec<NodeId> = Vec::new();
        let mut i: usize = 0;
        while i < self.tiers.len()
            invariant
                i <= self.tiers@.len(),
                out@ == joined_lists(
                    self.tiers@,
                    found_between_in::<T>(
                        property@,
                        graph_store::bound_of(min),
                        graph_store::bound_of(max),
                        min_inclusive,
                        max_inclusive,
                    ),
                    i as int,
                ),
            decreases self.tiers@.len() - i,
        {
            let mut part: Vec<NodeId> = self.tiers[i].find_nodes_in_range(
                property,
                min,
                max,
                min_inclusive,
                max_inclusive,
            );
            out.append(&mut part);
            i = i + 1;
        }
        let mut part: Vec<NodeId> = self.overlay.find_nodes_in_range(
            property,
            min,
            max,
            min_inclusive,
            max_inclusive,
        );
        out.append(&mut part);
        out
    }

    fn node_property_might_match(&self, property: &str, op: CompareOp, value: &Value) -> (r: bool) {
        let ghost f = node_may_match_in::<T>(property@, op, value::whole(*value));
        let mut i: usize = 0;
        while i < self.tiers.len()
            invariant
                i <= self.tiers@.len(),
                f == node_may_match_in::<T>(property@, op, value::whole(*value)),
                forall|k: int| 0 <= k < i ==> !f(#[trigger] self.tiers@[k]),
            decreases self.tiers@.len() - i,
        {
            if self.tiers[i].node_property_might_match(property, op, value) {
                assert(f(self.tiers@[i as int]));
                return true;
            }
            i = i + 1;
        }
        self.overlay.node_property_might_match(property, op, value)
    }

    fn edge_property_might_match(&self, property: &str, op: CompareOp, value: &Value) -> (r: bool) {
        let ghost f = edge_may_match_in::<T>(property@, op, value::whole(*value));
        let mut i: usize = 0;
        while i < self.tiers.len()
            invariant
                i <= self.tiers@.len(),
                f == edge_may_match_in::<T>(property@, op, value::whole(*value)),
                forall|k: int| 0 <= k < i ==> !f(#[trigger] self.tiers@[k]),
            decreases self.tiers@.len() - i,
        {
            if self.tiers[i].edge_property_might_match(property, op, value) {
                assert(f(self.tiers@[i as int]));
                return true;
            }
            i = i + 1;
        }
        self.overlay.edge_property_might_match(property, op, value)
    }

    fn current_epoch(&self) -> (r: u64) {
        self.overlay.current_epoch()
    }

    fn all_labels(&self) -> (r: Vec<String>) {
        let ghost f = labels_in::<T>();
        let mut names = TextCollector::new();
        let mut i: usize = 0;
        while i < self.tiers.len()
            invariant
                i <= self.tiers@.len(),
                f == labels_in::<T>(),
                names@ == intern::gather(Seq::empty(), joined_lists(self.tiers@, f, i as int)),
            decreases self.tiers@.len() - i,
        {
            let part: Vec<String> = self.tiers[i].all_labels();
            names.intern_all(&part);
            proof {
                intern::lemma_gather_add(
                    Seq::empty(),
                    joined_lists(self.tiers@, f, i as int),
                    f(self.tiers@[i as int]),
                );
            }
            i = i + 1;
        }
        let part: Vec<String> = self.overlay.all_labels();
        names.intern_all(&part);
        proof {
            intern::lemma_gather_add(
                Seq::empty(),
                joined_lists(self.tiers@, f, self.tiers@.len() as int),
                text::texts(part@),
            );
        }
        names.finish()
    }

    fn all_edge_types(&self) -> (r: Vec<String>) {
        let ghost f = types_in::<T>();
        let mut names = TextCollector::new();
        let mut i: usize = 0;
        while i < self.tiers.len()
            invariant
                i <= self.tiers@.len(),
                f == types_in::<T>(),
                names@ == intern::gather(Seq::empty(), joined_lists(self.tiers@, f, i as int)),
            decreases self.tiers@.len() - i,
        {
            let part: Vec<String> = self.tiers[i].all_edge_types();
            names.intern_all(&part);
            proof {
                intern::lemma_gather_add(
                    Seq::empty(),
                    joined_lists(self.tiers@, f, i as int),
                    f(self.tiers@[i as int]),
                );
            }
            i = i + 1;
        }
        let part: Vec<String> = self.overlay.all_edge_types();
        names.intern_all(&part);
        proof {
            intern::lemma_gather_add(
                Seq::empty(),
                joined_lists(self.tiers@, f, self.tiers@.len() as int),
                text::texts(part@),
            );
        }
        names.finish()
    }

    fn all_property_keys(&self) -> (r: Vec<String>) {
        let ghost f = keys_in::<T>();
        let mut names = TextCollector::new();
        let mut i: usize = 0;
        while i < self.tiers.len()
            invariant
                i <= self.tiers@.len(),
                f == keys_in::<T>(),
                names@ == intern::gather(Seq::empty(), joined_lists(self.tiers@, f, i as int)),
            decreases self.tiers@.len() - i,
        {
            let part: Vec<String> = self.tiers[i].all_property_keys();
            names.intern_all(&part);
            proof {
                intern::lemma_gather_add(
                    Seq::empty(),
                    joined_lists(self.tiers@, f, i as int),
                    f(self.tiers@[i as int]),
                );
            }
            i = i + 1;
        }
        let part: Vec<String> = self.overlay.all_property_keys();
        names.intern_all(&part);
        proof {
            intern::lemma_gather_add(
                Seq::empty(),
                joined_lists(self.tiers@, f, self.tiers@.len() as int),
                text::texts(part@),
            );
        }
        names.finish()
    }

    fn is_node_visible_at_epoch(&self, id: NodeId, epoch: u64) -> (r: bool) {
        if let Some(i) = self.tier_for_node(id) {
            if self.tiers[i].is_node_visible_at_epoch(id, epoch) {
                return true;
            }
        }
        self.overlay.is_node_visible_at_epoch(id, epoch)
    }

    fn is_node_visible_versioned(&self, id: NodeId, epoch: u64, transaction_id: u64) -> (r: bool) {
        if let Some(i) = self.tier_for_node(id) {
            if self.tiers[i].is_node_visible_versioned(id, epoch, transaction_id) {
                return true;
            }
        }
        self.overlay.is_node_visible_versioned(id, epoch, transaction_id)
    }

    fn is_edge_visible_at_epoch(&self, id: EdgeId, epoch: u64) -> (r: bool) {
        if let Some(i) = self.tier_for_edge(id) {
            if self.tiers[i].is_edge_visible_at_epoch(id, epoch) {
                return true;
            }
        }
        self.overlay.is_edge_visible_at_epoch(id, epoch)
    }

    fn is_edge_visible_versioned(&self, id: EdgeId, epoch: u64, transaction_id: u64) -> (r: bool) {
        if let Some(i) = self.tier_for_edge(id) {
            if self.tiers[i].is_edge_visible_versioned(id, epoch, transaction_id) {
                return true;
            }
        }
        self.overlay.is_edge_visible_versioned(id, epoch, transaction_id)
    }
}

// ------------------------------------------------------------------- laws

/// Of ascending ranges at most one covers an id.
pub proof fn lemma_one_tier_covers(v: Seq<(u64, u64)>, id: u64, i: int, j: int)
    requires
        ranges_ascend(v),
        0 <= i < v.len(),
        0 <= j < v.len(),
        covers(v[i], id),
        covers(v[j], id),
    ensures
        i == j,
{
}

/// The search by halves ends at a range that covers the id.
pub proof fn lemma_searched_covers(v: Seq<(u64, u64)>, id: u64, lo: int, hi: int)
    requires
        0 <= lo <= hi <= v.len(),
    ensures
        searched(v, id, lo, hi) matches Some(i) ==> lo <= i < hi && covers(v[i], id),
    decreases hi - lo,
{
    if lo < hi {
        let mid = (lo + hi) / 2;
        lemma_searched_covers(v, id, lo, mid);
        lemma_searched_covers(v, id, mid + 1, hi);
    }
}

/// Where the ranges of the tiers ascend, the search by halves finds the one
/// that covers an id.
pub proof fn lemma_search_finds(v: Seq<(u64, u64)>, id: u64, lo: int, hi: int, i: int)
    requires
        ranges_ascend(v),
        0 <= lo <= i < hi <= v.len(),
        covers(v[i], id),
    ensures
        searched(v, id, lo, hi) == Some(i),
    decreases hi - lo,
{
    let mid = (lo + hi) / 2;
    if id < v[mid].0 {
        if mid < i {
            assert(v[mid].1 < v[i].0);
            assert(v[mid].0 <= v[mid].1);
        }
        lemma_search_finds(v, id, lo, mid, i);
    } else if id > v[mid].1 {
        if i < mid {
            assert(v[i].1 < v[mid].0);
            assert(v[mid].0 <= v[mid].1);
        }
        lemma_search_finds(v, id, mid + 1, hi, i);
    } else {
        lemma_one_tier_covers(v, id, i, mid);
    }
}

/// A node that a tier holds is read from that tier, where the ranges of the
/// tiers ascend.
pub proof fn lemma_node_is_read_from_its_tier<T: GraphStore, O: GraphStore>(
    c: TierChainView<T, O>,
    i: int,
    id: NodeId,
    at: Moment,
)
    requires
        ranges_ascend(tier_ranges_of(c.chain())),
        0 <= i < c.chain().len(),
        covers(node_range(c.chain()[i].content().ids), id.0),
        (c.chain()[i].content().node_of)(id, at) is Some,
    ensures
        (c.content().node_of)(id, at) == (c.chain()[i].content().node_of)(id, at),
{
    let v = tier_ranges_of(c.chain());
    assert(v[i] == node_range(c.chain()[i].content().ids));
    lemma_search_finds(v, id.0, 0, v.len() as int, i);
}

/// A node that no tier covers is read from the overlay.
pub proof fn lemma_newer_node_is_read_from_the_overlay<T: GraphStore, O: GraphStore>(
    c: TierChainView<T, O>,
    id: NodeId,
    at: Moment,
)
    requires
        forall|i: int|
            0 <= i < c.chain().len() ==> !covers(
                node_range((#[trigger] c.chain()[i]).content().ids),
                id.0,
            ),
    ensures
        (c.content().node_of)(id, at) == (c.top().content().node_of)(id, at),
        (c.content().node_visible)(id, at) == (c.top().content().node_visible)(id, at),
        forall|key: Seq<char>| #[trigger]
            (c.content().node_value)(id, key) == (c.top().content().node_value)(id, key),
{
    let v = tier_ranges_of(c.chain());
    lemma_searched_covers(v, id.0, 0, v.len() as int);
    if let Some(i) = searched(v, id.0, 0, v.len() as int) {
        assert(v[i] == node_range(c.chain()[i].content().ids));
        assert(!covers(node_range(c.chain()[i].content().ids), id.0));
    }
}

/// A store without edges.
pub open spec fn edgeless<T: GraphStore>(t: T) -> bool {
    &&& t.content().edges_total == 0
    &&& forall|node: NodeId, d: Direction|
        #![trigger (t.content().links)(node, d)]
        #![trigger (t.content().adjacent)(node, d)]
        (t.content().links)(node, d).len() == 0 && (t.content().adjacent)(node, d).len() == 0
    &&& forall|node: NodeId| #[trigger] (t.content().leaving)(node) == 0
    &&& forall|node: NodeId| #[trigger] (t.content().reaching)(node) == 0
}

proof fn lemma_edgeless_range<T: GraphStore>(t: T, n: int)
    requires
        edgeless(t),
    ensures
        edge_range(t, n) == (u64::MAX, 0u64),
    decreases n,
{
    if n > 0 {
        lemma_edgeless_range(t, n - 1);
        assert((t.content().links)(t.content().ids[n - 1], Direction::Outgoing).len() == 0);
    }
}

proof fn lemma_edgeless_tier<T: GraphStore>(tiers: Seq<T>, id: EdgeId, k: int)
    requires
        0 <= k,
        forall|i: int| 0 <= i < tiers.len() ==> edgeless(#[trigger] tiers[i]),
    ensures
        edge_tier_from(tiers, id, k) is None,
    decreases tiers.len() - k,
{
    if k < tiers.len() {
        lemma_edgeless_range(tiers[k], tiers[k].content().ids.len() as int);
        lemma_edgeless_tier(tiers, id, k + 1);
    }
}

proof fn lemma_empty_lists<T, A>(tiers: Seq<T>, f: spec_fn(T) -> Seq<A>, n: int)
    requires
        n <= tiers.len(),
        forall|i: int| 0 <= i < tiers.len() ==> f(#[trigger] tiers[i]).len() == 0,
    ensures
        joined_lists(tiers, f, n) == Seq::<A>::empty(),
    decreases n,
{
    if n > 0 {
        lemma_empty_lists(tiers, f, n - 1);
        assert(f(tiers[n - 1]) =~= Seq::<A>::empty());
    }
}

proof fn lemma_zero_sum<T>(tiers: Seq<T>, f: spec_fn(T) -> nat, n: int)
    requires
        n <= tiers.len(),
        forall|i: int| 0 <= i < tiers.len() ==> f(#[trigger] tiers[i]) == 0,
    ensures
        summed(tiers, f, n) == 0,
    decreases n,
{
    if n > 0 {
        lemma_zero_sum(tiers, f, n - 1);
    }
}

/// While the tiers hold no edges, everything about edges is what the overlay
/// says.
pub proof fn lemma_edges_are_the_overlays<T: GraphStore, O: GraphStore>(
    c: TierChainView<T, O>,
    id: EdgeId,
    node: NodeId,
    direction: Direction,
    at: Moment,
)
    requires
        forall|i: int| 0 <= i < c.chain().len() ==> edgeless(#[trigger] c.chain()[i]),
    ensures
        (c.content().edge_of)(id, at) == (c.top().content().edge_of)(id, at),
        (c.content().edge_visible)(id, at) == (c.top().content().edge_visible)(id, at),
        (c.content().type_of)(id) == (c.top().content().type_of)(id),
        (c.content().adjacent)(node, direction) == (c.top().content().adjacent)(node, direction),
        (c.content().links)(node, direction) == (c.top().content().links)(node, direction),
        (c.content().leaving)(node) == (c.top().content().leaving)(node),
        (c.content().reaching)(node) == (c.top().content().reaching)(node),
        c.content().edges_total == c.top().content().edges_total,
{
    let v = c.chain();
    let n = v.len() as int;
    lemma_edgeless_tier(v, id, 0);
    lemma_empty_lists(v, adjacent_in::<T>(node, direction), n);
    lemma_empty_lists(v, links_in::<T>(node, direction), n);
    lemma_zero_sum(v, leaving_in::<T>(node), n);
    lemma_zero_sum(v, reaching_in::<T>(node), n);
    lemma_zero_sum(v, edges_total_in::<T>(), n);
    assert(Seq::<NodeId>::empty() + (c.top().content().adjacent)(node, direction) =~= (c.top().content().adjacent)(
        node,
        direction,
    ));
    assert(Seq::<(NodeId, EdgeId)>::empty() + (c.top().content().links)(node, direction) =~= (c.top().content().links)(
        node,
        direction,
    ));
}

/// A chain counts as many nodes as it lists, where its tiers and its overlay
/// do.
pub proof fn lemma_count_is_listing<T: GraphStore, O: GraphStore>(c: TierChainView<T, O>)
    requires
        forall|i: int|
            0 <= i < c.chain().len() ==> (#[trigger] c.chain()[i]).content().nodes_total
                == c.chain()[i].content().ids.len(),
        c.top().content().nodes_total == c.top().content().ids.len(),
    ensures
        c.content().nodes_total == c.content().ids.len(),
{
    lemma_joined_len(c.chain(), c.chain().len() as int);
}

proof fn lemma_joined_len<T: GraphStore>(tiers: Seq<T>, n: int)
    requires
        0 <= n <= tiers.len(),
        forall|i: int|
            0 <= i < tiers.len() ==> (#[trigger] tiers[i]).content().nodes_total == tiers[i].content().ids.len(),
    ensures
        joined_lists(tiers, ids_in::<T>(), n).len() == summed(tiers, nodes_total_in::<T>(), n),
    decreases n,
{
    if n > 0 {
        lemma_joined_len(tiers, n - 1);
        assert(tiers[n - 1].content().nodes_total == tiers[n - 1].content().ids.len());
    }
}

/// Ids ascend strictly.
pub open spec fn ids_ascend(v: Seq<NodeId>) -> bool {
    forall|i: int, j: int| 0 <= i < j < v.len() ==> (#[trigger] v[i]).0 < (#[trigger] v[j]).0
}

/// Tiers that list their nodes in ascending order, over ascending ranges, list
/// them in ascending order together: no node is listed twice.
pub proof fn lemma_listing_ascends<T: GraphStore>(tiers: Seq<T>, n: int)
    requires
        0 <= n <= tiers.len(),
        ranges_ascend(tier_ranges_of(tiers)),
        forall|i: int| 0 <= i < tiers.len() ==> ids_ascend((#[trigger] tiers[i]).content().ids),
    ensures
        ids_ascend(joined_lists(tiers, ids_in::<T>(), n)),
        forall|k: int|
            0 <= k < joined_lists(tiers, ids_in::<T>(), n).len() ==> n > 0
                && (#[trigger] joined_lists(tiers, ids_in::<T>(), n)[k]).0 <= node_range(
                tiers[n - 1].content().ids,
            ).1,
    decreases n,
{
    if n > 0 {
        let ranges = tier_ranges_of(tiers);
        let before = joined_lists(tiers, ids_in::<T>(), n - 1);
        let own = tiers[n - 1].content().ids;
        let all = joined_lists(tiers, ids_in::<T>(), n);
        lemma_listing_ascends(tiers, n - 1);
        assert(ids_ascend(own));
        assert(ranges[n - 1] == node_range(own));
        assert(all == before + own);
        assert forall|k: int| 0 <= k < before.len() implies before[k].0 < node_range(own).0 by {
            assert(ranges[n - 2] == node_range(tiers[n - 2].content().ids));
            assert(ranges[n - 2].1 < ranges[n - 1].0);
        }
        assert forall|k: int| 0 <= k < own.len() implies node_range(own).0 <= (#[trigger] own[k]).0
            <= node_range(own).1 by {
            if k > 0 {
                assert(own[0].0 < own[k].0);
            }
            if k < own.len() - 1 {
                assert(own[k].0 < own[own.len() - 1].0);
            }
        }
        assert(node_range(own).0 <= node_range(own).1);
        assert forall|i: int, j: int| 0 <= i < j < all.len() implies (#[trigger] all[i]).0
            < (#[trigger] all[j]).0 by {
            if j < before.len() {
                assert(all[i] == before[i] && all[j] == before[j]);
            } else if i < before.len() {
                assert(all[i] == before[i] && all[j] == own[j - before.len()]);
            } else {
                assert(all[i] == own[i - before.len()] && all[j] == own[j - before.len()]);
            }
        }
        assert forall|k: int| 0 <= k < all.len() implies (#[trigger] all[k]).0 <= node_range(
            own,
        ).1 by {
            if k < before.len() {
                assert(all[k] == before[k]);
            } else {
                assert(all[k] == own[k - before.len()]);
            }
        }
    }
}

/// Every name of a chain is listed once.
pub proof fn lemma_names_listed_once<T: GraphStore, O: GraphStore>(c: TierChainView<T, O>)
    ensures
        c.content().labels_known.no_duplicates(),
        c.content().types_known.no_duplicates(),
        c.content().keys_known.no_duplicates(),
{
    intern::lemma_gather(
        Seq::empty(),
        chain_list(c.chain(), labels_in::<T>(), c.top().content().labels_known),
    );
    intern::lemma_gather(Seq::empty(), chain_list(c.chain(), types_in::<T>(), c.top().content().types_known));
    intern::lemma_gather(Seq::empty(), chain_list(c.chain(), keys_in::<T>(), c.top().content().keys_known));
}

} // verus!
