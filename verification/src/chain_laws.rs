//! What a chain of tiers answers, told by what its tiers and its overlay
//! answer.

use crate::graph_store::{CompareOp, Direction, GraphStore, Moment};
use crate::intern;
use crate::tier_chain::TierChainView;
use crate::tier_chain;
use crate::types::{EdgeId, NodeId};
use crate::value::WholeValue;
use vstd::prelude::*;

verus! {

// ------------------------------------------------------------------ listings

/// A piece of a list stands between two places.
pub open spec fn stands_at<A>(list: Seq<A>, from: int, to: int, piece: Seq<A>) -> bool {
    &&& 0 <= from
    &&& from <= to
    &&& to <= list.len()
    &&& list.subrange(from, to) == piece
}

/// A list is made of pieces, one behind the other, and a rest.
pub open spec fn is_cut<A>(list: Seq<A>, cuts: Seq<int>, pieces: Seq<Seq<A>>, rest: Seq<A>) -> bool {
    &&& cuts.len() == pieces.len() + 1
    &&& cuts[0] == 0
    &&& forall|i: int| #![trigger pieces[i]]
        0 <= i < pieces.len() ==> stands_at(list, cuts[i], cuts[i + 1], pieces[i])
    &&& stands_at(list, cuts[pieces.len() as int], list.len() as int, rest)
}

/// A list holds all pieces and a rest, in order, and nothing else.
pub open spec fn strings_together<A>(list: Seq<A>, pieces: Seq<Seq<A>>, rest: Seq<A>) -> bool {
    exists|cuts: Seq<int>| #[trigger] is_cut(list, cuts, pieces, rest)
}

/// Partial sums of some counts, up to a total.
pub open spec fn are_sums(sums: Seq<nat>, counts: Seq<nat>) -> bool {
    &&& sums.len() == counts.len() + 1
    &&& sums[0] == 0
    &&& forall|i: int| #![trigger counts[i]]
        0 <= i < counts.len() ==> sums[i + 1] == sums[i] + counts[i]
}

/// A total is that of some counts and one more.
pub open spec fn adds_up(total: nat, counts: Seq<nat>, last: nat) -> bool {
    exists|sums: Seq<nat>| #[trigger]
        are_sums(sums, counts) && total == sums[counts.len() as int] + last
}

proof fn lemma_joined_is_cut<T, A>(
    tiers: Seq<T>,
    f: spec_fn(T) -> Seq<A>,
    pieces: Seq<Seq<A>>,
    n: int,
) -> (cuts: Seq<int>)
    requires
        0 <= n <= tiers.len(),
        pieces.len() == n,
        forall|i: int| 0 <= i < n ==> #[trigger] pieces[i] == f(tiers[i]),
    ensures
        is_cut(tier_chain::joined_lists(tiers, f, n), cuts, pieces, Seq::empty()),
        cuts[n] == tier_chain::joined_lists(tiers, f, n).len(),
    decreases n,
{
    let list = tier_chain::joined_lists(tiers, f, n);
    if n == 0 {
        let cuts = seq![0int];
        assert(list.subrange(0, 0) =~= Seq::<A>::empty());
        cuts
    } else {
        let before = tier_chain::joined_lists(tiers, f, n - 1);
        let short = pieces.drop_last();
        assert forall|i: int| 0 <= i < n - 1 implies #[trigger] short[i] == f(tiers[i]) by {
            assert(short[i] == pieces[i]);
        }
        let c = lemma_joined_is_cut(tiers, f, short, n - 1);
        let cuts = c.push(list.len() as int);
        assert forall|i: int| #![trigger pieces[i]] 0 <= i < pieces.len() implies stands_at(
            list,
            cuts[i],
            cuts[i + 1],
            pieces[i],
        ) by {
            if i < n - 1 {
                assert(short[i] == pieces[i]);
                assert(list.subrange(c[i], c[i + 1]) =~= before.subrange(c[i], c[i + 1]));
            } else {
                assert(list.subrange(before.len() as int, list.len() as int) =~= f(tiers[n - 1]));
            }
        }
        assert(list.subrange(list.len() as int, list.len() as int) =~= Seq::<A>::empty());
        cuts
    }
}

proof fn lemma_chain_list<T, A>(
    tiers: Seq<T>,
    f: spec_fn(T) -> Seq<A>,
    top: Seq<A>,
    pieces: Seq<Seq<A>>,
)
    requires
        pieces == Seq::new(tiers.len(), |i: int| f(tiers[i])),
    ensures
        strings_together(tier_chain::chain_list(tiers, f, top), pieces, top),
{
    let n = tiers.len() as int;
    let list = tier_chain::chain_list(tiers, f, top);
    let before = tier_chain::joined_lists(tiers, f, n);
    let cuts = lemma_joined_is_cut(tiers, f, pieces, n);
    assert forall|i: int| #![trigger pieces[i]] 0 <= i < pieces.len() implies stands_at(
        list,
        cuts[i],
        cuts[i + 1],
        pieces[i],
    ) by {
        assert(pieces[i] == f(tiers[i]));
        assert(before.subrange(cuts[i], cuts[i + 1]) == pieces[i]);
        assert(list.subrange(cuts[i], cuts[i + 1]) =~= before.subrange(cuts[i], cuts[i + 1]));
    }
    assert(list.subrange(cuts[n], list.len() as int) =~= top);
    assert(is_cut(list, cuts, pieces, top));
}

proof fn lemma_chain_total<T>(tiers: Seq<T>, f: spec_fn(T) -> nat, top: nat, counts: Seq<nat>)
    requires
        counts == Seq::new(tiers.len(), |i: int| f(tiers[i])),
    ensures
        adds_up(tier_chain::chain_total(tiers, f, top), counts, top),
{
    let sums = Seq::new(tiers.len() + 1, |i: int| tier_chain::summed(tiers, f, i));
    assert(are_sums(sums, counts));
    assert(sums[counts.len() as int] == tier_chain::summed(tiers, f, tiers.len() as int));
}

/// What stands in a list that strings pieces and a rest together stands in a
/// piece or in the rest, and the other way round.
pub proof fn lemma_strung_members<A>(list: Seq<A>, pieces: Seq<Seq<A>>, rest: Seq<A>, x: A)
    requires
        strings_together(list, pieces, rest),
    ensures
        list.contains(x) <==> rest.contains(x) || exists|i: int|
            0 <= i < pieces.len() && (#[trigger] pieces[i]).contains(x),
{
    let cuts = choose|cuts: Seq<int>| #[trigger] is_cut(list, cuts, pieces, rest);
    let n = pieces.len() as int;
    if rest.contains(x) {
        let k = choose|k: int| 0 <= k < rest.len() && rest[k] == x;
        assert(list.subrange(cuts[n], list.len() as int)[k] == x);
        assert(list[cuts[n] + k] == x);
    }
    if exists|i: int| 0 <= i < pieces.len() && (#[trigger] pieces[i]).contains(x) {
        let i = choose|i: int| 0 <= i < pieces.len() && (#[trigger] pieces[i]).contains(x);
        let k = choose|k: int| 0 <= k < pieces[i].len() && pieces[i][k] == x;
        assert(list.subrange(cuts[i], cuts[i + 1])[k] == x);
        assert(list[cuts[i] + k] == x);
    }
    if list.contains(x) {
        let k = choose|k: int| 0 <= k < list.len() && list[k] == x;
        lemma_strung_place(list, cuts, pieces, rest, k, n);
    }
}

proof fn lemma_strung_place<A>(
    list: Seq<A>,
    cuts: Seq<int>,
    pieces: Seq<Seq<A>>,
    rest: Seq<A>,
    k: int,
    n: int,
)
    requires
        is_cut(list, cuts, pieces, rest),
        0 <= k < list.len(),
        0 <= n <= pieces.len(),
        n < pieces.len() ==> k < cuts[n],
    ensures
        rest.contains(list[k]) || exists|i: int|
            0 <= i < pieces.len() && (#[trigger] pieces[i]).contains(list[k]),
    decreases n,
{
    if n == pieces.len() && k >= cuts[n] {
        assert(list.subrange(cuts[n], list.len() as int)[k - cuts[n]] == list[k]);
        assert(rest[k - cuts[n]] == list[k]);
    } else {
        if n == 0 {
            assert(cuts[0] == 0);
        } else {
            let p = pieces[n - 1];
            if k >= cuts[n - 1] {
                assert(list.subrange(cuts[n - 1], cuts[n])[k - cuts[n - 1]] == list[k]);
                assert(p[k - cuts[n - 1]] == list[k]);
                assert(pieces[n - 1].contains(list[k]));
            } else {
                lemma_strung_place(list, cuts, pieces, rest, k, n - 1);
            }
        }
    }
}

/// The neighbours of a node in a chain are those in its tiers, tier by tier,
/// and then those in the overlay: none is left out, none added, none moved. So
/// are its links, and it has as many edges as all of them together.
pub proof fn lemma_chain_adjacency<T: GraphStore, O: GraphStore>(
    c: TierChainView<T, O>,
    node: NodeId,
    direction: Direction,
)
    ensures
        strings_together(
            (c.content().adjacent)(node, direction),
            Seq::new(
                c.chain().len(),
                |i: int| (c.chain()[i].content().adjacent)(node, direction),
            ),
            (c.top().content().adjacent)(node, direction),
        ),
        strings_together(
            (c.content().links)(node, direction),
            Seq::new(c.chain().len(), |i: int| (c.chain()[i].content().links)(node, direction)),
            (c.top().content().links)(node, direction),
        ),
        adds_up(
            (c.content().leaving)(node),
            Seq::new(c.chain().len(), |i: int| (c.chain()[i].content().leaving)(node)),
            (c.top().content().leaving)(node),
        ),
        adds_up(
            (c.content().reaching)(node),
            Seq::new(c.chain().len(), |i: int| (c.chain()[i].content().reaching)(node)),
            (c.top().content().reaching)(node),
        ),
        adds_up(
            c.content().edges_total,
            Seq::new(c.chain().len(), |i: int| c.chain()[i].content().edges_total),
            c.top().content().edges_total,
        ),
{
    let v = c.chain();
    let n = v.len();
    let top = c.top().content();
    let a = Seq::new(n, |i: int| (v[i].content().adjacent)(node, direction));
    assert(a =~= Seq::new(n, |i: int| tier_chain::adjacent_in::<T>(node, direction)(v[i])));
    lemma_chain_list(v, tier_chain::adjacent_in::<T>(node, direction), (top.adjacent)(node, direction), a);
    let l = Seq::new(n, |i: int| (v[i].content().links)(node, direction));
    assert(l =~= Seq::new(n, |i: int| tier_chain::links_in::<T>(node, direction)(v[i])));
    lemma_chain_list(v, tier_chain::links_in::<T>(node, direction), (top.links)(node, direction), l);
    let out = Seq::new(n, |i: int| (v[i].content().leaving)(node));
    assert(out =~= Seq::new(n, |i: int| tier_chain::leaving_in::<T>(node)(v[i])));
    lemma_chain_total(v, tier_chain::leaving_in::<T>(node), (top.leaving)(node), out);
    let back = Seq::new(n, |i: int| (v[i].content().reaching)(node));
    assert(back =~= Seq::new(n, |i: int| tier_chain::reaching_in::<T>(node)(v[i])));
    lemma_chain_total(v, tier_chain::reaching_in::<T>(node), (top.reaching)(node), back);
    let total = Seq::new(n, |i: int| v[i].content().edges_total);
    assert(total =~= Seq::new(n, |i: int| tier_chain::edges_total_in::<T>()(v[i])));
    lemma_chain_total(v, tier_chain::edges_total_in::<T>(), top.edges_total, total);
}

/// The nodes of a chain are those of its tiers, tier by tier, and then those of
/// the overlay, also where only those with a label are asked for; they are
/// counted likewise.
pub proof fn lemma_chain_nodes<T: GraphStore, O: GraphStore>(
    c: TierChainView<T, O>,
    label: Seq<char>,
)
    ensures
        strings_together(
            c.content().ids,
            Seq::new(c.chain().len(), |i: int| c.chain()[i].content().ids),
            c.top().content().ids,
        ),
        strings_together(
            (c.content().labelled)(label),
            Seq::new(c.chain().len(), |i: int| (c.chain()[i].content().labelled)(label)),
            (c.top().content().labelled)(label),
        ),
        adds_up(
            (c.content().labelled_total)(label),
            Seq::new(c.chain().len(), |i: int| (c.chain()[i].content().labelled_total)(label)),
            (c.top().content().labelled_total)(label),
        ),
        adds_up(
            c.content().nodes_total,
            Seq::new(c.chain().len(), |i: int| c.chain()[i].content().nodes_total),
            c.top().content().nodes_total,
        ),
{
    let v = c.chain();
    let n = v.len();
    let top = c.top().content();
    let a = Seq::new(n, |i: int| v[i].content().ids);
    assert(a =~= Seq::new(n, |i: int| tier_chain::ids_in::<T>()(v[i])));
    lemma_chain_list(v, tier_chain::ids_in::<T>(), top.ids, a);
    let l = Seq::new(n, |i: int| (v[i].content().labelled)(label));
    assert(l =~= Seq::new(n, |i: int| tier_chain::labelled_in::<T>(label)(v[i])));
    lemma_chain_list(v, tier_chain::labelled_in::<T>(label), (top.labelled)(label), l);
    let t = Seq::new(n, |i: int| (v[i].content().labelled_total)(label));
    assert(t =~= Seq::new(n, |i: int| tier_chain::labelled_total_in::<T>(label)(v[i])));
    lemma_chain_total(v, tier_chain::labelled_total_in::<T>(label), (top.labelled_total)(label), t);
    let w = Seq::new(n, |i: int| v[i].content().nodes_total);
    assert(w =~= Seq::new(n, |i: int| tier_chain::nodes_total_in::<T>()(v[i])));
    lemma_chain_total(v, tier_chain::nodes_total_in::<T>(), top.nodes_total, w);
}

/// What a chain finds by values is what its tiers find, tier by tier, and then
/// what the overlay finds.
pub proof fn lemma_chain_searches<T: GraphStore, O: GraphStore>(
    c: TierChainView<T, O>,
    property: Seq<char>,
    value: WholeValue,
    conditions: Seq<(Seq<char>, WholeValue)>,
    min: Option<WholeValue>,
    max: Option<WholeValue>,
    low: bool,
    high: bool,
)
    ensures
        strings_together(
            (c.content().found)(property, value),
            Seq::new(c.chain().len(), |i: int| (c.chain()[i].content().found)(property, value)),
            (c.top().content().found)(property, value),
        ),
        strings_together(
            (c.content().found_all)(conditions),
            Seq::new(c.chain().len(), |i: int| (c.chain()[i].content().found_all)(conditions)),
            (c.top().content().found_all)(conditions),
        ),
        strings_together(
            (c.content().found_between)(property, min, max, low, high),
            Seq::new(
                c.chain().len(),
                |i: int| (c.chain()[i].content().found_between)(property, min, max, low, high),
            ),
            (c.top().content().found_between)(property, min, max, low, high),
        ),
{
    let v = c.chain();
    let n = v.len();
    let top = c.top().content();
    let a = Seq::new(n, |i: int| (v[i].content().found)(property, value));
    assert(a =~= Seq::new(n, |i: int| tier_chain::found_in::<T>(property, value)(v[i])));
    lemma_chain_list(v, tier_chain::found_in::<T>(property, value), (top.found)(property, value), a);
    let b = Seq::new(n, |i: int| (v[i].content().found_all)(conditions));
    assert(b =~= Seq::new(n, |i: int| tier_chain::found_all_in::<T>(conditions)(v[i])));
    lemma_chain_list(v, tier_chain::found_all_in::<T>(conditions), (top.found_all)(conditions), b);
    let d = Seq::new(n, |i: int| (v[i].content().found_between)(property, min, max, low, high));
    assert(d =~= Seq::new(
        n,
        |i: int| tier_chain::found_between_in::<T>(property, min, max, low, high)(v[i]),
    ));
    lemma_chain_list(
        v,
        tier_chain::found_between_in::<T>(property, min, max, low, high),
        (top.found_between)(property, min, max, low, high),
        d,
    );
}

/// A value may be found in a chain exactly where a tier or the overlay may hold
/// it; the epoch and whether edges can be followed backwards are the overlay's.
pub proof fn lemma_chain_may_match<T: GraphStore, O: GraphStore>(
    c: TierChainView<T, O>,
    property: Seq<char>,
    op: CompareOp,
    value: WholeValue,
)
    ensures
        (c.content().node_may_match)(property, op, value) <==> (c.top().content().node_may_match)(
            property,
            op,
            value,
        ) || exists|i: int|
            0 <= i < c.chain().len() && ((#[trigger] c.chain()[i]).content().node_may_match)(
                property,
                op,
                value,
            ),
        (c.content().edge_may_match)(property, op, value) <==> (c.top().content().edge_may_match)(
            property,
            op,
            value,
        ) || exists|i: int|
            0 <= i < c.chain().len() && ((#[trigger] c.chain()[i]).content().edge_may_match)(
                property,
                op,
                value,
            ),
        c.content().epoch_now == c.top().content().epoch_now,
        c.content().backward == c.top().content().backward,
{
    let v = c.chain();
    if exists|i: int|
        0 <= i < c.chain().len() && ((#[trigger] c.chain()[i]).content().node_may_match)(
            property,
            op,
            value,
        ) {
        let i = choose|i: int|
            0 <= i < c.chain().len() && ((#[trigger] c.chain()[i]).content().node_may_match)(
                property,
                op,
                value,
            );
        assert(tier_chain::node_may_match_in::<T>(property, op, value)(v[i]));
    }
    if tier_chain::any_tier(v, tier_chain::node_may_match_in::<T>(property, op, value)) {
        let i = choose|i: int|
            0 <= i < v.len() && tier_chain::node_may_match_in::<T>(property, op, value)(#[trigger] v[i]);
        assert((c.chain()[i].content().node_may_match)(property, op, value));
    }
    if exists|i: int|
        0 <= i < c.chain().len() && ((#[trigger] c.chain()[i]).content().edge_may_match)(
            property,
            op,
            value,
        ) {
        let i = choose|i: int|
            0 <= i < c.chain().len() && ((#[trigger] c.chain()[i]).content().edge_may_match)(
                property,
                op,
                value,
            );
        assert(tier_chain::edge_may_match_in::<T>(property, op, value)(v[i]));
    }
    if tier_chain::any_tier(v, tier_chain::edge_may_match_in::<T>(property, op, value)) {
        let i = choose|i: int|
            0 <= i < v.len() && tier_chain::edge_may_match_in::<T>(property, op, value)(#[trigger] v[i]);
        assert((c.chain()[i].content().edge_may_match)(property, op, value));
    }
}

proof fn lemma_gathered_members<T>(
    v: Seq<T>,
    f: spec_fn(T) -> Seq<Seq<char>>,
    top: Seq<Seq<char>>,
    s: Seq<char>,
)
    ensures
        intern::gather(Seq::empty(), tier_chain::chain_list(v, f, top)).contains(s) <==> top.contains(s) || exists|
            i: int,
        |
            0 <= i < v.len() && f(#[trigger] v[i]).contains(s),
{
    let list = tier_chain::chain_list(v, f, top);
    let pieces = Seq::new(v.len(), |i: int| f(v[i]));
    intern::lemma_gather(Seq::empty(), list);
    lemma_chain_list(v, f, top, pieces);
    lemma_strung_members(list, pieces, top, s);
    if exists|i: int| 0 <= i < v.len() && f(#[trigger] v[i]).contains(s) {
        let i = choose|i: int| 0 <= i < v.len() && f(#[trigger] v[i]).contains(s);
        assert(pieces[i].contains(s));
    }
    if exists|i: int| 0 <= i < pieces.len() && (#[trigger] pieces[i]).contains(s) {
        let i = choose|i: int| 0 <= i < pieces.len() && (#[trigger] pieces[i]).contains(s);
        assert(f(v[i]).contains(s));
    }
}

/// A chain knows a label, an edge type or a property key exactly where a tier
/// or the overlay knows it.
pub proof fn lemma_chain_names<T: GraphStore, O: GraphStore>(c: TierChainView<T, O>, s: Seq<char>)
    ensures
        c.content().labels_known.contains(s) <==> c.top().content().labels_known.contains(s)
            || exists|i: int|
            0 <= i < c.chain().len() && (#[trigger] c.chain()[i]).content().labels_known.contains(s),
        c.content().types_known.contains(s) <==> c.top().content().types_known.contains(s)
            || exists|i: int|
            0 <= i < c.chain().len() && (#[trigger] c.chain()[i]).content().types_known.contains(s),
        c.content().keys_known.contains(s) <==> c.top().content().keys_known.contains(s) || exists|
            i: int,
        |
            0 <= i < c.chain().len() && (#[trigger] c.chain()[i]).content().keys_known.contains(s),
{
    let v = c.chain();
    let top = c.top().content();
    lemma_gathered_members(v, tier_chain::labels_in::<T>(), top.labels_known, s);
    lemma_gathered_members(v, tier_chain::types_in::<T>(), top.types_known, s);
    lemma_gathered_members(v, tier_chain::keys_in::<T>(), top.keys_known, s);
    assert forall|i: int| 0 <= i < v.len() implies tier_chain::labels_in::<T>()(#[trigger] v[i])
        == v[i].content().labels_known && tier_chain::types_in::<T>()(v[i]) == v[i].content().types_known
        && tier_chain::keys_in::<T>()(v[i]) == v[i].content().keys_known by {}
}

/// The nodes at the ends of links.
pub open spec fn ends(links: Seq<(NodeId, EdgeId)>) -> Seq<NodeId> {
    Seq::new(links.len(), |k: int| links[k].0)
}

proof fn lemma_joined_ends<T: GraphStore>(v: Seq<T>, node: NodeId, direction: Direction, n: int)
    requires
        0 <= n <= v.len(),
        forall|i: int|
            0 <= i < v.len() ==> ((#[trigger] v[i]).content().adjacent)(node, direction) == ends(
                (v[i].content().links)(node, direction),
            ),
    ensures
        tier_chain::joined_lists(v, tier_chain::adjacent_in::<T>(node, direction), n) == ends(
            tier_chain::joined_lists(v, tier_chain::links_in::<T>(node, direction), n),
        ),
    decreases n,
{
    let a = tier_chain::joined_lists(v, tier_chain::adjacent_in::<T>(node, direction), n);
    let l = tier_chain::joined_lists(v, tier_chain::links_in::<T>(node, direction), n);
    if n > 0 {
        lemma_joined_ends(v, node, direction, n - 1);
        assert(v[n - 1] == v[n - 1]);
        assert(a =~= ends(l));
    } else {
        assert(a =~= ends(l));
    }
}

proof fn lemma_joined_degree<T: GraphStore>(v: Seq<T>, node: NodeId, n: int)
    requires
        0 <= n <= v.len(),
        forall|i: int|
            0 <= i < v.len() ==> ((#[trigger] v[i]).content().leaving)(node) == (
            v[i].content().links)(node, Direction::Outgoing).len(),
        forall|i: int|
            0 <= i < v.len() ==> ((#[trigger] v[i]).content().reaching)(node) == (
            v[i].content().links)(node, Direction::Incoming).len(),
    ensures
        tier_chain::summed(v, tier_chain::leaving_in::<T>(node), n) == tier_chain::joined_lists(
            v,
            tier_chain::links_in::<T>(node, Direction::Outgoing),
            n,
        ).len(),
        tier_chain::summed(v, tier_chain::reaching_in::<T>(node), n) == tier_chain::joined_lists(
            v,
            tier_chain::links_in::<T>(node, Direction::Incoming),
            n,
        ).len(),
    decreases n,
{
    if n > 0 {
        lemma_joined_degree(v, node, n - 1);
        assert(v[n - 1] == v[n - 1]);
    }
}

/// The neighbours of a node are the ends of its links, and its degrees the
/// numbers of its links, in a chain whose tiers and overlay say so.
pub proof fn lemma_chain_is_consistent<T: GraphStore, O: GraphStore>(
    c: TierChainView<T, O>,
    node: NodeId,
    direction: Direction,
)
    ensures
        (forall|i: int|
            0 <= i < c.chain().len() ==> ((#[trigger] c.chain()[i]).content().adjacent)(
                node,
                direction,
            ) == ends((c.chain()[i].content().links)(node, direction))) && (
        c.top().content().adjacent)(node, direction) == ends(
            (c.top().content().links)(node, direction),
        ) ==> (c.content().adjacent)(node, direction) == ends(
            (c.content().links)(node, direction),
        ),
        (forall|i: int|
            0 <= i < c.chain().len() ==> ((#[trigger] c.chain()[i]).content().leaving)(node) == (
            c.chain()[i].content().links)(node, Direction::Outgoing).len() && (
            c.chain()[i].content().reaching)(node) == (c.chain()[i].content().links)(
                node,
                Direction::Incoming,
            ).len()) && (c.top().content().leaving)(node) == (c.top().content().links)(
            node,
            Direction::Outgoing,
        ).len() && (c.top().content().reaching)(node) == (c.top().content().links)(
            node,
            Direction::Incoming,
        ).len() ==> (c.content().leaving)(node) == (c.content().links)(
            node,
            Direction::Outgoing,
        ).len() && (c.content().reaching)(node) == (c.content().links)(
            node,
            Direction::Incoming,
        ).len(),
{
    let v = c.chain();
    let n = v.len() as int;
    if forall|i: int|
        0 <= i < v.len() ==> ((#[trigger] v[i]).content().adjacent)(node, direction) == ends(
            (v[i].content().links)(node, direction),
        ) {
        lemma_joined_ends(v, node, direction, n);
        if (c.top().content().adjacent)(node, direction) == ends(
            (c.top().content().links)(node, direction),
        ) {
            assert((c.content().adjacent)(node, direction) =~= ends(
                (c.content().links)(node, direction),
            ));
        }
    }
    if forall|i: int|
        0 <= i < v.len() ==> ((#[trigger] v[i]).content().leaving)(node) == (v[i].content().links)(
            node,
            Direction::Outgoing,
        ).len() && (v[i].content().reaching)(node) == (v[i].content().links)(
            node,
            Direction::Incoming,
        ).len() {
        lemma_joined_degree(v, node, n);
    }
}

// ------------------------------------------------------------------- lookups

/// An id lies between the first and the last node of a tier.
pub open spec fn spans<T: GraphStore>(t: T, id: NodeId) -> bool {
    let ids = t.content().ids;
    ids.len() > 0 && ids[0].0 <= id.0 <= ids[ids.len() - 1].0
}

/// Tiers list their nodes in ascending order and apart from each other; only
/// the last may have none.
pub open spec fn tiers_apart<T: GraphStore>(v: Seq<T>) -> bool {
    &&& forall|i: int, a: int, b: int|
        #![trigger v[i].content().ids[a], v[i].content().ids[b]]
        0 <= i < v.len() && 0 <= a < b < v[i].content().ids.len() ==> v[i].content().ids[a].0
            < v[i].content().ids[b].0
    &&& forall|i: int, j: int, a: int, b: int|
        #![trigger v[i].content().ids[a], v[j].content().ids[b]]
        0 <= i < j < v.len() && 0 <= a < v[i].content().ids.len() && 0 <= b
            < v[j].content().ids.len() ==> v[i].content().ids[a].0 < v[j].content().ids[b].0
    &&& forall|i: int| 0 <= i < v.len() - 1 ==> (#[trigger] v[i]).content().ids.len() > 0
}

proof fn lemma_apart_ranges<T: GraphStore>(v: Seq<T>)
    requires
        tiers_apart(v),
    ensures
        forall|i: int|
            0 <= i < v.len() ==> (#[trigger] tier_chain::tier_ranges_of(v)[i]).0 <= tier_chain::tier_ranges_of(v)[i].1,
        forall|i: int, j: int|
            0 <= i < j < v.len() && v[j].content().ids.len() > 0 ==> (#[trigger] tier_chain::tier_ranges_of(
                v,
            )[i]).1 < (#[trigger] tier_chain::tier_ranges_of(v)[j]).0,
{
    let r = tier_chain::tier_ranges_of(v);
    assert forall|i: int| 0 <= i < v.len() implies (#[trigger] r[i]).0 <= r[i].1 by {
        let ids = v[i].content().ids;
        if ids.len() > 1 {
            assert(v[i].content().ids[0].0 < v[i].content().ids[ids.len() - 1].0);
        }
    }
    assert forall|i: int, j: int|
        0 <= i < j < v.len() && v[j].content().ids.len() > 0 implies (#[trigger] r[i]).1 < (
    #[trigger] r[j]).0 by {
        let a = v[i].content().ids;
        assert(a.len() > 0);
        assert(v[i].content().ids[a.len() - 1].0 < v[j].content().ids[0].0);
    }
}

proof fn lemma_search_apart<T: GraphStore>(v: Seq<T>, id: NodeId, lo: int, hi: int, i: int)
    requires
        tiers_apart(v),
        0 <= lo <= i < hi <= v.len(),
        spans(v[i], id),
    ensures
        id.0 < u64::MAX || v[v.len() - 1].content().ids.len() > 0 ==> tier_chain::searched(
            tier_chain::tier_ranges_of(v),
            id.0,
            lo,
            hi,
        ) == Some(i),
    decreases hi - lo,
{
    let r = tier_chain::tier_ranges_of(v);
    let mid = (lo + hi) / 2;
    lemma_apart_ranges(v);
    assert(r[i] == (v[i].content().ids[0].0, v[i].content().ids[v[i].content().ids.len() - 1].0));
    if id.0 < u64::MAX || v[v.len() - 1].content().ids.len() > 0 {
        if mid < i {
            assert(r[mid].1 < r[i].0);
            assert(r[mid].0 <= r[mid].1);
            lemma_search_apart(v, id, mid + 1, hi, i);
        } else if i < mid {
            if v[mid].content().ids.len() > 0 {
                assert(r[i].1 < r[mid].0);
            } else {
                assert(r[mid] == (u64::MAX, u64::MAX));
            }
            assert(r[mid].0 <= r[mid].1);
            lemma_search_apart(v, id, lo, mid, i);
        }
    }
}

/// What a chain says of a node within the ids of a tier is what that tier says,
/// and where the tier has nothing, what the overlay says. An id beyond all
/// others, above a tier without nodes, is left to that tier.
pub proof fn lemma_node_is_asked_of_its_tier<T: GraphStore, O: GraphStore>(
    c: TierChainView<T, O>,
    i: int,
    id: NodeId,
    at: Moment,
    key: Seq<char>,
)
    requires
        tiers_apart(c.chain()),
        0 <= i < c.chain().len(),
        spans(c.chain()[i], id),
        id.0 < u64::MAX || c.chain()[c.chain().len() - 1].content().ids.len() > 0,
    ensures
        (c.content().node_of)(id, at) == (if (c.chain()[i].content().node_of)(id, at) is Some {
            (c.chain()[i].content().node_of)(id, at)
        } else {
            (c.top().content().node_of)(id, at)
        }),
        (c.content().node_value)(id, key) == (if (c.chain()[i].content().node_value)(
            id,
            key,
        ) is Some {
            (c.chain()[i].content().node_value)(id, key)
        } else {
            (c.top().content().node_value)(id, key)
        }),
        (c.content().node_visible)(id, at) == ((c.chain()[i].content().node_visible)(id, at) || (
        c.top().content().node_visible)(id, at)),
        tier_chain::node_tier(c.chain(), id) == Some(i),
{
    lemma_search_apart(c.chain(), id, 0, c.chain().len() as int, i);
}

/// What a chain says of a node outside the ids of all tiers is what the overlay
/// says.
pub proof fn lemma_other_node_is_asked_of_the_overlay<T: GraphStore, O: GraphStore>(
    c: TierChainView<T, O>,
    id: NodeId,
    at: Moment,
    key: Seq<char>,
)
    requires
        forall|i: int| 0 <= i < c.chain().len() ==> !spans(#[trigger] c.chain()[i], id),
        id.0 < u64::MAX || forall|i: int|
            0 <= i < c.chain().len() ==> (#[trigger] c.chain()[i]).content().ids.len() > 0,
    ensures
        (c.content().node_of)(id, at) == (c.top().content().node_of)(id, at),
        (c.content().node_value)(id, key) == (c.top().content().node_value)(id, key),
        (c.content().node_visible)(id, at) == (c.top().content().node_visible)(id, at),
        tier_chain::node_tier(c.chain(), id) is None,
{
    let v = c.chain();
    let r = tier_chain::tier_ranges_of(v);
    tier_chain::lemma_searched_covers(r, id.0, 0, r.len() as int);
    if let Some(i) = tier_chain::searched(r, id.0, 0, r.len() as int) {
        assert(r[i] == tier_chain::node_range(v[i].content().ids));
        assert(!spans(v[i], id));
    }
}

/// An edge leaves a node that a store lists.
pub open spec fn lists_edge<T: GraphStore>(t: T, e: EdgeId) -> bool {
    exists|a: int, b: int|
        #![trigger (t.content().links)(t.content().ids[a], Direction::Outgoing)[b]]
        0 <= a < t.content().ids.len() && 0 <= b < (t.content().links)(
            t.content().ids[a],
            Direction::Outgoing,
        ).len() && (t.content().links)(t.content().ids[a], Direction::Outgoing)[b].1 == e
}

/// An id lies between two edges of a store, the lower of which is not the
/// greatest number.
pub open spec fn edges_span<T: GraphStore>(t: T, id: EdgeId) -> bool {
    exists|x: EdgeId, y: EdgeId|
        #![trigger lists_edge(t, x), lists_edge(t, y)]
        lists_edge(t, x) && lists_edge(t, y) && x.0 <= id.0 <= y.0 && x.0 < u64::MAX
}

proof fn lemma_links_range(r: (u64, u64), links: Seq<(NodeId, EdgeId)>, n: int)
    requires
        0 <= n <= links.len(),
    ensures
        tier_chain::links_range(r, links, n).0 <= r.0,
        tier_chain::links_range(r, links, n).1 >= r.1,
        forall|k: int|
            0 <= k < n ==> tier_chain::links_range(r, links, n).0 <= (#[trigger] links[k]).1.0 <= tier_chain::links_range(
                r,
                links,
                n,
            ).1,
        tier_chain::links_range(r, links, n).0 == r.0 || exists|k: int|
            0 <= k < n && (#[trigger] links[k]).1.0 == tier_chain::links_range(r, links, n).0,
        tier_chain::links_range(r, links, n).1 == r.1 || exists|k: int|
            0 <= k < n && (#[trigger] links[k]).1.0 == tier_chain::links_range(r, links, n).1,
    decreases n,
{
    if n > 0 {
        lemma_links_range(r, links, n - 1);
        let p = tier_chain::links_range(r, links, n - 1);
        let q = tier_chain::links_range(r, links, n);
        assert(q.0 == p.0 || links[n - 1].1.0 == q.0);
        assert(q.1 == p.1 || links[n - 1].1.0 == q.1);
    }
}

proof fn lemma_edge_range<T: GraphStore>(t: T, n: int)
    requires
        0 <= n <= t.content().ids.len(),
    ensures
        forall|a: int, b: int|
            #![trigger (t.content().links)(t.content().ids[a], Direction::Outgoing)[b]]
            0 <= a < n && 0 <= b < (t.content().links)(
                t.content().ids[a],
                Direction::Outgoing,
            ).len() ==> tier_chain::edge_range(t, n).0 <= (t.content().links)(
                t.content().ids[a],
                Direction::Outgoing,
            )[b].1.0 <= tier_chain::edge_range(t, n).1,
        tier_chain::edge_range(t, n).0 == u64::MAX || lists_edge(t, EdgeId(tier_chain::edge_range(t, n).0)),
        tier_chain::edge_range(t, n).1 == 0 || lists_edge(t, EdgeId(tier_chain::edge_range(t, n).1)),
    decreases n,
{
    if n > 0 {
        lemma_edge_range(t, n - 1);
        let p = tier_chain::edge_range(t, n - 1);
        let q = tier_chain::edge_range(t, n);
        let links = (t.content().links)(t.content().ids[n - 1], Direction::Outgoing);
        let m = links.len() as int;
        lemma_links_range(p, links, m);
        assert forall|a: int, b: int|
            #![trigger (t.content().links)(t.content().ids[a], Direction::Outgoing)[b]]
            0 <= a < n && 0 <= b < (t.content().links)(
                t.content().ids[a],
                Direction::Outgoing,
            ).len() implies q.0 <= (t.content().links)(
            t.content().ids[a],
            Direction::Outgoing,
        )[b].1.0 <= q.1 by {
            if a == n - 1 {
                assert(links[b].1.0 >= q.0);
            }
        }
        if q.0 != p.0 {
            let k = choose|k: int| 0 <= k < m && (#[trigger] links[k]).1.0 == q.0;
            let a = n - 1;
            assert((t.content().links)(t.content().ids[a], Direction::Outgoing)[k].1 == EdgeId(q.0));
            assert(lists_edge(t, EdgeId(q.0)));
        }
        if q.1 != p.1 {
            let k = choose|k: int| 0 <= k < m && (#[trigger] links[k]).1.0 == q.1;
            let a = n - 1;
            assert((t.content().links)(t.content().ids[a], Direction::Outgoing)[k].1 == EdgeId(q.1));
            assert(lists_edge(t, EdgeId(q.1)));
        }
    }
}

proof fn lemma_whole_range<T: GraphStore>(t: T, id: EdgeId)
    ensures
        tier_chain::edge_tier_covers(tier_chain::whole_edge_range(t), id.0) <==> edges_span(t, id),
{
    let n = t.content().ids.len() as int;
    let r = tier_chain::whole_edge_range(t);
    lemma_edge_range(t, n);
    if edges_span(t, id) {
        let (x, y) = choose|x: EdgeId, y: EdgeId|
            #![trigger lists_edge(t, x), lists_edge(t, y)]
            lists_edge(t, x) && lists_edge(t, y) && x.0 <= id.0 <= y.0 && x.0 < u64::MAX;
        assert(r.0 <= x.0 <= r.1);
        assert(r.0 <= y.0 <= r.1);
    }
    if tier_chain::edge_tier_covers(r, id.0) {
        assert(lists_edge(t, EdgeId(r.0)));
        if r.1 == 0 {
            assert(r.0 == 0);
        }
        assert(lists_edge(t, EdgeId(r.1)));
        assert(EdgeId(r.0).0 <= id.0 <= EdgeId(r.1).0);
    }
}

proof fn lemma_first_edge_tier<T: GraphStore>(v: Seq<T>, id: EdgeId, k: int)
    requires
        0 <= k <= v.len(),
    ensures
        match tier_chain::edge_tier_from(v, id, k) {
            Some(i) => k <= i < v.len() && edges_span(v[i], id) && forall|j: int|
                k <= j < i ==> !edges_span(#[trigger] v[j], id),
            None => forall|j: int| k <= j < v.len() ==> !edges_span(#[trigger] v[j], id),
        },
    decreases v.len() - k,
{
    if k < v.len() {
        lemma_whole_range(v[k], id);
        if !tier_chain::edge_tier_covers(tier_chain::whole_edge_range(v[k]), id.0) {
            lemma_first_edge_tier(v, id, k + 1);
        }
    }
}

/// What a chain says of an edge within the edges of a tier, and of none before
/// it, is what that tier says, and where the tier has nothing, what the overlay
/// says.
pub proof fn lemma_edge_is_asked_of_its_tier<T: GraphStore, O: GraphStore>(
    c: TierChainView<T, O>,
    i: int,
    id: EdgeId,
    at: Moment,
    key: Seq<char>,
)
    requires
        0 <= i < c.chain().len(),
        edges_span(c.chain()[i], id),
        forall|j: int| 0 <= j < i ==> !edges_span(#[trigger] c.chain()[j], id),
    ensures
        (c.content().edge_of)(id, at) == (if (c.chain()[i].content().edge_of)(id, at) is Some {
            (c.chain()[i].content().edge_of)(id, at)
        } else {
            (c.top().content().edge_of)(id, at)
        }),
        (c.content().edge_value)(id, key) == (if (c.chain()[i].content().edge_value)(
            id,
            key,
        ) is Some {
            (c.chain()[i].content().edge_value)(id, key)
        } else {
            (c.top().content().edge_value)(id, key)
        }),
        (c.content().type_of)(id) == (if (c.chain()[i].content().type_of)(id) is Some {
            (c.chain()[i].content().type_of)(id)
        } else {
            (c.top().content().type_of)(id)
        }),
        (c.content().edge_visible)(id, at) == ((c.chain()[i].content().edge_visible)(id, at) || (
        c.top().content().edge_visible)(id, at)),
        tier_chain::edge_tier(c.chain(), id) == Some(i),
{
    let v = c.chain();
    lemma_first_edge_tier(v, id, 0);
    assert(tier_chain::edge_tier(v, id) == Some(i)) by {
        match tier_chain::edge_tier(v, id) {
            Some(k) => {
                if k < i {
                    assert(!edges_span(v[k], id));
                }
                if i < k {
                    assert(!edges_span(v[i], id));
                }
            },
            None => {
                assert(!edges_span(v[i], id));
            },
        }
    }
}

/// What a chain says of an edge outside the edges of all tiers is what the
/// overlay says.
pub proof fn lemma_other_edge_is_asked_of_the_overlay<T: GraphStore, O: GraphStore>(
    c: TierChainView<T, O>,
    id: EdgeId,
    at: Moment,
    key: Seq<char>,
)
    requires
        forall|i: int| 0 <= i < c.chain().len() ==> !edges_span(#[trigger] c.chain()[i], id),
    ensures
        (c.content().edge_of)(id, at) == (c.top().content().edge_of)(id, at),
        (c.content().edge_value)(id, key) == (c.top().content().edge_value)(id, key),
        (c.content().type_of)(id) == (c.top().content().type_of)(id),
        (c.content().edge_visible)(id, at) == (c.top().content().edge_visible)(id, at),
        tier_chain::edge_tier(c.chain(), id) is None,
{
    let v = c.chain();
    lemma_first_edge_tier(v, id, 0);
    if let Some(i) = tier_chain::edge_tier(v, id) {
        assert(!edges_span(v[i], id));
    }
}

} // verus!
