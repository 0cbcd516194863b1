//! What a graph can be asked: the interface that tiers, overlays and chains of
//! them share.
//!
//! A store says by one specification function what it holds; every method
//! answers out of that.

use crate::outside;
use crate::records::{GenerationEdge, GenerationNode};
use crate::text::TextMap;
use crate::text;
use crate::types::{EdgeId, NodeId};
use crate::value::{Value, WholeValue};
use crate::value;
use arcstr::ArcStr;
use vstd::prelude::*;

verus! {

/// Which edges of a node are meant.
#[derive(Debug, Clone, Copy, PartialEq, Eq, Structural)]
pub enum Direction {
    /// Those that leave it.
    Outgoing,
    /// Those that reach it.
    Incoming,
    /// All of them.
    Both,
}

/// A comparison.
#[derive(Debug, Clone, Copy, PartialEq, Eq, Structural)]
pub enum CompareOp {
    /// Equal.
    Eq,
    /// Not equal.
    Ne,
    /// Less.
    Lt,
    /// Less or equal.
    Le,
    /// Greater.
    Gt,
    /// Greater or equal.
    Ge,
}

/// The state of a store that a lookup means.
pub enum Moment {
    /// The present one.
    Now,
    /// That of an epoch.
    Epoch(u64),
    /// That of an epoch, as a transaction sees it.
    Version(u64, u64),
}

/// What a store holds of a node.
pub struct StoredNode {
    /// Original id.
    pub id: NodeId,
    /// Labels.
    pub labels: Seq<Seq<char>>,
    /// Properties.
    pub properties: Map<Seq<char>, WholeValue>,
}

/// What a store holds of an edge.
pub struct StoredEdge {
    /// Original id.
    pub id: EdgeId,
    /// Source node.
    pub src: NodeId,
    /// Destination node.
    pub dst: NodeId,
    /// Type.
    pub edge_type: Seq<char>,
    /// Properties.
    pub properties: Map<Seq<char>, WholeValue>,
}

/// Properties with all that they hold.
pub open spec fn whole_map(m: Map<Seq<char>, Value>) -> Map<Seq<char>, WholeValue> {
    Map::new(|k: Seq<char>| m.dom().contains(k), |k: Seq<char>| value::whole(m[k]))
}

/// A node as a store holds it.
pub open spec fn stored_node(n: Option<GenerationNode>) -> Option<StoredNode> {
    match n {
        Some(x) => Some(
            StoredNode {
                id: x.id,
                labels: text::texts(x.labels@),
                properties: whole_map(x.properties@),
            },
        ),
        None => None,
    }
}

/// An edge as a store holds it.
pub open spec fn stored_edge(e: Option<GenerationEdge>) -> Option<StoredEdge> {
    match e {
        Some(x) => Some(
            StoredEdge {
                id: x.id,
                src: x.src,
                dst: x.dst,
                edge_type: x.edge_type@,
                properties: whole_map(x.properties@),
            },
        ),
        None => None,
    }
}

/// A value, if there is one, with all that it holds.
pub open spec fn stored_value(v: Option<Value>) -> Option<WholeValue> {
    match v {
        Some(x) => Some(value::whole(x)),
        None => None,
    }
}

/// The properties of a node, none where there is no node.
pub open spec fn stored_properties(n: Option<StoredNode>) -> Map<Seq<char>, WholeValue> {
    match n {
        Some(x) => x.properties,
        None => Map::empty(),
    }
}

proof fn lemma_whole_insert(m: Map<Seq<char>, Value>, k: Seq<char>, v: Value)
    ensures
        whole_map(m.insert(k, v)) == whole_map(m).insert(k, value::whole(v)),
{
    assert(whole_map(m.insert(k, v)) =~= whole_map(m).insert(k, value::whole(v)));
}

/// The first `n` of some keys hold a key.
pub open spec fn among(keys: Seq<String>, n: int, k: Seq<char>) -> bool {
    exists|j: int| 0 <= j < n && (#[trigger] keys[j])@ == k
}

/// The values of those of the first `n` keys that have one.
pub open spec fn selected(
    keys: Seq<String>,
    n: int,
    value: spec_fn(Seq<char>) -> Option<WholeValue>,
) -> Map<Seq<char>, WholeValue> {
    Map::new(
        |k: Seq<char>| among(keys, n, k) && value(k) is Some,
        |k: Seq<char>| value(k)->0,
    )
}

/// The text of a shared text.
pub open spec fn optional_arc(a: Option<ArcStr>) -> Option<Seq<char>> {
    match a {
        Some(s) => Some(outside::arc_text(s)),
        None => None,
    }
}

proof fn lemma_select_next(
    keys: Seq<String>,
    n: int,
    value: spec_fn(Seq<char>) -> Option<WholeValue>,
)
    requires
        0 <= n < keys.len(),
    ensures
        selected(keys, n + 1, value) == (match value(keys[n]@) {
            Some(v) => selected(keys, n, value).insert(keys[n]@, v),
            None => selected(keys, n, value),
        }),
{
    let a = selected(keys, n + 1, value);
    let b = match value(keys[n]@) {
        Some(v) => selected(keys, n, value).insert(keys[n]@, v),
        None => selected(keys, n, value),
    };
    assert forall|k: Seq<char>| among(keys, n + 1, k) == (among(keys, n, k) || keys[n]@ == k) by {
        if among(keys, n, k) {
            let j = choose|j: int| 0 <= j < n && (#[trigger] keys[j])@ == k;
            assert(keys[j]@ == k);
        }
    }
    assert(a =~= b);
}

/// What a store holds: its answer to every question.
pub struct GraphContent {
    /// The node with an id.
    pub node_of: spec_fn(NodeId, Moment) -> Option<StoredNode>,
    /// The edge with an id.
    pub edge_of: spec_fn(EdgeId, Moment) -> Option<StoredEdge>,
    /// Whether a node can be seen.
    pub node_visible: spec_fn(NodeId, Moment) -> bool,
    /// Whether an edge can be seen.
    pub edge_visible: spec_fn(EdgeId, Moment) -> bool,
    /// A property of a node.
    pub node_value: spec_fn(NodeId, Seq<char>) -> Option<WholeValue>,
    /// A property of an edge.
    pub edge_value: spec_fn(EdgeId, Seq<char>) -> Option<WholeValue>,
    /// The type of an edge.
    pub type_of: spec_fn(EdgeId) -> Option<Seq<char>>,
    /// The neighbours of a node.
    pub adjacent: spec_fn(NodeId, Direction) -> Seq<NodeId>,
    /// The neighbours of a node with the edges that lead to them.
    pub links: spec_fn(NodeId, Direction) -> Seq<(NodeId, EdgeId)>,
    /// How many edges leave a node.
    pub leaving: spec_fn(NodeId) -> nat,
    /// How many edges reach a node.
    pub reaching: spec_fn(NodeId) -> nat,
    /// All nodes.
    pub ids: Seq<NodeId>,
    /// The nodes with a label.
    pub labelled: spec_fn(Seq<char>) -> Seq<NodeId>,
    /// How many nodes have a label.
    pub labelled_total: spec_fn(Seq<char>) -> nat,
    /// How many nodes there are.
    pub nodes_total: nat,
    /// How many edges there are.
    pub edges_total: nat,
    /// The nodes with a value of a property.
    pub found: spec_fn(Seq<char>, WholeValue) -> Seq<NodeId>,
    /// The nodes with values of several properties.
    pub found_all: spec_fn(Seq<(Seq<char>, WholeValue)>) -> Seq<NodeId>,
    /// The nodes with a property in a range.
    pub found_between: spec_fn(
        Seq<char>,
        Option<WholeValue>,
        Option<WholeValue>,
        bool,
        bool,
    ) -> Seq<NodeId>,
    /// Whether some node might compare so.
    pub node_may_match: spec_fn(Seq<char>, CompareOp, WholeValue) -> bool,
    /// Whether some edge might compare so.
    pub edge_may_match: spec_fn(Seq<char>, CompareOp, WholeValue) -> bool,
    /// The labels in use.
    pub labels_known: Seq<Seq<char>>,
    /// The edge types in use.
    pub types_known: Seq<Seq<char>>,
    /// The property keys in use.
    pub keys_known: Seq<Seq<char>>,
    /// The epoch.
    pub epoch_now: u64,
    /// Whether edges can be followed backwards.
    pub backward: bool,
}

/// A bound of a range.
pub open spec fn bound_of(v: Option<&Value>) -> Option<WholeValue> {
    match v {
        Some(x) => Some(value::whole(*x)),
        None => None,
    }
}

/// A graph that can be read.
pub trait GraphStore: Sized {
    /// What the store holds.
    spec fn content(&self) -> GraphContent;

    /// The node with an id.
    fn get_node(&self, id: NodeId) -> (r: Option<GenerationNode>)
        ensures
            stored_node(r) == (self.content().node_of)(id, Moment::Now),
    ;

    /// The edge with an id.
    fn get_edge(&self, id: EdgeId) -> (r: Option<GenerationEdge>)
        ensures
            stored_edge(r) == (self.content().edge_of)(id, Moment::Now),
    ;

    /// The node with an id, as a transaction sees it.
    fn get_node_versioned(&self, id: NodeId, epoch: u64, transaction_id: u64) -> (r: Option<
        GenerationNode,
    >)
        ensures
            stored_node(r) == (self.content().node_of)(id, Moment::Version(epoch, transaction_id)),
    ;

    /// The edge with an id, as a transaction sees it.
    fn get_edge_versioned(&self, id: EdgeId, epoch: u64, transaction_id: u64) -> (r: Option<
        GenerationEdge,
    >)
        ensures
            stored_edge(r) == (self.content().edge_of)(id, Moment::Version(epoch, transaction_id)),
    ;

    /// The node with an id, as of an epoch.
    fn get_node_at_epoch(&self, id: NodeId, epoch: u64) -> (r: Option<GenerationNode>)
        ensures
            stored_node(r) == (self.content().node_of)(id, Moment::Epoch(epoch)),
    ;

    /// The edge with an id, as of an epoch.
    fn get_edge_at_epoch(&self, id: EdgeId, epoch: u64) -> (r: Option<GenerationEdge>)
        ensures
            stored_edge(r) == (self.content().edge_of)(id, Moment::Epoch(epoch)),
    ;

    /// A property of a node.
    fn get_node_property(&self, id: NodeId, key: &str) -> (r: Option<Value>)
        ensures
            stored_value(r) == (self.content().node_value)(id, key@),
    ;

    /// A property of an edge.
    fn get_edge_property(&self, id: EdgeId, key: &str) -> (r: Option<Value>)
        ensures
            stored_value(r) == (self.content().edge_value)(id, key@),
    ;

    /// A property of several nodes.
    fn get_node_property_batch(&self, ids: &[NodeId], key: &str) -> (r: Vec<Option<Value>>)
        ensures
            r@.len() == ids@.len(),
            forall|i: int|
                0 <= i < ids@.len() ==> stored_value(#[trigger] r@[i]) == (self.content().node_value)(
                    ids@[i],
                    key@,
                ),
    {
        let mut out: Vec<Option<Value>> = Vec::new();
        let mut i: usize = 0;
        while i < ids.len()
            invariant
                i <= ids@.len(),
                out@.len() == i,
                forall|k: int|
                    0 <= k < i ==> stored_value(#[trigger] out@[k]) == (self.content().node_value)(
                        ids@[k],
                        key@,
                    ),
            decreases ids@.len() - i,
        {
            out.push(self.get_node_property(ids[i], key));
            i = i + 1;
        }
        out
    }

    /// All properties of several nodes.
    fn get_nodes_properties_batch(&self, ids: &[NodeId]) -> (r: Vec<TextMap<Value>>)
        ensures
            r@.len() == ids@.len(),
            forall|i: int|
                0 <= i < ids@.len() ==> whole_map((#[trigger] r@[i])@) == stored_properties(
                    (self.content().node_of)(ids@[i], Moment::Now),
                ),
    {
        let mut out: Vec<TextMap<Value>> = Vec::new();
        let mut i: usize = 0;
        while i < ids.len()
            invariant
                i <= ids@.len(),
                out@.len() == i,
                forall|k: int|
                    0 <= k < i ==> whole_map((#[trigger] out@[k])@) == stored_properties(
                        (self.content().node_of)(ids@[k], Moment::Now),
                    ),
            decreases ids@.len() - i,
        {
            match self.get_node(ids[i]) {
                Some(n) => out.push(n.properties),
                None => {
                    let empty: TextMap<Value> = TextMap::new();
                    assert(whole_map(empty@) =~= Map::empty());
                    out.push(empty);
                },
            }
            i = i + 1;
        }
        out
    }

    /// Some properties of several nodes.
    fn get_nodes_properties_selective_batch(&self, ids: &[NodeId], keys: &[String]) -> (r: Vec<
        TextMap<Value>,
    >)
        ensures
            r@.len() == ids@.len(),
            forall|i: int|
                0 <= i < ids@.len() ==> whole_map((#[trigger] r@[i])@) == selected(
                    keys@,
                    keys@.len() as int,
                    |k: Seq<char>| (self.content().node_value)(ids@[i], k),
                ),
    {
        let mut out: Vec<TextMap<Value>> = Vec::new();
        let mut i: usize = 0;
        while i < ids.len()
            invariant
                i <= ids@.len(),
                out@.len() == i,
                forall|k: int|
                    0 <= k < i ==> whole_map((#[trigger] out@[k])@) == selected(
                        keys@,
                        keys@.len() as int,
                        |x: Seq<char>| (self.content().node_value)(ids@[k], x),
                    ),
            decreases ids@.len() - i,
        {
            let id: NodeId = ids[i];
            let ghost value = |x: Seq<char>| (self.content().node_value)(id, x);
            let mut m: TextMap<Value> = TextMap::new();
            let mut j: usize = 0;
            assert(whole_map(m@) =~= selected(keys@, 0, value));
            while j < keys.len()
                invariant
                    j <= keys@.len(),
                    value == |x: Seq<char>| (self.content().node_value)(id, x),
                    whole_map(m@) == selected(keys@, j as int, value),
                decreases keys@.len() - j,
            {
                proof {
                    lemma_select_next(keys@, j as int, value);
                }
                if let Some(v) = self.get_node_property(id, keys[j].as_str()) {
                    proof {
                        lemma_whole_insert(m@, keys@[j as int]@, v);
                    }
                    m.insert(keys[j].as_str(), v);
                }
                j = j + 1;
            }
            out.push(m);
            i = i + 1;
        }
        out
    }

    /// Some properties of several edges.
    fn get_edges_properties_selective_batch(&self, ids: &[EdgeId], keys: &[String]) -> (r: Vec<
        TextMap<Value>,
    >)
        ensures
            r@.len() == ids@.len(),
            forall|i: int|
                0 <= i < ids@.len() ==> whole_map((#[trigger] r@[i])@) == selected(
                    keys@,
                    keys@.len() as int,
                    |k: Seq<char>| (self.content().edge_value)(ids@[i], k),
                ),
    {
        let mut out: Vec<TextMap<Value>> = Vec::new();
        let mut i: usize = 0;
        while i < ids.len()
            invariant
                i <= ids@.len(),
                out@.len() == i,
                forall|k: int|
                    0 <= k < i ==> whole_map((#[trigger] out@[k])@) == selected(
                        keys@,
                        keys@.len() as int,
                        |x: Seq<char>| (self.content().edge_value)(ids@[k], x),
                    ),
            decreases ids@.len() - i,
        {
            let id: EdgeId = ids[i];
            let ghost value = |x: Seq<char>| (self.content().edge_value)(id, x);
            let mut m: TextMap<Value> = TextMap::new();
            let mut j: usize = 0;
            assert(whole_map(m@) =~= selected(keys@, 0, value));
            while j < keys.len()
                invariant
                    j <= keys@.len(),
                    value == |x: Seq<char>| (self.content().edge_value)(id, x),
                    whole_map(m@) == selected(keys@, j as int, value),
                decreases keys@.len() - j,
            {
                proof {
                    lemma_select_next(keys@, j as int, value);
                }
                if let Some(v) = self.get_edge_property(id, keys[j].as_str()) {
                    proof {
                        lemma_whole_insert(m@, keys@[j as int]@, v);
                    }
                    m.insert(keys[j].as_str(), v);
                }
                j = j + 1;
            }
            out.push(m);
            i = i + 1;
        }
        out
    }

    /// The neighbours of a node.
    fn neighbors(&self, node: NodeId, direction: Direction) -> (r: Vec<NodeId>)
        ensures
            r@ == (self.content().adjacent)(node, direction),
    ;

    /// The neighbours of a node with the edges that lead to them.
    fn edges_from(&self, node: NodeId, direction: Direction) -> (r: Vec<(NodeId, EdgeId)>)
        ensures
            r@ == (self.content().links)(node, direction),
    ;

    /// How many edges leave a node.
    fn out_degree(&self, node: NodeId) -> (r: usize)
        requires
            (self.content().leaving)(node) <= usize::MAX,
        ensures
            r == (self.content().leaving)(node),
    ;

    /// How many edges reach a node.
    fn in_degree(&self, node: NodeId) -> (r: usize)
        requires
            (self.content().reaching)(node) <= usize::MAX,
        ensures
            r == (self.content().reaching)(node),
    ;

    /// Whether edges can be followed backwards.
    fn has_backward_adjacency(&self) -> (r: bool)
        ensures
            r == self.content().backward,
    ;

    /// All nodes.
    fn node_ids(&self) -> (r: Vec<NodeId>)
        ensures
            r@ == self.content().ids,
    ;

    /// The nodes with a label.
    fn nodes_by_label(&self, label: &str) -> (r: Vec<NodeId>)
        ensures
            r@ == (self.content().labelled)(label@),
    ;

    /// How many nodes have a label.
    fn nodes_by_label_count(&self, label: &str) -> (r: usize)
        requires
            (self.content().labelled_total)(label@) <= usize::MAX,
        ensures
            r == (self.content().labelled_total)(label@),
    ;

    /// How many nodes there are.
    fn node_count(&self) -> (r: usize)
        requires
            self.content().nodes_total <= usize::MAX,
        ensures
            r == self.content().nodes_total,
    ;

    /// How many edges there are.
    fn edge_count(&self) -> (r: usize)
        requires
            self.content().edges_total <= usize::MAX,
        ensures
            r == self.content().edges_total,
    ;

    /// The type of an edge.
    fn edge_type(&self, id: EdgeId) -> (r: Option<ArcStr>)
        ensures
            optional_arc(r) == (self.content().type_of)(id),
    ;

    /// The nodes with a value of a property.
    fn find_nodes_by_property(&self, property: &str, value: &Value) -> (r: Vec<NodeId>)
        ensures
            r@ == (self.content().found)(property@, value::whole(*value)),
    ;

    /// The nodes with values of several properties.
    fn find_nodes_by_properties(&self, conditions: &[(String, Value)]) -> (r: Vec<NodeId>)
        ensures
            r@ == (self.content().found_all)(value::whole_fields(conditions@)),
    ;

    /// The nodes with a property in a range.
    fn find_nodes_in_range(
        &self,
        property: &str,
        min: Option<&Value>,
        max: Option<&Value>,
        min_inclusive: bool,
        max_inclusive: bool,
    ) -> (r: Vec<NodeId>)
        ensures
            r@ == (self.content().found_between)(
                property@,
                bound_of(min),
                bound_of(max),
                min_inclusive,
                max_inclusive,
            ),
    ;

    /// Whether some node might compare so.
    fn node_property_might_match(&self, property: &str, op: CompareOp, value: &Value) -> (r: bool)
        ensures
            r == (self.content().node_may_match)(property@, op, value::whole(*value)),
    ;

    /// Whether some edge might compare so.
    fn edge_property_might_match(&self, property: &str, op: CompareOp, value: &Value) -> (r: bool)
        ensures
            r == (self.content().edge_may_match)(property@, op, value::whole(*value)),
    ;

    /// The epoch.
    fn current_epoch(&self) -> (r: u64)
        ensures
            r == self.content().epoch_now,
    ;

    /// The labels in use.
    fn all_labels(&self) -> (r: Vec<String>)
        ensures
            text::texts(r@) == self.content().labels_known,
    ;

    /// The edge types in use.
    fn all_edge_types(&self) -> (r: Vec<String>)
        ensures
            text::texts(r@) == self.content().types_known,
    ;

    /// The property keys in use.
    fn all_property_keys(&self) -> (r: Vec<String>)
        ensures
            text::texts(r@) == self.content().keys_known,
    ;

    /// Whether a node can be seen as of an epoch.
    fn is_node_visible_at_epoch(&self, id: NodeId, epoch: u64) -> (r: bool)
        ensures
            r == (self.content().node_visible)(id, Moment::Epoch(epoch)),
    ;

    /// Whether a transaction can see a node.
    fn is_node_visible_versioned(&self, id: NodeId, epoch: u64, transaction_id: u64) -> (r: bool)
        ensures
            r == (self.content().node_visible)(id, Moment::Version(epoch, transaction_id)),
    ;

    /// Whether an edge can be seen as of an epoch.
    fn is_edge_visible_at_epoch(&self, id: EdgeId, epoch: u64) -> (r: bool)
        ensures
            r == (self.content().edge_visible)(id, Moment::Epoch(epoch)),
    ;

    /// Whether a transaction can see an edge.
    fn is_edge_visible_versioned(&self, id: EdgeId, epoch: u64, transaction_id: u64) -> (r: bool)
        ensures
            r == (self.content().edge_visible)(id, Moment::Version(epoch, transaction_id)),
    ;
}

} // verus!
