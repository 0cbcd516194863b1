use arcstr::ArcStr;
use grafeo_compact::graph_store::{CompareOp, Direction, GraphContent, GraphStore};
use grafeo_compact::records::{GenerationEdge, GenerationNode};
use grafeo_compact::text::TextMap;
use grafeo_compact::tier_chain::{tier_edge_range, tier_node_range, TierChainView};
use grafeo_compact::types::{EdgeId, NodeId};
use grafeo_compact::value::Value;

// A store of nodes with one label and one number, and of edges of one type.
#[derive(Debug, Default)]
struct Memory {
    nodes: Vec<(u64, &'static str, i64)>,
    edges: Vec<(u64, u64, u64)>,
    epoch: u64,
}

impl Memory {
    fn make_node(&self, id: u64) -> Option<GenerationNode> {
        let (_, label, n) = self.nodes.iter().find(|x| x.0 == id)?;
        let mut properties = TextMap::new();
        properties.insert("n", Value::Int64(*n));
        Some(GenerationNode { id: NodeId::new(id), labels: vec![label.to_string()], properties })
    }

    fn make_edge(&self, id: u64) -> Option<GenerationEdge> {
        let (_, src, dst) = self.edges.iter().find(|x| x.0 == id)?;
        Some(GenerationEdge {
            id: EdgeId::new(id),
            src: NodeId::new(*src),
            dst: NodeId::new(*dst),
            edge_type: "T".to_string(),
            properties: TextMap::new(),
        })
    }

    fn with(&self, keep: impl Fn(&str, i64) -> bool) -> Vec<NodeId> {
        self.nodes.iter().filter(|x| keep(x.1, x.2)).map(|x| NodeId::new(x.0)).collect()
    }
}

fn number(v: &Value) -> i64 {
    match v {
        Value::Int64(n) => *n,
        _ => 0,
    }
}

impl GraphStore for Memory {
    // Spoken of in contracts only; nothing calls it.
    fn content(&self) -> GraphContent {
        unreachable!()
    }
    fn get_node(&self, id: NodeId) -> Option<GenerationNode> {
        self.make_node(id.as_u64())
    }
    fn get_edge(&self, id: EdgeId) -> Option<GenerationEdge> {
        self.make_edge(id.as_u64())
    }
    fn get_node_versioned(&self, id: NodeId, _: u64, _: u64) -> Option<GenerationNode> {
        self.make_node(id.as_u64())
    }
    fn get_edge_versioned(&self, id: EdgeId, _: u64, _: u64) -> Option<GenerationEdge> {
        self.make_edge(id.as_u64())
    }
    fn get_node_at_epoch(&self, id: NodeId, epoch: u64) -> Option<GenerationNode> {
        if epoch >= self.epoch { self.make_node(id.as_u64()) } else { None }
    }
    fn get_edge_at_epoch(&self, id: EdgeId, epoch: u64) -> Option<GenerationEdge> {
        if epoch >= self.epoch { self.make_edge(id.as_u64()) } else { None }
    }
    fn get_node_property(&self, id: NodeId, key: &str) -> Option<Value> {
        let x = self.nodes.iter().find(|x| x.0 == id.as_u64())?;
        if key == "n" { Some(Value::Int64(x.2)) } else { None }
    }
    fn get_edge_property(&self, id: EdgeId, key: &str) -> Option<Value> {
        let x = self.edges.iter().find(|x| x.0 == id.as_u64())?;
        if key == "from" { Some(Value::Int64(x.1 as i64)) } else { None }
    }
    fn neighbors(&self, node: NodeId, direction: Direction) -> Vec<NodeId> {
        self.edges_from(node, direction).into_iter().map(|x| x.0).collect()
    }
    fn edges_from(&self, node: NodeId, direction: Direction) -> Vec<(NodeId, EdgeId)> {
        let mut out = vec![];
        for (id, src, dst) in &self.edges {
            if *src == node.as_u64() && direction != Direction::Incoming {
                out.push((NodeId::new(*dst), EdgeId::new(*id)));
            }
            if *dst == node.as_u64() && direction != Direction::Outgoing {
                out.push((NodeId::new(*src), EdgeId::new(*id)));
            }
        }
        out
    }
    fn out_degree(&self, node: NodeId) -> usize {
        self.edges_from(node, Direction::Outgoing).len()
    }
    fn in_degree(&self, node: NodeId) -> usize {
        self.edges_from(node, Direction::Incoming).len()
    }
    fn has_backward_adjacency(&self) -> bool {
        true
    }
    fn node_ids(&self) -> Vec<NodeId> {
        self.with(|_, _| true)
    }
    fn nodes_by_label(&self, label: &str) -> Vec<NodeId> {
        self.with(|l, _| l == label)
    }
    fn nodes_by_label_count(&self, label: &str) -> usize {
        self.nodes_by_label(label).len()
    }
    fn node_count(&self) -> usize {
        self.nodes.len()
    }
    fn edge_count(&self) -> usize {
        self.edges.len()
    }
    fn edge_type(&self, id: EdgeId) -> Option<ArcStr> {
        self.make_edge(id.as_u64()).map(|e| ArcStr::from(e.edge_type))
    }
    fn find_nodes_by_property(&self, _: &str, value: &Value) -> Vec<NodeId> {
        self.with(|_, n| n == number(value))
    }
    fn find_nodes_by_properties(&self, conditions: &[(String, Value)]) -> Vec<NodeId> {
        self.with(|_, n| conditions.iter().all(|c| number(&c.1) == n))
    }
    fn find_nodes_in_range(
        &self,
        _: &str,
        min: Option<&Value>,
        max: Option<&Value>,
        _: bool,
        _: bool,
    ) -> Vec<NodeId> {
        self.with(|_, n| min.map_or(true, |m| number(m) <= n) && max.map_or(true, |m| n <= number(m)))
    }
    fn node_property_might_match(&self, _: &str, _: CompareOp, value: &Value) -> bool {
        self.nodes.iter().any(|x| x.2 == number(value))
    }
    fn edge_property_might_match(&self, _: &str, _: CompareOp, value: &Value) -> bool {
        self.edges.iter().any(|x| x.1 as i64 == number(value))
    }
    fn current_epoch(&self) -> u64 {
        self.epoch
    }
    fn all_labels(&self) -> Vec<String> {
        self.nodes.iter().map(|x| x.1.to_string()).collect()
    }
    fn all_edge_types(&self) -> Vec<String> {
        self.edges.iter().map(|_| "T".to_string()).collect()
    }
    fn all_property_keys(&self) -> Vec<String> {
        vec!["n".to_string()]
    }
    fn is_node_visible_at_epoch(&self, id: NodeId, epoch: u64) -> bool {
        self.get_node_at_epoch(id, epoch).is_some()
    }
    fn is_node_visible_versioned(&self, id: NodeId, _: u64, _: u64) -> bool {
        self.get_node(id).is_some()
    }
    fn is_edge_visible_at_epoch(&self, id: EdgeId, epoch: u64) -> bool {
        self.get_edge_at_epoch(id, epoch).is_some()
    }
    fn is_edge_visible_versioned(&self, id: EdgeId, _: u64, _: u64) -> bool {
        self.get_edge(id).is_some()
    }
}

fn chain() -> TierChainView<Memory, Memory> {
    TierChainView::new(
        vec![
            Memory { nodes: vec![(1, "B", 10), (3, "A", 30)], edges: vec![], epoch: 0 },
            Memory { nodes: vec![(10, "A", 10), (12, "C", 50)], edges: vec![], epoch: 0 },
        ],
        Memory {
            nodes: vec![(20, "A", 10), (21, "D", 70)],
            edges: vec![(7, 1, 20), (5, 20, 1)],
            epoch: 4,
        },
    )
}

fn ids(v: Vec<NodeId>) -> Vec<u64> {
    v.iter().map(NodeId::as_u64).collect()
}

#[test]
fn tiers_are_found_by_their_ranges() {
    let c = chain();
    assert_eq!(c.tier_for_node(NodeId::new(3)), Some(0));
    assert_eq!(c.tier_for_node(NodeId::new(2)), Some(0));
    assert_eq!(c.tier_for_node(NodeId::new(10)), Some(1));
    assert_eq!(c.tier_for_node(NodeId::new(5)), None);
    assert_eq!(c.tier_for_node(NodeId::new(20)), None);
    assert_eq!(c.tier_for_edge(EdgeId::new(7)), None);
    assert_eq!(tier_node_range(&Memory::default()), (u64::MAX, u64::MAX));
    assert_eq!(tier_edge_range(&Memory::default()), (u64::MAX, 0));
    let m = Memory { nodes: vec![(1, "A", 0)], edges: vec![(9, 1, 1), (4, 1, 2)], epoch: 0 };
    assert_eq!(tier_edge_range(&m), (4, 9));
    let with_edges = TierChainView::new(vec![Memory::default(), m], Memory::default());
    assert_eq!(with_edges.tier_for_edge(EdgeId::new(5)), Some(1));
    assert_eq!(with_edges.tier_for_edge(EdgeId::new(10)), None);
    assert_eq!(with_edges.get_edge(EdgeId::new(9)).unwrap().dst, NodeId::new(1));
}

#[test]
fn a_lookup_asks_the_tier_and_then_the_overlay() {
    let c = chain();
    for id in [1, 3, 10, 12, 20, 21] {
        assert_eq!(c.get_node(NodeId::new(id)).unwrap().id, NodeId::new(id));
    }
    assert!(c.get_node(NodeId::new(2)).is_none());
    assert!(c.get_node_versioned(NodeId::new(12), 0, 0).is_some());
    assert!(c.get_node_at_epoch(NodeId::new(20), 3).is_none());
    assert!(c.get_node_at_epoch(NodeId::new(20), 4).is_some());
    assert!(c.is_node_visible_at_epoch(NodeId::new(1), 0));
    assert!(!c.is_node_visible_at_epoch(NodeId::new(21), 1));
    assert!(c.is_node_visible_versioned(NodeId::new(21), 1, 1));
    assert!(matches!(c.get_node_property(NodeId::new(12), "n"), Some(Value::Int64(50))));
    assert!(c.get_node_property(NodeId::new(12), "m").is_none());
    assert_eq!(c.get_edge(EdgeId::new(5)).unwrap().src, NodeId::new(20));
    assert!(c.get_edge_versioned(EdgeId::new(5), 0, 0).is_some());
    assert!(c.get_edge_at_epoch(EdgeId::new(5), 0).is_none());
    assert!(c.is_edge_visible_versioned(EdgeId::new(7), 0, 0));
    assert!(!c.is_edge_visible_at_epoch(EdgeId::new(7), 0));
    assert!(matches!(c.get_edge_property(EdgeId::new(7), "from"), Some(Value::Int64(1))));
    assert_eq!(c.edge_type(EdgeId::new(7)).unwrap().as_str(), "T");
    assert!(c.edge_type(EdgeId::new(8)).is_none());
}

#[test]
fn a_chain_lists_tiers_and_then_the_overlay() {
    let c = chain();
    assert_eq!(ids(c.node_ids()), vec![1, 3, 10, 12, 20, 21]);
    assert_eq!(ids(c.nodes_by_label("A")), vec![3, 10, 20]);
    assert_eq!(c.nodes_by_label_count("A"), 3);
    assert_eq!((c.node_count(), c.edge_count()), (6, 2));
    assert_eq!(ids(c.find_nodes_by_property("n", &Value::Int64(10))), vec![1, 10, 20]);
    let wanted = [("n".to_string(), Value::Int64(50))];
    assert_eq!(ids(c.find_nodes_by_properties(&wanted)), vec![12]);
    let low = Value::Int64(30);
    assert_eq!(ids(c.find_nodes_in_range("n", Some(&low), None, true, true)), vec![3, 12, 21]);
    assert_eq!(c.all_labels(), vec!["B", "A", "C", "D"]);
    assert_eq!(c.all_edge_types(), vec!["T"]);
    assert_eq!(c.all_property_keys(), vec!["n"]);
    assert!(c.node_property_might_match("n", CompareOp::Eq, &Value::Int64(70)));
    assert!(!c.node_property_might_match("n", CompareOp::Eq, &Value::Int64(71)));
    assert!(c.edge_property_might_match("from", CompareOp::Eq, &Value::Int64(20)));
    assert_eq!(c.current_epoch(), 4);
    assert!(c.has_backward_adjacency());
}

#[test]
fn edges_come_from_the_overlay() {
    let c = chain();
    assert_eq!(ids(c.neighbors(NodeId::new(1), Direction::Both)), vec![20, 20]);
    assert_eq!(
        c.edges_from(NodeId::new(1), Direction::Outgoing),
        vec![(NodeId::new(20), EdgeId::new(7))]
    );
    assert_eq!((c.out_degree(NodeId::new(20)), c.in_degree(NodeId::new(20))), (1, 1));
}

#[test]
fn properties_are_read_in_batches() {
    let c = chain();
    let nodes = [NodeId::new(3), NodeId::new(4), NodeId::new(21)];
    let one = c.get_node_property_batch(&nodes, "n");
    assert!(matches!(one[0], Some(Value::Int64(30))));
    assert!(one[1].is_none());
    assert!(matches!(one[2], Some(Value::Int64(70))));
    let all = c.get_nodes_properties_batch(&nodes);
    assert_eq!((all[0].len(), all[1].len(), all[2].len()), (1, 0, 1));
    let keys = ["n".to_string(), "m".to_string()];
    let some = c.get_nodes_properties_selective_batch(&nodes, &keys);
    assert!(matches!(some[2].get("n"), Some(Value::Int64(70))));
    assert!(some[2].get("m").is_none());
    assert_eq!(some[1].len(), 0);
    let edges = [EdgeId::new(5), EdgeId::new(6)];
    let of_edges = c.get_edges_properties_selective_batch(&edges, &["from".to_string()]);
    assert!(matches!(of_edges[0].get("from"), Some(Value::Int64(20))));
    assert_eq!(of_edges[1].len(), 0);
}
