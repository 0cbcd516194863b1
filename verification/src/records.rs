//! Nodes and edges as a generation takes them in.

use crate::generation::GenerationError;
use crate::staging::Property;
use crate::staging;
use crate::text::{TextMap, text_less};
use crate::text;
use crate::types::{EdgeId, NodeId};
use crate::value::Value;
use vstd::prelude::*;

verus! {

/// A node.
#[derive(Debug)]
pub struct GenerationNode {
    /// Original id.
    pub id: NodeId,
    /// Labels, ascending.
    pub labels: Vec<String>,
    /// Properties.
    pub properties: TextMap<Value>,
}

/// An edge.
#[derive(Debug)]
pub struct GenerationEdge {
    /// Original id.
    pub id: EdgeId,
    /// Source node.
    pub src: NodeId,
    /// Destination node.
    pub dst: NodeId,
    /// Type.
    pub edge_type: String,
    /// Properties.
    pub properties: TextMap<Value>,
}

/// The declared endpoints of an edge type.
#[derive(Debug)]
pub struct RelSchemaDecl {
    /// Edge type.
    pub edge_type: String,
    /// Label that the source carries.
    pub src_label: String,
    /// Label that the destination carries.
    pub dst_label: String,
}

/// The content of a node.
pub struct NodeRecord {
    /// Original id.
    pub id: u64,
    /// Labels.
    pub labels: Seq<Seq<char>>,
    /// Properties by ascending key.
    pub properties: Seq<Property>,
}

/// The content of an edge.
pub struct EdgeRecord {
    /// Original id.
    pub id: u64,
    /// Source node.
    pub src: u64,
    /// Destination node.
    pub dst: u64,
    /// Type.
    pub edge_type: Seq<char>,
    /// Properties by ascending key.
    pub properties: Seq<Property>,
}

/// The content of a declaration.
pub struct DeclRecord {
    /// Edge type.
    pub edge_type: Seq<char>,
    /// Label that the source carries.
    pub src_label: Seq<char>,
    /// Label that the destination carries.
    pub dst_label: Seq<char>,
}

impl View for GenerationNode {
    type V = NodeRecord;

    open spec fn view(&self) -> NodeRecord {
        NodeRecord {
            id: self.id.0,
            labels: text::texts(self.labels@),
            properties: staging::properties_of(self.properties),
        }
    }
}

impl View for GenerationEdge {
    type V = EdgeRecord;

    open spec fn view(&self) -> EdgeRecord {
        EdgeRecord {
            id: self.id.0,
            src: self.src.0,
            dst: self.dst.0,
            edge_type: self.edge_type@,
            properties: staging::properties_of(self.properties),
        }
    }
}

impl View for RelSchemaDecl {
    type V = DeclRecord;

    open spec fn view(&self) -> DeclRecord {
        DeclRecord {
            edge_type: self.edge_type@,
            src_label: self.src_label@,
            dst_label: self.dst_label@,
        }
    }
}

/// The contents of a row of nodes.
pub open spec fn node_records(v: Seq<GenerationNode>) -> Seq<NodeRecord> {
    Seq::new(v.len(), |i: int| v[i]@)
}

/// The contents of a row of edges.
pub open spec fn edge_records(v: Seq<GenerationEdge>) -> Seq<EdgeRecord> {
    Seq::new(v.len(), |i: int| v[i]@)
}

/// The contents of a row of declarations.
pub open spec fn decl_records(v: Seq<RelSchemaDecl>) -> Seq<DeclRecord> {
    Seq::new(v.len(), |i: int| v[i]@)
}

/// A node carries at least one label, and its labels ascend strictly.
pub open spec fn labels_valid(labels: Seq<Seq<char>>) -> bool {
    labels.len() > 0 && forall|i: int|
        0 <= i < labels.len() - 1 ==> text::text_lt(#[trigger] labels[i], labels[i + 1])
}

impl GenerationNode {
    /// Rejects a node without labels or with labels out of order.
    pub fn validate_labels(&self) -> (r: Result<(), GenerationError>)
        ensures
            r == (if labels_valid(self@.labels) {
                Ok::<(), GenerationError>(())
            } else {
                Err::<(), GenerationError>(GenerationError::InvalidLabels { node_id: self@.id })
            }),
    {
        let n: usize = self.labels.len();
        let ghost l = text::texts(self.labels@);
        if n == 0 {
            return Err(GenerationError::InvalidLabels { node_id: self.id.0 });
        }
        let mut i: usize = 1;
        while i < n
            invariant
                1 <= i <= n,
                n == self.labels@.len(),
                l == text::texts(self.labels@),
                forall|k: int| 0 <= k < i - 1 ==> text::text_lt(#[trigger] l[k], l[k + 1]),
            decreases n - i,
        {
            if !text_less(self.labels[i - 1].as_str(), self.labels[i].as_str()) {
                assert(!text::text_lt(l[i - 1], l[i as int]));
                return Err(GenerationError::InvalidLabels { node_id: self.id.0 });
            }
            i = i + 1;
        }
        Ok(())
    }

    /// The label that decides the table of the node.
    pub fn physical_label(&self) -> (r: &str)
        requires
            self@.labels.len() > 0,
        ensures
            r@ == self@.labels[0],
    {
        self.labels[0].as_str()
    }
}

} // verus!
