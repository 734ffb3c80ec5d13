//! The nodes of the similarity graph.
use crate::fingerprint::SimFingerprint;
use crate::ids::NodeId;
use crate::scalar::Scalar;
use vstd::prelude::*;

verus! {

/// A stored vector with its fingerprint, its links and its authority.
#[derive(Clone, Debug)]
pub struct Node {
    pub id: NodeId,
    pub vector: Vec<Scalar>,
    pub fingerprint: SimFingerprint,
    /// The nodes that this one links to.
    pub edges: Vec<NodeId>,
    /// How much the graph points at this node.
    pub centrality: Scalar,
    pub label: Option<String>,
}

/// What a node holds.
#[verifier::ext_equal]
pub ghost struct NodeView {
    pub id: NodeId,
    pub vector: Seq<Scalar>,
    pub fingerprint: SimFingerprint,
    pub edges: Seq<NodeId>,
    pub centrality: Scalar,
    pub label: Option<Seq<char>>,
}

/// The characters of a label.
pub open spec fn label_text(label: Option<String>) -> Option<Seq<char>> {
    match label {
        Some(text) => Some(text@),
        None => None,
    }
}

impl View for Node {
    type V = NodeView;

    open spec fn view(&self) -> NodeView {
        NodeView {
            id: self.id,
            vector: self.vector@,
            fingerprint: self.fingerprint,
            edges: self.edges@,
            centrality: self.centrality,
            label: label_text(self.label),
        }
    }
}

} // verus!
