//! Deletion in two steps: nodes are marked first, and removed for good later.
use crate::ids::ascending;
use crate::ids::ids_without;
use crate::ids::lemma_ascending;
use crate::ids::surviving;
use crate::ids::without;
use crate::ids::NodeId;
use crate::index::bucket_views;
use crate::index::grouped;
use crate::index::node_views;
use crate::index::register;
use crate::index::IndexView;
use crate::index::NeuraRankIndex;
use crate::laws::lemma_compacted_wf;
use crate::laws::lemma_count;
use crate::laws::lemma_marked_wf;
use crate::node::Node;
use crate::node::NodeView;
use std::collections::BTreeMap;
use std::collections::BTreeSet;
use vstd::prelude::*;

verus! {

/// The node without its links to nodes of the set.
pub open spec fn unlinked(node: NodeView, gone: Set<NodeId>) -> NodeView {
    NodeView { edges: surviving(node.edges, gone), ..node }
}

impl IndexView {
    /// The index with a node marked as deleted. Where there is no such node, nothing changes.
    pub open spec fn marked(self, id: NodeId) -> IndexView {
        if self.nodes.dom().contains(id) {
            IndexView { deleted: self.deleted.insert(id), ..self }
        } else {
            self
        }
    }

    /// The nodes that are not marked, without their links to marked ones.
    pub open spec fn survivors(self) -> Map<NodeId, NodeView> {
        Map::new(
            |id: NodeId| self.live().contains(id),
            |id: NodeId| unlinked(self.nodes[id], self.deleted),
        )
    }

    /// The index without the nodes that were marked as deleted: no link leads to one, and the
    /// buckets list the others, oldest first.
    pub open spec fn compacted(self) -> IndexView {
        IndexView {
            nodes: self.survivors(),
            buckets: grouped(ascending(self.live()), self.survivors()),
            deleted: Set::empty(),
            ..self
        }
    }

    /// The number of nodes without the number of those marked as deleted.
    pub open spec fn count(self) -> nat {
        if self.nodes.dom().len() >= self.deleted.len() {
            (self.nodes.dom().len() - self.deleted.len()) as nat
        } else {
            0
        }
    }
}

impl NeuraRankIndex {
    /// Marks a node as deleted. Where there is no such node, nothing changes.
    ///
    /// [`compact`](NeuraRankIndex::compact) removes the nodes that are marked.
    pub fn delete(&mut self, id: NodeId)
        ensures
            final(self)@ == old(self)@.marked(id),
            old(self)@.wf() ==> final(self)@.wf(),
    {
        proof {
            if self@.wf() {
                lemma_marked_wf(self@, id);
            }
        }
        assert(self@.nodes.dom() =~= self.nodes@.dom());
        if self.nodes.contains_key(&id) {
            self.deleted.insert(id);
        }
    }

    /// Removes the nodes that are marked as deleted, with the links to them, and fills the buckets
    /// anew. Returns how many were marked.
    pub fn compact(&mut self) -> (removed: usize)
        ensures
            removed == old(self)@.deleted.len(),
            final(self)@ == old(self)@.compacted(),
            old(self)@.wf() ==> final(self)@.wf(),
    {
        proof {
            if self@.wf() {
                lemma_compacted_wf(self@);
            }
        }
        let removed: usize = self.deleted.len();
        let ghost start = self@;
        let ids = ids_without(&self.nodes, &self.deleted, None);
        let ghost live = start.live();
        assert(start.nodes.dom() =~= self.nodes@.dom());
        assert(self.nodes@.dom().difference(self.deleted@).difference(Set::empty()) =~= live);
        proof {
            lemma_ascending(live);
        }
        let mut nodes: BTreeMap<NodeId, Node> = BTreeMap::new();
        let mut buckets: BTreeMap<u16, Vec<NodeId>> = BTreeMap::new();
        let mut i: usize = 0;
        assert forall|j: int| 0 <= j < ids@.len() implies self.nodes@.dom().contains(
            #[trigger] ids@[j],
        ) by {
            assert(ids@.contains(ids@[j]));
        }
        assert(bucket_views(buckets@) =~= grouped(ids@.take(0), start.survivors()));
        assert(node_views(nodes@) =~= start.survivors().restrict(ids@.take(0).to_set()));
        while i < ids.len()
            invariant
                i <= ids@.len(),
                ids@ == ascending(live),
                ids@.no_duplicates(),
                live == start.live(),
                start.deleted == self.deleted@,
                forall|x: NodeId| #[trigger] ids@.contains(x) <==> live.contains(x),
                forall|j: int|
                    i <= j < ids@.len() ==> self.nodes@.dom().contains(#[trigger] ids@[j])
                        && self.nodes@[ids@[j]]@ == start.nodes[ids@[j]],
                node_views(nodes@) == start.survivors().restrict(ids@.take(i as int).to_set()),
                bucket_views(buckets@) == grouped(ids@.take(i as int), start.survivors()),
                self.config == start.config,
                self.hasher@.planes == start.planes,
                self.hasher@.dims == start.plane_dims,
                self.next_id == start.next_id,
                self.dims == start.dims,
            decreases ids.len() - i,
        {
            let id: NodeId = ids[i];
            let ghost rest = self.nodes@;
            if let Some(mut node) = self.nodes.remove(&id) {
                node.edges = without(&node.edges, &self.deleted);
                let key = node.fingerprint.bucket_key();
                let ghost kept = node@;
                let ghost before = node_views(nodes@);
                nodes.insert(id, node);
                register(&mut buckets, key, id);
                proof {
                    let seen = ids@.take(i as int);
                    let next = ids@.take(i + 1);
                    assert(ids@.contains(ids@[i as int]));
                    assert(kept =~= unlinked(start.nodes[id], start.deleted));
                    assert(next.drop_last() =~= seen);
                    assert(next =~= seen.push(id));
                    crate::ids::lemma_push_contains(seen, id);
                    assert(next.to_set() =~= seen.to_set().insert(id));
                    assert(node_views(nodes@) =~= before.insert(id, kept));
                    assert(node_views(nodes@) =~= start.survivors().restrict(next.to_set()));
                    assert forall|j: int| i + 1 <= j < ids@.len() implies self.nodes@.dom().contains(
                        #[trigger] ids@[j],
                    ) && self.nodes@[ids@[j]]@ == start.nodes[ids@[j]] by {
                        assert(ids@[j] != ids@[i as int]);
                        assert(rest.dom().contains(ids@[j]));
                    }
                }
            }
            i = i + 1;
        }
        assert(ids@.take(i as int) =~= ids@);
        assert(ids@.to_set() =~= live);
        assert(start.survivors().restrict(live) =~= start.survivors());
        self.nodes = nodes;
        self.coarse_buckets = buckets;
        self.deleted = BTreeSet::new();
        removed
    }

    /// The node with the given identifier, whether marked as deleted or not.
    pub fn get_node(&self, id: NodeId) -> (r: Option<&Node>)
        ensures
            match r {
                Some(node) => self@.nodes.dom().contains(id) && node@ == self@.nodes[id],
                None => !self@.nodes.dom().contains(id),
            },
    {
        assert(self@.nodes.dom() =~= self.nodes@.dom());
        self.nodes.get(&id)
    }

    /// How many nodes there are that are not marked as deleted.
    pub fn len(&self) -> (n: usize)
        ensures
            n == self@.count(),
            self@.wf() ==> n == self@.live().len(),
    {
        proof {
            if self@.wf() {
                lemma_count(self@);
            }
        }
        assert(self@.nodes.dom() =~= self.nodes@.dom());
        self.nodes.len().saturating_sub(self.deleted.len())
    }

    /// Whether there is no node that is not marked as deleted.
    pub fn is_empty(&self) -> (b: bool)
        ensures
            b == (self@.count() == 0),
            self@.wf() ==> b == (self@.live().len() == 0),
    {
        self.len() == 0
    }
}

} // verus!
