//! Figures on an index as a whole.
use crate::arith::faithful;
use crate::arith::ops_of;
use crate::arith::Arithmetic;
use crate::arith::Ops;
use crate::ids::ascending;
use crate::ids::ids_of;
use crate::ids::lemma_ascending;
use crate::ids::NodeId;
use crate::index::IndexView;
use crate::index::NeuraRankIndex;
use crate::node::NodeView;
use crate::scalar::zero;
use crate::scalar::Scalar;
use vstd::prelude::*;

verus! {

/// Figures on an index as a whole. Averages and the maximum are over the nodes that are not marked
/// as deleted.
#[derive(Clone, Copy, PartialEq, Eq, Structural, Debug)]
pub struct IndexStats {
    pub node_count: usize,
    pub deleted_count: usize,
    pub bucket_count: usize,
    pub avg_edges_per_node: Scalar,
    pub avg_centrality: Scalar,
    pub max_centrality: Scalar,
    /// The number of entries of the vectors, and zero before there is one.
    pub dims: usize,
}

impl IndexView {
    /// The nodes that are not marked as deleted, by the identifiers that they carry: oldest first.
    pub open spec fn counted(self) -> Seq<NodeView> {
        ascending(self.nodes.dom()).map_values(|id: NodeId| self.nodes[id]).filter(
            |n: NodeView| !self.deleted.contains(n.id),
        )
    }

    /// The figures on the index.
    pub open spec fn summary(self, g: Ops<Scalar>) -> IndexStats {
        let nodes = self.counted();
        let size = (g.count)(nodes.len());
        IndexStats {
            node_count: nodes.len() as usize,
            deleted_count: self.deleted.len() as usize,
            bucket_count: self.buckets.dom().len() as usize,
            avg_edges_per_node: if nodes.len() == 0 {
                zero()
            } else {
                (g.over)((g.count)(edge_total(nodes) % 0x1_0000_0000_0000_0000), size)
            },
            avg_centrality: if nodes.len() == 0 {
                zero()
            } else {
                (g.over)(centrality_sum(g, nodes), size)
            },
            max_centrality: centrality_peak(nodes),
            dims: self.dims.unwrap_or(0),
        }
    }
}

/// The number of links of the nodes.
pub open spec fn edge_total(nodes: Seq<NodeView>) -> nat
    decreases nodes.len(),
{
    if nodes.len() == 0 {
        0
    } else {
        edge_total(nodes.drop_last()) + nodes.last().edges.len()
    }
}

/// The sum of the centralities, added from the left.
pub open spec fn centrality_sum(g: Ops<Scalar>, nodes: Seq<NodeView>) -> Scalar
    decreases nodes.len(),
{
    if nodes.len() == 0 {
        zero()
    } else {
        (g.plus)(centrality_sum(g, nodes.drop_last()), nodes.last().centrality)
    }
}

/// The largest centrality, and zero where none is larger.
pub open spec fn centrality_peak(nodes: Seq<NodeView>) -> Scalar
    decreases nodes.len(),
{
    if nodes.len() == 0 {
        zero()
    } else {
        centrality_peak(nodes.drop_last()).larger(nodes.last().centrality)
    }
}

/// The largest centrality is one of the centralities or zero, and no centrality that is a number
/// is larger.
pub proof fn lemma_peak_is_largest(nodes: Seq<NodeView>)
    ensures
        !centrality_peak(nodes).nan(),
        centrality_peak(nodes) == zero() || exists|i: int|
            0 <= i < nodes.len() && (#[trigger] nodes[i]).centrality == centrality_peak(nodes),
        forall|i: int|
            0 <= i < nodes.len() ==> !centrality_peak(nodes).less((#[trigger] nodes[i]).centrality),
    decreases nodes.len(),
{
    if nodes.len() > 0 {
        let front = nodes.drop_last();
        lemma_peak_is_largest(front);
        let before = centrality_peak(front);
        let last = nodes[nodes.len() - 1];
        if before != zero() {
            let k = choose|k: int|
                0 <= k < front.len() && (#[trigger] front[k]).centrality == before;
            assert(nodes[k].centrality == before);
        }
        assert(last == nodes.last());
        assert forall|i: int| 0 <= i < nodes.len() implies !centrality_peak(nodes).less(
            (#[trigger] nodes[i]).centrality,
        ) by {
            if i < front.len() {
                assert(!before.less(front[i].centrality));
            }
        }
    }
}

/// Where some centrality is zero or more, the largest centrality is that of a node.
pub proof fn lemma_peak_is_reached(nodes: Seq<NodeView>)
    requires
        exists|i: int|
            0 <= i < nodes.len() && !(#[trigger] nodes[i]).centrality.nan()
                && nodes[i].centrality.key() >= 0,
    ensures
        exists|i: int|
            0 <= i < nodes.len() && !(#[trigger] nodes[i]).centrality.nan()
                && nodes[i].centrality.key() == centrality_peak(nodes).key(),
{
    lemma_peak_is_largest(nodes);
    let i = choose|i: int|
        0 <= i < nodes.len() && !(#[trigger] nodes[i]).centrality.nan()
            && nodes[i].centrality.key() >= 0;
    if centrality_peak(nodes) == zero() {
        assert(nodes[i].centrality.key() == centrality_peak(nodes).key());
    }
}

impl NeuraRankIndex {
    /// Figures on the index as a whole.
    pub fn stats<A: Arithmetic>(&self, ar: &A) -> (s: IndexStats)
        ensures
            s.node_count == self@.counted().len(),
            s.deleted_count == self@.deleted.len(),
            s.bucket_count == self@.buckets.dom().len(),
            s.max_centrality == centrality_peak(self@.counted()),
            s.dims == self.dims.unwrap_or(0),
            self@.counted().len() == 0 ==> s.avg_edges_per_node == zero() && s.avg_centrality
                == zero(),
            faithful(ar) ==> s == self@.summary(ops_of(ar)),
    {
        let ghost v = self@;
        let ghost g = ops_of(ar);
        let ghost pred = |n: NodeView| !v.deleted.contains(n.id);
        let ids = ids_of(&self.nodes);
        let ghost all = ids@.map_values(|id: NodeId| v.nodes[id]);
        proof {
            assert(v.nodes.dom() =~= self.nodes@.dom());
            assert(v.buckets.dom() =~= self.coarse_buckets@.dom());
            lemma_ascending(v.nodes.dom());
            reveal(Seq::filter);
        }
        let mut count: usize = 0;
        let mut edges: u64 = 0;
        let mut sum = zero();
        let mut peak = zero();
        let mut i: usize = 0;
        assert(all.take(0).filter(pred) =~= Seq::empty());
        while i < ids.len()
            invariant
                v == self@,
                g == ops_of(ar),
                pred == (|n: NodeView| !v.deleted.contains(n.id)),
                v.nodes.dom() == self.nodes@.dom(),
                all == ids@.map_values(|id: NodeId| v.nodes[id]),
                ids@ == ascending(v.nodes.dom()),
                forall|x: NodeId| #[trigger] ids@.contains(x) <==> v.nodes.dom().contains(x),
                i <= ids@.len(),
                count <= i,
                count == all.take(i as int).filter(pred).len(),
                edges == edge_total(all.take(i as int).filter(pred)) % 0x1_0000_0000_0000_0000,
                peak == centrality_peak(all.take(i as int).filter(pred)),
                faithful(ar) ==> sum == centrality_sum(g, all.take(i as int).filter(pred)),
            decreases ids.len() - i,
        {
            proof {
                assert(ids@.contains(ids@[i as int]));
                reveal(Seq::filter);
                assert(all.take(i + 1).drop_last() =~= all.take(i as int));
            }
            let ghost seen = all.take(i as int).filter(pred);
            if let Some(node) = self.nodes.get(&ids[i]) {
                assert(all[i as int] == node@);
                if !self.deleted.contains(&node.id) {
                    assert(all.take(i + 1).filter(pred) == seen.push(node@));
                    assert(seen.push(node@).drop_last() =~= seen);
                    count = count + 1;
                    edges = edges.wrapping_add(node.edges.len() as u64);
                    sum = ar.plus(sum, node.centrality);
                    peak = peak.max(node.centrality);
                } else {
                    assert(all.take(i + 1).filter(pred) == seen);
                }
            }
            i = i + 1;
        }
        assert(all.take(i as int) =~= all);
        assert(all.filter(pred) == v.counted());
        let mut avg_edges_per_node = zero();
        let mut avg_centrality = zero();
        if count > 0 {
            let size = ar.count(count as u64);
            let links = ar.count(edges);
            avg_edges_per_node = ar.over(links, size);
            avg_centrality = ar.over(sum, size);
        }
        IndexStats {
            node_count: count,
            deleted_count: self.deleted.len(),
            bucket_count: self.coarse_buckets.len(),
            avg_edges_per_node,
            avg_centrality,
            max_centrality: peak,
            dims: match self.dims {
                Some(dims) => dims,
                None => 0,
            },
        }
    }
}

} // verus!
