//! Centralities computed anew from the links alone.
use crate::arith::faithful;
use crate::arith::ops_of;
use crate::arith::Arithmetic;
use crate::arith::Ops;
use crate::ids::as_set;
use crate::ids::ascending;
use crate::ids::ids_without;
use crate::ids::lemma_ascending;
use crate::ids::lemma_push_contains;
use crate::ids::NodeId;
use crate::index::same_but_centrality;
use crate::index::IndexView;
use crate::index::NeuraRankIndex;
use crate::laws::lemma_centrality_wf;
use crate::node::NodeView;
use crate::pagerank::graph;
use crate::pagerank::link_views;
use crate::pagerank::power_iteration;
use crate::pagerank::ranks_after;
use crate::scalar::Scalar;
use vstd::prelude::*;

verus! {

impl IndexView {
    /// The links of a node that lead to live nodes.
    pub open spec fn live_links(self, id: NodeId) -> Seq<NodeId> {
        self.nodes[id].edges.filter(|target: NodeId| self.live().contains(target))
    }

    /// The links between live nodes, for each live node in turn.
    pub open spec fn live_graph(self) -> Seq<Seq<NodeId>> {
        ascending(self.live()).map_values(|id: NodeId| self.live_links(id))
    }

    /// The ranks of the live nodes after a number of rounds.
    pub open spec fn ranks(self, g: Ops<Scalar>, rounds: nat) -> Map<NodeId, Scalar> {
        ranks_after(
            g,
            self.config.damping,
            ascending(self.live()),
            self.live_graph(),
            rounds,
        )
    }

    /// The index with the given centralities.
    pub open spec fn with_centralities(self, ranks: Map<NodeId, Scalar>) -> IndexView {
        IndexView {
            nodes: Map::new(
                |id: NodeId| self.nodes.dom().contains(id),
                |id: NodeId|
                    if ranks.dom().contains(id) {
                        NodeView { centrality: ranks[id], ..self.nodes[id] }
                    } else {
                        self.nodes[id]
                    },
            ),
            ..self
        }
    }

    /// The index with the centralities of its live nodes computed anew.
    pub open spec fn reranked(self, g: Ops<Scalar>, rounds: nat) -> IndexView {
        self.with_centralities(self.ranks(g, rounds))
    }
}

proof fn lemma_links_push(v: IndexView, q: Seq<NodeId>, id: NodeId)
    ensures
        q.push(id).filter(|target: NodeId| v.live().contains(target)) == if v.live().contains(id) {
            q.filter(|target: NodeId| v.live().contains(target)).push(id)
        } else {
            q.filter(|target: NodeId| v.live().contains(target))
        },
{
    reveal(Seq::filter);
    assert(q.push(id).drop_last() =~= q);
}

/// The links between live nodes form a graph: none leads to a node that is not live.
pub proof fn lemma_live_graph(v: IndexView)
    ensures
        graph(ascending(v.live()), v.live_graph()),
{
    let ids = ascending(v.live());
    let links = v.live_graph();
    lemma_ascending(v.live());
    assert forall|i: int, j: int| 0 <= i < links.len() && 0 <= j < links[i].len() implies ids.contains(
        #[trigger] links[i][j],
    ) by {
        let edges = v.nodes[ids[i]].edges;
        let pred = |target: NodeId| v.live().contains(target);
        edges.lemma_filter_pred(pred, j);
    }
}

impl NeuraRankIndex {
    /// The links of a node that lead to live nodes.
    fn links_of(&self, edges: &Vec<NodeId>) -> (out: Vec<NodeId>)
        ensures
            out@ == edges@.filter(|target: NodeId| self@.live().contains(target)),
    {
        let ghost v = self@;
        let mut out: Vec<NodeId> = Vec::new();
        let mut i: usize = 0;
        proof {
            reveal(Seq::filter);
        }
        assert(out@ =~= edges@.take(0).filter(|target: NodeId| v.live().contains(target)));
        while i < edges.len()
            invariant
                v == self@,
                i <= edges@.len(),
                out@ == edges@.take(i as int).filter(|target: NodeId| v.live().contains(target)),
            decreases edges.len() - i,
        {
            let id: NodeId = edges[i];
            proof {
                assert(v.nodes.dom() =~= self.nodes@.dom());
                lemma_links_push(v, edges@.take(i as int), id);
                assert(edges@.take(i + 1) =~= edges@.take(i as int).push(id));
            }
            if !self.deleted.contains(&id) && self.nodes.contains_key(&id) {
                out.push(id);
            }
            i = i + 1;
        }
        assert(edges@.take(i as int) =~= edges@);
        out
    }

    /// The links between live nodes.
    fn links_between(&self, ids: &Vec<NodeId>) -> (links: Vec<Vec<NodeId>>)
        requires
            ids@ == ascending(self@.live()),
        ensures
            link_views(links@) == self@.live_graph(),
    {
        let ghost v = self@;
        let mut links: Vec<Vec<NodeId>> = Vec::new();
        let mut i: usize = 0;
        proof {
            lemma_ascending(v.live());
            assert(v.nodes.dom() =~= self.nodes@.dom());
        }
        while i < ids.len()
            invariant
                v == self@,
                v.nodes.dom() == self.nodes@.dom(),
                ids@ == ascending(v.live()),
                forall|x: NodeId| #[trigger] ids@.contains(x) <==> v.live().contains(x),
                i <= ids@.len(),
                links@.len() == i,
                forall|j: int| 0 <= j < i ==> (#[trigger] links@[j])@ == v.live_links(ids@[j]),
            decreases ids.len() - i,
        {
            assert(ids@.contains(ids@[i as int]));
            if let Some(node) = self.nodes.get(&ids[i]) {
                links.push(self.links_of(&node.edges));
            }
            i = i + 1;
        }
        assert(link_views(links@) =~= v.live_graph());
        links
    }

    /// Computes the centralities of the live nodes anew, by power iteration over their links.
    ///
    /// The rank of a node without links to live nodes is shared out evenly, so no rank is lost:
    /// but for rounding the centralities sum to one. Where no node is live, nothing changes.
    pub fn rerank<A: Arithmetic>(&mut self, iters: usize, ar: &A)
        ensures
            final(self)@ == (IndexView { nodes: final(self)@.nodes, ..old(self)@ }),
            same_but_centrality(
                old(self)@.nodes,
                final(self)@.nodes,
                ascending(old(self)@.live()),
            ),
            old(self)@.wf() ==> final(self)@.wf(),
            faithful(ar) ==> final(self)@ == old(self)@.reranked(ops_of(ar), iters as nat),
    {
        let ghost v = self@;
        let ghost g = ops_of(ar);
        let ids = ids_without(&self.nodes, &self.deleted, None);
        proof {
            assert(v.nodes.dom() =~= self.nodes@.dom());
            assert(self.nodes@.dom().difference(self.deleted@).difference(as_set(None))
                =~= v.live());
            lemma_ascending(v.live());
            lemma_live_graph(v);
        }
        if ids.len() == 0 {
            proof {
                assert(v.reranked(g, iters as nat) =~= v) by {
                    lemma_ranks_dom(g, v.config.damping, ids@, v.live_graph(), iters as nat);
                    assert forall|id: NodeId| !(#[trigger] v.ranks(g, iters as nat).dom().contains(
                        id,
                    )) by {
                        assert(!ids@.contains(id));
                    }
                    assert(v.reranked(g, iters as nat).nodes =~= v.nodes);
                }
            }
            return;
        }
        let links = self.links_between(&ids);
        let ranks = power_iteration(&ids, &links, self.config.damping, iters, ar);
        let mut i: usize = 0;
        assert(self@.nodes =~= v.with_centralities(
            ranks@.restrict(ids@.take(0).to_set()),
        ).nodes);
        while i < ids.len()
            invariant
                i <= ids@.len(),
                ids@.no_duplicates(),
                ranks@.dom() == ids@.to_set(),
                forall|x: NodeId| #[trigger] ids@.contains(x) ==> v.nodes.dom().contains(x),
                self@ == v.with_centralities(ranks@.restrict(ids@.take(i as int).to_set())),
            decreases ids.len() - i,
        {
            let id: NodeId = ids[i];
            let ghost before = self@.nodes;
            proof {
                assert(ids@.contains(ids@[i as int]));
                assert(before.dom() =~= self.nodes@.dom());
                lemma_push_contains(ids@.take(i as int), id);
                assert(ids@.take(i + 1) =~= ids@.take(i as int).push(id));
            }
            if let Some(rank) = ranks.get(&id) {
                if let Some(mut node) = self.nodes.remove(&id) {
                    assert(before[id] == node@);
                    node.centrality = *rank;
                    let ghost new_node = node@;
                    assert(new_node =~= NodeView { centrality: ranks@[id], ..v.nodes[id] });
                    self.nodes.insert(id, node);
                    assert(self@.nodes =~= before.insert(id, new_node));
                    proof {
                        let seen = ids@.take(i as int).to_set();
                        let next = ids@.take(i + 1).to_set();
                        assert(next =~= seen.insert(id));
                        assert(self@.nodes =~= v.with_centralities(ranks@.restrict(next)).nodes);
                    }
                }
            }
            i = i + 1;
        }
        proof {
            assert(ids@.take(i as int) =~= ids@);
            assert(ranks@.restrict(ids@.to_set()) =~= ranks@);
            if v.wf() {
                lemma_centrality_wf(v, self@, ids@);
            }
        }
    }
}

proof fn lemma_spread_dom<T>(g: Ops<T>, ranks: Map<NodeId, T>, targets: Seq<NodeId>, amount: T)
    requires
        forall|j: int| 0 <= j < targets.len() ==> ranks.dom().contains(#[trigger] targets[j]),
    ensures
        crate::pagerank::spread(g, ranks, targets, amount).dom() == ranks.dom(),
    decreases targets.len(),
{
    if targets.len() > 0 {
        let front = targets.drop_last();
        assert forall|j: int| 0 <= j < front.len() implies ranks.dom().contains(
            #[trigger] front[j],
        ) by {
            assert(ranks.dom().contains(targets[j]));
        }
        lemma_spread_dom(g, ranks, front, amount);
        assert(ranks.dom().contains(targets[targets.len() - 1]));
        assert(crate::pagerank::spread(g, ranks, targets, amount).dom() =~= ranks.dom());
    }
}

proof fn lemma_passed_on_dom<T>(
    g: Ops<T>,
    damping: T,
    ids: Seq<NodeId>,
    links: Seq<Seq<NodeId>>,
    ranks: Map<NodeId, T>,
    n: nat,
)
    requires
        graph(ids, links),
        n <= ids.len(),
    ensures
        crate::pagerank::passed_on(g, damping, ids, links, ranks, n).dom() == ids.to_set(),
    decreases n,
{
    if n == 0 {
        assert(crate::pagerank::passed_on(g, damping, ids, links, ranks, n).dom() =~= ids.to_set());
    } else {
        let before = crate::pagerank::passed_on(g, damping, ids, links, ranks, (n - 1) as nat);
        let targets = links[n - 1];
        lemma_passed_on_dom(g, damping, ids, links, ranks, (n - 1) as nat);
        assert forall|j: int| 0 <= j < targets.len() implies before.dom().contains(
            #[trigger] targets[j],
        ) by {
            assert(ids.contains(links[n - 1][j]));
        }
        lemma_spread_dom(
            g,
            before,
            targets,
            crate::pagerank::outflow(g, damping, ranks[ids[n - 1]], targets.len()),
        );
    }
}

/// Every node of a graph has a rank after every round, and nothing else has.
pub proof fn lemma_ranks_dom<T>(
    g: Ops<T>,
    damping: T,
    ids: Seq<NodeId>,
    links: Seq<Seq<NodeId>>,
    rounds: nat,
)
    requires
        graph(ids, links),
    ensures
        ranks_after(g, damping, ids, links, rounds).dom() == ids.to_set(),
{
    if rounds == 0 {
        assert(ranks_after(g, damping, ids, links, rounds).dom() =~= ids.to_set());
    } else {
        let before = ranks_after(g, damping, ids, links, (rounds - 1) as nat);
        lemma_passed_on_dom(g, damping, ids, links, before, ids.len());
    }
}

} // verus!
