//! What holds of an index whatever is done to it.
use crate::arith::exact_ops;
use crate::arith::Ops;
use crate::fingerprint::SimFingerprint;
use crate::hasher::fingerprint_of;
use crate::hasher::planes_of;
use crate::ids::as_set;
use crate::ids::ascending;
use crate::ids::increasing;
use crate::ids::lemma_all_survive;
use crate::ids::lemma_ascending;
use crate::ids::lemma_ascending_len;
use crate::ids::lemma_push_contains;
use crate::ids::lemma_surviving;
use crate::ids::lemma_surviving_increasing;
use crate::ids::NodeId;
use crate::ids::surviving;
use crate::index::base_centrality;
use crate::index::Dims;
use crate::index::endorsed;
use crate::index::FIRST_DIMS;
use crate::index::SEED;
use crate::index::grouped;
use crate::index::grown;
use crate::index::IndexView;
use crate::index::link_amount;
use crate::index::link_share;
use crate::index::registered;
use crate::index::same_but_centrality;
use crate::node::NodeView;
use crate::pagerank::ranks_after;
use crate::pagerank_laws::lemma_rank_floor;
use crate::pagerank_laws::lemma_ranks_positive;
use crate::pagerank_laws::lemma_ranks_sum_to_one;
use crate::pagerank_laws::total;
use crate::ranking::first;
use crate::ranking::lemma_first_is_best;
use crate::ranking::lemma_ranked;
use crate::ranking::ranked;
use crate::scalar::Scalar;
use crate::stats::edge_total;
use crate::upkeep::unlinked;
use vstd::arithmetic::power2::pow2;
use vstd::prelude::*;

verus! {

/// Whether the node stands under its own identifier, is of the index's kind, and links to older
/// nodes only, to none twice and to no more than allowed.
pub open spec fn node_wf(v: IndexView, id: NodeId) -> bool {
    let node = v.nodes[id];
    &&& node.id == id
    &&& id < v.next_id
    &&& v.dims == Some(node.vector.len() as Dims)
    &&& node.fingerprint.0 < pow2(v.planes.len())
    &&& node.edges.len() <= v.config.k_neighbors
    &&& node.edges.no_duplicates()
    &&& forall|target: NodeId| #[trigger]
        node.edges.contains(target) ==> v.nodes.dom().contains(target) && target < id
}

/// Whether the buckets list every node, once, in the bucket of its fingerprint, oldest first, and
/// nothing else.
pub open spec fn buckets_wf(
    buckets: Map<u16, Seq<NodeId>>,
    nodes: Map<NodeId, NodeView>,
    dom: Set<NodeId>,
) -> bool {
    &&& forall|key: u16| #[trigger]
        buckets.dom().contains(key) ==> buckets[key].len() > 0 && increasing(buckets[key])
    &&& forall|key: u16, id: NodeId|
        buckets.dom().contains(key) ==> (#[trigger] buckets[key].contains(id) <==> dom.contains(id)
            && nodes[id].fingerprint.bucket() == key)
    &&& forall|id: NodeId| #[trigger]
        dom.contains(id) ==> buckets.dom().contains(nodes[id].fingerprint.bucket())
}

impl IndexView {
    /// What holds of every index that was made by `new` and changed by the operations of the
    /// library alone.
    pub open spec fn wf(self) -> bool {
        &&& forall|id: NodeId| #[trigger] self.nodes.dom().contains(id) ==> node_wf(self, id)
        &&& buckets_wf(self.buckets, self.nodes, self.nodes.dom())
        &&& self.deleted.subset_of(self.nodes.dom())
        &&& self.plane_dims == self.hasher_dims()
        &&& self.planes.len() == self.config.n_projections
        &&& forall|i: int|
            0 <= i < self.planes.len() ==> #[trigger] self.planes[i].len() == self.plane_dims
    }
}

/// A new index is well formed.
pub proof fn lemma_new_wf(v: IndexView)
    requires
        v.nodes == Map::<NodeId, NodeView>::empty(),
        v.buckets == Map::<u16, Seq<NodeId>>::empty(),
        v.deleted == Set::<NodeId>::empty(),
        v.dims is None,
        v.plane_dims == FIRST_DIMS,
        v.planes.len() == v.config.n_projections,
        forall|i: int| 0 <= i < v.planes.len() ==> #[trigger] v.planes[i].len() == FIRST_DIMS,
    ensures
        v.wf(),
        v.live() == Set::<NodeId>::empty(),
        v.count() == 0,
{
    assert(v.live() =~= Set::empty());
}

/// Marking a node keeps an index well formed.
pub proof fn lemma_marked_wf(v: IndexView, id: NodeId)
    requires
        v.wf(),
    ensures
        v.marked(id).wf(),
{
    let w = v.marked(id);
    assert forall|x: NodeId| #[trigger] w.nodes.dom().contains(x) implies node_wf(w, x) by {
        assert(node_wf(v, x));
    }
}

/// A marked node is no longer live, at once, and no other node is touched.
pub proof fn lemma_marked_live(v: IndexView, id: NodeId)
    ensures
        v.marked(id).live() == v.live().remove(id),
        v.marked(id).nodes == v.nodes,
        v.marked(id).marked(id) == v.marked(id),
        !v.nodes.dom().contains(id) ==> v.marked(id) == v,
{
    assert(v.marked(id).live() =~= v.live().remove(id));
    assert(v.deleted.insert(id).insert(id) =~= v.deleted.insert(id));
    assert(v.marked(id).marked(id) =~= v.marked(id));
}

/// The length of an index is the number of its live nodes.
pub proof fn lemma_count(v: IndexView)
    requires
        v.deleted.subset_of(v.nodes.dom()),
    ensures
        v.count() == v.live().len(),
{
    lemma_ascending_len(v.nodes.dom());
    lemma_ascending_len(v.deleted);
    lemma_ascending_len(v.live());
    vstd::set_lib::lemma_set_disjoint_lens(v.live(), v.deleted);
    assert(v.live() + v.deleted =~= v.nodes.dom());
}

/// Marking a live node makes the index shorter by one; marking another changes no length.
pub proof fn lemma_marked_count(v: IndexView, id: NodeId)
    requires
        v.deleted.subset_of(v.nodes.dom()),
    ensures
        v.live().contains(id) ==> v.marked(id).count() == v.count() - 1,
        !v.live().contains(id) ==> v.marked(id).count() == v.count(),
{
    lemma_count(v);
    assert(v.marked(id).deleted.subset_of(v.nodes.dom()));
    lemma_count(v.marked(id));
    lemma_marked_live(v, id);
    lemma_ascending_len(v.live());
    if !v.live().contains(id) {
        assert(v.live().remove(id) =~= v.live());
    }
}

proof fn lemma_registered_wf(
    buckets: Map<u16, Seq<NodeId>>,
    nodes: Map<NodeId, NodeView>,
    dom: Set<NodeId>,
    id: NodeId,
)
    requires
        buckets_wf(buckets, nodes, dom),
        forall|other: NodeId| #[trigger] dom.contains(other) ==> other < id,
    ensures
        buckets_wf(
            registered(buckets, nodes[id].fingerprint.bucket(), id),
            nodes,
            dom.insert(id),
        ),
{
    let key = nodes[id].fingerprint.bucket();
    let after = registered(buckets, key, id);
    if buckets.dom().contains(key) {
        lemma_push_contains(buckets[key], id);
        assert forall|i: int| 0 <= i < buckets[key].len() implies buckets[key][i] < id by {
            assert(buckets[key].contains(buckets[key][i]));
        }
    }
    assert forall|k: u16| #[trigger] after.dom().contains(k) implies after[k].len() > 0
        && increasing(after[k]) by {
        if k != key {
            assert(buckets.dom().contains(k));
        }
    }
    assert forall|k: u16, other: NodeId|
        after.dom().contains(k) implies (#[trigger] after[k].contains(other) <==> dom.insert(
        id,
    ).contains(other) && nodes[other].fingerprint.bucket() == k) by {
        if k != key {
            assert(buckets.dom().contains(k));
            assert(after[k] == buckets[k]);
            assert(buckets[k].contains(other) <==> dom.contains(other)
                && nodes[other].fingerprint.bucket() == k);
        } else if buckets.dom().contains(key) {
            assert(buckets[key].contains(other) <==> dom.contains(other)
                && nodes[other].fingerprint.bucket() == key);
        } else {
            assert(after[key] == seq![id]);
            if after[key].contains(other) {
                assert(other == id);
            }
            if other == id {
                assert(after[key][0] == id);
            }
        }
    }
}

proof fn lemma_buckets_same_fingerprints(
    buckets: Map<u16, Seq<NodeId>>,
    a: Map<NodeId, NodeView>,
    b: Map<NodeId, NodeView>,
    dom: Set<NodeId>,
)
    requires
        buckets_wf(buckets, a, dom),
        forall|id: NodeId| #[trigger]
            dom.contains(id) ==> a[id].fingerprint == b[id].fingerprint,
    ensures
        buckets_wf(buckets, b, dom),
{
    assert forall|key: u16, id: NodeId|
        buckets.dom().contains(key) implies (#[trigger] buckets[key].contains(id) <==> dom.contains(
        id,
    ) && b[id].fingerprint.bucket() == key) by {
        assert(buckets[key].contains(id) <==> dom.contains(id) && a[id].fingerprint.bucket()
            == key);
    }
}

/// The neighbours of a new node are the nearest by Hamming distance: they are live, none is listed
/// twice, there are as many as asked for unless there are not that many, and no node that was left
/// out is nearer than one that was chosen.
pub proof fn lemma_nearest(v: IndexView, fp: SimFingerprint, k: nat, exclude: Option<NodeId>)
    ensures
        ({
            let near = v.nearest(fp, k, exclude);
            let others = v.live().difference(as_set(exclude));
            &&& near.no_duplicates()
            &&& near.len() == if others.len() <= k {
                others.len()
            } else {
                k
            }
            &&& forall|id: NodeId| #[trigger] near.contains(id) ==> others.contains(id)
            &&& forall|x: NodeId, y: NodeId|
                #![trigger near.contains(x), others.contains(y)]
                near.contains(x) && others.contains(y) && !near.contains(y) ==> fp.distance(
                    v.nodes[x].fingerprint,
                ) <= fp.distance(v.nodes[y].fingerprint)
        }),
{
    let others = v.live().difference(as_set(exclude));
    let ids = ascending(others);
    let scored = v.similarities(fp, ids);
    let best = first(ranked(scored), k);
    let near = v.nearest(fp, k, exclude);
    lemma_ascending(others);
    lemma_ascending_len(others);
    lemma_ranked(scored);
    crate::search::lemma_chosen(ids, scored, k);
    assert(near =~= best.map_values(|c: (NodeId, Scalar)| c.0));
    assert forall|i: int, j: int| 0 <= i < j < near.len() implies near[i] != near[j] by {
        assert(best[i].0 != best[j].0);
    }
    assert forall|id: NodeId| #[trigger] near.contains(id) implies others.contains(id) by {
        let i = choose|i: int| 0 <= i < near.len() && near[i] == id;
        assert(ids.contains(best[i].0));
    }
    assert forall|x: NodeId, y: NodeId|
        #![trigger near.contains(x), others.contains(y)]
        near.contains(x) && others.contains(y) && !near.contains(y) implies fp.distance(
        v.nodes[x].fingerprint,
    ) <= fp.distance(v.nodes[y].fingerprint) by {
        let i = choose|i: int| 0 <= i < near.len() && near[i] == x;
        let cx = best[i];
        assert(best.contains(cx));
        assert(ranked(scored)[i] == cx);
        assert(ranked(scored).contains(cx));
        assert(scored.contains(cx));
        let m = choose|m: int| 0 <= m < scored.len() && scored[m] == cx;
        assert(ids.contains(y));
        let j = choose|j: int| 0 <= j < ids.len() && ids[j] == y;
        let cy = scored[j];
        assert(scored.contains(cy));
        if best.contains(cy) {
            let n = choose|n: int| 0 <= n < best.len() && best[n] == cy;
            assert(near[n] == y);
        }
        lemma_first_is_best(scored, k, cx, cy);
        crate::fingerprint::lemma_agreement_orders_by_distance(
            fp,
            v.nodes[y].fingerprint,
            v.nodes[x].fingerprint,
        );
    }
}

/// The neighbours of a new node are listed nearest first.
pub proof fn lemma_nearest_order(v: IndexView, fp: SimFingerprint, k: nat, exclude: Option<NodeId>)
    ensures
        ({
            let near = v.nearest(fp, k, exclude);
            forall|i: int, j: int|
                0 <= i < j < near.len() ==> fp.distance(v.nodes[#[trigger] near[i]].fingerprint)
                    <= fp.distance(v.nodes[#[trigger] near[j]].fingerprint)
        }),
{
    let ids = ascending(v.live().difference(as_set(exclude)));
    let scored = v.similarities(fp, ids);
    let all = ranked(scored);
    let near = v.nearest(fp, k, exclude);
    lemma_ranked(scored);
    assert forall|i: int| 0 <= i < all.len() implies (#[trigger] all[i]).1 == fp.agreement(
        v.nodes[all[i].0].fingerprint,
    ) by {
        assert(all.contains(all[i]));
        let m = choose|m: int| 0 <= m < scored.len() && scored[m] == all[i];
        assert(scored[m].0 == ids[m]);
    }
    assert forall|i: int, j: int| 0 <= i < j < near.len() implies fp.distance(
        v.nodes[#[trigger] near[i]].fingerprint,
    ) <= fp.distance(v.nodes[#[trigger] near[j]].fingerprint) by {
        assert(near[i] == all[i].0 && near[j] == all[j].0);
        assert(!crate::ranking::ahead(all[j], all[i]));
        crate::fingerprint::lemma_agreement_orders_by_distance(
            fp,
            v.nodes[near[j]].fingerprint,
            v.nodes[near[i]].fingerprint,
        );
    }
}

/// An insertion keeps an index well formed, however the arithmetic rounds.
pub proof fn lemma_grown_wf(
    v: IndexView,
    w: IndexView,
    vector: Seq<Scalar>,
    label: Option<Seq<char>>,
)
    requires
        v.wf(),
        grown(v, w, vector, label),
        vector.len() <= usize::MAX,
        v.next_id < u32::MAX,
        v.dims is Some ==> v.dims == Some(vector.len() as Dims),
    ensures
        w.wf(),
        w.live() == v.live().insert(v.next_id),
        w.count() == v.count() + 1,
{
    let id = v.next_id;
    let node = w.nodes[id];
    if v.nodes.dom().contains(id) {
        assert(node_wf(v, id));
    }
    lemma_nearest(v, node.fingerprint, v.config.k_neighbors as nat, Some(id));
    assert forall|x: NodeId| #[trigger] w.nodes.dom().contains(x) implies node_wf(w, x) by {
        if x == id {
            assert forall|target: NodeId| #[trigger] node.edges.contains(target) implies w.nodes.dom().contains(
                target,
            ) && target < id by {
                assert(v.live().contains(target));
                assert(node_wf(v, target));
            }
        } else {
            assert(v.nodes.dom().contains(x));
            assert(node_wf(v, x));
            assert(w.nodes[x].edges == v.nodes[x].edges);
        }
    }
    assert forall|x: NodeId| #[trigger] v.nodes.dom().contains(x) implies v.nodes[x].fingerprint
        == w.nodes[x].fingerprint && x < id by {
        assert(node_wf(v, x));
        assert(w.nodes[x].fingerprint == v.nodes[x].fingerprint);
    }
    lemma_buckets_same_fingerprints(v.buckets, v.nodes, w.nodes, v.nodes.dom());
    lemma_registered_wf(v.buckets, w.nodes, v.nodes.dom(), id);
    assert(w.live() =~= v.live().insert(id));
    lemma_count(v);
    lemma_count(w);
    lemma_ascending_len(v.live());
}

/// New centralities keep an index well formed, and its live nodes the same.
pub proof fn lemma_centrality_wf(v: IndexView, w: IndexView, touched: Seq<NodeId>)
    requires
        v.wf(),
        same_but_centrality(v.nodes, w.nodes, touched),
        w == (IndexView { nodes: w.nodes, ..v }),
    ensures
        w.wf(),
        w.live() == v.live(),
        w.count() == v.count(),
{
    assert forall|x: NodeId| #[trigger] w.nodes.dom().contains(x) implies node_wf(w, x) by {
        assert(v.nodes.dom().contains(x));
        assert(node_wf(v, x));
        assert(w.nodes[x].edges == v.nodes[x].edges);
    }
    assert forall|x: NodeId| #[trigger] v.nodes.dom().contains(x) implies v.nodes[x].fingerprint
        == w.nodes[x].fingerprint by {}
    lemma_buckets_same_fingerprints(v.buckets, v.nodes, w.nodes, v.nodes.dom());
}

pub(crate) proof fn lemma_grouped_wf(ids: Seq<NodeId>, nodes: Map<NodeId, NodeView>)
    requires
        increasing(ids),
    ensures
        buckets_wf(grouped(ids, nodes), nodes, ids.to_set()),
    decreases ids.len(),
{
    if ids.len() == 0 {
        assert(grouped(ids, nodes) == Map::<u16, Seq<NodeId>>::empty());
    } else {
        let front = ids.drop_last();
        let id = ids.last();
        lemma_grouped_wf(front, nodes);
        assert forall|other: NodeId| #[trigger] front.to_set().contains(other) implies other
            < id by {
            let k = choose|k: int| 0 <= k < front.len() && front[k] == other;
            assert(ids[k] < ids[ids.len() - 1]);
        }
        lemma_registered_wf(grouped(front, nodes), nodes, front.to_set(), id);
        lemma_push_contains(front, id);
        assert(ids =~= front.push(id));
        assert(ids.to_set() =~= front.to_set().insert(id));
    }
}

/// Compaction removes exactly the nodes that were marked, leaves no link to one of them, and keeps
/// the others with all else that they hold. A second compaction finds nothing to do.
pub proof fn lemma_compacted(v: IndexView)
    ensures
        v.compacted().nodes.dom() == v.live(),
        v.compacted().live() == v.live(),
        v.compacted().deleted == Set::<NodeId>::empty(),
        forall|id: NodeId| #[trigger]
            v.live().contains(id) ==> v.compacted().nodes[id] == unlinked(
                v.nodes[id],
                v.deleted,
            ),
        forall|id: NodeId, target: NodeId|
            v.live().contains(id) ==> (#[trigger] v.compacted().nodes[id].edges.contains(target)
                <==> v.nodes[id].edges.contains(target) && !v.deleted.contains(target)),
        v.compacted().compacted() == v.compacted(),
{
    let w = v.compacted();
    assert(w.nodes.dom() =~= v.live());
    assert(w.live() =~= v.live());
    assert forall|id: NodeId, target: NodeId| v.live().contains(id) implies (
    #[trigger] w.nodes[id].edges.contains(target) <==> v.nodes[id].edges.contains(target)
        && !v.deleted.contains(target)) by {
        lemma_surviving(v.nodes[id].edges, v.deleted);
    }
    assert forall|id: NodeId| #[trigger] w.nodes.dom().contains(id) implies unlinked(
        w.nodes[id],
        w.deleted,
    ) == w.nodes[id] by {
        lemma_all_survive(w.nodes[id].edges, w.deleted);
    }
    assert(w.survivors() =~= w.nodes);
    assert(w.compacted() =~= w);
}

/// Compaction keeps an index well formed, and its length.
pub proof fn lemma_compacted_wf(v: IndexView)
    requires
        v.wf(),
    ensures
        v.compacted().wf(),
        v.compacted().count() == v.count(),
{
    let w = v.compacted();
    lemma_compacted(v);
    lemma_ascending(v.live());
    lemma_grouped_wf(ascending(v.live()), w.nodes);
    assert forall|id: NodeId| #[trigger] w.nodes.dom().contains(id) implies node_wf(w, id) by {
        assert(v.nodes.dom().contains(id));
        assert(node_wf(v, id));
        lemma_surviving(v.nodes[id].edges, v.deleted);
        assert forall|target: NodeId| #[trigger] w.nodes[id].edges.contains(target) implies w.nodes.dom().contains(
            target,
        ) && target < id by {
            assert(v.nodes[id].edges.contains(target));
        }
    }
    lemma_count(v);
    lemma_count(w);
}

/// The centralities that re-ranking gives the live nodes sum to one after every number of rounds,
/// where nothing is rounded.
pub proof fn lemma_rerank_mass(v: IndexView, g: Ops<real>, damping: real, rounds: nat)
    requires
        exact_ops(g),
        v.live().len() > 0,
    ensures
        ({
            let ids = ascending(v.live());
            total(ids, ranks_after(g, damping, ids, v.live_graph(), rounds), ids.len()) == 1 as real
        }),
{
    crate::rerank::lemma_live_graph(v);
    lemma_ascending_len(v.live());
    lemma_ranks_sum_to_one(g, damping, ascending(v.live()), v.live_graph(), rounds);
}

/// The centralities that re-ranking gives the live nodes are positive, where nothing is rounded
/// and the damping is at least zero and less than one.
pub proof fn lemma_rerank_positive(v: IndexView, g: Ops<real>, damping: real, rounds: nat)
    requires
        exact_ops(g),
        0 as real <= damping,
        damping < 1 as real,
    ensures
        forall|id: NodeId| #[trigger]
            v.live().contains(id) ==> ranks_after(
                g,
                damping,
                ascending(v.live()),
                v.live_graph(),
                rounds,
            )[id] > 0 as real,
{
    crate::rerank::lemma_live_graph(v);
    lemma_ascending(v.live());
    lemma_ranks_positive(g, damping, ascending(v.live()), v.live_graph(), rounds);
    assert forall|id: NodeId| #[trigger] v.live().contains(id) implies ranks_after(
        g,
        damping,
        ascending(v.live()),
        v.live_graph(),
        rounds,
    )[id] > 0 as real by {
        assert(ascending(v.live()).contains(id));
    }
}

/// Re-ranking gives every live node at least an equal part of what is not damped, where nothing is
/// rounded; with no round each gets an equal part of one.
pub proof fn lemma_rerank_floor(v: IndexView, g: Ops<real>, damping: real, rounds: nat)
    requires
        exact_ops(g),
        0 as real <= damping,
        damping < 1 as real,
    ensures
        ({
            let ids = ascending(v.live());
            let n = v.live().len() as real;
            &&& forall|id: NodeId| #[trigger]
                v.live().contains(id) ==> ranks_after(g, damping, ids, v.live_graph(), 0)[id]
                    == 1 as real / n
            &&& rounds > 0 ==> forall|id: NodeId| #[trigger]
                v.live().contains(id) ==> ranks_after(
                    g,
                    damping,
                    ids,
                    v.live_graph(),
                    rounds,
                )[id] >= (1 as real - damping) / n
        }),
{
    let ids = ascending(v.live());
    crate::rerank::lemma_live_graph(v);
    lemma_ascending(v.live());
    lemma_ascending_len(v.live());
    lemma_rank_floor(g, damping, ids, v.live_graph(), rounds);
    assert forall|id: NodeId| #[trigger] v.live().contains(id) implies ids.contains(id) by {}
}

/// Re-ranking goes by the links, the marks and the settings alone: indexes that differ only in the
/// centralities of live nodes come out the same, so of two re-rankings the second counts.
pub proof fn lemma_rerank_forgets(
    v: IndexView,
    w: IndexView,
    g: Ops<Scalar>,
    rounds: nat,
    earlier: nat,
)
    requires
        same_but_centrality(v.nodes, w.nodes, ascending(v.live())),
        w == (IndexView { nodes: w.nodes, ..v }),
    ensures
        w.reranked(g, rounds) == v.reranked(g, rounds),
        v.reranked(g, earlier).reranked(g, rounds) == v.reranked(g, rounds),
{
    lemma_rerank_same_graph(v, w, g, rounds);
    let u = v.reranked(g, earlier);
    let ids = ascending(v.live());
    lemma_ascending(v.live());
    crate::rerank::lemma_live_graph(v);
    crate::rerank::lemma_ranks_dom(g, v.config.damping, ids, v.live_graph(), earlier);
    assert(u.nodes.dom() =~= v.nodes.dom());
    assert forall|id: NodeId| #[trigger]
        v.nodes.dom().contains(id) && !ids.contains(id) implies u.nodes[id] == v.nodes[id] by {
        assert(!v.ranks(g, earlier).dom().contains(id));
    }
    lemma_rerank_same_graph(v, u, g, rounds);
}

proof fn lemma_rerank_same_graph(v: IndexView, w: IndexView, g: Ops<Scalar>, rounds: nat)
    requires
        same_but_centrality(v.nodes, w.nodes, ascending(v.live())),
        w == (IndexView { nodes: w.nodes, ..v }),
    ensures
        w.reranked(g, rounds) == v.reranked(g, rounds),
{
    let ids = ascending(v.live());
    lemma_ascending(v.live());
    assert(w.live() == v.live());
    assert forall|i: int| 0 <= i < ids.len() implies w.live_links(#[trigger] ids[i])
        == v.live_links(ids[i]) by {
        assert(ids.contains(ids[i]));
        assert(v.nodes.dom().contains(ids[i]));
        assert(w.nodes[ids[i]].edges == v.nodes[ids[i]].edges);
    }
    assert(w.live_graph() =~= v.live_graph());
    crate::rerank::lemma_live_graph(v);
    crate::rerank::lemma_ranks_dom(g, v.config.damping, ids, v.live_graph(), rounds);
    let ranks = v.ranks(g, rounds);
    assert(w.ranks(g, rounds) == ranks);
    let a = v.reranked(g, rounds);
    let b = w.reranked(g, rounds);
    assert forall|id: NodeId| #[trigger] v.nodes.dom().contains(id) implies a.nodes[id]
        == b.nodes[id] by {
        if ranks.dom().contains(id) {
            assert(ids.contains(id));
        } else {
            assert(!ids.contains(id));
        }
    }
    assert(a.nodes =~= b.nodes);
}

/// What was inserted is read back: the node stands under the identifier that was returned, with
/// its vector, its label and the fingerprint that a new hasher of the settings gives the vector.
pub proof fn lemma_inserted_read_back(
    v: IndexView,
    g: Ops<Scalar>,
    vector: Seq<Scalar>,
    label: Option<Seq<char>>,
)
    requires
        v.hasher_current(g),
        vector.len() <= usize::MAX,
        v.dims is Some ==> v.dims == Some(vector.len() as Dims),
    ensures
        ({
            let w = v.inserted(g, vector, label);
            let id = v.next_id;
            &&& w.nodes.dom().contains(id)
            &&& w.nodes[id].id == id
            &&& w.nodes[id].vector == vector
            &&& w.nodes[id].label == label
            &&& w.nodes[id].fingerprint == fingerprint_of(
                g,
                planes_of(g, vector.len(), v.config.n_projections as nat, SEED),
                vector,
            )
        }),
{
}

impl IndexView {
    /// Whether every stored fingerprint is the one that the hasher gives the stored vector.
    pub open spec fn fingerprints_true(self, g: Ops<Scalar>) -> bool {
        forall|id: NodeId| #[trigger]
            self.nodes.dom().contains(id) ==> self.nodes[id].fingerprint == fingerprint_of(
                g,
                self.planes,
                self.nodes[id].vector,
            )
    }
}

proof fn lemma_endorsed(
    g: Ops<Scalar>,
    share: Scalar,
    nodes: Map<NodeId, NodeView>,
    edges: Seq<NodeId>,
)
    ensures
        same_but_centrality(nodes, endorsed(g, share, nodes, edges), edges),
    decreases edges.len(),
{
    if edges.len() > 0 {
        let front = edges.drop_last();
        lemma_endorsed(g, share, nodes, front);
        lemma_push_contains(front, edges.last());
        assert(edges =~= front.push(edges.last()));
        let before = endorsed(g, share, nodes, front);
        let after = endorsed(g, share, nodes, edges);
        assert(after.dom() =~= before.dom());
        assert forall|id: NodeId| #[trigger] nodes.dom().contains(id) implies after[id]
            == NodeView { centrality: after[id].centrality, ..nodes[id] } by {
            assert(before[id] == NodeView { centrality: before[id].centrality, ..nodes[id] });
        }
    }
}

/// The hasher of an index stays the one that its settings give, and every stored fingerprint the
/// one that this hasher gives the stored vector, whatever is done to the index.
pub proof fn lemma_hashing_kept(
    v: IndexView,
    g: Ops<Scalar>,
    vector: Seq<Scalar>,
    label: Option<Seq<char>>,
    id: NodeId,
    rounds: nat,
)
    requires
        v.wf(),
        v.hasher_current(g),
        v.fingerprints_true(g),
        vector.len() <= usize::MAX,
        v.dims is Some ==> v.dims == Some(vector.len() as Dims),
    ensures
        v.inserted(g, vector, label).hasher_current(g),
        v.inserted(g, vector, label).fingerprints_true(g),
        v.marked(id).hasher_current(g),
        v.marked(id).fingerprints_true(g),
        v.compacted().hasher_current(g),
        v.compacted().fingerprints_true(g),
        v.reranked(g, rounds).hasher_current(g),
        v.reranked(g, rounds).fingerprints_true(g),
{
    let w = v.inserted(g, vector, label);
    let sized = v.sized(g, vector.len() as Dims);
    let fp = fingerprint_of(g, sized.planes, vector);
    let edges = v.nearest(fp, v.config.k_neighbors as nat, Some(v.next_id));
    lemma_endorsed(g, link_share(g, v.config), v.nodes, edges);
    let linked = endorsed(g, link_share(g, v.config), v.nodes, edges);
    assert forall|x: NodeId| #[trigger] w.nodes.dom().contains(x) implies w.nodes[x].fingerprint
        == fingerprint_of(g, w.planes, w.nodes[x].vector) by {
        if x != v.next_id {
            assert(v.nodes.dom().contains(x));
            assert(node_wf(v, x));
            assert(linked[x].fingerprint == v.nodes[x].fingerprint);
            assert(linked[x].vector == v.nodes[x].vector);
        }
    }
    lemma_compacted(v);
    assert forall|x: NodeId| #[trigger]
        v.compacted().nodes.dom().contains(x) implies v.compacted().nodes[x].fingerprint
        == fingerprint_of(g, v.planes, v.compacted().nodes[x].vector) by {
        assert(v.nodes.dom().contains(x));
    }
    let r = v.reranked(g, rounds);
    assert forall|x: NodeId| #[trigger] r.nodes.dom().contains(x) implies r.nodes[x].fingerprint
        == fingerprint_of(g, r.planes, r.nodes[x].vector) by {
        assert(v.nodes.dom().contains(x));
    }
}

/// Every node has a positive centrality where the damping is between zero and one and nothing is
/// rounded: a node that nothing links to yet has one, and each link to it makes it larger.
pub proof fn lemma_link_raises(g: Ops<real>, damping: real, slots: real, centrality: real)
    requires
        exact_ops(g),
        damping > 0 as real,
        damping < 1 as real,
        1 as real <= slots,
    ensures
        base_centrality(g, damping) > 0 as real,
        (g.plus)(centrality, link_amount(g, damping, slots)) > centrality,
{
    assert(damping / slots > 0 as real) by (nonlinear_arith)
        requires
            damping > 0 as real,
            1 as real <= slots,
    ;
}

/// Whether the number is greater than zero.
pub open spec fn positive(x: Scalar) -> bool {
    !x.nan() && x.key() > 0
}

impl IndexView {
    /// Whether every centrality is greater than zero.
    pub open spec fn centralities_positive(self) -> bool {
        forall|id: NodeId| #[trigger]
            self.nodes.dom().contains(id) ==> positive(self.nodes[id].centrality)
    }
}

proof fn lemma_endorsed_positive(
    g: Ops<Scalar>,
    share: Scalar,
    nodes: Map<NodeId, NodeView>,
    edges: Seq<NodeId>,
)
    requires
        forall|x: Scalar, y: Scalar|
            positive(x) && positive(y) ==> positive(#[trigger] (g.plus)(x, y)),
        positive(share),
        forall|id: NodeId| #[trigger]
            nodes.dom().contains(id) ==> positive(nodes[id].centrality),
    ensures
        forall|id: NodeId| #[trigger]
            nodes.dom().contains(id) ==> positive(
                endorsed(g, share, nodes, edges)[id].centrality,
            ),
    decreases edges.len(),
{
    if edges.len() > 0 {
        lemma_endorsed_positive(g, share, nodes, edges.drop_last());
        lemma_endorsed(g, share, nodes, edges.drop_last());
    }
}

/// Every centrality stays greater than zero however many vectors are inserted, with any arithmetic
/// in which the sum of positive numbers is positive and the settings give positive amounts.
pub proof fn lemma_centralities_stay_positive(
    v: IndexView,
    g: Ops<Scalar>,
    vector: Seq<Scalar>,
    label: Option<Seq<char>>,
)
    requires
        forall|x: Scalar, y: Scalar|
            positive(x) && positive(y) ==> positive(#[trigger] (g.plus)(x, y)),
        positive(base_centrality(g, v.config.damping)),
        positive(link_share(g, v.config)),
        v.centralities_positive(),
    ensures
        v.inserted(g, vector, label).centralities_positive(),
{
    let w = v.inserted(g, vector, label);
    let sized = v.sized(g, vector.len() as Dims);
    let fp = fingerprint_of(g, sized.planes, vector);
    let edges = v.nearest(fp, v.config.k_neighbors as nat, Some(v.next_id));
    let share = link_share(g, v.config);
    lemma_endorsed_positive(g, share, v.nodes, edges);
    lemma_endorsed(g, share, v.nodes, edges);
    assert forall|id: NodeId| #[trigger] w.nodes.dom().contains(id) implies positive(
        w.nodes[id].centrality,
    ) by {
        if id != v.next_id {
            assert(v.nodes.dom().contains(id));
        }
    }
}

/// The figures on a well-formed index: the nodes counted are the live ones, and they have no more
/// links each, on average, than a node may have.
pub proof fn lemma_figures(v: IndexView)
    requires
        v.wf(),
    ensures
        v.counted() == ascending(v.live()).map_values(|id: NodeId| v.nodes[id]),
        v.counted().len() == v.live().len(),
        v.counted().len() == v.count(),
        v.counted().len() + v.deleted.len() == v.nodes.dom().len(),
        edge_total(v.counted()) <= v.config.k_neighbors * v.counted().len(),
{
    let ids = ascending(v.nodes.dom());
    lemma_ascending(v.nodes.dom());
    lemma_count(v);
    lemma_ascending_len(v.nodes.dom());
    lemma_ascending_len(v.deleted);
    vstd::set_lib::lemma_len_subset(v.deleted, v.nodes.dom());
    lemma_counted_prefix(v, ids);
    lemma_surviving_increasing(ids, v.deleted);
    lemma_surviving(ids, v.deleted);
    crate::ids::lemma_is_ascending(surviving(ids, v.deleted), v.live());
    lemma_ascending_len(v.live());
    lemma_ascending(v.live());
    let counted = v.counted();
    assert forall|i: int| 0 <= i < counted.len() implies (#[trigger] counted[i]).edges.len()
        <= v.config.k_neighbors by {
        let id = ascending(v.live())[i];
        assert(ascending(v.live()).contains(id));
        assert(node_wf(v, id));
    }
    lemma_edge_total(counted, v.config.k_neighbors as nat);
}

/// The average number of links lies between zero and the number that a node may have, where
/// nothing is rounded.
pub proof fn lemma_average_links(v: IndexView, g: Ops<real>)
    requires
        v.wf(),
        exact_ops(g),
        v.counted().len() > 0,
    ensures
        ({
            let average = (g.over)(
                (g.count)(edge_total(v.counted())),
                (g.count)(v.counted().len()),
            );
            0 as real <= average && average <= v.config.k_neighbors as nat as real
        }),
{
    lemma_figures(v);
    let total_links = edge_total(v.counted());
    let size = v.counted().len();
    let most = v.config.k_neighbors as nat;
    let (t, n, k) = (total_links as real, size as real, most as real);
    assert(t <= k * n) by {
        lemma_product_as_real(most, size);
    }
    assert(n > 0 as real);
    assert(t >= 0 as real);
    assert(0 as real <= t / n && t / n <= k) by (nonlinear_arith)
        requires
            n > 0 as real,
            t >= 0 as real,
            t <= k * n,
    ;
}

pub(crate) proof fn lemma_product_as_real(a: nat, b: nat)
    ensures
        (a * b) as real == (a as real) * (b as real),
    decreases a,
{
    let y = b as real;
    if a == 0 {
        assert(0 * b == 0) by (nonlinear_arith);
        assert((0nat as real) * y == 0 as real) by (nonlinear_arith);
    } else {
        let m = (a - 1) as nat;
        lemma_product_as_real(m, b);
        assert(a * b == m * b + b) by (nonlinear_arith)
            requires
                a == m + 1,
        ;
        let x = m as real;
        assert(a as real == x + 1 as real);
        assert((x + 1 as real) * y == x * y + y) by (nonlinear_arith);
        assert((m * b + b) as real == (m * b) as real + y);
    }
}

proof fn lemma_counted_prefix(v: IndexView, ids: Seq<NodeId>)
    requires
        v.wf(),
        forall|id: NodeId| #[trigger] ids.contains(id) ==> v.nodes.dom().contains(id),
    ensures
        ids.map_values(|id: NodeId| v.nodes[id]).filter(
            |n: NodeView| !v.deleted.contains(n.id),
        ) == surviving(ids, v.deleted).map_values(|id: NodeId| v.nodes[id]),
    decreases ids.len(),
{
    reveal(Seq::filter);
    let f = |id: NodeId| v.nodes[id];
    let pred = |n: NodeView| !v.deleted.contains(n.id);
    if ids.len() == 0 {
        assert(ids.map_values(f).filter(pred) =~= surviving(ids, v.deleted).map_values(f));
    } else {
        let front = ids.drop_last();
        let id = ids.last();
        assert(ids.contains(ids[ids.len() - 1]));
        assert(node_wf(v, id));
        assert forall|x: NodeId| #[trigger] front.contains(x) implies v.nodes.dom().contains(x) by {
            let k = choose|k: int| 0 <= k < front.len() && front[k] == x;
            assert(ids[k] == x);
            assert(ids.contains(x));
        }
        lemma_counted_prefix(v, front);
        assert(ids =~= front.push(id));
        crate::ids::lemma_surviving_push(front, v.deleted, id);
        assert(ids.map_values(f).drop_last() =~= front.map_values(f));
        assert(ids.map_values(f).last() == v.nodes[id]);
        assert(surviving(front, v.deleted).push(id).map_values(f) =~= surviving(
            front,
            v.deleted,
        ).map_values(f).push(v.nodes[id]));
    }
}

proof fn lemma_edge_total(nodes: Seq<NodeView>, most: nat)
    requires
        forall|i: int| 0 <= i < nodes.len() ==> (#[trigger] nodes[i]).edges.len() <= most,
    ensures
        edge_total(nodes) <= most * nodes.len(),
    decreases nodes.len(),
{
    if nodes.len() > 0 {
        let front = nodes.drop_last();
        lemma_edge_total(front, most);
        assert(nodes[nodes.len() - 1].edges.len() <= most);
        assert(most * front.len() + most == most * nodes.len()) by (nonlinear_arith)
            requires
                nodes.len() == front.len() + 1,
        ;
    }
}

} // verus!
