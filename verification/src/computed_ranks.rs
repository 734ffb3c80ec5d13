//! What power iteration keeps on computed numbers, whatever the rounding.
use crate::arith::Ops;
use crate::ids::ascending;
use crate::ids::increasing;
use crate::ids::lemma_ascending;
use crate::ids::lemma_ascending_len;
use crate::ids::NodeId;
use crate::index::IndexView;
use crate::laws::node_wf;
use crate::laws::positive;
use crate::pagerank::dangling_mass;
use crate::pagerank::floor_rank;
use crate::pagerank::graph;
use crate::pagerank::outflow;
use crate::pagerank::passed_on;
use crate::pagerank::ranks_after;
use crate::pagerank::spread;
use crate::rerank::lemma_live_graph;
use crate::rerank::lemma_ranks_dom;
use crate::scalar::Scalar;
use vstd::prelude::*;

verus! {

/// Whether the number is zero or greater.
pub open spec fn not_negative(x: Scalar) -> bool {
    !x.nan() && x.key() >= 0
}

/// A node's part of what is not damped.
pub open spec fn teleport_share(g: Ops<Scalar>, damping: Scalar, size: nat) -> Scalar {
    (g.over)((g.minus)(g.one, damping), (g.count)(size))
}

/// Whether the operations turn numbers that are not negative into such numbers: sums, which are no
/// smaller than what was added to, products with the damping, and quotients by counts. An equal
/// part of one, and of what is not damped, is positive.
pub open spec fn keeps_signs(g: Ops<Scalar>, damping: Scalar, size: nat) -> bool {
    &&& not_negative(g.zero)
    &&& forall|x: Scalar, y: Scalar|
        not_negative(x) && not_negative(y) ==> not_negative(#[trigger] (g.plus)(x, y)) && (g.plus)(
            x,
            y,
        ).key() >= x.key()
    &&& forall|x: Scalar| not_negative(x) ==> not_negative(#[trigger] (g.times)(damping, x))
    &&& forall|x: Scalar, n: nat|
        not_negative(x) && 0 < n <= u64::MAX ==> not_negative(#[trigger] (g.over)(x, (g.count)(n)))
    &&& positive((g.over)(g.one, (g.count)(size)))
    &&& positive(teleport_share(g, damping, size))
}

proof fn lemma_dangling_sign(
    g: Ops<Scalar>,
    damping: Scalar,
    ids: Seq<NodeId>,
    links: Seq<Seq<NodeId>>,
    ranks: Map<NodeId, Scalar>,
    n: nat,
)
    requires
        keeps_signs(g, damping, ids.len()),
        n <= ids.len(),
        forall|id: NodeId| #[trigger] ids.contains(id) ==> positive(ranks[id]),
    ensures
        not_negative(dangling_mass(g, ids, links, ranks, n)),
    decreases n,
{
    if n > 0 {
        lemma_dangling_sign(g, damping, ids, links, ranks, (n - 1) as nat);
        assert(ids.contains(ids[n - 1]));
    }
}

proof fn lemma_spread_grows(
    g: Ops<Scalar>,
    damping: Scalar,
    size: nat,
    ranks: Map<NodeId, Scalar>,
    targets: Seq<NodeId>,
    amount: Scalar,
    id: NodeId,
)
    requires
        keeps_signs(g, damping, size),
        not_negative(amount),
        forall|j: int| 0 <= j < targets.len() ==> not_negative(ranks[#[trigger] targets[j]]),
        not_negative(ranks[id]),
    ensures
        not_negative(spread(g, ranks, targets, amount)[id]),
        spread(g, ranks, targets, amount)[id].key() >= ranks[id].key(),
    decreases targets.len(),
{
    if targets.len() > 0 {
        let front = targets.drop_last();
        let last = targets.last();
        assert(not_negative(ranks[targets[targets.len() - 1]]));
        assert forall|j: int| 0 <= j < front.len() implies not_negative(
            ranks[#[trigger] front[j]],
        ) by {
            assert(not_negative(ranks[targets[j]]));
        }
        lemma_spread_grows(g, damping, size, ranks, front, amount, id);
        lemma_spread_grows(g, damping, size, ranks, front, amount, last);
    }
}

proof fn lemma_passed_on_grows(
    g: Ops<Scalar>,
    damping: Scalar,
    ids: Seq<NodeId>,
    links: Seq<Seq<NodeId>>,
    ranks: Map<NodeId, Scalar>,
    n: nat,
)
    requires
        keeps_signs(g, damping, ids.len()),
        graph(ids, links),
        n <= ids.len() <= u64::MAX,
        forall|i: int| 0 <= i < links.len() ==> (#[trigger] links[i]).len() <= u64::MAX,
        forall|id: NodeId| #[trigger] ids.contains(id) ==> positive(ranks[id]),
    ensures
        forall|id: NodeId| #[trigger]
            ids.contains(id) ==> {
                let next = passed_on(g, damping, ids, links, ranks, n)[id];
                positive(next) && next.key() >= teleport_share(g, damping, ids.len()).key()
            },
    decreases n,
{
    if n == 0 {
        let dangling = dangling_mass(g, ids, links, ranks, ids.len());
        lemma_dangling_sign(g, damping, ids, links, ranks, ids.len());
        if ids.len() > 0 {
            assert(not_negative((g.times)(damping, dangling)));
            assert(not_negative((g.over)((g.times)(damping, dangling), (g.count)(ids.len()))));
            assert(floor_rank(g, damping, ids.len(), dangling).key() >= teleport_share(
                g,
                damping,
                ids.len(),
            ).key());
        }
    } else {
        let before = passed_on(g, damping, ids, links, ranks, (n - 1) as nat);
        let targets = links[n - 1];
        let rank = ranks[ids[n - 1]];
        let amount = outflow(g, damping, rank, targets.len());
        lemma_passed_on_grows(g, damping, ids, links, ranks, (n - 1) as nat);
        if targets.len() > 0 {
            assert(ids.contains(ids[n - 1]));
            assert(not_negative((g.times)(damping, rank)));
            assert(not_negative(amount));
            assert forall|j: int| 0 <= j < targets.len() implies not_negative(
                before[#[trigger] targets[j]],
            ) by {
                assert(ids.contains(links[n - 1][j]));
            }
            assert forall|id: NodeId| #[trigger] ids.contains(id) implies {
                let next = passed_on(g, damping, ids, links, ranks, n)[id];
                positive(next) && next.key() >= teleport_share(g, damping, ids.len()).key()
            } by {
                lemma_spread_grows(g, damping, ids.len(), before, targets, amount, id);
            }
        }
    }
}

/// Every computed rank is positive after every round, and no smaller than a node's computed part of
/// what is not damped after any number of rounds but none.
pub proof fn lemma_computed_ranks_positive(
    g: Ops<Scalar>,
    damping: Scalar,
    ids: Seq<NodeId>,
    links: Seq<Seq<NodeId>>,
    rounds: nat,
)
    requires
        keeps_signs(g, damping, ids.len()),
        graph(ids, links),
        ids.len() <= u64::MAX,
        forall|i: int| 0 <= i < links.len() ==> (#[trigger] links[i]).len() <= u64::MAX,
    ensures
        forall|id: NodeId| #[trigger]
            ids.contains(id) ==> positive(ranks_after(g, damping, ids, links, rounds)[id]),
        rounds > 0 ==> forall|id: NodeId| #[trigger]
            ids.contains(id) ==> ranks_after(g, damping, ids, links, rounds)[id].key()
                >= teleport_share(g, damping, ids.len()).key(),
    decreases rounds,
{
    if rounds > 0 {
        let before = ranks_after(g, damping, ids, links, (rounds - 1) as nat);
        lemma_computed_ranks_positive(g, damping, ids, links, (rounds - 1) as nat);
        lemma_passed_on_grows(g, damping, ids, links, before, ids.len());
    }
}

proof fn lemma_increasing_at_least(q: Seq<NodeId>, i: int)
    requires
        increasing(q),
        0 <= i < q.len(),
    ensures
        i <= q[i],
    decreases i,
{
    if i > 0 {
        lemma_increasing_at_least(q, i - 1);
    }
}

/// An index has fewer live nodes, and each of them fewer live links, than can be counted.
pub proof fn lemma_live_graph_countable(v: IndexView)
    requires
        v.wf(),
    ensures
        ascending(v.live()).len() <= u64::MAX,
        forall|i: int|
            0 <= i < v.live_graph().len() ==> (#[trigger] v.live_graph()[i]).len() <= u64::MAX,
{
    let ids = ascending(v.live());
    lemma_ascending(v.live());
    if ids.len() > 0 {
        lemma_increasing_at_least(ids, ids.len() - 1);
    }
    assert forall|i: int| 0 <= i < v.live_graph().len() implies (#[trigger] v.live_graph()[i]).len()
        <= u64::MAX by {
        assert(ids.contains(ids[i]));
        assert(node_wf(v, ids[i]));
        v.nodes[ids[i]].edges.filter_lemma(|target: NodeId| v.live().contains(target));
    }
}

/// Re-ranking with no round gives every live node an equal part of one.
pub proof fn lemma_rerank_start(v: IndexView, g: Ops<Scalar>)
    ensures
        forall|id: NodeId| #[trigger]
            v.live().contains(id) ==> v.reranked(g, 0).nodes[id].centrality == (g.over)(
                g.one,
                (g.count)(v.live().len()),
            ),
{
    lemma_ascending(v.live());
    lemma_ascending_len(v.live());
    assert forall|id: NodeId| #[trigger] v.live().contains(id) implies v.reranked(
        g,
        0,
    ).nodes[id].centrality == (g.over)(g.one, (g.count)(v.live().len())) by {
        assert(ascending(v.live()).contains(id));
        assert(v.ranks(g, 0).dom().contains(id));
    }
}

/// The computed centralities that re-ranking gives the live nodes are positive, and after any
/// number of rounds but none no smaller than a node's computed part of what is not damped.
pub proof fn lemma_rerank_computed_positive(v: IndexView, g: Ops<Scalar>, rounds: nat)
    requires
        v.wf(),
        keeps_signs(g, v.config.damping, v.live().len()),
    ensures
        forall|id: NodeId| #[trigger]
            v.live().contains(id) ==> {
                let centrality = v.reranked(g, rounds).nodes[id].centrality;
                &&& positive(centrality)
                &&& rounds > 0 ==> centrality.key() >= teleport_share(
                    g,
                    v.config.damping,
                    v.live().len(),
                ).key()
            },
{
    let ids = ascending(v.live());
    lemma_ascending(v.live());
    lemma_ascending_len(v.live());
    lemma_live_graph(v);
    lemma_live_graph_countable(v);
    lemma_computed_ranks_positive(g, v.config.damping, ids, v.live_graph(), rounds);
    lemma_ranks_dom(g, v.config.damping, ids, v.live_graph(), rounds);
    assert forall|id: NodeId| #[trigger] v.live().contains(id) implies {
        let centrality = v.reranked(g, rounds).nodes[id].centrality;
        &&& positive(centrality)
        &&& rounds > 0 ==> centrality.key() >= teleport_share(
            g,
            v.config.damping,
            v.live().len(),
        ).key()
    } by {
        assert(ids.contains(id));
        assert(v.ranks(g, rounds).dom().contains(id));
    }
}

} // verus!
