//! What flows into a node in a round of power iteration, and from where.
use crate::arith::exact_ops;
use crate::arith::Ops;
use crate::ids::ascending;
use crate::ids::lemma_ascending;
use crate::ids::lemma_ascending_len;
use crate::ids::lemma_is_ascending;
use crate::ids::NodeId;
use crate::index::IndexView;
use crate::laws::node_wf;
use crate::pagerank::dangling_mass;
use crate::pagerank::outflow;
use crate::pagerank::passed_on;
use crate::pagerank::ranks_after;
use crate::pagerank::spread;
use crate::rerank::lemma_live_graph;
use crate::rerank::lemma_ranks_dom;
use crate::scalar::Scalar;
use vstd::prelude::*;

verus! {

/// Whether the sequence lists the nodes that are not marked as deleted, oldest first.
pub open spec fn lists_live(v: IndexView, ids: Seq<NodeId>) -> bool {
    &&& forall|i: int, j: int| 0 <= i < j < ids.len() ==> ids[i] < ids[j]
    &&& forall|x: NodeId| #[trigger]
        ids.contains(x) <==> v.nodes.dom().contains(x) && !v.deleted.contains(x)
}

/// How many links of a node lead to nodes that are not marked as deleted.
pub open spec fn live_degree(v: IndexView, id: NodeId) -> nat {
    v.nodes[id].edges.filter(|x: NodeId| v.nodes.dom().contains(x) && !v.deleted.contains(x)).len()
}

/// Whether `sums` adds up, from the left, the ranks of the nodes without links to live nodes.
pub open spec fn sums_loose<T>(
    v: IndexView,
    g: Ops<T>,
    ids: Seq<NodeId>,
    ranks: spec_fn(NodeId) -> T,
    sums: Seq<T>,
) -> bool {
    &&& sums.len() == ids.len() + 1
    &&& sums[0] == g.zero
    &&& forall|i: int|
        0 <= i < ids.len() ==> sums[i + 1] == if live_degree(v, #[trigger] ids[i]) == 0 {
            (g.plus)(sums[i], ranks(ids[i]))
        } else {
            sums[i]
        }
}

/// The number with the amount added `m` times.
pub open spec fn added_times<T>(g: Ops<T>, x: T, amount: T, m: nat) -> T
    decreases m,
{
    if m == 0 {
        x
    } else {
        (g.plus)(added_times(g, x, amount, (m - 1) as nat), amount)
    }
}

/// Whether `sums` adds up, from the left, what a node gets in a round: its part of what is not
/// damped and of the damped rank of the nodes without links to live nodes, and for each link to it
/// the damped rank of the node with the link divided by the number of links of that node to live
/// nodes.
pub open spec fn sums_inflow<T>(
    v: IndexView,
    g: Ops<T>,
    damping: T,
    ids: Seq<NodeId>,
    ranks: spec_fn(NodeId) -> T,
    loose: T,
    t: NodeId,
    sums: Seq<T>,
) -> bool {
    &&& sums.len() == ids.len() + 1
    &&& sums[0] == (g.plus)(
        (g.over)((g.minus)(g.one, damping), (g.count)(ids.len())),
        (g.over)((g.times)(damping, loose), (g.count)(ids.len())),
    )
    &&& forall|i: int|
        0 <= i < ids.len() ==> sums[i + 1] == added_times(
            g,
            sums[i],
            (g.over)((g.times)(damping, ranks(#[trigger] ids[i])), (g.count)(live_degree(v, ids[i]))),
            v.nodes[ids[i]].edges.to_multiset().count(t),
        )
}

proof fn lemma_spread_times<T>(
    g: Ops<T>,
    ranks: Map<NodeId, T>,
    targets: Seq<NodeId>,
    amount: T,
    t: NodeId,
)
    ensures
        spread(g, ranks, targets, amount)[t] == added_times(
            g,
            ranks[t],
            amount,
            targets.to_multiset().count(t),
        ),
    decreases targets.len(),
{
    broadcast use vstd::multiset::group_multiset_axioms;

    if targets.len() == 0 {
        vstd::seq_lib::to_multiset_contains(targets, t);
    } else {
        let front = targets.drop_last();
        let last = targets.last();
        assert(targets =~= front.push(last));
        lemma_spread_times(g, ranks, front, amount, t);
        vstd::seq_lib::to_multiset_build(front, last);
    }
}

proof fn lemma_filter_count(s: Seq<NodeId>, p: spec_fn(NodeId) -> bool, t: NodeId)
    requires
        p(t),
    ensures
        s.filter(p).to_multiset().count(t) == s.to_multiset().count(t),
    decreases s.len(),
{
    broadcast use vstd::multiset::group_multiset_axioms;

    reveal(Seq::filter);
    if s.len() == 0 {
        assert(s.filter(p) =~= s);
    } else {
        let front = s.drop_last();
        let last = s.last();
        lemma_filter_count(front, p, t);
        assert(s =~= front.push(last));
        vstd::seq_lib::to_multiset_build(front, last);
        vstd::seq_lib::to_multiset_build(front.filter(p), last);
    }
}

/// The links to live nodes are the stored links that lead to nodes that are not marked.
proof fn lemma_live_links(v: IndexView, ids: Seq<NodeId>, i: int)
    requires
        ids == ascending(v.live()),
        0 <= i < ids.len(),
    ensures
        v.live_graph()[i].len() == live_degree(v, ids[i]),
        forall|t: NodeId|
            v.live().contains(t) ==> #[trigger] v.live_graph()[i].to_multiset().count(t)
                == v.nodes[ids[i]].edges.to_multiset().count(t),
{
    let edges = v.nodes[ids[i]].edges;
    let p = |x: NodeId| v.live().contains(x);
    let q = |x: NodeId| v.nodes.dom().contains(x) && !v.deleted.contains(x);
    lemma_filter_same(edges, p, q);
    assert(v.live_graph()[i] == edges.filter(p));
    assert forall|t: NodeId| v.live().contains(t) implies #[trigger] v.live_graph()[i].to_multiset().count(
        t,
    ) == edges.to_multiset().count(t) by {
        lemma_filter_count(edges, p, t);
    }
}

proof fn lemma_filter_same(
    s: Seq<NodeId>,
    p: spec_fn(NodeId) -> bool,
    q: spec_fn(NodeId) -> bool,
)
    requires
        forall|x: NodeId| #[trigger] p(x) == q(x),
    ensures
        s.filter(p) == s.filter(q),
    decreases s.len(),
{
    reveal(Seq::filter);
    if s.len() > 0 {
        lemma_filter_same(s.drop_last(), p, q);
    }
}

proof fn lemma_loose<T>(
    v: IndexView,
    g: Ops<T>,
    ids: Seq<NodeId>,
    ranks: Map<NodeId, T>,
    sums: Seq<T>,
    n: nat,
)
    requires
        ids == ascending(v.live()),
        n <= ids.len(),
        sums_loose(v, g, ids, |x: NodeId| ranks[x], sums),
    ensures
        sums[n as int] == dangling_mass(g, ids, v.live_graph(), ranks, n),
    decreases n,
{
    if n > 0 {
        lemma_loose(v, g, ids, ranks, sums, (n - 1) as nat);
        lemma_live_links(v, ids, n - 1);
        assert(sums[(n - 1) + 1] == if live_degree(v, ids[n - 1]) == 0 {
            (g.plus)(sums[n - 1], ranks[ids[n - 1]])
        } else {
            sums[n - 1]
        });
    }
}

proof fn lemma_inflow<T>(
    v: IndexView,
    g: Ops<T>,
    damping: T,
    ids: Seq<NodeId>,
    ranks: Map<NodeId, T>,
    t: NodeId,
    sums: Seq<T>,
    n: nat,
)
    requires
        ids == ascending(v.live()),
        n <= ids.len(),
        ids.contains(t),
        sums_inflow(
            v,
            g,
            damping,
            ids,
            |x: NodeId| ranks[x],
            dangling_mass(g, ids, v.live_graph(), ranks, ids.len()),
            t,
            sums,
        ),
    ensures
        passed_on(g, damping, ids, v.live_graph(), ranks, n)[t] == sums[n as int],
    decreases n,
{
    lemma_ascending(v.live());
    if n > 0 {
        let m = (n - 1) as nat;
        let source = ids[n - 1];
        let targets = v.live_graph()[n - 1];
        lemma_inflow(v, g, damping, ids, ranks, t, sums, m);
        lemma_live_links(v, ids, n - 1);
        lemma_spread_times(
            g,
            passed_on(g, damping, ids, v.live_graph(), ranks, m),
            targets,
            outflow(g, damping, ranks[source], targets.len()),
            t,
        );
        assert(v.live().contains(t));
        assert(targets.to_multiset().count(t) == v.nodes[source].edges.to_multiset().count(t));
        assert(sums[(n - 1) + 1] == added_times(
            g,
            sums[n - 1],
            (g.over)((g.times)(damping, ranks[ids[n - 1]]), (g.count)(live_degree(v, source))),
            v.nodes[source].edges.to_multiset().count(t),
        ));
    }
}

/// One round of re-ranking gives a live node its part of what is not damped and of the damped rank
/// of the nodes without links to live nodes, and for every link to it from a live node the damped
/// rank of that node divided by the number of its links to live nodes, added up in that order.
pub proof fn lemma_round_of_reranking(
    v: IndexView,
    g: Ops<Scalar>,
    rounds: nat,
    ids: Seq<NodeId>,
    t: NodeId,
    loose: Seq<Scalar>,
    sums: Seq<Scalar>,
)
    requires
        lists_live(v, ids),
        ids.contains(t),
        sums_loose(
            v,
            g,
            ids,
            |x: NodeId| v.reranked(g, rounds).nodes[x].centrality,
            loose,
        ),
        sums_inflow(
            v,
            g,
            v.config.damping,
            ids,
            |x: NodeId| v.reranked(g, rounds).nodes[x].centrality,
            loose[ids.len() as int],
            t,
            sums,
        ),
    ensures
        v.reranked(g, rounds + 1).nodes[t].centrality == sums[ids.len() as int],
{
    let d = v.config.damping;
    lemma_listing(v, ids);
    lemma_live_graph(v);
    let links = v.live_graph();
    let before = v.ranks(g, rounds);
    lemma_ranks_dom(g, d, ids, links, rounds);
    lemma_ranks_dom(g, d, ids, links, rounds + 1);
    let shown = |x: NodeId| v.reranked(g, rounds).nodes[x].centrality;
    let held = |x: NodeId| before[x];
    assert forall|i: int| 0 <= i < ids.len() implies shown(#[trigger] ids[i]) == held(ids[i]) by {
        assert(ids.contains(ids[i]));
        assert(before.dom().contains(ids[i]));
    }
    assert(sums_loose(v, g, ids, held, loose)) by {
        assert forall|i: int| 0 <= i < ids.len() implies loose[i + 1] == if live_degree(
            v,
            #[trigger] ids[i],
        ) == 0 {
            (g.plus)(loose[i], held(ids[i]))
        } else {
            loose[i]
        } by {
            assert(shown(ids[i]) == held(ids[i]));
        }
    }
    lemma_loose(v, g, ids, before, loose, ids.len());
    assert(sums_inflow(v, g, d, ids, held, loose[ids.len() as int], t, sums)) by {
        assert forall|i: int| 0 <= i < ids.len() implies sums[i + 1] == added_times(
            g,
            sums[i],
            (g.over)((g.times)(d, held(#[trigger] ids[i])), (g.count)(live_degree(v, ids[i]))),
            v.nodes[ids[i]].edges.to_multiset().count(t),
        ) by {
            assert(shown(ids[i]) == held(ids[i]));
        }
    }
    lemma_inflow(v, g, d, ids, before, t, sums, ids.len());
    assert(v.ranks(g, rounds + 1) == passed_on(g, d, ids, links, before, ids.len()));
    assert(v.ranks(g, rounds + 1).dom().contains(t));
}

proof fn lemma_listing(v: IndexView, ids: Seq<NodeId>)
    requires
        lists_live(v, ids),
    ensures
        ids == ascending(v.live()),
        ids.len() == v.live().len(),
{
    lemma_is_ascending(ids, v.live());
    lemma_ascending_len(v.live());
}

/// Re-ranking changes the centralities of the nodes that are not marked as deleted and nothing
/// else. Before the first round each of them is one divided by their number.
pub proof fn lemma_reranking_keeps_the_rest(
    v: IndexView,
    g: Ops<Scalar>,
    rounds: nat,
    ids: Seq<NodeId>,
)
    requires
        lists_live(v, ids),
    ensures
        ({
            let w = v.reranked(g, rounds);
            &&& forall|id: NodeId| #[trigger]
                w.nodes.dom().contains(id) <==> v.nodes.dom().contains(id)
            &&& forall|id: NodeId|
                v.nodes.dom().contains(id) ==> {
                    let (old_node, new_node) = (v.nodes[id], #[trigger] w.nodes[id]);
                    &&& new_node.id == old_node.id
                    &&& new_node.vector == old_node.vector
                    &&& new_node.fingerprint == old_node.fingerprint
                    &&& new_node.edges == old_node.edges
                    &&& new_node.label == old_node.label
                    &&& v.deleted.contains(id) ==> new_node.centrality == old_node.centrality
                    &&& !v.deleted.contains(id) && rounds == 0 ==> new_node.centrality == (g.over)(
                        g.one,
                        (g.count)(ids.len()),
                    )
                }
            &&& w.config == v.config
            &&& w.buckets == v.buckets
            &&& w.planes == v.planes
            &&& w.plane_dims == v.plane_dims
            &&& w.next_id == v.next_id
            &&& w.dims == v.dims
            &&& w.deleted == v.deleted
        }),
{
    lemma_listing(v, ids);
    lemma_live_graph(v);
    lemma_ranks_dom(g, v.config.damping, ids, v.live_graph(), rounds);
    crate::computed_ranks::lemma_rerank_start(v, g);
    let w = v.reranked(g, rounds);
    assert forall|id: NodeId| v.nodes.dom().contains(id) implies {
        let (old_node, new_node) = (v.nodes[id], #[trigger] w.nodes[id]);
        &&& new_node.id == old_node.id
        &&& new_node.vector == old_node.vector
        &&& new_node.fingerprint == old_node.fingerprint
        &&& new_node.edges == old_node.edges
        &&& new_node.label == old_node.label
        &&& v.deleted.contains(id) ==> new_node.centrality == old_node.centrality
        &&& !v.deleted.contains(id) && rounds == 0 ==> new_node.centrality == (g.over)(
            g.one,
            (g.count)(ids.len()),
        )
    } by {
        if v.deleted.contains(id) {
            assert(!ids.contains(id));
        } else {
            assert(v.live().contains(id));
        }
    }
}

/// The sum of `f` over the first `n` nodes.
pub open spec fn sum_over(ids: Seq<NodeId>, f: spec_fn(NodeId) -> real, n: nat) -> real
    decreases n,
{
    if n == 0 {
        0 as real
    } else {
        sum_over(ids, f, (n - 1) as nat) + f(ids[n - 1])
    }
}

/// Where nothing is rounded, the rank of a live node after a round is its part of what is not damped
/// and of the damped rank of the nodes without links to live nodes, and the sum, over all live
/// nodes that link to it, of their damped ranks divided by the number of their links to live nodes.
pub proof fn lemma_exact_inflow(
    v: IndexView,
    g: Ops<real>,
    damping: real,
    rounds: nat,
    ids: Seq<NodeId>,
    t: NodeId,
)
    requires
        v.wf(),
        exact_ops(g),
        lists_live(v, ids),
        ids.contains(t),
    ensures
        ({
            let before = ranks_after(g, damping, ids, v.live_graph(), rounds);
            let after = ranks_after(g, damping, ids, v.live_graph(), rounds + 1);
            let n = ids.len();
            let loose = sum_over(
                ids,
                |s: NodeId|
                    if live_degree(v, s) == 0 {
                        before[s]
                    } else {
                        0 as real
                    },
                n,
            );
            let inflow = sum_over(
                ids,
                |s: NodeId|
                    if v.nodes[s].edges.contains(t) {
                        damping * before[s] / (live_degree(v, s) as real)
                    } else {
                        0 as real
                    },
                n,
            );
            after[t] == (1 as real - damping) / (n as real) + damping * loose / (n as real) + inflow
        }),
{
    lemma_listing(v, ids);
    let before = ranks_after(g, damping, ids, v.live_graph(), rounds);
    let n = ids.len();
    let lf = |s: NodeId|
        if live_degree(v, s) == 0 {
            before[s]
        } else {
            0 as real
        };
    let inf = |s: NodeId|
        if v.nodes[s].edges.contains(t) {
            damping * before[s] / (live_degree(v, s) as real)
        } else {
            0 as real
        };
    let loose = Seq::new(n + 1, |i: int| sum_over(ids, lf, i as nat));
    let start = (1 as real - damping) / (n as real) + damping * loose[n as int] / (n as real);
    let sums = Seq::new(n + 1, |i: int| start + sum_over(ids, inf, i as nat));
    assert(sums_loose(v, g, ids, |x: NodeId| before[x], loose));
    lemma_loose(v, g, ids, before, loose, n);
    let held = |x: NodeId| before[x];
    assert(sums_inflow(v, g, damping, ids, held, loose[n as int], t, sums)) by {
        assert forall|i: int| 0 <= i < ids.len() implies sums[i + 1] == added_times(
            g,
            sums[i],
            (g.over)(
                (g.times)(damping, held(#[trigger] ids[i])),
                (g.count)(live_degree(v, ids[i])),
            ),
            v.nodes[ids[i]].edges.to_multiset().count(t),
        ) by {
            assert(ids.contains(ids[i]));
            assert(node_wf(v, ids[i]));
            let edges = v.nodes[ids[i]].edges;
            edges.lemma_multiset_has_no_duplicates();
            vstd::seq_lib::to_multiset_contains(edges, t);
            assert(edges.to_multiset().contains(t) ==> edges.to_multiset().count(t) == 1);
            reveal_with_fuel(added_times, 2);
        }
    }
    lemma_inflow(v, g, damping, ids, before, t, sums, n);
}

} // verus!
