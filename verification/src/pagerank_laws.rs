//! What power iteration keeps, where nothing is rounded.
use crate::arith::exact_ops;
use crate::arith::Ops;
use crate::ids::NodeId;
use crate::pagerank::constant;
use crate::pagerank::dangling_mass;
use crate::pagerank::floor_rank;
use crate::pagerank::graph;
use crate::pagerank::outflow;
use crate::pagerank::passed_on;
use crate::pagerank::ranks_after;
use crate::pagerank::spread;
use vstd::prelude::*;

verus! {

/// The sum of the ranks of the first `n` nodes.
pub open spec fn total(ids: Seq<NodeId>, ranks: Map<NodeId, real>, n: nat) -> real
    decreases n,
{
    if n == 0 {
        0 as real
    } else {
        total(ids, ranks, (n - 1) as nat) + ranks[ids[n - 1]]
    }
}

/// The sum of the ranks of those of the first `n` nodes that have links.
spec fn linked_mass(
    ids: Seq<NodeId>,
    links: Seq<Seq<NodeId>>,
    ranks: Map<NodeId, real>,
    n: nat,
) -> real
    decreases n,
{
    if n == 0 {
        0 as real
    } else {
        linked_mass(ids, links, ranks, (n - 1) as nat) + if links[n - 1].len() == 0 {
            0 as real
        } else {
            ranks[ids[n - 1]]
        }
    }
}

proof fn lemma_total_constant(ids: Seq<NodeId>, value: real, n: nat)
    requires
        n <= ids.len(),
    ensures
        total(ids, constant(ids, value), n) == (n as real) * value,
    decreases n,
{
    if n == 0 {
        assert((0nat as real) * value == 0 as real) by (nonlinear_arith);
    } else {
        lemma_total_constant(ids, value, (n - 1) as nat);
        assert(ids.contains(ids[n - 1]));
        let m = (n - 1) as nat as real;
        assert(n as real == m + 1 as real);
        assert((m + 1 as real) * value == m * value + value) by (nonlinear_arith);
    }
}

proof fn lemma_total_insert(
    ids: Seq<NodeId>,
    ranks: Map<NodeId, real>,
    id: NodeId,
    value: real,
    n: nat,
)
    requires
        ids.no_duplicates(),
        n <= ids.len(),
    ensures
        total(ids, ranks.insert(id, value), n) == total(ids, ranks, n) + if ids.take(
            n as int,
        ).contains(id) {
            value - ranks[id]
        } else {
            0 as real
        },
    decreases n,
{
    if n > 0 {
        let front = ids.take(n - 1);
        let all = ids.take(n as int);
        lemma_total_insert(ids, ranks, id, value, (n - 1) as nat);
        crate::ids::lemma_push_contains(front, ids[n - 1]);
        assert(all =~= front.push(ids[n - 1]));
        if ids[n - 1] == id && front.contains(id) {
            let k = choose|k: int| 0 <= k < front.len() && front[k] == id;
            assert(ids[k] == ids[n - 1]);
        }
    }
}

proof fn lemma_spread(
    g: Ops<real>,
    ids: Seq<NodeId>,
    ranks: Map<NodeId, real>,
    targets: Seq<NodeId>,
    amount: real,
)
    requires
        exact_ops(g),
        ids.no_duplicates(),
        forall|j: int| 0 <= j < targets.len() ==> ids.contains(#[trigger] targets[j]),
    ensures
        total(ids, spread(g, ranks, targets, amount), ids.len()) == total(ids, ranks, ids.len()) + (
        targets.len() as real) * amount,
        amount >= 0 as real ==> forall|id: NodeId|
            ranks.dom().contains(id) ==> #[trigger] spread(g, ranks, targets, amount)[id]
                >= ranks[id],
        forall|id: NodeId|
            ranks.dom().contains(id) ==> #[trigger] spread(g, ranks, targets, amount).dom().contains(
                id,
            ),
    decreases targets.len(),
{
    if targets.len() == 0 {
        assert((0nat as real) * amount == 0 as real) by (nonlinear_arith);
    } else {
        let front = targets.drop_last();
        let before = spread(g, ranks, front, amount);
        let id = targets.last();
        assert forall|j: int| 0 <= j < front.len() implies ids.contains(#[trigger] front[j]) by {
            assert(ids.contains(targets[j]));
        }
        lemma_spread(g, ids, ranks, front, amount);
        lemma_total_insert(ids, before, id, before[id] + amount, ids.len());
        assert(ids.take(ids.len() as int) =~= ids);
        assert(ids.contains(targets[targets.len() - 1]));
        let m = front.len() as real;
        assert(targets.len() as real == m + 1 as real);
        assert((m + 1 as real) * amount == m * amount + amount) by (nonlinear_arith);
    }
}

proof fn lemma_split_mass(
    g: Ops<real>,
    ids: Seq<NodeId>,
    links: Seq<Seq<NodeId>>,
    ranks: Map<NodeId, real>,
    n: nat,
)
    requires
        exact_ops(g),
        n <= ids.len(),
    ensures
        dangling_mass(g, ids, links, ranks, n) + linked_mass(ids, links, ranks, n) == total(
            ids,
            ranks,
            n,
        ),
    decreases n,
{
    if n > 0 {
        lemma_split_mass(g, ids, links, ranks, (n - 1) as nat);
    }
}

proof fn lemma_whole_flow(degree: nat, damping: real, rank: real)
    requires
        degree > 0,
    ensures
        (degree as real) * ((damping * rank) / (degree as real)) == damping * rank,
{
    let k = degree as real;
    let x = damping * rank;
    assert(k > 0 as real);
    assert(k * (x / k) == x) by (nonlinear_arith)
        requires
            k > 0 as real,
    ;
}

proof fn lemma_passed_on(
    g: Ops<real>,
    damping: real,
    ids: Seq<NodeId>,
    links: Seq<Seq<NodeId>>,
    ranks: Map<NodeId, real>,
    n: nat,
)
    requires
        exact_ops(g),
        graph(ids, links),
        n <= ids.len(),
    ensures
        total(ids, passed_on(g, damping, ids, links, ranks, n), ids.len()) == (ids.len() as real)
            * floor_rank(
            g,
            damping,
            ids.len(),
            dangling_mass(g, ids, links, ranks, ids.len()),
        ) + damping * linked_mass(ids, links, ranks, n),
    decreases n,
{
    let floor = floor_rank(
        g,
        damping,
        ids.len(),
        dangling_mass(g, ids, links, ranks, ids.len()),
    );
    if n == 0 {
        lemma_total_constant(ids, floor, ids.len());
        assert(damping * (0 as real) == 0 as real) by (nonlinear_arith);
    } else {
        let before = passed_on(g, damping, ids, links, ranks, (n - 1) as nat);
        let targets = links[n - 1];
        let rank = ranks[ids[n - 1]];
        let amount = outflow(g, damping, rank, targets.len());
        lemma_passed_on(g, damping, ids, links, ranks, (n - 1) as nat);
        assert forall|j: int| 0 <= j < targets.len() implies ids.contains(#[trigger] targets[j]) by {
            assert(ids.contains(links[n - 1][j]));
        }
        lemma_spread(g, ids, before, targets, amount);
        let sofar = linked_mass(ids, links, ranks, (n - 1) as nat);
        if targets.len() > 0 {
            lemma_whole_flow(targets.len(), damping, rank);
            assert(damping * (sofar + rank) == damping * sofar + damping * rank)
                by (nonlinear_arith);
        } else {
            assert((0nat as real) * amount == 0 as real) by (nonlinear_arith);
        }
    }
}

proof fn lemma_whole_floor(g: Ops<real>, damping: real, size: nat, dangling: real)
    requires
        exact_ops(g),
        size > 0,
    ensures
        (size as real) * floor_rank(g, damping, size, dangling) == (1 as real - damping) + damping
            * dangling,
{
    let n = size as real;
    let a = 1 as real - damping;
    let b = damping * dangling;
    assert(n > 0 as real);
    assert(n * (a / n + b / n) == a + b) by (nonlinear_arith)
        requires
            n > 0 as real,
    ;
}

/// The ranks of a graph sum to one after every round, links or no links.
pub proof fn lemma_ranks_sum_to_one(
    g: Ops<real>,
    damping: real,
    ids: Seq<NodeId>,
    links: Seq<Seq<NodeId>>,
    rounds: nat,
)
    requires
        exact_ops(g),
        graph(ids, links),
        ids.len() > 0,
    ensures
        total(ids, ranks_after(g, damping, ids, links, rounds), ids.len()) == 1 as real,
    decreases rounds,
{
    let n = ids.len() as real;
    assert(n > 0 as real);
    if rounds == 0 {
        lemma_total_constant(ids, 1 as real / n, ids.len());
        assert(n * (1 as real / n) == 1 as real) by (nonlinear_arith)
            requires
                n > 0 as real,
        ;
    } else {
        let before = ranks_after(g, damping, ids, links, (rounds - 1) as nat);
        let dangling = dangling_mass(g, ids, links, before, ids.len());
        let linked = linked_mass(ids, links, before, ids.len());
        lemma_ranks_sum_to_one(g, damping, ids, links, (rounds - 1) as nat);
        lemma_passed_on(g, damping, ids, links, before, ids.len());
        lemma_whole_floor(g, damping, ids.len(), dangling);
        lemma_split_mass(g, ids, links, before, ids.len());
        assert(damping * dangling + damping * linked == damping * (dangling + linked))
            by (nonlinear_arith);
        assert(damping * (1 as real) == damping) by (nonlinear_arith);
    }
}

proof fn lemma_dangling_not_negative(
    g: Ops<real>,
    ids: Seq<NodeId>,
    links: Seq<Seq<NodeId>>,
    ranks: Map<NodeId, real>,
    n: nat,
)
    requires
        exact_ops(g),
        n <= ids.len(),
        forall|i: int| 0 <= i < ids.len() ==> ranks[#[trigger] ids[i]] > 0 as real,
    ensures
        dangling_mass(g, ids, links, ranks, n) >= 0 as real,
    decreases n,
{
    if n > 0 {
        lemma_dangling_not_negative(g, ids, links, ranks, (n - 1) as nat);
        assert(ranks[ids[n - 1]] > 0 as real);
    }
}

proof fn lemma_passed_on_at_least(
    g: Ops<real>,
    damping: real,
    ids: Seq<NodeId>,
    links: Seq<Seq<NodeId>>,
    ranks: Map<NodeId, real>,
    n: nat,
)
    requires
        exact_ops(g),
        graph(ids, links),
        n <= ids.len(),
        damping >= 0 as real,
        forall|i: int| 0 <= i < ids.len() ==> ranks[#[trigger] ids[i]] > 0 as real,
    ensures
        forall|id: NodeId| #[trigger]
            ids.contains(id) ==> {
                let next = passed_on(g, damping, ids, links, ranks, n);
                next.dom().contains(id) && next[id] >= floor_rank(
                    g,
                    damping,
                    ids.len(),
                    dangling_mass(g, ids, links, ranks, ids.len()),
                )
            },
    decreases n,
{
    if n > 0 {
        let before = passed_on(g, damping, ids, links, ranks, (n - 1) as nat);
        let targets = links[n - 1];
        let rank = ranks[ids[n - 1]];
        let amount = outflow(g, damping, rank, targets.len());
        lemma_passed_on_at_least(g, damping, ids, links, ranks, (n - 1) as nat);
        if targets.len() > 0 {
            let k = targets.len() as real;
            assert(k > 0 as real);
            assert((damping * rank) / k >= 0 as real) by (nonlinear_arith)
                requires
                    damping >= 0 as real,
                    rank > 0 as real,
                    k > 0 as real,
            ;
            assert forall|j: int| 0 <= j < targets.len() implies ids.contains(
                #[trigger] targets[j],
            ) by {
                assert(ids.contains(links[n - 1][j]));
            }
            lemma_spread(g, ids, before, targets, amount);
        }
    }
}

/// Every rank is positive after every round, where the damping is between zero and one.
pub proof fn lemma_ranks_positive(
    g: Ops<real>,
    damping: real,
    ids: Seq<NodeId>,
    links: Seq<Seq<NodeId>>,
    rounds: nat,
)
    requires
        exact_ops(g),
        graph(ids, links),
        0 as real <= damping,
        damping < 1 as real,
    ensures
        forall|id: NodeId| #[trigger]
            ids.contains(id) ==> ranks_after(g, damping, ids, links, rounds)[id] > 0 as real,
    decreases rounds,
{
    if ids.len() == 0 {
    } else if rounds == 0 {
        let n = ids.len() as real;
        assert(n > 0 as real);
        assert(1 as real / n > 0 as real) by (nonlinear_arith)
            requires
                n > 0 as real,
        ;
    } else {
        let before = ranks_after(g, damping, ids, links, (rounds - 1) as nat);
        lemma_ranks_positive(g, damping, ids, links, (rounds - 1) as nat);
        assert forall|i: int| 0 <= i < ids.len() implies before[#[trigger] ids[i]] > 0 as real by {
            assert(ids.contains(ids[i]));
        }
        lemma_dangling_not_negative(g, ids, links, before, ids.len());
        lemma_passed_on_at_least(g, damping, ids, links, before, ids.len());
        let dangling = dangling_mass(g, ids, links, before, ids.len());
        let n = ids.len() as real;
        let a = 1 as real - damping;
        assert(n > 0 as real);
        assert(a / n + (damping * dangling) / n > 0 as real) by (nonlinear_arith)
            requires
                n > 0 as real,
                a > 0 as real,
                damping >= 0 as real,
                dangling >= 0 as real,
        ;
    }
}

/// No rank falls below an equal part of what is not damped, after any number of rounds but none;
/// before the first round every rank is an equal part of one.
pub proof fn lemma_rank_floor(
    g: Ops<real>,
    damping: real,
    ids: Seq<NodeId>,
    links: Seq<Seq<NodeId>>,
    rounds: nat,
)
    requires
        exact_ops(g),
        graph(ids, links),
        0 as real <= damping,
        damping < 1 as real,
    ensures
        forall|id: NodeId| #[trigger]
            ids.contains(id) ==> ranks_after(g, damping, ids, links, 0)[id] == 1 as real / (
            ids.len() as real),
        rounds > 0 ==> forall|id: NodeId| #[trigger]
            ids.contains(id) ==> ranks_after(g, damping, ids, links, rounds)[id] >= (1 as real
                - damping) / (ids.len() as real),
{
    if rounds > 0 && ids.len() > 0 {
        let before = ranks_after(g, damping, ids, links, (rounds - 1) as nat);
        lemma_ranks_positive(g, damping, ids, links, (rounds - 1) as nat);
        assert forall|i: int| 0 <= i < ids.len() implies before[#[trigger] ids[i]] > 0 as real by {
            assert(ids.contains(ids[i]));
        }
        lemma_dangling_not_negative(g, ids, links, before, ids.len());
        lemma_passed_on_at_least(g, damping, ids, links, before, ids.len());
        let dangling = dangling_mass(g, ids, links, before, ids.len());
        let n = ids.len() as real;
        assert(n > 0 as real);
        assert((damping * dangling) / n >= 0 as real) by (nonlinear_arith)
            requires
                n > 0 as real,
                damping >= 0 as real,
                dangling >= 0 as real,
        ;
    }
}

} // verus!
