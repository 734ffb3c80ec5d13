//! Power iteration over a graph: each node passes a damped share of its rank along its links.
use crate::arith::faithful;
use crate::arith::ops_of;
use crate::arith::Arithmetic;
use crate::arith::Ops;
use crate::ids::NodeId;
use crate::scalar::one;
use crate::scalar::zero;
use crate::scalar::Scalar;
use std::collections::BTreeMap;
use vstd::prelude::*;

verus! {

/// Whether `links[i]` lists where the links of `ids[i]` lead, and none leads elsewhere than to
/// another of `ids`.
pub open spec fn graph(ids: Seq<NodeId>, links: Seq<Seq<NodeId>>) -> bool {
    &&& ids.no_duplicates()
    &&& links.len() == ids.len()
    &&& forall|i: int, j: int|
        0 <= i < links.len() && 0 <= j < links[i].len() ==> ids.contains(#[trigger] links[i][j])
}

/// The same value for every node.
pub open spec fn constant<T>(ids: Seq<NodeId>, value: T) -> Map<NodeId, T> {
    Map::new(|id: NodeId| ids.contains(id), |id: NodeId| value)
}

/// The rank held by those of the first `n` nodes that link to none.
pub open spec fn dangling_mass<T>(
    g: Ops<T>,
    ids: Seq<NodeId>,
    links: Seq<Seq<NodeId>>,
    ranks: Map<NodeId, T>,
    n: nat,
) -> T
    decreases n,
{
    if n == 0 {
        g.zero
    } else {
        let before = dangling_mass(g, ids, links, ranks, (n - 1) as nat);
        if links[n - 1].len() == 0 {
            (g.plus)(before, ranks[ids[n - 1]])
        } else {
            before
        }
    }
}

/// What every node starts a round with: its part of what is not damped, and of the rank of the
/// nodes that link to none.
pub open spec fn floor_rank<T>(g: Ops<T>, damping: T, size: nat, dangling: T) -> T {
    (g.plus)(
        (g.over)((g.minus)(g.one, damping), (g.count)(size)),
        (g.over)((g.times)(damping, dangling), (g.count)(size)),
    )
}

/// What a node passes along each of its links.
pub open spec fn outflow<T>(g: Ops<T>, damping: T, rank: T, degree: nat) -> T {
    (g.over)((g.times)(damping, rank), (g.count)(degree))
}

/// The ranks after each of `targets` has received `amount`.
pub open spec fn spread<T>(
    g: Ops<T>,
    ranks: Map<NodeId, T>,
    targets: Seq<NodeId>,
    amount: T,
) -> Map<NodeId, T>
    decreases targets.len(),
{
    if targets.len() == 0 {
        ranks
    } else {
        let before = spread(g, ranks, targets.drop_last(), amount);
        before.insert(targets.last(), (g.plus)(before[targets.last()], amount))
    }
}

/// The next ranks once the first `n` nodes have passed theirs on.
pub open spec fn passed_on<T>(
    g: Ops<T>,
    damping: T,
    ids: Seq<NodeId>,
    links: Seq<Seq<NodeId>>,
    ranks: Map<NodeId, T>,
    n: nat,
) -> Map<NodeId, T>
    decreases n,
{
    if n == 0 {
        constant(
            ids,
            floor_rank(
                g,
                damping,
                ids.len(),
                dangling_mass(g, ids, links, ranks, ids.len()),
            ),
        )
    } else {
        let targets = links[n - 1];
        spread(
            g,
            passed_on(g, damping, ids, links, ranks, (n - 1) as nat),
            targets,
            outflow(g, damping, ranks[ids[n - 1]], targets.len()),
        )
    }
}

/// The ranks after a number of rounds, from equal ranks.
pub open spec fn ranks_after<T>(
    g: Ops<T>,
    damping: T,
    ids: Seq<NodeId>,
    links: Seq<Seq<NodeId>>,
    rounds: nat,
) -> Map<NodeId, T>
    decreases rounds,
{
    if rounds == 0 {
        constant(ids, (g.over)(g.one, (g.count)(ids.len())))
    } else {
        passed_on(
            g,
            damping,
            ids,
            links,
            ranks_after(g, damping, ids, links, (rounds - 1) as nat),
            ids.len(),
        )
    }
}

/// What the links of each node lead to.
pub open spec fn link_views(links: Seq<Vec<NodeId>>) -> Seq<Seq<NodeId>> {
    links.map_values(|l: Vec<NodeId>| l@)
}

/// The same value for every node.
fn fill(ids: &Vec<NodeId>, value: Scalar) -> (m: BTreeMap<NodeId, Scalar>)
    ensures
        m@ == constant(ids@, value),
{
    let mut m: BTreeMap<NodeId, Scalar> = BTreeMap::new();
    let mut i: usize = 0;
    assert(m@ =~= constant(ids@.take(0), value));
    while i < ids.len()
        invariant
            i <= ids@.len(),
            m@ == constant(ids@.take(i as int), value),
        decreases ids.len() - i,
    {
        let ghost seen = ids@.take(i as int);
        proof {
            crate::ids::lemma_push_contains(seen, ids@[i as int]);
            assert(ids@.take(i + 1) =~= seen.push(ids@[i as int]));
        }
        m.insert(ids[i], value);
        i = i + 1;
        assert(m@ =~= constant(ids@.take(i as int), value));
    }
    assert(ids@.take(i as int) =~= ids@);
    m
}

/// The rank held by the nodes that link to none.
fn sum_dangling<A: Arithmetic>(
    ids: &Vec<NodeId>,
    links: &Vec<Vec<NodeId>>,
    ranks: &BTreeMap<NodeId, Scalar>,
    ar: &A,
) -> (sum: Scalar)
    requires
        graph(ids@, link_views(links@)),
        ranks@.dom() == ids@.to_set(),
    ensures
        faithful(ar) ==> sum == dangling_mass(
            ops_of(ar),
            ids@,
            link_views(links@),
            ranks@,
            ids@.len(),
        ),
{
    let mut sum = zero();
    let mut i: usize = 0;
    while i < ids.len()
        invariant
            i <= ids@.len(),
            links@.len() == ids@.len(),
            ranks@.dom() == ids@.to_set(),
            faithful(ar) ==> sum == dangling_mass(
                ops_of(ar),
                ids@,
                link_views(links@),
                ranks@,
                i as nat,
            ),
        decreases ids.len() - i,
    {
        if links[i].len() == 0 {
            assert(ids@.contains(ids@[i as int]));
            if let Some(rank) = ranks.get(&ids[i]) {
                sum = ar.plus(sum, *rank);
            }
        }
        i = i + 1;
    }
    sum
}

/// Adds `amount` to the rank of each of `targets`.
fn add_to_all<A: Arithmetic>(
    ranks: &mut BTreeMap<NodeId, Scalar>,
    targets: &Vec<NodeId>,
    amount: Scalar,
    ar: &A,
)
    requires
        forall|j: int|
            0 <= j < targets@.len() ==> old(ranks)@.dom().contains(#[trigger] targets@[j]),
    ensures
        final(ranks)@.dom() == old(ranks)@.dom(),
        faithful(ar) ==> final(ranks)@ == spread(ops_of(ar), old(ranks)@, targets@, amount),
{
    let mut j: usize = 0;
    assert(targets@.take(0) =~= Seq::empty());
    while j < targets.len()
        invariant
            j <= targets@.len(),
            ranks@.dom() == old(ranks)@.dom(),
            forall|k: int| 0 <= k < targets@.len() ==> ranks@.dom().contains(#[trigger] targets@[k]),
            faithful(ar) ==> ranks@ == spread(
                ops_of(ar),
                old(ranks)@,
                targets@.take(j as int),
                amount,
            ),
        decreases targets.len() - j,
    {
        let id: NodeId = targets[j];
        assert(targets@.take(j + 1).drop_last() =~= targets@.take(j as int));
        let ghost before = ranks@;
        if let Some(rank) = ranks.get(&id) {
            let sum = ar.plus(*rank, amount);
            ranks.insert(id, sum);
            assert(ranks@.dom() =~= before.dom());
        }
        j = j + 1;
    }
    assert(targets@.take(j as int) =~= targets@);
}

/// One round.
fn pass_on<A: Arithmetic>(
    ids: &Vec<NodeId>,
    links: &Vec<Vec<NodeId>>,
    ranks: &BTreeMap<NodeId, Scalar>,
    damping: Scalar,
    ar: &A,
) -> (next: BTreeMap<NodeId, Scalar>)
    requires
        graph(ids@, link_views(links@)),
        ranks@.dom() == ids@.to_set(),
    ensures
        next@.dom() == ids@.to_set(),
        faithful(ar) ==> next@ == passed_on(
            ops_of(ar),
            damping,
            ids@,
            link_views(links@),
            ranks@,
            ids@.len(),
        ),
{
    let ghost view = link_views(links@);
    let dangling = sum_dangling(ids, links, ranks, ar);
    let size = ar.count(ids.len() as u64);
    let undamped = ar.minus(one(), damping);
    let teleport = ar.over(undamped, size);
    let damped = ar.times(damping, dangling);
    let returned = ar.over(damped, size);
    let mut next = fill(ids, ar.plus(teleport, returned));
    assert(next@.dom() =~= ids@.to_set());
    let mut i: usize = 0;
    while i < ids.len()
        invariant
            i <= ids@.len(),
            view == link_views(links@),
            graph(ids@, view),
            ranks@.dom() == ids@.to_set(),
            next@.dom() == ids@.to_set(),
            faithful(ar) ==> next@ == passed_on(
                ops_of(ar),
                damping,
                ids@,
                view,
                ranks@,
                i as nat,
            ),
        decreases ids.len() - i,
    {
        assert(ids@.contains(ids@[i as int]));
        if let Some(rank) = ranks.get(&ids[i]) {
            let degree = ar.count(links[i].len() as u64);
            let share = ar.times(damping, *rank);
            let amount = ar.over(share, degree);
            assert(view[i as int] == links@[i as int]@);
            assert forall|j: int| 0 <= j < links@[i as int]@.len() implies next@.dom().contains(
                #[trigger] links@[i as int]@[j],
            ) by {
                assert(ids@.contains(view[i as int][j]));
            }
            add_to_all(&mut next, &links[i], amount, ar);
        }
        i = i + 1;
    }
    next
}

/// The ranks after a number of rounds, from equal ranks.
pub(crate) fn power_iteration<A: Arithmetic>(
    ids: &Vec<NodeId>,
    links: &Vec<Vec<NodeId>>,
    damping: Scalar,
    rounds: usize,
    ar: &A,
) -> (ranks: BTreeMap<NodeId, Scalar>)
    requires
        graph(ids@, link_views(links@)),
    ensures
        ranks@.dom() == ids@.to_set(),
        faithful(ar) ==> ranks@ == ranks_after(
            ops_of(ar),
            damping,
            ids@,
            link_views(links@),
            rounds as nat,
        ),
{
    let size = ar.count(ids.len() as u64);
    let equal = ar.over(one(), size);
    let mut ranks = fill(ids, equal);
    assert(ranks@.dom() =~= ids@.to_set());
    let mut round: usize = 0;
    while round < rounds
        invariant
            round <= rounds,
            graph(ids@, link_views(links@)),
            ranks@.dom() == ids@.to_set(),
            faithful(ar) ==> ranks@ == ranks_after(
                ops_of(ar),
                damping,
                ids@,
                link_views(links@),
                round as nat,
            ),
        decreases rounds - round,
    {
        ranks = pass_on(ids, links, &ranks, damping, ar);
        round = round + 1;
    }
    ranks
}

} // verus!
