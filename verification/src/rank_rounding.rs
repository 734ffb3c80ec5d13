//! How far the ranks that power iteration computes are from adding up to one.
use crate::arith::Ops;
use crate::computed_ranks::teleport_share;
use crate::ids::ascending;
use crate::ids::lemma_ascending;
use crate::ids::lemma_ascending_len;
use crate::ids::NodeId;
use crate::index::same_but_centrality;
use crate::index::IndexView;
use crate::laws::lemma_centrality_wf;
use crate::laws::lemma_figures;
use crate::laws::node_wf;
use crate::laws::positive;
use crate::node::NodeView;
use crate::pagerank::constant;
use crate::pagerank::dangling_mass;
use crate::pagerank::floor_rank;
use crate::pagerank::graph;
use crate::pagerank::outflow;
use crate::pagerank::passed_on;
use crate::pagerank::ranks_after;
use crate::pagerank::spread;
use crate::rerank::lemma_live_graph;
use crate::rerank::lemma_ranks_dom;
use crate::rounding::lemma_below_one;
use crate::rounding::lemma_constants;
use crate::rounding::lemma_counted;
use crate::rounding::lemma_difference;
use crate::rounding::lemma_product;
use crate::rounding::lemma_quotient;
use crate::rounding::lemma_rounding_fixes;
use crate::rounding::lemma_rounding_near;
use crate::rounding::lemma_rounding_order;
use crate::rounding::lemma_starts;
use crate::rounding::lemma_sum;
use crate::rounding::lemma_value_order;
use crate::rounding::rounded;
use crate::rounding::value;
use crate::rounding::within;
use crate::scalar::zero;
use crate::scalar::Scalar;
use crate::stats::centrality_sum;
use vstd::prelude::*;

verus! {

/// The exact sum of the values of the first `n` ranks.
pub open spec fn sum_of(ids: Seq<NodeId>, ranks: Map<NodeId, Scalar>, n: nat) -> real
    decreases n,
{
    if n == 0 {
        0 as real
    } else {
        sum_of(ids, ranks, (n - 1) as nat) + value(ranks[ids[n - 1]])
    }
}

/// Whether every node has a rank that is finite and at least `least`.
pub open spec fn sound(ids: Seq<NodeId>, ranks: Map<NodeId, Scalar>, least: real) -> bool {
    forall|id: NodeId| #[trigger]
        ids.contains(id) ==> ranks.dom().contains(id) && ranks[id].finite() && value(ranks[id])
            >= least
}

/// Ten to the power of minus 45.
spec fn tiny() -> real {
    1 as real / (1000000000000000000000000000000000000000000000int as real)
}

/// The sum of ranks grows with their number.
proof fn lemma_sum_grows(ids: Seq<NodeId>, ranks: Map<NodeId, Scalar>, n: nat, m: nat)
    requires
        sound(ids, ranks, 0 as real),
        n <= m,
        m <= ids.len(),
    ensures
        0 as real <= sum_of(ids, ranks, n),
        sum_of(ids, ranks, n) <= sum_of(ids, ranks, m),
    decreases m,
{
    if m > 0 {
        assert(ids.contains(ids[m - 1]));
        lemma_sum_grows(ids, ranks, if n < m {
            n
        } else {
            (m - 1) as nat
        }, (m - 1) as nat);
    }
}

/// No rank is larger than their sum.
proof fn lemma_sum_above(ids: Seq<NodeId>, ranks: Map<NodeId, Scalar>, id: NodeId)
    requires
        sound(ids, ranks, 0 as real),
        ids.contains(id),
    ensures
        value(ranks[id]) <= sum_of(ids, ranks, ids.len()),
{
    let i = choose|i: int| 0 <= i < ids.len() && ids[i] == id;
    lemma_sum_grows(ids, ranks, i as nat, i as nat);
    lemma_sum_grows(ids, ranks, (i + 1) as nat, ids.len());
}

proof fn lemma_sum_insert(
    ids: Seq<NodeId>,
    ranks: Map<NodeId, Scalar>,
    id: NodeId,
    rank: Scalar,
    n: nat,
)
    requires
        ids.no_duplicates(),
        n <= ids.len(),
    ensures
        sum_of(ids, ranks.insert(id, rank), n) == sum_of(ids, ranks, n) + if ids.take(
            n as int,
        ).contains(id) {
            value(rank) - value(ranks[id])
        } else {
            0 as real
        },
    decreases n,
{
    if n > 0 {
        let front = ids.take(n - 1);
        lemma_sum_insert(ids, ranks, id, rank, (n - 1) as nat);
        crate::ids::lemma_push_contains(front, ids[n - 1]);
        assert(ids.take(n as int) =~= front.push(ids[n - 1]));
        if ids[n - 1] == id && front.contains(id) {
            let k = choose|k: int| 0 <= k < front.len() && front[k] == id;
            assert(ids[k] == ids[n - 1]);
        }
    }
}

/// Sums over sequences that begin alike are alike.
proof fn lemma_sum_prefix(a: Seq<NodeId>, b: Seq<NodeId>, ranks: Map<NodeId, Scalar>, n: nat)
    requires
        n <= a.len(),
        n <= b.len(),
        forall|i: int| 0 <= i < n ==> #[trigger] a[i] == b[i],
    ensures
        sum_of(a, ranks, n) == sum_of(b, ranks, n),
    decreases n,
{
    if n > 0 {
        lemma_sum_prefix(a, b, ranks, (n - 1) as nat);
        assert(a[n - 1] == b[n - 1]);
    }
}

/// The ranks with those of `targets` set to zero.
spec fn zeroed(ranks: Map<NodeId, Scalar>, targets: Seq<NodeId>) -> Map<NodeId, Scalar>
    decreases targets.len(),
{
    if targets.len() == 0 {
        ranks
    } else {
        zeroed(ranks, targets.drop_last()).insert(targets.last(), zero())
    }
}

proof fn lemma_zeroed(ids: Seq<NodeId>, ranks: Map<NodeId, Scalar>, targets: Seq<NodeId>)
    requires
        ids.no_duplicates(),
        sound(ids, ranks, 0 as real),
        targets.no_duplicates(),
        forall|j: int| 0 <= j < targets.len() ==> ids.contains(#[trigger] targets[j]),
    ensures
        sound(ids, zeroed(ranks, targets), 0 as real),
        forall|id: NodeId|
            !targets.contains(id) ==> #[trigger] zeroed(ranks, targets)[id] == ranks[id],
        sum_of(ids, zeroed(ranks, targets), ids.len()) == sum_of(ids, ranks, ids.len()) - sum_of(
            targets,
            ranks,
            targets.len(),
        ),
    decreases targets.len(),
{
    lemma_constants();
    if targets.len() > 0 {
        let front = targets.drop_last();
        let last = targets.last();
        let before = zeroed(ranks, front);
        assert forall|j: int| 0 <= j < front.len() implies ids.contains(#[trigger] front[j]) by {
            assert(ids.contains(targets[j]));
        }
        lemma_zeroed(ids, ranks, front);
        assert(ids.contains(targets[targets.len() - 1]));
        assert(ids.take(ids.len() as int) =~= ids);
        lemma_sum_insert(ids, before, last, zero(), ids.len());
        lemma_sum_prefix(front, targets, ranks, front.len());
        assert(targets =~= front.push(last));
        crate::ids::lemma_push_contains(front, last);
        assert(!front.contains(last)) by {
            if front.contains(last) {
                let k = choose|k: int| 0 <= k < front.len() && front[k] == last;
                assert(targets[k] == targets[targets.len() - 1]);
            }
        }
    }
}

/// Some of the ranks add up to no more than all of them.
proof fn lemma_part(ids: Seq<NodeId>, ranks: Map<NodeId, Scalar>, targets: Seq<NodeId>)
    requires
        ids.no_duplicates(),
        sound(ids, ranks, 0 as real),
        targets.no_duplicates(),
        forall|j: int| 0 <= j < targets.len() ==> ids.contains(#[trigger] targets[j]),
    ensures
        sum_of(targets, ranks, targets.len()) <= sum_of(ids, ranks, ids.len()),
{
    lemma_zeroed(ids, ranks, targets);
    lemma_sum_grows(ids, zeroed(ranks, targets), ids.len(), ids.len());
}

/// A small sum of numbers that are not negative is near the exact one, and no smaller than what
/// was added to.
proof fn lemma_add(g: Ops<Scalar>, fl: spec_fn(real) -> real, x: Scalar, y: Scalar)
    requires
        rounded(g, fl),
        x.finite(),
        y.finite(),
        0 as real <= value(x),
        value(x) <= 10 as real,
        0 as real <= value(y),
        value(y) <= 10 as real,
    ensures
        (g.plus)(x, y).finite(),
        value(x) <= value((g.plus)(x, y)),
        within(
            value((g.plus)(x, y)),
            value(x) + value(y),
            (value(x) + value(y)) / (16777216 as real) + tiny(),
        ),
{
    lemma_sum(g, fl, x, y);
    lemma_rounding_order(g, fl, value(x), value(x) + value(y));
    lemma_rounding_fixes(g, fl, x);
}

proof fn lemma_one_more(k: nat, x: real)
    ensures
        ((k + 1) as nat as real) * x == (k as real) * x + x,
{
    let m = k as real;
    assert((k + 1) as nat as real == m + 1 as real);
    assert((m + 1 as real) * x == m * x + x) by (nonlinear_arith);
}

/// Adding the same amount to some of the ranks adds it that often to their sum, but for rounding.
proof fn lemma_spread_error(
    g: Ops<Scalar>,
    fl: spec_fn(real) -> real,
    ids: Seq<NodeId>,
    ranks: Map<NodeId, Scalar>,
    targets: Seq<NodeId>,
    amount: Scalar,
    least: real,
)
    requires
        rounded(g, fl),
        ids.no_duplicates(),
        sound(ids, ranks, least),
        least >= 0 as real,
        targets.no_duplicates(),
        forall|j: int| 0 <= j < targets.len() ==> ids.contains(#[trigger] targets[j]),
        amount.finite(),
        0 as real <= value(amount),
        value(amount) <= 10 as real,
        sum_of(ids, ranks, ids.len()) <= 10 as real,
    ensures
        ({
            let after = spread(g, ranks, targets, amount);
            let k = targets.len() as real;
            let given = k * value(amount);
            &&& sound(ids, after, least)
            &&& forall|id: NodeId| !targets.contains(id) ==> #[trigger] after[id] == ranks[id]
            &&& within(
                sum_of(ids, after, ids.len()),
                sum_of(ids, ranks, ids.len()) + given,
                (sum_of(targets, ranks, targets.len()) + given) / (16777216 as real) + k * tiny(),
            )
        }),
    decreases targets.len(),
{
    if targets.len() == 0 {
        assert((0nat as real) * value(amount) == 0 as real) by (nonlinear_arith);
        assert((0nat as real) * tiny() == 0 as real) by (nonlinear_arith);
    } else {
        let front = targets.drop_last();
        let last = targets.last();
        let before = spread(g, ranks, front, amount);
        assert forall|j: int| 0 <= j < front.len() implies ids.contains(#[trigger] front[j]) by {
            assert(ids.contains(targets[j]));
        }
        lemma_spread_error(g, fl, ids, ranks, front, amount, least);
        assert(ids.contains(targets[targets.len() - 1]));
        assert(ids.take(ids.len() as int) =~= ids);
        assert(targets =~= front.push(last));
        crate::ids::lemma_push_contains(front, last);
        assert(!front.contains(last)) by {
            if front.contains(last) {
                let k = choose|k: int| 0 <= k < front.len() && front[k] == last;
                assert(targets[k] == targets[targets.len() - 1]);
            }
        }
        let next = (g.plus)(before[last], amount);
        lemma_sum_above(ids, ranks, last);
        lemma_add(g, fl, before[last], amount);
        lemma_sum_insert(ids, before, last, next, ids.len());
        lemma_sum_prefix(front, targets, ranks, front.len());
        lemma_one_more(front.len(), value(amount));
        lemma_one_more(front.len(), tiny());
    }
}

/// A quotient by a count, taken that many times, is near what was divided.
proof fn lemma_share(g: Ops<Scalar>, fl: spec_fn(real) -> real, x: Scalar, n: nat)
    requires
        rounded(g, fl),
        0 < n <= 16777216,
        x.finite(),
        0 as real <= value(x),
        value(x) <= 10 as real,
    ensures
        ({
            let q = (g.over)(x, (g.count)(n));
            let k = n as real;
            &&& q.finite()
            &&& 0 as real <= value(q)
            &&& value(q) <= 11 as real
            &&& within(k * value(q), value(x), value(x) / (16777216 as real) + k * tiny())
        }),
{
    let k = n as real;
    let t = value(x);
    lemma_counted(g, fl, n);
    let exact = t / k;
    assert(k * exact == t && 0 as real <= exact && exact <= t) by (nonlinear_arith)
        requires
            k >= 1 as real,
            0 as real <= t,
            exact == t / k,
    ;
    lemma_quotient(g, fl, x, (g.count)(n));
    lemma_rounding_near(g, fl, exact);
    let q = value((g.over)(x, (g.count)(n)));
    let e = exact / (16777216 as real) + tiny();
    assert(within(k * q, k * exact, k * e)) by {
        let d = q - exact;
        assert(k * q - k * exact == k * d) by (nonlinear_arith)
            requires
                d == q - exact,
        ;
        assert(-(k * e) <= k * d && k * d <= k * e) by (nonlinear_arith)
            requires
                k >= 0 as real,
                -e <= d,
                d <= e,
        ;
    }
    assert(k * e == t / (16777216 as real) + k * tiny()) by (nonlinear_arith)
        requires
            k * exact == t,
            e == exact / (16777216 as real) + tiny(),
    ;
}

/// The damped part of a number is near the exact one.
proof fn lemma_damped(g: Ops<Scalar>, fl: spec_fn(real) -> real, damping: Scalar, x: Scalar)
    requires
        rounded(g, fl),
        damping.finite(),
        0 as real <= value(damping),
        value(damping) <= 1 as real,
        x.finite(),
        0 as real <= value(x),
        value(x) <= 2 as real,
    ensures
        ({
            let exact = value(damping) * value(x);
            &&& 0 as real <= exact
            &&& exact <= value(x)
            &&& (g.times)(damping, x).finite()
            &&& 0 as real <= value((g.times)(damping, x))
            &&& within(
                value((g.times)(damping, x)),
                exact,
                exact / (16777216 as real) + tiny(),
            )
        }),
{
    let d = value(damping);
    let r = value(x);
    assert(0 as real <= d * r && d * r <= r) by (nonlinear_arith)
        requires
            0 as real <= d,
            d <= 1 as real,
            0 as real <= r,
    ;
    lemma_product(g, fl, damping, x);
    lemma_rounding_near(g, fl, d * r);
}

/// What a node passes on, over all its links, is near the damped part of its rank.
proof fn lemma_outflow_error(
    g: Ops<Scalar>,
    fl: spec_fn(real) -> real,
    damping: Scalar,
    rank: Scalar,
    degree: nat,
)
    requires
        rounded(g, fl),
        damping.finite(),
        0 as real <= value(damping),
        value(damping) <= 1 as real,
        rank.finite(),
        0 as real <= value(rank),
        value(rank) <= 2 as real,
        0 < degree <= 1000,
    ensures
        ({
            let amount = outflow(g, damping, rank, degree);
            let exact = value(damping) * value(rank);
            &&& amount.finite()
            &&& 0 as real <= value(amount)
            &&& value(amount) <= 10 as real
            &&& within(
                (degree as real) * value(amount),
                exact,
                (3 as real) * exact / (16777216 as real) + (2000 as real) * tiny(),
            )
        }),
{
    lemma_damped(g, fl, damping, rank);
    let damped = (g.times)(damping, rank);
    lemma_share(g, fl, damped, degree);
    let k = degree as real;
    assert(k * tiny() <= (1000 as real) * tiny()) by (nonlinear_arith)
        requires
            k <= 1000 as real,
            tiny() >= 0 as real,
    ;
    let amount = value(outflow(g, damping, rank, degree));
    assert(amount <= k * amount) by (nonlinear_arith)
        requires
            k >= 1 as real,
            0 as real <= amount,
    ;
}

/// The exact sum of the ranks of those of the first `n` nodes that link to none.
spec fn loose_sum(
    ids: Seq<NodeId>,
    links: Seq<Seq<NodeId>>,
    ranks: Map<NodeId, Scalar>,
    n: nat,
) -> real
    decreases n,
{
    if n == 0 {
        0 as real
    } else {
        loose_sum(ids, links, ranks, (n - 1) as nat) + if links[n - 1].len() == 0 {
            value(ranks[ids[n - 1]])
        } else {
            0 as real
        }
    }
}

/// The sum of the ranks of the nodes that link to none is near the exact one.
proof fn lemma_dangling_error(
    g: Ops<Scalar>,
    fl: spec_fn(real) -> real,
    ids: Seq<NodeId>,
    links: Seq<Seq<NodeId>>,
    ranks: Map<NodeId, Scalar>,
    n: nat,
)
    requires
        rounded(g, fl),
        sound(ids, ranks, 0 as real),
        n <= ids.len(),
        ids.len() <= 1000,
        sum_of(ids, ranks, ids.len()) <= (105 as real) / (100 as real),
    ensures
        dangling_mass(g, ids, links, ranks, n).finite(),
        0 as real <= value(dangling_mass(g, ids, links, ranks, n)),
        within(
            value(dangling_mass(g, ids, links, ranks, n)),
            loose_sum(ids, links, ranks, n),
            (12 as real) * (n as real) / (167772160 as real),
        ),
        0 as real <= loose_sum(ids, links, ranks, n),
        loose_sum(ids, links, ranks, n) <= sum_of(ids, ranks, n),
    decreases n,
{
    if n == 0 {
        lemma_starts(g, fl);
    } else {
        let m = (n - 1) as nat;
        lemma_dangling_error(g, fl, ids, links, ranks, m);
        assert(ids.contains(ids[n - 1]));
        lemma_sum_above(ids, ranks, ids[n - 1]);
        lemma_sum_grows(ids, ranks, m, ids.len());
        lemma_sum_grows(ids, ranks, n, ids.len());
        assert(n as real == m as real + 1 as real);
        if links[n - 1].len() == 0 {
            lemma_add(g, fl, dangling_mass(g, ids, links, ranks, m), ranks[ids[n - 1]]);
        }
    }
}

/// What all nodes start a round with adds up to what is not damped, and the damped rank of the
/// nodes that link to none, but for rounding.
proof fn lemma_floor_error(
    g: Ops<Scalar>,
    fl: spec_fn(real) -> real,
    damping: Scalar,
    n: nat,
    dangling: Scalar,
    loose: real,
)
    requires
        rounded(g, fl),
        damping.finite(),
        0 as real <= value(damping),
        value(damping) <= 1 as real,
        0 < n <= 1000,
        dangling.finite(),
        0 as real <= value(dangling),
        within(value(dangling), loose, (12 as real) * (n as real) / (167772160 as real)),
        0 as real <= loose,
        loose <= (105 as real) / (100 as real),
    ensures
        ({
            let floor = floor_rank(g, damping, n, dangling);
            let k = n as real;
            let d = value(damping);
            &&& floor.finite()
            &&& 0 as real <= value(teleport_share(g, damping, n))
            &&& teleport_share(g, damping, n).finite()
            &&& value(teleport_share(g, damping, n)) <= value(floor)
            &&& value(floor) <= 10 as real
            &&& within(
                k * value(floor),
                (1 as real - d) + d * loose,
                ((12 as real) * k / (10 as real) + 8 as real) / (16777216 as real),
            )
        }),
{
    let d = value(damping);
    let k = n as real;
    lemma_starts(g, fl);
    lemma_difference(g, fl, g.one, damping);
    lemma_rounding_near(g, fl, 1 as real - d);
    let rest = (g.minus)(g.one, damping);
    lemma_share(g, fl, rest, n);
    lemma_damped(g, fl, damping, dangling);
    let damped = (g.times)(damping, dangling);
    lemma_share(g, fl, damped, n);
    let x = teleport_share(g, damping, n);
    let y = (g.over)(damped, (g.count)(n));
    let floor = floor_rank(g, damping, n, dangling);
    assert(value(x) <= k * value(x) && value(y) <= k * value(y)) by (nonlinear_arith)
        requires
            k >= 1 as real,
            0 as real <= value(x),
            0 as real <= value(y),
    ;
    assert(k * tiny() <= (1000 as real) * tiny()) by (nonlinear_arith)
        requires
            k <= 1000 as real,
            tiny() >= 0 as real,
    ;
    lemma_add(g, fl, x, y);
    // The damped sum, against the exact one.
    let e = (12 as real) * k / (167772160 as real);
    assert(within(d * value(dangling), d * loose, e)) by {
        let z = value(dangling) - loose;
        assert(d * value(dangling) - d * loose == d * z) by (nonlinear_arith)
            requires
                z == value(dangling) - loose,
        ;
        assert(-e <= d * z && d * z <= e) by (nonlinear_arith)
            requires
                0 as real <= d,
                d <= 1 as real,
                -e <= z,
                z <= e,
        ;
    }
    assert(0 as real <= d * loose && d * loose <= loose) by (nonlinear_arith)
        requires
            0 as real <= d,
            d <= 1 as real,
            0 as real <= loose,
    ;
    // The sum of the two shares, as often as there are nodes.
    let w = value(x) + value(y);
    let slip = w / (16777216 as real) + tiny();
    assert(k * w == k * value(x) + k * value(y)) by (nonlinear_arith)
        requires
            w == value(x) + value(y),
    ;
    assert(within(k * value(floor), k * w, k * slip)) by {
        let z = value(floor) - w;
        assert(k * value(floor) - k * w == k * z) by (nonlinear_arith)
            requires
                z == value(floor) - w,
        ;
        assert(-(k * slip) <= k * z && k * z <= k * slip) by (nonlinear_arith)
            requires
                k >= 0 as real,
                -slip <= z,
                z <= slip,
        ;
    }
    assert(k * slip == (k * w) / (16777216 as real) + k * tiny()) by (nonlinear_arith)
        requires
            slip == w / (16777216 as real) + tiny(),
    ;
}

/// The exact sum of the ranks of those of the first `n` nodes that have links.
spec fn linked_sum(
    ids: Seq<NodeId>,
    links: Seq<Seq<NodeId>>,
    ranks: Map<NodeId, Scalar>,
    n: nat,
) -> real
    decreases n,
{
    if n == 0 {
        0 as real
    } else {
        linked_sum(ids, links, ranks, (n - 1) as nat) + if links[n - 1].len() == 0 {
            0 as real
        } else {
            value(ranks[ids[n - 1]])
        }
    }
}

proof fn lemma_sums_split(
    ids: Seq<NodeId>,
    links: Seq<Seq<NodeId>>,
    ranks: Map<NodeId, Scalar>,
    n: nat,
)
    requires
        sound(ids, ranks, 0 as real),
        n <= ids.len(),
    ensures
        loose_sum(ids, links, ranks, n) + linked_sum(ids, links, ranks, n) == sum_of(ids, ranks, n),
        0 as real <= loose_sum(ids, links, ranks, n),
        0 as real <= linked_sum(ids, links, ranks, n),
    decreases n,
{
    if n > 0 {
        assert(ids.contains(ids[n - 1]));
        lemma_sums_split(ids, links, ranks, (n - 1) as nat);
    }
}

proof fn lemma_sum_constant(ids: Seq<NodeId>, rank: Scalar, n: nat)
    requires
        n <= ids.len(),
    ensures
        sum_of(ids, constant(ids, rank), n) == (n as real) * value(rank),
    decreases n,
{
    if n == 0 {
        assert((0nat as real) * value(rank) == 0 as real) by (nonlinear_arith);
    } else {
        lemma_sum_constant(ids, rank, (n - 1) as nat);
        assert(ids.contains(ids[n - 1]));
        lemma_one_more((n - 1) as nat, value(rank));
    }
}

/// Whether no node has two links to the same node.
pub open spec fn simple(links: Seq<Seq<NodeId>>) -> bool {
    forall|i: int| 0 <= i < links.len() ==> (#[trigger] links[i]).no_duplicates()
}

/// Whether the damping is a number between zero and one.
pub open spec fn proper_damping(damping: Scalar) -> bool {
    &&& damping.finite()
    &&& 0 as real <= value(damping)
    &&& value(damping) <= 1 as real
}

/// Some nodes are no more than all of them.
proof fn lemma_fewer(ids: Seq<NodeId>, targets: Seq<NodeId>)
    requires
        ids.no_duplicates(),
        targets.no_duplicates(),
        forall|j: int| 0 <= j < targets.len() ==> ids.contains(#[trigger] targets[j]),
    ensures
        targets.len() <= ids.len(),
{
    ids.unique_seq_to_set();
    targets.unique_seq_to_set();
    assert(targets.to_set().subset_of(ids.to_set()));
    vstd::set_lib::lemma_len_subset(targets.to_set(), ids.to_set());
}

/// The computed ranks after the first `n` nodes have passed theirs on add up to what was there at
/// first and the damped ranks of those of them that have links, but for rounding.
proof fn lemma_passed_on_error(
    g: Ops<Scalar>,
    fl: spec_fn(real) -> real,
    damping: Scalar,
    ids: Seq<NodeId>,
    links: Seq<Seq<NodeId>>,
    ranks: Map<NodeId, Scalar>,
    floor: Scalar,
    n: nat,
)
    requires
        rounded(g, fl),
        proper_damping(damping),
        graph(ids, links),
        simple(links),
        n <= ids.len(),
        0 < ids.len() <= 1000,
        sound(ids, ranks, 0 as real),
        sum_of(ids, ranks, ids.len()) <= (105 as real) / (100 as real),
        floor == floor_rank(
            g,
            damping,
            ids.len(),
            dangling_mass(g, ids, links, ranks, ids.len()),
        ),
        floor.finite(),
        0 as real <= value(floor),
        (ids.len() as real) * value(floor) <= (11 as real) / (10 as real),
    ensures
        ({
            let next = passed_on(g, damping, ids, links, ranks, n);
            let linked = linked_sum(ids, links, ranks, n);
            &&& sound(ids, next, value(floor))
            &&& within(
                sum_of(ids, next, ids.len()),
                (ids.len() as real) * value(floor) + value(damping) * linked,
                ((4 as real) * (n as real) + (4 as real) * linked) / (16777216 as real),
            )
        }),
    decreases n,
{
    let d = value(damping);
    let base = (ids.len() as real) * value(floor);
    if n == 0 {
        lemma_sum_constant(ids, floor, ids.len());
        assert(d * (0 as real) == 0 as real) by (nonlinear_arith);
    } else {
        let m = (n - 1) as nat;
        let before = passed_on(g, damping, ids, links, ranks, m);
        let targets = links[n - 1];
        let rank = ranks[ids[n - 1]];
        let sofar = linked_sum(ids, links, ranks, m);
        lemma_passed_on_error(g, fl, damping, ids, links, ranks, floor, m);
        lemma_sums_split(ids, links, ranks, m);
        lemma_sums_split(ids, links, ranks, n);
        lemma_sum_grows(ids, ranks, m, ids.len());
        lemma_sum_grows(ids, ranks, n, ids.len());
        assert(ids.contains(ids[n - 1]));
        lemma_sum_above(ids, ranks, ids[n - 1]);
        assert(n as real == m as real + 1 as real);
        assert(d * sofar <= sofar && 0 as real <= d * sofar) by (nonlinear_arith)
            requires
                0 as real <= d,
                d <= 1 as real,
                0 as real <= sofar,
        ;
        if targets.len() > 0 {
            let amount = outflow(g, damping, rank, targets.len());
            let r = value(rank);
            assert(targets.no_duplicates());
            assert forall|j: int| 0 <= j < targets.len() implies ids.contains(
                #[trigger] targets[j],
            ) by {
                assert(ids.contains(links[n - 1][j]));
            }
            lemma_fewer(ids, targets);
            lemma_outflow_error(g, fl, damping, rank, targets.len());
            lemma_spread_error(g, fl, ids, before, targets, amount, value(floor));
            lemma_part(ids, before, targets);
            let k = targets.len() as real;
            assert(k * tiny() <= (1000 as real) * tiny()) by (nonlinear_arith)
                requires
                    k <= 1000 as real,
                    tiny() >= 0 as real,
            ;
            assert(d * (sofar + r) == d * sofar + d * r) by (nonlinear_arith);
            assert(d * r <= r && 0 as real <= d * r) by (nonlinear_arith)
                requires
                    0 as real <= d,
                    d <= 1 as real,
                    0 as real <= r,
            ;
        } else {
            assert(passed_on(g, damping, ids, links, ranks, n) == before);
        }
    }
}

/// A node's computed part of what is not damped is positive, where the damping is less than one.
pub proof fn lemma_teleport_share_positive(
    g: Ops<Scalar>,
    fl: spec_fn(real) -> real,
    damping: Scalar,
    n: nat,
)
    requires
        rounded(g, fl),
        proper_damping(damping),
        value(damping) < 1 as real,
        0 < n <= 1000,
    ensures
        value(teleport_share(g, damping, n)) > 0 as real,
{
    lemma_starts(g, fl);
    lemma_below_one(damping);
    lemma_difference(g, fl, g.one, damping);
    let rest = (g.minus)(g.one, damping);
    lemma_share(g, fl, rest, n);
    lemma_share_positive(value(rest), value(teleport_share(g, damping, n)), n as real);
}

proof fn lemma_share_positive(whole: real, share: real, k: real)
    requires
        1 as real <= k,
        k <= 1000 as real,
        whole >= 1 as real / (100000000 as real),
        within(k * share, whole, whole / (16777216 as real) + k * tiny()),
    ensures
        share > 0 as real,
{
    assert(k * tiny() <= (1000 as real) * tiny()) by (nonlinear_arith)
        requires
            k <= 1000 as real,
            tiny() >= 0 as real,
    ;
    assert(share > 0 as real) by (nonlinear_arith)
        requires
            k * share > 0 as real,
            k >= 1 as real,
    ;
}

/// How much one round may add to the distance of the sum of up to a thousand ranks from one.
pub open spec fn round_error() -> real {
    (32 as real) / (100000 as real)
}

/// After every round, the computed ranks of up to a thousand nodes are finite, add up to nearly
/// one, and are no smaller than a node's computed part of what is not damped. With a damping less
/// than one they are positive.
pub proof fn lemma_computed_ranks_sum(
    g: Ops<Scalar>,
    fl: spec_fn(real) -> real,
    damping: Scalar,
    ids: Seq<NodeId>,
    links: Seq<Seq<NodeId>>,
    rounds: nat,
)
    requires
        rounded(g, fl),
        proper_damping(damping),
        graph(ids, links),
        simple(links),
        0 < ids.len() <= 1000,
        rounds <= 30,
    ensures
        ({
            let ranks = ranks_after(g, damping, ids, links, rounds);
            &&& sound(ids, ranks, 0 as real)
            &&& rounds > 0 ==> sound(ids, ranks, value(teleport_share(g, damping, ids.len())))
            &&& rounds == 0 || value(damping) < 1 as real ==> forall|id: NodeId| #[trigger]
                ids.contains(id) ==> value(ranks[id]) > 0 as real
            &&& within(
                sum_of(ids, ranks, ids.len()),
                1 as real,
                (rounds as real) * round_error() + 1 as real / (1000000 as real),
            )
        }),
    decreases rounds,
{
    let n = ids.len();
    lemma_starts(g, fl);
    if rounds == 0 {
        lemma_share(g, fl, g.one, n);
        let start = (g.over)(g.one, (g.count)(n));
        lemma_sum_constant(ids, start, n);
        let k = n as real;
        lemma_share_positive(1 as real, value(start), k);
        assert(k * tiny() <= (1000 as real) * tiny()) by (nonlinear_arith)
            requires
                k <= 1000 as real,
                tiny() >= 0 as real,
        ;
        assert((0nat as real) * round_error() == 0 as real) by (nonlinear_arith);
    } else {
        let m = (rounds - 1) as nat;
        let before = ranks_after(g, damping, ids, links, m);
        let d = value(damping);
        let s = sum_of(ids, before, n);
        lemma_computed_ranks_sum(g, fl, damping, ids, links, m);
        lemma_one_more(m, round_error());
        let mr = m as real;
        assert(mr * round_error() <= (30 as real) * round_error()) by (nonlinear_arith)
            requires
                mr <= 30 as real,
                round_error() >= 0 as real,
        ;
        let dangling = dangling_mass(g, ids, links, before, n);
        let loose = loose_sum(ids, links, before, n);
        let linked = linked_sum(ids, links, before, n);
        lemma_dangling_error(g, fl, ids, links, before, n);
        lemma_floor_error(g, fl, damping, n, dangling, loose);
        lemma_sums_split(ids, links, before, n);
        let floor = floor_rank(g, damping, n, dangling);
        assert(d * loose + d * linked == d * s) by (nonlinear_arith)
            requires
                loose + linked == s,
        ;
        let z = s - 1 as real;
        let e = mr * round_error() + 1 as real / (1000000 as real);
        assert(d * s == d + d * z) by (nonlinear_arith)
            requires
                z == s - 1 as real,
        ;
        assert(-e <= d * z && d * z <= e) by (nonlinear_arith)
            requires
                0 as real <= d,
                d <= 1 as real,
                -e <= z,
                z <= e,
        ;
        assert(0 as real <= d * linked) by (nonlinear_arith)
            requires
                0 as real <= d,
                0 as real <= linked,
        ;
        lemma_passed_on_error(g, fl, damping, ids, links, before, floor, n);
        if d < 1 as real {
            lemma_teleport_share_positive(g, fl, damping, n);
        }
    }
}

/// What is kept of a sequence without repetitions has none, and stood in the sequence.
proof fn lemma_filter_simple(q: Seq<NodeId>, pred: spec_fn(NodeId) -> bool)
    requires
        q.no_duplicates(),
    ensures
        q.filter(pred).no_duplicates(),
        forall|x: NodeId| #[trigger] q.filter(pred).contains(x) ==> q.contains(x),
    decreases q.len(),
{
    reveal(Seq::filter);
    if q.len() > 0 {
        let front = q.drop_last();
        lemma_filter_simple(front, pred);
        assert(q =~= front.push(q.last()));
        crate::ids::lemma_push_contains(front, q.last());
        crate::ids::lemma_push_contains(front.filter(pred), q.last());
        assert(!front.contains(q.last())) by {
            if front.contains(q.last()) {
                let k = choose|k: int| 0 <= k < front.len() && front[k] == q.last();
                assert(q[k] == q[q.len() - 1]);
            }
        }
        let kept = front.filter(pred);
        assert forall|i: int| 0 <= i < kept.len() implies #[trigger] kept[i] != q.last() by {
            assert(kept.contains(kept[i]));
        }
    }
}

/// In a well-formed index no node has two links to the same live node.
proof fn lemma_live_graph_simple(v: IndexView)
    requires
        v.wf(),
    ensures
        simple(v.live_graph()),
{
    let ids = ascending(v.live());
    lemma_ascending(v.live());
    assert forall|i: int| 0 <= i < v.live_graph().len() implies (
    #[trigger] v.live_graph()[i]).no_duplicates() by {
        assert(ids.contains(ids[i]));
        assert(node_wf(v, ids[i]));
        lemma_filter_simple(
            v.nodes[ids[i]].edges,
            |target: NodeId| v.live().contains(target),
        );
    }
}

/// The computed sum of the centralities is near the exact one.
proof fn lemma_centrality_sum_error(
    g: Ops<Scalar>,
    fl: spec_fn(real) -> real,
    ids: Seq<NodeId>,
    ranks: Map<NodeId, Scalar>,
    nodes: Seq<NodeView>,
)
    requires
        rounded(g, fl),
        sound(ids, ranks, 0 as real),
        nodes.len() <= ids.len(),
        ids.len() <= 1000,
        sum_of(ids, ranks, ids.len()) <= (105 as real) / (100 as real),
        forall|i: int|
            0 <= i < nodes.len() ==> (#[trigger] nodes[i]).centrality == ranks[ids[i]],
    ensures
        centrality_sum(g, nodes).finite(),
        0 as real <= value(centrality_sum(g, nodes)),
        within(
            value(centrality_sum(g, nodes)),
            sum_of(ids, ranks, nodes.len()),
            (12 as real) * (nodes.len() as real) / (167772160 as real),
        ),
    decreases nodes.len(),
{
    if nodes.len() == 0 {
        lemma_constants();
    } else {
        let front = nodes.drop_last();
        let m = front.len();
        lemma_centrality_sum_error(g, fl, ids, ranks, front);
        assert(ids.contains(ids[m as int]));
        assert(nodes[m as int].centrality == ranks[ids[m as int]]);
        lemma_sum_above(ids, ranks, ids[m as int]);
        lemma_sum_grows(ids, ranks, m, ids.len());
        lemma_sum_grows(ids, ranks, nodes.len(), ids.len());
        assert(nodes.len() as real == m as real + 1 as real);
        lemma_add(g, fl, centrality_sum(g, front), nodes.last().centrality);
    }
}

/// Re-ranking up to a thousand live nodes in up to thirty rounds gives them finite centralities
/// that add up to one but for a hundredth. Added up by the same arithmetic they come to one but for
/// two hundredths. After any number of rounds but none, no centrality is smaller than a node's
/// computed part of what is not damped, and with a damping less than one it is positive.
pub proof fn lemma_rerank_computed_sum(
    v: IndexView,
    g: Ops<Scalar>,
    fl: spec_fn(real) -> real,
    rounds: nat,
)
    requires
        rounded(g, fl),
        v.wf(),
        proper_damping(v.config.damping),
        0 < v.live().len() <= 1000,
        rounds <= 30,
    ensures
        ({
            let w = v.reranked(g, rounds);
            let ids = ascending(v.live());
            let share = teleport_share(g, v.config.damping, v.live().len());
            &&& forall|id: NodeId| #[trigger]
                v.live().contains(id) ==> w.nodes[id].centrality.finite() && value(
                    w.nodes[id].centrality,
                ) >= 0 as real && (rounds > 0 ==> value(w.nodes[id].centrality) >= value(share))
                    && (rounds == 0 || value(v.config.damping) < 1 as real ==> positive(
                    w.nodes[id].centrality,
                ))
            &&& within(
                sum_of(ids, v.ranks(g, rounds), ids.len()),
                1 as real,
                1 as real / (100 as real),
            )
            &&& forall|id: NodeId| #[trigger]
                v.live().contains(id) ==> w.nodes[id].centrality == v.ranks(g, rounds)[id]
            &&& centrality_sum(g, w.counted()).finite()
            &&& within(
                value(centrality_sum(g, w.counted())),
                1 as real,
                (2 as real) / (100 as real),
            )
        }),
{
    let w = v.reranked(g, rounds);
    let ids = ascending(v.live());
    let ranks = v.ranks(g, rounds);
    let damping = v.config.damping;
    lemma_ascending(v.live());
    lemma_ascending_len(v.live());
    lemma_live_graph(v);
    lemma_live_graph_simple(v);
    lemma_computed_ranks_sum(g, fl, damping, ids, v.live_graph(), rounds);
    lemma_ranks_dom(g, damping, ids, v.live_graph(), rounds);
    let r = rounds as real;
    assert(r * round_error() <= (30 as real) * round_error()) by (nonlinear_arith)
        requires
            r <= 30 as real,
            round_error() >= 0 as real,
    ;
    assert forall|id: NodeId| #[trigger] v.live().contains(id) implies w.nodes[id].centrality
        == ranks[id] && ids.contains(id) by {
        assert(ids.contains(id));
        assert(ranks.dom().contains(id));
    }
    assert forall|id: NodeId| #[trigger] v.live().contains(id) && (rounds == 0 || value(damping)
        < 1 as real) implies positive(w.nodes[id].centrality) by {
        assert(ids.contains(id));
        lemma_constants();
        lemma_value_order(zero(), ranks[id]);
    }
    assert(same_but_centrality(v.nodes, w.nodes, ids)) by {
        assert(v.nodes.dom() =~= w.nodes.dom());
        assert forall|id: NodeId| #[trigger] v.nodes.dom().contains(id) && !ids.contains(
            id,
        ) implies w.nodes[id] == v.nodes[id] by {
            assert(!ranks.dom().contains(id));
        }
    }
    lemma_centrality_wf(v, w, ids);
    lemma_figures(w);
    let nodes = w.counted();
    assert forall|i: int| 0 <= i < nodes.len() implies (#[trigger] nodes[i]).centrality
        == ranks[ids[i]] by {
        assert(ids.contains(ids[i]));
        assert(v.live().contains(ids[i]));
    }
    lemma_centrality_sum_error(g, fl, ids, ranks, nodes);
}

} // verus!
