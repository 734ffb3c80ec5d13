//! What exhaustive search lists, what recall counts, and what test vectors are made of.
use crate::answer_laws::rank_of;
use crate::arith::Ops;
use crate::baseline::cosines;
use crate::baseline::found_positions;
use crate::baseline::recall;
use crate::baseline::recall_sum;
use crate::baseline::shaken;
use crate::baseline::signed_draws;
use crate::baseline::true_positions;
use crate::hasher::normalized;
use crate::ids::NodeId;
use crate::plane_laws::generated;
use crate::plane_laws::lemma_states;
use crate::ranking::ahead;
use crate::ranking::first;
use crate::ranking::lemma_first_is_best;
use crate::ranking::lemma_ranked;
use crate::ranking::lemma_ranked_distinct;
use crate::ranking::ranked;
use crate::ranking::Ranked;
use crate::scalar::Scalar;
use crate::vector::cosine;
use crate::vector::norm;
use vstd::prelude::*;

verus! {

/// Exhaustive search lists as many vectors as were asked for, or all where there are no more, each
/// once and with its cosine: the higher cosines first, and of equal ones the earlier vector. What
/// is not listed has no higher cosine than anything that is.
pub proof fn lemma_exhaustive_lists_best(
    g: Ops<Scalar>,
    corpus: Seq<Vec<Scalar>>,
    query: Seq<Scalar>,
    top_k: nat,
)
    requires
        corpus.len() <= usize::MAX,
    ensures
        ({
            let r = first(ranked(cosines(g, corpus, query)), top_k);
            &&& r.len() == if corpus.len() <= top_k {
                corpus.len()
            } else {
                top_k
            }
            &&& forall|i: int|
                0 <= i < r.len() ==> (#[trigger] r[i]).0 < corpus.len() && r[i].1 == cosine(
                    g,
                    corpus[r[i].0 as int]@,
                    query,
                )
            &&& forall|i: int, j: int|
                0 <= i < j < r.len() ==> rank_of((#[trigger] r[i]).1) > rank_of(
                    (#[trigger] r[j]).1,
                ) || (rank_of(r[i].1) == rank_of(r[j].1) && r[i].0 < r[j].0)
            &&& forall|p: usize, i: int|
                #![trigger cosine(g, corpus[p as int]@, query), r[i]]
                p < corpus.len() && 0 <= i < r.len() && !r.contains(
                    (p, cosine(g, corpus[p as int]@, query)),
                ) ==> rank_of(cosine(g, corpus[p as int]@, query)) <= rank_of(r[i].1)
        }),
{
    let scored = cosines(g, corpus, query);
    let all = ranked(scored);
    let r = first(all, top_k);
    lemma_ranked(scored);
    assert forall|i: int, j: int| 0 <= i < j < scored.len() implies (#[trigger] scored[i]).tag()
        != (#[trigger] scored[j]).tag() by {}
    lemma_ranked_distinct(scored);
    assert forall|i: int| 0 <= i < r.len() implies (#[trigger] r[i]).0 < corpus.len() && r[i].1
        == cosine(g, corpus[r[i].0 as int]@, query) by {
        assert(r[i] == all[i]);
        assert(all.contains(all[i]));
        let m = choose|m: int| 0 <= m < scored.len() && scored[m] == all[i];
        assert(scored[m].0 == m);
    }
    assert forall|i: int, j: int| 0 <= i < j < r.len() implies rank_of((#[trigger] r[i]).1)
        > rank_of((#[trigger] r[j]).1) || (rank_of(r[i].1) == rank_of(r[j].1) && r[i].0
        < r[j].0) by {
        assert(!ahead(all[j], all[i]));
        assert(all[i].tag() != all[j].tag());
    }
    assert forall|p: usize, i: int|
        #![trigger cosine(g, corpus[p as int]@, query), r[i]]
        p < corpus.len() && 0 <= i < r.len() && !r.contains(
            (p, cosine(g, corpus[p as int]@, query)),
        ) implies rank_of(cosine(g, corpus[p as int]@, query)) <= rank_of(r[i].1) by {
        let y = (p, cosine(g, corpus[p as int]@, query));
        assert(scored[p as int] == y);
        assert(scored.contains(y));
        assert(r.contains(r[i]));
        lemma_first_is_best(scored, top_k, r[i], y);
    }
}

/// The positions that are compared are those of the first `k` answers on either side.
pub proof fn lemma_compared_positions(
    found: Seq<(NodeId, Scalar)>,
    truth: Seq<(usize, Scalar)>,
    k: nat,
    p: usize,
)
    ensures
        found_positions(found, k).contains(p) <==> exists|i: int|
            0 <= i < found.len() && i < k && (#[trigger] found[i]).0 as usize == p,
        true_positions(truth, k).contains(p) <==> exists|i: int|
            0 <= i < truth.len() && i < k && (#[trigger] truth[i]).0 == p,
{
    let a = first(found, k).map_values(|c: (NodeId, Scalar)| c.0 as usize);
    let b = first(truth, k).map_values(|c: (usize, Scalar)| c.0);
    if a.contains(p) {
        let i = choose|i: int| 0 <= i < a.len() && a[i] == p;
        assert(found[i].0 as usize == p);
    }
    if exists|i: int| 0 <= i < found.len() && i < k && (#[trigger] found[i]).0 as usize == p {
        let i = choose|i: int|
            0 <= i < found.len() && i < k && (#[trigger] found[i]).0 as usize == p;
        assert(a[i] == p);
    }
    if b.contains(p) {
        let i = choose|i: int| 0 <= i < b.len() && b[i] == p;
        assert(truth[i].0 == p);
    }
    if exists|i: int| 0 <= i < truth.len() && i < k && (#[trigger] truth[i]).0 == p {
        let i = choose|i: int| 0 <= i < truth.len() && i < k && (#[trigger] truth[i]).0 == p;
        assert(b[i] == p);
    }
}

/// Recall is the number of positions on both sides divided by the number of answers compared, for
/// any listing of those positions without repetitions.
pub proof fn lemma_recall_is_share(
    g: Ops<Scalar>,
    found: Seq<(NodeId, Scalar)>,
    truth: Seq<(usize, Scalar)>,
    k: nat,
    common: Seq<usize>,
)
    requires
        common.no_duplicates(),
        forall|p: usize| #[trigger]
            common.contains(p) <==> (exists|i: int|
                0 <= i < found.len() && i < k && (#[trigger] found[i]).0 as usize == p) && (exists|
                i: int,
            |
                0 <= i < truth.len() && i < k && (#[trigger] truth[i]).0 == p),
    ensures
        recall(g, found, truth, k) == (g.over)((g.count)(common.len()), (g.count)(k)),
{
    let both = found_positions(found, k).intersect(true_positions(truth, k));
    assert(common.to_set() =~= both) by {
        assert forall|p: usize| #[trigger] common.to_set().contains(p) <==> both.contains(p) by {
            lemma_compared_positions(found, truth, k, p);
            assert(common.contains(p) <==> common.to_set().contains(p));
        }
    }
    common.unique_seq_to_set();
}

/// The sum of the recalls adds them up from the left, from zero.
pub proof fn lemma_recalls_added(
    g: Ops<Scalar>,
    found: Seq<Vec<(NodeId, Scalar)>>,
    truth: Seq<Vec<(usize, Scalar)>>,
    k: nat,
    sums: Seq<Scalar>,
    n: nat,
)
    requires
        n < sums.len(),
        sums[0] == (Scalar { bits: 0 }),
        forall|i: int|
            0 <= i < n ==> #[trigger] sums[i + 1] == (g.plus)(
                sums[i],
                recall(g, found[i]@, truth[i]@, k),
            ),
    ensures
        recall_sum(g, found, truth, k, n) == sums[n as int],
    decreases n,
{
    if n > 0 {
        lemma_recalls_added(g, found, truth, k, sums, (n - 1) as nat);
        assert(sums[(n - 1) + 1] == (g.plus)(
            sums[n - 1],
            recall(g, found[n - 1]@, truth[n - 1]@, k),
        ));
    }
}

/// Scaling divides every entry by the length of the vector, or by a ten-billionth where that is
/// larger.
pub proof fn lemma_scaling_divides(g: Ops<Scalar>, v: Seq<Scalar>)
    ensures
        ({
            let l = norm(g, v);
            let length = if l.nan() || rank_of(l) < 0x2EDB_E6FF {
                Scalar { bits: 0x2EDB_E6FF }
            } else {
                l
            };
            &&& normalized(g, v).len() == v.len()
            &&& forall|j: int|
                0 <= j < v.len() ==> #[trigger] normalized(g, v)[j] == (g.over)(v[j], length)
        }),
{
}

/// The entries of a pseudo-random vector, before it is scaled, are those of the states that follow
/// the seed, one for each: the 31 highest bits divided by two to the power of 32 less one, times
/// two, less one.
pub proof fn lemma_random_from_draws(
    g: Ops<Scalar>,
    dims: nat,
    seed: u64,
    states: Seq<nat>,
)
    requires
        states.len() > dims,
        states[0] == seed,
        generated(states),
    ensures
        signed_draws(g, dims, seed).len() == dims,
        forall|j: int|
            0 <= j < dims ==> #[trigger] signed_draws(g, dims, seed)[j] == (g.minus)(
                (g.times)(
                    (g.over)((g.count)(states[j + 1] / 8589934592), (g.count)(4294967295)),
                    Scalar { bits: 0x4000_0000 },
                ),
                Scalar { bits: 0x3F80_0000 },
            ),
{
    assert forall|j: int| 0 <= j < dims implies #[trigger] signed_draws(g, dims, seed)[j] == (
    g.minus)(
        (g.times)(
            (g.over)((g.count)(states[j + 1] / 8589934592), (g.count)(4294967295)),
            Scalar { bits: 0x4000_0000 },
        ),
        Scalar { bits: 0x3F80_0000 },
    ) by {
        lemma_states(seed, states, (j + 1) as nat);
    }
}

/// A near copy adds to entry `j` the sine of `j`, times a twentieth, times the step.
pub proof fn lemma_near_copy_adds_waves(g: Ops<Scalar>, v: Seq<Scalar>, step: nat)
    ensures
        shaken(g, v, step).len() == v.len(),
        forall|j: int|
            0 <= j < v.len() ==> #[trigger] shaken(g, v, step)[j] == (g.plus)(
                v[j],
                (g.times)(
                    (g.times)(Scalar { bits: 0x3D4C_CCCD }, (g.count)(step)),
                    (g.sine)((g.count)(j as nat)),
                ),
            ),
{
}

} // verus!
