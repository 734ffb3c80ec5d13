//! What a score is made of, and which of the visited nodes an answer lists.
use crate::arith::faithful;
use crate::arith::ops_of;
use crate::arith::Arithmetic;
use crate::arith::Ops;
use crate::fingerprint::SimFingerprint;
use crate::hasher::fingerprint_of;
use crate::ids::NodeId;
use crate::index::IndexView;
use crate::ranking::ahead;
use crate::ranking::lemma_first_is_best;
use crate::ranking::lemma_ranked;
use crate::ranking::ranked;
use crate::scalar::Scalar;
use crate::search::answers;
use crate::search::chosen_from;
use crate::search_laws::lemma_found_scores;
use crate::vector::cosine;
use crate::vector::dot;
use crate::vector::dot_prefix;
use crate::vector::norm;
use vstd::arithmetic::power2::pow2;
use vstd::prelude::*;

verus! {

/// Whether the bits are those of a number greater than zero.
pub open spec fn above_zero(x: Scalar) -> bool {
    0 < x.bits <= 0x7F80_0000
}

/// The number moved between minus one and one, by its bits: positive ones up to that of one and
/// negative ones up to that of minus one stay, as does what is not a number.
pub open spec fn between_ones(x: Scalar) -> Scalar {
    if 0x3F80_0000 < x.bits <= 0x7F80_0000 {
        Scalar { bits: 0x3F80_0000 }
    } else if 0xBF80_0000 < x.bits <= 0xFF80_0000 {
        Scalar { bits: 0xBF80_0000 }
    } else {
        x
    }
}

proof fn lemma_dot_sums<T>(g: Ops<T>, a: Seq<T>, b: Seq<T>, sums: Seq<T>, n: nat)
    requires
        n < sums.len(),
        sums[0] == g.zero,
        forall|i: int|
            0 <= i < n ==> #[trigger] sums[i + 1] == (g.plus)(sums[i], (g.times)(a[i], b[i])),
    ensures
        dot_prefix(g, a, b, n) == sums[n as int],
    decreases n,
{
    if n > 0 {
        lemma_dot_sums(g, a, b, sums, (n - 1) as nat);
        assert(sums[(n - 1) + 1] == (g.plus)(sums[n - 1], (g.times)(a[n - 1], b[n - 1])));
    }
}

/// The inner product adds up, from zero and from the left, the products of the entries that stand
/// at the same place, as far as both vectors go. The length of a vector is the root of its inner
/// product with itself.
pub proof fn lemma_dot_adds_products<T>(g: Ops<T>, a: Seq<T>, b: Seq<T>, sums: Seq<T>)
    requires
        sums.len() == if a.len() <= b.len() {
            a.len() + 1
        } else {
            b.len() + 1
        },
        sums[0] == g.zero,
        forall|i: int|
            0 <= i < sums.len() - 1 ==> #[trigger] sums[i + 1] == (g.plus)(
                sums[i],
                (g.times)(a[i], b[i]),
            ),
    ensures
        dot(g, a, b) == sums[sums.len() - 1],
        a == b ==> norm(g, a) == (g.root)(sums[sums.len() - 1]),
{
    lemma_dot_sums(g, a, b, sums, (sums.len() - 1) as nat);
}

/// The cosine of two vectors is their inner product divided by the product of their lengths, moved
/// between minus one and one, and zero unless both lengths are greater than zero.
pub proof fn lemma_cosine_is_quotient(g: Ops<Scalar>, a: Seq<Scalar>, b: Seq<Scalar>)
    ensures
        cosine(g, a, b) == if above_zero(norm(g, a)) && above_zero(norm(g, b)) {
            between_ones((g.over)(dot(g, a, b), (g.times)(norm(g, a), norm(g, b))))
        } else {
            Scalar { bits: 0 }
        },
{
}

/// The score of a node is its cosine with the query, weighted with what the weight leaves of one,
/// plus the hyperbolic tangent of its centrality, weighted with the weight.
pub proof fn lemma_score_is_weighted(
    v: IndexView,
    g: Ops<Scalar>,
    query: Seq<Scalar>,
    id: NodeId,
)
    ensures
        ({
            let node = v.nodes[id];
            let w = v.config.centrality_weight;
            let (nq, nv) = (norm(g, query), norm(g, node.vector));
            let c = if above_zero(nq) && above_zero(nv) {
                between_ones((g.over)(dot(g, node.vector, query), (g.times)(nq, nv)))
            } else {
                Scalar { bits: 0 }
            };
            v.score(g, query, id) == (g.plus)(
                (g.times)((g.minus)(g.one, w), c),
                (g.times)(w, (g.tanh)(node.centrality)),
            )
        }),
{
}

/// Where a number stands among others: by its bits, those of a negative one counted backwards.
pub open spec fn rank_of(x: Scalar) -> int {
    if x.bits < 0x8000_0000 {
        x.bits as int
    } else {
        0x8000_0000 - x.bits
    }
}

/// An answer lists nodes that the search visits, each once and with its score: as many as were
/// asked for, or all where there are no more. The higher scores come first, and of equal ones the
/// older node. What was visited and is not listed scores no more than anything that is.
pub proof fn lemma_answer_lists_best(
    v: IndexView,
    g: Ops<Scalar>,
    query: Seq<Scalar>,
    top_k: nat,
)
    ensures
        ({
            let visits = v.visits(fingerprint_of(g, v.planes, query));
            let r = v.found(g, query, top_k);
            &&& r.len() == if visits.len() <= top_k {
                visits.len()
            } else {
                top_k
            }
            &&& forall|i: int|
                0 <= i < r.len() ==> visits.contains((#[trigger] r[i]).0) && r[i].1 == v.score(
                    g,
                    query,
                    r[i].0,
                )
            &&& forall|i: int, j: int|
                0 <= i < j < r.len() ==> rank_of((#[trigger] r[i]).1) > rank_of(
                    (#[trigger] r[j]).1,
                ) || (rank_of(r[i].1) == rank_of(r[j].1) && r[i].0 < r[j].0)
            &&& forall|y: NodeId, i: int|
                #![trigger visits.contains(y), r[i]]
                visits.contains(y) && !r.contains((y, v.score(g, query, y))) && 0 <= i < r.len()
                    ==> rank_of(v.score(g, query, y)) <= rank_of(r[i].1)
        }),
{
    let fp = fingerprint_of(g, v.planes, query);
    let visits = v.visits(fp);
    let scored = visits.map_values(|id: NodeId| (id, v.score(g, query, id)));
    let all = ranked(scored);
    let r = v.found(g, query, top_k);
    lemma_ranked(scored);
    lemma_found_scores(v, g, query, top_k);
    crate::search::lemma_visits(v, fp);
    crate::search::lemma_chosen(visits, scored, top_k);
    assert forall|i: int, j: int| 0 <= i < j < r.len() implies rank_of((#[trigger] r[i]).1)
        > rank_of((#[trigger] r[j]).1) || (rank_of(r[i].1) == rank_of(r[j].1) && r[i].0
        < r[j].0) by {
        assert(!ahead(all[j], all[i]));
        assert(r[i].0 != r[j].0);
    }
    assert forall|y: NodeId, i: int|
        #![trigger visits.contains(y), r[i]]
        visits.contains(y) && !r.contains((y, v.score(g, query, y))) && 0 <= i
            < r.len() implies rank_of(v.score(g, query, y)) <= rank_of(r[i].1) by {
        let k = choose|k: int| 0 <= k < visits.len() && visits[k] == y;
        assert(scored[k] == (y, v.score(g, query, y)));
        assert(scored.contains(scored[k]));
        assert(r.contains(r[i]));
        lemma_first_is_best(scored, top_k, r[i], (y, v.score(g, query, y)));
    }
}

/// Whatever the arithmetic, the answer to a query lists nodes that are not marked as deleted, each
/// once: as many as were asked for, or all that are visited for some fingerprint of the query where
/// there are no more. Where the arithmetic is faithful, the fingerprint is that of the query, and
/// the answer lists the best of what is visited for it, each with its score.
pub proof fn lemma_search_answers<A: Arithmetic>(
    v: IndexView,
    query: Seq<Scalar>,
    top_k: nat,
    ar: &A,
    r: Seq<(NodeId, Scalar)>,
)
    requires
        answers(v, query, top_k, ar, r),
    ensures
        forall|i: int|
            0 <= i < r.len() ==> v.nodes.dom().contains((#[trigger] r[i]).0)
                && !v.deleted.contains(r[i].0),
        forall|i: int, j: int|
            0 <= i < j < r.len() ==> (#[trigger] r[i]).0 != (#[trigger] r[j]).0 && rank_of(r[i].1)
                >= rank_of(r[j].1),
        exists|fp: SimFingerprint|
            {
                let visits = #[trigger] v.visits(fp);
                &&& r.len() == if visits.len() <= top_k {
                    visits.len()
                } else {
                    top_k
                }
                &&& forall|i: int| 0 <= i < r.len() ==> visits.contains((#[trigger] r[i]).0)
            },
        faithful(ar) ==> {
            let g = ops_of(ar);
            let visits = v.visits(fingerprint_of(g, v.planes, query));
            &&& r.len() == if visits.len() <= top_k {
                visits.len()
            } else {
                top_k
            }
            &&& forall|i: int|
                0 <= i < r.len() ==> visits.contains((#[trigger] r[i]).0) && r[i].1 == v.score(
                    g,
                    query,
                    r[i].0,
                )
            &&& forall|y: NodeId, i: int|
                #![trigger visits.contains(y), r[i]]
                visits.contains(y) && !r.contains((y, v.score(g, query, y))) && 0 <= i < r.len()
                    ==> rank_of(v.score(g, query, y)) <= rank_of(r[i].1)
        },
{
    lemma_answer_lists_best(v, ops_of(ar), query, top_k);
    assert forall|i: int, j: int| 0 <= i < j < r.len() implies (#[trigger] r[i]).0 != (
    #[trigger] r[j]).0 && rank_of(r[i].1) >= rank_of(r[j].1) by {
        assert(!ahead(r[j], r[i]));
    }
    let fp = choose|fp: SimFingerprint|
        fp.0 < pow2(v.planes.len()) && chosen_from(#[trigger] v.visits(fp), top_k, r);
    assert(chosen_from(v.visits(fp), top_k, r));
}

} // verus!
