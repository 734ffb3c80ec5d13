//! What an index is measured against: exhaustive search, and how much of it was found.
use crate::arith::faithful;
use crate::arith::ops_of;
use crate::arith::Arithmetic;
use crate::arith::Ops;
use crate::hasher::normalize;
use crate::hasher::normalized;
use crate::hasher::two;
use crate::ids::NodeId;
use crate::lcg::next_state;
use crate::lcg::nth_state;
use crate::ranking::first;
use crate::ranking::keep_best;
use crate::ranking::lemma_first_of_place;
use crate::ranking::lemma_ranked;
use crate::ranking::lemma_ranked_distinct;
use crate::ranking::ranked;
use crate::ranking::sorted;
use crate::ranking::Ranked;
use crate::scalar::one;
use crate::scalar::zero;
use crate::scalar::Scalar;
use crate::vector::cosine;
use crate::vector::cosine_similarity;
use std::collections::BTreeSet;
use vstd::prelude::*;

verus! {

/// The number between minus one and one that the 31 highest bits of a state give.
pub open spec fn signed_draw(g: Ops<Scalar>, state: u64) -> Scalar {
    (g.minus)(
        (g.times)(
            (g.over)((g.count)((state / 0x2_0000_0000) as nat), (g.count)(0xFFFF_FFFF)),
            two(),
        ),
        one(),
    )
}

/// The entries of a pseudo-random vector before it is scaled to length one.
pub open spec fn signed_draws(g: Ops<Scalar>, dims: nat, seed: u64) -> Seq<Scalar> {
    Seq::new(dims, |i: int| signed_draw(g, nth_state(seed, (i + 1) as nat)))
}

/// A pseudo-random vector of length one.
pub fn random_vec<A: Arithmetic>(dims: usize, seed: u64, ar: &A) -> (v: Vec<Scalar>)
    ensures
        v@.len() == dims,
        faithful(ar) ==> v@ == normalized(ops_of(ar), signed_draws(ops_of(ar), dims as nat, seed)),
{
    let ghost g = ops_of(ar);
    let mut state: u64 = seed;
    let mut raw: Vec<Scalar> = Vec::new();
    let mut i: usize = 0;
    while i < dims
        invariant
            i <= dims,
            g == ops_of(ar),
            raw@.len() == i,
            state == nth_state(seed, i as nat),
            faithful(ar) ==> forall|j: int|
                0 <= j < i ==> #[trigger] raw@[j] == signed_draw(
                    g,
                    nth_state(seed, (j + 1) as nat),
                ),
        decreases dims - i,
    {
        state = next_state(state);
        assert(nth_state(seed, (i + 1) as nat) == state);
        assert(state >> 33 == state / 0x2_0000_0000) by (bit_vector);
        let high = ar.count(state >> 33);
        let whole = ar.count(0xFFFF_FFFF);
        let share = ar.over(high, whole);
        let doubled = ar.times(share, two());
        let entry = ar.minus(doubled, one());
        raw.push(entry);
        i = i + 1;
    }
    proof {
        if faithful(ar) {
            assert(raw@ =~= signed_draws(g, dims as nat, seed));
        }
    }
    normalize(raw.as_slice(), ar)
}

/// The positions of the vectors with their cosines with the query.
pub open spec fn cosines(g: Ops<Scalar>, corpus: Seq<Vec<Scalar>>, query: Seq<Scalar>) -> Seq<
    (usize, Scalar),
> {
    Seq::new(corpus.len(), |i: int| (i as usize, cosine(g, corpus[i]@, query)))
}

/// The `top_k` vectors most like the query by cosine, found by looking at every one of them: best
/// first, with their positions.
pub fn brute_force_search<A: Arithmetic>(
    corpus: &[Vec<Scalar>],
    query: &[Scalar],
    top_k: usize,
    ar: &A,
) -> (r: Vec<(usize, Scalar)>)
    ensures
        r@.len() == if corpus@.len() <= top_k {
            corpus@.len()
        } else {
            top_k as nat
        },
        sorted(r@),
        forall|i: int| 0 <= i < r@.len() ==> (#[trigger] r@[i]).0 < corpus@.len(),
        forall|i: int, j: int|
            0 <= i < j < r@.len() ==> (#[trigger] r@[i]).0 != (#[trigger] r@[j]).0,
        faithful(ar) ==> r@ == first(ranked(cosines(ops_of(ar), corpus@, query@)), top_k as nat),
{
    let ghost mut scored: Seq<(usize, Scalar)> = Seq::empty();
    let mut best: Vec<(usize, Scalar)> = Vec::new();
    let mut i: usize = 0;
    while i < corpus.len()
        invariant
            i <= corpus@.len(),
            best@.len() <= top_k,
            best@ == first(ranked(scored), top_k as nat),
            scored.len() == i,
            forall|j: int| 0 <= j < i ==> (#[trigger] scored[j]).0 == j,
            faithful(ar) ==> forall|j: int|
                0 <= j < i ==> (#[trigger] scored[j]).1 == cosine(
                    ops_of(ar),
                    corpus@[j]@,
                    query@,
                ),
        decreases corpus.len() - i,
    {
        let score = cosine_similarity(corpus[i].as_slice(), query, ar);
        proof {
            let before = scored;
            scored = before.push((i, score));
            assert(scored.drop_last() =~= before);
            lemma_ranked(before);
            lemma_first_of_place(ranked(before), (i, score), top_k as nat);
        }
        keep_best(&mut best, (i, score), top_k);
        i = i + 1;
    }
    proof {
        lemma_ranked(scored);
        lemma_ranked_distinct(scored);
        let all = ranked(scored);
        assert forall|k: int| 0 <= k < best@.len() implies (#[trigger] best@[k]).0
            < corpus@.len() by {
            assert(all.contains(all[k]));
            let j = choose|j: int| 0 <= j < scored.len() && scored[j] == all[k];
            assert(scored[j].0 == j);
        }
        assert forall|k: int, l: int| 0 <= k < l < best@.len() implies (#[trigger] best@[k]).0 != (
        #[trigger] best@[l]).0 by {
            assert(all[k].tag() != all[l].tag());
        }
        if faithful(ar) {
            assert(scored =~= cosines(ops_of(ar), corpus@, query@));
        }
    }
    best
}

/// The positions that the first `k` of the index's answers stand for.
pub open spec fn found_positions(results: Seq<(NodeId, Scalar)>, k: nat) -> Set<usize> {
    first(results, k).map_values(|c: (NodeId, Scalar)| c.0 as usize).to_set()
}

/// The positions among the first `k` answers of the exhaustive search.
pub open spec fn true_positions(results: Seq<(usize, Scalar)>, k: nat) -> Set<usize> {
    first(results, k).map_values(|c: (usize, Scalar)| c.0).to_set()
}

/// How many of the best `k` the index found.
pub fn hits_at_k(nri_results: &[(NodeId, Scalar)], brute_results: &[(usize, Scalar)], k: usize) -> (
hits: usize)
    ensures
        hits == found_positions(nri_results@, k as nat).intersect(
            true_positions(brute_results@, k as nat),
        ).len(),
{
    let ghost wanted = first(brute_results@, k as nat).map_values(|c: (usize, Scalar)| c.0);
    let mut truth: BTreeSet<usize> = BTreeSet::new();
    let mut i: usize = 0;
    assert(truth@ =~= wanted.take(0).to_set());
    while i < brute_results.len() && i < k
        invariant
            i <= brute_results@.len(),
            i <= k,
            wanted == first(brute_results@, k as nat).map_values(|c: (usize, Scalar)| c.0),
            truth@ == wanted.take(i as int).to_set(),
        decreases brute_results.len() - i,
    {
        let id: usize = brute_results[i].0;
        proof {
            crate::ids::lemma_push_contains(wanted.take(i as int), id);
            assert(wanted.take(i + 1) =~= wanted.take(i as int).push(id));
        }
        truth.insert(id);
        i = i + 1;
        assert(truth@ =~= wanted.take(i as int).to_set());
    }
    assert(wanted.take(i as int) =~= wanted);
    let ghost given = first(nri_results@, k as nat).map_values(
        |c: (NodeId, Scalar)| c.0 as usize,
    );
    let mut common: BTreeSet<usize> = BTreeSet::new();
    let mut j: usize = 0;
    assert(common@ =~= given.take(0).to_set().intersect(truth@));
    while j < nri_results.len() && j < k
        invariant
            j <= nri_results@.len(),
            j <= k,
            given == first(nri_results@, k as nat).map_values(
                |c: (NodeId, Scalar)| c.0 as usize,
            ),
            common@ == given.take(j as int).to_set().intersect(truth@),
        decreases nri_results.len() - j,
    {
        let id: usize = nri_results[j].0 as usize;
        proof {
            crate::ids::lemma_push_contains(given.take(j as int), id);
            assert(given.take(j + 1) =~= given.take(j as int).push(id));
        }
        if truth.contains(&id) {
            common.insert(id);
        }
        j = j + 1;
        assert(common@ =~= given.take(j as int).to_set().intersect(truth@));
    }
    assert(given.take(j as int) =~= given);
    common.len()
}

/// The share of the best `k` that was found.
pub open spec fn recall(
    g: Ops<Scalar>,
    found: Seq<(NodeId, Scalar)>,
    truth: Seq<(usize, Scalar)>,
    k: nat,
) -> Scalar {
    (g.over)(
        (g.count)(found_positions(found, k).intersect(true_positions(truth, k)).len()),
        (g.count)(k),
    )
}

/// The share of the best `k` that the index found.
pub fn recall_at_k<A: Arithmetic>(
    nri_results: &[(NodeId, Scalar)],
    brute_results: &[(usize, Scalar)],
    k: usize,
    ar: &A,
) -> (r: Scalar)
    ensures
        faithful(ar) ==> r == recall(ops_of(ar), nri_results@, brute_results@, k as nat),
{
    let hits = ar.count(hits_at_k(nri_results, brute_results, k) as u64);
    let wanted = ar.count(k as u64);
    ar.over(hits, wanted)
}

/// The sum of the recalls of the first `n` queries, added from the left.
pub open spec fn recall_sum(
    g: Ops<Scalar>,
    found: Seq<Vec<(NodeId, Scalar)>>,
    truth: Seq<Vec<(usize, Scalar)>>,
    k: nat,
    n: nat,
) -> Scalar
    decreases n,
{
    if n == 0 {
        zero()
    } else {
        (g.plus)(
            recall_sum(g, found, truth, k, (n - 1) as nat),
            recall(g, found[n - 1]@, truth[n - 1]@, k),
        )
    }
}

/// The recall over several queries: the sum of the single ones divided by their number.
pub fn average_recall<A: Arithmetic>(
    nri_results: &[Vec<(NodeId, Scalar)>],
    brute_results: &[Vec<(usize, Scalar)>],
    k: usize,
    ar: &A,
) -> (r: Scalar)
    requires
        nri_results@.len() == brute_results@.len(),
    ensures
        faithful(ar) ==> r == (ops_of(ar).over)(
            recall_sum(
                ops_of(ar),
                nri_results@,
                brute_results@,
                k as nat,
                nri_results@.len(),
            ),
            (ops_of(ar).count)(nri_results@.len()),
        ),
{
    let mut sum = zero();
    let mut i: usize = 0;
    while i < nri_results.len()
        invariant
            i <= nri_results@.len(),
            nri_results@.len() == brute_results@.len(),
            faithful(ar) ==> sum == recall_sum(
                ops_of(ar),
                nri_results@,
                brute_results@,
                k as nat,
                i as nat,
            ),
        decreases nri_results.len() - i,
    {
        let one_recall = recall_at_k(nri_results[i].as_slice(), brute_results[i].as_slice(), k, ar);
        sum = ar.plus(sum, one_recall);
        i = i + 1;
    }
    let queries = ar.count(nri_results.len() as u64);
    ar.over(sum, queries)
}

/// `0.05`: how far the first of several near copies is from the vector that they are copies of.
#[verifier::allow_in_spec]
pub fn noise_step() -> Scalar
    returns
        (Scalar { bits: 0x3D4C_CCCD }),
{
    Scalar { bits: 0x3D4C_CCCD }
}

/// The entries of a near copy before it is scaled to length one: to entry `j` the sine of `j` is
/// added, times a noise that grows with `step`.
pub open spec fn shaken(g: Ops<Scalar>, v: Seq<Scalar>, step: nat) -> Seq<Scalar> {
    let noise = (g.times)(noise_step(), (g.count)(step));
    Seq::new(v.len(), |j: int| (g.plus)(v[j], (g.times)(noise, (g.sine)((g.count)(j as nat)))))
}

/// A near copy of a vector, of length one: the larger `step`, the farther away.
pub fn near_clone<A: Arithmetic>(v: &[Scalar], step: u64, ar: &A) -> (out: Vec<Scalar>)
    ensures
        out@.len() == v@.len(),
        faithful(ar) ==> out@ == normalized(ops_of(ar), shaken(ops_of(ar), v@, step as nat)),
{
    let ghost g = ops_of(ar);
    let factor = ar.count(step);
    let noise = ar.times(noise_step(), factor);
    let mut raw: Vec<Scalar> = Vec::new();
    let mut j: usize = 0;
    while j < v.len()
        invariant
            j <= v@.len(),
            g == ops_of(ar),
            raw@.len() == j,
            faithful(ar) ==> noise == (g.times)(noise_step(), (g.count)(step as nat)),
            faithful(ar) ==> forall|i: int|
                0 <= i < j ==> #[trigger] raw@[i] == (g.plus)(
                    v@[i],
                    (g.times)(noise, (g.sine)((g.count)(i as nat))),
                ),
        decreases v.len() - j,
    {
        let place = ar.count(j as u64);
        let wave = ar.sine(place);
        let shift = ar.times(noise, wave);
        let entry = ar.plus(v[j], shift);
        raw.push(entry);
        j = j + 1;
    }
    proof {
        if faithful(ar) {
            assert(raw@ =~= shaken(g, v@, step as nat));
        }
    }
    normalize(raw.as_slice(), ar)
}

} // verus!
