//! Search: a bounded walk over the similarity graph, best prospects first.
use crate::arith::faithful;
use crate::arith::ops_of;
use crate::arith::Arithmetic;
use crate::arith::Ops;
use crate::fingerprint::SimFingerprint;
use crate::hasher::fingerprint_of;
use crate::ids::as_set;
use crate::ids::ascending;
use crate::ids::ids_without;
use crate::ids::surviving;
use crate::ids::without;
use crate::ids::NodeId;
use crate::index::IndexView;
use crate::index::NeuraRankIndex;
use crate::node::Node;
use crate::parallel::par_map;
use crate::ranking::first;
use crate::ranking::insert_ranked;
use crate::ranking::keep_best;
use crate::ranking::lemma_first_of_place;
use crate::ranking::lemma_ranked;
use crate::ranking::lemma_ranked_distinct;
use crate::ranking::place;
use crate::ranking::ranked;
use crate::ranking::sorted;
use crate::ranking::Ranked;
use crate::scalar::one;
use crate::scalar::Scalar;
use crate::vector::cosine_from_norms;
use crate::vector::cosine_of;
use crate::vector::dot;
use crate::vector::dot_product;
use crate::vector::l2_norm;
use crate::vector::norm;
use std::collections::BTreeSet;
use vstd::arithmetic::power2::lemma_pow2_pos;
use vstd::arithmetic::power2::pow2;
use vstd::prelude::*;

verus! {

/// How far from its own bucket a search looks for one with nodes in it.
pub const REACH: u16 = 8;

/// How many nodes a search may visit for each place in its beam.
pub const STEPS_PER_PLACE: usize = 8;

/// A score: a weighted mean of the cosine with the query and the authority of the node.
pub open spec fn blend<T>(g: Ops<T>, weight: T, cosine: T, authority: T) -> T {
    (g.plus)((g.times)((g.minus)(g.one, weight), cosine), (g.times)(weight, authority))
}

impl IndexView {
    /// Whether the index can be searched for the query: an empty one always, another one for
    /// vectors of its own kind, with no more planes than a fingerprint has bits and a beam whose
    /// number of steps can be counted.
    pub open spec fn ready_for(self, query: Seq<Scalar>) -> bool {
        self.nodes.dom().len() > 0 ==> {
            &&& self.dims == Some(query.len() as usize)
            &&& self.planes.len() <= 128
            &&& self.config.beam_width * STEPS_PER_PLACE <= usize::MAX
        }
    }

    /// The nodes of a bucket that are not marked as deleted.
    pub open spec fn bucket_ids(self, key: u16) -> Seq<NodeId> {
        if self.buckets.dom().contains(key) {
            surviving(self.buckets[key], self.deleted)
        } else {
            Seq::empty()
        }
    }

    /// The nodes of the two buckets at a distance: the one above first.
    pub open spec fn ring(self, key: u16, delta: u16) -> Seq<NodeId> {
        self.bucket_ids(key.wrapping_add(delta)) + self.bucket_ids(key.wrapping_sub(delta))
    }

    /// The nodes of the nearest pair of buckets with nodes in it, at a distance of `delta` or more.
    pub open spec fn rings_from(self, key: u16, delta: u16) -> Seq<NodeId>
        decreases REACH + 1 - delta,
    {
        if delta > REACH {
            Seq::empty()
        } else if self.ring(key, delta).len() > 0 {
            self.ring(key, delta)
        } else {
            self.rings_from(key, (delta + 1) as u16)
        }
    }

    /// The live node that was inserted last, where there is one.
    pub open spec fn newest(self) -> Seq<NodeId> {
        let ids = ascending(self.live());
        if ids.len() == 0 {
            Seq::empty()
        } else {
            seq![ids.last()]
        }
    }

    /// Where a search enters the graph: at the nodes of the query's bucket, else of the nearest
    /// buckets around it, else at the newest node.
    pub open spec fn entries(self, key: u16) -> Seq<NodeId> {
        if self.bucket_ids(key).len() > 0 {
            self.bucket_ids(key)
        } else if self.rings_from(key, 1).len() > 0 {
            self.rings_from(key, 1)
        } else {
            self.newest()
        }
    }

    /// The frontier with those of `ids` put in their places that are allowed on it.
    pub open spec fn joined(
        self,
        fp: SimFingerprint,
        frontier: Seq<(NodeId, Scalar)>,
        ids: Seq<NodeId>,
        allowed: Set<NodeId>,
    ) -> Seq<(NodeId, Scalar)>
        decreases ids.len(),
    {
        if ids.len() == 0 {
            frontier
        } else {
            let before = self.joined(fp, frontier, ids.drop_last(), allowed);
            let id = ids.last();
            if allowed.contains(id) {
                place(before, (id, fp.agreement(self.nodes[id].fingerprint)))
            } else {
                before
            }
        }
    }

    /// The frontier that a search starts with.
    pub open spec fn seeded(self, fp: SimFingerprint) -> Seq<(NodeId, Scalar)> {
        self.joined(
            fp,
            Seq::empty(),
            first(self.entries(fp.bucket()), self.config.beam_width as nat),
            self.live(),
        )
    }

    /// The frontier after a node was visited: its live neighbours that were not visited yet have
    /// joined, and the best are kept.
    pub open spec fn expanded(
        self,
        fp: SimFingerprint,
        frontier: Seq<(NodeId, Scalar)>,
        id: NodeId,
        visited: Set<NodeId>,
    ) -> Seq<(NodeId, Scalar)> {
        first(
            self.joined(fp, frontier, self.nodes[id].edges, self.live().difference(visited)),
            self.config.beam_width as nat,
        )
    }

    /// The nodes that a walk visits from here, with `budget` steps left.
    pub open spec fn walk(
        self,
        fp: SimFingerprint,
        frontier: Seq<(NodeId, Scalar)>,
        visited: Set<NodeId>,
        budget: nat,
    ) -> Seq<NodeId>
        decreases budget, frontier.len(),
    {
        if frontier.len() == 0 {
            Seq::empty()
        } else {
            let id = frontier[0].0;
            let rest = frontier.drop_first();
            if visited.contains(id) {
                self.walk(fp, rest, visited, budget)
            } else if budget == 0 {
                Seq::empty()
            } else if !self.live().contains(id) {
                self.walk(fp, rest, visited.insert(id), (budget - 1) as nat)
            } else {
                let seen = visited.insert(id);
                seq![id] + self.walk(
                    fp,
                    self.expanded(fp, rest, id, seen),
                    seen,
                    (budget - 1) as nat,
                )
            }
        }
    }

    /// The nodes that a search for something with the given fingerprint visits, in order.
    pub open spec fn visits(self, fp: SimFingerprint) -> Seq<NodeId> {
        self.walk(
            fp,
            self.seeded(fp),
            Set::empty(),
            (self.config.beam_width * STEPS_PER_PLACE) as nat,
        )
    }

    /// What a node is worth as an answer to a query.
    pub open spec fn score(self, g: Ops<Scalar>, query: Seq<Scalar>, id: NodeId) -> Scalar {
        let node = self.nodes[id];
        blend(
            g,
            self.config.centrality_weight,
            cosine_of(g, dot(g, node.vector, query), norm(g, query), norm(g, node.vector)),
            (g.tanh)(node.centrality),
        )
    }

    /// The answer to a query: the nodes that the walk visits, the best `top_k` of them.
    pub open spec fn found(self, g: Ops<Scalar>, query: Seq<Scalar>, top_k: nat) -> Seq<
        (NodeId, Scalar),
    > {
        let fp = fingerprint_of(g, self.planes, query);
        first(
            ranked(self.visits(fp).map_values(|id: NodeId| (id, self.score(g, query, id)))),
            top_k,
        )
    }
}

/// Whether `r` lists the best `top_k` of the visited nodes by some scores, each once.
pub open spec fn chosen_from(
    visited: Seq<NodeId>,
    top_k: nat,
    r: Seq<(NodeId, Scalar)>,
) -> bool {
    &&& r.len() == if visited.len() <= top_k {
        visited.len()
    } else {
        top_k
    }
    &&& sorted(r)
    &&& forall|i: int| 0 <= i < r.len() ==> visited.contains((#[trigger] r[i]).0)
    &&& forall|i: int, j: int| 0 <= i < j < r.len() ==> (#[trigger] r[i]).0 != (#[trigger] r[j]).0
}

/// What a search promises: the walk is the one that some fingerprint of the query leads to, and
/// where the arithmetic is faithful the answer is fully determined.
pub open spec fn answers<A: Arithmetic>(
    index: IndexView,
    query: Seq<Scalar>,
    top_k: nat,
    ar: &A,
    r: Seq<(NodeId, Scalar)>,
) -> bool {
    &&& exists|fp: SimFingerprint|
        fp.0 < pow2(index.planes.len()) && chosen_from(#[trigger] index.visits(fp), top_k, r)
    &&& forall|i: int| 0 <= i < r.len() ==> index.live().contains((#[trigger] r[i]).0)
    &&& faithful(ar) ==> r == index.found(ops_of(ar), query, top_k)
}

proof fn lemma_walk(
    v: IndexView,
    fp: SimFingerprint,
    frontier: Seq<(NodeId, Scalar)>,
    visited: Set<NodeId>,
    budget: nat,
)
    ensures
        v.walk(fp, frontier, visited, budget).len() <= budget,
        v.walk(fp, frontier, visited, budget).no_duplicates(),
        forall|id: NodeId| #[trigger]
            v.walk(fp, frontier, visited, budget).contains(id) ==> v.live().contains(id)
                && !visited.contains(id),
    decreases budget, frontier.len(),
{
    if frontier.len() > 0 {
        let id = frontier[0].0;
        let rest = frontier.drop_first();
        if visited.contains(id) {
            lemma_walk(v, fp, rest, visited, budget);
        } else if budget == 0 {
        } else if !v.live().contains(id) {
            lemma_walk(v, fp, rest, visited.insert(id), (budget - 1) as nat);
        } else {
            let seen = visited.insert(id);
            let next = v.expanded(fp, rest, id, seen);
            lemma_walk(v, fp, next, seen, (budget - 1) as nat);
            let tail = v.walk(fp, next, seen, (budget - 1) as nat);
            let all = v.walk(fp, frontier, visited, budget);
            assert(all =~= seq![id] + tail);
            assert(!tail.contains(id));
            assert forall|i: int, j: int| 0 <= i < j < all.len() implies all[i] != all[j] by {
                assert(all[j] == tail[j - 1]);
                assert(tail.contains(tail[j - 1]));
                if i > 0 {
                    assert(all[i] == tail[i - 1]);
                }
            }
            assert forall|x: NodeId| #[trigger] all.contains(x) implies v.live().contains(x)
                && !visited.contains(x) by {
                let k = choose|k: int| 0 <= k < all.len() && all[k] == x;
                if k > 0 {
                    assert(tail[k - 1] == x);
                    assert(tail.contains(x));
                }
            }
        }
    }
}

/// A search visits live nodes only, none twice, and no more than its beam allows.
pub proof fn lemma_visits(v: IndexView, fp: SimFingerprint)
    ensures
        v.visits(fp).len() <= v.config.beam_width * STEPS_PER_PLACE,
        v.visits(fp).no_duplicates(),
        forall|id: NodeId| #[trigger] v.visits(fp).contains(id) ==> v.live().contains(id),
{
    lemma_walk(
        v,
        fp,
        v.seeded(fp),
        Set::empty(),
        (v.config.beam_width * STEPS_PER_PLACE) as nat,
    );
}

proof fn lemma_joined_none(
    v: IndexView,
    fp: SimFingerprint,
    frontier: Seq<(NodeId, Scalar)>,
    ids: Seq<NodeId>,
    allowed: Set<NodeId>,
)
    requires
        forall|id: NodeId| #[trigger] ids.contains(id) ==> !allowed.contains(id),
    ensures
        v.joined(fp, frontier, ids, allowed) == frontier,
    decreases ids.len(),
{
    if ids.len() > 0 {
        let front = ids.drop_last();
        assert forall|id: NodeId| #[trigger] front.contains(id) implies !allowed.contains(id) by {
            let k = choose|k: int| 0 <= k < front.len() && front[k] == id;
            assert(ids[k] == id);
            assert(ids.contains(id));
        }
        lemma_joined_none(v, fp, frontier, front, allowed);
        assert(ids.contains(ids[ids.len() - 1]));
    }
}

/// Where no node is live, a search visits none.
pub proof fn lemma_nothing_live(v: IndexView, fp: SimFingerprint)
    requires
        v.live() == Set::<NodeId>::empty(),
    ensures
        v.visits(fp).len() == 0,
{
    lemma_joined_none(
        v,
        fp,
        Seq::empty(),
        first(v.entries(fp.bucket()), v.config.beam_width as nat),
        v.live(),
    );
}

/// The best few of scored nodes that were all different.
pub(crate) proof fn lemma_chosen(ids: Seq<NodeId>, scored: Seq<(NodeId, Scalar)>, k: nat)
    requires
        ids.no_duplicates(),
        scored.len() == ids.len(),
        forall|i: int| 0 <= i < ids.len() ==> (#[trigger] scored[i]).0 == ids[i],
    ensures
        chosen_from(ids, k, first(ranked(scored), k)),
{
    lemma_ranked(scored);
    let all = ranked(scored);
    let r = first(all, k);
    lemma_ranked_distinct(scored);
    assert forall|i: int, j: int| 0 <= i < j < r.len() implies (#[trigger] r[i]).0 != (
    #[trigger] r[j]).0 by {
        assert(all[i].tag() != all[j].tag());
    }
    assert forall|i: int| 0 <= i < r.len() implies ids.contains((#[trigger] r[i]).0) by {
        assert(all.contains(all[i]));
        let j = choose|j: int| 0 <= j < scored.len() && scored[j] == all[i];
        assert(ids[j] == r[i].0);
    }
}

impl NeuraRankIndex {
    /// The nodes of a bucket that are not marked as deleted.
    fn live_in_bucket(&self, key: u16) -> (out: Vec<NodeId>)
        ensures
            out@ == self@.bucket_ids(key),
    {
        assert(self@.buckets.dom() =~= self.coarse_buckets@.dom());
        match self.coarse_buckets.get(&key) {
            Some(members) => without(members, &self.deleted),
            None => Vec::new(),
        }
    }

    /// Where a search enters the graph.
    fn entry_candidates(&self, key: u16) -> (out: Vec<NodeId>)
        ensures
            out@ == self@.entries(key),
    {
        let own = self.live_in_bucket(key);
        if own.len() > 0 {
            return own;
        }
        let mut delta: u16 = 1;
        while delta <= REACH
            invariant
                1 <= delta <= REACH + 1,
                self@.bucket_ids(key).len() == 0,
                self@.rings_from(key, 1) == self@.rings_from(key, delta),
            decreases REACH + 1 - delta,
        {
            let mut members = self.live_in_bucket(key.wrapping_add(delta));
            let mut below = self.live_in_bucket(key.wrapping_sub(delta));
            members.append(&mut below);
            if members.len() > 0 {
                return members;
            }
            delta = delta + 1;
        }
        let ids = ids_without(&self.nodes, &self.deleted, None);
        assert(self@.nodes.dom() =~= self.nodes@.dom());
        assert(self.nodes@.dom().difference(self.deleted@).difference(as_set(None))
            =~= self@.live());
        let mut out: Vec<NodeId> = Vec::new();
        if ids.len() > 0 {
            out.push(ids[ids.len() - 1]);
        }
        assert(out@ =~= self@.newest());
        out
    }

    /// Puts those of `ids` on the frontier that are live and were not visited yet.
    fn join(
        &self,
        fp: SimFingerprint,
        frontier: &mut Vec<(NodeId, Scalar)>,
        ids: &Vec<NodeId>,
        count: usize,
        visited: &BTreeSet<NodeId>,
    )
        requires
            count <= ids@.len(),
        ensures
            final(frontier)@ == self@.joined(
                fp,
                old(frontier)@,
                ids@.take(count as int),
                self@.live().difference(visited@),
            ),
    {
        let ghost allowed = self@.live().difference(visited@);
        let mut i: usize = 0;
        while i < count
            invariant
                i <= count <= ids@.len(),
                allowed == self@.live().difference(visited@),
                frontier@ == self@.joined(fp, old(frontier)@, ids@.take(i as int), allowed),
            decreases count - i,
        {
            let id: NodeId = ids[i];
            assert(ids@.take(i + 1).drop_last() =~= ids@.take(i as int));
            assert(self@.nodes.dom() =~= self.nodes@.dom());
            if !visited.contains(&id) && !self.deleted.contains(&id) {
                if let Some(node) = self.nodes.get(&id) {
                    insert_ranked(frontier, (id, fp.similarity(&node.fingerprint)));
                }
            }
            i = i + 1;
        }
    }

    /// The nodes that a search for something with the given fingerprint visits, in order.
    pub fn visit_order(&self, fp: SimFingerprint) -> (order: Vec<NodeId>)
        requires
            self.config.beam_width * STEPS_PER_PLACE <= usize::MAX,
        ensures
            order@ == self@.visits(fp),
    {
        let beam_width: usize = self.config.beam_width;
        let ghost v = self@;
        let mut visited: BTreeSet<NodeId> = BTreeSet::new();
        let mut frontier: Vec<(NodeId, Scalar)> = Vec::new();
        let entries = self.entry_candidates(fp.bucket_key());
        let count: usize = if entries.len() <= beam_width {
            entries.len()
        } else {
            beam_width
        };
        self.join(fp, &mut frontier, &entries, count, &visited);
        proof {
            assert(entries@.take(count as int) =~= first(entries@, beam_width as nat));
            assert(v.live().difference(Set::empty()) =~= v.live());
            assert(frontier@ == v.seeded(fp));
        }
        let mut order: Vec<NodeId> = Vec::new();
        let mut budget: usize = beam_width * STEPS_PER_PLACE;
        assert(order@ + v.visits(fp) =~= v.visits(fp));
        while frontier.len() > 0
            invariant
                v == self@,
                beam_width == self.config.beam_width,
                order@ + v.walk(fp, frontier@, visited@, budget as nat) == v.visits(fp),
            decreases budget, frontier.len(),
        {
            let ghost before = frontier@;
            let (id, _score) = frontier.remove(0);
            assert(frontier@ =~= before.drop_first());
            assert(v.nodes.dom() =~= self.nodes@.dom());
            if !visited.contains(&id) {
                if budget == 0 {
                    assert(order@ + Seq::empty() =~= order@);
                    return order;
                }
                budget = budget - 1;
                visited.insert(id);
                if !self.deleted.contains(&id) {
                    if let Some(node) = self.nodes.get(&id) {
                        let ghost done = order@;
                        order.push(id);
                        let ghost rest = frontier@;
                        self.join(fp, &mut frontier, &node.edges, node.edges.len(), &visited);
                        assert(node.edges@.take(node.edges@.len() as int) =~= node.edges@);
                        if frontier.len() > beam_width {
                            frontier.truncate(beam_width);
                        }
                        assert(frontier@ =~= v.expanded(fp, rest, id, visited@));
                        let ghost tail = v.walk(fp, frontier@, visited@, budget as nat);
                        assert(done + (seq![id] + tail) =~= order@ + tail);
                    }
                }
            }
        }
        assert(order@ + Seq::empty() =~= order@);
        order
    }

    /// What a node is worth as an answer to a query.
    fn score_of<A: Arithmetic>(&self, node: &Node, query: &[Scalar], query_norm: Scalar, ar: &A) -> (
    s: Scalar)
        ensures
            faithful(ar) && query_norm == norm(ops_of(ar), query@) ==> forall|id: NodeId|
                self@.nodes.dom().contains(id) && self@.nodes[id] == node@ ==> s
                    == #[trigger] self@.score(ops_of(ar), query@, id),
    {
        let weight = self.config.centrality_weight;
        let inner = dot_product(node.vector.as_slice(), query, ar);
        let node_norm = l2_norm(node.vector.as_slice(), ar);
        let cosine = cosine_from_norms(inner, query_norm, node_norm, ar);
        let rest = ar.minus(one(), weight);
        let left = ar.times(rest, cosine);
        let authority = ar.tanh(node.centrality);
        let right = ar.times(weight, authority);
        ar.plus(left, right)
    }

    /// The stored vectors most like the query, best first: at most `top_k` of them, each with its
    /// score.
    ///
    /// Equal scores go by age, the older node first. A score that is not a number ranks by its
    /// bits: before every number where its sign bit is not set, behind every number where it is.
    pub fn search<A: Arithmetic>(&self, query: &[Scalar], top_k: usize, ar: &A) -> (r: Vec<
        (NodeId, Scalar),
    >)
        requires
            self@.ready_for(query@),
        ensures
            answers(self@, query@, top_k as nat, ar, r@),
    {
        let ghost v = self@;
        let ghost g = ops_of(ar);
        assert(v.nodes.dom() =~= self.nodes@.dom());
        let mut best: Vec<(NodeId, Scalar)> = Vec::new();
        if self.nodes.is_empty() {
            proof {
                assert(v.live() =~= Set::empty());
                let fp = SimFingerprint(0);
                lemma_pow2_pos(v.planes.len());
                lemma_nothing_live(v, fp);
                lemma_nothing_live(v, fingerprint_of(g, v.planes, query@));
                assert(v.found(g, query@, top_k as nat) =~= Seq::empty());
                assert(chosen_from(v.visits(fp), top_k as nat, best@));
            }
            return best;
        }
        let fp = self.hasher.fingerprint(query, ar);
        let query_norm = l2_norm(query, ar);
        let order = self.visit_order(fp);
        let ghost mut scored: Seq<(NodeId, Scalar)> = Seq::empty();
        proof {
            lemma_visits(v, fp);
        }
        let mut i: usize = 0;
        while i < order.len()
            invariant
                v == self@,
                g == ops_of(ar),
                v.nodes.dom() == self.nodes@.dom(),
                i <= order@.len(),
                order@ == v.visits(fp),
                forall|id: NodeId| #[trigger] v.visits(fp).contains(id) ==> v.live().contains(id),
                best@.len() <= top_k,
                best@ == first(ranked(scored), top_k as nat),
                scored.len() == i,
                forall|j: int| 0 <= j < i ==> (#[trigger] scored[j]).0 == order@[j],
                faithful(ar) ==> query_norm == norm(g, query@),
                faithful(ar) ==> forall|j: int|
                    0 <= j < i ==> (#[trigger] scored[j]).1 == v.score(g, query@, order@[j]),
            decreases order.len() - i,
        {
            let id: NodeId = order[i];
            assert(order@.contains(order@[i as int]));
            if let Some(node) = self.nodes.get(&id) {
                let score = self.score_of(node, query, query_norm, ar);
                proof {
                    let before = scored;
                    scored = before.push((id, score));
                    assert(scored.drop_last() =~= before);
                    lemma_ranked(before);
                    lemma_first_of_place(ranked(before), (id, score), top_k as nat);
                    assert(faithful(ar) ==> score == v.score(g, query@, id));
                }
                keep_best(&mut best, (id, score), top_k);
            }
            i = i + 1;
        }
        proof {
            lemma_chosen(order@, scored, top_k as nat);
            assert(chosen_from(v.visits(fp), top_k as nat, best@));
            if faithful(ar) {
                assert(scored =~= v.visits(fp).map_values(
                    |id: NodeId| (id, v.score(g, query@, id)),
                ));
            }
        }
        best
    }

    /// The answers to several queries, worked out side by side: each is what `search` gives.
    pub fn batch_search<A: Arithmetic>(&self, queries: &[Vec<Scalar>], top_k: usize, ar: &A) -> (r:
        Vec<Vec<(NodeId, Scalar)>>)
        requires
            forall|i: int| 0 <= i < queries@.len() ==> self@.ready_for((#[trigger] queries@[i])@),
        ensures
            r@.len() == queries@.len(),
            forall|i: int|
                0 <= i < r@.len() ==> answers(
                    self@,
                    queries@[i]@,
                    top_k as nat,
                    ar,
                    (#[trigger] r@[i])@,
                ),
    {
        let run = |query: &Vec<Scalar>| -> (out: Vec<(NodeId, Scalar)>)
            requires
                self@.ready_for(query@),
            ensures
                answers(self@, query@, top_k as nat, ar, out@),
            { self.search(query.as_slice(), top_k, ar) };
        par_map(queries, run)
    }
}

} // verus!
