//! What holds of every search.
use crate::arith::Arithmetic;
use crate::arith::exact_ops;
use crate::arith::faithful;
use crate::arith::ops_of;
use crate::arith::Ops;
use crate::fingerprint::SimFingerprint;
use crate::hasher::fingerprint_of;
use crate::ids::ascending;
use crate::ids::lemma_all_survive;
use crate::ids::lemma_ascending;
use crate::ids::lemma_ascending_len;
use crate::ids::lemma_surviving;
use crate::ids::lemma_surviving_increasing;
use crate::ids::NodeId;
use crate::ids::surviving;
use crate::index::IndexView;
use crate::index::same_but_centrality;
use crate::laws::lemma_compacted;
use crate::laws::lemma_compacted_wf;
use crate::laws::lemma_marked_live;
use crate::ranking::first;
use crate::ranking::lemma_first_is_best;
use crate::ranking::lemma_place_sorted;
use crate::ranking::lemma_ranked;
use crate::ranking::ranked;
use crate::ranking::sorted;
use crate::scalar::one;
use crate::scalar::zero;
use crate::scalar::Scalar;
use crate::search::answers;
use crate::search::blend;
use crate::search::chosen_from;
use crate::search::REACH;
use crate::search::STEPS_PER_PLACE;
use crate::symmetry::swaps_factors;
use crate::vector::cosine;
use vstd::arithmetic::power2::pow2;
use vstd::prelude::*;

verus! {

/// A search visits no node that is marked as deleted, so none is ever among its answers.
pub proof fn lemma_marked_hidden(v: IndexView, id: NodeId, fp: SimFingerprint)
    ensures
        !v.marked(id).visits(fp).contains(id),
{
    crate::search::lemma_visits(v.marked(id), fp);
    lemma_marked_live(v, id);
}

proof fn lemma_joined_compacted(
    v: IndexView,
    fp: SimFingerprint,
    frontier: Seq<(NodeId, Scalar)>,
    ids: Seq<NodeId>,
    allowed: Set<NodeId>,
)
    requires
        allowed.subset_of(v.live()),
    ensures
        v.compacted().joined(fp, frontier, surviving(ids, v.deleted), allowed) == v.joined(
            fp,
            frontier,
            ids,
            allowed,
        ),
    decreases ids.len(),
{
    let w = v.compacted();
    lemma_compacted(v);
    if ids.len() == 0 {
        reveal(Seq::filter);
    } else {
        let front = ids.drop_last();
        let id = ids.last();
        let kept = surviving(front, v.deleted);
        assert(ids =~= front.push(id));
        crate::ids::lemma_surviving_push(front, v.deleted, id);
        lemma_joined_compacted(v, fp, frontier, front, allowed);
        if !v.deleted.contains(id) {
            assert(kept.push(id).drop_last() =~= kept);
        }
    }
}

proof fn lemma_walk_compacted(
    v: IndexView,
    fp: SimFingerprint,
    frontier: Seq<(NodeId, Scalar)>,
    visited: Set<NodeId>,
    budget: nat,
)
    ensures
        v.compacted().walk(fp, frontier, visited, budget) == v.walk(fp, frontier, visited, budget),
    decreases budget, frontier.len(),
{
    let w = v.compacted();
    lemma_compacted(v);
    if frontier.len() > 0 {
        let id = frontier[0].0;
        let rest = frontier.drop_first();
        if visited.contains(id) {
            lemma_walk_compacted(v, fp, rest, visited, budget);
        } else if budget == 0 {
        } else if !v.live().contains(id) {
            lemma_walk_compacted(v, fp, rest, visited.insert(id), (budget - 1) as nat);
        } else {
            let seen = visited.insert(id);
            lemma_joined_compacted(
                v,
                fp,
                rest,
                v.nodes[id].edges,
                v.live().difference(seen),
            );
            assert(w.expanded(fp, rest, id, seen) == v.expanded(fp, rest, id, seen));
            lemma_walk_compacted(
                v,
                fp,
                v.expanded(fp, rest, id, seen),
                seen,
                (budget - 1) as nat,
            );
        }
    }
}

proof fn lemma_bucket_ids_compacted(v: IndexView, key: u16)
    requires
        v.wf(),
    ensures
        v.compacted().bucket_ids(key) == v.bucket_ids(key),
{
    let w = v.compacted();
    lemma_compacted_wf(v);
    lemma_compacted(v);
    let a = w.bucket_ids(key);
    let b = v.bucket_ids(key);
    if w.buckets.dom().contains(key) {
        lemma_surviving(w.buckets[key], w.deleted);
        lemma_surviving_increasing(w.buckets[key], w.deleted);
    }
    if v.buckets.dom().contains(key) {
        lemma_surviving(v.buckets[key], v.deleted);
        lemma_surviving_increasing(v.buckets[key], v.deleted);
    }
    assert forall|id: NodeId| #[trigger] a.contains(id) <==> b.contains(id) by {
        if w.buckets.dom().contains(key) {
            assert(w.buckets[key].contains(id) <==> w.nodes.dom().contains(id)
                && w.nodes[id].fingerprint.bucket() == key);
        } else if w.nodes.dom().contains(id) {
            assert(w.nodes[id].fingerprint.bucket() != key);
        }
        if v.buckets.dom().contains(key) {
            assert(v.buckets[key].contains(id) <==> v.nodes.dom().contains(id)
                && v.nodes[id].fingerprint.bucket() == key);
        } else if v.nodes.dom().contains(id) {
            assert(v.nodes[id].fingerprint.bucket() != key);
        }
    }
    crate::ids::lemma_increasing_unique(a, b);
}

proof fn lemma_rings_compacted(v: IndexView, key: u16, delta: u16)
    requires
        v.wf(),
        delta <= REACH + 1,
    ensures
        v.compacted().rings_from(key, delta) == v.rings_from(key, delta),
    decreases REACH + 1 - delta,
{
    if delta <= REACH {
        lemma_bucket_ids_compacted(v, key.wrapping_add(delta));
        lemma_bucket_ids_compacted(v, key.wrapping_sub(delta));
        assert(v.compacted().ring(key, delta) == v.ring(key, delta));
        lemma_rings_compacted(v, key, (delta + 1) as u16);
    }
}

/// Compaction changes no answer: a search visits the same nodes in the same order after it, and
/// finds the same with the same scores.
pub proof fn lemma_compaction_keeps_answers(
    v: IndexView,
    g: Ops<Scalar>,
    query: Seq<Scalar>,
    top_k: nat,
    fp: SimFingerprint,
)
    requires
        v.wf(),
    ensures
        v.compacted().visits(fp) == v.visits(fp),
        v.compacted().found(g, query, top_k) == v.found(g, query, top_k),
{
    let w = v.compacted();
    assert forall|f: SimFingerprint| #[trigger] w.visits(f) == v.visits(f) by {
        let key = f.bucket();
        lemma_bucket_ids_compacted(v, key);
        lemma_rings_compacted(v, key, 1);
        lemma_compacted(v);
        assert(w.entries(key) == v.entries(key));
        let ids = first(v.entries(key), v.config.beam_width as nat);
        lemma_entries_not_marked(v, key);
        assert forall|id: NodeId| #[trigger] ids.contains(id) implies !v.deleted.contains(id) by {
            let k = choose|k: int| 0 <= k < ids.len() && ids[k] == id;
            assert(v.entries(key)[k] == id);
            assert(v.entries(key).contains(id));
        }
        lemma_all_survive(ids, v.deleted);
        lemma_joined_compacted(v, f, Seq::empty(), ids, v.live());
        assert(w.seeded(f) == v.seeded(f));
        lemma_walk_compacted(
            v,
            f,
            v.seeded(f),
            Set::empty(),
            (v.config.beam_width * STEPS_PER_PLACE) as nat,
        );
    }
    let f = fingerprint_of(g, v.planes, query);
    lemma_compacted(v);
    crate::search::lemma_visits(v, f);
    assert(w.visits(f).map_values(|id: NodeId| (id, w.score(g, query, id))) =~= v.visits(
        f,
    ).map_values(|id: NodeId| (id, v.score(g, query, id)))) by {
        assert forall|i: int| 0 <= i < v.visits(f).len() implies w.score(
            g,
            query,
            #[trigger] v.visits(f)[i],
        ) == v.score(g, query, v.visits(f)[i]) by {
            assert(v.visits(f).contains(v.visits(f)[i]));
        }
    }
}

proof fn lemma_rings_not_marked(v: IndexView, key: u16, delta: u16)
    ensures
        forall|id: NodeId| #[trigger]
            v.rings_from(key, delta).contains(id) ==> !v.deleted.contains(id),
    decreases REACH + 1 - delta,
{
    if delta <= REACH {
        let above = key.wrapping_add(delta);
        let below = key.wrapping_sub(delta);
        if v.buckets.dom().contains(above) {
            lemma_surviving(v.buckets[above], v.deleted);
        }
        if v.buckets.dom().contains(below) {
            lemma_surviving(v.buckets[below], v.deleted);
        }
        let a = v.bucket_ids(above);
        let b = v.bucket_ids(below);
        let ring = v.ring(key, delta);
        if ring.len() > 0 {
            assert forall|id: NodeId| #[trigger] ring.contains(id) implies !v.deleted.contains(
                id,
            ) by {
                let k = choose|k: int| 0 <= k < ring.len() && ring[k] == id;
                if k < a.len() {
                    assert(a[k] == id);
                    assert(a.contains(id));
                } else {
                    assert(b[k - a.len()] == id);
                    assert(b.contains(id));
                }
            }
            assert(v.rings_from(key, delta) == ring);
        } else {
            lemma_rings_not_marked(v, key, (delta + 1) as u16);
            assert(v.rings_from(key, delta) == v.rings_from(key, (delta + 1) as u16));
        }
    } else {
        assert(v.rings_from(key, delta) == Seq::<NodeId>::empty());
    }
}

/// A search never enters the graph at a node that is marked as deleted.
pub proof fn lemma_entries_not_marked(v: IndexView, key: u16)
    ensures
        forall|id: NodeId| #[trigger] v.entries(key).contains(id) ==> !v.deleted.contains(id),
{
    if v.buckets.dom().contains(key) {
        lemma_surviving(v.buckets[key], v.deleted);
    }
    lemma_rings_not_marked(v, key, 1);
    lemma_ascending(v.live());
    let ids = ascending(v.live());
    if ids.len() > 0 {
        assert(ids.contains(ids[ids.len() - 1]));
    }
    assert forall|id: NodeId| #[trigger] v.newest().contains(id) implies !v.deleted.contains(id) by {
        assert(v.newest()[0] == id);
    }
}

pub(crate) proof fn lemma_joined_all(
    v: IndexView,
    fp: SimFingerprint,
    frontier: Seq<(NodeId, Scalar)>,
    ids: Seq<NodeId>,
    allowed: Set<NodeId>,
)
    requires
        forall|id: NodeId| #[trigger] ids.contains(id) ==> allowed.contains(id),
        forall|i: int| 0 <= i < frontier.len() ==> allowed.contains((#[trigger] frontier[i]).0),
    ensures
        v.joined(fp, frontier, ids, allowed).len() == frontier.len() + ids.len(),
        forall|i: int|
            0 <= i < v.joined(fp, frontier, ids, allowed).len() ==> allowed.contains(
                (#[trigger] v.joined(fp, frontier, ids, allowed)[i]).0,
            ),
    decreases ids.len(),
{
    if ids.len() > 0 {
        let front = ids.drop_last();
        let id = ids.last();
        assert forall|x: NodeId| #[trigger] front.contains(x) implies allowed.contains(x) by {
            let k = choose|k: int| 0 <= k < front.len() && front[k] == x;
            assert(ids[k] == x);
            assert(ids.contains(x));
        }
        lemma_joined_all(v, fp, frontier, front, allowed);
        assert(ids.contains(ids[ids.len() - 1]));
        let before = v.joined(fp, frontier, front, allowed);
        let after = v.joined(fp, frontier, ids, allowed);
        let c = (id, fp.agreement(v.nodes[id].fingerprint));
        crate::ranking::lemma_slot_range(before, c);
        let p = crate::ranking::slot(before, c) as int;
        assert(after == before.insert(p, c));
        assert forall|i: int| 0 <= i < after.len() implies allowed.contains(
            (#[trigger] after[i]).0,
        ) by {
            if i < p {
                assert(after[i] == before[i]);
            } else if i > p {
                assert(after[i] == before[i - 1]);
            }
        }
    }
}

pub(crate) proof fn lemma_bucket_ids_live(v: IndexView, key: u16)
    requires
        v.wf(),
    ensures
        forall|id: NodeId| #[trigger]
            v.bucket_ids(key).contains(id) <==> v.live().contains(id)
                && v.nodes[id].fingerprint.bucket() == key,
{
    assert forall|id: NodeId| #[trigger] v.bucket_ids(key).contains(id) <==> v.live().contains(id)
        && v.nodes[id].fingerprint.bucket() == key by {
        if v.buckets.dom().contains(key) {
            lemma_surviving(v.buckets[key], v.deleted);
            assert(v.buckets[key].contains(id) <==> v.nodes.dom().contains(id)
                && v.nodes[id].fingerprint.bucket() == key);
        } else if v.nodes.dom().contains(id) {
            assert(v.buckets.dom().contains(v.nodes[id].fingerprint.bucket()));
        }
    }
}

proof fn lemma_rings_live(v: IndexView, key: u16, delta: u16)
    requires
        v.wf(),
    ensures
        forall|id: NodeId| #[trigger]
            v.rings_from(key, delta).contains(id) ==> v.live().contains(id),
    decreases REACH + 1 - delta,
{
    if delta <= REACH {
        let a = v.bucket_ids(key.wrapping_add(delta));
        let b = v.bucket_ids(key.wrapping_sub(delta));
        let ring = v.ring(key, delta);
        lemma_bucket_ids_live(v, key.wrapping_add(delta));
        lemma_bucket_ids_live(v, key.wrapping_sub(delta));
        if ring.len() > 0 {
            assert(v.rings_from(key, delta) == ring);
            assert forall|id: NodeId| #[trigger] ring.contains(id) implies v.live().contains(id) by {
                let k = choose|k: int| 0 <= k < ring.len() && ring[k] == id;
                if k < a.len() {
                    assert(a[k] == id);
                    assert(a.contains(id));
                } else {
                    assert(b[k - a.len()] == id);
                    assert(b.contains(id));
                }
            }
        } else {
            lemma_rings_live(v, key, (delta + 1) as u16);
            assert(v.rings_from(key, delta) == v.rings_from(key, (delta + 1) as u16));
        }
    } else {
        assert(v.rings_from(key, delta) == Seq::<NodeId>::empty());
    }
}

/// A search enters the graph at live nodes, and finds an entry as long as there is one. A query
/// with the fingerprint of a live node enters at the bucket of that node.
pub proof fn lemma_entries(v: IndexView, key: u16)
    requires
        v.wf(),
    ensures
        forall|id: NodeId| #[trigger] v.entries(key).contains(id) ==> v.live().contains(id),
        v.live().len() > 0 ==> v.entries(key).len() > 0,
        forall|id: NodeId| #[trigger]
            v.live().contains(id) && v.nodes[id].fingerprint.bucket() == key ==> v.entries(
                key,
            ).contains(id),
{
    lemma_bucket_ids_live(v, key);
    lemma_rings_live(v, key, 1);
    lemma_ascending(v.live());
    lemma_ascending_len(v.live());
    let ids = ascending(v.live());
    if ids.len() > 0 {
        assert(ids.contains(ids[ids.len() - 1]));
    }
    assert forall|id: NodeId| #[trigger] v.newest().contains(id) implies v.live().contains(id) by {
        assert(v.newest()[0] == id);
    }
    assert forall|id: NodeId| #[trigger]
        v.live().contains(id) && v.nodes[id].fingerprint.bucket() == key implies v.entries(
        key,
    ).contains(id) by {
        assert(v.bucket_ids(key).contains(id));
    }
}

/// As long as a node is live and the beam has a place, a search visits at least one node.
pub proof fn lemma_search_finds_something(v: IndexView, fp: SimFingerprint)
    requires
        v.wf(),
        v.live().len() > 0,
        v.config.beam_width > 0,
    ensures
        v.visits(fp).len() > 0,
{
    let key = fp.bucket();
    lemma_entries(v, key);
    let ids = first(v.entries(key), v.config.beam_width as nat);
    assert forall|id: NodeId| #[trigger] ids.contains(id) implies v.live().contains(id) by {
        let k = choose|k: int| 0 <= k < ids.len() && ids[k] == id;
        assert(v.entries(key)[k] == id);
        assert(v.entries(key).contains(id));
    }
    lemma_joined_all(v, fp, Seq::empty(), ids, v.live());
    let frontier = v.seeded(fp);
    assert(v.live().contains(frontier[0].0));
    let budget = (v.config.beam_width * STEPS_PER_PLACE) as nat;
    assert(budget > 0);
    let seen = Set::<NodeId>::empty().insert(frontier[0].0);
    assert(v.visits(fp) == seq![frontier[0].0] + v.walk(
        fp,
        v.expanded(fp, frontier.drop_first(), frontier[0].0, seen),
        seen,
        (budget - 1) as nat,
    ));
}

proof fn lemma_joined_same_fingerprints(
    v: IndexView,
    w: IndexView,
    fp: SimFingerprint,
    frontier: Seq<(NodeId, Scalar)>,
    ids: Seq<NodeId>,
    allowed: Set<NodeId>,
)
    requires
        forall|id: NodeId| #[trigger]
            allowed.contains(id) ==> v.nodes[id].fingerprint == w.nodes[id].fingerprint,
    ensures
        v.joined(fp, frontier, ids, allowed) == w.joined(fp, frontier, ids, allowed),
    decreases ids.len(),
{
    if ids.len() > 0 {
        lemma_joined_same_fingerprints(v, w, fp, frontier, ids.drop_last(), allowed);
    }
}

proof fn lemma_walk_same_graph(
    v: IndexView,
    w: IndexView,
    fp: SimFingerprint,
    frontier: Seq<(NodeId, Scalar)>,
    visited: Set<NodeId>,
    budget: nat,
)
    requires
        same_but_centrality(v.nodes, w.nodes, ascending(v.live())),
        w == (IndexView { nodes: w.nodes, ..v }),
    ensures
        v.walk(fp, frontier, visited, budget) == w.walk(fp, frontier, visited, budget),
    decreases budget, frontier.len(),
{
    assert(v.live() == w.live());
    if frontier.len() > 0 {
        let id = frontier[0].0;
        let rest = frontier.drop_first();
        if visited.contains(id) {
            lemma_walk_same_graph(v, w, fp, rest, visited, budget);
        } else if budget == 0 {
        } else if !v.live().contains(id) {
            lemma_walk_same_graph(v, w, fp, rest, visited.insert(id), (budget - 1) as nat);
        } else {
            let seen = visited.insert(id);
            let allowed = v.live().difference(seen);
            assert forall|x: NodeId| #[trigger]
                allowed.contains(x) implies v.nodes[x].fingerprint == w.nodes[x].fingerprint by {
                assert(v.nodes.dom().contains(x));
            }
            assert(v.nodes.dom().contains(id));
            assert(v.nodes[id].edges == w.nodes[id].edges);
            lemma_joined_same_fingerprints(v, w, fp, rest, v.nodes[id].edges, allowed);
            lemma_walk_same_graph(
                v,
                w,
                fp,
                v.expanded(fp, rest, id, seen),
                seen,
                (budget - 1) as nat,
            );
        }
    }
}

proof fn lemma_rings_same_buckets(v: IndexView, w: IndexView, key: u16, delta: u16)
    requires
        w.buckets == v.buckets,
        w.deleted == v.deleted,
    ensures
        v.rings_from(key, delta) == w.rings_from(key, delta),
    decreases REACH + 1 - delta,
{
    if delta <= REACH {
        assert(v.ring(key, delta) == w.ring(key, delta));
        lemma_rings_same_buckets(v, w, key, (delta + 1) as u16);
    }
}

/// New centralities change the order of the answers, not what is visited: re-ranking loses no
/// node that a search would visit.
pub proof fn lemma_centralities_keep_visits(v: IndexView, w: IndexView, fp: SimFingerprint)
    requires
        same_but_centrality(v.nodes, w.nodes, ascending(v.live())),
        w == (IndexView { nodes: w.nodes, ..v }),
    ensures
        w.visits(fp) == v.visits(fp),
{
    let key = fp.bucket();
    assert(v.live() == w.live());
    lemma_rings_same_buckets(v, w, key, 1);
    assert(v.bucket_ids(key) == w.bucket_ids(key));
    assert(v.entries(key) == w.entries(key));
    assert forall|x: NodeId| #[trigger] v.live().contains(x) implies v.nodes[x].fingerprint
        == w.nodes[x].fingerprint by {
        assert(v.nodes.dom().contains(x));
    }
    lemma_joined_same_fingerprints(
        v,
        w,
        fp,
        Seq::empty(),
        first(v.entries(key), v.config.beam_width as nat),
        v.live(),
    );
    lemma_walk_same_graph(
        v,
        w,
        fp,
        v.seeded(fp),
        Set::empty(),
        (v.config.beam_width * STEPS_PER_PLACE) as nat,
    );
}

/// Where the arithmetic is faithful a query has one answer, however often and in whatever company
/// it is asked: a batch gives what single searches give.
pub proof fn lemma_one_answer<A: Arithmetic>(
    v: IndexView,
    query: Seq<Scalar>,
    top_k: nat,
    ar: &A,
    r: Seq<(NodeId, Scalar)>,
    s: Seq<(NodeId, Scalar)>,
)
    requires
        faithful(ar),
        answers(v, query, top_k, ar, r),
        answers(v, query, top_k, ar, s),
    ensures
        r == s,
{
}

/// How many answers there are: none where none are asked for or no node is live, at most as many
/// as asked for, and at least one otherwise, on a well-formed index whose beam has a place.
pub proof fn lemma_answer_count<A: Arithmetic>(
    v: IndexView,
    query: Seq<Scalar>,
    top_k: nat,
    ar: &A,
    r: Seq<(NodeId, Scalar)>,
)
    requires
        answers(v, query, top_k, ar, r),
    ensures
        r.len() <= top_k,
        r.len() <= v.config.beam_width * STEPS_PER_PLACE,
        v.live().len() == 0 ==> r.len() == 0,
        v.wf() && v.live().len() > 0 && v.config.beam_width > 0 && top_k > 0 ==> r.len() > 0,
{
    let fp = choose|fp: SimFingerprint|
        fp.0 < pow2(v.planes.len()) && chosen_from(#[trigger] v.visits(fp), top_k, r);
    crate::search::lemma_visits(v, fp);
    lemma_ascending_len(v.live());
    if v.live().len() == 0 {
        assert(v.live() =~= Set::empty());
        crate::search::lemma_nothing_live(v, fp);
    } else if v.wf() && v.config.beam_width > 0 {
        lemma_search_finds_something(v, fp);
    }
}

/// Weight zero scores by the cosine alone and weight one by the authority alone, where nothing is
/// rounded. Between them a score stays between minus one and one if cosine and authority do.
pub proof fn lemma_blend(g: Ops<real>, weight: real, cosine: real, authority: real)
    requires
        exact_ops(g),
    ensures
        blend(g, 0 as real, cosine, authority) == cosine,
        blend(g, 1 as real, cosine, authority) == authority,
        0 as real <= weight && weight <= 1 as real && -(1 as real) <= cosine && cosine <= 1 as real
            && -(1 as real) <= authority && authority <= 1 as real ==> -(1 as real) <= blend(
            g,
            weight,
            cosine,
            authority,
        ) && blend(g, weight, cosine, authority) <= 1 as real,
{
    let a = 1 as real - weight;
    assert((1 as real - 0 as real) * cosine + (0 as real) * authority == cosine)
        by (nonlinear_arith);
    assert((1 as real - 1 as real) * cosine + (1 as real) * authority == authority)
        by (nonlinear_arith);
    if 0 as real <= weight && weight <= 1 as real && -(1 as real) <= cosine && cosine <= 1 as real
        && -(1 as real) <= authority && authority <= 1 as real {
        assert(-(1 as real) <= a * cosine + weight * authority && a * cosine + weight * authority
            <= 1 as real) by (nonlinear_arith)
            requires
                0 as real <= weight,
                weight <= 1 as real,
                a == 1 as real - weight,
                -(1 as real) <= cosine,
                cosine <= 1 as real,
                -(1 as real) <= authority,
                authority <= 1 as real,
        ;
    }
}

pub(crate) proof fn lemma_joined_sorted(
    v: IndexView,
    fp: SimFingerprint,
    frontier: Seq<(NodeId, Scalar)>,
    ids: Seq<NodeId>,
    allowed: Set<NodeId>,
)
    requires
        sorted(frontier),
    ensures
        sorted(v.joined(fp, frontier, ids, allowed)),
        v.joined(fp, frontier, ids, allowed).len() <= frontier.len() + ids.len(),
    decreases ids.len(),
{
    if ids.len() > 0 {
        let before = v.joined(fp, frontier, ids.drop_last(), allowed);
        let id = ids.last();
        lemma_joined_sorted(v, fp, frontier, ids.drop_last(), allowed);
        lemma_place_sorted(before, (id, fp.agreement(v.nodes[id].fingerprint)));
    }
}

/// The frontier of a search is a ranking no longer than the beam is wide, at the start and after
/// every visit: what is visited next is always the best prospect.
pub proof fn lemma_frontier_ranked(
    v: IndexView,
    fp: SimFingerprint,
    frontier: Seq<(NodeId, Scalar)>,
    id: NodeId,
    visited: Set<NodeId>,
)
    requires
        sorted(frontier),
    ensures
        sorted(v.seeded(fp)),
        v.seeded(fp).len() <= v.config.beam_width,
        sorted(v.expanded(fp, frontier, id, visited)),
        v.expanded(fp, frontier, id, visited).len() <= v.config.beam_width,
{
    let entries = first(v.entries(fp.bucket()), v.config.beam_width as nat);
    lemma_joined_sorted(v, fp, Seq::empty(), entries, v.live());
    lemma_joined_sorted(v, fp, frontier, v.nodes[id].edges, v.live().difference(visited));
}

/// No node that a search visits and leaves out scores higher than one that it lists.
pub proof fn lemma_found_is_best(
    v: IndexView,
    g: Ops<Scalar>,
    query: Seq<Scalar>,
    top_k: nat,
    x: (NodeId, Scalar),
    y: NodeId,
)
    requires
        v.found(g, query, top_k).contains(x),
        v.visits(fingerprint_of(g, v.planes, query)).contains(y),
        !v.found(g, query, top_k).contains((y, v.score(g, query, y))),
    ensures
        v.score(g, query, y).key() <= x.1.key(),
{
    let visits = v.visits(fingerprint_of(g, v.planes, query));
    let scored = visits.map_values(|id: NodeId| (id, v.score(g, query, id)));
    let k = choose|k: int| 0 <= k < visits.len() && visits[k] == y;
    assert(scored[k] == (y, v.score(g, query, y)));
    assert(scored.contains(scored[k]));
    lemma_first_is_best(scored, top_k, x, (y, v.score(g, query, y)));
}

/// Asking for fewer answers gives the first of those that asking for more gives.
pub proof fn lemma_found_prefix(
    v: IndexView,
    g: Ops<Scalar>,
    query: Seq<Scalar>,
    fewer: nat,
    more: nat,
)
    requires
        fewer <= more,
    ensures
        v.found(g, query, fewer) == first(v.found(g, query, more), fewer),
{
    assert(v.found(g, query, fewer) =~= first(v.found(g, query, more), fewer));
}

/// Every score in an answer is the score of its node, and the node is live.
pub proof fn lemma_found_scores(v: IndexView, g: Ops<Scalar>, query: Seq<Scalar>, top_k: nat)
    ensures
        forall|i: int|
            0 <= i < v.found(g, query, top_k).len() ==> (#[trigger] v.found(g, query, top_k)[i]).1
                == v.score(g, query, v.found(g, query, top_k)[i].0) && v.live().contains(
                v.found(g, query, top_k)[i].0,
            ),
{
    let visits = v.visits(fingerprint_of(g, v.planes, query));
    crate::search::lemma_visits(v, fingerprint_of(g, v.planes, query));
    let scored = visits.map_values(|id: NodeId| (id, v.score(g, query, id)));
    let all = ranked(scored);
    lemma_ranked(scored);
    let r = v.found(g, query, top_k);
    assert forall|i: int| 0 <= i < r.len() implies (#[trigger] r[i]).1 == v.score(
        g,
        query,
        r[i].0,
    ) && v.live().contains(r[i].0) by {
        assert(all.contains(all[i]));
        let k = choose|k: int| 0 <= k < scored.len() && scored[k] == all[i];
        assert(scored[k] == (visits[k], v.score(g, query, visits[k])));
        assert(visits.contains(visits[k]));
    }
}

/// A score is the blend of the cosine of vector and query with the authority of the node, where
/// products do not depend on the order of their factors.
pub proof fn lemma_score_blends_cosine(
    v: IndexView,
    g: Ops<Scalar>,
    query: Seq<Scalar>,
    id: NodeId,
)
    requires
        swaps_factors(g),
    ensures
        v.score(g, query, id) == blend(
            g,
            v.config.centrality_weight,
            cosine(g, v.nodes[id].vector, query),
            (g.tanh)(v.nodes[id].centrality),
        ),
{
}

/// Whether zero and one do to numbers what they should: nothing is lost of one by taking zero from
/// it, of a number by multiplying it with one, and of a number by adding a multiple of zero.
pub open spec fn neutral(g: Ops<Scalar>) -> bool {
    &&& g.one == one()
    &&& (g.minus)(one(), zero()) == one()
    &&& forall|x: Scalar| !x.nan() ==> #[trigger] (g.times)(one(), x) == x
    &&& forall|x: Scalar, y: Scalar|
        !x.nan() && y.finite() ==> (#[trigger] (g.plus)(x, (g.times)(zero(), y))).key() == x.key()
            && !(g.plus)(x, (g.times)(zero(), y)).nan()
}

/// With weight zero a score is the cosine itself.
pub proof fn lemma_weight_zero_scores_cosine(
    v: IndexView,
    g: Ops<Scalar>,
    query: Seq<Scalar>,
    id: NodeId,
)
    requires
        neutral(g),
        swaps_factors(g),
        v.config.centrality_weight == zero(),
        !cosine(g, v.nodes[id].vector, query).nan(),
        (g.tanh)(v.nodes[id].centrality).finite(),
    ensures
        v.score(g, query, id).key() == cosine(g, v.nodes[id].vector, query).key(),
        !v.score(g, query, id).nan(),
{
    lemma_score_blends_cosine(v, g, query, id);
}

/// Whether one and zero do to numbers what they should where one stands first: taking one from one
/// leaves zero, nothing is lost of a number by multiplying it with one, nor by adding it to a
/// multiple of zero.
pub open spec fn whole(g: Ops<Scalar>) -> bool {
    &&& g.one == one()
    &&& (g.minus)(one(), one()) == zero()
    &&& forall|x: Scalar| !x.nan() ==> #[trigger] (g.times)(one(), x) == x
    &&& forall|x: Scalar, y: Scalar|
        x.finite() && !y.nan() ==> (#[trigger] (g.plus)((g.times)(zero(), x), y)).key() == y.key()
            && !(g.plus)((g.times)(zero(), x), y).nan()
}

/// With weight one a score is the authority of the node, whatever the query.
pub proof fn lemma_weight_one_scores_authority(
    v: IndexView,
    g: Ops<Scalar>,
    query: Seq<Scalar>,
    id: NodeId,
)
    requires
        whole(g),
        swaps_factors(g),
        v.config.centrality_weight == one(),
        cosine(g, v.nodes[id].vector, query).finite(),
        !(g.tanh)(v.nodes[id].centrality).nan(),
    ensures
        v.score(g, query, id).key() == (g.tanh)(v.nodes[id].centrality).key(),
        !v.score(g, query, id).nan(),
{
    lemma_score_blends_cosine(v, g, query, id);
}

/// Where the arithmetic is faithful, asking for fewer answers gives the first of those that asking
/// for more gives.
pub proof fn lemma_answer_prefix<A: Arithmetic>(
    v: IndexView,
    query: Seq<Scalar>,
    fewer: nat,
    more: nat,
    ar: &A,
    r: Seq<(NodeId, Scalar)>,
    s: Seq<(NodeId, Scalar)>,
)
    requires
        faithful(ar),
        fewer <= more,
        answers(v, query, fewer, ar, r),
        answers(v, query, more, ar, s),
    ensures
        r == first(s, fewer),
{
    lemma_found_prefix(v, ops_of(ar), query, fewer, more);
}

} // verus!
