//! What a search is sure to find.
use crate::arith::exact_ops;
use crate::arith::Arithmetic;
use crate::arith::Ops;
use crate::fingerprint::lemma_agreement_orders_by_distance;
use crate::fingerprint::lemma_distance_is_metric;
use crate::fingerprint::SimFingerprint;
use crate::hasher::fingerprint_of;
use crate::ids::ascending;
use crate::ids::increasing;
use crate::ids::lemma_ascending;
use crate::ids::lemma_ascending_len;
use crate::ids::lemma_push_contains;
use crate::ids::lemma_surviving_increasing;
use crate::ids::NodeId;
use crate::index::IndexView;
use crate::laws::node_wf;
use crate::ranking::ahead;
use crate::ranking::first;
use crate::ranking::lemma_ranked;
use crate::ranking::lemma_ranked_distinct;
use crate::ranking::lemma_slot_behind;
use crate::ranking::lemma_slot_between;
use crate::ranking::lemma_slot_range;
use crate::ranking::lemma_sorted_unique;
use crate::ranking::place;
use crate::ranking::ranked;
use crate::ranking::slot;
use crate::scalar::Scalar;
use crate::search::answers;
use crate::search::blend;
use crate::search::chosen_from;
use crate::search::lemma_visits;
use crate::search::REACH;
use crate::search::STEPS_PER_PLACE;
use crate::search_laws::lemma_blend;
use crate::search_laws::lemma_bucket_ids_live;
use crate::search_laws::lemma_entries;
use crate::search_laws::lemma_found_is_best;
use crate::search_laws::lemma_joined_all;
use crate::symmetry::lemma_dot_symmetric;
use crate::vector::dot;
use crate::vector::norm;
use crate::vector::ratio;
use crate::vector_laws::lemma_ratio_in_unit_interval;
use crate::vector_laws::lemma_ratio_with_itself;
use crate::vector_laws::true_root;
use vstd::arithmetic::power2::pow2;
use vstd::prelude::*;

verus! {

/// Those of `ids` whose nodes have the given fingerprint, in their order.
spec fn twins(v: IndexView, fp: SimFingerprint, ids: Seq<NodeId>) -> Seq<NodeId>
    decreases ids.len(),
{
    if ids.len() == 0 {
        Seq::empty()
    } else {
        let before = twins(v, fp, ids.drop_last());
        if v.nodes[ids.last()].fingerprint == fp {
            before.push(ids.last())
        } else {
            before
        }
    }
}

proof fn lemma_twins(v: IndexView, fp: SimFingerprint, ids: Seq<NodeId>)
    requires
        increasing(ids),
    ensures
        twins(v, fp, ids).len() <= ids.len(),
        increasing(twins(v, fp, ids)),
        forall|x: NodeId| #[trigger]
            twins(v, fp, ids).contains(x) <==> ids.contains(x) && v.nodes[x].fingerprint == fp,
    decreases ids.len(),
{
    if ids.len() > 0 {
        let front = ids.drop_last();
        let id = ids.last();
        let before = twins(v, fp, front);
        lemma_twins(v, fp, front);
        lemma_push_contains(front, id);
        lemma_push_contains(before, id);
        assert(ids =~= front.push(id));
        assert forall|i: int| 0 <= i < before.len() implies before[i] < id by {
            assert(before.contains(before[i]));
            let k = choose|k: int| 0 <= k < front.len() && front[k] == before[i];
            assert(ids[k] < ids[ids.len() - 1]);
        }
    }
}

/// Whether the frontier begins with the nodes of `lead`, each in full agreement with `fp`.
spec fn led_by(fp: SimFingerprint, frontier: Seq<(NodeId, Scalar)>, lead: Seq<NodeId>) -> bool {
    &&& lead.len() <= frontier.len()
    &&& forall|i: int|
        0 <= i < lead.len() ==> #[trigger] frontier[i] == (lead[i], fp.agreement(fp))
}

proof fn lemma_agreement_less(fp: SimFingerprint, other: SimFingerprint)
    requires
        other != fp,
    ensures
        fp.agreement(other).key() < fp.agreement(fp).key(),
{
    lemma_distance_is_metric(fp, fp, fp);
    lemma_distance_is_metric(fp, other, fp);
    lemma_agreement_orders_by_distance(fp, fp, other);
}

/// The frontier that a search starts with: the nodes that agree in full come first, oldest first.
proof fn lemma_seeds(v: IndexView, fp: SimFingerprint, ids: Seq<NodeId>, allowed: Set<NodeId>)
    requires
        increasing(ids),
        forall|id: NodeId| #[trigger] ids.contains(id) ==> allowed.contains(id),
    ensures
        ({
            let frontier = v.joined(fp, Seq::empty(), ids, allowed);
            let lead = twins(v, fp, ids);
            &&& led_by(fp, frontier, lead)
            &&& forall|i: int|
                lead.len() <= i < frontier.len() ==> (#[trigger] frontier[i]).1.key()
                    < fp.agreement(fp).key()
        }),
    decreases ids.len(),
{
    if ids.len() > 0 {
        let front = ids.drop_last();
        let id = ids.last();
        assert(ids =~= front.push(id));
        lemma_push_contains(front, id);
        assert forall|x: NodeId| #[trigger] front.contains(x) implies allowed.contains(x) by {
            assert(ids.contains(x));
        }
        lemma_seeds(v, fp, front, allowed);
        lemma_twins(v, fp, front);
        let before = v.joined(fp, Seq::empty(), front, allowed);
        let lead = twins(v, fp, front);
        let p = lead.len();
        assert(ids.contains(id));
        let c = (id, fp.agreement(v.nodes[id].fingerprint));
        if p > 0 {
            let last = lead[p - 1];
            assert(lead.contains(last));
            let k = choose|k: int| 0 <= k < front.len() && front[k] == last;
            assert(ids[k] < ids[ids.len() - 1]);
            assert(before[p - 1] == (last, fp.agreement(fp)));
        }
        let after = place(before, c);
        if v.nodes[id].fingerprint == fp {
            lemma_slot_between(before, c, p);
            assert(after == before.insert(p as int, c));
            assert(twins(v, fp, ids) == lead.push(id));
            assert forall|i: int| 0 <= i < p + 1 implies #[trigger] after[i] == (
                lead.push(id)[i],
                fp.agreement(fp),
            ) by {
                if i < p {
                    assert(after[i] == before[i]);
                }
            }
            assert forall|i: int| p + 1 <= i < after.len() implies (#[trigger] after[i]).1.key()
                < fp.agreement(fp).key() by {
                assert(after[i] == before[i - 1]);
            }
        } else {
            lemma_agreement_less(fp, v.nodes[id].fingerprint);
            lemma_slot_behind(before, c, p);
            let q = slot(before, c) as int;
            assert(after == before.insert(q, c));
            assert forall|i: int| 0 <= i < p implies #[trigger] after[i] == (
                lead[i],
                fp.agreement(fp),
            ) by {
                assert(after[i] == before[i]);
            }
            assert forall|i: int| p <= i < after.len() implies (#[trigger] after[i]).1.key()
                < fp.agreement(fp).key() by {
                if i < q {
                    assert(after[i] == before[i]);
                } else if i > q {
                    assert(after[i] == before[i - 1]);
                }
            }
        }
    }
}

/// What joins the frontier without agreeing in full takes no place from what does.
proof fn lemma_joined_keeps_lead(
    v: IndexView,
    fp: SimFingerprint,
    frontier: Seq<(NodeId, Scalar)>,
    ids: Seq<NodeId>,
    allowed: Set<NodeId>,
    lead: Seq<NodeId>,
)
    requires
        led_by(fp, frontier, lead),
        forall|x: NodeId| #[trigger]
            ids.contains(x) && allowed.contains(x) ==> v.nodes[x].fingerprint != fp,
    ensures
        led_by(fp, v.joined(fp, frontier, ids, allowed), lead),
    decreases ids.len(),
{
    if ids.len() > 0 {
        let front = ids.drop_last();
        let id = ids.last();
        assert(ids =~= front.push(id));
        lemma_push_contains(front, id);
        assert(ids.contains(id));
        assert forall|x: NodeId| #[trigger]
            front.contains(x) && allowed.contains(x) implies v.nodes[x].fingerprint != fp by {
            assert(ids.contains(x));
        }
        lemma_joined_keeps_lead(v, fp, frontier, front, allowed, lead);
        let before = v.joined(fp, frontier, front, allowed);
        if allowed.contains(id) {
            let c = (id, fp.agreement(v.nodes[id].fingerprint));
            lemma_agreement_less(fp, v.nodes[id].fingerprint);
            if lead.len() > 0 {
                assert(before[lead.len() - 1] == (lead[lead.len() - 1], fp.agreement(fp)));
            }
            lemma_slot_behind(before, c, lead.len());
            let after = v.joined(fp, frontier, ids, allowed);
            assert(after == before.insert(slot(before, c) as int, c));
            assert forall|i: int| 0 <= i < lead.len() implies #[trigger] after[i] == (
                lead[i],
                fp.agreement(fp),
            ) by {
                assert(after[i] == before[i]);
            }
        }
    }
}

/// A walk whose frontier is led by nodes in full agreement visits all of them.
proof fn lemma_lead_visited(
    v: IndexView,
    fp: SimFingerprint,
    all: Seq<NodeId>,
    done: nat,
    frontier: Seq<(NodeId, Scalar)>,
    budget: nat,
)
    requires
        v.wf(),
        increasing(all),
        done <= all.len() <= v.config.beam_width,
        forall|x: NodeId| #[trigger] all.contains(x) ==> v.live().contains(x),
        forall|x: NodeId, y: NodeId|
            #![trigger all.contains(x), v.live().contains(y)]
            all.contains(x) && v.live().contains(y) && v.nodes[y].fingerprint == fp && y < x
                ==> all.contains(y),
        led_by(fp, frontier, all.skip(done as int)),
        budget >= all.len() - done,
    ensures
        forall|i: int|
            done <= i < all.len() ==> v.walk(
                fp,
                frontier,
                all.take(done as int).to_set(),
                budget,
            ).contains(#[trigger] all[i]),
    decreases all.len() - done,
{
    if done < all.len() {
        let id = all[done as int];
        let visited = all.take(done as int).to_set();
        let lead = all.skip(done as int);
        let rest = frontier.drop_first();
        assert(frontier[0] == (lead[0], fp.agreement(fp)));
        assert(all.contains(id));
        assert(!visited.contains(id)) by {
            if all.take(done as int).contains(id) {
                let k = choose|k: int|
                    0 <= k < all.take(done as int).len() && all.take(done as int)[k] == id;
                assert(all[k] < all[done as int]);
            }
        }
        let seen = visited.insert(id);
        let next = all.skip(done as int + 1);
        assert(led_by(fp, rest, next)) by {
            assert forall|i: int| 0 <= i < next.len() implies #[trigger] rest[i] == (
                next[i],
                fp.agreement(fp),
            ) by {
                assert(rest[i] == frontier[i + 1]);
                assert(lead[i + 1] == next[i]);
            }
        }
        let edges = v.nodes[id].edges;
        let allowed = v.live().difference(seen);
        assert(node_wf(v, id));
        assert forall|x: NodeId| #[trigger]
            edges.contains(x) && allowed.contains(x) implies v.nodes[x].fingerprint != fp by {
            if v.nodes[x].fingerprint == fp {
                assert(v.live().contains(x));
                assert(all.contains(x));
                let k = choose|k: int| 0 <= k < all.len() && all[k] == x;
                assert(k < done) by {
                    if k > done {
                        assert(all[done as int] < all[k]);
                    }
                }
                assert(all.take(done as int)[k] == x);
                assert(all.take(done as int).contains(x));
            }
        }
        lemma_joined_keeps_lead(v, fp, rest, edges, allowed, next);
        let after = v.expanded(fp, rest, id, seen);
        assert(led_by(fp, after, next));
        lemma_push_contains(all.take(done as int), id);
        assert(all.take(done as int + 1) =~= all.take(done as int).push(id));
        assert(all.take(done as int + 1).to_set() =~= seen);
        lemma_lead_visited(v, fp, all, done + 1, after, (budget - 1) as nat);
        let tail = v.walk(fp, after, seen, (budget - 1) as nat);
        let whole = v.walk(fp, frontier, visited, budget);
        assert(whole == seq![id] + tail);
        assert forall|i: int| done <= i < all.len() implies whole.contains(#[trigger] all[i]) by {
            if i == done {
                assert(whole[0] == id);
            } else {
                assert(tail.contains(all[i]));
                let k = choose|k: int| 0 <= k < tail.len() && tail[k] == all[i];
                assert(whole[k + 1] == all[i]);
            }
        }
    }
}

/// A search for the fingerprint of a live node visits that node, if it is among those that the
/// search enters the graph by.
pub proof fn lemma_entered_visited(v: IndexView, fp: SimFingerprint, id: NodeId)
    requires
        v.wf(),
        v.live().contains(id),
        v.nodes[id].fingerprint == fp,
        first(v.bucket_ids(fp.bucket()), v.config.beam_width as nat).contains(id),
    ensures
        v.visits(fp).contains(id),
{
    let key = fp.bucket();
    let members = v.bucket_ids(key);
    let ids = first(members, v.config.beam_width as nat);
    lemma_bucket_ids_live(v, key);
    assert(v.buckets.dom().contains(key));
    lemma_surviving_increasing(v.buckets[key], v.deleted);
    assert(members.len() > 0);
    assert(v.entries(key) == members);
    assert(increasing(ids));
    assert forall|x: NodeId| #[trigger] ids.contains(x) implies v.live().contains(x) by {
        let k = choose|k: int| 0 <= k < ids.len() && ids[k] == x;
        assert(members[k] == x);
        assert(members.contains(x));
    }
    let all = twins(v, fp, ids);
    lemma_twins(v, fp, ids);
    lemma_seeds(v, fp, ids, v.live());
    assert forall|x: NodeId, y: NodeId|
        #![trigger all.contains(x), v.live().contains(y)]
        all.contains(x) && v.live().contains(y) && v.nodes[y].fingerprint == fp && y
            < x implies all.contains(y) by {
        assert(ids.contains(x));
        let i = choose|i: int| 0 <= i < ids.len() && ids[i] == x;
        assert(members.contains(y));
        let j = choose|j: int| 0 <= j < members.len() && members[j] == y;
        if i < j {
            assert(members[i] < members[j]);
        }
        assert(ids[j] == y);
        assert(ids.contains(y));
    }
    assert(all.skip(0) =~= all);
    assert(all.take(0).to_set() =~= Set::empty());
    lemma_lead_visited(
        v,
        fp,
        all,
        0,
        v.seeded(fp),
        (v.config.beam_width * STEPS_PER_PLACE) as nat,
    );
    assert(all.contains(id));
    let k = choose|k: int| 0 <= k < all.len() && all[k] == id;
    assert(v.visits(fp).contains(all[k]));
}

/// A bucket has no more live nodes than the index: a beam with a place for each of those has one
/// for each node of a bucket.
pub proof fn lemma_bucket_fits(v: IndexView, key: u16)
    requires
        v.wf(),
    ensures
        v.bucket_ids(key).len() <= v.live().len(),
{
    lemma_bucket_ids_live(v, key);
    lemma_bucket_ids_distinct(v, key);
    lemma_distinct_within(v.bucket_ids(key), v.live());
}

/// A search for the fingerprint of a live node visits that node, if the beam has a place for every
/// live node of its bucket.
pub proof fn lemma_stored_visited(v: IndexView, fp: SimFingerprint, id: NodeId)
    requires
        v.wf(),
        v.live().contains(id),
        v.nodes[id].fingerprint == fp,
        v.bucket_ids(fp.bucket()).len() <= v.config.beam_width,
    ensures
        v.visits(fp).contains(id),
{
    lemma_bucket_ids_live(v, fp.bucket());
    assert(v.bucket_ids(fp.bucket()).contains(id));
    lemma_entered_visited(v, fp, id);
}

/// A stored vector that is searched for is found: it is in the answer, or the answer is full of
/// nodes that score no less. In either case nothing outscores the best answer, this vector
/// included.
pub proof fn lemma_stored_found(v: IndexView, g: Ops<Scalar>, id: NodeId, top_k: nat)
    requires
        v.wf(),
        v.fingerprints_true(g),
        v.live().contains(id),
        top_k > 0,
        v.bucket_ids(v.nodes[id].fingerprint.bucket()).len() <= v.config.beam_width,
    ensures
        ({
            let q = v.nodes[id].vector;
            let r = v.found(g, q, top_k);
            let s = v.score(g, q, id);
            &&& r.len() > 0
            &&& s.key() <= r[0].1.key()
            &&& r.contains((id, s)) || (r.len() == top_k && forall|i: int|
                0 <= i < r.len() ==> s.key() <= (#[trigger] r[i]).1.key())
        }),
{
    let q = v.nodes[id].vector;
    let fp = v.nodes[id].fingerprint;
    let r = v.found(g, q, top_k);
    let s = v.score(g, q, id);
    assert(v.nodes.dom().contains(id));
    assert(fp == fingerprint_of(g, v.planes, q));
    lemma_stored_visited(v, fp, id);
    let visits = v.visits(fp);
    let scored = visits.map_values(|x: NodeId| (x, v.score(g, q, x)));
    let k = choose|k: int| 0 <= k < visits.len() && visits[k] == id;
    assert(scored[k] == (id, s));
    assert(scored.contains((id, s)));
    lemma_ranked(scored);
    let all = ranked(scored);
    assert(all.contains((id, s)));
    let j = choose|j: int| 0 <= j < all.len() && all[j] == (id, s);
    assert(r == first(all, top_k));
    assert(r[0] == all[0]);
    if j > 0 {
        assert(!ahead(all[j], all[0]));
    }
    if !r.contains((id, s)) {
        if all.len() <= top_k {
            assert(r[j] == (id, s));
        }
        assert forall|i: int| 0 <= i < r.len() implies s.key() <= (#[trigger] r[i]).1.key() by {
            assert(r.contains(r[i]));
            lemma_found_is_best(v, g, q, top_k, r[i], id);
        }
    }
}

/// Whether every one of the nodes has a place on the frontier.
spec fn holds_all(frontier: Seq<(NodeId, Scalar)>, nodes: Set<NodeId>) -> bool {
    forall|x: NodeId| #[trigger]
        nodes.contains(x) ==> exists|i: int| 0 <= i < frontier.len() && (#[trigger] frontier[i]).0 == x
}

proof fn lemma_place_keeps(
    frontier: Seq<(NodeId, Scalar)>,
    c: (NodeId, Scalar),
    nodes: Set<NodeId>,
)
    requires
        holds_all(frontier, nodes),
    ensures
        holds_all(place(frontier, c), nodes),
        holds_all(place(frontier, c), set![c.0]),
        place(frontier, c).len() == frontier.len() + 1,
{
    lemma_slot_range(frontier, c);
    let p = slot(frontier, c) as int;
    let after = place(frontier, c);
    assert forall|x: NodeId| #[trigger] nodes.contains(x) implies exists|i: int|
        0 <= i < after.len() && (#[trigger] after[i]).0 == x by {
        let i = choose|i: int| 0 <= i < frontier.len() && (#[trigger] frontier[i]).0 == x;
        if i < p {
            assert(after[i].0 == x);
        } else {
            assert(after[i + 1].0 == x);
        }
    }
    assert(after[p].0 == c.0);
}

/// Joining drops nothing from the frontier, and adds no more than there are nodes allowed on it.
proof fn lemma_joined_keeps(
    v: IndexView,
    fp: SimFingerprint,
    frontier: Seq<(NodeId, Scalar)>,
    ids: Seq<NodeId>,
    allowed: Set<NodeId>,
    nodes: Set<NodeId>,
)
    requires
        ids.no_duplicates(),
        holds_all(frontier, nodes),
        forall|i: int| 0 <= i < frontier.len() ==> v.live().contains((#[trigger] frontier[i]).0),
        allowed.subset_of(v.live()),
    ensures
        ({
            let after = v.joined(fp, frontier, ids, allowed);
            &&& holds_all(after, nodes)
            &&& holds_all(after, ids.to_set().intersect(allowed))
            &&& after.len() == frontier.len() + ids.to_set().intersect(allowed).len()
            &&& forall|i: int| 0 <= i < after.len() ==> v.live().contains((#[trigger] after[i]).0)
        }),
    decreases ids.len(),
{
    lemma_ascending_len(ids.to_set().intersect(allowed));
    if ids.len() == 0 {
        assert(ids.to_set().intersect(allowed) =~= Set::empty());
    } else {
        let front = ids.drop_last();
        let id = ids.last();
        let before = v.joined(fp, frontier, front, allowed);
        let after = v.joined(fp, frontier, ids, allowed);
        let came = front.to_set().intersect(allowed);
        lemma_joined_keeps(v, fp, frontier, front, allowed, nodes);
        lemma_ascending_len(came);
        lemma_push_contains(front, id);
        assert(ids =~= front.push(id));
        assert(!front.contains(id)) by {
            if front.contains(id) {
                let k = choose|k: int| 0 <= k < front.len() && front[k] == id;
                assert(ids[k] == ids[ids.len() - 1]);
            }
        }
        if allowed.contains(id) {
            let c = (id, fp.agreement(v.nodes[id].fingerprint));
            lemma_place_keeps(before, c, nodes);
            lemma_place_keeps(before, c, came);
            assert(ids.to_set().intersect(allowed) =~= came.insert(id));
            assert forall|x: NodeId| #[trigger] came.insert(id).contains(x) implies exists|i: int|
                0 <= i < after.len() && (#[trigger] after[i]).0 == x by {
                if x == id {
                    assert(set![id].contains(x));
                } else {
                    assert(came.contains(x));
                }
            }
            lemma_slot_range(before, c);
            let p = slot(before, c) as int;
            assert(after == before.insert(p, c));
            assert forall|i: int| 0 <= i < after.len() implies v.live().contains(
                (#[trigger] after[i]).0,
            ) by {
                if i < p {
                    assert(after[i] == before[i]);
                } else if i > p {
                    assert(after[i] == before[i - 1]);
                }
            }
        } else {
            assert(ids.to_set().intersect(allowed) =~= came);
        }
    }
}

/// A walk with room in its beam for all that can still join visits everything on its frontier, and
/// with every node that it visits everything live that the node links to.
proof fn lemma_wide_walk(
    v: IndexView,
    fp: SimFingerprint,
    frontier: Seq<(NodeId, Scalar)>,
    visited: Set<NodeId>,
    budget: nat,
)
    requires
        v.wf(),
        forall|i: int| 0 <= i < frontier.len() ==> v.live().contains((#[trigger] frontier[i]).0),
        budget >= v.live().difference(visited).len(),
        ({
            let left = v.live().difference(visited).len();
            2 * frontier.len() + left * (left - 1) <= 2 * v.config.beam_width
        }),
    ensures
        ({
            let order = v.walk(fp, frontier, visited, budget);
            &&& forall|i: int|
                0 <= i < frontier.len() && !visited.contains((#[trigger] frontier[i]).0)
                    ==> order.contains(frontier[i].0)
            &&& forall|x: NodeId, y: NodeId|
                #![trigger order.contains(x), v.nodes[x].edges.contains(y)]
                order.contains(x) && v.nodes[x].edges.contains(y) && v.live().contains(y)
                    && !visited.contains(y) ==> order.contains(y)
        }),
    decreases budget, frontier.len(),
{
    let waiting = v.live().difference(visited);
    lemma_ascending_len(waiting);
    if frontier.len() == 0 {
        assert(v.walk(fp, frontier, visited, budget) == Seq::<NodeId>::empty());
    } else {
        let id = frontier[0].0;
        let rest = frontier.drop_first();
        let seen = visited.insert(id);
        let after = v.live().difference(seen);
        let whole = v.walk(fp, frontier, visited, budget);
        assert forall|i: int| 0 <= i < rest.len() implies v.live().contains(
            (#[trigger] rest[i]).0,
        ) by {
            assert(rest[i] == frontier[i + 1]);
        }
        if visited.contains(id) {
            lemma_wide_walk(v, fp, rest, visited, budget);
            assert(whole == v.walk(fp, rest, visited, budget));
            assert forall|i: int|
                0 <= i < frontier.len() && !visited.contains(
                    (#[trigger] frontier[i]).0,
                ) implies whole.contains(frontier[i].0) by {
                assert(rest[i - 1] == frontier[i]);
            }
        } else {
            assert(v.live().contains(frontier[0].0));
            assert(waiting.contains(id));
            assert(after =~= waiting.remove(id));
            let left = waiting.len();
            assert(node_wf(v, id));
            let edges = v.nodes[id].edges;
            let held = rest.map_values(|c: (NodeId, Scalar)| c.0).to_set();
            assert(holds_all(rest, held)) by {
                let names = rest.map_values(|c: (NodeId, Scalar)| c.0);
                assert forall|x: NodeId| #[trigger] held.contains(x) implies exists|i: int|
                    0 <= i < rest.len() && (#[trigger] rest[i]).0 == x by {
                    let i = choose|i: int| 0 <= i < names.len() && names[i] == x;
                    assert(rest[i].0 == x);
                }
            }
            lemma_joined_keeps(v, fp, rest, edges, after, held);
            let joined = v.joined(fp, rest, edges, after);
            let came = edges.to_set().intersect(after);
            lemma_ascending_len(after);
            vstd::set_lib::lemma_len_subset(came, after);
            let m = left - 1;
            assert((m + 1) * m == m * (m - 1) + 2 * m) by (nonlinear_arith);
            assert(m * (m - 1) >= 0) by (nonlinear_arith)
                requires
                    m >= 0,
            ;
            assert(2 * joined.len() + m * (m - 1) <= 2 * v.config.beam_width);
            assert(v.expanded(fp, rest, id, seen) == joined);
            lemma_wide_walk(v, fp, joined, seen, (budget - 1) as nat);
            let tail = v.walk(fp, joined, seen, (budget - 1) as nat);
            assert(whole == seq![id] + tail);
            assert(whole[0] == id);
            assert forall|x: NodeId| #[trigger] tail.contains(x) implies whole.contains(x) by {
                let k = choose|k: int| 0 <= k < tail.len() && tail[k] == x;
                assert(whole[k + 1] == x);
            }
            assert forall|i: int|
                0 <= i < frontier.len() && !visited.contains(
                    (#[trigger] frontier[i]).0,
                ) implies whole.contains(frontier[i].0) by {
                if frontier[i].0 != id {
                    let x = frontier[i].0;
                    assert(rest[i - 1].0 == x);
                    assert(rest.map_values(|c: (NodeId, Scalar)| c.0)[i - 1] == x);
                    assert(held.contains(x));
                    let j = choose|j: int| 0 <= j < joined.len() && (#[trigger] joined[j]).0 == x;
                    assert(tail.contains(joined[j].0));
                }
            }
            assert forall|x: NodeId, y: NodeId|
                #![trigger whole.contains(x), v.nodes[x].edges.contains(y)]
                whole.contains(x) && v.nodes[x].edges.contains(y) && v.live().contains(y)
                    && !visited.contains(y) implies whole.contains(y) by {
                if y != id {
                    if x == id {
                        assert(came.contains(y));
                        let j = choose|j: int|
                            0 <= j < joined.len() && (#[trigger] joined[j]).0 == y;
                        assert(tail.contains(joined[j].0));
                    } else {
                        let k = choose|k: int| 0 <= k < whole.len() && whole[k] == x;
                        assert(tail[k - 1] == x);
                        assert(tail.contains(x));
                        assert(tail.contains(y));
                    }
                }
            }
        }
    }
}

proof fn lemma_distinct_within(s: Seq<NodeId>, whole: Set<NodeId>)
    requires
        s.no_duplicates(),
        forall|x: NodeId| #[trigger] s.contains(x) ==> whole.contains(x),
    ensures
        s.len() <= whole.len(),
{
    s.unique_seq_to_set();
    lemma_ascending_len(whole);
    assert(s.to_set().subset_of(whole));
    vstd::set_lib::lemma_len_subset(s.to_set(), whole);
}

proof fn lemma_bucket_ids_distinct(v: IndexView, key: u16)
    requires
        v.wf(),
    ensures
        increasing(v.bucket_ids(key)),
        v.bucket_ids(key).no_duplicates(),
{
    if v.buckets.dom().contains(key) {
        lemma_surviving_increasing(v.buckets[key], v.deleted);
    }
}

proof fn lemma_rings_distinct(v: IndexView, key: u16, delta: u16)
    requires
        v.wf(),
        1 <= delta <= REACH + 1,
    ensures
        v.rings_from(key, delta).no_duplicates(),
    decreases REACH + 1 - delta,
{
    if delta <= REACH {
        let up = key.wrapping_add(delta);
        let down = key.wrapping_sub(delta);
        let a = v.bucket_ids(up);
        let b = v.bucket_ids(down);
        lemma_bucket_ids_distinct(v, up);
        lemma_bucket_ids_distinct(v, down);
        lemma_bucket_ids_live(v, up);
        lemma_bucket_ids_live(v, down);
        assert(up != down);
        let ring = v.ring(key, delta);
        assert forall|i: int, j: int| 0 <= i < j < ring.len() implies ring[i] != ring[j] by {
            if i < a.len() && j >= a.len() {
                assert(a.contains(ring[i]));
                assert(b[j - a.len()] == ring[j]);
                assert(b.contains(ring[j]));
            } else if i >= a.len() {
                assert(b[i - a.len()] == ring[i]);
                assert(b[j - a.len()] == ring[j]);
            }
        }
        if ring.len() == 0 {
            lemma_rings_distinct(v, key, (delta + 1) as u16);
        }
    }
}

proof fn lemma_entries_distinct(v: IndexView, key: u16)
    requires
        v.wf(),
    ensures
        v.entries(key).no_duplicates(),
        v.entries(key).len() <= v.live().len(),
{
    lemma_bucket_ids_distinct(v, key);
    lemma_rings_distinct(v, key, 1);
    lemma_entries(v, key);
    lemma_distinct_within(v.entries(key), v.live());
}

/// A wide enough beam loses nothing: where it has a place for everything that can ever join, a
/// search visits every node that it enters the graph by, and with every node that it visits every
/// live node that one links to.
pub proof fn lemma_wide_reach(v: IndexView, fp: SimFingerprint)
    requires
        v.wf(),
        v.live().len() * (v.live().len() + 1) <= 2 * v.config.beam_width,
    ensures
        forall|x: NodeId| #[trigger]
            v.entries(fp.bucket()).contains(x) ==> v.visits(fp).contains(x),
        forall|x: NodeId, y: NodeId|
            #![trigger v.visits(fp).contains(x), v.nodes[x].edges.contains(y)]
            v.visits(fp).contains(x) && v.nodes[x].edges.contains(y) && v.live().contains(y)
                ==> v.visits(fp).contains(y),
{
    let key = fp.bucket();
    let live = v.live();
    let n = live.len();
    let beam = v.config.beam_width as nat;
    let ids = v.entries(key);
    lemma_entries(v, key);
    lemma_entries_distinct(v, key);
    lemma_ascending_len(live);
    assert(n <= beam) by (nonlinear_arith)
        requires
            n >= 0,
            n * (n + 1) <= 2 * beam,
    ;
    assert(first(ids, beam) == ids);
    let frontier = v.seeded(fp);
    lemma_joined_keeps(v, fp, Seq::empty(), ids, live, Set::empty());
    lemma_joined_all(v, fp, Seq::empty(), ids, live);
    assert(ids.to_set().intersect(live) =~= ids.to_set());
    assert(live.difference(Set::empty()) =~= live);
    assert(n * (n + 1) == 2 * n + n * (n - 1)) by (nonlinear_arith);
    let budget = (v.config.beam_width * STEPS_PER_PLACE) as nat;
    lemma_wide_walk(v, fp, frontier, Set::empty(), budget);
    assert forall|x: NodeId| #[trigger] ids.contains(x) implies v.visits(fp).contains(x) by {
        assert(ids.to_set().contains(x));
        let i = choose|i: int| 0 <= i < frontier.len() && (#[trigger] frontier[i]).0 == x;
        assert(v.visits(fp).contains(frontier[i].0));
    }
}

proof fn lemma_all_visited(v: IndexView, fp: SimFingerprint)
    requires
        forall|id: NodeId| #[trigger] v.live().contains(id) ==> v.visits(fp).contains(id),
    ensures
        v.visits(fp).len() == v.live().len(),
        v.visits(fp).to_set() == v.live(),
{
    lemma_visits(v, fp);
    assert(v.visits(fp).to_set() =~= v.live());
    v.visits(fp).unique_seq_to_set();
}

/// Where all live nodes stand in the bucket of the query and the beam is wide enough, a search
/// visits every live node.
pub proof fn lemma_wide_beam(v: IndexView, fp: SimFingerprint)
    requires
        v.wf(),
        forall|id: NodeId| #[trigger]
            v.live().contains(id) ==> v.nodes[id].fingerprint.bucket() == fp.bucket(),
        v.live().len() * (v.live().len() + 1) <= 2 * v.config.beam_width,
    ensures
        forall|id: NodeId| #[trigger] v.live().contains(id) ==> v.visits(fp).contains(id),
        v.visits(fp).len() == v.live().len(),
        v.visits(fp).to_set() == v.live(),
{
    lemma_entries(v, fp.bucket());
    lemma_wide_reach(v, fp);
    assert forall|id: NodeId| #[trigger] v.live().contains(id) implies v.visits(fp).contains(id) by {
        assert(v.entries(fp.bucket()).contains(id));
    }
    lemma_all_visited(v, fp);
}

/// A search that enters by a node which links to every other live node visits them all, with a
/// wide enough beam. Such a node is the newest one as long as no more nodes are stored before it
/// than it may link to.
pub proof fn lemma_wide_beam_from_hub(v: IndexView, fp: SimFingerprint, hub: NodeId)
    requires
        v.wf(),
        v.entries(fp.bucket()).contains(hub),
        forall|id: NodeId| #[trigger]
            v.live().contains(id) && id != hub ==> v.nodes[hub].edges.contains(id),
        v.live().len() * (v.live().len() + 1) <= 2 * v.config.beam_width,
    ensures
        forall|id: NodeId| #[trigger] v.live().contains(id) ==> v.visits(fp).contains(id),
        v.visits(fp).len() == v.live().len(),
        v.visits(fp).to_set() == v.live(),
{
    lemma_wide_reach(v, fp);
    assert(v.visits(fp).contains(hub));
    lemma_all_visited(v, fp);
}

/// Where a fingerprint has no more than 112 bits there is one bucket: its sixteen highest bits are
/// not set.
pub proof fn lemma_one_bucket(v: IndexView, fp: SimFingerprint)
    requires
        v.wf(),
        v.planes.len() <= 112,
        fp.0 < pow2(v.planes.len()),
    ensures
        fp.bucket() == 0,
        forall|id: NodeId| #[trigger]
            v.nodes.dom().contains(id) ==> v.nodes[id].fingerprint.bucket() == fp.bucket(),
{
    vstd::arithmetic::power2::lemma2_to64();
    vstd::arithmetic::power2::lemma_pow2_adds(64, 32);
    vstd::arithmetic::power2::lemma_pow2_adds(96, 16);
    if v.planes.len() < 112 {
        vstd::arithmetic::power2::lemma_pow2_strictly_increases(v.planes.len(), 112);
    }
    assert forall|id: NodeId| #[trigger]
        v.nodes.dom().contains(id) implies v.nodes[id].fingerprint.bucket() == fp.bucket() by {
        assert(node_wf(v, id));
    }
}

/// With one bucket and a wide enough beam a search gives what looking at every live node would
/// give: the best of all of them, in order.
pub proof fn lemma_exhaustive(v: IndexView, g: Ops<Scalar>, query: Seq<Scalar>, top_k: nat)
    requires
        v.wf(),
        v.planes.len() <= 112,
        v.live().len() * (v.live().len() + 1) <= 2 * v.config.beam_width,
    ensures
        v.found(g, query, top_k) == first(
            ranked(ascending(v.live()).map_values(|id: NodeId| (id, v.score(g, query, id)))),
            top_k,
        ),
        v.found(g, query, top_k).len() == if v.live().len() <= top_k {
            v.live().len()
        } else {
            top_k
        },
        forall|x: (NodeId, Scalar), y: NodeId|
            #![trigger v.found(g, query, top_k).contains(x), v.live().contains(y)]
            v.found(g, query, top_k).contains(x) && v.live().contains(y) && !v.found(
                g,
                query,
                top_k,
            ).contains((y, v.score(g, query, y))) ==> v.score(g, query, y).key() <= x.1.key(),
{
    let fp = fingerprint_of(g, v.planes, query);
    crate::hasher::lemma_fingerprint_bits(g, v.planes, query, 0);
    lemma_one_bucket(v, fp);
    lemma_wide_beam(v, fp);
    lemma_visits(v, fp);
    lemma_ascending(v.live());
    let f = |id: NodeId| (id, v.score(g, query, id));
    let visits = v.visits(fp);
    let ids = ascending(v.live());
    let a = visits.map_values(f);
    let b = ids.map_values(f);
    lemma_ranked(a);
    lemma_ranked(b);
    lemma_ranked_distinct(a);
    lemma_ranked_distinct(b);
    assert forall|x: (NodeId, Scalar)| #[trigger]
        ranked(a).contains(x) <==> ranked(b).contains(x) by {
        if a.contains(x) {
            let k = choose|k: int| 0 <= k < a.len() && a[k] == x;
            assert(visits.contains(visits[k]));
            assert(ids.contains(visits[k]));
            let m = choose|m: int| 0 <= m < ids.len() && ids[m] == visits[k];
            assert(b[m] == x);
        }
        if b.contains(x) {
            let k = choose|k: int| 0 <= k < b.len() && b[k] == x;
            assert(ids.contains(ids[k]));
            assert(visits.contains(ids[k]));
            let m = choose|m: int| 0 <= m < visits.len() && visits[m] == ids[k];
            assert(a[m] == x);
        }
    }
    lemma_sorted_unique(ranked(a), ranked(b));
    assert forall|x: (NodeId, Scalar), y: NodeId|
        #![trigger v.found(g, query, top_k).contains(x), v.live().contains(y)]
        v.found(g, query, top_k).contains(x) && v.live().contains(y) && !v.found(
            g,
            query,
            top_k,
        ).contains((y, v.score(g, query, y))) implies v.score(g, query, y).key() <= x.1.key() by {
        assert(visits.contains(y));
        lemma_found_is_best(v, g, query, top_k, x, y);
    }
}

/// With one bucket and a wide enough beam there are as many answers as asked for, or as many as
/// there are live nodes, however the arithmetic rounds.
pub proof fn lemma_exhaustive_count<A: Arithmetic>(
    v: IndexView,
    query: Seq<Scalar>,
    top_k: nat,
    ar: &A,
    r: Seq<(NodeId, Scalar)>,
)
    requires
        v.wf(),
        v.planes.len() <= 112,
        v.live().len() * (v.live().len() + 1) <= 2 * v.config.beam_width,
        answers(v, query, top_k, ar, r),
    ensures
        r.len() == if v.live().len() <= top_k {
            v.live().len()
        } else {
            top_k
        },
{
    let fp = choose|fp: SimFingerprint|
        fp.0 < pow2(v.planes.len()) && chosen_from(#[trigger] v.visits(fp), top_k, r);
    lemma_one_bucket(v, fp);
    lemma_wide_beam(v, fp);
}

/// Where nothing is rounded and the weight of centrality is zero, a stored vector that is searched
/// for scores one, and no other vector scores more.
pub proof fn lemma_own_score(
    g: Ops<real>,
    query: Seq<real>,
    other: Seq<real>,
    authority: real,
    other_authority: real,
)
    requires
        exact_ops(g),
        true_root(g),
        query.len() == other.len(),
        norm(g, query) > 0 as real,
        norm(g, other) > 0 as real,
    ensures
        blend(
            g,
            0 as real,
            ratio(g, dot(g, query, query), norm(g, query), norm(g, query)),
            authority,
        ) == 1 as real,
        blend(
            g,
            0 as real,
            ratio(g, dot(g, other, query), norm(g, query), norm(g, other)),
            other_authority,
        ) <= 1 as real,
{
    let own = ratio(g, dot(g, query, query), norm(g, query), norm(g, query));
    let its = ratio(g, dot(g, other, query), norm(g, query), norm(g, other));
    lemma_ratio_with_itself(g, query);
    lemma_blend(g, 0 as real, own, authority);
    assert forall|x: real, y: real| #[trigger] (g.times)(x, y) == (g.times)(y, x) by {
        assert(x * y == y * x) by (nonlinear_arith);
    }
    lemma_dot_symmetric(g, other, query);
    lemma_ratio_in_unit_interval(g, query, other);
    lemma_blend(g, 0 as real, its, other_authority);
}

} // verus!
