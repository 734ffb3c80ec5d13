//! What a search visits, in what order, and when it stops.
use crate::fingerprint::lemma_agreement_orders_by_distance;
use crate::fingerprint::SimFingerprint;
use crate::ids::lemma_ascending;
use crate::ids::lemma_surviving_increasing;
use crate::ids::NodeId;
use crate::index::IndexView;
use crate::ranking::ahead;
use crate::ranking::first;
use crate::ranking::lemma_slot_range;
use crate::ranking::place;
use crate::ranking::slot;
use crate::ranking::sorted;
use crate::scalar::Scalar;
use crate::search_laws::lemma_bucket_ids_live;
use crate::search_laws::lemma_joined_sorted;
use vstd::multiset::Multiset;
use vstd::prelude::*;

verus! {

/// Whether there is such a node and it is not marked as deleted.
pub open spec fn there(v: IndexView, x: NodeId) -> bool {
    v.nodes.dom().contains(x) && !v.deleted.contains(x)
}

/// Whether `x` comes before `y` in a search: its fingerprint differs from that of the query in
/// fewer bits, or in as many and it is older.
pub open spec fn closer(v: IndexView, fp: SimFingerprint, x: NodeId, y: NodeId) -> bool {
    let (dx, dy) = (fp.distance(v.nodes[x].fingerprint), fp.distance(v.nodes[y].fingerprint));
    dx < dy || (dx == dy && x < y)
}

/// Whether `some` are the best of `all`: as many as fit, and none that was dropped is closer than
/// one that was kept.
pub open spec fn best_of(
    v: IndexView,
    fp: SimFingerprint,
    all: Multiset<NodeId>,
    some: Multiset<NodeId>,
) -> bool {
    &&& forall|x: NodeId| #[trigger] some.count(x) <= all.count(x)
    &&& some.len() == if all.len() <= v.config.beam_width {
        all.len()
    } else {
        v.config.beam_width as nat
    }
    &&& forall|x: NodeId, y: NodeId|
        #![trigger some.count(x), all.count(y)]
        some.count(x) > 0 && all.count(y) > some.count(y) ==> !closer(v, fp, y, x)
}

/// Whether `waiting` is what waits once `id` was taken from `before` and visited: what was passed
/// over to get to it is gone, and those that it links to have joined, unless they are marked or were
/// visited.
pub open spec fn joined_by_links(
    v: IndexView,
    fp: SimFingerprint,
    visited: Seq<NodeId>,
    id: NodeId,
    before: Multiset<NodeId>,
    waiting: Multiset<NodeId>,
) -> bool {
    forall|x: NodeId| #[trigger]
        waiting.count(x) == (if closer(v, fp, x, id) {
            0
        } else if x == id {
            before.count(x) - 1
        } else {
            before.count(x) as int
        }) + (if there(v, x) && !visited.contains(x) && x != id {
            v.nodes[id].edges.to_multiset().count(x)
        } else {
            0
        })
}

/// Whether a search that has visited `visited` and in which `before` wait rightly visits `id`
/// next, after which `after` wait: of those that wait and were not visited it is the closest, and
/// once the nodes that it links to have joined, the best that fit into the beam are kept.
pub open spec fn steps_to(
    v: IndexView,
    fp: SimFingerprint,
    visited: Seq<NodeId>,
    id: NodeId,
    before: Multiset<NodeId>,
    after: Multiset<NodeId>,
) -> bool {
    &&& there(v, id)
    &&& before.count(id) > 0
    &&& !visited.contains(id)
    &&& forall|x: NodeId| #[trigger]
        before.count(x) > 0 && !visited.contains(x) ==> !closer(v, fp, x, id)
    &&& exists|waiting: Multiset<NodeId>|
        joined_by_links(v, fp, visited, id, before, waiting) && #[trigger] best_of(
            v,
            fp,
            waiting,
            after,
        )
}

/// Whether a search rightly goes on from `done` with `order`, where `queues` say what waits before
/// each step and at the end. It ends when eight nodes were visited for each place in the beam, or
/// when nothing waits that was not visited.
pub open spec fn explores(
    v: IndexView,
    fp: SimFingerprint,
    done: Seq<NodeId>,
    order: Seq<NodeId>,
    queues: Seq<Multiset<NodeId>>,
) -> bool {
    &&& queues.len() == order.len() + 1
    &&& forall|i: int|
        0 <= i < order.len() ==> steps_to(
            v,
            fp,
            done + order.take(i),
            #[trigger] order[i],
            queues[i],
            queues[i + 1],
        )
    &&& done.len() + order.len() == 8 * v.config.beam_width || forall|x: NodeId| #[trigger]
        queues[order.len() as int].count(x) > 0 ==> (done + order).contains(x)
}

/// The sixteen highest bits of a fingerprint.
pub open spec fn high_bits(fp: SimFingerprint) -> int {
    fp.0 as int / 0x1_0000_0000_0000_0000_0000_0000_0000
}

/// Whether there is a node that is not marked with the given sixteen highest bits.
pub open spec fn occupied(v: IndexView, key: int) -> bool {
    exists|x: NodeId| #[trigger] there(v, x) && high_bits(v.nodes[x].fingerprint) == key
}

/// Whether the sequence lists the nodes that are not marked with the given sixteen highest bits,
/// oldest first.
pub open spec fn lists_bucket(v: IndexView, key: int, s: Seq<NodeId>) -> bool {
    &&& forall|i: int, j: int| 0 <= i < j < s.len() ==> s[i] < s[j]
    &&& forall|x: NodeId| #[trigger]
        s.contains(x) <==> there(v, x) && high_bits(v.nodes[x].fingerprint) == key
}

/// Whether no node is in a bucket less than `distance` from the given one.
pub open spec fn clear_within(v: IndexView, key: int, distance: int) -> bool {
    &&& !occupied(v, key)
    &&& forall|c: int|
        1 <= c < distance ==> !occupied(v, #[trigger] ((key + c) % 65536)) && !occupied(
            v,
            (key - c) % 65536,
        )
}

/// Whether a search for the fingerprint enters the graph at these nodes: those of its own bucket;
/// else those of the two nearest buckets with a node in one of them, no more than eight away, the
/// upper first; else the newest node; and nowhere if there is none.
pub open spec fn enters_at(v: IndexView, fp: SimFingerprint, entries: Seq<NodeId>) -> bool {
    let key = high_bits(fp);
    ||| occupied(v, key) && lists_bucket(v, key, entries)
    ||| exists|distance: int, upper: Seq<NodeId>, lower: Seq<NodeId>|
        {
            &&& 1 <= distance <= 8
            &&& clear_within(v, key, distance)
            &&& #[trigger] lists_bucket(v, (key + distance) % 65536, upper)
            &&& #[trigger] lists_bucket(v, (key - distance) % 65536, lower)
            &&& entries == upper + lower
            &&& entries.len() > 0
        }
    ||| clear_within(v, key, 9) && entries.len() == 1 && there(v, entries[0]) && forall|x: NodeId|
        #[trigger]
        there(v, x) ==> x <= entries[0]
    ||| entries.len() == 0 && forall|x: NodeId| !(#[trigger] there(v, x))
}

/// The identifiers of a frontier.
spec fn names(frontier: Seq<(NodeId, Scalar)>) -> Seq<NodeId> {
    frontier.map_values(|c: (NodeId, Scalar)| c.0)
}

/// Whether a frontier is ranked by agreement with the fingerprint and holds live nodes only.
spec fn proper(v: IndexView, fp: SimFingerprint, frontier: Seq<(NodeId, Scalar)>) -> bool {
    &&& sorted(frontier)
    &&& forall|i: int|
        0 <= i < frontier.len() ==> (#[trigger] frontier[i]).1 == fp.agreement(
            v.nodes[frontier[i].0].fingerprint,
        ) && v.live().contains(frontier[i].0)
}

proof fn lemma_in_order(
    v: IndexView,
    fp: SimFingerprint,
    frontier: Seq<(NodeId, Scalar)>,
    i: int,
    j: int,
)
    requires
        proper(v, fp, frontier),
        0 <= i < j < frontier.len(),
    ensures
        !closer(v, fp, frontier[j].0, frontier[i].0),
{
    assert(!ahead(frontier[j], frontier[i]));
    lemma_agreement_orders_by_distance(
        fp,
        v.nodes[frontier[j].0].fingerprint,
        v.nodes[frontier[i].0].fingerprint,
    );
}

proof fn lemma_place_names(frontier: Seq<(NodeId, Scalar)>, c: (NodeId, Scalar))
    ensures
        names(place(frontier, c)).to_multiset() == names(frontier).to_multiset().insert(c.0),
{
    lemma_slot_range(frontier, c);
    let p = slot(frontier, c) as int;
    assert(names(place(frontier, c)) =~= names(frontier).insert(p, c.0));
    vstd::seq_lib::to_multiset_insert(names(frontier), p, c.0);
}

proof fn lemma_joined_names(
    v: IndexView,
    fp: SimFingerprint,
    frontier: Seq<(NodeId, Scalar)>,
    ids: Seq<NodeId>,
    allowed: Set<NodeId>,
    x: NodeId,
)
    ensures
        names(v.joined(fp, frontier, ids, allowed)).to_multiset().count(x) == names(
            frontier,
        ).to_multiset().count(x) + if allowed.contains(x) {
            ids.to_multiset().count(x)
        } else {
            0
        },
    decreases ids.len(),
{
    broadcast use vstd::multiset::group_multiset_axioms;

    if ids.len() == 0 {
        assert(ids =~= Seq::empty());
        vstd::seq_lib::to_multiset_contains(ids, x);
        assert(!ids.contains(x));
    } else {
        let front = ids.drop_last();
        let id = ids.last();
        lemma_joined_names(v, fp, frontier, front, allowed, x);
        assert(ids =~= front.push(id));
        vstd::seq_lib::to_multiset_build(front, id);
        let before = v.joined(fp, frontier, front, allowed);
        if allowed.contains(id) {
            lemma_place_names(before, (id, fp.agreement(v.nodes[id].fingerprint)));
        }
    }
}

proof fn lemma_joined_proper(
    v: IndexView,
    fp: SimFingerprint,
    frontier: Seq<(NodeId, Scalar)>,
    ids: Seq<NodeId>,
    allowed: Set<NodeId>,
)
    requires
        proper(v, fp, frontier),
        allowed.subset_of(v.live()),
    ensures
        proper(v, fp, v.joined(fp, frontier, ids, allowed)),
    decreases ids.len(),
{
    lemma_joined_sorted(v, fp, frontier, ids, allowed);
    if ids.len() > 0 {
        let front = ids.drop_last();
        let id = ids.last();
        lemma_joined_proper(v, fp, frontier, front, allowed);
        let before = v.joined(fp, frontier, front, allowed);
        let after = v.joined(fp, frontier, ids, allowed);
        if allowed.contains(id) {
            let c = (id, fp.agreement(v.nodes[id].fingerprint));
            lemma_slot_range(before, c);
            let p = slot(before, c) as int;
            assert(after == before.insert(p, c));
            assert forall|i: int| 0 <= i < after.len() implies (#[trigger] after[i]).1
                == fp.agreement(v.nodes[after[i].0].fingerprint) && v.live().contains(
                after[i].0,
            ) by {
                if i < p {
                    assert(after[i] == before[i]);
                } else if i > p {
                    assert(after[i] == before[i - 1]);
                }
            }
        }
    }
}

/// Cutting a ranked frontier keeps the best of it.
proof fn lemma_first_is_best_of(v: IndexView, fp: SimFingerprint, frontier: Seq<(NodeId, Scalar)>)
    requires
        proper(v, fp, frontier),
    ensures
        best_of(
            v,
            fp,
            names(frontier).to_multiset(),
            names(first(frontier, v.config.beam_width as nat)).to_multiset(),
        ),
        proper(v, fp, first(frontier, v.config.beam_width as nat)),
{
    broadcast use vstd::multiset::group_multiset_axioms;

    let k = v.config.beam_width as nat;
    let kept = first(frontier, k);
    let all = names(frontier);
    let some = names(kept);
    let rest = all.skip(some.len() as int);
    assert(all =~= some + rest);
    vstd::seq_lib::lemma_multiset_commutative(some, rest);
    vstd::seq_lib::to_multiset_len(all);
    vstd::seq_lib::to_multiset_len(some);
    assert forall|x: NodeId, y: NodeId|
        #![trigger some.to_multiset().count(x), all.to_multiset().count(y)]
        some.to_multiset().count(x) > 0 && all.to_multiset().count(y) > some.to_multiset().count(
            y,
        ) implies !closer(v, fp, y, x) by {
        vstd::seq_lib::to_multiset_contains(some, x);
        vstd::seq_lib::to_multiset_contains(rest, y);
        let i = choose|i: int| 0 <= i < some.len() && some[i] == x;
        let j = choose|j: int| 0 <= j < rest.len() && rest[j] == y;
        assert(frontier[i].0 == x);
        assert(all[j + some.len()] == y);
        assert(frontier[j + some.len()].0 == y);
        lemma_in_order(v, fp, frontier, i, j + some.len());
    }
}

/// A walk visits rightly from any ranked frontier on.
proof fn lemma_walk_explores(
    v: IndexView,
    fp: SimFingerprint,
    frontier: Seq<(NodeId, Scalar)>,
    done: Seq<NodeId>,
    budget: nat,
) -> (queues: Seq<Multiset<NodeId>>)
    requires
        proper(v, fp, frontier),
        done.len() + budget == 8 * v.config.beam_width,
    ensures
        explores(v, fp, done, v.walk(fp, frontier, done.to_set(), budget), queues),
        queues[0] == names(frontier).to_multiset(),
    decreases budget, frontier.len(),
{
    broadcast use vstd::multiset::group_multiset_axioms;

    let order = v.walk(fp, frontier, done.to_set(), budget);
    let here = names(frontier).to_multiset();
    if frontier.len() == 0 {
        assert forall|x: NodeId| #[trigger] here.count(x) > 0 implies (done + order).contains(x) by {
            vstd::seq_lib::to_multiset_contains(names(frontier), x);
        }
        seq![here]
    } else {
        let id = frontier[0].0;
        let rest = frontier.drop_first();
        assert(proper(v, fp, rest)) by {
            assert forall|i: int| 0 <= i < rest.len() implies (#[trigger] rest[i]).1
                == fp.agreement(v.nodes[rest[i].0].fingerprint) && v.live().contains(
                rest[i].0,
            ) by {
                assert(rest[i] == frontier[i + 1]);
            }
            assert forall|i: int, j: int| 0 <= i < j < rest.len() implies !ahead(
                rest[j],
                rest[i],
            ) by {
                assert(!ahead(frontier[j + 1], frontier[i + 1]));
            }
        }
        assert(names(frontier)[0] == id);
        assert(names(rest) =~= names(frontier).remove(0));
        vstd::seq_lib::to_multiset_remove(names(frontier), 0);
        vstd::seq_lib::to_multiset_contains(names(frontier), id);
        assert(names(frontier).contains(id));
        if done.to_set().contains(id) {
            let later = lemma_walk_explores(v, fp, rest, done, budget);
            let queues = later.update(0, here);
            lemma_passed_over(v, fp, frontier, done, order, later);
            queues
        } else if budget == 0 {
            seq![here]
        } else {
            assert(v.live().contains(frontier[0].0));
            let next = done.push(id);
            let edges = v.nodes[id].edges;
            let seen = done.to_set().insert(id);
            assert(next.to_set() =~= seen) by {
                crate::ids::lemma_push_contains(done, id);
            }
            let allowed = v.live().difference(seen);
            let all = v.joined(fp, rest, edges, allowed);
            let kept = v.expanded(fp, rest, id, seen);
            lemma_joined_proper(v, fp, rest, edges, allowed);
            lemma_first_is_best_of(v, fp, all);
            let later = lemma_walk_explores(v, fp, kept, next, (budget - 1) as nat);
            let tail = v.walk(fp, kept, seen, (budget - 1) as nat);
            assert(order == seq![id] + tail);
            let queues = seq![here] + later;
            let waiting = names(all).to_multiset();
            assert forall|x: NodeId| here.count(x) > 0 implies !#[trigger] closer(v, fp, x, id) by {
                vstd::seq_lib::to_multiset_contains(names(frontier), x);
                let j = choose|j: int| 0 <= j < names(frontier).len() && names(frontier)[j] == x;
                assert(frontier[j].0 == x);
                if j > 0 {
                    lemma_in_order(v, fp, frontier, 0, j);
                }
            }
            assert forall|x: NodeId| #[trigger] waiting.count(x) == (if closer(v, fp, x, id) {
                0
            } else if x == id {
                here.count(x) - 1
            } else {
                here.count(x) as int
            }) + (if there(v, x) && !done.contains(x) && x != id {
                edges.to_multiset().count(x)
            } else {
                0
            }) by {
                lemma_joined_names(v, fp, rest, edges, allowed, x);
                if closer(v, fp, x, id) {
                    assert(here.count(x) == 0);
                }
            }
            assert(joined_by_links(v, fp, done, id, here, waiting));
            assert(best_of(v, fp, waiting, queues[1]));
            assert(steps_to(v, fp, done, id, here, queues[1]));
            lemma_one_step_more(v, fp, done, id, tail, here, later);
            queues
        }
    }
}

/// Passing over what was visited before changes nothing but what waits.
proof fn lemma_passed_over(
    v: IndexView,
    fp: SimFingerprint,
    frontier: Seq<(NodeId, Scalar)>,
    done: Seq<NodeId>,
    order: Seq<NodeId>,
    later: Seq<Multiset<NodeId>>,
)
    requires
        proper(v, fp, frontier),
        frontier.len() > 0,
        done.contains(frontier[0].0),
        explores(v, fp, done, order, later),
        later[0] == names(frontier.drop_first()).to_multiset(),
    ensures
        explores(v, fp, done, order, later.update(0, names(frontier).to_multiset())),
{
    broadcast use vstd::multiset::group_multiset_axioms;

    let c = frontier[0].0;
    let here = names(frontier).to_multiset();
    let queues = later.update(0, here);
    assert(names(frontier)[0] == c);
    assert(names(frontier.drop_first()) =~= names(frontier).remove(0));
    vstd::seq_lib::to_multiset_remove(names(frontier), 0);
    vstd::seq_lib::to_multiset_contains(names(frontier), c);
    assert(names(frontier).contains(c));
    if order.len() == 0 {
        assert forall|x: NodeId| #[trigger]
            queues[0].count(x) > 0 && done.len() != 8 * v.config.beam_width implies (done
            + order).contains(x) by {
            assert(done + order =~= done);
            if x != c {
                assert(later[0].count(x) > 0);
            }
        }
    } else {
        let id = order[0];
        assert(done + order.take(0) =~= done);
        assert(steps_to(v, fp, done + order.take(0), order[0], later[0], later[1]));
        let waiting = choose|waiting: Multiset<NodeId>|
            joined_by_links(v, fp, done, id, later[0], waiting) && #[trigger] best_of(
                v,
                fp,
                waiting,
                later[1],
            );
        assert(closer(v, fp, c, id)) by {
            vstd::seq_lib::to_multiset_contains(names(frontier.drop_first()), id);
            let rest = names(frontier.drop_first());
            let j = choose|j: int| 0 <= j < rest.len() && rest[j] == id;
            assert(frontier[j + 1].0 == id);
            lemma_in_order(v, fp, frontier, 0, j + 1);
        }
        assert(joined_by_links(v, fp, done, id, here, waiting)) by {
            assert forall|x: NodeId| #[trigger] waiting.count(x) == (if closer(v, fp, x, id) {
                0
            } else if x == id {
                here.count(x) - 1
            } else {
                here.count(x) as int
            }) + (if there(v, x) && !done.contains(x) && x != id {
                v.nodes[id].edges.to_multiset().count(x)
            } else {
                0
            }) by {
                if x != c {
                    assert(here.count(x) == later[0].count(x));
                }
            }
        }
        assert(best_of(v, fp, waiting, queues[1]));
        assert forall|x: NodeId| #[trigger]
            here.count(x) > 0 && !done.contains(x) implies !closer(v, fp, x, id) by {
            assert(later[0].count(x) > 0);
        }
        assert(steps_to(v, fp, done, id, here, queues[1]));
        assert forall|i: int| 0 <= i < order.len() implies steps_to(
            v,
            fp,
            done + order.take(i),
            #[trigger] order[i],
            queues[i],
            queues[i + 1],
        ) by {
            if i > 0 {
                assert(steps_to(v, fp, done + order.take(i), order[i], later[i], later[i + 1]));
            }
        }
    }
}

proof fn lemma_one_step_more(
    v: IndexView,
    fp: SimFingerprint,
    done: Seq<NodeId>,
    id: NodeId,
    tail: Seq<NodeId>,
    here: Multiset<NodeId>,
    later: Seq<Multiset<NodeId>>,
)
    requires
        explores(v, fp, done.push(id), tail, later),
        steps_to(v, fp, done, id, here, later[0]),
    ensures
        explores(v, fp, done, seq![id] + tail, seq![here] + later),
{
    let order = seq![id] + tail;
    let queues = seq![here] + later;
    assert(done + order =~= done.push(id) + tail);
    assert forall|i: int| 0 <= i < order.len() implies steps_to(
        v,
        fp,
        done + order.take(i),
        #[trigger] order[i],
        queues[i],
        queues[i + 1],
    ) by {
        if i == 0 {
            assert(done + order.take(0) =~= done);
        } else {
            assert(done + order.take(i) =~= done.push(id) + tail.take(i - 1));
            assert(order[i] == tail[i - 1]);
            assert(queues[i] == later[i - 1]);
            assert(queues[i + 1] == later[i - 1 + 1]);
        }
    }
    assert(queues[order.len() as int] == later[tail.len() as int]);
}

proof fn lemma_bucket_listed(v: IndexView, key: u16)
    requires
        v.wf(),
    ensures
        lists_bucket(v, key as int, v.bucket_ids(key)),
        v.bucket_ids(key).len() > 0 <==> occupied(v, key as int),
{
    let s = v.bucket_ids(key);
    lemma_bucket_ids_live(v, key);
    if v.buckets.dom().contains(key) {
        lemma_surviving_increasing(v.buckets[key], v.deleted);
    }
    assert forall|x: NodeId| #[trigger] s.contains(x) <==> there(v, x) && high_bits(
        v.nodes[x].fingerprint,
    ) == key as int by {
        assert(v.live().contains(x) == there(v, x));
    }
    if s.len() > 0 {
        assert(s.contains(s[0]));
        assert(there(v, s[0]));
    }
    if occupied(v, key as int) {
        let x = choose|x: NodeId| #[trigger]
            there(v, x) && high_bits(v.nodes[x].fingerprint) == key as int;
        assert(s.contains(x));
    }
}

proof fn lemma_rings_listed(v: IndexView, key: u16, delta: u16)
    requires
        v.wf(),
        1 <= delta <= 9,
        clear_within(v, key as int, delta as int),
    ensures
        ({
            let found = v.rings_from(key, delta);
            &&& found.len() > 0 ==> exists|
                distance: int,
                upper: Seq<NodeId>,
                lower: Seq<NodeId>,
            |
                {
                    &&& 1 <= distance <= 8
                    &&& clear_within(v, key as int, distance)
                    &&& #[trigger] lists_bucket(v, (key + distance) % 65536, upper)
                    &&& #[trigger] lists_bucket(v, (key - distance) % 65536, lower)
                    &&& found == upper + lower
                    &&& found.len() > 0
                }
            &&& found.len() == 0 ==> clear_within(v, key as int, 9)
        }),
    decreases 9 - delta,
{
    if delta <= 8 {
        let above = key.wrapping_add(delta);
        let below = key.wrapping_sub(delta);
        assert(above as int == (key + delta) % 65536);
        assert(below as int == (key - delta) % 65536);
        lemma_bucket_listed(v, above);
        lemma_bucket_listed(v, below);
        let upper = v.bucket_ids(above);
        let lower = v.bucket_ids(below);
        if v.ring(key, delta).len() > 0 {
            assert(v.rings_from(key, delta) == upper + lower);
            assert(lists_bucket(v, (key + delta as int) % 65536, upper));
            assert(lists_bucket(v, (key - delta as int) % 65536, lower));
        } else {
            assert(clear_within(v, key as int, delta + 1)) by {
                assert forall|c: int| 1 <= c < delta + 1 implies !occupied(
                    v,
                    #[trigger] ((key + c) % 65536),
                ) && !occupied(v, (key - c) % 65536) by {
                    if c == delta {
                        assert(!occupied(v, above as int));
                        assert(!occupied(v, below as int));
                    }
                }
            }
            lemma_rings_listed(v, key, (delta + 1) as u16);
            assert(v.rings_from(key, delta) == v.rings_from(key, (delta + 1) as u16));
        }
    } else {
        assert(v.rings_from(key, delta) == Seq::<NodeId>::empty());
    }
}

/// A search enters the graph in the bucket of the query, else in the nearest buckets around it, else
/// at the newest node.
proof fn lemma_enters_at(v: IndexView, fp: SimFingerprint)
    requires
        v.wf(),
    ensures
        enters_at(v, fp, v.entries(fp.bucket())),
{
    let key = fp.bucket();
    assert(key as int == high_bits(fp));
    lemma_bucket_listed(v, key);
    if v.bucket_ids(key).len() == 0 {
        assert(clear_within(v, key as int, 1));
        lemma_rings_listed(v, key, 1);
        if v.rings_from(key, 1).len() == 0 {
            lemma_newest(v);
        }
    }
}

/// What a bucket lists but for the nodes that are marked, in its order.
pub open spec fn unmarked_in(v: IndexView, key: int) -> Seq<NodeId> {
    if v.buckets.dom().contains(key as u16) {
        v.buckets[key as u16].filter(|x: NodeId| !v.deleted.contains(x))
    } else {
        Seq::empty()
    }
}

/// Whether a search for the fingerprint enters the graph at these nodes, whatever the buckets list:
/// what its own bucket lists but for the nodes that are marked; else what the two nearest buckets
/// list of which one lists such a node, no more than eight away, the upper first; else the newest
/// node; and nowhere if there is none.
pub open spec fn enters_by_buckets(v: IndexView, fp: SimFingerprint, entries: Seq<NodeId>) -> bool {
    let key = high_bits(fp);
    ||| entries.len() > 0 && entries == unmarked_in(v, key)
    ||| unmarked_in(v, key).len() == 0 && exists|distance: int|
        {
            &&& 1 <= distance <= 8
            &&& entries.len() > 0
            &&& entries == #[trigger] unmarked_in(v, (key + distance) % 65536) + unmarked_in(
                v,
                (key - distance) % 65536,
            )
            &&& none_listed_within(v, key, distance)
        }
    ||| none_listed_within(v, key, 9) && entries.len() == 1 && there(v, entries[0]) && forall|
        x: NodeId,
    | #[trigger]
        there(v, x) ==> x <= entries[0]
    ||| none_listed_within(v, key, 9) && entries.len() == 0 && forall|x: NodeId|
        !(#[trigger] there(v, x))
}

/// Whether neither the bucket nor any less than `distance` away lists a node that is not marked.
pub open spec fn none_listed_within(v: IndexView, key: int, distance: int) -> bool {
    &&& unmarked_in(v, key).len() == 0
    &&& forall|c: int|
        1 <= c < distance ==> (#[trigger] unmarked_in(v, (key + c) % 65536)).len() == 0
            && unmarked_in(v, (key - c) % 65536).len() == 0
}

proof fn lemma_rings_unmarked(v: IndexView, key: u16, delta: u16)
    requires
        1 <= delta <= 9,
        none_listed_within(v, key as int, delta as int),
    ensures
        ({
            let found = v.rings_from(key, delta);
            &&& found.len() > 0 ==> exists|distance: int|
                {
                    &&& 1 <= distance <= 8
                    &&& found == #[trigger] unmarked_in(v, (key + distance) % 65536) + unmarked_in(
                        v,
                        (key - distance) % 65536,
                    )
                    &&& none_listed_within(v, key as int, distance)
                }
            &&& found.len() == 0 ==> none_listed_within(v, key as int, 9)
        }),
    decreases 9 - delta,
{
    if delta <= 8 {
        let above = key.wrapping_add(delta);
        let below = key.wrapping_sub(delta);
        assert(above as int == (key + delta) % 65536);
        assert(below as int == (key - delta) % 65536);
        assert(v.bucket_ids(above) == unmarked_in(v, above as int));
        assert(v.bucket_ids(below) == unmarked_in(v, below as int));
        if v.ring(key, delta).len() > 0 {
            assert(v.rings_from(key, delta) == unmarked_in(v, (key + delta as int) % 65536)
                + unmarked_in(v, (key - delta as int) % 65536));
        } else {
            assert(none_listed_within(v, key as int, delta + 1)) by {
                assert forall|c: int| 1 <= c < delta + 1 implies (
                #[trigger] unmarked_in(v, (key + c) % 65536)).len() == 0 && unmarked_in(
                    v,
                    (key - c) % 65536,
                ).len() == 0 by {
                    if c == delta {
                        assert(unmarked_in(v, above as int).len() == 0);
                        assert(unmarked_in(v, below as int).len() == 0);
                    }
                }
            }
            lemma_rings_unmarked(v, key, (delta + 1) as u16);
            assert(v.rings_from(key, delta) == v.rings_from(key, (delta + 1) as u16));
        }
    } else {
        assert(v.rings_from(key, delta) == Seq::<NodeId>::empty());
    }
}

proof fn lemma_enters_by_buckets(v: IndexView, fp: SimFingerprint)
    ensures
        enters_by_buckets(v, fp, v.entries(fp.bucket())),
{
    let key = fp.bucket();
    assert(key as int == high_bits(fp));
    assert(v.bucket_ids(key) == unmarked_in(v, key as int));
    if v.bucket_ids(key).len() == 0 {
        assert(none_listed_within(v, key as int, 1));
        lemma_rings_unmarked(v, key, 1);
        if v.rings_from(key, 1).len() == 0 {
            lemma_newest(v);
        }
    }
}

proof fn lemma_newest(v: IndexView)
    ensures
        v.newest().len() == 0 ==> forall|x: NodeId| !(#[trigger] there(v, x)),
        v.newest().len() > 0 ==> v.newest().len() == 1 && there(v, v.newest()[0]) && forall|
            x: NodeId,
        | #[trigger]
            there(v, x) ==> x <= v.newest()[0],
{
    let ids = crate::ids::ascending(v.live());
    lemma_ascending(v.live());
    if ids.len() == 0 {
        assert forall|x: NodeId| !(#[trigger] there(v, x)) by {
            if there(v, x) {
                assert(ids.contains(x));
            }
        }
    } else {
        let last = ids[ids.len() - 1];
        assert(ids.contains(last));
        assert(v.live().contains(last));
        assert forall|x: NodeId| #[trigger] there(v, x) implies x <= last by {
            assert(ids.contains(x));
            let k = choose|k: int| 0 <= k < ids.len() && ids[k] == x;
        }
    }
}

/// A search visits the closest node that waits and was not visited, again and again. At first the
/// nodes wait at which it enters the graph, as many as fit into the beam; after each visit the nodes
/// that were linked to join, and the best that fit are kept. It stops for one of two reasons only:
/// eight nodes were visited for each place in the beam, or nothing waits that was not visited.
pub proof fn lemma_search_explores(v: IndexView, fp: SimFingerprint) -> (trace: (
    Seq<NodeId>,
    Seq<Multiset<NodeId>>,
))
    ensures
        enters_by_buckets(v, fp, trace.0),
        v.wf() ==> enters_at(v, fp, trace.0),
        explores(v, fp, Seq::empty(), v.visits(fp), trace.1),
        ({
            let seeds = if trace.0.len() <= v.config.beam_width {
                trace.0
            } else {
                trace.0.take(v.config.beam_width as int)
            };
            &&& forall|x: NodeId| #[trigger]
                trace.1[0].count(x) == if there(v, x) {
                    seeds.to_multiset().count(x)
                } else {
                    0
                }
            &&& v.wf() ==> trace.1[0] == seeds.to_multiset()
        }),
{
    broadcast use vstd::multiset::group_multiset_axioms;

    let entries = v.entries(fp.bucket());
    let ids = first(entries, v.config.beam_width as nat);
    let none = Seq::<(NodeId, Scalar)>::empty();
    lemma_enters_by_buckets(v, fp);
    lemma_joined_proper(v, fp, none, ids, v.live());
    let start = v.seeded(fp);
    assert forall|x: NodeId| #[trigger] names(start).to_multiset().count(x) == if there(v, x) {
        ids.to_multiset().count(x)
    } else {
        0
    } by {
        lemma_joined_names(v, fp, none, ids, v.live(), x);
        vstd::seq_lib::to_multiset_contains(names(none), x);
    }
    if v.wf() {
        lemma_enters_at(v, fp);
        crate::search_laws::lemma_entries(v, fp.bucket());
        assert forall|x: NodeId| names(start).to_multiset().count(x) == #[trigger]
            ids.to_multiset().count(x) by {
            vstd::seq_lib::to_multiset_contains(ids, x);
            assert(names(start).to_multiset().count(x) == if there(v, x) {
                ids.to_multiset().count(x)
            } else {
                0
            });
            if ids.contains(x) {
                let k = choose|k: int| 0 <= k < ids.len() && ids[k] == x;
                assert(entries[k] == x);
                assert(entries.contains(x));
                assert(v.live().contains(x));
            }
        }
        assert(names(start).to_multiset() =~= ids.to_multiset());
    }
    let done = Seq::<NodeId>::empty();
    assert(done.to_set() =~= Set::empty());
    let queues = lemma_walk_explores(
        v,
        fp,
        start,
        done,
        (v.config.beam_width * crate::search::STEPS_PER_PLACE) as nat,
    );
    (entries, queues)
}

} // verus!
