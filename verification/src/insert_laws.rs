//! What an insertion does to every part of an index.
use crate::arith::Ops;
use crate::hasher::fingerprint_of;
use crate::ids::lemma_push_contains;
use crate::ids::NodeId;
use crate::index::endorsed;
use crate::index::link_share;
use crate::index::Dims;
use crate::index::IndexView;
use crate::laws::lemma_nearest;
use crate::laws::node_wf;
use crate::node::NodeView;
use crate::rounding::lemma_counted;
use crate::rounding::lemma_quotient;
use crate::rounding::lemma_starts;
use crate::rounding::lemma_sum;
use crate::rounding::lemma_value_order;
use crate::rounding::limit;
use crate::rounding::rounded;
use crate::rounding::size;
use crate::rounding::slack;
use crate::rounding::value;
use crate::rounding::within;
use crate::scalar::Scalar;
use vstd::prelude::*;

verus! {

/// What each of `k` links is worth: the damping divided by `k`, or by one where `k` counts for
/// less.
pub open spec fn worth_of_link(g: Ops<Scalar>, damping: Scalar, k: nat) -> Scalar {
    let slots = (g.count)(k);
    if slots.nan() || slots.key() < 0x3F80_0000 {
        (g.over)(damping, Scalar { bits: 0x3F80_0000 })
    } else {
        (g.over)(damping, slots)
    }
}

proof fn lemma_endorsed_once(
    g: Ops<Scalar>,
    share: Scalar,
    nodes: Map<NodeId, NodeView>,
    edges: Seq<NodeId>,
    id: NodeId,
)
    requires
        edges.no_duplicates(),
        nodes.dom().contains(id),
    ensures
        endorsed(g, share, nodes, edges).dom() == nodes.dom(),
        endorsed(g, share, nodes, edges)[id] == if edges.contains(id) {
            NodeView { centrality: (g.plus)(nodes[id].centrality, share), ..nodes[id] }
        } else {
            nodes[id]
        },
    decreases edges.len(),
{
    if edges.len() > 0 {
        let front = edges.drop_last();
        let last = edges.last();
        assert(edges =~= front.push(last));
        lemma_push_contains(front, last);
        lemma_endorsed_once(g, share, nodes, front, id);
        assert(!front.contains(last)) by {
            if front.contains(last) {
                let k = choose|k: int| 0 <= k < front.len() && front[k] == last;
                assert(edges[k] == edges[edges.len() - 1]);
            }
        }
        assert(endorsed(g, share, nodes, edges).dom() =~= nodes.dom());
    }
}

/// The new node stands under the next identifier with the vector and the label that were given,
/// and its centrality is what is not damped. Every node that it links to gains, once, the damping
/// divided by the number of links that a node may have; the centralities of the others, and all
/// else that any node holds, stay as they were.
pub proof fn lemma_insertion_endorses(
    v: IndexView,
    g: Ops<Scalar>,
    vector: Seq<Scalar>,
    label: Option<Seq<char>>,
)
    ensures
        ({
            let w = v.inserted(g, vector, label);
            let id = v.next_id;
            let share = worth_of_link(g, v.config.damping, v.config.k_neighbors as nat);
            &&& forall|x: NodeId| #[trigger]
                w.nodes.dom().contains(x) <==> v.nodes.dom().contains(x) || x == id
            &&& w.nodes[id].id == id
            &&& w.nodes[id].vector == vector
            &&& w.nodes[id].label == label
            &&& w.nodes[id].centrality == (g.minus)(g.one, v.config.damping)
            &&& forall|x: NodeId|
                v.nodes.dom().contains(x) && x != id ==> {
                    let (old_node, new_node) = (v.nodes[x], #[trigger] w.nodes[x]);
                    &&& new_node.id == old_node.id
                    &&& new_node.vector == old_node.vector
                    &&& new_node.fingerprint == old_node.fingerprint
                    &&& new_node.edges == old_node.edges
                    &&& new_node.label == old_node.label
                    &&& new_node.centrality == if w.nodes[id].edges.contains(x) {
                        (g.plus)(old_node.centrality, share)
                    } else {
                        old_node.centrality
                    }
                }
        }),
{
    let w = v.inserted(g, vector, label);
    let id = v.next_id;
    let sized = v.sized(g, vector.len() as Dims);
    let fp = fingerprint_of(g, sized.planes, vector);
    let k = v.config.k_neighbors as nat;
    let edges = v.nearest(fp, k, Some(id));
    let share = link_share(g, v.config);
    lemma_nearest(v, fp, k, Some(id));
    assert(share == worth_of_link(g, v.config.damping, k));
    assert(endorsed(g, share, v.nodes, edges).dom() == v.nodes.dom()) by {
        lemma_endorsed_dom(g, share, v.nodes, edges);
    }
    assert forall|x: NodeId| v.nodes.dom().contains(x) && x != id implies {
        let (old_node, new_node) = (v.nodes[x], #[trigger] w.nodes[x]);
        &&& new_node.id == old_node.id
        &&& new_node.vector == old_node.vector
        &&& new_node.fingerprint == old_node.fingerprint
        &&& new_node.edges == old_node.edges
        &&& new_node.label == old_node.label
        &&& new_node.centrality == if w.nodes[id].edges.contains(x) {
            (g.plus)(old_node.centrality, share)
        } else {
            old_node.centrality
        }
    } by {
        lemma_endorsed_once(g, share, v.nodes, edges, x);
    }
}

proof fn lemma_endorsed_dom(
    g: Ops<Scalar>,
    share: Scalar,
    nodes: Map<NodeId, NodeView>,
    edges: Seq<NodeId>,
)
    ensures
        endorsed(g, share, nodes, edges).dom() == nodes.dom(),
    decreases edges.len(),
{
    if edges.len() > 0 {
        lemma_endorsed_dom(g, share, nodes, edges.drop_last());
        assert(endorsed(g, share, nodes, edges).dom() =~= nodes.dom());
    }
}

/// The links of the new node lead to live nodes, to none twice, and to as many as a node may have,
/// or to all where there are no more. The nearest come first, by the number of bits in which the
/// fingerprints differ, and no node that was left out is nearer than one that is linked to.
pub proof fn lemma_insertion_links_nearest(
    v: IndexView,
    g: Ops<Scalar>,
    vector: Seq<Scalar>,
    label: Option<Seq<char>>,
    ids: Seq<NodeId>,
)
    requires
        ids.no_duplicates(),
        forall|x: NodeId| #[trigger]
            ids.contains(x) <==> v.nodes.dom().contains(x) && !v.deleted.contains(x) && x
                != v.next_id,
    ensures
        ({
            let node = v.inserted(g, vector, label).nodes[v.next_id];
            let k = v.config.k_neighbors as nat;
            let fp = node.fingerprint;
            &&& node.edges.len() == if ids.len() <= k {
                ids.len()
            } else {
                k
            }
            &&& node.edges.no_duplicates()
            &&& forall|x: NodeId| #[trigger] node.edges.contains(x) ==> ids.contains(x)
            &&& forall|i: int, j: int|
                0 <= i < j < node.edges.len() ==> fp.distance(
                    v.nodes[#[trigger] node.edges[i]].fingerprint,
                ) <= fp.distance(v.nodes[#[trigger] node.edges[j]].fingerprint)
            &&& forall|x: NodeId, y: NodeId|
                #![trigger node.edges.contains(x), ids.contains(y)]
                node.edges.contains(x) && ids.contains(y) && !node.edges.contains(y)
                    ==> fp.distance(v.nodes[x].fingerprint) <= fp.distance(v.nodes[y].fingerprint)
        }),
{
    let node = v.inserted(g, vector, label).nodes[v.next_id];
    let k = v.config.k_neighbors as nat;
    let fp = node.fingerprint;
    let id = v.next_id;
    lemma_nearest(v, fp, k, Some(id));
    crate::laws::lemma_nearest_order(v, fp, k, Some(id));
    let others = v.live().difference(crate::ids::as_set(Some(id)));
    assert(node.edges == v.nearest(fp, k, Some(id)));
    ids.unique_seq_to_set();
    assert(ids.to_set() =~= others);
    assert forall|x: NodeId| #[trigger] node.edges.contains(x) implies ids.contains(x) by {
        assert(others.contains(x));
    }
    assert forall|x: NodeId, y: NodeId|
        #![trigger node.edges.contains(x), ids.contains(y)]
        node.edges.contains(x) && ids.contains(y) && !node.edges.contains(y) implies fp.distance(
        v.nodes[x].fingerprint,
    ) <= fp.distance(v.nodes[y].fingerprint) by {
        assert(others.contains(y));
    }
}

/// The new node joins the bucket of the sixteen highest bits of its fingerprint, as the last of
/// it, and no other bucket changes. The next identifier is one more, the number of entries is that
/// of the vector, and the settings and the marks stay as they were.
pub proof fn lemma_insertion_registers(
    v: IndexView,
    g: Ops<Scalar>,
    vector: Seq<Scalar>,
    label: Option<Seq<char>>,
)
    requires
        v.next_id < u32::MAX,
        vector.len() <= usize::MAX,
        v.dims is Some ==> v.dims == Some(vector.len() as Dims),
    ensures
        ({
            let w = v.inserted(g, vector, label);
            let id = v.next_id;
            let key = (w.nodes[id].fingerprint.0
                / 0x1_0000_0000_0000_0000_0000_0000_0000) as u16;
            &&& w.buckets.dom().contains(key)
            &&& v.buckets.dom().contains(key) ==> w.buckets[key] == v.buckets[key].push(id)
            &&& !v.buckets.dom().contains(key) ==> w.buckets[key] == seq![id]
            &&& forall|other: u16|
                other != key ==> (#[trigger] w.buckets.dom().contains(other)
                    <==> v.buckets.dom().contains(other))
            &&& forall|other: u16|
                other != key && v.buckets.dom().contains(other) ==> #[trigger] w.buckets[other]
                    == v.buckets[other]
            &&& w.next_id == id + 1
            &&& w.dims == Some(vector.len() as Dims)
            &&& w.config == v.config
            &&& w.deleted == v.deleted
            &&& v.dims is Some ==> w.planes == v.planes && w.plane_dims == v.plane_dims
        }),
{
}

/// Where single precision can count the links that a node may have, a link adds the damping divided
/// by that number, or by one where it is zero, but for rounding. As many links as a node may have
/// add the damping.
pub proof fn lemma_links_add_damping(
    g: Ops<Scalar>,
    fl: spec_fn(real) -> real,
    damping: Scalar,
    k: nat,
    centrality: Scalar,
)
    requires
        rounded(g, fl),
        damping.finite(),
        0 as real <= value(damping),
        value(damping) <= 1 as real,
        k <= 16777216,
        centrality.finite(),
        within(value(centrality), 0 as real, 1000000 as real),
    ensures
        ({
            let share = worth_of_link(g, damping, k);
            let n = if k == 0 {
                1 as real
            } else {
                k as real
            };
            let exact = value(damping) / n;
            let after = (g.plus)(centrality, share);
            &&& share.finite()
            &&& n * exact == value(damping)
            &&& within(value(share), exact, slack(exact))
            &&& after.finite()
            &&& within(
                value(after),
                value(centrality) + value(share),
                slack(value(centrality) + value(share)),
            )
        }),
{
    lemma_starts(g, fl);
    lemma_counted(g, fl, k);
    let slots = (g.count)(k);
    let unit = Scalar { bits: 0x3F80_0000 };
    assert(unit == g.one);
    lemma_value_order(slots, unit);
    assert(!slots.nan());
    let n = if k == 0 {
        1 as real
    } else {
        k as real
    };
    let d = value(damping);
    let exact = d / n;
    assert(n * exact == d && 0 as real <= exact && exact <= d) by (nonlinear_arith)
        requires
            n >= 1 as real,
            0 as real <= d,
            exact == d / n,
    ;
    assert(size(exact) <= limit());
    if k == 0 {
        lemma_quotient(g, fl, damping, unit);
    } else {
        lemma_quotient(g, fl, damping, slots);
    }
    lemma_sum(g, fl, centrality, worth_of_link(g, damping, k));
}

/// But for rounding, a node that the new node links to gains the damping divided by the number of
/// links that a node may have (by one where that is zero), and any other node gains nothing.
pub proof fn lemma_insertion_gain(
    v: IndexView,
    g: Ops<Scalar>,
    fl: spec_fn(real) -> real,
    vector: Seq<Scalar>,
    label: Option<Seq<char>>,
    x: NodeId,
)
    requires
        v.wf(),
        rounded(g, fl),
        v.config.damping.finite(),
        0 as real <= value(v.config.damping),
        value(v.config.damping) <= 1 as real,
        v.config.k_neighbors <= 16777216,
        v.nodes.dom().contains(x),
        v.nodes[x].centrality.finite(),
        within(value(v.nodes[x].centrality), 0 as real, 1000000 as real),
    ensures
        ({
            let w = v.inserted(g, vector, label);
            let (k, d) = (v.config.k_neighbors as nat as real, value(v.config.damping));
            let before = value(v.nodes[x].centrality);
            let gain = if !w.nodes[v.next_id].edges.contains(x) {
                0 as real
            } else if v.config.k_neighbors == 0 {
                d
            } else {
                d / k
            };
            &&& w.nodes[x].centrality.finite()
            &&& within(
                value(w.nodes[x].centrality),
                before + gain,
                (size(before) + 3 as real) / (16777216 as real),
            )
            &&& !w.nodes[v.next_id].edges.contains(x) ==> w.nodes[x].centrality
                == v.nodes[x].centrality
        }),
{
    let w = v.inserted(g, vector, label);
    let k = v.config.k_neighbors as nat;
    let d = value(v.config.damping);
    if v.nodes.dom().contains(v.next_id) {
        assert(node_wf(v, v.next_id));
    }
    lemma_insertion_endorses(v, g, vector, label);
    lemma_links_add_damping(g, fl, v.config.damping, k, v.nodes[x].centrality);
    let n = if k == 0 {
        1 as real
    } else {
        k as real
    };
    let exact = d / n;
    assert(0 as real <= exact && exact <= d && d / (1 as real) == d) by (nonlinear_arith)
        requires
            n >= 1 as real,
            0 as real <= d,
            exact == d / n,
    ;
    assert(w.nodes[x].id == v.nodes[x].id);
}

} // verus!
