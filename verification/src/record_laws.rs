//! What is written of an index and read back, field by field, and what its figures count.
use crate::arith::Ops;
use crate::hasher::planes_of;
use crate::ids::ascending;
use crate::ids::lemma_ascending;
use crate::ids::lemma_increasing_unique;
use crate::ids::lemma_surviving;
use crate::ids::lemma_surviving_increasing;
use crate::ids::lemma_surviving_push;
use crate::ids::surviving;
use crate::ids::NodeId;
use crate::index::IndexView;
use crate::index::NeuraRankIndex;
use crate::laws::node_wf;
use crate::node::label_text;
use crate::node::NodeView;
use crate::rank_flow::lists_live;
use crate::scalar::Scalar;
use crate::stats::centrality_sum;
use crate::stats::edge_total;
use crate::storage::countable;
use crate::storage::record_view;
use crate::storage::restored;
use crate::storage::Record;
use crate::storage::RecordView;
use vstd::prelude::*;

verus! {

/// A record holds the settings in their order, every node under its identifier with all that it
/// holds, the buckets, the next identifier, the number of entries and the marks. Numbers are written
/// by their bits.
pub proof fn lemma_record_holds_all(v: IndexView)
    ensures
        ({
            let r = v.record();
            &&& r.0.0 == v.config.k_neighbors
            &&& r.0.1 == v.config.beam_width
            &&& r.0.2 == v.config.damping.bits
            &&& r.0.3 == v.config.n_projections
            &&& r.0.4 == v.config.centrality_weight.bits
            &&& r.0.5 == v.config.centrality_iters
            &&& forall|id: NodeId| #[trigger] r.1.dom().contains(id) <==> v.nodes.dom().contains(id)
            &&& forall|id: NodeId|
                v.nodes.dom().contains(id) ==> {
                    let (n, m) = (v.nodes[id], #[trigger] r.1[id]);
                    &&& m.0 == n.id
                    &&& m.1.len() == n.vector.len()
                    &&& forall|i: int|
                        0 <= i < n.vector.len() ==> #[trigger] m.1[i] == n.vector[i].bits
                    &&& m.2 == n.fingerprint.0
                    &&& m.3 == n.edges
                    &&& m.4 == n.centrality.bits
                    &&& m.5 == n.label
                }
            &&& r.2 == v.buckets
            &&& r.3 == v.next_id
            &&& v.dims is None ==> r.4 is None
            &&& v.dims is Some ==> r.4 is Some && r.4->0 == v.dims->0
            &&& r.5 == v.deleted
        }),
{
}

/// An index that is read from a record has the settings, nodes, buckets, next identifier, number of
/// entries and marks that the record holds. A record can be read unless a setting that counts
/// something, or the number of entries, is more than the machine can count.
pub proof fn lemma_record_is_read(r: RecordView, planes: Seq<Seq<Scalar>>)
    ensures
        countable(r) <==> r.0.0 <= usize::MAX && r.0.1 <= usize::MAX && r.0.3 <= usize::MAX && r.0.5
            <= usize::MAX && (r.4 is Some ==> r.4->0 <= usize::MAX),
        countable(r) ==> {
            let v = restored(r, planes);
            &&& v.config.k_neighbors == r.0.0
            &&& v.config.beam_width == r.0.1
            &&& v.config.damping.bits == r.0.2
            &&& v.config.n_projections == r.0.3
            &&& v.config.centrality_weight.bits == r.0.4
            &&& v.config.centrality_iters == r.0.5
            &&& forall|id: NodeId| #[trigger] v.nodes.dom().contains(id) <==> r.1.dom().contains(id)
            &&& forall|id: NodeId|
                r.1.dom().contains(id) ==> {
                    let (n, m) = (#[trigger] v.nodes[id], r.1[id]);
                    &&& n.id == m.0
                    &&& n.vector.len() == m.1.len()
                    &&& forall|i: int|
                        0 <= i < m.1.len() ==> #[trigger] n.vector[i].bits == m.1[i]
                    &&& n.fingerprint.0 == m.2
                    &&& n.edges == m.3
                    &&& n.centrality.bits == m.4
                    &&& n.label == m.5
                }
            &&& v.buckets == r.2
            &&& v.next_id == r.3
            &&& r.4 is None ==> v.dims is None && v.plane_dims == 512
            &&& r.4 is Some ==> v.dims is Some && v.dims->0 == r.4->0 && v.plane_dims == r.4->0
            &&& v.deleted == r.5
        },
{
}

/// The hasher that the settings give has as many planes as they say, for vectors of the index's
/// number of entries, or of 512 entries as long as there is none, and the seed of every index.
pub proof fn lemma_hasher_of_settings(v: IndexView, g: Ops<Scalar>)
    ensures
        v.hasher_current(g) <==> {
            let dims = if v.dims is Some {
                v.dims->0
            } else {
                512
            };
            &&& v.plane_dims == dims
            &&& v.planes == planes_of(
                g,
                dims as nat,
                v.config.n_projections as nat,
                0xDEAD_BEEF_CAFE_BABE,
            )
        },
{
}

proof fn lemma_links_counted(nodes: Seq<NodeView>, links: Seq<nat>, n: nat)
    requires
        n <= nodes.len(),
        n < links.len(),
        links[0] == 0,
        forall|i: int|
            0 <= i < nodes.len() ==> links[i + 1] == links[i] + (#[trigger] nodes[i]).edges.len(),
    ensures
        edge_total(nodes.take(n as int)) == links[n as int],
    decreases n,
{
    if n > 0 {
        lemma_links_counted(nodes, links, (n - 1) as nat);
        assert(nodes.take(n as int).drop_last() =~= nodes.take(n - 1));
        assert(links[(n - 1) + 1] == links[n - 1] + nodes[n - 1].edges.len());
    }
}

proof fn lemma_centralities_added(
    g: Ops<Scalar>,
    nodes: Seq<NodeView>,
    sums: Seq<Scalar>,
    n: nat,
)
    requires
        n <= nodes.len(),
        n < sums.len(),
        sums[0] == (Scalar { bits: 0 }),
        forall|i: int|
            0 <= i < nodes.len() ==> sums[i + 1] == (g.plus)(
                sums[i],
                (#[trigger] nodes[i]).centrality,
            ),
    ensures
        centrality_sum(g, nodes.take(n as int)) == sums[n as int],
    decreases n,
{
    if n > 0 {
        lemma_centralities_added(g, nodes, sums, (n - 1) as nat);
        assert(nodes.take(n as int).drop_last() =~= nodes.take(n - 1));
        assert(sums[(n - 1) + 1] == (g.plus)(sums[n - 1], nodes[n - 1].centrality));
    }
}

/// Whether the sequence lists the nodes whose own identifiers are not marked as deleted, oldest
/// first.
pub open spec fn lists_counted(v: IndexView, ids: Seq<NodeId>) -> bool {
    &&& forall|i: int, j: int| 0 <= i < j < ids.len() ==> ids[i] < ids[j]
    &&& forall|x: NodeId| #[trigger]
        ids.contains(x) <==> v.nodes.dom().contains(x) && !v.deleted.contains(v.nodes[x].id)
}

proof fn lemma_filter_by_own_id(v: IndexView, ids: Seq<NodeId>, gone: Set<NodeId>)
    requires
        forall|x: NodeId| #[trigger] gone.contains(x) <==> v.deleted.contains(v.nodes[x].id),
    ensures
        ids.map_values(|id: NodeId| v.nodes[id]).filter(
            |n: NodeView| !v.deleted.contains(n.id),
        ) == surviving(ids, gone).map_values(|id: NodeId| v.nodes[id]),
    decreases ids.len(),
{
    reveal(Seq::filter);
    let f = |id: NodeId| v.nodes[id];
    let pred = |n: NodeView| !v.deleted.contains(n.id);
    if ids.len() == 0 {
        assert(ids.map_values(f).filter(pred) =~= surviving(ids, gone).map_values(f));
    } else {
        let front = ids.drop_last();
        let id = ids.last();
        lemma_filter_by_own_id(v, front, gone);
        assert(ids =~= front.push(id));
        lemma_surviving_push(front, gone, id);
        assert(ids.map_values(f).drop_last() =~= front.map_values(f));
        assert(gone.contains(id) <==> v.deleted.contains(v.nodes[id].id));
        assert(surviving(front, gone).push(id).map_values(f) =~= surviving(
            front,
            gone,
        ).map_values(f).push(v.nodes[id]));
    }
}

proof fn lemma_counted_listing(v: IndexView, ids: Seq<NodeId>)
    requires
        lists_counted(v, ids),
    ensures
        v.counted() == ids.map_values(|id: NodeId| v.nodes[id]),
{
    let all = ascending(v.nodes.dom());
    let gone = Set::new(|x: NodeId| v.deleted.contains(v.nodes[x].id));
    lemma_ascending(v.nodes.dom());
    lemma_filter_by_own_id(v, all, gone);
    lemma_surviving(all, gone);
    lemma_surviving_increasing(all, gone);
    assert forall|x: NodeId| #[trigger] ids.contains(x) <==> surviving(all, gone).contains(x) by {
        assert(gone.contains(x) <==> v.deleted.contains(v.nodes[x].id));
    }
    lemma_increasing_unique(ids, surviving(all, gone));
}

/// The figures count the nodes that are not marked as deleted, the marked ones and the buckets.
/// The averages divide the number of links, and the sum of the centralities, by the number of nodes
/// that are not marked, and are zero where there is none. No such node has a centrality greater than
/// the maximum, which is one of theirs or zero.
pub proof fn lemma_figures_count_live(
    v: IndexView,
    g: Ops<Scalar>,
    ids: Seq<NodeId>,
    links: Seq<nat>,
    sums: Seq<Scalar>,
)
    requires
        lists_counted(v, ids),
        ids.len() <= usize::MAX,
        links.len() == ids.len() + 1,
        links[0] == 0,
        forall|i: int|
            0 <= i < ids.len() ==> links[i + 1] == links[i] + v.nodes[#[trigger] ids[i]].edges.len(),
        sums.len() == ids.len() + 1,
        sums[0] == (Scalar { bits: 0 }),
        forall|i: int|
            0 <= i < ids.len() ==> sums[i + 1] == (g.plus)(
                sums[i],
                v.nodes[#[trigger] ids[i]].centrality,
            ),
    ensures
        ({
            let s = v.summary(g);
            let n = ids.len();
            &&& s.node_count == n
            &&& s.avg_edges_per_node == if n == 0 {
                Scalar { bits: 0 }
            } else {
                (g.over)((g.count)(links[n as int] % 0x1_0000_0000_0000_0000), (g.count)(n))
            }
            &&& s.avg_centrality == if n == 0 {
                Scalar { bits: 0 }
            } else {
                (g.over)(sums[n as int], (g.count)(n))
            }
            &&& forall|i: int|
                0 <= i < n ==> !s.max_centrality.less(v.nodes[#[trigger] ids[i]].centrality)
            &&& s.max_centrality.bits == 0 || exists|i: int|
                0 <= i < n && v.nodes[#[trigger] ids[i]].centrality == s.max_centrality
            &&& s.dims == if v.dims is Some {
                v.dims->0
            } else {
                0
            }
        }),
{
    lemma_counted_listing(v, ids);
    let nodes = v.counted();
    assert(nodes.len() == ids.len());
    assert forall|i: int| 0 <= i < ids.len() implies #[trigger] nodes[i] == v.nodes[ids[i]] by {}
    assert forall|i: int| 0 <= i < nodes.len() implies links[i + 1] == links[i] + (
    #[trigger] nodes[i]).edges.len() by {
        assert(nodes[i] == v.nodes[ids[i]]);
    }
    assert forall|i: int| 0 <= i < nodes.len() implies sums[i + 1] == (g.plus)(
        sums[i],
        (#[trigger] nodes[i]).centrality,
    ) by {
        assert(nodes[i] == v.nodes[ids[i]]);
    }
    lemma_links_counted(nodes, links, nodes.len());
    lemma_centralities_added(g, nodes, sums, nodes.len());
    assert(nodes.take(nodes.len() as int) =~= nodes);
    crate::stats::lemma_peak_is_largest(nodes);
    assert forall|i: int| 0 <= i < ids.len() implies !v.summary(g).max_centrality.less(
        v.nodes[#[trigger] ids[i]].centrality,
    ) by {
        assert(nodes[i] == v.nodes[ids[i]]);
    }
    if v.summary(g).max_centrality.bits != 0 {
        let i = choose|i: int|
            0 <= i < nodes.len() && (#[trigger] nodes[i]).centrality
                == crate::stats::centrality_peak(nodes);
        assert(v.nodes[ids[i]].centrality == v.summary(g).max_centrality);
    }
}

/// In a well-formed index the nodes that are counted are those that are not marked as deleted.
pub proof fn lemma_counted_are_live(v: IndexView, ids: Seq<NodeId>)
    requires
        v.wf(),
    ensures
        lists_counted(v, ids) <==> lists_live(v, ids),
{
    assert forall|x: NodeId| v.nodes.dom().contains(x) implies #[trigger] v.nodes[x].id == x by {
        assert(node_wf(v, x));
    }
}

/// What is stated of an index is stated of all that it holds: its settings, its nodes with all that
/// each of them holds, its buckets, its planes, its next identifier, its number of entries and its
/// marks.
pub proof fn lemma_view_shows_all(index: &NeuraRankIndex)
    ensures
        index@.config == index.config,
        index@.next_id == index.next_id,
        index@.dims == index.dims,
        index@.deleted == index.deleted@,
        index@.plane_dims == index.hasher.dims,
        index@.planes.len() == index.hasher.planes@.len(),
        forall|i: int|
            0 <= i < index@.planes.len() ==> #[trigger] index@.planes[i]
                == index.hasher.planes@[i]@,
        forall|id: NodeId| #[trigger]
            index@.nodes.dom().contains(id) <==> index.nodes@.dom().contains(id),
        forall|id: NodeId|
            index.nodes@.dom().contains(id) ==> {
                let (shown, held) = (#[trigger] index@.nodes[id], index.nodes@[id]);
                &&& shown.id == held.id
                &&& shown.vector == held.vector@
                &&& shown.fingerprint == held.fingerprint
                &&& shown.edges == held.edges@
                &&& shown.centrality == held.centrality
                &&& held.label is None ==> shown.label is None
                &&& held.label is Some ==> shown.label is Some && shown.label->0 == held.label->0@
            },
        forall|key: u16| #[trigger]
            index@.buckets.dom().contains(key) <==> index.coarse_buckets@.dom().contains(key),
        forall|key: u16|
            index.coarse_buckets@.dom().contains(key) ==> #[trigger] index@.buckets[key]
                == index.coarse_buckets@[key]@,
{
}

/// What is stated of a record is stated of all that it holds, and of a label of all its characters.
pub proof fn lemma_record_view_shows_all(r: Record, label: Option<String>)
    ensures
        record_view(r).0 == r.0,
        record_view(r).3 == r.3,
        record_view(r).4 == r.4,
        record_view(r).5 == r.5@,
        forall|id: NodeId| #[trigger]
            record_view(r).1.dom().contains(id) <==> r.1@.dom().contains(id),
        forall|id: NodeId|
            r.1@.dom().contains(id) ==> {
                let (shown, held) = (#[trigger] record_view(r).1[id], r.1@[id]);
                &&& shown.0 == held.0
                &&& shown.1 == held.1@
                &&& shown.2 == held.2
                &&& shown.3 == held.3@
                &&& shown.4 == held.4
                &&& shown.5 == label_text(held.5)
            },
        forall|key: u16| #[trigger]
            record_view(r).2.dom().contains(key) <==> r.2@.dom().contains(key),
        forall|key: u16|
            r.2@.dom().contains(key) ==> #[trigger] record_view(r).2[key] == r.2@[key]@,
        label is None ==> label_text(label) is None,
        label is Some ==> label_text(label) is Some && label_text(label)->0 == label->0@,
{
}

} // verus!
