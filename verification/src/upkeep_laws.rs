//! What deletion and compaction do to every part of an index.
use crate::ids::ascending;
use crate::ids::lemma_ascending;
use crate::ids::NodeId;
use crate::index::IndexView;
use crate::laws::lemma_compacted;
use crate::laws::lemma_grouped_wf;
use vstd::prelude::*;

verus! {

/// Compaction keeps a node exactly if it is not marked as deleted. What is kept keeps its
/// identifier, vector, fingerprint, centrality and label, and of its links those that do not lead
/// to a marked node, in their order. No node is marked any more, and the settings, the planes, the
/// next identifier and the number of entries stay as they were.
pub proof fn lemma_compaction_keeps_the_rest(v: IndexView)
    ensures
        ({
            let w = v.compacted();
            &&& forall|id: NodeId| #[trigger]
                w.nodes.dom().contains(id) <==> v.nodes.dom().contains(id) && !v.deleted.contains(
                    id,
                )
            &&& forall|id: NodeId|
                v.nodes.dom().contains(id) && !v.deleted.contains(id) ==> {
                    let (old_node, new_node) = (v.nodes[id], #[trigger] w.nodes[id]);
                    &&& new_node.id == old_node.id
                    &&& new_node.vector == old_node.vector
                    &&& new_node.fingerprint == old_node.fingerprint
                    &&& new_node.centrality == old_node.centrality
                    &&& new_node.label == old_node.label
                    &&& new_node.edges == old_node.edges.filter(|x: NodeId| !v.deleted.contains(x))
                }
            &&& forall|id: NodeId| !(#[trigger] w.deleted.contains(id))
            &&& w.config == v.config
            &&& w.planes == v.planes
            &&& w.plane_dims == v.plane_dims
            &&& w.next_id == v.next_id
            &&& w.dims == v.dims
        }),
{
    lemma_compacted(v);
}

/// After a compaction every node stands in the bucket of the sixteen highest bits of its
/// fingerprint and in no other, each bucket lists its nodes once, oldest first, and no bucket is
/// empty.
pub proof fn lemma_compaction_fills_buckets(v: IndexView)
    ensures
        ({
            let w = v.compacted();
            &&& forall|key: u16, id: NodeId|
                #![trigger w.buckets[key].contains(id)]
                w.buckets.dom().contains(key) ==> (w.buckets[key].contains(id)
                    <==> v.nodes.dom().contains(id) && !v.deleted.contains(id)
                    && v.nodes[id].fingerprint.0 / 0x1_0000_0000_0000_0000_0000_0000_0000
                    == key as u128)
            &&& forall|id: NodeId|
                v.nodes.dom().contains(id) && !v.deleted.contains(id)
                    ==> #[trigger] w.buckets.dom().contains(
                    (v.nodes[id].fingerprint.0 / 0x1_0000_0000_0000_0000_0000_0000_0000) as u16,
                )
            &&& forall|key: u16, i: int, j: int|
                w.buckets.dom().contains(key) && 0 <= i < j < w.buckets[key].len()
                    ==> #[trigger] w.buckets[key][i] < #[trigger] w.buckets[key][j]
            &&& forall|key: u16| #[trigger]
                w.buckets.dom().contains(key) ==> w.buckets[key].len() > 0
        }),
{
    let w = v.compacted();
    lemma_compacted(v);
    lemma_ascending(v.live());
    lemma_grouped_wf(ascending(v.live()), w.nodes);
    assert(ascending(v.live()).to_set() =~= w.nodes.dom());
    assert forall|key: u16, id: NodeId|
        #![trigger w.buckets[key].contains(id)]
        w.buckets.dom().contains(key) implies (w.buckets[key].contains(id) <==> v.nodes.dom().contains(
        id,
    ) && !v.deleted.contains(id) && v.nodes[id].fingerprint.0
        / 0x1_0000_0000_0000_0000_0000_0000_0000 == key as u128) by {
        assert(w.buckets[key].contains(id) <==> w.nodes.dom().contains(id)
            && w.nodes[id].fingerprint.bucket() == key);
    }
    assert forall|id: NodeId|
        v.nodes.dom().contains(id) && !v.deleted.contains(id) implies #[trigger] w.buckets.dom().contains(
        (v.nodes[id].fingerprint.0 / 0x1_0000_0000_0000_0000_0000_0000_0000) as u16,
    ) by {
        assert(w.nodes.dom().contains(id));
        assert(w.buckets.dom().contains(w.nodes[id].fingerprint.bucket()));
    }
}

/// Deleting a node that there is marks that node and no other; deleting one that there is not
/// changes nothing. Nothing else changes in either case.
pub proof fn lemma_deletion_marks_one(v: IndexView, id: NodeId)
    ensures
        ({
            let w = v.marked(id);
            &&& forall|x: NodeId| #[trigger]
                w.deleted.contains(x) <==> v.deleted.contains(x) || (x == id
                    && v.nodes.dom().contains(id))
            &&& w.nodes == v.nodes
            &&& w.buckets == v.buckets
            &&& w.config == v.config
            &&& w.planes == v.planes
            &&& w.plane_dims == v.plane_dims
            &&& w.next_id == v.next_id
            &&& w.dims == v.dims
        }),
{
}

/// The length of a well-formed index is the number of nodes that are not marked: of any listing of
/// them without repetitions.
pub proof fn lemma_length_counts_live(v: IndexView, ids: Seq<NodeId>)
    requires
        v.wf(),
        ids.no_duplicates(),
        forall|x: NodeId| #[trigger]
            ids.contains(x) <==> v.nodes.dom().contains(x) && !v.deleted.contains(x),
    ensures
        v.count() == ids.len(),
{
    crate::laws::lemma_count(v);
    ids.unique_seq_to_set();
    assert(ids.to_set() =~= v.live());
}

/// The length of an index is the number of its nodes less the number of its marks, and zero where
/// there are more marks.
pub proof fn lemma_length_is_difference(v: IndexView)
    ensures
        v.nodes.dom().len() >= v.deleted.len() ==> v.count() + v.deleted.len()
            == v.nodes.dom().len(),
        v.nodes.dom().len() < v.deleted.len() ==> v.count() == 0,
{
}

} // verus!
