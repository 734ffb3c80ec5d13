//! The index: a similarity graph over stored vectors, with coarse buckets to enter it by.
use crate::arith::faithful;
use crate::arith::ops_of;
use crate::arith::Arithmetic;
use crate::arith::Ops;
use crate::config::standard;
use crate::config::NRIConfig;
use crate::fingerprint::SimFingerprint;
use crate::hasher::fingerprint_of;
use crate::hasher::planes_of;
use crate::hasher::SimHasher;
use crate::ids::as_set;
use crate::ids::ascending;
use crate::ids::ids_without;
use crate::ids::lemma_ascending;
use crate::ids::NodeId;
use crate::laws::lemma_grown_wf;
use crate::laws::lemma_new_wf;
use crate::node::label_text;
use crate::node::Node;
use crate::node::NodeView;
use crate::parallel::par_map;
use crate::ranking::first;
use crate::ranking::keep_best;
use crate::ranking::lemma_first_of_place;
use crate::ranking::lemma_ranked;
use crate::ranking::ranked;
use crate::scalar::one;
use crate::scalar::Scalar;
use std::collections::BTreeMap;
use std::collections::BTreeSet;
use vstd::arithmetic::power2::pow2;
use vstd::prelude::*;

verus! {

/// The number of entries of a vector.
pub type Dims = usize;

/// The seed of the hasher of every index.
pub const SEED: u64 = 0xDEAD_BEEF_CAFE_BABE;

/// The number of entries that the hasher of an index is made for before the first insertion.
pub const FIRST_DIMS: usize = 512;

/// A searchable collection of vectors.
pub struct NeuraRankIndex {
    pub config: NRIConfig,
    pub nodes: BTreeMap<NodeId, Node>,
    /// The nodes by the highest bits of their fingerprints.
    pub coarse_buckets: BTreeMap<u16, Vec<NodeId>>,
    pub hasher: SimHasher,
    /// The identifier that the next node gets.
    pub next_id: NodeId,
    /// The number of entries of every vector, once there was one.
    pub dims: Option<Dims>,
    /// The nodes that are marked as deleted and not yet removed.
    pub deleted: BTreeSet<NodeId>,
}

/// What an index holds.
#[verifier::ext_equal]
pub ghost struct IndexView {
    pub config: NRIConfig,
    pub nodes: Map<NodeId, NodeView>,
    pub buckets: Map<u16, Seq<NodeId>>,
    pub planes: Seq<Seq<Scalar>>,
    pub plane_dims: Dims,
    pub next_id: NodeId,
    pub dims: Option<Dims>,
    pub deleted: Set<NodeId>,
}

/// What the nodes of a map hold.
pub open spec fn node_views(nodes: Map<NodeId, Node>) -> Map<NodeId, NodeView> {
    nodes.map_values(|n: Node| n@)
}

/// What the buckets of a map hold.
pub open spec fn bucket_views(buckets: Map<u16, Vec<NodeId>>) -> Map<u16, Seq<NodeId>> {
    buckets.map_values(|b: Vec<NodeId>| b@)
}

impl View for NeuraRankIndex {
    type V = IndexView;

    open spec fn view(&self) -> IndexView {
        IndexView {
            config: self.config,
            nodes: node_views(self.nodes@),
            buckets: bucket_views(self.coarse_buckets@),
            planes: self.hasher@.planes,
            plane_dims: self.hasher@.dims,
            next_id: self.next_id,
            dims: self.dims,
            deleted: self.deleted@,
        }
    }
}

impl IndexView {
    /// The nodes that are not marked as deleted.
    pub open spec fn live(self) -> Set<NodeId> {
        self.nodes.dom().difference(self.deleted)
    }

    /// What the nodes are worth as neighbours of something with the given fingerprint.
    pub open spec fn similarities(self, fp: SimFingerprint, ids: Seq<NodeId>) -> Seq<
        (NodeId, Scalar),
    > {
        ids.map_values(|id: NodeId| (id, fp.agreement(self.nodes[id].fingerprint)))
    }

    /// The `k` live nodes, other than the excluded one, whose fingerprints agree best with the
    /// given one: the best first, and of equally good ones the older first.
    pub open spec fn nearest(self, fp: SimFingerprint, k: nat, exclude: Option<NodeId>) -> Seq<
        NodeId,
    > {
        let ids = ascending(self.live().difference(as_set(exclude)));
        first(ranked(self.similarities(fp, ids)), k).map_values(|c: (NodeId, Scalar)| c.0)
    }

    /// The index with a hasher made for vectors of `dims` entries.
    pub open spec fn rehashed(self, g: Ops<Scalar>, dims: Dims) -> IndexView {
        IndexView {
            planes: planes_of(g, dims as nat, self.config.n_projections as nat, SEED),
            plane_dims: dims,
            ..self
        }
    }

    /// The index once it knows the number of entries of its vectors: the first vector fixes it.
    pub open spec fn sized(self, g: Ops<Scalar>, dims: Dims) -> IndexView {
        if self.dims is None {
            IndexView { dims: Some(dims), ..self.rehashed(g, dims) }
        } else {
            self
        }
    }

    /// The index after a vector was inserted.
    pub open spec fn inserted(
        self,
        g: Ops<Scalar>,
        vector: Seq<Scalar>,
        label: Option<Seq<char>>,
    ) -> IndexView {
        let sized = self.sized(g, vector.len() as Dims);
        let fp = fingerprint_of(g, sized.planes, vector);
        let id = self.next_id;
        let edges = self.nearest(fp, self.config.k_neighbors as nat, Some(id));
        let node = NodeView {
            id,
            vector,
            fingerprint: fp,
            edges,
            centrality: base_centrality(g, self.config.damping),
            label,
        };
        IndexView {
            nodes: endorsed(g, link_share(g, self.config), self.nodes, edges).insert(id, node),
            buckets: registered(self.buckets, fp.bucket(), id),
            next_id: (id + 1) as NodeId,
            ..sized
        }
    }
}

/// The centrality of a node that nothing links to yet.
pub open spec fn base_centrality<T>(g: Ops<T>, damping: T) -> T {
    (g.minus)(g.one, damping)
}

/// What one of `slots` links adds to the centrality of the node that it leads to.
pub open spec fn link_amount<T>(g: Ops<T>, damping: T, slots: T) -> T {
    (g.over)(damping, slots)
}

/// What one link adds to the centrality of the node that it leads to.
pub open spec fn link_share(g: Ops<Scalar>, config: NRIConfig) -> Scalar {
    link_amount(g, config.damping, (g.count)(config.k_neighbors as nat).larger(one()))
}

/// The nodes after each of `edges` has added a share to the centrality of its target.
pub open spec fn endorsed(
    g: Ops<Scalar>,
    share: Scalar,
    nodes: Map<NodeId, NodeView>,
    edges: Seq<NodeId>,
) -> Map<NodeId, NodeView>
    decreases edges.len(),
{
    if edges.len() == 0 {
        nodes
    } else {
        let before = endorsed(g, share, nodes, edges.drop_last());
        let id = edges.last();
        if before.dom().contains(id) {
            let node = before[id];
            before.insert(id, NodeView { centrality: (g.plus)(node.centrality, share), ..node })
        } else {
            before
        }
    }
}

/// The buckets after a node was put into one of them.
pub open spec fn registered(buckets: Map<u16, Seq<NodeId>>, key: u16, id: NodeId) -> Map<
    u16,
    Seq<NodeId>,
> {
    buckets.insert(
        key,
        if buckets.dom().contains(key) {
            buckets[key].push(id)
        } else {
            seq![id]
        },
    )
}

/// Whether two maps hold the same nodes but for the centralities of those in `touched`.
pub open spec fn same_but_centrality(
    a: Map<NodeId, NodeView>,
    b: Map<NodeId, NodeView>,
    touched: Seq<NodeId>,
) -> bool {
    &&& a.dom() == b.dom()
    &&& forall|id: NodeId| #[trigger]
        a.dom().contains(id) ==> b[id] == NodeView { centrality: b[id].centrality, ..a[id] }
    &&& forall|id: NodeId| #[trigger]
        a.dom().contains(id) && !touched.contains(id) ==> b[id] == a[id]
}

/// How an index differs from what it was before a vector was inserted, whatever the rounding:
/// which fingerprint the new node gets and what the centralities come to is left open here.
pub open spec fn grown(
    before: IndexView,
    after: IndexView,
    vector: Seq<Scalar>,
    label: Option<Seq<char>>,
) -> bool {
    let id = before.next_id;
    let node = after.nodes[id];
    &&& after.nodes.dom() == before.nodes.dom().insert(id)
    &&& node.id == id
    &&& node.vector == vector
    &&& node.label == label
    &&& node.fingerprint.0 < pow2(after.planes.len())
    &&& node.edges == before.nearest(
        node.fingerprint,
        before.config.k_neighbors as nat,
        Some(id),
    )
    &&& forall|other: NodeId|
        before.nodes.dom().contains(other) && other != id ==> #[trigger] after.nodes[other] == (
        NodeView { centrality: after.nodes[other].centrality, ..before.nodes[other] })
    &&& forall|other: NodeId|
        before.nodes.dom().contains(other) && other != id && !node.edges.contains(other)
            ==> #[trigger] after.nodes[other] == before.nodes[other]
    &&& after.buckets == registered(before.buckets, node.fingerprint.bucket(), id)
    &&& after.next_id == id + 1
    &&& after.config == before.config
    &&& after.deleted == before.deleted
    &&& after.dims == Some(vector.len() as Dims)
    &&& before.dims is Some ==> after.planes == before.planes && after.plane_dims
        == before.plane_dims
    &&& before.dims is None ==> after.planes.len() == before.config.n_projections
        && after.plane_dims == vector.len() && forall|i: int|
        0 <= i < after.planes.len() ==> #[trigger] after.planes[i].len() == vector.len()
}

impl NeuraRankIndex {
    /// An empty index.
    pub fn new<A: Arithmetic>(config: NRIConfig, ar: &A) -> (r: NeuraRankIndex)
        ensures
            r@ == (IndexView {
                config,
                nodes: Map::empty(),
                buckets: Map::empty(),
                planes: r@.planes,
                plane_dims: FIRST_DIMS,
                next_id: 0,
                dims: None,
                deleted: Set::empty(),
            }),
            r@.planes.len() == config.n_projections,
            forall|i: int| 0 <= i < r@.planes.len() ==> #[trigger] r@.planes[i].len() == FIRST_DIMS,
            r@.wf(),
            r@.live() == Set::<NodeId>::empty(),
            faithful(ar) ==> r@.hasher_current(ops_of(ar)),
            r@.plane_dims == 512,
            faithful(ar) ==> r@.planes == planes_of(
                ops_of(ar),
                512,
                r@.config.n_projections as nat,
                0xDEAD_BEEF_CAFE_BABE,
            ),
    {
        let hasher = SimHasher::new(FIRST_DIMS, config.n_projections, SEED, ar);
        let r = NeuraRankIndex {
            config,
            nodes: BTreeMap::new(),
            coarse_buckets: BTreeMap::new(),
            hasher,
            next_id: 0,
            dims: None,
            deleted: BTreeSet::new(),
        };
        assert(r@.nodes =~= Map::empty());
        assert(r@.buckets =~= Map::empty());
        proof {
            lemma_new_wf(r@);
        }
        r
    }

    /// An empty index with the standard settings.
    pub fn with_defaults<A: Arithmetic>(ar: &A) -> (r: NeuraRankIndex)
        ensures
            r@ == (IndexView {
                config: standard(),
                nodes: Map::empty(),
                buckets: Map::empty(),
                planes: r@.planes,
                plane_dims: FIRST_DIMS,
                next_id: 0,
                dims: None,
                deleted: Set::empty(),
            }),
            r@.planes.len() == 128,
            forall|i: int| 0 <= i < r@.planes.len() ==> #[trigger] r@.planes[i].len() == FIRST_DIMS,
            r@.wf(),
            r@.live() == Set::<NodeId>::empty(),
            faithful(ar) ==> r@.hasher_current(ops_of(ar)),
            r@.plane_dims == 512,
            faithful(ar) ==> r@.planes == planes_of(
                ops_of(ar),
                512,
                r@.config.n_projections as nat,
                0xDEAD_BEEF_CAFE_BABE,
            ),
    {
        Self::new(NRIConfig::default(), ar)
    }

    /// Makes the hasher anew, for vectors of `dims` entries.
    fn reinit_hasher<A: Arithmetic>(&mut self, dims: usize, ar: &A)
        ensures
            final(self)@ == (IndexView {
                planes: final(self)@.planes,
                plane_dims: dims,
                ..old(self)@
            }),
            final(self).nodes@ == old(self).nodes@,
            final(self).coarse_buckets@ == old(self).coarse_buckets@,
            final(self)@.planes.len() == old(self).config.n_projections,
            forall|i: int|
                0 <= i < final(self)@.planes.len() ==> #[trigger] final(self)@.planes[i].len()
                    == dims,
            faithful(ar) ==> final(self)@ == old(self)@.rehashed(ops_of(ar), dims),
    {
        self.hasher = SimHasher::new(dims, self.config.n_projections, SEED, ar);
    }

    /// Inserts a vector and links it to the live nodes nearest to it. The identifiers of a new
    /// index count up from zero.
    ///
    /// The first vector fixes the number of entries of all.
    pub fn insert<A: Arithmetic>(
        &mut self,
        vector: Vec<Scalar>,
        label: Option<String>,
        ar: &A,
    ) -> (id: NodeId)
        requires
            old(self).dims is Some ==> old(self).dims == Some(vector.len()),
            old(self).dims is None ==> old(self).config.n_projections <= 128,
            old(self).dims is Some ==> old(self)@.planes.len() <= 128,
            old(self).next_id < u32::MAX,
        ensures
            id == old(self).next_id,
            grown(old(self)@, final(self)@, vector@, label_text(label)),
            old(self)@.wf() ==> final(self)@.wf(),
            faithful(ar) ==> final(self)@ == old(self)@.inserted(
                ops_of(ar),
                vector@,
                label_text(label),
            ),
    {
        let dims: usize = vector.len();
        let ghost g = ops_of(ar);
        let ghost start = self@;
        let ghost text = label_text(label);
        if self.dims.is_none() {
            self.dims = Some(dims);
            self.reinit_hasher(dims, ar);
        }
        let ghost sized = self@;
        assert(sized.nodes == start.nodes);
        assert(sized.buckets == start.buckets);
        let id = self.next_id;
        self.next_id = id + 1;
        let fp = self.hasher.fingerprint(vector.as_slice(), ar);
        let edges = self.find_k_nearest_by_fingerprint(fp, self.config.k_neighbors, Some(id));
        assert(edges@ == start.nearest(fp, start.config.k_neighbors as nat, Some(id)));
        let slots = ar.count(self.config.k_neighbors as u64).max(one());
        let share = ar.over(self.config.damping, slots);
        endorse(&mut self.nodes, &edges, share, ar);
        let ghost endorsed_nodes = node_views(self.nodes@);
        register(&mut self.coarse_buckets, fp.bucket_key(), id);
        let centrality = ar.minus(one(), self.config.damping);
        let node = Node { id, vector, fingerprint: fp, edges, centrality, label };
        let ghost node_view = node@;
        self.nodes.insert(id, node);
        proof {
            assert(self@.nodes =~= endorsed_nodes.insert(id, node_view));
            assert(same_but_centrality(start.nodes, endorsed_nodes, node_view.edges));
            assert forall|other: NodeId| #[trigger]
                start.nodes.dom().contains(other) && other != id implies self@.nodes[other]
                == NodeView { centrality: self@.nodes[other].centrality, ..start.nodes[other] } by {
                assert(endorsed_nodes[other] == NodeView {
                    centrality: endorsed_nodes[other].centrality,
                    ..start.nodes[other]
                });
            }
            if faithful(ar) {
                assert(self@ =~= start.inserted(g, node_view.vector, text));
            }
            assert(grown(start, self@, node_view.vector, text));
            if start.wf() {
                lemma_grown_wf(start, self@, node_view.vector, text);
            }
        }
        id
    }

    /// The live nodes nearest to a fingerprint.
    fn find_k_nearest_by_fingerprint(
        &self,
        fp: SimFingerprint,
        k: usize,
        exclude: Option<NodeId>,
    ) -> (out: Vec<NodeId>)
        ensures
            out@ == self@.nearest(fp, k as nat, exclude),
    {
        let ids = ids_without(&self.nodes, &self.deleted, exclude);
        let nodes = &self.nodes;
        let ghost view = self@;
        proof {
            lemma_ascending(self.nodes@.dom().difference(self.deleted@).difference(as_set(exclude)));
            assert(view.nodes.dom() =~= nodes@.dom());
            assert forall|i: int| 0 <= i < ids@.len() implies nodes@.dom().contains(
                #[trigger] ids@[i],
            ) by {
                assert(ids@.contains(ids@[i]));
            }
        }
        let score = |id: &NodeId| -> (c: (NodeId, Scalar))
            requires
                nodes@.dom().contains(*id),
            ensures
                c == similarity_in(nodes@, fp, *id),
            { similarity_to(nodes, fp, *id) };
        let candidates = par_map(ids.as_slice(), score);
        assert(candidates@ =~= view.similarities(fp, ids@));
        let mut best: Vec<(NodeId, Scalar)> = Vec::new();
        let mut i: usize = 0;
        while i < candidates.len()
            invariant
                i <= candidates@.len(),
                best@.len() <= k,
                best@ == first(ranked(candidates@.take(i as int)), k as nat),
            decreases candidates.len() - i,
        {
            let c = candidates[i];
            proof {
                let seen = candidates@.take(i as int);
                let next = candidates@.take(i + 1);
                assert(next.drop_last() =~= seen);
                assert(next.last() == c);
                lemma_ranked(seen);
                lemma_first_of_place(ranked(seen), c, k as nat);
            }
            keep_best(&mut best, c, k);
            i = i + 1;
        }
        assert(candidates@.take(i as int) =~= candidates@);
        ids_of_ranking(&best)
    }
}

/// The buckets of the given nodes, each put into its own in turn.
pub open spec fn grouped(ids: Seq<NodeId>, nodes: Map<NodeId, NodeView>) -> Map<u16, Seq<NodeId>>
    decreases ids.len(),
{
    if ids.len() == 0 {
        Map::empty()
    } else {
        let id = ids.last();
        registered(grouped(ids.drop_last(), nodes), nodes[id].fingerprint.bucket(), id)
    }
}

/// Adds a share to the centrality of each node that one of `edges` leads to.
fn endorse<A: Arithmetic>(
    nodes: &mut BTreeMap<NodeId, Node>,
    edges: &Vec<NodeId>,
    share: Scalar,
    ar: &A,
)
    ensures
        same_but_centrality(node_views(old(nodes)@), node_views(final(nodes)@), edges@),
        faithful(ar) ==> node_views(final(nodes)@) == endorsed(
            ops_of(ar),
            share,
            node_views(old(nodes)@),
            edges@,
        ),
{
    let ghost start = node_views(nodes@);
    let mut i: usize = 0;
    assert(edges@.take(0) =~= Seq::empty());
    while i < edges.len()
        invariant
            i <= edges@.len(),
            same_but_centrality(start, node_views(nodes@), edges@),
            faithful(ar) ==> node_views(nodes@) == endorsed(
                ops_of(ar),
                share,
                start,
                edges@.take(i as int),
            ),
        decreases edges.len() - i,
    {
        let id: NodeId = edges[i];
        let ghost before = node_views(nodes@);
        assert(edges@.take(i + 1).drop_last() =~= edges@.take(i as int));
        assert(edges@.contains(id));
        if let Some(mut node) = nodes.remove(&id) {
            let ghost old_node = node@;
            node.centrality = ar.plus(node.centrality, share);
            let ghost new_node = node@;
            nodes.insert(id, node);
            assert(node_views(nodes@) =~= before.insert(id, new_node));
            assert(new_node =~= NodeView { centrality: new_node.centrality, ..old_node });
            assert(old_node == before[id]);
        } else {
            assert(node_views(nodes@) =~= before);
        }
        i = i + 1;
    }
    assert(edges@.take(i as int) =~= edges@);
}

/// Puts a node into a bucket.
pub(crate) fn register(buckets: &mut BTreeMap<u16, Vec<NodeId>>, key: u16, id: NodeId)
    ensures
        bucket_views(final(buckets)@) == registered(bucket_views(old(buckets)@), key, id),
{
    let mut members = match buckets.remove(&key) {
        Some(members) => members,
        None => Vec::new(),
    };
    members.push(id);
    let ghost listed = members@;
    let ghost before = bucket_views(old(buckets)@);
    buckets.insert(key, members);
    assert(!before.dom().contains(key) ==> listed =~= seq![id]);
    assert(bucket_views(buckets@) =~= before.insert(key, listed));
}

/// A node with the agreement of its fingerprint with the given one.
pub open spec fn similarity_in(nodes: Map<NodeId, Node>, fp: SimFingerprint, id: NodeId) -> (
    NodeId,
    Scalar,
) {
    (id, fp.agreement(nodes[id].fingerprint))
}

/// A node with the agreement of its fingerprint with the given one.
fn similarity_to(nodes: &BTreeMap<NodeId, Node>, fp: SimFingerprint, id: NodeId) -> (c: (
    NodeId,
    Scalar,
))
    requires
        nodes@.dom().contains(id),
    ensures
        c == similarity_in(nodes@, fp, id),
{
    match nodes.get(&id) {
        Some(node) => (id, fp.similarity(&node.fingerprint)),
        None => (id, one()),
    }
}

/// The identifiers of a ranking, in its order.
fn ids_of_ranking(ranking: &Vec<(NodeId, Scalar)>) -> (out: Vec<NodeId>)
    ensures
        out@ == ranking@.map_values(|c: (NodeId, Scalar)| c.0),
{
    let mut out: Vec<NodeId> = Vec::new();
    let mut i: usize = 0;
    while i < ranking.len()
        invariant
            i <= ranking@.len(),
            out@ == ranking@.take(i as int).map_values(|c: (NodeId, Scalar)| c.0),
        decreases ranking.len() - i,
    {
        out.push(ranking[i].0);
        i = i + 1;
        assert(out@ =~= ranking@.take(i as int).map_values(|c: (NodeId, Scalar)| c.0));
    }
    assert(ranking@.take(i as int) =~= ranking@);
    out
}

} // verus!
