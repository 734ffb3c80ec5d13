//! Indexes as bytes.
//!
//! An index is written as a tuple of plain values: its settings, nodes, buckets, next identifier,
//! number of entries and marked nodes. The hasher is not written: it is made anew from the
//! settings.
use crate::arith::faithful;
use crate::arith::ops_of;
use crate::arith::Arithmetic;
use crate::arith::Ops;
use crate::config::NRIConfig;
use crate::fingerprint::SimFingerprint;
use crate::hasher::planes_of;
use crate::hasher::SimHasher;
use crate::ids::ascending;
use crate::ids::ids_of;
use crate::ids::lemma_ascending;
use crate::ids::lemma_push_contains;
use crate::ids::NodeId;
use crate::index::bucket_views;
use crate::index::node_views;
use crate::index::IndexView;
use crate::index::NeuraRankIndex;
use crate::index::FIRST_DIMS;
use crate::index::SEED;
use crate::laws::node_wf;
use crate::node::label_text;
use crate::node::Node;
use crate::node::NodeView;
use crate::scalar::Scalar;
use crate::search::answers;
use std::collections::BTreeMap;
use std::collections::BTreeSet;
use vstd::prelude::*;

verus! {

/// Settings, in their order, numbers by their bits.
pub type ConfigRecord = (u64, u64, u32, u64, u32, u64);

/// A node: identifier, vector, fingerprint, links, centrality, label.
pub type NodeRecord = (NodeId, Vec<u32>, u128, Vec<NodeId>, u32, Option<String>);

/// An index: settings, nodes, buckets, next identifier, number of entries, marked nodes.
pub type Record = (
    ConfigRecord,
    BTreeMap<NodeId, NodeRecord>,
    BTreeMap<u16, Vec<NodeId>>,
    NodeId,
    Option<u64>,
    BTreeSet<NodeId>,
);

/// What a node record holds.
pub type NodeRecordView = (NodeId, Seq<u32>, u128, Seq<NodeId>, u32, Option<Seq<char>>);

/// What a record holds.
pub type RecordView = (
    ConfigRecord,
    Map<NodeId, NodeRecordView>,
    Map<u16, Seq<NodeId>>,
    NodeId,
    Option<u64>,
    Set<NodeId>,
);

/// What a node record holds.
pub open spec fn node_record_view(n: NodeRecord) -> NodeRecordView {
    (n.0, n.1@, n.2, n.3@, n.4, label_text(n.5))
}

/// What a record holds.
pub open spec fn record_view(r: Record) -> RecordView {
    (
        r.0,
        r.1@.map_values(|n: NodeRecord| node_record_view(n)),
        bucket_views(r.2@),
        r.3,
        r.4,
        r.5@,
    )
}

/// The error of the encoding. Nothing is known of it here but that it came.
#[verifier::external_type_specification]
#[verifier::external_body]
pub struct ExErrorKind(bincode::ErrorKind);

/// The bytes that `bincode::serialize` writes for a record.
pub uninterp spec fn encoded(record: RecordView) -> Seq<u8>;

/// The record that `bincode::deserialize` reads from bytes, or `None` where it reports an error.
pub uninterp spec fn decoded(bytes: Seq<u8>) -> Option<RecordView>;

/// `bincode::serialize` of a record.
///
/// Claimed of it: it succeeds, as nothing in a record is of unknown length and no limit on the
/// size is set; the bytes depend on what the record holds and on nothing else; and
/// `bincode::deserialize` reads the same record back from them.
#[verifier::external_body]
fn encode(record: &Record) -> (r: Result<Vec<u8>, bincode::Error>)
    ensures
        r is Ok,
        r->Ok_0@ == encoded(record_view(*record)),
        decoded(r->Ok_0@) == Some(record_view(*record)),
{
    bincode::serialize(record)
}

/// `bincode::deserialize` of a record.
///
/// Claimed of it: whether it succeeds, and with which record, depends on the bytes alone.
#[verifier::external_body]
fn decode(bytes: &[u8]) -> (r: Result<Record, bincode::Error>)
    ensures
        match r {
            Ok(record) => decoded(bytes@) == Some(record_view(record)),
            Err(_) => decoded(bytes@) is None,
        },
{
    bincode::deserialize(bytes)
}

/// `to_string` of an error of `bincode`, for people to read.
///
/// Nothing is claimed of the text: it may name a limit of the machine.
#[verifier::external_body]
fn error_text(e: &bincode::Error) -> (text: String) {
    e.to_string()
}

/// Why bytes are not an index.
#[derive(Clone, PartialEq, Eq, Debug)]
pub enum LoadError {
    /// The bytes are not a record. What stood in the way is said in words.
    Undecodable(String),
    /// A setting, or the number of entries, is larger than this machine can count.
    OutOfRange,
}

/// The bits of the numbers.
pub open spec fn bits(v: Seq<Scalar>) -> Seq<u32> {
    v.map_values(|s: Scalar| s.bits)
}

/// The numbers with the given bits.
pub open spec fn scalars(b: Seq<u32>) -> Seq<Scalar> {
    b.map_values(|b: u32| Scalar { bits: b })
}

/// The record of settings.
pub open spec fn config_record(c: NRIConfig) -> ConfigRecord {
    (
        c.k_neighbors as u64,
        c.beam_width as u64,
        c.damping.bits,
        c.n_projections as u64,
        c.centrality_weight.bits,
        c.centrality_iters as u64,
    )
}

/// The settings of a record.
pub open spec fn recorded_config(r: ConfigRecord) -> NRIConfig {
    NRIConfig {
        k_neighbors: r.0 as usize,
        beam_width: r.1 as usize,
        damping: Scalar { bits: r.2 },
        n_projections: r.3 as usize,
        centrality_weight: Scalar { bits: r.4 },
        centrality_iters: r.5 as usize,
    }
}

/// The record of a node.
pub open spec fn node_record(n: NodeView) -> NodeRecordView {
    (n.id, bits(n.vector), n.fingerprint.0, n.edges, n.centrality.bits, n.label)
}

/// The node of a record.
pub open spec fn recorded_node(r: NodeRecordView) -> NodeView {
    NodeView {
        id: r.0,
        vector: scalars(r.1),
        fingerprint: SimFingerprint(r.2),
        edges: r.3,
        centrality: Scalar { bits: r.4 },
        label: r.5,
    }
}

/// A number of entries, as it is written.
pub open spec fn dims_record(dims: Option<usize>) -> Option<u64> {
    match dims {
        Some(d) => Some(d as u64),
        None => None,
    }
}

/// A number of entries, as it was written.
pub open spec fn recorded_dims(dims: Option<u64>) -> Option<usize> {
    match dims {
        Some(d) => Some(d as usize),
        None => None,
    }
}

/// Whether this machine can count as far as the record goes.
pub open spec fn countable(r: RecordView) -> bool {
    &&& r.0.0 <= usize::MAX
    &&& r.0.1 <= usize::MAX
    &&& r.0.3 <= usize::MAX
    &&& r.0.5 <= usize::MAX
    &&& r.4 matches Some(d) ==> d <= usize::MAX
}

impl IndexView {
    /// What is written of an index: all but its hasher.
    pub open spec fn record(self) -> RecordView {
        (
            config_record(self.config),
            self.nodes.map_values(|n: NodeView| node_record(n)),
            self.buckets,
            self.next_id,
            dims_record(self.dims),
            self.deleted,
        )
    }

    /// The number of entries that a hasher of this index is made for.
    pub open spec fn hasher_dims(self) -> usize {
        self.dims.unwrap_or(FIRST_DIMS)
    }

    /// Whether the hasher is the one that the settings and the seed give.
    pub open spec fn hasher_current(self, g: Ops<Scalar>) -> bool {
        &&& self.plane_dims == self.hasher_dims()
        &&& self.planes == planes_of(
            g,
            self.hasher_dims() as nat,
            self.config.n_projections as nat,
            SEED,
        )
    }
}

/// The index of a record, with the given planes.
pub open spec fn restored(r: RecordView, planes: Seq<Seq<Scalar>>) -> IndexView {
    let dims = recorded_dims(r.4);
    IndexView {
        config: recorded_config(r.0),
        nodes: r.1.map_values(|n: NodeRecordView| recorded_node(n)),
        buckets: r.2,
        planes,
        plane_dims: dims.unwrap_or(FIRST_DIMS),
        next_id: r.3,
        dims,
        deleted: r.5,
    }
}

fn write_bits(v: &Vec<Scalar>) -> (out: Vec<u32>)
    ensures
        out@ == bits(v@),
{
    let mut out: Vec<u32> = Vec::new();
    let mut i: usize = 0;
    while i < v.len()
        invariant
            i <= v@.len(),
            out@ == bits(v@.take(i as int)),
        decreases v.len() - i,
    {
        out.push(v[i].bits);
        i = i + 1;
        assert(out@ =~= bits(v@.take(i as int)));
    }
    assert(v@.take(i as int) =~= v@);
    out
}

fn read_bits(b: &Vec<u32>) -> (out: Vec<Scalar>)
    ensures
        out@ == scalars(b@),
{
    let mut out: Vec<Scalar> = Vec::new();
    let mut i: usize = 0;
    while i < b.len()
        invariant
            i <= b@.len(),
            out@ == scalars(b@.take(i as int)),
        decreases b.len() - i,
    {
        out.push(Scalar { bits: b[i] });
        i = i + 1;
        assert(out@ =~= scalars(b@.take(i as int)));
    }
    assert(b@.take(i as int) =~= b@);
    out
}

fn write_node(n: &Node) -> (r: NodeRecord)
    ensures
        node_record_view(r) == node_record(n@),
{
    let label = match &n.label {
        Some(text) => Some(text.clone()),
        None => None,
    };
    let edges = n.edges.clone();
    assert(edges@ =~= n.edges@);
    (n.id, write_bits(&n.vector), n.fingerprint.0, edges, n.centrality.bits, label)
}

fn read_node(r: NodeRecord) -> (n: Node)
    ensures
        n@ == recorded_node(node_record_view(r)),
{
    let (id, vector, fingerprint, edges, centrality, label) = r;
    Node {
        id,
        vector: read_bits(&vector),
        fingerprint: SimFingerprint(fingerprint),
        edges,
        centrality: Scalar { bits: centrality },
        label,
    }
}

fn write_nodes(nodes: &BTreeMap<NodeId, Node>) -> (out: BTreeMap<NodeId, NodeRecord>)
    ensures
        out@.map_values(|n: NodeRecord| node_record_view(n)) == node_views(nodes@).map_values(
            |n: NodeView| node_record(n),
        ),
{
    let ghost all = node_views(nodes@).map_values(|n: NodeView| node_record(n));
    let ids = ids_of(nodes);
    proof {
        lemma_ascending(nodes@.dom());
    }
    let mut out: BTreeMap<NodeId, NodeRecord> = BTreeMap::new();
    let mut i: usize = 0;
    while i < ids.len()
        invariant
            i <= ids@.len(),
            ids@ == ascending(nodes@.dom()),
            forall|x: NodeId| #[trigger] ids@.contains(x) <==> nodes@.dom().contains(x),
            all == node_views(nodes@).map_values(|n: NodeView| node_record(n)),
            out@.dom() == ids@.take(i as int).to_set(),
            forall|x: NodeId| #[trigger]
                out@.dom().contains(x) ==> node_record_view(out@[x]) == all[x],
        decreases ids.len() - i,
    {
        let id: NodeId = ids[i];
        let ghost before = out@;
        proof {
            assert(ids@.contains(ids@[i as int]));
            lemma_push_contains(ids@.take(i as int), id);
            assert(ids@.take(i + 1) =~= ids@.take(i as int).push(id));
        }
        if let Some(node) = nodes.get(&id) {
            out.insert(id, write_node(node));
            assert(out@.dom() =~= ids@.take(i + 1).to_set());
        }
        i = i + 1;
    }
    assert(ids@.take(i as int) =~= ids@);
    assert(out@.map_values(|n: NodeRecord| node_record_view(n)) =~= all);
    out
}

fn read_nodes(records: &mut BTreeMap<NodeId, NodeRecord>) -> (out: BTreeMap<NodeId, Node>)
    ensures
        node_views(out@) == old(records)@.map_values(
            |n: NodeRecord| node_record_view(n),
        ).map_values(|n: NodeRecordView| recorded_node(n)),
{
    let ghost start = records@;
    let ids = ids_of(records);
    proof {
        lemma_ascending(records@.dom());
    }
    let mut out: BTreeMap<NodeId, Node> = BTreeMap::new();
    let mut i: usize = 0;
    while i < ids.len()
        invariant
            i <= ids@.len(),
            ids@ == ascending(start.dom()),
            ids@.no_duplicates(),
            forall|x: NodeId| #[trigger] ids@.contains(x) <==> start.dom().contains(x),
            forall|j: int|
                i <= j < ids@.len() ==> records@.dom().contains(#[trigger] ids@[j])
                    && records@[ids@[j]] == start[ids@[j]],
            out@.dom() == ids@.take(i as int).to_set(),
            forall|x: NodeId| #[trigger]
                out@.dom().contains(x) ==> out@[x]@ == recorded_node(node_record_view(start[x])),
        decreases ids.len() - i,
    {
        let id: NodeId = ids[i];
        let ghost rest = records@;
        proof {
            assert(ids@.contains(ids@[i as int]));
            lemma_push_contains(ids@.take(i as int), id);
            assert(ids@.take(i + 1) =~= ids@.take(i as int).push(id));
        }
        if let Some(record) = records.remove(&id) {
            out.insert(id, read_node(record));
            assert(out@.dom() =~= ids@.take(i + 1).to_set());
            assert forall|j: int| i + 1 <= j < ids@.len() implies records@.dom().contains(
                #[trigger] ids@[j],
            ) && records@[ids@[j]] == start[ids@[j]] by {
                assert(ids@[j] != ids@[i as int]);
                assert(rest.dom().contains(ids@[j]));
            }
        }
        i = i + 1;
    }
    assert(ids@.take(i as int) =~= ids@);
    assert(node_views(out@) =~= start.map_values(|n: NodeRecord| node_record_view(n)).map_values(
        |n: NodeRecordView| recorded_node(n),
    ));
    out
}

/// The number, where it can be an index on this machine.
fn to_usize(n: u64) -> (r: Option<usize>)
    ensures
        r == if n <= usize::MAX {
            Some(n as usize)
        } else {
            None
        },
{
    if n <= usize::MAX as u64 {
        Some(n as usize)
    } else {
        None
    }
}

/// The settings of a record, where this machine can count as far as they go.
fn read_config(r: ConfigRecord) -> (c: Option<NRIConfig>)
    ensures
        c == if r.0 <= usize::MAX && r.1 <= usize::MAX && r.3 <= usize::MAX && r.5 <= usize::MAX {
            Some(recorded_config(r))
        } else {
            None
        },
{
    match (to_usize(r.0), to_usize(r.1), to_usize(r.3), to_usize(r.5)) {
        (
            Some(k_neighbors),
            Some(beam_width),
            Some(n_projections),
            Some(centrality_iters),
        ) => Some(
            NRIConfig {
                k_neighbors,
                beam_width,
                damping: Scalar { bits: r.2 },
                n_projections,
                centrality_weight: Scalar { bits: r.4 },
                centrality_iters,
            },
        ),
        _ => None,
    }
}

impl NeuraRankIndex {
    /// The index as a record.
    pub fn to_record(&self) -> (r: Record)
        ensures
            record_view(r) == self@.record(),
    {
        let c = &self.config;
        let config = (
            c.k_neighbors as u64,
            c.beam_width as u64,
            c.damping.bits,
            c.n_projections as u64,
            c.centrality_weight.bits,
            c.centrality_iters as u64,
        );
        let dims = match self.dims {
            Some(dims) => Some(dims as u64),
            None => None,
        };
        (
            config,
            write_nodes(&self.nodes),
            self.coarse_buckets.clone(),
            self.next_id,
            dims,
            self.deleted.clone(),
        )
    }

    /// The index of a record. The hasher is made anew.
    pub fn from_record<A: Arithmetic>(record: Record, ar: &A) -> (r: Result<NeuraRankIndex, LoadError>)
        ensures
            match r {
                Ok(index) => {
                    &&& countable(record_view(record))
                    &&& index@ == restored(record_view(record), index@.planes)
                    &&& index@.planes.len() == index@.config.n_projections
                    &&& forall|i: int|
                        0 <= i < index@.planes.len() ==> #[trigger] index@.planes[i].len()
                            == index@.plane_dims
                    &&& faithful(ar) ==> index@.hasher_current(ops_of(ar))
                },
                Err(e) => e == LoadError::OutOfRange && !countable(record_view(record)),
            },
    {
        let (config, mut nodes, coarse_buckets, next_id, dims, deleted) = record;
        let config = match read_config(config) {
            Some(config) => config,
            None => return Err(LoadError::OutOfRange),
        };
        let dims = match dims {
            Some(dims) => match to_usize(dims) {
                Some(dims) => Some(dims),
                None => return Err(LoadError::OutOfRange),
            },
            None => None,
        };
        let hasher_dims: usize = match dims {
            Some(dims) => dims,
            None => FIRST_DIMS,
        };
        let hasher = SimHasher::new(hasher_dims, config.n_projections, SEED, ar);
        let nodes = read_nodes(&mut nodes);
        Ok(NeuraRankIndex { config, nodes, coarse_buckets, hasher, next_id, dims, deleted })
    }

    /// The index as bytes, from which [`load`](NeuraRankIndex::load) gives it back.
    pub fn save(&self) -> (bytes: Vec<u8>)
        ensures
            bytes@ == encoded(self@.record()),
            decoded(bytes@) == Some(self@.record()),
    {
        let record = self.to_record();
        match encode(&record) {
            Ok(bytes) => bytes,
            Err(_) => Vec::new(),
        }
    }

    /// The index that bytes stand for.
    pub fn load<A: Arithmetic>(bytes: &[u8], ar: &A) -> (r: Result<NeuraRankIndex, LoadError>)
        ensures
            match decoded(bytes@) {
                None => r is Err && r->Err_0 is Undecodable,
                Some(record) => match r {
                    Ok(index) => {
                        &&& countable(record)
                        &&& index@ == restored(record, index@.planes)
                        &&& index@.planes.len() == index@.config.n_projections
                        &&& forall|i: int|
                            0 <= i < index@.planes.len() ==> #[trigger] index@.planes[i].len()
                                == index@.plane_dims
                        &&& faithful(ar) ==> index@.hasher_current(ops_of(ar))
                    },
                    Err(e) => e == LoadError::OutOfRange && !countable(record),
                },
            },
    {
        match decode(bytes) {
            Ok(record) => Self::from_record(record, ar),
            Err(e) => Err(LoadError::Undecodable(error_text(&e))),
        }
    }
}

/// A record says all of an index but its hasher: read back, it gives the same index.
pub proof fn lemma_reload(v: IndexView, planes: Seq<Seq<Scalar>>)
    ensures
        countable(v.record()),
        restored(v.record(), planes) == (IndexView { planes, plane_dims: v.hasher_dims(), ..v }),
{
    let r = restored(v.record(), planes);
    assert forall|id: NodeId| #[trigger] v.nodes.dom().contains(id) implies r.nodes[id]
        == v.nodes[id] by {
        assert(scalars(bits(v.nodes[id].vector)) =~= v.nodes[id].vector);
    }
    assert(r.nodes =~= v.nodes);
}

/// An index that is saved and loaded again is the same index, with the same answer to every query,
/// where the arithmetic is faithful and the hasher is the one that the settings give.
pub proof fn lemma_load_after_save<A: Arithmetic>(
    v: IndexView,
    loaded: IndexView,
    ar: &A,
    query: Seq<Scalar>,
    top_k: nat,
)
    requires
        faithful(ar),
        v.hasher_current(ops_of(ar)),
        loaded == restored(v.record(), loaded.planes),
        loaded.hasher_current(ops_of(ar)),
    ensures
        loaded == v,
        loaded.found(ops_of(ar), query, top_k) == v.found(ops_of(ar), query, top_k),
{
    lemma_reload(v, loaded.planes);
}

/// A saved and loaded index answers every query as before, ids and scores alike, where the
/// arithmetic is faithful and the hasher is the one that the settings give.
pub proof fn lemma_loaded_answers<A: Arithmetic>(
    v: IndexView,
    loaded: IndexView,
    ar: &A,
    query: Seq<Scalar>,
    top_k: nat,
    r: Seq<(NodeId, Scalar)>,
    s: Seq<(NodeId, Scalar)>,
)
    requires
        faithful(ar),
        v.hasher_current(ops_of(ar)),
        loaded == restored(v.record(), loaded.planes),
        loaded.hasher_current(ops_of(ar)),
        answers(v, query, top_k, ar, r),
        answers(loaded, query, top_k, ar, s),
    ensures
        r == s,
{
    lemma_load_after_save(v, loaded, ar, query, top_k);
}

/// Read back, a well-formed index is well formed, with whatever planes the hasher now has as long
/// as there are as many and they are as long.
pub proof fn lemma_reload_wf(v: IndexView, planes: Seq<Seq<Scalar>>)
    requires
        v.wf(),
        planes.len() == v.planes.len(),
        forall|i: int| 0 <= i < planes.len() ==> #[trigger] planes[i].len() == v.plane_dims,
    ensures
        restored(v.record(), planes).wf(),
{
    let w = restored(v.record(), planes);
    lemma_reload(v, planes);
    assert forall|id: NodeId| #[trigger] w.nodes.dom().contains(id) implies node_wf(w, id) by {
        assert(node_wf(v, id));
    }
}

} // verus!
