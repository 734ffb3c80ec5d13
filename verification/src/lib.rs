//! NeuraRank Index: approximate nearest-neighbour search over a similarity graph.
//!
//! Every stored vector gets a 128-bit fingerprint, the signs of its projections on pseudo-random
//! directions. A new vector is linked to the stored ones whose fingerprints are nearest to its own,
//! and each link adds to the centrality of the node that it leads to. A search enters the graph
//! through a bucket of fingerprints, walks it best prospects first within a beam, and ranks what it
//! visited by a mean of cosine and centrality.
//!
//! Everything that is decided here is verified. Numbers are carried by their bit patterns
//! ([`Scalar`]) and compared exactly; what rounds is asked of an [`Arithmetic`]. Contracts state
//! what holds whatever the rounding, and where the arithmetic is [faithful](arith::faithful), the
//! whole result.
pub mod answer_laws;
pub mod arith;
pub mod baseline;
pub mod baseline_laws;
pub mod bit_laws;
pub mod computed_ranks;
pub mod config;
pub mod fingerprint;
pub mod hasher;
pub mod ids;
pub mod index;
pub mod insert_laws;
pub mod laws;
pub mod lcg;
pub mod node;
pub mod pagerank;
pub mod pagerank_laws;
mod parallel;
pub mod plane_laws;
pub mod rank_flow;
pub mod rank_rounding;
pub mod ranking;
pub mod recall_laws;
pub mod record_laws;
pub mod rerank;
pub mod rounding;
pub mod rounding_laws;
pub mod scalar;
pub mod search;
pub mod search_laws;
pub mod service;
pub mod stats;
pub mod storage;
pub mod symmetry;
pub mod upkeep;
pub mod upkeep_laws;
pub mod vector;
pub mod vector_laws;
pub mod walk_laws;

pub use arith::Arithmetic;
pub use baseline::average_recall;
pub use baseline::brute_force_search;
pub use baseline::hits_at_k;
pub use baseline::near_clone;
pub use baseline::random_vec;
pub use baseline::recall_at_k;
pub use config::NRIConfig;
pub use fingerprint::SimFingerprint;
pub use hasher::SimHasher;
pub use ids::NodeId;
pub use index::Dims;
pub use index::NeuraRankIndex;
pub use node::Node;
pub use scalar::Scalar;
pub use service::default_iters;
pub use service::default_top_k;
pub use service::reinit_config;
pub use stats::IndexStats;
pub use storage::LoadError;
pub use vector::cosine_similarity;
pub use vector::dot_product;
pub use vector::l2_norm;
