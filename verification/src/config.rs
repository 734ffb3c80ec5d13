//! The settings of an index.
use crate::scalar::Scalar;
use vstd::prelude::*;

verus! {

/// The settings of an index.
#[derive(Clone, Copy, PartialEq, Eq, Structural, Debug)]
pub struct NRIConfig {
    /// How many links a new node gets.
    pub k_neighbors: usize,
    /// How many nodes a search keeps in view.
    pub beam_width: usize,
    /// The share of a node's weight that goes along its links.
    pub damping: Scalar,
    /// How many bits a fingerprint has: at most 128.
    pub n_projections: usize,
    /// The share of centrality in a score: zero ranks by cosine alone.
    pub centrality_weight: Scalar,
    /// How many rounds of re-ranking to run.
    pub centrality_iters: usize,
}

/// The settings that an index has unless told otherwise: damping `0.85`, centrality weight `0.15`.
pub open spec fn standard() -> NRIConfig {
    NRIConfig {
        k_neighbors: 16,
        beam_width: 64,
        damping: Scalar { bits: 0x3F59_999A },
        n_projections: 128,
        centrality_weight: Scalar { bits: 0x3E19_999A },
        centrality_iters: 5,
    }
}

impl Default for NRIConfig {
    fn default() -> (c: NRIConfig)
        ensures
            c == standard(),
            c.k_neighbors == 16,
            c.beam_width == 64,
            c.damping.bits == 0x3F59_999A,
            c.n_projections == 128,
            c.centrality_weight.bits == 0x3E19_999A,
            c.centrality_iters == 5,
    {
        NRIConfig {
            k_neighbors: 16,
            beam_width: 64,
            damping: Scalar { bits: 0x3F59_999A },
            n_projections: 128,
            centrality_weight: Scalar { bits: 0x3E19_999A },
            centrality_iters: 5,
        }
    }
}

} // verus!
