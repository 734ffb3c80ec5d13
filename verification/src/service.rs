//! Defaults and settings of a served index.
use crate::config::NRIConfig;
use crate::scalar::Scalar;
use vstd::prelude::*;

verus! {

/// How many results a search request gets that does not say.
pub fn default_top_k() -> (k: usize)
    ensures
        k == 10,
{
    10
}

/// How many rounds a re-ranking request gets that does not say.
pub fn default_iters() -> (n: usize)
    ensures
        n == 5,
{
    5
}

/// The settings of an index that is started over: each setting that the request gives, and the
/// current one otherwise.
pub fn reinit_config(
    current: NRIConfig,
    k_neighbors: Option<usize>,
    beam_width: Option<usize>,
    damping: Option<Scalar>,
    centrality_weight: Option<Scalar>,
) -> (c: NRIConfig)
    ensures
        c == (NRIConfig {
            k_neighbors: k_neighbors.unwrap_or(current.k_neighbors),
            beam_width: beam_width.unwrap_or(current.beam_width),
            damping: damping.unwrap_or(current.damping),
            centrality_weight: centrality_weight.unwrap_or(current.centrality_weight),
            ..current
        }),
{
    let mut c = current;
    if let Some(k) = k_neighbors {
        c.k_neighbors = k;
    }
    if let Some(width) = beam_width {
        c.beam_width = width;
    }
    if let Some(d) = damping {
        c.damping = d;
    }
    if let Some(weight) = centrality_weight {
        c.centrality_weight = weight;
    }
    c
}

} // verus!
