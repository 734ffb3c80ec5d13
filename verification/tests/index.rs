//! The index: insertion, search, deletion, compaction, re-ranking, batches, storage and figures.
use neura_rank_index::cosine_similarity;
use neura_rank_index::Arithmetic;
use neura_rank_index::LoadError;
use neura_rank_index::NRIConfig;
use neura_rank_index::NeuraRankIndex;
use neura_rank_index::NodeId;
use neura_rank_index::Scalar;
use neura_rank_index::SimFingerprint;
use std::collections::BTreeMap;
use std::collections::BTreeSet;
use std::collections::HashSet;

struct Ieee;

fn s(x: f32) -> Scalar {
    Scalar { bits: x.to_bits() }
}

fn f(x: Scalar) -> f32 {
    f32::from_bits(x.bits)
}

fn sv(v: &[f32]) -> Vec<Scalar> {
    v.iter().map(|x| s(*x)).collect()
}

impl Arithmetic for Ieee {
    fn plus(&self, x: Scalar, y: Scalar) -> Scalar {
        s(f(x) + f(y))
    }
    fn minus(&self, x: Scalar, y: Scalar) -> Scalar {
        s(f(x) - f(y))
    }
    fn times(&self, x: Scalar, y: Scalar) -> Scalar {
        s(f(x) * f(y))
    }
    fn over(&self, x: Scalar, y: Scalar) -> Scalar {
        s(f(x) / f(y))
    }
    fn root(&self, x: Scalar) -> Scalar {
        s(f(x).sqrt())
    }
    fn log(&self, x: Scalar) -> Scalar {
        s(f(x).ln())
    }
    fn sine(&self, x: Scalar) -> Scalar {
        s(f(x).sin())
    }
    fn cosine(&self, x: Scalar) -> Scalar {
        s(f(x).cos())
    }
    fn tanh(&self, x: Scalar) -> Scalar {
        s(f(x).tanh())
    }
    fn count(&self, n: u64) -> Scalar {
        s(n as f32)
    }
}

fn lcg_vec(dims: usize, seed: u64) -> Vec<f32> {
    let mut state = seed;
    (0..dims)
        .map(|_| {
            state = state
                .wrapping_mul(6364136223846793005)
                .wrapping_add(1442695040888963407);
            ((state >> 33) as f32 / u32::MAX as f32) * 2.0 - 1.0
        })
        .collect()
}

fn scaled(mut v: Vec<f32>) -> Vec<f32> {
    let n = v.iter().map(|x| x * x).sum::<f32>().sqrt();
    v.iter_mut().for_each(|x| *x /= n);
    v
}

fn unit_vec(dims: usize, seed: u64) -> Vec<f32> {
    let mut v = lcg_vec(dims, seed);
    let n = v.iter().map(|x| x * x).sum::<f32>().sqrt().max(1e-10);
    v.iter_mut().for_each(|x| *x /= n);
    v
}

fn with_defaults() -> NeuraRankIndex {
    NeuraRankIndex::with_defaults(&Ieee)
}

fn insert(idx: &mut NeuraRankIndex, v: &[f32], label: Option<String>) -> NodeId {
    idx.insert(sv(v), label, &Ieee)
}

fn search(idx: &NeuraRankIndex, q: &[f32], top_k: usize) -> Vec<(NodeId, f32)> {
    idx.search(&sv(q), top_k, &Ieee)
        .iter()
        .map(|(id, score)| (*id, f(*score)))
        .collect()
}

fn filled(dims: usize, n: u64) -> NeuraRankIndex {
    let mut idx = with_defaults();
    for i in 0..n {
        insert(&mut idx, &lcg_vec(dims, i), None);
    }
    idx
}

fn reloaded(idx: &NeuraRankIndex) -> NeuraRankIndex {
    match NeuraRankIndex::load(&idx.save(), &Ieee) {
        Ok(loaded) => loaded,
        Err(e) => panic!("{e:?}"),
    }
}

fn brute_top_k(corpus: &[Vec<f32>], query: &[f32], k: usize) -> Vec<(usize, f32)> {
    let mut scores: Vec<(usize, f32)> = corpus
        .iter()
        .enumerate()
        .map(|(i, v)| (i, f(cosine_similarity(&sv(v), &sv(query), &Ieee))))
        .collect();
    scores.sort_unstable_by(|a, b| b.1.partial_cmp(&a.1).unwrap());
    scores.truncate(k);
    scores
}

fn recall_at_k(results: &[(NodeId, f32)], ground_truth: &[(usize, f32)], k: usize) -> f32 {
    let found: HashSet<usize> = results.iter().take(k).map(|(id, _)| *id as usize).collect();
    let truth: HashSet<usize> = ground_truth.iter().take(k).map(|(id, _)| *id).collect();
    found.intersection(&truth).count() as f32 / k as f32
}

// Insertion

#[test]
fn test_insert_first_id_is_zero() {
    let mut idx = with_defaults();
    assert_eq!(insert(&mut idx, &lcg_vec(32, 1), None), 0);
}

#[test]
fn test_insert_ids_monotonically_increasing() {
    let mut idx = with_defaults();
    let ids: Vec<u32> = (0..10u64)
        .map(|i| insert(&mut idx, &lcg_vec(32, i), None))
        .collect();
    for w in ids.windows(2) {
        assert!(w[1] == w[0] + 1, "IDs must be consecutive: {:?}", ids);
    }
}

#[test]
fn test_insert_label_retrievable() {
    let mut idx = with_defaults();
    let id = insert(&mut idx, &lcg_vec(32, 1), Some("hello".into()));
    assert_eq!(idx.get_node(id).unwrap().label.as_deref(), Some("hello"));
}

#[test]
fn test_insert_none_label_retrievable() {
    let mut idx = with_defaults();
    let id = insert(&mut idx, &lcg_vec(32, 1), None);
    assert!(idx.get_node(id).unwrap().label.is_none());
}

#[test]
fn test_insert_locks_dims_after_first() {
    let mut idx = with_defaults();
    insert(&mut idx, &lcg_vec(77, 1), None);
    assert_eq!(idx.dims, Some(77));
}

#[test]
fn test_insert_edges_at_most_k() {
    let cfg = NRIConfig { k_neighbors: 8, ..Default::default() };
    let mut idx = NeuraRankIndex::new(cfg, &Ieee);
    for i in 0..50u64 {
        insert(&mut idx, &lcg_vec(32, i), None);
    }
    for node in idx.nodes.values() {
        assert!(
            node.edges.len() <= 8,
            "Node {} has {} edges but k_neighbors=8",
            node.id,
            node.edges.len()
        );
    }
}

#[test]
fn test_insert_centrality_is_positive() {
    let idx = filled(32, 20);
    for node in idx.nodes.values() {
        assert!(
            f(node.centrality) > 0.0,
            "Node {} centrality={} should be > 0",
            node.id,
            f(node.centrality)
        );
    }
}

#[test]
fn test_insert_every_node_in_exactly_one_bucket() {
    let idx = filled(64, 20);
    let total: usize = idx.coarse_buckets.values().map(|v| v.len()).sum();
    assert_eq!(total, 20, "Every inserted node must appear in exactly one bucket");
}

#[test]
fn new_node_links_to_the_nearest_by_hamming_distance() {
    let cfg = NRIConfig { k_neighbors: 5, ..Default::default() };
    let mut idx = NeuraRankIndex::new(cfg, &Ieee);
    for i in 0..40u64 {
        insert(&mut idx, &lcg_vec(32, i), None);
    }
    for (id, node) in &idx.nodes {
        let mut older: Vec<(u32, NodeId)> = (0..*id)
            .map(|o| (node.fingerprint.hamming_dist(&idx.nodes[&o].fingerprint), o))
            .collect();
        older.sort();
        let expected: Vec<NodeId> = older.iter().take(5).map(|(_, o)| *o).collect();
        assert_eq!(node.edges, expected, "node {id}");
    }
}

#[test]
fn insertion_passes_over_deleted_nodes() {
    let mut idx = filled(32, 6);
    idx.delete(2);
    idx.delete(4);
    let id = insert(&mut idx, &lcg_vec(32, 100), None);
    let mut edges = idx.get_node(id).unwrap().edges.clone();
    edges.sort();
    assert_eq!(edges, vec![0, 1, 3, 5]);
}

#[test]
fn links_raise_the_centrality_of_their_targets() {
    let mut idx = with_defaults();
    insert(&mut idx, &lcg_vec(32, 1), None);
    let base = 1.0f32 - 0.85;
    assert_eq!(f(idx.get_node(0).unwrap().centrality), base);
    insert(&mut idx, &lcg_vec(32, 2), None);
    assert_eq!(f(idx.get_node(0).unwrap().centrality), base + 0.85 / 16.0);
    assert_eq!(f(idx.get_node(1).unwrap().centrality), base);
    insert(&mut idx, &lcg_vec(32, 3), None);
    assert_eq!(f(idx.get_node(0).unwrap().centrality), base + 0.85 / 16.0 + 0.85 / 16.0);
    assert_eq!(f(idx.get_node(1).unwrap().centrality), base + 0.85 / 16.0);
}

#[test]
fn no_links_are_made_where_none_are_wanted() {
    let cfg = NRIConfig { k_neighbors: 0, ..Default::default() };
    let mut idx = NeuraRankIndex::new(cfg, &Ieee);
    for i in 0..5u64 {
        insert(&mut idx, &lcg_vec(16, i), None);
    }
    for node in idx.nodes.values() {
        assert!(node.edges.is_empty());
        assert_eq!(f(node.centrality), 1.0f32 - 0.85);
    }
}

#[test]
fn stored_fingerprints_and_buckets_are_those_of_the_vectors() {
    let idx = filled(24, 12);
    for (id, node) in &idx.nodes {
        assert_eq!(node.id, *id);
        assert_eq!(node.fingerprint, idx.hasher.fingerprint(&node.vector, &Ieee));
        assert!(idx.coarse_buckets[&node.fingerprint.bucket_key()].contains(id));
    }
}

#[test]
fn standard_settings() {
    let idx = with_defaults();
    assert_eq!(idx.config.k_neighbors, 16);
    assert_eq!(idx.config.beam_width, 64);
    assert_eq!(f(idx.config.damping), 0.85);
    assert_eq!(idx.config.n_projections, 128);
    assert_eq!(f(idx.config.centrality_weight), 0.15);
    assert_eq!(idx.config.centrality_iters, 5);
    assert_eq!(idx.hasher.dims, 512);
    assert_eq!(idx.hasher.planes.len(), 128);
    assert_eq!(idx.dims, None);
    assert!(idx.is_empty());
}

// Search

#[test]
fn test_search_empty_index_returns_empty() {
    assert!(search(&with_defaults(), &lcg_vec(32, 1), 10).is_empty());
}

#[test]
fn test_search_top_k_zero_returns_empty() {
    let mut idx = with_defaults();
    insert(&mut idx, &lcg_vec(32, 1), None);
    assert!(search(&idx, &lcg_vec(32, 99), 0).is_empty());
}

#[test]
fn test_search_result_count_matches_top_k() {
    let idx = filled(64, 50);
    assert_eq!(search(&idx, &lcg_vec(64, 999), 10).len(), 10);
}

#[test]
fn test_search_top_k_larger_than_corpus_returns_all() {
    let idx = filled(32, 5);
    assert_eq!(
        search(&idx, &lcg_vec(32, 99), 100).len(),
        5,
        "top_k > N should return all N nodes"
    );
}

#[test]
fn test_search_results_sorted_descending() {
    let idx = filled(64, 50);
    let results = search(&idx, &lcg_vec(64, 999), 20);
    for w in results.windows(2) {
        assert!(w[0].1 >= w[1].1, "Out of order: {} < {}", w[0].1, w[1].1);
    }
}

#[test]
fn test_search_no_duplicate_ids() {
    let idx = filled(64, 50);
    let results = search(&idx, &lcg_vec(64, 999), 20);
    let ids: HashSet<NodeId> = results.iter().map(|(id, _)| *id).collect();
    assert_eq!(ids.len(), results.len(), "Duplicate node IDs in search results");
}

#[test]
fn test_search_scores_in_valid_range() {
    let mut idx = with_defaults();
    for i in 0..50u64 {
        insert(&mut idx, &unit_vec(64, i), None);
    }
    for (id, score) in search(&idx, &unit_vec(64, 999), 20) {
        assert!(
            score >= -1.0 && score <= 1.0,
            "Score {score} for id {id} outside [-1, 1]"
        );
    }
}

#[test]
fn test_search_exact_match_is_top_result() {
    let mut idx = with_defaults();
    let anchor = unit_vec(128, 42);
    let anchor_id = insert(&mut idx, &anchor, Some("anchor".into()));
    for i in 1..50u64 {
        insert(&mut idx, &lcg_vec(128, i * 9999), None);
    }
    let results = search(&idx, &anchor, 1);
    assert_eq!(results[0].0, anchor_id, "Exact query vector must be the top result");
}

#[test]
fn test_recall_near_clones_dominate_top_k() {
    let dims = 128;
    let cfg = NRIConfig {
        k_neighbors: 16,
        beam_width: 128,
        centrality_weight: s(0.1),
        ..Default::default()
    };
    let mut idx = NeuraRankIndex::new(cfg, &Ieee);
    let anchor = unit_vec(dims, 42);
    let anchor_id = insert(&mut idx, &anchor, Some("anchor".into()));
    let mut near_set: HashSet<u32> = [anchor_id].into_iter().collect();
    for i in 1..=9u64 {
        let mut v = anchor.clone();
        v[i as usize % dims] += 0.003 * i as f32;
        near_set.insert(insert(&mut idx, &scaled(v), None));
    }
    for i in 0..90u64 {
        insert(&mut idx, &lcg_vec(dims, i * 99991 + 777), None);
    }
    let results = search(&idx, &anchor, 10);
    let found = results.iter().filter(|(id, _)| near_set.contains(id)).count();
    assert!(
        found >= 7,
        "At least 7 of the 10 near-clones must appear in top-10, found {found}"
    );
}

#[test]
fn test_recall_vs_brute_force_dense_small_corpus() {
    let dims = 128;
    let cfg = NRIConfig {
        k_neighbors: 32,
        beam_width: 200,
        centrality_weight: s(0.0),
        ..Default::default()
    };
    let mut idx = NeuraRankIndex::new(cfg, &Ieee);
    let mut corpus: Vec<Vec<f32>> = Vec::new();
    for i in 0..50u64 {
        let v = unit_vec(dims, i * 31337 + 17);
        corpus.push(v.clone());
        insert(&mut idx, &v, None);
    }
    let mut total_recall = 0.0f32;
    let (n_q, top_k) = (10, 10);
    for qi in 0..n_q {
        let q = unit_vec(dims, qi * 99991 + 777_777);
        let nri = search(&idx, &q, top_k);
        let brute = brute_top_k(&corpus, &q, top_k);
        total_recall += recall_at_k(&nri, &brute, top_k);
    }
    let avg = total_recall / n_q as f32;
    assert!(
        avg >= 0.60,
        "Recall@10 on small dense corpus (N=50, k=32) should be at least 60%, got {:.1}%",
        avg * 100.0
    );
}

#[test]
fn test_pure_cosine_mode_scores_equal_cosine() {
    let dims = 32;
    let cfg = NRIConfig {
        k_neighbors: 8,
        beam_width: 512,
        centrality_weight: s(0.0),
        ..Default::default()
    };
    let mut idx = NeuraRankIndex::new(cfg, &Ieee);
    let mut corpus: Vec<Vec<f32>> = Vec::new();
    for i in 0..20u64 {
        let v = unit_vec(dims, i);
        corpus.push(v.clone());
        insert(&mut idx, &v, None);
    }
    let q = unit_vec(dims, 9999);
    let results = search(&idx, &q, 10);
    for (id, nri_score) in &results {
        let true_cosine = f(cosine_similarity(&sv(&corpus[*id as usize]), &sv(&q), &Ieee));
        assert!(
            (*nri_score - true_cosine).abs() < 1e-5,
            "Node {id}: NRI score {nri_score:.6} should equal cosine {true_cosine:.6}"
        );
    }
}

#[test]
fn test_insert_and_search() {
    let mut idx = with_defaults();
    let dims = 64;
    for i in 0..100u64 {
        insert(&mut idx, &lcg_vec(dims, i), Some(format!("node-{}", i)));
    }
    let query = lcg_vec(dims, 999);
    let results = search(&idx, &query, 10);
    assert_eq!(results.len(), 10);
    for w in results.windows(2) {
        assert!(w[0].1 >= w[1].1, "Results not sorted by score");
    }
}

#[test]
fn test_nearest_neighbor_quality() {
    let mut idx = with_defaults();
    let dims = 128;
    let base = lcg_vec(dims, 0);
    let base_id = insert(&mut idx, &base, Some("base".into()));
    for i in 1..=5u64 {
        let mut v = base.clone();
        v[0] += 0.01 * i as f32;
        insert(&mut idx, &v, Some(format!("close-{}", i)));
    }
    for i in 100..150u64 {
        insert(&mut idx, &lcg_vec(dims, i * 777), None);
    }
    let results = search(&idx, &base, 5);
    assert!(
        results.iter().any(|(id, _)| *id == base_id),
        "Exact match not in top-5: {:?}",
        results
    );
}

#[test]
fn scores_are_the_weighted_mean_of_cosine_and_centrality() {
    let idx = filled(32, 20);
    let q = lcg_vec(32, 77);
    let w = 0.15f32;
    for (id, score) in search(&idx, &q, 20) {
        let node = idx.get_node(id).unwrap();
        let cosine = f(cosine_similarity(&node.vector, &sv(&q), &Ieee));
        let expected = (1.0 - w) * cosine + w * f(node.centrality).tanh();
        assert!((score - expected).abs() < 1e-6, "node {id}: {score} against {expected}");
    }
}

#[test]
fn with_weight_one_scores_are_the_authorities() {
    let cfg = NRIConfig { centrality_weight: s(1.0), ..Default::default() };
    let mut idx = NeuraRankIndex::new(cfg, &Ieee);
    for i in 0..20u64 {
        insert(&mut idx, &lcg_vec(32, i), None);
    }
    let found = search(&idx, &lcg_vec(32, 77), 20);
    assert!(!found.is_empty());
    for (id, score) in found {
        assert_eq!(score, f(idx.nodes[&id].centrality).tanh());
    }
}

#[test]
fn with_weight_zero_a_stored_vector_scores_nearly_one() {
    let cfg = NRIConfig { centrality_weight: s(0.0), ..Default::default() };
    let mut idx = NeuraRankIndex::new(cfg, &Ieee);
    for i in 0..30u64 {
        insert(&mut idx, &lcg_vec(48, i), None);
    }
    for i in 0..30u64 {
        let best = search(&idx, &lcg_vec(48, i), 1)[0].1;
        assert!(1.0 - 1e-6 < best && best <= 1.0, "vector {i} scores {best}");
    }
}

#[test]
fn search_with_no_places_in_the_beam_finds_nothing() {
    let cfg = NRIConfig { beam_width: 0, ..Default::default() };
    let mut idx = NeuraRankIndex::new(cfg, &Ieee);
    insert(&mut idx, &lcg_vec(16, 1), None);
    assert!(search(&idx, &lcg_vec(16, 1), 5).is_empty());
}

#[test]
fn search_visits_at_most_eight_nodes_for_each_place_in_the_beam() {
    let cfg = NRIConfig { beam_width: 1, k_neighbors: 3, ..Default::default() };
    let mut idx = NeuraRankIndex::new(cfg, &Ieee);
    for i in 0..60u64 {
        insert(&mut idx, &lcg_vec(16, i), None);
    }
    let found = search(&idx, &lcg_vec(16, 500), 100).len();
    assert!(found >= 1 && found <= 8, "found {found}");
}

#[test]
fn walk_starts_in_the_bucket_of_the_query_or_next_to_it() {
    let mut idx = filled(16, 3);
    let fp = idx.nodes[&1].fingerprint;
    assert_eq!(idx.visit_order(fp)[0], 1);
    let key = fp.bucket_key();
    for delta in [1u16, 8] {
        for near in [key.wrapping_sub(delta), key.wrapping_add(delta)] {
            let other = SimFingerprint((near as u128) << 112);
            if !idx.coarse_buckets.contains_key(&near) {
                assert_eq!(idx.visit_order(other)[0], 1);
            }
        }
    }
    idx.coarse_buckets.clear();
    assert_eq!(idx.visit_order(fp)[0], 2, "with no bucket the walk starts at the newest node");
}

#[test]
fn zero_vectors_have_cosine_zero() {
    let mut idx = with_defaults();
    insert(&mut idx, &[0.0; 8], None);
    let base = (1.0f32 - 0.85).tanh() * 0.15;
    assert_eq!(search(&idx, &lcg_vec(8, 3), 1), vec![(0, base)]);
    assert_eq!(search(&idx, &[0.0; 8], 1), vec![(0, base)]);
}

#[test]
fn fewer_answers_are_the_first_of_more() {
    let idx = filled(32, 40);
    let q = lcg_vec(32, 321);
    let all = search(&idx, &q, 40);
    for k in 0..all.len() {
        assert_eq!(search(&idx, &q, k), all[..k].to_vec());
    }
}

#[test]
fn every_stored_vector_is_found_by_itself() {
    let cfg = NRIConfig { centrality_weight: s(0.0), ..Default::default() };
    let mut idx = NeuraRankIndex::new(cfg, &Ieee);
    for i in 0..60u64 {
        insert(&mut idx, &unit_vec(32, i), None);
    }
    idx.delete(7);
    for id in (0..60u32).filter(|id| *id != 7) {
        let node = idx.get_node(id).unwrap();
        assert!(idx.visit_order(node.fingerprint).contains(&id));
        let r = search(&idx, &unit_vec(32, id as u64), 1);
        assert_eq!(r[0].0, id);
        assert!(r[0].1 >= 1.0 - 1e-5);
    }
}

#[test]
fn copies_of_a_vector_are_visited_oldest_first() {
    let mut idx = filled(16, 10);
    for _ in 0..4 {
        insert(&mut idx, &lcg_vec(16, 3), None);
    }
    let fp = idx.nodes[&3].fingerprint;
    assert_eq!(idx.visit_order(fp)[..5], [3, 10, 11, 12, 13]);
}

#[test]
fn wide_beam_and_one_bucket_give_the_exhaustive_answer() {
    let cfg = NRIConfig {
        n_projections: 112,
        beam_width: 20 * 21 / 2,
        k_neighbors: 3,
        ..Default::default()
    };
    let mut idx = NeuraRankIndex::new(cfg, &Ieee);
    for i in 0..22u64 {
        insert(&mut idx, &lcg_vec(16, i), None);
    }
    idx.delete(4);
    idx.delete(15);
    let q = lcg_vec(16, 1234);
    let w = 0.15f32;
    let mut expected: Vec<(NodeId, f32)> = idx
        .nodes
        .values()
        .filter(|n| !idx.deleted.contains(&n.id))
        .map(|n| {
            let c = f(cosine_similarity(&n.vector, &sv(&q), &Ieee));
            (n.id, (1.0 - w) * c + w * f(n.centrality).tanh())
        })
        .collect();
    expected.sort_by(|a, b| b.1.partial_cmp(&a.1).unwrap());
    let all = search(&idx, &q, 50);
    assert_eq!(all.len(), 20);
    assert_eq!(all, expected);
    assert_eq!(search(&idx, &q, 6), expected[..6].to_vec());
}

#[test]
fn scores_that_are_not_numbers_rank_by_their_sign() {
    let mut idx = filled(4, 2);
    let id = insert(&mut idx, &[1e30; 4], None);
    let r = search(&idx, &[1e30; 4], 3);
    let place = r.iter().position(|(i, _)| *i == id).unwrap();
    assert!(r[place].1.is_nan(), "infinity divided by infinity");
    let last = r.len() - 1;
    assert_eq!(place, if r[place].1.is_sign_negative() { last } else { 0 });
}

// Deletion and compaction

#[test]
fn test_delete_reduces_len() {
    let mut idx = filled(32, 10);
    idx.delete(0);
    assert_eq!(idx.len(), 9);
    idx.delete(1);
    assert_eq!(idx.len(), 8);
}

#[test]
fn test_deleted_node_invisible_in_search_immediately() {
    let mut idx = with_defaults();
    let anchor = unit_vec(64, 1);
    let target_id = insert(&mut idx, &anchor, None);
    for i in 2..50u64 {
        insert(&mut idx, &lcg_vec(64, i * 9999), None);
    }
    idx.delete(target_id);
    let results = search(&idx, &anchor, 10);
    assert!(
        results.iter().all(|(id, _)| *id != target_id),
        "Deleted node {target_id} appeared in search results before compact"
    );
}

#[test]
fn test_delete_nonexistent_id_is_safe() {
    let mut idx = with_defaults();
    insert(&mut idx, &lcg_vec(32, 1), None);
    idx.delete(9999);
    assert_eq!(idx.len(), 1);
}

#[test]
fn test_delete_all_then_search_empty() {
    let mut idx = filled(32, 5);
    for id in 0..5u32 {
        idx.delete(id);
    }
    assert!(idx.is_empty());
    assert!(
        search(&idx, &lcg_vec(32, 99), 5).is_empty(),
        "Search on all-deleted index must return empty"
    );
}

#[test]
fn test_compact_removes_from_nodes_map() {
    let mut idx = filled(32, 10);
    idx.delete(3);
    idx.delete(7);
    let removed = idx.compact();
    assert_eq!(removed, 2);
    assert!(!idx.nodes.contains_key(&3), "Node 3 must be gone after compact");
    assert!(!idx.nodes.contains_key(&7), "Node 7 must be gone after compact");
    assert_eq!(idx.deleted.len(), 0, "deleted set must be empty after compact");
}

#[test]
fn test_compact_rewires_edges() {
    let mut idx = filled(32, 20);
    idx.delete(0);
    idx.delete(5);
    idx.compact();
    for node in idx.nodes.values() {
        assert!(
            !node.edges.contains(&0),
            "Node {} still has edge to deleted node 0",
            node.id
        );
        assert!(
            !node.edges.contains(&5),
            "Node {} still has edge to deleted node 5",
            node.id
        );
    }
}

#[test]
fn test_compact_zero_deletes_returns_zero() {
    let mut idx = filled(32, 5);
    assert_eq!(idx.compact(), 0);
    assert_eq!(idx.len(), 5);
}

#[test]
fn test_search_after_compact_excludes_deleted() {
    let mut idx = filled(64, 30);
    for id in [2u32, 5, 10, 15] {
        idx.delete(id);
    }
    idx.compact();
    let results = search(&idx, &lcg_vec(64, 9999), 10);
    assert_eq!(results.len(), 10);
    for (id, _) in &results {
        assert!(
            !matches!(*id, 2 | 5 | 10 | 15),
            "Compact-deleted id {id} appeared in results"
        );
    }
}

#[test]
fn test_double_compact_is_idempotent() {
    let mut idx = filled(32, 10);
    idx.delete(3);
    idx.compact();
    assert_eq!(idx.compact(), 0, "Second compact should remove nothing");
    assert_eq!(idx.len(), 9);
}

#[test]
fn deleting_twice_counts_once() {
    let mut idx = filled(16, 4);
    idx.delete(1);
    idx.delete(1);
    assert_eq!(idx.len(), 3);
    assert!(idx.get_node(1).is_some());
    assert_eq!(idx.compact(), 1);
    assert!(idx.get_node(1).is_none());
    idx.delete(1);
    assert_eq!(idx.len(), 3);
}

#[test]
fn compaction_changes_no_answer() {
    let mut idx = filled(32, 60);
    for id in (0..60u32).step_by(7) {
        idx.delete(id);
    }
    let queries: Vec<Vec<f32>> = (0..10u64).map(|i| lcg_vec(32, 1000 + i)).collect();
    let before: Vec<Vec<(NodeId, f32)>> = queries.iter().map(|q| search(&idx, q, 12)).collect();
    idx.compact();
    let after: Vec<Vec<(NodeId, f32)>> = queries.iter().map(|q| search(&idx, q, 12)).collect();
    assert_eq!(before, after);
}

#[test]
fn compaction_lists_every_node_in_its_bucket() {
    let mut idx = filled(16, 30);
    idx.delete(4);
    idx.delete(29);
    idx.compact();
    let total: usize = idx.coarse_buckets.values().map(|v| v.len()).sum();
    assert_eq!(total, 28);
    for (id, node) in &idx.nodes {
        assert!(idx.coarse_buckets[&node.fingerprint.bucket_key()].contains(id));
    }
    assert_eq!(insert(&mut idx, &lcg_vec(16, 400), None), 30, "identifiers are not used again");
}

// Re-ranking

#[test]
fn test_rerank_centralities_are_positive() {
    let mut idx = filled(64, 20);
    idx.rerank(5, &Ieee);
    for node in idx.nodes.values() {
        assert!(
            f(node.centrality) > 0.0,
            "Node {} centrality {} must be > 0 after rerank",
            node.id,
            f(node.centrality)
        );
    }
}

#[test]
fn test_rerank_centralities_sum_to_one() {
    let mut idx = NeuraRankIndex::new(NRIConfig { k_neighbors: 16, ..Default::default() }, &Ieee);
    for i in 0..50u64 {
        insert(&mut idx, &lcg_vec(64, i), None);
    }
    idx.rerank(30, &Ieee);
    let sum: f32 = idx.nodes.values().map(|n| f(n.centrality)).sum();
    assert!(
        (sum - 1.0).abs() < 0.02,
        "PageRank scores must sum to about 1.0, got {sum:.4}"
    );
}

#[test]
fn test_rerank_hub_higher_than_leaf() {
    let dims = 64;
    let hub = unit_vec(dims, 0);
    let mut idx = NeuraRankIndex::new(NRIConfig { k_neighbors: 4, ..Default::default() }, &Ieee);
    let hub_id = insert(&mut idx, &hub, Some("hub".into()));
    for i in 1..=20u64 {
        let mut v = hub.clone();
        v[0] += 0.001 * i as f32;
        insert(&mut idx, &scaled(v), None);
    }
    let leaf_id = insert(&mut idx, &unit_vec(dims, 99_999), Some("leaf".into()));
    idx.rerank(10, &Ieee);
    let hub_rank = f(idx.get_node(hub_id).unwrap().centrality);
    let leaf_rank = f(idx.get_node(leaf_id).unwrap().centrality);
    assert!(
        hub_rank > leaf_rank,
        "Hub centrality ({hub_rank:.6}) should exceed leaf ({leaf_rank:.6})"
    );
}

#[test]
fn test_rerank_empty_index_is_noop() {
    with_defaults().rerank(5, &Ieee);
}

#[test]
fn test_rerank_preserves_search_correctness() {
    let mut idx = with_defaults();
    let anchor = unit_vec(64, 0);
    let anchor_id = insert(&mut idx, &anchor, None);
    for i in 1..30u64 {
        insert(&mut idx, &lcg_vec(64, i * 9999), None);
    }
    idx.rerank(5, &Ieee);
    assert!(
        search(&idx, &anchor, 5).iter().any(|(id, _)| *id == anchor_id),
        "Anchor must remain in top-5 after rerank"
    );
}

#[test]
fn ranks_of_a_chain_of_two() {
    let mut idx = filled(16, 2);
    idx.rerank(0, &Ieee);
    assert_eq!(f(idx.nodes[&0].centrality), 0.5);
    assert_eq!(f(idx.nodes[&1].centrality), 0.5);
    idx.rerank(1, &Ieee);
    let d = 0.85f32;
    let floor = (1.0 - d) / 2.0 + d * 0.5 / 2.0;
    assert_eq!(f(idx.nodes[&1].centrality), floor);
    assert_eq!(f(idx.nodes[&0].centrality), floor + d * 0.5 / 1.0);
}

#[test]
fn ranks_sum_to_one_with_deleted_nodes_too() {
    let mut idx = filled(32, 40);
    for id in [0u32, 3, 11, 12, 39] {
        idx.delete(id);
    }
    let before = f(idx.nodes[&3].centrality);
    idx.rerank(20, &Ieee);
    let sum: f32 = idx
        .nodes
        .values()
        .filter(|n| !idx.deleted.contains(&n.id))
        .map(|n| f(n.centrality))
        .sum();
    assert!((sum - 1.0).abs() < 1e-4, "got {sum}");
    assert_eq!(f(idx.nodes[&3].centrality), before, "a deleted node keeps its centrality");
}

#[test]
fn of_two_rerankings_the_second_counts() {
    let mut once = filled(32, 25);
    let mut twice = filled(32, 25);
    once.rerank(4, &Ieee);
    twice.rerank(9, &Ieee);
    twice.rerank(4, &Ieee);
    assert_eq!(once.save(), twice.save());
}

#[test]
fn no_rank_falls_below_the_undamped_part() {
    let mut idx = filled(32, 25);
    idx.rerank(6, &Ieee);
    for node in idx.nodes.values() {
        assert!(f(node.centrality) >= (1.0 - 0.85f32) / 25.0);
    }
    idx.rerank(0, &Ieee);
    for node in idx.nodes.values() {
        assert_eq!(f(node.centrality), 1.0 / 25.0);
    }
}

#[test]
fn ranks_stay_positive_and_sum_to_one_whatever_the_damping() {
    for damping in [0.0f32, 0.3, 0.85, 0.99, 1.0] {
        let cfg = NRIConfig { damping: s(damping), ..Default::default() };
        let mut idx = NeuraRankIndex::new(cfg, &Ieee);
        for i in 0..60u64 {
            insert(&mut idx, &lcg_vec(16, i), None);
        }
        for rounds in [0usize, 1, 5, 30] {
            idx.rerank(rounds, &Ieee);
            let ranks: Vec<f32> = idx.nodes.values().map(|n| f(n.centrality)).collect();
            let exact: f64 = ranks.iter().map(|x| f64::from(*x)).sum();
            assert!((exact - 1.0).abs() < 0.01, "damping {damping}, {rounds} rounds: {exact}");
            let computed: f32 = ranks.iter().sum();
            assert!((computed - 1.0).abs() < 0.02);
            for rank in ranks {
                assert!(rank >= 0.0 && (damping == 1.0 || rank > 0.0));
                assert!(rounds == 0 || rank >= (1.0 - damping) / 60.0);
                assert!(rounds > 0 || rank == 1.0 / 60.0);
            }
        }
    }
}

#[test]
fn reranking_keeps_what_a_search_visits() {
    let mut idx = filled(32, 40);
    let fp = idx.hasher.fingerprint(&sv(&lcg_vec(32, 99)), &Ieee);
    let before = idx.visit_order(fp);
    idx.rerank(7, &Ieee);
    assert_eq!(idx.visit_order(fp), before);
}

// Batches

#[test]
fn test_batch_search_matches_sequential_exactly() {
    let idx = filled(64, 50);
    let queries: Vec<Vec<Scalar>> = (0..8u64).map(|i| sv(&lcg_vec(64, i + 500))).collect();
    let batch = idx.batch_search(&queries, 5, &Ieee);
    for (qi, q) in queries.iter().enumerate() {
        assert_eq!(
            batch[qi],
            idx.search(q, 5, &Ieee),
            "batch_search[{qi}] differs from sequential search()"
        );
    }
}

#[test]
fn test_batch_search_empty_queries_returns_empty() {
    let idx = filled(32, 10);
    assert!(idx.batch_search(&[], 5, &Ieee).is_empty());
}

#[test]
fn test_batch_search_correct_result_count_per_query() {
    let idx = filled(64, 50);
    let queries: Vec<Vec<Scalar>> = (0..4u64).map(|i| sv(&lcg_vec(64, i + 999))).collect();
    let batch = idx.batch_search(&queries, 7, &Ieee);
    assert_eq!(batch.len(), 4);
    for results in &batch {
        assert_eq!(results.len(), 7);
    }
}

// Storage

#[test]
fn test_save_load_search_results_identical() {
    let mut idx = with_defaults();
    for i in 0..30u64 {
        insert(&mut idx, &lcg_vec(64, i), Some(format!("doc-{i}")));
    }
    let loaded = reloaded(&idx);
    let q = lcg_vec(64, 12345);
    assert_eq!(search(&idx, &q, 10), search(&loaded, &q, 10));
}

#[test]
fn test_save_load_config_preserved() {
    let cfg = NRIConfig {
        k_neighbors: 8,
        beam_width: 32,
        damping: s(0.7),
        n_projections: 64,
        centrality_weight: s(0.3),
        centrality_iters: 3,
    };
    let mut idx = NeuraRankIndex::new(cfg, &Ieee);
    insert(&mut idx, &lcg_vec(32, 1), None);
    let loaded = reloaded(&idx);
    assert_eq!(loaded.config.k_neighbors, 8);
    assert_eq!(loaded.config.beam_width, 32);
    assert!((f(loaded.config.damping) - 0.7).abs() < 1e-6);
    assert_eq!(loaded.config.n_projections, 64);
    assert!((f(loaded.config.centrality_weight) - 0.3).abs() < 1e-6);
}

#[test]
fn test_save_load_labels_preserved() {
    let mut idx = with_defaults();
    insert(&mut idx, &lcg_vec(32, 1), Some("alpha".into()));
    insert(&mut idx, &lcg_vec(32, 2), Some("beta".into()));
    insert(&mut idx, &lcg_vec(32, 3), None);
    let loaded = reloaded(&idx);
    assert_eq!(loaded.get_node(0).unwrap().label.as_deref(), Some("alpha"));
    assert_eq!(loaded.get_node(1).unwrap().label.as_deref(), Some("beta"));
    assert!(loaded.get_node(2).unwrap().label.is_none());
}

#[test]
fn test_save_load_tombstones_preserved() {
    let mut idx = filled(32, 10);
    idx.delete(3);
    idx.delete(7);
    let loaded = reloaded(&idx);
    assert_eq!(loaded.len(), 8, "Loaded index should show 8 live nodes");
    let results = search(&loaded, &lcg_vec(32, 9999), 8);
    assert!(
        results.iter().all(|(id, _)| *id != 3 && *id != 7),
        "Tombstoned nodes must stay hidden after save/load"
    );
}

#[test]
fn test_save_load_next_id_preserved() {
    let idx = filled(32, 5);
    let mut loaded = reloaded(&idx);
    let new_id = insert(&mut loaded, &lcg_vec(32, 99), None);
    assert_eq!(new_id, 5, "First post-load insert should get ID 5 (not 0)");
}

#[test]
fn saved_bytes_have_the_fixed_layout() {
    let cfg = NRIConfig {
        k_neighbors: 2,
        beam_width: 3,
        damping: s(0.5),
        n_projections: 4,
        centrality_weight: s(0.25),
        centrality_iters: 6,
    };
    let mut idx = NeuraRankIndex::new(cfg, &Ieee);
    let mut head: Vec<u8> = Vec::new();
    head.extend(2u64.to_le_bytes());
    head.extend(3u64.to_le_bytes());
    head.extend(0.5f32.to_le_bytes());
    head.extend(4u64.to_le_bytes());
    head.extend(0.25f32.to_le_bytes());
    head.extend(6u64.to_le_bytes());
    let mut expected = head.clone();
    expected.extend(0u64.to_le_bytes()); // no nodes
    expected.extend(0u64.to_le_bytes()); // no buckets
    expected.extend(0u32.to_le_bytes()); // next identifier
    expected.push(0); // no number of entries
    expected.extend(0u64.to_le_bytes()); // nothing deleted
    assert_eq!(idx.save(), expected);

    insert(&mut idx, &[1.0, -2.0], Some("ab".into()));
    idx.delete(0);
    let fp = idx.nodes[&0].fingerprint;
    let mut expected = head;
    expected.extend(1u64.to_le_bytes());
    expected.extend(0u32.to_le_bytes()); // key
    expected.extend(0u32.to_le_bytes()); // identifier
    expected.extend(2u64.to_le_bytes());
    expected.extend(1.0f32.to_le_bytes());
    expected.extend((-2.0f32).to_le_bytes());
    expected.extend(fp.0.to_le_bytes());
    expected.extend(0u64.to_le_bytes()); // no links
    expected.extend((1.0f32 - 0.5).to_le_bytes());
    expected.push(1);
    expected.extend(2u64.to_le_bytes());
    expected.extend(b"ab");
    expected.extend(1u64.to_le_bytes()); // one bucket
    expected.extend(fp.bucket_key().to_le_bytes());
    expected.extend(1u64.to_le_bytes());
    expected.extend(0u32.to_le_bytes());
    expected.extend(1u32.to_le_bytes()); // next identifier
    expected.push(1);
    expected.extend(2u64.to_le_bytes()); // number of entries
    expected.extend(1u64.to_le_bytes()); // one deleted
    expected.extend(0u32.to_le_bytes());
    assert_eq!(idx.save(), expected);
}

#[test]
fn saving_a_loaded_index_gives_the_same_bytes() {
    let mut idx = filled(16, 12);
    idx.delete(5);
    idx.rerank(3, &Ieee);
    let bytes = idx.save();
    let loaded = reloaded(&idx);
    assert_eq!(loaded.save(), bytes);
    assert_eq!(loaded.hasher.planes, idx.hasher.planes);
    assert_eq!(loaded.hasher.dims, 16);
    let empty = reloaded(&with_defaults());
    assert_eq!(empty.hasher.dims, 512);
    assert_eq!(empty.dims, None);
}

#[test]
fn bytes_that_are_no_index_are_refused() {
    let bytes = filled(16, 3).save();
    for n in [0, 1, 40, bytes.len() - 1] {
        match NeuraRankIndex::load(&bytes[..n], &Ieee) {
            Ok(_) => panic!("{n} bytes were accepted"),
            Err(LoadError::Undecodable(reason)) => assert!(reason.starts_with("io error"), "{reason}"),
            Err(e) => panic!("{e:?}"),
        }
    }
    let mut odd = with_defaults().save();
    let tag = odd.len() - 9;
    odd[tag] = 2;
    match NeuraRankIndex::load(&odd, &Ieee) {
        Ok(_) => panic!("a tag that means nothing was accepted"),
        Err(e) => assert_eq!(
            e,
            LoadError::Undecodable("tag for enum is not valid, found 2".into())
        ),
    }
    let mut longer = bytes.clone();
    longer.push(7);
    assert!(NeuraRankIndex::load(&longer, &Ieee).is_ok(), "what follows an index is not read");
}

#[test]
fn an_index_is_made_of_a_record() {
    let mut nodes = BTreeMap::new();
    nodes.insert(
        4u32,
        (4u32, vec![1.0f32.to_bits(), 0.0f32.to_bits()], 9u128 << 112, vec![2u32], 0.5f32.to_bits(), None),
    );
    let mut buckets = BTreeMap::new();
    buckets.insert(9u16, vec![4u32]);
    let deleted: BTreeSet<u32> = [4u32].into_iter().collect();
    let config = (1u64, 2u64, 0.25f32.to_bits(), 3u64, 0.75f32.to_bits(), 4u64);
    let record = (config, nodes, buckets, 7u32, Some(2u64), deleted);
    let idx = match NeuraRankIndex::from_record(record.clone(), &Ieee) {
        Ok(idx) => idx,
        Err(e) => panic!("{e:?}"),
    };
    assert_eq!(idx.config.k_neighbors, 1);
    assert_eq!(idx.config.beam_width, 2);
    assert_eq!(f(idx.config.damping), 0.25);
    assert_eq!(idx.config.n_projections, 3);
    assert_eq!(f(idx.config.centrality_weight), 0.75);
    assert_eq!(idx.config.centrality_iters, 4);
    assert_eq!(idx.nodes[&4].vector, sv(&[1.0, 0.0]));
    assert_eq!(idx.nodes[&4].fingerprint, SimFingerprint(9 << 112));
    assert_eq!(idx.nodes[&4].edges, vec![2]);
    assert_eq!(f(idx.nodes[&4].centrality), 0.5);
    assert_eq!(idx.next_id, 7);
    assert_eq!(idx.dims, Some(2));
    assert_eq!(idx.hasher.planes.len(), 3);
    assert_eq!(idx.hasher.dims, 2);
    assert_eq!(idx.len(), 0);
    assert_eq!(idx.to_record(), record);
}

// Figures

#[test]
fn test_stats_empty_index() {
    let st = with_defaults().stats(&Ieee);
    assert_eq!(st.node_count, 0);
    assert_eq!(st.deleted_count, 0);
    assert_eq!(st.dims, 0);
    assert_eq!(f(st.avg_centrality), 0.0);
    assert_eq!(f(st.max_centrality), 0.0);
}

#[test]
fn test_stats_node_count_correct() {
    assert_eq!(filled(32, 15).stats(&Ieee).node_count, 15);
}

#[test]
fn test_stats_deleted_count_correct() {
    let mut idx = filled(32, 10);
    idx.delete(2);
    idx.delete(4);
    let st = idx.stats(&Ieee);
    assert_eq!(st.node_count, 8);
    assert_eq!(st.deleted_count, 2);
}

#[test]
fn test_stats_dims_reflects_inserted_dimension() {
    let mut idx = with_defaults();
    insert(&mut idx, &lcg_vec(77, 1), None);
    assert_eq!(idx.stats(&Ieee).dims, 77);
}

#[test]
fn test_stats_avg_edges_in_range() {
    let cfg = NRIConfig { k_neighbors: 8, ..Default::default() };
    let mut idx = NeuraRankIndex::new(cfg, &Ieee);
    for i in 0..20u64 {
        insert(&mut idx, &lcg_vec(32, i), None);
    }
    let avg = f(idx.stats(&Ieee).avg_edges_per_node);
    assert!(
        avg > 0.0 && avg <= 8.0,
        "avg_edges_per_node={avg} should be in (0, k_neighbors=8]"
    );
}

#[test]
fn figures_are_over_the_live_nodes() {
    let mut idx = filled(16, 4);
    idx.delete(0);
    let st = idx.stats(&Ieee);
    let c: Vec<f32> = (1..4u32).map(|id| f(idx.nodes[&id].centrality)).collect();
    assert_eq!(f(st.avg_centrality), (c[0] + c[1] + c[2]) / 3.0);
    assert_eq!(f(st.max_centrality), c[0].max(c[1]).max(c[2]));
    assert_eq!(f(st.avg_edges_per_node), (1 + 2 + 3) as f32 / 3.0);
    assert_eq!(st.bucket_count, idx.coarse_buckets.len());
    assert_eq!(st.node_count, idx.len());
    assert_eq!(st.node_count + st.deleted_count, idx.nodes.len());
}
