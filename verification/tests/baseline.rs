//! The exhaustive search, and the settings of a served index.
use neura_rank_index::average_recall;
use neura_rank_index::brute_force_search;
use neura_rank_index::cosine_similarity;
use neura_rank_index::default_iters;
use neura_rank_index::default_top_k;
use neura_rank_index::hits_at_k;
use neura_rank_index::near_clone;
use neura_rank_index::random_vec;
use neura_rank_index::recall_at_k;
use neura_rank_index::reinit_config;
use neura_rank_index::Arithmetic;
use neura_rank_index::NRIConfig;
use neura_rank_index::Scalar;

struct Ieee;

fn s(x: f32) -> Scalar {
    Scalar { bits: x.to_bits() }
}

fn f(x: Scalar) -> f32 {
    f32::from_bits(x.bits)
}

fn sv(v: &[f32]) -> Vec<Scalar> {
    v.iter().map(|x| s(*x)).collect()
}

impl Arithmetic for Ieee {
    fn plus(&self, x: Scalar, y: Scalar) -> Scalar {
        s(f(x) + f(y))
    }
    fn minus(&self, x: Scalar, y: Scalar) -> Scalar {
        s(f(x) - f(y))
    }
    fn times(&self, x: Scalar, y: Scalar) -> Scalar {
        s(f(x) * f(y))
    }
    fn over(&self, x: Scalar, y: Scalar) -> Scalar {
        s(f(x) / f(y))
    }
    fn root(&self, x: Scalar) -> Scalar {
        s(f(x).sqrt())
    }
    fn log(&self, x: Scalar) -> Scalar {
        s(f(x).ln())
    }
    fn sine(&self, x: Scalar) -> Scalar {
        s(f(x).sin())
    }
    fn cosine(&self, x: Scalar) -> Scalar {
        s(f(x).cos())
    }
    fn tanh(&self, x: Scalar) -> Scalar {
        s(f(x).tanh())
    }
    fn count(&self, n: u64) -> Scalar {
        s(n as f32)
    }
}

fn lcg_vec(dims: usize, seed: u64) -> Vec<f32> {
    let mut state = seed;
    (0..dims)
        .map(|_| {
            state = state
                .wrapping_mul(6364136223846793005)
                .wrapping_add(1442695040888963407);
            ((state >> 33) as f32 / u32::MAX as f32) * 2.0 - 1.0
        })
        .collect()
}

fn unit_vec(dims: usize, seed: u64) -> Vec<f32> {
    let mut v = lcg_vec(dims, seed);
    let n = v.iter().map(|x| x * x).sum::<f32>().sqrt().max(1e-10);
    v.iter_mut().for_each(|x| *x /= n);
    v
}

#[test]
fn random_vectors_follow_the_generator_and_have_length_one() {
    let got: Vec<f32> = random_vec(20, 42, &Ieee).iter().map(|x| f(*x)).collect();
    assert_eq!(got, unit_vec(20, 42));
    let n: f32 = got.iter().map(|x| x * x).sum::<f32>().sqrt();
    assert!((n - 1.0).abs() < 1e-5);
    assert!(random_vec(0, 1, &Ieee).is_empty());
}

#[test]
fn exhaustive_search_ranks_by_cosine() {
    let corpus: Vec<Vec<Scalar>> = (0..30u64).map(|i| sv(&lcg_vec(12, i))).collect();
    let query = sv(&lcg_vec(12, 99));
    let mut expected: Vec<(usize, f32)> = corpus
        .iter()
        .enumerate()
        .map(|(i, v)| (i, f(cosine_similarity(v, &query, &Ieee))))
        .collect();
    expected.sort_by(|a, b| b.1.partial_cmp(&a.1).unwrap());
    for k in [0usize, 1, 10, 30, 50] {
        let got: Vec<(usize, f32)> = brute_force_search(&corpus, &query, k, &Ieee)
            .iter()
            .map(|(i, c)| (*i, f(*c)))
            .collect();
        assert_eq!(got, expected.iter().take(k).cloned().collect::<Vec<_>>());
    }
}

#[test]
fn equal_cosines_keep_the_order_of_the_corpus() {
    let v = sv(&[1.0, 0.0]);
    let corpus = vec![v.clone(), v.clone(), v.clone()];
    let got = brute_force_search(&corpus, &v, 2, &Ieee);
    assert_eq!(got.iter().map(|(i, _)| *i).collect::<Vec<_>>(), vec![0, 1]);
}

#[test]
fn recall_is_the_share_of_the_best_that_was_found() {
    let z = s(0.0);
    let nri = [(3u32, z), (1, z), (7, z), (2, z)];
    let brute = [(1usize, z), (2, z), (3, z), (4, z)];
    assert_eq!(hits_at_k(&nri, &brute, 4), 3);
    assert_eq!(f(recall_at_k(&nri, &brute, 4, &Ieee)), 0.75);
    assert_eq!(hits_at_k(&nri, &brute, 2), 1);
    assert_eq!(f(recall_at_k(&nri, &brute, 2, &Ieee)), 0.5);
    assert_eq!(hits_at_k(&nri, &brute, 10), 3);
    assert_eq!(f(recall_at_k(&nri, &brute, 10, &Ieee)), 0.3);
    assert_eq!(hits_at_k(&[], &brute, 4), 0);
}

#[test]
fn average_recall_is_the_mean_over_the_queries() {
    let z = s(0.0);
    let nri = vec![vec![(1u32, z), (2, z)], vec![(5, z), (6, z)], vec![(7, z), (9, z)]];
    let brute = vec![vec![(1usize, z), (2, z)], vec![(6, z), (4, z)], vec![(1, z), (2, z)]];
    assert_eq!(f(average_recall(&nri, &brute, 2, &Ieee)), (1.0f32 + 0.5 + 0.0) / 3.0);
}

#[test]
fn near_copies_are_shaken_by_sines() {
    let anchor = unit_vec(10, 3);
    for step in 1..4u64 {
        let noise = 0.05 * step as f32;
        let raw: Vec<f32> = anchor
            .iter()
            .enumerate()
            .map(|(j, x)| x + noise * (j as f32).sin())
            .collect();
        let n = raw.iter().map(|x| x * x).sum::<f32>().sqrt().max(1e-10);
        let expected: Vec<f32> = raw.iter().map(|x| x / n).collect();
        let got: Vec<f32> = near_clone(&sv(&anchor), step, &Ieee).iter().map(|x| f(*x)).collect();
        assert_eq!(got, expected);
    }
}

#[test]
fn requests_that_do_not_say_get_the_defaults() {
    assert_eq!(default_top_k(), 10);
    assert_eq!(default_iters(), 5);
}

#[test]
fn starting_over_keeps_the_settings_that_are_not_given() {
    let current = NRIConfig { centrality_iters: 9, ..Default::default() };
    assert_eq!(reinit_config(current, None, None, None, None), current);
    let given = reinit_config(current, Some(32), Some(256), Some(s(0.5)), Some(s(0.25)));
    assert_eq!(
        given,
        NRIConfig {
            k_neighbors: 32,
            beam_width: 256,
            damping: s(0.5),
            centrality_weight: s(0.25),
            ..current
        }
    );
    let one = reinit_config(current, None, Some(8), None, None);
    assert_eq!(one, NRIConfig { beam_width: 8, ..current });
}
