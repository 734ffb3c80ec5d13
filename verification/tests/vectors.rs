//! Scalars, vectors, fingerprints and hashers.
use neura_rank_index::cosine_similarity;
use neura_rank_index::dot_product;
use neura_rank_index::l2_norm;
use neura_rank_index::Arithmetic;
use neura_rank_index::Scalar;
use neura_rank_index::SimFingerprint;
use neura_rank_index::SimHasher;

struct Ieee;

fn s(x: f32) -> Scalar {
    Scalar { bits: x.to_bits() }
}

fn f(x: Scalar) -> f32 {
    f32::from_bits(x.bits)
}

fn sv(v: &[f32]) -> Vec<Scalar> {
    v.iter().map(|x| s(*x)).collect()
}

impl Arithmetic for Ieee {
    fn plus(&self, x: Scalar, y: Scalar) -> Scalar {
        s(f(x) + f(y))
    }
    fn minus(&self, x: Scalar, y: Scalar) -> Scalar {
        s(f(x) - f(y))
    }
    fn times(&self, x: Scalar, y: Scalar) -> Scalar {
        s(f(x) * f(y))
    }
    fn over(&self, x: Scalar, y: Scalar) -> Scalar {
        s(f(x) / f(y))
    }
    fn root(&self, x: Scalar) -> Scalar {
        s(f(x).sqrt())
    }
    fn log(&self, x: Scalar) -> Scalar {
        s(f(x).ln())
    }
    fn sine(&self, x: Scalar) -> Scalar {
        s(f(x).sin())
    }
    fn cosine(&self, x: Scalar) -> Scalar {
        s(f(x).cos())
    }
    fn tanh(&self, x: Scalar) -> Scalar {
        s(f(x).tanh())
    }
    fn count(&self, n: u64) -> Scalar {
        s(n as f32)
    }
}

fn lcg_vec(dims: usize, seed: u64) -> Vec<f32> {
    let mut state = seed;
    (0..dims)
        .map(|_| {
            state = state
                .wrapping_mul(6364136223846793005)
                .wrapping_add(1442695040888963407);
            ((state >> 33) as f32 / u32::MAX as f32) * 2.0 - 1.0
        })
        .collect()
}

fn scaled(mut v: Vec<f32>) -> Vec<f32> {
    let n = v.iter().map(|x| x * x).sum::<f32>().sqrt();
    v.iter_mut().for_each(|x| *x /= n);
    v
}

fn unit_vec(dims: usize, seed: u64) -> Vec<f32> {
    let mut v = lcg_vec(dims, seed);
    let n = v.iter().map(|x| x * x).sum::<f32>().sqrt().max(1e-10);
    v.iter_mut().for_each(|x| *x /= n);
    v
}

fn dot(a: &[f32], b: &[f32]) -> f32 {
    f(dot_product(&sv(a), &sv(b), &Ieee))
}

fn norm(v: &[f32]) -> f32 {
    f(l2_norm(&sv(v), &Ieee))
}

fn cosine(a: &[f32], b: &[f32]) -> f32 {
    f(cosine_similarity(&sv(a), &sv(b), &Ieee))
}

fn hasher(dims: usize, n: usize, seed: u64) -> SimHasher {
    SimHasher::new(dims, n, seed, &Ieee)
}

fn print_of(h: &SimHasher, v: &[f32]) -> SimFingerprint {
    h.fingerprint(&sv(v), &Ieee)
}

#[test]
fn test_fingerprint_identical_vectors_equal() {
    let h = hasher(64, 128, 1);
    let v = lcg_vec(64, 42);
    assert_eq!(print_of(&h, &v), print_of(&h, &v));
}

#[test]
fn test_fingerprint_deterministic_across_instances() {
    let v = lcg_vec(64, 7);
    let fp1 = print_of(&hasher(64, 128, 99), &v);
    let fp2 = print_of(&hasher(64, 128, 99), &v);
    assert_eq!(fp1, fp2, "Same seed + same vector must always produce the same fingerprint");
}

#[test]
fn test_fingerprint_different_seeds_differ() {
    let v = lcg_vec(64, 7);
    let fp1 = print_of(&hasher(64, 128, 1), &v);
    let fp2 = print_of(&hasher(64, 128, 2), &v);
    assert_ne!(fp1, fp2, "Different seeds should produce different projection sets");
}

#[test]
fn test_hamming_dist_self_is_zero() {
    let fp = SimFingerprint(0xDEAD_BEEF_1234_5678_u128);
    assert_eq!(fp.hamming_dist(&fp), 0);
}

#[test]
fn test_hamming_dist_upper_bound() {
    let h = hasher(128, 128, 0);
    for i in 0..20u64 {
        let d = print_of(&h, &lcg_vec(128, i)).hamming_dist(&print_of(&h, &lcg_vec(128, i + 100)));
        assert!(d <= 128, "Hamming distance must be at most 128, got {d}");
    }
}

#[test]
fn test_fingerprint_similarity_in_unit_interval() {
    let h = hasher(128, 128, 0);
    for i in 0..20u64 {
        let a = print_of(&h, &lcg_vec(128, i));
        let b = print_of(&h, &lcg_vec(128, i + 50));
        let sim = f(a.similarity(&b));
        assert!(sim >= 0.0 && sim <= 1.0, "Similarity {sim} must be in [0, 1]");
    }
}

#[test]
fn test_fingerprint_similarity_identical_is_one() {
    let h = hasher(64, 128, 5);
    let fp = print_of(&h, &lcg_vec(64, 99));
    assert_eq!(f(fp.similarity(&fp)), 1.0);
}

#[test]
fn test_fingerprint_near_identical_lower_hamming_than_random() {
    let h = hasher(128, 128, 42);
    let (mut near_sum, mut rand_sum) = (0u32, 0u32);
    for seed in 0u64..30 {
        let base = unit_vec(128, seed);
        let mut near = base.clone();
        near[0] += 0.01;
        let near = scaled(near);
        let random = unit_vec(128, seed + 10_000);
        let fp_b = print_of(&h, &base);
        near_sum += fp_b.hamming_dist(&print_of(&h, &near));
        rand_sum += fp_b.hamming_dist(&print_of(&h, &random));
    }
    assert!(
        near_sum < rand_sum,
        "Near-identical avg hamming ({}) should be less than random ({})",
        near_sum / 30,
        rand_sum / 30
    );
}

#[test]
fn test_simhash_similarity() {
    let h = hasher(128, 128, 42);
    let v1 = lcg_vec(128, 1);
    let v2 = lcg_vec(128, 2);
    let fp1 = print_of(&h, &v1);
    let fp2 = print_of(&h, &v2);
    assert_eq!(fp1, print_of(&h, &v1));
    let sim = f(fp1.similarity(&fp2));
    assert!(sim >= 0.0 && sim <= 1.0);
}

#[test]
fn test_dot_product_known_values() {
    assert!((dot(&[1.0, 0.0, 0.0], &[1.0, 0.0, 0.0]) - 1.0).abs() < 1e-6);
    assert!(dot(&[1.0, 0.0], &[0.0, 1.0]).abs() < 1e-6);
    assert!((dot(&[2.0, 3.0], &[4.0, 5.0]) - 23.0).abs() < 1e-6);
    assert!(dot(&[-1.0, 1.0], &[1.0, 1.0]).abs() < 1e-6);
}

#[test]
fn test_dot_product_matches_scalar_for_all_sizes() {
    for &len in &[1usize, 7, 8, 9, 15, 16, 31, 64, 128, 255, 256] {
        let a = lcg_vec(len, 1);
        let b = lcg_vec(len, 2);
        let ours: f32 = dot(&a, &b);
        let scalar: f32 = a.iter().zip(b.iter()).map(|(x, y)| x * y).sum();
        assert!((ours - scalar).abs() < 1e-3, "len={len}: {ours:.6} against {scalar:.6}");
    }
}

#[test]
fn test_dot_product_remainder_path() {
    let a = vec![1.0f32; 13];
    let b = vec![2.0f32; 13];
    assert!((dot(&a, &b) - 26.0).abs() < 1e-5);
}

#[test]
fn test_l2_norm_unit_vector() {
    assert!((norm(&unit_vec(128, 1)) - 1.0).abs() < 1e-5);
}

#[test]
fn test_l2_norm_zero_vector() {
    assert_eq!(norm(&vec![0.0f32; 64]), 0.0);
}

#[test]
fn test_l2_norm_known_value() {
    assert!((norm(&[3.0f32, 4.0]) - 5.0).abs() < 1e-6);
}

#[test]
fn test_cosine_similarity_identical_is_one() {
    let v = unit_vec(64, 7);
    assert!((cosine(&v, &v) - 1.0).abs() < 1e-6);
}

#[test]
fn test_cosine_similarity_orthogonal_is_zero() {
    assert!(cosine(&[1.0f32, 0.0], &[0.0f32, 1.0]).abs() < 1e-6);
}

#[test]
fn test_cosine_similarity_antipodal_is_minus_one() {
    let v = unit_vec(64, 9);
    let neg: Vec<f32> = v.iter().map(|x| -x).collect();
    assert!((cosine(&v, &neg) + 1.0).abs() < 1e-6);
}

#[test]
fn test_cosine_similarity_zero_vector_is_zero() {
    let z = vec![0.0f32; 8];
    let v = unit_vec(8, 1);
    assert_eq!(cosine(&z, &v), 0.0);
    assert_eq!(cosine(&v, &z), 0.0);
}

#[test]
fn test_cosine_similarity_result_clamped() {
    let v = unit_vec(512, 42);
    let c = cosine(&v, &v);
    assert!(c <= 1.0 && c >= -1.0, "cosine_similarity must be in [-1, 1], got {c}");
}

#[test]
fn dot_product_is_near_the_exact_one() {
    for len in [1usize, 100, 179, 256] {
        let a = lcg_vec(len, 3);
        let b = lcg_vec(len, 4);
        let exact: f64 = a.iter().zip(&b).map(|(x, y)| f64::from(*x) * f64::from(*y)).sum();
        assert!((f64::from(dot(&a, &b)) - exact).abs() < 1e-3);
    }
    // The largest errors of single sums, all to the same side.
    let mut a = vec![1.0 - 2f32.powi(-18) - 2f32.powi(-24); 128];
    a.extend(vec![1.0 - 2f32.powi(-17) - 2f32.powi(-24); 128]);
    let exact: f64 = a.iter().map(|x| f64::from(*x)).sum();
    let error = (f64::from(dot(&a, &vec![1.0; 256])) - exact).abs();
    assert!(1.2e-3 < error && error < 2.1e-3, "{error}");
}

#[test]
fn cosine_is_a_number_for_long_and_short_vectors() {
    for scale in [1e-22f32, 1e-12, 1.0, 1e12, 9e16] {
        let a: Vec<f32> = lcg_vec(100, 5).iter().map(|x| x * scale).collect();
        let b: Vec<f32> = lcg_vec(100, 6).iter().map(|x| x / scale * 1e-18).collect();
        assert!(norm(&a) < 1e18 && norm(&b) < 1e18);
        let c = cosine(&a, &b);
        assert!((-1.0..=1.0).contains(&c), "{scale}: {c}");
    }
}

#[test]
fn cosines_with_itself_and_its_opposite_are_near_one_and_minus_one() {
    for scale in [1e-3f32, 1.0, 100.0] {
        let v: Vec<f32> = lcg_vec(96, 8).iter().map(|x| x * scale).collect();
        let w: Vec<f32> = v.iter().map(|x| -x).collect();
        assert!(1e-3 <= norm(&v) && norm(&v) <= 1e3);
        assert!((cosine(&v, &v) - 1.0).abs() < 1e-6);
        assert!((cosine(&v, &w) + 1.0).abs() < 1e-6);
    }
}

#[test]
fn dot_product_of_different_lengths_stops_at_the_shorter() {
    assert_eq!(dot(&[1.0, 2.0, 3.0], &[4.0, 5.0]), 14.0);
    assert_eq!(dot(&[4.0, 5.0], &[1.0, 2.0, 3.0]), 14.0);
    assert_eq!(dot(&[], &[1.0]), 0.0);
}

#[test]
fn scalar_order_is_the_order_of_floats() {
    let values = [
        f32::NEG_INFINITY, -1e30, -2.5, -1.0, -1e-40, -0.0, 0.0, 1e-45, 1e-10, 0.5, 1.0, 2.5, 1e30,
        f32::INFINITY,
    ];
    for &a in &values {
        for &b in &values {
            assert_eq!(s(a).lt(s(b)), a < b, "{a} < {b}");
            assert_eq!(s(a).order_key() == s(b).order_key(), a == b, "{a} == {b}");
            assert_eq!(f(s(a).max(s(b))), a.max(b));
        }
        assert_eq!(f(s(a).clamp_unit()), a.clamp(-1.0, 1.0));
        assert_eq!(s(a).at_least_zero(), a >= 0.0);
        assert!(!s(a).is_nan());
        assert!(!s(a).lt(s(f32::NAN)));
        assert!(!s(f32::NAN).lt(s(a)));
        assert_eq!(f(s(f32::NAN).max(s(a))), a);
        assert_eq!(f(s(a).max(s(f32::NAN))), a);
    }
    assert!(s(f32::NAN).is_nan());
    assert!(!s(f32::NAN).at_least_zero());
}

#[test]
fn similarity_is_one_minus_the_share_of_differing_bits() {
    let zero = SimFingerprint(0);
    for d in 0..=128u32 {
        let other = SimFingerprint(if d == 128 { u128::MAX } else { (1u128 << d) - 1 });
        assert_eq!(zero.hamming_dist(&other), d);
        assert_eq!(f(zero.similarity(&other)), 1.0 - (d as f32 / 128.0));
    }
}

#[test]
fn hamming_distance_is_a_metric() {
    let prints = [0u128, 1, 0xFF00, u128::MAX, 0xDEAD_BEEF, 1 << 127];
    for &a in &prints {
        for &b in &prints {
            let (x, y) = (SimFingerprint(a), SimFingerprint(b));
            assert_eq!(x.hamming_dist(&y), y.hamming_dist(&x));
            assert_eq!(x.hamming_dist(&y) == 0, a == b);
            for &c in &prints {
                let z = SimFingerprint(c);
                assert!(x.hamming_dist(&z) <= x.hamming_dist(&y) + y.hamming_dist(&z));
            }
        }
    }
}

#[test]
fn bucket_is_the_sixteen_highest_bits() {
    assert_eq!(SimFingerprint(0xABCD << 112).bucket_key(), 0xABCD);
    assert_eq!(SimFingerprint((0xABCD << 112) | 0xFFFF).bucket_key(), 0xABCD);
    assert_eq!(SimFingerprint(u128::MAX).bucket_key(), 0xFFFF);
    assert_eq!(SimFingerprint((1 << 112) - 1).bucket_key(), 0);
}

#[test]
fn fingerprint_bits_are_the_signs_of_the_projections() {
    let h = hasher(16, 128, 3);
    let v = lcg_vec(16, 5);
    let fp = print_of(&h, &v);
    for (i, plane) in h.planes.iter().enumerate() {
        let p = f(dot_product(plane, &sv(&v), &Ieee));
        assert_eq!((fp.0 >> i) & 1 == 1, p >= 0.0, "plane {i}");
    }
    let few = hasher(16, 5, 3);
    assert!(print_of(&few, &v).0 < 32);
    assert_eq!(print_of(&few, &v).0, fp.0 & 31);
    assert_eq!(print_of(&hasher(16, 0, 3), &v).0, 0);
}

#[test]
fn planes_have_length_one_and_the_asked_for_size() {
    for dims in [1usize, 2, 7, 64] {
        let h = hasher(dims, 9, 11);
        assert_eq!(h.dims, dims);
        assert_eq!(h.planes.len(), 9);
        for plane in &h.planes {
            assert_eq!(plane.len(), dims);
            assert!((f(l2_norm(plane, &Ieee)) - 1.0).abs() < 1e-5);
        }
    }
}

#[test]
fn planes_follow_the_generator() {
    let mut state = 77u64;
    let mut step = || {
        state = state
            .wrapping_mul(6364136223846793005)
            .wrapping_add(1442695040888963407);
        (state >> 11) as f32 / (1u64 << 53) as f32
    };
    let mut raw: Vec<f32> = Vec::new();
    for _ in 0..2 {
        let (u1, u2) = (step(), step());
        let r = (-2.0 * (u1 + 1e-10f32).ln()).sqrt();
        let theta = 2.0 * std::f32::consts::PI * u2;
        raw.push(r * theta.cos());
        raw.push(r * theta.sin());
    }
    raw.truncate(3);
    let n = raw.iter().map(|x| x * x).sum::<f32>().sqrt().max(1e-10);
    let expected: Vec<f32> = raw.iter().map(|x| x / n).collect();
    let h = hasher(3, 2, 77);
    let got: Vec<f32> = h.planes[0].iter().map(|x| f(*x)).collect();
    assert_eq!(got, expected);
    assert_eq!(
        h.planes[1],
        hasher(3, 1, 77u64.wrapping_add(6364136223846793005)).planes[0]
    );
}

#[test]
fn more_planes_only_add_bits() {
    let v = lcg_vec(20, 8);
    let most = print_of(&hasher(20, 128, 6), &v).0;
    for n in [0usize, 1, 17, 64, 112, 127] {
        assert_eq!(print_of(&hasher(20, n, 6), &v).0, most & ((1u128 << n) - 1));
    }
}

#[test]
fn cosine_is_symmetric() {
    for i in 0..20u64 {
        let (a, b) = (lcg_vec(24, i), lcg_vec(24, i + 100));
        assert_eq!(cosine(&a, &b), cosine(&b, &a));
    }
}
