//! Similarity fingerprints: 128 signs packed into an integer, compared by Hamming distance.
use crate::scalar::of_128ths;
use crate::scalar::spec_of_128ths;
use crate::scalar::Scalar;
use vstd::arithmetic::power2::pow2;
use vstd::prelude::*;

verus! {

/// A fingerprint. The Hamming distance of two fingerprints approximates the angle between the
/// vectors that they were taken of.
#[derive(Clone, Copy, PartialEq, Eq, Structural, Debug, Hash)]
pub struct SimFingerprint(pub u128);

/// How many bits of `x` are set.
pub open spec fn ones(x: u128) -> nat
    decreases x,
{
    if x == 0 {
        0
    } else {
        ((x % 2) as nat) + ones(x / 2)
    }
}

/// `u128::count_ones` of the standard library: the number of ones in the binary representation.
pub assume_specification[ u128::count_ones ](x: u128) -> (n: u32)
    ensures
        n == ones(x),
;

impl SimFingerprint {
    /// In how many bits two fingerprints differ.
    pub open spec fn distance(self, other: SimFingerprint) -> nat {
        ones(self.0 ^ other.0)
    }

    /// The share of bits on which two fingerprints agree.
    pub open spec fn agreement(self, other: SimFingerprint) -> Scalar {
        spec_of_128ths((128 - self.distance(other)) as nat)
    }

    /// The coarse bucket of a fingerprint: its sixteen highest bits.
    pub open spec fn bucket(self) -> u16 {
        (self.0 / 0x1_0000_0000_0000_0000_0000_0000_0000) as u16
    }

    /// In how many bits the fingerprints differ.
    pub fn hamming_dist(&self, other: &SimFingerprint) -> (d: u32)
        ensures
            d == self.distance(*other),
            d <= 128,
    {
        proof {
            lemma_ones_at_most_128(self.0 ^ other.0);
        }
        (self.0 ^ other.0).count_ones()
    }

    /// The share of bits on which the fingerprints agree: `1 - distance / 128`, exactly.
    pub fn similarity(&self, other: &SimFingerprint) -> (s: Scalar)
        ensures
            s == self.agreement(*other),
            s.finite(),
            s.units() * 128 == (128 - self.distance(*other)) * pow2(149),
    {
        let d = self.hamming_dist(other);
        proof {
            crate::scalar::lemma_of_128ths_exact((128 - d) as nat);
        }
        of_128ths(128 - d)
    }

    /// The coarse bucket of the fingerprint.
    pub fn bucket_key(&self) -> (b: u16)
        ensures
            b == self.bucket(),
    {
        let x = self.0;
        assert(x >> 112 == x / 0x1_0000_0000_0000_0000_0000_0000_0000u128) by (bit_vector);
        (self.0 >> 112) as u16
    }
}

proof fn lemma_ones_below(x: u128, width: nat)
    requires
        x < pow2(width),
    ensures
        ones(x) <= width,
    decreases width,
{
    if width == 0 {
        vstd::arithmetic::power2::lemma2_to64();
    } else {
        vstd::arithmetic::power2::lemma_pow2_unfold(width);
        lemma_ones_below(x / 2, (width - 1) as nat);
    }
}

proof fn lemma_ones_at_most_128(x: u128)
    ensures
        ones(x) <= 128,
{
    vstd::arithmetic::power2::lemma2_to64();
    vstd::arithmetic::power2::lemma_pow2_adds(64, 64);
    lemma_ones_below(x, 128);
}

proof fn lemma_ones_of_xor(x: u128, y: u128)
    ensures
        ones(x ^ y) <= ones(x) + ones(y),
    decreases x, y,
{
    if x == 0 {
        assert(0u128 ^ y == y) by (bit_vector);
    } else if y == 0 {
        assert(x ^ 0u128 == x) by (bit_vector);
    } else {
        assert((x ^ y) / 2 == (x / 2) ^ (y / 2)) by (bit_vector);
        assert((x ^ y) % 2 <= (x % 2) + (y % 2)) by (bit_vector);
        lemma_ones_of_xor(x / 2, y / 2);
    }
}

proof fn lemma_no_ones(x: u128)
    ensures
        ones(x) == 0 <==> x == 0,
    decreases x,
{
    if x != 0 {
        lemma_no_ones(x / 2);
    }
}

/// The Hamming distance is a metric of diameter 128: it is zero between equal fingerprints only,
/// the same in both directions, and obeys the triangle inequality.
pub proof fn lemma_distance_is_metric(a: SimFingerprint, b: SimFingerprint, c: SimFingerprint)
    ensures
        a.distance(b) == 0 <==> a == b,
        a.distance(b) == b.distance(a),
        a.distance(c) <= a.distance(b) + b.distance(c),
        a.distance(b) <= 128,
{
    let (x, y, z) = (a.0, b.0, c.0);
    assert(x ^ y == y ^ x) by (bit_vector);
    assert(x ^ y == 0 <==> x == y) by (bit_vector);
    assert((x ^ y) ^ (y ^ z) == x ^ z) by (bit_vector);
    lemma_no_ones(x ^ y);
    lemma_ones_of_xor(x ^ y, y ^ z);
    lemma_ones_at_most_128(x ^ y);
}

/// Of two fingerprints, the nearer one is the more similar one: the order by similarity is the
/// order by distance, reversed.
pub proof fn lemma_agreement_orders_by_distance(a: SimFingerprint, b: SimFingerprint, c: SimFingerprint)
    ensures
        a.distance(b) < a.distance(c) <==> a.agreement(b).key() > a.agreement(c).key(),
        a.distance(b) == a.distance(c) <==> a.agreement(b).key() == a.agreement(c).key(),
{
    lemma_ones_at_most_128(a.0 ^ b.0);
    lemma_ones_at_most_128(a.0 ^ c.0);
}

/// Similarity lies between zero and one, and is one of equal fingerprints only.
pub proof fn lemma_agreement_in_unit_interval(a: SimFingerprint, b: SimFingerprint)
    ensures
        0 <= a.agreement(b).key() <= crate::scalar::one().key(),
        a.agreement(b) == crate::scalar::one() <==> a == b,
{
    lemma_ones_at_most_128(a.0 ^ b.0);
    lemma_distance_is_metric(a, b, a);
}

} // verus!
