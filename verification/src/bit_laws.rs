//! What comparing, choosing and moving numbers does to their bits, and what a distance counts.
use crate::fingerprint::ones;
use crate::fingerprint::SimFingerprint;
use crate::scalar::Scalar;
use vstd::arithmetic::power2::lemma_pow2_unfold;
use vstd::arithmetic::power2::pow2;
use vstd::prelude::*;

verus! {

/// A pattern is a NaN if its exponent is all ones and its fraction is not zero. A number is less
/// than another if it is negative and the other is not, unless both are zero; if both are positive
/// and its bits are fewer; or if both are negative and its bits are more.
pub proof fn lemma_order_by_bits(a: Scalar, b: Scalar)
    ensures
        a.nan() <==> 0x7F80_0000 < a.bits < 0x8000_0000 || 0xFF80_0000 < a.bits,
        !a.nan() && !b.nan() ==> (a.less(b) <==> if a.bits >= 0x8000_0000 {
            if b.bits >= 0x8000_0000 {
                b.bits < a.bits
            } else {
                a.bits != 0x8000_0000 || b.bits != 0
            }
        } else {
            b.bits < 0x8000_0000 && a.bits < b.bits
        }),
        a.nan() || b.nan() ==> !a.less(b),
{
}

/// The larger of two numbers is one of them and not less than either; of a number and a NaN it is
/// the number.
pub proof fn lemma_larger_is_larger(a: Scalar, b: Scalar)
    ensures
        a.larger(b) == a || a.larger(b) == b,
        !a.larger(b).less(a),
        !a.larger(b).less(b),
        a.nan() ==> a.larger(b) == b,
        b.nan() ==> a.larger(b) == if a.nan() {
            b
        } else {
            a
        },
{
}

/// What positive bits stand for, in units of the least number: below the first exponent themselves;
/// above it, a pattern with the next exponent stands for twice as much, and a fraction adds its
/// share of what the exponent alone stands for. One is two to the power of 149 units, and a pattern
/// with the sign set stands for as much less than zero.
pub proof fn lemma_value_by_bits(s: Scalar)
    requires
        s.bits < 0x7F80_0000,
    ensures
        s.bits < 0x80_0000 ==> s.units() == s.bits,
        s.bits >= 0x80_0000 && s.bits < 0x7F00_0000 ==> (Scalar {
            bits: (s.bits + 0x80_0000) as u32,
        }).units() == 2 * s.units(),
        s.bits >= 0x80_0000 ==> s.units() * 0x80_0000 == (0x80_0000 + s.bits % 0x80_0000) * (
        Scalar { bits: (s.bits - s.bits % 0x80_0000) as u32 }).units(),
        (Scalar { bits: 0x3F80_0000 }).units() == pow2(149),
        (Scalar { bits: (s.bits + 0x8000_0000) as u32 }).units() == -s.units(),
{
    crate::scalar::lemma_of_128ths_exact(128);
    if s.bits >= 0x80_0000 {
        let e = (s.bits / 0x80_0000) as nat;
        let f = (s.bits % 0x80_0000) as nat;
        lemma_pow2_unfold(e);
        let h = pow2((e - 1) as nat);
        let next = Scalar { bits: (s.bits + 0x80_0000) as u32 };
        let whole = Scalar { bits: (s.bits - s.bits % 0x80_0000) as u32 };
        assert(s.units() == (0x80_0000 + f) * h);
        assert(whole.bits as int / 0x80_0000 == e && whole.bits as int % 0x80_0000 == 0);
        assert(whole.units() == 0x80_0000 * h);
        assert(((0x80_0000 + f) * h) * 0x80_0000 == (0x80_0000 + f) * (0x80_0000 * h))
            by (nonlinear_arith);
        if s.bits < 0x7F00_0000 {
            assert(next.bits as int / 0x80_0000 == e + 1 && next.bits as int % 0x80_0000 == f);
            assert(next.units() == (0x80_0000 + f) * pow2(e));
            assert((0x80_0000 + f) * (2 * h) == 2 * ((0x80_0000 + f) * h)) by (nonlinear_arith);
        }
    }
}

/// How many of the first `n` places two patterns differ in.
pub open spec fn differing(a: u128, b: u128, n: nat) -> nat
    decreases n,
{
    if n == 0 {
        0
    } else {
        differing(a, b, (n - 1) as nat) + if (a >> (n - 1) as u128) & 1 != (b >> (n - 1) as u128)
            & 1 {
            1nat
        } else {
            0
        }
    }
}

/// How many of the first `n` bits are set.
spec fn set_below(x: u128, n: nat) -> nat
    decreases n,
{
    if n == 0 {
        0
    } else {
        set_below(x, (n - 1) as nat) + if (x >> (n - 1) as u128) & 1 == 1 {
            1nat
        } else {
            0
        }
    }
}

proof fn lemma_set_below_half(x: u128, n: nat)
    requires
        n < 128,
    ensures
        set_below(x, n + 1) == (x % 2) as nat + set_below(x / 2, n),
    decreases n,
{
    reveal_with_fuel(set_below, 2);
    if n == 0 {
        assert((x >> 0u128) & 1 == x % 2) by (bit_vector);
        assert(x % 2 < 2);
    } else {
        lemma_set_below_half(x, (n - 1) as nat);
        let m = n as u128;
        let k = (n - 1) as u128;
        assert((x >> m) & 1 == ((x / 2) >> k) & 1) by (bit_vector)
            requires
                m == k + 1,
                m < 128,
        ;
    }
}

proof fn lemma_ones_are_set(x: u128, n: nat)
    requires
        n <= 128,
        x < pow2(n),
    ensures
        ones(x) == set_below(x, n),
    decreases n,
{
    if n == 0 {
        vstd::arithmetic::power2::lemma2_to64();
    } else {
        lemma_pow2_unfold(n);
        lemma_set_below_half(x, (n - 1) as nat);
        lemma_ones_are_set(x / 2, (n - 1) as nat);
        if x == 0 {
            assert(ones(0u128 / 2) == 0);
        }
    }
}

proof fn lemma_differing_is_xor(a: u128, b: u128, n: nat)
    requires
        n <= 128,
    ensures
        differing(a, b, n) == set_below(a ^ b, n),
    decreases n,
{
    if n > 0 {
        lemma_differing_is_xor(a, b, (n - 1) as nat);
        let i = (n - 1) as u128;
        assert(((a ^ b) >> i) & 1 == 1 <==> (a >> i) & 1 != (b >> i) & 1) by (bit_vector)
            requires
                i < 128,
        ;
    }
}

/// The distance of two fingerprints counts the places, of 128, in which they differ. The bucket of
/// a fingerprint is its sixteen highest bits.
pub proof fn lemma_distance_counts_places(a: SimFingerprint, b: SimFingerprint)
    ensures
        a.distance(b) == differing(a.0, b.0, 128),
        a.bucket() as u128 == a.0 >> 112u128,
{
    vstd::arithmetic::power2::lemma2_to64();
    vstd::arithmetic::power2::lemma_pow2_adds(64, 64);
    lemma_ones_are_set(a.0 ^ b.0, 128);
    lemma_differing_is_xor(a.0, b.0, 128);
    let x = a.0;
    assert(x >> 112u128 == x / 0x1_0000_0000_0000_0000_0000_0000_0000u128) by (bit_vector);
}

} // verus!
