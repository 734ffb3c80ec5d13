//! Single-precision numbers, carried by their IEEE 754 bit pattern.
//!
//! The index stores, copies, compares and clamps such numbers, and all of that is decided here
//! on the bits. What takes rounding (sums, products, roots and the like) is asked of an
//! [`Arithmetic`](crate::Arithmetic).
use vstd::arithmetic::power2::lemma_pow2_adds;
use vstd::arithmetic::power2::lemma_pow2_pos;
use vstd::arithmetic::power2::lemma_pow2_strictly_increases;
use vstd::arithmetic::power2::pow2;
use vstd::prelude::*;

verus! {

/// A single-precision number: one sign bit, eight bits of exponent, twenty-three of fraction.
#[derive(Clone, Copy, PartialEq, Eq, Structural, Debug, Hash)]
pub struct Scalar {
    pub bits: u32,
}

/// `0.0`
#[verifier::allow_in_spec]
pub fn zero() -> Scalar
    returns
        (Scalar { bits: 0 }),
{
    Scalar { bits: 0 }
}

/// `1.0`
#[verifier::allow_in_spec]
pub fn one() -> Scalar
    returns
        (Scalar { bits: 0x3F80_0000 }),
{
    Scalar { bits: 0x3F80_0000 }
}

/// `-1.0`
#[verifier::allow_in_spec]
pub fn minus_one() -> Scalar
    returns
        (Scalar { bits: 0xBF80_0000 }),
{
    Scalar { bits: 0xBF80_0000 }
}

/// The value of a magnitude (the bits without the sign) in units of the least positive number,
/// which is two to the power of minus 149.
pub open spec fn magnitude_units(magnitude: nat) -> nat {
    let exponent = magnitude / 0x80_0000;
    let fraction = magnitude % 0x80_0000;
    if exponent == 0 {
        fraction
    } else {
        (0x80_0000 + fraction) * pow2((exponent - 1) as nat)
    }
}

impl Scalar {
    /// The bits without the sign.
    pub open spec fn magnitude(self) -> nat {
        (self.bits % 0x8000_0000) as nat
    }

    /// Whether the pattern stands for no number.
    pub open spec fn nan(self) -> bool {
        self.magnitude() > 0x7F80_0000
    }

    /// Whether the pattern stands for a number that is not infinite.
    pub open spec fn finite(self) -> bool {
        self.magnitude() < 0x7F80_0000
    }

    /// The exact value of a finite number, in units of two to the power of minus 149.
    pub open spec fn units(self) -> int {
        if self.bits < 0x8000_0000 {
            magnitude_units(self.magnitude()) as int
        } else {
            -magnitude_units(self.magnitude())
        }
    }

    /// An integer that grows with the number: both zeros have the key zero.
    pub open spec fn key(self) -> int {
        if self.bits < 0x8000_0000 {
            self.bits as int
        } else {
            0x8000_0000 - self.bits
        }
    }

    /// `self < other`, which holds of no pair with a NaN in it.
    pub open spec fn less(self, other: Scalar) -> bool {
        !self.nan() && !other.nan() && self.key() < other.key()
    }

    /// The larger of the two, or the one that is a number if the other is not.
    pub open spec fn larger(self, other: Scalar) -> Scalar {
        if self.nan() || self.less(other) {
            other
        } else {
            self
        }
    }

    /// `self` moved into the interval from minus one to one. A NaN stays what it is.
    pub open spec fn clamped(self) -> Scalar {
        if self.less(minus_one()) {
            minus_one()
        } else if one().less(self) {
            one()
        } else {
            self
        }
    }

    /// The ordering key of the number.
    pub fn order_key(self) -> (k: i64)
        ensures
            k == self.key(),
    {
        if self.bits < 0x8000_0000 {
            self.bits as i64
        } else {
            0x8000_0000i64 - self.bits as i64
        }
    }

    /// Whether this is a NaN.
    pub fn is_nan(self) -> (b: bool)
        ensures
            b == self.nan(),
    {
        self.bits % 0x8000_0000 > 0x7F80_0000
    }

    /// `self < other`
    pub fn lt(self, other: Scalar) -> (b: bool)
        ensures
            b == self.less(other),
    {
        !self.is_nan() && !other.is_nan() && self.order_key() < other.order_key()
    }

    /// `self >= 0.0`
    pub fn at_least_zero(self) -> (b: bool)
        ensures
            b == (!self.nan() && self.key() >= 0),
    {
        !self.is_nan() && self.order_key() >= 0
    }

    /// The larger of the two numbers; of a number and a NaN, the number.
    pub fn max(self, other: Scalar) -> (m: Scalar)
        ensures
            m == self.larger(other),
    {
        if self.is_nan() || self.lt(other) {
            other
        } else {
            self
        }
    }

    /// The number moved into the interval from `-1.0` to `1.0`.
    pub fn clamp_unit(self) -> (c: Scalar)
        ensures
            c == self.clamped(),
    {
        if self.lt(minus_one()) {
            minus_one()
        } else if one().lt(self) {
            one()
        } else {
            self
        }
    }
}

/// The number `n / 128`, which has an exact pattern for every `n` up to 128.
pub open spec fn spec_of_128ths(n: nat) -> Scalar {
    let bits: int = if n == 0 {
        0
    } else if n < 2 {
        0x3C00_0000int
    } else if n < 4 {
        121 * 0x80_0000 + (n - 2) * 0x40_0000
    } else if n < 8 {
        122 * 0x80_0000 + (n - 4) * 0x20_0000
    } else if n < 16 {
        123 * 0x80_0000 + (n - 8) * 0x10_0000
    } else if n < 32 {
        124 * 0x80_0000 + (n - 16) * 0x8_0000
    } else if n < 64 {
        125 * 0x80_0000 + (n - 32) * 0x4_0000
    } else if n < 128 {
        126 * 0x80_0000 + (n - 64) * 0x2_0000
    } else {
        0x3F80_0000int
    };
    Scalar { bits: bits as u32 }
}

/// The number `n / 128`.
pub fn of_128ths(n: u32) -> (s: Scalar)
    requires
        n <= 128,
    ensures
        s == spec_of_128ths(n as nat),
{
    let bits: u32 = if n == 0 {
        0
    } else if n < 2 {
        120 * 0x80_0000
    } else if n < 4 {
        121 * 0x80_0000 + (n - 2) * 0x40_0000
    } else if n < 8 {
        122 * 0x80_0000 + (n - 4) * 0x20_0000
    } else if n < 16 {
        123 * 0x80_0000 + (n - 8) * 0x10_0000
    } else if n < 32 {
        124 * 0x80_0000 + (n - 16) * 0x8_0000
    } else if n < 64 {
        125 * 0x80_0000 + (n - 32) * 0x4_0000
    } else if n < 128 {
        126 * 0x80_0000 + (n - 64) * 0x2_0000
    } else {
        127 * 0x80_0000
    };
    Scalar { bits }
}

/// A number with exponent field `e + 120` and fraction `(n - 2^e) * 2^(23 - e)` is `n / 128`.
proof fn lemma_128ths_case(n: nat, e: nat, magnitude: nat)
    requires
        e <= 7,
        pow2(e) <= n < 2 * pow2(e),
        magnitude == (e + 120) * 0x80_0000 + (n - pow2(e)) * pow2((23 - e) as nat),
    ensures
        magnitude_units(magnitude) * 128 == n * pow2(149),
{
    let step = pow2((23 - e) as nat);
    let fraction = (n - pow2(e)) * step;
    lemma_pow2_adds(e, (23 - e) as nat);
    lemma_pow2_adds((23 - e) as nat, (e + 119) as nat);
    lemma_pow2_adds(142, 7);
    lemma_pow2_pos((23 - e) as nat);
    vstd::arithmetic::power2::lemma2_to64();
    assert(pow2(23) == 0x80_0000);
    assert(0 <= fraction < 0x80_0000) by (nonlinear_arith)
        requires
            pow2(e) <= n < 2 * pow2(e),
            step > 0,
            pow2(e) * step == 0x80_0000,
            fraction == (n - pow2(e)) * step,
    ;
    assert(0x80_0000 + fraction == n * step) by (nonlinear_arith)
        requires
            pow2(e) * step == 0x80_0000,
            fraction == (n - pow2(e)) * step,
    ;
    assert(magnitude / 0x80_0000 == e + 120);
    assert(magnitude % 0x80_0000 == fraction);
    let high = pow2((e + 119) as nat);
    assert((n * step) * high * 128 == n * pow2(149)) by (nonlinear_arith)
        requires
            step * high == pow2(142),
            pow2(142) * 128 == pow2(149),
    ;
}

/// `of_128ths` is exact: times 128 the number is `n`.
pub proof fn lemma_of_128ths_exact(n: nat)
    requires
        n <= 128,
    ensures
        spec_of_128ths(n).finite(),
        spec_of_128ths(n).units() * 128 == n * pow2(149),
{
    vstd::arithmetic::power2::lemma2_to64();
    let m = spec_of_128ths(n).magnitude();
    if n == 0 {
    } else if n < 2 {
        lemma_128ths_case(n, 0, m);
    } else if n < 4 {
        lemma_128ths_case(n, 1, m);
    } else if n < 8 {
        lemma_128ths_case(n, 2, m);
    } else if n < 16 {
        lemma_128ths_case(n, 3, m);
    } else if n < 32 {
        lemma_128ths_case(n, 4, m);
    } else if n < 64 {
        lemma_128ths_case(n, 5, m);
    } else if n < 128 {
        lemma_128ths_case(n, 6, m);
    } else {
        lemma_128ths_case(n, 7, m);
    }
}

proof fn lemma_magnitude_order(a: nat, b: nat)
    requires
        a < b,
    ensures
        magnitude_units(a) < magnitude_units(b),
{
    let ea = a / 0x80_0000;
    let eb = b / 0x80_0000;
    let fa = a % 0x80_0000;
    let fb = b % 0x80_0000;
    if eb == 0 {
    } else {
        let hb = pow2((eb - 1) as nat);
        lemma_pow2_pos((eb - 1) as nat);
        if ea == eb {
            assert((0x80_0000 + fa) * hb < (0x80_0000 + fb) * hb) by (nonlinear_arith)
                requires
                    fa < fb,
                    hb > 0,
            ;
        } else {
            assert((0x80_0000 + fb) * hb >= 0x80_0000 * hb) by (nonlinear_arith)
                requires
                    hb > 0,
            ;
            if ea > 0 {
                let ha = pow2((ea - 1) as nat);
                lemma_pow2_pos((ea - 1) as nat);
                lemma_pow2_adds((ea - 1) as nat, 1);
                vstd::arithmetic::power2::lemma2_to64();
                if ea < eb - 1 {
                    lemma_pow2_strictly_increases(ea, (eb - 1) as nat);
                }
                assert((0x80_0000 + fa) * ha < 0x80_0000 * (2 * ha)) by (nonlinear_arith)
                    requires
                        fa < 0x80_0000,
                        ha > 0,
                ;
            }
        }
    }
}

/// The ordering key orders finite numbers by their value.
pub proof fn lemma_key_orders_by_value(a: Scalar, b: Scalar)
    requires
        a.finite(),
        b.finite(),
    ensures
        a.key() < b.key() <==> a.units() < b.units(),
        a.key() == b.key() <==> a.units() == b.units(),
{
    let ma = a.magnitude();
    let mb = b.magnitude();
    if ma < mb {
        lemma_magnitude_order(ma, mb);
    }
    if mb < ma {
        lemma_magnitude_order(mb, ma);
    }
    if 0 < ma {
        lemma_magnitude_order(0, ma);
    }
    if 0 < mb {
        lemma_magnitude_order(0, mb);
    }
}

/// A clamped number lies between minus one and one.
pub proof fn lemma_clamped_in_unit_interval(s: Scalar)
    ensures
        s.nan() <==> s.clamped().nan(),
        !s.nan() ==> minus_one().key() <= s.clamped().key() <= one().key(),
{
}

} // verus!
