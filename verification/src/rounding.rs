//! What single-precision arithmetic promises of its results: the exact result, rounded.
use crate::arith::Ops;
use crate::scalar::lemma_key_orders_by_value;
use crate::scalar::lemma_of_128ths_exact;
use crate::scalar::minus_one;
use crate::scalar::one;
use crate::scalar::spec_of_128ths;
use crate::scalar::zero;
use crate::scalar::Scalar;
use vstd::arithmetic::power2::lemma_pow2_pos;
use vstd::arithmetic::power2::pow2;
use vstd::prelude::*;

verus! {

/// The value of a finite number.
pub open spec fn value(s: Scalar) -> real {
    s.units() as real / (pow2(149) as real)
}

/// The number without its sign.
pub open spec fn size(t: real) -> real {
    if t >= 0 as real {
        t
    } else {
        -t
    }
}

/// Whether `x` differs from `t` by no more than `e`.
pub open spec fn within(x: real, t: real, e: real) -> bool {
    t - e <= x && x <= t + e
}

/// The most by which rounding moves a number: one part in two to the power of 24, and next to zero
/// less than ten to the power of minus 45.
pub open spec fn slack(t: real) -> real {
    size(t) / (16777216 as real) + 1 as real
        / (1000000000000000000000000000000000000000000000int as real)
}

/// Ten to the power of 38: no result up to that size is infinite.
pub open spec fn limit() -> real {
    100000000000000000000000000000000000000int as real
}

/// Whether `fl` rounds as single precision does: to a number nearby, in order, the same on both
/// sides of zero, and leaving alone what needs no rounding.
pub open spec fn rounding(fl: spec_fn(real) -> real) -> bool {
    &&& forall|t: real| within(#[trigger] fl(t), t, slack(t))
    &&& forall|s: real, t: real| s <= t ==> #[trigger] fl(s) <= #[trigger] fl(t)
    &&& forall|t: real| #[trigger] fl(-t) == -fl(t)
    &&& forall|s: Scalar| s.finite() ==> fl(#[trigger] value(s)) == value(s)
}

/// Whether the operations give the exact result rounded by `fl`, as those of the IEEE standard do
/// in single precision.
#[verifier::opaque]
pub open spec fn rounded(g: Ops<Scalar>, fl: spec_fn(real) -> real) -> bool {
    &&& rounding(fl)
    &&& g.zero == zero()
    &&& g.one == one()
    &&& rounded_sums(g, fl)
    &&& rounded_products(g, fl)
    &&& rounded_roots(g)
    &&& forall|x: Scalar|
        !x.nan() ==> (#[trigger] (g.tanh)(x)).finite() && within(
            value((g.tanh)(x)),
            0 as real,
            1 as real,
        )
    &&& forall|n: nat|
        n <= 16777216 ==> (#[trigger] (g.count)(n)).finite() && value((g.count)(n)) == n as real
}

/// Sums and differences: a finite one has finite terms and is the exact one rounded, and one
/// within the limit is finite.
pub open spec fn rounded_sums(g: Ops<Scalar>, fl: spec_fn(real) -> real) -> bool {
    &&& forall|x: Scalar, y: Scalar|
        (#[trigger] (g.plus)(x, y)).finite() ==> x.finite() && y.finite() && value((g.plus)(x, y))
            == fl(value(x) + value(y))
    &&& forall|x: Scalar, y: Scalar|
        x.finite() && y.finite() && size(value(x) + value(y)) <= limit() ==> (#[trigger] (g.plus)(
            x,
            y,
        )).finite()
    &&& forall|x: Scalar, y: Scalar|
        x.finite() && y.finite() && size(value(x) - value(y)) <= limit() ==> (#[trigger] (g.minus)(
            x,
            y,
        )).finite() && value((g.minus)(x, y)) == fl(value(x) - value(y))
}

/// Products and quotients: a finite product has finite factors and is the exact one rounded, one
/// within the limit is finite, and the factors may change places; a quotient of finite numbers by
/// one that is not zero is a number, and within the limit it is the exact one rounded.
pub open spec fn rounded_products(g: Ops<Scalar>, fl: spec_fn(real) -> real) -> bool {
    &&& forall|x: Scalar, y: Scalar|
        (#[trigger] (g.times)(x, y)).finite() ==> x.finite() && y.finite() && value((g.times)(x, y))
            == fl(value(x) * value(y))
    &&& forall|x: Scalar, y: Scalar|
        x.finite() && y.finite() && size(value(x) * value(y)) <= limit() ==> (#[trigger] (g.times)(
            x,
            y,
        )).finite()
    &&& forall|x: Scalar, y: Scalar|
        (#[trigger] (g.times)(x, y)) == (g.times)(y, x) || ((g.times)(x, y).nan() && (g.times)(
            y,
            x,
        ).nan())
    &&& forall|x: Scalar, y: Scalar|
        x.finite() && y.finite() && value(y) != 0 as real ==> !(#[trigger] (g.over)(x, y)).nan()
    &&& forall|x: Scalar, y: Scalar|
        x.finite() && y.finite() && value(y) != 0 as real && size(value(x) / value(y)) <= limit()
            ==> (#[trigger] (g.over)(x, y)).finite() && value((g.over)(x, y)) == fl(
            value(x) / value(y),
        )
}

/// Roots: only that of a finite number that is not negative is finite, and squared it gives the
/// number but for three parts in two to the power of 24.
pub open spec fn rounded_roots(g: Ops<Scalar>) -> bool {
    forall|x: Scalar|
        {
            let r = #[trigger] (g.root)(x);
            &&& r.finite() <==> x.finite() && value(x) >= 0 as real
            &&& r.finite() ==> value(r) >= 0 as real && within(
                value(r) * value(r),
                value(x),
                (3 as real) * value(x) / (16777216 as real),
            )
        }
}

proof fn lemma_quotients(a: real, b: real, k: real)
    requires
        k > 0 as real,
    ensures
        a < b <==> a / k < b / k,
        a == b <==> a / k == b / k,
{
    assert(a < b ==> a / k < b / k) by (nonlinear_arith)
        requires
            k > 0 as real,
    ;
    assert(b < a ==> b / k < a / k) by (nonlinear_arith)
        requires
            k > 0 as real,
    ;
}

/// Finite numbers are ordered as their values are.
pub proof fn lemma_value_order(a: Scalar, b: Scalar)
    requires
        a.finite(),
        b.finite(),
    ensures
        a.key() < b.key() <==> value(a) < value(b),
        a.key() == b.key() <==> value(a) == value(b),
        a.less(b) <==> value(a) < value(b),
{
    lemma_key_orders_by_value(a, b);
    lemma_pow2_pos(149);
    lemma_quotients(a.units() as real, b.units() as real, pow2(149) as real);
}

/// The values of zero, one and minus one.
pub proof fn lemma_constants()
    ensures
        zero().finite(),
        value(zero()) == 0 as real,
        one().finite(),
        value(one()) == 1 as real,
        minus_one().finite(),
        value(minus_one()) == -(1 as real),
{
    lemma_pow2_pos(149);
    lemma_of_128ths_exact(128);
    assert(spec_of_128ths(128) == one());
    let k = pow2(149) as real;
    assert(one().units() == pow2(149));
    assert(minus_one().units() == -one().units());
    assert(zero().units() == 0);
    assert((0 as real) / k == 0 as real && k / k == 1 as real && (-k) / k == -(1 as real))
        by (nonlinear_arith)
        requires
            k > 0 as real,
    ;
}

/// A positive value is at least two to the power of minus 149, which is more than 1.4 times ten to
/// the power of minus 45.
pub proof fn lemma_least_value(s: Scalar)
    requires
        s.finite(),
        value(s) > 0 as real,
    ensures
        value(s) >= (14 as real) / (10000000000000000000000000000000000000000000000int as real),
{
    vstd::arithmetic::power2::lemma2_to64();
    vstd::arithmetic::power2::lemma_pow2_adds(64, 64);
    vstd::arithmetic::power2::lemma_pow2_adds(128, 21);
    lemma_pow2_pos(149);
    let k = pow2(149) as real;
    let n = s.units();
    let m = n as real;
    assert(n >= 1) by {
        if n <= 0 {
            assert(m / k <= 0 as real) by (nonlinear_arith)
                requires
                    m <= 0 as real,
                    k > 0 as real,
            ;
        }
    }
    assert(pow2(149) == 713623846352979940529142984724747568191373312);
    assert(m / k >= (14 as real) / (10000000000000000000000000000000000000000000000int as real))
        by (nonlinear_arith)
        requires
            m >= 1 as real,
            k == 713623846352979940529142984724747568191373312int as real,
    ;
}

/// The largest number below one is one less one part in two to the power of 24.
pub proof fn lemma_below_one(s: Scalar)
    requires
        s.finite(),
        value(s) < 1 as real,
    ensures
        value(s) <= 1 as real - 1 as real / (16777216 as real),
{
    let p = Scalar { bits: 0x3F7F_FFFF };
    lemma_constants();
    lemma_value_order(s, one());
    lemma_value_order(p, s);
    lemma_pow2_pos(125);
    vstd::arithmetic::power2::lemma2_to64();
    vstd::arithmetic::power2::lemma_pow2_adds(24, 125);
    let k = pow2(125);
    assert(p.units() == 16777215 * k);
    assert(pow2(149) == 16777216 * k);
    let m = k as real;
    let u = p.units() as real;
    let w = pow2(149) as real;
    assert(u == (16777215 as real) * m);
    assert(w == (16777216 as real) * m);
    assert(u / w == 1 as real - 1 as real / (16777216 as real)) by (nonlinear_arith)
        requires
            m > 0 as real,
            u == (16777215 as real) * m,
            w == (16777216 as real) * m,
    ;
}

/// A number that was moved between minus one and one is nearest there to what it was.
pub proof fn lemma_clamped_value(s: Scalar)
    requires
        s.finite(),
    ensures
        s.clamped().finite(),
        value(s.clamped()) == if value(s) < -(1 as real) {
            -(1 as real)
        } else if value(s) > 1 as real {
            1 as real
        } else {
            value(s)
        },
{
    lemma_constants();
    lemma_value_order(s, minus_one());
    lemma_value_order(one(), s);
}

/// What is computed starts from zero and one.
pub proof fn lemma_starts(g: Ops<Scalar>, fl: spec_fn(real) -> real)
    requires
        rounded(g, fl),
    ensures
        g.zero == zero(),
        g.one == one(),
        value(g.zero) == 0 as real,
        value(g.one) == 1 as real,
        g.zero.finite(),
        g.one.finite(),
{
    reveal(rounded);
    lemma_constants();
}

/// Rounding moves no number far.
pub proof fn lemma_rounding_near(g: Ops<Scalar>, fl: spec_fn(real) -> real, t: real)
    requires
        rounded(g, fl),
    ensures
        within(fl(t), t, slack(t)),
        t >= 0 as real ==> fl(t) >= 0 as real,
{
    reveal(rounded);
    lemma_constants();
    assert(fl(value(zero())) == 0 as real);
    assert(t >= 0 as real ==> fl(0 as real) <= fl(t));
}

/// Rounding keeps the order of numbers.
pub proof fn lemma_rounding_order(g: Ops<Scalar>, fl: spec_fn(real) -> real, s: real, t: real)
    requires
        rounded(g, fl),
        s <= t,
    ensures
        fl(s) <= fl(t),
{
    reveal(rounded);
}

/// Rounding leaves a finite number alone.
pub proof fn lemma_rounding_fixes(g: Ops<Scalar>, fl: spec_fn(real) -> real, s: Scalar)
    requires
        rounded(g, fl),
        s.finite(),
    ensures
        fl(value(s)) == value(s),
{
    reveal(rounded);
}

/// The computed sum of finite numbers is the exact one rounded.
pub proof fn lemma_sum(g: Ops<Scalar>, fl: spec_fn(real) -> real, x: Scalar, y: Scalar)
    requires
        rounded(g, fl),
        (g.plus)(x, y).finite() || (x.finite() && y.finite() && size(value(x) + value(y)) <= limit()),
    ensures
        x.finite(),
        y.finite(),
        (g.plus)(x, y).finite(),
        value((g.plus)(x, y)) == fl(value(x) + value(y)),
        within(fl(value(x) + value(y)), value(x) + value(y), slack(value(x) + value(y))),
{
    reveal(rounded);
}

/// The computed difference of finite numbers is the exact one rounded.
pub proof fn lemma_difference(g: Ops<Scalar>, fl: spec_fn(real) -> real, x: Scalar, y: Scalar)
    requires
        rounded(g, fl),
        x.finite(),
        y.finite(),
        size(value(x) - value(y)) <= limit(),
    ensures
        (g.minus)(x, y).finite(),
        value((g.minus)(x, y)) == fl(value(x) - value(y)),
        within(fl(value(x) - value(y)), value(x) - value(y), slack(value(x) - value(y))),
{
    reveal(rounded);
}

/// The computed product of finite numbers is the exact one rounded.
pub proof fn lemma_product(g: Ops<Scalar>, fl: spec_fn(real) -> real, x: Scalar, y: Scalar)
    requires
        rounded(g, fl),
        (g.times)(x, y).finite() || (x.finite() && y.finite() && size(value(x) * value(y))
            <= limit()),
    ensures
        x.finite(),
        y.finite(),
        (g.times)(x, y).finite(),
        value((g.times)(x, y)) == fl(value(x) * value(y)),
        within(fl(value(x) * value(y)), value(x) * value(y), slack(value(x) * value(y))),
{
    reveal(rounded);
}

/// The computed quotient of finite numbers is the exact one rounded.
pub proof fn lemma_quotient(g: Ops<Scalar>, fl: spec_fn(real) -> real, x: Scalar, y: Scalar)
    requires
        rounded(g, fl),
        x.finite(),
        y.finite(),
        value(y) != 0 as real,
    ensures
        !(g.over)(x, y).nan(),
        size(value(x) / value(y)) <= limit() ==> {
            let q = value(x) / value(y);
            &&& (g.over)(x, y).finite()
            &&& value((g.over)(x, y)) == fl(q)
            &&& within(fl(q), q, slack(q))
        },
{
    reveal(rounded);
}

/// Only the root of a finite number that is not negative is finite, and its square is near.
pub proof fn lemma_root(g: Ops<Scalar>, fl: spec_fn(real) -> real, x: Scalar)
    requires
        rounded(g, fl),
        (g.root)(x).finite(),
    ensures
        x.finite(),
        value(x) >= 0 as real,
        value((g.root)(x)) >= 0 as real,
        within(
            value((g.root)(x)) * value((g.root)(x)),
            value(x),
            (3 as real) * value(x) / (16777216 as real),
        ),
{
    reveal(rounded);
}

/// The computed hyperbolic tangent of a number lies between minus one and one.
pub proof fn lemma_tanh(g: Ops<Scalar>, fl: spec_fn(real) -> real, x: Scalar)
    requires
        rounded(g, fl),
        !x.nan(),
    ensures
        (g.tanh)(x).finite(),
        within(value((g.tanh)(x)), 0 as real, 1 as real),
{
    reveal(rounded);
}

/// An integer that single precision can hold is what counting gives.
pub proof fn lemma_counted(g: Ops<Scalar>, fl: spec_fn(real) -> real, n: nat)
    requires
        rounded(g, fl),
        n <= 16777216,
    ensures
        (g.count)(n).finite(),
        value((g.count)(n)) == n as real,
{
    reveal(rounded);
}

} // verus!
