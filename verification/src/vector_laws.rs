//! What holds of inner products and cosines where nothing is rounded.
use crate::arith::exact_ops;
use crate::arith::Ops;
use crate::vector::dot;
use crate::vector::dot_prefix;
use crate::vector::norm;
use crate::vector::ratio;
use crate::vector::scaled_by;
use vstd::prelude::*;

verus! {

/// Whether the root of a number that is not negative is not negative and gives the number when
/// squared.
pub open spec fn true_root(g: Ops<real>) -> bool {
    forall|x: real|
        x >= 0 as real ==> #[trigger] (g.root)(x) >= 0 as real && (g.root)(x) * (g.root)(x) == x
}

/// The vector with every entry negated.
pub open spec fn negated(v: Seq<real>) -> Seq<real> {
    v.map_values(|x: real| -x)
}

proof fn lemma_square_not_negative(x: real)
    ensures
        x * x >= 0 as real,
{
    assert(x * x >= 0 as real) by (nonlinear_arith);
}

proof fn lemma_self_dot(g: Ops<real>, v: Seq<real>, n: nat)
    requires
        exact_ops(g),
    ensures
        dot_prefix(g, v, v, n) >= 0 as real,
    decreases n,
{
    if n > 0 {
        lemma_self_dot(g, v, (n - 1) as nat);
        lemma_square_not_negative(v[n - 1]);
    }
}

proof fn lemma_mean_above_product(m: real, n: real)
    ensures
        (m + n) * (m + n) >= (4 as real) * (m * n),
{
    lemma_square_not_negative(m - n);
    assert((m - n) * (m - n) == m * m - (2 as real) * (m * n) + n * n) by (nonlinear_arith);
    assert((m + n) * (m + n) == m * m + (2 as real) * (m * n) + n * n) by (nonlinear_arith);
}

proof fn lemma_regroup(a: real, b: real, c: real, d: real)
    ensures
        (a * b) * (c * d) == (a * c) * (b * d),
{
    assert((a * b) * (c * d) == (a * c) * (b * d)) by (nonlinear_arith);
}

proof fn lemma_smaller_square(t: real, w: real)
    requires
        w >= 0 as real,
        t * t <= w * w,
    ensures
        t <= w,
{
    if t > w {
        assert(t * t > w * w) by (nonlinear_arith)
            requires
                t > w,
                w >= 0 as real,
        ;
    }
}

proof fn lemma_product_not_negative(a: real, b: real)
    requires
        a >= 0 as real,
        b >= 0 as real,
    ensures
        a * b >= 0 as real,
{
    assert(a * b >= 0 as real) by (nonlinear_arith)
        requires
            a >= 0 as real,
            b >= 0 as real,
    ;
}

proof fn lemma_schwarz_step(s: real, p: real, q: real, x: real, y: real)
    requires
        p >= 0 as real,
        q >= 0 as real,
        s * s <= p * q,
    ensures
        (s + x * y) * (s + x * y) <= (p + x * x) * (q + y * y),
{
    let (u, xx, yy) = (x * y, x * x, y * y);
    let (m, n) = (p * yy, q * xx);
    let (uu, ss, pq) = (u * u, s * s, p * q);
    let w = m + n;
    let su = s * u;
    lemma_square_not_negative(x);
    lemma_square_not_negative(y);
    lemma_square_not_negative(u);
    lemma_product_not_negative(p, yy);
    lemma_product_not_negative(q, xx);
    lemma_mean_above_product(m, n);
    // The product of the two terms is at least the square of the third.
    lemma_regroup(x, y, x, y);
    lemma_regroup(p, yy, q, xx);
    assert(yy * xx == xx * yy) by (nonlinear_arith);
    assert(m * n == pq * uu);
    lemma_product_not_negative(pq - ss, uu);
    assert((pq - ss) * uu == pq * uu - ss * uu) by (nonlinear_arith);
    lemma_regroup(s, u, s, u);
    let t = (2 as real) * su;
    assert(t * t == (4 as real) * (su * su)) by (nonlinear_arith)
        requires
            t == (2 as real) * su,
    ;
    lemma_smaller_square(t, w);
    assert((s + u) * (s + u) == ss + (2 as real) * su + uu) by (nonlinear_arith)
        requires
            ss == s * s,
            su == s * u,
            uu == u * u,
    ;
    assert((p + xx) * (q + yy) == pq + p * yy + xx * q + xx * yy) by (nonlinear_arith)
        requires
            pq == p * q,
    ;
    assert(xx * q == q * xx) by (nonlinear_arith);
}

proof fn lemma_schwarz(g: Ops<real>, a: Seq<real>, b: Seq<real>, n: nat)
    requires
        exact_ops(g),
    ensures
        dot_prefix(g, a, b, n) * dot_prefix(g, a, b, n) <= dot_prefix(g, a, a, n) * dot_prefix(
            g,
            b,
            b,
            n,
        ),
    decreases n,
{
    if n == 0 {
        assert((0 as real) * (0 as real) == 0 as real) by (nonlinear_arith);
    } else {
        let m = (n - 1) as nat;
        lemma_schwarz(g, a, b, m);
        lemma_self_dot(g, a, m);
        lemma_self_dot(g, b, m);
        lemma_schwarz_step(
            dot_prefix(g, a, b, m),
            dot_prefix(g, a, a, m),
            dot_prefix(g, b, b, m),
            a[n - 1],
            b[n - 1],
        );
    }
}

/// The cosine of two vectors lies between minus one and one without being moved there.
pub proof fn lemma_ratio_in_unit_interval(g: Ops<real>, a: Seq<real>, b: Seq<real>)
    requires
        exact_ops(g),
        true_root(g),
        a.len() == b.len(),
        norm(g, a) > 0 as real,
        norm(g, b) > 0 as real,
    ensures
        -(1 as real) <= ratio(g, dot(g, a, b), norm(g, a), norm(g, b)),
        ratio(g, dot(g, a, b), norm(g, a), norm(g, b)) <= 1 as real,
{
    let s = dot(g, a, b);
    let p = dot(g, a, a);
    let q = dot(g, b, b);
    let na = norm(g, a);
    let nb = norm(g, b);
    lemma_self_dot(g, a, a.len());
    lemma_self_dot(g, b, b.len());
    lemma_schwarz(g, a, b, a.len());
    assert(na * na == p);
    assert(nb * nb == q);
    let k = na * nb;
    assert(k > 0 as real) by (nonlinear_arith)
        requires
            na > 0 as real,
            nb > 0 as real,
            k == na * nb,
    ;
    assert(k * k == p * q) by (nonlinear_arith)
        requires
            k == na * nb,
            na * na == p,
            nb * nb == q,
    ;
    assert(-k <= s && s <= k) by (nonlinear_arith)
        requires
            k > 0 as real,
            s * s <= k * k,
    ;
    assert(-(1 as real) <= s / k && s / k <= 1 as real) by (nonlinear_arith)
        requires
            k > 0 as real,
            -k <= s,
            s <= k,
    ;
}

/// The cosine of a vector with itself is one.
pub proof fn lemma_ratio_with_itself(g: Ops<real>, v: Seq<real>)
    requires
        exact_ops(g),
        true_root(g),
        norm(g, v) > 0 as real,
    ensures
        ratio(g, dot(g, v, v), norm(g, v), norm(g, v)) == 1 as real,
{
    let p = dot(g, v, v);
    let k = norm(g, v);
    lemma_self_dot(g, v, v.len());
    assert(k * k == p);
    assert(p / (k * k) == 1 as real) by (nonlinear_arith)
        requires
            k > 0 as real,
            k * k == p,
    ;
}

proof fn lemma_dot_negated(g: Ops<real>, a: Seq<real>, b: Seq<real>, n: nat)
    requires
        exact_ops(g),
        n <= a.len(),
        n <= b.len(),
    ensures
        dot_prefix(g, a, negated(b), n) == -dot_prefix(g, a, b, n),
        dot_prefix(g, negated(b), negated(b), n) == dot_prefix(g, b, b, n),
    decreases n,
{
    if n > 0 {
        lemma_dot_negated(g, a, b, (n - 1) as nat);
        let x = a[n - 1];
        let y = b[n - 1];
        assert(x * (-y) == -(x * y)) by (nonlinear_arith);
        assert((-y) * (-y) == y * y) by (nonlinear_arith);
    }
}

/// The cosine of a vector with its opposite is minus one.
pub proof fn lemma_ratio_with_opposite(g: Ops<real>, v: Seq<real>)
    requires
        exact_ops(g),
        true_root(g),
        norm(g, v) > 0 as real,
    ensures
        ratio(g, dot(g, v, negated(v)), norm(g, v), norm(g, negated(v))) == -(1 as real),
{
    let p = dot(g, v, v);
    let k = norm(g, v);
    lemma_self_dot(g, v, v.len());
    lemma_dot_negated(g, v, v, v.len());
    assert(k * k == p);
    assert((-p) / (k * k) == -(1 as real)) by (nonlinear_arith)
        requires
            k > 0 as real,
            k * k == p,
    ;
}

/// The cosine of vectors at right angles is zero.
pub proof fn lemma_ratio_at_right_angles(g: Ops<real>, a: Seq<real>, b: Seq<real>)
    requires
        exact_ops(g),
        dot(g, a, b) == 0 as real,
        norm(g, a) > 0 as real,
        norm(g, b) > 0 as real,
    ensures
        ratio(g, dot(g, a, b), norm(g, a), norm(g, b)) == 0 as real,
{
    let k = norm(g, a) * norm(g, b);
    assert(k > 0 as real) by (nonlinear_arith)
        requires
            norm(g, a) > 0 as real,
            norm(g, b) > 0 as real,
            k == norm(g, a) * norm(g, b),
    ;
    assert((0 as real) / k == 0 as real) by (nonlinear_arith)
        requires
            k > 0 as real,
    ;
}

proof fn lemma_dot_scaled(g: Ops<real>, v: Seq<real>, k: real, n: nat)
    requires
        exact_ops(g),
        k > 0 as real,
        n <= v.len(),
    ensures
        dot_prefix(g, scaled_by(g, v, k), scaled_by(g, v, k), n) * (k * k) == dot_prefix(
            g,
            v,
            v,
            n,
        ),
    decreases n,
{
    if n == 0 {
        assert((0 as real) * (k * k) == 0 as real) by (nonlinear_arith);
    } else {
        lemma_dot_scaled(g, v, k, (n - 1) as nat);
        let s = dot_prefix(g, scaled_by(g, v, k), scaled_by(g, v, k), (n - 1) as nat);
        let x = v[n - 1];
        let y = x / k;
        assert(y * k == x) by (nonlinear_arith)
            requires
                k > 0 as real,
                y == x / k,
        ;
        assert((s + y * y) * (k * k) == s * (k * k) + (y * k) * (y * k)) by (nonlinear_arith);
    }
}

/// A vector divided by its length has length one.
pub proof fn lemma_scaled_to_one(g: Ops<real>, v: Seq<real>)
    requires
        exact_ops(g),
        true_root(g),
        norm(g, v) > 0 as real,
    ensures
        norm(g, scaled_by(g, v, norm(g, v))) == 1 as real,
{
    let k = norm(g, v);
    let p = dot(g, v, v);
    let w = scaled_by(g, v, k);
    let s = dot(g, w, w);
    lemma_self_dot(g, v, v.len());
    lemma_self_dot(g, w, w.len());
    lemma_dot_scaled(g, v, k, v.len());
    assert(k * k == p);
    assert(s == 1 as real) by (nonlinear_arith)
        requires
            k > 0 as real,
            k * k == p,
            s * (k * k) == p,
    ;
    let r = norm(g, w);
    assert(r == 1 as real) by (nonlinear_arith)
        requires
            r >= 0 as real,
            r * r == 1 as real,
    ;
}

} // verus!
