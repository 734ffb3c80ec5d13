//! How far computed inner products, cosines and scores are from the exact ones.
use crate::arith::Ops;
use crate::ids::NodeId;
use crate::index::IndexView;
use crate::laws::lemma_figures;
use crate::laws::lemma_product_as_real;
use crate::recall_laws::lemma_stored_found;
use crate::rounding::lemma_clamped_value;
use crate::rounding::lemma_constants;
use crate::rounding::lemma_counted;
use crate::rounding::lemma_difference;
use crate::rounding::lemma_least_value;
use crate::rounding::lemma_product;
use crate::rounding::lemma_quotient;
use crate::rounding::lemma_root;
use crate::rounding::lemma_rounding_fixes;
use crate::rounding::lemma_rounding_near;
use crate::rounding::lemma_rounding_order;
use crate::rounding::lemma_starts;
use crate::rounding::lemma_sum;
use crate::rounding::lemma_tanh;
use crate::rounding::lemma_value_order;
use crate::rounding::limit;
use crate::rounding::rounded;
use crate::rounding::size;
use crate::rounding::slack;
use crate::rounding::value;
use crate::rounding::within;
use crate::scalar::minus_one;
use crate::scalar::one;
use crate::scalar::zero;
use crate::scalar::Scalar;
use crate::search::blend;
use crate::search_laws::lemma_found_scores;
use crate::search_laws::lemma_score_blends_cosine;
use crate::stats::edge_total;
use crate::symmetry::swaps_factors;
use crate::vector::cosine;
use crate::vector::dot;
use crate::vector::dot_prefix;
use crate::vector::norm;
use crate::vector::ratio;
use crate::vector::shorter;
use vstd::prelude::*;

verus! {

/// The exact sum of the products of the first `n` entries.
pub open spec fn true_dot(a: Seq<Scalar>, b: Seq<Scalar>, n: nat) -> real
    decreases n,
{
    if n == 0 {
        0 as real
    } else {
        true_dot(a, b, (n - 1) as nat) + value(a[n - 1]) * value(b[n - 1])
    }
}

/// The entries are finite and between minus one and one.
pub open spec fn unit_entries(v: Seq<Scalar>) -> bool {
    forall|i: int|
        0 <= i < v.len() ==> (#[trigger] v[i]).finite() && within(
            value(v[i]),
            0 as real,
            1 as real,
        )
}

/// The error of an inner product of `n` entries between minus one and one, in parts of two to the
/// power of 24.
pub open spec fn dot_error(n: nat) -> real {
    let k = n as real;
    k * (k + 7 as real) / (2 as real) / (16777216 as real)
}

proof fn lemma_dot_error_step(n: nat)
    requires
        n < 4096,
    ensures
        dot_error(n + 1) == dot_error(n) + (n as real + 4 as real) / (16777216 as real),
        0 as real <= dot_error(n),
        dot_error(n) <= 1 as real,
{
    let k = n as real;
    assert((n + 1) as real == k + 1 as real);
    assert((k + 1 as real) * (k + 1 as real + 7 as real) == k * (k + 7 as real) + (2 as real) * (k
        + 4 as real)) by (nonlinear_arith);
    assert(0 as real <= k * (k + 7 as real) && k * (k + 7 as real) <= 16805888 as real)
        by (nonlinear_arith)
        requires
            0 as real <= k,
            k <= 4096 as real,
    ;
}

proof fn lemma_unit_product(x: real, y: real)
    requires
        within(x, 0 as real, 1 as real),
        within(y, 0 as real, 1 as real),
    ensures
        within(x * y, 0 as real, 1 as real),
{
    assert(-(1 as real) <= x * y && x * y <= 1 as real) by (nonlinear_arith)
        requires
            -(1 as real) <= x,
            x <= 1 as real,
            -(1 as real) <= y,
            y <= 1 as real,
    ;
}

proof fn lemma_dot_prefix_error(
    g: Ops<Scalar>,
    fl: spec_fn(real) -> real,
    a: Seq<Scalar>,
    b: Seq<Scalar>,
    n: nat,
)
    requires
        rounded(g, fl),
        unit_entries(a),
        unit_entries(b),
        n <= a.len(),
        n <= b.len(),
        n <= 4096,
    ensures
        dot_prefix(g, a, b, n).finite(),
        within(value(dot_prefix(g, a, b, n)), true_dot(a, b, n), dot_error(n)),
        within(true_dot(a, b, n), 0 as real, n as real),
    decreases n,
{
    reveal(rounded);
    lemma_constants();
    if n == 0 {
        assert(dot_error(0) == 0 as real) by (nonlinear_arith);
    } else {
        let m = (n - 1) as nat;
        lemma_dot_prefix_error(g, fl, a, b, m);
        lemma_dot_error_step(m);
        let x = a[m as int];
        let y = b[m as int];
        let t = value(x) * value(y);
        lemma_unit_product(value(x), value(y));
        let p = (g.times)(x, y);
        assert(p.finite());
        assert(within(value(p), t, slack(t)));
        let s = dot_prefix(g, a, b, m);
        let sum = value(s) + value(p);
        assert(n as real == m as real + 1 as real);
        assert(size(sum) <= m as real + 3 as real);
        assert((g.plus)(s, p).finite());
        assert(within(value((g.plus)(s, p)), sum, slack(sum)));
    }
}

/// Whether no exact sum of the first products is larger than `most`.
pub open spec fn sums_within(a: Seq<Scalar>, b: Seq<Scalar>, n: nat, most: real) -> bool {
    forall|k: nat| k <= n ==> within(#[trigger] true_dot(a, b, k), 0 as real, most)
}

proof fn lemma_bounded_dot_error(
    g: Ops<Scalar>,
    fl: spec_fn(real) -> real,
    a: Seq<Scalar>,
    b: Seq<Scalar>,
    n: nat,
)
    requires
        rounded(g, fl),
        unit_entries(a),
        unit_entries(b),
        n <= a.len(),
        n <= b.len(),
        n <= 256,
        sums_within(a, b, n, 62 as real),
    ensures
        dot_prefix(g, a, b, n).finite(),
        within(
            value(dot_prefix(g, a, b, n)),
            true_dot(a, b, n),
            (65 as real) * (n as real) / (16777216 as real),
        ),
    decreases n,
{
    lemma_starts(g, fl);
    if n > 0 {
        let m = (n - 1) as nat;
        lemma_bounded_dot_error(g, fl, a, b, m);
        let x = a[m as int];
        let y = b[m as int];
        lemma_unit_product(value(x), value(y));
        lemma_product(g, fl, x, y);
        assert(n as real == m as real + 1 as real);
        assert(within(true_dot(a, b, n), 0 as real, 62 as real));
        lemma_sum(g, fl, dot_prefix(g, a, b, m), (g.times)(x, y));
    }
}

/// The computed inner product of up to 4096 entries between minus one and one is near the exact
/// one. It is less than a thousandth away for up to 179 entries, and for up to 256 where no exact
/// sum of the first products is larger than 62; for any 256 it is less than two thousandths and a
/// tenth away.
pub proof fn lemma_dot_near_exact(
    g: Ops<Scalar>,
    fl: spec_fn(real) -> real,
    a: Seq<Scalar>,
    b: Seq<Scalar>,
)
    requires
        rounded(g, fl),
        unit_entries(a),
        unit_entries(b),
        shorter(a, b) <= 4096,
    ensures
        dot(g, a, b).finite(),
        ({
            let n = shorter(a, b);
            let exact = true_dot(a, b, n);
            let computed = value(dot(g, a, b));
            &&& within(computed, exact, dot_error(n))
            &&& n <= 179 || (n <= 256 && sums_within(a, b, n, 62 as real)) ==> size(
                computed - exact,
            ) < 1 as real / (1000 as real)
            &&& n <= 256 ==> size(computed - exact) < (21 as real) / (10000 as real)
        }),
{
    let n = shorter(a, b);
    lemma_dot_prefix_error(g, fl, a, b, n);
    let k = n as real;
    if n <= 179 {
        assert(k * (k + 7 as real) <= 33294 as real) by (nonlinear_arith)
            requires
                0 as real <= k,
                k <= 179 as real,
        ;
    }
    if n <= 256 {
        assert(k * (k + 7 as real) <= 67328 as real) by (nonlinear_arith)
            requires
                0 as real <= k,
                k <= 256 as real,
        ;
        if sums_within(a, b, n, 62 as real) {
            lemma_bounded_dot_error(g, fl, a, b, n);
        }
    }
}

/// Where the sum of the first squares is finite, so is every sum of fewer of them, and the sums do
/// not fall.
proof fn lemma_squares_grow(
    g: Ops<Scalar>,
    fl: spec_fn(real) -> real,
    v: Seq<Scalar>,
    n: nat,
    m: nat,
)
    requires
        rounded(g, fl),
        n <= m,
        m <= v.len(),
        dot_prefix(g, v, v, m).finite(),
    ensures
        dot_prefix(g, v, v, n).finite(),
        0 as real <= value(dot_prefix(g, v, v, n)),
        value(dot_prefix(g, v, v, n)) <= value(dot_prefix(g, v, v, m)),
    decreases m,
{
    reveal(rounded);
    lemma_constants();
    if m > 0 {
        let k = (m - 1) as nat;
        let s = dot_prefix(g, v, v, k);
        let p = (g.times)(v[k as int], v[k as int]);
        let x = value(v[k as int]);
        assert((g.plus)(s, p).finite());
        lemma_squares_grow(g, fl, v, if n < m {
            n
        } else {
            k
        }, k);
        lemma_squares_grow(g, fl, v, k, k);
        assert(x * x >= 0 as real) by (nonlinear_arith);
        assert(fl(0 as real) <= fl(x * x));
        assert(fl(value(zero())) == 0 as real);
        assert(value(p) >= 0 as real);
        assert(fl(value(s)) <= fl(value(s) + value(p)));
    }
}

/// Where the sum of the first squares is finite, the next square of those is no larger than it.
proof fn lemma_square_below(g: Ops<Scalar>, fl: spec_fn(real) -> real, v: Seq<Scalar>, n: nat, m: nat)
    requires
        rounded(g, fl),
        n < m,
        m <= v.len(),
        dot_prefix(g, v, v, m).finite(),
    ensures
        v[n as int].finite(),
        (g.times)(v[n as int], v[n as int]).finite(),
        value((g.times)(v[n as int], v[n as int])) == fl(value(v[n as int]) * value(v[n as int])),
        0 as real <= value((g.times)(v[n as int], v[n as int])),
        value((g.times)(v[n as int], v[n as int])) <= value(dot_prefix(g, v, v, m)),
{
    reveal(rounded);
    lemma_constants();
    lemma_squares_grow(g, fl, v, n + 1, m);
    lemma_squares_grow(g, fl, v, n, m);
    let s = dot_prefix(g, v, v, n);
    let p = (g.times)(v[n as int], v[n as int]);
    let x = value(v[n as int]);
    assert(dot_prefix(g, v, v, n + 1) == (g.plus)(s, p));
    assert(x * x >= 0 as real) by (nonlinear_arith);
    assert(fl(0 as real) <= fl(x * x));
    assert(fl(value(zero())) == 0 as real);
    assert(fl(value(p)) <= fl(value(s) + value(p)));
}

/// Whether the length of a vector is between a thousandth and a thousand.
pub open spec fn ordinary_length(length: Scalar) -> bool {
    &&& length.finite()
    &&& 1 as real / (1000 as real) <= value(length)
    &&& value(length) <= 1000 as real
}

/// Whether the length of a vector is finite and under ten to the power of 18.
pub open spec fn bounded_length(length: Scalar) -> bool {
    length.finite() && value(length) < 1000000000000000000int as real
}

/// Whether two vectors have the same entries but for the sign.
pub open spec fn opposite(a: Seq<Scalar>, b: Seq<Scalar>) -> bool {
    &&& a.len() == b.len()
    &&& forall|i: int|
        0 <= i < a.len() ==> (#[trigger] b[i]).finite() && value(b[i]) == -value(a[i])
}

/// A square divided by the computed product of its root with itself is near one.
proof fn lemma_ratio_near_one(g: Ops<Scalar>, fl: spec_fn(real) -> real, inner: Scalar, square: Scalar)
    requires
        rounded(g, fl),
        ordinary_length((g.root)(square)),
        inner.finite(),
        value(inner) == value(square) || value(inner) == -value(square),
    ensures
        ({
            let r = ratio(g, inner, (g.root)(square), (g.root)(square));
            let target = if value(inner) == value(square) {
                1 as real
            } else {
                -(1 as real)
            };
            &&& r.finite()
            &&& within(value(r), target, (6 as real) / (10000000 as real))
        }),
        value(square) > 0 as real,
        value(square) <= 1000001 as real,
{
    reveal(rounded);
    let length = (g.root)(square);
    let x = value(length);
    let d = value(square);
    let i = value(inner);
    assert(1 as real / (1000000 as real) <= x * x && x * x <= 1000000 as real) by (nonlinear_arith)
        requires
            1 as real / (1000 as real) <= x,
            x <= 1000 as real,
    ;
    let t = x * x;
    assert(within(t, d, (3 as real) * d / (16777216 as real)));
    let product = (g.times)(length, length);
    assert(product.finite());
    let p = value(product);
    assert(within(p, t, slack(t)));
    let q = i / p;
    let near = 1 as real / (2000000 as real);
    assert(d >= (1 as real - near) * p && d <= (1 as real + near) * p);
    if i == d {
        assert(1 as real - near <= q && q <= 1 as real + near) by (nonlinear_arith)
            requires
                p > 0 as real,
                q == i / p,
                i >= (1 as real - near) * p,
                i <= (1 as real + near) * p,
        ;
    } else {
        assert(-(1 as real) - near <= q && q <= near - 1 as real) by (nonlinear_arith)
            requires
                p > 0 as real,
                q == i / p,
                -i >= (1 as real - near) * p,
                -i <= (1 as real + near) * p,
        ;
    }
    assert(size(q) <= limit());
    assert(within(value((g.over)(inner, product)), q, slack(q)));
}

/// The computed cosine of a vector with itself is within a millionth of one.
pub proof fn lemma_cosine_with_itself_near_one(
    g: Ops<Scalar>,
    fl: spec_fn(real) -> real,
    v: Seq<Scalar>,
)
    requires
        rounded(g, fl),
        ordinary_length(norm(g, v)),
    ensures
        cosine(g, v, v).finite(),
        value(cosine(g, v, v)) > 1 as real - 1 as real / (1000000 as real),
        value(cosine(g, v, v)) <= 1 as real,
{
    let square = dot(g, v, v);
    lemma_constants();
    lemma_root(g, fl, square);
    lemma_ratio_near_one(g, fl, square, square);
    lemma_value_order(zero(), norm(g, v));
    lemma_clamped_value(ratio(g, square, norm(g, v), norm(g, v)));
}

proof fn lemma_opposite_dots(
    g: Ops<Scalar>,
    fl: spec_fn(real) -> real,
    a: Seq<Scalar>,
    b: Seq<Scalar>,
    n: nat,
    m: nat,
)
    requires
        rounded(g, fl),
        opposite(a, b),
        n <= m,
        m <= a.len(),
        dot_prefix(g, a, a, m).finite(),
        value(dot_prefix(g, a, a, m)) <= 1000001 as real,
    ensures
        dot_prefix(g, b, b, n).finite(),
        value(dot_prefix(g, b, b, n)) == value(dot_prefix(g, a, a, n)),
        dot_prefix(g, a, b, n).finite(),
        value(dot_prefix(g, a, b, n)) == -value(dot_prefix(g, a, a, n)),
    decreases n,
{
    reveal(rounded);
    lemma_constants();
    if n > 0 {
        let k = (n - 1) as nat;
        lemma_opposite_dots(g, fl, a, b, k, m);
        lemma_square_below(g, fl, a, k, m);
        lemma_squares_grow(g, fl, a, k, m);
        lemma_squares_grow(g, fl, a, n, m);
        let x = value(a[k as int]);
        let y = value(b[k as int]);
        assert(y * y == x * x && x * y == -(x * x)) by (nonlinear_arith)
            requires
                y == -x,
        ;
        assert(x * x >= 0 as real) by (nonlinear_arith);
        assert(within(fl(x * x), x * x, slack(x * x)));
        assert(size(x * x) <= limit());
        assert(fl(-(x * x)) == -fl(x * x));
        let p = (g.times)(a[k as int], a[k as int]);
        assert((g.times)(b[k as int], b[k as int]).finite());
        assert((g.times)(a[k as int], b[k as int]).finite());
        let s = dot_prefix(g, a, a, k);
        let sum = value(s) + value(p);
        assert(dot_prefix(g, a, a, n) == (g.plus)(s, p));
        assert(fl(-sum) == -fl(sum));
        assert(dot_prefix(g, b, b, n).finite());
        assert(dot_prefix(g, a, b, n).finite());
    }
}

/// The computed cosine of a vector with its opposite is within a millionth of minus one.
pub proof fn lemma_cosine_with_opposite_near_minus_one(
    g: Ops<Scalar>,
    fl: spec_fn(real) -> real,
    a: Seq<Scalar>,
    b: Seq<Scalar>,
)
    requires
        rounded(g, fl),
        opposite(a, b),
        ordinary_length(norm(g, a)),
    ensures
        cosine(g, a, b).finite(),
        value(cosine(g, a, b)) < 1 as real / (1000000 as real) - 1 as real,
        value(cosine(g, a, b)) >= -(1 as real),
{
    let square = dot(g, a, a);
    lemma_constants();
    lemma_root(g, fl, square);
    lemma_ratio_near_one(g, fl, square, square);
    lemma_opposite_dots(g, fl, a, b, a.len(), a.len());
    lemma_value_order(dot(g, b, b), square);
    lemma_value_order(zero(), square);
    assert(dot(g, b, b) == square);
    lemma_ratio_near_one(g, fl, dot(g, a, b), square);
    lemma_value_order(zero(), norm(g, a));
    lemma_clamped_value(ratio(g, dot(g, a, b), norm(g, a), norm(g, b)));
}

/// By how much the computed inner product of `n` entries may exceed the mean of the computed
/// squares, as a factor.
spec fn excess(n: nat) -> real {
    1 as real + (8 as real) * (n as real + 1 as real) / (16777216 as real)
}

/// By how much it may exceed it besides, next to zero.
spec fn residue(n: nat) -> real {
    (20 as real) * (n as real) / (1000000000000000000000000000000000000000000000int as real)
}

/// A product is no larger than the mean of the squares.
proof fn lemma_product_below_squares(x: real, y: real)
    ensures
        (2 as real) * size(x * y) <= x * x + y * y,
{
    assert((2 as real) * (x * y) <= x * x + y * y) by (nonlinear_arith) {
        assert((x - y) * (x - y) >= 0 as real);
    }
    assert(-(2 as real) * (x * y) <= x * x + y * y) by (nonlinear_arith) {
        assert((x + y) * (x + y) >= 0 as real);
    }
}

proof fn lemma_excess_step(
    f: real,
    s: real,
    t: real,
    res: real,
    c: real,
    p: real,
    r: real,
    after: real,
)
    requires
        1 as real + (8 as real) / (16777216 as real) <= f,
        f <= 2 as real,
        0 as real <= s,
        0 as real <= t,
        0 as real <= after,
        res <= (50000000 as real) / (1000000000000000000000000000000000000000000000int as real),
        c <= f * s + res,
        p <= t + (4 as real) * t / (16777216 as real) + (6 as real) / (1000000000000000000000000000000000000000000000int as real),
        r <= (c + p) + (c + p) / (16777216 as real) + (2 as real) / (1000000000000000000000000000000000000000000000int as real),
        s + t <= after + (2 as real) * after / (16777216 as real) + (3 as real) / (1000000000000000000000000000000000000000000000int as real),
    ensures
        r <= (f + (8 as real) / (16777216 as real)) * after + res + (20 as real) / (1000000000000000000000000000000000000000000000int as real),
{
    let fs = f * s;
    let ft = f * t;
    let fw = f * (s + t);
    let fa = f * after;
    let tiny = (3 as real) / (1000000000000000000000000000000000000000000000int as real);
    let bound = after + (2 as real) * after / (16777216 as real) + tiny;
    assert(t + (4 as real) * t / (16777216 as real) <= ft) by (nonlinear_arith)
        requires
            1 as real + (8 as real) / (16777216 as real) <= f,
            0 as real <= t,
            ft == f * t,
    ;
    assert(fw == fs + ft) by (nonlinear_arith)
        requires
            fw == f * (s + t),
            fs == f * s,
            ft == f * t,
    ;
    assert(fw <= f * bound) by (nonlinear_arith)
        requires
            0 as real <= f,
            s + t <= bound,
            fw == f * (s + t),
    ;
    assert(f * bound == fa + (2 as real) * fa / (16777216 as real) + f * tiny) by (nonlinear_arith)
        requires
            fa == f * after,
            bound == after + (2 as real) * after / (16777216 as real) + tiny,
    ;
    assert(f * tiny <= (2 as real) * tiny) by (nonlinear_arith)
        requires
            f <= 2 as real,
            0 as real <= tiny,
    ;
    assert(fa <= (2 as real) * after) by (nonlinear_arith)
        requires
            fa == f * after,
            f <= 2 as real,
            0 as real <= after,
    ;
    let d = (8 as real) / (16777216 as real);
    assert((f + d) * after == fa + (8 as real) * after / (16777216 as real)) by (nonlinear_arith)
        requires
            fa == f * after,
            d == (8 as real) / (16777216 as real),
    ;
}

/// A square, and so a product, is little larger than its computed square.
proof fn lemma_product_below_computed(
    g: Ops<Scalar>,
    fl: spec_fn(real) -> real,
    x: real,
    y: real,
)
    requires
        rounded(g, fl),
        fl(x * x) <= 2000000000000000000000000000000000000int as real,
        fl(y * y) <= 2000000000000000000000000000000000000int as real,
    ensures
        size(x * y) <= limit(),
        (2 as real) * size(fl(x * y)) <= (fl(x * x) + fl(y * y)) + (4 as real) * (fl(x * x) + fl(
            y * y,
        )) / (16777216 as real) + (6 as real) / (1000000000000000000000000000000000000000000000int as real),
{
    assert(x * x >= 0 as real && y * y >= 0 as real) by (nonlinear_arith);
    lemma_rounding_near(g, fl, x * x);
    lemma_rounding_near(g, fl, y * y);
    lemma_rounding_near(g, fl, x * y);
    lemma_product_below_squares(x, y);
}

proof fn lemma_excess_bounds(n: nat, after: real)
    requires
        n <= 2000000,
        0 as real <= after,
        after <= 4000000000000000000000000000000000000int as real,
    ensures
        1 as real + (8 as real) / (16777216 as real) <= excess(n),
        excess(n) <= 2 as real,
        0 as real <= residue(n),
        residue(n) <= (50000000 as real) / (1000000000000000000000000000000000000000000000int as real),
        excess(n) * after + residue(n) <= 10000000000000000000000000000000000000int as real,
        n > 0 ==> excess(n) == excess((n - 1) as nat) + (8 as real) / (16777216 as real),
        n > 0 ==> residue(n) == residue((n - 1) as nat) + (20 as real) / (1000000000000000000000000000000000000000000000int as real),
{
    let f = excess(n);
    assert(f * after <= (2 as real) * after) by (nonlinear_arith)
        requires
            f <= 2 as real,
            0 as real <= after,
    ;
}

proof fn lemma_dot_below_squares(
    g: Ops<Scalar>,
    fl: spec_fn(real) -> real,
    a: Seq<Scalar>,
    b: Seq<Scalar>,
    n: nat,
    m: nat,
    l: nat,
)
    requires
        rounded(g, fl),
        n <= m,
        m <= a.len(),
        n <= l,
        l <= b.len(),
        n <= 2000000,
        dot_prefix(g, a, a, m).finite(),
        dot_prefix(g, b, b, l).finite(),
        value(dot_prefix(g, a, a, m)) <= 2000000000000000000000000000000000000int as real,
        value(dot_prefix(g, b, b, l)) <= 2000000000000000000000000000000000000int as real,
    ensures
        dot_prefix(g, a, b, n).finite(),
        (2 as real) * size(value(dot_prefix(g, a, b, n))) <= excess(n) * (value(
            dot_prefix(g, a, a, n),
        ) + value(dot_prefix(g, b, b, n))) + residue(n),
    decreases n,
{
    lemma_starts(g, fl);
    lemma_squares_grow(g, fl, a, n, m);
    lemma_squares_grow(g, fl, b, n, l);
    let after = value(dot_prefix(g, a, a, n)) + value(dot_prefix(g, b, b, n));
    if n == 0 {
        assert(excess(0) * (0 as real + 0 as real) == 0 as real) by (nonlinear_arith);
    } else {
        let k = (n - 1) as nat;
        lemma_dot_below_squares(g, fl, a, b, k, m, l);
        lemma_square_below(g, fl, a, k, m);
        lemma_square_below(g, fl, b, k, l);
        lemma_squares_grow(g, fl, a, k, m);
        lemma_squares_grow(g, fl, b, k, l);
        let x = value(a[k as int]);
        let y = value(b[k as int]);
        let sa = dot_prefix(g, a, a, k);
        let sb = dot_prefix(g, b, b, k);
        let pa = (g.times)(a[k as int], a[k as int]);
        let pb = (g.times)(b[k as int], b[k as int]);
        let p = (g.times)(a[k as int], b[k as int]);
        let c = dot_prefix(g, a, b, k);
        let s = value(sa) + value(sb);
        let t = value(pa) + value(pb);
        let sum = value(c) + value(p);
        lemma_product_below_computed(g, fl, x, y);
        lemma_excess_bounds(k, s);
        lemma_excess_bounds(n, after);
        lemma_product(g, fl, a[k as int], b[k as int]);
        assert(dot_prefix(g, a, b, n) == (g.plus)(c, p));
        assert(size(sum) <= limit());
        lemma_sum(g, fl, c, p);
        let r = value(dot_prefix(g, a, b, n));
        assert(dot_prefix(g, a, a, n) == (g.plus)(sa, pa));
        assert(dot_prefix(g, b, b, n) == (g.plus)(sb, pb));
        lemma_sum(g, fl, sa, pa);
        lemma_sum(g, fl, sb, pb);
        lemma_excess_step(
            excess(k),
            s,
            t,
            residue(k),
            (2 as real) * size(value(c)),
            (2 as real) * size(value(p)),
            (2 as real) * size(r),
            after,
        );
    }
}

/// A finite length under ten to the power of 18 comes from a sum of squares far from the limit.
proof fn lemma_square_of_length(g: Ops<Scalar>, fl: spec_fn(real) -> real, v: Seq<Scalar>)
    requires
        rounded(g, fl),
        bounded_length(norm(g, v)),
    ensures
        dot(g, v, v).finite(),
        value(dot(g, v, v)) <= 2000000000000000000000000000000000000int as real,
        value(norm(g, v)) > 0 as real ==> value(norm(g, v)) * value(norm(g, v)) >= (13 as real) / (
        10000000000000000000000000000000000000000000000int as real),
{
    let square = dot(g, v, v);
    let x = value(norm(g, v));
    lemma_root(g, fl, square);
    assert(x * x <= 1000000000000000000000000000000000000int as real) by (nonlinear_arith)
        requires
            0 as real <= x,
            x < 1000000000000000000int as real,
    ;
    if x > 0 as real {
        assert(x * x > 0 as real) by (nonlinear_arith)
            requires
                x > 0 as real,
        ;
        lemma_least_value(square);
    }
}

/// The product of two numbers is at least what the square of either is at least.
proof fn lemma_product_at_least(x: real, y: real, k: real)
    requires
        x > 0 as real,
        y > 0 as real,
        k > 0 as real,
        x * x >= k,
        y * y >= k,
    ensures
        x * y >= k,
{
    if x <= y {
        assert(x * y >= x * x) by (nonlinear_arith)
            requires
                x <= y,
                x > 0 as real,
        ;
    } else {
        assert(x * y >= y * y) by (nonlinear_arith)
            requires
                y <= x,
                y > 0 as real,
        ;
    }
}

/// The computed cosine of two vectors with up to two million entries in common, whose lengths are finite and
/// under ten to the power of 18, is a number between minus one and one.
pub proof fn lemma_cosine_is_number(
    g: Ops<Scalar>,
    fl: spec_fn(real) -> real,
    a: Seq<Scalar>,
    b: Seq<Scalar>,
)
    requires
        rounded(g, fl),
        shorter(a, b) <= 2000000,
        bounded_length(norm(g, a)),
        bounded_length(norm(g, b)),
    ensures
        cosine(g, a, b).finite(),
        within(value(cosine(g, a, b)), 0 as real, 1 as real),
{
    let n = shorter(a, b);
    let na = norm(g, a);
    let nb = norm(g, b);
    let inner = dot(g, a, b);
    lemma_square_of_length(g, fl, a);
    lemma_square_of_length(g, fl, b);
    lemma_dot_below_squares(g, fl, a, b, n, a.len(), b.len());
    lemma_constants();
    lemma_value_order(zero(), na);
    lemma_value_order(zero(), nb);
    if zero().less(na) && zero().less(nb) {
        let x = value(na);
        let y = value(nb);
        let least = (13 as real) / (10000000000000000000000000000000000000000000000int as real);
        lemma_product_at_least(x, y, least);
        assert(x * y <= 1000000000000000000000000000000000000int as real) by (nonlinear_arith)
            requires
                0 as real <= x,
                x < 1000000000000000000int as real,
                0 as real <= y,
                y < 1000000000000000000int as real,
        ;
        lemma_product(g, fl, na, nb);
        lemma_quotient(g, fl, inner, (g.times)(na, nb));
        lemma_clamped_number(ratio(g, inner, na, nb));
    }
}

/// A number that is not a NaN lies between minus one and one once it was moved there.
pub proof fn lemma_clamped_number(s: Scalar)
    requires
        !s.nan(),
    ensures
        s.clamped().finite(),
        within(value(s.clamped()), 0 as real, 1 as real),
{
    lemma_constants();
    let c = s.clamped();
    assert(c.finite());
    lemma_value_order(c, minus_one());
    lemma_value_order(one(), c);
}

/// What a difference of one factor makes to a product with a number between minus one and one.
proof fn lemma_scaled_difference(x: real, y: real, c: real, e: real)
    requires
        within(x, y, e),
        within(c, 0 as real, 1 as real),
    ensures
        within(x * c, y * c, e),
{
    assert(within(x * c, y * c, e)) by {
        let d = x - y;
        assert(x * c - y * c == d * c) by (nonlinear_arith)
            requires
                d == x - y,
        ;
        assert(-e <= d * c && d * c <= e) by (nonlinear_arith)
            requires
                -e <= d,
                d <= e,
                -(1 as real) <= c,
                c <= 1 as real,
        ;
    }
}

/// A computed score is within a millionth of the exact blend of the computed cosine and the
/// computed authority, and with weight zero it is the cosine.
pub proof fn lemma_blend_near_exact(
    g: Ops<Scalar>,
    fl: spec_fn(real) -> real,
    weight: Scalar,
    cosine: Scalar,
    authority: Scalar,
)
    requires
        rounded(g, fl),
        weight.finite(),
        0 as real <= value(weight),
        value(weight) <= 1 as real,
        cosine.finite(),
        within(value(cosine), 0 as real, 1 as real),
        authority.finite(),
        within(value(authority), 0 as real, 1 as real),
    ensures
        blend(g, weight, cosine, authority).finite(),
        within(
            value(blend(g, weight, cosine, authority)),
            (1 as real - value(weight)) * value(cosine) + value(weight) * value(authority),
            1 as real / (1000000 as real),
        ),
        value(weight) == 0 as real ==> value(blend(g, weight, cosine, authority)) == value(cosine),
{
    let w = value(weight);
    let c = value(cosine);
    let t = value(authority);
    let m = (g.minus)(g.one, weight);
    lemma_starts(g, fl);
    lemma_difference(g, fl, g.one, weight);
    lemma_scaled_difference(value(m), 1 as real - w, c, 1 as real / (10000000 as real));
    lemma_unit_product(1 as real - w, c);
    lemma_unit_product(w, t);
    lemma_product(g, fl, m, cosine);
    lemma_product(g, fl, weight, authority);
    lemma_sum(g, fl, (g.times)(m, cosine), (g.times)(weight, authority));
    if w == 0 as real {
        lemma_rounding_fixes(g, fl, g.one);
        lemma_rounding_fixes(g, fl, cosine);
        lemma_rounding_fixes(g, fl, g.zero);
        assert(value(m) == 1 as real);
        assert(value(m) * c == c) by (nonlinear_arith)
            requires
                value(m) == 1 as real,
        ;
        assert(w * t == 0 as real) by (nonlinear_arith)
            requires
                w == 0 as real,
        ;
        assert(value((g.times)(weight, authority)) == 0 as real);
    }
}

/// A computed score is within a millionth of the exact blend of the cosine that
/// `cosine_similarity` computes and the computed authority, and with weight zero it is that cosine.
pub proof fn lemma_score_near_blend(
    v: IndexView,
    g: Ops<Scalar>,
    fl: spec_fn(real) -> real,
    query: Seq<Scalar>,
    id: NodeId,
)
    requires
        rounded(g, fl),
        swaps_factors(g),
        v.config.centrality_weight.finite(),
        0 as real <= value(v.config.centrality_weight),
        value(v.config.centrality_weight) <= 1 as real,
        !cosine(g, v.nodes[id].vector, query).nan(),
        !v.nodes[id].centrality.nan(),
    ensures
        v.score(g, query, id).finite(),
        ({
            let w = value(v.config.centrality_weight);
            let c = value(cosine(g, v.nodes[id].vector, query));
            let t = value((g.tanh)(v.nodes[id].centrality));
            &&& within(
                value(v.score(g, query, id)),
                (1 as real - w) * c + w * t,
                1 as real / (1000000 as real),
            )
            &&& w == 0 as real ==> value(v.score(g, query, id)) == c
        }),
{
    let vector = v.nodes[id].vector;
    let c = cosine(g, vector, query);
    lemma_constants();
    assert(c.finite() && within(value(c), 0 as real, 1 as real)) by {
        if zero().less(norm(g, vector)) && zero().less(norm(g, query)) {
            let r = ratio(g, dot(g, vector, query), norm(g, vector), norm(g, query));
            assert(c == r.clamped());
            lemma_clamped_number(r);
        }
    }
    lemma_tanh(g, fl, v.nodes[id].centrality);
    lemma_score_blends_cosine(v, g, query, id);
    lemma_blend_near_exact(
        g,
        fl,
        v.config.centrality_weight,
        c,
        (g.tanh)(v.nodes[id].centrality),
    );
}

/// With weight zero, the score of a node whose vector is of the query's kind lies between minus one
/// and one.
proof fn lemma_cosine_score(
    v: IndexView,
    g: Ops<Scalar>,
    fl: spec_fn(real) -> real,
    query: Seq<Scalar>,
    id: NodeId,
)
    requires
        rounded(g, fl),
        swaps_factors(g),
        v.config.centrality_weight == zero(),
        query.len() <= 2000000,
        bounded_length(norm(g, query)),
        bounded_length(norm(g, v.nodes[id].vector)),
        !v.nodes[id].centrality.nan(),
    ensures
        v.score(g, query, id).finite(),
        value(v.score(g, query, id)) == value(cosine(g, v.nodes[id].vector, query)),
        within(value(v.score(g, query, id)), 0 as real, 1 as real),
{
    lemma_constants();
    lemma_cosine_is_number(g, fl, v.nodes[id].vector, query);
    lemma_score_near_blend(v, g, fl, query, id);
}

/// With weight zero, a stored vector of ordinary length scores within a millionth of one
/// when it is searched for, and so does the best answer.
pub proof fn lemma_own_score_near_one(
    v: IndexView,
    g: Ops<Scalar>,
    fl: spec_fn(real) -> real,
    id: NodeId,
    top_k: nat,
)
    requires
        rounded(g, fl),
        swaps_factors(g),
        v.wf(),
        v.fingerprints_true(g),
        v.live().contains(id),
        top_k > 0,
        v.bucket_ids(v.nodes[id].fingerprint.bucket()).len() <= v.config.beam_width,
        v.config.centrality_weight == zero(),
        v.nodes[id].vector.len() <= 2000000,
        ordinary_length(norm(g, v.nodes[id].vector)),
        forall|other: NodeId| #[trigger]
            v.live().contains(other) ==> !v.nodes[other].centrality.nan() && bounded_length(
                norm(g, v.nodes[other].vector),
            ),
    ensures
        ({
            let q = v.nodes[id].vector;
            let near = 1 as real - 1 as real / (1000000 as real);
            let r = v.found(g, q, top_k);
            &&& v.score(g, q, id).finite()
            &&& near < value(v.score(g, q, id)) <= 1 as real
            &&& r.len() > 0
            &&& r[0].1.finite()
            &&& near < value(r[0].1) <= 1 as real
        }),
{
    let q = v.nodes[id].vector;
    let r = v.found(g, q, top_k);
    lemma_cosine_with_itself_near_one(g, fl, q);
    lemma_cosine_score(v, g, fl, q, id);
    lemma_stored_found(v, g, id, top_k);
    lemma_found_scores(v, g, q, top_k);
    assert(r[0].1 == v.score(g, q, r[0].0));
    lemma_cosine_score(v, g, fl, q, r[0].0);
    lemma_value_order(v.score(g, q, id), r[0].1);
}

/// The computed average number of links lies between zero and the number that a node may have,
/// where there are no more nodes and links than single precision can count.
pub proof fn lemma_computed_average_links(v: IndexView, g: Ops<Scalar>, fl: spec_fn(real) -> real)
    requires
        rounded(g, fl),
        v.wf(),
        v.counted().len() <= 16777216,
        edge_total(v.counted()) <= 16777216,
    ensures
        v.summary(g).avg_edges_per_node.finite(),
        0 as real <= value(v.summary(g).avg_edges_per_node),
        value(v.summary(g).avg_edges_per_node) <= v.config.k_neighbors as nat as real,
{
    lemma_constants();
    lemma_figures(v);
    let links = edge_total(v.counted());
    let nodes = v.counted().len();
    let most = v.config.k_neighbors as nat;
    if nodes > 0 {
        let (t, n, k) = (links as real, nodes as real, most as real);
        lemma_product_as_real(most, nodes);
        lemma_counted(g, fl, links);
        lemma_counted(g, fl, nodes);
        let q = t / n;
        assert(0 as real <= q && q <= k && q <= t) by (nonlinear_arith)
            requires
                n >= 1 as real,
                t >= 0 as real,
                t <= k * n,
                q == t / n,
        ;
        lemma_quotient(g, fl, (g.count)(links), (g.count)(nodes));
        lemma_rounding_near(g, fl, q);
        if most <= 16777216 {
            lemma_counted(g, fl, most);
            lemma_rounding_order(g, fl, q, k);
            lemma_rounding_fixes(g, fl, (g.count)(most));
        } else {
            lemma_rounding_order(g, fl, q, t);
            lemma_rounding_fixes(g, fl, (g.count)(links));
        }
    }
}

} // verus!
