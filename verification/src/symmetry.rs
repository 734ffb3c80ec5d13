//! When inner products and cosines do not depend on the order of the vectors.
use crate::arith::Ops;
use crate::scalar::Scalar;
use crate::vector::cosine;
use crate::vector::dot;
use crate::vector::dot_prefix;
use crate::vector::shorter;
use vstd::prelude::*;

verus! {

/// Whether the product of two numbers does not depend on which of them comes first, unless neither
/// is a number.
pub open spec fn swaps_factors(g: Ops<Scalar>) -> bool {
    forall|x: Scalar, y: Scalar|
        !(x.nan() && y.nan()) ==> #[trigger] (g.times)(x, y) == (g.times)(y, x)
}

proof fn lemma_dot_prefix_symmetric<T>(g: Ops<T>, a: Seq<T>, b: Seq<T>, n: nat)
    requires
        forall|i: int| 0 <= i < n ==> (g.times)(#[trigger] a[i], b[i]) == (g.times)(b[i], a[i]),
    ensures
        dot_prefix(g, a, b, n) == dot_prefix(g, b, a, n),
    decreases n,
{
    if n > 0 {
        lemma_dot_prefix_symmetric(g, a, b, (n - 1) as nat);
        assert((g.times)(a[n - 1], b[n - 1]) == (g.times)(b[n - 1], a[n - 1]));
    }
}

/// The inner product does not depend on the order of the vectors where the products of their
/// entries do not depend on the order of their factors, rounded or not.
pub proof fn lemma_dot_symmetric<T>(g: Ops<T>, a: Seq<T>, b: Seq<T>)
    requires
        forall|i: int|
            0 <= i < shorter(a, b) ==> (g.times)(#[trigger] a[i], b[i]) == (g.times)(b[i], a[i]),
    ensures
        dot(g, a, b) == dot(g, b, a),
{
    lemma_dot_prefix_symmetric(g, a, b, shorter(a, b));
}

/// The cosine does not depend on the order of the vectors where products do not depend on the
/// order of their factors and the vectors nowhere both have something that is not a number.
pub proof fn lemma_cosine_symmetric(g: Ops<Scalar>, a: Seq<Scalar>, b: Seq<Scalar>)
    requires
        swaps_factors(g),
        forall|i: int| 0 <= i < shorter(a, b) ==> !((#[trigger] a[i]).nan() && b[i].nan()),
    ensures
        cosine(g, a, b) == cosine(g, b, a),
{
    lemma_dot_symmetric(g, a, b);
}

} // verus!
