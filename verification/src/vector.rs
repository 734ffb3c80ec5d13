//! Inner products, norms and cosines of vectors.
use crate::arith::faithful;
use crate::arith::ops_of;
use crate::arith::Arithmetic;
use crate::arith::Ops;
use crate::scalar::zero;
use crate::scalar::Scalar;
use vstd::prelude::*;

verus! {

/// The sum of the products of the first `n` entries, added from the left.
pub open spec fn dot_prefix<T>(g: Ops<T>, a: Seq<T>, b: Seq<T>, n: nat) -> T
    decreases n,
{
    if n == 0 {
        g.zero
    } else {
        (g.plus)(dot_prefix(g, a, b, (n - 1) as nat), (g.times)(a[n - 1], b[n - 1]))
    }
}

/// The length of the shorter of two sequences.
pub open spec fn shorter<T>(a: Seq<T>, b: Seq<T>) -> nat {
    if a.len() <= b.len() {
        a.len()
    } else {
        b.len()
    }
}

/// The inner product of two vectors; of a longer vector, the entries past the shorter's end do
/// not count.
pub open spec fn dot<T>(g: Ops<T>, a: Seq<T>, b: Seq<T>) -> T {
    dot_prefix(g, a, b, shorter(a, b))
}

/// The Euclidean length of a vector.
pub open spec fn norm<T>(g: Ops<T>, v: Seq<T>) -> T {
    (g.root)(dot(g, v, v))
}

/// The inner product of two vectors divided by their lengths.
pub open spec fn ratio<T>(g: Ops<T>, inner: T, na: T, nb: T) -> T {
    (g.over)(inner, (g.times)(na, nb))
}

/// The vector with its entries divided by `length`.
pub open spec fn scaled_by<T>(g: Ops<T>, v: Seq<T>, length: T) -> Seq<T> {
    Seq::new(v.len(), |i: int| (g.over)(v[i], length))
}

/// The cosine of two vectors from their inner product and their lengths, and zero where one of
/// the lengths is not positive.
pub open spec fn cosine_of(g: Ops<Scalar>, inner: Scalar, na: Scalar, nb: Scalar) -> Scalar {
    if zero().less(na) && zero().less(nb) {
        ratio(g, inner, na, nb).clamped()
    } else {
        zero()
    }
}

/// The cosine of two vectors.
pub open spec fn cosine(g: Ops<Scalar>, a: Seq<Scalar>, b: Seq<Scalar>) -> Scalar {
    cosine_of(g, dot(g, a, b), norm(g, a), norm(g, b))
}

/// The inner product of two vectors.
pub fn dot_product<A: Arithmetic>(a: &[Scalar], b: &[Scalar], ar: &A) -> (r: Scalar)
    ensures
        faithful(ar) ==> r == dot(ops_of(ar), a@, b@),
{
    let n: usize = if a.len() <= b.len() {
        a.len()
    } else {
        b.len()
    };
    let mut acc = zero();
    let mut i: usize = 0;
    while i < n
        invariant
            i <= n,
            n <= a@.len(),
            n <= b@.len(),
            faithful(ar) ==> acc == dot_prefix(ops_of(ar), a@, b@, i as nat),
        decreases n - i,
    {
        let product = ar.times(a[i], b[i]);
        acc = ar.plus(acc, product);
        i = i + 1;
    }
    acc
}

/// The Euclidean length of a vector.
pub fn l2_norm<A: Arithmetic>(v: &[Scalar], ar: &A) -> (r: Scalar)
    ensures
        faithful(ar) ==> r == norm(ops_of(ar), v@),
{
    let square = dot_product(v, v, ar);
    ar.root(square)
}

/// The cosine of two vectors, given their inner product and their lengths.
///
/// The result lies between minus one and one unless the quotient of the three is a NaN.
pub fn cosine_from_norms<A: Arithmetic>(inner: Scalar, na: Scalar, nb: Scalar, ar: &A) -> (r:
    Scalar)
    ensures
        faithful(ar) ==> r == cosine_of(ops_of(ar), inner, na, nb),
        !r.nan() ==> crate::scalar::minus_one().key() <= r.key() <= crate::scalar::one().key(),
        !(zero().less(na) && zero().less(nb)) ==> r == zero(),
{
    if zero().lt(na) && zero().lt(nb) {
        let product = ar.times(na, nb);
        let ratio = ar.over(inner, product);
        ratio.clamp_unit()
    } else {
        zero()
    }
}

/// The cosine of two vectors, and zero where one of them has no length.
pub fn cosine_similarity<A: Arithmetic>(a: &[Scalar], b: &[Scalar], ar: &A) -> (r: Scalar)
    ensures
        faithful(ar) ==> r == cosine(ops_of(ar), a@, b@),
        !r.nan() ==> crate::scalar::minus_one().key() <= r.key() <= crate::scalar::one().key(),
{
    let inner = dot_product(a, b, ar);
    let na = l2_norm(a, ar);
    let nb = l2_norm(b, ar);
    cosine_from_norms(inner, na, nb, ar)
}

} // verus!
