//! The rounding operations that the index asks of its host.
use crate::scalar::one;
use crate::scalar::zero;
use crate::scalar::Scalar;
use vstd::prelude::*;

verus! {

/// The operations of an arithmetic, as mathematical functions on a carrier `T`.
///
/// The index computes with `T = Scalar`; the same formulas on the real numbers say what they
/// would give without rounding.
#[verifier::reject_recursive_types(T)]
pub ghost struct Ops<T> {
    pub zero: T,
    pub one: T,
    pub plus: spec_fn(T, T) -> T,
    pub minus: spec_fn(T, T) -> T,
    pub times: spec_fn(T, T) -> T,
    pub over: spec_fn(T, T) -> T,
    pub root: spec_fn(T) -> T,
    pub log: spec_fn(T) -> T,
    pub sine: spec_fn(T) -> T,
    pub cosine: spec_fn(T) -> T,
    pub tanh: spec_fn(T) -> T,
    pub count: spec_fn(nat) -> T,
}

/// Single-precision operations.
///
/// No contract is asked of an implementation: it may round as it likes, and it need not even give
/// the same answer twice. What is promised of one that does is stated by means of [`faithful`] and
/// [`ops_of`].
pub trait Arithmetic: Sync {
    /// `x + y`
    fn plus(&self, x: Scalar, y: Scalar) -> Scalar;

    /// `x - y`
    fn minus(&self, x: Scalar, y: Scalar) -> Scalar;

    /// `x * y`
    fn times(&self, x: Scalar, y: Scalar) -> Scalar;

    /// `x / y`
    fn over(&self, x: Scalar, y: Scalar) -> Scalar;

    /// The square root of `x`.
    fn root(&self, x: Scalar) -> Scalar;

    /// The natural logarithm of `x`.
    fn log(&self, x: Scalar) -> Scalar;

    /// The sine of `x`.
    fn sine(&self, x: Scalar) -> Scalar;

    /// The cosine of `x`.
    fn cosine(&self, x: Scalar) -> Scalar;

    /// The hyperbolic tangent of `x`.
    fn tanh(&self, x: Scalar) -> Scalar;

    /// The number nearest to the integer `n`.
    fn count(&self, n: u64) -> Scalar;
}

/// One of the numbers that an arithmetic may give for an integer.
pub open spec fn count_of<A: Arithmetic>(ar: &A, n: u64) -> Scalar {
    choose|r: Scalar| call_ensures(A::count, (ar, n), r)
}

/// The functions that the operations of an arithmetic compute: for each argument, one of the
/// results that the operation may give.
pub open spec fn ops_of<A: Arithmetic>(ar: &A) -> Ops<Scalar> {
    Ops {
        zero: zero(),
        one: one(),
        plus: |x: Scalar, y: Scalar| choose|r: Scalar| call_ensures(A::plus, (ar, x, y), r),
        minus: |x: Scalar, y: Scalar| choose|r: Scalar| call_ensures(A::minus, (ar, x, y), r),
        times: |x: Scalar, y: Scalar| choose|r: Scalar| call_ensures(A::times, (ar, x, y), r),
        over: |x: Scalar, y: Scalar| choose|r: Scalar| call_ensures(A::over, (ar, x, y), r),
        root: |x: Scalar| choose|r: Scalar| call_ensures(A::root, (ar, x), r),
        log: |x: Scalar| choose|r: Scalar| call_ensures(A::log, (ar, x), r),
        sine: |x: Scalar| choose|r: Scalar| call_ensures(A::sine, (ar, x), r),
        cosine: |x: Scalar| choose|r: Scalar| call_ensures(A::cosine, (ar, x), r),
        tanh: |x: Scalar| choose|r: Scalar| call_ensures(A::tanh, (ar, x), r),
        count: |n: nat| count_of(ar, n as u64),
    }
}

/// Whether every operation of the arithmetic is a function: the result that `ops_of` names is the
/// only one that it may give.
///
/// The contracts of this crate state what depends on rounding under this condition, and the rest
/// without it.
pub open spec fn faithful<A: Arithmetic>(ar: &A) -> bool {
    let g = ops_of(ar);
    &&& forall|x: Scalar, y: Scalar, r: Scalar| #[trigger]
        call_ensures(A::plus, (ar, x, y), r) ==> r == (g.plus)(x, y)
    &&& forall|x: Scalar, y: Scalar, r: Scalar| #[trigger]
        call_ensures(A::minus, (ar, x, y), r) ==> r == (g.minus)(x, y)
    &&& forall|x: Scalar, y: Scalar, r: Scalar| #[trigger]
        call_ensures(A::times, (ar, x, y), r) ==> r == (g.times)(x, y)
    &&& forall|x: Scalar, y: Scalar, r: Scalar| #[trigger]
        call_ensures(A::over, (ar, x, y), r) ==> r == (g.over)(x, y)
    &&& forall|x: Scalar, r: Scalar| #[trigger]
        call_ensures(A::root, (ar, x), r) ==> r == (g.root)(x)
    &&& forall|x: Scalar, r: Scalar| #[trigger]
        call_ensures(A::log, (ar, x), r) ==> r == (g.log)(x)
    &&& forall|x: Scalar, r: Scalar| #[trigger]
        call_ensures(A::sine, (ar, x), r) ==> r == (g.sine)(x)
    &&& forall|x: Scalar, r: Scalar| #[trigger]
        call_ensures(A::cosine, (ar, x), r) ==> r == (g.cosine)(x)
    &&& forall|x: Scalar, r: Scalar| #[trigger]
        call_ensures(A::tanh, (ar, x), r) ==> r == (g.tanh)(x)
    &&& forall|n: u64, r: Scalar| #[trigger]
        call_ensures(A::count, (ar, n), r) ==> r == (g.count)(n as nat)
}

/// Each operation of a faithful arithmetic gives what the function of the same name gives, and the
/// two constants are zero and one.
pub proof fn lemma_faithful<A: Arithmetic>(ar: &A, x: Scalar, y: Scalar, n: u64, r: Scalar)
    requires
        faithful(ar),
    ensures
        ops_of(ar).zero.bits == 0,
        ops_of(ar).one.bits == 0x3F80_0000,
        call_ensures(A::plus, (ar, x, y), r) ==> r == (ops_of(ar).plus)(x, y),
        call_ensures(A::minus, (ar, x, y), r) ==> r == (ops_of(ar).minus)(x, y),
        call_ensures(A::times, (ar, x, y), r) ==> r == (ops_of(ar).times)(x, y),
        call_ensures(A::over, (ar, x, y), r) ==> r == (ops_of(ar).over)(x, y),
        call_ensures(A::root, (ar, x), r) ==> r == (ops_of(ar).root)(x),
        call_ensures(A::log, (ar, x), r) ==> r == (ops_of(ar).log)(x),
        call_ensures(A::sine, (ar, x), r) ==> r == (ops_of(ar).sine)(x),
        call_ensures(A::cosine, (ar, x), r) ==> r == (ops_of(ar).cosine)(x),
        call_ensures(A::tanh, (ar, x), r) ==> r == (ops_of(ar).tanh)(x),
        call_ensures(A::count, (ar, n), r) ==> r == (ops_of(ar).count)(n as nat),
{
}

/// An arithmetic is faithful as soon as none of its operations may give two results for the same
/// arguments.
pub proof fn lemma_functions_are_faithful<A: Arithmetic>(ar: &A)
    requires
        forall|x: Scalar, y: Scalar, r: Scalar, s: Scalar| #[trigger]
            call_ensures(A::plus, (ar, x, y), r) && #[trigger] call_ensures(A::plus, (ar, x, y), s)
                ==> r == s,
        forall|x: Scalar, y: Scalar, r: Scalar, s: Scalar| #[trigger]
            call_ensures(A::minus, (ar, x, y), r) && #[trigger] call_ensures(A::minus, (ar, x, y), s)
                ==> r == s,
        forall|x: Scalar, y: Scalar, r: Scalar, s: Scalar| #[trigger]
            call_ensures(A::times, (ar, x, y), r) && #[trigger] call_ensures(A::times, (ar, x, y), s)
                ==> r == s,
        forall|x: Scalar, y: Scalar, r: Scalar, s: Scalar| #[trigger]
            call_ensures(A::over, (ar, x, y), r) && #[trigger] call_ensures(A::over, (ar, x, y), s)
                ==> r == s,
        forall|x: Scalar, r: Scalar, s: Scalar| #[trigger]
            call_ensures(A::root, (ar, x), r) && #[trigger] call_ensures(A::root, (ar, x), s) ==> r
                == s,
        forall|x: Scalar, r: Scalar, s: Scalar| #[trigger]
            call_ensures(A::log, (ar, x), r) && #[trigger] call_ensures(A::log, (ar, x), s) ==> r
                == s,
        forall|x: Scalar, r: Scalar, s: Scalar| #[trigger]
            call_ensures(A::sine, (ar, x), r) && #[trigger] call_ensures(A::sine, (ar, x), s) ==> r
                == s,
        forall|x: Scalar, r: Scalar, s: Scalar| #[trigger]
            call_ensures(A::cosine, (ar, x), r) && #[trigger] call_ensures(A::cosine, (ar, x), s) ==> r
                == s,
        forall|x: Scalar, r: Scalar, s: Scalar| #[trigger]
            call_ensures(A::tanh, (ar, x), r) && #[trigger] call_ensures(A::tanh, (ar, x), s) ==> r
                == s,
        forall|n: u64, r: Scalar, s: Scalar| #[trigger]
            call_ensures(A::count, (ar, n), r) && #[trigger] call_ensures(A::count, (ar, n), s)
                ==> r == s,
    ensures
        faithful(ar),
{
}

/// Whether the operations are the four operations on the real numbers, without rounding.
pub open spec fn exact_ops(g: Ops<real>) -> bool {
    &&& g.zero == 0 as real
    &&& g.one == 1 as real
    &&& forall|x: real, y: real| #[trigger] (g.plus)(x, y) == x + y
    &&& forall|x: real, y: real| #[trigger] (g.minus)(x, y) == x - y
    &&& forall|x: real, y: real| #[trigger] (g.times)(x, y) == x * y
    &&& forall|x: real, y: real| #[trigger] (g.over)(x, y) == x / y
    &&& forall|n: nat| #[trigger] (g.count)(n) == n as real
}

} // verus!
