//! A linear congruential generator of pseudo-random numbers.
use crate::arith::faithful;
use crate::arith::ops_of;
use crate::arith::Arithmetic;
use crate::arith::Ops;
use crate::scalar::Scalar;
use vstd::prelude::*;

verus! {

/// The multiplier of the generator.
pub const MULTIPLIER: u64 = 6364136223846793005;

/// The increment of the generator.
pub const INCREMENT: u64 = 1442695040888963407;

/// The state after `state`, modulo two to the power of 64.
#[verifier::opaque]
pub open spec fn successor(state: u64) -> u64 {
    ((state * MULTIPLIER + INCREMENT) % 0x1_0000_0000_0000_0000) as u64
}

/// The state after another is that times 6364136223846793005 plus 1442695040888963407, modulo two to
/// the power of 64.
pub proof fn lemma_successor(state: u64)
    ensures
        successor(state) == (state * 6364136223846793005 + 1442695040888963407)
            % 0x1_0000_0000_0000_0000,
{
    reveal(successor);
}

/// The state after `state`.
pub fn next_state(state: u64) -> (next: u64)
    ensures
        next == successor(state),
{
    proof {
        reveal(successor);
        let product = state as nat * MULTIPLIER as nat;
        vstd::arithmetic::div_mod::lemma_fundamental_div_mod(
            product as int,
            0x1_0000_0000_0000_0000,
        );
    }
    state.wrapping_mul(MULTIPLIER).wrapping_add(INCREMENT)
}

/// The state `n` steps after the seed.
pub open spec fn nth_state(seed: u64, n: nat) -> u64
    decreases n,
{
    if n == 0 {
        seed
    } else {
        successor(nth_state(seed, (n - 1) as nat))
    }
}

/// The number between zero and one that the 53 highest bits of a state give.
pub open spec fn unit_draw(g: Ops<Scalar>, state: u64) -> Scalar {
    (g.over)((g.count)((state / 2048) as nat), (g.count)(0x20_0000_0000_0000))
}

/// The number between zero and one that the 53 highest bits of a state give.
pub(crate) fn draw_unit<A: Arithmetic>(state: u64, ar: &A) -> (u: Scalar)
    ensures
        faithful(ar) ==> u == unit_draw(ops_of(ar), state),
{
    assert(state >> 11 == state / 2048) by (bit_vector);
    let high = ar.count(state >> 11);
    let whole = ar.count(0x20_0000_0000_0000);
    ar.over(high, whole)
}

} // verus!
