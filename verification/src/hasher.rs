//! Similarity hashing: the signs of a vector's projections on pseudo-random directions.
use crate::arith::faithful;
use crate::arith::ops_of;
use crate::arith::Arithmetic;
use crate::arith::Ops;
use crate::fingerprint::SimFingerprint;
use crate::lcg::draw_unit;
use crate::lcg::next_state;
use crate::lcg::nth_state;
use crate::lcg::unit_draw;
use crate::scalar::Scalar;
use crate::vector::dot;
use crate::vector::dot_product;
use crate::vector::l2_norm;
use crate::vector::norm;
use crate::vector::scaled_by;
use vstd::arithmetic::power2::pow2;
use vstd::prelude::*;

verus! {

/// `2.0`
#[verifier::allow_in_spec]
pub fn two() -> Scalar
    returns
        (Scalar { bits: 0x4000_0000 }),
{
    Scalar { bits: 0x4000_0000 }
}

/// `-2.0`
#[verifier::allow_in_spec]
pub fn minus_two() -> Scalar
    returns
        (Scalar { bits: 0xC000_0000 }),
{
    Scalar { bits: 0xC000_0000 }
}

/// The number nearest to the ratio of a circle's circumference to its diameter.
#[verifier::allow_in_spec]
pub fn pi() -> Scalar
    returns
        (Scalar { bits: 0x4049_0FDB }),
{
    Scalar { bits: 0x4049_0FDB }
}

/// The number nearest to `1e-10`: what keeps a logarithm and a quotient finite.
#[verifier::allow_in_spec]
pub fn tiny() -> Scalar
    returns
        (Scalar { bits: 0x2EDB_E6FF }),
{
    Scalar { bits: 0x2EDB_E6FF }
}

/// A family of hyperplanes through the origin, each given by its normal direction.
pub struct SimHasher {
    pub planes: Vec<Vec<Scalar>>,
    pub dims: usize,
}

/// What a hasher holds.
#[verifier::ext_equal]
pub ghost struct HasherView {
    pub planes: Seq<Seq<Scalar>>,
    pub dims: usize,
}

impl View for SimHasher {
    type V = HasherView;

    open spec fn view(&self) -> HasherView {
        HasherView {
            planes: self.planes@.map_values(|plane: Vec<Scalar>| plane@),
            dims: self.dims,
        }
    }
}

/// The radius of a normally distributed pair, from a uniform number (Box and Muller).
pub open spec fn radius(g: Ops<Scalar>, u: Scalar) -> Scalar {
    (g.root)((g.times)(minus_two(), (g.log)((g.plus)(u, tiny()))))
}

/// The angle of a normally distributed pair, from a uniform number.
pub open spec fn angle(g: Ops<Scalar>, u: Scalar) -> Scalar {
    (g.times)((g.times)(two(), pi()), u)
}

/// Entry `i` of a direction before it is scaled to length one. Entries come in pairs, each pair
/// from two steps of the generator.
pub open spec fn raw_entry(g: Ops<Scalar>, seed: u64, i: nat) -> Scalar {
    let r = radius(g, unit_draw(g, nth_state(seed, 2 * (i / 2) + 1)));
    let theta = angle(g, unit_draw(g, nth_state(seed, 2 * (i / 2) + 2)));
    if i % 2 == 0 {
        (g.times)(r, (g.cosine)(theta))
    } else {
        (g.times)(r, (g.sine)(theta))
    }
}

/// A direction before it is scaled to length one.
pub open spec fn raw_plane(g: Ops<Scalar>, dims: nat, seed: u64) -> Seq<Scalar> {
    Seq::new(dims, |i: int| raw_entry(g, seed, i as nat))
}

/// The vector divided by its length, or by a tiny number where that is larger.
pub open spec fn normalized(g: Ops<Scalar>, v: Seq<Scalar>) -> Seq<Scalar> {
    scaled_by(g, v, norm(g, v).larger(tiny()))
}

/// The seed of plane `i`.
#[verifier::allow_in_spec]
pub fn plane_seed(seed: u64, i: u64) -> u64
    returns
        seed.wrapping_add(i.wrapping_mul(crate::lcg::MULTIPLIER)),
{
    seed.wrapping_add(i.wrapping_mul(crate::lcg::MULTIPLIER))
}

/// The planes of a hasher.
pub open spec fn planes_of(g: Ops<Scalar>, dims: nat, n: nat, seed: u64) -> Seq<Seq<Scalar>> {
    Seq::new(n, |i: int| normalized(g, raw_plane(g, dims, plane_seed(seed, i as u64))))
}

/// Whether the bit at `i` is set.
pub open spec fn bit(x: u128, i: nat) -> bool {
    x / (pow2(i) as u128) % 2 == 1
}

/// On which side of a plane a vector lies: whether its projection is not negative.
pub open spec fn positive_side(g: Ops<Scalar>, plane: Seq<Scalar>, v: Seq<Scalar>) -> bool {
    let p = dot(g, plane, v);
    !p.nan() && p.key() >= 0
}

/// The integer with the bit at `i` set where `signs[i]` holds, and no others.
pub open spec fn packed(signs: Seq<bool>) -> int
    decreases signs.len(),
{
    if signs.len() == 0 {
        0
    } else {
        packed(signs.drop_last()) + if signs.last() {
            pow2((signs.len() - 1) as nat) as int
        } else {
            0
        }
    }
}

/// The fingerprint of a vector: one bit for each plane, set where the projection on it is not
/// negative.
pub open spec fn fingerprint_of(
    g: Ops<Scalar>,
    planes: Seq<Seq<Scalar>>,
    v: Seq<Scalar>,
) -> SimFingerprint {
    SimFingerprint(
        packed(Seq::new(planes.len(), |i: int| positive_side(g, planes[i], v))) as u128,
    )
}

proof fn lemma_packed_range(signs: Seq<bool>)
    ensures
        0 <= packed(signs) < pow2(signs.len()),
    decreases signs.len(),
{
    if signs.len() == 0 {
        vstd::arithmetic::power2::lemma2_to64();
    } else {
        lemma_packed_range(signs.drop_last());
        vstd::arithmetic::power2::lemma_pow2_unfold(signs.len());
    }
}

proof fn lemma_pow2_128(i: nat)
    requires
        i <= 128,
    ensures
        0 < pow2(i) <= 0x1_0000_0000_0000_0000_0000_0000_0000_0000,
        i < 128 ==> 2 * pow2(i) <= 0x1_0000_0000_0000_0000_0000_0000_0000_0000,
        i < 127 ==> 2 * pow2(i) <= 0x8000_0000_0000_0000_0000_0000_0000_0000,
{
    vstd::arithmetic::power2::lemma2_to64();
    vstd::arithmetic::power2::lemma_pow2_adds(64, 64);
    vstd::arithmetic::power2::lemma_pow2_unfold(128);
    vstd::arithmetic::power2::lemma_pow2_pos(i);
    vstd::arithmetic::power2::lemma_pow2_unfold((i + 1) as nat);
    if i < 128 {
        vstd::arithmetic::power2::lemma_pow2_strictly_increases(i, 128);
        if i + 1 < 128 {
            vstd::arithmetic::power2::lemma_pow2_strictly_increases((i + 1) as nat, 128);
        }
        if i + 1 < 127 {
            vstd::arithmetic::power2::lemma_pow2_strictly_increases((i + 1) as nat, 127);
        }
    }
}

proof fn lemma_packed_bit(signs: Seq<bool>, i: nat)
    requires
        i < signs.len(),
    ensures
        packed(signs) / (pow2(i) as int) % 2 == if signs[i as int] {
            1int
        } else {
            0
        },
    decreases signs.len(),
{
    let n = (signs.len() - 1) as nat;
    let front = packed(signs.drop_last());
    let top: int = if signs.last() {
        1
    } else {
        0
    };
    lemma_packed_range(signs.drop_last());
    vstd::arithmetic::power2::lemma_pow2_pos(i);
    let w = pow2(i) as int;
    if i == n {
        assert((front + top * w) / w == top) by (nonlinear_arith)
            requires
                0 <= front < w,
        ;
    } else {
        lemma_packed_bit(signs.drop_last(), i);
        let gap = pow2((n - i - 1) as nat) as int;
        vstd::arithmetic::power2::lemma_pow2_adds(i, (n - i) as nat);
        vstd::arithmetic::power2::lemma_pow2_unfold((n - i) as nat);
        assert(pow2(n) == w * (2 * gap));
        let q = front / w;
        let r = front % w;
        vstd::arithmetic::div_mod::lemma_fundamental_div_mod(front, w);
        assert((front + top * (w * (2 * gap))) / w == q + 2 * (top * gap)) by (nonlinear_arith)
            requires
                w > 0,
                front == w * q + r,
                0 <= r < w,
        {
            assert(front + top * (w * (2 * gap)) == w * (q + 2 * (top * gap)) + r);
            vstd::arithmetic::div_mod::lemma_fundamental_div_mod_converse(
                front + top * (w * (2 * gap)),
                w,
                q + 2 * (top * gap),
                r,
            );
        }
    }
}

/// The bit at `i` of a fingerprint says on which side of plane `i` the vector lies, and bits past
/// the last plane are not set.
pub proof fn lemma_fingerprint_bits(
    g: Ops<Scalar>,
    planes: Seq<Seq<Scalar>>,
    v: Seq<Scalar>,
    i: nat,
)
    requires
        planes.len() <= 128,
    ensures
        i < planes.len() ==> (bit(fingerprint_of(g, planes, v).0, i) <==> positive_side(
            g,
            planes[i as int],
            v,
        )),
        fingerprint_of(g, planes, v).0 < pow2(planes.len()),
{
    let signs = Seq::new(planes.len(), |i: int| positive_side(g, planes[i], v));
    lemma_packed_range(signs);
    lemma_pow2_128(planes.len());
    if i < planes.len() {
        lemma_packed_bit(signs, i);
        lemma_pow2_128(i);
    }
}

/// Shifting by `i` divides by two to the power of `i`.
pub(crate) proof fn lemma_shift_is_quotient(x: u128, i: u128)
    requires
        i < 128,
    ensures
        x >> i == x / (pow2(i as nat) as u128),
        (x >> i) & 1 == (x >> i) % 2,
    decreases i,
{
    assert((x >> i) & 1 == (x >> i) % 2) by (bit_vector);
    lemma_pow2_128(i as nat);
    if i == 0 {
        vstd::arithmetic::power2::lemma2_to64();
        assert(x >> i == x) by (bit_vector)
            requires
                i == 0,
        ;
        assert(pow2(0) as u128 == 1);
    } else {
        let j = (i - 1) as u128;
        lemma_shift_is_quotient(x, j);
        lemma_pow2_128(j as nat);
        assert(x >> i == (x >> j) / 2) by (bit_vector)
            requires
                i == j + 1,
                i < 128,
        ;
        vstd::arithmetic::power2::lemma_pow2_unfold(i as nat);
        let w = pow2(j as nat) as int;
        vstd::arithmetic::div_mod::lemma_div_denominator(x as int, w, 2);
        assert(pow2(i as nat) == w * 2);
    }
}

/// A number below a power of two has no bit at its exponent or above.
pub(crate) proof fn lemma_no_high_bits(x: u128, width: nat, i: u128)
    requires
        x < pow2(width),
        width <= i < 128,
    ensures
        (x >> i) & 1 == 0,
{
    lemma_shift_is_quotient(x, i);
    lemma_pow2_128(i as nat);
    if width < i {
        vstd::arithmetic::power2::lemma_pow2_strictly_increases(width, i as nat);
    }
    let w = pow2(i as nat) as int;
    vstd::arithmetic::div_mod::lemma_basic_div(x as int, w);
}

proof fn lemma_packed_low(signs: Seq<bool>, n: nat)
    requires
        n <= signs.len(),
    ensures
        packed(signs) % (pow2(n) as int) == packed(signs.take(n as int)),
    decreases signs.len(),
{
    let w = pow2(n) as int;
    vstd::arithmetic::power2::lemma_pow2_pos(n);
    lemma_packed_range(signs.take(n as int));
    if n == signs.len() {
        assert(signs.take(n as int) =~= signs);
        vstd::arithmetic::div_mod::lemma_small_mod(packed(signs) as nat, w as nat);
    } else {
        let front = signs.drop_last();
        let m = (signs.len() - 1) as nat;
        lemma_packed_low(front, n);
        assert(front.take(n as int) =~= signs.take(n as int));
        let top: int = if signs.last() {
            1
        } else {
            0
        };
        let gap = pow2((m - n) as nat) as int;
        vstd::arithmetic::power2::lemma_pow2_adds(n, (m - n) as nat);
        assert(packed(signs) == w * (gap * top) + packed(front)) by (nonlinear_arith)
            requires
                packed(signs) == packed(front) + top * pow2(m),
                pow2(m) == w * gap,
        ;
        vstd::arithmetic::div_mod::lemma_mod_multiples_vanish(gap * top, packed(front), w);
    }
}

/// More planes of one seed only add bits: with fewer planes a fingerprint is the low bits of the
/// one with more.
pub proof fn lemma_more_planes_add_bits(
    g: Ops<Scalar>,
    dims: nat,
    fewer: nat,
    more: nat,
    seed: u64,
    v: Seq<Scalar>,
)
    requires
        fewer <= more <= 128,
    ensures
        planes_of(g, dims, fewer, seed) == planes_of(g, dims, more, seed).take(fewer as int),
        fingerprint_of(g, planes_of(g, dims, fewer, seed), v).0 == fingerprint_of(
            g,
            planes_of(g, dims, more, seed),
            v,
        ).0 as nat % pow2(fewer),
{
    let a = planes_of(g, dims, fewer, seed);
    let b = planes_of(g, dims, more, seed);
    assert(a =~= b.take(fewer as int));
    let signs_a = Seq::new(a.len(), |i: int| positive_side(g, a[i], v));
    let signs_b = Seq::new(b.len(), |i: int| positive_side(g, b[i], v));
    assert(signs_a =~= signs_b.take(fewer as int));
    lemma_packed_low(signs_b, fewer);
    lemma_packed_range(signs_a);
    lemma_packed_range(signs_b);
    lemma_pow2_128(fewer);
    lemma_pow2_128(more);
}

impl SimHasher {
    /// A hasher for vectors of `dims` entries, with `n_projections` planes. Where the arithmetic
    /// is faithful, hashers of equal arguments have equal planes.
    pub fn new<A: Arithmetic>(dims: usize, n_projections: usize, seed: u64, ar: &A) -> (h: SimHasher)
        ensures
            h@.dims == dims,
            h@.planes.len() == n_projections,
            forall|i: int| 0 <= i < n_projections ==> #[trigger] h@.planes[i].len() == dims,
            faithful(ar) ==> h@.planes == planes_of(
                ops_of(ar),
                dims as nat,
                n_projections as nat,
                seed,
            ),
    {
        let mut planes: Vec<Vec<Scalar>> = Vec::new();
        let mut i: usize = 0;
        while i < n_projections
            invariant
                i <= n_projections,
                planes@.len() == i,
                forall|j: int| 0 <= j < i ==> (#[trigger] planes@[j])@.len() == dims,
                faithful(ar) ==> forall|j: int|
                    0 <= j < i ==> (#[trigger] planes@[j])@ == normalized(
                        ops_of(ar),
                        raw_plane(ops_of(ar), dims as nat, plane_seed(seed, j as u64)),
                    ),
            decreases n_projections - i,
        {
            let plane = Self::random_plane(dims, plane_seed(seed, i as u64), ar);
            planes.push(plane);
            i = i + 1;
        }
        let h = SimHasher { planes, dims };
        proof {
            if faithful(ar) {
                assert(h@.planes =~= planes_of(ops_of(ar), dims as nat, n_projections as nat, seed));
            }
        }
        h
    }

    /// A pseudo-random direction: normally distributed entries, scaled to length one.
    fn random_plane<A: Arithmetic>(dims: usize, seed: u64, ar: &A) -> (plane: Vec<Scalar>)
        ensures
            plane@.len() == dims,
            faithful(ar) ==> plane@ == normalized(
                ops_of(ar),
                raw_plane(ops_of(ar), dims as nat, seed),
            ),
    {
        let ghost g = ops_of(ar);
        let mut state: u64 = seed;
        let mut raw: Vec<Scalar> = Vec::new();
        let mut i: usize = 0;
        while i < dims
            invariant
                i <= dims,
                i == dims || i % 2 == 0,
                raw@.len() == i,
                i < dims ==> state == nth_state(seed, i as nat),
                g == ops_of(ar),
                faithful(ar) ==> forall|j: int|
                    0 <= j < i ==> #[trigger] raw@[j] == raw_entry(g, seed, j as nat),
            decreases dims - i,
        {
            let first = next_state(state);
            let second = next_state(first);
            let ghost k = i as nat;
            proof {
                assert(nth_state(seed, k + 1) == first);
                assert(nth_state(seed, k + 2) == second);
            }
            let r = draw_radius(first, ar);
            let theta = draw_angle(second, ar);
            let across = ar.cosine(theta);
            let entry = ar.times(r, across);
            assert(2 * (k / 2) == k);
            assert(faithful(ar) ==> entry == raw_entry(g, seed, k));
            raw.push(entry);
            i = i + 1;
            if i < dims {
                let along = ar.sine(theta);
                let entry = ar.times(r, along);
                assert((k + 1) / 2 == k / 2);
                assert(faithful(ar) ==> entry == raw_entry(g, seed, k + 1));
                raw.push(entry);
                i = i + 1;
            }
            state = second;
        }
        proof {
            if faithful(ar) {
                assert(raw@ =~= raw_plane(g, dims as nat, seed));
            }
        }
        normalize(&raw, ar)
    }

    /// The fingerprint of a vector.
    pub fn fingerprint<A: Arithmetic>(&self, vec: &[Scalar], ar: &A) -> (fp: SimFingerprint)
        requires
            self@.planes.len() <= 128,
        ensures
            fp.0 < pow2(self@.planes.len()),
            faithful(ar) ==> fp == fingerprint_of(ops_of(ar), self@.planes, vec@),
    {
        let mut bits: u128 = 0;
        let mut weight: u128 = 1;
        let mut i: usize = 0;
        let ghost mut signs: Seq<bool> = Seq::empty();
        proof {
            vstd::arithmetic::power2::lemma2_to64();
        }
        while i < self.planes.len()
            invariant
                i <= self.planes@.len() <= 128,
                signs.len() == i,
                bits == packed(signs),
                i < self.planes@.len() ==> weight == pow2(i as nat),
                faithful(ar) ==> forall|j: int|
                    0 <= j < i ==> #[trigger] signs[j] == positive_side(
                        ops_of(ar),
                        self.planes@[j]@,
                        vec@,
                    ),
            decreases self.planes.len() - i,
        {
            let projection = dot_product(self.planes[i].as_slice(), vec, ar);
            let side = projection.at_least_zero();
            let ghost before = signs;
            proof {
                lemma_packed_range(before);
                lemma_pow2_128(i as nat);
                vstd::arithmetic::power2::lemma_pow2_unfold((i + 1) as nat);
                signs = before.push(side);
                assert(signs.drop_last() =~= before);
            }
            if side {
                bits = bits + weight;
            }
            i = i + 1;
            if i < self.planes.len() {
                weight = weight * 2;
            }
        }
        proof {
            lemma_packed_range(signs);
            if faithful(ar) {
                assert(signs =~= Seq::new(
                    self@.planes.len(),
                    |j: int| positive_side(ops_of(ar), self@.planes[j], vec@),
                ));
            }
        }
        SimFingerprint(bits)
    }
}

/// The radius of a normally distributed pair, from a state of the generator.
fn draw_radius<A: Arithmetic>(state: u64, ar: &A) -> (r: Scalar)
    ensures
        faithful(ar) ==> r == radius(ops_of(ar), unit_draw(ops_of(ar), state)),
{
    let u = draw_unit(state, ar);
    let shifted = ar.plus(u, tiny());
    let logarithm = ar.log(shifted);
    let square = ar.times(minus_two(), logarithm);
    ar.root(square)
}

/// The angle of a normally distributed pair, from a state of the generator.
fn draw_angle<A: Arithmetic>(state: u64, ar: &A) -> (theta: Scalar)
    ensures
        faithful(ar) ==> theta == angle(ops_of(ar), unit_draw(ops_of(ar), state)),
{
    let u = draw_unit(state, ar);
    let full_turn = ar.times(two(), pi());
    ar.times(full_turn, u)
}

/// The vector divided by its length, or by a tiny number where that is larger.
pub fn normalize<A: Arithmetic>(v: &[Scalar], ar: &A) -> (out: Vec<Scalar>)
    ensures
        out@.len() == v@.len(),
        faithful(ar) ==> out@ == normalized(ops_of(ar), v@),
{
    let length = l2_norm(v, ar).max(tiny());
    let mut out: Vec<Scalar> = Vec::new();
    let mut i: usize = 0;
    while i < v.len()
        invariant
            i <= v@.len(),
            out@.len() == i,
            faithful(ar) ==> length == norm(ops_of(ar), v@).larger(tiny()),
            faithful(ar) ==> forall|j: int|
                0 <= j < i ==> #[trigger] out@[j] == (ops_of(ar).over)(v@[j], length),
        decreases v.len() - i,
    {
        let entry = ar.over(v[i], length);
        out.push(entry);
        i = i + 1;
    }
    proof {
        if faithful(ar) {
            assert(out@ =~= normalized(ops_of(ar), v@));
        }
    }
    out
}

} // verus!
