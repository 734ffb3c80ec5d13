//! Where the planes of a hasher come from, and what a fingerprint says of a vector.
use crate::arith::Ops;
use crate::hasher::fingerprint_of;
use crate::hasher::plane_seed;
use crate::hasher::planes_of;
use crate::index::IndexView;
use crate::lcg::nth_state;
use crate::lcg::successor;
use crate::scalar::Scalar;
use crate::vector::dot;
use crate::vector::norm;
use vstd::prelude::*;

verus! {

/// Whether the numbers are states of the generator, each the one after the one before it.
pub open spec fn generated(states: Seq<nat>) -> bool {
    forall|j: int|
        0 <= j < states.len() - 1 ==> states[j + 1] == (#[trigger] states[j] * 6364136223846793005
            + 1442695040888963407) % 0x1_0000_0000_0000_0000
}

/// The number between zero and one that a state stands for: its 53 highest bits.
pub open spec fn uniform(g: Ops<Scalar>, state: nat) -> Scalar {
    (g.over)((g.count)(state / 2048), (g.count)(9007199254740992))
}

/// The root of minus two times the logarithm of a uniform number, which a ten-billionth keeps from
/// zero.
pub open spec fn normal_radius(g: Ops<Scalar>, state: nat) -> Scalar {
    (g.root)(
        (g.times)(
            Scalar { bits: 0xC000_0000 },
            (g.log)((g.plus)(uniform(g, state), Scalar { bits: 0x2EDB_E6FF })),
        ),
    )
}

/// A uniform number of full turns.
pub open spec fn normal_angle(g: Ops<Scalar>, state: nat) -> Scalar {
    (g.times)(
        (g.times)(Scalar { bits: 0x4000_0000 }, Scalar { bits: 0x4049_0FDB }),
        uniform(g, state),
    )
}

/// Whether the entries are made of the draws of the generator, two entries of two draws: entries
/// `2m` and `2m + 1` are the two coordinates of the point with the radius of draw `2m + 1` and the
/// angle of draw `2m + 2`, counted from the seed, for every `m`.
pub open spec fn drawn_in_pairs(g: Ops<Scalar>, states: Seq<nat>, raw: Seq<Scalar>) -> bool {
    forall|j: int|
        0 <= j < raw.len() ==> #[trigger] raw[j] == if j % 2 == 0 {
            (g.times)(
                normal_radius(g, states[j + 1]),
                (g.cosine)(normal_angle(g, states[j + 2])),
            )
        } else {
            (g.times)(
                normal_radius(g, states[j]),
                (g.sine)(normal_angle(g, states[j + 1])),
            )
        }
}

pub(crate) proof fn lemma_states(seed: u64, states: Seq<nat>, j: nat)
    requires
        generated(states),
        states.len() > j,
        states[0] == seed,
    ensures
        states[j as int] == nth_state(seed, j),
    decreases j,
{
    if j > 0 {
        reveal(successor);
        lemma_states(seed, states, (j - 1) as nat);
        let s = states[j - 1];
        assert(states[(j - 1) + 1] == (s * 6364136223846793005 + 1442695040888963407)
            % 0x1_0000_0000_0000_0000);
    }
}

proof fn lemma_plane_seed(seed: u64, i: u64)
    ensures
        plane_seed(seed, i) == (seed + i * 6364136223846793005) % 0x1_0000_0000_0000_0000,
{
    let m = 0x1_0000_0000_0000_0000int;
    let product = i * 6364136223846793005;
    vstd::arithmetic::div_mod::lemma_fundamental_div_mod(product, m);
    vstd::arithmetic::div_mod::lemma_add_mod_noop_right(seed as int, product, m);
    assert(i.wrapping_mul(6364136223846793005u64) == product % m);
}

/// Plane `i` of a hasher has the seed plus `i` times the multiplier of the generator for its own
/// seed. Its entries are drawn in pairs from the states that follow, none of them twice, and then
/// divided by their length, or by a ten-billionth where that is larger.
pub proof fn lemma_plane_from_draws(
    g: Ops<Scalar>,
    dims: nat,
    n: nat,
    seed: u64,
    i: u64,
    states: Seq<nat>,
    raw: Seq<Scalar>,
)
    requires
        i < n,
        states.len() > dims + 1,
        states[0] == (seed + i * 6364136223846793005) % 0x1_0000_0000_0000_0000,
        generated(states),
        raw.len() == dims,
        drawn_in_pairs(g, states, raw),
    ensures
        ({
            let plane = planes_of(g, dims, n, seed)[i as int];
            let l = norm(g, raw);
            let length = if l.nan() || l.key() < 0x2EDB_E6FF {
                Scalar { bits: 0x2EDB_E6FF }
            } else {
                l
            };
            &&& planes_of(g, dims, n, seed).len() == n
            &&& plane.len() == dims
            &&& forall|j: int| 0 <= j < dims ==> #[trigger] plane[j] == (g.over)(raw[j], length)
        }),
{
    let own = plane_seed(seed, i);
    lemma_plane_seed(seed, i);
    let made = crate::hasher::raw_plane(g, dims, own);
    assert forall|j: int| 0 <= j < dims implies #[trigger] made[j] == raw[j] by {
        let k = j as nat;
        lemma_states(own, states, k);
        lemma_states(own, states, k + 1);
        if j % 2 == 0 {
            lemma_states(own, states, k + 2);
            assert(2 * (k / 2) == k);
        } else {
            assert(2 * (k / 2) + 1 == k);
        }
        assert(raw[j] == raw[j]);
    }
    assert(made =~= raw);
}

/// The first vector of an index makes its planes: as many as the settings say, as long as the
/// vector, of the seed that every index has. The fingerprint of a vector is taken by the planes of
/// its index.
pub proof fn lemma_first_vector_makes_planes(
    v: IndexView,
    g: Ops<Scalar>,
    vector: Seq<Scalar>,
    label: Option<Seq<char>>,
)
    requires
        vector.len() <= usize::MAX,
    ensures
        ({
            let w = v.inserted(g, vector, label);
            &&& v.dims is None ==> w.planes == planes_of(
                g,
                vector.len(),
                v.config.n_projections as nat,
                0xDEAD_BEEF_CAFE_BABE,
            ) && w.plane_dims == vector.len()
            &&& w.nodes[v.next_id].fingerprint == fingerprint_of(g, w.planes, vector)
        }),
{
}

/// Bit `i` of a fingerprint is set exactly if the inner product of plane `i` with the vector is
/// zero or more, whatever the sign of the zero; a NaN sets no bit. Bits past the last plane are not
/// set.
pub proof fn lemma_bits_are_sides(
    g: Ops<Scalar>,
    planes: Seq<Seq<Scalar>>,
    v: Seq<Scalar>,
    i: u128,
)
    requires
        planes.len() <= 128,
        i < 128,
    ensures
        ({
            let p = dot(g, planes[i as int], v).bits;
            (fingerprint_of(g, planes, v).0 >> i) & 1 == 1 <==> i < planes.len() && (p
                <= 0x7F80_0000 || p == 0x8000_0000)
        }),
{
    let fp = fingerprint_of(g, planes, v).0;
    crate::hasher::lemma_fingerprint_bits(g, planes, v, i as nat);
    crate::hasher::lemma_shift_is_quotient(fp, i);
    if i < planes.len() {
        assert(crate::hasher::bit(fp, i as nat) <==> (fp >> i) & 1 == 1);
    } else {
        crate::hasher::lemma_no_high_bits(fp, planes.len(), i);
    }
}

} // verus!
