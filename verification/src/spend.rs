//! The spending protocol: the client proves that it holds a token with
//! enough credits, revealing only the token's identifier and the charge;
//! the issuer checks the proof and signs a fresh token for the remainder.
use vstd::prelude::*;
use vstd::arithmetic::div_mod::*;
use vstd::arithmetic::power2::*;
use vstd::bits::lemma_u64_shr_is_div;
use crate::{Error, L};
use crate::issuance::{gen_mul, CreditToken, ParamsModel, PrivateKey, PublicKey, TokenModel};
use crate::params::Params;
use crate::point::{generator_encoding, identity_encoding, ristretto_add, ristretto_mul, ristretto_sub, Point};
use crate::scalar::{add_mod, le_nat, mul_mod, neg_mod, scalar_encoding, scalar_inverse, sub_mod, group_order, Scalar};
use crate::transcript::{challenge_of, Label, Transcript};
use crate::algebra::{
    dlog,
    exp_point,
    group_laws,
    is_point,
    lemma_dlog,
    lemma_exp_add,
    lemma_exp_constants,
    lemma_exp_mul,
    lemma_exp_point_is_point,
    lemma_exponent_of,
    lemma_mul_bit,
    lemma_sub_as_add_neg,
};
use crate::completeness::{
    honest_refund,
    honest_spend,
    law_honest_spend_is_accepted,
    law_refunded_token_is_signed,
    token_signed,
    token_valid,
};

verus! {

/// Bit `j` of `m`.
pub open spec fn bit_of(m: nat, j: nat) -> nat {
    (m / pow2(j)) % 2
}

/// `sum_{i < n} s[i] * 2^i mod ℓ`, accumulated from index zero.
pub open spec fn weighted_scalar_sum(s: Seq<nat>, n: nat) -> nat
    decreases n,
{
    if n == 0 {
        0
    } else {
        add_mod(weighted_scalar_sum(s, (n - 1) as nat), mul_mod(s[n - 1], pow2((n - 1) as nat)))
    }
}

/// `sum_{i < n} com[i] * 2^i`, accumulated from the identity.
pub open spec fn weighted_point_sum(com: Seq<Seq<u8>>, n: nat) -> Seq<u8>
    decreases n,
{
    if n == 0 {
        identity_encoding()
    } else {
        ristretto_add(
            weighted_point_sum(com, (n - 1) as nat),
            ristretto_mul(com[n - 1], pow2((n - 1) as nat)),
        )
    }
}

/// The bit of a range-proof commitment is zero (`side == 0`) or one
/// (`side == 1`): the commitment itself, or the commitment minus `h1`.
pub open spec fn bit_branch(p: ParamsModel, com: Seq<u8>, side: nat) -> Seq<u8> {
    if side == 0 {
        com
    } else {
        ristretto_sub(com, p.0)
    }
}

/// The commitment of a branch of the proof that bit `j` is zero or one,
/// from its response `(w, z)` and challenge `g`:
/// `h2 * w + h3 * z - branch * g` for the lowest bit, `h3 * z - branch * g`
/// for the others.
pub open spec fn branch_commitment(p: ParamsModel, j: int, w: nat, z: nat, branch: Seq<u8>, g: nat)
    -> Seq<u8> {
    let base = if j == 0 {
        ristretto_add(ristretto_mul(p.1, w), ristretto_mul(p.2, z))
    } else {
        ristretto_mul(p.2, z)
    };
    ristretto_sub(base, ristretto_mul(branch, g))
}

/// The messages of a spend proof, in the order they are hashed.
pub open spec fn spend_items(
    k: nat,
    a_prime: Seq<u8>,
    b_bar: Seq<u8>,
    a1: Seq<u8>,
    a2: Seq<u8>,
    com: Seq<Seq<u8>>,
    branches: Seq<(Seq<u8>, Seq<u8>)>,
    c_: Seq<u8>,
) -> Seq<Seq<u8>> {
    seq![scalar_encoding(k), a_prime, b_bar, a1, a2] + com + flat_pairs(branches) + seq![c_]
}

/// The pairs, one after the other: `b[0].0, b[0].1, b[1].0, ...`.
pub open spec fn flat_pairs(b: Seq<(Seq<u8>, Seq<u8>)>) -> Seq<Seq<u8>> {
    Seq::new(2 * b.len(), |i: int| if i % 2 == 0 { b[i / 2].0 } else { b[i / 2].1 })
}

/// The encodings of a sequence of points.
pub open spec fn points_view(s: Seq<Point>) -> Seq<Seq<u8>> {
    s.map_values(|p: Point| p@)
}

/// The values of a sequence of scalars.
pub open spec fn scalars_view(s: Seq<Scalar>) -> Seq<nat> {
    s.map_values(|x: Scalar| x@)
}

/// The encodings of a sequence of pairs of points.
pub open spec fn point_pairs_view(s: Seq<(Point, Point)>) -> Seq<(Seq<u8>, Seq<u8>)> {
    s.map_values(|p: (Point, Point)| (p.0@, p.1@))
}

/// The values of a sequence of pairs of scalars.
pub open spec fn scalar_pairs_view(s: Seq<(Scalar, Scalar)>) -> Seq<(nat, nat)> {
    s.map_values(|p: (Scalar, Scalar)| (p.0@, p.1@))
}

/// The commitment to bit `j`: `h1 * bit + h2 * k* + h3 * s` for the lowest
/// bit, `h1 * bit + h3 * s` for the others.
pub open spec fn com_at(p: ParamsModel, bit: nat, k_star: nat, s: nat, j: int) -> Seq<u8> {
    if j == 0 {
        ristretto_add(
            ristretto_add(ristretto_mul(p.0, bit), ristretto_mul(p.1, k_star)),
            ristretto_mul(p.2, s),
        )
    } else {
        ristretto_add(ristretto_mul(p.0, bit), ristretto_mul(p.2, s))
    }
}

/// The commitment of the branch that the prover knows an opening of.
pub open spec fn real_at(p: ParamsModel, k0_prime: nat, s_prime: nat, j: int) -> Seq<u8> {
    if j == 0 {
        ristretto_add(ristretto_mul(p.1, k0_prime), ristretto_mul(p.2, s_prime))
    } else {
        ristretto_mul(p.2, s_prime)
    }
}

/// The two branch commitments the prover sends for bit `j`: the real one
/// on the side of the bit's value, a simulated one on the other side.
pub open spec fn prover_branches_at(
    p: ParamsModel,
    bit: nat,
    com: Seq<u8>,
    known: Seq<u8>,
    w0: nat,
    z: nat,
    g: nat,
    j: int,
) -> (Seq<u8>, Seq<u8>) {
    if bit == 0 {
        (known, branch_commitment(p, j, w0, z, bit_branch(p, com, 1), g))
    } else {
        (branch_commitment(p, j, w0, z, bit_branch(p, com, 0), g), known)
    }
}

/// The challenge of the zero branch of bit `j`.
pub open spec fn gamma0_at(gamma: nat, bit: nat, g: nat) -> nat {
    if bit == 0 {
        sub_mod(gamma, g)
    } else {
        g
    }
}

/// The responses of the two branches of bit `j`.
pub open spec fn z_at(gamma: nat, bit: nat, g: nat, s: nat, s_prime: nat, z: nat) -> (nat, nat) {
    let g0: nat = gamma0_at(gamma, bit, g);
    if bit == 0 {
        (add_mod(mul_mod(g0, s), s_prime), z)
    } else {
        (z, add_mod(mul_mod(sub_mod(gamma, g0), s), s_prime))
    }
}

/// The commitments of the two branches of bit `j` that the issuer
/// recomputes from a spend proof.
pub open spec fn verifier_branches_at(p: ParamsModel, proof: SpendProofModel, j: int) -> (
    Seq<u8>,
    Seq<u8>,
) {
    (
        branch_commitment(
            p,
            j,
            proof.w00,
            proof.z[j].0,
            bit_branch(p, proof.com[j], 0),
            proof.gamma0[j],
        ),
        branch_commitment(
            p,
            j,
            proof.w01,
            proof.z[j].1,
            bit_branch(p, proof.com[j], 1),
            sub_mod(proof.gamma, proof.gamma0[j]),
        ),
    )
}

/// The values of a `SpendProof`.
pub struct SpendProofModel {
    pub k: nat,
    pub s: nat,
    pub a_prime: Seq<u8>,
    pub b_bar: Seq<u8>,
    pub com: Seq<Seq<u8>>,
    pub gamma: nat,
    pub e_bar: nat,
    pub r2_bar: nat,
    pub r3_bar: nat,
    pub c_bar: nat,
    pub r_bar: nat,
    pub w00: nat,
    pub w01: nat,
    pub gamma0: Seq<nat>,
    pub z: Seq<(nat, nat)>,
    pub k_bar: nat,
    pub s_bar: nat,
}

/// The values of a `PreRefund`.
pub struct PreRefundModel {
    pub r: nat,
    pub k: nat,
    pub m: nat,
}

/// The values of a `Refund`.
pub struct RefundModel {
    pub a: Seq<u8>,
    pub e: nat,
    pub gamma: nat,
    pub z: nat,
}

/// The values of the nonces of a spend proof.
pub struct SpendNoncesModel {
    pub r1: nat,
    pub r2: nat,
    pub c_prime: nat,
    pub r_prime: nat,
    pub e_prime: nat,
    pub r2_prime: nat,
    pub r3_prime: nat,
    pub k_star: nat,
    pub s_i: Seq<nat>,
    pub k0_prime: nat,
    pub s_i_prime: Seq<nat>,
    pub gamma_i: Seq<nat>,
    pub w0: nat,
    pub z: Seq<nat>,
    pub k_prime: nat,
    pub s_prime: nat,
}

/// `2^L` is `2^128`, far below the group order.
pub proof fn lemma_pow2_l()
    ensures
        pow2(L as nat) == 0x1_0000_0000_0000_0000_0000_0000_0000_0000nat,
        pow2(L as nat) < group_order(),
{
    lemma2_to64();
    lemma_pow2_adds(64, 64);
}

/// The bits of `m` below `L`, as scalars zero and one.
pub open spec fn bits_model(m: nat) -> Seq<nat> {
    Seq::new(L as nat, |j: int| bit_of(m, j as nat))
}

/// Bit `j` of the little-endian number `b` is bit `j % 8` of byte `j / 8`.
pub proof fn lemma_bit_of_bytes(b: Seq<u8>, j: nat)
    requires
        j / 8 < b.len(),
    ensures
        ((b[(j / 8) as int] >> ((j % 8) as u8)) & 1u8) as nat == bit_of(le_nat(b), j),
    decreases j,
{
    let t = b.drop_first();
    let rest: nat = le_nat(t);
    let b0: u8 = b[0];
    let v: nat = le_nat(b);
    assert(v == b0 as nat + 256 * rest);
    lemma2_to64();
    if j < 8 {
        lemma_pow2_adds(j, (8 - j) as nat);
        lemma_pow2_unfold((8 - j) as nat);
        let d: nat = pow2(j);
        let q: nat = pow2((8 - j) as nat);
        let h: nat = pow2((7 - j) as nat);
        assert(d * q == 256);
        assert(q == 2 * h);
        assert(256 * rest == (q * rest) * d) by (nonlinear_arith)
            requires
                d * q == 256,
        ;
        lemma_hoist_over_denominator(b0 as int, (q * rest) as int, d);
        assert(q * rest == 2 * (h * rest)) by (nonlinear_arith)
            requires
                q == 2 * h,
        ;
        lemma_mod_multiples_vanish((h * rest) as int, (b0 as nat / d) as int, 2);
        let wu: u64 = b0 as u64;
        lemma_u64_shr_is_div(wu, j as u64);
        let x: u64 = wu >> (j as u64);
        assert(x % 2 == x & 1) by (bit_vector);
        let ju: u64 = j as u64;
        let b0u: u8 = b0;
        assert(((wu >> ju) & 1) == ((b0u >> (ju as u8)) & 1u8) as u64) by (bit_vector)
            requires
                ju < 8,
                wu == b0u as u64,
        ;
    } else {
        let j2: nat = (j - 8) as nat;
        lemma_bit_of_bytes(t, j2);
        assert(j / 8 == j2 / 8 + 1);
        assert(j % 8 == j2 % 8);
        assert(b[(j / 8) as int] == t[(j2 / 8) as int]);
        lemma_pow2_adds(8, j2);
        assert(pow2(8) == 256);
        lemma_pow2_pos(j2);
        lemma_div_denominator(v as int, 256, pow2(j2) as int);
        lemma_hoist_over_denominator(b0 as int, rest as int, 256);
        assert((b0 as nat) / 256 == 0);
        assert(v / 256 == rest);
    }
}

/// The binary decomposition of a scalar: `L` scalars, each zero or one,
/// the bits of the scalar from the lowest.
fn bits_of(s: &Scalar) -> (r: [Scalar; L])
    ensures
        forall|j: int| 0 <= j < L ==> #[trigger] r@[j]@ == bit_of(s@, j as nat),
{
    proof {
        use_type_invariant(s);
    }
    let bytes = s.to_bytes();
    let zero = Scalar::zero();
    let mut result: [Scalar; L] = [zero; L];
    let mut i: usize = 0;
    while i < L
        invariant
            i <= L,
            bytes@.len() == 32,
            le_nat(bytes@) == s@,
            forall|j: int| 0 <= j < i ==> #[trigger] result@[j]@ == bit_of(s@, j as nat),
        decreases L - i,
    {
        let b: usize = i / 8;
        let j: usize = i % 8;
        let bit: u8 = (bytes[b] >> (j as u8)) & 1u8;
        proof {
            lemma_bit_of_bytes(bytes@, i as nat);
        }
        result[i] = Scalar::from_u128(bit as u128);
        i = i + 1;
    }
    result
}

/// `sum_{i < L} s[i] * 2^i mod ℓ`.
fn scalar_weighted_sum(s: &[Scalar; L]) -> (r: Scalar)
    ensures
        r@ == weighted_scalar_sum(s@.map_values(|x: Scalar| x@), L as nat),
{
    let ghost vals = s@.map_values(|x: Scalar| x@);
    let mut acc = Scalar::zero();
    let mut weight: u128 = 1;
    let mut i: usize = 0;
    proof {
        lemma2_to64();
    }
    while i < L
        invariant
            i <= L,
            vals == s@.map_values(|x: Scalar| x@),
            i < L ==> weight as nat == pow2(i as nat),
            acc@ == weighted_scalar_sum(vals, i as nat),
        decreases L - i,
    {
        let term = s[i].times(&Scalar::from_u128(weight));
        acc = acc.plus(&term);
        if i + 1 < L {
            proof {
                lemma_pow2_unfold((i + 1) as nat);
                lemma_pow2_l();
                lemma_pow2_strictly_increases((i + 1) as nat, L as nat);
            }
            weight = weight * 2;
        }
        i = i + 1;
    }
    acc
}

/// `sum_{j < n} dlog(com[j]) * 2^j`: the exponent of a weighted sum.
pub open spec fn exp_weighted_sum(com: Seq<Seq<u8>>, n: nat) -> int
    decreases n,
{
    if n == 0 {
        0
    } else {
        exp_weighted_sum(com, (n - 1) as nat) + dlog(com[n - 1]) * pow2((n - 1) as nat)
    }
}

/// `sum_{i <= j < L} dlog(com[j]) * 2^(j - i)`: the exponent of the weighted
/// sum of the commitments from `i` on, accumulated from the top.
pub open spec fn exp_tail_sum(com: Seq<Seq<u8>>, i: nat) -> int
    decreases L - i,
{
    if i >= L {
        0
    } else {
        dlog(com[i as int]) + 2 * exp_tail_sum(com, i + 1)
    }
}

proof fn lemma_weighted_point_sum_dlog(com: Seq<Seq<u8>>, n: nat)
    requires
        group_laws(),
        n <= L,
        n <= com.len(),
        forall|j: int| 0 <= j < n ==> is_point(#[trigger] com[j]),
    ensures
        weighted_point_sum(com, n) == exp_point(exp_weighted_sum(com, n)),
    decreases n,
{
    if n == 0 {
        lemma_exp_constants(0);
    } else {
        let j = (n - 1) as nat;
        lemma_weighted_point_sum_dlog(com, j);
        assert(is_point(com[j as int]));
        lemma_dlog(com[j as int]);
        lemma_pow2_l();
        lemma_pow2_strictly_increases(j, L as nat);
        lemma_exp_mul(dlog(com[j as int]), pow2(j));
        lemma_exp_add(exp_weighted_sum(com, j), dlog(com[j as int]) * pow2(j));
    }
}

/// Accumulating from the top gives the weighted sum.
proof fn lemma_tail_sum(com: Seq<Seq<u8>>, n: nat)
    requires
        n <= L,
    ensures
        exp_weighted_sum(com, n) + pow2(n) * exp_tail_sum(com, n) == exp_tail_sum(com, 0),
    decreases n,
{
    if n == 0 {
        lemma2_to64();
        assert(pow2(0) * exp_tail_sum(com, 0) == exp_tail_sum(com, 0)) by (nonlinear_arith)
            requires
                pow2(0) == 1,
        ;
    } else {
        let j = (n - 1) as nat;
        lemma_tail_sum(com, j);
        lemma_pow2_unfold(n);
        let d = dlog(com[j as int]);
        let t = exp_tail_sum(com, n);
        let pw = pow2(j) as int;
        assert(exp_tail_sum(com, j) == d + 2 * t);
        assert(pw * (d + 2 * t) == d * pw + (2 * pw) * t) by (nonlinear_arith);
    }
}

/// `sum_{i < L} com[i] * 2^i`, by doubling from the top.
fn point_weighted_sum(com: &[Point; L]) -> (r: Point)
    ensures
        r@ == weighted_point_sum(com@.map_values(|p: Point| p@), L as nat),
{
    let ghost vals = com@.map_values(|p: Point| p@);
    // the generator's contract gives the group structure the proofs use
    let _generator = Point::generator();
    let mut acc = Point::identity();
    proof {
        lemma_exp_constants(0);
    }
    let mut i: usize = L;
    while i > 0
        invariant
            i <= L,
            group_laws(),
            vals == com@.map_values(|p: Point| p@),
            forall|j: int| i <= j < L ==> is_point(#[trigger] vals[j]),
            acc@ == exp_point(exp_tail_sum(vals, i as nat)),
        decreases i,
    {
        i = i - 1;
        let ci = &com[i];
        proof {
            use_type_invariant(ci);
            lemma_dlog(vals[i as int]);
        }
        let ghost t = exp_tail_sum(vals, (i + 1) as nat);
        let twice = acc.plus(&acc);
        acc = twice.plus(ci);
        proof {
            lemma_exp_add(t, t);
            lemma_exp_add(t + t, dlog(vals[i as int]));
            assert(exp_tail_sum(vals, i as nat) == dlog(vals[i as int]) + 2 * t);
        }
    }
    proof {
        lemma_tail_sum(vals, L as nat);
        lemma_weighted_point_sum_dlog(vals, L as nat);
        assert(exp_tail_sum(vals, L as nat) == 0);
    }
    acc
}

/// `G + h1 * c + h2 * k + h3 * r`: the point that a token's signature signs.
pub open spec fn token_point(p: ParamsModel, t: TokenModel) -> Seq<u8> {
    ristretto_add(
        ristretto_add(
            ristretto_add(generator_encoding(), ristretto_mul(p.0, t.c)),
            ristretto_mul(p.1, t.k),
        ),
        ristretto_mul(p.2, t.r),
    )
}

/// The range-proof commitments of the remaining balance `m`.
pub open spec fn spend_coms(p: ParamsModel, m: nat, n: SpendNoncesModel) -> Seq<Seq<u8>> {
    Seq::new(L as nat, |j: int| com_at(p, bit_of(m, j as nat), n.k_star, n.s_i[j], j))
}

/// The branch commitments of the range proof of the remaining balance `m`.
pub open spec fn spend_branches(p: ParamsModel, m: nat, n: SpendNoncesModel) -> Seq<
    (Seq<u8>, Seq<u8>),
> {
    Seq::new(
        L as nat,
        |j: int|
            prover_branches_at(
                p,
                bit_of(m, j as nat),
                com_at(p, bit_of(m, j as nat), n.k_star, n.s_i[j], j),
                real_at(p, n.k0_prime, n.s_i_prime[j], j),
                n.w0,
                n.z[j],
                n.gamma_i[j],
                j,
            ),
    )
}

/// The spend proof that `CreditToken::prove_spend` builds for spending `s`
/// credits of the token `t`, from the nonces `n`.
pub open spec fn spend_proof_model(t: TokenModel, p: ParamsModel, s: nat, n: SpendNoncesModel)
    -> SpendProofModel {
    let m: nat = sub_mod(t.c, s);
    let a_prime = ristretto_mul(t.a, mul_mod(n.r1, n.r2));
    let b_bar = ristretto_mul(token_point(p, t), n.r1);
    let r3: nat = scalar_inverse(n.r1);
    let a1 = ristretto_add(ristretto_mul(a_prime, n.e_prime), ristretto_mul(b_bar, n.r2_prime));
    let a2 = ristretto_add(
        ristretto_add(ristretto_mul(b_bar, n.r3_prime), ristretto_mul(p.0, n.c_prime)),
        ristretto_mul(p.2, n.r_prime),
    );
    let com = spend_coms(p, m, n);
    let branches = spend_branches(p, m, n);
    let r_star: nat = weighted_scalar_sum(n.s_i, L as nat);
    let c_ = ristretto_add(
        ristretto_add(ristretto_mul(p.0, neg_mod(n.c_prime)), ristretto_mul(p.1, n.k_prime)),
        ristretto_mul(p.2, n.s_prime),
    );
    let gamma: nat = challenge_of(
        p,
        Label::Spend,
        spend_items(t.k, a_prime, b_bar, a1, a2, com, branches, c_),
    );
    let gamma0 = Seq::new(L as nat, |j: int| gamma0_at(gamma, bit_of(m, j as nat), n.gamma_i[j]));
    let bit0: nat = bit_of(m, 0);
    SpendProofModel {
        k: t.k,
        s,
        a_prime,
        b_bar,
        com,
        gamma,
        e_bar: add_mod(mul_mod(neg_mod(gamma), t.e), n.e_prime),
        r2_bar: add_mod(mul_mod(gamma, n.r2), n.r2_prime),
        r3_bar: add_mod(mul_mod(gamma, r3), n.r3_prime),
        c_bar: add_mod(mul_mod(neg_mod(gamma), t.c), n.c_prime),
        r_bar: add_mod(mul_mod(neg_mod(gamma), t.r), n.r_prime),
        w00: if bit0 == 0 {
            add_mod(mul_mod(gamma0[0], n.k_star), n.k0_prime)
        } else {
            n.w0
        },
        w01: if bit0 == 0 {
            n.w0
        } else {
            add_mod(mul_mod(sub_mod(gamma, gamma0[0]), n.k_star), n.k0_prime)
        },
        gamma0,
        z: Seq::new(
            L as nat,
            |j: int|
                z_at(gamma, bit_of(m, j as nat), n.gamma_i[j], n.s_i[j], n.s_i_prime[j], n.z[j]),
        ),
        k_bar: add_mod(mul_mod(gamma, n.k_star), n.k_prime),
        s_bar: add_mod(mul_mod(gamma, r_star), n.s_prime),
    }
}

/// What the client keeps after spending `s` credits of the token `t`.
pub open spec fn prerefund_model(t: TokenModel, s: nat, n: SpendNoncesModel) -> PreRefundModel {
    PreRefundModel { r: weighted_scalar_sum(n.s_i, L as nat), k: n.k_star, m: sub_mod(t.c, s) }
}

/// The messages of a spend proof as the issuer recomputes them with the
/// secret key `x`.
pub open spec fn recomputed_spend_items(p: ParamsModel, x: nat, proof: SpendProofModel) -> Seq<
    Seq<u8>,
> {
    let a_bar = ristretto_mul(proof.a_prime, x);
    let big_h1 = ristretto_add(generator_encoding(), ristretto_mul(p.1, proof.k));
    let a1 = ristretto_add(
        ristretto_add(
            ristretto_mul(proof.a_prime, proof.e_bar),
            ristretto_mul(proof.b_bar, proof.r2_bar),
        ),
        ristretto_mul(a_bar, neg_mod(proof.gamma)),
    );
    let a2 = ristretto_add(
        ristretto_add(
            ristretto_add(ristretto_mul(proof.b_bar, proof.r3_bar), ristretto_mul(p.0, proof.c_bar)),
            ristretto_mul(p.2, proof.r_bar),
        ),
        ristretto_mul(big_h1, neg_mod(proof.gamma)),
    );
    let branches = Seq::new(L as nat, |j: int| verifier_branches_at(p, proof, j));
    let com_ = ristretto_add(ristretto_mul(p.0, proof.s), weighted_point_sum(proof.com, L as nat));
    let big_c = ristretto_sub(
        ristretto_add(
            ristretto_add(
                ristretto_mul(p.0, neg_mod(proof.c_bar)),
                ristretto_mul(p.1, proof.k_bar),
            ),
            ristretto_mul(p.2, proof.s_bar),
        ),
        ristretto_mul(com_, proof.gamma),
    );
    spend_items(proof.k, proof.a_prime, proof.b_bar, a1, a2, proof.com, branches, big_c)
}

/// Whether the issuer with secret key `x` accepts a spend proof.
pub open spec fn spend_proof_is_valid(p: ParamsModel, x: nat, proof: SpendProofModel) -> bool {
    challenge_of(p, Label::Spend, recomputed_spend_items(p, x, proof)) == proof.gamma
}

/// `G + sum_i com[i] * 2^i`: the point that a refund signs.
pub open spec fn refund_point(com: Seq<Seq<u8>>) -> Seq<u8> {
    ristretto_add(generator_encoding(), weighted_point_sum(com, L as nat))
}

/// The challenge of a refund's signature proof.
pub open spec fn refund_challenge(
    p: ParamsModel,
    e: nat,
    a: Seq<u8>,
    x_a: Seq<u8>,
    x_g: Seq<u8>,
    y_a: Seq<u8>,
    y_g: Seq<u8>,
) -> nat {
    challenge_of(p, Label::Refund, seq![scalar_encoding(e), a, x_a, x_g, y_a, y_g])
}

/// The refund that the issuer with key `(x, w)` signs for a spend proof,
/// from the nonces `e` and `alpha`.
pub open spec fn refund_model(
    x: nat,
    w: Seq<u8>,
    p: ParamsModel,
    proof: SpendProofModel,
    e: nat,
    alpha: nat,
) -> RefundModel {
    let x_a = refund_point(proof.com);
    let a = ristretto_mul(x_a, scalar_inverse(add_mod(e, x)));
    let x_g = ristretto_add(gen_mul(e), w);
    let y_a = ristretto_mul(a, alpha);
    let y_g = gen_mul(alpha);
    let gamma: nat = refund_challenge(p, e, a, x_a, x_g, y_a, y_g);
    RefundModel { a, e, gamma, z: add_mod(mul_mod(gamma, add_mod(x, e)), alpha) }
}

/// Whether the client accepts a refund for its spend proof, whose
/// commitments are `com`, under the public key `w`.
pub open spec fn refund_is_valid(p: ParamsModel, w: Seq<u8>, com: Seq<Seq<u8>>, refund: RefundModel) -> bool {
    let x_a = refund_point(com);
    let x_g = ristretto_add(gen_mul(refund.e), w);
    let y_a = ristretto_add(ristretto_mul(refund.a, refund.z), ristretto_mul(x_a, neg_mod(refund.gamma)));
    let y_g = ristretto_add(gen_mul(refund.z), ristretto_mul(x_g, neg_mod(refund.gamma)));
    refund_challenge(p, refund.e, refund.a, x_a, x_g, y_a, y_g) == refund.gamma
}

/// The token that the client holds once the issuer's refund is accepted:
/// the issuer's new signature, the fresh identifier and blinding factor, and
/// the remaining balance.
pub open spec fn refunded_token(pre: PreRefundModel, refund: RefundModel) -> TokenModel {
    TokenModel { a: refund.a, e: refund.e, k: pre.k, r: pre.r, c: pre.m }
}

/// The nonces that a spend proof is built with.
pub struct SpendNonces {
    pub r1: Scalar,
    pub r2: Scalar,
    pub c_prime: Scalar,
    pub r_prime: Scalar,
    pub e_prime: Scalar,
    pub r2_prime: Scalar,
    pub r3_prime: Scalar,
    pub k_star: Scalar,
    pub s_i: [Scalar; L],
    pub k0_prime: Scalar,
    pub s_i_prime: [Scalar; L],
    pub gamma_i: [Scalar; L],
    pub w0: Scalar,
    pub z: [Scalar; L],
    pub k_prime: Scalar,
    pub s_prime: Scalar,
}

impl View for SpendNonces {
    type V = SpendNoncesModel;

    open spec fn view(&self) -> SpendNoncesModel {
        SpendNoncesModel {
            r1: self.r1@,
            r2: self.r2@,
            c_prime: self.c_prime@,
            r_prime: self.r_prime@,
            e_prime: self.e_prime@,
            r2_prime: self.r2_prime@,
            r3_prime: self.r3_prime@,
            k_star: self.k_star@,
            s_i: scalars_view(self.s_i@),
            k0_prime: self.k0_prime@,
            s_i_prime: scalars_view(self.s_i_prime@),
            gamma_i: scalars_view(self.gamma_i@),
            w0: self.w0@,
            z: scalars_view(self.z@),
            k_prime: self.k_prime@,
            s_prime: self.s_prime@,
        }
    }
}

/// Each value of the sequence is a reduced scalar, below the group order.
pub open spec fn all_below_order(s: Seq<nat>) -> bool {
    forall|i: int| 0 <= i < s.len() ==> #[trigger] s[i] < group_order()
}

/// Every nonce is a reduced scalar, and each list holds one nonce per bit.
pub open spec fn nonces_reduced(n: SpendNoncesModel) -> bool {
    &&& n.r1 < group_order()
    &&& n.r2 < group_order()
    &&& n.c_prime < group_order()
    &&& n.r_prime < group_order()
    &&& n.e_prime < group_order()
    &&& n.r2_prime < group_order()
    &&& n.r3_prime < group_order()
    &&& n.k_star < group_order()
    &&& n.k0_prime < group_order()
    &&& n.w0 < group_order()
    &&& n.k_prime < group_order()
    &&& n.s_prime < group_order()
    &&& n.s_i.len() == L && all_below_order(n.s_i)
    &&& n.s_i_prime.len() == L && all_below_order(n.s_i_prime)
    &&& n.gamma_i.len() == L && all_below_order(n.gamma_i)
    &&& n.z.len() == L && all_below_order(n.z)
}

fn random_scalars(rng: &mut rand_core::OsRng) -> (r: [Scalar; L])
    ensures
        scalars_view(r@).len() == L,
        all_below_order(scalars_view(r@)),
{
    let zero = Scalar::zero();
    let mut v: [Scalar; L] = [zero; L];
    let mut i: usize = 0;
    while i < L
        invariant
            i <= L,
            v@.len() == L,
            forall|j: int| 0 <= j < L ==> #[trigger] v@[j]@ < group_order(),
        decreases L - i,
    {
        let x = Scalar::random(rng);
        v[i] = x;
        i = i + 1;
    }
    v
}

impl SpendNonces {
    /// Nonces drawn from the generator.
    pub fn random(rng: &mut rand_core::OsRng) -> (r: SpendNonces)
        ensures
            nonces_reduced(r@),
    {
        let r1 = Scalar::random(rng);
        let r2 = Scalar::random(rng);
        let c_prime = Scalar::random(rng);
        let r_prime = Scalar::random(rng);
        let e_prime = Scalar::random(rng);
        let r2_prime = Scalar::random(rng);
        let r3_prime = Scalar::random(rng);
        let k_star = Scalar::random(rng);
        let s_i = random_scalars(rng);
        let k0_prime = Scalar::random(rng);
        let s_i_prime = random_scalars(rng);
        let gamma_i = random_scalars(rng);
        let w0 = Scalar::random(rng);
        let z = random_scalars(rng);
        let k_prime = Scalar::random(rng);
        let s_prime = Scalar::random(rng);
        SpendNonces {
            r1,
            r2,
            c_prime,
            r_prime,
            e_prime,
            r2_prime,
            r3_prime,
            k_star,
            s_i,
            k0_prime,
            s_i_prime,
            gamma_i,
            w0,
            z,
            k_prime,
            s_prime,
        }
    }
}

/// The proof that a client sends to spend credits of a token.
#[derive(Clone, Debug)]
pub struct SpendProof {
    k: Scalar,
    s: Scalar,
    a_prime: Point,
    b_bar: Point,
    com: [Point; L],
    gamma: Scalar,
    e_bar: Scalar,
    r2_bar: Scalar,
    r3_bar: Scalar,
    c_bar: Scalar,
    r_bar: Scalar,
    w00: Scalar,
    w01: Scalar,
    gamma0: [Scalar; L],
    z: [(Scalar, Scalar); L],
    k_bar: Scalar,
    s_bar: Scalar,
}

impl View for SpendProof {
    type V = SpendProofModel;

    closed spec fn view(&self) -> SpendProofModel {
        SpendProofModel {
            k: self.k@,
            s: self.s@,
            a_prime: self.a_prime@,
            b_bar: self.b_bar@,
            com: points_view(self.com@),
            gamma: self.gamma@,
            e_bar: self.e_bar@,
            r2_bar: self.r2_bar@,
            r3_bar: self.r3_bar@,
            c_bar: self.c_bar@,
            r_bar: self.r_bar@,
            w00: self.w00@,
            w01: self.w01@,
            gamma0: scalars_view(self.gamma0@),
            z: scalar_pairs_view(self.z@),
            k_bar: self.k_bar@,
            s_bar: self.s_bar@,
        }
    }
}

impl SpendProof {
    /// The identifier of the spent token, which the issuer must record to
    /// refuse a second spend of it.
    pub fn nullifier(&self) -> (r: Scalar)
        ensures
            r@ == self@.k,
    {
        self.k
    }

    /// The number of credits being spent.
    pub fn charge(&self) -> (r: Scalar)
        ensures
            r@ == self@.s,
    {
        self.s
    }

    fn commitments(&self) -> (r: &[Point; L])
        ensures
            points_view(r@) == self@.com,
    {
        &self.com
    }
}

/// What the client keeps while waiting for a refund.
#[derive(Clone, Debug)]
pub struct PreRefund {
    r: Scalar,
    k: Scalar,
    m: Scalar,
}

impl View for PreRefund {
    type V = PreRefundModel;

    closed spec fn view(&self) -> PreRefundModel {
        PreRefundModel { r: self.r@, k: self.k@, m: self.m@ }
    }
}

/// The issuer's signature on the remaining balance of a spent token.
#[derive(Clone, Debug, PartialEq)]
pub struct Refund {
    a: Point,
    e: Scalar,
    gamma: Scalar,
    z: Scalar,
}

impl View for Refund {
    type V = RefundModel;

    closed spec fn view(&self) -> RefundModel {
        RefundModel { a: self.a@, e: self.e@, gamma: self.gamma@, z: self.z@ }
    }
}

/// The commitments to the bits of the remaining balance.
fn range_commitments(params: &Params, bits: &[Scalar; L], k_star: &Scalar, s_i: &[Scalar; L]) -> (r:
    [Point; L])
    requires
        forall|j: int| 0 <= j < L ==> #[trigger] bits@[j]@ <= 1,
    ensures
        forall|j: int|
            0 <= j < L ==> #[trigger] r@[j]@ == com_at(params@, bits@[j]@, k_star@, s_i@[j]@, j),
{
    let h1 = params.h1();
    let h2 = params.h2();
    let h3 = params.h3();
    // the generator's contract gives the group structure the proofs use
    let _generator = Point::generator();
    let id = Point::identity();
    proof {
        use_type_invariant(h1);
    }
    // `h1 * bit` is the identity or `h1`, chosen in constant time
    let bit0 = Point::select(h1, &id, bits[0].ct_is_zero());
    proof {
        lemma_mul_bit(params@.0, bits@[0]@);
    }
    let first = bit0.plus(&h2.times(k_star)).plus(&h3.times(&s_i[0]));
    let mut com: [Point; L] = [first; L];
    let mut j: usize = 1;
    while j < L
        invariant
            1 <= j <= L,
            group_laws(),
            is_point(params@.0),
            id@ == identity_encoding(),
            h1@ == params@.0,
            h2@ == params@.1,
            h3@ == params@.2,
            forall|i: int| 0 <= i < L ==> #[trigger] bits@[i]@ <= 1,
            forall|i: int|
                0 <= i < j ==> #[trigger] com@[i]@ == com_at(params@, bits@[i]@, k_star@, s_i@[i]@, i),
        decreases L - j,
    {
        let bit = Point::select(h1, &id, bits[j].ct_is_zero());
        proof {
            lemma_mul_bit(params@.0, bits@[j as int]@);
        }
        com[j] = bit.plus(&h3.times(&s_i[j]));
        j = j + 1;
    }
    com
}

/// The prover's two branch commitments for each bit.
fn prover_branches(
    params: &Params,
    bits: &[Scalar; L],
    com: &[Point; L],
    k0_prime: &Scalar,
    s_i_prime: &[Scalar; L],
    w0: &Scalar,
    z: &[Scalar; L],
    gamma_i: &[Scalar; L],
) -> (r: [(Point, Point); L])
    requires
        forall|j: int| 0 <= j < L ==> #[trigger] bits@[j]@ <= 1,
    ensures
        forall|j: int|
            #![trigger r@[j]]
            0 <= j < L ==> (r@[j].0@, r@[j].1@) == prover_branches_at(
                params@,
                bits@[j]@,
                com@[j]@,
                real_at(params@, k0_prime@, s_i_prime@[j]@, j),
                w0@,
                z@[j]@,
                gamma_i@[j]@,
                j,
            ),
{
    let h1 = params.h1();
    let h2 = params.h2();
    let h3 = params.h3();
    // the generator's contract gives the group structure the proofs use
    let _generator = Point::generator();
    let id = Point::identity();
    let mut out: [(Point, Point); L] = [(id, id); L];
    let mut j: usize = 0;
    while j < L
        invariant
            j <= L,
            group_laws(),
            h1@ == params@.0,
            h2@ == params@.1,
            h3@ == params@.2,
            forall|i: int| 0 <= i < L ==> #[trigger] bits@[i]@ <= 1,
            forall|i: int|
                #![trigger out@[i]]
                0 <= i < j ==> (out@[i].0@, out@[i].1@) == prover_branches_at(
                    params@,
                    bits@[i]@,
                    com@[i]@,
                    real_at(params@, k0_prime@, s_i_prime@[i]@, i),
                    w0@,
                    z@[i]@,
                    gamma_i@[i]@,
                    i,
                ),
        decreases L - j,
    {
        let c0 = com[j];
        let c1 = com[j].minus(h1);
        let known = if j == 0 {
            h2.times(k0_prime).plus(&h3.times(&s_i_prime[0]))
        } else {
            h3.times(&s_i_prime[j])
        };
        let choice: u8 = bits[j].ct_is_zero();
        // the branch to simulate is the one of the other value of the bit
        let other = Point::select(&c0, &c1, choice);
        let sim = if j == 0 {
            h2.times(w0).plus(&h3.times(&z[0])).minus(&other.times(&gamma_i[0]))
        } else {
            let gj = &gamma_i[j];
            let zj = &z[j];
            proof {
                use_type_invariant(h3);
                use_type_invariant(&other);
                use_type_invariant(gj);
                use_type_invariant(zj);
                let a3 = lemma_exponent_of(params@.2);
                lemma_exp_mul(a3, zj@);
                lemma_exp_point_is_point(a3 * zj@);
                lemma_sub_as_add_neg(ristretto_mul(params@.2, zj@), other@, gj@);
            }
            h3.times_plus_times(zj, &other, &gj.negated())
        };
        let first = Point::select(&sim, &known, choice);
        let second = Point::select(&known, &sim, choice);
        out[j] = (first, second);
        j = j + 1;
    }
    out
}

/// The issuer's recomputation of the two branch commitments of each bit.
fn verifier_branches(params: &Params, proof: &SpendProof) -> (r: [(Point, Point); L])
    ensures
        forall|j: int|
            #![trigger r@[j]]
            0 <= j < L ==> (r@[j].0@, r@[j].1@) == verifier_branches_at(
                params@,
                proof@,
                j,
            ),
{
    let h1 = params.h1();
    let h2 = params.h2();
    let h3 = params.h3();
    // the generator's contract gives the group structure the proofs use
    let _generator = Point::generator();
    let id = Point::identity();
    let mut out: [(Point, Point); L] = [(id, id); L];
    let mut j: usize = 0;
    while j < L
        invariant
            j <= L,
            group_laws(),
            h1@ == params@.0,
            h2@ == params@.1,
            h3@ == params@.2,
            forall|i: int|
                #![trigger out@[i]]
                0 <= i < j ==> (out@[i].0@, out@[i].1@) == verifier_branches_at(
                    params@,
                    proof@,
                    i,
                ),
        decreases L - j,
    {
        let gamma01 = proof.gamma.minus(&proof.gamma0[j]);
        let c0 = proof.com[j];
        let c1 = proof.com[j].minus(h1);
        if j == 0 {
            let base0 = h2.times(&proof.w00).plus(&h3.times(&proof.z[0].0));
            let base1 = h2.times(&proof.w01).plus(&h3.times(&proof.z[0].1));
            let first = base0.minus(&c0.times(&proof.gamma0[0]));
            let second = base1.minus(&c1.times(&gamma01));
            out[j] = (first, second);
        } else {
            let g0 = &proof.gamma0[j];
            let z0 = &proof.z[j].0;
            let z1 = &proof.z[j].1;
            proof {
                use_type_invariant(h3);
                use_type_invariant(&c0);
                use_type_invariant(&c1);
                use_type_invariant(g0);
                use_type_invariant(&gamma01);
                use_type_invariant(z0);
                use_type_invariant(z1);
                let a3 = lemma_exponent_of(params@.2);
                lemma_exp_mul(a3, z0@);
                lemma_exp_point_is_point(a3 * z0@);
                lemma_exp_mul(a3, z1@);
                lemma_exp_point_is_point(a3 * z1@);
                lemma_sub_as_add_neg(ristretto_mul(params@.2, z0@), c0@, g0@);
                lemma_sub_as_add_neg(ristretto_mul(params@.2, z1@), c1@, gamma01@);
            }
            let first = h3.times_plus_times(z0, &c0, &g0.negated());
            let second = h3.times_plus_times(z1, &c1, &gamma01.negated());
            out[j] = (first, second);
        }
        j = j + 1;
    }
    out
}

/// The challenge of a spend proof with the given messages.
fn spend_challenge(
    params: &Params,
    k: &Scalar,
    a_prime: &Point,
    b_bar: &Point,
    a1: &Point,
    a2: &Point,
    com: &[Point; L],
    branches: &[(Point, Point); L],
    c_: &Point,
) -> (r: Scalar)
    ensures
        r@ == challenge_of(
            params@,
            Label::Spend,
            spend_items(
                k@,
                a_prime@,
                b_bar@,
                a1@,
                a2@,
                points_view(com@),
                point_pairs_view(branches@),
                c_@,
            ),
        ),
{
    let ghost coms = points_view(com@);
    let ghost pairs = flat_pairs(point_pairs_view(branches@));
    let mut t = Transcript::new(params, Label::Spend);
    t.add_scalar(k);
    t.add_element(a_prime);
    t.add_element(b_bar);
    t.add_element(a1);
    t.add_element(a2);
    let ghost head = seq![scalar_encoding(k@), a_prime@, b_bar@, a1@, a2@];
    assert(t.items() =~= head);
    let mut j: usize = 0;
    while j < L
        invariant
            j <= L,
            t.wf(),
            t.header() == crate::transcript::transcript_header(params@, Label::Spend),
            coms == points_view(com@),
            t.items() == head + coms.subrange(0, j as int),
        decreases L - j,
    {
        t.add_element(&com[j]);
        assert(t.items() =~= head + coms.subrange(0, j + 1));
        j = j + 1;
    }
    assert(coms.subrange(0, L as int) =~= coms);
    let mut j: usize = 0;
    while j < L
        invariant
            j <= L,
            t.wf(),
            t.header() == crate::transcript::transcript_header(params@, Label::Spend),
            pairs == flat_pairs(point_pairs_view(branches@)),
            t.items() == head + coms + pairs.subrange(0, 2 * j as int),
        decreases L - j,
    {
        t.add_element(&branches[j].0);
        t.add_element(&branches[j].1);
        assert(t.items() =~= head + coms + pairs.subrange(0, 2 * (j + 1) as int));
        j = j + 1;
    }
    assert(pairs.subrange(0, 2 * L as int) =~= pairs);
    t.add_element(c_);
    assert(t.items() =~= spend_items(
        k@,
        a_prime@,
        b_bar@,
        a1@,
        a2@,
        points_view(com@),
        point_pairs_view(branches@),
        c_@,
    ));
    t.challenge()
}

/// The challenges and responses of the branches of each bit.
fn branch_responses(
    bits: &[Scalar; L],
    gamma: &Scalar,
    gamma_i: &[Scalar; L],
    s_i: &[Scalar; L],
    s_i_prime: &[Scalar; L],
    z: &[Scalar; L],
) -> (r: ([Scalar; L], [(Scalar, Scalar); L]))
    requires
        forall|j: int| 0 <= j < L ==> #[trigger] bits@[j]@ <= 1,
    ensures
        forall|j: int|
            0 <= j < L ==> #[trigger] r.0@[j]@ == gamma0_at(gamma@, bits@[j]@, gamma_i@[j]@),
        forall|j: int|
            #![trigger r.1@[j]]
            0 <= j < L ==> (r.1@[j].0@, r.1@[j].1@) == z_at(
                gamma@,
                bits@[j]@,
                gamma_i@[j]@,
                s_i@[j]@,
                s_i_prime@[j]@,
                z@[j]@,
            ),
{
    let zero = Scalar::zero();
    let mut g0: [Scalar; L] = [zero; L];
    let mut zz: [(Scalar, Scalar); L] = [(zero, zero); L];
    let mut j: usize = 0;
    while j < L
        invariant
            j <= L,
            forall|i: int| 0 <= i < L ==> #[trigger] bits@[i]@ <= 1,
            forall|i: int|
                0 <= i < j ==> #[trigger] g0@[i]@ == gamma0_at(gamma@, bits@[i]@, gamma_i@[i]@),
            forall|i: int|
                #![trigger zz@[i]]
                0 <= i < j ==> (zz@[i].0@, zz@[i].1@) == z_at(
                    gamma@,
                    bits@[i]@,
                    gamma_i@[i]@,
                    s_i@[i]@,
                    s_i_prime@[i]@,
                    z@[i]@,
                ),
        decreases L - j,
    {
        let choice: u8 = bits[j].ct_is_zero();
        let g = Scalar::select(&gamma_i[j], &gamma.minus(&gamma_i[j]), choice);
        let known0 = g.times(&s_i[j]).plus(&s_i_prime[j]);
        let known1 = gamma.minus(&g).times(&s_i[j]).plus(&s_i_prime[j]);
        let z0 = Scalar::select(&z[j], &known0, choice);
        let z1 = Scalar::select(&known1, &z[j], choice);
        g0[j] = g;
        zz[j] = (z0, z1);
        j = j + 1;
    }
    (g0, zz)
}

impl CreditToken {
    /// The proof that spends `s` credits of this token, built with the
    /// given nonces, and what the client keeps for the refund. When the
    /// token carries a signature under the issuer's key, `s` is at most its
    /// credits with a remainder below `2^L`, and the nonces are reduced with
    /// nonzero `r1` and `r2`, the proof is an honest spend, which the issuer
    /// accepts.
    pub fn prove_spend_with(&self, params: &Params, s: Scalar, nonces: &SpendNonces) -> (r: (
        SpendProof,
        PreRefund,
    ))
        ensures
            r.0@ == spend_proof_model(self@, params@, s@, nonces@),
            r.1@ == prerefund_model(self@, s@, nonces@),
            forall|x: nat|
                #[trigger] token_signed(params@, x, self@) && token_point(params@, self@)
                    != identity_encoding() && s@ <= self@.c && self@.c - s@ < pow2(L as nat)
                    && nonces_reduced(nonces@) && nonces@.r1 != 0 && nonces@.r2 != 0
                    ==> honest_spend(params@, x, r.0@),
    {
        let n = nonces;
        let h1 = params.h1();
        let h2 = params.h2();
        let h3 = params.h3();
        let g = Point::generator();
        let c = self.credits();
        let k = self.nullifier();
        let (ta, te, tr) = (self.sig_point(), self.sig_scalar(), self.blinding());
        let b = g.plus(&h1.times(&c)).plus(&h2.times(&k)).plus(&h3.times(self.blinding()));
        let a_prime = self.sig_point().times(&n.r1.times(&n.r2));
        let b_bar = b.times(&n.r1);
        let r3 = n.r1.invert();
        let a1 = a_prime.times(&n.e_prime).plus(&b_bar.times(&n.r2_prime));
        let a2 = b_bar.times(&n.r3_prime).plus(&h1.times(&n.c_prime)).plus(&h3.times(&n.r_prime));
        let m = c.minus(&s);
        let bits = bits_of(&m);
        let com = range_commitments(params, &bits, &n.k_star, &n.s_i);
        let branches = prover_branches(
            params,
            &bits,
            &com,
            &n.k0_prime,
            &n.s_i_prime,
            &n.w0,
            &n.z,
            &n.gamma_i,
        );
        let r_star = scalar_weighted_sum(&n.s_i);
        let c_ = h1.times(&n.c_prime.negated()).plus(&h2.times(&n.k_prime)).plus(
            &h3.times(&n.s_prime),
        );
        let ghost model = spend_proof_model(self@, params@, s@, nonces@);
        assert(points_view(com@) =~= model.com);
        assert(point_pairs_view(branches@) =~= spend_branches(params@, m@, nonces@));
        let gamma = spend_challenge(params, &k, &a_prime, &b_bar, &a1, &a2, &com, &branches, &c_);
        let minus_gamma = gamma.negated();
        let e_bar = minus_gamma.times(self.sig_scalar()).plus(&n.e_prime);
        let r2_bar = gamma.times(&n.r2).plus(&n.r2_prime);
        let r3_bar = gamma.times(&r3).plus(&n.r3_prime);
        let c_bar = minus_gamma.times(&c).plus(&n.c_prime);
        let r_bar = minus_gamma.times(self.blinding()).plus(&n.r_prime);
        let (gamma0, z) = branch_responses(&bits, &gamma, &n.gamma_i, &n.s_i, &n.s_i_prime, &n.z);
        let choice0: u8 = bits[0].ct_is_zero();
        let w00 = Scalar::select(&n.w0, &gamma0[0].times(&n.k_star).plus(&n.k0_prime), choice0);
        let w01 = Scalar::select(
            &gamma.minus(&gamma0[0]).times(&n.k_star).plus(&n.k0_prime),
            &n.w0,
            choice0,
        );
        let k_bar = gamma.times(&n.k_star).plus(&n.k_prime);
        let s_bar = gamma.times(&r_star).plus(&n.s_prime);
        let proof = SpendProof {
            k,
            s,
            a_prime,
            b_bar,
            com,
            gamma,
            e_bar,
            r2_bar,
            r3_bar,
            c_bar,
            r_bar,
            w00,
            w01,
            gamma0,
            z,
            k_bar,
            s_bar,
        };
        assert(scalars_view(gamma0@) =~= model.gamma0);
        assert(scalar_pairs_view(z@) =~= model.z);
        let prerefund = PreRefund { k: n.k_star, r: r_star, m };
        proof {
            use_type_invariant(ta);
            use_type_invariant(te);
            use_type_invariant(tr);
            use_type_invariant(&c);
            use_type_invariant(&k);
            assert(token_valid(self@));
            assert(proof@ == spend_proof_model(self@, params@, s@, nonces@));
        }
        (proof, prerefund)
    }

    /// The proof that spends `s` credits of this token, with nonces drawn
    /// from the generator, and what the client keeps for the refund.
    pub fn prove_spend(&self, params: &Params, s: Scalar, rng: rand_core::OsRng) -> (r: (
        SpendProof,
        PreRefund,
    ))
        ensures
            exists|n: SpendNoncesModel|
                r.0@ == spend_proof_model(self@, params@, s@, n) && r.1@ == prerefund_model(
                    self@,
                    s@,
                    n,
                ),
    {
        let mut rng = rng;
        let nonces = SpendNonces::random(&mut rng);
        let r = self.prove_spend_with(params, s, &nonces);
        assert(r.0@ == spend_proof_model(self@, params@, s@, nonces@));
        r
    }
}

impl PrivateKey {
    /// Checks a spend proof and signs the remaining balance with the nonces
    /// `e` and `alpha`. Whether the proof's nullifier was seen before is
    /// for the caller to check.
    pub fn refund_with(&self, params: &Params, spend_proof: &SpendProof, e: Scalar, alpha: Scalar)
        -> (r: Result<Refund, Error>)
        ensures
            spend_proof@.a_prime == identity_encoding() ==> r == Err::<Refund, Error>(
                Error::IdentityPointError,
            ),
            spend_proof@.a_prime != identity_encoding() ==> (r is Ok <==> spend_proof_is_valid(
                params@,
                self@.0,
                spend_proof@,
            )),
            spend_proof@.a_prime != identity_encoding() && r is Err ==> r == Err::<Refund, Error>(
                Error::InvalidClientSpendProof,
            ),
            r matches Ok(refund) ==> refund@ == refund_model(
                self@.0,
                self@.1,
                params@,
                spend_proof@,
                e@,
                alpha@,
            ),
            honest_spend(params@, self@.0, spend_proof@) ==> r is Ok,
    {
        let p = spend_proof;
        let g = Point::generator();
        let h1 = params.h1();
        let h2 = params.h2();
        let h3 = params.h3();
        let x = self.secret();
        proof {
            use_type_invariant(h1);
            use_type_invariant(h2);
            use_type_invariant(h3);
            use_type_invariant(x);
            if honest_spend(params@, self@.0, spend_proof@) {
                let (t, s, n) = choose|t: TokenModel, s: nat, n: SpendNoncesModel|
                    {
                        &&& token_valid(t)
                        &&& token_signed(params@, self@.0, t)
                        &&& token_point(params@, t) != identity_encoding()
                        &&& s <= t.c
                        &&& t.c - s < pow2(L as nat)
                        &&& nonces_reduced(n)
                        &&& n.r1 != 0
                        &&& n.r2 != 0
                        &&& spend_proof@ == #[trigger] spend_proof_model(t, params@, s, n)
                    };
                law_honest_spend_is_accepted(self@.0, params@, t, s, n);
            }
        }
        if p.a_prime.is_identity() {
            return Err(Error::IdentityPointError);
        }
        let minus_gamma = p.gamma.negated();
        let a_bar = p.a_prime.times(x);
        let big_h1 = g.plus(&h2.times(&p.k));
        let a1 = p.a_prime.times(&p.e_bar).plus(&p.b_bar.times(&p.r2_bar)).plus(
            &a_bar.times(&minus_gamma),
        );
        let a2 = p.b_bar.times(&p.r3_bar).plus(&h1.times(&p.c_bar)).plus(&h3.times(&p.r_bar)).plus(
            &big_h1.times(&minus_gamma),
        );
        let branches = verifier_branches(params, p);
        let k_prime = point_weighted_sum(&p.com);
        let com_ = h1.times(&p.s).plus(&k_prime);
        let big_c = h1.times(&p.c_bar.negated()).plus(&h2.times(&p.k_bar)).plus(
            &h3.times(&p.s_bar),
        ).minus(&com_.times(&p.gamma));
        assert(point_pairs_view(branches@) =~= Seq::new(
            L as nat,
            |j: int| verifier_branches_at(params@, p@, j),
        ));
        let gamma = spend_challenge(params, &p.k, &p.a_prime, &p.b_bar, &a1, &a2, &p.com, &branches, &big_c);
        if !gamma.ct_equals(&p.gamma) {
            return Err(Error::InvalidClientSpendProof);
        }
        let x_a = g.plus(&k_prime);
        let a = x_a.times(&e.plus(x).invert());
        let x_g = g.times(&e).plus(self.public().point());
        let y_a = a.times(&alpha);
        let y_g = g.times(&alpha);
        let mut t = Transcript::new(params, Label::Refund);
        t.add_scalar(&e);
        t.add_element(&a);
        t.add_element(&x_a);
        t.add_element(&x_g);
        t.add_element(&y_a);
        t.add_element(&y_g);
        assert(t.items() =~= seq![scalar_encoding(e@), a@, x_a@, x_g@, y_a@, y_g@]);
        let refund_gamma = t.challenge();
        let z = refund_gamma.times(&x.plus(&e)).plus(&alpha);
        Ok(Refund { a, e, gamma: refund_gamma, z })
    }

    /// Checks a spend proof and signs the remaining balance, with nonces
    /// drawn from the generator.
    ///
    /// This does not check whether the proof's nullifier was seen before:
    /// the caller must do so to refuse a second spend of the same token.
    pub fn refund(&self, params: &Params, spend_proof: &SpendProof, rng: rand_core::OsRng) -> (r:
        Result<Refund, Error>)
        ensures
            spend_proof@.a_prime == identity_encoding() ==> r == Err::<Refund, Error>(
                Error::IdentityPointError,
            ),
            spend_proof@.a_prime != identity_encoding() ==> (r is Ok <==> spend_proof_is_valid(
                params@,
                self@.0,
                spend_proof@,
            )),
            spend_proof@.a_prime != identity_encoding() && r is Err ==> r == Err::<Refund, Error>(
                Error::InvalidClientSpendProof,
            ),
            r matches Ok(refund) ==> exists|e: nat, alpha: nat|
                e < group_order() && alpha < group_order() && refund@ == refund_model(
                    self@.0,
                    self@.1,
                    params@,
                    spend_proof@,
                    e,
                    alpha,
                ),
            honest_spend(params@, self@.0, spend_proof@) ==> r is Ok,
    {
        let mut rng = rng;
        let e = Scalar::random(&mut rng);
        let alpha = Scalar::random(&mut rng);
        proof {
            use_type_invariant(&e);
            use_type_invariant(&alpha);
        }
        self.refund_with(params, spend_proof, e, alpha)
    }
}

impl PreRefund {
    /// The new credit token for the remaining balance, if the issuer's
    /// refund verifies under its public key.
    pub fn to_credit_token(
        &self,
        params: &Params,
        spend_proof: &SpendProof,
        refund: &Refund,
        public_key: &PublicKey,
    ) -> (r: Result<CreditToken, Error>)
        ensures
            r is Ok <==> refund_is_valid(params@, public_key@, spend_proof@.com, refund@),
            r matches Err(err) ==> err == Error::InvalidRefundProof,
            r matches Ok(token) ==> token@ == refunded_token(self@, refund@),
            forall|x: nat|
                x < group_order() && public_key@ == gen_mul(x) && #[trigger] honest_refund(
                    params@,
                    x,
                    self@,
                    spend_proof@,
                    refund@,
                ) ==> {
                    &&& r is Ok
                    &&& token_signed(params@, x, refunded_token(self@, refund@))
                    &&& token_valid(refunded_token(self@, refund@))
                },
    {
        let g = Point::generator();
        let (h1, h2, h3) = (params.h1(), params.h2(), params.h3());
        proof {
            use_type_invariant(h1);
            use_type_invariant(h2);
            use_type_invariant(h3);
            assert forall|x: nat|
                x < group_order() && public_key@ == gen_mul(x) && #[trigger] honest_refund(
                    params@,
                    x,
                    self@,
                    spend_proof@,
                    refund@,
                ) implies refund_is_valid(params@, public_key@, spend_proof@.com, refund@)
                && token_signed(params@, x, refunded_token(self@, refund@)) && token_valid(
                refunded_token(self@, refund@),
            ) by {
                let (t, s, n, e, alpha) = choose|
                    t: TokenModel,
                    s: nat,
                    n: SpendNoncesModel,
                    e: nat,
                    alpha: nat,
                |
                    #![trigger spend_proof_model(t, params@, s, n), refund_model(x, gen_mul(x), params@, spend_proof@, e, alpha)]
                    {
                        &&& t.c < group_order()
                        &&& s <= t.c
                        &&& t.c - s < pow2(L as nat)
                        &&& crate::completeness::coms_nonces_reduced(n)
                        &&& e < group_order()
                        &&& alpha < group_order()
                        &&& add_mod(e, x) != 0
                        &&& spend_proof@ == spend_proof_model(t, params@, s, n)
                        &&& self@ == prerefund_model(t, s, n)
                        &&& refund@ == refund_model(x, gen_mul(x), params@, spend_proof@, e, alpha)
                    };
                law_refunded_token_is_signed(x, params@, t, s, n, e, alpha);
            }
        }
        let x_a = g.plus(&point_weighted_sum(spend_proof.commitments()));
        let x_g = g.times(&refund.e).plus(public_key.point());
        let minus_gamma = refund.gamma.negated();
        let y_a = refund.a.times(&refund.z).plus(&x_a.times(&minus_gamma));
        let y_g = g.times(&refund.z).plus(&x_g.times(&minus_gamma));
        let mut t = Transcript::new(params, Label::Refund);
        t.add_scalar(&refund.e);
        t.add_element(&refund.a);
        t.add_element(&x_a);
        t.add_element(&x_g);
        t.add_element(&y_a);
        t.add_element(&y_g);
        assert(t.items() =~= seq![scalar_encoding(refund@.e), refund@.a, x_a@, x_g@, y_a@, y_g@]);
        let gamma = t.challenge();
        if !gamma.ct_equals(&refund.gamma) {
            return Err(Error::InvalidRefundProof);
        }
        Ok(CreditToken::from_parts(refund.a, refund.e, self.k, self.r, self.m))
    }
}

} // verus!
