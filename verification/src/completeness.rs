//! Honest runs of the protocol are accepted: what a client builds honestly
//! the issuer accepts, what the issuer answers honestly the client accepts,
//! and every token that comes out is again a valid signature under the
//! issuer's key. Each law holds in the Ristretto group, whose structure
//! `Point::generator` establishes (`group_laws`).
use vstd::prelude::*;
use crate::algebra::{
    cong,
    exp_point,
    group_laws,
    is_point,
    lemma_cong_add,
    lemma_cong_mul,
    lemma_cong_ops,
    lemma_cong_sub,
    lemma_exp_add,
    lemma_exp_cong,
    lemma_exp_constants,
    lemma_exp_injective,
    lemma_exp_mul,
    lemma_exp_point_is_point,
    lemma_exp_sub,
    lemma_exponent_of,
    lemma_inverse,
};
use crate::issuance::{
    commit2,
    gen_mul,
    issued_token,
    request_k1,
    request_is_valid,
    request_model,
    response_is_valid,
    response_model,
    signed_point,
    ParamsModel,
    PreIssuanceModel,
    RequestModel,
    ResponseModel,
    TokenModel,
};
use crate::point::{generator_encoding, identity_encoding, ristretto_add, ristretto_mul, ristretto_sub};
use crate::scalar::{add_mod, group_order, mul_mod, neg_mod, scalar_inverse, sub_mod};
use crate::spend::{
    bit_of,
    bits_model,
    lemma_pow2_l,
    prerefund_model,
    refund_is_valid,
    refund_model,
    refund_point,
    refunded_token,
    spend_coms,
    spend_proof_model,
    spend_proof_is_valid,
    spend_branches,
    spend_items,
    recomputed_spend_items,
    verifier_branches_at,
    prover_branches_at,
    branch_commitment,
    bit_branch,
    real_at,
    gamma0_at,
    z_at,
    nonces_reduced,
    token_point,
    weighted_point_sum,
    weighted_scalar_sum,
    com_at,
    SpendNoncesModel,
    SpendProofModel,
    PreRefundModel,
    RefundModel,
};
use crate::L;
use vstd::arithmetic::div_mod::*;
use vstd::arithmetic::power2::*;

verus! {

/// The three generators are points of the group.
pub open spec fn params_valid(p: ParamsModel) -> bool {
    is_point(p.0) && is_point(p.1) && is_point(p.2)
}

/// The token carries a signature under the secret key `x`:
/// `A * (e + x) == G + h1 * c + h2 * k + h3 * r`.
pub open spec fn token_signed(p: ParamsModel, x: nat, t: TokenModel) -> bool {
    ristretto_mul(t.a, add_mod(t.e, x)) == token_point(p, t)
}

/// The scalars of a token are reduced and its signature point is a point
/// of the group.
pub open spec fn token_valid(t: TokenModel) -> bool {
    is_point(t.a) && t.e < group_order() && t.k < group_order() && t.r < group_order() && t.c
        < group_order()
}

/// The request is one that a client builds honestly from reduced secrets
/// and nonces.
pub open spec fn honest_request(p: ParamsModel, req: RequestModel) -> bool {
    exists|pre: PreIssuanceModel, k_prime: nat, r_prime: nat|
        pre.k < group_order() && pre.r < group_order() && k_prime < group_order() && r_prime
            < group_order() && req == #[trigger] request_model(p, pre, k_prime, r_prime)
}

/// The response is one that the issuer with secret key `x` builds honestly
/// for the request, with reduced nonces `e`, `alpha` for which `e + x` is
/// not zero.
pub open spec fn honest_response(
    p: ParamsModel,
    x: nat,
    req: RequestModel,
    resp: ResponseModel,
) -> bool {
    exists|c: nat, e: nat, alpha: nat|
        c < group_order() && e < group_order() && alpha < group_order() && add_mod(e, x) != 0
            && resp == #[trigger] response_model(x, gen_mul(x), p, req, c, e, alpha)
}

/// The spend proof is one that a client builds honestly, with reduced
/// nonces and nonzero blinding factors, from a token signed under `x`
/// whose signed point is not the identity, for a charge that leaves a
/// remainder below `2^L`.
pub open spec fn honest_spend(p: ParamsModel, x: nat, proof: SpendProofModel) -> bool {
    exists|t: TokenModel, s: nat, n: SpendNoncesModel|
        {
            &&& token_valid(t)
            &&& token_signed(p, x, t)
            &&& token_point(p, t) != identity_encoding()
            &&& s <= t.c
            &&& t.c - s < pow2(L as nat)
            &&& nonces_reduced(n)
            &&& n.r1 != 0
            &&& n.r2 != 0
            &&& proof == #[trigger] spend_proof_model(t, p, s, n)
        }
}

/// The client's spend proof and what it kept come from an honest spend of
/// a token with a remainder below `2^L`, and the refund is the one that the
/// issuer with secret key `x` builds honestly for that proof, with reduced
/// nonces `e`, `alpha` for which `e + x` is not zero.
pub open spec fn honest_refund(
    p: ParamsModel,
    x: nat,
    pre: PreRefundModel,
    proof: SpendProofModel,
    refund: RefundModel,
) -> bool {
    exists|t: TokenModel, s: nat, n: SpendNoncesModel, e: nat, alpha: nat|
        #![trigger spend_proof_model(t, p, s, n), refund_model(x, gen_mul(x), p, proof, e, alpha)]
        {
            &&& t.c < group_order()
            &&& s <= t.c
            &&& t.c - s < pow2(L as nat)
            &&& coms_nonces_reduced(n)
            &&& e < group_order()
            &&& alpha < group_order()
            &&& add_mod(e, x) != 0
            &&& proof == spend_proof_model(t, p, s, n)
            &&& pre == prerefund_model(t, s, n)
            &&& refund == refund_model(x, gen_mul(x), p, proof, e, alpha)
        }
}

/// The exponents of the three generators.
proof fn lemma_params_exponents(p: ParamsModel) -> (r: (int, int, int))
    requires
        group_laws(),
        params_valid(p),
    ensures
        p.0 == exp_point(r.0),
        p.1 == exp_point(r.1),
        p.2 == exp_point(r.2),
{
    let a1 = lemma_exponent_of(p.0);
    let a2 = lemma_exponent_of(p.1);
    let a3 = lemma_exponent_of(p.2);
    (a1, a2, a3)
}

proof fn lemma_commit2(p: ParamsModel, a2: int, a3: int, k: nat, r: nat)
    requires
        group_laws(),
        p.1 == exp_point(a2),
        p.2 == exp_point(a3),
        k < group_order(),
        r < group_order(),
    ensures
        commit2(p, k, r) == exp_point(a2 * k + a3 * r),
{
    lemma_exp_mul(a2, k);
    lemma_exp_mul(a3, r);
    lemma_exp_add(a2 * k, a3 * r);
}

/// `G + h1 * c + h2 * k + h3 * r` in exponents.
proof fn lemma_token_point(p: ParamsModel, a: (int, int, int), t: TokenModel)
    requires
        group_laws(),
        p.0 == exp_point(a.0),
        p.1 == exp_point(a.1),
        p.2 == exp_point(a.2),
        t.c < group_order(),
        t.k < group_order(),
        t.r < group_order(),
    ensures
        token_point(p, t) == exp_point(1 + a.0 * t.c + a.1 * t.k + a.2 * t.r),
{
    lemma_exp_constants(0);
    lemma_exp_mul(a.0, t.c);
    lemma_exp_mul(a.1, t.k);
    lemma_exp_mul(a.2, t.r);
    lemma_exp_add(1, a.0 * t.c);
    lemma_exp_add(1 + a.0 * t.c, a.1 * t.k);
    lemma_exp_add(1 + a.0 * t.c + a.1 * t.k, a.2 * t.r);
}

/// An issuance request that a client builds honestly, from reduced secrets
/// and nonces, is accepted by the issuer, for any amount of credits.
pub proof fn law_honest_request_is_accepted(
    p: ParamsModel,
    pre: PreIssuanceModel,
    k_prime: nat,
    r_prime: nat,
)
    requires
        group_laws(),
        params_valid(p),
        pre.k < group_order(),
        pre.r < group_order(),
        k_prime < group_order(),
        r_prime < group_order(),
    ensures
        request_is_valid(p, request_model(p, pre, k_prime, r_prime)),
{
    let a = lemma_params_exponents(p);
    let (a2, a3) = (a.1, a.2);
    let req = request_model(p, pre, k_prime, r_prime);
    let gn = req.gamma;
    let g = gn as int;
    let (k, r) = (pre.k as int, pre.r as int);
    let (kp, rp) = (k_prime as int, r_prime as int);
    let kb = req.k_bar as int;
    let rb = req.r_bar as int;
    lemma_commit2(p, a2, a3, pre.k, pre.r);
    lemma_commit2(p, a2, a3, k_prime, r_prime);
    lemma_commit2(p, a2, a3, req.k_bar, req.r_bar);
    let big = a2 * k + a3 * r;
    lemma_exp_mul(big, gn);
    lemma_exp_sub(a2 * kb + a3 * rb, big * g);
    assert(request_k1(p, req) == exp_point(a2 * kb + a3 * rb - big * g));
    lemma_cong_ops(pre.k, gn);
    lemma_cong_ops(k_prime, mul_mod(pre.k, gn));
    lemma_cong_add(kp, kp, mul_mod(pre.k, gn) as int, k * g);
    lemma_cong_ops(pre.r, gn);
    lemma_cong_ops(r_prime, mul_mod(pre.r, gn));
    lemma_cong_add(rp, rp, mul_mod(pre.r, gn) as int, r * g);
    assert(cong(kb, kp + k * g));
    assert(cong(rb, rp + r * g));
    lemma_cong_mul(a2, a2, kb, kp + k * g);
    lemma_cong_mul(a3, a3, rb, rp + r * g);
    lemma_cong_add(a2 * kb, a2 * (kp + k * g), a3 * rb, a3 * (rp + r * g));
    lemma_cong_sub(a2 * kb + a3 * rb, a2 * (kp + k * g) + a3 * (rp + r * g), big * g, big * g);
    assert(a2 * (kp + k * g) == a2 * kp + g * (a2 * k)) by (nonlinear_arith);
    assert(a3 * (rp + r * g) == a3 * rp + g * (a3 * r)) by (nonlinear_arith);
    assert(big * g == g * (a2 * k) + g * (a3 * r)) by (nonlinear_arith)
        requires
            big == a2 * k + a3 * r,
    ;
    lemma_exp_cong(a2 * kb + a3 * rb - big * g, a2 * kp + a3 * rp);
    assert(request_k1(p, req) == commit2(p, k_prime, r_prime));
}

/// The issuer's signature with nonce `e` on the point `x_a`, in exponents:
/// `a = x_a / (e + x)` signs `x_a`, and the proof that the issuer sends
/// with it verifies.
proof fn lemma_signature(xa: int, x: nat, e: nat, alpha: nat, gamma: nat)
    requires
        group_laws(),
        x < group_order(),
        e < group_order(),
        alpha < group_order(),
        gamma < group_order(),
        add_mod(e, x) != 0,
    ensures
        scalar_inverse(add_mod(e, x)) < group_order(),
        ristretto_mul(exp_point(xa), scalar_inverse(add_mod(e, x))) == exp_point(
            xa * scalar_inverse(add_mod(e, x)),
        ),
        ristretto_mul(exp_point(xa * scalar_inverse(add_mod(e, x))), add_mod(e, x)) == exp_point(
            xa,
        ),
        ristretto_add(gen_mul(e), gen_mul(x)) == exp_point(e as int + x as int),
        ristretto_mul(exp_point(xa * scalar_inverse(add_mod(e, x))), alpha) == exp_point(
            xa * scalar_inverse(add_mod(e, x)) * alpha,
        ),
        gen_mul(alpha) == exp_point(alpha as int),
        ristretto_add(
            ristretto_mul(
                exp_point(xa * scalar_inverse(add_mod(e, x))),
                add_mod(mul_mod(gamma, add_mod(x, e)), alpha),
            ),
            ristretto_mul(exp_point(xa), neg_mod(gamma)),
        ) == exp_point(xa * scalar_inverse(add_mod(e, x)) * alpha),
        ristretto_add(
            gen_mul(add_mod(mul_mod(gamma, add_mod(x, e)), alpha)),
            ristretto_mul(exp_point(e as int + x as int), neg_mod(gamma)),
        ) == exp_point(alpha as int),
{
    let v = add_mod(e, x);
    lemma_inverse(v);
    let invn = scalar_inverse(v);
    let inv = invn as int;
    let (xi, ei, al, g) = (x as int, e as int, alpha as int, gamma as int);
    lemma_exp_constants(x);
    lemma_exp_constants(e);
    lemma_exp_constants(alpha);
    let zn = add_mod(mul_mod(gamma, add_mod(x, e)), alpha);
    lemma_exp_constants(zn);
    let z = zn as int;
    let ngn = neg_mod(gamma);
    let ng = ngn as int;
    let a = xa * inv;
    lemma_exp_mul(xa, invn);
    lemma_exp_mul(a, v);
    lemma_exp_add(ei, xi);
    lemma_exp_mul(a, alpha);
    lemma_exp_mul(a, zn);
    lemma_exp_mul(xa, ngn);
    lemma_exp_add(a * z, xa * ng);
    lemma_exp_mul(ei + xi, ngn);
    lemma_exp_add(z, (ei + xi) * ng);
    // z = gamma (x + e) + alpha and ng = -gamma, modulo the order
    lemma_cong_ops(x, e);
    lemma_cong_ops(e, x);
    lemma_cong_ops(gamma, add_mod(x, e));
    lemma_cong_ops(mul_mod(gamma, add_mod(x, e)), alpha);
    lemma_cong_ops(gamma, 0);
    lemma_cong_mul(g, g, add_mod(x, e) as int, xi + ei);
    lemma_cong_add(mul_mod(gamma, add_mod(x, e)) as int, g * (xi + ei), al, al);
    assert(cong(z, g * (xi + ei) + al));
    assert(cong(ng, 0 - g));
    // a * v == xa
    lemma_cong_mul(xa, xa, v * inv, 1);
    assert(a * v == xa * (v * inv)) by (nonlinear_arith)
        requires
            a == xa * inv,
    ;
    // y_a
    lemma_cong_mul(a, a, z, g * (xi + ei) + al);
    lemma_cong_mul(xa, xa, ng, 0 - g);
    lemma_cong_add(a * z, a * (g * (xi + ei) + al), xa * ng, xa * (0 - g));
    lemma_cong_mul(inv, inv, v as int, ei + xi);
    lemma_cong_mul(xa * g, xa * g, inv * v, inv * (ei + xi));
    lemma_cong_mul(xa * g, xa * g, v * inv, 1);
    assert(inv * v == v * inv) by (nonlinear_arith);
    assert(a * (g * (xi + ei) + al) + xa * (0 - g) == a * al + (xa * g * (inv * (ei + xi)) - xa
        * g)) by (nonlinear_arith)
        requires
            a == xa * inv,
    ;
    lemma_cong_sub(xa * g * (inv * (ei + xi)), xa * g * 1, xa * g, xa * g);
    lemma_cong_add(a * al, a * al, xa * g * (inv * (ei + xi)) - xa * g, xa * g * 1 - xa * g);
    lemma_exp_cong(a * z + xa * ng, a * al);
    // y_g
    lemma_cong_mul(ei + xi, ei + xi, ng, 0 - g);
    lemma_cong_add(z, g * (xi + ei) + al, (ei + xi) * ng, (ei + xi) * (0 - g));
    assert(g * (xi + ei) + al + (ei + xi) * (0 - g) == al) by (nonlinear_arith);
    lemma_exp_cong(z + (ei + xi) * ng, al);
}

/// The issuer's answer to a request whose commitment is a point, with
/// reduced nonces `e` and `alpha` for which `e + x` is not zero, is
/// accepted by the client under the issuer's public key `G * x`. When the
/// request was built honestly from the client's secrets, the token that the
/// client then holds carries a signature under `x`.
pub proof fn law_honest_response_is_accepted(
    x: nat,
    p: ParamsModel,
    req: RequestModel,
    pre: PreIssuanceModel,
    c: nat,
    e: nat,
    alpha: nat,
)
    requires
        group_laws(),
        params_valid(p),
        is_point(req.big_k),
        x < group_order(),
        c < group_order(),
        e < group_order(),
        alpha < group_order(),
        add_mod(e, x) != 0,
        pre.k < group_order(),
        pre.r < group_order(),
    ensures
        response_is_valid(
            p,
            gen_mul(x),
            req.big_k,
            response_model(x, gen_mul(x), p, req, c, e, alpha),
        ),
        req.big_k == commit2(p, pre.k, pre.r) ==> token_signed(
            p,
            x,
            issued_token(pre, response_model(x, gen_mul(x), p, req, c, e, alpha)),
        ),
        token_valid(issued_token(pre, response_model(x, gen_mul(x), p, req, c, e, alpha))),
{
    let a = lemma_params_exponents(p);
    let kappa = lemma_exponent_of(req.big_k);
    lemma_exp_constants(c);
    lemma_exp_mul(a.0, c);
    lemma_exp_add(1, a.0 * c);
    lemma_exp_add(1 + a.0 * c, kappa);
    let xa = 1 + a.0 * c + kappa;
    assert(signed_point(p, c, req.big_k) == exp_point(xa));
    let resp = response_model(x, gen_mul(x), p, req, c, e, alpha);
    lemma_signature(xa, x, e, alpha, resp.gamma);
    lemma_exp_point_is_point(xa * scalar_inverse(add_mod(e, x)));
    if req.big_k == commit2(p, pre.k, pre.r) {
        lemma_commit2(p, a.1, a.2, pre.k, pre.r);
        lemma_exp_injective(kappa, a.1 * pre.k + a.2 * pre.r);
        let t = issued_token(pre, resp);
        lemma_token_point(p, a, t);
        lemma_cong_add(1 + a.0 * c, 1 + a.0 * c, kappa, a.1 * pre.k + a.2 * pre.r);
        assert(1 + a.0 * c + (a.1 * pre.k + a.2 * pre.r) == 1 + a.0 * t.c + a.1 * t.k + a.2 * t.r);
        lemma_exp_cong(xa, 1 + a.0 * t.c + a.1 * t.k + a.2 * t.r);
    }
}

/// `sum_{j < n} s[j] * 2^j` over the integers.
pub open spec fn int_weighted_sum(s: Seq<nat>, n: nat) -> int
    decreases n,
{
    if n == 0 {
        0
    } else {
        int_weighted_sum(s, (n - 1) as nat) + s[n - 1] * pow2((n - 1) as nat)
    }
}

proof fn lemma_pow2_below_order(j: nat)
    requires
        j < L,
    ensures
        pow2(j) < group_order(),
{
    lemma_pow2_l();
    lemma_pow2_strictly_increases(j, L as nat);
}

/// The weighted sum modulo `ℓ` is the integer weighted sum, modulo `ℓ`.
proof fn lemma_weighted_scalar_sum_cong(s: Seq<nat>, n: nat)
    requires
        n <= L,
        n <= s.len(),
    ensures
        cong(weighted_scalar_sum(s, n) as int, int_weighted_sum(s, n)),
    decreases n,
{
    if n > 0 {
        let j = (n - 1) as nat;
        lemma_weighted_scalar_sum_cong(s, j);
        lemma_cong_ops(s[j as int], pow2(j));
        lemma_cong_ops(weighted_scalar_sum(s, j), mul_mod(s[j as int], pow2(j)));
        lemma_cong_add(
            weighted_scalar_sum(s, j) as int,
            int_weighted_sum(s, j),
            mul_mod(s[j as int], pow2(j)) as int,
            s[j as int] as int * pow2(j) as int,
        );
    }
}

/// The bits of `m` below `n` sum to `m` modulo `2^n`.
proof fn lemma_bits_int_sum(m: nat, n: nat)
    requires
        n <= L,
    ensures
        int_weighted_sum(bits_model(m), n) == m % pow2(n),
    decreases n,
{
    lemma2_to64();
    if n == 0 {
        assert(m % 1 == 0);
    } else {
        let j: nat = (n - 1) as nat;
        lemma_bits_int_sum(m, j);
        assert(bits_model(m)[j as int] == bit_of(m, j));
        lemma_pow2_pos(j);
        lemma_pow2_adds(j, 1);
        lemma_breakdown(m as int, pow2(j) as int, 2);
        assert(pow2(j) * bit_of(m, j) == bit_of(m, j) * pow2(j)) by (nonlinear_arith);
    }
}

/// A weighted sum of points is a point.
proof fn lemma_weighted_point_sum_exponent(com: Seq<Seq<u8>>, n: nat) -> (e: int)
    requires
        group_laws(),
        n <= L,
        n <= com.len(),
        forall|j: int| 0 <= j < n ==> is_point(#[trigger] com[j]),
    ensures
        weighted_point_sum(com, n) == exp_point(e),
    decreases n,
{
    if n == 0 {
        lemma_exp_constants(0);
        0
    } else {
        let j = (n - 1) as nat;
        let prev = lemma_weighted_point_sum_exponent(com, j);
        assert(is_point(com[j as int]));
        let c = lemma_exponent_of(com[j as int]);
        lemma_pow2_below_order(j);
        lemma_exp_mul(c, pow2(j));
        lemma_exp_add(prev, c * pow2(j));
        prev + c * pow2(j)
    }
}

/// The issuer's refund for a spend proof whose commitments are points,
/// with reduced nonces `e` and `alpha` for which `e + x` is not zero, is
/// accepted by the client under the issuer's public key `G * x`.
pub proof fn law_honest_refund_is_accepted(
    x: nat,
    p: ParamsModel,
    proof: SpendProofModel,
    e: nat,
    alpha: nat,
)
    requires
        group_laws(),
        proof.com.len() == L,
        forall|j: int| 0 <= j < L ==> is_point(#[trigger] proof.com[j]),
        x < group_order(),
        e < group_order(),
        alpha < group_order(),
        add_mod(e, x) != 0,
    ensures
        refund_is_valid(p, gen_mul(x), proof.com, refund_model(x, gen_mul(x), p, proof, e, alpha)),
{
    let w = lemma_weighted_point_sum_exponent(proof.com, L as nat);
    lemma_exp_constants(0);
    lemma_exp_add(1, w);
    assert(refund_point(proof.com) == exp_point(1 + w));
    let rf = refund_model(x, gen_mul(x), p, proof, e, alpha);
    lemma_signature(1 + w, x, e, alpha, rf.gamma);
}

/// The range commitments of an honest spend, summed with weights `2^j`:
/// `h1 * m + h2 * k* + h3 * r*` when the balance `m` is below `2^L`.
proof fn lemma_spend_coms_sum(
    p: ParamsModel,
    a: (int, int, int),
    m: nat,
    n: SpendNoncesModel,
    k: nat,
)
    requires
        group_laws(),
        p.0 == exp_point(a.0),
        p.1 == exp_point(a.1),
        p.2 == exp_point(a.2),
        1 <= k <= L,
        n.k_star < group_order(),
        n.s_i.len() == L,
        forall|j: int| 0 <= j < L ==> #[trigger] n.s_i[j] < group_order(),
    ensures
        weighted_point_sum(spend_coms(p, m, n), k) == exp_point(
            a.0 * int_weighted_sum(bits_model(m), k) + a.1 * n.k_star + a.2 * int_weighted_sum(
                n.s_i,
                k,
            ),
        ),
        forall|j: int|
            0 <= j < L ==> #[trigger] spend_coms(p, m, n)[j] == exp_point(
                a.0 * bit_of(m, j as nat) + (if j == 0 {
                    a.1 * n.k_star
                } else {
                    0
                }) + a.2 * n.s_i[j],
            ),
    decreases k,
{
    let coms = spend_coms(p, m, n);
    assert forall|j: int| 0 <= j < L implies #[trigger] coms[j] == exp_point(
        a.0 * bit_of(m, j as nat) + (if j == 0 {
            a.1 * n.k_star
        } else {
            0
        }) + a.2 * n.s_i[j],
    ) by {
        let b = bit_of(m, j as nat);
        assert(b < 2);
        lemma_exp_mul(a.0, b);
        lemma_exp_mul(a.1, n.k_star);
        lemma_exp_mul(a.2, n.s_i[j]);
        if j == 0 {
            lemma_exp_add(a.0 * b, a.1 * n.k_star);
            lemma_exp_add(a.0 * b + a.1 * n.k_star, a.2 * n.s_i[j]);
        } else {
            lemma_exp_add(a.0 * b, a.2 * n.s_i[j]);
        }
    }
    let j = (k - 1) as nat;
    let bm = bits_model(m);
    assert(bm[j as int] == bit_of(m, j));
    let e_j = a.0 * bit_of(m, j) + (if j == 0 {
        a.1 * n.k_star
    } else {
        0
    }) + a.2 * n.s_i[j as int];
    assert(coms[j as int] == exp_point(e_j));
    lemma_pow2_below_order(j);
    lemma_exp_mul(e_j, pow2(j));
    if k == 1 {
        lemma_exp_constants(0);
        lemma_exp_add(0, e_j * pow2(j));
        assert(pow2(0) == 1) by {
            lemma2_to64();
        }
        assert(int_weighted_sum(bm, 0) == 0);
        assert(int_weighted_sum(n.s_i, 0) == 0);
        assert(int_weighted_sum(bm, 1) == bm[0] * 1);
        assert(int_weighted_sum(n.s_i, 1) == n.s_i[0] * 1);
        assert(e_j * 1 == a.0 * int_weighted_sum(bm, 1) + a.1 * n.k_star + a.2 * int_weighted_sum(
            n.s_i,
            1,
        )) by (nonlinear_arith)
            requires
                e_j == a.0 * bm[0] + a.1 * n.k_star + a.2 * n.s_i[0],
                int_weighted_sum(bm, 1) == bm[0] * 1,
                int_weighted_sum(n.s_i, 1) == n.s_i[0] * 1,
        ;
        assert(weighted_point_sum(coms, 1) == ristretto_add(weighted_point_sum(coms, 0), ristretto_mul(coms[0], pow2(0))));
        assert(weighted_point_sum(coms, k) == exp_point(0 + e_j * pow2(j)));
    } else {
        lemma_spend_coms_sum(p, a, m, n, j);
        let prev = a.0 * int_weighted_sum(bm, j) + a.1 * n.k_star + a.2 * int_weighted_sum(n.s_i, j);
        lemma_exp_add(prev, e_j * pow2(j));
        let pw = pow2(j) as int;
        assert(prev + e_j * pw == a.0 * int_weighted_sum(bm, k) + a.1 * n.k_star + a.2
            * int_weighted_sum(n.s_i, k)) by (nonlinear_arith)
            requires
                e_j == a.0 * bm[j as int] + a.2 * n.s_i[j as int],
                prev == a.0 * int_weighted_sum(bm, j) + a.1 * n.k_star + a.2 * int_weighted_sum(
                    n.s_i,
                    j,
                ),
                int_weighted_sum(bm, k) == int_weighted_sum(bm, j) + bm[j as int] * pw,
                int_weighted_sum(n.s_i, k) == int_weighted_sum(n.s_i, j) + n.s_i[j as int] * pw,
        ;
        assert(weighted_point_sum(coms, k) == exp_point(prev + e_j * pw));
    }
}

/// The reduced nonces of a spend, as far as the range commitments use them.
pub open spec fn coms_nonces_reduced(n: SpendNoncesModel) -> bool {
    &&& n.k_star < group_order()
    &&& n.s_i.len() == L
    &&& forall|j: int| 0 <= j < L ==> #[trigger] n.s_i[j] < group_order()
}

/// After an honest spend of `s` credits of a token `t` with `s <= c` and
/// `c - s < 2^L`, the token built from the issuer's honest refund holds
/// `c - s` credits under the fresh identifier and carries a signature
/// under the issuer's key, so it can be spent in turn.
pub proof fn law_refunded_token_is_signed(
    x: nat,
    p: ParamsModel,
    t: TokenModel,
    s: nat,
    n: SpendNoncesModel,
    e: nat,
    alpha: nat,
)
    requires
        group_laws(),
        params_valid(p),
        t.c < group_order(),
        s <= t.c,
        t.c - s < pow2(L as nat),
        coms_nonces_reduced(n),
        x < group_order(),
        e < group_order(),
        alpha < group_order(),
        add_mod(e, x) != 0,
    ensures
        ({
            let proof = spend_proof_model(t, p, s, n);
            let t2 = refunded_token(
                prerefund_model(t, s, n),
                refund_model(x, gen_mul(x), p, proof, e, alpha),
            );
            &&& refund_is_valid(p, gen_mul(x), proof.com, refund_model(x, gen_mul(x), p, proof, e, alpha))
            &&& token_signed(p, x, t2)
            &&& token_valid(t2)
            &&& t2.c == t.c - s
            &&& t2.k == n.k_star
        }),
{
    let a = lemma_params_exponents(p);
    let m: nat = (t.c - s) as nat;
    lemma_small_mod(m, group_order());
    assert(crate::scalar::sub_mod(t.c, s) == m);
    let proof = spend_proof_model(t, p, s, n);
    assert(proof.com == spend_coms(p, m, n));
    lemma_spend_coms_sum(p, a, m, n, L as nat);
    lemma_bits_int_sum(m, L as nat);
    lemma_small_mod(m, pow2(L as nat));
    let rs = int_weighted_sum(n.s_i, L as nat);
    let w = a.0 * m + a.1 * n.k_star + a.2 * rs;
    lemma_exp_constants(0);
    lemma_exp_add(1, w);
    let rf = refund_model(x, gen_mul(x), p, proof, e, alpha);
    lemma_signature(1 + w, x, e, alpha, rf.gamma);
    let pre = prerefund_model(t, s, n);
    let t2 = refunded_token(pre, rf);
    lemma_weighted_scalar_sum_cong(n.s_i, L as nat);
    lemma_pow2_l();
    let rstar = weighted_scalar_sum(n.s_i, L as nat);
    assert(rstar < group_order());
    lemma_token_point(p, a, t2);
    lemma_cong_mul(a.2, a.2, rstar as int, rs);
    lemma_cong_add(1 + a.0 * m + a.1 * n.k_star, 1 + a.0 * m + a.1 * n.k_star, a.2 * rstar, a.2 * rs);
    lemma_exp_cong(1 + a.0 * t2.c + a.1 * t2.k + a.2 * t2.r, 1 + w);
    lemma_exp_point_is_point((1 + w) * scalar_inverse(add_mod(e, x)));
    assert forall|j: int| 0 <= j < L implies is_point(#[trigger] proof.com[j]) by {
        lemma_exp_point_is_point(
            a.0 * bit_of(m, j as nat) + (if j == 0 {
                a.1 * n.k_star
            } else {
                0
            }) + a.2 * n.s_i[j],
        );
    }
    law_honest_refund_is_accepted(x, p, proof, e, alpha);
}

proof fn lemma_ring_a1(pp: int, q: int, g: int, e: int, ep: int, x: int, r2: int, r2p: int)
    ensures
        pp * ((0 - g) * e + ep) + q * (g * r2 + r2p) + pp * x * (0 - g) == pp * ep + q * r2p + g * (q
            * r2 - pp * (e + x)),
{
    assert(pp * ((0 - g) * e + ep) == pp * ep - g * (pp * e)) by (nonlinear_arith);
    assert(q * (g * r2 + r2p) == q * r2p + g * (q * r2)) by (nonlinear_arith);
    assert(pp * x * (0 - g) == 0 - g * (pp * x)) by (nonlinear_arith);
    assert(pp * (e + x) == pp * e + pp * x) by (nonlinear_arith);
    assert(g * (q * r2 - (pp * e + pp * x)) == g * (q * r2) - g * (pp * e) - g * (pp * x)) by (
    nonlinear_arith);
}

/// `a * b + c` modulo `ℓ`, and `-a * b + c`.
proof fn lemma_cong_affine(a: nat, b: nat, c: nat)
    ensures
        cong(add_mod(mul_mod(a, b), c) as int, a as int * b as int + c as int),
        cong(add_mod(mul_mod(neg_mod(a), b), c) as int, (0 - a) * b + c),
{
    lemma_cong_ops(a, b);
    lemma_cong_ops(mul_mod(a, b), c);
    lemma_cong_add(mul_mod(a, b) as int, a as int * b as int, c as int, c as int);
    lemma_cong_ops(a, 0);
    lemma_cong_ops(neg_mod(a), b);
    lemma_cong_mul(neg_mod(a) as int, 0 - a, b as int, b as int);
    lemma_cong_ops(mul_mod(neg_mod(a), b), c);
    lemma_cong_add(mul_mod(neg_mod(a), b) as int, (0 - a) * b, c as int, c as int);
}

/// A product of a nonzero scalar with something nonzero modulo `ℓ` is
/// nonzero modulo `ℓ`.
proof fn lemma_no_zero_divisors(a: int, b: nat)
    requires
        group_laws(),
        0 < b < group_order(),
        cong(a * b, 0),
    ensures
        cong(a, 0),
{
    lemma_inverse(b);
    let inv = scalar_inverse(b) as int;
    lemma_cong_mul(a * b, 0, inv, inv);
    lemma_cong_mul(a, a, b * inv, 1);
    assert(a * b * inv == a * (b * inv)) by (nonlinear_arith);
}

/// `e + x` of a signed token whose signed point is not the identity is not
/// zero, and its signature point is not the identity either.
proof fn lemma_signed_token_nonzero(p: ParamsModel, x: nat, t: TokenModel, alpha: int, beta: int)
    requires
        group_laws(),
        token_signed(p, x, t),
        token_point(p, t) != identity_encoding(),
        t.a == exp_point(alpha),
        token_point(p, t) == exp_point(beta),
        t.e < group_order(),
        x < group_order(),
    ensures
        add_mod(t.e, x) != 0,
        !cong(alpha, 0),
        !cong(beta, 0),
        cong(alpha * add_mod(t.e, x), beta),
{
    lemma_exp_constants(0);
    let v = add_mod(t.e, x);
    lemma_exp_mul(alpha, v);
    lemma_exp_injective(alpha * v, beta);
    if cong(beta, 0) {
        lemma_exp_cong(beta, 0);
    }
    if v == 0 {
        assert(alpha * v == 0) by (nonlinear_arith)
            requires
                v == 0,
        ;
    }
    if cong(alpha, 0) {
        lemma_cong_mul(alpha, 0, v as int, v as int);
    }
}

/// The first Schnorr commitment of a spend: the issuer recomputes the
/// client's `A' * e' + B_bar * r2'`.
proof fn lemma_spend_a1(
    x: nat,
    alpha: int,
    beta: int,
    rho: nat,
    r1: nat,
    r2: nat,
    e: nat,
    ep: nat,
    r2p: nat,
    gamma: nat,
)
    requires
        group_laws(),
        x < group_order(),
        e < group_order(),
        rho < group_order(),
        r1 < group_order(),
        r2 < group_order(),
        ep < group_order(),
        r2p < group_order(),
        gamma < group_order(),
        cong(alpha * add_mod(e, x), beta),
        cong(rho as int, r1 as int * r2 as int),
    ensures
        ({
            let a_prime = exp_point(alpha * rho);
            let b_bar = exp_point(beta * r1);
            let e_bar = add_mod(mul_mod(neg_mod(gamma), e), ep);
            let r2_bar = add_mod(mul_mod(gamma, r2), r2p);
            ristretto_add(
                ristretto_add(ristretto_mul(a_prime, e_bar), ristretto_mul(b_bar, r2_bar)),
                ristretto_mul(ristretto_mul(a_prime, x), neg_mod(gamma)),
            ) == ristretto_add(ristretto_mul(a_prime, ep), ristretto_mul(b_bar, r2p))
        }),
{
    let (al, be, rh) = (alpha, beta, rho as int);
    let (g, ei, xi) = (gamma as int, e as int, x as int);
    let e_bar = add_mod(mul_mod(neg_mod(gamma), e), ep);
    let r2_bar = add_mod(mul_mod(gamma, r2), r2p);
    let ng = neg_mod(gamma);
    lemma_exp_mul(al * rh, e_bar);
    lemma_exp_mul(be * r1, r2_bar);
    lemma_exp_add(al * rh * e_bar, be * r1 * r2_bar);
    lemma_exp_mul(al * rh, x);
    lemma_exp_mul(al * rh * xi, ng);
    lemma_exp_add(al * rh * e_bar + be * r1 * r2_bar, al * rh * xi * ng);
    lemma_exp_mul(al * rh, ep);
    lemma_exp_mul(be * r1, r2p);
    lemma_exp_add(al * rh * ep, be * r1 * r2p);
    lemma_cong_affine(gamma, e, ep);
    lemma_cong_affine(gamma, r2, r2p);
    lemma_cong_ops(gamma, 0);
    lemma_cong_ops(e, x);
    let lhs = al * rh * e_bar + be * r1 * r2_bar + al * rh * xi * ng;
    let mid = al * rh * ((0 - g) * ei + ep) + be * r1 * (g * r2 + r2p) + al * rh * xi * (0 - g);
    lemma_cong_mul(al * rh, al * rh, e_bar as int, (0 - g) * ei + ep);
    lemma_cong_mul(be * r1, be * r1, r2_bar as int, g * r2 + r2p);
    lemma_cong_mul(al * rh * xi, al * rh * xi, ng as int, 0 - g);
    lemma_cong_add(
        al * rh * e_bar,
        al * rh * ((0 - g) * ei + ep),
        be * r1 * r2_bar,
        be * r1 * (g * r2 + r2p),
    );
    lemma_cong_add(
        al * rh * e_bar + be * r1 * r2_bar,
        al * rh * ((0 - g) * ei + ep) + be * r1 * (g * r2 + r2p),
        al * rh * xi * ng,
        al * rh * xi * (0 - g),
    );
    lemma_ring_a1(al * rh, be * r1, g, ei, ep as int, xi, r2 as int, r2p as int);
    assert(mid == al * rh * ep + be * r1 * r2p + g * (be * r1 * r2 - al * rh * (ei + xi)));
    // alpha * rho * (e + x) == beta * r1 * r2 modulo the order
    lemma_cong_mul(al, al, add_mod(e, x) as int, ei + xi);
    lemma_cong_mul(al * (ei + xi), be, rh, r1 as int * r2 as int);
    assert(al * (ei + xi) * rh == al * rh * (ei + xi)) by (nonlinear_arith);
    assert(be * (r1 as int * r2 as int) == be * r1 * r2) by (nonlinear_arith);
    lemma_cong_sub(be * r1 * r2, be * r1 * r2, al * rh * (ei + xi), be * r1 * r2);
    lemma_cong_mul(g, g, be * r1 * r2 - al * rh * (ei + xi), 0);
    lemma_cong_add(al * rh * ep + be * r1 * r2p, al * rh * ep + be * r1 * r2p, g * (be * r1 * r2
        - al * rh * (ei + xi)), g * 0);
    lemma_exp_cong(lhs, al * rh * ep + be * r1 * r2p);
}

/// The second Schnorr commitment of a spend: the issuer recomputes the
/// client's `B_bar * r3' + h1 * c' + h3 * r'`.
proof fn lemma_spend_a2(
    p: ParamsModel,
    a: (int, int, int),
    t: TokenModel,
    r1: nat,
    r3p: nat,
    cp: nat,
    rp: nat,
    gamma: nat,
)
    requires
        group_laws(),
        p.0 == exp_point(a.0),
        p.1 == exp_point(a.1),
        p.2 == exp_point(a.2),
        t.c < group_order(),
        t.k < group_order(),
        t.r < group_order(),
        0 < r1 < group_order(),
        r3p < group_order(),
        cp < group_order(),
        rp < group_order(),
        gamma < group_order(),
    ensures
        ({
            let beta = 1 + a.0 * t.c + a.1 * t.k + a.2 * t.r;
            let b_bar = exp_point(beta * r1);
            let r3_bar = add_mod(mul_mod(gamma, scalar_inverse(r1)), r3p);
            let c_bar = add_mod(mul_mod(neg_mod(gamma), t.c), cp);
            let r_bar = add_mod(mul_mod(neg_mod(gamma), t.r), rp);
            let big_h1 = ristretto_add(generator_encoding(), ristretto_mul(p.1, t.k));
            ristretto_add(
                ristretto_add(
                    ristretto_add(ristretto_mul(b_bar, r3_bar), ristretto_mul(p.0, c_bar)),
                    ristretto_mul(p.2, r_bar),
                ),
                ristretto_mul(big_h1, neg_mod(gamma)),
            ) == ristretto_add(
                ristretto_add(ristretto_mul(b_bar, r3p), ristretto_mul(p.0, cp)),
                ristretto_mul(p.2, rp),
            )
        }),
{
    let (a1, a2, a3) = (a.0, a.1, a.2);
    let (c, k, r) = (t.c as int, t.k as int, t.r as int);
    let g = gamma as int;
    let beta = 1 + a1 * c + a2 * k + a3 * r;
    let q = beta * r1;
    lemma_inverse(r1);
    let r3n = scalar_inverse(r1);
    let r3 = r3n as int;
    let r3_bar = add_mod(mul_mod(gamma, r3n), r3p);
    let c_bar = add_mod(mul_mod(neg_mod(gamma), t.c), cp);
    let r_bar = add_mod(mul_mod(neg_mod(gamma), t.r), rp);
    let ng = neg_mod(gamma);
    lemma_exp_constants(0);
    lemma_exp_mul(a2, t.k);
    lemma_exp_add(1, a2 * k);
    lemma_exp_mul(q, r3_bar);
    lemma_exp_mul(a1, c_bar);
    lemma_exp_mul(a3, r_bar);
    lemma_exp_mul(1 + a2 * k, ng);
    lemma_exp_add(q * r3_bar, a1 * c_bar);
    lemma_exp_add(q * r3_bar + a1 * c_bar, a3 * r_bar);
    lemma_exp_add(q * r3_bar + a1 * c_bar + a3 * r_bar, (1 + a2 * k) * ng);
    lemma_exp_mul(q, r3p);
    lemma_exp_mul(a1, cp);
    lemma_exp_mul(a3, rp);
    lemma_exp_add(q * r3p, a1 * cp);
    lemma_exp_add(q * r3p + a1 * cp, a3 * rp);
    lemma_cong_affine(gamma, r3n, r3p);
    lemma_cong_affine(gamma, t.c, cp);
    lemma_cong_affine(gamma, t.r, rp);
    lemma_cong_ops(gamma, 0);
    lemma_cong_mul(q, q, r3_bar as int, g * r3 + r3p);
    lemma_cong_mul(a1, a1, c_bar as int, (0 - g) * c + cp);
    lemma_cong_mul(a3, a3, r_bar as int, (0 - g) * r + rp);
    lemma_cong_mul(1 + a2 * k, 1 + a2 * k, ng as int, 0 - g);
    lemma_cong_add(q * r3_bar, q * (g * r3 + r3p), a1 * c_bar, a1 * ((0 - g) * c + cp));
    lemma_cong_add(
        q * r3_bar + a1 * c_bar,
        q * (g * r3 + r3p) + a1 * ((0 - g) * c + cp),
        a3 * r_bar,
        a3 * ((0 - g) * r + rp),
    );
    lemma_cong_add(
        q * r3_bar + a1 * c_bar + a3 * r_bar,
        q * (g * r3 + r3p) + a1 * ((0 - g) * c + cp) + a3 * ((0 - g) * r + rp),
        (1 + a2 * k) * ng,
        (1 + a2 * k) * (0 - g),
    );
    // the expanded exponent
    assert(q * (g * r3 + r3p) == q * r3p + g * (q * r3)) by (nonlinear_arith);
    assert(a1 * ((0 - g) * c + cp) == a1 * cp - g * (a1 * c)) by (nonlinear_arith);
    assert(a3 * ((0 - g) * r + rp) == a3 * rp - g * (a3 * r)) by (nonlinear_arith);
    assert((1 + a2 * k) * (0 - g) == 0 - g * (1 + a2 * k)) by (nonlinear_arith);
    let bracket = q * r3 - a1 * c - a3 * r - (1 + a2 * k);
    assert(g * (q * r3) - g * (a1 * c) - g * (a3 * r) - g * (1 + a2 * k) == g * bracket) by (
    nonlinear_arith)
        requires
            bracket == q * r3 - a1 * c - a3 * r - (1 + a2 * k),
    ;
    // q * r3 == beta modulo the order
    assert(q * r3 == beta * (r1 * r3)) by (nonlinear_arith)
        requires
            q == beta * r1,
    ;
    lemma_cong_mul(beta, beta, r1 * r3, 1);
    assert(bracket == q * r3 - beta);
    lemma_cong_sub(q * r3, beta, beta, beta);
    lemma_cong_mul(g, g, bracket, 0);
    lemma_cong_add(q * r3p + a1 * cp + a3 * rp, q * r3p + a1 * cp + a3 * rp, g * bracket, g * 0);
    lemma_exp_cong(
        q * r3_bar + a1 * c_bar + a3 * r_bar + (1 + a2 * k) * ng,
        q * r3p + a1 * cp + a3 * rp,
    );
}

/// The commitment to the sum of the range proof: the issuer recomputes the
/// client's `h1 * (-c') + h2 * k' + h3 * s'`.
proof fn lemma_spend_big_c(
    p: ParamsModel,
    a: (int, int, int),
    c: nat,
    s: nat,
    ks: nat,
    rstar: nat,
    rs: int,
    cp: nat,
    kp: nat,
    sp: nat,
    gamma: nat,
)
    requires
        group_laws(),
        p.0 == exp_point(a.0),
        p.1 == exp_point(a.1),
        p.2 == exp_point(a.2),
        c < group_order(),
        s <= c,
        ks < group_order(),
        rstar < group_order(),
        cong(rstar as int, rs),
        cp < group_order(),
        kp < group_order(),
        sp < group_order(),
        gamma < group_order(),
    ensures
        ({
            let c_bar = add_mod(mul_mod(neg_mod(gamma), c), cp);
            let k_bar = add_mod(mul_mod(gamma, ks), kp);
            let s_bar = add_mod(mul_mod(gamma, rstar), sp);
            let com_ = ristretto_add(
                ristretto_mul(p.0, s),
                exp_point(a.0 * (c - s) + a.1 * ks + a.2 * rs),
            );
            ristretto_sub(
                ristretto_add(
                    ristretto_add(ristretto_mul(p.0, neg_mod(c_bar)), ristretto_mul(p.1, k_bar)),
                    ristretto_mul(p.2, s_bar),
                ),
                ristretto_mul(com_, gamma),
            ) == ristretto_add(
                ristretto_add(ristretto_mul(p.0, neg_mod(cp)), ristretto_mul(p.1, kp)),
                ristretto_mul(p.2, sp),
            )
        }),
{
    let (a1, a2, a3) = (a.0, a.1, a.2);
    let g = gamma as int;
    let m = c - s;
    let c_bar = add_mod(mul_mod(neg_mod(gamma), c), cp);
    let k_bar = add_mod(mul_mod(gamma, ks), kp);
    let s_bar = add_mod(mul_mod(gamma, rstar), sp);
    let nc = neg_mod(c_bar);
    let w = a1 * m + a2 * ks + a3 * rs;
    lemma_exp_mul(a1, s);
    lemma_exp_add(a1 * s, w);
    lemma_exp_mul(a1 * s + w, gamma);
    lemma_exp_mul(a1, nc);
    lemma_exp_mul(a2, k_bar);
    lemma_exp_mul(a3, s_bar);
    lemma_exp_add(a1 * nc, a2 * k_bar);
    lemma_exp_add(a1 * nc + a2 * k_bar, a3 * s_bar);
    lemma_exp_sub(a1 * nc + a2 * k_bar + a3 * s_bar, (a1 * s + w) * g);
    lemma_exp_mul(a1, neg_mod(cp));
    lemma_exp_mul(a2, kp);
    lemma_exp_mul(a3, sp);
    lemma_exp_add(a1 * neg_mod(cp), a2 * kp);
    lemma_exp_add(a1 * neg_mod(cp) + a2 * kp, a3 * sp);
    lemma_cong_affine(gamma, c, cp);
    lemma_cong_affine(gamma, ks, kp);
    lemma_cong_affine(gamma, rstar, sp);
    lemma_cong_ops(c_bar, 0);
    lemma_cong_ops(cp, 0);
    lemma_cong_sub(0, 0, c_bar as int, (0 - g) * c + cp);
    // -c_bar == gamma c - c'
    lemma_cong_mul(a1, a1, nc as int, 0 - ((0 - g) * c + cp));
    lemma_cong_mul(a2, a2, k_bar as int, g * ks + kp);
    lemma_cong_mul(g, g, rstar as int, rs);
    lemma_cong_add(g * rstar, g * rs, sp as int, sp as int);
    lemma_cong_mul(a3, a3, s_bar as int, g * rs + sp);
    lemma_cong_add(a1 * nc, a1 * (0 - ((0 - g) * c + cp)), a2 * k_bar, a2 * (g * ks + kp));
    lemma_cong_add(
        a1 * nc + a2 * k_bar,
        a1 * (0 - ((0 - g) * c + cp)) + a2 * (g * ks + kp),
        a3 * s_bar,
        a3 * (g * rs + sp),
    );
    lemma_cong_sub(
        a1 * nc + a2 * k_bar + a3 * s_bar,
        a1 * (0 - ((0 - g) * c + cp)) + a2 * (g * ks + kp) + a3 * (g * rs + sp),
        (a1 * s + w) * g,
        (a1 * s + w) * g,
    );
    assert(a1 * (0 - ((0 - g) * c + cp)) == g * (a1 * c) - a1 * cp) by (nonlinear_arith);
    assert(a2 * (g * ks + kp) == g * (a2 * ks) + a2 * kp) by (nonlinear_arith);
    assert(a3 * (g * rs + sp) == g * (a3 * rs) + a3 * sp) by (nonlinear_arith);
    assert(a1 * s + w == a1 * c + a2 * ks + a3 * rs) by (nonlinear_arith)
        requires
            w == a1 * m + a2 * ks + a3 * rs,
            m == c - s,
    ;
    assert((a1 * c + a2 * ks + a3 * rs) * g == g * (a1 * c) + g * (a2 * ks) + g * (a3 * rs)) by (
    nonlinear_arith);
    lemma_cong_mul(a1, a1, neg_mod(cp) as int, 0 - cp);
    assert(a1 * (0 - cp) == 0 - a1 * cp) by (nonlinear_arith);
    lemma_cong_add(a1 * neg_mod(cp), 0 - a1 * cp, a2 * kp + a3 * sp, a2 * kp + a3 * sp);
    lemma_exp_cong(
        a1 * nc + a2 * k_bar + a3 * s_bar - (a1 * s + w) * g,
        a1 * neg_mod(cp) + a2 * kp + a3 * sp,
    );
}

/// Taking the other side's challenge twice gives the challenge back.
proof fn lemma_sub_sub(g: nat, x: nat)
    requires
        g < group_order(),
        x < group_order(),
    ensures
        sub_mod(g, sub_mod(g, x)) == x,
{
    lemma_cong_ops(g, x);
    lemma_cong_ops(g, sub_mod(g, x));
    lemma_cong_sub(g as int, g as int, sub_mod(g, x) as int, g - x);
    lemma_small_mod(x, group_order());
    lemma_small_mod(sub_mod(g, sub_mod(g, x)), group_order());
}

/// A branch commitment recomputed from the responses of the branch that
/// the prover knows an opening of is that branch's real commitment.
proof fn lemma_real_branch(
    p: ParamsModel,
    a: (int, int, int),
    j: int,
    w: nat,
    z: nat,
    be: int,
    g: nat,
    ks: nat,
    s: nat,
    k0p: nat,
    sp: nat,
)
    requires
        group_laws(),
        p.1 == exp_point(a.1),
        p.2 == exp_point(a.2),
        j == 0 ==> w < group_order(),
        z < group_order(),
        g < group_order(),
        ks < group_order(),
        s < group_order(),
        k0p < group_order(),
        sp < group_order(),
        be == (if j == 0 {
            a.1 * ks
        } else {
            0
        }) + a.2 * s,
        j == 0 ==> cong(w as int, g as int * ks as int + k0p as int),
        cong(z as int, g as int * s as int + sp as int),
    ensures
        branch_commitment(p, j, w, z, exp_point(be), g) == real_at(p, k0p, sp, j),
{
    let (a2, a3) = (a.1, a.2);
    let gi = g as int;
    lemma_exp_mul(a3, z);
    lemma_exp_mul(be, g);
    lemma_exp_mul(a2, k0p);
    lemma_exp_mul(a3, sp);
    lemma_cong_mul(a3, a3, z as int, gi * s + sp);
    assert(a3 * (gi * s + sp) == gi * (a3 * s) + a3 * sp) by (nonlinear_arith);
    if j == 0 {
        lemma_exp_mul(a2, w);
        lemma_exp_add(a2 * w, a3 * z);
        lemma_exp_sub(a2 * w + a3 * z, be * gi);
        lemma_exp_add(a2 * k0p, a3 * sp);
        lemma_cong_mul(a2, a2, w as int, gi * ks + k0p);
        assert(a2 * (gi * ks + k0p) == gi * (a2 * ks) + a2 * k0p) by (nonlinear_arith);
        assert(be * gi == gi * (a2 * ks) + gi * (a3 * s)) by (nonlinear_arith)
            requires
                be == a2 * ks + a3 * s,
        ;
        lemma_cong_add(a2 * w, a2 * (gi * ks + k0p), a3 * z, a3 * (gi * s + sp));
        lemma_cong_sub(
            a2 * w + a3 * z,
            a2 * (gi * ks + k0p) + a3 * (gi * s + sp),
            be * gi,
            be * gi,
        );
        lemma_exp_cong(a2 * w + a3 * z - be * gi, a2 * k0p + a3 * sp);
    } else {
        lemma_exp_sub(a3 * z, be * gi);
        assert(be * gi == gi * (a3 * s)) by (nonlinear_arith)
            requires
                be == a3 * s,
        ;
        lemma_cong_sub(a3 * z, a3 * (gi * s + sp), be * gi, be * gi);
        lemma_exp_cong(a3 * z - be * gi, a3 * sp);
    }
}

/// The two branch commitments of bit `j` that the issuer recomputes are
/// the ones that the client sent.
proof fn lemma_spend_branch(
    p: ParamsModel,
    a: (int, int, int),
    m: nat,
    n: SpendNoncesModel,
    gamma: nat,
    w00: nat,
    w01: nat,
    j: int,
)
    requires
        group_laws(),
        p.0 == exp_point(a.0),
        p.1 == exp_point(a.1),
        p.2 == exp_point(a.2),
        0 <= j < L,
        nonces_reduced(n),
        gamma < group_order(),
        j == 0 ==> w00 == (if bit_of(m, 0) == 0 {
            add_mod(mul_mod(gamma0_at(gamma, bit_of(m, 0), n.gamma_i[0]), n.k_star), n.k0_prime)
        } else {
            n.w0
        }),
        j == 0 ==> w01 == (if bit_of(m, 0) == 0 {
            n.w0
        } else {
            add_mod(
                mul_mod(sub_mod(gamma, gamma0_at(gamma, bit_of(m, 0), n.gamma_i[0])), n.k_star),
                n.k0_prime,
            )
        }),
    ensures
        ({
            let bit = bit_of(m, j as nat);
            let com = com_at(p, bit, n.k_star, n.s_i[j], j);
            let g0 = gamma0_at(gamma, bit, n.gamma_i[j]);
            let zz = z_at(gamma, bit, n.gamma_i[j], n.s_i[j], n.s_i_prime[j], n.z[j]);
            (
                branch_commitment(p, j, w00, zz.0, bit_branch(p, com, 0), g0),
                branch_commitment(p, j, w01, zz.1, bit_branch(p, com, 1), sub_mod(gamma, g0)),
            ) == prover_branches_at(
                p,
                bit,
                com,
                real_at(p, n.k0_prime, n.s_i_prime[j], j),
                n.w0,
                n.z[j],
                n.gamma_i[j],
                j,
            )
        }),
{
    let bit = bit_of(m, j as nat);
    assert(bit < 2);
    let (a1, a2, a3) = (a.0, a.1, a.2);
    let ks = n.k_star;
    let s = n.s_i[j];
    let sp = n.s_i_prime[j];
    let gj = n.gamma_i[j];
    assert(s < group_order() && sp < group_order() && gj < group_order() && n.z[j] < group_order());
    let com = com_at(p, bit, ks, s, j);
    let be = (if j == 0 {
        a2 * ks
    } else {
        0
    }) + a3 * s;
    let ce = a1 * bit + be;
    lemma_exp_mul(a1, bit);
    lemma_exp_mul(a2, ks);
    lemma_exp_mul(a3, s);
    if j == 0 {
        lemma_exp_add(a1 * bit, a2 * ks);
        lemma_exp_add(a1 * bit + a2 * ks, a3 * s);
    } else {
        lemma_exp_add(a1 * bit, a3 * s);
    }
    assert(com == exp_point(ce));
    lemma_exp_sub(ce, a1);
    let g0 = gamma0_at(gamma, bit, gj);
    lemma_sub_sub(gamma, gj);
    if bit == 0 {
        assert(ce == be);
        assert(bit_branch(p, com, 0) == exp_point(be));
        lemma_cong_affine(g0, s, sp);
        if j == 0 {
            lemma_cong_affine(g0, ks, n.k0_prime);
        }
        lemma_real_branch(p, a, j, w00, add_mod(mul_mod(g0, s), sp), be, g0, ks, s, n.k0_prime, sp);
    } else {
        assert(ce - a1 == be) by (nonlinear_arith)
            requires
                ce == a1 * bit + be,
                bit == 1,
        ;
        assert(bit_branch(p, com, 1) == exp_point(be));
        let d = sub_mod(gamma, g0);
        lemma_cong_affine(d, s, sp);
        if j == 0 {
            lemma_cong_affine(d, ks, n.k0_prime);
        }
        lemma_real_branch(p, a, j, w01, add_mod(mul_mod(d, s), sp), be, d, ks, s, n.k0_prime, sp);
    }
}

/// A spend that a client builds honestly, with reduced nonces and nonzero
/// blinding factors `r1`, `r2`, from a token signed under the issuer's key
/// `x` (whose signed point is not the identity), of `s` credits with
/// `s <= c` and a remainder `c - s` below `2^L`, is accepted by the issuer:
/// its blinded signature point is not the identity and its proof verifies.
pub proof fn law_honest_spend_is_accepted(
    x: nat,
    p: ParamsModel,
    t: TokenModel,
    s: nat,
    n: SpendNoncesModel,
)
    requires
        group_laws(),
        params_valid(p),
        token_valid(t),
        x < group_order(),
        token_signed(p, x, t),
        token_point(p, t) != identity_encoding(),
        s <= t.c,
        t.c - s < pow2(L as nat),
        nonces_reduced(n),
        n.r1 != 0,
        n.r2 != 0,
    ensures
        spend_proof_model(t, p, s, n).a_prime != identity_encoding(),
        spend_proof_is_valid(p, x, spend_proof_model(t, p, s, n)),
{
    let a = lemma_params_exponents(p);
    let alpha = lemma_exponent_of(t.a);
    lemma_token_point(p, a, t);
    let beta = 1 + a.0 * t.c + a.1 * t.k + a.2 * t.r;
    lemma_signed_token_nonzero(p, x, t, alpha, beta);
    let m: nat = (t.c - s) as nat;
    lemma_small_mod(m, group_order());
    assert(sub_mod(t.c, s) == m);
    let proof = spend_proof_model(t, p, s, n);
    let gamma = proof.gamma;
    // the blinded signature point
    let rho = mul_mod(n.r1, n.r2);
    lemma_cong_ops(n.r1, n.r2);
    lemma_exp_mul(alpha, rho);
    assert(proof.a_prime == exp_point(alpha * rho));
    lemma_exp_constants(0);
    if rho == 0 {
        lemma_no_zero_divisors(n.r1 as int, n.r2);
        lemma_small_mod(n.r1, group_order());
    }
    if proof.a_prime == identity_encoding() {
        lemma_exp_injective(alpha * rho, 0);
        lemma_no_zero_divisors(alpha, rho);
    }
    lemma_exp_mul(beta, n.r1);
    assert(proof.b_bar == exp_point(beta * n.r1));
    // the two Schnorr commitments
    lemma_spend_a1(x, alpha, beta, rho, n.r1, n.r2, t.e, n.e_prime, n.r2_prime, gamma);
    lemma_spend_a2(p, a, t, n.r1, n.r3_prime, n.c_prime, n.r_prime, gamma);
    // the commitment to the sum of the range proof
    lemma_spend_coms_sum(p, a, m, n, L as nat);
    lemma_bits_int_sum(m, L as nat);
    lemma_small_mod(m, pow2(L as nat));
    let rs = int_weighted_sum(n.s_i, L as nat);
    lemma_weighted_scalar_sum_cong(n.s_i, L as nat);
    let rstar = weighted_scalar_sum(n.s_i, L as nat);
    assert(weighted_point_sum(proof.com, L as nat) == exp_point(a.0 * (t.c - s) + a.1 * n.k_star
        + a.2 * rs));
    lemma_spend_big_c(
        p,
        a,
        t.c,
        s,
        n.k_star,
        rstar,
        rs,
        n.c_prime,
        n.k_prime,
        n.s_prime,
        gamma,
    );
    // the range proof branches
    let vb = Seq::new(L as nat, |j: int| verifier_branches_at(p, proof, j));
    let pb = spend_branches(p, m, n);
    assert forall|j: int| 0 <= j < L implies #[trigger] vb[j] == pb[j] by {
        lemma_spend_branch(p, a, m, n, gamma, proof.w00, proof.w01, j);
    }
    assert(vb =~= pb);
    assert(recomputed_spend_items(p, x, proof) == spend_items(
        t.k,
        proof.a_prime,
        proof.b_bar,
        ristretto_add(
            ristretto_mul(proof.a_prime, n.e_prime),
            ristretto_mul(proof.b_bar, n.r2_prime),
        ),
        ristretto_add(
            ristretto_add(ristretto_mul(proof.b_bar, n.r3_prime), ristretto_mul(p.0, n.c_prime)),
            ristretto_mul(p.2, n.r_prime),
        ),
        proof.com,
        pb,
        ristretto_add(
            ristretto_add(ristretto_mul(p.0, neg_mod(n.c_prime)), ristretto_mul(p.1, n.k_prime)),
            ristretto_mul(p.2, n.s_prime),
        ),
    ));
}

} // verus!
