//! Computing in the Ristretto group through exponents of the generator.
//!
//! Under the group structure that `Point::generator` establishes, every
//! point is `g * x` for an integer `x` taken modulo `ℓ`, and the group
//! operations act on these exponents as integer arithmetic modulo `ℓ`.
use vstd::prelude::*;
use vstd::arithmetic::div_mod::*;
use crate::point::{
    generates_prime_order_group,
    generator_encoding,
    identity_encoding,
    ristretto_add,
    ristretto_decodes,
    ristretto_mul,
    ristretto_sub,
};
use crate::scalar::{add_mod, group_order, has_inverse, mul_mod, neg_mod, scalar_inverse, sub_mod};

verus! {

/// The group structure of the Ristretto encodings, through its generator.
pub open spec fn group_laws() -> bool {
    generates_prime_order_group(generator_encoding())
}

/// `g * x` for the generator `g` and an integer `x`, taken modulo `ℓ`.
pub open spec fn exp_point(x: int) -> Seq<u8> {
    ristretto_mul(generator_encoding(), (x % (group_order() as int)) as nat)
}

/// `x` and `y` are equal modulo `ℓ`.
pub open spec fn cong(x: int, y: int) -> bool {
    x % (group_order() as int) == y % (group_order() as int)
}

/// A point of the group.
pub open spec fn is_point(pt: Seq<u8>) -> bool {
    pt.len() == 32 && ristretto_decodes(pt)
}

pub proof fn lemma_exp_point_is_point(x: int)
    requires
        group_laws(),
    ensures
        is_point(exp_point(x)),
{
    reveal(generates_prime_order_group);
    let a: nat = (x % (group_order() as int)) as nat;
    assert(a < group_order());
    assert(ristretto_mul(generator_encoding(), a).len() == 32);
}

/// Every point is `g * a` for some exponent `a`.
pub proof fn lemma_exponent_of(pt: Seq<u8>) -> (a: int)
    requires
        group_laws(),
        is_point(pt),
    ensures
        pt == exp_point(a),
        0 <= a < group_order(),
{
    reveal(generates_prime_order_group);
    assert(ristretto_decodes(pt));
    let a: nat = choose|a: nat| a < group_order() && pt == #[trigger] ristretto_mul(generator_encoding(), a);
    lemma_small_mod(a, group_order());
    a as int
}

/// Exponents equal modulo `ℓ` give the same point.
pub proof fn lemma_exp_cong(x: int, y: int)
    requires
        cong(x, y),
    ensures
        exp_point(x) == exp_point(y),
{
}

/// Equal points have exponents equal modulo `ℓ`.
pub proof fn lemma_exp_injective(x: int, y: int)
    requires
        group_laws(),
        exp_point(x) == exp_point(y),
    ensures
        cong(x, y),
{
    reveal(generates_prime_order_group);
    let a: nat = (x % (group_order() as int)) as nat;
    let b: nat = (y % (group_order() as int)) as nat;
    assert(ristretto_mul(generator_encoding(), a) == ristretto_mul(generator_encoding(), b));
}

pub proof fn lemma_exp_add(x: int, y: int)
    requires
        group_laws(),
    ensures
        ristretto_add(exp_point(x), exp_point(y)) == exp_point(x + y),
{
    reveal(generates_prime_order_group);
    let m = group_order() as int;
    let a: nat = (x % m) as nat;
    let b: nat = (y % m) as nat;
    assert(ristretto_add(ristretto_mul(generator_encoding(), a), ristretto_mul(generator_encoding(), b))
        == ristretto_mul(generator_encoding(), add_mod(a, b)));
    lemma_add_mod_noop(x, y, m);
}

pub proof fn lemma_exp_sub(x: int, y: int)
    requires
        group_laws(),
    ensures
        ristretto_sub(exp_point(x), exp_point(y)) == exp_point(x - y),
{
    reveal(generates_prime_order_group);
    let m = group_order() as int;
    let a: nat = (x % m) as nat;
    let b: nat = (y % m) as nat;
    assert(ristretto_sub(ristretto_mul(generator_encoding(), a), ristretto_mul(generator_encoding(), b))
        == ristretto_mul(generator_encoding(), sub_mod(a, b)));
    lemma_sub_mod_noop(x, y, m);
    lemma_mod_bound(a - b, m);
}

pub proof fn lemma_exp_mul(x: int, s: nat)
    requires
        group_laws(),
        s < group_order(),
    ensures
        ristretto_mul(exp_point(x), s) == exp_point(x * s),
{
    reveal(generates_prime_order_group);
    let m = group_order() as int;
    let a: nat = (x % m) as nat;
    assert(ristretto_mul(ristretto_mul(generator_encoding(), a), s) == ristretto_mul(
        generator_encoding(),
        mul_mod(a, s),
    ));
    lemma_mul_mod_noop_left(x, s as int, m);
}

/// The identity is `g * 0`, the generator `g * 1`, and `g * s` is the
/// exponent point of `s`.
pub proof fn lemma_exp_constants(s: nat)
    requires
        group_laws(),
        s < group_order(),
    ensures
        exp_point(0) == identity_encoding(),
        exp_point(1) == generator_encoding(),
        exp_point(s as int) == ristretto_mul(generator_encoding(), s),
{
    reveal(generates_prime_order_group);
    lemma_small_mod(s, group_order());
    lemma_small_mod(1, group_order());
    lemma_small_mod(0, group_order());
}

/// A nonzero scalar times its inverse is one.
pub proof fn lemma_inverse(v: nat)
    requires
        group_laws(),
        0 < v < group_order(),
    ensures
        scalar_inverse(v) < group_order(),
        cong(v * scalar_inverse(v) as int, 1int),
{
    reveal(generates_prime_order_group);
    assert(has_inverse(v));
    let b = scalar_inverse(v);
    assert(mul_mod(v, b) == 1);
    lemma_small_mod(1, group_order());
}

pub proof fn lemma_cong_add(a: int, b: int, c: int, d: int)
    requires
        cong(a, b),
        cong(c, d),
    ensures
        cong(a + c, b + d),
{
    let m = group_order() as int;
    lemma_add_mod_noop(a, c, m);
    lemma_add_mod_noop(b, d, m);
}

pub proof fn lemma_cong_sub(a: int, b: int, c: int, d: int)
    requires
        cong(a, b),
        cong(c, d),
    ensures
        cong(a - c, b - d),
{
    let m = group_order() as int;
    lemma_sub_mod_noop(a, c, m);
    lemma_sub_mod_noop(b, d, m);
}

pub proof fn lemma_cong_mul(a: int, b: int, c: int, d: int)
    requires
        cong(a, b),
        cong(c, d),
    ensures
        cong(a * c, b * d),
{
    let m = group_order() as int;
    lemma_mul_mod_noop(a, c, m);
    lemma_mul_mod_noop(b, d, m);
}

/// The modular operations agree with integer arithmetic modulo `ℓ`.
pub proof fn lemma_cong_ops(a: nat, b: nat)
    ensures
        cong(add_mod(a, b) as int, a as int + b as int),
        cong(mul_mod(a, b) as int, a as int * b as int),
        cong(sub_mod(a, b) as int, a - b),
        cong(neg_mod(a) as int, 0 - a),
{
    let m = group_order() as int;
    lemma_mod_twice(a as int + b as int, m);
    lemma_mod_twice(a as int * b as int, m);
    lemma_mod_twice(a as int - b as int, m);
    lemma_mod_bound(a as int - b as int, m);
    lemma_mod_bound(0 - a as int, m);
    lemma_mod_twice(0 - a as int, m);
}

/// An exponent of a point: `pt == g * dlog(pt)` for every point.
pub open spec fn dlog(pt: Seq<u8>) -> int {
    choose|a: int| 0 <= a < group_order() && pt == exp_point(a)
}

pub proof fn lemma_dlog(pt: Seq<u8>)
    requires
        group_laws(),
        is_point(pt),
    ensures
        pt == exp_point(dlog(pt)),
{
    let a = lemma_exponent_of(pt);
    assert(0 <= a < group_order() && pt == exp_point(a));
}

/// Subtracting a multiple is adding the negated multiple.
pub proof fn lemma_sub_as_add_neg(x: Seq<u8>, c: Seq<u8>, g: nat)
    requires
        group_laws(),
        is_point(x),
        is_point(c),
        g < group_order(),
    ensures
        ristretto_sub(x, ristretto_mul(c, g)) == ristretto_add(x, ristretto_mul(c, neg_mod(g))),
{
    let a = lemma_exponent_of(x);
    let b = lemma_exponent_of(c);
    lemma_exp_mul(b, g);
    lemma_exp_sub(a, b * g);
    lemma_exp_mul(b, neg_mod(g));
    lemma_exp_add(a, b * neg_mod(g));
    lemma_cong_ops(g, 0);
    lemma_cong_mul(b, b, neg_mod(g) as int, 0 - g);
    assert(b * (0 - g) == 0 - b * g) by (nonlinear_arith);
    lemma_cong_add(a, a, b * neg_mod(g), 0 - b * g);
    lemma_exp_cong(a - b * g, a + b * neg_mod(g));
}

/// A point times zero is the identity, times one the point itself.
pub proof fn lemma_mul_bit(pt: Seq<u8>, b: nat)
    requires
        group_laws(),
        is_point(pt),
        b <= 1,
    ensures
        ristretto_mul(pt, b) == (if b == 0 {
            identity_encoding()
        } else {
            pt
        }),
{
    let a = lemma_exponent_of(pt);
    lemma_exp_mul(a, b);
    lemma_exp_constants(0);
    if b == 0 {
        assert(a * b == 0) by (nonlinear_arith)
            requires
                b == 0,
        ;
    } else {
        assert(a * b == a) by (nonlinear_arith)
            requires
                b == 1,
        ;
    }
}

} // verus!
