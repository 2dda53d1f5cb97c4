use anonymous_credit_tokens::{
    scalar_to_u128, CreditToken, Error, Params, Point, PreIssuance, PrivateKey, Scalar,
    SpendNonces,
};
use rand_core::OsRng;

fn params() -> Params {
    Params::new("test-org", "test-service", "test", "2024-01-01")
}

fn issue_token(params: &Params, key: &PrivateKey, credits: u128) -> CreditToken {
    let pre = PreIssuance::random(OsRng);
    let request = pre.request(params, OsRng);
    let response = key
        .issue(params, &request, Scalar::from_u128(credits), OsRng)
        .unwrap();
    pre.to_credit_token(params, key.public(), &request, &response)
        .unwrap()
}

fn l_plus_two() -> [u8; 32] {
    [
        0xef, 0xd3, 0xf5, 0x5c, 0x1a, 0x63, 0x12, 0x58, 0xd6, 0x9c, 0xf7, 0xa2, 0xde, 0xf9, 0xde,
        0x14, 0x00, 0x00, 0x00, 0x00, 0x00, 0x00, 0x00, 0x00, 0x00, 0x00, 0x00, 0x00, 0x00, 0x00,
        0x00, 0x10,
    ]
}

#[test]
fn scalar_to_u128_small_values() {
    assert_eq!(scalar_to_u128(&Scalar::from_u128(42)), Some(42));
    assert_eq!(scalar_to_u128(&Scalar::zero()), Some(0));
    assert_eq!(scalar_to_u128(&Scalar::from_u128(u128::MAX)), Some(u128::MAX));
}

#[test]
fn scalar_to_u128_large_values() {
    let two_pow_128 = Scalar::from_u128(u128::MAX).plus(&Scalar::one());
    assert_eq!(scalar_to_u128(&two_pow_128), None);
    let minus_one = Scalar::one().negated();
    assert_eq!(scalar_to_u128(&minus_one), None);
}

#[test]
fn scalar_arithmetic_is_modular() {
    let two = Scalar::from_u128(2);
    let three = Scalar::from_u128(3);
    let five = Scalar::from_u128(5);
    assert_eq!(scalar_to_u128(&two.plus(&three)), Some(5));
    assert_eq!(scalar_to_u128(&three.times(&five)), Some(15));
    assert_eq!(scalar_to_u128(&five.minus(&three)), Some(2));
    let wrapped = three.minus(&five);
    assert_eq!(scalar_to_u128(&wrapped), None);
    assert_eq!(scalar_to_u128(&wrapped.plus(&five)), Some(3));
    assert_eq!(scalar_to_u128(&Scalar::one().negated().plus(&Scalar::one())), Some(0));
    assert_eq!(scalar_to_u128(&three.invert().times(&three)), Some(1));
    assert!(three.ct_equals(&Scalar::from_u128(3)));
    assert!(!three.ct_equals(&five));
    assert_eq!(Scalar::zero().ct_is_zero(), 1);
    assert_eq!(three.ct_is_zero(), 0);
    assert!(Scalar::select(&two, &three, 1).ct_equals(&three));
    assert!(Scalar::select(&two, &three, 0).ct_equals(&two));
}

#[test]
fn scalar_reduction_of_wide_input() {
    let mut wide = [0u8; 64];
    wide[..32].copy_from_slice(&l_plus_two());
    let reduced = Scalar::from_bytes_mod_order_wide(&wide);
    assert_eq!(scalar_to_u128(&reduced), Some(2));
}

#[test]
fn scalar_canonical_bytes() {
    assert!(Scalar::from_canonical_bytes(l_plus_two()).is_none());
    let one = Scalar::from_canonical_bytes(Scalar::one().to_bytes()).unwrap();
    assert_eq!(scalar_to_u128(&one), Some(1));
    let mut bytes = [0u8; 32];
    bytes[0] = 7;
    assert_eq!(Scalar::from_u128(7).to_bytes(), bytes);
}

#[test]
fn point_constants_and_operations() {
    let g = Point::generator();
    let id = Point::identity();
    assert_eq!(id.to_bytes(), [0u8; 32]);
    assert_eq!(
        g.to_bytes(),
        [
            0xe2, 0xf2, 0xae, 0x0a, 0x6a, 0xbc, 0x4e, 0x71, 0xa8, 0x84, 0xa9, 0x61, 0xc5, 0x00,
            0x51, 0x5f, 0x58, 0xe3, 0x0b, 0x6a, 0xa5, 0x82, 0xdd, 0x8d, 0xb6, 0xa6, 0x59, 0x45,
            0xe0, 0x8d, 0x2d, 0x76,
        ]
    );
    assert!(g.plus(&id).ct_equals(&g));
    assert!(g.minus(&g).is_identity());
    assert!(g.times(&Scalar::zero()).is_identity());
    assert!(g.times(&Scalar::one()).ct_equals(&g));
    assert!(g.plus(&g).ct_equals(&g.times(&Scalar::from_u128(2))));
    assert!(!g.plus(&g).ct_equals(&g));
    assert!(Point::select(&g, &id, 1).is_identity());
    assert!(Point::select(&g, &id, 0).ct_equals(&g));
    assert!(Point::from_bytes([0xff; 32]).is_none());
    assert!(Point::from_bytes(g.to_bytes()).unwrap().ct_equals(&g));
    let mut uniform = [0u8; 64];
    uniform[3] = 9;
    let h = Point::from_uniform_bytes(&uniform);
    assert!(h.ct_equals(&Point::from_uniform_bytes(&uniform)));
    assert!(!h.ct_equals(&Point::from_uniform_bytes(&[0u8; 64])));
}

#[test]
fn params_are_deterministic_per_deployment() {
    let a = params();
    let b = params();
    assert_eq!(a.h1().to_bytes(), b.h1().to_bytes());
    assert_eq!(a.h2().to_bytes(), b.h2().to_bytes());
    assert_eq!(a.h3().to_bytes(), b.h3().to_bytes());
    assert_ne!(a.h1().to_bytes(), a.h2().to_bytes());
    assert_ne!(a.h2().to_bytes(), a.h3().to_bytes());
    let other = Params::new("test-org", "test-service", "test", "2024-01-02");
    assert_ne!(a.h1().to_bytes(), other.h1().to_bytes());
    let random = Params::random(OsRng);
    assert_ne!(a.h1().to_bytes(), random.h1().to_bytes());
}

#[test]
fn params_equality_compares_third_generator_with_second() {
    let g = Point::generator();
    let id = Point::identity();
    let two_g = g.plus(&g);
    let left = Params::from_generators(g, two_g, two_g);
    let right = Params::from_generators(g, two_g, id);
    assert!(left == right);
    let p = params();
    assert!(!(p == p.clone()));
}

#[test]
fn private_key_public_point() {
    let key = PrivateKey::from_scalar(Scalar::from_u128(5));
    let expected = Point::generator().times(&Scalar::from_u128(5));
    assert!(key.public().point().ct_equals(&expected));
    let random = PrivateKey::random(OsRng);
    assert!(!random.public().point().ct_equals(&expected));
}

#[test]
fn issuance_yields_token_with_issued_credits() {
    let params = params();
    let key = PrivateKey::random(OsRng);
    let pre = PreIssuance::from_scalars(Scalar::from_u128(11), Scalar::from_u128(12));
    let request = pre.request(&params, OsRng);
    let response = key
        .issue(&params, &request, Scalar::from_u128(20), OsRng)
        .unwrap();
    let token = pre
        .to_credit_token(&params, key.public(), &request, &response)
        .unwrap();
    assert_eq!(scalar_to_u128(&token.credits()), Some(20));
    assert_eq!(scalar_to_u128(&token.nullifier()), Some(12));
}

#[test]
fn deterministic_issuance_matches_itself() {
    let params = params();
    let key = PrivateKey::from_scalar(Scalar::from_u128(77));
    let pre = PreIssuance::from_scalars(Scalar::from_u128(1), Scalar::from_u128(2));
    let request = pre.request_with(&params, &Scalar::from_u128(3), &Scalar::from_u128(4));
    let request2 = pre.request_with(&params, &Scalar::from_u128(3), &Scalar::from_u128(4));
    let e = Scalar::from_u128(5);
    let alpha = Scalar::from_u128(6);
    let response = key
        .issue_with(&params, &request, Scalar::from_u128(30), e, alpha)
        .unwrap();
    let response2 = key
        .issue_with(&params, &request2, Scalar::from_u128(30), e, alpha)
        .unwrap();
    assert!(response == response2);
    let token = pre
        .to_credit_token(&params, key.public(), &request, &response)
        .unwrap();
    assert_eq!(scalar_to_u128(&token.credits()), Some(30));
}

#[test]
fn issue_refuses_request_for_other_params() {
    let params = params();
    let other = Params::new("other-org", "test-service", "test", "2024-01-01");
    let key = PrivateKey::random(OsRng);
    let pre = PreIssuance::random(OsRng);
    let request = pre.request(&other, OsRng);
    let r = key.issue(&params, &request, Scalar::from_u128(20), OsRng);
    assert_eq!(r.err(), Some(Error::InvalidIssuanceRequestProof));
}

#[test]
fn token_refuses_response_under_other_key() {
    let params = params();
    let key = PrivateKey::random(OsRng);
    let other_key = PrivateKey::random(OsRng);
    let pre = PreIssuance::random(OsRng);
    let request = pre.request(&params, OsRng);
    let response = key
        .issue(&params, &request, Scalar::from_u128(20), OsRng)
        .unwrap();
    let r = pre.to_credit_token(&params, other_key.public(), &request, &response);
    assert_eq!(r.err(), Some(Error::InvalidIssuanceResponseProof));
}

#[test]
fn spend_and_refund_leave_remaining_balance() {
    let params = params();
    let key = PrivateKey::random(OsRng);
    let token = issue_token(&params, &key, 20);
    let (proof, prerefund) = token.prove_spend(&params, Scalar::from_u128(10), OsRng);
    assert!(proof.nullifier().ct_equals(&token.nullifier()));
    assert_eq!(scalar_to_u128(&proof.charge()), Some(10));
    let refund = key.refund(&params, &proof, OsRng).unwrap();
    let token2 = prerefund
        .to_credit_token(&params, &proof, &refund, key.public())
        .unwrap();
    assert_eq!(scalar_to_u128(&token2.credits()), Some(10));
    assert!(!token2.nullifier().ct_equals(&token.nullifier()));
}

#[test]
fn spend_of_whole_balance_leaves_empty_token() {
    let params = params();
    let key = PrivateKey::random(OsRng);
    let token = issue_token(&params, &key, 10);
    let (proof, prerefund) = token.prove_spend(&params, Scalar::from_u128(10), OsRng);
    let refund = key.refund(&params, &proof, OsRng).unwrap();
    let token2 = prerefund
        .to_credit_token(&params, &proof, &refund, key.public())
        .unwrap();
    assert_eq!(scalar_to_u128(&token2.credits()), Some(0));
}

fn issue_token_of(params: &Params, key: &PrivateKey, credits: Scalar) -> CreditToken {
    let pre = PreIssuance::random(OsRng);
    let request = pre.request(params, OsRng);
    let response = key.issue(params, &request, credits, OsRng).unwrap();
    pre.to_credit_token(params, key.public(), &request, &response)
        .unwrap()
}

#[test]
fn spend_of_largest_balance_below_bound_is_accepted() {
    let params = params();
    let key = PrivateKey::random(OsRng);
    let token = issue_token(&params, &key, u128::MAX);
    let (proof, prerefund) = token.prove_spend(&params, Scalar::zero(), OsRng);
    let refund = key.refund(&params, &proof, OsRng).unwrap();
    let token2 = prerefund
        .to_credit_token(&params, &proof, &refund, key.public())
        .unwrap();
    assert_eq!(scalar_to_u128(&token2.credits()), Some(u128::MAX));
}

#[test]
fn spend_from_balance_of_two_thousand_is_refunded() {
    let params = params();
    let key = PrivateKey::random(OsRng);
    let token = issue_token(&params, &key, 2000);
    let (proof, prerefund) = token.prove_spend(&params, Scalar::from_u128(10), OsRng);
    let refund = key.refund(&params, &proof, OsRng).unwrap();
    let token2 = prerefund
        .to_credit_token(&params, &proof, &refund, key.public())
        .unwrap();
    assert_eq!(scalar_to_u128(&token2.credits()), Some(1990));
}

#[test]
fn spend_of_more_than_balance_is_refused() {
    let params = params();
    let key = PrivateKey::random(OsRng);
    let token = issue_token(&params, &key, 5);
    let (proof, _) = token.prove_spend(&params, Scalar::from_u128(10), OsRng);
    let r = key.refund(&params, &proof, OsRng);
    assert_eq!(r.err(), Some(Error::InvalidClientSpendProof));
}

#[test]
fn spend_leaving_balance_at_bound_is_refused() {
    let params = params();
    let key = PrivateKey::random(OsRng);
    let two_pow_128_plus_ten = Scalar::from_u128(u128::MAX).plus(&Scalar::from_u128(11));
    let token = issue_token_of(&params, &key, two_pow_128_plus_ten);
    let (proof, _) = token.prove_spend(&params, Scalar::from_u128(10), OsRng);
    let r = key.refund(&params, &proof, OsRng);
    assert_eq!(r.err(), Some(Error::InvalidClientSpendProof));
}

#[test]
fn refund_refuses_proof_for_other_key() {
    let params = params();
    let key = PrivateKey::random(OsRng);
    let other_key = PrivateKey::random(OsRng);
    let token = issue_token(&params, &key, 20);
    let (proof, _) = token.prove_spend(&params, Scalar::from_u128(10), OsRng);
    let r = other_key.refund(&params, &proof, OsRng);
    assert_eq!(r.err(), Some(Error::InvalidClientSpendProof));
}

fn nonces_with_r1(r1: Scalar) -> SpendNonces {
    let mut rng = OsRng;
    let mut nonces = SpendNonces::random(&mut rng);
    nonces.r1 = r1;
    nonces
}

#[test]
fn refund_refuses_identity_signature_point() {
    let params = params();
    let key = PrivateKey::random(OsRng);
    let token = issue_token(&params, &key, 20);
    let nonces = nonces_with_r1(Scalar::zero());
    let (proof, _) = token.prove_spend_with(&params, Scalar::from_u128(10), &nonces);
    let r = key.refund(&params, &proof, OsRng);
    assert_eq!(r.err(), Some(Error::IdentityPointError));
}

#[test]
fn deterministic_spend_is_accepted() {
    let params = params();
    let key = PrivateKey::random(OsRng);
    let token = issue_token(&params, &key, 20);
    let nonces = nonces_with_r1(Scalar::from_u128(3));
    let (proof, prerefund) = token.prove_spend_with(&params, Scalar::from_u128(7), &nonces);
    let refund = key
        .refund_with(&params, &proof, Scalar::from_u128(8), Scalar::from_u128(9))
        .unwrap();
    let token2 = prerefund
        .to_credit_token(&params, &proof, &refund, key.public())
        .unwrap();
    assert_eq!(scalar_to_u128(&token2.credits()), Some(13));
    assert!(token2.nullifier().ct_equals(&nonces.k_star));
}

#[test]
fn refunded_token_refuses_other_key() {
    let params = params();
    let key = PrivateKey::random(OsRng);
    let other_key = PrivateKey::random(OsRng);
    let token = issue_token(&params, &key, 20);
    let (proof, prerefund) = token.prove_spend(&params, Scalar::from_u128(10), OsRng);
    let refund = key.refund(&params, &proof, OsRng).unwrap();
    let r = prerefund.to_credit_token(&params, &proof, &refund, other_key.public());
    assert_eq!(r.err(), Some(Error::InvalidRefundProof));
}
